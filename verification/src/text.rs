//! Tokenizer: lower-cases the text (Unicode case mapping), splits on
//! whitespace runs, and drops empty fragments.

use vstd::prelude::*;

verus! {

/// The separators the tokenizer splits on: the characters with the Unicode
/// `White_Space` property, the set `char::is_whitespace` accepts.
pub open spec fn is_ws(c: char) -> bool {
    let v = c as u32;
    (0x09 <= v && v <= 0x0D) || v == 0x20 || v == 0x85 || v == 0xA0 || v == 0x1680 || (0x2000 <= v
        && v <= 0x200A) || v == 0x2028 || v == 0x2029 || v == 0x202F || v == 0x205F || v == 0x3000
}

/// What `str::to_lowercase` returns: the Unicode-lowercased text, a function
/// of the characters alone.
pub uninterp spec fn lower_of(s: Seq<char>) -> Seq<char>;

/// Relies on `str::to_lowercase`: the result depends on the characters
/// alone, and an empty string stays empty.
#[verifier::external_body]
fn lowercase(s: &str) -> (r: String)
    ensures
        r@ == lower_of(s@),
        s@.len() == 0 ==> r@.len() == 0,
{
    s.to_lowercase()
}

/// Splitting on whitespace, carrying the token under construction: `cur` is
/// the run of non-whitespace characters read so far, `rest` what is left.
pub open spec fn split_acc(cur: Seq<char>, rest: Seq<char>) -> Seq<Seq<char>>
    decreases rest.len(),
{
    if rest.len() == 0 {
        if cur.len() == 0 {
            Seq::empty()
        } else {
            seq![cur]
        }
    } else if is_ws(rest[0]) {
        if cur.len() == 0 {
            split_acc(Seq::empty(), rest.drop_first())
        } else {
            seq![cur] + split_acc(Seq::empty(), rest.drop_first())
        }
    } else {
        split_acc(cur.push(rest[0]), rest.drop_first())
    }
}

/// The maximal non-whitespace runs of `s`, in order.
pub open spec fn split_ws(s: Seq<char>) -> Seq<Seq<char>> {
    split_acc(Seq::empty(), s)
}

/// What `tokenize` returns: the maximal whitespace-free fragments of the
/// lowercased text, in order.
pub open spec fn tokens_of(s: Seq<char>) -> Seq<Seq<char>> {
    split_ws(lower_of(s))
}

/// A term as the tokenizer emits it: non-empty and free of whitespace.
pub open spec fn is_term(t: Seq<char>) -> bool {
    &&& t.len() > 0
    &&& forall|i: int| 0 <= i < t.len() ==> !is_ws(#[trigger] t[i])
}

/// The tokens joined back into one text, single spaces between them.
pub open spec fn join_terms(ts: Seq<Seq<char>>) -> Seq<char>
    decreases ts.len(),
{
    if ts.len() == 0 {
        Seq::empty()
    } else if ts.len() == 1 {
        ts[0]
    } else {
        ts[0] + seq![' '] + join_terms(ts.drop_first())
    }
}

fn is_ws_char(c: char) -> (r: bool)
    ensures
        r == is_ws(c),
{
    let v = c as u32;
    (0x09 <= v && v <= 0x0D) || v == 0x20 || v == 0x85 || v == 0xA0 || v == 0x1680 || (0x2000 <= v
        && v <= 0x200A) || v == 0x2028 || v == 0x2029 || v == 0x202F || v == 0x205F || v == 0x3000
}

/// Relies on `String::push`: appends exactly the one character.
#[verifier::external_body]
pub(crate) fn push_char(s: &mut String, c: char)
    ensures
        final(s)@ == old(s)@.push(c),
{
    s.push(c);
}

/// Lower-cases the input (Unicode case mapping, via `str::to_lowercase`),
/// splits on whitespace runs, and returns the non-empty fragments in order.
pub fn tokenize(s: &str) -> (r: Vec<String>)
    ensures
        r.deep_view() == tokens_of(s@),
{
    let lowered = lowercase(s);
    let ghost low = lower_of(s@);
    let n = lowered.as_str().unicode_len();
    let mut out: Vec<String> = Vec::new();
    let mut cur: String = String::new();
    let mut i: usize = 0;
    proof {
        assert(out.deep_view() =~= Seq::<Seq<char>>::empty());
        assert(low.skip(0) =~= low);
        assert(Seq::<Seq<char>>::empty() + split_acc(cur@, low) =~= split_acc(cur@, low));
        assert(cur@ =~= Seq::<char>::empty());
    }
    while i < n
        invariant
            low == lower_of(s@),
            lowered@ == low,
            n == low.len(),
            i <= n,
            tokens_of(s@) == out.deep_view() + split_acc(cur@, low.skip(i as int)),
        decreases n - i,
    {
        let ghost rest = low.skip(i as int);
        let c = lowered.as_str().get_char(i);
        proof {
            assert(rest.len() == n - i);
            assert(rest[0] == low[i as int]);
            assert(rest.drop_first() =~= low.skip(i + 1));
        }
        if is_ws_char(c) {
            if cur.as_str().unicode_len() > 0 {
                let ghost old_out = out.deep_view();
                let ghost tok = cur@;
                out.push(cur);
                cur = String::new();
                proof {
                    assert(split_acc(tok, rest) == seq![tok] + split_acc(
                        Seq::empty(),
                        rest.drop_first(),
                    ));
                    assert(out.deep_view() =~= old_out + seq![tok]);
                    assert((old_out + seq![tok]) + split_acc(Seq::empty(), rest.drop_first())
                        =~= old_out + (seq![tok] + split_acc(Seq::empty(), rest.drop_first())));
                    assert(cur@ =~= Seq::<char>::empty());
                    assert(split_acc(cur@, rest.drop_first()) == split_acc(
                        Seq::empty(),
                        rest.drop_first(),
                    ));
                }
            } else {
                proof {
                    assert(cur@ =~= Seq::<char>::empty());
                    assert(split_acc(cur@, rest) == split_acc(Seq::empty(), rest.drop_first()));
                }
            }
        } else {
            let ghost cur0 = cur@;
            push_char(&mut cur, c);
            proof {
                assert(split_acc(cur0, rest) == split_acc(cur0.push(rest[0]), rest.drop_first()));
                assert(cur@ == cur0.push(rest[0]));
            }
        }
        i += 1;
    }
    proof {
        assert(low.skip(n as int) =~= Seq::<char>::empty());
    }
    if cur.as_str().unicode_len() > 0 {
        let ghost old_out = out.deep_view();
        let ghost tok = cur@;
        out.push(cur);
        proof {
            assert(out.deep_view() =~= old_out + seq![tok]);
        }
    } else {
        proof {
            assert(out.deep_view() =~= out.deep_view() + split_acc(cur@, Seq::<char>::empty()));
        }
    }
    out
}

/// Joins terms with single spaces, the inverse direction of `tokenize`.
pub fn tokenize_to_string(terms: &Vec<String>) -> (r: String)
    ensures
        r@ == join_terms(terms.deep_view()),
{
    let mut out: String = String::new();
    let mut i: usize = 0;
    while i < terms.len()
        invariant
            i <= terms.len(),
            out@ == join_terms(terms.deep_view().take(i as int)),
        decreases terms.len() - i,
    {
        if i > 0 {
            push_char(&mut out, ' ');
        }
        out.append(terms[i].as_str());
        proof {
            lemma_join_push(terms.deep_view().take(i as int), terms.deep_view()[i as int]);
            assert(terms.deep_view().take(i as int).push(terms.deep_view()[i as int])
                =~= terms.deep_view().take(i + 1));
        }
        i += 1;
    }
    proof {
        assert(terms.deep_view().take(terms.len() as int) =~= terms.deep_view());
    }
    out
}

proof fn lemma_join_push(ts: Seq<Seq<char>>, t: Seq<char>)
    ensures
        join_terms(ts.push(t)) == if ts.len() == 0 {
            t
        } else {
            join_terms(ts) + seq![' '] + t
        },
    decreases ts.len(),
{
    if ts.len() == 0 {
        assert(ts.push(t)[0] =~= t);
        assert(join_terms(ts.push(t)) == t);
    } else if ts.len() == 1 {
        assert(ts.push(t).drop_first() =~= seq![t]);
        assert(ts.push(t)[0] =~= ts[0]);
        assert(join_terms(seq![t]) == seq![t][0]);
        assert(seq![t][0] =~= t);
        assert(join_terms(ts.push(t)) == ts[0] + seq![' '] + t);
        assert(join_terms(ts) + seq![' '] + t == ts[0] + seq![' '] + t);
    } else {
        lemma_join_push(ts.drop_first(), t);
        assert(ts.push(t).drop_first() =~= ts.drop_first().push(t));
        assert(ts.push(t)[0] =~= ts[0]);
        assert(join_terms(ts.push(t)) == ts[0] + seq![' '] + join_terms(ts.drop_first().push(t)));
        assert(ts[0] + seq![' '] + (join_terms(ts.drop_first()) + seq![' '] + t) =~= (ts[0]
            + seq![' '] + join_terms(ts.drop_first())) + seq![' '] + t);
    }
}

/// Every token that splitting yields is a term — non-empty and
/// whitespace-free — provided the partial token is whitespace-free.
pub proof fn lemma_split_acc_terms(cur: Seq<char>, rest: Seq<char>)
    requires
        forall|i: int| 0 <= i < cur.len() ==> !is_ws(#[trigger] cur[i]),
    ensures
        forall|k: int|
            0 <= k < split_acc(cur, rest).len() ==> is_term(#[trigger] split_acc(cur, rest)[k]),
    decreases rest.len(),
{
    let r = split_acc(cur, rest);
    if rest.len() == 0 {
        if cur.len() > 0 {
            assert(r == seq![cur]);
            assert(is_term(cur));
            assert(forall|k: int| 0 <= k < r.len() ==> is_term(#[trigger] r[k]));
        }
    } else if is_ws(rest[0]) {
        lemma_split_acc_terms(Seq::empty(), rest.drop_first());
        let sub = split_acc(Seq::empty(), rest.drop_first());
        if cur.len() == 0 {
            assert(r == sub);
            assert forall|k: int| 0 <= k < r.len() implies is_term(#[trigger] r[k]) by {
                assert(r[k] == sub[k]);
            }
        } else {
            assert(r == seq![cur] + sub);
            assert(is_term(cur));
            assert forall|k: int| 0 <= k < r.len() implies is_term(#[trigger] r[k]) by {
                if k == 0 {
                    assert(r[k] == cur);
                } else {
                    assert(r[k] == sub[k - 1]);
                }
            }
        }
    } else {
        assert forall|i: int| 0 <= i < cur.push(rest[0]).len() implies !is_ws(
            #[trigger] cur.push(rest[0])[i],
        ) by {
            if i < cur.len() {
                assert(cur.push(rest[0])[i] == cur[i]);
            } else {
                assert(cur.push(rest[0])[i] == rest[0]);
            }
        }
        lemma_split_acc_terms(cur.push(rest[0]), rest.drop_first());
        let sub = split_acc(cur.push(rest[0]), rest.drop_first());
        assert(r == sub);
        assert forall|k: int| 0 <= k < r.len() implies is_term(#[trigger] r[k]) by {
            assert(r[k] == sub[k]);
        }
    }
}

/// Reading a whitespace-free run extends the partial token and leaves the
/// rest of the split unchanged.
proof fn lemma_split_acc_run(cur: Seq<char>, t: Seq<char>, rest: Seq<char>)
    requires
        forall|i: int| 0 <= i < t.len() ==> !is_ws(#[trigger] t[i]),
    ensures
        split_acc(cur, t + rest) == split_acc(cur + t, rest),
    decreases t.len(),
{
    if t.len() == 0 {
        assert(t + rest =~= rest);
        assert(cur + t =~= cur);
    } else {
        assert((t + rest)[0] == t[0]);
        assert((t + rest).drop_first() =~= t.drop_first() + rest);
        lemma_split_acc_run(cur.push(t[0]), t.drop_first(), rest);
        assert(cur.push(t[0]) + t.drop_first() =~= cur + t);
    }
}

/// Splitting the joined terms gives the terms back.
pub proof fn lemma_split_join(ts: Seq<Seq<char>>)
    requires
        forall|k: int| 0 <= k < ts.len() ==> is_term(#[trigger] ts[k]),
    ensures
        split_ws(join_terms(ts)) == ts,
    decreases ts.len(),
{
    if ts.len() == 0 {
        assert(split_ws(join_terms(ts)) =~= ts);
    } else if ts.len() == 1 {
        assert(join_terms(ts) == ts[0]);
        assert(ts[0] + Seq::<char>::empty() =~= ts[0]);
        lemma_split_acc_run(Seq::empty(), ts[0], Seq::empty());
        assert(Seq::<char>::empty() + ts[0] =~= ts[0]);
        assert(split_acc(ts[0], Seq::<char>::empty()) == seq![ts[0]]);
        assert(split_ws(join_terms(ts)) =~= ts);
    } else {
        let tail = seq![' '] + join_terms(ts.drop_first());
        assert(join_terms(ts) == ts[0] + tail);
        lemma_split_acc_run(Seq::empty(), ts[0], tail);
        assert(Seq::<char>::empty() + ts[0] =~= ts[0]);
        assert(is_ws(tail[0]));
        assert(tail.drop_first() =~= join_terms(ts.drop_first()));
        assert(split_acc(ts[0], tail) == seq![ts[0]] + split_acc(
            Seq::empty(),
            join_terms(ts.drop_first()),
        ));
        assert(forall|k: int|
            0 <= k < ts.drop_first().len() ==> is_term(#[trigger] ts.drop_first()[k]));
        lemma_split_join(ts.drop_first());
        assert(seq![ts[0]] + ts.drop_first() =~= ts);
    }
}

/// Tokenizing is idempotent: re-tokenizing the joined tokens of a text
/// gives the same tokens again, whenever case folding leaves the joined
/// tokens unchanged. The tokens come out of the lowercased text already, so
/// the hypothesis asks only that lowercasing the lowercased-and-joined text
/// is a no-op; `str::to_lowercase` behaves so on real text, but documents no
/// such guarantee, so it stands as a hypothesis rather than a trusted claim.
pub proof fn lemma_tokenize_idempotent(s: Seq<char>)
    requires
        lower_of(join_terms(tokens_of(s))) == join_terms(tokens_of(s)),
    ensures
        tokens_of(join_terms(tokens_of(s))) == tokens_of(s),
{
    lemma_split_acc_terms(Seq::empty(), lower_of(s));
    lemma_split_join(tokens_of(s));
}

} // verus!
