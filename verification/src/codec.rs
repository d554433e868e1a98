//! The persisted index format, and its exact parser. Everything is
//! little-endian and length-prefixed: a string is a character count and one
//! 32-bit code point per character; a filter is a tag, then seed and
//! fingerprint table; the storage blob is a document count and the
//! documents in order. Decoding accepts exactly the encodings: anything
//! truncated, corrupt, or with trailing bytes is a `FormatError`.

use vstd::prelude::*;
use vstd::bytes::{
    spec_u32_to_le_bytes, spec_u32_from_le_bytes, spec_u64_to_le_bytes, spec_u64_from_le_bytes,
    lemma_auto_spec_u32_to_from_le_bytes, lemma_auto_spec_u64_to_from_le_bytes, u32_from_le_bytes,
    u32_to_le_bytes, u64_from_le_bytes, u64_to_le_bytes,
};
use vstd::utf8::{is_scalar, char_is_scalar, char_u32_cast};
use crate::errors::FormatError;
use crate::filter::{ApproximateFilter, FilterView};
use crate::store::{PostFilter, PostFilterView, PostId, PostIdView, Storage};
use crate::text::push_char;

verus! {

// ---------------------------------------------------------------- encoding
pub open spec fn enc_u64(x: u64) -> Seq<u8> {
    spec_u64_to_le_bytes(x)
}

pub open spec fn enc_chars(s: Seq<char>) -> Seq<u8>
    decreases s.len(),
{
    if s.len() == 0 {
        Seq::empty()
    } else {
        spec_u32_to_le_bytes(s[0] as u32) + enc_chars(s.drop_first())
    }
}

pub open spec fn enc_str(s: Seq<char>) -> Seq<u8> {
    enc_u64(s.len() as u64) + enc_chars(s)
}

pub open spec fn enc_opt_str(m: Option<Seq<char>>) -> Seq<u8> {
    match m {
        Option::None => seq![0u8],
        Option::Some(s) => seq![1u8] + enc_str(s),
    }
}

pub open spec fn enc_filter(f: FilterView) -> Seq<u8> {
    match f {
        FilterView::Empty => seq![0u8],
        FilterView::Built { seed, fingerprints } => seq![1u8] + enc_u64(seed) + enc_u64(
            fingerprints.len() as u64,
        ) + fingerprints,
    }
}

pub open spec fn enc_post(p: PostFilterView) -> Seq<u8> {
    enc_str(p.id.title) + enc_str(p.id.url) + enc_opt_str(p.id.meta) + enc_filter(p.filter)
}

pub open spec fn enc_posts(ps: Seq<PostFilterView>) -> Seq<u8>
    decreases ps.len(),
{
    if ps.len() == 0 {
        Seq::empty()
    } else {
        enc_post(ps[0]) + enc_posts(ps.drop_first())
    }
}

pub open spec fn enc_storage(ps: Seq<PostFilterView>) -> Seq<u8> {
    enc_u64(ps.len() as u64) + enc_posts(ps)
}

/// The bounds under which a storage value has an encoding: every count fits
/// a `u64` and every filter is well formed. Real in-memory values always
/// satisfy this.
pub open spec fn post_encodable(p: PostFilterView) -> bool {
    &&& p.id.title.len() <= u64::MAX
    &&& p.id.url.len() <= u64::MAX
    &&& match p.id.meta {
        Option::None => true,
        Option::Some(m) => m.len() <= u64::MAX,
    }
    &&& p.filter.wf()
    &&& match p.filter {
        FilterView::Empty => true,
        FilterView::Built { seed, fingerprints } => fingerprints.len() <= u64::MAX,
    }
}

pub open spec fn storage_encodable(ps: Seq<PostFilterView>) -> bool {
    &&& ps.len() <= u64::MAX
    &&& forall|i: int| 0 <= i < ps.len() ==> post_encodable(#[trigger] ps[i])
}

// ---------------------------------------------------------------- decoding
pub open spec fn dec_u64(b: Seq<u8>) -> Option<(u64, Seq<u8>)> {
    if b.len() >= 8 {
        Option::Some((spec_u64_from_le_bytes(b.take(8)), b.skip(8)))
    } else {
        Option::None
    }
}

pub open spec fn dec_char(b: Seq<u8>) -> Option<(char, Seq<u8>)> {
    if b.len() >= 4 {
        let v = spec_u32_from_le_bytes(b.take(4));
        if is_scalar(v) {
            Option::Some((v as char, b.skip(4)))
        } else {
            Option::None
        }
    } else {
        Option::None
    }
}

pub open spec fn dec_chars(n: nat, b: Seq<u8>) -> Option<(Seq<char>, Seq<u8>)>
    decreases n,
{
    if n == 0 {
        Option::Some((Seq::empty(), b))
    } else {
        match dec_char(b) {
            Option::None => Option::None,
            Option::Some((c, r)) => match dec_chars((n - 1) as nat, r) {
                Option::None => Option::None,
                Option::Some((s, r2)) => Option::Some((seq![c] + s, r2)),
            },
        }
    }
}

pub open spec fn dec_str(b: Seq<u8>) -> Option<(Seq<char>, Seq<u8>)> {
    match dec_u64(b) {
        Option::None => Option::None,
        Option::Some((n, r)) => dec_chars(n as nat, r),
    }
}

pub open spec fn dec_opt_str(b: Seq<u8>) -> Option<(Option<Seq<char>>, Seq<u8>)> {
    if b.len() == 0 {
        Option::None
    } else if b[0] == 0 {
        Option::Some((Option::None, b.drop_first()))
    } else if b[0] == 1 {
        match dec_str(b.drop_first()) {
            Option::None => Option::None,
            Option::Some((s, r)) => Option::Some((Option::Some(s), r)),
        }
    } else {
        Option::None
    }
}

pub open spec fn dec_filter(b: Seq<u8>) -> Option<(FilterView, Seq<u8>)> {
    if b.len() == 0 {
        Option::None
    } else if b[0] == 0 {
        Option::Some((FilterView::Empty, b.drop_first()))
    } else if b[0] == 1 {
        match dec_u64(b.drop_first()) {
            Option::None => Option::None,
            Option::Some((seed, r)) => match dec_u64(r) {
                Option::None => Option::None,
                Option::Some((len, r2)) => if 0 < len && len % 3 == 0 && len <= r2.len() {
                    Option::Some(
                        (
                            FilterView::Built {
                                seed,
                                fingerprints: r2.take(len as int),
                            },
                            r2.skip(len as int),
                        ),
                    )
                } else {
                    Option::None
                },
            },
        }
    } else {
        Option::None
    }
}

pub open spec fn dec_post(b: Seq<u8>) -> Option<(PostFilterView, Seq<u8>)> {
    match dec_str(b) {
        Option::None => Option::None,
        Option::Some((title, r1)) => match dec_str(r1) {
            Option::None => Option::None,
            Option::Some((url, r2)) => match dec_opt_str(r2) {
                Option::None => Option::None,
                Option::Some((meta, r3)) => match dec_filter(r3) {
                    Option::None => Option::None,
                    Option::Some((f, r4)) => Option::Some(
                        (PostFilterView { id: PostIdView { title, url, meta }, filter: f }, r4),
                    ),
                },
            },
        },
    }
}

pub open spec fn dec_posts(n: nat, b: Seq<u8>) -> Option<(Seq<PostFilterView>, Seq<u8>)>
    decreases n,
{
    if n == 0 {
        Option::Some((Seq::empty(), b))
    } else {
        match dec_post(b) {
            Option::None => Option::None,
            Option::Some((p, r)) => match dec_posts((n - 1) as nat, r) {
                Option::None => Option::None,
                Option::Some((ps, r2)) => Option::Some((seq![p] + ps, r2)),
            },
        }
    }
}

/// The one storage value the bytes encode, if any: a count, that many
/// documents, and nothing after them.
pub open spec fn dec_storage(b: Seq<u8>) -> Option<Seq<PostFilterView>> {
    match dec_u64(b) {
        Option::None => Option::None,
        Option::Some((n, r)) => match dec_posts(n as nat, r) {
            Option::None => Option::None,
            Option::Some((ps, rest)) => if rest.len() == 0 {
                Option::Some(ps)
            } else {
                Option::None
            },
        },
    }
}

/// The one filter the bytes encode, if any, with nothing after it.
pub open spec fn dec_filter_full(b: Seq<u8>) -> Option<FilterView> {
    match dec_filter(b) {
        Option::None => Option::None,
        Option::Some((f, rest)) => if rest.len() == 0 {
            Option::Some(f)
        } else {
            Option::None
        },
    }
}

// ---------------------------------------------------- round-trip lemmas
pub proof fn lemma_dec_enc_u64(x: u64, rest: Seq<u8>)
    ensures
        enc_u64(x).len() == 8,
        dec_u64(enc_u64(x) + rest) == Option::Some((x, rest)),
{
    lemma_auto_spec_u64_to_from_le_bytes();
    assert((enc_u64(x) + rest).take(8) =~= enc_u64(x));
    assert((enc_u64(x) + rest).skip(8) =~= rest);
}

proof fn lemma_enc_chars_push(s: Seq<char>, c: char)
    ensures
        enc_chars(s.push(c)) == enc_chars(s) + spec_u32_to_le_bytes(c as u32),
    decreases s.len(),
{
    if s.len() == 0 {
        let sp = s.push(c);
        assert(sp[0] == c);
        assert(sp.drop_first() =~= Seq::<char>::empty());
        assert(enc_chars(sp) == spec_u32_to_le_bytes(c as u32) + enc_chars(Seq::<char>::empty()));
        assert(enc_chars(Seq::<char>::empty()) == Seq::<u8>::empty());
        assert(spec_u32_to_le_bytes(c as u32) + Seq::<u8>::empty() =~= spec_u32_to_le_bytes(
            c as u32,
        ));
        assert(enc_chars(s) == Seq::<u8>::empty());
        assert(enc_chars(s) + spec_u32_to_le_bytes(c as u32) =~= spec_u32_to_le_bytes(c as u32));
    } else {
        lemma_enc_chars_push(s.drop_first(), c);
        assert(s.push(c)[0] == s[0]);
        assert(s.push(c).drop_first() =~= s.drop_first().push(c));
        assert(spec_u32_to_le_bytes(s[0] as u32) + (enc_chars(s.drop_first())
            + spec_u32_to_le_bytes(c as u32)) =~= (spec_u32_to_le_bytes(s[0] as u32) + enc_chars(
            s.drop_first(),
        )) + spec_u32_to_le_bytes(c as u32));
    }
}

proof fn lemma_dec_enc_chars(s: Seq<char>, rest: Seq<u8>)
    ensures
        dec_chars(s.len(), enc_chars(s) + rest) == Option::Some((s, rest)),
    decreases s.len(),
{
    lemma_auto_spec_u32_to_from_le_bytes();
    if s.len() == 0 {
        assert(enc_chars(s) + rest =~= rest);
        assert(dec_chars(0, rest) == Option::Some((Seq::<char>::empty(), rest)));
        assert(s =~= Seq::<char>::empty());
    } else {
        let c = s[0];
        let b = enc_chars(s) + rest;
        let tail = enc_chars(s.drop_first()) + rest;
        char_is_scalar(c);
        assert(b =~= spec_u32_to_le_bytes(c as u32) + tail);
        assert(b.take(4) =~= spec_u32_to_le_bytes(c as u32));
        assert(b.skip(4) =~= tail);
        assert(spec_u32_from_le_bytes(b.take(4)) == c as u32);
        char_u32_cast(c, c as u32);
        assert(dec_char(b) == Option::Some((c, tail)));
        lemma_dec_enc_chars(s.drop_first(), rest);
        assert(seq![c] + s.drop_first() =~= s);
    }
}

pub proof fn lemma_dec_enc_str(s: Seq<char>, rest: Seq<u8>)
    requires
        s.len() <= u64::MAX,
    ensures
        dec_str(enc_str(s) + rest) == Option::Some((s, rest)),
{
    lemma_dec_enc_u64(s.len() as u64, enc_chars(s) + rest);
    assert(enc_str(s) + rest =~= enc_u64(s.len() as u64) + (enc_chars(s) + rest));
    lemma_dec_enc_chars(s, rest);
}

pub proof fn lemma_dec_enc_opt_str(m: Option<Seq<char>>, rest: Seq<u8>)
    requires
        match m {
            Option::None => true,
            Option::Some(s) => s.len() <= u64::MAX,
        },
    ensures
        dec_opt_str(enc_opt_str(m) + rest) == Option::Some((m, rest)),
{
    match m {
        Option::None => {
            assert((enc_opt_str(m) + rest)[0] == 0u8);
            assert((enc_opt_str(m) + rest).drop_first() =~= rest);
        },
        Option::Some(s) => {
            let b = enc_opt_str(m) + rest;
            assert(b[0] == 1u8);
            assert(b.drop_first() =~= enc_str(s) + rest);
            lemma_dec_enc_str(s, rest);
        },
    }
}

pub proof fn lemma_dec_enc_filter(f: FilterView, rest: Seq<u8>)
    requires
        f.wf(),
        match f {
            FilterView::Empty => true,
            FilterView::Built { seed, fingerprints } => fingerprints.len() <= u64::MAX,
        },
    ensures
        dec_filter(enc_filter(f) + rest) == Option::Some((f, rest)),
{
    match f {
        FilterView::Empty => {
            assert((enc_filter(f) + rest)[0] == 0u8);
            assert((enc_filter(f) + rest).drop_first() =~= rest);
        },
        FilterView::Built { seed, fingerprints } => {
            let b = enc_filter(f) + rest;
            let len = fingerprints.len() as u64;
            assert(b[0] == 1u8);
            assert(b.drop_first() =~= enc_u64(seed) + (enc_u64(len) + (fingerprints + rest)));
            lemma_dec_enc_u64(seed, enc_u64(len) + (fingerprints + rest));
            lemma_dec_enc_u64(len, fingerprints + rest);
            assert((fingerprints + rest).take(len as int) =~= fingerprints);
            assert((fingerprints + rest).skip(len as int) =~= rest);
        },
    }
}

pub proof fn lemma_dec_enc_post(p: PostFilterView, rest: Seq<u8>)
    requires
        post_encodable(p),
    ensures
        dec_post(enc_post(p) + rest) == Option::Some((p, rest)),
{
    let r1 = enc_str(p.id.url) + (enc_opt_str(p.id.meta) + (enc_filter(p.filter) + rest));
    assert(enc_post(p) + rest =~= enc_str(p.id.title) + r1);
    lemma_dec_enc_str(p.id.title, r1);
    let r2 = enc_opt_str(p.id.meta) + (enc_filter(p.filter) + rest);
    lemma_dec_enc_str(p.id.url, r2);
    let r3 = enc_filter(p.filter) + rest;
    lemma_dec_enc_opt_str(p.id.meta, r3);
    lemma_dec_enc_filter(p.filter, rest);
    assert(PostFilterView {
        id: PostIdView { title: p.id.title, url: p.id.url, meta: p.id.meta },
        filter: p.filter,
    } == p);
}

proof fn lemma_dec_enc_posts(ps: Seq<PostFilterView>, rest: Seq<u8>)
    requires
        forall|i: int| 0 <= i < ps.len() ==> post_encodable(#[trigger] ps[i]),
    ensures
        dec_posts(ps.len(), enc_posts(ps) + rest) == Option::Some((ps, rest)),
    decreases ps.len(),
{
    if ps.len() == 0 {
        assert(enc_posts(ps) + rest =~= rest);
        assert(ps =~= Seq::<PostFilterView>::empty());
    } else {
        let tail = enc_posts(ps.drop_first()) + rest;
        assert(enc_posts(ps) + rest =~= enc_post(ps[0]) + tail);
        lemma_dec_enc_post(ps[0], tail);
        assert(forall|i: int|
            0 <= i < ps.drop_first().len() ==> post_encodable(#[trigger] ps.drop_first()[i]));
        lemma_dec_enc_posts(ps.drop_first(), rest);
        assert(seq![ps[0]] + ps.drop_first() =~= ps);
    }
}

/// Round trip at the storage level: decoding an encoded storage value gives
/// the value back, exactly.
pub proof fn lemma_storage_round_trip(ps: Seq<PostFilterView>)
    requires
        storage_encodable(ps),
    ensures
        dec_storage(enc_storage(ps)) == Option::Some(ps),
{
    lemma_dec_enc_u64(ps.len() as u64, enc_posts(ps) + Seq::empty());
    assert(enc_storage(ps) =~= enc_u64(ps.len() as u64) + (enc_posts(ps) + Seq::empty()));
    lemma_dec_enc_posts(ps, Seq::empty());
}

// -------------------------------------------------- shortness lemmas
/// Decoding a character list never grows the remainder.
proof fn lemma_dec_chars_mono(n: nat, b: Seq<u8>)
    ensures
        match dec_chars(n, b) {
            Option::Some((s, r)) => r.len() <= b.len(),
            Option::None => true,
        },
    decreases n,
{
    if n > 0 {
        match dec_char(b) {
            Option::None => {},
            Option::Some((c, r)) => {
                lemma_dec_chars_mono((n - 1) as nat, r);
            },
        }
    }
}

/// Too many characters for the bytes at hand: decoding fails.
proof fn lemma_dec_chars_short(n: nat, b: Seq<u8>)
    requires
        4 * n > b.len(),
    ensures
        dec_chars(n, b) is None,
    decreases n,
{
    if n > 0 {
        if b.len() >= 4 {
            match dec_char(b) {
                Option::None => {},
                Option::Some((c, r)) => {
                    lemma_dec_chars_short((n - 1) as nat, r);
                },
            }
        }
    }
}

/// A decoded document consumes at least 18 bytes.
proof fn lemma_dec_post_min(b: Seq<u8>)
    ensures
        match dec_post(b) {
            Option::Some((p, r)) => r.len() + 18 <= b.len(),
            Option::None => true,
        },
{
    match dec_str(b) {
        Option::None => {},
        Option::Some((title, r1)) => {
            assert(r1.len() + 8 <= b.len()) by {
                lemma_dec_chars_mono(
                    spec_u64_from_le_bytes(b.take(8)) as nat,
                    b.skip(8),
                );
            }
            match dec_str(r1) {
                Option::None => {},
                Option::Some((url, r2)) => {
                    assert(r2.len() + 8 <= r1.len()) by {
                        lemma_dec_chars_mono(
                            spec_u64_from_le_bytes(r1.take(8)) as nat,
                            r1.skip(8),
                        );
                    }
                    match dec_opt_str(r2) {
                        Option::None => {},
                        Option::Some((meta, r3)) => {
                            assert(r3.len() + 1 <= r2.len()) by {
                                if r2.len() > 0 && r2[0] == 1 {
                                    match dec_u64(r2.drop_first()) {
                                        Option::None => {},
                                        Option::Some((n, rr)) => {
                                            lemma_dec_chars_mono(n as nat, rr);
                                        },
                                    }
                                }
                            }
                            match dec_filter(r3) {
                                Option::None => {},
                                Option::Some((f, r4)) => {
                                    assert(r4.len() + 1 <= r3.len());
                                },
                            }
                        },
                    }
                },
            }
        },
    }
}

/// Too many documents for the bytes at hand: decoding fails.
proof fn lemma_dec_posts_short(n: nat, b: Seq<u8>)
    requires
        18 * n > b.len(),
    ensures
        dec_posts(n, b) is None,
    decreases n,
{
    if n > 0 {
        match dec_post(b) {
            Option::None => {},
            Option::Some((p, r)) => {
                lemma_dec_post_min(b);
                lemma_dec_posts_short((n - 1) as nat, r);
            },
        }
    }
}

/// Round trip at the filter level: a decoded encoding is the same filter,
/// so it answers every membership query identically.
pub proof fn lemma_filter_round_trip(f: FilterView)
    requires
        f.wf(),
        match f {
            FilterView::Empty => true,
            FilterView::Built { seed, fingerprints } => fingerprints.len() <= u64::MAX,
        },
    ensures
        dec_filter_full(enc_filter(f)) == Option::Some(f),
        dec_filter_full(enc_filter(f)).unwrap().positive() == f.positive(),
{
    lemma_dec_enc_filter(f, Seq::empty());
    assert(enc_filter(f) + Seq::empty() =~= enc_filter(f));
}

// ---------------------------------------------------------------- writers
fn append_bytes(out: &mut Vec<u8>, b: &Vec<u8>)
    ensures
        final(out)@ == old(out)@ + b@,
{
    let ghost base = out@;
    let mut i: usize = 0;
    proof {
        assert(base + b@.take(0) =~= base);
    }
    while i < b.len()
        invariant
            i <= b@.len(),
            out@ == base + b@.take(i as int),
        decreases b@.len() - i,
    {
        out.push(b[i]);
        proof {
            assert(b@.take(i + 1) =~= b@.take(i as int).push(b@[i as int]));
            assert(base + b@.take(i as int).push(b@[i as int]) =~= (base + b@.take(i as int)).push(
                b@[i as int],
            ));
        }
        i += 1;
    }
    proof {
        assert(b@.take(b@.len() as int) =~= b@);
    }
}

fn write_u64(out: &mut Vec<u8>, x: u64)
    ensures
        final(out)@ == old(out)@ + enc_u64(x),
{
    let bs = u64_to_le_bytes(x);
    append_bytes(out, &bs);
}

fn write_str(out: &mut Vec<u8>, s: &String)
    ensures
        final(out)@ == old(out)@ + enc_str(s@),
{
    let ghost base = out@;
    let n = s.as_str().unicode_len();
    write_u64(out, n as u64);
    let ghost mid = base + enc_u64(n as u64);
    let mut i: usize = 0;
    proof {
        assert(enc_chars(s@.take(0)) =~= Seq::<u8>::empty());
        assert(mid + Seq::<u8>::empty() =~= mid);
    }
    while i < n
        invariant
            n == s@.len(),
            i <= n,
            mid == base + enc_u64(n as u64),
            out@ == mid + enc_chars(s@.take(i as int)),
        decreases n - i,
    {
        let c = s.as_str().get_char(i);
        let bs = u32_to_le_bytes(c as u32);
        append_bytes(out, &bs);
        proof {
            lemma_enc_chars_push(s@.take(i as int), s@[i as int]);
            assert(s@.take(i + 1) =~= s@.take(i as int).push(s@[i as int]));
            assert((mid + enc_chars(s@.take(i as int))) + spec_u32_to_le_bytes(s@[i as int] as u32)
                =~= mid + (enc_chars(s@.take(i as int)) + spec_u32_to_le_bytes(
                s@[i as int] as u32,
            )));
        }
        i += 1;
    }
    proof {
        assert(s@.take(n as int) =~= s@);
        assert(base + (enc_u64(s@.len() as u64) + enc_chars(s@)) =~= (base + enc_u64(
            s@.len() as u64,
        )) + enc_chars(s@));
    }
}

fn write_opt_str(out: &mut Vec<u8>, m: &Option<String>)
    ensures
        final(out)@ == old(out)@ + enc_opt_str(
            match m {
                Option::None => Option::None,
                Option::Some(s) => Option::Some(s@),
            },
        ),
{
    let ghost base = out@;
    match m {
        Option::None => {
            out.push(0u8);
            proof {
                assert(out@ =~= base + seq![0u8]);
            }
        },
        Option::Some(s) => {
            out.push(1u8);
            proof {
                assert(out@ =~= base + seq![1u8]);
            }
            write_str(out, s);
            proof {
                assert((base + seq![1u8]) + enc_str(s@) =~= base + (seq![1u8] + enc_str(s@)));
            }
        },
    }
}

fn write_filter(out: &mut Vec<u8>, f: &ApproximateFilter)
    requires
        f.wf(),
    ensures
        final(out)@ == old(out)@ + enc_filter(f@),
{
    let ghost base = out@;
    match f.parts() {
        Option::None => {
            out.push(0u8);
            proof {
                assert(out@ =~= base + seq![0u8]);
            }
        },
        Option::Some((seed, fp)) => {
            out.push(1u8);
            proof {
                assert(out@ =~= base + seq![1u8]);
            }
            write_u64(out, seed);
            write_u64(out, fp.len() as u64);
            append_bytes(out, &fp);
            proof {
                assert(((((base + seq![1u8]) + enc_u64(seed)) + enc_u64(fp@.len() as u64)) + fp@)
                    =~= base + (seq![1u8] + enc_u64(seed) + enc_u64(fp@.len() as u64) + fp@));
            }
        },
    }
}

fn write_post(out: &mut Vec<u8>, p: &PostFilter)
    requires
        p.filter.wf(),
    ensures
        final(out)@ == old(out)@ + enc_post(p@),
{
    let ghost base = out@;
    write_str(out, &p.id.title);
    write_str(out, &p.id.url);
    write_opt_str(out, &p.id.meta);
    write_filter(out, &p.filter);
    proof {
        assert((((base + enc_str(p@.id.title)) + enc_str(p@.id.url)) + enc_opt_str(p@.id.meta))
            + enc_filter(p@.filter) =~= base + (enc_str(p@.id.title) + enc_str(p@.id.url)
            + enc_opt_str(p@.id.meta) + enc_filter(p@.filter)));
    }
}

proof fn lemma_enc_posts_push(ps: Seq<PostFilterView>, p: PostFilterView)
    ensures
        enc_posts(ps.push(p)) == enc_posts(ps) + enc_post(p),
    decreases ps.len(),
{
    if ps.len() == 0 {
        let sp = ps.push(p);
        assert(sp[0] == p);
        assert(sp.drop_first() =~= Seq::<PostFilterView>::empty());
        assert(enc_posts(sp) == enc_post(p) + enc_posts(Seq::<PostFilterView>::empty()));
        assert(enc_post(p) + Seq::<u8>::empty() =~= enc_post(p));
        assert(enc_posts(ps) == Seq::<u8>::empty());
        assert(enc_posts(ps) + enc_post(p) =~= enc_post(p));
    } else {
        lemma_enc_posts_push(ps.drop_first(), p);
        assert(ps.push(p)[0] == ps[0]);
        assert(ps.push(p).drop_first() =~= ps.drop_first().push(p));
        assert(enc_post(ps[0]) + (enc_posts(ps.drop_first()) + enc_post(p)) =~= (enc_post(ps[0])
            + enc_posts(ps.drop_first())) + enc_post(p));
    }
}

impl Storage {
    /// The storage blob: the documents in order, in the fixed binary format.
    pub fn serialize(&self) -> (r: Vec<u8>)
        requires
            self.wf(),
        ensures
            r@ == enc_storage(self@),
    {
        let mut out: Vec<u8> = Vec::new();
        let n = self.filters.len();
        write_u64(&mut out, n as u64);
        let ghost head = enc_u64(n as u64);
        proof {
            assert(Seq::<u8>::empty() + head =~= head);
            assert(enc_posts(self@.take(0)) =~= Seq::<u8>::empty());
            assert(head + Seq::<u8>::empty() =~= head);
        }
        let mut i: usize = 0;
        while i < n
            invariant
                n == self.filters@.len(),
                i <= n,
                self.wf(),
                self@.len() == n,
                out@ == head + enc_posts(self@.take(i as int)),
            decreases n - i,
        {
            proof {
                assert(self.filters@[i as int].filter.wf());
            }
            write_post(&mut out, &self.filters[i]);
            proof {
                lemma_enc_posts_push(self@.take(i as int), self@[i as int]);
                assert(self@.take(i + 1) =~= self@.take(i as int).push(self@[i as int]));
                assert(self.filters@[i as int]@ == self@[i as int]);
                assert((head + enc_posts(self@.take(i as int))) + enc_post(self@[i as int]) =~= head
                    + (enc_posts(self@.take(i as int)) + enc_post(self@[i as int])));
            }
            i += 1;
        }
        proof {
            assert(self@.take(n as int) =~= self@);
        }
        out
    }
}

impl ApproximateFilter {
    /// One filter, in the fixed binary format.
    pub fn serialize(&self) -> (r: Vec<u8>)
        requires
            self.wf(),
        ensures
            r@ == enc_filter(self@),
    {
        let mut out: Vec<u8> = Vec::new();
        write_filter(&mut out, self);
        proof {
            assert(Seq::<u8>::empty() + enc_filter(self@) =~= enc_filter(self@));
        }
        out
    }

    /// Reads one filter back; fails on anything that is not exactly an
    /// encoding, and the reconstructed filter answers membership as the
    /// encoded one did.
    pub fn deserialize(bytes: &Vec<u8>) -> (r: Result<ApproximateFilter, FormatError>)
        ensures
            match r {
                Ok(f) => f.wf() && dec_filter_full(bytes@) == Option::Some(f@),
                Err(_) => dec_filter_full(bytes@) is None,
            },
    {
        proof {
            assert(bytes@.skip(0) =~= bytes@);
        }
        match read_filter(bytes, 0) {
            Ok((f, np)) => {
                if np == bytes.len() {
                    proof {
                        assert(bytes@.skip(np as int).len() == 0);
                    }
                    Ok(f)
                } else {
                    proof {
                        assert(bytes@.skip(np as int).len() > 0);
                    }
                    Err(FormatError)
                }
            },
            Err(e) => Err(e),
        }
    }
}

// ---------------------------------------------------------------- readers
/// Relies on `char::from_u32`: `Some` exactly for Unicode scalar values,
/// and then the character with that code point.
#[verifier::external_body]
fn char_from_u32(v: u32) -> (r: Option<char>)
    ensures
        match r {
            Option::Some(c) => is_scalar(v) && c as u32 == v,
            Option::None => !is_scalar(v),
        },
{
    char::from_u32(v)
}

fn read_u64(bytes: &Vec<u8>, pos: usize) -> (r: Result<(u64, usize), FormatError>)
    requires
        pos <= bytes@.len(),
    ensures
        match r {
            Ok(v) => pos <= v.1 <= bytes@.len() && dec_u64(bytes@.skip(pos as int))
                == Option::Some((v.0, bytes@.skip(v.1 as int))),
            Err(_) => dec_u64(bytes@.skip(pos as int)) is None,
        },
{
    if bytes.len() - pos < 8 {
        return Err(FormatError);
    }
    let mut buf: Vec<u8> = Vec::new();
    let mut i: usize = 0;
    while i < 8
        invariant
            pos + 8 <= bytes@.len(),
            bytes@.len() <= usize::MAX,
            i <= 8,
            buf@ =~= bytes@.skip(pos as int).take(i as int),
        decreases 8 - i,
    {
        buf.push(bytes[pos + i]);
        proof {
            assert(bytes@.skip(pos as int).take(i + 1) =~= bytes@.skip(pos as int).take(
                i as int,
            ).push(bytes@[pos + i]));
        }
        i += 1;
    }
    let v = u64_from_le_bytes(buf.as_slice());
    proof {
        assert(bytes@.skip(pos as int).skip(8) =~= bytes@.skip(pos + 8));
    }
    Ok((v, pos + 8))
}

fn read_char(bytes: &Vec<u8>, pos: usize) -> (r: Result<(char, usize), FormatError>)
    requires
        pos <= bytes@.len(),
    ensures
        match r {
            Ok(v) => pos <= v.1 <= bytes@.len() && dec_char(bytes@.skip(pos as int))
                == Option::Some((v.0, bytes@.skip(v.1 as int))),
            Err(_) => dec_char(bytes@.skip(pos as int)) is None,
        },
{
    if bytes.len() - pos < 4 {
        return Err(FormatError);
    }
    let mut buf: Vec<u8> = Vec::new();
    let mut i: usize = 0;
    while i < 4
        invariant
            pos + 4 <= bytes@.len(),
            bytes@.len() <= usize::MAX,
            i <= 4,
            buf@ =~= bytes@.skip(pos as int).take(i as int),
        decreases 4 - i,
    {
        buf.push(bytes[pos + i]);
        proof {
            assert(bytes@.skip(pos as int).take(i + 1) =~= bytes@.skip(pos as int).take(
                i as int,
            ).push(bytes@[pos + i]));
        }
        i += 1;
    }
    let v = u32_from_le_bytes(buf.as_slice());
    match char_from_u32(v) {
        Option::Some(c) => {
            proof {
                char_u32_cast(c, v);
                assert(bytes@.skip(pos as int).skip(4) =~= bytes@.skip(pos + 4));
            }
            Ok((c, pos + 4))
        },
        Option::None => Err(FormatError),
    }
}

fn read_str(bytes: &Vec<u8>, pos: usize) -> (r: Result<(String, usize), FormatError>)
    requires
        pos <= bytes@.len(),
    ensures
        match r {
            Ok(v) => pos <= v.1 <= bytes@.len() && dec_str(bytes@.skip(pos as int))
                == Option::Some((v.0@, bytes@.skip(v.1 as int))),
            Err(_) => dec_str(bytes@.skip(pos as int)) is None,
        },
{
    let (n64, p1) = match read_u64(bytes, pos) {
        Ok(v) => v,
        Err(e) => {
            return Err(e);
        },
    };
    if n64 > ((bytes.len() - p1) / 4) as u64 {
        proof {
            lemma_dec_chars_short(n64 as nat, bytes@.skip(p1 as int));
        }
        return Err(FormatError);
    }
    let n = n64 as usize;
    let ghost b1 = bytes@.skip(p1 as int);
    let mut s = String::new();
    let mut p = p1;
    let mut i: usize = 0;
    proof {
        assert(s@ =~= Seq::<char>::empty());
    }
    while i < n
        invariant
            i <= n,
            pos <= p <= bytes@.len(),
            b1 == bytes@.skip(p1 as int),
            n as nat == n64 as nat,
            dec_u64(bytes@.skip(pos as int)) == Option::Some((n64, b1)),
            s@.len() == i,
            match dec_chars((n - i) as nat, bytes@.skip(p as int)) {
                Option::Some(v) => dec_chars(n as nat, b1) == Option::Some(
                    ((s@ + v.0), v.1),
                ),
                Option::None => dec_chars(n as nat, b1) is None,
            },
        decreases n - i,
    {
        let ghost s0 = s@;
        let ghost cur = bytes@.skip(p as int);
        match read_char(bytes, p) {
            Ok((c, np)) => {
                push_char(&mut s, c);
                proof {
                    assert(dec_char(cur) == Option::Some((c, bytes@.skip(np as int))));
                    match dec_chars((n - i - 1) as nat, bytes@.skip(np as int)) {
                        Option::Some(v) => {
                            assert(dec_chars((n - i) as nat, cur) == Option::Some(
                                ((seq![c] + v.0), v.1),
                            ));
                            assert(s0 + (seq![c] + v.0) =~= (s0.push(c)) + v.0);
                        },
                        Option::None => {
                            assert(dec_chars((n - i) as nat, cur) is None);
                        },
                    }
                }
                p = np;
            },
            Err(e) => {
                proof {
                    assert(dec_chars((n - i) as nat, cur) is None);
                }
                return Err(e);
            },
        }
        i += 1;
    }
    proof {
        assert(dec_chars(0, bytes@.skip(p as int)) == Option::Some(
            (Seq::<char>::empty(), bytes@.skip(p as int)),
        ));
        assert(s@ + Seq::<char>::empty() =~= s@);
    }
    Ok((s, p))
}

fn read_opt_str(bytes: &Vec<u8>, pos: usize) -> (r: Result<(Option<String>, usize), FormatError>)
    requires
        pos <= bytes@.len(),
    ensures
        match r {
            Ok(v) => pos <= v.1 <= bytes@.len() && dec_opt_str(bytes@.skip(pos as int))
                == Option::Some(
                (
                    match v.0 {
                        Option::None => Option::None,
                        Option::Some(s) => Option::Some(s@),
                    },
                    bytes@.skip(v.1 as int),
                ),
            ),
            Err(_) => dec_opt_str(bytes@.skip(pos as int)) is None,
        },
{
    if pos >= bytes.len() {
        return Err(FormatError);
    }
    let tag = bytes[pos];
    proof {
        assert(bytes@.skip(pos as int)[0] == bytes@[pos as int]);
        assert(bytes@.skip(pos as int).drop_first() =~= bytes@.skip(pos + 1));
    }
    if tag == 0 {
        Ok((Option::None, pos + 1))
    } else if tag == 1 {
        match read_str(bytes, pos + 1) {
            Ok((s, np)) => Ok((Option::Some(s), np)),
            Err(e) => Err(e),
        }
    } else {
        Err(FormatError)
    }
}

fn read_filter(bytes: &Vec<u8>, pos: usize) -> (r: Result<(ApproximateFilter, usize), FormatError>)
    requires
        pos <= bytes@.len(),
    ensures
        match r {
            Ok(v) => pos <= v.1 <= bytes@.len() && v.0.wf() && dec_filter(bytes@.skip(pos as int))
                == Option::Some((v.0@, bytes@.skip(v.1 as int))),
            Err(_) => dec_filter(bytes@.skip(pos as int)) is None,
        },
{
    if pos >= bytes.len() {
        return Err(FormatError);
    }
    let tag = bytes[pos];
    proof {
        assert(bytes@.skip(pos as int)[0] == bytes@[pos as int]);
        assert(bytes@.skip(pos as int).drop_first() =~= bytes@.skip(pos + 1));
    }
    if tag == 0 {
        let f = ApproximateFilter::from_parts(Option::None);
        Ok((f, pos + 1))
    } else if tag == 1 {
        let (seed, p1) = match read_u64(bytes, pos + 1) {
            Ok(v) => v,
            Err(e) => {
                return Err(e);
            },
        };
        let (len64, p2) = match read_u64(bytes, p1) {
            Ok(v) => v,
            Err(e) => {
                return Err(e);
            },
        };
        let ghost r2 = bytes@.skip(p2 as int);
        if len64 == 0 || len64 % 3 != 0 || len64 > (bytes.len() - p2) as u64 {
            return Err(FormatError);
        }
        let len = len64 as usize;
        let mut fp: Vec<u8> = Vec::new();
        let mut i: usize = 0;
        proof {
            assert(fp@ =~= r2.take(0));
        }
        while i < len
            invariant
                i <= len,
                p2 + len <= bytes@.len(),
                bytes@.len() <= usize::MAX,
                r2 == bytes@.skip(p2 as int),
                fp@ =~= r2.take(i as int),
            decreases len - i,
        {
            fp.push(bytes[p2 + i]);
            proof {
                assert(r2.take(i + 1) =~= r2.take(i as int).push(bytes@[p2 + i]));
            }
            i += 1;
        }
        proof {
            assert(r2.skip(len as int) =~= bytes@.skip(p2 + len));
        }
        let f = ApproximateFilter::from_parts(Option::Some((seed, fp)));
        Ok((f, p2 + len))
    } else {
        Err(FormatError)
    }
}

fn read_post(bytes: &Vec<u8>, pos: usize) -> (r: Result<(PostFilter, usize), FormatError>)
    requires
        pos <= bytes@.len(),
    ensures
        match r {
            Ok(v) => pos <= v.1 <= bytes@.len() && v.0.filter.wf() && dec_post(
                bytes@.skip(pos as int),
            ) == Option::Some((v.0@, bytes@.skip(v.1 as int))),
            Err(_) => dec_post(bytes@.skip(pos as int)) is None,
        },
{
    let (title, p1) = match read_str(bytes, pos) {
        Ok(v) => v,
        Err(e) => {
            return Err(e);
        },
    };
    let (url, p2) = match read_str(bytes, p1) {
        Ok(v) => v,
        Err(e) => {
            return Err(e);
        },
    };
    let (meta, p3) = match read_opt_str(bytes, p2) {
        Ok(v) => v,
        Err(e) => {
            return Err(e);
        },
    };
    let (filter, p4) = match read_filter(bytes, p3) {
        Ok(v) => v,
        Err(e) => {
            return Err(e);
        },
    };
    let p = PostFilter { id: PostId { title, url, meta }, filter };
    Ok((p, p4))
}

impl Storage {
    /// Reads a storage blob back; fails on anything that is not exactly an
    /// encoding: truncated bytes, a bad tag, an invalid character or filter
    /// table, or trailing bytes.
    pub fn deserialize(bytes: &Vec<u8>) -> (r: Result<Storage, FormatError>)
        ensures
            match r {
                Ok(s) => s.wf() && dec_storage(bytes@) == Option::Some(s@),
                Err(_) => dec_storage(bytes@) is None,
            },
    {
        proof {
            assert(bytes@.skip(0) =~= bytes@);
        }
        let (n64, p0) = match read_u64(bytes, 0) {
            Ok(v) => v,
            Err(e) => {
                return Err(e);
            },
        };
        if n64 > ((bytes.len() - p0) / 18) as u64 {
            proof {
                lemma_dec_posts_short(n64 as nat, bytes@.skip(p0 as int));
            }
            return Err(FormatError);
        }
        let n = n64 as usize;
        let ghost b0 = bytes@.skip(p0 as int);
        let mut filters: Vec<PostFilter> = Vec::new();
        let mut p = p0;
        let mut i: usize = 0;
        proof {
            assert(crate::store::filters_view(filters@) =~= Seq::<PostFilterView>::empty());
        }
        while i < n
            invariant
                i <= n,
                p <= bytes@.len(),
                b0 == bytes@.skip(p0 as int),
                n as nat == n64 as nat,
                dec_u64(bytes@) == Option::Some((n64, b0)),
                filters@.len() == i,
                crate::store::all_wf(filters@),
                match dec_posts((n - i) as nat, bytes@.skip(p as int)) {
                    Option::Some(v) => dec_posts(n as nat, b0) == Option::Some(
                        ((crate::store::filters_view(filters@) + v.0), v.1),
                    ),
                    Option::None => dec_posts(n as nat, b0) is None,
                },
            decreases n - i,
        {
            let ghost acc0 = crate::store::filters_view(filters@);
            let ghost cur = bytes@.skip(p as int);
            match read_post(bytes, p) {
                Ok((pf, np)) => {
                    filters.push(pf);
                    proof {
                        assert(crate::store::filters_view(filters@) =~= acc0.push(pf@));
                        match dec_posts((n - i - 1) as nat, bytes@.skip(np as int)) {
                            Option::Some(v) => {
                                assert(dec_posts((n - i) as nat, cur) == Option::Some(
                                    ((seq![pf@] + v.0), v.1),
                                ));
                                assert(acc0 + (seq![pf@] + v.0) =~= (acc0.push(pf@)) + v.0);
                            },
                            Option::None => {
                                assert(dec_posts((n - i) as nat, cur) is None);
                            },
                        }
                    }
                    p = np;
                },
                Err(e) => {
                    proof {
                        assert(dec_posts((n - i) as nat, cur) is None);
                    }
                    return Err(e);
                },
            }
            i += 1;
        }
        if p != bytes.len() {
            proof {
                assert(dec_posts(0, bytes@.skip(p as int)) == Option::Some(
                    (Seq::<PostFilterView>::empty(), bytes@.skip(p as int)),
                ));
                assert(crate::store::filters_view(filters@) + Seq::<PostFilterView>::empty()
                    =~= crate::store::filters_view(filters@));
                assert(bytes@.skip(p as int).len() > 0);
            }
            return Err(FormatError);
        }
        let s = Storage { filters };
        proof {
            assert(dec_posts(0, bytes@.skip(p as int)) == Option::Some(
                (Seq::<PostFilterView>::empty(), bytes@.skip(p as int)),
            ));
            assert(crate::store::filters_view(filters@) + Seq::<PostFilterView>::empty()
                =~= crate::store::filters_view(filters@));
            assert(bytes@.skip(p as int).len() == 0);
        }
        Ok(s)
    }
}

} // verus!
