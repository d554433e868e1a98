//! The query engine: tokenize the query once, score every document, drop
//! the zero scores, order by descending score with ties kept in storage
//! order, and truncate to the requested count. The whole result is a
//! function of storage, query and limit — two identical calls return
//! identical results.

use vstd::prelude::*;
use crate::score::{score, score_of, TITLE_WEIGHT};
use crate::store::{Filters, PostFilter, PostFilterView, PostId, PostIdView, all_wf, filters_view};
use crate::text::{tokenize, tokens_of};

verus! {

/// A match is a pair of storage index and positive score. `a` comes before
/// `b` when its score is higher, or equal with the earlier index: a strict
/// total order on pairs with distinct indices, which makes the sort stable.
pub open spec fn precedes(a: (int, int), b: (int, int)) -> bool {
    a.1 > b.1 || (a.1 == b.1 && a.0 < b.0)
}

/// Inserts a match into an ordered run: after all entries that come before
/// it, before the rest.
pub open spec fn insert_ranked(x: (int, int), s: Seq<(int, int)>) -> Seq<(int, int)>
    decreases s.len(),
{
    if s.len() == 0 {
        seq![x]
    } else if precedes(s[0], x) {
        seq![s[0]] + insert_ranked(x, s.drop_first())
    } else {
        seq![x] + s
    }
}

/// The matches ordered by `precedes`: descending score, ties by ascending
/// storage index.
pub open spec fn rank(s: Seq<(int, int)>) -> Seq<(int, int)>
    decreases s.len(),
{
    if s.len() == 0 {
        Seq::empty()
    } else {
        insert_ranked(s.last(), rank(s.drop_last()))
    }
}

/// The (index, score) pairs of the documents with positive score, in
/// storage order.
pub open spec fn match_pairs(docs: Seq<PostFilterView>, qterms: Seq<Seq<char>>) -> Seq<(int, int)>
    decreases docs.len(),
{
    if docs.len() == 0 {
        Seq::empty()
    } else {
        let pre = match_pairs(docs.drop_last(), qterms);
        let sc = score_of(docs.last().id.title, qterms, docs.last().filter.positive());
        if sc > 0 {
            pre.push((docs.len() - 1, sc as int))
        } else {
            pre
        }
    }
}

/// What `search` returns: the identities of the ranked matches, truncated
/// to the limit.
pub open spec fn search_spec(docs: Seq<PostFilterView>, query: Seq<char>, limit: int) -> Seq<
    PostIdView,
> {
    let ranked = rank(match_pairs(docs, tokens_of(query)));
    let lim = if limit < ranked.len() {
        limit
    } else {
        ranked.len() as int
    };
    Seq::new(lim as nat, |i: int| docs[ranked[i].0].id)
}

/// Every match pair records a valid index and that document's true,
/// positive score.
pub proof fn lemma_match_pairs_sound(docs: Seq<PostFilterView>, qterms: Seq<Seq<char>>)
    ensures
        forall|k: int|
            0 <= k < match_pairs(docs, qterms).len() ==> {
                let p = #[trigger] match_pairs(docs, qterms)[k];
                0 <= p.0 < docs.len() && p.1 == score_of(
                    docs[p.0].id.title,
                    qterms,
                    docs[p.0].filter.positive(),
                ) && p.1 > 0
            },
    decreases docs.len(),
{
    if docs.len() > 0 {
        lemma_match_pairs_sound(docs.drop_last(), qterms);
        let pre = match_pairs(docs.drop_last(), qterms);
        let r = match_pairs(docs, qterms);
        assert forall|k: int|
            0 <= k < r.len() implies {
                let p = #[trigger] r[k];
                0 <= p.0 < docs.len() && p.1 == score_of(
                    docs[p.0].id.title,
                    qterms,
                    docs[p.0].filter.positive(),
                ) && p.1 > 0
            } by {
            if k < pre.len() {
                assert(r[k] == pre[k]);
                assert(docs.drop_last()[pre[k].0] == docs[pre[k].0]);
            } else {
                assert(r[k] == (docs.len() - 1, score_of(
                    docs.last().id.title,
                    qterms,
                    docs.last().filter.positive(),
                ) as int));
            }
        }
    }
}

/// Inserting adds exactly the new match: membership in the ordered run is
/// membership in the old run or equality with the inserted pair.
proof fn lemma_insert_contains(x: (int, int), s: Seq<(int, int)>, y: (int, int))
    ensures
        insert_ranked(x, s).contains(y) <==> (y == x || s.contains(y)),
    decreases s.len(),
{
    let r = insert_ranked(x, s);
    if s.len() == 0 {
        assert(r == seq![x]);
        assert(r.contains(y) <==> r[0] == y);
    } else if precedes(s[0], x) {
        lemma_insert_contains(x, s.drop_first(), y);
        let sub = insert_ranked(x, s.drop_first());
        assert(r == seq![s[0]] + sub);
        if r.contains(y) {
            let k = choose|k: int| 0 <= k < r.len() && r[k] == y;
            if k == 0 {
                assert(s[0] == y);
            } else {
                assert(sub[k - 1] == y);
                assert(sub.contains(y));
            }
            if y != x && s.drop_first().contains(y) {
                let j = choose|j: int| 0 <= j < s.drop_first().len() && s.drop_first()[j] == y;
                assert(s[j + 1] == y);
            }
            if y != x && s[0] == y {
                assert(s.contains(y));
            }
        }
        if y == x {
            assert(sub.contains(y));
            let k = choose|k: int| 0 <= k < sub.len() && sub[k] == y;
            assert(r[k + 1] == y);
        } else if s.contains(y) {
            let j = choose|j: int| 0 <= j < s.len() && s[j] == y;
            if j == 0 {
                assert(r[0] == y);
            } else {
                assert(s.drop_first()[j - 1] == y);
                assert(s.drop_first().contains(y));
                assert(sub.contains(y));
                let k = choose|k: int| 0 <= k < sub.len() && sub[k] == y;
                assert(r[k + 1] == y);
            }
        }
    } else {
        assert(r == seq![x] + s);
        if r.contains(y) {
            let k = choose|k: int| 0 <= k < r.len() && r[k] == y;
            if k == 0 {
                assert(y == x);
            } else {
                assert(s[k - 1] == y);
            }
        }
        if y == x {
            assert(r[0] == y);
        } else if s.contains(y) {
            let j = choose|j: int| 0 <= j < s.len() && s[j] == y;
            assert(r[j + 1] == y);
        }
    }
}

/// Ranking neither adds nor removes matches.
pub proof fn lemma_rank_contains(s: Seq<(int, int)>, y: (int, int))
    ensures
        rank(s).contains(y) <==> s.contains(y),
    decreases s.len(),
{
    if s.len() > 0 {
        lemma_rank_contains(s.drop_last(), y);
        lemma_insert_contains(s.last(), rank(s.drop_last()), y);
        if s.contains(y) {
            let j = choose|j: int| 0 <= j < s.len() && s[j] == y;
            if j < s.len() - 1 {
                assert(s.drop_last()[j] == y);
                assert(s.drop_last().contains(y));
            }
        }
        if s.drop_last().contains(y) {
            let j = choose|j: int| 0 <= j < s.drop_last().len() && s.drop_last()[j] == y;
            assert(s[j] == y);
        }
    }
}

/// The ordered run keeps its length.
proof fn lemma_insert_len(x: (int, int), s: Seq<(int, int)>)
    ensures
        insert_ranked(x, s).len() == s.len() + 1,
    decreases s.len(),
{
    if s.len() > 0 && precedes(s[0], x) {
        lemma_insert_len(x, s.drop_first());
    }
}

/// Ranking keeps the number of matches.
pub proof fn lemma_rank_len(s: Seq<(int, int)>)
    ensures
        rank(s).len() == s.len(),
    decreases s.len(),
{
    if s.len() > 0 {
        lemma_rank_len(s.drop_last());
        lemma_insert_len(s.last(), rank(s.drop_last()));
    }
}

/// Inserting into a run ordered by `precedes` keeps it ordered.
proof fn lemma_insert_sorted(x: (int, int), s: Seq<(int, int)>)
    requires
        forall|i: int, j: int| 0 <= i < j < s.len() ==> !precedes(#[trigger] s[j], #[trigger] s[i]),
    ensures
        forall|i: int, j: int|
            0 <= i < j < insert_ranked(x, s).len() ==> !precedes(
                #[trigger] insert_ranked(x, s)[j],
                #[trigger] insert_ranked(x, s)[i],
            ),
    decreases s.len(),
{
    let r = insert_ranked(x, s);
    if s.len() == 0 {
    } else if precedes(s[0], x) {
        assert(forall|i: int, j: int|
            0 <= i < j < s.drop_first().len() ==> !precedes(
                #[trigger] s.drop_first()[j],
                #[trigger] s.drop_first()[i],
            ));
        lemma_insert_sorted(x, s.drop_first());
        let sub = insert_ranked(x, s.drop_first());
        assert forall|i: int, j: int| 0 <= i < j < r.len() implies !precedes(
            #[trigger] r[j],
            #[trigger] r[i],
        ) by {
            if i == 0 {
                assert(r[0] == s[0]);
                assert(r[j] == sub[j - 1]);
                lemma_insert_contains(x, s.drop_first(), sub[j - 1]);
                if sub[j - 1] == x {
                } else {
                    let m = choose|m: int|
                        0 <= m < s.drop_first().len() && s.drop_first()[m] == sub[j - 1];
                    assert(s[m + 1] == sub[j - 1]);
                    assert(!precedes(s[m + 1], s[0]));
                }
            } else {
                assert(r[i] == sub[i - 1] && r[j] == sub[j - 1]);
            }
        }
    } else {
        assert(r == seq![x] + s);
        assert forall|i: int, j: int| 0 <= i < j < r.len() implies !precedes(
            #[trigger] r[j],
            #[trigger] r[i],
        ) by {
            if i == 0 {
                assert(r[0] == x);
                assert(r[j] == s[j - 1]);
                if j - 1 > 0 {
                    assert(!precedes(s[j - 1], s[0]));
                }
                assert(!precedes(s[0], x));
            } else {
                assert(r[i] == s[i - 1] && r[j] == s[j - 1]);
            }
        }
    }
}

/// The ranking is ordered: descending score, ties by ascending storage
/// index — a stable descending sort.
pub proof fn lemma_rank_sorted(s: Seq<(int, int)>)
    ensures
        forall|i: int, j: int|
            0 <= i < j < rank(s).len() ==> !precedes(#[trigger] rank(s)[j], #[trigger] rank(s)[i]),
    decreases s.len(),
{
    if s.len() > 0 {
        lemma_rank_sorted(s.drop_last());
        lemma_insert_sorted(s.last(), rank(s.drop_last()));
    }
}

/// Zero-match exclusion: every entry the ranking can return carries a
/// strictly positive score, the document's true score.
pub proof fn lemma_zero_score_excluded(docs: Seq<PostFilterView>, qterms: Seq<Seq<char>>, k: int)
    requires
        0 <= k < rank(match_pairs(docs, qterms)).len(),
    ensures
        ({
            let p = rank(match_pairs(docs, qterms))[k];
            0 <= p.0 < docs.len() && p.1 == score_of(
                docs[p.0].id.title,
                qterms,
                docs[p.0].filter.positive(),
            ) && p.1 > 0
        }),
{
    let ranked = rank(match_pairs(docs, qterms));
    let p = ranked[k];
    assert(ranked.contains(p));
    lemma_rank_contains(match_pairs(docs, qterms), p);
    lemma_match_pairs_sound(docs, qterms);
    let j = choose|j: int|
        0 <= j < match_pairs(docs, qterms).len() && match_pairs(docs, qterms)[j] == p;
    assert(match_pairs(docs, qterms)[j] == p);
}

/// Determinism: the result of a search is a function of storage, query and
/// limit alone; two calls with identical inputs return identical results.
pub proof fn lemma_search_deterministic(
    docs: Seq<PostFilterView>,
    query: Seq<char>,
    limit: int,
    r1: Seq<PostIdView>,
    r2: Seq<PostIdView>,
)
    requires
        r1 == search_spec(docs, query, limit),
        r2 == search_spec(docs, query, limit),
    ensures
        r1 == r2,
{
}

/// Limit boundary, low side: a zero limit returns nothing.
pub proof fn lemma_limit_zero(docs: Seq<PostFilterView>, query: Seq<char>)
    ensures
        search_spec(docs, query, 0) == Seq::<PostIdView>::empty(),
{
    assert(search_spec(docs, query, 0) =~= Seq::<PostIdView>::empty());
}

/// Limit boundary, high side: a limit at or above the match count returns
/// every match, still ranked.
pub proof fn lemma_limit_all(docs: Seq<PostFilterView>, query: Seq<char>, limit: int)
    requires
        limit >= rank(match_pairs(docs, tokens_of(query))).len(),
    ensures
        search_spec(docs, query, limit).len() == match_pairs(docs, tokens_of(query)).len(),
        search_spec(docs, query, limit) == search_spec(
            docs,
            query,
            rank(match_pairs(docs, tokens_of(query))).len() as int,
        ),
{
    lemma_rank_len(match_pairs(docs, tokens_of(query)));
    assert(search_spec(docs, query, limit) =~= search_spec(
        docs,
        query,
        rank(match_pairs(docs, tokens_of(query))).len() as int,
    ));
}

/// The shape of an insertion: the new match lands after exactly the entries
/// that precede it.
proof fn lemma_insert_shape(x: (int, int), s: Seq<(int, int)>, p: int)
    requires
        0 <= p <= s.len(),
        forall|i: int| 0 <= i < p ==> precedes(#[trigger] s[i], x),
        p == s.len() || !precedes(s[p], x),
    ensures
        insert_ranked(x, s) == s.take(p) + seq![x] + s.skip(p),
    decreases s.len(),
{
    if s.len() == 0 {
        assert(insert_ranked(x, s) =~= s.take(p) + seq![x] + s.skip(p));
    } else if p == 0 {
        assert(!precedes(s[0], x));
        assert(insert_ranked(x, s) =~= s.take(0) + seq![x] + s.skip(0));
    } else {
        assert(precedes(s[0], x));
        assert(forall|i: int| 0 <= i < p - 1 ==> precedes(#[trigger] s.drop_first()[i], x));
        assert(p - 1 == s.drop_first().len() || !precedes(s.drop_first()[p - 1], x));
        lemma_insert_shape(x, s.drop_first(), p - 1);
        assert(insert_ranked(x, s) == seq![s[0]] + (s.drop_first().take(p - 1) + seq![x]
            + s.drop_first().skip(p - 1)));
        assert(seq![s[0]] + (s.drop_first().take(p - 1) + seq![x] + s.drop_first().skip(p - 1))
            =~= s.take(p) + seq![x] + s.skip(p));
    }
}

fn precedes_exec(a: (usize, usize), b: (usize, usize)) -> (r: bool)
    ensures
        r == precedes((a.0 as int, a.1 as int), (b.0 as int, b.1 as int)),
{
    a.1 > b.1 || (a.1 == b.1 && a.0 < b.0)
}

/// The view of an (index, score) list as the spec's integer pairs.
pub open spec fn pairs_view(s: Seq<(usize, usize)>) -> Seq<(int, int)> {
    s.map_values(|p: (usize, usize)| (p.0 as int, p.1 as int))
}

/// Searches the indexed documents: scores each against the tokenized query,
/// keeps the positive scores, orders them by descending score with ties in
/// storage order, and returns at most `num_results` identities. The bound on
/// the token count is a machine limit (scores live in a `usize`); callers
/// that cannot establish it use `try_search`, which tests it first.
pub fn search(filters: &Filters, query: String, num_results: usize) -> (r: Vec<PostId>)
    requires
        all_wf(filters@),
        TITLE_WEIGHT * tokens_of(query@).len() <= usize::MAX,
    ensures
        r@.map_values(|p: PostId| p@) == search_spec(
            filters_view(filters@),
            query@,
            num_results as int,
        ),
{
    let ghost docs = filters_view(filters@);
    let search_terms = tokenize(query.as_str());
    let ghost q = tokens_of(query@);
    proof {
        assert(search_terms.deep_view().len() == search_terms@.len());
    }
    // Score every document; keep the positive scores with their indices.
    let mut pairs: Vec<(usize, usize)> = Vec::new();
    let n = filters.len();
    let mut i: usize = 0;
    proof {
        assert(docs.take(0) =~= Seq::<PostFilterView>::empty());
    }
    while i < n
        invariant
            n == filters@.len(),
            i <= n,
            docs == filters_view(filters@),
            docs.len() == n,
            q == search_terms.deep_view(),
            all_wf(filters@),
            TITLE_WEIGHT * search_terms@.len() <= usize::MAX,
            pairs_view(pairs@) == match_pairs(docs.take(i as int), q),
            forall|j: int| 0 <= j < pairs@.len() ==> (#[trigger] pairs@[j]).0 < i,
        decreases n - i,
    {
        let sc = score(filters[i].id.title.as_str(), &search_terms, &filters[i].filter);
        proof {
            assert(docs[i as int] == filters@[i as int]@);
            assert(docs.take(i + 1).drop_last() =~= docs.take(i as int));
            assert(docs.take(i + 1).last() == docs[i as int]);
        }
        if sc > 0 {
            let ghost old_pairs = pairs@;
            pairs.push((i, sc));
            proof {
                assert(pairs_view(pairs@) =~= pairs_view(old_pairs).push((i as int, sc as int)));
            }
        }
        i += 1;
    }
    proof {
        assert(docs.take(n as int) =~= docs);
    }
    // Stable descending order: insert each match after the entries that
    // precede it under the strict total order.
    let mut sorted: Vec<(usize, usize)> = Vec::new();
    let mut k: usize = 0;
    proof {
        assert(pairs_view(pairs@).take(0) =~= Seq::<(int, int)>::empty());
    }
    while k < pairs.len()
        invariant
            k <= pairs@.len(),
            docs == filters_view(filters@),
            pairs_view(pairs@) == match_pairs(docs, q),
            pairs_view(sorted@) == rank(pairs_view(pairs@).take(k as int)),
            sorted@.len() == k,
            forall|j: int| 0 <= j < pairs@.len() ==> (#[trigger] pairs@[j]).0 < docs.len(),
            forall|j: int| 0 <= j < sorted@.len() ==> (#[trigger] sorted@[j]).0 < docs.len(),
        decreases pairs@.len() - k,
    {
        let x = pairs[k];
        let mut p: usize = 0;
        while p < sorted.len() && precedes_exec(sorted[p], x)
            invariant
                p <= sorted@.len(),
                forall|j: int|
                    0 <= j < p ==> precedes(
                        ((#[trigger] sorted@[j]).0 as int, sorted@[j].1 as int),
                        (x.0 as int, x.1 as int),
                    ),
            decreases sorted@.len() - p,
        {
            p += 1;
        }
        let ghost old_sorted = sorted@;
        sorted.insert(p, x);
        proof {
            lemma_insert_shape((x.0 as int, x.1 as int), pairs_view(old_sorted), p as int);
            assert(pairs_view(sorted@) =~= pairs_view(old_sorted).take(p as int) + seq![
                (x.0 as int, x.1 as int),
            ] + pairs_view(old_sorted).skip(p as int));
            assert(pairs_view(old_sorted).take(p as int) =~= pairs_view(
                old_sorted.take(p as int),
            ));
            assert(pairs_view(old_sorted).skip(p as int) =~= pairs_view(
                old_sorted.skip(p as int),
            ));
            let t = pairs_view(pairs@).take(k + 1);
            assert(t.drop_last() =~= pairs_view(pairs@).take(k as int));
            assert(t.last() == pairs_view(pairs@)[k as int]);
            assert(pairs_view(pairs@)[k as int] == (x.0 as int, x.1 as int));
            assert(pairs_view(sorted@) == rank(t));
        }
        k += 1;
    }
    proof {
        assert(pairs_view(pairs@).take(pairs@.len() as int) =~= pairs_view(pairs@));
    }
    // Truncate to the limit and hand back the identities.
    let lim = if num_results < sorted.len() {
        num_results
    } else {
        sorted.len()
    };
    let mut result: Vec<PostId> = Vec::new();
    let mut j: usize = 0;
    while j < lim
        invariant
            j <= lim,
            lim == if num_results < sorted@.len() {
                num_results as int
            } else {
                sorted@.len() as int
            },
            docs == filters_view(filters@),
            docs.len() == filters@.len(),
            pairs_view(sorted@) == rank(match_pairs(docs, q)),
            forall|jj: int| 0 <= jj < sorted@.len() ==> (#[trigger] sorted@[jj]).0 < docs.len(),
            result@.len() == j,
            forall|jj: int|
                0 <= jj < j ==> (#[trigger] result@[jj])@ == docs[pairs_view(sorted@)[jj].0].id,
        decreases lim - j,
    {
        let idx = sorted[j].0;
        proof {
            assert(docs[idx as int].id == filters@[idx as int]@.id);
        }
        result.push(filters[idx].id.clone());
        j += 1;
    }
    proof {
        let ranked = rank(match_pairs(docs, q));
        assert(pairs_view(sorted@).len() == sorted@.len());
        assert(result@.map_values(|p: PostId| p@) =~= search_spec(docs, query@, num_results as int));
    }
    result
}

/// Tokenizes the query, tests the machine-size bound that `search` needs
/// (scores must fit a `usize`), and searches. `None` exactly when the
/// tokenized query is too long for that; any real query is far below the
/// bound.
pub fn try_search(filters: &Filters, query: String, num_results: usize) -> (r: Option<
    Vec<PostId>,
>)
    requires
        all_wf(filters@),
    ensures
        match r {
            Some(v) => TITLE_WEIGHT * tokens_of(query@).len() <= usize::MAX && v@.map_values(
                |p: PostId| p@,
            ) == search_spec(filters_view(filters@), query@, num_results as int),
            None => TITLE_WEIGHT * tokens_of(query@).len() > usize::MAX,
        },
{
    let qterms = tokenize(query.as_str());
    let ghost len = tokens_of(query@).len() as int;
    proof {
        assert(qterms.deep_view().len() == qterms@.len());
        vstd::arithmetic::div_mod::lemma_fundamental_div_mod(usize::MAX as int, 3);
    }
    if qterms.len() <= usize::MAX / 3 {
        proof {
            assert(TITLE_WEIGHT * len <= 3 * ((usize::MAX as int) / 3));
        }
        Some(search(filters, query, num_results))
    } else {
        proof {
            assert(TITLE_WEIGHT * len >= 3 * ((usize::MAX as int) / 3 + 1));
        }
        None
    }
}

} // verus!
