//! The scorer: how relevant one document is to a tokenized query. A query
//! term found in the title counts `TITLE_WEIGHT`; a term absent from the
//! title but in the document's filter counts one; each term counts once, so
//! a title hit is never also counted as a filter hit.

use vstd::prelude::*;
use crate::filter::ApproximateFilter;
use crate::hashing::term_hash;
use crate::text::{tokenize, tokens_of};

verus! {

/// The weight of an exact title hit relative to a filter hit.
pub const TITLE_WEIGHT: usize = 3;

/// What one query term contributes against the given title terms and filter
/// positive set.
pub open spec fn term_score(title_terms: Seq<Seq<char>>, t: Seq<char>, positive: Set<u64>) -> nat {
    if title_terms.contains(t) {
        TITLE_WEIGHT as nat
    } else if positive.contains(term_hash(t)) {
        1
    } else {
        0
    }
}

/// The sum of the contributions of all query terms, in order.
pub open spec fn score_terms(
    title_terms: Seq<Seq<char>>,
    qterms: Seq<Seq<char>>,
    positive: Set<u64>,
) -> nat
    decreases qterms.len(),
{
    if qterms.len() == 0 {
        0
    } else {
        score_terms(title_terms, qterms.drop_last(), positive) + term_score(
            title_terms,
            qterms.last(),
            positive,
        )
    }
}

/// What `score` returns: the query terms scored against the tokens of the
/// raw title and the filter's positive set.
pub open spec fn score_of(title: Seq<char>, qterms: Seq<Seq<char>>, positive: Set<u64>) -> nat {
    score_terms(tokens_of(title), qterms, positive)
}

/// Adding a query term that matches the title strictly increases the score,
/// holding everything else fixed.
pub proof fn lemma_score_monotonic(
    title: Seq<char>,
    qterms: Seq<Seq<char>>,
    t: Seq<char>,
    positive: Set<u64>,
)
    requires
        tokens_of(title).contains(t),
    ensures
        score_of(title, qterms.push(t), positive) == score_of(title, qterms, positive)
            + TITLE_WEIGHT,
        score_of(title, qterms.push(t), positive) > score_of(title, qterms, positive),
{
    assert(qterms.push(t).drop_last() =~= qterms);
    assert(qterms.push(t).last() == t);
    assert(term_score(tokens_of(title), t, positive) == TITLE_WEIGHT as nat);
}

fn contains_string(v: &Vec<String>, t: &String) -> (r: bool)
    ensures
        r == v.deep_view().contains(t@),
{
    let mut i: usize = 0;
    while i < v.len()
        invariant
            i <= v@.len(),
            v.deep_view().len() == v@.len(),
            forall|j: int| 0 <= j < i ==> v.deep_view()[j] != t@,
        decreases v@.len() - i,
    {
        if *t == v[i] {
            proof {
                assert(v.deep_view()[i as int] == t@);
            }
            return true;
        }
        proof {
            assert(v.deep_view()[i as int] == v@[i as int]@);
        }
        i += 1;
    }
    assert(!v.deep_view().contains(t@));
    false
}

/// The relevance of a document to the query terms: `TITLE_WEIGHT` for each
/// term among the title's tokens, one for each remaining term whose key is
/// in the filter, summed over the terms in order.
pub fn score(title: &str, search_terms: &Vec<String>, filter: &ApproximateFilter) -> (r: usize)
    requires
        filter.wf(),
        TITLE_WEIGHT * search_terms@.len() <= usize::MAX,
    ensures
        r == score_of(title@, search_terms.deep_view(), filter@.positive()),
{
    let title_terms = tokenize(title);
    let ghost tt = tokens_of(title@);
    let ghost q = search_terms.deep_view();
    let mut total: usize = 0;
    let mut i: usize = 0;
    proof {
        assert(q.take(0) =~= Seq::<Seq<char>>::empty());
    }
    while i < search_terms.len()
        invariant
            filter.wf(),
            i <= search_terms@.len(),
            q.len() == search_terms@.len(),
            q == search_terms.deep_view(),
            tt == title_terms.deep_view(),
            TITLE_WEIGHT * search_terms@.len() <= usize::MAX,
            total == score_terms(tt, q.take(i as int), filter@.positive()),
            total <= TITLE_WEIGHT * i,
        decreases search_terms@.len() - i,
    {
        let t = &search_terms[i];
        proof {
            assert(q[i as int] == t@);
            assert(q.take(i + 1).drop_last() =~= q.take(i as int));
            assert(q.take(i + 1).last() == q[i as int]);
            assert(TITLE_WEIGHT * (i + 1) <= TITLE_WEIGHT * search_terms@.len()) by (nonlinear_arith)
                requires
                    i + 1 <= search_terms@.len(),
                    TITLE_WEIGHT * search_terms@.len() <= usize::MAX,
            ;
            assert(TITLE_WEIGHT * (i + 1) == TITLE_WEIGHT * i + TITLE_WEIGHT) by (nonlinear_arith);
        }
        if contains_string(&title_terms, t) {
            total = total + TITLE_WEIGHT;
        } else if filter.contains(t.as_str()) {
            total = total + 1;
        }
        i += 1;
    }
    proof {
        assert(q.take(search_terms@.len() as int) =~= q);
    }
    total
}

} // verus!
