//! The approximate membership filter of one document: a set of 64-bit term
//! keys held in an xor filter. No key that was put in is ever reported
//! absent; keys never put in may be reported present with a small
//! probability. The filter is immutable once built.

use vstd::prelude::*;
use crate::errors::ConstructionError;
use crate::hashing::{hash_list, hash_term, distinct_hashes, term_hash};
use crate::hashing::{lemma_hash_list_complete, lemma_hash_list_distinct};

verus! {

#[verifier::external_type_specification]
#[verifier::external_body]
pub struct ExXor8(xorf::Xor8);

/// The seed an xor filter was built with.
pub uninterp spec fn xor_seed(f: xorf::Xor8) -> u64;

/// The block count of an xor filter's fingerprint table.
pub uninterp spec fn xor_block(f: xorf::Xor8) -> usize;

/// The fingerprint table of an xor filter.
pub uninterp spec fn xor_fingerprints(f: xorf::Xor8) -> Seq<u8>;

/// The set of keys a fingerprint table of three equal blocks, probed under
/// the given seed, answers positively. What `Xor8::contains` computes is a
/// pure function of the seed and the table; this names its result.
pub uninterp spec fn xor_positive(seed: u64, fingerprints: Seq<u8>) -> Set<u64>;

/// Relies on xorf's `Xor8::from(&Vec<u64>)`: construction from a bounded
/// number of distinct keys yields a table of three equal, non-empty blocks,
/// and `contains` then answers positively for every key put in (the
/// no-false-negative guarantee xorf documents). Construction retries seeds
/// forever on duplicate keys, so duplicates are excluded here.
#[verifier::external_body]
fn xor_build(keys: &Vec<u64>) -> (r: xorf::Xor8)
    requires
        keys@.len() <= MAX_TERMS,
        forall|i: int, j: int| 0 <= i < j < keys@.len() ==> keys@[i] != keys@[j],
    ensures
        xor_fingerprints(r).len() == 3 * xor_block(r),
        xor_block(r) >= 1,
        forall|i: int|
            0 <= i < keys@.len() ==> xor_positive(xor_seed(r), xor_fingerprints(r)).contains(
                #[trigger] keys@[i],
            ),
{
    xorf::Xor8::from(keys)
}

/// Relies on `Xor8::contains` (xorf's `Filter<u64>` impl): it reads only the
/// seed, the block count and the fingerprint table, and for a table of three
/// equal blocks its answer is the named positive set of seed and table.
#[verifier::external_body]
fn xor_contains(f: &xorf::Xor8, key: u64) -> (r: bool)
    requires
        xor_block(*f) >= 1,
        xor_fingerprints(*f).len() == 3 * xor_block(*f),
    ensures
        r == xor_positive(xor_seed(*f), xor_fingerprints(*f)).contains(key),
{
    <xorf::Xor8 as xorf::Filter<u64>>::contains(f, &key)
}

/// Relies on the public `seed` field of xorf's `Xor8`.
#[verifier::external_body]
fn xor_get_seed(f: &xorf::Xor8) -> (r: u64)
    ensures
        r == xor_seed(*f),
{
    f.seed
}

/// Relies on the public `fingerprints` field of xorf's `Xor8`.
#[verifier::external_body]
fn xor_get_fingerprints(f: &xorf::Xor8) -> (r: Vec<u8>)
    ensures
        r@ == xor_fingerprints(*f),
{
    f.fingerprints.to_vec()
}

/// Relies on `Xor8` being the plain record its public fields show: a filter
/// assembled from a seed and a table of three equal blocks has exactly those
/// parts, and so the same positive set as the filter they were read from.
#[verifier::external_body]
fn xor_from_parts(seed: u64, fingerprints: Vec<u8>) -> (r: xorf::Xor8)
    requires
        fingerprints@.len() % 3 == 0,
        fingerprints@.len() > 0,
    ensures
        xor_seed(r) == seed,
        xor_fingerprints(r) == fingerprints@,
        xor_fingerprints(r).len() == 3 * xor_block(r),
        xor_block(r) >= 1,
{
    let block_length = fingerprints.len() / 3;
    xorf::Xor8 {
        seed,
        block_length,
        fingerprints: fingerprints.into_boxed_slice(),
    }
}

/// The most distinct term keys one filter supports.
pub const MAX_TERMS: usize = 4096;

/// What a filter is, mathematically: nothing, or a seed with a fingerprint
/// table. Membership semantics are `positive()`.
pub enum FilterView {
    Empty,
    Built { seed: u64, fingerprints: Seq<u8> },
}

impl FilterView {
    /// The set of keys the filter answers positively.
    pub open spec fn positive(self) -> Set<u64> {
        match self {
            FilterView::Empty => Set::empty(),
            FilterView::Built { seed, fingerprints } => xor_positive(seed, fingerprints),
        }
    }

    /// A well-formed table: non-empty, three equal blocks.
    pub open spec fn wf(self) -> bool {
        match self {
            FilterView::Empty => true,
            FilterView::Built { seed, fingerprints } => fingerprints.len() > 0 && fingerprints.len()
                % 3 == 0,
        }
    }
}

/// The approximate membership filter of one document. `Empty` answers every
/// query negatively; `Built` holds an xor filter over the term keys.
pub enum ApproximateFilter {
    Empty,
    Built(xorf::Xor8),
}

impl View for ApproximateFilter {
    type V = FilterView;

    open spec fn view(&self) -> FilterView {
        match *self {
            ApproximateFilter::Empty => FilterView::Empty,
            ApproximateFilter::Built(x) => FilterView::Built {
                seed: xor_seed(x),
                fingerprints: xor_fingerprints(x),
            },
        }
    }
}

impl ApproximateFilter {
    /// The fingerprint table is non-empty, in three equal blocks: what the
    /// two constructors establish and `contains` needs.
    pub open spec fn wf(self) -> bool {
        match self {
            ApproximateFilter::Empty => true,
            ApproximateFilter::Built(x) => xor_fingerprints(x).len() == 3 * xor_block(x)
                && xor_block(x) >= 1,
        }
    }

    /// Builds the filter of a term list. An empty list gives the empty
    /// filter, which answers every query negatively. Fails exactly when the
    /// list holds more than `MAX_TERMS` distinct keys; otherwise every given
    /// term's key is in the filter's positive set: no false negatives.
    pub fn build(terms: &Vec<String>) -> (r: Result<ApproximateFilter, ConstructionError>)
        ensures
            match r {
                Ok(f) => f.wf() && f@.wf() && hash_list(terms.deep_view()).len() <= MAX_TERMS && (
                terms.deep_view().len() == 0 ==> f@ == FilterView::Empty) && forall|i: int|
                    0 <= i < terms.deep_view().len() ==> f@.positive().contains(
                        term_hash(#[trigger] terms.deep_view()[i]),
                    ),
                Err(_) => hash_list(terms.deep_view()).len() > MAX_TERMS,
            },
    {
        let keys = distinct_hashes(terms);
        if keys.len() > MAX_TERMS {
            return Err(ConstructionError);
        }
        if keys.len() == 0 {
            proof {
                crate::hashing::lemma_hash_list_len(terms.deep_view());
                assert forall|i: int| 0 <= i < terms.deep_view().len() implies FilterView::Empty
                    .positive().contains(term_hash(#[trigger] terms.deep_view()[i])) by {
                    lemma_hash_list_complete(terms.deep_view(), i);
                }
            }
            return Ok(ApproximateFilter::Empty);
        }
        proof {
            lemma_hash_list_distinct(terms.deep_view());
        }
        let x = xor_build(&keys);
        let f = ApproximateFilter::Built(x);
        proof {
            assert forall|i: int| 0 <= i < terms.deep_view().len() implies f@.positive().contains(
                term_hash(#[trigger] terms.deep_view()[i]),
            ) by {
                lemma_hash_list_complete(terms.deep_view(), i);
                let h = term_hash(terms.deep_view()[i]);
                let k = choose|k: int| 0 <= k < keys@.len() && keys@[k] == h;
                assert(xor_positive(xor_seed(x), xor_fingerprints(x)).contains(keys@[k]));
            }
        }
        Ok(f)
    }

    /// Whether the term's key is in the filter's positive set. For a term
    /// whose key was put in at build time this is always true; for any other
    /// term it is usually false, rarely true (a false positive).
    pub fn contains(&self, term: &str) -> (r: bool)
        requires
            self.wf(),
        ensures
            r == self@.positive().contains(term_hash(term@)),
    {
        match self {
            ApproximateFilter::Empty => false,
            ApproximateFilter::Built(x) => xor_contains(x, hash_term(term)),
        }
    }

    /// The parts of the filter, for encoding: `None` for the empty filter,
    /// the seed and fingerprint table otherwise.
    pub fn parts(&self) -> (r: Option<(u64, Vec<u8>)>)
        requires
            self.wf(),
        ensures
            match r {
                None => self@ == FilterView::Empty,
                Some((seed, fp)) => self@ == (FilterView::Built {
                    seed,
                    fingerprints: fp@,
                }) && fp@.len() > 0 && fp@.len() % 3 == 0,
            },
    {
        match self {
            ApproximateFilter::Empty => None,
            ApproximateFilter::Built(x) => {
                proof {
                    lemma_wf_built(*x);
                }
                Some((xor_get_seed(x), xor_get_fingerprints(x)))
            },
        }
    }

    /// Reassembles a filter from encoded parts; the inverse of `parts`.
    pub fn from_parts(p: Option<(u64, Vec<u8>)>) -> (r: ApproximateFilter)
        requires
            match p {
                None => true,
                Some((seed, fp)) => fp@.len() > 0 && fp@.len() % 3 == 0,
            },
        ensures
            r.wf(),
            r@ == match p {
                None => FilterView::Empty,
                Some((seed, fp)) => FilterView::Built { seed, fingerprints: fp@ },
            },
    {
        match p {
            None => ApproximateFilter::Empty,
            Some((seed, fp)) => ApproximateFilter::Built(xor_from_parts(seed, fp)),
        }
    }
}

/// A well-formed built filter's table length is positive and a multiple of
/// three.
proof fn lemma_wf_built(x: xorf::Xor8)
    requires
        (ApproximateFilter::Built(x)).wf(),
    ensures
        xor_fingerprints(x).len() > 0,
        xor_fingerprints(x).len() % 3 == 0,
{
    assert(xor_fingerprints(x).len() == 3 * xor_block(x));
}

} // verus!
