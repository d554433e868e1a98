//! A fixed, deterministic hash from terms to 64-bit keys, and the ordered
//! de-duplication of key lists. The filter stores these keys, so the hash is
//! part of the persisted format and must never vary between processes.

use vstd::prelude::*;

verus! {

pub const FNV_OFFSET: u64 = 0xcbf29ce484222325;

pub const FNV_PRIME: u64 = 0x100000001b3;

/// One step of the FNV-1a round: fold a character into the state.
pub open spec fn hash_step(h: u64, c: char) -> u64 {
    (h ^ ((c as u32) as u64)).wrapping_mul(FNV_PRIME)
}

pub open spec fn hash_acc(h: u64, t: Seq<char>) -> u64
    decreases t.len(),
{
    if t.len() == 0 {
        h
    } else {
        hash_acc(hash_step(h, t[0]), t.drop_first())
    }
}

/// The 64-bit key of a term: FNV-1a over its characters.
pub open spec fn term_hash(t: Seq<char>) -> u64 {
    hash_acc(FNV_OFFSET, t)
}

/// The keys of the terms in order of first appearance, duplicates dropped.
pub open spec fn hash_list(terms: Seq<Seq<char>>) -> Seq<u64>
    decreases terms.len(),
{
    if terms.len() == 0 {
        Seq::empty()
    } else {
        let pre = hash_list(terms.drop_last());
        let h = term_hash(terms.last());
        if pre.contains(h) {
            pre
        } else {
            pre.push(h)
        }
    }
}

/// The key list never holds a key twice.
pub proof fn lemma_hash_list_distinct(terms: Seq<Seq<char>>)
    ensures
        forall|i: int, j: int|
            0 <= i < j < hash_list(terms).len() ==> hash_list(terms)[i] != hash_list(terms)[j],
    decreases terms.len(),
{
    if terms.len() > 0 {
        lemma_hash_list_distinct(terms.drop_last());
        let pre = hash_list(terms.drop_last());
        let h = term_hash(terms.last());
        if !pre.contains(h) {
            let r = hash_list(terms);
            assert(r == pre.push(h));
            assert forall|i: int, j: int| 0 <= i < j < r.len() implies r[i] != r[j] by {
                if j < pre.len() {
                    assert(r[i] == pre[i] && r[j] == pre[j]);
                } else {
                    assert(r[j] == h);
                    assert(r[i] == pre[i]);
                    assert(!pre.contains(h));
                }
            }
        }
    }
}

/// Every term's key is in the key list.
pub proof fn lemma_hash_list_complete(terms: Seq<Seq<char>>, k: int)
    requires
        0 <= k < terms.len(),
    ensures
        hash_list(terms).contains(term_hash(terms[k])),
    decreases terms.len(),
{
    let pre = hash_list(terms.drop_last());
    let h = term_hash(terms.last());
    if k == terms.len() - 1 {
        if pre.contains(h) {
        } else {
            assert(hash_list(terms)[pre.len() as int] == h);
        }
    } else {
        lemma_hash_list_complete(terms.drop_last(), k);
        let i = choose|i: int| 0 <= i < pre.len() && pre[i] == term_hash(terms.drop_last()[k]);
        if pre.contains(h) {
            assert(hash_list(terms)[i] == term_hash(terms[k]));
        } else {
            assert(hash_list(terms)[i] == term_hash(terms[k]));
        }
    }
}

/// The key list is never longer than the term list.
pub proof fn lemma_hash_list_len(terms: Seq<Seq<char>>)
    ensures
        hash_list(terms).len() <= terms.len(),
    decreases terms.len(),
{
    if terms.len() > 0 {
        lemma_hash_list_len(terms.drop_last());
    }
}

/// The 64-bit key of a term.
pub fn hash_term(t: &str) -> (r: u64)
    ensures
        r == term_hash(t@),
{
    let n = t.unicode_len();
    let mut h: u64 = FNV_OFFSET;
    let mut i: usize = 0;
    proof {
        assert(t@.skip(0) =~= t@);
    }
    while i < n
        invariant
            n == t@.len(),
            i <= n,
            term_hash(t@) == hash_acc(h, t@.skip(i as int)),
        decreases n - i,
    {
        let ghost rest = t@.skip(i as int);
        let c = t.get_char(i);
        proof {
            assert(rest[0] == t@[i as int]);
            assert(rest.drop_first() =~= t@.skip(i + 1));
        }
        h = (h ^ ((c as u32) as u64)).wrapping_mul(FNV_PRIME);
        i += 1;
    }
    proof {
        assert(t@.skip(n as int) =~= Seq::<char>::empty());
    }
    h
}

fn contains_u64(v: &Vec<u64>, x: u64) -> (r: bool)
    ensures
        r == v@.contains(x),
{
    let mut i: usize = 0;
    while i < v.len()
        invariant
            i <= v@.len(),
            forall|j: int| 0 <= j < i ==> v@[j] != x,
        decreases v@.len() - i,
    {
        if v[i] == x {
            return true;
        }
        i += 1;
    }
    assert(!v@.contains(x));
    false
}

/// The keys of the given terms, first appearance order, duplicates dropped.
pub fn distinct_hashes(terms: &Vec<String>) -> (r: Vec<u64>)
    ensures
        r@ == hash_list(terms.deep_view()),
{
    let mut out: Vec<u64> = Vec::new();
    let mut i: usize = 0;
    proof {
        assert(terms.deep_view().take(0) =~= Seq::<Seq<char>>::empty());
    }
    while i < terms.len()
        invariant
            i <= terms@.len(),
            terms.deep_view().len() == terms@.len(),
            out@ == hash_list(terms.deep_view().take(i as int)),
        decreases terms@.len() - i,
    {
        let h = hash_term(terms[i].as_str());
        proof {
            assert(terms.deep_view()[i as int] == terms@[i as int]@);
            let pfx = terms.deep_view().take(i + 1);
            assert(pfx.drop_last() =~= terms.deep_view().take(i as int));
            assert(pfx.last() == terms.deep_view()[i as int]);
        }
        if !contains_u64(&out, h) {
            out.push(h);
        }
        i += 1;
    }
    proof {
        assert(terms.deep_view().take(terms@.len() as int) =~= terms.deep_view());
    }
    out
}

} // verus!
