//! Key-carrying wrapper types. Each pairs a key with a phantom marker for
//! the filter flavor it is destined for, so different filter kinds stay
//! distinct at compile time without runtime cost.

use vstd::prelude::*;
use std::collections::hash_map::DefaultHasher;
use std::marker::PhantomData;

verus! {

/// A key tagged with the filter flavor `B` it belongs to.
pub struct FilterProxy<K, B> {
    key: K,
    _phantom: PhantomData<B>,
}

impl<K, B> FilterProxy<K, B> {
    /// The wrapped key, as contracts see it.
    pub closed spec fn spec_key(&self) -> K {
        self.key
    }

    /// Wraps a key.
    pub fn new(key: K) -> (r: Self)
        ensures
            r.spec_key() == key,
    {
        FilterProxy { key, _phantom: PhantomData }
    }

    /// The wrapped key.
    pub fn key(&self) -> (r: &K)
        ensures
            *r == self.spec_key(),
    {
        &self.key
    }
}

/// Relies on `Hash::hash`: feeds the key to the hasher. Nothing is claimed
/// of the resulting state.
#[verifier::external_body]
fn write_key<K: std::hash::Hash>(state: &mut DefaultHasher, key: &K) {
    key.hash(state);
}

/// A key tagged with a hasher state primed from it and the filter flavor
/// `B` it belongs to.
#[derive(Debug, PartialEq, Eq, Hash)]
pub struct HashProxy<K, H, B> {
    key: K,
    _hasher: H,
    _phantom: PhantomData<B>,
}

impl<K: std::hash::Hash, B> HashProxy<K, DefaultHasher, B> {
    /// The wrapped key, as contracts see it.
    pub closed spec fn spec_key(&self) -> K {
        self.key
    }

    /// Wraps a key, priming a default hasher with it.
    pub fn new(key: K) -> (r: Self)
        ensures
            r.spec_key() == key,
    {
        let mut hasher = DefaultHasher::new();
        write_key(&mut hasher, &key);
        HashProxy { key, _hasher: hasher, _phantom: PhantomData }
    }

    /// The wrapped key.
    pub fn key(&self) -> (r: &K)
        ensures
            *r == self.spec_key(),
    {
        &self.key
    }
}

} // verus!
