//! The two error kinds of the index: one for building a filter, one for
//! reading persisted bytes back.

use vstd::prelude::*;

verus! {

/// A filter could not be built from the given term set: the set has more
/// distinct keys than the index supports.
#[derive(Debug, Clone, Copy, PartialEq, Eq, Structural)]
pub struct ConstructionError;

/// Persisted bytes do not encode a value: truncated, corrupt, or trailing
/// garbage.
#[derive(Debug, Clone, Copy, PartialEq, Eq, Structural)]
pub struct FormatError;

impl ConstructionError {
    /// A short description, for callers that report the failure.
    pub fn message(&self) -> (r: &'static str)
        ensures
            r@ == "term set too large to index"@,
    {
        "term set too large to index"
    }
}

impl FormatError {
    /// A short description, for callers that report the failure.
    pub fn message(&self) -> (r: &'static str)
        ensures
            r@ == "malformed index bytes"@,
    {
        "malformed index bytes"
    }
}

} // verus!
