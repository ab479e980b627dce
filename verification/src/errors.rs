//! Typed failures that the decoding core surfaces to its callers.
use vstd::prelude::*;

verus! {

/// Two records in one batch share a name; `name` is the colliding name,
/// verbatim. The whole build is abandoned: no partial collection exists.
#[derive(Debug, Clone, PartialEq, Eq)]
pub struct DuplicateError {
    pub name: String,
}

} // verus!
