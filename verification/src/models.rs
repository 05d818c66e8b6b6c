//! The bodies of requests and the rows of the canonical table.

use vstd::prelude::*;

verus! {

/// The value column of a row of the canonical table.
#[derive(Debug, PartialEq, Eq)]
pub struct KVValue {
    pub value: String,
}

/// The body of a request that sets a key.
#[derive(Debug, PartialEq, Eq)]
pub struct SetValueRequest {
    pub value: String,
}

} // verus!
