//! Failures at the collaborator boundary.
//!
//! These abort a whole decode and propagate to the caller.  A failed
//! column lookup is deliberately *not* here: it yields an absent field,
//! not an error.

use vstd::prelude::*;

verus! {

/// What can go wrong before and around decoding: a malformed connection
/// string, a connect failure, a failed query, or missing result metadata.
/// The text carries the collaborator's diagnostic.
#[derive(Debug, PartialEq, Eq)]
pub enum Error {
    InvalidDSN,
    ConnectionFailure(String),
    QueryError(String),
    FieldsError(String),
}

} // verus!
