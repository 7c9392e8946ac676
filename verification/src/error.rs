//! What can go wrong.

use vstd::prelude::*;

verus! {

/// Why an operation failed.
#[derive(Clone, Debug, PartialEq, Eq)]
pub enum XyzError {
    /// The statement cannot be run.
    InvalidQuery(String),
    /// The statement is malformed.
    Parse(String),
    LobeNotFound(String),
    RecordNotFound(String),
    GhostNotFound(String),
    GhostExists(String),
    /// Another record has the anchor's value.
    DuplicateAnchor { anchor: String, value: String, lobe: String, existing_lid: String },
    /// A similarity search ran out of time before it scored its candidates.
    NearestBudgetExceeded { scanned: u64, budget_ms: u64 },
    /// The storage layer failed.
    Storage(String),
    Internal(String),
}

/// The statement cannot be run, for the reason given.
pub open spec fn is_invalid<T>(r: Result<T, XyzError>, message: Seq<char>) -> bool {
    r matches Err(XyzError::InvalidQuery(m)) && m@ == message
}

/// The failure of a statement that cannot be run.
pub fn invalid<T>(message: &str) -> (r: Result<T, XyzError>)
    ensures
        is_invalid(r, message@),
{
    Err(XyzError::InvalidQuery(message.to_owned()))
}

} // verus!
