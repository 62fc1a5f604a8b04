//! The library's error type.
use vstd::prelude::*;

verus! {

/// Errors reported by the database. Each variant carries a human-readable
/// message; contracts state which variant a failure produces.
#[derive(Debug, Clone)]
pub enum BustubxError {
    NotSupport(String),
    Internal(String),
    Execution(String),
    Storage(String),
    Transaction(String),
}

} // verus!
