//! Database-level transactions: strict two-phase locking, whole-database
//! snapshot versioning and the durable commit journal.
pub mod lock_manager;
pub mod recovery;
pub mod transaction;
pub mod transaction_manager;

use vstd::prelude::*;

verus! {

/// Identifier handed to each transaction by the manager.
pub type TransactionId = u64;

} // verus!
