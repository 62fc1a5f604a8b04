//! Verified core of a small educational relational database: transaction
//! locking and versioning, the checksummed commit journal, the decision
//! logic of the batched (optionally parallel) Volcano operators, and the
//! COUNT aggregate.
pub mod error;
pub mod execution;
pub mod function;
pub mod transaction;

pub use error::BustubxError;
