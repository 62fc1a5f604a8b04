//! Physical operators of the Volcano executor. Each holds its configuration
//! and the state of a run; the caller reads the inputs and evaluates
//! expressions, and the operator decides what is requested, kept, queued
//! and returned.
pub mod aggregate;
pub mod batch;
pub mod filter;
pub mod grouping;
pub mod grouping_laws;
pub mod limit;
pub mod nested_loop_join;
pub mod project;
pub mod seq_scan;
