//! Query execution: the decision logic of the batched Volcano operators
//! and the work partitioning of parallel evaluation.
pub mod parallel;
pub mod physical_plan;
