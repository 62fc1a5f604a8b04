//! Built-in functions.
pub mod aggregate;
