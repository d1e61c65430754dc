//! The lookup argument.
pub mod error;
