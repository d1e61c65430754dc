//! Lookups into tables.
pub mod context;
pub mod logup_gkr;
pub mod witness;
