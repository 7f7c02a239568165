//! Rateless invertible Bloom lookup tables: streaming set reconciliation.

pub mod encoding;
pub mod sketch;
pub mod testing;
