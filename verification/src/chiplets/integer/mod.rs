//! Integer arithmetic, one operation per row.

pub mod arith;
pub mod laws;
pub mod words;
