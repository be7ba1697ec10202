//! Sparse expander matrices, sampled from a seed.

pub mod matrix;
pub mod prg;

pub use matrix::{generate_expander_matrix, try_generate_expander_matrix};
pub use prg::{AesCtrPrg, Exhausted};
