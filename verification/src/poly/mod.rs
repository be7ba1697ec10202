//! Polynomials over GF(2^128).

pub mod laws;
pub mod unique;
pub mod univariate;
pub mod variant;
pub mod views;
