//! Binary tower fields: GF(2), GF(2^8) and the quadratic towers up to
//! GF(2^128).
//!
//! [`gf`] says what the operations are, [`laws`] that they form a
//! commutative ring, [`fermat`] that every element but zero is a root of
//! one, [`subfields`] how the levels lie in each other, [`elements`] holds the element types and the calls
//! into `hekate_math` that compute with them, and [`tower`] reads and writes
//! them as bytes.

pub mod elements;
pub mod fermat;
pub mod gf;
pub mod laws;
pub mod subfields;
pub mod tower;

pub use elements::{Bit, Block128, Block16, Block32, Block64, Block8, Flat};
pub use tower::TowerField;
