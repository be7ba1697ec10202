//! The language of the arithmetised programs: constraints, buses, and the
//! virtual columns constraints refer to.

pub mod circuit;
pub mod constraint;
pub mod degrees;
pub mod expander;
pub mod permutation;
