//! Reusable constraint gadgets.
//!
//! [`int_arith`] works on bits, [`exp_form`] on exponents of a generator;
//! [`int_laws`] says what the former prove, and [`mul_laws`] that products have
//! witnesses. [`generator`] shows, from the
//! [`primes`] of the group's [`order`], that the generator generates.

pub mod exp_form;
pub mod generator;
pub mod int_arith;
pub mod int_laws;
pub mod mul_laws;
pub mod order;
pub mod primes;
