//! Building blocks of a proof system over binary tower fields.
//!
//! The fields themselves ([`field`]), the traces and polynomials that hold a
//! computation ([`trace`], [`poly`], [`tensor`]), what commits to them and
//! binds the two sides of the protocol ([`hashers`], [`merkle`],
//! [`expander_matrix`], [`transcript`], [`protocol`], [`proofs`]), its
//! parameters ([`config`], [`outer`], [`utils`]), and the arithmetised
//! computations: the language they are written in ([`program`]), gadgets
//! ([`atoms`]) and tables ([`chiplets`], [`aes`]).

pub mod aes;
pub mod atoms;
pub mod binding;
pub mod bits;
pub mod bytes;
pub mod chiplets;
pub mod config;
pub mod errors;
pub mod expander_matrix;
pub mod field;
pub mod hashers;
pub mod merkle;
pub mod outer;
pub mod poly;
pub mod program;
pub mod proofs;
pub mod protocol;
pub mod tensor;
pub mod trace;
pub mod transcript;
pub mod utils;
pub mod wipe;
