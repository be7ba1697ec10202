//! Tables that answer for one kind of computation each.

pub mod bignum;
pub mod buses;
pub mod integer;
pub mod ram;
pub mod rom;
