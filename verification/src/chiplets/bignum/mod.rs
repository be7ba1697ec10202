//! Proves `s^65537 mod N` for a 2048-bit `N`.
//!
//! [`bigint`] and [`limbs`] are the arithmetic, [`modmul`] and [`modexp`] the
//! computation, [`columns`], [`rows`] and [`table`] its table, [`air`] and
//! [`sides`] the constraints, [`chiplet`] and [`cpu`] the two ends of the bus.
//! [`complete`] shows that the table of a computation is accepted, [`sound`]
//! that an accepted table holds the power.

pub mod air;
pub mod bigint;
pub mod chiplet;
pub mod columns;
pub mod complete;
pub mod cpu;
pub mod exponents;
pub mod limbs;
pub mod modexp;
pub mod modmul;
pub mod reading;
pub mod rows;
pub mod sides;
pub mod sound;
pub mod table;
pub mod witness;
