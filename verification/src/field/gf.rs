//! The field operations on the bits of their operands.
//!
//! GF(2^8) is GF(2)[x] / (x^8 + x^4 + x^3 + x + 1). Each further level is
//! the level below adjoined a root `X` of `X^2 + X + τ`, an element
//! `lo + hi · X` being written `hi` above `lo`; its `τ` is the `X` of the
//! level below times that level's own `τ`. Addition is XOR throughout.

use vstd::prelude::*;

verus! {

/// `a · x` in GF(2^8).
pub open spec fn gf8_double(a: u8) -> u8 {
    if a & 0x80 == 0 {
        a << 1
    } else {
        (a << 1) ^ 0x1b
    }
}

/// `a · x^i` where bit `i` of `b` is set, zero elsewhere.
pub open spec fn gf8_term(a: u8, b: u8, i: u8) -> u8 {
    if (b >> i) & 1 == 1 {
        a
    } else {
        0
    }
}

/// `a · b` in GF(2^8).
pub open spec fn gf8_mul(a: u8, b: u8) -> u8 {
    let a1 = gf8_double(a);
    let a2 = gf8_double(a1);
    let a3 = gf8_double(a2);
    let a4 = gf8_double(a3);
    let a5 = gf8_double(a4);
    let a6 = gf8_double(a5);
    let a7 = gf8_double(a6);
    gf8_term(a, b, 0) ^ gf8_term(a1, b, 1) ^ gf8_term(a2, b, 2) ^ gf8_term(a3, b, 3) ^ gf8_term(
        a4,
        b,
        4,
    ) ^ gf8_term(a5, b, 5) ^ gf8_term(a6, b, 6) ^ gf8_term(a7, b, 7)
}

/// `a · b` in GF(2^16).
#[verifier::opaque]
pub open spec fn gf16_mul(a: u16, b: u16) -> u16 {
    let (a0, a1) = (a as u8, (a >> 8) as u8);
    let (b0, b1) = (b as u8, (b >> 8) as u8);
    let top = gf8_mul(a1, b1);
    let lo = gf8_mul(a0, b0) ^ gf8_mul(top, 0x20);
    let hi = gf8_mul(a0, b1) ^ gf8_mul(a1, b0) ^ top;
    (lo as u16) | ((hi as u16) << 8)
}

/// `a · b` in GF(2^32).
#[verifier::opaque]
pub open spec fn gf32_mul(a: u32, b: u32) -> u32 {
    let (a0, a1) = (a as u16, (a >> 16) as u16);
    let (b0, b1) = (b as u16, (b >> 16) as u16);
    let top = gf16_mul(a1, b1);
    let lo = gf16_mul(a0, b0) ^ gf16_mul(top, 0x2000);
    let hi = gf16_mul(a0, b1) ^ gf16_mul(a1, b0) ^ top;
    (lo as u32) | ((hi as u32) << 16)
}

/// `a · b` in GF(2^64).
#[verifier::opaque]
pub open spec fn gf64_mul(a: u64, b: u64) -> u64 {
    let (a0, a1) = (a as u32, (a >> 32) as u32);
    let (b0, b1) = (b as u32, (b >> 32) as u32);
    let top = gf32_mul(a1, b1);
    let lo = gf32_mul(a0, b0) ^ gf32_mul(top, 0x2000_0000);
    let hi = gf32_mul(a0, b1) ^ gf32_mul(a1, b0) ^ top;
    (lo as u64) | ((hi as u64) << 32)
}

/// `a · b` in GF(2^128).
#[verifier::opaque]
pub open spec fn gf128_mul(a: u128, b: u128) -> u128 {
    let (a0, a1) = (a as u64, (a >> 64) as u64);
    let (b0, b1) = (b as u64, (b >> 64) as u64);
    let top = gf64_mul(a1, b1);
    let lo = gf64_mul(a0, b0) ^ gf64_mul(top, 0x2000_0000_0000_0000);
    let hi = gf64_mul(a0, b1) ^ gf64_mul(a1, b0) ^ top;
    (lo as u128) | ((hi as u128) << 64)
}

/// `a^e` in GF(2^128).
pub open spec fn gf128_pow(a: u128, e: nat) -> u128
    decreases e,
{
    if e == 0 {
        1
    } else {
        gf128_mul(gf128_pow(a, (e - 1) as nat), a)
    }
}

/// The inverse in GF(2^128); zero for zero.
pub open spec fn gf128_inv(a: u128) -> u128 {
    if a == 0 {
        0
    } else {
        choose|b: u128| #[trigger] gf128_mul(a, b) == 1
    }
}

} // verus!
