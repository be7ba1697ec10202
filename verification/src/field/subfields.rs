//! The smaller fields inside GF(2^128).
//!
//! A number below `2^(n/2)` is an element of the lower half's field, and
//! products of such elements are that field's products. Multiplying by the
//! adjoined root moves them to the upper half.

use vstd::prelude::*;

use super::gf;
use super::laws;
use super::laws::Ring;

verus! {

/// On elements of GF(2^8), GF(2^16) multiplies as that field does.
pub proof fn law_gf16_extends(a: u8, b: u8)
    ensures
        gf::gf16_mul(a as u16, b as u16) == gf::gf8_mul(a, b),
{
    reveal(gf::gf16_mul);
    let p = gf::gf8_mul(a, b);
    laws::lemma_halves16(a as u16, 0, 0, 0, 0, 0);
    laws::lemma_halves16(b as u16, 0, 0, 0, 0, 0);
    let (a0, a1) = (a as u16 as u8, ((a as u16) >> 8) as u8);
    let (b0, b1) = (b as u16 as u8, ((b as u16) >> 8) as u8);
    laws::lemma_halves16(0, a0, a1, 0, 0, 0);
    laws::lemma_halves16(0, b0, b1, 0, 0, 0);
    assert(a0 == a && a1 == 0 && b0 == b && b1 == 0);
    <u8 as Ring>::units(a);
    <u8 as Ring>::units(b);
    <u8 as Ring>::units(0);
    <u8 as Ring>::units(<u8 as Ring>::tau());
    <u8 as Ring>::commutes(0, a);
    <u8 as Ring>::commutes(0, b);
    <u8 as Ring>::commutes(0, <u8 as Ring>::tau());
    <u8 as Ring>::sums(p, 0, 0, 0, 0, 0, 0, 0);
    <u8 as Ring>::sums(0, 0, 0, 0, 0, 0, 0, 0);
    laws::lemma_halves16(0, p, 0, 0, 0, 0);
}

/// Multiplying an element of GF(2^8) by one of the upper half.
pub proof fn law_gf16_raises(a: u8, b: u8)
    ensures
        a * 0x100 <= u16::MAX,
        gf::gf16_mul((a * 0x100) as u16, b as u16) == gf::gf8_mul(a, b) * 0x100,
{
    reveal(gf::gf16_mul);
    let p = gf::gf8_mul(a, b);
    laws::lemma_halves16(0, 0, a, 0, 0, 0);
    let x = (a * 0x100) as u16;
    laws::lemma_halves16(x, 0, 0, 0, 0, 0);
    laws::lemma_halves16(b as u16, 0, 0, 0, 0, 0);
    let (a0, a1) = (x as u8, (x >> 8) as u8);
    let (b0, b1) = (b as u16 as u8, ((b as u16) >> 8) as u8);
    laws::lemma_halves16(0, a0, a1, 0, 0, 0);
    laws::lemma_halves16(0, b0, b1, 0, 0, 0);
    assert(a0 == 0 && a1 == a && b0 == b && b1 == 0);
    <u8 as Ring>::units(a);
    <u8 as Ring>::units(b);
    <u8 as Ring>::units(0);
    <u8 as Ring>::units(<u8 as Ring>::tau());
    <u8 as Ring>::commutes(0, a);
    <u8 as Ring>::commutes(0, b);
    <u8 as Ring>::commutes(0, <u8 as Ring>::tau());
    <u8 as Ring>::sums(p, 0, 0, 0, 0, 0, 0, 0);
    <u8 as Ring>::sums(0, p, 0, 0, 0, 0, 0, 0);
    <u8 as Ring>::sums(0, 0, 0, 0, 0, 0, 0, 0);
    laws::lemma_halves16(0, 0, p, 0, 0, 0);
}

/// On elements of GF(2^16), GF(2^32) multiplies as that field does.
pub proof fn law_gf32_extends(a: u16, b: u16)
    ensures
        gf::gf32_mul(a as u32, b as u32) == gf::gf16_mul(a, b),
{
    reveal(gf::gf32_mul);
    let p = gf::gf16_mul(a, b);
    laws::lemma_halves32(a as u32, 0, 0, 0, 0, 0);
    laws::lemma_halves32(b as u32, 0, 0, 0, 0, 0);
    let (a0, a1) = (a as u32 as u16, ((a as u32) >> 16) as u16);
    let (b0, b1) = (b as u32 as u16, ((b as u32) >> 16) as u16);
    laws::lemma_halves32(0, a0, a1, 0, 0, 0);
    laws::lemma_halves32(0, b0, b1, 0, 0, 0);
    assert(a0 == a && a1 == 0 && b0 == b && b1 == 0);
    <u16 as Ring>::units(a);
    <u16 as Ring>::units(b);
    <u16 as Ring>::units(0);
    <u16 as Ring>::units(<u16 as Ring>::tau());
    <u16 as Ring>::commutes(0, a);
    <u16 as Ring>::commutes(0, b);
    <u16 as Ring>::commutes(0, <u16 as Ring>::tau());
    <u16 as Ring>::sums(p, 0, 0, 0, 0, 0, 0, 0);
    <u16 as Ring>::sums(0, 0, 0, 0, 0, 0, 0, 0);
    laws::lemma_halves32(0, p, 0, 0, 0, 0);
}

/// Multiplying an element of GF(2^16) by one of the upper half.
pub proof fn law_gf32_raises(a: u16, b: u16)
    ensures
        a * 0x1_0000 <= u32::MAX,
        gf::gf32_mul((a * 0x1_0000) as u32, b as u32) == gf::gf16_mul(a, b) * 0x1_0000,
{
    reveal(gf::gf32_mul);
    let p = gf::gf16_mul(a, b);
    laws::lemma_halves32(0, 0, a, 0, 0, 0);
    let x = (a * 0x1_0000) as u32;
    laws::lemma_halves32(x, 0, 0, 0, 0, 0);
    laws::lemma_halves32(b as u32, 0, 0, 0, 0, 0);
    let (a0, a1) = (x as u16, (x >> 16) as u16);
    let (b0, b1) = (b as u32 as u16, ((b as u32) >> 16) as u16);
    laws::lemma_halves32(0, a0, a1, 0, 0, 0);
    laws::lemma_halves32(0, b0, b1, 0, 0, 0);
    assert(a0 == 0 && a1 == a && b0 == b && b1 == 0);
    <u16 as Ring>::units(a);
    <u16 as Ring>::units(b);
    <u16 as Ring>::units(0);
    <u16 as Ring>::units(<u16 as Ring>::tau());
    <u16 as Ring>::commutes(0, a);
    <u16 as Ring>::commutes(0, b);
    <u16 as Ring>::commutes(0, <u16 as Ring>::tau());
    <u16 as Ring>::sums(p, 0, 0, 0, 0, 0, 0, 0);
    <u16 as Ring>::sums(0, p, 0, 0, 0, 0, 0, 0);
    <u16 as Ring>::sums(0, 0, 0, 0, 0, 0, 0, 0);
    laws::lemma_halves32(0, 0, p, 0, 0, 0);
}

/// On elements of GF(2^32), GF(2^64) multiplies as that field does.
pub proof fn law_gf64_extends(a: u32, b: u32)
    ensures
        gf::gf64_mul(a as u64, b as u64) == gf::gf32_mul(a, b),
{
    reveal(gf::gf64_mul);
    let p = gf::gf32_mul(a, b);
    laws::lemma_halves64(a as u64, 0, 0, 0, 0, 0);
    laws::lemma_halves64(b as u64, 0, 0, 0, 0, 0);
    let (a0, a1) = (a as u64 as u32, ((a as u64) >> 32) as u32);
    let (b0, b1) = (b as u64 as u32, ((b as u64) >> 32) as u32);
    laws::lemma_halves64(0, a0, a1, 0, 0, 0);
    laws::lemma_halves64(0, b0, b1, 0, 0, 0);
    assert(a0 == a && a1 == 0 && b0 == b && b1 == 0);
    <u32 as Ring>::units(a);
    <u32 as Ring>::units(b);
    <u32 as Ring>::units(0);
    <u32 as Ring>::units(<u32 as Ring>::tau());
    <u32 as Ring>::commutes(0, a);
    <u32 as Ring>::commutes(0, b);
    <u32 as Ring>::commutes(0, <u32 as Ring>::tau());
    <u32 as Ring>::sums(p, 0, 0, 0, 0, 0, 0, 0);
    <u32 as Ring>::sums(0, 0, 0, 0, 0, 0, 0, 0);
    laws::lemma_halves64(0, p, 0, 0, 0, 0);
}

/// Multiplying an element of GF(2^32) by one of the upper half.
pub proof fn law_gf64_raises(a: u32, b: u32)
    ensures
        a * 0x1_0000_0000 <= u64::MAX,
        gf::gf64_mul((a * 0x1_0000_0000) as u64, b as u64) == gf::gf32_mul(a, b) * 0x1_0000_0000,
{
    reveal(gf::gf64_mul);
    let p = gf::gf32_mul(a, b);
    laws::lemma_halves64(0, 0, a, 0, 0, 0);
    let x = (a * 0x1_0000_0000) as u64;
    laws::lemma_halves64(x, 0, 0, 0, 0, 0);
    laws::lemma_halves64(b as u64, 0, 0, 0, 0, 0);
    let (a0, a1) = (x as u32, (x >> 32) as u32);
    let (b0, b1) = (b as u64 as u32, ((b as u64) >> 32) as u32);
    laws::lemma_halves64(0, a0, a1, 0, 0, 0);
    laws::lemma_halves64(0, b0, b1, 0, 0, 0);
    assert(a0 == 0 && a1 == a && b0 == b && b1 == 0);
    <u32 as Ring>::units(a);
    <u32 as Ring>::units(b);
    <u32 as Ring>::units(0);
    <u32 as Ring>::units(<u32 as Ring>::tau());
    <u32 as Ring>::commutes(0, a);
    <u32 as Ring>::commutes(0, b);
    <u32 as Ring>::commutes(0, <u32 as Ring>::tau());
    <u32 as Ring>::sums(p, 0, 0, 0, 0, 0, 0, 0);
    <u32 as Ring>::sums(0, p, 0, 0, 0, 0, 0, 0);
    <u32 as Ring>::sums(0, 0, 0, 0, 0, 0, 0, 0);
    laws::lemma_halves64(0, 0, p, 0, 0, 0);
}

/// On elements of GF(2^64), GF(2^128) multiplies as that field does.
pub proof fn law_gf128_extends(a: u64, b: u64)
    ensures
        gf::gf128_mul(a as u128, b as u128) == gf::gf64_mul(a, b),
{
    reveal(gf::gf128_mul);
    let p = gf::gf64_mul(a, b);
    laws::lemma_halves128(a as u128, 0, 0, 0, 0, 0);
    laws::lemma_halves128(b as u128, 0, 0, 0, 0, 0);
    let (a0, a1) = (a as u128 as u64, ((a as u128) >> 64) as u64);
    let (b0, b1) = (b as u128 as u64, ((b as u128) >> 64) as u64);
    laws::lemma_halves128(0, a0, a1, 0, 0, 0);
    laws::lemma_halves128(0, b0, b1, 0, 0, 0);
    assert(a0 == a && a1 == 0 && b0 == b && b1 == 0);
    <u64 as Ring>::units(a);
    <u64 as Ring>::units(b);
    <u64 as Ring>::units(0);
    <u64 as Ring>::units(<u64 as Ring>::tau());
    <u64 as Ring>::commutes(0, a);
    <u64 as Ring>::commutes(0, b);
    <u64 as Ring>::commutes(0, <u64 as Ring>::tau());
    <u64 as Ring>::sums(p, 0, 0, 0, 0, 0, 0, 0);
    <u64 as Ring>::sums(0, 0, 0, 0, 0, 0, 0, 0);
    laws::lemma_halves128(0, p, 0, 0, 0, 0);
}

/// Multiplying an element of GF(2^64) by one of the upper half.
pub proof fn law_gf128_raises(a: u64, b: u64)
    ensures
        a * 0x1_0000_0000_0000_0000 <= u128::MAX,
        gf::gf128_mul((a * 0x1_0000_0000_0000_0000) as u128, b as u128) == gf::gf64_mul(a, b) * 0x1_0000_0000_0000_0000,
{
    reveal(gf::gf128_mul);
    let p = gf::gf64_mul(a, b);
    laws::lemma_halves128(0, 0, a, 0, 0, 0);
    let x = (a * 0x1_0000_0000_0000_0000) as u128;
    laws::lemma_halves128(x, 0, 0, 0, 0, 0);
    laws::lemma_halves128(b as u128, 0, 0, 0, 0, 0);
    let (a0, a1) = (x as u64, (x >> 64) as u64);
    let (b0, b1) = (b as u128 as u64, ((b as u128) >> 64) as u64);
    laws::lemma_halves128(0, a0, a1, 0, 0, 0);
    laws::lemma_halves128(0, b0, b1, 0, 0, 0);
    assert(a0 == 0 && a1 == a && b0 == b && b1 == 0);
    <u64 as Ring>::units(a);
    <u64 as Ring>::units(b);
    <u64 as Ring>::units(0);
    <u64 as Ring>::units(<u64 as Ring>::tau());
    <u64 as Ring>::commutes(0, a);
    <u64 as Ring>::commutes(0, b);
    <u64 as Ring>::commutes(0, <u64 as Ring>::tau());
    <u64 as Ring>::sums(p, 0, 0, 0, 0, 0, 0, 0);
    <u64 as Ring>::sums(0, p, 0, 0, 0, 0, 0, 0);
    <u64 as Ring>::sums(0, 0, 0, 0, 0, 0, 0, 0);
    laws::lemma_halves128(0, 0, p, 0, 0, 0);
}

/// Bytes multiply in GF(2^128) as they do in GF(2^8).
pub proof fn law_bytes_are_a_subfield(a: u8, b: u8)
    ensures
        gf::gf128_mul(a as u128, b as u128) == gf::gf8_mul(a, b),
{
    law_gf16_extends(a, b);
    law_gf32_extends(a as u16, b as u16);
    law_gf64_extends(a as u32, b as u32);
    law_gf128_extends(a as u64, b as u64);
}

/// The weights `1`, `2^8`, `2^16` and `2^24` shift bytes.
pub proof fn law_byte_weights_shift(c: u8)
    ensures
        gf::gf128_mul(1, c as u128) == c,
        gf::gf128_mul(256, c as u128) == c * 256,
        gf::gf128_mul(65536, c as u128) == c * 65536,
        gf::gf128_mul(16777216, c as u128) == c * 16777216,
{
    <u128 as Ring>::units(c as u128);
    <u128 as Ring>::commutes(1, c as u128);
    <u8 as Ring>::units(c);
    <u8 as Ring>::commutes(1, c);
    <u16 as Ring>::units(c as u16);
    <u16 as Ring>::commutes(1, c as u16);
    law_gf16_raises(1, c);
    law_gf32_raises(1, c as u16);
    law_gf32_raises(256, c as u16);
    law_gf32_extends(256, c as u16);
    law_gf64_extends(256, c as u32);
    law_gf64_extends(65536, c as u32);
    law_gf64_extends(16777216, c as u32);
    law_gf128_extends(256, c as u64);
    law_gf128_extends(65536, c as u64);
    law_gf128_extends(16777216, c as u64);
}

} // verus!
