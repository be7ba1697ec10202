//! Element types, and the field operations as `hekate_math` computes them.

use hekate_math::HardwareField;
use vstd::prelude::*;

use super::gf;
use crate::bits;

verus! {

/// An element of GF(2), in the low bit.
#[derive(Clone, Copy, Debug, PartialEq, Eq, Structural)]
pub struct Bit(pub u8);

/// An element of GF(2^8).
#[derive(Clone, Copy, Debug, PartialEq, Eq, Structural)]
pub struct Block8(pub u8);

/// An element of GF(2^16).
#[derive(Clone, Copy, Debug, PartialEq, Eq, Structural)]
pub struct Block16(pub u16);

/// An element of GF(2^32).
#[derive(Clone, Copy, Debug, PartialEq, Eq, Structural)]
pub struct Block32(pub u32);

/// An element of GF(2^64).
#[derive(Clone, Copy, Debug, PartialEq, Eq, Structural)]
pub struct Block64(pub u64);

/// An element of GF(2^128).
#[derive(Clone, Copy, Debug, PartialEq, Eq, Structural)]
pub struct Block128(pub u128);

/// A value stored in the flat (hardware) basis: the raw bits are those of
/// the polynomial basis that carry-less multiplication works on.
#[derive(Debug, PartialEq, Eq, Structural)]
pub struct Flat<F>(pub F);

impl<F: Copy> Clone for Flat<F> {
    fn clone(&self) -> (r: Self)
        ensures
            r == *self,
    {
        *self
    }
}

impl<F: Copy> Copy for Flat<F> {

}

impl<F> Flat<F> {
    pub fn from_raw(raw: F) -> (r: Self)
        ensures
            r.0 == raw,
    {
        Flat(raw)
    }

    pub fn into_raw(self) -> (r: F)
        ensures
            r == self.0,
    {
        self.0
    }
}

// ---------------------------------------------------------------
// Basis change
// ---------------------------------------------------------------

/// What `hekate_math::Block8::to_hardware` returns.
pub uninterp spec fn flat8(tower: u8) -> u8;

/// What `hekate_math::Block8::from_hardware` returns.
pub uninterp spec fn tower8(flat: u8) -> u8;

/// What `hekate_math::Block16::to_hardware` returns.
pub uninterp spec fn flat16(tower: u16) -> u16;

/// What `hekate_math::Block16::from_hardware` returns.
pub uninterp spec fn tower16(flat: u16) -> u16;

/// What `hekate_math::Block32::to_hardware` returns.
pub uninterp spec fn flat32(tower: u32) -> u32;

/// What `hekate_math::Block32::from_hardware` returns.
pub uninterp spec fn tower32(flat: u32) -> u32;

/// What `hekate_math::Block64::to_hardware` returns.
pub uninterp spec fn flat64(tower: u64) -> u64;

/// What `hekate_math::Block64::from_hardware` returns.
pub uninterp spec fn tower64(flat: u64) -> u64;

/// What `hekate_math::Block128::to_hardware` returns.
pub uninterp spec fn flat128(tower: u128) -> u128;

/// What `hekate_math::Block128::from_hardware` returns.
pub uninterp spec fn tower128(flat: u128) -> u128;

/// `hekate_math::Block8::to_hardware`: the flat bits of a tower element.
/// Converting back gives the element again; zero and one stay as they are.
#[verifier::external_body]
fn block8_to_hardware(tower: u8) -> (r: u8)
    ensures
        r == flat8(tower),
        tower8(r) == tower,
        r == 0 <==> tower == 0,
        r == 1 <==> tower == 1,
{
    hekate_math::Block8(tower).to_hardware().into_raw().0
}

/// `hekate_math::Block8::from_hardware`: the tower element with these flat
/// bits. Converting it back gives the bits again.
#[verifier::external_body]
fn block8_from_hardware(flat: u8) -> (r: u8)
    ensures
        r == tower8(flat),
        flat8(r) == flat,
        r == 0 <==> flat == 0,
        r == 1 <==> flat == 1,
{
    hekate_math::Flat::from_raw(hekate_math::Block8(flat)).to_tower().0
}

impl Block8 {
    /// The element in the flat basis.
    pub fn to_hardware(self) -> (r: Flat<Block8>)
        ensures
            r.0.0 == flat8(self.0),
            tower8(r.0.0) == self.0,
            r.0.0 == 0 <==> self.0 == 0,
            r.0.0 == 1 <==> self.0 == 1,
    {
        Flat(Block8(block8_to_hardware(self.0)))
    }
}

impl Flat<Block8> {
    /// The element back in the tower basis.
    pub fn to_tower(self) -> (r: Block8)
        ensures
            r.0 == tower8(self.0.0),
            flat8(r.0) == self.0.0,
            r.0 == 0 <==> self.0.0 == 0,
            r.0 == 1 <==> self.0.0 == 1,
    {
        Block8(block8_from_hardware(self.0.0))
    }
}

/// `hekate_math::Block16::to_hardware`: the flat bits of a tower element.
/// Converting back gives the element again; zero and one stay as they are.
#[verifier::external_body]
fn block16_to_hardware(tower: u16) -> (r: u16)
    ensures
        r == flat16(tower),
        tower16(r) == tower,
        r == 0 <==> tower == 0,
        r == 1 <==> tower == 1,
{
    hekate_math::Block16(tower).to_hardware().into_raw().0
}

/// `hekate_math::Block16::from_hardware`: the tower element with these flat
/// bits. Converting it back gives the bits again.
#[verifier::external_body]
fn block16_from_hardware(flat: u16) -> (r: u16)
    ensures
        r == tower16(flat),
        flat16(r) == flat,
        r == 0 <==> flat == 0,
        r == 1 <==> flat == 1,
{
    hekate_math::Flat::from_raw(hekate_math::Block16(flat)).to_tower().0
}

impl Block16 {
    /// The element in the flat basis.
    pub fn to_hardware(self) -> (r: Flat<Block16>)
        ensures
            r.0.0 == flat16(self.0),
            tower16(r.0.0) == self.0,
            r.0.0 == 0 <==> self.0 == 0,
            r.0.0 == 1 <==> self.0 == 1,
    {
        Flat(Block16(block16_to_hardware(self.0)))
    }
}

impl Flat<Block16> {
    /// The element back in the tower basis.
    pub fn to_tower(self) -> (r: Block16)
        ensures
            r.0 == tower16(self.0.0),
            flat16(r.0) == self.0.0,
            r.0 == 0 <==> self.0.0 == 0,
            r.0 == 1 <==> self.0.0 == 1,
    {
        Block16(block16_from_hardware(self.0.0))
    }
}

/// `hekate_math::Block32::to_hardware`: the flat bits of a tower element.
/// Converting back gives the element again; zero and one stay as they are.
#[verifier::external_body]
fn block32_to_hardware(tower: u32) -> (r: u32)
    ensures
        r == flat32(tower),
        tower32(r) == tower,
        r == 0 <==> tower == 0,
        r == 1 <==> tower == 1,
{
    hekate_math::Block32(tower).to_hardware().into_raw().0
}

/// `hekate_math::Block32::from_hardware`: the tower element with these flat
/// bits. Converting it back gives the bits again.
#[verifier::external_body]
fn block32_from_hardware(flat: u32) -> (r: u32)
    ensures
        r == tower32(flat),
        flat32(r) == flat,
        r == 0 <==> flat == 0,
        r == 1 <==> flat == 1,
{
    hekate_math::Flat::from_raw(hekate_math::Block32(flat)).to_tower().0
}

impl Block32 {
    /// The element in the flat basis.
    pub fn to_hardware(self) -> (r: Flat<Block32>)
        ensures
            r.0.0 == flat32(self.0),
            tower32(r.0.0) == self.0,
            r.0.0 == 0 <==> self.0 == 0,
            r.0.0 == 1 <==> self.0 == 1,
    {
        Flat(Block32(block32_to_hardware(self.0)))
    }
}

impl Flat<Block32> {
    /// The element back in the tower basis.
    pub fn to_tower(self) -> (r: Block32)
        ensures
            r.0 == tower32(self.0.0),
            flat32(r.0) == self.0.0,
            r.0 == 0 <==> self.0.0 == 0,
            r.0 == 1 <==> self.0.0 == 1,
    {
        Block32(block32_from_hardware(self.0.0))
    }
}

/// `hekate_math::Block64::to_hardware`: the flat bits of a tower element.
/// Converting back gives the element again; zero and one stay as they are.
#[verifier::external_body]
fn block64_to_hardware(tower: u64) -> (r: u64)
    ensures
        r == flat64(tower),
        tower64(r) == tower,
        r == 0 <==> tower == 0,
        r == 1 <==> tower == 1,
{
    hekate_math::Block64(tower).to_hardware().into_raw().0
}

/// `hekate_math::Block64::from_hardware`: the tower element with these flat
/// bits. Converting it back gives the bits again.
#[verifier::external_body]
fn block64_from_hardware(flat: u64) -> (r: u64)
    ensures
        r == tower64(flat),
        flat64(r) == flat,
        r == 0 <==> flat == 0,
        r == 1 <==> flat == 1,
{
    hekate_math::Flat::from_raw(hekate_math::Block64(flat)).to_tower().0
}

impl Block64 {
    /// The element in the flat basis.
    pub fn to_hardware(self) -> (r: Flat<Block64>)
        ensures
            r.0.0 == flat64(self.0),
            tower64(r.0.0) == self.0,
            r.0.0 == 0 <==> self.0 == 0,
            r.0.0 == 1 <==> self.0 == 1,
    {
        Flat(Block64(block64_to_hardware(self.0)))
    }
}

impl Flat<Block64> {
    /// The element back in the tower basis.
    pub fn to_tower(self) -> (r: Block64)
        ensures
            r.0 == tower64(self.0.0),
            flat64(r.0) == self.0.0,
            r.0 == 0 <==> self.0.0 == 0,
            r.0 == 1 <==> self.0.0 == 1,
    {
        Block64(block64_from_hardware(self.0.0))
    }
}

/// `hekate_math::Block128::to_hardware`: the flat bits of a tower element.
/// Converting back gives the element again; zero and one stay as they are.
#[verifier::external_body]
fn block128_to_hardware(tower: u128) -> (r: u128)
    ensures
        r == flat128(tower),
        tower128(r) == tower,
        r == 0 <==> tower == 0,
        r == 1 <==> tower == 1,
{
    hekate_math::Block128(tower).to_hardware().into_raw().0
}

/// `hekate_math::Block128::from_hardware`: the tower element with these flat
/// bits. Converting it back gives the bits again.
#[verifier::external_body]
fn block128_from_hardware(flat: u128) -> (r: u128)
    ensures
        r == tower128(flat),
        flat128(r) == flat,
        r == 0 <==> flat == 0,
        r == 1 <==> flat == 1,
{
    hekate_math::Flat::from_raw(hekate_math::Block128(flat)).to_tower().0
}

impl Block128 {
    /// The element in the flat basis.
    pub fn to_hardware(self) -> (r: Flat<Block128>)
        ensures
            r.0.0 == flat128(self.0),
            tower128(r.0.0) == self.0,
            r.0.0 == 0 <==> self.0 == 0,
            r.0.0 == 1 <==> self.0 == 1,
    {
        Flat(Block128(block128_to_hardware(self.0)))
    }
}

impl Flat<Block128> {
    /// The element back in the tower basis.
    pub fn to_tower(self) -> (r: Block128)
        ensures
            r.0 == tower128(self.0.0),
            flat128(r.0) == self.0.0,
            r.0 == 0 <==> self.0.0 == 0,
            r.0 == 1 <==> self.0.0 == 1,
    {
        Block128(block128_from_hardware(self.0.0))
    }
}

/// `hekate_math::Block128::promote_flat` from `Block8`: the same element of
/// the subfield, in the flat basis of GF(2^128). In the tower basis that
/// is the zero extension of its bits.
#[verifier::external_body]
fn promote_block8(flat: u8) -> (r: u128)
    ensures
        r == flat128(tower8(flat) as u128),
        tower128(r) == tower8(flat),
{
    let val = hekate_math::Flat::from_raw(hekate_math::Block8(flat));
    let promoted: hekate_math::Flat<hekate_math::Block128> = hekate_math::FlatPromote::promote_flat(val);
    promoted.into_raw().0
}

impl Flat<Block8> {
    /// The same element in GF(2^128).
    pub fn promote(self) -> (r: Flat<Block128>)
        ensures
            r.0.0 == flat128(tower8(self.0.0) as u128),
            r@ == tower8(self.0.0),
    {
        Flat(Block128(promote_block8(self.0.0)))
    }
}

/// `hekate_math::Block128::promote_flat` from `Block16`: the same element of
/// the subfield, in the flat basis of GF(2^128). In the tower basis that
/// is the zero extension of its bits.
#[verifier::external_body]
fn promote_block16(flat: u16) -> (r: u128)
    ensures
        r == flat128(tower16(flat) as u128),
        tower128(r) == tower16(flat),
{
    let val = hekate_math::Flat::from_raw(hekate_math::Block16(flat));
    let promoted: hekate_math::Flat<hekate_math::Block128> = hekate_math::FlatPromote::promote_flat(val);
    promoted.into_raw().0
}

impl Flat<Block16> {
    /// The same element in GF(2^128).
    pub fn promote(self) -> (r: Flat<Block128>)
        ensures
            r.0.0 == flat128(tower16(self.0.0) as u128),
            r@ == tower16(self.0.0),
    {
        Flat(Block128(promote_block16(self.0.0)))
    }
}

/// `hekate_math::Block128::promote_flat` from `Block32`: the same element of
/// the subfield, in the flat basis of GF(2^128). In the tower basis that
/// is the zero extension of its bits.
#[verifier::external_body]
fn promote_block32(flat: u32) -> (r: u128)
    ensures
        r == flat128(tower32(flat) as u128),
        tower128(r) == tower32(flat),
{
    let val = hekate_math::Flat::from_raw(hekate_math::Block32(flat));
    let promoted: hekate_math::Flat<hekate_math::Block128> = hekate_math::FlatPromote::promote_flat(val);
    promoted.into_raw().0
}

impl Flat<Block32> {
    /// The same element in GF(2^128).
    pub fn promote(self) -> (r: Flat<Block128>)
        ensures
            r.0.0 == flat128(tower32(self.0.0) as u128),
            r@ == tower32(self.0.0),
    {
        Flat(Block128(promote_block32(self.0.0)))
    }
}

/// `hekate_math::Block128::promote_flat` from `Block64`: the same element of
/// the subfield, in the flat basis of GF(2^128). In the tower basis that
/// is the zero extension of its bits.
#[verifier::external_body]
fn promote_block64(flat: u64) -> (r: u128)
    ensures
        r == flat128(tower64(flat) as u128),
        tower128(r) == tower64(flat),
{
    let val = hekate_math::Flat::from_raw(hekate_math::Block64(flat));
    let promoted: hekate_math::Flat<hekate_math::Block128> = hekate_math::FlatPromote::promote_flat(val);
    promoted.into_raw().0
}

impl Flat<Block64> {
    /// The same element in GF(2^128).
    pub fn promote(self) -> (r: Flat<Block128>)
        ensures
            r.0.0 == flat128(tower64(self.0.0) as u128),
            r@ == tower64(self.0.0),
    {
        Flat(Block128(promote_block64(self.0.0)))
    }
}

// ---------------------------------------------------------------
// GF(2^8) arithmetic
// ---------------------------------------------------------------

/// `hekate_math::Block8` multiplication: the product in GF(2^8).
#[verifier::external_body]
fn block8_mul(a: u8, b: u8) -> (r: u8)
    ensures
        r == gf::gf8_mul(a, b),
{
    (hekate_math::Block8(a) * hekate_math::Block8(b)).0
}

impl Block8 {
    pub fn times(self, other: Block8) -> (r: Block8)
        ensures
            r.0 == gf::gf8_mul(self.0, other.0),
    {
        Block8(block8_mul(self.0, other.0))
    }
}

// ---------------------------------------------------------------
// GF(2^128) arithmetic
// ---------------------------------------------------------------

/// `hekate_math::Block128` multiplication: the product in GF(2^128).
#[verifier::external_body]
fn block128_mul(a: u128, b: u128) -> (r: u128)
    ensures
        r == gf::gf128_mul(a, b),
{
    (hekate_math::Block128(a) * hekate_math::Block128(b)).0
}

/// `hekate_math::Block128::invert`: the inverse of a nonzero element,
/// zero of zero.
#[verifier::external_body]
fn block128_invert(a: u128) -> (r: u128)
    ensures
        a == 0 ==> r == 0,
        a != 0 ==> gf::gf128_mul(a, r) == 1 && gf::gf128_mul(r, a) == 1,
{
    hekate_math::TowerField::invert(&hekate_math::Block128(a)).0
}

/// `hekate_math::Block128` multiplication in the flat basis: the product of
/// the two elements, in the flat basis.
#[verifier::external_body]
fn flat128_mul(a: u128, b: u128) -> (r: u128)
    ensures
        r == flat128(gf::gf128_mul(tower128(a), tower128(b))),
        tower128(r) == gf::gf128_mul(tower128(a), tower128(b)),
{
    let x = hekate_math::Flat::from_raw(hekate_math::Block128(a));
    let y = hekate_math::Flat::from_raw(hekate_math::Block128(b));
    (x * y).into_raw().0
}

/// `hekate_math::Block128` addition in the flat basis: the XOR of the bits,
/// which is the XOR in the tower basis too, the change of basis being linear.
#[verifier::external_body]
fn flat128_add(a: u128, b: u128) -> (r: u128)
    ensures
        r == a ^ b,
        r == flat128(tower128(a) ^ tower128(b)),
        tower128(r) == tower128(a) ^ tower128(b),
{
    let x = hekate_math::Flat::from_raw(hekate_math::Block128(a));
    let y = hekate_math::Flat::from_raw(hekate_math::Block128(b));
    (x + y).into_raw().0
}

/// A flat element of GF(2^128) stands for its tower element.
impl View for Flat<Block128> {
    type V = u128;

    open spec fn view(&self) -> u128 {
        tower128(self.0.0)
    }
}

impl Block128 {
    pub fn plus(self, other: Block128) -> (r: Block128)
        ensures
            r.0 == self.0 ^ other.0,
    {
        Block128(self.0 ^ other.0)
    }

    pub fn times(self, other: Block128) -> (r: Block128)
        ensures
            r.0 == gf::gf128_mul(self.0, other.0),
    {
        Block128(block128_mul(self.0, other.0))
    }

    /// The inverse, zero for zero.
    pub fn invert(self) -> (r: Block128)
        ensures
            self.0 == 0 ==> r.0 == 0,
            self.0 != 0 ==> gf::gf128_mul(self.0, r.0) == 1 && gf::gf128_mul(r.0, self.0) == 1,
    {
        Block128(block128_invert(self.0))
    }
}

impl Flat<Block128> {
    pub fn zero() -> (r: Flat<Block128>)
        ensures
            r@ == 0,
            r.0.0 == 0,
    {
        Block128(0).to_hardware()
    }

    pub fn one() -> (r: Flat<Block128>)
        ensures
            r@ == 1,
            r.0.0 == 1,
    {
        Block128(1).to_hardware()
    }

    pub fn plus(self, other: Flat<Block128>) -> (r: Flat<Block128>)
        ensures
            r@ == self@ ^ other@,
            r.0.0 == self.0.0 ^ other.0.0,
            r.0.0 == flat128(r@),
    {
        Flat(Block128(flat128_add(self.0.0, other.0.0)))
    }

    pub fn times(self, other: Flat<Block128>) -> (r: Flat<Block128>)
        ensures
            r@ == gf::gf128_mul(self@, other@),
            r.0.0 == flat128(r@),
    {
        Flat(Block128(flat128_mul(self.0.0, other.0.0)))
    }
}

// ---------------------------------------------------------------
// Bits of the tower representation
// ---------------------------------------------------------------

impl Flat<Block8> {
    /// Bit `bit_idx` of the element in the tower basis.
    pub fn tower_bit(self, bit_idx: usize) -> (r: u8)
        requires
            bit_idx < 8,
        ensures
            r == bits::bit(tower8(self.0.0) as nat, bit_idx as nat),
            r <= 1,
    {
        let tower: u64 = self.to_tower().0 as u64;
        proof {
            bits::lemma_bit_u64(tower, bit_idx as nat);
        }
        ((tower >> (bit_idx as u64)) & 1) as u8
    }
}

impl Flat<Block16> {
    /// Bit `bit_idx` of the element in the tower basis.
    pub fn tower_bit(self, bit_idx: usize) -> (r: u8)
        requires
            bit_idx < 16,
        ensures
            r == bits::bit(tower16(self.0.0) as nat, bit_idx as nat),
            r <= 1,
    {
        let tower: u64 = self.to_tower().0 as u64;
        proof {
            bits::lemma_bit_u64(tower, bit_idx as nat);
        }
        ((tower >> (bit_idx as u64)) & 1) as u8
    }
}

impl Flat<Block32> {
    /// Bit `bit_idx` of the element in the tower basis.
    pub fn tower_bit(self, bit_idx: usize) -> (r: u8)
        requires
            bit_idx < 32,
        ensures
            r == bits::bit(tower32(self.0.0) as nat, bit_idx as nat),
            r <= 1,
    {
        let tower: u64 = self.to_tower().0 as u64;
        proof {
            bits::lemma_bit_u64(tower, bit_idx as nat);
        }
        ((tower >> (bit_idx as u64)) & 1) as u8
    }
}

impl Flat<Block64> {
    /// Bit `bit_idx` of the element in the tower basis.
    pub fn tower_bit(self, bit_idx: usize) -> (r: u8)
        requires
            bit_idx < 64,
        ensures
            r == bits::bit(tower64(self.0.0) as nat, bit_idx as nat),
            r <= 1,
    {
        let tower: u64 = self.to_tower().0 as u64;
        proof {
            bits::lemma_bit_u64(tower, bit_idx as nat);
        }
        ((tower >> (bit_idx as u64)) & 1) as u8
    }
}

} // verus!
