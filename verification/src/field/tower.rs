//! Field elements as byte strings.

use vstd::prelude::*;

use super::elements::{Bit, Block128, Block16, Block32, Block64, Block8};
use crate::bytes;

verus! {

/// An element of a binary tower field, stored in a fixed number of bytes, the
/// lowest first.
pub trait TowerField: Sized + Copy {
    /// Bytes of an element.
    spec fn width() -> nat;

    /// The stored bits, as a number.
    spec fn raw(self) -> nat;

    /// The stored bits fit the bytes, and elements with the same bits are the
    /// same.
    proof fn raw_fits(self, other: Self)
        ensures
            self.raw() < bytes::byte_pow(Self::width()),
            self.raw() == other.raw() ==> self == other,
    ;

    /// Bytes of an element.
    fn size() -> (r: usize)
        ensures
            r == Self::width(),
    ;

    /// The bytes of the element.
    fn to_bytes(&self) -> (r: Vec<u8>)
        ensures
            r@ == bytes::le_bytes(self.raw(), Self::width()),
    ;

    /// The element with the given bytes.
    fn from_le_bytes(b: &[u8]) -> (r: Self)
        requires
            b@.len() == Self::width(),
        ensures
            r.raw() == bytes::le_value(b@),
    ;
}

impl TowerField for Bit {
    open spec fn width() -> nat {
        1
    }

    open spec fn raw(self) -> nat {
        self.0 as nat
    }

    proof fn raw_fits(self, other: Self) {
        bytes::lemma_byte_pow_values();
    }

    fn size() -> usize {
        1
    }

    fn to_bytes(&self) -> Vec<u8> {
        bytes::to_le(self.0 as u128, 1)
    }

    fn from_le_bytes(b: &[u8]) -> Self {
        proof {
            bytes::lemma_le_value_bound(b@);
            bytes::lemma_byte_pow_values();
        }
        Bit(bytes::read_le(b) as u8)
    }
}

impl TowerField for Block8 {
    open spec fn width() -> nat {
        1
    }

    open spec fn raw(self) -> nat {
        self.0 as nat
    }

    proof fn raw_fits(self, other: Self) {
        bytes::lemma_byte_pow_values();
    }

    fn size() -> usize {
        1
    }

    fn to_bytes(&self) -> Vec<u8> {
        bytes::to_le(self.0 as u128, 1)
    }

    fn from_le_bytes(b: &[u8]) -> Self {
        proof {
            bytes::lemma_le_value_bound(b@);
            bytes::lemma_byte_pow_values();
        }
        Block8(bytes::read_le(b) as u8)
    }
}

impl TowerField for Block16 {
    open spec fn width() -> nat {
        2
    }

    open spec fn raw(self) -> nat {
        self.0 as nat
    }

    proof fn raw_fits(self, other: Self) {
        bytes::lemma_byte_pow_values();
    }

    fn size() -> usize {
        2
    }

    fn to_bytes(&self) -> Vec<u8> {
        bytes::to_le(self.0 as u128, 2)
    }

    fn from_le_bytes(b: &[u8]) -> Self {
        proof {
            bytes::lemma_le_value_bound(b@);
            bytes::lemma_byte_pow_values();
        }
        Block16(bytes::read_le(b) as u16)
    }
}

impl TowerField for Block32 {
    open spec fn width() -> nat {
        4
    }

    open spec fn raw(self) -> nat {
        self.0 as nat
    }

    proof fn raw_fits(self, other: Self) {
        bytes::lemma_byte_pow_values();
    }

    fn size() -> usize {
        4
    }

    fn to_bytes(&self) -> Vec<u8> {
        bytes::to_le(self.0 as u128, 4)
    }

    fn from_le_bytes(b: &[u8]) -> Self {
        proof {
            bytes::lemma_le_value_bound(b@);
            bytes::lemma_byte_pow_values();
        }
        Block32(bytes::read_le(b) as u32)
    }
}

impl TowerField for Block64 {
    open spec fn width() -> nat {
        8
    }

    open spec fn raw(self) -> nat {
        self.0 as nat
    }

    proof fn raw_fits(self, other: Self) {
        bytes::lemma_byte_pow_values();
    }

    fn size() -> usize {
        8
    }

    fn to_bytes(&self) -> Vec<u8> {
        bytes::to_le(self.0 as u128, 8)
    }

    fn from_le_bytes(b: &[u8]) -> Self {
        proof {
            bytes::lemma_le_value_bound(b@);
            bytes::lemma_byte_pow_values();
        }
        Block64(bytes::read_le(b) as u64)
    }
}

impl TowerField for Block128 {
    open spec fn width() -> nat {
        16
    }

    open spec fn raw(self) -> nat {
        self.0 as nat
    }

    proof fn raw_fits(self, other: Self) {
        bytes::lemma_byte_pow_values();
    }

    fn size() -> usize {
        16
    }

    fn to_bytes(&self) -> Vec<u8> {
        bytes::to_le(self.0, 16)
    }

    fn from_le_bytes(b: &[u8]) -> Self {
        proof {
            bytes::lemma_le_value_bound(b@);
            bytes::lemma_byte_pow_values();
        }
        Block128(bytes::read_le(b))
    }
}

} // verus!
