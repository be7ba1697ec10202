//! Overwriting secrets.

use vstd::prelude::*;
use zeroize::Zeroize;

use crate::field::{Bit, Block128, Block16, Block32, Block64, Block8, Flat};

verus! {

/// `Zeroize::zeroize` of `zeroize` on a `u8`: writes zero, in a way that the
/// compiler does not drop.
#[verifier::external_body]
fn zero_u8(x: &mut u8)
    ensures
        *final(x) == 0,
{
    x.zeroize();
}

/// `Zeroize::zeroize` of `zeroize` on a `u16`: writes zero, in a way that the
/// compiler does not drop.
#[verifier::external_body]
fn zero_u16(x: &mut u16)
    ensures
        *final(x) == 0,
{
    x.zeroize();
}

/// `Zeroize::zeroize` of `zeroize` on a `u32`: writes zero, in a way that the
/// compiler does not drop.
#[verifier::external_body]
fn zero_u32(x: &mut u32)
    ensures
        *final(x) == 0,
{
    x.zeroize();
}

/// `Zeroize::zeroize` of `zeroize` on a `u64`: writes zero, in a way that the
/// compiler does not drop.
#[verifier::external_body]
fn zero_u64(x: &mut u64)
    ensures
        *final(x) == 0,
{
    x.zeroize();
}

/// `Zeroize::zeroize` of `zeroize` on a `u128`: writes zero, in a way that the
/// compiler does not drop.
#[verifier::external_body]
fn zero_u128(x: &mut u128)
    ensures
        *final(x) == 0,
{
    x.zeroize();
}

/// `Zeroize::zeroize` of `zeroize` on a `usize`: writes zero, in a way that the
/// compiler does not drop.
#[verifier::external_body]
pub(crate) fn zero_usize(x: &mut usize)
    ensures
        *final(x) == 0,
{
    x.zeroize();
}

/// `Zeroize::zeroize` of `zeroize` on the room of a list that holds no item:
/// fills it with zero bytes, in a way that the compiler does not drop. The
/// items stay as they are. That the room is filled is not claimed: it is no
/// part of the list's value.
#[verifier::external_body]
pub(crate) fn zero_spare<T>(v: &mut Vec<T>)
    ensures
        final(v)@ == old(v)@,
{
    v.spare_capacity_mut().zeroize();
}

/// Overwrites an element of GF(2^128) with zero.
pub fn wipe_element(x: &mut Flat<Block128>)
    ensures
        final(x).0.0 == 0,
{
    zero_u128(&mut x.0.0);
}

/// Overwrites bits with zero.
fn zero_bits(v: &mut Vec<Bit>)
    ensures
        final(v)@.len() == old(v)@.len(),
        forall|i: int| 0 <= i < final(v)@.len() ==> (#[trigger] final(v)@[i]).0 == 0,
{
    let mut i: usize = 0;
    while i < v.len()
        invariant
            i <= v@.len(),
            v@.len() == old(v)@.len(),
            forall|k: int| 0 <= k < i ==> (#[trigger] v@[k]).0 == 0,
        decreases v@.len() - i,
    {
        zero_u8(&mut v[i].0);
        i = i + 1;
    }
}

/// Overwrites elements of GF(2^8) with zero.
fn zero8(v: &mut Vec<Flat<Block8>>)
    ensures
        final(v)@.len() == old(v)@.len(),
        forall|i: int| 0 <= i < final(v)@.len() ==> (#[trigger] final(v)@[i]).0.0 == 0,
{
    let mut i: usize = 0;
    while i < v.len()
        invariant
            i <= v@.len(),
            v@.len() == old(v)@.len(),
            forall|k: int| 0 <= k < i ==> (#[trigger] v@[k]).0.0 == 0,
        decreases v@.len() - i,
    {
        zero_u8(&mut v[i].0.0);
        i = i + 1;
    }
}

/// Overwrites elements of GF(2^16) with zero.
fn zero16(v: &mut Vec<Flat<Block16>>)
    ensures
        final(v)@.len() == old(v)@.len(),
        forall|i: int| 0 <= i < final(v)@.len() ==> (#[trigger] final(v)@[i]).0.0 == 0,
{
    let mut i: usize = 0;
    while i < v.len()
        invariant
            i <= v@.len(),
            v@.len() == old(v)@.len(),
            forall|k: int| 0 <= k < i ==> (#[trigger] v@[k]).0.0 == 0,
        decreases v@.len() - i,
    {
        zero_u16(&mut v[i].0.0);
        i = i + 1;
    }
}

/// Overwrites elements of GF(2^32) with zero.
fn zero32(v: &mut Vec<Flat<Block32>>)
    ensures
        final(v)@.len() == old(v)@.len(),
        forall|i: int| 0 <= i < final(v)@.len() ==> (#[trigger] final(v)@[i]).0.0 == 0,
{
    let mut i: usize = 0;
    while i < v.len()
        invariant
            i <= v@.len(),
            v@.len() == old(v)@.len(),
            forall|k: int| 0 <= k < i ==> (#[trigger] v@[k]).0.0 == 0,
        decreases v@.len() - i,
    {
        zero_u32(&mut v[i].0.0);
        i = i + 1;
    }
}

/// Overwrites elements of GF(2^64) with zero.
fn zero64(v: &mut Vec<Flat<Block64>>)
    ensures
        final(v)@.len() == old(v)@.len(),
        forall|i: int| 0 <= i < final(v)@.len() ==> (#[trigger] final(v)@[i]).0.0 == 0,
{
    let mut i: usize = 0;
    while i < v.len()
        invariant
            i <= v@.len(),
            v@.len() == old(v)@.len(),
            forall|k: int| 0 <= k < i ==> (#[trigger] v@[k]).0.0 == 0,
        decreases v@.len() - i,
    {
        zero_u64(&mut v[i].0.0);
        i = i + 1;
    }
}

/// Overwrites elements of GF(2^128) with zero.
fn zero128(v: &mut Vec<Flat<Block128>>)
    ensures
        final(v)@.len() == old(v)@.len(),
        forall|i: int| 0 <= i < final(v)@.len() ==> (#[trigger] final(v)@[i]).0.0 == 0,
{
    let mut i: usize = 0;
    while i < v.len()
        invariant
            i <= v@.len(),
            v@.len() == old(v)@.len(),
            forall|k: int| 0 <= k < i ==> (#[trigger] v@[k]).0.0 == 0,
        decreases v@.len() - i,
    {
        zero_u128(&mut v[i].0.0);
        i = i + 1;
    }
}

/// Overwrites bits and the room behind them with zero, and drops them.
pub fn wipe_bits(v: &mut Vec<Bit>)
    ensures
        final(v)@.len() == 0,
{
    zero_spare(v);
    zero_bits(v);
    v.clear();
}

/// Overwrites elements of GF(2^8) and the room behind them with zero, and drops
/// them.
pub fn wipe8(v: &mut Vec<Flat<Block8>>)
    ensures
        final(v)@.len() == 0,
{
    zero_spare(v);
    zero8(v);
    v.clear();
}

/// Overwrites elements of GF(2^16) and the room behind them with zero, and drops
/// them.
pub fn wipe16(v: &mut Vec<Flat<Block16>>)
    ensures
        final(v)@.len() == 0,
{
    zero_spare(v);
    zero16(v);
    v.clear();
}

/// Overwrites elements of GF(2^32) and the room behind them with zero, and drops
/// them.
pub fn wipe32(v: &mut Vec<Flat<Block32>>)
    ensures
        final(v)@.len() == 0,
{
    zero_spare(v);
    zero32(v);
    v.clear();
}

/// Overwrites elements of GF(2^64) and the room behind them with zero, and drops
/// them.
pub fn wipe64(v: &mut Vec<Flat<Block64>>)
    ensures
        final(v)@.len() == 0,
{
    zero_spare(v);
    zero64(v);
    v.clear();
}

/// Overwrites elements of GF(2^128) and the room behind them with zero, and drops
/// them.
pub fn wipe128(v: &mut Vec<Flat<Block128>>)
    ensures
        final(v)@.len() == 0,
{
    zero_spare(v);
    zero128(v);
    v.clear();
}

} // verus!
