//! What the views show, in terms of the columns they are views of.

use vstd::arithmetic::div_mod::*;
use vstd::arithmetic::power2::*;
use vstd::prelude::*;

use super::variant;
use super::variant::PolyVariant;
use crate::field::{Bit, Block128, Block16, Block32, Block64, Block8, Flat};

verus! {

/// The row that comes `k` rows after row `i` of `len`, around the end.
pub open spec fn rows_on(i: int, k: int, len: nat) -> int {
    (i + k) % len as int
}

/// A shifted column shows at every row what the column shows one row on; in
/// the last row, what it shows in the first.
pub proof fn law_shifts_look_ahead<'a>(
    dense: &'a [Flat<Block128>],
    bits: &'a [Bit],
    b8: &'a [Flat<Block8>],
    b16: &'a [Flat<Block16>],
    b32: &'a [Flat<Block32>],
    b64: &'a [Flat<Block64>],
    i: int,
    k: usize,
)
    requires
        0 <= i,
    ensures
        i < dense@.len() ==> {
            let on = rows_on(i, 1, dense@.len());
            &&& PolyVariant::Shifted(dense).at(i) == PolyVariant::Dense(dense).at(on)
            &&& PolyVariant::ShiftedB128Slice(dense).at(i) == PolyVariant::B128Slice(dense).at(on)
        },
        i < bits@.len() ==> PolyVariant::ShiftedBitSlice(bits).at(i) == PolyVariant::BitSlice(
            bits,
        ).at(rows_on(i, 1, bits@.len())),
        i < b8@.len() ==> {
            let on = rows_on(i, 1, b8@.len());
            &&& PolyVariant::ShiftedB8Slice(b8).at(i) == PolyVariant::B8Slice(b8).at(on)
            &&& (PolyVariant::ShiftedPackedBitB8 { data: b8, bit_idx: k }).at(i) == (
            PolyVariant::PackedBitB8 { data: b8, bit_idx: k }).at(on)
        },
        i < b16@.len() ==> {
            let on = rows_on(i, 1, b16@.len());
            &&& PolyVariant::ShiftedB16Slice(b16).at(i) == PolyVariant::B16Slice(b16).at(on)
            &&& (PolyVariant::ShiftedPackedBitB16 { data: b16, bit_idx: k }).at(i) == (
            PolyVariant::PackedBitB16 { data: b16, bit_idx: k }).at(on)
        },
        i < b32@.len() ==> {
            let on = rows_on(i, 1, b32@.len());
            &&& PolyVariant::ShiftedB32Slice(b32).at(i) == PolyVariant::B32Slice(b32).at(on)
            &&& (PolyVariant::ShiftedPackedBitB32 { data: b32, bit_idx: k }).at(i) == (
            PolyVariant::PackedBitB32 { data: b32, bit_idx: k }).at(on)
        },
        i < b64@.len() ==> {
            let on = rows_on(i, 1, b64@.len());
            &&& PolyVariant::ShiftedB64Slice(b64).at(i) == PolyVariant::B64Slice(b64).at(on)
            &&& (PolyVariant::ShiftedPackedBitB64 { data: b64, bit_idx: k }).at(i) == (
            PolyVariant::PackedBitB64 { data: b64, bit_idx: k }).at(on)
        },
{
    lemma_one_on(i, dense@.len());
    lemma_one_on(i, bits@.len());
    lemma_one_on(i, b8@.len());
    lemma_one_on(i, b16@.len());
    lemma_one_on(i, b32@.len());
    lemma_one_on(i, b64@.len());
}

proof fn lemma_one_on(i: int, len: nat)
    ensures
        0 <= i < len ==> variant::next_row(i, len) == rows_on(i, 1, len),
{
    if 0 <= i < len {
        if i + 1 == len {
            lemma_mod_self_0(len as int);
        } else {
            lemma_small_mod((i + 1) as nat, len);
        }
    }
}

/// A rotated column shows what the column shows so many rows on, around the
/// end.
pub proof fn law_rotations_look_ahead<'a>(
    bits: &'a [Bit],
    b8: &'a [Flat<Block8>],
    b16: &'a [Flat<Block16>],
    b32: &'a [Flat<Block32>],
    b64: &'a [Flat<Block64>],
    b128: &'a [Flat<Block128>],
    i: int,
    rotation: usize,
)
    ensures
        (PolyVariant::RotationBit { data: bits, rotation }).at(i) == PolyVariant::BitSlice(bits).at(
            rows_on(i, rotation as int, bits@.len()),
        ),
        (PolyVariant::RotationB8 { data: b8, rotation }).at(i) == PolyVariant::B8Slice(b8).at(
            rows_on(i, rotation as int, b8@.len()),
        ),
        (PolyVariant::RotationB16 { data: b16, rotation }).at(i) == PolyVariant::B16Slice(b16).at(
            rows_on(i, rotation as int, b16@.len()),
        ),
        (PolyVariant::RotationB32 { data: b32, rotation }).at(i) == PolyVariant::B32Slice(b32).at(
            rows_on(i, rotation as int, b32@.len()),
        ),
        (PolyVariant::RotationB64 { data: b64, rotation }).at(i) == PolyVariant::B64Slice(b64).at(
            rows_on(i, rotation as int, b64@.len()),
        ),
        (PolyVariant::RotationB128 { data: b128, rotation }).at(i) == PolyVariant::B128Slice(
            b128,
        ).at(rows_on(i, rotation as int, b128@.len())),
{
}

/// A strided column shows row `start + i · step` of the column, and one by
/// indices the row that the index names.
pub proof fn law_strides_and_indices<'a>(
    bits: &'a [Bit],
    b8: &'a [Flat<Block8>],
    b16: &'a [Flat<Block16>],
    b32: &'a [Flat<Block32>],
    b64: &'a [Flat<Block64>],
    b128: &'a [Flat<Block128>],
    indices: &'a [usize],
    i: int,
    start: usize,
    step: usize,
    len: usize,
)
    ensures
        ({
            let p = start + i * step;
            &&& (PolyVariant::StrideBit { data: bits, start, step, len }).at(i)
                == PolyVariant::BitSlice(bits).at(p)
            &&& (PolyVariant::StrideB8 { data: b8, start, step, len }).at(i)
                == PolyVariant::B8Slice(b8).at(p)
            &&& (PolyVariant::StrideB16 { data: b16, start, step, len }).at(i)
                == PolyVariant::B16Slice(b16).at(p)
            &&& (PolyVariant::StrideB32 { data: b32, start, step, len }).at(i)
                == PolyVariant::B32Slice(b32).at(p)
            &&& (PolyVariant::StrideB64 { data: b64, start, step, len }).at(i)
                == PolyVariant::B64Slice(b64).at(p)
            &&& (PolyVariant::StrideB128 { data: b128, start, step, len }).at(i)
                == PolyVariant::B128Slice(b128).at(p)
        }),
        ({
            let p = indices@[i] as int;
            &&& (PolyVariant::IndirectBit { data: bits, indices }).at(i) == PolyVariant::BitSlice(
                bits,
            ).at(p)
            &&& (PolyVariant::IndirectB8 { data: b8, indices }).at(i) == PolyVariant::B8Slice(
                b8,
            ).at(p)
            &&& (PolyVariant::IndirectB16 { data: b16, indices }).at(i) == PolyVariant::B16Slice(
                b16,
            ).at(p)
            &&& (PolyVariant::IndirectB32 { data: b32, indices }).at(i) == PolyVariant::B32Slice(
                b32,
            ).at(p)
            &&& (PolyVariant::IndirectB64 { data: b64, indices }).at(i) == PolyVariant::B64Slice(
                b64,
            ).at(p)
            &&& (PolyVariant::IndirectB128 { data: b128, indices }).at(i)
                == PolyVariant::B128Slice(b128).at(p)
        }),
{
}

/// A bit of a column is the binary digit of that weight of what the column
/// shows.
pub proof fn law_bits_are_digits<'a>(
    b8: &'a [Flat<Block8>],
    b16: &'a [Flat<Block16>],
    b32: &'a [Flat<Block32>],
    b64: &'a [Flat<Block64>],
    i: int,
    k: usize,
)
    ensures
        (PolyVariant::PackedBitB8 { data: b8, bit_idx: k }).at(i) as nat == (PolyVariant::B8Slice(
            b8,
        ).at(i) as nat / pow2(k as nat)) % 2,
        (PolyVariant::PackedBitB16 { data: b16, bit_idx: k }).at(i) as nat == (
        PolyVariant::B16Slice(b16).at(i) as nat / pow2(k as nat)) % 2,
        (PolyVariant::PackedBitB32 { data: b32, bit_idx: k }).at(i) as nat == (
        PolyVariant::B32Slice(b32).at(i) as nat / pow2(k as nat)) % 2,
        (PolyVariant::PackedBitB64 { data: b64, bit_idx: k }).at(i) as nat == (
        PolyVariant::B64Slice(b64).at(i) as nat / pow2(k as nat)) % 2,
{
}

/// How many of the columns hold one in a row.
pub open spec fn ones_in(cols: Seq<&[Bit]>, i: int) -> nat {
    cols.filter(|c: &[Bit]| c@[i].0 == 1).len()
}

/// A composite selector is one where an odd number of its columns hold one,
/// zero elsewhere.
pub proof fn law_selectors_add_up(cols: Seq<&[Bit]>, i: int)
    ensures
        variant::selector_sum(cols, i) as nat == ones_in(cols, i) % 2,
    decreases cols.len(),
{
    reveal(Seq::filter);
    if cols.len() > 0 {
        law_selectors_add_up(cols.drop_last(), i);
        let s = variant::selector_sum(cols.drop_last(), i);
        crate::atoms::int_laws::lemma_xor(s, 1);
    }
}

/// A transition mask is one in every row but the last; there it is one plus
/// the product of the challenges.
pub proof fn law_mask_marks_the_last_row(num_vars: usize, product: Block128, i: int)
    requires
        0 <= i < pow2(num_vars as nat),
    ensures
        ({
            let mask = PolyVariant::TransitionMask { num_vars, product_of_challenges: product };
            &&& mask.size() == pow2(num_vars as nat)
            &&& i < mask.size() - 1 ==> mask.at(i) == 1
            &&& i == mask.size() - 1 ==> mask.at(i) == Flat(product)@ ^ 1
        }),
{
}

} // verus!
