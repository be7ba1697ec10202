//! Multilinear polynomials as views of stored columns.

use vstd::arithmetic::power2::*;
use vstd::prelude::*;

use crate::bits;
use crate::errors;
use crate::field::gf;
use crate::field::{Bit, Block128, Block16, Block32, Block64, Block8, Flat};
use crate::tensor;
use crate::tensor::TensorProduct;
use crate::trace::Cell;

verus! {

/// What makes a polynomial operation fail.
#[derive(Clone, Copy, Debug)]
pub enum Error {
    /// `2^num_vars` is out of machine range.
    DomainTooLarge { num_vars: usize },
    /// The polynomial's length is not `2^num_vars`.
    DomainSizeMismatch { expected_len: usize, got_len: usize },
    /// The point has the wrong number of coordinates.
    PointDimensionMismatch { expected_len: usize, got_len: usize },
    /// The polynomial cannot be folded.
    UnsupportedFold { kind: &'static str },
}

/// A multilinear polynomial, given by its values on the corners of the cube:
/// a view of a stored column, which is read in place.
#[derive(Clone, Debug)]
#[allow(inconsistent_fields)]
pub enum PolyVariant<'a> {
    /// Every value is stored.
    Dense(&'a [Flat<Block128>]),
    /// The value of the next row, cyclically.
    Shifted(&'a [Flat<Block128>]),
    /// The equality polynomial.
    Eq(TensorProduct),
    /// One bit of a `B8` column.
    PackedBitB8 { data: &'a [Flat<Block8>], bit_idx: usize },    /// One bit of a `B16` column.
    PackedBitB16 { data: &'a [Flat<Block16>], bit_idx: usize },
    /// One bit of a `B32` column.
    PackedBitB32 { data: &'a [Flat<Block32>], bit_idx: usize },
    /// One bit of a `B64` column.
    PackedBitB64 { data: &'a [Flat<Block64>], bit_idx: usize },
    /// The sum of boolean columns.
    CompositeSelector(Vec<&'a [Bit]>),
    /// One everywhere but on the last row, where it is one less the product.
    TransitionMask { num_vars: usize, product_of_challenges: Block128 },
    /// `data[indices[i]]`.
    IndirectBit { data: &'a [Bit], indices: &'a [usize] },
    /// `data[indices[i]]`.
    IndirectB8 { data: &'a [Flat<Block8>], indices: &'a [usize] },
    /// `data[indices[i]]`.
    IndirectB16 { data: &'a [Flat<Block16>], indices: &'a [usize] },
    /// `data[indices[i]]`.
    IndirectB32 { data: &'a [Flat<Block32>], indices: &'a [usize] },
    /// `data[indices[i]]`.
    IndirectB64 { data: &'a [Flat<Block64>], indices: &'a [usize] },
    /// `data[indices[i]]`.
    IndirectB128 { data: &'a [Flat<Block128>], indices: &'a [usize] },
    /// `data[start + i·step]`.
    StrideBit { data: &'a [Bit], start: usize, step: usize, len: usize },
    /// `data[start + i·step]`.
    StrideB8 { data: &'a [Flat<Block8>], start: usize, step: usize, len: usize },
    /// `data[start + i·step]`.
    StrideB16 { data: &'a [Flat<Block16>], start: usize, step: usize, len: usize },
    /// `data[start + i·step]`.
    StrideB32 { data: &'a [Flat<Block32>], start: usize, step: usize, len: usize },
    /// `data[start + i·step]`.
    StrideB64 { data: &'a [Flat<Block64>], start: usize, step: usize, len: usize },
    /// `data[start + i·step]`.
    StrideB128 { data: &'a [Flat<Block128>], start: usize, step: usize, len: usize },
    /// `data[(i + rotation) mod len]`; the length is a power of two.
    RotationBit { data: &'a [Bit], rotation: usize },
    /// `data[(i + rotation) mod len]`; the length is a power of two.
    RotationB8 { data: &'a [Flat<Block8>], rotation: usize },
    /// `data[(i + rotation) mod len]`; the length is a power of two.
    RotationB16 { data: &'a [Flat<Block16>], rotation: usize },
    /// `data[(i + rotation) mod len]`; the length is a power of two.
    RotationB32 { data: &'a [Flat<Block32>], rotation: usize },
    /// `data[(i + rotation) mod len]`; the length is a power of two.
    RotationB64 { data: &'a [Flat<Block64>], rotation: usize },
    /// `data[(i + rotation) mod len]`; the length is a power of two.
    RotationB128 { data: &'a [Flat<Block128>], rotation: usize },
    /// A column of `Bit` cells.
    BitSlice(&'a [Bit]),
    /// A column of `B8` cells.
    B8Slice(&'a [Flat<Block8>]),
    /// A column of `B16` cells.
    B16Slice(&'a [Flat<Block16>]),
    /// A column of `B32` cells.
    B32Slice(&'a [Flat<Block32>]),
    /// A column of `B64` cells.
    B64Slice(&'a [Flat<Block64>]),
    /// A column of `B128` cells.
    B128Slice(&'a [Flat<Block128>]),
    /// The next row of a column of `Bit` cells, cyclically.
    ShiftedBitSlice(&'a [Bit]),
    /// The next row of a column of `B8` cells, cyclically.
    ShiftedB8Slice(&'a [Flat<Block8>]),
    /// The next row of a column of `B16` cells, cyclically.
    ShiftedB16Slice(&'a [Flat<Block16>]),
    /// The next row of a column of `B32` cells, cyclically.
    ShiftedB32Slice(&'a [Flat<Block32>]),
    /// The next row of a column of `B64` cells, cyclically.
    ShiftedB64Slice(&'a [Flat<Block64>]),
    /// The next row of a column of `B128` cells, cyclically.
    ShiftedB128Slice(&'a [Flat<Block128>]),
    /// One bit of the next row of a `B8` column, cyclically.
    ShiftedPackedBitB8 { data: &'a [Flat<Block8>], bit_idx: usize },
    /// One bit of the next row of a `B16` column, cyclically.
    ShiftedPackedBitB16 { data: &'a [Flat<Block16>], bit_idx: usize },
    /// One bit of the next row of a `B32` column, cyclically.
    ShiftedPackedBitB32 { data: &'a [Flat<Block32>], bit_idx: usize },
    /// One bit of the next row of a `B64` column, cyclically.
    ShiftedPackedBitB64 { data: &'a [Flat<Block64>], bit_idx: usize },
}

// ---------------------------------------------------------------
// Values
// ---------------------------------------------------------------

/// The element that a cell stores.
pub open spec fn cell_at<C: Cell>(data: Seq<C>, i: int) -> u128 {
    C::kind().element(data[i].raw())
}

/// One bit of the element that a cell stores.
pub open spec fn bit_at<C: Cell>(data: Seq<C>, i: int, bit_idx: usize) -> u128 {
    bits::bit(cell_at(data, i) as nat, bit_idx as nat) as u128
}

/// The row after row `i`, cyclically.
pub open spec fn next_row(i: int, len: nat) -> int {
    if i + 1 == len {
        0
    } else {
        i + 1
    }
}

/// The sum of boolean columns at a row: one where an odd number of them hold
/// one.
pub open spec fn selector_sum(cols: Seq<&[Bit]>, i: int) -> u128
    decreases cols.len(),
{
    if cols.len() == 0 {
        0
    } else if cols.last()@[i].0 == 1 {
        selector_sum(cols.drop_last(), i) ^ 1
    } else {
        selector_sum(cols.drop_last(), i)
    }
}

/// Row `(i + rotation) mod len`.
pub open spec fn rotated(i: int, rotation: usize, len: nat) -> int {
    (i + rotation) % len as int
}

/// A rotation can be read: the length is a power of two, and the sum of row
/// and rotation is within machine range.
pub open spec fn rotation_ok(i: int, rotation: usize, len: nat) -> bool {
    0 <= i < len && bits::is_power_of_two(len) && i + rotation <= usize::MAX
}

/// A stride can be read.
pub open spec fn stride_ok(i: int, start: usize, step: usize, count: usize, len: nat) -> bool {
    0 <= i < count && start + i * step < len
}

impl<'a> PolyVariant<'a> {
    /// Overwrites what is stored here with zero; views stay as they are.
    pub fn zeroize(&mut self)
        ensures
            match *old(self) {
                PolyVariant::Eq(_) => *final(self) matches PolyVariant::Eq(u)
                    && u.current_scale.0.0 == 0 && u.r_coords@.len() == 0,
                _ => *final(self) == *old(self),
            },
    {
        match self {
            PolyVariant::Eq(t) => t.zeroize(),
            _ => {},
        }
    }

    /// The number of corners.
    pub open spec fn size(self) -> nat {
        match self {
            PolyVariant::Dense(h) => h@.len(),
            PolyVariant::Shifted(h) => h@.len(),
            PolyVariant::Eq(t) => pow2(t.r_coords@.len()),
            PolyVariant::PackedBitB8 { data, .. } => data@.len(),
            PolyVariant::PackedBitB16 { data, .. } => data@.len(),
            PolyVariant::PackedBitB32 { data, .. } => data@.len(),
            PolyVariant::PackedBitB64 { data, .. } => data@.len(),
            PolyVariant::TransitionMask { num_vars, .. } => pow2(num_vars as nat),
            PolyVariant::CompositeSelector(cols) => if cols@.len() == 0 {
                0
            } else {
                cols@[0]@.len()
            },
            PolyVariant::IndirectBit { indices, .. } => indices@.len(),
            PolyVariant::IndirectB8 { indices, .. } => indices@.len(),
            PolyVariant::IndirectB16 { indices, .. } => indices@.len(),
            PolyVariant::IndirectB32 { indices, .. } => indices@.len(),
            PolyVariant::IndirectB64 { indices, .. } => indices@.len(),
            PolyVariant::IndirectB128 { indices, .. } => indices@.len(),
            PolyVariant::StrideBit { len, .. } => len as nat,
            PolyVariant::StrideB8 { len, .. } => len as nat,
            PolyVariant::StrideB16 { len, .. } => len as nat,
            PolyVariant::StrideB32 { len, .. } => len as nat,
            PolyVariant::StrideB64 { len, .. } => len as nat,
            PolyVariant::StrideB128 { len, .. } => len as nat,
            PolyVariant::RotationBit { data, .. } => data@.len(),
            PolyVariant::RotationB8 { data, .. } => data@.len(),
            PolyVariant::RotationB16 { data, .. } => data@.len(),
            PolyVariant::RotationB32 { data, .. } => data@.len(),
            PolyVariant::RotationB64 { data, .. } => data@.len(),
            PolyVariant::RotationB128 { data, .. } => data@.len(),
            PolyVariant::BitSlice(h) => h@.len(),
            PolyVariant::B8Slice(h) => h@.len(),
            PolyVariant::B16Slice(h) => h@.len(),
            PolyVariant::B32Slice(h) => h@.len(),
            PolyVariant::B64Slice(h) => h@.len(),
            PolyVariant::B128Slice(h) => h@.len(),
            PolyVariant::ShiftedBitSlice(h) => h@.len(),
            PolyVariant::ShiftedB8Slice(h) => h@.len(),
            PolyVariant::ShiftedB16Slice(h) => h@.len(),
            PolyVariant::ShiftedB32Slice(h) => h@.len(),
            PolyVariant::ShiftedB64Slice(h) => h@.len(),
            PolyVariant::ShiftedB128Slice(h) => h@.len(),
            PolyVariant::ShiftedPackedBitB8 { data, .. } => data@.len(),
            PolyVariant::ShiftedPackedBitB16 { data, .. } => data@.len(),
            PolyVariant::ShiftedPackedBitB32 { data, .. } => data@.len(),
            PolyVariant::ShiftedPackedBitB64 { data, .. } => data@.len(),
        }
    }

    /// Row `i` can be read.
    pub open spec fn readable(self, i: int) -> bool {
        match self {
            PolyVariant::Dense(h) => 0 <= i < h@.len(),
            PolyVariant::Shifted(h) => 0 <= i < h@.len(),
            PolyVariant::Eq(t) => 0 <= i <= usize::MAX && t.r_coords@.len() <= usize::BITS,
            PolyVariant::PackedBitB8 { data, bit_idx } => 0 <= i < data@.len() && bit_idx < 8,
            PolyVariant::PackedBitB16 { data, bit_idx } => 0 <= i < data@.len() && bit_idx < 16,
            PolyVariant::PackedBitB32 { data, bit_idx } => 0 <= i < data@.len() && bit_idx < 32,
            PolyVariant::PackedBitB64 { data, bit_idx } => 0 <= i < data@.len() && bit_idx < 64,
            PolyVariant::TransitionMask { num_vars, .. } => 0 <= i <= usize::MAX && num_vars
                < usize::BITS,
            PolyVariant::CompositeSelector(cols) => forall|k: int|
                0 <= k < cols@.len() ==> 0 <= i < (#[trigger] cols@[k])@.len(),
            PolyVariant::IndirectBit { data, indices } => 0 <= i < indices@.len() && indices@[i]
                < data@.len(),
            PolyVariant::IndirectB8 { data, indices } => 0 <= i < indices@.len() && indices@[i]
                < data@.len(),
            PolyVariant::IndirectB16 { data, indices } => 0 <= i < indices@.len() && indices@[i]
                < data@.len(),
            PolyVariant::IndirectB32 { data, indices } => 0 <= i < indices@.len() && indices@[i]
                < data@.len(),
            PolyVariant::IndirectB64 { data, indices } => 0 <= i < indices@.len() && indices@[i]
                < data@.len(),
            PolyVariant::IndirectB128 { data, indices } => 0 <= i < indices@.len() && indices@[i]
                < data@.len(),
            PolyVariant::StrideBit { data, start, step, len } => stride_ok(
                i,
                start,
                step,
                len,
                data@.len(),
            ),
            PolyVariant::StrideB8 { data, start, step, len } => stride_ok(
                i,
                start,
                step,
                len,
                data@.len(),
            ),
            PolyVariant::StrideB16 { data, start, step, len } => stride_ok(
                i,
                start,
                step,
                len,
                data@.len(),
            ),
            PolyVariant::StrideB32 { data, start, step, len } => stride_ok(
                i,
                start,
                step,
                len,
                data@.len(),
            ),
            PolyVariant::StrideB64 { data, start, step, len } => stride_ok(
                i,
                start,
                step,
                len,
                data@.len(),
            ),
            PolyVariant::StrideB128 { data, start, step, len } => stride_ok(
                i,
                start,
                step,
                len,
                data@.len(),
            ),
            PolyVariant::RotationBit { data, rotation } => rotation_ok(i, rotation, data@.len()),
            PolyVariant::RotationB8 { data, rotation } => rotation_ok(i, rotation, data@.len()),
            PolyVariant::RotationB16 { data, rotation } => rotation_ok(i, rotation, data@.len()),
            PolyVariant::RotationB32 { data, rotation } => rotation_ok(i, rotation, data@.len()),
            PolyVariant::RotationB64 { data, rotation } => rotation_ok(i, rotation, data@.len()),
            PolyVariant::RotationB128 { data, rotation } => rotation_ok(i, rotation, data@.len()),
            PolyVariant::BitSlice(h) => 0 <= i < h@.len(),
            PolyVariant::B8Slice(h) => 0 <= i < h@.len(),
            PolyVariant::B16Slice(h) => 0 <= i < h@.len(),
            PolyVariant::B32Slice(h) => 0 <= i < h@.len(),
            PolyVariant::B64Slice(h) => 0 <= i < h@.len(),
            PolyVariant::B128Slice(h) => 0 <= i < h@.len(),
            PolyVariant::ShiftedBitSlice(h) => 0 <= i < h@.len(),
            PolyVariant::ShiftedB8Slice(h) => 0 <= i < h@.len(),
            PolyVariant::ShiftedB16Slice(h) => 0 <= i < h@.len(),
            PolyVariant::ShiftedB32Slice(h) => 0 <= i < h@.len(),
            PolyVariant::ShiftedB64Slice(h) => 0 <= i < h@.len(),
            PolyVariant::ShiftedB128Slice(h) => 0 <= i < h@.len(),
            PolyVariant::ShiftedPackedBitB8 { data, bit_idx } => 0 <= i < data@.len() && bit_idx
                < 8,
            PolyVariant::ShiftedPackedBitB16 { data, bit_idx } => 0 <= i < data@.len() && bit_idx
                < 16,
            PolyVariant::ShiftedPackedBitB32 { data, bit_idx } => 0 <= i < data@.len() && bit_idx
                < 32,
            PolyVariant::ShiftedPackedBitB64 { data, bit_idx } => 0 <= i < data@.len() && bit_idx
                < 64,
        }
    }

    /// The value on corner `i`.
    pub open spec fn at(self, i: int) -> u128 {
        match self {
            PolyVariant::Dense(h) => cell_at(h@, i),
            PolyVariant::Shifted(h) => cell_at(h@, next_row(i, h@.len())),
            PolyVariant::Eq(t) => tensor::eq_at(t.scale(), i as nat, t.point()),
            PolyVariant::PackedBitB8 { data, bit_idx } => bit_at(data@, i, bit_idx),
            PolyVariant::PackedBitB16 { data, bit_idx } => bit_at(data@, i, bit_idx),
            PolyVariant::PackedBitB32 { data, bit_idx } => bit_at(data@, i, bit_idx),
            PolyVariant::PackedBitB64 { data, bit_idx } => bit_at(data@, i, bit_idx),
            PolyVariant::TransitionMask { num_vars, product_of_challenges } => if i + 1 == pow2(
                num_vars as nat,
            ) {
                Flat(product_of_challenges)@ ^ 1
            } else {
                1
            },
            PolyVariant::CompositeSelector(cols) => selector_sum(cols@, i),
            PolyVariant::IndirectBit { data, indices } => cell_at(data@, indices@[i] as int),
            PolyVariant::IndirectB8 { data, indices } => cell_at(data@, indices@[i] as int),
            PolyVariant::IndirectB16 { data, indices } => cell_at(data@, indices@[i] as int),
            PolyVariant::IndirectB32 { data, indices } => cell_at(data@, indices@[i] as int),
            PolyVariant::IndirectB64 { data, indices } => cell_at(data@, indices@[i] as int),
            PolyVariant::IndirectB128 { data, indices } => cell_at(data@, indices@[i] as int),
            PolyVariant::StrideBit { data, start, step, .. } => cell_at(data@, start + i * step),
            PolyVariant::StrideB8 { data, start, step, .. } => cell_at(data@, start + i * step),
            PolyVariant::StrideB16 { data, start, step, .. } => cell_at(data@, start + i * step),
            PolyVariant::StrideB32 { data, start, step, .. } => cell_at(data@, start + i * step),
            PolyVariant::StrideB64 { data, start, step, .. } => cell_at(data@, start + i * step),
            PolyVariant::StrideB128 { data, start, step, .. } => cell_at(data@, start + i * step),
            PolyVariant::RotationBit { data, rotation } => cell_at(
                data@,
                rotated(i, rotation, data@.len()),
            ),
            PolyVariant::RotationB8 { data, rotation } => cell_at(
                data@,
                rotated(i, rotation, data@.len()),
            ),
            PolyVariant::RotationB16 { data, rotation } => cell_at(
                data@,
                rotated(i, rotation, data@.len()),
            ),
            PolyVariant::RotationB32 { data, rotation } => cell_at(
                data@,
                rotated(i, rotation, data@.len()),
            ),
            PolyVariant::RotationB64 { data, rotation } => cell_at(
                data@,
                rotated(i, rotation, data@.len()),
            ),
            PolyVariant::RotationB128 { data, rotation } => cell_at(
                data@,
                rotated(i, rotation, data@.len()),
            ),
            PolyVariant::BitSlice(h) => cell_at(h@, i),
            PolyVariant::B8Slice(h) => cell_at(h@, i),
            PolyVariant::B16Slice(h) => cell_at(h@, i),
            PolyVariant::B32Slice(h) => cell_at(h@, i),
            PolyVariant::B64Slice(h) => cell_at(h@, i),
            PolyVariant::B128Slice(h) => cell_at(h@, i),
            PolyVariant::ShiftedBitSlice(h) => cell_at(h@, next_row(i, h@.len())),
            PolyVariant::ShiftedB8Slice(h) => cell_at(h@, next_row(i, h@.len())),
            PolyVariant::ShiftedB16Slice(h) => cell_at(h@, next_row(i, h@.len())),
            PolyVariant::ShiftedB32Slice(h) => cell_at(h@, next_row(i, h@.len())),
            PolyVariant::ShiftedB64Slice(h) => cell_at(h@, next_row(i, h@.len())),
            PolyVariant::ShiftedB128Slice(h) => cell_at(h@, next_row(i, h@.len())),
            PolyVariant::ShiftedPackedBitB8 { data, bit_idx } => bit_at(
                data@,
                next_row(i, data@.len()),
                bit_idx,
            ),
            PolyVariant::ShiftedPackedBitB16 { data, bit_idx } => bit_at(
                data@,
                next_row(i, data@.len()),
                bit_idx,
            ),
            PolyVariant::ShiftedPackedBitB32 { data, bit_idx } => bit_at(
                data@,
                next_row(i, data@.len()),
                bit_idx,
            ),
            PolyVariant::ShiftedPackedBitB64 { data, bit_idx } => bit_at(
                data@,
                next_row(i, data@.len()),
                bit_idx,
            ),
        }
    }

    /// The number of corners is within machine range.
    pub open spec fn size_fits(self) -> bool {
        match self {
            PolyVariant::Eq(t) => t.r_coords@.len() < usize::BITS,
            PolyVariant::TransitionMask { num_vars, .. } => num_vars < usize::BITS,
            _ => true,
        }
    }

    /// Every corner can be read.
    pub open spec fn wf(self) -> bool {
        self.size_fits() && forall|i: int| 0 <= i < self.size() ==> #[trigger] self.readable(i)
    }

    /// The values on the corners.
    pub open spec fn table(self) -> Seq<u128> {
        Seq::new(self.size(), |i: int| self.at(i))
    }

    /// The number of corners.
    pub fn len(&self) -> (r: usize)
        requires
            self.size_fits(),
        ensures
            r == self.size(),
    {
        match self {
            PolyVariant::Dense(h) => h.len(),
            PolyVariant::Shifted(h) => h.len(),
            PolyVariant::Eq(t) => power_of_two(t.num_vars()),
            PolyVariant::PackedBitB8 { data, .. } => data.len(),
            PolyVariant::PackedBitB16 { data, .. } => data.len(),
            PolyVariant::PackedBitB32 { data, .. } => data.len(),
            PolyVariant::PackedBitB64 { data, .. } => data.len(),
            PolyVariant::TransitionMask { num_vars, .. } => power_of_two(*num_vars),
            PolyVariant::CompositeSelector(cols) => if cols.len() == 0 {
                0
            } else {
                cols[0].len()
            },
            PolyVariant::IndirectBit { indices, .. } => indices.len(),
            PolyVariant::IndirectB8 { indices, .. } => indices.len(),
            PolyVariant::IndirectB16 { indices, .. } => indices.len(),
            PolyVariant::IndirectB32 { indices, .. } => indices.len(),
            PolyVariant::IndirectB64 { indices, .. } => indices.len(),
            PolyVariant::IndirectB128 { indices, .. } => indices.len(),
            PolyVariant::StrideBit { len, .. } => *len,
            PolyVariant::StrideB8 { len, .. } => *len,
            PolyVariant::StrideB16 { len, .. } => *len,
            PolyVariant::StrideB32 { len, .. } => *len,
            PolyVariant::StrideB64 { len, .. } => *len,
            PolyVariant::StrideB128 { len, .. } => *len,
            PolyVariant::RotationBit { data, .. } => data.len(),
            PolyVariant::RotationB8 { data, .. } => data.len(),
            PolyVariant::RotationB16 { data, .. } => data.len(),
            PolyVariant::RotationB32 { data, .. } => data.len(),
            PolyVariant::RotationB64 { data, .. } => data.len(),
            PolyVariant::RotationB128 { data, .. } => data.len(),
            PolyVariant::BitSlice(h) => h.len(),
            PolyVariant::B8Slice(h) => h.len(),
            PolyVariant::B16Slice(h) => h.len(),
            PolyVariant::B32Slice(h) => h.len(),
            PolyVariant::B64Slice(h) => h.len(),
            PolyVariant::B128Slice(h) => h.len(),
            PolyVariant::ShiftedBitSlice(h) => h.len(),
            PolyVariant::ShiftedB8Slice(h) => h.len(),
            PolyVariant::ShiftedB16Slice(h) => h.len(),
            PolyVariant::ShiftedB32Slice(h) => h.len(),
            PolyVariant::ShiftedB64Slice(h) => h.len(),
            PolyVariant::ShiftedB128Slice(h) => h.len(),
            PolyVariant::ShiftedPackedBitB8 { data, .. } => data.len(),
            PolyVariant::ShiftedPackedBitB16 { data, .. } => data.len(),
            PolyVariant::ShiftedPackedBitB32 { data, .. } => data.len(),
            PolyVariant::ShiftedPackedBitB64 { data, .. } => data.len(),
        }
    }

    pub fn is_empty(&self) -> (r: bool)
        requires
            self.size_fits(),
        ensures
            r == (self.size() == 0),
    {
        self.len() == 0
    }

    /// Reads the value on a corner.
    pub fn get_at(&self, index: usize) -> (r: Flat<Block128>)
        requires
            self.readable(index as int),
        ensures
            r@ == self.at(index as int),
    {
        match self {
            PolyVariant::Dense(h) => h[index].lift(),
            PolyVariant::Shifted(h) => h[next_index(index, h.len())].lift(),
            PolyVariant::Eq(t) => t.evaluate_at_index(index),
            PolyVariant::PackedBitB8 { data, bit_idx } => bit_value(data[index].tower_bit(*bit_idx)),
            PolyVariant::PackedBitB16 { data, bit_idx } => bit_value(data[index].tower_bit(*bit_idx)),
            PolyVariant::PackedBitB32 { data, bit_idx } => bit_value(data[index].tower_bit(*bit_idx)),
            PolyVariant::PackedBitB64 { data, bit_idx } => bit_value(data[index].tower_bit(*bit_idx)),
            PolyVariant::TransitionMask { num_vars, product_of_challenges } => {
                let last: usize = power_of_two(*num_vars) - 1;
                let one = Flat::<Block128>::one();
                if index == last {
                    Flat(*product_of_challenges).plus(one)
                } else {
                    one
                }
            },
            PolyVariant::CompositeSelector(cols) => sum_selectors(cols, index),
            PolyVariant::IndirectBit { data, indices } => data[indices[index]].lift(),
            PolyVariant::IndirectB8 { data, indices } => data[indices[index]].lift(),
            PolyVariant::IndirectB16 { data, indices } => data[indices[index]].lift(),
            PolyVariant::IndirectB32 { data, indices } => data[indices[index]].lift(),
            PolyVariant::IndirectB64 { data, indices } => data[indices[index]].lift(),
            PolyVariant::IndirectB128 { data, indices } => data[indices[index]].lift(),
            PolyVariant::StrideBit { data, start, step, .. } => {
                proof {
                    lemma_stride(index, *start, *step, data.len());
                }
                data[*start + index * *step].lift()
            },
            PolyVariant::StrideB8 { data, start, step, .. } => {
                proof {
                    lemma_stride(index, *start, *step, data.len());
                }
                data[*start + index * *step].lift()
            },
            PolyVariant::StrideB16 { data, start, step, .. } => {
                proof {
                    lemma_stride(index, *start, *step, data.len());
                }
                data[*start + index * *step].lift()
            },
            PolyVariant::StrideB32 { data, start, step, .. } => {
                proof {
                    lemma_stride(index, *start, *step, data.len());
                }
                data[*start + index * *step].lift()
            },
            PolyVariant::StrideB64 { data, start, step, .. } => {
                proof {
                    lemma_stride(index, *start, *step, data.len());
                }
                data[*start + index * *step].lift()
            },
            PolyVariant::StrideB128 { data, start, step, .. } => {
                proof {
                    lemma_stride(index, *start, *step, data.len());
                }
                data[*start + index * *step].lift()
            },
            PolyVariant::RotationBit { data, rotation } => data[rotate(
                index,
                *rotation,
                data.len(),
            )].lift(),
            PolyVariant::RotationB8 { data, rotation } => data[rotate(
                index,
                *rotation,
                data.len(),
            )].lift(),
            PolyVariant::RotationB16 { data, rotation } => data[rotate(
                index,
                *rotation,
                data.len(),
            )].lift(),
            PolyVariant::RotationB32 { data, rotation } => data[rotate(
                index,
                *rotation,
                data.len(),
            )].lift(),
            PolyVariant::RotationB64 { data, rotation } => data[rotate(
                index,
                *rotation,
                data.len(),
            )].lift(),
            PolyVariant::RotationB128 { data, rotation } => data[rotate(
                index,
                *rotation,
                data.len(),
            )].lift(),
            PolyVariant::BitSlice(s) => s[index].lift(),
            PolyVariant::B8Slice(s) => s[index].lift(),
            PolyVariant::B16Slice(s) => s[index].lift(),
            PolyVariant::B32Slice(s) => s[index].lift(),
            PolyVariant::B64Slice(s) => s[index].lift(),
            PolyVariant::B128Slice(s) => s[index].lift(),
            PolyVariant::ShiftedBitSlice(s) => s[next_index(index, s.len())].lift(),
            PolyVariant::ShiftedB8Slice(s) => s[next_index(index, s.len())].lift(),
            PolyVariant::ShiftedB16Slice(s) => s[next_index(index, s.len())].lift(),
            PolyVariant::ShiftedB32Slice(s) => s[next_index(index, s.len())].lift(),
            PolyVariant::ShiftedB64Slice(s) => s[next_index(index, s.len())].lift(),
            PolyVariant::ShiftedB128Slice(s) => s[next_index(index, s.len())].lift(),
            PolyVariant::ShiftedPackedBitB8 { data, bit_idx } => bit_value(
                data[next_index(index, data.len())].tower_bit(*bit_idx),
            ),
            PolyVariant::ShiftedPackedBitB16 { data, bit_idx } => bit_value(
                data[next_index(index, data.len())].tower_bit(*bit_idx),
            ),
            PolyVariant::ShiftedPackedBitB32 { data, bit_idx } => bit_value(
                data[next_index(index, data.len())].tower_bit(*bit_idx),
            ),
            PolyVariant::ShiftedPackedBitB64 { data, bit_idx } => bit_value(
                data[next_index(index, data.len())].tower_bit(*bit_idx),
            ),
        }
    }
}

// ---------------------------------------------------------------
// Evaluation
// ---------------------------------------------------------------

/// The weighted sum of the first `k` values: the weight of corner `i` is
/// `Eq(i, r)`.
pub open spec fn weighted_sum(values: Seq<u128>, r: Seq<u128>, k: nat) -> u128
    decreases k,
{
    if k == 0 {
        0
    } else {
        weighted_sum(values, r, (k - 1) as nat) ^ gf::gf128_mul(
            values[k - 1],
            tensor::eq_at(1, (k - 1) as nat, r),
        )
    }
}

/// The multilinear polynomial with these values on the corners, at `r`.
pub open spec fn extension(values: Seq<u128>, r: Seq<u128>) -> u128 {
    weighted_sum(values, r, pow2(r.len()))
}

/// What is wrong with a number of coordinates.
pub open spec fn point_fault(size: nat, coords: nat) -> Option<Error> {
    if coords >= usize::BITS {
        Some(Error::DomainTooLarge { num_vars: coords as usize })
    } else if size != pow2(coords) {
        Some(
            Error::DomainSizeMismatch {
                expected_len: pow2(coords) as usize,
                got_len: size as usize,
            },
        )
    } else {
        None
    }
}

impl<'a> PolyVariant<'a> {
    /// Evaluates at any point.
    pub fn evaluate(&self, point: &[Flat<Block128>]) -> (v: Result<Flat<Block128>, errors::Error>)
        requires
            self.wf(),
        ensures
            match *self {
                PolyVariant::Eq(t) => match v {
                    Ok(r) => point@.len() == t.r_coords@.len() && r@ == tensor::eq_product(
                        t.scale(),
                        tensor::values(point@),
                        t.point(),
                    ),
                    Err(e) => point@.len() != t.r_coords@.len() && e == errors::Error::Poly(
                        Error::PointDimensionMismatch {
                            expected_len: t.r_coords@.len() as usize,
                            got_len: point@.len() as usize,
                        },
                    ),
                },
                _ => match v {
                    Ok(r) => point_fault(self.size(), point@.len()) is None && r@ == extension(
                        self.table(),
                        tensor::values(point@),
                    ),
                    Err(e) => point_fault(self.size(), point@.len()) matches Some(f) && e
                        == errors::Error::Poly(f),
                },
            },
    {
        match self {
            PolyVariant::Eq(t) => {
                return t.evaluate_extension(point);
            },
            _ => {},
        }
        let num_vars: usize = point.len();
        let got_len: usize = self.len();
        if num_vars >= usize::BITS as usize {
            return Err(errors::Error::Poly(Error::DomainTooLarge { num_vars }));
        }
        let expected_len: usize = power_of_two(num_vars);
        if got_len != expected_len {
            return Err(
                errors::Error::Poly(Error::DomainSizeMismatch { expected_len, got_len }),
            );
        }
        let weights: Vec<Flat<Block128>> = Self::expand_mle_weights(point);
        let mut total = Flat::<Block128>::zero();
        let mut i: usize = 0;
        let ghost (vs, rs) = (self.table(), tensor::values(point@));
        while i < weights.len()
            invariant
                i <= weights@.len(),
                weights@.len() == self.size(),
                self.wf(),
                vs == self.table(),
                forall|k: int|
                    0 <= k < weights@.len() ==> (#[trigger] weights@[k])@ == tensor::eq_at(
                        1,
                        k as nat,
                        rs,
                    ),
                total@ == weighted_sum(vs, rs, i as nat),
            decreases weights@.len() - i,
        {
            assert(self.readable(i as int));
            total = total.plus(self.get_at(i).times(weights[i]));
            i = i + 1;
        }
        Ok(total)
    }

    /// The weights of the corners at a point.
    pub fn expand_mle_weights(r: &[Flat<Block128>]) -> (w: Vec<Flat<Block128>>)
        requires
            r@.len() < usize::BITS,
        ensures
            w@.len() == pow2(r@.len()),
            forall|i: int|
                0 <= i < w@.len() ==> (#[trigger] w@[i])@ == tensor::eq_at(
                    1,
                    i as nat,
                    tensor::values(r@),
                ),
    {
        let size: usize = power_of_two(r.len());
        let zero = Flat::<Block128>::zero();
        let one = Flat::<Block128>::one();
        let mut weights: Vec<Flat<Block128>> = vec![zero; size];
        weights[0] = one;
        let ghost rs = tensor::values(r@);
        let mut i: usize = 0;
        let mut current: usize = 1;
        proof {
            lemma2_to64();
            assert(tensor::eq_at(1, 0, rs.take(0)) == 1);
        }
        while i < r.len()
            invariant
                i <= r@.len() < usize::BITS,
                rs == tensor::values(r@),
                weights@.len() == size,
                size as nat == pow2(r@.len()),
                current as nat == pow2(i as nat),
                one@ == 1,
                forall|k: int|
                    0 <= k < current ==> (#[trigger] weights@[k])@ == tensor::eq_at(
                        1,
                        k as nat,
                        rs.take(i as int),
                    ),
            decreases r@.len() - i,
        {
            let rk = r[i];
            let one_minus_rk = one.plus(rk);
            let ghost before = weights@;
            proof {
                lemma_pow2_unfold(i as nat + 1);
                bits::lemma_pow2_monotone(i as nat + 1, r@.len());
            }
            let mut k: usize = 0;
            while k < current
                invariant
                    k <= current,
                    i < r@.len(),
                    rs == tensor::values(r@),
                    rk == r@[i as int],
                    weights@.len() == size,
                    before.len() == size,
                    2 * current <= size,
                    current as nat == pow2(i as nat),
                    one_minus_rk@ == 1 ^ rk@,
                    forall|j: int| k <= j < current ==> #[trigger] weights@[j] == before[j],
                    forall|j: int|
                        0 <= j < current ==> (#[trigger] before[j])@ == tensor::eq_at(
                            1,
                            j as nat,
                            rs.take(i as int),
                        ),
                    forall|j: int|
                        0 <= j < k ==> (#[trigger] weights@[j])@ == tensor::eq_at(
                            1,
                            j as nat,
                            rs.take(i + 1),
                        ),
                    forall|j: int|
                        current <= j < current + k ==> (#[trigger] weights@[j])@ == tensor::eq_at(
                            1,
                            j as nat,
                            rs.take(i + 1),
                        ),
                decreases current - k,
            {
                let w = weights[k];
                proof {
                    assert(w == before[k as int]);
                    lemma_weight(k as nat, i as nat, rs);
                }
                weights[k] = w.times(one_minus_rk);
                weights[current + k] = w.times(rk);
                k = k + 1;
            }
            i = i + 1;
            current = current * 2;
        }
        proof {
            assert(rs.take(rs.len() as int) =~= rs);
        }
        weights
    }
}

/// One more coordinate splits the weight of a corner in two.
proof fn lemma_weight(k: nat, i: nat, rs: Seq<u128>)
    requires
        k < pow2(i),
        i < rs.len(),
    ensures
        tensor::eq_at(1, k, rs.take(i as int + 1)) == gf::gf128_mul(
            tensor::eq_at(1, k, rs.take(i as int)),
            1 ^ rs[i as int],
        ),
        tensor::eq_at(1, pow2(i) + k, rs.take(i as int + 1)) == gf::gf128_mul(
            tensor::eq_at(1, k, rs.take(i as int)),
            rs[i as int],
        ),
{
    let head = rs.take(i as int);
    assert(rs.take(i as int + 1).drop_last() =~= head);
    lemma_high_bit(k, i);
    lemma_low_bits(k, i, head);
}

/// Bit `i` of a number below `2^i`, and of it with `2^i` added.
pub proof fn lemma_high_bit(k: nat, i: nat)
    requires
        k < pow2(i),
    ensures
        bits::bit(k, i) == 0,
        bits::bit(pow2(i) + k, i) == 1,
{
    lemma_pow2_pos(i);
    let p = pow2(i) as int;
    vstd::arithmetic::div_mod::lemma_fundamental_div_mod_converse(k as int, p, 0, k as int);
    vstd::arithmetic::div_mod::lemma_fundamental_div_mod_converse(p + k, p, 1, k as int);
}

/// The weight by the low bits does not change where a high bit is added.
pub proof fn lemma_low_bits(k: nat, i: nat, rs: Seq<u128>)
    requires
        rs.len() <= i,
    ensures
        tensor::eq_at(1, pow2(i) + k, rs) == tensor::eq_at(1, k, rs),
    decreases rs.len(),
{
    if rs.len() > 0 {
        let j = (rs.len() - 1) as nat;
        lemma_low_bits(k, i, rs.drop_last());
        // bit j of 2^i + k is bit j of k
        let rest = (i - j - 1) as nat;
        lemma_pow2_adds(j + 1, rest);
        lemma_pow2_unfold(j + 1);
        lemma_pow2_pos(j);
        let p = pow2(j) as int;
        let q = pow2(rest) as int;
        assert(pow2(i) + k == (2 * q) * p + k) by (nonlinear_arith)
            requires
                pow2(i) == (2 * p) * q,
        ;
        vstd::arithmetic::div_mod::lemma_hoist_over_denominator(k as int, 2 * q, p as nat);
        assert((k as int / p + 2 * q) % 2 == (k as int / p) % 2);
    }
}

/// The bit as a field element.
fn bit_value(bit: u8) -> (r: Flat<Block128>)
    requires
        bit <= 1,
    ensures
        r@ == bit,
{
    if bit == 1 {
        Flat::<Block128>::one()
    } else {
        Flat::<Block128>::zero()
    }
}

/// The row after a row, cyclically.
fn next_index(index: usize, len: usize) -> (r: usize)
    requires
        index < len,
    ensures
        r == next_row(index as int, len as nat),
        r < len,
{
    if index + 1 == len {
        0
    } else {
        index + 1
    }
}

/// The sum of boolean columns at a row.
fn sum_selectors(cols: &Vec<&[Bit]>, index: usize) -> (r: Flat<Block128>)
    requires
        forall|k: int| 0 <= k < cols@.len() ==> index < (#[trigger] cols@[k])@.len(),
    ensures
        r@ == selector_sum(cols@, index as int),
{
    let mut sum = Flat::<Block128>::zero();
    let one = Flat::<Block128>::one();
    let mut k: usize = 0;
    while k < cols.len()
        invariant
            k <= cols@.len(),
            one@ == 1,
            forall|k: int| 0 <= k < cols@.len() ==> index < (#[trigger] cols@[k])@.len(),
            sum@ == selector_sum(cols@.take(k as int), index as int),
        decreases cols@.len() - k,
    {
        proof {
            assert(cols@.take(k + 1).drop_last() =~= cols@.take(k as int));
        }
        let col: &[Bit] = cols[k];
        if col[index].0 == 1 {
            sum = sum.plus(one);
        }
        k = k + 1;
    }
    proof {
        assert(cols@.take(cols@.len() as int) =~= cols@);
    }
    sum
}

proof fn lemma_stride(index: usize, start: usize, step: usize, len: usize)
    requires
        start + index * step < len,
    ensures
        0 <= index * step <= usize::MAX,
{
    assert(0 <= index * step) by (nonlinear_arith)
        requires
            index >= 0,
            step >= 0,
    ;
}

/// Row `(index + rotation) mod len`, by masking.
fn rotate(index: usize, rotation: usize, len: usize) -> (r: usize)
    requires
        rotation_ok(index as int, rotation, len as nat),
    ensures
        r == rotated(index as int, rotation, len as nat),
        r < len,
{
    proof {
        let k = choose|k: nat| len as nat == #[trigger] pow2(k);
        bits::lemma_usize_mask(index + rotation, len, k);
    }
    (index + rotation) & (len - 1)
}

/// `2^k`.
fn power_of_two(k: usize) -> (r: usize)
    requires
        k < usize::BITS,
    ensures
        r as nat == pow2(k as nat),
        r > 0,
{
    proof {
        lemma_pow2_pos(k as nat);
        lemma2_to64();
        lemma2_to64_rest();
        bits::lemma_pow2_monotone(k as nat, (usize::BITS - 1) as nat);
        vstd::bits::lemma_usize_shl_is_mul(1, k);
    }
    1usize << k
}

} // verus!
