//! Execution traces: typed columns in the flat basis, and the builder
//! that fills them.

use vstd::arithmetic::power::pow;
use vstd::arithmetic::power2::*;
use vstd::prelude::*;

use crate::bits;
use crate::bytes;
use crate::errors;
use crate::field::elements;
use crate::field::{Bit, Block128, Block16, Block32, Block64, Block8, Flat};
use crate::poly::variant::PolyVariant;
use crate::wipe;

verus! {

#[derive(Clone, Copy, Debug)]
pub enum Error {
    InvalidParameters { message: &'static str },
    ColumnLengthMismatch { expected_len: usize, got_len: usize },
    ColumnIndexOutOfBounds { col_idx: usize, num_cols: usize },
    RowIndexOutOfBounds { row_idx: usize, num_rows: usize },
    PointDimensionMismatch { expected_len: usize, got_len: usize },
    ColumnTypeMismatch { col_idx: usize, expected: &'static str, got: &'static str },
}

impl Error {
    /// `self` says that parameters are invalid, with exactly this message.
    pub open spec fn is_invalid(self, message: Seq<char>) -> bool {
        self matches Error::InvalidParameters { message: m } && m@ == message
    }

    /// `self` says that column `col_idx` holds `got`, not `expected`.
    pub open spec fn is_type_mismatch(
        self,
        col_idx: usize,
        expected: Seq<char>,
        got: Seq<char>,
    ) -> bool {
        self matches Error::ColumnTypeMismatch { col_idx: c, expected: e, got: g } && c == col_idx
            && e@ == expected && g@ == got
    }
}

// ---------------------------------------------------------------
// Height
// ---------------------------------------------------------------

/// `2^num_vars` fits a machine word.
pub open spec fn height_fits(num_vars: nat) -> bool {
    num_vars < usize::BITS
}

/// `2^num_vars` as a machine word.
pub fn num_rows_from_num_vars(num_vars: usize) -> (res: Result<usize, errors::Error>)
    ensures
        res is Ok <==> height_fits(num_vars as nat),
        res matches Ok(n) ==> n as nat == pow2(num_vars as nat),
        res matches Err(e) ==> e matches errors::Error::Trace(t) && t.is_invalid(
            if num_vars > u32::MAX {
                "num_vars too large"@
            } else {
                "num_rows overflow"@
            },
        ),
{
    if num_vars > 0xffff_ffff {
        return Err(
            errors::Error::Trace(Error::InvalidParameters { message: "num_vars too large" }),
        );
    }
    if num_vars >= usize::BITS as usize {
        return Err(
            errors::Error::Trace(Error::InvalidParameters { message: "num_rows overflow" }),
        );
    }
    proof {
        lemma_usize_shl(num_vars as nat);
    }
    Ok(1usize << num_vars)
}

/// `log2` of a power of two.
pub fn exact_log2(n: usize) -> (r: Option<usize>)
    ensures
        r is Some <==> bits::is_power_of_two(n as nat),
        r matches Some(k) ==> height_fits(k as nat) && n as nat == pow2(k as nat),
{
    proof {
        lemma2_to64();
    }
    let mut k: usize = 0;
    let mut p: usize = 1;
    loop
        invariant
            height_fits(k as nat),
            p as nat == pow2(k as nat),
            forall|j: nat| j < k ==> n as nat != #[trigger] pow2(j),
        decreases usize::BITS - k,
    {
        proof {
            lemma2_to64();
            lemma_pow2_adds(k as nat, 1);
        }
        if p == n {
            return Some(k);
        }
        if p > n / 2 {
            proof {
                assert forall|j: nat| n as nat != #[trigger] pow2(j) by {
                    if j > k {
                        lemma_pow2_le(k as nat + 1, j);
                    }
                }
            }
            return None;
        }
        proof {
            if k + 1 >= usize::BITS {
                lemma_pow2_le(usize::BITS as nat, k as nat + 1);
            }
        }
        k = k + 1;
        p = p * 2;
    }
}

proof fn lemma_pow2_le(a: nat, b: nat)
    requires
        a <= b,
    ensures
        pow2(a) <= pow2(b),
{
    if a < b {
        lemma_pow2_strictly_increases(a, b);
    }
}

proof fn lemma_usize_shl(k: nat)
    requires
        k < usize::BITS,
    ensures
        1usize << (k as usize) == pow2(k),
{
    lemma2_to64();
    if usize::BITS == 32 {
        if k < 32 {
            lemma_pow2_strictly_increases(k, 32);
        }
    } else {
        lemma_pow2_strictly_increases(k, 64);
    }
    vstd::bits::lemma_usize_shl_is_mul(1, k as usize);
}

// ---------------------------------------------------------------
// Column types and cells
// ---------------------------------------------------------------

/// Column storage type, without the data itself.
///
/// A `Bit` column may hold any byte: parsing keeps the byte as it is, so
/// a constraint system that uses the column as a selector or an operand
/// asserts booleanity itself.
#[derive(Clone, Copy, Debug, PartialEq, Eq, Structural)]
pub enum ColumnType {
    Bit,
    B8,
    B16,
    B32,
    B64,
    B128,
}

impl ColumnType {
    /// Bytes one cell takes.
    pub open spec fn width(self) -> nat {
        match self {
            ColumnType::Bit => 1,
            ColumnType::B8 => 1,
            ColumnType::B16 => 2,
            ColumnType::B32 => 4,
            ColumnType::B64 => 8,
            ColumnType::B128 => 16,
        }
    }

    /// Bits of the elements a cell is for.
    pub open spec fn bits(self) -> nat {
        match self {
            ColumnType::Bit => 1,
            ColumnType::B8 => 8,
            ColumnType::B16 => 16,
            ColumnType::B32 => 32,
            ColumnType::B64 => 64,
            ColumnType::B128 => 128,
        }
    }

    /// The name a type-mismatch error gives the type.
    pub open spec fn label(self) -> Seq<char> {
        match self {
            ColumnType::Bit => "Bit"@,
            ColumnType::B8 => "B8"@,
            ColumnType::B16 => "B16"@,
            ColumnType::B32 => "B32"@,
            ColumnType::B64 => "B64"@,
            ColumnType::B128 => "B128"@,
        }
    }

    /// The raw bits fit one cell.
    pub open spec fn holds(self, raw: u128) -> bool {
        raw < bytes::byte_pow(self.width())
    }

    /// The flat bits in GF(2^128) of the element a cell with these raw bits
    /// stores.
    pub open spec fn lifted(self, raw: u128) -> u128 {
        match self {
            ColumnType::Bit => raw,
            ColumnType::B8 => elements::flat128(elements::tower8(raw as u8) as u128),
            ColumnType::B16 => elements::flat128(elements::tower16(raw as u16) as u128),
            ColumnType::B32 => elements::flat128(elements::tower32(raw as u32) as u128),
            ColumnType::B64 => elements::flat128(elements::tower64(raw as u64) as u128),
            ColumnType::B128 => raw,
        }
    }

    /// The element of GF(2^128) a cell with these raw bits stores, in the
    /// tower basis.
    pub open spec fn element(self, raw: u128) -> u128 {
        match self {
            ColumnType::Bit => if raw <= 1 {
                raw
            } else {
                elements::tower128(raw)
            },
            ColumnType::B8 => elements::tower8(raw as u8) as u128,
            ColumnType::B16 => elements::tower16(raw as u16) as u128,
            ColumnType::B32 => elements::tower32(raw as u32) as u128,
            ColumnType::B64 => elements::tower64(raw as u64) as u128,
            ColumnType::B128 => elements::tower128(raw),
        }
    }

    /// The raw bits of a cell that stores the low bits of a tower element.
    pub open spec fn stored(self, tower: u128) -> u128 {
        match self {
            ColumnType::Bit => tower,
            ColumnType::B8 => elements::flat8(tower as u8) as u128,
            ColumnType::B16 => elements::flat16(tower as u16) as u128,
            ColumnType::B32 => elements::flat32(tower as u32) as u128,
            ColumnType::B64 => elements::flat64(tower as u64) as u128,
            ColumnType::B128 => elements::flat128(tower),
        }
    }

    pub fn byte_size(&self) -> (r: usize)
        ensures
            r == self.width(),
    {
        match self {
            ColumnType::Bit => 1,
            ColumnType::B8 => 1,
            ColumnType::B16 => 2,
            ColumnType::B32 => 4,
            ColumnType::B64 => 8,
            ColumnType::B128 => 16,
        }
    }

    fn name(&self) -> (r: &'static str)
        ensures
            r@ == self.label(),
    {
        match self {
            ColumnType::Bit => "Bit",
            ColumnType::B8 => "B8",
            ColumnType::B16 => "B16",
            ColumnType::B32 => "B32",
            ColumnType::B64 => "B64",
            ColumnType::B128 => "B128",
        }
    }

    /// The name a type-mismatch error gives the cells of such a column.
    pub open spec fn cell_label(self) -> Seq<char> {
        match self {
            ColumnType::Bit => "Bit"@,
            ColumnType::B8 => "Flat<Block8>"@,
            ColumnType::B16 => "Flat<Block16>"@,
            ColumnType::B32 => "Flat<Block32>"@,
            ColumnType::B64 => "Flat<Block64>"@,
            ColumnType::B128 => "Flat<Block128>"@,
        }
    }

    fn cell_name(&self) -> (r: &'static str)
        ensures
            r@ == self.cell_label(),
    {
        match self {
            ColumnType::Bit => "Bit",
            ColumnType::B8 => "Flat<Block8>",
            ColumnType::B16 => "Flat<Block16>",
            ColumnType::B32 => "Flat<Block32>",
            ColumnType::B64 => "Flat<Block64>",
            ColumnType::B128 => "Flat<Block128>",
        }
    }

    /// Reads one cell from the front of its on-wire bytes, which are the raw
    /// bits in little-endian order, and lifts it into GF(2^128).
    pub fn parse_from_bytes(&self, bytes: &[u8]) -> (r: Flat<Block128>)
        requires
            bytes@.len() >= self.width(),
        ensures
            r.0.0 == self.lifted(bytes::le_value(bytes@.take(self.width() as int)) as u128),
            r@ == self.element(bytes::le_value(bytes@.take(self.width() as int)) as u128),
    {
        let size = self.byte_size();
        let cell = vstd::slice::slice_subrange(bytes, 0, size);
        assert(cell@ =~= bytes@.take(size as int));
        let raw: u128 = bytes::read_le(cell);
        proof {
            bytes::lemma_le_value_bound(cell@);
            bytes::lemma_byte_pow_values();
        }
        match self {
            ColumnType::Bit => Bit(raw as u8).lift(),
            ColumnType::B8 => Flat(Block8(raw as u8)).lift(),
            ColumnType::B16 => Flat(Block16(raw as u16)).lift(),
            ColumnType::B32 => Flat(Block32(raw as u32)).lift(),
            ColumnType::B64 => Flat(Block64(raw as u64)).lift(),
            ColumnType::B128 => Flat(Block128(raw)).lift(),
        }
    }
}

/// A type of trace cell.
pub trait Cell: Sized + Copy {
    /// The column type that stores such cells.
    spec fn kind() -> ColumnType;

    /// The stored bits.
    spec fn raw(self) -> u128;

    /// The name a type-mismatch error gives the cell type.
    spec fn label() -> Seq<char>;

    /// The cells of a column that stores this type.
    spec fn stored_in(col: TraceColumn) -> Seq<Self>;

    fn name() -> (r: &'static str)
        ensures
            r@ == Self::label(),
    ;

    /// The cells of `col`, where it stores this type.
    fn slice_of(col: &TraceColumn) -> (r: Option<&[Self]>)
        ensures
            r is Some <==> col.ctype() == Self::kind(),
            r matches Some(s) ==> s@ == Self::stored_in(*col) && s@.len() == col.cells().len() && (
            forall|i: int| 0 <= i < s@.len() ==> (#[trigger] s@[i]).raw() == col.cells()[i]),
    ;
}

impl Bit {
    /// The element the cell stores, in GF(2^128).
    pub fn lift(self) -> (r: Flat<Block128>)
        ensures
            r.0.0 == ColumnType::Bit.lifted(self.0 as u128),
            r@ == ColumnType::Bit.element(self.0 as u128),
    {
        if self.0 == 0 {
            Flat::<Block128>::zero()
        } else if self.0 == 1 {
            Flat::<Block128>::one()
        } else {
            Flat(Block128(self.0 as u128))
        }
    }
}

impl Cell for Bit {
    open spec fn kind() -> ColumnType {
        ColumnType::Bit
    }

    open spec fn raw(self) -> u128 {
        self.0 as u128
    }

    open spec fn label() -> Seq<char> {
        "Bit"@
    }

    open spec fn stored_in(col: TraceColumn) -> Seq<Self> {
        match col {
            TraceColumn::Bit(v) => v@,
            _ => Seq::empty(),
        }
    }

    fn name() -> (r: &'static str) {
        "Bit"
    }

    fn slice_of(col: &TraceColumn) -> (r: Option<&[Self]>) {
        match col {
            TraceColumn::Bit(v) => Some(v.as_slice()),
            _ => None,
        }
    }
}

impl Flat<Block8> {
    /// The element the cell stores, in GF(2^128).
    pub fn lift(self) -> (r: Flat<Block128>)
        ensures
            r.0.0 == ColumnType::B8.lifted(self.0.0 as u128),
            r@ == ColumnType::B8.element(self.0.0 as u128),
    {
        self.promote()
    }
}

impl Cell for Flat<Block8> {
    open spec fn kind() -> ColumnType {
        ColumnType::B8
    }

    open spec fn raw(self) -> u128 {
        self.0.0 as u128
    }

    open spec fn label() -> Seq<char> {
        "Flat<Block8>"@
    }

    open spec fn stored_in(col: TraceColumn) -> Seq<Self> {
        match col {
            TraceColumn::B8(v) => v@,
            _ => Seq::empty(),
        }
    }

    fn name() -> (r: &'static str) {
        "Flat<Block8>"
    }

    fn slice_of(col: &TraceColumn) -> (r: Option<&[Self]>) {
        match col {
            TraceColumn::B8(v) => Some(v.as_slice()),
            _ => None,
        }
    }
}

impl Flat<Block16> {
    /// The element the cell stores, in GF(2^128).
    pub fn lift(self) -> (r: Flat<Block128>)
        ensures
            r.0.0 == ColumnType::B16.lifted(self.0.0 as u128),
            r@ == ColumnType::B16.element(self.0.0 as u128),
    {
        self.promote()
    }
}

impl Cell for Flat<Block16> {
    open spec fn kind() -> ColumnType {
        ColumnType::B16
    }

    open spec fn raw(self) -> u128 {
        self.0.0 as u128
    }

    open spec fn label() -> Seq<char> {
        "Flat<Block16>"@
    }

    open spec fn stored_in(col: TraceColumn) -> Seq<Self> {
        match col {
            TraceColumn::B16(v) => v@,
            _ => Seq::empty(),
        }
    }

    fn name() -> (r: &'static str) {
        "Flat<Block16>"
    }

    fn slice_of(col: &TraceColumn) -> (r: Option<&[Self]>) {
        match col {
            TraceColumn::B16(v) => Some(v.as_slice()),
            _ => None,
        }
    }
}

impl Flat<Block32> {
    /// The element the cell stores, in GF(2^128).
    pub fn lift(self) -> (r: Flat<Block128>)
        ensures
            r.0.0 == ColumnType::B32.lifted(self.0.0 as u128),
            r@ == ColumnType::B32.element(self.0.0 as u128),
    {
        self.promote()
    }
}

impl Cell for Flat<Block32> {
    open spec fn kind() -> ColumnType {
        ColumnType::B32
    }

    open spec fn raw(self) -> u128 {
        self.0.0 as u128
    }

    open spec fn label() -> Seq<char> {
        "Flat<Block32>"@
    }

    open spec fn stored_in(col: TraceColumn) -> Seq<Self> {
        match col {
            TraceColumn::B32(v) => v@,
            _ => Seq::empty(),
        }
    }

    fn name() -> (r: &'static str) {
        "Flat<Block32>"
    }

    fn slice_of(col: &TraceColumn) -> (r: Option<&[Self]>) {
        match col {
            TraceColumn::B32(v) => Some(v.as_slice()),
            _ => None,
        }
    }
}

impl Flat<Block64> {
    /// The element the cell stores, in GF(2^128).
    pub fn lift(self) -> (r: Flat<Block128>)
        ensures
            r.0.0 == ColumnType::B64.lifted(self.0.0 as u128),
            r@ == ColumnType::B64.element(self.0.0 as u128),
    {
        self.promote()
    }
}

impl Cell for Flat<Block64> {
    open spec fn kind() -> ColumnType {
        ColumnType::B64
    }

    open spec fn raw(self) -> u128 {
        self.0.0 as u128
    }

    open spec fn label() -> Seq<char> {
        "Flat<Block64>"@
    }

    open spec fn stored_in(col: TraceColumn) -> Seq<Self> {
        match col {
            TraceColumn::B64(v) => v@,
            _ => Seq::empty(),
        }
    }

    fn name() -> (r: &'static str) {
        "Flat<Block64>"
    }

    fn slice_of(col: &TraceColumn) -> (r: Option<&[Self]>) {
        match col {
            TraceColumn::B64(v) => Some(v.as_slice()),
            _ => None,
        }
    }
}

impl Flat<Block128> {
    /// The element the cell stores, in GF(2^128).
    pub fn lift(self) -> (r: Flat<Block128>)
        ensures
            r.0.0 == ColumnType::B128.lifted(self.0.0 as u128),
            r@ == ColumnType::B128.element(self.0.0 as u128),
    {
        self
    }
}

impl Cell for Flat<Block128> {
    open spec fn kind() -> ColumnType {
        ColumnType::B128
    }

    open spec fn raw(self) -> u128 {
        self.0.0 as u128
    }

    open spec fn label() -> Seq<char> {
        "Flat<Block128>"@
    }

    open spec fn stored_in(col: TraceColumn) -> Seq<Self> {
        match col {
            TraceColumn::B128(v) => v@,
            _ => Seq::empty(),
        }
    }

    fn name() -> (r: &'static str) {
        "Flat<Block128>"
    }

    fn slice_of(col: &TraceColumn) -> (r: Option<&[Self]>) {
        match col {
            TraceColumn::B128(v) => Some(v.as_slice()),
            _ => None,
        }
    }
}


// ---------------------------------------------------------------
// Columns
// ---------------------------------------------------------------

/// One typed column of the execution trace, in the flat basis for all but
/// `Bit`.
#[derive(Clone, Debug)]
pub enum TraceColumn {
    Bit(Vec<Bit>),
    B8(Vec<Flat<Block8>>),
    B16(Vec<Flat<Block16>>),
    B32(Vec<Flat<Block32>>),
    B64(Vec<Flat<Block64>>),
    B128(Vec<Flat<Block128>>),
}

impl TraceColumn {
    pub open spec fn ctype(self) -> ColumnType {
        match self {
            TraceColumn::Bit(_) => ColumnType::Bit,
            TraceColumn::B8(_) => ColumnType::B8,
            TraceColumn::B16(_) => ColumnType::B16,
            TraceColumn::B32(_) => ColumnType::B32,
            TraceColumn::B64(_) => ColumnType::B64,
            TraceColumn::B128(_) => ColumnType::B128,
        }
    }

    /// The raw bits of every cell.
    pub open spec fn cells(self) -> Seq<u128> {
        match self {
            TraceColumn::Bit(v) => Seq::new(v@.len(), |i: int| v@[i].0 as u128),
            TraceColumn::B8(v) => Seq::new(v@.len(), |i: int| v@[i].0.0 as u128),
            TraceColumn::B16(v) => Seq::new(v@.len(), |i: int| v@[i].0.0 as u128),
            TraceColumn::B32(v) => Seq::new(v@.len(), |i: int| v@[i].0.0 as u128),
            TraceColumn::B64(v) => Seq::new(v@.len(), |i: int| v@[i].0.0 as u128),
            TraceColumn::B128(v) => Seq::new(v@.len(), |i: int| v@[i].0.0 as u128),
        }
    }

    /// Narrows tower elements into a column of `target_type`: each keeps its
    /// low bits, and is stored in the flat basis.
    pub fn from_data(data: Vec<Block128>, target_type: ColumnType) -> (col: Self)
        ensures
            col.ctype() == target_type,
            col.cells() == narrowed(data@, target_type),
            forall|i: int|
                0 <= i < data@.len() ==> target_type.element(#[trigger] col.cells()[i])
                    == data@[i].0 as nat % pow2(target_type.bits()),
    {
        proof {
            lemma2_to64();
            lemma2_to64_rest();
            assert(pow2(128) == 0x1_0000_0000_0000_0000_0000_0000_0000_0000) by {
                lemma_pow2_adds(64, 64);
            }
            assert forall|x: u128| #[trigger] (x as nat % pow2(128)) == x by {
                vstd::arithmetic::div_mod::lemma_small_mod(x as nat, pow2(128));
            }
        }
        match target_type {
            ColumnType::Bit => {
                let mut out: Vec<Bit> = Vec::with_capacity(data.len());
                for k in 0..data.len()
                    invariant
                        out@.len() == k,
                        forall|j: int|
                            0 <= j < k ==> (#[trigger] out@[j]).0 as u128 == data@[j].0 % 2,
                {
                    out.push(Bit((data[k].0 % 2) as u8));
                }
                TraceColumn::Bit(out)
            },

            ColumnType::B8 => {
                let mut out: Vec<Flat<Block8>> = Vec::with_capacity(data.len());
                for k in 0..data.len()
                    invariant
                        out@.len() == k,
                        forall|j: int|
                            0 <= j < k ==> (#[trigger] out@[j]).0.0 == elements::flat8((data@[j].0 % 0x1_00) as u8)
                                && elements::tower8(out@[j].0.0) == data@[j].0 % 0x1_00,
                {
                    out.push(Block8((data[k].0 % 0x1_00) as u8).to_hardware());
                }
                TraceColumn::B8(out)
            },

            ColumnType::B16 => {
                let mut out: Vec<Flat<Block16>> = Vec::with_capacity(data.len());
                for k in 0..data.len()
                    invariant
                        out@.len() == k,
                        forall|j: int|
                            0 <= j < k ==> (#[trigger] out@[j]).0.0 == elements::flat16((data@[j].0 % 0x1_0000) as u16)
                                && elements::tower16(out@[j].0.0) == data@[j].0 % 0x1_0000,
                {
                    out.push(Block16((data[k].0 % 0x1_0000) as u16).to_hardware());
                }
                TraceColumn::B16(out)
            },

            ColumnType::B32 => {
                let mut out: Vec<Flat<Block32>> = Vec::with_capacity(data.len());
                for k in 0..data.len()
                    invariant
                        out@.len() == k,
                        forall|j: int|
                            0 <= j < k ==> (#[trigger] out@[j]).0.0 == elements::flat32((data@[j].0 % 0x1_0000_0000) as u32)
                                && elements::tower32(out@[j].0.0) == data@[j].0 % 0x1_0000_0000,
                {
                    out.push(Block32((data[k].0 % 0x1_0000_0000) as u32).to_hardware());
                }
                TraceColumn::B32(out)
            },

            ColumnType::B64 => {
                let mut out: Vec<Flat<Block64>> = Vec::with_capacity(data.len());
                for k in 0..data.len()
                    invariant
                        out@.len() == k,
                        forall|j: int|
                            0 <= j < k ==> (#[trigger] out@[j]).0.0 == elements::flat64((data@[j].0 % 0x1_0000_0000_0000_0000) as u64)
                                && elements::tower64(out@[j].0.0) == data@[j].0 % 0x1_0000_0000_0000_0000,
                {
                    out.push(Block64((data[k].0 % 0x1_0000_0000_0000_0000) as u64).to_hardware());
                }
                TraceColumn::B64(out)
            },

            ColumnType::B128 => {
                let mut out: Vec<Flat<Block128>> = Vec::with_capacity(data.len());
                for k in 0..data.len()
                    invariant
                        out@.len() == k,
                        forall|j: int|
                            0 <= j < k ==> (#[trigger] out@[j]).0.0 == elements::flat128(data@[j].0)
                                && elements::tower128(out@[j].0.0) == data@[j].0,
                {
                    out.push(data[k].to_hardware());
                }
                TraceColumn::B128(out)
            },

        }
    }

    /// Overwrites every cell with zero and drops the cells. The type stays.
    pub fn zeroize(&mut self)
        ensures
            final(self).ctype() == old(self).ctype(),
            final(self).cells().len() == 0,
    {
        match self {
            TraceColumn::Bit(v) => wipe::wipe_bits(v),
            TraceColumn::B8(v) => wipe::wipe8(v),
            TraceColumn::B16(v) => wipe::wipe16(v),
            TraceColumn::B32(v) => wipe::wipe32(v),
            TraceColumn::B64(v) => wipe::wipe64(v),
            TraceColumn::B128(v) => wipe::wipe128(v),
        }
    }

    pub fn len(&self) -> (r: usize)
        ensures
            r == self.cells().len(),
    {
        match self {
            TraceColumn::Bit(v) => v.len(),
            TraceColumn::B8(v) => v.len(),
            TraceColumn::B16(v) => v.len(),
            TraceColumn::B32(v) => v.len(),
            TraceColumn::B64(v) => v.len(),
            TraceColumn::B128(v) => v.len(),
        }
    }

    pub fn is_empty(&self) -> (r: bool)
        ensures
            r == (self.cells().len() == 0),
    {
        self.len() == 0
    }

    pub fn is_all_zeros(&self) -> (r: bool)
        ensures
            r == forall|i: int| 0 <= i < self.cells().len() ==> #[trigger] self.cells()[i] == 0,
    {
        let len: usize = self.len();
        for k in 0..len
            invariant
                len == self.cells().len(),
                forall|i: int| 0 <= i < k ==> #[trigger] self.cells()[i] == 0,
        {
            if self.raw_at(k) != 0 {
                return false;
            }
        }
        true
    }

    /// The raw bits of one cell.
    fn raw_at(&self, row_idx: usize) -> (r: u128)
        requires
            row_idx < self.cells().len(),
        ensures
            r == self.cells()[row_idx as int],
            self.ctype().holds(r),
    {
        proof {
            bytes::lemma_byte_pow_values();
        }
        match self {
            TraceColumn::Bit(v) => v[row_idx].0 as u128,
            TraceColumn::B8(v) => v[row_idx].0.0 as u128,
            TraceColumn::B16(v) => v[row_idx].0.0 as u128,
            TraceColumn::B32(v) => v[row_idx].0.0 as u128,
            TraceColumn::B64(v) => v[row_idx].0.0 as u128,
            TraceColumn::B128(v) => v[row_idx].0.0,
        }
    }

    /// The element one cell stores, in GF(2^128).
    pub fn lift_at(&self, row_idx: usize) -> (r: Flat<Block128>)
        requires
            row_idx < self.cells().len(),
        ensures
            r.0.0 == self.ctype().lifted(self.cells()[row_idx as int]),
            r@ == self.ctype().element(self.cells()[row_idx as int]),
    {
        match self {
            TraceColumn::Bit(v) => v[row_idx].lift(),
            TraceColumn::B8(v) => v[row_idx].lift(),
            TraceColumn::B16(v) => v[row_idx].lift(),
            TraceColumn::B32(v) => v[row_idx].lift(),
            TraceColumn::B64(v) => v[row_idx].lift(),
            TraceColumn::B128(v) => v[row_idx].lift(),
        }
    }

    /// Overwrites one cell.
    fn write_raw(&mut self, row_idx: usize, raw: u128)
        requires
            row_idx < old(self).cells().len(),
            old(self).ctype().holds(raw),
        ensures
            final(self).ctype() == old(self).ctype(),
            final(self).cells() == old(self).cells().update(row_idx as int, raw),
    {
        proof {
            bytes::lemma_byte_pow_values();
        }
        match self {
            TraceColumn::Bit(v) => {
                v[row_idx] = Bit(raw as u8);
            },
            TraceColumn::B8(v) => {
                v[row_idx] = Flat(Block8(raw as u8));
            },
            TraceColumn::B16(v) => {
                v[row_idx] = Flat(Block16(raw as u16));
            },
            TraceColumn::B32(v) => {
                v[row_idx] = Flat(Block32(raw as u32));
            },
            TraceColumn::B64(v) => {
                v[row_idx] = Flat(Block64(raw as u64));
            },
            TraceColumn::B128(v) => {
                v[row_idx] = Flat(Block128(raw));
            },
        }
    }

    /// The `ColumnType` tag matching this variant.
    pub fn column_type(&self) -> (r: ColumnType)
        ensures
            r == self.ctype(),
    {
        match self {
            TraceColumn::Bit(_) => ColumnType::Bit,
            TraceColumn::B8(_) => ColumnType::B8,
            TraceColumn::B16(_) => ColumnType::B16,
            TraceColumn::B32(_) => ColumnType::B32,
            TraceColumn::B64(_) => ColumnType::B64,
            TraceColumn::B128(_) => ColumnType::B128,
        }
    }

    /// Appends the little-endian bytes of one cell.
    pub fn append_bytes_at(&self, row_idx: usize, buf: &mut Vec<u8>)
        requires
            row_idx < self.cells().len(),
        ensures
            final(buf)@ == old(buf)@ + bytes::le_bytes(
                self.cells()[row_idx as int] as nat,
                self.ctype().width(),
            ),
    {
        bytes::push_le(buf, self.raw_at(row_idx), self.column_type().byte_size());
    }


    pub fn as_bit_slice(&self) -> (r: Option<&[Bit]>)
        ensures
            r is Some <==> self.ctype() == ColumnType::Bit,
            r matches Some(s) ==> *self matches TraceColumn::Bit(v) && s@ == v@,
    {
        match self {
            TraceColumn::Bit(v) => Some(v.as_slice()),
            _ => None,
        }
    }


    pub fn as_b8_slice(&self) -> (r: Option<&[Flat<Block8>]>)
        ensures
            r is Some <==> self.ctype() == ColumnType::B8,
            r matches Some(s) ==> *self matches TraceColumn::B8(v) && s@ == v@,
    {
        match self {
            TraceColumn::B8(v) => Some(v.as_slice()),
            _ => None,
        }
    }


    pub fn as_b16_slice(&self) -> (r: Option<&[Flat<Block16>]>)
        ensures
            r is Some <==> self.ctype() == ColumnType::B16,
            r matches Some(s) ==> *self matches TraceColumn::B16(v) && s@ == v@,
    {
        match self {
            TraceColumn::B16(v) => Some(v.as_slice()),
            _ => None,
        }
    }


    pub fn as_b32_slice(&self) -> (r: Option<&[Flat<Block32>]>)
        ensures
            r is Some <==> self.ctype() == ColumnType::B32,
            r matches Some(s) ==> *self matches TraceColumn::B32(v) && s@ == v@,
    {
        match self {
            TraceColumn::B32(v) => Some(v.as_slice()),
            _ => None,
        }
    }


    pub fn as_b64_slice(&self) -> (r: Option<&[Flat<Block64>]>)
        ensures
            r is Some <==> self.ctype() == ColumnType::B64,
            r matches Some(s) ==> *self matches TraceColumn::B64(v) && s@ == v@,
    {
        match self {
            TraceColumn::B64(v) => Some(v.as_slice()),
            _ => None,
        }
    }


    pub fn as_b128_slice(&self) -> (r: Option<&[Flat<Block128>]>)
        ensures
            r is Some <==> self.ctype() == ColumnType::B128,
            r matches Some(s) ==> *self matches TraceColumn::B128(v) && s@ == v@,
    {
        match self {
            TraceColumn::B128(v) => Some(v.as_slice()),
            _ => None,
        }
    }

}

/// The cells of a column that keeps the low bits of each of `data`.
pub open spec fn narrowed(data: Seq<Block128>, ct: ColumnType) -> Seq<u128> {
    Seq::new(data.len(), |i: int| ct.stored(low_bits(data[i].0, ct)))
}

/// The bits of `x` a cell of this type has room for; the lowest bit alone
/// for `Bit`.
pub open spec fn low_bits(x: u128, ct: ColumnType) -> u128 {
    match ct {
        ColumnType::Bit => x % 2,
        ColumnType::B8 => x % 0x1_00,
        ColumnType::B16 => x % 0x1_0000,
        ColumnType::B32 => x % 0x1_0000_0000,
        ColumnType::B64 => x % 0x1_0000_0000_0000_0000,
        ColumnType::B128 => x,
    }
}

// ---------------------------------------------------------------
// Traces
// ---------------------------------------------------------------

/// An execution trace: typed columns of one height.
pub trait Trace {
    /// `log2` of the trace height.
    spec fn vars(&self) -> usize;

    spec fn cols(&self) -> Seq<TraceColumn>;

    fn num_vars(&self) -> (r: usize)
        ensures
            r == self.vars(),
    ;

    fn columns(&self) -> (r: &[TraceColumn])
        ensures
            r@ == self.cols(),
    ;

    /// `2^num_vars`.
    fn num_rows(&self) -> (res: Result<usize, errors::Error>)
        ensures
            res is Ok <==> height_fits(self.vars() as nat),
            res matches Ok(n) ==> n as nat == pow2(self.vars() as nat),
            res matches Err(e) ==> is_height_error(e, self.vars()),
    {
        num_rows_from_num_vars(self.num_vars())
    }

    fn num_cols(&self) -> (r: usize)
        ensures
            r == self.cols().len(),
    {
        self.columns().len()
    }

    fn column_layout(&self) -> (r: Vec<ColumnType>)
        ensures
            r@ == layout_of(self.cols()),
    {
        let cols = self.columns();
        let mut out: Vec<ColumnType> = Vec::with_capacity(cols.len());
        for k in 0..cols.len()
            invariant
                cols@ == self.cols(),
                out@ =~= layout_of(self.cols()).take(k as int),
        {
            out.push(cols[k].column_type());
        }
        assert(layout_of(self.cols()).take(cols@.len() as int) =~= layout_of(self.cols()));
        out
    }

    /// One cell, lifted into GF(2^128) in the flat basis. The column index
    /// is checked first, then the height, then the row index.
    fn get_element(&self, col_idx: usize, row_idx: usize) -> (res: Result<
        Flat<Block128>,
        errors::Error,
    >)
        requires
            col_idx < self.cols().len() && row_idx < pow2(self.vars() as nat) ==> row_idx
                < self.cols()[col_idx as int].cells().len(),
        ensures
            res is Ok <==> col_idx < self.cols().len() && height_fits(self.vars() as nat)
                && row_idx < pow2(self.vars() as nat),
            res matches Ok(x) ==> {
                let col = self.cols()[col_idx as int];
                let raw = col.cells()[row_idx as int];
                x.0.0 == col.ctype().lifted(raw) && x@ == col.ctype().element(raw)
            },
            res matches Err(e) ==> {
                if col_idx >= self.cols().len() {
                    e == errors::Error::Trace(
                        Error::ColumnIndexOutOfBounds {
                            col_idx,
                            num_cols: self.cols().len() as usize,
                        },
                    )
                } else if !height_fits(self.vars() as nat) {
                    is_height_error(e, self.vars())
                } else {
                    e == errors::Error::Trace(
                        Error::RowIndexOutOfBounds {
                            row_idx,
                            num_rows: pow2(self.vars() as nat) as usize,
                        },
                    )
                }
            },
    {
        let cols = self.columns();
        let num_cols: usize = self.num_cols();
        if col_idx >= num_cols {
            return Err(
                errors::Error::Trace(Error::ColumnIndexOutOfBounds { col_idx, num_cols }),
            );
        }
        let num_rows: usize = self.num_rows()?;
        if row_idx >= num_rows {
            return Err(errors::Error::Trace(Error::RowIndexOutOfBounds { row_idx, num_rows }));
        }
        Ok(cols[col_idx].lift_at(row_idx))
    }

    /// The cells of one column, where its storage type is `C`.
    fn get_column_slice<C: Cell>(&self, col_idx: usize) -> (res: Result<&[C], errors::Error>)
        ensures
            res is Ok <==> col_idx < self.cols().len() && self.cols()[col_idx as int].ctype()
                == C::kind(),
            res matches Ok(s) ==> s@ == C::stored_in(self.cols()[col_idx as int]),
            res matches Err(e) ==> {
                if col_idx >= self.cols().len() {
                    e == errors::Error::Trace(
                        Error::ColumnIndexOutOfBounds {
                            col_idx,
                            num_cols: self.cols().len() as usize,
                        },
                    )
                } else {
                    e matches errors::Error::Trace(t) && t.is_type_mismatch(
                        col_idx,
                        self.cols()[col_idx as int].ctype().cell_label(),
                        C::label(),
                    )
                }
            },
    {
        let cols = self.columns();
        let num_cols: usize = self.num_cols();
        if col_idx >= num_cols {
            return Err(
                errors::Error::Trace(Error::ColumnIndexOutOfBounds { col_idx, num_cols }),
            );
        }
        match C::slice_of(&cols[col_idx]) {
            Some(s) => Ok(s),
            None => Err(
                errors::Error::Trace(
                    Error::ColumnTypeMismatch {
                        col_idx,
                        expected: cols[col_idx].column_type().cell_name(),
                        got: C::name(),
                    },
                ),
            ),
        }
    }

    /// Every column as a polynomial, read in place.
    fn get_poly_variants(&self) -> (res: Result<Vec<PolyVariant<'_>>, errors::Error>)
        ensures
            res matches Ok(polys) && polys@.len() == self.cols().len() && forall|i: int|
                0 <= i < polys@.len() ==> views_column(#[trigger] polys@[i], self.cols()[i]),
    {
        let cols: &[TraceColumn] = self.columns();
        let mut polys: Vec<PolyVariant<'_>> = Vec::new();
        let mut i: usize = 0;
        while i < cols.len()
            invariant
                i <= cols@.len(),
                cols@ == self.cols(),
                polys@.len() == i,
                forall|k: int|
                    0 <= k < i ==> views_column(#[trigger] polys@[k], self.cols()[k]),
            decreases cols@.len() - i,
        {
            let poly = match &cols[i] {
                TraceColumn::Bit(v) => PolyVariant::BitSlice(v.as_slice()),
                TraceColumn::B8(v) => PolyVariant::B8Slice(v.as_slice()),
                TraceColumn::B16(v) => PolyVariant::B16Slice(v.as_slice()),
                TraceColumn::B32(v) => PolyVariant::B32Slice(v.as_slice()),
                TraceColumn::B64(v) => PolyVariant::B64Slice(v.as_slice()),
                TraceColumn::B128(v) => PolyVariant::B128Slice(v.as_slice()),
            };
            polys.push(poly);
            i = i + 1;
        }
        Ok(polys)
    }
}

/// `poly` can be read at every row of a column, and has the elements that the
/// column stores.
pub open spec fn views_column(poly: PolyVariant<'_>, col: TraceColumn) -> bool {
    &&& poly.size() == col.cells().len()
    &&& poly.wf()
    &&& forall|r: int|
        0 <= r < col.cells().len() ==> #[trigger] poly.at(r) == col.ctype().element(
            col.cells()[r],
        )
}

/// The error for a height of `2^vars` that does not fit a machine word.
pub open spec fn is_height_error(e: errors::Error, vars: usize) -> bool {
    e matches errors::Error::Trace(t) && t.is_invalid(
        if vars > u32::MAX {
            "num_vars too large"@
        } else {
            "num_rows overflow"@
        },
    )
}

/// The storage types of a list of columns.
pub open spec fn layout_of(cols: Seq<TraceColumn>) -> Seq<ColumnType> {
    Seq::new(cols.len(), |i: int| cols[i].ctype())
}

/// Column-major trace storage.
#[derive(Clone, Debug)]
pub struct ColumnTrace {
    pub columns: Vec<TraceColumn>,
    pub num_vars: usize,
}

impl Trace for ColumnTrace {
    open spec fn vars(&self) -> usize {
        self.num_vars
    }

    open spec fn cols(&self) -> Seq<TraceColumn> {
        self.columns@
    }

    fn num_vars(&self) -> (r: usize) {
        self.num_vars
    }

    fn columns(&self) -> (r: &[TraceColumn]) {
        self.columns.as_slice()
    }
}

impl ColumnTrace {
    /// The height fits a machine word and every column has it.
    pub open spec fn wf(&self) -> bool {
        &&& height_fits(self.num_vars as nat)
        &&& forall|c: int|
            0 <= c < self.columns@.len() ==> (#[trigger] self.columns@[c]).cells().len() == pow2(
                self.num_vars as nat,
            )
    }

    pub open spec fn layout(&self) -> Seq<ColumnType> {
        layout_of(self.columns@)
    }

    /// The raw bits of one cell.
    pub open spec fn raw(&self, c: int, r: int) -> u128 {
        self.columns@[c].cells()[r]
    }

    /// The element one cell stores, in the tower basis.
    pub open spec fn at(&self, c: int, r: int) -> u128 {
        self.columns@[c].ctype().element(self.columns@[c].cells()[r])
    }

    /// The elements of one row.
    pub open spec fn row(&self, r: int) -> Seq<u128> {
        Seq::new(self.columns@.len(), |c: int| self.at(c, r))
    }

    /// Overwrites every cell and the number of variables with zero, and drops
    /// the columns.
    pub fn zeroize(&mut self)
        ensures
            final(self).num_vars == 0,
            final(self).columns@.len() == 0,
            final(self).wf(),
    {
        wipe::zero_usize(&mut self.num_vars);
        wipe::zero_spare(&mut self.columns);
        let mut i: usize = 0;
        while i < self.columns.len()
            invariant
                i <= self.columns@.len(),
                self.num_vars == 0,
            decreases self.columns@.len() - i,
        {
            self.columns[i].zeroize();
            i = i + 1;
        }
        self.columns.clear();
    }

    /// A trace of height `2^num_vars` without columns.
    pub fn new(num_vars: usize) -> (res: Result<Self, errors::Error>)
        ensures
            res is Ok <==> height_fits(num_vars as nat),
            res matches Ok(t) ==> t.wf() && t.num_vars == num_vars && t.columns@.len() == 0,
            res matches Err(e) ==> is_height_error(e, num_vars),
    {
        let _ = num_rows_from_num_vars(num_vars)?;
        Ok(ColumnTrace { num_vars, columns: Vec::new() })
    }

    /// The trace's column storage.
    pub fn into_columns(self) -> (r: Vec<TraceColumn>)
        ensures
            r@ == self.columns@,
    {
        self.columns
    }

    /// Appends a column of the trace's height.
    pub fn add_column(&mut self, col: TraceColumn) -> (res: Result<(), errors::Error>)
        ensures
            res is Ok <==> height_fits(old(self).num_vars as nat) && col.cells().len() == pow2(
                old(self).num_vars as nat,
            ),
            res is Ok ==> final(self).columns@ == old(self).columns@.push(col)
                && final(self).num_vars == old(self).num_vars && (old(self).wf() ==> final(self).wf()),
            res matches Err(e) ==> *final(self) == *old(self) && (if height_fits(
                old(self).num_vars as nat,
            ) {
                e == errors::Error::Trace(
                    Error::ColumnLengthMismatch {
                        expected_len: pow2(old(self).num_vars as nat) as usize,
                        got_len: col.cells().len() as usize,
                    },
                )
            } else {
                is_height_error(e, old(self).num_vars)
            }),
    {
        let expected_len: usize = self.num_rows()?;
        let got_len: usize = col.len();
        if got_len != expected_len {
            return Err(
                errors::Error::Trace(Error::ColumnLengthMismatch { expected_len, got_len }),
            );
        }
        self.columns.push(col);
        Ok(())
    }
}

// ---------------------------------------------------------------
// Conversion into columns
// ---------------------------------------------------------------

/// Cell vectors that are a column.
pub trait IntoTraceColumn: Sized {
    /// `col` is the column these cells make.
    spec fn becomes(self, col: TraceColumn) -> bool;

    fn into_trace_column(self) -> (col: TraceColumn)
        ensures
            self.becomes(col),
    ;
}

impl IntoTraceColumn for Vec<Bit> {
    open spec fn becomes(self, col: TraceColumn) -> bool {
        col == TraceColumn::Bit(self)
    }

    fn into_trace_column(self) -> (col: TraceColumn) {
        TraceColumn::Bit(self)
    }
}

impl IntoTraceColumn for Vec<Flat<Block8>> {
    open spec fn becomes(self, col: TraceColumn) -> bool {
        col == TraceColumn::B8(self)
    }

    fn into_trace_column(self) -> (col: TraceColumn) {
        TraceColumn::B8(self)
    }
}

/// Tower elements are converted to the flat basis.
impl IntoTraceColumn for Vec<Block8> {
    open spec fn becomes(self, col: TraceColumn) -> bool {
        col matches TraceColumn::B8(v) && v@.len() == self@.len() && forall|i: int|
            0 <= i < v@.len() ==> (#[trigger] v@[i]).0.0 == elements::flat8(self@[i].0)
                && elements::tower8(v@[i].0.0) == self@[i].0
    }

    fn into_trace_column(self) -> (col: TraceColumn) {
        let mut out: Vec<Flat<Block8>> = Vec::with_capacity(self.len());
        for k in 0..self.len()
            invariant
                out@.len() == k,
                forall|i: int|
                    0 <= i < k ==> (#[trigger] out@[i]).0.0 == elements::flat8(self@[i].0)
                        && elements::tower8(out@[i].0.0) == self@[i].0,
        {
            out.push(self[k].to_hardware());
        }
        TraceColumn::B8(out)
    }
}

impl IntoTraceColumn for Vec<Flat<Block16>> {
    open spec fn becomes(self, col: TraceColumn) -> bool {
        col == TraceColumn::B16(self)
    }

    fn into_trace_column(self) -> (col: TraceColumn) {
        TraceColumn::B16(self)
    }
}

/// Tower elements are converted to the flat basis.
impl IntoTraceColumn for Vec<Block16> {
    open spec fn becomes(self, col: TraceColumn) -> bool {
        col matches TraceColumn::B16(v) && v@.len() == self@.len() && forall|i: int|
            0 <= i < v@.len() ==> (#[trigger] v@[i]).0.0 == elements::flat16(self@[i].0)
                && elements::tower16(v@[i].0.0) == self@[i].0
    }

    fn into_trace_column(self) -> (col: TraceColumn) {
        let mut out: Vec<Flat<Block16>> = Vec::with_capacity(self.len());
        for k in 0..self.len()
            invariant
                out@.len() == k,
                forall|i: int|
                    0 <= i < k ==> (#[trigger] out@[i]).0.0 == elements::flat16(self@[i].0)
                        && elements::tower16(out@[i].0.0) == self@[i].0,
        {
            out.push(self[k].to_hardware());
        }
        TraceColumn::B16(out)
    }
}

impl IntoTraceColumn for Vec<Flat<Block32>> {
    open spec fn becomes(self, col: TraceColumn) -> bool {
        col == TraceColumn::B32(self)
    }

    fn into_trace_column(self) -> (col: TraceColumn) {
        TraceColumn::B32(self)
    }
}

/// Tower elements are converted to the flat basis.
impl IntoTraceColumn for Vec<Block32> {
    open spec fn becomes(self, col: TraceColumn) -> bool {
        col matches TraceColumn::B32(v) && v@.len() == self@.len() && forall|i: int|
            0 <= i < v@.len() ==> (#[trigger] v@[i]).0.0 == elements::flat32(self@[i].0)
                && elements::tower32(v@[i].0.0) == self@[i].0
    }

    fn into_trace_column(self) -> (col: TraceColumn) {
        let mut out: Vec<Flat<Block32>> = Vec::with_capacity(self.len());
        for k in 0..self.len()
            invariant
                out@.len() == k,
                forall|i: int|
                    0 <= i < k ==> (#[trigger] out@[i]).0.0 == elements::flat32(self@[i].0)
                        && elements::tower32(out@[i].0.0) == self@[i].0,
        {
            out.push(self[k].to_hardware());
        }
        TraceColumn::B32(out)
    }
}

impl IntoTraceColumn for Vec<Flat<Block64>> {
    open spec fn becomes(self, col: TraceColumn) -> bool {
        col == TraceColumn::B64(self)
    }

    fn into_trace_column(self) -> (col: TraceColumn) {
        TraceColumn::B64(self)
    }
}

/// Tower elements are converted to the flat basis.
impl IntoTraceColumn for Vec<Block64> {
    open spec fn becomes(self, col: TraceColumn) -> bool {
        col matches TraceColumn::B64(v) && v@.len() == self@.len() && forall|i: int|
            0 <= i < v@.len() ==> (#[trigger] v@[i]).0.0 == elements::flat64(self@[i].0)
                && elements::tower64(v@[i].0.0) == self@[i].0
    }

    fn into_trace_column(self) -> (col: TraceColumn) {
        let mut out: Vec<Flat<Block64>> = Vec::with_capacity(self.len());
        for k in 0..self.len()
            invariant
                out@.len() == k,
                forall|i: int|
                    0 <= i < k ==> (#[trigger] out@[i]).0.0 == elements::flat64(self@[i].0)
                        && elements::tower64(out@[i].0.0) == self@[i].0,
        {
            out.push(self[k].to_hardware());
        }
        TraceColumn::B64(out)
    }
}

impl IntoTraceColumn for Vec<Flat<Block128>> {
    open spec fn becomes(self, col: TraceColumn) -> bool {
        col == TraceColumn::B128(self)
    }

    fn into_trace_column(self) -> (col: TraceColumn) {
        TraceColumn::B128(self)
    }
}

/// Tower elements are converted to the flat basis.
impl IntoTraceColumn for Vec<Block128> {
    open spec fn becomes(self, col: TraceColumn) -> bool {
        col matches TraceColumn::B128(v) && v@.len() == self@.len() && forall|i: int|
            0 <= i < v@.len() ==> (#[trigger] v@[i]).0.0 == elements::flat128(self@[i].0)
                && elements::tower128(v@[i].0.0) == self@[i].0
    }

    fn into_trace_column(self) -> (col: TraceColumn) {
        let mut out: Vec<Flat<Block128>> = Vec::with_capacity(self.len());
        for k in 0..self.len()
            invariant
                out@.len() == k,
                forall|i: int|
                    0 <= i < k ==> (#[trigger] out@[i]).0.0 == elements::flat128(self@[i].0)
                        && elements::tower128(out@[i].0.0) == self@[i].0,
        {
            out.push(self[k].to_hardware());
        }
        TraceColumn::B128(out)
    }
}

// ---------------------------------------------------------------
// Byte views
// ---------------------------------------------------------------

/// The cells' little-endian bytes, one after the other.
pub open spec fn column_bytes(col: TraceColumn, n: nat) -> Seq<u8>
    decreases n,
{
    if n == 0 {
        Seq::empty()
    } else {
        column_bytes(col, (n - 1) as nat) + bytes::le_bytes(
            col.cells()[n - 1] as nat,
            col.ctype().width(),
        )
    }
}

/// The bytes of every column, each with the width of one cell.
pub fn get_col_views(columns: &[TraceColumn]) -> (r: Vec<(Vec<u8>, usize)>)
    ensures
        r@.len() == columns@.len(),
        forall|c: int|
            0 <= c < r@.len() ==> (#[trigger] r@[c]).0@ == column_bytes(
                columns@[c],
                columns@[c].cells().len(),
            ) && r@[c].1 == columns@[c].ctype().width(),
{
    let mut out: Vec<(Vec<u8>, usize)> = Vec::with_capacity(columns.len());
    for c in 0..columns.len()
        invariant
            out@.len() == c,
            forall|j: int|
                0 <= j < c ==> (#[trigger] out@[j]).0@ == column_bytes(
                    columns@[j],
                    columns@[j].cells().len(),
                ) && out@[j].1 == columns@[j].ctype().width(),
    {
        let col = &columns[c];
        let len: usize = col.len();
        let mut buf: Vec<u8> = Vec::new();
        for k in 0..len
            invariant
                len == col.cells().len(),
                buf@ == column_bytes(*col, k as nat),
        {
            col.append_bytes_at(k, &mut buf);
        }
        out.push((buf, col.column_type().byte_size()));
    }
    out
}

// ---------------------------------------------------------------
// Builder
// ---------------------------------------------------------------

/// Fills a trace of a fixed layout. Every column starts zeroed, so rows
/// that are never written are padding.
pub struct TraceBuilder {
    columns: Vec<TraceColumn>,
    num_vars: usize,
    num_rows: usize,
    cursors: Vec<usize>,
}

impl TraceBuilder {
    pub closed spec fn wf(&self) -> bool {
        &&& height_fits(self.num_vars as nat)
        &&& self.num_rows == pow2(self.num_vars as nat)
        &&& self.cursors@.len() == self.columns@.len()
        &&& forall|c: int|
            0 <= c < self.columns@.len() ==> (#[trigger] self.columns@[c]).cells().len()
                == self.num_rows
        &&& forall|c: int|
            0 <= c < self.cursors@.len() ==> #[trigger] self.cursors@[c] <= self.num_rows
    }

    pub closed spec fn layout(&self) -> Seq<ColumnType> {
        layout_of(self.columns@)
    }

    pub closed spec fn vars(&self) -> usize {
        self.num_vars
    }

    pub open spec fn height(&self) -> nat {
        pow2(self.vars() as nat)
    }

    /// The raw bits of one cell.
    pub closed spec fn raw(&self, c: int, r: int) -> u128 {
        self.columns@[c].cells()[r]
    }

    /// The element one cell stores, in the tower basis.
    pub open spec fn at(&self, c: int, r: int) -> u128 {
        self.layout()[c].element(self.raw(c, r))
    }

    /// The elements of one row.
    pub open spec fn row(&self, r: int) -> Seq<u128> {
        Seq::new(self.layout().len(), |c: int| self.at(c, r))
    }

    /// The row the next push into a column writes.
    pub closed spec fn next_row(&self, c: int) -> nat {
        self.cursors@[c] as nat
    }

    /// Cell `(c, r)` is in range.
    pub open spec fn in_range(&self, c: int, r: int) -> bool {
        0 <= c < self.layout().len() && 0 <= r < self.height()
    }

    /// A write to `(col, row)` of a column of type `ct` is accepted.
    pub open spec fn accepts(&self, col: int, row: int, ct: ColumnType) -> bool {
        self.in_range(col, row) && self.layout()[col] == ct
    }

    /// `e` is what a refused write to `(col, row)` as type `ct` reports: the
    /// column index is checked first, then the type, then the row.
    pub open spec fn refuses(
        &self,
        e: errors::Error,
        col: usize,
        row: usize,
        ct: ColumnType,
    ) -> bool {
        if col >= self.layout().len() {
            e == errors::Error::Trace(
                Error::ColumnIndexOutOfBounds {
                    col_idx: col,
                    num_cols: self.layout().len() as usize,
                },
            )
        } else if self.layout()[col as int] != ct {
            e matches errors::Error::Trace(t) && t.is_type_mismatch(
                col,
                ct.label(),
                self.layout()[col as int].label(),
            )
        } else {
            e == errors::Error::Trace(
                Error::RowIndexOutOfBounds { row_idx: row, num_rows: self.height() as usize },
            )
        }
    }

    /// `self` has the shape of `before`, and is well formed.
    pub open spec fn same_shape(&self, before: &TraceBuilder) -> bool {
        &&& self.wf()
        &&& self.layout() == before.layout()
        &&& self.vars() == before.vars()
    }

    /// `self` is `before` with the raw bits of cell `(col, row)` replaced.
    pub open spec fn wrote(&self, before: &TraceBuilder, col: int, row: int, raw: u128) -> bool {
        &&& self.same_shape(before)
        &&& forall|c: int, r: int|
            #![trigger self.raw(c, r)]
            before.in_range(c, r) ==> self.raw(c, r) == (if c == col && r == row {
                raw
            } else {
                before.raw(c, r)
            })
    }

    /// `self` is `before` with the raw bits of row `row`, columns `base` on,
    /// replaced by `raws`.
    pub open spec fn wrote_run(
        &self,
        before: &TraceBuilder,
        base: int,
        row: int,
        raws: Seq<u128>,
    ) -> bool {
        &&& self.same_shape(before)
        &&& forall|c: int, r: int|
            #![trigger self.raw(c, r)]
            before.in_range(c, r) ==> self.raw(c, r) == (if r == row && base <= c < base
                + raws.len() {
                raws[c - base]
            } else {
                before.raw(c, r)
            })
    }

    /// `self` is `before` with the element of cell `(col, row)` replaced.
    pub open spec fn wrote_at(&self, before: &TraceBuilder, col: int, row: int, value: u128) -> bool {
        forall|c: int, r: int|
            #![trigger self.at(c, r)]
            before.in_range(c, r) ==> self.at(c, r) == (if c == col && r == row {
                value
            } else {
                before.at(c, r)
            })
    }

    /// `self` is `before` with the elements of row `row`, columns `base` on,
    /// replaced by `values`.
    pub open spec fn wrote_run_at(
        &self,
        before: &TraceBuilder,
        base: int,
        row: int,
        values: Seq<u128>,
    ) -> bool {
        forall|c: int, r: int|
            #![trigger self.at(c, r)]
            before.in_range(c, r) ==> self.at(c, r) == (if r == row && base <= c < base
                + values.len() {
                values[c - base]
            } else {
                before.at(c, r)
            })
    }

    pub open spec fn same_cursors(&self, before: &TraceBuilder) -> bool {
        forall|c: int|
            0 <= c < before.layout().len() ==> #[trigger] self.next_row(c) == before.next_row(c)
    }

    /// Every cell of the run is accepted.
    pub open spec fn accepts_run(&self, base: int, row: int, n: int, ct: ColumnType) -> bool {
        forall|j: int| 0 <= j < n ==> #[trigger] self.accepts(base + j, row, ct)
    }

    /// What writing a run of cells, left to right until one is refused, does.
    pub open spec fn ran(
        &self,
        before: &TraceBuilder,
        base: usize,
        row: usize,
        ct: ColumnType,
        raws: Seq<u128>,
        res: Result<(), errors::Error>,
    ) -> bool {
        &&& self.same_cursors(before)
        &&& match res {
            Ok(_) => before.accepts_run(base as int, row as int, raws.len() as int, ct)
                && self.wrote_run(before, base as int, row as int, raws),
            Err(e) => exists|k: int|
                #![trigger raws.take(k)]
                {
                    &&& 0 <= k < raws.len()
                    &&& before.accepts_run(base as int, row as int, k, ct)
                    &&& !before.accepts(base + k, row as int, ct)
                    &&& before.refuses(e, (base + k) as usize, row, ct)
                    &&& self.wrote_run(before, base as int, row as int, raws.take(k))
                },
        }
    }

    pub fn new(layout: &[ColumnType], num_vars: usize) -> (res: Result<Self, errors::Error>)
        ensures
            res is Ok <==> height_fits(num_vars as nat),
            res matches Ok(b) ==> b.wf() && b.layout() == layout@ && b.vars() == num_vars && (
            forall|c: int, r: int|
                #![trigger b.raw(c, r)]
                b.in_range(c, r) ==> b.raw(c, r) == 0 && b.at(c, r) == 0) && (forall|c: int|
                0 <= c < layout@.len() ==> #[trigger] b.next_row(c) == 0),
            res matches Err(e) ==> is_height_error(e, num_vars),
    {
        let num_rows: usize = num_rows_from_num_vars(num_vars)?;
        let mut columns: Vec<TraceColumn> = Vec::with_capacity(layout.len());
        let mut cursors: Vec<usize> = Vec::with_capacity(layout.len());
        for k in 0..layout.len()
            invariant
                columns@.len() == k,
                cursors@.len() == k,
                forall|c: int|
                    0 <= c < k ==> (#[trigger] columns@[c]).cells().len() == num_rows
                        && columns@[c].ctype() == layout@[c] && layout@[c].element(0) == 0 && (
                    forall|r: int|
                        0 <= r < num_rows ==> #[trigger] columns@[c].cells()[r] == 0),
                forall|c: int| 0 <= c < k ==> #[trigger] cursors@[c] == 0,
        {
            columns.push(zero_column(layout[k], num_rows));
            cursors.push(0);
        }
        let b = TraceBuilder { columns, num_vars, num_rows, cursors };
        assert(b.layout() =~= layout@);
        Ok(b)
    }

    /// `2^num_vars`.
    pub fn num_rows(&self) -> (r: usize)
        requires
            self.wf(),
        ensures
            r == self.height(),
    {
        self.num_rows
    }

    /// Replaces one cell's raw bits, where column, type and row match.
    fn put(&mut self, col: usize, row: usize, ct: ColumnType, raw: u128) -> (res: Result<
        (),
        errors::Error,
    >)
        requires
            old(self).wf(),
            ct.holds(raw),
        ensures
            res is Ok <==> old(self).accepts(col as int, row as int, ct),
            res is Ok ==> final(self).wrote(old(self), col as int, row as int, raw) && final(self).same_cursors(old(self)),
            res matches Err(e) ==> *final(self) == *old(self) && old(self).refuses(
                e,
                col,
                row,
                ct,
            ),
    {
        if col >= self.columns.len() {
            return Err(
                errors::Error::Trace(
                    Error::ColumnIndexOutOfBounds { col_idx: col, num_cols: self.columns.len() },
                ),
            );
        }
        let found = self.columns[col].column_type();
        if found != ct {
            return Err(
                errors::Error::Trace(
                    Error::ColumnTypeMismatch {
                        col_idx: col,
                        expected: ct.name(),
                        got: found.name(),
                    },
                ),
            );
        }
        if row >= self.num_rows {
            return Err(
                errors::Error::Trace(
                    Error::RowIndexOutOfBounds { row_idx: row, num_rows: self.num_rows },
                ),
            );
        }
        self.columns[col].write_raw(row, raw);
        assert(self.layout() =~= old(self).layout());
        Ok(())
    }

    fn cursor(&self, col: usize) -> (res: Result<usize, errors::Error>)
        requires
            self.wf(),
        ensures
            res is Ok <==> col < self.layout().len(),
            res matches Ok(row) ==> row == self.next_row(col as int) && row <= self.height(),
            res matches Err(e) ==> forall|row: usize, ct: ColumnType| #[trigger]
                self.refuses(e, col, row, ct),
    {
        if col < self.cursors.len() {
            Ok(self.cursors[col])
        } else {
            Err(
                errors::Error::Trace(
                    Error::ColumnIndexOutOfBounds { col_idx: col, num_cols: self.columns.len() },
                ),
            )
        }
    }

    /// Moves a column's cursor to the row after `row`.
    fn advance(&mut self, col: usize, row: usize)
        requires
            old(self).wf(),
            old(self).in_range(col as int, row as int),
        ensures
            final(self).same_shape(old(self)),
            forall|c: int, r: int|
                #![trigger final(self).raw(c, r)]
                final(self).raw(c, r) == old(self).raw(c, r),
            forall|c: int|
                0 <= c < old(self).layout().len() ==> #[trigger] final(self).next_row(c) == (if c
                    == col {
                    row as nat + 1
                } else {
                    old(self).next_row(c)
                }),
    {
        self.cursors[col] = row + 1;
    }

    /// `self` is `before` after a push of `raw` into a column.
    pub open spec fn pushed(&self, before: &TraceBuilder, col: int, raw: u128) -> bool {
        &&& self.wrote(before, col, before.next_row(col) as int, raw)
        &&& forall|c: int|
            0 <= c < before.layout().len() ==> #[trigger] self.next_row(c) == (if c == col {
                before.next_row(col) + 1
            } else {
                before.next_row(c)
            })
    }

    pub fn set_bit(&mut self, col: usize, row: usize, val: Bit) -> (res: Result<(), errors::Error>)
        requires
            old(self).wf(),
        ensures
            res is Ok <==> old(self).accepts(col as int, row as int, ColumnType::Bit),
            res is Ok ==> final(self).wrote(old(self), col as int, row as int, val.0 as u128)
                && final(self).same_cursors(old(self)) && final(self).wrote_at(
                old(self),
                col as int,
                row as int,
                ColumnType::Bit.element(val.0 as u128),
            ),
            res matches Err(e) ==> *final(self) == *old(self) && old(self).refuses(
                e,
                col,
                row,
                ColumnType::Bit,
            ),
    {
        proof {
            bytes::lemma_byte_pow_values();
        }
        self.put(col, row, ColumnType::Bit, val.0 as u128)
    }

    pub fn push_bit(&mut self, col: usize, val: Bit) -> (res: Result<(), errors::Error>)
        requires
            old(self).wf(),
        ensures
            res is Ok <==> old(self).accepts(
                col as int,
                old(self).next_row(col as int) as int,
                ColumnType::Bit,
            ),
            res is Ok ==> final(self).pushed(old(self), col as int, val.0 as u128),
            res matches Err(e) ==> *final(self) == *old(self) && old(self).refuses(
                e,
                col,
                old(self).next_row(col as int) as usize,
                ColumnType::Bit,
            ),
    {
        let row: usize = self.cursor(col)?;
        self.set_bit(col, row, val)?;
        self.advance(col, row);
        Ok(())
    }

    /// Writes a row's cells from column `base` on.
    pub fn set_bit_array(&mut self, base: usize, row: usize, values: &[Bit]) -> (res: Result<
        (),
        errors::Error,
    >)
        requires
            old(self).wf(),
        ensures
            final(self).ran(
                old(self),
                base,
                row,
                ColumnType::Bit,
                raws_bit(values@),
                res,
            ),
            res is Ok ==> final(self).wrote_run_at(
                old(self),
                base as int,
                row as int,
                elements_bit(values@),
            ),
    {
        let ghost raws = raws_bit(values@);
        let ghost vals = elements_bit(values@);
        assert(raws.take(0) =~= Seq::<u128>::empty());
        assert(self.wrote_run(old(self), base as int, row as int, raws.take(0)));
        for k in 0..values.len()
            invariant
                self.wf(),
                old(self).wf(),
                raws == raws_bit(values@),
                self.same_cursors(old(self)),
                old(self).accepts_run(base as int, row as int, k as int, ColumnType::Bit),
                self.wrote_run(old(self), base as int, row as int, raws.take(k as int)),
                vals == elements_bit(values@),
                self.wrote_run_at(old(self), base as int, row as int, vals.take(k as int)),
        {
            proof {
                if k > 0 {
                    assert(old(self).accepts(base + (k - 1), row as int, ColumnType::Bit));
                    lemma_layout_len(old(self));
                }
            }
            match self.set_bit(base + k, row, values[k]) {
                Ok(_) => {
                    proof {
                        assert(raws.take(k + 1) =~= raws.take(k as int).push(raws[k as int]));
                        assert forall|j: int| 0 <= j < k + 1 implies #[trigger] old(self).accepts(
                            base + j,
                            row as int,
                            ColumnType::Bit,
                        ) by {
                            if j == k {
                            }
                        }
                        assert(vals.take(k + 1) =~= vals.take(k as int).push(vals[k as int]));
                    }
                },
                Err(e) => {
                    return Err(e);
                },
            }
        }
        assert(raws.take(values@.len() as int) =~= raws);
        assert(vals.take(values@.len() as int) =~= vals);
        Ok(())
    }

    pub fn set_b8(&mut self, col: usize, row: usize, val: Block8) -> (res: Result<(), errors::Error>)
        requires
            old(self).wf(),
        ensures
            res is Ok <==> old(self).accepts(col as int, row as int, ColumnType::B8),
            res is Ok ==> final(self).wrote(old(self), col as int, row as int, ColumnType::B8.stored(val.0 as u128))
                && final(self).same_cursors(old(self)) && final(self).wrote_at(
                old(self),
                col as int,
                row as int,
                val.0 as u128,
            ),
            res matches Err(e) ==> *final(self) == *old(self) && old(self).refuses(
                e,
                col,
                row,
                ColumnType::B8,
            ),
    {
        proof {
            bytes::lemma_byte_pow_values();
        }
        self.put(col, row, ColumnType::B8, val.to_hardware().0.0 as u128)
    }

    pub fn push_b8(&mut self, col: usize, val: Block8) -> (res: Result<(), errors::Error>)
        requires
            old(self).wf(),
        ensures
            res is Ok <==> old(self).accepts(
                col as int,
                old(self).next_row(col as int) as int,
                ColumnType::B8,
            ),
            res is Ok ==> final(self).pushed(old(self), col as int, ColumnType::B8.stored(val.0 as u128)),
            res matches Err(e) ==> *final(self) == *old(self) && old(self).refuses(
                e,
                col,
                old(self).next_row(col as int) as usize,
                ColumnType::B8,
            ),
    {
        let row: usize = self.cursor(col)?;
        self.set_b8(col, row, val)?;
        self.advance(col, row);
        Ok(())
    }

    /// Writes a row's cells from column `base` on.
    pub fn set_b8_array(&mut self, base: usize, row: usize, values: &[Block8]) -> (res: Result<
        (),
        errors::Error,
    >)
        requires
            old(self).wf(),
        ensures
            final(self).ran(
                old(self),
                base,
                row,
                ColumnType::B8,
                raws_b8(values@),
                res,
            ),
            res is Ok ==> final(self).wrote_run_at(
                old(self),
                base as int,
                row as int,
                elements_b8(values@),
            ),
    {
        let ghost raws = raws_b8(values@);
        let ghost vals = elements_b8(values@);
        assert(raws.take(0) =~= Seq::<u128>::empty());
        assert(self.wrote_run(old(self), base as int, row as int, raws.take(0)));
        for k in 0..values.len()
            invariant
                self.wf(),
                old(self).wf(),
                raws == raws_b8(values@),
                self.same_cursors(old(self)),
                old(self).accepts_run(base as int, row as int, k as int, ColumnType::B8),
                self.wrote_run(old(self), base as int, row as int, raws.take(k as int)),
                vals == elements_b8(values@),
                self.wrote_run_at(old(self), base as int, row as int, vals.take(k as int)),
        {
            proof {
                if k > 0 {
                    assert(old(self).accepts(base + (k - 1), row as int, ColumnType::B8));
                    lemma_layout_len(old(self));
                }
            }
            match self.set_b8(base + k, row, values[k]) {
                Ok(_) => {
                    proof {
                        assert(raws.take(k + 1) =~= raws.take(k as int).push(raws[k as int]));
                        assert forall|j: int| 0 <= j < k + 1 implies #[trigger] old(self).accepts(
                            base + j,
                            row as int,
                            ColumnType::B8,
                        ) by {
                            if j == k {
                            }
                        }
                        assert(vals.take(k + 1) =~= vals.take(k as int).push(vals[k as int]));
                    }
                },
                Err(e) => {
                    return Err(e);
                },
            }
        }
        assert(raws.take(values@.len() as int) =~= raws);
        assert(vals.take(values@.len() as int) =~= vals);
        Ok(())
    }

    pub fn set_b16(&mut self, col: usize, row: usize, val: Block16) -> (res: Result<(), errors::Error>)
        requires
            old(self).wf(),
        ensures
            res is Ok <==> old(self).accepts(col as int, row as int, ColumnType::B16),
            res is Ok ==> final(self).wrote(old(self), col as int, row as int, ColumnType::B16.stored(val.0 as u128))
                && final(self).same_cursors(old(self)) && final(self).wrote_at(
                old(self),
                col as int,
                row as int,
                val.0 as u128,
            ),
            res matches Err(e) ==> *final(self) == *old(self) && old(self).refuses(
                e,
                col,
                row,
                ColumnType::B16,
            ),
    {
        proof {
            bytes::lemma_byte_pow_values();
        }
        self.put(col, row, ColumnType::B16, val.to_hardware().0.0 as u128)
    }

    pub fn push_b16(&mut self, col: usize, val: Block16) -> (res: Result<(), errors::Error>)
        requires
            old(self).wf(),
        ensures
            res is Ok <==> old(self).accepts(
                col as int,
                old(self).next_row(col as int) as int,
                ColumnType::B16,
            ),
            res is Ok ==> final(self).pushed(old(self), col as int, ColumnType::B16.stored(val.0 as u128)),
            res matches Err(e) ==> *final(self) == *old(self) && old(self).refuses(
                e,
                col,
                old(self).next_row(col as int) as usize,
                ColumnType::B16,
            ),
    {
        let row: usize = self.cursor(col)?;
        self.set_b16(col, row, val)?;
        self.advance(col, row);
        Ok(())
    }

    /// Writes a row's cells from column `base` on.
    pub fn set_b16_array(&mut self, base: usize, row: usize, values: &[Block16]) -> (res: Result<
        (),
        errors::Error,
    >)
        requires
            old(self).wf(),
        ensures
            final(self).ran(
                old(self),
                base,
                row,
                ColumnType::B16,
                raws_b16(values@),
                res,
            ),
            res is Ok ==> final(self).wrote_run_at(
                old(self),
                base as int,
                row as int,
                elements_b16(values@),
            ),
    {
        let ghost raws = raws_b16(values@);
        let ghost vals = elements_b16(values@);
        assert(raws.take(0) =~= Seq::<u128>::empty());
        assert(self.wrote_run(old(self), base as int, row as int, raws.take(0)));
        for k in 0..values.len()
            invariant
                self.wf(),
                old(self).wf(),
                raws == raws_b16(values@),
                self.same_cursors(old(self)),
                old(self).accepts_run(base as int, row as int, k as int, ColumnType::B16),
                self.wrote_run(old(self), base as int, row as int, raws.take(k as int)),
                vals == elements_b16(values@),
                self.wrote_run_at(old(self), base as int, row as int, vals.take(k as int)),
        {
            proof {
                if k > 0 {
                    assert(old(self).accepts(base + (k - 1), row as int, ColumnType::B16));
                    lemma_layout_len(old(self));
                }
            }
            match self.set_b16(base + k, row, values[k]) {
                Ok(_) => {
                    proof {
                        assert(raws.take(k + 1) =~= raws.take(k as int).push(raws[k as int]));
                        assert forall|j: int| 0 <= j < k + 1 implies #[trigger] old(self).accepts(
                            base + j,
                            row as int,
                            ColumnType::B16,
                        ) by {
                            if j == k {
                            }
                        }
                        assert(vals.take(k + 1) =~= vals.take(k as int).push(vals[k as int]));
                    }
                },
                Err(e) => {
                    return Err(e);
                },
            }
        }
        assert(raws.take(values@.len() as int) =~= raws);
        assert(vals.take(values@.len() as int) =~= vals);
        Ok(())
    }

    pub fn set_b32(&mut self, col: usize, row: usize, val: Block32) -> (res: Result<(), errors::Error>)
        requires
            old(self).wf(),
        ensures
            res is Ok <==> old(self).accepts(col as int, row as int, ColumnType::B32),
            res is Ok ==> final(self).wrote(old(self), col as int, row as int, ColumnType::B32.stored(val.0 as u128))
                && final(self).same_cursors(old(self)) && final(self).wrote_at(
                old(self),
                col as int,
                row as int,
                val.0 as u128,
            ),
            res matches Err(e) ==> *final(self) == *old(self) && old(self).refuses(
                e,
                col,
                row,
                ColumnType::B32,
            ),
    {
        proof {
            bytes::lemma_byte_pow_values();
        }
        self.put(col, row, ColumnType::B32, val.to_hardware().0.0 as u128)
    }

    pub fn push_b32(&mut self, col: usize, val: Block32) -> (res: Result<(), errors::Error>)
        requires
            old(self).wf(),
        ensures
            res is Ok <==> old(self).accepts(
                col as int,
                old(self).next_row(col as int) as int,
                ColumnType::B32,
            ),
            res is Ok ==> final(self).pushed(old(self), col as int, ColumnType::B32.stored(val.0 as u128)),
            res matches Err(e) ==> *final(self) == *old(self) && old(self).refuses(
                e,
                col,
                old(self).next_row(col as int) as usize,
                ColumnType::B32,
            ),
    {
        let row: usize = self.cursor(col)?;
        self.set_b32(col, row, val)?;
        self.advance(col, row);
        Ok(())
    }

    /// Writes a row's cells from column `base` on.
    pub fn set_b32_array(&mut self, base: usize, row: usize, values: &[Block32]) -> (res: Result<
        (),
        errors::Error,
    >)
        requires
            old(self).wf(),
        ensures
            final(self).ran(
                old(self),
                base,
                row,
                ColumnType::B32,
                raws_b32(values@),
                res,
            ),
            res is Ok ==> final(self).wrote_run_at(
                old(self),
                base as int,
                row as int,
                elements_b32(values@),
            ),
    {
        let ghost raws = raws_b32(values@);
        let ghost vals = elements_b32(values@);
        assert(raws.take(0) =~= Seq::<u128>::empty());
        assert(self.wrote_run(old(self), base as int, row as int, raws.take(0)));
        for k in 0..values.len()
            invariant
                self.wf(),
                old(self).wf(),
                raws == raws_b32(values@),
                self.same_cursors(old(self)),
                old(self).accepts_run(base as int, row as int, k as int, ColumnType::B32),
                self.wrote_run(old(self), base as int, row as int, raws.take(k as int)),
                vals == elements_b32(values@),
                self.wrote_run_at(old(self), base as int, row as int, vals.take(k as int)),
        {
            proof {
                if k > 0 {
                    assert(old(self).accepts(base + (k - 1), row as int, ColumnType::B32));
                    lemma_layout_len(old(self));
                }
            }
            match self.set_b32(base + k, row, values[k]) {
                Ok(_) => {
                    proof {
                        assert(raws.take(k + 1) =~= raws.take(k as int).push(raws[k as int]));
                        assert forall|j: int| 0 <= j < k + 1 implies #[trigger] old(self).accepts(
                            base + j,
                            row as int,
                            ColumnType::B32,
                        ) by {
                            if j == k {
                            }
                        }
                        assert(vals.take(k + 1) =~= vals.take(k as int).push(vals[k as int]));
                    }
                },
                Err(e) => {
                    return Err(e);
                },
            }
        }
        assert(raws.take(values@.len() as int) =~= raws);
        assert(vals.take(values@.len() as int) =~= vals);
        Ok(())
    }

    pub fn set_b64(&mut self, col: usize, row: usize, val: Block64) -> (res: Result<(), errors::Error>)
        requires
            old(self).wf(),
        ensures
            res is Ok <==> old(self).accepts(col as int, row as int, ColumnType::B64),
            res is Ok ==> final(self).wrote(old(self), col as int, row as int, ColumnType::B64.stored(val.0 as u128))
                && final(self).same_cursors(old(self)) && final(self).wrote_at(
                old(self),
                col as int,
                row as int,
                val.0 as u128,
            ),
            res matches Err(e) ==> *final(self) == *old(self) && old(self).refuses(
                e,
                col,
                row,
                ColumnType::B64,
            ),
    {
        proof {
            bytes::lemma_byte_pow_values();
        }
        self.put(col, row, ColumnType::B64, val.to_hardware().0.0 as u128)
    }

    pub fn push_b64(&mut self, col: usize, val: Block64) -> (res: Result<(), errors::Error>)
        requires
            old(self).wf(),
        ensures
            res is Ok <==> old(self).accepts(
                col as int,
                old(self).next_row(col as int) as int,
                ColumnType::B64,
            ),
            res is Ok ==> final(self).pushed(old(self), col as int, ColumnType::B64.stored(val.0 as u128)),
            res matches Err(e) ==> *final(self) == *old(self) && old(self).refuses(
                e,
                col,
                old(self).next_row(col as int) as usize,
                ColumnType::B64,
            ),
    {
        let row: usize = self.cursor(col)?;
        self.set_b64(col, row, val)?;
        self.advance(col, row);
        Ok(())
    }

    /// Writes a row's cells from column `base` on.
    pub fn set_b64_array(&mut self, base: usize, row: usize, values: &[Block64]) -> (res: Result<
        (),
        errors::Error,
    >)
        requires
            old(self).wf(),
        ensures
            final(self).ran(
                old(self),
                base,
                row,
                ColumnType::B64,
                raws_b64(values@),
                res,
            ),
            res is Ok ==> final(self).wrote_run_at(
                old(self),
                base as int,
                row as int,
                elements_b64(values@),
            ),
    {
        let ghost raws = raws_b64(values@);
        let ghost vals = elements_b64(values@);
        assert(raws.take(0) =~= Seq::<u128>::empty());
        assert(self.wrote_run(old(self), base as int, row as int, raws.take(0)));
        for k in 0..values.len()
            invariant
                self.wf(),
                old(self).wf(),
                raws == raws_b64(values@),
                self.same_cursors(old(self)),
                old(self).accepts_run(base as int, row as int, k as int, ColumnType::B64),
                self.wrote_run(old(self), base as int, row as int, raws.take(k as int)),
                vals == elements_b64(values@),
                self.wrote_run_at(old(self), base as int, row as int, vals.take(k as int)),
        {
            proof {
                if k > 0 {
                    assert(old(self).accepts(base + (k - 1), row as int, ColumnType::B64));
                    lemma_layout_len(old(self));
                }
            }
            match self.set_b64(base + k, row, values[k]) {
                Ok(_) => {
                    proof {
                        assert(raws.take(k + 1) =~= raws.take(k as int).push(raws[k as int]));
                        assert forall|j: int| 0 <= j < k + 1 implies #[trigger] old(self).accepts(
                            base + j,
                            row as int,
                            ColumnType::B64,
                        ) by {
                            if j == k {
                            }
                        }
                        assert(vals.take(k + 1) =~= vals.take(k as int).push(vals[k as int]));
                    }
                },
                Err(e) => {
                    return Err(e);
                },
            }
        }
        assert(raws.take(values@.len() as int) =~= raws);
        assert(vals.take(values@.len() as int) =~= vals);
        Ok(())
    }

    pub fn set_b128(&mut self, col: usize, row: usize, val: Block128) -> (res: Result<(), errors::Error>)
        requires
            old(self).wf(),
        ensures
            res is Ok <==> old(self).accepts(col as int, row as int, ColumnType::B128),
            res is Ok ==> final(self).wrote(old(self), col as int, row as int, ColumnType::B128.stored(val.0 as u128))
                && final(self).same_cursors(old(self)) && final(self).wrote_at(
                old(self),
                col as int,
                row as int,
                val.0 as u128,
            ),
            res matches Err(e) ==> *final(self) == *old(self) && old(self).refuses(
                e,
                col,
                row,
                ColumnType::B128,
            ),
    {
        proof {
            bytes::lemma_byte_pow_values();
        }
        self.put(col, row, ColumnType::B128, val.to_hardware().0.0 as u128)
    }

    /// Writes a cell that is already in the flat basis.
    pub fn set_b128_flat(&mut self, col: usize, row: usize, val: Flat<Block128>) -> (res: Result<
        (),
        errors::Error,
    >)
        requires
            old(self).wf(),
        ensures
            res is Ok <==> old(self).accepts(col as int, row as int, ColumnType::B128),
            res is Ok ==> final(self).wrote(old(self), col as int, row as int, val.0.0)
                && final(self).same_cursors(old(self)) && final(self).wrote_at(
                old(self),
                col as int,
                row as int,
                val@,
            ),
            res matches Err(e) ==> *final(self) == *old(self) && old(self).refuses(
                e,
                col,
                row,
                ColumnType::B128,
            ),
    {
        proof {
            bytes::lemma_byte_pow_values();
        }
        self.put(col, row, ColumnType::B128, val.0.0)
    }

    pub fn push_b128(&mut self, col: usize, val: Block128) -> (res: Result<(), errors::Error>)
        requires
            old(self).wf(),
        ensures
            res is Ok <==> old(self).accepts(
                col as int,
                old(self).next_row(col as int) as int,
                ColumnType::B128,
            ),
            res is Ok ==> final(self).pushed(old(self), col as int, ColumnType::B128.stored(val.0 as u128)),
            res matches Err(e) ==> *final(self) == *old(self) && old(self).refuses(
                e,
                col,
                old(self).next_row(col as int) as usize,
                ColumnType::B128,
            ),
    {
        let row: usize = self.cursor(col)?;
        self.set_b128(col, row, val)?;
        self.advance(col, row);
        Ok(())
    }

    /// Writes a row's cells from column `base` on.
    pub fn set_b128_array(&mut self, base: usize, row: usize, values: &[Block128]) -> (res: Result<
        (),
        errors::Error,
    >)
        requires
            old(self).wf(),
        ensures
            final(self).ran(
                old(self),
                base,
                row,
                ColumnType::B128,
                raws_b128(values@),
                res,
            ),
            res is Ok ==> final(self).wrote_run_at(
                old(self),
                base as int,
                row as int,
                elements_b128(values@),
            ),
    {
        let ghost raws = raws_b128(values@);
        let ghost vals = elements_b128(values@);
        assert(raws.take(0) =~= Seq::<u128>::empty());
        assert(self.wrote_run(old(self), base as int, row as int, raws.take(0)));
        for k in 0..values.len()
            invariant
                self.wf(),
                old(self).wf(),
                raws == raws_b128(values@),
                self.same_cursors(old(self)),
                old(self).accepts_run(base as int, row as int, k as int, ColumnType::B128),
                self.wrote_run(old(self), base as int, row as int, raws.take(k as int)),
                vals == elements_b128(values@),
                self.wrote_run_at(old(self), base as int, row as int, vals.take(k as int)),
        {
            proof {
                if k > 0 {
                    assert(old(self).accepts(base + (k - 1), row as int, ColumnType::B128));
                    lemma_layout_len(old(self));
                }
            }
            match self.set_b128(base + k, row, values[k]) {
                Ok(_) => {
                    proof {
                        assert(raws.take(k + 1) =~= raws.take(k as int).push(raws[k as int]));
                        assert forall|j: int| 0 <= j < k + 1 implies #[trigger] old(self).accepts(
                            base + j,
                            row as int,
                            ColumnType::B128,
                        ) by {
                            if j == k {
                            }
                        }
                        assert(vals.take(k + 1) =~= vals.take(k as int).push(vals[k as int]));
                    }
                },
                Err(e) => {
                    return Err(e);
                },
            }
        }
        assert(raws.take(values@.len() as int) =~= raws);
        assert(vals.take(values@.len() as int) =~= vals);
        Ok(())
    }

    /// Writes one into rows `[0, active_rows)` of a `Bit` column; the tail
    /// stays as it is.
    pub fn fill_selector(&mut self, col: usize, active_rows: usize) -> (res: Result<
        (),
        errors::Error,
    >)
        requires
            old(self).wf(),
        ensures
            res is Ok <==> col < old(self).layout().len() && old(self).layout()[col as int]
                == ColumnType::Bit,
            res is Ok ==> final(self).same_shape(old(self)) && final(self).same_cursors(old(self))
                && (forall|c: int, r: int|
                #![trigger final(self).raw(c, r)]
                old(self).in_range(c, r) ==> final(self).raw(c, r) == (if c == col && r
                    < active_rows {
                    1
                } else {
                    old(self).raw(c, r)
                })) && (forall|c: int, r: int|
                #![trigger final(self).at(c, r)]
                old(self).in_range(c, r) ==> final(self).at(c, r) == (if c == col && r
                    < active_rows {
                    1
                } else {
                    old(self).at(c, r)
                })),
            res matches Err(e) ==> *final(self) == *old(self) && old(self).refuses(
                e,
                col,
                0,
                ColumnType::Bit,
            ),
    {
        let limit: usize = if active_rows < self.num_rows {
            active_rows
        } else {
            self.num_rows
        };
        if limit == 0 {
            proof {
                lemma_pow2_pos(self.num_vars as nat);
            }
            if col >= self.columns.len() {
                return Err(
                    errors::Error::Trace(
                        Error::ColumnIndexOutOfBounds {
                            col_idx: col,
                            num_cols: self.columns.len(),
                        },
                    ),
                );
            }
            let found = self.columns[col].column_type();
            if found != ColumnType::Bit {
                return Err(
                    errors::Error::Trace(
                        Error::ColumnTypeMismatch {
                            col_idx: col,
                            expected: "Bit",
                            got: found.name(),
                        },
                    ),
                );
            }
        }
        for k in 0..limit
            invariant
                self.wf(),
                limit <= old(self).height(),
                limit <= active_rows,
                self.same_shape(old(self)),
                self.same_cursors(old(self)),
                k > 0 ==> col < old(self).layout().len() && old(self).layout()[col as int]
                    == ColumnType::Bit,
                k == 0 ==> *self == *old(self),
                forall|c: int, r: int|
                    #![trigger self.raw(c, r)]
                    old(self).in_range(c, r) ==> self.raw(c, r) == (if c == col && r < k {
                        1
                    } else {
                        old(self).raw(c, r)
                    }),
        {
            self.set_bit(col, k, Bit(1))?;
        }
        Ok(())
    }

    /// The filled trace, its columns in layout order.
    pub fn build(self) -> (t: ColumnTrace)
        requires
            self.wf(),
        ensures
            t.wf(),
            t.num_vars == self.vars(),
            t.layout() == self.layout(),
            forall|c: int, r: int| #[trigger] t.raw(c, r) == self.raw(c, r),
            forall|c: int, r: int| 0 <= c < t.layout().len() ==> #[trigger] t.at(c, r) == self.at(c, r),
    {
        ColumnTrace { columns: self.columns, num_vars: self.num_vars }
    }
}

proof fn lemma_layout_len(b: &TraceBuilder)
    ensures
        b.layout().len() <= usize::MAX,
{
    assert(b.columns.len() <= usize::MAX);
}

/// The elements `Bit` cells with these values store.
pub open spec fn elements_bit(values: Seq<Bit>) -> Seq<u128> {
    Seq::new(values.len(), |i: int| ColumnType::Bit.element(values[i].0 as u128))
}

/// The raw bits `Bit` cells with these values store.
pub open spec fn raws_bit(values: Seq<Bit>) -> Seq<u128> {
    Seq::new(values.len(), |i: int| values[i].0 as u128)
}

/// The elements `B8` cells with these values store.
pub open spec fn elements_b8(values: Seq<Block8>) -> Seq<u128> {
    Seq::new(values.len(), |i: int| values[i].0 as u128)
}

/// The raw bits `B8` cells with these values store.
pub open spec fn raws_b8(values: Seq<Block8>) -> Seq<u128> {
    Seq::new(values.len(), |i: int| ColumnType::B8.stored(values[i].0 as u128))
}

/// The elements `B16` cells with these values store.
pub open spec fn elements_b16(values: Seq<Block16>) -> Seq<u128> {
    Seq::new(values.len(), |i: int| values[i].0 as u128)
}

/// The raw bits `B16` cells with these values store.
pub open spec fn raws_b16(values: Seq<Block16>) -> Seq<u128> {
    Seq::new(values.len(), |i: int| ColumnType::B16.stored(values[i].0 as u128))
}

/// The elements `B32` cells with these values store.
pub open spec fn elements_b32(values: Seq<Block32>) -> Seq<u128> {
    Seq::new(values.len(), |i: int| values[i].0 as u128)
}

/// The raw bits `B32` cells with these values store.
pub open spec fn raws_b32(values: Seq<Block32>) -> Seq<u128> {
    Seq::new(values.len(), |i: int| ColumnType::B32.stored(values[i].0 as u128))
}

/// The elements `B64` cells with these values store.
pub open spec fn elements_b64(values: Seq<Block64>) -> Seq<u128> {
    Seq::new(values.len(), |i: int| values[i].0 as u128)
}

/// The raw bits `B64` cells with these values store.
pub open spec fn raws_b64(values: Seq<Block64>) -> Seq<u128> {
    Seq::new(values.len(), |i: int| ColumnType::B64.stored(values[i].0 as u128))
}

/// The elements `B128` cells with these values store.
pub open spec fn elements_b128(values: Seq<Block128>) -> Seq<u128> {
    Seq::new(values.len(), |i: int| values[i].0 as u128)
}

/// The raw bits `B128` cells with these values store.
pub open spec fn raws_b128(values: Seq<Block128>) -> Seq<u128> {
    Seq::new(values.len(), |i: int| ColumnType::B128.stored(values[i].0 as u128))
}

/// A zeroed column.
fn zero_column(ct: ColumnType, num_rows: usize) -> (col: TraceColumn)
    ensures
        col.ctype() == ct,
        col.cells().len() == num_rows,
        forall|r: int| 0 <= r < num_rows ==> #[trigger] col.cells()[r] == 0,
        ct.element(0) == 0,
{
    match ct {
        ColumnType::Bit => TraceColumn::Bit(vec![Bit(0);num_rows]),

        ColumnType::B8 => TraceColumn::B8(vec![Block8(0).to_hardware();num_rows]),

        ColumnType::B16 => TraceColumn::B16(vec![Block16(0).to_hardware();num_rows]),

        ColumnType::B32 => TraceColumn::B32(vec![Block32(0).to_hardware();num_rows]),

        ColumnType::B64 => TraceColumn::B64(vec![Block64(0).to_hardware();num_rows]),

        ColumnType::B128 => TraceColumn::B128(vec![Block128(0).to_hardware();num_rows]),

    }
}

// ---------------------------------------------------------------
// Laws
// ---------------------------------------------------------------

/// What a cell's bytes parse back to is the element the cell stores.
pub proof fn law_wire_round_trip(col: TraceColumn, row: int)
    requires
        0 <= row < col.cells().len(),
    ensures
        ({
            let ct = col.ctype();
            let raw = col.cells()[row];
            let wire = bytes::le_bytes(raw as nat, ct.width());
            wire.len() == ct.width() && ct.lifted(
                bytes::le_value(wire.take(ct.width() as int)) as u128,
            ) == ct.lifted(raw)
        }),
{
    let ct = col.ctype();
    let raw = col.cells()[row];
    let wire = bytes::le_bytes(raw as nat, ct.width());
    bytes::lemma_byte_pow_values();
    bytes::lemma_le_bytes_len(raw as nat, ct.width());
    assert(wire.take(ct.width() as int) =~= wire);
    bytes::law_le_round_trip(raw as nat, ct.width());
}

/// Every row of a column takes the same number of bytes.
pub proof fn law_column_bytes_len(col: TraceColumn, n: nat)
    ensures
        column_bytes(col, n).len() == n * col.ctype().width(),
    decreases n,
{
    if n > 0 {
        let w = col.ctype().width();
        law_column_bytes_len(col, (n - 1) as nat);
        bytes::lemma_le_bytes_len(col.cells()[n - 1] as nat, w);
        assert((n - 1) * w + w == n * w) by (nonlinear_arith);
    }
}

/// The bytes of a column are its cells in order: byte `k` of cell `r` is the
/// digit of weight `256^k` of what is stored there.
pub proof fn law_wire_layout(col: TraceColumn, n: nat, r: int, k: nat)
    requires
        0 <= r < n,
        k < col.ctype().width(),
    ensures
        0 <= r * col.ctype().width() + k < column_bytes(col, n).len(),
        column_bytes(col, n)[r * col.ctype().width() + k] == (col.cells()[r] as nat / pow(
            256,
            k,
        ) as nat)
            % 256,
    decreases n,
{
    let w = col.ctype().width();
    let m = (n - 1) as nat;
    law_column_bytes_len(col, n);
    law_column_bytes_len(col, m);
    assert(0 <= r * w + k < n * w) by (nonlinear_arith)
        requires
            0 <= r < n,
            0 <= k < w,
    ;
    bytes::law_le_digits(col.cells()[n - 1] as nat, w, k);
    if r < m {
        law_wire_layout(col, m, r, k);
    } else {
        assert(r * w == m * w);
    }
}

/// Pushes fill a column from the row that is next, one row each, and touch
/// nothing else.
pub proof fn law_pushes_fill_rows(
    a: &TraceBuilder,
    b: &TraceBuilder,
    c: &TraceBuilder,
    col: int,
    x: u128,
    y: u128,
    other: int,
    row: int,
)
    requires
        b.pushed(a, col, x),
        c.pushed(b, col, y),
        a.in_range(col, a.next_row(col) as int),
        a.in_range(col, (a.next_row(col) + 1) as int),
        a.in_range(other, row),
    ensures
        c.raw(col, a.next_row(col) as int) == x,
        c.raw(col, (a.next_row(col) + 1) as int) == y,
        c.next_row(col) == a.next_row(col) + 2,
        other != col ==> c.raw(other, row) == a.raw(other, row) && c.next_row(other) == a.next_row(
            other,
        ),
        other == col && row != a.next_row(col) && row != a.next_row(col) + 1 ==> c.raw(other, row)
            == a.raw(other, row),
{
    let n = a.next_row(col) as int;
    assert(b.in_range(col, n) && b.in_range(col, n + 1) && b.in_range(other, row));
    assert(b.next_row(col) == n + 1);
    assert(b.raw(col, n) == x);
    assert(other != col ==> b.raw(other, row) == a.raw(other, row));
    assert(other != col ==> b.next_row(other) == a.next_row(other));
    assert(row != n && row != n + 1 ==> b.raw(other, row) == a.raw(other, row));
}

} // verus!
