//! The columns of the exponentiation table.

use vstd::prelude::*;

use super::modmul::LIMBS32;
use crate::program::circuit::{Circuit, Col, ColRange, Packed};
use crate::program::expander;
use crate::program::expander::VirtualColumn;
use crate::trace::ColumnType;

verus! {

pub const NUM_MODMULS: usize = 32;

pub const FINAL_BLOCK: usize = 16;

pub const ROWS_PER_MODMUL: usize = 32;

pub const NUM_ROWS: usize = 1024;

/// The row that holds the result: the last of [`FINAL_BLOCK`].
pub const RESULT_ROW: usize = 543;

pub const NUM_VARS: usize = 10;

pub const X_BITS: usize = 64;

pub const Y_BITS: usize = 32;

pub const DIGIT_BITS: usize = 32;

pub const CARRY_BITS: usize = 70;

pub const CARRY_HI_BITS: usize = 6;

pub const FROB_STEPS: usize = 16;

pub const CARRY_WORDS: usize = 8;

/// The element that stands for `2^32` in a packed 64-bit cell.
pub const V32: u128 = 0x1_0000_0000;

pub const ARR_S: usize = 0;

pub const ARR_X: usize = 1;

pub const ARR_Y: usize = 2;

pub const ARR_N: usize = 3;

pub const ARR_R: usize = 4;

pub const ARR_W: usize = 5;

/// The committed columns.
pub const NUM_COLUMNS: usize = 3447;

/// The type of a committed column.
pub open spec fn column_type(c: int) -> ColumnType {
    if c < 2 {
        ColumnType::B64
    } else if c < 396 {
        ColumnType::B32
    } else if c < 405 {
        ColumnType::B64
    } else if c < 406 {
        ColumnType::B32
    } else if c < 445 {
        ColumnType::Bit
    } else {
        ColumnType::B128
    }
}

/// The types of the committed columns.
pub open spec fn physical_layout() -> Seq<ColumnType> {
    Seq::new(3447, |c: int| column_type(c))
}

/// Where the groups of committed columns start.
#[derive(Clone, Debug)]
pub struct Layout {
    pub xs: usize,
    pub q: usize,
    pub arrays: [usize; 6],
    pub sel: usize,
    pub digits: usize,
    pub carry_lo: usize,
    pub carry_hi: usize,
    pub request_idx: usize,
    pub rc: usize,
    pub rcm: usize,
    pub first: usize,
    pub block_end: usize,
    pub advance: usize,
    pub into_final: usize,
    pub emit: usize,
    pub onehot: usize,
    pub xa: [usize; 2],
    pub yf: [usize; 2],
    pub p: [usize; 2],
    pub u: [usize; 2],
    pub ut: [usize; 2],
    pub c: [usize; 2],
    pub ct: [usize; 2],
    pub cm: [usize; 2],
    pub co: [usize; 2],
    pub ctm: [usize; 2],
    pub cto: [usize; 2],
    pub dg: [usize; 4],
    pub ce: [usize; 8],
    pub fr: [usize; 8],
    pub lch: [usize; 6],
    pub physical: Vec<ColumnType>,
}

/// Half of a number of bits: the cells of a chain over them.
pub fn half(bits: usize) -> (r: usize)
    ensures
        r == bits / 2,
{
    bits / 2
}

/// Appends columns of one type.
fn append(physical: &mut Vec<ColumnType>, ty: ColumnType, count: usize) -> (r: usize)
    requires
        old(physical)@.len() + count <= usize::MAX,
    ensures
        r == old(physical)@.len(),
        final(physical)@ == old(physical)@ + expander::repeated(ty, count as nat),
{
    let start: usize = physical.len();
    let mut i: usize = 0;
    while i < count
        invariant
            i <= count,
            physical@ =~= old(physical)@ + expander::repeated(ty, i as nat),
        decreases count - i,
    {
        physical.push(ty);
        i = i + 1;
    }
    start
}

/// Appends two equal groups of `B128` columns.
fn append_pair(physical: &mut Vec<ColumnType>, count: usize) -> (r: [usize; 2])
    requires
        old(physical)@.len() + 2 * count <= usize::MAX,
    ensures
        r@[0] == old(physical)@.len(),
        r@[1] == old(physical)@.len() + count,
        final(physical)@ == old(physical)@ + expander::repeated(
            ColumnType::B128,
            (2 * count) as nat,
        ),
{
    let a: usize = append(physical, ColumnType::B128, count);
    let b: usize = append(physical, ColumnType::B128, count);
    proof {
        assert(physical@ =~= old(physical)@ + expander::repeated(
            ColumnType::B128,
            (2 * count) as nat,
        ));
    }
    [a, b]
}

impl Layout {
    /// The groups stand where the table has them.
    pub open spec fn wf(self) -> bool {
        &&& self.physical@ == physical_layout()
        &&& self.xs == 0
        &&& self.q == 1
        &&& self.arrays@ == seq![2usize, 66, 130, 194, 258, 322]
        &&& self.sel == 386
        &&& self.digits == 392
        &&& self.carry_lo == 396
        &&& self.carry_hi == 404
        &&& self.request_idx == 405
        &&& self.rc == 406
        &&& self.rcm == 407
        &&& self.first == 408
        &&& self.block_end == 409
        &&& self.advance == 410
        &&& self.into_final == 411
        &&& self.emit == 412
        &&& self.onehot == 413
        &&& self.xa@ == seq![445usize, 477]
        &&& self.yf@ == seq![509usize, 540]
        &&& self.p@ == seq![571usize, 1595]
        &&& self.u@ == seq![2619usize, 2683]
        &&& self.ut@ == seq![2747usize, 2811]
        &&& self.c@ == seq![2875usize, 2876]
        &&& self.ct@ == seq![2877usize, 2878]
        &&& self.cm@ == seq![2879usize, 2880]
        &&& self.co@ == seq![2881usize, 2882]
        &&& self.ctm@ == seq![2883usize, 2884]
        &&& self.cto@ == seq![2885usize, 2886]
        &&& self.dg@ == seq![2887usize, 2903, 2919, 2935]
        &&& self.ce@ == seq![2951usize, 2985, 3019, 3053, 3087, 3121, 3155, 3189]
        &&& self.fr@ == seq![3223usize, 3239, 3255, 3271, 3287, 3303, 3319, 3335]
        &&& self.lch@ == seq![3351usize, 3367, 3383, 3399, 3415, 3431]
    }

    /// Lays the groups out one after the other.
    pub fn new() -> (r: Self)
        ensures
            r.wf(),
    {
        let mut physical: Vec<ColumnType> = Vec::new();
        let xs: usize = append(&mut physical, ColumnType::B64, 1);
        let q: usize = append(&mut physical, ColumnType::B64, 1);
        let a0: usize = append(&mut physical, ColumnType::B32, LIMBS32);
        let a1: usize = append(&mut physical, ColumnType::B32, LIMBS32);
        let a2: usize = append(&mut physical, ColumnType::B32, LIMBS32);
        let a3: usize = append(&mut physical, ColumnType::B32, LIMBS32);
        let a4: usize = append(&mut physical, ColumnType::B32, LIMBS32);
        let a5: usize = append(&mut physical, ColumnType::B32, LIMBS32);
        let sel: usize = append(&mut physical, ColumnType::B32, 6);
        let digits: usize = append(&mut physical, ColumnType::B32, 4);
        proof {
            assert(physical@ =~= Seq::new(396, |c: int| column_type(c)));
        }
        let carry_lo: usize = append(&mut physical, ColumnType::B64, CARRY_WORDS);
        let carry_hi: usize = append(&mut physical, ColumnType::B64, 1);
        let request_idx: usize = append(&mut physical, ColumnType::B32, 1);
        let rc: usize = append(&mut physical, ColumnType::Bit, 1);
        let rcm: usize = append(&mut physical, ColumnType::Bit, 1);
        let first: usize = append(&mut physical, ColumnType::Bit, 1);
        let block_end: usize = append(&mut physical, ColumnType::Bit, 1);
        let advance: usize = append(&mut physical, ColumnType::Bit, 1);
        let into_final: usize = append(&mut physical, ColumnType::Bit, 1);
        let emit: usize = append(&mut physical, ColumnType::Bit, 1);
        let onehot: usize = append(&mut physical, ColumnType::Bit, ROWS_PER_MODMUL);
        proof {
            assert(physical@ =~= Seq::new(445, |c: int| column_type(c)));
        }
        let xa: [usize; 2] = append_pair(&mut physical, half(X_BITS));
        let yf: [usize; 2] = append_pair(&mut physical, Y_BITS - 1);
        let p: [usize; 2] = append_pair(&mut physical, LIMBS32 * half(Y_BITS));
        let u: [usize; 2] = append_pair(&mut physical, LIMBS32);
        let ut: [usize; 2] = append_pair(&mut physical, LIMBS32);
        proof {
            assert(physical@ =~= Seq::new(2875, |c: int| column_type(c)));
        }
        let c: [usize; 2] = append_pair(&mut physical, 1);
        let ct: [usize; 2] = append_pair(&mut physical, 1);
        let cm: [usize; 2] = append_pair(&mut physical, 1);
        let co: [usize; 2] = append_pair(&mut physical, 1);
        let ctm: [usize; 2] = append_pair(&mut physical, 1);
        let cto: [usize; 2] = append_pair(&mut physical, 1);
        let dg0: [usize; 2] = append_pair(&mut physical, half(DIGIT_BITS));
        let dg1: [usize; 2] = append_pair(&mut physical, half(DIGIT_BITS));
        proof {
            assert(physical@ =~= Seq::new(2951, |c: int| column_type(c)));
        }
        let ce0: [usize; 2] = append_pair(&mut physical, half(CARRY_BITS) - 1);
        let ce1: [usize; 2] = append_pair(&mut physical, half(CARRY_BITS) - 1);
        let ce2: [usize; 2] = append_pair(&mut physical, half(CARRY_BITS) - 1);
        let ce3: [usize; 2] = append_pair(&mut physical, half(CARRY_BITS) - 1);
        let fr0: [usize; 2] = append_pair(&mut physical, FROB_STEPS);
        let fr1: [usize; 2] = append_pair(&mut physical, FROB_STEPS);
        let fr2: [usize; 2] = append_pair(&mut physical, FROB_STEPS);
        let fr3: [usize; 2] = append_pair(&mut physical, FROB_STEPS);
        let lch0: [usize; 2] = append_pair(&mut physical, half(Y_BITS));
        let lch1: [usize; 2] = append_pair(&mut physical, half(Y_BITS));
        let lch2: [usize; 2] = append_pair(&mut physical, half(Y_BITS));
        proof {
            assert(physical@ =~= physical_layout());
        }
        let r = Layout {
            xs,
            q,
            arrays: [a0, a1, a2, a3, a4, a5],
            sel,
            digits,
            carry_lo,
            carry_hi,
            request_idx,
            rc,
            rcm,
            first,
            block_end,
            advance,
            into_final,
            emit,
            onehot,
            xa,
            yf,
            p,
            u,
            ut,
            c,
            ct,
            cm,
            co,
            ctm,
            cto,
            dg: [dg0[0], dg0[1], dg1[0], dg1[1]],
            ce: [ce0[0], ce0[1], ce1[0], ce1[1], ce2[0], ce2[1], ce3[0], ce3[1]],
            fr: [fr0[0], fr0[1], fr1[0], fr1[1], fr2[0], fr2[1], fr3[0], fr3[1]],
            lch: [lch0[0], lch0[1], lch1[0], lch1[1], lch2[0], lch2[1]],
            physical,
        };
        proof {
            assert(r.arrays@ =~= seq![2usize, 66, 130, 194, 258, 322]);
            assert(r.xa@ =~= seq![445usize, 477]);
            assert(r.yf@ =~= seq![509usize, 540]);
            assert(r.p@ =~= seq![571usize, 1595]);
            assert(r.u@ =~= seq![2619usize, 2683]);
            assert(r.ut@ =~= seq![2747usize, 2811]);
            assert(r.c@ =~= seq![2875usize, 2876]);
            assert(r.ct@ =~= seq![2877usize, 2878]);
            assert(r.cm@ =~= seq![2879usize, 2880]);
            assert(r.co@ =~= seq![2881usize, 2882]);
            assert(r.ctm@ =~= seq![2883usize, 2884]);
            assert(r.cto@ =~= seq![2885usize, 2886]);
            assert(r.dg@ =~= seq![2887usize, 2903, 2919, 2935]);
            assert(r.ce@ =~= seq![2951usize, 2985, 3019, 3053, 3087, 3121, 3155, 3189]);
            assert(r.fr@ =~= seq![3223usize, 3239, 3255, 3271, 3287, 3303, 3319, 3335]);
            assert(r.lch@ =~= seq![3351usize, 3367, 3383, 3399, 3415, 3431]);
        }
        r
    }

    /// The bytes of a row.
    pub fn row_bytes(&self) -> (r: usize)
        requires
            self.wf(),
        ensures
            r == 49739,
    {
        let mut total: usize = 0;
        let mut c: usize = 0;
        while c < self.physical.len()
            invariant
                c <= 3447,
                self.physical@ == physical_layout(),
                total == bytes_before(c as int),
            decreases 3447 - c,
        {
            assert(self.physical@[c as int] == column_type(c as int));
            total = total + self.physical[c].byte_size();
            c = c + 1;
        }
        total
    }

    /// The number of `B128` columns.
    pub fn b128_columns(&self) -> (r: usize)
        requires
            self.wf(),
        ensures
            r == 3002,
    {
        self.physical.len() - self.xa[0]
    }
}

/// The bytes of the columns before column `c` in a row.
pub open spec fn bytes_before(c: int) -> int {
    if c <= 2 {
        8 * c
    } else if c <= 396 {
        16 + 4 * (c - 2)
    } else if c <= 405 {
        1592 + 8 * (c - 396)
    } else if c <= 406 {
        1668
    } else if c <= 445 {
        1668 + (c - 406)
    } else {
        1707 + 16 * (c - 445)
    }
}

/// The virtual columns of the table, by what they hold.
#[derive(Clone, Copy, Debug)]
pub struct ModexpCols {
    pub xs_bits: ColRange,
    pub q_bits: ColRange,
    pub xs_packed: Col,
    pub arrays: [ColRange; 6],
    pub y_bits: Packed,
    pub n_bits: Packed,
    pub sel_bits: Packed,
    pub sel_packed: ColRange,
    pub digit_bits: Packed,
    pub carry_lo_bits: Packed,
    pub carry_hi_bits: ColRange,
    pub request_idx: Col,
    pub rc: Col,
    pub rcm: Col,
    pub first: Col,
    pub block_end: Col,
    pub advance: Col,
    pub into_final: Col,
    pub emit: Col,
    pub onehot: ColRange,
    pub xa: [ColRange; 2],
    pub yf: [ColRange; 2],
    pub p: [ColRange; 2],
    pub u: [ColRange; 2],
    pub ut: [ColRange; 2],
    pub c: [Col; 2],
    pub ct: [Col; 2],
    pub cm: [Col; 2],
    pub co: [Col; 2],
    pub ctm: [Col; 2],
    pub cto: [Col; 2],
    pub dg: [ColRange; 4],
    pub ce: [ColRange; 8],
    pub fr: [ColRange; 8],
    pub lch: [ColRange; 6],
}

/// `n` columns from `start` on.
pub open spec fn range(start: int, n: int) -> ColRange {
    ColRange { start: start as usize, len: n as usize }
}

impl ModexpCols {
    /// The columns stand where [`declare`] puts them.
    pub open spec fn wf(self) -> bool {
        &&& self.xs_bits == range(0, 64)
        &&& self.q_bits == range(64, 64)
        &&& self.xs_packed == Col(5376)
        &&& self.arrays@ == seq![
            range(128, 64),
            range(192, 64),
            range(5378, 64),
            range(5442, 64),
            range(4352, 64),
            range(4416, 64),
        ]
        &&& self.y_bits == (Packed { physical: 130, start: 256, words: 64, width: 32 })
        &&& self.n_bits == (Packed { physical: 194, start: 2304, words: 64, width: 32 })
        &&& self.sel_bits == (Packed { physical: 386, start: 4480, words: 6, width: 32 })
        &&& self.sel_packed == range(5506, 6)
        &&& self.digit_bits == (Packed { physical: 392, start: 4672, words: 4, width: 32 })
        &&& self.carry_lo_bits == (Packed { physical: 396, start: 4800, words: 8, width: 64 })
        &&& self.carry_hi_bits == range(5312, 64)
        &&& self.request_idx == Col(5512)
        &&& self.rc == Col(5513)
        &&& self.rcm == Col(5514)
        &&& self.first == Col(5515)
        &&& self.block_end == Col(5516)
        &&& self.advance == Col(5517)
        &&& self.into_final == Col(5518)
        &&& self.emit == Col(5519)
        &&& self.onehot == range(5520, 32)
        &&& self.xa@ == seq![range(5552, 32), range(5584, 32)]
        &&& self.yf@ == seq![range(5616, 31), range(5647, 31)]
        &&& self.p@ == seq![range(5678, 1024), range(6702, 1024)]
        &&& self.u@ == seq![range(7726, 64), range(7790, 64)]
        &&& self.ut@ == seq![range(7854, 64), range(7918, 64)]
        &&& self.c@ == seq![Col(7982), Col(7983)]
        &&& self.ct@ == seq![Col(7984), Col(7985)]
        &&& self.cm@ == seq![Col(7986), Col(7987)]
        &&& self.co@ == seq![Col(7988), Col(7989)]
        &&& self.ctm@ == seq![Col(7990), Col(7991)]
        &&& self.cto@ == seq![Col(7992), Col(7993)]
        &&& self.dg@ == Seq::new(4, |k: int| range(7994 + 16 * k, 16))
        &&& self.ce@ == Seq::new(8, |k: int| range(8058 + 34 * k, 34))
        &&& self.fr@ == Seq::new(8, |k: int| range(8330 + 16 * k, 16))
        &&& self.lch@ == Seq::new(6, |k: int| range(8458 + 16 * k, 16))
    }
}

/// The virtual columns of which the bits or the whole values are declared
/// before the columns that are seen as they are.
pub open spec fn head_virtuals() -> Seq<VirtualColumn> {
    expander::bit_columns(0, 64, 128) + expander::whole_columns(2, 64) + expander::whole_columns(
        66,
        64,
    ) + expander::bit_columns(130, 32, 2048) + expander::bit_columns(194, 32, 2048)
        + expander::whole_columns(258, 64) + expander::whole_columns(322, 64)
        + expander::bit_columns(386, 32, 192) + expander::bit_columns(392, 32, 128)
        + expander::bit_columns(396, 64, 512) + expander::bit_columns(404, 64, 64)
        + expander::whole_columns(0, 2) + expander::whole_columns(130, 64)
        + expander::whole_columns(194, 64) + expander::whole_columns(386, 6)
}

/// The virtual columns of the table.
pub open spec fn virtual_columns() -> Seq<VirtualColumn> {
    head_virtuals() + expander::whole_columns(405, 3042)
}

/// The first `405 + n` columns of the table are declared.
spec fn declared(cx: Circuit, n: int) -> bool {
    &&& 0 <= n <= 3042
    &&& cx.wf()
    &&& cx.layout() == Seq::new((405 + n) as nat, |c: int| column_type(c))
    &&& cx.virtuals().len() == 5512 + n
    &&& cx.virtuals() == head_virtuals() + expander::whole_columns(405, n as nat)
}

/// Declares the next columns.
fn more(cx: &mut Circuit, count: usize, ty: ColumnType, Ghost(n): Ghost<int>) -> (r: ColRange)
    requires
        declared(*old(cx), n),
        n + count <= 3042,
        forall|c: int| 405 + n <= c < 405 + n + count ==> #[trigger] column_type(c) == ty,
    ensures
        declared(*final(cx), n + count),
        final(cx).declared_from(*old(cx)),
        r == range(5512 + n, count as int),
{
    let r = cx.columns(count, ty);
    proof {
        assert(cx.layout() =~= Seq::new((405 + n + count) as nat, |c: int| column_type(c)));
        assert(cx.virtuals() =~= head_virtuals() + expander::whole_columns(
            405,
            (n + count) as nat,
        ));
    }
    r
}

/// Declares the next column.
fn one_more(cx: &mut Circuit, ty: ColumnType, Ghost(n): Ghost<int>) -> (r: Col)
    requires
        declared(*old(cx), n),
        n + 1 <= 3042,
        column_type(405 + n) == ty,
    ensures
        declared(*final(cx), n + 1),
        final(cx).declared_from(*old(cx)),
        r == Col((5512 + n) as usize),
{
    more(cx, 1, ty, Ghost(n)).at(0)
}

/// Declares the next two equal groups.
fn pair_more(cx: &mut Circuit, count: usize, Ghost(n): Ghost<int>) -> (r: [ColRange; 2])
    requires
        declared(*old(cx), n),
        n >= 40,
        n + 2 * count <= 3042,
    ensures
        declared(*final(cx), n + 2 * count),
        final(cx).declared_from(*old(cx)),
        r@ == seq![range(5512 + n, count as int), range(5512 + n + count, count as int)],
{
    let a = more(cx, count, ColumnType::B128, Ghost(n));
    let b = more(cx, count, ColumnType::B128, Ghost(n + count));
    let r = [a, b];
    assert(r@ =~= seq![range(5512 + n, count as int), range(5512 + n + count, count as int)]);
    r
}

/// Declares the next two columns.
fn pair_one(cx: &mut Circuit, Ghost(n): Ghost<int>) -> (r: [Col; 2])
    requires
        declared(*old(cx), n),
        n >= 40,
        n + 2 <= 3042,
    ensures
        declared(*final(cx), n + 2),
        final(cx).declared_from(*old(cx)),
        r@ == seq![Col((5512 + n) as usize), Col((5513 + n) as usize)],
{
    let a = one_more(cx, ColumnType::B128, Ghost(n));
    let b = one_more(cx, ColumnType::B128, Ghost(n + 1));
    let r = [a, b];
    assert(r@ =~= seq![Col((5512 + n) as usize), Col((5513 + n) as usize)]);
    r
}

/// What is declared first: the columns of which the bits are seen and those
/// between them.
struct HeadCols {
    limbs: Packed,
    s: ColRange,
    x: ColRange,
    y_bits: Packed,
    n_bits: Packed,
    r: ColRange,
    w: ColRange,
    sel_bits: Packed,
    digit_bits: Packed,
    carry_lo_bits: Packed,
    carry_hi_word: Packed,
    limbs_packed: ColRange,
    y: ColRange,
    n: ColRange,
    sel_packed: ColRange,
}

fn declare_head(cx: &mut Circuit) -> (r: HeadCols)
    requires
        old(cx).wf(),
        old(cx).layout() == Seq::<ColumnType>::empty(),
        old(cx).virtuals() == Seq::<VirtualColumn>::empty(),
    ensures
        declared(*final(cx), 0),
        final(cx).declared_from(*old(cx)),
        r.limbs == (Packed { physical: 0, start: 0, words: 2, width: 64 }),
        r.s == range(128, 64),
        r.x == range(192, 64),
        r.y_bits == (Packed { physical: 130, start: 256, words: 64, width: 32 }),
        r.n_bits == (Packed { physical: 194, start: 2304, words: 64, width: 32 }),
        r.r == range(4352, 64),
        r.w == range(4416, 64),
        r.sel_bits == (Packed { physical: 386, start: 4480, words: 6, width: 32 }),
        r.digit_bits == (Packed { physical: 392, start: 4672, words: 4, width: 32 }),
        r.carry_lo_bits == (Packed { physical: 396, start: 4800, words: 8, width: 64 }),
        r.carry_hi_word == (Packed { physical: 404, start: 5312, words: 1, width: 64 }),
        r.limbs_packed == range(5376, 2),
        r.y == range(5378, 64),
        r.n == range(5442, 64),
        r.sel_packed == range(5506, 6),
{
    let limbs = cx.expand_bits(2, ColumnType::B64);
    assert(cx.virtuals() =~= expander::bit_columns(0, 64, 128));
    let s = cx.columns(LIMBS32, ColumnType::B32);
    let x = cx.columns(LIMBS32, ColumnType::B32);
    let y_bits = cx.expand_bits(LIMBS32, ColumnType::B32);
    let n_bits = cx.expand_bits(LIMBS32, ColumnType::B32);
    let r = cx.columns(LIMBS32, ColumnType::B32);
    let w = cx.columns(LIMBS32, ColumnType::B32);
    let sel_bits = cx.expand_bits(6, ColumnType::B32);
    let digit_bits = cx.expand_bits(4, ColumnType::B32);
    let carry_lo_bits = cx.expand_bits(CARRY_WORDS, ColumnType::B64);
    let carry_hi_word = cx.expand_bits(1, ColumnType::B64);
    let ghost layout = cx.layout();
    assert(layout =~= Seq::new(405, |c: int| column_type(c)));

    let limbs_packed = cx.reuse_pass_through(&limbs);
    let y = cx.reuse_pass_through(&y_bits);
    let n = cx.reuse_pass_through(&n_bits);
    let sel_packed = cx.reuse_pass_through(&sel_bits);
    proof {
        assert(cx.virtuals() == head_virtuals());
        assert(cx.virtuals() =~= head_virtuals() + expander::whole_columns(405, 0));
    }
    HeadCols {
        limbs,
        s,
        x,
        y_bits,
        n_bits,
        r,
        w,
        sel_bits,
        digit_bits,
        carry_lo_bits,
        carry_hi_word,
        limbs_packed,
        y,
        n,
        sel_packed,
    }
}

/// Declares the columns of the table, in the order that [`Layout`] has them.
#[verifier::rlimit(40)]
pub fn declare(cx: &mut Circuit) -> (k: ModexpCols)
    requires
        old(cx).wf(),
        old(cx).layout() == Seq::<ColumnType>::empty(),
        old(cx).virtuals() == Seq::<VirtualColumn>::empty(),
    ensures
        final(cx).declared_from(*old(cx)),
        final(cx).layout() == physical_layout(),
        final(cx).virtuals() == virtual_columns(),
        k.wf(),
{
    let h = declare_head(cx);
    let request_idx = one_more(cx, ColumnType::B32, Ghost(0));
    let rc = one_more(cx, ColumnType::Bit, Ghost(1));
    let rcm = one_more(cx, ColumnType::Bit, Ghost(2));
    let first = one_more(cx, ColumnType::Bit, Ghost(3));
    let block_end = one_more(cx, ColumnType::Bit, Ghost(4));
    let advance = one_more(cx, ColumnType::Bit, Ghost(5));
    let into_final = one_more(cx, ColumnType::Bit, Ghost(6));
    let emit = one_more(cx, ColumnType::Bit, Ghost(7));
    let onehot = more(cx, ROWS_PER_MODMUL, ColumnType::Bit, Ghost(8));
    let xa = pair_more(cx, half(X_BITS), Ghost(40));
    let yf = pair_more(cx, Y_BITS - 1, Ghost(104));
    let p = pair_more(cx, LIMBS32 * half(Y_BITS), Ghost(166));
    let u = pair_more(cx, LIMBS32, Ghost(2214));
    let ut = pair_more(cx, LIMBS32, Ghost(2342));
    let c = pair_one(cx, Ghost(2470));
    let ct = pair_one(cx, Ghost(2472));
    let cm = pair_one(cx, Ghost(2474));
    let co = pair_one(cx, Ghost(2476));
    let ctm = pair_one(cx, Ghost(2478));
    let cto = pair_one(cx, Ghost(2480));
    let dg0 = pair_more(cx, half(DIGIT_BITS), Ghost(2482));
    let dg1 = pair_more(cx, half(DIGIT_BITS), Ghost(2514));
    let ce0 = pair_more(cx, half(CARRY_BITS) - 1, Ghost(2546));
    let ce1 = pair_more(cx, half(CARRY_BITS) - 1, Ghost(2614));
    let ce2 = pair_more(cx, half(CARRY_BITS) - 1, Ghost(2682));
    let ce3 = pair_more(cx, half(CARRY_BITS) - 1, Ghost(2750));
    let fr0 = pair_more(cx, FROB_STEPS, Ghost(2818));
    let fr1 = pair_more(cx, FROB_STEPS, Ghost(2850));
    let fr2 = pair_more(cx, FROB_STEPS, Ghost(2882));
    let fr3 = pair_more(cx, FROB_STEPS, Ghost(2914));
    let lch0 = pair_more(cx, half(Y_BITS), Ghost(2946));
    let lch1 = pair_more(cx, half(Y_BITS), Ghost(2978));
    let lch2 = pair_more(cx, half(Y_BITS), Ghost(3010));
    let k = ModexpCols {
        xs_bits: h.limbs.bits(0),
        q_bits: h.limbs.bits(1),
        xs_packed: h.limbs_packed.at(0),
        arrays: [h.s, h.x, h.y, h.n, h.r, h.w],
        y_bits: h.y_bits,
        n_bits: h.n_bits,
        sel_bits: h.sel_bits,
        sel_packed: h.sel_packed,
        digit_bits: h.digit_bits,
        carry_lo_bits: h.carry_lo_bits,
        carry_hi_bits: h.carry_hi_word.bits(0),
        request_idx,
        rc,
        rcm,
        first,
        block_end,
        advance,
        into_final,
        emit,
        onehot,
        xa,
        yf,
        p,
        u,
        ut,
        c,
        ct,
        cm,
        co,
        ctm,
        cto,
        dg: [dg0[0], dg0[1], dg1[0], dg1[1]],
        ce: [ce0[0], ce0[1], ce1[0], ce1[1], ce2[0], ce2[1], ce3[0], ce3[1]],
        fr: [fr0[0], fr0[1], fr1[0], fr1[1], fr2[0], fr2[1], fr3[0], fr3[1]],
        lch: [lch0[0], lch0[1], lch1[0], lch1[1], lch2[0], lch2[1]],
    };
    proof {
        assert(k.arrays@ =~= seq![
            range(128, 64),
            range(192, 64),
            range(5378, 64),
            range(5442, 64),
            range(4352, 64),
            range(4416, 64),
        ]);
        assert(k.dg@ =~= Seq::new(4, |k: int| range(7994 + 16 * k, 16)));
        assert(k.ce@ =~= Seq::new(8, |k: int| range(8058 + 34 * k, 34)));
        assert(k.fr@ =~= Seq::new(8, |k: int| range(8330 + 16 * k, 16)));
        assert(k.lch@ =~= Seq::new(6, |k: int| range(8458 + 16 * k, 16)));
        assert(cx.layout() =~= physical_layout());
    }
    k
}

} // verus!
