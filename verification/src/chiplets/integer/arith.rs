//! 1-row-per-op ALU chiplet over the [`int_arith`] gadgets. Words have 32
//! or 64 bits.
//!
//! Opcodes: ADD, SUB, AND, XOR, NOT, LT.

use vstd::arithmetic::div_mod::*;
use vstd::arithmetic::power2::*;
use vstd::prelude::*;

use super::words;
use crate::atoms::int_arith;
use crate::bits;
use crate::errors::Error;
use crate::field::gf;
use crate::field::{Bit, Block128, Block32, Block64};
use crate::program::constraint;
use crate::program::constraint::{ConstraintAst, ConstraintSystem, Env, Expr};
use crate::program::expander;
use crate::program::expander::VirtualExpander;
use crate::program::permutation::{BusKind, PermutationCheckSpec, Source, REQUEST_IDX_LABEL};
use crate::trace;
use crate::trace::{ColumnTrace, ColumnType, TraceBuilder};

verus! {

// ---------------------------------------------------------------
// Layout
// ---------------------------------------------------------------

const ARITH_OPERANDS: usize = 4;

const ARITH_SELECTORS: usize = 7;

const ARITH_BUS_TAIL_B32: usize = 2;

const ARITH_NUM_PHYSICAL: usize = 13;

/// Where the chiplet's virtual columns are.
#[derive(Clone, Copy, Debug, PartialEq, Eq, Structural)]
pub struct IntArithmeticLayout {
    pub bit_width: usize,
    pub a_bits: usize,
    pub b_bits: usize,
    pub res_bits: usize,
    pub carry_bits: usize,
    pub val_a: usize,
    pub val_b: usize,
    pub val_res: usize,
    pub carry_packed: usize,
    pub opcode: usize,
    pub request_idx: usize,
    pub s_output: usize,
    pub s_add: usize,
    pub s_sub: usize,
    pub s_and: usize,
    pub s_xor: usize,
    pub s_not: usize,
    pub s_lt: usize,
    pub num_virtual_columns: usize,
    pub num_physical_columns: usize,
}

/// The word widths there are.
pub open spec fn is_width(bit_width: nat) -> bool {
    bit_width == 32 || bit_width == 64
}

/// The storage type of a word.
pub open spec fn word_type(bit_width: nat) -> ColumnType {
    if bit_width == 64 {
        ColumnType::B64
    } else {
        ColumnType::B32
    }
}

/// The committed columns: four words, opcode and request index, selectors.
pub open spec fn physical_layout(bit_width: nat) -> Seq<ColumnType> {
    expander::repeated(word_type(bit_width), 4) + expander::repeated(ColumnType::B32, 2)
        + expander::repeated(ColumnType::Bit, 7)
}

/// The virtual columns: the words' bits, the words, and the rest.
pub open spec fn virtual_columns(bit_width: nat) -> Seq<expander::VirtualColumn> {
    expander::bit_columns(0, bit_width, 4 * bit_width) + expander::whole_columns(0, 13)
}

impl IntArithmeticLayout {
    /// The groups follow one another: bits of the four words, the words,
    /// opcode and request index, selectors.
    pub open spec fn wf(&self) -> bool {
        let w = self.bit_width;
        &&& is_width(w as nat)
        &&& self.a_bits == 0
        &&& self.b_bits == w
        &&& self.res_bits == 2 * w
        &&& self.carry_bits == 3 * w
        &&& self.val_a == 4 * w
        &&& self.val_b == 4 * w + 1
        &&& self.val_res == 4 * w + 2
        &&& self.carry_packed == 4 * w + 3
        &&& self.opcode == 4 * w + 4
        &&& self.request_idx == 4 * w + 5
        &&& self.s_output == 4 * w + 6
        &&& self.s_add == 4 * w + 7
        &&& self.s_sub == 4 * w + 8
        &&& self.s_and == 4 * w + 9
        &&& self.s_xor == 4 * w + 10
        &&& self.s_not == 4 * w + 11
        &&& self.s_lt == 4 * w + 12
        &&& self.num_virtual_columns == 4 * w + 13
        &&& self.num_physical_columns == 13
    }

    pub fn compute(bit_width: usize) -> (r: Self)
        requires
            is_width(bit_width as nat),
        ensures
            r.wf(),
            r.bit_width == bit_width,
    {
        let a_bits: usize = 0;
        let b_bits: usize = a_bits + bit_width;
        let res_bits: usize = b_bits + bit_width;
        let carry_bits: usize = res_bits + bit_width;
        let val_a: usize = carry_bits + bit_width;
        let request_idx: usize = val_a + 5;
        let s_output: usize = request_idx + 1;
        let s_lt: usize = s_output + 6;
        IntArithmeticLayout {
            bit_width,
            a_bits,
            b_bits,
            res_bits,
            carry_bits,
            val_a,
            val_b: val_a + 1,
            val_res: val_a + 2,
            carry_packed: val_a + 3,
            opcode: val_a + 4,
            request_idx,
            s_output,
            s_add: s_output + 1,
            s_sub: s_output + 2,
            s_and: s_output + 3,
            s_xor: s_output + 4,
            s_not: s_output + 5,
            s_lt,
            num_virtual_columns: s_lt + 1,
            num_physical_columns: ARITH_NUM_PHYSICAL,
        }
    }

    pub fn operand_storage(&self) -> (r: ColumnType)
        ensures
            r == word_type(self.bit_width as nat),
    {
        if self.bit_width == 64 {
            ColumnType::B64
        } else {
            ColumnType::B32
        }
    }

    pub fn build_physical_layout(&self) -> (r: Vec<ColumnType>)
        requires
            self.wf(),
        ensures
            r@ == physical_layout(self.bit_width as nat),
            r@.len() == self.num_physical_columns,
    {
        let operand = self.operand_storage();
        let mut layout: Vec<ColumnType> = Vec::with_capacity(self.num_physical_columns);
        for k in 0..ARITH_OPERANDS
            invariant
                layout@ =~= expander::repeated(operand, k as nat),
        {
            layout.push(operand);
        }
        for k in 0..ARITH_BUS_TAIL_B32
            invariant
                layout@ =~= expander::repeated(operand, 4) + expander::repeated(
                    ColumnType::B32,
                    k as nat,
                ),
        {
            layout.push(ColumnType::B32);
        }
        for k in 0..ARITH_SELECTORS
            invariant
                layout@ =~= expander::repeated(operand, 4) + expander::repeated(ColumnType::B32, 2)
                    + expander::repeated(ColumnType::Bit, k as nat),
        {
            layout.push(ColumnType::Bit);
        }
        layout
    }

    pub fn build_virtual_layout(&self) -> (r: Vec<ColumnType>)
        requires
            self.wf(),
        ensures
            r@ == expander::repeated(ColumnType::Bit, 4 * self.bit_width as nat) + physical_layout(
                self.bit_width as nat,
            ),
            r@.len() == self.num_virtual_columns,
    {
        let mut layout: Vec<ColumnType> = Vec::with_capacity(self.num_virtual_columns);
        let total: usize = ARITH_OPERANDS * self.bit_width;
        for k in 0..total
            invariant
                layout@ =~= expander::repeated(ColumnType::Bit, k as nat),
        {
            layout.push(ColumnType::Bit);
        }
        let mut rest = self.build_physical_layout();
        layout.append(&mut rest);
        layout
    }

    /// The expander that derives the virtual columns.
    pub fn build_expander(&self) -> (res: Result<VirtualExpander, Error>)
        requires
            self.wf(),
        ensures
            res matches Ok(x) && x.wf() && x.layout() == physical_layout(self.bit_width as nat)
                && x.virtuals() == virtual_columns(self.bit_width as nat),
    {
        let operand = self.operand_storage();
        let x = VirtualExpander::new().expand_bits(ARITH_OPERANDS, operand).reuse_pass_through(
            0,
            ARITH_OPERANDS,
        ).pass_through(ARITH_BUS_TAIL_B32, ColumnType::B32).control_bits(ARITH_SELECTORS);
        assert(x.layout() =~= physical_layout(self.bit_width as nat));
        assert(x.virtuals() =~= virtual_columns(self.bit_width as nat));
        Ok(x)
    }
}

// ---------------------------------------------------------------
// Operations
// ---------------------------------------------------------------

#[derive(Clone, Copy, Debug, PartialEq, Eq, Structural)]
pub enum ArithmeticOpcode {
    ADD,
    SUB,
    AND,
    XOR,
    NOT,
    LT,
}

impl ArithmeticOpcode {
    /// The number an opcode column holds.
    pub open spec fn number(self) -> u8 {
        match self {
            ArithmeticOpcode::ADD => 0,
            ArithmeticOpcode::SUB => 1,
            ArithmeticOpcode::AND => 2,
            ArithmeticOpcode::XOR => 3,
            ArithmeticOpcode::NOT => 4,
            ArithmeticOpcode::LT => 5,
        }
    }

    pub fn code(self) -> (r: u8)
        ensures
            r == self.number(),
    {
        match self {
            ArithmeticOpcode::ADD => 0,
            ArithmeticOpcode::SUB => 1,
            ArithmeticOpcode::AND => 2,
            ArithmeticOpcode::XOR => 3,
            ArithmeticOpcode::NOT => 4,
            ArithmeticOpcode::LT => 5,
        }
    }
}

/// The result of an operation on the low `n` bits of its operands.
pub open spec fn op_result(op: ArithmeticOpcode, a: u64, b: u64, n: nat) -> nat {
    match op {
        ArithmeticOpcode::ADD => (a as nat % pow2(n) + b as nat % pow2(n)) % pow2(n),
        ArithmeticOpcode::SUB => words::difference(a, b, n),
        ArithmeticOpcode::AND => (a & b) as nat % pow2(n),
        ArithmeticOpcode::XOR => (a ^ b) as nat % pow2(n),
        ArithmeticOpcode::NOT => (!a) as nat % pow2(n),
        ArithmeticOpcode::LT => words::borrow_into(a, b, n),
    }
}

/// `word` holds the carries an operation leaves: those of an addition, the
/// borrows of a subtraction or comparison, and zero for the others.
pub open spec fn op_carries(op: ArithmeticOpcode, a: u64, b: u64, word: u64, n: nat) -> bool {
    match op {
        ArithmeticOpcode::ADD => words::is_carry_word(a, b, word, n),
        ArithmeticOpcode::SUB => words::is_borrow_word(a, b, word, n),
        ArithmeticOpcode::LT => words::is_borrow_word(a, b, word, n),
        _ => word == 0,
    }
}

/// `x` modulo `2^n`.
fn low_bits(x: u64, n: usize) -> (r: u64)
    requires
        n <= 64,
    ensures
        r as nat == x as nat % pow2(n as nat),
{
    proof {
        lemma2_to64();
    }
    if n == 64 {
        proof {
            lemma_small_mod(x as nat, pow2(64));
        }
        x
    } else {
        proof {
            vstd::bits::lemma_u64_pow2_no_overflow(n as nat);
            vstd::bits::lemma_u64_shl_is_mul(1, n as u64);
            vstd::bits::lemma_u64_low_bits_mask_is_mod(x, n as nat);
            lemma_pow2_pos(n as nat);
        }
        x & ((1u64 << (n as u64)) - 1)
    }
}

/// An operation's result and the carries it leaves, as words.
pub fn compute_packed_row(op: ArithmeticOpcode, a: u64, b: u64, bit_width: usize) -> (r: (u64, u64))
    requires
        bit_width <= 64,
    ensures
        r.0 as nat == op_result(op, a, b, bit_width as nat),
        op_carries(op, a, b, r.1, bit_width as nat),
        r.0 < pow2(bit_width as nat) || bit_width == 0,
{
    proof {
        lemma2_to64();
        lemma_pow2_pos(bit_width as nat);
    }
    match op {
        ArithmeticOpcode::ADD => words::add_words(a, b, bit_width),
        ArithmeticOpcode::SUB => words::sub_words(a, b, bit_width),
        ArithmeticOpcode::AND => (low_bits(a & b, bit_width), 0),
        ArithmeticOpcode::XOR => (low_bits(a ^ b, bit_width), 0),
        ArithmeticOpcode::NOT => (low_bits(!a, bit_width), 0),
        ArithmeticOpcode::LT => {
            let (_, borrow_word) = words::sub_words(a, b, bit_width);
            if bit_width == 0 {
                proof {
                    assert(a as nat % pow2(0) == 0 && b as nat % pow2(0) == 0);
                }
                (0, borrow_word)
            } else {
                let w: u64 = (borrow_word >> ((bit_width - 1) as u64)) & 1;
                proof {
                    let k = (bit_width - 1) as nat;
                    bits::lemma_bit_u64(borrow_word, k);
                    assert(bits::bit(borrow_word as nat, k) == words::borrow_into(a, b, k + 1));
                    lemma_pow2_strictly_increases(0, bit_width as nat);
                }
                (w, borrow_word)
            }
        },
    }
}

/// One request to the chiplet.
#[allow(inconsistent_fields)]
#[derive(Clone, Copy, Debug)]
pub enum IntArithmeticOp {
    U32 {
        op: ArithmeticOpcode,
        a: u32,
        b: u32,
        /// Partner-side emit row index.
        request_idx: u32,
    },
    U64 {
        op: ArithmeticOpcode,
        a: u64,
        b: u64,
        /// Partner-side emit row index.
        request_idx: u32,
    },
}

impl IntArithmeticOp {
    pub open spec fn width(self) -> nat {
        match self {
            IntArithmeticOp::U32 { .. } => 32,
            IntArithmeticOp::U64 { .. } => 64,
        }
    }

    pub open spec fn opcode(self) -> ArithmeticOpcode {
        match self {
            IntArithmeticOp::U32 { op, .. } => op,
            IntArithmeticOp::U64 { op, .. } => op,
        }
    }

    pub open spec fn lhs(self) -> u64 {
        match self {
            IntArithmeticOp::U32 { a, .. } => a as u64,
            IntArithmeticOp::U64 { a, .. } => a,
        }
    }

    pub open spec fn rhs(self) -> u64 {
        match self {
            IntArithmeticOp::U32 { b, .. } => b as u64,
            IntArithmeticOp::U64 { b, .. } => b,
        }
    }

    pub open spec fn request(self) -> u32 {
        match self {
            IntArithmeticOp::U32 { request_idx, .. } => request_idx,
            IntArithmeticOp::U64 { request_idx, .. } => request_idx,
        }
    }
}

// ---------------------------------------------------------------
// Trace generation
// ---------------------------------------------------------------

const PHY_VAL_A: usize = 0;

const PHY_VAL_B: usize = 1;

const PHY_VAL_RES: usize = 2;

const PHY_CARRY: usize = 3;

const PHY_OPCODE: usize = 4;

const PHY_REQUEST_IDX: usize = 5;

const PHY_S_OUTPUT: usize = 6;

const PHY_S_ADD: usize = 7;

const PHY_S_SUB: usize = 8;

const PHY_S_AND: usize = 9;

const PHY_S_XOR: usize = 10;

const PHY_S_NOT: usize = 11;

const PHY_S_LT: usize = 12;

/// The thirteen committed elements of a row hold this request.
pub open spec fn row_holds(row: Seq<u128>, call: IntArithmeticOp, n: nat) -> bool {
    &&& row[0] == call.lhs()
    &&& row[1] == call.rhs()
    &&& row[2] == op_result(call.opcode(), call.lhs(), call.rhs(), n)
    &&& row[3] <= u64::MAX
    &&& op_carries(call.opcode(), call.lhs(), call.rhs(), row[3] as u64, n)
    &&& row[4] == call.opcode().number()
    &&& row[5] == call.request()
    &&& row[6] == 1
    &&& forall|j: int|
        0 <= j < 6 ==> #[trigger] row[7 + j] == if j == call.opcode().number() {
            1u128
        } else {
            0u128
        }
}

/// The trace with one row per operation, and zero rows after them.
pub fn generate_arithmetic_trace(
    ops: &[IntArithmeticOp],
    layout: &IntArithmeticLayout,
    num_rows: usize,
) -> (res: Result<ColumnTrace, Error>)
    requires
        layout.wf(),
    ensures
        res is Ok <==> bits::is_power_of_two(num_rows as nat) && ops@.len()
            <= num_rows && (forall|i: int|
            0 <= i < ops@.len() ==> (#[trigger] ops@[i]).width() == layout.bit_width),
        res matches Ok(t) ==> {
            &&& t.wf()
            &&& pow2(t.num_vars as nat) == num_rows
            &&& t.layout() == physical_layout(layout.bit_width as nat)
            &&& forall|r: int|
                0 <= r < ops@.len() ==> row_holds(
                    #[trigger] t.row(r),
                    ops@[r],
                    layout.bit_width as nat,
                )
            &&& forall|r: int, c: int|
                ops@.len() <= r < num_rows && 0 <= c < 13 ==> #[trigger] t.at(c, r) == 0
        },
        res matches Err(e) ==> if !bits::is_power_of_two(num_rows as nat) {
            e.is_protocol("arithmetic"@, "num_rows must be a power of 2"@)
        } else if ops@.len() > num_rows {
            e.is_protocol("arithmetic"@, "ops overflow num_rows"@)
        } else if layout.bit_width == 64 {
            e.is_protocol("arithmetic"@, "U32 op given with layout.bit_width != 32"@)
        } else {
            e.is_protocol("arithmetic"@, "U64 op given with layout.bit_width != 64"@)
        },
{
    let num_vars: usize = match trace::exact_log2(num_rows) {
        Some(k) => k,
        None => {
            return Err(
                Error::Protocol {
                    protocol: "arithmetic",
                    message: "num_rows must be a power of 2",
                },
            );
        },
    };
    assert(num_rows as nat == pow2(num_vars as nat));
    if ops.len() > num_rows {
        return Err(Error::Protocol { protocol: "arithmetic", message: "ops overflow num_rows" });
    }
    let bw: usize = layout.bit_width;
    let phy = layout.build_physical_layout();
    let mut tb = TraceBuilder::new(phy.as_slice(), num_vars)?;
    for i in 0..ops.len()
        invariant
            layout.wf(),
            bw == layout.bit_width,
            ops@.len() <= num_rows,
            num_rows as nat == pow2(num_vars as nat),
            tb.wf(),
            tb.layout() == physical_layout(bw as nat),
            tb.vars() == num_vars,
            forall|r: int|
                0 <= r < i ==> row_holds(#[trigger] tb.row(r), ops@[r], bw as nat),
            forall|r: int|
                0 <= r < i ==> (#[trigger] ops@[r]).width() == bw,
            forall|r: int, c: int| i <= r < num_rows && 0 <= c < 13 ==> #[trigger] tb.at(c, r) == 0,
    {
        let (opcode, a, b, request_idx): (ArithmeticOpcode, u64, u64, u32) = match ops[i] {
            IntArithmeticOp::U32 { op, a, b, request_idx } => {
                if bw != 32 {
                    assert(ops@[i as int].width() != bw);
                    return Err(
                        Error::Protocol {
                            protocol: "arithmetic",
                            message: "U32 op given with layout.bit_width != 32",
                        },
                    );
                }
                (op, a as u64, b as u64, request_idx)
            },
            IntArithmeticOp::U64 { op, a, b, request_idx } => {
                if bw != 64 {
                    assert(ops@[i as int].width() != bw);
                    return Err(
                        Error::Protocol {
                            protocol: "arithmetic",
                            message: "U64 op given with layout.bit_width != 64",
                        },
                    );
                }
                (op, a, b, request_idx)
            },
        };
        let ghost before = tb;
        write_call(&mut tb, i, bw, opcode, a, b, request_idx)?;
        proof {
            assert forall|r: int| 0 <= r < i + 1 implies row_holds(
                #[trigger] tb.row(r),
                ops@[r],
                bw as nat,
            ) by {
                if r < i {
                    assert(row_holds(before.row(r), ops@[r], bw as nat));
                    assert(tb.row(r) =~= before.row(r));
                }
            }
        }
    }
    let t = tb.build();
    proof {
        assert forall|r: int| 0 <= r < ops@.len() implies row_holds(
            #[trigger] t.row(r),
            ops@[r],
            layout.bit_width as nat,
        ) by {
            assert(row_holds(tb.row(r), ops@[r], bw as nat));
            assert(t.row(r) =~= tb.row(r));
        }
    }
    Ok(t)
}

/// Writes one request into a zero row.
fn write_call(
    tb: &mut TraceBuilder,
    row: usize,
    bw: usize,
    opcode: ArithmeticOpcode,
    a: u64,
    b: u64,
    request_idx: u32,
) -> (res: Result<(), Error>)
    requires
        old(tb).wf(),
        is_width(bw as nat),
        old(tb).layout() == physical_layout(bw as nat),
        row < old(tb).height(),
        bw == 32 ==> a <= u32::MAX && b <= u32::MAX,
        forall|c: int| 0 <= c < 13 ==> #[trigger] old(tb).at(c, row as int) == 0,
    ensures
        res is Ok,
        final(tb).same_shape(old(tb)),
        row_holds(
            final(tb).row(row as int),
            (if bw == 32 {
                IntArithmeticOp::U32 { op: opcode, a: a as u32, b: b as u32, request_idx }
            } else {
                IntArithmeticOp::U64 { op: opcode, a, b, request_idx }
            }),
            bw as nat,
        ),
        forall|c: int, r: int|
            old(tb).in_range(c, r) && r != row ==> #[trigger] final(tb).at(c, r) == old(tb).at(c, r),
{
    let (res, carry_word) = compute_packed_row(opcode, a, b, bw);
    proof {
        lemma2_to64();
    }
    write_packed_operand(tb, PHY_VAL_A, row, bw, a)?;
    write_packed_operand(tb, PHY_VAL_B, row, bw, b)?;
    write_packed_operand(tb, PHY_VAL_RES, row, bw, res)?;
    write_packed_operand(tb, PHY_CARRY, row, bw, carry_word)?;
    tb.set_b32(PHY_OPCODE, row, Block32(opcode.code() as u32))?;
    tb.set_b32(PHY_REQUEST_IDX, row, Block32(request_idx))?;
    tb.set_bit(PHY_S_OUTPUT, row, Bit(1))?;
    let sel_col: usize = match opcode {
        ArithmeticOpcode::ADD => PHY_S_ADD,
        ArithmeticOpcode::SUB => PHY_S_SUB,
        ArithmeticOpcode::AND => PHY_S_AND,
        ArithmeticOpcode::XOR => PHY_S_XOR,
        ArithmeticOpcode::NOT => PHY_S_NOT,
        ArithmeticOpcode::LT => PHY_S_LT,
    };
    tb.set_bit(sel_col, row, Bit(1))?;
    proof {
        let cells = tb.row(row as int);
        assert forall|j: int| 0 <= j < 6 implies #[trigger] cells[7 + j] == if j
            == opcode.number() {
            1u128
        } else {
            0u128
        } by {
            assert(old(tb).at(7 + j, row as int) == 0);
            assert(tb.at(7 + j, row as int) == cells[7 + j]);
        }
        assert(cells[0] == tb.at(0, row as int));
        assert(cells[1] == tb.at(1, row as int));
        assert(cells[2] == tb.at(2, row as int));
        assert(cells[3] == tb.at(3, row as int));
        assert(cells[4] == tb.at(4, row as int));
        assert(cells[5] == tb.at(5, row as int));
        assert(cells[6] == tb.at(6, row as int));
    }
    Ok(())
}

/// Writes a word of `bit_width` bits.
fn write_packed_operand(
    tb: &mut TraceBuilder,
    phy_col: usize,
    row: usize,
    bit_width: usize,
    value: u64,
) -> (res: Result<(), Error>)
    requires
        old(tb).wf(),
        is_width(bit_width as nat),
        bit_width == 32 ==> value <= u32::MAX,
        old(tb).accepts(phy_col as int, row as int, word_type(bit_width as nat)),
    ensures
        res is Ok,
        final(tb).wrote(
            old(tb),
            phy_col as int,
            row as int,
            word_type(bit_width as nat).stored(value as u128),
        ),
        final(tb).at(phy_col as int, row as int) == value,
{
    if bit_width == 32 {
        tb.set_b32(phy_col, row, Block32(value as u32))
    } else {
        tb.set_b64(phy_col, row, Block64(value))
    }
}

// ---------------------------------------------------------------
// Constraints
// ---------------------------------------------------------------

/// What is imposed of the selectors (output, then one per opcode) and the
/// opcode: booleans, at most one opcode, the output selector is their sum,
/// and the opcode is the selected one's number.
pub open spec fn selector_roots(s: Seq<u128>, opcode: u128) -> Seq<u128> {
    constraint::boolean_residues(s) + constraint::pair_products(s.skip(1), 6) + seq![
        (((((s[1] ^ s[2]) ^ s[3]) ^ s[4]) ^ s[5]) ^ s[6]) ^ s[0],
        ((((opcode ^ s[2]) ^ gf::gf128_mul(2, s[3])) ^ gf::gf128_mul(3, s[4])) ^ gf::gf128_mul(
            4,
            s[5],
        )) ^ gf::gf128_mul(5, s[6]),
    ]
}

/// What is imposed of the first `n` bits of AND, XOR and NOT.
pub open spec fn bitwise_roots(
    s: Seq<u128>,
    a: Seq<u128>,
    b: Seq<u128>,
    r: Seq<u128>,
    n: nat,
) -> Seq<u128>
    decreases n,
{
    if n == 0 {
        Seq::empty()
    } else {
        let k = n - 1;
        bitwise_roots(s, a, b, r, k as nat) + seq![
            gf::gf128_mul(s[3], r[k] ^ gf::gf128_mul(a[k], b[k])),
            gf::gf128_mul(s[4], (r[k] ^ a[k]) ^ b[k]),
            gf::gf128_mul(s[5], (r[k] ^ a[k]) ^ 1),
        ]
    }
}

/// The borrow constraints of the first `n` places of a comparison.
pub open spec fn borrow_roots(a: Seq<u128>, b: Seq<u128>, w: Seq<u128>, n: nat) -> Seq<u128> {
    Seq::new(n, |k: int| int_arith::borrow_residue(a[k], b[k], w[k], w[k + 1]))
}

/// Everything imposed of a row.
pub open spec fn arith_roots(ly: IntArithmeticLayout, cur: Seq<u128>) -> Seq<u128> {
    let n = ly.bit_width as nat;
    let a = constraint::cells(cur, ly.a_bits as int, n);
    let b = constraint::cells(cur, ly.b_bits as int, n);
    let r = constraint::cells(cur, ly.res_bits as int, n);
    let w = constraint::cells(cur, ly.carry_bits as int, n);
    let c = seq![0u128] + w;
    let s = constraint::cells(cur, ly.s_output as int, 7);
    selector_roots(s, cur[ly.opcode as int]) + seq![
        cur[ly.val_a as int] ^ int_arith::packed(a, n),
        cur[ly.val_b as int] ^ int_arith::packed(b, n),
        cur[ly.val_res as int] ^ int_arith::packed(r, n),
        cur[ly.carry_packed as int] ^ int_arith::packed(w, n),
    ] + int_arith::gated(s[1], int_arith::add_steps(a, b, r, c, n)) + int_arith::gated(
        s[2],
        int_arith::sub_chain(a, b, r, c),
    ) + bitwise_roots(s, a, b, r, n) + int_arith::gated(s[6], borrow_roots(a, b, c, n)) + seq![
        gf::gf128_mul(s[6], r[0] ^ w[n - 1]),
    ] + int_arith::gated(s[6], r.skip(1)) + seq![
        gf::gf128_mul(1 ^ s[0], cur[ly.request_idx as int]),
        gf::gf128_mul(((1 ^ s[1]) ^ s[2]) ^ s[6], cur[ly.carry_packed as int]),
    ]
}

fn selector_constraints(cs: &mut ConstraintSystem, s: &Vec<Expr>, opcode: Expr)
    requires
        old(cs).wf(),
        old(cs).has_all(s@),
        old(cs).has(opcode),
        s@.len() == 7,
    ensures
        final(cs).wf(),
        final(cs).extends(*old(cs)),
        forall|env: Env|
            (#[trigger] final(cs).root_values(env)) == old(cs).root_values(env) + selector_roots(
                old(cs).values(s@, env),
                old(cs).value(opcode, env),
            ),
{
    let ghost before = *cs;
    cs.assert_booleans(s.as_slice());
    let ghost mid = *cs;
    let opcodes = vstd::slice::slice_subrange(s.as_slice(), 1, 7);
    proof {
        assert(opcodes@ =~= s@.skip(1));
        mid.lemma_has_stable(before, s@);
        assert forall|i: int| 0 <= i < opcodes@.len() implies mid.has(#[trigger] opcodes@[i]) by {
            assert(mid.has(s@[i + 1]));
        }
        assert forall|i: int| 0 <= i < 7 implies before.has(#[trigger] s@[i]) by {}
    }
    cs.assert_exclusive(opcodes);
    let ghost late = *cs;
    proof {
        assert(before.has(s@[0]) && before.has(s@[1]) && before.has(s@[2]) && before.has(s@[3])
            && before.has(s@[4]) && before.has(s@[5]) && before.has(s@[6]));
    }
    let t1 = cs.plus(s[1], s[2]);
    let t2 = cs.plus(t1, s[3]);
    let t3 = cs.plus(t2, s[4]);
    let t4 = cs.plus(t3, s[5]);
    let t5 = cs.plus(t4, s[6]);
    let t6 = cs.plus(t5, s[0]);
    cs.constrain(t6);
    let u1 = cs.plus(opcode, s[2]);
    let two = cs.scale(Block128(2), s[3]);
    let u2 = cs.plus(u1, two);
    let three = cs.scale(Block128(3), s[4]);
    let u3 = cs.plus(u2, three);
    let four = cs.scale(Block128(4), s[5]);
    let u4 = cs.plus(u3, four);
    let five = cs.scale(Block128(5), s[6]);
    let u5 = cs.plus(u4, five);
    cs.constrain(u5);
    proof {
        assert forall|env: Env| (#[trigger] cs.root_values(env)) == before.root_values(env)
            + selector_roots(before.values(s@, env), before.value(opcode, env)) by {
            let vs = before.values(s@, env);
            mid.lemma_values_stable(before, s@, env);
            assert(mid.values(opcodes@, env) =~= vs.skip(1));
            assert(late.root_values(env) == mid.root_values(env) + constraint::pair_products(
                vs.skip(1),
                6,
            ));
            assert(cs.root_values(env) =~= late.root_values(env) + seq![
                (((((vs[1] ^ vs[2]) ^ vs[3]) ^ vs[4]) ^ vs[5]) ^ vs[6]) ^ vs[0],
                ((((before.value(opcode, env) ^ vs[2]) ^ gf::gf128_mul(2, vs[3])) ^ gf::gf128_mul(
                    3,
                    vs[4],
                )) ^ gf::gf128_mul(4, vs[5])) ^ gf::gf128_mul(5, vs[6]),
            ]);
            assert(cs.root_values(env) =~= before.root_values(env) + selector_roots(
                vs,
                before.value(opcode, env),
            ));
        }
    }
}

fn bitwise_constraints(
    cs: &mut ConstraintSystem,
    s: &Vec<Expr>,
    a: &Vec<Expr>,
    b: &Vec<Expr>,
    r: &Vec<Expr>,
)
    requires
        old(cs).wf(),
        old(cs).has_all(s@),
        old(cs).has_all(a@),
        old(cs).has_all(b@),
        old(cs).has_all(r@),
        s@.len() == 7,
        b@.len() == a@.len(),
        r@.len() == a@.len(),
    ensures
        final(cs).wf(),
        final(cs).extends(*old(cs)),
        forall|env: Env|
            (#[trigger] final(cs).root_values(env)) == old(cs).root_values(env) + bitwise_roots(
                old(cs).values(s@, env),
                old(cs).values(a@, env),
                old(cs).values(b@, env),
                old(cs).values(r@, env),
                a@.len(),
            ),
{
    let one = cs.one();
    proof {
        assert forall|env: Env| (#[trigger] cs.root_values(env)) == old(cs).root_values(env)
            + bitwise_roots(
            old(cs).values(s@, env),
            old(cs).values(a@, env),
            old(cs).values(b@, env),
            old(cs).values(r@, env),
            0,
        ) by {
            assert(cs.root_values(env) =~= old(cs).root_values(env) + Seq::<u128>::empty());
        }
    }
    for k in 0..a.len()
        invariant
            cs.wf(),
            cs.extends(*old(cs)),
            cs.has(one),
            forall|env: Env| #[trigger] cs.value(one, env) == 1,
            old(cs).has_all(s@),
            old(cs).has_all(a@),
            old(cs).has_all(b@),
            old(cs).has_all(r@),
            s@.len() == 7,
            b@.len() == a@.len(),
            r@.len() == a@.len(),
            forall|env: Env|
                (#[trigger] cs.root_values(env)) == old(cs).root_values(env) + bitwise_roots(
                    old(cs).values(s@, env),
                    old(cs).values(a@, env),
                    old(cs).values(b@, env),
                    old(cs).values(r@, env),
                    k as nat,
                ),
    {
        let ghost before = *cs;
        proof {
            assert(old(cs).has(s@[3]) && old(cs).has(s@[4]) && old(cs).has(s@[5]));
            assert(old(cs).has(a@[k as int]) && old(cs).has(b@[k as int]) && old(cs).has(
                r@[k as int],
            ));
        }
        let ab = cs.times(a[k], b[k]);
        let e1 = cs.plus(r[k], ab);
        cs.assert_zero_when(s[3], e1);
        let ra = cs.plus(r[k], a[k]);
        let e2 = cs.plus(ra, b[k]);
        cs.assert_zero_when(s[4], e2);
        let e3 = cs.plus(ra, one);
        cs.assert_zero_when(s[5], e3);
        proof {
            assert forall|env: Env| (#[trigger] cs.root_values(env)) == old(cs).root_values(env)
                + bitwise_roots(
                old(cs).values(s@, env),
                old(cs).values(a@, env),
                old(cs).values(b@, env),
                old(cs).values(r@, env),
                (k + 1) as nat,
            ) by {
                let vs = old(cs).values(s@, env);
                let (va, vb, vr) = (
                    old(cs).values(a@, env),
                    old(cs).values(b@, env),
                    old(cs).values(r@, env),
                );
                let i = k as int;
                assert(cs.root_values(env) =~= before.root_values(env) + seq![
                    gf::gf128_mul(vs[3], vr[i] ^ gf::gf128_mul(va[i], vb[i])),
                    gf::gf128_mul(vs[4], (vr[i] ^ va[i]) ^ vb[i]),
                    gf::gf128_mul(vs[5], (vr[i] ^ va[i]) ^ 1),
                ]);
                assert(cs.root_values(env) =~= old(cs).root_values(env) + bitwise_roots(
                    vs,
                    va,
                    vb,
                    vr,
                    (k + 1) as nat,
                ));
            }
        }
    }
}

/// Imposes the borrows `w` (none into the first place) of the comparison
/// `a < b`, that bit 0 of `r` is the last one and the other bits are zero.
fn less_constraints(
    cs: &mut ConstraintSystem,
    sel: Expr,
    a: &Vec<Expr>,
    b: &Vec<Expr>,
    r: &Vec<Expr>,
    w: &Vec<Expr>,
)
    requires
        old(cs).wf(),
        old(cs).has(sel),
        old(cs).has_all(a@),
        old(cs).has_all(b@),
        old(cs).has_all(r@),
        old(cs).has_all(w@),
        a@.len() > 0,
        b@.len() == a@.len(),
        r@.len() == a@.len(),
        w@.len() == a@.len() + 1,
    ensures
        final(cs).wf(),
        final(cs).extends(*old(cs)),
        forall|env: Env|
            (#[trigger] final(cs).root_values(env)) == old(cs).root_values(env) + int_arith::gated(
                old(cs).value(sel, env),
                borrow_roots(
                    old(cs).values(a@, env),
                    old(cs).values(b@, env),
                    old(cs).values(w@, env),
                    a@.len(),
                ),
            ) + seq![
                gf::gf128_mul(
                    old(cs).value(sel, env),
                    old(cs).value(r@[0], env) ^ old(cs).value(w@.last(), env),
                ),
            ] + int_arith::gated(old(cs).value(sel, env), old(cs).values(r@, env).skip(1)),
{
    let n: usize = a.len();
    let ghost start = *cs;
    proof {
        assert forall|env: Env| (#[trigger] cs.root_values(env)) == start.root_values(env)
            + int_arith::gated(
            start.value(sel, env),
            borrow_roots(
                start.values(a@, env),
                start.values(b@, env),
                start.values(w@, env),
                0,
            ),
        ) by {
            assert(cs.root_values(env) =~= start.root_values(env) + int_arith::gated(
                start.value(sel, env),
                borrow_roots(
                    start.values(a@, env),
                    start.values(b@, env),
                    start.values(w@, env),
                    0,
                ),
            ));
        }
    }
    for k in 0..n
        invariant
            n == a@.len(),
            cs.wf(),
            cs.extends(start),
            start.has(sel),
            start.has_all(a@),
            start.has_all(b@),
            start.has_all(r@),
            start.has_all(w@),
            b@.len() == a@.len(),
            w@.len() == a@.len() + 1,
            forall|env: Env|
                (#[trigger] cs.root_values(env)) == start.root_values(env) + int_arith::gated(
                    start.value(sel, env),
                    borrow_roots(
                        start.values(a@, env),
                        start.values(b@, env),
                        start.values(w@, env),
                        k as nat,
                    ),
                ),
    {
        let ghost before = *cs;
        proof {
            assert(start.has(a@[k as int]) && start.has(b@[k as int]) && start.has(w@[k as int])
                && start.has(w@[k + 1]));
        }
        let e1 = cs.plus(w[k + 1], b[k]);
        let ab = cs.times(a[k], b[k]);
        let e2 = cs.plus(e1, ab);
        let e3 = cs.plus(e2, w[k]);
        let aw = cs.times(a[k], w[k]);
        let e4 = cs.plus(e3, aw);
        let bw = cs.times(b[k], w[k]);
        let e5 = cs.plus(e4, bw);
        cs.assert_zero_when(sel, e5);
        proof {
            assert forall|env: Env| (#[trigger] cs.root_values(env)) == start.root_values(env)
                + int_arith::gated(
                start.value(sel, env),
                borrow_roots(
                    start.values(a@, env),
                    start.values(b@, env),
                    start.values(w@, env),
                    (k + 1) as nat,
                ),
            ) by {
                let (va, vb, vw) = (
                    start.values(a@, env),
                    start.values(b@, env),
                    start.values(w@, env),
                );
                let i = k as int;
                assert(cs.root_values(env) =~= before.root_values(env).push(
                    gf::gf128_mul(
                        start.value(sel, env),
                        int_arith::borrow_residue(va[i], vb[i], vw[i], vw[i + 1]),
                    ),
                ));
                assert(cs.root_values(env) =~= start.root_values(env) + int_arith::gated(
                    start.value(sel, env),
                    borrow_roots(va, vb, vw, (k + 1) as nat),
                ));
            }
        }
    }
    let ghost mid = *cs;
    proof {
        assert(start.has(r@[0]) && start.has(w@[n as int]));
    }
    let last = cs.plus(r[0], w[n]);
    cs.assert_zero_when(sel, last);
    let ghost late = *cs;
    proof {
        assert forall|env: Env| (#[trigger] cs.root_values(env)) == late.root_values(env)
            + int_arith::gated(start.value(sel, env), start.values(r@, env).skip(1)).take(0) by {
            assert(cs.root_values(env) =~= late.root_values(env) + int_arith::gated(
                start.value(sel, env),
                start.values(r@, env).skip(1),
            ).take(0));
        }
    }
    for k in 1..n
        invariant
            n == r@.len(),
            n >= 1,
            cs.wf(),
            cs.extends(start),
            cs.extends(late),
            late.extends(start),
            start.has(sel),
            start.has_all(r@),
            forall|env: Env|
                (#[trigger] cs.root_values(env)) == late.root_values(env) + int_arith::gated(
                    start.value(sel, env),
                    start.values(r@, env).skip(1),
                ).take(k - 1),
    {
        let ghost before = *cs;
        proof {
            assert(start.has(r@[k as int]));
        }
        cs.assert_zero_when(sel, r[k]);
        proof {
            assert forall|env: Env| (#[trigger] cs.root_values(env)) == late.root_values(env)
                + int_arith::gated(start.value(sel, env), start.values(r@, env).skip(1)).take(
                k as int,
            ) by {
                let all = int_arith::gated(start.value(sel, env), start.values(r@, env).skip(1));
                assert(before.value(r@[k as int], env) == start.values(r@, env).skip(1)[k - 1]);
                assert(before.root_values(env) == late.root_values(env) + all.take(k - 1));
                assert(cs.root_values(env) =~= late.root_values(env) + all.take(k as int));
            }
        }
    }
    proof {
        assert forall|env: Env| (#[trigger] cs.root_values(env)) == start.root_values(env)
            + int_arith::gated(
            start.value(sel, env),
            borrow_roots(
                start.values(a@, env),
                start.values(b@, env),
                start.values(w@, env),
                a@.len(),
            ),
        ) + seq![
            gf::gf128_mul(
                start.value(sel, env),
                start.value(r@[0], env) ^ start.value(w@.last(), env),
            ),
        ] + int_arith::gated(start.value(sel, env), start.values(r@, env).skip(1)) by {
            let all = int_arith::gated(start.value(sel, env), start.values(r@, env).skip(1));
            assert(all.take(n - 1) =~= all);
            assert(late.root_values(env) =~= mid.root_values(env).push(
                gf::gf128_mul(
                    start.value(sel, env),
                    start.value(r@[0], env) ^ start.value(w@.last(), env),
                ),
            ));
        }
    }
}

// ---------------------------------------------------------------
// Chiplet
// ---------------------------------------------------------------

#[derive(Clone, Debug)]
pub struct IntArithmeticChiplet {
    pub bit_width: usize,
    pub num_rows: usize,
    bus_id: String,
    layout: IntArithmeticLayout,
    expander: VirtualExpander,
    physical_layout: Vec<ColumnType>,
}

/// The key of the chiplet's side of the bus.
pub open spec fn link_sources(ly: IntArithmeticLayout) -> Seq<(Source, &'static str)> {
    seq![
        (Source::Column(ly.val_a), "kappa_val_a"),
        (Source::Column(ly.val_b), "kappa_val_b"),
        (Source::Column(ly.val_res), "kappa_val_res"),
        (Source::Column(ly.opcode), "kappa_opcode"),
        (Source::Column(ly.request_idx), REQUEST_IDX_LABEL),
    ]
}

/// The key of the CPU's side of the bus: the row's number is the request.
pub open spec fn cpu_link_sources() -> Seq<(Source, &'static str)> {
    seq![
        (Source::Column(0), "kappa_val_a"),
        (Source::Column(1), "kappa_val_b"),
        (Source::Column(2), "kappa_val_res"),
        (Source::Column(3), "kappa_opcode"),
        (Source::RowIndexLeBytes(4), REQUEST_IDX_LABEL),
    ]
}

impl IntArithmeticChiplet {
    pub const BUS_ID: &'static str = "int_arith_link";

    pub closed spec fn wf(&self) -> bool {
        &&& self.layout.wf()
        &&& self.layout.bit_width == self.bit_width
        &&& self.expander.wf()
        &&& self.expander.layout() == physical_layout(self.bit_width as nat)
        &&& self.expander.virtuals() == virtual_columns(self.bit_width as nat)
        &&& self.physical_layout@ == physical_layout(self.bit_width as nat)
        &&& bits::is_power_of_two(self.num_rows as nat)
    }

    pub closed spec fn width(&self) -> usize {
        self.bit_width
    }

    pub closed spec fn rows(&self) -> usize {
        self.num_rows
    }

    pub closed spec fn bus(&self) -> Seq<char> {
        self.bus_id@
    }

    /// Where the virtual columns are.
    pub closed spec fn columns(&self) -> IntArithmeticLayout {
        self.layout
    }

    pub fn new(bit_width: usize, num_rows: usize) -> (res: Result<Self, Error>)
        ensures
            res is Ok <==> is_width(bit_width as nat) && bits::is_power_of_two(num_rows as nat),
            res matches Ok(x) ==> x.wf() && x.width() == bit_width && x.rows() == num_rows
                && x.bus() == "int_arith_link"@ && x.columns().wf() && x.columns().bit_width
                == bit_width,
            res matches Err(e) ==> e.is_protocol(
                "arithmetic"@,
                if !is_width(bit_width as nat) {
                    "bit_width must be 32 or 64"@
                } else {
                    "num_rows must be a power of 2"@
                },
            ),
    {
        if bit_width != 32 && bit_width != 64 {
            return Err(
                Error::Protocol { protocol: "arithmetic", message: "bit_width must be 32 or 64" },
            );
        }
        match trace::exact_log2(num_rows) {
            None => {
                return Err(
                    Error::Protocol {
                        protocol: "arithmetic",
                        message: "num_rows must be a power of 2",
                    },
                );
            },
            Some(k) => {
                assert(num_rows as nat == pow2(k as nat));
            },
        }
        let layout = IntArithmeticLayout::compute(bit_width);
        let expander = layout.build_expander()?;
        let physical_layout = layout.build_physical_layout();
        Ok(
            IntArithmeticChiplet {
                bit_width,
                num_rows,
                bus_id: "int_arith_link".to_owned(),
                layout,
                expander,
                physical_layout,
            },
        )
    }

    pub fn with_bus_id(self, bus_id: String) -> (r: Self)
        ensures
            r.bus() == bus_id@,
            self.wf() ==> r.wf(),
            r.columns() == self.columns(),
            r.width() == self.width(),
            r.rows() == self.rows(),
    {
        let mut out = self;
        out.bus_id = bus_id;
        out
    }

    pub fn bus_id(&self) -> (r: &str)
        ensures
            r@ == self.bus(),
    {
        self.bus_id.as_str()
    }

    /// The chiplet's side of the bus.
    pub fn linking_spec(&self) -> (r: PermutationCheckSpec)
        requires
            self.wf(),
        ensures
            r.kind == BusKind::Permutation,
            r.selector == Some(self.columns().s_output),
            r.clock_waiver is None,
            r.sources@ == link_sources(self.columns()),
    {
        PermutationCheckSpec::new(
            vec![
                (Source::Column(self.layout.val_a), "kappa_val_a"),
                (Source::Column(self.layout.val_b), "kappa_val_b"),
                (Source::Column(self.layout.val_res), "kappa_val_res"),
                (Source::Column(self.layout.opcode), "kappa_opcode"),
                (Source::Column(self.layout.request_idx), REQUEST_IDX_LABEL),
            ],
            Some(self.layout.s_output),
        )
    }

    pub fn layout(&self) -> (r: &IntArithmeticLayout)
        ensures
            *r == self.columns(),
    {
        &self.layout
    }

    pub fn num_rows(&self) -> (r: usize)
        ensures
            r == self.rows(),
    {
        self.num_rows
    }

    pub fn num_columns(&self) -> (r: usize)
        requires
            self.wf(),
        ensures
            r == 4 * self.width() + 13,
    {
        self.layout.num_virtual_columns
    }

    pub fn name(&self) -> (r: String)
        ensures
            r@ == "ArithmeticChiplet"@,
    {
        "ArithmeticChiplet".to_owned()
    }

    pub fn column_layout(&self) -> (r: &[ColumnType])
        requires
            self.wf(),
        ensures
            r@ == physical_layout(self.width() as nat),
    {
        self.physical_layout.as_slice()
    }

    pub fn permutation_checks(&self) -> (r: Vec<(String, PermutationCheckSpec)>)
        requires
            self.wf(),
        ensures
            r@.len() == 1,
            r@[0].0@ == self.bus(),
            r@[0].1.kind == BusKind::Permutation,
            r@[0].1.selector == Some(self.columns().s_output),
            r@[0].1.clock_waiver is None,
            r@[0].1.sources@ == link_sources(self.columns()),
    {
        let bus = self.bus_id.as_str().to_owned();
        vec![(bus, self.linking_spec())]
    }

    pub fn virtual_expander(&self) -> (r: Option<&VirtualExpander>)
        requires
            self.wf(),
        ensures
            r matches Some(x) && x.wf() && x.layout() == physical_layout(self.width() as nat)
                && x.virtuals() == virtual_columns(self.width() as nat),
    {
        Some(&self.expander)
    }

    /// The chiplet's constraints. Operand columns belong to the host; the
    /// chiplet pins its own carries and request index.
    pub fn constraint_ast(&self) -> (r: ConstraintAst)
        requires
            self.wf(),
        ensures
            r.wf(),
            forall|env: Env| (#[trigger] r.root_values(env)) == arith_roots(
                self.columns(),
                env.cur,
            ),
    {
        let ly = &self.layout;
        let n: usize = ly.bit_width;
        let mut cs = ConstraintSystem::new();
        let a = cs.cols(ly.a_bits, n);
        let ghost s1 = cs;
        let b = cs.cols(ly.b_bits, n);
        let ghost s2 = cs;
        let r = cs.cols(ly.res_bits, n);
        let ghost s3 = cs;
        let w = cs.cols(ly.carry_bits, n);
        let ghost s4 = cs;
        let s = cs.cols(ly.s_output, 7);
        let ghost s5 = cs;
        let val_a = cs.col(ly.val_a);
        let val_b = cs.col(ly.val_b);
        let val_res = cs.col(ly.val_res);
        let carry_packed = cs.col(ly.carry_packed);
        let opcode = cs.col(ly.opcode);
        let request_idx = cs.col(ly.request_idx);
        let zero = cs.constant(Block128(0));
        let one = cs.one();
        let mut c: Vec<Expr> = Vec::with_capacity(n + 1);
        c.push(zero);
        for k in 0..n
            invariant
                w@.len() == n,
                c@ =~= seq![zero] + w@.take(k as int),
        {
            c.push(w[k]);
        }
        let ghost base = cs;
        proof {
            s2.lemma_has_stable(s1, a@);
            s3.lemma_has_stable(s2, a@);
            s4.lemma_has_stable(s3, a@);
            s5.lemma_has_stable(s4, a@);
            base.lemma_has_stable(s5, a@);
            s3.lemma_has_stable(s2, b@);
            s4.lemma_has_stable(s3, b@);
            s5.lemma_has_stable(s4, b@);
            base.lemma_has_stable(s5, b@);
            s4.lemma_has_stable(s3, r@);
            s5.lemma_has_stable(s4, r@);
            base.lemma_has_stable(s5, r@);
            s5.lemma_has_stable(s4, w@);
            base.lemma_has_stable(s5, w@);
            base.lemma_has_stable(s5, s@);
            assert(c@ =~= seq![zero] + w@);
            assert forall|i: int| 0 <= i < c@.len() implies base.has(#[trigger] c@[i]) by {
                if i > 0 {
                    assert(base.has(w@[i - 1]));
                }
            }
            assert forall|env: Env| base_values(base, a@, b@, r@, w@, s@, c@, *ly, env) by {
                base.lemma_values_stable(s1, a@, env);
                base.lemma_values_stable(s2, b@, env);
                base.lemma_values_stable(s3, r@, env);
                base.lemma_values_stable(s4, w@, env);
                base.lemma_values_stable(s5, s@, env);
                assert(base.values(c@, env) =~= seq![0u128] + base.values(w@, env));
            }
            assert(base.has(s@[0]) && base.has(s@[1]) && base.has(s@[2]) && base.has(s@[6]));
        }
        selector_constraints(&mut cs, &s, opcode);
        let ghost c1 = cs;
        proof {
            c1.lemma_has_stable(base, a@);
            c1.lemma_has_stable(base, b@);
            c1.lemma_has_stable(base, r@);
            c1.lemma_has_stable(base, w@);
        }
        int_arith::bit_packing(&mut cs, val_a, a.as_slice());
        let ghost c2 = cs;
        proof {
            c2.lemma_has_stable(base, b@);
        }
        int_arith::bit_packing(&mut cs, val_b, b.as_slice());
        let ghost c3 = cs;
        proof {
            c3.lemma_has_stable(base, r@);
        }
        int_arith::bit_packing(&mut cs, val_res, r.as_slice());
        let ghost c4 = cs;
        proof {
            c4.lemma_has_stable(base, w@);
        }
        int_arith::bit_packing(&mut cs, carry_packed, w.as_slice());
        let ghost c5 = cs;
        proof {
            c5.lemma_has_stable(base, a@);
            c5.lemma_has_stable(base, b@);
            c5.lemma_has_stable(base, r@);
            c5.lemma_has_stable(base, c@);
        }
        int_arith::add_carry_chain_with_carry_in_gated(
            &mut cs,
            s[1],
            a.as_slice(),
            b.as_slice(),
            r.as_slice(),
            c.as_slice(),
        );
        let ghost c6 = cs;
        proof {
            c6.lemma_has_stable(base, a@);
            c6.lemma_has_stable(base, b@);
            c6.lemma_has_stable(base, r@);
            c6.lemma_has_stable(base, c@);
        }
        int_arith::sub_borrow_chain_gated(
            &mut cs,
            s[2],
            a.as_slice(),
            b.as_slice(),
            r.as_slice(),
            c.as_slice(),
        );
        let ghost c7 = cs;
        proof {
            c7.lemma_has_stable(base, a@);
            c7.lemma_has_stable(base, b@);
            c7.lemma_has_stable(base, r@);
            c7.lemma_has_stable(base, s@);
        }
        bitwise_constraints(&mut cs, &s, &a, &b, &r);
        let ghost c8 = cs;
        proof {
            c8.lemma_has_stable(base, a@);
            c8.lemma_has_stable(base, b@);
            c8.lemma_has_stable(base, r@);
            c8.lemma_has_stable(base, c@);
        }
        less_constraints(&mut cs, s[6], &a, &b, &r, &c);
        let ghost c9 = cs;
        let not_active = cs.plus(one, s[0]);
        cs.assert_zero_when(not_active, request_idx);
        let u1 = cs.plus(one, s[1]);
        let u2 = cs.plus(u1, s[2]);
        let carry_unused = cs.plus(u2, s[6]);
        cs.assert_zero_when(carry_unused, carry_packed);
        proof {
            assert forall|env: Env| (#[trigger] cs.root_values(env)) == arith_roots(*ly, env.cur) by {
                let cur = env.cur;
                assert(base_values(base, a@, b@, r@, w@, s@, c@, *ly, env));
                c1.lemma_values_stable(base, a@, env);
                c2.lemma_values_stable(base, b@, env);
                c3.lemma_values_stable(base, r@, env);
                c4.lemma_values_stable(base, w@, env);
                c5.lemma_values_stable(base, a@, env);
                c5.lemma_values_stable(base, b@, env);
                c5.lemma_values_stable(base, r@, env);
                c5.lemma_values_stable(base, c@, env);
                c6.lemma_values_stable(base, a@, env);
                c6.lemma_values_stable(base, b@, env);
                c6.lemma_values_stable(base, r@, env);
                c6.lemma_values_stable(base, c@, env);
                c7.lemma_values_stable(base, a@, env);
                c7.lemma_values_stable(base, b@, env);
                c7.lemma_values_stable(base, r@, env);
                c7.lemma_values_stable(base, s@, env);
                c8.lemma_values_stable(base, a@, env);
                c8.lemma_values_stable(base, b@, env);
                c8.lemma_values_stable(base, r@, env);
                c8.lemma_values_stable(base, c@, env);
                let vs = base.values(s@, env);
                assert(base.value(s@[0], env) == vs[0] && base.value(s@[1], env) == vs[1]
                    && base.value(s@[2], env) == vs[2] && base.value(s@[6], env) == vs[6]);
                let vr = base.values(r@, env);
                assert(base.value(r@[0], env) == vr[0]);
                assert(base.value(c@.last(), env) == base.values(c@, env)[n as int]);
                assert(base.root_values(env) =~= Seq::<u128>::empty());
                assert(c1.root_values(env) =~= selector_roots(vs, cur[ly.opcode as int]));
                assert(cs.root_values(env) =~= arith_roots(*ly, cur));
            }
        }
        cs.build()
    }
}

/// The named column groups have the values of their cells.
spec fn base_values(
    cs: ConstraintSystem,
    a: Seq<Expr>,
    b: Seq<Expr>,
    r: Seq<Expr>,
    w: Seq<Expr>,
    s: Seq<Expr>,
    c: Seq<Expr>,
    ly: IntArithmeticLayout,
    env: Env,
) -> bool {
    let n = ly.bit_width as nat;
    &&& cs.values(a, env) == constraint::cells(env.cur, ly.a_bits as int, n)
    &&& cs.values(b, env) == constraint::cells(env.cur, ly.b_bits as int, n)
    &&& cs.values(r, env) == constraint::cells(env.cur, ly.res_bits as int, n)
    &&& cs.values(w, env) == constraint::cells(env.cur, ly.carry_bits as int, n)
    &&& cs.values(s, env) == constraint::cells(env.cur, ly.s_output as int, 7)
    &&& cs.values(c, env) == seq![0u128] + constraint::cells(env.cur, ly.carry_bits as int, n)
}

/// The columns of a host that asks for operations.
pub struct CpuArithColumns;

impl CpuArithColumns {
    pub const VAL_A: usize = 0;

    pub const VAL_B: usize = 1;

    pub const VAL_RES: usize = 2;

    pub const OPCODE: usize = 3;

    pub const SELECTOR: usize = 4;

    pub const NUM_COLUMNS: usize = 5;
}

/// The host's side of the bus: operation requests, in execution order.
#[derive(Clone, Debug)]
pub struct CpuIntArithmeticUnit;

impl CpuIntArithmeticUnit {
    pub fn linking_spec() -> (r: PermutationCheckSpec)
        ensures
            r.kind == BusKind::Permutation,
            r.selector == Some(4usize),
            r.clock_waiver is None,
            r.sources@ == seq![
                (Source::Column(0), "kappa_val_a"),
                (Source::Column(1), "kappa_val_b"),
                (Source::Column(2), "kappa_val_res"),
                (Source::Column(3), "kappa_opcode"),
                (Source::RowIndexLeBytes(4), REQUEST_IDX_LABEL),
            ],
            r.sources@ == cpu_link_sources(),
    {
        PermutationCheckSpec::new(
            vec![
                (Source::Column(CpuArithColumns::VAL_A), "kappa_val_a"),
                (Source::Column(CpuArithColumns::VAL_B), "kappa_val_b"),
                (Source::Column(CpuArithColumns::VAL_RES), "kappa_val_res"),
                (Source::Column(CpuArithColumns::OPCODE), "kappa_opcode"),
                (Source::RowIndexLeBytes(4), REQUEST_IDX_LABEL),
            ],
            Some(CpuArithColumns::SELECTOR),
        )
    }

    pub fn num_columns(&self) -> (r: usize)
        ensures
            r == 5,
    {
        CpuArithColumns::NUM_COLUMNS
    }
}

} // verus!
