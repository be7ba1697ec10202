//! ROM chiplet: a committed program image, linked to the CPU's fetch
//! stream by a lookup bus.
//!
//! The image holds the fetched instruction at the row of the fetch, so the
//! bus makes both sides equal row by row. What it does not do is bind the
//! image to a public program.

use vstd::arithmetic::power2::*;
use vstd::prelude::*;

use crate::bits;
use crate::bytes;
use crate::errors::Error;
use crate::field::Block32;
use crate::program::constraint;
use crate::program::constraint::{ConstraintAst, ConstraintSystem, Env};
use crate::program::permutation::{BusKind, PermutationCheckSpec, Source};
use crate::trace;
use crate::trace::{ColumnTrace, ColumnType, TraceBuilder};

verus! {

/// The committed columns.
pub struct RomColumns;

impl RomColumns {
    pub const PC_B0: usize = 0;

    pub const PC_B1: usize = 1;

    pub const PC_B2: usize = 2;

    pub const PC_B3: usize = 3;

    pub const OPCODE: usize = 4;

    pub const ARG0: usize = 5;

    pub const ARG1: usize = 6;

    pub const ARG2: usize = 7;

    pub const SELECTOR: usize = 8;

    pub const NUM_COLUMNS: usize = 9;

    pub fn build_layout() -> (r: Vec<ColumnType>)
        ensures
            r@ == fetch_layout(),
    {
        let mut r: Vec<ColumnType> = Vec::with_capacity(9);
        for k in 0..8
            invariant
                r@ =~= Seq::new(k as nat, |i: int| ColumnType::B32),
        {
            r.push(ColumnType::B32);
        }
        r.push(ColumnType::Bit);
        assert(r@ =~= fetch_layout());
        r
    }
}

/// Eight byte columns and the selector.
pub open spec fn fetch_layout() -> Seq<ColumnType> {
    Seq::new(
        9,
        |i: int|
            if i < 8 {
                ColumnType::B32
            } else {
                ColumnType::Bit
            },
    )
}

/// The key of a fetch: the counter's bytes, the opcode, the arguments.
pub open spec fn fetch_sources() -> Seq<(Source, &'static str)> {
    seq![
        (Source::Column(0), "kappa_pc_b0"),
        (Source::Column(1), "kappa_pc_b1"),
        (Source::Column(2), "kappa_pc_b2"),
        (Source::Column(3), "kappa_pc_b3"),
        (Source::Column(4), "kappa_opcode"),
        (Source::Column(5), "kappa_arg0"),
        (Source::Column(6), "kappa_arg1"),
        (Source::Column(7), "kappa_arg2"),
    ]
}

/// The ROM table.
#[derive(Clone, Debug)]
pub struct RomChiplet {
    /// Number of instruction rows, a power of two.
    pub num_rows: usize,
}

impl RomChiplet {
    /// The bus both sides name.
    pub const BUS_ID: &'static str = "rom_link";

    pub fn new(num_rows: usize) -> (r: Self)
        requires
            bits::is_power_of_two(num_rows as nat),
        ensures
            r.num_rows == num_rows,
    {
        RomChiplet { num_rows }
    }

    /// The ROM's side of the bus.
    pub fn linking_spec() -> (r: PermutationCheckSpec)
        ensures
            r.kind == BusKind::Lookup,
            r.sources@ == fetch_sources(),
            r.selector == Some(8usize),
            r.clock_waiver is None,
    {
        PermutationCheckSpec::new_lookup(
            vec![
                (Source::Column(RomColumns::PC_B0), "kappa_pc_b0"),
                (Source::Column(RomColumns::PC_B1), "kappa_pc_b1"),
                (Source::Column(RomColumns::PC_B2), "kappa_pc_b2"),
                (Source::Column(RomColumns::PC_B3), "kappa_pc_b3"),
                (Source::Column(RomColumns::OPCODE), "kappa_opcode"),
                (Source::Column(RomColumns::ARG0), "kappa_arg0"),
                (Source::Column(RomColumns::ARG1), "kappa_arg1"),
                (Source::Column(RomColumns::ARG2), "kappa_arg2"),
            ],
            Some(RomColumns::SELECTOR),
        )
    }

    pub fn num_rows(&self) -> (r: usize)
        ensures
            r == self.num_rows,
    {
        self.num_rows
    }

    pub fn num_columns(&self) -> (r: usize)
        ensures
            r == 9,
    {
        RomColumns::NUM_COLUMNS
    }

    pub fn name(&self) -> (r: String)
        ensures
            r@ == "RomChiplet"@,
    {
        "RomChiplet".to_owned()
    }

    pub fn column_layout(&self) -> (r: Vec<ColumnType>)
        ensures
            r@ == fetch_layout(),
    {
        RomColumns::build_layout()
    }

    pub fn permutation_checks(&self) -> (r: Vec<(String, PermutationCheckSpec)>)
        ensures
            r@.len() == 1,
            r@[0].0@ == "rom_link"@,
            r@[0].1.kind == BusKind::Lookup,
            r@[0].1.sources@ == fetch_sources(),
            r@[0].1.selector == Some(8usize),
            r@[0].1.clock_waiver is None,
    {
        vec![("rom_link".to_owned(), RomChiplet::linking_spec())]
    }

    /// The only constraint: the selector is boolean.
    pub fn constraint_ast(&self) -> (r: ConstraintAst)
        ensures
            r.wf(),
            forall|env: Env| (#[trigger] r.root_values(env)) == seq![
                constraint::boolean_residue(env.cur[8]),
            ],
    {
        let mut cs = ConstraintSystem::new();
        let selector = cs.col(RomColumns::SELECTOR);
        cs.assert_boolean(selector);
        proof {
            assert forall|env: Env| (#[trigger] cs.root_values(env)) == seq![
                constraint::boolean_residue(env.cur[8]),
            ] by {
                assert(cs.root_values(env) =~= seq![constraint::boolean_residue(env.cur[8])]);
            }
        }
        cs.build()
    }
}

/// The CPU's fetch columns, laid out as the ROM's.
pub struct CpuFetchColumns;

impl CpuFetchColumns {
    pub const PC_B0: usize = 0;

    pub const PC_B1: usize = 1;

    pub const PC_B2: usize = 2;

    pub const PC_B3: usize = 3;

    pub const OPCODE: usize = 4;

    pub const ARG0: usize = 5;

    pub const ARG1: usize = 6;

    pub const ARG2: usize = 7;

    pub const SELECTOR: usize = 8;

    pub const NUM_COLUMNS: usize = 9;
}

/// The CPU's side of the bus.
#[derive(Clone, Debug)]
pub struct CpuFetchUnit;

impl CpuFetchUnit {
    pub fn linking_spec() -> (r: PermutationCheckSpec)
        ensures
            r.kind == BusKind::Lookup,
            r.sources@ == fetch_sources(),
            r.selector == Some(8usize),
            r.clock_waiver is None,
    {
        PermutationCheckSpec::new_lookup(
            vec![
                (Source::Column(CpuFetchColumns::PC_B0), "kappa_pc_b0"),
                (Source::Column(CpuFetchColumns::PC_B1), "kappa_pc_b1"),
                (Source::Column(CpuFetchColumns::PC_B2), "kappa_pc_b2"),
                (Source::Column(CpuFetchColumns::PC_B3), "kappa_pc_b3"),
                (Source::Column(CpuFetchColumns::OPCODE), "kappa_opcode"),
                (Source::Column(CpuFetchColumns::ARG0), "kappa_arg0"),
                (Source::Column(CpuFetchColumns::ARG1), "kappa_arg1"),
                (Source::Column(CpuFetchColumns::ARG2), "kappa_arg2"),
            ],
            Some(CpuFetchColumns::SELECTOR),
        )
    }

    pub fn num_columns(&self) -> (r: usize)
        ensures
            r == 9,
    {
        CpuFetchColumns::NUM_COLUMNS
    }
}

/// One instruction of the image.
#[derive(Clone, Copy, Debug, PartialEq, Eq)]
pub struct Instruction {
    /// Program counter.
    pub pc: u32,
    pub opcode: u8,
    pub args: [u8; 3],
}

impl Instruction {
    pub fn new(pc: u32, opcode: u8, args: [u8; 3]) -> (r: Self)
        ensures
            r.pc == pc,
            r.opcode == opcode,
            r.args == args,
    {
        Instruction { pc, opcode, args }
    }

    /// The counter's bytes, least significant first.
    pub fn pc_bytes(&self) -> (r: [u8; 4])
        ensures
            r@ == bytes::le_bytes(self.pc as nat, 4),
    {
        bytes::le_bytes4(self.pc)
    }

    pub fn opcode(&self) -> (r: u8)
        ensures
            r == self.opcode,
    {
        self.opcode
    }

    pub fn args(&self) -> (r: [u8; 3])
        ensures
            r == self.args,
    {
        self.args
    }

    /// The key components of a fetch of this instruction.
    pub open spec fn fetch_key(self) -> Seq<u128> {
        let pc = bytes::le_bytes(self.pc as nat, 4);
        seq![
            pc[0] as u128,
            pc[1] as u128,
            pc[2] as u128,
            pc[3] as u128,
            self.opcode as u128,
            self.args[0] as u128,
            self.args[1] as u128,
            self.args[2] as u128,
        ]
    }
}

/// The cells of row `r` of an image: an instruction with its selector set,
/// or padding.
pub open spec fn rom_cell(instructions: Seq<Instruction>, c: int, r: int) -> u128 {
    if r < instructions.len() {
        if c < 8 {
            instructions[r].fetch_key()[c]
        } else {
            1
        }
    } else {
        0
    }
}

/// The image of a list of instructions: one row each, then padding.
pub fn generate_rom_trace(instructions: &[Instruction], num_rows: usize) -> (res: Result<
    ColumnTrace,
    Error,
>)
    requires
        bits::is_power_of_two(num_rows as nat),
    ensures
        res is Ok <==> instructions@.len() <= num_rows,
        res matches Ok(t) ==> {
            &&& t.wf()
            &&& pow2(t.num_vars as nat) == num_rows
            &&& t.layout() == fetch_layout()
            &&& forall|c: int, r: int|
                0 <= c < 9 && 0 <= r < num_rows ==> #[trigger] t.at(c, r) == rom_cell(
                    instructions@,
                    c,
                    r,
                )
        },
        res matches Err(e) ==> e.is_protocol("rom"@, "too many instructions for trace size"@),
{
    if instructions.len() > num_rows {
        return Err(
            Error::Protocol { protocol: "rom", message: "too many instructions for trace size" },
        );
    }
    let num_vars: usize = match trace::exact_log2(num_rows) {
        Some(k) => k,
        None => 0,
    };
    let layout = RomColumns::build_layout();
    let mut tb = TraceBuilder::new(layout.as_slice(), num_vars)?;
    for i in 0..instructions.len()
        invariant
            instructions@.len() <= num_rows,
            num_rows as nat == pow2(num_vars as nat),
            tb.wf(),
            tb.layout() == fetch_layout(),
            tb.vars() == num_vars,
            forall|c: int, r: int|
                0 <= c < 8 && 0 <= r < i ==> #[trigger] tb.at(c, r)
                    == instructions@[r].fetch_key()[c],
            forall|c: int, r: int|
                0 <= c < 9 && i <= r < num_rows ==> #[trigger] tb.at(c, r) == 0,
    {
        let instr = instructions[i];
        let pc = instr.pc_bytes();
        tb.set_b32(RomColumns::PC_B0, i, Block32(pc[0] as u32))?;
        tb.set_b32(RomColumns::PC_B1, i, Block32(pc[1] as u32))?;
        tb.set_b32(RomColumns::PC_B2, i, Block32(pc[2] as u32))?;
        tb.set_b32(RomColumns::PC_B3, i, Block32(pc[3] as u32))?;
        tb.set_b32(RomColumns::OPCODE, i, Block32(instr.opcode as u32))?;
        tb.set_b32(RomColumns::ARG0, i, Block32(instr.args[0] as u32))?;
        tb.set_b32(RomColumns::ARG1, i, Block32(instr.args[1] as u32))?;
        tb.set_b32(RomColumns::ARG2, i, Block32(instr.args[2] as u32))?;
    }
    tb.fill_selector(RomColumns::SELECTOR, instructions.len())?;
    Ok(tb.build())
}

// ---------------------------------------------------------------
// Laws
// ---------------------------------------------------------------

/// The key of an image row is the key of its instruction, and two fetches
/// with the same key are of the same instruction: the bus pins counter,
/// opcode and arguments.
pub proof fn law_key_is_the_instruction(a: Instruction, b: Instruction)
    ensures
        a.fetch_key() == b.fetch_key() <==> a == b,
{
    if a.fetch_key() == b.fetch_key() {
        let (x, y) = (a.fetch_key(), b.fetch_key());
        assert(x[0] == y[0] && x[1] == y[1] && x[2] == y[2] && x[3] == y[3] && x[4] == y[4] && x[5]
            == y[5] && x[6] == y[6] && x[7] == y[7]);
        bytes::lemma_byte_pow_values();
        bytes::lemma_le_bytes_len(a.pc as nat, 4);
        bytes::lemma_le_bytes_len(b.pc as nat, 4);
        assert(bytes::le_bytes(a.pc as nat, 4) =~= bytes::le_bytes(b.pc as nat, 4));
        bytes::law_le_injective(a.pc as nat, b.pc as nat, 4);
        assert(a.args =~= b.args);
    }
}

/// What the bus reads from an image row is the instruction's key.
pub proof fn law_rows_present_their_key(
    spec: PermutationCheckSpec,
    instructions: Seq<Instruction>,
    r: int,
    index: nat,
)
    requires
        spec.sources@ == fetch_sources(),
        0 <= r < instructions.len(),
    ensures
        spec.key(Seq::new(9, |c: int| rom_cell(instructions, c, r)), index)
            == instructions[r].fetch_key(),
{
    let row = Seq::new(9, |c: int| rom_cell(instructions, c, r));
    assert(spec.key(row, index) =~= instructions[r].fetch_key());
}

/// A row is selected where it holds an instruction; padding rows are zero.
pub proof fn law_selected_rows(instructions: Seq<Instruction>, c: int, r: int)
    requires
        0 <= c < 9,
        0 <= r,
    ensures
        rom_cell(instructions, 8, r) == 1 <==> r < instructions.len(),
        r >= instructions.len() ==> rom_cell(instructions, c, r) == 0,
{
}

} // verus!
