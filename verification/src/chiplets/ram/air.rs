//! The constraints of the memory table.

use vstd::arithmetic::power2::*;
use vstd::prelude::*;

use super::table;
use super::table::RamColumns;
use crate::bits;
use crate::field::gf;
use crate::field::Block128;
use crate::program::constraint;
use crate::program::constraint::{ConstraintAst, ConstraintSystem, Env, Expr};
use crate::program::expander;
use crate::program::expander::VirtualExpander;
use crate::program::permutation::{
    BusKind, FixedColumn, FixedShape, PermutationCheckSpec, Source,
};
use crate::trace::ColumnType;

verus! {

/// Why the table's key on the event bus needs no clock of its own.
pub const EVENT_BUS_WAIVER: &'static str = "see ram.rs: partner CpuMemoryUnit::linking_spec carries Source::RowIndexByte; this side stores that clock in committed CLK_B0..3 columns sorted by AIR";

/// Why the key of the value bus needs no clock of its own.
pub const VALUE_BUS_WAIVER: &'static str = "see hekate-gadgets/src/ram.rs: RAM-internal value binding pinned by sorted-by-(addr,clk) AIR transitions plus CpuMemoryUnit linking_spec";

/// The memory table.
#[derive(Clone, Debug)]
pub struct RamChiplet {
    /// Number of rows, a power of two.
    pub num_rows: usize,
}

/// The key of an event: address, clock and value bytes, and the write flag.
pub open spec fn event_sources() -> Seq<(Source, &'static str)> {
    seq![
        (Source::Column(64), "kappa_addr_b0"),
        (Source::Column(65), "kappa_addr_b1"),
        (Source::Column(66), "kappa_addr_b2"),
        (Source::Column(67), "kappa_addr_b3"),
        (Source::Column(68), "kappa_clk_b0"),
        (Source::Column(69), "kappa_clk_b1"),
        (Source::Column(70), "kappa_clk_b2"),
        (Source::Column(71), "kappa_clk_b3"),
        (Source::Column(72), "kappa_val_b0"),
        (Source::Column(73), "kappa_val_b1"),
        (Source::Column(74), "kappa_val_b2"),
        (Source::Column(75), "kappa_val_b3"),
        (Source::Column(78), "kappa_is_write"),
    ]
}

/// The key of a value handed out: the word, the address and clock bytes.
pub open spec fn value_sources() -> Seq<(Source, &'static str)> {
    seq![
        (Source::Column(76), "kappa_val_packed"),
        (Source::Column(64), "kappa_vb_addr_b0"),
        (Source::Column(65), "kappa_vb_addr_b1"),
        (Source::Column(66), "kappa_vb_addr_b2"),
        (Source::Column(67), "kappa_vb_addr_b3"),
        (Source::Column(68), "kappa_vb_clk_b0"),
        (Source::Column(69), "kappa_vb_clk_b1"),
        (Source::Column(70), "kappa_vb_clk_b2"),
        (Source::Column(71), "kappa_vb_clk_b3"),
    ]
}

/// The virtual columns: the bits of the two packed words, then the other
/// committed columns.
pub open spec fn ram_virtuals() -> Seq<expander::VirtualColumn> {
    expander::bit_columns(0, 32, 64) + expander::whole_columns(2, 19)
}

impl RamChiplet {
    pub const BUS_ID: &'static str = "ram_link";

    pub const VALUE_BUS_ID: &'static str = "ram_value_bind";

    pub fn new(num_rows: usize) -> (r: Self)
        requires
            bits::is_power_of_two(num_rows as nat),
        ensures
            r.num_rows == num_rows,
    {
        RamChiplet { num_rows }
    }

    pub fn num_rows(&self) -> (r: usize)
        ensures
            r == self.num_rows,
    {
        self.num_rows
    }

    pub fn num_columns(&self) -> (r: usize)
        ensures
            r == 83,
    {
        RamColumns::NUM_COLUMNS
    }

    /// The committed columns' types.
    pub fn build_physical_layout() -> (r: Vec<ColumnType>)
        ensures
            r@ == table::ram_layout(),
            r@.len() == 21,
    {
        table::build_layout()
    }

    /// The table's side of the event bus. All thirteen fields of an event
    /// are in the key.
    pub fn linking_spec() -> (r: PermutationCheckSpec)
        ensures
            r.kind == BusKind::Permutation,
            r.sources@ == event_sources(),
            r.selector == Some(79usize),
            r.clock_waiver == Some(EVENT_BUS_WAIVER),
    {
        PermutationCheckSpec::new(
            vec![
                (Source::Column(RamColumns::ADDR_B0), "kappa_addr_b0"),
                (Source::Column(RamColumns::ADDR_B1), "kappa_addr_b1"),
                (Source::Column(RamColumns::ADDR_B2), "kappa_addr_b2"),
                (Source::Column(RamColumns::ADDR_B3), "kappa_addr_b3"),
                (Source::Column(RamColumns::CLK_B0), "kappa_clk_b0"),
                (Source::Column(RamColumns::CLK_B1), "kappa_clk_b1"),
                (Source::Column(RamColumns::CLK_B2), "kappa_clk_b2"),
                (Source::Column(RamColumns::CLK_B3), "kappa_clk_b3"),
                (Source::Column(RamColumns::VAL_B0), "kappa_val_b0"),
                (Source::Column(RamColumns::VAL_B1), "kappa_val_b1"),
                (Source::Column(RamColumns::VAL_B2), "kappa_val_b2"),
                (Source::Column(RamColumns::VAL_B3), "kappa_val_b3"),
                (Source::Column(RamColumns::IS_WRITE), "kappa_is_write"),
            ],
            Some(RamColumns::SELECTOR),
        ).with_clock_waiver(EVENT_BUS_WAIVER)
    }

    /// The bus that hands a value out as one word.
    pub fn value_binding_spec() -> (r: PermutationCheckSpec)
        ensures
            r.kind == BusKind::Permutation,
            r.selector == Some(79usize),
            r.clock_waiver == Some(VALUE_BUS_WAIVER),
            r.sources@ == seq![
                (Source::Column(76), "kappa_val_packed"),
                (Source::Column(64), "kappa_vb_addr_b0"),
                (Source::Column(65), "kappa_vb_addr_b1"),
                (Source::Column(66), "kappa_vb_addr_b2"),
                (Source::Column(67), "kappa_vb_addr_b3"),
                (Source::Column(68), "kappa_vb_clk_b0"),
                (Source::Column(69), "kappa_vb_clk_b1"),
                (Source::Column(70), "kappa_vb_clk_b2"),
                (Source::Column(71), "kappa_vb_clk_b3"),
            ],
            r.sources@ == value_sources(),
    {
        PermutationCheckSpec::new(
            vec![
                (Source::Column(RamColumns::VAL_PACKED), "kappa_val_packed"),
                (Source::Column(RamColumns::ADDR_B0), "kappa_vb_addr_b0"),
                (Source::Column(RamColumns::ADDR_B1), "kappa_vb_addr_b1"),
                (Source::Column(RamColumns::ADDR_B2), "kappa_vb_addr_b2"),
                (Source::Column(RamColumns::ADDR_B3), "kappa_vb_addr_b3"),
                (Source::Column(RamColumns::CLK_B0), "kappa_vb_clk_b0"),
                (Source::Column(RamColumns::CLK_B1), "kappa_vb_clk_b1"),
                (Source::Column(RamColumns::CLK_B2), "kappa_vb_clk_b2"),
                (Source::Column(RamColumns::CLK_B3), "kappa_vb_clk_b3"),
            ],
            Some(RamColumns::SELECTOR),
        ).with_clock_waiver(VALUE_BUS_WAIVER)
    }

    pub fn name(&self) -> (r: String)
        ensures
            r@ == "RamChiplet"@,
    {
        "RamChiplet".to_owned()
    }

    pub fn column_layout(&self) -> (r: Vec<ColumnType>)
        ensures
            r@ == table::ram_layout(),
    {
        table::build_layout()
    }

    pub fn permutation_checks(&self) -> (r: Vec<(String, PermutationCheckSpec)>)
        ensures
            r@.len() == 1,
            r@[0].0@ == "ram_link"@,
            r@[0].1.kind == BusKind::Permutation,
            r@[0].1.sources@ == event_sources(),
            r@[0].1.selector == Some(79usize),
            r@[0].1.clock_waiver == Some(EVENT_BUS_WAIVER),
    {
        vec![("ram_link".to_owned(), RamChiplet::linking_spec())]
    }

    /// The step flag is set in every row but the last, the first-row flag in
    /// the first row only.
    pub fn fixed_columns(&self) -> (r: Vec<FixedColumn>)
        ensures
            r@ == seq![
                FixedColumn { col: 80, shape: FixedShape::LastRow },
                FixedColumn { col: 81, shape: FixedShape::FirstRow },
            ],
    {
        vec![
            FixedColumn { col: RamColumns::Q_STEP, shape: FixedShape::LastRow },
            FixedColumn { col: RamColumns::Q_FIRST, shape: FixedShape::FirstRow },
        ]
    }

    pub fn virtual_expander(&self) -> (r: Option<VirtualExpander>)
        ensures
            r matches Some(x) && x.wf() && x.layout() == table::ram_layout() && x.virtuals()
                == ram_virtuals(),
    {
        let x = VirtualExpander::new().expand_bits(
            table::NUM_PACKED_B32,
            ColumnType::B32,
        ).pass_through(table::NUM_B32_DATA, ColumnType::B32).pass_through(
            table::NUM_B128,
            ColumnType::B128,
        ).control_bits(table::NUM_CONTROL_BIT);
        assert(x.layout() =~= table::ram_layout());
        assert(x.virtuals() =~= ram_virtuals());
        Some(x)
    }

    /// Everything imposed of a row and the row after it.
    pub fn constraint_ast(&self) -> (r: ConstraintAst)
        ensures
            r.wf(),
            forall|env: Env| (#[trigger] r.root_values(env)) == ram_roots(env),
    {
        let mut cs = ConstraintSystem::new();
        flag_constraints(&mut cs);
        access_constraints(&mut cs);
        mark_constraints(&mut cs);
        key_constraints(&mut cs);
        order_constraints(&mut cs);
        value_constraints(&mut cs);
        frame_constraints(&mut cs);
        proof {
            assert forall|env: Env| (#[trigger] cs.root_values(env)) == ram_roots(env) by {
                assert(cs.root_values(env) =~= ram_roots(env));
            }
        }
        cs.build()
    }
}

// ---------------------------------------------------------------
// What is imposed
// ---------------------------------------------------------------

/// Everything imposed of a row and the row after it.
pub open spec fn ram_roots(env: Env) -> Seq<u128> {
    flag_roots(env) + access_roots(env) + mark_roots(env, 8) + key_roots(env, 8) + order_roots(env)
        + value_roots(env) + frame_roots(env)
}

/// `Σ 256^j · (next_j + cur_j)` over four byte columns.
pub open spec fn byte_difference(env: Env, start: int) -> u128 {
    constraint::xor_all(
        seq![
            gf::gf128_mul(1, env.next[start] ^ env.cur[start]),
            gf::gf128_mul(256, env.next[start + 1] ^ env.cur[start + 1]),
            gf::gf128_mul(65536, env.next[start + 2] ^ env.cur[start + 2]),
            gf::gf128_mul(16777216, env.next[start + 3] ^ env.cur[start + 3]),
        ],
    )
}

/// The flags are boolean.
pub open spec fn flag_roots(env: Env) -> Seq<u128> {
    seq![
        constraint::boolean_residue(env.cur[79]),
        constraint::boolean_residue(env.cur[80]),
        constraint::boolean_residue(env.cur[81]),
        constraint::boolean_residue(env.cur[78]),
    ]
}

/// What one access says of the next: the inverse is one, a read repeats the
/// value at its address, the first read at an address gives zero.
pub open spec fn access_roots(env: Env) -> Seq<u128> {
    let (cur, next) = (env.cur, env.next);
    let step = cur[80];
    let d = byte_difference(env, 64);
    let d_inv = gf::gf128_mul(d, cur[77]);
    let v = byte_difference(env, 72);
    let read = 1 ^ next[78];
    let fresh = gf::gf128_mul(d_inv, read);
    let first_read = gf::gf128_mul(cur[81], 1 ^ cur[78]);
    seq![
        gf::gf128_mul(step, d ^ gf::gf128_mul(d, d_inv)),
        gf::gf128_mul(step, gf::gf128_mul(gf::gf128_mul(1 ^ d_inv, read), v)),
        gf::gf128_mul(step, gf::gf128_mul(fresh, next[72])),
        gf::gf128_mul(step, gf::gf128_mul(fresh, next[73])),
        gf::gf128_mul(step, gf::gf128_mul(fresh, next[74])),
        gf::gf128_mul(step, gf::gf128_mul(fresh, next[75])),
        gf::gf128_mul(first_read, cur[72]),
        gf::gf128_mul(first_read, cur[73]),
        gf::gf128_mul(first_read, cur[74]),
        gf::gf128_mul(first_read, cur[75]),
    ]
}

/// The marks add up to one, and the first `n` helper bits are boolean.
pub open spec fn mark_roots(env: Env, n: nat) -> Seq<u128>
    decreases n,
{
    if n == 0 {
        seq![constraint::xor_all(constraint::cells(env.cur, 0, 8)) ^ 1]
    } else {
        let i = n - 1;
        mark_roots(env, i as nat) + seq![
            constraint::boolean_residue(env.cur[8 + i]),
            constraint::boolean_residue(env.cur[16 + i]),
            constraint::boolean_residue(env.cur[24 + i]),
            constraint::boolean_residue(env.cur[i]),
        ]
    }
}

/// The column of the `i`-th key byte, most significant first.
pub open spec fn key_column(i: int) -> int {
    if i < 4 {
        67 - i
    } else {
        75 - i
    }
}

/// The first `h` key bytes agree, where the `i`-th is marked.
pub open spec fn agree_roots(env: Env, i: int, h: nat) -> Seq<u128>
    decreases h,
{
    if h == 0 {
        Seq::empty()
    } else {
        agree_roots(env, i, (h - 1) as nat).push(
            gf::gf128_mul(
                gf::gf128_mul(env.cur[80], env.cur[i]),
                env.next[key_column(h - 1)] ^ env.cur[key_column(h - 1)],
            ),
        )
    }
}

/// The marked byte, among the first `n`, is the one whose bits are given,
/// and the bytes above it agree.
pub open spec fn key_roots(env: Env, n: nat) -> Seq<u128>
    decreases n,
{
    if n == 0 {
        Seq::empty()
    } else {
        let i = n - 1;
        key_roots(env, i as nat) + seq![
            gf::gf128_mul(
                gf::gf128_mul(env.cur[80], env.cur[i]),
                env.next[key_column(i)] ^ constraint::weighted(constraint::cells(env.cur, 16, 8)),
            ),
            gf::gf128_mul(
                env.cur[i],
                env.cur[key_column(i)] ^ constraint::weighted(constraint::cells(env.cur, 24, 8)),
            ),
        ] + agree_roots(env, i, i as nat)
    }
}

/// The comparison applies: there is a next row, and it holds an event.
pub open spec fn compare_gate(env: Env) -> u128 {
    gf::gf128_mul(env.cur[80], env.next[79])
}

/// The first `n` helper bits are boolean where the comparison applies.
pub open spec fn gated_boolean_roots(env: Env, n: nat) -> Seq<u128>
    decreases n,
{
    if n == 0 {
        Seq::empty()
    } else {
        let i = n - 1;
        let g = compare_gate(env);
        let (a, b, d) = (env.cur[16 + i], env.cur[24 + i], env.cur[8 + i]);
        gated_boolean_roots(env, i as nat) + seq![
            gf::gf128_mul(g, gf::gf128_mul(a, a) ^ a),
            gf::gf128_mul(g, gf::gf128_mul(b, b) ^ b),
            gf::gf128_mul(g, gf::gf128_mul(d, d) ^ d),
        ]
    }
}

/// At the marked bit, among the first `n`, the next byte has a one and this
/// byte a zero.
pub open spec fn greater_roots(env: Env, n: nat) -> Seq<u128>
    decreases n,
{
    if n == 0 {
        Seq::empty()
    } else {
        let i = n - 1;
        greater_roots(env, i as nat).push(
            gf::gf128_mul(
                compare_gate(env),
                gf::gf128_mul(
                    env.cur[8 + i],
                    gf::gf128_mul(env.cur[16 + i], env.cur[24 + i] ^ 1) ^ 1,
                ),
            ),
        )
    }
}

/// The bits from `i + 1` to below `n` agree where bit `i` is marked.
pub open spec fn higher_roots(env: Env, i: int, n: nat) -> Seq<u128>
    decreases n,
{
    if n == 0 || n <= i + 1 {
        Seq::empty()
    } else {
        higher_roots(env, i, (n - 1) as nat).push(
            gf::gf128_mul(
                compare_gate(env),
                gf::gf128_mul(env.cur[8 + i], env.cur[16 + n - 1] ^ env.cur[24 + n - 1]),
            ),
        )
    }
}

/// The bits above the marked one, among the first `n`, agree.
pub open spec fn equal_above_roots(env: Env, n: nat) -> Seq<u128>
    decreases n,
{
    if n == 0 {
        Seq::empty()
    } else {
        equal_above_roots(env, (n - 1) as nat) + higher_roots(env, n - 1, 8)
    }
}

/// The next key is greater.
pub open spec fn order_roots(env: Env) -> Seq<u128> {
    seq![
        gf::gf128_mul(
            compare_gate(env),
            constraint::xor_all(constraint::cells(env.cur, 8, 8)) ^ 1,
        ),
    ] + gated_boolean_roots(env, 8) + greater_roots(env, 8) + equal_above_roots(env, 8)
}

/// The first `n` value bytes have the bits given.
pub open spec fn byte_binding_roots(cur: Seq<u128>, n: nat) -> Seq<u128>
    decreases n,
{
    if n == 0 {
        Seq::empty()
    } else {
        byte_binding_roots(cur, (n - 1) as nat).push(
            cur[72 + n - 1] ^ constraint::weighted(constraint::cells(cur, 32 + 8 * (n - 1), 8)),
        )
    }
}

/// The value's bits are boolean, and its bytes and its word are theirs.
pub open spec fn value_roots(env: Env) -> Seq<u128> {
    constraint::boolean_residues(constraint::cells(env.cur, 32, 32)) + byte_binding_roots(
        env.cur,
        4,
    ) + seq![env.cur[76] ^ constraint::weighted(constraint::cells(env.cur, 32, 32))]
}

/// Padding writes nothing, and exactly the last row is not stepped from.
pub open spec fn frame_roots(env: Env) -> Seq<u128> {
    seq![
        gf::gf128_mul(1 ^ env.cur[79], env.cur[78]),
        constraint::boolean_residue(env.cur[82]),
        (env.cur[80] ^ env.cur[82]) ^ 1,
        gf::gf128_mul(env.cur[82], env.next[82]),
    ]
}

// ---------------------------------------------------------------
// Building
// ---------------------------------------------------------------

/// `Σ 256^j · (next_j + cur_j)` over four byte columns.
fn difference(cs: &mut ConstraintSystem, start: usize) -> (r: Expr)
    requires
        old(cs).wf(),
        start <= 80,
    ensures
        final(cs).wf(),
        final(cs).has(r),
        final(cs).extends(*old(cs)),
        forall|env: Env|
            #[trigger] final(cs).value(r, env) == byte_difference(env, start as int),
        forall|env: Env| (#[trigger] final(cs).root_values(env)) == old(cs).root_values(env),
{
    let n0 = cs.next(start);
    let c0 = cs.col(start);
    let d0 = cs.plus(n0, c0);
    let t0 = cs.scale(Block128(1), d0);
    let n1 = cs.next(start + 1);
    let c1 = cs.col(start + 1);
    let d1 = cs.plus(n1, c1);
    let t1 = cs.scale(Block128(256), d1);
    let n2 = cs.next(start + 2);
    let c2 = cs.col(start + 2);
    let d2 = cs.plus(n2, c2);
    let t2 = cs.scale(Block128(65536), d2);
    let n3 = cs.next(start + 3);
    let c3 = cs.col(start + 3);
    let d3 = cs.plus(n3, c3);
    let t3 = cs.scale(Block128(16777216), d3);
    let terms: Vec<Expr> = vec![t0, t1, t2, t3];
    let ghost mid = *cs;
    let r = cs.sum(terms.as_slice());
    proof {
        assert forall|env: Env| #[trigger] cs.value(r, env) == byte_difference(
            env,
            start as int,
        ) by {
            assert(mid.values(terms@, env) =~= seq![
                gf::gf128_mul(1, env.next[start as int] ^ env.cur[start as int]),
                gf::gf128_mul(256, env.next[start + 1] ^ env.cur[start + 1]),
                gf::gf128_mul(65536, env.next[start + 2] ^ env.cur[start + 2]),
                gf::gf128_mul(16777216, env.next[start + 3] ^ env.cur[start + 3]),
            ]);
        }
    }
    r
}

fn flag_constraints(cs: &mut ConstraintSystem)
    requires
        old(cs).wf(),
    ensures
        final(cs).wf(),
        forall|env: Env|
            (#[trigger] final(cs).root_values(env)) == old(cs).root_values(env) + flag_roots(env),
{
    let selector = cs.col(RamColumns::SELECTOR);
    cs.assert_boolean(selector);
    let q_step = cs.col(RamColumns::Q_STEP);
    cs.assert_boolean(q_step);
    let q_first = cs.col(RamColumns::Q_FIRST);
    cs.assert_boolean(q_first);
    let is_write = cs.col(RamColumns::IS_WRITE);
    cs.assert_boolean(is_write);
    proof {
        assert forall|env: Env| (#[trigger] cs.root_values(env)) == old(cs).root_values(env)
            + flag_roots(env) by {
            assert(cs.root_values(env) =~= old(cs).root_values(env) + flag_roots(env));
        }
    }
}

fn access_constraints(cs: &mut ConstraintSystem)
    requires
        old(cs).wf(),
    ensures
        final(cs).wf(),
        forall|env: Env|
            (#[trigger] final(cs).root_values(env)) == old(cs).root_values(env) + access_roots(env),
{
    let one = cs.one();
    let q_step = cs.col(RamColumns::Q_STEP);
    let q_first = cs.col(RamColumns::Q_FIRST);
    let inv = cs.col(RamColumns::AUX_INV);
    let is_write = cs.col(RamColumns::IS_WRITE);
    let is_write_next = cs.next(RamColumns::IS_WRITE);
    let d = difference(cs, RamColumns::ADDR_B0);
    let d_inv = cs.times(d, inv);
    let dd = cs.times(d, d_inv);
    let inverse = cs.plus(d, dd);
    cs.assert_zero_when(q_step, inverse);
    let v_diff = difference(cs, RamColumns::VAL_B0);
    let same = cs.plus(one, d_inv);
    let read = cs.plus(one, is_write_next);
    let same_read = cs.times(same, read);
    let kept = cs.times(same_read, v_diff);
    cs.assert_zero_when(q_step, kept);
    let ghost mid = *cs;
    let fresh = cs.times(d_inv, read);
    let v0 = cs.next(RamColumns::VAL_B0);
    let e0 = cs.times(fresh, v0);
    cs.assert_zero_when(q_step, e0);
    let v1 = cs.next(RamColumns::VAL_B1);
    let e1 = cs.times(fresh, v1);
    cs.assert_zero_when(q_step, e1);
    let v2 = cs.next(RamColumns::VAL_B2);
    let e2 = cs.times(fresh, v2);
    cs.assert_zero_when(q_step, e2);
    let v3 = cs.next(RamColumns::VAL_B3);
    let e3 = cs.times(fresh, v3);
    cs.assert_zero_when(q_step, e3);
    let late = cs.plus(one, is_write);
    let first_read = cs.times(q_first, late);
    let w0 = cs.col(RamColumns::VAL_B0);
    let f0 = cs.times(first_read, w0);
    cs.constrain(f0);
    let w1 = cs.col(RamColumns::VAL_B1);
    let f1 = cs.times(first_read, w1);
    cs.constrain(f1);
    let w2 = cs.col(RamColumns::VAL_B2);
    let f2 = cs.times(first_read, w2);
    cs.constrain(f2);
    let w3 = cs.col(RamColumns::VAL_B3);
    let f3 = cs.times(first_read, w3);
    cs.constrain(f3);
    proof {
        assert forall|env: Env| (#[trigger] cs.root_values(env)) == old(cs).root_values(env)
            + access_roots(env) by {
            assert(cs.root_values(env) =~= old(cs).root_values(env) + access_roots(env));
        }
    }
}

fn mark_constraints(cs: &mut ConstraintSystem)
    requires
        old(cs).wf(),
    ensures
        final(cs).wf(),
        forall|env: Env|
            (#[trigger] final(cs).root_values(env)) == old(cs).root_values(env) + mark_roots(
                env,
                8,
            ),
{
    let diff_byte = cs.cols(RamColumns::DIFF_BYTE_IDX, 8);
    cs.assert_one_hot(diff_byte.as_slice());
    proof {
        assert forall|env: Env| (#[trigger] cs.root_values(env)) == old(cs).root_values(env)
            + mark_roots(env, 0) by {
            assert(cs.root_values(env) =~= old(cs).root_values(env) + mark_roots(env, 0));
        }
    }
    for i in 0..8usize
        invariant
            cs.wf(),
            forall|env: Env|
                (#[trigger] cs.root_values(env)) == old(cs).root_values(env) + mark_roots(
                    env,
                    i as nat,
                ),
    {
        let ghost before = *cs;
        let d = cs.col(RamColumns::DIFF_BIT_IDX + i);
        cs.assert_boolean(d);
        let a = cs.col(RamColumns::A_BITS + i);
        cs.assert_boolean(a);
        let b = cs.col(RamColumns::B_BITS + i);
        cs.assert_boolean(b);
        let m = cs.col(RamColumns::DIFF_BYTE_IDX + i);
        cs.assert_boolean(m);
        proof {
            assert forall|env: Env| (#[trigger] cs.root_values(env)) == old(cs).root_values(env)
                + mark_roots(env, (i + 1) as nat) by {
                assert(cs.root_values(env) =~= before.root_values(env) + seq![
                    constraint::boolean_residue(env.cur[8 + i]),
                    constraint::boolean_residue(env.cur[16 + i]),
                    constraint::boolean_residue(env.cur[24 + i]),
                    constraint::boolean_residue(env.cur[i as int]),
                ]);
                assert(cs.root_values(env) =~= old(cs).root_values(env) + mark_roots(
                    env,
                    (i + 1) as nat,
                ));
            }
        }
    }
}

/// The column of the `i`-th key byte, most significant first.
fn key_col(i: usize) -> (r: usize)
    requires
        i < 8,
    ensures
        r == key_column(i as int),
{
    if i < 4 {
        RamColumns::ADDR_B3 - i
    } else {
        RamColumns::CLK_B3 + 4 - i
    }
}

fn key_constraints(cs: &mut ConstraintSystem)
    requires
        old(cs).wf(),
    ensures
        final(cs).wf(),
        forall|env: Env|
            (#[trigger] final(cs).root_values(env)) == old(cs).root_values(env) + key_roots(env, 8),
{
    let q_step = cs.col(RamColumns::Q_STEP);
    let a_bits = cs.cols(RamColumns::A_BITS, 8);
    let a_decomp = cs.weigh(a_bits.as_slice());
    let b_bits = cs.cols(RamColumns::B_BITS, 8);
    let b_decomp = cs.weigh(b_bits.as_slice());
    proof {
        assert forall|env: Env| (#[trigger] cs.root_values(env)) == old(cs).root_values(env)
            + key_roots(env, 0) by {
            assert(cs.root_values(env) =~= old(cs).root_values(env) + key_roots(env, 0));
        }
    }
    for i in 0..8usize
        invariant
            cs.wf(),
            cs.has(q_step),
            cs.has(a_decomp),
            cs.has(b_decomp),
            forall|env: Env| #[trigger] cs.value(q_step, env) == env.cur[80],
            forall|env: Env| #[trigger]
                cs.value(a_decomp, env) == constraint::weighted(constraint::cells(env.cur, 16, 8)),
            forall|env: Env| #[trigger]
                cs.value(b_decomp, env) == constraint::weighted(constraint::cells(env.cur, 24, 8)),
            forall|env: Env|
                (#[trigger] cs.root_values(env)) == old(cs).root_values(env) + key_roots(
                    env,
                    i as nat,
                ),
    {
        let ghost before = *cs;
        let is_diff = cs.col(RamColumns::DIFF_BYTE_IDX + i);
        let gate = cs.times(q_step, is_diff);
        let col: usize = key_col(i);
        let next_byte = cs.next(col);
        let next_off = cs.plus(next_byte, a_decomp);
        cs.assert_zero_when(gate, next_off);
        let cur_byte = cs.col(col);
        let cur_off = cs.plus(cur_byte, b_decomp);
        let marked = cs.times(is_diff, cur_off);
        cs.constrain(marked);
        let ghost mid = *cs;
        proof {
            assert forall|env: Env| (#[trigger] cs.root_values(env)) == mid.root_values(env)
                + agree_roots(env, i as int, 0) by {
                assert(cs.root_values(env) =~= mid.root_values(env) + agree_roots(
                    env,
                    i as int,
                    0,
                ));
            }
        }
        for h in 0..i
            invariant
                i < 8,
                cs.wf(),
                cs.has(q_step),
                cs.has(a_decomp),
                cs.has(b_decomp),
                cs.has(gate),
                forall|env: Env| #[trigger] cs.value(q_step, env) == env.cur[80],
                forall|env: Env| #[trigger]
                    cs.value(a_decomp, env) == constraint::weighted(constraint::cells(env.cur, 16, 8)),
                forall|env: Env| #[trigger]
                    cs.value(b_decomp, env) == constraint::weighted(constraint::cells(env.cur, 24, 8)),
                forall|env: Env| #[trigger]
                    cs.value(gate, env) == gf::gf128_mul(env.cur[80], env.cur[i as int]),
                forall|env: Env|
                    (#[trigger] cs.root_values(env)) == mid.root_values(env) + agree_roots(
                        env,
                        i as int,
                        h as nat,
                    ),
        {
            let ghost prev = *cs;
            let higher: usize = key_col(h);
            let hn = cs.next(higher);
            let hc = cs.col(higher);
            let off = cs.plus(hn, hc);
            cs.assert_zero_when(gate, off);
            proof {
                assert forall|env: Env| (#[trigger] cs.root_values(env)) == mid.root_values(env)
                    + agree_roots(env, i as int, (h + 1) as nat) by {
                    assert(prev.root_values(env) == mid.root_values(env) + agree_roots(
                        env,
                        i as int,
                        h as nat,
                    ));
                    assert(cs.root_values(env) =~= mid.root_values(env) + agree_roots(
                        env,
                        i as int,
                        (h + 1) as nat,
                    ));
                }
            }
        }
        proof {
            assert forall|env: Env| (#[trigger] cs.root_values(env)) == old(cs).root_values(env)
                + key_roots(env, (i + 1) as nat) by {
                assert(mid.root_values(env) =~= before.root_values(env) + seq![
                    gf::gf128_mul(
                        gf::gf128_mul(env.cur[80], env.cur[i as int]),
                        env.next[key_column(i as int)] ^ constraint::weighted(
                            constraint::cells(env.cur, 16, 8),
                        ),
                    ),
                    gf::gf128_mul(
                        env.cur[i as int],
                        env.cur[key_column(i as int)] ^ constraint::weighted(
                            constraint::cells(env.cur, 24, 8),
                        ),
                    ),
                ]);
                assert(cs.root_values(env) =~= old(cs).root_values(env) + key_roots(
                    env,
                    (i + 1) as nat,
                ));
            }
        }
    }
}

fn order_constraints(cs: &mut ConstraintSystem)
    requires
        old(cs).wf(),
    ensures
        final(cs).wf(),
        forall|env: Env|
            (#[trigger] final(cs).root_values(env)) == old(cs).root_values(env) + order_roots(env),
{
    let one = cs.one();
    let q_step = cs.col(RamColumns::Q_STEP);
    let s_next = cs.next(RamColumns::SELECTOR);
    let gate = cs.times(q_step, s_next);
    let diff_bit = cs.cols(RamColumns::DIFF_BIT_IDX, 8);
    let total = cs.sum(diff_bit.as_slice());
    let off = cs.plus(total, one);
    cs.assert_zero_when(gate, off);
    let ghost start = *cs;
    proof {
        assert forall|env: Env| (#[trigger] cs.root_values(env)) == start.root_values(env)
            + gated_boolean_roots(env, 0) by {
            assert(cs.root_values(env) =~= start.root_values(env) + gated_boolean_roots(env, 0));
        }
    }
    for i in 0..8usize
        invariant
            cs.wf(),
            cs.has(gate),
            cs.has(one),
            forall|env: Env| #[trigger] cs.value(gate, env) == compare_gate(env),
            forall|env: Env| #[trigger] cs.value(one, env) == 1,
            forall|env: Env|
                (#[trigger] cs.root_values(env)) == start.root_values(env) + gated_boolean_roots(
                    env,
                    i as nat,
                ),
    {
        let ghost before = *cs;
        let a = cs.col(RamColumns::A_BITS + i);
        let aa = cs.times(a, a);
        let ea = cs.plus(aa, a);
        cs.assert_zero_when(gate, ea);
        let b = cs.col(RamColumns::B_BITS + i);
        let bb = cs.times(b, b);
        let eb = cs.plus(bb, b);
        cs.assert_zero_when(gate, eb);
        let d = cs.col(RamColumns::DIFF_BIT_IDX + i);
        let dd = cs.times(d, d);
        let ed = cs.plus(dd, d);
        cs.assert_zero_when(gate, ed);
        proof {
            assert forall|env: Env| (#[trigger] cs.root_values(env)) == start.root_values(env)
                + gated_boolean_roots(env, (i + 1) as nat) by {
                assert(before.root_values(env) == start.root_values(env) + gated_boolean_roots(
                    env,
                    i as nat,
                ));
                assert(cs.root_values(env) =~= start.root_values(env) + gated_boolean_roots(
                    env,
                    (i + 1) as nat,
                ));
            }
        }
    }
    let ghost mid = *cs;
    proof {
        assert forall|env: Env| (#[trigger] cs.root_values(env)) == mid.root_values(env)
            + greater_roots(env, 0) by {
            assert(cs.root_values(env) =~= mid.root_values(env) + greater_roots(env, 0));
        }
    }
    for i in 0..8usize
        invariant
            cs.wf(),
            cs.has(gate),
            cs.has(one),
            forall|env: Env| #[trigger] cs.value(gate, env) == compare_gate(env),
            forall|env: Env| #[trigger] cs.value(one, env) == 1,
            forall|env: Env|
                (#[trigger] cs.root_values(env)) == mid.root_values(env) + greater_roots(
                    env,
                    i as nat,
                ),
    {
        let ghost before = *cs;
        let d = cs.col(RamColumns::DIFF_BIT_IDX + i);
        let a = cs.col(RamColumns::A_BITS + i);
        let b = cs.col(RamColumns::B_BITS + i);
        let b_off = cs.plus(b, one);
        let ab = cs.times(a, b_off);
        let ab_off = cs.plus(ab, one);
        let body = cs.times(d, ab_off);
        cs.assert_zero_when(gate, body);
        proof {
            assert forall|env: Env| (#[trigger] cs.root_values(env)) == mid.root_values(env)
                + greater_roots(env, (i + 1) as nat) by {
                assert(before.root_values(env) == mid.root_values(env) + greater_roots(
                    env,
                    i as nat,
                ));
                assert(cs.root_values(env) =~= mid.root_values(env) + greater_roots(
                    env,
                    (i + 1) as nat,
                ));
            }
        }
    }
    let ghost late = *cs;
    proof {
        assert forall|env: Env| (#[trigger] cs.root_values(env)) == late.root_values(env)
            + equal_above_roots(env, 0) by {
            assert(cs.root_values(env) =~= late.root_values(env) + equal_above_roots(env, 0));
        }
    }
    for i in 0..8usize
        invariant
            cs.wf(),
            cs.has(gate),
            forall|env: Env| #[trigger] cs.value(gate, env) == compare_gate(env),
            forall|env: Env|
                (#[trigger] cs.root_values(env)) == late.root_values(env) + equal_above_roots(
                    env,
                    i as nat,
                ),
    {
        let ghost outer = *cs;
        proof {
            assert forall|env: Env| (#[trigger] cs.root_values(env)) == outer.root_values(env)
                + higher_roots(env, i as int, (i + 1) as nat) by {
                assert(cs.root_values(env) =~= outer.root_values(env) + higher_roots(
                    env,
                    i as int,
                    (i + 1) as nat,
                ));
            }
        }
        for j in i + 1..8usize
            invariant
                i < 8,
                cs.wf(),
                cs.has(gate),
                forall|env: Env| #[trigger] cs.value(gate, env) == compare_gate(env),
                forall|env: Env|
                    (#[trigger] cs.root_values(env)) == outer.root_values(env) + higher_roots(
                        env,
                        i as int,
                        j as nat,
                    ),
        {
            let ghost before = *cs;
            let d = cs.col(RamColumns::DIFF_BIT_IDX + i);
            let a = cs.col(RamColumns::A_BITS + j);
            let b = cs.col(RamColumns::B_BITS + j);
            let ab = cs.plus(a, b);
            let body = cs.times(d, ab);
            cs.assert_zero_when(gate, body);
            proof {
                assert forall|env: Env| (#[trigger] cs.root_values(env)) == outer.root_values(env)
                    + higher_roots(env, i as int, (j + 1) as nat) by {
                    assert(before.root_values(env) == outer.root_values(env) + higher_roots(
                        env,
                        i as int,
                        j as nat,
                    ));
                    assert(cs.root_values(env) =~= outer.root_values(env) + higher_roots(
                        env,
                        i as int,
                        (j + 1) as nat,
                    ));
                }
            }
        }
        proof {
            assert forall|env: Env| (#[trigger] cs.root_values(env)) == late.root_values(env)
                + equal_above_roots(env, (i + 1) as nat) by {
                assert(outer.root_values(env) == late.root_values(env) + equal_above_roots(
                    env,
                    i as nat,
                ));
                assert(cs.root_values(env) =~= late.root_values(env) + equal_above_roots(
                    env,
                    (i + 1) as nat,
                ));
            }
        }
    }
    proof {
        assert forall|env: Env| (#[trigger] cs.root_values(env)) == old(cs).root_values(env)
            + order_roots(env) by {
            assert(start.root_values(env) =~= old(cs).root_values(env) + seq![
                gf::gf128_mul(
                    compare_gate(env),
                    constraint::xor_all(constraint::cells(env.cur, 8, 8)) ^ 1,
                ),
            ]);
            assert(cs.root_values(env) =~= old(cs).root_values(env) + order_roots(env));
        }
    }
}

fn value_constraints(cs: &mut ConstraintSystem)
    requires
        old(cs).wf(),
    ensures
        final(cs).wf(),
        forall|env: Env|
            (#[trigger] final(cs).root_values(env)) == old(cs).root_values(env) + value_roots(env),
{
    let val_bits = cs.cols(RamColumns::VAL_BITS, 32);
    cs.assert_booleans(val_bits.as_slice());
    let ghost start = *cs;
    proof {
        assert forall|env: Env| (#[trigger] cs.root_values(env)) == start.root_values(env)
            + byte_binding_roots(env.cur, 0) by {
            assert(cs.root_values(env) =~= start.root_values(env) + byte_binding_roots(env.cur, 0));
        }
    }
    for k in 0..4usize
        invariant
            cs.wf(),
            forall|env: Env|
                (#[trigger] cs.root_values(env)) == start.root_values(env) + byte_binding_roots(
                    env.cur,
                    k as nat,
                ),
    {
        let ghost before = *cs;
        let byte = cs.col(RamColumns::VAL_B0 + k);
        let bits = cs.cols(RamColumns::VAL_BITS + 8 * k, 8);
        let bit_sum = cs.weigh(bits.as_slice());
        let off = cs.plus(byte, bit_sum);
        cs.constrain(off);
        proof {
            assert forall|env: Env| (#[trigger] cs.root_values(env)) == start.root_values(env)
                + byte_binding_roots(env.cur, (k + 1) as nat) by {
                assert(before.root_values(env) == start.root_values(env) + byte_binding_roots(
                    env.cur,
                    k as nat,
                ));
                assert(cs.root_values(env) =~= start.root_values(env) + byte_binding_roots(
                    env.cur,
                    (k + 1) as nat,
                ));
            }
        }
    }
    let word = cs.col(RamColumns::VAL_PACKED);
    let bits = cs.cols(RamColumns::VAL_BITS, 32);
    let packed_sum = cs.weigh(bits.as_slice());
    let off = cs.plus(word, packed_sum);
    cs.constrain(off);
    proof {
        assert forall|env: Env| (#[trigger] cs.root_values(env)) == old(cs).root_values(env)
            + value_roots(env) by {
            assert(cs.root_values(env) =~= old(cs).root_values(env) + value_roots(env));
        }
    }
}

fn frame_constraints(cs: &mut ConstraintSystem)
    requires
        old(cs).wf(),
    ensures
        final(cs).wf(),
        forall|env: Env|
            (#[trigger] final(cs).root_values(env)) == old(cs).root_values(env) + frame_roots(env),
{
    let one = cs.one();
    let selector = cs.col(RamColumns::SELECTOR);
    let is_write = cs.col(RamColumns::IS_WRITE);
    let not_selector = cs.plus(one, selector);
    cs.assert_zero_when(not_selector, is_write);
    let q_last = cs.col(RamColumns::Q_LAST);
    cs.assert_boolean(q_last);
    let q_step = cs.col(RamColumns::Q_STEP);
    let both = cs.plus(q_step, q_last);
    let off = cs.plus(both, one);
    cs.constrain(off);
    let q_last_next = cs.next(RamColumns::Q_LAST);
    let twice = cs.times(q_last, q_last_next);
    cs.constrain(twice);
    proof {
        assert forall|env: Env| (#[trigger] cs.root_values(env)) == old(cs).root_values(env)
            + frame_roots(env) by {
            assert(cs.root_values(env) =~= old(cs).root_values(env) + frame_roots(env));
        }
    }
}

} // verus!
