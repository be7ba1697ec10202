//! The chiplet that answers for one exponentiation.

use vstd::arithmetic::power2::*;
use vstd::prelude::*;

use super::air;
use super::columns;
use super::columns::{
    declare, Layout, ModexpCols, ARR_N, ARR_R, ARR_S, FINAL_BLOCK, NUM_MODMULS, NUM_ROWS,
    RESULT_ROW, ROWS_PER_MODMUL,
};
use super::modexp::Modexp;
use super::modmul::LIMBS32;
use super::table;
use crate::atoms::exp_form;
use crate::atoms::exp_form::ExpBasis;
use crate::atoms::generator;
use crate::bits;
use crate::errors::Error;
use crate::field::Block128;
use crate::program::circuit::{Circuit, CircuitProgram, Col};
use crate::program::constraint;
use crate::program::constraint::Env;
use crate::program::permutation;
use crate::program::permutation::{
    Bus, BusKind, FixedColumn, FixedShape, Service, ServiceSlot, Source,
};
use crate::trace::{ColumnTrace, ColumnType};

verus! {

pub const BUS_ID: &'static str = "bignum_modexp";

pub const MODULUS_LABEL: &'static str = "kappa_modexp_n";

pub const BASE_LABEL: &'static str = "kappa_modexp_base";

pub const RESULT_LABEL: &'static str = "kappa_modexp_result";

// ---------------------------------------------------------------
// The service
// ---------------------------------------------------------------

/// The label of value `i` of a key: the modulus, the base, the result.
pub open spec fn value_label(i: int) -> Seq<char> {
    if i < 64 {
        MODULUS_LABEL@
    } else if i < 128 {
        BASE_LABEL@
    } else {
        RESULT_LABEL@
    }
}

/// A key is the limbs of the modulus, the base and the result, and the index
/// of the request in four bytes.
pub open spec fn is_service(s: Service) -> bool {
    &&& s.bus_id@ == BUS_ID@
    &&& s.kind == BusKind::Permutation
    &&& s.clock_waiver is None
    &&& s.slots@.len() == 193
    &&& forall|i: int|
        0 <= i < 192 ==> ((#[trigger] s.slots@[i]) matches ServiceSlot::Value(label) && label@
            == value_label(i))
    &&& s.slots@[192] matches ServiceSlot::RequestIdx { num_bytes } && num_bytes == 4
}

/// The order of the slots fixes the key's components; both sides of the bus
/// take it from here.
pub fn service() -> (r: Service)
    ensures
        is_service(r),
{
    let mut slots: Vec<ServiceSlot> = Vec::new();
    let mut i: usize = 0;
    while i < 3 * LIMBS32
        invariant
            i <= 192,
            slots@.len() == i,
            forall|t: int|
                0 <= t < i ==> ((#[trigger] slots@[t]) matches ServiceSlot::Value(label)
                    && label@ == value_label(t)),
        decreases 192 - i,
    {
        let label: &'static str = if i < LIMBS32 {
            MODULUS_LABEL
        } else if i < 2 * LIMBS32 {
            BASE_LABEL
        } else {
            RESULT_LABEL
        };
        slots.push(ServiceSlot::Value(label));
        i = i + 1;
    }
    slots.push(ServiceSlot::RequestIdx { num_bytes: 4 });
    Service { bus_id: BUS_ID, kind: BusKind::Permutation, slots, clock_waiver: None }
}

/// Every slot before the last is a value.
pub proof fn lemma_service_values(s: Service, n: nat)
    requires
        is_service(s),
        n <= 193,
    ensures
        permutation::values_before(s.slots@, n) == (if n <= 192 {
            n
        } else {
            192
        }),
    decreases n,
{
    if n > 0 {
        lemma_service_values(s, (n - 1) as nat);
        if n <= 192 {
            assert(s.slots@[n - 1] is Value);
        }
    }
}

// ---------------------------------------------------------------
// Fixed columns
// ---------------------------------------------------------------

fn cadence(values: Vec<Block128>, count: usize, origin: usize) -> (r: FixedShape)
    ensures
        r == (FixedShape::Cadence { stride: 32, count, origin, values }),
{
    FixedShape::Cadence { stride: ROWS_PER_MODMUL, count, origin, values }
}

/// One in row `i` of a block, zero in the others.
fn unit(i: usize) -> (r: Vec<Block128>)
    requires
        i < 32,
    ensures
        r@.len() == 32,
        forall|t: int|
            0 <= t < 32 ==> (#[trigger] r@[t]).0 == table::flag(t == i),
{
    let mut out: Vec<Block128> = Vec::new();
    let mut t: usize = 0;
    while t < ROWS_PER_MODMUL
        invariant
            t <= 32,
            out@.len() == t,
            forall|k: int|
                0 <= k < t ==> (#[trigger] out@[k]).0 == table::flag(k == i),
        decreases 32 - t,
    {
        out.push(
            if t == i {
                Block128(1)
            } else {
                Block128(0)
            },
        );
        t = t + 1;
    }
    out
}

/// `fixed` holds `flag` of every row in column `col`.
pub open spec fn fixes(fixed: FixedColumn, col: Col, when: spec_fn(int) -> bool) -> bool {
    &&& fixed.col == col.0
    &&& forall|row: int|
        0 <= row < 1024 ==> #[trigger] fixed.shape.at(row, 1024) == table::flag(when(row))
}

/// The selectors are fixed: first row, ends of blocks, row of the result and
/// place in the block.
pub open spec fn fixed_columns(list: Seq<FixedColumn>, k: ModexpCols) -> bool {
    &&& list.len() == 37
    &&& fixes(list[0], k.first, |row: int| row == 0)
    &&& fixes(list[1], k.block_end, |row: int| row % 32 == 31)
    &&& fixes(list[2], k.advance, |row: int| row % 32 == 31 && row / 32 < 31)
    &&& fixes(list[3], k.into_final, |row: int| row == 511)
    &&& fixes(list[4], k.emit, |row: int| row == 543)
    &&& forall|i: int|
        0 <= i < 32 ==> fixes(#[trigger] list[5 + i], air::nth(k.onehot, i), |row: int|
            row % 32 == i)
}

/// Fixes a column to one in row `i` of `count` blocks from block `first` on.
fn fix_cadence(cx: &mut Circuit, col: Col, i: usize, count: usize, first: usize)
    requires
        old(cx).wf(),
        i < 32,
        count <= 32,
        first <= 32,
    ensures
        final(cx).wf(),
        final(cx).title() == old(cx).title(),
        final(cx).height() == old(cx).height(),
        final(cx).layout() == old(cx).layout(),
        final(cx).virtuals() == old(cx).virtuals(),
        final(cx).bus_list() == old(cx).bus_list(),
        final(cx).constraints() == old(cx).constraints(),
        final(cx).fixed_list().len() == old(cx).fixed_list().len() + 1,
        final(cx).fixed_list().drop_last() == old(cx).fixed_list(),
        final(cx).fixed_list().last().col == col.0,
        forall|row: int|
            0 <= row < 1024 ==> #[trigger] final(cx).fixed_list().last().shape.at(row, 1024)
                == table::flag(row % 32 == i && first <= row / 32 < first + count),
{
    let values = unit(i);
    let shape = cadence(values, count, 32 * first);
    cx.fix(col, shape);
    proof {
        assert(cx.fixed_list().drop_last() =~= old(cx).fixed_list());
        let last = cx.fixed_list().last();
        assert forall|row: int| 0 <= row < 1024 implies #[trigger] last.shape.at(row, 1024)
            == table::flag(row % 32 == i && first <= row / 32 < first + count) by {
            if 32 * first <= row < 32 * first + count * 32 {
                assert((row - 32 * first) % 32 == row % 32);
                assert(values@[row % 32].0 == table::flag(row % 32 == i));
            }
        }
    }
}

/// Fixes the selectors.
#[verifier::rlimit(30)]
fn fix_selectors(cx: &mut Circuit, k: &ModexpCols)
    requires
        old(cx).wf(),
        old(cx).fixed_list().len() == 0,
        k.wf(),
    ensures
        final(cx).wf(),
        final(cx).title() == old(cx).title(),
        final(cx).height() == old(cx).height(),
        final(cx).layout() == old(cx).layout(),
        final(cx).virtuals() == old(cx).virtuals(),
        final(cx).bus_list() == old(cx).bus_list(),
        final(cx).constraints() == old(cx).constraints(),
        fixed_columns(final(cx).fixed_list(), *k),
{
    cx.fix(k.first, FixedShape::FirstRow);
    let ghost f1 = cx.fixed_list();
    fix_cadence(cx, k.block_end, 31, NUM_MODMULS, 0);
    let ghost f2 = cx.fixed_list();
    fix_cadence(cx, k.advance, 31, NUM_MODMULS - 1, 0);
    let ghost f3 = cx.fixed_list();
    fix_cadence(cx, k.into_final, 31, 1, FINAL_BLOCK - 1);
    let ghost f4 = cx.fixed_list();
    let mut rows: Vec<(usize, Block128)> = Vec::new();
    rows.push((RESULT_ROW, Block128(1)));
    cx.fix(k.emit, FixedShape::Sparse(rows));
    let ghost f5 = cx.fixed_list();
    proof {
        assert(f2[0] == f2.drop_last()[0]);
        assert(f3[0] == f3.drop_last()[0] && f3[1] == f3.drop_last()[1]);
        assert(f4[0] == f4.drop_last()[0] && f4[1] == f4.drop_last()[1] && f4[2]
            == f4.drop_last()[2]);
        assert(fixes(f5[0], k.first, |row: int| row == 0));
        assert(fixes(f5[1], k.block_end, |row: int| row % 32 == 31));
        assert(fixes(f5[2], k.advance, |row: int| row % 32 == 31 && row / 32 < 31));
        assert(fixes(f5[3], k.into_final, |row: int| row == 511)) by {
            assert forall|row: int| 0 <= row < 1024 implies #[trigger] f5[3].shape.at(row, 1024)
                == table::flag(row == 511) by {
                assert(f5[3] == f4.last());
                assert((row % 32 == 31 && 15 <= row / 32 < 16) == (row == 511));
            }
        }
        assert(fixes(f5[4], k.emit, |row: int| row == 543)) by {
            assert forall|row: int| 0 <= row < 1024 implies #[trigger] f5[4].shape.at(row, 1024)
                == table::flag(row == 543) by {
                assert(rows@.last() == (543usize, Block128(1)));
                assert(rows@.drop_last().len() == 0);
                assert(permutation::sparse_at(rows@.drop_last(), row) == 0);
            }
        }
    }
    let mut i: usize = 0;
    while i < ROWS_PER_MODMUL
        invariant
            i <= 32,
            k.wf(),
            cx.wf(),
            cx.title() == old(cx).title(),
            cx.height() == old(cx).height(),
            cx.layout() == old(cx).layout(),
            cx.virtuals() == old(cx).virtuals(),
            cx.bus_list() == old(cx).bus_list(),
            cx.constraints() == old(cx).constraints(),
            cx.fixed_list().len() == 5 + i,
            f5.len() == 5,
            forall|t: int| 0 <= t < 5 ==> #[trigger] cx.fixed_list()[t] == f5[t],
            forall|t: int|
                0 <= t < i ==> fixes(
                    #[trigger] cx.fixed_list()[5 + t],
                    air::nth(k.onehot, t),
                    |row: int| row % 32 == t,
                ),
        decreases 32 - i,
    {
        let ghost f0 = cx.fixed_list();
        fix_cadence(cx, k.onehot.at(i), i, NUM_MODMULS, 0);
        proof {
            let f = cx.fixed_list();
            assert forall|t: int| 0 <= t < 5 implies #[trigger] f[t] == f5[t] by {
                assert(f[t] == f.drop_last()[t]);
                assert(f0[t] == f5[t]);
            }
            assert forall|t: int| 0 <= t < i + 1 implies fixes(
                #[trigger] f[5 + t],
                air::nth(k.onehot, t),
                |row: int| row % 32 == t,
            ) by {
                if t < i {
                    assert(f[5 + t] == f.drop_last()[5 + t]);
                    assert(fixes(f0[5 + t], air::nth(k.onehot, t), |row: int| row % 32 == t));
                } else {
                    assert(f[5 + t] == f.last());
                }
            }
        }
        i = i + 1;
    }
}

// ---------------------------------------------------------------
// The program
// ---------------------------------------------------------------

/// The column of value `i` of the chiplet's key: the limbs of the modulus, of
/// the base and of the result.
pub open spec fn value_column(k: ModexpCols, i: int) -> usize {
    if i < 64 {
        air::nth(k.arrays@[3], i).0
    } else if i < 128 {
        air::nth(k.arrays@[0], i - 64).0
    } else {
        air::nth(k.arrays@[4], i - 128).0
    }
}

/// The chiplet puts the modulus, the base, the result and the index of the
/// request on the bus, in the row of the result.
pub open spec fn answers(bus: Bus, k: ModexpCols) -> bool {
    &&& bus.id@ == BUS_ID@
    &&& bus.check.selector == Some(k.emit.0)
    &&& bus.check.kind == BusKind::Permutation
    &&& bus.check.clock_waiver is None
    &&& bus.check.sources@.len() == 193
    &&& forall|i: int|
        0 <= i < 192 ==> (#[trigger] bus.check.sources@[i]).0 == Source::Column(value_column(k, i))
            && bus.check.sources@[i].1@ == value_label(i)
    &&& bus.check.sources@[192].0 == Source::Column(k.request_idx.0)
    &&& bus.check.sources@[192].1@ == permutation::REQUEST_IDX_LABEL@
}

/// The columns of the chiplet's key.
fn value_columns(k: &ModexpCols) -> (r: Vec<usize>)
    requires
        k.wf(),
    ensures
        r@ == Seq::new(192, |i: int| value_column(*k, i)),
{
    let mut out: Vec<usize> = Vec::new();
    let mut i: usize = 0;
    while i < 3 * LIMBS32
        invariant
            i <= 192,
            k.wf(),
            out@ =~= Seq::new(i as nat, |t: int| value_column(*k, t)),
        decreases 192 - i,
    {
        let col = if i < LIMBS32 {
            k.arrays[ARR_N].at(i)
        } else if i < 2 * LIMBS32 {
            k.arrays[ARR_S].at(i - LIMBS32)
        } else {
            k.arrays[ARR_R].at(i - 2 * LIMBS32)
        };
        out.push(col.index());
        i = i + 1;
    }
    out
}

/// Puts the circuit on its bus.
///
/// # Errors
/// The columns do not match the slots of the service. They do.
fn join_bus(cx: &mut Circuit, k: &ModexpCols) -> (r: Result<(), Error>)
    requires
        old(cx).wf(),
        old(cx).bus_list().len() == 0,
        k.wf(),
    ensures
        r is Ok,
        final(cx).wf(),
        final(cx).title() == old(cx).title(),
        final(cx).height() == old(cx).height(),
        final(cx).layout() == old(cx).layout(),
        final(cx).virtuals() == old(cx).virtuals(),
        final(cx).fixed_list() == old(cx).fixed_list(),
        final(cx).constraints() == old(cx).constraints(),
        final(cx).bus_list().len() == 1,
        answers(final(cx).bus_list()[0], *k),
{
    let values = value_columns(k);
    let requests: [usize; 1] = [k.request_idx.index()];
    let s = service();
    proof {
        lemma_service_values(s, 193);
    }
    let check = s.respond(values.as_slice(), &requests, k.emit.index())?;
    proof {
        assert forall|i: int| 0 <= i < 192 implies (#[trigger] check.sources@[i]).0
            == Source::Column(value_column(*k, i)) && check.sources@[i].1@ == value_label(i) by {
            lemma_service_values(s, i as nat);
            assert(s.slots@[i] is Value);
            assert((check.sources@[i].0, check.sources@[i].1@) == s.answered(
                values@,
                requests@,
                i,
            ));
        }
        lemma_service_values(s, 192);
        assert((check.sources@[192].0, check.sources@[192].1@) == s.answered(
            values@,
            requests@,
            192,
        ));
    }
    cx.bus(BUS_ID, check);
    Ok(())
}

/// `program` is that of the table, over the columns `k`: its 3684 constraints
/// have degree at most five, and one has degree five.
pub open spec fn is_program(program: CircuitProgram, k: ModexpCols, g: u128) -> bool {
    &&& k.wf()
    &&& program.wf()
    &&& program.title() == "ModexpChiplet"@
    &&& program.height() == 1024
    &&& program.layout() == columns::physical_layout()
    &&& program.virtuals() == columns::virtual_columns()
    &&& fixed_columns(program.fixed_list(), k)
    &&& program.bus_list().len() == 1
    &&& answers(program.bus_list()[0], k)
    &&& program.root_degrees().len() == 3684
    &&& forall|i: int| 0 <= i < 3684 ==> (#[trigger] program.root_degrees()[i]) <= 5
    &&& exists|i: int| 0 <= i < 3684 && (#[trigger] program.root_degrees()[i]) == 5
    &&& forall|env: Env| (#[trigger] program.root_values(env)) == air::modexp_roots(k, g, env)
}

/// Declares, fixes, connects and constrains the table.
///
/// # Errors
/// The declaration is refused. It is not.
pub fn build_program(basis: &ExpBasis) -> (r: Result<(CircuitProgram, ModexpCols), Error>)
    requires
        basis.wf(),
    ensures
        r is Ok,
        r matches Ok(p) ==> is_program(p.0, p.1, basis.g()),
{
    proof {
        lemma2_to64();
        assert(bits::is_power_of_two(1024)) by {
            assert(pow2(10) == 1024);
        }
    }
    let mut cx = Circuit::new("ModexpChiplet", NUM_ROWS)?;
    let k = declare(&mut cx);
    fix_selectors(&mut cx, &k);
    join_bus(&mut cx, &k)?;
    let ghost before = cx.constraints();
    air::constrain_all(cx.cs(), basis, &k);
    let program = cx.compile();
    proof {
        assert forall|env: Env| (#[trigger] program.root_values(env)) == air::modexp_roots(
            k,
            basis.g(),
            env,
        ) by {
            assert(before.root_values(env) == Seq::<u128>::empty());
            assert(Seq::<u128>::empty() + air::modexp_roots(k, basis.g(), env)
                =~= air::modexp_roots(k, basis.g(), env));
        }
        let env = Env { cur: Seq::empty(), next: Seq::empty() };
        assert(program.root_values(env) == air::modexp_roots(k, basis.g(), env));
        air::lemma_num_roots(k, basis.g(), env);
        program.lemma_root_count(env);
        assert(constraint::all_within(program.root_degrees(), 5));
        assert(constraint::some_at(program.root_degrees(), 5));
        reveal(constraint::all_within);
        reveal(constraint::some_at);
    }
    Ok((program, k))
}

/// One `s^65537 mod N` per table, put on the bus once, in [`RESULT_ROW`].
pub struct ModexpChiplet {
    program: CircuitProgram,
    layout: Layout,
    cols: ModexpCols,
    basis: ExpBasis,
}

fn same_layout(a: &[ColumnType], b: &[ColumnType]) -> (r: bool)
    ensures
        r == (a@ == b@),
{
    if a.len() != b.len() {
        return false;
    }
    let mut i: usize = 0;
    while i < a.len()
        invariant
            i <= a@.len(),
            a@.len() == b@.len(),
            forall|t: int| 0 <= t < i ==> a@[t] == b@[t],
        decreases a@.len() - i,
    {
        if a[i] != b[i] {
            return false;
        }
        i = i + 1;
    }
    assert(a@ =~= b@);
    true
}

impl ModexpChiplet {
    /// The generator.
    pub closed spec fn g(self) -> u128 {
        self.basis.g()
    }

    /// The columns.
    pub closed spec fn columns(self) -> ModexpCols {
        self.cols
    }

    /// The program.
    pub closed spec fn circuit(self) -> CircuitProgram {
        self.program
    }

    pub closed spec fn wf(self) -> bool {
        &&& self.basis.wf()
        &&& self.layout.wf()
        &&& is_program(self.program, self.cols, self.basis.g())
    }

    /// # Errors
    /// No primitive element.
    pub fn new() -> (r: Result<Self, Error>)
        ensures
            match r {
                Ok(c) => {
                    &&& c.wf()
                    &&& exp_form::is_first_passing(c.g())
                    &&& generator::primitive(c.g())
                    &&& is_program(c.circuit(), c.columns(), c.g())
                },
                Err(e) => {
                    &&& e.is_protocol(
                        "exp_form"@,
                        "no primitive element of GF(2^128)* in the search window"@,
                    )
                    &&& forall|h: u128|
                        exp_form::SEARCH_BASE <= h < exp_form::SEARCH_BASE
                            + exp_form::SEARCH_WINDOW ==> !#[trigger] exp_form::passes_order_tests(
                            h,
                        )
                },
            },
    {
        let basis = ExpBasis::new::<Block128>()?;
        let layout = Layout::new();
        let (program, cols) = build_program(&basis)?;
        if !same_layout(program.column_layout(), layout.physical.as_slice()) {
            return Err(
                Error::Protocol {
                    protocol: "modexp_chiplet",
                    message: "physical layout diverged from the circuit declaration",
                },
            );
        }
        Ok(ModexpChiplet { program, layout, cols, basis })
    }

    pub fn cols(&self) -> (r: &ModexpCols)
        requires
            self.wf(),
        ensures
            *r == self.columns(),
            r.wf(),
    {
        &self.cols
    }

    pub fn basis(&self) -> (r: &ExpBasis)
        requires
            self.wf(),
        ensures
            r.wf(),
            r.g() == self.g(),
    {
        &self.basis
    }

    pub fn program(&self) -> (r: &CircuitProgram)
        requires
            self.wf(),
        ensures
            *r == self.circuit(),
            is_program(*r, self.columns(), self.g()),
    {
        &self.program
    }

    pub fn column_layout(&self) -> (r: &[ColumnType])
        requires
            self.wf(),
        ensures
            r@ == columns::physical_layout(),
    {
        self.layout.physical.as_slice()
    }

    pub fn row_bytes(&self) -> (r: usize)
        requires
            self.wf(),
        ensures
            r == 49739,
    {
        self.layout.row_bytes()
    }

    pub fn b128_columns(&self) -> (r: usize)
        requires
            self.wf(),
        ensures
            r == 3002,
    {
        self.layout.b128_columns()
    }

    /// The column of limb `limb` of the result.
    pub fn result_column(&self, limb: usize) -> (r: usize)
        requires
            self.wf(),
            258 + limb <= usize::MAX,
        ensures
            r == 258 + limb,
    {
        self.layout.arrays[ARR_R] + limb
    }

    pub fn emit_column(&self) -> (r: usize)
        requires
            self.wf(),
        ensures
            r == 412,
    {
        self.layout.emit
    }

    /// The trace of an exponentiation.
    ///
    /// # Errors
    /// The values of a row do not balance. Those of an exponentiation do.
    pub fn trace(&self, modexp: &Modexp, request_idx: u32) -> (res: Result<ColumnTrace, Error>)
        requires
            self.wf(),
            modexp.wf(),
        ensures
            res is Ok,
            res matches Ok(t) ==> t.wf() && t.num_vars == 10 && t.layout()
                == columns::physical_layout() && forall|r: int|
                0 <= r < 1024 ==> #[trigger] t.row(r) == table::table_row(
                    *modexp,
                    self.g(),
                    request_idx,
                    r,
                ),
    {
        table::generate_trace(&self.basis, &self.layout, modexp, request_idx)
    }
}

} // verus!
