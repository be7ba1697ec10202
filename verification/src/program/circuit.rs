//! Circuits: columns are declared, fixed, put on buses and constrained, and
//! the whole is compiled into a program.

use vstd::prelude::*;

use super::constraint::{ConstraintAst, ConstraintSystem, Env};
use super::expander;
use super::expander::{VirtualColumn, VirtualExpander};
use super::permutation::{Bus, FixedColumn, FixedShape, PermutationCheckSpec, Service};
use crate::bits;
use crate::errors::Error;
use crate::trace;
use crate::trace::ColumnType;

verus! {

/// A virtual column of a circuit.
#[derive(Clone, Copy, Debug, PartialEq, Eq, Structural)]
pub struct Col(pub usize);

impl Col {
    pub fn index(self) -> (r: usize)
        ensures
            r == self.0,
    {
        self.0
    }
}

/// Consecutive virtual columns.
#[derive(Clone, Copy, Debug, PartialEq, Eq, Structural)]
pub struct ColRange {
    pub start: usize,
    pub len: usize,
}

impl ColRange {
    pub open spec fn ends(self) -> bool {
        self.start + self.len <= usize::MAX
    }

    /// Column `i` of the range.
    pub fn at(self, i: usize) -> (r: Col)
        requires
            i < self.len,
            self.ends(),
        ensures
            r.0 == self.start + i,
    {
        Col(self.start + i)
    }

    /// The columns of the range.
    pub fn to_vec(self) -> (r: Vec<Col>)
        requires
            self.ends(),
        ensures
            r@ == Seq::new(self.len as nat, |i: int| Col((self.start + i) as usize)),
    {
        let mut out: Vec<Col> = Vec::new();
        let mut i: usize = 0;
        while i < self.len
            invariant
                i <= self.len,
                self.ends(),
                out@ =~= Seq::new(i as nat, |k: int| Col((self.start + k) as usize)),
            decreases self.len - i,
        {
            out.push(Col(self.start + i));
            i = i + 1;
        }
        out
    }
}

/// The bits of consecutive committed columns.
#[derive(Clone, Copy, Debug, PartialEq, Eq, Structural)]
pub struct Packed {
    /// The first committed column.
    pub physical: usize,
    /// The first virtual column.
    pub start: usize,
    pub words: usize,
    /// Bits of each column.
    pub width: usize,
}

impl Packed {
    pub open spec fn ends(self) -> bool {
        self.start + self.words * self.width <= usize::MAX
    }

    /// The bits of column `j`.
    pub fn bits(self, j: usize) -> (r: ColRange)
        requires
            j < self.words,
            self.ends(),
        ensures
            r.start == self.start + j * self.width,
            r.len == self.width,
            r.ends(),
            r.start + r.len <= self.start + self.words * self.width,
    {
        proof {
            assert(0 <= j * self.width && j * self.width + self.width <= self.words * self.width)
                by (nonlinear_arith)
                requires
                    0 <= j,
                    j + 1 <= self.words,
                    self.width >= 0,
            ;
        }
        ColRange { start: self.start + j * self.width, len: self.width }
    }
}

/// A circuit under construction.
pub struct Circuit {
    name: &'static str,
    num_rows: usize,
    expander: VirtualExpander,
    fixed: Vec<FixedColumn>,
    buses: Vec<Bus>,
    cs: ConstraintSystem,
}

/// A compiled circuit.
#[derive(Debug)]
pub struct CircuitProgram {
    name: &'static str,
    num_rows: usize,
    layout: Vec<ColumnType>,
    expander: VirtualExpander,
    fixed: Vec<FixedColumn>,
    buses: Vec<Bus>,
    ast: ConstraintAst,
}

impl Circuit {
    pub closed spec fn title(self) -> Seq<char> {
        self.name@
    }

    pub closed spec fn height(self) -> nat {
        self.num_rows as nat
    }

    /// The types of the committed columns.
    pub closed spec fn layout(self) -> Seq<ColumnType> {
        self.expander.layout()
    }

    /// The virtual columns.
    pub closed spec fn virtuals(self) -> Seq<VirtualColumn> {
        self.expander.virtuals()
    }

    pub closed spec fn fixed_list(self) -> Seq<FixedColumn> {
        self.fixed@
    }

    pub closed spec fn bus_list(self) -> Seq<Bus> {
        self.buses@
    }

    pub closed spec fn wf(self) -> bool {
        self.expander.wf() && self.cs.wf()
    }

    /// The constraints imposed so far.
    pub closed spec fn constraints(self) -> ConstraintSystem {
        self.cs
    }

    /// Everything but the columns is as in `old`.
    pub open spec fn declared_from(self, old: Circuit) -> bool {
        &&& self.wf()
        &&& self.title() == old.title()
        &&& self.height() == old.height()
        &&& self.fixed_list() == old.fixed_list()
        &&& self.bus_list() == old.bus_list()
        &&& self.constraints() == old.constraints()
    }

    /// A circuit without columns.
    ///
    /// # Errors
    /// The number of rows is not a power of two.
    pub fn new(name: &'static str, num_rows: usize) -> (r: Result<Self, Error>)
        ensures
            match r {
                Ok(c) => {
                    &&& bits::is_power_of_two(num_rows as nat)
                    &&& c.wf()
                    &&& c.title() == name@
                    &&& c.height() == num_rows
                    &&& c.layout() == Seq::<ColumnType>::empty()
                    &&& c.virtuals() == Seq::<VirtualColumn>::empty()
                    &&& c.fixed_list() == Seq::<FixedColumn>::empty()
                    &&& c.bus_list() == Seq::<Bus>::empty()
                    &&& c.constraints().root_degrees() == Seq::<nat>::empty()
                    &&& forall|d: nat| #[trigger] c.constraints().within(d)
                    &&& forall|env: Env|
                        (#[trigger] c.constraints().root_values(env)) == Seq::<u128>::empty()
                },
                Err(e) => !bits::is_power_of_two(num_rows as nat) && e.is_protocol(
                    "circuit"@,
                    "number of rows must be a power of two"@,
                ),
            },
    {
        if trace::exact_log2(num_rows).is_none() {
            return Err(
                Error::Protocol {
                    protocol: "circuit",
                    message: "number of rows must be a power of two",
                },
            );
        }
        Ok(
            Circuit {
                name,
                num_rows,
                expander: VirtualExpander::new(),
                fixed: Vec::new(),
                buses: Vec::new(),
                cs: ConstraintSystem::new(),
            },
        )
    }

    /// Declares columns that constraints see as they are.
    pub fn columns(&mut self, count: usize, ty: ColumnType) -> (r: ColRange)
        requires
            old(self).wf(),
            old(self).layout().len() + count <= usize::MAX,
            old(self).virtuals().len() + count <= usize::MAX,
        ensures
            final(self).declared_from(*old(self)),
            final(self).layout() == old(self).layout() + expander::repeated(ty, count as nat),
            final(self).virtuals() == old(self).virtuals() + expander::whole_columns(
                old(self).layout().len(),
                count as nat,
            ),
            r == (ColRange { start: old(self).virtuals().len() as usize, len: count }),
    {
        let start: usize = self.expander.num_virtual_columns();
        let mut e = VirtualExpander::new();
        core::mem::swap(&mut e, &mut self.expander);
        self.expander = e.pass_through(count, ty);
        ColRange { start, len: count }
    }

    /// Declares one such column.
    pub fn column(&mut self, ty: ColumnType) -> (r: Col)
        requires
            old(self).wf(),
            old(self).layout().len() + 1 <= usize::MAX,
            old(self).virtuals().len() + 1 <= usize::MAX,
        ensures
            final(self).declared_from(*old(self)),
            final(self).layout() == old(self).layout() + expander::repeated(ty, 1),
            final(self).virtuals() == old(self).virtuals() + expander::whole_columns(
                old(self).layout().len(),
                1,
            ),
            r.0 == old(self).virtuals().len(),
    {
        self.columns(1, ty).at(0)
    }

    /// Declares columns of which constraints see the bits.
    pub fn expand_bits(&mut self, count: usize, ty: ColumnType) -> (r: Packed)
        requires
            old(self).wf(),
            old(self).layout().len() + count <= usize::MAX,
            old(self).virtuals().len() + count * expander::bit_width(ty) <= usize::MAX,
        ensures
            final(self).declared_from(*old(self)),
            final(self).layout() == old(self).layout() + expander::repeated(ty, count as nat),
            final(self).virtuals() == old(self).virtuals() + expander::bit_columns(
                old(self).layout().len(),
                expander::bit_width(ty),
                count as nat * expander::bit_width(ty),
            ),
            r == (Packed {
                physical: old(self).layout().len() as usize,
                start: old(self).virtuals().len() as usize,
                words: count,
                width: expander::bit_width(ty) as usize,
            }),
    {
        let physical: usize = self.expander.num_physical_columns();
        let start: usize = self.expander.num_virtual_columns();
        let mut e = VirtualExpander::new();
        core::mem::swap(&mut e, &mut self.expander);
        self.expander = e.expand_bits(count, ty);
        Packed { physical, start, words: count, width: 8 * ty.byte_size() }
    }

    /// Lets constraints see columns as they are of which they see the bits.
    pub fn reuse_pass_through(&mut self, packed: &Packed) -> (r: ColRange)
        requires
            old(self).wf(),
            packed.physical + packed.words <= old(self).layout().len(),
            old(self).virtuals().len() + packed.words <= usize::MAX,
        ensures
            final(self).declared_from(*old(self)),
            final(self).layout() == old(self).layout(),
            final(self).virtuals() == old(self).virtuals() + expander::whole_columns(
                packed.physical as nat,
                packed.words as nat,
            ),
            r == (ColRange {
                start: old(self).virtuals().len() as usize,
                len: packed.words,
            }),
    {
        let start: usize = self.expander.num_virtual_columns();
        let mut e = VirtualExpander::new();
        core::mem::swap(&mut e, &mut self.expander);
        self.expander = e.reuse_pass_through(packed.physical, packed.words);
        ColRange { start, len: packed.words }
    }

    /// Fixes a column's cells.
    pub fn fix(&mut self, col: Col, shape: FixedShape)
        requires
            old(self).wf(),
        ensures
            final(self).wf(),
            final(self).title() == old(self).title(),
            final(self).height() == old(self).height(),
            final(self).layout() == old(self).layout(),
            final(self).virtuals() == old(self).virtuals(),
            final(self).bus_list() == old(self).bus_list(),
            final(self).constraints() == old(self).constraints(),
            final(self).fixed_list() == old(self).fixed_list().push(
                FixedColumn { col: col.0, shape },
            ),
    {
        self.fixed.push(FixedColumn { col: col.0, shape });
    }

    /// Puts the circuit on a bus.
    pub fn bus(&mut self, id: &'static str, check: PermutationCheckSpec)
        requires
            old(self).wf(),
        ensures
            final(self).wf(),
            final(self).title() == old(self).title(),
            final(self).height() == old(self).height(),
            final(self).layout() == old(self).layout(),
            final(self).virtuals() == old(self).virtuals(),
            final(self).fixed_list() == old(self).fixed_list(),
            final(self).constraints() == old(self).constraints(),
            final(self).bus_list() == old(self).bus_list().push(Bus { id, check }),
    {
        self.buses.push(Bus { id, check });
    }

    /// Asks a service for something about the values of the selected rows.
    ///
    /// # Errors
    /// The columns do not match the service's slots.
    pub fn call(&mut self, service: &Service, values: &[Col], selector: Col) -> (r: Result<
        (),
        Error,
    >)
        requires
            old(self).wf(),
        ensures
            final(self).wf(),
            final(self).title() == old(self).title(),
            final(self).height() == old(self).height(),
            final(self).layout() == old(self).layout(),
            final(self).virtuals() == old(self).virtuals(),
            final(self).fixed_list() == old(self).fixed_list(),
            final(self).constraints() == old(self).constraints(),
            match r {
                Ok(_) => values@.len() == service.num_values() && final(self).bus_list().len()
                    == old(self).bus_list().len() + 1 && final(self).bus_list().drop_last()
                    == old(self).bus_list() && asks(
                    final(self).bus_list().last(),
                    *service,
                    values@,
                    selector,
                ),
                Err(e) => values@.len() != service.num_values() && e.is_protocol(
                    "service"@,
                    "columns do not match the service's slots"@,
                ) && final(self).bus_list() == old(self).bus_list(),
            },
    {
        let indices: Vec<usize> = indices_of(values);
        match service.request(indices.as_slice(), selector.0) {
            Ok(check) => {
                self.buses.push(Bus { id: service.bus_id, check });
                proof {
                    assert(self.bus_list().drop_last() =~= old(self).bus_list());
                }
                Ok(())
            },
            Err(e) => Err(e),
        }
    }

    /// The constraint system, for imposing constraints.
    pub fn cs(&mut self) -> (r: &mut ConstraintSystem)
        requires
            old(self).wf(),
        ensures
            *r == old(self).constraints(),
            r.wf(),
            final(self).constraints() == *final(r),
            final(r).wf() ==> final(self).wf(),
            final(self).title() == old(self).title(),
            final(self).height() == old(self).height(),
            final(self).layout() == old(self).layout(),
            final(self).virtuals() == old(self).virtuals(),
            final(self).fixed_list() == old(self).fixed_list(),
            final(self).bus_list() == old(self).bus_list(),
    {
        &mut self.cs
    }

    /// Compiles the circuit.
    pub fn compile(self) -> (p: CircuitProgram)
        requires
            self.wf(),
        ensures
            p.wf(),
            p.title() == self.title(),
            p.height() == self.height(),
            p.layout() == self.layout(),
            p.virtuals() == self.virtuals(),
            p.fixed_list() == self.fixed_list(),
            p.bus_list() == self.bus_list(),
            p.root_degrees() == self.constraints().root_degrees(),
            forall|env: Env| (#[trigger] p.root_values(env)) == self.constraints().root_values(
                env,
            ),
    {
        let Circuit { name, num_rows, expander, fixed, buses, cs } = self;
        let layout: Vec<ColumnType> = expander.physical_layout();
        CircuitProgram { name, num_rows, layout, expander, fixed, buses, ast: cs.build() }
    }
}

/// The indices of columns.
pub fn indices_of(cols: &[Col]) -> (r: Vec<usize>)
    ensures
        r@ == cols@.map_values(|c: Col| c.0),
{
    let mut out: Vec<usize> = Vec::new();
    let mut i: usize = 0;
    while i < cols.len()
        invariant
            i <= cols@.len(),
            out@ =~= cols@.take(i as int).map_values(|c: Col| c.0),
        decreases cols@.len() - i,
    {
        out.push(cols[i].0);
        i = i + 1;
    }
    proof {
        assert(cols@.take(cols@.len() as int) =~= cols@);
    }
    out
}

/// `bus` asks `service` about these columns.
pub open spec fn asks(bus: Bus, service: Service, values: Seq<Col>, selector: Col) -> bool {
    &&& bus.id == service.bus_id
    &&& bus.check.selector == Some(selector.0)
    &&& bus.check.kind == service.kind
    &&& bus.check.clock_waiver == service.clock_waiver
    &&& bus.check.sources@.len() == service.slots@.len()
    &&& forall|i: int|
        0 <= i < service.slots@.len() ==> (
            (#[trigger] bus.check.sources@[i]).0,
            bus.check.sources@[i].1@,
        ) == service.asked(values.map_values(|c: Col| c.0), i)
}

impl CircuitProgram {
    pub closed spec fn title(self) -> Seq<char> {
        self.name@
    }

    pub closed spec fn height(self) -> nat {
        self.num_rows as nat
    }

    pub closed spec fn layout(self) -> Seq<ColumnType> {
        self.layout@
    }

    pub closed spec fn virtuals(self) -> Seq<VirtualColumn> {
        self.expander.virtuals()
    }

    pub closed spec fn fixed_list(self) -> Seq<FixedColumn> {
        self.fixed@
    }

    pub closed spec fn bus_list(self) -> Seq<Bus> {
        self.buses@
    }

    /// What the constraints make of a pair of rows.
    pub closed spec fn root_values(self, env: Env) -> Seq<u128> {
        self.ast.root_values(env)
    }

    /// The degrees of the constraints.
    pub closed spec fn root_degrees(self) -> Seq<nat> {
        self.ast.root_degrees()
    }

    /// Every constraint has a degree and a value.
    pub proof fn lemma_root_count(self, env: Env)
        ensures
            self.root_degrees().len() == self.root_values(env).len(),
    {
    }

    pub closed spec fn wf(self) -> bool {
        self.expander.wf() && self.expander.layout() == self.layout@ && self.ast.wf()
    }

    pub fn name(&self) -> (r: &'static str)
        ensures
            r@ == self.title(),
    {
        self.name
    }

    pub fn num_rows(&self) -> (r: usize)
        ensures
            r == self.height(),
    {
        self.num_rows
    }

    pub fn column_layout(&self) -> (r: &[ColumnType])
        ensures
            r@ == self.layout(),
    {
        self.layout.as_slice()
    }

    pub fn virtual_expander(&self) -> (r: &VirtualExpander)
        requires
            self.wf(),
        ensures
            r.wf(),
            r.layout() == self.layout(),
            r.virtuals() == self.virtuals(),
    {
        &self.expander
    }

    pub fn fixed_columns(&self) -> (r: &[FixedColumn])
        ensures
            r@ == self.fixed_list(),
    {
        self.fixed.as_slice()
    }

    pub fn permutation_checks(&self) -> (r: &[Bus])
        ensures
            r@ == self.bus_list(),
    {
        self.buses.as_slice()
    }

    pub fn constraint_ast(&self) -> (r: &ConstraintAst)
        requires
            self.wf(),
        ensures
            r.wf(),
            r.root_degrees() == self.root_degrees(),
            forall|env: Env| (#[trigger] r.root_values(env)) == self.root_values(env),
    {
        &self.ast
    }
}

} // verus!
