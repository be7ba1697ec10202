//! Buses: which values of a row two tables must agree on.

use vstd::arithmetic::div_mod::*;
use vstd::arithmetic::power::*;
use vstd::prelude::*;

use crate::errors::Error;
use crate::field::Block128;

verus! {

/// The label under which both sides of a bus put the index of the request.
pub const REQUEST_IDX_LABEL: &'static str = "kappa_request_idx";

/// Where one component of a bus key comes from.
#[derive(Clone, Copy, Debug, PartialEq, Eq, Structural)]
pub enum Source {
    /// A committed column.
    Column(usize),
    /// One little-endian byte of the row index.
    RowIndexByte(usize),
    /// The low bytes of the row index, as one number.
    RowIndexLeBytes(usize),
}

/// What the two sides of a bus have in common.
#[derive(Clone, Copy, Debug, PartialEq, Eq, Structural)]
pub enum BusKind {
    /// The same selected keys, in any order.
    Permutation,
    /// The same selected key in every row.
    Lookup,
}

/// One side of a bus: the key's components, each under its challenge label,
/// and the column that selects the rows that take part.
#[derive(Clone, Debug)]
pub struct PermutationCheckSpec {
    pub sources: Vec<(Source, &'static str)>,
    pub selector: Option<usize>,
    pub kind: BusKind,
    /// Why the key needs no clock of its own.
    pub clock_waiver: Option<&'static str>,
}

impl PermutationCheckSpec {
    /// The challenge labels, in key order.
    pub open spec fn labels(&self) -> Seq<Seq<char>> {
        Seq::new(self.sources@.len(), |i: int| self.sources@[i].1@)
    }

    /// The key components of a row with these cells, in key order.
    pub open spec fn key(&self, row: Seq<u128>, index: nat) -> Seq<u128> {
        Seq::new(self.sources@.len(), |i: int| source_value(self.sources@[i].0, row, index))
    }

    pub fn new(sources: Vec<(Source, &'static str)>, selector: Option<usize>) -> (r: Self)
        ensures
            r.sources == sources,
            r.selector == selector,
            r.kind == BusKind::Permutation,
            r.clock_waiver is None,
    {
        PermutationCheckSpec { sources, selector, kind: BusKind::Permutation, clock_waiver: None }
    }

    pub fn new_lookup(sources: Vec<(Source, &'static str)>, selector: Option<usize>) -> (r: Self)
        ensures
            r.sources == sources,
            r.selector == selector,
            r.kind == BusKind::Lookup,
            r.clock_waiver is None,
    {
        PermutationCheckSpec { sources, selector, kind: BusKind::Lookup, clock_waiver: None }
    }

    /// Says why the key needs no clock of its own.
    pub fn with_clock_waiver(self, reason: &'static str) -> (r: Self)
        ensures
            r.sources == self.sources,
            r.selector == self.selector,
            r.kind == self.kind,
            r.clock_waiver == Some(reason),
    {
        PermutationCheckSpec {
            sources: self.sources,
            selector: self.selector,
            kind: self.kind,
            clock_waiver: Some(reason),
        }
    }

    pub fn num_sources(&self) -> (r: usize)
        ensures
            r == self.sources@.len(),
    {
        self.sources.len()
    }

    pub fn has_selector(&self) -> (r: bool)
        ensures
            r == self.selector.is_some(),
    {
        self.selector.is_some()
    }
}

/// The value one source has in a row.
pub open spec fn source_value(source: Source, row: Seq<u128>, index: nat) -> u128 {
    match source {
        Source::Column(c) => row[c as int],
        Source::RowIndexByte(b) => ((index / crate::bytes::byte_pow(b as nat)) % 256) as u128,
        Source::RowIndexLeBytes(n) => (index % crate::bytes::byte_pow(n as nat)) as u128,
    }
}

/// A column whose cells the row index alone decides.
#[derive(Clone, Debug)]
pub struct FixedColumn {
    pub col: usize,
    pub shape: FixedShape,
}

/// How a fixed column depends on the row index.
#[derive(Clone, Debug)]
pub enum FixedShape {
    /// One in the first row, zero elsewhere.
    FirstRow,
    /// Zero in the last row, one elsewhere.
    LastRow,
    /// `count` times the same `stride` values from row `origin` on, zero
    /// elsewhere.
    Cadence { stride: usize, count: usize, origin: usize, values: Vec<Block128> },
    /// These values in these rows, zero elsewhere.
    Sparse(Vec<(usize, Block128)>),
}

impl FixedShape {
    /// The cell in a row of a table with `height` rows.
    pub open spec fn at(self, row: int, height: nat) -> u128 {
        match self {
            FixedShape::FirstRow => if row == 0 {
                1
            } else {
                0
            },
            FixedShape::LastRow => if row + 1 == height {
                0
            } else {
                1
            },
            FixedShape::Cadence { stride, count, origin, values } => if origin <= row < origin
                + count * stride {
                values@[(row - origin) % stride as int].0
            } else {
                0
            },
            FixedShape::Sparse(cells) => sparse_at(cells@, row),
        }
    }
}

/// The value listed for a row; of several the last.
pub open spec fn sparse_at(cells: Seq<(usize, Block128)>, row: int) -> u128
    decreases cells.len(),
{
    if cells.len() == 0 {
        0
    } else if cells.last().0 == row {
        cells.last().1.0
    } else {
        sparse_at(cells.drop_last(), row)
    }
}

// ---------------------------------------------------------------
// Services
// ---------------------------------------------------------------

/// One component of a service's key.
#[derive(Clone, Copy, Debug)]
pub enum ServiceSlot {
    /// A value, under its challenge label.
    Value(&'static str),
    /// The index of the request, in so many bytes.
    RequestIdx { num_bytes: usize },
}

/// A bus as both of its sides see it: the slots of its key.
#[derive(Clone, Debug)]
pub struct Service {
    pub bus_id: &'static str,
    pub kind: BusKind,
    pub slots: Vec<ServiceSlot>,
    pub clock_waiver: Option<&'static str>,
}

/// The values among the first `n` slots.
pub open spec fn values_before(slots: Seq<ServiceSlot>, n: nat) -> nat
    decreases n,
{
    if n == 0 {
        0
    } else {
        values_before(slots, (n - 1) as nat) + (if slots[n - 1] is Value {
            1nat
        } else {
            0
        })
    }
}

/// A bus that a circuit takes part in.
#[derive(Clone, Debug)]
pub struct Bus {
    pub id: &'static str,
    pub check: PermutationCheckSpec,
}

impl Service {
    /// The number of values in a key.
    pub open spec fn num_values(&self) -> nat {
        values_before(self.slots@, self.slots@.len())
    }

    /// The number of request indices in a key.
    pub open spec fn num_requests(&self) -> nat {
        (self.slots@.len() - self.num_values()) as nat
    }

    /// Component `i` of the key of the side that answers, and its label.
    pub open spec fn answered(&self, values: Seq<usize>, requests: Seq<usize>, i: int) -> (
        Source,
        Seq<char>,
    ) {
        let v = values_before(self.slots@, i as nat);
        match self.slots@[i] {
            ServiceSlot::Value(label) => (Source::Column(values[v as int]), label@),
            ServiceSlot::RequestIdx { .. } => (
                Source::Column(requests[i - v]),
                REQUEST_IDX_LABEL@,
            ),
        }
    }

    /// Component `i` of the key of the side that asks, and its label: the
    /// index of the request is that of the row.
    pub open spec fn asked(&self, values: Seq<usize>, i: int) -> (Source, Seq<char>) {
        let v = values_before(self.slots@, i as nat);
        match self.slots@[i] {
            ServiceSlot::Value(label) => (Source::Column(values[v as int]), label@),
            ServiceSlot::RequestIdx { num_bytes } => (
                Source::RowIndexLeBytes(num_bytes),
                REQUEST_IDX_LABEL@,
            ),
        }
    }

    /// The side that answers: values and request indices are columns.
    ///
    /// # Errors
    /// The columns do not match the slots.
    pub fn respond(&self, values: &[usize], requests: &[usize], selector: usize) -> (r: Result<
        PermutationCheckSpec,
        Error,
    >)
        ensures
            match r {
                Ok(spec) => {
                    &&& values@.len() == self.num_values()
                    &&& requests@.len() == self.num_requests()
                    &&& spec.selector == Some(selector)
                    &&& spec.kind == self.kind
                    &&& spec.clock_waiver == self.clock_waiver
                    &&& spec.sources@.len() == self.slots@.len()
                    &&& forall|i: int|
                        0 <= i < self.slots@.len() ==> (
                            (#[trigger] spec.sources@[i]).0,
                            spec.sources@[i].1@,
                        ) == self.answered(values@, requests@, i)
                },
                Err(e) => {
                    &&& values@.len() != self.num_values() || requests@.len()
                        != self.num_requests()
                    &&& e.is_protocol("service"@, "columns do not match the service's slots"@)
                },
            },
    {
        let mismatch = Error::Protocol {
            protocol: "service",
            message: "columns do not match the service's slots",
        };
        let mut sources: Vec<(Source, &'static str)> = Vec::new();
        let mut v: usize = 0;
        let mut i: usize = 0;
        while i < self.slots.len()
            invariant
                i <= self.slots@.len(),
                v == values_before(self.slots@, i as nat),
                v <= i,
                v <= values@.len(),
                i - v <= requests@.len(),
                mismatch.is_protocol("service"@, "columns do not match the service's slots"@),
                sources@.len() == i,
                forall|k: int|
                    0 <= k < i ==> ((#[trigger] sources@[k]).0, sources@[k].1@) == self.answered(
                        values@,
                        requests@,
                        k,
                    ),
            decreases self.slots@.len() - i,
        {
            proof {
                lemma_values_before(self.slots@, i as nat + 1);
            }
            match self.slots[i] {
                ServiceSlot::Value(label) => {
                    if v >= values.len() {
                        return Err(mismatch);
                    }
                    sources.push((Source::Column(values[v]), label));
                    v = v + 1;
                },
                ServiceSlot::RequestIdx { .. } => {
                    if i - v >= requests.len() {
                        return Err(mismatch);
                    }
                    sources.push((Source::Column(requests[i - v]), REQUEST_IDX_LABEL));
                },
            }
            i = i + 1;
        }
        if v != values.len() || i - v != requests.len() {
            return Err(mismatch);
        }
        Ok(
            PermutationCheckSpec {
                sources,
                selector: Some(selector),
                kind: self.kind,
                clock_waiver: self.clock_waiver,
            },
        )
    }

    /// The side that asks: values are columns, and the index of the request is
    /// that of the row.
    ///
    /// # Errors
    /// The columns do not match the slots.
    pub fn request(&self, values: &[usize], selector: usize) -> (r: Result<
        PermutationCheckSpec,
        Error,
    >)
        ensures
            match r {
                Ok(spec) => {
                    &&& values@.len() == self.num_values()
                    &&& spec.selector == Some(selector)
                    &&& spec.kind == self.kind
                    &&& spec.clock_waiver == self.clock_waiver
                    &&& spec.sources@.len() == self.slots@.len()
                    &&& forall|i: int|
                        0 <= i < self.slots@.len() ==> (
                            (#[trigger] spec.sources@[i]).0,
                            spec.sources@[i].1@,
                        ) == self.asked(values@, i)
                },
                Err(e) => {
                    &&& values@.len() != self.num_values()
                    &&& e.is_protocol("service"@, "columns do not match the service's slots"@)
                },
            },
    {
        let mismatch = Error::Protocol {
            protocol: "service",
            message: "columns do not match the service's slots",
        };
        let mut sources: Vec<(Source, &'static str)> = Vec::new();
        let mut v: usize = 0;
        let mut i: usize = 0;
        while i < self.slots.len()
            invariant
                i <= self.slots@.len(),
                v == values_before(self.slots@, i as nat),
                v <= i,
                v <= values@.len(),
                mismatch.is_protocol("service"@, "columns do not match the service's slots"@),
                sources@.len() == i,
                forall|k: int|
                    0 <= k < i ==> ((#[trigger] sources@[k]).0, sources@[k].1@) == self.asked(
                        values@,
                        k,
                    ),
            decreases self.slots@.len() - i,
        {
            proof {
                lemma_values_before(self.slots@, i as nat + 1);
            }
            match self.slots[i] {
                ServiceSlot::Value(label) => {
                    if v >= values.len() {
                        return Err(mismatch);
                    }
                    sources.push((Source::Column(values[v]), label));
                    v = v + 1;
                },
                ServiceSlot::RequestIdx { num_bytes } => {
                    sources.push((Source::RowIndexLeBytes(num_bytes), REQUEST_IDX_LABEL));
                },
            }
            i = i + 1;
        }
        if v != values.len() {
            return Err(mismatch);
        }
        Ok(
            PermutationCheckSpec {
                sources,
                selector: Some(selector),
                kind: self.kind,
                clock_waiver: self.clock_waiver,
            },
        )
    }
}

/// Later slots only add values.
proof fn lemma_values_before(slots: Seq<ServiceSlot>, n: nat)
    requires
        n <= slots.len(),
    ensures
        values_before(slots, n) <= values_before(slots, slots.len()),
        n - values_before(slots, n) <= slots.len() - values_before(slots, slots.len()),
    decreases slots.len() - n,
{
    if n < slots.len() {
        lemma_values_before(slots, n + 1);
    }
}

/// How many of the first `n` slots are values, counted one by one.
pub open spec fn value_slots(slots: Seq<ServiceSlot>) -> nat {
    slots.filter(|s: ServiceSlot| s is Value).len()
}

proof fn lemma_value_slots(slots: Seq<ServiceSlot>, n: nat)
    requires
        n <= slots.len(),
    ensures
        values_before(slots, n) == value_slots(slots.take(n as int)),
    decreases n,
{
    reveal(Seq::filter);
    if n > 0 {
        lemma_value_slots(slots, (n - 1) as nat);
        assert(slots.take(n as int).drop_last() =~= slots.take(n - 1));
    }
}

/// The two sides of a service meet. Both put every slot under one label; a
/// value slot reads the next value column on either side; a request slot of
/// the side that answers reads its next request column, and of the side that
/// asks the low bytes of the row's number.
pub proof fn law_sides_meet(
    service: Service,
    answers: Seq<usize>,
    requests: Seq<usize>,
    asks: Seq<usize>,
    i: int,
    row: Seq<u128>,
    index: nat,
)
    requires
        0 <= i < service.slots@.len(),
    ensures
        ({
            let (a, q) = (service.answered(answers, requests, i), service.asked(asks, i));
            let v = value_slots(service.slots@.take(i)) as int;
            &&& a.1 == q.1
            &&& match service.slots@[i] {
                ServiceSlot::Value(label) => {
                    &&& a.1 == label@
                    &&& source_value(a.0, row, index) == row[answers[v] as int]
                    &&& source_value(q.0, row, index) == row[asks[v] as int]
                },
                ServiceSlot::RequestIdx { num_bytes } => {
                    &&& a.1 == "kappa_request_idx"@
                    &&& source_value(a.0, row, index) == row[requests[i - v] as int]
                    &&& index <= u128::MAX ==> source_value(q.0, row, index) as int == index
                        as int % pow(256, num_bytes as nat)
                },
            }
        }),
{
    lemma_value_slots(service.slots@, i as nat);
    match service.slots@[i] {
        ServiceSlot::RequestIdx { num_bytes } => {
            crate::bytes::lemma_byte_pow(num_bytes as nat);
            lemma_pow_positive(256, num_bytes as nat);
            lemma_mod_bound(index as int, pow(256, num_bytes as nat));
            lemma_mod_decreases(index, pow(256, num_bytes as nat) as nat);
        },
        _ => {},
    }
}

/// Byte `b` of a row's number is its digit of weight `256^b`.
pub proof fn law_row_index_bytes(row: Seq<u128>, index: nat, b: usize)
    ensures
        source_value(Source::RowIndexByte(b), row, index) as int == (index as int / pow(
            256,
            b as nat,
        )) % 256,
{
    crate::bytes::lemma_byte_pow(b as nat);
}

} // verus!
