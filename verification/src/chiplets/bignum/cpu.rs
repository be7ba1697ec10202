//! The side of the bus that asks for an exponentiation.

use vstd::prelude::*;

use super::air;
use super::chiplet;
use super::chiplet::service;
use super::columns::FINAL_BLOCK;
use super::modexp::Modexp;
use super::modmul::LIMBS32;
use crate::errors::Error;
use crate::field::Block32;
use crate::program::circuit::{Circuit, Col, ColRange};
use crate::program::expander;
use crate::program::permutation;
use crate::program::permutation::{Bus, BusKind, Source};
use crate::trace::{ColumnType, TraceBuilder};

verus! {

/// One request on the host table: the modulus, the base and the result, in
/// that order from column `phys_base` on.
pub struct CpuModexpBlock {
    pub modulus: ColRange,
    pub base: ColRange,
    pub result: ColRange,
    pub phys_base: usize,
}

/// Limb `i` of a request: the modulus, the base, the result.
pub open spec fn request_limb(m: Modexp, i: int) -> u32 {
    if i < 64 {
        m.n_limbs()[i]
    } else if i < 128 {
        m.s_limbs()[i - 64]
    } else {
        m.steps()[FINAL_BLOCK as int].r@[i - 128]
    }
}

impl CpuModexpBlock {
    pub const COLUMNS: usize = 192;

    pub const MODULUS: usize = 0;

    pub const BASE: usize = 64;

    pub const RESULT: usize = 128;

    /// The three numbers have [`LIMBS32`] columns each.
    pub open spec fn wf(self) -> bool {
        &&& self.modulus.len == 64 && self.modulus.ends()
        &&& self.base.len == 64 && self.base.ends()
        &&& self.result.len == 64 && self.result.ends()
    }

    /// The virtual column of limb `i` of a request.
    pub open spec fn column_of(self, i: int) -> Col {
        if i < 64 {
            air::nth(self.modulus, i)
        } else if i < 128 {
            air::nth(self.base, i - 64)
        } else {
            air::nth(self.result, i - 128)
        }
    }

    /// The types of the columns.
    pub fn layout() -> (r: [ColumnType; 192])
        ensures
            r@ == Seq::new(192, |i: int| ColumnType::B32),
    {
        let r = [ColumnType::B32;192];
        assert(r@ =~= Seq::new(192, |i: int| ColumnType::B32));
        r
    }

    /// Declares the columns. `phys_base` is the first of them in the host's
    /// layout, which the declarations before this call decide.
    pub fn declare(cx: &mut Circuit, phys_base: usize) -> (r: Self)
        requires
            old(cx).wf(),
            old(cx).layout().len() + 192 <= usize::MAX,
            old(cx).virtuals().len() + 192 <= usize::MAX,
        ensures
            final(cx).declared_from(*old(cx)),
            final(cx).layout() == old(cx).layout() + Self::layout_types(),
            final(cx).virtuals() == old(cx).virtuals() + expander::whole_columns(
                old(cx).layout().len(),
                192,
            ),
            r.wf(),
            r.phys_base == phys_base,
            r.modulus.start == old(cx).virtuals().len(),
            r.base.start == old(cx).virtuals().len() + 64,
            r.result.start == old(cx).virtuals().len() + 128,
    {
        let modulus = cx.columns(LIMBS32, ColumnType::B32);
        let base = cx.columns(LIMBS32, ColumnType::B32);
        let result = cx.columns(LIMBS32, ColumnType::B32);
        proof {
            assert(cx.layout() =~= old(cx).layout() + Self::layout_types());
            assert(cx.virtuals() =~= old(cx).virtuals() + expander::whole_columns(
                old(cx).layout().len(),
                192,
            ));
        }
        CpuModexpBlock { modulus, base, result, phys_base }
    }

    /// The types of the columns.
    pub open spec fn layout_types() -> Seq<ColumnType> {
        Seq::new(192, |i: int| ColumnType::B32)
    }

    /// `bus` asks for the modulus, the base and the result of the selected
    /// rows, under the row's index.
    pub open spec fn asks(self, bus: Bus, selector: Col) -> bool {
        &&& bus.id@ == chiplet::BUS_ID@
        &&& bus.check.selector == Some(selector.0)
        &&& bus.check.kind == BusKind::Permutation
        &&& bus.check.clock_waiver is None
        &&& bus.check.sources@.len() == 193
        &&& forall|i: int|
            0 <= i < 192 ==> (#[trigger] bus.check.sources@[i]).0 == Source::Column(
                self.column_of(i).0,
            ) && bus.check.sources@[i].1@ == chiplet::value_label(i)
        &&& bus.check.sources@[192].0 == Source::RowIndexLeBytes(4)
        &&& bus.check.sources@[192].1@ == permutation::REQUEST_IDX_LABEL@
    }

    /// Puts the selected rows' requests on the bus.
    ///
    /// # Errors
    /// The service's slots do not match the declared columns. They do.
    pub fn connect(&self, cx: &mut Circuit, selector: Col) -> (r: Result<(), Error>)
        requires
            old(cx).wf(),
            self.wf(),
        ensures
            r is Ok,
            final(cx).wf(),
            final(cx).title() == old(cx).title(),
            final(cx).height() == old(cx).height(),
            final(cx).layout() == old(cx).layout(),
            final(cx).virtuals() == old(cx).virtuals(),
            final(cx).fixed_list() == old(cx).fixed_list(),
            final(cx).constraints() == old(cx).constraints(),
            final(cx).bus_list().len() == old(cx).bus_list().len() + 1,
            final(cx).bus_list().drop_last() == old(cx).bus_list(),
            self.asks(final(cx).bus_list().last(), selector),
    {
        let mut values: Vec<Col> = Vec::new();
        let mut i: usize = 0;
        while i < Self::COLUMNS
            invariant
                i <= 192,
                self.wf(),
                values@ =~= Seq::new(i as nat, |t: int| self.column_of(t)),
            decreases 192 - i,
        {
            let col = if i < Self::BASE {
                self.modulus.at(i)
            } else if i < Self::RESULT {
                self.base.at(i - Self::BASE)
            } else {
                self.result.at(i - Self::RESULT)
            };
            values.push(col);
            i = i + 1;
        }
        let s = service();
        proof {
            chiplet::lemma_service_values(s, 193);
        }
        let r = cx.call(&s, values.as_slice(), selector);
        proof {
            let bus = cx.bus_list().last();
            let indices = values@.map_values(|c: Col| c.0);
            assert forall|t: int| 0 <= t < 192 implies (#[trigger] bus.check.sources@[t]).0
                == Source::Column(self.column_of(t).0) && bus.check.sources@[t].1@
                == chiplet::value_label(t) by {
                chiplet::lemma_service_values(s, t as nat);
                assert(s.slots@[t] is Value);
                assert((bus.check.sources@[t].0, bus.check.sources@[t].1@) == s.asked(
                    indices,
                    t,
                ));
            }
            assert((bus.check.sources@[192].0, bus.check.sources@[192].1@) == s.asked(
                indices,
                192,
            ));
        }
        r
    }

    /// Writes a request into a row.
    ///
    /// # Errors
    /// The row lies outside the trace, or a column has another type.
    pub fn write(&self, tb: &mut TraceBuilder, row: usize, modexp: &Modexp) -> (res: Result<
        (),
        Error,
    >)
        requires
            old(tb).wf(),
            modexp.wf(),
            self.phys_base + 192 <= usize::MAX,
        ensures
            final(tb).same_shape(old(tb)),
            res is Ok <==> old(tb).accepts_run(
                self.phys_base as int,
                row as int,
                192,
                ColumnType::B32,
            ),
            res is Ok ==> final(tb).wrote_run_at(
                old(tb),
                self.phys_base as int,
                row as int,
                Seq::new(192, |i: int| request_limb(*modexp, i) as u128),
            ),
            res matches Err(e) ==> exists|i: int|
                0 <= i < 192 && !old(tb).accepts(
                    self.phys_base + i,
                    row as int,
                    ColumnType::B32,
                ) && #[trigger] old(tb).refuses(
                    e,
                    (self.phys_base + i) as usize,
                    row,
                    ColumnType::B32,
                ),
    {
        let ghost want = Seq::new(192, |i: int| request_limb(*modexp, i) as u128);
        let mut i: usize = 0;
        while i < Self::COLUMNS
            invariant
                i <= 192,
                modexp.wf(),
                self.phys_base + 192 <= usize::MAX,
                want == Seq::new(192, |t: int| request_limb(*modexp, t) as u128),
                tb.same_shape(old(tb)),
                old(tb).accepts_run(
                    self.phys_base as int,
                    row as int,
                    i as int,
                    ColumnType::B32,
                ),
                tb.wrote_run_at(old(tb), self.phys_base as int, row as int, want.take(i as int)),
            decreases 192 - i,
        {
            let ghost t0 = *tb;
            let limb: u32 = if i < Self::BASE {
                modexp.modulus()[i]
            } else if i < Self::RESULT {
                modexp.base()[i - Self::BASE]
            } else {
                modexp.result()[i - Self::RESULT]
            };
            assert(limb == request_limb(*modexp, i as int));
            match tb.set_b32(self.phys_base + i, row, Block32(limb)) {
                Ok(_) => {
                    proof {
                        assert(old(tb).accepts(
                            self.phys_base + i,
                            row as int,
                            ColumnType::B32,
                        ));
                        assert forall|c: int, r: int|
                            #![trigger tb.at(c, r)]
                            old(tb).in_range(c, r) implies tb.at(c, r) == (if r == row
                            && self.phys_base <= c < self.phys_base + want.take(i + 1).len() {
                            want.take(i + 1)[c - self.phys_base]
                        } else {
                            old(tb).at(c, r)
                        }) by {
                            assert(t0.in_range(c, r));
                            let _ = t0.at(c, r);
                        }
                    }
                },
                Err(e) => {
                    proof {
                        assert(!old(tb).accepts(
                            self.phys_base + i,
                            row as int,
                            ColumnType::B32,
                        ));
                        assert(old(tb).refuses(
                            e,
                            (self.phys_base + i) as usize,
                            row,
                            ColumnType::B32,
                        ));
                    }
                    return Err(e);
                },
            }
            i = i + 1;
        }
        assert(want.take(192) =~= want);
        Ok(())
    }
}

/// A row asks with the limbs of its modulus, its base and its result, in that
/// order, and with its own number.
pub proof fn law_requests_in_order(
    block: CpuModexpBlock,
    bus: Bus,
    selector: Col,
    row: Seq<u128>,
    index: nat,
    i: int,
)
    requires
        block.wf(),
        block.asks(bus, selector),
        0 <= i < 64,
        index < 0x1_0000_0000,
    ensures
        ({
            let key = bus.check.key(row, index);
            &&& key.len() == 193
            &&& key[i] == row[block.modulus.start + i]
            &&& key[64 + i] == row[block.base.start + i]
            &&& key[128 + i] == row[block.result.start + i]
            &&& key[192] == index
        }),
{
    crate::bytes::lemma_byte_pow_values();
    vstd::arithmetic::div_mod::lemma_small_mod(index, 0x1_0000_0000);
    let sources = bus.check.sources@;
    assert(sources[i].0 == Source::Column(block.column_of(i).0));
    assert(sources[64 + i].0 == Source::Column(block.column_of(64 + i).0));
    assert(sources[128 + i].0 == Source::Column(block.column_of(128 + i).0));
}

} // verus!
