//! Virtual columns: the bits and the whole values of committed columns that
//! constraints refer to.

use vstd::arithmetic::div_mod::*;
use vstd::arithmetic::power2::*;
use vstd::prelude::*;

use crate::bits;
use crate::bytes;
use crate::errors::Error;
use crate::field::{Block128, Flat};
use crate::trace::ColumnType;

verus! {

/// One virtual column.
#[derive(Clone, Copy, Debug, PartialEq, Eq, Structural)]
pub enum VirtualColumn {
    /// One bit of a committed column, in the tower basis.
    Bit { col: usize, bit: usize },
    /// A committed column as it is.
    Whole { col: usize },
}

/// Derives a row of virtual columns from a row of committed ones.
#[derive(Clone, Debug)]
pub struct VirtualExpander {
    physical: Vec<ColumnType>,
    columns: Vec<VirtualColumn>,
}

/// Bits one cell of an expanded column has.
pub open spec fn bit_width(ct: ColumnType) -> nat {
    8 * ct.width()
}

/// The bits of `count` committed columns from `start` on, `width` each.
pub open spec fn bit_columns(start: nat, width: nat, n: nat) -> Seq<VirtualColumn> {
    Seq::new(
        n,
        |i: int|
            VirtualColumn::Bit {
                col: (start + i / width as int) as usize,
                bit: (i % width as int) as usize,
            },
    )
}

/// `count` committed columns from `start` on, as they are.
pub open spec fn whole_columns(start: nat, count: nat) -> Seq<VirtualColumn> {
    Seq::new(count, |i: int| VirtualColumn::Whole { col: (start + i) as usize })
}

/// `count` times the same type.
pub open spec fn repeated(ct: ColumnType, count: nat) -> Seq<ColumnType> {
    Seq::new(count, |i: int| ct)
}

/// The value of a virtual column in a row with these committed elements.
pub open spec fn virtual_value(v: VirtualColumn, row: Seq<u128>) -> u128 {
    match v {
        VirtualColumn::Bit { col, bit } => bits::bit(
            row[col as int] as nat,
            bit as nat,
        ) as u128,
        VirtualColumn::Whole { col } => row[col as int],
    }
}

/// The virtual row of a row with these committed elements.
pub open spec fn expanded(columns: Seq<VirtualColumn>, row: Seq<u128>) -> Seq<u128> {
    Seq::new(columns.len(), |i: int| virtual_value(columns[i], row))
}

/// The bytes the first `n` columns take in a row.
pub open spec fn row_width(layout: Seq<ColumnType>, n: nat) -> nat
    decreases n,
{
    if n == 0 {
        0
    } else {
        row_width(layout, (n - 1) as nat) + layout[n - 1].width()
    }
}

/// The elements a row's bytes hold.
pub open spec fn row_elements(layout: Seq<ColumnType>, row: Seq<u8>) -> Seq<u128> {
    Seq::new(
        layout.len(),
        |c: int|
            {
                let from = row_width(layout, c as nat) as int;
                layout[c].element(
                    bytes::le_value(row.subrange(from, from + layout[c].width())) as u128,
                )
            },
    )
}

proof fn lemma_row_width(layout: Seq<ColumnType>, a: nat, b: nat)
    requires
        a < b <= layout.len(),
    ensures
        row_width(layout, a) + layout[a as int].width() <= row_width(layout, b),
    decreases b,
{
    if a + 1 < b {
        lemma_row_width(layout, a, (b - 1) as nat);
    }
}

proof fn lemma_row_width_bound(layout: Seq<ColumnType>, n: nat)
    requires
        n <= layout.len(),
    ensures
        row_width(layout, n) <= 16 * n,
    decreases n,
{
    if n > 0 {
        lemma_row_width_bound(layout, (n - 1) as nat);
    }
}

impl VirtualExpander {
    /// The committed columns' types.
    pub closed spec fn layout(&self) -> Seq<ColumnType> {
        self.physical@
    }

    pub closed spec fn virtuals(&self) -> Seq<VirtualColumn> {
        self.columns@
    }

    /// Every virtual column refers to a committed one, and to a bit it has.
    pub open spec fn wf(&self) -> bool {
        forall|i: int|
            0 <= i < self.virtuals().len() ==> match #[trigger] self.virtuals()[i] {
                VirtualColumn::Bit { col, bit } => col < self.layout().len() && bit < bit_width(
                    self.layout()[col as int],
                ),
                VirtualColumn::Whole { col } => col < self.layout().len(),
            }
    }

    pub fn new() -> (r: Self)
        ensures
            r.wf(),
            r.layout() == Seq::<ColumnType>::empty(),
            r.virtuals() == Seq::<VirtualColumn>::empty(),
    {
        VirtualExpander { physical: Vec::new(), columns: Vec::new() }
    }

    /// Declares `count` columns of which only the bits are visible.
    pub fn expand_bits(self, count: usize, ct: ColumnType) -> (r: Self)
        requires
            self.wf(),
            self.layout().len() + count <= usize::MAX,
            count * bit_width(ct) <= usize::MAX,
        ensures
            r.wf(),
            r.layout() == self.layout() + repeated(ct, count as nat),
            r.virtuals() == self.virtuals() + bit_columns(
                self.layout().len(),
                bit_width(ct),
                count as nat * bit_width(ct),
            ),
    {
        let mut physical = self.physical;
        let mut columns = self.columns;
        let start: usize = physical.len();
        let width: usize = 8 * ct.byte_size();
        let ghost base = columns@;
        for k in 0..count
            invariant
                physical@ =~= self.physical@ + repeated(ct, k as nat),
        {
            physical.push(ct);
        }
        let total: usize = count * width;
        for i in 0..total
            invariant
                width == bit_width(ct),
                width > 0,
                total == count * width,
                start == self.physical@.len(),
                start + count <= usize::MAX,
                columns@ =~= base + bit_columns(start as nat, width as nat, i as nat),
        {
            proof {
                assert(i / width < count) by (nonlinear_arith)
                    requires
                        i < count * width,
                        width > 0,
                ;
            }
            columns.push(VirtualColumn::Bit { col: start + i / width, bit: i % width });
        }
        let r = VirtualExpander { physical, columns };
        proof {
            assert forall|i: int| 0 <= i < r.virtuals().len() implies match #[trigger] r.virtuals()[i] {
                VirtualColumn::Bit { col, bit } => col < r.layout().len() && bit < bit_width(
                    r.layout()[col as int],
                ),
                VirtualColumn::Whole { col } => col < r.layout().len(),
            } by {
                if i < base.len() {
                    assert(r.virtuals()[i] == self.virtuals()[i]);
                } else {
                    let j = i - base.len();
                    assert(0 <= j / width as int && j / (width as int) < count) by (nonlinear_arith)
                        requires
                            0 <= j < count * width,
                            width > 0,
                    ;
                }
            }
        }
        r
    }

    /// Makes `count` declared columns from `start` on visible as a whole.
    pub fn reuse_pass_through(self, start: usize, count: usize) -> (r: Self)
        requires
            self.wf(),
            start + count <= self.layout().len(),
        ensures
            r.wf(),
            r.layout() == self.layout(),
            r.virtuals() == self.virtuals() + whole_columns(start as nat, count as nat),
    {
        let physical = self.physical;
        let mut columns = self.columns;
        let ghost base = columns@;
        for i in 0..count
            invariant
                start + count <= physical@.len(),
                columns@ =~= base + whole_columns(start as nat, i as nat),
        {
            assert(physical.len() <= usize::MAX);
            columns.push(VirtualColumn::Whole { col: start + i });
        }
        let r = VirtualExpander { physical, columns };
        proof {
            assert(physical.len() <= usize::MAX);
            assert forall|i: int| 0 <= i < r.virtuals().len() implies match #[trigger] r.virtuals()[i] {
                VirtualColumn::Bit { col, bit } => col < r.layout().len() && bit < bit_width(
                    r.layout()[col as int],
                ),
                VirtualColumn::Whole { col } => col < r.layout().len(),
            } by {
                if i < base.len() {
                    assert(r.virtuals()[i] == self.virtuals()[i]);
                }
            }
        }
        r
    }

    /// Declares `count` columns that are visible as they are.
    pub fn pass_through(self, count: usize, ct: ColumnType) -> (r: Self)
        requires
            self.wf(),
            self.layout().len() + count <= usize::MAX,
        ensures
            r.wf(),
            r.layout() == self.layout() + repeated(ct, count as nat),
            r.virtuals() == self.virtuals() + whole_columns(self.layout().len(), count as nat),
    {
        let mut physical = self.physical;
        let columns = self.columns;
        let start: usize = physical.len();
        for k in 0..count
            invariant
                physical@ =~= self.physical@ + repeated(ct, k as nat),
        {
            physical.push(ct);
        }
        let r = VirtualExpander { physical, columns };
        proof {
            assert forall|i: int| 0 <= i < r.virtuals().len() implies match #[trigger] r.virtuals()[i] {
                VirtualColumn::Bit { col, bit } => col < r.layout().len() && bit < bit_width(
                    r.layout()[col as int],
                ),
                VirtualColumn::Whole { col } => col < r.layout().len(),
            } by {
                assert(r.virtuals()[i] == self.virtuals()[i]);
            }
        }
        r.reuse_pass_through(start, count)
    }

    /// Declares `count` `Bit` columns.
    pub fn control_bits(self, count: usize) -> (r: Self)
        requires
            self.wf(),
            self.layout().len() + count <= usize::MAX,
        ensures
            r.wf(),
            r.layout() == self.layout() + repeated(ColumnType::Bit, count as nat),
            r.virtuals() == self.virtuals() + whole_columns(self.layout().len(), count as nat),
    {
        self.pass_through(count, ColumnType::Bit)
    }

    pub fn num_virtual_columns(&self) -> (r: usize)
        ensures
            r == self.virtuals().len(),
    {
        self.columns.len()
    }

    pub fn num_physical_columns(&self) -> (r: usize)
        ensures
            r == self.layout().len(),
    {
        self.physical.len()
    }

    /// The bytes a row of committed columns takes.
    pub fn physical_row_bytes(&self) -> (r: usize)
        requires
            row_width(self.layout(), self.layout().len()) <= usize::MAX,
        ensures
            r == row_width(self.layout(), self.layout().len()),
    {
        self.offset(self.physical.len())
    }

    /// The bytes before column `c` in a row.
    fn offset(&self, c: usize) -> (r: usize)
        requires
            c <= self.layout().len(),
            row_width(self.layout(), self.layout().len()) <= usize::MAX,
        ensures
            r == row_width(self.layout(), c as nat),
    {
        let mut total: usize = 0;
        for k in 0..c
            invariant
                c <= self.layout().len(),
                row_width(self.layout(), self.layout().len()) <= usize::MAX,
                total == row_width(self.layout(), k as nat),
        {
            proof {
                lemma_row_width(self.layout(), k as nat, self.layout().len());
            }
            total = total + self.physical[k].byte_size();
        }
        total
    }

    /// The types of the committed columns.
    pub fn physical_layout(&self) -> (r: Vec<ColumnType>)
        ensures
            r@ == self.layout(),
    {
        vstd::slice::slice_to_vec(self.physical.as_slice())
    }

    /// The types of the virtual columns.
    pub fn virtual_layout(&self) -> (r: Vec<ColumnType>)
        requires
            self.wf(),
        ensures
            r@.len() == self.virtuals().len(),
            forall|i: int|
                0 <= i < r@.len() ==> #[trigger] r@[i] == match self.virtuals()[i] {
                    VirtualColumn::Bit { .. } => ColumnType::Bit,
                    VirtualColumn::Whole { col } => self.layout()[col as int],
                },
    {
        let mut out: Vec<ColumnType> = Vec::with_capacity(self.columns.len());
        for i in 0..self.columns.len()
            invariant
                self.wf(),
                out@.len() == i,
                forall|k: int|
                    0 <= k < i ==> #[trigger] out@[k] == match self.virtuals()[k] {
                        VirtualColumn::Bit { .. } => ColumnType::Bit,
                        VirtualColumn::Whole { col } => self.layout()[col as int],
                    },
        {
            assert(self.virtuals()[i as int] == self.columns@[i as int]);
            let ct: ColumnType = match self.columns[i] {
                VirtualColumn::Bit { .. } => ColumnType::Bit,
                VirtualColumn::Whole { col } => self.physical[col],
            };
            out.push(ct);
        }
        out
    }

    /// Appends the virtual row of a committed row, given by its bytes.
    pub fn parse_row(&self, row: &[u8], out: &mut Vec<Flat<Block128>>) -> (res: Result<(), Error>)
        requires
            self.wf(),
            row_width(self.layout(), self.layout().len()) <= usize::MAX,
        ensures
            res is Ok <==> row@.len() == row_width(self.layout(), self.layout().len()),
            res is Ok ==> crate::program::constraint::flat_values(final(out)@)
                == crate::program::constraint::flat_values(old(out)@) + expanded(
                self.virtuals(),
                row_elements(self.layout(), row@),
            ),
            res matches Err(e) ==> final(out)@ == old(out)@ && e.is_protocol(
                "expander"@,
                "row length does not match the physical layout"@,
            ),
    {
        if row.len() != self.physical_row_bytes() {
            return Err(
                Error::Protocol {
                    protocol: "expander",
                    message: "row length does not match the physical layout",
                },
            );
        }
        let ghost elements = row_elements(self.layout(), row@);
        let ghost vals = expanded(self.virtuals(), elements);
        let mut cells: Vec<Flat<Block128>> = Vec::with_capacity(self.physical.len());
        let mut from: usize = 0;
        for c in 0..self.physical.len()
            invariant
                row@.len() == row_width(self.layout(), self.layout().len()),
                elements == row_elements(self.layout(), row@),
                from == row_width(self.layout(), c as nat),
                cells@.len() == c,
                forall|k: int| 0 <= k < c ==> (#[trigger] cells@[k])@ == elements[k],
        {
            proof {
                lemma_row_width(self.layout(), c as nat, self.layout().len());
                assert(row.len() <= usize::MAX);
            }
            let ct = self.physical[c];
            let to: usize = from + ct.byte_size();
            let cell = vstd::slice::slice_subrange(row, from, to);
            assert(cell@.take(ct.width() as int) =~= row@.subrange(from as int, to as int));
            cells.push(ct.parse_from_bytes(cell));
            from = to;
        }
        let ghost start = out@;
        for i in 0..self.columns.len()
            invariant
                self.wf(),
                elements.len() == self.layout().len(),
                vals == expanded(self.virtuals(), elements),
                cells@.len() == self.layout().len(),
                forall|k: int| 0 <= k < cells@.len() ==> (#[trigger] cells@[k])@ == elements[k],
                out@.len() == start.len() + i,
                forall|k: int| 0 <= k < start.len() ==> #[trigger] out@[k] == start[k],
                forall|k: int|
                    0 <= k < i ==> (#[trigger] out@[start.len() + k])@ == vals[k],
        {
            assert(self.virtuals()[i as int] == self.columns@[i as int]);
            let value: Flat<Block128> = match self.columns[i] {
                VirtualColumn::Bit { col, bit } => {
                    let tower: u128 = cells[col].to_tower().0;
                    proof {
                        bits::lemma_bit_u128(tower, bit as nat);
                    }
                    if (tower >> (bit as u128)) & 1 == 1 {
                        Flat::<Block128>::one()
                    } else {
                        Flat::<Block128>::zero()
                    }
                },
                VirtualColumn::Whole { col } => cells[col],
            };
            assert(value@ == vals[i as int]);
            let ghost before = out@;
            out.push(value);
            proof {
                assert forall|k: int| 0 <= k < i + 1 implies (#[trigger] out@[start.len() + k])@
                    == vals[k] by {
                    if k < i {
                        assert(before[start.len() + k]@ == vals[k]);
                    }
                }
            }
        }
        proof {
            let l = crate::program::constraint::flat_values(out@);
            let r = crate::program::constraint::flat_values(start) + vals;
            assert forall|k: int| 0 <= k < l.len() implies l[k] == r[k] by {
                if k >= start.len() {
                    assert(out@[start.len() + (k - start.len())]@ == vals[k - start.len()]);
                }
            }
            assert(l =~= r);
        }
        Ok(())
    }
}

/// The bits of an expanded column write its element: bit `b` of column `k` is
/// the digit of weight `2^b` of the element in committed column `start + k`.
pub proof fn law_bits_write_the_cell(
    row: Seq<u128>,
    start: nat,
    width: nat,
    count: nat,
    k: int,
    b: int,
)
    requires
        0 < width,
        0 <= k < count,
        0 <= b < width,
        start + count <= usize::MAX,
        width <= usize::MAX,
    ensures
        k * width + b < count * width,
        expanded(bit_columns(start, width, count * width), row)[k * width + b] as nat == (row[start
            + k] as nat / pow2(b as nat)) % 2,
{
    let i = k * width + b;
    assert(0 <= i < count * width) by (nonlinear_arith)
        requires
            i == k * width + b,
            0 <= b < width,
            0 <= k,
            k + 1 <= count,
    ;
    lemma_fundamental_div_mod_converse(i, width as int, k, b);
}

/// A column declared as it is shows its element.
pub proof fn law_whole_columns_show(row: Seq<u128>, start: nat, count: nat, k: int)
    requires
        0 <= k < count,
        start + count <= usize::MAX,
    ensures
        expanded(whole_columns(start, count), row)[k] == row[start + k],
{
}

/// A row's bytes hold the cells one after the other: behind the widths of the
/// columns before, so many bytes as its own type has, least significant first.
pub proof fn law_cells_stand_in_order(layout: Seq<ColumnType>, row: Seq<u8>, c: int)
    requires
        0 <= c < layout.len(),
    ensures
        row_width(layout, 0) == 0,
        row_width(layout, (c + 1) as nat) == row_width(layout, c as nat) + layout[c].width(),
        ({
            let from = row_width(layout, c as nat) as int;
            row_elements(layout, row)[c] == layout[c].element(
                bytes::le_value(row.subrange(from, from + layout[c].width())) as u128,
            )
        }),
{
}

} // verus!
