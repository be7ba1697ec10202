//! The memory table: its columns, its buses, and how a list of events
//! fills it.

use vstd::arithmetic::power2::*;
use vstd::prelude::*;

use super::comparator;
use super::event;
use super::event::MemoryEvent;
use crate::bits;
use crate::bytes;
use crate::errors::Error;
use crate::field::gf;
use crate::field::{Bit, Block128, Block32};
use crate::program::expander;
use crate::program::permutation::{BusKind, PermutationCheckSpec, Source};
use crate::trace;
use crate::trace::{ColumnTrace, ColumnType, TraceBuilder};

verus! {

// Committed columns: two packed words, thirteen data words, the inverse, and
// five control bits.
pub const NUM_PACKED_B32: usize = 2;

pub const NUM_B32_DATA: usize = 13;

pub const NUM_B128: usize = 1;

pub const NUM_CONTROL_BIT: usize = 5;

pub const NUM_PHYSICAL_COLUMNS: usize = 21;

pub const PHY_PACK_SORT: usize = 0;

pub const PHY_PACK_VAL: usize = 1;

pub const PHY_ADDR_B0: usize = 2;

pub const PHY_CLK_B0: usize = 6;

pub const PHY_VAL_B0: usize = 10;

pub const PHY_VAL_PACKED: usize = 14;

pub const PHY_AUX_INV: usize = 15;

pub const PHY_IS_WRITE: usize = 16;

pub const PHY_SELECTOR: usize = 17;

pub const PHY_Q_STEP: usize = 18;

pub const PHY_Q_FIRST: usize = 19;

pub const PHY_Q_LAST: usize = 20;

/// The sorting helpers of a row that is compared with nothing: the first
/// byte and the first bit are marked, the rest is zero.
pub const PACK_SORT_DEFAULT: u32 = 257;

/// The virtual columns constraints refer to.
pub struct RamColumns;

impl RamColumns {
    /// Marks the first byte in which the next key differs.
    pub const DIFF_BYTE_IDX: usize = 0;

    /// Marks the highest bit in which that byte differs.
    pub const DIFF_BIT_IDX: usize = 8;

    /// The bits of that byte in the next key.
    pub const A_BITS: usize = 16;

    /// The bits of that byte in this key.
    pub const B_BITS: usize = 24;

    pub const VAL_BITS: usize = 32;

    pub const ADDR_B0: usize = 64;

    pub const ADDR_B1: usize = 65;

    pub const ADDR_B2: usize = 66;

    pub const ADDR_B3: usize = 67;

    pub const CLK_B0: usize = 68;

    pub const CLK_B1: usize = 69;

    pub const CLK_B2: usize = 70;

    pub const CLK_B3: usize = 71;

    pub const VAL_B0: usize = 72;

    pub const VAL_B1: usize = 73;

    pub const VAL_B2: usize = 74;

    pub const VAL_B3: usize = 75;

    pub const VAL_PACKED: usize = 76;

    /// The inverse of the address difference to the next row.
    pub const AUX_INV: usize = 77;

    pub const IS_WRITE: usize = 78;

    pub const SELECTOR: usize = 79;

    pub const Q_STEP: usize = 80;

    pub const Q_FIRST: usize = 81;

    pub const Q_LAST: usize = 82;

    pub const NUM_COLUMNS: usize = 83;
}

/// The CPU's memory columns.
pub struct CpuMemColumns;

impl CpuMemColumns {
    pub const ADDR_B0: usize = 0;

    pub const ADDR_B1: usize = 1;

    pub const ADDR_B2: usize = 2;

    pub const ADDR_B3: usize = 3;

    pub const VAL_B0: usize = 4;

    pub const VAL_B1: usize = 5;

    pub const VAL_B2: usize = 6;

    pub const VAL_B3: usize = 7;

    pub const IS_WRITE: usize = 8;

    pub const SELECTOR: usize = 9;

    pub const NUM_COLUMNS: usize = 10;
}

/// The CPU's key of an event: address bytes, the row index as the clock, value
/// bytes and the write flag.
pub open spec fn cpu_sources() -> Seq<(Source, &'static str)> {
    seq![
        (Source::Column(0), "kappa_addr_b0"),
        (Source::Column(1), "kappa_addr_b1"),
        (Source::Column(2), "kappa_addr_b2"),
        (Source::Column(3), "kappa_addr_b3"),
        (Source::RowIndexByte(0), "kappa_clk_b0"),
        (Source::RowIndexByte(1), "kappa_clk_b1"),
        (Source::RowIndexByte(2), "kappa_clk_b2"),
        (Source::RowIndexByte(3), "kappa_clk_b3"),
        (Source::Column(4), "kappa_val_b0"),
        (Source::Column(5), "kappa_val_b1"),
        (Source::Column(6), "kappa_val_b2"),
        (Source::Column(7), "kappa_val_b3"),
        (Source::Column(8), "kappa_is_write"),
    ]
}

/// The CPU's side of the bus: events in execution order, with the row index
/// as the clock.
#[derive(Clone, Debug)]
pub struct CpuMemoryUnit;

impl CpuMemoryUnit {
    pub fn linking_spec() -> (r: PermutationCheckSpec)
        ensures
            r.kind == BusKind::Permutation,
            r.selector == Some(9usize),
            r.clock_waiver is None,
            r.sources@ == seq![
                (Source::Column(0), "kappa_addr_b0"),
                (Source::Column(1), "kappa_addr_b1"),
                (Source::Column(2), "kappa_addr_b2"),
                (Source::Column(3), "kappa_addr_b3"),
                (Source::RowIndexByte(0), "kappa_clk_b0"),
                (Source::RowIndexByte(1), "kappa_clk_b1"),
                (Source::RowIndexByte(2), "kappa_clk_b2"),
                (Source::RowIndexByte(3), "kappa_clk_b3"),
                (Source::Column(4), "kappa_val_b0"),
                (Source::Column(5), "kappa_val_b1"),
                (Source::Column(6), "kappa_val_b2"),
                (Source::Column(7), "kappa_val_b3"),
                (Source::Column(8), "kappa_is_write"),
            ],
            r.sources@ == cpu_sources(),
    {
        PermutationCheckSpec::new(
            vec![
                (Source::Column(CpuMemColumns::ADDR_B0), "kappa_addr_b0"),
                (Source::Column(CpuMemColumns::ADDR_B1), "kappa_addr_b1"),
                (Source::Column(CpuMemColumns::ADDR_B2), "kappa_addr_b2"),
                (Source::Column(CpuMemColumns::ADDR_B3), "kappa_addr_b3"),
                (Source::RowIndexByte(0), "kappa_clk_b0"),
                (Source::RowIndexByte(1), "kappa_clk_b1"),
                (Source::RowIndexByte(2), "kappa_clk_b2"),
                (Source::RowIndexByte(3), "kappa_clk_b3"),
                (Source::Column(CpuMemColumns::VAL_B0), "kappa_val_b0"),
                (Source::Column(CpuMemColumns::VAL_B1), "kappa_val_b1"),
                (Source::Column(CpuMemColumns::VAL_B2), "kappa_val_b2"),
                (Source::Column(CpuMemColumns::VAL_B3), "kappa_val_b3"),
                (Source::Column(CpuMemColumns::IS_WRITE), "kappa_is_write"),
            ],
            Some(CpuMemColumns::SELECTOR),
        )
    }

    pub fn num_columns(&self) -> (r: usize)
        ensures
            r == 10,
    {
        CpuMemColumns::NUM_COLUMNS
    }
}

/// The committed columns' types.
pub open spec fn ram_layout() -> Seq<ColumnType> {
    expander::repeated(ColumnType::B32, 2) + expander::repeated(ColumnType::B32, 13)
        + expander::repeated(ColumnType::B128, 1) + expander::repeated(ColumnType::Bit, 5)
}

/// The committed columns' types, as a list.
pub(crate) fn build_layout() -> (r: Vec<ColumnType>)
    ensures
        r@ == ram_layout(),
{
    let mut layout: Vec<ColumnType> = Vec::with_capacity(NUM_PHYSICAL_COLUMNS);
    for k in 0..NUM_PACKED_B32
        invariant
            layout@ =~= expander::repeated(ColumnType::B32, k as nat),
    {
        layout.push(ColumnType::B32);
    }
    for k in 0..NUM_B32_DATA
        invariant
            layout@ =~= expander::repeated(ColumnType::B32, 2) + expander::repeated(
                ColumnType::B32,
                k as nat,
            ),
    {
        layout.push(ColumnType::B32);
    }
    for k in 0..NUM_B128
        invariant
            layout@ =~= expander::repeated(ColumnType::B32, 2) + expander::repeated(
                ColumnType::B32,
                13,
            ) + expander::repeated(ColumnType::B128, k as nat),
    {
        layout.push(ColumnType::B128);
    }
    for k in 0..NUM_CONTROL_BIT
        invariant
            layout@ =~= expander::repeated(ColumnType::B32, 2) + expander::repeated(
                ColumnType::B32,
                13,
            ) + expander::repeated(ColumnType::B128, 1) + expander::repeated(
                ColumnType::Bit,
                k as nat,
            ),
    {
        layout.push(ColumnType::Bit);
    }
    layout
}

// ---------------------------------------------------------------
// Sorting helpers
// ---------------------------------------------------------------

/// The bytes of an event's key, most significant first.
pub open spec fn key_bytes(e: MemoryEvent) -> Seq<u8> {
    let a = bytes::le_bytes(e.addr as nat, 4);
    let c = bytes::le_bytes(e.clk as nat, 4);
    seq![a[3], a[2], a[1], a[0], c[3], c[2], c[1], c[0]]
}

/// `i` is the first place where two keys differ.
pub open spec fn is_first_difference(x: Seq<u8>, y: Seq<u8>, i: int) -> bool {
    &&& 0 <= i < x.len()
    &&& x[i] != y[i]
    &&& forall|k: int| 0 <= k < i ==> #[trigger] x[k] == y[k]
}

/// `i` is the highest bit where two bytes differ.
pub open spec fn is_top_difference(x: u8, y: u8, i: nat) -> bool {
    &&& i < 8
    &&& bits::bit(x as nat, i) != bits::bit(y as nat, i)
    &&& forall|k: nat| i < k < 8 ==> #[trigger] bits::bit(x as nat, k) == bits::bit(y as nat, k)
}

/// The sorting helpers, one above the other: marked byte, marked bit, and
/// the two bytes.
pub open spec fn packed_sort(b_idx: nat, bit_idx: nat, byte_a: u8, byte_b: u8) -> nat {
    pow2(b_idx) + 0x100 * pow2(bit_idx) + 0x1_0000 * byte_a as nat + 0x100_0000 * byte_b as nat
}

/// `word` packs the comparison of an event with the next.
pub open spec fn compares(word: u128, cur: MemoryEvent, next: MemoryEvent) -> bool {
    exists|i: int, k: nat| #[trigger]
        compares_at(word, key_bytes(cur), key_bytes(next), i, k)
}

pub open spec fn compares_at(word: u128, cur: Seq<u8>, next: Seq<u8>, i: int, k: nat) -> bool {
    &&& is_first_difference(cur, next, i)
    &&& is_top_difference(next[i], cur[i], k)
    &&& word == packed_sort(i as nat, k, next[i], cur[i])
}

/// Pack the sorting helpers into a word.
pub fn pack_sort_bits(b_idx: usize, bit_idx: usize, byte_a: u8, byte_b: u8) -> (r: u32)
    requires
        b_idx < 8,
        bit_idx < 8,
    ensures
        r as nat == packed_sort(b_idx as nat, bit_idx as nat, byte_a, byte_b),
{
    let (i, k, a, b): (u32, u32, u32, u32) = (
        b_idx as u32,
        bit_idx as u32,
        byte_a as u32,
        byte_b as u32,
    );
    assert((1u32 << i) | ((1u32 << k) << 8) | (a << 16) | (b << 24) == (1u32 << i) + 0x100 * (1u32
        << k) + 0x1_0000 * a + 0x100_0000 * b) by (bit_vector)
        requires
            i < 8,
            k < 8,
            a < 256,
            b < 256,
    ;
    proof {
        lemma2_to64();
        vstd::bits::lemma_u32_pow2_no_overflow(i as nat);
        vstd::bits::lemma_u32_pow2_no_overflow(k as nat);
        vstd::bits::lemma_u32_shl_is_mul(1, i);
        vstd::bits::lemma_u32_shl_is_mul(1, k);
    }
    (1u32 << i) | ((1u32 << k) << 8) | (a << 16) | (b << 24)
}

/// The comparison of an event with a later one, packed.
fn compare_events(cur: &MemoryEvent, next: &MemoryEvent) -> (r: u32)
    requires
        cur.key() < next.key(),
    ensures
        compares(r as u128, *cur, *next),
{
    let (ca, cc) = (cur.addr_bytes(), cur.clk_bytes());
    let (na, nc) = (next.addr_bytes(), next.clk_bytes());
    let curr_key: [u8; 8] = [ca[3], ca[2], ca[1], ca[0], cc[3], cc[2], cc[1], cc[0]];
    let next_key: [u8; 8] = [na[3], na[2], na[1], na[0], nc[3], nc[2], nc[1], nc[0]];
    assert(curr_key@ =~= key_bytes(*cur));
    assert(next_key@ =~= key_bytes(*next));
    proof {
        lemma_keys_differ(*cur, *next);
    }
    let mut b_idx: usize = 0;
    while b_idx < 7 && next_key[b_idx] == curr_key[b_idx]
        invariant
            b_idx < 8,
            forall|k: int| 0 <= k < b_idx ==> #[trigger] curr_key@[k] == next_key@[k],
        decreases 8 - b_idx,
    {
        b_idx = b_idx + 1;
    }
    proof {
        if curr_key@[b_idx as int] == next_key@[b_idx as int] {
            assert(curr_key@ =~= next_key@);
        }
        assert(is_first_difference(curr_key@, next_key@, b_idx as int));
    }
    let byte_a: u8 = next_key[b_idx];
    let byte_b: u8 = curr_key[b_idx];
    proof {
        lemma_bytes_differ(byte_a, byte_b);
    }
    let mut bit_idx: usize = 7;
    while bit_idx > 0 && (byte_a as u32 >> bit_idx as u32) & 1 == (byte_b as u32 >> bit_idx as u32)
        & 1
        invariant
            bit_idx < 8,
            forall|k: nat|
                bit_idx < k < 8 ==> #[trigger] bits::bit(byte_a as nat, k) == bits::bit(
                    byte_b as nat,
                    k,
                ),
        decreases bit_idx,
    {
        proof {
            bits::lemma_bit_u32(byte_a as u32, bit_idx as nat);
            bits::lemma_bit_u32(byte_b as u32, bit_idx as nat);
        }
        bit_idx = bit_idx - 1;
    }
    proof {
        bits::lemma_bit_u32(byte_a as u32, bit_idx as nat);
        bits::lemma_bit_u32(byte_b as u32, bit_idx as nat);
        assert(is_top_difference(byte_a, byte_b, bit_idx as nat));
        let word = packed_sort(b_idx as nat, bit_idx as nat, byte_a, byte_b);
        assert(word <= u32::MAX ==> compares_at(
            word as u128,
            key_bytes(*cur),
            key_bytes(*next),
            b_idx as int,
            bit_idx as nat,
        ));
    }
    pack_sort_bits(b_idx, bit_idx, byte_a, byte_b)
}

/// Different keys differ in some byte.
pub proof fn lemma_keys_differ(a: MemoryEvent, b: MemoryEvent)
    requires
        a.key() != b.key(),
    ensures
        key_bytes(a) != key_bytes(b),
{
    if key_bytes(a) == key_bytes(b) {
        let (x, y) = (key_bytes(a), key_bytes(b));
        assert(x[0] == y[0] && x[1] == y[1] && x[2] == y[2] && x[3] == y[3] && x[4] == y[4] && x[5]
            == y[5] && x[6] == y[6] && x[7] == y[7]);
        bytes::lemma_byte_pow_values();
        bytes::lemma_le_bytes_len(a.addr as nat, 4);
        bytes::lemma_le_bytes_len(b.addr as nat, 4);
        bytes::lemma_le_bytes_len(a.clk as nat, 4);
        bytes::lemma_le_bytes_len(b.clk as nat, 4);
        assert(bytes::le_bytes(a.addr as nat, 4) =~= bytes::le_bytes(b.addr as nat, 4));
        assert(bytes::le_bytes(a.clk as nat, 4) =~= bytes::le_bytes(b.clk as nat, 4));
        bytes::law_le_injective(a.addr as nat, b.addr as nat, 4);
        bytes::law_le_injective(a.clk as nat, b.clk as nat, 4);
    }
}

/// Different bytes differ in some bit.
pub proof fn lemma_bytes_differ(a: u8, b: u8)
    requires
        a != b,
    ensures
        exists|k: nat| k < 8 && #[trigger] bits::bit(a as nat, k) != bits::bit(b as nat, k),
{
    if forall|k: nat| k < 8 ==> #[trigger] bits::bit(a as nat, k) == bits::bit(b as nat, k) {
        lemma2_to64();
        crate::atoms::int_laws::lemma_bits_of(a as nat, 8);
        crate::atoms::int_laws::lemma_bits_of(b as nat, 8);
        assert(crate::atoms::int_laws::bits_of(a as nat, 8) =~= crate::atoms::int_laws::bits_of(
            b as nat,
            8,
        ));
    }
}

// ---------------------------------------------------------------
// Trace generation
// ---------------------------------------------------------------

/// An address as a field element: its bytes, weighted by `256^j` in the
/// tower field.
pub open spec fn addr_field(addr: u32) -> u128 {
    let b = bytes::le_bytes(addr as nat, 4);
    (((0u128 ^ gf::gf128_mul(b[0] as u128, 1)) ^ gf::gf128_mul(b[1] as u128, 256)) ^ gf::gf128_mul(
        b[2] as u128,
        65536,
    )) ^ gf::gf128_mul(b[3] as u128, 16777216)
}

/// `x` inverts `d`, or is zero where `d` is.
pub open spec fn inverts(d: u128, x: u128) -> bool {
    if d == 0 {
        x == 0
    } else {
        gf::gf128_mul(d, x) == 1
    }
}

/// The address in the row after `r` (the first row follows the last).
pub open spec fn next_addr(events: Seq<MemoryEvent>, num_rows: nat, r: int) -> u32 {
    if r + 1 < events.len() {
        events[r + 1].addr
    } else if num_rows > events.len() {
        0
    } else {
        events[0].addr
    }
}

/// `1` for true, `0` for false.
pub open spec fn flag(b: bool) -> u128 {
    if b {
        1
    } else {
        0
    }
}

/// The thirteen data words of an event.
pub open spec fn data_cell(e: MemoryEvent, c: int) -> u128 {
    if 2 <= c < 6 {
        bytes::le_bytes(e.addr as nat, 4)[c - 2] as u128
    } else if 6 <= c < 10 {
        bytes::le_bytes(e.clk as nat, 4)[c - 6] as u128
    } else if 10 <= c < 14 {
        bytes::le_bytes(e.val as nat, 4)[c - 10] as u128
    } else {
        e.val as u128
    }
}

/// `row` is row `r` of the table of these events.
pub open spec fn is_table_row(
    row: Seq<u128>,
    events: Seq<MemoryEvent>,
    num_rows: nat,
    r: int,
) -> bool {
    &&& row.len() == 21
    &&& r + 1 < events.len() ==> compares(row[0], events[r], events[r + 1])
    &&& r + 1 >= events.len() ==> row[0] == PACK_SORT_DEFAULT
    &&& forall|c: int|
        1 <= c < 15 ==> #[trigger] row[c] == (if r < events.len() {
            data_cell(events[r], c)
        } else {
            0
        })
    &&& if r < events.len() {
        inverts(
            addr_field(next_addr(events, num_rows, r)) ^ addr_field(events[r].addr),
            row[15],
        )
    } else {
        row[15] == 0
    }
    &&& row[16] == flag(r < events.len() && events[r].is_write)
    &&& row[17] == flag(r < events.len())
    &&& row[18] == flag(r < num_rows - 1)
    &&& row[19] == flag(r == 0 && events.len() > 0)
    &&& row[20] == flag(r == num_rows - 1)
}

/// The address as a field element.
fn address_element(addr: u32) -> (r: Block128)
    ensures
        r.0 == addr_field(addr),
{
    let b = bytes::le_bytes4(addr);
    let acc = Block128(0).plus(Block128(b[0] as u128).times(Block128(1)));
    let acc = acc.plus(Block128(b[1] as u128).times(Block128(256)));
    let acc = acc.plus(Block128(b[2] as u128).times(Block128(65536)));
    acc.plus(Block128(b[3] as u128).times(Block128(16777216)))
}

fn bit_of(b: bool) -> (r: Bit)
    ensures
        r.0 == flag(b),
        r.0 <= 1,
{
    if b {
        Bit(1)
    } else {
        Bit(0)
    }
}

/// Writes the row of event `i`.
fn write_event(
    tb: &mut TraceBuilder,
    events: &Vec<MemoryEvent>,
    i: usize,
    num_rows: usize,
) -> (res: Result<(), Error>)
    requires
        old(tb).wf(),
        old(tb).layout() == ram_layout(),
        old(tb).height() == num_rows,
        i < events@.len() <= num_rows,
        event::strictly_ascending(events@),
    ensures
        res is Ok,
        final(tb).same_shape(old(tb)),
        is_table_row(final(tb).row(i as int), events@, num_rows as nat, i as int),
        forall|c: int, r: int|
            old(tb).in_range(c, r) && r != i ==> #[trigger] final(tb).at(c, r) == old(tb).at(c, r),
{
    let event = events[i];
    let addr_bytes = event.addr_bytes();
    let clk_bytes = event.clk_bytes();
    let val_bytes = event.val_bytes();
    let ghost before = *tb;
    for j in 0..4
        invariant
            tb.wf(),
            tb.same_shape(&before),
            before.layout() == ram_layout(),
            before.height() == num_rows,
            i < num_rows,
            addr_bytes@ == bytes::le_bytes(event.addr as nat, 4),
            clk_bytes@ == bytes::le_bytes(event.clk as nat, 4),
            val_bytes@ == bytes::le_bytes(event.val as nat, 4),
            forall|c: int, r: int|
                #![trigger tb.at(c, r)]
                before.in_range(c, r) ==> tb.at(c, r) == (if r == i && (2 <= c < 2 + j || 6 <= c
                    < 6 + j || 10 <= c < 10 + j) {
                    data_cell(event, c)
                } else {
                    before.at(c, r)
                }),
    {
        tb.set_b32(PHY_ADDR_B0 + j, i, Block32(addr_bytes[j] as u32))?;
        tb.set_b32(PHY_CLK_B0 + j, i, Block32(clk_bytes[j] as u32))?;
        tb.set_b32(PHY_VAL_B0 + j, i, Block32(val_bytes[j] as u32))?;
    }
    tb.set_b32(PHY_VAL_PACKED, i, Block32(event.val))?;
    tb.set_b32(PHY_PACK_VAL, i, Block32(event.val))?;
    tb.set_bit(PHY_IS_WRITE, i, bit_of(event.is_write))?;
    tb.set_bit(PHY_SELECTOR, i, Bit(1))?;
    tb.set_bit(PHY_Q_STEP, i, bit_of(i < num_rows - 1))?;
    tb.set_bit(PHY_Q_FIRST, i, bit_of(i == 0))?;
    tb.set_bit(PHY_Q_LAST, i, bit_of(i == num_rows - 1))?;
    let next: u32 = if i + 1 < events.len() {
        events[i + 1].addr
    } else if num_rows > events.len() {
        0
    } else {
        events[0].addr
    };
    let diff = address_element(next).plus(address_element(event.addr));
    tb.set_b128(PHY_AUX_INV, i, diff.invert())?;
    let sort_word: u32 = if i + 1 < events.len() {
        proof {
            assert(events@[i as int].key() < events@[i + 1].key());
        }
        compare_events(&events[i], &events[i + 1])
    } else {
        PACK_SORT_DEFAULT
    };
    tb.set_b32(PHY_PACK_SORT, i, Block32(sort_word))?;
    proof {
        let row = tb.row(i as int);
        assert forall|c: int| 1 <= c < 15 implies #[trigger] row[c] == data_cell(event, c) by {
            assert(row[c] == tb.at(c, i as int));
        }
        assert(row[0] == tb.at(0, i as int));
        assert(row[15] == tb.at(15, i as int));
        assert(row[16] == tb.at(16, i as int));
        assert(row[17] == tb.at(17, i as int));
        assert(row[18] == tb.at(18, i as int));
        assert(row[19] == tb.at(19, i as int));
        assert(row[20] == tb.at(20, i as int));
    }
    Ok(())
}

/// The table of a list of events: the events sorted by address and time,
/// one row each, then padding.
pub fn generate_ram_trace(events: &[MemoryEvent], num_rows: usize) -> (res: Result<
    ColumnTrace,
    Error,
>)
    requires
        bits::is_power_of_two(num_rows as nat),
    ensures
        res is Ok <==> events@.len() <= num_rows && exists|s: Seq<MemoryEvent>| #[trigger]
            event::is_sorting(events@, s) && event::strictly_ascending(s)
                && comparator::consistent(s),
        res matches Ok(t) ==> {
            &&& t.wf()
            &&& pow2(t.num_vars as nat) == num_rows
            &&& t.layout() == ram_layout()
            &&& exists|s: Seq<MemoryEvent>| #[trigger]
                event::is_sorting(events@, s) && event::strictly_ascending(s)
                    && comparator::consistent(s) && (forall|r: int|
                    0 <= r < num_rows ==> is_table_row(
                        #[trigger] t.row(r),
                        s,
                        num_rows as nat,
                        r,
                    ))
        },
        res matches Err(e) ==> e.is_protocol(
            "ram"@,
            if events@.len() > num_rows {
                "too many events for trace size"@
            } else if !(exists|s: Seq<MemoryEvent>| #[trigger]
                event::is_sorting(events@, s) && event::strictly_ascending(s)) {
                "events not sorted by (addr, clk)"@
            } else {
                "memory consistency violated: read value differs from last write"@
            },
        ),
{
    if events.len() > num_rows {
        return Err(Error::Protocol { protocol: "ram", message: "too many events for trace size" });
    }
    let sorted = event::sort_events(events);
    proof {
        assert forall|s: Seq<MemoryEvent>| #[trigger]
            event::is_sorting(events@, s) && event::strictly_ascending(s) implies s == sorted@ by {
            event::law_sorting_is_unique(s, sorted@);
        }
    }
    if !comparator::verify_sorted(sorted.as_slice()) {
        return Err(
            Error::Protocol { protocol: "ram", message: "events not sorted by (addr, clk)" },
        );
    }
    if !comparator::verify_consistency(sorted.as_slice()) {
        return Err(
            Error::Protocol {
                protocol: "ram",
                message: "memory consistency violated: read value differs from last write",
            },
        );
    }
    let num_vars: usize = match trace::exact_log2(num_rows) {
        Some(k) => k,
        None => 0,
    };
    let layout = build_layout();
    let mut tb = TraceBuilder::new(layout.as_slice(), num_vars)?;
    for i in 0..sorted.len()
        invariant
            sorted@.len() <= num_rows,
            event::strictly_ascending(sorted@),
            num_rows as nat == pow2(num_vars as nat),
            tb.wf(),
            tb.layout() == ram_layout(),
            tb.vars() == num_vars,
            forall|r: int|
                0 <= r < i ==> is_table_row(
                    #[trigger] tb.row(r),
                    sorted@,
                    num_rows as nat,
                    r,
                ),
            forall|c: int, r: int|
                0 <= c < 21 && i <= r < num_rows ==> #[trigger] tb.at(c, r) == 0,
    {
        let ghost before = tb;
        write_event(&mut tb, &sorted, i, num_rows)?;
        proof {
            assert forall|r: int| 0 <= r < i + 1 implies is_table_row(
                #[trigger] tb.row(r),
                sorted@,
                num_rows as nat,
                r,
            ) by {
                if r < i {
                    assert(is_table_row(before.row(r), sorted@, num_rows as nat, r));
                    assert(tb.row(r) =~= before.row(r));
                }
            }
        }
    }
    let first: usize = sorted.len();
    for row in first..num_rows
        invariant
            first == sorted@.len(),
            sorted@.len() <= num_rows,
            num_rows as nat == pow2(num_vars as nat),
            tb.wf(),
            tb.layout() == ram_layout(),
            tb.vars() == num_vars,
            forall|r: int|
                0 <= r < row ==> is_table_row(
                    #[trigger] tb.row(r),
                    sorted@,
                    num_rows as nat,
                    r,
                ),
            forall|c: int, r: int|
                0 <= c < 21 && row <= r < num_rows ==> #[trigger] tb.at(c, r) == 0,
    {
        let ghost before = tb;
        tb.set_b32(PHY_PACK_SORT, row, Block32(PACK_SORT_DEFAULT))?;
        if row < num_rows - 1 {
            tb.set_bit(PHY_Q_STEP, row, Bit(1))?;
        } else {
            tb.set_bit(PHY_Q_LAST, row, Bit(1))?;
        }
        proof {
            assert forall|r: int| 0 <= r < row + 1 implies is_table_row(
                #[trigger] tb.row(r),
                sorted@,
                num_rows as nat,
                r,
            ) by {
                if r < row {
                    assert(is_table_row(before.row(r), sorted@, num_rows as nat, r));
                    assert(tb.row(r) =~= before.row(r));
                } else {
                    let cells = tb.row(r);
                    assert forall|c: int| 1 <= c < 15 implies #[trigger] cells[c] == 0 by {
                        assert(cells[c] == tb.at(c, r));
                    }
                    assert(cells[0] == tb.at(0, r));
                    assert(cells[15] == tb.at(15, r));
                    assert(cells[16] == tb.at(16, r));
                    assert(cells[17] == tb.at(17, r));
                    assert(cells[18] == tb.at(18, r));
                    assert(cells[19] == tb.at(19, r));
                    assert(cells[20] == tb.at(20, r));
                }
            }
        }
    }
    let t = tb.build();
    proof {
        assert forall|r: int| 0 <= r < num_rows implies is_table_row(
            #[trigger] t.row(r),
            sorted@,
            num_rows as nat,
            r,
        ) by {
            assert(is_table_row(tb.row(r), sorted@, num_rows as nat, r));
            assert(t.row(r) =~= tb.row(r));
        }
    }
    Ok(t)
}

} // verus!
