//! What the two sides of each bus put on it, digit by digit.

use vstd::arithmetic::div_mod::*;
use vstd::arithmetic::power::*;
use vstd::arithmetic::power2::*;
use vstd::prelude::*;

use super::integer::arith;
use super::integer::arith::{ArithmeticOpcode, IntArithmeticLayout, IntArithmeticOp};
use super::integer::laws as integer_laws;
use super::integer::words;
use super::ram::air as ram_air;
use super::ram::event::MemoryEvent;
use super::ram::laws as ram_laws;
use super::ram::table as ram_table;
use super::rom::Instruction;
use crate::atoms::int_laws;
use crate::bits;
use crate::bytes;
use crate::program::expander;
use crate::program::permutation::PermutationCheckSpec;

verus! {

// ---------------------------------------------------------------
// Memory
// ---------------------------------------------------------------

/// The four base-256 digits of a word, least significant first.
pub open spec fn digits(x: u32) -> Seq<u128> {
    seq![
        (x % 0x100) as u128,
        (x / 0x100 % 0x100) as u128,
        (x / 0x1_0000 % 0x100) as u128,
        (x / 0x100_0000) as u128,
    ]
}

/// What an access looks like on the bus: address, clock, value, and one for a
/// write.
pub open spec fn event_key(e: MemoryEvent) -> Seq<u128> {
    digits(e.addr) + digits(e.clk) + digits(e.val) + seq![
        if e.is_write {
            1u128
        } else {
            0u128
        },
    ]
}

proof fn lemma_powers()
    ensures
        pow(256, 0) == 1,
        pow(256, 1) == 0x100,
        pow(256, 2) == 0x1_0000,
        pow(256, 3) == 0x100_0000,
        pow(256, 4) == 0x1_0000_0000,
{
    reveal_with_fuel(pow, 6);
}

proof fn lemma_digits(x: u32, j: int)
    requires
        0 <= j < 4,
    ensures
        bytes::le_bytes(x as nat, 4)[j] as u128 == digits(x)[j],
{
    lemma_powers();
    bytes::law_le_digits(x as nat, 4, j as nat);
}

proof fn lemma_digits_tell(x: u32, y: u32)
    requires
        digits(x) == digits(y),
    ensures
        x == y,
{
    let (p, q) = (digits(x), digits(y));
    assert(p[0] == q[0] && p[1] == q[1] && p[2] == q[2] && p[3] == q[3]);
}

/// Two accesses look alike on the bus only where they are the same access.
pub proof fn law_event_keys_tell(a: MemoryEvent, b: MemoryEvent)
    ensures
        event_key(a) == event_key(b) <==> a == b,
{
    let (p, q) = (event_key(a), event_key(b));
    if p == q {
        assert(p.subrange(0, 4) =~= digits(a.addr) && q.subrange(0, 4) =~= digits(b.addr));
        assert(p.subrange(4, 8) =~= digits(a.clk) && q.subrange(4, 8) =~= digits(b.clk));
        assert(p.subrange(8, 12) =~= digits(a.val) && q.subrange(8, 12) =~= digits(b.val));
        assert(p[12] == q[12]);
        lemma_digits_tell(a.addr, b.addr);
        lemma_digits_tell(a.clk, b.clk);
        lemma_digits_tell(a.val, b.val);
    }
}

/// A table row that holds an access puts that access on the bus.
pub proof fn law_table_rows_present_events(
    bus: PermutationCheckSpec,
    row: Seq<u128>,
    e: MemoryEvent,
    index: nat,
)
    requires
        bus.sources@ == ram_air::event_sources(),
        bus.selector == Some(79usize),
        ram_laws::holds_event(row, e),
    ensures
        ({
            let cells = expander::expanded(ram_air::ram_virtuals(), row);
            &&& bus.key(cells, index) == event_key(e)
            &&& cells[bus.selector->0 as int] == 1
        }),
{
    let cells = expander::expanded(ram_air::ram_virtuals(), row);
    lemma_table_cells(row);
    assert forall|j: int| 0 <= j < 4 implies #[trigger] cells[64 + j] == digits(e.addr)[j] by {
        lemma_digits(e.addr, j);
        assert(cells[62 + (2 + j)] == row[2 + j]);
        assert(row[2 + j] == ram_table::data_cell(e, 2 + j));
    }
    assert forall|j: int| 0 <= j < 4 implies #[trigger] cells[68 + j] == digits(e.clk)[j] by {
        lemma_digits(e.clk, j);
        assert(cells[62 + (6 + j)] == row[6 + j]);
        assert(row[6 + j] == ram_table::data_cell(e, 6 + j));
    }
    assert forall|j: int| 0 <= j < 4 implies #[trigger] cells[72 + j] == digits(e.val)[j] by {
        lemma_digits(e.val, j);
        assert(cells[62 + (10 + j)] == row[10 + j]);
        assert(row[10 + j] == ram_table::data_cell(e, 10 + j));
    }
    assert(cells[62 + 16int] == row[16] && cells[62 + 17int] == row[17]);
    lemma_event_cells(bus, cells, index);
    assert(bus.key(cells, index) =~= event_key(e));
}

proof fn lemma_table_cells(row: Seq<u128>)
    requires
        row.len() == 21,
    ensures
        ({
            let cells = expander::expanded(ram_air::ram_virtuals(), row);
            forall|c: int| 2 <= c < 21 ==> #[trigger] cells[62 + c] == row[c]
        }),
{
    let cells = expander::expanded(ram_air::ram_virtuals(), row);
    assert forall|c: int| 2 <= c < 21 implies #[trigger] cells[62 + c] == row[c] by {
        assert(ram_air::ram_virtuals()[62 + c] == expander::whole_columns(2, 19)[c - 2]);
    }
}

proof fn lemma_event_cells(bus: PermutationCheckSpec, cells: Seq<u128>, index: nat)
    requires
        bus.sources@ == ram_air::event_sources(),
    ensures
        bus.key(cells, index).len() == 13,
        forall|j: int| 0 <= j < 4 ==> #[trigger] bus.key(cells, index)[j] == cells[64 + j],
        forall|j: int| 4 <= j < 8 ==> #[trigger] bus.key(cells, index)[j] == cells[68 + (j - 4)],
        forall|j: int| 8 <= j < 12 ==> #[trigger] bus.key(cells, index)[j] == cells[72 + (j - 8)],
        bus.key(cells, index)[12] == cells[78],
{
}

/// A row of the CPU with an access's address, value and write flag puts on the
/// bus that access at the time of the row's number.
pub proof fn law_cpu_rows_present_events(bus: PermutationCheckSpec, row: Seq<u128>, e: MemoryEvent)
    requires
        bus.sources@ == ram_table::cpu_sources(),
        row.len() == 10,
        row.subrange(0, 4) == digits(e.addr),
        row.subrange(4, 8) == digits(e.val),
        row[8] == (if e.is_write {
            1u128
        } else {
            0u128
        }),
    ensures
        bus.key(row, e.clk as nat) == event_key(e),
{
    bytes::lemma_byte_pow_values();
    let (a, v) = (row.subrange(0, 4), row.subrange(4, 8));
    assert(row[0] == a[0] && row[1] == a[1] && row[2] == a[2] && row[3] == a[3]);
    assert(row[4] == v[0] && row[5] == v[1] && row[6] == v[2] && row[7] == v[3]);
    let index = e.clk as nat;
    assert(index / 1 == index);
    assert(index / 0x100_0000 < 256);
    assert(bus.key(row, index) =~= event_key(e));
}

/// Both sides of the memory bus name the parts of an access alike.
pub proof fn law_event_labels(i: int)
    requires
        0 <= i < 13,
    ensures
        ram_air::event_sources().len() == 13,
        ram_table::cpu_sources().len() == 13,
        ram_air::event_sources()[i].1 == ram_table::cpu_sources()[i].1,
{
}

/// On the value bus a row that holds an access puts its value as one word,
/// with the address and the clock.
pub proof fn law_value_rows(
    bus: PermutationCheckSpec,
    row: Seq<u128>,
    e: MemoryEvent,
    index: nat,
)
    requires
        bus.sources@ == ram_air::value_sources(),
        ram_laws::holds_event(row, e),
        ram_laws::value_ok(row),
    ensures
        bus.key(expander::expanded(ram_air::ram_virtuals(), row), index) == seq![e.val as u128]
            + digits(e.addr) + digits(e.clk),
{
    let cells = expander::expanded(ram_air::ram_virtuals(), row);
    lemma_table_cells(row);
    assert forall|j: int| 0 <= j < 4 implies #[trigger] cells[64 + j] == digits(e.addr)[j] by {
        lemma_digits(e.addr, j);
        assert(cells[62 + (2 + j)] == row[2 + j]);
        assert(row[2 + j] == ram_table::data_cell(e, 2 + j));
    }
    assert forall|j: int| 0 <= j < 4 implies #[trigger] cells[68 + j] == digits(e.clk)[j] by {
        lemma_digits(e.clk, j);
        assert(cells[62 + (6 + j)] == row[6 + j]);
        assert(row[6 + j] == ram_table::data_cell(e, 6 + j));
    }
    let w = row[1] as u32;
    lemma2_to64();
    assert forall|j: int| 0 <= j < 4 implies #[trigger] digits(w)[j] == digits(e.val)[j] by {
        lemma_digits(e.val, j);
        assert(row[10 + j] == ram_table::data_cell(e, 10 + j));
        assert(row[10 + j] == ram_laws::byte_at(row[1] as nat, j as nat));
        assert(row[1] < 0x1_0000_0000);
        assert(j == 0 || j == 1 || j == 2 || j == 3);
        assert(row[1] as nat / 1 == row[1]);
    }
    assert(digits(w) =~= digits(e.val));
    lemma_digits_tell(w, e.val);
    assert(cells[62 + 14int] == row[14]);
    let want = seq![e.val as u128] + digits(e.addr) + digits(e.clk);
    let key = bus.key(cells, index);
    assert(key[0] == cells[76]);
    assert(forall|j: int| 1 <= j < 5 ==> #[trigger] key[j] == cells[64 + (j - 1)]);
    assert(forall|j: int| 5 <= j < 9 ==> #[trigger] key[j] == cells[68 + (j - 5)]);
    assert(key =~= want);
}

// ---------------------------------------------------------------
// Instructions
// ---------------------------------------------------------------

/// A fetch shows the digits of the counter, the opcode and the arguments in
/// their order.
pub proof fn law_fetch_digits(i: Instruction)
    ensures
        i.fetch_key() == digits(i.pc) + seq![
            i.opcode as u128,
            i.args[0] as u128,
            i.args[1] as u128,
            i.args[2] as u128,
        ],
{
    lemma_digits(i.pc, 0);
    lemma_digits(i.pc, 1);
    lemma_digits(i.pc, 2);
    lemma_digits(i.pc, 3);
}

// ---------------------------------------------------------------
// Integer operations
// ---------------------------------------------------------------

/// The number an operation goes by.
pub open spec fn op_code(op: ArithmeticOpcode) -> u128 {
    match op {
        ArithmeticOpcode::ADD => 0,
        ArithmeticOpcode::SUB => 1,
        ArithmeticOpcode::AND => 2,
        ArithmeticOpcode::XOR => 3,
        ArithmeticOpcode::NOT => 4,
        ArithmeticOpcode::LT => 5,
    }
}

/// A table row of an operation puts on the bus the two operands, the result,
/// the operation and the request; a row of the CPU with the same four cells
/// puts the same, if the request is its own number.
pub proof fn law_operations_meet(
    table: PermutationCheckSpec,
    cpu: PermutationCheckSpec,
    ly: IntArithmeticLayout,
    row: Seq<u128>,
    call: IntArithmeticOp,
    host: Seq<u128>,
    index: nat,
)
    requires
        ly.wf(),
        table.sources@ == arith::link_sources(ly),
        table.selector == Some(ly.s_output),
        cpu.sources@ == arith::cpu_link_sources(),
        row.len() == 13,
        arith::row_holds(row, call, ly.bit_width as nat),
        host.len() == 5,
        index < 0x1_0000_0000,
    ensures
        ({
            let cells = integer_laws::virtual_row(row, ly.bit_width as nat);
            let result = arith::op_result(
                call.opcode(),
                call.lhs(),
                call.rhs(),
                ly.bit_width as nat,
            );
            &&& table.key(cells, index) == seq![
                call.lhs() as u128,
                call.rhs() as u128,
                result as u128,
                op_code(call.opcode()),
                call.request() as u128,
            ]
            &&& cells[table.selector->0 as int] == 1
            &&& cpu.key(host, index) == seq![host[0], host[1], host[2], host[3], index as u128]
            &&& table.labels() == cpu.labels()
        }),
{
    let n = ly.bit_width as nat;
    let cells = integer_laws::virtual_row(row, n);
    integer_laws::lemma_virtual(ly, row);
    assert(cells[ly.val_a + 0] == row[0]);
    assert(cells[ly.val_a + 1] == row[1]);
    assert(cells[ly.val_a + 2] == row[2]);
    assert(cells[ly.val_a + 4] == row[4]);
    assert(cells[ly.val_a + 5] == row[5]);
    assert(cells[ly.val_a + 6] == row[6]);
    bytes::lemma_byte_pow_values();
    lemma_small_mod(index, 0x1_0000_0000);
    assert(table.key(cells, index) =~= seq![
        call.lhs() as u128,
        call.rhs() as u128,
        row[2],
        op_code(call.opcode()),
        call.request() as u128,
    ]);
    assert(cpu.key(host, index) =~= seq![host[0], host[1], host[2], host[3], index as u128]);
    assert(table.labels() =~= cpu.labels());
}

/// What the operations compute of `n`-bit numbers: the sum and the difference
/// modulo `2^n`; conjunction, exclusive or and complement bit by bit; whether
/// the first operand is the smaller.
pub proof fn law_operations(a: u64, b: u64, n: nat)
    requires
        arith::is_width(n),
        a < pow2(n),
        b < pow2(n),
    ensures
        arith::op_result(ArithmeticOpcode::ADD, a, b, n) == (if a + b < pow2(n) {
            a + b
        } else {
            a + b - pow2(n)
        }),
        arith::op_result(ArithmeticOpcode::SUB, a, b, n) == (if b <= a {
            a - b
        } else {
            a - b + pow2(n)
        }),
        arith::op_result(ArithmeticOpcode::LT, a, b, n) == (if a < b {
            1nat
        } else {
            0nat
        }),
        arith::op_result(ArithmeticOpcode::AND, a, b, n) < pow2(n),
        arith::op_result(ArithmeticOpcode::XOR, a, b, n) < pow2(n),
        arith::op_result(ArithmeticOpcode::NOT, a, b, n) + a == pow2(n) - 1,
{
    lemma_pow2_pos(n);
    let p = pow2(n) as int;
    lemma_small_mod(a as nat, pow2(n));
    lemma_small_mod(b as nat, pow2(n));
    if a + b < p {
        lemma_small_mod((a + b) as nat, pow2(n));
    } else {
        lemma_fundamental_div_mod_converse(a + b, p, 1, a + b - p);
    }
    if b <= a {
        lemma_fundamental_div_mod_converse(a + p - b, p, 1, a - b);
    } else {
        lemma_small_mod((a + p - b) as nat, pow2(n));
    }
    lemma_mod_bound((a & b) as int, p);
    lemma_mod_bound((a ^ b) as int, p);
    lemma_complement(a, n);
}

proof fn lemma_complement(a: u64, n: nat)
    requires
        arith::is_width(n),
        a < pow2(n),
    ensures
        (!a) as nat % pow2(n) + a == pow2(n) - 1,
{
    lemma2_to64();
    lemma2_to64_rest();
    assert(!a == 0xffff_ffff_ffff_ffff - a) by (bit_vector);
    if n == 32 {
        lemma_fundamental_div_mod_converse(
            (!a) as int,
            0x1_0000_0000,
            0xffff_ffff,
            0xffff_ffff - a,
        );
    } else {
        lemma_small_mod((!a) as nat, pow2(n));
    }
}

/// The bits of a conjunction and of an exclusive or, place by place.
pub proof fn law_bitwise_operations(a: u64, b: u64, n: nat, k: nat)
    requires
        arith::is_width(n),
        k < n,
    ensures
        ({
            let (x, y) = (bits::bit(a as nat, k), bits::bit(b as nat, k));
            &&& x <= 1 && y <= 1
            &&& bits::bit(arith::op_result(ArithmeticOpcode::AND, a, b, n), k) == (if x == 1 && y
                == 1 {
                1nat
            } else {
                0nat
            })
            &&& bits::bit(arith::op_result(ArithmeticOpcode::XOR, a, b, n), k) == (if x == y {
                0nat
            } else {
                1nat
            })
        }),
{
    integer_laws::lemma_word_bits(a, b, k);
    bits::lemma_mod_pow2_step(a as nat, k);
    bits::lemma_mod_pow2_step(b as nat, k);
    let (x, y) = (bits::bit(a as nat, k), bits::bit(b as nat, k));
    lemma_low_bit((a & b) as nat, n, k);
    lemma_low_bit((a ^ b) as nat, n, k);
    int_laws::lemma_xor(x as u128, y as u128);
    bits::lemma_mod_pow2_step((a & b) as nat, k);
    bits::lemma_mod_pow2_step((a ^ b) as nat, k);
    assert(x * y == if x == 1 && y == 1 {
        1nat
    } else {
        0nat
    }) by (nonlinear_arith)
        requires
            x <= 1,
            y <= 1,
    ;
}

proof fn lemma_low_bit(v: nat, n: nat, k: nat)
    requires
        k < n,
    ensures
        bits::bit(v % pow2(n), k) == bits::bit(v, k),
{
    integer_laws::lemma_mod_bits(v, n);
    let (p, q) = (
        int_laws::bits_of(v % pow2(n), n),
        int_laws::bits_of(v, n),
    );
    assert(p[k as int] == q[k as int]);
    bits::lemma_mod_pow2_step(v, k);
    bits::lemma_mod_pow2_step(v % pow2(n), k);
}

} // verus!
