//! A table that meets its constraints writes the power: whatever its cells,
//! the row of the result holds `s^65537 mod N`.

use vstd::arithmetic::div_mod::*;
use vstd::arithmetic::mul::*;
use vstd::arithmetic::power::*;
use vstd::arithmetic::power2::*;
use vstd::prelude::*;

use super::air;
use super::bigint;
use super::chiplet;
use super::columns::ModexpCols;
use super::complete;
use super::cpu;
use super::cpu::CpuModexpBlock;
use super::exponents;
use super::limbs;
use super::modexp::Modexp;
use super::modmul;
use super::reading;
use super::table;
use super::witness;
use crate::atoms::exp_form;
use crate::atoms::generator;
use crate::atoms::int_laws;
use crate::field::gf;
use crate::program::circuit::{CircuitProgram, Col};
use crate::program::constraint::Env;
use crate::program::expander;
use crate::program::permutation::{Bus, Source};

verus! {

// ---------------------------------------------------------------
// The numbers of a table
// ---------------------------------------------------------------

/// The limbs in the 64 columns from `start` on.
pub open spec fn number(t: Seq<Seq<u128>>, row: int, start: int) -> Seq<u32> {
    Seq::new(64, |j: int| t[row][start + j] as u32)
}

/// The limbs of the quotient, of which each row of a block holds two.
pub open spec fn quotient(t: Seq<Seq<u128>>, b: int) -> Seq<u32> {
    Seq::new(
        64,
        |j: int|
            if j % 2 == 0 {
                (t[32 * b + j / 2][1] % 0x1_0000_0000) as u32
            } else {
                (t[32 * b + j / 2][1] / 0x1_0000_0000) as u32
            },
    )
}

/// The left factor of a side.
spec fn left(t: Seq<Seq<u128>>, side: int, b: int) -> Seq<u32> {
    if side == 0 {
        number(t, 32 * b, 66)
    } else {
        quotient(t, b)
    }
}

/// The right factor of a side.
spec fn right(t: Seq<Seq<u128>>, side: int, b: int) -> Seq<u32> {
    if side == 0 {
        number(t, 32 * b, 130)
    } else {
        number(t, 0, 194)
    }
}

/// What a side adds.
spec fn added(t: Seq<Seq<u128>>, side: int, b: int) -> Seq<u32> {
    if side == 0 {
        Seq::empty()
    } else {
        number(t, 32 * b, 258)
    }
}

/// The row before the first of block `b`.
proof fn lemma_row_before(b: int)
    requires
        0 <= b < 32,
    ensures
        ({
            let p = 32 * exponents::block_before(b) + 31;
            &&& 0 <= p < 1024
            &&& p % 32 == 31
            &&& p / 32 == exponents::block_before(b)
            &&& reading::row_after(p) == 32 * b
        }),
{
}

/// The limb that a row multiplies is a limb of the left factor.
proof fn lemma_left_pair(t: Seq<Seq<u128>>, k: ModexpCols, g: u128, b: int, i: int, side: int)
    requires
        witness::accepted(t, k, g),
        k.wf(),
        0 <= b < 32,
        0 <= i < 32,
        0 <= side < 2,
    ensures
        bigint::pair(left(t, side, b), i) == t[32 * b + i][side] as nat,
{
    let row = 32 * b + i;
    assert(row % 32 == i);
    witness::lemma_accepted(t, k, g, row);
    witness::lemma_accepted(t, k, g, 32 * b);
    let x = left(t, side, b);
    if side == 0 {
        witness::lemma_selected(t, k, g, row);
        witness::lemma_array_block(t, k, g, b, i, 2 * i);
        witness::lemma_array_block(t, k, g, b, i, 2 * i + 1);
        assert(witness::cell_fits(66 + 2 * i, t[32 * b][66 + 2 * i]));
        assert(witness::cell_fits(66 + (2 * i + 1), t[32 * b][66 + (2 * i + 1)]));
        assert(x[2 * i] == t[32 * b][66 + 2 * i] as u32);
        assert(x[2 * i + 1] == t[32 * b][66 + (2 * i + 1)] as u32);
    } else {
        let v = t[row][1];
        assert(witness::cell_fits(1, v));
        assert((2 * i) / 2 == i && (2 * i) % 2 == 0 && (2 * i + 1) / 2 == i && (2 * i + 1) % 2
            == 1);
        assert(x[2 * i] == (v % 0x1_0000_0000) as u32);
        assert(x[2 * i + 1] == (v / 0x1_0000_0000) as u32);
    }
}

/// Every row of a block sees the right factor.
proof fn lemma_right_limb(
    t: Seq<Seq<u128>>,
    k: ModexpCols,
    g: u128,
    b: int,
    i: int,
    side: int,
    j: int,
)
    requires
        witness::accepted(t, k, g),
        k.wf(),
        0 <= b < 32,
        0 <= i < 32,
        0 <= side < 2,
        0 <= j < 64,
    ensures
        t[32 * b + i][witness::other_word(side, j)] == right(t, side, b)[j],
{
    let row = 32 * b + i;
    witness::lemma_accepted(t, k, g, 32 * b);
    witness::lemma_accepted(t, k, g, 0);
    if side == 0 {
        witness::lemma_array_block(t, k, g, b, i, j);
        assert(witness::cell_fits(130 + j, t[32 * b][130 + j]));
    } else {
        witness::lemma_array_fixed(t, k, g, row, j);
        assert(witness::cell_fits(194 + j, t[0][194 + j]));
    }
}

// ---------------------------------------------------------------
// Columns
// ---------------------------------------------------------------

/// The product cells of a row.
proof fn lemma_product_cell(
    t: Seq<Seq<u128>>,
    k: ModexpCols,
    g: u128,
    b: int,
    i: int,
    side: int,
    c: int,
)
    requires
        witness::accepted(t, k, g),
        k.wf(),
        0 <= b < 32,
        0 <= i < 32,
        0 <= side < 2,
        0 <= c < 64,
    ensures
        t[32 * b + i][571 + 1024 * side + 16 * c + 15] == gf::gf128_pow(
            g,
            bigint::pair(left(t, side, b), i) * right(t, side, b)[c] as nat,
        ),
{
    witness::lemma_product_power(t, k, g, 32 * b + i, side, c);
    lemma_left_pair(t, k, g, b, i, side);
    lemma_right_limb(t, k, g, b, i, side, c);
}

/// A running column is the power of what the limbs so far add to a column of
/// the product.
proof fn lemma_running(
    t: Seq<Seq<u128>>,
    k: ModexpCols,
    g: u128,
    b: int,
    i: int,
    side: int,
    c: int,
)
    requires
        witness::accepted(t, k, g),
        k.wf(),
        0 <= b < 32,
        0 <= i < 32,
        0 <= side < 2,
        0 <= c < 64,
    ensures
        t[32 * b + i][2619 + 64 * side + c] == gf::gf128_pow(
            g,
            bigint::column_sum(left(t, side, b), right(t, side, b), (i + 1) as nat, 2 * i + c),
        ),
    decreases i,
{
    let (x, y) = (left(t, side, b), right(t, side, b));
    exponents::lemma_column_step(x, y, i, c);
    lemma_product_cell(t, k, g, b, i, side, c);
    if i == 0 {
        lemma_row_before(b);
        witness::lemma_running_step(
            t,
            k,
            g,
            32 * exponents::block_before(b) + 31,
            side,
            c,
        );
    } else {
        let row = 32 * b + (i - 1);
        assert(row % 32 == i - 1 && reading::row_after(row) == 32 * b + i);
        witness::lemma_running_step(t, k, g, row, side, c);
        if c + 2 < 64 {
            lemma_running(t, k, g, b, i - 1, side, c + 2);
            assert((i - 1 + 1) as nat == i as nat);
            exp_form::law_powers_add(
                g,
                bigint::column_sum(x, y, i as nat, 2 * (i - 1) + (c + 2)),
                bigint::pair(x, i) * y[c] as nat,
            );
        }
    }
}

/// A tail column is the power of a high column of the block before.
proof fn lemma_tail(
    t: Seq<Seq<u128>>,
    k: ModexpCols,
    g: u128,
    b: int,
    i: int,
    side: int,
    c: int,
)
    requires
        witness::accepted(t, k, g),
        k.wf(),
        0 <= b < 32,
        0 <= i < 32,
        0 <= side < 2,
        0 <= c < 64,
    ensures
        ({
            let p = exponents::block_before(b);
            t[32 * b + i][2747 + 64 * side + c] == gf::gf128_pow(
                g,
                bigint::column_sum(left(t, side, p), right(t, side, p), 32, 64 + 2 * i + c),
            )
        }),
    decreases i,
{
    let p = exponents::block_before(b);
    let (x, y) = (left(t, side, p), right(t, side, p));
    if c + 2 >= 64 {
        exponents::lemma_column_past(x, y, 32, 64 + 2 * i + c);
    }
    if i == 0 {
        lemma_row_before(b);
        witness::lemma_running_step(t, k, g, 32 * p + 31, side, c);
        if c + 2 < 64 {
            lemma_running(t, k, g, p, 31, side, c + 2);
        }
    } else {
        let row = 32 * b + (i - 1);
        assert(row % 32 == i - 1 && reading::row_after(row) == 32 * b + i);
        witness::lemma_running_step(t, k, g, row, side, c);
        if c + 2 < 64 {
            lemma_tail(t, k, g, b, i - 1, side, c + 2);
        }
    }
}

// ---------------------------------------------------------------
// Carries and digits
// ---------------------------------------------------------------

/// The block after block `b`; the first after the last.
spec fn block_after(b: int) -> int {
    if b == 31 {
        0
    } else {
        b + 1
    }
}

/// The carry into column `n` of a side of block `b`: the upper half stands in
/// the block after.
spec fn carry(t: Seq<Seq<u128>>, side: int, b: int, n: int) -> nat {
    if n <= 0 {
        0
    } else if n <= 64 {
        witness::carry_in(t[32 * b + (n - 1) / 2], witness::word_of(side, (n - 1) % 2))
    } else {
        witness::carry_in(
            t[32 * block_after(b) + (n - 65) / 2],
            witness::word_of(side, 2 + (n - 65) % 2),
        )
    }
}

/// Digit `n` of the product of block `b`.
spec fn digit(t: Seq<Seq<u128>>, b: int, n: int) -> u128 {
    if n < 64 {
        t[32 * b + n / 2][392 + n % 2]
    } else {
        t[32 * block_after(b) + (n - 64) / 2][394 + n % 2]
    }
}

/// The carry into the columns that a row finishes of its own block.
proof fn lemma_head_carry(t: Seq<Seq<u128>>, k: ModexpCols, g: u128, b: int, i: int, side: int)
    requires
        witness::accepted(t, k, g),
        k.wf(),
        0 <= b < 32,
        0 <= i < 32,
        0 <= side < 2,
    ensures
        t[32 * b + i][2875 + side] == gf::gf128_pow(g, carry(t, side, b, 2 * i)),
        carry(t, side, b, 2 * i) < pow2(70),
{
    lemma_pow2_pos(70);
    if i == 0 {
        lemma_row_before(b);
        witness::lemma_links(t, k, g, 32 * exponents::block_before(b) + 31, side);
    } else {
        let row = 32 * b + (i - 1);
        assert(row % 32 == i - 1 && reading::row_after(row) == 32 * b + i);
        witness::lemma_links(t, k, g, row, side);
        witness::lemma_carry_power(t, k, g, row, side, 1);
        assert((2 * i - 1) / 2 == i - 1 && (2 * i - 1) % 2 == 1);
    }
}

/// The carry into the columns that a row finishes of the block before.
proof fn lemma_tail_carry(t: Seq<Seq<u128>>, k: ModexpCols, g: u128, b: int, i: int, side: int)
    requires
        witness::accepted(t, k, g),
        k.wf(),
        0 <= b < 32,
        0 <= i < 32,
        0 <= side < 2,
    ensures
        t[32 * block_after(b) + i][2877 + side] == gf::gf128_pow(
            g,
            carry(t, side, b, 64 + 2 * i),
        ),
        carry(t, side, b, 64 + 2 * i) < pow2(70),
{
    let z = block_after(b);
    assert(exponents::block_before(z) == b);
    if i == 0 {
        lemma_row_before(z);
        witness::lemma_links(t, k, g, 32 * b + 31, side);
        witness::lemma_carry_power(t, k, g, 32 * b + 31, side, 1);
        assert(63int / 2 == 31 && 63int % 2 == 1);
    } else {
        let row = 32 * z + (i - 1);
        assert(row % 32 == i - 1 && reading::row_after(row) == 32 * z + i);
        witness::lemma_links(t, k, g, row, side);
        witness::lemma_carry_power(t, k, g, row, side, 3);
        assert((2 * i - 1) / 2 == i - 1 && (2 * i - 1) % 2 == 1);
    }
}

/// Nothing is carried out of the last column.
proof fn lemma_last_carry(t: Seq<Seq<u128>>, k: ModexpCols, g: u128, b: int, side: int)
    requires
        witness::accepted(t, k, g),
        k.wf(),
        generator::primitive(g),
        0 <= b < 32,
        0 <= side < 2,
    ensures
        carry(t, side, b, 128) == 0,
{
    let row = 32 * block_after(b) + 31;
    assert(row % 32 == 31);
    witness::lemma_links(t, k, g, row, side);
    witness::lemma_carry_power(t, k, g, row, side, 3);
    assert(63int / 2 == 31 && 63int % 2 == 1);
    let x = carry(t, side, b, 128);
    lemma_pow2_adds(64, 6);
    lemma2_to64();
    int_laws::lemma_xor(gf::gf128_pow(g, x), gf::gf128_pow(g, 0));
    generator::lemma_same_exponent(g, x, 0);
}

/// Column `n` of a side, with the carry into it, is its digit and the carry
/// out of it.
spec fn splits(t: Seq<Seq<u128>>, b: int, side: int, n: int) -> bool {
    &&& bigint::column_sum(left(t, side, b), right(t, side, b), 32, n) + bigint::digit_or_zero(
        added(t, side, b),
        n,
    ) + carry(t, side, b, n) == digit(t, b, n) as nat + carry(t, side, b, n + 1) * 0x1_0000_0000
    &&& digit(t, b, n) <= u32::MAX
}

/// The limbs that a row adds on the second side.
proof fn lemma_added(t: Seq<Seq<u128>>, k: ModexpCols, g: u128, b: int, i: int, side: int)
    requires
        witness::accepted(t, k, g),
        k.wf(),
        0 <= b < 32,
        0 <= i < 32,
        0 <= side < 2,
    ensures
        bigint::digit_or_zero(added(t, side, b), 2 * i) == (if side == 0 {
            0
        } else {
            t[32 * b + i][386] as nat
        }),
        bigint::digit_or_zero(added(t, side, b), 2 * i + 1) == (if side == 0 {
            0
        } else {
            t[32 * b + i][387] as nat
        }),
{
    let row = 32 * b + i;
    assert(row % 32 == i);
    witness::lemma_accepted(t, k, g, 32 * b);
    witness::lemma_selected(t, k, g, row);
    witness::lemma_array_block(t, k, g, b, i, 2 * i);
    witness::lemma_array_block(t, k, g, b, i, 2 * i + 1);
    assert(witness::cell_fits(258 + 2 * i, t[32 * b][258 + 2 * i]));
    assert(witness::cell_fits(258 + (2 * i + 1), t[32 * b][258 + (2 * i + 1)]));
    if side == 1 {
        assert(added(t, side, b)[2 * i] == t[32 * b][258 + 2 * i] as u32);
        assert(added(t, side, b)[2 * i + 1] == t[32 * b][258 + (2 * i + 1)] as u32);
    }
}

/// The columns that a row finishes of its own block.
proof fn lemma_low_columns(t: Seq<Seq<u128>>, k: ModexpCols, g: u128, b: int, side: int, i: int)
    requires
        witness::accepted(t, k, g),
        k.wf(),
        generator::primitive(g),
        0 <= b < 32,
        0 <= side < 2,
        0 <= i < 32,
    ensures
        splits(t, b, side, 2 * i),
        splits(t, b, side, 2 * i + 1),
{
    lemma2_to64();
    let (x, y) = (left(t, side, b), right(t, side, b));
    let row = 32 * b + i;
    let (u0, u1) = (
        bigint::column_sum(x, y, (i + 1) as nat, 2 * i),
        bigint::column_sum(x, y, (i + 1) as nat, 2 * i + 1),
    );
    exponents::lemma_column_settled(x, y, (i + 1) as nat, 32, 2 * i);
    exponents::lemma_column_settled(x, y, (i + 1) as nat, 32, 2 * i + 1);
    modmul::law_column_sums_below_2_101(x, y, 2 * i);
    modmul::law_column_sums_below_2_101(x, y, 2 * i + 1);
    lemma_running(t, k, g, b, i, side, 0);
    lemma_running(t, k, g, b, i, side, 1);
    lemma_head_carry(t, k, g, b, i, side);
    witness::lemma_head_split(t, k, g, row, side, u0, u1, carry(t, side, b, 2 * i));
    witness::lemma_accepted(t, k, g, row);
    assert(witness::cell_fits(392, t[row][392]) && witness::cell_fits(393, t[row][393]));
    lemma_added(t, k, g, b, i, side);
    assert((2 * i) / 2 == i && (2 * i) % 2 == 0 && (2 * i + 1) / 2 == i && (2 * i + 1) % 2 == 1);
    assert(carry(t, side, b, 2 * i + 1) == witness::carry_in(t[row], witness::word_of(side, 0)));
    assert(carry(t, side, b, 2 * i + 2) == witness::carry_in(t[row], witness::word_of(side, 1)));
    assert(digit(t, b, 2 * i) == t[row][392] && digit(t, b, 2 * i + 1) == t[row][393]);
}

/// The columns of a block that a row of the block after finishes.
proof fn lemma_high_columns(t: Seq<Seq<u128>>, k: ModexpCols, g: u128, b: int, side: int, i: int)
    requires
        witness::accepted(t, k, g),
        k.wf(),
        generator::primitive(g),
        0 <= b < 32,
        0 <= side < 2,
        0 <= i < 32,
    ensures
        splits(t, b, side, 64 + 2 * i),
        splits(t, b, side, 64 + 2 * i + 1),
{
    lemma2_to64();
    let (x, y) = (left(t, side, b), right(t, side, b));
    let z = block_after(b);
    let row = 32 * z + i;
    assert(exponents::block_before(z) == b);
    let (u0, u1) = (
        bigint::column_sum(x, y, 32, 64 + 2 * i),
        bigint::column_sum(x, y, 32, 64 + 2 * i + 1),
    );
    modmul::law_column_sums_below_2_101(x, y, 64 + 2 * i);
    modmul::law_column_sums_below_2_101(x, y, 64 + 2 * i + 1);
    lemma_tail(t, k, g, z, i, side, 0);
    lemma_tail(t, k, g, z, i, side, 1);
    lemma_tail_carry(t, k, g, b, i, side);
    witness::lemma_tail_split(t, k, g, row, side, u0, u1, carry(t, side, b, 64 + 2 * i));
    witness::lemma_accepted(t, k, g, row);
    assert(witness::cell_fits(394, t[row][394]) && witness::cell_fits(395, t[row][395]));
    assert((2 * i) / 2 == i && (2 * i) % 2 == 0 && (2 * i + 1) / 2 == i && (2 * i + 1) % 2 == 1);
    assert((64 + 2 * i) % 2 == 0 && (64 + 2 * i + 1) % 2 == 1);
    assert(carry(t, side, b, 64 + 2 * i + 1) == witness::carry_in(
        t[row],
        witness::word_of(side, 2),
    ));
    assert(carry(t, side, b, 64 + 2 * i + 2) == witness::carry_in(
        t[row],
        witness::word_of(side, 3),
    ));
    assert(digit(t, b, 64 + 2 * i) == t[row][394] && digit(t, b, 64 + 2 * i + 1) == t[row][395]);
}

proof fn lemma_column(t: Seq<Seq<u128>>, k: ModexpCols, g: u128, b: int, side: int, n: int)
    requires
        witness::accepted(t, k, g),
        k.wf(),
        generator::primitive(g),
        0 <= b < 32,
        0 <= side < 2,
        0 <= n < 128,
    ensures
        splits(t, b, side, n),
{
    if n < 64 {
        lemma_low_columns(t, k, g, b, side, n / 2);
    } else {
        lemma_high_columns(t, k, g, b, side, (n - 64) / 2);
    }
}

// ---------------------------------------------------------------
// Blocks
// ---------------------------------------------------------------

/// The carries are those of normalising the columns.
proof fn lemma_carry_forced(t: Seq<Seq<u128>>, k: ModexpCols, g: u128, b: int, side: int, n: int)
    requires
        witness::accepted(t, k, g),
        k.wf(),
        generator::primitive(g),
        0 <= b < 32,
        0 <= side < 2,
        0 <= n <= 128,
    ensures
        ({
            let sums = modmul::product_columns(left(t, side, b), right(t, side, b));
            let add = added(t, side, b);
            &&& carry(t, side, b, n) == bigint::carry_into(sums, add, n as nat)
            &&& n < 128 ==> digit(t, b, n) as nat == bigint::column_total(sums, add, n as nat)
                % limbs::radix()
        }),
    decreases n,
{
    let (x, y) = (left(t, side, b), right(t, side, b));
    let add = added(t, side, b);
    let sums = modmul::product_columns(x, y);
    exponents::lemma_product_columns(x, y);
    if n > 0 {
        lemma_carry_forced(t, k, g, b, side, n - 1);
        lemma_column(t, k, g, b, side, n - 1);
        assert(sums[n - 1] as nat == bigint::column_sum(x, y, 32, n - 1));
        let total = bigint::column_total(sums, add, (n - 1) as nat);
        lemma_fundamental_div_mod_converse(
            total as int,
            0x1_0000_0000,
            carry(t, side, b, n) as int,
            digit(t, b, n - 1) as int,
        );
    }
    if n < 128 {
        lemma_column(t, k, g, b, side, n);
        assert(sums[n] as nat == bigint::column_sum(x, y, 32, n));
        let total = bigint::column_total(sums, add, n as nat);
        lemma_fundamental_div_mod_converse(
            total as int,
            0x1_0000_0000,
            carry(t, side, b, n + 1) as int,
            digit(t, b, n) as int,
        );
    }
}

/// The digits of a block write both of its sides.
proof fn lemma_side_value(t: Seq<Seq<u128>>, k: ModexpCols, g: u128, b: int, side: int)
    requires
        witness::accepted(t, k, g),
        k.wf(),
        generator::primitive(g),
        0 <= b < 32,
        0 <= side < 2,
    ensures
        limbs::limbs_value(Seq::new(128, |n: int| digit(t, b, n) as u32)) == limbs::limbs_value(
            left(t, side, b),
        ) * limbs::limbs_value(right(t, side, b)) + limbs::limbs_value(added(t, side, b)),
{
    let (x, y) = (left(t, side, b), right(t, side, b));
    let add = added(t, side, b);
    let sums = modmul::product_columns(x, y);
    let digits = Seq::new(128, |n: int| digit(t, b, n) as u32);
    exponents::lemma_product_columns(x, y);
    modmul::lemma_columns_of_product(x, y, sums);
    assert forall|n: int| 0 <= n < sums.len() implies (#[trigger] digits[n]) as nat
        == bigint::column_total(sums, add, n as nat) % limbs::radix() by {
        lemma_carry_forced(t, k, g, b, side, n);
        lemma_column(t, k, g, b, side, n);
    }
    bigint::law_normalise_keeps_value(sums, add, digits);
    lemma_carry_forced(t, k, g, b, side, 128);
    lemma_last_carry(t, k, g, b, side);
    lemma_mul_basics(limbs::radix_pow(128) as int);
}

/// Every block satisfies `x · y = q · N + r`.
proof fn lemma_block_product(t: Seq<Seq<u128>>, k: ModexpCols, g: u128, b: int)
    requires
        witness::accepted(t, k, g),
        k.wf(),
        generator::primitive(g),
        0 <= b < 32,
    ensures
        limbs::limbs_value(number(t, 32 * b, 66)) * limbs::limbs_value(number(t, 32 * b, 130))
            == limbs::limbs_value(quotient(t, b)) * limbs::limbs_value(number(t, 0, 194))
            + limbs::limbs_value(number(t, 32 * b, 258)),
{
    lemma_side_value(t, k, g, b, 0);
    lemma_side_value(t, k, g, b, 1);
    assert(limbs::limbs_value(Seq::<u32>::empty()) == 0);
}

/// The carry into limb `n` of `r + w + 1`.
spec fn sum_carry(t: Seq<Seq<u128>>, b: int, n: int) -> nat {
    if n >= 64 {
        0
    } else if n % 2 == 0 {
        t[32 * b + n / 2][406] as nat
    } else {
        t[32 * b + n / 2][407] as nat
    }
}

/// Limb `n` of `r + w + 1` is limb `n` of the modulus and a carry.
proof fn lemma_sum_limb(t: Seq<Seq<u128>>, k: ModexpCols, g: u128, b: int, n: int)
    requires
        witness::accepted(t, k, g),
        k.wf(),
        generator::primitive(g),
        0 <= b < 32,
        0 <= n < 64,
    ensures
        number(t, 32 * b, 258)[n] + number(t, 32 * b, 322)[n] + sum_carry(t, b, n) == number(
            t,
            0,
            194,
        )[n] + sum_carry(t, b, n + 1) * 0x1_0000_0000,
{
    let i = n / 2;
    let row = 32 * b + i;
    assert(row % 32 == i);
    witness::lemma_accepted(t, k, g, row);
    witness::lemma_accepted(t, k, g, 32 * b);
    witness::lemma_accepted(t, k, g, 0);
    witness::lemma_sums(t, k, g, row);
    witness::lemma_selected(t, k, g, row);
    witness::lemma_array_block(t, k, g, b, i, n);
    witness::lemma_array_fixed(t, k, g, row, n);
    assert(witness::cell_fits(258 + n, t[32 * b][258 + n]));
    assert(witness::cell_fits(322 + n, t[32 * b][322 + n]));
    assert(witness::cell_fits(194 + n, t[0][194 + n]));
    if n % 2 == 0 {
        assert(n == 2 * i && (n + 1) / 2 == i && (n + 1) % 2 == 1);
    } else {
        assert(n == 2 * i + 1 && (n + 1) / 2 == i + 1 && (n + 1) % 2 == 0);
        if i < 31 {
            assert(reading::row_after(row) == 32 * b + (i + 1));
        }
    }
}

/// The first `n` limbs of `r + w + 1` write those of the modulus and a carry.
proof fn lemma_sum_prefix(t: Seq<Seq<u128>>, k: ModexpCols, g: u128, b: int, n: int)
    requires
        witness::accepted(t, k, g),
        k.wf(),
        generator::primitive(g),
        0 <= b < 32,
        0 <= n <= 64,
    ensures
        limbs::limbs_value(number(t, 32 * b, 258).take(n)) + limbs::limbs_value(
            number(t, 32 * b, 322).take(n),
        ) + 1 == limbs::limbs_value(number(t, 0, 194).take(n)) + sum_carry(t, b, n)
            * limbs::radix_pow(n as nat),
    decreases n,
{
    let (r, w, m) = (number(t, 32 * b, 258), number(t, 32 * b, 322), number(t, 0, 194));
    limbs::lemma_radix_pow(0);
    if n == 0 {
        lemma_row_before(b);
        witness::lemma_sums(t, k, g, 32 * exponents::block_before(b) + 31);
        assert(sum_carry(t, b, 0) == 1);
        assert(r.take(0) =~= Seq::<u32>::empty());
        assert(w.take(0) =~= Seq::<u32>::empty());
        assert(m.take(0) =~= Seq::<u32>::empty());
    } else {
        let c = (n - 1) as nat;
        lemma_sum_prefix(t, k, g, b, n - 1);
        lemma_sum_limb(t, k, g, b, n - 1);
        assert(r.take(n) =~= r.take(n - 1).push(r[n - 1]));
        assert(w.take(n) =~= w.take(n - 1).push(w[n - 1]));
        assert(m.take(n) =~= m.take(n - 1).push(m[n - 1]));
        limbs::lemma_limbs_push(r.take(n - 1), r[n - 1]);
        limbs::lemma_limbs_push(w.take(n - 1), w[n - 1]);
        limbs::lemma_limbs_push(m.take(n - 1), m[n - 1]);
        limbs::lemma_radix_pow(c);
        let p = limbs::radix_pow(c) as int;
        let (r0, w0, m0) = (r[n - 1] as int, w[n - 1] as int, m[n - 1] as int);
        let (c0, c1) = (sum_carry(t, b, n - 1) as int, sum_carry(t, b, n) as int);
        assert(r0 * p + w0 * p + c0 * p == m0 * p + c1 * (0x1_0000_0000 * p)) by (nonlinear_arith)
            requires
                r0 + w0 + c0 == m0 + c1 * 0x1_0000_0000,
        ;
    }
}

/// Every block leaves the product of its factors, reduced.
proof fn lemma_block_reduces(t: Seq<Seq<u128>>, k: ModexpCols, g: u128, b: int)
    requires
        witness::accepted(t, k, g),
        k.wf(),
        generator::primitive(g),
        0 <= b < 32,
    ensures
        ({
            let m = limbs::limbs_value(number(t, 0, 194)) as int;
            let (x, y) = (
                limbs::limbs_value(number(t, 32 * b, 66)) as int,
                limbs::limbs_value(number(t, 32 * b, 130)) as int,
            );
            &&& m > 0
            &&& limbs::limbs_value(number(t, 32 * b, 258)) == (x * y) % m
        }),
{
    lemma_block_product(t, k, g, b);
    lemma_sum_prefix(t, k, g, b, 64);
    let (r, w, m) = (number(t, 32 * b, 258), number(t, 32 * b, 322), number(t, 0, 194));
    assert(r.take(64) =~= r && w.take(64) =~= w && m.take(64) =~= m);
    lemma_mul_basics(limbs::radix_pow(64) as int);
    let (x, y, q) = (
        limbs::limbs_value(number(t, 32 * b, 66)) as int,
        limbs::limbs_value(number(t, 32 * b, 130)) as int,
        limbs::limbs_value(quotient(t, b)) as int,
    );
    lemma_fundamental_div_mod_converse(
        x * y,
        limbs::limbs_value(m) as int,
        q,
        limbs::limbs_value(r) as int,
    );
}

/// The factors of a block come from the block before.
proof fn lemma_factors(t: Seq<Seq<u128>>, k: ModexpCols, g: u128, b: int)
    requires
        witness::accepted(t, k, g),
        k.wf(),
        0 <= b < 32,
    ensures
        number(t, 32 * b, 66) == (if b == 0 {
            number(t, 0, 2)
        } else {
            number(t, 32 * (b - 1), 258)
        }),
        number(t, 32 * b, 130) == (if b == 16 {
            number(t, 0, 2)
        } else {
            number(t, 32 * b, 66)
        }),
{
    let (x, y, s) = (number(t, 32 * b, 66), number(t, 32 * b, 130), number(t, 0, 2));
    if b == 0 {
        assert forall|j: int| 0 <= j < 64 implies (#[trigger] x[j]) == s[j] && y[j] == x[j] by {
            witness::lemma_array_step(t, k, g, 0, j);
        }
        assert(x =~= s && y =~= x);
    } else {
        let row = 32 * (b - 1) + 31;
        assert(row % 32 == 31 && row / 32 == b - 1 && reading::row_after(row) == 32 * b);
        let r = number(t, 32 * (b - 1), 258);
        assert forall|j: int| 0 <= j < 64 implies (#[trigger] x[j]) == r[j] && y[j] == (if b == 16 {
            s[j]
        } else {
            x[j]
        }) by {
            witness::lemma_array_step(t, k, g, row, j);
            witness::lemma_array_block(t, k, g, b - 1, 31, j);
            witness::lemma_array_fixed(t, k, g, row, j);
        }
        assert(x =~= r);
        if b == 16 {
            assert forall|j: int| 0 <= j < 64 implies (#[trigger] y[j]) == s[j] by {
                let _ = x[j];
            }
            assert(y =~= s);
        } else {
            assert(y =~= x);
        }
    }
}

/// Every block leaves a power of the base, reduced.
proof fn lemma_block_power(t: Seq<Seq<u128>>, k: ModexpCols, g: u128, b: int)
    requires
        witness::accepted(t, k, g),
        k.wf(),
        generator::primitive(g),
        0 <= b < 32,
    ensures
        limbs::limbs_value(number(t, 32 * b, 258)) == pow(
            limbs::limbs_value(number(t, 0, 2)) as int,
            Modexp::block_exponent(b),
        ) % (limbs::limbs_value(number(t, 0, 194)) as int),
    decreases b,
{
    let s = limbs::limbs_value(number(t, 0, 2)) as int;
    let m = limbs::limbs_value(number(t, 0, 194)) as int;
    lemma_block_reduces(t, k, g, b);
    lemma_factors(t, k, g, b);
    lemma_pow1(s);
    if b == 0 {
        lemma_pow_adds(s, 1, 1);
    } else {
        lemma_block_power(t, k, g, b - 1);
        let e = Modexp::block_exponent(b - 1);
        if b == 16 {
            lemma_mul_mod_noop_left(pow(s, e), s, m);
            lemma_pow_adds(s, e, 1);
        } else {
            lemma_mul_mod_noop(pow(s, e), pow(s, e), m);
            lemma_pow_adds(s, e, e);
        }
    }
}

/// The exponent of the block of the result.
proof fn lemma_final_exponent(b: int)
    requires
        0 <= b <= 16,
    ensures
        Modexp::block_exponent(b) == (if b < 16 {
            pow2((b + 1) as nat)
        } else {
            65537
        }),
    decreases b,
{
    lemma2_to64();
    if b > 0 {
        lemma_final_exponent(b - 1);
        lemma_pow2_adds(1, b as nat);
    }
}

/// What any accepted table writes.
proof fn lemma_table_sound(t: Seq<Seq<u128>>, k: ModexpCols, g: u128)
    requires
        witness::accepted(t, k, g),
        k.wf(),
        generator::primitive(g),
    ensures
        limbs::limbs_value(number(t, 543, 194)) > 0,
        limbs::limbs_value(number(t, 543, 258)) == pow(
            limbs::limbs_value(number(t, 543, 2)) as int,
            65537,
        ) % (limbs::limbs_value(number(t, 543, 194)) as int),
{
    assert forall|j: int| 0 <= j < 64 implies (#[trigger] number(t, 543, 2)[j]) == number(t, 0, 2)[j] by {
        witness::lemma_array_fixed(t, k, g, 543, j);
    }
    assert(number(t, 543, 2) =~= number(t, 0, 2));
    assert forall|j: int| 0 <= j < 64 implies (#[trigger] number(t, 543, 194)[j]) == number(
        t,
        0,
        194,
    )[j] by {
        witness::lemma_array_fixed(t, k, g, 543, j);
    }
    assert(number(t, 543, 194) =~= number(t, 0, 194));
    lemma_block_reduces(t, k, g, 16);
    lemma_block_power(t, k, g, 16);
    lemma_final_exponent(16);
    assert forall|j: int| 0 <= j < 64 implies (#[trigger] number(t, 543, 258)[j]) == number(
        t,
        512,
        258,
    )[j] by {
        witness::lemma_array_block(t, k, g, 16, 31, j);
    }
    assert(number(t, 543, 258) =~= number(t, 512, 258));
}

// ---------------------------------------------------------------
// Programs
// ---------------------------------------------------------------

/// What the constraints of a program see of a row and the next; the first row
/// follows the last.
pub open spec fn seen(p: CircuitProgram, t: Seq<Seq<u128>>, row: int) -> Env {
    Env {
        cur: expander::expanded(p.virtuals(), t[row]),
        next: expander::expanded(p.virtuals(), t[(row + 1) % p.height() as int]),
    }
}

/// Row `row` fits its columns, holds what is fixed, and meets every constraint
/// with the next.
pub open spec fn allows(p: CircuitProgram, t: Seq<Seq<u128>>, row: int) -> bool {
    &&& witness::row_fits(t[row])
    &&& forall|i: int|
        0 <= i < p.fixed_list().len() ==> seen(p, t, row).cur[(#[trigger] p.fixed_list()[i]).col as int]
            == p.fixed_list()[i].shape.at(row, p.height())
    &&& int_laws::all_zero(p.root_values(seen(p, t, row)))
}

/// The program accepts a table.
pub open spec fn accepts(p: CircuitProgram, t: Seq<Seq<u128>>) -> bool {
    &&& t.len() == p.height()
    &&& forall|row: int| 0 <= row < t.len() ==> #[trigger] allows(p, t, row)
}

/// What is fixed stands in the selectors.
proof fn lemma_selectors(p: CircuitProgram, k: ModexpCols, g: u128, t: Seq<Seq<u128>>, row: int)
    requires
        chiplet::is_program(p, k, g),
        allows(p, t, row),
        0 <= row < 1024,
    ensures
        witness::selectors_stand(k, seen(p, t, row), row),
{
    let env = seen(p, t, row);
    let list = p.fixed_list();
    assert(list[0].shape.at(row, 1024) == table::flag(row == 0));
    assert(list[1].shape.at(row, 1024) == table::flag(row % 32 == 31));
    assert(list[2].shape.at(row, 1024) == table::flag(row % 32 == 31 && row / 32 < 31));
    assert(list[3].shape.at(row, 1024) == table::flag(row == 511));
    assert forall|i: int| 0 <= i < 32 implies air::here(env, #[trigger] air::nth(k.onehot, i))
        == table::flag(row % 32 == i) by {
        assert(chiplet::fixes(list[5 + i], air::nth(k.onehot, i), |r: int| r % 32 == i));
        assert(list[5 + i].shape.at(row, 1024) == table::flag(row % 32 == i));
    }
}

/// What the chiplet's program accepts is sound: whatever values the cells of
/// an accepted table were given, the row that it puts on the bus holds a
/// positive modulus `N`, a base `s`, and `s^65537 mod N`. The generator is the
/// one that the search finds.
pub proof fn law_program_sound(p: CircuitProgram, k: ModexpCols, g: u128, t: Seq<Seq<u128>>)
    requires
        chiplet::is_program(p, k, g),
        exp_form::is_first_passing(g),
        accepts(p, t),
    ensures
        limbs::limbs_value(number(t, 543, 194)) > 0,
        limbs::limbs_value(number(t, 543, 258)) == pow(
            limbs::limbs_value(number(t, 543, 2)) as int,
            65537,
        ) % (limbs::limbs_value(number(t, 543, 194)) as int),
{
    generator::law_search_finds_generator(g);
    assert forall|row: int| 0 <= row < 1024 implies #[trigger] witness::row_accepted(
        t,
        k,
        g,
        row,
    ) by {
        assert(allows(p, t, row));
        lemma_selectors(p, k, g, t, row);
        reveal(witness::sight);
        assert(reading::row_after(row) == (row + 1) % 1024);
        assert(witness::rows_at(t, row) == seen(p, t, row));
    }
    reveal(witness::accepted);
    lemma_table_sound(t, k, g);
}

/// The row on the bus alone has the selector of the bus: in an accepted table
/// it is set in the row of the result and nowhere else.
pub proof fn law_one_row_on_the_bus(
    p: CircuitProgram,
    k: ModexpCols,
    g: u128,
    t: Seq<Seq<u128>>,
    row: int,
)
    requires
        chiplet::is_program(p, k, g),
        accepts(p, t),
        0 <= row < 1024,
    ensures
        t[row][412] == table::flag(row == 543),
        p.bus_list()[0].check.selector == Some(k.emit.0),
        seen(p, t, row).cur[k.emit.0 as int] == t[row][412],
{
    assert(allows(p, t, row));
    let list = p.fixed_list();
    assert(list[4].shape.at(row, 1024) == table::flag(row == 543));
    reading::lemma_virtual_at(t[row], 5519);
}

/// What the row on the bus shows: the limbs of the modulus, of the base and of
/// the result, from the columns in which they are committed, and the number of
/// the request.
pub proof fn law_the_key_on_the_bus(
    p: CircuitProgram,
    k: ModexpCols,
    g: u128,
    t: Seq<Seq<u128>>,
    row: int,
    index: nat,
    i: int,
)
    requires
        chiplet::is_program(p, k, g),
        accepts(p, t),
        0 <= row < 1024,
        0 <= i < 64,
    ensures
        ({
            let key = p.bus_list()[0].check.key(seen(p, t, row).cur, index);
            &&& key.len() == 193
            &&& key[i] == t[row][194 + i]
            &&& key[64 + i] == t[row][2 + i]
            &&& key[128 + i] == t[row][258 + i]
            &&& key[192] == t[row][405]
        }),
{
    assert(allows(p, t, row));
    reading::lemma_virtual_at(t[row], 5442 + i);
    reading::lemma_virtual_at(t[row], 128 + i);
    reading::lemma_virtual_at(t[row], 4352 + i);
    reading::lemma_virtual_at(t[row], 5512);
    let sources = p.bus_list()[0].check.sources@;
    assert(sources[i].0 == Source::Column(chiplet::value_column(k, i)));
    assert(sources[64 + i].0 == Source::Column(chiplet::value_column(k, 64 + i)));
    assert(sources[128 + i].0 == Source::Column(chiplet::value_column(k, 128 + i)));
}

/// The program accepts the table of every exponentiation.
pub proof fn law_program_complete(p: CircuitProgram, k: ModexpCols, g: u128, m: Modexp, request: u32)
    requires
        chiplet::is_program(p, k, g),
        m.wf(),
    ensures
        accepts(p, Seq::new(1024, |row: int| table::table_row(m, g, request, row))),
{
    let t = Seq::new(1024, |row: int| table::table_row(m, g, request, row));
    assert forall|row: int| 0 <= row < 1024 implies #[trigger] allows(p, t, row) by {
        let a = table::table_row(m, g, request, row);
        assert(t[row] == a);
        assert(reading::row_after(row) == (row + 1) % 1024);
        assert(t[reading::row_after(row)] == table::table_row(
            m,
            g,
            request,
            reading::row_after(row),
        ));
        reveal(reading::seen);
        assert(seen(p, t, row) == reading::pair_at(m, g, request, row));
        complete::law_table_complete(m, k, g, request, row);
        lemma_row_fits(m, g, request, row);
        lemma_fixed_met(p, k, g, m, request, row);
    }
}

/// The rows of an exponentiation fit their columns.
proof fn lemma_row_fits(m: Modexp, g: u128, request: u32, row: int)
    requires
        m.wf(),
        0 <= row < 1024,
    ensures
        witness::row_fits(table::table_row(m, g, request, row)),
{
    let a = table::table_row(m, g, request, row);
    reading::lemma_row_length(m, g, request, row);
    table::lemma_words_fit(m, request, row);
    assert forall|c: int| 0 <= c < 3447 implies witness::cell_fits(c, #[trigger] a[c]) by {
        if c < 445 {
            reading::lemma_word_cell(m, g, request, row, c);
            assert(table::words_of(m, request, row)[c] <= u64::MAX);
        }
    }
}

/// The rows of an exponentiation hold what is fixed.
proof fn lemma_fixed_met(
    p: CircuitProgram,
    k: ModexpCols,
    g: u128,
    m: Modexp,
    request: u32,
    row: int,
)
    requires
        chiplet::is_program(p, k, g),
        m.wf(),
        0 <= row < 1024,
    ensures
        forall|i: int|
            0 <= i < p.fixed_list().len() ==> expander::expanded(
                p.virtuals(),
                table::table_row(m, g, request, row),
            )[(#[trigger] p.fixed_list()[i]).col as int] == p.fixed_list()[i].shape.at(row, 1024),
{
    let a = table::table_row(m, g, request, row);
    let v = expander::expanded(p.virtuals(), a);
    let list = p.fixed_list();
    reading::lemma_row_length(m, g, request, row);
    reading::lemma_flag_cells(m, g, request, row);
    reading::lemma_virtual_at(a, 5515);
    reading::lemma_virtual_at(a, 5516);
    reading::lemma_virtual_at(a, 5517);
    reading::lemma_virtual_at(a, 5518);
    reading::lemma_virtual_at(a, 5519);
    assert(list[0].shape.at(row, 1024) == table::flag(row == 0));
    assert(list[1].shape.at(row, 1024) == table::flag(row % 32 == 31));
    assert(list[2].shape.at(row, 1024) == table::flag(row % 32 == 31 && row / 32 < 31));
    assert(list[3].shape.at(row, 1024) == table::flag(row == 511));
    assert(list[4].shape.at(row, 1024) == table::flag(row == 543));
    assert forall|i: int| 0 <= i < list.len() implies v[(#[trigger] list[i]).col as int]
        == list[i].shape.at(row, 1024) by {
        if i >= 5 {
            let j = i - 5;
            assert(chiplet::fixes(list[5 + j], air::nth(k.onehot, j), |r: int| r % 32 == j));
            assert(list[5 + j].shape.at(row, 1024) == table::flag(row % 32 == j));
            reading::lemma_onehot_cell(m, g, request, row, j);
            reading::lemma_virtual_at(a, 5520 + j);
        }
    }
}

/// A request is answered: a host row that writes an exponentiation, asking
/// under its own number, puts the same key on the bus, under the same labels,
/// as the result row of the table for that exponentiation and that number.
pub proof fn law_requests_are_answered(
    p: CircuitProgram,
    k: ModexpCols,
    g: u128,
    m: Modexp,
    request: u32,
    block: CpuModexpBlock,
    bus: Bus,
    selector: Col,
    host: Seq<u128>,
    index: nat,
)
    requires
        chiplet::is_program(p, k, g),
        m.wf(),
        block.wf(),
        block.asks(bus, selector),
        forall|i: int|
            0 <= i < 192 ==> host[(#[trigger] block.column_of(i)).0 as int] == cpu::request_limb(
                m,
                i,
            ),
    ensures
        ({
            let t = Seq::new(1024, |row: int| table::table_row(m, g, request, row));
            let answer = p.bus_list()[0].check;
            &&& bus.check.key(host, request as nat) == answer.key(seen(p, t, 543).cur, index)
            &&& bus.check.labels() == answer.labels()
            &&& p.bus_list()[0].id@ == bus.id@
        }),
{
    let t = Seq::new(1024, |row: int| table::table_row(m, g, request, row));
    let answer = p.bus_list()[0].check;
    law_program_complete(p, k, g, m, request);
    let (a, b) = (bus.check.key(host, request as nat), answer.key(seen(p, t, 543).cur, index));
    assert forall|i: int| 0 <= i < 64 implies a[i] == b[i] && #[trigger] a[64 + i] == b[64 + i]
        && a[128 + i] == b[128 + i] by {
        cpu::law_requests_in_order(block, bus, selector, host, request as nat, i);
        law_the_key_on_the_bus(p, k, g, t, 543, index, i);
        complete::law_result_row(m, g, request, 543, i);
        assert(host[block.column_of(i).0 as int] == cpu::request_limb(m, i));
        assert(host[block.column_of(64 + i).0 as int] == cpu::request_limb(m, 64 + i));
        assert(host[block.column_of(128 + i).0 as int] == cpu::request_limb(m, 128 + i));
    }
    cpu::law_requests_in_order(block, bus, selector, host, request as nat, 0);
    law_the_key_on_the_bus(p, k, g, t, 543, index, 0);
    complete::law_result_row(m, g, request, 543, 0);
    assert forall|i: int| 0 <= i < 193 implies a[i] == b[i] by {
        if i < 64 {
            assert(a[64 + i] == b[64 + i]);
        } else if i < 128 {
            assert(a[64 + (i - 64)] == b[64 + (i - 64)]);
        } else if i < 192 {
            assert(a[64 + (i - 128)] == b[64 + (i - 128)]);
            assert(a[128 + (i - 128)] == b[128 + (i - 128)]);
        }
    }
    assert(a =~= b);
    assert(bus.check.labels() =~= answer.labels());
}

} // verus!
