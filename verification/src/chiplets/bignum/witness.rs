//! What the constraints say of the cells of any table that meets them.

use vstd::arithmetic::div_mod::*;
use vstd::arithmetic::mul::*;
use vstd::arithmetic::power2::*;
use vstd::prelude::*;

use super::air;
use super::columns;
use super::columns::ModexpCols;
use super::complete;
use super::reading;
use super::table;
use crate::atoms::exp_form;
use crate::atoms::generator;
use crate::atoms::int_laws;
use crate::bits;
use crate::field::gf;
use crate::program::circuit::Col;
use crate::program::constraint;
use crate::program::constraint::Env;
use crate::program::expander;
use crate::trace::ColumnType;

verus! {

// ---------------------------------------------------------------
// Tables
// ---------------------------------------------------------------

/// A value that a committed column can hold.
pub open spec fn cell_fits(c: int, v: u128) -> bool {
    match columns::column_type(c) {
        ColumnType::Bit => v <= 1,
        ColumnType::B32 => v <= u32::MAX,
        ColumnType::B64 => v <= u64::MAX,
        _ => true,
    }
}

/// A row that the committed columns can hold.
pub open spec fn row_fits(t: Seq<u128>) -> bool {
    &&& t.len() == 3447
    &&& forall|c: int| 0 <= c < 3447 ==> cell_fits(c, #[trigger] t[c])
}

/// What the constraints see of a committed row.
#[verifier::opaque]
pub open spec fn sight(t: Seq<u128>) -> Seq<u128> {
    expander::expanded(columns::virtual_columns(), t)
}

/// A row of a table and the next.
pub open spec fn rows_at(t: Seq<Seq<u128>>, row: int) -> Env {
    Env { cur: sight(t[row]), next: sight(t[reading::row_after(row)]) }
}

/// The fixed columns hold what they are fixed to.
pub open spec fn selectors_stand(k: ModexpCols, env: Env, row: int) -> bool {
    &&& air::here(env, k.first) == table::flag(row == 0)
    &&& air::here(env, k.block_end) == table::flag(row % 32 == 31)
    &&& air::here(env, k.advance) == table::flag(row % 32 == 31 && row / 32 < 31)
    &&& air::here(env, k.into_final) == table::flag(row == 511)
    &&& forall|i: int|
        0 <= i < 32 ==> air::here(env, #[trigger] air::nth(k.onehot, i)) == table::flag(
            row % 32 == i,
        )
}

/// A row within its types, under its fixed columns, that meets every
/// constraint with the next.
pub open spec fn row_accepted(t: Seq<Seq<u128>>, k: ModexpCols, g: u128, row: int) -> bool {
    &&& row_fits(t[row])
    &&& selectors_stand(k, rows_at(t, row), row)
    &&& int_laws::all_zero(air::modexp_roots(k, g, rows_at(t, row)))
}

/// A table of which every row is accepted; the row after the last is the
/// first.
#[verifier::opaque]
pub open spec fn accepted(t: Seq<Seq<u128>>, k: ModexpCols, g: u128) -> bool {
    &&& t.len() == 1024
    &&& forall|row: int| 0 <= row < 1024 ==> #[trigger] row_accepted(t, k, g, row)
}

pub proof fn lemma_accepted(t: Seq<Seq<u128>>, k: ModexpCols, g: u128, row: int)
    requires
        accepted(t, k, g),
        0 <= row < 1024,
    ensures
        row_fits(t[row]),
        selectors_stand(k, rows_at(t, row), row),
        t[row].len() == 3447,
        row_fits(t[reading::row_after(row)]),
        t[reading::row_after(row)].len() == 3447,
        0 <= reading::row_after(row) < 1024,
{
    reveal(accepted);
    assert(row_accepted(t, k, g, row));
    assert(row_accepted(t, k, g, reading::row_after(row)));
}

/// The constraints of a row that is accepted.
pub proof fn lemma_met(t: Seq<Seq<u128>>, k: ModexpCols, g: u128, row: int)
    requires
        accepted(t, k, g),
        0 <= row < 1024,
    ensures
        int_laws::all_zero(air::modexp_roots(k, g, rows_at(t, row))),
{
    reveal(accepted);
    assert(row_accepted(t, k, g, row));
}

// ---------------------------------------------------------------
// What is seen
// ---------------------------------------------------------------

/// A committed column that the constraints see as it is.
pub proof fn lemma_whole(r: Seq<u128>, c: int, col: int)
    requires
        r.len() == 3447,
        (128 <= c < 256 && col == c - 126) || (4352 <= c < 4480 && col == c - 4094) || (5376 <= c
            < 5378 && col == c - 5376) || (5378 <= c < 5506 && col == c - 5248) || (5506 <= c
            < 5512 && col == c - 5120) || (5512 <= c < 8554 && col == c - 5107),
    ensures
        sight(r)[c] == r[col],
{
    reveal(sight);
    reading::lemma_virtual_at(r, c);
}

/// The cells of a range that are seen as they are.
pub proof fn lemma_range(r: Seq<u128>, n: int, len: nat)
    requires
        r.len() == 3447,
        0 <= n,
        n + len <= 3042,
    ensures
        constraint::cells(sight(r), 5512 + n, len) == r.subrange(405 + n, 405 + n + len),
{
    reveal(sight);
    reading::lemma_cells_seen(r, n, len);
}

/// The bits of a committed column.
pub proof fn lemma_bits(r: Seq<u128>, start: int, col: int, width: nat)
    requires
        r.len() == 3447,
        (start == 64 * col && 0 <= col < 2 && width == 64) || (start == 256 + 32 * (col - 130)
            && 130 <= col < 258 && width == 32) || (start == 4480 + 32 * (col - 386) && 386 <= col
            < 396 && width == 32) || (start == 4800 + 64 * (col - 396) && 396 <= col < 405 && width
            == 64),
    ensures
        constraint::cells(sight(r), start, width) == int_laws::bits_of(r[col] as nat, width),
{
    reveal(sight);
    reading::lemma_bits_seen(r, start, col, width);
}

// ---------------------------------------------------------------
// The groups of constraints
// ---------------------------------------------------------------

/// The groups hold one by one.
pub proof fn lemma_groups(k: ModexpCols, g: u128, env: Env)
    requires
        int_laws::all_zero(air::modexp_roots(k, g, env)),
    ensures
        int_laws::all_zero(air::flag_roots(k, env)),
        int_laws::all_zero(air::array_roots(k, env, 64)),
        int_laws::all_zero(air::select_roots(k, env)),
        int_laws::all_zero(air::side_roots(k, g, env, 0)),
        int_laws::all_zero(air::side_roots(k, g, env, 1)),
        int_laws::all_zero(air::digit_roots(k, g, env, 4)),
        int_laws::all_zero(air::sel_roots(k, g, env, 6)),
        int_laws::all_zero(air::sum_roots(k, g, env)),
{
    let (a, b, c, d) = (
        air::flag_roots(k, env),
        air::array_roots(k, env, 64),
        air::select_roots(k, env),
        air::side_roots(k, g, env, 0),
    );
    let (e, f, h, i) = (
        air::side_roots(k, g, env, 1),
        air::digit_roots(k, g, env, 4),
        air::sel_roots(k, g, env, 6),
        air::sum_roots(k, g, env),
    );
    int_laws::lemma_all_zero_append(a, b);
    int_laws::lemma_all_zero_append(a + b, c);
    int_laws::lemma_all_zero_append(a + b + c, d);
    int_laws::lemma_all_zero_append(a + b + c + d, e);
    int_laws::lemma_all_zero_append(a + b + c + d + e, f);
    int_laws::lemma_all_zero_append(a + b + c + d + e + f, h);
    int_laws::lemma_all_zero_append(a + b + c + d + e + f + h, i);
}

/// The column in which a carry of a side ends.
pub open spec fn word_end(k: ModexpCols, side: int, n: int) -> Col {
    if n == 0 {
        k.cm@[side]
    } else if n == 1 {
        k.co@[side]
    } else if n == 2 {
        k.ctm@[side]
    } else {
        k.cto@[side]
    }
}

/// Carry `n` of a side, among the eight of a row.
pub open spec fn word_of(side: int, n: int) -> int {
    if n < 2 {
        2 * side + n
    } else {
        4 + 2 * side + (n - 2)
    }
}

/// The groups of one side hold one by one.
pub proof fn lemma_side_groups(k: ModexpCols, g: u128, env: Env, side: int)
    requires
        int_laws::all_zero(air::side_roots(k, g, env, side)),
    ensures
        int_laws::all_zero(air::limb_roots(k, g, env, side)),
        int_laws::all_zero(air::product_roots(k, env, side, 64)),
        int_laws::all_zero(air::running_roots(k, env, side, 64)),
        int_laws::all_zero(air::link_roots(k, env, side)),
        forall|n: int|
            0 <= n < 4 ==> int_laws::all_zero(
                #[trigger] air::word_roots(k, g, env, word_of(side, n), word_end(k, side, n)),
            ),
        int_laws::all_zero(air::split_roots(k, env, side)),
{
    let (a, b, c, d) = (
        air::limb_roots(k, g, env, side),
        air::product_roots(k, env, side, 64),
        air::running_roots(k, env, side, 64),
        air::link_roots(k, env, side),
    );
    let (e, f, h, i) = (
        air::word_roots(k, g, env, 2 * side, k.cm@[side]),
        air::word_roots(k, g, env, 2 * side + 1, k.co@[side]),
        air::word_roots(k, g, env, 4 + 2 * side, k.ctm@[side]),
        air::word_roots(k, g, env, 4 + 2 * side + 1, k.cto@[side]),
    );
    let j = air::split_roots(k, env, side);
    int_laws::lemma_all_zero_append(a, b);
    int_laws::lemma_all_zero_append(a + b, c);
    int_laws::lemma_all_zero_append(a + b + c, d);
    int_laws::lemma_all_zero_append(a + b + c + d, e);
    int_laws::lemma_all_zero_append(a + b + c + d + e, f);
    int_laws::lemma_all_zero_append(a + b + c + d + e + f, h);
    int_laws::lemma_all_zero_append(a + b + c + d + e + f + h, i);
    int_laws::lemma_all_zero_append(a + b + c + d + e + f + h + i, j);
}

proof fn lemma_array_group(k: ModexpCols, env: Env, n: nat, j: int)
    requires
        int_laws::all_zero(air::array_roots(k, env, n)),
        0 <= j < n,
    ensures
        int_laws::all_zero(air::array_row(k, env, j)),
    decreases n,
{
    int_laws::lemma_all_zero_append(
        air::array_roots(k, env, (n - 1) as nat),
        air::array_row(k, env, n - 1),
    );
    if j < n - 1 {
        lemma_array_group(k, env, (n - 1) as nat, j);
    }
}

proof fn lemma_product_group(k: ModexpCols, env: Env, side: int, n: nat, j: int)
    requires
        int_laws::all_zero(air::product_roots(k, env, side, n)),
        0 <= j < n,
    ensures
        int_laws::all_zero(
            exp_form::chain_roots(
                air::run(env, air::other_bits(k, side, j)),
                air::run(env, air::product_range(k, side, j)),
                air::frobs(k, env, side),
            ),
        ),
    decreases n,
{
    int_laws::lemma_all_zero_append(
        air::product_roots(k, env, side, (n - 1) as nat),
        exp_form::chain_roots(
            air::run(env, air::other_bits(k, side, n - 1)),
            air::run(env, air::product_range(k, side, n - 1)),
            air::frobs(k, env, side),
        ),
    );
    if j < n - 1 {
        lemma_product_group(k, env, side, (n - 1) as nat, j);
    }
}

proof fn lemma_running_group(k: ModexpCols, env: Env, side: int, n: nat, c: int)
    requires
        int_laws::all_zero(air::running_roots(k, env, side, n)),
        0 <= c < n,
    ensures
        int_laws::all_zero(air::running_row(k, env, side, c)),
    decreases n,
{
    int_laws::lemma_all_zero_append(
        air::running_roots(k, env, side, (n - 1) as nat),
        air::running_row(k, env, side, n - 1),
    );
    if c < n - 1 {
        lemma_running_group(k, env, side, (n - 1) as nat, c);
    }
}

proof fn lemma_digit_group(k: ModexpCols, g: u128, env: Env, n: nat, d: int)
    requires
        int_laws::all_zero(air::digit_roots(k, g, env, n)),
        0 <= d < n,
    ensures
        int_laws::all_zero(
            air::short_roots(g, env, columns::range(k.digit_bits.start + 32 * d, 32), k.dg@[d]),
        ),
    decreases n,
{
    int_laws::lemma_all_zero_append(
        air::digit_roots(k, g, env, (n - 1) as nat),
        air::short_roots(
            g,
            env,
            columns::range(k.digit_bits.start + 32 * (n - 1), 32),
            k.dg@[n - 1],
        ),
    );
    if d < n - 1 {
        lemma_digit_group(k, g, env, (n - 1) as nat, d);
    }
}

proof fn lemma_sel_group(k: ModexpCols, g: u128, env: Env, n: nat, w: int)
    requires
        int_laws::all_zero(air::sel_roots(k, g, env, n)),
        0 <= w < n,
    ensures
        int_laws::all_zero(
            air::short_roots(g, env, columns::range(k.sel_bits.start + 32 * w, 32), k.lch@[w]),
        ),
    decreases n,
{
    int_laws::lemma_all_zero_append(
        air::sel_roots(k, g, env, (n - 1) as nat),
        air::short_roots(
            g,
            env,
            columns::range(k.sel_bits.start + 32 * (n - 1), 32),
            k.lch@[n - 1],
        ),
    );
    if w < n - 1 {
        lemma_sel_group(k, g, env, (n - 1) as nat, w);
    }
}

// ---------------------------------------------------------------
// The six numbers
// ---------------------------------------------------------------

/// A gate that is open and closes to zero guards zero.
proof fn lemma_open(gate: u128, a: u128, b: u128)
    requires
        gate == 1,
        gf::gf128_mul(gate, a ^ b) == 0,
    ensures
        a == b,
{
    int_laws::lemma_mul_boolean(gate, a ^ b);
    int_laws::lemma_xor(a, b);
}

/// Limb `j` of the six numbers from row to row.
#[verifier::rlimit(40)]
pub proof fn lemma_array_step(t: Seq<Seq<u128>>, k: ModexpCols, g: u128, row: int, j: int)
    requires
        accepted(t, k, g),
        k.wf(),
        0 <= row < 1024,
        0 <= j < 64,
    ensures
        ({
            let (a, z) = (t[row], t[reading::row_after(row)]);
            &&& z[2 + j] == a[2 + j]
            &&& z[194 + j] == a[194 + j]
            &&& row % 32 < 31 ==> z[66 + j] == a[66 + j] && z[130 + j] == a[130 + j] && z[258 + j]
                == a[258 + j] && z[322 + j] == a[322 + j]
            &&& row % 32 == 31 && row / 32 < 31 ==> z[66 + j] == a[258 + j] && z[130 + j] == (if row
                == 511 {
                a[2 + j]
            } else {
                a[258 + j]
            })
            &&& row == 0 ==> a[66 + j] == a[2 + j] && a[130 + j] == a[2 + j]
        }),
{
    lemma_accepted(t, k, g, row);
    let env = rows_at(t, row);
    let (a, z) = (t[row], t[reading::row_after(row)]);
    assert(int_laws::all_zero(air::array_roots(k, env, 64))) by {
        lemma_met(t, k, g, row);
        lemma_groups(k, g, env);
    }
    lemma_array_group(k, env, 64, j);
    let roots = air::array_row(k, env, j);
    lemma_whole(a, 128 + j, 2 + j);
    lemma_whole(z, 128 + j, 2 + j);
    lemma_whole(a, 192 + j, 66 + j);
    lemma_whole(z, 192 + j, 66 + j);
    lemma_whole(a, 5378 + j, 130 + j);
    lemma_whole(z, 5378 + j, 130 + j);
    lemma_whole(a, 5442 + j, 194 + j);
    lemma_whole(z, 5442 + j, 194 + j);
    lemma_whole(a, 4352 + j, 258 + j);
    lemma_whole(z, 4352 + j, 258 + j);
    lemma_whole(a, 4416 + j, 322 + j);
    lemma_whole(z, 4416 + j, 322 + j);
    let be = air::here(env, k.block_end);
    let stay = 1 ^ be;
    int_laws::lemma_xor(1, be);
    assert(roots[0] == z[2 + j] ^ a[2 + j]);
    assert(roots[1] == z[194 + j] ^ a[194 + j]);
    assert(roots[2] == gf::gf128_mul(stay, z[66 + j] ^ a[66 + j]));
    assert(roots[3] == gf::gf128_mul(stay, z[130 + j] ^ a[130 + j]));
    assert(roots[4] == gf::gf128_mul(stay, z[258 + j] ^ a[258 + j]));
    assert(roots[5] == gf::gf128_mul(stay, z[322 + j] ^ a[322 + j]));
    int_laws::lemma_xor(z[2 + j], a[2 + j]);
    int_laws::lemma_xor(z[194 + j], a[194 + j]);
    if row % 32 < 31 {
        lemma_open(stay, z[66 + j], a[66 + j]);
        lemma_open(stay, z[130 + j], a[130 + j]);
        lemma_open(stay, z[258 + j], a[258 + j]);
        lemma_open(stay, z[322 + j], a[322 + j]);
    } else if row / 32 < 31 {
        let adv = air::here(env, k.advance);
        let fin = air::here(env, k.into_final);
        let swap = gf::gf128_mul(fin, a[258 + j] ^ a[2 + j]);
        assert(roots[6] == gf::gf128_mul(adv, z[66 + j] ^ a[258 + j]));
        assert(roots[7] == gf::gf128_mul(adv, (z[130 + j] ^ a[258 + j]) ^ swap));
        lemma_open(adv, z[66 + j], a[258 + j]);
        lemma_open(adv, z[130 + j] ^ a[258 + j], swap);
        int_laws::lemma_mul_boolean(fin, a[258 + j] ^ a[2 + j]);
        lemma_same_difference(z[130 + j], a[2 + j], a[258 + j]);
        int_laws::lemma_xor(z[130 + j], a[258 + j]);
    }
    if row == 0 {
        let first = air::here(env, k.first);
        assert(roots[8] == gf::gf128_mul(first, a[66 + j] ^ a[2 + j]));
        assert(roots[9] == gf::gf128_mul(first, a[130 + j] ^ a[2 + j]));
        lemma_open(first, a[66 + j], a[2 + j]);
        lemma_open(first, a[130 + j], a[2 + j]);
    }
}

proof fn lemma_same_difference(x: u128, y: u128, z: u128)
    ensures
        x ^ z == z ^ y ==> x == y,
{
    assert(x ^ z == z ^ y ==> x == y) by (bit_vector);
}

/// Within a block the numbers do not change.
pub proof fn lemma_array_block(t: Seq<Seq<u128>>, k: ModexpCols, g: u128, b: int, i: int, j: int)
    requires
        accepted(t, k, g),
        k.wf(),
        0 <= b < 32,
        0 <= i < 32,
        0 <= j < 64,
    ensures
        t[32 * b + i][66 + j] == t[32 * b][66 + j],
        t[32 * b + i][130 + j] == t[32 * b][130 + j],
        t[32 * b + i][258 + j] == t[32 * b][258 + j],
        t[32 * b + i][322 + j] == t[32 * b][322 + j],
    decreases i,
{
    if i > 0 {
        lemma_array_block(t, k, g, b, i - 1, j);
        let row = 32 * b + (i - 1);
        assert(row % 32 == i - 1);
        lemma_array_step(t, k, g, row, j);
    }
}

/// The base and the modulus do not change at all.
pub proof fn lemma_array_fixed(t: Seq<Seq<u128>>, k: ModexpCols, g: u128, row: int, j: int)
    requires
        accepted(t, k, g),
        k.wf(),
        0 <= row < 1024,
        0 <= j < 64,
    ensures
        t[row][2 + j] == t[0][2 + j],
        t[row][194 + j] == t[0][194 + j],
    decreases row,
{
    if row > 0 {
        lemma_array_fixed(t, k, g, row - 1, j);
        lemma_array_step(t, k, g, row - 1, j);
    }
}

// ---------------------------------------------------------------
// Selected limbs
// ---------------------------------------------------------------

/// The limbs that a row selects by its place in the block.
pub proof fn lemma_selected(t: Seq<Seq<u128>>, k: ModexpCols, g: u128, row: int)
    requires
        accepted(t, k, g),
        k.wf(),
        0 <= row < 1024,
    ensures
        ({
            let (a, i) = (t[row], row % 32);
            &&& a[0] == a[66 + 2 * i] + a[66 + (2 * i + 1)] * 0x1_0000_0000
            &&& a[386] == a[258 + 2 * i]
            &&& a[387] == a[258 + (2 * i + 1)]
            &&& a[388] == a[322 + 2 * i]
            &&& a[389] == a[322 + (2 * i + 1)]
            &&& a[390] == a[194 + 2 * i]
            &&& a[391] == a[194 + (2 * i + 1)]
        }),
{
    lemma_accepted(t, k, g, row);
    let env = rows_at(t, row);
    let a = t[row];
    let i = row % 32;
    assert(int_laws::all_zero(air::select_roots(k, env))) by {
        lemma_met(t, k, g, row);
        lemma_groups(k, g, env);
    }
    let roots = air::select_roots(k, env);
    let oh = air::run(env, k.onehot);
    assert forall|j: int| 0 <= j < 32 implies #[trigger] oh[j] == table::flag(j == i) by {
        assert(oh[j] == air::here(env, air::nth(k.onehot, j)));
    }
    let pairs = air::paired(k, env);
    complete::lemma_dot(oh, pairs, i, 32);
    lemma_whole(a, 5376, 0);
    lemma_whole(a, 192 + 2 * i, 66 + 2 * i);
    lemma_whole(a, 192 + (2 * i + 1), 66 + (2 * i + 1));
    assert(cell_fits(66 + 2 * i, a[66 + 2 * i]) && cell_fits(
        66 + (2 * i + 1),
        a[66 + (2 * i + 1)],
    ));
    complete::lemma_packed(a[66 + 2 * i] as u32, a[66 + (2 * i + 1)] as u32);
    assert(roots[0] == a[0] ^ air::dot(oh, pairs, 32));
    int_laws::lemma_xor(a[0], pairs[i]);
    lemma_one_selected(k, env, a, i, oh, 0, 4, 0);
    lemma_one_selected(k, env, a, i, oh, 1, 4, 1);
    lemma_one_selected(k, env, a, i, oh, 2, 5, 0);
    lemma_one_selected(k, env, a, i, oh, 3, 5, 1);
    lemma_one_selected(k, env, a, i, oh, 4, 3, 0);
    lemma_one_selected(k, env, a, i, oh, 5, 3, 1);
}

proof fn lemma_one_selected(
    k: ModexpCols,
    env: Env,
    a: Seq<u128>,
    i: int,
    oh: Seq<u128>,
    w: int,
    which: int,
    parity: int,
)
    requires
        k.wf(),
        a.len() == 3447,
        env.cur == sight(a),
        0 <= i < 32,
        oh == air::run(env, k.onehot),
        oh.len() == 32,
        forall|j: int| 0 <= j < 32 ==> #[trigger] oh[j] == table::flag(j == i),
        (w == 0 && which == 4 && parity == 0) || (w == 1 && which == 4 && parity == 1) || (w == 2
            && which == 5 && parity == 0) || (w == 3 && which == 5 && parity == 1) || (w == 4
            && which == 3 && parity == 0) || (w == 5 && which == 3 && parity == 1),
        int_laws::all_zero(air::select_roots(k, env)),
    ensures
        a[386 + w] == a[(if which == 4 {
            258int
        } else if which == 5 {
            322
        } else {
            194
        }) + (2 * i + parity)],
{
    let e = 2 * i + parity;
    let vals = air::alternate(k, env, which, parity);
    complete::lemma_dot(oh, vals, i, 32);
    lemma_whole(a, 5506 + w, 386 + w);
    if which == 4 {
        lemma_whole(a, 4352 + e, 258 + e);
    } else if which == 5 {
        lemma_whole(a, 4416 + e, 322 + e);
    } else {
        lemma_whole(a, 5442 + e, 194 + e);
    }
    let roots = air::select_roots(k, env);
    assert(roots[w + 1] == 0);
    assert(roots[w + 1] == a[386 + w] ^ air::dot(oh, vals, 32));
    int_laws::lemma_xor(a[386 + w], vals[i]);
}

// ---------------------------------------------------------------
// Powers
// ---------------------------------------------------------------

/// A chain over the bits of a word ends in the word's power.
proof fn lemma_chain_end(g: u128, x: nat, cols: Seq<u128>, ps: Seq<u128>, bs: Seq<u128>, n: nat)
    requires
        n > 0,
        cols.len() == n,
        x < pow2(2 * n),
        bs == int_laws::bits_of(x, 2 * n),
        ps == exp_form::generator_powers(g, 2 * n),
        int_laws::all_zero(exp_form::chain_roots(bs, cols, ps)),
    ensures
        cols[n - 1] == gf::gf128_pow(g, x),
{
    exp_form::law_chain_proves_power(g, x, cols);
    exp_form::law_chain_ends_in_power(g, x, n);
}

/// The power of the limb that a row multiplies, and its squares.
pub proof fn lemma_limb_power(t: Seq<Seq<u128>>, k: ModexpCols, g: u128, row: int, side: int)
    requires
        accepted(t, k, g),
        k.wf(),
        0 <= row < 1024,
        0 <= side < 2,
    ensures
        ({
            let h = gf::gf128_pow(g, t[row][side] as nat);
            air::frobs(k, rows_at(t, row), side) == exp_form::generator_powers(h, 32)
        }),
{
    lemma_accepted(t, k, g, row);
    let env = rows_at(t, row);
    let a = t[row];
    assert(int_laws::all_zero(air::limb_roots(k, g, env, side))) by {
        lemma_met(t, k, g, row);
        lemma_groups(k, g, env);
        lemma_side_groups(k, g, env, side);
    }
    let x = a[side] as nat;
    assert(cell_fits(side, a[side]));
    lemma2_to64();
    lemma2_to64_rest();
    lemma_bits(a, 64 * side, side, 64);
    let xa = air::run(env, k.xa@[side]);
    let yf = air::run(env, k.yf@[side]);
    let h = air::here(env, air::nth(k.xa@[side], 31));
    assert(h == xa[31]);
    int_laws::lemma_all_zero_append(
        exp_form::chain_roots(
            air::run(env, air::limb_bits(k, side)),
            xa,
            exp_form::generator_powers(g, 64),
        ),
        exp_form::squaring_roots(h, yf),
    );
    assert(air::run(env, air::limb_bits(k, side)) == int_laws::bits_of(x, 64));
    lemma_chain_end(
        g,
        x,
        xa,
        exp_form::generator_powers(g, 64),
        air::run(env, air::limb_bits(k, side)),
        32,
    );
    exp_form::lemma_first_power(h);
    exp_form::law_squarings_double(h, 1, yf);
    let (have, want) = (air::frobs(k, env, side), exp_form::generator_powers(h, 32));
    assert forall|s: int| 0 <= s < 32 implies #[trigger] have[s] == want[s] by {
        if s > 0 {
            assert(have[s] == yf[s - 1]);
            assert((s - 1 + 1) as nat == s as nat);
            lemma_mul_basics(pow2(s as nat) as int);
        }
    }
    assert(have =~= want);
}

/// The word of limb `j` of the right factor of a side.
pub open spec fn other_word(side: int, j: int) -> int {
    if side == 0 {
        130 + j
    } else {
        194 + j
    }
}

/// The product of the row's limb with limb `j` of the right factor.
pub proof fn lemma_product_power(
    t: Seq<Seq<u128>>,
    k: ModexpCols,
    g: u128,
    row: int,
    side: int,
    j: int,
)
    requires
        accepted(t, k, g),
        k.wf(),
        0 <= row < 1024,
        0 <= side < 2,
        0 <= j < 64,
    ensures
        t[row][571 + 1024 * side + 16 * j + 15] == gf::gf128_pow(
            g,
            t[row][side] as nat * t[row][other_word(side, j)] as nat,
        ),
{
    lemma_accepted(t, k, g, row);
    let env = rows_at(t, row);
    let a = t[row];
    assert(int_laws::all_zero(air::product_roots(k, env, side, 64))) by {
        lemma_met(t, k, g, row);
        lemma_groups(k, g, env);
        lemma_side_groups(k, g, env, side);
    }
    lemma_product_group(k, env, side, 64, j);
    lemma_limb_power(t, k, g, row, side);
    let h = gf::gf128_pow(g, a[side] as nat);
    let col = other_word(side, j);
    let y = a[col] as nat;
    assert(cell_fits(col, a[col]));
    lemma2_to64();
    lemma_bits(a, 256 + 32 * (col - 130), col, 32);
    let bs = air::run(env, air::other_bits(k, side, j));
    assert(bs == int_laws::bits_of(y, 32));
    let cols = air::run(env, air::product_range(k, side, j));
    lemma_chain_end(h, y, cols, air::frobs(k, env, side), bs, 16);
    let c = 5678 + 1024 * side + 16 * j + 15;
    assert(cols[15] == sight(a)[c]);
    lemma_whole(a, c, 571 + 1024 * side + 16 * j + 15);
    exp_form::law_powers_multiply(g, a[side] as nat, y);
}

/// The digit powers of a row.
pub proof fn lemma_digit_power(t: Seq<Seq<u128>>, k: ModexpCols, g: u128, row: int, d: int)
    requires
        accepted(t, k, g),
        k.wf(),
        0 <= row < 1024,
        0 <= d < 4,
    ensures
        air::digit_at(k, rows_at(t, row), d) == gf::gf128_pow(g, t[row][392 + d] as nat),
{
    lemma_accepted(t, k, g, row);
    let env = rows_at(t, row);
    let a = t[row];
    assert(int_laws::all_zero(air::digit_roots(k, g, env, 4))) by {
        lemma_met(t, k, g, row);
        lemma_groups(k, g, env);
    }
    lemma_digit_group(k, g, env, 4, d);
    let x = a[392 + d] as nat;
    assert(cell_fits(392 + d, a[392 + d]));
    lemma2_to64();
    lemma_bits(a, 4672 + 32 * d, 392 + d, 32);
    let bs = air::run(env, columns::range(k.digit_bits.start + 32 * d, 32));
    assert(bs == int_laws::bits_of(x, 32));
    lemma_chain_end(
        g,
        x,
        air::run(env, k.dg@[d]),
        exp_form::generator_powers(g, 32),
        bs,
        16,
    );
}

/// The powers of the selected limbs of a row.
pub proof fn lemma_sel_power(t: Seq<Seq<u128>>, k: ModexpCols, g: u128, row: int, w: int)
    requires
        accepted(t, k, g),
        k.wf(),
        0 <= row < 1024,
        0 <= w < 6,
    ensures
        air::limb_at(k, rows_at(t, row), w) == gf::gf128_pow(g, t[row][386 + w] as nat),
{
    lemma_accepted(t, k, g, row);
    let env = rows_at(t, row);
    let a = t[row];
    assert(int_laws::all_zero(air::sel_roots(k, g, env, 6))) by {
        lemma_met(t, k, g, row);
        lemma_groups(k, g, env);
    }
    lemma_sel_group(k, g, env, 6, w);
    let x = a[386 + w] as nat;
    assert(cell_fits(386 + w, a[386 + w]));
    lemma2_to64();
    lemma_bits(a, 4480 + 32 * w, 386 + w, 32);
    let bs = air::run(env, columns::range(k.sel_bits.start + 32 * w, 32));
    assert(bs == int_laws::bits_of(x, 32));
    lemma_chain_end(
        g,
        x,
        air::run(env, k.lch@[w]),
        exp_form::generator_powers(g, 32),
        bs,
        16,
    );
}

/// Carry `word` of a committed row: its low word, and six bits of the word
/// that the eight share.
pub open spec fn carry_in(a: Seq<u128>, word: int) -> nat {
    a[396 + word] as nat + ((a[404] as nat / pow2((6 * word) as nat)) % 64)
        * 0x1_0000_0000_0000_0000
}

/// The bits of a carry.
proof fn lemma_carry_bits(a: Seq<u128>, k: ModexpCols, env: Env, word: int)
    requires
        row_fits(a),
        k.wf(),
        env.cur == sight(a),
        0 <= word < 8,
    ensures
        air::carry_bits(k, env, word) == int_laws::bits_of(carry_in(a, word), 70),
        carry_in(a, word) < pow2(70),
{
    let two64: nat = 0x1_0000_0000_0000_0000;
    let (lo, hi) = (
        a[396 + word] as nat,
        (a[404] as nat / pow2((6 * word) as nat)) % 64,
    );
    let x = carry_in(a, word);
    assert(cell_fits(396 + word, a[396 + word]));
    lemma_bits(a, 4800 + 64 * word, 396 + word, 64);
    lemma_bits(a, 5312, 404, 64);
    lemma2_to64();
    lemma2_to64_rest();
    lemma_pow2_adds(64, 6);
    let (have, want) = (air::carry_bits(k, env, word), int_laws::bits_of(x, 70));
    let low_cells = constraint::cells(env.cur, 4800 + 64 * word, 64);
    let high_cells = constraint::cells(env.cur, 5312, 64);
    assert forall|j: int| 0 <= j < 70 implies #[trigger] have[j] == want[j] by {
        if j < 64 {
            assert(have[j] == low_cells[j]);
            int_laws::lemma_bit_of_sum(lo, hi, j as nat, 64);
        } else {
            let m = (j - 64) as nat;
            assert(have[j] == high_cells[6 * word + m]);
            complete::lemma_bit_above(lo, hi, 64, m);
            lemma_shared_bit(a[404] as nat, (6 * word) as nat, m);
        }
    }
    assert(have =~= want);
}

/// A bit of six bits of a word.
proof fn lemma_shared_bit(v: nat, s: nat, m: nat)
    requires
        m < 6,
    ensures
        bits::bit((v / pow2(s)) % 64, m) == bits::bit(v, s + m),
{
    let q = v / pow2(s);
    lemma_pow2_pos(s);
    lemma_pow2_pos(m);
    lemma_pow2_adds(s, m);
    lemma_div_denominator(v as int, pow2(s) as int, pow2(m) as int);
    assert(v / pow2(s + m) == q / pow2(m));
    lemma_pow2_adds(m, (6 - m) as nat);
    lemma2_to64();
    let (d, e) = (pow2(m) as int, pow2((6 - m) as nat) as int);
    lemma_pow2_pos((6 - m) as nat);
    lemma_mod_breakdown(q as int, d, e);
    let (lo, mid) = (q as int % d, (q as int / d) % e);
    assert(q as int % (d * e) == d * mid + lo);
    lemma_fundamental_div_mod_converse(q as int % 64, d, mid, lo);
    lemma_pow2_adds(1, (5 - m) as nat);
    let f = pow2((5 - m) as nat) as int;
    lemma_pow2_pos((5 - m) as nat);
    lemma_mod_mod(q as int / d, 2, f);
}

/// A carry as a power, and shifted by one digit.
pub proof fn lemma_carry_power(
    t: Seq<Seq<u128>>,
    k: ModexpCols,
    g: u128,
    row: int,
    side: int,
    n: int,
)
    requires
        accepted(t, k, g),
        k.wf(),
        0 <= row < 1024,
        0 <= side < 2,
        0 <= n < 4,
    ensures
        ({
            let env = rows_at(t, row);
            let x = carry_in(t[row], word_of(side, n));
            &&& x < pow2(70)
            &&& air::here(env, word_end(k, side, n)) == gf::gf128_pow(g, x)
            &&& air::shifted_at(k, env, word_of(side, n)) == gf::gf128_pow(g, x * pow2(32))
        }),
{
    lemma_accepted(t, k, g, row);
    let env = rows_at(t, row);
    let a = t[row];
    let word = word_of(side, n);
    let end = word_end(k, side, n);
    assert(int_laws::all_zero(air::word_roots(k, g, env, word, end))) by {
        lemma_met(t, k, g, row);
        lemma_groups(k, g, env);
        lemma_side_groups(k, g, env, side);
    }
    lemma_carry_bits(a, k, env, word);
    let x = carry_in(a, word);
    let h = air::here(env, end);
    let cols = air::run(env, k.ce@[word]).push(h);
    let fr = air::run(env, k.fr@[word]);
    int_laws::lemma_all_zero_append(
        exp_form::chain_roots(
            air::carry_bits(k, env, word),
            cols,
            exp_form::generator_powers(g, 70),
        ),
        exp_form::fourth_roots(h, fr),
    );
    assert(cols.len() == 35);
    lemma_chain_end(
        g,
        x,
        cols,
        exp_form::generator_powers(g, 70),
        air::carry_bits(k, env, word),
        35,
    );
    exp_form::law_fourth_powers_quadruple(g, x, fr);
    assert(fr[15] == gf::gf128_pow(g, x * pow2((2 * 15 + 2) as nat)));
}

// ---------------------------------------------------------------
// From row to row
// ---------------------------------------------------------------

/// The running columns of the next row.
#[verifier::rlimit(30)]
pub proof fn lemma_running_step(
    t: Seq<Seq<u128>>,
    k: ModexpCols,
    g: u128,
    row: int,
    side: int,
    c: int,
)
    requires
        accepted(t, k, g),
        k.wf(),
        0 <= row < 1024,
        0 <= side < 2,
        0 <= c < 64,
    ensures
        ({
            let (a, z) = (t[row], t[reading::row_after(row)]);
            let (u, ut) = (2619 + 64 * side + c, 2747 + 64 * side + c);
            let p = z[571 + 1024 * side + 16 * c + 15];
            &&& z[u] == (if c + 2 < 64 && row % 32 < 31 {
                gf::gf128_mul(a[u + 2], p)
            } else {
                p
            })
            &&& z[ut] == (if c + 2 >= 64 {
                1
            } else if row % 32 == 31 {
                a[u + 2]
            } else {
                a[ut + 2]
            })
        }),
{
    lemma_accepted(t, k, g, row);
    let env = rows_at(t, row);
    let (a, z) = (t[row], t[reading::row_after(row)]);
    assert(int_laws::all_zero(air::running_roots(k, env, side, 64))) by {
        lemma_met(t, k, g, row);
        lemma_groups(k, g, env);
        lemma_side_groups(k, g, env, side);
    }
    lemma_running_group(k, env, side, 64, c);
    let roots = air::running_row(k, env, side, c);
    let be = air::here(env, k.block_end);
    let (u, ut) = (2619 + 64 * side + c, 2747 + 64 * side + c);
    let pc = 571 + 1024 * side + 16 * c + 15;
    lemma_whole(z, 5107 + u, u);
    lemma_whole(z, 5107 + ut, ut);
    lemma_whole(z, 5107 + pc, pc);
    assert(roots[0] == 0 && roots[1] == 0);
    int_laws::lemma_mul_boolean(1, z[pc]);
    if c + 2 < 64 {
        lemma_whole(a, 5107 + u + 2, u + 2);
        lemma_whole(a, 5107 + ut + 2, ut + 2);
        let (au, aut) = (a[u + 2], a[ut + 2]);
        int_laws::lemma_xor(1, be);
        int_laws::lemma_mul_boolean(1 ^ be, au);
        int_laws::lemma_mul_boolean(1 ^ be, aut);
        int_laws::lemma_mul_boolean(be, au);
        let prior_u = gf::gf128_mul(1 ^ be, au) ^ be;
        let prior_ut = gf::gf128_mul(1 ^ be, aut) ^ gf::gf128_mul(be, au);
        int_laws::lemma_xor(gf::gf128_mul(1 ^ be, au), be);
        int_laws::lemma_xor(gf::gf128_mul(1 ^ be, aut), gf::gf128_mul(be, au));
        assert(roots[0] == z[u] ^ gf::gf128_mul(prior_u, z[pc]));
        assert(roots[1] == z[ut] ^ prior_ut);
        int_laws::lemma_xor(z[u], gf::gf128_mul(prior_u, z[pc]));
        int_laws::lemma_xor(z[ut], prior_ut);
    } else {
        assert(roots[0] == z[u] ^ gf::gf128_mul(1, z[pc]));
        assert(roots[1] == z[ut] ^ 1);
        int_laws::lemma_xor(z[u], z[pc]);
        int_laws::lemma_xor(z[ut], 1);
    }
}

/// The carries run from row to row.
pub proof fn lemma_links(t: Seq<Seq<u128>>, k: ModexpCols, g: u128, row: int, side: int)
    requires
        accepted(t, k, g),
        k.wf(),
        0 <= row < 1024,
        0 <= side < 2,
    ensures
        ({
            let env = rows_at(t, row);
            let z = t[reading::row_after(row)];
            let (co, cto) = (air::here(env, k.co@[side]), air::here(env, k.cto@[side]));
            &&& row % 32 < 31 ==> z[2875 + side] == co && z[2877 + side] == cto
            &&& row % 32 == 31 ==> z[2877 + side] == co && z[2875 + side] == 1 && cto == 1
        }),
{
    lemma_accepted(t, k, g, row);
    let env = rows_at(t, row);
    let z = t[reading::row_after(row)];
    assert(int_laws::all_zero(air::link_roots(k, env, side))) by {
        lemma_met(t, k, g, row);
        lemma_groups(k, g, env);
        lemma_side_groups(k, g, env, side);
    }
    let roots = air::link_roots(k, env, side);
    assert(roots[0] == 0 && roots[1] == 0 && roots[2] == 0 && roots[3] == 0 && roots[4] == 0);
    let be = air::here(env, k.block_end);
    int_laws::lemma_xor(1, be);
    lemma_whole(z, 7982 + side, 2875 + side);
    lemma_whole(z, 7984 + side, 2877 + side);
    let (co, cto) = (air::here(env, k.co@[side]), air::here(env, k.cto@[side]));
    if row % 32 < 31 {
        lemma_open(1 ^ be, z[2875 + side], co);
        lemma_open(1 ^ be, z[2877 + side], cto);
    } else {
        lemma_open(be, z[2877 + side], co);
        lemma_open(be, z[2875 + side], 1);
        lemma_open(be, cto, 1);
    }
}

// ---------------------------------------------------------------
// Exponents
// ---------------------------------------------------------------

/// A carry shifted by a digit stays far below the order.
proof fn lemma_shifted_small(c: nat)
    requires
        c < pow2(70),
    ensures
        c * pow2(32) < 0x40_0000_0000_0000_0000_0000_0000,
{
    lemma_sizes();
    assert(c * 0x1_0000_0000 < 0x40_0000_0000_0000_0000_0000_0000);
}

/// The power of a sum of three.
proof fn lemma_power_of_three(g: u128, a: nat, b: nat, c: nat)
    ensures
        gf::gf128_mul(
            gf::gf128_mul(gf::gf128_pow(g, a), gf::gf128_pow(g, b)),
            gf::gf128_pow(g, c),
        ) == gf::gf128_pow(g, a + b + c),
{
    exp_form::law_powers_add(g, a, b);
    exp_form::law_powers_add(g, a + b, c);
}

/// The two columns of its own block that a row finishes, as integers.
pub proof fn lemma_head_split(
    t: Seq<Seq<u128>>,
    k: ModexpCols,
    g: u128,
    row: int,
    side: int,
    u0: nat,
    u1: nat,
    c0: nat,
)
    requires
        accepted(t, k, g),
        k.wf(),
        generator::primitive(g),
        0 <= row < 1024,
        0 <= side < 2,
        u0 < pow2(101),
        u1 < pow2(101),
        c0 < pow2(70),
        t[row][2619 + 64 * side] == gf::gf128_pow(g, u0),
        t[row][2619 + 64 * side + 1] == gf::gf128_pow(g, u1),
        t[row][2875 + side] == gf::gf128_pow(g, c0),
    ensures
        ({
            let a = t[row];
            let (r0, r1) = if side == 0 {
                (0nat, 0nat)
            } else {
                (a[386] as nat, a[387] as nat)
            };
            let (c1, c2) = (carry_in(a, word_of(side, 0)), carry_in(a, word_of(side, 1)));
            &&& u0 + c0 + r0 == a[392] as nat + c1 * pow2(32)
            &&& u1 + c1 + r1 == a[393] as nat + c2 * pow2(32)
        }),
{
    lemma_accepted(t, k, g, row);
    let env = rows_at(t, row);
    let a = t[row];
    assert(int_laws::all_zero(air::split_roots(k, env, side))) by {
        lemma_met(t, k, g, row);
        lemma_groups(k, g, env);
        lemma_side_groups(k, g, env, side);
    }
    let roots = air::split_roots(k, env, side);
    assert(roots[0] == 0 && roots[1] == 0);
    lemma_whole(a, 7726 + 64 * side, 2619 + 64 * side);
    lemma_whole(a, 7726 + 64 * side + 1, 2619 + 64 * side + 1);
    lemma_whole(a, 7982 + side, 2875 + side);
    lemma_digit_power(t, k, g, row, 0);
    lemma_digit_power(t, k, g, row, 1);
    lemma_carry_power(t, k, g, row, side, 0);
    lemma_carry_power(t, k, g, row, side, 1);
    lemma_sel_power(t, k, g, row, 0);
    lemma_sel_power(t, k, g, row, 1);
    let (r0, r1) = if side == 0 {
        (0nat, 0nat)
    } else {
        (a[386] as nat, a[387] as nat)
    };
    assert(cell_fits(386, a[386]) && cell_fits(387, a[387]) && cell_fits(392, a[392]) && cell_fits(
        393,
        a[393],
    ));
    let (c1, c2) = (carry_in(a, word_of(side, 0)), carry_in(a, word_of(side, 1)));
    assert(air::added_at(k, env, side, 0) == gf::gf128_pow(g, r0));
    assert(air::added_at(k, env, side, 1) == gf::gf128_pow(g, r1));
    lemma_power_of_three(g, u0, c0, r0);
    lemma_power_of_three(g, u1, c1, r1);
    exp_form::law_powers_add(g, a[392] as nat, c1 * pow2(32));
    exp_form::law_powers_add(g, a[393] as nat, c2 * pow2(32));
    lemma_sizes();
    lemma_shifted_small(c1);
    lemma_shifted_small(c2);
    generator::lemma_same_exponent(g, u0 + c0 + r0, a[392] as nat + c1 * pow2(32));
    generator::lemma_same_exponent(g, u1 + c1 + r1, a[393] as nat + c2 * pow2(32));
}

proof fn lemma_sizes()
    ensures
        pow2(101) == 0x20_0000_0000_0000_0000_0000_0000,
        pow2(70) == 0x40_0000_0000_0000_0000,
        pow2(32) == 0x1_0000_0000,
{
    lemma_pow2_adds(64, 6);
    lemma_pow2_adds(64, 32);
    lemma_pow2_adds(96, 5);
    lemma2_to64();
}

/// The two columns of the block before that a row finishes, as integers.
pub proof fn lemma_tail_split(
    t: Seq<Seq<u128>>,
    k: ModexpCols,
    g: u128,
    row: int,
    side: int,
    u0: nat,
    u1: nat,
    c0: nat,
)
    requires
        accepted(t, k, g),
        k.wf(),
        generator::primitive(g),
        0 <= row < 1024,
        0 <= side < 2,
        u0 < pow2(101),
        u1 < pow2(101),
        c0 < pow2(70),
        t[row][2747 + 64 * side] == gf::gf128_pow(g, u0),
        t[row][2747 + 64 * side + 1] == gf::gf128_pow(g, u1),
        t[row][2877 + side] == gf::gf128_pow(g, c0),
    ensures
        ({
            let a = t[row];
            let (c1, c2) = (carry_in(a, word_of(side, 2)), carry_in(a, word_of(side, 3)));
            &&& u0 + c0 == a[394] as nat + c1 * pow2(32)
            &&& u1 + c1 == a[395] as nat + c2 * pow2(32)
        }),
{
    lemma_accepted(t, k, g, row);
    let env = rows_at(t, row);
    let a = t[row];
    assert(int_laws::all_zero(air::split_roots(k, env, side))) by {
        lemma_met(t, k, g, row);
        lemma_groups(k, g, env);
        lemma_side_groups(k, g, env, side);
    }
    let roots = air::split_roots(k, env, side);
    assert(roots[2] == 0 && roots[3] == 0);
    lemma_whole(a, 7854 + 64 * side, 2747 + 64 * side);
    lemma_whole(a, 7854 + 64 * side + 1, 2747 + 64 * side + 1);
    lemma_whole(a, 7984 + side, 2877 + side);
    lemma_digit_power(t, k, g, row, 2);
    lemma_digit_power(t, k, g, row, 3);
    lemma_carry_power(t, k, g, row, side, 2);
    lemma_carry_power(t, k, g, row, side, 3);
    assert(cell_fits(394, a[394]) && cell_fits(395, a[395]));
    let (c1, c2) = (carry_in(a, word_of(side, 2)), carry_in(a, word_of(side, 3)));
    exp_form::law_powers_add(g, u0, c0);
    exp_form::law_powers_add(g, u1, c1);
    exp_form::law_powers_add(g, a[394] as nat, c1 * pow2(32));
    exp_form::law_powers_add(g, a[395] as nat, c2 * pow2(32));
    lemma_sizes();
    lemma_shifted_small(c1);
    lemma_shifted_small(c2);
    generator::lemma_same_exponent(g, u0 + c0, a[394] as nat + c1 * pow2(32));
    generator::lemma_same_exponent(g, u1 + c1, a[395] as nat + c2 * pow2(32));
}

/// A gated power is the power of the gated exponent.
proof fn lemma_gated_power(g: u128, bit: u128, e: nat)
    requires
        bit <= 1,
    ensures
        exp_form::gated(bit, gf::gf128_pow(g, e)) == gf::gf128_pow(g, bit as nat * e),
{
    exp_form::lemma_gated(bit, gf::gf128_pow(g, e));
    if bit == 1 {
        assert(1 * e == e) by (nonlinear_arith);
    } else {
        assert(0 * e == 0) by (nonlinear_arith);
    }
}

/// Two limbs of `r + w + 1`, as integers: a carry in, one between and one out.
pub proof fn lemma_sums(t: Seq<Seq<u128>>, k: ModexpCols, g: u128, row: int)
    requires
        accepted(t, k, g),
        k.wf(),
        generator::primitive(g),
        0 <= row < 1024,
    ensures
        ({
            let (a, z) = (t[row], t[reading::row_after(row)]);
            let out = if row % 32 == 31 {
                0
            } else {
                z[406]
            };
            &&& a[406] <= 1
            &&& a[407] <= 1
            &&& row % 32 == 31 ==> z[406] == 1
            &&& a[386] + a[388] + a[406] == a[390] + a[407] * 0x1_0000_0000
            &&& a[387] + a[389] + a[407] == a[391] + out * 0x1_0000_0000
        }),
{
    lemma_accepted(t, k, g, row);
    let env = rows_at(t, row);
    let (a, z) = (t[row], t[reading::row_after(row)]);
    assert(int_laws::all_zero(air::sum_roots(k, g, env))) by {
        lemma_met(t, k, g, row);
        lemma_groups(k, g, env);
    }
    let roots = air::sum_roots(k, g, env);
    assert(roots[0] == 0 && roots[1] == 0 && roots[2] == 0);
    lemma_whole(a, 5513, 406);
    lemma_whole(a, 5514, 407);
    lemma_whole(z, 5513, 406);
    let be = air::here(env, k.block_end);
    int_laws::lemma_xor(1, be);
    assert(cell_fits(406, a[406]) && cell_fits(407, a[407]) && cell_fits(406, z[406]));
    let out = gf::gf128_mul(1 ^ be, z[406]);
    int_laws::lemma_mul_boolean(1 ^ be, z[406]);
    assert(out <= 1);
    if row % 32 == 31 {
        lemma_open(be, z[406], 1);
    }
    lemma_sel_power(t, k, g, row, 0);
    lemma_sel_power(t, k, g, row, 1);
    lemma_sel_power(t, k, g, row, 2);
    lemma_sel_power(t, k, g, row, 3);
    lemma_sel_power(t, k, g, row, 4);
    lemma_sel_power(t, k, g, row, 5);
    assert(cell_fits(386, a[386]) && cell_fits(387, a[387]) && cell_fits(388, a[388]) && cell_fits(
        389,
        a[389],
    ) && cell_fits(390, a[390]) && cell_fits(391, a[391]));
    exp_form::lemma_first_power(g);
    let (rc, rcm) = (a[406], a[407]);
    lemma_gated_power(g, rc, 1);
    lemma_gated_power(g, rcm, 1);
    lemma_gated_power(g, rcm, pow2(32));
    lemma_gated_power(g, out, pow2(32));
    let (x0, x1) = (
        a[386] as nat + a[388] as nat + rc as nat * 1,
        a[387] as nat + a[389] as nat + rcm as nat * 1,
    );
    let (y0, y1) = (a[390] as nat + rcm as nat * pow2(32), a[391] as nat + out as nat * pow2(32));
    lemma_power_of_three(g, a[386] as nat, a[388] as nat, rc as nat * 1);
    lemma_power_of_three(g, a[387] as nat, a[389] as nat, rcm as nat * 1);
    exp_form::law_powers_add(g, a[390] as nat, rcm as nat * pow2(32));
    exp_form::law_powers_add(g, a[391] as nat, out as nat * pow2(32));
    assert(roots[0] == gf::gf128_pow(g, x0) ^ gf::gf128_pow(g, y0));
    assert(roots[1] == gf::gf128_pow(g, x1) ^ gf::gf128_pow(g, y1));
    lemma_sizes();
    generator::lemma_same_exponent(g, x0, y0);
    generator::lemma_same_exponent(g, x1, y1);
}

} // verus!
