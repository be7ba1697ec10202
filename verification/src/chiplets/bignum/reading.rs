//! What the constraints see of a row of the table.

use vstd::arithmetic::div_mod::*;
use vstd::arithmetic::power2::*;
use vstd::prelude::*;

use super::columns;
use super::exponents;
use super::limbs;
use super::modexp::Modexp;
use super::rows;
use super::table;
use crate::atoms::int_laws;
use crate::bits;
use crate::program::constraint;
use crate::program::constraint::Env;
use crate::program::expander;

verus! {

/// The virtual cells of a row.
#[verifier::opaque]
pub open spec fn seen(m: Modexp, g: u128, request: u32, row: int) -> Seq<u128> {
    expander::expanded(columns::virtual_columns(), table::table_row(m, g, request, row))
}

/// The row after `row`; the first after the last.
pub open spec fn row_after(row: int) -> int {
    if row == 1023 {
        0
    } else {
        row + 1
    }
}

/// A row of the table and the next.
pub open spec fn pair_at(m: Modexp, g: u128, request: u32, row: int) -> Env {
    Env { cur: seen(m, g, request, row), next: seen(m, g, request, row_after(row)) }
}

// ---------------------------------------------------------------
// Virtual cells
// ---------------------------------------------------------------

/// Virtual cell `i` of a row with these committed cells.
pub open spec fn virtual_at(t: Seq<u128>, i: int) -> u128 {
    if i < 128 {
        bits::bit(t[i / 64] as nat, (i % 64) as nat) as u128
    } else if i < 256 {
        t[i - 126]
    } else if i < 4352 {
        bits::bit(t[130 + (i - 256) / 32] as nat, ((i - 256) % 32) as nat) as u128
    } else if i < 4480 {
        t[i - 4094]
    } else if i < 4800 {
        bits::bit(t[386 + (i - 4480) / 32] as nat, ((i - 4480) % 32) as nat) as u128
    } else if i < 5376 {
        bits::bit(t[396 + (i - 4800) / 64] as nat, ((i - 4800) % 64) as nat) as u128
    } else if i < 5378 {
        t[i - 5376]
    } else if i < 5506 {
        t[i - 5248]
    } else if i < 5512 {
        t[i - 5120]
    } else {
        t[i - 5107]
    }
}

/// The declared columns expand to these cells.
pub proof fn lemma_virtual_at(t: Seq<u128>, i: int)
    requires
        t.len() == 3447,
        0 <= i < 8554,
    ensures
        columns::virtual_columns().len() == 8554,
        expander::expanded(columns::virtual_columns(), t)[i] == virtual_at(t, i),
{
    let all = columns::virtual_columns();
    assert(all.len() == 8554);
    if i < 128 {
        assert(all[i] == expander::bit_columns(0, 64, 128)[i]);
    } else if i < 192 {
        assert(all[i] == expander::whole_columns(2, 64)[i - 128]);
    } else if i < 256 {
        assert(all[i] == expander::whole_columns(66, 64)[i - 192]);
    } else if i < 2304 {
        assert(all[i] == expander::bit_columns(130, 32, 2048)[i - 256]);
    } else if i < 4352 {
        assert(all[i] == expander::bit_columns(194, 32, 2048)[i - 2304]);
        assert((i - 256) / 32 == 64 + (i - 2304) / 32 && (i - 256) % 32 == (i - 2304) % 32);
    } else if i < 4416 {
        assert(all[i] == expander::whole_columns(258, 64)[i - 4352]);
    } else if i < 4480 {
        assert(all[i] == expander::whole_columns(322, 64)[i - 4416]);
    } else if i < 4672 {
        assert(all[i] == expander::bit_columns(386, 32, 192)[i - 4480]);
    } else if i < 4800 {
        assert(all[i] == expander::bit_columns(392, 32, 128)[i - 4672]);
        assert((i - 4480) / 32 == 6 + (i - 4672) / 32 && (i - 4480) % 32 == (i - 4672) % 32);
    } else if i < 5312 {
        assert(all[i] == expander::bit_columns(396, 64, 512)[i - 4800]);
    } else if i < 5376 {
        assert(all[i] == expander::bit_columns(404, 64, 64)[i - 5312]);
        assert((i - 4800) / 64 == 8 + (i - 5312) / 64 && (i - 4800) % 64 == (i - 5312) % 64);
    } else if i < 5378 {
        assert(all[i] == expander::whole_columns(0, 2)[i - 5376]);
    } else if i < 5442 {
        assert(all[i] == expander::whole_columns(130, 64)[i - 5378]);
    } else if i < 5506 {
        assert(all[i] == expander::whole_columns(194, 64)[i - 5442]);
    } else if i < 5512 {
        assert(all[i] == expander::whole_columns(386, 6)[i - 5506]);
    } else {
        assert(all[i] == expander::whole_columns(405, 3042)[i - 5512]);
    }
}

/// The bits of a word that the constraints see.
pub proof fn lemma_bits_seen(t: Seq<u128>, start: int, col: int, width: nat)
    requires
        t.len() == 3447,
        (start == 64 * col && 0 <= col < 2 && width == 64) || (start == 256 + 32 * (col - 130)
            && 130 <= col < 258 && width == 32) || (start == 4480 + 32 * (col - 386) && 386 <= col
            < 396 && width == 32) || (start == 4800 + 64 * (col - 396) && 396 <= col < 405 && width
            == 64),
    ensures
        constraint::cells(
            expander::expanded(columns::virtual_columns(), t),
            start,
            width,
        ) == int_laws::bits_of(t[col] as nat, width),
{
    let have = constraint::cells(expander::expanded(columns::virtual_columns(), t), start, width);
    let want = int_laws::bits_of(t[col] as nat, width);
    assert forall|j: int| 0 <= j < width implies #[trigger] have[j] == want[j] by {
        lemma_virtual_at(t, start + j);
        let i = start + j;
        if width == 64 && start < 128 {
            assert(i / 64 == col && i % 64 == j);
        } else if start < 4480 {
            assert((i - 256) / 32 == col - 130 && (i - 256) % 32 == j);
        } else if start < 4800 {
            assert((i - 4480) / 32 == col - 386 && (i - 4480) % 32 == j);
        } else {
            assert((i - 4800) / 64 == col - 396 && (i - 4800) % 64 == j);
        }
    }
    assert(have =~= want);
}

/// The columns that are seen as they are, from the request index on.
pub proof fn lemma_cells_seen(t: Seq<u128>, n: int, len: nat)
    requires
        t.len() == 3447,
        0 <= n,
        n + len <= 3042,
    ensures
        constraint::cells(
            expander::expanded(columns::virtual_columns(), t),
            5512 + n,
            len,
        ) == t.subrange(405 + n, 405 + n + len),
{
    let have = constraint::cells(
        expander::expanded(columns::virtual_columns(), t),
        5512 + n,
        len,
    );
    let want = t.subrange(405 + n, 405 + n + len);
    assert forall|j: int| 0 <= j < len implies #[trigger] have[j] == want[j] by {
        lemma_virtual_at(t, 5512 + n + j);
    }
    assert(have =~= want);
}

// ---------------------------------------------------------------
// Committed cells
// ---------------------------------------------------------------

pub proof fn lemma_row_length(m: Modexp, g: u128, request: u32, row: int)
    requires
        m.wf(),
        0 <= row < 1024,
    ensures
        table::table_row(m, g, request, row).len() == 3447,
        table::side_powers(m, g, row / 32, row % 32).len() == 2442,
        table::word_powers(m, g, row / 32, row % 32).len() == 560,
        table::words_of(m, request, row).len() == 445,
        table::limb_words(m, row / 32, row % 32).len() == 396,
{
    let (b, i) = (row / 32, row % 32);
    assert(exponents::right(m, 0, b).len() == 64 && exponents::right(m, 1, b).len() == 64);
    assert(table::side_powers(m, g, b, i).len() == 2442);
    assert(table::word_powers(m, g, b, i).len() == 560);
    assert(table::limb_words(m, b, i).len() == 396);
    reveal(table::table_row);
}

/// The narrow cells of a row.
pub proof fn lemma_word_cell(m: Modexp, g: u128, request: u32, row: int, c: int)
    requires
        m.wf(),
        0 <= row < 1024,
        0 <= c < 445,
    ensures
        table::table_row(m, g, request, row)[c] == table::words_of(m, request, row)[c] as u128,
{
    reveal(table::table_row);
    lemma_row_length(m, g, request, row);
}

proof fn lemma_head_cell(m: Modexp, g: u128, request: u32, row: int, c: int)
    requires
        m.wf(),
        0 <= row < 1024,
        0 <= c < 396,
    ensures
        table::table_row(m, g, request, row)[c] == table::limb_words(m, row / 32, row % 32)[c],
{
    lemma_row_length(m, g, request, row);
    lemma_word_cell(m, g, request, row, c);
    assert(table::words_of(m, request, row)[c] == table::limb_words(m, row / 32, row % 32)[c]);
}

/// The 64-bit limbs of a row.
pub proof fn lemma_pair_cells(m: Modexp, g: u128, request: u32, row: int)
    requires
        m.wf(),
        0 <= row < 1024,
    ensures
        table::table_row(m, g, request, row)[0] == exponents::limb(m, 0, row / 32, row % 32),
        table::table_row(m, g, request, row)[1] == exponents::limb(m, 1, row / 32, row % 32),
{
    let (b, i) = (row / 32, row % 32);
    let head = table::limb_words(m, b, i);
    lemma_head_cell(m, g, request, row, 0);
    lemma_head_cell(m, g, request, row, 1);
    lemma_limb_fits(m, 0, b, i);
    lemma_limb_fits(m, 1, b, i);
    assert(head[0] == exponents::limb(m, 0, b, i) as u64);
    assert(head[1] == exponents::limb(m, 1, b, i) as u64);
}

/// Limb `j` of the six numbers of a row.
pub proof fn lemma_limb_cells(m: Modexp, g: u128, request: u32, row: int, j: int)
    requires
        m.wf(),
        0 <= row < 1024,
        0 <= j < 64,
    ensures
        ({
            let t = table::table_row(m, g, request, row);
            let step = m.steps()[row / 32];
            &&& t[2 + j] == m.s_limbs()[j]
            &&& t[66 + j] == step.x@[j]
            &&& t[130 + j] == step.y@[j]
            &&& t[194 + j] == m.n_limbs()[j]
            &&& t[258 + j] == step.r@[j]
            &&& t[322 + j] == step.w@[j]
        }),
{
    let (b, i) = (row / 32, row % 32);
    let step = m.steps()[b];
    let head = table::limb_words(m, b, i);
    lemma_head_cell(m, g, request, row, 2 + j);
    lemma_head_cell(m, g, request, row, 66 + j);
    lemma_head_cell(m, g, request, row, 130 + j);
    lemma_head_cell(m, g, request, row, 194 + j);
    lemma_head_cell(m, g, request, row, 258 + j);
    lemma_head_cell(m, g, request, row, 322 + j);
    assert(head[2 + j] == table::widened(m.s_limbs())[j]);
    assert(head[66 + j] == table::widened(step.x@)[j]);
    assert(head[130 + j] == table::widened(step.y@)[j]);
    assert(head[194 + j] == table::widened(m.n_limbs())[j]);
    assert(head[258 + j] == table::widened(step.r@)[j]);
    assert(head[322 + j] == table::widened(step.w@)[j]);
}

/// Selected limb `j` of a row.
pub proof fn lemma_sel_cell(m: Modexp, g: u128, request: u32, row: int, j: int)
    requires
        m.wf(),
        0 <= row < 1024,
        0 <= j < 6,
    ensures
        table::table_row(m, g, request, row)[386 + j] == rows::sel_of(m, row / 32, row % 32)[j],
{
    lemma_head_cell(m, g, request, row, 386 + j);
    let sel = rows::sel_of(m, row / 32, row % 32);
    assert(table::limb_words(m, row / 32, row % 32)[386 + j] == table::widened(sel)[j]);
}

/// Digit `j` of a row.
pub proof fn lemma_digit_cell(m: Modexp, g: u128, request: u32, row: int, j: int)
    requires
        m.wf(),
        0 <= row < 1024,
        0 <= j < 4,
    ensures
        table::table_row(m, g, request, row)[392 + j] == rows::digits_of(m, row / 32, row % 32)[j],
{
    lemma_head_cell(m, g, request, row, 392 + j);
    let digits = rows::digits_of(m, row / 32, row % 32);
    assert(table::limb_words(m, row / 32, row % 32)[392 + j] == table::widened(digits)[j]);
}

pub proof fn lemma_limb_fits(m: Modexp, side: int, b: int, i: int)
    ensures
        exponents::limb(m, side, b, i) <= u64::MAX,
{
    let x = exponents::left(m, side, b);
    assert(x[2 * i] <= u32::MAX && x[2 * i + 1] <= u32::MAX);
}

/// The low word of carry `k` of a row.
pub proof fn lemma_carry_cell(m: Modexp, g: u128, request: u32, row: int, k: int)
    requires
        m.wf(),
        0 <= row < 1024,
        0 <= k < 8,
    ensures
        table::table_row(m, g, request, row)[396 + k] == table::carry_word(
            m,
            row / 32,
            row % 32,
            k,
        ),
{
    lemma_row_length(m, g, request, row);
    lemma_word_cell(m, g, request, row, 396 + k);
    assert(table::words_of(m, request, row)[396 + k] == table::carry_words(
        m,
        row / 32,
        row % 32,
    )[k]);
}

/// Which row of its block a row is.
pub proof fn lemma_onehot_cell(m: Modexp, g: u128, request: u32, row: int, k: int)
    requires
        m.wf(),
        0 <= row < 1024,
        0 <= k < 32,
    ensures
        table::table_row(m, g, request, row)[413 + k] == table::flag(k == row % 32),
{
    lemma_row_length(m, g, request, row);
    lemma_word_cell(m, g, request, row, 413 + k);
    assert(table::words_of(m, request, row)[413 + k] == table::onehot(row % 32)[k]);
}

/// The selectors of a row.
pub proof fn lemma_flag_cells(m: Modexp, g: u128, request: u32, row: int)
    requires
        m.wf(),
        0 <= row < 1024,
    ensures
        ({
            let t = table::table_row(m, g, request, row);
            let (b, i) = (row / 32, row % 32);
            let step = m.steps()[b];
            &&& t[404] == table::packed_tops(m, b, i, 8)
            &&& t[405] == table::request_word(request, row)
            &&& t[406] == exponents::sum_carry(step.r@, step.w@, 2 * i)
            &&& t[407] == exponents::sum_carry(step.r@, step.w@, 2 * i + 1)
            &&& t[408] == table::flag(row == 0)
            &&& t[409] == table::flag(i == 31)
            &&& t[410] == table::flag(i == 31 && b < 31)
            &&& t[411] == table::flag(row == 511)
            &&& t[412] == table::flag(row == 543)
        }),
{
    let (b, i) = (row / 32, row % 32);
    let step = m.steps()[b];
    lemma_row_length(m, g, request, row);
    let words = table::words_of(m, request, row);
    table::lemma_tops_bound(m, b, i, 8);
    exponents::lemma_sum_carry_bit(step.r@, step.w@, 2 * i);
    exponents::lemma_sum_carry_bit(step.r@, step.w@, 2 * i + 1);
    lemma_word_cell(m, g, request, row, 404);
    lemma_word_cell(m, g, request, row, 405);
    lemma_word_cell(m, g, request, row, 406);
    lemma_word_cell(m, g, request, row, 407);
    lemma_word_cell(m, g, request, row, 408);
    lemma_word_cell(m, g, request, row, 409);
    lemma_word_cell(m, g, request, row, 410);
    lemma_word_cell(m, g, request, row, 411);
    lemma_word_cell(m, g, request, row, 412);
    assert(words[404] == table::packed_tops(m, b, i, 8) as u64);
    assert(words[405] == table::request_word(request, row));
    let f = table::flags(m, row);
    assert(words[406] == f[0] && words[407] == f[1] && words[408] == f[2] && words[409] == f[3]
        && words[410] == f[4] && words[411] == f[5] && words[412] == f[6]);
}

/// The powers of a row that belong to the two products.
pub proof fn lemma_side_cells(m: Modexp, g: u128, request: u32, row: int)
    requires
        m.wf(),
        0 <= row < 1024,
    ensures
        ({
            let t = table::table_row(m, g, request, row);
            let (b, i) = (row / 32, row % 32);
            &&& t.subrange(445, 477) == table::left_chain(m, g, 0, b, i)
            &&& t.subrange(477, 509) == table::left_chain(m, g, 1, b, i)
            &&& t.subrange(509, 540) == table::left_squares(m, g, 0, b, i)
            &&& t.subrange(540, 571) == table::left_squares(m, g, 1, b, i)
            &&& t.subrange(571, 1595) == table::limb_products(m, g, 0, b, i)
            &&& t.subrange(1595, 2619) == table::limb_products(m, g, 1, b, i)
            &&& t.subrange(2619, 2683) == rows::running_of(m, g, 0, b, i)
            &&& t.subrange(2683, 2747) == rows::running_of(m, g, 1, b, i)
            &&& t.subrange(2747, 2811) == rows::tail_of(m, g, 0, b, i)
            &&& t.subrange(2811, 2875) == rows::tail_of(m, g, 1, b, i)
            &&& t.subrange(2875, 2887) == table::carry_powers(m, g, b, i)
        }),
{
    let t = table::table_row(m, g, request, row);
    let (b, i) = (row / 32, row % 32);
    lemma_row_length(m, g, request, row);
    let s = table::side_powers(m, g, b, i);
    assert(exponents::right(m, 0, b).len() == 64 && exponents::right(m, 1, b).len() == 64);
    assert(t.subrange(445, 2887) =~= s) by {
        reveal(table::table_row);
    }
    lemma_sub(t, s, 445, 2887, 0, 32);
    lemma_sub(t, s, 445, 2887, 32, 64);
    lemma_sub(t, s, 445, 2887, 64, 95);
    lemma_sub(t, s, 445, 2887, 95, 126);
    lemma_sub(t, s, 445, 2887, 126, 1150);
    lemma_sub(t, s, 445, 2887, 1150, 2174);
    lemma_sub(t, s, 445, 2887, 2174, 2238);
    lemma_sub(t, s, 445, 2887, 2238, 2302);
    lemma_sub(t, s, 445, 2887, 2302, 2366);
    lemma_sub(t, s, 445, 2887, 2366, 2430);
    lemma_sub(t, s, 445, 2887, 2430, 2442);
    assert(s.subrange(0, 32) =~= table::left_chain(m, g, 0, b, i));
    assert(s.subrange(32, 64) =~= table::left_chain(m, g, 1, b, i));
    assert(s.subrange(64, 95) =~= table::left_squares(m, g, 0, b, i));
    assert(s.subrange(95, 126) =~= table::left_squares(m, g, 1, b, i));
    assert(s.subrange(126, 1150) =~= table::limb_products(m, g, 0, b, i));
    assert(s.subrange(1150, 2174) =~= table::limb_products(m, g, 1, b, i));
    assert(s.subrange(2174, 2238) =~= rows::running_of(m, g, 0, b, i));
    assert(s.subrange(2238, 2302) =~= rows::running_of(m, g, 1, b, i));
    assert(s.subrange(2302, 2366) =~= rows::tail_of(m, g, 0, b, i));
    assert(s.subrange(2366, 2430) =~= rows::tail_of(m, g, 1, b, i));
    assert(s.subrange(2430, 2442) =~= table::carry_powers(m, g, b, i));
}

proof fn lemma_sub(t: Seq<u128>, s: Seq<u128>, lo: int, hi: int, a: int, b: int)
    requires
        0 <= lo <= hi <= t.len(),
        t.subrange(lo, hi) == s,
        0 <= a <= b <= s.len(),
    ensures
        t.subrange(lo + a, lo + b) == s.subrange(a, b),
{
    assert(t.subrange(lo + a, lo + b) =~= t.subrange(lo, hi).subrange(a, b));
}

/// The chains of a row's digits.
pub proof fn lemma_digit_cells(m: Modexp, g: u128, request: u32, row: int, k: int)
    requires
        m.wf(),
        0 <= row < 1024,
        0 <= k < 4,
    ensures
        table::table_row(m, g, request, row).subrange(
            2887 + 16 * k,
            2887 + 16 * k + 16,
        ) == table::digit_chain(m, g, row / 32, row % 32, k),
{
    let t = table::table_row(m, g, request, row);
    let (b, i) = (row / 32, row % 32);
    lemma_row_length(m, g, request, row);
    let s = table::word_powers(m, g, b, i);
    assert(t.subrange(2887, 3447) =~= s) by {
        reveal(table::table_row);
    }
    if k == 0 {
        lemma_sub(t, s, 2887, 3447, 0, 16);
        assert(s.subrange(0, 16) =~= table::digit_chain(m, g, b, i, 0));
    } else if k == 1 {
        lemma_sub(t, s, 2887, 3447, 16, 32);
        assert(s.subrange(16, 32) =~= table::digit_chain(m, g, b, i, 1));
    } else if k == 2 {
        lemma_sub(t, s, 2887, 3447, 32, 48);
        assert(s.subrange(32, 48) =~= table::digit_chain(m, g, b, i, 2));
    } else {
        lemma_sub(t, s, 2887, 3447, 48, 64);
        assert(s.subrange(48, 64) =~= table::digit_chain(m, g, b, i, 3));
    }
}

/// The chains of a row's carries.
pub proof fn lemma_carry_cells(m: Modexp, g: u128, request: u32, row: int, k: int)
    requires
        m.wf(),
        0 <= row < 1024,
        0 <= k < 8,
    ensures
        table::table_row(m, g, request, row).subrange(
            2951 + 34 * k,
            2951 + 34 * k + 34,
        ) == table::carry_chain(m, g, row / 32, row % 32, k),
{
    let t = table::table_row(m, g, request, row);
    let (b, i) = (row / 32, row % 32);
    lemma_row_length(m, g, request, row);
    let s = table::word_powers(m, g, b, i);
    assert(t.subrange(2887, 3447) =~= s) by {
        reveal(table::table_row);
    }
    if k == 0 {
        lemma_sub(t, s, 2887, 3447, 64, 98);
        assert(s.subrange(64, 98) =~= table::carry_chain(m, g, b, i, 0));
    } else if k == 1 {
        lemma_sub(t, s, 2887, 3447, 98, 132);
        assert(s.subrange(98, 132) =~= table::carry_chain(m, g, b, i, 1));
    } else if k == 2 {
        lemma_sub(t, s, 2887, 3447, 132, 166);
        assert(s.subrange(132, 166) =~= table::carry_chain(m, g, b, i, 2));
    } else if k == 3 {
        lemma_sub(t, s, 2887, 3447, 166, 200);
        assert(s.subrange(166, 200) =~= table::carry_chain(m, g, b, i, 3));
    } else if k == 4 {
        lemma_sub(t, s, 2887, 3447, 200, 234);
        assert(s.subrange(200, 234) =~= table::carry_chain(m, g, b, i, 4));
    } else if k == 5 {
        lemma_sub(t, s, 2887, 3447, 234, 268);
        assert(s.subrange(234, 268) =~= table::carry_chain(m, g, b, i, 5));
    } else if k == 6 {
        lemma_sub(t, s, 2887, 3447, 268, 302);
        assert(s.subrange(268, 302) =~= table::carry_chain(m, g, b, i, 6));
    } else {
        lemma_sub(t, s, 2887, 3447, 302, 336);
        assert(s.subrange(302, 336) =~= table::carry_chain(m, g, b, i, 7));
    }
}

/// The fourth powers of a row's carries.
pub proof fn lemma_fourth_cells(m: Modexp, g: u128, request: u32, row: int, k: int)
    requires
        m.wf(),
        0 <= row < 1024,
        0 <= k < 8,
    ensures
        table::table_row(m, g, request, row).subrange(
            3223 + 16 * k,
            3223 + 16 * k + 16,
        ) == table::carry_fourths(m, g, row / 32, row % 32, k),
{
    let t = table::table_row(m, g, request, row);
    let (b, i) = (row / 32, row % 32);
    lemma_row_length(m, g, request, row);
    let s = table::word_powers(m, g, b, i);
    assert(t.subrange(2887, 3447) =~= s) by {
        reveal(table::table_row);
    }
    if k == 0 {
        lemma_sub(t, s, 2887, 3447, 336, 352);
        assert(s.subrange(336, 352) =~= table::carry_fourths(m, g, b, i, 0));
    } else if k == 1 {
        lemma_sub(t, s, 2887, 3447, 352, 368);
        assert(s.subrange(352, 368) =~= table::carry_fourths(m, g, b, i, 1));
    } else if k == 2 {
        lemma_sub(t, s, 2887, 3447, 368, 384);
        assert(s.subrange(368, 384) =~= table::carry_fourths(m, g, b, i, 2));
    } else if k == 3 {
        lemma_sub(t, s, 2887, 3447, 384, 400);
        assert(s.subrange(384, 400) =~= table::carry_fourths(m, g, b, i, 3));
    } else if k == 4 {
        lemma_sub(t, s, 2887, 3447, 400, 416);
        assert(s.subrange(400, 416) =~= table::carry_fourths(m, g, b, i, 4));
    } else if k == 5 {
        lemma_sub(t, s, 2887, 3447, 416, 432);
        assert(s.subrange(416, 432) =~= table::carry_fourths(m, g, b, i, 5));
    } else if k == 6 {
        lemma_sub(t, s, 2887, 3447, 432, 448);
        assert(s.subrange(432, 448) =~= table::carry_fourths(m, g, b, i, 6));
    } else {
        lemma_sub(t, s, 2887, 3447, 448, 464);
        assert(s.subrange(448, 464) =~= table::carry_fourths(m, g, b, i, 7));
    }
}

/// The chains of a row's selected limbs.
pub proof fn lemma_limb_chain_cells(m: Modexp, g: u128, request: u32, row: int, k: int)
    requires
        m.wf(),
        0 <= row < 1024,
        0 <= k < 6,
    ensures
        table::table_row(m, g, request, row).subrange(
            3351 + 16 * k,
            3351 + 16 * k + 16,
        ) == table::limb_chain(m, g, row / 32, row % 32, k),
{
    let t = table::table_row(m, g, request, row);
    let (b, i) = (row / 32, row % 32);
    lemma_row_length(m, g, request, row);
    let s = table::word_powers(m, g, b, i);
    assert(t.subrange(2887, 3447) =~= s) by {
        reveal(table::table_row);
    }
    if k == 0 {
        lemma_sub(t, s, 2887, 3447, 464, 480);
        assert(s.subrange(464, 480) =~= table::limb_chain(m, g, b, i, 0));
    } else if k == 1 {
        lemma_sub(t, s, 2887, 3447, 480, 496);
        assert(s.subrange(480, 496) =~= table::limb_chain(m, g, b, i, 1));
    } else if k == 2 {
        lemma_sub(t, s, 2887, 3447, 496, 512);
        assert(s.subrange(496, 512) =~= table::limb_chain(m, g, b, i, 2));
    } else if k == 3 {
        lemma_sub(t, s, 2887, 3447, 512, 528);
        assert(s.subrange(512, 528) =~= table::limb_chain(m, g, b, i, 3));
    } else if k == 4 {
        lemma_sub(t, s, 2887, 3447, 528, 544);
        assert(s.subrange(528, 544) =~= table::limb_chain(m, g, b, i, 4));
    } else {
        lemma_sub(t, s, 2887, 3447, 544, 560);
        assert(s.subrange(544, 560) =~= table::limb_chain(m, g, b, i, 5));
    }
}

/// A committed column that the constraints see as it is.
pub proof fn lemma_whole(m: Modexp, g: u128, request: u32, row: int, c: int, col: int)
    requires
        m.wf(),
        0 <= row < 1024,
        (128 <= c < 256 && col == c - 126) || (4352 <= c < 4480 && col == c - 4094) || (5376 <= c
            < 5378 && col == c - 5376) || (5378 <= c < 5506 && col == c - 5248) || (5506 <= c
            < 5512 && col == c - 5120) || (5512 <= c < 8554 && col == c - 5107),
    ensures
        seen(m, g, request, row)[c] == table::table_row(m, g, request, row)[col],
{
    reveal(seen);
    lemma_row_length(m, g, request, row);
    lemma_virtual_at(table::table_row(m, g, request, row), c);
}

/// The cells of a range that are seen as they are.
pub proof fn lemma_range(m: Modexp, g: u128, request: u32, row: int, n: int, len: nat)
    requires
        m.wf(),
        0 <= row < 1024,
        0 <= n,
        n + len <= 3042,
    ensures
        constraint::cells(seen(m, g, request, row), 5512 + n, len) == table::table_row(
            m,
            g,
            request,
            row,
        ).subrange(405 + n, 405 + n + len),
{
    reveal(seen);
    lemma_row_length(m, g, request, row);
    lemma_cells_seen(table::table_row(m, g, request, row), n, len);
}

/// The bits of a committed column.
pub proof fn lemma_bits(
    m: Modexp,
    g: u128,
    request: u32,
    row: int,
    start: int,
    col: int,
    width: nat,
)
    requires
        m.wf(),
        0 <= row < 1024,
        (start == 64 * col && 0 <= col < 2 && width == 64) || (start == 256 + 32 * (col - 130)
            && 130 <= col < 258 && width == 32) || (start == 4480 + 32 * (col - 386) && 386 <= col
            < 396 && width == 32) || (start == 4800 + 64 * (col - 396) && 396 <= col < 405 && width
            == 64),
    ensures
        constraint::cells(seen(m, g, request, row), start, width) == int_laws::bits_of(
            table::table_row(m, g, request, row)[col] as nat,
            width,
        ),
{
    reveal(seen);
    lemma_row_length(m, g, request, row);
    lemma_bits_seen(table::table_row(m, g, request, row), start, col, width);
}

} // verus!
