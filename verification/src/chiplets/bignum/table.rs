//! The trace of the exponentiation table.

use vstd::arithmetic::power2::*;
use vstd::prelude::*;

use super::columns;
use super::columns::{
    Layout, CARRY_WORDS, FINAL_BLOCK, NUM_MODMULS, NUM_ROWS, NUM_VARS, RESULT_ROW, ROWS_PER_MODMUL,
};
use super::exponents;
use super::modexp::Modexp;
use super::modmul::LIMBS32;
use super::rows;
use super::rows::{RowValues, RowWords};
use crate::atoms::exp_form;
use crate::atoms::exp_form::ExpBasis;
use crate::errors::Error;
use crate::field::gf;
use crate::field::{Bit, Block128, Block32, Block64, Flat};
use crate::program::constraint;
use crate::trace::{ColumnTrace, ColumnType, TraceBuilder};

verus! {

// ---------------------------------------------------------------
// The cells of a row
// ---------------------------------------------------------------

/// Limbs as words.
pub open spec fn widened(limbs: Seq<u32>) -> Seq<u64> {
    Seq::new(limbs.len(), |i: int| limbs[i] as u64)
}

pub open spec fn flag(b: bool) -> u64 {
    if b {
        1
    } else {
        0
    }
}

/// The low words of a row's carries.
pub open spec fn carry_words(m: Modexp, b: int, i: int) -> Seq<u64> {
    Seq::new(8, |k: int| carry_word(m, b, i, k))
}

pub open spec fn carry_word(m: Modexp, b: int, i: int, k: int) -> u64 {
    (rows::carry_of(m, b, i, k) % 0x1_0000_0000_0000_0000) as u64
}

/// The six bits of a row's carry `k` above its low word.
pub open spec fn carry_top(m: Modexp, b: int, i: int, k: int) -> nat {
    (rows::carry_of(m, b, i, k) / 0x1_0000_0000_0000_0000) % 64
}

/// The bits of the first `n` carries above their low words, six of each.
pub open spec fn packed_tops(m: Modexp, b: int, i: int, n: nat) -> nat
    decreases n,
{
    if n == 0 {
        0
    } else {
        packed_tops(m, b, i, (n - 1) as nat) + carry_top(m, b, i, n - 1) * pow2(
            (6 * (n - 1)) as nat,
        )
    }
}

/// The selectors of a row: the two carries of `r + w + 1`, the first row, the
/// last row of a block, of a block that has a successor and of the block
/// before the last multiplication, and the row of the result.
pub open spec fn flags(m: Modexp, row: int) -> Seq<u64> {
    let (b, i) = (row / 32, row % 32);
    let step = m.steps()[b];
    seq![
        exponents::sum_carry(step.r@, step.w@, 2 * i) as u64,
        exponents::sum_carry(step.r@, step.w@, 2 * i + 1) as u64,
        flag(row == 0),
        flag(i == 31),
        flag(i == 31 && b < 31),
        flag(row == 511),
        flag(row == 543),
    ]
}

/// Which row of its block a row is, as one cell for each.
pub open spec fn onehot(i: int) -> Seq<u64> {
    Seq::new(32, |k: int| flag(k == i))
}

/// The limbs and digits of a row.
pub open spec fn limb_words(m: Modexp, b: int, i: int) -> Seq<u64> {
    let step = m.steps()[b];
    seq![exponents::limb(m, 0, b, i) as u64, exponents::limb(m, 1, b, i) as u64] + widened(
        m.s_limbs(),
    ) + widened(step.x@) + widened(step.y@) + widened(m.n_limbs()) + widened(step.r@) + widened(
        step.w@,
    ) + widened(rows::sel_of(m, b, i)) + widened(rows::digits_of(m, b, i))
}

/// The index of the request, in the row of the result.
pub open spec fn request_word(request: u32, row: int) -> u64 {
    if row == 543 {
        request as u64
    } else {
        0
    }
}

/// The narrow cells of a row.
pub open spec fn words_of(m: Modexp, request: u32, row: int) -> Seq<u64> {
    limb_words(m, row / 32, row % 32) + carry_words(m, row / 32, row % 32) + seq![
        packed_tops(m, row / 32, row % 32, 8) as u64,
        request_word(request, row),
    ] + flags(m, row) + onehot(row % 32)
}

/// The powers of the carries into, between and out of the columns that a row
/// finishes, side by side: of its own block, and of the block before.
pub open spec fn carry_powers(m: Modexp, g: u128, b: int, i: int) -> Seq<u128> {
    let p = exponents::block_before(b);
    seq![
        gf::gf128_pow(g, exponents::carry(m, 0, b, 2 * i)),
        gf::gf128_pow(g, exponents::carry(m, 1, b, 2 * i)),
        gf::gf128_pow(g, exponents::carry(m, 0, p, 64 + 2 * i)),
        gf::gf128_pow(g, exponents::carry(m, 1, p, 64 + 2 * i)),
        gf::gf128_pow(g, rows::carry_of(m, b, i, 0)),
        gf::gf128_pow(g, rows::carry_of(m, b, i, 2)),
        gf::gf128_pow(g, rows::carry_of(m, b, i, 1)),
        gf::gf128_pow(g, rows::carry_of(m, b, i, 3)),
        gf::gf128_pow(g, rows::carry_of(m, b, i, 4)),
        gf::gf128_pow(g, rows::carry_of(m, b, i, 6)),
        gf::gf128_pow(g, rows::carry_of(m, b, i, 5)),
        gf::gf128_pow(g, rows::carry_of(m, b, i, 7)),
    ]
}

/// The chain of a row's digit `k`.
pub open spec fn digit_chain(m: Modexp, g: u128, b: int, i: int, k: int) -> Seq<u128> {
    exp_form::chain_of(g, rows::digits_of(m, b, i)[k] as nat, 16)
}

/// The chain of a row's carry `k`, without its end.
pub open spec fn carry_chain(m: Modexp, g: u128, b: int, i: int, k: int) -> Seq<u128> {
    exp_form::chain_of(g, rows::carry_of(m, b, i, k), 34)
}

/// The fourth powers of a row's carry `k`.
pub open spec fn carry_fourths(m: Modexp, g: u128, b: int, i: int, k: int) -> Seq<u128> {
    rows::fourths_of(gf::gf128_pow(g, rows::carry_of(m, b, i, k)), 16)
}

/// The chain of a row's selected limb `k`.
pub open spec fn limb_chain(m: Modexp, g: u128, b: int, i: int, k: int) -> Seq<u128> {
    exp_form::chain_of(g, rows::sel_of(m, b, i)[k] as nat, 16)
}

/// The chain of the 64-bit limb that a row multiplies.
pub open spec fn left_chain(m: Modexp, g: u128, side: int, b: int, i: int) -> Seq<u128> {
    exp_form::chain_of(g, exponents::limb(m, side, b, i), 32)
}

/// The squares of that limb's power.
pub open spec fn left_squares(m: Modexp, g: u128, side: int, b: int, i: int) -> Seq<u128> {
    rows::squares_of(rows::limb_power(m, g, side, b, i), 31)
}

/// The chains of that limb times every limb of the right factor.
pub open spec fn limb_products(m: Modexp, g: u128, side: int, b: int, i: int) -> Seq<u128> {
    rows::products_of(rows::limb_power(m, g, side, b, i), exponents::right(m, side, b))
}

/// The cells of a row that belong to the two products.
pub open spec fn side_powers(m: Modexp, g: u128, b: int, i: int) -> Seq<u128> {
    left_chain(m, g, 0, b, i) + left_chain(m, g, 1, b, i) + left_squares(m, g, 0, b, i)
        + left_squares(m, g, 1, b, i) + limb_products(m, g, 0, b, i) + limb_products(m, g, 1, b, i)
        + rows::running_of(m, g, 0, b, i) + rows::running_of(m, g, 1, b, i) + rows::tail_of(
        m,
        g,
        0,
        b,
        i,
    ) + rows::tail_of(m, g, 1, b, i) + carry_powers(m, g, b, i)
}

/// The cells of a row that belong to the digits, carries and limbs.
pub open spec fn word_powers(m: Modexp, g: u128, b: int, i: int) -> Seq<u128> {
    digit_chain(m, g, b, i, 0) + digit_chain(m, g, b, i, 1) + digit_chain(m, g, b, i, 2)
        + digit_chain(m, g, b, i, 3) + carry_chain(m, g, b, i, 0) + carry_chain(m, g, b, i, 1)
        + carry_chain(m, g, b, i, 2) + carry_chain(m, g, b, i, 3) + carry_chain(m, g, b, i, 4)
        + carry_chain(m, g, b, i, 5) + carry_chain(m, g, b, i, 6) + carry_chain(m, g, b, i, 7)
        + carry_fourths(m, g, b, i, 0) + carry_fourths(m, g, b, i, 1) + carry_fourths(
        m,
        g,
        b,
        i,
        2,
    ) + carry_fourths(m, g, b, i, 3) + carry_fourths(m, g, b, i, 4) + carry_fourths(
        m,
        g,
        b,
        i,
        5,
    ) + carry_fourths(m, g, b, i, 6) + carry_fourths(m, g, b, i, 7) + limb_chain(m, g, b, i, 0)
        + limb_chain(m, g, b, i, 1) + limb_chain(m, g, b, i, 2) + limb_chain(m, g, b, i, 3)
        + limb_chain(m, g, b, i, 4) + limb_chain(m, g, b, i, 5)
}

/// The elements of a row, column by column.
#[verifier::opaque]
pub open spec fn table_row(m: Modexp, g: u128, request: u32, row: int) -> Seq<u128> {
    Seq::new(445, |c: int| words_of(m, request, row)[c] as u128) + side_powers(
        m,
        g,
        row / 32,
        row % 32,
    ) + word_powers(m, g, row / 32, row % 32)
}

// ---------------------------------------------------------------
// Laying the cells out
// ---------------------------------------------------------------

fn push_limbs(out: &mut Vec<u64>, limbs: &[u32])
    ensures
        final(out)@ == old(out)@ + widened(limbs@),
{
    let mut j: usize = 0;
    while j < limbs.len()
        invariant
            j <= limbs@.len(),
            out@ =~= old(out)@ + widened(limbs@.take(j as int)),
        decreases limbs@.len() - j,
    {
        out.push(limbs[j] as u64);
        j = j + 1;
    }
    proof {
        assert(limbs@.take(limbs@.len() as int) =~= limbs@);
    }
}

fn push_flats(out: &mut Vec<Flat<Block128>>, cells: &Vec<Flat<Block128>>, n: usize)
    requires
        n <= cells@.len(),
    ensures
        constraint::flat_values(final(out)@) == constraint::flat_values(old(out)@)
            + constraint::flat_values(cells@).take(n as int),
{
    let mut j: usize = 0;
    while j < n
        invariant
            j <= n <= cells@.len(),
            out@ =~= old(out)@ + cells@.take(j as int),
        decreases n - j,
    {
        out.push(cells[j]);
        j = j + 1;
    }
    proof {
        assert(constraint::flat_values(out@) =~= constraint::flat_values(old(out)@)
            + constraint::flat_values(cells@).take(n as int));
    }
}

fn as_flag(b: bool) -> (r: u64)
    ensures
        r == flag(b),
{
    if b {
        1
    } else {
        0
    }
}

pub proof fn lemma_tops_bound(m: Modexp, b: int, i: int, n: nat)
    requires
        n <= 8,
    ensures
        packed_tops(m, b, i, n) < pow2(6 * n),
        pow2(6 * n) <= 0x1_0000_0000_0000,
    decreases n,
{
    lemma2_to64();
    lemma2_to64_rest();
    if n > 0 {
        let k = (n - 1) as nat;
        lemma_tops_bound(m, b, i, k);
        lemma_pow2_adds(6, 6 * k);
        assert(6 * n == 6 + 6 * k);
        let (t, p) = (carry_top(m, b, i, k as int), pow2(6 * k));
        assert(t * p + p <= 64 * p) by (nonlinear_arith)
            requires
                t <= 63,
        ;
        if n < 8 {
            lemma_pow2_strictly_increases(6 * n, 48);
        }
    }
}

/// Appends the limbs and digits of a row.
fn push_limb_words(out: &mut Vec<u64>, m: &Modexp, b: usize, i: usize, words: &RowWords)
    requires
        m.wf(),
        b < 32,
        i < 32,
        words.are_of(*m, b as int, i as int),
    ensures
        final(out)@ == old(out)@ + limb_words(*m, b as int, i as int),
{
    let step = m.step(b);
    out.push(words.xs);
    out.push(words.q);
    push_limbs(out, m.base());
    push_limbs(out, &step.x);
    push_limbs(out, &step.y);
    push_limbs(out, m.modulus());
    push_limbs(out, &step.r);
    push_limbs(out, &step.w);
    push_limbs(out, &words.sel);
    push_limbs(out, &words.digits);
    proof {
        assert(out@ =~= old(out)@ + limb_words(*m, b as int, i as int));
    }
}

/// Appends the carries of a row: their low words, and the bits above.
fn push_carry_words(out: &mut Vec<u64>, carries: &[u128; CARRY_WORDS], Ghost(m): Ghost<Modexp>, Ghost(b): Ghost<int>, Ghost(i): Ghost<int>)
    requires
        forall|k: int|
            0 <= k < 8 ==> (#[trigger] carries@[k]) as nat == rows::carry_of(m, b, i, k),
    ensures
        final(out)@ == old(out)@ + carry_words(m, b, i) + seq![packed_tops(m, b, i, 8) as u64],
{
    let ghost base = out@;
    let mut carry_hi: u64 = 0;
    let mut shift: u64 = 1;
    let mut k: usize = 0;
    proof {
        lemma2_to64();
    }
    while k < CARRY_WORDS
        invariant
            k <= 8,
            forall|j: int|
                0 <= j < 8 ==> (#[trigger] carries@[j]) as nat == rows::carry_of(m, b, i, j),
            out@ =~= base + carry_words(m, b, i).take(k as int),
            carry_hi as nat == packed_tops(m, b, i, k as nat),
            shift as nat == pow2((6 * k) as nat),
        decreases 8 - k,
    {
        let carry: u128 = carries[k];
        assert(carry as nat == rows::carry_of(m, b, i, k as int));
        out.push((carry % 0x1_0000_0000_0000_0000) as u64);
        let top: u64 = ((carry / 0x1_0000_0000_0000_0000) % 64) as u64;
        proof {
            lemma_tops_bound(m, b, i, k as nat);
            lemma_tops_bound(m, b, i, (k + 1) as nat);
            lemma_pow2_adds(6, (6 * k) as nat);
            lemma2_to64();
            assert((6 * (k + 1)) as nat == 6 + (6 * k) as nat);
            assert(top as nat == carry_top(m, b, i, k as int));
            assert(top * shift <= 63 * shift) by (nonlinear_arith)
                requires
                    top <= 63,
            ;
        }
        carry_hi = carry_hi + top * shift;
        shift = shift * 64;
        k = k + 1;
    }
    assert(carry_words(m, b, i).take(8) =~= carry_words(m, b, i));
    out.push(carry_hi);
}

/// Appends the selectors of a row.
fn push_flags(out: &mut Vec<u64>, row: usize, rc: u8, rcm: u8, Ghost(m): Ghost<Modexp>)
    requires
        row < 1024,
        rc as nat == exponents::sum_carry(
            m.steps()[(row / 32) as int].r@,
            m.steps()[(row / 32) as int].w@,
            2 * (row % 32) as int,
        ),
        rcm as nat == exponents::sum_carry(
            m.steps()[(row / 32) as int].r@,
            m.steps()[(row / 32) as int].w@,
            2 * (row % 32) as int + 1,
        ),
    ensures
        final(out)@ == old(out)@ + flags(m, row as int) + onehot((row % 32) as int),
{
    let b: usize = row / ROWS_PER_MODMUL;
    let i: usize = row % ROWS_PER_MODMUL;
    let block_end: bool = i + 1 == ROWS_PER_MODMUL;
    out.push(rc as u64);
    out.push(rcm as u64);
    out.push(as_flag(row == 0));
    out.push(as_flag(block_end));
    out.push(as_flag(block_end && b + 1 < NUM_MODMULS));
    out.push(as_flag(row + 1 == FINAL_BLOCK * ROWS_PER_MODMUL));
    out.push(as_flag(row == RESULT_ROW));
    let ghost upto = out@;
    assert(upto =~= old(out)@ + flags(m, row as int));
    let mut h: usize = 0;
    while h < ROWS_PER_MODMUL
        invariant
            h <= 32,
            out@ =~= upto + onehot(i as int).take(h as int),
        decreases 32 - h,
    {
        out.push(as_flag(h == i));
        h = h + 1;
    }
    proof {
        assert(onehot(i as int).take(32) =~= onehot(i as int));
    }
}

/// The carry of `r + w + 1` into limb `k`.
fn carry_into(r: &[u32; LIMBS32], w: &[u32; LIMBS32], k: usize) -> (c: u8)
    requires
        k <= 64,
    ensures
        c as nat == exponents::sum_carry(r@, w@, k as int),
        c <= 1,
{
    let mut c: u8 = 1;
    let mut j: usize = 0;
    while j < k
        invariant
            j <= k <= 64,
            c as nat == exponents::sum_carry(r@, w@, j as int),
            c <= 1,
        decreases k - j,
    {
        c = ((r[j] as u64 + w[j] as u64 + c as u64) / 0x1_0000_0000) as u8;
        j = j + 1;
    }
    c
}

/// The narrow cells of a row.
fn row_words(m: &Modexp, row: usize, request_idx: u32) -> (r: Vec<u64>)
    requires
        m.wf(),
        row < 1024,
    ensures
        r@ == words_of(*m, request_idx, row as int),
{
    let b: usize = row / ROWS_PER_MODMUL;
    let i: usize = row % ROWS_PER_MODMUL;
    let step = m.step(b);
    let words = m.words(row);
    let rc: u8 = carry_into(&step.r, &step.w, 2 * i);
    let rcm: u8 = carry_into(&step.r, &step.w, 2 * i + 1);
    let mut out: Vec<u64> = Vec::new();
    push_limb_words(&mut out, m, b, i, &words);
    push_carry_words(&mut out, &words.carries, Ghost(*m), Ghost(b as int), Ghost(i as int));
    out.push(
        if row == RESULT_ROW {
            request_idx as u64
        } else {
            0
        },
    );
    push_flags(&mut out, row, rc, rcm, Ghost(*m));
    proof {
        assert(out@ =~= words_of(*m, request_idx, row as int));
    }
    out
}

/// Appends cells that hold `want`.
fn push_all(out: &mut Vec<Flat<Block128>>, cells: &Vec<Flat<Block128>>, Ghost(want): Ghost<
    Seq<u128>,
>)
    requires
        constraint::flat_values(cells@) == want,
    ensures
        constraint::flat_values(final(out)@) == constraint::flat_values(old(out)@) + want,
{
    proof {
        assert(constraint::flat_values(cells@).len() == cells@.len());
        assert(want.take(want.len() as int) =~= want);
    }
    push_flats(out, cells, cells.len());
}

/// Appends a carry's chain without its end.
fn push_open(
    out: &mut Vec<Flat<Block128>>,
    cells: &Vec<Flat<Block128>>,
    Ghost(g): Ghost<u128>,
    Ghost(x): Ghost<nat>,
)
    requires
        constraint::flat_values(cells@) == exp_form::chain_of(g, x, 35),
    ensures
        constraint::flat_values(final(out)@) == constraint::flat_values(old(out)@)
            + exp_form::chain_of(g, x, 34),
{
    proof {
        assert(constraint::flat_values(cells@).len() == cells@.len());
        assert(exp_form::chain_of(g, x, 35).take(34) =~= exp_form::chain_of(g, x, 34));
    }
    push_flats(out, cells, 34);
}

/// The powers of a row's carries.
fn carry_cells(
    m: &Modexp,
    v: &RowValues,
    Ghost(g): Ghost<u128>,
    Ghost(bb): Ghost<int>,
    Ghost(ii): Ghost<int>,
) -> (r: Vec<Flat<Block128>>)
    requires
        v.own_part(*m, g, bb, ii),
        v.head_part(*m, g, bb, ii),
        v.tail_part(*m, g, bb, ii),
    ensures
        constraint::flat_values(r@) == carry_powers(*m, g, bb, ii),
{
    let mut out: Vec<Flat<Block128>> = Vec::new();
    out.push(v.c[0]);
    out.push(v.c[1]);
    out.push(v.ct[0]);
    out.push(v.ct[1]);
    out.push(v.cm[0]);
    out.push(v.cm[1]);
    out.push(v.co[0]);
    out.push(v.co[1]);
    out.push(v.ctm[0]);
    out.push(v.ctm[1]);
    out.push(v.cto[0]);
    out.push(v.cto[1]);
    proof {
        assert(constraint::flat_values(out@) =~= carry_powers(*m, g, bb, ii));
    }
    out
}

/// The cells of a row that belong to the two products.
fn side_cells(
    m: &Modexp,
    v: &RowValues,
    Ghost(g): Ghost<u128>,
    Ghost(bb): Ghost<int>,
    Ghost(ii): Ghost<int>,
) -> (r: Vec<Flat<Block128>>)
    requires
        v.own_part(*m, g, bb, ii),
        v.head_part(*m, g, bb, ii),
        v.tail_part(*m, g, bb, ii),
    ensures
        constraint::flat_values(r@) == side_powers(*m, g, bb, ii),
{
    let mut out: Vec<Flat<Block128>> = Vec::new();
    let carries = carry_cells(m, v, Ghost(g), Ghost(bb), Ghost(ii));
    push_all(&mut out, &v.xa[0], Ghost(left_chain(*m, g, 0, bb, ii)));
    assert(constraint::flat_values(out@) =~= left_chain(*m, g, 0, bb, ii));
    push_all(&mut out, &v.xa[1], Ghost(left_chain(*m, g, 1, bb, ii)));
    push_all(&mut out, &v.yf[0], Ghost(left_squares(*m, g, 0, bb, ii)));
    push_all(&mut out, &v.yf[1], Ghost(left_squares(*m, g, 1, bb, ii)));
    push_all(&mut out, &v.p[0], Ghost(limb_products(*m, g, 0, bb, ii)));
    push_all(&mut out, &v.p[1], Ghost(limb_products(*m, g, 1, bb, ii)));
    push_all(&mut out, &v.u[0], Ghost(rows::running_of(*m, g, 0, bb, ii)));
    push_all(&mut out, &v.u[1], Ghost(rows::running_of(*m, g, 1, bb, ii)));
    push_all(&mut out, &v.ut[0], Ghost(rows::tail_of(*m, g, 0, bb, ii)));
    push_all(&mut out, &v.ut[1], Ghost(rows::tail_of(*m, g, 1, bb, ii)));
    push_all(&mut out, &carries, Ghost(carry_powers(*m, g, bb, ii)));
    out
}

/// The cells of a row that belong to the digits, carries and limbs.
fn word_cells(
    m: &Modexp,
    v: &RowValues,
    Ghost(g): Ghost<u128>,
    Ghost(bb): Ghost<int>,
    Ghost(ii): Ghost<int>,
) -> (r: Vec<Flat<Block128>>)
    requires
        v.own_part(*m, g, bb, ii),
    ensures
        constraint::flat_values(r@) == word_powers(*m, g, bb, ii),
{
    let mut out: Vec<Flat<Block128>> = Vec::new();
    push_all(&mut out, &v.dg[0], Ghost(digit_chain(*m, g, bb, ii, 0)));
    assert(constraint::flat_values(out@) =~= digit_chain(*m, g, bb, ii, 0));
    push_all(&mut out, &v.dg[1], Ghost(digit_chain(*m, g, bb, ii, 1)));
    push_all(&mut out, &v.dg[2], Ghost(digit_chain(*m, g, bb, ii, 2)));
    push_all(&mut out, &v.dg[3], Ghost(digit_chain(*m, g, bb, ii, 3)));
    push_open(&mut out, &v.ce[0], Ghost(g), Ghost(rows::carry_of(*m, bb, ii, 0)));
    push_open(&mut out, &v.ce[1], Ghost(g), Ghost(rows::carry_of(*m, bb, ii, 1)));
    push_open(&mut out, &v.ce[2], Ghost(g), Ghost(rows::carry_of(*m, bb, ii, 2)));
    push_open(&mut out, &v.ce[3], Ghost(g), Ghost(rows::carry_of(*m, bb, ii, 3)));
    push_open(&mut out, &v.ce[4], Ghost(g), Ghost(rows::carry_of(*m, bb, ii, 4)));
    push_open(&mut out, &v.ce[5], Ghost(g), Ghost(rows::carry_of(*m, bb, ii, 5)));
    push_open(&mut out, &v.ce[6], Ghost(g), Ghost(rows::carry_of(*m, bb, ii, 6)));
    push_open(&mut out, &v.ce[7], Ghost(g), Ghost(rows::carry_of(*m, bb, ii, 7)));
    push_all(&mut out, &v.fr[0], Ghost(carry_fourths(*m, g, bb, ii, 0)));
    push_all(&mut out, &v.fr[1], Ghost(carry_fourths(*m, g, bb, ii, 1)));
    push_all(&mut out, &v.fr[2], Ghost(carry_fourths(*m, g, bb, ii, 2)));
    push_all(&mut out, &v.fr[3], Ghost(carry_fourths(*m, g, bb, ii, 3)));
    push_all(&mut out, &v.fr[4], Ghost(carry_fourths(*m, g, bb, ii, 4)));
    push_all(&mut out, &v.fr[5], Ghost(carry_fourths(*m, g, bb, ii, 5)));
    push_all(&mut out, &v.fr[6], Ghost(carry_fourths(*m, g, bb, ii, 6)));
    push_all(&mut out, &v.fr[7], Ghost(carry_fourths(*m, g, bb, ii, 7)));
    push_all(&mut out, &v.lch[0], Ghost(limb_chain(*m, g, bb, ii, 0)));
    push_all(&mut out, &v.lch[1], Ghost(limb_chain(*m, g, bb, ii, 1)));
    push_all(&mut out, &v.lch[2], Ghost(limb_chain(*m, g, bb, ii, 2)));
    push_all(&mut out, &v.lch[3], Ghost(limb_chain(*m, g, bb, ii, 3)));
    push_all(&mut out, &v.lch[4], Ghost(limb_chain(*m, g, bb, ii, 4)));
    push_all(&mut out, &v.lch[5], Ghost(limb_chain(*m, g, bb, ii, 5)));
    out
}

// ---------------------------------------------------------------
// Writing
// ---------------------------------------------------------------

/// Every narrow cell fits the type of its column.
pub open spec fn words_fit(words: Seq<u64>) -> bool {
    &&& words.len() == 445
    &&& forall|c: int|
        0 <= c < 445 ==> match columns::column_type(c) {
            ColumnType::B32 => (#[trigger] words[c]) <= u32::MAX,
            ColumnType::Bit => words[c] <= 1,
            _ => true,
        }
}

/// `tb` is `before` with `values` in the columns of one row from `first` on.
pub open spec fn replaced(
    tb: TraceBuilder,
    before: TraceBuilder,
    row: int,
    first: int,
    values: Seq<u128>,
) -> bool {
    &&& tb.same_shape(&before)
    &&& forall|c: int, r: int|
        #![trigger tb.at(c, r)]
        before.in_range(c, r) ==> tb.at(c, r) == (if r == row && first <= c < first
            + values.len() {
            values[c - first]
        } else {
            before.at(c, r)
        })
}

/// Words as elements.
pub open spec fn word_values(words: Seq<u64>) -> Seq<u128> {
    Seq::new(words.len(), |c: int| words[c] as u128)
}

/// A row of a trace is its narrow cells, then its powers.
pub proof fn law_row_is_words_and_powers(m: Modexp, g: u128, request: u32, row: int)
    requires
        m.wf(),
        0 <= row < 1024,
    ensures
        table_row(m, g, request, row).len() == 3447,
        forall|c: int|
            0 <= c < 3447 ==> #[trigger] table_row(m, g, request, row)[c] == (if c < 445 {
                words_of(m, request, row)[c] as u128
            } else {
                powers_of(m, g, row)[c - 445]
            }),
{
    reveal(table_row);
    lemma_power_lengths(m, g, row / 32, row % 32);
}

/// Writes one narrow cell.
fn put_word(tb: &mut TraceBuilder, col: usize, row: usize, word: u64)
    requires
        old(tb).wf(),
        old(tb).layout() == columns::physical_layout(),
        col < 445,
        row < old(tb).height(),
        match columns::column_type(col as int) {
            ColumnType::B32 => word <= u32::MAX,
            ColumnType::Bit => word <= 1,
            _ => true,
        },
    ensures
        final(tb).same_shape(old(tb)),
        final(tb).wrote_at(old(tb), col as int, row as int, word as u128),
{
    assert(old(tb).layout()[col as int] == columns::column_type(col as int));
    let res = if col < 2 || (396 <= col && col < 405) {
        tb.set_b64(col, row, Block64(word))
    } else if col < 406 {
        tb.set_b32(col, row, Block32(word as u32))
    } else {
        tb.set_bit(col, row, Bit(word as u8))
    };
    assert(res is Ok);
}

/// Writes the narrow cells of a row.
fn put_words(tb: &mut TraceBuilder, row: usize, words: &Vec<u64>)
    requires
        old(tb).wf(),
        old(tb).layout() == columns::physical_layout(),
        row < old(tb).height(),
        words_fit(words@),
    ensures
        replaced(*final(tb), *old(tb), row as int, 0, word_values(words@)),
{
    let ghost want = word_values(words@);
    let mut c: usize = 0;
    while c < 445
        invariant
            c <= 445,
            words_fit(words@),
            want == word_values(words@),
            old(tb).wf(),
            old(tb).layout() == columns::physical_layout(),
            row < old(tb).height(),
            replaced(*tb, *old(tb), row as int, 0, want.take(c as int)),
        decreases 445 - c,
    {
        let ghost t0 = *tb;
        let word: u64 = words[c];
        assert(words@[c as int] == word);
        put_word(tb, c, row, word);
        proof {
            assert forall|k: int, r: int|
                #![trigger tb.at(k, r)]
                old(tb).in_range(k, r) implies tb.at(k, r) == (if r == row && 0 <= k < c + 1 {
                want.take(c + 1)[k]
            } else {
                old(tb).at(k, r)
            }) by {
                assert(t0.in_range(k, r));
                let _ = t0.at(k, r);
            }
        }
        c = c + 1;
    }
    proof {
        assert(want.take(445) =~= want);
    }
}

/// Writes the wide cells of a row.
fn put_cells(tb: &mut TraceBuilder, row: usize, cells: &Vec<Flat<Block128>>)
    requires
        old(tb).wf(),
        old(tb).layout() == columns::physical_layout(),
        row < old(tb).height(),
        cells@.len() == 3002,
    ensures
        replaced(*final(tb), *old(tb), row as int, 445, constraint::flat_values(cells@)),
{
    let ghost want = constraint::flat_values(cells@);
    let mut j: usize = 0;
    while j < cells.len()
        invariant
            j <= cells@.len(),
            cells@.len() == 3002,
            want == constraint::flat_values(cells@),
            want.len() == 3002,
            old(tb).wf(),
            old(tb).layout() == columns::physical_layout(),
            row < old(tb).height(),
            replaced(*tb, *old(tb), row as int, 445, want.take(j as int)),
        decreases 3002 - j,
    {
        let ghost t0 = *tb;
        assert(tb.layout()[445 + j] == columns::column_type(445 + j));
        let res = tb.set_b128_flat(445 + j, row, cells[j]);
        assert(res is Ok);
        proof {
            assert(want[j as int] == cells@[j as int]@);
            assert forall|k: int, r: int|
                #![trigger tb.at(k, r)]
                old(tb).in_range(k, r) implies tb.at(k, r) == (if r == row && 445 <= k < 445 + j
                + 1 {
                want.take(j + 1)[k - 445]
            } else {
                old(tb).at(k, r)
            }) by {
                assert(t0.in_range(k, r));
                let _ = t0.at(k, r);
            }
        }
        j = j + 1;
    }
    proof {
        assert(want.take(3002) =~= want);
    }
}

/// The narrow cells of a row fit their columns.
pub proof fn lemma_words_fit(m: Modexp, request: u32, row: int)
    requires
        m.wf(),
        0 <= row < 1024,
    ensures
        words_fit(words_of(m, request, row)),
{
    let (b, i) = (row / 32, row % 32);
    let (head, mid) = (limb_words(m, b, i), carry_words(m, b, i));
    let words = words_of(m, request, row);
    let step = m.steps()[b];
    exponents::lemma_sum_carry_bit(step.r@, step.w@, 2 * i);
    exponents::lemma_sum_carry_bit(step.r@, step.w@, 2 * i + 1);
    assert(head.len() == 396);
    assert(mid.len() == 8 && flags(m, row).len() == 7 && onehot(i).len() == 32);
    assert forall|c: int| 0 <= c < 445 implies match columns::column_type(c) {
        ColumnType::B32 => (#[trigger] words[c]) <= u32::MAX,
        ColumnType::Bit => words[c] <= 1,
        _ => true,
    } by {
        if 2 <= c < 396 {
            assert(words[c] == head[c]);
            lemma_limb_word_small(m, b, i, c);
        } else if c == 405 {
            assert(words[c] == request_word(request, row));
        } else if 406 <= c < 413 {
            assert(words[c] == flags(m, row)[c - 406]);
        } else if c >= 413 {
            assert(words[c] == onehot(i)[c - 413]);
        }
    }
}

proof fn lemma_limb_word_small(m: Modexp, b: int, i: int, c: int)
    requires
        m.wf(),
        0 <= b < 32,
        0 <= i < 32,
        2 <= c < 396,
    ensures
        limb_words(m, b, i)[c] <= u32::MAX,
{
    let step = m.steps()[b];
    let head = limb_words(m, b, i);
    if c < 66 {
        assert(head[c] == widened(m.s_limbs())[c - 2]);
    } else if c < 130 {
        assert(head[c] == widened(step.x@)[c - 66]);
    } else if c < 194 {
        assert(head[c] == widened(step.y@)[c - 130]);
    } else if c < 258 {
        assert(head[c] == widened(m.n_limbs())[c - 194]);
    } else if c < 322 {
        assert(head[c] == widened(step.r@)[c - 258]);
    } else if c < 386 {
        assert(head[c] == widened(step.w@)[c - 322]);
    } else if c < 392 {
        assert(head[c] == widened(rows::sel_of(m, b, i))[c - 386]);
    } else {
        assert(head[c] == widened(rows::digits_of(m, b, i))[c - 392]);
    }
}

proof fn lemma_power_lengths(m: Modexp, g: u128, b: int, i: int)
    requires
        m.wf(),
        0 <= b < 32,
    ensures
        side_powers(m, g, b, i).len() == 2442,
        word_powers(m, g, b, i).len() == 560,
{
    assert(exponents::right(m, 0, b).len() == 64 && exponents::right(m, 1, b).len() == 64);
}

/// The narrow cells of all rows: the limbs, digits, carries and selectors of
/// an exponentiation, without the powers.
pub fn write_words(tb: &mut TraceBuilder, modexp: &Modexp, request_idx: u32)
    requires
        old(tb).wf(),
        old(tb).layout() == columns::physical_layout(),
        old(tb).height() == 1024,
        modexp.wf(),
    ensures
        final(tb).same_shape(old(tb)),
        forall|c: int, r: int|
            0 <= c < 3447 && 0 <= r < 1024 ==> #[trigger] final(tb).at(c, r) == (if c < 445 {
                words_of(*modexp, request_idx, r)[c] as u128
            } else {
                old(tb).at(c, r)
            }),
{
    let mut row: usize = 0;
    while row < NUM_ROWS
        invariant
            row <= 1024,
            modexp.wf(),
            old(tb).wf(),
            old(tb).layout() == columns::physical_layout(),
            old(tb).height() == 1024,
            tb.same_shape(old(tb)),
            forall|c: int, r: int|
                0 <= c < 3447 && 0 <= r < 1024 ==> #[trigger] tb.at(c, r) == (if c < 445 && r
                    < row {
                    words_of(*modexp, request_idx, r)[c] as u128
                } else {
                    old(tb).at(c, r)
                }),
        decreases 1024 - row,
    {
        let ghost t0 = *tb;
        let words = row_words(modexp, row, request_idx);
        proof {
            lemma_words_fit(*modexp, request_idx, row as int);
        }
        put_words(tb, row, &words);
        proof {
            assert forall|c: int, r: int| 0 <= c < 3447 && 0 <= r < 1024 implies
                #[trigger] tb.at(c, r) == (if c < 445 && r < row + 1 {
                words_of(*modexp, request_idx, r)[c] as u128
            } else {
                old(tb).at(c, r)
            }) by {
                assert(t0.in_range(c, r));
                let _ = t0.at(c, r);
            }
        }
        row = row + 1;
    }
}

/// The powers of a row of the table.
pub open spec fn powers_of(m: Modexp, g: u128, row: int) -> Seq<u128> {
    side_powers(m, g, row / 32, row % 32) + word_powers(m, g, row / 32, row % 32)
}

/// Writes the powers of a row of the table.
fn write_row(
    tb: &mut TraceBuilder,
    m: &Modexp,
    row: usize,
    v: &RowValues,
    Ghost(g): Ghost<u128>,
)
    requires
        old(tb).wf(),
        old(tb).layout() == columns::physical_layout(),
        old(tb).height() == 1024,
        m.wf(),
        row < 1024,
        is_row(*v, *m, g, row as int),
    ensures
        replaced(*final(tb), *old(tb), row as int, 445, powers_of(*m, g, row as int)),
        powers_of(*m, g, row as int).len() == 3002,
{
    let ghost (bb, ii) = ((row / 32) as int, (row % 32) as int);
    proof {
        reveal(is_row);
    }
    let mut cells = side_cells(m, v, Ghost(g), Ghost(bb), Ghost(ii));
    let rest = word_cells(m, v, Ghost(g), Ghost(bb), Ghost(ii));
    push_all(&mut cells, &rest, Ghost(word_powers(*m, g, bb, ii)));
    proof {
        lemma_power_lengths(*m, g, bb, ii);
        assert(constraint::flat_values(cells@).len() == cells@.len());
        assert(constraint::flat_values(cells@) == powers_of(*m, g, row as int));
    }
    put_cells(tb, row, &cells);
}

/// The values are those of `row`.
#[verifier::opaque]
spec fn is_row(v: RowValues, m: Modexp, g: u128, row: int) -> bool {
    &&& v.own_part(m, g, row / 32, row % 32)
    &&& v.head_part(m, g, row / 32, row % 32)
    &&& v.tail_part(m, g, row / 32, row % 32)
}

/// The values are those that seed `row`.
#[verifier::opaque]
spec fn seeds(v: RowValues, m: Modexp, g: u128, row: int) -> bool {
    &&& v.shaped()
    &&& v.rc_next <= 1
    &&& row == 0 ==> v.own_part(m, g, 31, 31) && v.head_part(m, g, 31, 31)
    &&& row > 0 ==> is_row(v, m, g, row - 1)
}

/// The values that seed the first row: those of the last block, walked on its
/// own.
fn walk_last_block(basis: &ExpBasis, modexp: &Modexp) -> (r: RowValues)
    requires
        basis.wf(),
        modexp.wf(),
    ensures
        seeds(r, *modexp, basis.g(), 0),
{
    let ghost g = basis.g();
    let mut values = RowValues::zeroed();
    let mut row: usize = NUM_ROWS - ROWS_PER_MODMUL;
    while row < NUM_ROWS
        invariant
            992 <= row <= 1024,
            basis.wf(),
            modexp.wf(),
            g == basis.g(),
            values.shaped(),
            values.rc_next <= 1,
            row > 992 ==> values.own_part(*modexp, g, 31, row - 993) && values.head_part(
                *modexp,
                g,
                31,
                row - 993,
            ),
        decreases 1024 - row,
    {
        assert(row / 32 == 31 && row % 32 == row - 992);
        let ghost before = values;
        values = modexp.row(basis, row, &values);
        proof {
            modexp.lemma_step(g, row as int, before, values);
        }
        row = row + 1;
    }
    proof {
        reveal(seeds);
    }
    values
}

/// The values of a row from those that seed it.
fn step_row(basis: &ExpBasis, modexp: &Modexp, row: usize, before: &RowValues) -> (r: RowValues)
    requires
        basis.wf(),
        modexp.wf(),
        row < 1024,
        seeds(*before, *modexp, basis.g(), row as int),
    ensures
        is_row(r, *modexp, basis.g(), row as int),
        seeds(r, *modexp, basis.g(), row + 1),
        r.sized(),
        r.balanced(),
{
    let ghost g = basis.g();
    proof {
        reveal(seeds);
        reveal(is_row);
        if row > 0 {
            if row % 32 == 0 {
                assert((row - 1) / 32 == exponents::block_before((row / 32) as int) && (row - 1)
                    % 32 == 31);
            } else {
                assert((row - 1) / 32 == row / 32 && (row - 1) % 32 == row % 32 - 1);
            }
        }
    }
    let r = modexp.row(basis, row, before);
    proof {
        modexp.lemma_step(g, row as int, *before, r);
        modexp.lemma_rows_balance(r, g, (row / 32) as int, (row % 32) as int);
    }
    r
}

/// The trace of an exponentiation. The last block is walked once before the
/// first row: its running columns and carries wrap into it.
///
/// # Errors
/// The values of a row do not balance. Those of an exponentiation do.
pub fn generate_trace(
    basis: &ExpBasis,
    layout: &Layout,
    modexp: &Modexp,
    request_idx: u32,
) -> (res: Result<ColumnTrace, Error>)
    requires
        basis.wf(),
        layout.wf(),
        modexp.wf(),
    ensures
        res is Ok,
        res matches Ok(t) ==> t.wf() && t.num_vars == 10 && t.layout()
            == columns::physical_layout() && forall|r: int|
            0 <= r < 1024 ==> #[trigger] t.row(r) == table_row(
                *modexp,
                basis.g(),
                request_idx,
                r,
            ),
{
    let ghost g = basis.g();
    proof {
        lemma2_to64();
    }
    let mut tb = TraceBuilder::new(layout.physical.as_slice(), NUM_VARS)?;
    write_words(&mut tb, modexp, request_idx);
    let mut values = walk_last_block(basis, modexp);
    let mut row: usize = 0;
    while row < NUM_ROWS
        invariant
            row <= 1024,
            basis.wf(),
            modexp.wf(),
            g == basis.g(),
            tb.wf(),
            tb.layout() == columns::physical_layout(),
            tb.height() == 1024,
            tb.vars() == 10,
            seeds(values, *modexp, g, row as int),
            forall|c: int, r: int|
                0 <= c < 445 && 0 <= r < 1024 ==> #[trigger] tb.at(c, r) == words_of(
                    *modexp,
                    request_idx,
                    r,
                )[c] as u128,
            forall|c: int, r: int|
                445 <= c < 3447 && 0 <= r < row ==> #[trigger] tb.at(c, r) == powers_of(
                    *modexp,
                    g,
                    r,
                )[c - 445],
        decreases 1024 - row,
    {
        values = step_row(basis, modexp, row, &values);
        values.check()?;
        let ghost t0 = tb;
        write_row(&mut tb, modexp, row, &values, Ghost(g));
        proof {
            assert forall|c: int, r: int| 0 <= c < 445 && 0 <= r < 1024 implies
                #[trigger] tb.at(c, r) == words_of(*modexp, request_idx, r)[c] as u128 by {
                assert(t0.in_range(c, r));
                let _ = t0.at(c, r);
            }
            assert forall|c: int, r: int| 445 <= c < 3447 && 0 <= r < row + 1 implies
                #[trigger] tb.at(c, r) == powers_of(*modexp, g, r)[c - 445] by {
                assert(t0.in_range(c, r));
                let _ = t0.at(c, r);
            }
        }
        row = row + 1;
    }
    let t = tb.build();
    proof {
        assert forall|r: int| 0 <= r < 1024 implies #[trigger] t.row(r) == table_row(
            *modexp,
            g,
            request_idx,
            r,
        ) by {
            law_row_is_words_and_powers(*modexp, g, request_idx, r);
            assert(t.layout().len() == 3447);
            assert(t.columns@.len() == 3447);
            assert forall|c: int| 0 <= c < 3447 implies #[trigger] t.row(r)[c] == table_row(
                *modexp,
                g,
                request_idx,
                r,
            )[c] by {
                assert(t.at(c, r) == tb.at(c, r));
            }
            assert(t.row(r) =~= table_row(*modexp, g, request_idx, r));
        }
    }
    Ok(t)
}

} // verus!
