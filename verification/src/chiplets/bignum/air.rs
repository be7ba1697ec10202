//! The constraints of the exponentiation table.

use vstd::arithmetic::power2::*;
use vstd::prelude::*;

use super::columns;
use super::columns::{
    half, ModexpCols, ARR_N, ARR_R, ARR_S, ARR_W, ARR_X, ARR_Y, CARRY_HI_BITS, CARRY_WORDS,
    DIGIT_BITS, ROWS_PER_MODMUL, V32, Y_BITS,
};
use super::modmul::LIMBS32;
use super::sides;
use crate::atoms::exp_form;
use crate::atoms::exp_form::ExpBasis;
use crate::field::gf;
use crate::field::Block128;
use crate::program::circuit::{Col, ColRange};
use crate::program::constraint;
use crate::program::constraint::{ConstraintSystem, Env, Expr};

verus! {

// ---------------------------------------------------------------
// What is imposed
// ---------------------------------------------------------------

/// A cell of the current row.
pub open spec fn here(env: Env, c: Col) -> u128 {
    env.cur[c.0 as int]
}

/// A cell of the next row.
pub open spec fn after(env: Env, c: Col) -> u128 {
    env.next[c.0 as int]
}

/// Column `j` of a range.
pub open spec fn nth(r: ColRange, j: int) -> Col {
    Col((r.start + j) as usize)
}

/// The cells of a range in the current row.
pub open spec fn run(env: Env, r: ColRange) -> Seq<u128> {
    constraint::cells(env.cur, r.start as int, r.len as nat)
}

/// The carries of `r + w + 1` are bits, and the cells above the high bits of
/// the carries are zero.
pub open spec fn flag_roots(k: ModexpCols, env: Env) -> Seq<u128> {
    seq![
        constraint::boolean_residue(here(env, k.rc)),
        constraint::boolean_residue(here(env, k.rcm)),
    ] + constraint::cells(env.cur, k.carry_hi_bits.start + 48, 16)
}

/// Limb `j` of the six numbers from row to row: the base and the modulus stay,
/// the others stay within a block, a block starts from the result of the one
/// before, and the first from the base.
pub open spec fn array_row(k: ModexpCols, env: Env, j: int) -> Seq<u128> {
    let (s, x, y, n, r, w) = (
        nth(k.arrays@[0], j),
        nth(k.arrays@[1], j),
        nth(k.arrays@[2], j),
        nth(k.arrays@[3], j),
        nth(k.arrays@[4], j),
        nth(k.arrays@[5], j),
    );
    let stay = 1 ^ here(env, k.block_end);
    seq![
        after(env, s) ^ here(env, s),
        after(env, n) ^ here(env, n),
        gf::gf128_mul(stay, after(env, x) ^ here(env, x)),
        gf::gf128_mul(stay, after(env, y) ^ here(env, y)),
        gf::gf128_mul(stay, after(env, r) ^ here(env, r)),
        gf::gf128_mul(stay, after(env, w) ^ here(env, w)),
        gf::gf128_mul(here(env, k.advance), after(env, x) ^ here(env, r)),
        gf::gf128_mul(
            here(env, k.advance),
            (after(env, y) ^ here(env, r)) ^ gf::gf128_mul(
                here(env, k.into_final),
                here(env, r) ^ here(env, s),
            ),
        ),
        gf::gf128_mul(here(env, k.first), here(env, x) ^ here(env, s)),
        gf::gf128_mul(here(env, k.first), here(env, y) ^ here(env, s)),
    ]
}

/// The rules of the first `n` limbs.
pub open spec fn array_roots(k: ModexpCols, env: Env, n: nat) -> Seq<u128>
    decreases n,
{
    if n == 0 {
        Seq::empty()
    } else {
        array_roots(k, env, (n - 1) as nat) + array_row(k, env, n - 1)
    }
}

/// `Σ a_i · b_i` over the first `n`.
pub open spec fn dot(a: Seq<u128>, b: Seq<u128>, n: nat) -> u128
    decreases n,
{
    if n <= 1 {
        gf::gf128_mul(a[0], b[0])
    } else {
        dot(a, b, (n - 1) as nat) ^ gf::gf128_mul(a[n - 1], b[n - 1])
    }
}

/// The 64-bit limbs of the left factor, packed from its 32-bit limbs.
pub open spec fn paired(k: ModexpCols, env: Env) -> Seq<u128> {
    Seq::new(
        32,
        |i: int|
            here(env, nth(k.arrays@[1], 2 * i)) ^ gf::gf128_mul(
                V32,
                here(env, nth(k.arrays@[1], 2 * i + 1)),
            ),
    )
}

/// Every second limb of a number.
pub open spec fn alternate(k: ModexpCols, env: Env, which: int, parity: int) -> Seq<u128> {
    Seq::new(32, |i: int| here(env, nth(k.arrays@[which], 2 * i + parity)))
}

/// The row's limbs are those that its place in the block selects.
pub open spec fn select_roots(k: ModexpCols, env: Env) -> Seq<u128> {
    let oh = run(env, k.onehot);
    seq![
        here(env, k.xs_packed) ^ dot(oh, paired(k, env), 32),
        here(env, nth(k.sel_packed, 0)) ^ dot(oh, alternate(k, env, 4, 0), 32),
        here(env, nth(k.sel_packed, 1)) ^ dot(oh, alternate(k, env, 4, 1), 32),
        here(env, nth(k.sel_packed, 2)) ^ dot(oh, alternate(k, env, 5, 0), 32),
        here(env, nth(k.sel_packed, 3)) ^ dot(oh, alternate(k, env, 5, 1), 32),
        here(env, nth(k.sel_packed, 4)) ^ dot(oh, alternate(k, env, 3, 0), 32),
        here(env, nth(k.sel_packed, 5)) ^ dot(oh, alternate(k, env, 3, 1), 32),
    ]
}

/// The bits of the 64-bit limb of a side.
pub open spec fn limb_bits(k: ModexpCols, side: int) -> ColRange {
    if side == 0 {
        k.xs_bits
    } else {
        k.q_bits
    }
}

/// The bits of limb `j` of the right factor of a side.
pub open spec fn other_bits(k: ModexpCols, side: int, j: int) -> ColRange {
    if side == 0 {
        columns::range(k.y_bits.start + 32 * j, 32)
    } else {
        columns::range(k.n_bits.start + 32 * j, 32)
    }
}

/// The chain of a limb's products.
pub open spec fn product_range(k: ModexpCols, side: int, j: int) -> ColRange {
    columns::range(k.p@[side].start + 16 * j, 16)
}

/// The limb's power and its squares.
pub open spec fn frobs(k: ModexpCols, env: Env, side: int) -> Seq<u128> {
    seq![here(env, nth(k.xa@[side], 31))] + run(env, k.yf@[side])
}

/// The limb of a side as an exponent, and the squares of its power.
pub open spec fn limb_roots(k: ModexpCols, g: u128, env: Env, side: int) -> Seq<u128> {
    exp_form::chain_roots(
        run(env, limb_bits(k, side)),
        run(env, k.xa@[side]),
        exp_form::generator_powers(g, 64),
    ) + exp_form::squaring_roots(here(env, nth(k.xa@[side], 31)), run(env, k.yf@[side]))
}

/// The chains of the limb's products with the first `n` limbs of the right
/// factor.
pub open spec fn product_roots(k: ModexpCols, env: Env, side: int, n: nat) -> Seq<u128>
    decreases n,
{
    if n == 0 {
        Seq::empty()
    } else {
        product_roots(k, env, side, (n - 1) as nat) + exp_form::chain_roots(
            run(env, other_bits(k, side, n - 1)),
            run(env, product_range(k, side, n - 1)),
            frobs(k, env, side),
        )
    }
}

/// Running column `c` of the next row is what stands two columns further,
/// times the next row's product; a new block starts afresh and hands its
/// columns to the tail.
pub open spec fn running_row(k: ModexpCols, env: Env, side: int, c: int) -> Seq<u128> {
    let be = here(env, k.block_end);
    let (u, ut) = (here(env, nth(k.u@[side], c + 2)), here(env, nth(k.ut@[side], c + 2)));
    let (prior_u, prior_ut) = if c + 2 < 64 {
        (
            gf::gf128_mul(1 ^ be, u) ^ be,
            gf::gf128_mul(1 ^ be, ut) ^ gf::gf128_mul(be, u),
        )
    } else {
        (1, 1)
    };
    seq![
        after(env, nth(k.u@[side], c)) ^ gf::gf128_mul(
            prior_u,
            after(env, nth(k.p@[side], 16 * c + 15)),
        ),
        after(env, nth(k.ut@[side], c)) ^ prior_ut,
    ]
}

pub open spec fn running_roots(k: ModexpCols, env: Env, side: int, n: nat) -> Seq<u128>
    decreases n,
{
    if n == 0 {
        Seq::empty()
    } else {
        running_roots(k, env, side, (n - 1) as nat) + running_row(k, env, side, n - 1)
    }
}

/// Carries run from row to row, into the tail where a block ends, and out of
/// no block.
pub open spec fn link_roots(k: ModexpCols, env: Env, side: int) -> Seq<u128> {
    let be = here(env, k.block_end);
    seq![
        gf::gf128_mul(1 ^ be, after(env, k.c@[side]) ^ here(env, k.co@[side])),
        gf::gf128_mul(be, after(env, k.ct@[side]) ^ here(env, k.co@[side])),
        gf::gf128_mul(be, after(env, k.c@[side]) ^ 1),
        gf::gf128_mul(1 ^ be, after(env, k.ct@[side]) ^ here(env, k.cto@[side])),
        gf::gf128_mul(be, here(env, k.cto@[side]) ^ 1),
    ]
}

/// The bits of carry word `word`.
pub open spec fn carry_bits(k: ModexpCols, env: Env, word: int) -> Seq<u128> {
    constraint::cells(env.cur, k.carry_lo_bits.start + 64 * word, 64) + constraint::cells(
        env.cur,
        k.carry_hi_bits.start + 6 * word,
        6,
    )
}

/// A carry as an exponent, ending in column `end`, and its fourth powers.
pub open spec fn word_roots(k: ModexpCols, g: u128, env: Env, word: int, end: Col) -> Seq<u128> {
    exp_form::chain_roots(
        carry_bits(k, env, word),
        run(env, k.ce@[word]).push(here(env, end)),
        exp_form::generator_powers(g, 70),
    ) + exp_form::fourth_roots(here(env, end), run(env, k.fr@[word]))
}

/// The power of digit `d`.
pub open spec fn digit_at(k: ModexpCols, env: Env, d: int) -> u128 {
    here(env, nth(k.dg@[d], 15))
}

/// The power of carry `word`, shifted by one digit.
pub open spec fn shifted_at(k: ModexpCols, env: Env, word: int) -> u128 {
    here(env, nth(k.fr@[word], 15))
}

/// The power of selected limb `w`.
pub open spec fn limb_at(k: ModexpCols, env: Env, w: int) -> u128 {
    here(env, nth(k.lch@[w], 15))
}

/// The power of the limb of `r` that a side adds.
pub open spec fn added_at(k: ModexpCols, env: Env, side: int, parity: int) -> u128 {
    if side == 0 {
        1
    } else {
        limb_at(k, env, parity)
    }
}

/// The columns that a row finishes split into digits and carries.
pub open spec fn split_roots(k: ModexpCols, env: Env, side: int) -> Seq<u128> {
    seq![
        gf::gf128_mul(
            gf::gf128_mul(here(env, nth(k.u@[side], 0)), here(env, k.c@[side])),
            added_at(k, env, side, 0),
        ) ^ gf::gf128_mul(digit_at(k, env, 0), shifted_at(k, env, 2 * side)),
        gf::gf128_mul(
            gf::gf128_mul(here(env, nth(k.u@[side], 1)), here(env, k.cm@[side])),
            added_at(k, env, side, 1),
        ) ^ gf::gf128_mul(digit_at(k, env, 1), shifted_at(k, env, 2 * side + 1)),
        gf::gf128_mul(here(env, nth(k.ut@[side], 0)), here(env, k.ct@[side])) ^ gf::gf128_mul(
            digit_at(k, env, 2),
            shifted_at(k, env, 4 + 2 * side),
        ),
        gf::gf128_mul(here(env, nth(k.ut@[side], 1)), here(env, k.ctm@[side])) ^ gf::gf128_mul(
            digit_at(k, env, 3),
            shifted_at(k, env, 4 + 2 * side + 1),
        ),
    ]
}

/// What one side of the product imposes.
pub open spec fn side_roots(k: ModexpCols, g: u128, env: Env, side: int) -> Seq<u128> {
    limb_roots(k, g, env, side) + product_roots(k, env, side, 64) + running_roots(k, env, side, 64)
        + link_roots(k, env, side) + word_roots(k, g, env, 2 * side, k.cm@[side]) + word_roots(
        k,
        g,
        env,
        2 * side + 1,
        k.co@[side],
    ) + word_roots(k, g, env, 4 + 2 * side, k.ctm@[side]) + word_roots(
        k,
        g,
        env,
        4 + 2 * side + 1,
        k.cto@[side],
    ) + split_roots(k, env, side)
}

/// A 32-bit word as an exponent.
pub open spec fn short_roots(g: u128, env: Env, bits: ColRange, cells: ColRange) -> Seq<u128> {
    exp_form::chain_roots(run(env, bits), run(env, cells), exp_form::generator_powers(g, 32))
}

/// The first `n` digits as exponents.
pub open spec fn digit_roots(k: ModexpCols, g: u128, env: Env, n: nat) -> Seq<u128>
    decreases n,
{
    if n == 0 {
        Seq::empty()
    } else {
        digit_roots(k, g, env, (n - 1) as nat) + short_roots(
            g,
            env,
            columns::range(k.digit_bits.start + 32 * (n - 1), 32),
            k.dg@[n - 1],
        )
    }
}

/// The first `n` selected limbs as exponents.
pub open spec fn sel_roots(k: ModexpCols, g: u128, env: Env, n: nat) -> Seq<u128>
    decreases n,
{
    if n == 0 {
        Seq::empty()
    } else {
        sel_roots(k, g, env, (n - 1) as nat) + short_roots(
            g,
            env,
            columns::range(k.sel_bits.start + 32 * (n - 1), 32),
            k.lch@[n - 1],
        )
    }
}

/// `r + w` and the carry give the limbs of `N`, and a block starts with the
/// carry one.
pub open spec fn sum_roots(k: ModexpCols, g: u128, env: Env) -> Seq<u128> {
    let (step, shift) = (g ^ 1, gf::gf128_pow(g, pow2(32)) ^ 1);
    let (rc, rcm) = (here(env, k.rc), here(env, k.rcm));
    let be = here(env, k.block_end);
    let out = gf::gf128_mul(1 ^ be, after(env, k.rc));
    seq![
        gf::gf128_mul(
            gf::gf128_mul(limb_at(k, env, 0), limb_at(k, env, 2)),
            1 ^ gf::gf128_mul(rc, step),
        ) ^ gf::gf128_mul(limb_at(k, env, 4), 1 ^ gf::gf128_mul(rcm, shift)),
        gf::gf128_mul(
            gf::gf128_mul(limb_at(k, env, 1), limb_at(k, env, 3)),
            1 ^ gf::gf128_mul(rcm, step),
        ) ^ gf::gf128_mul(limb_at(k, env, 5), 1 ^ gf::gf128_mul(out, shift)),
        gf::gf128_mul(be, after(env, k.rc) ^ 1),
    ]
}

/// What the table imposes on a row and the next.
pub open spec fn modexp_roots(k: ModexpCols, g: u128, env: Env) -> Seq<u128> {
    flag_roots(k, env) + array_roots(k, env, 64) + select_roots(k, env) + side_roots(k, g, env, 0)
        + side_roots(k, g, env, 1) + digit_roots(k, g, env, 4) + sel_roots(k, g, env, 6)
        + sum_roots(k, g, env)
}

proof fn lemma_array_count(k: ModexpCols, env: Env, n: nat)
    ensures
        array_roots(k, env, n).len() == 10 * n,
    decreases n,
{
    if n > 0 {
        lemma_array_count(k, env, (n - 1) as nat);
    }
}

proof fn lemma_product_count(k: ModexpCols, env: Env, side: int, n: nat)
    ensures
        product_roots(k, env, side, n).len() == 16 * n,
    decreases n,
{
    if n > 0 {
        lemma_product_count(k, env, side, (n - 1) as nat);
    }
}

proof fn lemma_running_count(k: ModexpCols, env: Env, side: int, n: nat)
    ensures
        running_roots(k, env, side, n).len() == 2 * n,
    decreases n,
{
    if n > 0 {
        lemma_running_count(k, env, side, (n - 1) as nat);
    }
}

proof fn lemma_digit_count(k: ModexpCols, g: u128, env: Env, n: nat)
    requires
        k.wf(),
        n <= 4,
    ensures
        digit_roots(k, g, env, n).len() == 16 * n,
    decreases n,
{
    if n > 0 {
        lemma_digit_count(k, g, env, (n - 1) as nat);
    }
}

proof fn lemma_sel_count(k: ModexpCols, g: u128, env: Env, n: nat)
    requires
        k.wf(),
        n <= 6,
    ensures
        sel_roots(k, g, env, n).len() == 16 * n,
    decreases n,
{
    if n > 0 {
        lemma_sel_count(k, g, env, (n - 1) as nat);
    }
}

proof fn lemma_side_count(k: ModexpCols, g: u128, env: Env, side: int)
    requires
        k.wf(),
        0 <= side < 2,
    ensures
        side_roots(k, g, env, side).len() == 1428,
{
    lemma_product_count(k, env, side, 64);
    lemma_running_count(k, env, side, 64);
    assert(limb_roots(k, g, env, side).len() == 63);
    assert(word_roots(k, g, env, 2 * side, k.cm@[side]).len() == 51);
    assert(word_roots(k, g, env, 2 * side + 1, k.co@[side]).len() == 51);
    assert(word_roots(k, g, env, 4 + 2 * side, k.ctm@[side]).len() == 51);
    assert(word_roots(k, g, env, 4 + 2 * side + 1, k.cto@[side]).len() == 51);
}

/// The table imposes 3684 constraints on a row and the next.
pub proof fn lemma_num_roots(k: ModexpCols, g: u128, env: Env)
    requires
        k.wf(),
    ensures
        modexp_roots(k, g, env).len() == 3684,
{
    lemma_array_count(k, env, 64);
    lemma_side_count(k, g, env, 0);
    lemma_side_count(k, g, env, 1);
    lemma_digit_count(k, g, env, 4);
    lemma_sel_count(k, g, env, 6);
}

// ---------------------------------------------------------------
// Imposing it
// ---------------------------------------------------------------

/// The selectors that many constraints share.
#[derive(Clone, Copy)]
struct Shared {
    one: Expr,
    block_end: Expr,
    not_block_end: Expr,
    advance: Expr,
    first: Expr,
    into_final: Expr,
}

impl Shared {
    spec fn stands(self, cs: ConstraintSystem, k: ModexpCols) -> bool {
        &&& cs.has(self.one)
        &&& cs.has(self.block_end)
        &&& cs.has(self.not_block_end)
        &&& cs.has(self.advance)
        &&& cs.has(self.first)
        &&& cs.has(self.into_final)
        &&& cs.degree(self.one) == 0
        &&& cs.degree(self.block_end) == 1
        &&& cs.degree(self.not_block_end) == 1
        &&& cs.degree(self.advance) == 1
        &&& cs.degree(self.first) == 1
        &&& cs.degree(self.into_final) == 1
        &&& forall|env: Env| #[trigger] cs.value(self.one, env) == 1
        &&& forall|env: Env| #[trigger] cs.value(self.block_end, env) == here(env, k.block_end)
        &&& forall|env: Env|
            #[trigger] cs.value(self.not_block_end, env) == 1 ^ here(env, k.block_end)
        &&& forall|env: Env| #[trigger] cs.value(self.advance, env) == here(env, k.advance)
        &&& forall|env: Env| #[trigger] cs.value(self.first, env) == here(env, k.first)
        &&& forall|env: Env| #[trigger] cs.value(self.into_final, env) == here(env, k.into_final)
    }

    fn new(cs: &mut ConstraintSystem, k: &ModexpCols) -> (r: Self)
        requires
            old(cs).wf(),
        ensures
            final(cs).wf(),
            final(cs).extends(*old(cs)),
            final(cs).root_degrees() == old(cs).root_degrees(),
            r.stands(*final(cs), *k),
            forall|env: Env| (#[trigger] final(cs).root_values(env)) == old(cs).root_values(env),
    {
        let one = cs.one();
        let block_end = cs.col(k.block_end.0);
        let not_block_end = cs.plus(one, block_end);
        let advance = cs.col(k.advance.0);
        let first = cs.col(k.first.0);
        let into_final = cs.col(k.into_final.0);
        Shared { one, block_end, not_block_end, advance, first, into_final }
    }
}

/// Imposes [`flag_roots`].
fn constrain_flags(cs: &mut ConstraintSystem, k: &ModexpCols)
    requires
        old(cs).wf(),
        k.wf(),
    ensures
        final(cs).wf(),
        final(cs).extends(*old(cs)),
        old(cs).within(5) ==> final(cs).within(5),
        forall|env: Env|
            (#[trigger] final(cs).root_values(env)) == old(cs).root_values(env) + flag_roots(
                *k,
                env,
            ),
{
    let rc = cs.col(k.rc.0);
    cs.assert_boolean(rc);
    let rcm = cs.col(k.rcm.0);
    cs.assert_boolean(rcm);
    let first: usize = CARRY_WORDS * CARRY_HI_BITS;
    let mut i: usize = 0;
    proof {
        assert forall|env: Env| (#[trigger] cs.root_values(env)) == old(cs).root_values(env)
            + flag_roots(*k, env).take(2) by {
            assert(cs.root_values(env) =~= old(cs).root_values(env) + flag_roots(*k, env).take(2));
        }
    }
    while i < 16
        invariant
            i <= 16,
            first == 48,
            k.wf(),
            cs.wf(),
            cs.extends(*old(cs)),
            old(cs).within(5) ==> cs.within(5),
            forall|env: Env|
                (#[trigger] cs.root_values(env)) == old(cs).root_values(env) + flag_roots(
                    *k,
                    env,
                ).take(2 + i),
        decreases 16 - i,
    {
        let ghost c0 = *cs;
        let cell = cs.col(k.carry_hi_bits.start + first + i);
        cs.constrain(cell);
        proof {
            assert forall|env: Env| (#[trigger] cs.root_values(env)) == old(cs).root_values(env)
                + flag_roots(*k, env).take(2 + i + 1) by {
                let all = flag_roots(*k, env);
                assert(c0.root_values(env) == old(cs).root_values(env) + all.take(2 + i));
                assert(cs.root_values(env) =~= old(cs).root_values(env) + all.take(2 + i + 1));
            }
        }
        i = i + 1;
    }
    proof {
        assert forall|env: Env| (#[trigger] cs.root_values(env)) == old(cs).root_values(env)
            + flag_roots(*k, env) by {
            assert(flag_roots(*k, env).take(18) =~= flag_roots(*k, env));
        }
    }
}

/// Imposes that a cell keeps its value where `stay` is one.
fn constrain_stay(cs: &mut ConstraintSystem, stay: Expr, col: Col)
    requires
        old(cs).wf(),
        old(cs).has(stay),
    ensures
        final(cs).wf(),
        final(cs).extends(*old(cs)),
        final(cs).imposes(*old(cs), old(cs).degree(stay) + 1),
        forall|env: Env|
            (#[trigger] final(cs).root_values(env)) == old(cs).root_values(env).push(
                gf::gf128_mul(old(cs).value(stay, env), after(env, col) ^ here(env, col)),
            ),
{
    let next = cs.next(col.0);
    let cur = cs.col(col.0);
    let diff = cs.plus(next, cur);
    let gated = cs.times(stay, diff);
    cs.constrain(gated);
}

/// Imposes that a cell keeps its value.
fn constrain_same(cs: &mut ConstraintSystem, col: Col)
    requires
        old(cs).wf(),
    ensures
        final(cs).wf(),
        final(cs).extends(*old(cs)),
        final(cs).imposes(*old(cs), 1),
        forall|env: Env|
            (#[trigger] final(cs).root_values(env)) == old(cs).root_values(env).push(
                after(env, col) ^ here(env, col),
            ),
{
    let next = cs.next(col.0);
    let cur = cs.col(col.0);
    let diff = cs.plus(next, cur);
    cs.constrain(diff);
}

/// Imposes [`array_row`].
fn constrain_array(cs: &mut ConstraintSystem, k: &ModexpCols, sh: Shared, j: usize)
    requires
        old(cs).wf(),
        k.wf(),
        sh.stands(*old(cs), *k),
        j < 64,
    ensures
        final(cs).wf(),
        final(cs).extends(*old(cs)),
        old(cs).within(5) ==> final(cs).within(5),
        forall|env: Env|
            (#[trigger] final(cs).root_values(env)) == old(cs).root_values(env) + array_row(
                *k,
                env,
                j as int,
            ),
{
    let s = k.arrays[ARR_S].at(j);
    let x = k.arrays[ARR_X].at(j);
    let y = k.arrays[ARR_Y].at(j);
    let n = k.arrays[ARR_N].at(j);
    let r = k.arrays[ARR_R].at(j);
    let w = k.arrays[ARR_W].at(j);
    constrain_same(cs, s);
    constrain_same(cs, n);
    constrain_stay(cs, sh.not_block_end, x);
    constrain_stay(cs, sh.not_block_end, y);
    constrain_stay(cs, sh.not_block_end, r);
    constrain_stay(cs, sh.not_block_end, w);
    let ghost c6 = *cs;
    proof {
        assert forall|env: Env| (#[trigger] cs.root_values(env)) == old(cs).root_values(env)
            + array_row(*k, env, j as int).take(6) by {
            assert(cs.root_values(env) =~= old(cs).root_values(env) + array_row(
                *k,
                env,
                j as int,
            ).take(6));
        }
    }
    let r_j = cs.col(r.0);
    let s_j = cs.col(s.0);
    let x_next = cs.next(x.0);
    let x_step = cs.plus(x_next, r_j);
    let x_root = cs.times(sh.advance, x_step);
    cs.constrain(x_root);
    let y_next = cs.next(y.0);
    let y_step = cs.plus(y_next, r_j);
    let swap = cs.plus(r_j, s_j);
    let swapped = cs.times(sh.into_final, swap);
    let y_want = cs.plus(y_step, swapped);
    let y_root = cs.times(sh.advance, y_want);
    cs.constrain(y_root);
    let x_j = cs.col(x.0);
    let x_start = cs.plus(x_j, s_j);
    let x_first = cs.times(sh.first, x_start);
    cs.constrain(x_first);
    let y_j = cs.col(y.0);
    let y_start = cs.plus(y_j, s_j);
    let y_first = cs.times(sh.first, y_start);
    cs.constrain(y_first);
    proof {
        assert forall|env: Env| (#[trigger] cs.root_values(env)) == old(cs).root_values(env)
            + array_row(*k, env, j as int) by {
            let all = array_row(*k, env, j as int);
            assert(c6.root_values(env) == old(cs).root_values(env) + all.take(6));
            assert(cs.root_values(env) =~= old(cs).root_values(env) + all);
        }
    }
}

/// Imposes [`array_roots`].
fn constrain_arrays(cs: &mut ConstraintSystem, k: &ModexpCols, sh: Shared)
    requires
        old(cs).wf(),
        k.wf(),
        sh.stands(*old(cs), *k),
    ensures
        final(cs).wf(),
        final(cs).extends(*old(cs)),
        old(cs).within(5) ==> final(cs).within(5),
        forall|env: Env|
            (#[trigger] final(cs).root_values(env)) == old(cs).root_values(env) + array_roots(
                *k,
                env,
                64,
            ),
{
    let mut j: usize = 0;
    proof {
        assert forall|env: Env| (#[trigger] cs.root_values(env)) == old(cs).root_values(env)
            + array_roots(*k, env, 0) by {
            assert(cs.root_values(env) =~= old(cs).root_values(env) + array_roots(*k, env, 0));
        }
    }
    while j < LIMBS32
        invariant
            j <= 64,
            k.wf(),
            cs.wf(),
            cs.extends(*old(cs)),
            old(cs).within(5) ==> cs.within(5),
            sh.stands(*old(cs), *k),
            forall|env: Env|
                (#[trigger] cs.root_values(env)) == old(cs).root_values(env) + array_roots(
                    *k,
                    env,
                    j as nat,
                ),
        decreases 64 - j,
    {
        let ghost c0 = *cs;
        constrain_array(cs, k, sh, j);
        proof {
            assert forall|env: Env| (#[trigger] cs.root_values(env)) == old(cs).root_values(env)
                + array_roots(*k, env, (j + 1) as nat) by {
                assert(c0.root_values(env) == old(cs).root_values(env) + array_roots(
                    *k,
                    env,
                    j as nat,
                ));
                assert(cs.root_values(env) =~= old(cs).root_values(env) + array_roots(
                    *k,
                    env,
                    (j + 1) as nat,
                ));
            }
        }
        j = j + 1;
    }
}

/// `Σ a_i · b_i`.
fn dot_product(cs: &mut ConstraintSystem, a: &Vec<Expr>, b: &Vec<Expr>) -> (r: Expr)
    requires
        old(cs).wf(),
        a@.len() == 32,
        b@.len() == 32,
        old(cs).has_all(a@),
        old(cs).has_all(b@),
    ensures
        final(cs).wf(),
        final(cs).has(r),
        final(cs).extends(*old(cs)),
        old(cs).linear(a@) && old(cs).linear(b@) ==> final(cs).degree(r) == 2,
        final(cs).root_degrees() == old(cs).root_degrees(),
        forall|env: Env|
            #[trigger] final(cs).value(r, env) == dot(
                old(cs).values(a@, env),
                old(cs).values(b@, env),
                32,
            ),
        forall|env: Env| (#[trigger] final(cs).root_values(env)) == old(cs).root_values(env),
{
    proof {
        assert(old(cs).has(a@[0]) && old(cs).has(b@[0]));
    }
    let mut acc = cs.times(a[0], b[0]);
    let mut i: usize = 1;
    while i < ROWS_PER_MODMUL
        invariant
            1 <= i <= 32,
            a@.len() == 32,
            b@.len() == 32,
            old(cs).has_all(a@),
            old(cs).has_all(b@),
            cs.wf(),
            cs.has(acc),
            cs.extends(*old(cs)),
            old(cs).linear(a@) && old(cs).linear(b@) ==> cs.degree(acc) == 2,
            cs.root_degrees() == old(cs).root_degrees(),
            forall|env: Env|
                #[trigger] cs.value(acc, env) == dot(
                    old(cs).values(a@, env),
                    old(cs).values(b@, env),
                    i as nat,
                ),
            forall|env: Env| (#[trigger] cs.root_values(env)) == old(cs).root_values(env),
        decreases 32 - i,
    {
        let ghost c0 = *cs;
        let ghost prev = acc;
        proof {
            assert(old(cs).has(a@[i as int]) && old(cs).has(b@[i as int]));
        }
        let term = cs.times(a[i], b[i]);
        acc = cs.plus(acc, term);
        proof {
            assert forall|env: Env| #[trigger] cs.value(acc, env) == dot(
                old(cs).values(a@, env),
                old(cs).values(b@, env),
                (i + 1) as nat,
            ) by {
                assert(c0.value(prev, env) == dot(
                    old(cs).values(a@, env),
                    old(cs).values(b@, env),
                    i as nat,
                ));
            }
        }
        i = i + 1;
    }
    acc
}

/// Every second limb of a number.
fn every_second(cs: &mut ConstraintSystem, k: &ModexpCols, which: usize, parity: usize) -> (r: Vec<
    Expr,
>)
    requires
        old(cs).wf(),
        k.wf(),
        which < 6,
        parity < 2,
    ensures
        final(cs).wf(),
        r@.len() == 32,
        final(cs).has_all(r@),
        final(cs).extends(*old(cs)),
        final(cs).linear(r@),
        final(cs).root_degrees() == old(cs).root_degrees(),
        forall|env: Env|
            #[trigger] final(cs).values(r@, env) == alternate(*k, env, which as int, parity as int),
        forall|env: Env| (#[trigger] final(cs).root_values(env)) == old(cs).root_values(env),
{
    let mut out: Vec<Expr> = Vec::new();
    let mut i: usize = 0;
    while i < ROWS_PER_MODMUL
        invariant
            i <= 32,
            k.wf(),
            which < 6,
            parity < 2,
            cs.wf(),
            out@.len() == i,
            cs.has_all(out@),
            cs.extends(*old(cs)),
            cs.linear(out@),
            cs.root_degrees() == old(cs).root_degrees(),
            forall|env: Env, t: int|
                0 <= t < i ==> #[trigger] cs.value(out@[t], env) == alternate(
                    *k,
                    env,
                    which as int,
                    parity as int,
                )[t],
            forall|env: Env| (#[trigger] cs.root_values(env)) == old(cs).root_values(env),
        decreases 32 - i,
    {
        let ghost c0 = *cs;
        let ghost prev = out@;
        let e = cs.col(k.arrays[which].at(2 * i + parity).0);
        out.push(e);
        proof {
            cs.lemma_has_stable(c0, prev);
            cs.lemma_linear_stable(c0, prev);
            assert forall|env: Env, t: int| 0 <= t < i + 1 implies #[trigger] cs.value(
                out@[t],
                env,
            ) == alternate(*k, env, which as int, parity as int)[t] by {
                if t < i {
                    assert(c0.has(prev[t]));
                    assert(c0.value(prev[t], env) == alternate(
                        *k,
                        env,
                        which as int,
                        parity as int,
                    )[t]);
                }
            }
        }
        i = i + 1;
    }
    proof {
        assert forall|env: Env| #[trigger] cs.values(out@, env) == alternate(
            *k,
            env,
            which as int,
            parity as int,
        ) by {
            assert(cs.values(out@, env) =~= alternate(*k, env, which as int, parity as int));
        }
    }
    out
}

/// The 64-bit limbs of the left factor.
fn pair_limbs(cs: &mut ConstraintSystem, k: &ModexpCols) -> (r: Vec<Expr>)
    requires
        old(cs).wf(),
        k.wf(),
    ensures
        final(cs).wf(),
        r@.len() == 32,
        final(cs).has_all(r@),
        final(cs).extends(*old(cs)),
        final(cs).linear(r@),
        final(cs).root_degrees() == old(cs).root_degrees(),
        forall|env: Env| #[trigger] final(cs).values(r@, env) == paired(*k, env),
        forall|env: Env| (#[trigger] final(cs).root_values(env)) == old(cs).root_values(env),
{
    let v32 = cs.constant(Block128(V32));
    let mut out: Vec<Expr> = Vec::new();
    let mut i: usize = 0;
    while i < ROWS_PER_MODMUL
        invariant
            i <= 32,
            k.wf(),
            cs.wf(),
            cs.has(v32),
            forall|env: Env| #[trigger] cs.value(v32, env) == V32,
            out@.len() == i,
            cs.has_all(out@),
            cs.extends(*old(cs)),
            cs.degree(v32) == 0,
            cs.linear(out@),
            cs.root_degrees() == old(cs).root_degrees(),
            forall|env: Env, t: int|
                0 <= t < i ==> #[trigger] cs.value(out@[t], env) == paired(*k, env)[t],
            forall|env: Env| (#[trigger] cs.root_values(env)) == old(cs).root_values(env),
        decreases 32 - i,
    {
        let ghost c0 = *cs;
        let ghost prev = out@;
        let lo = cs.col(k.arrays[ARR_X].at(2 * i).0);
        let hi = cs.col(k.arrays[ARR_X].at(2 * i + 1).0);
        let up = cs.times(v32, hi);
        let e = cs.plus(lo, up);
        out.push(e);
        proof {
            cs.lemma_has_stable(c0, prev);
            cs.lemma_linear_stable(c0, prev);
            assert forall|env: Env, t: int| 0 <= t < i + 1 implies #[trigger] cs.value(
                out@[t],
                env,
            ) == paired(*k, env)[t] by {
                if t < i {
                    assert(c0.has(prev[t]));
                    assert(c0.value(prev[t], env) == paired(*k, env)[t]);
                }
            }
        }
        i = i + 1;
    }
    proof {
        assert forall|env: Env| #[trigger] cs.values(out@, env) == paired(*k, env) by {
            assert(cs.values(out@, env) =~= paired(*k, env));
        }
    }
    out
}

/// Imposes that a cell is what the row's place selects.
fn constrain_select(cs: &mut ConstraintSystem, onehot: &Vec<Expr>, cell: Col, from: &Vec<Expr>)
    requires
        old(cs).wf(),
        onehot@.len() == 32,
        from@.len() == 32,
        old(cs).has_all(onehot@),
        old(cs).has_all(from@),
    ensures
        final(cs).wf(),
        final(cs).extends(*old(cs)),
        old(cs).linear(onehot@) && old(cs).linear(from@) ==> final(cs).imposes(*old(cs), 2),
        forall|env: Env|
            (#[trigger] final(cs).root_values(env)) == old(cs).root_values(env).push(
                here(env, cell) ^ dot(old(cs).values(onehot@, env), old(cs).values(from@, env), 32),
            ),
{
    let want = dot_product(cs, onehot, from);
    let have = cs.col(cell.0);
    let diff = cs.plus(have, want);
    cs.constrain(diff);
}

/// Imposes one selected limb.
fn constrain_limb(
    cs: &mut ConstraintSystem,
    k: &ModexpCols,
    onehot: &Vec<Expr>,
    w: usize,
    which: usize,
    parity: usize,
)
    requires
        old(cs).wf(),
        k.wf(),
        w < 6,
        which < 6,
        parity < 2,
        onehot@.len() == 32,
        old(cs).has_all(onehot@),
        old(cs).linear(onehot@),
        forall|env: Env| #[trigger] old(cs).values(onehot@, env) == run(env, k.onehot),
    ensures
        final(cs).wf(),
        final(cs).extends(*old(cs)),
        final(cs).linear(onehot@),
        old(cs).within(5) ==> final(cs).within(5),
        final(cs).has_all(onehot@),
        forall|env: Env| #[trigger] final(cs).values(onehot@, env) == run(env, k.onehot),
        forall|env: Env|
            (#[trigger] final(cs).root_values(env)) == old(cs).root_values(env).push(
                here(env, nth(k.sel_packed, w as int)) ^ dot(
                    run(env, k.onehot),
                    alternate(*k, env, which as int, parity as int),
                    32,
                ),
            ),
{
    let from = every_second(cs, k, which, parity);
    let ghost c1 = *cs;
    proof {
        c1.lemma_has_stable(*old(cs), onehot@);
        c1.lemma_linear_stable(*old(cs), onehot@);
        assert forall|env: Env| #[trigger] c1.values(onehot@, env) == run(env, k.onehot) by {
            c1.lemma_values_stable(*old(cs), onehot@, env);
            assert(old(cs).values(onehot@, env) == run(env, k.onehot));
        }
    }
    constrain_select(cs, onehot, k.sel_packed.at(w), &from);
    proof {
        cs.lemma_has_stable(c1, onehot@);
        cs.lemma_linear_stable(c1, onehot@);
        assert forall|env: Env| #[trigger] cs.values(onehot@, env) == run(env, k.onehot) by {
            cs.lemma_values_stable(c1, onehot@, env);
            assert(c1.values(onehot@, env) == run(env, k.onehot));
        }
        assert forall|env: Env|
            (#[trigger] cs.root_values(env)) == old(cs).root_values(env).push(
                here(env, nth(k.sel_packed, w as int)) ^ dot(
                    run(env, k.onehot),
                    alternate(*k, env, which as int, parity as int),
                    32,
                ),
            ) by {
            assert(c1.values(onehot@, env) == run(env, k.onehot));
            assert(c1.values(from@, env) == alternate(*k, env, which as int, parity as int));
        }
    }
}

/// Imposes [`select_roots`].
fn constrain_selects(cs: &mut ConstraintSystem, k: &ModexpCols)
    requires
        old(cs).wf(),
        k.wf(),
    ensures
        final(cs).wf(),
        final(cs).extends(*old(cs)),
        old(cs).within(5) ==> final(cs).within(5),
        forall|env: Env|
            (#[trigger] final(cs).root_values(env)) == old(cs).root_values(env) + select_roots(
                *k,
                env,
            ),
{
    let onehot = cs.cols(k.onehot.start, k.onehot.len);
    let ghost c0 = *cs;
    let limbs = pair_limbs(cs, k);
    let ghost c1 = *cs;
    proof {
        c1.lemma_has_stable(c0, onehot@);
        c1.lemma_linear_stable(c0, onehot@);
        assert forall|env: Env| #[trigger] c1.values(onehot@, env) == run(env, k.onehot) by {
            c1.lemma_values_stable(c0, onehot@, env);
            assert(c0.values(onehot@, env) == run(env, k.onehot));
        }
    }
    constrain_select(cs, &onehot, k.xs_packed, &limbs);
    let ghost c2 = *cs;
    proof {
        c2.lemma_has_stable(c1, onehot@);
        c2.lemma_linear_stable(c1, onehot@);
        assert forall|env: Env| #[trigger] c2.values(onehot@, env) == run(env, k.onehot) by {
            c2.lemma_values_stable(c1, onehot@, env);
            assert(c1.values(onehot@, env) == run(env, k.onehot));
        }
        assert forall|env: Env|
            (#[trigger] c2.root_values(env)) == old(cs).root_values(env).push(
                here(env, k.xs_packed) ^ dot(run(env, k.onehot), paired(*k, env), 32),
            ) by {
            assert(c1.values(onehot@, env) == run(env, k.onehot));
            assert(c1.values(limbs@, env) == paired(*k, env));
        }
    }
    constrain_limb(cs, k, &onehot, 0, ARR_R, 0);
    constrain_limb(cs, k, &onehot, 1, ARR_R, 1);
    constrain_limb(cs, k, &onehot, 2, ARR_W, 0);
    constrain_limb(cs, k, &onehot, 3, ARR_W, 1);
    constrain_limb(cs, k, &onehot, 4, ARR_N, 0);
    constrain_limb(cs, k, &onehot, 5, ARR_N, 1);
    proof {
        assert forall|env: Env| (#[trigger] cs.root_values(env)) == old(cs).root_values(env)
            + select_roots(*k, env) by {
            assert(c2.root_values(env) == old(cs).root_values(env).push(
                here(env, k.xs_packed) ^ dot(run(env, k.onehot), paired(*k, env), 32),
            ));
            assert(cs.root_values(env) =~= old(cs).root_values(env) + select_roots(*k, env));
        }
    }
}

/// Imposes [`digit_roots`].
fn constrain_digits(cs: &mut ConstraintSystem, basis: &ExpBasis, k: &ModexpCols)
    requires
        old(cs).wf(),
        basis.wf(),
        k.wf(),
    ensures
        final(cs).wf(),
        final(cs).extends(*old(cs)),
        old(cs).within(5) ==> final(cs).within(5),
        forall|env: Env|
            (#[trigger] final(cs).root_values(env)) == old(cs).root_values(env) + digit_roots(
                *k,
                basis.g(),
                env,
                4,
            ),
{
    let mut d: usize = 0;
    proof {
        assert forall|env: Env| (#[trigger] cs.root_values(env)) == old(cs).root_values(env)
            + digit_roots(*k, basis.g(), env, 0) by {
            assert(cs.root_values(env) =~= old(cs).root_values(env) + digit_roots(
                *k,
                basis.g(),
                env,
                0,
            ));
        }
    }
    while d < 4
        invariant
            d <= 4,
            k.wf(),
            basis.wf(),
            cs.wf(),
            cs.extends(*old(cs)),
            old(cs).within(5) ==> cs.within(5),
            forall|env: Env|
                (#[trigger] cs.root_values(env)) == old(cs).root_values(env) + digit_roots(
                    *k,
                    basis.g(),
                    env,
                    d as nat,
                ),
        decreases 4 - d,
    {
        let ghost c0 = *cs;
        sides::constrain_chain(cs, basis, k.digit_bits.bits(d), k.dg[d]);
        proof {
            assert forall|env: Env| (#[trigger] cs.root_values(env)) == old(cs).root_values(env)
                + digit_roots(*k, basis.g(), env, (d + 1) as nat) by {
                assert(c0.root_values(env) == old(cs).root_values(env) + digit_roots(
                    *k,
                    basis.g(),
                    env,
                    d as nat,
                ));
                assert(cs.root_values(env) =~= old(cs).root_values(env) + digit_roots(
                    *k,
                    basis.g(),
                    env,
                    (d + 1) as nat,
                ));
            }
        }
        d = d + 1;
    }
}

/// Imposes [`sel_roots`].
fn constrain_sels(cs: &mut ConstraintSystem, basis: &ExpBasis, k: &ModexpCols)
    requires
        old(cs).wf(),
        basis.wf(),
        k.wf(),
    ensures
        final(cs).wf(),
        final(cs).extends(*old(cs)),
        old(cs).within(5) ==> final(cs).within(5),
        forall|env: Env|
            (#[trigger] final(cs).root_values(env)) == old(cs).root_values(env) + sel_roots(
                *k,
                basis.g(),
                env,
                6,
            ),
{
    let mut w: usize = 0;
    proof {
        assert forall|env: Env| (#[trigger] cs.root_values(env)) == old(cs).root_values(env)
            + sel_roots(*k, basis.g(), env, 0) by {
            assert(cs.root_values(env) =~= old(cs).root_values(env) + sel_roots(
                *k,
                basis.g(),
                env,
                0,
            ));
        }
    }
    while w < 6
        invariant
            w <= 6,
            k.wf(),
            basis.wf(),
            cs.wf(),
            cs.extends(*old(cs)),
            old(cs).within(5) ==> cs.within(5),
            forall|env: Env|
                (#[trigger] cs.root_values(env)) == old(cs).root_values(env) + sel_roots(
                    *k,
                    basis.g(),
                    env,
                    w as nat,
                ),
        decreases 6 - w,
    {
        let ghost c0 = *cs;
        sides::constrain_chain(cs, basis, k.sel_bits.bits(w), k.lch[w]);
        proof {
            assert forall|env: Env| (#[trigger] cs.root_values(env)) == old(cs).root_values(env)
                + sel_roots(*k, basis.g(), env, (w + 1) as nat) by {
                assert(c0.root_values(env) == old(cs).root_values(env) + sel_roots(
                    *k,
                    basis.g(),
                    env,
                    w as nat,
                ));
                assert(cs.root_values(env) =~= old(cs).root_values(env) + sel_roots(
                    *k,
                    basis.g(),
                    env,
                    (w + 1) as nat,
                ));
            }
        }
        w = w + 1;
    }
}

/// Imposes that two limbs and a carry add up to a limb and a carry.
fn constrain_sum(
    cs: &mut ConstraintSystem,
    k: &ModexpCols,
    parity: usize,
    one: Expr,
    carry_in: Expr,
    g_step: Expr,
    carry_out: Expr,
    k32_step: Expr,
)
    requires
        old(cs).wf(),
        k.wf(),
        parity < 2,
        old(cs).has(one),
        old(cs).has(carry_in),
        old(cs).has(g_step),
        old(cs).has(carry_out),
        old(cs).has(k32_step),
    ensures
        final(cs).wf(),
        final(cs).extends(*old(cs)),
        old(cs).degree(one) == 0 && old(cs).degree(carry_in) <= 2 && old(cs).degree(g_step) == 0
            && old(cs).degree(carry_out) <= 2 && old(cs).degree(k32_step) == 0 && old(cs).within(5)
            ==> final(cs).within(5),
        forall|env: Env|
            (#[trigger] final(cs).root_values(env)) == old(cs).root_values(env).push(
                gf::gf128_mul(
                    gf::gf128_mul(
                        limb_at(*k, env, parity as int),
                        limb_at(*k, env, 2 + parity as int),
                    ),
                    old(cs).value(one, env) ^ gf::gf128_mul(
                        old(cs).value(carry_in, env),
                        old(cs).value(g_step, env),
                    ),
                ) ^ gf::gf128_mul(
                    limb_at(*k, env, 4 + parity as int),
                    old(cs).value(one, env) ^ gf::gf128_mul(
                        old(cs).value(carry_out, env),
                        old(cs).value(k32_step, env),
                    ),
                ),
            ),
{
    let end: usize = half(Y_BITS) - 1;
    let r = cs.col(k.lch[parity].at(end).0);
    let w = cs.col(k.lch[2 + parity].at(end).0);
    let n = cs.col(k.lch[4 + parity].at(end).0);
    let rw = cs.times(r, w);
    let in_step = cs.times(carry_in, g_step);
    let in_gate = cs.plus(one, in_step);
    let left = cs.times(rw, in_gate);
    let out_step = cs.times(carry_out, k32_step);
    let out_gate = cs.plus(one, out_step);
    let right = cs.times(n, out_gate);
    let root = cs.plus(left, right);
    cs.constrain(root);
}

/// Imposes [`sum_roots`].
fn constrain_sums(cs: &mut ConstraintSystem, basis: &ExpBasis, k: &ModexpCols)
    requires
        old(cs).wf(),
        basis.wf(),
        k.wf(),
    ensures
        final(cs).wf(),
        final(cs).extends(*old(cs)),
        old(cs).within(5) ==> final(cs).within(5),
        forall|env: Env|
            (#[trigger] final(cs).root_values(env)) == old(cs).root_values(env) + sum_roots(
                *k,
                basis.g(),
                env,
            ),
{
    let pow2s = basis.tower_pow2();
    let shift = pow2s[DIGIT_BITS];
    assert(pow2s@[32] == shift);
    let one = cs.one();
    let g_step = cs.constant(basis.generator().plus(Block128(1)));
    let k32_step = cs.constant(shift.plus(Block128(1)));
    let block_end = cs.col(k.block_end.0);
    let not_block_end = cs.plus(one, block_end);
    let rc = cs.col(k.rc.0);
    let rcm = cs.col(k.rcm.0);
    let rc_next = cs.next(k.rc.0);
    let rc_out = cs.times(not_block_end, rc_next);
    constrain_sum(cs, k, 0, one, rc, g_step, rcm, k32_step);
    constrain_sum(cs, k, 1, one, rcm, g_step, rc_out, k32_step);
    let fresh = cs.plus(rc_next, one);
    let start = cs.times(block_end, fresh);
    cs.constrain(start);
    proof {
        assert forall|env: Env| (#[trigger] cs.root_values(env)) == old(cs).root_values(env)
            + sum_roots(*k, basis.g(), env) by {
            assert(cs.root_values(env) =~= old(cs).root_values(env) + sum_roots(
                *k,
                basis.g(),
                env,
            ));
        }
    }
}

/// Imposes [`modexp_roots`].
pub fn constrain_all(cs: &mut ConstraintSystem, basis: &ExpBasis, k: &ModexpCols)
    requires
        old(cs).wf(),
        basis.wf(),
        k.wf(),
    ensures
        final(cs).wf(),
        final(cs).extends(*old(cs)),
        old(cs).within(5) ==> final(cs).within(5),
        final(cs).reaches(5),
        forall|env: Env|
            (#[trigger] final(cs).root_values(env)) == old(cs).root_values(env) + modexp_roots(
                *k,
                basis.g(),
                env,
            ),
{
    let sh = Shared::new(cs, k);
    let ghost c0 = *cs;
    constrain_flags(cs, k);
    let ghost c1 = *cs;
    constrain_arrays(cs, k, sh);
    let ghost c2 = *cs;
    constrain_selects(cs, k);
    let ghost c3 = *cs;
    sides::constrain_side(cs, basis, k, 0);
    let ghost c4 = *cs;
    sides::constrain_side(cs, basis, k, 1);
    let ghost c5 = *cs;
    constrain_digits(cs, basis, k);
    let ghost c6 = *cs;
    constrain_sels(cs, basis, k);
    let ghost c7 = *cs;
    constrain_sums(cs, basis, k);
    proof {
        assert forall|env: Env| (#[trigger] cs.root_values(env)) == old(cs).root_values(env)
            + modexp_roots(*k, basis.g(), env) by {
            let g = basis.g();
            let r0 = old(cs).root_values(env);
            let (a, b, c, d) = (
                flag_roots(*k, env),
                array_roots(*k, env, 64),
                select_roots(*k, env),
                side_roots(*k, g, env, 0),
            );
            let (e, f, h, i) = (
                side_roots(*k, g, env, 1),
                digit_roots(*k, g, env, 4),
                sel_roots(*k, g, env, 6),
                sum_roots(*k, g, env),
            );
            assert(c0.root_values(env) == r0);
            assert(c1.root_values(env) == r0 + a);
            assert(c2.root_values(env) == c1.root_values(env) + b);
            assert(c3.root_values(env) == c2.root_values(env) + c);
            assert(c4.root_values(env) == c3.root_values(env) + d);
            assert(c5.root_values(env) == c4.root_values(env) + e);
            assert(c6.root_values(env) == c5.root_values(env) + f);
            assert(c7.root_values(env) == c6.root_values(env) + h);
            sides::lemma_join(r0, a, b);
            sides::lemma_join(r0, a + b, c);
            sides::lemma_join(r0, a + b + c, d);
            sides::lemma_join(r0, a + b + c + d, e);
            sides::lemma_join(r0, a + b + c + d + e, f);
            sides::lemma_join(r0, a + b + c + d + e + f, h);
            sides::lemma_join(r0, a + b + c + d + e + f + h, i);
        }
    }
}

} // verus!
