//! The constraints of one side of a product.

use vstd::arithmetic::power2::*;
use vstd::prelude::*;
use vstd::slice::slice_subrange;

use super::air;
use super::columns;
use super::columns::{half, ModexpCols, CARRY_BITS, CARRY_HI_BITS, X_BITS, Y_BITS};
use super::modmul::LIMBS32;
use crate::atoms::exp_form;
use crate::atoms::exp_form::{
    constrain_exp_chain2, constrain_fourth_powers, constrain_squarings, ExpBasis,
};
use crate::field::gf;
use crate::field::Block128;
use crate::program::circuit::{Col, ColRange};
use crate::program::constraint;
use crate::program::constraint::{ConstraintSystem, Env, Expr};

verus! {

/// The cells of a range.
pub fn read(cs: &mut ConstraintSystem, r: ColRange) -> (es: Vec<Expr>)
    requires
        old(cs).wf(),
        r.ends(),
    ensures
        final(cs).wf(),
        es@.len() == r.len,
        final(cs).has_all(es@),
        final(cs).extends(*old(cs)),
        final(cs).linear(es@),
        final(cs).root_degrees() == old(cs).root_degrees(),
        forall|env: Env| #[trigger] final(cs).values(es@, env) == air::run(env, r),
        forall|env: Env| (#[trigger] final(cs).root_values(env)) == old(cs).root_values(env),
{
    cs.cols(r.start, r.len)
}

/// The powers of the generator that `n` bits select.
pub fn powers(basis: &ExpBasis, n: usize) -> (r: Vec<Block128>)
    requires
        basis.wf(),
        n <= 128,
    ensures
        exp_form::element_values(r@) == exp_form::generator_powers(basis.g(), n as nat),
        r@.len() == n,
{
    let all = basis.tower_pow2();
    let mut out: Vec<Block128> = Vec::new();
    let mut i: usize = 0;
    while i < n
        invariant
            i <= n <= 128,
            out@.len() == i,
            forall|t: int|
                0 <= t < 128 ==> (#[trigger] all@[t]).0 == gf::gf128_pow(
                    basis.g(),
                    pow2(t as nat),
                ),
            forall|t: int|
                0 <= t < i ==> (#[trigger] out@[t]).0 == gf::gf128_pow(basis.g(), pow2(t as nat)),
        decreases n - i,
    {
        let p = all[i];
        assert(all@[i as int] == p);
        out.push(p);
        i = i + 1;
    }
    proof {
        assert(exp_form::element_values(out@) =~= exp_form::generator_powers(
            basis.g(),
            n as nat,
        ));
    }
    out
}

/// Imposes a chain of powers of the generator over a range of bits.
pub fn constrain_chain(
    cs: &mut ConstraintSystem,
    basis: &ExpBasis,
    bits: ColRange,
    cells: ColRange,
)
    requires
        old(cs).wf(),
        basis.wf(),
        bits.ends(),
        cells.ends(),
        bits.len == 2 * cells.len,
        bits.len <= 128,
    ensures
        final(cs).wf(),
        final(cs).extends(*old(cs)),
        old(cs).within(5) ==> final(cs).within(5),
        forall|env: Env|
            (#[trigger] final(cs).root_values(env)) == old(cs).root_values(env)
                + exp_form::chain_roots(
                air::run(env, bits),
                air::run(env, cells),
                exp_form::generator_powers(basis.g(), bits.len as nat),
            ),
{
    let bs = read(cs, bits);
    let ghost c1 = *cs;
    let ps = read(cs, cells);
    let ghost c2 = *cs;
    let pow2s = powers(basis, bits.len);
    proof {
        c2.lemma_has_stable(c1, bs@);
        c2.lemma_linear_stable(c1, bs@);
    }
    constrain_exp_chain2(cs, bs.as_slice(), ps.as_slice(), pow2s.as_slice());
    proof {
        assert forall|env: Env| (#[trigger] cs.root_values(env)) == old(cs).root_values(env)
            + exp_form::chain_roots(
            air::run(env, bits),
            air::run(env, cells),
            exp_form::generator_powers(basis.g(), bits.len as nat),
        ) by {
            c2.lemma_values_stable(c1, bs@, env);
            assert(c1.values(bs@, env) == air::run(env, bits));
            assert(c2.values(ps@, env) == air::run(env, cells));
        }
    }
}

/// Imposes [`air::limb_roots`].
fn constrain_limb_power(cs: &mut ConstraintSystem, basis: &ExpBasis, k: &ModexpCols, side: usize)
    requires
        old(cs).wf(),
        basis.wf(),
        k.wf(),
        side < 2,
    ensures
        final(cs).wf(),
        final(cs).extends(*old(cs)),
        old(cs).within(5) ==> final(cs).within(5),
        forall|env: Env|
            (#[trigger] final(cs).root_values(env)) == old(cs).root_values(env) + air::limb_roots(
                *k,
                basis.g(),
                env,
                side as int,
            ),
{
    let bits = if side == 0 {
        k.xs_bits
    } else {
        k.q_bits
    };
    constrain_chain(cs, basis, bits, k.xa[side]);
    let ghost c1 = *cs;
    let base = cs.col(k.xa[side].at(31).0);
    let ghost c2 = *cs;
    let yf = read(cs, k.yf[side]);
    let ghost c3 = *cs;
    constrain_squarings(cs, base, yf.as_slice());
    proof {
        assert forall|env: Env| (#[trigger] cs.root_values(env)) == old(cs).root_values(env)
            + air::limb_roots(*k, basis.g(), env, side as int) by {
            assert(c1.root_values(env) == c2.root_values(env));
            assert(c2.root_values(env) == c3.root_values(env));
            assert(c3.values(yf@, env) == air::run(env, k.yf@[side as int]));
            assert(c2.value(base, env) == air::here(env, air::nth(k.xa@[side as int], 31)));
            assert(c3.value(base, env) == c2.value(base, env));
            assert(cs.root_values(env) =~= old(cs).root_values(env) + air::limb_roots(
                *k,
                basis.g(),
                env,
                side as int,
            ));
        }
    }
}

/// `acc · (1 + bit · (p + 1))`.
fn gate(cs: &mut ConstraintSystem, acc: Expr, one: Expr, bit: Expr, p: Expr) -> (r: Expr)
    requires
        old(cs).wf(),
        old(cs).has(acc),
        old(cs).has(one),
        old(cs).has(bit),
        old(cs).has(p),
        forall|env: Env| #[trigger] old(cs).value(one, env) == 1,
    ensures
        final(cs).wf(),
        final(cs).has(r),
        final(cs).extends(*old(cs)),
        old(cs).degree(one) == 0 && old(cs).degree(p) == 1 && old(cs).degree(bit) == 1
            ==> final(cs).degree(r) == old(cs).degree(acc) + 2,
        final(cs).root_degrees() == old(cs).root_degrees(),
        forall|env: Env|
            #[trigger] final(cs).value(r, env) == gf::gf128_mul(
                old(cs).value(acc, env),
                exp_form::gated(old(cs).value(bit, env), old(cs).value(p, env)),
            ),
        forall|env: Env| (#[trigger] final(cs).root_values(env)) == old(cs).root_values(env),
{
    let step = cs.plus(p, one);
    let chosen = cs.times(bit, step);
    let factor = cs.plus(one, chosen);
    cs.times(acc, factor)
}

/// Imposes a chain whose steps are cells: two bits per step, each selecting
/// one of `ps`.
fn constrain_cell_chain(
    cs: &mut ConstraintSystem,
    one: Expr,
    bs: &Vec<Expr>,
    cols: &Vec<Expr>,
    ps: &Vec<Expr>,
)
    requires
        old(cs).wf(),
        old(cs).has(one),
        forall|env: Env| #[trigger] old(cs).value(one, env) == 1,
        old(cs).has_all(bs@),
        old(cs).has_all(cols@),
        old(cs).has_all(ps@),
        bs@.len() == 2 * cols@.len(),
        ps@.len() == bs@.len(),
        old(cs).degree(one) == 0,
        old(cs).linear(bs@),
        old(cs).linear(cols@),
        old(cs).linear(ps@),
    ensures
        final(cs).wf(),
        final(cs).extends(*old(cs)),
        old(cs).within(5) ==> final(cs).within(5),
        cols@.len() > 1 ==> final(cs).reaches(5),
        forall|env: Env|
            (#[trigger] final(cs).root_values(env)) == old(cs).root_values(env)
                + exp_form::chain_roots(
                old(cs).values(bs@, env),
                old(cs).values(cols@, env),
                old(cs).values(ps@, env),
            ),
{
    let mut prev = one;
    let mut t: usize = 0;
    let ghost start = *old(cs);
    proof {
        assert forall|env: Env| (#[trigger] cs.root_values(env)) == start.root_values(env)
            + exp_form::chain_roots(
            start.values(bs@, env),
            start.values(cols@, env),
            start.values(ps@, env),
        ).take(0) by {
            assert(cs.root_values(env) =~= start.root_values(env) + exp_form::chain_roots(
                start.values(bs@, env),
                start.values(cols@, env),
                start.values(ps@, env),
            ).take(0));
        }
    }
    while t < cols.len()
        invariant
            t <= cols@.len(),
            bs@.len() == 2 * cols@.len(),
            ps@.len() == bs@.len(),
            bs@.len() == bs.len(),
            start == *old(cs),
            start.has_all(bs@),
            start.has_all(cols@),
            start.has_all(ps@),
            start.degree(one) == 0,
            start.linear(bs@),
            start.linear(cols@),
            start.linear(ps@),
            start.has(one),
            forall|env: Env| #[trigger] start.value(one, env) == 1,
            cs.wf(),
            cs.extends(start),
            cs.degree(prev) == (if t == 0 {
                0nat
            } else {
                1
            }),
            start.within(5) ==> cs.within(5),
            t > 1 ==> cs.reaches(5),
            cs.has(prev),
            forall|env: Env| #[trigger]
                cs.value(prev, env) == exp_form::before(start.values(cols@, env), t as int),
            forall|env: Env|
                (#[trigger] cs.root_values(env)) == start.root_values(env) + exp_form::chain_roots(
                    start.values(bs@, env),
                    start.values(cols@, env),
                    start.values(ps@, env),
                ).take(t as int),
        decreases cols@.len() - t,
    {
        let ghost s0 = *cs;
        let ghost p0 = prev;
        let (b0, b1, col) = (bs[2 * t], bs[2 * t + 1], cols[t]);
        let (f0, f1) = (ps[2 * t], ps[2 * t + 1]);
        proof {
            assert(start.has(bs@[2 * t as int]));
            assert(start.has(bs@[2 * t as int + 1]));
            assert(start.has(ps@[2 * t as int]));
            assert(start.has(ps@[2 * t as int + 1]));
            assert(start.has(cols@[t as int]));
        }
        let low = gate(cs, prev, one, b0, f0);
        let want = gate(cs, low, one, b1, f1);
        let residue = cs.plus(col, want);
        cs.constrain(residue);
        prev = col;
        proof {
            assert forall|env: Env| (#[trigger] cs.root_values(env)) == start.root_values(env)
                + exp_form::chain_roots(
                start.values(bs@, env),
                start.values(cols@, env),
                start.values(ps@, env),
            ).take(t + 1) by {
                let (vb, vc, vp) = (
                    start.values(bs@, env),
                    start.values(cols@, env),
                    start.values(ps@, env),
                );
                let all = exp_form::chain_roots(vb, vc, vp);
                assert(s0.root_values(env) == start.root_values(env) + all.take(t as int));
                assert(start.value(b0, env) == vb[2 * t as int]);
                assert(start.value(b1, env) == vb[2 * t as int + 1]);
                assert(start.value(f0, env) == vp[2 * t as int]);
                assert(start.value(f1, env) == vp[2 * t as int + 1]);
                assert(start.value(col, env) == vc[t as int]);
                assert(s0.value(p0, env) == exp_form::before(vc, t as int));
                assert(all[t as int] == vc[t as int] ^ exp_form::chain_cell(vb, vc, vp, t as int));
                assert(cs.root_values(env) =~= start.root_values(env) + all.take(t + 1));
            }
        }
        t = t + 1;
    }
    proof {
        assert forall|env: Env| (#[trigger] cs.root_values(env)) == old(cs).root_values(env)
            + exp_form::chain_roots(
            old(cs).values(bs@, env),
            old(cs).values(cols@, env),
            old(cs).values(ps@, env),
        ) by {
            let all = exp_form::chain_roots(
                start.values(bs@, env),
                start.values(cols@, env),
                start.values(ps@, env),
            );
            assert(all.take(cols@.len() as int) =~= all);
        }
    }
}

/// The limb's power and its squares, as cells.
fn read_frobs(cs: &mut ConstraintSystem, k: &ModexpCols, side: usize) -> (r: Vec<Expr>)
    requires
        old(cs).wf(),
        k.wf(),
        side < 2,
    ensures
        final(cs).wf(),
        r@.len() == 32,
        final(cs).has_all(r@),
        final(cs).extends(*old(cs)),
        final(cs).linear(r@),
        final(cs).root_degrees() == old(cs).root_degrees(),
        forall|env: Env| #[trigger] final(cs).values(r@, env) == air::frobs(*k, env, side as int),
        forall|env: Env| (#[trigger] final(cs).root_values(env)) == old(cs).root_values(env),
{
    let base = cs.col(k.xa[side].at(31).0);
    let ghost c1 = *cs;
    let yf = read(cs, k.yf[side]);
    let mut out: Vec<Expr> = Vec::new();
    out.push(base);
    let mut i: usize = 0;
    while i < yf.len()
        invariant
            i <= yf@.len(),
            out@ =~= seq![base] + yf@.take(i as int),
        decreases yf@.len() - i,
    {
        out.push(yf[i]);
        i = i + 1;
    }
    proof {
        assert(out@ =~= seq![base] + yf@);
        assert forall|j: int| 0 <= j < out@.len() implies cs.has(#[trigger] out@[j]) by {
            if j > 0 {
                assert(cs.has(yf@[j - 1]));
            } else {
                assert(c1.has(base));
            }
        }
        assert forall|j: int| 0 <= j < out@.len() implies cs.degree(#[trigger] out@[j]) == 1 by {
            if j > 0 {
                assert(cs.degree(yf@[j - 1]) == 1);
            } else {
                assert(c1.has(base));
            }
        }
        assert forall|env: Env| #[trigger] cs.values(out@, env) == air::frobs(
            *k,
            env,
            side as int,
        ) by {
            assert(c1.value(base, env) == air::here(env, air::nth(k.xa@[side as int], 31)));
            assert(cs.values(yf@, env) == air::run(env, k.yf@[side as int]));
            assert forall|j: int| 0 <= j < 32 implies #[trigger] cs.values(out@, env)[j]
                == air::frobs(*k, env, side as int)[j] by {
                if j > 0 {
                    assert(cs.values(yf@, env)[j - 1] == cs.value(yf@[j - 1], env));
                }
            }
            assert(cs.values(out@, env) =~= air::frobs(*k, env, side as int));
        }
    }
    out
}

/// Imposes the chain of the limb's products with limb `j`.
fn constrain_product(
    cs: &mut ConstraintSystem,
    k: &ModexpCols,
    side: usize,
    j: usize,
    one: Expr,
    frobs: &Vec<Expr>,
)
    requires
        old(cs).wf(),
        k.wf(),
        side < 2,
        j < 64,
        old(cs).has(one),
        forall|env: Env| #[trigger] old(cs).value(one, env) == 1,
        frobs@.len() == 32,
        old(cs).has_all(frobs@),
        old(cs).degree(one) == 0,
        old(cs).linear(frobs@),
        forall|env: Env|
            #[trigger] old(cs).values(frobs@, env) == air::frobs(*k, env, side as int),
    ensures
        final(cs).wf(),
        final(cs).extends(*old(cs)),
        old(cs).within(5) ==> final(cs).within(5),
        final(cs).reaches(5),
        forall|env: Env|
            (#[trigger] final(cs).root_values(env)) == old(cs).root_values(env)
                + exp_form::chain_roots(
                air::run(env, air::other_bits(*k, side as int, j as int)),
                air::run(env, air::product_range(*k, side as int, j as int)),
                air::frobs(*k, env, side as int),
            ),
{
    let bits = if side == 0 {
        k.y_bits.bits(j)
    } else {
        k.n_bits.bits(j)
    };
    assert(bits == air::other_bits(*k, side as int, j as int));
    let cells = ColRange { start: k.p[side].start + half(Y_BITS) * j, len: half(Y_BITS) };
    assert(cells == air::product_range(*k, side as int, j as int));
    let bs = read(cs, bits);
    let ghost c1 = *cs;
    let ps = read(cs, cells);
    let ghost c2 = *cs;
    proof {
        c2.lemma_has_stable(c1, bs@);
        c2.lemma_linear_stable(c1, bs@);
        c1.lemma_has_stable(*old(cs), frobs@);
        c1.lemma_linear_stable(*old(cs), frobs@);
        c2.lemma_has_stable(c1, frobs@);
        c2.lemma_linear_stable(c1, frobs@);
        assert forall|env: Env| #[trigger] c2.value(one, env) == 1 by {
            assert(c1.value(one, env) == old(cs).value(one, env));
        }
    }
    constrain_cell_chain(cs, one, &bs, &ps, frobs);
    proof {
        assert forall|env: Env| (#[trigger] cs.root_values(env)) == old(cs).root_values(env)
            + exp_form::chain_roots(
            air::run(env, air::other_bits(*k, side as int, j as int)),
            air::run(env, air::product_range(*k, side as int, j as int)),
            air::frobs(*k, env, side as int),
        ) by {
            c2.lemma_values_stable(c1, bs@, env);
            c1.lemma_values_stable(*old(cs), frobs@, env);
            c2.lemma_values_stable(c1, frobs@, env);
            assert(old(cs).values(frobs@, env) == air::frobs(*k, env, side as int));
            assert(c1.values(bs@, env) == air::run(env, bits));
            assert(c2.values(ps@, env) == air::run(env, cells));
        }
    }
}

/// Imposes [`air::product_roots`].
fn constrain_products(cs: &mut ConstraintSystem, k: &ModexpCols, side: usize)
    requires
        old(cs).wf(),
        k.wf(),
        side < 2,
    ensures
        final(cs).wf(),
        final(cs).extends(*old(cs)),
        old(cs).within(5) ==> final(cs).within(5),
        final(cs).reaches(5),
        forall|env: Env|
            (#[trigger] final(cs).root_values(env)) == old(cs).root_values(env)
                + air::product_roots(*k, env, side as int, 64),
{
    let one = cs.one();
    let ghost c0 = *cs;
    let frobs = read_frobs(cs, k, side);
    let ghost c1 = *cs;
    let mut j: usize = 0;
    proof {
        assert forall|env: Env| #[trigger] c1.value(one, env) == 1 by {
            assert(c0.value(one, env) == 1);
        }
        assert forall|env: Env| (#[trigger] cs.root_values(env)) == old(cs).root_values(env)
            + air::product_roots(*k, env, side as int, 0) by {
            assert(cs.root_values(env) =~= old(cs).root_values(env) + air::product_roots(
                *k,
                env,
                side as int,
                0,
            ));
        }
    }
    while j < LIMBS32
        invariant
            j <= 64,
            k.wf(),
            side < 2,
            cs.wf(),
            cs.extends(*old(cs)),
            old(cs).within(5) ==> cs.within(5),
            j > 0 ==> cs.reaches(5),
            c1.degree(one) == 0,
            c1.linear(frobs@),
            cs.extends(c1),
            c1.has(one),
            forall|env: Env| #[trigger] c1.value(one, env) == 1,
            frobs@.len() == 32,
            c1.has_all(frobs@),
            forall|env: Env|
                #[trigger] c1.values(frobs@, env) == air::frobs(*k, env, side as int),
            forall|env: Env|
                (#[trigger] cs.root_values(env)) == old(cs).root_values(env) + air::product_roots(
                    *k,
                    env,
                    side as int,
                    j as nat,
                ),
        decreases 64 - j,
    {
        let ghost s0 = *cs;
        proof {
            s0.lemma_has_stable(c1, frobs@);
            s0.lemma_linear_stable(c1, frobs@);
            assert forall|env: Env| #[trigger] s0.values(frobs@, env) == air::frobs(
                *k,
                env,
                side as int,
            ) by {
                s0.lemma_values_stable(c1, frobs@, env);
                assert(c1.values(frobs@, env) == air::frobs(*k, env, side as int));
            }
            assert forall|env: Env| #[trigger] s0.value(one, env) == 1 by {
                assert(c1.value(one, env) == 1);
            }
        }
        constrain_product(cs, k, side, j, one, &frobs);
        proof {
            assert forall|env: Env| (#[trigger] cs.root_values(env)) == old(cs).root_values(env)
                + air::product_roots(*k, env, side as int, (j + 1) as nat) by {
                assert(s0.root_values(env) == old(cs).root_values(env) + air::product_roots(
                    *k,
                    env,
                    side as int,
                    j as nat,
                ));
                assert(cs.root_values(env) =~= old(cs).root_values(env) + air::product_roots(
                    *k,
                    env,
                    side as int,
                    (j + 1) as nat,
                ));
            }
        }
        j = j + 1;
    }
}

/// Imposes [`air::running_row`].
fn constrain_running_at(
    cs: &mut ConstraintSystem,
    k: &ModexpCols,
    side: usize,
    c: usize,
    one: Expr,
    block_end: Expr,
    not_block_end: Expr,
)
    requires
        old(cs).wf(),
        k.wf(),
        side < 2,
        c < 64,
        old(cs).has(one),
        old(cs).has(block_end),
        old(cs).has(not_block_end),
        old(cs).degree(one) == 0,
        old(cs).degree(block_end) == 1,
        old(cs).degree(not_block_end) == 1,
        forall|env: Env| #[trigger] old(cs).value(one, env) == 1,
        forall|env: Env| #[trigger] old(cs).value(block_end, env) == air::here(env, k.block_end),
        forall|env: Env| #[trigger]
            old(cs).value(not_block_end, env) == 1 ^ air::here(env, k.block_end),
    ensures
        final(cs).wf(),
        final(cs).extends(*old(cs)),
        old(cs).within(5) ==> final(cs).within(5),
        forall|env: Env|
            (#[trigger] final(cs).root_values(env)) == old(cs).root_values(env) + air::running_row(
                *k,
                env,
                side as int,
                c as int,
            ),
{
    let ghost start = *cs;
    let (prior_u, prior_ut) = if c + 2 < LIMBS32 {
        let u = cs.col(k.u[side].at(c + 2).0);
        let ut = cs.col(k.ut[side].at(c + 2).0);
        let kept = cs.times(not_block_end, u);
        let prior_u = cs.plus(kept, block_end);
        let tail = cs.times(not_block_end, ut);
        let handed = cs.times(block_end, u);
        let prior_ut = cs.plus(tail, handed);
        (prior_u, prior_ut)
    } else {
        (one, one)
    };
    let ghost c1 = *cs;
    let u_next = cs.next(k.u[side].at(c).0);
    let p_next = cs.next(k.p[side].at(half(Y_BITS) * c + half(Y_BITS) - 1).0);
    let grown = cs.times(prior_u, p_next);
    let u_root = cs.plus(u_next, grown);
    cs.constrain(u_root);
    let ut_next = cs.next(k.ut[side].at(c).0);
    let ut_root = cs.plus(ut_next, prior_ut);
    cs.constrain(ut_root);
    proof {
        assert forall|env: Env| (#[trigger] cs.root_values(env)) == old(cs).root_values(env)
            + air::running_row(*k, env, side as int, c as int) by {
            assert(c1.root_values(env) == start.root_values(env));
            let _ = c1.value(prior_u, env);
            let _ = c1.value(prior_ut, env);
            assert(start.value(one, env) == 1);
            assert(start.value(block_end, env) == air::here(env, k.block_end));
            assert(start.value(not_block_end, env) == 1 ^ air::here(env, k.block_end));
            assert(cs.root_values(env) =~= old(cs).root_values(env) + air::running_row(
                *k,
                env,
                side as int,
                c as int,
            ));
        }
    }
}

/// Imposes [`air::running_roots`].
fn constrain_running(cs: &mut ConstraintSystem, k: &ModexpCols, side: usize)
    requires
        old(cs).wf(),
        k.wf(),
        side < 2,
    ensures
        final(cs).wf(),
        final(cs).extends(*old(cs)),
        old(cs).within(5) ==> final(cs).within(5),
        forall|env: Env|
            (#[trigger] final(cs).root_values(env)) == old(cs).root_values(env)
                + air::running_roots(*k, env, side as int, 64),
{
    let one = cs.one();
    let block_end = cs.col(k.block_end.0);
    let not_block_end = cs.plus(one, block_end);
    let ghost c1 = *cs;
    let mut c: usize = 0;
    proof {
        assert forall|env: Env| (#[trigger] cs.root_values(env)) == old(cs).root_values(env)
            + air::running_roots(*k, env, side as int, 0) by {
            assert(cs.root_values(env) =~= old(cs).root_values(env) + air::running_roots(
                *k,
                env,
                side as int,
                0,
            ));
        }
    }
    while c < LIMBS32
        invariant
            c <= 64,
            k.wf(),
            side < 2,
            cs.wf(),
            cs.extends(*old(cs)),
            old(cs).within(5) ==> cs.within(5),
            c1.degree(one) == 0,
            c1.degree(block_end) == 1,
            c1.degree(not_block_end) == 1,
            cs.extends(c1),
            c1.has(one),
            c1.has(block_end),
            c1.has(not_block_end),
            forall|env: Env| #[trigger] c1.value(one, env) == 1,
            forall|env: Env| #[trigger] c1.value(block_end, env) == air::here(env, k.block_end),
            forall|env: Env| #[trigger]
                c1.value(not_block_end, env) == 1 ^ air::here(env, k.block_end),
            forall|env: Env|
                (#[trigger] cs.root_values(env)) == old(cs).root_values(env) + air::running_roots(
                    *k,
                    env,
                    side as int,
                    c as nat,
                ),
        decreases 64 - c,
    {
        let ghost s0 = *cs;
        constrain_running_at(cs, k, side, c, one, block_end, not_block_end);
        proof {
            assert forall|env: Env| (#[trigger] cs.root_values(env)) == old(cs).root_values(env)
                + air::running_roots(*k, env, side as int, (c + 1) as nat) by {
                assert(s0.root_values(env) == old(cs).root_values(env) + air::running_roots(
                    *k,
                    env,
                    side as int,
                    c as nat,
                ));
                assert(cs.root_values(env) =~= old(cs).root_values(env) + air::running_roots(
                    *k,
                    env,
                    side as int,
                    (c + 1) as nat,
                ));
            }
        }
        c = c + 1;
    }
}

/// Imposes [`air::link_roots`].
fn constrain_links(cs: &mut ConstraintSystem, k: &ModexpCols, side: usize)
    requires
        old(cs).wf(),
        k.wf(),
        side < 2,
    ensures
        final(cs).wf(),
        final(cs).extends(*old(cs)),
        old(cs).within(5) ==> final(cs).within(5),
        forall|env: Env|
            (#[trigger] final(cs).root_values(env)) == old(cs).root_values(env) + air::link_roots(
                *k,
                env,
                side as int,
            ),
{
    let one = cs.one();
    let block_end = cs.col(k.block_end.0);
    let not_block_end = cs.plus(one, block_end);
    let co = cs.col(k.co[side].0);
    let cto = cs.col(k.cto[side].0);
    let c_next = cs.next(k.c[side].0);
    let ct_next = cs.next(k.ct[side].0);

    let within = cs.plus(c_next, co);
    let r0 = cs.times(not_block_end, within);
    cs.constrain(r0);
    let handed = cs.plus(ct_next, co);
    let r1 = cs.times(block_end, handed);
    cs.constrain(r1);
    let fresh = cs.plus(c_next, one);
    let r2 = cs.times(block_end, fresh);
    cs.constrain(r2);
    let tail = cs.plus(ct_next, cto);
    let r3 = cs.times(not_block_end, tail);
    cs.constrain(r3);
    let closed = cs.plus(cto, one);
    let r4 = cs.times(block_end, closed);
    cs.constrain(r4);
    proof {
        assert forall|env: Env| (#[trigger] cs.root_values(env)) == old(cs).root_values(env)
            + air::link_roots(*k, env, side as int) by {
            assert(cs.root_values(env) =~= old(cs).root_values(env) + air::link_roots(
                *k,
                env,
                side as int,
            ));
        }
    }
}

/// The bits of a carry.
fn read_carry_bits(cs: &mut ConstraintSystem, k: &ModexpCols, word: usize) -> (r: Vec<Expr>)
    requires
        old(cs).wf(),
        k.wf(),
        word < 8,
    ensures
        final(cs).wf(),
        r@.len() == 70,
        final(cs).has_all(r@),
        final(cs).extends(*old(cs)),
        final(cs).linear(r@),
        final(cs).root_degrees() == old(cs).root_degrees(),
        forall|env: Env|
            #[trigger] final(cs).values(r@, env) == air::carry_bits(*k, env, word as int),
        forall|env: Env| (#[trigger] final(cs).root_values(env)) == old(cs).root_values(env),
{
    let lo = cs.cols(k.carry_lo_bits.bits(word).start, X_BITS);
    let ghost c1 = *cs;
    let hi = cs.cols(k.carry_hi_bits.start + CARRY_HI_BITS * word, CARRY_HI_BITS);
    let mut out: Vec<Expr> = Vec::new();
    let mut i: usize = 0;
    while i < lo.len()
        invariant
            i <= lo@.len(),
            out@ =~= lo@.take(i as int),
        decreases lo@.len() - i,
    {
        out.push(lo[i]);
        i = i + 1;
    }
    let mut j: usize = 0;
    while j < hi.len()
        invariant
            j <= hi@.len(),
            out@ =~= lo@ + hi@.take(j as int),
        decreases hi@.len() - j,
    {
        out.push(hi[j]);
        j = j + 1;
    }
    proof {
        assert(out@ =~= lo@ + hi@);
        cs.lemma_has_stable(c1, lo@);
        cs.lemma_linear_stable(c1, lo@);
        assert forall|t: int| 0 <= t < out@.len() implies cs.degree(#[trigger] out@[t]) == 1 by {
            if t < 64 {
                assert(cs.degree(lo@[t]) == 1);
            } else {
                assert(cs.degree(hi@[t - 64]) == 1);
            }
        }
        assert forall|t: int| 0 <= t < out@.len() implies cs.has(#[trigger] out@[t]) by {
            if t < 64 {
                assert(cs.has(lo@[t]));
            } else {
                assert(cs.has(hi@[t - 64]));
            }
        }
        assert forall|env: Env| #[trigger] cs.values(out@, env) == air::carry_bits(
            *k,
            env,
            word as int,
        ) by {
            cs.lemma_values_stable(c1, lo@, env);
            let want = air::carry_bits(*k, env, word as int);
            assert(c1.values(lo@, env) == constraint::cells(
                env.cur,
                k.carry_lo_bits.start + 64 * word,
                64,
            ));
            assert(cs.values(hi@, env) == constraint::cells(
                env.cur,
                k.carry_hi_bits.start + 6 * word,
                6,
            ));
            assert forall|t: int| 0 <= t < 70 implies #[trigger] cs.values(out@, env)[t]
                == want[t] by {
                if t < 64 {
                    assert(cs.values(lo@, env)[t] == cs.value(lo@[t], env));
                } else {
                    assert(cs.values(hi@, env)[t - 64] == cs.value(hi@[t - 64], env));
                }
            }
            assert(cs.values(out@, env) =~= want);
        }
    }
    out
}

/// Imposes [`air::word_roots`].
fn constrain_word(
    cs: &mut ConstraintSystem,
    basis: &ExpBasis,
    k: &ModexpCols,
    word: usize,
    end: Col,
)
    requires
        old(cs).wf(),
        basis.wf(),
        k.wf(),
        word < 8,
    ensures
        final(cs).wf(),
        final(cs).extends(*old(cs)),
        old(cs).within(5) ==> final(cs).within(5),
        forall|env: Env|
            (#[trigger] final(cs).root_values(env)) == old(cs).root_values(env) + air::word_roots(
                *k,
                basis.g(),
                env,
                word as int,
                end,
            ),
{
    let bits = read_carry_bits(cs, k, word);
    let ghost c1 = *cs;
    let mut cells = read(cs, k.ce[word]);
    let ghost ce = cells@;
    let ghost c2 = *cs;
    let last = cs.col(end.0);
    cells.push(last);
    let ghost c3 = *cs;
    let pow2s = powers(basis, CARRY_BITS);
    proof {
        c2.lemma_has_stable(c1, bits@);
        c2.lemma_linear_stable(c1, bits@);
        c3.lemma_has_stable(c2, bits@);
        c3.lemma_linear_stable(c2, bits@);
        c3.lemma_has_stable(c2, ce);
        c3.lemma_linear_stable(c2, ce);
        assert forall|t: int| 0 <= t < cells@.len() implies c3.degree(#[trigger] cells@[t]) == 1 by {
            if t < 34 {
                assert(c3.degree(ce[t]) == 1);
            }
        }
        assert forall|t: int| 0 <= t < cells@.len() implies c3.has(#[trigger] cells@[t]) by {
            if t < 34 {
                assert(c3.has(ce[t]));
            }
        }
    }
    constrain_exp_chain2(cs, bits.as_slice(), cells.as_slice(), pow2s.as_slice());
    let ghost c4 = *cs;
    let fr = read(cs, k.fr[word]);
    let ghost c5 = *cs;
    constrain_fourth_powers(cs, last, fr.as_slice());
    proof {
        assert forall|env: Env| (#[trigger] cs.root_values(env)) == old(cs).root_values(env)
            + air::word_roots(*k, basis.g(), env, word as int, end) by {
            c2.lemma_values_stable(c1, bits@, env);
            c3.lemma_values_stable(c2, bits@, env);
            c3.lemma_values_stable(c2, ce, env);
            assert(c1.values(bits@, env) == air::carry_bits(*k, env, word as int));
            assert(c2.values(ce, env) == air::run(env, k.ce@[word as int]));
            assert(c3.value(last, env) == air::here(env, end));
            assert(c3.values(cells@, env) =~= c3.values(ce, env).push(c3.value(last, env)));
            assert(c3.root_values(env) == old(cs).root_values(env));
            assert(c5.values(fr@, env) == air::run(env, k.fr@[word as int]));
            assert(c4.value(last, env) == c3.value(last, env));
            assert(c5.value(last, env) == c4.value(last, env));
            assert(cs.root_values(env) =~= old(cs).root_values(env) + air::word_roots(
                *k,
                basis.g(),
                env,
                word as int,
                end,
            ));
        }
    }
}

/// Imposes [`air::split_roots`].
fn constrain_splits(cs: &mut ConstraintSystem, k: &ModexpCols, side: usize)
    requires
        old(cs).wf(),
        k.wf(),
        side < 2,
    ensures
        final(cs).wf(),
        final(cs).extends(*old(cs)),
        old(cs).within(5) ==> final(cs).within(5),
        forall|env: Env|
            (#[trigger] final(cs).root_values(env)) == old(cs).root_values(env) + air::split_roots(
                *k,
                env,
                side as int,
            ),
{
    let ghost start = *cs;
    let (add0, add1) = if side == 0 {
        let one = cs.one();
        (one, one)
    } else {
        let low = cs.col(k.lch[0].at(half(Y_BITS) - 1).0);
        let high = cs.col(k.lch[1].at(half(Y_BITS) - 1).0);
        (low, high)
    };
    let ghost c1 = *cs;
    proof {
        assert forall|env: Env|
            #[trigger] c1.value(add0, env) == air::added_at(*k, env, side as int, 0) by {}
        assert forall|env: Env|
            #[trigger] c1.value(add1, env) == air::added_at(*k, env, side as int, 1) by {}
    }
    constrain_split(
        cs,
        k.u[side].at(0),
        k.c[side],
        Some(add0),
        k.dg[0].at(15),
        k.fr[2 * side].at(15),
    );
    let ghost c2 = *cs;
    constrain_split(
        cs,
        k.u[side].at(1),
        k.cm[side],
        Some(add1),
        k.dg[1].at(15),
        k.fr[2 * side + 1].at(15),
    );
    let ghost c3 = *cs;
    constrain_split(
        cs,
        k.ut[side].at(0),
        k.ct[side],
        None,
        k.dg[2].at(15),
        k.fr[4 + 2 * side].at(15),
    );
    let ghost c4 = *cs;
    constrain_split(
        cs,
        k.ut[side].at(1),
        k.ctm[side],
        None,
        k.dg[3].at(15),
        k.fr[4 + 2 * side + 1].at(15),
    );
    proof {
        assert forall|env: Env| (#[trigger] cs.root_values(env)) == old(cs).root_values(env)
            + air::split_roots(*k, env, side as int) by {
            assert(c1.root_values(env) == start.root_values(env));
            assert(c1.value(add0, env) == air::added_at(*k, env, side as int, 0));
            assert(c1.value(add1, env) == air::added_at(*k, env, side as int, 1));
            assert(c2.value(add1, env) == c1.value(add1, env));
            assert(c2.root_values(env).len() == c1.root_values(env).len() + 1);
            assert(c3.root_values(env).len() == c2.root_values(env).len() + 1);
            assert(c4.root_values(env).len() == c3.root_values(env).len() + 1);
            assert(cs.root_values(env) =~= old(cs).root_values(env) + air::split_roots(
                *k,
                env,
                side as int,
            ));
        }
    }
}

/// Imposes that a column, its carry and what is added split into a digit and
/// a shifted carry.
fn constrain_split(
    cs: &mut ConstraintSystem,
    column: Col,
    carry: Col,
    added: Option<Expr>,
    digit: Col,
    shifted: Col,
)
    requires
        old(cs).wf(),
        added matches Some(e) ==> old(cs).has(e),
    ensures
        final(cs).wf(),
        final(cs).extends(*old(cs)),
        (added matches Some(e) ==> old(cs).degree(e) <= 1) && old(cs).within(5) ==> final(cs).within(
            5,
        ),
        forall|env: Env|
            (#[trigger] final(cs).root_values(env)) == old(cs).root_values(env).push(
                (match added {
                    Some(e) => gf::gf128_mul(
                        gf::gf128_mul(air::here(env, column), air::here(env, carry)),
                        old(cs).value(e, env),
                    ),
                    None => gf::gf128_mul(air::here(env, column), air::here(env, carry)),
                }) ^ gf::gf128_mul(air::here(env, digit), air::here(env, shifted)),
            ),
{
    let u = cs.col(column.0);
    let c = cs.col(carry.0);
    let mut left = cs.times(u, c);
    match added {
        Some(e) => {
            left = cs.times(left, e);
        },
        None => {},
    }
    let d = cs.col(digit.0);
    let f = cs.col(shifted.0);
    let right = cs.times(d, f);
    let root = cs.plus(left, right);
    cs.constrain(root);
}

/// Imposes [`air::side_roots`].
pub fn constrain_side(cs: &mut ConstraintSystem, basis: &ExpBasis, k: &ModexpCols, side: usize)
    requires
        old(cs).wf(),
        basis.wf(),
        k.wf(),
        side < 2,
    ensures
        final(cs).wf(),
        final(cs).extends(*old(cs)),
        old(cs).within(5) ==> final(cs).within(5),
        final(cs).reaches(5),
        forall|env: Env|
            (#[trigger] final(cs).root_values(env)) == old(cs).root_values(env) + air::side_roots(
                *k,
                basis.g(),
                env,
                side as int,
            ),
{
    constrain_limb_power(cs, basis, k, side);
    let ghost c1 = *cs;
    constrain_products(cs, k, side);
    let ghost c2 = *cs;
    constrain_running(cs, k, side);
    let ghost c3 = *cs;
    constrain_links(cs, k, side);
    let ghost c4 = *cs;
    constrain_word(cs, basis, k, 2 * side, k.cm[side]);
    let ghost c5 = *cs;
    constrain_word(cs, basis, k, 2 * side + 1, k.co[side]);
    let ghost c6 = *cs;
    constrain_word(cs, basis, k, 4 + 2 * side, k.ctm[side]);
    let ghost c7 = *cs;
    constrain_word(cs, basis, k, 4 + 2 * side + 1, k.cto[side]);
    let ghost c8 = *cs;
    constrain_splits(cs, k, side);
    proof {
        assert forall|env: Env| (#[trigger] cs.root_values(env)) == old(cs).root_values(env)
            + air::side_roots(*k, basis.g(), env, side as int) by {
            let g = basis.g();
            let sd = side as int;
            let r0 = old(cs).root_values(env);
            let (a, b, c, d) = (
                air::limb_roots(*k, g, env, sd),
                air::product_roots(*k, env, sd, 64),
                air::running_roots(*k, env, sd, 64),
                air::link_roots(*k, env, sd),
            );
            let (e, f, h, i) = (
                air::word_roots(*k, g, env, 2 * sd, k.cm@[sd]),
                air::word_roots(*k, g, env, 2 * sd + 1, k.co@[sd]),
                air::word_roots(*k, g, env, 4 + 2 * sd, k.ctm@[sd]),
                air::word_roots(*k, g, env, 4 + 2 * sd + 1, k.cto@[sd]),
            );
            let j = air::split_roots(*k, env, sd);
            assert(c1.root_values(env) == r0 + a);
            assert(c2.root_values(env) == c1.root_values(env) + b);
            assert(c3.root_values(env) == c2.root_values(env) + c);
            assert(c4.root_values(env) == c3.root_values(env) + d);
            assert(c5.root_values(env) == c4.root_values(env) + e);
            assert(c6.root_values(env) == c5.root_values(env) + f);
            assert(c7.root_values(env) == c6.root_values(env) + h);
            assert(c8.root_values(env) == c7.root_values(env) + i);
            lemma_join(r0, a, b);
            lemma_join(r0, a + b, c);
            lemma_join(r0, a + b + c, d);
            lemma_join(r0, a + b + c + d, e);
            lemma_join(r0, a + b + c + d + e, f);
            lemma_join(r0, a + b + c + d + e + f, h);
            lemma_join(r0, a + b + c + d + e + f + h, i);
            lemma_join(r0, a + b + c + d + e + f + h + i, j);
        }
    }
}

/// Concatenation associates.
pub proof fn lemma_join(a: Seq<u128>, b: Seq<u128>, c: Seq<u128>)
    ensures
        (a + b) + c == a + (b + c),
{
    assert((a + b) + c =~= a + (b + c));
}

} // verus!
