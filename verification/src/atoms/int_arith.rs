//! Emulated integer arithmetic over binary tower fields.
//!
//! GF(2^k) addition is XOR with no integer carry. Proving integer
//! operations requires bit-decomposed operands with explicit
//! carry/borrow chain constraints.

use vstd::arithmetic::power2::*;
use vstd::prelude::*;

use crate::bits;
use crate::field::gf;
use crate::field::Block128;
use crate::program::constraint;
use crate::program::constraint::{ConstraintSystem, Env, Expr};

verus! {

// ---------------------------------------------------------------
// What each gadget imposes
// ---------------------------------------------------------------

/// `r + a + b + c`: zero where `r` is the sum bit.
pub open spec fn sum_residue(a: u128, b: u128, c: u128, r: u128) -> u128 {
    ((r ^ a) ^ b) ^ c
}

/// `c' + ab + ac + bc`: zero where `c'` is the carry out.
pub open spec fn carry_residue(a: u128, b: u128, c: u128, c_next: u128) -> u128 {
    ((c_next ^ gf::gf128_mul(a, b)) ^ gf::gf128_mul(a, c)) ^ gf::gf128_mul(b, c)
}

/// `w' + b + ab + w + aw + bw`: zero where `w'` is the borrow out.
pub open spec fn borrow_residue(a: u128, b: u128, w: u128, w_next: u128) -> u128 {
    ((((w_next ^ b) ^ gf::gf128_mul(a, b)) ^ w) ^ gf::gf128_mul(a, w)) ^ gf::gf128_mul(b, w)
}

/// The constraints of bit `i` of an addition.
pub open spec fn add_step(
    a: Seq<u128>,
    b: Seq<u128>,
    r: Seq<u128>,
    c: Seq<u128>,
    i: int,
) -> Seq<u128> {
    seq![
        constraint::boolean_residue(r[i]),
        constraint::boolean_residue(c[i + 1]),
        sum_residue(a[i], b[i], c[i], r[i]),
        carry_residue(a[i], b[i], c[i], c[i + 1]),
    ]
}

/// The constraints of the first `n` bits of an addition.
pub open spec fn add_steps(
    a: Seq<u128>,
    b: Seq<u128>,
    r: Seq<u128>,
    c: Seq<u128>,
    n: nat,
) -> Seq<u128>
    decreases n,
{
    if n == 0 {
        Seq::empty()
    } else {
        add_steps(a, b, r, c, (n - 1) as nat) + add_step(a, b, r, c, n - 1)
    }
}

/// Everything [`add_carry_chain`] imposes.
pub open spec fn add_chain(
    a: Seq<u128>,
    b: Seq<u128>,
    r: Seq<u128>,
    c: Seq<u128>,
) -> Seq<u128> {
    seq![c[0]] + add_steps(a, b, r, c, a.len())
}

/// Builds `r + a + b + c`.
fn sum_expr(cs: &mut ConstraintSystem, a: Expr, b: Expr, c: Expr, r: Expr) -> (e: Expr)
    requires
        old(cs).wf(),
        old(cs).has(a),
        old(cs).has(b),
        old(cs).has(c),
        old(cs).has(r),
    ensures
        final(cs).wf(),
        final(cs).has(e),
        final(cs).extends(*old(cs)),
        final(cs).degree(e) == constraint::larger(
            constraint::larger(constraint::larger(old(cs).degree(r), old(cs).degree(a)), old(cs).degree(b)),
            old(cs).degree(c),
        ),
        final(cs).root_degrees() == old(cs).root_degrees(),
        forall|env: Env|
            #[trigger] final(cs).value(e, env) == sum_residue(
                old(cs).value(a, env),
                old(cs).value(b, env),
                old(cs).value(c, env),
                old(cs).value(r, env),
            ),
        forall|env: Env| (#[trigger] final(cs).root_values(env)) == old(cs).root_values(env),
{
    let ra = cs.plus(r, a);
    let rab = cs.plus(ra, b);
    let e = cs.plus(rab, c);
    e
}

/// Builds `c' + ab + ac + bc`.
fn carry_expr(cs: &mut ConstraintSystem, a: Expr, b: Expr, c: Expr, c_next: Expr) -> (e: Expr)
    requires
        old(cs).wf(),
        old(cs).has(a),
        old(cs).has(b),
        old(cs).has(c),
        old(cs).has(c_next),
    ensures
        final(cs).wf(),
        final(cs).has(e),
        final(cs).extends(*old(cs)),
        final(cs).degree(e) == constraint::larger(
            constraint::larger(
                constraint::larger(old(cs).degree(c_next), old(cs).degree(a) + old(cs).degree(b)),
                old(cs).degree(a) + old(cs).degree(c),
            ),
            old(cs).degree(b) + old(cs).degree(c),
        ),
        final(cs).root_degrees() == old(cs).root_degrees(),
        forall|env: Env|
            #[trigger] final(cs).value(e, env) == carry_residue(
                old(cs).value(a, env),
                old(cs).value(b, env),
                old(cs).value(c, env),
                old(cs).value(c_next, env),
            ),
        forall|env: Env| (#[trigger] final(cs).root_values(env)) == old(cs).root_values(env),
{
    let ab = cs.times(a, b);
    let ac = cs.times(a, c);
    let bc = cs.times(b, c);
    let e1 = cs.plus(c_next, ab);
    let e2 = cs.plus(e1, ac);
    let e = cs.plus(e2, bc);
    e
}

/// The constraints of one bit of an addition.
fn constrain_add_bit(
    cs: &mut ConstraintSystem,
    a: Expr,
    b: Expr,
    c: Expr,
    r: Expr,
    c_next: Expr,
)
    requires
        old(cs).wf(),
        old(cs).has(a),
        old(cs).has(b),
        old(cs).has(c),
        old(cs).has(r),
        old(cs).has(c_next),
    ensures
        final(cs).wf(),
        final(cs).extends(*old(cs)),
        old(cs).degree(c) <= 1 && old(cs).degree(r) <= 1 && old(cs).degree(c_next) <= 1 ==> forall|
            p: nat,
            q: nat,
            d: nat,
        |
            #![trigger final(cs).within(d), constraint::larger(p, q)]
            1 <= p && 1 <= q && p + q <= d && old(cs).degree(a) <= p && old(cs).degree(b) <= q
                && old(cs).within(d) ==> final(cs).within(d),
        forall|env: Env|
            (#[trigger] final(cs).root_values(env)) == old(cs).root_values(env) + seq![
                constraint::boolean_residue(old(cs).value(r, env)),
                constraint::boolean_residue(old(cs).value(c_next, env)),
                sum_residue(
                    old(cs).value(a, env),
                    old(cs).value(b, env),
                    old(cs).value(c, env),
                    old(cs).value(r, env),
                ),
                carry_residue(
                    old(cs).value(a, env),
                    old(cs).value(b, env),
                    old(cs).value(c, env),
                    old(cs).value(c_next, env),
                ),
            ],
{
    cs.assert_boolean(r);
    cs.assert_boolean(c_next);
    let sum = sum_expr(cs, a, b, c, r);
    cs.constrain(sum);
    let carry = carry_expr(cs, a, b, c, c_next);
    cs.constrain(carry);
}


/// Every constraint multiplied by the selector's value.
pub open spec fn gated(s: u128, vs: Seq<u128>) -> Seq<u128> {
    Seq::new(vs.len(), |i: int| gf::gf128_mul(s, vs[i]))
}

/// The constraints of bit `i` of a subtraction.
pub open spec fn sub_step(
    a: Seq<u128>,
    b: Seq<u128>,
    r: Seq<u128>,
    w: Seq<u128>,
    i: int,
) -> Seq<u128> {
    seq![
        constraint::boolean_residue(r[i]),
        constraint::boolean_residue(w[i + 1]),
        sum_residue(a[i], b[i], w[i], r[i]),
        borrow_residue(a[i], b[i], w[i], w[i + 1]),
    ]
}

/// The constraints of the first `n` bits of a subtraction.
pub open spec fn sub_steps(
    a: Seq<u128>,
    b: Seq<u128>,
    r: Seq<u128>,
    w: Seq<u128>,
    n: nat,
) -> Seq<u128>
    decreases n,
{
    if n == 0 {
        Seq::empty()
    } else {
        sub_steps(a, b, r, w, (n - 1) as nat) + sub_step(a, b, r, w, n - 1)
    }
}

/// Everything [`sub_borrow_chain`] imposes.
pub open spec fn sub_chain(
    a: Seq<u128>,
    b: Seq<u128>,
    r: Seq<u128>,
    w: Seq<u128>,
) -> Seq<u128> {
    seq![w[0]] + sub_steps(a, b, r, w, a.len())
}

/// Builds `w' + b + ab + w + aw + bw`.
fn borrow_expr(cs: &mut ConstraintSystem, a: Expr, b: Expr, w: Expr, w_next: Expr) -> (e: Expr)
    requires
        old(cs).wf(),
        old(cs).has(a),
        old(cs).has(b),
        old(cs).has(w),
        old(cs).has(w_next),
    ensures
        final(cs).wf(),
        final(cs).has(e),
        final(cs).extends(*old(cs)),
        forall|env: Env|
            #[trigger] final(cs).value(e, env) == borrow_residue(
                old(cs).value(a, env),
                old(cs).value(b, env),
                old(cs).value(w, env),
                old(cs).value(w_next, env),
            ),
        forall|env: Env| (#[trigger] final(cs).root_values(env)) == old(cs).root_values(env),
{
    let ab = cs.times(a, b);
    let aw = cs.times(a, w);
    let bw = cs.times(b, w);
    let e1 = cs.plus(w_next, b);
    let e2 = cs.plus(e1, ab);
    let e3 = cs.plus(e2, w);
    let e4 = cs.plus(e3, aw);
    cs.plus(e4, bw)
}

/// The constraints of one bit of a subtraction.
fn constrain_sub_bit(
    cs: &mut ConstraintSystem,
    a: Expr,
    b: Expr,
    w: Expr,
    r: Expr,
    w_next: Expr,
)
    requires
        old(cs).wf(),
        old(cs).has(a),
        old(cs).has(b),
        old(cs).has(w),
        old(cs).has(r),
        old(cs).has(w_next),
    ensures
        final(cs).wf(),
        final(cs).extends(*old(cs)),
        forall|env: Env|
            (#[trigger] final(cs).root_values(env)) == old(cs).root_values(env) + seq![
                constraint::boolean_residue(old(cs).value(r, env)),
                constraint::boolean_residue(old(cs).value(w_next, env)),
                sum_residue(
                    old(cs).value(a, env),
                    old(cs).value(b, env),
                    old(cs).value(w, env),
                    old(cs).value(r, env),
                ),
                borrow_residue(
                    old(cs).value(a, env),
                    old(cs).value(b, env),
                    old(cs).value(w, env),
                    old(cs).value(w_next, env),
                ),
            ],
{
    cs.assert_boolean(r);
    cs.assert_boolean(w_next);
    let sum = sum_expr(cs, a, b, w, r);
    cs.constrain(sum);
    let borrow = borrow_expr(cs, a, b, w, w_next);
    cs.constrain(borrow);
}

/// Builds `e · (e + 1)`.
fn boolean_expr(cs: &mut ConstraintSystem, e: Expr, one: Expr) -> (r: Expr)
    requires
        old(cs).wf(),
        old(cs).has(e),
        old(cs).has(one),
        forall|env: Env| #[trigger] old(cs).value(one, env) == 1,
    ensures
        final(cs).wf(),
        final(cs).has(r),
        final(cs).extends(*old(cs)),
        forall|env: Env|
            #[trigger] final(cs).value(r, env) == constraint::boolean_residue(
                old(cs).value(e, env),
            ),
        forall|env: Env| (#[trigger] final(cs).root_values(env)) == old(cs).root_values(env),
{
    let shifted = cs.plus(e, one);
    cs.times(e, shifted)
}

/// Two booleanity constraints and two of the chain, all under a selector.
fn constrain_bit_gated(
    cs: &mut ConstraintSystem,
    selector: Expr,
    one: Expr,
    r: Expr,
    out: Expr,
    sum: Expr,
    chain: Expr,
)
    requires
        old(cs).wf(),
        old(cs).has(selector),
        old(cs).has(one),
        old(cs).has(r),
        old(cs).has(out),
        old(cs).has(sum),
        old(cs).has(chain),
        forall|env: Env| #[trigger] old(cs).value(one, env) == 1,
    ensures
        final(cs).wf(),
        final(cs).extends(*old(cs)),
        forall|env: Env|
            (#[trigger] final(cs).root_values(env)) == old(cs).root_values(env) + gated(
                old(cs).value(selector, env),
                seq![
                    constraint::boolean_residue(old(cs).value(r, env)),
                    constraint::boolean_residue(old(cs).value(out, env)),
                    old(cs).value(sum, env),
                    old(cs).value(chain, env),
                ],
            ),
{
    let bool_r = boolean_expr(cs, r, one);
    cs.assert_zero_when(selector, bool_r);
    let bool_out = boolean_expr(cs, out, one);
    cs.assert_zero_when(selector, bool_out);
    cs.assert_zero_when(selector, sum);
    cs.assert_zero_when(selector, chain);
}

/// Constrain n-bit unsigned addition: a + b = result.
///
/// GF(2) carry chain:
/// result[i] = a[i] + b[i] + carry[i],
/// carry[i+1] = a[i]*b[i] + a[i]*carry[i] + b[i]*carry[i].
///
/// `carry_bits[0]` forced to zero; `carry_bits[n]` is overflow.
pub fn add_carry_chain(
    cs: &mut ConstraintSystem,
    a_bits: &[Expr],
    b_bits: &[Expr],
    result_bits: &[Expr],
    carry_bits: &[Expr],
)
    requires
        old(cs).wf(),
        old(cs).has_all(a_bits@),
        old(cs).has_all(b_bits@),
        old(cs).has_all(result_bits@),
        old(cs).has_all(carry_bits@),
        b_bits@.len() == a_bits@.len(),
        result_bits@.len() == a_bits@.len(),
        carry_bits@.len() == a_bits@.len() + 1,
    ensures
        final(cs).wf(),
        final(cs).extends(*old(cs)),
        forall|p: nat, q: nat, d: nat|
            #![trigger old(cs).up_to(a_bits@, p), old(cs).up_to(b_bits@, q), final(cs).within(d)]
            1 <= p && 1 <= q && p + q <= d && old(cs).up_to(a_bits@, p) && old(cs).up_to(
                b_bits@,
                q,
            ) && old(cs).up_to(result_bits@, 1) && old(cs).up_to(carry_bits@, 1) && old(cs).within(d)
                ==> final(cs).within(d),
        forall|env: Env|
            (#[trigger] final(cs).root_values(env)) == old(cs).root_values(env) + add_chain(
                old(cs).values(a_bits@, env),
                old(cs).values(b_bits@, env),
                old(cs).values(result_bits@, env),
                old(cs).values(carry_bits@, env),
            ),
{
    let n: usize = a_bits.len();
    proof {
        assert(old(cs).has(carry_bits@[0]));
    }
    cs.constrain(carry_bits[0]);
    proof {
        assert forall|env: Env|
            (#[trigger] cs.root_values(env)) == old(cs).root_values(env) + (seq![old(cs).value(carry_bits@[0], env)] + add_steps(
                old(cs).values(a_bits@, env),
                old(cs).values(b_bits@, env),
                old(cs).values(result_bits@, env),
                old(cs).values(carry_bits@, env),
                0,
            )) by {
            assert(cs.root_values(env) =~= old(cs).root_values(env) + (seq![old(cs).value(carry_bits@[0], env)] + add_steps(
                old(cs).values(a_bits@, env),
                old(cs).values(b_bits@, env),
                old(cs).values(result_bits@, env),
                old(cs).values(carry_bits@, env),
                0,
            )));
        }
    }
    for i in 0..n
        invariant
            n == a_bits@.len(),
            cs.wf(),
            cs.extends(*old(cs)),
            forall|p: nat, q: nat, d: nat|
                #![trigger old(cs).up_to(a_bits@, p), old(cs).up_to(b_bits@, q), cs.within(d)]
                1 <= p && 1 <= q && p + q <= d && old(cs).up_to(a_bits@, p) && old(cs).up_to(
                    b_bits@,
                    q,
                ) && old(cs).up_to(result_bits@, 1) && old(cs).up_to(carry_bits@, 1) && old(cs).within(d) ==> cs.within(d),
            old(cs).has_all(a_bits@),
            old(cs).has_all(b_bits@),
            old(cs).has_all(result_bits@),
            old(cs).has_all(carry_bits@),
            b_bits@.len() == n,
            result_bits@.len() == n,
            carry_bits@.len() == n + 1,
            forall|env: Env|
                (#[trigger] cs.root_values(env)) == old(cs).root_values(env) + (seq![old(cs).value(carry_bits@[0], env)] + add_steps(
                old(cs).values(a_bits@, env),
                old(cs).values(b_bits@, env),
                old(cs).values(result_bits@, env),
                old(cs).values(carry_bits@, env),
                i as nat,
            )),
    {
        let a = a_bits[i];
        let b = b_bits[i];
        let c = carry_bits[i];
        let r = result_bits[i];
        let c_next = carry_bits[i + 1];
        proof {
            let o = *old(cs);
            assert(o.has(a_bits@[i as int]) && o.has(b_bits@[i as int]));
            assert(o.has(result_bits@[i as int]));
            assert(o.has(carry_bits@[i as int]) && o.has(carry_bits@[i + 1]));
        }
        let ghost before = *cs;
        constrain_add_bit(cs, a, b, c, r, c_next);
        proof {
            let o = *old(cs);
            assert forall|p: nat, q: nat, d: nat|
                #![trigger o.up_to(a_bits@, p), o.up_to(b_bits@, q), cs.within(d)]
                1 <= p && 1 <= q && p + q <= d && o.up_to(a_bits@, p) && o.up_to(b_bits@, q)
                    && o.up_to(result_bits@, 1) && o.up_to(carry_bits@, 1) && o.within(
                    d,
                ) implies cs.within(d) by {
                let _ = constraint::larger(p, q);
                assert(before.within(d));
            }
            assert forall|env: Env|
                (#[trigger] cs.root_values(env)) == o.root_values(env) + (seq![o.value(carry_bits@[0], env)] + add_steps(
                o.values(a_bits@, env),
                o.values(b_bits@, env),
                o.values(result_bits@, env),
                o.values(carry_bits@, env),
                (i + 1) as nat,
            )) by {
                let (va, vb, vr, vc) = (
                    o.values(a_bits@, env),
                    o.values(b_bits@, env),
                    o.values(result_bits@, env),
                    o.values(carry_bits@, env),
                );
                assert(before.root_values(env) == o.root_values(env) + (seq![o.value(carry_bits@[0], env)] + add_steps(va, vb, vr, vc, i as nat)));
                assert(add_steps(va, vb, vr, vc, (i + 1) as nat) == add_steps(va, vb, vr, vc, i as nat)
                    + add_step(va, vb, vr, vc, i as int));
                assert(cs.root_values(env) =~= o.root_values(env) + (seq![o.value(carry_bits@[0], env)] + add_steps(va, vb, vr, vc, (i + 1) as nat)));
            }
        }
    }
}

/// Like [`add_carry_chain`] but `carry_bits[0]` is not forced to zero,
/// the caller controls the initial carry for multi-word chaining.
pub fn add_carry_chain_with_carry_in(
    cs: &mut ConstraintSystem,
    a_bits: &[Expr],
    b_bits: &[Expr],
    result_bits: &[Expr],
    carry_bits: &[Expr],
)
    requires
        old(cs).wf(),
        old(cs).has_all(a_bits@),
        old(cs).has_all(b_bits@),
        old(cs).has_all(result_bits@),
        old(cs).has_all(carry_bits@),
        b_bits@.len() == a_bits@.len(),
        result_bits@.len() == a_bits@.len(),
        carry_bits@.len() == a_bits@.len() + 1,
    ensures
        final(cs).wf(),
        final(cs).extends(*old(cs)),
        forall|env: Env|
            (#[trigger] final(cs).root_values(env)) == old(cs).root_values(env) + add_steps(
                old(cs).values(a_bits@, env),
                old(cs).values(b_bits@, env),
                old(cs).values(result_bits@, env),
                old(cs).values(carry_bits@, env),
                a_bits@.len(),
            ),
{
    let n: usize = a_bits.len();

    proof {
        assert forall|env: Env|
            (#[trigger] cs.root_values(env)) == old(cs).root_values(env) + add_steps(
                old(cs).values(a_bits@, env),
                old(cs).values(b_bits@, env),
                old(cs).values(result_bits@, env),
                old(cs).values(carry_bits@, env),
                0,
            ) by {
            assert(cs.root_values(env) =~= old(cs).root_values(env) + add_steps(
                old(cs).values(a_bits@, env),
                old(cs).values(b_bits@, env),
                old(cs).values(result_bits@, env),
                old(cs).values(carry_bits@, env),
                0,
            ));
        }
    }
    for i in 0..n
        invariant
            n == a_bits@.len(),
            cs.wf(),
            cs.extends(*old(cs)),
            old(cs).has_all(a_bits@),
            old(cs).has_all(b_bits@),
            old(cs).has_all(result_bits@),
            old(cs).has_all(carry_bits@),
            b_bits@.len() == n,
            result_bits@.len() == n,
            carry_bits@.len() == n + 1,
            forall|env: Env|
                (#[trigger] cs.root_values(env)) == old(cs).root_values(env) + add_steps(
                old(cs).values(a_bits@, env),
                old(cs).values(b_bits@, env),
                old(cs).values(result_bits@, env),
                old(cs).values(carry_bits@, env),
                i as nat,
            ),
    {
        let a = a_bits[i];
        let b = b_bits[i];
        let c = carry_bits[i];
        let r = result_bits[i];
        let c_next = carry_bits[i + 1];
        proof {
            let o = *old(cs);
            assert(o.has(a_bits@[i as int]) && o.has(b_bits@[i as int]));
            assert(o.has(result_bits@[i as int]));
            assert(o.has(carry_bits@[i as int]) && o.has(carry_bits@[i + 1]));
        }
        let ghost before = *cs;
        constrain_add_bit(cs, a, b, c, r, c_next);
        proof {
            let o = *old(cs);
            assert forall|env: Env|
                (#[trigger] cs.root_values(env)) == o.root_values(env) + add_steps(
                o.values(a_bits@, env),
                o.values(b_bits@, env),
                o.values(result_bits@, env),
                o.values(carry_bits@, env),
                (i + 1) as nat,
            ) by {
                let (va, vb, vr, vc) = (
                    o.values(a_bits@, env),
                    o.values(b_bits@, env),
                    o.values(result_bits@, env),
                    o.values(carry_bits@, env),
                );
                assert(before.root_values(env) == o.root_values(env) + (add_steps(va, vb, vr, vc, i as nat)));
                assert(add_steps(va, vb, vr, vc, (i + 1) as nat) == add_steps(va, vb, vr, vc, i as nat)
                    + add_step(va, vb, vr, vc, i as int));
                assert(cs.root_values(env) =~= o.root_values(env) + (add_steps(va, vb, vr, vc, (i + 1) as nat)));
            }
        }
    }
}

/// Like [`add_carry_chain_with_carry_in`] but every emitted constraint is
/// multiplied by `selector`. Use for multi-opcode chiplets where ADD
/// applies only on `selector = 1` rows.
pub fn add_carry_chain_with_carry_in_gated(
    cs: &mut ConstraintSystem,
    selector: Expr,
    a_bits: &[Expr],
    b_bits: &[Expr],
    result_bits: &[Expr],
    carry_bits: &[Expr],
)
    requires
        old(cs).wf(),
        old(cs).has(selector),
        old(cs).has_all(a_bits@),
        old(cs).has_all(b_bits@),
        old(cs).has_all(result_bits@),
        old(cs).has_all(carry_bits@),
        b_bits@.len() == a_bits@.len(),
        result_bits@.len() == a_bits@.len(),
        carry_bits@.len() == a_bits@.len() + 1,
    ensures
        final(cs).wf(),
        final(cs).extends(*old(cs)),
        forall|env: Env|
            (#[trigger] final(cs).root_values(env)) == old(cs).root_values(env) + gated(
                old(cs).value(selector, env),
                add_steps(
                old(cs).values(a_bits@, env),
                old(cs).values(b_bits@, env),
                old(cs).values(result_bits@, env),
                old(cs).values(carry_bits@, env),
                a_bits@.len(),
            ),
            ),
{
    let n: usize = a_bits.len();
    let one = cs.one();

    proof {
        assert forall|env: Env|
            (#[trigger] cs.root_values(env)) == old(cs).root_values(env) + gated(
                old(cs).value(selector, env),
                add_steps(
                old(cs).values(a_bits@, env),
                old(cs).values(b_bits@, env),
                old(cs).values(result_bits@, env),
                old(cs).values(carry_bits@, env),
                0,
            ),
            ) by {
            assert(cs.root_values(env) =~= old(cs).root_values(env) + gated(
                old(cs).value(selector, env),
                add_steps(
                old(cs).values(a_bits@, env),
                old(cs).values(b_bits@, env),
                old(cs).values(result_bits@, env),
                old(cs).values(carry_bits@, env),
                0,
            ),
            ));
        }
    }
    for i in 0..n
        invariant
            n == a_bits@.len(),
            cs.wf(),
            cs.extends(*old(cs)),
            old(cs).has(selector),
            cs.has(one),
            forall|env: Env| #[trigger] cs.value(one, env) == 1,
            old(cs).has_all(a_bits@),
            old(cs).has_all(b_bits@),
            old(cs).has_all(result_bits@),
            old(cs).has_all(carry_bits@),
            b_bits@.len() == n,
            result_bits@.len() == n,
            carry_bits@.len() == n + 1,
            forall|env: Env|
                (#[trigger] cs.root_values(env)) == old(cs).root_values(env) + gated(
                old(cs).value(selector, env),
                add_steps(
                old(cs).values(a_bits@, env),
                old(cs).values(b_bits@, env),
                old(cs).values(result_bits@, env),
                old(cs).values(carry_bits@, env),
                i as nat,
            ),
            ),
    {
        let a = a_bits[i];
        let b = b_bits[i];
        let c = carry_bits[i];
        let r = result_bits[i];
        let c_next = carry_bits[i + 1];
        proof {
            let o = *old(cs);
            assert(o.has(a_bits@[i as int]) && o.has(b_bits@[i as int]));
            assert(o.has(result_bits@[i as int]));
            assert(o.has(carry_bits@[i as int]) && o.has(carry_bits@[i + 1]));
        }
        let ghost before = *cs;
        let sum = sum_expr(cs, a, b, c, r);
        let chain = carry_expr(cs, a, b, c, c_next);
        constrain_bit_gated(cs, selector, one, r, c_next, sum, chain);
        proof {
            let o = *old(cs);
            assert forall|env: Env|
                (#[trigger] cs.root_values(env)) == o.root_values(env) + gated(
                o.value(selector, env),
                add_steps(
                o.values(a_bits@, env),
                o.values(b_bits@, env),
                o.values(result_bits@, env),
                o.values(carry_bits@, env),
                (i + 1) as nat,
            ),
            ) by {
                let (va, vb, vr, vc) = (
                    o.values(a_bits@, env),
                    o.values(b_bits@, env),
                    o.values(result_bits@, env),
                    o.values(carry_bits@, env),
                );
                assert(before.root_values(env) == o.root_values(env) + gated(o.value(selector, env), add_steps(va, vb, vr, vc, i as nat)));
                assert(add_steps(va, vb, vr, vc, (i + 1) as nat) == add_steps(va, vb, vr, vc, i as nat)
                    + add_step(va, vb, vr, vc, i as int));
                assert(cs.root_values(env) =~= o.root_values(env) + gated(o.value(selector, env), add_steps(va, vb, vr, vc, (i + 1) as nat)));
            }
        }
    }
}

/// Constrain n-bit unsigned subtraction: a - b = result.
///
/// GF(2) borrow chain (!a = a+1):
/// result[i] = a[i] + b[i] + borrow[i],
/// borrow[i+1] = b[i] + a[i]*b[i] + borrow[i] + a[i]*borrow[i] + b[i]*borrow[i].
///
/// `borrow_bits[0]` forced to zero; `borrow_bits[n] = 1` means
/// underflow (a < b).
pub fn sub_borrow_chain(
    cs: &mut ConstraintSystem,
    a_bits: &[Expr],
    b_bits: &[Expr],
    result_bits: &[Expr],
    borrow_bits: &[Expr],
)
    requires
        old(cs).wf(),
        old(cs).has_all(a_bits@),
        old(cs).has_all(b_bits@),
        old(cs).has_all(result_bits@),
        old(cs).has_all(borrow_bits@),
        b_bits@.len() == a_bits@.len(),
        result_bits@.len() == a_bits@.len(),
        borrow_bits@.len() == a_bits@.len() + 1,
    ensures
        final(cs).wf(),
        final(cs).extends(*old(cs)),
        forall|env: Env|
            (#[trigger] final(cs).root_values(env)) == old(cs).root_values(env) + sub_chain(
                old(cs).values(a_bits@, env),
                old(cs).values(b_bits@, env),
                old(cs).values(result_bits@, env),
                old(cs).values(borrow_bits@, env),
            ),
{
    let n: usize = a_bits.len();
    proof {
        assert(old(cs).has(borrow_bits@[0]));
    }
    cs.constrain(borrow_bits[0]);
    proof {
        assert forall|env: Env|
            (#[trigger] cs.root_values(env)) == old(cs).root_values(env) + (seq![old(cs).value(borrow_bits@[0], env)] + sub_steps(
                old(cs).values(a_bits@, env),
                old(cs).values(b_bits@, env),
                old(cs).values(result_bits@, env),
                old(cs).values(borrow_bits@, env),
                0,
            )) by {
            assert(cs.root_values(env) =~= old(cs).root_values(env) + (seq![old(cs).value(borrow_bits@[0], env)] + sub_steps(
                old(cs).values(a_bits@, env),
                old(cs).values(b_bits@, env),
                old(cs).values(result_bits@, env),
                old(cs).values(borrow_bits@, env),
                0,
            )));
        }
    }
    for i in 0..n
        invariant
            n == a_bits@.len(),
            cs.wf(),
            cs.extends(*old(cs)),
            old(cs).has_all(a_bits@),
            old(cs).has_all(b_bits@),
            old(cs).has_all(result_bits@),
            old(cs).has_all(borrow_bits@),
            b_bits@.len() == n,
            result_bits@.len() == n,
            borrow_bits@.len() == n + 1,
            forall|env: Env|
                (#[trigger] cs.root_values(env)) == old(cs).root_values(env) + (seq![old(cs).value(borrow_bits@[0], env)] + sub_steps(
                old(cs).values(a_bits@, env),
                old(cs).values(b_bits@, env),
                old(cs).values(result_bits@, env),
                old(cs).values(borrow_bits@, env),
                i as nat,
            )),
    {
        let a = a_bits[i];
        let b = b_bits[i];
        let c = borrow_bits[i];
        let r = result_bits[i];
        let c_next = borrow_bits[i + 1];
        proof {
            let o = *old(cs);
            assert(o.has(a_bits@[i as int]) && o.has(b_bits@[i as int]));
            assert(o.has(result_bits@[i as int]));
            assert(o.has(borrow_bits@[i as int]) && o.has(borrow_bits@[i + 1]));
        }
        let ghost before = *cs;
        constrain_sub_bit(cs, a, b, c, r, c_next);
        proof {
            let o = *old(cs);
            assert forall|env: Env|
                (#[trigger] cs.root_values(env)) == o.root_values(env) + (seq![o.value(borrow_bits@[0], env)] + sub_steps(
                o.values(a_bits@, env),
                o.values(b_bits@, env),
                o.values(result_bits@, env),
                o.values(borrow_bits@, env),
                (i + 1) as nat,
            )) by {
                let (va, vb, vr, vc) = (
                    o.values(a_bits@, env),
                    o.values(b_bits@, env),
                    o.values(result_bits@, env),
                    o.values(borrow_bits@, env),
                );
                assert(before.root_values(env) == o.root_values(env) + (seq![o.value(borrow_bits@[0], env)] + sub_steps(va, vb, vr, vc, i as nat)));
                assert(sub_steps(va, vb, vr, vc, (i + 1) as nat) == sub_steps(va, vb, vr, vc, i as nat)
                    + sub_step(va, vb, vr, vc, i as int));
                assert(cs.root_values(env) =~= o.root_values(env) + (seq![o.value(borrow_bits@[0], env)] + sub_steps(va, vb, vr, vc, (i + 1) as nat)));
            }
        }
    }
}

/// Like [`sub_borrow_chain`] but every emitted constraint is
/// multiplied by `selector`.
pub fn sub_borrow_chain_gated(
    cs: &mut ConstraintSystem,
    selector: Expr,
    a_bits: &[Expr],
    b_bits: &[Expr],
    result_bits: &[Expr],
    borrow_bits: &[Expr],
)
    requires
        old(cs).wf(),
        old(cs).has(selector),
        old(cs).has_all(a_bits@),
        old(cs).has_all(b_bits@),
        old(cs).has_all(result_bits@),
        old(cs).has_all(borrow_bits@),
        b_bits@.len() == a_bits@.len(),
        result_bits@.len() == a_bits@.len(),
        borrow_bits@.len() == a_bits@.len() + 1,
    ensures
        final(cs).wf(),
        final(cs).extends(*old(cs)),
        forall|env: Env|
            (#[trigger] final(cs).root_values(env)) == old(cs).root_values(env) + gated(
                old(cs).value(selector, env),
                sub_chain(
                old(cs).values(a_bits@, env),
                old(cs).values(b_bits@, env),
                old(cs).values(result_bits@, env),
                old(cs).values(borrow_bits@, env),
            ),
            ),
{
    let n: usize = a_bits.len();
    let one = cs.one();
    proof {
        assert(old(cs).has(borrow_bits@[0]));
    }
    cs.assert_zero_when(selector, borrow_bits[0]);
    proof {
        assert forall|env: Env|
            (#[trigger] cs.root_values(env)) == old(cs).root_values(env) + gated(
                old(cs).value(selector, env),
                seq![old(cs).value(borrow_bits@[0], env)] + sub_steps(
                old(cs).values(a_bits@, env),
                old(cs).values(b_bits@, env),
                old(cs).values(result_bits@, env),
                old(cs).values(borrow_bits@, env),
                0,
            ),
            ) by {
            assert(cs.root_values(env) =~= old(cs).root_values(env) + gated(
                old(cs).value(selector, env),
                seq![old(cs).value(borrow_bits@[0], env)] + sub_steps(
                old(cs).values(a_bits@, env),
                old(cs).values(b_bits@, env),
                old(cs).values(result_bits@, env),
                old(cs).values(borrow_bits@, env),
                0,
            ),
            ));
        }
    }
    for i in 0..n
        invariant
            n == a_bits@.len(),
            cs.wf(),
            cs.extends(*old(cs)),
            old(cs).has(selector),
            cs.has(one),
            forall|env: Env| #[trigger] cs.value(one, env) == 1,
            old(cs).has_all(a_bits@),
            old(cs).has_all(b_bits@),
            old(cs).has_all(result_bits@),
            old(cs).has_all(borrow_bits@),
            b_bits@.len() == n,
            result_bits@.len() == n,
            borrow_bits@.len() == n + 1,
            forall|env: Env|
                (#[trigger] cs.root_values(env)) == old(cs).root_values(env) + gated(
                old(cs).value(selector, env),
                seq![old(cs).value(borrow_bits@[0], env)] + sub_steps(
                old(cs).values(a_bits@, env),
                old(cs).values(b_bits@, env),
                old(cs).values(result_bits@, env),
                old(cs).values(borrow_bits@, env),
                i as nat,
            ),
            ),
    {
        let a = a_bits[i];
        let b = b_bits[i];
        let c = borrow_bits[i];
        let r = result_bits[i];
        let c_next = borrow_bits[i + 1];
        proof {
            let o = *old(cs);
            assert(o.has(a_bits@[i as int]) && o.has(b_bits@[i as int]));
            assert(o.has(result_bits@[i as int]));
            assert(o.has(borrow_bits@[i as int]) && o.has(borrow_bits@[i + 1]));
        }
        let ghost before = *cs;
        let sum = sum_expr(cs, a, b, c, r);
        let chain = borrow_expr(cs, a, b, c, c_next);
        constrain_bit_gated(cs, selector, one, r, c_next, sum, chain);
        proof {
            let o = *old(cs);
            assert forall|env: Env|
                (#[trigger] cs.root_values(env)) == o.root_values(env) + gated(
                o.value(selector, env),
                seq![o.value(borrow_bits@[0], env)] + sub_steps(
                o.values(a_bits@, env),
                o.values(b_bits@, env),
                o.values(result_bits@, env),
                o.values(borrow_bits@, env),
                (i + 1) as nat,
            ),
            ) by {
                let (va, vb, vr, vc) = (
                    o.values(a_bits@, env),
                    o.values(b_bits@, env),
                    o.values(result_bits@, env),
                    o.values(borrow_bits@, env),
                );
                assert(before.root_values(env) == o.root_values(env) + gated(o.value(selector, env), seq![o.value(borrow_bits@[0], env)] + sub_steps(va, vb, vr, vc, i as nat)));
                assert(sub_steps(va, vb, vr, vc, (i + 1) as nat) == sub_steps(va, vb, vr, vc, i as nat)
                    + sub_step(va, vb, vr, vc, i as int));
                assert(cs.root_values(env) =~= o.root_values(env) + gated(o.value(selector, env), seq![o.value(borrow_bits@[0], env)] + sub_steps(va, vb, vr, vc, (i + 1) as nat)));
            }
        }
    }
}


// ---------------------------------------------------------------
// Range check
// ---------------------------------------------------------------

/// Whether bit `i` of `x` is set.
pub open spec fn bit_set(x: u32, i: int) -> bool {
    (x >> (i as u32)) & 1 == 1
}

/// The constraints of bit `i` of `top - v`, `top` a constant.
pub open spec fn range_step(
    v: Seq<u128>,
    r: Seq<u128>,
    w: Seq<u128>,
    top: u32,
    i: int,
) -> Seq<u128> {
    seq![
        constraint::boolean_residue(r[i]),
        constraint::boolean_residue(w[i + 1]),
        if bit_set(top, i) {
            ((r[i] ^ 1) ^ v[i]) ^ w[i]
        } else {
            (r[i] ^ v[i]) ^ w[i]
        },
        if bit_set(top, i) {
            w[i + 1] ^ gf::gf128_mul(v[i], w[i])
        } else {
            ((w[i + 1] ^ v[i]) ^ w[i]) ^ gf::gf128_mul(v[i], w[i])
        },
    ]
}

/// The constraints of the first `n` bits of `top - v`.
pub open spec fn range_steps(
    v: Seq<u128>,
    r: Seq<u128>,
    w: Seq<u128>,
    top: u32,
    n: nat,
) -> Seq<u128>
    decreases n,
{
    if n == 0 {
        Seq::empty()
    } else {
        range_steps(v, r, w, top, (n - 1) as nat) + range_step(v, r, w, top, n - 1)
    }
}

/// Everything [`range_check`] imposes.
pub open spec fn range_chain(
    v: Seq<u128>,
    r: Seq<u128>,
    w: Seq<u128>,
    bound: u32,
) -> Seq<u128> {
    seq![w[0]] + range_steps(v, r, w, (bound - 1) as u32, v.len()) + seq![w[v.len() as int]]
}

/// Constrain value < bound (unsigned).
///
/// Computes `(bound-1) - value` via a borrow chain;
/// the final borrow forced to zero proves `value < bound`.
pub fn range_check(
    cs: &mut ConstraintSystem,
    value_bits: &[Expr],
    result_bits: &[Expr],
    borrow_bits: &[Expr],
    bound: u32,
)
    requires
        old(cs).wf(),
        old(cs).has_all(value_bits@),
        old(cs).has_all(result_bits@),
        old(cs).has_all(borrow_bits@),
        bound > 0,
        value_bits@.len() <= 32,
        result_bits@.len() == value_bits@.len(),
        borrow_bits@.len() == value_bits@.len() + 1,
    ensures
        final(cs).wf(),
        final(cs).extends(*old(cs)),
        forall|env: Env|
            (#[trigger] final(cs).root_values(env)) == old(cs).root_values(env) + range_chain(
                old(cs).values(value_bits@, env),
                old(cs).values(result_bits@, env),
                old(cs).values(borrow_bits@, env),
                bound,
            ),
{
    let n: usize = value_bits.len();
    let top: u32 = bound - 1;
    proof {
        assert(old(cs).has(borrow_bits@[0]));
        assert(old(cs).has(borrow_bits@[n as int]));
    }

    cs.constrain(borrow_bits[0]);

    for i in 0..n
        invariant
            n == value_bits@.len(),
            n <= 32,
            cs.wf(),
            cs.extends(*old(cs)),
            old(cs).has_all(value_bits@),
            old(cs).has_all(result_bits@),
            old(cs).has_all(borrow_bits@),
            result_bits@.len() == n,
            borrow_bits@.len() == n + 1,
            forall|env: Env|
                (#[trigger] cs.root_values(env)) == old(cs).root_values(env) + (seq![
                    old(cs).value(borrow_bits@[0], env),
                ] + range_steps(
                    old(cs).values(value_bits@, env),
                    old(cs).values(result_bits@, env),
                    old(cs).values(borrow_bits@, env),
                    top,
                    i as nat,
                )),
    {
        let v = value_bits[i];
        let w = borrow_bits[i];
        let r = result_bits[i];
        let w_next = borrow_bits[i + 1];
        proof {
            let o = *old(cs);
            assert(o.has(value_bits@[i as int]) && o.has(result_bits@[i as int]));
            assert(o.has(borrow_bits@[i as int]) && o.has(borrow_bits@[i + 1]));
        }
        let ghost before = *cs;

        cs.assert_boolean(r);
        cs.assert_boolean(w_next);

        if (top >> (i as u32)) & 1 == 1 {
            let one = cs.one();
            let e1 = cs.plus(r, one);
            let e2 = cs.plus(e1, v);
            let e3 = cs.plus(e2, w);
            cs.constrain(e3);

            let vw = cs.times(v, w);
            let e4 = cs.plus(w_next, vw);
            cs.constrain(e4);
        } else {
            let e1 = cs.plus(r, v);
            let e2 = cs.plus(e1, w);
            cs.constrain(e2);

            let vw = cs.times(v, w);
            let e3 = cs.plus(w_next, v);
            let e4 = cs.plus(e3, w);
            let e5 = cs.plus(e4, vw);
            cs.constrain(e5);
        }
        proof {
            let o = *old(cs);
            assert forall|env: Env|
                (#[trigger] cs.root_values(env)) == o.root_values(env) + (seq![
                    o.value(borrow_bits@[0], env),
                ] + range_steps(
                    o.values(value_bits@, env),
                    o.values(result_bits@, env),
                    o.values(borrow_bits@, env),
                    top,
                    (i + 1) as nat,
                )) by {
                let (vv, vr, vw) = (
                    o.values(value_bits@, env),
                    o.values(result_bits@, env),
                    o.values(borrow_bits@, env),
                );
                let head = seq![o.value(borrow_bits@[0], env)];
                assert(before.root_values(env) == o.root_values(env) + (head + range_steps(
                    vv,
                    vr,
                    vw,
                    top,
                    i as nat,
                )));
                assert(range_steps(vv, vr, vw, top, (i + 1) as nat) == range_steps(
                    vv,
                    vr,
                    vw,
                    top,
                    i as nat,
                ) + range_step(vv, vr, vw, top, i as int));
                assert(cs.root_values(env) =~= before.root_values(env) + range_step(
                    vv,
                    vr,
                    vw,
                    top,
                    i as int,
                ));
                assert(cs.root_values(env) =~= o.root_values(env) + (head + range_steps(
                    vv,
                    vr,
                    vw,
                    top,
                    (i + 1) as nat,
                )));
            }
        }
    }

    cs.constrain(borrow_bits[n]);
}


// ---------------------------------------------------------------
// Constant multiplication
// ---------------------------------------------------------------

/// The positions below `n` of the set bits of `c`, ascending.
pub open spec fn set_positions(c: u32, n: nat) -> Seq<usize>
    decreases n,
{
    if n == 0 {
        Seq::empty()
    } else if bit_set(c, n - 1) {
        set_positions(c, (n - 1) as nat).push((n - 1) as usize)
    } else {
        set_positions(c, (n - 1) as nat)
    }
}

/// `bits` moved up by `shift`, in `width` places, zeros around it.
pub open spec fn shifted(bits: Seq<u128>, shift: int, width: nat) -> Seq<u128> {
    Seq::new(
        width,
        |k: int|
            if shift <= k < shift + bits.len() {
                bits[k - shift]
            } else {
                0
            },
    )
}

/// `bits` cut or filled up with zeros to `width` places.
pub open spec fn padded(bits: Seq<u128>, width: nat) -> Seq<u128> {
    shifted(bits, 0, width)
}

/// Where the sum of the first `j + 1` shifted copies lands.
pub open spec fn partial_target<T>(result: T, scratch: Seq<T>, copies: int, j: int) -> T {
    if j == copies - 1 {
        result
    } else {
        scratch[j - 1]
    }
}

/// The additions of the copies `1..=j` of the operand.
pub open spec fn mul_const_adds(
    operand: Seq<u128>,
    result: Seq<u128>,
    results: Seq<Seq<u128>>,
    carries: Seq<Seq<u128>>,
    shifts: Seq<usize>,
    j: nat,
) -> Seq<u128>
    decreases j,
{
    if j == 0 {
        Seq::empty()
    } else {
        let m = shifts.len() as int;
        let target = partial_target(result, results, m, j as int);
        let left = if j == 1 {
            shifted(operand, shifts[0] as int, target.len())
        } else {
            padded(partial_target(result, results, m, j - 1), target.len())
        };
        mul_const_adds(operand, result, results, carries, shifts, (j - 1) as nat) + add_chain(
            left,
            shifted(operand, shifts[j as int] as int, target.len()),
            target,
            carries[j - 1],
        )
    }
}

/// Everything [`mul_const`] imposes.
pub open spec fn mul_const_chain(
    operand: Seq<u128>,
    result: Seq<u128>,
    results: Seq<Seq<u128>>,
    carries: Seq<Seq<u128>>,
    constant: u32,
) -> Seq<u128> {
    let shifts = set_positions(constant, 32);
    if shifts.len() == 1 {
        let copy = shifted(operand, shifts[0] as int, result.len());
        Seq::new(
            result.len(),
            |k: int|
                if shifts[0] <= k < shifts[0] + operand.len() {
                    result[k] ^ copy[k]
                } else {
                    result[k]
                },
        )
    } else {
        mul_const_adds(operand, result, results, carries, shifts, (shifts.len() - 1) as nat)
    }
}

/// The values of lists of expressions.
pub open spec fn values_of(cs: ConstraintSystem, lists: Seq<&[Expr]>, env: Env) -> Seq<Seq<u128>> {
    Seq::new(lists.len(), |i: int| cs.values(lists[i]@, env))
}

/// No expression of any list has a degree above `d`.
pub open spec fn lists_up_to(cs: ConstraintSystem, lists: Seq<&[Expr]>, d: nat) -> bool {
    forall|i: int| 0 <= i < lists.len() ==> cs.up_to((#[trigger] lists[i])@, d)
}

/// Every list holds expressions of `cs`.
pub open spec fn has_lists(cs: ConstraintSystem, lists: Seq<&[Expr]>) -> bool {
    forall|i: int| 0 <= i < lists.len() ==> cs.has_all((#[trigger] lists[i])@)
}

proof fn lemma_set_positions(c: u32, n: nat)
    requires
        n <= 32,
    ensures
        set_positions(c, n).len() <= n,
        forall|k: int|
            0 <= k < set_positions(c, n).len() ==> (#[trigger] set_positions(c, n)[k]) < n,
        forall|j: int, k: int|
            0 <= j < k < set_positions(c, n).len() ==> set_positions(c, n)[j] < set_positions(c, n)[k],
    decreases n,
{
    if n > 0 {
        lemma_set_positions(c, (n - 1) as nat);
    }
}

/// The number with exactly these bits set.
pub open spec fn power_sum(positions: Seq<usize>) -> nat
    decreases positions.len(),
{
    if positions.len() == 0 {
        0
    } else {
        power_sum(positions.drop_last()) + pow2(positions.last() as nat)
    }
}

/// A constant is the sum of the powers at its set bits.
pub proof fn lemma_set_positions_sum(c: u32, n: nat)
    requires
        n <= 32,
    ensures
        power_sum(set_positions(c, n)) == c as nat % pow2(n),
    decreases n,
{
    lemma2_to64();
    if n > 0 {
        let i = (n - 1) as nat;
        lemma_set_positions_sum(c, i);
        bits::lemma_mod_pow2_step(c as nat, i);
        bits::lemma_bit_u32(c, i);
        vstd::arithmetic::mul::lemma_mul_basics(pow2(i) as int);
        if bit_set(c, i as int) {
            assert(set_positions(c, n).drop_last() =~= set_positions(c, i));
        }
    }
}

proof fn lemma_some_position(c: u32)
    requires
        c > 0,
    ensures
        set_positions(c, 32).len() >= 1,
{
    lemma_set_positions_sum(c, 32);
    lemma2_to64();
    vstd::arithmetic::div_mod::lemma_small_mod(c as nat, pow2(32));
}

/// The positions of the set bits of `constant`.
fn set_bits(constant: u32) -> (r: Vec<usize>)
    ensures
        r@ == set_positions(constant, 32),
{
    let mut r: Vec<usize> = Vec::new();
    for i in 0..32usize
        invariant
            r@ == set_positions(constant, i as nat),
    {
        if (constant >> (i as u32)) & 1 == 1 {
            r.push(i);
        }
    }
    r
}

/// The expressions of [`shifted`].
fn shifted_exprs(bits: &[Expr], shift: usize, width: usize, zero: Expr) -> (r: Vec<Expr>)
    requires
        shift + bits@.len() <= usize::MAX,
    ensures
        r@.len() == width,
        forall|k: int|
            0 <= k < width ==> #[trigger] r@[k] == if shift <= k < shift + bits@.len() {
                bits@[k - shift]
            } else {
                zero
            },
{
    let mut r: Vec<Expr> = Vec::with_capacity(width);
    for k in 0..width
        invariant
            shift + bits@.len() <= usize::MAX,
            r@.len() == k,
            forall|j: int|
                0 <= j < k ==> #[trigger] r@[j] == if shift <= j < shift + bits@.len() {
                    bits@[j - shift]
                } else {
                    zero
                },
    {
        if k >= shift && k < shift + bits.len() {
            r.push(bits[k - shift]);
        } else {
            r.push(zero);
        }
    }
    r
}

proof fn lemma_shifted_values(
    cs: ConstraintSystem,
    bits: Seq<Expr>,
    shift: int,
    zero: Expr,
    r: Seq<Expr>,
)
    requires
        cs.has_all(bits),
        cs.has(zero),
        0 <= shift,
        forall|env: Env| #[trigger] cs.value(zero, env) == 0,
        forall|k: int|
            0 <= k < r.len() ==> #[trigger] r[k] == if shift <= k < shift + bits.len() {
                bits[k - shift]
            } else {
                zero
            },
    ensures
        cs.has_all(r),
        forall|env: Env|
            (#[trigger] cs.values(r, env)) == shifted(cs.values(bits, env), shift, r.len()),
{
    assert forall|i: int| 0 <= i < r.len() implies cs.has(#[trigger] r[i]) by {
        if shift <= i < shift + bits.len() {
            assert(cs.has(bits[i - shift]));
        }
    }
    assert forall|env: Env|
        (#[trigger] cs.values(r, env)) == shifted(cs.values(bits, env), shift, r.len()) by {
        assert(cs.values(r, env) =~= shifted(cs.values(bits, env), shift, r.len()));
    }
}

/// Constrain result = operand * constant (unsigned integer multiply).
///
/// Cascades additions of shifted operand copies, one per set bit of the
/// constant. With one set bit the result is a shifted copy, and no
/// scratch is read.
pub fn mul_const(
    cs: &mut ConstraintSystem,
    operand_bits: &[Expr],
    result_bits: &[Expr],
    scratch_results: &[&[Expr]],
    scratch_carries: &[&[Expr]],
    constant: u32,
)
    requires
        old(cs).wf(),
        old(cs).has_all(operand_bits@),
        old(cs).has_all(result_bits@),
        has_lists(*old(cs), scratch_results@),
        has_lists(*old(cs), scratch_carries@),
        constant > 0,
        operand_bits@.len() + 33 <= usize::MAX,
        mul_const_shape(
            operand_bits@.len(),
            result_bits,
            scratch_results@,
            scratch_carries@,
            constant,
        ),
    ensures
        final(cs).wf(),
        final(cs).extends(*old(cs)),
        forall|env: Env|
            (#[trigger] final(cs).root_values(env)) == old(cs).root_values(env) + mul_const_chain(
                old(cs).values(operand_bits@, env),
                old(cs).values(result_bits@, env),
                values_of(*old(cs), scratch_results@, env),
                values_of(*old(cs), scratch_carries@, env),
                constant,
            ),
{
    let n: usize = operand_bits.len();
    let shifts: Vec<usize> = set_bits(constant);
    let m: usize = shifts.len();
    proof {
        lemma_set_positions(constant, 32);
        lemma_some_position(constant);
    }

    if m == 1 {
        let shift: usize = shifts[0];
        for k in 0..result_bits.len()
            invariant
                n == operand_bits@.len(),
                n + 33 <= usize::MAX,
                shift < 32,
                cs.wf(),
                cs.extends(*old(cs)),
                old(cs).has_all(operand_bits@),
                old(cs).has_all(result_bits@),
                forall|env: Env|
                    (#[trigger] cs.root_values(env)) == old(cs).root_values(env) + single_copy(
                        old(cs).values(operand_bits@, env),
                        old(cs).values(result_bits@, env),
                        shift as int,
                        k as nat,
                    ),
        {
            let ghost before = *cs;
            proof {
                assert(old(cs).has(result_bits@[k as int]));
            }
            if k < shift || k >= shift + n {
                cs.constrain(result_bits[k]);
            } else {
                proof {
                    assert(old(cs).has(operand_bits@[k - shift]));
                }
                let e = cs.plus(result_bits[k], operand_bits[k - shift]);
                cs.constrain(e);
            }
            proof {
                assert forall|env: Env|
                    (#[trigger] cs.root_values(env)) == old(cs).root_values(env) + single_copy(
                        old(cs).values(operand_bits@, env),
                        old(cs).values(result_bits@, env),
                        shift as int,
                        (k + 1) as nat,
                    ) by {
                    assert(before.root_values(env).len() >= 0);
                    assert(cs.root_values(env) =~= old(cs).root_values(env) + single_copy(
                        old(cs).values(operand_bits@, env),
                        old(cs).values(result_bits@, env),
                        shift as int,
                        (k + 1) as nat,
                    ));
                }
            }
        }
        proof {
            assert forall|env: Env|
                (#[trigger] cs.root_values(env)) == old(cs).root_values(env) + mul_const_chain(
                    old(cs).values(operand_bits@, env),
                    old(cs).values(result_bits@, env),
                    values_of(*old(cs), scratch_results@, env),
                    values_of(*old(cs), scratch_carries@, env),
                    constant,
                ) by {
                assert(single_copy(
                    old(cs).values(operand_bits@, env),
                    old(cs).values(result_bits@, env),
                    shift as int,
                    result_bits@.len(),
                ) =~= mul_const_chain(
                    old(cs).values(operand_bits@, env),
                    old(cs).values(result_bits@, env),
                    values_of(*old(cs), scratch_results@, env),
                    values_of(*old(cs), scratch_carries@, env),
                    constant,
                ));
            }
        }
        return;
    }

    let zero = cs.constant(Block128(0));

    for j in 1..m
        invariant
            n == operand_bits@.len(),
            n + 33 <= usize::MAX,
            m == shifts@.len(),
            m >= 2,
            shifts@ == set_positions(constant, 32),
            forall|k: int| 0 <= k < m ==> (#[trigger] shifts@[k]) < 32,
            cs.wf(),
            cs.extends(*old(cs)),
            cs.has(zero),
            forall|env: Env| #[trigger] cs.value(zero, env) == 0,
            old(cs).has_all(operand_bits@),
            old(cs).has_all(result_bits@),
            has_lists(*old(cs), scratch_results@),
            has_lists(*old(cs), scratch_carries@),
            scratch_results@.len() == m - 2,
            scratch_carries@.len() == m - 1,
            forall|i: int|
                1 <= i < m ==> (#[trigger] scratch_carries@[i - 1])@.len() == partial_target(
                    result_bits,
                    scratch_results@,
                    m as int,
                    i,
                )@.len() + 1,
            forall|env: Env|
                (#[trigger] cs.root_values(env)) == old(cs).root_values(env) + mul_const_adds(
                    old(cs).values(operand_bits@, env),
                    old(cs).values(result_bits@, env),
                    values_of(*old(cs), scratch_results@, env),
                    values_of(*old(cs), scratch_carries@, env),
                    shifts@,
                    (j - 1) as nat,
                ),
    {
        let target: &[Expr] = if j == m - 1 {
            result_bits
        } else {
            scratch_results[j - 1]
        };
        let width: usize = target.len();
        let left: Vec<Expr> = if j == 1 {
            shifted_exprs(operand_bits, shifts[0], width, zero)
        } else {
            let prev: &[Expr] = scratch_results[j - 2];
            assert(prev.len() <= usize::MAX);
            shifted_exprs(prev, 0, width, zero)
        };
        let right: Vec<Expr> = shifted_exprs(operand_bits, shifts[j], width, zero);
        let carry: &[Expr] = scratch_carries[j - 1];
        let ghost before = *cs;
        proof {
            let o = *old(cs);
            before.lemma_has_stable(o, operand_bits@);
            before.lemma_has_stable(o, target@);
            before.lemma_has_stable(o, carry@);
            lemma_shifted_values(before, operand_bits@, shifts@[j as int] as int, zero, right@);
            if j == 1 {
                lemma_shifted_values(before, operand_bits@, shifts@[0] as int, zero, left@);
            } else {
                before.lemma_has_stable(o, scratch_results@[j - 2]@);
                lemma_shifted_values(before, scratch_results@[j - 2]@, 0, zero, left@);
            }
            assert(partial_target(result_bits, scratch_results@, m as int, j as int)@ == target@);
            assert(scratch_carries@[j - 1]@.len() == width + 1);
        }
        add_carry_chain(cs, &left, &right, target, carry);
        proof {
            let o = *old(cs);
            assert forall|env: Env|
                (#[trigger] cs.root_values(env)) == o.root_values(env) + mul_const_adds(
                    o.values(operand_bits@, env),
                    o.values(result_bits@, env),
                    values_of(o, scratch_results@, env),
                    values_of(o, scratch_carries@, env),
                    shifts@,
                    j as nat,
                ) by {
                let (vo, vr, vs, vc) = (
                    o.values(operand_bits@, env),
                    o.values(result_bits@, env),
                    values_of(o, scratch_results@, env),
                    values_of(o, scratch_carries@, env),
                );
                before.lemma_values_stable(o, operand_bits@, env);
                before.lemma_values_stable(o, target@, env);
                before.lemma_values_stable(o, carry@, env);
                let vt = partial_target(vr, vs, m as int, j as int);
                assert(vt == o.values(target@, env));
                assert(vc[j - 1] == o.values(carry@, env));
                if j > 1 {
                    before.lemma_values_stable(o, scratch_results@[j - 2]@, env);
                    assert(partial_target(vr, vs, m as int, j - 1) == vs[j - 2]);
                }
                assert(before.values(right@, env) == shifted(vo, shifts@[j as int] as int, vt.len()));
                let vl = if j == 1 {
                    shifted(vo, shifts@[0] as int, vt.len())
                } else {
                    padded(partial_target(vr, vs, m as int, j - 1), vt.len())
                };
                assert(before.values(left@, env) == vl);
                assert(cs.root_values(env) == before.root_values(env) + add_chain(
                    vl,
                    shifted(vo, shifts@[j as int] as int, vt.len()),
                    vt,
                    vc[j - 1],
                ));
                assert(cs.root_values(env) =~= o.root_values(env) + mul_const_adds(
                    vo,
                    vr,
                    vs,
                    vc,
                    shifts@,
                    j as nat,
                ));
            }
        }
    }
}

/// The constraints of a shifted copy on the first `n` places.
spec fn single_copy(operand: Seq<u128>, result: Seq<u128>, shift: int, n: nat) -> Seq<u128> {
    Seq::new(
        n,
        |k: int|
            if shift <= k < shift + operand.len() {
                result[k] ^ operand[k - shift]
            } else {
                result[k]
            },
    )
}


// ---------------------------------------------------------------
// Modular reduction
// ---------------------------------------------------------------

/// Witness columns for modular reduction verification.
pub struct ModReductionWitness<'b> {
    /// quotient * modulus (product_width bits, witness).
    pub quot_x_mod_bits: &'b [Expr],
    /// Intermediate result columns for the constant multiply tree.
    pub mul_scratch_results: &'b [&'b [Expr]],
    /// Carry chain columns for the constant multiply tree.
    pub mul_scratch_carries: &'b [&'b [Expr]],
    /// Carry chain for quot_x_mod + remainder = product
    /// (product_width+1 bits).
    pub add_carry_bits: &'b [Expr],
    /// Result of (modulus-1) - remainder
    /// (remainder_width bits, witness).
    pub range_result_bits: &'b [Expr],
    /// Borrow chain for the range check
    /// (remainder_width+1 bits, witness).
    pub range_borrow_bits: &'b [Expr],
}

/// What [`mul_const`] asks of the widths of its columns.
pub open spec fn mul_const_shape(
    operand: nat,
    result: &[Expr],
    results: Seq<&[Expr]>,
    carries: Seq<&[Expr]>,
    constant: u32,
) -> bool {
    let shifts = set_positions(constant, 32);
    let m = shifts.len() as int;
    m >= 2 ==> {
        &&& results.len() == m - 2
        &&& carries.len() == m - 1
        &&& partial_target(result, results, m, 1)@.len() == shifts[1] + operand + 1
        &&& forall|j: int|
            1 <= j < m ==> (#[trigger] carries[j - 1])@.len() == partial_target(
                result,
                results,
                m,
                j,
            )@.len() + 1
    }
}

/// Constrain modular reduction:
/// product = quotient * modulus + remainder,
/// with 0 <= remainder < modulus.
pub fn mod_reduction(
    cs: &mut ConstraintSystem,
    product_bits: &[Expr],
    quotient_bits: &[Expr],
    remainder_bits: &[Expr],
    scratch: &ModReductionWitness,
    modulus: u32,
)
    requires
        old(cs).wf(),
        old(cs).has_all(product_bits@),
        old(cs).has_all(quotient_bits@),
        old(cs).has_all(remainder_bits@),
        old(cs).has_all(scratch.quot_x_mod_bits@),
        has_lists(*old(cs), scratch.mul_scratch_results@),
        has_lists(*old(cs), scratch.mul_scratch_carries@),
        old(cs).has_all(scratch.add_carry_bits@),
        old(cs).has_all(scratch.range_result_bits@),
        old(cs).has_all(scratch.range_borrow_bits@),
        modulus > 0,
        quotient_bits@.len() + 33 <= usize::MAX,
        mul_const_shape(
            quotient_bits@.len(),
            scratch.quot_x_mod_bits,
            scratch.mul_scratch_results@,
            scratch.mul_scratch_carries@,
            modulus,
        ),
        scratch.quot_x_mod_bits@.len() == product_bits@.len(),
        scratch.add_carry_bits@.len() == product_bits@.len() + 1,
        remainder_bits@.len() <= 32,
        scratch.range_result_bits@.len() == remainder_bits@.len(),
        scratch.range_borrow_bits@.len() == remainder_bits@.len() + 1,
    ensures
        final(cs).wf(),
        final(cs).extends(*old(cs)),
        forall|env: Env|
            (#[trigger] final(cs).root_values(env)) == old(cs).root_values(env) + mul_const_chain(
                old(cs).values(quotient_bits@, env),
                old(cs).values(scratch.quot_x_mod_bits@, env),
                values_of(*old(cs), scratch.mul_scratch_results@, env),
                values_of(*old(cs), scratch.mul_scratch_carries@, env),
                modulus,
            ) + add_chain(
                old(cs).values(scratch.quot_x_mod_bits@, env),
                padded(old(cs).values(remainder_bits@, env), product_bits@.len()),
                old(cs).values(product_bits@, env),
                old(cs).values(scratch.add_carry_bits@, env),
            ) + seq![old(cs).value(scratch.add_carry_bits@[product_bits@.len() as int], env)]
                + range_chain(
                old(cs).values(remainder_bits@, env),
                old(cs).values(scratch.range_result_bits@, env),
                old(cs).values(scratch.range_borrow_bits@, env),
                modulus,
            ),
{
    let product_width: usize = product_bits.len();
    let ghost o = *cs;

    // quotient * modulus = quot_x_mod
    mul_const(
        cs,
        quotient_bits,
        scratch.quot_x_mod_bits,
        scratch.mul_scratch_results,
        scratch.mul_scratch_carries,
        modulus,
    );
    let ghost s1 = *cs;

    // quot_x_mod + remainder = product
    let zero = cs.constant(Block128(0));
    let ghost s2 = *cs;
    assert(remainder_bits.len() <= usize::MAX);
    let remainder_padded: Vec<Expr> = shifted_exprs(remainder_bits, 0, product_width, zero);
    proof {
        s2.lemma_has_stable(o, remainder_bits@);
        s2.lemma_has_stable(o, scratch.quot_x_mod_bits@);
        s2.lemma_has_stable(o, product_bits@);
        s2.lemma_has_stable(o, scratch.add_carry_bits@);
        lemma_shifted_values(s2, remainder_bits@, 0, zero, remainder_padded@);
    }
    add_carry_chain(
        cs,
        scratch.quot_x_mod_bits,
        &remainder_padded,
        product_bits,
        scratch.add_carry_bits,
    );
    let ghost s3 = *cs;

    // Overflow carry must be 0
    proof {
        assert(o.has(scratch.add_carry_bits@[product_width as int]));
    }
    cs.constrain(scratch.add_carry_bits[product_width]);
    let ghost s4 = *cs;

    // remainder < modulus
    proof {
        s4.lemma_has_stable(o, remainder_bits@);
        s4.lemma_has_stable(o, scratch.range_result_bits@);
        s4.lemma_has_stable(o, scratch.range_borrow_bits@);
    }
    range_check(
        cs,
        remainder_bits,
        scratch.range_result_bits,
        scratch.range_borrow_bits,
        modulus,
    );
    proof {
        assert forall|env: Env|
            (#[trigger] cs.root_values(env)) == o.root_values(env) + mul_const_chain(
                o.values(quotient_bits@, env),
                o.values(scratch.quot_x_mod_bits@, env),
                values_of(o, scratch.mul_scratch_results@, env),
                values_of(o, scratch.mul_scratch_carries@, env),
                modulus,
            ) + add_chain(
                o.values(scratch.quot_x_mod_bits@, env),
                padded(o.values(remainder_bits@, env), product_bits@.len()),
                o.values(product_bits@, env),
                o.values(scratch.add_carry_bits@, env),
            ) + seq![o.value(scratch.add_carry_bits@[product_bits@.len() as int], env)]
                + range_chain(
                o.values(remainder_bits@, env),
                o.values(scratch.range_result_bits@, env),
                o.values(scratch.range_borrow_bits@, env),
                modulus,
            ) by {
            s2.lemma_values_stable(o, remainder_bits@, env);
            s2.lemma_values_stable(o, scratch.quot_x_mod_bits@, env);
            s2.lemma_values_stable(o, product_bits@, env);
            s2.lemma_values_stable(o, scratch.add_carry_bits@, env);
            s4.lemma_values_stable(o, remainder_bits@, env);
            s4.lemma_values_stable(o, scratch.range_result_bits@, env);
            s4.lemma_values_stable(o, scratch.range_borrow_bits@, env);
            assert(s2.root_values(env) == s1.root_values(env));
            assert(s3.root_values(env) == s2.root_values(env) + add_chain(
                o.values(scratch.quot_x_mod_bits@, env),
                padded(o.values(remainder_bits@, env), product_bits@.len()),
                o.values(product_bits@, env),
                o.values(scratch.add_carry_bits@, env),
            ));
            assert(s4.root_values(env) =~= s3.root_values(env) + seq![
                o.value(scratch.add_carry_bits@[product_bits@.len() as int], env),
            ]);
        }
    }
}

// ---------------------------------------------------------------
// Schoolbook multiplication (variable × variable)
// ---------------------------------------------------------------

/// Witness columns for schoolbook multiplication.
pub struct SchoolbookMulWitness<'b> {
    /// Materialized first partial product, pp0[k] = b[0]*a[k].
    pub pp0: &'b [Expr],
    /// Intermediate sum columns, b_width - 2 groups.
    pub sums: &'b [&'b [Expr]],
    /// Carry chain columns, b_width - 1 groups.
    pub carries: &'b [&'b [Expr]],
}

/// The constraints on the first `n` places of the first partial product.
pub open spec fn pp0_steps(a: Seq<u128>, b0: u128, pp0: Seq<u128>, n: nat) -> Seq<u128>
    decreases n,
{
    if n == 0 {
        Seq::empty()
    } else {
        let k = n - 1;
        pp0_steps(a, b0, pp0, k as nat) + seq![
            constraint::boolean_residue(pp0[k]),
            if k < a.len() {
                pp0[k] ^ gf::gf128_mul(b0, a[k])
            } else {
                pp0[k]
            },
        ]
    }
}

/// Partial product `j`: `b_j · a`, moved up by `j`, in `width` places.
pub open spec fn partial_product(a: Seq<u128>, bj: u128, j: int, width: nat) -> Seq<u128> {
    Seq::new(
        width,
        |k: int|
            if j <= k < j + a.len() {
                gf::gf128_mul(bj, a[k - j])
            } else {
                0
            },
    )
}

/// The additions of the partial products `1..=j`.
pub open spec fn schoolbook_adds(
    a: Seq<u128>,
    b: Seq<u128>,
    product: Seq<u128>,
    pp0: Seq<u128>,
    sums: Seq<Seq<u128>>,
    carries: Seq<Seq<u128>>,
    j: nat,
) -> Seq<u128>
    decreases j,
{
    if j == 0 {
        Seq::empty()
    } else {
        let m = b.len() as int;
        let target = partial_target(product, sums, m, j as int);
        let left = if j == 1 {
            padded(pp0, target.len())
        } else {
            padded(partial_target(product, sums, m, j - 1), target.len())
        };
        schoolbook_adds(a, b, product, pp0, sums, carries, (j - 1) as nat) + add_chain(
            left,
            partial_product(a, b[j as int], j as int, target.len()),
            target,
            carries[j - 1],
        )
    }
}

/// Everything [`schoolbook_mul`] imposes.
pub open spec fn schoolbook_chain(
    a: Seq<u128>,
    b: Seq<u128>,
    product: Seq<u128>,
    pp0: Seq<u128>,
    sums: Seq<Seq<u128>>,
    carries: Seq<Seq<u128>>,
) -> Seq<u128> {
    pp0_steps(a, b[0], pp0, pp0.len()) + if b.len() == 1 {
        Seq::new(
            product.len(),
            |k: int|
                if k < pp0.len() {
                    product[k] ^ pp0[k]
                } else {
                    product[k]
                },
        )
    } else {
        schoolbook_adds(a, b, product, pp0, sums, carries, (b.len() - 1) as nat)
    }
}

/// The expressions of [`partial_product`].
fn partial_product_exprs(
    cs: &mut ConstraintSystem,
    a_bits: &[Expr],
    bj: Expr,
    j: usize,
    width: usize,
    zero: Expr,
) -> (r: Vec<Expr>)
    requires
        old(cs).wf(),
        old(cs).has_all(a_bits@),
        old(cs).has(bj),
        old(cs).has(zero),
        forall|env: Env| #[trigger] old(cs).value(zero, env) == 0,
    ensures
        final(cs).wf(),
        final(cs).extends(*old(cs)),
        old(cs).up_to(a_bits@, 1) && old(cs).degree(bj) <= 1 && old(cs).degree(zero) == 0 ==> final(cs).up_to(r@, 2),
        final(cs).root_degrees() == old(cs).root_degrees(),
        final(cs).has_all(r@),
        r@.len() == width,
        forall|env: Env|
            (#[trigger] final(cs).values(r@, env)) == partial_product(
                old(cs).values(a_bits@, env),
                old(cs).value(bj, env),
                j as int,
                width as nat,
            ),
        forall|env: Env| (#[trigger] final(cs).root_values(env)) == old(cs).root_values(env),
{
    let mut r: Vec<Expr> = Vec::with_capacity(width);
    for k in 0..width
        invariant
            cs.wf(),
            cs.extends(*old(cs)),
            old(cs).up_to(a_bits@, 1) && old(cs).degree(bj) <= 1 && old(cs).degree(zero) == 0
                ==> cs.up_to(r@, 2),
            cs.root_degrees() == old(cs).root_degrees(),
            old(cs).has_all(a_bits@),
            old(cs).has(bj),
            old(cs).has(zero),
            forall|env: Env| #[trigger] old(cs).value(zero, env) == 0,
            r@.len() == k,
            cs.has_all(r@),
            forall|i: int, env: Env|
                0 <= i < k ==> #[trigger] cs.value(r@[i], env) == partial_product(
                    old(cs).values(a_bits@, env),
                    old(cs).value(bj, env),
                    j as int,
                    width as nat,
                )[i],
            forall|env: Env| (#[trigger] cs.root_values(env)) == old(cs).root_values(env),
    {
        let ghost before = *cs;
        let ghost list = r@;
        if k >= j && k - j < a_bits.len() {
            proof {
                assert(old(cs).has(a_bits@[k - j]));
            }
            let e = cs.times(bj, a_bits[k - j]);
            r.push(e);
        } else {
            r.push(zero);
        }
        proof {
            if old(cs).up_to(a_bits@, 1) && old(cs).degree(bj) <= 1 && old(cs).degree(zero) == 0 {
                assert forall|i: int| 0 <= i < r@.len() implies cs.degree(#[trigger] r@[i])
                    <= 2 by {
                    if i < k {
                        assert(before.has(list[i]));
                        assert(before.degree(list[i]) <= 2);
                    }
                }
            }
            assert forall|i: int| 0 <= i < r@.len() implies cs.has(#[trigger] r@[i]) by {
                if i < k {
                    assert(before.has(list[i]));
                }
            }
            assert forall|i: int, env: Env| 0 <= i < k + 1 implies #[trigger] cs.value(r@[i], env)
                == partial_product(
                old(cs).values(a_bits@, env),
                old(cs).value(bj, env),
                j as int,
                width as nat,
            )[i] by {
                if i < k {
                    assert(before.has(list[i]));
                    assert(cs.value(list[i], env) == before.value(list[i], env));
                }
            }
        }
    }
    proof {
        assert forall|env: Env|
            (#[trigger] cs.values(r@, env)) == partial_product(
                old(cs).values(a_bits@, env),
                old(cs).value(bj, env),
                j as int,
                width as nat,
            ) by {
            assert(cs.values(r@, env) =~= partial_product(
                old(cs).values(a_bits@, env),
                old(cs).value(bj, env),
                j as int,
                width as nat,
            ));
        }
    }
    r
}

/// The constraints on the first partial product.
fn constrain_pp0(cs: &mut ConstraintSystem, a_bits: &[Expr], b0: Expr, pp0: &[Expr])
    requires
        old(cs).wf(),
        old(cs).has_all(a_bits@),
        old(cs).has(b0),
        old(cs).has_all(pp0@),
    ensures
        final(cs).wf(),
        final(cs).extends(*old(cs)),
        forall|d: nat| #[trigger]
            final(cs).within(d) <== old(cs).up_to(a_bits@, 1) && old(cs).degree(b0) <= 1 && old(cs).up_to(pp0@, 1) && 2 <= d && old(cs).within(d),
        forall|env: Env|
            (#[trigger] final(cs).root_values(env)) == old(cs).root_values(env) + pp0_steps(
                old(cs).values(a_bits@, env),
                old(cs).value(b0, env),
                old(cs).values(pp0@, env),
                pp0@.len(),
            ),
{
    for k in 0..pp0.len()
        invariant
            cs.wf(),
            cs.extends(*old(cs)),
            forall|d: nat| #[trigger]
                cs.within(d) <== old(cs).up_to(a_bits@, 1) && old(cs).degree(b0) <= 1 && old(cs).up_to(pp0@, 1) && 2 <= d && old(cs).within(d),
            old(cs).has_all(a_bits@),
            old(cs).has(b0),
            old(cs).has_all(pp0@),
            forall|env: Env|
                (#[trigger] cs.root_values(env)) == old(cs).root_values(env) + pp0_steps(
                    old(cs).values(a_bits@, env),
                    old(cs).value(b0, env),
                    old(cs).values(pp0@, env),
                    k as nat,
                ),
    {
        let ghost before = *cs;
        proof {
            assert(old(cs).has(pp0@[k as int]));
        }
        cs.assert_boolean(pp0[k]);
        if k < a_bits.len() {
            proof {
                assert(old(cs).has(a_bits@[k as int]));
            }
            let product = cs.times(b0, a_bits[k]);
            let e = cs.plus(pp0[k], product);
            cs.constrain(e);
        } else {
            cs.constrain(pp0[k]);
        }
        proof {
            assert forall|env: Env|
                (#[trigger] cs.root_values(env)) == old(cs).root_values(env) + pp0_steps(
                    old(cs).values(a_bits@, env),
                    old(cs).value(b0, env),
                    old(cs).values(pp0@, env),
                    (k + 1) as nat,
                ) by {
                assert(before.root_values(env).len() >= 0);
                assert(cs.root_values(env) =~= old(cs).root_values(env) + pp0_steps(
                    old(cs).values(a_bits@, env),
                    old(cs).value(b0, env),
                    old(cs).values(pp0@, env),
                    (k + 1) as nat,
                ));
            }
        }
    }
}

/// Constrain schoolbook multiplication:
/// product = a * b (unsigned integers).
///
/// pp[j][k] = b[j] * a[k-j] (degree-2).
/// pp0 is materialized as witness to keep
/// the constraint degree ≤ 3 (gated: ≤ 4).
pub fn schoolbook_mul(
    cs: &mut ConstraintSystem,
    a_bits: &[Expr],
    b_bits: &[Expr],
    product_bits: &[Expr],
    scratch: &SchoolbookMulWitness,
)
    requires
        old(cs).wf(),
        old(cs).has_all(a_bits@),
        old(cs).has_all(b_bits@),
        old(cs).has_all(product_bits@),
        old(cs).has_all(scratch.pp0@),
        has_lists(*old(cs), scratch.sums@),
        has_lists(*old(cs), scratch.carries@),
        a_bits@.len() > 0,
        a_bits@.len() == b_bits@.len(),
        scratch.carries@.len() == b_bits@.len() - 1,
        b_bits@.len() >= 2 ==> scratch.sums@.len() >= b_bits@.len() - 2,
        forall|j: int|
            1 <= j < b_bits@.len() ==> (#[trigger] scratch.carries@[j - 1])@.len()
                == partial_target(product_bits, scratch.sums@, b_bits@.len() as int, j)@.len() + 1,
    ensures
        final(cs).wf(),
        final(cs).extends(*old(cs)),
        forall|d: nat| #[trigger]
            final(cs).within(d) <== old(cs).up_to(a_bits@, 1) && old(cs).up_to(b_bits@, 1) && old(cs).up_to(product_bits@, 1)
                && old(cs).up_to(scratch.pp0@, 1) && lists_up_to(*old(cs), scratch.sums@, 1)
                && lists_up_to(*old(cs), scratch.carries@, 1) && 3 <= d
                && old(cs).within(d),
        forall|env: Env|
            (#[trigger] final(cs).root_values(env)) == old(cs).root_values(env) + schoolbook_chain(
                old(cs).values(a_bits@, env),
                old(cs).values(b_bits@, env),
                old(cs).values(product_bits@, env),
                old(cs).values(scratch.pp0@, env),
                values_of(*old(cs), scratch.sums@, env),
                values_of(*old(cs), scratch.carries@, env),
            ),
{
    let m: usize = b_bits.len();
    let ghost o = *cs;
    proof {
        assert(o.has(b_bits@[0]));
    }
    constrain_pp0(cs, a_bits, b_bits[0], scratch.pp0);
    let ghost s1 = *cs;

    if m == 1 {
        for k in 0..product_bits.len()
            invariant
                cs.wf(),
                cs.extends(o),
                s1.extends(o),
                forall|d: nat| #[trigger]
                    cs.within(d) <== o.up_to(product_bits@, 1) && o.up_to(scratch.pp0@, 1) && 3 <= d
                        && s1.within(d),
                o.has_all(product_bits@),
                o.has_all(scratch.pp0@),
                forall|env: Env|
                    (#[trigger] cs.root_values(env)) == s1.root_values(env) + copy_steps(
                        o.values(product_bits@, env),
                        o.values(scratch.pp0@, env),
                        k as nat,
                    ),
        {
            let ghost before = *cs;
            proof {
                assert(o.has(product_bits@[k as int]));
            }
            if k < scratch.pp0.len() {
                proof {
                    assert(o.has(scratch.pp0@[k as int]));
                }
                let e = cs.plus(product_bits[k], scratch.pp0[k]);
                cs.constrain(e);
            } else {
                cs.constrain(product_bits[k]);
            }
            proof {
                assert forall|env: Env|
                    (#[trigger] cs.root_values(env)) == s1.root_values(env) + copy_steps(
                        o.values(product_bits@, env),
                        o.values(scratch.pp0@, env),
                        (k + 1) as nat,
                    ) by {
                    assert(before.root_values(env).len() >= 0);
                    assert(cs.root_values(env) =~= s1.root_values(env) + copy_steps(
                        o.values(product_bits@, env),
                        o.values(scratch.pp0@, env),
                        (k + 1) as nat,
                    ));
                }
            }
        }
        proof {
            assert forall|env: Env|
                (#[trigger] cs.root_values(env)) == o.root_values(env) + schoolbook_chain(
                    o.values(a_bits@, env),
                    o.values(b_bits@, env),
                    o.values(product_bits@, env),
                    o.values(scratch.pp0@, env),
                    values_of(o, scratch.sums@, env),
                    values_of(o, scratch.carries@, env),
                ) by {
                assert(s1.root_values(env).len() >= 0);
                assert(cs.root_values(env) =~= o.root_values(env) + schoolbook_chain(
                    o.values(a_bits@, env),
                    o.values(b_bits@, env),
                    o.values(product_bits@, env),
                    o.values(scratch.pp0@, env),
                    values_of(o, scratch.sums@, env),
                    values_of(o, scratch.carries@, env),
                ));
            }
        }
        return;
    }

    let zero = cs.constant(Block128(0));

    for j in 1..m
        invariant
            m == b_bits@.len(),
            m == a_bits@.len(),
            m >= 2,
            cs.wf(),
            cs.extends(o),
            cs.has(zero),
            cs.degree(zero) == 0,
            forall|d: nat| #[trigger]
                cs.within(d) <== o.up_to(a_bits@, 1) && o.up_to(b_bits@, 1) && o.up_to(
                    product_bits@,
                    1,
                ) && o.up_to(scratch.pp0@, 1) && lists_up_to(o, scratch.sums@, 1) && lists_up_to(
                    o,
                    scratch.carries@,
                    1,
                ) && 3 <= d && s1.within(d),
            forall|env: Env| #[trigger] cs.value(zero, env) == 0,
            o.has_all(a_bits@),
            o.has_all(b_bits@),
            o.has_all(product_bits@),
            o.has_all(scratch.pp0@),
            has_lists(o, scratch.sums@),
            has_lists(o, scratch.carries@),
            scratch.sums@.len() >= m - 2,
            scratch.carries@.len() == m - 1,
            forall|i: int|
                1 <= i < m ==> (#[trigger] scratch.carries@[i - 1])@.len() == partial_target(
                    product_bits,
                    scratch.sums@,
                    m as int,
                    i,
                )@.len() + 1,
            forall|env: Env|
                (#[trigger] cs.root_values(env)) == s1.root_values(env) + schoolbook_adds(
                    o.values(a_bits@, env),
                    o.values(b_bits@, env),
                    o.values(product_bits@, env),
                    o.values(scratch.pp0@, env),
                    values_of(o, scratch.sums@, env),
                    values_of(o, scratch.carries@, env),
                    (j - 1) as nat,
                ),
    {
        let target: &[Expr] = if j == m - 1 {
            product_bits
        } else {
            scratch.sums[j - 1]
        };
        let width: usize = target.len();
        let prev: &[Expr] = if j == 1 {
            scratch.pp0
        } else {
            scratch.sums[j - 2]
        };
        assert(prev.len() <= usize::MAX);
        let left: Vec<Expr> = shifted_exprs(prev, 0, width, zero);
        let carry: &[Expr] = scratch.carries[j - 1];
        let ghost before = *cs;
        proof {
            before.lemma_has_stable(o, a_bits@);
            before.lemma_has_stable(o, prev@);
            lemma_shifted_values(before, prev@, 0, zero, left@);
            assert(o.has(b_bits@[j as int]));
        }
        let right: Vec<Expr> = partial_product_exprs(cs, a_bits, b_bits[j], j, width, zero);
        let ghost mid = *cs;
        proof {
            mid.lemma_has_stable(before, left@);
            mid.lemma_has_stable(o, target@);
            mid.lemma_has_stable(o, carry@);
            assert(partial_target(product_bits, scratch.sums@, m as int, j as int)@ == target@);
            assert(scratch.carries@[j - 1]@.len() == width + 1);
        }
        add_carry_chain(cs, &left, &right, target, carry);
        proof {
            assert forall|d: nat|
                o.up_to(a_bits@, 1) && o.up_to(b_bits@, 1) && o.up_to(product_bits@, 1) && o.up_to(
                    scratch.pp0@,
                    1,
                ) && lists_up_to(o, scratch.sums@, 1) && lists_up_to(o, scratch.carries@, 1) && 3
                    <= d && s1.within(d) implies #[trigger] cs.within(d) by {
                assert(before.within(d));
                before.lemma_up_to_stable(o, a_bits@, 1);
                assert(o.up_to(prev@, 1));
                before.lemma_up_to_stable(o, prev@, 1);
                assert(before.degree(b_bits@[j as int]) <= 1) by {
                    assert(o.degree(b_bits@[j as int]) <= 1);
                }
                assert(before.up_to(left@, 1));
                mid.lemma_up_to_stable(before, left@, 1);
                assert(o.up_to(target@, 1) && o.up_to(carry@, 1));
                mid.lemma_up_to_stable(o, target@, 1);
                mid.lemma_up_to_stable(o, carry@, 1);
                assert(mid.up_to(right@, 2));
            }
            assert forall|env: Env|
                (#[trigger] cs.root_values(env)) == s1.root_values(env) + schoolbook_adds(
                    o.values(a_bits@, env),
                    o.values(b_bits@, env),
                    o.values(product_bits@, env),
                    o.values(scratch.pp0@, env),
                    values_of(o, scratch.sums@, env),
                    values_of(o, scratch.carries@, env),
                    j as nat,
                ) by {
                let (va, vb, vp, v0, vs, vc) = (
                    o.values(a_bits@, env),
                    o.values(b_bits@, env),
                    o.values(product_bits@, env),
                    o.values(scratch.pp0@, env),
                    values_of(o, scratch.sums@, env),
                    values_of(o, scratch.carries@, env),
                );
                before.lemma_values_stable(o, a_bits@, env);
                before.lemma_values_stable(o, prev@, env);
                mid.lemma_values_stable(before, left@, env);
                mid.lemma_values_stable(o, target@, env);
                mid.lemma_values_stable(o, carry@, env);
                let vt = partial_target(vp, vs, m as int, j as int);
                assert(vt == o.values(target@, env));
                assert(vc[j - 1] == o.values(carry@, env));
                if j > 1 {
                    assert(partial_target(vp, vs, m as int, j - 1) == vs[j - 2]);
                }
                let vl = if j == 1 {
                    padded(v0, vt.len())
                } else {
                    padded(partial_target(vp, vs, m as int, j - 1), vt.len())
                };
                assert(before.values(left@, env) == vl);
                assert(before.value(b_bits@[j as int], env) == vb[j as int]);
                assert(mid.values(right@, env) == partial_product(va, vb[j as int], j as int, vt.len()));
                assert(mid.root_values(env) == before.root_values(env));
                assert(cs.root_values(env) == before.root_values(env) + add_chain(
                    vl,
                    partial_product(va, vb[j as int], j as int, vt.len()),
                    vt,
                    vc[j - 1],
                ));
                assert(cs.root_values(env) =~= s1.root_values(env) + schoolbook_adds(
                    va,
                    vb,
                    vp,
                    v0,
                    vs,
                    vc,
                    j as nat,
                ));
            }
        }
    }
    proof {
        assert forall|env: Env|
            (#[trigger] cs.root_values(env)) == o.root_values(env) + schoolbook_chain(
                o.values(a_bits@, env),
                o.values(b_bits@, env),
                o.values(product_bits@, env),
                o.values(scratch.pp0@, env),
                values_of(o, scratch.sums@, env),
                values_of(o, scratch.carries@, env),
            ) by {
            assert(s1.root_values(env).len() >= 0);
            assert(cs.root_values(env) =~= o.root_values(env) + schoolbook_chain(
                o.values(a_bits@, env),
                o.values(b_bits@, env),
                o.values(product_bits@, env),
                o.values(scratch.pp0@, env),
                values_of(o, scratch.sums@, env),
                values_of(o, scratch.carries@, env),
            ));
        }
    }
}

/// The constraints copying `pp0` into the first `n` places of the product.
spec fn copy_steps(product: Seq<u128>, pp0: Seq<u128>, n: nat) -> Seq<u128> {
    Seq::new(
        n,
        |k: int|
            if k < pp0.len() {
                product[k] ^ pp0[k]
            } else {
                product[k]
            },
    )
}


// ---------------------------------------------------------------
// Modular addition / subtraction
// ---------------------------------------------------------------

/// Witness columns for modular addition.
pub struct ModAddWitness<'b> {
    /// LHS = a + b: result bits.
    pub lhs_result: &'b [Expr],
    /// LHS carry chain.
    pub lhs_carry: &'b [Expr],
    /// RHS = result + flag*modulus: result bits.
    pub rhs_result: &'b [Expr],
    /// RHS carry chain.
    pub rhs_carry: &'b [Expr],
    /// Reduction flag (boolean).
    pub flag: Expr,
    /// Range check result bits (result < modulus).
    pub range_result: &'b [Expr],
    /// Range check borrow chain.
    pub range_borrow: &'b [Expr],
}

/// The low `n` bits of `flag · modulus`.
pub open spec fn flagged(flag: u128, modulus: u32, n: nat) -> Seq<u128> {
    Seq::new(
        n,
        |k: int|
            if bit_set(modulus, k) {
                flag
            } else {
                0
            },
    )
}

/// The sums of the first `n` places of two lists.
pub open spec fn pairwise(l: Seq<u128>, r: Seq<u128>, n: nat) -> Seq<u128> {
    Seq::new(n, |k: int| l[k] ^ r[k])
}

/// Everything [`mod_add`] imposes.
pub open spec fn mod_add_chain(
    a: Seq<u128>,
    b: Seq<u128>,
    result: Seq<u128>,
    lhs: Seq<u128>,
    lhs_carry: Seq<u128>,
    rhs: Seq<u128>,
    rhs_carry: Seq<u128>,
    flag: u128,
    range_result: Seq<u128>,
    range_borrow: Seq<u128>,
    modulus: u32,
) -> Seq<u128> {
    let n = a.len();
    seq![constraint::boolean_residue(flag)] + add_chain(a, b, lhs, lhs_carry) + add_chain(
        result,
        flagged(flag, modulus, n),
        rhs,
        rhs_carry,
    ) + pairwise(lhs, rhs, n) + seq![lhs_carry[n as int] ^ rhs_carry[n as int]] + range_chain(
        result,
        range_result,
        range_borrow,
        modulus,
    )
}

/// The expressions of [`flagged`].
fn flagged_exprs(flag: Expr, zero: Expr, modulus: u32, n: usize) -> (r: Vec<Expr>)
    requires
        n <= 32,
    ensures
        r@.len() == n,
        forall|k: int|
            0 <= k < n ==> #[trigger] r@[k] == if bit_set(modulus, k) {
                flag
            } else {
                zero
            },
{
    let mut r: Vec<Expr> = Vec::with_capacity(n);
    for k in 0..n
        invariant
            n <= 32,
            r@.len() == k,
            forall|i: int|
                0 <= i < k ==> #[trigger] r@[i] == if bit_set(modulus, i) {
                    flag
                } else {
                    zero
                },
    {
        if (modulus >> (k as u32)) & 1 == 1 {
            r.push(flag);
        } else {
            r.push(zero);
        }
    }
    r
}

/// Imposes that two lists agree place by place.
fn constrain_equal(cs: &mut ConstraintSystem, left: &[Expr], right: &[Expr])
    requires
        old(cs).wf(),
        old(cs).has_all(left@),
        old(cs).has_all(right@),
        left@.len() == right@.len(),
    ensures
        final(cs).wf(),
        final(cs).extends(*old(cs)),
        forall|env: Env|
            (#[trigger] final(cs).root_values(env)) == old(cs).root_values(env) + pairwise(
                old(cs).values(left@, env),
                old(cs).values(right@, env),
                left@.len(),
            ),
{
    for k in 0..left.len()
        invariant
            cs.wf(),
            cs.extends(*old(cs)),
            old(cs).has_all(left@),
            old(cs).has_all(right@),
            left@.len() == right@.len(),
            forall|env: Env|
                (#[trigger] cs.root_values(env)) == old(cs).root_values(env) + pairwise(
                    old(cs).values(left@, env),
                    old(cs).values(right@, env),
                    k as nat,
                ),
    {
        let ghost before = *cs;
        proof {
            assert(old(cs).has(left@[k as int]) && old(cs).has(right@[k as int]));
        }
        let e = cs.plus(left[k], right[k]);
        cs.constrain(e);
        proof {
            assert forall|env: Env|
                (#[trigger] cs.root_values(env)) == old(cs).root_values(env) + pairwise(
                    old(cs).values(left@, env),
                    old(cs).values(right@, env),
                    (k + 1) as nat,
                ) by {
                assert(before.root_values(env).len() >= 0);
                assert(cs.root_values(env) =~= old(cs).root_values(env) + pairwise(
                    old(cs).values(left@, env),
                    old(cs).values(right@, env),
                    (k + 1) as nat,
                ));
            }
        }
    }
}

/// Constrain modular addition:
/// result = (a + b) mod modulus.
///
/// Precondition of the gadget: a + b < 2 * modulus
/// (holds when both operands are reduced).
pub fn mod_add(
    cs: &mut ConstraintSystem,
    a_bits: &[Expr],
    b_bits: &[Expr],
    result_bits: &[Expr],
    scratch: &ModAddWitness,
    modulus: u32,
)
    requires
        old(cs).wf(),
        old(cs).has_all(a_bits@),
        old(cs).has_all(b_bits@),
        old(cs).has_all(result_bits@),
        old(cs).has_all(scratch.lhs_result@),
        old(cs).has_all(scratch.lhs_carry@),
        old(cs).has_all(scratch.rhs_result@),
        old(cs).has_all(scratch.rhs_carry@),
        old(cs).has(scratch.flag),
        old(cs).has_all(scratch.range_result@),
        old(cs).has_all(scratch.range_borrow@),
        modulus > 0,
        a_bits@.len() <= 32,
        b_bits@.len() == a_bits@.len(),
        result_bits@.len() == a_bits@.len(),
        scratch.lhs_result@.len() == a_bits@.len(),
        scratch.lhs_carry@.len() == a_bits@.len() + 1,
        scratch.rhs_result@.len() == a_bits@.len(),
        scratch.rhs_carry@.len() == a_bits@.len() + 1,
        scratch.range_result@.len() == a_bits@.len(),
        scratch.range_borrow@.len() == a_bits@.len() + 1,
    ensures
        final(cs).wf(),
        final(cs).extends(*old(cs)),
        forall|env: Env|
            (#[trigger] final(cs).root_values(env)) == old(cs).root_values(env) + mod_add_chain(
                old(cs).values(a_bits@, env),
                old(cs).values(b_bits@, env),
                old(cs).values(result_bits@, env),
                old(cs).values(scratch.lhs_result@, env),
                old(cs).values(scratch.lhs_carry@, env),
                old(cs).values(scratch.rhs_result@, env),
                old(cs).values(scratch.rhs_carry@, env),
                old(cs).value(scratch.flag, env),
                old(cs).values(scratch.range_result@, env),
                old(cs).values(scratch.range_borrow@, env),
                modulus,
            ),
{
    let n: usize = a_bits.len();
    let ghost o = *cs;

    cs.assert_boolean(scratch.flag);
    let ghost s1 = *cs;

    // LHS: a + b
    proof {
        s1.lemma_has_stable(o, a_bits@);
        s1.lemma_has_stable(o, b_bits@);
        s1.lemma_has_stable(o, scratch.lhs_result@);
        s1.lemma_has_stable(o, scratch.lhs_carry@);
    }
    add_carry_chain(cs, a_bits, b_bits, scratch.lhs_result, scratch.lhs_carry);
    let ghost s2 = *cs;

    // RHS: result + flag * modulus
    let zero = cs.constant(Block128(0));
    let ghost s3 = *cs;
    let flag_q: Vec<Expr> = flagged_exprs(scratch.flag, zero, modulus, n);
    proof {
        s3.lemma_has_stable(o, result_bits@);
        s3.lemma_has_stable(o, scratch.rhs_result@);
        s3.lemma_has_stable(o, scratch.rhs_carry@);
        assert forall|k: int| 0 <= k < n implies s3.has(#[trigger] flag_q@[k]) by {
            assert(s3.has(scratch.flag));
        }
    }
    add_carry_chain(cs, result_bits, &flag_q, scratch.rhs_result, scratch.rhs_carry);
    let ghost s4 = *cs;

    // LHS = RHS at each bit
    proof {
        s4.lemma_has_stable(o, scratch.lhs_result@);
        s4.lemma_has_stable(o, scratch.rhs_result@);
        assert(o.has(scratch.lhs_carry@[n as int]) && o.has(scratch.rhs_carry@[n as int]));
    }
    constrain_equal(cs, scratch.lhs_result, scratch.rhs_result);
    let ghost s5 = *cs;

    // Overflow carries must match
    let carries = cs.plus(scratch.lhs_carry[n], scratch.rhs_carry[n]);
    cs.constrain(carries);
    let ghost s6 = *cs;

    // result < modulus
    proof {
        s6.lemma_has_stable(o, result_bits@);
        s6.lemma_has_stable(o, scratch.range_result@);
        s6.lemma_has_stable(o, scratch.range_borrow@);
    }
    range_check(cs, result_bits, scratch.range_result, scratch.range_borrow, modulus);
    proof {
        assert forall|env: Env|
            (#[trigger] cs.root_values(env)) == o.root_values(env) + mod_add_chain(
                o.values(a_bits@, env),
                o.values(b_bits@, env),
                o.values(result_bits@, env),
                o.values(scratch.lhs_result@, env),
                o.values(scratch.lhs_carry@, env),
                o.values(scratch.rhs_result@, env),
                o.values(scratch.rhs_carry@, env),
                o.value(scratch.flag, env),
                o.values(scratch.range_result@, env),
                o.values(scratch.range_borrow@, env),
                modulus,
            ) by {
            s1.lemma_values_stable(o, a_bits@, env);
            s1.lemma_values_stable(o, b_bits@, env);
            s1.lemma_values_stable(o, scratch.lhs_result@, env);
            s1.lemma_values_stable(o, scratch.lhs_carry@, env);
            s3.lemma_values_stable(o, result_bits@, env);
            s3.lemma_values_stable(o, scratch.rhs_result@, env);
            s3.lemma_values_stable(o, scratch.rhs_carry@, env);
            assert(s3.value(scratch.flag, env) == o.value(scratch.flag, env));
            assert(s3.values(flag_q@, env) =~= flagged(o.value(scratch.flag, env), modulus, n as nat));
            s4.lemma_values_stable(o, scratch.lhs_result@, env);
            s4.lemma_values_stable(o, scratch.rhs_result@, env);
            s6.lemma_values_stable(o, result_bits@, env);
            s6.lemma_values_stable(o, scratch.range_result@, env);
            s6.lemma_values_stable(o, scratch.range_borrow@, env);
            let part1 = s1.root_values(env);
            let part2 = s2.root_values(env);
            assert(s3.root_values(env) == part2);
            let part4 = s4.root_values(env);
            let part5 = s5.root_values(env);
            assert(s6.root_values(env) =~= part5 + seq![
                o.value(scratch.lhs_carry@[n as int], env) ^ o.value(
                    scratch.rhs_carry@[n as int],
                    env,
                ),
            ]);
            assert(cs.root_values(env) =~= o.root_values(env) + mod_add_chain(
                o.values(a_bits@, env),
                o.values(b_bits@, env),
                o.values(result_bits@, env),
                o.values(scratch.lhs_result@, env),
                o.values(scratch.lhs_carry@, env),
                o.values(scratch.rhs_result@, env),
                o.values(scratch.rhs_carry@, env),
                o.value(scratch.flag, env),
                o.values(scratch.range_result@, env),
                o.values(scratch.range_borrow@, env),
                modulus,
            ));
        }
    }
}

// ---------------------------------------------------------------
// Bit packing (bus <> decomposition binding)
// ---------------------------------------------------------------

/// `Σ bit_k · 2^k` over the first `n` bits, in the field.
pub open spec fn packed(bits: Seq<u128>, n: nat) -> u128
    decreases n,
{
    if n == 0 {
        0
    } else {
        packed(bits, (n - 1) as nat) ^ gf::gf128_mul(bits[n - 1], 1u128 << ((n - 1) as u128))
    }
}

/// Constrain bus_col = Σ bit_k · 2^k.
///
/// `2^k` is the element with bit k set; XOR addition preserves the bit
/// pattern. Emits one degree-1 constraint.
pub fn bit_packing(cs: &mut ConstraintSystem, bus_col: Expr, bits: &[Expr])
    requires
        old(cs).wf(),
        old(cs).has(bus_col),
        old(cs).has_all(bits@),
        bits@.len() <= 64,
    ensures
        final(cs).wf(),
        final(cs).extends(*old(cs)),
        old(cs).degree(bus_col) == 1 && old(cs).up_to(bits@, 1) ==> final(cs).imposes(*old(cs), 1),
        forall|env: Env|
            (#[trigger] final(cs).root_values(env)) == old(cs).root_values(env).push(
                old(cs).value(bus_col, env) ^ packed(old(cs).values(bits@, env), bits@.len()),
            ),
{
    let mut reconstruction = cs.constant(Block128(0));
    for k in 0..bits.len()
        invariant
            cs.wf(),
            cs.extends(*old(cs)),
            old(cs).up_to(bits@, 1) ==> cs.degree(reconstruction) <= 1,
            cs.root_degrees() == old(cs).root_degrees(),
            old(cs).has_all(bits@),
            bits@.len() <= 64,
            cs.has(reconstruction),
            forall|env: Env|
                #[trigger] cs.value(reconstruction, env) == packed(
                    old(cs).values(bits@, env),
                    k as nat,
                ),
            forall|env: Env| (#[trigger] cs.root_values(env)) == old(cs).root_values(env),
    {
        proof {
            assert(old(cs).has(bits@[k as int]));
        }
        let weight = cs.constant(Block128(1u128 << (k as u128)));
        let term = cs.times(bits[k], weight);
        reconstruction = cs.plus(reconstruction, term);
    }

    let e = cs.plus(bus_col, reconstruction);
    cs.constrain(e);
}

// ---------------------------------------------------------------
// Scratch layouts
// ---------------------------------------------------------------

/// Layout for [`mul_const`] scratch allocation.
#[derive(Clone, Debug)]
pub struct MulConstLayout {
    /// Width of each intermediate result array.
    /// Length = popcount(constant) - 2.
    pub scratch_result_widths: Vec<usize>,
    /// Width of each carry chain
    /// (includes the +1 for carry-out).
    /// Length = popcount(constant) - 1.
    pub scratch_carry_widths: Vec<usize>,
    /// Width of the final product result.
    pub result_width: usize,
}

/// Width of the sum of the copies `0..=j` of an operand of `n` bits: one
/// more than the wider of the running sum and the next copy.
pub open spec fn copies_width(shifts: Seq<usize>, n: nat, j: nat) -> nat
    decreases j,
{
    if j == 0 {
        (shifts[0] + n) as nat
    } else {
        let before = copies_width(shifts, n, (j - 1) as nat);
        let next = (shifts[j as int] + n) as nat;
        1 + if before >= next {
            before
        } else {
            next
        }
    }
}

proof fn lemma_copies_width_bound(shifts: Seq<usize>, n: nat, j: nat)
    requires
        j < shifts.len(),
        forall|k: int| 0 <= k < shifts.len() ==> (#[trigger] shifts[k]) < 32,
    ensures
        copies_width(shifts, n, j) <= n + 31 + j,
    decreases j,
{
    assert(shifts[j as int] < 32);
    if j > 0 {
        lemma_copies_width_bound(shifts, n, (j - 1) as nat);
    }
}

/// Compute scratch column widths for [`mul_const`] with
/// given operand width and constant.
pub fn mul_const_scratch_widths(operand_width: usize, constant: u32) -> (r: MulConstLayout)
    requires
        operand_width + 64 <= usize::MAX,
    ensures
        ({
            let shifts = set_positions(constant, 32);
            let m = shifts.len() as int;
            &&& r.result_width as nat == if m == 0 {
                1
            } else {
                copies_width(shifts, operand_width as nat, (m - 1) as nat)
            }
            &&& r.scratch_result_widths@.len() == if m >= 2 {
                m - 2
            } else {
                0
            }
            &&& r.scratch_carry_widths@.len() == if m >= 2 {
                m - 1
            } else {
                0
            }
            &&& forall|j: int|
                0 <= j < r.scratch_result_widths@.len() ==> (#[trigger] r.scratch_result_widths@[j])
                    as nat == copies_width(shifts, operand_width as nat, (j + 1) as nat)
            &&& forall|j: int|
                0 <= j < r.scratch_carry_widths@.len() ==> (#[trigger] r.scratch_carry_widths@[j])
                    as nat == copies_width(shifts, operand_width as nat, (j + 1) as nat) + 1
        }),
{
    let shifts: Vec<usize> = set_bits(constant);
    let m: usize = shifts.len();
    proof {
        lemma_set_positions(constant, 32);
    }
    let mut results: Vec<usize> = Vec::new();
    let mut carries: Vec<usize> = Vec::new();
    if m == 0 {
        return MulConstLayout {
            scratch_result_widths: results,
            scratch_carry_widths: carries,
            result_width: 1,
        };
    }
    let mut width: usize = shifts[0] + operand_width;
    for j in 1..m
        invariant
            operand_width + 64 <= usize::MAX,
            m == shifts@.len(),
            1 <= m <= 32,
            shifts@ == set_positions(constant, 32),
            forall|k: int| 0 <= k < m ==> (#[trigger] shifts@[k]) < 32,
            width as nat == copies_width(shifts@, operand_width as nat, (j - 1) as nat),
            results@.len() == if j <= m - 1 {
                j - 1
            } else if m >= 2 {
                m - 2
            } else {
                0
            },
            carries@.len() == j - 1,
            forall|k: int|
                0 <= k < results@.len() ==> (#[trigger] results@[k]) as nat == copies_width(
                    shifts@,
                    operand_width as nat,
                    (k + 1) as nat,
                ),
            forall|k: int|
                0 <= k < carries@.len() ==> (#[trigger] carries@[k]) as nat == copies_width(
                    shifts@,
                    operand_width as nat,
                    (k + 1) as nat,
                ) + 1,
    {
        proof {
            lemma_copies_width_bound(shifts@, operand_width as nat, (j - 1) as nat);
            lemma_copies_width_bound(shifts@, operand_width as nat, j as nat);
        }
        let next: usize = shifts[j] + operand_width;
        width = (if width >= next {
            width
        } else {
            next
        }) + 1;
        carries.push(width + 1);
        if j + 1 < m {
            results.push(width);
        }
    }
    MulConstLayout {
        scratch_result_widths: results,
        scratch_carry_widths: carries,
        result_width: width,
    }
}


/// The sum of machine words.
pub open spec fn total(widths: Seq<usize>) -> nat
    decreases widths.len(),
{
    if widths.len() == 0 {
        0
    } else {
        total(widths.drop_last()) + widths.last() as nat
    }
}

proof fn lemma_total_prefix(widths: Seq<usize>, k: int)
    requires
        0 <= k <= widths.len(),
    ensures
        total(widths.take(k)) <= total(widths),
    decreases widths.len() - k,
{
    if k < widths.len() {
        lemma_total_prefix(widths, k + 1);
        assert(widths.take(k + 1).drop_last() =~= widths.take(k));
    } else {
        assert(widths.take(k) =~= widths);
    }
}

fn sum_widths(widths: &[usize]) -> (r: usize)
    requires
        total(widths@) <= usize::MAX,
    ensures
        r as nat == total(widths@),
{
    let mut sum: usize = 0;
    for k in 0..widths.len()
        invariant
            total(widths@) <= usize::MAX,
            sum as nat == total(widths@.take(k as int)),
    {
        proof {
            lemma_total_prefix(widths@, k + 1);
            assert(widths@.take(k + 1).drop_last() =~= widths@.take(k as int));
        }
        sum = sum + widths[k];
    }
    assert(widths@.take(widths@.len() as int) =~= widths@);
    sum
}

/// Layout for modular reduction scratch allocation.
#[derive(Clone, Debug)]
pub struct ModReductionLayout {
    pub mul_layout: MulConstLayout,
    pub product_width: usize,
    pub add_carry_width: usize,
    pub range_result_width: usize,
    pub range_borrow_width: usize,
    pub total_scratch_bits: usize,
}

/// The widths of the intermediate sums of copies `1..=j`.
pub open spec fn partial_widths(shifts: Seq<usize>, n: nat, j: nat, extra: nat) -> Seq<usize> {
    Seq::new(j, |k: int| (copies_width(shifts, n, (k + 1) as nat) + extra) as usize)
}

/// The scratch bits a reduction by `modulus` of a `quotient`-bit quotient
/// takes: the product, the multiplication's intermediates, the addition's
/// carries, and the range check's result and borrows.
pub open spec fn mod_reduction_bits(quotient: nat, modulus: u32) -> nat {
    let shifts = set_positions(modulus, 32);
    let m = shifts.len();
    let product = if m == 0 {
        1
    } else {
        copies_width(shifts, quotient, (m - 1) as nat)
    };
    let inner = if m >= 2 {
        total(partial_widths(shifts, quotient, (m - 2) as nat, 0)) + total(
            partial_widths(shifts, quotient, (m - 1) as nat, 1),
        )
    } else {
        0
    };
    product + inner + (product + 1) + quotient + (quotient + 1)
}

/// Compute scratch layout for modular reduction with given parameters.
pub fn mod_reduction_scratch_count(quotient_width: usize, modulus: u32) -> (r: ModReductionLayout)
    requires
        quotient_width + 64 <= usize::MAX,
        mod_reduction_bits(quotient_width as nat, modulus) <= usize::MAX,
    ensures
        ({
            let shifts = set_positions(modulus, 32);
            let m = shifts.len() as int;
            &&& r.product_width == r.mul_layout.result_width
            &&& r.product_width as nat == if m == 0 {
                1
            } else {
                copies_width(shifts, quotient_width as nat, (m - 1) as nat)
            }
            &&& m >= 2 ==> r.mul_layout.scratch_result_widths@ == partial_widths(
                shifts,
                quotient_width as nat,
                (m - 2) as nat,
                0,
            )
            &&& m >= 2 ==> r.mul_layout.scratch_carry_widths@ == partial_widths(
                shifts,
                quotient_width as nat,
                (m - 1) as nat,
                1,
            )
            &&& m < 2 ==> r.mul_layout.scratch_result_widths@.len() == 0
                && r.mul_layout.scratch_carry_widths@.len() == 0
        }),
        r.add_carry_width == r.product_width + 1,
        r.range_result_width == quotient_width,
        r.range_borrow_width == quotient_width + 1,
        r.total_scratch_bits as nat == mod_reduction_bits(quotient_width as nat, modulus),
        r.total_scratch_bits == r.product_width + total(r.mul_layout.scratch_result_widths@) + total(
            r.mul_layout.scratch_carry_widths@,
        ) + r.add_carry_width + r.range_result_width + r.range_borrow_width,
{
    let mul_layout: MulConstLayout = mul_const_scratch_widths(quotient_width, modulus);
    let product_width: usize = mul_layout.result_width;
    proof {
        let shifts = set_positions(modulus, 32);
        let m = shifts.len() as int;
        if m >= 2 {
            assert(mul_layout.scratch_result_widths@ =~= partial_widths(
                shifts,
                quotient_width as nat,
                (m - 2) as nat,
                0,
            ));
            assert(mul_layout.scratch_carry_widths@ =~= partial_widths(
                shifts,
                quotient_width as nat,
                (m - 1) as nat,
                1,
            ));
        } else {
            assert(total(mul_layout.scratch_result_widths@) == 0);
            assert(total(mul_layout.scratch_carry_widths@) == 0);
        }
    }
    let mul_scratch_bits: usize = sum_widths(&mul_layout.scratch_result_widths) + sum_widths(
        &mul_layout.scratch_carry_widths,
    );
    ModReductionLayout {
        mul_layout,
        product_width,
        add_carry_width: product_width + 1,
        range_result_width: quotient_width,
        range_borrow_width: quotient_width + 1,
        total_scratch_bits: product_width + mul_scratch_bits + (product_width + 1) + quotient_width
            + (quotient_width + 1),
    }
}

/// Scratch layout for modular addition/subtraction.
#[derive(Clone, Debug)]
pub struct ModAddLayout {
    /// Width of LHS/RHS result columns.
    pub result_width: usize,
    /// Width of LHS/RHS carry columns.
    pub carry_width: usize,
    /// Width of range result columns.
    pub range_result_width: usize,
    /// Width of range borrow columns.
    pub range_borrow_width: usize,
    /// Total scratch bits (2×result + 2×carry + 1 flag +
    /// range_result + range_borrow).
    pub total_scratch_bits: usize,
}

/// Compute scratch layout for modular addition (or subtraction).
pub fn mod_add_scratch_count(operand_width: usize) -> (r: ModAddLayout)
    requires
        6 * operand_width + 4 <= usize::MAX,
    ensures
        r.result_width == operand_width,
        r.carry_width == operand_width + 1,
        r.range_result_width == operand_width,
        r.range_borrow_width == operand_width + 1,
        r.total_scratch_bits == 6 * operand_width + 4,
{
    let result_width: usize = operand_width;
    let carry_width: usize = operand_width + 1;
    let range_result_width: usize = operand_width;
    let range_borrow_width: usize = operand_width + 1;
    ModAddLayout {
        result_width,
        carry_width,
        range_result_width,
        range_borrow_width,
        total_scratch_bits: 2 * result_width + 2 * carry_width + 1 + range_result_width
            + range_borrow_width,
    }
}

/// Layout for schoolbook multiplication scratch allocation.
#[derive(Clone, Debug)]
pub struct SchoolbookMulLayout {
    /// Width of the materialized first partial product (= a_width bits).
    pub pp0_width: usize,
    /// Width of each intermediate sum. Length = b_width - 2.
    pub sum_widths: Vec<usize>,
    /// Width of each carry chain (includes +1 for carry-out).
    /// Length = b_width - 1.
    pub carry_widths: Vec<usize>,
    /// Width of the final product.
    pub product_width: usize,
    /// Total scratch bit columns needed
    /// (pp0 + intermediate sums + carries).
    pub total_scratch_bits: usize,
}

/// `count` widths going up by one from `first`.
pub open spec fn ramp(first: nat, count: nat) -> Seq<usize> {
    Seq::new(count, |k: int| (first + k) as usize)
}

/// The scratch bits of a schoolbook multiplication.
pub open spec fn schoolbook_bits(a: nat, b: nat) -> nat {
    a + if b >= 2 {
        total(ramp(a + 2, (b - 2) as nat)) + total(ramp(a + 3, (b - 1) as nat))
    } else {
        0
    }
}

/// Compute column layout for schoolbook multiplication of two variable
/// operands.
///
/// The first partial product is materialized
/// to keep constraint degree ≤ 4 with gating.
pub fn schoolbook_mul_layout(a_width: usize, b_width: usize) -> (r: SchoolbookMulLayout)
    requires
        a_width > 0,
        b_width > 0,
        a_width + b_width + 1 <= usize::MAX,
        schoolbook_bits(a_width as nat, b_width as nat) <= usize::MAX,
    ensures
        r.pp0_width == a_width,
        r.product_width == a_width + b_width,
        b_width >= 2 ==> r.sum_widths@ == ramp((a_width + 2) as nat, (b_width - 2) as nat),
        b_width >= 2 ==> r.carry_widths@ == ramp((a_width + 3) as nat, (b_width - 1) as nat),
        b_width == 1 ==> r.sum_widths@.len() == 0 && r.carry_widths@.len() == 0,
        r.total_scratch_bits as nat == schoolbook_bits(a_width as nat, b_width as nat),
{
    let pp0_width: usize = a_width;
    let mut sum_widths: Vec<usize> = Vec::new();
    let mut carry_widths: Vec<usize> = Vec::new();

    if b_width == 1 {
        return SchoolbookMulLayout {
            pp0_width,
            sum_widths,
            carry_widths,
            product_width: a_width + b_width,
            total_scratch_bits: pp0_width,
        };
    }
    let mut current_width: usize = a_width + 1;
    for j in 1..b_width
        invariant
            b_width >= 2,
            a_width + b_width + 1 <= usize::MAX,
            current_width == a_width + j,
            sum_widths@.len() == if j < b_width {
                j - 1
            } else {
                b_width - 2
            },
            carry_widths@.len() == j - 1,
            forall|k: int| 0 <= k < sum_widths@.len() ==> #[trigger] sum_widths@[k] == a_width + 2 + k,
            forall|k: int|
                0 <= k < carry_widths@.len() ==> #[trigger] carry_widths@[k] == a_width + 3 + k,
    {
        let shifted_max: usize = j + a_width;
        current_width = (if current_width >= shifted_max {
            current_width
        } else {
            shifted_max
        }) + 1;
        carry_widths.push(current_width + 1);
        if j + 1 < b_width {
            sum_widths.push(current_width);
        }
    }
    proof {
        assert(sum_widths@ =~= ramp((a_width + 2) as nat, (b_width - 2) as nat));
        assert(carry_widths@ =~= ramp((a_width + 3) as nat, (b_width - 1) as nat));
    }
    let total_scratch: usize = pp0_width + (self::sum_widths(&sum_widths) + self::sum_widths(
        &carry_widths,
    ));
    SchoolbookMulLayout {
        pp0_width,
        sum_widths,
        carry_widths,
        product_width: current_width,
        total_scratch_bits: total_scratch,
    }
}

// ---------------------------------------------------------------
// Laws
// ---------------------------------------------------------------

/// How wide a product by a constant gets: the copy of the lowest set bit is
/// that bit wider than the operand, and every sum of copies is one wider than
/// its highest copy.
pub proof fn law_widths_of_copies(constant: u32, n: nat, j: nat)
    requires
        j < set_positions(constant, 32).len(),
    ensures
        copies_width(set_positions(constant, 32), n, j) == set_positions(constant, 32)[j as int] + n
            + if j == 0 {
            0int
        } else {
            1int
        },
    decreases j,
{
    if j > 0 {
        law_widths_of_copies(constant, n, (j - 1) as nat);
        lemma_set_positions(constant, 32);
    }
}

proof fn lemma_total_ramp(first: nat, count: nat)
    requires
        first + count <= usize::MAX,
    ensures
        2 * total(ramp(first, count)) == 2 * (count * first) + count * (count - 1),
    decreases count,
{
    if count > 0 {
        let m = (count - 1) as nat;
        assert(ramp(first, count).drop_last() =~= ramp(first, m));
        lemma_total_ramp(first, m);
        assert(2 * (count * first) + count * (count - 1) == 2 * (m * first) + m * (m - 1) + 2 * (
        first + m)) by (nonlinear_arith)
            requires
                count == m + 1,
        ;
    } else {
        assert(ramp(first, 0).len() == 0);
        vstd::arithmetic::mul::lemma_mul_basics(first as int);
        vstd::arithmetic::mul::lemma_mul_basics(count - 1);
    }
}

/// The scratch bits of a schoolbook multiplication, in closed form.
pub proof fn law_schoolbook_bits(a: nat, b: nat)
    requires
        0 < a,
        2 <= b,
        a + b + 2 <= usize::MAX,
    ensures
        schoolbook_bits(a, b) == a + (b - 2) * (a + 2) + (b - 1) * (a + 3) + (b - 2) * (b - 2),
{
    lemma_total_ramp(a + 2, (b - 2) as nat);
    lemma_total_ramp(a + 3, (b - 1) as nat);
    assert((b - 2) * (b - 3) + (b - 1) * (b - 2) == 2 * ((b - 2) * (b - 2))) by (nonlinear_arith);
}

} // verus!
