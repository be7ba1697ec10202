//! What the integer gadgets prove.
//!
//! A gadget of [`int_arith`](super::int_arith) imposes a list of
//! constraints. Here: on boolean operands they all vanish exactly where
//! the witness holds the integer operation's result.

use vstd::arithmetic::mul::*;
use vstd::arithmetic::power2::*;
use vstd::prelude::*;

use super::int_arith;
use crate::bits;
use crate::field::gf;
use crate::field::laws;
use crate::field::laws::Ring;
use crate::program::constraint;

verus! {

/// Every constraint vanishes.
pub open spec fn all_zero(vs: Seq<u128>) -> bool {
    forall|i: int| 0 <= i < vs.len() ==> #[trigger] vs[i] == 0
}

/// Every entry is zero or one.
pub open spec fn boolean(vs: Seq<u128>) -> bool {
    forall|i: int| 0 <= i < vs.len() ==> #[trigger] vs[i] <= 1
}

/// The number whose bits are `vs`, least significant first.
pub open spec fn bits_value(vs: Seq<u128>) -> nat
    decreases vs.len(),
{
    if vs.len() == 0 {
        0
    } else {
        bits_value(vs.drop_last()) + vs.last() as nat * pow2((vs.len() - 1) as nat)
    }
}

// ---------------------------------------------------------------
// Booleans in the field
// ---------------------------------------------------------------

pub proof fn lemma_xor(a: u128, b: u128)
    ensures
        a ^ b == 0 <==> a == b,
        a ^ b == b ^ a,
        b == 0 ==> a ^ b == a,
        a == 0 ==> a ^ b == b,
        a <= 1 && b <= 1 ==> a ^ b == if a == b {
            0u128
        } else {
            1u128
        },
{
    assert((a ^ b == 0 <==> a == b) && a ^ b == b ^ a && (b == 0 ==> a ^ b == a) && (a == 0 ==> a ^ b
        == b) && (a <= 1 && b <= 1 ==> a ^ b == if a == b {
        0u128
    } else {
        1u128
    })) by (bit_vector);
}

pub proof fn lemma_mul_boolean(a: u128, b: u128)
    ensures
        a <= 1 && b <= 1 ==> gf::gf128_mul(a, b) == a * b,
        a == 0 || b == 0 ==> gf::gf128_mul(a, b) == 0,
        a == 1 ==> gf::gf128_mul(a, b) == b,
        b == 1 ==> gf::gf128_mul(a, b) == a,
{
    <u128 as Ring>::units(a);
    <u128 as Ring>::units(b);
    <u128 as Ring>::commutes(a, b);
    lemma_mul_basics(a as int);
    lemma_mul_basics(b as int);
}

/// The booleanity constraint holds of the booleans only.
pub proof fn law_boolean_residue(v: u128)
    ensures
        constraint::boolean_residue(v) == 0 <==> v <= 1,
{
    lemma_xor(v, 1);
    lemma_mul_boolean(v, v ^ 1);
    if constraint::boolean_residue(v) == 0 {
        laws::law_boolean(v);
    }
}

/// No two of the entries are set.
pub open spec fn exclusive(vs: Seq<u128>) -> bool {
    forall|i: int, j: int|
        0 <= i < j < vs.len() ==> !(#[trigger] vs[i] == 1 && #[trigger] vs[j] == 1)
}

proof fn lemma_products_with(vs: Seq<u128>, i: int, n: nat)
    requires
        boolean(vs),
        0 <= i < vs.len(),
        n <= vs.len(),
    ensures
        all_zero(constraint::products_with(vs, i, n)) <==> forall|j: int|
            i < j < n ==> !(vs[i] == 1 && #[trigger] vs[j] == 1),
    decreases n,
{
    if n > i + 1 {
        let k = n - 1;
        lemma_products_with(vs, i, k as nat);
        let head = constraint::products_with(vs, i, k as nat);
        let last = gf::gf128_mul(vs[i], vs[k]);
        assert(head.push(last) =~= head + seq![last]);
        lemma_all_zero_append(head, seq![last]);
        assert(vs[i] <= 1 && vs[k] <= 1);
        lemma_mul_boolean(vs[i], vs[k]);
        lemma_small_products(vs[i], vs[k], 0);
        if last == 0 {
            assert(all_zero(seq![last]));
        } else {
            assert(seq![last][0] != 0);
        }
    }
}

proof fn lemma_pair_products(vs: Seq<u128>, n: nat)
    requires
        boolean(vs),
        n <= vs.len(),
    ensures
        all_zero(constraint::pair_products(vs, n)) <==> forall|i: int, j: int|
            0 <= i < n && i < j < vs.len() ==> !(#[trigger] vs[i] == 1 && #[trigger] vs[j] == 1),
    decreases n,
{
    if n > 0 {
        let k = n - 1;
        lemma_pair_products(vs, k as nat);
        lemma_products_with(vs, k, vs.len());
        lemma_all_zero_append(
            constraint::pair_products(vs, k as nat),
            constraint::products_with(vs, k, vs.len()),
        );
    }
}

/// On booleans the pairwise products all vanish exactly where no two
/// entries are set.
pub proof fn law_exclusive(vs: Seq<u128>)
    requires
        boolean(vs),
    ensures
        all_zero(constraint::pair_products(vs, vs.len())) <==> exclusive(vs),
{
    lemma_pair_products(vs, vs.len());
}

/// The booleanity constraints of a list all vanish exactly on booleans.
pub proof fn law_booleans(vs: Seq<u128>)
    ensures
        all_zero(constraint::boolean_residues(vs)) <==> boolean(vs),
{
    let rs = constraint::boolean_residues(vs);
    assert forall|i: int| 0 <= i < vs.len() implies (rs[i] == 0 <==> vs[i] <= 1) by {
        law_boolean_residue(vs[i]);
    }
    if all_zero(rs) {
        assert forall|i: int| 0 <= i < vs.len() implies #[trigger] vs[i] <= 1 by {
            assert(rs[i] == 0);
        }
    }
}

/// On booleans the sum and carry constraints hold where
/// `r + 2 c' = a + b + c`.
proof fn lemma_add_bit(a: u128, b: u128, c: u128, r: u128, c_next: u128)
    requires
        a <= 1,
        b <= 1,
        c <= 1,
        r <= 1,
        c_next <= 1,
    ensures
        (int_arith::sum_residue(a, b, c, r) == 0 && int_arith::carry_residue(a, b, c, c_next) == 0)
            <==> r + 2 * c_next == a + b + c,
{
    lemma_mul_boolean(a, b);
    lemma_mul_boolean(a, c);
    lemma_mul_boolean(b, c);
    lemma_xor(r, a);
    lemma_xor(r ^ a, b);
    lemma_xor((r ^ a) ^ b, c);
    let (x, y, z) = (gf::gf128_mul(a, b), gf::gf128_mul(a, c), gf::gf128_mul(b, c));
    lemma_small_products(a, b, c);
    lemma_xor(c_next, x);
    lemma_xor(c_next ^ x, y);
    lemma_xor((c_next ^ x) ^ y, z);
}

proof fn lemma_small_products(a: u128, b: u128, c: u128)
    requires
        a <= 1,
        b <= 1,
        c <= 1,
    ensures
        a * b == if a == 1 && b == 1 {
            1int
        } else {
            0
        },
        a * c == if a == 1 && c == 1 {
            1int
        } else {
            0
        },
        b * c == if b == 1 && c == 1 {
            1int
        } else {
            0
        },
{
    lemma_mul_basics(a as int);
    lemma_mul_basics(b as int);
    lemma_mul_basics(c as int);
}

/// On booleans the difference and borrow constraints hold where
/// `r + b + w = a + 2 w'`.
pub proof fn lemma_sub_bit(a: u128, b: u128, w: u128, r: u128, w_next: u128)
    requires
        a <= 1,
        b <= 1,
        w <= 1,
        r <= 1,
        w_next <= 1,
    ensures
        (int_arith::sum_residue(a, b, w, r) == 0 && int_arith::borrow_residue(a, b, w, w_next) == 0)
            <==> r + b + w == a + 2 * w_next,
{
    lemma_mul_boolean(a, b);
    lemma_mul_boolean(a, w);
    lemma_mul_boolean(b, w);
    lemma_xor(r, a);
    lemma_xor(r ^ a, b);
    lemma_xor((r ^ a) ^ b, w);
    let (x, y, z) = (gf::gf128_mul(a, b), gf::gf128_mul(a, w), gf::gf128_mul(b, w));
    lemma_small_products(a, b, w);
    lemma_xor(w_next, b);
    lemma_xor(w_next ^ b, x);
    lemma_xor((w_next ^ b) ^ x, w);
    lemma_xor(((w_next ^ b) ^ x) ^ w, y);
    lemma_xor((((w_next ^ b) ^ x) ^ w) ^ y, z);
}

pub proof fn lemma_all_zero_append(x: Seq<u128>, y: Seq<u128>)
    ensures
        all_zero(x + y) <==> all_zero(x) && all_zero(y),
{
    if all_zero(x + y) {
        assert forall|i: int| 0 <= i < x.len() implies #[trigger] x[i] == 0 by {
            assert((x + y)[i] == 0);
        }
        assert forall|i: int| 0 <= i < y.len() implies #[trigger] y[i] == 0 by {
            assert((x + y)[x.len() + i] == 0);
        }
    }
}

proof fn lemma_all_zero_four(a: u128, b: u128, c: u128, d: u128)
    ensures
        all_zero(seq![a, b, c, d]) <==> a == 0 && b == 0 && c == 0 && d == 0,
{
    let s = seq![a, b, c, d];
    if all_zero(s) {
        assert(s[0] == 0 && s[1] == 0 && s[2] == 0 && s[3] == 0);
    }
}

// ---------------------------------------------------------------
// Addition
// ---------------------------------------------------------------

/// `r` and `c` are the sum bits and carries of `a + b` with carry in `c[0]`.
pub open spec fn adds(a: Seq<u128>, b: Seq<u128>, r: Seq<u128>, c: Seq<u128>) -> bool {
    &&& boolean(r)
    &&& boolean(c)
    &&& forall|i: int|
        0 <= i < a.len() ==> (#[trigger] r[i]) + 2 * c[i + 1] == a[i] + b[i] + c[i]
}

/// The shapes of an addition's columns.
pub open spec fn add_shape(a: Seq<u128>, b: Seq<u128>, r: Seq<u128>, c: Seq<u128>) -> bool {
    &&& b.len() == a.len()
    &&& r.len() == a.len()
    &&& c.len() == a.len() + 1
}

proof fn lemma_add_steps(a: Seq<u128>, b: Seq<u128>, r: Seq<u128>, c: Seq<u128>, n: nat)
    requires
        add_shape(a, b, r, c),
        n <= a.len(),
        boolean(a),
        boolean(b),
        c[0] <= 1,
    ensures
        all_zero(int_arith::add_steps(a, b, r, c, n)) <==> {
            &&& forall|i: int| 0 <= i < n ==> #[trigger] r[i] <= 1
            &&& forall|i: int| 0 <= i <= n ==> #[trigger] c[i] <= 1
            &&& forall|i: int|
                0 <= i < n ==> (#[trigger] r[i]) + 2 * c[i + 1] == a[i] + b[i] + c[i]
        },
    decreases n,
{
    if n > 0 {
        let k = n - 1;
        lemma_add_steps(a, b, r, c, k as nat);
        let step = int_arith::add_step(a, b, r, c, k);
        lemma_all_zero_append(int_arith::add_steps(a, b, r, c, k as nat), step);
        lemma_all_zero_four(step[0], step[1], step[2], step[3]);
        assert(step =~= seq![step[0], step[1], step[2], step[3]]);
        law_boolean_residue(r[k]);
        law_boolean_residue(c[k + 1]);
        assert(a[k] <= 1 && b[k] <= 1);
        if c[k] <= 1 && r[k] <= 1 && c[k + 1] <= 1 {
            lemma_add_bit(a[k], b[k], c[k], r[k], c[k + 1]);
        }
    }
}

/// With boolean operands and carry in, the constraints of
/// [`add_carry_chain_with_carry_in`](int_arith::add_carry_chain_with_carry_in)
/// all vanish exactly where the witness adds.
pub proof fn law_add_steps(a: Seq<u128>, b: Seq<u128>, r: Seq<u128>, c: Seq<u128>)
    requires
        add_shape(a, b, r, c),
        boolean(a),
        boolean(b),
        c[0] <= 1,
    ensures
        all_zero(int_arith::add_steps(a, b, r, c, a.len())) <==> adds(a, b, r, c),
{
    lemma_add_steps(a, b, r, c, a.len());
}

/// On boolean operands the constraints of
/// [`add_carry_chain`](int_arith::add_carry_chain) all vanish exactly where
/// the witness adds without carry in.
pub proof fn law_add_chain(a: Seq<u128>, b: Seq<u128>, r: Seq<u128>, c: Seq<u128>)
    requires
        add_shape(a, b, r, c),
        boolean(a),
        boolean(b),
    ensures
        all_zero(int_arith::add_chain(a, b, r, c)) <==> adds(a, b, r, c) && c[0] == 0,
{
    lemma_all_zero_append(seq![c[0]], int_arith::add_steps(a, b, r, c, a.len()));
    if all_zero(seq![c[0]]) {
        assert(seq![c[0]][0] == 0);
    }
    if c[0] == 0 {
        law_add_steps(a, b, r, c);
    }
}

pub proof fn lemma_bits_take(s: Seq<u128>, k: int)
    requires
        0 <= k < s.len(),
    ensures
        bits_value(s.take(k + 1)) == bits_value(s.take(k)) + s[k] as nat * pow2(k as nat),
{
    assert(s.take(k + 1).drop_last() =~= s.take(k));
}

pub proof fn lemma_bits_bound(s: Seq<u128>)
    requires
        boolean(s),
    ensures
        bits_value(s) < pow2(s.len()),
    decreases s.len(),
{
    lemma2_to64();
    if s.len() > 0 {
        let k = (s.len() - 1) as nat;
        lemma_bits_bound(s.drop_last());
        lemma_pow2_adds(k, 1);
        assert(s.last() <= 1);
        lemma_mul_basics(pow2(k) as int);
    }
}

/// Up to any place, an addition witness adds the numbers its low bits write.
pub proof fn law_add_prefix(
    a: Seq<u128>,
    b: Seq<u128>,
    r: Seq<u128>,
    c: Seq<u128>,
    n: int,
)
    requires
        add_shape(a, b, r, c),
        adds(a, b, r, c),
        0 <= n <= a.len(),
    ensures
        bits_value(r.take(n)) + c[n] as nat * pow2(n as nat) == bits_value(a.take(n)) + bits_value(
            b.take(n),
        ) + c[0] as nat,
    decreases n,
{
    lemma2_to64();
    if n == 0 {
        assert(r.take(0) =~= Seq::<u128>::empty() && a.take(0) =~= Seq::<u128>::empty() && b.take(0)
            =~= Seq::<u128>::empty());
        lemma_mul_basics(c[0] as int);
    } else {
        let k = n - 1;
        law_add_prefix(a, b, r, c, k);
        lemma_bits_take(r, k);
        lemma_bits_take(a, k);
        lemma_bits_take(b, k);
        lemma_pow2_adds(k as nat, 1);
        let p = pow2(k as nat) as int;
        assert(r[k] + 2 * c[k + 1] == a[k] + b[k] + c[k]);
        assert(r[k] * p + c[k + 1] * (p * 2) == a[k] * p + b[k] * p + c[k] * p) by (nonlinear_arith)
            requires
                r[k] + 2 * c[k + 1] == a[k] + b[k] + c[k],
        ;
    }
}

/// An addition witness adds the numbers its bits write: the sum bits and
/// the carry out hold `a + b` plus the carry in.
pub proof fn law_add_value(a: Seq<u128>, b: Seq<u128>, r: Seq<u128>, c: Seq<u128>)
    requires
        add_shape(a, b, r, c),
        adds(a, b, r, c),
    ensures
        bits_value(r) + c[a.len() as int] as nat * pow2(a.len()) == bits_value(a) + bits_value(b)
            + c[0] as nat,
{
    law_add_prefix(a, b, r, c, a.len() as int);
    assert(r.take(a.len() as int) =~= r && a.take(a.len() as int) =~= a && b.take(a.len() as int)
        =~= b);
}

// ---------------------------------------------------------------
// Subtraction
// ---------------------------------------------------------------

/// `r` and `w` are the difference bits and borrows of `a - b`.
pub open spec fn subtracts(a: Seq<u128>, b: Seq<u128>, r: Seq<u128>, w: Seq<u128>) -> bool {
    &&& boolean(r)
    &&& boolean(w)
    &&& w[0] == 0
    &&& forall|i: int|
        0 <= i < a.len() ==> (#[trigger] r[i]) + b[i] + w[i] == a[i] + 2 * w[i + 1]
}

proof fn lemma_sub_steps(a: Seq<u128>, b: Seq<u128>, r: Seq<u128>, w: Seq<u128>, n: nat)
    requires
        add_shape(a, b, r, w),
        n <= a.len(),
        boolean(a),
        boolean(b),
        w[0] <= 1,
    ensures
        all_zero(int_arith::sub_steps(a, b, r, w, n)) <==> {
            &&& forall|i: int| 0 <= i < n ==> #[trigger] r[i] <= 1
            &&& forall|i: int| 0 <= i <= n ==> #[trigger] w[i] <= 1
            &&& forall|i: int|
                0 <= i < n ==> (#[trigger] r[i]) + b[i] + w[i] == a[i] + 2 * w[i + 1]
        },
    decreases n,
{
    if n > 0 {
        let k = n - 1;
        lemma_sub_steps(a, b, r, w, k as nat);
        let step = int_arith::sub_step(a, b, r, w, k);
        lemma_all_zero_append(int_arith::sub_steps(a, b, r, w, k as nat), step);
        lemma_all_zero_four(step[0], step[1], step[2], step[3]);
        assert(step =~= seq![step[0], step[1], step[2], step[3]]);
        law_boolean_residue(r[k]);
        law_boolean_residue(w[k + 1]);
        assert(a[k] <= 1 && b[k] <= 1);
        if w[k] <= 1 && r[k] <= 1 && w[k + 1] <= 1 {
            lemma_sub_bit(a[k], b[k], w[k], r[k], w[k + 1]);
        }
    }
}

/// On boolean operands the constraints of
/// [`sub_borrow_chain`](int_arith::sub_borrow_chain) all vanish exactly
/// where the witness subtracts.
pub proof fn law_sub_chain(a: Seq<u128>, b: Seq<u128>, r: Seq<u128>, w: Seq<u128>)
    requires
        add_shape(a, b, r, w),
        boolean(a),
        boolean(b),
    ensures
        all_zero(int_arith::sub_chain(a, b, r, w)) <==> subtracts(a, b, r, w),
{
    lemma_all_zero_append(seq![w[0]], int_arith::sub_steps(a, b, r, w, a.len()));
    if all_zero(seq![w[0]]) {
        assert(seq![w[0]][0] == 0);
    }
    if w[0] == 0 {
        lemma_sub_steps(a, b, r, w, a.len());
    }
}

/// A subtraction witness is an addition witness of `r + b`, with the
/// borrows as carries and `a` as the result.
proof fn lemma_subtracts_adds(a: Seq<u128>, b: Seq<u128>, r: Seq<u128>, w: Seq<u128>)
    requires
        add_shape(a, b, r, w),
        boolean(a),
        subtracts(a, b, r, w),
    ensures
        adds(r, b, a, w),
{
    assert forall|i: int| 0 <= i < r.len() implies (#[trigger] a[i]) + 2 * w[i + 1] == r[i] + b[i]
        + w[i] by {
        assert(r[i] + b[i] + w[i] == a[i] + 2 * w[i + 1]);
    }
}

/// A subtraction witness subtracts the numbers its bits write; the last
/// borrow is set exactly where `a < b`.
pub proof fn law_sub_value(a: Seq<u128>, b: Seq<u128>, r: Seq<u128>, w: Seq<u128>)
    requires
        add_shape(a, b, r, w),
        boolean(a),
        boolean(b),
        subtracts(a, b, r, w),
    ensures
        bits_value(r) + bits_value(b) == bits_value(a) + w[a.len() as int] as nat * pow2(a.len()),
        w[a.len() as int] == 1 <==> bits_value(a) < bits_value(b),
{
    lemma_subtracts_adds(a, b, r, w);
    law_add_value(r, b, a, w);
    lemma_bits_bound(r);
    lemma_mul_basics(pow2(a.len()) as int);
    assert(w[a.len() as int] <= 1);
}

/// Booleans are the bits of the number they write.
pub proof fn lemma_bits_unique(s: Seq<u128>)
    requires
        boolean(s),
    ensures
        bits_of(bits_value(s), s.len()) == s,
    decreases s.len(),
{
    if s.len() > 0 {
        let k = (s.len() - 1) as nat;
        let t = s.drop_last();
        let top = s.last() as nat;
        lemma_bits_unique(t);
        lemma_bits_bound(t);
        assert(s.last() <= 1);
        let x = bits_value(s);
        let low = bits_value(t);
        assert forall|i: int| 0 <= i < s.len() implies #[trigger] bits_of(x, s.len())[i] == s[i] by {
            lemma_pow2_pos(i as nat);
            if i == k {
                vstd::arithmetic::div_mod::lemma_fundamental_div_mod_converse(
                    x as int,
                    pow2(k) as int,
                    top as int,
                    low as int,
                );
            } else {
                lemma_bit_of_sum(low, top, i as nat, k);
                assert(bits_of(low, k)[i] == t[i]);
            }
        }
        assert(bits_of(x, s.len()) =~= s);
    }
}

/// Adding a multiple of `2^k` changes no bit below `k`.
pub proof fn lemma_bit_of_sum(low: nat, top: nat, i: nat, k: nat)
    requires
        i < k,
    ensures
        bits::bit(low + top * pow2(k), i) == bits::bit(low, i),
{
    let d = (k - i - 1) as nat;
    lemma2_to64();
    lemma_pow2_pos(i);
    lemma_pow2_adds(i, d + 1);
    lemma_pow2_adds(d, 1);
    let hi = (top * pow2(d)) as int;
    assert(top * pow2(k) == pow2(i) * (2 * hi)) by (nonlinear_arith)
        requires
            pow2(k) == pow2(i) * (pow2(d) * 2),
            hi == top * pow2(d),
    ;
    vstd::arithmetic::div_mod::lemma_hoist_over_denominator(low as int, 2 * hi, pow2(i));
    lemma_mul_is_commutative(pow2(i) as int, 2 * hi);
    vstd::arithmetic::div_mod::lemma_mod_multiples_vanish(hi, low as int / pow2(i) as int, 2);
}

// ---------------------------------------------------------------
// Selectors
// ---------------------------------------------------------------

/// A closed selector asks nothing of the gated columns.
pub proof fn law_gate_closed(vs: Seq<u128>)
    ensures
        all_zero(int_arith::gated(0, vs)),
{
    assert forall|i: int| 0 <= i < vs.len() implies #[trigger] int_arith::gated(0, vs)[i] == 0 by {
        lemma_mul_boolean(0, vs[i]);
    }
}

/// An open selector asks what the ungated gadget does.
pub proof fn law_gate_open(vs: Seq<u128>)
    ensures
        int_arith::gated(1, vs) == vs,
{
    assert forall|i: int| 0 <= i < vs.len() implies #[trigger] int_arith::gated(1, vs)[i] == vs[i] by {
        lemma_mul_boolean(1, vs[i]);
    }
    assert(int_arith::gated(1, vs) =~= vs);
}


// ---------------------------------------------------------------
// Witnesses exist
// ---------------------------------------------------------------

/// The carry into place `i` of `a + b`.
pub open spec fn carry_bit(a: Seq<u128>, b: Seq<u128>, i: nat) -> u128
    decreases i,
{
    if i == 0 {
        0
    } else if a[i - 1] + b[i - 1] + carry_bit(a, b, (i - 1) as nat) >= 2 {
        1
    } else {
        0
    }
}

/// The carries of `a + b`.
pub open spec fn carries_of(a: Seq<u128>, b: Seq<u128>) -> Seq<u128> {
    Seq::new(a.len() + 1, |i: int| carry_bit(a, b, i as nat))
}

/// An addition has no other carries.
pub proof fn lemma_carries_unique(a: Seq<u128>, b: Seq<u128>, r: Seq<u128>, c: Seq<u128>)
    requires
        add_shape(a, b, r, c),
        adds(a, b, r, c),
        c[0] == 0,
    ensures
        c == carries_of(a, b),
{
    assert forall|i: int| 0 <= i < c.len() implies c[i] == carries_of(a, b)[i] by {
        lemma_carry_at(a, b, r, c, i);
    }
    assert(c =~= carries_of(a, b));
}

proof fn lemma_carry_at(a: Seq<u128>, b: Seq<u128>, r: Seq<u128>, c: Seq<u128>, i: int)
    requires
        add_shape(a, b, r, c),
        adds(a, b, r, c),
        c[0] == 0,
        0 <= i < c.len(),
    ensures
        c[i] == carry_bit(a, b, i as nat),
    decreases i,
{
    if i > 0 {
        lemma_carry_at(a, b, r, c, i - 1);
        assert(r[i - 1] + 2 * c[i] == a[i - 1] + b[i - 1] + c[i - 1]);
        assert(r[i - 1] <= 1 && c[i] <= 1);
    }
}

/// Any two boolean operands have an addition witness.
pub proof fn law_add_complete(a: Seq<u128>, b: Seq<u128>) -> (w: (Seq<u128>, Seq<u128>))
    requires
        a.len() == b.len(),
        boolean(a),
        boolean(b),
    ensures
        add_shape(a, b, w.0, w.1),
        adds(a, b, w.0, w.1),
        w.1[0] == 0,
        w.1 == carries_of(a, b),
        all_zero(int_arith::add_chain(a, b, w.0, w.1)),
{
    let c = carries_of(a, b);
    let r = Seq::new(a.len(), |i: int| (a[i] + b[i] + c[i] - 2 * c[i + 1]) as u128);
    assert forall|i: int| 0 <= i < a.len() implies #[trigger] r[i] <= 1 && r[i] + 2 * c[i + 1]
        == a[i] + b[i] + c[i] by {
        assert(a[i] <= 1 && b[i] <= 1);
        assert(c[i + 1] == carry_bit(a, b, (i + 1) as nat));
        assert(c[i] == carry_bit(a, b, i as nat));
    }
    law_add_chain(a, b, r, c);
    (r, c)
}

/// The borrow into place `i` of `a - b`.
spec fn borrow_bit(a: Seq<u128>, b: Seq<u128>, i: nat) -> u128
    decreases i,
{
    if i == 0 {
        0
    } else if a[i - 1] < b[i - 1] + borrow_bit(a, b, (i - 1) as nat) {
        1
    } else {
        0
    }
}

/// Any two boolean operands have a subtraction witness.
pub proof fn law_sub_complete(a: Seq<u128>, b: Seq<u128>) -> (w: (Seq<u128>, Seq<u128>))
    requires
        a.len() == b.len(),
        boolean(a),
        boolean(b),
    ensures
        add_shape(a, b, w.0, w.1),
        subtracts(a, b, w.0, w.1),
        all_zero(int_arith::sub_chain(a, b, w.0, w.1)),
{
    let c = Seq::new(a.len() + 1, |i: int| borrow_bit(a, b, i as nat));
    let r = Seq::new(a.len(), |i: int| (a[i] + 2 * c[i + 1] - b[i] - c[i]) as u128);
    assert forall|i: int| 0 <= i < a.len() implies #[trigger] r[i] <= 1 && r[i] + b[i] + c[i]
        == a[i] + 2 * c[i + 1] by {
        assert(a[i] <= 1 && b[i] <= 1);
        assert(c[i + 1] == borrow_bit(a, b, (i + 1) as nat));
        assert(c[i] == borrow_bit(a, b, i as nat));
    }
    law_sub_chain(a, b, r, c);
    (r, c)
}

// ---------------------------------------------------------------
// Range check
// ---------------------------------------------------------------

/// The low `n` bits of `x`.
pub open spec fn bits_of(x: nat, n: nat) -> Seq<u128> {
    Seq::new(n, |i: int| bits::bit(x, i as nat) as u128)
}

pub proof fn lemma_bits_of(x: nat, n: nat)
    ensures
        boolean(bits_of(x, n)),
        bits_value(bits_of(x, n)) == x % pow2(n),
    decreases n,
{
    lemma2_to64();
    assert forall|i: int| 0 <= i < n implies #[trigger] bits_of(x, n)[i] <= 1 by {
        bits::lemma_mod_pow2_step(x, i as nat);
    }
    if n > 0 {
        let k = (n - 1) as nat;
        lemma_bits_of(x, k);
        assert(bits_of(x, n).drop_last() =~= bits_of(x, k));
        bits::lemma_mod_pow2_step(x, k);
    }
}

proof fn lemma_range_bit(set: bool, v: u128, w: u128, r: u128, w_next: u128)
    requires
        v <= 1,
        w <= 1,
        r <= 1,
        w_next <= 1,
    ensures
        set ==> ((((r ^ 1) ^ v) ^ w == 0 && w_next ^ gf::gf128_mul(v, w) == 0) <==> r + v + w == 1 + 2
            * w_next),
        !set ==> (((r ^ v) ^ w == 0 && ((w_next ^ v) ^ w) ^ gf::gf128_mul(v, w) == 0) <==> r + v + w == 2
            * w_next),
{
    lemma_mul_boolean(v, w);
    lemma_small_products(v, w, w);
    let x = gf::gf128_mul(v, w);
    lemma_xor(r, 1);
    lemma_xor(r ^ 1, v);
    lemma_xor((r ^ 1) ^ v, w);
    lemma_xor(w_next, x);
    lemma_xor(r, v);
    lemma_xor(r ^ v, w);
    lemma_xor(w_next, v);
    lemma_xor(w_next ^ v, w);
    lemma_xor((w_next ^ v) ^ w, x);
}

proof fn lemma_range_steps(
    v: Seq<u128>,
    r: Seq<u128>,
    w: Seq<u128>,
    top: u32,
    n: nat,
)
    requires
        r.len() == v.len(),
        w.len() == v.len() + 1,
        n <= v.len() <= 32,
        boolean(v),
        w[0] <= 1,
    ensures
        all_zero(int_arith::range_steps(v, r, w, top, n)) <==> {
            &&& forall|i: int| 0 <= i < n ==> #[trigger] r[i] <= 1
            &&& forall|i: int| 0 <= i <= n ==> #[trigger] w[i] <= 1
            &&& forall|i: int|
                0 <= i < n ==> (#[trigger] r[i]) + v[i] + w[i] == bits_of(top as nat, v.len())[i] + 2
                    * w[i + 1]
        },
    decreases n,
{
    if n > 0 {
        let k = n - 1;
        lemma_range_steps(v, r, w, top, k as nat);
        let step = int_arith::range_step(v, r, w, top, k);
        lemma_all_zero_append(int_arith::range_steps(v, r, w, top, k as nat), step);
        lemma_all_zero_four(step[0], step[1], step[2], step[3]);
        assert(step =~= seq![step[0], step[1], step[2], step[3]]);
        law_boolean_residue(r[k]);
        law_boolean_residue(w[k + 1]);
        assert(v[k] <= 1);
        bits::lemma_bit_u32(top, k as nat);
        bits::lemma_mod_pow2_step(top as nat, k as nat);
        if w[k] <= 1 && r[k] <= 1 && w[k + 1] <= 1 {
            lemma_range_bit(int_arith::bit_set(top, k), v[k], w[k], r[k], w[k + 1]);
        }
    }
}

/// On a boolean value the constraints of
/// [`range_check`](int_arith::range_check) all vanish exactly where the
/// witness subtracts the value from `bound - 1` without a last borrow.
pub proof fn law_range_chain(v: Seq<u128>, r: Seq<u128>, w: Seq<u128>, bound: u32)
    requires
        bound > 0,
        v.len() <= 32,
        r.len() == v.len(),
        w.len() == v.len() + 1,
        boolean(v),
    ensures
        all_zero(int_arith::range_chain(v, r, w, bound)) <==> subtracts(
            bits_of((bound - 1) as nat, v.len()),
            v,
            r,
            w,
        ) && w[v.len() as int] == 0,
{
    let top = (bound - 1) as u32;
    let n = v.len();
    let steps = int_arith::range_steps(v, r, w, top, n);
    lemma_all_zero_append(seq![w[0]] + steps, seq![w[n as int]]);
    lemma_all_zero_append(seq![w[0]], steps);
    if all_zero(seq![w[0]]) {
        assert(seq![w[0]][0] == 0);
    }
    if all_zero(seq![w[n as int]]) {
        assert(seq![w[n as int]][0] == 0);
    }
    if w[0] == 0 {
        lemma_range_steps(v, r, w, top, n);
    }
}

/// A value that passes [`range_check`](int_arith::range_check) against a
/// bound of at most its width is below the bound.
pub proof fn law_range_value(v: Seq<u128>, r: Seq<u128>, w: Seq<u128>, bound: u32)
    requires
        bound > 0,
        v.len() <= 32,
        bound <= pow2(v.len()),
        r.len() == v.len(),
        w.len() == v.len() + 1,
        boolean(v),
        all_zero(int_arith::range_chain(v, r, w, bound)),
    ensures
        bits_value(v) < bound,
{
    law_range_chain(v, r, w, bound);
    let t = bits_of((bound - 1) as nat, v.len());
    lemma_bits_of((bound - 1) as nat, v.len());
    vstd::arithmetic::div_mod::lemma_small_mod((bound - 1) as nat, pow2(v.len()));
    law_sub_value(t, v, r, w);
}

/// Every value below a bound of at most its width has a witness that
/// passes [`range_check`](int_arith::range_check).
pub proof fn law_range_complete(v: Seq<u128>, bound: u32) -> (x: (Seq<u128>, Seq<u128>))
    requires
        bound > 0,
        v.len() <= 32,
        bound <= pow2(v.len()),
        boolean(v),
        bits_value(v) < bound,
    ensures
        x.0.len() == v.len(),
        x.1.len() == v.len() + 1,
        all_zero(int_arith::range_chain(v, x.0, x.1, bound)),
{
    let t = bits_of((bound - 1) as nat, v.len());
    lemma_bits_of((bound - 1) as nat, v.len());
    vstd::arithmetic::div_mod::lemma_small_mod((bound - 1) as nat, pow2(v.len()));
    let (r, w) = law_sub_complete(t, v);
    law_sub_value(t, v, r, w);
    assert(w[v.len() as int] <= 1);
    law_range_chain(v, r, w, bound);
    (r, w)
}

// ---------------------------------------------------------------
// Shifting and padding
// ---------------------------------------------------------------

pub proof fn lemma_zero_value(s: Seq<u128>)
    requires
        all_zero(s),
    ensures
        bits_value(s) == 0,
    decreases s.len(),
{
    if s.len() > 0 {
        lemma_zero_value(s.drop_last());
        assert(s.last() == 0);
        lemma_mul_basics(pow2((s.len() - 1) as nat) as int);
    }
}

/// A copy moved up by `shift` and wide enough writes `2^shift` times the
/// number.
pub proof fn lemma_shifted_value(b: Seq<u128>, shift: nat, width: nat)
    requires
        boolean(b),
        shift + b.len() <= width,
    ensures
        boolean(int_arith::shifted(b, shift as int, width)),
        bits_value(int_arith::shifted(b, shift as int, width)) == pow2(shift) * bits_value(b),
    decreases width,
{
    let s = int_arith::shifted(b, shift as int, width);
    assert forall|i: int| 0 <= i < s.len() implies #[trigger] s[i] <= 1 by {
        if shift <= i < shift + b.len() {
            assert(b[i - shift] <= 1);
        }
    }
    if width > shift + b.len() {
        let prev = int_arith::shifted(b, shift as int, (width - 1) as nat);
        lemma_shifted_value(b, shift, (width - 1) as nat);
        assert(s.drop_last() =~= prev);
        lemma_mul_basics(pow2((width - 1) as nat) as int);
    } else if b.len() == 0 {
        lemma_zero_value(s);
        lemma_mul_basics(pow2(shift) as int);
    } else {
        let c = b.drop_last();
        lemma_shifted_value(c, shift, (width - 1) as nat);
        assert(s.drop_last() =~= int_arith::shifted(c, shift as int, (width - 1) as nat));
        let k = (b.len() - 1) as nat;
        lemma_pow2_adds(shift, k);
        let (p, q, x, t) = (pow2(shift), pow2(k), bits_value(c), b.last() as nat);
        assert(p * (x + t * q) == p * x + t * (p * q)) by (nonlinear_arith);
    }
}

pub proof fn lemma_padded_value(b: Seq<u128>, width: nat)
    requires
        boolean(b),
        b.len() <= width,
    ensures
        boolean(int_arith::padded(b, width)),
        bits_value(int_arith::padded(b, width)) == bits_value(b),
{
    lemma_shifted_value(b, 0, width);
    lemma2_to64();
}


pub proof fn lemma_pow2_le(a: nat, b: nat)
    requires
        a <= b,
    ensures
        pow2(a) <= pow2(b),
{
    if a < b {
        lemma_pow2_strictly_increases(a, b);
    }
}

/// An addition wide enough for its sum has no carry out.
pub proof fn lemma_wide_add(
    a: Seq<u128>,
    b: Seq<u128>,
    r: Seq<u128>,
    c: Seq<u128>,
    below: nat,
)
    requires
        add_shape(a, b, r, c),
        boolean(a),
        boolean(b),
        all_zero(int_arith::add_chain(a, b, r, c)),
        below + 1 == a.len(),
        bits_value(a) < pow2(below),
        bits_value(b) < pow2(below),
    ensures
        boolean(r),
        bits_value(r) == bits_value(a) + bits_value(b),
{
    law_add_chain(a, b, r, c);
    law_add_value(a, b, r, c);
    lemma_pow2_adds(below, 1);
    lemma2_to64();
    lemma_mul_basics(pow2(a.len()) as int);
    assert(c[a.len() as int] <= 1);
}

// ---------------------------------------------------------------
// Multiplication by a constant
// ---------------------------------------------------------------

/// The columns of a multiplication by `constant` have the widths that
/// [`mul_const_scratch_widths`](int_arith::mul_const_scratch_widths) gives.
pub open spec fn mul_const_fits(
    operand: nat,
    result: Seq<u128>,
    results: Seq<Seq<u128>>,
    carries: Seq<Seq<u128>>,
    constant: u32,
) -> bool {
    let shifts = int_arith::set_positions(constant, 32);
    let m = shifts.len() as int;
    &&& result.len() == int_arith::copies_width(shifts, operand, (m - 1) as nat)
    &&& m >= 2 ==> results.len() == m - 2 && carries.len() == m - 1
    &&& forall|j: int|
        0 <= j < m - 2 ==> (#[trigger] results[j]).len() == int_arith::copies_width(
            shifts,
            operand,
            (j + 1) as nat,
        )
    &&& forall|j: int|
        0 <= j < m - 1 ==> (#[trigger] carries[j]).len() == int_arith::copies_width(
            shifts,
            operand,
            (j + 1) as nat,
        ) + 1
}

pub proof fn lemma_shifted_bound(b: Seq<u128>, shift: nat)
    requires
        boolean(b),
    ensures
        pow2(shift) * bits_value(b) < pow2(shift + b.len()),
{
    lemma_bits_bound(b);
    lemma_pow2_adds(shift, b.len());
    lemma_pow2_pos(shift);
    let (p, q, x) = (pow2(shift), pow2(b.len()), bits_value(b));
    assert(p * x < p * q) by (nonlinear_arith)
        requires
            x < q,
            p > 0,
    ;
}

pub proof fn lemma_mul_const_adds(
    operand: Seq<u128>,
    result: Seq<u128>,
    results: Seq<Seq<u128>>,
    carries: Seq<Seq<u128>>,
    constant: u32,
    j: nat,
)
    requires
        boolean(operand),
        mul_const_fits(operand.len(), result, results, carries, constant),
        1 <= j < int_arith::set_positions(constant, 32).len(),
        all_zero(
            int_arith::mul_const_adds(
                operand,
                result,
                results,
                carries,
                int_arith::set_positions(constant, 32),
                j,
            ),
        ),
    ensures
        ({
            let shifts = int_arith::set_positions(constant, 32);
            let target = int_arith::partial_target(result, results, shifts.len() as int, j as int);
            &&& boolean(target)
            &&& target.len() == int_arith::copies_width(shifts, operand.len(), j)
            &&& bits_value(target) == bits_value(operand) * int_arith::power_sum(
                shifts.take((j + 1) as int),
            )
        }),
    decreases j,
{
    let shifts = int_arith::set_positions(constant, 32);
    let m = shifts.len() as int;
    let n = operand.len();
    let v = bits_value(operand);
    let target = int_arith::partial_target(result, results, m, j as int);
    let width = target.len();
    let s = shifts[j as int] as nat;
    let before = int_arith::copies_width(shifts, n, (j - 1) as nat);
    let below = (width - 1) as nat;
    let right = int_arith::shifted(operand, s as int, width);
    lemma_shifted_value(operand, s, width);
    lemma_shifted_bound(operand, s);
    lemma_pow2_le(s + n, below);
    let left = if j == 1 {
        int_arith::shifted(operand, shifts[0] as int, width)
    } else {
        int_arith::padded(int_arith::partial_target(result, results, m, j - 1), width)
    };
    lemma_all_zero_append(
        int_arith::mul_const_adds(operand, result, results, carries, shifts, (j - 1) as nat),
        int_arith::add_chain(left, right, target, carries[j - 1]),
    );
    lemma_pow2_le(before, below);
    assert(shifts.take((j + 1) as int).drop_last() =~= shifts.take(j as int));
    if j == 1 {
        let s0 = shifts[0] as nat;
        lemma_shifted_value(operand, s0, width);
        lemma_shifted_bound(operand, s0);
        assert(shifts.take(1).drop_last() =~= Seq::<usize>::empty());
        assert(int_arith::power_sum(shifts.take(1).drop_last()) == 0);
        assert(int_arith::power_sum(shifts.take(1)) == pow2(s0));
        lemma_mul_is_commutative(v as int, pow2(s0) as int);
    } else {
        lemma_mul_const_adds(operand, result, results, carries, constant, (j - 1) as nat);
        let prev = int_arith::partial_target(result, results, m, j - 1);
        lemma_padded_value(prev, width);
        lemma_bits_bound(prev);
    }
    lemma_wide_add(left, right, target, carries[j - 1], below);
    lemma_mul_is_distributive_add(
        v as int,
        int_arith::power_sum(shifts.take(j as int)) as int,
        pow2(s) as int,
    );
    lemma_mul_is_commutative(v as int, pow2(s) as int);
}

/// Where the columns have the laid out widths, the constraints of
/// [`mul_const`](int_arith::mul_const) force the result to be
/// `operand · constant`.
pub proof fn law_mul_const(
    operand: Seq<u128>,
    result: Seq<u128>,
    results: Seq<Seq<u128>>,
    carries: Seq<Seq<u128>>,
    constant: u32,
)
    requires
        constant > 0,
        boolean(operand),
        mul_const_fits(operand.len(), result, results, carries, constant),
        all_zero(int_arith::mul_const_chain(operand, result, results, carries, constant)),
    ensures
        boolean(result),
        bits_value(result) == bits_value(operand) * constant,
{
    let shifts = int_arith::set_positions(constant, 32);
    let m = shifts.len() as int;
    let v = bits_value(operand);
    int_arith::lemma_set_positions_sum(constant, 32);
    lemma2_to64();
    vstd::arithmetic::div_mod::lemma_small_mod(constant as nat, pow2(32));
    assert(shifts.take(m) =~= shifts);
    if m == 0 {
        assert(int_arith::power_sum(shifts) == 0);
    } else if m == 1 {
        let s = shifts[0] as nat;
        let copy = int_arith::shifted(operand, s as int, result.len());
        lemma_shifted_value(operand, s, result.len());
        let chain = int_arith::mul_const_chain(operand, result, results, carries, constant);
        assert forall|k: int| 0 <= k < result.len() implies result[k] == copy[k] by {
            assert(chain[k] == 0);
            lemma_xor(result[k], copy[k]);
        }
        assert(result =~= copy);
        assert(shifts.drop_last() =~= Seq::<usize>::empty());
        assert(int_arith::power_sum(shifts.drop_last()) == 0);
        assert(pow2(s) == constant);
        lemma_mul_is_commutative(v as int, pow2(s) as int);
    } else {
        lemma_mul_const_adds(operand, result, results, carries, constant, (m - 1) as nat);
    }
}

/// Modular reduction: the constraints of
/// [`mod_reduction`](int_arith::mod_reduction) force
/// `product = quotient · modulus + remainder` with `remainder < modulus`.
pub proof fn law_mod_reduction(
    product: Seq<u128>,
    quotient: Seq<u128>,
    remainder: Seq<u128>,
    quot_x_mod: Seq<u128>,
    results: Seq<Seq<u128>>,
    carries: Seq<Seq<u128>>,
    add_carry: Seq<u128>,
    range_result: Seq<u128>,
    range_borrow: Seq<u128>,
    modulus: u32,
)
    requires
        modulus > 0,
        boolean(quotient),
        boolean(remainder),
        mul_const_fits(quotient.len(), quot_x_mod, results, carries, modulus),
        quot_x_mod.len() == product.len(),
        add_carry.len() == product.len() + 1,
        remainder.len() <= 32,
        remainder.len() <= product.len(),
        modulus <= pow2(remainder.len()),
        range_result.len() == remainder.len(),
        range_borrow.len() == remainder.len() + 1,
        all_zero(
            int_arith::mul_const_chain(quotient, quot_x_mod, results, carries, modulus)
                + int_arith::add_chain(
                quot_x_mod,
                int_arith::padded(remainder, product.len()),
                product,
                add_carry,
            ) + seq![add_carry[product.len() as int]] + int_arith::range_chain(
                remainder,
                range_result,
                range_borrow,
                modulus,
            ),
        ),
    ensures
        boolean(product),
        bits_value(product) == bits_value(quotient) * modulus + bits_value(remainder),
        bits_value(remainder) < modulus,
{
    let c1 = int_arith::mul_const_chain(quotient, quot_x_mod, results, carries, modulus);
    let pad = int_arith::padded(remainder, product.len());
    let c2 = int_arith::add_chain(quot_x_mod, pad, product, add_carry);
    let c3 = seq![add_carry[product.len() as int]];
    let c4 = int_arith::range_chain(remainder, range_result, range_borrow, modulus);
    lemma_all_zero_append(c1 + c2 + c3, c4);
    lemma_all_zero_append(c1 + c2, c3);
    lemma_all_zero_append(c1, c2);
    assert(c3[0] == 0);
    law_mul_const(quotient, quot_x_mod, results, carries, modulus);
    lemma_padded_value(remainder, product.len());
    law_add_chain(quot_x_mod, pad, product, add_carry);
    law_add_value(quot_x_mod, pad, product, add_carry);
    lemma_mul_basics(pow2(product.len()) as int);
    law_range_value(remainder, range_result, range_borrow, modulus);
}

// ---------------------------------------------------------------
// Schoolbook multiplication
// ---------------------------------------------------------------

/// The columns of a multiplication of two `n`-bit operands have the widths
/// that [`schoolbook_mul_layout`](int_arith::schoolbook_mul_layout) gives.
pub open spec fn schoolbook_fits(
    n: nat,
    product: Seq<u128>,
    pp0: Seq<u128>,
    sums: Seq<Seq<u128>>,
    carries: Seq<Seq<u128>>,
) -> bool {
    &&& pp0.len() == n
    &&& product.len() == 2 * n
    &&& n >= 2 ==> sums.len() == n - 2 && carries.len() == n - 1
    &&& forall|j: int| 0 <= j < n - 2 ==> (#[trigger] sums[j]).len() == n + 2 + j
    &&& forall|j: int| 0 <= j < n - 1 ==> (#[trigger] carries[j]).len() == n + 3 + j
}

/// Partial product `j` writes `2^j · b_j · a`.
pub proof fn lemma_partial_product(a: Seq<u128>, bj: u128, j: nat, width: nat)
    requires
        boolean(a),
        bj <= 1,
        j + a.len() <= width,
    ensures
        boolean(int_arith::partial_product(a, bj, j as int, width)),
        bits_value(int_arith::partial_product(a, bj, j as int, width)) == pow2(j) * (bj
            * bits_value(a)),
{
    let pp = int_arith::partial_product(a, bj, j as int, width);
    assert forall|k: int| j <= k < j + a.len() implies gf::gf128_mul(bj, #[trigger] a[k - j]) == if bj
        == 1 {
        a[k - j]
    } else {
        0
    } by {
        lemma_mul_boolean(bj, a[k - j]);
    }
    lemma_mul_basics(bits_value(a) as int);
    lemma_mul_basics(pow2(j) as int);
    if bj == 1 {
        assert(pp =~= int_arith::shifted(a, j as int, width));
        lemma_shifted_value(a, j, width);
    } else {
        assert(all_zero(pp));
        lemma_zero_value(pp);
    }
}

pub proof fn lemma_pp0(a: Seq<u128>, b0: u128, pp0: Seq<u128>, n: nat)
    requires
        boolean(a),
        b0 <= 1,
        n <= pp0.len(),
        pp0.len() == a.len(),
        all_zero(int_arith::pp0_steps(a, b0, pp0, n)),
    ensures
        forall|k: int|
            0 <= k < n ==> #[trigger] pp0[k] == if b0 == 1 {
                a[k]
            } else {
                0
            },
    decreases n,
{
    if n > 0 {
        let k = n - 1;
        let step = seq![
            constraint::boolean_residue(pp0[k]),
            if k < a.len() {
                pp0[k] ^ gf::gf128_mul(b0, a[k])
            } else {
                pp0[k]
            },
        ];
        lemma_all_zero_append(int_arith::pp0_steps(a, b0, pp0, k as nat), step);
        lemma_pp0(a, b0, pp0, k as nat);
        assert(step[1] == 0);
        lemma_xor(pp0[k], gf::gf128_mul(b0, a[k]));
        lemma_mul_boolean(b0, a[k]);
    }
}

pub proof fn lemma_schoolbook_adds(
    a: Seq<u128>,
    b: Seq<u128>,
    product: Seq<u128>,
    pp0: Seq<u128>,
    sums: Seq<Seq<u128>>,
    carries: Seq<Seq<u128>>,
    j: nat,
)
    requires
        boolean(a),
        boolean(b),
        a.len() == b.len(),
        schoolbook_fits(a.len(), product, pp0, sums, carries),
        boolean(pp0),
        bits_value(pp0) == b[0] * bits_value(a),
        1 <= j < b.len(),
        all_zero(int_arith::schoolbook_adds(a, b, product, pp0, sums, carries, j)),
    ensures
        ({
            let target = int_arith::partial_target(product, sums, b.len() as int, j as int);
            &&& boolean(target)
            &&& target.len() == a.len() + j + 1
            &&& bits_value(target) == bits_value(a) * bits_value(b.take((j + 1) as int))
        }),
    decreases j,
{
    let n = a.len();
    let m = b.len() as int;
    let v = bits_value(a);
    let target = int_arith::partial_target(product, sums, m, j as int);
    let width = target.len();
    assert(width == n + j + 1) by {
        if j < m - 1 {
            assert(sums[j - 1].len() == n + 2 + (j - 1));
        }
    }
    let below = (n + j) as nat;
    assert(carries[j - 1].len() == n + 3 + (j - 1));
    let right = int_arith::partial_product(a, b[j as int], j as int, width);
    assert(b[j as int] <= 1);
    lemma_partial_product(a, b[j as int], j, width);
    lemma_shifted_bound(a, j);
    let left = if j == 1 {
        int_arith::padded(pp0, width)
    } else {
        int_arith::padded(int_arith::partial_target(product, sums, m, j - 1), width)
    };
    lemma_all_zero_append(
        int_arith::schoolbook_adds(a, b, product, pp0, sums, carries, (j - 1) as nat),
        int_arith::add_chain(left, right, target, carries[j - 1]),
    );
    lemma_bits_take(b, j as int);
    lemma_mul_basics(v as int);
    lemma_mul_basics(pow2(j) as int);
    assert(bits_value(right) < pow2(below)) by {
        if b[j as int] == 0 {
            lemma_pow2_pos(below);
        }
    }
    if j == 1 {
        lemma_padded_value(pp0, width);
        lemma_bits_bound(pp0);
        lemma_pow2_le(n, below);
        lemma_bits_take(b, 0);
        assert(b.take(0) =~= Seq::<u128>::empty());
        assert(bits_value(b.take(0)) == 0);
        lemma2_to64();
        lemma_mul_basics(b[0] as int);
        lemma_mul_is_commutative(v as int, b[0] as int);
    } else {
        lemma_schoolbook_adds(a, b, product, pp0, sums, carries, (j - 1) as nat);
        let prev = int_arith::partial_target(product, sums, m, j - 1);
        lemma_padded_value(prev, width);
        lemma_bits_bound(prev);
    }
    lemma_wide_add(left, right, target, carries[j - 1], below);
    let (x, t, p) = (bits_value(b.take(j as int)), b[j as int] as nat, pow2(j));
    assert(v * x + p * (t * v) == v * (x + t * p)) by (nonlinear_arith);
}

/// Where the columns have the laid out widths, the constraints of
/// [`schoolbook_mul`](int_arith::schoolbook_mul) force the product to be
/// `a · b`.
pub proof fn law_schoolbook(
    a: Seq<u128>,
    b: Seq<u128>,
    product: Seq<u128>,
    pp0: Seq<u128>,
    sums: Seq<Seq<u128>>,
    carries: Seq<Seq<u128>>,
)
    requires
        a.len() > 0,
        a.len() == b.len(),
        boolean(a),
        boolean(b),
        schoolbook_fits(a.len(), product, pp0, sums, carries),
        all_zero(int_arith::schoolbook_chain(a, b, product, pp0, sums, carries)),
    ensures
        boolean(product),
        bits_value(product) == bits_value(a) * bits_value(b),
{
    let n = a.len();
    let head = int_arith::pp0_steps(a, b[0], pp0, pp0.len());
    let tail = if b.len() == 1 {
        Seq::new(
            product.len(),
            |k: int|
                if k < pp0.len() {
                    product[k] ^ pp0[k]
                } else {
                    product[k]
                },
        )
    } else {
        int_arith::schoolbook_adds(a, b, product, pp0, sums, carries, (b.len() - 1) as nat)
    };
    lemma_all_zero_append(head, tail);
    assert(b[0] <= 1);
    lemma_pp0(a, b[0], pp0, n);
    let v = bits_value(a);
    lemma_mul_basics(v as int);
    if b[0] == 1 {
        assert(pp0 =~= a);
    } else {
        assert(all_zero(pp0));
        lemma_zero_value(pp0);
    }
    assert(boolean(pp0));
    assert(bits_value(pp0) == b[0] * v);
    assert(b.take(n as int) =~= b);
    if n == 1 {
        let pad = int_arith::padded(pp0, product.len());
        assert forall|k: int| 0 <= k < product.len() implies product[k] == pad[k] by {
            assert(tail[k] == 0);
            if k < pp0.len() {
                lemma_xor(product[k], pp0[k]);
            }
        }
        assert(product =~= pad);
        lemma_padded_value(pp0, product.len());
        lemma_bits_take(b, 0);
        assert(b.take(0) =~= Seq::<u128>::empty());
        assert(bits_value(b.take(0)) == 0);
        lemma2_to64();
        lemma_mul_basics(b[0] as int);
        lemma_mul_is_commutative(v as int, b[0] as int);
    } else {
        lemma_schoolbook_adds(a, b, product, pp0, sums, carries, (n - 1) as nat);
    }
}

// ---------------------------------------------------------------
// Modular addition
// ---------------------------------------------------------------

proof fn lemma_flagged(flag: u128, modulus: u32, n: nat)
    requires
        flag <= 1,
        n <= 32,
    ensures
        boolean(int_arith::flagged(flag, modulus, n)),
        bits_value(int_arith::flagged(flag, modulus, n)) == flag * (modulus as nat % pow2(n)),
{
    let f = int_arith::flagged(flag, modulus, n);
    let m = bits_of(modulus as nat, n);
    lemma_bits_of(modulus as nat, n);
    lemma_mul_basics((modulus as nat % pow2(n)) as int);
    assert forall|k: int| 0 <= k < n implies f[k] == if flag == 1 {
        m[k]
    } else {
        0
    } by {
        bits::lemma_bit_u32(modulus, k as nat);
        bits::lemma_mod_pow2_step(modulus as nat, k as nat);
    }
    if flag == 1 {
        assert(f =~= m);
    } else {
        assert(all_zero(f));
        lemma_zero_value(f);
    }
}

/// Where both operands are below a modulus of at most their width, the
/// constraints of [`mod_add`](int_arith::mod_add) force the result to be
/// `(a + b) mod modulus`.
pub proof fn law_mod_add(
    a: Seq<u128>,
    b: Seq<u128>,
    result: Seq<u128>,
    lhs: Seq<u128>,
    lhs_carry: Seq<u128>,
    rhs: Seq<u128>,
    rhs_carry: Seq<u128>,
    flag: u128,
    range_result: Seq<u128>,
    range_borrow: Seq<u128>,
    modulus: u32,
)
    requires
        modulus > 0,
        a.len() <= 32,
        modulus < pow2(a.len()),
        boolean(a),
        boolean(b),
        boolean(result),
        bits_value(a) < modulus,
        bits_value(b) < modulus,
        b.len() == a.len(),
        result.len() == a.len(),
        add_shape(a, b, lhs, lhs_carry),
        rhs.len() == a.len(),
        rhs_carry.len() == a.len() + 1,
        range_result.len() == a.len(),
        range_borrow.len() == a.len() + 1,
        all_zero(
            int_arith::mod_add_chain(
                a,
                b,
                result,
                lhs,
                lhs_carry,
                rhs,
                rhs_carry,
                flag,
                range_result,
                range_borrow,
                modulus,
            ),
        ),
    ensures
        bits_value(result) == (bits_value(a) + bits_value(b)) % (modulus as nat),
{
    let n = a.len();
    let c1 = seq![constraint::boolean_residue(flag)];
    let c2 = int_arith::add_chain(a, b, lhs, lhs_carry);
    let fq = int_arith::flagged(flag, modulus, n);
    let c3 = int_arith::add_chain(result, fq, rhs, rhs_carry);
    let c4 = int_arith::pairwise(lhs, rhs, n);
    let c5 = seq![lhs_carry[n as int] ^ rhs_carry[n as int]];
    let c6 = int_arith::range_chain(result, range_result, range_borrow, modulus);
    lemma_all_zero_append(c1 + c2 + c3 + c4 + c5, c6);
    lemma_all_zero_append(c1 + c2 + c3 + c4, c5);
    lemma_all_zero_append(c1 + c2 + c3, c4);
    lemma_all_zero_append(c1 + c2, c3);
    lemma_all_zero_append(c1, c2);
    assert(c1[0] == 0);
    law_boolean_residue(flag);
    lemma_flagged(flag, modulus, n);
    vstd::arithmetic::div_mod::lemma_small_mod(modulus as nat, pow2(n));
    law_add_chain(a, b, lhs, lhs_carry);
    law_add_value(a, b, lhs, lhs_carry);
    law_add_chain(result, fq, rhs, rhs_carry);
    law_add_value(result, fq, rhs, rhs_carry);
    assert forall|k: int| 0 <= k < n implies lhs[k] == rhs[k] by {
        assert(c4[k] == 0);
        lemma_xor(lhs[k], rhs[k]);
    }
    assert(lhs =~= rhs);
    assert(c5[0] == 0);
    lemma_xor(lhs_carry[n as int], rhs_carry[n as int]);
    law_range_value(result, range_result, range_borrow, modulus);
    lemma_mul_basics(modulus as int);
    let (x, y) = (bits_value(a) + bits_value(b), bits_value(result));
    assert(x == y + flag * modulus);
    vstd::arithmetic::div_mod::lemma_fundamental_div_mod_converse(
        x as int,
        modulus as int,
        flag as int,
        y as int,
    );
}

// ---------------------------------------------------------------
// Bit packing
// ---------------------------------------------------------------

proof fn lemma_packed(b: Seq<u128>, n: nat)
    requires
        boolean(b),
        n <= b.len() <= 64,
    ensures
        int_arith::packed(b, n) as nat == bits_value(b.take(n as int)),
        int_arith::packed(b, n) < pow2(n),
    decreases n,
{
    lemma2_to64();
    if n == 0 {
        assert(b.take(0) =~= Seq::<u128>::empty());
    } else {
        let k = (n - 1) as nat;
        lemma_packed(b, k);
        lemma_bits_take(b, k as int);
        let low = int_arith::packed(b, k);
        let weight = 1u128 << (k as u128);
        let t = b[k as int];
        assert(t <= 1);
        lemma_mul_boolean(t, weight);
        lemma_mul_basics(pow2(k) as int);
        lemma_pow2_adds(k, 1);
        lemma_pow2_le(k, 64);
        bits::lemma_one_shl_u128(k);
        lemma_xor(low, 0);
        lemma_xor_disjoint(low, k as u128);
    }
}

proof fn lemma_xor_disjoint(low: u128, k: u128)
    requires
        k < 64,
        low < 1u128 << k,
    ensures
        low ^ (1u128 << k) == low + (1u128 << k),
        low ^ 0 == low,
{
    assert(low ^ (1u128 << k) == low + (1u128 << k) && low ^ 0 == low) by (bit_vector)
        requires
            k < 64,
            low < 1u128 << k,
    ;
}

/// On boolean bits the constraint of
/// [`bit_packing`](int_arith::bit_packing) holds exactly where the bus
/// column is the number the bits write.
pub proof fn law_bit_packing(bus: u128, b: Seq<u128>)
    requires
        boolean(b),
        b.len() <= 64,
    ensures
        bus ^ int_arith::packed(b, b.len()) == 0 <==> bus as nat == bits_value(b),
{
    lemma_packed(b, b.len());
    assert(b.take(b.len() as int) =~= b);
    lemma_xor(bus, int_arith::packed(b, b.len()));
}

/// Bits weighted by powers of two write the number they are the bits of.
pub proof fn law_weighted(vs: Seq<u128>)
    requires
        boolean(vs),
        vs.len() <= 64,
    ensures
        constraint::weighted(vs) == bits_value(vs),
{
    lemma_weighted_packed(vs, vs.len());
    let ws = Seq::new(vs.len(), |j: int| gf::gf128_mul(1u128 << (j as u128), vs[j]));
    assert(ws.take(vs.len() as int) =~= ws);
    law_bit_packing(int_arith::packed(vs, vs.len()), vs);
    lemma_xor(int_arith::packed(vs, vs.len()), int_arith::packed(vs, vs.len()));
}

proof fn lemma_weighted_packed(vs: Seq<u128>, n: nat)
    requires
        n <= vs.len(),
    ensures
        constraint::xor_all(
            Seq::new(vs.len(), |j: int| gf::gf128_mul(1u128 << (j as u128), vs[j])).take(n as int),
        ) == int_arith::packed(vs, n),
    decreases n,
{
    let ws = Seq::new(vs.len(), |j: int| gf::gf128_mul(1u128 << (j as u128), vs[j]));
    if n > 0 {
        let k = n - 1;
        lemma_weighted_packed(vs, k as nat);
        assert(ws.take(n as int).drop_last() =~= ws.take(k));
        <u128 as Ring>::commutes(1u128 << (k as u128), vs[k]);
    }
}

} // verus!
