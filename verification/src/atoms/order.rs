//! Periods of powers, and the primes that decide them.

use vstd::arithmetic::div_mod::*;
use vstd::arithmetic::mul::*;
use vstd::prelude::*;

verus! {

/// `d` divides `n`.
pub open spec fn divides(d: nat, n: nat) -> bool {
    exists|q: nat| n == #[trigger] (q * d)
}

/// `p` has no divisors but one and itself.
pub open spec fn is_prime(p: nat) -> bool {
    &&& p > 1
    &&& forall|d: nat| #[trigger] divides(d, p) ==> d == 1 || d == p
}

/// The product of a list.
pub open spec fn product(ps: Seq<nat>) -> nat
    decreases ps.len(),
{
    if ps.len() == 0 {
        1
    } else {
        product(ps.drop_last()) * ps.last()
    }
}

/// Every entry is a prime.
pub open spec fn all_prime(ps: Seq<nat>) -> bool {
    forall|i: int| 0 <= i < ps.len() ==> is_prime(#[trigger] ps[i])
}

// ---------------------------------------------------------------
// Divisors
// ---------------------------------------------------------------

pub proof fn lemma_divides(d: nat, n: nat, q: nat)
    requires
        n == q * d,
    ensures
        divides(d, n),
{
}

/// A divisor divides sums.
proof fn lemma_divides_sum(d: nat, a: nat, b: nat)
    requires
        divides(d, a),
        divides(d, b),
    ensures
        divides(d, a + b),
{
    let (p, q) = (choose|q: nat| a == #[trigger] (q * d), choose|q: nat| b == #[trigger] (q * d));
    lemma_mul_is_distributive_add_other_way(d as int, p as int, q as int);
    assert(a + b == (p + q) * d);
}

/// A divisor divides products.
proof fn lemma_divides_product(d: nat, a: nat, k: nat)
    requires
        divides(d, a),
    ensures
        divides(d, k * a),
        divides(d, a * k),
{
    let q = choose|q: nat| a == #[trigger] (q * d);
    lemma_mul_is_associative(k as int, q as int, d as int);
    assert(k * a == (k * q) * d);
    lemma_mul_is_commutative(k as int, a as int);
}

/// A divisor of a positive number is no larger.
pub proof fn lemma_divisor_bound(d: nat, n: nat)
    requires
        divides(d, n),
        n > 0,
    ensures
        0 < d <= n,
{
    let q = choose|q: nat| n == #[trigger] (q * d);
    assert(0 < d <= n) by (nonlinear_arith)
        requires
            n == q * d,
            n > 0,
            q >= 0,
            d >= 0,
    ;
}

/// Division without rest.
pub proof fn lemma_exact(d: nat, n: nat)
    requires
        d > 0,
    ensures
        divides(d, n) <==> n % d == 0,
        divides(d, n) ==> n == (n / d) * d,
{
    lemma_fundamental_div_mod(n as int, d as int);
    lemma_mul_is_commutative(d as int, (n / d) as int);
    if n % d == 0 {
        assert(n == (n / d) * d);
    }
    if divides(d, n) {
        let q = choose|q: nat| n == #[trigger] (q * d);
        lemma_mod_multiples_basic(q as int, d as int);
    }
}

/// A combination of two numbers that divides both.
pub proof fn lemma_bezout(a: nat, b: nat) -> (r: (int, int, nat))
    ensures
        r.0 * a + r.1 * b == r.2,
        divides(r.2, a),
        divides(r.2, b),
    decreases b,
{
    if b == 0 {
        assert(1 * a + 0 * b == a) by (nonlinear_arith);
        assert(a == 1 * a) by (nonlinear_arith);
        assert(0nat == 0 * a) by (nonlinear_arith);
        lemma_divides(a, a, 1);
        lemma_divides(a, 0, 0);
        (1, 0, a)
    } else {
        let (q, m) = (a / b, a % b);
        lemma_fundamental_div_mod(a as int, b as int);
        let (u, v, d) = lemma_bezout(b, m);
        // u b + v (a - q b) = v a + (u - v q) b
        assert(v * a + (u - v * q) * b == d) by (nonlinear_arith)
            requires
                u * b + v * m == d,
                a == b * q + m,
        ;
        lemma_divides_product(d, b, q);
        lemma_divides_sum(d, b * q, m);
        (v, u - v * q, d)
    }
}

/// A number that divides a product and is prime to a factor divides the other.
proof fn lemma_coprime_divides(k: nat, p: nat, m: nat, u: int, v: int)
    requires
        u * k + v * p == 1,
        divides(k, m * p),
        k > 0,
    ensures
        divides(k, m),
{
    let q = choose|q: nat| m * p == #[trigger] (q * k);
    let w = u * m + v * q;
    assert(m == w * k) by (nonlinear_arith)
        requires
            u * k + v * p == 1,
            m * p == q * k,
            w == u * m + v * q,
    ;
    assert(w >= 0) by (nonlinear_arith)
        requires
            m == w * k,
            m >= 0,
            k > 0,
    ;
    lemma_divides(k, m, w as nat);
}

/// A divisor of a product of primes, if not one, is divided by one of them.
pub proof fn lemma_prime_divisor(k: nat, ps: Seq<nat>) -> (i: int)
    requires
        k > 1,
        all_prime(ps),
        divides(k, product(ps)),
    ensures
        0 <= i < ps.len(),
        divides(ps[i], k),
    decreases ps.len(),
{
    if ps.len() == 0 {
        lemma_divisor_bound(k, 1);
        0
    } else {
        let p = ps.last();
        let n = ps.len() - 1;
        assert(is_prime(ps[n]));
        let (u, v, d) = lemma_bezout(k, p);
        assert(d == 1 || d == p);
        if d == 1 {
            lemma_coprime_divides(k, p, product(ps.drop_last()), u, v);
            assert forall|i: int| 0 <= i < ps.drop_last().len() implies is_prime(
                #[trigger] ps.drop_last()[i],
            ) by {
                assert(is_prime(ps[i]));
            }
            let i = lemma_prime_divisor(k, ps.drop_last());
            assert(ps.drop_last()[i] == ps[i]);
            i
        } else {
            n
        }
    }
}

// ---------------------------------------------------------------
// Periods
// ---------------------------------------------------------------

pub open spec fn total(a: nat, b: nat) -> nat {
    a + b
}

pub open spec fn excess(a: nat, b: nat) -> nat {
    (a - b) as nat
}

/// The exponents that give one: closed under sums and differences.
#[verifier::opaque]
pub open spec fn is_periods(f: spec_fn(nat) -> bool) -> bool {
    &&& f(0)
    &&& forall|a: nat, b: nat| f(a) && f(b) ==> f(#[trigger] total(a, b))
    &&& forall|a: nat, b: nat| f(a) && f(b) && a >= b ==> f(#[trigger] excess(a, b))
}

proof fn lemma_period_sum(f: spec_fn(nat) -> bool, a: nat, b: nat)
    requires
        is_periods(f),
        f(a),
        f(b),
    ensures
        f(a + b),
        a >= b ==> f((a - b) as nat),
        f(0),
{
    reveal(is_periods);
    assert(total(a, b) == a + b);
    assert(excess(a, b) == (a - b) as nat);
}

proof fn lemma_multiple_period(f: spec_fn(nat) -> bool, a: nat, k: nat)
    requires
        is_periods(f),
        f(a),
    ensures
        f(k * a),
    decreases k,
{
    lemma_period_sum(f, a, a);
    if k == 0 {
        assert(0 * a == 0) by (nonlinear_arith);
    } else {
        let c = (k - 1) as nat;
        lemma_multiple_period(f, a, c);
        lemma_period_sum(f, c * a, a);
        assert(c * a + a == k * a) by (nonlinear_arith)
            requires
                c == k - 1,
        ;
    }
}

/// Two periods have a common divisor that is a period.
proof fn lemma_common_period(f: spec_fn(nat) -> bool, a: nat, b: nat) -> (e: nat)
    requires
        is_periods(f),
        f(a),
        f(b),
        a > 0,
    ensures
        f(e),
        e > 0,
        divides(e, a),
        divides(e, b),
    decreases b,
{
    if b == 0 {
        assert(a == 1 * a) by (nonlinear_arith);
        assert(0nat == 0 * a) by (nonlinear_arith);
        lemma_divides(a, a, 1);
        lemma_divides(a, 0, 0);
        a
    } else {
        let (q, m) = (a / b, a % b);
        lemma_fundamental_div_mod(a as int, b as int);
        lemma_multiple_period(f, b, q);
        lemma_mul_is_commutative(q as int, b as int);
        lemma_period_sum(f, a, q * b);
        assert(m == (a - q * b) as nat);
        let e = lemma_common_period(f, b, m);
        lemma_divides_product(e, b, q);
        lemma_divides_sum(e, b * q, m);
        e
    }
}

/// Where a product of primes is a period, and none of its quotients by one of
/// them, no smaller number is.
pub proof fn lemma_least_period(f: spec_fn(nat) -> bool, ps: Seq<nat>, d: nat)
    requires
        is_periods(f),
        all_prime(ps),
        f(product(ps)),
        forall|i: int| 0 <= i < ps.len() ==> !f(product(ps) / #[trigger] ps[i]),
        0 < d < product(ps),
    ensures
        !f(d),
{
    if f(d) {
        let n = product(ps);
        let e = lemma_common_period(f, n, d);
        lemma_divisor_bound(e, d);
        let k = choose|q: nat| n == #[trigger] (q * e);
        assert(k > 1) by (nonlinear_arith)
            requires
                n == k * e,
                0 < e < n,
                k >= 0,
        ;
        lemma_mul_is_commutative(k as int, e as int);
        lemma_divides(k, n, e);
        let i = lemma_prime_divisor(k, ps);
        let p = ps[i];
        assert(is_prime(p));
        let h = choose|q: nat| k == #[trigger] (q * p);
        // n = (h p) e, so that n / p = h e
        assert(n == (h * e) * p) by (nonlinear_arith)
            requires
                n == k * e,
                k == h * p,
        ;
        lemma_div_multiples_vanish((h * e) as int, p as int);
        lemma_mul_is_commutative((h * e) as int, p as int);
        assert(n / p == h * e);
        lemma_multiple_period(f, e, h);
        assert(!f(n / ps[i]));
    }
}

} // verus!
