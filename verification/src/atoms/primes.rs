//! The primes that divide the order of GF(2^128)*.
//!
//! Small ones are tried against every candidate below their root. A larger
//! one comes with an element whose powers repeat only after more steps than
//! its root counts: modulo a smaller divisor they would repeat sooner.

use vstd::arithmetic::div_mod::*;
use vstd::arithmetic::mul::*;
use vstd::arithmetic::power::*;
use vstd::prelude::*;
use vstd::relations::*;
use vstd::set_lib::*;

use super::order;
use super::order::{all_prime, divides, is_prime, product};

verus! {

// ---------------------------------------------------------------
// Trial division
// ---------------------------------------------------------------

/// No number from two to `b` divides `n`.
spec fn undivided(n: nat, b: nat) -> bool
    decreases b,
{
    b < 2 || (n % b != 0 && undivided(n, (b - 1) as nat))
}

proof fn lemma_undivided(n: nat, b: nat, c: nat)
    requires
        undivided(n, b),
        2 <= c <= b,
    ensures
        n % c != 0,
    decreases b,
{
    if c < b {
        lemma_undivided(n, (b - 1) as nat, c);
    }
}

/// A divisor but one and the number has a companion, and one of the two is at
/// most the root.
proof fn lemma_small_divisor(n: nat, d: nat) -> (c: nat)
    requires
        divides(d, n),
        d != 1,
        d != n,
        n > 1,
    ensures
        divides(c, n),
        c > 1,
        c * c <= n,
{
    let q = choose|q: nat| n == #[trigger] (q * d);
    order::lemma_divisor_bound(d, n);
    assert(q > 1) by (nonlinear_arith)
        requires
            n == q * d,
            d < n,
            q >= 0,
            d > 0,
    ;
    if d <= q {
        assert(d * d <= n) by (nonlinear_arith)
            requires
                n == q * d,
                d <= q,
                d > 0,
        ;
        d
    } else {
        assert(q * q <= n) by (nonlinear_arith)
            requires
                n == q * d,
                q <= d,
                q > 0,
        ;
        lemma_mul_is_commutative(q as int, d as int);
        order::lemma_divides(q, n, d);
        q
    }
}

/// A number that nothing up to its root divides is prime.
proof fn lemma_trial(n: nat, b: nat)
    requires
        n > 1,
        undivided(n, b),
        n < (b + 1) * (b + 1),
    ensures
        is_prime(n),
{
    assert forall|d: nat| #[trigger] divides(d, n) implies d == 1 || d == n by {
        if d != 1 && d != n {
            let c = lemma_small_divisor(n, d);
            assert(c <= b) by (nonlinear_arith)
                requires
                    c * c <= n,
                    n < (b + 1) * (b + 1),
                    c >= 0,
                    b >= 0,
            ;
            lemma_undivided(n, b, c);
            order::lemma_exact(c, n);
        }
    }
}

// ---------------------------------------------------------------
// Certificates
// ---------------------------------------------------------------

/// `u a + v n`.
spec fn combination(u: int, a: int, v: int, n: int) -> int {
    u * a + v * n
}

/// `a` and `n` have no common divisor.
spec fn coprime(a: int, n: int) -> bool {
    exists|u: int, v: int| #[trigger] combination(u, a, v, n) == 1
}

/// The exponents whose power is one modulo `c`.
spec fn periods(x: int, c: int) -> spec_fn(nat) -> bool {
    |e: nat| pow(x, e) % c == 1
}

/// Modulo `c`, a power whose exponent is a period can be left out.
proof fn lemma_cancels(x: int, c: int, a: nat, b: nat)
    requires
        c > 1,
        pow(x, b) % c == 1,
    ensures
        pow(x, a + b) % c == pow(x, a) % c,
{
    lemma_pow_adds(x, a, b);
    lemma_mul_mod_noop_right(pow(x, a), pow(x, b), c);
    lemma_mul_basics(pow(x, a));
}

proof fn lemma_periods(x: int, c: int)
    requires
        c > 1,
    ensures
        order::is_periods(periods(x, c)),
{
    let f = periods(x, c);
    reveal(order::is_periods);
    lemma_pow0(x);
    lemma_small_mod(1, c as nat);
    assert forall|a: nat, b: nat| f(a) && f(b) implies f(#[trigger] order::total(a, b)) by {
        lemma_cancels(x, c, a, b);
    }
    assert forall|a: nat, b: nat| f(a) && f(b) && a >= b implies f(
        #[trigger] order::excess(a, b),
    ) by {
        lemma_cancels(x, c, (a - b) as nat, b);
    }
}

/// Two equal powers below a period differ by a period.
proof fn lemma_difference(x: int, c: int, n: nat, i: nat, j: nat)
    requires
        c > 1,
        i <= j < n,
        pow(x, n) % c == 1,
        pow(x, i) % c == pow(x, j) % c,
    ensures
        pow(x, (j - i) as nat) % c == 1,
{
    let k = (n - i) as nat;
    lemma_pow_adds(x, i, k);
    lemma_pow_adds(x, j, k);
    lemma_mul_mod_noop_left(pow(x, i), pow(x, k), c);
    lemma_mul_mod_noop_left(pow(x, j), pow(x, k), c);
    assert(pow(x, j + k) % c == 1);
    assert(j + k == (j - i) as nat + n);
    lemma_cancels(x, c, (j - i) as nat, n);
}

/// Among more powers than there are residues two are equal.
proof fn lemma_pigeonhole(x: int, c: int, n: nat)
    requires
        0 < c < n,
    ensures
        exists|i: nat, j: nat|
            #![trigger pow(x, i), pow(x, j)]
            i < j < n && pow(x, i) % c == pow(x, j) % c,
{
    let f = |i: int| pow(x, i as nat) % c;
    let s = set_int_range(0, n as int);
    let all = set_int_range(0, c);
    lemma_int_range(0, n as int);
    lemma_int_range(0, c);
    assert(s.map(f).subset_of(all)) by {
        assert forall|r: int| s.map(f).contains(r) implies all.contains(r) by {
            let i = choose|i: int| s.contains(i) && r == f(i);
            lemma_mod_bound(pow(x, i as nat), c);
        }
    }
    lemma_len_subset(s.map(f), all);
    if injective_on(f, s) {
        lemma_map_size(s, s.map(f), f);
    }
    let (a, b) = choose|a: int, b: int|
        s.contains(a) && s.contains(b) && #[trigger] f(a) == #[trigger] f(b) && a != b;
    assert(f(a) == f(b));
    let (i, j) = if a < b {
        (a as nat, b as nat)
    } else {
        (b as nat, a as nat)
    };
    assert(pow(x, i) % c == pow(x, j) % c);
}

/// A residue modulo `n` taken modulo a divisor.
proof fn lemma_coarser(y: int, n: nat, c: nat)
    requires
        divides(c, n),
        c > 0,
        n > 0,
    ensures
        (y % n as int) % c as int == y % c as int,
{
    let q = choose|q: nat| n == #[trigger] (q * c);
    assert(q > 0) by (nonlinear_arith)
        requires
            n == q * c,
            n > 0,
            q >= 0,
    ;
    lemma_mul_is_commutative(q as int, c as int);
    lemma_mod_mod(y, c as int, q as int);
}

/// A number is prime where an element has a period, a product of primes larger
/// than the root, that is least modulo every divisor.
proof fn lemma_certified(n: nat, x: int, ps: Seq<nat>)
    requires
        n > 1,
        all_prime(ps),
        n < product(ps) * product(ps),
        pow(x, product(ps)) % n as int == 1,
        forall|i: int|
            0 <= i < ps.len() ==> coprime(
                pow(x, product(ps) / #[trigger] ps[i]) % n as int - 1,
                n as int,
            ),
    ensures
        is_prime(n),
{
    let top = product(ps);
    assert forall|d: nat| #[trigger] divides(d, n) implies d == 1 || d == n by {
        if d != 1 && d != n {
            let c = lemma_small_divisor(n, d);
            assert(c < top) by (nonlinear_arith)
                requires
                    c * c <= n,
                    n < top * top,
                    c >= 0,
                    top >= 0,
            ;
            let f = periods(x, c as int);
            lemma_periods(x, c as int);
            lemma_coarser(pow(x, top), n, c);
            lemma_small_mod(1, c);
            assert(f(top));
            assert forall|i: int| 0 <= i < ps.len() implies !f(top / #[trigger] ps[i]) by {
                lemma_not_one(n, c, pow(x, top / ps[i]));
            }
            lemma_pigeonhole(x, c as int, top);
            let (i, j) = choose|i: nat, j: nat|
                #![trigger pow(x, i), pow(x, j)]
                i < j < top && pow(x, i) % c as int == pow(x, j) % c as int;
            lemma_difference(x, c as int, top, i, j);
            order::lemma_least_period(f, ps, (j - i) as nat);
            assert(f((j - i) as nat));
        }
    }
}

/// What is prime to `n` after subtracting one is not one modulo a divisor.
proof fn lemma_not_one(n: nat, c: nat, y: int)
    requires
        n > 1,
        divides(c, n),
        c > 1,
        coprime(y % n as int - 1, n as int),
    ensures
        y % c as int != 1,
{
    if y % c as int == 1 {
        let r = y % n as int;
        let (u, v) = choose|u: int, v: int| #[trigger] combination(u, r - 1, v, n as int) == 1;
        let q = choose|q: nat| n == #[trigger] (q * c);
        lemma_coarser(y, n, c);
        lemma_fundamental_div_mod(r, c as int);
        let h = r / c as int;
        let w = u * h + v * q;
        assert(1 == w * c) by (nonlinear_arith)
            requires
                u * (r - 1) + v * n == 1,
                n == q * c,
                r == c * h + 1,
                w == u * h + v * q,
        ;
        assert(false) by (nonlinear_arith)
            requires
                1 == w * c,
                c > 1,
        ;
    }
}

/// A power's residue squared.
proof fn lemma_square(x: int, n: int, e: nat, r: int, s: int)
    requires
        n > 0,
        pow(x, e) % n == r,
        (r * r) % n == s,
    ensures
        pow(x, 2 * e) % n == s,
{
    lemma_pow_adds(x, e, e);
    lemma_mul_mod_noop(pow(x, e), pow(x, e), n);
    assert(e + e == 2 * e);
}

/// A power's residue times the base.
proof fn lemma_next(x: int, n: int, e: nat, r: int, s: int)
    requires
        n > 0,
        pow(x, e) % n == r,
        (r * x) % n == s,
    ensures
        pow(x, e + 1) % n == s,
{
    lemma_pow_adds(x, e, 1);
    lemma_pow1(x);
    lemma_mul_mod_noop_left(pow(x, e), x, n);
}

/// One more prime in a list.
proof fn lemma_more(ps: Seq<nat>, p: nat)
    requires
        all_prime(ps),
        is_prime(p),
    ensures
        all_prime(ps.push(p)),
        product(ps.push(p)) == product(ps) * p,
{
    let qs = ps.push(p);
    assert(qs.drop_last() =~= ps);
    assert forall|i: int| 0 <= i < qs.len() implies is_prime(#[trigger] qs[i]) by {
        if i < ps.len() {
            assert(is_prime(ps[i]));
        }
    }
}

// ---------------------------------------------------------------
// The primes
// ---------------------------------------------------------------

proof fn lemma_2()
    ensures
        is_prime(2),
{
    assert(undivided(2, 1));
    assert((1 + 1) * (1 + 1) == 4) by (nonlinear_arith);
    lemma_trial(2, 1);
}

proof fn lemma_3()
    ensures
        is_prime(3),
{
    assert(undivided(3, 1));
    assert((1 + 1) * (1 + 1) == 4) by (nonlinear_arith);
    lemma_trial(3, 1);
}

proof fn lemma_5()
    ensures
        is_prime(5),
{
    assert(undivided(5, 1));
    assert(undivided(5, 2));
    assert((2 + 1) * (2 + 1) == 9) by (nonlinear_arith);
    lemma_trial(5, 2);
}

proof fn lemma_17()
    ensures
        is_prime(17),
{
    assert(undivided(17, 1));
    assert(undivided(17, 2));
    assert(undivided(17, 3));
    assert(undivided(17, 4));
    assert((4 + 1) * (4 + 1) == 25) by (nonlinear_arith);
    lemma_trial(17, 4);
}

proof fn lemma_47()
    ensures
        is_prime(47),
{
    assert(undivided(47, 1));
    assert(undivided(47, 2));
    assert(undivided(47, 3));
    assert(undivided(47, 4));
    assert(undivided(47, 5));
    assert(undivided(47, 6));
    assert((6 + 1) * (6 + 1) == 49) by (nonlinear_arith);
    lemma_trial(47, 6);
}

proof fn lemma_257()
    ensures
        is_prime(257),
{
    assert(undivided(257, 1));
    assert(undivided(257, 2));
    assert(undivided(257, 3));
    assert(undivided(257, 4));
    assert(undivided(257, 5));
    assert(undivided(257, 6));
    assert(undivided(257, 7));
    assert(undivided(257, 8));
    assert(undivided(257, 9));
    assert(undivided(257, 10));
    assert(undivided(257, 11));
    assert(undivided(257, 12));
    assert(undivided(257, 13));
    assert(undivided(257, 14));
    assert(undivided(257, 15));
    assert(undivided(257, 16));
    assert((16 + 1) * (16 + 1) == 289) by (nonlinear_arith);
    lemma_trial(257, 16);
}

proof fn lemma_373()
    ensures
        is_prime(373),
{
    assert(undivided(373, 1));
    assert(undivided(373, 2));
    assert(undivided(373, 3));
    assert(undivided(373, 4));
    assert(undivided(373, 5));
    assert(undivided(373, 6));
    assert(undivided(373, 7));
    assert(undivided(373, 8));
    assert(undivided(373, 9));
    assert(undivided(373, 10));
    assert(undivided(373, 11));
    assert(undivided(373, 12));
    assert(undivided(373, 13));
    assert(undivided(373, 14));
    assert(undivided(373, 15));
    assert(undivided(373, 16));
    assert(undivided(373, 17));
    assert(undivided(373, 18));
    assert(undivided(373, 19));
    assert((19 + 1) * (19 + 1) == 400) by (nonlinear_arith);
    lemma_trial(373, 19);
}

proof fn lemma_641()
    ensures
        is_prime(641),
{
    assert(undivided(641, 1));
    assert(undivided(641, 2));
    assert(undivided(641, 3));
    assert(undivided(641, 4));
    assert(undivided(641, 5));
    assert(undivided(641, 6));
    assert(undivided(641, 7));
    assert(undivided(641, 8));
    assert(undivided(641, 9));
    assert(undivided(641, 10));
    assert(undivided(641, 11));
    assert(undivided(641, 12));
    assert(undivided(641, 13));
    assert(undivided(641, 14));
    assert(undivided(641, 15));
    assert(undivided(641, 16));
    assert(undivided(641, 17));
    assert(undivided(641, 18));
    assert(undivided(641, 19));
    assert(undivided(641, 20));
    assert(undivided(641, 21));
    assert(undivided(641, 22));
    assert(undivided(641, 23));
    assert(undivided(641, 24));
    assert(undivided(641, 25));
    assert((25 + 1) * (25 + 1) == 676) by (nonlinear_arith);
    lemma_trial(641, 25);
}

proof fn lemma_17449()
    ensures
        is_prime(17449),
{
    assert(undivided(17449, 1));
    assert(undivided(17449, 2));
    assert(undivided(17449, 3));
    assert(undivided(17449, 4));
    assert(undivided(17449, 5));
    assert(undivided(17449, 6));
    assert(undivided(17449, 7));
    assert(undivided(17449, 8));
    assert(undivided(17449, 9));
    assert(undivided(17449, 10));
    assert(undivided(17449, 11));
    assert(undivided(17449, 12));
    assert(undivided(17449, 13));
    assert(undivided(17449, 14));
    assert(undivided(17449, 15));
    assert(undivided(17449, 16));
    assert(undivided(17449, 17));
    assert(undivided(17449, 18));
    assert(undivided(17449, 19));
    assert(undivided(17449, 20));
    assert(undivided(17449, 21));
    assert(undivided(17449, 22));
    assert(undivided(17449, 23));
    assert(undivided(17449, 24));
    assert(undivided(17449, 25));
    assert(undivided(17449, 26));
    assert(undivided(17449, 27));
    assert(undivided(17449, 28));
    assert(undivided(17449, 29));
    assert(undivided(17449, 30));
    assert(undivided(17449, 31));
    assert(undivided(17449, 32));
    assert(undivided(17449, 33));
    assert(undivided(17449, 34));
    assert(undivided(17449, 35));
    assert(undivided(17449, 36));
    assert(undivided(17449, 37));
    assert(undivided(17449, 38));
    assert(undivided(17449, 39));
    assert(undivided(17449, 40));
    assert(undivided(17449, 41));
    assert(undivided(17449, 42));
    assert(undivided(17449, 43));
    assert(undivided(17449, 44));
    assert(undivided(17449, 45));
    assert(undivided(17449, 46));
    assert(undivided(17449, 47));
    assert(undivided(17449, 48));
    assert(undivided(17449, 49));
    assert(undivided(17449, 50));
    assert(undivided(17449, 51));
    assert(undivided(17449, 52));
    assert(undivided(17449, 53));
    assert(undivided(17449, 54));
    assert(undivided(17449, 55));
    assert(undivided(17449, 56));
    assert(undivided(17449, 57));
    assert(undivided(17449, 58));
    assert(undivided(17449, 59));
    assert(undivided(17449, 60));
    assert(undivided(17449, 61));
    assert(undivided(17449, 62));
    assert(undivided(17449, 63));
    assert(undivided(17449, 64));
    assert(undivided(17449, 65));
    assert(undivided(17449, 66));
    assert(undivided(17449, 67));
    assert(undivided(17449, 68));
    assert(undivided(17449, 69));
    assert(undivided(17449, 70));
    assert(undivided(17449, 71));
    assert(undivided(17449, 72));
    assert(undivided(17449, 73));
    assert(undivided(17449, 74));
    assert(undivided(17449, 75));
    assert(undivided(17449, 76));
    assert(undivided(17449, 77));
    assert(undivided(17449, 78));
    assert(undivided(17449, 79));
    assert(undivided(17449, 80));
    assert(undivided(17449, 81));
    assert(undivided(17449, 82));
    assert(undivided(17449, 83));
    assert(undivided(17449, 84));
    assert(undivided(17449, 85));
    assert(undivided(17449, 86));
    assert(undivided(17449, 87));
    assert(undivided(17449, 88));
    assert(undivided(17449, 89));
    assert(undivided(17449, 90));
    assert(undivided(17449, 91));
    assert(undivided(17449, 92));
    assert(undivided(17449, 93));
    assert(undivided(17449, 94));
    assert(undivided(17449, 95));
    assert(undivided(17449, 96));
    assert(undivided(17449, 97));
    assert(undivided(17449, 98));
    assert(undivided(17449, 99));
    assert(undivided(17449, 100));
    assert(undivided(17449, 101));
    assert(undivided(17449, 102));
    assert(undivided(17449, 103));
    assert(undivided(17449, 104));
    assert(undivided(17449, 105));
    assert(undivided(17449, 106));
    assert(undivided(17449, 107));
    assert(undivided(17449, 108));
    assert(undivided(17449, 109));
    assert(undivided(17449, 110));
    assert(undivided(17449, 111));
    assert(undivided(17449, 112));
    assert(undivided(17449, 113));
    assert(undivided(17449, 114));
    assert(undivided(17449, 115));
    assert(undivided(17449, 116));
    assert(undivided(17449, 117));
    assert(undivided(17449, 118));
    assert(undivided(17449, 119));
    assert(undivided(17449, 120));
    assert(undivided(17449, 121));
    assert(undivided(17449, 122));
    assert(undivided(17449, 123));
    assert(undivided(17449, 124));
    assert(undivided(17449, 125));
    assert(undivided(17449, 126));
    assert(undivided(17449, 127));
    assert(undivided(17449, 128));
    assert(undivided(17449, 129));
    assert(undivided(17449, 130));
    assert(undivided(17449, 131));
    assert(undivided(17449, 132));
    assert((132 + 1) * (132 + 1) == 17689) by (nonlinear_arith);
    lemma_trial(17449, 132);
}

proof fn lemma_65537_powers()
    ensures
        pow(15028, 256) % 65537 == 65536,
        pow(15028, 512) % 65537 == 1,
{
    lemma_pow1(15028);
    lemma_square(15028, 65537, 1, 15028, 282);
    lemma_square(15028, 65537, 2, 282, 13987);
    lemma_square(15028, 65537, 4, 13987, 8224);
    lemma_square(15028, 65537, 8, 8224, 65529);
    lemma_square(15028, 65537, 16, 65529, 64);
    lemma_square(15028, 65537, 32, 64, 4096);
    lemma_square(15028, 65537, 64, 4096, 65281);
    lemma_square(15028, 65537, 128, 65281, 65536);
    lemma_square(15028, 65537, 256, 65536, 1);
}

proof fn lemma_65537()
    ensures
        is_prime(65537),
{
    lemma_2();
    lemma_65537_powers();
    let p0 = Seq::<nat>::empty();
    assert(product(p0) == 1);
    let p1 = p0.push(2);
    lemma_more(p0, 2);
    assert(product(p1) == 2);
    let p2 = p1.push(2);
    lemma_more(p1, 2);
    assert(product(p2) == 4);
    let p3 = p2.push(2);
    lemma_more(p2, 2);
    assert(product(p3) == 8);
    let p4 = p3.push(2);
    lemma_more(p3, 2);
    assert(product(p4) == 16);
    let p5 = p4.push(2);
    lemma_more(p4, 2);
    assert(product(p5) == 32);
    let p6 = p5.push(2);
    lemma_more(p5, 2);
    assert(product(p6) == 64);
    let p7 = p6.push(2);
    lemma_more(p6, 2);
    assert(product(p7) == 128);
    let p8 = p7.push(2);
    lemma_more(p7, 2);
    assert(product(p8) == 256);
    let p9 = p8.push(2);
    lemma_more(p8, 2);
    assert(product(p9) == 512);
    assert(coprime(65536 - 1, 65537)) by {
        assert(combination(32768, 65536 - 1, -32767, 65537) == 1);
    }
    assert forall|i: int| 0 <= i < p9.len() implies coprime(
        pow(15028, product(p9) / #[trigger] p9[i]) % 65537 - 1,
        65537,
    ) by {
        assert(512nat / 2 == 256);
        assert(p9[i] == 2);
    }
    lemma_certified(65537, 15028, p9);
}

proof fn lemma_274177_powers_0()
    ensures
        pow(169832, 384) % 274177 == 274176,
        pow(169832, 768) % 274177 == 1,
{
    lemma_pow1(169832);
    lemma_square(169832, 274177, 1, 169832, 36178);
    lemma_next(169832, 274177, 2, 36178, 149703);
    lemma_square(169832, 274177, 3, 149703, 34406);
    lemma_square(169832, 274177, 6, 34406, 150727);
    lemma_square(169832, 274177, 12, 150727, 48132);
    lemma_square(169832, 274177, 24, 48132, 167951);
    lemma_square(169832, 274177, 48, 167951, 208641);
    lemma_square(169832, 274177, 96, 208641, 258768);
    lemma_square(169832, 274177, 192, 258768, 274176);
    lemma_square(169832, 274177, 384, 274176, 1);
}

proof fn lemma_274177_powers_1()
    ensures
        pow(169832, 256) % 274177 == 135453,
{
    lemma_pow1(169832);
    lemma_square(169832, 274177, 1, 169832, 36178);
    lemma_square(169832, 274177, 2, 36178, 200863);
    lemma_square(169832, 274177, 4, 200863, 250865);
    lemma_square(169832, 274177, 8, 250865, 30530);
    lemma_square(169832, 274177, 16, 30530, 153277);
    lemma_square(169832, 274177, 32, 153277, 159953);
    lemma_square(169832, 274177, 64, 159953, 135454);
    lemma_square(169832, 274177, 128, 135454, 135453);
}

proof fn lemma_274177()
    ensures
        is_prime(274177),
{
    lemma_2();
    lemma_3();
    lemma_274177_powers_0();
    lemma_274177_powers_1();
    let p0 = Seq::<nat>::empty();
    assert(product(p0) == 1);
    let p1 = p0.push(2);
    lemma_more(p0, 2);
    assert(product(p1) == 2);
    let p2 = p1.push(2);
    lemma_more(p1, 2);
    assert(product(p2) == 4);
    let p3 = p2.push(2);
    lemma_more(p2, 2);
    assert(product(p3) == 8);
    let p4 = p3.push(2);
    lemma_more(p3, 2);
    assert(product(p4) == 16);
    let p5 = p4.push(2);
    lemma_more(p4, 2);
    assert(product(p5) == 32);
    let p6 = p5.push(2);
    lemma_more(p5, 2);
    assert(product(p6) == 64);
    let p7 = p6.push(2);
    lemma_more(p6, 2);
    assert(product(p7) == 128);
    let p8 = p7.push(2);
    lemma_more(p7, 2);
    assert(product(p8) == 256);
    let p9 = p8.push(3);
    lemma_more(p8, 3);
    assert(product(p9) == 768);
    assert(coprime(274176 - 1, 274177)) by {
        assert(combination(137088, 274176 - 1, -137087, 274177) == 1);
    }
    assert(coprime(135453 - 1, 274177)) by {
        assert(combination(-136544, 135453 - 1, 67457, 274177) == 1);
    }
    assert forall|i: int| 0 <= i < p9.len() implies coprime(
        pow(169832, product(p9) / #[trigger] p9[i]) % 274177 - 1,
        274177,
    ) by {
        assert(768nat / 2 == 384);
        assert(768nat / 3 == 256);
        assert(p9[i] == 2 || p9[i] == 3);
    }
    lemma_certified(274177, 169832, p9);
}

proof fn lemma_6700417_powers()
    ensures
        pow(5846540, 1) % 6700417 == 5846540,
        pow(5846540, 17449) % 6700417 == 1,
{
    lemma_pow1(5846540);
    lemma_square(5846540, 6700417, 1, 5846540, 55274);
    lemma_square(5846540, 6700417, 2, 55274, 6525341);
    lemma_square(5846540, 6700417, 4, 6525341, 3898418);
    lemma_square(5846540, 6700417, 8, 3898418, 4877502);
    lemma_next(5846540, 6700417, 16, 4877502, 4820270);
    lemma_square(5846540, 6700417, 17, 4820270, 344085);
    lemma_square(5846540, 6700417, 34, 344085, 4819252);
    lemma_square(5846540, 6700417, 68, 4819252, 3421594);
    lemma_square(5846540, 6700417, 136, 3421594, 1897586);
    lemma_square(5846540, 6700417, 272, 1897586, 1729928);
    lemma_next(5846540, 6700417, 544, 1729928, 1399296);
    lemma_square(5846540, 6700417, 545, 1399296, 6638208);
    lemma_square(5846540, 6700417, 1090, 6638208, 3819072);
    lemma_next(5846540, 6700417, 2180, 3819072, 1507169);
    lemma_square(5846540, 6700417, 2181, 1507169, 3124472);
    lemma_square(5846540, 6700417, 4362, 3124472, 5321460);
    lemma_square(5846540, 6700417, 8724, 5321460, 4367002);
    lemma_next(5846540, 6700417, 17448, 4367002, 1);
}

proof fn lemma_6700417()
    ensures
        is_prime(6700417),
{
    lemma_17449();
    lemma_6700417_powers();
    let p0 = Seq::<nat>::empty();
    assert(product(p0) == 1);
    let p1 = p0.push(17449);
    lemma_more(p0, 17449);
    assert(product(p1) == 17449);
    assert(coprime(5846540 - 1, 6700417)) by {
        assert(combination(-2201323, 5846540 - 1, 1920794, 6700417) == 1);
    }
    assert forall|i: int| 0 <= i < p1.len() implies coprime(
        pow(5846540, product(p1) / #[trigger] p1[i]) % 6700417 - 1,
        6700417,
    ) by {
        assert(17449nat / 17449 == 1);
        assert(p1[i] == 17449);
    }
    lemma_certified(6700417, 5846540, p1);
}

proof fn lemma_67280421310721_powers_0()
    ensures
        pow(48179324873033, 11219840) % 67280421310721 == 67280421310720,
        pow(48179324873033, 22439680) % 67280421310721 == 1,
{
    lemma_pow1(48179324873033);
    lemma_square(48179324873033, 67280421310721, 1, 48179324873033, 47991065148829);
    lemma_square(48179324873033, 67280421310721, 2, 47991065148829, 18589643858014);
    lemma_next(48179324873033, 67280421310721, 4, 18589643858014, 49754865680972);
    lemma_square(48179324873033, 67280421310721, 5, 49754865680972, 21013845018824);
    lemma_square(48179324873033, 67280421310721, 10, 21013845018824, 41976817733404);
    lemma_next(48179324873033, 67280421310721, 20, 41976817733404, 47069797168512);
    lemma_square(48179324873033, 67280421310721, 21, 47069797168512, 63723336420757);
    lemma_square(48179324873033, 67280421310721, 42, 63723336420757, 53090451963553);
    lemma_next(48179324873033, 67280421310721, 84, 53090451963553, 16899884049776);
    lemma_square(48179324873033, 67280421310721, 85, 16899884049776, 66754101634288);
    lemma_next(48179324873033, 67280421310721, 170, 66754101634288, 4862384322020);
    lemma_square(48179324873033, 67280421310721, 171, 4862384322020, 40405971753122);
    lemma_square(48179324873033, 67280421310721, 342, 40405971753122, 36420765348069);
    lemma_square(48179324873033, 67280421310721, 684, 36420765348069, 12078912786342);
    lemma_next(48179324873033, 67280421310721, 1368, 12078912786342, 47198863810283);
    lemma_square(48179324873033, 67280421310721, 1369, 47198863810283, 192619909676);
    lemma_next(48179324873033, 67280421310721, 2738, 192619909676, 30444730018180);
    lemma_square(48179324873033, 67280421310721, 2739, 30444730018180, 30603676144319);
    lemma_square(48179324873033, 67280421310721, 5478, 30603676144319, 46149449899814);
    lemma_square(48179324873033, 67280421310721, 10956, 46149449899814, 45505479427057);
    lemma_next(48179324873033, 67280421310721, 21912, 45505479427057, 59650621689143);
    lemma_square(48179324873033, 67280421310721, 21913, 59650621689143, 10297330147);
    lemma_next(48179324873033, 67280421310721, 43826, 10297330147, 15948806358421);
    lemma_square(48179324873033, 67280421310721, 43827, 15948806358421, 63892488952538);
    lemma_next(48179324873033, 67280421310721, 87654, 63892488952538, 8377198798470);
    lemma_square(48179324873033, 67280421310721, 87655, 8377198798470, 67280421308673);
    lemma_square(48179324873033, 67280421310721, 175310, 67280421308673, 4194304);
    lemma_square(48179324873033, 67280421310721, 350620, 4194304, 17592186044416);
    lemma_square(48179324873033, 67280421310721, 701240, 17592186044416, 67280404533505);
    lemma_square(48179324873033, 67280421310721, 1402480, 67280404533505, 12353291467772);
    lemma_square(48179324873033, 67280421310721, 2804960, 12353291467772, 67276126343425);
    lemma_square(48179324873033, 67280421310721, 5609920, 67276126343425, 67280421310720);
    lemma_square(48179324873033, 67280421310721, 11219840, 67280421310720, 1);
}

proof fn lemma_67280421310721_powers_1()
    ensures
        pow(48179324873033, 4487936) % 67280421310721 == 8348471219631,
{
    lemma_pow1(48179324873033);
    lemma_square(48179324873033, 67280421310721, 1, 48179324873033, 47991065148829);
    lemma_square(48179324873033, 67280421310721, 2, 47991065148829, 18589643858014);
    lemma_square(48179324873033, 67280421310721, 4, 18589643858014, 61732058102971);
    lemma_square(48179324873033, 67280421310721, 8, 61732058102971, 47879371008075);
    lemma_next(48179324873033, 67280421310721, 16, 47879371008075, 24777901923821);
    lemma_square(48179324873033, 67280421310721, 17, 24777901923821, 21684421742366);
    lemma_square(48179324873033, 67280421310721, 34, 21684421742366, 17313881387233);
    lemma_square(48179324873033, 67280421310721, 68, 17313881387233, 58398392171528);
    lemma_square(48179324873033, 67280421310721, 136, 58398392171528, 61709605375033);
    lemma_next(48179324873033, 67280421310721, 272, 61709605375033, 58876163645168);
    lemma_square(48179324873033, 67280421310721, 273, 58876163645168, 7825703702306);
    lemma_next(48179324873033, 67280421310721, 546, 7825703702306, 57151731673606);
    lemma_square(48179324873033, 67280421310721, 547, 57151731673606, 50569073287584);
    lemma_next(48179324873033, 67280421310721, 1094, 50569073287584, 34214806093124);
    lemma_square(48179324873033, 67280421310721, 1095, 34214806093124, 14620716511184);
    lemma_next(48179324873033, 67280421310721, 2190, 14620716511184, 19077930507996);
    lemma_square(48179324873033, 67280421310721, 2191, 19077930507996, 55962126640549);
    lemma_square(48179324873033, 67280421310721, 4382, 55962126640549, 22305818478690);
    lemma_next(48179324873033, 67280421310721, 8764, 22305818478690, 4966051687321);
    lemma_square(48179324873033, 67280421310721, 8765, 4966051687321, 14646586673968);
    lemma_next(48179324873033, 67280421310721, 17530, 14646586673968, 26500652648647);
    lemma_square(48179324873033, 67280421310721, 17531, 26500652648647, 28948201826523);
    lemma_square(48179324873033, 67280421310721, 35062, 28948201826523, 18961425296881);
    lemma_square(48179324873033, 67280421310721, 70124, 18961425296881, 47079546518072);
    lemma_square(48179324873033, 67280421310721, 140248, 47079546518072, 21320557021047);
    lemma_square(48179324873033, 67280421310721, 280496, 21320557021047, 47853494057633);
    lemma_square(48179324873033, 67280421310721, 560992, 47853494057633, 58715141433918);
    lemma_square(48179324873033, 67280421310721, 1121984, 58715141433918, 13188109871221);
    lemma_square(48179324873033, 67280421310721, 2243968, 13188109871221, 8348471219631);
}

proof fn lemma_67280421310721_powers_2()
    ensures
        pow(48179324873033, 477440) % 67280421310721 == 29801263682154,
{
    lemma_pow1(48179324873033);
    lemma_square(48179324873033, 67280421310721, 1, 48179324873033, 47991065148829);
    lemma_next(48179324873033, 67280421310721, 2, 47991065148829, 53514858087027);
    lemma_square(48179324873033, 67280421310721, 3, 53514858087027, 58807385263535);
    lemma_next(48179324873033, 67280421310721, 6, 58807385263535, 65771899994903);
    lemma_square(48179324873033, 67280421310721, 7, 65771899994903, 56204226060038);
    lemma_square(48179324873033, 67280421310721, 14, 56204226060038, 11076673888957);
    lemma_next(48179324873033, 67280421310721, 28, 11076673888957, 37245077476402);
    lemma_square(48179324873033, 67280421310721, 29, 37245077476402, 48950683848113);
    lemma_square(48179324873033, 67280421310721, 58, 48950683848113, 30127053947092);
    lemma_square(48179324873033, 67280421310721, 116, 30127053947092, 20261105411872);
    lemma_next(48179324873033, 67280421310721, 232, 20261105411872, 29287038039518);
    lemma_square(48179324873033, 67280421310721, 233, 29287038039518, 59367398906273);
    lemma_square(48179324873033, 67280421310721, 466, 59367398906273, 8426934083515);
    lemma_square(48179324873033, 67280421310721, 932, 8426934083515, 7885642782227);
    lemma_next(48179324873033, 67280421310721, 1864, 7885642782227, 18099024273687);
    lemma_square(48179324873033, 67280421310721, 1865, 18099024273687, 61236707459041);
    lemma_square(48179324873033, 67280421310721, 3730, 61236707459041, 57868248534546);
    lemma_square(48179324873033, 67280421310721, 7460, 57868248534546, 53929794837603);
    lemma_square(48179324873033, 67280421310721, 14920, 53929794837603, 36612011087677);
    lemma_square(48179324873033, 67280421310721, 29840, 36612011087677, 51840995768978);
    lemma_square(48179324873033, 67280421310721, 59680, 51840995768978, 39372115460568);
    lemma_square(48179324873033, 67280421310721, 119360, 39372115460568, 54768530363014);
    lemma_square(48179324873033, 67280421310721, 238720, 54768530363014, 29801263682154);
}

proof fn lemma_67280421310721_powers_3()
    ensures
        pow(48179324873033, 60160) % 67280421310721 == 65541179653181,
{
    lemma_pow1(48179324873033);
    lemma_square(48179324873033, 67280421310721, 1, 48179324873033, 47991065148829);
    lemma_next(48179324873033, 67280421310721, 2, 47991065148829, 53514858087027);
    lemma_square(48179324873033, 67280421310721, 3, 53514858087027, 58807385263535);
    lemma_next(48179324873033, 67280421310721, 6, 58807385263535, 65771899994903);
    lemma_square(48179324873033, 67280421310721, 7, 65771899994903, 56204226060038);
    lemma_square(48179324873033, 67280421310721, 14, 56204226060038, 11076673888957);
    lemma_next(48179324873033, 67280421310721, 28, 11076673888957, 37245077476402);
    lemma_square(48179324873033, 67280421310721, 29, 37245077476402, 48950683848113);
    lemma_square(48179324873033, 67280421310721, 58, 48950683848113, 30127053947092);
    lemma_next(48179324873033, 67280421310721, 116, 30127053947092, 3751804086678);
    lemma_square(48179324873033, 67280421310721, 117, 3751804086678, 6939645415163);
    lemma_next(48179324873033, 67280421310721, 234, 6939645415163, 40580114808839);
    lemma_square(48179324873033, 67280421310721, 235, 40580114808839, 34610613058578);
    lemma_square(48179324873033, 67280421310721, 470, 34610613058578, 53162933814085);
    lemma_square(48179324873033, 67280421310721, 940, 53162933814085, 59790759768724);
    lemma_square(48179324873033, 67280421310721, 1880, 59790759768724, 9459786754793);
    lemma_square(48179324873033, 67280421310721, 3760, 9459786754793, 67104910686286);
    lemma_square(48179324873033, 67280421310721, 7520, 67104910686286, 24714554344600);
    lemma_square(48179324873033, 67280421310721, 15040, 24714554344600, 11643785158123);
    lemma_square(48179324873033, 67280421310721, 30080, 11643785158123, 65541179653181);
}

proof fn lemma_67280421310721()
    ensures
        is_prime(67280421310721),
{
    lemma_2();
    lemma_5();
    lemma_47();
    lemma_373();
    lemma_67280421310721_powers_0();
    lemma_67280421310721_powers_1();
    lemma_67280421310721_powers_2();
    lemma_67280421310721_powers_3();
    let p0 = Seq::<nat>::empty();
    assert(product(p0) == 1);
    let p1 = p0.push(2);
    lemma_more(p0, 2);
    assert(product(p1) == 2);
    let p2 = p1.push(2);
    lemma_more(p1, 2);
    assert(product(p2) == 4);
    let p3 = p2.push(2);
    lemma_more(p2, 2);
    assert(product(p3) == 8);
    let p4 = p3.push(2);
    lemma_more(p3, 2);
    assert(product(p4) == 16);
    let p5 = p4.push(2);
    lemma_more(p4, 2);
    assert(product(p5) == 32);
    let p6 = p5.push(2);
    lemma_more(p5, 2);
    assert(product(p6) == 64);
    let p7 = p6.push(2);
    lemma_more(p6, 2);
    assert(product(p7) == 128);
    let p8 = p7.push(2);
    lemma_more(p7, 2);
    assert(product(p8) == 256);
    let p9 = p8.push(5);
    lemma_more(p8, 5);
    assert(product(p9) == 1280);
    let p10 = p9.push(47);
    lemma_more(p9, 47);
    assert(product(p10) == 60160);
    let p11 = p10.push(373);
    lemma_more(p10, 373);
    assert(product(p11) == 22439680);
    assert(coprime(67280421310720 - 1, 67280421310721)) by {
        assert(combination(33640210655360, 67280421310720 - 1, -33640210655359, 67280421310721) == 1);
    }
    assert(coprime(8348471219631 - 1, 67280421310721)) by {
        assert(combination(17361421745283, 8348471219631 - 1, -2154286892809, 67280421310721) == 1);
    }
    assert(coprime(29801263682154 - 1, 67280421310721)) by {
        assert(combination(32342771460764, 29801263682154 - 1, -14325942699771, 67280421310721) == 1);
    }
    assert(coprime(65541179653181 - 1, 67280421310721)) by {
        assert(combination(20076373578344, 65541179653181 - 1, -19557386559839, 67280421310721) == 1);
    }
    assert forall|i: int| 0 <= i < p11.len() implies coprime(
        pow(48179324873033, product(p11) / #[trigger] p11[i]) % 67280421310721 - 1,
        67280421310721,
    ) by {
        assert(22439680nat / 2 == 11219840);
        assert(22439680nat / 5 == 4487936);
        assert(22439680nat / 47 == 477440);
        assert(22439680nat / 373 == 60160);
        assert(p11[i] == 2 || p11[i] == 5 || p11[i] == 47 || p11[i] == 373);
    }
    lemma_certified(67280421310721, 48179324873033, p11);
}

/// The prime factors of `2^128 - 1`.
pub open spec fn order_primes() -> Seq<nat> {
    seq![3, 5, 17, 257, 641, 65537, 274177, 6700417, 67280421310721]
}

/// The order of GF(2^128)* is a product of nine primes.
pub proof fn law_order_factors()
    ensures
        all_prime(order_primes()),
        product(order_primes()) == u128::MAX,
{
    let p0 = Seq::<nat>::empty();
    assert(product(p0) == 1);
    lemma_3();
    let p1 = p0.push(3);
    lemma_more(p0, 3);
    assert(product(p1) == 3);
    lemma_5();
    let p2 = p1.push(5);
    lemma_more(p1, 5);
    assert(product(p2) == 15);
    lemma_17();
    let p3 = p2.push(17);
    lemma_more(p2, 17);
    assert(product(p3) == 255);
    lemma_257();
    let p4 = p3.push(257);
    lemma_more(p3, 257);
    assert(product(p4) == 65535);
    lemma_641();
    let p5 = p4.push(641);
    lemma_more(p4, 641);
    assert(product(p5) == 42007935);
    lemma_65537();
    let p6 = p5.push(65537);
    lemma_more(p5, 65537);
    assert(product(p6) == 2753074036095);
    lemma_274177();
    let p7 = p6.push(274177);
    lemma_more(p6, 274177);
    assert(product(p7) == 754829579994418815);
    lemma_6700417();
    let p8 = p7.push(6700417);
    lemma_more(p7, 6700417);
    assert(product(p8) == 5057672949897463733145855);
    lemma_67280421310721();
    let p9 = p8.push(67280421310721);
    lemma_more(p8, 67280421310721);
    assert(product(p9) == 340282366920938463463374607431768211455);
    assert(p9 =~= order_primes());
}

} // verus!
