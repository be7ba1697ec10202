//! The elements that pass the order tests generate GF(2^128)*.

use vstd::prelude::*;

use super::exp_form;
use super::int_laws;
use super::order;
use super::primes;
use crate::field::fermat;
use crate::field::gf;
use crate::field::laws::Ring;

verus! {

/// The powers of `g` below the order of the group are distinct: `g` is
/// primitive.
#[verifier::opaque]
pub open spec fn primitive(g: u128) -> bool {
    forall|a: nat, b: nat|
        #![trigger gf::gf128_pow(g, a), gf::gf128_pow(g, b)]
        a < u128::MAX && b < u128::MAX && gf::gf128_pow(g, a) == gf::gf128_pow(g, b) ==> a == b
}

/// Equal powers below the order have equal exponents.
pub proof fn lemma_same_exponent(g: u128, a: nat, b: nat)
    requires
        primitive(g),
        a < u128::MAX,
        b < u128::MAX,
        gf::gf128_pow(g, a) ^ gf::gf128_pow(g, b) == 0,
    ensures
        a == b,
{
    reveal(primitive);
    int_laws::lemma_xor(gf::gf128_pow(g, a), gf::gf128_pow(g, b));
}

/// The exponents that give one.
spec fn periods(g: u128) -> spec_fn(nat) -> bool {
    |e: nat| gf::gf128_pow(g, e) == 1
}

proof fn lemma_periods(g: u128)
    ensures
        order::is_periods(periods(g)),
{
    let f = periods(g);
    reveal(order::is_periods);
    assert forall|a: nat, b: nat| f(a) && f(b) implies f(#[trigger] order::total(a, b)) by {
        exp_form::law_powers_add(g, a, b);
        <u128 as Ring>::units(1);
    }
    assert forall|a: nat, b: nat| f(a) && f(b) && a >= b implies f(
        #[trigger] order::excess(a, b),
    ) by {
        let c = (a - b) as nat;
        exp_form::law_powers_add(g, c, b);
        <u128 as Ring>::units(gf::gf128_pow(g, c));
    }
}

/// No exponent below the order gives one but zero.
proof fn lemma_least(g: u128, d: nat)
    requires
        g != 0,
        exp_form::passes_order_tests(g),
        0 < d < u128::MAX,
    ensures
        gf::gf128_pow(g, d) != 1,
{
    let f = periods(g);
    let ps = primes::order_primes();
    lemma_periods(g);
    primes::law_order_factors();
    fermat::law_roots_of_unity(g);
    assert forall|i: int| 0 <= i < ps.len() implies !f(order::product(ps) / #[trigger] ps[i]) by {
        let p = exp_form::GROUP_ORDER_PRIMES@[i];
        assert(p as nat == ps[i]);
        assert((exp_form::GROUP_ORDER / p) as nat == order::product(ps) / ps[i]);
    }
    order::lemma_least_period(f, ps, d);
    assert(!f(d));
}

proof fn lemma_distinct(g: u128, a: nat, b: nat)
    requires
        g != 0,
        exp_form::passes_order_tests(g),
        a < b < u128::MAX,
    ensures
        gf::gf128_pow(g, a) != gf::gf128_pow(g, b),
{
    if gf::gf128_pow(g, a) == gf::gf128_pow(g, b) {
        let n = u128::MAX as nat;
        let (d, c) = ((b - a) as nat, (n - a) as nat);
        let (pa, pc, pd) = (gf::gf128_pow(g, a), gf::gf128_pow(g, c), gf::gf128_pow(g, d));
        fermat::law_roots_of_unity(g);
        exp_form::law_powers_add(g, a, c);
        exp_form::law_powers_add(g, d, a);
        // (pd pa) pc = pd (pa pc) = pd, and it is pa pc = 1
        <u128 as Ring>::associates(pd, pa, pc);
        <u128 as Ring>::units(pd);
        lemma_least(g, d);
    }
}

/// An element that passes the order tests is primitive: its powers below the
/// order of the group are distinct.
pub proof fn law_order_tests_decide(g: u128)
    requires
        g != 0,
        exp_form::passes_order_tests(g),
    ensures
        primitive(g),
{
    assert forall|a: nat, b: nat|
        #![trigger gf::gf128_pow(g, a), gf::gf128_pow(g, b)]
        a < u128::MAX && b < u128::MAX && gf::gf128_pow(g, a) == gf::gf128_pow(
            g,
            b,
        ) implies a == b by {
        if a < b {
            lemma_distinct(g, a, b);
        } else if b < a {
            lemma_distinct(g, b, a);
        }
    }
    reveal(primitive);
}

/// The generator that the search finds is primitive, and its powers close at
/// the order of the group.
pub proof fn law_search_finds_generator(g: u128)
    requires
        exp_form::is_first_passing(g),
    ensures
        primitive(g),
        gf::gf128_pow(g, u128::MAX as nat) == 1,
{
    law_order_tests_decide(g);
    fermat::law_roots_of_unity(g);
}

} // verus!
