//! Integers as exponents.

use hekate::atoms::exp_form::{pow, ExpBasis, GROUP_BITS, GROUP_ORDER, GROUP_ORDER_PRIMES};
use hekate::field::{Block128, Block64, Flat};

#[test]
fn generator_has_full_order() {
    let basis = ExpBasis::new::<Block128>().unwrap();

    for &p in &GROUP_ORDER_PRIMES {
        assert_ne!(pow(basis.generator(), GROUP_ORDER / p), Block128(1));
    }

    assert_eq!(pow(basis.generator(), GROUP_ORDER), Block128(1));
}

#[test]
fn narrow_towers_are_rejected() {
    assert!(ExpBasis::new::<Block64>().is_err());
}

#[test]
fn squarings_are_doublings_of_the_exponent() {
    let basis = ExpBasis::new::<Block128>().unwrap();
    for i in 0..GROUP_BITS {
        assert_eq!(
            basis.pow2()[i].to_tower(),
            pow(basis.generator(), 1u128 << i)
        );
    }

    assert_eq!(basis.tower_pow2()[..], basis.pow2().map(|x| x.to_tower())[..]);
}

#[test]
fn chain_reaches_the_exponent() {
    let basis = ExpBasis::new::<Block128>().unwrap();

    let mut out = [Flat::from_raw(Block128(0)); 16];
    for x in [0u128, 1, 0xffff_ffff, 0x9e37_79b9_7f4a_7c15] {
        basis.chain2(x, &mut out);

        for (t, &value) in out.iter().enumerate() {
            let masked = x & ((1u128 << (2 * t + 2)) - 1);
            assert_eq!(
                value.to_tower(),
                pow(basis.generator(), masked),
                "x = {x:#x}, t = {t}"
            );
        }
    }
}

#[test]
fn addition_is_multiplication() {
    let basis = ExpBasis::new::<Block128>().unwrap();
    let g = basis.generator();

    let a = 0x1234_5678_9abc_def0u128;
    let b = 0x0fed_cba9_8765_4321u128;

    assert_eq!(pow(g, a).times(pow(g, b)), pow(g, a + b));
}

#[test]
fn frobenius_shifts_exponent() {
    let basis = ExpBasis::new::<Block128>().unwrap();
    let g = basis.generator();

    let x = 0xdead_beef_u128;

    let mut acc = pow(g, x);
    for j in 1..=32 {
        acc = acc.times(acc);
        assert_eq!(acc, pow(g, x << j), "j = {j}");
    }
}
