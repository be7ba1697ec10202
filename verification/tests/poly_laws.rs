//! Interpolation, the equality polynomial and multilinear extensions.

use hekate::field::{Block128, Flat};
use hekate::poly::univariate::UnivariatePoly;
use hekate::poly::variant::PolyVariant;
use hekate::tensor::TensorProduct;

fn hw(x: u128) -> Flat<Block128> {
    Block128(x).to_hardware()
}

#[test]
fn interpolation_meets_its_values() {
    let evals = vec![Block128(5), Block128(9), Block128(77), Block128(1 << 90)];
    let p = UnivariatePoly::new(evals.clone());
    for (i, e) in evals.iter().enumerate() {
        assert_eq!(p.evaluate(Block128(i as u128)), *e);
        assert_eq!(p.evaluate_hw(hw(i as u128)).to_tower(), *e);
    }
    let z = Block128(0x1234);
    assert_eq!(p.evaluate_hw(z.to_hardware()).to_tower(), p.evaluate(z));
}

#[test]
fn interpolation_of_a_line() {
    // p(0) = 3, p(1) = 8: the line 3 + 11·z over GF(2^128).
    let p = UnivariatePoly::new(vec![Block128(3), Block128(8)]);
    let z = Block128(0xabcdef);
    assert_eq!(p.evaluate(z), Block128(3).plus(Block128(11).times(z)));
}

#[test]
fn one_value_is_a_constant() {
    let p = UnivariatePoly::new(vec![Block128(42)]);
    assert_eq!(p.evaluate(Block128(1 << 100)), Block128(42));
}

#[test]
fn folding_evaluates() {
    let r = vec![hw(3), hw(1 << 70), hw(9)];
    let x = vec![hw(11), hw(12), hw(1 << 100)];
    let eq = TensorProduct::new(r.clone());
    let direct = eq.evaluate_extension(&x).unwrap();
    let folded = eq.fold(x[0]).fold(x[1]).fold(x[2]);
    assert_eq!(folded.num_vars(), 0);
    assert_eq!(folded.evaluate_extension(&[]).unwrap(), direct);
    assert_eq!(TensorProduct::evaluate_eq_slice(&r, &x), direct);
    assert_eq!(TensorProduct::evaluate_eq_slice(&x, &r), direct);
}

#[test]
fn corners_of_the_equality_polynomial() {
    let eq = TensorProduct::new(vec![hw(3), hw(5)]);
    for i in 0..4usize {
        let corner = vec![hw(i as u128 & 1), hw((i as u128 >> 1) & 1)];
        assert_eq!(eq.evaluate_at_index(i), eq.evaluate_extension(&corner).unwrap());
    }
    let total = (0..4).fold(Flat::<Block128>::zero(), |s, i| s.plus(eq.evaluate_at_index(i)));
    assert_eq!(total, Flat::<Block128>::one());
}

#[test]
fn extension_extends_and_splits() {
    let data = vec![hw(7), hw(1 << 80), hw(99), hw(4)];
    let p = PolyVariant::Dense(&data);
    for i in 0..4usize {
        let corner = vec![hw(i as u128 & 1), hw((i as u128 >> 1) & 1)];
        assert_eq!(p.evaluate(&corner).unwrap(), data[i]);
    }
    // Linear in the first coordinate.
    let (a, b) = (hw(1 << 20), hw(3));
    let at = |x: Flat<Block128>| p.evaluate(&[x, b]).unwrap();
    let one = Flat::<Block128>::one();
    let zero = Flat::<Block128>::zero();
    let line = at(zero).plus(a.times(at(zero).plus(at(one))));
    assert_eq!(at(a), line);
    let constant = vec![hw(8); 4];
    assert_eq!(PolyVariant::Dense(&constant).evaluate(&[a, b]).unwrap(), hw(8));
}
