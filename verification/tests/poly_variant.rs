//! Polynomials behind one interface.

use hekate::field::{Bit, Block128, Block8, Flat};
use hekate::poly::variant::PolyVariant;
use hekate::tensor::TensorProduct;

#[test]
fn get_at_dense_returns_correct_values() {
    let data: Vec<Flat<Block128>> = (0..4u128).map(|i| Block128(i * 10).to_hardware()).collect();
    let v = PolyVariant::Dense(&data);

    assert_eq!(v.get_at(0), Block128(0).to_hardware());
    assert_eq!(v.get_at(1), Block128(10).to_hardware());
    assert_eq!(v.get_at(2), Block128(20).to_hardware());
    assert_eq!(v.get_at(3), Block128(30).to_hardware());
}

#[test]
fn get_at_bit_slice_promotes_to_field() {
    let bits = vec![
        Bit(0),
        Bit(1),
        Bit(1),
        Bit(0),
    ];
    let v = PolyVariant::BitSlice(&bits);

    assert_eq!(v.get_at(0), Flat::from_raw(Block128(0)));
    assert_eq!(v.get_at(1), Flat::from_raw(Block128(1)));
    assert_eq!(v.get_at(2), Flat::from_raw(Block128(1)));
    assert_eq!(v.get_at(3), Flat::from_raw(Block128(0)));
}

#[test]
fn get_at_b8_slice_promotes() {
    let data = vec![
        Block8(0).to_hardware(),
        Block8(0xFF).to_hardware(),
    ];
    let v = PolyVariant::B8Slice(&data);

    assert_eq!(
        v.get_at(0),
        Block8(0).to_hardware().promote()
    );
    assert_eq!(
        v.get_at(1),
        Block8(0xFF).to_hardware().promote()
    );
}

#[test]
fn len_matches_data_size() {
    let data = vec![Flat::from_raw(Block128(0)); 16];
    assert_eq!(PolyVariant::Dense(&data).len(), 16);

    let bits = vec![Bit(0); 8];
    assert_eq!(PolyVariant::BitSlice(&bits).len(), 8);

    let eq = TensorProduct::new(vec![Flat::from_raw(Block128(1)); 5]);
    assert_eq!(PolyVariant::Eq(eq).len(), 32);

    let empty: Vec<Flat<Block128>> = vec![];
    assert!(PolyVariant::Dense(&empty).is_empty());
}

#[test]
fn evaluate_constant_polynomial() {
    let num_vars = 3;
    let data = vec![Block128(42).to_hardware(); 1 << num_vars];
    let v = PolyVariant::Dense(&data);

    let point: Vec<Flat<Block128>> = vec![
        Flat::from_raw(Block128(1).to_hardware().into_raw()),
        Flat::from_raw(Block128(2).to_hardware().into_raw()),
        Flat::from_raw(Block128(3).to_hardware().into_raw()),
    ];

    let val = v.evaluate(&point).unwrap();
    assert_eq!(val.into_raw(), Block128(42).to_hardware().into_raw());
}

#[test]
fn evaluate_linear_polynomial() {
    let data = vec![Block128(0).to_hardware(), Block128(10).to_hardware()];
    let v = PolyVariant::Dense(&data);

    let point = vec![Flat::from_raw(Block128(2).to_hardware().into_raw())];
    let val = v.evaluate(&point).unwrap();
    assert_eq!(val.into_raw(), Block128(20).to_hardware().into_raw());
}

#[test]
fn evaluate_single_row() {
    let data = vec![Block128(99).to_hardware()];
    let v = PolyVariant::Dense(&data);

    let val = v.evaluate(&[]).unwrap();
    assert_eq!(val.into_raw(), Block128(99).to_hardware().into_raw());
}

#[test]
fn evaluate_domain_mismatch_rejected() {
    let data = vec![Block128(0).to_hardware(); 4];
    let v = PolyVariant::Dense(&data);

    let point = vec![Flat::from_raw(Block128(1)); 3];
    assert!(v.evaluate(&point).is_err());
}

#[test]
fn evaluate_eq_polynomial() {
    let r = vec![Flat::from_raw(Block128(1)), Flat::from_raw(Block128(0))];
    let eq = PolyVariant::Eq(TensorProduct::new(r.clone()));

    let val = eq.evaluate(&r).unwrap();
    assert_eq!(val.into_raw(), Block128(1).to_hardware().into_raw());
}

#[test]
fn expand_mle_weights_single_var() {
    let r = vec![Flat::from_raw(Block128(7).to_hardware().into_raw())];
    let w = PolyVariant::expand_mle_weights(&r);

    assert_eq!(w.len(), 2);
    let r0 = r[0];
    let one = Flat::from_raw(Block128(1));
    assert_eq!(w[0], one.plus(r0));
    assert_eq!(w[1], r0);
}

#[test]
fn expand_mle_weights_zero_vars() {
    let w = PolyVariant::expand_mle_weights(&[]);
    assert_eq!(w.len(), 1);
    assert_eq!(w[0], Flat::from_raw(Block128(1)));
}

#[test]
fn shifted_get_at_wraps_cyclically() {
    let data: Vec<Flat<Block128>> = (1..=4u128).map(|i| Block128(i).to_hardware()).collect();
    let v = PolyVariant::Shifted(&data);

    assert_eq!(v.get_at(0), Block128(2).to_hardware());
    assert_eq!(v.get_at(1), Block128(3).to_hardware());
    assert_eq!(v.get_at(2), Block128(4).to_hardware());
    assert_eq!(v.get_at(3), Block128(1).to_hardware());
}

#[test]
fn composite_selector_sums_columns() {
    let a = vec![
        Bit(1),
        Bit(0),
        Bit(1),
        Bit(0),
    ];
    let b = vec![
        Bit(0),
        Bit(1),
        Bit(1),
        Bit(0),
    ];
    let v = PolyVariant::CompositeSelector(vec![&a, &b]);

    assert_eq!(v.get_at(0), Flat::from_raw(Block128(1)));
    assert_eq!(v.get_at(1), Flat::from_raw(Block128(1)));

    let two = Block128(1).plus(Block128(1));
    assert_eq!(v.get_at(2), Flat::from_raw(two));
    assert_eq!(v.get_at(3), Flat::from_raw(Block128(0)));
}
