//! The fields of the tower.

use hekate::atoms::exp_form::{pow, ExpBasis};
use hekate::bits::{ilog2, log2_exact};
use hekate::bytes::{le_bytes4, push_le, read_le, to_le};
use hekate::field::{Block128, Block16, Block32, Block64, Block8, Flat, TowerField};

#[test]
fn bases_convert_both_ways() {
    for x in [0u128, 1, 2, 0xdead_beef, u128::MAX] {
        assert_eq!(Block128(x).to_hardware().to_tower(), Block128(x));
    }
    assert_eq!(Block8(0x53).to_hardware().to_tower(), Block8(0x53));
    assert_eq!(Block16(0x1234).to_hardware().to_tower(), Block16(0x1234));
    assert_eq!(Block32(7).to_hardware().to_tower(), Block32(7));
    assert_eq!(Block64(1 << 63).to_hardware().to_tower(), Block64(1 << 63));
    assert_ne!(Block128(2).to_hardware().into_raw(), Block128(2));
    assert_ne!(Block64(2).to_hardware().into_raw(), Block64(2));
    assert_ne!(Block32(2).to_hardware().into_raw(), Block32(2));
    assert_ne!(Block16(2).to_hardware().into_raw(), Block16(2));
}

#[test]
fn promotion_keeps_the_element() {
    assert_eq!(Block8(0x53).to_hardware().promote().to_tower(), Block128(0x53));
    assert_eq!(Block16(0x1234).to_hardware().promote().to_tower(), Block128(0x1234));
    assert_eq!(Block32(99).to_hardware().promote().to_tower(), Block128(99));
    assert_eq!(Block64(1 << 40).to_hardware().promote().to_tower(), Block128(1 << 40));
}

#[test]
fn products_agree_in_both_bases() {
    let (a, b) = (Block128(0x1234_5678_9abc_def0), Block128(0xfeed_face_cafe_beef << 64));
    let flat = a.to_hardware().times(b.to_hardware());
    assert_eq!(flat.to_tower(), a.times(b));
    assert_eq!(a.plus(b).0, a.0 ^ b.0);
    assert_eq!(a.to_hardware().plus(b.to_hardware()).to_tower(), a.plus(b));
    assert_eq!(a.times(Block128(1)), a);
    assert_eq!(Flat::<Block128>::one().to_tower(), Block128(1));
    assert_eq!(Flat::<Block128>::zero().to_tower(), Block128(0));
}

#[test]
fn inverses_invert() {
    for x in [1u128, 2, 3, 0xdead_beef, u128::MAX] {
        assert_eq!(Block128(x).times(Block128(x).invert()), Block128(1));
    }
    assert_eq!(Block128(0).invert(), Block128(0));
}

#[test]
fn aes_polynomial_products() {
    assert_eq!(Block8(0x57).times(Block8(0x83)), Block8(0xc1));
    assert_eq!(Block8(0x57).times(Block8(0x13)), Block8(0xfe));
}

#[test]
fn bits_of_the_tower_element() {
    let x = Block64(0b1010).to_hardware();
    let bits: Vec<u8> = (0..5).map(|i| x.tower_bit(i)).collect();
    assert_eq!(bits, vec![0, 1, 0, 1, 0]);
}

#[test]
fn bytes_are_little_endian() {
    assert_eq!(to_le(0x0102, 3), vec![2, 1, 0]);
    assert_eq!(read_le(&[2, 1, 0]), 0x0102);
    assert_eq!(le_bytes4(0x0102_0304), [4, 3, 2, 1]);
    let mut buf = vec![9];
    push_le(&mut buf, 0xff00, 2);
    assert_eq!(buf, vec![9, 0, 0xff]);
    assert_eq!(Block32(0x0102_0304).to_bytes(), vec![4, 3, 2, 1]);
    assert_eq!(Block16::from_le_bytes(&[0x34, 0x12]), Block16(0x1234));
    assert_eq!(Block128::size(), 16);
}

#[test]
fn logarithms() {
    assert_eq!(ilog2(1), 0);
    assert_eq!(ilog2(1023), 9);
    assert_eq!(log2_exact(1024), Some(10));
    assert_eq!(log2_exact(1023), None);
}

#[test]
fn powers_close_at_the_order_of_the_group() {
    for x in [1u128, 2, 0xdead_beef, u128::MAX] {
        assert_eq!(pow(Block128(x), u128::MAX), Block128(1));
    }
    assert_eq!(pow(Block128(0), u128::MAX), Block128(0));
}

#[test]
fn the_order_is_a_product_of_nine_primes() {
    let primes: [u128; 9] = [3, 5, 17, 257, 641, 65537, 274177, 6700417, 67280421310721];
    let mut product: u128 = 1;
    for p in primes {
        product *= p;
    }
    assert_eq!(product, u128::MAX);
}

#[test]
fn small_powers_of_the_generator_are_distinct() {
    let g = ExpBasis::new::<Block128>().unwrap().generator();
    let mut seen: Vec<u128> = Vec::new();
    let mut x = Block128(1);
    for _ in 0..512 {
        assert!(!seen.contains(&x.0));
        seen.push(x.0);
        x = x.times(g);
    }
}

#[test]
fn bytes_are_a_subfield() {
    for a in [0u8, 1, 2, 0x53, 0xca, 0xff] {
        for b in [0u8, 1, 3, 0x57, 0x83, 0xfe] {
            let wide = Block128(a as u128).times(Block128(b as u128));
            assert_eq!(wide, Block128(Block8(a).times(Block8(b)).0 as u128));
        }
    }
}

#[test]
fn the_upper_half_is_a_multiple() {
    for hi in [1u128, 0x1234, 0xffff_ffff] {
        assert_eq!(Block128(1 << 32).times(Block128(hi)), Block128(hi << 32));
    }
}

#[test]
fn no_zero_divisors() {
    for a in [1u128, 2, 1 << 127] {
        for b in [1u128, 0xff, u128::MAX] {
            assert_ne!(Block128(a).times(Block128(b)), Block128(0));
        }
    }
}
