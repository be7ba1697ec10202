//! Limb arithmetic.

use hekate::chiplets::bignum::bigint::{column_sums, divrem, is_less, normalise, sub_one_minus};

fn from_u128(value: u128, limbs: usize) -> Vec<u32> {
    (0..limbs)
        .map(|k| match k < 4 {
            true => (value >> (32 * k)) as u32,
            false => 0,
        })
        .collect()
}

fn to_u128(limbs: &[u32]) -> u128 {
    limbs
        .iter()
        .enumerate()
        .fold(0u128, |acc, (k, &v)| acc | (u128::from(v) << (32 * k)))
}

#[test]
fn column_sums_match_schoolbook_product() {
    let a = from_u128(0x0123_4567_89ab_cdef, 4);
    let b = from_u128(0xfedc_ba98_7654_3210, 4);

    let mut sums = vec![0u128; 8];

    column_sums(&a, &b, &mut sums);

    let mut digits = vec![0u32; 8];
    let mut carries = vec![0u128; 9];

    normalise(&sums, &[], &mut digits, &mut carries);

    assert_eq!(
        to_u128(&digits[..4]),
        0x0123_4567_89ab_cdefu128 * 0xfedc_ba98_7654_3210
    );
}

#[test]
fn divrem_reproduces_dividend() {
    let t = from_u128(0xdead_beef_cafe_babe_1234_5678_9abc_def0, 8);
    let n = from_u128(0x0000_0000_0000_0001_0000_0000_0000_0003, 4);

    let mut q = vec![0u32; 4];
    let mut acc = vec![0u32; 5];

    divrem(&t, &n, &mut q, &mut acc).unwrap();

    let dividend = to_u128(&t[..4]);
    let modulus = to_u128(&n);

    assert_eq!(to_u128(&q), dividend / modulus);
    assert_eq!(to_u128(&acc[..4]), dividend % modulus);
}

#[test]
fn divrem_rejects_unreduced_operand() {
    let mut t = vec![0u32; 8];
    t[7] = 1;

    let n = from_u128(3, 4);

    let mut q = vec![0u32; 4];
    let mut acc = vec![0u32; 5];

    assert!(divrem(&t, &n, &mut q, &mut acc).is_err());
}

#[test]
fn complement_completes_modulus() {
    let n = from_u128(0x1_0000_0000_0000_0003, 4);
    let r = from_u128(0x0000_0000_dead_beef, 4);

    let mut w = vec![0u32; 4];
    sub_one_minus(&n, &r, &mut w);

    assert_eq!(to_u128(&w), to_u128(&n) - to_u128(&r) - 1);
}

#[test]
fn is_less_orders_limbs() {
    let a = from_u128(0x1_0000_0000, 4);
    let b = from_u128(0x1_0000_0001, 4);

    assert!(is_less(&a, &b));
    assert!(!is_less(&b, &a));
    assert!(!is_less(&a, &a));
}
