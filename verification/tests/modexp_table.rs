//! The rows of the exponentiation table, and a host table that asks for it.

use hekate::atoms::exp_form::pow;
use hekate::chiplets::bignum::chiplet::{ModexpChiplet, BUS_ID};
use hekate::chiplets::bignum::cpu::CpuModexpBlock;
use hekate::chiplets::bignum::modexp::Modexp;
use hekate::chiplets::bignum::modmul::LIMBS32;
use hekate::chiplets::bignum::rows::RowValues;
use hekate::field::{Bit, Block128};
use hekate::program::circuit::Circuit;
use hekate::trace::{ColumnType, TraceBuilder, TraceColumn};

const P: u64 = 0xffff_fffb;
const S: u64 = 0x1234_5678;

fn limbs(low: u64) -> [u32; LIMBS32] {
    let mut out = [0u32; LIMBS32];
    out[0] = low as u32;
    out[1] = (low >> 32) as u32;
    out
}

fn power(base: u64, exp: u32, modulus: u64) -> u64 {
    let mut acc: u128 = 1;
    for _ in 0..exp {
        acc = acc * base as u128 % modulus as u128;
    }
    acc as u64
}

fn small() -> Modexp {
    Modexp::new(&limbs(P), &limbs(S)).unwrap()
}

#[test]
fn small_exponentiation() {
    let m = small();
    assert_eq!(m.result(), &limbs(power(S, 65537, P)));
    assert_eq!(m.modulus(), &limbs(P));
    assert_eq!(m.base(), &limbs(S));
}

#[test]
fn rows_balance_and_hold_powers() {
    let chiplet = ModexpChiplet::new().unwrap();
    let m = small();
    let g = chiplet.basis().generator();
    let mut v = RowValues::zeroed();
    for row in 0..3 {
        v = m.row(chiplet.basis(), row, &v);
        if row == 0 {
            // The limbs of the base times those of the base and of the modulus.
            let x = S as u128;
            assert_eq!(v.xs as u128, x);
            assert_eq!(v.xa[0][31].to_tower(), pow(g, x));
            assert_eq!(v.p[0][15].to_tower(), pow(g, x * x));
            assert_eq!(v.u[0][0].to_tower(), pow(g, x * x));
            let q = (S as u128 * S as u128) / P as u128;
            assert_eq!(v.q as u128, q);
            assert_eq!(v.p[1][15].to_tower(), pow(g, q * P as u128));
            let r = (S as u128 * S as u128) % P as u128;
            assert_eq!(v.sel[0] as u128, r);
            assert_eq!(v.sel[2] as u128, P as u128 - r - 1);
            assert_eq!(v.digits[0] as u128, (x * x) & 0xffff_ffff);
        } else {
            assert_eq!(v.xs, 0);
            assert_eq!(v.u[0][0].to_tower(), Block128(1));
        }
    }
}

#[test]
fn requests_are_written_and_put_on_the_bus() {
    let mut cx = Circuit::new("host", 16).unwrap();
    let selector = cx.column(ColumnType::Bit);
    let block = CpuModexpBlock::declare(&mut cx, 1);
    block.connect(&mut cx, selector).unwrap();
    let program = cx.compile();
    assert_eq!(program.column_layout().len(), 193);
    assert_eq!(program.permutation_checks().len(), 1);
    assert_eq!(program.permutation_checks()[0].id, BUS_ID);
    assert_eq!(program.permutation_checks()[0].check.num_sources(), 193);

    let m = small();
    let mut tb = TraceBuilder::new(program.column_layout(), 4).unwrap();
    block.write(&mut tb, 3, &m).unwrap();
    tb.set_bit(0, 3, Bit(1)).unwrap();
    assert!(block.write(&mut tb, 16, &m).is_err());
    let t = tb.build();
    let low = |col: usize| {
        let TraceColumn::B32(cells) = &t.columns[col] else {
            panic!("not a B32 column");
        };
        cells[3].to_tower().0 as u64
    };
    assert_eq!(low(1 + CpuModexpBlock::MODULUS), P);
    assert_eq!(low(1 + CpuModexpBlock::BASE), S);
    assert_eq!(low(1 + CpuModexpBlock::RESULT), power(S, 65537, P));
}
