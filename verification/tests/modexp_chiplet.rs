//! The exponentiation chiplet.

use hekate::chiplets::bignum::chiplet::{ModexpChiplet, BUS_ID};
use hekate::chiplets::bignum::columns::{NUM_ROWS, NUM_VARS, RESULT_ROW};
use hekate::chiplets::bignum::modexp::Modexp;
use hekate::chiplets::bignum::modmul::LIMBS32;
use hekate::chiplets::bignum::table::write_words;
use hekate::field::Bit;
use hekate::trace::{TraceBuilder, TraceColumn};

/// `R = pow(S, 65537, N)` from CPython's `pow`,
/// `random.seed(20260911)`.
const N: [u32; LIMBS32] = [
    0xcf15a761, 0x9a82b719, 0x5cb61f8e, 0x03e92daa,
    0x72d5f70d, 0xe4f190b1, 0x175e869b, 0xa99aba73,
    0xebf57857, 0x2c7e3121, 0x813898f6, 0xd18004ee,
    0x68e2a888, 0x52a46bec, 0x7d2dfaf7, 0x40b801c3,
    0x22cac669, 0x918e832a, 0xc319a980, 0x45044e00,
    0xc0979096, 0x8142e55c, 0x165ffd4f, 0x6ff16c0c,
    0x608c5982, 0x1f154fc1, 0x97d2f980, 0x8905d6f2,
    0xa732080a, 0xcd271ab5, 0xf2ba6ed7, 0x817fbeab,
    0x7c5d45a5, 0xaf691825, 0x9eb8884c, 0x8c834a46,
    0xbb70ef68, 0xb9a3fc36, 0x9b35b98d, 0x5153fd41,
    0x74c9025c, 0x0ec8abe5, 0xf747adc1, 0x6a4c422a,
    0xc0c39a56, 0xa155acde, 0xcda82707, 0xc2b9fd18,
    0x289ef76b, 0x6bacb5b8, 0xed0a08c3, 0xf29100a3,
    0x23677dd1, 0xdbbdfda2, 0x952fdfe8, 0x610904ee,
    0x06607b5e, 0x47a5802b, 0xaa5e5a73, 0xe9df4ead,
    0xe2135545, 0xa5f14445, 0x0e361d03, 0x8fd5da91,
];
const S: [u32; LIMBS32] = [
    0x6d45c8c3, 0x25812b9b, 0x33e57098, 0x29813ced,
    0xbc75fe20, 0x1f46bf7c, 0xad1af473, 0xf3257bad,
    0x6cb538a2, 0xe3df1fda, 0x0d1c0f05, 0x64e412c2,
    0x3f9f681e, 0x954fbd5f, 0xfd836bba, 0xef019957,
    0x6bfe120f, 0x17a3d2cc, 0xc79795c9, 0x642636c2,
    0xef2032b5, 0xf78206cf, 0x927e56f6, 0x3a0f0d1b,
    0xce6e7cd6, 0xb79a7944, 0x2b5dbfe4, 0x92f70f4b,
    0x071f4e74, 0x1cda0d2a, 0x6998aceb, 0x463e29ca,
    0x1602f718, 0x4665336d, 0x12875775, 0xb4e304dc,
    0x7dd1caa6, 0x703f79a3, 0x419b29a7, 0x284e41c9,
    0x5737eff9, 0x77490bb2, 0xba0d832b, 0x3ebc1585,
    0x2775b4f9, 0xf54618ef, 0x868d15f6, 0x99a6e0f7,
    0x16767ed3, 0x49f64bb9, 0x9265838c, 0x60b4fd35,
    0x677919ee, 0x34b43fd1, 0xd4f47315, 0xb596c45e,
    0x4c044463, 0xf78703cf, 0x1a3c6f25, 0x963f9414,
    0x49fab4e3, 0xc28b2a14, 0xf778ad20, 0x2059ef86,
];
const R: [u32; LIMBS32] = [
    0x3b6597f5, 0xc2c81f7b, 0xcbf46aa2, 0xa2462c14,
    0x8023ef5e, 0x36c52b92, 0xd0baedcb, 0xc2dda1d3,
    0x1e83a702, 0x657d267b, 0xc1ba9909, 0x2dff540d,
    0x3ea46713, 0x296dcfb5, 0xc67cc521, 0x0b575f8c,
    0x4f450e50, 0xf06d6ed3, 0x70219d9c, 0xf022658e,
    0x483ec1f6, 0xf52bab4b, 0x3b43099f, 0xe50b76de,
    0x76dcf70c, 0x26b57ff4, 0x879110ef, 0x534b51f0,
    0x4475526a, 0x8c64b7e5, 0x35af90e3, 0xf4f72d2f,
    0xa0fff1fb, 0x85a23410, 0xfa6e9984, 0xa0c00f9f,
    0x8343fdc6, 0x7e91a3ae, 0x2ff6a24d, 0x59477d9b,
    0x99cd3d88, 0x18c1ddf9, 0x2855ad24, 0xd3f2ef22,
    0xd973d58d, 0x541a1ea4, 0x60498be8, 0x6e5b2226,
    0x3de165bd, 0x8e43fcf7, 0x55035fc1, 0x372e0652,
    0xdc3e474a, 0x74f42f0b, 0x7928e6bf, 0x767b5182,
    0xe9c7e8ab, 0xea2da551, 0x7e8a8bbf, 0xf6d31bb3,
    0x88a5a28b, 0x53beccb1, 0x57592cea, 0x77bd87d4,
];

#[test]
fn result_matches_reference_exponentiation() {
    let modexp = Modexp::new(&N, &S).unwrap();
    assert_eq!(modexp.result(), &R);
}

#[test]
fn unreduced_base_rejected() {
    assert!(Modexp::new(&S, &N).is_err());
}

#[test]
fn geometry_matches_prototype() {
    let chiplet = ModexpChiplet::new().unwrap();
    let ast = chiplet.program().constraint_ast();

    assert_eq!(NUM_ROWS, 1024);
    assert_eq!(RESULT_ROW, 543);
    assert_eq!(ast.roots.len(), 3684);
    assert_eq!(ast.max_degree(), 5);
    assert_eq!(chiplet.column_layout().len(), 3447);
    assert_eq!(chiplet.b128_columns(), 3002);
    assert_eq!(chiplet.row_bytes(), 49739);
}

#[test]
fn one_emit_on_result_row() {
    let chiplet = ModexpChiplet::new().unwrap();
    let specs = chiplet.program().permutation_checks();

    assert_eq!(specs.len(), 1);
    assert_eq!(specs[0].id, BUS_ID);
    assert_eq!(specs[0].check.num_sources(), 3 * LIMBS32 + 1);

    // The narrow columns of `chiplet.trace(&modexp, 0)`, which the trace
    // takes from here before it computes the powers.
    let modexp = Modexp::new(&N, &S).unwrap();
    let mut tb = TraceBuilder::new(chiplet.column_layout(), NUM_VARS).unwrap();
    write_words(&mut tb, &modexp, 0);
    let trace = tb.build();

    let TraceColumn::Bit(emit) = &trace.columns[chiplet.emit_column()] else {
        panic!("emit is not a Bit column");
    };

    assert_eq!(emit.iter().filter(|&&b| b == Bit(1)).count(), 1);
    assert_eq!(emit[RESULT_ROW], Bit(1));
}
