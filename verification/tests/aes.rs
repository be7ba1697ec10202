//! The AES round and its S-box table.

use hekate::aes::rounds::shift_map;
use hekate::aes::sbox_rom::{
    affine_cols, ct_sbox, generate_sbox_rom_trace, gf256_inv, SboxRomChiplet, SboxRomColumns,
    SboxRound, PHYS_INV, PHYS_NUM_COLS, PHYS_SELECTOR, PHYS_Z,
};
use hekate::field::{Bit, Block8};
use hekate::trace::Trace;

// FIPS 197 Table 4, oracle to cross-check ct_sbox
const SBOX: [u8; 256] = [
    0x63, 0x7c, 0x77, 0x7b, 0xf2, 0x6b, 0x6f, 0xc5,
    0x30, 0x01, 0x67, 0x2b, 0xfe, 0xd7, 0xab, 0x76,
    0xca, 0x82, 0xc9, 0x7d, 0xfa, 0x59, 0x47, 0xf0,
    0xad, 0xd4, 0xa2, 0xaf, 0x9c, 0xa4, 0x72, 0xc0,
    0xb7, 0xfd, 0x93, 0x26, 0x36, 0x3f, 0xf7, 0xcc,
    0x34, 0xa5, 0xe5, 0xf1, 0x71, 0xd8, 0x31, 0x15,
    0x04, 0xc7, 0x23, 0xc3, 0x18, 0x96, 0x05, 0x9a,
    0x07, 0x12, 0x80, 0xe2, 0xeb, 0x27, 0xb2, 0x75,
    0x09, 0x83, 0x2c, 0x1a, 0x1b, 0x6e, 0x5a, 0xa0,
    0x52, 0x3b, 0xd6, 0xb3, 0x29, 0xe3, 0x2f, 0x84,
    0x53, 0xd1, 0x00, 0xed, 0x20, 0xfc, 0xb1, 0x5b,
    0x6a, 0xcb, 0xbe, 0x39, 0x4a, 0x4c, 0x58, 0xcf,
    0xd0, 0xef, 0xaa, 0xfb, 0x43, 0x4d, 0x33, 0x85,
    0x45, 0xf9, 0x02, 0x7f, 0x50, 0x3c, 0x9f, 0xa8,
    0x51, 0xa3, 0x40, 0x8f, 0x92, 0x9d, 0x38, 0xf5,
    0xbc, 0xb6, 0xda, 0x21, 0x10, 0xff, 0xf3, 0xd2,
    0xcd, 0x0c, 0x13, 0xec, 0x5f, 0x97, 0x44, 0x17,
    0xc4, 0xa7, 0x7e, 0x3d, 0x64, 0x5d, 0x19, 0x73,
    0x60, 0x81, 0x4f, 0xdc, 0x22, 0x2a, 0x90, 0x88,
    0x46, 0xee, 0xb8, 0x14, 0xde, 0x5e, 0x0b, 0xdb,
    0xe0, 0x32, 0x3a, 0x0a, 0x49, 0x06, 0x24, 0x5c,
    0xc2, 0xd3, 0xac, 0x62, 0x91, 0x95, 0xe4, 0x79,
    0xe7, 0xc8, 0x37, 0x6d, 0x8d, 0xd5, 0x4e, 0xa9,
    0x6c, 0x56, 0xf4, 0xea, 0x65, 0x7a, 0xae, 0x08,
    0xba, 0x78, 0x25, 0x2e, 0x1c, 0xa6, 0xb4, 0xc6,
    0xe8, 0xdd, 0x74, 0x1f, 0x4b, 0xbd, 0x8b, 0x8a,
    0x70, 0x3e, 0xb5, 0x66, 0x48, 0x03, 0xf6, 0x0e,
    0x61, 0x35, 0x57, 0xb9, 0x86, 0xc1, 0x1d, 0x9e,
    0xe1, 0xf8, 0x98, 0x11, 0x69, 0xd9, 0x8e, 0x94,
    0x9b, 0x1e, 0x87, 0xe9, 0xce, 0x55, 0x28, 0xdf,
    0x8c, 0xa1, 0x89, 0x0d, 0xbf, 0xe6, 0x42, 0x68,
    0x41, 0x99, 0x2d, 0x0f, 0xb0, 0x54, 0xbb, 0x16,
];

fn identity_round() -> SboxRound {
    let inputs: [u8; 16] = core::array::from_fn(|i| i as u8);
    let outputs: [u8; 16] = core::array::from_fn(|i| SBOX[i]);

    SboxRound { inputs, outputs }
}

#[test]
fn sbox_rom_column_count() {
    // Virtual layout
    assert_eq!(SboxRomColumns::NUM_COLUMNS, 177);
    assert_eq!(SboxRomColumns::INV_BITS, 0);
    assert_eq!(SboxRomColumns::INPUT, 128);
    assert_eq!(SboxRomColumns::OUTPUT, 144);
    assert_eq!(SboxRomColumns::Z, 160);
    assert_eq!(SboxRomColumns::SELECTOR, 176);

    // Physical layout
    assert_eq!(PHYS_NUM_COLS, 51);
}

#[test]
fn sbox_rom_linking_spec_structure() {
    let spec = SboxRomChiplet::linking_spec();
    assert_eq!(spec.num_sources(), 32);
    assert!(spec.has_selector());
    assert_eq!(spec.selector, Some(SboxRomColumns::SELECTOR));
}

#[test]
fn sbox_table_fips197() {
    // FIPS 197 Appendix B known values.
    assert_eq!(SBOX[0x00], 0x63);
    assert_eq!(SBOX[0x01], 0x7c);
    assert_eq!(SBOX[0x53], 0xed);
    assert_eq!(SBOX[0xFF], 0x16);

    // S(0x00) = 0x63
    // (affine of 0^{-1} = 0 by convention)
    assert_eq!(SBOX[0x00], 0x63);

    // S(0x01) = 0x7c
    // (1^{-1} = 1, then affine)
    assert_eq!(SBOX[0x01], 0x7c);
}

#[test]
fn sbox_table_is_permutation() {
    let mut seen = [false; 256];
    for &out in &SBOX {
        assert!(!seen[out as usize], "duplicate output: 0x{out:02x}");
        seen[out as usize] = true;
    }
}

#[test]
fn sbox_trace_single_round() {
    let round = identity_round();
    let trace = generate_sbox_rom_trace(&[round], 4).unwrap();

    assert_eq!(trace.num_cols(), PHYS_NUM_COLS);

    let sel = trace.columns[PHYS_SELECTOR].as_bit_slice().unwrap();
    assert_eq!(sel[0], Bit(1));
    assert_eq!(sel[1], Bit(0));
}

#[test]
fn sbox_trace_rejects_bad_entry() {
    let bad = SboxRound {
        inputs: [0u8; 16],
        outputs: [0u8; 16],
    };
    assert!(generate_sbox_rom_trace(&[bad], 4).is_err());
}

#[test]
fn gf256_inv_all_entries() {
    assert_eq!(gf256_inv(0), 0);
    assert_eq!(gf256_inv(1), 1);

    for x in 1..=255u8 {
        let inv = gf256_inv(x);

        assert_ne!(inv, 0, "inverse of 0x{x:02X} must be nonzero");
        assert_eq!(
            Block8(x).times(Block8(inv)),
            Block8(1),
            "0x{x:02X} * 0x{inv:02X} != 1"
        );
    }
}

#[test]
fn affine_cols_reproduce_sbox() {
    for x in 0..=255u8 {
        let inv = gf256_inv(x);

        let mut affine_val = 0x63u8;
        for k in 0..8 {
            if (inv >> k) & 1 == 1 {
                affine_val ^= affine_cols()[k];
            }
        }

        assert_eq!(
            affine_val, SBOX[x as usize],
            "algebraic S-box mismatch at 0x{x:02X}"
        );
    }
}

#[test]
fn ct_sbox_matches_fips197_table() {
    for x in 0..=255u8 {
        assert_eq!(
            ct_sbox(x),
            SBOX[x as usize],
            "ct_sbox mismatch at 0x{x:02X}"
        );
    }
}

#[test]
fn trace_fills_inv_and_z() {
    let round = identity_round();
    let trace = generate_sbox_rom_trace(&[round], 4).unwrap();

    for j in 0..16 {
        let input = j as u8;
        let expected_inv = gf256_inv(input);
        let expected_z = if input == 0 { Bit(1) } else { Bit(0) };

        let z = trace.columns[PHYS_Z + j].as_bit_slice().unwrap()[0];
        assert_eq!(z, expected_z, "Z mismatch at byte {j}");

        let b64_col = j / 8;
        let byte_pos = j % 8;
        let packed = trace.columns[PHYS_INV + b64_col].as_b64_slice().unwrap()[0];
        let inv_byte = (packed.to_tower().0 >> (byte_pos * 8)) as u8;

        assert_eq!(inv_byte, expected_inv, "INV mismatch at byte {j}");
    }
}

#[test]
fn shift_map_is_permutation() {
    let mut seen = [false; 16];
    for &s in &shift_map() {
        assert!(!seen[s]);
        seen[s] = true;
    }
}

#[test]
fn shift_map_row0_identity() {
    // FIPS 197:
    // row 0 is not shifted.
    assert_eq!(shift_map()[0], 0);
    assert_eq!(shift_map()[4], 4);
    assert_eq!(shift_map()[8], 8);
    assert_eq!(shift_map()[12], 12);
}
