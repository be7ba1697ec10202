//! Expander matrices and the generator they are sampled from.

use hekate::expander_matrix::{generate_expander_matrix, AesCtrPrg};
use hekate_math::{Block128, Flat, HardwareField};

#[test]
fn accepts_valid_dimensions() {
    let m = generate_expander_matrix(10, 10, 5, [1u8; 32]);
    assert_eq!(m.rows(), 10);
    assert_eq!(m.cols(), 10);
    assert_eq!(m.degree(), 5);
    assert_eq!(m.weights().len(), 50);
}

#[test]
fn accepts_zero_rows_or_degree() {
    let m1 = generate_expander_matrix(0, 10, 5, [1u8; 32]);
    assert_eq!(m1.weights().len(), 0);

    let m2 = generate_expander_matrix(10, 10, 0, [1u8; 32]);
    assert_eq!(m2.weights().len(), 0);
}

#[test]
fn expander_properties_sanity_check() {
    let rows = 4096;
    let cols = 4096;
    let degree = 16;
    let seed = [42u8; 32];

    let matrix = generate_expander_matrix(rows, cols, degree, seed);

    let hamming_weight = |vec: &[Flat<Block128>]| -> usize {
        vec.iter()
            .filter(|&&x| x != Block128::from(0u128).to_hardware())
            .count()
    };

    // Weight-1 input must not vanish:
    // no column maps to empty.
    for i in 0..100 {
        let mut x = vec![Block128::from(0u128).to_hardware(); cols];
        x[i] = Block128::from(1u128).to_hardware();

        let y = matrix.spmv(x.as_slice());
        let w = hamming_weight(&y);

        assert!(w > 0, "Column {} is empty! Information loss", i);
    }

    // Weight-2 input:
    // low neighbour overlap, output ~2*degree.
    let mut rng = AesCtrPrg::from_seed([1u8; 32]);
    let mut total_weight = 0;

    let trials = 100;
    for _ in 0..trials {
        let mut x = vec![Block128::from(0u128).to_hardware(); cols];

        let idx1 = rng.try_next_u32().unwrap() as usize % cols;
        let idx2 = (idx1 + 1) % cols;

        x[idx1] = Block128::from(1u128).to_hardware();
        x[idx2] = Block128::from(1u128).to_hardware();

        let y = matrix.spmv(x.as_slice());
        total_weight += hamming_weight(&y);
    }

    let avg_weight = total_weight as f64 / trials as f64;
    let expected_max = (degree * 2) as f64;

    assert!(
        avg_weight > (expected_max * 0.8),
        "Too many collisions! Poor expansion property. Avg: {}",
        avg_weight
    );

    // Avalanche: input weight 10 -> output weight close to 160.
    let input_w = 10;
    let mut x = vec![Block128::from(0u128).to_hardware(); cols];

    for val in x.iter_mut().take(input_w) {
        *val = Block128::from(1u128).to_hardware();
    }

    let y = matrix.spmv(x.as_slice());
    let w_out = hamming_weight(&y);

    assert!(
        w_out > (input_w * degree * 8 / 10),
        "Weight-10 vector collapsed too much! Weight: {}",
        w_out
    );
}

#[test]
fn check_determinism() {
    let seed = [42u8; 32];
    let rows = 1024;
    let cols = 1024;
    let degree = 16;

    let matrix1 = generate_expander_matrix(rows, cols, degree, seed);
    let matrix2 = generate_expander_matrix(rows, cols, degree, seed);

    assert_eq!(
        matrix1.weights(),
        matrix2.weights(),
        "Matrix weights must be deterministic for the same seed"
    );
    assert_eq!(
        matrix1.col_indices(),
        matrix2.col_indices(),
        "Matrix column indices must be deterministic for the same seed"
    );
}

#[test]
fn security_prevent_expander_collapse() {
    // Force degree == cols. In GF(2^k), duplicate indices
    // cause X ^ X = 0, destroying PCS soundness.
    let rows = 1000;
    let cols = 32;
    let degree = 32;
    let seed = [99u8; 32];

    let matrix = generate_expander_matrix(rows, cols, degree, seed);

    for r in 0..rows {
        let row_offset = r * degree;

        let mut row_indices: Vec<u32> =
            matrix.col_indices()[row_offset..row_offset + degree].to_vec();
        row_indices.sort_unstable();

        for d in 0..degree - 1 {
            assert_ne!(
                row_indices[d],
                row_indices[d + 1],
                "Expander Collapse detected in row {}! Duplicate column index {}. \
                 The rejection sampling loop has been compromised.",
                r,
                row_indices[d]
            );
        }
    }
}

#[test]
fn cross_feature_determinism_golden() {
    let matrix = generate_expander_matrix(1024, 512, 16, [42u8; 32]);

        const EXPECTED: [u32; 64] = [
        442, 352, 465,  69, 176, 472, 322, 109,
        349, 216,  74,  35, 206,  50,   7, 443,
        349, 214,  30, 332,  66, 316, 297, 415,
        325,  88, 484, 345,   5, 224, 106, 326,
        454, 345, 295, 443, 267, 264,  91, 333,
        163, 359, 262,  49, 112, 499, 219,  67,
        420, 106, 415,  54, 437, 123, 366, 284,
        503, 249,  26, 353,  90,  29, 311, 111,
    ];

    assert_eq!(&matrix.col_indices()[..64], &EXPECTED);
}

// Counter block = (nonce << 64 | counter).to_le_bytes()
#[test]
fn aes_ctr_prg_golden() {
        const EXPECTED: [u8; 128] = [
        // block 0: AES-256([0;32], counter=0)
        0xdc, 0x95, 0xc0, 0x78, 0xa2, 0x40, 0x89, 0x89,
        0xad, 0x48, 0xa2, 0x14, 0x92, 0x84, 0x20, 0x87,
        // block 1: counter=1
        0x52, 0x75, 0xf3, 0xd8, 0x6b, 0x4f, 0xb8, 0x68,
        0x45, 0x93, 0x13, 0x3e, 0xbf, 0xa5, 0x3c, 0xd3,
        // block 2: counter=2
        0x77, 0x9b, 0x38, 0xd1, 0x5b, 0xff, 0xb6, 0x3d,
        0x8d, 0x60, 0x9d, 0x55, 0x1a, 0x5c, 0xc9, 0x8e,
        // block 3: counter=3
        0x39, 0xd6, 0xe9, 0xae, 0x76, 0xa9, 0xb2, 0xf3,
        0xfc, 0x46, 0x26, 0x80, 0xf7, 0x66, 0x72, 0x0e,
        // block 4: counter=4
        0x75, 0xd1, 0x1b, 0x0e, 0x3a, 0x68, 0xc4, 0x22,
        0x3d, 0x88, 0xdb, 0xf0, 0x17, 0x97, 0x7d, 0xd7,
        // block 5: counter=5
        0x84, 0x5c, 0x7d, 0x46, 0x90, 0xfa, 0x59, 0x4f,
        0x90, 0xe6, 0x7f, 0x7b, 0x52, 0x11, 0xa5, 0x1a,
        // block 6: counter=6
        0x6f, 0x87, 0x1f, 0x44, 0x5c, 0x18, 0xaf, 0xc2,
        0xf8, 0x93, 0x7a, 0xf8, 0x41, 0xfd, 0x2a, 0xd0,
        // block 7: counter=7
        0x8d, 0x3a, 0xe1, 0x50, 0x22, 0x15, 0x52, 0x33,
        0x4d, 0xdb, 0x29, 0xfe, 0x36, 0xa0, 0xb7, 0x24,
    ];

    let mut prg = AesCtrPrg::from_seed([0u8; 32]);
    let mut output = [0u8; 128];

    let _ = prg.try_fill_bytes(&mut output);

    assert_eq!(output, EXPECTED);
}

#[test]
fn aes_ctr_prg_stream_isolation() {
    let seed = [0xabu8; 32];

    let mut prg0 = AesCtrPrg::from_seed(seed);
    prg0.set_stream(0);

    let mut out0 = [0u8; 64];
    let _ = prg0.try_fill_bytes(&mut out0);

    let mut prg1 = AesCtrPrg::from_seed(seed);
    prg1.set_stream(1);

    let mut out1 = [0u8; 64];
    let _ = prg1.try_fill_bytes(&mut out1);

    assert_ne!(
        out0, out1,
        "Different streams must produce different output"
    );

    let mut prg0_again = AesCtrPrg::from_seed(seed);
    prg0_again.set_stream(0);

    let mut out0_again = [0u8; 64];
    let _ = prg0_again.try_fill_bytes(&mut out0_again);

    assert_eq!(out0, out0_again, "Same stream must be deterministic");
}

#[test]
fn expansion_proptest() {
    let (rows, cols, degree) = (1024, 1024, 16);
    for case in 0..24u8 {
        let mut seed = [0u8; 32];
        for (k, byte) in seed.iter_mut().enumerate() {
            *byte = case.wrapping_mul(37).wrapping_add(k as u8);
        }
        let matrix = generate_expander_matrix(rows, cols, degree, seed);

        let random_col = (case as usize * 411 + 7) % cols;
        let val_raw = 1 + (case as u128 * 29) % 254;
        let mut x = vec![Block128::from(0u128).to_hardware(); cols];
        x[random_col] = Block128::from(val_raw).to_hardware();

        let y = matrix.spmv(x.as_slice());
        let weight = y
            .iter()
            .filter(|&&v| v != Block128::from(0u128).to_hardware())
            .count();
        assert!(
            weight >= degree / 6,
            "Column {} failed expansion: weight {}",
            random_col,
            weight,
        );
    }
}
