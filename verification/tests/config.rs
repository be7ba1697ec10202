//! Security parameters.

use hekate::config::{Config, MIN_PRODUCTION_BITS};

const GRID_COLS: usize = 1024;

#[test]
fn default_is_prod() {
    assert_eq!(Config::default().min_security_bits, MIN_PRODUCTION_BITS);
    assert_eq!(Config::default().num_queries, Config::prod().num_queries);
}

#[test]
fn prod_meets_production_floor() {
    let prod = Config::prod();

    assert!(prod.estimated_security_bits(128, GRID_COLS) >= MIN_PRODUCTION_BITS);
    assert!(prod.check_security(128, GRID_COLS).is_ok());
}

#[test]
fn dev_is_lenient_on_weak_params() {
    let dev = Config::dev();

    assert!(dev.estimated_security_bits(128, GRID_COLS) < MIN_PRODUCTION_BITS);
    assert!(dev.check_security(128, GRID_COLS).is_ok());
}

#[test]
fn prod_threshold_rejects_weak_queries() {
    let weak = Config {
        num_queries: 4,
        ..Config::prod()
    };

    assert!(weak.check_security(128, GRID_COLS).is_err());
}

#[test]
fn full_half_fallback_admits_ml_dsa_grid() {
    assert!(Config::prod().check_security(128, 512).is_ok());
}

#[test]
fn grid_below_num_queries_rejected() {
    assert!(Config::prod().check_security(128, 128).is_err());
}

#[test]
fn rejects_invalid_inv_rate() {
    for bad in [0usize, 1, 3, 6] {
        let cfg = Config {
            inv_rate: bad,
            ..Config::prod()
        };

        assert!(
            cfg.check_security(128, GRID_COLS).is_err(),
            "inv_rate {bad} must be rejected",
        );
    }

    assert!(Config::prod().check_security(128, GRID_COLS).is_ok());
}

#[test]
fn ldt_bits_matches_float_within_one_bit() {
    let cfg = Config::prod();

    for log_g in 8usize..=20 {
        let grid_cols = 1usize << log_g;
        let g = cfg.table_geom(grid_cols);
        let msg: usize = g.support_size + grid_cols;

        if msg >= g.encoded_width {
            continue;
        }

        let one_minus_delta = msg as f64 / g.encoded_width as f64;
        let reference = (-one_minus_delta.powf(cfg.num_queries as f64).log2()).floor();
        let integer = cfg.ldt_bits(msg, g.encoded_width) as f64;

        assert!(
            (integer - reference).abs() <= 1.0,
            "grid 2^{log_g}: integer {integer} vs float {reference}",
        );
    }
}

#[test]
fn table_geom_selects_integer_stable_modes() {
    let prod = Config::prod();

    let big = prod.table_geom(1 << 12);
    assert_eq!(big.support_size, prod.ldt_support_size);
    assert_eq!(big.encoded_width, prod.inv_rate << 12);

    let small = prod.table_geom(512);
    assert_eq!(small.support_size, 512);
    assert_eq!(small.encoded_width, prod.inv_rate * 512 * 2);
}
