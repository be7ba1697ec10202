//! The geometry of the outer code.

use hekate::config::{Config, MIN_PRODUCTION_BITS, OUTER_RATE_LOG2};
use hekate::outer::{OuterGeometry, MAX_OUTER_DOMAIN_LOG2};

const FIELD_BITS: usize = 128;

#[test]
fn prod_geometry_saturates_field_width() {
    let cfg = Config::prod();
    let geom = cfg.outer_geom(12_000, 20_000, FIELD_BITS).unwrap();

    assert!(cfg.outer_security_bits(FIELD_BITS, &geom) >= FIELD_BITS);
}

#[test]
fn zk_padding_covers_every_opened_column() {
    let cfg = Config::prod();

    for (scalars, wires) in [(1, 0), (4_075, 2_384), (12_000, 20_000), (60_000, 90_000)] {
        let geom = cfg.outer_geom(scalars, wires, FIELD_BITS).unwrap();

        assert!(geom.zk_padding() > geom.queries);
    }
}

#[test]
fn domain_is_subspace_at_target_rate() {
    let cfg = Config::prod();
    let geom = cfg.outer_geom(12_000, 20_000, FIELD_BITS).unwrap();

    assert!(geom.domain_len.is_power_of_two());
    assert_eq!(geom.code_len << OUTER_RATE_LOG2, geom.domain_len);
}

/// `AdditiveFft` takes only power-of-two sizes
/// and `1 <= log_k < log_n <= min(F::BITS, 63)`.
#[test]
fn geometry_fits_additive_fft_domain_rules() {
    let cfg = Config::prod();

    for (scalars, wires) in [(1, 0), (4_075, 2_384), (12_000, 20_000), (60_000, 90_000)] {
        let geom = cfg.outer_geom(scalars, wires, FIELD_BITS).unwrap();

        assert!(geom.code_len.is_power_of_two());
        assert!(geom.domain_len.is_power_of_two());
        assert!(geom.code_len.ilog2() >= 1);
        assert!(geom.code_len.ilog2() < geom.domain_len.ilog2());
        assert!(geom.domain_len.ilog2() as usize <= FIELD_BITS.min(63));
    }
}

#[test]
fn geometry_is_deterministic_function_of_statement() {
    let cfg = Config::prod();

    assert_eq!(
        cfg.outer_geom(12_000, 20_000, FIELD_BITS).unwrap(),
        cfg.outer_geom(12_000, 20_000, FIELD_BITS).unwrap()
    );
}

#[test]
fn empty_statement_is_rejected() {
    assert!(Config::prod().outer_geom(0, 20_000, FIELD_BITS).is_err());
}

#[test]
fn zero_outer_queries_is_rejected() {
    let cfg = Config {
        outer_queries: 0,
        ..Config::dev()
    };

    assert!(cfg.outer_geom(64, 32, FIELD_BITS).is_err());
}

#[test]
fn oversized_statement_is_rejected() {
    let cfg = Config::prod();

    assert!(cfg.outer_geom(1 << 40, 1 << 40, FIELD_BITS).is_err());
}

#[test]
fn query_count_matches_ligero_bound_at_rate_one_sixteenth() {
    let cfg = Config::prod();
    let geom = cfg.outer_geom(12_000, 20_000, FIELD_BITS).unwrap();

    let thinner = OuterGeometry {
        queries: 154,
        ..geom
    };

    assert!(cfg.outer_security_bits(FIELD_BITS, &thinner) < 128);
    assert!(cfg.outer_security_bits(FIELD_BITS, &geom) >= 128);
}

/// `128 - log2(2^18) = MIN_PRODUCTION_BITS` is the binding term;
/// one more mul wire doubles the domain and loses a bit.
#[test]
fn field_term_caps_outer_statement() {
    let cfg = Config::prod();

    let largest = cfg.outer_geom(12_000, 173_098, FIELD_BITS).unwrap();

    assert_eq!(largest.domain_len, 1 << 18);
    assert_eq!(
        cfg.outer_field_term_bits(FIELD_BITS, &largest),
        MIN_PRODUCTION_BITS
    );

    let doubled = OuterGeometry {
        domain_len: 1 << 19,
        ..largest
    };

    assert!(doubled.domain_len.ilog2() <= MAX_OUTER_DOMAIN_LOG2);
    assert!(cfg.outer_field_term_bits(FIELD_BITS, &doubled) < MIN_PRODUCTION_BITS);
    assert!(cfg.outer_geom(12_000, 173_099, FIELD_BITS).is_err());
}

#[test]
fn dev_config_waives_floor() {
    let cfg = Config::dev();

    assert!(cfg.outer_geom(64, 32, FIELD_BITS).is_ok());
}
