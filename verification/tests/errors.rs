//! Each error, and an input that gives it.

use hekate::chiplets::bignum::bigint::divrem;
use hekate::chiplets::bignum::chiplet::service;
use hekate::chiplets::integer::arith::{
    generate_arithmetic_trace, ArithmeticOpcode, IntArithmeticChiplet, IntArithmeticLayout,
    IntArithmeticOp,
};
use hekate::chiplets::ram::{generate_ram_trace, MemoryEvent};
use hekate::config;
use hekate::config::Config;
use hekate::errors::Error;
use hekate::field::{Bit, Block128, Block32, Flat};
use hekate::hashers::DefaultHasher;
use hekate::merkle;
use hekate::merkle::MerkleTree;
use hekate::outer::{Masking, Pad};
use hekate::program::circuit::{Circuit, Col};
use hekate::program::expander::VirtualExpander;
use hekate::poly;
use hekate::poly::variant::PolyVariant;
use hekate::tensor::TensorProduct;
use hekate::trace;
use hekate::trace::{ColumnTrace, ColumnType, Trace, TraceBuilder, TraceColumn};

fn message_of(e: Error) -> &'static str {
    match e {
        Error::Protocol { message, .. } => message,
        _ => panic!("not a protocol error"),
    }
}

#[test]
fn trace_errors() {
    assert!(matches!(
        TraceBuilder::new(&[ColumnType::B32], 128),
        Err(Error::Trace(trace::Error::InvalidParameters { .. }))
    ));
    let mut tb = TraceBuilder::new(&[ColumnType::B32], 1).unwrap();
    assert!(matches!(
        tb.set_b32(1, 0, Block32(0)),
        Err(Error::Trace(trace::Error::ColumnIndexOutOfBounds {
            col_idx: 1,
            num_cols: 1
        }))
    ));
    assert!(matches!(
        tb.set_b32(0, 2, Block32(0)),
        Err(Error::Trace(trace::Error::RowIndexOutOfBounds {
            row_idx: 2,
            num_rows: 2
        }))
    ));
    match tb.set_bit(0, 0, Bit(1)) {
        Err(Error::Trace(trace::Error::ColumnTypeMismatch {
            col_idx,
            expected,
            got,
        })) => {
            assert_eq!(col_idx, 0);
            assert_eq!(expected, "Bit");
            assert_eq!(got, "B32");
        }
        _ => panic!("a bit does not go into a B32 column"),
    }
    let mut t = ColumnTrace::new(1).unwrap();
    assert!(matches!(
        t.add_column(TraceColumn::Bit(vec![Bit(0); 3])),
        Err(Error::Trace(trace::Error::ColumnLengthMismatch {
            expected_len: 2,
            got_len: 3
        }))
    ));
    assert_eq!(t.num_cols(), 0);
}

#[test]
fn config_errors() {
    let weak = Config {
        num_queries: 4,
        ..Config::prod()
    };
    assert!(matches!(
        weak.check_security(128, 1024),
        Err(Error::Config(config::Error::SecurityTooLow { .. }))
    ));
    assert!(matches!(
        Config::prod().check_security(128, 128),
        Err(Error::Config(config::Error::InsufficientSupport { .. }))
    ));
    let bad = Config {
        inv_rate: 3,
        ..Config::prod()
    };
    assert!(matches!(
        bad.check_security(128, 1024),
        Err(Error::Config(config::Error::InvalidInvRate { inv_rate: 3 }))
    ));
    assert!(matches!(
        Config::prod().outer_geom(0, 1, 128),
        Err(Error::Config(config::Error::EmptyOuterStatement))
    ));
    let none = Config {
        outer_queries: 0,
        ..Config::dev()
    };
    assert!(matches!(
        none.outer_geom(64, 32, 128),
        Err(Error::Config(config::Error::ZeroOuterQueries))
    ));
    assert!(matches!(
        Config::prod().outer_geom(64, 1 << 30, 128),
        Err(Error::Config(config::Error::OuterDomainTooLarge { .. }))
    ));
}

#[test]
fn polynomial_errors() {
    let data = vec![Block128(0).to_hardware(); 4];
    let point = vec![Flat::from_raw(Block128(1)); 3];
    assert!(matches!(
        PolyVariant::Dense(&data).evaluate(&point),
        Err(Error::Poly(poly::variant::Error::DomainSizeMismatch {
            expected_len: 8,
            got_len: 4
        }))
    ));
    let long = vec![Flat::from_raw(Block128(1)); 64];
    assert!(matches!(
        PolyVariant::Dense(&data).evaluate(&long),
        Err(Error::Poly(poly::variant::Error::DomainTooLarge { num_vars: 64 }))
    ));
    let eq = TensorProduct::new(vec![Flat::from_raw(Block128(1)); 2]);
    assert!(eq.evaluate_extension(&point).is_err());
}

#[test]
fn merkle_errors() {
    let leaves = [[1u8; 32], [2u8; 32], [3u8; 32], [4u8; 32]];
    let tree = MerkleTree::<Block128, DefaultHasher>::new(&leaves);
    assert!(matches!(
        tree.prove(4),
        Err(merkle::Error::LeafIndexOutOfBounds {
            leaf_index: 4,
            num_leaves: 4
        })
    ));
    assert!(matches!(
        tree.get_internal_root(1, 1),
        Err(merkle::Error::SubtreeUnaligned)
    ));
    assert!(matches!(
        tree.get_internal_root(4, 1),
        Err(merkle::Error::LeafIndexOutOfBounds { .. })
    ));
}

#[test]
fn subtrees_verify() {
    let leaves = [[1u8; 32], [2u8; 32], [3u8; 32], [4u8; 32]];
    let tree = MerkleTree::<Block128, DefaultHasher>::new(&leaves);
    let sub = tree.get_internal_root(2, 1).unwrap();
    let path = tree.prove_subtree(2, 1).unwrap();
    assert_eq!(path.len(), 1);
    assert!(MerkleTree::<Block128, DefaultHasher>::verify_subtree(
        &tree.root(),
        sub,
        2,
        1,
        &path
    ));
    assert!(!MerkleTree::<Block128, DefaultHasher>::verify_subtree(
        &tree.root(),
        sub,
        0,
        1,
        &path
    ));
}

#[test]
fn pads_run_out() {
    let mut pad = Pad::derive::<DefaultHasher>(&[3u8; 32], 1);
    let entry = pad.get(0).unwrap();
    assert_eq!(pad.len(), 1);
    let mut masking = Masking::On(&mut pad);
    let value = Block128(77).to_hardware();
    let masked = masking.mask(value).unwrap();
    assert_ne!(masked, value);
    assert_eq!(masked.plus(entry), value);
    assert_eq!(masking.consumed(), 1);
    assert_eq!(message_of(masking.mask(value).unwrap_err()), "one-time pad exhausted");
    let mut off = Masking::Off;
    assert_eq!(off.mask(value).unwrap(), value);
    assert!(!off.is_on());
}

#[test]
fn chiplet_errors() {
    assert_eq!(
        message_of(IntArithmeticChiplet::new(16, 16).err().unwrap()),
        "bit_width must be 32 or 64"
    );
    assert_eq!(
        message_of(IntArithmeticChiplet::new(32, 12).err().unwrap()),
        "num_rows must be a power of 2"
    );
    let ly = IntArithmeticLayout::compute(32);
    let wide = IntArithmeticOp::U64 {
        op: ArithmeticOpcode::ADD,
        a: 1,
        b: 2,
        request_idx: 0,
    };
    assert_eq!(
        message_of(generate_arithmetic_trace(&[wide], &ly, 2).err().unwrap()),
        "U64 op given with layout.bit_width != 64"
    );
    let narrow = IntArithmeticOp::U32 {
        op: ArithmeticOpcode::ADD,
        a: 1,
        b: 2,
        request_idx: 0,
    };
    let ly64 = IntArithmeticLayout::compute(64);
    assert_eq!(
        message_of(generate_arithmetic_trace(&[narrow, narrow, narrow], &ly64, 2).err().unwrap()),
        "ops overflow num_rows"
    );
    assert_eq!(
        message_of(generate_arithmetic_trace(&[narrow], &ly64, 2).err().unwrap()),
        "U32 op given with layout.bit_width != 32"
    );
    let twice = [MemoryEvent::write(1, 1, 5), MemoryEvent::write(1, 1, 6)];
    assert_eq!(
        message_of(generate_ram_trace(&twice, 4).err().unwrap()),
        "events not sorted by (addr, clk)"
    );
    let wrong = [MemoryEvent::write(1, 1, 5), MemoryEvent::read(1, 2, 6)];
    assert_eq!(
        message_of(generate_ram_trace(&wrong, 4).err().unwrap()),
        "memory consistency violated: read value differs from last write"
    );
    assert_eq!(
        message_of(generate_ram_trace(&wrong, 1).err().unwrap()),
        "too many events for trace size"
    );
    let mut q = vec![0u32; 1];
    let mut acc = vec![0u32; 2];
    assert_eq!(
        message_of(divrem(&[0, 1], &[1], &mut q, &mut acc).err().unwrap()),
        "quotient exceeds the modulus width: operand not reduced"
    );
}

#[test]
fn circuit_errors() {
    assert_eq!(
        message_of(Circuit::new("c", 12).err().unwrap()),
        "number of rows must be a power of two"
    );
    let mut cx = Circuit::new("c", 16).unwrap();
    assert_eq!(
        message_of(cx.call(&service(), &[Col(0)], Col(1)).err().unwrap()),
        "columns do not match the service's slots"
    );
    let expander = VirtualExpander::new().pass_through(1, ColumnType::B32);
    let mut out = Vec::new();
    assert_eq!(
        message_of(expander.parse_row(&[0, 0, 0], &mut out).err().unwrap()),
        "row length does not match the physical layout"
    );
    assert!(out.is_empty());
}
