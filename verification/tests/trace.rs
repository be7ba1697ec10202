//! Traces, their columns and their builder.

use hekate::errors;
use hekate::field::{Bit, Block128, Block16, Block32, Block64, Block8, Flat};
use hekate::trace::{
    ColumnTrace, ColumnType, Error, IntoTraceColumn, Trace, TraceBuilder, TraceColumn,
};

fn create_mock_trace(num_vars: usize) -> ColumnTrace {
    ColumnTrace::new(num_vars).unwrap()
}

#[test]
fn trace_construction_basic() {
    let num_vars = 3;
    let mut trace = create_mock_trace(num_vars);

    let col_data = vec![Block128(1); 8];
    trace.add_column(col_data.into_trace_column()).unwrap();

    assert_eq!(trace.num_rows().unwrap(), 8);
    assert_eq!(trace.num_cols(), 1);
    assert_eq!(trace.num_vars, 3);
}

#[test]
fn trace_add_column_wrong_len() {
    let num_vars = 2;
    let mut trace = create_mock_trace(num_vars);

    let col_data = vec![Block128(0); 5];
    let err = trace
        .add_column(col_data.into_trace_column())
        .expect_err("Expected length mismatch error");

    assert!(matches!(
        err,
        errors::Error::Trace(Error::ColumnLengthMismatch { .. })
    ));
}

#[test]
fn trace_get_element_mixed_types() {
    let num_vars = 1;
    let mut trace = create_mock_trace(num_vars);

    trace
        .add_column(TraceColumn::Bit(vec![Bit(0), Bit(1)]))
        .unwrap();
    trace
        .add_column(vec![Block32(10), Block32(20)].into_trace_column())
        .unwrap();

    let val0_r0: Flat<Block128> = trace.get_element(0, 0).unwrap();
    let val0_r1: Flat<Block128> = trace.get_element(0, 1).unwrap();
    let val1_r0: Flat<Block128> = trace.get_element(1, 0).unwrap();
    let val1_r1: Flat<Block128> = trace.get_element(1, 1).unwrap();

    assert_eq!(val0_r0.into_raw(), Block128(0));
    assert_eq!(val0_r1.into_raw(), Block128(1));

    let expected_10 = Block32(10).to_hardware().promote().into_raw();
    let expected_20 = Block32(20).to_hardware().promote().into_raw();

    assert_eq!(val1_r0.into_raw(), expected_10);
    assert_eq!(val1_r1.into_raw(), expected_20);
}

#[test]
fn get_element_oob_row() {
    let mut trace = create_mock_trace(1);
    trace
        .add_column(TraceColumn::Bit(vec![Bit(0); 2]))
        .unwrap();
    trace
        .get_element(0, 2)
        .expect_err("Expected out-of-bounds row error");
}

#[test]
fn get_element_oob_col() {
    let trace = create_mock_trace(1);
    trace
        .get_element(0, 0)
        .expect_err("Expected out-of-bounds column error");
}

// ===========================================
// SAFETY & SLICE TESTS
// ===========================================

#[test]
fn get_column_slice_correct_type() {
    let mut trace = create_mock_trace(2);
    let data = vec![
        Block32(1),
        Block32(2),
        Block32(3),
        Block32(4),
    ];
    trace.add_column(data.clone().into_trace_column()).unwrap();

    let expected_hw: Vec<Flat<Block32>> = data.into_iter().map(|x| x.to_hardware()).collect();

    let slice: &[Flat<Block32>] = trace.get_column_slice(0).unwrap();
    assert_eq!(slice, expected_hw.as_slice());
}

#[test]
fn get_column_slice_wrong_type() {
    let mut trace = create_mock_trace(1);
    trace
        .add_column(vec![Block128(0); 2].into_trace_column())
        .unwrap();

    trace
        .get_column_slice::<Flat<Block32>>(0)
        .expect_err("Expected column type mismatch error");
}

#[test]
fn trace_stores_hardware_basis() {
    let mut trace = create_mock_trace(2);

    let tower_data = vec![
        Block32(42),
        Block32(13),
        Block32(255),
        Block32(1),
    ];

    let expected_hardware: Vec<Block32> = tower_data
        .iter()
        .map(|x| x.to_hardware().into_raw())
        .collect();

    trace.add_column(tower_data.into_trace_column()).unwrap();

    let stored: &[Flat<Block32>] = trace.get_column_slice(0).unwrap();

    for (i, (&stored_val, &expected_val)) in
        stored.iter().zip(expected_hardware.iter()).enumerate()
    {
        assert_eq!(
            stored_val.into_raw(),
            expected_val,
            "Row {}: stored value {:?} != expected hardware {:?}",
            i,
            stored_val,
            expected_val
        );
    }
}

#[test]
fn trace_hardware_basis_homomorphism() {
    let mut trace = create_mock_trace(3);

    let a_tower = vec![Block32(5); 8];
    let b_tower = vec![Block32(7); 8];

    trace
        .add_column(a_tower.clone().into_trace_column())
        .unwrap();
    trace
        .add_column(b_tower.clone().into_trace_column())
        .unwrap();

    let a_stored: &[Flat<Block32>] = trace.get_column_slice(0).unwrap();
    let b_stored: &[Flat<Block32>] = trace.get_column_slice(1).unwrap();

    let a_hw_expected = a_tower[0].to_hardware().into_raw();
    let b_hw_expected = b_tower[0].to_hardware().into_raw();

    assert_eq!(a_stored[0].into_raw(), a_hw_expected);
    assert_eq!(b_stored[0].into_raw(), b_hw_expected);

    let product_hw = hekate_math::Flat::from_raw(hekate_math::Block32(a_stored[0].0.0))
        * hekate_math::Flat::from_raw(hekate_math::Block32(b_stored[0].0.0));
    let product_tower =
        hekate_math::Block32(a_tower[0].0) * hekate_math::Block32(b_tower[0].0);
    let product_expected = Block32(product_tower.0).to_hardware().into_raw();

    assert_eq!(product_hw.into_raw().0, product_expected.0);
}

// =========================================================
// TRACE BUILDER TESTS
// =========================================================

#[test]
fn trace_builder_construction_and_auto_padding() {
    let layout = &[ColumnType::B32, ColumnType::Bit];
    let tb = TraceBuilder::new(layout, 2).unwrap(); // 4 rows
    assert_eq!(tb.num_rows(), 4);

    let trace = tb.build();
    assert_eq!(trace.num_cols(), 2);
    assert_eq!(trace.num_rows().unwrap(), 4);

    // All values should be zero (auto-padding)
    assert!(trace.columns[0].is_all_zeros());
    assert!(trace.columns[1].is_all_zeros());
}

#[test]
fn trace_builder_set_b32_stores_hardware_basis() {
    let layout = &[ColumnType::B32];
    let mut tb = TraceBuilder::new(layout, 1).unwrap(); // 2 rows

    tb.set_b32(0, 0, Block32(42)).unwrap();
    tb.set_b32(0, 1, Block32(13)).unwrap();

    let trace = tb.build();
    let stored: &[Flat<Block32>] = trace.get_column_slice(0).unwrap();

    assert_eq!(stored[0], Block32(42).to_hardware());
    assert_eq!(stored[1], Block32(13).to_hardware());
}

#[test]
fn trace_builder_column_ordering_matches_schema() {
    let layout = &[ColumnType::Bit, ColumnType::B32, ColumnType::B128];
    let mut tb = TraceBuilder::new(layout, 1).unwrap();

    tb.set_bit(0, 0, Bit(1)).unwrap();
    tb.set_b32(1, 0, Block32(99)).unwrap();
    tb.set_b128(2, 0, Block128(7)).unwrap();

    let trace = tb.build();
    assert_eq!(trace.columns[0].column_type(), ColumnType::Bit);
    assert_eq!(trace.columns[1].column_type(), ColumnType::B32);
    assert_eq!(trace.columns[2].column_type(), ColumnType::B128);
}

#[test]
fn trace_builder_type_mismatch_returns_error() {
    let layout = &[ColumnType::Bit];
    let mut tb = TraceBuilder::new(layout, 1).unwrap();

    let err = tb.set_b32(0, 0, Block32(0));
    assert!(err.is_err());
}

#[test]
fn trace_builder_row_out_of_bounds_returns_error() {
    let layout = &[ColumnType::B32];
    let mut tb = TraceBuilder::new(layout, 1).unwrap(); // 2 rows

    let err = tb.set_b32(0, 2, Block32(0));
    assert!(err.is_err());
}

#[test]
fn trace_builder_col_out_of_bounds_returns_error() {
    let layout = &[ColumnType::B32];
    let mut tb = TraceBuilder::new(layout, 1).unwrap();

    let err = tb.set_b32(1, 0, Block32(0));
    assert!(err.is_err());
}

#[test]
fn trace_builder_fill_selector() {
    let layout = &[ColumnType::Bit];
    let mut tb = TraceBuilder::new(layout, 2).unwrap(); // 4 rows

    tb.fill_selector(0, 3).unwrap(); // rows 0,1,2 = ONE

    let trace = tb.build();
    let bits = trace.columns[0].as_bit_slice().unwrap();
    assert_eq!(bits[0], Bit(1));
    assert_eq!(bits[1], Bit(1));
    assert_eq!(bits[2], Bit(1));
    assert_eq!(bits[3], Bit(0)); // padding
}

#[test]
fn trace_builder_push_mode() {
    let layout = &[ColumnType::B32, ColumnType::Bit];
    let mut tb = TraceBuilder::new(layout, 1).unwrap(); // 2 rows

    tb.push_b32(0, Block32(10)).unwrap();
    tb.push_b32(0, Block32(20)).unwrap();
    tb.push_bit(1, Bit(1)).unwrap();
    // row 1 of col 1 stays zero (auto-pad)

    let trace = tb.build();
    let b32s: &[Flat<Block32>] = trace.get_column_slice(0).unwrap();
    assert_eq!(b32s[0], Block32(10).to_hardware());
    assert_eq!(b32s[1], Block32(20).to_hardware());

    let bits = trace.columns[1].as_bit_slice().unwrap();
    assert_eq!(bits[0], Bit(1));
    assert_eq!(bits[1], Bit(0));
}

#[test]
fn trace_builder_set_b32_array() {
    let layout = &[ColumnType::B32, ColumnType::B32, ColumnType::B32];
    let mut tb = TraceBuilder::new(layout, 1).unwrap(); // 2 rows

    let vals = [
        Block32(1),
        Block32(2),
        Block32(3),
    ];
    tb.set_b32_array(0, 0, &vals).unwrap();

    let trace = tb.build();
    for (i, &expected) in vals.iter().enumerate() {
        let stored: &[Flat<Block32>] = trace.get_column_slice(i).unwrap();
        assert_eq!(stored[0], expected.to_hardware());
    }
}

#[test]
fn trace_builder_set_b8() {
    let layout = &[ColumnType::B8];
    let mut tb = TraceBuilder::new(layout, 1).unwrap();

    tb.set_b8(0, 0, Block8(0xAB)).unwrap();
    tb.set_b8(0, 1, Block8(0xCD)).unwrap();

    let trace = tb.build();
    let stored: &[Flat<Block8>] = trace.get_column_slice(0).unwrap();
    assert_eq!(stored[0], Block8(0xAB).to_hardware());
    assert_eq!(stored[1], Block8(0xCD).to_hardware());
}

#[test]
fn trace_builder_set_b16() {
    let layout = &[ColumnType::B16];
    let mut tb = TraceBuilder::new(layout, 1).unwrap();

    tb.set_b16(0, 0, Block16(1000)).unwrap();
    tb.set_b16(0, 1, Block16(2000)).unwrap();

    let trace = tb.build();
    let stored: &[Flat<Block16>] = trace.get_column_slice(0).unwrap();
    assert_eq!(stored[0], Block16(1000).to_hardware());
    assert_eq!(stored[1], Block16(2000).to_hardware());
}

#[test]
fn trace_builder_set_b64() {
    let layout = &[ColumnType::B64];
    let mut tb = TraceBuilder::new(layout, 1).unwrap();

    tb.set_b64(0, 0, Block64(0xDEADBEEF_CAFEBABE)).unwrap();

    let trace = tb.build();
    let stored: &[Flat<Block64>] = trace.get_column_slice(0).unwrap();
    assert_eq!(stored[0], Block64(0xDEADBEEF_CAFEBABE).to_hardware());
    assert_eq!(stored[1], Block64(0).to_hardware()); // auto-padding
}

#[test]
fn trace_builder_set_b128() {
    let layout = &[ColumnType::B128];
    let mut tb = TraceBuilder::new(layout, 1).unwrap();

    let val = Block128(0xFF);
    tb.set_b128(0, 0, val).unwrap();

    let trace = tb.build();
    let stored: &[Flat<Block128>] = trace.get_column_slice(0).unwrap();
    assert_eq!(stored[0], val.to_hardware());
}

#[test]
fn trace_builder_push_all_types() {
    let layout = &[
        ColumnType::Bit,
        ColumnType::B8,
        ColumnType::B16,
        ColumnType::B32,
        ColumnType::B64,
        ColumnType::B128,
    ];
    let mut tb = TraceBuilder::new(layout, 1).unwrap(); // 2 rows

    tb.push_bit(0, Bit(1)).unwrap();
    tb.push_b8(1, Block8(0x42)).unwrap();
    tb.push_b16(2, Block16(1234)).unwrap();
    tb.push_b32(3, Block32(5678)).unwrap();
    tb.push_b64(4, Block64(9999)).unwrap();
    tb.push_b128(5, Block128(77)).unwrap();

    let trace = tb.build();
    assert_eq!(trace.num_cols(), 6);

    let bits = trace.columns[0].as_bit_slice().unwrap();
    assert_eq!(bits[0], Bit(1));
    assert_eq!(bits[1], Bit(0)); // auto-pad

    let b8s: &[Flat<Block8>] = trace.get_column_slice(1).unwrap();
    assert_eq!(b8s[0], Block8(0x42).to_hardware());

    let b16s: &[Flat<Block16>] = trace.get_column_slice(2).unwrap();
    assert_eq!(b16s[0], Block16(1234).to_hardware());

    let b32s: &[Flat<Block32>] = trace.get_column_slice(3).unwrap();
    assert_eq!(b32s[0], Block32(5678).to_hardware());

    let b64s: &[Flat<Block64>] = trace.get_column_slice(4).unwrap();
    assert_eq!(b64s[0], Block64(9999).to_hardware());

    let b128s: &[Flat<Block128>] = trace.get_column_slice(5).unwrap();
    assert_eq!(b128s[0], Block128(77).to_hardware());
}

#[test]
fn trace_builder_type_mismatch_all_setters() {
    // B32 column, every non-B32 setter should fail
    let layout = &[ColumnType::B32];
    let mut tb = TraceBuilder::new(layout, 1).unwrap();

    assert!(tb.set_bit(0, 0, Bit(1)).is_err());
    assert!(tb.set_b8(0, 0, Block8(1)).is_err());
    assert!(tb.set_b16(0, 0, Block16(1)).is_err());
    assert!(tb.set_b64(0, 0, Block64(1)).is_err());
    assert!(tb.set_b128(0, 0, Block128(1)).is_err());

    // Correct type succeeds
    assert!(tb.set_b32(0, 0, Block32(1)).is_ok());
}

#[test]
fn trace_builder_array_setters_all_types() {
    let layout = &[
        ColumnType::Bit,
        ColumnType::Bit,
        ColumnType::B8,
        ColumnType::B8,
        ColumnType::B64,
        ColumnType::B64,
        ColumnType::B128,
        ColumnType::B128,
    ];
    let mut tb = TraceBuilder::new(layout, 1).unwrap();

    tb.set_bit_array(0, 0, &[Bit(1), Bit(0)]).unwrap();
    tb.set_b8_array(2, 0, &[Block8(10), Block8(20)]).unwrap();
    tb.set_b64_array(4, 0, &[Block64(100), Block64(200)])
        .unwrap();
    tb.set_b128_array(6, 0, &[Block128(1), Block128(2)])
        .unwrap();

    let trace = tb.build();

    let bits = trace.columns[0].as_bit_slice().unwrap();
    assert_eq!(bits[0], Bit(1));

    let bits1 = trace.columns[1].as_bit_slice().unwrap();
    assert_eq!(bits1[0], Bit(0));

    let b8s: &[Flat<Block8>] = trace.get_column_slice(2).unwrap();
    assert_eq!(b8s[0], Block8(10).to_hardware());

    let b8s1: &[Flat<Block8>] = trace.get_column_slice(3).unwrap();
    assert_eq!(b8s1[0], Block8(20).to_hardware());
}

#[test]
fn trace_builder_invalid_num_vars() {
    let layout = &[ColumnType::B32];
    // num_vars too large to shift
    assert!(TraceBuilder::new(layout, 128).is_err());
}
