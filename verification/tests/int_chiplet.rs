//! The integer arithmetic chiplet.

use hekate::chiplets::integer::arith::{
    generate_arithmetic_trace, ArithmeticOpcode, IntArithmeticChiplet, IntArithmeticLayout,
    IntArithmeticOp,
};
use hekate::field::{Block128, Flat};
use hekate::program::expander::VirtualExpander;
use hekate::trace::{ColumnTrace, ColumnType, TraceColumn};

fn physical_row_bytes(layout: &[ColumnType]) -> usize {
    layout.iter().map(|c| c.byte_size()).sum()
}

fn op_add(a: u32, b: u32) -> IntArithmeticOp {
    IntArithmeticOp::U32 {
        op: ArithmeticOpcode::ADD,
        a,
        b,
        request_idx: 0,
    }
}

fn op_sub(a: u32, b: u32) -> IntArithmeticOp {
    IntArithmeticOp::U32 {
        op: ArithmeticOpcode::SUB,
        a,
        b,
        request_idx: 0,
    }
}

fn op_and(a: u32, b: u32) -> IntArithmeticOp {
    IntArithmeticOp::U32 {
        op: ArithmeticOpcode::AND,
        a,
        b,
        request_idx: 0,
    }
}

fn op_xor(a: u32, b: u32) -> IntArithmeticOp {
    IntArithmeticOp::U32 {
        op: ArithmeticOpcode::XOR,
        a,
        b,
        request_idx: 0,
    }
}

fn op_not(a: u32) -> IntArithmeticOp {
    IntArithmeticOp::U32 {
        op: ArithmeticOpcode::NOT,
        a,
        b: 0,
        request_idx: 0,
    }
}

fn op_lt(a: u32, b: u32) -> IntArithmeticOp {
    IntArithmeticOp::U32 {
        op: ArithmeticOpcode::LT,
        a,
        b,
        request_idx: 0,
    }
}

fn val_b32(trace: &ColumnTrace, col: usize, row: usize) -> u128 {
    trace.columns[col].as_b32_slice().unwrap()[row].promote()
        .to_tower()
        .0
}

fn val_b64(trace: &ColumnTrace, col: usize, row: usize) -> u128 {
    trace.columns[col].as_b64_slice().unwrap()[row].promote()
        .to_tower()
        .0
}

fn extract_row_bytes(trace: &ColumnTrace, row: usize, buf: &mut Vec<u8>) {
    buf.clear();

    for col in trace.columns.iter() {
        match col {
            TraceColumn::Bit(v) => buf.push(v[row].0),
            TraceColumn::B8(v) => buf.push(v[row].into_raw().0),
            TraceColumn::B16(v) => buf.extend_from_slice(&v[row].into_raw().0.to_le_bytes()),
            TraceColumn::B32(v) => buf.extend_from_slice(&v[row].into_raw().0.to_le_bytes()),
            TraceColumn::B64(v) => buf.extend_from_slice(&v[row].into_raw().0.to_le_bytes()),
            TraceColumn::B128(v) => buf.extend_from_slice(&v[row].into_raw().0.to_le_bytes()),
        }
    }
}

fn expand_row(expander: &VirtualExpander, trace: &ColumnTrace, row: usize) -> Vec<Flat<Block128>> {
    let mut bytes = Vec::with_capacity(expander.physical_row_bytes());
    extract_row_bytes(trace, row, &mut bytes);

    let mut out = Vec::with_capacity(expander.num_virtual_columns());
    expander.parse_row(&bytes, &mut out).unwrap();

    out
}

#[test]
fn compute_32_indices() {
    let ly = IntArithmeticLayout::compute(32);

    assert_eq!(ly.a_bits, 0);
    assert_eq!(ly.b_bits, 32);
    assert_eq!(ly.res_bits, 64);
    assert_eq!(ly.carry_bits, 96);

    assert_eq!(ly.val_a, 128);
    assert_eq!(ly.val_b, 129);
    assert_eq!(ly.val_res, 130);
    assert_eq!(ly.carry_packed, 131);
    assert_eq!(ly.opcode, 132);
    assert_eq!(ly.request_idx, 133);

    assert_eq!(ly.s_output, 134);
    assert_eq!(ly.s_add, 135);
    assert_eq!(ly.s_sub, 136);
    assert_eq!(ly.s_and, 137);
    assert_eq!(ly.s_xor, 138);
    assert_eq!(ly.s_not, 139);
    assert_eq!(ly.s_lt, 140);

    assert_eq!(ly.num_virtual_columns, 141);
    assert_eq!(ly.num_physical_columns, 13);
}

#[test]
fn compute_64_indices() {
    let ly = IntArithmeticLayout::compute(64);

    assert_eq!(ly.a_bits, 0);
    assert_eq!(ly.b_bits, 64);
    assert_eq!(ly.res_bits, 128);
    assert_eq!(ly.carry_bits, 192);

    assert_eq!(ly.val_a, 256);
    assert_eq!(ly.val_b, 257);
    assert_eq!(ly.val_res, 258);
    assert_eq!(ly.carry_packed, 259);
    assert_eq!(ly.opcode, 260);
    assert_eq!(ly.request_idx, 261);

    assert_eq!(ly.s_output, 262);
    assert_eq!(ly.s_lt, 268);

    assert_eq!(ly.num_virtual_columns, 269);
    assert_eq!(ly.num_physical_columns, 13);
}

#[test]
fn physical_layout_32_is_31_bytes_per_row() {
    let ly = IntArithmeticLayout::compute(32);
    let phy = ly.build_physical_layout();

    assert_eq!(phy.len(), 13);
    assert_eq!(physical_row_bytes(&phy), 31);
}

#[test]
fn physical_layout_64_is_47_bytes_per_row() {
    let ly = IntArithmeticLayout::compute(64);
    let phy = ly.build_physical_layout();

    assert_eq!(phy.len(), 13);
    assert_eq!(physical_row_bytes(&phy), 47);
}

#[test]
fn physical_column_types_32() {
    let phy = IntArithmeticLayout::compute(32).build_physical_layout();
    let expected = [
        ColumnType::B32,
        ColumnType::B32,
        ColumnType::B32,
        ColumnType::B32,
        ColumnType::B32,
        ColumnType::B32,
        ColumnType::Bit,
        ColumnType::Bit,
        ColumnType::Bit,
        ColumnType::Bit,
        ColumnType::Bit,
        ColumnType::Bit,
        ColumnType::Bit,
    ];
    assert_eq!(phy, expected);
}

#[test]
fn physical_column_types_64() {
    let phy = IntArithmeticLayout::compute(64).build_physical_layout();
    let expected = [
        ColumnType::B64,
        ColumnType::B64,
        ColumnType::B64,
        ColumnType::B64,
        ColumnType::B32,
        ColumnType::B32,
        ColumnType::Bit,
        ColumnType::Bit,
        ColumnType::Bit,
        ColumnType::Bit,
        ColumnType::Bit,
        ColumnType::Bit,
        ColumnType::Bit,
    ];
    assert_eq!(phy, expected);
}

#[test]
fn virtual_layout_32_matches_expander() {
    let ly = IntArithmeticLayout::compute(32);
    let expander = ly.build_expander().expect("expander 32");

    assert_eq!(expander.num_virtual_columns(), 141);
    assert_eq!(expander.num_physical_columns(), 13);
    assert_eq!(expander.physical_row_bytes(), 31);
    assert_eq!(
        expander.virtual_layout(),
        ly.build_virtual_layout().as_slice()
    );
}

#[test]
fn virtual_layout_64_matches_expander() {
    let ly = IntArithmeticLayout::compute(64);
    let expander = ly.build_expander().expect("expander 64");

    assert_eq!(expander.num_virtual_columns(), 269);
    assert_eq!(expander.num_physical_columns(), 13);
    assert_eq!(expander.physical_row_bytes(), 47);
    assert_eq!(
        expander.virtual_layout(),
        ly.build_virtual_layout().as_slice()
    );
}

#[test]
fn operand_storage_selects_by_width() {
    assert_eq!(
        IntArithmeticLayout::compute(32).operand_storage(),
        ColumnType::B32
    );
    assert_eq!(
        IntArithmeticLayout::compute(64).operand_storage(),
        ColumnType::B64
    );
}

#[test]
fn new_rejects_invalid_bit_width() {
    assert!(IntArithmeticChiplet::new(16, 16).is_err());
    assert!(IntArithmeticChiplet::new(33, 16).is_err());
    assert!(IntArithmeticChiplet::new(128, 16).is_err());
}

#[test]
fn new_rejects_non_power_of_two_rows() {
    assert!(IntArithmeticChiplet::new(32, 10).is_err());
    assert!(IntArithmeticChiplet::new(32, 3).is_err());
}

#[test]
fn new_accepts_valid_shapes() {
    let chip32 = IntArithmeticChiplet::new(32, 16).unwrap();
    assert_eq!(chip32.num_columns(), 141);
    assert_eq!(chip32.num_rows(), 16);

    let chip64 = IntArithmeticChiplet::new(64, 8).unwrap();
    assert_eq!(chip64.num_columns(), 269);
    assert_eq!(chip64.num_rows(), 8);
}

#[test]
fn add_u32_basic_and_overflow() {
    let ly = IntArithmeticLayout::compute(32);
    let ops = vec![
        op_add(10, 20),
        op_add(u32::MAX, 1),
        op_add(u32::MAX, u32::MAX),
    ];

    let trace = generate_arithmetic_trace(&ops, &ly, 8).unwrap();

    assert_eq!(val_b32(&trace, 2, 0), 30);
    assert_eq!(val_b32(&trace, 2, 1), 0);
    assert_eq!(val_b32(&trace, 2, 2), 0xFFFFFFFEu128);
}

#[test]
fn sub_u32_basic_and_underflow() {
    let ly = IntArithmeticLayout::compute(32);
    let ops = vec![op_sub(50, 20), op_sub(10, 20), op_sub(50, 50)];

    let trace = generate_arithmetic_trace(&ops, &ly, 4).unwrap();

    assert_eq!(val_b32(&trace, 2, 0), 30);
    assert_eq!(val_b32(&trace, 2, 1), 0xFFFFFFF6u128);
    assert_eq!(val_b32(&trace, 2, 2), 0);
}

#[test]
fn bitwise_u32_ops() {
    let ly = IntArithmeticLayout::compute(32);
    let ops = vec![
        op_and(0xFFFF0000, 0x00FFFF00),
        op_xor(0xAAAAAAAA, 0x55555555),
        op_not(0),
    ];

    let trace = generate_arithmetic_trace(&ops, &ly, 4).unwrap();

    assert_eq!(val_b32(&trace, 2, 0), 0x00FF0000);
    assert_eq!(val_b32(&trace, 2, 1), 0xFFFFFFFF);
    assert_eq!(val_b32(&trace, 2, 2), 0xFFFFFFFF);
}

#[test]
fn lt_u32_boundaries() {
    let ly = IntArithmeticLayout::compute(32);
    let ops = vec![
        op_lt(10, 20),
        op_lt(20, 10),
        op_lt(20, 20),
        op_lt(0, u32::MAX),
    ];

    let trace = generate_arithmetic_trace(&ops, &ly, 4).unwrap();

    assert_eq!(val_b32(&trace, 2, 0), 1);
    assert_eq!(val_b32(&trace, 2, 1), 0);
    assert_eq!(val_b32(&trace, 2, 2), 0);
    assert_eq!(val_b32(&trace, 2, 3), 1);
}

#[test]
fn add_u64_basic_and_overflow() {
    let ly = IntArithmeticLayout::compute(64);
    let ops = vec![
        IntArithmeticOp::U64 {
            op: ArithmeticOpcode::ADD,
            a: 10,
            b: 20,
            request_idx: 0,
        },
        IntArithmeticOp::U64 {
            op: ArithmeticOpcode::ADD,
            a: u64::MAX,
            b: 1,
            request_idx: 1,
        },
        IntArithmeticOp::U64 {
            op: ArithmeticOpcode::ADD,
            a: u64::MAX,
            b: u64::MAX,
            request_idx: 2,
        },
    ];

    let trace = generate_arithmetic_trace(&ops, &ly, 4).unwrap();

    assert_eq!(val_b64(&trace, 2, 0), 30);
    assert_eq!(val_b64(&trace, 2, 1), 0);
    assert_eq!(val_b64(&trace, 2, 2), u64::MAX as u128 - 1);
}

#[test]
fn sub_u64_underflow() {
    let ly = IntArithmeticLayout::compute(64);
    let ops = vec![IntArithmeticOp::U64 {
        op: ArithmeticOpcode::SUB,
        a: 0,
        b: 1,
        request_idx: 0,
    }];

    let trace = generate_arithmetic_trace(&ops, &ly, 2).unwrap();

    assert_eq!(val_b64(&trace, 2, 0), u64::MAX as u128);
}

#[test]
fn trace_rejects_width_mismatch_u32_on_64() {
    let ly = IntArithmeticLayout::compute(64);
    let ops = vec![op_add(1, 2)];

    assert!(generate_arithmetic_trace(&ops, &ly, 2).is_err());
}

#[test]
fn trace_rejects_width_mismatch_u64_on_32() {
    let ly = IntArithmeticLayout::compute(32);
    let ops = vec![IntArithmeticOp::U64 {
        op: ArithmeticOpcode::ADD,
        a: 1,
        b: 2,
        request_idx: 0,
    }];

    assert!(generate_arithmetic_trace(&ops, &ly, 2).is_err());
}

#[test]
fn trace_rejects_ops_overflow_num_rows() {
    let ly = IntArithmeticLayout::compute(32);
    let ops = vec![op_add(1, 2), op_add(3, 4), op_add(5, 6)];

    assert!(generate_arithmetic_trace(&ops, &ly, 2).is_err());
}

#[test]
fn trace_rejects_non_power_of_two_rows() {
    let ly = IntArithmeticLayout::compute(32);
    let ops = vec![op_add(1, 2)];

    assert!(generate_arithmetic_trace(&ops, &ly, 3).is_err());
}

#[test]
fn constraints_satisfied_on_u32_honest_trace() {
    let chiplet = IntArithmeticChiplet::new(32, 8).unwrap();
    let ly = chiplet.layout().clone();
    let ops = vec![
        op_add(10, 20),
        op_sub(100, 50),
        op_and(0xFF, 0x0F),
        op_xor(0xAA, 0x55),
        op_not(0),
        op_lt(10, 20),
    ];

    let trace = generate_arithmetic_trace(&ops, &ly, 8).unwrap();
    let expander = chiplet.virtual_expander().unwrap();
    let ast = chiplet.constraint_ast();

    let rows: Vec<Vec<Flat<Block128>>> = (0..8).map(|r| expand_row(expander, &trace, r)).collect();

    for row in 0..8 {
        let next_row = (row + 1) % 8;
        let evals = ast.evaluate(&rows[row], &rows[next_row]);

        for (i, val) in evals.iter().enumerate() {
            assert_eq!(
                *val,
                Flat::from_raw(Block128(0)),
                "constraint {i} failed at row {row} (u32)",
            );
        }
    }
}

#[test]
fn constraints_satisfied_on_u64_honest_trace() {
    let chiplet = IntArithmeticChiplet::new(64, 4).unwrap();
    let ly = chiplet.layout().clone();
    let ops = vec![
        IntArithmeticOp::U64 {
            op: ArithmeticOpcode::ADD,
            a: 0xDEADBEEF,
            b: 0xCAFEBABE,
            request_idx: 0,
        },
        IntArithmeticOp::U64 {
            op: ArithmeticOpcode::SUB,
            a: 100,
            b: 200,
            request_idx: 1,
        },
        IntArithmeticOp::U64 {
            op: ArithmeticOpcode::LT,
            a: u64::MAX - 1,
            b: u64::MAX,
            request_idx: 2,
        },
    ];

    let trace = generate_arithmetic_trace(&ops, &ly, 4).unwrap();
    let expander = chiplet.virtual_expander().unwrap();
    let ast = chiplet.constraint_ast();

    let rows: Vec<Vec<Flat<Block128>>> = (0..4).map(|r| expand_row(expander, &trace, r)).collect();

    for row in 0..4 {
        let next_row = (row + 1) % 4;
        let evals = ast.evaluate(&rows[row], &rows[next_row]);

        for (i, val) in evals.iter().enumerate() {
            assert_eq!(
                *val,
                Flat::from_raw(Block128(0)),
                "constraint {i} failed at row {row} (u64)",
            );
        }
    }
}
