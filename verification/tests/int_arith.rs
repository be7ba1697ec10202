//! Bitwise integer arithmetic as constraints.

use hekate::atoms::int_arith::{
    add_carry_chain, add_carry_chain_with_carry_in_gated, bit_packing, mod_add,
    mod_add_scratch_count, mod_reduction_scratch_count, mul_const, mul_const_scratch_widths,
    range_check, schoolbook_mul, schoolbook_mul_layout, sub_borrow_chain, sub_borrow_chain_gated,
    ModAddWitness, SchoolbookMulWitness,
};
use hekate::field::{Block128, Flat};
use hekate::program::constraint::{ConstraintSystem, Expr};

fn take_cols(cs: &mut ConstraintSystem, col_idx: &mut usize, n: usize) -> Vec<Expr> {
    let cols: Vec<_> = (*col_idx..*col_idx + n).map(|i| cs.col(i)).collect();
    *col_idx += n;

    cols
}

#[test]
fn add_carry_chain_constraint_count() {
    // 12-bit addition:
    // 12 sum + 12 carry + 1 carry_init = 25 constraints
    let mut cs = ConstraintSystem::new();
    let n = 12;
    let a: Vec<_> = (0..n).map(|i| cs.col(i)).collect();
    let b: Vec<_> = (0..n).map(|i| cs.col(n + i)).collect();
    let r: Vec<_> = (0..n).map(|i| cs.col(2 * n + i)).collect();
    let c: Vec<_> = (0..=n).map(|i| cs.col(3 * n + i)).collect();

    add_carry_chain(&mut cs, &a, &b, &r, &c);

    let ast = cs.build();

    // 1 (carry init) + n * 4 (bool_r + bool_c + sum + carry per bit) = 49
    assert_eq!(ast.roots.len(), 4 * n + 1);
}

#[test]
fn add_carry_chain_with_carry_in_gated_constraint_count() {
    let mut cs = ConstraintSystem::new();
    let n = 8;
    let s = cs.col(0);
    let a: Vec<_> = (0..n).map(|i| cs.col(1 + i)).collect();
    let b: Vec<_> = (0..n).map(|i| cs.col(1 + n + i)).collect();
    let r: Vec<_> = (0..n).map(|i| cs.col(1 + 2 * n + i)).collect();
    let c: Vec<_> = (0..=n).map(|i| cs.col(1 + 3 * n + i)).collect();

    add_carry_chain_with_carry_in_gated(&mut cs, s, &a, &b, &r, &c);

    let ast = cs.build();

    assert_eq!(ast.roots.len(), 4 * n);
}

#[test]
fn add_carry_chain_with_carry_in_gated_body_vanishes_when_selector_zero() {

    let mut cs = ConstraintSystem::new();
    let n = 4;
    let s = cs.col(0);
    let a: Vec<_> = (0..n).map(|i| cs.col(1 + i)).collect();
    let b: Vec<_> = (0..n).map(|i| cs.col(1 + n + i)).collect();
    let r: Vec<_> = (0..n).map(|i| cs.col(1 + 2 * n + i)).collect();
    let c: Vec<_> = (0..=n).map(|i| cs.col(1 + 3 * n + i)).collect();

    add_carry_chain_with_carry_in_gated(&mut cs, s, &a, &b, &r, &c);

    let ast = cs.build();

    let zero = Block128(0).to_hardware();
    let selector_off = zero;
    let garbage = Block128(0xDEADBEEF).to_hardware();

    let mut row: Vec<Flat<Block128>> = Vec::with_capacity(1 + 3 * n + (n + 1));
    row.push(selector_off);

    for _ in 0..3 * n {
        row.push(garbage);
    }

    for _ in 0..=n {
        row.push(garbage);
    }

    let evals = ast.evaluate(&row, &row);
    for (i, v) in evals.iter().enumerate() {
        assert_eq!(
            *v, zero,
            "constraint {i} non-zero on selector=0 garbage row"
        );
    }
}

#[test]
fn sub_borrow_chain_gated_constraint_count() {
    let mut cs = ConstraintSystem::new();
    let n = 8;
    let s = cs.col(0);
    let a: Vec<_> = (0..n).map(|i| cs.col(1 + i)).collect();
    let b: Vec<_> = (0..n).map(|i| cs.col(1 + n + i)).collect();
    let r: Vec<_> = (0..n).map(|i| cs.col(1 + 2 * n + i)).collect();
    let w: Vec<_> = (0..=n).map(|i| cs.col(1 + 3 * n + i)).collect();

    sub_borrow_chain_gated(&mut cs, s, &a, &b, &r, &w);

    let ast = cs.build();

    assert_eq!(ast.roots.len(), 4 * n + 1);
}

#[test]
fn sub_borrow_chain_gated_body_vanishes_when_selector_zero() {
    let mut cs = ConstraintSystem::new();
    let n = 4;
    let s = cs.col(0);
    let a: Vec<_> = (0..n).map(|i| cs.col(1 + i)).collect();
    let b: Vec<_> = (0..n).map(|i| cs.col(1 + n + i)).collect();
    let r: Vec<_> = (0..n).map(|i| cs.col(1 + 2 * n + i)).collect();
    let w: Vec<_> = (0..=n).map(|i| cs.col(1 + 3 * n + i)).collect();

    sub_borrow_chain_gated(&mut cs, s, &a, &b, &r, &w);

    let ast = cs.build();

    let zero = Block128(0).to_hardware();
    let selector_off = zero;
    let garbage = Block128(0xBADF00D).to_hardware();

    let mut row: Vec<Flat<Block128>> = Vec::with_capacity(1 + 3 * n + (n + 1));
    row.push(selector_off);

    for _ in 0..3 * n {
        row.push(garbage);
    }

    for _ in 0..=n {
        row.push(garbage);
    }

    let evals = ast.evaluate(&row, &row);
    for (i, v) in evals.iter().enumerate() {
        assert_eq!(
            *v, zero,
            "constraint {i} non-zero on selector=0 garbage row"
        );
    }
}

#[test]
fn sub_borrow_chain_constraint_count() {
    let mut cs = ConstraintSystem::new();
    let n = 8;
    let a: Vec<_> = (0..n).map(|i| cs.col(i)).collect();
    let b: Vec<_> = (0..n).map(|i| cs.col(n + i)).collect();
    let r: Vec<_> = (0..n).map(|i| cs.col(2 * n + i)).collect();
    let w: Vec<_> = (0..=n).map(|i| cs.col(3 * n + i)).collect();

    sub_borrow_chain(&mut cs, &a, &b, &r, &w);

    let ast = cs.build();

    // Same pattern as addition:
    // 1 + 4*n = 33
    assert_eq!(ast.roots.len(), 4 * n + 1);
}

#[test]
fn range_check_constraint_count() {
    let mut cs = ConstraintSystem::new();
    let n = 12;
    let v: Vec<_> = (0..n).map(|i| cs.col(i)).collect();
    let r: Vec<_> = (0..n).map(|i| cs.col(n + i)).collect();
    let w: Vec<_> = (0..=n).map(|i| cs.col(2 * n + i)).collect();

    range_check(&mut cs, &v, &r, &w, 3329);

    let ast = cs.build();

    // 1 (borrow init) + 4*n (bool_r + bool_w + result + borrow per bit) + 1 (final borrow = 0) = 50
    assert_eq!(ast.roots.len(), 4 * n + 2);
}

#[test]
fn mul_const_layout_q3329() {
    // q = 3329 = 0b110100000001
    // Set bits:
    // 0, 8, 10, 11 → popcount = 4
    let layout = mul_const_scratch_widths(12, 3329);

    assert_eq!(layout.scratch_result_widths.len(), 2); // popcount - 2
    assert_eq!(layout.scratch_carry_widths.len(), 3); // popcount - 1

    // Result width:
    // 24 (carry growth across 3 additions)
    assert_eq!(layout.result_width, 24);
}

#[test]
fn mul_const_layout_q8380417() {
    // q = 8380417 = 0b11111111110000000000001
    // Set bits:
    // 0, 13..22 → popcount = 11
    let layout = mul_const_scratch_widths(23, 8380417);

    assert_eq!(layout.scratch_result_widths.len(), 9); // popcount - 2
    assert_eq!(layout.scratch_carry_widths.len(), 10); // popcount - 1

    // Result width:
    // 46 (carry growth across 10 additions)
    assert_eq!(layout.result_width, 46);
}

#[test]
fn mul_const_constraint_count() {
    // Multiply 12-bit operand by 3329
    // (popcount 5 → 4 additions).
    let layout = mul_const_scratch_widths(12, 3329);
    let total_cols = 12 // operand
        + layout.result_width
        + layout.scratch_result_widths.iter().sum::<usize>()
        + layout.scratch_carry_widths.iter().sum::<usize>();

    let mut cs = ConstraintSystem::new();
    let mut col_idx = 0;
    let mut take = |n: usize| -> Vec<Expr> { take_cols(&mut cs, &mut col_idx, n) };

    let operand = take(12);
    let result = take(layout.result_width);

    let scratch_results: Vec<Vec<Expr>> = layout
        .scratch_result_widths
        .iter()
        .map(|&w| take(w))
        .collect();
    let scratch_carries: Vec<Vec<Expr>> = layout
        .scratch_carry_widths
        .iter()
        .map(|&w| take(w))
        .collect();

    let sr_refs: Vec<&[Expr]> = scratch_results.iter().map(|v| v.as_slice()).collect();
    let sc_refs: Vec<&[Expr]> = scratch_carries.iter().map(|v| v.as_slice()).collect();

    mul_const(&mut cs, &operand, &result, &sr_refs, &sc_refs, 3329);

    let ast = cs.build();

    // 3 additions (popcount-1=3), each
    // with (1 + 4*width) constraints
    // (carry_init + 4 per bit).
    let expected: usize = layout
        .scratch_carry_widths
        .iter()
        .map(|&cw| {
            let width = cw - 1;
            4 * width + 1
        })
        .sum();

    assert_eq!(ast.roots.len(), expected);

    let _ = total_cols; // suppress unused
}

#[test]
fn mod_reduction_layout_q3329() {
    let bl = mod_reduction_scratch_count(12, 3329);

    // Product width:
    // 24 (12-bit quotient × 12-bit
    // modulus, with carry growth).
    assert_eq!(bl.product_width, 24);
    assert_eq!(bl.add_carry_width, 25);
    assert_eq!(bl.range_result_width, 12);
    assert_eq!(bl.range_borrow_width, 13);
}

#[test]
fn ast_sharing_across_multiple_add_chains() {
    // Two independent 12-bit
    // additions sharing the same
    // ConstraintSystem should deduplicate
    // the constant nodes.
    let mut cs = ConstraintSystem::new();

    let a1: Vec<_> = (0..12).map(|i| cs.col(i)).collect();
    let b1: Vec<_> = (12..24).map(|i| cs.col(i)).collect();
    let r1: Vec<_> = (24..36).map(|i| cs.col(i)).collect();
    let c1: Vec<_> = (36..49).map(|i| cs.col(i)).collect();

    let a2: Vec<_> = (49..61).map(|i| cs.col(i)).collect();
    let b2: Vec<_> = (61..73).map(|i| cs.col(i)).collect();
    let r2: Vec<_> = (73..85).map(|i| cs.col(i)).collect();
    let c2: Vec<_> = (85..98).map(|i| cs.col(i)).collect();

    add_carry_chain(&mut cs, &a1, &b1, &r1, &c1);
    add_carry_chain(&mut cs, &a2, &b2, &r2, &c2);

    let ast = cs.build();

    // Two additions of
    // 12 bits = 2 * (4*12 + 1) = 98 constraints
    assert_eq!(ast.roots.len(), 98);

    // AST arena should be smaller than 2x
    // a single addition because the carry
    // formula structure (maj pattern) is
    // shared — the Mul nodes for a*b, a*c,
    // b*c have the same shape, though with
    // different column operands they won't
    // deduplicate (cell dedup only matches
    // same column index). Constants DO
    // deduplicate: the zero constant
    // for carry[0] is allocated once.
    //
    // Just verify the arena is non-empty and reasonable.
    assert!(!ast.arena.is_empty());
}

#[test]
fn schoolbook_mul_layout_12x12() {
    let layout = schoolbook_mul_layout(12, 12);

    // 12-bit × 12-bit → 24-bit product
    assert_eq!(layout.product_width, 24);
    assert_eq!(layout.pp0_width, 12);

    // 11 additions (b_width - 1)
    assert_eq!(layout.carry_widths.len(), 11);

    // 10 intermediate sums (b_width - 2)
    assert_eq!(layout.sum_widths.len(), 10);

    // Sum widths:
    // 14, 15, 16, ..., 23
    for (i, &w) in layout.sum_widths.iter().enumerate() {
        assert_eq!(w, 14 + i);
    }

    // Carry widths:
    // sum_width + 1
    for (i, &w) in layout.carry_widths.iter().enumerate() {
        assert_eq!(w, 15 + i);
    }
}

#[test]
fn schoolbook_mul_layout_23x23() {
    let layout = schoolbook_mul_layout(23, 23);

    assert_eq!(layout.product_width, 46);
    assert_eq!(layout.pp0_width, 23);
    assert_eq!(layout.carry_widths.len(), 22);
    assert_eq!(layout.sum_widths.len(), 21);
}

#[test]
fn schoolbook_mul_constraint_count_4x4() {
    // Small case:
    // 4-bit × 4-bit = 8-bit.
    let layout = schoolbook_mul_layout(4, 4);

    let mut cs = ConstraintSystem::new();
    let mut col_idx = 0;

    let mut take = |n: usize| -> Vec<Expr> { take_cols(&mut cs, &mut col_idx, n) };

    let a = take(4);
    let b = take(4);
    let product = take(layout.product_width);
    let pp0 = take(layout.pp0_width);

    let sums: Vec<Vec<Expr>> = layout.sum_widths.iter().map(|&w| take(w)).collect();
    let carries: Vec<Vec<Expr>> =
        layout.carry_widths.iter().map(|&w| take(w)).collect();

    let sum_refs: Vec<&[Expr]> = sums.iter().map(|v| v.as_slice()).collect();
    let carry_refs: Vec<&[Expr]> = carries.iter().map(|v| v.as_slice()).collect();

    schoolbook_mul(
        &mut cs,
        &a,
        &b,
        &product,
        &SchoolbookMulWitness {
            pp0: &pp0,
            sums: &sum_refs,
            carries: &carry_refs,
        },
    );

    let ast = cs.build();

    // pp0 materialization:
    // 4 × (boolean + constrain) = 8
    // 3 additions (b_width - 1):
    //   carry widths: [7, 8, 9]
    //   each: 4*(width - 1) + 1 constraints
    //   = 25 + 29 + 33 = 87
    // Total: 8 + 87 = 95
    let pp0_constraints = 2 * layout.pp0_width;
    let add_constraints: usize = layout.carry_widths.iter().map(|&cw| 4 * (cw - 1) + 1).sum();

    assert_eq!(ast.roots.len(), pp0_constraints + add_constraints,);
}

#[test]
fn mod_add_layout_q3329() {
    let layout = mod_add_scratch_count(12);

    assert_eq!(layout.result_width, 12);
    assert_eq!(layout.carry_width, 13);
    assert_eq!(layout.range_result_width, 12);
    assert_eq!(layout.range_borrow_width, 13);

    // 2×12 + 2×13 + 1 + 12 + 13 = 76
    assert_eq!(layout.total_scratch_bits, 76);
}

#[test]
fn mod_add_constraint_count_q3329() {
    let layout = mod_add_scratch_count(12);
    let mut cs = ConstraintSystem::new();

    let mut col_idx = 0;

    let mut take = |n: usize| -> Vec<Expr> { take_cols(&mut cs, &mut col_idx, n) };

    let a = take(12);
    let b = take(12);
    let result = take(12);
    let lhs_result = take(layout.result_width);
    let lhs_carry = take(layout.carry_width);
    let rhs_result = take(layout.result_width);
    let rhs_carry = take(layout.carry_width);
    let flag_col = take(1);
    let range_result = take(layout.range_result_width);
    let range_borrow = take(layout.range_borrow_width);

    mod_add(
        &mut cs,
        &a,
        &b,
        &result,
        &ModAddWitness {
            lhs_result: &lhs_result,
            lhs_carry: &lhs_carry,
            rhs_result: &rhs_result,
            rhs_carry: &rhs_carry,
            flag: flag_col[0],
            range_result: &range_result,
            range_borrow: &range_borrow,
        },
        3329,
    );

    let ast = cs.build();

    // flag boolean: 1
    // LHS add (12-bit):
    // 4*12 + 1 = 49
    // RHS add (12-bit):
    // 4*12 + 1 = 49
    // Equality:
    // 12 result bits + 1 carry = 13
    // Range check (12-bit):
    // 4*12 + 2 = 50
    // Total:
    // 1 + 49 + 49 + 13 + 50 = 162
    assert_eq!(ast.roots.len(), 162);
}

#[test]
fn bit_packing_constraint_count() {
    let mut cs = ConstraintSystem::new();
    let bus = cs.col(0);
    let bits: Vec<_> = (1..=12).map(|i| cs.col(i)).collect();

    bit_packing(&mut cs, bus, &bits);

    let ast = cs.build();

    // Single degree-1 constraint
    assert_eq!(ast.roots.len(), 1);
}

#[test]
fn schoolbook_mul_layout_8x12() {
    let layout = schoolbook_mul_layout(8, 12);

    assert_eq!(layout.product_width, 20);
    assert_eq!(layout.pp0_width, 8);

    // 11 additions (b_width - 1)
    assert_eq!(layout.carry_widths.len(), 11);

    // 10 intermediate sums (b_width - 2)
    assert_eq!(layout.sum_widths.len(), 10);
}
