//! What holds of several functions together, on concrete values.

use hekate::aes::sbox_rom::{SboxRomChiplet, SBOX_BUS_WAIVER};
use hekate::atoms::int_arith::{
    bit_packing, mul_const, schoolbook_mul, schoolbook_mul_layout, SchoolbookMulWitness,
};
use hekate::chiplets::bignum::chiplet::ModexpChiplet;
use hekate::chiplets::bignum::modexp::Modexp;
use hekate::chiplets::bignum::modmul::LIMBS32;
use hekate::chiplets::bignum::rows::RowValues;
use hekate::chiplets::integer::arith::IntArithmeticChiplet;
use hekate::chiplets::ram::air::{EVENT_BUS_WAIVER, VALUE_BUS_WAIVER};
use hekate::chiplets::ram::{generate_ram_trace, MemoryEvent, RamChiplet};
use hekate::chiplets::rom::RomChiplet;
use hekate::config::Config;
use hekate::expander_matrix::matrix::generate_expander_matrix;
use hekate::field::{Bit, Block128, Block16, Block32, Block64, Block8, Flat};
use hekate::hashers::DefaultHasher;
use hekate::merkle::MerkleTree;
use hekate::outer::Pad;
use hekate::poly::univariate::UnivariatePoly;
use hekate::poly::variant::PolyVariant;
use hekate::program::constraint::{ConstraintSystem, Expr};
use hekate::program::permutation::{BusKind, Source, REQUEST_IDX_LABEL};
use hekate::proofs::{
    BrakedownCommitment, BrakedownProof, EvalBatchProof, LogUpAux, MasterEvals, SumcheckProof,
};
use hekate::protocol::draw_lookup_bus_points;
use hekate::tensor::TensorProduct;
use hekate::trace::{ColumnTrace, ColumnType, TraceColumn};
use hekate::transcript::Transcript;
use hekate::utils::compute_split_vars;

type Tree = MerkleTree<Block128, DefaultHasher>;

fn hw(x: u128) -> Flat<Block128> {
    Block128(x).to_hardware()
}

#[test]
fn split_is_cheapest_for_light_rows_too() {
    // 17 · 2^c + 2^(10 - c): 324 at 2, 264 at 3, 336 at 4.
    assert_eq!(compute_split_vars(10, 1, 1, 1), 3);
    assert_eq!(compute_split_vars(4, 1, 1, 1), 1);
    assert_eq!(compute_split_vars(10, 0, 1, 0), 3);
    assert_eq!(compute_split_vars(10, 1, 33, 1), 6);
    for row_bytes in 1..9 {
        let cost = |c: usize| 17u128 * (1 << c) + row_bytes as u128 * (1 << (12 - c));
        let least = (1..=12).min_by_key(|&c| cost(c)).unwrap();
        assert_eq!(compute_split_vars(12, 1, 1, row_bytes), least);
    }
}

#[test]
fn integer_bus_takes_each_column_to_its_label() {
    let chiplet = IntArithmeticChiplet::new(32, 8).unwrap();
    let ly = chiplet.layout().clone();
    let checks = chiplet.permutation_checks();
    assert_eq!(checks.len(), 1);
    assert_eq!(checks[0].0, chiplet.bus_id());
    assert_eq!(checks[0].1.kind, BusKind::Permutation);
    assert_eq!(checks[0].1.selector, Some(ly.s_output));
    assert!(checks[0].1.clock_waiver.is_none());
    assert_eq!(
        checks[0].1.sources,
        vec![
            (Source::Column(ly.val_a), "kappa_val_a"),
            (Source::Column(ly.val_b), "kappa_val_b"),
            (Source::Column(ly.val_res), "kappa_val_res"),
            (Source::Column(ly.opcode), "kappa_opcode"),
            (Source::Column(ly.request_idx), REQUEST_IDX_LABEL),
        ]
    );
}

#[test]
fn buses_without_a_clock_say_why() {
    assert_eq!(RamChiplet::linking_spec().clock_waiver, Some(EVENT_BUS_WAIVER));
    assert_eq!(
        RamChiplet::value_binding_spec().clock_waiver,
        Some(VALUE_BUS_WAIVER)
    );
    assert!(EVENT_BUS_WAIVER.contains("CLK_B0..3 columns sorted by AIR"));
    assert!(VALUE_BUS_WAIVER.contains("value binding pinned by sorted-by-(addr,clk)"));
    let ram = RamChiplet::new(4).permutation_checks();
    assert_eq!(ram[0].1.clock_waiver, Some(EVENT_BUS_WAIVER));
    let sbox = SboxRomChiplet::new(16).unwrap().permutation_checks();
    assert_eq!(sbox[0].1.clock_waiver, Some(SBOX_BUS_WAIVER));
    assert!(SBOX_BUS_WAIVER.contains("phantom blocks caught at link+key v3"));
    assert!(RomChiplet::new(4).permutation_checks()[0].1.clock_waiver.is_none());
}

#[test]
fn degrees_are_those_of_the_products() {
    let mut cs = ConstraintSystem::new();
    let a = cs.col(0);
    let b = cs.next(1);
    let c = cs.constant(Block128(9));
    cs.assert_boolean(a);
    let ab = cs.times(a, b);
    let abc = cs.times(ab, c);
    cs.assert_zero_when(a, abc);
    cs.assert_one_hot(&[a, b]);
    let ast = cs.build();
    assert_eq!(ast.roots.len(), 3);
    assert_eq!(ast.max_degree(), 3);
    let mut none = ConstraintSystem::new();
    none.constant(Block128(1));
    assert_eq!(none.build().max_degree(), 0);
}

fn limbs(low: u64) -> [u32; LIMBS32] {
    let mut out = [0u32; LIMBS32];
    out[0] = low as u32;
    out[1] = (low >> 32) as u32;
    out
}

#[test]
fn rows_walked_from_the_last_block_pass_their_check() {
    let chiplet = ModexpChiplet::new().unwrap();
    let m = Modexp::new(&limbs(0xffff_fffb), &limbs(0x1234_5678)).unwrap();
    let mut v = RowValues::zeroed();
    for row in 992..1024 {
        v = m.row(chiplet.basis(), row, &v);
    }
    for row in 0..32 {
        v = m.row(chiplet.basis(), row, &v);
        assert!(v.check().is_ok(), "row {row}");
    }
    assert_eq!(v.rc_next, 0);
    assert_eq!(v.cto[0].to_tower(), Block128(1));
    assert_eq!(v.cto[1].to_tower(), Block128(1));
}

#[test]
fn blank_rows_are_blank() {
    let v = RowValues::zeroed();
    assert_eq!((v.xs, v.q, v.rc, v.rcm, v.rc_next), (0, 0, 0, 0, 0));
    assert!(v.dg.iter().all(|c| c.len() == 16 && c.iter().all(|x| x.0 .0 == 0)));
    assert!(v.ce.iter().all(|c| c.len() == 35 && c.iter().all(|x| x.0 .0 == 0)));
    assert!(v.fr.iter().all(|c| c.len() == 16 && c.iter().all(|x| x.0 .0 == 0)));
    assert!(v.lch.iter().all(|c| c.len() == 16 && c.iter().all(|x| x.0 .0 == 0)));
    assert!(v.co.iter().all(|x| x.to_tower() == Block128(1)));
}

#[test]
fn bus_points_come_in_order_of_name() {
    let entries = [
        ("ram".to_string(), 4u64),
        ("aes".to_string(), 2u64),
        ("ra".to_string(), 8u64),
        ("aes".to_string(), 16u64),
        ("é".to_string(), 1u64),
    ];
    let mut t = Transcript::<DefaultHasher>::new(b"p");
    let points = draw_lookup_bus_points::<Block128, DefaultHasher>(&mut t, &entries).unwrap();
    let names: Vec<&str> = points.iter().map(|p| p.0.as_str()).collect();
    assert_eq!(names, vec!["aes", "ra", "ram", "é"]);
    let lengths: Vec<usize> = points.iter().map(|p| p.1.len()).collect();
    assert_eq!(lengths, vec![4, 3, 2, 0]);
}

#[test]
fn allocated_trees_hold_zero_leaves() {
    let (mut tree, offset) = Tree::allocate_tree(3);
    assert_eq!(offset, 3);
    tree.build_layers(offset);
    assert_eq!(tree.root(), Tree::new(&[[0u8; 32]; 4]).root());
}

#[test]
fn spelled_out_padding_keeps_the_root() {
    let leaves = [[1u8; 32], [2u8; 32], [3u8; 32]];
    let padded = [[1u8; 32], [2u8; 32], [3u8; 32], [0u8; 32]];
    assert_eq!(Tree::new(&leaves).root(), Tree::new(&padded).root());
}

#[test]
fn subtrees_past_the_leaves_stand_for_lower_nodes() {
    let leaves: Vec<[u8; 32]> = (0..8u8).map(|i| [i; 32]).collect();
    let tree = Tree::new(&leaves);
    // Place 3 of a layer of two is the second node of the layer below it.
    assert_eq!(tree.prove_subtree(12, 2).unwrap(), tree.prove_subtree(2, 1).unwrap());
    // Place 9 of it is the fourth leaf.
    assert_eq!(tree.prove_subtree(36, 2).unwrap(), tree.prove(3).unwrap());
}

#[test]
fn interpolation_is_the_only_polynomial() {
    // 7 + 5·z + 3·z^2 through its values at 0, 1 and 2.
    let p = |z: Block128| {
        Block128(7)
            .plus(Block128(5).times(z))
            .plus(Block128(3).times(z.times(z)))
    };
    let evals = (0..3u128).map(|i| p(Block128(i))).collect();
    let q = UnivariatePoly::new(evals);
    for z in [3u128, 200, 1 << 77, u128::MAX] {
        assert_eq!(q.evaluate(Block128(z)), p(Block128(z)));
    }
}

#[test]
fn products_by_a_constant_have_one_witness() {
    // 3 · 7 = 3 + 6 + 12, through 9.
    let mut cs = ConstraintSystem::new();
    let cells: Vec<Expr> = (0..22).map(|i| cs.col(i)).collect();
    mul_const(
        &mut cs,
        &cells[0..2],
        &cells[2..7],
        &[&cells[7..11]],
        &[&cells[11..16], &cells[16..22]],
        7,
    );
    let ast = cs.build();
    let row: Vec<u128> = vec![
        1, 1, // 3
        1, 0, 1, 0, 1, // 21
        1, 0, 0, 1, // 9
        0, 0, 1, 1, 0, // carries of 3 + 6
        0, 0, 0, 0, 1, 0, // carries of 9 + 12
    ];
    let flat = |r: &[u128]| -> Vec<Flat<Block128>> { r.iter().map(|&x| hw(x)).collect() };
    let holds = |r: &[u128]| {
        ast.evaluate(&flat(r), &flat(r))
            .iter()
            .all(|v| v.0 .0 == 0)
    };
    assert!(holds(&row));
    for i in 7..22 {
        let mut other = row.clone();
        other[i] ^= 1;
        assert!(!holds(&other), "cell {i}");
    }
}

#[test]
fn integer_gadgets_keep_their_degrees() {
    let layout = schoolbook_mul_layout(4, 4);
    let mut cs = ConstraintSystem::new();
    let mut next = 0;
    let mut take = |cs: &mut ConstraintSystem, n: usize| -> Vec<Expr> {
        let cells = (next..next + n).map(|i| cs.col(i)).collect();
        next += n;
        cells
    };
    let a = take(&mut cs, 4);
    let b = take(&mut cs, 4);
    let product = take(&mut cs, layout.product_width);
    let pp0 = take(&mut cs, layout.pp0_width);
    let sums: Vec<Vec<Expr>> = layout.sum_widths.iter().map(|&w| take(&mut cs, w)).collect();
    let carries: Vec<Vec<Expr>> = layout
        .carry_widths
        .iter()
        .map(|&w| take(&mut cs, w))
        .collect();
    let sum_refs: Vec<&[Expr]> = sums.iter().map(|v| v.as_slice()).collect();
    let carry_refs: Vec<&[Expr]> = carries.iter().map(|v| v.as_slice()).collect();
    schoolbook_mul(
        &mut cs,
        &a,
        &b,
        &product,
        &SchoolbookMulWitness {
            pp0: &pp0,
            sums: &sum_refs,
            carries: &carry_refs,
        },
    );
    assert_eq!(cs.build().max_degree(), 3);

    let mut cs = ConstraintSystem::new();
    let bus = cs.col(0);
    let bits: Vec<Expr> = (1..9).map(|i| cs.col(i)).collect();
    bit_packing(&mut cs, bus, &bits);
    assert_eq!(cs.build().max_degree(), 1);
}

fn cells_of(trace: &ColumnTrace, row: usize) -> Vec<u8> {
    let mut bytes = Vec::new();
    for column in &trace.columns {
        match column {
            TraceColumn::Bit(v) => bytes.push(v[row].0),
            TraceColumn::B8(v) => bytes.push(v[row].0 .0),
            TraceColumn::B16(v) => bytes.extend_from_slice(&v[row].0 .0.to_le_bytes()),
            TraceColumn::B32(v) => bytes.extend_from_slice(&v[row].0 .0.to_le_bytes()),
            TraceColumn::B64(v) => bytes.extend_from_slice(&v[row].0 .0.to_le_bytes()),
            TraceColumn::B128(v) => bytes.extend_from_slice(&v[row].0 .0.to_le_bytes()),
        }
    }
    bytes
}

fn memory_rows(events: &[MemoryEvent]) -> Vec<Vec<Flat<Block128>>> {
    let trace = generate_ram_trace(events, 4).unwrap();
    let expander = RamChiplet::new(4).virtual_expander().unwrap();
    (0..4)
        .map(|r| {
            let mut out = Vec::new();
            expander.parse_row(&cells_of(&trace, r), &mut out).unwrap();
            out
        })
        .collect()
}

#[test]
fn the_last_event_is_compared_with_nothing() {
    let ast = RamChiplet::new(4).constraint_ast();
    let fails = |event: MemoryEvent| {
        let rows = memory_rows(&[event]);
        ast.evaluate(&rows[0], &rows[1]).iter().any(|v| v.0 .0 != 0)
    };
    assert!(!fails(MemoryEvent::new(0x00ff_ffff, 1, 5, true)));
    assert!(fails(MemoryEvent::new(0x0100_0000, 1, 5, true)));
    assert!(!fails(MemoryEvent::new(0, 1, 0, true)));
    assert!(fails(MemoryEvent::new(0, 1, 5, true)));
}

#[test]
fn memory_rows_ascend_byte_by_byte() {
    let events = [
        MemoryEvent::new(0x0100, 7, 5, true),
        MemoryEvent::new(0x0100, 9, 5, false),
        MemoryEvent::new(0x0001_0000, 1, 8, true),
    ];
    let ast = RamChiplet::new(4).constraint_ast();
    let rows = memory_rows(&events);
    for r in 0..4 {
        let roots = ast.evaluate(&rows[r], &rows[(r + 1) % 4]);
        assert!(roots.iter().all(|v| v.0 .0 == 0), "row {r}");
    }
    // In the other order the comparison fails.
    let roots = ast.evaluate(&rows[1], &rows[0]);
    assert!(roots.iter().any(|v| v.0 .0 != 0));
}

#[test]
fn one_seed_gives_one_matrix() {
    let a = generate_expander_matrix(20, 30, 5, [9u8; 32]);
    let b = generate_expander_matrix(20, 30, 5, [9u8; 32]);
    let c = generate_expander_matrix(20, 30, 5, [8u8; 32]);
    assert_eq!(a.col_indices(), b.col_indices());
    assert_eq!(a.weights(), b.weights());
    assert_ne!(a.col_indices(), c.col_indices());
}

#[test]
fn zeroized_traces_are_empty() {
    let mut trace = ColumnTrace {
        num_vars: 1,
        columns: vec![
            TraceColumn::Bit(vec![Bit(1), Bit(1)]),
            TraceColumn::B8(vec![Flat(Block8(3)), Flat(Block8(4))]),
            TraceColumn::B16(vec![Flat(Block16(3)), Flat(Block16(4))]),
            TraceColumn::B32(vec![Flat(Block32(3)), Flat(Block32(4))]),
            TraceColumn::B64(vec![Flat(Block64(3)), Flat(Block64(4))]),
            TraceColumn::B128(vec![Flat(Block128(3)), Flat(Block128(4))]),
        ],
    };
    let types: Vec<ColumnType> = trace.columns.iter().map(|c| c.column_type()).collect();
    let mut columns = trace.columns.clone();
    for (column, ctype) in columns.iter_mut().zip(types) {
        column.zeroize();
        assert!(column.is_empty());
        assert_eq!(column.column_type(), ctype);
    }
    trace.columns.reserve(10);
    trace.zeroize();
    assert_eq!(trace.num_vars, 0);
    assert!(trace.columns.is_empty());
}

#[test]
fn zeroized_secrets_are_empty() {
    let mut pad = Pad::derive::<DefaultHasher>(&[7u8; 32], 5);
    assert!(pad.values().iter().any(|v| v.0 .0 != 0));
    assert!(pad.take().is_some());
    assert!(pad.take().is_some());
    pad.zeroize();
    assert!(pad.is_empty());
    assert_eq!(pad.consumed(), 2);
    assert!(pad.take().is_none());
    assert_eq!(pad.consumed(), 2);

    let mut eq = PolyVariant::Eq(TensorProduct::new(vec![hw(5), hw(6)]));
    eq.zeroize();
    match eq {
        PolyVariant::Eq(t) => {
            assert!(t.r_coords.is_empty());
            assert_eq!(t.current_scale.0 .0, 0);
        }
        _ => panic!("another polynomial"),
    }
}

#[test]
fn geometries_in_range() {
    let config = Config::prod();
    assert!(config.in_range(0));
    assert!(config.in_range(1 << 12));
    assert!(!config.in_range(usize::MAX));
    assert_eq!(config.table_geom(0).encoded_width, 0);
}

#[test]
fn clones_go_on_alike() {
    let mut a = Transcript::<DefaultHasher>::new(b"p");
    a.append_u64(b"n", 7);
    let mut b = a.clone();
    assert_eq!(a.trace(), b.trace());
    let c: Block128 = a.challenge_field(b"c").unwrap();
    assert_eq!(b.challenge_field::<Block128>(b"c").unwrap(), c);
    b.append_u64(b"n", 8);
    assert_ne!(a.trace(), b.trace());

    let tree = Tree::new(&[[1u8; 32], [2u8; 32], [3u8; 32]]);
    let copy = tree.clone();
    assert_eq!(copy.num_leaves(), 4);
    assert_eq!(copy.root(), tree.root());
    assert_eq!(copy.prove(2).unwrap(), tree.prove(2).unwrap());
}

#[test]
fn cloned_claims_are_the_claims() {
    let commitment = BrakedownCommitment { root: [4u8; 32], num_rows: 2, num_cols: 8 };
    let mut aux = LogUpAux::new(
        vec![("a".to_string(), Block128(5)), ("b".to_string(), Block128(6))],
        vec![("a".to_string(), Block128(7))],
    );
    aux.h_commitment = Some(commitment);
    let copy = aux.clone();
    assert_eq!(copy.h_evals, aux.h_evals);
    assert_eq!(copy.claimed_sums, aux.claimed_sums);
    assert_eq!(copy.h_commitment, Some(commitment));

    let proof = EvalBatchProof::new(
        SumcheckProof { round_polys: vec![], claimed_evaluation: Block128(9) },
        BrakedownProof::new(vec![vec![1, 2]], vec![[3u8; 32]]),
        (vec![Block128(1)], vec![Block128(2), Block128(3)]),
        vec![Block128(4)],
        Some(MasterEvals { whole: Block128(5), ring: Block128(6) }),
        None,
    );
    let copy = proof.clone();
    assert_eq!(copy.sumcheck_proof.claimed_evaluation, Block128(9));
    assert_eq!(copy.ldt_proof.opened_columns, proof.ldt_proof.opened_columns);
    assert_eq!(copy.ldt_proof.batch_path, proof.ldt_proof.batch_path);
    assert_eq!(copy.point_evaluation, proof.point_evaluation);
    assert_eq!(copy.tensor_vec, proof.tensor_vec);
    assert_eq!(copy.master_evals, proof.master_evals);
    assert!(copy.h_ldt_proof.is_none());
}
