//! The ROM chiplet.

use hekate::chiplets::rom::{
    generate_rom_trace, CpuFetchUnit, Instruction, RomChiplet, RomColumns,
};
use hekate::field::{Bit, Block32};
use hekate::program::permutation::Source;
use hekate::trace::Trace;

#[test]
fn rom_chiplet_column_count() {
    let rom = RomChiplet::new(16);
    assert_eq!(rom.num_columns(), 9);
    assert_eq!(rom.num_rows(), 16);
}

#[test]
fn rom_linking_spec_structure() {
    let spec = RomChiplet::linking_spec();

    assert_eq!(spec.num_sources(), 8);

    // Selector present
    assert!(spec.has_selector());
    assert_eq!(spec.selector, Some(RomColumns::SELECTOR));
}

#[test]
fn cpu_fetch_linking_spec_matches_rom() {
    let rom_spec = RomChiplet::linking_spec();
    let cpu_spec = CpuFetchUnit::linking_spec();

    // Both specs must have same number of sources
    assert_eq!(rom_spec.num_sources(), cpu_spec.num_sources());

    // Challenge labels must match exactly
    for i in 0..rom_spec.num_sources() {
        assert_eq!(rom_spec.sources[i].1, cpu_spec.sources[i].1);
    }
}

#[test]
fn instruction_pc_bytes() {
    let instr = Instruction::new(0x01020304, 0xAB, [0x11, 0x22, 0x33]);

    let pc_bytes = instr.pc_bytes();
    assert_eq!(pc_bytes, [0x04, 0x03, 0x02, 0x01]); // Little-endian
}

#[test]
fn generate_rom_trace_basic() {
    let instructions = vec![
        Instruction::new(0x0100, 0x01, [0x11, 0x12, 0x13]),
        Instruction::new(0x0104, 0x02, [0x21, 0x22, 0x23]),
        Instruction::new(0x0108, 0x03, [0x31, 0x32, 0x33]),
    ];

    // 8 rows -> 2^3 vars
    let trace = generate_rom_trace(&instructions, 8).unwrap();

    assert_eq!(trace.num_cols(), RomColumns::NUM_COLUMNS);
    assert_eq!(trace.num_rows().unwrap(), 8);

    // Helper to safe access typed columns
    let pc_b0 = trace.columns[RomColumns::PC_B0]
        .as_b32_slice()
        .expect("Wrong type");
    let pc_b1 = trace.columns[RomColumns::PC_B1]
        .as_b32_slice()
        .expect("Wrong type");
    let opcode = trace.columns[RomColumns::OPCODE]
        .as_b32_slice()
        .expect("Wrong type");
    let selector = trace.columns[RomColumns::SELECTOR]
        .as_bit_slice()
        .expect("Wrong type");

    // Check first instruction
    assert_eq!(pc_b0[0].to_tower(), Block32(0x00)); // LSB of 0x0100
    assert_eq!(pc_b1[0].to_tower(), Block32(0x01)); // Next byte
    assert_eq!(opcode[0].to_tower(), Block32(0x01));
    assert_eq!(selector[0], Bit(1));

    // Check padding row (last row index 7)
    assert_eq!(pc_b0[7].to_tower(), Block32(0));
    assert_eq!(selector[7], Bit(0));
}

#[test]
fn generate_rom_trace_overflow() {
    let instructions = vec![
        Instruction::new(0, 0, [0, 0, 0]),
        Instruction::new(1, 1, [1, 1, 1]),
        Instruction::new(2, 2, [2, 2, 2]),
    ];

    // 2 rows < 3 instructions -> Err
    let result = generate_rom_trace(&instructions, 2);
    assert!(result.is_err());
}

/// Test:
/// Byte Stitching Demonstration (No RowIndex for ROM).
///
/// This test explicitly demonstrates that:
/// 1. ROM linking uses byte-stitched PC (4 bytes)
/// 2. NO RowIndex is needed (ROM is static, not time-dependent)
///    This is a spec check, no proving needed.
#[test]
fn byte_stitching_no_row_index() {
    let rom_spec = RomChiplet::linking_spec();
    let cpu_spec = CpuFetchUnit::linking_spec();

    // Verify that specs have 5 sources:
    // 4 PC bytes + 1 opcode
    assert_eq!(
        rom_spec.num_sources(),
        8,
        "ROM spec should have 8 sources (PC, opcode, and 3 args)"
    );
    assert_eq!(
        cpu_spec.num_sources(),
        8,
        "CPU spec should have 8 sources (PC, opcode, and 3 args)"
    );

    // Verify that NO RowIndexLeBytes source is used
    for (source, _label) in &rom_spec.sources {
        if let Source::RowIndexLeBytes(_) = source {
            panic!("ROM should NOT use RowIndexLeBytes - it's static code!");
        }
    }

    for (source, _label) in &cpu_spec.sources {
        if let Source::RowIndexLeBytes(_) = source {
            panic!("CPU fetch should NOT use RowIndexLeBytes for ROM linking!");
        }
    }

    // Verify challenge labels match between ROM and CPU
    for i in 0..rom_spec.num_sources() {
        assert_eq!(
            rom_spec.sources[i].1, cpu_spec.sources[i].1,
            "Challenge labels must match at index {}",
            i
        );
    }
}
