//! The RAM chiplet.

use hekate::chiplets::ram::table::{
    NUM_PHYSICAL_COLUMNS, PHY_ADDR_B0, PHY_CLK_B0, PHY_IS_WRITE, PHY_SELECTOR, PHY_VAL_B0,
};
use hekate::chiplets::ram::{comparator, generate_ram_trace, CpuMemoryUnit, MemoryEvent, RamChiplet};
use hekate::field::{Bit, Block32};
use hekate::program::permutation::Source;
use hekate::trace::Trace;

#[test]
fn ram_chiplet_column_count() {
    let ram = RamChiplet::new(16);
    assert_eq!(ram.num_columns(), 83);
    assert_eq!(ram.num_rows(), 16);
}

#[test]
fn memory_event_sort_key() {
    let e1 = MemoryEvent::new(0x1000, 5, 42, true);
    let e2 = MemoryEvent::new(0x1000, 10, 42, false);
    let e3 = MemoryEvent::new(0x2000, 1, 99, true);

    assert!(e1.sort_key() < e2.sort_key()); // Same addr, e1.clk < e2.clk
    assert!(e2.sort_key() < e3.sort_key()); // e2.addr < e3.addr
}

#[test]
fn comparator_verify_sorted_valid() {
    let events = vec![
        MemoryEvent::new(0x1000, 1, 42, true),
        MemoryEvent::new(0x1000, 5, 42, false),
        MemoryEvent::new(0x2000, 3, 99, true),
    ];

    assert!(comparator::verify_sorted(&events));
}

#[test]
fn comparator_verify_sorted_invalid() {
    let events = vec![
        MemoryEvent::new(0x2000, 3, 99, true),
        MemoryEvent::new(0x1000, 1, 42, true), // Out of order!
    ];

    assert!(!comparator::verify_sorted(&events));
}

#[test]
fn comparator_verify_consistency_valid() {
    let events = vec![
        MemoryEvent::new(0x1000, 1, 42, true),  // Write 42
        MemoryEvent::new(0x1000, 5, 42, false), // Read 42 (consistent)
        MemoryEvent::new(0x2000, 3, 99, true),  // Different addr
    ];

    assert!(comparator::verify_consistency(&events));
}

#[test]
fn comparator_verify_consistency_invalid() {
    let events = vec![
        MemoryEvent::new(0x1000, 1, 42, true),  // Write 42
        MemoryEvent::new(0x1000, 5, 99, false), // Read 99 (INCONSISTENT!)
    ];

    assert!(!comparator::verify_consistency(&events));
}

#[test]
fn generate_ram_trace_basic() {
    let events = vec![
        MemoryEvent::new(0x1000, 1, 42, true),
        MemoryEvent::new(0x1004, 2, 99, true),
    ];

    let trace = generate_ram_trace(&events, 8).unwrap();

    assert_eq!(trace.num_cols(), NUM_PHYSICAL_COLUMNS);
    assert_eq!(trace.num_rows().unwrap(), 8);

    // Physical layout:
    // use PHY_* indices.
    let addr_b0 = trace.columns[PHY_ADDR_B0].as_b32_slice().unwrap();
    let addr_b1 = trace.columns[PHY_ADDR_B0 + 1].as_b32_slice().unwrap();
    let val_b0 = trace.columns[PHY_VAL_B0].as_b32_slice().unwrap();
    let is_write = trace.columns[PHY_IS_WRITE].as_bit_slice().unwrap();
    let selector = trace.columns[PHY_SELECTOR].as_bit_slice().unwrap();

    // Check first event
    // NOTE:
    // B32 columns are stored in hardware/flat basis;
    // convert back to tower for semantic checks.
    assert_eq!(addr_b0[0].to_tower(), Block32(0x00));
    assert_eq!(addr_b1[0].to_tower(), Block32(0x10));
    assert_eq!(val_b0[0].to_tower(), Block32(42));
    assert_eq!(is_write[0], Bit(1));
    assert_eq!(selector[0], Bit(1));

    // Check padding row
    assert_eq!(selector[7], Bit(0));
}

#[test]
fn generate_ram_trace_consistency_violation() {
    let events = vec![
        MemoryEvent::new(0x1000, 1, 42, true),
        MemoryEvent::new(0x1000, 5, 99, false),
    ];

    let result = generate_ram_trace(&events, 8);
    assert!(result.is_err());
}

/// Test:
/// Memory Consistency Enforcement (Trace Generation Logic).
///
/// Ensures the `generate_ram_trace` helper
/// enforces read-after-write consistency.
#[test]
fn memory_consistency() {
    let valid_events = vec![
        MemoryEvent::write(0x1000, 1, 42),
        MemoryEvent::read(0x1000, 2, 42),
    ];

    let trace = generate_ram_trace(&valid_events, 8).unwrap();
    assert_eq!(trace.num_cols(), NUM_PHYSICAL_COLUMNS);
}

/// Test:
/// Sorting Verification.
///
/// Ensures RAM trace events are
/// sorted by (addr || clk).
#[test]
fn sorting_by_addr_clk() {
    let events = vec![
        MemoryEvent::write(0x2000, 1, 99),
        MemoryEvent::write(0x1000, 0, 42),
        MemoryEvent::write(0x1000, 5, 42),
        MemoryEvent::write(0x1004, 3, 123),
    ];

    let trace = generate_ram_trace(&events, 8).unwrap();

    let addr_b0 = trace.columns[PHY_ADDR_B0].as_b32_slice().unwrap();
    let addr_b1 = trace.columns[PHY_ADDR_B0 + 1].as_b32_slice().unwrap();
    let clk_b0 = trace.columns[PHY_CLK_B0].as_b32_slice().unwrap();

    // 1st: 0x1000, clk 0
    assert_eq!(addr_b0[0].to_tower(), Block32(0x00));
    assert_eq!(addr_b1[0].to_tower(), Block32(0x10));
    assert_eq!(clk_b0[0].to_tower(), Block32(0x00));

    // 2nd: 0x1000, clk 5
    assert_eq!(addr_b0[1].to_tower(), Block32(0x00));
    assert_eq!(addr_b1[1].to_tower(), Block32(0x10));
    assert_eq!(clk_b0[1].to_tower(), Block32(0x05));

    // 3rd: 0x1004, clk 3
    assert_eq!(addr_b0[2].to_tower(), Block32(0x04));
    assert_eq!(addr_b1[2].to_tower(), Block32(0x10));
    assert_eq!(clk_b0[2].to_tower(), Block32(0x03));

    // 4th: 0x2000, clk 1
    assert_eq!(addr_b0[3].to_tower(), Block32(0x00));
    assert_eq!(addr_b1[3].to_tower(), Block32(0x20));
    assert_eq!(clk_b0[3].to_tower(), Block32(0x01));
}

/// Test:
/// Spec Verification, CPU uses Virtual Clock.
#[test]
fn cpu_uses_row_index_for_clock() {
    let cpu_spec = CpuMemoryUnit::linking_spec();

    // CPU spec should have 13 sources
    assert_eq!(cpu_spec.num_sources(), 13);

    // Verify sources 4-7 are
    // RowIndexByte (virtual bytes).
    for i in 4..8 {
        match &cpu_spec.sources[i].0 {
            Source::RowIndexByte(_) => {}
            _ => panic!("CPU spec should use RowIndexByte for clock at index {}", i),
        }
    }
}

/// Test:
/// Spec Verification,
/// RAM uses Committed Clock.
#[test]
fn ram_uses_committed_columns_for_clock() {
    let ram_spec = RamChiplet::linking_spec();

    assert_eq!(ram_spec.num_sources(), 13);

    // Verify sources 4-7 are Columns
    for i in 4..8 {
        match &ram_spec.sources[i].0 {
            Source::Column(_) => {}
            _ => panic!("RAM spec should use Column for clock at index {}", i),
        }
    }
}

#[test]
fn comparator_verify_consistency_write_after_write() {
    let events = vec![
        MemoryEvent::new(0x1000, 1, 42, true),  // Write 42
        MemoryEvent::new(0x1000, 2, 99, true),  // Write 99 (Same Addr, New Val - OK)
        MemoryEvent::new(0x1000, 3, 99, false), // Read 99 (Consistent)
    ];

    // This ensures the Write-after-Write pattern is valid
    assert!(comparator::verify_consistency(&events));
}

#[test]
fn comparator_verify_consistency_read_after_write_invalid() {
    let events = vec![
        MemoryEvent::new(0x1000, 1, 42, true), // Write 42
        // Next op is READ (is_write=false).
        // The value MUST remain 42.
        // Here we simulate corruption (99).
        MemoryEvent::new(0x1000, 2, 99, false),
    ];

    // This ensures that reading a different value
    // without an intermediate write is invalid.
    // Returns false = corruption detected.
    assert!(
        !comparator::verify_consistency(&events),
        "Memory corruption detected! Read different value after Write without intermediate Write."
    );
}

#[test]
fn consistency_read_after_write_gap_invalid() {
    let mut events = vec![
        // Row 1:
        // Write 42 (Addr 0x10, Clk 1)
        MemoryEvent::new(0x10, 1, 42, true),
        // Row 2:
        // Read 0 (Addr 0x11, Clk 2)
        MemoryEvent::new(0x11, 2, 0, false),
        // Row 3:
        // Read 99  (Addr 0x10, Clk 3) - CORRUPTION!
        MemoryEvent::new(0x10, 3, 99, false),
    ];

    // Sort the events as the chiplet
    // does before generating the trace.
    events.sort_by_key(|e| e.sort_key());

    // After sorting by (Addr, Clk), the trace becomes:
    // 1. (0x10, 1, 42, Write)
    // 2. (0x10, 3, 99, Read)  <-- AIR will check this pair. D=0, is_write_next=0.
    // 3. (0x11, 2, 0, Read)

    assert!(
        !comparator::verify_consistency(&events),
        "Gap consistency failed to catch corruption!"
    );
}

#[test]
fn time_travel_attack_invalid() {
    // Scenario 1: Duplicate (Addr, Clk)
    // This is the most dangerous attack.
    // Even after sorting, identical keys
    // MUST fail verify_sorted because of
    // the >= check. This targets the core
    // reason for strict monotonicity in the AIR.
    let events = vec![
        MemoryEvent::new(0x10, 100, 42, true),
        MemoryEvent::new(0x10, 100, 99, false), // Duplicate Clk 100!
    ];

    // 1. Auditor must reject duplicates
    let mut sorted = events.clone();
    sorted.sort_by_key(|e| e.sort_key());

    assert!(!comparator::verify_sorted(&sorted));

    // 2. Trace generation must return error
    let result = generate_ram_trace(&events, 8);
    assert!(result.is_err());
}

#[test]
fn lexicographical_order_priority() {
    // Scenario 2:
    // Ensure Addr (MSB) has absolute priority
    // over Clk. This tests that our byte_indices
    // [Addr_B3..B0, Clk_B3..B0] correctly enforce
    // the sorting order used by the Range gadget.
    let e_low_addr = MemoryEvent::new(0x10, 0xFFFFFFFF, 0, false);
    let e_high_addr = MemoryEvent::new(0x11, 0, 0, false);

    assert!(e_low_addr.sort_key() < e_high_addr.sort_key());

    let mut events = vec![e_high_addr, e_low_addr];
    events.sort_by_key(|e| e.sort_key());

    // Addr 0x10 must be Row 0,
    // despite having a massive Clock value.
    assert_eq!(events[0].addr, 0x10);
    assert_eq!(events[1].addr, 0x11);
    assert!(comparator::verify_sorted(&events));
}

#[test]
fn initial_read_vulnerability_test() {
    // Attack:
    // The first operation on address
    // 0x99 is a Read of 1000 BTC.
    let events = vec![MemoryEvent::new(0x99, 1, 1000, false)];

    // Auditor must detect that uninitialized
    // memory is read as non-zero.
    assert!(
        !comparator::verify_consistency(&events),
        "Initial read vulnerability not caught!"
    );
}
