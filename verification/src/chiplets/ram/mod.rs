//! RAM chiplet: a memory table sorted by address and time, linked to the
//! CPU's memory events by a permutation bus.

pub mod air;
pub mod comparator;
pub mod event;
pub mod laws;
pub mod table;

pub use air::RamChiplet;
pub use event::MemoryEvent;
pub use table::{generate_ram_trace, CpuMemColumns, CpuMemoryUnit, RamColumns};
