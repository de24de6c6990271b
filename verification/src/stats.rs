//! System stats gauge: a refresh-then-read cycle over a long-lived
//! process/CPU/memory handle.  The CPU utilization figure is a
//! floating-point percentage and is read by the caller directly from
//! the handle; the memory figures pass through here as plain values.

use vstd::prelude::*;
use crate::sysmon;

verus! {

/// Point-in-time global memory utilization, in bytes.
pub struct MemorySnapshot {
    pub memory_total: u64,
    pub memory_used: u64,
}

/// Refresh the CPU and memory counters of the long-lived handle, as
/// every stats request must before reading.
pub fn refresh_global_stats(sys: &mut sysinfo::System) {
    sysmon::system_refresh_cpu_all(sys);
    sysmon::system_refresh_memory(sys);
}

/// Read the memory side of the global stats from the handle.  The
/// figures are whatever the machine reported at the last refresh;
/// nothing more can be promised of them.
pub fn memory_snapshot(sys: &sysinfo::System) -> (r: MemorySnapshot)
{
    MemorySnapshot {
        memory_total: sysmon::system_total_memory(sys),
        memory_used: sysmon::system_used_memory(sys),
    }
}

} // verus!
