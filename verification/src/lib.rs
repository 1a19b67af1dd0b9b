//! Memory-management core of a bare-metal 64-bit kernel, modelled on plain
//! values so that every algorithm and invariant is machine-checked.
//!
//! The crate turns a boot-time physical memory map into a working dynamic
//! allocation facility in three layers: a physical frame source over the
//! boot memory map (`memory`), a four-level page-table walk and heap mapper
//! (`paging`, `allocator::init_heap`), and a size-classed block allocator
//! with a general first-fit fallback heap (`allocator::fixed_size_block`,
//! `allocator::fallback_heap`).
//!
//! Physical and virtual addresses are held as `u64` values; page tables and
//! free lists are explicit data, so the hardware edge (register reads, raw
//! stores through the physical-memory offset window, port output) stays in
//! the surrounding kernel glue while everything it decides on is verified
//! here.

use vstd::prelude::*;

pub mod allocator;
pub mod interrupts;
pub mod memory;
pub mod paging;

verus! {

/// Exit status reported to the emulator's debug-exit device when the kernel
/// shuts down.
#[derive(Debug, Clone, Copy, PartialEq, Eq, Structural)]
pub enum QemuExitCode {
    Success,
    Failed,
}

impl QemuExitCode {
    /// The 32-bit value written to the debug-exit port for this status.
    pub fn code(self) -> (r: u32)
        ensures
            self is Success ==> r == 0x10,
            self is Failed ==> r == 0x11,
    {
        match self {
            QemuExitCode::Success => 0x10,
            QemuExitCode::Failed => 0x11,
        }
    }
}

} // verus!
