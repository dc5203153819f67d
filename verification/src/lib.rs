//! Core of a small teaching kernel: physical-frame bookkeeping, four-level
//! page-table translation and mapping, heap-window initialization, a
//! size-classed dynamic allocator with a first-fit fallback, and a scratch
//! window for memory-mapped device registers.
use vstd::prelude::*;

pub mod allocator;
pub mod drivers;
pub mod interrupts;
pub mod memory;
pub mod task;
pub mod vga_buffer;

verus! {

/// Size in bytes of one physical frame and of one virtual page.
pub const PAGE_SIZE: u64 = 4096;

/// Exit codes the kernel reports to the emulator it runs under.
#[derive(Clone, Copy, PartialEq, Eq, Structural, Debug)]
pub enum QemuExitCode {
    Success,
    Failed,
}

impl QemuExitCode {
    /// The value written to the emulator's exit port.
    pub fn as_u32(self) -> (r: u32)
        ensures
            r == match self {
                QemuExitCode::Success => 0x10u32,
                QemuExitCode::Failed => 0x11u32,
            },
    {
        match self {
            QemuExitCode::Success => 0x10,
            QemuExitCode::Failed => 0x11,
        }
    }
}

} // verus!
