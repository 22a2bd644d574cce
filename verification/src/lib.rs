//! Model of a small kernel's memory subsystem: a physical frame allocator
//! fed by the firmware memory map, a four-level page-table mapper and
//! address translator, and the two-tier heap allocator (fixed size classes
//! over a first-fit fallback) that serves every dynamic request.
//!
//! Raw hardware access — the table-root register, memory-mapped tables, the
//! VGA text buffer — lives outside this crate; here each of those resources
//! is held as plain data, so that the algorithms that manage them can be
//! specified and proved.

use vstd::prelude::*;

pub mod fixed_size_block;
pub mod fallback;
pub mod memory;
pub mod paging;
pub mod allocator;
pub mod vga_buffer;
pub mod interrupts;

verus! {

/// Exit codes reported to the emulator when a test run finishes.
#[derive(Debug, Clone, Copy, PartialEq, Eq, Structural)]
pub enum QemuExitCode {
    Success,
    Failed,
}

impl QemuExitCode {
    /// The value written to the emulator's exit port for this code.
    pub open spec fn spec_code(self) -> u32 {
        match self {
            QemuExitCode::Success => 0x10,
            QemuExitCode::Failed => 0x11,
        }
    }

    /// Port value of this exit code.
    pub fn code(self) -> (c: u32)
        ensures
            c == self.spec_code(),
    {
        match self {
            QemuExitCode::Success => 0x10,
            QemuExitCode::Failed => 0x11,
        }
    }
}

} // verus!
