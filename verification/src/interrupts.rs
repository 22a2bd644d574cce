//! Hardware interrupt numbering: where the programmable interrupt
//! controllers' lines land in the interrupt table.
//!
//! The controllers themselves, the descriptor tables and the handlers
//! are hardware concerns outside this crate; the index arithmetic that
//! everything else relies on is verified here.

use vstd::prelude::*;

verus! {

/// First interrupt number of the primary controller: directly after
/// the 32 CPU exceptions.
pub const PIC_1_OFFSET: u8 = 32;

/// First interrupt number of the secondary controller: eight lines
/// after the primary.
pub const PIC_2_OFFSET: u8 = PIC_1_OFFSET + 8;

/// The hardware interrupts this kernel handles, by controller line.
#[derive(Debug, Clone, Copy, PartialEq, Eq, Structural)]
pub enum InterruptIndex {
    /// The timer, on the primary controller's first line.
    Timer,
    /// The keyboard, on the primary controller's second line.
    Keyboard,
}

impl InterruptIndex {
    /// The interrupt number of this line.
    pub open spec fn spec_as_u8(self) -> u8 {
        match self {
            InterruptIndex::Timer => PIC_1_OFFSET,
            InterruptIndex::Keyboard => (PIC_1_OFFSET + 1) as u8,
        }
    }

    /// The interrupt number of this line.
    pub fn as_u8(self) -> (n: u8)
        ensures
            n == self.spec_as_u8(),
    {
        match self {
            InterruptIndex::Timer => PIC_1_OFFSET,
            InterruptIndex::Keyboard => PIC_1_OFFSET + 1,
        }
    }

    /// The interrupt number of this line, as a table index.
    pub fn as_usize(self) -> (n: usize)
        ensures
            n == self.spec_as_u8() as usize,
    {
        self.as_u8() as usize
    }
}

} // verus!
