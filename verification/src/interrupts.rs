//! Interrupt-vector numbering.  Loading the descriptor table and driving
//! the interrupt controller are hardware operations and live with the
//! machine-facing code; the vector arithmetic is here.
use vstd::prelude::*;

verus! {

/// Vector base of the primary interrupt controller.
pub const PIC_1_OFFSET: u8 = 32;

/// Vector base of the secondary interrupt controller.
pub const PIC_2_OFFSET: u8 = PIC_1_OFFSET + 8;

/// The interrupt lines this kernel handles.
#[derive(Clone, Copy, PartialEq, Eq, Structural, Debug)]
pub enum InterruptIndex {
    Timer,
    Keyboard,
}

impl InterruptIndex {
    /// The interrupt's vector number.
    pub fn as_u8(self) -> (r: u8)
        ensures
            r == match self {
                InterruptIndex::Timer => PIC_1_OFFSET,
                InterruptIndex::Keyboard => (PIC_1_OFFSET + 1) as u8,
            },
    {
        match self {
            InterruptIndex::Timer => PIC_1_OFFSET,
            InterruptIndex::Keyboard => PIC_1_OFFSET + 1,
        }
    }

    /// The interrupt's vector number, as a table index.
    pub fn as_usize(self) -> (r: usize)
        ensures
            r == match self {
                InterruptIndex::Timer => PIC_1_OFFSET as usize,
                InterruptIndex::Keyboard => (PIC_1_OFFSET + 1) as usize,
            },
    {
        self.as_u8() as usize
    }
}

} // verus!
