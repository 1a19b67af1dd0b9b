//! Interrupt-descriptor configuration, as data.
//!
//! Interrupt and exception dispatch itself is outside this core: the kernel
//! glue owns the handler bodies and the hardware load of the table. What is
//! decided here, and therefore verified, is the configuration those steps
//! follow: which vector gets which handler, and which entry runs on the
//! dedicated fault stack.

use vstd::prelude::*;

verus! {

/// First vector used by the primary interrupt controller.
pub const PIC_1_OFFSET: u8 = 32;

/// First vector used by the secondary interrupt controller.
pub const PIC_2_OFFSET: u8 = PIC_1_OFFSET + 8;

/// Interrupt-stack-table slot that the double-fault entry selects, so that a
/// double fault always runs on a known-good stack even under allocator
/// exhaustion.
pub const DOUBLE_FAULT_IST_INDEX: u16 = 0;

/// Hardware interrupts the kernel handles, numbered from `PIC_1_OFFSET`.
#[derive(Debug, Clone, Copy, PartialEq, Eq, Structural)]
pub enum InterruptIndex {
    Timer,
    Keyboard,
}

impl InterruptIndex {
    /// Interrupt vector of this line.
    pub fn as_u8(self) -> (r: u8)
        ensures
            self is Timer ==> r == PIC_1_OFFSET,
            self is Keyboard ==> r == PIC_1_OFFSET + 1,
    {
        match self {
            InterruptIndex::Timer => PIC_1_OFFSET,
            InterruptIndex::Keyboard => PIC_1_OFFSET + 1,
        }
    }

    /// Interrupt vector of this line, widened for use as a table index.
    pub fn as_usize(self) -> (r: usize)
        ensures
            self is Timer ==> r == PIC_1_OFFSET as usize,
            self is Keyboard ==> r == PIC_1_OFFSET as usize + 1,
    {
        self.as_u8() as usize
    }
}

/// Handlers that the descriptor table routes to.
#[derive(Debug, Clone, Copy, PartialEq, Eq, Structural)]
pub enum HandlerKind {
    Breakpoint,
    DoubleFault,
    PageFault,
    Timer,
    Keyboard,
}

/// One configured descriptor-table entry: a vector, the handler installed on
/// it, and the interrupt-stack-table slot it runs on, if any.
#[derive(Debug, Clone, Copy, PartialEq, Eq, Structural)]
pub struct IdtEntry {
    pub vector: u8,
    pub handler: HandlerKind,
    pub stack_index: Option<u16>,
}

/// The descriptor-table layout that `init_idt` produces.
pub open spec fn idt_layout() -> Seq<IdtEntry> {
    seq![
        IdtEntry { vector: 3, handler: HandlerKind::Breakpoint, stack_index: None },
        IdtEntry {
            vector: 8,
            handler: HandlerKind::DoubleFault,
            stack_index: Some(DOUBLE_FAULT_IST_INDEX),
        },
        IdtEntry { vector: 14, handler: HandlerKind::PageFault, stack_index: None },
        IdtEntry { vector: PIC_1_OFFSET, handler: HandlerKind::Timer, stack_index: None },
        IdtEntry {
            vector: (PIC_1_OFFSET + 1) as u8,
            handler: HandlerKind::Keyboard,
            stack_index: None,
        },
    ]
}

/// Builds the interrupt-descriptor configuration: breakpoint, double fault
/// (on the dedicated fault stack), page fault, and the two controller lines.
/// The kernel glue loads exactly this table into the hardware.
pub fn init_idt() -> (idt: Vec<IdtEntry>)
    ensures
        idt@ == idt_layout(),
{
    let mut idt: Vec<IdtEntry> = Vec::new();
    idt.push(IdtEntry { vector: 3, handler: HandlerKind::Breakpoint, stack_index: None });
    idt.push(
        IdtEntry {
            vector: 8,
            handler: HandlerKind::DoubleFault,
            stack_index: Some(DOUBLE_FAULT_IST_INDEX),
        },
    );
    idt.push(IdtEntry { vector: 14, handler: HandlerKind::PageFault, stack_index: None });
    idt.push(IdtEntry { vector: PIC_1_OFFSET, handler: HandlerKind::Timer, stack_index: None });
    idt.push(
        IdtEntry { vector: PIC_1_OFFSET + 1, handler: HandlerKind::Keyboard, stack_index: None },
    );
    proof {
        assert(idt@ =~= idt_layout());
    }
    idt
}

} // verus!
