use vstd::prelude::*;

verus! {

/// The top of the data TCM: its base (bits 12-31 of the CP15 DTCM region register)
/// plus its 16 KiB size. The BIOS keeps its interrupt variables just below it.
pub open spec fn dtcm_top_of(region: u32) -> u32 {
    (((region >> 12u32) << 12u32) as int + 0x4000) as u32
}

/// Computes the top of the data TCM from the CP15 DTCM region register.
pub fn dtcm_top(region: u32) -> (top: u32)
    ensures
        top == dtcm_top_of(region),
{
    let base = (region >> 12) << 12;
    assert(base.wrapping_add(0x4000) == ((base as int + 0x4000) as u32)) by (bit_vector);
    base.wrapping_add(0x4000)
}

/// The IRQ handler jumps through the user handler slot at DTCM+0x3FFC; returns its address.
pub fn irq_handler(region: u32) -> (slot: u32)
    ensures
        slot == (dtcm_top_of(region) as int - 4) as u32,
{
    let top = dtcm_top(region);
    assert(top.wrapping_sub(4) == ((top as int - 4) as u32)) by (bit_vector);
    top.wrapping_sub(4)
}

/// Address of the interrupt-wait check bits at DTCM+0x3FF8.
pub fn irq_check_bits_slot(region: u32) -> (slot: u32)
    ensures
        slot == (dtcm_top_of(region) as int - 8) as u32,
{
    let top = dtcm_top(region);
    assert(top.wrapping_sub(8) == ((top as int - 8) as u32)) by (bit_vector);
    top.wrapping_sub(8)
}

/// The stack pointer and processor mode that the BIOS sets up.
#[derive(Debug, Clone, Copy, PartialEq, Eq, Structural)]
pub struct StackSetup {
    /// CPSR value that selects the mode (interrupts masked for SVC and IRQ).
    pub cpsr: u32,
    /// Initial stack pointer of that mode.
    pub sp: u32,
}

/// Number of words of the interrupt area cleared below the top of the data TCM (512 bytes).
pub const DTCM_CLEAR_WORDS: usize = 128;

/// Stack initialisation at reset: clears the 512 bytes below the top of the data TCM, given
/// as the words `dtcm` ending there, and returns the SVC, IRQ and System mode setups, in
/// the order the BIOS applies them (System mode last, interrupts enabled).
pub fn init_stacks(dtcm: &mut Vec<u32>) -> (modes: Vec<StackSetup>)
    requires
        old(dtcm).len() >= DTCM_CLEAR_WORDS,
    ensures
        final(dtcm).len() == old(dtcm).len(),
        forall|k: int| 0 <= k < old(dtcm).len() - DTCM_CLEAR_WORDS ==> final(dtcm)@[k] == old(dtcm)@[k],
        forall|k: int| old(dtcm).len() - DTCM_CLEAR_WORDS <= k < old(dtcm).len() ==> final(dtcm)@[k] == 0,
        modes@ == seq![
            StackSetup { cpsr: 0xd3, sp: 0x0080_3FC0 },
            StackSetup { cpsr: 0xd2, sp: 0x0080_3FA0 },
            StackSetup { cpsr: 0x5f, sp: 0x0080_3EC0 },
        ],
{
    let mut modes: Vec<StackSetup> = Vec::new();
    // SVC mode
    modes.push(StackSetup { cpsr: 0xd3, sp: 0x0080_3FC0 });
    // IRQ mode
    modes.push(StackSetup { cpsr: 0xd2, sp: 0x0080_3FA0 });
    // System mode, with interrupts enabled
    modes.push(StackSetup { cpsr: 0x5f, sp: 0x0080_3EC0 });

    // clear the interrupt area of the data TCM, from 512 bytes below its top upwards
    let start = dtcm.len() - DTCM_CLEAR_WORDS;
    let mut i = start;
    while i < dtcm.len()
        invariant
            start == old(dtcm).len() - DTCM_CLEAR_WORDS,
            start <= i <= dtcm.len(),
            dtcm.len() == old(dtcm).len(),
            forall|k: int| 0 <= k < start ==> dtcm@[k] == old(dtcm)@[k],
            forall|k: int| start <= k < i ==> dtcm@[k] == 0,
        decreases dtcm.len() - i,
    {
        dtcm.set(i, 0);
        i += 1;
    }
    modes
}

/// What the SWI handler works out on entry.
#[derive(Debug, Clone, Copy, PartialEq, Eq, Structural)]
pub struct SwiEntry {
    /// The SWI number: the low byte of the halfword before the return address.
    pub number: u32,
    /// The CPSR under which the service runs: System mode, keeping the caller's IRQ mask.
    pub cpsr: u32,
}

/// Entry of the SWI handler: the service number comes from the comment field of the
/// (Thumb) SWI instruction `swi_halfword`, and the service runs in System mode with the
/// IRQ-disable bit of the caller's saved status `spsr`.
pub fn swi_handler(swi_halfword: u16, spsr: u32) -> (entry: SwiEntry)
    ensures
        entry.number == swi_halfword as u32 % 0x100,
        entry.cpsr == (spsr & 0x80) | 0x1f,
{
    let number = (swi_halfword as u32) & 0xff;
    assert((swi_halfword as u32) & 0xff == swi_halfword as u32 % 0x100) by (bit_vector);
    SwiEntry { number, cpsr: (spsr & 0x80) | 0x1f }
}

/// The exceptions, in the order of the vector table.
#[derive(Debug, Clone, Copy, PartialEq, Eq, Structural)]
pub enum Exception {
    Reset,
    Undefined,
    Swi,
    PrefetchAbort,
    DataAbort,
    Reserved,
    Irq,
    Fiq,
}

/// The exception whose vector sits at byte offset `offset` of the vector table.
pub open spec fn vector_at(offset: u32) -> Option<Exception> {
    if offset == 0x00 {
        Some(Exception::Reset)
    } else if offset == 0x04 {
        Some(Exception::Undefined)
    } else if offset == 0x08 {
        Some(Exception::Swi)
    } else if offset == 0x0C {
        Some(Exception::PrefetchAbort)
    } else if offset == 0x10 {
        Some(Exception::DataAbort)
    } else if offset == 0x14 {
        Some(Exception::Reserved)
    } else if offset == 0x18 {
        Some(Exception::Irq)
    } else if offset == 0x1C {
        Some(Exception::Fiq)
    } else {
        None
    }
}

/// The exception vector table: which handler the branch at byte offset `offset` leads to.
pub fn exception_vectors(offset: u32) -> (handler: Option<Exception>)
    ensures
        handler == vector_at(offset),
{
    match offset {
        0x00 => Some(Exception::Reset),
        0x04 => Some(Exception::Undefined),
        0x08 => Some(Exception::Swi),
        0x0C => Some(Exception::PrefetchAbort),
        0x10 => Some(Exception::DataAbort),
        0x14 => Some(Exception::Reserved),
        0x18 => Some(Exception::Irq),
        0x1C => Some(Exception::Fiq),
        _ => None,
    }
}

} // verus!
