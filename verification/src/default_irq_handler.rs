use vstd::prelude::*;

verus! {

/// What the fallback IRQ handler writes back.
#[derive(Debug, Clone, Copy, PartialEq, Eq, Structural)]
pub struct IrqUpdate {
    /// New value of the interrupt-wait check bits at DTCM+0x3FF8.
    pub check_bits: u32,
    /// Value to write to IF (0x04000214) to acknowledge the interrupts.
    pub acknowledge: u32,
}

/// The fallback IRQ handler, used when the game installs none: adds the pending interrupts
/// `irq_flags` (read from IF) to the check bits that IntrWait watches, and acknowledges them.
pub fn default_irq_handler(irq_flags: u32, check_bits: u32) -> (update: IrqUpdate)
    ensures
        update.check_bits == check_bits | irq_flags,
        update.acknowledge == irq_flags,
{
    IrqUpdate { check_bits: check_bits | irq_flags, acknowledge: irq_flags }
}

/// Installs the fallback handler in the IRQ handler slot at DTCM+0x3FFC unless the game has
/// already put one there (a nonzero address). Returns the new content of the slot.
pub fn init_default_irq(installed: u32, default_handler: u32) -> (handler: u32)
    ensures
        handler == (if installed != 0 { installed } else { default_handler }),
{
    if installed != 0 {
        installed
    } else {
        default_handler
    }
}

/// An interrupt that IntrWait is waiting for ends the wait: once the fallback handler has
/// recorded interrupts `irq_flags`, the next check for `wait_mask` finds a flag exactly when
/// one of the recorded or earlier flags is requested, and so always when `irq_flags` holds one.
pub proof fn law_handled_irq_ends_wait(irq_flags: u32, check_bits: u32, wait_mask: u32)
    ensures
        (wait_mask & (check_bits | irq_flags) != 0) <==> (wait_mask & irq_flags != 0
            || wait_mask & check_bits != 0),
        wait_mask & irq_flags != 0 ==> wait_mask & (check_bits | irq_flags) != 0,
{
    assert((wait_mask & (check_bits | irq_flags) != 0) <==> (wait_mask & irq_flags != 0
        || wait_mask & check_bits != 0)) by (bit_vector);
}

} // verus!
