use vstd::prelude::*;

verus! {

/// The services that the software-interrupt dispatcher knows.
#[derive(Debug, Clone, Copy, PartialEq, Eq, Structural)]
pub enum SwiService {
    SoftReset,
    RegisterRamReset,
    WaitByLoop,
    IntrWait,
    VBlankIntrWait,
    Halt,
    Stop,
    Div,
    DivArm,
    CpuSet,
    CpuFastSet,
    Sqrt,
    GetCrc16,
    IsDebugger,
    Lz77UnCompWram,
}

/// The service table: which SWI number selects which service.
pub open spec fn swi_service(swi_num: u32) -> Option<SwiService> {
    if swi_num == 0x00 {
        Some(SwiService::SoftReset)
    } else if swi_num == 0x01 {
        Some(SwiService::RegisterRamReset)
    } else if swi_num == 0x03 {
        Some(SwiService::WaitByLoop)
    } else if swi_num == 0x04 {
        Some(SwiService::IntrWait)
    } else if swi_num == 0x05 {
        Some(SwiService::VBlankIntrWait)
    } else if swi_num == 0x06 {
        Some(SwiService::Halt)
    } else if swi_num == 0x07 {
        Some(SwiService::Stop)
    } else if swi_num == 0x09 {
        Some(SwiService::Div)
    } else if swi_num == 0x0A {
        Some(SwiService::DivArm)
    } else if swi_num == 0x0B {
        Some(SwiService::CpuSet)
    } else if swi_num == 0x0C {
        Some(SwiService::CpuFastSet)
    } else if swi_num == 0x0D {
        Some(SwiService::Sqrt)
    } else if swi_num == 0x0E {
        Some(SwiService::GetCrc16)
    } else if swi_num == 0x0F {
        Some(SwiService::IsDebugger)
    } else if swi_num == 0x11 {
        Some(SwiService::Lz77UnCompWram)
    } else {
        None
    }
}

/// The SWI dispatcher: the service that `swi_num` selects, or `None` for a number
/// that selects nothing (the call then does nothing).
pub fn swi_dispatch(swi_num: u32) -> (service: Option<SwiService>)
    ensures
        service == swi_service(swi_num),
{
    match swi_num {
        0x00 => Some(SwiService::SoftReset),
        0x01 => Some(SwiService::RegisterRamReset),
        0x03 => Some(SwiService::WaitByLoop),
        0x04 => Some(SwiService::IntrWait),
        0x05 => Some(SwiService::VBlankIntrWait),
        0x06 => Some(SwiService::Halt),
        0x07 => Some(SwiService::Stop),
        // arithmetic
        0x09 => Some(SwiService::Div),
        0x0A => Some(SwiService::DivArm),
        // memory
        0x0B => Some(SwiService::CpuSet),
        0x0C => Some(SwiService::CpuFastSet),
        0x0D => Some(SwiService::Sqrt),
        // utilities
        0x0E => Some(SwiService::GetCrc16),
        0x0F => Some(SwiService::IsDebugger),
        // decompression
        0x11 => Some(SwiService::Lz77UnCompWram),
        _ => None,
    }
}

/// The outcome of one check of the interrupt-wait flags.
#[derive(Debug, Clone, Copy, PartialEq, Eq, Structural)]
pub struct FlagCheck {
    /// The requested flags that were set (0 when none was).
    pub matched: u32,
    /// The flags to store back: those that were set, less the matched ones.
    pub flags: u32,
}

/// Checks the interrupt-wait flags `flags` for the requested ones and clears those found.
/// (The BIOS disables interrupts around this read-modify-write.)
pub fn sub_0800(requested: u32, flags: u32) -> (check: FlagCheck)
    ensures
        check.matched == requested & flags,
        check.flags == flags & !requested,
{
    let matched = requested & flags;
    let new_flags = if matched != 0 { flags ^ matched } else { flags };
    assert((requested & flags) != 0 ==> flags ^ (requested & flags) == flags & !requested) by (bit_vector);
    assert((requested & flags) == 0 ==> flags == flags & !requested) by (bit_vector);
    FlagCheck { matched, flags: new_flags }
}

/// SWI 0x04, IntrWait, at its start: when `discard_old` is nonzero, the requested flags
/// already set are discarded first. Returns the flags to store before the first halt;
/// after each wake-up the wait checks with `sub_0800` and ends once a requested flag is found.
pub fn swi_intr_wait(discard_old: u32, wait_mask: u32, flags: u32) -> (start_flags: u32)
    ensures
        start_flags == (if discard_old != 0 { flags & !wait_mask } else { flags }),
{
    if discard_old != 0 {
        sub_0800(wait_mask, flags).flags
    } else {
        flags
    }
}

/// SWI 0x05, VBlankIntrWait: IntrWait that discards old flags and waits for V-blank (bit 0).
pub fn swi_vblank_intr_wait(flags: u32) -> (start_flags: u32)
    ensures
        start_flags == flags & !1u32,
{
    swi_intr_wait(1, 1, flags)
}

/// A check clears exactly the requested flags: what it found and what it stores back
/// together make up the flags it read, and no requested flag is left set.
pub proof fn law_check_clears_requested(requested: u32, flags: u32)
    ensures
        (requested & flags) | (flags & !requested) == flags,
        (requested & flags) & (flags & !requested) == 0,
        (flags & !requested) & requested == 0,
{
    assert((requested & flags) | (flags & !requested) == flags) by (bit_vector);
    assert((requested & flags) & (flags & !requested) == 0) by (bit_vector);
    assert((flags & !requested) & requested == 0) by (bit_vector);
}

} // verus!
