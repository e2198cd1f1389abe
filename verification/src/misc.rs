use vstd::prelude::*;

verus! {

/// The signature that a hardware debugger answers with, one halfword per probe.
pub const DEBUGGER_IDENT: [u16; 4] = [0x56A9, 0x695A, 0xA695, 0x96A5];

/// The signature as a sequence.
pub open spec fn debugger_ident() -> Seq<u16> {
    seq![0x56A9u16, 0x695Au16, 0xA695u16, 0x96A5u16]
}

/// SWI 0x03, WaitByLoop: busy-waits `count` iterations (none when `count` is not positive).
/// Returns the number of iterations spent.
pub fn SVC_WaitByLoop(count: i32) -> (iterations: u32)
    ensures
        iterations as int == if count > 0 { count as int } else { 0 },
{
    let mut count = count;
    let mut iterations: u32 = 0;
    let ghost start = count;
    while count > 0
        invariant
            count <= start,
            start > 0 ==> count >= 0 && iterations as int == start - count,
            start <= 0 ==> count == start && iterations == 0,
        decreases count,
    {
        iterations += 1;
        count -= 1;
    }
    iterations
}

/// Number of the first `n` read-back halfwords that differ from the signature.
pub open spec fn mismatches(readback: Seq<u16>, n: int) -> nat
    decreases n,
{
    if n <= 0 {
        0
    } else {
        mismatches(readback, n - 1) + if readback[n - 1] != debugger_ident()[n - 1] { 1nat } else { 0nat }
    }
}

/// SWI 0x0F, IsDebugger: the BIOS writes each halfword of the signature to the result area
/// and reads back the halfword at the same place of the check area; `readback` holds the
/// four values read. On a retail unit (4 MB) the check area mirrors the result area, so the
/// signature comes back; on a debugger unit (8 MB) it does not. Returns 1 (debugger
/// detected) when at least three of the four halfwords differ from the signature, 0 otherwise.
pub fn SVC_IsDebugger(readback: &[u16]) -> (detected: u32)
    requires
        readback.len() == 4,
    ensures
        detected == (if mismatches(readback@, 4) >= 3 { 1u32 } else { 0u32 }),
{
    let ident = DEBUGGER_IDENT;
    assert(ident@ == debugger_ident());
    let mut mismatch_count: usize = 0;
    let mut i: usize = 0;
    while i < 4
        invariant
            i <= 4,
            readback.len() == 4,
            ident@ == debugger_ident(),
            mismatch_count == mismatches(readback@, i as int),
            mismatch_count <= i,
        decreases 4 - i,
    {
        let sig = ident[i];
        let val = readback[i];
        if val != sig {
            mismatch_count += 1;
        }
        i += 1;
    }
    if mismatch_count >= 3 {
        1
    } else {
        0
    }
}

} // verus!
