use vstd::prelude::*;

verus! {

/// Number of entries of the sine table.
pub const SINE_TABLE_LEN: usize = 1024;

/// Number of entries of the pitch table.
pub const PITCH_TABLE_LEN: usize = 768;

/// Entry `i` of the sine table: `10 * i` in 16-bit two's complement.
pub open spec fn sine_entry(i: int) -> i16 {
    (i * 10) as i16
}

/// The sine table kept in the BIOS data: 1024 entries, entry `i` being `i * 10` wrapped to 16 bits.
pub fn sine_table() -> (table: Vec<i16>)
    ensures
        table.len() == SINE_TABLE_LEN,
        forall|i: int| 0 <= i < SINE_TABLE_LEN ==> table@[i] == sine_entry(i),
{
    let mut table: Vec<i16> = Vec::new();
    let mut i: usize = 0;
    while i < SINE_TABLE_LEN
        invariant
            i <= SINE_TABLE_LEN,
            table.len() == i,
            forall|j: int| 0 <= j < i ==> table@[j] == sine_entry(j),
        decreases SINE_TABLE_LEN - i,
    {
        let x = i as i16;
        let v = x.wrapping_mul(10);
        assert(v == sine_entry(i as int)) by (bit_vector)
            requires
                i < 1024usize,
                x == i as i16,
                v == (if x * 10 > i16::MAX { (x * 10 - 0x1_0000) as i16 } else if x * 10 < i16::MIN { (x * 10 + 0x1_0000) as i16 } else { (x * 10) as i16 }),
        ;
        table.push(v);
        i += 1;
    }
    table
}

/// The pitch table kept in the BIOS data: 768 zero entries.
pub fn pitch_table() -> (table: Vec<u16>)
    ensures
        table.len() == PITCH_TABLE_LEN,
        forall|i: int| 0 <= i < PITCH_TABLE_LEN ==> table@[i] == 0,
{
    let mut table: Vec<u16> = Vec::new();
    let mut i: usize = 0;
    while i < PITCH_TABLE_LEN
        invariant
            i <= PITCH_TABLE_LEN,
            table.len() == i,
            forall|j: int| 0 <= j < i ==> table@[j] == 0,
        decreases PITCH_TABLE_LEN - i,
    {
        table.push(0);
        i += 1;
    }
    table
}

} // verus!
