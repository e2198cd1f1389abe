use vstd::prelude::*;

verus! {

/// The CRC-16 polynomial 0x8005 with its bits reversed, for least-significant-bit-first processing.
pub const CRC16_POLY: u16 = 0xA001;

/// One bit of the reflected CRC-16: shift right, folding in the polynomial when a one drops out.
pub open spec fn crc16_shift(c: u16) -> u16 {
    if c & 1 != 0 { (c >> 1u16) ^ CRC16_POLY } else { c >> 1u16 }
}

/// `n` bit steps of the CRC.
pub open spec fn crc16_shift_n(c: u16, n: nat) -> u16
    decreases n,
{
    if n == 0 { c } else { crc16_shift(crc16_shift_n(c, (n - 1) as nat)) }
}

/// The CRC after taking in one byte: the byte enters the low bits, then eight bit steps.
pub open spec fn crc16_byte(c: u16, b: u8) -> u16 {
    crc16_shift_n(c ^ (b as u16), 8)
}

/// The CRC-16 (polynomial 0x8005, reflected) of `data`, starting from the value `c`.
pub open spec fn crc16(c: u16, data: Seq<u8>) -> u16
    decreases data.len(),
{
    if data.len() == 0 { c } else { crc16_byte(crc16(c, data.drop_last()), data.last()) }
}

/// SWI 0x0E: the CRC-16 of the first `len` bytes of `data`, continuing from `crc`.
pub fn swi_crc16_impl(crc: u16, data: &[u8], len: u32) -> (result: u16)
    requires
        len as nat <= data.len(),
    ensures
        result == crc16(crc, data@.take(len as int)),
{
    let mut crc = crc;
    let mut len = len;
    let ghost crc0 = crc;
    let ghost len0 = len;
    let mut i: usize = 0;
    assert(data@.take(0) =~= Seq::<u8>::empty());

    while len > 0
        invariant
            i as nat + len as nat == len0 as nat,
            len0 as nat <= data.len(),
            crc == crc16(crc0, data@.take(i as int)),
        decreases len,
    {
        let ghost before = crc;
        // the byte enters the low bits of the CRC
        crc ^= data[i] as u16;
        let ghost start = crc;

        // then the eight bits of the byte are processed
        for k in 0..8
            invariant
                crc == crc16_shift_n(start, k as nat),
        {
            if (crc & 1) != 0 {
                crc = (crc >> 1) ^ CRC16_POLY;
            } else {
                crc >>= 1;
            }
        }
        proof {
            assert(data@.take(i as int + 1).drop_last() =~= data@.take(i as int));
        }
        i += 1;
        len -= 1;
    }
    crc
}

/// A CRC can be computed in pieces: the CRC of `a + b` from `c` is the CRC of `b`
/// continued from the CRC of `a`. This is why SWI 0x0E takes a starting value.
pub proof fn law_crc16_chains(c: u16, a: Seq<u8>, b: Seq<u8>)
    ensures
        crc16(crc16(c, a), b) == crc16(c, a + b),
    decreases b.len(),
{
    if b.len() == 0 {
        assert(a + b =~= a);
    } else {
        law_crc16_chains(c, a, b.drop_last());
        assert((a + b).drop_last() =~= a + b.drop_last());
        assert((a + b).last() == b.last());
    }
}

/// The CRC-16/ARC byte table, entry `i`: the CRC of the single byte `i` from zero.
/// The table is linear over the bits of `i`; these are the entries of the eight single bits.
pub open spec fn arc_table(i: u8) -> u16 {
    (if i & 0x01 != 0 { 0xC0C1u16 } else { 0u16 })
        ^ (if i & 0x02 != 0 { 0xC181u16 } else { 0u16 })
        ^ (if i & 0x04 != 0 { 0xC301u16 } else { 0u16 })
        ^ (if i & 0x08 != 0 { 0xC601u16 } else { 0u16 })
        ^ (if i & 0x10 != 0 { 0xCC01u16 } else { 0u16 })
        ^ (if i & 0x20 != 0 { 0xD801u16 } else { 0u16 })
        ^ (if i & 0x40 != 0 { 0xF001u16 } else { 0u16 })
        ^ (if i & 0x80 != 0 { 0xA001u16 } else { 0u16 })
}

/// Eight reflected shift steps of `x0` reduce to a table lookup on its low byte.
proof fn lemma_eight_steps(
    x0: u16,
    x1: u16,
    x2: u16,
    x3: u16,
    x4: u16,
    x5: u16,
    x6: u16,
    x7: u16,
    x8: u16,
    c: u16,
    b: u8,
    t: u16,
)
    by (bit_vector)
    requires
        x0 == c ^ (b as u16),
        x1 == (if x0 & 1 != 0 { (x0 >> 1u16) ^ 0xA001u16 } else { x0 >> 1u16 }),
        x2 == (if x1 & 1 != 0 { (x1 >> 1u16) ^ 0xA001u16 } else { x1 >> 1u16 }),
        x3 == (if x2 & 1 != 0 { (x2 >> 1u16) ^ 0xA001u16 } else { x2 >> 1u16 }),
        x4 == (if x3 & 1 != 0 { (x3 >> 1u16) ^ 0xA001u16 } else { x3 >> 1u16 }),
        x5 == (if x4 & 1 != 0 { (x4 >> 1u16) ^ 0xA001u16 } else { x4 >> 1u16 }),
        x6 == (if x5 & 1 != 0 { (x5 >> 1u16) ^ 0xA001u16 } else { x5 >> 1u16 }),
        x7 == (if x6 & 1 != 0 { (x6 >> 1u16) ^ 0xA001u16 } else { x6 >> 1u16 }),
        x8 == (if x7 & 1 != 0 { (x7 >> 1u16) ^ 0xA001u16 } else { x7 >> 1u16 }),
        t == (if x0 & 0x01 != 0 { 0xC0C1u16 } else { 0u16 }) ^ (if x0 & 0x02 != 0 { 0xC181u16 } else { 0u16 })
            ^ (if x0 & 0x04 != 0 { 0xC301u16 } else { 0u16 }) ^ (if x0 & 0x08 != 0 { 0xC601u16 } else { 0u16 })
            ^ (if x0 & 0x10 != 0 { 0xCC01u16 } else { 0u16 }) ^ (if x0 & 0x20 != 0 { 0xD801u16 } else { 0u16 })
            ^ (if x0 & 0x40 != 0 { 0xF001u16 } else { 0u16 }) ^ (if x0 & 0x80 != 0 { 0xA001u16 } else { 0u16 }),
    ensures
        x8 == (c >> 8u16) ^ t,
{
}

/// The CRC of one byte is the CRC-16/ARC table step: the old CRC shifted down by eight bits,
/// combined with the table entry of the low byte of the old CRC xor the data byte. The byte
/// enters only the low eight bits of the CRC.
pub proof fn law_crc16_byte_is_table_step(c: u16, b: u8)
    ensures
        crc16(c, seq![b]) == (c >> 8u16) ^ arc_table(((c ^ (b as u16)) & 0xFF) as u8),
{
    let s = seq![b];
    assert(s.drop_last() =~= Seq::<u8>::empty());
    assert(crc16(c, s.drop_last()) == c);
    let x0 = c ^ (b as u16);
    let x1 = crc16_shift(x0);
    let x2 = crc16_shift(x1);
    let x3 = crc16_shift(x2);
    let x4 = crc16_shift(x3);
    let x5 = crc16_shift(x4);
    let x6 = crc16_shift(x5);
    let x7 = crc16_shift(x6);
    let x8 = crc16_shift(x7);
    reveal_with_fuel(crc16_shift_n, 9);
    assert(crc16_shift_n(x0, 8) == x8);
    let i = ((c ^ (b as u16)) & 0xFF) as u8;
    let t = arc_table(i);
    assert(t == (if x0 & 0x01 != 0 { 0xC0C1u16 } else { 0u16 }) ^ (if x0 & 0x02 != 0 { 0xC181u16 } else { 0u16 })
        ^ (if x0 & 0x04 != 0 { 0xC301u16 } else { 0u16 }) ^ (if x0 & 0x08 != 0 { 0xC601u16 } else { 0u16 })
        ^ (if x0 & 0x10 != 0 { 0xCC01u16 } else { 0u16 }) ^ (if x0 & 0x20 != 0 { 0xD801u16 } else { 0u16 })
        ^ (if x0 & 0x40 != 0 { 0xF001u16 } else { 0u16 }) ^ (if x0 & 0x80 != 0 { 0xA001u16 } else { 0u16 })) by {
        assert(i & 0x01 == x0 & 0x01 && i & 0x02 == x0 & 0x02 && i & 0x04 == x0 & 0x04 && i & 0x08 == x0 & 0x08
            && i & 0x10 == x0 & 0x10 && i & 0x20 == x0 & 0x20 && i & 0x40 == x0 & 0x40 && i & 0x80 == x0 & 0x80)
            by (bit_vector)
            requires i == ((x0 & 0xFF) as u8);
    }
    lemma_eight_steps(x0, x1, x2, x3, x4, x5, x6, x7, x8, c, b, t);
}

/// From zero, the CRC of a single byte is its table entry.
pub proof fn law_crc16_of_byte_from_zero(b: u8)
    ensures
        crc16(0, seq![b]) == arc_table(b),
{
    law_crc16_byte_is_table_step(0, b);
    assert(((0u16 ^ (b as u16)) & 0xFF) as u8 == b && (0u16 >> 8u16) ^ arc_table(b) == arc_table(b)) by (bit_vector);
}

} // verus!
