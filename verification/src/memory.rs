use vstd::arithmetic::div_mod::lemma_fundamental_div_mod_converse;
use vstd::prelude::*;

verus! {

/// Number of units to transfer: bits 0 to 20 of the control word.
pub open spec fn control_count(control: u32) -> nat {
    (control & 0x1F_FFFF) as nat
}

/// Bit 24 of the control word: the source stays fixed (fill) instead of advancing (copy).
pub open spec fn control_fixed(control: u32) -> bool {
    control & 0x0100_0000 != 0
}

/// Bit 26 of the control word: units of 32 bits (4 bytes) instead of 16 bits (2 bytes).
pub open spec fn control_unit(control: u32) -> nat {
    if control & 0x0400_0000 != 0 { 4 } else { 2 }
}

/// Memory after a fill or copy of `count` units of `unit` bytes from `src` into `dst`:
/// a fill repeats the first unit of the source, a copy takes the source byte at the same
/// offset; bytes past the transfer keep their value.
pub open spec fn transferred(src: Seq<u8>, dst: Seq<u8>, count: nat, unit: nat, fixed: bool) -> Seq<u8> {
    Seq::new(
        dst.len(),
        |k: int|
            if k < count * unit {
                if fixed { src[k % unit as int] } else { src[k] }
            } else {
                dst[k]
            },
    )
}

/// Bytes that the source must hold for a transfer.
pub open spec fn source_need(count: nat, unit: nat, fixed: bool) -> nat {
    if fixed { unit } else { count * unit }
}

/// Unit `i` (of `unit` bytes) of `s`.
pub open spec fn unit_at(s: Seq<u8>, i: int, unit: nat) -> Seq<u8> {
    s.subrange(i * unit, i * unit + unit)
}

/// A copy makes the transferred range of the destination equal to the source, and leaves
/// the rest of the destination as it was.
pub proof fn law_copy_reproduces_source(src: Seq<u8>, dst: Seq<u8>, count: nat, unit: nat)
    requires
        src.len() >= count * unit,
        dst.len() >= count * unit,
    ensures
        transferred(src, dst, count, unit, false).len() == dst.len(),
        transferred(src, dst, count, unit, false).take((count * unit) as int) == src.take((count * unit) as int),
        transferred(src, dst, count, unit, false).skip((count * unit) as int) == dst.skip((count * unit) as int),
{
    let t = transferred(src, dst, count, unit, false);
    assert(t.take((count * unit) as int) =~= src.take((count * unit) as int));
    assert(t.skip((count * unit) as int) =~= dst.skip((count * unit) as int));
}

/// A fill writes the first unit of the source into every one of the `count` units of the
/// destination, and leaves the rest of the destination as it was.
pub proof fn law_fill_repeats_first_unit(src: Seq<u8>, dst: Seq<u8>, count: nat, unit: nat, i: int)
    requires
        unit == 2 || unit == 4,
        src.len() >= unit,
        dst.len() >= count * unit,
        0 <= i < count,
    ensures
        transferred(src, dst, count, unit, true).subrange(i * unit, i * unit + unit) == src.take(unit as int),
        transferred(src, dst, count, unit, true).skip((count * unit) as int) == dst.skip((count * unit) as int),
{
    let t = transferred(src, dst, count, unit, true);
    assert((i + 1) * unit <= count * unit) by (nonlinear_arith)
        requires i + 1 <= count, unit >= 0;
    assert(i * unit + unit == (i + 1) * unit) by (nonlinear_arith);
    assert forall|j: int| 0 <= j < unit implies #[trigger] t.subrange(i * unit, i * unit + unit)[j] == src.take(
        unit as int,
    )[j] by {
        lemma_fundamental_div_mod_converse(i * unit + j, unit as int, i, j);
        assert(i * unit + j == unit * i + j) by (nonlinear_arith);
    }
    assert(t.subrange(i * unit, i * unit + unit) =~= src.take(unit as int));
    assert(t.skip((count * unit) as int) =~= dst.skip((count * unit) as int));
}

/// What a transfer writes does not depend on what the destination held: two destinations
/// of the same length end up equal over the transferred range.
pub proof fn law_transfer_ignores_old_destination(
    src: Seq<u8>,
    d1: Seq<u8>,
    d2: Seq<u8>,
    count: nat,
    unit: nat,
    fixed: bool,
)
    requires
        d1.len() >= count * unit,
        d2.len() >= count * unit,
    ensures
        transferred(src, d1, count, unit, fixed).take((count * unit) as int) == transferred(
            src,
            d2,
            count,
            unit,
            fixed,
        ).take((count * unit) as int),
{
    assert(transferred(src, d1, count, unit, fixed).take((count * unit) as int) =~= transferred(
        src,
        d2,
        count,
        unit,
        fixed,
    ).take((count * unit) as int));
}

/// The copy, fill and untouched-tail facts of a transfer, gathered for the two services.
proof fn transfer_facts(src: Seq<u8>, dst: Seq<u8>, count: nat, unit: nat, fixed: bool)
    requires
        unit == 2 || unit == 4,
        src.len() >= source_need(count, unit, fixed),
        dst.len() >= count * unit,
    ensures
        transferred(src, dst, count, unit, fixed).len() == dst.len(),
        transferred(src, dst, count, unit, fixed).skip((count * unit) as int) == dst.skip((count * unit) as int),
        !fixed ==> transferred(src, dst, count, unit, fixed).take((count * unit) as int) == src.take(
            (count * unit) as int,
        ),
        fixed ==> forall|i: int|
            0 <= i < count ==> #[trigger] unit_at(transferred(src, dst, count, unit, fixed), i, unit)
                == src.take(unit as int),
{
    if fixed {
        assert(transferred(src, dst, count, unit, fixed).skip((count * unit) as int) =~= dst.skip(
            (count * unit) as int,
        ));
        assert forall|i: int| 0 <= i < count implies #[trigger] unit_at(
            transferred(src, dst, count, unit, fixed),
            i,
            unit,
        ) == src.take(unit as int) by {
            law_fill_repeats_first_unit(src, dst, count, unit, i);
        }
    } else {
        law_copy_reproduces_source(src, dst, count, unit);
    }
}

/// Bytes of a 32-bit word in memory order (little-endian).
pub open spec fn word_bytes(v: u32) -> Seq<u8> {
    seq![(v & 0xff) as u8, ((v >> 8u32) & 0xff) as u8, ((v >> 16u32) & 0xff) as u8, ((v >> 24u32) & 0xff) as u8]
}

/// Bytes of a 16-bit halfword in memory order (little-endian).
pub open spec fn half_bytes(v: u16) -> Seq<u8> {
    seq![(v & 0xff) as u8, ((v >> 8u16) & 0xff) as u8]
}

/// Loads the little-endian word at `off`.
fn load_u32(src: &[u8], off: usize) -> (v: u32)
    requires
        off + 4 <= src.len(),
    ensures
        word_bytes(v) == src@.subrange(off as int, off + 4),
{
    let b0 = src[off];
    let b1 = src[off + 1];
    let b2 = src[off + 2];
    let b3 = src[off + 3];
    let v: u32 = (b0 as u32) | ((b1 as u32) << 8) | ((b2 as u32) << 16) | ((b3 as u32) << 24);
    assert((v & 0xff) as u8 == b0 && ((v >> 8u32) & 0xff) as u8 == b1 && ((v >> 16u32) & 0xff) as u8
        == b2 && ((v >> 24u32) & 0xff) as u8 == b3) by (bit_vector)
        requires
            v == (b0 as u32) | ((b1 as u32) << 8u32) | ((b2 as u32) << 16u32) | ((b3 as u32) << 24u32),
    ;
    assert(word_bytes(v) =~= src@.subrange(off as int, off + 4));
    v
}

/// Stores `v` little-endian at `off`.
fn store_u32(dst: &mut Vec<u8>, off: usize, v: u32)
    requires
        off + 4 <= old(dst).len(),
    ensures
        final(dst).len() == old(dst).len(),
        forall|k: int| off <= k < off + 4 ==> final(dst)@[k] == word_bytes(v)[k - off],
        forall|k: int| 0 <= k < old(dst).len() && !(off <= k < off + 4) ==> final(dst)@[k] == old(dst)@[k],
{
    dst.set(off, (v & 0xff) as u8);
    dst.set(off + 1, ((v >> 8) & 0xff) as u8);
    dst.set(off + 2, ((v >> 16) & 0xff) as u8);
    dst.set(off + 3, ((v >> 24) & 0xff) as u8);
}

/// Loads the little-endian halfword at `off`.
fn load_u16(src: &[u8], off: usize) -> (v: u16)
    requires
        off + 2 <= src.len(),
    ensures
        half_bytes(v) == src@.subrange(off as int, off + 2),
{
    let b0 = src[off];
    let b1 = src[off + 1];
    let v: u16 = (b0 as u16) | ((b1 as u16) << 8);
    assert((v & 0xff) as u8 == b0 && ((v >> 8u16) & 0xff) as u8 == b1) by (bit_vector)
        requires
            v == (b0 as u16) | ((b1 as u16) << 8u16),
    ;
    assert(half_bytes(v) =~= src@.subrange(off as int, off + 2));
    v
}

/// Stores `v` little-endian at `off`.
fn store_u16(dst: &mut Vec<u8>, off: usize, v: u16)
    requires
        off + 2 <= old(dst).len(),
    ensures
        final(dst).len() == old(dst).len(),
        forall|k: int| off <= k < off + 2 ==> final(dst)@[k] == half_bytes(v)[k - off],
        forall|k: int| 0 <= k < old(dst).len() && !(off <= k < off + 2) ==> final(dst)@[k] == old(dst)@[k],
{
    dst.set(off, (v & 0xff) as u8);
    dst.set(off + 1, ((v >> 8) & 0xff) as u8);
}

/// Fills `count` words of `dst` with the first word of `src`.
fn fill_words(src: &[u8], dst: &mut Vec<u8>, count: usize)
    requires
        src.len() >= 4,
        old(dst).len() >= 4 * count,
    ensures
        final(dst)@ == transferred(src@, old(dst)@, count as nat, 4, true),
{
    let val = load_u32(src, 0);
    for i in 0..count
        invariant
            src.len() >= 4,
            word_bytes(val) == src@.subrange(0, 4),
            dst.len() == old(dst).len(),
            old(dst).len() >= 4 * count,
            forall|k: int| 0 <= k < 4 * i ==> dst@[k] == src@[k % 4],
            forall|k: int| 4 * i <= k < dst.len() ==> dst@[k] == old(dst)@[k],
    {
        store_u32(dst, 4 * i, val);
    }
    assert(dst@ =~= transferred(src@, old(dst)@, count as nat, 4, true));
}

/// Copies `count` words from `src` to `dst`.
fn copy_words(src: &[u8], dst: &mut Vec<u8>, count: usize)
    requires
        src.len() >= 4 * count,
        old(dst).len() >= 4 * count,
    ensures
        final(dst)@ == transferred(src@, old(dst)@, count as nat, 4, false),
{
    for i in 0..count
        invariant
            src.len() >= 4 * count,
            dst.len() == old(dst).len(),
            old(dst).len() >= 4 * count,
            forall|k: int| 0 <= k < 4 * i ==> dst@[k] == src@[k],
            forall|k: int| 4 * i <= k < dst.len() ==> dst@[k] == old(dst)@[k],
    {
        let v = load_u32(src, 4 * i);
        store_u32(dst, 4 * i, v);
    }
    assert(dst@ =~= transferred(src@, old(dst)@, count as nat, 4, false));
}

/// Fills `count` halfwords of `dst` with the first halfword of `src`.
fn fill_halves(src: &[u8], dst: &mut Vec<u8>, count: usize)
    requires
        src.len() >= 2,
        old(dst).len() >= 2 * count,
    ensures
        final(dst)@ == transferred(src@, old(dst)@, count as nat, 2, true),
{
    let val = load_u16(src, 0);
    for i in 0..count
        invariant
            src.len() >= 2,
            half_bytes(val) == src@.subrange(0, 2),
            dst.len() == old(dst).len(),
            old(dst).len() >= 2 * count,
            forall|k: int| 0 <= k < 2 * i ==> dst@[k] == src@[k % 2],
            forall|k: int| 2 * i <= k < dst.len() ==> dst@[k] == old(dst)@[k],
    {
        store_u16(dst, 2 * i, val);
    }
    assert(dst@ =~= transferred(src@, old(dst)@, count as nat, 2, true));
}

/// Copies `count` halfwords from `src` to `dst`.
fn copy_halves(src: &[u8], dst: &mut Vec<u8>, count: usize)
    requires
        src.len() >= 2 * count,
        old(dst).len() >= 2 * count,
    ensures
        final(dst)@ == transferred(src@, old(dst)@, count as nat, 2, false),
{
    for i in 0..count
        invariant
            src.len() >= 2 * count,
            dst.len() == old(dst).len(),
            old(dst).len() >= 2 * count,
            forall|k: int| 0 <= k < 2 * i ==> dst@[k] == src@[k],
            forall|k: int| 2 * i <= k < dst.len() ==> dst@[k] == old(dst)@[k],
    {
        let v = load_u16(src, 2 * i);
        store_u16(dst, 2 * i, v);
    }
    assert(dst@ =~= transferred(src@, old(dst)@, count as nat, 2, false));
}

/// Bytes that a CpuSet with control word `control` reads from its source and writes to
/// its destination.
pub fn cpu_set_sizes(control: u32) -> (sizes: (usize, usize))
    ensures
        sizes.0 as nat == source_need(control_count(control), control_unit(control), control_fixed(control)),
        sizes.1 as nat == control_count(control) * control_unit(control),
{
    let count = (control & 0x1FFFFF) as usize;
    let unit: usize = if (control & 0x0400_0000) != 0 { 4 } else { 2 };
    assert(control & 0x1F_FFFF <= 0x1F_FFFF) by (bit_vector);
    assert(count * unit <= 0x1F_FFFF * 4) by (nonlinear_arith)
        requires count <= 0x1F_FFFF, unit <= 4;
    let dst_bytes = count * unit;
    if (control & 0x0100_0000) != 0 {
        (unit, dst_bytes)
    } else {
        (dst_bytes, dst_bytes)
    }
}

/// Bytes that a CpuFastSet with control word `control` reads from its source and writes to
/// its destination.
pub fn cpu_fast_set_sizes(control: u32) -> (sizes: (usize, usize))
    ensures
        sizes.0 as nat == source_need(control_count(control), 4, control_fixed(control)),
        sizes.1 as nat == control_count(control) * 4,
{
    let count = (control & 0x1FFFFF) as usize;
    assert(control & 0x1F_FFFF <= 0x1F_FFFF) by (bit_vector);
    let dst_bytes = count * 4;
    if (control & 0x0100_0000) != 0 {
        (4, dst_bytes)
    } else {
        (dst_bytes, dst_bytes)
    }
}

/// SWI 0x0B, CpuSet: fills or copies memory by 16- or 32-bit units as the control word
/// says (bits 0-20 count, bit 24 fixed source, bit 26 unit of 32 bits).
/// Source and destination are separate buffers here: transfers between overlapping
/// regions of memory are outside this model.
pub fn SVC_CpuSet(src: &[u8], dst: &mut Vec<u8>, control: u32)
    requires
        src.len() >= source_need(control_count(control), control_unit(control), control_fixed(control)),
        old(dst).len() >= control_count(control) * control_unit(control),
    ensures
        final(dst)@ == transferred(
            src@,
            old(dst)@,
            control_count(control),
            control_unit(control),
            control_fixed(control),
        ),
        final(dst).len() == old(dst).len(),
        final(dst)@.skip((control_count(control) * control_unit(control)) as int) == old(dst)@.skip(
            (control_count(control) * control_unit(control)) as int,
        ),
        !control_fixed(control) ==> final(dst)@.take((control_count(control) * control_unit(control)) as int)
            == src@.take((control_count(control) * control_unit(control)) as int),
        control_fixed(control) ==> forall|i: int|
            0 <= i < control_count(control) ==> #[trigger] unit_at(final(dst)@, i, control_unit(control))
                == src@.take(control_unit(control) as int),
{
    let count = (control & 0x1FFFFF) as usize;
    let fixed_source = (control & (1 << 24)) != 0;
    let size_32 = (control & (1 << 26)) != 0;
    assert((1u32 << 24u32) == 0x0100_0000u32 && (1u32 << 26u32) == 0x0400_0000u32) by (bit_vector);
    assert(count as nat == control_count(control));
    assert(size_32 == (control_unit(control) == 4));
    assert(fixed_source == control_fixed(control));
    assert(count * 4 == 4 * count && count * 2 == 2 * count) by (nonlinear_arith);

    if size_32 {
        if fixed_source {
            fill_words(src, dst, count);
        } else {
            copy_words(src, dst, count);
        }
    } else {
        if fixed_source {
            fill_halves(src, dst, count);
        } else {
            copy_halves(src, dst, count);
        }
    }    proof {
        transfer_facts(src@, old(dst)@, control_count(control), control_unit(control), control_fixed(control));
    }
}

/// SWI 0x0C, CpuFastSet: fills or copies memory by 32-bit units (bits 0-20 count,
/// bit 24 fixed source). Overlapping source and destination regions are outside this model.
pub fn SVC_CpuFastSet(src: &[u8], dst: &mut Vec<u8>, control: u32)
    requires
        src.len() >= source_need(control_count(control), 4, control_fixed(control)),
        old(dst).len() >= control_count(control) * 4,
    ensures
        final(dst)@ == transferred(src@, old(dst)@, control_count(control), 4, control_fixed(control)),
        final(dst).len() == old(dst).len(),
        final(dst)@.skip((control_count(control) * 4) as int) == old(dst)@.skip((control_count(control) * 4) as int),
        !control_fixed(control) ==> final(dst)@.take((control_count(control) * 4) as int) == src@.take(
            (control_count(control) * 4) as int,
        ),
        control_fixed(control) ==> forall|i: int|
            0 <= i < control_count(control) ==> #[trigger] unit_at(final(dst)@, i, 4) == src@.take(4),
{
    let count = (control & 0x1FFFFF) as usize;
    let fixed_source = (control & (1 << 24)) != 0;
    assert((1u32 << 24u32) == 0x0100_0000u32) by (bit_vector);
    assert(count as nat == control_count(control));
    assert(count * 4 == 4 * count) by (nonlinear_arith);

    if fixed_source {
        fill_words(src, dst, count);
    } else {
        copy_words(src, dst, count);
    }    proof {
        transfer_facts(src@, old(dst)@, control_count(control), 4, control_fixed(control));
    }
}

/// CpuFastSet is CpuSet with the 32-bit unit bit forced on: the same count, the same
/// fill or copy choice, and units of four bytes.
pub proof fn law_fast_set_is_word_set(control: u32)
    ensures
        control_count(control | 0x0400_0000) == control_count(control),
        control_fixed(control | 0x0400_0000) == control_fixed(control),
        control_unit(control | 0x0400_0000) == 4,
{
    assert((control | 0x0400_0000) & 0x1F_FFFF == control & 0x1F_FFFF) by (bit_vector);
    assert(((control | 0x0400_0000) & 0x0100_0000 != 0) == (control & 0x0100_0000 != 0)) by (bit_vector);
    assert((control | 0x0400_0000) & 0x0400_0000 != 0) by (bit_vector);
}

} // verus!
