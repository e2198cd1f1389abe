use vstd::arithmetic::div_mod::*;
use vstd::prelude::*;

verus! {

/// The data size that a compressed-data header announces: bits 8 to 31 of the
/// little-endian word at the start of the source.
pub open spec fn header_size(src: Seq<u8>) -> nat {
    src[1] as nat + src[2] as nat * 0x100 + src[3] as nat * 0x1_0000
}

/// The size is the whole 24-bit field above the low byte of the little-endian header word:
/// the header word shifted right by eight, so the third size byte counts in full.
pub proof fn law_header_size_is_word_field(s: Seq<u8>)
    requires
        s.len() >= 4,
    ensures
        header_size(s) == (((s[0] as u32) | ((s[1] as u32) << 8u32) | ((s[2] as u32) << 16u32)
            | ((s[3] as u32) << 24u32)) >> 8u32) as nat,
        header_size(s) < 0x100_0000,
        header_size(s) / 0x1_0000 == s[3] as nat,
{
    let b0 = s[0];
    let b1 = s[1];
    let b2 = s[2];
    let b3 = s[3];
    assert((((b0 as u32) | ((b1 as u32) << 8u32) | ((b2 as u32) << 16u32) | ((b3 as u32) << 24u32))
        >> 8u32) as nat == b1 as nat + b2 as nat * 0x100 + b3 as nat * 0x1_0000) by (bit_vector);
    let h = header_size(s) as int;
    vstd::arithmetic::div_mod::lemma_fundamental_div_mod_converse(
        h,
        0x1_0000,
        b3 as int,
        b1 as int + b2 as int * 0x100,
    );
}

/// Reads the size field of the header word at the start of `src`.
fn read_header_size(src: &[u8]) -> (size: usize)
    requires
        src.len() >= 4,
    ensures
        size as nat == header_size(src@),
{
    let b0 = src[0];
    let b1 = src[1];
    let b2 = src[2];
    let b3 = src[3];
    let header: u32 = (b0 as u32) | ((b1 as u32) << 8) | ((b2 as u32) << 16) | ((b3 as u32) << 24);
    assert((header >> 8u32) as nat == b1 as nat + b2 as nat * 0x100 + b3 as nat * 0x1_0000)
        by (bit_vector)
        requires
            header == (b0 as u32) | ((b1 as u32) << 8u32) | ((b2 as u32) << 16u32) | ((b3 as u32)
                << 24u32),
    ;
    (header >> 8) as usize
}

/// Sum of the bytes of `d`.
pub open spec fn sum8(d: Seq<u8>) -> nat
    decreases d.len(),
{
    if d.len() == 0 { 0 } else { sum8(d.drop_last()) + d.last() as nat }
}

/// Undoing an 8-bit delta filter: each output byte is the running sum, modulo 256, of the
/// input bytes up to and including its own position.
pub open spec fn unfilter8(d: Seq<u8>) -> Seq<u8> {
    Seq::new(d.len(), |i: int| (sum8(d.take(i + 1)) % 0x100) as u8)
}

/// The 8-bit delta filter: the first byte, then the difference, modulo 256, of each byte
/// and the one before it.
pub open spec fn delta8(s: Seq<u8>) -> Seq<u8> {
    Seq::new(s.len(), |i: int| if i == 0 { s[0] } else { ((s[i] - s[i - 1]) % 0x100) as u8 })
}

/// SWI 0x16, Diff8UnFilter: reads the size from the header word of `src`, then writes to
/// `dst` the running sums, modulo 256, of that many bytes following the header.
pub fn SVC_Diff8UnFilter(src: &[u8], dst: &mut Vec<u8>)
    requires
        src.len() >= 4,
        header_size(src@) >= 1,
        src.len() >= 4 + header_size(src@),
        old(dst).len() >= header_size(src@),
    ensures
        final(dst)@ == unfilter8(src@.subrange(4, 4 + header_size(src@) as int)) + old(dst)@.skip(
            header_size(src@) as int,
        ),
{
    let count = read_header_size(src);
    let ghost data = src@.subrange(4, 4 + count as int);
    let ghost out = unfilter8(data);

    // the first value is copied as it is
    let mut acc: u8 = src[4];
    let mut si: usize = 5;
    dst.set(0, acc);
    let mut di: usize = 1;
    proof {
        assert(data.take(1).drop_last() =~= Seq::<u8>::empty());
        assert(sum8(data.take(1).drop_last()) == 0);
        assert(sum8(data.take(1)) == acc);
    }

    let mut k: usize = 0;
    while k < count - 1
        invariant
            count as nat == header_size(src@),
            1 <= count,
            src.len() >= 4 + count,
            data == src@.subrange(4, 4 + count as int),
            out == unfilter8(data),
            k < count,
            di == k + 1,
            si == 5 + k,
            dst.len() == old(dst).len(),
            old(dst).len() >= count,
            acc as nat == sum8(data.take(di as int)) % 0x100,
            forall|j: int| 0 <= j < di ==> dst@[j] == out[j],
            forall|j: int| di <= j < dst.len() ==> dst@[j] == old(dst)@[j],
        decreases count - 1 - k,
    {
        let val = src[si];
        si += 1;
        // the sum wraps around silently
        acc = acc.wrapping_add(val);
        proof {
            assert(data.take(di as int + 1).drop_last() =~= data.take(di as int));
            assert(data[di as int] == val);
        }
        dst.set(di, acc);
        di += 1;
        k += 1;
    }
    proof {
        assert(dst@ =~= out + old(dst)@.skip(count as int));
    }
}

/// Adding `x`, with `0 <= x < m`, then reducing modulo `m` moves the residue of `a` by exactly `x`.
proof fn lemma_mod_difference(a: int, x: int, m: int)
    requires
        0 <= x < m,
    ensures
        ((a + x) % m - a % m) % m == x,
{
    lemma_fundamental_div_mod(a, m);
    lemma_fundamental_div_mod(a + x, m);
    let k = a / m - (a + x) / m;
    assert((a + x) % m - a % m == k * m + x) by (nonlinear_arith)
        requires
            a == m * (a / m) + a % m,
            a + x == m * ((a + x) / m) + (a + x) % m,
            k == a / m - (a + x) / m,
    ;
    lemma_fundamental_div_mod_converse((a + x) % m - a % m, m, k, x);
}

/// Applying the delta filter to the output of the 8-bit unfilter gives back its input:
/// each output byte differs from the one before by exactly the source byte.
pub proof fn law_unfilter8_inverts_delta(d: Seq<u8>)
    ensures
        delta8(unfilter8(d)) == d,
{
    let u = unfilter8(d);
    assert forall|i: int| 0 <= i < d.len() implies #[trigger] delta8(u)[i] == d[i] by {
        if i == 0 {
            assert(d.take(1).drop_last() =~= Seq::<u8>::empty());
            assert(sum8(d.take(1).drop_last()) == 0);
        } else {
            assert(d.take(i + 1).drop_last() =~= d.take(i));
            let a = sum8(d.take(i)) as int;
            let x = d[i] as int;
            lemma_mod_difference(a, x, 0x100);
        }
    }
    assert(delta8(u) =~= d);
}

/// Adding to a value with residue `c` a difference taken modulo `m` lands on the target `b`.
proof fn lemma_mod_add_difference(a: int, b: int, c: int, m: int)
    requires
        m > 0,
        0 <= b < m,
        0 <= c < m,
        a % m == c,
    ensures
        (a + (b - c) % m) % m == b,
{
    lemma_add_mod_noop(a, (b - c) % m, m);
    lemma_mod_twice(b - c, m);
    lemma_add_mod_noop(c, b - c, m);
    lemma_small_mod(c as nat, m as nat);
    lemma_small_mod(b as nat, m as nat);
}

/// The running sums of the delta-filtered bytes, modulo 256, are the bytes that were filtered.
proof fn lemma_sum8_of_delta(s: Seq<u8>, i: int)
    requires
        0 <= i < s.len(),
    ensures
        sum8(delta8(s).take(i + 1)) % 0x100 == s[i],
    decreases i,
{
    let d = delta8(s);
    assert(d.take(i + 1).drop_last() =~= d.take(i));
    if i == 0 {
        assert(sum8(d.take(0)) == 0);
        lemma_small_mod(s[0] as nat, 0x100);
    } else {
        lemma_sum8_of_delta(s, i - 1);
        lemma_mod_add_difference(sum8(d.take(i)) as int, s[i] as int, s[i - 1] as int, 0x100);
    }
}

/// The 8-bit unfilter undoes the delta filter: filtering bytes and unfiltering the result
/// gives back the bytes.
pub proof fn law_unfilter8_undoes_delta(s: Seq<u8>)
    ensures
        unfilter8(delta8(s)) == s,
{
    assert forall|i: int| 0 <= i < s.len() implies #[trigger] unfilter8(delta8(s))[i] == s[i] by {
        lemma_sum8_of_delta(s, i);
    }
    assert(unfilter8(delta8(s)) =~= s);
}

/// Little-endian halfwords of a byte sequence (a trailing odd byte is left out).
pub open spec fn halfwords_le(d: Seq<u8>) -> Seq<u16> {
    Seq::new(d.len() / 2, |i: int| (d[2 * i] as nat + d[2 * i + 1] as nat * 0x100) as u16)
}

/// Bytes of a sequence of halfwords, each stored little-endian.
pub open spec fn bytes_le(h: Seq<u16>) -> Seq<u8> {
    Seq::new(
        2 * h.len(),
        |k: int| if k % 2 == 0 { (h[k / 2] % 0x100) as u8 } else { (h[k / 2] / 0x100) as u8 },
    )
}

/// Sum of the halfwords of `h`.
pub open spec fn sum16(h: Seq<u16>) -> nat
    decreases h.len(),
{
    if h.len() == 0 { 0 } else { sum16(h.drop_last()) + h.last() as nat }
}

/// Undoing a 16-bit delta filter: running sums modulo 2^16.
pub open spec fn unfilter16(h: Seq<u16>) -> Seq<u16> {
    Seq::new(h.len(), |i: int| (sum16(h.take(i + 1)) % 0x1_0000) as u16)
}

/// The 16-bit delta filter: the first halfword, then differences modulo 2^16.
pub open spec fn delta16(s: Seq<u16>) -> Seq<u16> {
    Seq::new(s.len(), |i: int| if i == 0 { s[0] } else { ((s[i] - s[i - 1]) % 0x1_0000) as u16 })
}

/// Reads the little-endian halfword at `off`.
fn read_u16_le(src: &[u8], off: usize) -> (v: u16)
    requires
        off + 1 < src.len(),
    ensures
        v as nat == src@[off as int] as nat + src@[off + 1] as nat * 0x100,
{
    let lo = src[off];
    let hi = src[off + 1];
    assert(((lo as u16) | ((hi as u16) << 8u16)) as nat == lo as nat + hi as nat * 0x100)
        by (bit_vector);
    (lo as u16) | ((hi as u16) << 8)
}

/// Writes `v` little-endian at `off`.
fn write_u16_le(dst: &mut Vec<u8>, off: usize, v: u16)
    requires
        off + 1 < old(dst).len(),
    ensures
        final(dst)@ == old(dst)@.update(off as int, (v % 0x100) as u8).update(
            off + 1,
            (v / 0x100) as u8,
        ),
{
    assert((v & 0xff) as u8 == (v % 0x100) as u8 && (v >> 8u16) as u8 == (v / 0x100) as u8)
        by (bit_vector);
    dst.set(off, (v & 0xff) as u8);
    dst.set(off + 1, (v >> 8) as u8);
}

/// SWI 0x18, Diff16UnFilter: reads the size in bytes from the header word of `src`, then
/// writes to `dst`, little-endian, the running sums modulo 2^16 of the halfwords that follow
/// the header (size / 2 of them).
pub fn SVC_Diff16UnFilter(src: &[u8], dst: &mut Vec<u8>)
    requires
        src.len() >= 4,
        header_size(src@) / 2 >= 1,
        src.len() >= 4 + 2 * (header_size(src@) / 2),
        old(dst).len() >= 2 * (header_size(src@) / 2),
    ensures
        final(dst)@ == bytes_le(
            unfilter16(halfwords_le(src@.subrange(4, 4 + (2 * (header_size(src@) / 2)) as int))),
        ) + old(dst)@.skip((2 * (header_size(src@) / 2)) as int),
{
    let count = read_header_size(src);
    // the work goes by 16-bit words
    let count_u16 = count / 2;
    let ghost data = halfwords_le(src@.subrange(4, 4 + 2 * count_u16 as int));
    let ghost out = unfilter16(data);
    let ghost out_bytes = bytes_le(out);

    let mut acc: u16 = read_u16_le(src, 4);
    let mut si: usize = 6;
    write_u16_le(dst, 0, acc);
    let mut di: usize = 2;
    proof {
        assert(data.take(1).drop_last() =~= Seq::<u16>::empty());
        assert(sum16(data.take(1).drop_last()) == 0);
        assert(sum16(data.take(1)) == acc);
    }

    let mut k: usize = 0;
    while k < count_u16 - 1
        invariant
            count_u16 as nat == header_size(src@) / 2,
            1 <= count_u16,
            src.len() >= 4 + 2 * count_u16,
            data == halfwords_le(src@.subrange(4, 4 + 2 * count_u16 as int)),
            out == unfilter16(data),
            out_bytes == bytes_le(out),
            k < count_u16,
            di == 2 * (k + 1),
            si == 4 + di,
            dst.len() == old(dst).len(),
            old(dst).len() >= 2 * count_u16,
            acc as nat == sum16(data.take(k + 1)) % 0x1_0000,
            forall|j: int| 0 <= j < di ==> dst@[j] == out_bytes[j],
            forall|j: int| di <= j < dst.len() ==> dst@[j] == old(dst)@[j],
        decreases count_u16 - 1 - k,
    {
        let val = read_u16_le(src, si);
        si += 2;
        acc = acc.wrapping_add(val);
        proof {
            assert(data.take(k + 2).drop_last() =~= data.take(k + 1));
            assert(data[k + 1] == val);
        }
        write_u16_le(dst, di, acc);
        di += 2;
        k += 1;
    }
    proof {
        assert(dst@ =~= out_bytes + old(dst)@.skip(2 * count_u16 as int));
    }
}

/// The running sums of the 16-bit delta-filtered values, modulo 2^16, are the values that were filtered.
proof fn lemma_sum16_of_delta(s: Seq<u16>, i: int)
    requires
        0 <= i < s.len(),
    ensures
        sum16(delta16(s).take(i + 1)) % 0x1_0000 == s[i],
    decreases i,
{
    let d = delta16(s);
    assert(d.take(i + 1).drop_last() =~= d.take(i));
    if i == 0 {
        assert(sum16(d.take(0)) == 0);
        lemma_small_mod(s[0] as nat, 0x1_0000);
    } else {
        lemma_sum16_of_delta(s, i - 1);
        lemma_mod_add_difference(sum16(d.take(i)) as int, s[i] as int, s[i - 1] as int, 0x1_0000);
    }
}

/// Applying the 16-bit delta filter to the output of the 16-bit unfilter gives back its input.
pub proof fn law_unfilter16_inverts_delta(d: Seq<u16>)
    ensures
        delta16(unfilter16(d)) == d,
{
    let u = unfilter16(d);
    assert forall|i: int| 0 <= i < d.len() implies #[trigger] delta16(u)[i] == d[i] by {
        if i == 0 {
            assert(d.take(1).drop_last() =~= Seq::<u16>::empty());
            assert(sum16(d.take(1).drop_last()) == 0);
        } else {
            assert(d.take(i + 1).drop_last() =~= d.take(i));
            lemma_mod_difference(sum16(d.take(i)) as int, d[i] as int, 0x1_0000);
        }
    }
    assert(delta16(u) =~= d);
}

/// The 16-bit unfilter undoes the 16-bit delta filter.
pub proof fn law_unfilter16_undoes_delta(s: Seq<u16>)
    ensures
        unfilter16(delta16(s)) == s,
{
    assert forall|i: int| 0 <= i < s.len() implies #[trigger] unfilter16(delta16(s))[i] == s[i] by {
        lemma_sum16_of_delta(s, i);
    }
    assert(unfilter16(delta16(s)) =~= s);
}

/// A run-length block flag with bit 7 set announces a run of one repeated byte.
pub open spec fn rle_is_run(flag: u8) -> bool {
    flag >= 0x80
}

/// Number of output bytes of the block that `flag` opens: bits 0 to 6 plus 3 for a run,
/// plus 1 for a block of bytes copied as they are.
pub open spec fn rle_block_len(flag: u8) -> nat {
    if rle_is_run(flag) { (flag % 0x80) as nat + 3 } else { (flag % 0x80) as nat + 1 }
}

/// Number of stream bytes that the block opened by `flag` takes, flag included.
pub open spec fn rle_block_bytes(flag: u8) -> nat {
    if rle_is_run(flag) { 2 } else { 1 + rle_block_len(flag) }
}

/// `s` is a run-length stream that produces exactly `remaining` bytes: each block lies
/// wholly inside `s` and none overshoots what is left to produce.
pub open spec fn rle_stream_ok(s: Seq<u8>, remaining: int) -> bool
    decreases s.len(),
{
    if remaining == 0 {
        true
    } else if remaining < 0 || s.len() == 0 {
        false
    } else {
        let flag = s[0];
        &&& rle_block_len(flag) <= remaining
        &&& s.len() >= rle_block_bytes(flag)
        &&& rle_stream_ok(s.skip(rle_block_bytes(flag) as int), remaining - rle_block_len(flag))
    }
}

/// The output of the block opened by `s[0]`.
pub open spec fn rle_block(s: Seq<u8>) -> Seq<u8> {
    let flag = s[0];
    if rle_is_run(flag) {
        Seq::new(rle_block_len(flag), |i: int| s[1])
    } else {
        s.subrange(1, 1 + rle_block_len(flag) as int)
    }
}

/// What the run-length stream `s` decodes to, `remaining` bytes being wanted.
pub open spec fn rle_decode(s: Seq<u8>, remaining: int) -> Seq<u8>
    decreases s.len(),
{
    if remaining <= 0 || s.len() == 0 || s.len() < rle_block_bytes(s[0]) {
        Seq::empty()
    } else {
        rle_block(s) + rle_decode(
            s.skip(rle_block_bytes(s[0]) as int),
            remaining - rle_block_len(s[0]),
        )
    }
}

/// A well-formed stream decodes to exactly the number of bytes it was meant to produce.
pub proof fn law_rle_decode_len(s: Seq<u8>, remaining: int)
    requires
        rle_stream_ok(s, remaining),
    ensures
        rle_decode(s, remaining).len() == remaining,
    decreases s.len(),
{
    if remaining > 0 {
        law_rle_decode_len(s.skip(rle_block_bytes(s[0]) as int), remaining - rle_block_len(s[0]));
    }
}

/// A run block repeats its data byte unchanged: the flag `0x80 + (n - 3)` followed by `v`
/// decodes to `n` copies of `v`, then decoding goes on with the rest of the stream.
pub proof fn law_rle_run_block(v: u8, n: nat, rest: Seq<u8>, r: int)
    requires
        3 <= n <= 130,
        r >= 0,
    ensures
        rle_decode(seq![(0x80 + n - 3) as u8, v] + rest, n + r) == Seq::new(n, |i: int| v)
            + rle_decode(rest, r),
{
    let flag = (0x80 + n - 3) as u8;
    let s = seq![flag, v] + rest;
    assert(s[0] == flag && s[1] == v);
    assert(rle_block_len(flag) == n);
    assert(rle_block_bytes(flag) == 2);
    assert(s.skip(2) =~= rest);
    assert(rle_block(s) =~= Seq::new(n, |i: int| v));
}

/// A copy block passes its bytes through unchanged: the flag `len - 1` followed by `data`
/// decodes to `data`, then decoding goes on with the rest of the stream.
pub proof fn law_rle_copy_block(data: Seq<u8>, rest: Seq<u8>, r: int)
    requires
        1 <= data.len() <= 128,
        r >= 0,
    ensures
        rle_decode(seq![(data.len() - 1) as u8] + data + rest, data.len() + r) == data + rle_decode(rest, r),
{
    let flag = (data.len() - 1) as u8;
    let s = seq![flag] + data + rest;
    assert(s[0] == flag);
    assert(rle_block_len(flag) == data.len());
    assert(rle_block_bytes(flag) == 1 + data.len());
    assert(s.skip((1 + data.len()) as int) =~= rest);
    assert(rle_block(s) =~= data);
}

/// A stream made only of copy blocks of at most 128 bytes each, carrying `s`.
pub open spec fn rle_encode_copies(s: Seq<u8>) -> Seq<u8>
    decreases s.len(),
{
    if s.len() == 0 {
        Seq::empty()
    } else {
        let k = if s.len() < 128 { s.len() } else { 128 };
        seq![(k - 1) as u8] + s.take(k as int) + rle_encode_copies(s.skip(k as int))
    }
}

/// Decoding an encoding made of copy blocks gives back the encoded bytes, and the encoding is
/// a well-formed stream of that size.
pub proof fn law_rle_copies_round_trip(s: Seq<u8>)
    ensures
        rle_stream_ok(rle_encode_copies(s), s.len() as int),
        rle_decode(rle_encode_copies(s), s.len() as int) == s,
    decreases s.len(),
{
    if s.len() > 0 {
        let k: nat = if s.len() < 128 { s.len() } else { 128 };
        let data = s.take(k as int);
        let tail = s.skip(k as int);
        law_rle_copies_round_trip(tail);
        law_rle_copy_block(data, rle_encode_copies(tail), tail.len() as int);
        let e = seq![(k - 1) as u8] + data + rle_encode_copies(tail);
        assert(e[0] == (k - 1) as u8);
        assert(e.skip((1 + k) as int) =~= rle_encode_copies(tail));
        assert(data + tail =~= s);
    }
}

/// Whether `src` holds a header and a run-length stream that produces exactly the size the
/// header announces, which is what `SVC_RLUnCompWRAM` needs of its source.
pub fn rle_stream_fits(src: &[u8]) -> (ok: bool)
    ensures
        ok == (src.len() >= 4 && rle_stream_ok(src@.skip(4), header_size(src@) as int)),
{
    if src.len() < 4 {
        return false;
    }
    let mut remaining = read_header_size(src);
    let ghost count = remaining as int;
    let mut si: usize = 4;
    while remaining > 0
        invariant
            4 <= si <= src.len(),
            count == header_size(src@),
            rle_stream_ok(src@.skip(4), count) == rle_stream_ok(src@.skip(si as int), remaining as int),
        decreases remaining,
    {
        let ghost rest = src@.skip(si as int);
        if si >= src.len() {
            assert(rest.len() == 0);
            return false;
        }
        let flag_byte = src[si];
        assert(rest[0] == flag_byte);
        let (block_len, block_bytes) = rle_block_sizes(flag_byte);
        if block_len > remaining || src.len() - si < block_bytes {
            return false;
        }
        proof {
            assert(src@.skip(si + block_bytes) =~= rest.skip(block_bytes as int));
        }
        si += block_bytes;
        remaining -= block_len;
    }
    true
}

/// Output bytes and stream bytes of the block that `flag` opens.
pub fn rle_block_sizes(flag: u8) -> (sizes: (usize, usize))
    ensures
        sizes.0 as nat == rle_block_len(flag),
        sizes.1 as nat == rle_block_bytes(flag),
{
    assert(((flag & 0x80) != 0) == (flag >= 0x80) && (flag & 0x7F) == flag % 0x80) by (bit_vector);
    let count_bits = (flag & 0x7F) as usize;
    if (flag & 0x80) != 0 {
        (count_bits + 3, 2)
    } else {
        (count_bits + 1, count_bits + 2)
    }
}

/// SWI 0x14, RLUnCompWRAM: run-length decoding. The header word of `src` gives the
/// decoded size; then each block starts with a flag byte. With bit 7 set, the next byte
/// is repeated (bits 0-6) + 3 times; otherwise the next (bits 0-6) + 1 bytes are copied.
pub fn SVC_RLUnCompWRAM(src: &[u8], dst: &mut Vec<u8>)
    requires
        src.len() >= 4,
        rle_stream_ok(src@.skip(4), header_size(src@) as int),
        old(dst).len() >= header_size(src@),
    ensures
        final(dst)@ == rle_decode(src@.skip(4), header_size(src@) as int) + old(dst)@.skip(
            header_size(src@) as int,
        ),
{
    // decoded size on 24 bits
    let mut remaining_len = read_header_size(src);
    let ghost count = remaining_len as int;
    let ghost stream = src@.skip(4);

    let mut si: usize = 4;
    let mut di: usize = 0;

    if remaining_len == 0 {
        proof {
            assert(dst@ =~= rle_decode(stream, count) + old(dst)@.skip(count));
        }
        return;
    }

    while remaining_len > 0
        invariant
            count == header_size(src@),
            stream == src@.skip(4),
            4 <= si <= src.len(),
            di as int + remaining_len as int == count,
            dst.len() == old(dst).len(),
            old(dst).len() >= count,
            rle_stream_ok(src@.skip(si as int), remaining_len as int),
            rle_decode(stream, count) == dst@.take(di as int) + rle_decode(
                src@.skip(si as int),
                remaining_len as int,
            ),
            forall|j: int| di <= j < dst.len() ==> dst@[j] == old(dst)@[j],
        decreases remaining_len,
    {
        let ghost rest = src@.skip(si as int);
        let ghost di0 = di;
        let ghost prefix = dst@.take(di as int);
        // the flag byte
        let flag_byte = src[si];
        si += 1;

        assert(((flag_byte & 0x80) != 0) == (flag_byte >= 0x80) && (flag_byte & 0x7F) == flag_byte
            % 0x80) by (bit_vector);
        // bit 7: run (1) or bytes copied as they are (0)
        let compressed = (flag_byte & 0x80) != 0;
        // bits 0-6: the length, less 3 for a run and less 1 for a copy
        let count_bits = (flag_byte & 0x7F) as usize;

        if compressed {
            let run_len = count_bits + 3;
            let val = src[si];
            si += 1;

            for r in 0..run_len
                invariant
                    di == di0 + r,
                    di0 + run_len <= count,
                    dst.len() == old(dst).len(),
                    old(dst).len() >= count,
                    dst@.take(di0 as int) == prefix,
                    forall|j: int| di0 <= j < di ==> dst@[j] == val,
                    forall|j: int| di <= j < dst.len() ==> dst@[j] == old(dst)@[j],
            {
                dst.set(di, val);
                di += 1;
            }
            remaining_len -= run_len;
        } else {
            let copy_len = count_bits + 1;

            for c in 0..copy_len
                invariant
                    di == di0 + c,
                    si == (src.len() - rest.len()) + 1 + c,
                    di0 + copy_len <= count,
                    rest.len() >= 1 + copy_len,
                    rest == src@.skip(src.len() - rest.len()),
                    src.len() >= rest.len(),
                    dst.len() == old(dst).len(),
                    old(dst).len() >= count,
                    dst@.take(di0 as int) == prefix,
                    forall|j: int| di0 <= j < di ==> dst@[j] == rest[1 + j - di0],
                    forall|j: int| di <= j < dst.len() ==> dst@[j] == old(dst)@[j],
            {
                dst.set(di, src[si]);
                si += 1;
                di += 1;
            }
            remaining_len -= copy_len;
        }
        proof {
            let b = rle_block(rest);
            assert(src@.skip(si as int) =~= rest.skip(rle_block_bytes(rest[0]) as int));
            assert(dst@.take(di as int) =~= prefix + b);
        }
    }
    proof {
        assert(dst@ =~= rle_decode(stream, count) + old(dst)@.skip(count));
    }
}

} // verus!
