use lib::decompress::{rle_block_sizes, rle_stream_fits, SVC_Diff16UnFilter, SVC_Diff8UnFilter, SVC_RLUnCompWRAM};

fn header(kind: u8, size: u32) -> Vec<u8> {
    vec![kind, (size & 0xff) as u8, ((size >> 8) & 0xff) as u8, ((size >> 16) & 0xff) as u8]
}

#[test]
fn diff8_running_sums() {
    let mut src = header(0x81, 5);
    src.extend_from_slice(&[1, 2, 3, 255, 1]);
    let mut dst = vec![0xEE; 7];
    SVC_Diff8UnFilter(&src, &mut dst);
    assert_eq!(dst, vec![1, 3, 6, 5, 6, 0xEE, 0xEE]);
}

#[test]
fn diff8_single_byte() {
    let mut src = header(0x81, 1);
    src.push(42);
    src.push(99);
    let mut dst = vec![0; 2];
    SVC_Diff8UnFilter(&src, &mut dst);
    assert_eq!(dst, vec![42, 0]);
}

#[test]
fn diff8_undoes_a_delta_filter() {
    let plain: Vec<u8> = (0..300u32).map(|i| ((i * 37 + 11) % 256) as u8).collect();
    let mut src = header(0x81, plain.len() as u32);
    let mut prev = 0u8;
    for (i, &b) in plain.iter().enumerate() {
        src.push(if i == 0 { b } else { b.wrapping_sub(prev) });
        prev = b;
    }
    let mut dst = vec![0; plain.len()];
    SVC_Diff8UnFilter(&src, &mut dst);
    assert_eq!(dst, plain);
}

#[test]
fn diff16_running_sums() {
    let mut src = header(0x82, 6);
    src.extend_from_slice(&[0x01, 0x00, 0x02, 0x00, 0xFF, 0xFF]);
    let mut dst = vec![0xAA; 8];
    SVC_Diff16UnFilter(&src, &mut dst);
    assert_eq!(dst, vec![0x01, 0x00, 0x03, 0x00, 0x02, 0x00, 0xAA, 0xAA]);
}

#[test]
fn diff16_odd_size_leaves_last_byte() {
    let mut src = header(0x82, 5);
    src.extend_from_slice(&[0x34, 0x12, 0x01, 0x01, 0x77]);
    let mut dst = vec![0xAA; 5];
    SVC_Diff16UnFilter(&src, &mut dst);
    assert_eq!(dst, vec![0x34, 0x12, 0x35, 0x13, 0xAA]);
}

#[test]
fn diff16_undoes_a_delta_filter() {
    let plain: Vec<u16> = (0..200u32).map(|i| ((i * 7919 + 13) % 65536) as u16).collect();
    let mut src = header(0x82, 2 * plain.len() as u32);
    let mut prev = 0u16;
    for (i, &h) in plain.iter().enumerate() {
        let d = if i == 0 { h } else { h.wrapping_sub(prev) };
        src.push((d & 0xff) as u8);
        src.push((d >> 8) as u8);
        prev = h;
    }
    let mut dst = vec![0; 2 * plain.len()];
    SVC_Diff16UnFilter(&src, &mut dst);
    let expect: Vec<u8> = plain.iter().flat_map(|h| [(h & 0xff) as u8, (h >> 8) as u8]).collect();
    assert_eq!(dst, expect);
}

#[test]
fn rle_copy_and_run_blocks() {
    let mut src = header(0x30, 10);
    // three bytes copied as they are, then a run of seven 'x'
    src.extend_from_slice(&[0x02, b'a', b'b', b'c', 0x84, b'x']);
    let mut dst = vec![0; 12];
    SVC_RLUnCompWRAM(&src, &mut dst);
    assert_eq!(&dst[..10], b"abcxxxxxxx");
    assert_eq!(&dst[10..], &[0, 0]);
}

#[test]
fn rle_longest_blocks() {
    let mut src = header(0x30, 128 + 130);
    src.push(0x7F);
    src.extend((0..128u32).map(|i| i as u8));
    src.push(0xFF);
    src.push(0x5A);
    let mut dst = vec![0; 258];
    SVC_RLUnCompWRAM(&src, &mut dst);
    let mut expect: Vec<u8> = (0..128u32).map(|i| i as u8).collect();
    expect.extend(std::iter::repeat(0x5A).take(130));
    assert_eq!(dst, expect);
}

#[test]
fn rle_empty_output_writes_nothing() {
    let src = header(0x30, 0);
    let mut dst = vec![9, 9];
    SVC_RLUnCompWRAM(&src, &mut dst);
    assert_eq!(dst, vec![9, 9]);
}

#[test]
fn rle_shortest_run() {
    let mut src = header(0x30, 3);
    src.extend_from_slice(&[0x80, 0x11]);
    let mut dst = vec![0; 3];
    SVC_RLUnCompWRAM(&src, &mut dst);
    assert_eq!(dst, vec![0x11, 0x11, 0x11]);
}

#[test]
fn rle_stream_fits_accepts_exact_streams() {
    let mut src = header(0x30, 10);
    src.extend_from_slice(&[0x02, b'a', b'b', b'c', 0x84, b'x']);
    assert!(rle_stream_fits(&src));
    assert!(rle_stream_fits(&header(0x30, 0)));
}

#[test]
fn rle_stream_fits_rejects_bad_streams() {
    // too short for a header
    assert!(!rle_stream_fits(&[0x30, 1, 0]));
    // a block longer than what is left to produce
    let mut over = header(0x30, 2);
    over.extend_from_slice(&[0x80, 0x11]);
    assert!(!rle_stream_fits(&over));
    // a copy block cut short by the end of the source
    let mut cut = header(0x30, 3);
    cut.extend_from_slice(&[0x02, 1, 2]);
    assert!(!rle_stream_fits(&cut));
    // blocks missing
    let mut missing = header(0x30, 5);
    missing.extend_from_slice(&[0x00, 7]);
    assert!(!rle_stream_fits(&missing));
}

#[test]
fn rle_block_sizes_of_flags() {
    assert_eq!(rle_block_sizes(0x00), (1, 2));
    assert_eq!(rle_block_sizes(0x7F), (128, 129));
    assert_eq!(rle_block_sizes(0x80), (3, 2));
    assert_eq!(rle_block_sizes(0xFF), (130, 2));
}
