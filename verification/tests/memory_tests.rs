use lib::memory::{cpu_fast_set_sizes, cpu_set_sizes, SVC_CpuFastSet, SVC_CpuSet};

const FIXED: u32 = 1 << 24;
const WORDS: u32 = 1 << 26;

#[test]
fn cpu_set_copies_halfwords() {
    let src = [1u8, 2, 3, 4, 5, 6, 7, 8];
    let mut dst = vec![0u8; 8];
    SVC_CpuSet(&src, &mut dst, 3);
    assert_eq!(dst, vec![1, 2, 3, 4, 5, 6, 0, 0]);
}

#[test]
fn cpu_set_fills_halfwords() {
    let src = [0xAB, 0xCD];
    let mut dst = vec![0u8; 8];
    SVC_CpuSet(&src, &mut dst, FIXED | 3);
    assert_eq!(dst, vec![0xAB, 0xCD, 0xAB, 0xCD, 0xAB, 0xCD, 0, 0]);
}

#[test]
fn cpu_set_copies_words() {
    let src: Vec<u8> = (1..=12).collect();
    let mut dst = vec![0u8; 12];
    SVC_CpuSet(&src, &mut dst, WORDS | 2);
    assert_eq!(dst, vec![1, 2, 3, 4, 5, 6, 7, 8, 0, 0, 0, 0]);
}

#[test]
fn cpu_set_fills_words() {
    let src = [0x11, 0x22, 0x33, 0x44, 0x99];
    let mut dst = vec![0u8; 10];
    SVC_CpuSet(&src, &mut dst, WORDS | FIXED | 2);
    assert_eq!(dst, vec![0x11, 0x22, 0x33, 0x44, 0x11, 0x22, 0x33, 0x44, 0, 0]);
}

#[test]
fn cpu_set_ignores_other_control_bits() {
    let src = [7u8, 8];
    let mut dst = vec![0u8; 4];
    // bits 21-23 and 25 are not part of the count nor of the mode
    SVC_CpuSet(&src, &mut dst, (1 << 21) | (1 << 25) | FIXED | 1);
    assert_eq!(dst, vec![7, 8, 0, 0]);
}

#[test]
fn cpu_set_zero_count_changes_nothing() {
    let src = [1u8, 2, 3, 4];
    let mut dst = vec![5u8; 4];
    SVC_CpuSet(&src, &mut dst, WORDS);
    assert_eq!(dst, vec![5; 4]);
}

#[test]
fn cpu_fast_set_copies_and_fills_words() {
    let src: Vec<u8> = (10..18).collect();
    let mut dst = vec![0u8; 12];
    SVC_CpuFastSet(&src, &mut dst, 2);
    assert_eq!(dst, vec![10, 11, 12, 13, 14, 15, 16, 17, 0, 0, 0, 0]);
    let mut dst = vec![0u8; 12];
    SVC_CpuFastSet(&src, &mut dst, FIXED | 3);
    assert_eq!(dst, vec![10, 11, 12, 13, 10, 11, 12, 13, 10, 11, 12, 13]);
}

#[test]
fn cpu_fast_set_equals_cpu_set_with_words() {
    let src: Vec<u8> = (0..40).collect();
    for control in [0u32, 5, FIXED | 4, FIXED | 10, 10] {
        let mut a = vec![0xEEu8; 44];
        let mut b = vec![0xEEu8; 44];
        SVC_CpuFastSet(&src, &mut a, control);
        SVC_CpuSet(&src, &mut b, control | WORDS);
        assert_eq!(a, b);
    }
}

#[test]
fn transfer_sizes_follow_the_control_word() {
    assert_eq!(cpu_set_sizes(3), (6, 6));
    assert_eq!(cpu_set_sizes(FIXED | 3), (2, 6));
    assert_eq!(cpu_set_sizes(WORDS | 3), (12, 12));
    assert_eq!(cpu_set_sizes(WORDS | FIXED | 3), (4, 12));
    assert_eq!(cpu_set_sizes(0x1F_FFFF | WORDS), (0x1F_FFFF * 4, 0x1F_FFFF * 4));
    assert_eq!(cpu_fast_set_sizes(5), (20, 20));
    assert_eq!(cpu_fast_set_sizes(FIXED | 5), (4, 20));
    assert_eq!(cpu_fast_set_sizes(1 << 21), (0, 0));
}
