use lib::math::{SVC_Div, SVC_Sqrt};

fn unpack(result: i64) -> (i32, i32) {
    let bits = result as u64;
    ((bits as u32) as i32, ((bits >> 32) as u32) as i32)
}

#[test]
fn sqrt_small_values() {
    let expected: [u32; 17] = [0, 1, 1, 1, 2, 2, 2, 2, 2, 3, 3, 3, 3, 3, 3, 3, 4];
    for (v, r) in expected.iter().enumerate() {
        assert_eq!(SVC_Sqrt(v as u32), *r);
    }
}

#[test]
fn sqrt_large_values() {
    assert_eq!(SVC_Sqrt(0xFFFF_FFFF), 0xFFFF);
    assert_eq!(SVC_Sqrt(0xFFFE_0001), 0xFFFF);
    assert_eq!(SVC_Sqrt(0xFFFE_0000), 0xFFFE);
    assert_eq!(SVC_Sqrt(1 << 30), 1 << 15);
    assert_eq!(SVC_Sqrt((1 << 30) - 1), (1 << 15) - 1);
    assert_eq!(SVC_Sqrt(1_000_000), 1000);
    assert_eq!(SVC_Sqrt(99), 9);
}

#[test]
fn sqrt_brackets_its_argument() {
    let mut v: u64 = 0;
    while v <= 0xFFFF_FFFF {
        let r = SVC_Sqrt(v as u32) as u64;
        assert!(r * r <= v && v < (r + 1) * (r + 1), "sqrt({}) = {}", v, r);
        v = v * 3 + 7;
    }
}

#[test]
fn div_signs() {
    assert_eq!(unpack(SVC_Div(7, 2)), (3, 1));
    assert_eq!(unpack(SVC_Div(-7, 2)), (-3, -1));
    assert_eq!(unpack(SVC_Div(7, -2)), (-3, 1));
    assert_eq!(unpack(SVC_Div(-7, -2)), (3, -1));
    assert_eq!(unpack(SVC_Div(0, 5)), (0, 0));
    assert_eq!(unpack(SVC_Div(100, 7)), (14, 2));
}

#[test]
fn div_packs_quotient_low_and_remainder_high() {
    assert_eq!(SVC_Div(7, 2), (1i64 << 32) | 3);
    assert_eq!(SVC_Div(-7, 2), ((-1i64) << 32) | 0xFFFF_FFFD);
}

#[test]
fn div_by_zero_returns_zero() {
    assert_eq!(SVC_Div(12345, 0), 0);
    assert_eq!(SVC_Div(-1, 0), 0);
    assert_eq!(SVC_Div(i32::MIN, 0), 0);
}

#[test]
fn div_extremes() {
    assert_eq!(unpack(SVC_Div(i32::MIN, -1)), (i32::MIN, 0));
    assert_eq!(unpack(SVC_Div(i32::MIN, 1)), (i32::MIN, 0));
    assert_eq!(unpack(SVC_Div(i32::MIN, 2)), (i32::MIN / 2, 0));
    assert_eq!(unpack(SVC_Div(i32::MAX, i32::MIN)), (0, i32::MAX));
    assert_eq!(unpack(SVC_Div(i32::MIN, i32::MIN)), (1, 0));
    assert_eq!(unpack(SVC_Div(i32::MIN, i32::MAX)), (-1, -1));
}

#[test]
fn div_matches_truncating_division() {
    let samples: [i32; 12] = [0, 1, -1, 2, -3, 17, -100, 12345, -65536, i32::MAX, i32::MIN + 1, 1 << 20];
    for &n in samples.iter() {
        for &d in samples.iter() {
            if d == 0 {
                continue;
            }
            let (q, r) = unpack(SVC_Div(n, d));
            assert_eq!(q, n.wrapping_div(d), "{} / {}", n, d);
            assert_eq!(r, n.wrapping_rem(d), "{} % {}", n, d);
            assert_eq!(q.wrapping_mul(d).wrapping_add(r), n);
        }
    }
}
