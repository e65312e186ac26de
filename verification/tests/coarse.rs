use rinha_rust_api::coarse::{accumulate, round24};

#[test]
fn rounding_is_that_of_a_single() {
    let mut n: u64 = 1;
    let mut seen = 0;
    while n < 0xffff_ffff_ffff {
        for near in [n.saturating_sub(1), n, n + 1, n + n / 2, n + n / 3] {
            if near <= 0xffff_ffff_ffff {
                assert_eq!(round24(near), near as f32 as u64, "{near}");
                seen += 1;
            }
        }
        n = n * 7 / 4 + 1;
    }
    assert!(seen > 200);
}

#[test]
fn small_numbers_are_kept() {
    for n in [0u64, 1, 12_345, 16_777_215, 16_777_216] {
        assert_eq!(round24(n), n);
    }
    assert_eq!(round24(16_777_217), 16_777_216);
    assert_eq!(round24(16_777_219), 16_777_220);
}

#[test]
fn sums_round_as_kernels_do() {
    let diffs: [i32; 14] = [
        65_534, -40_001, 12_345, 1, 0, -7, 33_333, 65_533, -65_534, 2_047, 99, -50_505, 4_099, 31,
    ];
    let mut plain: u64 = 0;
    let mut fused: u64 = 0;
    let mut plain_single = 0.0f32;
    let mut fused_single = 0.0f32;
    for diff in diffs {
        plain = accumulate(plain, diff, false);
        fused = accumulate(fused, diff, true);
        let d = diff as f32;
        plain_single += d * d;
        fused_single = d.mul_add(d, fused_single);
        assert_eq!(plain, plain_single as u64);
        assert_eq!(fused, fused_single as u64);
    }
}

#[test]
fn kernels_can_differ() {
    assert_eq!(accumulate(accumulate(0, 6_978, false), 4_295, false), 67_139_504);
    assert_eq!(accumulate(accumulate(0, 6_978, true), 4_295, true), 67_139_512);
}
