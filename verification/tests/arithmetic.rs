use fast2d::binary32::Binary32;

fn next(seed: &mut u64) -> u32 {
    *seed = seed.wrapping_mul(6364136223846793005).wrapping_add(1442695040888963407);
    (*seed >> 32) as u32
}

fn same(expected: f32, got: Binary32) -> bool {
    if expected.is_nan() {
        got.is_nan()
    } else {
        expected.to_bits() == got.to_bits()
    }
}

fn check(a: u32, b: u32) {
    let (fa, fb) = (f32::from_bits(a), f32::from_bits(b));
    let (x, y) = (Binary32::from_bits(a), Binary32::from_bits(b));
    assert!(same(fa + fb, x + y), "{:x} + {:x}", a, b);
    assert!(same(fa - fb, x - y), "{:x} - {:x}", a, b);
    assert!(same(fa * fb, x * y), "{:x} * {:x}", a, b);
    assert!(same(fa / fb, x / y), "{:x} / {:x}", a, b);
    assert!(same(fa.sqrt(), x.sqrt()), "sqrt {:x}", a);
    assert!(same(-fa, -x), "neg {:x}", a);
    assert!(same(fa.abs(), x.abs()), "abs {:x}", a);
    assert_eq!(fa < fb, x.lt(y));
    assert_eq!(fa <= fb, x.le(y));
    assert_eq!(fa == fb, x.equals(y));
    assert_eq!(fa.is_nan(), x.is_nan());
    assert_eq!(fa.is_finite(), x.is_finite());
    assert_eq!(fa as u32, x.trunc_u32());
}

#[test]
fn operations_agree_with_the_hardware_on_random_patterns() {
    let mut seed = 7;
    for _ in 0..200_000 {
        let a = next(&mut seed);
        let b = next(&mut seed);
        check(a, b);
        // Exponents close to each other, where sums cancel and round.
        let c = (a & 0x807f_ffff) | (((a >> 23 & 0xff).wrapping_add(b & 31) & 0xff) << 23);
        check(a, (b & 0x807f_ffff) | (c & 0x7f80_0000));
    }
}

#[test]
fn operations_agree_with_the_hardware_on_special_patterns() {
    let special = [
        0, 1, 2, 3, 0x7f_ffff, 0x80_0000, 0x80_0001, 0x3f80_0000, 0x3f80_0001, 0x3f7f_ffff,
        0x4000_0000, 0x4b7f_ffff, 0x4b80_0000, 0x4b80_0001, 0x7f7f_ffff, 0x7f7f_fffe,
        0x7f80_0000, 0x7fc0_0000, 0x7f80_0001, 0x4f7f_ffff, 0x4f80_0000, 0x1f80_0000,
    ];
    for a in special {
        for b in special {
            check(a, b);
            check(a | 0x8000_0000, b);
            check(a, b | 0x8000_0000);
            check(a | 0x8000_0000, b | 0x8000_0000);
        }
    }
}
