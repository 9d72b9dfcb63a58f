use vie::single::truncate_single;

fn check(x: f32) {
    assert_eq!(truncate_single(x.to_bits()), x as i64, "truncating {x:?}");
}

#[test]
fn truncation_of_small_numbers() {
    check(0.0);
    check(-0.0);
    check(0.5);
    check(-0.5);
    check(0.99999994);
    check(1.0);
    check(-1.0);
    check(1.5);
    check(-1.5);
    check(2.75);
    check(-123.999);
    check(f32::MIN_POSITIVE);
    check(f32::from_bits(1));
}

#[test]
fn truncation_of_large_numbers() {
    check(8388607.5);
    check(8388608.0);
    check(16777216.0);
    check(-16777216.0);
    check(1.0e10);
    check(-1.0e10);
    check(9.223371e18);
    check(-9.223371e18);
    check(9.223372e18);
    check(-9.223372e18);
}

#[test]
fn truncation_saturates() {
    check(1.0e19);
    check(-1.0e19);
    check(f32::MAX);
    check(f32::MIN);
    check(f32::INFINITY);
    check(f32::NEG_INFINITY);
    assert_eq!(truncate_single(f32::INFINITY.to_bits()), i64::MAX);
    assert_eq!(truncate_single(f32::NEG_INFINITY.to_bits()), i64::MIN);
}

#[test]
fn truncation_of_nan_is_zero() {
    check(f32::NAN);
    assert_eq!(truncate_single(0x7fc0_0001), 0);
    assert_eq!(truncate_single(0xffc0_0000), 0);
}

#[test]
fn truncation_agrees_with_the_cast_across_exponents() {
    let mut exponent: u32 = 0;
    while exponent < 256 {
        for fraction in [0u32, 1, 0x40_0000, 0x55_5555, 0x7f_ffff] {
            for sign in [0u32, 0x8000_0000] {
                let bits = sign | (exponent << 23) | fraction;
                check(f32::from_bits(bits));
            }
        }
        exponent += 1;
    }
}
