use hypertune::scalar::Scalar;

fn scalar(x: f64) -> Scalar {
    Scalar::from_bits(x.to_bits())
}

fn integers() -> Vec<i64> {
    let mut out: Vec<i64> = vec![
        0,
        1,
        -1,
        2,
        3,
        7,
        -7,
        10,
        1023,
        1024,
        -4096,
        i64::MAX,
        i64::MIN,
        i64::MAX - 1,
        i64::MIN + 1,
        (1 << 52) - 1,
        1 << 52,
        (1 << 52) + 1,
        (1 << 53) - 1,
        1 << 53,
        (1 << 53) + 1,
        (1 << 53) + 2,
        (1 << 53) + 3,
        (1 << 54) + 2,
        (1 << 54) + 6,
        (1 << 62) + 255,
        (1 << 62) + 256,
        (1 << 62) + 257,
        (1 << 62) + 768,
        -((1 << 53) + 1),
        -((1 << 53) + 3),
        0x7fff_ffff_ffff_fdff,
        0x7fff_ffff_ffff_fe00,
        0x7fff_ffff_ffff_fbff,
        0x7fff_ffff_ffff_fc00,
    ];
    let mut x: i64 = 1;
    for k in 0..2000 {
        x = x.wrapping_mul(6364136223846793005).wrapping_add(1442695040888963407);
        out.push(x);
        out.push(x >> (k % 64));
    }
    out
}

fn numbers() -> Vec<f64> {
    let mut out: Vec<f64> = vec![
        0.0,
        -0.0,
        0.5,
        -0.5,
        0.999999,
        1.0,
        -1.0,
        1.5,
        7.9,
        -7.9,
        2.0,
        5.0,
        9.0,
        1e10,
        -1e10,
        4503599627370496.0,
        4503599627370497.0,
        9007199254740992.0,
        9007199254740994.0,
        4611686018427387904.0,
        9223372036854775807.0,
        9223372036854775808.0,
        -9223372036854775808.0,
        -9223372036854777856.0,
        1e19,
        -1e19,
        1e300,
        -1e300,
        f64::MIN_POSITIVE,
        5e-324,
        f64::MAX,
        f64::MIN,
        f64::INFINITY,
        f64::NEG_INFINITY,
        f64::NAN,
        -f64::NAN,
    ];
    let mut x: u64 = 1;
    for _ in 0..2000 {
        x = x.wrapping_mul(6364136223846793005).wrapping_add(1442695040888963407);
        out.push(f64::from_bits(x));
    }
    out
}

#[test]
fn from_int_is_the_nearest_double() {
    for n in integers() {
        assert_eq!(Scalar::from_int(n).to_bits(), (n as f64).to_bits(), "n = {}", n);
    }
}

#[test]
fn from_int_exact_value() {
    assert_eq!(Scalar::from_int(7).to_bits(), 0x401c_0000_0000_0000);
    assert_eq!(Scalar::from_int(0).to_bits(), 0);
    assert_eq!(Scalar::from_int(-1).to_bits(), 0xbff0_0000_0000_0000);
}

#[test]
fn from_magnitude_is_the_nearest_double() {
    for n in integers() {
        let m = n as u64;
        assert_eq!(Scalar::from_magnitude(m).to_bits(), (m as f64).to_bits(), "m = {}", m);
    }
    assert_eq!(Scalar::from_magnitude(u64::MAX).to_bits(), (u64::MAX as f64).to_bits());
}

#[test]
fn to_int_truncates_and_saturates() {
    for x in numbers() {
        assert_eq!(scalar(x).to_int(), x as i64, "x = {:?}", x);
    }
}

#[test]
fn to_int_exact_values() {
    assert_eq!(scalar(7.9).to_int(), 7);
    assert_eq!(scalar(-7.9).to_int(), -7);
    assert_eq!(scalar(f64::NAN).to_int(), 0);
    assert_eq!(scalar(f64::INFINITY).to_int(), i64::MAX);
    assert_eq!(scalar(f64::NEG_INFINITY).to_int(), i64::MIN);
}

#[test]
fn to_index_takes_negative_values_to_zero() {
    assert_eq!(scalar(-3.0).to_index(), 0);
    assert_eq!(scalar(2.7).to_index(), 2);
    assert_eq!(scalar(f64::NAN).to_index(), 0);
    assert_eq!(scalar(0.0).to_index(), 0);
}

#[test]
fn integers_survive_the_round_trip() {
    for n in integers() {
        if n.unsigned_abs() <= 1 << 53 {
            assert_eq!(Scalar::from_int(n).to_int(), n);
        }
    }
    assert_eq!(Scalar::from_int(1 << 53).to_int(), 1 << 53);
    assert_eq!(Scalar::from_int(-(1 << 53)).to_int(), -(1 << 53));
}

#[test]
fn integers_beyond_the_exact_range_are_rounded() {
    let n: i64 = (1 << 53) + 1;
    assert_eq!(Scalar::from_int(n).to_int(), 1 << 53);
}

#[test]
fn finite_and_nan_agree_with_the_number() {
    for x in numbers() {
        assert_eq!(scalar(x).is_finite(), x.is_finite(), "x = {:?}", x);
        assert_eq!(scalar(x).is_nan(), x.is_nan(), "x = {:?}", x);
    }
}

#[test]
fn order_agrees_with_the_numbers() {
    let all = numbers();
    let sample: Vec<f64> = all.iter().copied().take(120).collect();
    for &a in &sample {
        for &b in &sample {
            assert_eq!(scalar(a).lt(scalar(b)), a < b, "{:?} < {:?}", a, b);
            assert_eq!(scalar(a).le(scalar(b)), a <= b, "{:?} <= {:?}", a, b);
        }
    }
}

#[test]
fn both_zeros_are_equal_in_order() {
    assert!(!scalar(-0.0).lt(scalar(0.0)));
    assert!(!scalar(0.0).lt(scalar(-0.0)));
    assert!(scalar(-0.0).le(scalar(0.0)));
    assert_eq!(scalar(-0.0).key(), 0);
}

#[test]
fn bits_are_kept() {
    let x = 2.5f64;
    assert_eq!(f64::from_bits(scalar(x).to_bits()), 2.5);
    assert_eq!(Scalar::zero().to_bits(), 0.0f64.to_bits());
}

#[test]
fn powers_and_highest_bits() {
    assert_eq!(hypertune::scalar::pow2_u64(0), 1);
    assert_eq!(hypertune::scalar::pow2_u64(10), 1024);
    assert_eq!(hypertune::scalar::pow2_u64(63), 1 << 63);
    assert_eq!(hypertune::scalar::highest_bit(1), 0);
    assert_eq!(hypertune::scalar::highest_bit(1024), 10);
    assert_eq!(hypertune::scalar::highest_bit(1023), 9);
    assert_eq!(hypertune::scalar::highest_bit(u64::MAX), 63);
}
