use tiny_interp::bignat::Order;
use tiny_interp::double::Double;

fn same(bits: u64, expected: f64) -> bool {
    if expected.is_nan() {
        Double::from_bits(bits).is_nan()
    } else {
        bits == expected.to_bits()
    }
}

fn samples() -> Vec<f64> {
    let mut out = vec![
        0.0,
        -0.0,
        1.0,
        -1.0,
        2.5,
        0.1,
        0.2,
        0.3,
        3.5,
        1e308,
        -1e308,
        f64::MAX,
        f64::MIN_POSITIVE,
        5e-324,
        1e-320,
        f64::INFINITY,
        f64::NEG_INFINITY,
        f64::NAN,
        9007199254740992.0,
        9007199254740993.0,
        2000000000000.0,
        1.7976931348623157e308,
        4.9406564584124654e-324,
        2.2250738585072009e-308,
        1e22,
        1e23,
        123456789.125,
    ];
    let mut state: u64 = 0x9E37_79B9_7F4A_7C15;
    for _ in 0..60 {
        state = state.wrapping_mul(6364136223846793005).wrapping_add(1442695040888963407);
        let v = f64::from_bits(state);
        out.push(v);
    }
    out
}

#[test]
fn sums_match_the_hardware() {
    let values = samples();
    for a in &values {
        for b in &values {
            let got = Double::from_bits(a.to_bits()).add(&Double::from_bits(b.to_bits()));
            assert!(same(got.to_bits(), a + b), "{} + {}", a, b);
        }
    }
}

#[test]
fn differences_match_the_hardware() {
    let values = samples();
    for a in &values {
        for b in &values {
            let got = Double::from_bits(a.to_bits()).sub(&Double::from_bits(b.to_bits()));
            assert!(same(got.to_bits(), a - b), "{} - {}", a, b);
        }
    }
}

#[test]
fn products_match_the_hardware() {
    let values = samples();
    for a in &values {
        for b in &values {
            let got = Double::from_bits(a.to_bits()).mul(&Double::from_bits(b.to_bits()));
            assert!(same(got.to_bits(), a * b), "{} * {}", a, b);
        }
    }
}

#[test]
fn quotients_match_the_hardware() {
    let values = samples();
    for a in &values {
        for b in &values {
            let got = Double::from_bits(a.to_bits()).div(&Double::from_bits(b.to_bits()));
            assert!(same(got.to_bits(), a / b), "{} / {}", a, b);
        }
    }
}

#[test]
fn integer_conversions_match_the_hardware() {
    let ints: Vec<i64> = vec![
        0,
        1,
        -1,
        42,
        i32::MAX as i64,
        i32::MIN as i64,
        i64::MAX,
        i64::MIN,
        9007199254740993,
        -9007199254740993,
        2000000000001,
        1 << 62,
        (1 << 62) + 1,
        i64::MAX - 1023,
    ];
    for v in &ints {
        assert_eq!(Double::from_i64(*v).to_bits(), (*v as f64).to_bits(), "{}", v);
    }
    for v in samples() {
        let d = Double::from_bits(v.to_bits());
        assert_eq!(d.to_i64(), v as i64, "{} as i64", v);
        assert_eq!(d.to_i32(), v as i32, "{} as i32", v);
    }
    assert_eq!(Double::from_i32(7).to_bits(), 7.0f64.to_bits());
    assert_eq!(Double::from_bits(3.99f64.to_bits()).to_i32(), 3);
    assert_eq!(Double::from_bits((-3.99f64).to_bits()).to_i32(), -3);
    assert_eq!(Double::from_bits(1e10f64.to_bits()).to_i32(), i32::MAX);
    assert_eq!(Double::from_bits(f64::NAN.to_bits()).to_i64(), 0);
}

#[test]
fn order_matches_the_hardware() {
    let values = samples();
    for a in &values {
        for b in &values {
            let got = Double::from_bits(a.to_bits()).compare(&Double::from_bits(b.to_bits()));
            let expected = a.partial_cmp(b).map(|o| {
                if o.is_lt() {
                    Order::Below
                } else if o.is_gt() {
                    Order::Above
                } else {
                    Order::Same
                }
            });
            assert_eq!(got, expected, "{} against {}", a, b);
        }
    }
}

#[test]
fn patterns_and_signs() {
    assert_eq!(Double::from_bits(0x4004_0000_0000_0000).to_bits(), 2.5f64.to_bits());
    assert_eq!(Double::from_bits(0xFFF8_0000_0000_0001).to_bits(), 0x7FF8_0000_0000_0000);
    assert_eq!(Double::nan().to_bits(), 0x7FF8_0000_0000_0000);
    assert!(Double::nan().is_nan());
    assert!(!Double::from_bits(f64::INFINITY.to_bits()).is_nan());
    assert_eq!(Double::infinity(false).to_bits(), f64::INFINITY.to_bits());
    assert_eq!(Double::infinity(true).to_bits(), f64::NEG_INFINITY.to_bits());
    assert_eq!(Double::signed(true, 2.5f64.to_bits()).to_bits(), (-2.5f64).to_bits());
    assert_eq!(Double::from_bits(2.5f64.to_bits()).negate().to_bits(), (-2.5f64).to_bits());
    assert_eq!(Double::from_bits((-0.0f64).to_bits()).negate().to_bits(), 0);
    assert!(Double::from_bits((-0.0f64).to_bits()).is_negative());
    assert_eq!(Double::from_bits((-2.5f64).to_bits()).magnitude(), 2.5f64.to_bits());
}
