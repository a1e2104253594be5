use tiny_interp::decimal::{format_double, format_long, parse_double, parse_int, parse_long};
use tiny_interp::double::Double;
use tiny_interp::parse::{tokenize, Token};

fn texts() -> Vec<&'static str> {
    vec![
        "", "0", "-0", "+0", "1", "-1", "+5", "007", "2147483647", "2147483648", "-2147483648",
        "-2147483649", "9223372036854775807", "9223372036854775808", "-9223372036854775808",
        "-9223372036854775809", "2000000000000", "1.5", "2.5", "0.1", ".5", "5.", ".", "-.5",
        "+.5e3", "1e5", "1E5", "1e+5", "1e-5", "1e", "1e+", "e5", "1.e3", "1.2.3", "1_000", "0x10",
        "inf", "-inf", "+inf", "Inf", "INF", "infinity", "-Infinity", "INFINITY", "infinit", "nan",
        "NaN", "-nan", "NAN", "nanx", "abc", "true", "-", "+", "--1", "+-1", "1-", "1 ", " 1",
        "1e400", "1e-400", "1e308", "1.7976931348623157e308", "1.7976931348623159e308",
        "2.2250738585072014e-308", "4.9e-324", "2.4703282292062328e-324",
        "2.4703282292062327e-324", "5e-324", "1e23", "8.5e22", "9007199254740993",
        "9007199254740992.5", "0.30000000000000004", "123456789012345678901234567890",
        "0.000000000000000000000000000000000000000000001", "1e99999999999999999999999999",
        "1e-99999999999999999999999999", "0e99999999999999999999999999",
        "0.0000000000000000000000001e25", "100000000000000000000000000e-26",
        "179769313486231580793728971405303415079934132710037826936173778980444968292764750946649017977587207096330286416692887910946555547851940402630657488671505820681908902000708383676273854845817711531764475730270069855571366959622842914819860834936475292719074168444365510704342711559699508093042880177904174497791",
        "179769313486231580793728971405303415079934132710037826936173778980444968292764750946649017977587207096330286416692887910946555547851940402630657488671505820681908902000708383676273854845817711531764475730270069855571366959622842914819860834936475292719074168444365510704342711559699508093042880177904174497792",
        "3.14159", "12345.6789e-3", "1e0", "1e-0", "00.00e00", "-1.0e-10", "6.02214076e23",
        "1e22", "1e21", "1e-7", "123456789.125", "4.35", "0.000001", "1e15", "1e16", "1e17",
    ]
}

#[test]
fn doubles_are_read_as_the_standard_library_reads_them() {
    for t in texts() {
        let got = parse_double(&t.as_bytes().to_vec());
        match t.parse::<f64>() {
            Ok(v) => {
                let d = got.unwrap_or_else(|| panic!("{:?} was refused", t));
                if v.is_nan() {
                    assert!(d.is_nan(), "{:?}", t);
                } else {
                    assert_eq!(d.to_bits(), v.to_bits(), "{:?}", t);
                }
            }
            Err(_) => assert!(got.is_none(), "{:?} was accepted", t),
        }
    }
}

#[test]
fn integers_are_read_as_the_standard_library_reads_them() {
    for t in texts() {
        let bytes = t.as_bytes().to_vec();
        assert_eq!(parse_int(&bytes), t.parse::<i32>().ok(), "{:?}", t);
        assert_eq!(parse_long(&bytes), t.parse::<i64>().ok(), "{:?}", t);
    }
}

#[test]
fn integers_are_written_as_the_standard_library_writes_them() {
    for v in [0i64, 1, -1, 9, 10, 42, -42, 1234567890123, i64::MAX, i64::MIN, 2147483647] {
        assert_eq!(format_long(v), v.to_string().into_bytes());
    }
}

fn values() -> Vec<f64> {
    let mut out = vec![
        0.0, -0.0, 1.0, -1.0, 2.5, 3.5, 0.1, 0.2, 0.3, 0.1 + 0.2, 1e21, 1e22, 1e23, 1e-7, 1e300,
        1e-300, f64::MAX, f64::MIN_POSITIVE, 5e-324, f64::INFINITY, f64::NEG_INFINITY, f64::NAN,
        123456789.125, 9007199254740992.0, 9007199254740994.0, 4.35, 100.0, 1e15, 1e16, 1e17,
        0.000001, 1.0 / 3.0, 2.0 / 3.0, 1e308, 9.5e22, 8.41e21, 2.2250738585072014e-308,
        2.225073858507201e-308, 1.5e-323, 3.0e-5, 299792458.0, 6.02214076e23, 4294967296.0,
        18446744073709551616.0, 0.5, 0.25, 0.125,
    ];
    let mut state: u64 = 0x0123_4567_89AB_CDEF;
    for _ in 0..400 {
        state = state.wrapping_mul(6364136223846793005).wrapping_add(1442695040888963407);
        out.push(f64::from_bits(state));
    }
    for i in 0..64 {
        out.push((i as f64) * 0.37 + 1e-3);
        out.push(2f64.powi(i * 7 - 200));
        out.push(10f64.powi(i * 5 - 150));
    }
    out
}

#[test]
fn doubles_are_written_as_the_standard_library_writes_them() {
    for v in values() {
        let got = format_double(&Double::from_bits(v.to_bits()));
        assert_eq!(String::from_utf8(got).unwrap(), v.to_string(), "bits {:#x}", v.to_bits());
    }
}

#[test]
fn a_written_double_reads_back() {
    for v in values() {
        let d = Double::from_bits(v.to_bits());
        let text = format_double(&d);
        let back = parse_double(&text).unwrap();
        assert_eq!(back.to_bits(), d.to_bits());
    }
}

#[test]
fn a_double_with_a_fraction_is_written_with_a_point_and_reads_back_as_a_double() {
    let mut seen = 0;
    for v in values() {
        if !v.is_finite() || v == v.trunc() {
            continue;
        }
        seen += 1;
        let d = Double::from_bits(v.to_bits());
        let text = String::from_utf8(format_double(&d)).unwrap();
        assert!(text.contains('.'), "{}", text);
        assert_eq!(tokenize(text), Ok(vec![Token::DoubleLiteral(d)]));
    }
    assert!(seen > 100);
}

#[test]
fn no_shorter_text_reads_back() {
    // 0.3 is written with one digit; 0.1 + 0.2 needs seventeen.
    let text = |v: f64| String::from_utf8(format_double(&Double::from_bits(v.to_bits()))).unwrap();
    assert_eq!(text(0.3), "0.3");
    assert_eq!(text(0.1 + 0.2), "0.30000000000000004");
    let shorter = parse_double(&b"0.3000000000000000".to_vec()).unwrap();
    assert_ne!(shorter.to_bits(), (0.1f64 + 0.2).to_bits());
    // Of the two numbers of one digit around 5e-324, both read back; the nearer is written.
    assert_eq!(text(5e-324), format!("0.{}5", "0".repeat(323)));
    assert_eq!(parse_double(&b"4e-324".to_vec()).unwrap().to_bits(), 1);
    assert_eq!(parse_double(&b"5e-324".to_vec()).unwrap().to_bits(), 1);
    // A tie between two numbers of as many digits goes to the upper one.
    assert_eq!(text(9007199254740993.0), "9007199254740992");
}
