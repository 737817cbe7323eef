use resizer::decimal::{fixed_text, parse_double};
use resizer::double::Double;
use resizer::shortest::shortest_text;

fn num(x: f64) -> Double {
    Double { bits: x.to_bits() }
}

fn same(a: Double, b: f64) -> bool {
    let x = f64::from_bits(a.bits);
    (x.is_nan() && b.is_nan()) || a.bits == b.to_bits()
}

fn values() -> Vec<f64> {
    let mut v = vec![
        0.0,
        -0.0,
        1.0,
        -1.0,
        0.1,
        2.5,
        1e-320,
        5e-324,
        -5e-324,
        f64::MIN_POSITIVE,
        f64::MAX,
        f64::MIN,
        f64::INFINITY,
        f64::NEG_INFINITY,
        f64::NAN,
        9007199254740993.0,
        1125899906842624.25,
        0.3,
        1e300,
        1e-300,
        4294967295.0,
        1.7976931348623155e308,
        123456.789,
    ];
    let mut x: u64 = 0x9E37_79B9_7F4A_7C15;
    for _ in 0..60 {
        x ^= x << 13;
        x ^= x >> 7;
        x ^= x << 17;
        v.push(f64::from_bits(x));
    }
    v
}

#[test]
fn arithmetic_agrees_with_the_machine() {
    for a in values() {
        for b in values() {
            assert!(same(num(a).add(num(b)), a + b), "{a} + {b}");
            assert!(same(num(a).sub(num(b)), a - b), "{a} - {b}");
            assert!(same(num(a).mul(num(b)), a * b), "{a} * {b}");
            assert!(same(num(a).div(num(b)), a / b), "{a} / {b}");
            assert_eq!(num(a).lt(num(b)), a < b, "{a} < {b}");
            let (max, min) = (num(a).max(num(b)), num(a).min(num(b)));
            assert!(f64::from_bits(max.bits) == a.max(b) || (a.is_nan() && b.is_nan()));
            assert!(f64::from_bits(min.bits) == a.min(b) || (a.is_nan() && b.is_nan()));
        }
    }
}

#[test]
fn roots_and_conversions_agree_with_the_machine() {
    for a in values() {
        assert!(same(num(a).sqrt(), a.sqrt()), "sqrt {a}");
        assert_eq!(num(a).to_u64(), a as u64, "{a} as u64");
        assert_eq!(num(a).to_u32(), a as u32, "{a} as u32");
        assert_eq!(num(a).to_u8(), a as u8, "{a} as u8");
        assert_eq!(num(a).to_i64(), a as i64, "{a} as i64");
        assert_eq!(num(a).floor_i64(), a.floor() as i64, "floor {a}");
        assert_eq!(num(a).ceil_i64(), a.ceil() as i64, "ceil {a}");
        assert!(same(num(a).neg(), -a));
    }
    for n in [0u64, 1, 255, 1 << 53, (1 << 53) + 1, u64::MAX, u64::MAX - 1024] {
        assert!(same(Double::from_u64(n), n as f64), "{n}");
    }
    assert!(same(Double::ratio(1, 100), 0.01));
    assert!(same(Double::ratio(45, 1000), 0.045));
    assert!(same(Double::ratio(96, 100), 0.96));
    assert!(same(Double::ratio(104, 100), 1.04));
}

#[test]
fn texts_are_read_as_the_machine_reads_them() {
    for s in [
        "0", "-0", "1", "+1", "12.5", "0.1", ".5", "5.", "1e3", "1E3", "1e+3", "1e-3", "-1.5e2",
        "30000", "1001", "12.500000", "1e400", "-1e400", "1e-400", "2.2250738585072011e-308",
        "4.9406564584124654e-324", "2.4703282292062327e-324", "2.4703282292062328e-324",
        "1.7976931348623157e308", "1.7976931348623159e308", "9007199254740993",
        "9007199254740992.99999999999999999999999999999999999999",
        "9007199254740993.00000000000000000000000000000000000001",
        "0.000000000000000000000000000000000000000000000000000000000000000001",
        "123456789012345678901234567890123456789012345678901234567890",
        "1e99999999999999999999999999", "1e-99999999999999999999999999",
        "0e99999999999999999999999999", "inf", "-inf", "Infinity", "+INFINITY", "nan", "-NaN",
        "00000000000000000000000000000000000000001.5",
        "179769313486231580793728971405303415079934132710037826936173778980444968292764750946649017977587207096330286416692887910946555547851940402630657488671505820681908902000708383676273854845817711531764475730270069855571366959622842914819860834936475292719074168444365510704342711559699508093042880",
    ] {
        let want: f64 = s.parse().unwrap();
        let got = parse_double(s).unwrap();
        assert!(same(got, want), "{s}: {} vs {want}", f64::from_bits(got.bits));
    }
    for s in [
        "", "+", "-", ".", "e5", "1e", "1e+", "1.2.3", " 1", "1 ", "0x10", "1_000", "in", "infin",
        "--1", "1e5.0", "abc", "N/A",
    ] {
        assert!(s.parse::<f64>().is_err(), "{s}");
        assert!(parse_double(s).is_none(), "{s}");
    }
}

#[test]
fn printed_numbers_are_read_back() {
    for a in values() {
        let s = format!("{a}");
        assert!(same(parse_double(&s).unwrap(), a), "{s}");
        let e = format!("{a:e}");
        assert!(same(parse_double(&e).unwrap(), a), "{e}");
    }
}

#[test]
fn one_decimal_agrees_with_the_machine() {
    for a in values() {
        assert_eq!(fixed_text(num(a)), format!("{a:.1}"));
    }
    for a in [0.25, 0.35, 0.75, 1.25, 2.45, 9.95, 0.05, 0.15, 10.0, 99.949999] {
        assert_eq!(fixed_text(num(a)), format!("{a:.1}"));
        assert_eq!(fixed_text(num(-a)), format!("{:.1}", -a));
    }
}

#[test]
fn the_shortest_decimal_agrees_with_the_machine() {
    let mut all = values();
    for n in 1..40 {
        all.push(n as f64 * 1000.0 / 1001.0);
        all.push(n as f64 / 10.0);
        all.push(2f64.powi(25 * n - 500));
        all.push(10f64.powi(n));
    }
    all.extend([29.97, 23.976, 2.5, 1e21, 1e23, 1125899906842626.25, 9007199254740991.0, 5e-7]);
    for x in all {
        assert_eq!(shortest_text(num(x)), format!("{x}"), "{x:e}");
    }
    assert_eq!(shortest_text(num(30000.0 / 1001.0)), "29.97002997002997");
    assert_eq!(shortest_text(num(-0.0)), "-0");
    assert_eq!(shortest_text(num(0.001)), "0.001");
}
