//! Numbers behave as IEEE doubles do.

use teatop::num::Num;

fn num(x: f64) -> Num {
    Num { bits: x.to_bits() }
}

fn val(n: Num) -> f64 {
    f64::from_bits(n.bits)
}

fn agree(n: Num, x: f64) -> bool {
    (val(n).is_nan() && x.is_nan()) || n.bits == x.to_bits()
}

fn grid() -> Vec<f64> {
    let mut v = vec![
        0.0, -0.0, 1.0, -1.0, 0.5, 0.1, 0.2, 0.3, 1.0 / 3.0, 2.0, 3.0, 7.0, 10.0, 59.95, 60.0, 84.99, 85.0, 99.95, 100.0,
        1000.0, 1024.0, 1536.0, 3600.0, 1e9, 1e-9, 123456.789, 4294967296.0, 9007199254740993.0, 1.8446744073709552e19,
        1e300, 1e-300, 5e-324, 2.2250738585072014e-308, 1.7976931348623157e308, f64::INFINITY, f64::NEG_INFINITY, f64::NAN,
        -2.5, 0.25, 0.125, 0.35, 2.675, 1.005, 0.05, 0.005, 0.015, 12.345, 1e15, 1e16, 1e17,
    ];
    let mut x: u64 = 0x9e37_79b9_7f4a_7c15;
    for _ in 0..40 {
        x ^= x << 13;
        x ^= x >> 7;
        x ^= x << 17;
        v.push(f64::from_bits(x));
        v.push((x >> 40) as f64 / 1000.0);
    }
    v
}

#[test]
fn arithmetic_agrees_with_the_machine() {
    for &a in &grid() {
        for &b in &grid() {
            assert!(agree(num(a).plus(num(b)), a + b), "{} + {}", a, b);
            assert!(agree(num(a).minus(num(b)), a - b), "{} - {}", a, b);
            assert!(agree(num(a).times(num(b)), a * b), "{} * {}", a, b);
            assert!(agree(num(a).over(num(b)), a / b), "{} / {}", a, b);
        }
    }
}

#[test]
fn comparison_agrees_with_the_machine() {
    for &a in &grid() {
        for &b in &grid() {
            assert_eq!(num(a).lt(num(b)), a < b);
            assert_eq!(num(a).ge(num(b)), a >= b);
            assert_eq!(num(a).equals(num(b)), a == b);
            if !(a == 0.0 && b == 0.0) {
                assert!(agree(num(a).max_of(num(b)), a.max(b)), "max {} {}", a, b);
            }
        }
    }
}

#[test]
fn conversion_agrees_with_the_machine() {
    for &a in &grid() {
        assert_eq!(num(a).to_u64(), a as u64, "{}", a);
        assert_eq!(num(a).to_usize(), a as usize, "{}", a);
        assert_eq!(num(a).to_i64(), a as i64, "{}", a);
    }
    for n in [0u64, 1, 2, 999, 1 << 53, (1 << 53) + 1, u64::MAX, u64::MAX - 1, 123456789012345678] {
        assert!(agree(Num::from_u64(n), n as f64), "{}", n);
    }
}

#[test]
fn fixed_text_agrees_with_the_formatter() {
    for &a in &grid() {
        if a.is_finite() && a.abs() > 1e40 {
            continue;
        }
        assert_eq!(num(a).to_fixed(0), format!("{:.0}", a));
        assert_eq!(num(a).to_fixed(1), format!("{:.1}", a));
        assert_eq!(num(a).to_fixed(2), format!("{:.2}", a));
    }
}

#[test]
fn reading_agrees_with_the_parser() {
    for s in [
        "0", "1", "-1", "+1", "1.5", ".5", "5.", "1e3", "1E-3", "1e400", "1e-400", "123456789012345678901234567890", "0.1",
        "0.30000000000000004", "9007199254740993", "2.2250738585072011e-308", "4.9e-324", "2.4e-324", "inf", "-Infinity",
        "nan", "NaN", "1.7976931348623159e308", "17.25", "0.00", "00012",
    ] {
        let want: Result<f64, _> = s.parse();
        match (Num::parse(s), want) {
            (Some(n), Ok(x)) => assert!(agree(n, x), "{}", s),
            (None, Err(_)) => {}
            (got, _) => panic!("{}: {:?}", s, got.map(val)),
        }
    }
    for s in ["", ".", "-", "e3", "1e", "1 ", " 1", "1.2.3", "0x10", "banana", "1_000", "infi", "+-1"] {
        assert!(s.parse::<f64>().is_err());
        assert!(Num::parse(s).is_none(), "{}", s);
    }
}

#[test]
fn clamping_holds_to_the_bounds() {
    assert!(agree(num(150.0).clamped(num(0.0), num(100.0)), 100.0));
    assert!(agree(num(-3.0).clamped(num(0.0), num(100.0)), 0.0));
    assert!(agree(num(42.5).clamped(num(0.0), num(100.0)), 42.5));
    assert!(val(num(f64::NAN).clamped(num(0.0), num(100.0))).is_nan());
}
