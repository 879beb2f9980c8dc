use stallwatch::decimal::read_double;
use stallwatch::float::Double;
use stallwatch::span::Span;

fn d(x: f64) -> Double {
    Double { bits: x.to_bits() }
}

fn chars(s: &str) -> Vec<char> {
    s.chars().collect()
}

/// Numbers of every kind: zeros, subnormal ones, neighbours of powers, halves
/// that fall between, large ones, and the endless ones.
fn sample() -> Vec<f64> {
    let mut v = vec![
        0.0,
        -0.0,
        1.0,
        -1.0,
        0.1,
        0.2,
        0.3,
        0.5,
        1.5,
        2.5,
        99.995,
        0.005,
        0.015,
        1e-7,
        1e21,
        1e22,
        123456789.125,
        f64::MIN_POSITIVE,
        5e-324,
        f64::MAX,
        f64::EPSILON,
        9007199254740993.0,
        18446744073709551615.0,
        f64::INFINITY,
        f64::NEG_INFINITY,
    ];
    let mut bits: u64 = 0x0123_4567_89ab_cdef;
    for _ in 0..60 {
        bits = bits.wrapping_mul(6364136223846793005).wrapping_add(1442695040888963407);
        let x = f64::from_bits(bits);
        if !x.is_nan() {
            v.push(x);
            v.push((x.abs().ln() * 1000.0).fract() * 100.0);
        }
    }
    v.retain(|x| !x.is_nan());
    v
}

fn same(a: Double, b: f64) -> bool {
    a == d(b) || (f64::from_bits(a.bits).is_nan() && b.is_nan())
}

#[test]
fn arithmetic_is_that_of_the_machine() {
    let v = sample();
    for &a in &v {
        for &b in v.iter().step_by(9) {
            assert!(same(d(a).plus(&d(b)), a + b), "{a:e} + {b:e}");
            assert!(same(d(a).minus(&d(b)), a - b), "{a:e} - {b:e}");
            assert!(same(d(a).times(&d(b)), a * b), "{a:e} * {b:e}");
            assert!(same(d(a).over(&d(b)), a / b), "{a:e} / {b:e}");
            assert_eq!(d(a).less(&d(b)), a < b);
            assert_eq!(d(a).less_or_equal(&d(b)), a <= b);
        }
    }
    assert!(!Double::nan().less_or_equal(&Double::nan()));
}

#[test]
fn numbers_are_written_as_the_machine_writes_them() {
    for &x in &sample() {
        if !(x.is_finite() && x.abs() > 1e30) {
            for n in 0..4usize {
                assert_eq!(d(x).to_fixed(n), format!("{x:.n$}"), "{x:e} to {n} places");
            }
        }
        assert_eq!(d(x).to_shortest(), format!("{x}"), "{x:e}");
    }
    assert_eq!(d(2.5).to_fixed(0), "2");
    assert_eq!(d(3.5).to_fixed(0), "4");
    assert_eq!(d(99.995).to_fixed(2), "100.00");
}

#[test]
fn numbers_are_read_as_the_machine_reads_them() {
    let texts = [
        "0", "-0", "1", "1.5", "1e3", "1E-3", ".5", "5.", "+7", "1_000", "", "-", "e5", "1e", "0x10", "9007199254740993", "2.2250738585072011e-308",
        "4.9e-324", "2e-324", "3e-324", "1e400", "-1e400", "1.7976931348623159e308", "123.456e-7",
        " 1", "1 ",
    ];
    for t in texts {
        let want: Option<f64> = t.parse().ok();
        let got = read_double(&chars(t));
        match (want, got) {
            (None, None) => {}
            (Some(w), Some(g)) => assert!(same(g, w), "{t}"),
            (w, g) => panic!("{t}: {w:?} {g:?}"),
        }
    }
    for &x in sample().iter().filter(|x| x.is_finite()) {
        assert!(same(read_double(&chars(&format!("{x:e}"))).unwrap(), x), "{x:e}");
    }
    // A number is written with digits.
    assert!(read_double(&chars("inf")).is_none());
    assert!(read_double(&chars("nan")).is_none());
}

#[test]
fn whole_numbers_convert_as_casts_do() {
    for &x in &sample() {
        assert_eq!(d(x).to_u64(), x as u64, "{x:e}");
        assert_eq!(d(x).to_i64(), x as i64, "{x:e}");
    }
    for n in [0u64, 1, 9007199254740993, u64::MAX, 1 << 63] {
        assert_eq!(Double::from_u64(n), d(n as f64));
    }
    assert_eq!(Double::nan().to_u64(), 0);
    assert_eq!(d(-2.5).abs(), d(2.5));
    assert_eq!(d(2.5).negate(), d(-2.5));
    assert_eq!(d(1.0).max(&d(2.0)), d(2.0));
    assert_eq!(Double::zero(), d(0.0));
}

#[test]
fn spans_convert_as_durations_do() {
    for ms in [0u64, 1, 999, 1000, 123_456_789] {
        let want = std::time::Duration::from_millis(ms);
        let s = Span::from_millis(ms);
        assert_eq!((s.secs, s.nanos), (want.as_secs(), want.subsec_nanos()));
        assert_eq!(s.to_seconds(), d(want.as_secs_f64()));
    }
    for x in [0.0, 0.1, 1.3, 2.7, 0.0005, 1e-10, 12345.678901234] {
        let want = std::time::Duration::from_secs_f64(x);
        let s = Span::from_seconds(d(x));
        assert_eq!((s.secs, s.nanos), (want.as_secs(), want.subsec_nanos()), "{x}");
    }
}
