use qutub_transpiler::binary64::Binary64;
use qutub_transpiler::number::parse_number;

fn f(x: f64) -> Binary64 {
    Binary64::from_bits(x.to_bits())
}

fn value(x: Binary64) -> f64 {
    f64::from_bits(x.to_bits())
}

/// Bit patterns of all kinds: edges, and a fixed pseudorandom series.
fn samples() -> Vec<f64> {
    let mut out = vec![
        0.0, -0.0, 1.0, -1.0, 0.5, 2.0, 3.0, 0.1, -0.3, 1e300, -1e300, 1e-300, 5e-324, -5e-324,
        f64::MAX, f64::MIN, f64::MIN_POSITIVE, f64::EPSILON, f64::INFINITY, f64::NEG_INFINITY,
        f64::NAN, 2.5, 3.5, -2.5, 1e16, 9.999e15, 1e-4, 9.9e-5, std::f64::consts::PI,
        std::f64::consts::TAU, 4503599627370495.5, 9007199254740993.0, 0.005, 0.015, 1.005,
    ];
    let mut state: u64 = 0x9e37_79b9_7f4a_7c15;
    for _ in 0..40 {
        state = state.wrapping_mul(6364136223846793005).wrapping_add(1442695040888963407);
        out.push(f64::from_bits(state));
        out.push((state >> 40) as f64 / 1024.0 - 5000.0);
    }
    out
}

fn same(ours: Binary64, theirs: f64) -> bool {
    if theirs.is_nan() {
        ours.is_nan()
    } else {
        ours.to_bits() == theirs.to_bits()
    }
}

#[test]
fn arithmetic_is_that_of_the_machine() {
    for &a in &samples() {
        for &b in &samples() {
            assert!(same(f(a).plus(f(b)), a + b), "{:?} + {:?}", a, b);
            assert!(same(f(a).minus(f(b)), a - b), "{:?} - {:?}", a, b);
            assert!(same(f(a).times(f(b)), a * b), "{:?} * {:?}", a, b);
            assert_eq!(f(a).lt(f(b)), a < b, "{:?} < {:?}", a, b);
        }
    }
}

#[test]
fn division_and_remainder_are_those_of_the_machine() {
    let all = samples();
    for (i, &a) in all.iter().enumerate() {
        for &b in all.iter().skip(i % 7).step_by(7) {
            assert!(same(f(a).over(f(b)), a / b), "{:?} / {:?}", a, b);
            assert!(same(f(a).rem(f(b)), a % b), "{:?} % {:?}", a, b);
        }
    }
}

#[test]
fn signs_and_rounding_are_those_of_the_machine() {
    for &a in &samples() {
        assert!(same(f(a).neg(), -a), "-{:?}", a);
        assert!(same(f(a).abs(), a.abs()), "|{:?}|", a);
        assert!(same(f(a).round(), a.round()), "round {:?}", a);
        assert_eq!(f(a).is_finite(), a.is_finite());
    }
    for n in [0u64, 1, 2, 1 << 53, (1 << 53) + 1, u64::MAX, 12345678901234567] {
        assert_eq!(value(Binary64::from_u64(n)), n as f64);
    }
}

#[test]
fn texts_are_those_of_the_standard_library() {
    for &a in &samples() {
        let mut shown = String::new();
        f(a).push_shown(&mut shown);
        assert_eq!(shown, format!("{}", a));
        let mut debugged = String::new();
        f(a).push_debug(&mut debugged);
        assert_eq!(debugged, format!("{:?}", a));
        let mut fixed = String::new();
        f(a).push_fixed(&mut fixed);
        assert_eq!(fixed, format!("{:.2}", a));
    }
}

#[test]
fn numbers_are_read_as_the_standard_library_reads_them() {
    let texts = [
        "0", "-0", "1", "+1", "1.", ".5", "-.5e3", "1e10", "1E-10", "1e400", "1e-400", "inf", "-inf",
        "Infinity", "nan", "NaN", "1.7976931348623157e308", "1.7976931348623159e308", "4.9e-324",
        "2.4e-324", "9007199254740993", "0.1", "123456789012345678901234567890", "3.14159", "",
        ".", "e5", "1e", "1e+", "--1", "1 ", " 1", "0x10", "1_000", "infin", "1.2.3", "+", "-",
    ];
    for t in &texts {
        let ours = parse_number(&t.chars().collect());
        match (ours, t.parse::<f64>()) {
            (Some(x), Ok(y)) => assert!(same(x, y), "{:?}: {} and {}", t, value(x), y),
            (None, Err(_)) => {}
            (x, y) => panic!("{:?}: {:?} and {:?}", t, x, y),
        }
    }
}

#[test]
fn written_numbers_are_read_back() {
    for &a in &samples() {
        let mut shown = String::new();
        f(a).push_shown(&mut shown);
        let back = parse_number(&shown.chars().collect()).unwrap();
        assert!(same(back, a), "{} came back as {}", shown, value(back));
    }
}
