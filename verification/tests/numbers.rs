use market_lab::num::decimal::decimal;
use market_lab::num::Num;

fn num(x: f64) -> Num {
    Num { bits: x.to_bits() }
}

fn val(x: Num) -> f64 {
    f64::from_bits(x.bits)
}

fn agree(ours: Num, theirs: f64) {
    if theirs.is_nan() {
        assert!(ours.is_nan());
    } else {
        assert_eq!(ours.bits, theirs.to_bits(), "{:?} is not {theirs:?}", val(ours));
    }
}

/// Numbers of every magnitude, and a long run of arbitrary bit patterns.
fn samples() -> Vec<f64> {
    let mut all = vec![
        0.,
        -0.,
        1.,
        -1.,
        0.1,
        1. / 3.,
        2.5,
        -1e-300,
        1e308,
        f64::MAX,
        f64::MIN_POSITIVE,
        5e-324,
        -5e-324,
        f64::INFINITY,
        f64::NEG_INFINITY,
        f64::NAN,
        9_007_199_254_740_993.,
        65000.12,
    ];
    let mut state: u64 = 0x9e37_79b9_7f4a_7c15;
    for _ in 0..120 {
        state = state.wrapping_mul(6_364_136_223_846_793_005).wrapping_add(1_442_695_040_888_963_407);
        all.push(f64::from_bits(state ^ (state >> 29)));
        all.push((state >> 40) as f64 / 1000. - 5000.);
    }
    all
}

#[test]
fn arithmetic_is_that_of_the_machine() {
    let all = samples();
    for &a in &all {
        for &b in &all {
            agree(num(a).plus(num(b)), a + b);
            agree(num(a).minus(num(b)), a - b);
            agree(num(a).times(num(b)), a * b);
            agree(num(a).over(num(b)), a / b);
            assert_eq!(num(a).lt(num(b)), a < b);
            assert_eq!(num(a).le(num(b)), a <= b);
            assert_eq!(num(a).same(num(b)), a == b);
        }
    }
}

#[test]
fn single_operations_are_those_of_the_machine() {
    for a in samples() {
        agree(num(a).root(), a.sqrt());
        agree(num(a).abs(), a.abs());
        agree(num(a).negated(), -a);
        agree(num(a).signum(), a.signum());
        assert_eq!(num(a).to_int(), a as i64);
        assert_eq!(num(a).to_count(), a as u64);
        assert_eq!(num(a).is_nan(), a.is_nan());
        assert_eq!(num(a).is_finite(), a.is_finite());
        assert_eq!(num(a).is_positive(), a.is_finite() && a > 0.);
    }
}

#[test]
fn bounds_are_those_of_the_machine() {
    for a in samples() {
        if a.is_nan() {
            continue;
        }
        agree(num(a).within(num(-2.), num(7.)), a.clamp(-2., 7.));
        if a != 0. {
            agree(num(a).larger(num(3.)), a.max(3.));
            agree(num(a).smaller(num(3.)), a.min(3.));
        }
    }
    agree(num(f64::NAN).larger(num(3.)), 3.);
    agree(num(3.).smaller(num(f64::NAN)), 3.);
}

#[test]
fn whole_numbers_are_rounded_to_the_nearest() {
    for n in [0, 1, -1, 10_000, i64::MAX, i64::MIN, 9_007_199_254_740_993, -9_007_199_254_740_995] {
        agree(Num::from_int(n), n as f64);
    }
    for n in [0, 1, u64::MAX, 9_007_199_254_740_993, 18_014_398_509_481_990] {
        agree(Num::from_count(n), n as f64);
    }
    agree(Num::ratio(55, 100), 0.55);
    agree(Num::ratio(1, 10_000), 0.0001);
    agree(Num::ratio(5, 1_000_000), 0.000_005);
    agree(Num::zero(), 0.);
    agree(Num::one(), 1.);
    agree(Num::infinity(), f64::INFINITY);
}

#[test]
fn decimal_texts_are_read_as_std_reads_them() {
    let texts = [
        "0",
        "-0",
        "1",
        "+1",
        "-1.5",
        ".5",
        "5.",
        "100.01",
        "27000.55000000",
        "1e10",
        "1E-10",
        "1e+3",
        "1.7976931348623157e308",
        "1.7976931348623159e308",
        "1e400",
        "4.9e-324",
        "2e-324",
        "1e-400",
        "9007199254740993",
        "0.1",
        "0.30000000000000004",
        "123456789012345678901234567890",
        "0.000000000000000000000000000000123456789",
        "2.2250738585072011e-308",
        "inf",
        "-Infinity",
        "+iNf",
        "nan",
        "NaN",
        "-nan",
        "",
        "+",
        "-",
        ".",
        "e5",
        "1e",
        "1e+",
        " 1",
        "1 ",
        "1_000",
        "0x10",
        "1.2.3",
        "--1",
        "infinit",
        "١",
        "1e99999999999999999999",
        "0e99999999999999999999",
        "1e-99999999999999999999",
    ];
    for text in texts {
        match (decimal(text), text.parse::<f64>()) {
            (Some(ours), Ok(theirs)) => agree(ours, theirs),
            (None, Err(_)) => {}
            (ours, theirs) => panic!("{text:?}: {ours:?} and {theirs:?}"),
        }
    }
}

#[test]
fn written_numbers_read_back_the_same() {
    for a in samples() {
        if a.is_finite() {
            assert_eq!(decimal(&format!("{a:?}")).unwrap().bits, a.to_bits());
            assert_eq!(decimal(&format!("{a:.3}")), Some(num(format!("{a:.3}").parse().unwrap())));
        }
    }
}
