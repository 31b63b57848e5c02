use jack::number::Number;

fn n(x: f64) -> Number {
    Number::from_bits(x.to_bits())
}

fn f(x: Number) -> f64 {
    f64::from_bits(x.to_bits())
}

fn same(actual: Number, expected: f64) {
    if expected.is_nan() {
        assert!(f(actual).is_nan(), "expected NaN, got {}", f(actual));
    } else {
        assert_eq!(actual.to_bits(), expected.to_bits(), "expected {}, got {}", expected, f(actual));
    }
}

const SAMPLES: [f64; 24] = [
    0.0,
    -0.0,
    1.0,
    -1.0,
    0.1,
    0.2,
    0.3,
    1.5,
    -2.25,
    3.141592653589793,
    1e10,
    1e-10,
    1e300,
    -1e300,
    1e-300,
    5e-324,
    2.2250738585072014e-308,
    1.7976931348623157e308,
    9007199254740992.0,
    123456789.125,
    f64::INFINITY,
    f64::NEG_INFINITY,
    f64::NAN,
    7.0,
];

#[test]
fn bits_round_trip() {
    for x in SAMPLES {
        assert_eq!(n(x).to_bits(), x.to_bits());
    }
    assert_eq!(Number::from_bits(0x3ff0_0000_0000_0000).to_bits(), 1.0f64.to_bits());
}

#[test]
fn sum_is_the_ieee_sum() {
    for a in SAMPLES {
        for b in SAMPLES {
            same(n(a).sum(n(b)), a + b);
        }
    }
    assert_eq!(f(n(0.1).sum(n(0.2))), 0.30000000000000004);
}

#[test]
fn difference_is_the_ieee_difference() {
    for a in SAMPLES {
        for b in SAMPLES {
            same(n(a).difference(n(b)), a - b);
        }
    }
    assert_eq!(f(n(1.0).difference(n(0.9))), 0.09999999999999998);
}

#[test]
fn product_is_the_ieee_product() {
    for a in SAMPLES {
        for b in SAMPLES {
            same(n(a).product(n(b)), a * b);
        }
    }
    assert_eq!(f(n(0.1).product(n(3.0))), 0.30000000000000004);
}

#[test]
fn quotient_is_the_ieee_quotient() {
    for a in SAMPLES {
        for b in SAMPLES {
            same(n(a).quotient(n(b)), a / b);
        }
    }
    assert_eq!(f(n(1.0).quotient(n(3.0))), 0.3333333333333333);
    assert_eq!(f(n(1.0).quotient(n(0.0))), f64::INFINITY);
    assert_eq!(f(n(1.0).quotient(n(-0.0))), f64::NEG_INFINITY);
}

#[test]
fn remainder_follows_the_dividend() {
    for a in SAMPLES {
        for b in SAMPLES {
            same(n(a).remainder(n(b)), a % b);
        }
    }
    assert_eq!(f(n(7.5).remainder(n(2.0))), 1.5);
    assert_eq!(f(n(-7.5).remainder(n(2.0))), -1.5);
    assert_eq!(f(n(7.5).remainder(n(-2.0))), 1.5);
    assert!(f(n(-4.0).remainder(n(2.0))).is_sign_negative());
}

#[test]
fn negation_flips_the_sign() {
    for a in SAMPLES {
        assert_eq!(n(a).negated().to_bits(), (-a).to_bits());
    }
    assert_eq!(f(n(2.5).negated()), -2.5);
    assert!(f(n(0.0).negated()).is_sign_negative());
}

#[test]
fn equality_is_the_ieee_equality() {
    for a in SAMPLES {
        for b in SAMPLES {
            assert_eq!(n(a).ieee_eq(n(b)), a == b, "{} == {}", a, b);
        }
    }
    assert!(n(0.0).ieee_eq(n(-0.0)));
    assert!(!n(f64::NAN).ieee_eq(n(f64::NAN)));
}

#[test]
fn nan_is_recognised() {
    for a in SAMPLES {
        assert_eq!(n(a).is_nan(), a.is_nan());
    }
    assert!(Number::from_bits(0x7ff0_0000_0000_0001).is_nan());
    assert!(Number::from_bits(0xfff8_0000_0000_0000).is_nan());
    assert!(!Number::from_bits(0x7ff0_0000_0000_0000).is_nan());
}

fn expected_index(a: f64) -> Option<usize> {
    if a <= -1.0 {
        None
    } else {
        Some(a as usize)
    }
}

#[test]
fn index_is_the_truncated_value() {
    for a in SAMPLES {
        assert_eq!(n(a).to_index(), expected_index(a), "{}", a);
    }
    let more = [
        0.5, 0.999999, 1.0, 1.999, 2.0, 5.7, 255.5, 4294967295.0, 4294967296.0, 4503599627370496.0,
        4503599627370497.0, 9007199254740993.0, 1.8446744073709552e19, 1.8446744073709550e19,
        9.223372036854776e18, -0.5, -0.999999, -1.0, -1.5, -5.0, 1e19, 1e20, -1e19,
    ];
    for a in more {
        assert_eq!(n(a).to_index(), expected_index(a), "{}", a);
    }
    assert_eq!(n(5.7).to_index(), Some(5));
    assert_eq!(n(0.0).to_index(), Some(0));
    assert_eq!(n(f64::INFINITY).to_index(), Some(usize::MAX));
}

#[test]
fn number_below_zero_stands_for_no_index() {
    assert_eq!(n(-1.0).to_index(), None);
    assert_eq!(n(-1.5).to_index(), None);
    assert_eq!(n(-2.0).to_index(), None);
    assert_eq!(n(-1e300).to_index(), None);
    assert_eq!(n(f64::NEG_INFINITY).to_index(), None);
    assert_eq!(n(-0.0).to_index(), Some(0));
    assert_eq!(n(-0.5).to_index(), Some(0));
    assert_eq!(n(-0.9999999999999999).to_index(), Some(0));
    assert_eq!(n(-5e-324).to_index(), Some(0));
}

#[test]
fn quotient_by_zero_is_an_infinity_or_a_nan() {
    assert_eq!(f(n(2.0).quotient(n(0.0))), f64::INFINITY);
    assert_eq!(f(n(-2.0).quotient(n(0.0))), f64::NEG_INFINITY);
    assert_eq!(f(n(2.0).quotient(n(-0.0))), f64::NEG_INFINITY);
    assert_eq!(f(n(-2.0).quotient(n(-0.0))), f64::INFINITY);
    assert_eq!(f(n(f64::INFINITY).quotient(n(-0.0))), f64::NEG_INFINITY);
    assert_eq!(f(n(5e-324).quotient(n(0.0))), f64::INFINITY);
    assert!(n(0.0).quotient(n(0.0)).is_nan());
    assert!(n(-0.0).quotient(n(0.0)).is_nan());
    assert!(n(f64::NAN).quotient(n(0.0)).is_nan());
}

#[test]
fn decimal_literals_are_read() {
    let literals = [
        "0", "1", "10", "-1", "3.14", "1e10", "1E10", "0.1", "-0.0", "1e-10", "2.5e+3", "123456789",
        "0.30000000000000004", "1.7976931348623157e308", "5e-324", "1e400", "1e-400",
        "9007199254740993", "0.000001",
    ];
    for literal in literals {
        let expected: f64 = literal.parse().unwrap();
        let read = Number::parse(literal).unwrap();
        assert_eq!(read.to_bits(), expected.to_bits(), "{}", literal);
    }
    assert_eq!(f(Number::parse("3.14").unwrap()), 3.14);
    assert_eq!(f(Number::parse("1e10").unwrap()), 10000000000.0);
}

#[test]
fn text_that_is_no_number_is_refused() {
    assert!(Number::parse("").is_none());
    assert!(Number::parse("abc").is_none());
    assert!(Number::parse("1.2.3").is_none());
    assert!(Number::parse("--1").is_none());
}
