use libretune_core::num::{Num, ONE, TWO, ZERO};

fn num(x: f64) -> Num {
    Num { bits: x.to_bits() }
}

const SPREAD: [f64; 14] = [
    f64::NEG_INFINITY,
    f64::MIN,
    -2.5,
    -1.0,
    -f64::MIN_POSITIVE,
    -5e-324,
    -0.0,
    0.0,
    5e-324,
    f64::MIN_POSITIVE,
    0.1,
    1.0,
    f64::MAX,
    f64::INFINITY,
];

#[test]
fn numbers_compare_as_doubles_do() {
    let mut all = SPREAD.to_vec();
    all.push(f64::NAN);
    all.push(-f64::NAN);
    for a in all.iter() {
        for b in all.iter() {
            assert_eq!(num(*a).lt(num(*b)), a < b, "{a} < {b}");
            assert_eq!(num(*a).le(num(*b)), a <= b, "{a} <= {b}");
            assert_eq!(num(*a) == num(*b), a == b, "{a} == {b}");
        }
        assert_eq!(num(*a).is_nan(), a.is_nan());
        assert_eq!(num(*a).is_finite(), a.is_finite());
        assert_eq!(num(*a).abs().bits, a.abs().to_bits());
    }
}

#[test]
fn the_larger_and_the_smaller_pass_over_a_nan() {
    for a in SPREAD {
        for b in SPREAD {
            assert!(num(a).max(num(b)) == num(a.max(b)), "max of {a} and {b}");
            assert!(num(a).min(num(b)) == num(a.min(b)), "min of {a} and {b}");
        }
        assert!(num(a).max(num(f64::NAN)) == num(a));
        assert!(num(f64::NAN).min(num(a)) == num(a));
    }
}

#[test]
fn clamping_keeps_within_the_bounds() {
    for a in SPREAD {
        assert!(num(a).clamp(num(-1.0), num(0.5)) == num(a.clamp(-1.0, 0.5)));
    }
    assert!(num(f64::NAN).clamp(num(0.0), num(1.0)).is_nan());
}

#[test]
fn small_constants_are_the_decimal_values() {
    assert_eq!((f64::from_bits(ZERO), f64::from_bits(ONE), f64::from_bits(TWO)), (0.0, 1.0, 2.0));
}
