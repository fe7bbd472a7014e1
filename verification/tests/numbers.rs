use pulse::num::{raise, Num};

fn num(x: f64) -> Num {
    Num { bits: x.to_bits() }
}

fn samples() -> Vec<f64> {
    vec![
        f64::NEG_INFINITY,
        f64::MIN,
        -9.3e18,
        -9.2e18,
        -4503599627370497.5,
        -1.5,
        -1.0,
        -0.5,
        -f64::MIN_POSITIVE,
        -0.0,
        0.0,
        5e-324,
        0.25,
        0.999,
        1.0,
        1.5,
        2.0,
        300_000.0,
        1_704_067_234_567.0,
        1_704_067_234_567.75,
        4503599627370496.0,
        9007199254740993.0,
        9.2e18,
        9.3e18,
        f64::MAX,
        f64::INFINITY,
        f64::NAN,
    ]
}

#[test]
fn numbers_are_ordered_as_doubles_are() {
    for a in samples() {
        for b in samples() {
            assert_eq!(num(a).above(num(b)), a > b, "{} > {}", a, b);
            assert_eq!(num(a).at_most(num(b)), a <= b, "{} <= {}", a, b);
        }
    }
}

#[test]
fn zeros_of_both_signs_are_zero() {
    for a in samples() {
        assert_eq!(num(a).is_zero(), a == 0.0);
        assert_eq!(num(a).is_nan(), a.is_nan());
    }
    assert_eq!(Num::zero(), num(0.0));
}

#[test]
fn numbers_are_cut_to_whole_ones() {
    for a in samples() {
        assert_eq!(num(a).whole(), a as i64, "{}", a);
    }
    assert_eq!(num(1.9).whole(), 1);
    assert_eq!(num(-1.9).whole(), -1);
    assert_eq!(num(9223372036854774784.0).whole(), 9223372036854774784);
    assert_eq!(num(9223372036854775808.0).whole(), i64::MAX);
    assert_eq!(num(-9223372036854775808.0).whole(), i64::MIN);
    assert_eq!(num(1e300).whole(), i64::MAX);
    assert_eq!(num(-1e300).whole(), i64::MIN);
    assert_eq!(num(f64::NAN).whole(), 0);
}

#[test]
fn the_highest_of_two_is_kept() {
    assert_eq!(raise(num(0.25), num(0.5)), num(0.5));
    assert_eq!(raise(num(0.5), num(0.25)), num(0.5));
    assert_eq!(raise(num(0.0), num(-1.0)), num(0.0));
    assert_eq!(raise(num(0.0), num(-0.0)), num(0.0));
    assert_eq!(raise(num(0.0), num(f64::NAN)), num(0.0));
}
