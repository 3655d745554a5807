use wager_ledger::logarithm::{
    binary_logarithm, natural_logarithm, LN_2_Q32, ONE_Q32, ONE_Q62, TWO_Q62,
};

fn ratio(x: u128) -> f64 {
    x as f64 / ONE_Q62 as f64
}

#[test]
fn the_logarithm_of_one_is_nothing() {
    assert_eq!(binary_logarithm(ONE_Q62), 0);
    assert_eq!(natural_logarithm(ONE_Q62), 0);
}

#[test]
fn the_logarithm_of_a_power_of_two_is_exact() {
    let mut x = ONE_Q62;
    for n in 0..=65u128 {
        assert_eq!(binary_logarithm(x), n * ONE_Q32);
        assert_eq!(natural_logarithm(x), n * LN_2_Q32);
        x = x.wrapping_mul(2);
    }
    assert_eq!(binary_logarithm(TWO_Q62), ONE_Q32);
}

#[test]
fn the_integer_part_of_the_logarithm_is_exact() {
    assert_eq!(binary_logarithm(TWO_Q62 - 1) / ONE_Q32, 0);
    assert_eq!(binary_logarithm(2 * TWO_Q62 - 1) / ONE_Q32, 1);
    assert_eq!(binary_logarithm(2 * TWO_Q62) / ONE_Q32, 2);
    assert_eq!(binary_logarithm(u128::MAX) / ONE_Q32, 65);
    assert_eq!(binary_logarithm(u128::MAX), 66 * ONE_Q32 - 1);
}

#[test]
fn the_first_bits_of_the_fraction() {
    // The square root of two, rounded down and up: its logarithm is one half.
    let root: u128 = 6_521_908_912_666_391_106;
    assert!(root * root < 2 * ONE_Q62 * ONE_Q62);
    assert!((root + 1) * (root + 1) > 2 * ONE_Q62 * ONE_Q62);
    assert_eq!(binary_logarithm(root), ONE_Q32 / 2 - 1);
    assert_eq!(binary_logarithm(root + 1), ONE_Q32 / 2);
}

#[test]
fn the_binary_logarithm_is_within_two_units_below_the_true_one() {
    let mut x = ONE_Q62;
    let mut step: u128 = 1;
    while x < u128::MAX / 3 {
        let fixed = binary_logarithm(x) as f64;
        let exact = ratio(x).log2() * ONE_Q32 as f64;
        // The comparison itself is in floating point: allow it its own error.
        let slack = 1.0 + exact * 1e-15;
        assert!(fixed <= exact + slack, "{}", x);
        assert!(exact < fixed + 2.0 + slack, "{}", x);
        x += step;
        step = step * 3 / 2 + 12_345;
    }
}

#[test]
fn the_natural_logarithm_follows_the_true_one() {
    for (x, exact) in [
        (ONE_Q62 / 5 * 6, 1.2f64.ln()),
        (ONE_Q62 / 2 * 3, 1.5f64.ln()),
        (ONE_Q62 * 10, 10f64.ln()),
        (ONE_Q62 + 1, 0.0),
    ] {
        let fixed = natural_logarithm(x) as f64 / ONE_Q32 as f64;
        assert!((fixed - exact).abs() < 1e-9, "{} {} {}", x, fixed, exact);
        assert!(fixed <= exact);
    }
}

#[test]
fn logarithms_keep_the_order_of_their_arguments() {
    let mut last = 0;
    let mut x = ONE_Q62;
    for _ in 0..20_000 {
        let now = binary_logarithm(x);
        assert!(now >= last);
        last = now;
        x += 98_765_432_123_456;
    }
    let mut last = 0;
    for x in 0..3_000u128 {
        let now = natural_logarithm(TWO_Q62 - 1_500 + x);
        assert!(now >= last);
        last = now;
    }
}

#[test]
fn logarithms_stay_below_their_bounds() {
    assert!(binary_logarithm(u128::MAX) < 66 * ONE_Q32);
    assert!(natural_logarithm(u128::MAX) < 46 * ONE_Q32);
    assert_eq!(binary_logarithm(0), 0);
    assert_eq!(binary_logarithm(1), 0);
}
