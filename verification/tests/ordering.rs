//! Comparison and equality: exponents first, mantissas on ties, and the
//! documented blind spot of the sign.

use std::cmp::Ordering;

use big_number::{BigNumber, Scalar};

fn from(digits: u64, exp10: i32) -> BigNumber {
    BigNumber::new_d(Scalar { negative: false, digits, exp10 })
}

fn from_neg(digits: u64, exp10: i32) -> BigNumber {
    BigNumber::new_d(Scalar { negative: true, digits, exp10 })
}

#[test]
fn exponents_order_first() {
    assert!(from(1, 5) < from(1, 6));
    assert!(from(9, 5) < from(1, 6));
    assert!(from(1, 6) > from(1, 5));
}

#[test]
fn mantissas_break_exponent_ties() {
    assert!(from(2, 0) < from(3, 0));
    assert!(from(456, 0) > from(123, 0));
}

#[test]
fn equal_values_compare_equal() {
    let a = from(5, 0);
    let b = from(5, 0);
    assert!(a == b);
    assert!(a <= b && a >= b);
    assert_eq!(a.partial_cmp(&b), Some(Ordering::Equal));
}

#[test]
fn equality_needs_the_sign_but_the_order_ignores_it() {
    let pos = from(5, 0);
    let neg = from_neg(5, 0);
    // the magnitude comparator ties them even though they differ in sign
    assert_eq!(pos.partial_cmp(&neg), Some(Ordering::Equal));
    assert!(pos != neg);
}

#[test]
fn equality_ignores_the_cached_text() {
    // one and the same magnitude written through different paths
    let parsed = BigNumber::new(big_number::Format::Haven(String::from("4560"))).unwrap();
    let built = from(4560, 0);
    assert!(parsed == built);
}

#[test]
fn max_and_min_follow_the_magnitude_order() {
    let small = from(1, 2);
    let large = from(1, 5);
    assert!(small.clone().max(large.clone()) == large);
    assert!(small.clone().min(large.clone()) == small);
    assert_eq!(small.cmp(&large), Ordering::Less);
}

#[test]
fn clamp_forces_into_the_range() {
    let low = from(1, 1);
    let high = from(1, 3);
    let below = from(5, 0);
    let inside = from(5, 1);
    let above = from(5, 3);
    assert!(below.clamp(low.clone(), high.clone()) == low);
    assert!(inside.clone().clamp(low.clone(), high.clone()) == inside);
    assert!(above.clamp(low, high.clone()) == high);
}
