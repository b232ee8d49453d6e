//! The operators: addition with alignment, cancellation and carry, and
//! multiplication with the cyclic decade correction.

use big_number::{BigNumber, Scalar};

fn scalar(negative: bool, digits: u64, exp10: i32) -> Scalar {
    Scalar { negative, digits, exp10 }
}

fn from(digits: u64, exp10: i32) -> BigNumber {
    BigNumber::new_d(scalar(false, digits, exp10))
}

fn from_neg(digits: u64, exp10: i32) -> BigNumber {
    BigNumber::new_d(scalar(true, digits, exp10))
}

#[test]
fn adding_zero_is_the_identity() {
    let a = from(456, 0);
    let sum = a.clone().add(BigNumber::new_d(scalar(false, 0, 0)));
    assert!(sum == a);
    let b = from_neg(37, -1);
    let sum2 = b.clone().add_scalar(scalar(false, 0, 0));
    assert!(sum2 == b);
    let sum3 = BigNumber::new_d(scalar(false, 0, 0)).add(a.clone());
    assert!(sum3 == a);
}

#[test]
fn addition_carries_across_a_decade() {
    let five = from(5, 0);
    let sum = five.clone().add(five);
    assert!(sum == from(1, 1));
    assert_eq!(sum.get_value(), "10");
    assert_eq!(sum.exponent(), 1);
}

#[test]
fn addition_aligns_different_decades() {
    let sum = from(1, 2).add(from(5, 0));
    assert!(sum == from(105, 0));
    assert_eq!(sum.get_value(), "105");
}

#[test]
fn addition_is_commutative_for_same_sign_operands() {
    let a = from(456, 0);
    let b = from(75, -1);
    assert!(a.clone().add(b.clone()) == b.clone().add(a.clone()));
    // widely different magnitudes: the small operand vanishes either way
    let big = from(1, 9);
    let one = from(1, 0);
    assert!(big.clone().add(one.clone()) == one.add(big));
}

#[test]
fn far_smaller_operand_is_absorbed() {
    let sum = from(1, 9).add(from(1, 0));
    assert!(sum == from(1, 9));
}

#[test]
fn exact_cancellation_bounces_to_zero() {
    let sum = from(5, 0).add(from_neg(5, 0));
    assert!(sum == BigNumber::new_d(scalar(false, 0, 0)));
    assert_eq!(sum.get_value(), "0.0");
}

#[test]
fn partial_cancellation_rederives_the_decade() {
    let sum = from(100, 0).add(from_neg(99, 0));
    assert_eq!(sum.exponent(), 0);
    assert_eq!(sum.base_in_units(), 1_000_000);
    assert!(sum.is_positive());
    assert!(sum == from(1, 0));
}

#[test]
fn the_larger_magnitude_sets_the_sign() {
    let sum = from(3, 0).add(from_neg(7, 0));
    assert!(!sum.is_positive());
    assert_eq!(sum.base_in_units(), 4_000_000);
    assert_eq!(sum.exponent(), 0);
    let sum2 = from_neg(3, 0).add(from(7, 0));
    assert!(sum2.is_positive());
    assert_eq!(sum2.base_in_units(), 4_000_000);
}

#[test]
fn multiplying_by_one_is_the_identity_up_to_rounding() {
    let a = from(456, 0);
    let prod = a.clone().mul(from(1, 0));
    assert!(prod == a);
    let b = from(42, -4);
    let prod2 = b.clone().mul(from(1, 0));
    assert!(prod2 == b);
}

#[test]
fn small_product_stays_in_its_decade() {
    let prod = from(2, 0).mul(from(3, 0));
    assert!(prod == from(6, 0));
    assert_eq!(prod.get_value(), "6");
}

#[test]
fn haven_product_writes_the_raw_mantissa_verbatim() {
    // five times five: the product mantissa is written as "25" while the
    // stored exponent keeps the operands' sum — the cyclic correction
    // keyed off the raw product, exactly as the notation prescribes
    let prod = from(5, 0).mul(from(5, 0));
    assert_eq!(prod.get_value(), "25");
    assert_eq!(prod.exponent(), 0);
    assert_eq!(prod.base_in_units(), 2_500_000);
}

#[test]
fn scientific_product_bumps_the_exponent_on_a_decade_cross() {
    let half = from(5, -1);
    let prod = half.clone().mul(half);
    assert_eq!(prod.get_value(), "2.5x10^-1");
    assert_eq!(prod.exponent(), -1);
    assert_eq!(prod.base_in_units(), 2_500_000);
}

#[test]
fn signs_multiply() {
    let prod = from_neg(2, 0).mul(from(3, 0));
    assert!(!prod.is_positive());
    let prod2 = from_neg(2, 0).mul(from_neg(3, 0));
    assert!(prod2.is_positive());
}

#[test]
fn multiplying_by_zero_gives_the_dedicated_zero() {
    let prod = from(456, 0).mul(BigNumber::new_d(scalar(false, 0, 0)));
    assert_eq!(prod.get_value(), "0.0");
    assert_eq!(prod.base_in_units(), 0);
}

#[test]
fn scalar_operands_are_lifted_before_combining() {
    let a = from(1, 2);
    let sum = a.clone().add_scalar(scalar(false, 5, 0));
    assert!(sum == from(105, 0));
    let prod = a.mul_scalar(scalar(false, 2, 0));
    assert_eq!(prod.exponent(), 2);
    assert_eq!(prod.base_in_units(), 2_000_000);
}

#[test]
fn suffixed_values_multiply_through_their_text() {
    // 2K times 3: the Haven operand re-reads its multiplier from its text
    let prod = from(2, 3).mul(from(3, 0));
    assert_eq!(prod.exponent(), 3);
    assert_eq!(prod.base_in_units(), 6_000_000);
    assert_eq!(prod.get_value(), "6K");
}
