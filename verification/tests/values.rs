//! Construction from scalars: signs, mantissas, exponents and the exact
//! canonical text each magnitude renders to.

use big_number::{BigNumber, Scalar};

fn scalar(negative: bool, digits: u64, exp10: i32) -> Scalar {
    Scalar { negative, digits, exp10 }
}

#[test]
fn zero_is_the_dedicated_representation() {
    let z = BigNumber::new_d(scalar(false, 0, 0));
    assert_eq!(z.get_value(), "0.0");
    assert_eq!(z.exponent(), 0);
    assert_eq!(z.base_in_units(), 0);
    assert!(z.is_positive());
    assert!(z.is_haven_format());
}

#[test]
fn unit_range_value_keeps_every_digit() {
    let v = BigNumber::new_d(scalar(false, 75, -1));
    assert_eq!(v.get_value(), "7.5");
    assert_eq!(v.exponent(), 0);
    assert_eq!(v.base_in_units(), 7_500_000);
    assert!(v.is_positive());
    assert!(v.is_haven_format());
}

#[test]
fn negative_scalar_keeps_its_sign() {
    let v = BigNumber::new_d(scalar(true, 37, -1));
    assert_eq!(v.get_value(), "3.7");
    assert!(!v.is_positive());
}

#[test]
fn three_digit_value_normalizes() {
    let v = BigNumber::new_d(scalar(false, 456, 0));
    assert_eq!(v.get_value(), "456");
    assert_eq!(v.exponent(), 2);
    assert_eq!(v.base_in_units(), 4_560_000);
}

#[test]
fn thousand_renders_with_first_suffix() {
    let v = BigNumber::new_d(scalar(false, 1, 3));
    assert_eq!(v.get_value(), "1K");
    assert_eq!(v.exponent(), 3);
    assert_eq!(v.base_in_units(), 1_000_000);
    assert!(v.is_haven_format());
}

#[test]
fn just_below_thousand_has_no_suffix() {
    let v = BigNumber::new_d(scalar(false, 999, 0));
    assert_eq!(v.get_value(), "999");
    assert_eq!(v.exponent(), 2);
}

#[test]
fn sub_unit_goes_scientific_with_negative_exponent() {
    let v = BigNumber::new_d(scalar(false, 42, -4));
    assert_eq!(v.get_value(), "4.2x10^-3");
    assert_eq!(v.exponent(), -3);
    assert_eq!(v.base_in_units(), 4_200_000);
    assert!(!v.is_haven_format());
}

#[test]
fn suffix_boundaries_render_each_table_step() {
    let million = BigNumber::new_d(scalar(false, 1, 6));
    assert_eq!(million.get_value(), "1M");
    let billion = BigNumber::new_d(scalar(false, 1, 9));
    assert_eq!(billion.get_value(), "1B");
    let top = BigNumber::new_d(scalar(false, 1, 24));
    assert_eq!(top.get_value(), "1SP");
}

#[test]
fn beyond_table_ceiling_forces_scientific() {
    let v = BigNumber::new_d(scalar(false, 1, 27));
    assert_eq!(v.get_value(), "1x10^27");
    assert_eq!(v.exponent(), 27);
    assert!(!v.is_haven_format());
}

#[test]
fn long_mantissa_truncates_to_seven_significant_digits() {
    let v = BigNumber::new_d(scalar(false, 123456789, 0));
    assert_eq!(v.exponent(), 8);
    assert_eq!(v.base_in_units(), 1_234_567);
    assert_eq!(v.get_value(), "123.4567M");
}

#[test]
fn default_is_the_canonical_one() {
    let v = BigNumber::default();
    assert_eq!(v.get_value(), "1");
    assert_eq!(v.exponent(), 0);
    assert_eq!(v.base_in_units(), 1_000_000);
    assert!(v.is_positive());
}

#[test]
fn rescale_moves_across_suffixes() {
    let mut v = BigNumber::new_d(scalar(false, 1, 0));
    assert_eq!(v.increase_power(3, false), Some(true));
    assert_eq!(v.get_value(), "1K");
    assert_eq!(v.exponent(), 3);
    assert_eq!(v.decrease_power(3), Some(true));
    assert_eq!(v.get_value(), "1");
    assert_eq!(v.exponent(), 0);
}

#[test]
fn rescale_past_ceiling_switches_to_scientific_for_good() {
    let mut v = BigNumber::new_d(scalar(false, 1, 0));
    v.increase_power(25, false);
    assert_eq!(v.get_value(), "1x10^25");
    assert!(!v.is_haven_format());
    // the switch is irreversible: coming back down stays scientific
    v.decrease_power(25);
    assert_eq!(v.get_value(), "1x10^0");
    assert!(!v.is_haven_format());
}

#[test]
fn bounce_rescale_flips_a_negative_exponent() {
    let mut v = BigNumber::new_d(scalar(false, 1, 0));
    v.increase_power(-5, true);
    assert_eq!(v.exponent(), 5);
    assert_eq!(v.get_value(), "1x10^5");
    assert!(!v.is_haven_format());
}

#[test]
fn rescale_of_zero_keeps_zero() {
    let mut z = BigNumber::new_d(scalar(false, 0, 0));
    assert_eq!(z.increase_power(7, false), Some(true));
    assert_eq!(z.get_value(), "0.0");
    assert_eq!(z.exponent(), 0);
}

#[test]
fn rescale_below_zero_without_bounce_stays_haven() {
    let mut v = BigNumber::new_d(scalar(false, 5, 0));
    v.increase_power(-1, false);
    assert_eq!(v.exponent(), -1);
    assert!(v.is_haven_format());
    assert_eq!(v.get_value(), "0.5");
}
