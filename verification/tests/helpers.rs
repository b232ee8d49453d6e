//! The small numeric helpers underneath the value model.

use big_number::arith::{
    bool_from_number, cyclic_wrap, exponential_modulo_ten, get_first_significant_figure,
    reverse_number, round_to_order, sign_from_bool,
};
use big_number::{BigNumber, BigVec2, Scalar};

#[test]
fn truthiness_of_signed_counts() {
    assert!(!bool_from_number(-1));
    assert!(!bool_from_number(0));
    assert!(bool_from_number(1));
    assert!(bool_from_number(-2));
    assert!(bool_from_number(7));
}

#[test]
fn signs_from_flags() {
    assert_eq!(sign_from_bool(true), 1);
    assert_eq!(sign_from_bool(false), -1);
}

#[test]
fn descending_run_lookup() {
    assert_eq!(reverse_number(1, 3, 1), 3);
    assert_eq!(reverse_number(1, 3, 2), 2);
    assert_eq!(reverse_number(1, 3, 3), 1);
    assert_eq!(reverse_number(1, 3, 0), 0);
    assert_eq!(reverse_number(1, 3, 4), 0);
    assert_eq!(reverse_number(1, 3, -5), 0);
}

#[test]
fn cyclic_wrap_promotes_zero_to_a_full_step() {
    assert_eq!(cyclic_wrap(3, 3), 3);
    assert_eq!(cyclic_wrap(3, 4), 1);
    assert_eq!(cyclic_wrap(3, 5), 2);
    assert_eq!(cyclic_wrap(-1, 0), -1);
}

#[test]
fn decade_offsets_fold_into_three() {
    assert_eq!(exponential_modulo_ten(2, 2), 0);
    assert_eq!(exponential_modulo_ten(3, 2), 1);
    assert_eq!(exponential_modulo_ten(4, 2), -1);
    assert_eq!(exponential_modulo_ten(1, 2), -1);
}

#[test]
fn first_significant_figure_normalizes_units() {
    assert_eq!(get_first_significant_figure(0), 0);
    assert_eq!(get_first_significant_figure(4_560_000), 4_560_000);
    assert_eq!(get_first_significant_figure(456_000_000), 4_560_000);
    assert_eq!(get_first_significant_figure(42), 4_200_000);
    assert_eq!(get_first_significant_figure(12_345_678_901), 1_234_567);
}

#[test]
fn rounding_keeps_two_fraction_digits() {
    assert_eq!(round_to_order(1_234_567), 1_230_000);
    assert_eq!(round_to_order(9_999_999), 9_990_000);
    assert_eq!(round_to_order(5_000_000), 5_000_000);
}

#[test]
fn vector_of_magnitudes_carries_both_axes() {
    let p = BigVec2 {
        x: BigNumber::new_d(Scalar { negative: false, digits: 1, exp10: 9 }),
        y: BigNumber::new_d(Scalar { negative: true, digits: 5, exp10: 0 }),
    };
    let q = p.clone();
    assert!(p.x == q.x);
    assert!(p.y == q.y);
    assert_eq!(q.x.get_value(), "1B");
}
