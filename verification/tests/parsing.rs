//! Reading values back out of text: round trips, the notation analyzers,
//! and the classified failures.

use big_number::{AnalysisErrors, BigNumber, Format, Haven, Scalar, Scientific};

fn scalar(negative: bool, digits: u64, exp10: i32) -> Scalar {
    Scalar { negative, digits, exp10 }
}

fn from_haven(text: &str) -> Option<BigNumber> {
    BigNumber::new(Format::Haven(String::from(text)))
}

fn from_sci(text: &str) -> Option<BigNumber> {
    BigNumber::new(Format::Scientific(String::from(text)))
}

#[test]
fn round_trip_single_digit_decimal() {
    let v = BigNumber::new_d(scalar(false, 75, -1));
    let back = from_haven(&v.get_value()).unwrap();
    assert!(back == v);
    assert_eq!(back.get_value(), "7.5");
}

#[test]
fn round_trip_three_digit_value() {
    let v = BigNumber::new_d(scalar(false, 456, 0));
    let back = from_haven(&v.get_value()).unwrap();
    assert!(back == v);
    assert_eq!(back.get_value(), "456");
}

#[test]
fn round_trip_scientific_magnitude() {
    let v = BigNumber::new_d(scalar(false, 1, 27));
    let back = from_sci(&v.get_value()).unwrap();
    assert!(back == v);
    assert_eq!(back.get_value(), "1x10^27");
}

#[test]
fn long_plain_numeral_renormalizes_into_a_suffix() {
    let v = from_haven("4560").unwrap();
    assert_eq!(v.exponent(), 3);
    assert_eq!(v.base_in_units(), 4_560_000);
    assert_eq!(v.get_value(), "4.56K");
    assert!(v == BigNumber::new_d(scalar(false, 4560, 0)));
}

#[test]
fn suffixed_text_goes_through_the_table_wrap() {
    // the table wrap maps a one-digit numeral to exponent 3 * index + 1,
    // so "1K" lands one decade above a thousand
    let v = from_haven("1K").unwrap();
    assert_eq!(v.exponent(), 4);
    assert_eq!(v.get_value(), "10K");
    assert!(v != BigNumber::new_d(scalar(false, 1, 3)));
}

#[test]
fn zero_text_is_rejected() {
    assert!(from_haven("0.0").is_none());
    assert!(from_haven("0").is_none());
}

#[test]
fn malformed_text_yields_no_value() {
    assert!(from_haven("abcK").is_none());
    assert!(from_haven("12Q").is_none());
}

#[test]
fn sub_unit_text_is_rejected_without_suffix() {
    assert!(from_haven("0.5").is_none());
}

#[test]
fn garbage_numerals_are_rejected() {
    assert!(from_haven("4..2").is_none());
    assert!(from_haven("").is_none());
    assert!(from_haven(".5").is_none());
    assert!(from_sci("x10^").is_none());
}

#[test]
fn haven_analyzer_classifies_errors() {
    assert_eq!(Haven::get_exponent(String::from("12Q")), Err(AnalysisErrors::InvalidSuffix));
    assert_eq!(Haven::get_exponent(String::from("0.5")), Err(AnalysisErrors::InvalidPrefix));
    assert_eq!(Haven::get_exponent(String::from("..2K")), Err(AnalysisErrors::InvalidPrefix));
    assert_eq!(Haven::get_exponent(String::from("456")), Ok(2));
    assert_eq!(Haven::get_exponent(String::from("1K")), Ok(4));
}

#[test]
fn scientific_analyzer_classifies_errors() {
    assert_eq!(
        Scientific::get_exponent(String::from("4.2x10^")),
        Err(AnalysisErrors::InvalidExponent)
    );
    assert_eq!(
        Scientific::get_exponent(String::from("1x10^99999999999")),
        Err(AnalysisErrors::InvalidExponent)
    );
    assert_eq!(Scientific::get_exponent(String::from("4.2x10^7")), Ok(7));
    // only the trailing digit run is read, so a negative exponent loses
    // its sign at the text level
    assert_eq!(Scientific::get_exponent(String::from("4.2x10^-3")), Ok(3));
}

#[test]
fn multiplier_reads_the_leading_numeral_run() {
    assert_eq!(Haven::get_multiplier(String::from("4.2K"), 3), Ok(4_200_000));
    assert_eq!(Haven::get_multiplier(String::from("456"), 2), Ok(456_000_000));
    assert_eq!(
        Haven::get_multiplier(String::from("xyz"), 0),
        Err(AnalysisErrors::InvalidPrefix)
    );
    // a numeral of a thousand or more is renormalized cyclically
    assert_eq!(Haven::get_multiplier(String::from("4560"), 3), Ok(4_560_000_000));
    // the cyclic correction can also shift below one
    assert_eq!(Haven::get_multiplier(String::from("4560"), -5), Ok(45_600));
    assert_eq!(Scientific::get_multiplier(String::from("4.2x10^7"), 7), Ok(4_200_000));
}
