//! Scalar post-processor behaviour.

use datagen::coerce::{coerce_bool, coerce_float_text, coerce_int};
use datagen::numbers::{i64_to_string, parse_i64};

#[test]
fn test_integer_extraction_scenario() {
    assert_eq!(coerce_int(" Value: -42 years old "), -42);
}

#[test]
fn test_integer_rounding() {
    assert_eq!(coerce_int("3.7"), 4);
    assert_eq!(coerce_int("3.4"), 3);
    assert_eq!(coerce_int("-3.5"), -4);
    assert_eq!(coerce_int("2.5"), 3);
}

#[test]
fn test_integer_malformed_degrades_to_zero() {
    assert_eq!(coerce_int("no numbers here"), 0);
    assert_eq!(coerce_int(""), 0);
    assert_eq!(coerce_int("--7"), 0);
    assert_eq!(coerce_int("1.2.3"), 0);
    assert_eq!(coerce_int("."), 0);
}

#[test]
fn test_integer_prefix_stops_at_first_break() {
    assert_eq!(coerce_int("width 800x600"), 800);
    assert_eq!(coerce_int("about 12 or 13"), 12);
}

#[test]
fn test_integer_saturates_out_of_range() {
    assert_eq!(coerce_int("99999999999999999999999999"), i64::MAX);
    assert_eq!(coerce_int("-99999999999999999999999999"), i64::MIN);
}

#[test]
fn test_float_text_normalization() {
    assert_eq!(coerce_float_text("3.14 apples"), "3.14");
    assert_eq!(coerce_float_text("003.500"), "3.5");
    assert_eq!(coerce_float_text(".5"), "0.5");
    assert_eq!(coerce_float_text("7."), "7");
    assert_eq!(coerce_float_text("+2.25"), "2.25");
    assert_eq!(coerce_float_text("-0.50"), "-0.5");
}

#[test]
fn test_float_malformed_degrades_to_zero() {
    assert_eq!(coerce_float_text("none"), "0");
    assert_eq!(coerce_float_text("..1"), "0");
}

#[test]
fn test_bool_parsing() {
    assert!(coerce_bool("true"));
    assert!(coerce_bool("  true\n"));
    assert!(!coerce_bool("false"));
    assert!(!coerce_bool("True"));
    assert!(!coerce_bool("yes"));
    assert!(!coerce_bool(""));
}

#[test]
fn test_decimal_rendering() {
    assert_eq!(i64_to_string(0), "0");
    assert_eq!(i64_to_string(42), "42");
    assert_eq!(i64_to_string(-42), "-42");
    assert_eq!(i64_to_string(i64::MAX), "9223372036854775807");
    assert_eq!(i64_to_string(i64::MIN), "-9223372036854775808");
}

#[test]
fn test_decimal_parsing() {
    let p = |s: &str| parse_i64(&s.chars().collect());
    assert_eq!(p("42"), Some(42));
    assert_eq!(p("-42"), Some(-42));
    assert_eq!(p("+7"), Some(7));
    assert_eq!(p("-9223372036854775808"), Some(i64::MIN));
    assert_eq!(p("9223372036854775807"), Some(i64::MAX));
    assert_eq!(p("9223372036854775808"), None);
    assert_eq!(p(""), None);
    assert_eq!(p("-"), None);
    assert_eq!(p("4 2"), None);
    assert_eq!(p("12a"), None);
}
