use is_number::is_number;

#[test]
fn plain_integer_is_accepted() {
    assert!(is_number("42"));
}

#[test]
fn signed_fraction_with_exponent_and_whitespace_is_accepted() {
    assert!(is_number("  -3.14e2 "));
}

#[test]
fn empty_text_is_rejected() {
    assert!(!is_number(""));
}

#[test]
fn whitespace_alone_is_rejected() {
    assert!(!is_number("   "));
    assert!(!is_number("   \t\n"));
    assert!(!is_number(" \t\n\r\x0B\x0C"));
}

#[test]
fn interior_whitespace_is_rejected() {
    assert!(!is_number("1 2"));
    assert!(!is_number("- 1"));
    assert!(!is_number("1 e5"));
    assert!(!is_number("1e 5"));
    assert!(!is_number("1\t.5"));
}

#[test]
fn nan_is_rejected() {
    assert!(!is_number("NaN"));
    assert!(!is_number("nan"));
    assert!(!is_number("NAN"));
    assert!(!is_number("-nan"));
    assert!(!is_number("+NaN"));
}

#[test]
fn infinity_is_rejected() {
    assert!(!is_number("inf"));
    assert!(!is_number("Infinity"));
    assert!(!is_number("-inf"));
    assert!(!is_number("+infinity"));
    assert!(!is_number("INF"));
    assert!(!is_number("  inf  "));
}

#[test]
fn overflow_to_infinity_is_rejected() {
    assert!(!is_number("1e500"));
    assert!(!is_number("-1e500"));
    assert!(!is_number("1e309"));
    assert!(!is_number("2e308"));
}

#[test]
fn hex_octal_and_binary_prefixes_are_rejected() {
    assert!(!is_number("0x10"));
    assert!(!is_number("0X10"));
    assert!(!is_number("0o17"));
    assert!(!is_number("0b101"));
}

#[test]
fn digit_separators_are_rejected() {
    assert!(!is_number("1_000"));
    assert!(!is_number("1,000"));
    assert!(!is_number("1,5"));
}

#[test]
fn point_needs_a_digit_on_one_side() {
    assert!(is_number(".5"));
    assert!(is_number("5."));
    assert!(!is_number("."));
    assert!(!is_number("+."));
    assert!(!is_number("-."));
    assert!(!is_number(".e5"));
    assert!(is_number("5.e3"));
    assert!(is_number(".5e3"));
}

#[test]
fn zeros_are_accepted() {
    assert!(is_number("+0"));
    assert!(is_number("-0"));
    assert!(is_number("0"));
    assert!(is_number("0.0"));
    assert!(is_number("000"));
    assert!(is_number("0e0"));
    assert!(is_number("-0.000e-0"));
}

#[test]
fn exponent_forms_are_accepted() {
    assert!(is_number("1e10"));
    assert!(is_number("-1.5E-3"));
    assert!(is_number("1E+10"));
    assert!(is_number("1e0010"));
    assert!(is_number("1e308"));
    assert!(is_number("1e-400"));
}

#[test]
fn empty_exponent_is_rejected() {
    assert!(!is_number("1e"));
    assert!(!is_number("1e+"));
    assert!(!is_number("1e-"));
    assert!(!is_number("1E"));
    assert!(!is_number("e5"));
    assert!(!is_number("E5"));
    assert!(!is_number("1e5e5"));
    assert!(!is_number("1e5.5"));
    assert!(!is_number("1e++5"));
}

#[test]
fn misplaced_and_repeated_signs_are_rejected() {
    assert!(!is_number("+"));
    assert!(!is_number("-"));
    assert!(!is_number("++1"));
    assert!(!is_number("--1"));
    assert!(!is_number("+-1"));
    assert!(!is_number("1+"));
    assert!(!is_number("1-"));
    assert!(!is_number("1+2"));
    assert!(!is_number("1.-5"));
}

#[test]
fn stray_characters_are_rejected() {
    assert!(!is_number("abc"));
    assert!(!is_number("12a"));
    assert!(!is_number("a12"));
    assert!(!is_number("1.2.3"));
    assert!(!is_number("1..2"));
    assert!(!is_number("$1"));
    assert!(!is_number("1%"));
    assert!(!is_number("1\0"));
    assert!(!is_number("\01"));
}

#[test]
fn type_suffixes_are_rejected() {
    assert!(!is_number("1f64"));
    assert!(!is_number("1.0f32"));
    assert!(!is_number("1u8"));
    assert!(!is_number("1.5d"));
    assert!(!is_number("10L"));
}

#[test]
fn every_ascii_whitespace_is_trimmed() {
    assert!(is_number(" 7"));
    assert!(is_number("\t7"));
    assert!(is_number("\n7"));
    assert!(is_number("\r7"));
    assert!(is_number("\x0B7"));
    assert!(is_number("\x0C7"));
    assert!(is_number("7 "));
    assert!(is_number("7\t"));
    assert!(is_number("7\n"));
    assert!(is_number("7\r"));
    assert!(is_number("7\x0B"));
    assert!(is_number("7\x0C"));
    assert!(is_number(" \t\n\r\x0B\x0C7.5e1\x0C\x0B\r\n\t "));
}

#[test]
fn other_control_characters_are_not_trimmed() {
    assert!(!is_number("\x1F7"));
    assert!(!is_number("7\x1C"));
    assert!(!is_number("\x087"));
    assert!(!is_number("7\x0E"));
    assert!(!is_number("7\x7F"));
}

#[test]
fn whitespace_beyond_ascii_is_not_trimmed() {
    assert!(!is_number("\u{00A0}42"));
    assert!(!is_number("42\u{2003}"));
    assert!(!is_number("\u{0085}42"));
    assert!(!is_number("\u{3000}42\u{3000}"));
}

#[test]
fn characters_beyond_ascii_are_rejected() {
    assert!(!is_number("\u{0661}\u{0662}"));
    assert!(!is_number("\u{FF11}"));
    assert!(!is_number("1\u{00E9}"));
    assert!(!is_number("\u{2212}1"));
    assert!(!is_number("\u{221E}"));
    assert!(!is_number(" \u{1F600} "));
}

#[test]
fn underflow_stays_finite() {
    assert!(is_number("1e-400"));
    assert!(is_number("4.9e-324"));
    assert!(is_number("1e-99999999999999999999999999999999"));
    assert!(is_number("-0.0000000000000000000000000000000000000000001e-310"));
}

#[test]
fn huge_exponents_do_not_matter_for_zero() {
    assert!(is_number("0e99999999999999999999999999999999"));
    assert!(is_number("0.000e+340282366920938463463374607431768211456"));
    assert!(is_number("-.0E18446744073709551616"));
}

#[test]
fn huge_exponents_overflow_for_anything_else() {
    assert!(!is_number("1e99999999999999999999999999999999"));
    assert!(!is_number("0.000001e+340282366920938463463374607431768211456"));
    assert!(!is_number("1e18446744073709551616"));
    assert!(!is_number("1e18446744073709551925"));
    assert!(!is_number("1e1000000000000000000000"));
    assert!(!is_number("1e999999999999999999999"));
}

#[test]
fn leading_zeros_of_the_exponent_are_ignored() {
    assert!(is_number("1e0000000000000000000000000000000000308"));
    assert!(!is_number("1e0000000000000000000000000000000000309"));
    assert!(is_number("1e-0000000000000000000000000000000000309"));
}
