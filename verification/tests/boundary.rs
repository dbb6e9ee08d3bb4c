use is_number::is_number;

/// `2^1024 - 2^970`: the least integer that rounds to infinity.
const THRESHOLD: &str = "179769313486231580793728971405303415079934132710037826936173778980444968292764750946649017977587207096330286416692887910946555547851940402630657488671505820681908902000708383676273854845817711531764475730270069855571366959622842914819860834936475292719074168444365510704342711559699508093042880177904174497792";

/// `2^1024 - 2^970 - 1`: the greatest integer that rounds to a finite value.
const BELOW_THRESHOLD: &str = "179769313486231580793728971405303415079934132710037826936173778980444968292764750946649017977587207096330286416692887910946555547851940402630657488671505820681908902000708383676273854845817711531764475730270069855571366959622842914819860834936475292719074168444365510704342711559699508093042880177904174497791";

/// `2^1024 - 2^971`: the greatest finite value.
const GREATEST_FINITE: &str = "179769313486231570814527423731704356798070567525844996598917476803157260780028538760589558632766878171540458953514382464234321326889464182768467546703537516986049910576551282076245490090389328944075868508455133942304583236903222948165808559332123348274797826204144723168738177180919299881250404026184124858368";

#[test]
fn the_greatest_finite_value_is_accepted() {
    assert!(is_number(GREATEST_FINITE));
    assert!(is_number("1.7976931348623157e308"));
    assert!(is_number("-1.7976931348623157e308"));
}

#[test]
fn the_threshold_itself_is_rejected() {
    assert!(!is_number(THRESHOLD));
    assert!(!is_number(&format!("-{}", THRESHOLD)));
    assert!(!is_number(&format!("+{}", THRESHOLD)));
    assert!(!is_number(&format!("  {}\n", THRESHOLD)));
}

#[test]
fn one_below_the_threshold_is_accepted() {
    assert!(is_number(BELOW_THRESHOLD));
    assert!(is_number(&format!("-{}", BELOW_THRESHOLD)));
}

#[test]
fn a_fraction_does_not_lift_a_number_over_the_threshold() {
    assert!(is_number(&format!("{}.9", BELOW_THRESHOLD)));
    assert!(is_number(&format!("{}.{}", BELOW_THRESHOLD, "9".repeat(1000))));
    assert!(is_number(&format!("{}.{}e0", BELOW_THRESHOLD, "9".repeat(40))));
}

#[test]
fn anything_from_the_threshold_on_is_rejected() {
    assert!(!is_number(&format!("{}.", THRESHOLD)));
    assert!(!is_number(&format!("{}.0", THRESHOLD)));
    assert!(!is_number(&format!("{}.{}", THRESHOLD, "0".repeat(1000))));
    assert!(!is_number(&format!("{}.{}1", THRESHOLD, "0".repeat(1000))));
    assert!(!is_number(&format!("{}e0", THRESHOLD)));
    assert!(!is_number(&format!("{}0e-1", THRESHOLD)));
}

#[test]
fn the_point_may_stand_anywhere() {
    let (head, tail) = THRESHOLD.split_at(1);
    assert!(!is_number(&format!("{}.{}e308", head, tail)));
    assert!(!is_number(&format!("0.{}e309", THRESHOLD)));
    assert!(!is_number(&format!("0.000{}e312", THRESHOLD)));
    assert!(!is_number(&format!("{}000e-3", THRESHOLD)));
    assert!(!is_number(&format!("{}000.000e-3", THRESHOLD)));
    let (head, tail) = BELOW_THRESHOLD.split_at(1);
    assert!(is_number(&format!("{}.{}e308", head, tail)));
    assert!(is_number(&format!("0.{}e309", BELOW_THRESHOLD)));
    assert!(is_number(&format!("0.000{}e312", BELOW_THRESHOLD)));
    assert!(is_number(&format!("{}000e-3", BELOW_THRESHOLD)));
    assert!(is_number(&format!("{}999.999e-3", BELOW_THRESHOLD)));
    assert!(is_number(&format!("{}.{}e308", head, tail.replace("1", "0"))));
}

#[test]
fn leading_zeros_do_not_count_as_digits() {
    assert!(is_number(&format!("{}{}", "0".repeat(500), BELOW_THRESHOLD)));
    assert!(!is_number(&format!("{}{}", "0".repeat(500), THRESHOLD)));
    assert!(is_number(&format!("{}1", "0".repeat(400))));
    assert!(is_number(&format!("0.{}1", "0".repeat(400))));
    assert!(is_number(&format!("0.{}1e708", "0".repeat(400))));
    assert!(!is_number(&format!("0.{}2e709", "0".repeat(400))));
    assert!(is_number(&format!("0.{}17e709", "0".repeat(400))));
    assert!(!is_number(&format!("0.{}18e709", "0".repeat(400))));
}

#[test]
fn short_digit_strings_near_the_threshold() {
    assert!(is_number("1e308"));
    assert!(is_number("1.7e308"));
    assert!(is_number("1.79e308"));
    assert!(is_number("1.797e308"));
    assert!(is_number("1.7976931348623158e308"));
    assert!(is_number("17976931348623158e292"));
    assert!(is_number("0.17976931348623158e309"));
    assert!(!is_number("1.7976931348623159e308"));
    assert!(!is_number("1.798e308"));
    assert!(!is_number("1.8e308"));
    assert!(!is_number("2e308"));
    assert!(!is_number("0.2e309"));
    assert!(!is_number("20e307"));
    assert!(is_number("179769313486231580793e288"));
    assert!(!is_number("179769313486231580794e288"));
    assert!(is_number("1797693134862315807937e287"));
    assert!(!is_number("1797693134862315807938e287"));
}

#[test]
fn a_prefix_of_the_threshold_lies_below_it() {
    let mut len: usize = 1;
    while len < THRESHOLD.len() {
        let prefix = &THRESHOLD[..len];
        let text = format!("{}e{}", prefix, THRESHOLD.len() - len);
        assert!(is_number(&text), "{}", text);
        len += 1;
    }
}

#[test]
fn raising_one_digit_of_the_threshold_overflows() {
    let digits: Vec<char> = THRESHOLD.chars().collect();
    let mut at: usize = 0;
    while at < digits.len() {
        if digits[at] != '9' {
            let mut raised: String = digits[..at].iter().collect();
            raised.push(((digits[at] as u8) + 1) as char);
            let text = format!("{}e{}", raised, digits.len() - at - 1);
            assert!(!is_number(&text), "{}", text);
        }
        at += 1;
    }
}

#[test]
fn lowering_one_digit_of_the_threshold_stays_finite() {
    let digits: Vec<char> = THRESHOLD.chars().collect();
    let mut at: usize = 0;
    while at < digits.len() {
        if digits[at] != '0' {
            let mut lowered: String = digits[..at].iter().collect();
            lowered.push(((digits[at] as u8) - 1) as char);
            let rest: String = digits[at + 1..].iter().map(|_| '9').collect();
            let text = format!("{}{}.999", lowered, rest);
            assert!(is_number(&text), "{}", text);
        }
        at += 1;
    }
}

#[test]
fn one_more_digit_than_the_threshold_overflows() {
    assert!(!is_number(&format!("1{}", "0".repeat(309))));
    assert!(is_number(&format!("1{}", "0".repeat(308))));
    assert!(is_number(&format!("9{}", "9".repeat(307))));
    assert!(!is_number(&format!("1{}.5", "0".repeat(309))));
    assert!(is_number(&format!("1{}e-1", "0".repeat(309))));
    assert!(is_number(&format!("1{}e-700", "0".repeat(1000))));
    assert!(!is_number(&format!("1{}e-691", "0".repeat(1000))));
    assert!(is_number(&format!("1{}e-692", "0".repeat(1000))));
}
