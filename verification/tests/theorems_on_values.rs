use is_number::is_number;

const TEXTS: [&str; 24] = [
    "42",
    "  -3.14e2 ",
    "",
    "   ",
    "1 2",
    "NaN",
    "1e500",
    "0x10",
    "1_000",
    ".5",
    "5.",
    ".",
    "\t\n7e-3\r",
    " inf ",
    "\x0B\x0C0.0\x0C\x0B",
    " + 1 ",
    "1e308",
    "1.8e308",
    "  1e",
    "e1  ",
    " \u{00A0}1",
    "0e999999999999999999999999",
    "\n\n.5E+2\n\n",
    "  12abc ",
];

fn trim_ascii_whitespace(text: &str) -> &str {
    text.trim_matches(|c: char| matches!(c, ' ' | '\t' | '\n' | '\x0B' | '\x0C' | '\r'))
}

#[test]
fn every_text_gets_an_answer() {
    let long = "9".repeat(100000);
    assert!(!is_number(&long));
    let long = format!("0.{}", "9".repeat(100000));
    assert!(is_number(&long));
    let long = format!("1e{}", "0".repeat(100000));
    assert!(is_number(&long));
    let long = format!("1e-{}", "9".repeat(100000));
    assert!(is_number(&long));
    let long = format!("{}1", " ".repeat(100000));
    assert!(is_number(&long));
    let long = "+-".repeat(50000);
    assert!(!is_number(&long));
    let long = ".".repeat(100000);
    assert!(!is_number(&long));
    let long = "e".repeat(100000);
    assert!(!is_number(&long));
    assert!(!is_number("\u{10FFFF}"));
    assert!(!is_number("\0"));
}

#[test]
fn trimming_changes_no_answer() {
    for text in TEXTS {
        assert_eq!(is_number(text), is_number(trim_ascii_whitespace(text)), "{:?}", text);
    }
}

#[test]
fn trimming_twice_is_trimming_once() {
    for text in TEXTS {
        let once = trim_ascii_whitespace(text);
        let padded = format!(" \t{}\n ", once);
        assert_eq!(is_number(&padded), is_number(once), "{:?}", text);
    }
}

#[test]
fn blank_texts_are_rejected() {
    assert!(!is_number(""));
    assert!(!is_number("   \t\n"));
    let mut len: usize = 0;
    while len < 64 {
        assert!(!is_number(&"\r".repeat(len)));
        assert!(!is_number(&" \x0B".repeat(len)));
        len += 1;
    }
}

#[test]
fn names_of_non_finite_values_are_rejected() {
    let words = ["inf", "infinity", "nan", "INF", "Infinity", "NaN", "iNfInItY", "nAN"];
    for word in words {
        assert!(!is_number(word), "{:?}", word);
        assert!(!is_number(&format!("+{}", word)), "{:?}", word);
        assert!(!is_number(&format!("-{}", word)), "{:?}", word);
        assert!(!is_number(&format!(" {}\n", word)), "{:?}", word);
    }
}

#[test]
fn literals_that_overflow_are_rejected() {
    let texts = ["1e309", "2e308", "1.8e308", "17976931348623159e292", "0.1e310", "1e400"];
    for text in texts {
        assert!(!is_number(text), "{:?}", text);
        assert!(!is_number(&format!("-{}", text)), "{:?}", text);
    }
}

#[test]
fn either_sign_may_stand_before_an_accepted_text() {
    for text in TEXTS {
        let trimmed = trim_ascii_whitespace(text);
        if is_number(text) && !trimmed.starts_with('+') && !trimmed.starts_with('-') {
            assert!(is_number(&format!("+{}", trimmed)), "{:?}", text);
            assert!(is_number(&format!("-{}", trimmed)), "{:?}", text);
            assert!(is_number(&format!(" +{} ", trimmed)), "{:?}", text);
        }
    }
}

#[test]
fn a_sign_before_untrimmed_whitespace_is_not_accepted() {
    assert!(is_number(" 1"));
    assert!(!is_number("+ 1"));
    assert!(!is_number("- 1"));
}
