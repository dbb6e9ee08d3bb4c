//! What it is for a text to denote a finite number.

use crate::finite::rounds_to_finite;
use crate::literal::is_literal_char;
use crate::literal::lemma_is_literal_iff_reads;
use crate::literal::lemma_literal_is_unique;
use crate::literal::lemma_read_is_sound;
use crate::literal::lemma_text_chars;
use crate::literal::read_literal;
use crate::literal::reads_as_literal;
use crate::literal::Literal;
use crate::whitespace::lemma_trim_range_exists;
use crate::whitespace::trim;
use vstd::prelude::*;
use vstd::utf8::is_ascii_chars;

verus! {

/// Whether `s`, the whitespace at its ends set aside, is a decimal literal
/// whose magnitude is finite in binary64. The sign plays no part: the range
/// of binary64 is symmetric.
pub open spec fn denotes_finite_number(s: Seq<char>) -> bool {
    exists|l: Literal|
        l.well_formed() && #[trigger] l.text() == trim(s) && rounds_to_finite(
            l.mantissa(),
            l.scale(),
        )
}

/// Reading the trimmed text from left to right decides the question.
pub proof fn lemma_denotes_by_reading(s: Seq<char>)
    ensures
        denotes_finite_number(s) <==> reads_as_literal(trim(s)) && rounds_to_finite(
            read_literal(trim(s)).mantissa(),
            read_literal(trim(s)).scale(),
        ),
{
    let t = trim(s);
    let r = read_literal(t);
    lemma_is_literal_iff_reads(t);
    if reads_as_literal(t) {
        lemma_read_is_sound(t);
        if rounds_to_finite(r.mantissa(), r.scale()) {
            assert(r.well_formed() && r.text() == t);
        }
    }
    if denotes_finite_number(s) {
        let l = choose|l: Literal|
            l.well_formed() && #[trigger] l.text() == t && rounds_to_finite(
                l.mantissa(),
                l.scale(),
            );
        lemma_literal_is_unique(l, r);
    }
}

/// A text with a character outside ASCII denotes no number.
pub proof fn lemma_non_ascii_rejected(s: Seq<char>)
    requires
        !is_ascii_chars(s),
    ensures
        !denotes_finite_number(s),
{
    let i = choose|i: int| 0 <= i < s.len() && !('\0' <= #[trigger] s[i] <= '\u{7f}');
    let (from, to) = lemma_trim_range_exists(s);
    let t = trim(s);
    assert(from <= i < to);
    assert(t[i - from] == s[i]);
    if denotes_finite_number(s) {
        let l = choose|l: Literal|
            l.well_formed() && #[trigger] l.text() == t && rounds_to_finite(
                l.mantissa(),
                l.scale(),
            );
        lemma_text_chars(l);
        assert(is_literal_char(l.text()[i - from]));
    }
}

} // verus!
