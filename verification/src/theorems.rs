//! What holds of every text: theorems about `denotes_finite_number`, which
//! is what `is_number` computes.

use crate::finite::rounds_to_finite;
use crate::literal::is_sign;
use crate::literal::lemma_literal_is_unique;
use crate::literal::lemma_text_chars;
use crate::literal::lemma_unsigned_start;
use crate::literal::reads_as_literal;
use crate::literal::Literal;
use crate::number::denotes_finite_number;
use crate::number::lemma_denotes_by_reading;
use crate::whitespace::is_space;
use crate::whitespace::is_trim_range;
use crate::whitespace::lemma_trim_idempotent;
use crate::whitespace::lemma_trim_is_subrange;
use crate::whitespace::lemma_trim_range_exists;
use crate::whitespace::trim;
use vstd::prelude::*;

verus! {

/// Whitespace at the ends plays no part: a text denotes a finite number
/// exactly when its trimmed form does.
pub proof fn lemma_trimming_changes_nothing(s: Seq<char>)
    ensures
        denotes_finite_number(trim(s)) == denotes_finite_number(s),
{
    lemma_trim_idempotent(s);
}

/// A text of whitespace alone, the empty text among them, denotes no number.
pub proof fn lemma_blank_rejected(s: Seq<char>)
    requires
        forall|i: int| 0 <= i < s.len() ==> is_space(#[trigger] s[i]),
    ensures
        !denotes_finite_number(s),
{
    let n = s.len() as int;
    assert(is_trim_range(s, n, n));
    lemma_trim_is_subrange(s, n, n);
    if denotes_finite_number(s) {
        let l = choose|l: Literal|
            l.well_formed() && #[trigger] l.text() == trim(s) && rounds_to_finite(
                l.mantissa(),
                l.scale(),
            );
        lemma_text_chars(l);
    }
}

/// A literal whose magnitude rounds to infinity denotes no finite number,
/// well-formed though it is.
pub proof fn lemma_overflow_rejected(s: Seq<char>, l: Literal)
    requires
        l.well_formed(),
        l.text() == trim(s),
        !rounds_to_finite(l.mantissa(), l.scale()),
    ensures
        !denotes_finite_number(s),
{
    if denotes_finite_number(s) {
        let other = choose|other: Literal|
            other.well_formed() && #[trigger] other.text() == trim(s) && rounds_to_finite(
                other.mantissa(),
                other.scale(),
            );
        lemma_literal_is_unique(l, other);
    }
}

/// The lower-case form of an ASCII letter; any other character itself.
pub open spec fn to_lower(c: char) -> char {
    if 'A' <= c && c <= 'Z' {
        ((c as u8) + 32) as char
    } else {
        c
    }
}

/// Whether `w` is `inf`, `infinity` or `nan`, in upper or lower case or a
/// mixture of the two.
pub open spec fn is_non_finite_word(w: Seq<char>) -> bool {
    let v = w.map_values(|c: char| to_lower(c));
    v == seq!['i', 'n', 'f'] || v == seq!['i', 'n', 'f', 'i', 'n', 'i', 't', 'y'] || v == seq![
        'n',
        'a',
        'n',
    ]
}

/// Whether `t` names an infinity or a NaN, with or without a sign.
pub open spec fn names_non_finite(t: Seq<char>) -> bool {
    is_non_finite_word(t) || (t.len() > 0 && is_sign(t[0]) && is_non_finite_word(t.skip(1)))
}

/// The names of the infinities and of NaN denote no finite number.
pub proof fn lemma_non_finite_name_rejected(s: Seq<char>)
    requires
        names_non_finite(trim(s)),
    ensures
        !denotes_finite_number(s),
{
    let t = trim(s);
    let w = if is_non_finite_word(t) {
        t
    } else {
        t.skip(1)
    };
    let v = w.map_values(|c: char| to_lower(c));
    assert(v.len() >= 3);
    assert(v[0] == to_lower(w[0]));
    assert(v[0] == 'i' || v[0] == 'n');
    assert(!reads_as_literal(t));
    lemma_denotes_by_reading(s);
}

/// The sign plays no part: where a text without a sign denotes a finite
/// number, so does its trimmed form behind either sign.
pub proof fn lemma_sign_symmetry(s: Seq<char>, sign: char)
    requires
        denotes_finite_number(s),
        !is_sign(trim(s)[0]),
        is_sign(sign),
    ensures
        denotes_finite_number(seq![sign] + trim(s)),
{
    let t = trim(s);
    let l = choose|l: Literal|
        l.well_formed() && #[trigger] l.text() == t && rounds_to_finite(l.mantissa(), l.scale());
    lemma_unsigned_start(l);
    let signed = Literal { sign: Some(sign), ..l };
    let u = seq![sign] + t;
    assert(signed.text() =~= u);
    assert(signed.digits() == l.digits());
    let (from, to) = lemma_trim_range_exists(s);
    assert(t[t.len() - 1] == s[to - 1]);
    assert(u[u.len() - 1] == t[t.len() - 1]);
    assert(is_trim_range(u, 0, u.len() as int));
    lemma_trim_is_subrange(u, 0, u.len() as int);
    assert(u.subrange(0, u.len() as int) =~= u);
    assert(signed.well_formed() && signed.text() == trim(u));
}

} // verus!
