//! The grammar of decimal literals and the number that a literal writes.
//!
//! A literal is an optional sign, a significand with at least one digit
//! (`12`, `12.`, `12.5` or `.5`), and an optional exponent (`e` or `E`, an
//! optional sign, at least one digit).

use crate::digits::all_digits;
use crate::digits::decimal_value;
use crate::digits::is_digit;
use vstd::prelude::*;

verus! {

/// Whether `c` is a sign.
pub open spec fn is_sign(c: char) -> bool {
    c == '+' || c == '-'
}

/// Whether `c` opens an exponent.
pub open spec fn is_exponent_mark(c: char) -> bool {
    c == 'e' || c == 'E'
}

/// The text of an optional sign.
pub open spec fn sign_text(sign: Option<char>) -> Seq<char> {
    match sign {
        Some(c) => seq![c],
        None => Seq::empty(),
    }
}

/// The exponent part of a literal.
pub ghost struct Exponent {
    /// `e` or `E`.
    pub mark: char,
    /// `+` or `-`, where one is written.
    pub sign: Option<char>,
    /// The digits of the exponent, at least one.
    pub digits: Seq<char>,
}

/// A decimal literal, taken apart.
pub ghost struct Literal {
    /// `+` or `-`, where one is written.
    pub sign: Option<char>,
    /// The digits before the point.
    pub integer: Seq<char>,
    /// The digits after the point, where a point is written.
    pub fraction: Option<Seq<char>>,
    /// The exponent part, where one is written.
    pub exponent: Option<Exponent>,
}

impl Exponent {
    /// Whether the parts obey the grammar.
    pub open spec fn well_formed(self) -> bool {
        &&& is_exponent_mark(self.mark)
        &&& self.sign matches Some(c) ==> is_sign(c)
        &&& all_digits(self.digits)
        &&& self.digits.len() >= 1
    }

    /// The exponent part as it is written.
    pub open spec fn text(self) -> Seq<char> {
        seq![self.mark] + sign_text(self.sign) + self.digits
    }

    /// The integer that the exponent writes.
    pub open spec fn value(self) -> int {
        if self.sign == Some('-') {
            -(decimal_value(self.digits) as int)
        } else {
            decimal_value(self.digits) as int
        }
    }
}

impl Literal {
    /// The digits after the point; none where no point is written.
    pub open spec fn fraction_digits(self) -> Seq<char> {
        match self.fraction {
            Some(f) => f,
            None => Seq::empty(),
        }
    }

    /// Whether the parts obey the grammar.
    pub open spec fn well_formed(self) -> bool {
        &&& self.sign matches Some(c) ==> is_sign(c)
        &&& all_digits(self.integer)
        &&& all_digits(self.fraction_digits())
        &&& self.integer.len() + self.fraction_digits().len() >= 1
        &&& self.exponent matches Some(e) ==> e.well_formed()
    }

    /// The point and the digits behind it, where a point is written.
    pub open spec fn fraction_text(self) -> Seq<char> {
        match self.fraction {
            Some(f) => seq!['.'] + f,
            None => Seq::empty(),
        }
    }

    /// The exponent part as it is written, where there is one.
    pub open spec fn exponent_text(self) -> Seq<char> {
        match self.exponent {
            Some(e) => e.text(),
            None => Seq::empty(),
        }
    }

    /// The literal as it is written.
    pub open spec fn text(self) -> Seq<char> {
        sign_text(self.sign) + self.integer + self.fraction_text() + self.exponent_text()
    }

    /// All digits of the significand, the point left out.
    pub open spec fn digits(self) -> Seq<char> {
        self.integer + self.fraction_digits()
    }

    /// The significand read as a natural number, the point left out.
    pub open spec fn mantissa(self) -> nat {
        decimal_value(self.digits())
    }

    /// The integer that the exponent part writes; zero where there is none.
    pub open spec fn exponent_value(self) -> int {
        match self.exponent {
            Some(e) => e.value(),
            None => 0,
        }
    }

    /// The power of ten by which the mantissa is to be multiplied: the
    /// magnitude of the literal is `mantissa * 10^scale`.
    pub open spec fn scale(self) -> int {
        self.exponent_value() - self.fraction_digits().len()
    }
}

/// Whether `t` is a decimal literal.
pub open spec fn is_literal(t: Seq<char>) -> bool {
    exists|l: Literal| l.well_formed() && #[trigger] l.text() == t
}

// What follows reads a text from left to right and says where each part of a
// literal would have to stand in it.

/// The end of the longest run of digits of `t` that starts at `from`.
pub open spec fn run_end(t: Seq<char>, from: int) -> int
    decreases t.len() - from,
{
    if 0 <= from < t.len() && is_digit(t[from]) {
        run_end(t, from + 1)
    } else {
        from
    }
}

/// Where the integer digits start: behind the sign, if there is one.
pub open spec fn integer_start(t: Seq<char>) -> int {
    if t.len() > 0 && is_sign(t[0]) {
        1
    } else {
        0
    }
}

/// Where the integer digits end.
pub open spec fn integer_end(t: Seq<char>) -> int {
    run_end(t, integer_start(t))
}

/// Whether a point follows the integer digits.
pub open spec fn has_point(t: Seq<char>) -> bool {
    integer_end(t) < t.len() && t[integer_end(t)] == '.'
}

/// Where the fraction digits start: behind the point, if there is one.
pub open spec fn fraction_start(t: Seq<char>) -> int {
    if has_point(t) {
        integer_end(t) + 1
    } else {
        integer_end(t)
    }
}

/// Where the fraction digits end, and with them the significand.
pub open spec fn fraction_end(t: Seq<char>) -> int {
    run_end(t, fraction_start(t))
}

/// Where the exponent digits start, if the text goes on with an exponent
/// mark: behind the mark and the sign, if there is one.
pub open spec fn exponent_start(t: Seq<char>) -> int {
    let m = fraction_end(t);
    if m + 1 < t.len() && is_sign(t[m + 1]) {
        m + 2
    } else {
        m + 1
    }
}

/// Whether reading `t` from left to right finds a literal and nothing else.
pub open spec fn reads_as_literal(t: Seq<char>) -> bool {
    let m = fraction_end(t);
    &&& (integer_end(t) - integer_start(t)) + (m - fraction_start(t)) >= 1
    &&& m < t.len() ==> {
        &&& is_exponent_mark(t[m])
        &&& exponent_start(t) < t.len()
        &&& run_end(t, exponent_start(t)) == t.len()
    }
}

/// The parts that reading `t` from left to right finds.
pub open spec fn read_literal(t: Seq<char>) -> Literal {
    let m = fraction_end(t);
    Literal {
        sign: if integer_start(t) == 1 {
            Some(t[0])
        } else {
            None
        },
        integer: t.subrange(integer_start(t), integer_end(t)),
        fraction: if has_point(t) {
            Some(t.subrange(fraction_start(t), m))
        } else {
            None
        },
        exponent: if m < t.len() {
            Some(
                Exponent {
                    mark: t[m],
                    sign: if exponent_start(t) == m + 2 {
                        Some(t[m + 1])
                    } else {
                        None
                    },
                    digits: t.subrange(exponent_start(t), t.len() as int),
                },
            )
        } else {
            None
        },
    }
}

/// A run of digits ends where `run_end` says.
pub proof fn lemma_run_end(t: Seq<char>, from: int)
    requires
        0 <= from <= t.len(),
    ensures
        from <= run_end(t, from) <= t.len(),
        forall|k: int| from <= k < run_end(t, from) ==> is_digit(#[trigger] t[k]),
        run_end(t, from) < t.len() ==> !is_digit(t[run_end(t, from)]),
    decreases t.len() - from,
{
    if from < t.len() && is_digit(t[from]) {
        lemma_run_end(t, from + 1);
    }
}

/// A run of digits that is followed by no digit is the longest one.
pub proof fn lemma_run_end_is(t: Seq<char>, from: int, to: int)
    requires
        0 <= from <= to <= t.len(),
        forall|k: int| from <= k < to ==> is_digit(#[trigger] t[k]),
        to < t.len() ==> !is_digit(t[to]),
    ensures
        run_end(t, from) == to,
    decreases to - from,
{
    if from < to {
        assert(is_digit(t[from]));
        lemma_run_end_is(t, from + 1, to);
    }
}

/// Where the parts of a literal stand in its text.
proof fn lemma_text_layout(l: Literal)
    requires
        l.well_formed(),
    ensures
        ({
            let t = l.text();
            let a = sign_text(l.sign).len() as int;
            let b = a + l.integer.len();
            let c = b + l.fraction_text().len();
            &&& t.len() == c + l.exponent_text().len()
            &&& t.len() >= 1
            &&& l.sign matches Some(s) ==> t[0] == s
            &&& forall|k: int| a <= k < b ==> #[trigger] t[k] == l.integer[k - a]
            &&& l.fraction matches Some(f) ==> {
                &&& t[b] == '.'
                &&& c == b + 1 + f.len()
                &&& forall|k: int| b + 1 <= k < c ==> #[trigger] t[k] == f[k - b - 1]
            }
            &&& l.fraction is None ==> c == b
            &&& l.exponent is None ==> t.len() == c
            &&& l.exponent matches Some(e) ==> {
                let d = c + 1 + sign_text(e.sign).len();
                &&& t[c] == e.mark
                &&& e.sign matches Some(s) ==> t[c + 1] == s
                &&& t.len() == d + e.digits.len()
                &&& forall|k: int| d <= k < t.len() ==> #[trigger] t[k] == e.digits[k - d]
            }
        }),
{
}

/// Whether `c` can stand in a literal at all.
pub open spec fn is_literal_char(c: char) -> bool {
    is_digit(c) || is_sign(c) || c == '.' || is_exponent_mark(c)
}

/// A literal is not empty, and is made of digits, signs, the point and the
/// exponent mark alone.
pub proof fn lemma_text_chars(l: Literal)
    requires
        l.well_formed(),
    ensures
        l.text().len() >= 1,
        forall|k: int| 0 <= k < l.text().len() ==> is_literal_char(#[trigger] l.text()[k]),
{
    let t = l.text();
    let a = sign_text(l.sign).len() as int;
    let b = a + l.integer.len();
    let c = b + l.fraction_text().len();
    lemma_text_layout(l);
    assert forall|k: int| 0 <= k < t.len() implies is_literal_char(#[trigger] t[k]) by {
        if k < a {
        } else if k < b {
            assert(is_digit(l.integer[k - a]));
        } else if k < c {
            if k > b {
                assert(is_digit(l.fraction_digits()[k - b - 1]));
            }
        } else {
            let e = l.exponent->0;
            let d = c + 1 + sign_text(e.sign).len();
            if k >= d {
                assert(is_digit(e.digits[k - d]));
            }
        }
    }
}

/// A literal without a sign starts with a digit or the point.
pub proof fn lemma_unsigned_start(l: Literal)
    requires
        l.well_formed(),
    ensures
        l.text().len() >= 1,
        is_sign(l.text()[0]) <==> l.sign is Some,
{
    lemma_text_layout(l);
    let t = l.text();
    if l.sign is None {
        if l.integer.len() > 0 {
            assert(t[0] == l.integer[0]);
            assert(is_digit(l.integer[0]));
        } else {
            assert(l.fraction is Some);
            assert(t[0] == '.');
        }
    }
}

/// Reading the text of a well-formed literal finds its parts again.
pub proof fn lemma_read_finds_parts(l: Literal)
    requires
        l.well_formed(),
    ensures
        reads_as_literal(l.text()),
        read_literal(l.text()) == l,
{
    let t = l.text();
    let a = sign_text(l.sign).len() as int;
    let b = a + l.integer.len();
    let c = b + l.fraction_text().len();
    lemma_text_layout(l);
    // What stands first is the sign, a digit or the point.
    assert(integer_start(t) == a) by {
        if l.sign is None {
            if l.integer.len() > 0 {
                assert(t[0] == l.integer[0]);
                assert(is_digit(l.integer[0]));
            } else {
                assert(l.fraction is Some);
                assert(t[0] == '.');
            }
        }
    }
    // The integer digits end at the point, the exponent mark or the end.
    assert forall|k: int| a <= k < b implies is_digit(#[trigger] t[k]) by {
        assert(is_digit(l.integer[k - a]));
    }
    assert(b < t.len() ==> !is_digit(t[b])) by {
        if b < t.len() {
            if l.fraction is None {
                assert(l.exponent is Some);
                assert(is_exponent_mark(t[b]));
            }
        }
    }
    lemma_run_end_is(t, a, b);
    assert(has_point(t) == (l.fraction is Some)) by {
        if l.fraction is None && b < t.len() {
            assert(is_exponent_mark(t[b]));
        }
    }
    let fs = fraction_start(t);
    assert(fs == if l.fraction is Some { b + 1 } else { b });
    assert forall|k: int| fs <= k < c implies is_digit(#[trigger] t[k]) by {
        assert(is_digit(l.fraction_digits()[k - b - 1]));
    }
    assert(c < t.len() ==> !is_digit(t[c])) by {
        if c < t.len() {
            assert(is_exponent_mark(t[c]));
        }
    }
    lemma_run_end_is(t, fs, c);
    assert(fraction_end(t) == c);
    assert(t.subrange(a, b) =~= l.integer);
    match l.fraction {
        Some(f) => {
            assert(t.subrange(fs, c) =~= f);
        },
        None => {},
    }
    match l.exponent {
        Some(e) => {
            let d = c + 1 + sign_text(e.sign).len();
            assert(exponent_start(t) == d) by {
                if e.sign is None {
                    assert(t[c + 1] == e.digits[0]);
                    assert(is_digit(e.digits[0]));
                }
            }
            assert forall|k: int| d <= k < t.len() implies is_digit(#[trigger] t[k]) by {
                assert(is_digit(e.digits[k - d]));
            }
            lemma_run_end_is(t, d, t.len() as int);
            assert(t.subrange(d, t.len() as int) =~= e.digits);
            assert(read_literal(t).exponent == Some(e));
        },
        None => {},
    }
}

/// What reading finds is a well-formed literal with the text that was read.
pub proof fn lemma_read_is_sound(t: Seq<char>)
    requires
        reads_as_literal(t),
    ensures
        read_literal(t).well_formed(),
        read_literal(t).text() == t,
{
    let l = read_literal(t);
    let a = integer_start(t);
    let b = integer_end(t);
    let fs = fraction_start(t);
    let c = fraction_end(t);
    lemma_run_end(t, a);
    lemma_run_end(t, fs);
    assert(all_digits(l.integer)) by {
        assert forall|k: int| 0 <= k < l.integer.len() implies is_digit(
            #[trigger] l.integer[k],
        ) by {
            assert(l.integer[k] == t[k + a]);
        }
    }
    assert(all_digits(l.fraction_digits())) by {
        assert forall|k: int| 0 <= k < l.fraction_digits().len() implies is_digit(
            #[trigger] l.fraction_digits()[k],
        ) by {
            assert(l.fraction_digits()[k] == t[k + fs]);
        }
    }
    if !has_point(t) {
        assert(c == b);
    }
    if c < t.len() {
        let d = exponent_start(t);
        let e = l.exponent->0;
        lemma_run_end(t, d);
        assert(all_digits(e.digits)) by {
            assert forall|k: int| 0 <= k < e.digits.len() implies is_digit(
                #[trigger] e.digits[k],
            ) by {
                assert(e.digits[k] == t[k + d]);
            }
        }
        assert(e.well_formed());
    }
    assert(l.text() =~= t);
}

/// A text is a literal exactly when reading it from left to right finds one.
pub proof fn lemma_is_literal_iff_reads(t: Seq<char>)
    ensures
        is_literal(t) == reads_as_literal(t),
{
    if reads_as_literal(t) {
        lemma_read_is_sound(t);
        assert(read_literal(t).text() == t);
    }
    if is_literal(t) {
        let l = choose|l: Literal| l.well_formed() && #[trigger] l.text() == t;
        lemma_read_finds_parts(l);
    }
}

/// The grammar is unambiguous: a text is taken apart in one way only.
pub proof fn lemma_literal_is_unique(l1: Literal, l2: Literal)
    requires
        l1.well_formed(),
        l2.well_formed(),
        l1.text() == l2.text(),
    ensures
        l1 == l2,
{
    lemma_read_finds_parts(l1);
    lemma_read_finds_parts(l2);
}

} // verus!
