//! Reading a literal from bytes: one pass from left to right that finds where
//! each part stands, or finds that the bytes are no literal.

use crate::digits::is_digit;
use crate::literal::exponent_start;
use crate::literal::fraction_end;
use crate::literal::fraction_start;
use crate::literal::integer_end;
use crate::literal::integer_start;
use crate::literal::lemma_run_end;
use crate::literal::lemma_run_end_is;
use crate::literal::reads_as_literal;
use crate::literal::run_end;
use crate::whitespace::byte_text;
use vstd::prelude::*;

verus! {

/// The code of `+`.
pub const PLUS: u8 = 43;

/// The code of `-`.
pub const MINUS: u8 = 45;

/// The code of `.`.
pub const POINT: u8 = 46;

/// The code of `0`.
pub const ZERO: u8 = 48;

/// The code of `9`.
pub const NINE: u8 = 57;

/// The code of `E`.
pub const UPPER_E: u8 = 69;

/// The code of `e`.
pub const LOWER_E: u8 = 101;

/// Where the parts of a literal stand in its text: the integer digits, the
/// fraction digits and the exponent digits, each as a range of positions.
/// The exponent digits run to the end of the text.
pub struct Layout {
    pub integer_start: usize,
    pub integer_end: usize,
    pub fraction_start: usize,
    pub fraction_end: usize,
    /// Whether the exponent is written with a minus sign.
    pub exponent_negative: bool,
    /// Where the exponent digits start; the end of the text where the
    /// literal has no exponent.
    pub exponent_start: usize,
}

impl Layout {
    /// Whether the ranges lie in `t` in order and hold digits only.
    pub open spec fn fits(&self, t: Seq<char>) -> bool {
        &&& self.integer_start <= self.integer_end <= self.fraction_start <= self.fraction_end
            <= self.exponent_start <= t.len()
        &&& forall|k: int| self.integer_start <= k < self.integer_end ==> is_digit(#[trigger] t[k])
        &&& forall|k: int|
            self.fraction_start <= k < self.fraction_end ==> is_digit(#[trigger] t[k])
        &&& forall|k: int| self.exponent_start <= k < t.len() ==> is_digit(#[trigger] t[k])
    }

    /// Whether this is the layout of the literal `t`.
    pub open spec fn describes(&self, t: Seq<char>) -> bool {
        let m = fraction_end(t);
        &&& reads_as_literal(t)
        &&& self.integer_start == integer_start(t)
        &&& self.integer_end == integer_end(t)
        &&& self.fraction_start == fraction_start(t)
        &&& self.fraction_end == m
        &&& self.exponent_start == if m < t.len() {
            exponent_start(t)
        } else {
            t.len() as int
        }
        &&& self.exponent_negative == (m + 1 < t.len() && t[m + 1] == '-')
    }

    /// The layout of a literal fits its text.
    pub proof fn lemma_describes_fits(&self, t: Seq<char>)
        requires
            self.describes(t),
        ensures
            self.fits(t),
    {
        lemma_run_end(t, integer_start(t));
        lemma_run_end(t, fraction_start(t));
        if fraction_end(t) < t.len() {
            lemma_run_end(t, exponent_start(t));
        }
    }
}

/// Whether the byte `b` is the code of a decimal digit.
pub fn is_digit_byte(b: u8) -> (r: bool)
    ensures
        r == is_digit(b as char),
{
    ZERO <= b && b <= NINE
}

/// The end of the longest run of digits that starts at `from`.
pub fn digit_run_end(bytes: &[u8], from: usize) -> (to: usize)
    requires
        from <= bytes.len(),
    ensures
        to == run_end(byte_text(bytes@), from as int),
        from <= to <= bytes.len(),
{
    let ghost t = byte_text(bytes@);
    let n: usize = bytes.len();
    let mut to: usize = from;
    while to < n && is_digit_byte(bytes[to])
        invariant
            n == bytes.len(),
            t == byte_text(bytes@),
            from <= to <= n,
            forall|k: int| from <= k < to ==> is_digit(#[trigger] t[k]),
        ensures
            to == n || !is_digit(t[to as int]),
        decreases n - to,
    {
        assert(t[to as int] == bytes[to as int] as char);
        to = to + 1;
    }
    proof {
        lemma_run_end_is(t, from as int, to as int);
    }
    to
}

/// Reads `bytes` as a literal. Gives the layout of its parts, or `None` when
/// the bytes are no literal.
pub fn scan(bytes: &[u8]) -> (r: Option<Layout>)
    ensures
        r is Some == reads_as_literal(byte_text(bytes@)),
        r matches Some(layout) ==> layout.describes(byte_text(bytes@)),
{
    let ghost t = byte_text(bytes@);
    let n: usize = bytes.len();
    assert(forall|k: int| 0 <= k < n ==> #[trigger] t[k] == bytes[k] as char);
    let integer_start: usize = if n > 0 && (bytes[0] == PLUS || bytes[0] == MINUS) {
        1
    } else {
        0
    };
    let integer_end: usize = digit_run_end(bytes, integer_start);
    let fraction_start: usize = if integer_end < n && bytes[integer_end] == POINT {
        integer_end + 1
    } else {
        integer_end
    };
    let fraction_end: usize = digit_run_end(bytes, fraction_start);
    if (integer_end - integer_start) + (fraction_end - fraction_start) == 0 {
        return None;
    }
    if fraction_end == n {
        return Some(
            Layout {
                integer_start,
                integer_end,
                fraction_start,
                fraction_end,
                exponent_negative: false,
                exponent_start: n,
            },
        );
    }
    if bytes[fraction_end] != LOWER_E && bytes[fraction_end] != UPPER_E {
        return None;
    }
    let after_mark: usize = fraction_end + 1;
    let exponent_negative = after_mark < n && bytes[after_mark] == MINUS;
    let exponent_start: usize = if after_mark < n && (bytes[after_mark] == PLUS
        || bytes[after_mark] == MINUS) {
        after_mark + 1
    } else {
        after_mark
    };
    if exponent_start >= n {
        return None;
    }
    if digit_run_end(bytes, exponent_start) != n {
        return None;
    }
    Some(
        Layout {
            integer_start,
            integer_end,
            fraction_start,
            fraction_end,
            exponent_negative,
            exponent_start,
        },
    )
}

} // verus!
