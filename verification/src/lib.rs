//! Decides whether a piece of text denotes a finite real number: a decimal
//! literal, with optional whitespace around it, whose magnitude does not
//! round to infinity in binary64.

pub mod digits;
pub mod finite;
pub mod literal;
pub mod number;
pub mod scan;
pub mod theorems;
pub mod threshold;
pub mod whitespace;

use crate::finite::magnitude_is_finite;
use crate::number::denotes_finite_number;
use crate::number::lemma_denotes_by_reading;
use crate::number::lemma_non_ascii_rejected;
use crate::scan::scan;
use crate::whitespace::byte_text;
use crate::whitespace::trim_range;
use vstd::prelude::*;
use vstd::slice::slice_subrange;
use vstd::string::is_ascii_spec_bytes;

verus! {

/// Whether `value` denotes a finite number.
///
/// Whitespace at either end is set aside. What is left has to be a decimal
/// literal: an optional sign, digits with an optional point among them, an
/// optional exponent. Its magnitude has to stay finite when rounded to
/// binary64; one that rounds to zero does.
pub fn is_number(value: &str) -> (b: bool)
    ensures
        b == denotes_finite_number(value@),
{
    if !value.is_ascii() {
        proof {
            lemma_non_ascii_rejected(value@);
        }
        return false;
    }
    let bytes = value.as_bytes();
    proof {
        is_ascii_spec_bytes(value);
        assert(byte_text(bytes@) =~= value@);
    }
    let range = trim_range(bytes);
    let body = slice_subrange(bytes, range.0, range.1);
    proof {
        assert(byte_text(body@) =~= byte_text(bytes@).subrange(range.0 as int, range.1 as int));
        lemma_denotes_by_reading(value@);
    }
    match scan(body) {
        Some(layout) => magnitude_is_finite(body, &layout),
        None => false,
    }
}

} // verus!
