//! Whether the magnitude that a literal writes stays finite in binary64.
//!
//! The magnitude `mantissa * 10^scale` is held against the overflow
//! threshold without computing either: by the number of its digits where
//! that decides, and digit by digit against the digits of the threshold
//! where it does not.

use crate::digits::all_digits;
use crate::digits::all_zeros;
use crate::digits::decimal_value;
use crate::digits::digit_value;
use crate::digits::is_digit;
use crate::digits::lemma_decimal_value_lower;
use crate::digits::lemma_decimal_value_push;
use crate::digits::lemma_decimal_value_skip_zeros;
use crate::digits::lemma_decimal_value_upper;
use crate::digits::lemma_first_difference_decides;
use crate::digits::lemma_pow10_adds;
use crate::digits::lemma_pow10_increases;
use crate::digits::lemma_pow10_positive;
use crate::digits::lemma_prefix_is_at_most;
use crate::digits::pow10;
use crate::literal::integer_start;
use crate::literal::lemma_run_end;
use crate::literal::read_literal;
use crate::scan::Layout;
use crate::scan::ZERO;
use crate::threshold::lemma_threshold_text;
use crate::threshold::overflow_threshold;
use crate::threshold::threshold_text;
use crate::threshold::THRESHOLD_DIGITS;
use crate::threshold::THRESHOLD_LEN;
use crate::whitespace::byte_text;
use vstd::prelude::*;

verus! {

/// Whether the magnitude `mantissa * 10^scale`, rounded to the nearest
/// binary64 value, is finite: whether it lies below the overflow threshold.
/// Magnitudes too small for binary64 round to zero or to a subnormal value,
/// both finite.
pub open spec fn rounds_to_finite(mantissa: nat, scale: int) -> bool {
    if scale >= 0 {
        mantissa * pow10(scale as nat) < overflow_threshold()
    } else {
        mantissa < overflow_threshold() * pow10((-scale) as nat)
    }
}

/// Both sides of the comparison may be scaled by a common power of ten.
pub proof fn lemma_finite_scaled(mantissa: nat, scale: int, a: nat, b: nat)
    requires
        a - b == scale,
    ensures
        rounds_to_finite(mantissa, scale) <==> mantissa * pow10(a) < overflow_threshold() * pow10(
            b,
        ),
{
    let t = overflow_threshold();
    let pa = pow10(a);
    let pb = pow10(b);
    lemma_pow10_positive(a);
    lemma_pow10_positive(b);
    if scale >= 0 {
        let ps = pow10(scale as nat);
        lemma_pow10_adds(scale as nat, b);
        assert(mantissa * (ps * pb) == (mantissa * ps) * pb) by (nonlinear_arith);
        assert(((mantissa * ps) * pb < t * pb) <==> (mantissa * ps < t)) by (nonlinear_arith)
            requires
                pb > 0,
        ;
    } else {
        let ps = pow10((-scale) as nat);
        lemma_pow10_adds((-scale) as nat, a);
        assert(t * (ps * pa) == (t * ps) * pa) by (nonlinear_arith);
        assert((mantissa * pa < (t * ps) * pa) <==> (mantissa < t * ps)) by (nonlinear_arith)
            requires
                pa > 0,
        ;
    }
}

/// The threshold has 309 digits.
pub proof fn lemma_threshold_bounds()
    ensures
        pow10(308) <= overflow_threshold() < pow10(309),
{
    lemma_threshold_text();
    lemma_decimal_value_upper(threshold_text());
    lemma_decimal_value_lower(threshold_text());
}

/// Zero is finite at every scale.
pub proof fn lemma_zero_is_finite(scale: int)
    ensures
        rounds_to_finite(0, scale),
{
    lemma_threshold_bounds();
    lemma_pow10_positive(308);
    if scale >= 0 {
        assert(0 * pow10(scale as nat) == 0) by (nonlinear_arith);
    } else {
        lemma_pow10_positive((-scale) as nat);
        assert(overflow_threshold() * pow10((-scale) as nat) > 0) by (nonlinear_arith)
            requires
                overflow_threshold() > 0,
                pow10((-scale) as nat) > 0,
        ;
    }
}

/// A magnitude with at most 308 digits before the point is finite.
pub proof fn lemma_below_band(s: Seq<char>, scale: int)
    requires
        all_digits(s),
        s.len() + scale <= 308,
    ensures
        rounds_to_finite(decimal_value(s), scale),
{
    let v = decimal_value(s);
    let t = overflow_threshold();
    let b: nat = if scale < 0 {
        (-scale) as nat
    } else {
        0
    };
    let a: nat = (scale + b) as nat;
    lemma_finite_scaled(v, scale, a, b);
    lemma_decimal_value_upper(s);
    lemma_threshold_bounds();
    lemma_pow10_positive(a);
    lemma_pow10_positive(b);
    lemma_pow10_adds(s.len(), a);
    lemma_pow10_adds(308, b);
    lemma_pow10_increases(s.len() + a, 308 + b);
    let pm = pow10(s.len());
    let pa = pow10(a);
    let pb = pow10(b);
    assert(v * pa < pm * pa) by (nonlinear_arith)
        requires
            v < pm,
            pa > 0,
    ;
    assert(pow10(308) * pb <= t * pb) by (nonlinear_arith)
        requires
            pow10(308) <= t,
            pb > 0,
    ;
}

/// A magnitude with at least 310 digits before the point is not finite.
pub proof fn lemma_above_band(s: Seq<char>, scale: int)
    requires
        all_digits(s),
        s.len() >= 1,
        s[0] != '0',
        s.len() + scale >= 310,
    ensures
        !rounds_to_finite(decimal_value(s), scale),
{
    let v = decimal_value(s);
    let t = overflow_threshold();
    let b: nat = if scale < 0 {
        (-scale) as nat
    } else {
        0
    };
    let a: nat = (scale + b) as nat;
    let m1: nat = (s.len() - 1) as nat;
    lemma_finite_scaled(v, scale, a, b);
    lemma_decimal_value_lower(s);
    lemma_threshold_bounds();
    lemma_pow10_positive(a);
    lemma_pow10_positive(b);
    lemma_pow10_adds(m1, a);
    lemma_pow10_adds(309, b);
    lemma_pow10_increases(309 + b, m1 + a);
    let pm = pow10(m1);
    let pa = pow10(a);
    let pb = pow10(b);
    assert(pm * pa <= v * pa) by (nonlinear_arith)
        requires
            pm <= v,
            pa > 0,
    ;
    assert(t * pb < pow10(309) * pb) by (nonlinear_arith)
        requires
            t < pow10(309),
            pb > 0,
    ;
}

/// A magnitude with exactly 309 digits before the point is finite when its
/// digits, read as a fraction, lie below those of the threshold.
pub proof fn lemma_in_band(s: Seq<char>, scale: int)
    requires
        s.len() + scale == 309,
    ensures
        rounds_to_finite(decimal_value(s), scale) <==> decimal_value(s) * pow10(309)
            < overflow_threshold() * pow10(s.len()),
{
    lemma_finite_scaled(decimal_value(s), scale, 309, s.len());
}

/// No exponent is read beyond this magnitude. It is larger than any
/// difference between two lengths of text, so a literal whose exponent
/// reaches it is zero, rounds to zero or overflows, whatever its digits.
pub const EXPONENT_CAP: u128 = 1_000_000_000_000_000_000_000;

/// The number written by the digits of `bytes` from `from` on, or
/// `EXPONENT_CAP` if that is less.
pub fn capped_value(bytes: &[u8], from: usize) -> (e: u128)
    requires
        from <= bytes.len(),
        forall|k: int| from <= k < bytes.len() ==> is_digit(#[trigger] byte_text(bytes@)[k]),
    ensures
        e == if decimal_value(byte_text(bytes@).skip(from as int)) < EXPONENT_CAP {
            decimal_value(byte_text(bytes@).skip(from as int)) as int
        } else {
            EXPONENT_CAP as int
        },
{
    let ghost t = byte_text(bytes@);
    let n: usize = bytes.len();
    let mut e: u128 = 0;
    let mut i: usize = from;
    proof {
        assert(t.subrange(from as int, from as int) =~= Seq::<char>::empty());
    }
    while i < n
        invariant
            n == bytes.len(),
            t == byte_text(bytes@),
            from <= i <= n,
            forall|k: int| from <= k < n ==> is_digit(#[trigger] t[k]),
            e <= EXPONENT_CAP,
            e == if decimal_value(t.subrange(from as int, i as int)) < EXPONENT_CAP {
                decimal_value(t.subrange(from as int, i as int)) as int
            } else {
                EXPONENT_CAP as int
            },
        decreases n - i,
    {
        proof {
            let before = t.subrange(from as int, i as int);
            assert(t.subrange(from as int, i + 1) =~= before.push(t[i as int]));
            lemma_decimal_value_push(before, t[i as int]);
            assert(is_digit(t[i as int]));
            assert(t[i as int] == bytes[i as int] as char);
        }
        if e < EXPONENT_CAP {
            e = e * 10 + (bytes[i] - ZERO) as u128;
            if e > EXPONENT_CAP {
                e = EXPONENT_CAP;
            }
        }
        i = i + 1;
    }
    proof {
        assert(t.subrange(from as int, n as int) =~= t.skip(from as int));
    }
    e
}

/// The `k`-th digit of the significand, the point left out.
pub fn significand_digit(bytes: &[u8], layout: &Layout, k: usize) -> (d: u8)
    requires
        layout.fits(byte_text(bytes@)),
        k < (layout.integer_end - layout.integer_start) + (layout.fraction_end
            - layout.fraction_start),
    ensures
        d < 10,
        d == digit_value(significand(byte_text(bytes@), layout)[k as int]),
        is_digit(significand(byte_text(bytes@), layout)[k as int]),
{
    let ghost t = byte_text(bytes@);
    let integer_len: usize = layout.integer_end - layout.integer_start;
    let at: usize = if k < integer_len {
        layout.integer_start + k
    } else {
        layout.fraction_start + (k - integer_len)
    };
    assert(is_digit(t[at as int]));
    assert(t[at as int] == bytes[at as int] as char);
    bytes[at] - ZERO
}

/// The digits of the significand that `layout` marks in `t`.
pub open spec fn significand(t: Seq<char>, layout: &Layout) -> Seq<char> {
    t.subrange(layout.integer_start as int, layout.integer_end as int) + t.subrange(
        layout.fraction_start as int,
        layout.fraction_end as int,
    )
}

/// The exponent that `layout` marks in `t`; zero where the literal has none.
pub open spec fn exponent(t: Seq<char>, layout: &Layout) -> int {
    if layout.exponent_negative {
        -(decimal_value(t.skip(layout.exponent_start as int)) as int)
    } else {
        decimal_value(t.skip(layout.exponent_start as int)) as int
    }
}

/// The layout of a literal marks its digits and its exponent.
pub proof fn lemma_layout_marks_parts(t: Seq<char>, layout: &Layout)
    requires
        layout.describes(t),
    ensures
        read_literal(t).digits() == significand(t, layout),
        read_literal(t).fraction_digits().len() == layout.fraction_end - layout.fraction_start,
        read_literal(t).exponent_value() == exponent(t, layout),
{
    let l = read_literal(t);
    layout.lemma_describes_fits(t);
    lemma_run_end(t, integer_start(t));
    assert(l.fraction_digits() =~= t.subrange(
        layout.fraction_start as int,
        layout.fraction_end as int,
    ));
    if layout.fraction_end < t.len() {
        assert(t.skip(layout.exponent_start as int) =~= t.subrange(
            layout.exponent_start as int,
            t.len() as int,
        ));
    } else {
        assert(t.skip(layout.exponent_start as int) =~= Seq::<char>::empty());
    }
}

/// Whether the literal that `bytes` spell, with its parts where `layout`
/// says, writes a magnitude that is finite in binary64.
pub fn magnitude_is_finite(bytes: &[u8], layout: &Layout) -> (r: bool)
    requires
        layout.describes(byte_text(bytes@)),
    ensures
        r == rounds_to_finite(
            read_literal(byte_text(bytes@)).mantissa(),
            read_literal(byte_text(bytes@)).scale(),
        ),
{
    let ghost t = byte_text(bytes@);
    let ghost all = significand(t, layout);
    let ghost scale = read_literal(t).scale();
    proof {
        layout.lemma_describes_fits(t);
        lemma_layout_marks_parts(t, layout);
    }
    let fraction_len: usize = layout.fraction_end - layout.fraction_start;
    let count: usize = (layout.integer_end - layout.integer_start) + fraction_len;
    let mut zeros: usize = 0;
    while zeros < count && significand_digit(bytes, layout, zeros) == 0
        invariant
            t == byte_text(bytes@),
            all == significand(t, layout),
            layout.fits(t),
            count == all.len(),
            zeros <= count,
            forall|k: int| 0 <= k < zeros ==> #[trigger] all[k] == '0',
        ensures
            zeros < count ==> all[zeros as int] != '0',
        decreases count - zeros,
    {
        zeros = zeros + 1;
    }
    let ghost s = all.skip(zeros as int);
    proof {
        assert(all_zeros(all.take(zeros as int)));
        lemma_decimal_value_skip_zeros(all, zeros as int);
    }
    if zeros == count {
        proof {
            assert(s =~= Seq::<char>::empty());
            lemma_zero_is_finite(scale);
        }
        return true;
    }
    assert forall|k: int| 0 <= k < s.len() implies is_digit(#[trigger] s[k]) by {
        assert(s[k] == all[k + zeros]);
        if k + zeros < layout.integer_end - layout.integer_start {
            assert(all[k + zeros] == t[layout.integer_start + k + zeros]);
        } else {
            assert(all[k + zeros] == t[layout.fraction_start + (k + zeros - (layout.integer_end
                - layout.integer_start))]);
        }
    }
    let len: usize = count - zeros;
    let cap: u128 = capped_value(bytes, layout.exponent_start);
    // The number of digits that the magnitude has before the point, up to
    // the cap on the exponent.
    let places: i128 = if layout.exponent_negative {
        len as i128 - fraction_len as i128 - cap as i128
    } else {
        len as i128 - fraction_len as i128 + cap as i128
    };
    if places <= 308 {
        proof {
            lemma_below_band(s, scale);
        }
        return true;
    }
    if places >= 310 {
        proof {
            lemma_above_band(s, scale);
        }
        return false;
    }
    let ghost limit = threshold_text();
    proof {
        lemma_threshold_text();
        lemma_in_band(s, scale);
    }
    let shared: usize = if len < THRESHOLD_LEN {
        len
    } else {
        THRESHOLD_LEN
    };
    let mut k: usize = 0;
    while k < shared
        invariant
            t == byte_text(bytes@),
            all == significand(t, layout),
            layout.fits(t),
            count == all.len(),
            s == all.skip(zeros as int),
            len == s.len(),
            zeros + len == count,
            scale == read_literal(t).scale(),
            read_literal(t).mantissa() == decimal_value(all),
            limit == threshold_text(),
            limit.len() == 309,
            shared <= len,
            shared <= 309,
            k <= shared,
            all_digits(s),
            all_digits(limit),
            forall|i: int| 0 <= i < 309 ==> digit_value(#[trigger] limit[i]) == THRESHOLD_DIGITS@[i],
            forall|i: int| 0 <= i < k ==> #[trigger] s[i] == limit[i],
            rounds_to_finite(decimal_value(all), scale) <==> decimal_value(s) * pow10(309)
                < overflow_threshold() * pow10(s.len()),
            decimal_value(all) == decimal_value(s),
            decimal_value(limit) == overflow_threshold(),
        decreases shared - k,
    {
        let ours: u8 = significand_digit(bytes, layout, zeros + k);
        let theirs: u8 = THRESHOLD_DIGITS[k];
        proof {
            assert(s[k as int] == all[zeros + k]);
            assert(is_digit(limit[k as int]));
            assert(s.take(k as int) =~= limit.take(k as int));
        }
        if ours < theirs {
            proof {
                lemma_first_difference_decides(s, limit, k as int);
            }
            return true;
        }
        if ours > theirs {
            proof {
                lemma_first_difference_decides(limit, s, k as int);
            }
            return false;
        }
        k = k + 1;
    }
    if len < THRESHOLD_LEN {
        proof {
            assert(limit.take(len as int) =~= s);
            let rest = limit.skip(len as int);
            assert(rest.last() == limit[308]);
            assert(is_digit(limit[308]));
            lemma_prefix_is_at_most(s, limit);
        }
        true
    } else {
        proof {
            assert(s.take(309) =~= limit);
            lemma_prefix_is_at_most(limit, s);
        }
        false
    }
}

} // verus!
