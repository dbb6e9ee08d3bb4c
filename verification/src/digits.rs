//! Strings of decimal digits and the natural numbers they write.

use vstd::prelude::*;

verus! {

/// Whether `c` is one of the ten ASCII decimal digits.
pub open spec fn is_digit(c: char) -> bool {
    '0' <= c && c <= '9'
}

/// The number that the digit `c` stands for.
pub open spec fn digit_value(c: char) -> nat
    recommends
        is_digit(c),
{
    (c as int - '0' as int) as nat
}

/// Whether every character of `s` is a decimal digit. The empty string qualifies.
pub open spec fn all_digits(s: Seq<char>) -> bool {
    forall|i: int| 0 <= i < s.len() ==> is_digit(#[trigger] s[i])
}

/// Whether every character of `s` is the digit zero.
pub open spec fn all_zeros(s: Seq<char>) -> bool {
    forall|i: int| 0 <= i < s.len() ==> #[trigger] s[i] == '0'
}

/// The natural number written by the digit string `s`, most significant digit
/// first. The empty string writes zero.
pub open spec fn decimal_value(s: Seq<char>) -> nat
    recommends
        all_digits(s),
    decreases s.len(),
{
    if s.len() == 0 {
        0
    } else {
        10 * decimal_value(s.drop_last()) + digit_value(s.last())
    }
}

/// Ten to the power `e`.
pub open spec fn pow10(e: nat) -> nat
    decreases e,
{
    if e == 0 {
        1
    } else {
        10 * pow10((e - 1) as nat)
    }
}

/// Powers of ten are positive.
pub proof fn lemma_pow10_positive(e: nat)
    ensures
        pow10(e) > 0,
    decreases e,
{
    if e > 0 {
        lemma_pow10_positive((e - 1) as nat);
    }
}

/// Exponents add where powers multiply.
pub proof fn lemma_pow10_adds(a: nat, b: nat)
    ensures
        pow10(a + b) == pow10(a) * pow10(b),
    decreases a,
{
    if a == 0 {
        assert(pow10(0) * pow10(b) == pow10(b)) by (nonlinear_arith)
            requires
                pow10(0) == 1,
        ;
    } else {
        let a1 = (a - 1) as nat;
        lemma_pow10_adds(a1, b);
        assert(pow10(a + b) == 10 * pow10(a1 + b));
        assert(10 * (pow10(a1) * pow10(b)) == (10 * pow10(a1)) * pow10(b)) by (nonlinear_arith);
    }
}

/// A larger exponent gives no smaller power.
pub proof fn lemma_pow10_increases(a: nat, b: nat)
    requires
        a <= b,
    ensures
        pow10(a) <= pow10(b),
    decreases b,
{
    if a < b {
        lemma_pow10_increases(a, (b - 1) as nat);
        lemma_pow10_positive((b - 1) as nat);
    }
}

/// Appending one digit multiplies by ten and adds the digit.
pub proof fn lemma_decimal_value_push(s: Seq<char>, c: char)
    ensures
        decimal_value(s.push(c)) == 10 * decimal_value(s) + digit_value(c),
{
    assert(s.push(c).drop_last() =~= s);
}

/// The value of a concatenation: the left part is shifted by the length of
/// the right part.
pub proof fn lemma_decimal_value_concat(a: Seq<char>, b: Seq<char>)
    ensures
        decimal_value(a + b) == decimal_value(a) * pow10(b.len()) + decimal_value(b),
    decreases b.len(),
{
    if b.len() == 0 {
        assert(a + b =~= a);
        assert(decimal_value(a) * pow10(0) == decimal_value(a)) by (nonlinear_arith)
            requires
                pow10(0) == 1,
        ;
    } else {
        let b1 = b.drop_last();
        lemma_decimal_value_concat(a, b1);
        assert((a + b).drop_last() =~= a + b1);
        assert((a + b).last() == b.last());
        let x = decimal_value(a);
        let p = pow10(b1.len());
        let y = decimal_value(b1);
        assert(pow10(b.len()) == 10 * p);
        assert(10 * (x * p + y) == x * (10 * p) + 10 * y) by (nonlinear_arith);
    }
}

/// A string of `n` digits writes a number below ten to the `n`.
pub proof fn lemma_decimal_value_upper(s: Seq<char>)
    requires
        all_digits(s),
    ensures
        decimal_value(s) < pow10(s.len()),
    decreases s.len(),
{
    if s.len() > 0 {
        let s1 = s.drop_last();
        assert forall|i: int| 0 <= i < s1.len() implies is_digit(#[trigger] s1[i]) by {
            assert(s1[i] == s[i]);
        }
        lemma_decimal_value_upper(s1);
        assert(is_digit(s[s.len() - 1]));
    }
}

/// A string of `n` digits that does not start with zero writes a number of
/// at least ten to the `n - 1`.
pub proof fn lemma_decimal_value_lower(s: Seq<char>)
    requires
        all_digits(s),
        s.len() > 0,
        s[0] != '0',
    ensures
        decimal_value(s) >= pow10((s.len() - 1) as nat),
{
    let head = s.take(1);
    let tail = s.skip(1);
    assert(s =~= head + tail);
    lemma_decimal_value_concat(head, tail);
    assert(head.drop_last() =~= Seq::<char>::empty());
    assert(head.last() == s[0]);
    assert(is_digit(s[0]));
    assert(decimal_value(head) >= 1);
    assert(decimal_value(head) * pow10(tail.len()) >= pow10(tail.len())) by (nonlinear_arith)
        requires
            decimal_value(head) >= 1,
    ;
}

/// A string of zeros writes zero.
pub proof fn lemma_decimal_value_zeros(s: Seq<char>)
    requires
        all_zeros(s),
    ensures
        decimal_value(s) == 0,
    decreases s.len(),
{
    if s.len() > 0 {
        let s1 = s.drop_last();
        assert forall|i: int| 0 <= i < s1.len() implies #[trigger] s1[i] == '0' by {
            assert(s1[i] == s[i]);
        }
        lemma_decimal_value_zeros(s1);
        assert(s[s.len() - 1] == '0');
    }
}

/// Leading zeros do not change the value.
pub proof fn lemma_decimal_value_skip_zeros(s: Seq<char>, z: int)
    requires
        0 <= z <= s.len(),
        all_zeros(s.take(z)),
    ensures
        decimal_value(s) == decimal_value(s.skip(z)),
{
    assert(s =~= s.take(z) + s.skip(z));
    lemma_decimal_value_concat(s.take(z), s.skip(z));
    lemma_decimal_value_zeros(s.take(z));
    assert(0 * pow10(s.skip(z).len()) == 0) by (nonlinear_arith);
}

/// Read as fractions `0.x` and `0.y`, `x` lies below `y` when the two agree up
/// to some place and `x` has the smaller digit there.
pub proof fn lemma_first_difference_decides(x: Seq<char>, y: Seq<char>, i: int)
    requires
        all_digits(x),
        all_digits(y),
        0 <= i < x.len(),
        i < y.len(),
        x.take(i) == y.take(i),
        digit_value(x[i]) < digit_value(y[i]),
    ensures
        decimal_value(x) * pow10(y.len()) < decimal_value(y) * pow10(x.len()),
{
    let xh = x.take(i + 1);
    let xt = x.skip(i + 1);
    let yh = y.take(i + 1);
    let yt = y.skip(i + 1);
    assert(x =~= xh + xt);
    assert(y =~= yh + yt);
    assert(xh =~= x.take(i).push(x[i]));
    assert(yh =~= y.take(i).push(y[i]));
    lemma_decimal_value_push(x.take(i), x[i]);
    lemma_decimal_value_push(y.take(i), y[i]);
    lemma_decimal_value_concat(xh, xt);
    lemma_decimal_value_concat(yh, yt);
    assert forall|k: int| 0 <= k < xt.len() implies is_digit(#[trigger] xt[k]) by {
        assert(xt[k] == x[k + i + 1]);
    }
    lemma_decimal_value_upper(xt);
    let a = decimal_value(xh);
    let b = decimal_value(yh);
    let p = pow10((i + 1) as nat);
    let px = pow10(xt.len());
    let py = pow10(yt.len());
    let vx = decimal_value(x);
    let vy = decimal_value(y);
    lemma_pow10_adds((i + 1) as nat, xt.len());
    lemma_pow10_adds((i + 1) as nat, yt.len());
    lemma_pow10_positive((i + 1) as nat);
    lemma_pow10_positive(xt.len());
    lemma_pow10_positive(yt.len());
    assert(a + 1 <= b);
    assert(vx < b * px) by (nonlinear_arith)
        requires
            vx < a * px + px,
            a + 1 <= b,
            px > 0,
    ;
    assert(vy >= b * py);
    assert(vx * (p * py) < (b * px) * (p * py)) by (nonlinear_arith)
        requires
            vx < b * px,
            p > 0,
            py > 0,
    ;
    assert((b * py) * (p * px) <= vy * (p * px)) by (nonlinear_arith)
        requires
            b * py <= vy,
            p > 0,
            px > 0,
    ;
    assert((b * px) * (p * py) == (b * py) * (p * px)) by (nonlinear_arith);
}

/// Read as fractions `0.x` and `0.y`, a prefix `x` of `y` is at most `y`, and
/// lies below it when the rest of `y` is not zero.
pub proof fn lemma_prefix_is_at_most(x: Seq<char>, y: Seq<char>)
    requires
        x.len() <= y.len(),
        y.take(x.len() as int) == x,
    ensures
        decimal_value(x) * pow10(y.len()) <= decimal_value(y) * pow10(x.len()),
        decimal_value(y.skip(x.len() as int)) > 0 ==> decimal_value(x) * pow10(y.len())
            < decimal_value(y) * pow10(x.len()),
{
    let t = y.skip(x.len() as int);
    assert(y =~= x + t);
    lemma_decimal_value_concat(x, t);
    lemma_pow10_adds(x.len(), t.len());
    lemma_pow10_positive(x.len());
    let vx = decimal_value(x);
    let vt = decimal_value(t);
    let px = pow10(x.len());
    let pt = pow10(t.len());
    assert((vx * pt + vt) * px == vx * (px * pt) + vt * px) by (nonlinear_arith);
    assert(vt * px >= 0) by (nonlinear_arith)
        requires
            vt >= 0,
            px >= 0,
    ;
    if vt > 0 {
        assert(vt * px > 0) by (nonlinear_arith)
            requires
                vt > 0,
                px > 0,
        ;
    }
}

} // verus!
