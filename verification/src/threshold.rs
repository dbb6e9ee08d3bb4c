//! The least magnitude that rounds to infinity in binary64, and its decimal
//! digits.

use crate::digits::all_digits;
use crate::digits::decimal_value;
use crate::digits::digit_value;
use crate::digits::is_digit;
use crate::digits::lemma_decimal_value_push;
use vstd::arithmetic::power2::lemma2_to64;
use vstd::arithmetic::power2::lemma_pow2_adds;
use vstd::arithmetic::power2::pow2;
use vstd::prelude::*;

verus! {

/// Half way between the largest finite binary64 value, `2^1024 - 2^971`, and
/// `2^1024`. Rounding to nearest, ties to even, takes a magnitude to
/// infinity exactly when it is at least this number.
pub open spec fn overflow_threshold() -> nat {
    (pow2(1024) - pow2(970)) as nat
}

/// The number of decimal digits of the overflow threshold.
pub const THRESHOLD_LEN: usize = 309;

/// The decimal digits of the overflow threshold, most significant first.
pub const THRESHOLD_DIGITS: [u8; 309] = [
    1, 7, 9, 7, 6, 9, 3, 1, 3, 4, 8, 6, 2, 3, 1, 5, 8, 0, 7, 9, 3, 7, 2, 8, 9, 7, 1, 4, 0, 5,
    3, 0, 3, 4, 1, 5, 0, 7, 9, 9, 3, 4, 1, 3, 2, 7, 1, 0, 0, 3, 7, 8, 2, 6, 9, 3, 6, 1, 7, 3,
    7, 7, 8, 9, 8, 0, 4, 4, 4, 9, 6, 8, 2, 9, 2, 7, 6, 4, 7, 5, 0, 9, 4, 6, 6, 4, 9, 0, 1, 7,
    9, 7, 7, 5, 8, 7, 2, 0, 7, 0, 9, 6, 3, 3, 0, 2, 8, 6, 4, 1, 6, 6, 9, 2, 8, 8, 7, 9, 1, 0,
    9, 4, 6, 5, 5, 5, 5, 4, 7, 8, 5, 1, 9, 4, 0, 4, 0, 2, 6, 3, 0, 6, 5, 7, 4, 8, 8, 6, 7, 1,
    5, 0, 5, 8, 2, 0, 6, 8, 1, 9, 0, 8, 9, 0, 2, 0, 0, 0, 7, 0, 8, 3, 8, 3, 6, 7, 6, 2, 7, 3,
    8, 5, 4, 8, 4, 5, 8, 1, 7, 7, 1, 1, 5, 3, 1, 7, 6, 4, 4, 7, 5, 7, 3, 0, 2, 7, 0, 0, 6, 9,
    8, 5, 5, 5, 7, 1, 3, 6, 6, 9, 5, 9, 6, 2, 2, 8, 4, 2, 9, 1, 4, 8, 1, 9, 8, 6, 0, 8, 3, 4,
    9, 3, 6, 4, 7, 5, 2, 9, 2, 7, 1, 9, 0, 7, 4, 1, 6, 8, 4, 4, 4, 3, 6, 5, 5, 1, 0, 7, 0, 4,
    3, 4, 2, 7, 1, 1, 5, 5, 9, 6, 9, 9, 5, 0, 8, 0, 9, 3, 0, 4, 2, 8, 8, 0, 1, 7, 7, 9, 0, 4,
    1, 7, 4, 4, 9, 7, 7, 9, 2,
];

/// The overflow threshold written out as a string of digits.
pub open spec fn threshold_text() -> Seq<char> {
    Seq::new(309, |i: int| ((THRESHOLD_DIGITS@[i] + 48) as u8) as char)
}

/// The number written by the first `n` entries of the digit table.
spec fn leading_value(n: nat) -> nat
    decreases n,
{
    if n == 0 {
        0
    } else {
        10 * leading_value((n - 1) as nat) + THRESHOLD_DIGITS@[n - 1] as nat
    }
}

/// The overflow threshold in decimal.
proof fn lemma_pow2_1024_970()
    ensures
        overflow_threshold() == 179769313486231580793728971405303415079934132710037826936173778980444968292764750946649017977587207096330286416692887910946555547851940402630657488671505820681908902000708383676273854845817711531764475730270069855571366959622842914819860834936475292719074168444365510704342711559699508093042880177904174497792int,
{
    lemma2_to64();
    lemma_pow2_adds(64, 64);
    assert(pow2(128) == 340282366920938463463374607431768211456int) by (nonlinear_arith)
        requires
            pow2(128) == pow2(64) * pow2(64),
            pow2(64) == 18446744073709551616int,
    ;
    lemma_pow2_adds(128, 128);
    assert(pow2(256) == 115792089237316195423570985008687907853269984665640564039457584007913129639936int) by (nonlinear_arith)
        requires
            pow2(256) == pow2(128) * pow2(128),
            pow2(128) == 340282366920938463463374607431768211456int,
    ;
    lemma_pow2_adds(256, 256);
    assert(pow2(512) == 13407807929942597099574024998205846127479365820592393377723561443721764030073546976801874298166903427690031858186486050853753882811946569946433649006084096int) by (nonlinear_arith)
        requires
            pow2(512) == pow2(256) * pow2(256),
            pow2(256) == 115792089237316195423570985008687907853269984665640564039457584007913129639936int,
    ;
    lemma_pow2_adds(512, 512);
    assert(pow2(1024) == 179769313486231590772930519078902473361797697894230657273430081157732675805500963132708477322407536021120113879871393357658789768814416622492847430639474124377767893424865485276302219601246094119453082952085005768838150682342462881473913110540827237163350510684586298239947245938479716304835356329624224137216int) by (nonlinear_arith)
        requires
            pow2(1024) == pow2(512) * pow2(512),
            pow2(512) == 13407807929942597099574024998205846127479365820592393377723561443721764030073546976801874298166903427690031858186486050853753882811946569946433649006084096int,
    ;
    lemma_pow2_adds(512, 256);
    assert(pow2(768) == 1552518092300708935148979488462502555256886017116696611139052038026050952686376886330878408828646477950487730697131073206171580044114814391444287275041181139204454976020849905550265285631598444825262999193716468750892846853816057856int) by (nonlinear_arith)
        requires
            pow2(768) == pow2(512) * pow2(256),
            pow2(512) == 13407807929942597099574024998205846127479365820592393377723561443721764030073546976801874298166903427690031858186486050853753882811946569946433649006084096int,
            pow2(256) == 115792089237316195423570985008687907853269984665640564039457584007913129639936int,
    ;
    lemma_pow2_adds(768, 128);
    assert(pow2(896) == 528294531135665246352339784916516606518847326036121522127960709026673902556724859474417255887657187894674394993257128678882347559502685537250538978462939576908386683999005084168731517676426441053024232908211188404148028292751561738838396898767036476489538580897737998336int) by (nonlinear_arith)
        requires
            pow2(896) == pow2(768) * pow2(128),
            pow2(768) == 1552518092300708935148979488462502555256886017116696611139052038026050952686376886330878408828646477950487730697131073206171580044114814391444287275041181139204454976020849905550265285631598444825262999193716468750892846853816057856int,
            pow2(128) == 340282366920938463463374607431768211456int,
    ;
    lemma_pow2_adds(896, 64);
    assert(pow2(960) == 9745314011399999080353382387875188310876226857595007526867906457212948690766426102465615065882010259225304916231408668183459169865203094046577987296312653419531277699956473029870789655490053648352799593479218378873685597925394874945746363615468965612827738803104277547081828589991914110976int) by (nonlinear_arith)
        requires
            pow2(960) == pow2(896) * pow2(64),
            pow2(896) == 528294531135665246352339784916516606518847326036121522127960709026673902556724859474417255887657187894674394993257128678882347559502685537250538978462939576908386683999005084168731517676426441053024232908211188404148028292751561738838396898767036476489538580897737998336int,
            pow2(64) == 18446744073709551616int,
    ;
    lemma_pow2_adds(960, 10);
    assert(pow2(970) == 9979201547673599058281863565184192830337256302177287707512736212186059459344820328924789827463178505446712234220962476219862189941967968303695858991424157101600028364755428382587688607221814935913266783722719619966654052275604351944444276342240220787535604534378780208211792476151720049639424int) by (nonlinear_arith)
        requires
            pow2(970) == pow2(960) * pow2(10),
            pow2(960) == 9745314011399999080353382387875188310876226857595007526867906457212948690766426102465615065882010259225304916231408668183459169865203094046577987296312653419531277699956473029870789655490053648352799593479218378873685597925394874945746363615468965612827738803104277547081828589991914110976int,
            pow2(10) == 1024int,
    ;
}

/// The number written by the first 40 entries.
proof fn lemma_leading_value_40()
    ensures
        leading_value(40) == 1797693134862315807937289714053034150799int,
{
    reveal_with_fuel(leading_value, 41);
}

/// The number written by the first 80 entries.
proof fn lemma_leading_value_80()
    ensures
        leading_value(80) == 17976931348623158079372897140530341507993413271003782693617377898044496829276475int,
{
    lemma_leading_value_40();
    reveal_with_fuel(leading_value, 41);
}

/// The number written by the first 120 entries.
proof fn lemma_leading_value_120()
    ensures
        leading_value(120) == 179769313486231580793728971405303415079934132710037826936173778980444968292764750946649017977587207096330286416692887910int,
{
    lemma_leading_value_80();
    reveal_with_fuel(leading_value, 41);
}

/// The number written by the first 160 entries.
proof fn lemma_leading_value_160()
    ensures
        leading_value(160) == 1797693134862315807937289714053034150799341327100378269361737789804449682927647509466490179775872070963302864166928879109465555478519404026306574886715058206819int,
{
    lemma_leading_value_120();
    reveal_with_fuel(leading_value, 41);
}

/// The number written by the first 200 entries.
proof fn lemma_leading_value_200()
    ensures
        leading_value(200) == 17976931348623158079372897140530341507993413271003782693617377898044496829276475094664901797758720709633028641669288791094655554785194040263065748867150582068190890200070838367627385484581771153176447int,
{
    lemma_leading_value_160();
    reveal_with_fuel(leading_value, 41);
}

/// The number written by the first 240 entries.
proof fn lemma_leading_value_240()
    ensures
        leading_value(240) == 179769313486231580793728971405303415079934132710037826936173778980444968292764750946649017977587207096330286416692887910946555547851940402630657488671505820681908902000708383676273854845817711531764475730270069855571366959622842914819860834int,
{
    lemma_leading_value_200();
    reveal_with_fuel(leading_value, 41);
}

/// The number written by the first 280 entries.
proof fn lemma_leading_value_280()
    ensures
        leading_value(280) == 1797693134862315807937289714053034150799341327100378269361737789804449682927647509466490179775872070963302864166928879109465555478519404026306574886715058206819089020007083836762738548458177115317644757302700698555713669596228429148198608349364752927190741684443655107043427115596int,
{
    lemma_leading_value_240();
    reveal_with_fuel(leading_value, 41);
}

/// The number written by the first 309 entries.
proof fn lemma_leading_value_309()
    ensures
        leading_value(309) == 179769313486231580793728971405303415079934132710037826936173778980444968292764750946649017977587207096330286416692887910946555547851940402630657488671505820681908902000708383676273854845817711531764475730270069855571366959622842914819860834936475292719074168444365510704342711559699508093042880177904174497792int,
{
    lemma_leading_value_280();
    reveal_with_fuel(leading_value, 30);
}

/// Every entry of the digit table is a digit.
proof fn lemma_table_entries()
    ensures
        forall|i: int| 0 <= i < 309 ==> #[trigger] THRESHOLD_DIGITS@[i] < 10,
{
}

/// The first `n` entries of the table write what the first `n` characters of
/// the text write.
proof fn lemma_leading_value_is_prefix(n: nat)
    requires
        n <= 309,
    ensures
        decimal_value(threshold_text().take(n as int)) == leading_value(n),
    decreases n,
{
    lemma_table_entries();
    let t = threshold_text();
    if n > 0 {
        let m = (n - 1) as nat;
        lemma_leading_value_is_prefix(m);
        assert(t.take(n as int) =~= t.take(m as int).push(t[m as int]));
        lemma_decimal_value_push(t.take(m as int), t[m as int]);
        assert(THRESHOLD_DIGITS@[m as int] < 10);
        assert(digit_value(t[m as int]) == THRESHOLD_DIGITS@[m as int]);
    }
}

/// The digit table writes the overflow threshold: it has 309 digits, of which
/// the first and the last are not zero.
pub proof fn lemma_threshold_text()
    ensures
        threshold_text().len() == 309,
        all_digits(threshold_text()),
        decimal_value(threshold_text()) == overflow_threshold(),
        forall|i: int|
            0 <= i < 309 ==> digit_value(#[trigger] threshold_text()[i]) == THRESHOLD_DIGITS@[i],
        threshold_text()[0] != '0',
        threshold_text()[308] != '0',
{
    let t = threshold_text();
    lemma_table_entries();
    assert forall|i: int| 0 <= i < 309 implies digit_value(#[trigger] t[i])
        == THRESHOLD_DIGITS@[i] && is_digit(t[i]) by {
        assert(THRESHOLD_DIGITS@[i] < 10);
    }
    lemma_leading_value_is_prefix(309);
    assert(t.take(309) =~= t);
    lemma_leading_value_309();
    lemma_pow2_1024_970();
    assert(THRESHOLD_DIGITS@[0] == 1);
    assert(THRESHOLD_DIGITS@[308] == 2);
}

} // verus!
