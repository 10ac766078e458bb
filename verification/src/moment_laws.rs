//! What moments with fractions of a second read as.
use vstd::arithmetic::div_mod::{
    lemma_div_denominator, lemma_div_multiples_vanish, lemma_fundamental_div_mod,
    lemma_fundamental_div_mod_converse,
};
use vstd::arithmetic::power::lemma_pow_adds;
use vstd::prelude::*;

use crate::text_rules::law_powers_of_ten;
use crate::value_text::{
    datetime64_rfc3339, datetime64_text, datetime_rfc3339, local_text, padded_text, pow10,
    rfc3339_text, zone_offset,
};

verus! {

proof fn lemma_pow10_sum(a: nat, b: nat)
    ensures
        pow10(a + b) == pow10(a) * pow10(b),
        pow10(a) > 0,
        pow10(b) > 0,
{
    law_powers_of_ten(a);
    law_powers_of_ten(b);
    law_powers_of_ten(a + b);
    lemma_pow_adds(10, a, b);
    vstd::arithmetic::power::lemma_pow_positive(10, a);
    vstd::arithmetic::power::lemma_pow_positive(10, b);
}

/// A moment that counts `p` digits of a second reads with `scale` of them: zeros come behind them
/// where more are asked for, and the last ones are cut off where fewer are.
pub proof fn law_moments_with_other_digits(
    tz: chrono_tz::Tz,
    ticks: u64,
    p: nat,
    scale: nat,
    s: Seq<char>,
)
    requires
        p <= 9,
        0 < scale <= 9,
        ticks as nat / pow10(p) <= i64::MAX,
        local_text(tz, (ticks as nat / pow10(p)) as int) == Some(s),
    ensures
        ({
            let fraction = ticks as nat % pow10(p);
            let shown: nat = if scale >= p {
                fraction * pow10((scale - p) as nat)
            } else {
                fraction / pow10((p - scale) as nat)
            };
            datetime64_text(tz, ticks, p, scale) == Some(s + seq!['.'] + padded_text(shown, scale))
        }),
{
    let r = ticks as nat % pow10(p);
    let wide = pow10((9 - p) as nat);
    let cut = pow10((9 - scale) as nat);
    assert(pow10(0) == 1);
    if scale >= p {
        let more = pow10((scale - p) as nat);
        lemma_pow10_sum((scale - p) as nat, (9 - scale) as nat);
        assert(scale - p + (9 - scale) == 9 - p);
        assert(wide == more * cut);
        assert(r * wide == cut * (r * more)) by (nonlinear_arith)
            requires
                wide == more * cut,
        ;
        lemma_div_multiples_vanish((r * more) as int, cut as int);
        assert((r * wide) / cut == r * more);
    } else {
        let fewer = pow10((p - scale) as nat);
        lemma_pow10_sum((9 - p) as nat, (p - scale) as nat);
        assert(9 - p + (p - scale) == 9 - scale);
        assert(cut == wide * fewer);
        assert(r * wide == wide * r) by (nonlinear_arith);
        lemma_div_denominator((r * wide) as int, wide as int, fewer as int);
        lemma_div_multiples_vanish(r as int, wide as int);
        assert((r * wide) / cut == r / fewer);
    }
}

/// A moment of `p` digits stands in the form with its zone as the second and the billionths that
/// it counts: a tick is a second over ten to the power of `p`. A moment whose second has no local
/// time, or one behind the last that is counted, has no such form.
pub proof fn law_moments_with_their_zone(
    tz: chrono_tz::Tz,
    ticks: u64,
    p: nat,
    second: nat,
    billionths: nat,
    whole: u32,
)
    requires
        p <= 9,
        billionths < 1_000_000_000,
        second * 1_000_000_000 + billionths == ticks * pow10((9 - p) as nat),
        second <= i64::MAX,
    ensures
        (zone_offset(tz, second as int) matches Some(o) && second + o <= 8_210_266_876_799)
            ==> datetime64_rfc3339(tz, ticks, p) == rfc3339_text(
            tz,
            second as int,
            billionths as int,
        ),
        zone_offset(tz, second as int) is None ==> datetime64_rfc3339(tz, ticks, p) is None,
        (zone_offset(tz, whole as int) matches Some(o) && whole + o <= 8_210_266_876_799)
            ==> datetime_rfc3339(tz, whole) == rfc3339_text(tz, whole as int, 0),
        zone_offset(tz, whole as int) is None ==> datetime_rfc3339(tz, whole) is None,
{
    let d = pow10(p);
    let wide = pow10((9 - p) as nat);
    lemma_pow10_sum(p, (9 - p) as nat);
    reveal_with_fuel(pow10, 10);
    assert(pow10(9) == 1_000_000_000);
    assert(p + (9 - p) == 9);
    assert(d * wide == 1_000_000_000);
    let q = ticks as nat / d;
    let r = ticks as nat % d;
    lemma_fundamental_div_mod(ticks as int, d as int);
    assert(ticks * wide == q * (d * wide) + r * wide) by (nonlinear_arith)
        requires
            ticks == d * q + r,
    ;
    assert(r * wide < 1_000_000_000) by (nonlinear_arith)
        requires
            r < d,
            d * wide == 1_000_000_000,
            wide > 0,
    ;
    let all: int = (ticks * wide) as int;
    lemma_fundamental_div_mod_converse(all, 1_000_000_000, second as int, billionths as int);
    lemma_fundamental_div_mod_converse(all, 1_000_000_000, q as int, (r * wide) as int);
    assert(q == second && r * wide == billionths);
}

} // verus!
