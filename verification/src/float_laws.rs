//! Integers and numbers of floating point.
use vstd::arithmetic::power::{lemma_pow0, lemma_pow1, lemma_pow_adds, pow};
use vstd::prelude::*;

use crate::float_bits::{
    bit_length, double_of_int, double_of_nat, double_of_single, i64_of_double, lemma_pow2_grows,
    lemma_pow2_sum, nearest_even, pow2, single_magnitude, single_of_double, u64_of_double,
    whole_magnitude,
};

verus! {

/// Powers of two.
pub proof fn law_powers_of_two(n: nat)
    ensures
        pow2(n) == pow(2, n),
        pow2(n) > 0,
    decreases n,
{
    if n == 0 {
        lemma_pow0(2);
    } else {
        law_powers_of_two((n - 1) as nat);
        lemma_pow_adds(2, 1, (n - 1) as nat);
        lemma_pow1(2);
    }
}

proof fn lemma_length(n: nat)
    requires
        n > 0,
    ensures
        bit_length(n) > 0,
        pow2((bit_length(n) - 1) as nat) <= n < pow2(bit_length(n)),
    decreases n,
{
    let k = bit_length(n);
    assert(pow2(0) == 1);
    if n == 1 {
        assert(bit_length(0) == 0);
        assert(pow2(1) == 2 * pow2(0));
    } else {
        lemma_length(n / 2);
        assert(k == 1 + bit_length(n / 2));
        assert(pow2(k) == 2 * pow2((k - 1) as nat));
        assert(pow2((k - 1) as nat) == 2 * pow2((k - 2) as nat));
    }
}

proof fn lemma_fifty_two()
    ensures
        pow2(52) == 0x10_0000_0000_0000,
        pow2(53) == 0x20_0000_0000_0000,
{
    reveal_with_fuel(pow2, 54);
}

/// The bits of an integer below two to the power of 53: its sign is zero, and its exponent and
/// its fraction tell it exactly.
proof fn lemma_exact(n: nat)
    requires
        0 < n < 0x20_0000_0000_0000,
    ensures
        ({
            let k = bit_length(n);
            let m = n * pow2((53 - k) as nat);
            &&& 0 < k <= 53
            &&& 0x10_0000_0000_0000 <= m < 0x20_0000_0000_0000
            &&& double_of_nat(n) == (k + 1022) * 0x10_0000_0000_0000 + (m - 0x10_0000_0000_0000)
        }),
{
    let k = bit_length(n);
    lemma_length(n);
    lemma_fifty_two();
    if k > 53 {
        lemma_pow2_grows(53, (k - 1) as nat);
    }
    let e = (53 - k) as nat;
    let m = n * pow2(e);
    lemma_pow2_sum((k - 1) as nat, e);
    lemma_pow2_sum(k, e);
    law_powers_of_two(e);
    assert(pow2((k - 1) as nat) * pow2(e) <= n * pow2(e)) by (nonlinear_arith)
        requires
            pow2((k - 1) as nat) <= n,
            pow2(e) > 0,
    ;
    assert(n * pow2(e) < pow2(k) * pow2(e)) by (nonlinear_arith)
        requires
            n < pow2(k),
            pow2(e) > 0,
    ;
}

/// An integer below two to the power of 53 is held exactly by a number of double precision:
/// cut off again, it is the same.
pub proof fn law_integers_are_held_exactly(n: nat)
    requires
        n < 0x20_0000_0000_0000,
    ensures
        double_of_int(n as int) < 0x8000_0000_0000_0000,
        u64_of_double(double_of_int(n as int) as u64) == n,
        i64_of_double(double_of_int(n as int) as u64) == n,
        n > 0 ==> i64_of_double(double_of_int(-(n as int)) as u64) == -(n as int),
        n > 0 ==> u64_of_double(double_of_int(-(n as int)) as u64) == 0,
{
    if n == 0 {
        assert(double_of_nat(0) == 0);
        assert(whole_magnitude(0, 0) == 0);
    } else {
        lemma_exact(n);
        let k = bit_length(n);
        let e = (53 - k) as nat;
        let m = n * pow2(e);
        let f = (m - 0x10_0000_0000_0000) as nat;
        let bits = double_of_nat(n);
        law_powers_of_two(e);
        assert(bits / 0x10_0000_0000_0000 == k + 1022);
        assert(bits % 0x10_0000_0000_0000 == f);
        assert(bits < 0x8000_0000_0000_0000);
        assert((n * pow2(e)) / pow2(e) == n) by (nonlinear_arith)
            requires
                pow2(e) > 0,
        ;
        assert(1075 - (k + 1022) == e);
        assert(whole_magnitude((k + 1022) as nat, f) == n);
        assert((k + 1022) % 0x800 == k + 1022);
        let neg = (0x8000_0000_0000_0000 + bits) as u64;
        assert(neg as nat / 0x8000_0000_0000_0000 == 1);
        assert(neg as nat / 0x10_0000_0000_0000 == 0x800 + k + 1022);
        assert((0x800 + k + 1022) % 0x800 == k + 1022);
        assert(neg as nat % 0x10_0000_0000_0000 == f);
    }
}

/// A power of two has the fraction zero, and its exponent 1023 more.
pub proof fn law_bits_of_powers_of_two(k: nat)
    requires
        k < 53,
    ensures
        double_of_int(pow2(k) as int) == (1023 + k) * 0x10_0000_0000_0000,
{
    lemma_fifty_two();
    lemma_pow2_grows(k, 52);
    law_powers_of_two(k);
    lemma_length(pow2(k));
    let n = pow2(k);
    let len = bit_length(n);
    if len - 1 > k {
        lemma_pow2_grows(k + 1, (len - 1) as nat);
        assert(pow2(k + 1) == 2 * pow2(k));
    }
    if len < k + 1 {
        lemma_pow2_grows(len, k);
    }
    assert(len == k + 1);
    lemma_exact(n);
    lemma_pow2_sum(k, (52 - k) as nat);
}

/// A number of single precision that is neither too small nor endless keeps its fraction, and
/// its exponent counts from 1023 in place of 127; turned back it is the same.
pub proof fn law_single_and_double_precision(bits: u32)
    requires
        0 < bits as nat / 0x80_0000 % 0x100 < 0xFF,
    ensures
        ({
            let sign = bits as nat / 0x8000_0000;
            let e = bits as nat / 0x80_0000 % 0x100;
            let f = bits as nat % 0x80_0000;
            &&& double_of_single(bits) == sign * 0x8000_0000_0000_0000 + (e - 127 + 1023)
                * 0x10_0000_0000_0000 + f * 0x2000_0000
            &&& single_of_double(double_of_single(bits) as u64) == bits
        }),
{
    let sign = bits as nat / 0x8000_0000;
    let e = bits as nat / 0x80_0000 % 0x100;
    let f = bits as nat % 0x80_0000;
    assert(sign <= 1);
    assert(bits as nat == sign * 0x8000_0000 + e * 0x80_0000 + f);
    let d = double_of_single(bits);
    assert(d == sign * 0x8000_0000_0000_0000 + (e + 896) * 0x10_0000_0000_0000 + f * 0x2000_0000);
    assert(f * 0x2000_0000 < 0x10_0000_0000_0000);
    assert(d / 0x8000_0000_0000_0000 == sign);
    assert(d / 0x10_0000_0000_0000 == sign * 0x800 + e + 896);
    assert((sign * 0x800 + e + 896) % 0x800 == e + 896);
    assert(d % 0x10_0000_0000_0000 == f * 0x2000_0000);
    let whole = 0x10_0000_0000_0000 + f * 0x2000_0000;
    assert(whole / 0x2000_0000 == 0x80_0000 + f);
    assert(whole % 0x2000_0000 == 0);
    assert(nearest_even(whole, 0x2000_0000) == 0x80_0000 + f);
    assert(single_magnitude(e + 896, f * 0x2000_0000) == e * 0x80_0000 + f);
}

/// What is cut off stays in the range: a number that is too great becomes the greatest, one that
/// is too small the least, and what is no number zero.
pub proof fn law_cutting_off_stays_in_range(bits: u64)
    ensures
        u64_of_double(bits) <= 0xFFFF_FFFF_FFFF_FFFF,
        -0x8000_0000_0000_0000 <= i64_of_double(bits) <= 0x7FFF_FFFF_FFFF_FFFF,
        bits == 0x7FF0_0000_0000_0000 ==> u64_of_double(bits) == 0xFFFF_FFFF_FFFF_FFFF
            && i64_of_double(bits) == 0x7FFF_FFFF_FFFF_FFFF,
        bits == 0xFFF0_0000_0000_0000 ==> u64_of_double(bits) == 0 && i64_of_double(bits)
            == -0x8000_0000_0000_0000,
        bits as nat / 0x10_0000_0000_0000 % 0x800 == 0x7FF && bits as nat % 0x10_0000_0000_0000
            != 0 ==> u64_of_double(bits) == 0 && i64_of_double(bits) == 0,
{
}

/// Rounding gives the nearest multiple, and of two that are as near the one that is even.
pub proof fn law_rounding(n: nat, d: nat)
    requires
        d > 0,
    ensures
        ({
            let r = nearest_even(n, d);
            &&& 2 * (r * d - n) <= d
            &&& 2 * (n - r * d) <= d
            &&& 2 * (r * d - n) == d || 2 * (n - r * d) == d ==> r % 2 == 0
        }),
{
    let q = n / d;
    let m = n % d;
    vstd::arithmetic::div_mod::lemma_fundamental_div_mod(n as int, d as int);
    assert(n == d * q + m);
    assert(q * d == d * q) by (nonlinear_arith);
    assert((q + 1) * d == d * q + d) by (nonlinear_arith);
}

/// An integer of more than 53 bits is rounded to that many, and its exponent tells the others.
pub proof fn law_great_integers_are_rounded(n: nat)
    requires
        0x20_0000_0000_0000 <= n,
    ensures
        bit_length(n) > 53,
        pow2((bit_length(n) - 1) as nat) <= n < pow2(bit_length(n)),
        double_of_int(n as int) == (bit_length(n) + 1022) * 0x10_0000_0000_0000 + (nearest_even(
            n,
            pow2((bit_length(n) - 53) as nat),
        ) - 0x10_0000_0000_0000),
{
    lemma_length(n);
    lemma_fifty_two();
    if bit_length(n) <= 53 {
        lemma_pow2_grows(bit_length(n), 53);
    }
}

/// A number of double precision is rounded to the 23 bits of single precision; one that is too
/// great becomes endless, and one that is too small zero.
pub proof fn law_rounding_to_single_precision(bits: u64)
    requires
        bits < 0x8000_0000_0000_0000,
    ensures
        ({
            let e = bits as nat / 0x10_0000_0000_0000;
            let f = bits as nat % 0x10_0000_0000_0000;
            let r = nearest_even(0x10_0000_0000_0000 + f, 0x2000_0000);
            &&& 897 <= e <= 1150 ==> single_of_double(bits) == (e - 897) * 0x80_0000 + r
            &&& 1151 <= e < 0x7FF ==> single_of_double(bits) == 0x7F80_0000
            &&& e < 872 ==> single_of_double(bits) == 0
            &&& e == 0x7FF && f == 0 ==> single_of_double(bits) == 0x7F80_0000
        }),
{
    let e = bits as nat / 0x10_0000_0000_0000;
    let f = bits as nat % 0x10_0000_0000_0000;
    assert(e < 0x800);
    assert(bits as nat / 0x8000_0000_0000_0000 == 0);
    assert(e % 0x800 == e);
    let whole = 0x10_0000_0000_0000 + f;
    assert(whole / 0x2000_0000 < 0x100_0000);
    assert(whole / 0x2000_0000 >= 0x80_0000);
}

} // verus!
