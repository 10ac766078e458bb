//! Conversions between integers and the bits of binary floating-point numbers.
//!
//! Numbers are rounded to the nearest one that can be held, and to the even one of two
//! that are equally near. Fractions are cut off where a number becomes an integer.
use vstd::prelude::*;

verus! {

/// Powers of two.
pub open spec fn pow2(n: nat) -> nat
    decreases n,
{
    if n == 0 {
        1
    } else {
        2 * pow2((n - 1) as nat)
    }
}

/// The integer that is nearest to `n / d`, and the even one of two.
pub open spec fn nearest_even(n: nat, d: nat) -> nat {
    let q = n / d;
    let r = n % d;
    if 2 * r > d || (2 * r == d && q % 2 == 1) {
        q + 1
    } else {
        q
    }
}

/// How many bits a number takes.
pub open spec fn bit_length(n: nat) -> nat
    decreases n,
{
    if n == 0 {
        0
    } else {
        1 + bit_length(n / 2)
    }
}

/// The bits of double precision of a number that is not negative.
pub open spec fn double_of_nat(n: nat) -> nat {
    let len = bit_length(n);
    if n == 0 {
        0
    } else if len <= 53 {
        (len + 1021) as nat * 0x10_0000_0000_0000 + n * pow2((53 - len) as nat)
    } else {
        (len + 1021) as nat * 0x10_0000_0000_0000 + nearest_even(n, pow2((len - 53) as nat))
    }
}

/// The bits of double precision of an integer.
pub open spec fn double_of_int(x: int) -> nat {
    if x < 0 {
        0x8000_0000_0000_0000 + double_of_nat((-x) as nat)
    } else {
        double_of_nat(x as nat)
    }
}

/// The bits of single precision, without the sign, of a number of double precision with
/// the given exponent and fraction.
pub open spec fn single_magnitude(exponent: nat, fraction: nat) -> nat {
    if exponent == 0x7FF {
        if fraction == 0 {
            0x7F80_0000
        } else {
            0x7FC0_0000
        }
    } else if exponent >= 897 {
        let x = (exponent - 897) as nat * 0x80_0000 + nearest_even(
            0x10_0000_0000_0000 + fraction,
            0x2000_0000,
        );
        if x > 0x7F80_0000 {
            0x7F80_0000
        } else {
            x
        }
    } else if exponent >= 872 {
        nearest_even(0x10_0000_0000_0000 + fraction, pow2((926 - exponent) as nat))
    } else {
        0
    }
}

/// The bits of double precision of a number of single precision, which are exact.
pub open spec fn double_of_single(bits: u32) -> nat {
    let sign = bits as nat / 0x8000_0000;
    let exponent = bits as nat / 0x80_0000 % 0x100;
    let fraction = bits as nat % 0x80_0000;
    let len = bit_length(fraction);
    sign * 0x8000_0000_0000_0000 + if exponent == 0xFF {
        0x7FF0_0000_0000_0000 + fraction * 0x2000_0000
    } else if exponent > 0 {
        (exponent + 896) * 0x10_0000_0000_0000 + fraction * 0x2000_0000
    } else if fraction == 0 {
        0
    } else {
        (len + 872) * 0x10_0000_0000_0000 + fraction * pow2((53 - len) as nat)
    }
}

/// The sign bit, the exponent and the fraction of a number of double precision.
pub open spec fn double_parts(bits: u64) -> (nat, nat, nat) {
    (
        bits as nat / 0x8000_0000_0000_0000,
        bits as nat / 0x10_0000_0000_0000 % 0x800,
        bits as nat % 0x10_0000_0000_0000,
    )
}

/// The bits of single precision of a number of double precision.
pub open spec fn single_of_double(bits: u64) -> nat {
    let (sign, exponent, fraction) = double_parts(bits);
    sign * 0x8000_0000 + single_magnitude(exponent, fraction)
}

/// The whole part of a number of double precision without its sign; at most `2^64` is
/// told apart, and what is no number counts as zero.
pub open spec fn whole_magnitude(exponent: nat, fraction: nat) -> nat {
    if exponent == 0x7FF && fraction != 0 {
        0
    } else if exponent < 1023 {
        0
    } else if exponent >= 1087 {
        0x1_0000_0000_0000_0000
    } else if exponent <= 1075 {
        (0x10_0000_0000_0000 + fraction) / pow2((1075 - exponent) as nat)
    } else {
        (0x10_0000_0000_0000 + fraction) * pow2((exponent - 1075) as nat)
    }
}

/// The unsigned integer that a number of double precision is cut down to.
pub open spec fn u64_of_double(bits: u64) -> nat {
    let (sign, exponent, fraction) = double_parts(bits);
    let m = whole_magnitude(exponent, fraction);
    if sign == 1 {
        0
    } else if m > u64::MAX {
        u64::MAX as nat
    } else {
        m
    }
}

/// The signed integer that a number of double precision is cut down to.
pub open spec fn i64_of_double(bits: u64) -> int {
    let (sign, exponent, fraction) = double_parts(bits);
    let m = whole_magnitude(exponent, fraction);
    if sign == 1 {
        if m > 0x8000_0000_0000_0000 {
            i64::MIN as int
        } else {
            -(m as int)
        }
    } else if m > i64::MAX {
        i64::MAX as int
    } else {
        m as int
    }
}

/// A power of two.
fn power_of_two(n: usize) -> (r: u128)
    requires
        n <= 64,
    ensures
        r == pow2(n as nat),
        1 <= r <= 0x1_0000_0000_0000_0000,
{
    proof {
        lemma_pow2_bound(n as nat);
    }
    let mut out: u128 = 1;
    let mut i: usize = 0;
    while i < n
        invariant
            i <= n <= 64,
            out == pow2(i as nat),
        decreases n - i,
    {
        proof {
            lemma_pow2_bound(i as nat);
        }
        out = out * 2;
        i += 1;
    }
    out
}

proof fn lemma_pow2_bound(n: nat)
    requires
        n <= 64,
    ensures
        1 <= pow2(n) <= 0x1_0000_0000_0000_0000,
{
    lemma_pow2_grows(n, 64);
    lemma_pow2_grows(0, n);
    lemma_pow2_64();
}

proof fn lemma_pow2_64()
    ensures
        pow2(64) == 0x1_0000_0000_0000_0000,
{
    assert(pow2(16) == 0x1_0000) by {
        reveal_with_fuel(pow2, 17);
    }
    lemma_pow2_sum(16, 16);
    assert(0x1_0000nat * 0x1_0000 == 0x1_0000_0000);
    lemma_pow2_sum(32, 32);
    assert(0x1_0000_0000nat * 0x1_0000_0000 == 0x1_0000_0000_0000_0000);
}

pub(crate) proof fn lemma_pow2_grows(a: nat, b: nat)
    requires
        a <= b,
    ensures
        pow2(a) <= pow2(b),
    decreases b - a,
{
    if a < b {
        lemma_pow2_grows(a, (b - 1) as nat);
    }
}

fn round_even(n: u128, d: u128) -> (r: u128)
    requires
        0 < d <= 0x1_0000_0000_0000_0000,
        n <= 0x1_0000_0000_0000_0000,
    ensures
        r == nearest_even(n as nat, d as nat),
        r <= n / d + 1,
{
    let q: u128 = n / d;
    let rest: u128 = n % d;
    assert(q <= n) by (nonlinear_arith)
        requires
            q == n / d,
            d > 0,
            n >= 0,
    ;
    if 2 * rest > d || (2 * rest == d && q % 2 == 1) {
        q + 1
    } else {
        q
    }
}

fn count_bits(n: u64) -> (r: usize)
    ensures
        r == bit_length(n as nat),
        r <= 64,
        n as nat <= pow2(r as nat) - 1,
        n > 0 ==> r > 0 && pow2((r - 1) as nat) <= n,
{
    proof {
        lemma_pow2_64();
        lemma_bits(n as nat, 64);
    }
    let mut left: u64 = n;
    let mut count: usize = 0;
    while left > 0
        invariant
            count + bit_length(left as nat) == bit_length(n as nat),
            bit_length(n as nat) <= 64,
        decreases left,
    {
        left = left / 2;
        count += 1;
    }
    count
}

proof fn lemma_bits(n: nat, k: nat)
    requires
        n < pow2(k),
    ensures
        bit_length(n) <= k,
        n < pow2(bit_length(n)),
        n > 0 ==> bit_length(n) > 0 && pow2((bit_length(n) - 1) as nat) <= n,
    decreases n,
{
    if n > 0 {
        assert(k > 0);
        lemma_bits(n / 2, (k - 1) as nat);
        if n / 2 > 0 {
            assert(pow2((bit_length(n) - 1) as nat) == 2 * pow2((bit_length(n / 2) - 1) as nat));
        }
    }
}

proof fn lemma_product(a: nat, b: nat, c: nat, d: nat)
    requires
        a < b,
        c > 0,
        b * c == d,
    ensures
        a * c < d,
{
    assert(a * c < b * c) by (nonlinear_arith)
        requires
            a < b,
            c > 0,
    ;
}

pub(crate) proof fn lemma_pow2_sum(a: nat, b: nat)
    ensures
        pow2(a) * pow2(b) == pow2(a + b),
    decreases a,
{
    if a > 0 {
        lemma_pow2_sum((a - 1) as nat, b);
        assert(2 * pow2((a - 1) as nat) * pow2(b) == 2 * (pow2((a - 1) as nat) * pow2(b)))
            by (nonlinear_arith);
    } else {
        assert(1 * pow2(b) == pow2(b));
    }
}

proof fn lemma_pow2_53()
    ensures
        pow2(53) == 0x20_0000_0000_0000,
{
    assert(pow2(16) == 0x1_0000 && pow2(5) == 32) by {
        reveal_with_fuel(pow2, 17);
    }
    lemma_pow2_sum(16, 16);
    assert(0x1_0000nat * 0x1_0000 == 0x1_0000_0000);
    lemma_pow2_sum(32, 16);
    assert(0x1_0000_0000nat * 0x1_0000 == 0x1_0000_0000_0000);
    lemma_pow2_sum(48, 5);
    assert(0x1_0000_0000_0000nat * 32 == 0x20_0000_0000_0000);
}

fn nat_to_double(n: u64) -> (r: u64)
    ensures
        r == double_of_nat(n as nat),
        r < 0x8000_0000_0000_0000,
{
    if n == 0 {
        return 0;
    }
    let len: usize = count_bits(n);
    let head: u128 = (len as u128 + 1021) * 0x10_0000_0000_0000;
    let sig: u128 = if len <= 53 {
        let p: u128 = power_of_two(53 - len);
        proof {
            lemma_pow2_sum(len as nat, (53 - len) as nat);
            lemma_pow2_53();
            lemma_product(n as nat, pow2(len as nat), p as nat, 0x20_0000_0000_0000);
        }
        n as u128 * p
    } else {
        let p: u128 = power_of_two(len - 53);
        proof {
            lemma_pow2_sum(53, (len - 53) as nat);
            lemma_pow2_53();
            assert(n as nat / p as nat <= 0x20_0000_0000_0000) by (nonlinear_arith)
                requires
                    n < 0x20_0000_0000_0000 * p,
                    p > 0,
            ;
        }
        round_even(n as u128, p)
    };
    (head + sig) as u64
}

/// The bits of double precision of an integer.
pub fn int_to_double(x: i128) -> (r: u64)
    requires
        -0x1_0000_0000_0000_0000 < x < 0x1_0000_0000_0000_0000,
    ensures
        r == double_of_int(x as int),
{
    if x < 0 {
        0x8000_0000_0000_0000 + nat_to_double((-x) as u64)
    } else {
        nat_to_double(x as u64)
    }
}

/// The bits of single precision of a number of double precision.
pub fn double_to_single(bits: u64) -> (r: u32)
    ensures
        r == single_of_double(bits),
{
    let sign: u64 = bits / 0x8000_0000_0000_0000;
    let exponent: u64 = bits / 0x10_0000_0000_0000 % 0x800;
    let fraction: u64 = bits % 0x10_0000_0000_0000;
    let sig: u128 = 0x10_0000_0000_0000 + fraction as u128;
    let magnitude: u128 = if exponent == 0x7FF {
        if fraction == 0 {
            0x7F80_0000
        } else {
            0x7FC0_0000
        }
    } else if exponent >= 897 {
        let x: u128 = (exponent - 897) as u128 * 0x80_0000 + round_even(sig, 0x2000_0000);
        if x > 0x7F80_0000 {
            0x7F80_0000
        } else {
            x
        }
    } else if exponent >= 872 {
        let p: u128 = power_of_two((926 - exponent) as usize);
        proof {
            assert(pow2(30) == 0x4000_0000) by {
                reveal_with_fuel(pow2, 31);
            }
            lemma_pow2_grows(30, (926 - exponent) as nat);
            assert(sig / p <= 0x80_0000) by (nonlinear_arith)
                requires
                    p >= 0x4000_0000,
                    0 <= sig <= 0x20_0000_0000_0000,
            ;
        }
        round_even(sig, p)
    } else {
        0
    };
    sign as u32 * 0x8000_0000 + magnitude as u32
}

/// The significand of a small number of single precision, moved up as far as it goes.
fn small_significand(fraction: u64) -> (r: (usize, u64))
    requires
        0 < fraction < 0x80_0000,
    ensures
        r.0 == bit_length(fraction as nat),
        r.0 <= 23,
        r.1 == fraction as nat * pow2((53 - bit_length(fraction as nat)) as nat),
        r.1 < 0x20_0000_0000_0000,
{
    let len: usize = count_bits(fraction);
    proof {
        lemma_pow2_23();
        lemma_bits(fraction as nat, 23);
        lemma_pow2_sum(len as nat, (53 - len) as nat);
        lemma_pow2_53();
    }
    let p: u128 = power_of_two(53 - len);
    proof {
        lemma_product(fraction as nat, pow2(len as nat), p as nat, 0x20_0000_0000_0000);
    }
    (len, (fraction as u128 * p) as u64)
}

proof fn lemma_pow2_23()
    ensures
        pow2(23) == 0x80_0000,
{
    assert(pow2(16) == 0x1_0000 && pow2(7) == 128) by {
        reveal_with_fuel(pow2, 17);
    }
    lemma_pow2_sum(16, 7);
    assert(0x1_0000nat * 128 == 0x80_0000);
}

/// The bits of double precision of a number of single precision.
pub fn single_to_double(bits: u32) -> (r: u64)
    ensures
        r == double_of_single(bits),
{
    let sign: u64 = (bits / 0x8000_0000) as u64;
    let exponent: u64 = (bits / 0x80_0000 % 0x100) as u64;
    let fraction: u64 = (bits % 0x80_0000) as u64;
    let magnitude: u64 = if exponent == 0xFF {
        0x7FF0_0000_0000_0000 + fraction * 0x2000_0000
    } else if exponent > 0 {
        (exponent + 896) * 0x10_0000_0000_0000 + fraction * 0x2000_0000
    } else if fraction == 0 {
        0
    } else {
        let (len, sig) = small_significand(fraction);
        (len as u64 + 872) * 0x10_0000_0000_0000 + sig
    };
    if sign == 1 {
        0x8000_0000_0000_0000 + magnitude
    } else {
        magnitude
    }
}

fn whole_part(exponent: u64, fraction: u64) -> (r: u128)
    requires
        exponent < 0x800,
        fraction < 0x10_0000_0000_0000,
    ensures
        r == whole_magnitude(exponent as nat, fraction as nat),
        r <= 0x1_0000_0000_0000_0000,
{
    if exponent == 0x7FF && fraction != 0 {
        return 0;
    }
    if exponent < 1023 {
        return 0;
    }
    if exponent >= 1087 {
        return 0x1_0000_0000_0000_0000;
    }
    let sig: u128 = 0x10_0000_0000_0000 + fraction as u128;
    if exponent <= 1075 {
        let p: u128 = power_of_two((1075 - exponent) as usize);
        assert(sig / p <= sig) by (nonlinear_arith)
            requires
                p >= 1,
                sig >= 0,
        ;
        sig / p
    } else {
        let p: u128 = power_of_two((exponent - 1075) as usize);
        proof {
            lemma_pow2_grows((exponent - 1075) as nat, 11);
            assert(pow2(11) == 2048) by {
                reveal_with_fuel(pow2, 12);
            }
            assert(sig * p <= 0x20_0000_0000_0000 * 2048) by (nonlinear_arith)
                requires
                    0 <= sig <= 0x20_0000_0000_0000,
                    0 <= p <= 2048,
            ;
        }
        sig * p
    }
}

/// The unsigned integer that a number of double precision is cut down to.
pub fn double_to_u64(bits: u64) -> (r: u64)
    ensures
        r == u64_of_double(bits),
{
    let m: u128 = whole_part(bits / 0x10_0000_0000_0000 % 0x800, bits % 0x10_0000_0000_0000);
    if bits / 0x8000_0000_0000_0000 == 1 {
        0
    } else if m > u64::MAX as u128 {
        u64::MAX
    } else {
        m as u64
    }
}

/// The signed integer that a number of double precision is cut down to.
pub fn double_to_i64(bits: u64) -> (r: i64)
    ensures
        r == i64_of_double(bits),
{
    let m: u128 = whole_part(bits / 0x10_0000_0000_0000 % 0x800, bits % 0x10_0000_0000_0000);
    if bits / 0x8000_0000_0000_0000 == 1 {
        if m > 0x8000_0000_0000_0000 {
            i64::MIN
        } else {
            (-(m as i128)) as i64
        }
    } else if m > i64::MAX as u128 {
        i64::MAX
    } else {
        m as i64
    }
}

} // verus!
