//! How numbers and strings stand in bytes.
use vstd::arithmetic::div_mod::{
    lemma_div_denominator, };
use vstd::arithmetic::power::{lemma_pow0, lemma_pow1, lemma_pow_adds, lemma_pow_positive, pow};
use vstd::prelude::*;

use crate::error::Error;
use crate::wire::{
    int_bytes, le_bytes, le_value, lemma_le_value, parsed_bytes, parsed_int, parsed_string,
    parsed_uint, parsed_varuint, pow128, pow256, string_bytes, varuint_bytes,
};

verus! {

proof fn lemma_pow_step(b: int, n: nat)
    requires
        n > 0,
    ensures
        pow(b, n) == b * pow(b, (n - 1) as nat),
        pow(b, 0) == 1,
{
    lemma_pow_adds(b, 1, (n - 1) as nat);
    lemma_pow1(b);
    lemma_pow0(b);
}

proof fn lemma_digit(x: nat, b: nat, i: nat)
    requires
        b > 1,
        i > 0,
    ensures
        ((x / b) as int / pow(b as int, (i - 1) as nat)) == x as int / pow(b as int, i),
{
    lemma_pow_step(b as int, i);
    lemma_pow_positive(b as int, (i - 1) as nat);
    lemma_div_denominator(x as int, b as int, pow(b as int, (i - 1) as nat));
}

/// A number stands with its lowest byte first: byte `i` is its digit of the weight 256 to
/// the power of `i`.
pub proof fn law_lowest_byte_comes_first(x: nat, n: nat, i: nat)
    requires
        i < n,
    ensures
        le_bytes(x, n).len() == n,
        le_bytes(x, n)[i as int] as int == (x as int / pow(256, i)) % 256,
    decreases n,
{
    lemma_le_len(x, n);
    if i == 0 {
        lemma_pow0(256);
        assert(x as int / 1 == x);
    } else {
        law_lowest_byte_comes_first(x / 256, (n - 1) as nat, (i - 1) as nat);
        assert(le_bytes(x, n)[i as int] == le_bytes(x / 256, (n - 1) as nat)[i - 1]);
        lemma_digit(x, 256, i);
    }
}

proof fn lemma_le_len(x: nat, n: nat)
    ensures
        le_bytes(x, n).len() == n,
    decreases n,
{
    if n > 0 {
        lemma_le_len(x / 256, (n - 1) as nat);
    }
}

proof fn lemma_pow_same(n: nat)
    ensures
        pow256(n) == pow(256, n),
    decreases n,
{
    if n == 0 {
        lemma_pow0(256);
    } else {
        lemma_pow_same((n - 1) as nat);
        lemma_pow_step(256, n);
    }
}

/// A number is read off the front of bytes, if there are as many as it takes: it is the one
/// whose digits they are, and it leaves the bytes behind them.
pub proof fn law_number_is_read_off_the_front(s: Seq<u8>, n: nat)
    ensures
        parsed_uint(s, n) is Ok <==> s.len() >= n,
        parsed_uint(s, n) is Err ==> parsed_uint(s, n)->Err_0 == Error::UnexpectedEof,
        parsed_uint(s, n) matches Ok((x, rest)) ==> {
            &&& x < pow(256, n)
            &&& rest == s.skip(n as int)
            &&& forall|i: nat|
                i < n ==> (x as int / #[trigger] pow(256, i)) % 256 == s[i as int] as int
        },
{
    if s.len() >= n {
        let b = s.take(n as int);
        let x = le_value(b);
        lemma_le_value(b);
        lemma_pow_same(n);
        assert forall|i: nat| i < n implies (x as int / #[trigger] pow(256, i)) % 256
            == s[i as int] as int by {
            law_lowest_byte_comes_first(x, n, i);
            assert(b[i as int] == s[i as int]);
        }
    }
}

/// A signed number has the bytes of the unsigned one that is the same modulo the numbers of
/// its width, and is read as the one of that width that is the same: negative where the
/// highest bit is set.
pub proof fn law_signed_numbers(x: int, n: nat, s: Seq<u8>)
    requires
        n > 0,
        -pow(256, n) <= 2 * x < pow(256, n),
    ensures
        x >= 0 ==> int_bytes(x, n) == le_bytes(x as nat, n),
        x < 0 ==> int_bytes(x, n) == le_bytes((x + pow(256, n)) as nat, n),
        parsed_int(s, n) is Ok <==> s.len() >= n,
        parsed_int(s, n) matches Ok((y, rest)) ==> {
            let u = parsed_uint(s, n)->Ok_0.0;
            &&& rest == s.skip(n as int)
            &&& s[n - 1] < 128 ==> y == u
            &&& s[n - 1] >= 128 ==> y == u - pow(256, n)
        },
{
    lemma_pow_same(n);
    if s.len() >= n {
        let b = s.take(n as int);
        lemma_top_byte(b);
        assert(b[n - 1] == s[n - 1]);
    }
}

proof fn lemma_top_byte(b: Seq<u8>)
    requires
        b.len() > 0,
    ensures
        2 * le_value(b) < pow256(b.len()) <==> b[b.len() - 1] < 128,
    decreases b.len(),
{
    if b.len() == 1 {
        reveal_with_fuel(pow256, 2);
        reveal_with_fuel(le_value, 2);
        assert(b.skip(1).len() == 0);
    } else {
        let t = b.skip(1);
        lemma_top_byte(t);
        assert(t[t.len() - 1] == b[b.len() - 1]);
        let v = le_value(t);
        let p = pow256(t.len());
        assert(le_value(b) == b[0] as nat + 256 * v);
        assert(pow256(b.len()) == 256 * p);
        lemma_even(t.len());
        assert(p % 2 == 0);
        if 2 * v < p {
            assert(2 * v + 2 <= p);
        }
    }
}

proof fn lemma_even(n: nat)
    requires
        n > 0,
    ensures
        pow256(n) % 2 == 0,
{
    assert(pow256(n) == 256 * pow256((n - 1) as nat));
    assert((256 * pow256((n - 1) as nat)) % 2 == 0) by (nonlinear_arith);
}

/// A number of variable length stands in groups of seven bits, the lowest first. All bytes
/// but the last have their highest bit set, and the last is zero only where it stands alone.
pub proof fn law_groups_of_seven_bits(x: nat, i: nat)
    requires
        i < varuint_bytes(x).len(),
    ensures
        ({
            let b = varuint_bytes(x);
            &&& b.len() > 0
            &&& (b[i as int] as int) % 128 == (x as int / pow(128, i)) % 128
            &&& b[i as int] >= 128 <==> i + 1 < b.len()
            &&& b.len() > 1 ==> b[b.len() - 1] != 0
            &&& (x as int) < pow(128, b.len())
        }),
    decreases x,
{
    lemma_pow0(128);
    lemma_pow1(128);
    let b = varuint_bytes(x);
    assert(x as int / 1 == x);
    if x >= 128 {
        let t = varuint_bytes(x / 128);
        assert(b == seq![(x % 128 + 128) as u8] + t);
        lemma_varuint_len(x / 128);
        law_groups_of_seven_bits(x / 128, (t.len() - 1) as nat);
        assert(b[b.len() - 1] == t[t.len() - 1]);
        lemma_pow_step(128, b.len());
        assert(x < 128 * (x / 128 + 1));
        assert((x as int) < 128 * pow(128, t.len())) by (nonlinear_arith)
            requires
                x < 128 * (x / 128 + 1),
                (x / 128) as int + 1 <= pow(128, t.len()),
        ;
        if t.len() == 1 {
            assert(t[0] != 0) by {
                assert(x / 128 < 128 || x / 128 >= 128);
                if x / 128 < 128 {
                    assert(t == seq![(x / 128) as u8]);
                }
            }
        }
        if i > 0 {
            law_groups_of_seven_bits(x / 128, (i - 1) as nat);
            assert(b[i as int] == t[i - 1]);
            lemma_digit(x, 128, i);
        }
    }
}

proof fn lemma_varuint_len(x: nat)
    ensures
        varuint_bytes(x).len() > 0,
{
}

/// A number of variable length ends at the first byte without the highest bit: it is that
/// byte, or the seven bits of the first byte and 128 times what follows.
pub proof fn law_first_byte_of_variable_length(s: Seq<u8>)
    ensures
        s.len() == 0 ==> parsed_varuint(s) is Err,
        s.len() > 0 && s[0] < 128 ==> parsed_varuint(s) == Ok::<_, Error>(
            (s[0] as nat, s.skip(1)),
        ),
        s.len() > 1 && s[0] >= 128 && s[1] < 128 ==> parsed_varuint(s) == Ok::<_, Error>(
            ((s[0] - 128 + 128 * s[1]) as nat, s.skip(2)),
        ),
        s.len() == 1 && s[0] >= 128 ==> parsed_varuint(s) is Err,
{
    reveal_with_fuel(crate::wire::parsed_groups, 3);
    reveal_with_fuel(pow128, 3);
    assert(pow128(0) == 1 && pow128(1) == 128);
    if s.len() > 0 {
        let a = s[0] as nat % 128;
        assert(a * pow128(0) == a);
        assert(s[0] < 128 ==> a == s[0]);
    }
    if s.len() > 1 {
        let b = s[1] as nat % 128;
        assert(s.skip(1)[0] == s[1]);
        assert(b * pow128(1) == 128 * b);
        assert(s[1] < 128 ==> b == s[1]);
        assert(s.skip(1).skip(1) =~= s.skip(2));
    }
}

/// A string stands behind the number of its bytes.
pub proof fn law_length_stands_before_a_string(b: Seq<u8>, rest: Seq<u8>)
    ensures
        string_bytes(b) == varuint_bytes(b.len()) + b,
        b.len() < 128 ==> string_bytes(b) == seq![b.len() as u8] + b,
        b.len() < 128 ==> parsed_string(seq![b.len() as u8] + b + rest) == Ok::<_, Error>((b, rest)),
{
    if b.len() < 128 {
        let s = seq![b.len() as u8] + b + rest;
        law_first_byte_of_variable_length(s);
        assert(s.skip(1) =~= b + rest);
        assert((b + rest).take(b.len() as int) =~= b);
        assert((b + rest).skip(b.len() as int) =~= rest);
    }
}

/// Bytes are taken off the front, if there are enough.
pub proof fn law_bytes_are_taken_off_the_front(b: Seq<u8>, rest: Seq<u8>, s: Seq<u8>, n: nat)
    ensures
        parsed_bytes(b + rest, b.len()) == Ok::<_, Error>((b, rest)),
        s.len() < n ==> parsed_bytes(s, n) == Err::<(Seq<u8>, Seq<u8>), _>(Error::UnexpectedEof),
{
    assert((b + rest).take(b.len() as int) =~= b);
    assert((b + rest).skip(b.len() as int) =~= rest);
}

/// The bytes of numbers of one, two, four and eight bytes, one by one.
pub proof fn law_bytes_of_small_numbers(x: nat)
    ensures
        x < 0x100 ==> le_bytes(x, 1) == seq![x as u8],
        x < 0x1_0000 ==> le_bytes(x, 2) == seq![(x % 0x100) as u8, (x / 0x100) as u8],
        x < 0x1_0000_0000 ==> le_bytes(x, 4) == seq![
            (x % 0x100) as u8,
            (x / 0x100 % 0x100) as u8,
            (x / 0x1_0000 % 0x100) as u8,
            (x / 0x100_0000) as u8,
        ],
        x < 0x100 ==> le_bytes(x, 8) == seq![x as u8, 0, 0, 0, 0, 0, 0, 0],
{
    reveal_with_fuel(le_bytes, 9);
    assert(x < 0x100 ==> le_bytes(x, 1) =~= seq![x as u8]);
    assert(x < 0x1_0000 ==> le_bytes(x, 2) =~= seq![(x % 0x100) as u8, (x / 0x100) as u8]);
    assert(x / 256 / 256 == x / 0x1_0000 && x / 256 / 256 / 256 == x / 0x100_0000);
    assert(x < 0x1_0000_0000 ==> le_bytes(x, 4) =~= seq![
        (x % 0x100) as u8,
        (x / 0x100 % 0x100) as u8,
        (x / 0x1_0000 % 0x100) as u8,
        (x / 0x100_0000) as u8,
    ]);
    assert(x < 0x100 ==> x / 256 == 0);
    assert(0nat / 256 == 0 && 0nat % 256 == 0);
    assert(x < 0x100 ==> le_bytes(x, 8) =~= seq![x as u8, 0, 0, 0, 0, 0, 0, 0]);
}

} // verus!
