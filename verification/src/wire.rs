//! Bytes on the wire: little-endian integers, variable-length integers, strings.
//!
//! A reader is the slice of the bytes that are still to be read; reading shortens
//! it from the front. A writer is a vector that grows at its end.
use vstd::prelude::*;
use vstd::slice::slice_subrange;

use crate::error::{Error, ReadReason, Result};

verus! {

/// What reading gives: a value and the bytes behind it, or an error.
pub type Parsed<T> = core::result::Result<(T, Seq<u8>), Error>;

/// Reads exactly `n` bytes.
pub open spec fn parsed_bytes(s: Seq<u8>, n: nat) -> Parsed<Seq<u8>> {
    if s.len() < n {
        Err(Error::UnexpectedEof)
    } else {
        Ok((s.take(n as int), s.skip(n as int)))
    }
}

/// Reads exactly `n` bytes.
pub fn get_bytes(reader: &mut &[u8], n: usize) -> (r: Result<Vec<u8>>)
    ensures
        match r {
            Ok(v) => parsed_bytes(old(reader)@, n as nat) == Ok::<_, Error>((v@, final(reader)@)),
            Err(e) => parsed_bytes(old(reader)@, n as nat) == Err::<(Seq<u8>, Seq<u8>), _>(e),
        },
{
    let all: &[u8] = *reader;
    if all.len() < n {
        return Err(Error::UnexpectedEof);
    }
    let mut out: Vec<u8> = Vec::new();
    let mut i: usize = 0;
    while i < n
        invariant
            i <= n <= all.len(),
            out@ == all@.take(i as int),
        decreases n - i,
    {
        assert(all@.take(i + 1) =~= all@.take(i as int).push(all@[i as int]));
        out.push(all[i]);
        i += 1;
    }
    *reader = slice_subrange(all, n, all.len());
    assert(reader@ =~= all@.skip(n as int));
    Ok(out)
}

/// Appends bytes.
pub fn put_bytes(out: &mut Vec<u8>, bytes: &[u8])
    ensures
        final(out)@ == old(out)@ + bytes@,
{
    let mut i: usize = 0;
    while i < bytes.len()
        invariant
            i <= bytes.len(),
            out@ == old(out)@ + bytes@.take(i as int),
        decreases bytes.len() - i,
    {
        assert(bytes@.take(i + 1) =~= bytes@.take(i as int).push(bytes@[i as int]));
        out.push(bytes[i]);
        i += 1;
    }
    assert(bytes@.take(bytes@.len() as int) =~= bytes@);
}

// ---------------------------------------------------------------------------
// Little-endian integers
// ---------------------------------------------------------------------------

/// The number of values that `n` bytes can hold.
pub open spec fn pow256(n: nat) -> nat
    decreases n,
{
    if n == 0 {
        1
    } else {
        256 * pow256((n - 1) as nat)
    }
}

/// The lowest `n` bytes of a number, least significant first.
pub open spec fn le_bytes(x: nat, n: nat) -> Seq<u8>
    decreases n,
{
    if n == 0 {
        Seq::empty()
    } else {
        seq![(x % 256) as u8] + le_bytes(x / 256, (n - 1) as nat)
    }
}

/// The number that bytes stand for, least significant first.
pub open spec fn le_value(s: Seq<u8>) -> nat
    decreases s.len(),
{
    if s.len() == 0 {
        0
    } else {
        s[0] as nat + 256 * le_value(s.skip(1))
    }
}

pub proof fn lemma_le_bytes(x: nat, n: nat)
    requires
        x < pow256(n),
    ensures
        le_bytes(x, n).len() == n,
        le_value(le_bytes(x, n)) == x,
    decreases n,
{
    if n > 0 {
        assert(x / 256 < pow256((n - 1) as nat)) by (nonlinear_arith)
            requires
                x < 256 * pow256((n - 1) as nat),
        ;
        lemma_le_bytes(x / 256, (n - 1) as nat);
        assert(le_bytes(x, n).skip(1) =~= le_bytes(x / 256, (n - 1) as nat));
    }
}

pub proof fn lemma_le_value(s: Seq<u8>)
    ensures
        le_value(s) < pow256(s.len()),
        le_bytes(le_value(s), s.len()) == s,
    decreases s.len(),
{
    if s.len() > 0 {
        lemma_le_value(s.skip(1));
        let tail = le_value(s.skip(1));
        assert((s[0] as nat + 256 * tail) % 256 == s[0] as nat);
        assert((s[0] as nat + 256 * tail) / 256 == tail);
        assert(s =~= seq![s[0]] + s.skip(1));
    } else {
        assert(le_bytes(le_value(s), s.len()) =~= s);
    }
}

pub proof fn lemma_pow256()
    ensures
        pow256(0) == 1,
        pow256(1) == 0x100,
        pow256(2) == 0x1_0000,
        pow256(4) == 0x1_0000_0000,
        pow256(8) == 0x1_0000_0000_0000_0000,
        pow256(16) == 0x1_0000_0000_0000_0000_0000_0000_0000_0000,
{
    reveal_with_fuel(pow256, 17);
}

/// A signed number as the unsigned one with the same `n` bytes.
pub open spec fn twos(x: int, n: nat) -> nat {
    if x >= 0 {
        x as nat
    } else {
        (x + pow256(n)) as nat
    }
}

/// An unsigned number of `n` bytes as the signed one with the same bytes.
pub open spec fn untwos(u: nat, n: nat) -> int {
    if 2 * u < pow256(n) {
        u as int
    } else {
        u - pow256(n)
    }
}

/// The `n` bytes of a signed number.
pub open spec fn int_bytes(x: int, n: nat) -> Seq<u8> {
    le_bytes(twos(x, n), n)
}

/// Reads an unsigned number of `n` bytes.
pub open spec fn parsed_uint(s: Seq<u8>, n: nat) -> Parsed<nat> {
    if s.len() < n {
        Err(Error::UnexpectedEof)
    } else {
        Ok((le_value(s.take(n as int)), s.skip(n as int)))
    }
}

/// Reads a signed number of `n` bytes.
pub open spec fn parsed_int(s: Seq<u8>, n: nat) -> Parsed<int> {
    match parsed_uint(s, n) {
        Err(e) => Err(e),
        Ok((u, rest)) => Ok((untwos(u, n), rest)),
    }
}

/// What was written as an unsigned number reads back.
pub proof fn law_uint_reads_back(x: nat, n: nat, rest: Seq<u8>)
    requires
        x < pow256(n),
    ensures
        parsed_uint(le_bytes(x, n) + rest, n) == Ok::<_, Error>((x, rest)),
{
    lemma_le_bytes(x, n);
    let s = le_bytes(x, n) + rest;
    assert(s.take(n as int) =~= le_bytes(x, n));
    assert(s.skip(n as int) =~= rest);
}

/// What was written as a signed number reads back.
pub proof fn law_int_reads_back(x: int, n: nat, rest: Seq<u8>)
    requires
        -(pow256(n) as int) <= 2 * x < pow256(n),
    ensures
        parsed_int(int_bytes(x, n) + rest, n) == Ok::<_, Error>((x, rest)),
{
    law_uint_reads_back(twos(x, n), n, rest);
}

/// Appends the lowest `n` bytes of a number.
fn put_le(out: &mut Vec<u8>, x: u128, n: usize)
    ensures
        final(out)@ == old(out)@ + le_bytes(x as nat, n as nat),
{
    let mut v: u128 = x;
    let mut k: usize = n;
    assert(out@ + le_bytes(v as nat, k as nat) =~= old(out)@ + le_bytes(x as nat, n as nat));
    while k > 0
        invariant
            out@ + le_bytes(v as nat, k as nat) == old(out)@ + le_bytes(x as nat, n as nat),
        decreases k,
    {
        let b: u8 = (v % 256) as u8;
        let ghost tail = le_bytes(v as nat / 256, (k - 1) as nat);
        assert(out@ + (seq![b] + tail) =~= out@.push(b) + tail);
        out.push(b);
        v = v / 256;
        k = k - 1;
    }
    assert(out@ + Seq::<u8>::empty() =~= out@);
}

/// Reads a number of `n` bytes.
fn get_le(reader: &mut &[u8], n: usize) -> (r: Result<u128>)
    requires
        n <= 16,
    ensures
        match r {
            Ok(x) => parsed_uint(old(reader)@, n as nat) == Ok::<_, Error>(
                (x as nat, final(reader)@),
            ) && x < pow256(n as nat),
            Err(e) => parsed_uint(old(reader)@, n as nat) == Err::<(nat, Seq<u8>), _>(e),
        },
{
    let all: &[u8] = *reader;
    if all.len() < n {
        return Err(Error::UnexpectedEof);
    }
    let mut acc: u128 = 0;
    let mut k: usize = n;
    let ghost head = all@.take(n as int);
    assert(head.skip(n as int) =~= Seq::<u8>::empty());
    while k > 0
        invariant
            k <= n <= 16,
            n <= all.len(),
            head == all@.take(n as int),
            acc as nat == le_value(head.skip(k as int)),
        decreases k,
    {
        k = k - 1;
        proof {
            let tail = head.skip(k as int);
            assert(tail.skip(1) =~= head.skip(k + 1));
            lemma_le_value(tail);
            lemma_pow256_le((n - k) as nat, 16);
            lemma_pow256();
            assert(tail[0] == all@[k as int]);
        }
        acc = acc * 256 + all[k] as u128;
    }
    proof {
        assert(head.skip(0) =~= head);
        lemma_le_value(head);
    }
    *reader = slice_subrange(all, n, all.len());
    assert(reader@ =~= all@.skip(n as int));
    Ok(acc)
}

pub proof fn lemma_pow256_le(a: nat, b: nat)
    requires
        a <= b,
    ensures
        0 < pow256(a) <= pow256(b),
    decreases b,
{
    if a < b {
        lemma_pow256_le(a, (b - 1) as nat);
    } else if b > 0 {
        lemma_pow256_le((a - 1) as nat, (b - 1) as nat);
    }
}

/// A signed number as an unsigned one, where `max` is the largest of its width.
fn unsigned(x: i128, max: u128) -> (r: u128)
    requires
        -(max as int) - 1 <= 2 * x <= max,
    ensures
        r == (if x >= 0 {
            x as int
        } else {
            x + max + 1
        }),
{
    if x >= 0 {
        x as u128
    } else {
        max - (-(x + 1)) as u128
    }
}

/// An unsigned number as a signed one, where `max` is the largest of its width.
fn signed(u: u128, max: u128) -> (r: i128)
    requires
        u <= max,
        max % 2 == 1,
    ensures
        r == (if 2 * u <= max {
            u as int
        } else {
            u - max - 1
        }),
{
    if u <= max / 2 {
        u as i128
    } else {
        -((max - u) as i128) - 1
    }
}

/// Appends an unsigned integer of 8 bits.
pub fn put_u8(out: &mut Vec<u8>, x: u8)
    ensures
        final(out)@ == old(out)@ + le_bytes(x as nat, 1),
{
    put_le(out, x as u128, 1);
}

/// Appends a signed integer of 8 bits.
pub fn put_i8(out: &mut Vec<u8>, x: i8)
    ensures
        final(out)@ == old(out)@ + int_bytes(x as int, 1),
{
    proof {
        lemma_pow256();
    }
    put_le(out, unsigned(x as i128, 0xFF), 1);
}

/// Reads an unsigned integer of 8 bits.
pub fn get_u8(reader: &mut &[u8]) -> (r: Result<u8>)
    ensures
        match r {
            Ok(x) => parsed_uint(old(reader)@, 1) == Ok::<_, Error>((x as nat, final(reader)@)),
            Err(e) => parsed_uint(old(reader)@, 1) == Err::<(nat, Seq<u8>), _>(e),
        },
{
    proof {
        lemma_pow256();
    }
    match get_le(reader, 1) {
        Ok(x) => Ok(x as u8),
        Err(e) => Err(e),
    }
}

/// Reads a signed integer of 8 bits.
pub fn get_i8(reader: &mut &[u8]) -> (r: Result<i8>)
    ensures
        match r {
            Ok(x) => parsed_int(old(reader)@, 1) == Ok::<_, Error>((x as int, final(reader)@)),
            Err(e) => parsed_int(old(reader)@, 1) == Err::<(int, Seq<u8>), _>(e),
        },
{
    proof {
        lemma_pow256();
    }
    match get_le(reader, 1) {
        Ok(x) => Ok(signed(x, 0xFF) as i8),
        Err(e) => Err(e),
    }
}

/// Appends an unsigned integer of 16 bits.
pub fn put_u16_le(out: &mut Vec<u8>, x: u16)
    ensures
        final(out)@ == old(out)@ + le_bytes(x as nat, 2),
{
    put_le(out, x as u128, 2);
}

/// Appends a signed integer of 16 bits.
pub fn put_i16_le(out: &mut Vec<u8>, x: i16)
    ensures
        final(out)@ == old(out)@ + int_bytes(x as int, 2),
{
    proof {
        lemma_pow256();
    }
    put_le(out, unsigned(x as i128, 0xFFFF), 2);
}

/// Reads an unsigned integer of 16 bits.
pub fn get_u16_le(reader: &mut &[u8]) -> (r: Result<u16>)
    ensures
        match r {
            Ok(x) => parsed_uint(old(reader)@, 2) == Ok::<_, Error>((x as nat, final(reader)@)),
            Err(e) => parsed_uint(old(reader)@, 2) == Err::<(nat, Seq<u8>), _>(e),
        },
{
    proof {
        lemma_pow256();
    }
    match get_le(reader, 2) {
        Ok(x) => Ok(x as u16),
        Err(e) => Err(e),
    }
}

/// Reads a signed integer of 16 bits.
pub fn get_i16_le(reader: &mut &[u8]) -> (r: Result<i16>)
    ensures
        match r {
            Ok(x) => parsed_int(old(reader)@, 2) == Ok::<_, Error>((x as int, final(reader)@)),
            Err(e) => parsed_int(old(reader)@, 2) == Err::<(int, Seq<u8>), _>(e),
        },
{
    proof {
        lemma_pow256();
    }
    match get_le(reader, 2) {
        Ok(x) => Ok(signed(x, 0xFFFF) as i16),
        Err(e) => Err(e),
    }
}

/// Appends an unsigned integer of 32 bits.
pub fn put_u32_le(out: &mut Vec<u8>, x: u32)
    ensures
        final(out)@ == old(out)@ + le_bytes(x as nat, 4),
{
    put_le(out, x as u128, 4);
}

/// Appends a signed integer of 32 bits.
pub fn put_i32_le(out: &mut Vec<u8>, x: i32)
    ensures
        final(out)@ == old(out)@ + int_bytes(x as int, 4),
{
    proof {
        lemma_pow256();
    }
    put_le(out, unsigned(x as i128, 0xFFFF_FFFF), 4);
}

/// Reads an unsigned integer of 32 bits.
pub fn get_u32_le(reader: &mut &[u8]) -> (r: Result<u32>)
    ensures
        match r {
            Ok(x) => parsed_uint(old(reader)@, 4) == Ok::<_, Error>((x as nat, final(reader)@)),
            Err(e) => parsed_uint(old(reader)@, 4) == Err::<(nat, Seq<u8>), _>(e),
        },
{
    proof {
        lemma_pow256();
    }
    match get_le(reader, 4) {
        Ok(x) => Ok(x as u32),
        Err(e) => Err(e),
    }
}

/// Reads a signed integer of 32 bits.
pub fn get_i32_le(reader: &mut &[u8]) -> (r: Result<i32>)
    ensures
        match r {
            Ok(x) => parsed_int(old(reader)@, 4) == Ok::<_, Error>((x as int, final(reader)@)),
            Err(e) => parsed_int(old(reader)@, 4) == Err::<(int, Seq<u8>), _>(e),
        },
{
    proof {
        lemma_pow256();
    }
    match get_le(reader, 4) {
        Ok(x) => Ok(signed(x, 0xFFFF_FFFF) as i32),
        Err(e) => Err(e),
    }
}

/// Appends an unsigned integer of 64 bits.
pub fn put_u64_le(out: &mut Vec<u8>, x: u64)
    ensures
        final(out)@ == old(out)@ + le_bytes(x as nat, 8),
{
    put_le(out, x as u128, 8);
}

/// Appends a signed integer of 64 bits.
pub fn put_i64_le(out: &mut Vec<u8>, x: i64)
    ensures
        final(out)@ == old(out)@ + int_bytes(x as int, 8),
{
    proof {
        lemma_pow256();
    }
    put_le(out, unsigned(x as i128, 0xFFFF_FFFF_FFFF_FFFF), 8);
}

/// Reads an unsigned integer of 64 bits.
pub fn get_u64_le(reader: &mut &[u8]) -> (r: Result<u64>)
    ensures
        match r {
            Ok(x) => parsed_uint(old(reader)@, 8) == Ok::<_, Error>((x as nat, final(reader)@)),
            Err(e) => parsed_uint(old(reader)@, 8) == Err::<(nat, Seq<u8>), _>(e),
        },
{
    proof {
        lemma_pow256();
    }
    match get_le(reader, 8) {
        Ok(x) => Ok(x as u64),
        Err(e) => Err(e),
    }
}

/// Reads a signed integer of 64 bits.
pub fn get_i64_le(reader: &mut &[u8]) -> (r: Result<i64>)
    ensures
        match r {
            Ok(x) => parsed_int(old(reader)@, 8) == Ok::<_, Error>((x as int, final(reader)@)),
            Err(e) => parsed_int(old(reader)@, 8) == Err::<(int, Seq<u8>), _>(e),
        },
{
    proof {
        lemma_pow256();
    }
    match get_le(reader, 8) {
        Ok(x) => Ok(signed(x, 0xFFFF_FFFF_FFFF_FFFF) as i64),
        Err(e) => Err(e),
    }
}

/// Appends an unsigned integer of 128 bits.
pub fn put_u128_le(out: &mut Vec<u8>, x: u128)
    ensures
        final(out)@ == old(out)@ + le_bytes(x as nat, 16),
{
    put_le(out, x as u128, 16);
}

/// Appends a signed integer of 128 bits.
pub fn put_i128_le(out: &mut Vec<u8>, x: i128)
    ensures
        final(out)@ == old(out)@ + int_bytes(x as int, 16),
{
    proof {
        lemma_pow256();
    }
    put_le(out, unsigned(x as i128, u128::MAX), 16);
}

/// Reads an unsigned integer of 128 bits.
pub fn get_u128_le(reader: &mut &[u8]) -> (r: Result<u128>)
    ensures
        match r {
            Ok(x) => parsed_uint(old(reader)@, 16) == Ok::<_, Error>((x as nat, final(reader)@)),
            Err(e) => parsed_uint(old(reader)@, 16) == Err::<(nat, Seq<u8>), _>(e),
        },
{
    proof {
        lemma_pow256();
    }
    match get_le(reader, 16) {
        Ok(x) => Ok(x as u128),
        Err(e) => Err(e),
    }
}

/// Reads a signed integer of 128 bits.
pub fn get_i128_le(reader: &mut &[u8]) -> (r: Result<i128>)
    ensures
        match r {
            Ok(x) => parsed_int(old(reader)@, 16) == Ok::<_, Error>((x as int, final(reader)@)),
            Err(e) => parsed_int(old(reader)@, 16) == Err::<(int, Seq<u8>), _>(e),
        },
{
    proof {
        lemma_pow256();
    }
    match get_le(reader, 16) {
        Ok(x) => Ok(signed(x, u128::MAX) as i128),
        Err(e) => Err(e),
    }
}

// ---------------------------------------------------------------------------
// Variable-length integers
// ---------------------------------------------------------------------------

/// A number in groups of seven bits, least significant first; the high bit of a
/// byte says that another byte follows.
pub open spec fn varuint_bytes(x: nat) -> Seq<u8>
    decreases x,
{
    if x < 128 {
        seq![x as u8]
    } else {
        seq![(x % 128 + 128) as u8] + varuint_bytes(x / 128)
    }
}

/// The factor of the group at position `k`.
pub open spec fn pow128(k: nat) -> nat
    decreases k,
{
    if k == 0 {
        1
    } else {
        128 * pow128((k - 1) as nat)
    }
}

/// Reads a variable-length integer from its group at position `k` on. A number has
/// at most ten groups; of the tenth only the lowest bit counts.
pub open spec fn parsed_groups(s: Seq<u8>, k: nat) -> Parsed<nat>
    decreases 10 - k,
{
    if s.len() == 0 {
        Err(Error::UnexpectedEof)
    } else {
        let digit = if k == 9 {
            s[0] as nat % 2
        } else {
            s[0] as nat % 128
        };
        if s[0] < 128 {
            Ok((digit * pow128(k), s.skip(1)))
        } else if k >= 9 {
            Err(Error::DeserializeError(ReadReason::VarUIntOverflow))
        } else {
            match parsed_groups(s.skip(1), k + 1) {
                Err(e) => Err(e),
                Ok((high, rest)) => Ok((digit * pow128(k) + high, rest)),
            }
        }
    }
}

/// Reads a variable-length integer.
pub open spec fn parsed_varuint(s: Seq<u8>) -> Parsed<nat> {
    parsed_groups(s, 0)
}

proof fn lemma_pow128()
    ensures
        pow128(0) == 1,
        pow128(1) == 0x80,
        pow128(2) == 0x4000,
        pow128(3) == 0x20_0000,
        pow128(4) == 0x1000_0000,
        pow128(5) == 0x8_0000_0000,
        pow128(6) == 0x400_0000_0000,
        pow128(7) == 0x2_0000_0000_0000,
        pow128(8) == 0x100_0000_0000_0000,
        pow128(9) == 0x8000_0000_0000_0000,
{
    reveal_with_fuel(pow128, 10);
}

#[verifier::spinoff_prover]
#[verifier::rlimit(40)]
proof fn lemma_groups_read_back(x: nat, k: nat, rest: Seq<u8>)
    requires
        k <= 9,
        x * pow128(k) < 0x1_0000_0000_0000_0000,
    ensures
        parsed_groups(varuint_bytes(x) + rest, k) == Ok::<_, Error>((x * pow128(k), rest)),
    decreases x,
{
    let s = varuint_bytes(x) + rest;
    lemma_pow128();
    if x < 128 {
        assert(s.skip(1) =~= rest);
        assert(s[0] == x as u8);
        if k == 9 {
            assert(x < 2) by (nonlinear_arith)
                requires
                    x * 0x8000_0000_0000_0000 < 0x1_0000_0000_0000_0000,
            ;
        }
    } else {
        assert(k < 9) by {
            if k == 9 {
                assert(x * 0x8000_0000_0000_0000 >= 128 * 0x8000_0000_0000_0000)
                    by (nonlinear_arith)
                    requires
                        x >= 128,
                ;
            }
        }
        assert(s[0] == (x % 128 + 128) as u8);
        assert(s[0] as nat % 128 == x % 128);
        assert(s.skip(1) =~= varuint_bytes(x / 128) + rest);
        let p = pow128(k);
        assert(pow128(k + 1) == 128 * p);
        assert((x / 128) * (128 * p) + (x % 128) * p == x * p) by (nonlinear_arith)
            requires
                x == 128 * (x / 128) + x % 128,
        ;
        assert((x % 128) * p >= 0) by (nonlinear_arith)
            requires
                p >= 0,
                x >= 0,
        ;
        assert((x / 128) * pow128(k + 1) < 0x1_0000_0000_0000_0000);
        lemma_groups_read_back(x / 128, k + 1, rest);
        assert(parsed_groups(s.skip(1), k + 1) == Ok::<_, Error>(
            ((x / 128) * pow128(k + 1), rest),
        ));
    }
}

/// What was written as a variable-length integer reads back.
pub proof fn law_varuint_reads_back(x: u64, rest: Seq<u8>)
    ensures
        parsed_varuint(varuint_bytes(x as nat) + rest) == Ok::<_, Error>((x as nat, rest)),
{
    lemma_pow128();
    lemma_groups_read_back(x as nat, 0, rest);
}

/// Appends a variable-length integer.
pub fn put_var_uint(out: &mut Vec<u8>, x: u64)
    ensures
        final(out)@ == old(out)@ + varuint_bytes(x as nat),
{
    let mut v: u64 = x;
    assert(out@ + varuint_bytes(v as nat) =~= old(out)@ + varuint_bytes(x as nat));
    while v >= 128
        invariant
            out@ + varuint_bytes(v as nat) == old(out)@ + varuint_bytes(x as nat),
        decreases v,
    {
        let b: u8 = (v % 128 + 128) as u8;
        let ghost tail = varuint_bytes(v as nat / 128);
        assert(out@ + (seq![b] + tail) =~= out@.push(b) + tail);
        out.push(b);
        v = v / 128;
    }
    assert(out@ + seq![v as u8] =~= out@.push(v as u8));
    out.push(v as u8);
}

/// Reads a variable-length integer.
pub fn read_varuint(reader: &mut &[u8]) -> (r: Result<u64>)
    ensures
        match r {
            Ok(x) => parsed_varuint(old(reader)@) == Ok::<_, Error>((x as nat, final(reader)@)),
            Err(e) => parsed_varuint(old(reader)@) == Err::<(nat, Seq<u8>), _>(e),
        },
{
    let all: &[u8] = *reader;
    let mut acc: u64 = 0;
    let mut factor: u64 = 1;
    let mut k: usize = 0;
    proof {
        lemma_pow128();
        assert(all@.skip(0) =~= all@);
    }
    loop
        invariant
            k <= 9,
            k <= all@.len(),
            all@ == old(reader)@,
            factor as nat == pow128(k as nat),
            acc < factor,
            parsed_varuint(all@) == match parsed_groups(all@.skip(k as int), k as nat) {
                Err(e) => Err::<(nat, Seq<u8>), _>(e),
                Ok((high, rest)) => Ok((acc as nat + high, rest)),
            },
        decreases 9 - k,
    {
        proof {
            lemma_pow128();
        }
        if k >= all.len() {
            return Err(Error::UnexpectedEof);
        }
        let b: u8 = all[k];
        let ghost here = all@.skip(k as int);
        proof {
            assert(here[0] == b);
            assert(here.skip(1) =~= all@.skip(k + 1));
        }
        let digit: u64 = if k == 9 {
            (b % 2) as u64
        } else {
            (b % 128) as u64
        };
        proof {
            lemma_group_fits(k as nat, digit as nat, acc as nat);
        }
        acc = acc + digit * factor;
        if b < 128 {
            *reader = slice_subrange(all, k + 1, all.len());
            assert(reader@ =~= all@.skip(k + 1));
            return Ok(acc);
        }
        if k == 9 {
            return Err(Error::DeserializeError(ReadReason::VarUIntOverflow));
        }
        if k == 8 {
            factor = 0x8000_0000_0000_0000;
        } else {
            factor = factor * 128;
        }
        k = k + 1;
    }
}

proof fn lemma_group_fits(k: nat, digit: nat, acc: nat)
    requires
        k <= 9,
        if k == 9 {
            digit < 2
        } else {
            digit < 128
        },
        acc < pow128(k),
    ensures
        digit * pow128(k) + acc < 0x1_0000_0000_0000_0000,
        k < 9 ==> digit * pow128(k) + acc < pow128(k + 1),
        k < 9 ==> pow128(k + 1) <= 0x8000_0000_0000_0000,
{
    lemma_pow128();
    let p = pow128(k);
    if k == 9 {
        assert(digit * p <= p) by (nonlinear_arith)
            requires
                digit < 2,
                p >= 0,
        ;
    } else {
        assert(digit * p <= 127 * p) by (nonlinear_arith)
            requires
                digit < 128,
                p >= 0,
        ;
    }
}

// ---------------------------------------------------------------------------
// Strings
// ---------------------------------------------------------------------------

/// Bytes behind their length.
pub open spec fn string_bytes(bytes: Seq<u8>) -> Seq<u8> {
    varuint_bytes(bytes.len()) + bytes
}

/// Reads bytes behind their length.
pub open spec fn parsed_string(s: Seq<u8>) -> Parsed<Seq<u8>> {
    match parsed_varuint(s) {
        Err(e) => Err(e),
        Ok((n, rest)) => parsed_bytes(rest, n),
    }
}

/// What was written as a string reads back.
#[verifier::spinoff_prover]
pub proof fn law_string_reads_back(bytes: Seq<u8>, rest: Seq<u8>)
    requires
        bytes.len() <= u64::MAX,
    ensures
        parsed_string(string_bytes(bytes) + rest) == Ok::<_, Error>((bytes, rest)),
{
    let tail = bytes + rest;
    law_varuint_reads_back(bytes.len() as u64, tail);
    assert(string_bytes(bytes) + rest =~= varuint_bytes(bytes.len()) + tail);
    assert(tail.take(bytes.len() as int) =~= bytes);
    assert(tail.skip(bytes.len() as int) =~= rest);
    assert(parsed_bytes(tail, bytes.len()) == Ok::<_, Error>((bytes, rest)));
}

/// Appends bytes behind their length.
pub fn put_string(out: &mut Vec<u8>, bytes: &[u8])
    ensures
        final(out)@ == old(out)@ + string_bytes(bytes@),
{
    put_var_uint(out, bytes.len() as u64);
    put_bytes(out, bytes);
    assert(out@ =~= old(out)@ + string_bytes(bytes@));
}

/// Reads bytes behind their length.
pub fn read_string(reader: &mut &[u8]) -> (r: Result<Vec<u8>>)
    ensures
        match r {
            Ok(v) => parsed_string(old(reader)@) == Ok::<_, Error>((v@, final(reader)@)),
            Err(e) => parsed_string(old(reader)@) == Err::<(Seq<u8>, Seq<u8>), _>(e),
        },
{
    let n: u64 = match read_varuint(reader) {
        Ok(n) => n,
        Err(e) => return Err(e),
    };
    if n > reader.len() as u64 {
        return Err(Error::UnexpectedEof);
    }
    get_bytes(reader, n as usize)
}

} // verus!
