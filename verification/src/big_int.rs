//! Integers of any number of bytes, most significant byte first, as text.
use vstd::prelude::*;

use crate::text::{dec_text, digit_char, int_text};
use crate::wire::{pow256, untwos};

verus! {

/// The number that bytes stand for.
pub open spec fn be_value(b: Seq<u8>) -> nat
    decreases b.len(),
{
    if b.len() == 0 {
        0
    } else {
        be_value(b.drop_last()) * 256 + b.last() as nat
    }
}

proof fn lemma_be_bound(b: Seq<u8>)
    ensures
        be_value(b) < pow256(b.len()),
    decreases b.len(),
{
    if b.len() > 0 {
        lemma_be_bound(b.drop_last());
    }
}

/// Divides a number by ten.
fn div_ten(b: &Vec<u8>) -> (r: (Vec<u8>, u8))
    ensures
        r.0@.len() == b@.len(),
        be_value(b@) == be_value(r.0@) * 10 + r.1,
        r.1 < 10,
{
    let mut q: Vec<u8> = Vec::new();
    let mut rem: u8 = 0;
    let mut i: usize = 0;
    while i < b.len()
        invariant
            i <= b.len(),
            q@.len() == i,
            be_value(b@.take(i as int)) == be_value(q@) * 10 + rem,
            rem < 10,
        decreases b.len() - i,
    {
        let cur: u16 = rem as u16 * 256 + b[i] as u16;
        let ghost before = q@;
        q.push((cur / 10) as u8);
        proof {
            assert(b@.take(i + 1).drop_last() =~= b@.take(i as int));
            assert(q@.drop_last() =~= before);
        }
        rem = (cur % 10) as u8;
        i += 1;
    }
    assert(b@.take(b@.len() as int) =~= b@);
    (q, rem)
}

fn is_all_zero(b: &Vec<u8>) -> (r: bool)
    ensures
        r == (be_value(b@) == 0),
{
    let mut i: usize = 0;
    while i < b.len()
        invariant
            i <= b.len(),
            be_value(b@.take(i as int)) == 0,
        decreases b.len() - i,
    {
        assert(b@.take(i + 1).drop_last() =~= b@.take(i as int));
        if b[i] != 0 {
            proof {
                lemma_be_grows(b@, i + 1);
            }
            return false;
        }
        i += 1;
    }
    assert(b@.take(b@.len() as int) =~= b@);
    true
}

proof fn lemma_be_grows(b: Seq<u8>, n: int)
    requires
        0 <= n <= b.len(),
    ensures
        be_value(b.take(n)) <= be_value(b),
    decreases b.len() - n,
{
    if n == b.len() {
        assert(b.take(n) =~= b);
    } else {
        lemma_be_grows(b, n + 1);
        assert(b.take(n + 1).drop_last() =~= b.take(n));
    }
}

/// Appends a number in decimal.
fn push_big(out: &mut String, b: Vec<u8>)
    ensures
        final(out)@ == old(out)@ + dec_text(be_value(b@)),
    decreases be_value(b@),
{
    let ghost n = be_value(b@);
    let (q, r) = div_ten(&b);
    assert(be_value(q@) == n / 10 && r == n % 10);
    if !is_all_zero(&q) {
        push_big(out, q);
    }
    let ghost mid = out@;
    out.push((48 + r) as char);
    proof {
        assert((48 + r) as char == digit_char(r as nat));
        assert(out@ =~= old(out)@ + dec_text(n));
    }
}

/// The text of an unsigned number.
pub fn big_uint_to_string(b: &[u8]) -> (r: String)
    ensures
        r@ == dec_text(be_value(b@)),
{
    let mut v: Vec<u8> = Vec::new();
    crate::wire::put_bytes(&mut v, b);
    assert(v@ =~= b@);
    let mut out = String::new();
    push_big(&mut out, v);
    assert(out@ =~= dec_text(be_value(b@)));
    out
}

/// The number one greater than that of the first `n` bytes.
fn increment(b: &Vec<u8>, n: usize) -> (r: Vec<u8>)
    requires
        n <= b@.len(),
    ensures
        be_value(r@) == be_value(b@.take(n as int)) + 1,
    decreases n,
{
    if n == 0 {
        let mut out: Vec<u8> = Vec::new();
        out.push(1);
        proof {
            assert(out@.drop_last() =~= Seq::<u8>::empty());
            assert(be_value(Seq::<u8>::empty()) == 0);
        }
        return out;
    }
    let last: u8 = b[n - 1];
    proof {
        assert(b@.take(n as int).drop_last() =~= b@.take(n - 1));
    }
    if last < 255 {
        let mut out: Vec<u8> = Vec::new();
        let mut i: usize = 0;
        while i < n - 1
            invariant
                0 < n <= b@.len(),
                i <= n - 1,
                out@ == b@.take(i as int),
            decreases n - i,
        {
            out.push(b[i]);
            assert(out@ =~= b@.take(i + 1));
            i += 1;
        }
        out.push(last + 1);
        assert(out@.drop_last() =~= b@.take(n - 1));
        out
    } else {
        let mut out = increment(b, n - 1);
        let ghost head = out@;
        out.push(0);
        assert(out@.drop_last() =~= head);
        out
    }
}

/// The bytes with all bits turned around.
fn complement(b: &[u8]) -> (r: Vec<u8>)
    ensures
        r@.len() == b@.len(),
        be_value(r@) + be_value(b@) + 1 == pow256(b@.len()),
{
    let mut out: Vec<u8> = Vec::new();
    let mut i: usize = 0;
    while i < b.len()
        invariant
            i <= b.len(),
            out@.len() == i,
            be_value(out@) + be_value(b@.take(i as int)) + 1 == pow256(i as nat),
        decreases b.len() - i,
    {
        let ghost head = out@;
        out.push(255 - b[i]);
        proof {
            assert(b@.take(i + 1).drop_last() =~= b@.take(i as int));
            assert(out@.drop_last() =~= head);
        }
        i += 1;
    }
    assert(b@.take(b@.len() as int) =~= b@);
    out
}

/// The text of a signed number in two's complement.
pub fn big_int_to_string(b: &[u8]) -> (r: String)
    requires
        b@.len() > 0,
    ensures
        r@ == int_text(untwos(be_value(b@), b@.len())),
{
    proof {
        lemma_be_bound(b@);
        lemma_top_bit(b@);
    }
    if b[0] < 128 {
        big_uint_to_string(b)
    } else {
        let c = complement(b);
        let m = increment(&c, c.len());
        assert(c@.take(c@.len() as int) =~= c@);
        let mut out = String::new();
        out.push('-');
        push_big(&mut out, m);
        assert(out@ =~= int_text(untwos(be_value(b@), b@.len())));
        out
    }
}

/// The first bit tells whether a number is in the upper half.
proof fn lemma_top_bit(b: Seq<u8>)
    requires
        b.len() > 0,
    ensures
        (b[0] >= 128) == (2 * be_value(b) >= pow256(b.len())),
    decreases b.len(),
{
    let head = b.drop_last();
    if head.len() == 0 {
        assert(be_value(head) == 0);
        assert(pow256(0) == 1);
        assert(pow256(1) == 256 * pow256(0));
    } else {
        lemma_top_bit(head);
        lemma_be_bound(head);
        lemma_even(head.len());
        let h = be_value(head);
        let p = pow256(head.len());
        assert(pow256(b.len()) == 256 * p);
        if 2 * h >= p {
        } else {
            assert(2 * h + 2 <= p);
        }
    }
}

proof fn lemma_even(n: nat)
    requires
        n > 0,
    ensures
        pow256(n) % 2 == 0,
    decreases n,
{
    assert(pow256(n) == 256 * pow256((n - 1) as nat));
}

} // verus!
