//! Versions of servers and their texts.
use vstd::prelude::*;

use crate::query::byte_sum;
use crate::text::{
    dec_text, is_digit, is_white, law_uint_text_reads_back, lemma_dec_text, split_text,
};
use crate::text_rules::law_parts_between_separators;
use crate::version::{at_least, find_white, first_word, parsed_version, version_text, Version};
use crate::wire::le_bytes;

verus! {

/// A version is at least another if, of major and minor number, the first that differs is
/// greater.
pub proof fn law_at_least(v: Version, major: u32, minor: u32)
    ensures
        at_least(v, major, minor) <==> v.major * 0x1_0000_0000 + v.minor >= major * 0x1_0000_0000
            + minor,
{
}

proof fn lemma_no_white(s: Seq<char>, i: int)
    requires
        0 <= i <= s.len(),
        forall|j: int| 0 <= j < s.len() ==> !is_white(#[trigger] s[j]),
    ensures
        find_white(s, i, true) == s.len(),
        find_white(s, i, false) == i,
    decreases s.len() - i,
{
    if i < s.len() {
        lemma_no_white(s, i + 1);
    }
}

proof fn lemma_digits_only(n: nat, c: char)
    requires
        !is_digit(c),
    ensures
        forall|i: int| 0 <= i < dec_text(n).len() ==> #[trigger] dec_text(n)[i] != c,
        forall|i: int| 0 <= i < dec_text(n).len() ==> !is_white(#[trigger] dec_text(n)[i]),
{
    lemma_dec_text(n);
    assert forall|i: int| 0 <= i < dec_text(n).len() implies #[trigger] dec_text(n)[i] != c
        && !is_white(dec_text(n)[i]) by {
        assert(is_digit(dec_text(n)[i]));
    }
}

/// The text of a version is its three numbers with points between them, and is read as it.
pub proof fn law_version_text_reads_back(v: Version)
    ensures
        version_text(v) == dec_text(v.major as nat) + seq!['.'] + dec_text(v.minor as nat)
            + seq!['.'] + dec_text(v.patch as nat),
        parsed_version(version_text(v)) == Some(v),
{
    let a = dec_text(v.major as nat);
    let b = dec_text(v.minor as nat);
    let c = dec_text(v.patch as nat);
    let s = version_text(v);
    lemma_digits_only(v.major as nat, '.');
    lemma_digits_only(v.minor as nat, '.');
    lemma_digits_only(v.patch as nat, '.');
    assert forall|j: int| 0 <= j < s.len() implies !is_white(#[trigger] s[j]) by {
        if j < a.len() {
            assert(s[j] == a[j]);
        } else if j == a.len() {
        } else if j < a.len() + 1 + b.len() {
            assert(s[j] == b[j - a.len() - 1]);
        } else if j == a.len() + 1 + b.len() {
        } else {
            assert(s[j] == c[j - a.len() - b.len() - 2]);
        }
    }
    lemma_no_white(s, 0);
    assert(first_word(s) =~= s);
    assert(s =~= a + (seq!['.'] + (b + (seq!['.'] + c))));
    law_parts_between_separators(c, c, '.');
    law_parts_between_separators(b, c, '.');
    law_parts_between_separators(a, b + (seq!['.'] + c), '.');
    assert(split_text(s, '.') =~= seq![a, b, c]);
    lemma_digits_only(v.patch as nat, '-');
    law_parts_between_separators(c, c, '-');
    law_uint_text_reads_back(v.major as nat, u32::MAX as nat);
    law_uint_text_reads_back(v.minor as nat, u32::MAX as nat);
    law_uint_text_reads_back(v.patch as nat, u32::MAX as nat);
    assert(split_text(c, '-')[0] == c);
}

/// A version of two numbers has the patch zero; one number is no version.
pub proof fn law_short_versions(major: u32, minor: u32)
    ensures
        parsed_version(dec_text(major as nat) + seq!['.'] + dec_text(minor as nat)) == Some(
            (Version { major, minor, patch: 0 }),
        ),
        parsed_version(dec_text(major as nat)) is None,
{
    let a = dec_text(major as nat);
    let b = dec_text(minor as nat);
    let s = a + seq!['.'] + b;
    lemma_digits_only(major as nat, '.');
    lemma_digits_only(minor as nat, '.');
    assert forall|j: int| 0 <= j < s.len() implies !is_white(#[trigger] s[j]) by {
        if j < a.len() {
            assert(s[j] == a[j]);
        } else if j > a.len() {
            assert(s[j] == b[j - a.len() - 1]);
        }
    }
    lemma_no_white(s, 0);
    lemma_no_white(a, 0);
    assert(first_word(s) =~= s);
    assert(first_word(a) =~= a);
    assert(s =~= a + (seq!['.'] + b));
    law_parts_between_separators(b, b, '.');
    law_parts_between_separators(a, b, '.');
    assert(split_text(s, '.') =~= seq![a, b]);
    law_uint_text_reads_back(major as nat, u32::MAX as nat);
    law_uint_text_reads_back(minor as nat, u32::MAX as nat);
}

/// The sum of bytes.
pub open spec fn sum_of(b: Seq<u8>) -> nat
    decreases b.len(),
{
    if b.len() == 0 {
        0
    } else {
        b[0] as nat + sum_of(b.skip(1))
    }
}

/// The key of an identifier is the sum of its bytes.
pub proof fn law_key_is_the_sum_of_bytes(n: nat, k: nat)
    ensures
        byte_sum(n, k) == sum_of(le_bytes(n, k)),
    decreases k,
{
    if k > 0 {
        law_key_is_the_sum_of_bytes(n / 256, (k - 1) as nat);
        let b = le_bytes(n, k);
        assert(b.skip(1) =~= le_bytes(n / 256, (k - 1) as nat));
        assert(b[0] == (n % 256) as u8);
    }
}

proof fn lemma_first_word(s: Seq<char>, c: char, rest: Seq<char>)
    requires
        s.len() > 0,
        forall|j: int| 0 <= j < s.len() ==> !is_white(#[trigger] s[j]),
        is_white(c),
    ensures
        first_word(s) == s,
        first_word(s + seq![c] + rest) == s,
        first_word(seq![c] + s) == s,
{
    lemma_no_white(s, 0);
    assert(first_word(s) =~= s);
    let t = s + seq![c] + rest;
    assert(t[0] == s[0]);
    lemma_word_end(t, 0, s.len() as int);
    assert(first_word(t) =~= s);
    let u = seq![c] + s;
    assert forall|j: int| 1 <= j < u.len() implies !is_white(#[trigger] u[j]) by {
        assert(u[j] == s[j - 1]);
    }
    assert(u[0] == c);
    assert(!is_white(u[1]));
    assert(find_white(u, 1, false) == 1);
    assert(find_white(u, 0, false) == 1);
    lemma_word_end(u, 1, u.len() as int);
    assert(first_word(u) =~= s);
}

proof fn lemma_word_end(s: Seq<char>, i: int, n: int)
    requires
        0 <= i <= n <= s.len(),
        forall|j: int| i <= j < n ==> !is_white(#[trigger] s[j]),
        n == s.len() || is_white(s[n]),
    ensures
        find_white(s, i, true) == n,
    decreases n - i,
{
    if i < n {
        assert(!is_white(s[i]));
        lemma_word_end(s, i + 1, n);
    }
}

/// What stands behind the first word of a text says nothing of the version, nor a blank before it.
pub proof fn law_versions_are_words(s: Seq<char>, c: char, rest: Seq<char>)
    requires
        s.len() > 0,
        forall|j: int| 0 <= j < s.len() ==> !is_white(#[trigger] s[j]),
        is_white(c),
    ensures
        parsed_version(s + seq![c] + rest) == parsed_version(s),
        parsed_version(seq![c] + s) == parsed_version(s),
{
    lemma_first_word(s, c, rest);
}

/// Parts behind the third number are passed over, and so is what stands behind a hyphen.
pub proof fn law_longer_versions(v: Version, mark: char, more: Seq<char>)
    requires
        mark == '.' || mark == '-',
        forall|j: int|
            0 <= j < more.len() ==> !is_white(#[trigger] more[j]) && (mark == '-' ==> more[j] != '.'),
    ensures
        parsed_version(version_text(v) + seq![mark] + more) == Some(v),
{
    let a = dec_text(v.major as nat);
    let b = dec_text(v.minor as nat);
    let c = dec_text(v.patch as nat);
    let s = version_text(v) + seq![mark] + more;
    lemma_digits_only(v.major as nat, '.');
    lemma_digits_only(v.minor as nat, '.');
    lemma_digits_only(v.patch as nat, '.');
    assert forall|j: int| 0 <= j < s.len() implies !is_white(#[trigger] s[j]) by {
        if j < a.len() {
            assert(s[j] == a[j]);
        } else if j == a.len() {
        } else if j < a.len() + 1 + b.len() {
            assert(s[j] == b[j - a.len() - 1]);
        } else if j == a.len() + 1 + b.len() {
        } else if j < a.len() + b.len() + c.len() + 2 {
            assert(s[j] == c[j - a.len() - b.len() - 2]);
        } else if j == a.len() + b.len() + c.len() + 2 {
        } else {
            assert(s[j] == more[j - a.len() - b.len() - c.len() - 3]);
        }
    }
    lemma_no_white(s, 0);
    assert(first_word(s) =~= s);
    let tail = c + (seq![mark] + more);
    assert(s =~= a + (seq!['.'] + (b + (seq!['.'] + tail))));
    law_parts_between_separators(b, tail, '.');
    law_parts_between_separators(a, b + (seq!['.'] + tail), '.');
    lemma_digits_only(v.patch as nat, '-');
    law_uint_text_reads_back(v.major as nat, u32::MAX as nat);
    law_uint_text_reads_back(v.minor as nat, u32::MAX as nat);
    law_uint_text_reads_back(v.patch as nat, u32::MAX as nat);
    let parts = split_text(s, '.');
    assert(parts == seq![a] + (seq![b] + split_text(tail, '.')));
    if mark == '.' {
        law_parts_between_separators(c, more, '.');
        law_parts_between_separators(c, c, '-');
        assert(split_text(tail, '.')[0] == c);
        assert(parts[2] == c);
        assert(split_text(c, '-')[0] == c);
    } else {
        assert forall|j: int| 0 <= j < tail.len() implies #[trigger] tail[j] != '.' by {
            if j < c.len() {
                assert(tail[j] == c[j]);
            } else if j > c.len() {
                assert(tail[j] == more[j - c.len() - 1]);
            }
        }
        law_parts_between_separators(tail, tail, '.');
        assert(parts[2] == tail);
        law_parts_between_separators(c, more, '-');
        assert(split_text(tail, '-')[0] == c);
    }
    assert(parts[0] == a && parts[1] == b);
    assert(parts.len() >= 3);
}

} // verus!
