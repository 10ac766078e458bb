//! Texts of values: decimals, escaped strings, identifiers, addresses, dates and times.
use chrono_tz::Tz;
use vstd::prelude::*;

use crate::text::{dec_text, push_chars, push_dec, to_chars};

verus! {

// ---------------------------------------------------------------------------
// Decimals
// ---------------------------------------------------------------------------

/// Zeros.
pub open spec fn zero_chars(n: nat) -> Seq<char> {
    Seq::new(n, |i: int| '0')
}

/// Digits with zeros in front, of at least the given width.
pub open spec fn widened(s: Seq<char>, width: nat) -> Seq<char> {
    if s.len() < width {
        zero_chars((width - s.len()) as nat) + s
    } else {
        s
    }
}

/// Digits as a query shows them: the point stands before the last `scale` of them, if
/// there are as many characters.
pub open spec fn pointed(s: Seq<char>, scale: nat) -> Seq<char> {
    if s.len() < scale {
        s
    } else {
        s.take(s.len() - scale) + seq!['.'] + s.skip(s.len() - scale)
    }
}

/// The digits of an integer with the point put before the last `scale` of them. Zeros
/// go in front where there would be no digit before the point.
pub open spec fn decimal_text(s: Seq<char>, scale: nat) -> Seq<char> {
    if scale == 0 {
        s
    } else if s.len() > 0 && s[0] == '-' {
        seq!['-'] + pointed(widened(s.skip(1), scale + 1), scale)
    } else {
        pointed(widened(s, scale + 1), scale)
    }
}

fn widen(s: &[char], width: usize) -> (r: Vec<char>)
    ensures
        r@ == widened(s@, width as nat),
{
    let mut out: Vec<char> = Vec::new();
    let mut i: usize = s.len();
    assert(out@ =~= zero_chars(0));
    while i < width
        invariant
            s@.len() <= i,
            i <= width || i == s@.len(),
            out@ == zero_chars((i - s@.len()) as nat),
        decreases width - i,
    {
        out.push('0');
        assert(out@ =~= zero_chars((i + 1 - s@.len()) as nat));
        i += 1;
    }
    let ghost head = out@;
    let mut k: usize = 0;
    assert(out@ =~= head + s@.take(0));
    while k < s.len()
        invariant
            k <= s.len(),
            out@ == head + s@.take(k as int),
        decreases s.len() - k,
    {
        out.push(s[k]);
        assert(out@ =~= head + s@.take(k + 1));
        k += 1;
    }
    assert(s@.take(s@.len() as int) =~= s@);
    assert(out@ =~= widened(s@, width as nat));
    out
}

fn push_pointed(out: &mut String, s: &[char], scale: usize)
    ensures
        final(out)@ == old(out)@ + pointed(s@, scale as nat),
{
    if s.len() < scale {
        push_chars(out, s);
        return;
    }
    let p: usize = s.len() - scale;
    push_chars(out, vstd::slice::slice_subrange(s, 0, p));
    out.push('.');
    push_chars(out, vstd::slice::slice_subrange(s, p, s.len()));
    assert(out@ =~= old(out)@ + pointed(s@, scale as nat));
}

/// Puts the decimal point into the digits of an integer.
pub fn format_decimal(value: &str, scale: usize) -> (r: String)
    requires
        scale < usize::MAX,
    ensures
        r@ == decimal_text(value@, scale as nat),
{
    let chars = to_chars(value);
    let mut out = String::new();
    if scale == 0 {
        push_chars(&mut out, &chars);
        assert(out@ =~= value@);
        return out;
    }
    if chars.len() > 0 && chars[0] == '-' {
        out.push('-');
        let rest = vstd::slice::slice_subrange(chars.as_slice(), 1, chars.len());
        assert(rest@ =~= value@.skip(1));
        let padded = widen(rest, scale + 1);
        push_pointed(&mut out, &padded, scale);
    } else {
        let padded = widen(&chars, scale + 1);
        push_pointed(&mut out, &padded, scale);
    }
    assert(out@ =~= decimal_text(value@, scale as nat));
    out
}

/// Puts the point before the last `scale` characters.
pub fn put_point(s: &str, scale: usize) -> (r: String)
    ensures
        r@ == pointed(s@, scale as nat),
{
    let chars = to_chars(s);
    let mut out = String::new();
    push_pointed(&mut out, &chars, scale);
    assert(out@ =~= pointed(s@, scale as nat));
    out
}

/// A decimal shows `scale` digits behind the point and at least one before it, and
/// shows all digits of the integer.
pub proof fn law_decimal_text(s: Seq<char>, scale: nat)
    requires
        scale > 0,
        s.len() > 0,
        s[0] != '-',
    ensures
        ({
            let r = decimal_text(s, scale);
            &&& r.len() >= scale + 2
            &&& r[r.len() - scale - 1] == '.'
            &&& exists|zeros: nat| #[trigger]
                zero_chars(zeros) + s == r.take(r.len() - scale - 1) + r.skip(r.len() - scale)
        }),
{
    let zeros = if s.len() <= scale {
        (scale + 1 - s.len()) as nat
    } else {
        0
    };
    let padded = zero_chars(zeros) + s;
    let p = padded.len() - scale;
    let r = decimal_text(s, scale);
    assert(zero_chars(0) + s =~= s);
    assert(r =~= padded.take(p) + seq!['.'] + padded.skip(p));
    assert(r.take(r.len() - scale - 1) =~= padded.take(p));
    assert(r.skip(r.len() - scale) =~= padded.skip(p));
    assert(padded.take(p) + padded.skip(p) =~= padded);
}

// ---------------------------------------------------------------------------
// Escaped strings
// ---------------------------------------------------------------------------

/// A hexadecimal digit in upper case.
pub open spec fn upper_hex(d: nat) -> char {
    if d < 10 {
        (48 + d) as u8 as char
    } else {
        (55 + d) as u8 as char
    }
}

/// A byte of a string as a query shows it.
pub open spec fn escaped_byte(b: u8) -> Seq<char> {
    if b >= 128 {
        seq!['\\', 'x', upper_hex(b as nat / 16), upper_hex(b as nat % 16)]
    } else if b == 0x5C {
        seq!['\\', '\\']
    } else if b == 0x27 {
        seq!['\\', '\'']
    } else if b == 0x08 {
        seq!['\\', 'b']
    } else if b == 0x0C {
        seq!['\\', 'f']
    } else if b == 0x0D {
        seq!['\\', 'r']
    } else if b == 0x0A {
        seq!['\\', 'n']
    } else if b == 0x09 {
        seq!['\\', 't']
    } else if b == 0 {
        seq!['\\', '0']
    } else if b == 0x07 {
        seq!['\\', 'a']
    } else if b == 0x0B {
        seq!['\\', 'v']
    } else {
        seq![b as char]
    }
}

/// The bytes of a string as a query shows them.
pub open spec fn escaped_bytes(b: Seq<u8>) -> Seq<char>
    decreases b.len(),
{
    if b.len() == 0 {
        Seq::empty()
    } else {
        escaped_bytes(b.drop_last()) + escaped_byte(b.last())
    }
}

fn push_upper_hex(out: &mut String, d: u8)
    requires
        d < 16,
    ensures
        final(out)@ == old(out)@.push(upper_hex(d as nat)),
{
    if d < 10 {
        out.push((48 + d) as char);
    } else {
        out.push((55 + d) as char);
    }
}

/// Appends the bytes of a string as a query shows them.
pub fn escape_string(out: &mut String, from: &[u8])
    ensures
        final(out)@ == old(out)@ + escaped_bytes(from@),
{
    let mut i: usize = 0;
    assert(out@ + Seq::<char>::empty() =~= out@);
    while i < from.len()
        invariant
            i <= from.len(),
            out@ == old(out)@ + escaped_bytes(from@.take(i as int)),
        decreases from.len() - i,
    {
        let ghost head = escaped_bytes(from@.take(i as int));
        let b: u8 = from[i];
        proof {
            assert(from@.take(i + 1).drop_last() =~= from@.take(i as int));
        }
        if b >= 128 {
            out.push('\\');
            out.push('x');
            push_upper_hex(out, b / 16);
            push_upper_hex(out, b % 16);
        } else {
            let c: char = if b == 0x5C {
                '\\'
            } else if b == 0x27 {
                '\''
            } else if b == 0x08 {
                'b'
            } else if b == 0x0C {
                'f'
            } else if b == 0x0D {
                'r'
            } else if b == 0x0A {
                'n'
            } else if b == 0x09 {
                't'
            } else if b == 0 {
                '0'
            } else if b == 0x07 {
                'a'
            } else if b == 0x0B {
                'v'
            } else {
                b as char
            };
            if escaped_in_query(b) {
                out.push('\\');
            }
            out.push(c);
        }
        assert(out@ =~= old(out)@ + (head + escaped_byte(b)));
        i += 1;
    }
    assert(from@.take(from@.len() as int) =~= from@);
}

fn escaped_in_query(b: u8) -> (r: bool)
    ensures
        b < 128 ==> r == (escaped_byte(b).len() == 2),
{
    b == 0x5C || b == 0x27 || b == 0x08 || b == 0x0C || b == 0x0D || b == 0x0A || b == 0x09 || b
        == 0 || b == 0x07 || b == 0x0B
}

/// A string that is shown holds no quote but behind a backslash, so it ends where it is
/// closed: every character of an escaped byte that is a quote follows a backslash.
pub proof fn law_quotes_are_escaped(b: u8)
    ensures
        forall|i: int|
            0 <= i < escaped_byte(b).len() && #[trigger] escaped_byte(b)[i] == '\'' ==> i == 1
                && escaped_byte(b)[0] == '\\',
{
    assert(b < 128 && b != 0x27 ==> b as char != '\'');
    assert forall|d: nat| d < 16 implies #[trigger] upper_hex(d) != '\'' by {}
}

/// A byte from 0x80 on is shown as two hexadecimal digits in upper case, behind `\x`.
pub proof fn law_high_bytes_are_shown_in_hex(b: u8)
    requires
        b >= 0x80,
    ensures
        escaped_byte(b) == seq!['\\', 'x', upper_hex(b as nat / 16), upper_hex(b as nat % 16)],
{
}

/// Whether a query shows a character as it is: none above ASCII, no zero, and none of the
/// controls from the bell to the carriage return.
pub open spec fn is_shown(c: char) -> bool {
    0 < c as u32 && (c as u32) < 0x80 && !(0x07 <= c as u32 && c as u32 <= 0x0D)
}

proof fn lemma_byte_is_shown(b: u8)
    ensures
        0 < escaped_byte(b).len(),
        forall|i: int| 0 <= i < escaped_byte(b).len() ==> is_shown(#[trigger] escaped_byte(b)[i]),
{
    assert forall|d: nat| d < 16 implies is_shown(#[trigger] upper_hex(d)) by {}
}

/// A text that is shown is ASCII without zeros and without the controls that have an
/// escape, and a quote in it stands behind a backslash.
pub proof fn law_shown_text(b: Seq<u8>)
    ensures
        forall|i: int| 0 <= i < escaped_bytes(b).len() ==> is_shown(#[trigger] escaped_bytes(b)[i]),
        forall|i: int|
            0 <= i < escaped_bytes(b).len() && #[trigger] escaped_bytes(b)[i] == '\'' ==> i > 0
                && escaped_bytes(b)[i - 1] == '\\',
    decreases b.len(),
{
    if b.len() > 0 {
        law_shown_text(b.drop_last());
        lemma_byte_is_shown(b.last());
        law_quotes_are_escaped(b.last());
        let head = escaped_bytes(b.drop_last());
        let tail = escaped_byte(b.last());
        let all = escaped_bytes(b);
        assert forall|i: int| 0 <= i < all.len() implies is_shown(#[trigger] all[i]) by {
            if i >= head.len() {
                assert(all[i] == tail[i - head.len()]);
            } else {
                assert(all[i] == head[i]);
            }
        }
        assert forall|i: int| 0 <= i < all.len() && #[trigger] all[i] == '\'' implies i > 0
            && all[i - 1] == '\\' by {
            if i >= head.len() {
                assert(all[i] == tail[i - head.len()]);
                assert(all[head.len() as int] == tail[0]);
            } else {
                assert(all[i] == head[i]);
                assert(all[i - 1] == head[i - 1]);
            }
        }
    }
}

proof fn lemma_first_escaped(b: Seq<u8>)
    requires
        b.len() > 0,
    ensures
        escaped_bytes(b) == escaped_byte(b[0]) + escaped_bytes(b.skip(1)),
    decreases b.len(),
{
    let head = b.drop_last();
    if head.len() == 0 {
        assert(escaped_bytes(head) =~= Seq::<char>::empty());
        assert(b.skip(1) =~= Seq::<u8>::empty());
        assert(escaped_bytes(b.skip(1)) =~= Seq::<char>::empty());
        assert(escaped_bytes(b) =~= escaped_byte(b[0]) + escaped_bytes(b.skip(1)));
    } else {
        lemma_first_escaped(head);
        assert(head.skip(1) =~= b.skip(1).drop_last());
        assert(b.skip(1).last() == b.last());
        assert(escaped_bytes(b) =~= escaped_byte(b[0]) + escaped_bytes(b.skip(1)));
    }
}

proof fn lemma_hex_tells(d: nat, e: nat)
    requires
        d < 16,
        e < 16,
        upper_hex(d) == upper_hex(e),
    ensures
        d == e,
{
}

proof fn lemma_escapes_tell(x: u8, y: u8, r: Seq<char>, s: Seq<char>)
    requires
        escaped_byte(x) + r == escaped_byte(y) + s,
    ensures
        x == y,
        r == s,
{
    let a = escaped_byte(x) + r;
    let b = escaped_byte(y) + s;
    assert(a[0] == escaped_byte(x)[0] && b[0] == escaped_byte(y)[0]);
    if a[0] == '\\' {
        assert(escaped_byte(x).len() >= 2 && escaped_byte(y).len() >= 2);
        assert(a[1] == escaped_byte(x)[1] && b[1] == escaped_byte(y)[1]);
        if a[1] == 'x' {
            assert(x >= 128 && y >= 128);
            assert(a[2] == escaped_byte(x)[2] && b[2] == escaped_byte(y)[2]);
            assert(a[3] == escaped_byte(x)[3] && b[3] == escaped_byte(y)[3]);
            lemma_hex_tells(x as nat / 16, y as nat / 16);
            lemma_hex_tells(x as nat % 16, y as nat % 16);
        }
    }
    assert(x == y);
    let n = escaped_byte(x).len() as int;
    assert(a.skip(n) =~= r);
    assert(b.skip(n) =~= s);
}

/// Different strings are shown as different texts.
pub proof fn law_shown_texts_differ(a: Seq<u8>, b: Seq<u8>)
    requires
        escaped_bytes(a) == escaped_bytes(b),
    ensures
        a == b,
    decreases a.len(),
{
    if a.len() > 0 {
        lemma_first_escaped(a);
        lemma_byte_is_shown(a[0]);
    }
    if b.len() > 0 {
        lemma_first_escaped(b);
        lemma_byte_is_shown(b[0]);
    }
    if a.len() > 0 && b.len() > 0 {
        lemma_escapes_tell(a[0], b[0], escaped_bytes(a.skip(1)), escaped_bytes(b.skip(1)));
        law_shown_texts_differ(a.skip(1), b.skip(1));
        assert(a =~= seq![a[0]] + a.skip(1));
        assert(b =~= seq![b[0]] + b.skip(1));
    } else {
        assert(a =~= b);
    }
}

// ---------------------------------------------------------------------------
// Identifiers and addresses
// ---------------------------------------------------------------------------

/// A hexadecimal digit in lower case.
pub open spec fn lower_hex(d: nat) -> char {
    if d < 10 {
        (48 + d) as u8 as char
    } else {
        (87 + d) as u8 as char
    }
}

/// The last `k` hexadecimal digits of a number.
pub open spec fn hex_text(n: nat, k: nat) -> Seq<char>
    decreases k,
{
    if k == 0 {
        Seq::empty()
    } else {
        hex_text(n / 16, (k - 1) as nat).push(lower_hex(n % 16))
    }
}

/// The text of an identifier: 32 hexadecimal digits in five groups.
pub open spec fn uuid_text(n: nat) -> Seq<char> {
    let h = hex_text(n, 32);
    h.subrange(0, 8) + seq!['-'] + h.subrange(8, 12) + seq!['-'] + h.subrange(12, 16) + seq!['-']
        + h.subrange(16, 20) + seq!['-'] + h.subrange(20, 32)
}

/// Calls `uuid::Uuid::from_u128` and `to_string` on the result: the digits of the
/// number in lower case, most significant first, in groups of 8, 4, 4, 4 and 12.
#[verifier::external_body]
pub(crate) fn uuid_to_string(n: u128) -> (r: String)
    ensures
        r@ == uuid_text(n as nat),
{
    uuid::Uuid::from_u128(n).to_string()
}

/// The text of an address of four bytes.
pub open spec fn ipv4_text(a: u32) -> Seq<char> {
    dec_text(a as nat / 0x100_0000) + seq!['.'] + dec_text(a as nat / 0x1_0000 % 0x100) + seq!['.']
        + dec_text(a as nat / 0x100 % 0x100) + seq!['.'] + dec_text(a as nat % 0x100)
}

/// The text of an address of four bytes.
pub fn ipv4_to_string(a: u32) -> (r: String)
    ensures
        r@ == ipv4_text(a),
{
    let mut out = String::new();
    push_dec(&mut out, (a / 0x100_0000) as u128);
    out.push('.');
    push_dec(&mut out, (a / 0x1_0000 % 0x100) as u128);
    out.push('.');
    push_dec(&mut out, (a / 0x100 % 0x100) as u128);
    out.push('.');
    push_dec(&mut out, (a % 0x100) as u128);
    assert(out@ =~= ipv4_text(a));
    out
}

/// The hexadecimal digits of a number, without leading zeros.
pub open spec fn short_hex(n: nat) -> Seq<char>
    decreases n,
{
    if n < 16 {
        seq![lower_hex(n)]
    } else {
        short_hex(n / 16).push(lower_hex(n % 16))
    }
}

/// A group of two octets of an address.
pub open spec fn group_at(b: Seq<u8>, i: int) -> nat {
    b[2 * i] as nat * 256 + b[2 * i + 1] as nat
}

/// How many groups from `i` on are zero.
pub open spec fn zero_run(b: Seq<u8>, i: int) -> nat
    decreases 8 - i,
{
    if 0 <= i < 8 && group_at(b, i) == 0 {
        1 + zero_run(b, i + 1)
    } else {
        0
    }
}

/// Where the longest run of zero groups starts, among the first `n` groups, and how long
/// it is; the first of equally long ones.
pub open spec fn longest_run(b: Seq<u8>, n: int) -> (int, nat)
    decreases n,
{
    if n <= 0 {
        (0, 0)
    } else {
        let before = longest_run(b, n - 1);
        if zero_run(b, n - 1) > before.1 {
            (n - 1, zero_run(b, n - 1))
        } else {
            before
        }
    }
}

/// Groups from one to another with colons between them.
pub open spec fn groups_text(b: Seq<u8>, from: int, to: int) -> Seq<char>
    decreases to - from,
{
    if from >= to {
        Seq::empty()
    } else if from + 1 == to {
        short_hex(group_at(b, from))
    } else {
        groups_text(b, from, to - 1) + seq![':'] + short_hex(group_at(b, to - 1))
    }
}

/// Whether an address stands for one of four bytes.
pub open spec fn is_mapped(b: Seq<u8>) -> bool {
    &&& forall|i: int| 0 <= i < 10 ==> #[trigger] b[i] == 0
    &&& b[10] == 0xff
    &&& b[11] == 0xff
}

/// The text of an address of sixteen bytes: the longest run of at least two zero groups
/// left out, and an address of four bytes behind two colons and `ffff`. Other bytes have
/// none.
pub open spec fn ipv6_text(b: Seq<u8>) -> Seq<char> {
    let (start, len) = longest_run(b, 8);
    if b.len() != 16 {
        Seq::empty()
    } else if is_mapped(b) {
        "::ffff:"@ + dec_text(b[12] as nat) + seq!['.'] + dec_text(b[13] as nat) + seq!['.']
            + dec_text(b[14] as nat) + seq!['.'] + dec_text(b[15] as nat)
    } else if len > 1 {
        groups_text(b, 0, start) + seq![':', ':'] + groups_text(b, start + len, 8)
    } else {
        groups_text(b, 0, 8)
    }
}

fn hex_char(d: u16) -> (r: char)
    requires
        d < 16,
    ensures
        r == lower_hex(d as nat),
{
    if d < 10 {
        (48 + d) as u8 as char
    } else {
        (87 + d) as u8 as char
    }
}

fn push_short_hex(out: &mut String, n: u16)
    ensures
        final(out)@ == old(out)@ + short_hex(n as nat),
    decreases n,
{
    if n >= 16 {
        push_short_hex(out, n / 16);
    }
    out.push(hex_char(n % 16));
    assert(out@ =~= old(out)@ + short_hex(n as nat));
}

fn group_of_octets(b: &[u8], i: usize) -> (r: u16)
    requires
        b@.len() == 16,
        i < 8,
    ensures
        r == group_at(b@, i as int),
{
    b[2 * i] as u16 * 256 + b[2 * i + 1] as u16
}

fn count_zeros(b: &[u8], i: usize) -> (r: usize)
    requires
        b@.len() == 16,
        i <= 8,
    ensures
        r == zero_run(b@, i as int),
        i + r <= 8,
    decreases 8 - i,
{
    if i < 8 && group_of_octets(b, i) == 0 {
        1 + count_zeros(b, i + 1)
    } else {
        0
    }
}

fn push_groups(out: &mut String, b: &[u8], from: usize, to: usize)
    requires
        b@.len() == 16,
        from <= to <= 8,
    ensures
        final(out)@ == old(out)@ + groups_text(b@, from as int, to as int),
{
    let mut i: usize = from;
    assert(out@ =~= old(out)@ + groups_text(b@, from as int, from as int));
    while i < to
        invariant
            from <= i <= to <= 8,
            b@.len() == 16,
            out@ == old(out)@ + groups_text(b@, from as int, i as int),
        decreases to - i,
    {
        if i > from {
            out.push(':');
        }
        push_short_hex(out, group_of_octets(b, i));
        assert(out@ =~= old(out)@ + groups_text(b@, from as int, i + 1));
        i += 1;
    }
}

fn is_mapped_address(b: &[u8]) -> (r: bool)
    requires
        b@.len() == 16,
    ensures
        r == is_mapped(b@),
{
    let mut i: usize = 0;
    while i < 10
        invariant
            i <= 10,
            b@.len() == 16,
            forall|j: int| 0 <= j < i ==> #[trigger] b@[j] == 0,
        decreases 10 - i,
    {
        if b[i] != 0 {
            return false;
        }
        i += 1;
    }
    b[10] == 0xff && b[11] == 0xff
}

/// The text of an address of sixteen bytes.
pub fn ipv6_to_string(b: &[u8]) -> (r: String)
    ensures
        r@ == ipv6_text(b@),
{
    let mut out = String::new();
    if b.len() != 16 {
        assert(out@ =~= Seq::<char>::empty());
        return out;
    }
    if is_mapped_address(b) {
        out.push_str("::ffff:");
        push_dec(&mut out, b[12] as u128);
        out.push('.');
        push_dec(&mut out, b[13] as u128);
        out.push('.');
        push_dec(&mut out, b[14] as u128);
        out.push('.');
        push_dec(&mut out, b[15] as u128);
        assert(out@ =~= ipv6_text(b@));
        return out;
    }
    let mut start: usize = 0;
    let mut len: usize = 0;
    let mut i: usize = 0;
    while i < 8
        invariant
            i <= 8,
            b@.len() == 16,
            start + len <= 8,
            (start as int, len as nat) == longest_run(b@, i as int),
        decreases 8 - i,
    {
        let n: usize = count_zeros(b, i);
        if n > len {
            start = i;
            len = n;
        }
        i += 1;
    }
    if len > 1 {
        push_groups(&mut out, b, 0, start);
        out.push(':');
        out.push(':');
        push_groups(&mut out, b, start + len, 8);
    } else {
        push_groups(&mut out, b, 0, 8);
    }
    assert(out@ =~= ipv6_text(b@));
    out
}

// ---------------------------------------------------------------------------
// Dates and times
// ---------------------------------------------------------------------------

/// The text of the day with the given number, counted from the first day of the first
/// year, if there is such a day.
pub uninterp spec fn day_text(day: int) -> Option<Seq<char>>;

/// Calls `chrono::NaiveDate::from_num_days_from_ce_opt` and formats the day as year,
/// month and day with hyphens between them.
#[verifier::external_body]
fn format_day(day: i32) -> (r: Option<String>)
    ensures
        match r {
            Some(s) => day_text(day as int) == Some(s@),
            None => day_text(day as int) is None,
        },
{
    chrono::NaiveDate::from_num_days_from_ce_opt(day).map(|d| d.format("%Y-%m-%d").to_string())
}

/// The number of the first day of 1970.
pub const DAY_1970: i32 = 719_163;

/// The number of the first day of 1900.
pub const DAY_1900: i32 = 693_596;

/// The last second of the last day that has a number, as a second of a local time.
pub const LAST_LOCAL_SECOND: i64 = 8_210_266_876_799;

/// The text of a date that counts from 1970.
pub open spec fn date_text(days: u16) -> Option<Seq<char>> {
    day_text(DAY_1970 + days)
}

/// The text of a date that counts from 1900.
pub open spec fn date32_text(days: i32) -> Option<Seq<char>> {
    if days > i32::MAX - DAY_1900 {
        None
    } else {
        day_text(DAY_1900 + days)
    }
}

/// The text of a date that counts from 1970.
pub fn date_to_string(days: u16) -> (r: Option<String>)
    ensures
        match r {
            Some(s) => date_text(days) == Some(s@),
            None => date_text(days) is None,
        },
{
    format_day(DAY_1970 + days as i32)
}

/// The text of a date that counts from 1900.
pub fn date32_to_string(days: i32) -> (r: Option<String>)
    ensures
        match r {
            Some(s) => date32_text(days) == Some(s@),
            None => date32_text(days) is None,
        },
{
    if days > i32::MAX - DAY_1900 {
        return None;
    }
    format_day(DAY_1900 + days)
}

/// The local date and time in a zone, so many seconds after the start of 1970.
pub uninterp spec fn local_text(tz: Tz, seconds: int) -> Option<Seq<char>>;

/// Calls `chrono::DateTime::from_timestamp`, takes the moment to the zone and formats
/// it as a date and a time with a space between them.
#[verifier::external_body]
fn format_local(tz: Tz, seconds: i64) -> (r: Option<String>)
    ensures
        match r {
            Some(s) => local_text(tz, seconds as int) == Some(s@),
            None => local_text(tz, seconds as int) is None,
        },
{
    chrono::DateTime::from_timestamp(seconds, 0)
        .map(|d| d.with_timezone(&tz).format("%Y-%m-%d %H:%M:%S").to_string())
}

/// By how many seconds the local time in a zone is ahead of that moment, if there is one.
pub uninterp spec fn zone_offset(tz: Tz, seconds: int) -> Option<int>;

/// Calls `chrono::DateTime::from_timestamp`, takes the moment to the zone and asks for its
/// offset, which is less than a day.
#[verifier::external_body]
fn offset_at(tz: Tz, seconds: i64) -> (r: Option<i32>)
    ensures
        match r {
            Some(o) => zone_offset(tz, seconds as int) == Some(o as int) && -86_400 < o < 86_400,
            None => zone_offset(tz, seconds as int) is None,
        },
{
    chrono::DateTime::from_timestamp(seconds, 0)
        .map(|d| chrono::Offset::fix(d.with_timezone(&tz).offset()).local_minus_utc())
}

/// Whether a moment has a local time in a zone.
pub open spec fn has_local(tz: Tz, seconds: int) -> bool {
    zone_offset(tz, seconds) matches Some(o) && seconds + o <= LAST_LOCAL_SECOND
}

/// The moment in a zone, so many seconds and nanoseconds after the start of 1970, in the
/// form of RFC 3339.
pub uninterp spec fn rfc3339_text(tz: Tz, seconds: int, nanos: int) -> Option<Seq<char>>;

/// Calls `chrono::DateTime::from_timestamp`, takes the moment to the zone and calls
/// `to_rfc3339_opts` with as many digits of the second as it has.
#[verifier::external_body]
fn format_rfc3339(tz: Tz, seconds: i64, nanos: u32) -> (r: Option<String>)
    requires
        0 <= seconds,
        has_local(tz, seconds as int),
        nanos < 1_000_000_000,
    ensures
        match r {
            Some(s) => rfc3339_text(tz, seconds as int, nanos as int) == Some(s@),
            None => rfc3339_text(tz, seconds as int, nanos as int) is None,
        },
{
    chrono::DateTime::from_timestamp(seconds, nanos).map(|d| {
        d.with_timezone(&tz).to_rfc3339_opts(chrono::SecondsFormat::AutoSi, true)
    })
}

/// Powers of ten.
pub open spec fn pow10(n: nat) -> nat
    decreases n,
{
    if n == 0 {
        1
    } else {
        10 * pow10((n - 1) as nat)
    }
}

proof fn lemma_pow10()
    ensures
        pow10(0) == 1,
        pow10(1) == 10,
        pow10(2) == 100,
        pow10(3) == 1_000,
        pow10(4) == 10_000,
        pow10(5) == 100_000,
        pow10(6) == 1_000_000,
        pow10(7) == 10_000_000,
        pow10(8) == 100_000_000,
        pow10(9) == 1_000_000_000,
{
    reveal_with_fuel(pow10, 10);
}

fn power_of_ten(n: usize) -> (r: u64)
    requires
        n <= 9,
    ensures
        r == pow10(n as nat),
        1 <= r <= 1_000_000_000,
{
    proof {
        lemma_pow10();
    }
    let mut out: u64 = 1;
    let mut i: usize = 0;
    while i < n
        invariant
            i <= n <= 9,
            out == pow10(i as nat),
            forall|k: nat| k <= 9 ==> 1 <= #[trigger] pow10(k) <= 1_000_000_000,
        decreases n - i,
    {
        assert(pow10((i + 1) as nat) == 10 * pow10(i as nat));
        assert(pow10((i + 1) as nat) <= 1_000_000_000);
        out = out * 10;
        i += 1;
    }
    out
}

/// The seconds of a number of ticks, of which there are `10^precision` in a second.
pub open spec fn tick_seconds(ticks: u64, precision: nat) -> nat {
    ticks as nat / pow10(precision)
}

/// The ticks behind the last full second.
pub open spec fn tick_rest(ticks: u64, precision: nat) -> nat {
    ticks as nat % pow10(precision)
}

/// A number with zeros in front, of the given width.
pub open spec fn padded_text(n: nat, width: nat) -> Seq<char> {
    widened(dec_text(n), width)
}

/// The text of a moment of whole seconds.
pub open spec fn datetime_text(tz: Tz, seconds: u32) -> Option<Seq<char>> {
    local_text(tz, seconds as int)
}

/// The nanoseconds behind the last full second.
pub open spec fn tick_nanos(ticks: u64, precision: nat) -> nat {
    tick_rest(ticks, precision) * pow10((9 - precision) as nat)
}

/// The text of a moment of ticks, with `scale` digits behind the point.
pub open spec fn datetime64_text(tz: Tz, ticks: u64, precision: nat, scale: nat) -> Option<
    Seq<char>,
> {
    if precision > 9 || tick_seconds(ticks, precision) > i64::MAX {
        None
    } else {
        match local_text(tz, tick_seconds(ticks, precision) as int) {
            None => None,
            Some(s) => if scale == 0 {
                Some(s)
            } else {
                let shown = if scale >= 9 {
                    tick_nanos(ticks, precision)
                } else {
                    tick_nanos(ticks, precision) / pow10((9 - scale) as nat)
                };
                Some(s + seq!['.'] + padded_text(shown, scale))
            },
        }
    }
}

/// The text of a moment of whole seconds in the form of RFC 3339.
pub open spec fn datetime_rfc3339(tz: Tz, seconds: u32) -> Option<Seq<char>> {
    moment_rfc3339(tz, seconds as nat, 0)
}

/// The text of a moment in the form of RFC 3339, if it has a local time in the zone.
pub open spec fn moment_rfc3339(tz: Tz, seconds: nat, nanos: nat) -> Option<Seq<char>> {
    if has_local(tz, seconds as int) {
        rfc3339_text(tz, seconds as int, nanos as int)
    } else {
        None
    }
}

/// The text of a moment of ticks in the form of RFC 3339.
pub open spec fn datetime64_rfc3339(tz: Tz, ticks: u64, precision: nat) -> Option<Seq<char>> {
    if precision > 9 || tick_seconds(ticks, precision) > i64::MAX {
        None
    } else {
        moment_rfc3339(tz, tick_seconds(ticks, precision), tick_nanos(ticks, precision))
    }
}

/// The text of a moment of whole seconds.
pub fn datetime_to_string(tz: Tz, seconds: u32) -> (r: Option<String>)
    ensures
        match r {
            Some(s) => datetime_text(tz, seconds) == Some(s@),
            None => datetime_text(tz, seconds) is None,
        },
{
    format_local(tz, seconds as i64)
}

fn push_padded(out: &mut String, n: u64, width: usize)
    ensures
        final(out)@ == old(out)@ + padded_text(n as nat, width as nat),
{
    let digits = to_chars(crate::text::uint_to_string(n as u128).as_str());
    push_chars(out, &widen(&digits, width));
}

/// The full seconds of ticks, and the nanoseconds behind them.
fn split_ticks(ticks: u64, precision: usize) -> (r: (u64, u32))
    requires
        precision <= 9,
    ensures
        r.0 == tick_seconds(ticks, precision as nat),
        r.1 == tick_nanos(ticks, precision as nat),
        r.1 < 1_000_000_000,
{
    let unit: u64 = power_of_ten(precision);
    let rest_unit: u64 = power_of_ten(9 - precision);
    let rest: u64 = ticks % unit;
    proof {
        lemma_units(precision as nat);
        assert(rest * rest_unit < unit * rest_unit) by (nonlinear_arith)
            requires
                rest < unit,
                rest_unit > 0,
        ;
    }
    (ticks / unit, (rest * rest_unit) as u32)
}

/// The text of a moment of ticks.
pub fn datetime64_to_string(tz: Tz, ticks: u64, precision: usize, scale: usize) -> (r: Option<
    String,
>)
    ensures
        match r {
            Some(s) => datetime64_text(tz, ticks, precision as nat, scale as nat) == Some(s@),
            None => datetime64_text(tz, ticks, precision as nat, scale as nat) is None,
        },
{
    if precision > 9 {
        return None;
    }
    let (seconds, nanos) = split_ticks(ticks, precision);
    if seconds > i64::MAX as u64 {
        return None;
    }
    match format_local(tz, seconds as i64) {
        None => None,
        Some(base) => {
            let mut out = base;
            if scale > 0 {
                let ghost head = out@;
                out.push('.');
                let shown: u64 = if scale >= 9 {
                    nanos as u64
                } else {
                    nanos as u64 / power_of_ten(9 - scale)
                };
                push_padded(&mut out, shown, scale);
                assert(out@ =~= head + seq!['.'] + padded_text(shown as nat, scale as nat));
            }
            Some(out)
        },
    }
}

fn moment_to_rfc3339(tz: Tz, seconds: i64, nanos: u32) -> (r: Option<String>)
    requires
        0 <= seconds,
        nanos < 1_000_000_000,
    ensures
        match r {
            Some(s) => moment_rfc3339(tz, seconds as nat, nanos as nat) == Some(s@),
            None => moment_rfc3339(tz, seconds as nat, nanos as nat) is None,
        },
{
    match offset_at(tz, seconds) {
        None => None,
        Some(o) => if o as i64 > LAST_LOCAL_SECOND - seconds {
            None
        } else {
            format_rfc3339(tz, seconds, nanos)
        },
    }
}

/// The text of a moment of whole seconds in the form of RFC 3339.
pub fn datetime_to_rfc3339(tz: Tz, seconds: u32) -> (r: Option<String>)
    ensures
        match r {
            Some(s) => datetime_rfc3339(tz, seconds) == Some(s@),
            None => datetime_rfc3339(tz, seconds) is None,
        },
{
    moment_to_rfc3339(tz, seconds as i64, 0)
}

/// The text of a moment of ticks in the form of RFC 3339.
pub fn datetime64_to_rfc3339(tz: Tz, ticks: u64, precision: usize) -> (r: Option<String>)
    ensures
        match r {
            Some(s) => datetime64_rfc3339(tz, ticks, precision as nat) == Some(s@),
            None => datetime64_rfc3339(tz, ticks, precision as nat) is None,
        },
{
    if precision > 9 {
        return None;
    }
    let (seconds, nanos) = split_ticks(ticks, precision);
    if seconds > i64::MAX as u64 {
        return None;
    }
    moment_to_rfc3339(tz, seconds as i64, nanos)
}

proof fn lemma_units(n: nat)
    requires
        n <= 9,
    ensures
        pow10(n) * pow10((9 - n) as nat) == 1_000_000_000,
{
    lemma_pow10();
    let a = pow10(n);
    let b = pow10((9 - n) as nat);
    assert((a == 1 && b == 1_000_000_000) || (a == 10 && b == 100_000_000) || (a == 100 && b
        == 10_000_000) || (a == 1_000 && b == 1_000_000) || (a == 10_000 && b == 100_000) || (a
        == 100_000 && b == 10_000) || (a == 1_000_000 && b == 1_000) || (a == 10_000_000 && b
        == 100) || (a == 100_000_000 && b == 10) || (a == 1_000_000_000 && b == 1)) by {
        assert(n == 0 || n == 1 || n == 2 || n == 3 || n == 4 || n == 5 || n == 6 || n == 7 || n
            == 8 || n == 9);
    }
    if a == 1 {
    } else if a == 10 {
        assert(10 * b == 1_000_000_000);
    } else if a == 100 {
        assert(100 * b == 1_000_000_000);
    } else if a == 1_000 {
        assert(1_000 * b == 1_000_000_000);
    } else if a == 10_000 {
        assert(10_000 * b == 1_000_000_000);
    } else if a == 100_000 {
        assert(100_000 * b == 1_000_000_000);
    } else if a == 1_000_000 {
        assert(1_000_000 * b == 1_000_000_000);
    } else if a == 10_000_000 {
        assert(10_000_000 * b == 1_000_000_000);
    } else if a == 100_000_000 {
        assert(100_000_000 * b == 1_000_000_000);
    }
}

} // verus!
