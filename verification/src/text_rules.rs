//! How numbers, identifiers and addresses read as texts.
use vstd::arithmetic::div_mod::lemma_div_denominator;
use vstd::arithmetic::power::{lemma_pow0, lemma_pow1, lemma_pow_adds, lemma_pow_positive, pow};
use vstd::prelude::*;

use crate::text::{
    all_digits, dec_text, dec_value, digit_value, int_text, is_digit, is_white, lemma_dec_text,
    parsed_int, parsed_uint, skip_back, skip_front, split_text, text_le, trimmed,
};
use crate::value_text::{
    date32_text, date_text, datetime64_text, datetime_text, day_text, decimal_text, escaped_byte,
    escaped_bytes, hex_text, ipv4_text, local_text, lower_hex, padded_text, pow10, short_hex,
    uuid_text, widened, zero_chars,
};

verus! {

// ---------------------------------------------------------------------------
// Numbers
// ---------------------------------------------------------------------------

/// The digits.
pub open spec fn digits() -> Seq<char> {
    seq!['0', '1', '2', '3', '4', '5', '6', '7', '8', '9']
}

/// A number below ten reads as its digit; any other as a tenth of it with the digit of the
/// ones behind it.
pub proof fn law_texts_of_numbers(n: nat, d: nat)
    requires
        d < 10,
    ensures
        dec_text(d) == seq![digits()[d as int]],
        n > 0 ==> dec_text(10 * n + d) == dec_text(n).push(digits()[d as int]),
        int_text(n as int) == dec_text(n),
        n > 0 ==> int_text(-(n as int)) == seq!['-'] + dec_text(n),
{
    lemma_digit_chars(d);
    assert((10 * n + d) / 10 == n && (10 * n + d) % 10 == d);
}

proof fn lemma_digit_chars(d: nat)
    requires
        d < 10,
    ensures
        crate::text::digit_char(d) == digits()[d as int],
        digit_value(digits()[d as int]) == d,
        is_digit(digits()[d as int]),
{
    let c = crate::text::digit_char(d);
    assert(c as u32 == 48 + d);
    let e = digits()[d as int];
    assert(e as u32 == 48 + d);
}

/// A text of digits reads as the number that they are, if it is no greater than is allowed;
/// a plus may stand before it, and before a signed one a minus. Any other text is no number.
pub proof fn law_numbers_in_texts(s: Seq<char>, d: nat, max: nat)
    requires
        d < 10,
    ensures
        s.len() == 0 ==> parsed_uint(s, max) is None,
        d <= max ==> parsed_uint(seq![digits()[d as int]], max) == Some(d),
        all_digits(s) && dec_value(s) <= max ==> parsed_uint(s, max) == Some(dec_value(s)),
        all_digits(s) && dec_value(s) > max ==> parsed_uint(s, max) is None,
        dec_value(s.push(digits()[d as int])) == 10 * dec_value(s) + d,
        all_digits(s) ==> parsed_uint(seq!['+'] + s, max) == parsed_uint(s, max),
        (exists|i: int| 0 < i < s.len() && !is_digit(#[trigger] s[i])) ==> parsed_uint(s, max) is None,
{
    lemma_digit_chars(d);
    let one = seq![digits()[d as int]];
    assert(one.drop_last() =~= Seq::<char>::empty());
    assert(dec_value(one.drop_last()) == 0);
    assert(all_digits(one)) by {
        assert forall|i: int| 0 <= i < one.len() implies is_digit(#[trigger] one[i]) by {}
    }
    assert(one[0] != '+');
    let more = s.push(digits()[d as int]);
    assert(more.drop_last() =~= s);
    if all_digits(s) {
        assert(is_digit(s[0]));
        assert(s[0] != '+');
        assert((seq!['+'] + s).skip(1) =~= s);
    }
    if exists|i: int| 0 < i < s.len() && !is_digit(#[trigger] s[i]) {
        let i = choose|i: int| 0 < i < s.len() && !is_digit(#[trigger] s[i]);
        let t = s.skip(1);
        assert(t[i - 1] == s[i]);
        assert(!all_digits(s));
        assert(!all_digits(t));
    }
}

/// The same of signed numbers.
pub proof fn law_signed_numbers_in_texts(s: Seq<char>, min: int, max: int)
    requires
        all_digits(s),
        min <= 0 <= max,
    ensures
        dec_value(s) <= max ==> parsed_int(s, min, max) == Some(dec_value(s) as int),
        dec_value(s) > max ==> parsed_int(s, min, max) is None,
        min <= -(dec_value(s) as int) ==> parsed_int(seq!['-'] + s, min, max) == Some(
            -(dec_value(s) as int),
        ),
        -(dec_value(s) as int) < min ==> parsed_int(seq!['-'] + s, min, max) is None,
{
    assert(is_digit(s[0]));
    assert((seq!['-'] + s).skip(1) =~= s);
}

// ---------------------------------------------------------------------------
// Order and parts of texts
// ---------------------------------------------------------------------------

/// Texts are ordered by their first characters that differ, and a text stands before every
/// longer one that begins with it.
pub proof fn law_order_of_texts(a: Seq<char>, c: char, d: char, s: Seq<char>, t: Seq<char>)
    requires
        c < d,
    ensures
        text_le(a + (seq![c] + s), a + (seq![d] + t)),
        !text_le(a + (seq![d] + t), a + (seq![c] + s)),
        text_le(a, a + s),
        s.len() > 0 ==> !text_le(a + s, a),
    decreases a.len(),
{
    if a.len() == 0 {
        assert(a + (seq![c] + s) =~= seq![c] + s);
        assert(a + (seq![d] + t) =~= seq![d] + t);
        assert(a + s =~= s);
    } else {
        law_order_of_texts(a.skip(1), c, d, s, t);
        assert((a + (seq![c] + s)).skip(1) =~= a.skip(1) + (seq![c] + s));
        assert((a + (seq![d] + t)).skip(1) =~= a.skip(1) + (seq![d] + t));
        assert((a + s).skip(1) =~= a.skip(1) + s);
    }
}

/// A text without the separator is one part; otherwise what stands before the first separator
/// is the first part, and what stands behind it is split likewise.
pub proof fn law_parts_between_separators(a: Seq<char>, b: Seq<char>, sep: char)
    requires
        forall|i: int| 0 <= i < a.len() ==> #[trigger] a[i] != sep,
    ensures
        split_text(a, sep) == seq![a],
        split_text(a + (seq![sep] + b), sep) == seq![a] + split_text(b, sep),
    decreases a.len(),
{
    if a.len() == 0 {
        assert(a + (seq![sep] + b) =~= seq![sep] + b);
        assert((seq![sep] + b).skip(1) =~= b);
        assert(split_text(a, sep) =~= seq![a]);
        assert(a =~= Seq::<char>::empty());
        assert(seq![Seq::<char>::empty()] + split_text(b, sep) =~= seq![a] + split_text(b, sep));
    } else {
        let tail = a.skip(1);
        assert forall|i: int| 0 <= i < tail.len() implies #[trigger] tail[i] != sep by {
            assert(tail[i] == a[i + 1]);
        }
        law_parts_between_separators(tail, b, sep);
        let whole = a + (seq![sep] + b);
        assert(whole.skip(1) =~= tail + (seq![sep] + b));
        assert(whole[0] == a[0]);
        assert(seq![a[0]] + tail =~= a);
        let rest = seq![tail] + split_text(b, sep);
        assert(rest[0] == tail);
        assert(rest.update(0, a) =~= seq![a] + split_text(b, sep));
        assert(seq![tail].update(0, a) =~= seq![a]);
        assert(seq![tail][0] == tail);
    }
}

/// Blanks, tabs and line ends are taken off both ends of a text, and letters, digits and signs
/// are not.
pub proof fn law_trimming(s: Seq<char>, c: char)
    ensures
        is_white(' ') && is_white('\t') && is_white('\n') && is_white('\r'),
        0x20 < c as u32 && (c as u32) < 0x7F ==> !is_white(c),
        is_white(c) ==> trimmed(seq![c] + s) == trimmed(s),
        s.len() > 0 && !is_white(s[0]) && !is_white(s.last()) ==> trimmed(s) == s,
        s.len() > 0 && !is_white(s[0]) && !is_white(s.last()) && is_white(c) ==> trimmed(
            s.push(c),
        ) == s,
{
    let f = |x: char| is_white(x);
    assert((seq![c] + s).skip(1) =~= s);
    if s.len() > 0 && !is_white(s[0]) && !is_white(s.last()) {
        assert(skip_front(s, f) == s);
        assert(skip_back(s, f) == s);
        let more = s.push(c);
        assert(more[0] == s[0]);
        assert(skip_front(more, f) == more);
        if is_white(c) {
            assert(more.last() == c);
            assert(more.drop_last() =~= s);
            assert(skip_back(more, f) == skip_back(s, f));
        }
    }
}

// ---------------------------------------------------------------------------
// Decimals
// ---------------------------------------------------------------------------

/// Powers of ten.
pub proof fn law_powers_of_ten(n: nat)
    ensures
        pow10(n) == pow(10, n),
    decreases n,
{
    if n == 0 {
        lemma_pow0(10);
    } else {
        law_powers_of_ten((n - 1) as nat);
        lemma_pow_adds(10, 1, (n - 1) as nat);
        lemma_pow1(10);
    }
}

proof fn lemma_short_text(n: nat, k: nat)
    requires
        k > 0,
        n < pow10(k),
    ensures
        dec_text(n).len() <= k,
    decreases k,
{
    if n >= 10 {
        assert(pow10(k) == 10 * pow10((k - 1) as nat));
        if k == 1 {
            assert(pow10(0) == 1);
        }
        lemma_short_text(n / 10, (k - 1) as nat);
    }
}

proof fn lemma_text_split(n: nat, k: nat)
    requires
        k > 0,
        n >= pow10(k),
    ensures
        pow10(k) > 0,
        dec_text(n) == dec_text(n / pow10(k)) + padded_text(n % pow10(k), k),
        padded_text(n % pow10(k), k).len() == k,
    decreases k,
{
    lemma_pow10_positive(k);
    let p = pow10(k);
    let m = n % p;
    lemma_short_text(m, k);
    assert(pow10(0) == 1);
    assert(p == 10 * pow10((k - 1) as nat));
    if k == 1 {
        assert(p == 10);
        assert(dec_text(m) == seq![crate::text::digit_char(m)]);
        assert(padded_text(m, 1) == dec_text(m));
        assert(dec_text(n) =~= dec_text(n / 10) + dec_text(m));
    } else {
        let q = pow10((k - 1) as nat);
        lemma_pow10_positive((k - 1) as nat);
        let a = n / 10;
        assert(a >= q) by (nonlinear_arith)
            requires
                n >= 10 * q,
                a == n / 10,
        ;
        lemma_text_split(a, (k - 1) as nat);
        lemma_div_denominator(n as int, 10, q as int);
        assert(a / q == n / p);
        lemma_nested_rest(n, q);
        let b = a % q;
        assert(m == 10 * b + n % 10);
        lemma_padded_step(b, n % 10, (k - 1) as nat);
        assert(dec_text(n) == dec_text(a).push(crate::text::digit_char(n % 10)));
        assert(dec_text(n) =~= dec_text(a / q) + padded_text(b, (k - 1) as nat).push(
            crate::text::digit_char(n % 10),
        ));
    }
}

proof fn lemma_nested_rest(n: nat, q: nat)
    requires
        q > 0,
    ensures
        n % (10 * q) == 10 * ((n / 10) % q) + n % 10,
{
    vstd::arithmetic::div_mod::lemma_mod_breakdown(n as int, 10, q as int);
}

proof fn lemma_pow10_positive(k: nat)
    ensures
        pow10(k) > 0,
    decreases k,
{
    if k > 0 {
        lemma_pow10_positive((k - 1) as nat);
    }
}

proof fn lemma_padded_step(b: nat, d: nat, k: nat)
    requires
        k > 0,
        d < 10,
        b < pow10(k),
    ensures
        padded_text(10 * b + d, k + 1) == padded_text(b, k).push(crate::text::digit_char(d)),
{
    lemma_short_text(b, k);
    let n = 10 * b + d;
    if b == 0 {
        assert(dec_text(n) == seq![crate::text::digit_char(d)]);
        assert(dec_text(0) == seq![crate::text::digit_char(0)]);
        assert(crate::text::digit_char(0) == '0');
        assert(padded_text(n, k + 1) =~= zero_chars(k).push(crate::text::digit_char(d)));
        assert(padded_text(0, k) =~= zero_chars(k));
    } else {
        assert(n / 10 == b && n % 10 == d);
        assert(dec_text(n) == dec_text(b).push(crate::text::digit_char(d)));
        assert(padded_text(n, k + 1) =~= padded_text(b, k).push(crate::text::digit_char(d)));
    }
}

/// A decimal reads as its whole part, a point, and as many digits behind it as its scale, with
/// a minus before it if it is negative.
pub proof fn law_point_in_decimals(n: nat, scale: nat)
    ensures
        scale == 0 ==> decimal_text(dec_text(n), scale) == dec_text(n),
        scale > 0 ==> {
            let p = pow10(scale);
            let text = dec_text(n / p) + seq!['.'] + padded_text(n % p, scale);
            &&& padded_text(n % p, scale).len() == scale
            &&& decimal_text(dec_text(n), scale) == text
            &&& decimal_text(seq!['-'] + dec_text(n), scale) == seq!['-'] + text
        },
{
    lemma_dec_text(n);
    let s = dec_text(n);
    assert(is_digit(s[0]));
    if scale > 0 {
        let p = pow10(scale);
        lemma_pow10_positive(scale);
        lemma_short_text(n % p, scale);
        assert((seq!['-'] + s).skip(1) =~= s);
        let w = widened(s, scale + 1);
        let f = padded_text(n % p, scale);
        assert(f.len() == scale);
        if n >= p {
            lemma_text_split(n, scale);
            lemma_long_text(n, scale);
            assert(w == s);
            assert(w.take(w.len() - scale) =~= dec_text(n / p));
            assert(w.skip(w.len() - scale) =~= f);
        } else {
            vstd::arithmetic::div_mod::lemma_small_mod(n, p);
            vstd::arithmetic::div_mod::lemma_basic_div(n as int, p as int);
            lemma_short_text(n, scale);
            assert(dec_text(0) == seq![crate::text::digit_char(0)]);
            assert(crate::text::digit_char(0) == '0');
            assert(w =~= dec_text(0) + f);
            assert(w.take(1) =~= dec_text(0));
            assert(w.skip(1) =~= f);
        }
    }
}

proof fn lemma_long_text(n: nat, k: nat)
    requires
        k > 0,
        n >= pow10(k),
    ensures
        dec_text(n).len() >= k + 1,
{
    lemma_text_split(n, k);
    lemma_dec_text(n / pow10(k));
}

// ---------------------------------------------------------------------------
// Identifiers and addresses
// ---------------------------------------------------------------------------

/// The digits of numbers in base sixteen.
pub open spec fn hex_digits() -> Seq<char> {
    seq!['0', '1', '2', '3', '4', '5', '6', '7', '8', '9', 'a', 'b', 'c', 'd', 'e', 'f']
}

proof fn lemma_hex_chars(d: nat)
    requires
        d < 16,
    ensures
        lower_hex(d) == hex_digits()[d as int],
{
    if d < 10 {
        assert(lower_hex(d) as u32 == 48 + d);
    } else {
        assert(lower_hex(d) as u32 == 87 + d);
    }
    assert(hex_digits()[d as int] as u32 == lower_hex(d) as u32);
}

/// A number in base sixteen with so many digits has the highest first.
pub proof fn law_hex_texts(n: nat, k: nat, i: int)
    requires
        0 <= i < k,
    ensures
        hex_text(n, k).len() == k,
        hex_text(n, k)[i] == hex_digits()[(n as int / pow(16, (k - 1 - i) as nat)) % 16],
    decreases k,
{
    lemma_hex_len(n, k);
    lemma_hex_chars(n % 16);
    if i < k - 1 {
        law_hex_texts(n / 16, (k - 1) as nat, i);
        let e = (k - 1 - i) as nat;
        lemma_pow_adds(16, 1, (e - 1) as nat);
        lemma_pow1(16);
        lemma_pow_positive(16, (e - 1) as nat);
        lemma_div_denominator(n as int, 16, pow(16, (e - 1) as nat));
        assert(hex_text(n, k)[i] == hex_text(n / 16, (k - 1) as nat)[i]);
    } else {
        lemma_pow0(16);
        assert(n as int / 1 == n);
    }
}

proof fn lemma_hex_len(n: nat, k: nat)
    ensures
        hex_text(n, k).len() == k,
    decreases k,
{
    if k > 0 {
        lemma_hex_len(n / 16, (k - 1) as nat);
    }
}

/// An identifier reads as its thirty-two digits in base sixteen, in groups of eight, four, four,
/// four and twelve with dashes between them.
pub proof fn law_identifier_texts(n: nat)
    ensures
        ({
            let s = uuid_text(n);
            let h = hex_text(n, 32);
            &&& s.len() == 36
            &&& s[8] == '-' && s[13] == '-' && s[18] == '-' && s[23] == '-'
            &&& forall|i: int| 0 <= i < 8 ==> #[trigger] s[i] == h[i]
            &&& forall|i: int| 9 <= i < 13 ==> #[trigger] s[i] == h[i - 1]
            &&& forall|i: int| 14 <= i < 18 ==> #[trigger] s[i] == h[i - 2]
            &&& forall|i: int| 19 <= i < 23 ==> #[trigger] s[i] == h[i - 3]
            &&& forall|i: int| 24 <= i < 36 ==> #[trigger] s[i] == h[i - 4]
        }),
{
    lemma_hex_len(n, 32);
}

/// An address of four bytes reads as its bytes from the highest on, with points between them.
pub proof fn law_address_texts(a: u8, b: u8, c: u8, d: u8)
    ensures
        ipv4_text((a * 0x100_0000 + b * 0x1_0000 + c * 0x100 + d) as u32) == dec_text(a as nat)
            + seq!['.'] + dec_text(b as nat) + seq!['.'] + dec_text(c as nat) + seq!['.']
            + dec_text(d as nat),
{
    let x = a as int * 0x100_0000 + b as int * 0x1_0000 + c as int * 0x100 + d as int;
    assert(0 <= x <= u32::MAX);
    assert(x / 0x100_0000 == a);
    assert(x / 0x1_0000 % 0x100 == b);
    assert(x / 0x100 % 0x100 == c);
    assert(x % 0x100 == d);
}

/// A group of an address in base sixteen has no digits zero before it.
pub proof fn law_short_hex(n: nat, d: nat)
    requires
        d < 16,
    ensures
        short_hex(d) == seq![hex_digits()[d as int]],
        n > 0 ==> short_hex(16 * n + d) == short_hex(n).push(hex_digits()[d as int]),
{
    lemma_hex_chars(d);
    assert((16 * n + d) / 16 == n && (16 * n + d) % 16 == d);
}

// ---------------------------------------------------------------------------
// Strings
// ---------------------------------------------------------------------------

/// How bytes stand between quotes: a quote, a backslash and bytes that are no signs behind a
/// backslash, bytes of more than seven bits in base sixteen, and all others as they are.
pub proof fn law_escaped_bytes(b: u8, s: Seq<u8>, t: Seq<u8>)
    ensures
        escaped_byte(0x27) == seq!['\\', '\''],
        escaped_byte(0x5C) == seq!['\\', '\\'],
        escaped_byte(0x0A) == seq!['\\', 'n'],
        escaped_byte(0x0D) == seq!['\\', 'r'],
        escaped_byte(0x09) == seq!['\\', 't'],
        escaped_byte(0x00) == seq!['\\', '0'],
        escaped_byte(0x08) == seq!['\\', 'b'],
        escaped_byte(0x0C) == seq!['\\', 'f'],
        escaped_byte(0x07) == seq!['\\', 'a'],
        escaped_byte(0x0B) == seq!['\\', 'v'],
        0x20 <= b < 0x7F && b != 0x27 && b != 0x5C ==> escaped_byte(b) == seq![b as char],
        escaped_bytes(s.push(b)) == escaped_bytes(s) + escaped_byte(b),
        escaped_bytes(Seq::empty()).len() == 0,
{
    assert(s.push(b).drop_last() =~= s);
}

// ---------------------------------------------------------------------------
// Dates
// ---------------------------------------------------------------------------

/// How many days there are in the years before a year, of which the first is the year one.
pub open spec fn days_before_year(year: int) -> int {
    (year - 1) * 365 + (year - 1) / 4 - (year - 1) / 100 + (year - 1) / 400
}

/// Dates count days from the first of 1970, and dates of 32 bits from the first of 1900.
pub proof fn law_first_days(days: u16, many: i32)
    ensures
        date_text(days) == day_text(days_before_year(1970) + 1 + days),
        many <= 0x7000_0000 ==> date32_text(many) == day_text(days_before_year(1900) + 1 + many),
{
    assert(1969int / 4 == 492 && 1969int / 100 == 19 && 1969int / 400 == 4);
    assert(1899int / 4 == 474 && 1899int / 100 == 18 && 1899int / 400 == 4);
}

/// A time reads as its second in the zone; one with a precision has as many digits of it
/// behind a point.
pub proof fn law_times_with_fractions(tz: chrono_tz::Tz, seconds: u32, ticks: u64, p: nat)
    requires
        p <= 9,
        ticks as nat / pow10(p) <= i64::MAX,
    ensures
        datetime_text(tz, seconds) == local_text(tz, seconds as int),
        local_text(tz, (ticks as nat / pow10(p)) as int) is None ==> datetime64_text(
            tz,
            ticks,
            p,
            p,
        ) is None,
        local_text(tz, (ticks as nat / pow10(p)) as int) matches Some(s) ==> datetime64_text(
            tz,
            ticks,
            p,
            p,
        ) == Some(
            if p == 0 {
                s
            } else {
                s + seq!['.'] + padded_text(ticks as nat % pow10(p), p)
            },
        ),
{
    lemma_pow10_positive(p);
    if 0 < p {
        let r = ticks as nat % pow10(p);
        let q = pow10((9 - p) as nat);
        lemma_pow10_positive((9 - p) as nat);
        assert(pow10(0) == 1);
        if p < 9 {
            assert((r * q) / q == r) by (nonlinear_arith)
                requires
                    q > 0,
            ;
        } else {
            assert(r * 1 == r);
        }
    }
}

} // verus!
