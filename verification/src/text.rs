//! Characters, decimal numbers and UTF-8.
//!
//! Text is handled as sequences of characters, which is also how contracts see
//! it: the view of a string is the sequence of its characters.
use vstd::prelude::*;
use vstd::slice::slice_subrange;
use vstd::utf8::{decode_utf8, valid_utf8};

verus! {

// ---------------------------------------------------------------------------
// Strings and characters
// ---------------------------------------------------------------------------

/// `String::push` appends one character.
pub assume_specification[ std::string::String::push ](s: &mut std::string::String, c: char)
    ensures
        final(s)@ == old(s)@.push(c),
;

/// `String::push_str` appends a string slice.
pub assume_specification[ std::string::String::push_str ](s: &mut std::string::String, t: &str)
    ensures
        final(s)@ == old(s)@ + t@,
;

/// The characters of a string, in order.
pub fn to_chars(s: &str) -> (r: Vec<char>)
    ensures
        r@ == s@,
{
    let mut out: Vec<char> = Vec::new();
    for c in it: s.chars()
        invariant
            out@ == s@.take(it.index() as int),
            it.seq() == s@,
    {
        assert(s@.take(it.index() + 1) =~= s@.take(it.index() as int).push(c));
        out.push(c);
    }
    assert(s@.take(s@.len() as int) =~= s@);
    out
}

/// The string that holds the given characters.
pub fn from_chars(s: &[char]) -> (r: String)
    ensures
        r@ == s@,
{
    let mut out: String = String::new();
    push_chars(&mut out, s);
    out
}

/// Appends characters to a string.
pub fn push_chars(out: &mut String, s: &[char])
    ensures
        final(out)@ == old(out)@ + s@,
{
    let mut i: usize = 0;
    while i < s.len()
        invariant
            i <= s.len(),
            out@ == old(out)@ + s@.take(i as int),
        decreases s.len() - i,
    {
        assert(s@.take(i + 1) =~= s@.take(i as int).push(s@[i as int]));
        out.push(s[i]);
        i += 1;
    }
    assert(s@.take(s@.len() as int) =~= s@);
}

/// Whether the characters are those of the given string.
pub fn eq_str(s: &[char], t: &str) -> (r: bool)
    ensures
        r == (s@ == t@),
{
    let chars = to_chars(t);
    eq_chars(s, &chars)
}

/// Whether two character slices are equal.
pub fn eq_chars(s: &[char], t: &[char]) -> (r: bool)
    ensures
        r == (s@ == t@),
{
    if s.len() != t.len() {
        return false;
    }
    let mut i: usize = 0;
    while i < s.len()
        invariant
            i <= s.len(),
            s.len() == t.len(),
            forall|j: int| 0 <= j < i ==> s@[j] == t@[j],
        decreases s.len() - i,
    {
        if s[i] != t[i] {
            return false;
        }
        i += 1;
    }
    assert(s@ =~= t@);
    true
}

/// The part of `s` behind the prefix `p`.
pub open spec fn after_prefix(s: Seq<char>, p: Seq<char>) -> Option<Seq<char>> {
    if p.is_prefix_of(s) {
        Some(s.skip(p.len() as int))
    } else {
        None
    }
}

/// Removes the prefix `p`, if it is there.
pub fn strip_prefix<'a>(s: &'a [char], p: &str) -> (r: Option<&'a [char]>)
    ensures
        match r {
            Some(rest) => after_prefix(s@, p@) == Some(rest@),
            None => after_prefix(s@, p@) is None,
        },
{
    let chars = to_chars(p);
    if s.len() < chars.len() {
        return None;
    }
    let head = slice_subrange(s, 0, chars.len());
    if !eq_chars(head, &chars) {
        return None;
    }
    assert(p@.is_prefix_of(s@));
    Some(slice_subrange(s, chars.len(), s.len()))
}

/// Characters with the White_Space property.
pub open spec fn is_white(c: char) -> bool {
    let n = c as u32;
    ||| 9 <= n <= 13
    ||| n == 0x20
    ||| n == 0x85
    ||| n == 0xA0
    ||| n == 0x1680
    ||| 0x2000 <= n <= 0x200A
    ||| n == 0x2028
    ||| n == 0x2029
    ||| n == 0x202F
    ||| n == 0x205F
    ||| n == 0x3000
}

/// Whether a character is white space.
pub fn is_white_char(c: char) -> (r: bool)
    ensures
        r == is_white(c),
{
    let n: u32 = c as u32;
    (9 <= n && n <= 13) || n == 0x20 || n == 0x85 || n == 0xA0 || n == 0x1680 || (0x2000 <= n && n
        <= 0x200A) || n == 0x2028 || n == 0x2029 || n == 0x202F || n == 0x205F || n == 0x3000
}

/// ASCII letters.
pub open spec fn is_ascii_letter(c: char) -> bool {
    'a' <= c <= 'z' || 'A' <= c <= 'Z'
}

/// Whether `char::is_alphabetic` holds of a character beyond ASCII.
pub uninterp spec fn alphabetic(c: char) -> bool;

/// Calls `char::is_alphabetic`: the Unicode property Alphabetic. Among the ASCII
/// characters the letters have it, and no other.
#[verifier::external_body]
pub(crate) fn is_alphabetic(c: char) -> (r: bool)
    ensures
        r == (if c as u32 <= 127 {
            is_ascii_letter(c)
        } else {
            alphabetic(c)
        }),
{
    c.is_alphabetic()
}

/// Whether `char::is_numeric` holds of a character beyond ASCII.
pub uninterp spec fn numeric(c: char) -> bool;

/// Calls `char::is_numeric`: the Unicode categories Nd, Nl and No. Among the ASCII
/// characters the ten digits are in them, and no other.
#[verifier::external_body]
pub(crate) fn is_numeric(c: char) -> (r: bool)
    ensures
        r == (if c as u32 <= 127 {
            is_digit(c)
        } else {
            numeric(c)
        }),
{
    c.is_numeric()
}

/// `s` without its leading characters of which `f` holds.
pub open spec fn skip_front(s: Seq<char>, f: spec_fn(char) -> bool) -> Seq<char>
    decreases s.len(),
{
    if s.len() > 0 && f(s[0]) {
        skip_front(s.skip(1), f)
    } else {
        s
    }
}

/// `s` without its trailing characters of which `f` holds.
pub open spec fn skip_back(s: Seq<char>, f: spec_fn(char) -> bool) -> Seq<char>
    decreases s.len(),
{
    if s.len() > 0 && f(s.last()) {
        skip_back(s.drop_last(), f)
    } else {
        s
    }
}

/// `s` without the white space at both ends.
pub open spec fn trimmed(s: Seq<char>) -> Seq<char> {
    skip_back(skip_front(s, |c: char| is_white(c)), |c: char| is_white(c))
}

/// The character `q` and no other.
pub open spec fn same_char(q: char) -> spec_fn(char) -> bool {
    |c: char| c == q
}

/// `s` without the occurrences of `q` at both ends.
pub open spec fn unquoted(s: Seq<char>, q: char) -> Seq<char> {
    skip_back(skip_front(s, same_char(q)), same_char(q))
}

/// Removes white space at both ends.
pub fn trim<'a>(s: &'a [char]) -> (r: &'a [char])
    ensures
        r@ == trimmed(s@),
        r@.len() <= s@.len(),
{
    let ghost f = |c: char| is_white(c);
    let mut lo: usize = 0;
    assert(s@.skip(0) =~= s@);
    while lo < s.len() && is_white_char(s[lo])
        invariant
            lo <= s.len(),
            f == (|c: char| is_white(c)),
            skip_front(s@, f) == skip_front(s@.skip(lo as int), f),
        decreases s.len() - lo,
    {
        assert(s@.skip(lo as int).skip(1) =~= s@.skip(lo + 1));
        lo += 1;
    }
    let rest = slice_subrange(s, lo, s.len());
    assert(rest@ =~= s@.skip(lo as int));
    let mut hi: usize = rest.len();
    assert(rest@.take(hi as int) =~= rest@);
    while hi > 0 && is_white_char(rest[hi - 1])
        invariant
            hi <= rest.len(),
            f == (|c: char| is_white(c)),
            skip_back(rest@, f) == skip_back(rest@.take(hi as int), f),
        decreases hi,
    {
        assert(rest@.take(hi as int).drop_last() =~= rest@.take(hi - 1));
        hi -= 1;
    }
    slice_subrange(rest, 0, hi)
}

/// Removes the character `q` at both ends, as often as it stands there.
pub fn unquote<'a>(s: &'a [char], q: char) -> (r: &'a [char])
    ensures
        r@ == unquoted(s@, q),
        r@.len() <= s@.len(),
{
    let ghost f = same_char(q);
    let mut lo: usize = 0;
    assert(s@.skip(0) =~= s@);
    while lo < s.len() && s[lo] == q
        invariant
            lo <= s.len(),
            f == same_char(q),
            skip_front(s@, f) == skip_front(s@.skip(lo as int), f),
        decreases s.len() - lo,
    {
        assert(s@.skip(lo as int).skip(1) =~= s@.skip(lo + 1));
        lo += 1;
    }
    let rest = slice_subrange(s, lo, s.len());
    assert(rest@ =~= s@.skip(lo as int));
    let mut hi: usize = rest.len();
    assert(rest@.take(hi as int) =~= rest@);
    while hi > 0 && rest[hi - 1] == q
        invariant
            hi <= rest.len(),
            f == same_char(q),
            skip_back(rest@, f) == skip_back(rest@.take(hi as int), f),
        decreases hi,
    {
        assert(rest@.take(hi as int).drop_last() =~= rest@.take(hi - 1));
        hi -= 1;
    }
    slice_subrange(rest, 0, hi)
}

/// Nothing that is trimmed grows.
pub proof fn lemma_trimmed_len(s: Seq<char>)
    ensures
        trimmed(s).len() <= s.len(),
{
    lemma_skip_front_len(s, |c: char| is_white(c));
    lemma_skip_back_len(skip_front(s, |c: char| is_white(c)), |c: char| is_white(c));
}

proof fn lemma_skip_front_len(s: Seq<char>, f: spec_fn(char) -> bool)
    ensures
        skip_front(s, f).len() <= s.len(),
    decreases s.len(),
{
    if s.len() > 0 && f(s[0]) {
        lemma_skip_front_len(s.skip(1), f);
    }
}

proof fn lemma_skip_back_len(s: Seq<char>, f: spec_fn(char) -> bool)
    ensures
        skip_back(s, f).len() <= s.len(),
    decreases s.len(),
{
    if s.len() > 0 && f(s.last()) {
        lemma_skip_back_len(s.drop_last(), f);
    }
}

/// Text without white space at its ends is left as it is.
pub proof fn lemma_trimmed_same(s: Seq<char>)
    requires
        s.len() > 0 ==> !is_white(s[0]) && !is_white(s.last()),
    ensures
        trimmed(s) == s,
{
}

/// The pieces of `s` between the occurrences of `sep`.
pub open spec fn split_text(s: Seq<char>, sep: char) -> Seq<Seq<char>>
    decreases s.len(),
{
    if s.len() == 0 {
        seq![s]
    } else {
        let rest = split_text(s.skip(1), sep);
        if s[0] == sep {
            seq![Seq::<char>::empty()] + rest
        } else {
            rest.update(0, seq![s[0]] + rest[0])
        }
    }
}

pub proof fn lemma_split_nonempty(s: Seq<char>, sep: char)
    ensures
        split_text(s, sep).len() > 0,
    decreases s.len(),
{
    if s.len() > 0 {
        lemma_split_nonempty(s.skip(1), sep);
    }
}

/// The views of a sequence of strings.
pub open spec fn texts(v: Seq<String>) -> Seq<Seq<char>> {
    v.map_values(|s: String| s@)
}

/// Splits at every occurrence of `sep`.
pub fn split(s: &[char], sep: char) -> (r: Vec<String>)
    ensures
        texts(r@) == split_text(s@, sep),
{
    let mut out: Vec<String> = Vec::new();
    let mut cur: String = String::new();
    let mut i: usize = 0;
    proof {
        lemma_split_nonempty(s@, sep);
        let all = split_text(s@, sep);
        assert(all =~= all.update(0, Seq::<char>::empty() + all[0]));
        assert(texts(out@) + all =~= all);
        assert(s@.skip(0) =~= s@);
    }
    while i < s.len()
        invariant
            i <= s.len(),
            ({
                let rest = split_text(s@.skip(i as int), sep);
                &&& rest.len() > 0
                &&& split_text(s@, sep) == texts(out@) + rest.update(0, cur@ + rest[0])
            }),
        decreases s.len() - i,
    {
        let ghost rest = split_text(s@.skip(i as int), sep);
        let ghost next = split_text(s@.skip(i + 1), sep);
        let ghost before = texts(out@);
        let ghost piece = cur@;
        proof {
            assert(s@.skip(i as int).skip(1) =~= s@.skip(i + 1));
            lemma_split_nonempty(s@.skip(i + 1), sep);
        }
        if s[i] == sep {
            out.push(cur);
            cur = String::new();
            proof {
                assert(texts(out@) =~= before.push(piece));
                assert(next.update(0, cur@ + next[0]) =~= next);
                assert(rest.update(0, piece + rest[0]) =~= seq![piece] + next);
                assert(before + (seq![piece] + next) =~= before.push(piece) + next);
            }
        } else {
            cur.push(s[i]);
            proof {
                assert(piece + rest[0] =~= cur@ + next[0]);
                assert(rest.update(0, piece + rest[0]) =~= next.update(0, cur@ + next[0]));
            }
        }
        i += 1;
    }
    proof {
        let rest = split_text(s@.skip(i as int), sep);
        assert(cur@ + rest[0] =~= cur@);
        assert(rest.update(0, cur@ + rest[0]) =~= seq![cur@]);
    }
    let ghost before = texts(out@);
    let ghost piece = cur@;
    out.push(cur);
    assert(texts(out@) =~= before + seq![piece]);
    out
}

// ---------------------------------------------------------------------------
// Decimal numbers
// ---------------------------------------------------------------------------

/// The ASCII digits.
pub open spec fn is_digit(c: char) -> bool {
    '0' <= c <= '9'
}

/// The number that a digit stands for.
pub open spec fn digit_value(c: char) -> nat {
    (c as u32 - '0' as u32) as nat
}

/// The digit that stands for a number below ten.
pub open spec fn digit_char(d: nat) -> char {
    ('0' as u32 + d) as char
}

/// One or more digits, and nothing else.
pub open spec fn all_digits(s: Seq<char>) -> bool {
    s.len() > 0 && forall|i: int| 0 <= i < s.len() ==> is_digit(#[trigger] s[i])
}

/// The number that a sequence of digits stands for.
pub open spec fn dec_value(s: Seq<char>) -> nat
    decreases s.len(),
{
    if s.len() == 0 {
        0
    } else {
        dec_value(s.drop_last()) * 10 + digit_value(s.last())
    }
}

/// The digits of a number, without leading zeros.
pub open spec fn dec_text(n: nat) -> Seq<char>
    decreases n,
{
    if n < 10 {
        seq![digit_char(n)]
    } else {
        dec_text(n / 10).push(digit_char(n % 10))
    }
}

/// The digits of an integer, behind a minus sign where it is negative.
pub open spec fn int_text(x: int) -> Seq<char> {
    if x < 0 {
        seq!['-'] + dec_text((-x) as nat)
    } else {
        dec_text(x as nat)
    }
}

/// What an unsigned integer of at most `max` reads as: digits, with an optional plus sign.
pub open spec fn parsed_uint(s: Seq<char>, max: nat) -> Option<nat> {
    let body = if s.len() > 0 && s[0] == '+' {
        s.skip(1)
    } else {
        s
    };
    if all_digits(body) && dec_value(body) <= max {
        Some(dec_value(body))
    } else {
        None
    }
}

/// What a signed integer within bounds reads as: digits, with an optional sign.
pub open spec fn parsed_int(s: Seq<char>, min: int, max: int) -> Option<int> {
    if s.len() > 0 && s[0] == '-' {
        let body = s.skip(1);
        if all_digits(body) && min <= -(dec_value(body) as int) {
            Some(-(dec_value(body) as int))
        } else {
            None
        }
    } else {
        match parsed_uint(s, max as nat) {
            Some(n) => Some(n as int),
            None => None,
        }
    }
}

proof fn lemma_dec_value_prefix(s: Seq<char>, i: int)
    requires
        0 <= i <= s.len(),
    ensures
        dec_value(s.take(i)) <= dec_value(s),
    decreases s.len(),
{
    if i < s.len() {
        assert(s.drop_last().take(i) =~= s.take(i));
        lemma_dec_value_prefix(s.drop_last(), i);
    } else {
        assert(s.take(i) =~= s);
    }
}

/// Reads digits as a number of at most `max`.
fn parse_digits(s: &[char], max: u64) -> (r: Option<u64>)
    ensures
        match r {
            Some(n) => all_digits(s@) && dec_value(s@) == n && n <= max,
            None => !(all_digits(s@) && dec_value(s@) <= max),
        },
{
    if s.len() == 0 {
        return None;
    }
    let mut acc: u64 = 0;
    let mut i: usize = 0;
    while i < s.len()
        invariant
            i <= s.len(),
            acc <= max,
            acc == dec_value(s@.take(i as int)),
            forall|j: int| 0 <= j < i ==> is_digit(#[trigger] s@[j]),
        decreases s.len() - i,
    {
        let c = s[i];
        if c < '0' || '9' < c {
            return None;
        }
        let d: u64 = (c as u32 - '0' as u32) as u64;
        proof {
            assert(s@.take(i + 1).drop_last() =~= s@.take(i as int));
            lemma_dec_value_prefix(s@, i + 1);
        }
        if d > max || acc > (max - d) / 10 {
            assert(acc * 10 + d > max);
            return None;
        }
        acc = acc * 10 + d;
        i += 1;
    }
    assert(s@.take(s@.len() as int) =~= s@);
    Some(acc)
}

/// Reads an unsigned integer of at most `max`.
pub fn parse_uint(s: &[char], max: u64) -> (r: Option<u64>)
    ensures
        match r {
            Some(n) => parsed_uint(s@, max as nat) == Some(n as nat),
            None => parsed_uint(s@, max as nat) is None,
        },
{
    if s.len() > 0 && s[0] == '+' {
        let body = slice_subrange(s, 1, s.len());
        assert(body@ =~= s@.skip(1));
        parse_digits(body, max)
    } else {
        parse_digits(s, max)
    }
}

/// Reads a signed integer between `min` and `max`.
pub fn parse_int(s: &[char], min: i64, max: i64) -> (r: Option<i64>)
    requires
        min < 0 <= max,
    ensures
        match r {
            Some(n) => parsed_int(s@, min as int, max as int) == Some(n as int),
            None => parsed_int(s@, min as int, max as int) is None,
        },
{
    if s.len() > 0 && s[0] == '-' {
        let body = slice_subrange(s, 1, s.len());
        assert(body@ =~= s@.skip(1));
        let limit: u64 = (-(min + 1)) as u64 + 1;
        match parse_digits(body, limit) {
            Some(n) => {
                if n == 0 {
                    Some(0)
                } else {
                    Some(-((n - 1) as i64) - 1)
                }
            },
            None => None,
        }
    } else {
        match parse_uint(s, max as u64) {
            Some(n) => Some(n as i64),
            None => None,
        }
    }
}

/// Appends the digits of a number.
pub fn push_dec(out: &mut String, n: u128)
    ensures
        final(out)@ == old(out)@ + dec_text(n as nat),
    decreases n,
{
    if n >= 10 {
        push_dec(out, n / 10);
    }
    let d: u8 = (n % 10) as u8;
    let ghost before = out@;
    out.push((48 + d) as char);
    proof {
        if n >= 10 {
            assert(before.push(digit_char((n % 10) as nat)) =~= old(out)@ + dec_text(n as nat));
        } else {
            assert(before.push(digit_char((n % 10) as nat)) =~= old(out)@ + dec_text(n as nat));
        }
    }
}

/// The digits of an unsigned integer.
pub fn uint_to_string(n: u128) -> (r: String)
    ensures
        r@ == dec_text(n as nat),
{
    let mut out: String = String::new();
    push_dec(&mut out, n);
    assert(out@ =~= dec_text(n as nat));
    out
}

/// The digits of a signed integer.
pub fn int_to_string(x: i128) -> (r: String)
    ensures
        r@ == int_text(x as int),
{
    let mut out: String = String::new();
    if x < 0 {
        out.push('-');
        assert(out@ =~= seq!['-']);
        push_dec(&mut out, (-(x + 1)) as u128 + 1);
    } else {
        push_dec(&mut out, x as u128);
    }
    assert(out@ =~= int_text(x as int));
    out
}

/// Reading the digits of a number gives the number back.
pub proof fn lemma_dec_text(n: nat)
    ensures
        all_digits(dec_text(n)),
        dec_value(dec_text(n)) == n,
        dec_text(n)[0] != '+',
        dec_text(n)[0] != '-',
    decreases n,
{
    if n < 10 {
        assert(dec_text(n).drop_last() =~= Seq::<char>::empty());
        assert(dec_value(Seq::<char>::empty()) == 0);
    } else {
        lemma_dec_text(n / 10);
        assert(dec_text(n).drop_last() =~= dec_text(n / 10));
    }
}

/// Writing an unsigned integer and reading it gives it back.
pub proof fn law_uint_text_reads_back(n: nat, max: nat)
    requires
        n <= max,
    ensures
        parsed_uint(dec_text(n), max) == Some(n),
{
    lemma_dec_text(n);
}

/// Writing a signed integer and reading it gives it back.
pub proof fn law_int_text_reads_back(x: int, min: int, max: int)
    requires
        min <= x <= max,
        min < 0 <= max,
    ensures
        parsed_int(int_text(x), min, max) == Some(x),
{
    if x < 0 {
        lemma_dec_text((-x) as nat);
        assert(int_text(x).skip(1) =~= dec_text((-x) as nat));
    } else {
        lemma_dec_text(x as nat);
    }
}

// ---------------------------------------------------------------------------
// Order
// ---------------------------------------------------------------------------

/// Lexicographic order of characters, which is the order of strings.
pub open spec fn text_le(a: Seq<char>, b: Seq<char>) -> bool
    decreases a.len(),
{
    if a.len() == 0 {
        true
    } else if b.len() == 0 {
        false
    } else if a[0] != b[0] {
        a[0] < b[0]
    } else {
        text_le(a.skip(1), b.skip(1))
    }
}

/// Whether `a` stands before `b`, or equals it.
pub fn chars_le(a: &[char], b: &[char]) -> (r: bool)
    ensures
        r == text_le(a@, b@),
{
    let mut i: usize = 0;
    assert(a@.skip(0) =~= a@);
    assert(b@.skip(0) =~= b@);
    while i < a.len() && i < b.len()
        invariant
            i <= a.len(),
            i <= b.len(),
            text_le(a@, b@) == text_le(a@.skip(i as int), b@.skip(i as int)),
        decreases a.len() - i,
    {
        if a[i] != b[i] {
            return a[i] < b[i];
        }
        assert(a@.skip(i as int).skip(1) =~= a@.skip(i + 1));
        assert(b@.skip(i as int).skip(1) =~= b@.skip(i + 1));
        i += 1;
    }
    i == a.len()
}

pub proof fn lemma_text_le_refl(a: Seq<char>)
    ensures
        text_le(a, a),
    decreases a.len(),
{
    if a.len() > 0 {
        lemma_text_le_refl(a.skip(1));
    }
}

pub proof fn lemma_text_le_total(a: Seq<char>, b: Seq<char>)
    ensures
        text_le(a, b) || text_le(b, a),
    decreases a.len(),
{
    if a.len() > 0 && b.len() > 0 && a[0] == b[0] {
        lemma_text_le_total(a.skip(1), b.skip(1));
    }
}

pub proof fn lemma_text_le_antisym(a: Seq<char>, b: Seq<char>)
    requires
        text_le(a, b),
        text_le(b, a),
    ensures
        a == b,
    decreases a.len(),
{
    if a.len() > 0 && b.len() > 0 {
        lemma_text_le_antisym(a.skip(1), b.skip(1));
        assert(a =~= seq![a[0]] + a.skip(1));
        assert(b =~= seq![b[0]] + b.skip(1));
    } else {
        assert(a =~= b);
    }
}

pub proof fn lemma_text_le_trans(a: Seq<char>, b: Seq<char>, c: Seq<char>)
    requires
        text_le(a, b),
        text_le(b, c),
    ensures
        text_le(a, c),
    decreases a.len(),
{
    if a.len() > 0 && b.len() > 0 && c.len() > 0 && a[0] == b[0] && b[0] == c[0] {
        lemma_text_le_trans(a.skip(1), b.skip(1), c.skip(1));
    }
}

// ---------------------------------------------------------------------------
// UTF-8
// ---------------------------------------------------------------------------

/// Calls `String::from_utf8`, which succeeds on valid UTF-8 and keeps its text.
#[verifier::external_body]
pub(crate) fn string_from_utf8(bytes: Vec<u8>) -> (r: Option<String>)
    ensures
        match r {
            Some(s) => valid_utf8(bytes@) && s@ == decode_utf8(bytes@),
            None => !valid_utf8(bytes@),
        },
{
    String::from_utf8(bytes).ok()
}

/// The text that `String::from_utf8_lossy` makes of bytes that are not valid UTF-8.
pub uninterp spec fn repaired_text(bytes: Seq<u8>) -> Seq<char>;

/// The text of bytes, repaired where they are not valid UTF-8.
pub open spec fn lossy_text(bytes: Seq<u8>) -> Seq<char> {
    if valid_utf8(bytes) {
        decode_utf8(bytes)
    } else {
        repaired_text(bytes)
    }
}

/// Calls `String::from_utf8_lossy`, which keeps the text of valid UTF-8.
#[verifier::external_body]
pub(crate) fn string_from_utf8_lossy(bytes: &[u8]) -> (r: String)
    ensures
        r@ == (if valid_utf8(bytes@) {
            decode_utf8(bytes@)
        } else {
            repaired_text(bytes@)
        }),
{
    String::from_utf8_lossy(bytes).into_owned()
}

} // verus!
