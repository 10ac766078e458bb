//! How argument lists in the names of types are taken apart again.
use vstd::prelude::*;

use crate::error::TypeParseReason;
use crate::text::{
    dec_text, is_ascii_letter, is_digit, is_white, lemma_dec_text, lemma_trimmed_same, skip_front,
    trimmed,
};
use crate::type_args::{
    arg_items, args_from, find_comma, fixed_args, ident_end, in_parens, is_ident_char, scan_end,
    scan_start, scan_step, splits_here, variable_args, Scan,
};
use crate::type_display::joined;

verus! {

// ---------------------------------------------------------------------------
// Scanning
// ---------------------------------------------------------------------------

/// The scan behind a text, if no comma in it separates arguments and no parenthesis in
/// it closes one that was open before.
pub open spec fn passed_over(s: Seq<char>, st: Scan) -> Option<Scan>
    decreases s.len(),
{
    if s.len() == 0 {
        Some(st)
    } else if st.depth < 0 || (s[0] == ',' && splits_here(st)) {
        None
    } else {
        passed_over(s.skip(1), scan_step(st, s[0]))
    }
}

/// The scan within a number of parentheses.
pub open spec fn within(depth: nat) -> Scan {
    Scan { depth: depth as int, quoted: false, escaped: false }
}

/// Text that an argument list holds as one argument.
pub open spec fn is_argument(s: Seq<char>) -> bool {
    &&& s.len() > 0
    &&& !is_white(s[0])
    &&& !is_white(s.last())
    &&& s.last() != ','
    &&& passed_over(s, scan_start()) == Some(scan_start())
}

pub(crate) proof fn lemma_over_append(a: Seq<char>, b: Seq<char>, st: Scan)
    ensures
        passed_over(a + b, st) == match passed_over(a, st) {
            None => None,
            Some(m) => passed_over(b, m),
        },
    decreases a.len(),
{
    if a.len() == 0 {
        assert(a + b =~= b);
    } else {
        assert((a + b).skip(1) =~= a.skip(1) + b);
        assert((a + b)[0] == a[0]);
        if !(st.depth < 0 || (a[0] == ',' && splits_here(st))) {
            lemma_over_append(a.skip(1), b, scan_step(st, a[0]));
        }
    }
}

pub(crate) proof fn lemma_over_deeper(s: Seq<char>, st: Scan, k: nat)
    requires
        passed_over(s, st) is Some,
    ensures
        passed_over(s, (Scan { depth: st.depth + k, ..st })) == Some(
            (Scan { depth: passed_over(s, st)->0.depth + k, ..passed_over(s, st)->0 }),
        ),
    decreases s.len(),
{
    if s.len() > 0 {
        let next = scan_step(st, s[0]);
        lemma_over_deeper(s.skip(1), next, k);
        assert(scan_step((Scan { depth: st.depth + k, ..st }), s[0]) == (Scan {
            depth: next.depth + k,
            ..next
        }));
    }
}

/// An argument is passed over at any depth.
pub(crate) proof fn lemma_argument_deeper(s: Seq<char>, k: nat)
    requires
        is_argument(s),
    ensures
        passed_over(s, within(k)) == Some(within(k)),
{
    lemma_over_deeper(s, scan_start(), k);
    assert((Scan { depth: scan_start().depth + k, ..scan_start() }) == within(k));
}

/// Characters that change no scan outside of quotes.
pub open spec fn is_quiet(c: char) -> bool {
    c != '\'' && c != '(' && c != ')' && c != ','
}

/// Whether all characters are quiet.
pub open spec fn all_quiet(s: Seq<char>) -> bool {
    forall|i: int| 0 <= i < s.len() ==> is_quiet(#[trigger] s[i])
}

pub(crate) proof fn lemma_over_quiet(s: Seq<char>, k: nat)
    requires
        all_quiet(s),
    ensures
        passed_over(s, within(k)) == Some(within(k)),
    decreases s.len(),
{
    if s.len() > 0 {
        assert(is_quiet(s[0]));
        assert(scan_step(within(k), s[0]) == within(k));
        assert forall|i: int| 0 <= i < s.skip(1).len() implies is_quiet(#[trigger] s.skip(1)[i]) by {
            assert(s.skip(1)[i] == s[i + 1]);
        }
        lemma_over_quiet(s.skip(1), k);
    }
}

/// One character is passed over.
pub(crate) proof fn lemma_over_one(c: char, st: Scan)
    requires
        st.depth >= 0,
        !(c == ',' && splits_here(st)),
    ensures
        passed_over(seq![c], st) == Some(scan_step(st, c)),
{
    assert(seq![c].skip(1) =~= Seq::<char>::empty());
    assert(passed_over(Seq::<char>::empty(), scan_step(st, c)) == Some(scan_step(st, c)));
}

/// Text in parentheses is passed over where what they hold is passed over within them.
pub(crate) proof fn lemma_over_parens(inner: Seq<char>, k: nat)
    requires
        passed_over(inner, within(k + 1)) == Some(within(k + 1)),
    ensures
        passed_over(seq!['('] + inner + seq![')'], within(k)) == Some(within(k)),
{
    lemma_over_one('(', within(k));
    lemma_over_append(seq!['('], inner, within(k));
    lemma_over_append(seq!['('] + inner, seq![')'], within(k));
    lemma_over_one(')', within(k + 1));
    assert(scan_step(within(k), '(') == within(k + 1));
    assert(scan_step(within(k + 1), ')') == within(k));
}

proof fn lemma_over_in_quotes(s: Seq<char>, k: nat)
    requires
        forall|i: int| 0 <= i < s.len() ==> (#[trigger] s[i]) != '\'' && s[i] != '\\',
    ensures
        passed_over(s, (Scan { depth: k as int, quoted: true, escaped: false })) == Some(
            (Scan { depth: k as int, quoted: true, escaped: false }),
        ),
    decreases s.len(),
{
    if s.len() > 0 {
        let st = Scan { depth: k as int, quoted: true, escaped: false };
        assert(s[0] != '\'' && s[0] != '\\');
        assert(scan_step(st, s[0]) == st);
        assert forall|i: int| 0 <= i < s.skip(1).len() implies (#[trigger] s.skip(1)[i]) != '\''
            && s.skip(1)[i] != '\\' by {
            assert(s.skip(1)[i] == s[i + 1]);
        }
        lemma_over_in_quotes(s.skip(1), k);
    }
}

/// Text in quotes is passed over where it holds no quotes and no backslashes.
pub(crate) proof fn lemma_over_quoted(s: Seq<char>, k: nat)
    requires
        forall|i: int| 0 <= i < s.len() ==> (#[trigger] s[i]) != '\'' && s[i] != '\\',
    ensures
        passed_over(seq!['\''] + s + seq!['\''], within(k)) == Some(within(k)),
{
    let st = Scan { depth: k as int, quoted: true, escaped: false };
    lemma_over_one('\'', within(k));
    assert(scan_step(within(k), '\'') == st);
    lemma_over_in_quotes(s, k);
    lemma_over_append(seq!['\''], s, within(k));
    lemma_over_append(seq!['\''] + s, seq!['\''], within(k));
    lemma_over_one('\'', st);
    assert(scan_step(st, '\'') == within(k));
}

// ---------------------------------------------------------------------------
// Lists
// ---------------------------------------------------------------------------

proof fn lemma_find(s: Seq<char>, i: int, a: Seq<char>, st: Scan)
    requires
        0 <= i,
        i + a.len() <= s.len(),
        s.subrange(i, i + a.len()) == a,
        passed_over(a, st) is Some,
    ensures
        find_comma(s, i, st) == find_comma(s, i + a.len(), passed_over(a, st)->0),
        scan_end(s, i, st) == scan_end(s, i + a.len(), passed_over(a, st)->0),
    decreases a.len(),
{
    if a.len() > 0 {
        assert(s[i] == a[0]);
        assert(s.subrange(i + 1, i + 1 + a.skip(1).len()) =~= a.skip(1)) by {
            assert forall|j: int| 0 <= j < a.skip(1).len() implies s.subrange(
                i + 1,
                i + 1 + a.skip(1).len(),
            )[j] == a.skip(1)[j] by {
                assert(s.subrange(i, i + a.len())[j + 1] == a[j + 1]);
            }
        }
        lemma_find(s, i + 1, a.skip(1), scan_step(st, s[i]));
    }
}

/// The first part of several.
pub(crate) proof fn lemma_joined_front(parts: Seq<Seq<char>>)
    requires
        parts.len() >= 2,
    ensures
        joined(parts) == parts[0] + (", "@ + joined(parts.skip(1))),
    decreases parts.len(),
{
    let head = parts.drop_last();
    if parts.len() == 2 {
        assert(joined(head) == parts[0]);
        assert(parts.skip(1).len() == 1);
        assert(joined(parts.skip(1)) == parts[1]);
        assert(joined(parts) =~= parts[0] + (", "@ + parts[1]));
    } else {
        lemma_joined_front(head);
        assert(parts.skip(1).drop_last() =~= head.skip(1));
        assert(joined(parts.skip(1)) == joined(head.skip(1)) + ", "@ + parts.last());
        assert(joined(parts) =~= parts[0] + (", "@ + joined(parts.skip(1))));
    }
}

/// Whether all parts are arguments.
pub open spec fn all_arguments(parts: Seq<Seq<char>>) -> bool {
    forall|i: int| 0 <= i < parts.len() ==> is_argument(#[trigger] parts[i])
}

pub(crate) proof fn lemma_joined_ends(parts: Seq<Seq<char>>)
    requires
        parts.len() > 0,
        all_arguments(parts),
    ensures
        joined(parts).len() > 0,
        joined(parts)[0] == parts[0][0],
        joined(parts).last() == parts.last().last(),
    decreases parts.len(),
{
    assert(is_argument(parts[0]));
    assert(is_argument(parts[parts.len() - 1]));
    if parts.len() > 1 {
        let head = parts.drop_last();
        assert forall|i: int| 0 <= i < head.len() implies is_argument(#[trigger] head[i]) by {
            assert(head[i] == parts[i]);
        }
        lemma_joined_ends(head);
        let all = joined(head) + ", "@ + parts.last();
        assert(all.last() == parts.last().last());
    }
}

/// Parts are passed over within parentheses.
pub(crate) proof fn lemma_over_joined(parts: Seq<Seq<char>>, k: nat)
    requires
        all_arguments(parts),
        k > 0,
    ensures
        passed_over(joined(parts), within(k)) == Some(within(k)),
    decreases parts.len(),
{
    if parts.len() == 1 {
        assert(is_argument(parts[0]));
        lemma_argument_deeper(parts[0], k);
    } else if parts.len() > 1 {
        let head = parts.drop_last();
        assert forall|i: int| 0 <= i < head.len() implies is_argument(#[trigger] head[i]) by {
            assert(head[i] == parts[i]);
        }
        lemma_over_joined(head, k);
        assert(is_argument(parts[parts.len() - 1]));
        lemma_argument_deeper(parts.last(), k);
        reveal_strlit(", ");
        assert(", "@ =~= seq![','] + seq![' ']);
        lemma_over_one(',', within(k));
        lemma_over_one(' ', within(k));
        assert(scan_step(within(k), ',') == within(k));
        assert(scan_step(within(k), ' ') == within(k));
        lemma_over_append(seq![','], seq![' '], within(k));
        lemma_over_append(joined(head), ", "@, within(k));
        lemma_over_append(joined(head) + ", "@, parts.last(), within(k));
    }
}

/// Arguments that are all well formed.
pub open spec fn all_ok(parts: Seq<Seq<char>>) -> Seq<
    core::result::Result<Seq<char>, TypeParseReason>,
> {
    Seq::new(parts.len(), |i: int| Ok(parts[i]))
}

pub(crate) proof fn lemma_trimmed_space(p: Seq<char>)
    requires
        p.len() > 0,
        !is_white(p[0]),
        !is_white(p.last()),
    ensures
        trimmed(seq![' '] + p) == p,
        trimmed(p) == p,
{
    lemma_trimmed_same(p);
    let f = |c: char| is_white(c);
    let s = seq![' '] + p;
    assert(s[0] == ' ');
    assert(is_white(' '));
    assert(s.skip(1) =~= p);
    assert(skip_front(s, f) == skip_front(p, f));
    assert(skip_front(p, f) == p);
}

/// No space, or one.
pub open spec fn padding(padded: bool) -> Seq<char> {
    if padded {
        seq![' ']
    } else {
        Seq::empty()
    }
}

proof fn lemma_padded(padded: bool, p: Seq<char>)
    requires
        is_argument(p),
    ensures
        trimmed(padding(padded) + p) == p,
        passed_over(padding(padded) + p, scan_start()) == Some(scan_start()),
{
    lemma_trimmed_space(p);
    lemma_over_one(' ', scan_start());
    lemma_over_append(padding(padded), p, scan_start());
    if padded {
        assert(scan_step(scan_start(), ' ') == scan_start());
    } else {
        assert(padding(padded) + p =~= p);
    }
}

proof fn lemma_one_argument(padded: bool, p: Seq<char>)
    requires
        is_argument(p),
    ensures
        args_from(padding(padded) + p) == all_ok(seq![p]),
{
    let s = padding(padded) + p;
    lemma_padded(padded, p);
    assert(s.subrange(0, s.len() as int) =~= s);
    lemma_find(s, 0, s, scan_start());
    assert(find_comma(s, s.len() as int, scan_start()) is None);
    assert(scan_end(s, s.len() as int, scan_start()) == scan_start());
    assert(all_ok(seq![p]) =~= seq![Ok(p)]);
}

proof fn lemma_first_argument(padded: bool, p: Seq<char>, rest: Seq<char>)
    requires
        is_argument(p),
    ensures
        args_from(padding(padded) + p + (", "@ + rest)) == seq![
            Ok::<Seq<char>, TypeParseReason>(p),
        ] + args_from(seq![' '] + rest),
{
    let a = padding(padded) + p;
    let s = a + (", "@ + rest);
    reveal_strlit(", ");
    lemma_padded(padded, p);
    assert(s.subrange(0, a.len() as int) =~= a);
    lemma_find(s, 0, a, scan_start());
    assert(s[a.len() as int] == ',');
    assert(find_comma(s, a.len() as int, scan_start()) == Some(a.len() as int));
    assert(s.take(a.len() as int) =~= a);
    assert(s.skip(a.len() as int + 1) =~= seq![' '] + rest);
}

/// Arguments with commas between them are taken apart again.
pub(crate) proof fn lemma_args_joined(parts: Seq<Seq<char>>, padded: bool)
    requires
        parts.len() > 0,
        all_arguments(parts),
    ensures
        args_from(padding(padded) + joined(parts)) == all_ok(parts),
    decreases parts.len(),
{
    assert(is_argument(parts[0]));
    if parts.len() == 1 {
        lemma_one_argument(padded, parts[0]);
        assert(parts =~= seq![parts[0]]);
    } else {
        let tail = parts.skip(1);
        assert forall|i: int| 0 <= i < tail.len() implies is_argument(#[trigger] tail[i]) by {
            assert(tail[i] == parts[i + 1]);
        }
        lemma_joined_front(parts);
        lemma_args_joined(tail, true);
        lemma_first_argument(padded, parts[0], joined(tail));
        assert(padding(padded) + (parts[0] + (", "@ + joined(tail))) =~= padding(padded) + parts[0]
            + (", "@ + joined(tail)));
        assert(padding(true) == seq![' ']);
        assert(all_ok(parts) =~= seq![Ok(parts[0])] + all_ok(tail));
    }
}

/// An argument list is taken apart again.
pub(crate) proof fn lemma_list(parts: Seq<Seq<char>>)
    requires
        all_arguments(parts),
    ensures
        variable_args(seq!['('] + joined(parts) + seq![')']) == Ok::<_, TypeParseReason>(parts),
        forall|n: nat|
            parts.len() <= n ==> #[trigger] fixed_args(
                seq!['('] + joined(parts) + seq![')'],
                n,
            ) == Ok::<_, TypeParseReason>(parts),
{
    let inner = joined(parts);
    let s = seq!['('] + inner + seq![')'];
    assert(s.subrange(1, s.len() - 1) =~= inner);
    assert(in_parens(s));
    let items = all_ok(parts);
    if parts.len() == 0 {
        lemma_trimmed_same(inner);
        assert(find_comma(inner, 0, scan_start()) is None);
        assert(items =~= Seq::empty());
        assert(args_from(inner) =~= items);
    } else {
        lemma_joined_ends(parts);
        assert(is_argument(parts[0]));
        assert(is_argument(parts[parts.len() - 1]));
        lemma_trimmed_same(inner);
        lemma_args_joined(parts, false);
        assert(padding(false) + inner =~= inner);
    }
    assert(arg_items(s) == Ok::<_, TypeParseReason>(items));
    assert(Seq::new(items.len(), |i: int| items[i]->Ok_0) =~= parts);
}

/// One argument in parentheses.
pub(crate) proof fn lemma_single(p: Seq<char>, n: nat)
    requires
        is_argument(p),
        n >= 1,
    ensures
        variable_args(seq!['('] + p + seq![')']) == Ok::<_, TypeParseReason>(seq![p]),
        fixed_args(seq!['('] + p + seq![')'], n) == Ok::<_, TypeParseReason>(seq![p]),
        passed_over(p, within(1)) == Some(within(1)),
{
    let parts = seq![p];
    assert(joined(parts) == p);
    lemma_list(parts);
    lemma_argument_deeper(p, 1);
}

// ---------------------------------------------------------------------------
// Words
// ---------------------------------------------------------------------------

/// Letters and digits from a position on.
pub open spec fn word_from(s: Seq<char>, i: int) -> bool
    decreases s.len() - i,
{
    i < 0 || i >= s.len() || ((is_ascii_letter(s[i]) || is_digit(s[i])) && word_from(s, i + 1))
}

/// A word: a letter, and letters and digits behind it.
pub open spec fn is_word(s: Seq<char>) -> bool {
    s.len() > 0 && is_ascii_letter(s[0]) && word_from(s, 0)
}

pub(crate) proof fn lemma_word_from(s: Seq<char>, i: int)
    requires
        0 <= i,
        word_from(s, i),
    ensures
        forall|j: int| i <= j < s.len() ==> is_ascii_letter(#[trigger] s[j]) || is_digit(s[j]),
    decreases s.len() - i,
{
    if i < s.len() {
        lemma_word_from(s, i + 1);
    }
}

pub(crate) proof fn lemma_ident_run(s: Seq<char>, i: int, n: int)
    requires
        0 <= i <= n <= s.len(),
        forall|j: int| i <= j < n ==> is_ident_char(#[trigger] s[j], j == 0),
        n == s.len() || !is_ident_char(s[n], n == 0),
    ensures
        ident_end(s, i) == n,
    decreases n - i,
{
    if i < n {
        assert(is_ident_char(s[i], i == 0));
        lemma_ident_run(s, i + 1, n);
    }
}

/// A word is an identifier, alone and before a parenthesis.
pub(crate) proof fn lemma_word(id: Seq<char>, rest: Seq<char>)
    requires
        is_word(id),
        rest.len() == 0 || rest[0] == '(',
    ensures
        ident_end(id + rest, 0) == id.len(),
        (id + rest).take(id.len() as int) == id,
        (id + rest).skip(id.len() as int) == rest,
        all_quiet(id),
        !is_white(id[0]),
        !is_white(id.last()),
        id.last() != ',',
{
    lemma_word_from(id, 0);
    let s = id + rest;
    assert forall|j: int| 0 <= j < id.len() implies is_ident_char(#[trigger] s[j], j == 0) by {
        assert(s[j] == id[j]);
    }
    lemma_ident_run(s, 0, id.len() as int);
    assert(s.take(id.len() as int) =~= id);
    assert(s.skip(id.len() as int) =~= rest);
    assert forall|i: int| 0 <= i < id.len() implies is_quiet(#[trigger] id[i]) by {}
    assert(is_ascii_letter(id[id.len() - 1]) || is_digit(id[id.len() - 1]));
}

/// A word is an argument.
pub(crate) proof fn lemma_word_argument(id: Seq<char>)
    requires
        is_word(id),
    ensures
        is_argument(id),
{
    lemma_word(id, Seq::empty());
    lemma_over_quiet(id, 0);
    assert(within(0) == scan_start());
}

/// A word with an argument list is an argument.
pub(crate) proof fn lemma_call_argument(id: Seq<char>, inner: Seq<char>)
    requires
        is_word(id),
        passed_over(inner, within(1)) == Some(within(1)),
    ensures
        is_argument(id + (seq!['('] + inner + seq![')'])),
{
    let rest = seq!['('] + inner + seq![')'];
    lemma_word(id, rest);
    lemma_over_quiet(id, 0);
    lemma_over_parens(inner, 0);
    lemma_over_append(id, rest, within(0));
    assert(within(0) == scan_start());
    let s = id + rest;
    assert(s[0] == id[0]);
    assert(s.last() == ')');
}

/// The digits of a number are an argument.
pub(crate) proof fn lemma_number_argument(n: nat)
    ensures
        is_argument(dec_text(n)),
        all_quiet(dec_text(n)),
{
    lemma_dec_text(n);
    let s = dec_text(n);
    assert forall|i: int| 0 <= i < s.len() implies is_quiet(#[trigger] s[i]) by {
        assert(is_digit(s[i]));
    }
    lemma_over_quiet(s, 0);
    assert(within(0) == scan_start());
    assert(is_digit(s[0]));
    assert(is_digit(s[s.len() - 1]));
}

} // verus!
