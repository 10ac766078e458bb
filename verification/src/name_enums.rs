//! How the options of enumerations are read back from the names of their types.
use vstd::prelude::*;

use crate::error::TypeParseReason;
use crate::name_scan::{
    lemma_over_append, lemma_over_one, lemma_over_quiet, passed_over, within, is_quiet,
};
use crate::text::{
    dec_text, int_text, is_digit, is_white, law_int_text_reads_back, lemma_dec_text,
    lemma_trimmed_same,
};
use crate::type_args::{args_inner, in_parens, scan_step, Scan};
use crate::type_display::{escaped, joined, option_text};
use crate::type_parse::{enum_options, enum_run, enum_start, enum_step, EnumParseState, EnumScan};

verus! {

/// The texts of options.
pub open spec fn wide_texts(v: Seq<(Seq<char>, int)>) -> Seq<Seq<char>> {
    Seq::new(v.len(), |i: int| option_text(v[i].0, v[i].1))
}

/// A scan, or why there is none.
pub type EnumScanned = core::result::Result<EnumScan, TypeParseReason>;

proof fn lemma_run_shift(a: Seq<char>, b: Seq<char>, j: int, st: EnumScan, min: int, max: int)
    requires
        0 <= j <= b.len(),
    ensures
        enum_run(a + b, a.len() + j, st, min, max) == enum_run(b, j, st, min, max),
    decreases b.len() - j,
{
    if j < b.len() {
        assert((a + b)[a.len() + j] == b[j]);
        if let Ok(next) = enum_step(st, b[j], min, max) {
            lemma_run_shift(a, b, j + 1, next, min, max);
        }
    }
}

proof fn lemma_run_split(a: Seq<char>, b: Seq<char>, i: int, st: EnumScan, min: int, max: int)
    requires
        0 <= i <= a.len(),
    ensures
        enum_run(a + b, i, st, min, max) == match enum_run(a, i, st, min, max) {
            Err(e) => Err(e),
            Ok(m) => enum_run(a + b, a.len() as int, m, min, max),
        },
    decreases a.len() - i,
{
    if i < a.len() {
        assert((a + b)[i] == a[i]);
        if let Ok(next) = enum_step(st, a[i], min, max) {
            lemma_run_split(a, b, i + 1, next, min, max);
        }
    }
}

proof fn lemma_run_append(a: Seq<char>, b: Seq<char>, st: EnumScan, min: int, max: int)
    ensures
        enum_run(a + b, 0, st, min, max) == match enum_run(a, 0, st, min, max) {
            Err(e) => Err(e),
            Ok(m) => enum_run(b, 0, m, min, max),
        },
{
    lemma_run_split(a, b, 0, st, min, max);
    if let Ok(m) = enum_run(a, 0, st, min, max) {
        lemma_run_shift(a, b, 0, m, min, max);
    }
}

proof fn lemma_run_one(c: char, st: EnumScan, min: int, max: int)
    ensures
        enum_run(seq![c], 0, st, min, max) == enum_step(st, c, min, max),
{
    if let Ok(next) = enum_step(st, c, min, max) {
        assert(enum_run(seq![c], 1, next, min, max) == Ok::<_, TypeParseReason>(next));
    }
}

proof fn lemma_run_name(name: Seq<char>, st: EnumScan, min: int, max: int)
    requires
        st.state == EnumParseState::InName,
        !st.escaped,
    ensures
        enum_run(escaped(name), 0, st, min, max) == Ok::<_, TypeParseReason>(
            (EnumScan { name: st.name + name, ..st }),
        ),
    decreases name.len(),
{
    if name.len() == 0 {
        assert(st.name + name =~= st.name);
    } else {
        let head = name.drop_last();
        let c = name.last();
        lemma_run_name(head, st, min, max);
        let mid = EnumScan { name: st.name + head, ..st };
        assert((st.name + head).push(c) =~= st.name + name);
        if c == '\'' || c == '\\' {
            let a = escaped(head);
            assert(escaped(name) =~= a + seq!['\\'] + seq![c]);
            lemma_run_append(a, seq!['\\'], st, min, max);
            lemma_run_one('\\', mid, min, max);
            let esc = EnumScan { escaped: true, ..mid };
            assert(enum_step(mid, '\\', min, max) == Ok::<_, TypeParseReason>(esc));
            lemma_run_append(a + seq!['\\'], seq![c], st, min, max);
            lemma_run_one(c, esc, min, max);
        } else {
            assert(escaped(name) =~= escaped(head) + seq![c]);
            lemma_run_append(escaped(head), seq![c], st, min, max);
            lemma_run_one(c, mid, min, max);
        }
    }
}

proof fn lemma_run_value(digits: Seq<char>, st: EnumScan, min: int, max: int)
    requires
        st.state == EnumParseState::InValue,
        forall|i: int| 0 <= i < digits.len() ==> (#[trigger] digits[i]) != ',' && !is_white(digits[i]),
    ensures
        enum_run(digits, 0, st, min, max) == Ok::<_, TypeParseReason>(
            (EnumScan { value: st.value + digits, ..st }),
        ),
    decreases digits.len(),
{
    if digits.len() == 0 {
        assert(st.value + digits =~= st.value);
    } else {
        let head = digits.drop_last();
        let c = digits.last();
        assert forall|i: int| 0 <= i < head.len() implies (#[trigger] head[i]) != ','
            && !is_white(head[i]) by {
            assert(head[i] == digits[i]);
        }
        lemma_run_value(head, st, min, max);
        let mid = EnumScan { value: st.value + head, ..st };
        assert(digits[digits.len() - 1] == c);
        assert((st.value + head).push(c) =~= st.value + digits);
        assert(digits =~= head + seq![c]);
        lemma_run_append(head, seq![c], st, min, max);
        lemma_run_one(c, mid, min, max);
    }
}

/// The text of an integer holds digits, and a minus sign at most.
pub(crate) proof fn lemma_int_chars(x: int)
    ensures
        int_text(x).len() > 0,
        forall|i: int|
            0 <= i < int_text(x).len() ==> is_digit(#[trigger] int_text(x)[i]) || int_text(x)[i]
                == '-',
        is_digit(int_text(x).last()),
{
    if x < 0 {
        let d = dec_text((-x) as nat);
        lemma_dec_text((-x) as nat);
        let s = int_text(x);
        assert forall|i: int| 0 <= i < s.len() implies is_digit(#[trigger] s[i]) || s[i] == '-' by {
            if i > 0 {
                assert(s[i] == d[i - 1]);
            }
        }
        assert(s.last() == d[d.len() - 1]);
    } else {
        let d = dec_text(x as nat);
        lemma_dec_text(x as nat);
        assert(d.last() == d[d.len() - 1]);
    }
}

/// The scan before an option, behind others.
spec fn before_option(options: Seq<(Seq<char>, int)>) -> EnumScan {
    EnumScan {
        state: EnumParseState::ExpectQuote,
        name: Seq::empty(),
        value: Seq::empty(),
        escaped: false,
        options,
    }
}

/// The scan behind an option, behind others.
spec fn behind_option(options: Seq<(Seq<char>, int)>, name: Seq<char>, value: int) -> EnumScan {
    EnumScan {
        state: EnumParseState::InValue,
        name,
        value: int_text(value),
        escaped: false,
        options,
    }
}

proof fn lemma_run_option(
    name: Seq<char>,
    value: int,
    options: Seq<(Seq<char>, int)>,
    min: int,
    max: int,
)
    ensures
        enum_run(option_text(name, value), 0, before_option(options), min, max) == Ok::<
            _,
            TypeParseReason,
        >(behind_option(options, name, value)),
{
    reveal_strlit("'");
    reveal_strlit("' = ");
    let st0 = before_option(options);
    let a = "'"@;
    let b = escaped(name);
    let c = "' = "@;
    let d = int_text(value);
    let st1 = EnumScan { state: EnumParseState::InName, ..st0 };
    let st2 = EnumScan { name, ..st1 };
    let st3 = EnumScan { state: EnumParseState::ExpectEqual, ..st2 };
    let st4 = EnumScan { state: EnumParseState::InValue, ..st2 };
    assert(a =~= seq!['\'']);
    lemma_run_one('\'', st0, min, max);
    lemma_run_append(a, b, st0, min, max);
    lemma_run_name(name, st1, min, max);
    assert(st1.name + name =~= name);
    lemma_run_append(a + b, c, st0, min, max);
    assert(c =~= seq!['\''] + seq![' '] + seq!['='] + seq![' ']);
    lemma_run_append(seq!['\''], seq![' '], st2, min, max);
    lemma_run_one('\'', st2, min, max);
    lemma_run_one(' ', st3, min, max);
    assert(is_white(' '));
    lemma_run_append(seq!['\''] + seq![' '], seq!['='], st2, min, max);
    lemma_run_one('=', st3, min, max);
    assert(!is_white('='));
    lemma_run_append(seq!['\''] + seq![' '] + seq!['='], seq![' '], st2, min, max);
    lemma_run_one(' ', st4, min, max);
    lemma_run_append(a + b + c, d, st0, min, max);
    lemma_int_chars(value);
    lemma_run_value(d, st4, min, max);
    assert(st4.value + d =~= d);
}

proof fn lemma_run_options(v: Seq<(Seq<char>, int)>, min: int, max: int)
    requires
        v.len() > 0,
        min < 0 <= max,
        forall|i: int| 0 <= i < v.len() ==> min <= (#[trigger] v[i]).1 <= max,
    ensures
        enum_run(joined(wide_texts(v)), 0, enum_start(), min, max) == Ok::<_, TypeParseReason>(
            behind_option(v.drop_last(), v.last().0, v.last().1),
        ),
    decreases v.len(),
{
    let parts = wide_texts(v);
    let last = v.last();
    if v.len() == 1 {
        assert(joined(parts) == option_text(last.0, last.1));
        lemma_run_option(last.0, last.1, Seq::empty(), min, max);
        assert(v.drop_last() =~= Seq::empty());
        assert(enum_start() == before_option(Seq::empty()));
    } else {
        let head = v.drop_last();
        assert(parts.drop_last() =~= wide_texts(head));
        assert forall|i: int| 0 <= i < head.len() implies min <= (#[trigger] head[i]).1 <= max by {
            assert(head[i] == v[i]);
        }
        lemma_run_options(head, min, max);
        let p = head.last();
        assert(min <= v[head.len() - 1].1 <= max);
        let st0 = behind_option(head.drop_last(), p.0, p.1);
        let st1 = before_option(head);
        reveal_strlit(", ");
        assert(", "@ =~= seq![','] + seq![' ']);
        law_int_text_reads_back(p.1, min, max);
        assert(head.drop_last().push((p.0, p.1)) =~= head);
        lemma_run_one(',', st0, min, max);
        assert(enum_step(st0, ',', min, max) == Ok::<_, TypeParseReason>(st1));
        lemma_run_one(' ', st1, min, max);
        assert(is_white(' '));
        lemma_run_append(seq![','], seq![' '], st0, min, max);
        let front = joined(parts.drop_last());
        lemma_run_append(front, ", "@, enum_start(), min, max);
        lemma_run_append(front + ", "@, parts.last(), enum_start(), min, max);
        lemma_run_option(last.0, last.1, head, min, max);
    }
}

proof fn lemma_joined_texts_ends(v: Seq<(Seq<char>, int)>)
    requires
        v.len() > 0,
    ensures
        joined(wide_texts(v)).len() > 0,
        joined(wide_texts(v))[0] == '\'',
        is_digit(joined(wide_texts(v)).last()),
    decreases v.len(),
{
    reveal_strlit("'");
    let parts = wide_texts(v);
    let last = v.last();
    lemma_int_chars(last.1);
    assert(parts.last() == option_text(last.0, last.1));
    assert(parts.last().last() == int_text(last.1).last());
    if v.len() > 1 {
        lemma_joined_texts_ends(v.drop_last());
        assert(parts.drop_last() =~= wide_texts(v.drop_last()));
        assert(joined(parts).last() == parts.last().last());
    }
}

/// The options of an enumeration are read back, whatever their names are.
pub proof fn law_options_read_back(v: Seq<(Seq<char>, int)>, min: int, max: int)
    requires
        min < 0 <= max,
        forall|i: int| 0 <= i < v.len() ==> min <= (#[trigger] v[i]).1 <= max,
    ensures
        enum_options(seq!['('] + joined(wide_texts(v)) + seq![')'], min, max) == Ok::<
            _,
            TypeParseReason,
        >(v),
{
    let inner = joined(wide_texts(v));
    let s = seq!['('] + inner + seq![')'];
    assert(s.subrange(1, s.len() - 1) =~= inner);
    assert(in_parens(s));
    if v.len() == 0 {
        assert(wide_texts(v).len() == 0);
        lemma_trimmed_same(inner);
        assert(v =~= Seq::empty());
    } else {
        lemma_joined_texts_ends(v);
        lemma_trimmed_same(inner);
        assert(args_inner(s) == inner);
        lemma_run_options(v, min, max);
        let last = v.last();
        assert(min <= v[v.len() - 1].1 <= max);
        law_int_text_reads_back(last.1, min, max);
        lemma_int_chars(last.1);
        assert(v.drop_last().push((last.0, last.1)) =~= v);
    }
}

// ---------------------------------------------------------------------------
// Within other types
// ---------------------------------------------------------------------------

spec fn quoted_scan(k: nat, escaped: bool) -> Scan {
    Scan { depth: k as int, quoted: true, escaped }
}

proof fn lemma_over_name(name: Seq<char>, k: nat)
    ensures
        passed_over(escaped(name), quoted_scan(k, false)) == Some(
            quoted_scan(k, name.len() > 0 && name.last() == '\\'),
        ),
    decreases name.len(),
{
    if name.len() > 0 {
        let head = name.drop_last();
        let c = name.last();
        lemma_over_name(head, k);
        let st = passed_over(escaped(head), quoted_scan(k, false))->0;
        if c == '\'' || c == '\\' {
            let a = escaped(head);
            assert(escaped(name) =~= a + seq!['\\'] + seq![c]);
            lemma_over_append(a, seq!['\\'], quoted_scan(k, false));
            lemma_over_one('\\', st);
            assert(scan_step(st, '\\') == quoted_scan(k, true));
            lemma_over_append(a + seq!['\\'], seq![c], quoted_scan(k, false));
            lemma_over_one(c, quoted_scan(k, true));
        } else {
            assert(escaped(name) =~= escaped(head) + seq![c]);
            lemma_over_append(escaped(head), seq![c], quoted_scan(k, false));
            lemma_over_one(c, st);
        }
    }
}

pub(crate) proof fn lemma_over_option(name: Seq<char>, value: int, k: nat)
    requires
        name.len() == 0 || name.last() != '\\',
    ensures
        passed_over(option_text(name, value), within(k)) == Some(within(k)),
{
    reveal_strlit("'");
    reveal_strlit("' = ");
    let a = "'"@;
    let b = escaped(name);
    let c = "' = "@;
    let d = int_text(value);
    assert(a =~= seq!['\'']);
    lemma_over_one('\'', within(k));
    assert(scan_step(within(k), '\'') == quoted_scan(k, false));
    lemma_over_append(a, b, within(k));
    lemma_over_name(name, k);
    let e = seq![' ', '=', ' '];
    assert(c =~= seq!['\''] + e);
    lemma_over_append(a + b, c, within(k));
    lemma_over_append(seq!['\''], e, quoted_scan(k, false));
    lemma_over_one('\'', quoted_scan(k, false));
    assert(scan_step(quoted_scan(k, false), '\'') == within(k));
    lemma_over_quiet(e, k);
    lemma_over_append(a + b + c, d, within(k));
    lemma_int_chars(value);
    assert forall|i: int| 0 <= i < d.len() implies is_quiet(#[trigger] d[i]) by {}
    lemma_over_quiet(d, k);
}

/// The options of an enumeration leave no quotes open where no name ends in a backslash.
pub proof fn law_options_are_passed_over(v: Seq<(Seq<char>, int)>)
    requires
        forall|i: int|
            0 <= i < v.len() ==> (#[trigger] v[i]).0.len() == 0 || v[i].0.last() != '\\',
    ensures
        passed_over(joined(wide_texts(v)), within(1)) == Some(within(1)),
    decreases v.len(),
{
    let parts = wide_texts(v);
    if v.len() > 0 {
        let last = v.last();
        assert(v[v.len() - 1].0.len() == 0 || v[v.len() - 1].0.last() != '\\');
        lemma_over_option(last.0, last.1, 1);
        assert(parts.last() == option_text(last.0, last.1));
        if v.len() > 1 {
            let head = v.drop_last();
            assert forall|i: int| 0 <= i < head.len() implies (#[trigger] head[i]).0.len() == 0
                || head[i].0.last() != '\\' by {
                assert(head[i] == v[i]);
            }
            law_options_are_passed_over(head);
            assert(parts.drop_last() =~= wide_texts(head));
            let front = joined(wide_texts(head));
            reveal_strlit(", ");
            assert(", "@ =~= seq![','] + seq![' ']);
            lemma_over_one(',', within(1));
            lemma_over_one(' ', within(1));
            assert(scan_step(within(1), ',') == within(1));
            assert(scan_step(within(1), ' ') == within(1));
            lemma_over_append(seq![','], seq![' '], within(1));
            lemma_over_append(front, ", "@, within(1));
            lemma_over_append(front + ", "@, parts.last(), within(1));
        }
    }
}

} // verus!
