//! The types that values have are told apart by their names, so that the type of an array
//! depends on neither the order of its values nor on its nulls.
use vstd::prelude::*;

use crate::guess::{all_guessed, common, guessed, guesses, law_guesses, types_named};
use crate::name_enums::{lemma_int_chars, lemma_over_option};
use crate::name_laws::{
    lemma_call_text, lemma_datetime64_text, lemma_pair, lemma_zone, listed, quoted,
};
use crate::name_scan::{
    all_arguments, is_argument, is_word, lemma_call_argument, lemma_list, lemma_number_argument,
    lemma_over_joined, lemma_word, lemma_word_argument, within, word_from,
};
use crate::name_words::{
    lemma_call_marks, lemma_call_words_a, lemma_call_words_b, lemma_number_words,
    lemma_other_words, lemma_plain_marks, marks,
};
use crate::text::{dec_text, int_text, law_int_text_reads_back, law_uint_text_reads_back};
use crate::type_args::scan_start;
use crate::type_display::{
    escaped, joined, lemma_type_texts, option_text, option_texts16, option_texts8, type_text,
    type_texts, zones_named,
};
use crate::type_order::{law_order_does_not_matter, law_sorted_types, names_differ, sorted_types};
use crate::types::{is_name_of, zone_name, TypeView};
use crate::values::ValueView;

verus! {

// ---------------------------------------------------------------------------
// Types that values have
// ---------------------------------------------------------------------------

/// Whether a value can have the type of itself. Its time zones are told by their names.
pub open spec fn of_a_value(t: TypeView) -> bool
    decreases t,
{
    match t {
        TypeView::Binary
        | TypeView::FixedSizedBinary(_)
        | TypeView::FixedSizedString(_)
        | TypeView::Nothing
        | TypeView::LowCardinality(_)
        | TypeView::TupleNamed(_)
        | TypeView::JSON { .. } => false,
        TypeView::DateTime(tz) => is_name_of(zone_name(tz), tz),
        TypeView::DateTime64(_, tz) => is_name_of(zone_name(tz), tz),
        TypeView::Enum8(v) => v.len() == 1 && v[0].0.len() == 0,
        TypeView::Enum16(v) => v.len() == 1 && v[0].0.len() == 0,
        TypeView::Array(x) => of_a_value(*x),
        TypeView::Nullable(x) => of_a_value(*x),
        TypeView::MapOf(k, x) => of_a_value(*k) && of_a_value(*x),
        TypeView::Tuple(v) => forall|i: int| 0 <= i < v.len() ==> of_a_value(#[trigger] v[i]),
        TypeView::Variant(v) => forall|i: int| 0 <= i < v.len() ==> of_a_value(#[trigger] v[i]),
        TypeView::Dynamic { max_types } => max_types is None,
        _ => true,
    }
}

proof fn lemma_parts_named(t: TypeView, v: Seq<TypeView>, i: int)
    requires
        t == TypeView::Tuple(v) || t == TypeView::Variant(v),
        zones_named(t),
        0 <= i < v.len(),
    ensures
        zones_named(v[i]),
{
    reveal_with_fuel(zones_named, 2);
    match t {
        TypeView::Tuple(u) => {
            assert(forall|j: int| 0 <= j < u.len() ==> zones_named(#[trigger] u[j]));
        },
        TypeView::Variant(u) => {
            assert(forall|j: int| 0 <= j < u.len() ==> zones_named(#[trigger] u[j]));
        },
        _ => {},
    }
}

proof fn lemma_common(ts: Seq<TypeView>)
    requires
        zones_named(common(ts)),
        forall|i: int| 0 <= i < ts.len() && zones_named(ts[i]) ==> of_a_value(#[trigger] ts[i]),
    ensures
        of_a_value(common(ts)),
{
    broadcast use vstd::seq_lib::group_to_multiset_ensures;

    if ts.len() > 1 {
        law_sorted_types(ts);
        let sorted = sorted_types(ts);
        assert forall|i: int| 0 <= i < sorted.len() implies of_a_value(#[trigger] sorted[i]) by {
            assert(sorted.contains(sorted[i]));
            assert(ts.to_multiset().count(sorted[i]) > 0);
            assert(ts.contains(sorted[i]));
            let k = choose|k: int| 0 <= k < ts.len() && ts[k] == sorted[i];
            lemma_parts_named(common(ts), sorted, i);
            assert(of_a_value(ts[k]));
        }
    } else if ts.len() == 1 {
        assert(of_a_value(ts[0]));
    }
}

proof fn lemma_guesses_of_values(s: Seq<ValueView>)
    ensures
        forall|i: int|
            0 <= i < guesses(s).len() && zones_named(guesses(s)[i]) ==> of_a_value(
                #[trigger] guesses(s)[i],
            ),
    decreases s,
{
    if s.len() > 0 {
        let head = s.subrange(0, s.len() - 1);
        lemma_guesses_of_values(head);
        if zones_named(guessed(s[s.len() - 1])) {
            law_guessed_of_a_value(s[s.len() - 1]);
        }
        let all = guesses(s);
        assert forall|i: int| 0 <= i < all.len() && zones_named(all[i]) implies of_a_value(
            #[trigger] all[i],
        ) by {
            if i < guesses(head).len() {
                assert(all[i] == guesses(head)[i]);
            }
        }
    }
}

proof fn lemma_all_of_values(s: Seq<ValueView>)
    ensures
        all_guessed(s).len() == s.len(),
        forall|i: int|
            0 <= i < s.len() && zones_named(all_guessed(s)[i]) ==> of_a_value(
                #[trigger] all_guessed(s)[i],
            ),
    decreases s,
{
    if s.len() > 0 {
        let head = s.subrange(0, s.len() - 1);
        lemma_all_of_values(head);
        if zones_named(guessed(s[s.len() - 1])) {
            law_guessed_of_a_value(s[s.len() - 1]);
        }
        let all = all_guessed(s);
        assert forall|i: int| 0 <= i < all.len() && zones_named(all[i]) implies of_a_value(
            #[trigger] all[i],
        ) by {
            if i < head.len() {
                assert(all[i] == all_guessed(head)[i]);
            }
        }
    }
}

/// The type that is guessed for a value is one that a value can have.
pub proof fn law_guessed_of_a_value(v: ValueView)
    requires
        zones_named(guessed(v)),
    ensures
        of_a_value(guessed(v)),
    decreases v,
{
    match v {
        ValueView::Array(s) => {
            lemma_guesses_of_values(s);
            lemma_common(guesses(s));
        },
        ValueView::Tuple(s) => {
            lemma_all_of_values(s);
            let ts = all_guessed(s);
            assert forall|i: int| 0 <= i < ts.len() implies of_a_value(#[trigger] ts[i]) by {
                lemma_parts_named(guessed(v), ts, i);
            }
        },
        ValueView::MapOf(k, s) => {
            lemma_guesses_of_values(k);
            lemma_guesses_of_values(s);
            lemma_common(guesses(k));
            lemma_common(guesses(s));
            let r = guessed(v);
            assert(r is MapOf);
            assert(of_a_value(*(r->MapOf_0)) && of_a_value(*(r->MapOf_1)));
            assert(of_a_value(r));
        },
        ValueView::Variant(_, x) => {
            let ts = seq![guessed(*x)];
            assert(guessed(v) == TypeView::Variant(ts));
            lemma_parts_named(guessed(v), ts, 0);
            law_guessed_of_a_value(*x);
            assert forall|i: int| 0 <= i < ts.len() implies of_a_value(#[trigger] ts[i]) by {
                assert(ts[i] == ts[0]);
            }
            assert(of_a_value(TypeView::Variant(ts)));
        },
        ValueView::Enum8(_, _) | ValueView::Enum16(_, _) => {
            assert(of_a_value(guessed(v)));
        },
        ValueView::Null => {
            assert(of_a_value(TypeView::String));
            assert(of_a_value(guessed(v)));
        },
        _ => {
            assert(of_a_value(guessed(v)));
        },
    }
}

// ---------------------------------------------------------------------------
// Names
// ---------------------------------------------------------------------------

/// The word that the name of a type begins with.
spec fn word(t: TypeView) -> Seq<char> {
    match t {
        TypeView::Decimal32(_) => "Decimal32"@,
        TypeView::Decimal64(_) => "Decimal64"@,
        TypeView::Decimal128(_) => "Decimal128"@,
        TypeView::Decimal256(_) => "Decimal256"@,
        TypeView::DateTime(_) => "DateTime"@,
        TypeView::DateTime64(_, _) => "DateTime64"@,
        TypeView::Enum8(_) => "Enum8"@,
        TypeView::Enum16(_) => "Enum16"@,
        TypeView::Array(_) => "Array"@,
        TypeView::Nullable(_) => "Nullable"@,
        TypeView::MapOf(_, _) => "Map"@,
        TypeView::Tuple(_) => "Tuple"@,
        TypeView::Variant(_) => "Variant"@,
        _ => type_text(t),
    }
}

/// The arguments in the name of a type.
spec fn arguments(t: TypeView) -> Option<Seq<Seq<char>>> {
    match t {
        TypeView::Decimal32(n) => Some(seq![dec_text(n as nat)]),
        TypeView::Decimal64(n) => Some(seq![dec_text(n as nat)]),
        TypeView::Decimal128(n) => Some(seq![dec_text(n as nat)]),
        TypeView::Decimal256(n) => Some(seq![dec_text(n as nat)]),
        TypeView::DateTime(tz) => Some(seq![quoted(zone_name(tz))]),
        TypeView::DateTime64(n, tz) => Some(seq![dec_text(n as nat), quoted(zone_name(tz))]),
        TypeView::Enum8(v) => Some(seq![option_text(v[0].0, v[0].1 as int)]),
        TypeView::Enum16(v) => Some(seq![option_text(v[0].0, v[0].1 as int)]),
        TypeView::Array(x) => Some(seq![type_text(*x)]),
        TypeView::Nullable(x) => Some(seq![type_text(*x)]),
        TypeView::MapOf(k, x) => Some(seq![type_text(*k), type_text(*x)]),
        TypeView::Tuple(v) => Some(type_texts(v)),
        TypeView::Variant(v) => Some(type_texts(v)),
        _ => None,
    }
}

/// What stands behind the word.
spec fn behind(t: TypeView) -> Seq<char> {
    match arguments(t) {
        None => Seq::empty(),
        Some(parts) => listed(joined(parts)),
    }
}

proof fn lemma_bool()
    ensures
        is_word("Bool"@),
        marks("Bool"@) == (4nat, 'B', 'l'),
{
    reveal_strlit("Bool");
    reveal_with_fuel(word_from, 6);
}

proof fn lemma_words(t: TypeView)
    requires
        of_a_value(t),
    ensures
        is_word(word(t)),
{
    lemma_bool();
    lemma_number_words();
    lemma_other_words();
    lemma_call_words_a();
    lemma_call_words_b();
}

/// The marks of the word of a type: its length, its first letter and its last one.
spec fn marked(t: TypeView) -> (nat, char, char) {
    match t {
        TypeView::Int8 => (4, 'I', '8'),
        TypeView::Int16 => (5, 'I', '6'),
        TypeView::Int32 => (5, 'I', '2'),
        TypeView::Int64 => (5, 'I', '4'),
        TypeView::Int128 => (6, 'I', '8'),
        TypeView::Int256 => (6, 'I', '6'),
        TypeView::UInt8 => (5, 'U', '8'),
        TypeView::UInt16 => (6, 'U', '6'),
        TypeView::UInt32 => (6, 'U', '2'),
        TypeView::UInt64 => (6, 'U', '4'),
        TypeView::UInt128 => (7, 'U', '8'),
        TypeView::UInt256 => (7, 'U', '6'),
        TypeView::Float32 => (7, 'F', '2'),
        TypeView::Float64 => (7, 'F', '4'),
        TypeView::String => (6, 'S', 'g'),
        TypeView::Uuid => (4, 'U', 'D'),
        TypeView::Date => (4, 'D', 'e'),
        TypeView::Date32 => (6, 'D', '2'),
        TypeView::Ipv4 => (4, 'I', '4'),
        TypeView::Ipv6 => (4, 'I', '6'),
        TypeView::Point => (5, 'P', 't'),
        TypeView::Ring => (4, 'R', 'g'),
        TypeView::Polygon => (7, 'P', 'n'),
        TypeView::MultiPolygon => (12, 'M', 'n'),
        TypeView::Object => (6, 'O', 't'),
        TypeView::Bool => (4, 'B', 'l'),
        TypeView::Decimal32(_) => (9, 'D', '2'),
        TypeView::Decimal64(_) => (9, 'D', '4'),
        TypeView::Decimal128(_) => (10, 'D', '8'),
        TypeView::Decimal256(_) => (10, 'D', '6'),
        TypeView::DateTime(_) => (8, 'D', 'e'),
        TypeView::DateTime64(_, _) => (10, 'D', '4'),
        TypeView::Enum8(_) => (5, 'E', '8'),
        TypeView::Enum16(_) => (6, 'E', '6'),
        TypeView::Array(_) => (5, 'A', 'y'),
        TypeView::Nullable(_) => (8, 'N', 'e'),
        TypeView::MapOf(_, _) => (3, 'M', 'p'),
        TypeView::Tuple(_) => (5, 'T', 'e'),
        TypeView::Variant(_) => (7, 'V', 't'),
        TypeView::Dynamic { .. } => (7, 'D', 'c'),
        _ => (0, ' ', ' '),
    }
}

#[verifier::spinoff_prover]
#[verifier::rlimit(40)]
proof fn lemma_marked(t: TypeView)
    requires
        of_a_value(t),
    ensures
        marks(word(t)) == marked(t),
{
    lemma_bool();
    lemma_plain_marks();
    lemma_call_marks();
}

proof fn lemma_option(x: int)
    ensures
        option_text(Seq::empty(), x) == "'' = "@ + int_text(x),
{
    reveal_strlit("'");
    reveal_strlit("' = ");
    reveal_strlit("'' = ");
    assert(escaped(Seq::<char>::empty()) =~= Seq::<char>::empty());
    assert("'"@ + Seq::<char>::empty() + "' = "@ =~= "'' = "@);
}

proof fn lemma_one(p: Seq<char>)
    ensures
        joined(seq![p]) == p,
        is_argument(p) ==> all_arguments(seq![p]),
{
    assert(seq![p][0] == p);
}

#[verifier::spinoff_prover]
#[verifier::rlimit(60)]
proof fn lemma_shape(t: TypeView)
    requires
        of_a_value(t),
    ensures
        type_text(t) == word(t) + behind(t),
{
    lemma_call_words_a();
    lemma_call_words_b();
    match t {
        TypeView::Decimal32(n) => {
            lemma_one(dec_text(n as nat));
            lemma_call_text("Decimal32"@, "Decimal32("@, dec_text(n as nat));
        },
        TypeView::Decimal64(n) => {
            lemma_one(dec_text(n as nat));
            lemma_call_text("Decimal64"@, "Decimal64("@, dec_text(n as nat));
        },
        TypeView::Decimal128(n) => {
            lemma_one(dec_text(n as nat));
            lemma_call_text("Decimal128"@, "Decimal128("@, dec_text(n as nat));
        },
        TypeView::Decimal256(n) => {
            lemma_one(dec_text(n as nat));
            lemma_call_text("Decimal256"@, "Decimal256("@, dec_text(n as nat));
        },
        TypeView::DateTime(tz) => {
            let p = quoted(zone_name(tz));
            lemma_one(p);
            reveal_strlit("DateTime('");
            reveal_strlit("DateTime");
            reveal_strlit("')");
            assert("DateTime('"@ =~= "DateTime"@ + seq!['('] + seq!['\'']);
            assert("')"@ =~= seq!['\''] + seq![')']);
            assert(type_text(t) =~= "DateTime"@ + listed(p));
        },
        TypeView::DateTime64(n, tz) => {
            lemma_number_argument(n as nat);
            lemma_zone(tz);
            lemma_pair(dec_text(n as nat), quoted(zone_name(tz)));
            lemma_datetime64_text(n, tz);
        },
        TypeView::Enum8(v) => {
            let p = option_text(v[0].0, v[0].1 as int);
            assert(option_texts8(v) =~= seq![p]);
            lemma_one(p);
            lemma_call_text("Enum8"@, "Enum8("@, p);
        },
        TypeView::Enum16(v) => {
            let p = option_text(v[0].0, v[0].1 as int);
            assert(option_texts16(v) =~= seq![p]);
            lemma_one(p);
            lemma_call_text("Enum16"@, "Enum16("@, p);
        },
        TypeView::Array(x) => {
            lemma_one(type_text(*x));
            lemma_call_text("Array"@, "Array("@, type_text(*x));
        },
        TypeView::Nullable(x) => {
            lemma_one(type_text(*x));
            lemma_call_text("Nullable"@, "Nullable("@, type_text(*x));
        },
        TypeView::MapOf(k, x) => {
            let parts = seq![type_text(*k), type_text(*x)];
            assert(parts.drop_last() =~= seq![type_text(*k)]);
            lemma_one(type_text(*k));
            assert(joined(parts) == type_text(*k) + ", "@ + type_text(*x));
            lemma_call_text("Map"@, "Map("@, joined(parts));
            assert("Map("@ + type_text(*k) + ", "@ + type_text(*x) =~= "Map("@ + joined(parts));
        },
        TypeView::Tuple(v) => {
            lemma_call_text("Tuple"@, "Tuple("@, joined(type_texts(v)));
        },
        TypeView::Variant(v) => {
            lemma_call_text("Variant"@, "Variant("@, joined(type_texts(v)));
        },
        _ => {
            assert(type_text(t) + Seq::<char>::empty() =~= type_text(t));
        },
    }
}

proof fn lemma_quoted_number(x: int, min: int, max: int)
    requires
        min <= x <= max,
        min < 0 <= max,
    ensures
        is_argument(option_text(Seq::empty(), x)),
{
    let s = option_text(Seq::empty(), x);
    lemma_option(x);
    lemma_over_option(Seq::empty(), x, 0);
    lemma_int_chars(x);
    assert(within(0) == scan_start());
    reveal_strlit("'' = ");
    assert(s[0] == '\'');
    assert(s.last() == int_text(x).last());
}

/// The name of a type that a value has, and each of its arguments, can stand in a list.
#[verifier::spinoff_prover]
#[verifier::rlimit(40)]
proof fn lemma_stands(t: TypeView)
    requires
        of_a_value(t),
    ensures
        is_argument(type_text(t)),
        arguments(t) matches Some(parts) ==> all_arguments(parts),
    decreases t,
{
    lemma_words(t);
    lemma_shape(t);
    match t {
        TypeView::Decimal32(n) => {
            lemma_number_argument(n as nat);
            lemma_one(dec_text(n as nat));
        },
        TypeView::Decimal64(n) => {
            lemma_number_argument(n as nat);
            lemma_one(dec_text(n as nat));
        },
        TypeView::Decimal128(n) => {
            lemma_number_argument(n as nat);
            lemma_one(dec_text(n as nat));
        },
        TypeView::Decimal256(n) => {
            lemma_number_argument(n as nat);
            lemma_one(dec_text(n as nat));
        },
        TypeView::DateTime(tz) => {
            lemma_zone(tz);
            lemma_one(quoted(zone_name(tz)));
        },
        TypeView::DateTime64(n, tz) => {
            lemma_number_argument(n as nat);
            lemma_zone(tz);
            lemma_pair(dec_text(n as nat), quoted(zone_name(tz)));
        },
        TypeView::Enum8(v) => {
            assert(v[0].0 =~= Seq::<char>::empty());
            lemma_quoted_number(v[0].1 as int, -128, 127);
            lemma_one(option_text(v[0].0, v[0].1 as int));
        },
        TypeView::Enum16(v) => {
            assert(v[0].0 =~= Seq::<char>::empty());
            lemma_quoted_number(v[0].1 as int, -32768, 32767);
            lemma_one(option_text(v[0].0, v[0].1 as int));
        },
        TypeView::Array(x) => {
            lemma_stands(*x);
            lemma_one(type_text(*x));
        },
        TypeView::Nullable(x) => {
            lemma_stands(*x);
            lemma_one(type_text(*x));
        },
        TypeView::MapOf(k, x) => {
            lemma_stands(*k);
            lemma_stands(*x);
            lemma_pair(type_text(*k), type_text(*x));
        },
        TypeView::Tuple(v) => {
            lemma_type_texts(v);
            assert forall|i: int| 0 <= i < v.len() implies is_argument(
                #[trigger] type_texts(v)[i],
            ) by {
                assert(of_a_value(v[i]));
                lemma_stands(v[i]);
            }
        },
        TypeView::Variant(v) => {
            lemma_type_texts(v);
            assert forall|i: int| 0 <= i < v.len() implies is_argument(
                #[trigger] type_texts(v)[i],
            ) by {
                assert(of_a_value(v[i]));
                lemma_stands(v[i]);
            }
        },
        _ => {},
    }
    match arguments(t) {
        Some(parts) => {
            lemma_over_joined(parts, 1);
            lemma_call_argument(word(t), joined(parts));
        },
        None => {
            assert(word(t) + Seq::<char>::empty() =~= word(t));
            lemma_word_argument(word(t));
        },
    }
}

/// Equal names begin with the same word and hold the same arguments.
proof fn lemma_same_parts(a: TypeView, b: TypeView)
    requires
        of_a_value(a),
        of_a_value(b),
        type_text(a) == type_text(b),
    ensures
        word(a) == word(b),
        arguments(a) == arguments(b),
{
    lemma_words(a);
    lemma_words(b);
    lemma_shape(a);
    lemma_shape(b);
    lemma_stands(a);
    lemma_stands(b);
    lemma_word(word(a), behind(a));
    lemma_word(word(b), behind(b));
    assert(behind(a) == behind(b));
    if let Some(p) = arguments(a) {
        lemma_list(p);
        assert(behind(a).len() > 0);
    }
    if let Some(q) = arguments(b) {
        lemma_list(q);
        assert(behind(b).len() > 0);
    }
}

proof fn lemma_numbers_differ(m: nat, n: nat)
    requires
        seq![dec_text(m)] == seq![dec_text(n)],
    ensures
        m == n,
{
    assert(seq![dec_text(m)][0] == seq![dec_text(n)][0]);
    let max = m + n;
    law_uint_text_reads_back(m, max);
    law_uint_text_reads_back(n, max);
}

proof fn lemma_options_differ(x: int, y: int)
    requires
        seq![option_text(Seq::empty(), x)] == seq![option_text(Seq::empty(), y)],
        -40000 <= x <= 40000,
        -40000 <= y <= 40000,
    ensures
        x == y,
{
    assert(seq![option_text(Seq::empty(), x)][0] == seq![option_text(Seq::empty(), y)][0]);
    lemma_option(x);
    lemma_option(y);
    let n = ("'' = "@).len() as int;
    assert(("'' = "@ + int_text(x)).skip(n) =~= int_text(x));
    assert(("'' = "@ + int_text(y)).skip(n) =~= int_text(y));
    law_int_text_reads_back(x, -40000, 40000);
    law_int_text_reads_back(y, -40000, 40000);
}

proof fn lemma_zones_differ(a: chrono_tz::Tz, b: chrono_tz::Tz)
    requires
        is_name_of(zone_name(a), a),
        is_name_of(zone_name(b), b),
        quoted(zone_name(a)) == quoted(zone_name(b)),
    ensures
        a == b,
{
    let p = quoted(zone_name(a));
    let q = quoted(zone_name(b));
    assert(p.subrange(1, p.len() - 1) =~= zone_name(a));
    assert(q.subrange(1, q.len() - 1) =~= zone_name(b));
}

proof fn lemma_fields_differ(v: Seq<TypeView>, u: Seq<TypeView>)
    requires
        type_texts(v) == type_texts(u),
    ensures
        v.len() == u.len(),
        forall|i: int| 0 <= i < v.len() ==> type_text(#[trigger] v[i]) == type_text(u[i]),
{
    lemma_type_texts(v);
    lemma_type_texts(u);
    assert forall|i: int| 0 <= i < v.len() implies type_text(#[trigger] v[i]) == type_text(
        u[i],
    ) by {
        assert(type_texts(v)[i] == type_texts(u)[i]);
    }
}

/// Types that values have are told apart by their names.
#[verifier::spinoff_prover]
#[verifier::rlimit(80)]
pub proof fn law_names_tell_apart(a: TypeView, b: TypeView)
    requires
        of_a_value(a),
        of_a_value(b),
        type_text(a) == type_text(b),
    ensures
        a == b,
    decreases a,
{
    lemma_same_parts(a, b);
    lemma_marked(a);
    lemma_marked(b);
    assert(marked(a) == marked(b));
    match (a, b) {
        (TypeView::Decimal32(m), TypeView::Decimal32(n)) => {
            lemma_numbers_differ(m as nat, n as nat);
        },
        (TypeView::Decimal64(m), TypeView::Decimal64(n)) => {
            lemma_numbers_differ(m as nat, n as nat);
        },
        (TypeView::Decimal128(m), TypeView::Decimal128(n)) => {
            lemma_numbers_differ(m as nat, n as nat);
        },
        (TypeView::Decimal256(m), TypeView::Decimal256(n)) => {
            lemma_numbers_differ(m as nat, n as nat);
        },
        (TypeView::DateTime(y), TypeView::DateTime(z)) => {
            assert(seq![quoted(zone_name(y))][0] == seq![quoted(zone_name(z))][0]);
            lemma_zones_differ(y, z);
        },
        (TypeView::DateTime64(m, y), TypeView::DateTime64(n, z)) => {
            let p = seq![dec_text(m as nat), quoted(zone_name(y))];
            let q = seq![dec_text(n as nat), quoted(zone_name(z))];
            assert(p[0] == q[0] && p[1] == q[1]);
            lemma_numbers_differ(m as nat, n as nat);
            lemma_zones_differ(y, z);
        },
        (TypeView::Enum8(v), TypeView::Enum8(u)) => {
            assert(v[0].0 =~= Seq::<char>::empty());
            assert(u[0].0 =~= Seq::<char>::empty());
            lemma_options_differ(v[0].1 as int, u[0].1 as int);
            assert(v =~= u);
        },
        (TypeView::Enum16(v), TypeView::Enum16(u)) => {
            assert(v[0].0 =~= Seq::<char>::empty());
            assert(u[0].0 =~= Seq::<char>::empty());
            lemma_options_differ(v[0].1 as int, u[0].1 as int);
            assert(v =~= u);
        },
        (TypeView::Array(x), TypeView::Array(y)) => {
            assert(seq![type_text(*x)][0] == seq![type_text(*y)][0]);
            law_names_tell_apart(*x, *y);
        },
        (TypeView::Nullable(x), TypeView::Nullable(y)) => {
            assert(seq![type_text(*x)][0] == seq![type_text(*y)][0]);
            law_names_tell_apart(*x, *y);
        },
        (TypeView::MapOf(k, x), TypeView::MapOf(l, y)) => {
            let p = seq![type_text(*k), type_text(*x)];
            let q = seq![type_text(*l), type_text(*y)];
            assert(p[0] == q[0] && p[1] == q[1]);
            law_names_tell_apart(*k, *l);
            law_names_tell_apart(*x, *y);
        },
        (TypeView::Tuple(v), TypeView::Tuple(u)) => {
            lemma_fields_differ(v, u);
            assert forall|i: int| 0 <= i < v.len() implies (#[trigger] v[i]) == u[i] by {
                assert(of_a_value(v[i]) && of_a_value(u[i]));
                law_names_tell_apart(v[i], u[i]);
            }
            assert(v =~= u);
        },
        (TypeView::Variant(v), TypeView::Variant(u)) => {
            lemma_fields_differ(v, u);
            assert forall|i: int| 0 <= i < v.len() implies (#[trigger] v[i]) == u[i] by {
                assert(of_a_value(v[i]) && of_a_value(u[i]));
                law_names_tell_apart(v[i], u[i]);
            }
            assert(v =~= u);
        },
        _ => {},
    }
}

// ---------------------------------------------------------------------------
// Arrays
// ---------------------------------------------------------------------------

/// The different types of values have different names.
pub proof fn law_guesses_differ(s: Seq<ValueView>)
    requires
        types_named(guesses(s)),
    ensures
        names_differ(guesses(s)),
{
    let ts = guesses(s);
    lemma_guesses_of_values(s);
    assert forall|i: int, j: int|
        0 <= i < ts.len() && 0 <= j < ts.len() && type_text(ts[i]) == type_text(
            ts[j],
        ) implies ts[i] == ts[j] by {
        if ts.len() > 1 {
            assert(zones_named(ts[i]) && zones_named(ts[j]));
            assert(of_a_value(ts[i]) && of_a_value(ts[j]));
            law_names_tell_apart(ts[i], ts[j]);
        }
    }
}

/// Arrays whose values have the same types, nulls left out, have the same type.
pub proof fn law_array_of_the_same_types(s: Seq<ValueView>, u: Seq<ValueView>)
    requires
        types_named(guesses(s)),
        forall|i: int|
            0 <= i < s.len() && !(#[trigger] s[i] is Null) ==> guesses(u).contains(guessed(s[i])),
        forall|i: int|
            0 <= i < u.len() && !(#[trigger] u[i] is Null) ==> guesses(s).contains(guessed(u[i])),
    ensures
        guessed(ValueView::Array(s)) == guessed(ValueView::Array(u)),
{
    broadcast use vstd::seq_lib::group_to_multiset_ensures;

    law_guesses(s);
    law_guesses(u);
    law_guesses_differ(s);
    let a = guesses(s);
    let b = guesses(u);
    a.lemma_multiset_has_no_duplicates();
    b.lemma_multiset_has_no_duplicates();
    assert forall|t: TypeView| #[trigger] a.contains(t) == b.contains(t) by {
        if a.contains(t) {
            let i = choose|i: int| 0 <= i < s.len() && !(s[i] is Null) && guessed(s[i]) == t;
            assert(!(s[i] is Null));
        }
        if b.contains(t) {
            let i = choose|i: int| 0 <= i < u.len() && !(u[i] is Null) && guessed(u[i]) == t;
            assert(!(u[i] is Null));
        }
    }
    assert forall|t: TypeView| #[trigger] a.to_multiset().count(t) == b.to_multiset().count(t) by {
        assert(a.contains(t) == b.contains(t));
        assert(a.contains(t) <==> a.to_multiset().count(t) > 0);
        assert(b.contains(t) <==> b.to_multiset().count(t) > 0);
    }
    assert(a.to_multiset() =~= b.to_multiset());
    assert(a.len() == a.to_multiset().len() && b.len() == b.to_multiset().len());
    law_order_does_not_matter(a, b);
    if a.len() == 1 {
        assert(a.contains(a[0]));
        assert(b.contains(a[0]));
    }
}

/// The values of an array that are not null.
pub open spec fn not_null(s: Seq<ValueView>) -> Seq<ValueView> {
    s.filter(|v: ValueView| !(v is Null))
}

proof fn lemma_kept(s: Seq<ValueView>, u: Seq<ValueView>)
    requires
        not_null(s).to_multiset() == not_null(u).to_multiset(),
    ensures
        forall|i: int|
            0 <= i < s.len() && !(#[trigger] s[i] is Null) ==> guesses(u).contains(guessed(s[i])),
{
    broadcast use vstd::seq_lib::group_to_multiset_ensures;

    let keep = |v: ValueView| !(v is Null);
    law_guesses(u);
    assert forall|i: int| 0 <= i < s.len() && !(#[trigger] s[i] is Null) implies guesses(
        u,
    ).contains(guessed(s[i])) by {
        s.lemma_filter_contains(keep, i);
        let p = not_null(s);
        let q = not_null(u);
        assert(p.contains(s[i]));
        assert(q.to_multiset().count(s[i]) > 0);
        assert(q.contains(s[i]));
        u.lemma_filter_contains_rev(keep, s[i]);
        let j = choose|j: int| 0 <= j < u.len() && u[j] == s[i];
        assert(!(u[j] is Null) && guessed(u[j]) == guessed(s[i]));
    }
}

/// Whether every array with the same values, nulls left out, in whatever order, has the
/// same type.
pub open spec fn type_is_settled(s: Seq<ValueView>) -> bool {
    forall|u: Seq<ValueView>|
        not_null(s).to_multiset() == #[trigger] not_null(u).to_multiset() ==> guessed(
            ValueView::Array(s),
        ) == guessed(ValueView::Array(u))
}

/// The type of an array is settled by its values, without their order and without nulls.
/// That time zones are told by their names is known where they were written out; so
/// [`crate::values::Value::guess_type`] promises this of every array.
pub proof fn law_type_is_settled(s: Seq<ValueView>)
    requires
        types_named(guesses(s)),
    ensures
        type_is_settled(s),
{
    assert forall|u: Seq<ValueView>|
        not_null(s).to_multiset() == #[trigger] not_null(u).to_multiset() implies guessed(
        ValueView::Array(s),
    ) == guessed(ValueView::Array(u)) by {
        law_reordered_array(s, u);
    }
}

/// The type of an array depends on neither the order of its values nor on its nulls:
/// arrays with the same values, nulls left out, have the same type.
pub proof fn law_reordered_array(s: Seq<ValueView>, u: Seq<ValueView>)
    requires
        not_null(s).to_multiset() == not_null(u).to_multiset(),
        types_named(guesses(s)),
    ensures
        guessed(ValueView::Array(s)) == guessed(ValueView::Array(u)),
{
    lemma_kept(s, u);
    lemma_kept(u, s);
    law_array_of_the_same_types(s, u);
}

} // verus!
