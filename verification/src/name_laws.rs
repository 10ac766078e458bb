//! Types are read back from their names.
use vstd::prelude::*;

use crate::error::TypeParseReason;
use crate::name_enums::{law_options_are_passed_over, law_options_read_back, wide_texts};
use crate::name_scan::{
    all_arguments, all_quiet, is_argument, is_quiet, is_word, lemma_call_argument, lemma_list,
    lemma_number_argument, lemma_over_joined, lemma_over_quiet, lemma_over_quoted, lemma_single,
    lemma_word_argument, passed_over, within,
};
use crate::name_words::{
    lemma_call_marks, lemma_call_words_a, lemma_call_words_b, lemma_other_words, lemma_plain_marks,
    lemma_read_call, lemma_read_word,
};
use crate::text::{dec_text, is_white, law_uint_text_reads_back, lemma_trimmed_same};
use crate::type_args::{fixed_args, lemma_args_shorter, scan_start, variable_args};
use crate::type_display::{
    joined, lemma_type_texts, option_texts16, option_texts8, type_text, type_texts,
};
use crate::type_parse::{
    dynamic_params, enum_options, narrow16, narrow8, one_type, parsed_datetime64, parsed_type,
    size_in_parens, tuple_types, type_with_args, types_of, zone_arg,
};
use crate::types::{is_name_of, is_zone_char, zone_name, TypeView};

verus! {

/// An argument list.
pub open spec fn listed(inner: Seq<char>) -> Seq<char> {
    seq!['('] + inner + seq![')']
}

pub(crate) proof fn lemma_call_text(id: Seq<char>, open: Seq<char>, inner: Seq<char>)
    requires
        open == id + seq!['('],
    ensures
        open + inner + ")"@ == id + listed(inner),
{
    reveal_strlit(")");
    assert(")"@ =~= seq![')']);
    assert(open + inner + ")"@ =~= id + listed(inner));
}

// ---------------------------------------------------------------------------
// Numbers
// ---------------------------------------------------------------------------

proof fn lemma_size(n: nat, max: nat, e: TypeParseReason)
    requires
        1 <= n <= max <= usize::MAX,
    ensures
        size_in_parens(listed(dec_text(n)), max, e) == Ok::<_, TypeParseReason>(n),
        passed_over(dec_text(n), within(1)) == Some(within(1)),
{
    lemma_number_argument(n);
    lemma_single(dec_text(n), 1);
    law_uint_text_reads_back(n, usize::MAX as nat);
}

/// Whether the number that a type is made with can be told in its name.
pub open spec fn number_fits(t: TypeView) -> bool {
    match t {
        TypeView::Decimal32(n) => 1 <= n <= 9,
        TypeView::Decimal64(n) => 1 <= n <= 18,
        TypeView::Decimal128(n) => 1 <= n <= 38,
        TypeView::Decimal256(n) => 1 <= n <= 76,
        TypeView::FixedSizedString(n) => 1 <= n,
        _ => false,
    }
}

#[verifier::spinoff_prover]
#[verifier::rlimit(50)]
pub(crate) proof fn lemma_number_reads_back(t: TypeView)
    requires
        number_fits(t),
    ensures
        parsed_type(type_text(t)) == Ok::<_, TypeParseReason>(t),
        is_argument(type_text(t)),
{
    lemma_call_words_a();
    lemma_call_marks();
    let (id, open, n, max, e) = match t {
        TypeView::Decimal32(n) => (
            "Decimal32"@,
            "Decimal32("@,
            n as nat,
            9nat,
            TypeParseReason::InvalidScale,
        ),
        TypeView::Decimal64(n) => (
            "Decimal64"@,
            "Decimal64("@,
            n as nat,
            18nat,
            TypeParseReason::InvalidScale,
        ),
        TypeView::Decimal128(n) => (
            "Decimal128"@,
            "Decimal128("@,
            n as nat,
            38nat,
            TypeParseReason::InvalidScale,
        ),
        TypeView::Decimal256(n) => (
            "Decimal256"@,
            "Decimal256("@,
            n as nat,
            76nat,
            TypeParseReason::InvalidScale,
        ),
        TypeView::FixedSizedString(n) => (
            "FixedString"@,
            "FixedString("@,
            n as nat,
            usize::MAX as nat,
            TypeParseReason::EmptyFixedString,
        ),
        _ => arbitrary(),
    };
    lemma_size(n, max, e);
    lemma_call_text(id, open, dec_text(n));
    lemma_read_call(id, dec_text(n));
    lemma_call_argument(id, dec_text(n));
}

// ---------------------------------------------------------------------------
// Times
// ---------------------------------------------------------------------------

/// A name in quotes.
pub open spec fn quoted(name: Seq<char>) -> Seq<char> {
    seq!['\''] + name + seq!['\'']
}

pub(crate) proof fn lemma_zone(tz: chrono_tz::Tz)
    requires
        is_name_of(zone_name(tz), tz),
    ensures
        is_argument(quoted(zone_name(tz))),
        zone_arg(quoted(zone_name(tz))) == Ok::<_, TypeParseReason>(tz),
{
    let name = zone_name(tz);
    assert forall|i: int| 0 <= i < name.len() implies (#[trigger] name[i]) != '\'' && name[i]
        != '\\' by {
        assert(is_zone_char(name[i]));
    }
    lemma_over_quoted(name, 0);
    assert(within(0) == scan_start());
    let s = quoted(name);
    assert(s[0] == '\'' && s.last() == '\'');
    assert(!is_white('\''));
    assert(s.subrange(1, s.len() - 1) =~= name);
}

#[verifier::spinoff_prover]
#[verifier::rlimit(50)]
pub(crate) proof fn lemma_datetime_reads_back(tz: chrono_tz::Tz)
    requires
        is_name_of(zone_name(tz), tz),
    ensures
        parsed_type(type_text(TypeView::DateTime(tz))) == Ok::<_, TypeParseReason>(
            TypeView::DateTime(tz),
        ),
        is_argument(type_text(TypeView::DateTime(tz))),
{
    lemma_call_words_a();
    lemma_call_marks();
    lemma_zone(tz);
    let p = quoted(zone_name(tz));
    let id = "DateTime"@;
    lemma_single(p, 1);
    reveal_strlit("DateTime('");
    reveal_strlit("DateTime");
    reveal_strlit("')");
    assert("DateTime('"@ =~= id + seq!['('] + seq!['\'']);
    assert("')"@ =~= seq!['\''] + seq![')']);
    assert(type_text(TypeView::DateTime(tz)) =~= id + listed(p));
    lemma_read_call(id, p);
    lemma_call_argument(id, p);
    assert(seq![p][0] == p);
}

/// Two arguments.
pub(crate) proof fn lemma_pair(a: Seq<char>, b: Seq<char>)
    requires
        is_argument(a),
        is_argument(b),
    ensures
        joined(seq![a, b]) == a + ", "@ + b,
        all_arguments(seq![a, b]),
{
    let parts = seq![a, b];
    assert(parts.drop_last() =~= seq![a]);
    assert(joined(seq![a]) == a);
    assert forall|i: int| 0 <= i < parts.len() implies is_argument(#[trigger] parts[i]) by {
        if i == 0 {
            assert(parts[i] == a);
        } else {
            assert(parts[i] == b);
        }
    }
}

pub(crate) proof fn lemma_datetime64_text(n: usize, tz: chrono_tz::Tz)
    ensures
        type_text(TypeView::DateTime64(n, tz)) == "DateTime64"@ + listed(
            dec_text(n as nat) + ", "@ + quoted(zone_name(tz)),
        ),
{
    lemma_call_words_a();
    reveal_strlit(", '");
    reveal_strlit(", ");
    reveal_strlit("')");
    assert(", '"@ =~= ", "@ + seq!['\'']);
    assert("')"@ =~= seq!['\''] + seq![')']);
    assert(type_text(TypeView::DateTime64(n, tz)) =~= "DateTime64"@ + listed(
        dec_text(n as nat) + ", "@ + quoted(zone_name(tz)),
    ));
}

proof fn lemma_datetime64_args(n: usize, tz: chrono_tz::Tz)
    requires
        is_name_of(zone_name(tz), tz),
    ensures
        ({
            let inner = dec_text(n as nat) + ", "@ + quoted(zone_name(tz));
            &&& parsed_datetime64(listed(inner)) == Ok::<_, TypeParseReason>(
                TypeView::DateTime64(n, tz),
            )
            &&& passed_over(inner, within(1)) == Some(within(1))
        }),
{
    let d = dec_text(n as nat);
    let p = quoted(zone_name(tz));
    lemma_zone(tz);
    lemma_number_argument(n as nat);
    lemma_pair(d, p);
    let parts = seq![d, p];
    lemma_list(parts);
    lemma_over_joined(parts, 1);
    law_uint_text_reads_back(n as nat, usize::MAX as nat);
    assert(parts[0] == d && parts[1] == p);
    assert(fixed_args(listed(joined(parts)), 2) == Ok::<_, TypeParseReason>(parts));
}

#[verifier::spinoff_prover]
#[verifier::rlimit(50)]
pub(crate) proof fn lemma_datetime64_reads_back(n: usize, tz: chrono_tz::Tz)
    requires
        is_name_of(zone_name(tz), tz),
    ensures
        parsed_type(type_text(TypeView::DateTime64(n, tz))) == Ok::<_, TypeParseReason>(
            TypeView::DateTime64(n, tz),
        ),
        is_argument(type_text(TypeView::DateTime64(n, tz))),
{
    let inner = dec_text(n as nat) + ", "@ + quoted(zone_name(tz));
    let id = "DateTime64"@;
    lemma_call_words_a();
    lemma_call_marks();
    lemma_datetime64_text(n, tz);
    lemma_datetime64_args(n, tz);
    lemma_read_call(id, inner);
    lemma_call_argument(id, inner);
}

// ---------------------------------------------------------------------------
// Enumerations
// ---------------------------------------------------------------------------

/// Options with integers of any size.
pub open spec fn wide8(v: Seq<(Seq<char>, i8)>) -> Seq<(Seq<char>, int)> {
    Seq::new(v.len(), |i: int| (v[i].0, v[i].1 as int))
}

/// Options with integers of any size.
pub open spec fn wide16(v: Seq<(Seq<char>, i16)>) -> Seq<(Seq<char>, int)> {
    Seq::new(v.len(), |i: int| (v[i].0, v[i].1 as int))
}

proof fn lemma_with_enum8(rest: Seq<char>, len: nat)
    ensures
        type_with_args("Enum8"@, rest, len) == (match enum_options(rest, -128, 127) {
            Err(e) => Err(e),
            Ok(v) => Ok(TypeView::Enum8(narrow8(v))),
        }),
{
    lemma_call_marks();
}

#[verifier::spinoff_prover]
#[verifier::rlimit(50)]
pub(crate) proof fn lemma_enum8_reads_back(v: Seq<(Seq<char>, i8)>)
    ensures
        parsed_type(type_text(TypeView::Enum8(v))) == Ok::<_, TypeParseReason>(TypeView::Enum8(v)),
{
    lemma_call_words_a();
    let w = wide8(v);
    assert(option_texts8(v) =~= wide_texts(w));
    law_options_read_back(w, -128, 127);
    assert(narrow8(w) =~= v);
    let inner = joined(wide_texts(w));
    lemma_call_text("Enum8"@, "Enum8("@, inner);
    lemma_read_call("Enum8"@, inner);
    lemma_with_enum8(listed(inner), ("Enum8"@ + listed(inner)).len());
}

proof fn lemma_with_enum16(rest: Seq<char>, len: nat)
    ensures
        type_with_args("Enum16"@, rest, len) == (match enum_options(rest, -32768, 32767) {
            Err(e) => Err(e),
            Ok(v) => Ok(TypeView::Enum16(narrow16(v))),
        }),
{
    lemma_call_marks();
}

#[verifier::spinoff_prover]
#[verifier::rlimit(50)]
pub(crate) proof fn lemma_enum16_reads_back(v: Seq<(Seq<char>, i16)>)
    ensures
        parsed_type(type_text(TypeView::Enum16(v))) == Ok::<_, TypeParseReason>(
            TypeView::Enum16(v),
        ),
{
    lemma_call_words_a();
    let w = wide16(v);
    assert(option_texts16(v) =~= wide_texts(w));
    law_options_read_back(w, -32768, 32767);
    assert(narrow16(w) =~= v);
    let inner = joined(wide_texts(w));
    lemma_call_text("Enum16"@, "Enum16("@, inner);
    lemma_read_call("Enum16"@, inner);
    lemma_with_enum16(listed(inner), ("Enum16"@ + listed(inner)).len());
}

/// The name of an `Enum8` can stand within another where no option ends in a backslash.
pub proof fn law_enum8_stands_alone(v: Seq<(Seq<char>, i8)>)
    requires
        forall|i: int|
            0 <= i < v.len() ==> (#[trigger] v[i]).0.len() == 0 || v[i].0.last() != '\\',
    ensures
        is_argument(type_text(TypeView::Enum8(v))),
{
    lemma_call_words_a();
    let w = wide8(v);
    assert(option_texts8(v) =~= wide_texts(w));
    assert forall|i: int| 0 <= i < w.len() implies (#[trigger] w[i]).0.len() == 0 || w[i].0.last()
        != '\\' by {
        assert(v[i].0.len() == 0 || v[i].0.last() != '\\');
    }
    law_options_are_passed_over(w);
    let inner = joined(wide_texts(w));
    lemma_call_text("Enum8"@, "Enum8("@, inner);
    lemma_call_argument("Enum8"@, inner);
}

/// The name of an `Enum16` can stand within another where no option ends in a backslash.
pub proof fn law_enum16_stands_alone(v: Seq<(Seq<char>, i16)>)
    requires
        forall|i: int|
            0 <= i < v.len() ==> (#[trigger] v[i]).0.len() == 0 || v[i].0.last() != '\\',
    ensures
        is_argument(type_text(TypeView::Enum16(v))),
{
    lemma_call_words_a();
    let w = wide16(v);
    assert(option_texts16(v) =~= wide_texts(w));
    assert forall|i: int| 0 <= i < w.len() implies (#[trigger] w[i]).0.len() == 0 || w[i].0.last()
        != '\\' by {
        assert(v[i].0.len() == 0 || v[i].0.last() != '\\');
    }
    law_options_are_passed_over(w);
    let inner = joined(wide_texts(w));
    lemma_call_text("Enum16"@, "Enum16("@, inner);
    lemma_call_argument("Enum16"@, inner);
}

// ---------------------------------------------------------------------------
// Types made of types
// ---------------------------------------------------------------------------

/// Whether texts are the names of types that stand as arguments.
spec fn names_read(args: Seq<Seq<char>>, ts: Seq<TypeView>) -> bool {
    &&& args.len() == ts.len()
    &&& all_arguments(args)
    &&& forall|i: int|
        0 <= i < ts.len() ==> parsed_type(#[trigger] args[i]) == Ok::<_, TypeParseReason>(ts[i])
}

proof fn lemma_types_of(args: Seq<Seq<char>>, ts: Seq<TypeView>, len: nat)
    requires
        names_read(args, ts),
        forall|i: int| 0 <= i < args.len() ==> (#[trigger] args[i]).len() < len,
    ensures
        types_of(args, len) == Ok::<_, TypeParseReason>(ts),
        tuple_types(args, len) == Ok::<_, TypeParseReason>(ts),
    decreases args.len(),
{
    if args.len() == 0 {
        assert(ts =~= Seq::empty());
    } else {
        let a = args.skip(1);
        let t = ts.skip(1);
        assert(names_read(a, t)) by {
            assert forall|i: int| 0 <= i < a.len() implies is_argument(#[trigger] a[i]) by {
                assert(a[i] == args[i + 1]);
            }
            assert forall|i: int| 0 <= i < t.len() implies parsed_type(#[trigger] a[i]) == Ok::<
                _,
                TypeParseReason,
            >(t[i]) by {
                assert(a[i] == args[i + 1]);
            }
        }
        assert forall|i: int| 0 <= i < a.len() implies (#[trigger] a[i]).len() < len by {
            assert(a[i] == args[i + 1]);
        }
        lemma_types_of(a, t, len);
        assert(args[0].len() < len);
        assert(parsed_type(args[0]) == Ok::<_, TypeParseReason>(ts[0]));
        assert(seq![ts[0]] + t =~= ts);
    }
}

proof fn lemma_types_listed(args: Seq<Seq<char>>, ts: Seq<TypeView>, n: nat, len: nat)
    requires
        names_read(args, ts),
        args.len() <= n,
        listed(joined(args)).len() <= len,
    ensures
        variable_args(listed(joined(args))) == Ok::<_, TypeParseReason>(args),
        fixed_args(listed(joined(args)), n) == Ok::<_, TypeParseReason>(args),
        types_of(args, len) == Ok::<_, TypeParseReason>(ts),
        tuple_types(args, len) == Ok::<_, TypeParseReason>(ts),
        passed_over(joined(args), within(1)) == Some(within(1)),
{
    lemma_list(args);
    lemma_args_shorter(listed(joined(args)), n);
    assert forall|i: int| 0 <= i < args.len() implies (#[trigger] args[i]).len() < len by {
        assert(args[i].len() < listed(joined(args)).len());
    }
    lemma_types_of(args, ts, len);
    lemma_over_joined(args, 1);
}

#[verifier::spinoff_prover]
#[verifier::rlimit(50)]
pub(crate) proof fn lemma_inner_reads_back(id: Seq<char>, open: Seq<char>, inner: TypeView)
    requires
        is_word(id),
        open == id + seq!['('],
        is_argument(type_text(inner)),
        parsed_type(type_text(inner)) == Ok::<_, TypeParseReason>(inner),
    ensures
        ({
            let s = open + type_text(inner) + ")"@;
            &&& is_argument(s)
            &&& parsed_type(s) == type_with_args(id, listed(type_text(inner)), s.len())
            &&& one_type(listed(type_text(inner)), s.len()) == Ok::<_, TypeParseReason>(inner)
        }),
{
    let p = type_text(inner);
    let args = seq![p];
    lemma_call_text(id, open, p);
    lemma_read_call(id, p);
    assert(joined(args) == p);
    assert(names_read(args, seq![inner]));
    lemma_types_listed(args, seq![inner], 1, (open + p + ")"@).len());
    lemma_call_argument(id, p);
}

#[verifier::spinoff_prover]
#[verifier::rlimit(50)]
pub(crate) proof fn lemma_types_read_back(id: Seq<char>, open: Seq<char>, ts: Seq<TypeView>)
    requires
        is_word(id),
        open == id + seq!['('],
        forall|i: int|
            0 <= i < ts.len() ==> is_argument(type_text(#[trigger] ts[i])) && parsed_type(
                type_text(ts[i]),
            ) == Ok::<_, TypeParseReason>(ts[i]),
    ensures
        ({
            let args = type_texts(ts);
            let s = open + joined(args) + ")"@;
            &&& is_argument(s)
            &&& parsed_type(s) == type_with_args(id, listed(joined(args)), s.len())
            &&& variable_args(listed(joined(args))) == Ok::<_, TypeParseReason>(args)
            &&& types_of(args, s.len()) == Ok::<_, TypeParseReason>(ts)
            &&& tuple_types(args, s.len()) == Ok::<_, TypeParseReason>(ts)
            &&& args.len() == ts.len()
        }),
{
    let args = type_texts(ts);
    lemma_type_texts(ts);
    assert forall|i: int| 0 <= i < args.len() implies is_argument(#[trigger] args[i])
        && parsed_type(args[i]) == Ok::<_, TypeParseReason>(ts[i]) by {
        assert(args[i] == type_text(ts[i]));
    }
    assert(names_read(args, ts));
    lemma_call_text(id, open, joined(args));
    lemma_read_call(id, joined(args));
    lemma_types_listed(args, ts, args.len(), (open + joined(args) + ")"@).len());
    lemma_call_argument(id, joined(args));
}

proof fn lemma_map_text(k: TypeView, v: TypeView)
    ensures
        type_text(TypeView::MapOf(Box::new(k), Box::new(v))) == "Map"@ + listed(
            type_text(k) + ", "@ + type_text(v),
        ),
{
    lemma_call_words_b();
    let inner = type_text(k) + ", "@ + type_text(v);
    lemma_call_text("Map"@, "Map("@, inner);
    assert("Map("@ + type_text(k) + ", "@ + type_text(v) + ")"@ =~= "Map("@ + inner + ")"@);
}

#[verifier::spinoff_prover]
#[verifier::rlimit(50)]
proof fn lemma_map_args(a: Seq<char>, b: Seq<char>, k: TypeView, v: TypeView, len: nat)
    requires
        is_argument(a),
        parsed_type(a) == Ok::<_, TypeParseReason>(k),
        is_argument(b),
        parsed_type(b) == Ok::<_, TypeParseReason>(v),
        listed(a + ", "@ + b).len() <= len,
    ensures
        type_with_args("Map"@, listed(a + ", "@ + b), len) == Ok::<_, TypeParseReason>(
            TypeView::MapOf(Box::new(k), Box::new(v)),
        ),
        passed_over(a + ", "@ + b, within(1)) == Some(within(1)),
{
    lemma_call_marks();
    lemma_pair(a, b);
    let args = seq![a, b];
    let ts = seq![k, v];
    assert forall|i: int| 0 <= i < ts.len() implies parsed_type(#[trigger] args[i]) == Ok::<
        _,
        TypeParseReason,
    >(ts[i]) by {
        if i == 0 {
            assert(args[i] == a);
        } else {
            assert(args[i] == b);
        }
    }
    assert(names_read(args, ts));
    lemma_types_listed(args, ts, 2, len);
    assert(ts[0] == k && ts[1] == v);
}

#[verifier::spinoff_prover]
#[verifier::rlimit(50)]
pub(crate) proof fn lemma_map_reads_back(k: TypeView, v: TypeView)
    requires
        is_argument(type_text(k)),
        parsed_type(type_text(k)) == Ok::<_, TypeParseReason>(k),
        is_argument(type_text(v)),
        parsed_type(type_text(v)) == Ok::<_, TypeParseReason>(v),
    ensures
        ({
            let t = TypeView::MapOf(Box::new(k), Box::new(v));
            &&& is_argument(type_text(t))
            &&& parsed_type(type_text(t)) == Ok::<_, TypeParseReason>(t)
        }),
{
    let inner = type_text(k) + ", "@ + type_text(v);
    lemma_map_text(k, v);
    lemma_call_words_b();
    lemma_read_call("Map"@, inner);
    lemma_map_args(
        type_text(k),
        type_text(v),
        k,
        v,
        ("Map"@ + listed(inner)).len(),
    );
    lemma_call_argument("Map"@, inner);
}

proof fn lemma_with_dynamic(n: u32, len: nat)
    ensures
        ({
            let p = "max_types="@ + dec_text(n as nat);
            &&& type_with_args("Dynamic"@, listed(p), len) == Ok::<_, TypeParseReason>(
                TypeView::Dynamic { max_types: Some(n) },
            )
            &&& passed_over(p, within(1)) == Some(within(1))
        }),
{
    let p = "max_types="@ + dec_text(n as nat);
    reveal_strlit("max_types=");
    lemma_param_argument("max_types="@, n);
    lemma_single(p, 1);
    lemma_trimmed_same(p);
    assert(p.skip("max_types="@.len() as int) =~= dec_text(n as nat));
    assert("max_types="@.is_prefix_of(p));
    law_uint_text_reads_back(n as nat, u32::MAX as nat);
    let args = seq![p];
    assert(args[0] == p);
    assert(args.skip(1) =~= Seq::<Seq<char>>::empty());
    assert(dynamic_params(args.skip(1), Some(n)) == Ok::<_, TypeParseReason>(Some(n)));
    assert(dynamic_params(args, None) == Ok::<_, TypeParseReason>(Some(n)));
    lemma_call_marks();
}

proof fn lemma_dynamic_text(n: u32)
    ensures
        type_text(TypeView::Dynamic { max_types: Some(n) }) == "Dynamic"@ + listed(
            "max_types="@ + dec_text(n as nat),
        ),
{
    reveal_strlit("max_types=");
    reveal_strlit("Dynamic(max_types=");
    reveal_strlit("Dynamic");
    reveal_strlit(")");
    assert("Dynamic(max_types="@ =~= "Dynamic"@ + seq!['('] + "max_types="@);
    assert(")"@ =~= seq![')']);
    assert(type_text(TypeView::Dynamic { max_types: Some(n) }) =~= "Dynamic"@ + listed(
        "max_types="@ + dec_text(n as nat),
    ));
}

pub(crate) proof fn lemma_dynamic_reads_back(max_types: Option<u32>)
    ensures
        ({
            let t = TypeView::Dynamic { max_types };
            &&& is_argument(type_text(t))
            &&& parsed_type(type_text(t)) == Ok::<_, TypeParseReason>(t)
        }),
{
    lemma_other_words();
    let id = "Dynamic"@;
    match max_types {
        None => {
            lemma_plain_marks();
            lemma_read_word(id);
            lemma_word_argument(id);
        },
        Some(n) => {
            let p = "max_types="@ + dec_text(n as nat);
            lemma_dynamic_text(n);
            lemma_read_call(id, p);
            lemma_with_dynamic(n, (id + listed(p)).len());
            lemma_call_argument(id, p);
        },
    }
}

/// A name with a number behind it is an argument.
pub(crate) proof fn lemma_param_argument(name: Seq<char>, n: u32)
    requires
        name.len() > 0,
        !is_white(name[0]),
        all_quiet(name),
    ensures
        is_argument(name + dec_text(n as nat)),
{
    let d = dec_text(n as nat);
    let s = name + d;
    lemma_number_argument(n as nat);
    assert forall|i: int| 0 <= i < s.len() implies is_quiet(#[trigger] s[i]) by {
        if i < name.len() {
            assert(is_quiet(name[i]));
        } else {
            assert(s[i] == d[i - name.len()]);
        }
    }
    lemma_over_quiet(s, 0);
    assert(within(0) == scan_start());
    assert(s.last() == d.last());
    assert(s[0] == name[0]);
}

} // verus!
