//! Names that name no type.
use vstd::prelude::*;

use crate::error::TypeParseReason;
use crate::name_laws::{lemma_pair, listed};
use crate::name_scan::{
    all_arguments, is_argument, is_word, lemma_list, lemma_number_argument, lemma_single,
    lemma_word,
};
use crate::name_words::{lemma_call_marks, lemma_call_words_a, lemma_call_words_b, lemma_read_call};
use crate::text::{after_prefix, dec_text, is_white, law_uint_text_reads_back, lemma_trimmed_same};
use crate::type_args::{arg_items, fixed_args, variable_args};
use crate::type_display::joined;
use crate::type_parse::{
    dynamic_params, enum_options, enum_run, enum_start, enum_step, one_type, parsed_datetime,
    parsed_decimal, parsed_type, size_in_parens, type_with_args, EnumScan,
};
use crate::types::TypeView;

verus! {

proof fn lemma_calls(rest: Seq<char>, len: nat)
    ensures
        one_type(rest, len) matches Err(e) ==> {
            &&& type_with_args("Array"@, rest, len) == Err::<TypeView, TypeParseReason>(e)
            &&& type_with_args("Nullable"@, rest, len) == Err::<TypeView, TypeParseReason>(e)
            &&& type_with_args("LowCardinality"@, rest, len) == Err::<TypeView, TypeParseReason>(e)
        },
        variable_args(rest) matches Err(e) ==> {
            &&& type_with_args("Tuple"@, rest, len) == Err::<TypeView, TypeParseReason>(e)
            &&& type_with_args("Variant"@, rest, len) == Err::<TypeView, TypeParseReason>(e)
        },
        fixed_args(rest, 2) matches Err(e) ==> type_with_args("Map"@, rest, len) == Err::<
            TypeView,
            TypeParseReason,
        >(e),
        fixed_args(rest, 2) matches Ok(args) ==> args.len() != 2 ==> type_with_args(
            "Map"@,
            rest,
            len,
        ) == Err::<TypeView, TypeParseReason>(TypeParseReason::ArgumentCount),
        type_with_args("Decimal"@, rest, len) == parsed_decimal(rest),
        type_with_args("DateTime"@, rest, len) == parsed_datetime(rest),
{
    lemma_call_marks();
}

proof fn lemma_sizes(rest: Seq<char>, len: nat)
    ensures
        size_in_parens(rest, 9, TypeParseReason::InvalidScale) matches Err(e) ==> type_with_args(
            "Decimal32"@,
            rest,
            len,
        ) == Err::<TypeView, TypeParseReason>(e),
        size_in_parens(rest, 18, TypeParseReason::InvalidScale) matches Err(e) ==> type_with_args(
            "Decimal64"@,
            rest,
            len,
        ) == Err::<TypeView, TypeParseReason>(e),
        size_in_parens(rest, 38, TypeParseReason::InvalidScale) matches Err(e) ==> type_with_args(
            "Decimal128"@,
            rest,
            len,
        ) == Err::<TypeView, TypeParseReason>(e),
        size_in_parens(rest, 76, TypeParseReason::InvalidScale) matches Err(e) ==> type_with_args(
            "Decimal256"@,
            rest,
            len,
        ) == Err::<TypeView, TypeParseReason>(e),
        size_in_parens(
            rest,
            usize::MAX as nat,
            TypeParseReason::EmptyFixedString,
        ) matches Err(e) ==> type_with_args("FixedString"@, rest, len) == Err::<
            TypeView,
            TypeParseReason,
        >(e),
{
    lemma_call_marks();
}

/// A decimal type has at least one digit behind the point, and no more than its width holds; a
/// string of a fixed length has at least one byte.
pub proof fn law_sizes_that_are_refused(n: nat)
    requires
        n <= usize::MAX,
    ensures
        n == 0 || n > 9 ==> parsed_type("Decimal32"@ + listed(dec_text(n))) == Err::<
            TypeView,
            TypeParseReason,
        >(TypeParseReason::InvalidScale),
        n == 0 || n > 18 ==> parsed_type("Decimal64"@ + listed(dec_text(n))) == Err::<
            TypeView,
            TypeParseReason,
        >(TypeParseReason::InvalidScale),
        n == 0 || n > 38 ==> parsed_type("Decimal128"@ + listed(dec_text(n))) == Err::<
            TypeView,
            TypeParseReason,
        >(TypeParseReason::InvalidScale),
        n == 0 || n > 76 ==> parsed_type("Decimal256"@ + listed(dec_text(n))) == Err::<
            TypeView,
            TypeParseReason,
        >(TypeParseReason::InvalidScale),
        n == 0 ==> parsed_type("FixedString"@ + listed(dec_text(n))) == Err::<
            TypeView,
            TypeParseReason,
        >(TypeParseReason::EmptyFixedString),
{
    let inner = dec_text(n);
    lemma_number_argument(n);
    lemma_single(inner, 1);
    law_uint_text_reads_back(n, usize::MAX as nat);
    lemma_call_words_a();
    lemma_read_call("Decimal32"@, inner);
    lemma_read_call("Decimal64"@, inner);
    lemma_read_call("Decimal128"@, inner);
    lemma_read_call("Decimal256"@, inner);
    lemma_read_call("FixedString"@, inner);
    lemma_sizes(listed(inner), ("Decimal32"@ + listed(inner)).len());
    lemma_sizes(listed(inner), ("Decimal64"@ + listed(inner)).len());
    lemma_sizes(listed(inner), ("Decimal128"@ + listed(inner)).len());
    lemma_sizes(listed(inner), ("Decimal256"@ + listed(inner)).len());
    lemma_sizes(listed(inner), ("FixedString"@ + listed(inner)).len());
}

/// A decimal of more than 76 digits is refused, and one without digits behind the point.
pub proof fn law_precisions_that_are_refused(p: nat, s: nat)
    requires
        p <= usize::MAX,
        s <= usize::MAX,
    ensures
        s == 0 ==> parsed_type("Decimal"@ + listed(dec_text(p) + ", "@ + dec_text(s))) == Err::<
            TypeView,
            TypeParseReason,
        >(TypeParseReason::InvalidScale),
        s > 0 && p > 76 ==> parsed_type("Decimal"@ + listed(dec_text(p) + ", "@ + dec_text(s)))
            == Err::<TypeView, TypeParseReason>(TypeParseReason::PrecisionTooLarge),
        p <= 76 && s > 76 ==> parsed_type("Decimal"@ + listed(dec_text(p) + ", "@ + dec_text(s)))
            == Err::<TypeView, TypeParseReason>(TypeParseReason::InvalidScale),
{
    let inner = dec_text(p) + ", "@ + dec_text(s);
    lemma_number_argument(p);
    lemma_number_argument(s);
    lemma_pair(dec_text(p), dec_text(s));
    lemma_list(seq![dec_text(p), dec_text(s)]);
    law_uint_text_reads_back(p, usize::MAX as nat);
    law_uint_text_reads_back(s, usize::MAX as nat);
    lemma_decimal_word();
    lemma_read_call("Decimal"@, inner);
    lemma_calls(listed(inner), ("Decimal"@ + listed(inner)).len());
}

proof fn lemma_decimal_word()
    ensures
        is_word("Decimal"@),
{
    reveal_with_fuel(crate::name_scan::word_from, 9);
    reveal_strlit("Decimal");
}

/// A type of one other takes no second argument, and a map takes two.
pub proof fn law_numbers_of_arguments(parts: Seq<Seq<char>>)
    requires
        all_arguments(parts),
    ensures
        parts.len() > 1 ==> {
            &&& parsed_type("Array"@ + listed(joined(parts))) == Err::<TypeView, TypeParseReason>(
                TypeParseReason::TooManyArguments,
            )
            &&& parsed_type("Nullable"@ + listed(joined(parts))) == Err::<TypeView, TypeParseReason>(
                TypeParseReason::TooManyArguments,
            )
            &&& parsed_type("LowCardinality"@ + listed(joined(parts))) == Err::<
                TypeView,
                TypeParseReason,
            >(TypeParseReason::TooManyArguments)
        },
        parts.len() > 2 ==> parsed_type("Map"@ + listed(joined(parts))) == Err::<
            TypeView,
            TypeParseReason,
        >(TypeParseReason::TooManyArguments),
        parts.len() < 2 ==> parsed_type("Map"@ + listed(joined(parts))) == Err::<
            TypeView,
            TypeParseReason,
        >(TypeParseReason::ArgumentCount),
{
    let inner = joined(parts);
    let rest = listed(inner);
    lemma_list(parts);
    assert(variable_args(rest) == Ok::<_, TypeParseReason>(parts));
    assert(arg_items(rest) is Ok);
    assert(arg_items(rest)->Ok_0.len() == parts.len());
    lemma_call_words_b();
    lemma_read_call("Array"@, inner);
    lemma_read_call("Nullable"@, inner);
    lemma_read_call("LowCardinality"@, inner);
    lemma_read_call("Map"@, inner);
    lemma_calls(rest, ("Array"@ + rest).len());
    lemma_calls(rest, ("Nullable"@ + rest).len());
    lemma_calls(rest, ("LowCardinality"@ + rest).len());
    lemma_calls(rest, ("Map"@ + rest).len());
}

/// A list of arguments does not end in a comma.
pub proof fn law_commas_at_the_end(inner: Seq<char>)
    requires
        inner.len() > 0,
        !is_white(inner[0]),
        inner.last() == ',',
    ensures
        forall|id: Seq<char>|
            #![trigger parsed_type(id + listed(inner))]
            id == "Array"@ || id == "Nullable"@ || id == "LowCardinality"@ || id == "Tuple"@ || id
                == "Variant"@ || id == "Map"@ ==> parsed_type(id + listed(inner)) == Err::<
                TypeView,
                TypeParseReason,
            >(TypeParseReason::TrailingComma),
{
    let rest = listed(inner);
    lemma_trimmed_same(inner);
    assert(rest.subrange(1, rest.len() - 1) =~= inner);
    assert(arg_items(rest) is Err);
    lemma_call_words_b();
    assert forall|id: Seq<char>|
        #![trigger parsed_type(id + listed(inner))]
        id == "Array"@ || id == "Nullable"@ || id == "LowCardinality"@ || id == "Tuple"@ || id
            == "Variant"@ || id == "Map"@ implies parsed_type(id + listed(inner)) == Err::<
        TypeView,
        TypeParseReason,
    >(TypeParseReason::TrailingComma) by {
        lemma_read_call(id, inner);
        lemma_calls(rest, (id + rest).len());
    }
}

/// A list of arguments that was opened has to be closed.
pub proof fn law_lists_are_closed(inner: Seq<char>)
    requires
        inner.len() > 0,
        inner.last() != ')',
        !is_white(inner.last()),
    ensures
        forall|id: Seq<char>|
            #![trigger parsed_type(id + (seq!['('] + inner))]
            id == "Array"@ || id == "Nullable"@ || id == "LowCardinality"@ || id == "Tuple"@ || id
                == "Variant"@ || id == "Map"@ ==> parsed_type(id + (seq!['('] + inner)) == Err::<
                TypeView,
                TypeParseReason,
            >(TypeParseReason::MalformedArguments),
{
    let rest = seq!['('] + inner;
    assert(rest[0] == '(');
    assert(rest.last() == inner.last());
    assert(!is_white('('));
    lemma_trimmed_same(rest);
    lemma_call_words_b();
    assert forall|id: Seq<char>|
        #![trigger parsed_type(id + (seq!['('] + inner))]
        id == "Array"@ || id == "Nullable"@ || id == "LowCardinality"@ || id == "Tuple"@ || id
            == "Variant"@ || id == "Map"@ implies parsed_type(id + (seq!['('] + inner)) == Err::<
        TypeView,
        TypeParseReason,
    >(TypeParseReason::MalformedArguments) by {
        lemma_word(id, rest);
        lemma_calls(rest, (id + rest).len());
    }
}

/// Only the names of types that are made of others, or of sizes, zones, options or settings, take
/// arguments.
pub proof fn law_names_without_arguments(id: Seq<char>, inner: Seq<char>)
    requires
        is_word(id),
        id != "Object"@ && id != "Decimal"@ && id != "Decimal32"@ && id != "Decimal64"@,
        id != "Decimal128"@ && id != "Decimal256"@ && id != "FixedString"@ && id != "DateTime"@,
        id != "DateTime64"@ && id != "Enum8"@ && id != "Enum16"@ && id != "LowCardinality"@,
        id != "Array"@ && id != "Nullable"@ && id != "Tuple"@ && id != "Map"@ && id != "Variant"@,
        id != "Dynamic"@ && id != "JSON"@ && id != "Nested"@,
    ensures
        parsed_type(id + listed(inner)) == Err::<TypeView, TypeParseReason>(
            TypeParseReason::NotParameterized,
        ),
{
    lemma_read_call(id, inner);
}

/// The zone of a time stands in quotes.
pub proof fn law_zones_stand_in_quotes(x: Seq<char>)
    requires
        is_argument(x),
        x.len() < 2 || x[0] != '\'' || x.last() != '\'',
    ensures
        parsed_type("DateTime"@ + listed(x)) == Err::<TypeView, TypeParseReason>(
            TypeParseReason::UnquotedTimezone,
        ),
{
    lemma_single(x, 1);
    lemma_call_words_a();
    lemma_read_call("DateTime"@, x);
    lemma_calls(listed(x), ("DateTime"@ + listed(x)).len());
}

/// A type of any values takes one setting, the greatest number of types.
pub proof fn law_settings_of_any_values(x: Seq<char>)
    requires
        is_argument(x),
        !"max_types="@.is_prefix_of(x),
    ensures
        parsed_type("Dynamic"@ + listed(x)) == Err::<TypeView, TypeParseReason>(
            TypeParseReason::UnknownDynamicParameter,
        ),
{
    lemma_single(x, 1);
    lemma_call_words_b();
    lemma_trimmed_same(x);
    lemma_read_call("Dynamic"@, x);
    lemma_call_marks();
    let args = seq![x];
    assert(after_prefix(x, "max_types="@) is None);
    assert(dynamic_params(args, None) is Err);
}

// ---------------------------------------------------------------------------
// Options
// ---------------------------------------------------------------------------

proof fn lemma_run_then(s: Seq<char>, c: char, i: int, st: EnumScan, min: int, max: int)
    requires
        0 <= i <= s.len(),
    ensures
        enum_run(s.push(c), i, st, min, max) == (match enum_run(s, i, st, min, max) {
            Err(e) => Err(e),
            Ok(last) => enum_step(last, c, min, max),
        }),
    decreases s.len() - i,
{
    let all = s.push(c);
    if i < s.len() {
        assert(all[i] == s[i]);
        if let Ok(next) = enum_step(st, s[i], min, max) {
            lemma_run_then(s, c, i + 1, next, min, max);
        }
    } else {
        assert(all[i] == c);
        if let Ok(next) = enum_step(st, c, min, max) {
            assert(enum_run(all, i + 1, next, min, max) == Ok::<_, TypeParseReason>(next));
        }
    }
}

/// Options that can be read are refused with a comma behind them.
pub proof fn law_options_end_without_a_comma(x: Seq<char>, min: int, max: int)
    requires
        x.len() > 0,
        !is_white(x[0]),
        !is_white(x.last()),
        enum_options(listed(x), min, max) is Ok,
    ensures
        enum_options(listed(x.push(',')), min, max) is Err,
{
    let y = x.push(',');
    lemma_trimmed_same(x);
    lemma_trimmed_same(y);
    assert(listed(x).subrange(1, listed(x).len() - 1) =~= x);
    assert(listed(y).subrange(1, listed(y).len() - 1) =~= y);
    lemma_run_then(x, ',', 0, enum_start(), min, max);
}

/// Options stand in parentheses.
pub proof fn law_options_stand_in_parentheses(x: Seq<char>, min: int, max: int)
    requires
        x.len() < 2 || x[0] != '(' || x.last() != ')',
    ensures
        enum_options(x, min, max) == Err::<Seq<(Seq<char>, int)>, TypeParseReason>(
            TypeParseReason::EnumNotParenthesized,
        ),
{
}

} // verus!
