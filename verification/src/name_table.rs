//! Which names types have, and what they hold.
use vstd::arithmetic::power::{lemma_pow_adds, lemma_pow_increases, lemma_pow_positive, lemma_pow1, pow};
use vstd::prelude::*;

use crate::error::TypeParseReason;
use crate::name_laws::{lemma_pair, listed};
use crate::name_paths::{is_path_char, is_plain_path, lemma_path_ends, lemma_unquoted_same};
use crate::name_round_trip::{law_type_name_reads_back, nests};
use crate::name_scan::{is_word, lemma_list, lemma_number_argument, word_from};
use crate::name_words::{lemma_call_marks, lemma_plain_marks, lemma_read_call, lemma_read_word};
use crate::text::{
    dec_text, int_text, is_white, law_uint_text_reads_back, lemma_trimmed_same, same_char,
    skip_back, skip_front, trimmed, unquoted,
};
use crate::type_args::fixed_args;
use crate::type_display::{
    escaped, field_texts, joined, param_text, pattern_texts, skip_texts, type_text, type_texts,
};
use crate::type_parse::{json_arg, parsed_type, plain_type, JsonArg};
use crate::types::{utc, zone_name, TypeView};

verus! {

// ---------------------------------------------------------------------------
// Words
// ---------------------------------------------------------------------------

/// The names of the types without arguments.
pub proof fn law_table_of_names()
    ensures
        type_text(TypeView::Int8) == "Int8"@,
        type_text(TypeView::Int16) == "Int16"@,
        type_text(TypeView::Int32) == "Int32"@,
        type_text(TypeView::Int64) == "Int64"@,
        type_text(TypeView::Int128) == "Int128"@,
        type_text(TypeView::Int256) == "Int256"@,
        type_text(TypeView::UInt8) == "UInt8"@,
        type_text(TypeView::UInt16) == "UInt16"@,
        type_text(TypeView::UInt32) == "UInt32"@,
        type_text(TypeView::UInt64) == "UInt64"@,
        type_text(TypeView::UInt128) == "UInt128"@,
        type_text(TypeView::UInt256) == "UInt256"@,
        type_text(TypeView::Float32) == "Float32"@,
        type_text(TypeView::Float64) == "Float64"@,
        type_text(TypeView::String) == "String"@,
        type_text(TypeView::Binary) == "String"@,
        type_text(TypeView::Uuid) == "UUID"@,
        type_text(TypeView::Date) == "Date"@,
        type_text(TypeView::Date32) == "Date32"@,
        type_text(TypeView::Ipv4) == "IPv4"@,
        type_text(TypeView::Ipv6) == "IPv6"@,
        type_text(TypeView::Point) == "Point"@,
        type_text(TypeView::Ring) == "Ring"@,
        type_text(TypeView::Polygon) == "Polygon"@,
        type_text(TypeView::MultiPolygon) == "MultiPolygon"@,
        type_text(TypeView::Object) == "Object"@,
        type_text(TypeView::Nothing) == "Nothing"@,
        type_text(TypeView::Bool) == "Bool"@,
        type_text(TypeView::Dynamic { max_types: None }) == "Dynamic"@,
{
}

/// The name of a type without arguments is read as the type.
pub proof fn law_words_name_types(t: TypeView)
    requires
        t is Int8 || t is Int16 || t is Int32 || t is Int64 || t is Int128 || t is Int256
            || t is UInt8 || t is UInt16 || t is UInt32 || t is UInt64 || t is UInt128
            || t is UInt256 || t is Float32 || t is Float64 || t is String || t is Uuid || t is Date
            || t is Date32 || t is Ipv4 || t is Ipv6 || t is Point || t is Ring || t is Polygon
            || t is MultiPolygon || t is Object,
    ensures
        parsed_type(type_text(t)) == Ok::<_, TypeParseReason>(t),
{
    law_type_name_reads_back(t);
}

/// The name of truth values is read as that of numbers of one byte.
pub proof fn law_truth_values_are_bytes()
    ensures
        parsed_type("Bool"@) == Ok::<_, TypeParseReason>(TypeView::UInt8),
{
    lemma_more_words();
    lemma_plain_marks();
    lemma_read_word("Bool"@);
}

/// Identifiers and documents have more names than one.
#[verifier::spinoff_prover]
#[verifier::rlimit(60)]
pub proof fn law_other_names()
    ensures
        plain_type("Uuid"@) == Ok::<_, TypeParseReason>(TypeView::Uuid),
        plain_type("uuid"@) == Ok::<_, TypeParseReason>(TypeView::Uuid),
        plain_type("Json"@) == Ok::<_, TypeParseReason>(TypeView::Object),
        plain_type("OBJECT"@) == Ok::<_, TypeParseReason>(TypeView::Object),
        is_word("Uuid"@),
        is_word("uuid"@),
        is_word("Json"@),
        is_word("OBJECT"@),
{
    lemma_more_words();
    lemma_plain_marks();
}

/// Times of which no zone is told are in UTC.
pub proof fn law_times_are_in_utc()
    ensures
        parsed_type("DateTime"@) == Ok::<_, TypeParseReason>(TypeView::DateTime(utc())),
{
    lemma_more_words();
    lemma_plain_marks();
    lemma_read_word("DateTime"@);
}

proof fn lemma_more_words()
    ensures
        is_word("Bool"@),
        is_word("Uuid"@),
        is_word("uuid"@),
        is_word("Json"@),
        is_word("OBJECT"@),
        is_word("DateTime"@),
{
    reveal_with_fuel(word_from, 16);
    reveal_strlit("Bool");
    reveal_strlit("Uuid");
    reveal_strlit("uuid");
    reveal_strlit("Json");
    reveal_strlit("OBJECT");
    reveal_strlit("DateTime");
}

/// The names of types with arguments.
pub proof fn law_names_with_arguments(t: TypeView, u: TypeView, n: usize)
    ensures
        type_text(TypeView::Array(Box::new(t))) == "Array("@ + type_text(t) + ")"@,
        type_text(TypeView::Nullable(Box::new(t))) == "Nullable("@ + type_text(t) + ")"@,
        type_text(TypeView::LowCardinality(Box::new(t))) == "LowCardinality("@ + type_text(t)
            + ")"@,
        type_text(TypeView::MapOf(Box::new(t), Box::new(u))) == "Map("@ + type_text(t) + ", "@
            + type_text(u) + ")"@,
        type_text(TypeView::Tuple(seq![t, u])) == "Tuple("@ + (type_text(t) + ", "@ + type_text(u))
            + ")"@,
        type_text(TypeView::Variant(seq![t, u])) == "Variant("@ + (type_text(t) + ", "@ + type_text(
            u,
        )) + ")"@,
        type_text(TypeView::FixedSizedString(n)) == "FixedString("@ + dec_text(n as nat) + ")"@,
        type_text(TypeView::Decimal32(n)) == "Decimal32("@ + dec_text(n as nat) + ")"@,
        type_text(TypeView::Decimal64(n)) == "Decimal64("@ + dec_text(n as nat) + ")"@,
        type_text(TypeView::Decimal128(n)) == "Decimal128("@ + dec_text(n as nat) + ")"@,
        type_text(TypeView::Decimal256(n)) == "Decimal256("@ + dec_text(n as nat) + ")"@,
{
    let ts = seq![t, u];
    let one = ts.subrange(0, 1);
    assert(one =~= seq![t]);
    assert(one.subrange(0, 0) =~= Seq::<TypeView>::empty());
    reveal_with_fuel(type_texts, 3);
    assert(type_texts(one) =~= seq![type_text(t)]);
    assert(type_texts(ts) =~= seq![type_text(t), type_text(u)]);
    let parts = seq![type_text(t), type_text(u)];
    assert(parts.drop_last() =~= seq![type_text(t)]);
    assert(joined(seq![type_text(t)]) == type_text(t));
    assert(joined(parts) == type_text(t) + ", "@ + type_text(u));
}

/// A name with arguments is read as the type that it names of the types that they name: the
/// key of a map before its value.
pub proof fn law_arguments_are_read(t: TypeView, u: TypeView)
    requires
        nests(t),
        nests(u),
    ensures
        parsed_type("Array("@ + type_text(t) + ")"@) == Ok::<_, TypeParseReason>(
            TypeView::Array(Box::new(t)),
        ),
        parsed_type("Nullable("@ + type_text(t) + ")"@) == Ok::<_, TypeParseReason>(
            TypeView::Nullable(Box::new(t)),
        ),
        parsed_type("LowCardinality("@ + type_text(t) + ")"@) == Ok::<_, TypeParseReason>(
            TypeView::LowCardinality(Box::new(t)),
        ),
        parsed_type("Map("@ + type_text(t) + ", "@ + type_text(u) + ")"@) == Ok::<
            _,
            TypeParseReason,
        >(TypeView::MapOf(Box::new(t), Box::new(u))),
        parsed_type("Tuple("@ + (type_text(t) + ", "@ + type_text(u)) + ")"@) == Ok::<
            _,
            TypeParseReason,
        >(TypeView::Tuple(seq![t, u])),
        parsed_type("Variant("@ + (type_text(t) + ", "@ + type_text(u)) + ")"@) == Ok::<
            _,
            TypeParseReason,
        >(TypeView::Variant(seq![t, u])),
{
    law_names_with_arguments(t, u, 0);
    let ts = seq![t, u];
    assert forall|i: int| 0 <= i < ts.len() implies nests(#[trigger] ts[i]) by {
        if i == 0 {
            assert(ts[i] == t);
        } else {
            assert(ts[i] == u);
        }
    }
    law_type_name_reads_back(TypeView::Array(Box::new(t)));
    law_type_name_reads_back(TypeView::Nullable(Box::new(t)));
    law_type_name_reads_back(TypeView::LowCardinality(Box::new(t)));
    law_type_name_reads_back(TypeView::MapOf(Box::new(t), Box::new(u)));
    law_type_name_reads_back(TypeView::Tuple(ts));
    law_type_name_reads_back(TypeView::Variant(ts));
}

// ---------------------------------------------------------------------------
// Decimals
// ---------------------------------------------------------------------------

proof fn lemma_powers_of_ten()
    ensures
        pow(10, 9) == 1_000_000_000,
        pow(10, 10) == 10_000_000_000,
        pow(10, 18) == 1_000_000_000_000_000_000,
        pow(10, 19) == 10_000_000_000_000_000_000,
        pow(10, 38) == 100_000_000_000_000_000_000_000_000_000_000_000_000,
        pow(10, 39) == 10 * pow(10, 38),
        pow(10, 76) == pow(10, 38) * pow(10, 38),
{
    reveal(pow);
    reveal_with_fuel(pow, 41);
    lemma_pow_adds(10, 38, 38);
}

/// A decimal type of a precision holds every number with that many digits in the bytes of its
/// cells, four, eight, sixteen or thirty-two, and the next narrower type does not. It has the
/// scale that was told.
pub proof fn law_decimal_holds_its_digits(p: nat, s: nat)
    requires
        1 <= s <= p <= 76,
    ensures
        ({
            let name = "Decimal("@ + (dec_text(p) + ", "@ + dec_text(s)) + ")"@;
            let greatest = pow(10, p) - 1;
            &&& parsed_type(name) is Ok
            &&& parsed_type(name)->Ok_0 == (if greatest < 0x8000_0000 {
                TypeView::Decimal32(s as usize)
            } else if greatest < 0x8000_0000_0000_0000 {
                TypeView::Decimal64(s as usize)
            } else if greatest < 0x8000_0000_0000_0000_0000_0000_0000_0000 {
                TypeView::Decimal128(s as usize)
            } else {
                TypeView::Decimal256(s as usize)
            })
            &&& greatest < pow(2, 255)
        }),
        p <= 9 <==> pow(10, p) - 1 < 0x8000_0000,
        p <= 18 <==> pow(10, p) - 1 < 0x8000_0000_0000_0000,
        p <= 38 <==> pow(10, p) - 1 < 0x8000_0000_0000_0000_0000_0000_0000_0000,
{
    let name = "Decimal("@ + (dec_text(p) + ", "@ + dec_text(s)) + ")"@;
    lemma_decimal_name(p, s);
    lemma_powers_of_ten();
    lemma_digits(p);
    lemma_widest();
}

proof fn lemma_powers_of_two()
    ensures
        pow(2, 127) == 0x8000_0000_0000_0000_0000_0000_0000_0000,
{
    assert(pow(2, 64) == 0x1_0000_0000_0000_0000 && pow(2, 63) == 0x8000_0000_0000_0000) by {
        reveal(pow);
        reveal_with_fuel(pow, 66);
    }
    lemma_pow_adds(2, 64, 63);
    assert(0x1_0000_0000_0000_0000 * 0x8000_0000_0000_0000
        == 0x8000_0000_0000_0000_0000_0000_0000_0000);
}

proof fn lemma_widest()
    ensures
        pow(10, 76) < pow(2, 255),
{
    lemma_powers_of_ten();
    lemma_powers_of_two();
    lemma_pow_adds(2, 127, 127);
    lemma_pow_adds(2, 254, 1);
    lemma_pow1(2);
    lemma_pow_positive(2, 254);
    let a = pow(10, 38);
    let b = pow(2, 127);
    assert(a < b);
    assert(a * a < b * b) by (nonlinear_arith)
        requires
            0 < a < b,
    ;
}

proof fn lemma_digits(p: nat)
    requires
        1 <= p <= 76,
    ensures
        p <= 9 <==> pow(10, p) - 1 < 0x8000_0000,
        p <= 18 <==> pow(10, p) - 1 < 0x8000_0000_0000_0000,
        p <= 38 <==> pow(10, p) - 1 < 0x8000_0000_0000_0000_0000_0000_0000_0000,
        pow(10, p) <= pow(10, 76),
{
    lemma_powers_of_ten();
    if p <= 9 {
        lemma_pow_increases(10, p, 9);
    } else {
        lemma_pow_increases(10, 10, p);
    }
    if p <= 18 {
        lemma_pow_increases(10, p, 18);
    } else {
        lemma_pow_increases(10, 19, p);
    }
    if p <= 38 {
        lemma_pow_increases(10, p, 38);
    } else {
        lemma_pow_increases(10, 39, p);
    }
    lemma_pow_increases(10, p, 76);
}

proof fn lemma_decimal_name(p: nat, s: nat)
    requires
        1 <= s <= p <= 76,
    ensures
        ({
            let name = "Decimal("@ + (dec_text(p) + ", "@ + dec_text(s)) + ")"@;
            parsed_type(name) == Ok::<_, TypeParseReason>(
                if p <= 9 {
                    TypeView::Decimal32(s as usize)
                } else if p <= 18 {
                    TypeView::Decimal64(s as usize)
                } else if p <= 38 {
                    TypeView::Decimal128(s as usize)
                } else {
                    TypeView::Decimal256(s as usize)
                },
            )
        }),
{
    let a = dec_text(p);
    let b = dec_text(s);
    let inner = a + ", "@ + b;
    let name = "Decimal("@ + inner + ")"@;
    reveal_strlit("Decimal(");
    reveal_strlit("Decimal");
    reveal_strlit(")");
    assert("Decimal("@ =~= "Decimal"@ + seq!['(']);
    crate::name_laws::lemma_call_text("Decimal"@, "Decimal("@, inner);
    lemma_number_argument(p);
    lemma_number_argument(s);
    lemma_pair(a, b);
    let parts = seq![a, b];
    lemma_list(parts);
    law_uint_text_reads_back(p, usize::MAX as nat);
    law_uint_text_reads_back(s, usize::MAX as nat);
    assert(parts[0] == a && parts[1] == b);
    assert(fixed_args(listed(inner), 2) == Ok::<_, TypeParseReason>(parts));
    lemma_call_marks();
    assert(is_word("Decimal"@)) by {
        reveal_with_fuel(word_from, 16);
    }
    lemma_read_call("Decimal"@, inner);
}

/// A decimal type that is named by its width has the scale that is told, up to as many digits
/// as it holds.
pub proof fn law_decimals_of_a_width(s: nat)
    requires
        s <= usize::MAX,
    ensures
        1 <= s <= 9 ==> parsed_type("Decimal32("@ + dec_text(s) + ")"@) == Ok::<
            _,
            TypeParseReason,
        >(TypeView::Decimal32(s as usize)),
        1 <= s <= 18 ==> parsed_type("Decimal64("@ + dec_text(s) + ")"@) == Ok::<
            _,
            TypeParseReason,
        >(TypeView::Decimal64(s as usize)),
        1 <= s <= 38 ==> parsed_type("Decimal128("@ + dec_text(s) + ")"@) == Ok::<
            _,
            TypeParseReason,
        >(TypeView::Decimal128(s as usize)),
        1 <= s <= 76 ==> parsed_type("Decimal256("@ + dec_text(s) + ")"@) == Ok::<
            _,
            TypeParseReason,
        >(TypeView::Decimal256(s as usize)),
        1 <= s ==> parsed_type("FixedString("@ + dec_text(s) + ")"@) == Ok::<_, TypeParseReason>(
            TypeView::FixedSizedString(s as usize),
        ),
{
    law_names_with_arguments(TypeView::Int8, TypeView::Int8, s as usize);
    if 1 <= s <= 9 {
        law_type_name_reads_back(TypeView::Decimal32(s as usize));
    }
    if 1 <= s <= 18 {
        law_type_name_reads_back(TypeView::Decimal64(s as usize));
    }
    if 1 <= s <= 38 {
        law_type_name_reads_back(TypeView::Decimal128(s as usize));
    }
    if 1 <= s <= 76 {
        law_type_name_reads_back(TypeView::Decimal256(s as usize));
    }
    if 1 <= s {
        law_type_name_reads_back(TypeView::FixedSizedString(s as usize));
    }
}

// ---------------------------------------------------------------------------
// Times, enumerations and limits
// ---------------------------------------------------------------------------

/// The names of times tell their precision and their zone, those of enumerations the names and
/// the numbers of their options, and those of values of any types a limit, if there is one.
pub proof fn law_names_of_times_and_options(
    tz: chrono_tz::Tz,
    p: usize,
    name: Seq<char>,
    x: i8,
    y: i16,
    n: u32,
)
    ensures
        type_text(TypeView::DateTime(tz)) == "DateTime('"@ + zone_name(tz) + "')"@,
        type_text(TypeView::DateTime64(p, tz)) == "DateTime64("@ + dec_text(p as nat) + ", '"@
            + zone_name(tz) + "')"@,
        type_text(TypeView::Enum8(seq![(name, x)])) == "Enum8("@ + ("'"@ + escaped(name) + "' = "@
            + int_text(x as int)) + ")"@,
        type_text(TypeView::Enum16(seq![(name, y)])) == "Enum16("@ + ("'"@ + escaped(name) + "' = "@
            + int_text(y as int)) + ")"@,
        type_text(TypeView::Dynamic { max_types: Some(n) }) == "Dynamic(max_types="@ + dec_text(
            n as nat,
        ) + ")"@,
{
    let a = crate::type_display::option_texts8(seq![(name, x)]);
    let b = crate::type_display::option_texts16(seq![(name, y)]);
    assert(a =~= seq!["'"@ + escaped(name) + "' = "@ + int_text(x as int)]);
    assert(b =~= seq!["'"@ + escaped(name) + "' = "@ + int_text(y as int)]);
    assert(joined(a) == a[0]);
    assert(joined(b) == b[0]);
}

/// A quote or a backslash in the name of an option stands behind a backslash.
pub proof fn law_names_of_options(name: Seq<char>, c: char)
    ensures
        escaped(Seq::empty()).len() == 0,
        c == '\'' || c == '\\' ==> escaped(name.push(c)) == escaped(name).push('\\').push(c),
        c != '\'' && c != '\\' ==> escaped(name.push(c)) == escaped(name).push(c),
{
    assert(name.push(c).drop_last() =~= name);
}

/// The name of a type of documents tells its limits, then its paths with types of their own, then
/// the paths that are left out, and then the patterns.
pub proof fn law_names_of_documents(n: u32, path: Seq<char>, t: TypeView, pattern: Seq<char>)
    ensures
        ({
            let plain = TypeView::JSON {
                max_dynamic_paths: None,
                max_dynamic_types: None,
                typed_paths: Seq::empty(),
                skip_exact: Seq::empty(),
                skip_regex: Seq::empty(),
            };
            type_text(plain) == "JSON"@
        }),
        type_text(
            TypeView::JSON {
                max_dynamic_paths: Some(n),
                max_dynamic_types: None,
                typed_paths: Seq::empty(),
                skip_exact: Seq::empty(),
                skip_regex: Seq::empty(),
            },
        ) == "JSON("@ + ("max_dynamic_paths="@ + dec_text(n as nat)) + ")"@,
        type_text(
            TypeView::JSON {
                max_dynamic_paths: None,
                max_dynamic_types: Some(n),
                typed_paths: Seq::empty(),
                skip_exact: Seq::empty(),
                skip_regex: Seq::empty(),
            },
        ) == "JSON("@ + ("max_dynamic_types="@ + dec_text(n as nat)) + ")"@,
        type_text(
            TypeView::JSON {
                max_dynamic_paths: None,
                max_dynamic_types: None,
                typed_paths: seq![(path, t)],
                skip_exact: Seq::empty(),
                skip_regex: Seq::empty(),
            },
        ) == "JSON("@ + (path + " "@ + type_text(t)) + ")"@,
        type_text(
            TypeView::JSON {
                max_dynamic_paths: None,
                max_dynamic_types: None,
                typed_paths: Seq::empty(),
                skip_exact: seq![path],
                skip_regex: Seq::empty(),
            },
        ) == "JSON("@ + ("SKIP "@ + path) + ")"@,
        type_text(
            TypeView::JSON {
                max_dynamic_paths: None,
                max_dynamic_types: None,
                typed_paths: Seq::empty(),
                skip_exact: Seq::empty(),
                skip_regex: seq![pattern],
            },
        ) == "JSON("@ + ("SKIP REGEXP '"@ + pattern + "'"@) + ")"@,
{
    let no_fields = Seq::<(Seq<char>, TypeView)>::empty();
    let no_texts = Seq::<Seq<char>>::empty();
    assert(field_texts(no_fields) =~= no_texts);
    assert(skip_texts(no_texts) =~= no_texts);
    assert(pattern_texts(no_texts) =~= no_texts);
    assert(param_text("max_dynamic_paths="@, None) =~= no_texts);
    assert(param_text("max_dynamic_types="@, None) =~= no_texts);
    let one = seq![(path, t)];
    assert(one.subrange(0, 0) =~= no_fields);
    assert(field_texts(one) =~= seq![path + " "@ + type_text(t)]);
    assert(skip_texts(seq![path]) =~= seq!["SKIP "@ + path]);
    assert(pattern_texts(seq![pattern]) =~= seq!["SKIP REGEXP '"@ + pattern + "'"@]);
    let a = "max_dynamic_paths="@ + dec_text(n as nat);
    let b = "max_dynamic_types="@ + dec_text(n as nat);
    assert(seq![a] + no_texts + no_texts + no_texts + no_texts =~= seq![a]);
    assert(no_texts + seq![b] + no_texts + no_texts + no_texts =~= seq![b]);
    assert(no_texts + no_texts + field_texts(one) + no_texts + no_texts =~= field_texts(one));
    assert(no_texts + no_texts + no_texts + skip_texts(seq![path]) + no_texts =~= skip_texts(
        seq![path],
    ));
    assert(no_texts + no_texts + no_texts + no_texts + pattern_texts(seq![pattern])
        =~= pattern_texts(seq![pattern]));
    assert(no_texts + no_texts + no_texts + no_texts + no_texts =~= no_texts);
}

proof fn lemma_in_quotes(path: Seq<char>, q: char)
    requires
        path.len() > 0,
        path[0] != q,
        path.last() != q,
    ensures
        unquoted(seq![q] + path + seq![q], q) == path,
{
    let f = same_char(q);
    let s = seq![q] + path + seq![q];
    assert(s[0] == q && f(s[0]));
    let front = s.skip(1);
    assert(front =~= path + seq![q]);
    assert(front[0] == path[0] && !f(front[0]));
    assert(skip_front(front, f) == front);
    assert(skip_front(s, f) == front);
    assert(front.last() == q && f(front.last()));
    assert(front.drop_last() =~= path);
    assert(!f(path.last()));
    assert(skip_back(path, f) == path);
}

/// A path that is left out may stand in quotes of either kind or in backticks.
pub proof fn law_paths_in_quotes(path: Seq<char>, q: char)
    requires
        is_plain_path(path),
        q == '`' || q == '\'' || q == '"',
    ensures
        json_arg("SKIP "@ + path) == JsonArg::SkipPath(path),
        json_arg("SKIP "@ + (seq![q] + path + seq![q])) == JsonArg::SkipPath(path),
{
    lemma_path_ends(path);
    let s = seq![q] + path + seq![q];
    assert(s[0] == q && s.last() == q);
    assert(!is_white(q));
    lemma_trimmed_same(s);
    lemma_in_quotes(path, q);
    if q != '`' {
        lemma_unquoted_same(s, '`');
    }
    if q == '"' {
        lemma_unquoted_same(s, '\'');
    }
    reveal_strlit("REGEXP ");
    if "REGEXP "@.is_prefix_of(path) {
        assert("REGEXP "@[6] == path.subrange(0, 7)[6]);
        assert(is_path_char(path[6]));
    }
    if "REGEXP "@.is_prefix_of(s) {
        assert("REGEXP "@[0] == s.subrange(0, 7)[0]);
    }
    lemma_skip_argument(path);
    lemma_skip_argument(s);
}

proof fn lemma_skip_argument(v: Seq<char>)
    requires
        v.len() > 0,
        !"REGEXP "@.is_prefix_of(v),
    ensures
        json_arg("SKIP "@ + v) == JsonArg::SkipPath(
            unquoted(unquoted(unquoted(trimmed(v), '`'), '\''), '"'),
        ),
{
    reveal_strlit("SKIP ");
    reveal_strlit("SKIP REGEXP ");
    reveal_strlit("max_dynamic_paths=");
    reveal_strlit("max_dynamic_types=");
    let arg = "SKIP "@ + v;
    assert(arg[0] == 'S' && arg[5] == v[0]);
    assert("SKIP "@.is_prefix_of(arg)) by {
        assert(arg.subrange(0, 5) =~= "SKIP "@);
    }
    assert(arg.skip(5) =~= v);
    if "SKIP REGEXP "@.is_prefix_of(arg) {
        reveal_strlit("REGEXP ");
        assert("REGEXP "@ =~= "SKIP REGEXP "@.subrange(5, 12));
        assert(v.subrange(0, 7) =~= arg.subrange(0, 12).subrange(5, 12));
    }
    if "max_dynamic_paths="@.is_prefix_of(arg) {
        assert("max_dynamic_paths="@[0] == arg.subrange(0, 18)[0]);
    }
    if "max_dynamic_types="@.is_prefix_of(arg) {
        assert("max_dynamic_types="@[0] == arg.subrange(0, 18)[0]);
    }
}

} // verus!
