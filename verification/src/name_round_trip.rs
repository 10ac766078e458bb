//! Every type that its name tells is read back from it.
use vstd::prelude::*;

use crate::error::TypeParseReason;
use crate::name_laws::{
    lemma_call_text, lemma_datetime64_reads_back, lemma_datetime_reads_back,
    lemma_dynamic_reads_back, lemma_enum16_reads_back, lemma_enum8_reads_back,
    lemma_inner_reads_back, lemma_map_reads_back, lemma_number_reads_back, lemma_param_argument,
    lemma_types_read_back, listed, number_fits,
};
use crate::name_scan::{
    all_arguments, is_argument, lemma_call_argument, lemma_list, lemma_over_joined,
    lemma_word_argument,
};
use crate::name_words::{
    lemma_call_marks, lemma_call_words_b, lemma_other_words, lemma_plain_marks,
    lemma_plain_reads_back, lemma_read_call, lemma_read_word,
};
use crate::text::{dec_text, law_uint_text_reads_back, lemma_trimmed_same};
use crate::type_args::{lemma_args_shorter, variable_args};
use crate::type_display::{
    field_texts, joined, json_parts, lemma_field_texts, param_text, pattern_texts, skip_texts,
    type_text,
};
use crate::type_parse::{
    json_arg, json_params, no_json_params, parsed_type, type_with_args, JsonArg, JsonParams,
};
use crate::types::{is_name_of, zone_name, TypeView};

verus! {

// ---------------------------------------------------------------------------
// Which types their names tell
// ---------------------------------------------------------------------------

/// Whether a path with a type is told apart from the other parameters of a JSON type.
pub open spec fn typed_path_reads(path: Seq<char>, t: TypeView) -> bool {
    let s = path + " "@ + type_text(t);
    is_argument(s) && json_arg(s) == JsonArg::TypedPath(path, type_text(t))
}

/// Whether a path to leave out is told apart from the other parameters of a JSON type.
pub open spec fn skip_path_reads(path: Seq<char>) -> bool {
    let s = "SKIP "@ + path;
    is_argument(s) && json_arg(s) == JsonArg::SkipPath(path)
}

/// Whether a pattern to leave out is told apart from the other parameters of a JSON type.
pub open spec fn pattern_reads(pattern: Seq<char>) -> bool {
    let s = "SKIP REGEXP '"@ + pattern + "'"@;
    is_argument(s) && json_arg(s) == JsonArg::SkipPattern(pattern)
}

/// Whether the name of a type tells it within the names of other types.
///
/// The names of `Binary`, `FixedSizedBinary`, `Bool` and of tuples with named fields are
/// those of other types, and `Nothing` is not read. Scales must be in range. The options
/// of enumerations must leave no quotes open, and the paths of JSON types must be told
/// apart from the other parameters.
pub open spec fn nests(t: TypeView) -> bool
    decreases t,
{
    match t {
        TypeView::Binary | TypeView::FixedSizedBinary(_) | TypeView::Bool | TypeView::Nothing => {
            false
        },
        TypeView::TupleNamed(_) => false,
        TypeView::Decimal32(_) | TypeView::Decimal64(_) | TypeView::Decimal128(_) => number_fits(t),
        TypeView::Decimal256(_) | TypeView::FixedSizedString(_) => number_fits(t),
        TypeView::DateTime(tz) => is_name_of(zone_name(tz), tz),
        TypeView::DateTime64(_, tz) => is_name_of(zone_name(tz), tz),
        TypeView::Enum8(_) | TypeView::Enum16(_) => is_argument(type_text(t)),
        TypeView::LowCardinality(x) => nests(*x),
        TypeView::Array(x) => nests(*x),
        TypeView::Nullable(x) => nests(*x),
        TypeView::MapOf(k, x) => nests(*k) && nests(*x),
        TypeView::Tuple(v) => forall|i: int| 0 <= i < v.len() ==> nests(#[trigger] v[i]),
        TypeView::Variant(v) => v.len() > 0 && forall|i: int|
            0 <= i < v.len() ==> nests(#[trigger] v[i]),
        TypeView::JSON { typed_paths, skip_exact, skip_regex, .. } => {
            &&& forall|i: int|
                0 <= i < typed_paths.len() ==> nests((#[trigger] typed_paths[i]).1)
            &&& forall|i: int|
                0 <= i < typed_paths.len() ==> typed_path_reads(
                    (#[trigger] typed_paths[i]).0,
                    typed_paths[i].1,
                )
            &&& forall|i: int|
                0 <= i < skip_exact.len() ==> skip_path_reads(#[trigger] skip_exact[i])
            &&& forall|i: int|
                0 <= i < skip_regex.len() ==> pattern_reads(#[trigger] skip_regex[i])
        },
        _ => true,
    }
}

/// Whether the name of a type tells it. Enumerations may have options with any names
/// where they stand alone.
pub open spec fn name_tells(t: TypeView) -> bool {
    match t {
        TypeView::Enum8(_) | TypeView::Enum16(_) => true,
        _ => nests(t),
    }
}

// ---------------------------------------------------------------------------
// JSON types
// ---------------------------------------------------------------------------

proof fn lemma_patterns(v: Seq<Seq<char>>, p: JsonParams, len: nat)
    requires
        forall|i: int| 0 <= i < v.len() ==> pattern_reads(#[trigger] v[i]),
    ensures
        json_params(pattern_texts(v), p, len) == Ok::<_, TypeParseReason>(
            (JsonParams { skip_regex: p.skip_regex + v, ..p }),
        ),
    decreases v.len(),
{
    let args = pattern_texts(v);
    if v.len() == 0 {
        assert(p.skip_regex + v =~= p.skip_regex);
    } else {
        let tail = v.skip(1);
        assert(pattern_reads(v[0]));
        lemma_trimmed_same(args[0]);
        assert(args.skip(1) =~= pattern_texts(tail));
        assert forall|i: int| 0 <= i < tail.len() implies pattern_reads(#[trigger] tail[i]) by {
            assert(tail[i] == v[i + 1]);
        }
        lemma_patterns(tail, (JsonParams { skip_regex: p.skip_regex.push(v[0]), ..p }), len);
        assert(p.skip_regex.push(v[0]) + tail =~= p.skip_regex + v);
    }
}

proof fn lemma_skips(v: Seq<Seq<char>>, rest: Seq<Seq<char>>, p: JsonParams, len: nat)
    requires
        forall|i: int| 0 <= i < v.len() ==> skip_path_reads(#[trigger] v[i]),
    ensures
        json_params(skip_texts(v) + rest, p, len) == json_params(
            rest,
            (JsonParams { skip_exact: p.skip_exact + v, ..p }),
            len,
        ),
    decreases v.len(),
{
    let args = skip_texts(v) + rest;
    if v.len() == 0 {
        assert(args =~= rest);
        assert(p.skip_exact + v =~= p.skip_exact);
    } else {
        let tail = v.skip(1);
        assert(skip_path_reads(v[0]));
        assert(args[0] == "SKIP "@ + v[0]);
        lemma_trimmed_same(args[0]);
        assert(args.skip(1) =~= skip_texts(tail) + rest);
        assert forall|i: int| 0 <= i < tail.len() implies skip_path_reads(#[trigger] tail[i]) by {
            assert(tail[i] == v[i + 1]);
        }
        lemma_skips(tail, rest, (JsonParams { skip_exact: p.skip_exact.push(v[0]), ..p }), len);
        assert(p.skip_exact.push(v[0]) + tail =~= p.skip_exact + v);
    }
}

proof fn lemma_fields_tail(v: Seq<(Seq<char>, TypeView)>)
    requires
        v.len() > 0,
    ensures
        field_texts(v).len() == v.len(),
        field_texts(v)[0] == v[0].0 + " "@ + type_text(v[0].1),
        field_texts(v).skip(1) == field_texts(v.skip(1)),
{
    lemma_field_texts(v);
    lemma_field_texts(v.skip(1));
    assert(field_texts(v).skip(1) =~= field_texts(v.skip(1))) by {
        assert forall|i: int| 0 <= i < v.skip(1).len() implies field_texts(v).skip(1)[i]
            == field_texts(v.skip(1))[i] by {
            assert(v.skip(1)[i] == v[i + 1]);
            assert(field_texts(v)[i + 1] == v[i + 1].0 + " "@ + type_text(v[i + 1].1));
        }
    }
}

proof fn lemma_fields(
    v: Seq<(Seq<char>, TypeView)>,
    rest: Seq<Seq<char>>,
    p: JsonParams,
    len: nat,
)
    requires
        forall|i: int|
            0 <= i < v.len() ==> typed_path_reads((#[trigger] v[i]).0, v[i].1) && parsed_type(
                type_text(v[i].1),
            ) == Ok::<_, TypeParseReason>(v[i].1) && type_text(v[i].1).len() < len,
    ensures
        json_params(field_texts(v) + rest, p, len) == json_params(
            rest,
            (JsonParams { typed_paths: p.typed_paths + v, ..p }),
            len,
        ),
    decreases v.len(),
{
    let args = field_texts(v) + rest;
    if v.len() == 0 {
        assert(args =~= rest);
        assert(p.typed_paths + v =~= p.typed_paths);
    } else {
        let tail = v.skip(1);
        lemma_fields_tail(v);
        assert(typed_path_reads(v[0].0, v[0].1));
        assert(args[0] == v[0].0 + " "@ + type_text(v[0].1));
        lemma_trimmed_same(args[0]);
        assert(args.skip(1) =~= field_texts(tail) + rest);
        assert forall|i: int| 0 <= i < tail.len() implies typed_path_reads(
            (#[trigger] tail[i]).0,
            tail[i].1,
        ) && parsed_type(type_text(tail[i].1)) == Ok::<_, TypeParseReason>(tail[i].1) && type_text(
            tail[i].1,
        ).len() < len by {
            assert(tail[i] == v[i + 1]);
        }
        lemma_fields(tail, rest, (JsonParams { typed_paths: p.typed_paths.push(v[0]), ..p }), len);
        assert(p.typed_paths.push(v[0]) + tail =~= p.typed_paths + v);
        assert((v[0].0, v[0].1) == v[0]);
    }
}

proof fn lemma_max_paths(n: u32)
    ensures
        is_argument("max_dynamic_paths="@ + dec_text(n as nat)),
        json_arg("max_dynamic_paths="@ + dec_text(n as nat)) == JsonArg::MaxPaths(
            dec_text(n as nat),
        ),
{
    reveal_strlit("max_dynamic_paths=");
    let name = "max_dynamic_paths="@;
    lemma_param_argument(name, n);
    let s = name + dec_text(n as nat);
    assert(name.is_prefix_of(s));
    assert(s.skip(name.len() as int) =~= dec_text(n as nat));
}

proof fn lemma_max_types(n: u32)
    ensures
        is_argument("max_dynamic_types="@ + dec_text(n as nat)),
        json_arg("max_dynamic_types="@ + dec_text(n as nat)) == JsonArg::MaxTypes(
            dec_text(n as nat),
        ),
{
    reveal_strlit("max_dynamic_types=");
    reveal_strlit("max_dynamic_paths=");
    let name = "max_dynamic_types="@;
    lemma_param_argument(name, n);
    let s = name + dec_text(n as nat);
    assert(name.is_prefix_of(s));
    assert(s.skip(name.len() as int) =~= dec_text(n as nat));
    assert(s[12] == 't');
    assert("max_dynamic_paths="@[12] == 'p');
    assert(!"max_dynamic_paths="@.is_prefix_of(s));
}

proof fn lemma_params_paths(m: Option<u32>, rest: Seq<Seq<char>>, p: JsonParams, len: nat)
    requires
        p.max_dynamic_paths is None,
    ensures
        json_params(param_text("max_dynamic_paths="@, m) + rest, p, len) == json_params(
            rest,
            (JsonParams { max_dynamic_paths: m, ..p }),
            len,
        ),
        all_arguments(param_text("max_dynamic_paths="@, m)),
{
    let args = param_text("max_dynamic_paths="@, m) + rest;
    match m {
        None => {
            assert(args =~= rest);
        },
        Some(n) => {
            lemma_max_paths(n);
            let s = "max_dynamic_paths="@ + dec_text(n as nat);
            assert(args[0] == s);
            lemma_trimmed_same(s);
            assert(args.skip(1) =~= rest);
            law_uint_text_reads_back(n as nat, u32::MAX as nat);
        },
    }
}

proof fn lemma_params_types(m: Option<u32>, rest: Seq<Seq<char>>, p: JsonParams, len: nat)
    requires
        p.max_dynamic_types is None,
    ensures
        json_params(param_text("max_dynamic_types="@, m) + rest, p, len) == json_params(
            rest,
            (JsonParams { max_dynamic_types: m, ..p }),
            len,
        ),
        all_arguments(param_text("max_dynamic_types="@, m)),
{
    let args = param_text("max_dynamic_types="@, m) + rest;
    match m {
        None => {
            assert(args =~= rest);
        },
        Some(n) => {
            lemma_max_types(n);
            let s = "max_dynamic_types="@ + dec_text(n as nat);
            assert(args[0] == s);
            lemma_trimmed_same(s);
            assert(args.skip(1) =~= rest);
            law_uint_text_reads_back(n as nat, u32::MAX as nat);
        },
    }
}

/// The parameters of a JSON type, as they are read.
spec fn params_of(
    paths: Option<u32>,
    types: Option<u32>,
    typed: Seq<(Seq<char>, TypeView)>,
    exact: Seq<Seq<char>>,
    regex: Seq<Seq<char>>,
) -> JsonParams {
    JsonParams {
        max_dynamic_paths: paths,
        max_dynamic_types: types,
        typed_paths: typed,
        skip_exact: exact,
        skip_regex: regex,
    }
}

proof fn lemma_json_params(
    paths: Option<u32>,
    types: Option<u32>,
    typed: Seq<(Seq<char>, TypeView)>,
    exact: Seq<Seq<char>>,
    regex: Seq<Seq<char>>,
    len: nat,
)
    requires
        forall|i: int|
            0 <= i < typed.len() ==> typed_path_reads((#[trigger] typed[i]).0, typed[i].1)
                && parsed_type(type_text(typed[i].1)) == Ok::<_, TypeParseReason>(typed[i].1)
                && type_text(typed[i].1).len() < len,
        forall|i: int| 0 <= i < exact.len() ==> skip_path_reads(#[trigger] exact[i]),
        forall|i: int| 0 <= i < regex.len() ==> pattern_reads(#[trigger] regex[i]),
    ensures
        json_params(json_parts(paths, types, typed, exact, regex), no_json_params(), len) == Ok::<
            _,
            TypeParseReason,
        >(params_of(paths, types, typed, exact, regex)),
{
    let p0 = no_json_params();
    let p1 = JsonParams { max_dynamic_paths: paths, ..p0 };
    let p2 = JsonParams { max_dynamic_types: types, ..p1 };
    let p3 = JsonParams { typed_paths: p2.typed_paths + typed, ..p2 };
    let p4 = JsonParams { skip_exact: p3.skip_exact + exact, ..p3 };
    let r4 = pattern_texts(regex);
    let r3 = skip_texts(exact) + r4;
    let r2 = field_texts(typed) + r3;
    let r1 = param_text("max_dynamic_types="@, types) + r2;
    let all = json_parts(paths, types, typed, exact, regex);
    assert(all =~= param_text("max_dynamic_paths="@, paths) + r1);
    lemma_params_paths(paths, r1, p0, len);
    lemma_params_types(types, r2, p1, len);
    lemma_fields(typed, r3, p2, len);
    lemma_skips(exact, r4, p3, len);
    lemma_patterns(regex, p4, len);
    assert(p2.typed_paths + typed =~= typed);
    assert(p3.skip_exact + exact =~= exact);
    assert(p4.skip_regex + regex =~= regex);
}

proof fn lemma_json_arguments(
    paths: Option<u32>,
    types: Option<u32>,
    typed: Seq<(Seq<char>, TypeView)>,
    exact: Seq<Seq<char>>,
    regex: Seq<Seq<char>>,
)
    requires
        forall|i: int|
            0 <= i < typed.len() ==> typed_path_reads((#[trigger] typed[i]).0, typed[i].1),
        forall|i: int| 0 <= i < exact.len() ==> skip_path_reads(#[trigger] exact[i]),
        forall|i: int| 0 <= i < regex.len() ==> pattern_reads(#[trigger] regex[i]),
    ensures
        all_arguments(json_parts(paths, types, typed, exact, regex)),
        forall|i: int|
            0 <= i < typed.len() ==> exists|j: int|
                0 <= j < json_parts(paths, types, typed, exact, regex).len() && json_parts(
                    paths,
                    types,
                    typed,
                    exact,
                    regex,
                )[j] == (#[trigger] typed[i]).0 + " "@ + type_text(typed[i].1),
{
    let a = param_text("max_dynamic_paths="@, paths);
    let b = param_text("max_dynamic_types="@, types);
    let c = field_texts(typed);
    let d = skip_texts(exact);
    let e = pattern_texts(regex);
    let all = json_parts(paths, types, typed, exact, regex);
    lemma_params_paths(paths, Seq::empty(), no_json_params(), 0);
    lemma_params_types(types, Seq::empty(), no_json_params(), 0);
    lemma_field_texts(typed);
    assert forall|j: int| 0 <= j < all.len() implies is_argument(#[trigger] all[j]) by {
        let n1 = a.len();
        let n2 = n1 + b.len();
        let n3 = n2 + c.len();
        let n4 = n3 + d.len();
        if j < n1 {
            assert(all[j] == a[j]);
        } else if j < n2 {
            assert(all[j] == b[j - n1]);
        } else if j < n3 {
            assert(all[j] == c[j - n2]);
            assert(typed_path_reads(typed[j - n2].0, typed[j - n2].1));
        } else if j < n4 {
            assert(all[j] == d[j - n3]);
            assert(skip_path_reads(exact[j - n3]));
        } else {
            assert(all[j] == e[j - n4]);
            assert(pattern_reads(regex[j - n4]));
        }
    }
    assert forall|i: int| 0 <= i < typed.len() implies exists|j: int|
        0 <= j < all.len() && all[j] == (#[trigger] typed[i]).0 + " "@ + type_text(typed[i].1) by {
        let j = a.len() + b.len() + i;
        assert(all[j] == c[i]);
    }
}

proof fn lemma_with_json(rest: Seq<char>, len: nat)
    ensures
        type_with_args("JSON"@, rest, len) == (match variable_args(rest) {
            Err(e) => Err(e),
            Ok(args) => match json_params(args, no_json_params(), len) {
                Err(e) => Err(e),
                Ok(p) => Ok(
                    TypeView::JSON {
                        max_dynamic_paths: p.max_dynamic_paths,
                        max_dynamic_types: p.max_dynamic_types,
                        typed_paths: p.typed_paths,
                        skip_exact: p.skip_exact,
                        skip_regex: p.skip_regex,
                    },
                ),
            },
        }),
{
    lemma_call_marks();
}

proof fn lemma_plain_json()
    ensures
        ({
            let t = TypeView::JSON {
                max_dynamic_paths: None,
                max_dynamic_types: None,
                typed_paths: Seq::empty(),
                skip_exact: Seq::empty(),
                skip_regex: Seq::empty(),
            };
            &&& parsed_type("JSON"@) == Ok::<_, TypeParseReason>(t)
            &&& is_argument("JSON"@)
        }),
{
    lemma_other_words();
    lemma_plain_marks();
    lemma_read_word("JSON"@);
    lemma_word_argument("JSON"@);
}

#[verifier::spinoff_prover]
#[verifier::rlimit(50)]
proof fn lemma_json_reads_back(
    paths: Option<u32>,
    types: Option<u32>,
    typed: Seq<(Seq<char>, TypeView)>,
    exact: Seq<Seq<char>>,
    regex: Seq<Seq<char>>,
)
    requires
        forall|i: int|
            0 <= i < typed.len() ==> typed_path_reads((#[trigger] typed[i]).0, typed[i].1)
                && parsed_type(type_text(typed[i].1)) == Ok::<_, TypeParseReason>(typed[i].1),
        forall|i: int| 0 <= i < exact.len() ==> skip_path_reads(#[trigger] exact[i]),
        forall|i: int| 0 <= i < regex.len() ==> pattern_reads(#[trigger] regex[i]),
    ensures
        ({
            let t = TypeView::JSON {
                max_dynamic_paths: paths,
                max_dynamic_types: types,
                typed_paths: typed,
                skip_exact: exact,
                skip_regex: regex,
            };
            &&& parsed_type(type_text(t)) == Ok::<_, TypeParseReason>(t)
            &&& is_argument(type_text(t))
        }),
{
    let t = TypeView::JSON {
        max_dynamic_paths: paths,
        max_dynamic_types: types,
        typed_paths: typed,
        skip_exact: exact,
        skip_regex: regex,
    };
    let parts = json_parts(paths, types, typed, exact, regex);
    lemma_json_arguments(paths, types, typed, exact, regex);
    if parts.len() == 0 {
        lemma_field_texts(typed);
        assert(type_text(t) == "JSON"@);
        assert(typed =~= Seq::empty());
        assert(exact =~= Seq::empty());
        assert(regex =~= Seq::empty());
        lemma_plain_json();
    } else {
        let inner = joined(parts);
        let s = "JSON"@ + listed(inner);
        lemma_call_words_b();
        lemma_call_text("JSON"@, "JSON("@, inner);
        assert(type_text(t) == "JSON("@ + inner + ")"@);
        lemma_read_call("JSON"@, inner);
        lemma_list(parts);
        lemma_over_joined(parts, 1);
        lemma_call_argument("JSON"@, inner);
        lemma_args_shorter(listed(inner), 0);
        assert forall|i: int| 0 <= i < typed.len() implies typed_path_reads(
            (#[trigger] typed[i]).0,
            typed[i].1,
        ) && parsed_type(type_text(typed[i].1)) == Ok::<_, TypeParseReason>(typed[i].1)
            && type_text(typed[i].1).len() < s.len() by {
            let j = choose|j: int|
                0 <= j < parts.len() && parts[j] == typed[i].0 + " "@ + type_text(typed[i].1);
            assert(parts[j].len() < listed(inner).len());
        }
        lemma_json_params(paths, types, typed, exact, regex, s.len());
        lemma_with_json(listed(inner), s.len());
    }
}

// ---------------------------------------------------------------------------
// All types
// ---------------------------------------------------------------------------

/// Whether a type is read back from its name, which can stand within others.
spec fn told(t: TypeView) -> bool {
    parsed_type(type_text(t)) == Ok::<_, TypeParseReason>(t) && is_argument(type_text(t))
}

proof fn lemma_wrapped(t: TypeView, inner: TypeView)
    requires
        told(inner),
        t == TypeView::LowCardinality(Box::new(inner)) || t == TypeView::Array(Box::new(inner))
            || t == TypeView::Nullable(Box::new(inner)),
    ensures
        told(t),
{
    lemma_call_words_b();
    lemma_call_marks();
    let (id, open) = match t {
        TypeView::LowCardinality(_) => ("LowCardinality"@, "LowCardinality("@),
        TypeView::Array(_) => ("Array"@, "Array("@),
        _ => ("Nullable"@, "Nullable("@),
    };
    lemma_inner_reads_back(id, open, inner);
}

proof fn lemma_several(t: TypeView, v: Seq<TypeView>)
    requires
        forall|i: int| 0 <= i < v.len() ==> told(#[trigger] v[i]),
        t == TypeView::Tuple(v) || (t == TypeView::Variant(v) && v.len() > 0),
    ensures
        told(t),
{
    lemma_call_words_b();
    lemma_call_marks();
    let (id, open) = match t {
        TypeView::Tuple(_) => ("Tuple"@, "Tuple("@),
        _ => ("Variant"@, "Variant("@),
    };
    assert forall|i: int| 0 <= i < v.len() implies is_argument(type_text(#[trigger] v[i]))
        && parsed_type(type_text(v[i])) == Ok::<_, TypeParseReason>(v[i]) by {
        assert(told(v[i]));
    }
    lemma_types_read_back(id, open, v);
}

proof fn lemma_nests(t: TypeView)
    requires
        nests(t),
    ensures
        told(t),
    decreases t,
{
    match t {
        TypeView::Decimal32(_) | TypeView::Decimal64(_) | TypeView::Decimal128(_) => {
            lemma_number_reads_back(t);
        },
        TypeView::Decimal256(_) | TypeView::FixedSizedString(_) => {
            lemma_number_reads_back(t);
        },
        TypeView::DateTime(tz) => {
            lemma_datetime_reads_back(tz);
        },
        TypeView::DateTime64(n, tz) => {
            lemma_datetime64_reads_back(n, tz);
        },
        TypeView::Enum8(v) => {
            lemma_enum8_reads_back(v);
        },
        TypeView::Enum16(v) => {
            lemma_enum16_reads_back(v);
        },
        TypeView::LowCardinality(x) => {
            lemma_nests(*x);
            lemma_wrapped(t, *x);
        },
        TypeView::Array(x) => {
            lemma_nests(*x);
            lemma_wrapped(t, *x);
        },
        TypeView::Nullable(x) => {
            lemma_nests(*x);
            lemma_wrapped(t, *x);
        },
        TypeView::MapOf(k, x) => {
            lemma_nests(*k);
            lemma_nests(*x);
            lemma_map_reads_back(*k, *x);
        },
        TypeView::Tuple(v) => {
            assert forall|i: int| 0 <= i < v.len() implies told(#[trigger] v[i]) by {
                lemma_nests(v[i]);
            }
            lemma_several(t, v);
        },
        TypeView::Variant(v) => {
            assert forall|i: int| 0 <= i < v.len() implies told(#[trigger] v[i]) by {
                lemma_nests(v[i]);
            }
            lemma_several(t, v);
        },
        TypeView::Dynamic { max_types } => {
            lemma_dynamic_reads_back(max_types);
        },
        TypeView::JSON {
            max_dynamic_paths,
            max_dynamic_types,
            typed_paths,
            skip_exact,
            skip_regex,
        } => {
            assert forall|i: int| 0 <= i < typed_paths.len() implies typed_path_reads(
                (#[trigger] typed_paths[i]).0,
                typed_paths[i].1,
            ) && parsed_type(type_text(typed_paths[i].1)) == Ok::<_, TypeParseReason>(
                typed_paths[i].1,
            ) by {
                lemma_nests(typed_paths[i].1);
            }
            lemma_json_reads_back(
                max_dynamic_paths,
                max_dynamic_types,
                typed_paths,
                skip_exact,
                skip_regex,
            );
        },
        _ => {
            lemma_plain_reads_back(t);
        },
    }
}

/// A type is read back from its name.
pub proof fn law_type_name_reads_back(t: TypeView)
    requires
        name_tells(t),
    ensures
        parsed_type(type_text(t)) == Ok::<_, TypeParseReason>(t),
{
    match t {
        TypeView::Enum8(v) => {
            lemma_enum8_reads_back(v);
        },
        TypeView::Enum16(v) => {
            lemma_enum16_reads_back(v);
        },
        _ => {
            lemma_nests(t);
        },
    }
}

} // verus!
