//! The names of types, as ClickHouse writes them.
use vstd::prelude::*;

use crate::text::{dec_text, int_text, int_to_string, push_dec, texts, to_chars};
use crate::types::{
    field_views, is_name_of, options16, options8, path_views, type_views, zone_name, zone_text,
    Type, TypeView,
};

verus! {

/// Parts with a comma and a space between them.
pub open spec fn joined(parts: Seq<Seq<char>>) -> Seq<char>
    decreases parts.len(),
{
    if parts.len() == 0 {
        Seq::empty()
    } else if parts.len() == 1 {
        parts[0]
    } else {
        joined(parts.drop_last()) + ", "@ + parts.last()
    }
}

/// A name with a backslash before each quote and each backslash.
pub open spec fn escaped(name: Seq<char>) -> Seq<char>
    decreases name.len(),
{
    if name.len() == 0 {
        Seq::empty()
    } else {
        let c = name.last();
        if c == '\'' || c == '\\' {
            escaped(name.drop_last()).push('\\').push(c)
        } else {
            escaped(name.drop_last()).push(c)
        }
    }
}

/// One option of an enumeration: its quoted name, an equals sign, its number.
pub open spec fn option_text(name: Seq<char>, value: int) -> Seq<char> {
    "'"@ + escaped(name) + "' = "@ + int_text(value)
}

/// The options of an `Enum8`.
pub open spec fn option_texts8(v: Seq<(Seq<char>, i8)>) -> Seq<Seq<char>> {
    Seq::new(v.len(), |i: int| option_text(v[i].0, v[i].1 as int))
}

/// The options of an `Enum16`.
pub open spec fn option_texts16(v: Seq<(Seq<char>, i16)>) -> Seq<Seq<char>> {
    Seq::new(v.len(), |i: int| option_text(v[i].0, v[i].1 as int))
}

/// A parameter with a number, where there is one.
pub open spec fn param_text(name: Seq<char>, value: Option<u32>) -> Seq<Seq<char>> {
    match value {
        Some(n) => seq![name + dec_text(n as nat)],
        None => Seq::empty(),
    }
}

/// The paths that a JSON type leaves out.
pub open spec fn skip_texts(paths: Seq<Seq<char>>) -> Seq<Seq<char>> {
    Seq::new(paths.len(), |i: int| "SKIP "@ + paths[i])
}

/// The patterns of paths that a JSON type leaves out.
pub open spec fn pattern_texts(patterns: Seq<Seq<char>>) -> Seq<Seq<char>> {
    Seq::new(patterns.len(), |i: int| "SKIP REGEXP '"@ + patterns[i] + "'"@)
}

/// The name of a type.
pub open spec fn type_text(t: TypeView) -> Seq<char>
    decreases t,
{
    match t {
        TypeView::Int8 => "Int8"@,
        TypeView::Int16 => "Int16"@,
        TypeView::Int32 => "Int32"@,
        TypeView::Int64 => "Int64"@,
        TypeView::Int128 => "Int128"@,
        TypeView::Int256 => "Int256"@,
        TypeView::UInt8 => "UInt8"@,
        TypeView::UInt16 => "UInt16"@,
        TypeView::UInt32 => "UInt32"@,
        TypeView::UInt64 => "UInt64"@,
        TypeView::UInt128 => "UInt128"@,
        TypeView::UInt256 => "UInt256"@,
        TypeView::Float32 => "Float32"@,
        TypeView::Float64 => "Float64"@,
        TypeView::String => "String"@,
        TypeView::Binary => "String"@,
        TypeView::Uuid => "UUID"@,
        TypeView::Date => "Date"@,
        TypeView::Date32 => "Date32"@,
        TypeView::Ipv4 => "IPv4"@,
        TypeView::Ipv6 => "IPv6"@,
        TypeView::Point => "Point"@,
        TypeView::Ring => "Ring"@,
        TypeView::Polygon => "Polygon"@,
        TypeView::MultiPolygon => "MultiPolygon"@,
        TypeView::Object => "Object"@,
        TypeView::Nothing => "Nothing"@,
        TypeView::Bool => "Bool"@,
        TypeView::Decimal32(n) => "Decimal32("@ + dec_text(n as nat) + ")"@,
        TypeView::Decimal64(n) => "Decimal64("@ + dec_text(n as nat) + ")"@,
        TypeView::Decimal128(n) => "Decimal128("@ + dec_text(n as nat) + ")"@,
        TypeView::Decimal256(n) => "Decimal256("@ + dec_text(n as nat) + ")"@,
        TypeView::FixedSizedString(n) => "FixedString("@ + dec_text(n as nat) + ")"@,
        TypeView::FixedSizedBinary(n) => "FixedString("@ + dec_text(n as nat) + ")"@,
        TypeView::DateTime(tz) => "DateTime('"@ + zone_name(tz) + "')"@,
        TypeView::DateTime64(p, tz) => "DateTime64("@ + dec_text(p as nat) + ", '"@ + zone_name(tz)
            + "')"@,
        TypeView::Enum8(v) => "Enum8("@ + joined(option_texts8(v)) + ")"@,
        TypeView::Enum16(v) => "Enum16("@ + joined(option_texts16(v)) + ")"@,
        TypeView::LowCardinality(t) => "LowCardinality("@ + type_text(*t) + ")"@,
        TypeView::Array(t) => "Array("@ + type_text(*t) + ")"@,
        TypeView::Tuple(v) => "Tuple("@ + joined(type_texts(v)) + ")"@,
        TypeView::TupleNamed(v) => "Tuple("@ + joined(field_texts(v)) + ")"@,
        TypeView::Nullable(t) => "Nullable("@ + type_text(*t) + ")"@,
        TypeView::MapOf(k, v) => "Map("@ + type_text(*k) + ", "@ + type_text(*v) + ")"@,
        TypeView::Variant(v) => "Variant("@ + joined(type_texts(v)) + ")"@,
        TypeView::Dynamic { max_types: None } => "Dynamic"@,
        TypeView::Dynamic { max_types: Some(n) } => "Dynamic(max_types="@ + dec_text(n as nat)
            + ")"@,
        TypeView::JSON {
            max_dynamic_paths,
            max_dynamic_types,
            typed_paths,
            skip_exact,
            skip_regex,
        } => {
            let parts = param_text("max_dynamic_paths="@, max_dynamic_paths) + param_text(
                "max_dynamic_types="@,
                max_dynamic_types,
            ) + field_texts(typed_paths) + skip_texts(skip_exact) + pattern_texts(skip_regex);
            if parts.len() == 0 {
                "JSON"@
            } else {
                "JSON("@ + joined(parts) + ")"@
            }
        },
    }
}

/// The names of types.
pub open spec fn type_texts(v: Seq<TypeView>) -> Seq<Seq<char>>
    decreases v,
{
    if v.len() == 0 {
        Seq::empty()
    } else {
        type_texts(v.subrange(0, v.len() - 1)).push(type_text(v[v.len() - 1]))
    }
}

/// The names of types behind their field names.
pub open spec fn field_texts(v: Seq<(Seq<char>, TypeView)>) -> Seq<Seq<char>>
    decreases v,
{
    if v.len() == 0 {
        Seq::empty()
    } else {
        field_texts(v.subrange(0, v.len() - 1)).push(
            v[v.len() - 1].0 + " "@ + type_text(v[v.len() - 1].1),
        )
    }
}

/// There is one name for each type, in order.
pub proof fn lemma_type_texts(v: Seq<TypeView>)
    ensures
        type_texts(v).len() == v.len(),
        forall|i: int| 0 <= i < v.len() ==> #[trigger] type_texts(v)[i] == type_text(v[i]),
    decreases v.len(),
{
    if v.len() > 0 {
        lemma_type_texts(v.subrange(0, v.len() - 1));
    }
}

/// There is one name for each field, in order.
pub proof fn lemma_field_texts(v: Seq<(Seq<char>, TypeView)>)
    ensures
        field_texts(v).len() == v.len(),
        forall|i: int|
            0 <= i < v.len() ==> #[trigger] field_texts(v)[i] == v[i].0 + " "@ + type_text(v[i].1),
    decreases v.len(),
{
    if v.len() > 0 {
        lemma_field_texts(v.subrange(0, v.len() - 1));
    }
}

/// The parameters of a JSON type.
pub open spec fn json_parts(
    max_dynamic_paths: Option<u32>,
    max_dynamic_types: Option<u32>,
    typed_paths: Seq<(Seq<char>, TypeView)>,
    skip_exact: Seq<Seq<char>>,
    skip_regex: Seq<Seq<char>>,
) -> Seq<Seq<char>> {
    param_text("max_dynamic_paths="@, max_dynamic_paths) + param_text(
        "max_dynamic_types="@,
        max_dynamic_types,
    ) + field_texts(typed_paths) + skip_texts(skip_exact) + pattern_texts(skip_regex)
}

/// Every time zone in the type reads back from its name.
pub open spec fn zones_named(t: TypeView) -> bool
    decreases t,
{
    match t {
        TypeView::DateTime(tz) => is_name_of(zone_name(tz), tz),
        TypeView::DateTime64(_, tz) => is_name_of(zone_name(tz), tz),
        TypeView::LowCardinality(t) => zones_named(*t),
        TypeView::Array(t) => zones_named(*t),
        TypeView::Nullable(t) => zones_named(*t),
        TypeView::MapOf(k, v) => zones_named(*k) && zones_named(*v),
        TypeView::Tuple(v) => forall|i: int| 0 <= i < v.len() ==> zones_named(#[trigger] v[i]),
        TypeView::Variant(v) => forall|i: int| 0 <= i < v.len() ==> zones_named(#[trigger] v[i]),
        TypeView::TupleNamed(v) => forall|i: int|
            0 <= i < v.len() ==> zones_named((#[trigger] v[i]).1),
        TypeView::JSON { typed_paths, .. } => forall|i: int|
            0 <= i < typed_paths.len() ==> zones_named((#[trigger] typed_paths[i]).1),
        _ => true,
    }
}

proof fn lemma_joined_push(parts: Seq<Seq<char>>, part: Seq<char>)
    ensures
        joined(parts.push(part)) == if parts.len() == 0 {
            part
        } else {
            joined(parts) + ", "@ + part
        },
{
    assert(parts.push(part).drop_last() =~= parts);
}

fn push_escaped(out: &mut String, name: &str)
    ensures
        final(out)@ == old(out)@ + escaped(name@),
{
    let chars = to_chars(name);
    let mut i: usize = 0;
    assert(chars@.take(0) =~= Seq::<char>::empty());
    assert(out@ =~= old(out)@ + escaped(chars@.take(0)));
    while i < chars.len()
        invariant
            i <= chars.len(),
            chars@ == name@,
            out@ == old(out)@ + escaped(chars@.take(i as int)),
        decreases chars.len() - i,
    {
        let c = chars[i];
        proof {
            assert(chars@.take(i + 1).drop_last() =~= chars@.take(i as int));
        }
        if c == '\'' || c == '\\' {
            out.push('\\');
        }
        out.push(c);
        assert(out@ =~= old(out)@ + escaped(chars@.take(i + 1)));
        i += 1;
    }
    assert(chars@.take(chars@.len() as int) =~= chars@);
}

fn push_option(out: &mut String, name: &str, value: i64)
    ensures
        final(out)@ == old(out)@ + option_text(name@, value as int),
{
    out.push_str("'");
    push_escaped(out, name);
    out.push_str("' = ");
    let digits = int_to_string(value as i128);
    out.push_str(digits.as_str());
    assert(out@ =~= old(out)@ + option_text(name@, value as int));
}

fn push_options8(out: &mut String, v: &Vec<(String, i8)>)
    ensures
        final(out)@ == old(out)@ + joined(option_texts8(options8(v@))),
{
    let ghost parts = option_texts8(options8(v@));
    let mut i: usize = 0;
    assert(out@ =~= old(out)@ + joined(parts.take(0)));
    while i < v.len()
        invariant
            i <= v.len(),
            parts == option_texts8(options8(v@)),
            out@ == old(out)@ + joined(parts.take(i as int)),
        decreases v.len() - i,
    {
        proof {
            assert(parts.take(i + 1) =~= parts.take(i as int).push(parts[i as int]));
            lemma_joined_push(parts.take(i as int), parts[i as int]);
        }
        if i > 0 {
            out.push_str(", ");
        }
        push_option(out, v[i].0.as_str(), v[i].1 as i64);
        assert(out@ =~= old(out)@ + joined(parts.take(i + 1)));
        i += 1;
    }
    assert(parts.take(parts.len() as int) =~= parts);
}

fn push_options16(out: &mut String, v: &Vec<(String, i16)>)
    ensures
        final(out)@ == old(out)@ + joined(option_texts16(options16(v@))),
{
    let ghost parts = option_texts16(options16(v@));
    let mut i: usize = 0;
    assert(out@ =~= old(out)@ + joined(parts.take(0)));
    while i < v.len()
        invariant
            i <= v.len(),
            parts == option_texts16(options16(v@)),
            out@ == old(out)@ + joined(parts.take(i as int)),
        decreases v.len() - i,
    {
        proof {
            assert(parts.take(i + 1) =~= parts.take(i as int).push(parts[i as int]));
            lemma_joined_push(parts.take(i as int), parts[i as int]);
        }
        if i > 0 {
            out.push_str(", ");
        }
        push_option(out, v[i].0.as_str(), v[i].1 as i64);
        assert(out@ =~= old(out)@ + joined(parts.take(i + 1)));
        i += 1;
    }
    assert(parts.take(parts.len() as int) =~= parts);
}

fn push_types(out: &mut String, v: &Vec<Type>)
    ensures
        final(out)@ == old(out)@ + joined(type_texts(type_views(v@))),
        forall|i: int| 0 <= i < v@.len() ==> zones_named(#[trigger] v@[i]@),
    decreases v,
{
    let ghost parts = type_texts(type_views(v@));
    proof {
        lemma_type_texts(type_views(v@));
    }
    let mut i: usize = 0;
    assert(out@ =~= old(out)@ + joined(parts.take(0)));
    while i < v.len()
        invariant
            i <= v.len(),
            parts == type_texts(type_views(v@)),
            parts.len() == v@.len(),
            forall|j: int| 0 <= j < v@.len() ==> #[trigger] parts[j] == type_text(v@[j]@),
            out@ == old(out)@ + joined(parts.take(i as int)),
            forall|j: int| 0 <= j < i ==> zones_named(#[trigger] v@[j]@),
        decreases v.len() - i,
    {
        proof {
            assert(parts.take(i + 1) =~= parts.take(i as int).push(parts[i as int]));
            lemma_joined_push(parts.take(i as int), parts[i as int]);
            assert(decreases_to!(v@ => v@[i as int]));
        }
        if i > 0 {
            out.push_str(", ");
        }
        v[i].push_name(out);
        assert(out@ =~= old(out)@ + joined(parts.take(i + 1)));
        i += 1;
    }
    assert(parts.take(parts.len() as int) =~= parts);
}

fn push_fields(out: &mut String, v: &Vec<(String, Type)>)
    ensures
        final(out)@ == old(out)@ + joined(field_texts(field_views(v@))),
        forall|i: int| 0 <= i < v@.len() ==> zones_named(#[trigger] v@[i].1@),
    decreases v,
{
    let ghost parts = field_texts(field_views(v@));
    proof {
        lemma_field_texts(field_views(v@));
    }
    let mut i: usize = 0;
    assert(out@ =~= old(out)@ + joined(parts.take(0)));
    while i < v.len()
        invariant
            i <= v.len(),
            parts == field_texts(field_views(v@)),
            parts.len() == v@.len(),
            forall|j: int|
                0 <= j < v@.len() ==> #[trigger] parts[j] == v@[j].0@ + " "@ + type_text(v@[j].1@),
            out@ == old(out)@ + joined(parts.take(i as int)),
            forall|j: int| 0 <= j < i ==> zones_named(#[trigger] v@[j].1@),
        decreases v.len() - i,
    {
        proof {
            assert(parts.take(i + 1) =~= parts.take(i as int).push(parts[i as int]));
            lemma_joined_push(parts.take(i as int), parts[i as int]);
            assert(decreases_to!(v@ => v@[i as int]));
            assert(decreases_to!(v@[i as int] => v@[i as int].1));
        }
        if i > 0 {
            out.push_str(", ");
        }
        out.push_str(v[i].0.as_str());
        out.push_str(" ");
        v[i].1.push_name(out);
        assert(out@ =~= old(out)@ + joined(parts.take(i + 1)));
        i += 1;
    }
    assert(parts.take(parts.len() as int) =~= parts);
}

/// Appends a part to parts that are already there.
fn begin_part(out: &mut String, first: bool, Ghost(head): Ghost<Seq<char>>, Ghost(parts): Ghost<
    Seq<Seq<char>>,
>)
    requires
        old(out)@ == head + joined(parts),
        first == (parts.len() == 0),
    ensures
        forall|part: Seq<char>|
            #![trigger parts.push(part)]
            final(out)@ + part == head + joined(parts.push(part)),
{
    if !first {
        out.push_str(", ");
    }
    assert forall|part: Seq<char>|
        #![trigger parts.push(part)]
        out@ + part == head + joined(parts.push(part)) by {
        lemma_joined_push(parts, part);
        assert(out@ + part =~= head + joined(parts.push(part)));
    }
}

fn push_json_params(
    out: &mut String,
    max_dynamic_paths: Option<u32>,
    max_dynamic_types: Option<u32>,
    typed_paths: &Vec<(String, Box<Type>)>,
    skip_exact: &Vec<String>,
    skip_regex: &Vec<String>,
)
    ensures
        final(out)@ == old(out)@ + joined(
            json_parts(
                max_dynamic_paths,
                max_dynamic_types,
                path_views(typed_paths@),
                texts(skip_exact@),
                texts(skip_regex@),
            ),
        ),
        forall|i: int| 0 <= i < typed_paths@.len() ==> zones_named(#[trigger] typed_paths@[i].1@),
    decreases typed_paths,
{
    let ghost head = out@;
    let ghost typed = field_texts(path_views(typed_paths@));
    proof {
        lemma_field_texts(path_views(typed_paths@));
    }
    let ghost exact = skip_texts(texts(skip_exact@));
    let ghost regex = pattern_texts(texts(skip_regex@));
    let ghost mut parts: Seq<Seq<char>> = Seq::empty();
    let mut first: bool = true;
    assert(out@ =~= head + joined(parts));
    if let Some(n) = max_dynamic_paths {
        begin_part(out, first, Ghost(head), Ghost(parts));
        let ghost base = out@;
        out.push_str("max_dynamic_paths=");
        push_dec(out, n as u128);
        first = false;
        proof {
            let part = "max_dynamic_paths="@ + dec_text(n as nat);
            assert(out@ =~= base + part);
            parts = parts.push(part);
        }
    }
    assert(parts =~= param_text("max_dynamic_paths="@, max_dynamic_paths));
    if let Some(n) = max_dynamic_types {
        begin_part(out, first, Ghost(head), Ghost(parts));
        let ghost base = out@;
        out.push_str("max_dynamic_types=");
        push_dec(out, n as u128);
        first = false;
        proof {
            let part = "max_dynamic_types="@ + dec_text(n as nat);
            assert(out@ =~= base + part);
            parts = parts.push(part);
        }
    }
    let ghost numbers = param_text("max_dynamic_paths="@, max_dynamic_paths) + param_text(
        "max_dynamic_types="@,
        max_dynamic_types,
    );
    assert(parts =~= numbers);
    let mut i: usize = 0;
    assert(numbers + typed.take(0) =~= numbers);
    while i < typed_paths.len()
        invariant
            i <= typed_paths.len(),
            typed.len() == typed_paths@.len(),
            forall|j: int|
                0 <= j < typed_paths@.len() ==> #[trigger] typed[j] == typed_paths@[j].0@ + " "@
                    + type_text(typed_paths@[j].1@),
            parts == numbers + typed.take(i as int),
            first == (parts.len() == 0),
            out@ == head + joined(parts),
            forall|j: int| 0 <= j < i ==> zones_named(#[trigger] typed_paths@[j].1@),
        decreases typed_paths.len() - i,
    {
        proof {
            assert(typed.take(i + 1) =~= typed.take(i as int).push(typed[i as int]));
            assert(numbers + typed.take(i + 1) =~= parts.push(typed[i as int]));
            assert(decreases_to!(typed_paths@ => typed_paths@[i as int]));
            assert(decreases_to!(typed_paths@[i as int] => typed_paths@[i as int].1));
        }
        begin_part(out, first, Ghost(head), Ghost(parts));
        let ghost base = out@;
        out.push_str(typed_paths[i].0.as_str());
        out.push_str(" ");
        typed_paths[i].1.push_name(out);
        first = false;
        proof {
            assert(out@ =~= base + typed[i as int]);
            parts = parts.push(typed[i as int]);
        }
        i += 1;
    }
    assert(typed.take(typed.len() as int) =~= typed);
    let mut k: usize = 0;
    assert(numbers + typed + exact.take(0) =~= parts);
    while k < skip_exact.len()
        invariant
            k <= skip_exact.len(),
            exact == skip_texts(texts(skip_exact@)),
            parts == numbers + typed + exact.take(k as int),
            first == (parts.len() == 0),
            out@ == head + joined(parts),
        decreases skip_exact.len() - k,
    {
        proof {
            assert(exact.take(k + 1) =~= exact.take(k as int).push(exact[k as int]));
            assert(numbers + typed + exact.take(k + 1) =~= parts.push(exact[k as int]));
        }
        begin_part(out, first, Ghost(head), Ghost(parts));
        let ghost base = out@;
        out.push_str("SKIP ");
        out.push_str(skip_exact[k].as_str());
        first = false;
        proof {
            assert(out@ =~= base + exact[k as int]);
            parts = parts.push(exact[k as int]);
        }
        k += 1;
    }
    assert(exact.take(exact.len() as int) =~= exact);
    let mut m: usize = 0;
    assert(numbers + typed + exact + regex.take(0) =~= parts);
    while m < skip_regex.len()
        invariant
            m <= skip_regex.len(),
            regex == pattern_texts(texts(skip_regex@)),
            parts == numbers + typed + exact + regex.take(m as int),
            first == (parts.len() == 0),
            out@ == head + joined(parts),
        decreases skip_regex.len() - m,
    {
        proof {
            assert(regex.take(m + 1) =~= regex.take(m as int).push(regex[m as int]));
            assert(numbers + typed + exact + regex.take(m + 1) =~= parts.push(regex[m as int]));
        }
        begin_part(out, first, Ghost(head), Ghost(parts));
        let ghost base = out@;
        out.push_str("SKIP REGEXP '");
        out.push_str(skip_regex[m].as_str());
        out.push_str("'");
        first = false;
        proof {
            assert(out@ =~= base + regex[m as int]);
            parts = parts.push(regex[m as int]);
        }
        m += 1;
    }
    assert(regex.take(regex.len() as int) =~= regex);
}

impl Type {
    /// Appends the name of the type.
    #[verifier::rlimit(60)]
    fn push_name(&self, out: &mut String)
        ensures
            final(out)@ == old(out)@ + type_text(self@),
            zones_named(self@),
        decreases self,
    {
        proof {
            self.lemma_view();
        }
        match self {
            Type::Int8 => out.push_str("Int8"),
            Type::Int16 => out.push_str("Int16"),
            Type::Int32 => out.push_str("Int32"),
            Type::Int64 => out.push_str("Int64"),
            Type::Int128 => out.push_str("Int128"),
            Type::Int256 => out.push_str("Int256"),
            Type::UInt8 => out.push_str("UInt8"),
            Type::UInt16 => out.push_str("UInt16"),
            Type::UInt32 => out.push_str("UInt32"),
            Type::UInt64 => out.push_str("UInt64"),
            Type::UInt128 => out.push_str("UInt128"),
            Type::UInt256 => out.push_str("UInt256"),
            Type::Float32 => out.push_str("Float32"),
            Type::Float64 => out.push_str("Float64"),
            Type::String => out.push_str("String"),
            Type::Binary => out.push_str("String"),
            Type::Uuid => out.push_str("UUID"),
            Type::Date => out.push_str("Date"),
            Type::Date32 => out.push_str("Date32"),
            Type::Ipv4 => out.push_str("IPv4"),
            Type::Ipv6 => out.push_str("IPv6"),
            Type::Point => out.push_str("Point"),
            Type::Ring => out.push_str("Ring"),
            Type::Polygon => out.push_str("Polygon"),
            Type::MultiPolygon => out.push_str("MultiPolygon"),
            Type::Object => out.push_str("Object"),
            Type::Nothing => out.push_str("Nothing"),
            Type::Bool => out.push_str("Bool"),
            Type::Decimal32(n) => {
                out.push_str("Decimal32(");
                push_dec(out, *n as u128);
                out.push_str(")");
            },
            Type::Decimal64(n) => {
                out.push_str("Decimal64(");
                push_dec(out, *n as u128);
                out.push_str(")");
            },
            Type::Decimal128(n) => {
                out.push_str("Decimal128(");
                push_dec(out, *n as u128);
                out.push_str(")");
            },
            Type::Decimal256(n) => {
                out.push_str("Decimal256(");
                push_dec(out, *n as u128);
                out.push_str(")");
            },
            Type::FixedSizedString(n) => {
                out.push_str("FixedString(");
                push_dec(out, *n as u128);
                out.push_str(")");
            },
            Type::FixedSizedBinary(n) => {
                out.push_str("FixedString(");
                push_dec(out, *n as u128);
                out.push_str(")");
            },
            Type::DateTime(tz) => {
                out.push_str("DateTime('");
                out.push_str(zone_text(*tz));
                out.push_str("')");
            },
            Type::DateTime64(p, tz) => {
                out.push_str("DateTime64(");
                push_dec(out, *p as u128);
                out.push_str(", '");
                out.push_str(zone_text(*tz));
                out.push_str("')");
            },
            Type::Enum8(v) => {
                out.push_str("Enum8(");
                push_options8(out, v);
                out.push_str(")");
            },
            Type::Enum16(v) => {
                out.push_str("Enum16(");
                push_options16(out, v);
                out.push_str(")");
            },
            Type::LowCardinality(t) => {
                out.push_str("LowCardinality(");
                t.push_name(out);
                out.push_str(")");
            },
            Type::Array(t) => {
                out.push_str("Array(");
                t.push_name(out);
                out.push_str(")");
            },
            Type::Tuple(v) => {
                out.push_str("Tuple(");
                push_types(out, v);
                out.push_str(")");
            },
            Type::TupleNamed(v) => {
                out.push_str("Tuple(");
                push_fields(out, v);
                out.push_str(")");
            },
            Type::Nullable(t) => {
                out.push_str("Nullable(");
                t.push_name(out);
                out.push_str(")");
            },
            Type::MapOf(k, v) => {
                out.push_str("Map(");
                k.push_name(out);
                out.push_str(", ");
                v.push_name(out);
                out.push_str(")");
            },
            Type::Variant(v) => {
                out.push_str("Variant(");
                push_types(out, v);
                out.push_str(")");
            },
            Type::Dynamic { max_types } => match max_types {
                None => out.push_str("Dynamic"),
                Some(n) => {
                    out.push_str("Dynamic(max_types=");
                    push_dec(out, *n as u128);
                    out.push_str(")");
                },
            },
            Type::JSON {
                max_dynamic_paths,
                max_dynamic_types,
                typed_paths,
                skip_exact,
                skip_regex,
            } => {
                proof {
                    lemma_field_texts(path_views(typed_paths@));
                }
                if max_dynamic_paths.is_none() && max_dynamic_types.is_none() && typed_paths.len()
                    == 0 && skip_exact.len() == 0 && skip_regex.len() == 0 {
                    out.push_str("JSON");
                } else {
                    out.push_str("JSON(");
                    push_json_params(
                        out,
                        *max_dynamic_paths,
                        *max_dynamic_types,
                        typed_paths,
                        skip_exact,
                        skip_regex,
                    );
                    out.push_str(")");
                }
            },
        }
        assert(out@ =~= old(out)@ + type_text(self@));
    }

    /// The name of the type, as ClickHouse writes it.
    pub fn to_string(&self) -> (r: String)
        ensures
            r@ == type_text(self@),
            zones_named(self@),
    {
        let mut out: String = String::new();
        self.push_name(&mut out);
        assert(out@ =~= type_text(self@));
        out
    }
}

} // verus!
