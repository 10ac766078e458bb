//! ClickHouse types.
use chrono_tz::Tz;
use vstd::prelude::*;

use crate::error::{Error, Expected, Result};

verus! {

/// `chrono_tz::Tz`, a time zone of the IANA database.
#[verifier::external_type_specification]
#[verifier::external_body]
pub struct ExTz(chrono_tz::Tz);

/// The time zone of a name, if there is one.
pub uninterp spec fn zone_of_name(name: Seq<char>) -> Option<Tz>;

/// Calls `<Tz as FromStr>::from_str`, a lookup in a fixed table of names.
#[verifier::external_body]
pub(crate) fn parse_zone(name: &str) -> (r: Option<Tz>)
    ensures
        r == zone_of_name(name@),
{
    name.parse::<Tz>().ok()
}

/// The name of a time zone.
pub uninterp spec fn zone_name(tz: Tz) -> Seq<char>;

/// The characters that time zone names are made of.
pub open spec fn is_zone_char(c: char) -> bool {
    crate::text::is_ascii_letter(c) || crate::text::is_digit(c) || c == '_' || c == '/' || c == '+'
        || c == '-'
}

/// A name that reads back as the zone that it names, made of plain characters.
pub open spec fn is_name_of(name: Seq<char>, tz: Tz) -> bool {
    &&& zone_of_name(name) == Some(tz)
    &&& name.len() > 0
    &&& forall|i: int| 0 <= i < name.len() ==> is_zone_char(#[trigger] name[i])
}

/// Calls `Tz::name`. The table that `FromStr` looks names up in holds every name
/// together with the zone that `name` gives it for.
#[verifier::external_body]
pub(crate) fn zone_text(tz: Tz) -> (r: &'static str)
    ensures
        r@ == zone_name(tz),
        is_name_of(r@, tz),
{
    tz.name()
}

/// Coordinated Universal Time.
pub open spec fn utc() -> Tz {
    zone_of_name("UTC"@)->0
}

/// The constant `chrono_tz::UTC`, which is the zone named UTC.
#[verifier::external_body]
pub(crate) fn utc_zone() -> (r: Tz)
    ensures
        zone_of_name("UTC"@) == Some(r),
{
    chrono_tz::UTC
}

/// Calls the derived `==` of `Tz`, an enumeration without fields.
#[verifier::external_body]
pub(crate) fn same_zone(a: Tz, b: Tz) -> (r: bool)
    ensures
        r == (a == b),
{
    a == b
}

/// A ClickHouse type.
#[derive(Debug, PartialEq, Eq)]
pub enum Type {
    Int8,
    Int16,
    Int32,
    Int64,
    Int128,
    Int256,
    UInt8,
    UInt16,
    UInt32,
    UInt64,
    UInt128,
    UInt256,
    Float32,
    Float64,
    Decimal32(usize),
    Decimal64(usize),
    Decimal128(usize),
    Decimal256(usize),
    String,
    FixedSizedString(usize),
    Binary,
    FixedSizedBinary(usize),
    Uuid,
    Date,
    Date32,
    DateTime(Tz),
    DateTime64(usize, Tz),
    Ipv4,
    Ipv6,
    Point,
    Ring,
    Polygon,
    MultiPolygon,
    Enum8(Vec<(String, i8)>),
    Enum16(Vec<(String, i16)>),
    LowCardinality(Box<Type>),
    Array(Box<Type>),
    /// A tuple with positional fields.
    Tuple(Vec<Type>),
    /// A tuple with named fields.
    TupleNamed(Vec<(String, Type)>),
    Nullable(Box<Type>),
    MapOf(Box<Type>, Box<Type>),
    /// A JSON object that is carried as text.
    Object,
    /// A value of one of several types.
    Variant(Vec<Type>),
    /// A value of any type.
    Dynamic { max_types: Option<u32> },
    /// A JSON document, stored by its paths.
    JSON {
        max_dynamic_paths: Option<u32>,
        max_dynamic_types: Option<u32>,
        typed_paths: Vec<(String, Box<Type>)>,
        skip_exact: Vec<String>,
        skip_regex: Vec<String>,
    },
    /// The type of which nothing but null is a value.
    Nothing,
    Bool,
}

/// The model of a [`Type`]: the same tree over mathematical sequences.
pub ghost enum TypeView {
    Int8,
    Int16,
    Int32,
    Int64,
    Int128,
    Int256,
    UInt8,
    UInt16,
    UInt32,
    UInt64,
    UInt128,
    UInt256,
    Float32,
    Float64,
    Decimal32(usize),
    Decimal64(usize),
    Decimal128(usize),
    Decimal256(usize),
    String,
    FixedSizedString(usize),
    Binary,
    FixedSizedBinary(usize),
    Uuid,
    Date,
    Date32,
    DateTime(Tz),
    DateTime64(usize, Tz),
    Ipv4,
    Ipv6,
    Point,
    Ring,
    Polygon,
    MultiPolygon,
    Enum8(Seq<(Seq<char>, i8)>),
    Enum16(Seq<(Seq<char>, i16)>),
    LowCardinality(Box<TypeView>),
    Array(Box<TypeView>),
    Tuple(Seq<TypeView>),
    TupleNamed(Seq<(Seq<char>, TypeView)>),
    Nullable(Box<TypeView>),
    MapOf(Box<TypeView>, Box<TypeView>),
    Object,
    Variant(Seq<TypeView>),
    Dynamic { max_types: Option<u32> },
    JSON {
        max_dynamic_paths: Option<u32>,
        max_dynamic_types: Option<u32>,
        typed_paths: Seq<(Seq<char>, TypeView)>,
        skip_exact: Seq<Seq<char>>,
        skip_regex: Seq<Seq<char>>,
    },
    Nothing,
    Bool,
}

/// The views of the options of an `Enum8`.
pub open spec fn options8(v: Seq<(String, i8)>) -> Seq<(Seq<char>, i8)> {
    v.map_values(|p: (String, i8)| (p.0@, p.1))
}

/// The views of the options of an `Enum16`.
pub open spec fn options16(v: Seq<(String, i16)>) -> Seq<(Seq<char>, i16)> {
    v.map_values(|p: (String, i16)| (p.0@, p.1))
}

/// The views of a sequence of types.
pub open spec fn type_views(v: Seq<Type>) -> Seq<TypeView> {
    Seq::new(v.len(), |i: int| v[i]@)
}

/// The views of a sequence of named types.
pub open spec fn field_views(v: Seq<(String, Type)>) -> Seq<(Seq<char>, TypeView)> {
    Seq::new(v.len(), |i: int| (v[i].0@, v[i].1@))
}

/// The views of a sequence of typed paths.
pub open spec fn path_views(v: Seq<(String, Box<Type>)>) -> Seq<(Seq<char>, TypeView)> {
    Seq::new(v.len(), |i: int| (v[i].0@, v[i].1@))
}

impl Type {
    /// The model of a type.
    pub open spec fn view(&self) -> TypeView
        decreases self,
    {
        match self {
            Type::Int8 => TypeView::Int8,
            Type::Int16 => TypeView::Int16,
            Type::Int32 => TypeView::Int32,
            Type::Int64 => TypeView::Int64,
            Type::Int128 => TypeView::Int128,
            Type::Int256 => TypeView::Int256,
            Type::UInt8 => TypeView::UInt8,
            Type::UInt16 => TypeView::UInt16,
            Type::UInt32 => TypeView::UInt32,
            Type::UInt64 => TypeView::UInt64,
            Type::UInt128 => TypeView::UInt128,
            Type::UInt256 => TypeView::UInt256,
            Type::Float32 => TypeView::Float32,
            Type::Float64 => TypeView::Float64,
            Type::String => TypeView::String,
            Type::Binary => TypeView::Binary,
            Type::Uuid => TypeView::Uuid,
            Type::Date => TypeView::Date,
            Type::Date32 => TypeView::Date32,
            Type::Ipv4 => TypeView::Ipv4,
            Type::Ipv6 => TypeView::Ipv6,
            Type::Point => TypeView::Point,
            Type::Ring => TypeView::Ring,
            Type::Polygon => TypeView::Polygon,
            Type::MultiPolygon => TypeView::MultiPolygon,
            Type::Object => TypeView::Object,
            Type::Nothing => TypeView::Nothing,
            Type::Bool => TypeView::Bool,
            Type::Decimal32(n) => TypeView::Decimal32(*n),
            Type::Decimal64(n) => TypeView::Decimal64(*n),
            Type::Decimal128(n) => TypeView::Decimal128(*n),
            Type::Decimal256(n) => TypeView::Decimal256(*n),
            Type::FixedSizedString(n) => TypeView::FixedSizedString(*n),
            Type::FixedSizedBinary(n) => TypeView::FixedSizedBinary(*n),
            Type::DateTime(tz) => TypeView::DateTime(*tz),
            Type::DateTime64(p, tz) => TypeView::DateTime64(*p, *tz),
            Type::Enum8(v) => TypeView::Enum8(options8(v@)),
            Type::Enum16(v) => TypeView::Enum16(options16(v@)),
            Type::LowCardinality(t) => TypeView::LowCardinality(Box::new(t.view())),
            Type::Array(t) => TypeView::Array(Box::new(t.view())),
            Type::Tuple(v) => TypeView::Tuple(
                Seq::new(
                    v@.len(),
                    |i: int|
                        if 0 <= i < v@.len() {
                            v@[i].view()
                        } else {
                            arbitrary()
                        },
                ),
            ),
            Type::TupleNamed(v) => TypeView::TupleNamed(
                Seq::new(
                    v@.len(),
                    |i: int|
                        if 0 <= i < v@.len() {
                            (v@[i].0@, v@[i].1.view())
                        } else {
                            arbitrary()
                        },
                ),
            ),
            Type::Nullable(t) => TypeView::Nullable(Box::new(t.view())),
            Type::MapOf(k, v) => TypeView::MapOf(Box::new(k.view()), Box::new(v.view())),
            Type::Variant(v) => TypeView::Variant(
                Seq::new(
                    v@.len(),
                    |i: int|
                        if 0 <= i < v@.len() {
                            v@[i].view()
                        } else {
                            arbitrary()
                        },
                ),
            ),
            Type::Dynamic { max_types } => TypeView::Dynamic { max_types: *max_types },
            Type::JSON {
                max_dynamic_paths,
                max_dynamic_types,
                typed_paths,
                skip_exact,
                skip_regex,
            } => TypeView::JSON {
                max_dynamic_paths: *max_dynamic_paths,
                max_dynamic_types: *max_dynamic_types,
                typed_paths: Seq::new(
                    typed_paths@.len(),
                    |i: int|
                        if 0 <= i < typed_paths@.len() {
                            (typed_paths@[i].0@, typed_paths@[i].1.view())
                        } else {
                            arbitrary()
                        },
                ),
                skip_exact: crate::text::texts(skip_exact@),
                skip_regex: crate::text::texts(skip_regex@),
            },
        }
    }

    /// What the view of a composite type is made of.
    pub proof fn lemma_view(&self)
        ensures
            self matches Type::Tuple(v) ==> self@ == TypeView::Tuple(type_views(v@)),
            self matches Type::TupleNamed(v) ==> self@ == TypeView::TupleNamed(field_views(v@)),
            self matches Type::Variant(v) ==> self@ == TypeView::Variant(type_views(v@)),
            self matches Type::JSON { max_dynamic_paths, max_dynamic_types, typed_paths, skip_exact, skip_regex }
                ==> self@ == (TypeView::JSON {
                max_dynamic_paths: *max_dynamic_paths,
                max_dynamic_types: *max_dynamic_types,
                typed_paths: path_views(typed_paths@),
                skip_exact: crate::text::texts(skip_exact@),
                skip_regex: crate::text::texts(skip_regex@),
            }),
    {
        match self {
            Type::Tuple(v) => {
                assert(self@->Tuple_0 =~= type_views(v@));
            },
            Type::TupleNamed(v) => {
                assert(self@->TupleNamed_0 =~= field_views(v@));
            },
            Type::Variant(v) => {
                assert(self@->Variant_0 =~= type_views(v@));
            },
            Type::JSON { typed_paths, .. } => {
                assert(self@->typed_paths =~= path_views(typed_paths@));
            },
            _ => {},
        }
    }
}

fn clone_options8(v: &Vec<(String, i8)>) -> (r: Vec<(String, i8)>)
    ensures
        options8(r@) == options8(v@),
{
    let mut out: Vec<(String, i8)> = Vec::new();
    let mut i: usize = 0;
    while i < v.len()
        invariant
            i <= v.len(),
            out.len() == i,
            forall|j: int| 0 <= j < i ==> out@[j].0@ == v@[j].0@ && out@[j].1 == v@[j].1,
        decreases v.len() - i,
    {
        out.push((v[i].0.clone(), v[i].1));
        i += 1;
    }
    assert(options8(out@) =~= options8(v@));
    out
}

fn clone_options16(v: &Vec<(String, i16)>) -> (r: Vec<(String, i16)>)
    ensures
        options16(r@) == options16(v@),
{
    let mut out: Vec<(String, i16)> = Vec::new();
    let mut i: usize = 0;
    while i < v.len()
        invariant
            i <= v.len(),
            out.len() == i,
            forall|j: int| 0 <= j < i ==> out@[j].0@ == v@[j].0@ && out@[j].1 == v@[j].1,
        decreases v.len() - i,
    {
        out.push((v[i].0.clone(), v[i].1));
        i += 1;
    }
    assert(options16(out@) =~= options16(v@));
    out
}

/// Clones a list of strings.
pub fn clone_strings(v: &Vec<String>) -> (r: Vec<String>)
    ensures
        crate::text::texts(r@) == crate::text::texts(v@),
{
    let mut out: Vec<String> = Vec::new();
    let mut i: usize = 0;
    while i < v.len()
        invariant
            i <= v.len(),
            out.len() == i,
            forall|j: int| 0 <= j < i ==> out@[j]@ == v@[j]@,
        decreases v.len() - i,
    {
        out.push(v[i].clone());
        i += 1;
    }
    assert(crate::text::texts(out@) =~= crate::text::texts(v@));
    out
}

/// Clones a list of types.
pub fn clone_types(v: &Vec<Type>) -> (r: Vec<Type>)
    ensures
        type_views(r@) == type_views(v@),
    decreases v,
{
    let mut out: Vec<Type> = Vec::new();
    let mut i: usize = 0;
    while i < v.len()
        invariant
            i <= v.len(),
            out.len() == i,
            forall|j: int| 0 <= j < i ==> out@[j]@ == v@[j]@,
        decreases v.len() - i,
    {
        assert(decreases_to!(v@ => v@[i as int]));
        out.push(v[i].clone());
        i += 1;
    }
    assert(type_views(out@) =~= type_views(v@));
    out
}

/// Clones a list of named types.
pub fn clone_fields(v: &Vec<(String, Type)>) -> (r: Vec<(String, Type)>)
    ensures
        field_views(r@) == field_views(v@),
    decreases v,
{
    let mut out: Vec<(String, Type)> = Vec::new();
    let mut i: usize = 0;
    while i < v.len()
        invariant
            i <= v.len(),
            out.len() == i,
            forall|j: int| 0 <= j < i ==> out@[j].0@ == v@[j].0@ && out@[j].1@ == v@[j].1@,
        decreases v.len() - i,
    {
        assert(decreases_to!(v@ => v@[i as int]));
        assert(decreases_to!(v@[i as int] => v@[i as int].1));
        out.push((v[i].0.clone(), v[i].1.clone()));
        i += 1;
    }
    assert(field_views(out@) =~= field_views(v@));
    out
}

fn clone_paths(v: &Vec<(String, Box<Type>)>) -> (r: Vec<(String, Box<Type>)>)
    ensures
        path_views(r@) == path_views(v@),
    decreases v,
{
    let mut out: Vec<(String, Box<Type>)> = Vec::new();
    let mut i: usize = 0;
    while i < v.len()
        invariant
            i <= v.len(),
            out.len() == i,
            forall|j: int| 0 <= j < i ==> out@[j].0@ == v@[j].0@ && out@[j].1@ == v@[j].1@,
        decreases v.len() - i,
    {
        assert(decreases_to!(v@ => v@[i as int]));
        assert(decreases_to!(v@[i as int] => v@[i as int].1));
        let t: Type = (*v[i].1).clone();
        out.push((v[i].0.clone(), Box::new(t)));
        i += 1;
    }
    assert(path_views(out@) =~= path_views(v@));
    out
}

impl Clone for Type {
    fn clone(&self) -> (r: Self)
        ensures
            r@ == self@,
        decreases self,
    {
        let r = match self {
            Type::Int8 => Type::Int8,
            Type::Int16 => Type::Int16,
            Type::Int32 => Type::Int32,
            Type::Int64 => Type::Int64,
            Type::Int128 => Type::Int128,
            Type::Int256 => Type::Int256,
            Type::UInt8 => Type::UInt8,
            Type::UInt16 => Type::UInt16,
            Type::UInt32 => Type::UInt32,
            Type::UInt64 => Type::UInt64,
            Type::UInt128 => Type::UInt128,
            Type::UInt256 => Type::UInt256,
            Type::Float32 => Type::Float32,
            Type::Float64 => Type::Float64,
            Type::String => Type::String,
            Type::Binary => Type::Binary,
            Type::Uuid => Type::Uuid,
            Type::Date => Type::Date,
            Type::Date32 => Type::Date32,
            Type::Ipv4 => Type::Ipv4,
            Type::Ipv6 => Type::Ipv6,
            Type::Point => Type::Point,
            Type::Ring => Type::Ring,
            Type::Polygon => Type::Polygon,
            Type::MultiPolygon => Type::MultiPolygon,
            Type::Object => Type::Object,
            Type::Nothing => Type::Nothing,
            Type::Bool => Type::Bool,
            Type::Decimal32(n) => Type::Decimal32(*n),
            Type::Decimal64(n) => Type::Decimal64(*n),
            Type::Decimal128(n) => Type::Decimal128(*n),
            Type::Decimal256(n) => Type::Decimal256(*n),
            Type::FixedSizedString(n) => Type::FixedSizedString(*n),
            Type::FixedSizedBinary(n) => Type::FixedSizedBinary(*n),
            Type::DateTime(tz) => Type::DateTime(*tz),
            Type::DateTime64(p, tz) => Type::DateTime64(*p, *tz),
            Type::Enum8(v) => Type::Enum8(clone_options8(v)),
            Type::Enum16(v) => Type::Enum16(clone_options16(v)),
            Type::LowCardinality(t) => Type::LowCardinality(Box::new((**t).clone())),
            Type::Array(t) => Type::Array(Box::new((**t).clone())),
            Type::Tuple(v) => Type::Tuple(clone_types(v)),
            Type::TupleNamed(v) => Type::TupleNamed(clone_fields(v)),
            Type::Nullable(t) => Type::Nullable(Box::new((**t).clone())),
            Type::MapOf(k, v) => Type::MapOf(Box::new((**k).clone()), Box::new((**v).clone())),
            Type::Variant(v) => Type::Variant(clone_types(v)),
            Type::Dynamic { max_types } => Type::Dynamic { max_types: *max_types },
            Type::JSON {
                max_dynamic_paths,
                max_dynamic_types,
                typed_paths,
                skip_exact,
                skip_regex,
            } => Type::JSON {
                max_dynamic_paths: *max_dynamic_paths,
                max_dynamic_types: *max_dynamic_types,
                typed_paths: clone_paths(typed_paths),
                skip_exact: clone_strings(skip_exact),
                skip_regex: clone_strings(skip_regex),
            },
        };
        proof {
            self.lemma_view();
            r.lemma_view();
        }
        r
    }
}

fn eq_options8(a: &Vec<(String, i8)>, b: &Vec<(String, i8)>) -> (r: bool)
    ensures
        r == (options8(a@) == options8(b@)),
{
    if a.len() != b.len() {
        assert(options8(a@).len() != options8(b@).len());
        return false;
    }
    let mut i: usize = 0;
    while i < a.len()
        invariant
            i <= a.len(),
            a.len() == b.len(),
            forall|j: int| 0 <= j < i ==> a@[j].0@ == b@[j].0@ && a@[j].1 == b@[j].1,
        decreases a.len() - i,
    {
        if a[i].0 != b[i].0 || a[i].1 != b[i].1 {
            assert(options8(a@)[i as int] != options8(b@)[i as int]);
            return false;
        }
        i += 1;
    }
    assert(options8(a@) =~= options8(b@));
    true
}

fn eq_options16(a: &Vec<(String, i16)>, b: &Vec<(String, i16)>) -> (r: bool)
    ensures
        r == (options16(a@) == options16(b@)),
{
    if a.len() != b.len() {
        assert(options16(a@).len() != options16(b@).len());
        return false;
    }
    let mut i: usize = 0;
    while i < a.len()
        invariant
            i <= a.len(),
            a.len() == b.len(),
            forall|j: int| 0 <= j < i ==> a@[j].0@ == b@[j].0@ && a@[j].1 == b@[j].1,
        decreases a.len() - i,
    {
        if a[i].0 != b[i].0 || a[i].1 != b[i].1 {
            assert(options16(a@)[i as int] != options16(b@)[i as int]);
            return false;
        }
        i += 1;
    }
    assert(options16(a@) =~= options16(b@));
    true
}

fn eq_strings(a: &Vec<String>, b: &Vec<String>) -> (r: bool)
    ensures
        r == (crate::text::texts(a@) == crate::text::texts(b@)),
{
    if a.len() != b.len() {
        assert(crate::text::texts(a@).len() != crate::text::texts(b@).len());
        return false;
    }
    let mut i: usize = 0;
    while i < a.len()
        invariant
            i <= a.len(),
            a.len() == b.len(),
            forall|j: int| 0 <= j < i ==> a@[j]@ == b@[j]@,
        decreases a.len() - i,
    {
        if a[i] != b[i] {
            assert(crate::text::texts(a@)[i as int] != crate::text::texts(b@)[i as int]);
            return false;
        }
        i += 1;
    }
    assert(crate::text::texts(a@) =~= crate::text::texts(b@));
    true
}

fn eq_types(a: &Vec<Type>, b: &Vec<Type>) -> (r: bool)
    ensures
        r == (type_views(a@) == type_views(b@)),
    decreases a,
{
    if a.len() != b.len() {
        assert(type_views(a@).len() != type_views(b@).len());
        return false;
    }
    let mut i: usize = 0;
    while i < a.len()
        invariant
            i <= a.len(),
            a.len() == b.len(),
            forall|j: int| 0 <= j < i ==> a@[j]@ == b@[j]@,
        decreases a.len() - i,
    {
        assert(decreases_to!(a@ => a@[i as int]));
        if !a[i].same(&b[i]) {
            assert(type_views(a@)[i as int] != type_views(b@)[i as int]);
            return false;
        }
        i += 1;
    }
    assert(type_views(a@) =~= type_views(b@));
    true
}

fn eq_fields(a: &Vec<(String, Type)>, b: &Vec<(String, Type)>) -> (r: bool)
    ensures
        r == (field_views(a@) == field_views(b@)),
    decreases a,
{
    if a.len() != b.len() {
        assert(field_views(a@).len() != field_views(b@).len());
        return false;
    }
    let mut i: usize = 0;
    while i < a.len()
        invariant
            i <= a.len(),
            a.len() == b.len(),
            forall|j: int| 0 <= j < i ==> a@[j].0@ == b@[j].0@ && a@[j].1@ == b@[j].1@,
        decreases a.len() - i,
    {
        assert(decreases_to!(a@ => a@[i as int]));
        assert(decreases_to!(a@[i as int] => a@[i as int].1));
        if a[i].0 != b[i].0 || !a[i].1.same(&b[i].1) {
            assert(field_views(a@)[i as int] != field_views(b@)[i as int]);
            return false;
        }
        i += 1;
    }
    assert(field_views(a@) =~= field_views(b@));
    true
}

fn eq_paths(a: &Vec<(String, Box<Type>)>, b: &Vec<(String, Box<Type>)>) -> (r: bool)
    ensures
        r == (path_views(a@) == path_views(b@)),
    decreases a,
{
    if a.len() != b.len() {
        assert(path_views(a@).len() != path_views(b@).len());
        return false;
    }
    let mut i: usize = 0;
    while i < a.len()
        invariant
            i <= a.len(),
            a.len() == b.len(),
            forall|j: int| 0 <= j < i ==> a@[j].0@ == b@[j].0@ && a@[j].1@ == b@[j].1@,
        decreases a.len() - i,
    {
        assert(decreases_to!(a@ => a@[i as int]));
        assert(decreases_to!(a@[i as int] => a@[i as int].1));
        if a[i].0 != b[i].0 || !a[i].1.same(&b[i].1) {
            assert(path_views(a@)[i as int] != path_views(b@)[i as int]);
            return false;
        }
        i += 1;
    }
    assert(path_views(a@) =~= path_views(b@));
    true
}

impl Type {
    /// Whether two types are equal.
    pub fn same(&self, other: &Type) -> (r: bool)
        ensures
            r == (self@ == other@),
        decreases self,
    {
        proof {
            self.lemma_view();
            other.lemma_view();
        }
        match (self, other) {
            (Type::Int8, Type::Int8) => true,
            (Type::Int16, Type::Int16) => true,
            (Type::Int32, Type::Int32) => true,
            (Type::Int64, Type::Int64) => true,
            (Type::Int128, Type::Int128) => true,
            (Type::Int256, Type::Int256) => true,
            (Type::UInt8, Type::UInt8) => true,
            (Type::UInt16, Type::UInt16) => true,
            (Type::UInt32, Type::UInt32) => true,
            (Type::UInt64, Type::UInt64) => true,
            (Type::UInt128, Type::UInt128) => true,
            (Type::UInt256, Type::UInt256) => true,
            (Type::Float32, Type::Float32) => true,
            (Type::Float64, Type::Float64) => true,
            (Type::String, Type::String) => true,
            (Type::Binary, Type::Binary) => true,
            (Type::Uuid, Type::Uuid) => true,
            (Type::Date, Type::Date) => true,
            (Type::Date32, Type::Date32) => true,
            (Type::Ipv4, Type::Ipv4) => true,
            (Type::Ipv6, Type::Ipv6) => true,
            (Type::Point, Type::Point) => true,
            (Type::Ring, Type::Ring) => true,
            (Type::Polygon, Type::Polygon) => true,
            (Type::MultiPolygon, Type::MultiPolygon) => true,
            (Type::Object, Type::Object) => true,
            (Type::Nothing, Type::Nothing) => true,
            (Type::Bool, Type::Bool) => true,
            (Type::Decimal32(a), Type::Decimal32(b)) => *a == *b,
            (Type::Decimal64(a), Type::Decimal64(b)) => *a == *b,
            (Type::Decimal128(a), Type::Decimal128(b)) => *a == *b,
            (Type::Decimal256(a), Type::Decimal256(b)) => *a == *b,
            (Type::FixedSizedString(a), Type::FixedSizedString(b)) => *a == *b,
            (Type::FixedSizedBinary(a), Type::FixedSizedBinary(b)) => *a == *b,
            (Type::DateTime(a), Type::DateTime(b)) => same_zone(*a, *b),
            (Type::DateTime64(p, a), Type::DateTime64(q, b)) => *p == *q && same_zone(*a, *b),
            (Type::Enum8(a), Type::Enum8(b)) => eq_options8(a, b),
            (Type::Enum16(a), Type::Enum16(b)) => eq_options16(a, b),
            (Type::LowCardinality(a), Type::LowCardinality(b)) => a.same(b),
            (Type::Array(a), Type::Array(b)) => a.same(b),
            (Type::Tuple(a), Type::Tuple(b)) => eq_types(a, b),
            (Type::TupleNamed(a), Type::TupleNamed(b)) => eq_fields(a, b),
            (Type::Nullable(a), Type::Nullable(b)) => a.same(b),
            (Type::MapOf(a, c), Type::MapOf(b, d)) => a.same(b) && c.same(d),
            (Type::Variant(a), Type::Variant(b)) => eq_types(a, b),
            (Type::Dynamic { max_types: a }, Type::Dynamic { max_types: b }) => *a == *b,
            (
                Type::JSON {
                    max_dynamic_paths: a1,
                    max_dynamic_types: a2,
                    typed_paths: a3,
                    skip_exact: a4,
                    skip_regex: a5,
                },
                Type::JSON {
                    max_dynamic_paths: b1,
                    max_dynamic_types: b2,
                    typed_paths: b3,
                    skip_exact: b4,
                    skip_regex: b5,
                },
            ) => *a1 == *b1 && *a2 == *b2 && eq_paths(a3, b3) && eq_strings(a4, b4) && eq_strings(
                a5,
                b5,
            ),
            _ => false,
        }
    }

    /// The type under one level of `Nullable`.
    pub fn strip_null(&self) -> (r: &Type)
        ensures
            r@ == stripped(self@),
    {
        match self {
            Type::Nullable(inner) => inner,
            _ => self,
        }
    }

    /// Whether null is a value of the type.
    pub fn is_nullable(&self) -> (r: bool)
        ensures
            r == nullable(self@),
    {
        match self {
            Type::Nullable(_) => true,
            _ => false,
        }
    }

    /// The element type of an array.
    pub fn unwrap_array(&self) -> (r: Result<&Type>)
        ensures
            match r {
                Ok(t) => self@ == TypeView::Array(Box::new(t@)),
                Err(e) => !(self@ is Array) && e == Error::Protocol(Expected::Array),
            },
    {
        match self {
            Type::Array(inner) => Ok(inner),
            _ => Err(Error::Protocol(Expected::Array)),
        }
    }

    /// The types that a variant chooses from.
    pub fn unwrap_variant(&self) -> (r: Result<&Vec<Type>>)
        ensures
            match r {
                Ok(v) => self@ == TypeView::Variant(type_views(v@)),
                Err(e) => !(self@ is Variant) && e == Error::Protocol(Expected::Variant),
            },
    {
        proof {
            self.lemma_view();
        }
        match self {
            Type::Variant(types) => Ok(types),
            _ => Err(Error::Protocol(Expected::Variant)),
        }
    }
}

/// The type under one level of `Nullable`.
pub open spec fn stripped(t: TypeView) -> TypeView {
    match t {
        TypeView::Nullable(inner) => *inner,
        _ => t,
    }
}

/// Whether null is a value of the type.
pub open spec fn nullable(t: TypeView) -> bool {
    t is Nullable
}

} // verus!
