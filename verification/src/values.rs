//! ClickHouse values.
use chrono_tz::Tz;
use vstd::prelude::*;
use vstd::utf8::encode_utf8;

use crate::error::{Error, Expected, Result};
use crate::json_render::document_compared;
use crate::json_value::{JsonValue, JsonView};
use crate::types::same_zone;

verus! {

/// A signed integer of 256 bits: its bytes in two's complement, most significant first.
#[allow(non_camel_case_types)]
#[derive(Debug, Clone, Copy, PartialEq, Eq, Hash)]
pub struct i256(pub [u8; 32]);

/// An unsigned integer of 256 bits: its bytes, most significant first.
#[allow(non_camel_case_types)]
#[derive(Debug, Clone, Copy, PartialEq, Eq, Hash)]
pub struct u256(pub [u8; 32]);

/// A date: days since the first of January 1970.
#[derive(Debug, Clone, Copy, PartialEq, Eq, Hash)]
pub struct Date(pub u16);

/// A date: days since the first of January 1900.
#[derive(Debug, Clone, Copy, PartialEq, Eq, Hash)]
pub struct Date32(pub i32);

/// A time in a zone: seconds since the epoch.
#[derive(Debug, Clone, Copy, PartialEq, Eq, Hash)]
pub struct DateTime(pub Tz, pub u32);

/// A time in a zone: ticks since the epoch, and how many decimals of a second a tick is.
#[derive(Debug, Clone, Copy, PartialEq, Eq, Hash)]
pub struct DynDateTime64(pub Tz, pub u64, pub usize);

/// An address of the Internet Protocol, version 4.
#[derive(Debug, Clone, Copy, PartialEq, Eq, Hash)]
pub struct Ipv4(pub u32);

/// The octets of an address of the Internet Protocol, version 6.
#[derive(Debug, Clone, Copy, PartialEq, Eq, Hash)]
pub struct Ipv6(pub [u8; 16]);

/// A point: the bits of its two coordinates, numbers of double precision.
#[derive(Debug, Clone, Copy, PartialEq, Eq, Hash)]
pub struct Point(pub u64, pub u64);

/// A closed line.
#[derive(Debug, PartialEq, Eq, Hash)]
pub struct Ring(pub Vec<Point>);

/// A ring with the rings of its holes.
#[derive(Debug, PartialEq, Eq, Hash)]
pub struct Polygon(pub Vec<Ring>);

/// Several polygons.
#[derive(Debug, PartialEq, Eq, Hash)]
pub struct MultiPolygon(pub Vec<Polygon>);

/// The views of the points of a ring.
pub open spec fn ring_view(r: Ring) -> Seq<(u64, u64)> {
    Seq::new(r.0@.len(), |i: int| (r.0@[i].0, r.0@[i].1))
}

/// The views of the rings of a polygon.
pub open spec fn polygon_view(p: Polygon) -> Seq<Seq<(u64, u64)>> {
    Seq::new(p.0@.len(), |i: int| ring_view(p.0@[i]))
}

/// The views of several polygons.
pub open spec fn multi_view(m: MultiPolygon) -> Seq<Seq<Seq<(u64, u64)>>> {
    Seq::new(m.0@.len(), |i: int| polygon_view(m.0@[i]))
}

/// A raw ClickHouse value. Types are not completely preserved: a `FixedString` is a
/// `String` here. Numbers of floating point are held as their bits.
#[derive(Debug, Hash)]
pub enum Value {
    Int8(i8),
    Int16(i16),
    Int32(i32),
    Int64(i64),
    Int128(i128),
    UInt8(u8),
    UInt16(u16),
    UInt32(u32),
    UInt64(u64),
    UInt128(u128),
    Float32(u32),
    Float64(u64),
    Uuid(u128),
    Bool(bool),
    Int256(i256),
    UInt256(u256),
    Decimal32(usize, i32),
    Decimal64(usize, i64),
    Decimal128(usize, i128),
    Decimal256(usize, i256),
    String(Vec<u8>),
    Date(Date),
    Date32(Date32),
    DateTime(DateTime),
    DateTime64(DynDateTime64),
    Enum8(String, i8),
    Enum16(String, i16),
    Array(Vec<Value>),
    Tuple(Vec<Value>),
    Null,
    /// Keys, and the values that belong to them.
    MapOf(Vec<Value>, Vec<Value>),
    /// A discriminator and a value.
    Variant(u8, Box<Value>),
    /// The name of a type and a value.
    Dynamic(String, Box<Value>),
    Ipv4(Ipv4),
    Ipv6(Ipv6),
    Point(Point),
    Ring(Ring),
    Polygon(Polygon),
    MultiPolygon(MultiPolygon),
    /// The text of a JSON document.
    Object(Vec<u8>),
    /// A JSON document.
    Json(JsonValue),
}

/// The model of a [`Value`]: the same tree over mathematical sequences.
pub ghost enum ValueView {
    Int8(i8),
    Int16(i16),
    Int32(i32),
    Int64(i64),
    Int128(i128),
    UInt8(u8),
    UInt16(u16),
    UInt32(u32),
    UInt64(u64),
    UInt128(u128),
    Float32(u32),
    Float64(u64),
    Uuid(u128),
    Bool(bool),
    Int256(Seq<u8>),
    UInt256(Seq<u8>),
    Decimal32(usize, i32),
    Decimal64(usize, i64),
    Decimal128(usize, i128),
    Decimal256(usize, Seq<u8>),
    String(Seq<u8>),
    Date(u16),
    Date32(i32),
    DateTime(Tz, u32),
    DateTime64(Tz, u64, usize),
    Enum8(Seq<char>, i8),
    Enum16(Seq<char>, i16),
    Array(Seq<ValueView>),
    Tuple(Seq<ValueView>),
    Null,
    MapOf(Seq<ValueView>, Seq<ValueView>),
    Variant(u8, Box<ValueView>),
    Dynamic(Seq<char>, Box<ValueView>),
    Ipv4(u32),
    Ipv6(Seq<u8>),
    Point(u64, u64),
    Ring(Seq<(u64, u64)>),
    Polygon(Seq<Seq<(u64, u64)>>),
    MultiPolygon(Seq<Seq<Seq<(u64, u64)>>>),
    Object(Seq<u8>),
    Json(JsonView),
}

/// The views of a sequence of values.
pub open spec fn value_views(v: Seq<Value>) -> Seq<ValueView> {
    Seq::new(v.len(), |i: int| v[i]@)
}

impl Value {
    /// The model of a value.
    pub open spec fn view(&self) -> ValueView
        decreases self,
    {
        match self {
            Value::Int8(x) => ValueView::Int8(*x),
            Value::Int16(x) => ValueView::Int16(*x),
            Value::Int32(x) => ValueView::Int32(*x),
            Value::Int64(x) => ValueView::Int64(*x),
            Value::Int128(x) => ValueView::Int128(*x),
            Value::UInt8(x) => ValueView::UInt8(*x),
            Value::UInt16(x) => ValueView::UInt16(*x),
            Value::UInt32(x) => ValueView::UInt32(*x),
            Value::UInt64(x) => ValueView::UInt64(*x),
            Value::UInt128(x) => ValueView::UInt128(*x),
            Value::Float32(x) => ValueView::Float32(*x),
            Value::Float64(x) => ValueView::Float64(*x),
            Value::Uuid(x) => ValueView::Uuid(*x),
            Value::Bool(x) => ValueView::Bool(*x),
            Value::Int256(x) => ValueView::Int256(x.0@),
            Value::UInt256(x) => ValueView::UInt256(x.0@),
            Value::Decimal32(s, x) => ValueView::Decimal32(*s, *x),
            Value::Decimal64(s, x) => ValueView::Decimal64(*s, *x),
            Value::Decimal128(s, x) => ValueView::Decimal128(*s, *x),
            Value::Decimal256(s, x) => ValueView::Decimal256(*s, x.0@),
            Value::String(v) => ValueView::String(v@),
            Value::Date(d) => ValueView::Date(d.0),
            Value::Date32(d) => ValueView::Date32(d.0),
            Value::DateTime(d) => ValueView::DateTime(d.0, d.1),
            Value::DateTime64(d) => ValueView::DateTime64(d.0, d.1, d.2),
            Value::Enum8(name, x) => ValueView::Enum8(name@, *x),
            Value::Enum16(name, x) => ValueView::Enum16(name@, *x),
            Value::Array(v) => ValueView::Array(
                Seq::new(
                    v@.len(),
                    |i: int|
                        if 0 <= i < v@.len() {
                            v@[i].view()
                        } else {
                            arbitrary()
                        },
                ),
            ),
            Value::Tuple(v) => ValueView::Tuple(
                Seq::new(
                    v@.len(),
                    |i: int|
                        if 0 <= i < v@.len() {
                            v@[i].view()
                        } else {
                            arbitrary()
                        },
                ),
            ),
            Value::Null => ValueView::Null,
            Value::MapOf(k, v) => ValueView::MapOf(
                Seq::new(
                    k@.len(),
                    |i: int|
                        if 0 <= i < k@.len() {
                            k@[i].view()
                        } else {
                            arbitrary()
                        },
                ),
                Seq::new(
                    v@.len(),
                    |i: int|
                        if 0 <= i < v@.len() {
                            v@[i].view()
                        } else {
                            arbitrary()
                        },
                ),
            ),
            Value::Variant(d, x) => ValueView::Variant(*d, Box::new(x.view())),
            Value::Dynamic(name, x) => ValueView::Dynamic(name@, Box::new(x.view())),
            Value::Ipv4(x) => ValueView::Ipv4(x.0),
            Value::Ipv6(x) => ValueView::Ipv6(x.0@),
            Value::Point(p) => ValueView::Point(p.0, p.1),
            Value::Ring(r) => ValueView::Ring(ring_view(*r)),
            Value::Polygon(p) => ValueView::Polygon(polygon_view(*p)),
            Value::MultiPolygon(m) => ValueView::MultiPolygon(multi_view(*m)),
            Value::Object(v) => ValueView::Object(v@),
            Value::Json(j) => ValueView::Json(j@),
        }
    }

    /// What the view of a composite value is made of.
    pub proof fn lemma_view(&self)
        ensures
            self matches Value::Array(v) ==> self@ == ValueView::Array(value_views(v@)),
            self matches Value::Tuple(v) ==> self@ == ValueView::Tuple(value_views(v@)),
            self matches Value::MapOf(k, v) ==> self@ == ValueView::MapOf(
                value_views(k@),
                value_views(v@),
            ),
    {
        match self {
            Value::Array(v) => {
                assert(self@->Array_0 =~= value_views(v@));
            },
            Value::Tuple(v) => {
                assert(self@->Tuple_0 =~= value_views(v@));
            },
            Value::MapOf(k, v) => {
                assert(self@->MapOf_0 =~= value_views(k@));
                assert(self@->MapOf_1 =~= value_views(v@));
            },
            _ => {},
        }
    }
}

/// Clones bytes.
pub fn clone_bytes(v: &Vec<u8>) -> (r: Vec<u8>)
    ensures
        r@ == v@,
{
    let mut out: Vec<u8> = Vec::new();
    crate::wire::put_bytes(&mut out, v.as_slice());
    assert(out@ =~= v@);
    out
}

impl Clone for Ring {
    fn clone(&self) -> (c: Self)
        ensures
            ring_view(c) == ring_view(*self),
    {
        clone_ring(self)
    }
}

impl Clone for Polygon {
    fn clone(&self) -> (c: Self)
        ensures
            polygon_view(c) == polygon_view(*self),
    {
        clone_polygon(self)
    }
}

impl Clone for MultiPolygon {
    fn clone(&self) -> (c: Self)
        ensures
            multi_view(c) == multi_view(*self),
    {
        clone_multi(self)
    }
}

fn clone_ring(r: &Ring) -> (c: Ring)
    ensures
        ring_view(c) == ring_view(*r),
{
    let mut out: Vec<Point> = Vec::new();
    let mut i: usize = 0;
    while i < r.0.len()
        invariant
            i <= r.0.len(),
            out.len() == i,
            forall|j: int| 0 <= j < i ==> out@[j] == r.0@[j],
        decreases r.0.len() - i,
    {
        out.push(r.0[i]);
        i += 1;
    }
    let c = Ring(out);
    assert(ring_view(c) =~= ring_view(*r));
    c
}

fn clone_polygon(p: &Polygon) -> (c: Polygon)
    ensures
        polygon_view(c) == polygon_view(*p),
{
    let mut out: Vec<Ring> = Vec::new();
    let mut i: usize = 0;
    while i < p.0.len()
        invariant
            i <= p.0.len(),
            out.len() == i,
            forall|j: int| 0 <= j < i ==> ring_view(#[trigger] out@[j]) == ring_view(p.0@[j]),
        decreases p.0.len() - i,
    {
        out.push(clone_ring(&p.0[i]));
        i += 1;
    }
    let c = Polygon(out);
    assert(polygon_view(c) =~= polygon_view(*p));
    c
}

fn clone_multi(m: &MultiPolygon) -> (c: MultiPolygon)
    ensures
        multi_view(c) == multi_view(*m),
{
    let mut out: Vec<Polygon> = Vec::new();
    let mut i: usize = 0;
    while i < m.0.len()
        invariant
            i <= m.0.len(),
            out.len() == i,
            forall|j: int| 0 <= j < i ==> polygon_view(#[trigger] out@[j]) == polygon_view(m.0@[j]),
        decreases m.0.len() - i,
    {
        out.push(clone_polygon(&m.0[i]));
        i += 1;
    }
    let c = MultiPolygon(out);
    assert(multi_view(c) =~= multi_view(*m));
    c
}

/// Clones values.
pub fn clone_values(v: &Vec<Value>) -> (r: Vec<Value>)
    ensures
        value_views(r@) == value_views(v@),
    decreases v,
{
    let mut out: Vec<Value> = Vec::new();
    let mut i: usize = 0;
    while i < v.len()
        invariant
            i <= v.len(),
            out.len() == i,
            forall|j: int| 0 <= j < i ==> out@[j]@ == v@[j]@,
        decreases v.len() - i,
    {
        assert(decreases_to!(v@ => v@[i as int]));
        out.push(v[i].clone());
        i += 1;
    }
    assert(value_views(out@) =~= value_views(v@));
    out
}

impl Clone for Value {
    fn clone(&self) -> (r: Self)
        ensures
            r@ == self@,
        decreases self,
    {
        let r = match self {
            Value::Int8(x) => Value::Int8(*x),
            Value::Int16(x) => Value::Int16(*x),
            Value::Int32(x) => Value::Int32(*x),
            Value::Int64(x) => Value::Int64(*x),
            Value::Int128(x) => Value::Int128(*x),
            Value::UInt8(x) => Value::UInt8(*x),
            Value::UInt16(x) => Value::UInt16(*x),
            Value::UInt32(x) => Value::UInt32(*x),
            Value::UInt64(x) => Value::UInt64(*x),
            Value::UInt128(x) => Value::UInt128(*x),
            Value::Float32(x) => Value::Float32(*x),
            Value::Float64(x) => Value::Float64(*x),
            Value::Uuid(x) => Value::Uuid(*x),
            Value::Bool(x) => Value::Bool(*x),
            Value::Int256(x) => Value::Int256(*x),
            Value::UInt256(x) => Value::UInt256(*x),
            Value::Decimal32(s, x) => Value::Decimal32(*s, *x),
            Value::Decimal64(s, x) => Value::Decimal64(*s, *x),
            Value::Decimal128(s, x) => Value::Decimal128(*s, *x),
            Value::Decimal256(s, x) => Value::Decimal256(*s, *x),
            Value::String(v) => Value::String(clone_bytes(v)),
            Value::Date(d) => Value::Date(*d),
            Value::Date32(d) => Value::Date32(*d),
            Value::DateTime(d) => Value::DateTime(*d),
            Value::DateTime64(d) => Value::DateTime64(*d),
            Value::Enum8(name, x) => Value::Enum8(name.clone(), *x),
            Value::Enum16(name, x) => Value::Enum16(name.clone(), *x),
            Value::Array(v) => Value::Array(clone_values(v)),
            Value::Tuple(v) => Value::Tuple(clone_values(v)),
            Value::Null => Value::Null,
            Value::MapOf(k, v) => Value::MapOf(clone_values(k), clone_values(v)),
            Value::Variant(d, x) => Value::Variant(*d, Box::new((**x).clone())),
            Value::Dynamic(name, x) => Value::Dynamic(name.clone(), Box::new((**x).clone())),
            Value::Ipv4(x) => Value::Ipv4(*x),
            Value::Ipv6(x) => Value::Ipv6(*x),
            Value::Point(p) => Value::Point(*p),
            Value::Ring(r) => Value::Ring(clone_ring(r)),
            Value::Polygon(p) => Value::Polygon(clone_polygon(p)),
            Value::MultiPolygon(m) => Value::MultiPolygon(clone_multi(m)),
            Value::Object(v) => Value::Object(clone_bytes(v)),
            Value::Json(j) => Value::Json(j.clone()),
        };
        proof {
            self.lemma_view();
            r.lemma_view();
        }
        r
    }
}

// ---------------------------------------------------------------------------
// Equality
// ---------------------------------------------------------------------------

/// The value as `==` sees it: the text of an object does not count.
pub open spec fn compared(v: ValueView) -> ValueView
    decreases v,
{
    match v {
        ValueView::Object(_) => ValueView::Object(Seq::empty()),
        ValueView::Json(j) => ValueView::Json(document_compared(j)),
        ValueView::Array(s) => ValueView::Array(all_compared(s)),
        ValueView::Tuple(s) => ValueView::Tuple(all_compared(s)),
        ValueView::MapOf(k, s) => ValueView::MapOf(all_compared(k), all_compared(s)),
        ValueView::Variant(d, x) => ValueView::Variant(d, Box::new(compared(*x))),
        ValueView::Dynamic(name, x) => ValueView::Dynamic(name, Box::new(compared(*x))),
        _ => v,
    }
}

/// Values as `==` sees them.
pub open spec fn all_compared(s: Seq<ValueView>) -> Seq<ValueView>
    decreases s,
{
    if s.len() == 0 {
        Seq::empty()
    } else {
        all_compared(s.subrange(0, s.len() - 1)).push(compared(s[s.len() - 1]))
    }
}

proof fn lemma_all_compared(s: Seq<ValueView>)
    ensures
        all_compared(s).len() == s.len(),
        forall|i: int| 0 <= i < s.len() ==> #[trigger] all_compared(s)[i] == compared(s[i]),
    decreases s.len(),
{
    if s.len() > 0 {
        lemma_all_compared(s.subrange(0, s.len() - 1));
    }
}

/// Whether two slices hold the same bytes.
pub fn eq_bytes(a: &[u8], b: &[u8]) -> (r: bool)
    ensures
        r == (a@ == b@),
{
    if a.len() != b.len() {
        return false;
    }
    let mut i: usize = 0;
    while i < a.len()
        invariant
            i <= a.len(),
            a.len() == b.len(),
            forall|j: int| 0 <= j < i ==> a@[j] == b@[j],
        decreases a.len() - i,
    {
        if a[i] != b[i] {
            return false;
        }
        i += 1;
    }
    assert(a@ =~= b@);
    true
}

fn eq_ring(a: &Ring, b: &Ring) -> (r: bool)
    ensures
        r == (ring_view(*a) == ring_view(*b)),
{
    if a.0.len() != b.0.len() {
        assert(ring_view(*a).len() != ring_view(*b).len());
        return false;
    }
    let mut i: usize = 0;
    while i < a.0.len()
        invariant
            i <= a.0.len(),
            a.0.len() == b.0.len(),
            forall|j: int| 0 <= j < i ==> ring_view(*a)[j] == ring_view(*b)[j],
        decreases a.0.len() - i,
    {
        if a.0[i].0 != b.0[i].0 || a.0[i].1 != b.0[i].1 {
            assert(ring_view(*a)[i as int] != ring_view(*b)[i as int]);
            return false;
        }
        i += 1;
    }
    assert(ring_view(*a) =~= ring_view(*b));
    true
}

fn eq_polygon(a: &Polygon, b: &Polygon) -> (r: bool)
    ensures
        r == (polygon_view(*a) == polygon_view(*b)),
{
    if a.0.len() != b.0.len() {
        assert(polygon_view(*a).len() != polygon_view(*b).len());
        return false;
    }
    let mut i: usize = 0;
    while i < a.0.len()
        invariant
            i <= a.0.len(),
            a.0.len() == b.0.len(),
            forall|j: int| 0 <= j < i ==> polygon_view(*a)[j] == polygon_view(*b)[j],
        decreases a.0.len() - i,
    {
        if !eq_ring(&a.0[i], &b.0[i]) {
            assert(polygon_view(*a)[i as int] != polygon_view(*b)[i as int]);
            return false;
        }
        i += 1;
    }
    assert(polygon_view(*a) =~= polygon_view(*b));
    true
}

fn eq_multi(a: &MultiPolygon, b: &MultiPolygon) -> (r: bool)
    ensures
        r == (multi_view(*a) == multi_view(*b)),
{
    if a.0.len() != b.0.len() {
        assert(multi_view(*a).len() != multi_view(*b).len());
        return false;
    }
    let mut i: usize = 0;
    while i < a.0.len()
        invariant
            i <= a.0.len(),
            a.0.len() == b.0.len(),
            forall|j: int| 0 <= j < i ==> multi_view(*a)[j] == multi_view(*b)[j],
        decreases a.0.len() - i,
    {
        if !eq_polygon(&a.0[i], &b.0[i]) {
            assert(multi_view(*a)[i as int] != multi_view(*b)[i as int]);
            return false;
        }
        i += 1;
    }
    assert(multi_view(*a) =~= multi_view(*b));
    true
}

fn eq_values(a: &Vec<Value>, b: &Vec<Value>) -> (r: bool)
    ensures
        r == (all_compared(value_views(a@)) == all_compared(value_views(b@))),
    decreases a,
{
    proof {
        lemma_all_compared(value_views(a@));
        lemma_all_compared(value_views(b@));
    }
    if a.len() != b.len() {
        assert(all_compared(value_views(a@)).len() != all_compared(value_views(b@)).len());
        return false;
    }
    let mut i: usize = 0;
    while i < a.len()
        invariant
            i <= a.len(),
            a.len() == b.len(),
            all_compared(value_views(a@)).len() == a@.len(),
            all_compared(value_views(b@)).len() == b@.len(),
            forall|j: int|
                0 <= j < a@.len() ==> #[trigger] all_compared(value_views(a@))[j] == compared(a@[j]@),
            forall|j: int|
                0 <= j < b@.len() ==> #[trigger] all_compared(value_views(b@))[j] == compared(b@[j]@),
            forall|j: int| 0 <= j < i ==> compared(#[trigger] a@[j]@) == compared(b@[j]@),
        decreases a.len() - i,
    {
        assert(decreases_to!(a@ => a@[i as int]));
        if !a[i].same(&b[i]) {
            assert(all_compared(value_views(a@))[i as int] != all_compared(
                value_views(b@),
            )[i as int]);
            return false;
        }
        i += 1;
    }
    assert(all_compared(value_views(a@)) =~= all_compared(value_views(b@)));
    true
}

impl Value {
    /// Whether `==` holds of two values.
    pub fn same(&self, other: &Value) -> (r: bool)
        ensures
            r == (compared(self@) == compared(other@)),
        decreases self,
    {
        proof {
            self.lemma_view();
            other.lemma_view();
        }
        match (self, other) {
            (Value::Int8(a), Value::Int8(b)) => *a == *b,
            (Value::Int16(a), Value::Int16(b)) => *a == *b,
            (Value::Int32(a), Value::Int32(b)) => *a == *b,
            (Value::Int64(a), Value::Int64(b)) => *a == *b,
            (Value::Int128(a), Value::Int128(b)) => *a == *b,
            (Value::UInt8(a), Value::UInt8(b)) => *a == *b,
            (Value::UInt16(a), Value::UInt16(b)) => *a == *b,
            (Value::UInt32(a), Value::UInt32(b)) => *a == *b,
            (Value::UInt64(a), Value::UInt64(b)) => *a == *b,
            (Value::UInt128(a), Value::UInt128(b)) => *a == *b,
            (Value::Float32(a), Value::Float32(b)) => *a == *b,
            (Value::Float64(a), Value::Float64(b)) => *a == *b,
            (Value::Uuid(a), Value::Uuid(b)) => *a == *b,
            (Value::Bool(a), Value::Bool(b)) => *a == *b,
            (Value::Int256(a), Value::Int256(b)) => eq_bytes(a.0.as_slice(), b.0.as_slice()),
            (Value::UInt256(a), Value::UInt256(b)) => eq_bytes(a.0.as_slice(), b.0.as_slice()),
            (Value::Decimal32(s, a), Value::Decimal32(t, b)) => *s == *t && *a == *b,
            (Value::Decimal64(s, a), Value::Decimal64(t, b)) => *s == *t && *a == *b,
            (Value::Decimal128(s, a), Value::Decimal128(t, b)) => *s == *t && *a == *b,
            (Value::Decimal256(s, a), Value::Decimal256(t, b)) => *s == *t && eq_bytes(
                a.0.as_slice(),
                b.0.as_slice(),
            ),
            (Value::String(a), Value::String(b)) => eq_bytes(a, b),
            (Value::Date(a), Value::Date(b)) => a.0 == b.0,
            (Value::Date32(a), Value::Date32(b)) => a.0 == b.0,
            (Value::DateTime(a), Value::DateTime(b)) => same_zone(a.0, b.0) && a.1 == b.1,
            (Value::DateTime64(a), Value::DateTime64(b)) => same_zone(a.0, b.0) && a.1 == b.1 && a.2
                == b.2,
            (Value::Enum8(n, a), Value::Enum8(m, b)) => *n == *m && *a == *b,
            (Value::Enum16(n, a), Value::Enum16(m, b)) => *n == *m && *a == *b,
            (Value::Array(a), Value::Array(b)) => eq_values(a, b),
            (Value::Tuple(a), Value::Tuple(b)) => eq_values(a, b),
            (Value::Null, Value::Null) => true,
            (Value::MapOf(k, a), Value::MapOf(l, b)) => eq_values(k, l) && eq_values(a, b),
            (Value::Variant(d, a), Value::Variant(e, b)) => *d == *e && a.same(b),
            (Value::Dynamic(n, a), Value::Dynamic(m, b)) => *n == *m && a.same(b),
            (Value::Ipv4(a), Value::Ipv4(b)) => a.0 == b.0,
            (Value::Ipv6(a), Value::Ipv6(b)) => eq_bytes(a.0.as_slice(), b.0.as_slice()),
            (Value::Point(a), Value::Point(b)) => a.0 == b.0 && a.1 == b.1,
            (Value::Ring(a), Value::Ring(b)) => eq_ring(a, b),
            (Value::Polygon(a), Value::Polygon(b)) => eq_polygon(a, b),
            (Value::MultiPolygon(a), Value::MultiPolygon(b)) => eq_multi(a, b),
            (Value::Object(_), Value::Object(_)) => true,
            (Value::Json(a), Value::Json(b)) => a.same(b),
            _ => false,
        }
    }
}

impl PartialEq for Value {
    fn eq(&self, other: &Self) -> (r: bool) {
        self.same(other)
    }
}

impl vstd::std_specs::cmp::PartialEqSpecImpl for Value {
    open spec fn obeys_eq_spec() -> bool {
        true
    }

    open spec fn eq_spec(&self, other: &Self) -> bool {
        compared(self@) == compared(other@)
    }
}

impl Eq for Value {

}

// ---------------------------------------------------------------------------
// Access
// ---------------------------------------------------------------------------

impl Value {
    /// The value that holds a text.
    pub fn string(value: &str) -> (r: Value)
        ensures
            r@ == ValueView::String(encode_utf8(value@)),
    {
        let mut out: Vec<u8> = Vec::new();
        crate::wire::put_bytes(&mut out, value.as_bytes());
        assert(out@ =~= encode_utf8(value@));
        Value::String(out)
    }

    /// The value of an unsigned integer, as an index.
    pub fn index_value(&self) -> (r: Result<usize>)
        ensures
            r == match self@ {
                ValueView::UInt8(x) => Ok(x as usize),
                ValueView::UInt16(x) => Ok(x as usize),
                ValueView::UInt32(x) => Ok(x as usize),
                ValueView::UInt64(x) => Ok(x as usize),
                _ => Err(Error::Protocol(Expected::Integer)),
            },
    {
        match self {
            Value::UInt8(x) => Ok(*x as usize),
            Value::UInt16(x) => Ok(*x as usize),
            Value::UInt32(x) => Ok(*x as usize),
            Value::UInt64(x) => Ok(*x as usize),
            _ => Err(Error::Protocol(Expected::Integer)),
        }
    }

    /// The elements of an array.
    pub fn unwrap_array_ref(&self) -> (r: Result<&[Value]>)
        ensures
            match r {
                Ok(v) => self@ == ValueView::Array(value_views(v@)),
                Err(e) => !(self@ is Array) && e == Error::Protocol(Expected::Array),
            },
    {
        proof {
            self.lemma_view();
        }
        match self {
            Value::Array(a) => Ok(a.as_slice()),
            _ => Err(Error::Protocol(Expected::Array)),
        }
    }

    /// The elements of an array.
    pub fn unwrap_array(self) -> (r: Result<Vec<Value>>)
        ensures
            match r {
                Ok(v) => self@ == ValueView::Array(value_views(v@)),
                Err(e) => !(self@ is Array) && e == Error::Protocol(Expected::Array),
            },
    {
        proof {
            self.lemma_view();
        }
        match self {
            Value::Array(a) => Ok(a),
            _ => Err(Error::Protocol(Expected::Array)),
        }
    }

    /// The fields of a tuple.
    pub fn unwrap_tuple(self) -> (r: Result<Vec<Value>>)
        ensures
            match r {
                Ok(v) => self@ == ValueView::Tuple(value_views(v@)),
                Err(e) => !(self@ is Tuple) && e == Error::Protocol(Expected::Tuple),
            },
    {
        proof {
            self.lemma_view();
        }
        match self {
            Value::Tuple(a) => Ok(a),
            _ => Err(Error::Protocol(Expected::Tuple)),
        }
    }

    /// The elements of an array, if the value is one.
    pub fn unarray(self) -> (r: Option<Vec<Value>>)
        ensures
            match r {
                Some(v) => self@ == ValueView::Array(value_views(v@)),
                None => !(self@ is Array),
            },
    {
        proof {
            self.lemma_view();
        }
        match self {
            Value::Array(a) => Some(a),
            _ => None,
        }
    }
}

} // verus!
