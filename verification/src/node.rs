//! Values as trees of what a data format takes: numbers, strings, lists and fields.
use vstd::prelude::*;

use crate::big_int::{be_value, big_int_to_string, big_uint_to_string};
use crate::error::{Error, Result, WriteReason};
use crate::json_text::{json_of_text, parse_json};
use crate::json_value::{JsonValue, JsonView};
use crate::text::{
    dec_text, int_text, int_to_string, lossy_text, string_from_utf8_lossy, uint_to_string,
};
use crate::types::{Type, TypeView};
use crate::value_text::{
    date32_text, date32_to_string, date_text, date_to_string, datetime64_text, datetime64_to_string,
    datetime_text, datetime_to_string, decimal_text, format_decimal, ipv4_text, ipv4_to_string, ipv6_text, ipv6_to_string,
    uuid_text, uuid_to_string,
};
use crate::values::{Point, Polygon, Ring, Value, ValueView};
use crate::wire::untwos;

verus! {

/// How the keys of maps are given.
#[derive(Clone, Copy, Debug, PartialEq, Eq, Structural)]
pub enum MapKeyPolicy {
    /// As strings.
    Stringify,
    /// As what they are.
    Native,
    /// In lists of a key and its value, in place of fields.
    Pairs,
}

impl Default for MapKeyPolicy {
    fn default() -> (r: Self)
        ensures
            r == MapKeyPolicy::Stringify,
    {
        MapKeyPolicy::Stringify
    }
}

/// What a tree is made for.
#[derive(Clone, Copy, Debug, PartialEq, Eq, Structural)]
pub enum NodeMode {
    /// Writing a value of a type.
    Typed(MapKeyPolicy),
    /// Reading out of a value of a type.
    Reading,
    /// Writing a value of a type, with all but plain values taken from its document.
    Plain,
}

/// A value as a tree. Numbers of floating point are held as their bits.
#[derive(Debug)]
pub enum Node {
    Missing,
    Bool(bool),
    I8(i8),
    I16(i16),
    I32(i32),
    I64(i64),
    U8(u8),
    U16(u16),
    U32(u32),
    U64(u64),
    F32(u32),
    F64(u64),
    Str(String),
    /// A document.
    Json(JsonValue),
    List(Vec<Node>),
    /// Keys and their values.
    Fields(Vec<Node>, Vec<Node>),
}

/// The model of a [`Node`].
pub ghost enum NodeView {
    Missing,
    Bool(bool),
    I8(i8),
    I16(i16),
    I32(i32),
    I64(i64),
    U8(u8),
    U16(u16),
    U32(u32),
    U64(u64),
    F32(u32),
    F64(u64),
    Str(Seq<char>),
    Json(JsonView),
    List(Seq<NodeView>),
    Fields(Seq<NodeView>, Seq<NodeView>),
}

/// The views of trees.
pub open spec fn node_views(v: Seq<Node>) -> Seq<NodeView> {
    Seq::new(v.len(), |i: int| v[i]@)
}

impl Node {
    /// The model of a tree.
    pub open spec fn view(&self) -> NodeView
        decreases self,
    {
        match self {
            Node::Missing => NodeView::Missing,
            Node::Bool(x) => NodeView::Bool(*x),
            Node::I8(x) => NodeView::I8(*x),
            Node::I16(x) => NodeView::I16(*x),
            Node::I32(x) => NodeView::I32(*x),
            Node::I64(x) => NodeView::I64(*x),
            Node::U8(x) => NodeView::U8(*x),
            Node::U16(x) => NodeView::U16(*x),
            Node::U32(x) => NodeView::U32(*x),
            Node::U64(x) => NodeView::U64(*x),
            Node::F32(x) => NodeView::F32(*x),
            Node::F64(x) => NodeView::F64(*x),
            Node::Str(x) => NodeView::Str(x@),
            Node::Json(x) => NodeView::Json(x@),
            Node::List(v) => NodeView::List(
                Seq::new(
                    v@.len(),
                    |i: int|
                        if 0 <= i < v@.len() {
                            v@[i].view()
                        } else {
                            arbitrary()
                        },
                ),
            ),
            Node::Fields(k, v) => NodeView::Fields(
                Seq::new(
                    k@.len(),
                    |i: int|
                        if 0 <= i < k@.len() {
                            k@[i].view()
                        } else {
                            arbitrary()
                        },
                ),
                Seq::new(
                    v@.len(),
                    |i: int|
                        if 0 <= i < v@.len() {
                            v@[i].view()
                        } else {
                            arbitrary()
                        },
                ),
            ),
        }
    }

    /// What the view of a composite tree is made of.
    pub proof fn lemma_view(&self)
        ensures
            self matches Node::List(v) ==> self@ == NodeView::List(node_views(v@)),
            self matches Node::Fields(k, v) ==> self@ == NodeView::Fields(
                node_views(k@),
                node_views(v@),
            ),
    {
        match self {
            Node::List(v) => {
                assert(self@->List_0 =~= node_views(v@));
            },
            Node::Fields(k, v) => {
                assert(self@->Fields_0 =~= node_views(k@));
                assert(self@->Fields_1 =~= node_views(v@));
            },
            _ => {},
        }
    }
}

// ---------------------------------------------------------------------------
// Leaves
// ---------------------------------------------------------------------------

/// What a tree comes to, or why there is none.
pub type Noded = core::result::Result<NodeView, Error>;

/// Whether bits of single precision are those of a finite number.
pub open spec fn finite32(bits: u32) -> bool {
    bits as nat / 0x80_0000 % 0x100 != 0xFF
}

/// Whether bits of double precision are those of a finite number.
pub open spec fn finite64(bits: u64) -> bool {
    bits as nat / 0x10_0000_0000_0000 % 0x800 != 0x7FF
}

/// The text of a decimal.
pub open spec fn decimal_node(scale: usize, x: int) -> Noded {
    if scale == usize::MAX {
        Err(Error::SerializeError(WriteReason::Overflow))
    } else {
        Ok(NodeView::Str(decimal_text(int_text(x), scale as nat)))
    }
}

/// A text, or what is wrong with a date that has none.
pub open spec fn date_node(text: Option<Seq<char>>) -> Noded {
    match text {
        Some(s) => Ok(NodeView::Str(s)),
        None => Err(Error::SerializeError(WriteReason::InvalidDateTime)),
    }
}

/// Numbers, strings and names.
pub open spec fn scalar_node(v: ValueView) -> Option<Noded> {
    match v {
        ValueView::Null => Some(Ok(NodeView::Missing)),
        ValueView::Bool(x) => Some(Ok(NodeView::Bool(x))),
        ValueView::Int8(x) => Some(Ok(NodeView::I8(x))),
        ValueView::Int16(x) => Some(Ok(NodeView::I16(x))),
        ValueView::Int32(x) => Some(Ok(NodeView::I32(x))),
        ValueView::Int64(x) => Some(Ok(NodeView::I64(x))),
        ValueView::UInt8(x) => Some(Ok(NodeView::U8(x))),
        ValueView::UInt16(x) => Some(Ok(NodeView::U16(x))),
        ValueView::UInt32(x) => Some(Ok(NodeView::U32(x))),
        ValueView::UInt64(x) => Some(Ok(NodeView::U64(x))),
        ValueView::Int128(x) => Some(Ok(NodeView::Str(int_text(x as int)))),
        ValueView::UInt128(x) => Some(Ok(NodeView::Str(dec_text(x as nat)))),
        ValueView::Int256(b) => Some(Ok(NodeView::Str(int_text(untwos(be_value(b), b.len()))))),
        ValueView::UInt256(b) => Some(Ok(NodeView::Str(dec_text(be_value(b))))),
        ValueView::Float32(x) => Some(
            Ok(
                if finite32(x) {
                    NodeView::F32(x)
                } else {
                    NodeView::Missing
                },
            ),
        ),
        ValueView::Float64(x) => Some(
            Ok(
                if finite64(x) {
                    NodeView::F64(x)
                } else {
                    NodeView::Missing
                },
            ),
        ),
        ValueView::Decimal32(s, x) => Some(decimal_node(s, x as int)),
        ValueView::Decimal64(s, x) => Some(decimal_node(s, x as int)),
        ValueView::Decimal128(s, x) => Some(decimal_node(s, x as int)),
        ValueView::Decimal256(s, b) => Some(decimal_node(s, untwos(be_value(b), b.len()))),
        ValueView::String(b) => Some(Ok(NodeView::Str(lossy_text(b)))),
        ValueView::Uuid(x) => Some(Ok(NodeView::Str(uuid_text(x as nat)))),
        ValueView::Ipv4(x) => Some(Ok(NodeView::Str(ipv4_text(x)))),
        ValueView::Ipv6(b) => Some(Ok(NodeView::Str(ipv6_text(b)))),
        ValueView::Enum8(name, _) => Some(Ok(NodeView::Str(name))),
        ValueView::Enum16(name, _) => Some(Ok(NodeView::Str(name))),
        _ => None,
    }
}

/// A point.
pub open spec fn point_node(x: u64, y: u64) -> NodeView {
    NodeView::List(seq![NodeView::F64(x), NodeView::F64(y)])
}

/// A ring.
pub open spec fn ring_node(r: Seq<(u64, u64)>) -> NodeView {
    NodeView::List(Seq::new(r.len(), |i: int| point_node(r[i].0, r[i].1)))
}

/// A polygon.
pub open spec fn polygon_node(p: Seq<Seq<(u64, u64)>>) -> NodeView {
    NodeView::List(Seq::new(p.len(), |i: int| ring_node(p[i])))
}

/// Several polygons.
pub open spec fn multi_node(m: Seq<Seq<Seq<(u64, u64)>>>) -> NodeView {
    NodeView::List(Seq::new(m.len(), |i: int| polygon_node(m[i])))
}

/// Dates, times, documents and shapes. When they are read out of a value, times and
/// shapes have to be of the type asked for.
pub open spec fn special_node(v: ValueView, t: TypeView, mode: NodeMode) -> Option<Noded> {
    let reading = mode is Reading;
    if mode is Plain {
        None
    } else {
        match v {
            ValueView::Date(x) => Some(date_node(date_text(x))),
            ValueView::Date32(x) => Some(date_node(date32_text(x))),
            ValueView::DateTime(tz, x) => if reading && !(t is DateTime) {
                None
            } else {
                Some(date_node(datetime_text(tz, x)))
            },
            ValueView::DateTime64(tz, x, p) => if reading {
                match t {
                    TypeView::DateTime64(scale, _) => Some(
                        date_node(datetime64_text(tz, x, p as nat, scale as nat)),
                    ),
                    _ => None,
                }
            } else {
                Some(date_node(datetime64_text(tz, x, p as nat, p as nat)))
            },
            ValueView::Object(b) => Some(
                match json_of_text(b) {
                    Some(j) => Ok(NodeView::Json(j)),
                    None => Err(Error::SerializeError(WriteReason::InvalidJson)),
                },
            ),
            ValueView::Json(j) => Some(Ok(NodeView::Json(j))),
            ValueView::Point(x, y) => if reading && !(t is Point) {
                None
            } else {
                Some(Ok(point_node(x, y)))
            },
            ValueView::Ring(r) => if reading && !(t is Ring) {
                None
            } else {
                Some(Ok(ring_node(r)))
            },
            ValueView::Polygon(p) => if reading && !(t is Polygon) {
                None
            } else {
                Some(Ok(polygon_node(p)))
            },
            ValueView::MultiPolygon(m) => if reading && !(t is MultiPolygon) {
                None
            } else {
                Some(Ok(multi_node(m)))
            },
            _ => None,
        }
    }
}

/// Whether bits of single precision are those of a finite number.
pub fn is_finite32(bits: u32) -> (r: bool)
    ensures
        r == finite32(bits),
{
    bits / 0x80_0000 % 0x100 != 0xFF
}

/// Whether bits of double precision are those of a finite number.
pub fn is_finite64(bits: u64) -> (r: bool)
    ensures
        r == finite64(bits),
{
    bits / 0x10_0000_0000_0000 % 0x800 != 0x7FF
}

/// The outcome of a function that makes trees.
pub open spec fn made(r: Result<Node>, n: Noded) -> bool {
    match r {
        Ok(x) => n == Ok::<_, Error>(x@),
        Err(e) => n == Err::<NodeView, Error>(e),
    }
}

fn make_decimal(digits: String, scale: usize, Ghost(x): Ghost<int>) -> (r: Result<Node>)
    requires
        digits@ == int_text(x),
    ensures
        made(r, decimal_node(scale, x)),
{
    if scale == usize::MAX {
        return Err(Error::SerializeError(WriteReason::Overflow));
    }
    Ok(Node::Str(format_decimal(digits.as_str(), scale)))
}

fn make_date(text: Option<String>, Ghost(t): Ghost<Option<Seq<char>>>) -> (r: Result<Node>)
    requires
        match text {
            Some(s) => t == Some(s@),
            None => t is None,
        },
    ensures
        made(r, date_node(t)),
{
    match text {
        Some(s) => Ok(Node::Str(s)),
        None => Err(Error::SerializeError(WriteReason::InvalidDateTime)),
    }
}

/// Numbers, strings and names.
pub(crate) fn make_scalar(v: &Value) -> (r: Option<Result<Node>>)
    ensures
        match r {
            Some(x) => scalar_node(v@) is Some && made(x, scalar_node(v@)->0),
            None => scalar_node(v@) is None,
        },
{
    let r = match v {
        Value::Null => Ok(Node::Missing),
        Value::Bool(x) => Ok(Node::Bool(*x)),
        Value::Int8(x) => Ok(Node::I8(*x)),
        Value::Int16(x) => Ok(Node::I16(*x)),
        Value::Int32(x) => Ok(Node::I32(*x)),
        Value::Int64(x) => Ok(Node::I64(*x)),
        Value::UInt8(x) => Ok(Node::U8(*x)),
        Value::UInt16(x) => Ok(Node::U16(*x)),
        Value::UInt32(x) => Ok(Node::U32(*x)),
        Value::UInt64(x) => Ok(Node::U64(*x)),
        Value::Int128(x) => Ok(Node::Str(int_to_string(*x))),
        Value::UInt128(x) => Ok(Node::Str(uint_to_string(*x))),
        Value::Int256(x) => Ok(Node::Str(big_int_to_string(x.0.as_slice()))),
        Value::UInt256(x) => Ok(Node::Str(big_uint_to_string(x.0.as_slice()))),
        Value::Float32(x) => Ok(
            if is_finite32(*x) {
                Node::F32(*x)
            } else {
                Node::Missing
            },
        ),
        Value::Float64(x) => Ok(
            if is_finite64(*x) {
                Node::F64(*x)
            } else {
                Node::Missing
            },
        ),
        Value::Decimal32(s, x) => make_decimal(int_to_string(*x as i128), *s, Ghost(*x as int)),
        Value::Decimal64(s, x) => make_decimal(int_to_string(*x as i128), *s, Ghost(*x as int)),
        Value::Decimal128(s, x) => make_decimal(int_to_string(*x), *s, Ghost(*x as int)),
        Value::Decimal256(s, x) => make_decimal(
            big_int_to_string(x.0.as_slice()),
            *s,
            Ghost(untwos(be_value(x.0@), x.0@.len())),
        ),
        Value::String(b) => Ok(Node::Str(string_from_utf8_lossy(b))),
        Value::Uuid(x) => Ok(Node::Str(uuid_to_string(*x))),
        Value::Ipv4(x) => Ok(Node::Str(ipv4_to_string(x.0))),
        Value::Ipv6(x) => Ok(Node::Str(ipv6_to_string(x.0.as_slice()))),
        Value::Enum8(name, _) => Ok(Node::Str(name.clone())),
        Value::Enum16(name, _) => Ok(Node::Str(name.clone())),
        _ => return None,
    };
    Some(r)
}

fn make_point(p: &Point) -> (r: Node)
    ensures
        r@ == point_node(p.0, p.1),
{
    let mut v: Vec<Node> = Vec::new();
    v.push(Node::F64(p.0));
    v.push(Node::F64(p.1));
    assert(node_views(v@) =~= seq![NodeView::F64(p.0), NodeView::F64(p.1)]);
    let r = Node::List(v);
    proof {
        r.lemma_view();
    }
    r
}

fn make_ring(p: &Ring) -> (r: Node)
    ensures
        r@ == ring_node(crate::values::ring_view(*p)),
{
    let ghost all = crate::values::ring_view(*p);
    let mut v: Vec<Node> = Vec::new();
    let mut i: usize = 0;
    while i < p.0.len()
        invariant
            i <= p.0.len(),
            all == crate::values::ring_view(*p),
            v@.len() == i,
            forall|j: int| 0 <= j < i ==> (#[trigger] v@[j])@ == point_node(all[j].0, all[j].1),
        decreases p.0.len() - i,
    {
        v.push(make_point(&p.0[i]));
        i += 1;
    }
    assert(node_views(v@) =~= Seq::new(all.len(), |i: int| point_node(all[i].0, all[i].1)));
    let r = Node::List(v);
    proof {
        r.lemma_view();
    }
    r
}

fn make_polygon(p: &Polygon) -> (r: Node)
    ensures
        r@ == polygon_node(crate::values::polygon_view(*p)),
{
    let ghost all = crate::values::polygon_view(*p);
    let mut v: Vec<Node> = Vec::new();
    let mut i: usize = 0;
    while i < p.0.len()
        invariant
            i <= p.0.len(),
            all == crate::values::polygon_view(*p),
            v@.len() == i,
            forall|j: int| 0 <= j < i ==> (#[trigger] v@[j])@ == ring_node(all[j]),
        decreases p.0.len() - i,
    {
        v.push(make_ring(&p.0[i]));
        i += 1;
    }
    assert(node_views(v@) =~= Seq::new(all.len(), |i: int| ring_node(all[i])));
    let r = Node::List(v);
    proof {
        r.lemma_view();
    }
    r
}

fn make_multi(p: &Vec<Polygon>, Ghost(all): Ghost<Seq<Seq<Seq<(u64, u64)>>>>) -> (r: Node)
    requires
        all == Seq::new(p@.len(), |i: int| crate::values::polygon_view(p@[i])),
    ensures
        r@ == multi_node(all),
{
    let mut v: Vec<Node> = Vec::new();
    let mut i: usize = 0;
    while i < p.len()
        invariant
            i <= p.len(),
            all == Seq::new(p@.len(), |i: int| crate::values::polygon_view(p@[i])),
            v@.len() == i,
            forall|j: int| 0 <= j < i ==> (#[trigger] v@[j])@ == polygon_node(all[j]),
        decreases p.len() - i,
    {
        v.push(make_polygon(&p[i]));
        i += 1;
    }
    assert(node_views(v@) =~= Seq::new(all.len(), |i: int| polygon_node(all[i])));
    let r = Node::List(v);
    proof {
        r.lemma_view();
    }
    r
}

/// Dates, times, documents and shapes.
pub(crate) fn make_special(v: &Value, t: &Type, mode: NodeMode) -> (r: Option<Result<Node>>)
    ensures
        match r {
            Some(x) => special_node(v@, t@, mode) is Some && made(
                x,
                special_node(v@, t@, mode)->0,
            ),
            None => special_node(v@, t@, mode) is None,
        },
{
    let reading: bool = match mode {
        NodeMode::Plain => return None,
        NodeMode::Reading => true,
        NodeMode::Typed(_) => false,
    };
    let r = match v {
        Value::Date(x) => make_date(date_to_string(x.0), Ghost(date_text(x.0))),
        Value::Date32(x) => make_date(date32_to_string(x.0), Ghost(date32_text(x.0))),
        Value::DateTime(x) => {
            if reading {
                match t {
                    Type::DateTime(_) => {},
                    _ => return None,
                }
            }
            make_date(datetime_to_string(x.0, x.1), Ghost(datetime_text(x.0, x.1)))
        },
        Value::DateTime64(x) => {
            let scale: usize = if reading {
                match t {
                    Type::DateTime64(scale, _) => *scale,
                    _ => return None,
                }
            } else {
                x.2
            };
            make_date(
                datetime64_to_string(x.0, x.1, x.2, scale),
                Ghost(datetime64_text(x.0, x.1, x.2 as nat, scale as nat)),
            )
        },
        Value::Object(b) => match parse_json(b) {
            Some(j) => Ok(Node::Json(j)),
            None => Err(Error::SerializeError(WriteReason::InvalidJson)),
        },
        Value::Json(j) => Ok(Node::Json(j.clone())),
        Value::Point(p) => {
            if reading {
                match t {
                    Type::Point => {},
                    _ => return None,
                }
            }
            Ok(make_point(p))
        },
        Value::Ring(p) => {
            if reading {
                match t {
                    Type::Ring => {},
                    _ => return None,
                }
            }
            Ok(make_ring(p))
        },
        Value::Polygon(p) => {
            if reading {
                match t {
                    Type::Polygon => {},
                    _ => return None,
                }
            }
            Ok(make_polygon(p))
        },
        Value::MultiPolygon(p) => {
            if reading {
                match t {
                    Type::MultiPolygon => {},
                    _ => return None,
                }
            }
            let ghost all = crate::values::multi_view(*p);
            assert(all =~= Seq::new(p.0@.len(), |i: int| crate::values::polygon_view(p.0@[i])));
            Ok(make_multi(&p.0, Ghost(all)))
        },
        _ => return None,
    };
    Some(r)
}

} // verus!
