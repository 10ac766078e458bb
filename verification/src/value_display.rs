//! Values as they stand in a query.
use vstd::prelude::*;
use vstd::utf8::{encode_utf8, valid_utf8};

use crate::big_int::{be_value, big_int_to_string, big_uint_to_string};
use crate::error::{Error, Result, WriteReason};
use crate::json_render::document_text;
use crate::text::{
    dec_text, from_chars, int_text, int_to_string, string_from_utf8, to_chars, uint_to_string,
};
use crate::typed_node::{value_size, values_size};
use crate::value_text::{
    date32_text, date32_to_string, date_text, date_to_string, datetime64_rfc3339,
    datetime64_to_rfc3339, datetime_rfc3339, datetime_to_rfc3339, escape_string, escaped_bytes,
    ipv4_text, ipv4_to_string, ipv6_text, ipv6_to_string, pointed, put_point, uuid_text, uuid_to_string,
};
use crate::values::{value_views, Point, Polygon, Ring, Value, ValueView};
use crate::wire::untwos;

verus! {

/// A part of the text of a value. Parts that are not texts stand for texts that the
/// library does not make.
#[derive(Debug)]
pub enum Piece {
    /// The text itself.
    Text(String),
    /// The shortest text of a number of single precision, given as its bits.
    Float32(u32),
    /// The shortest text of a number of double precision, given as its bits.
    Float64(u64),
    /// The same, with a fraction even where it is zero.
    Coordinate(u64),
}

/// The model of a [`Piece`].
pub ghost enum PieceView {
    Text(Seq<char>),
    Float32(u32),
    Float64(u64),
    Coordinate(u64),
}

impl Piece {
    /// The model of a part.
    pub open spec fn view(&self) -> PieceView {
        match self {
            Piece::Text(s) => PieceView::Text(s@),
            Piece::Float32(x) => PieceView::Float32(*x),
            Piece::Float64(x) => PieceView::Float64(*x),
            Piece::Coordinate(x) => PieceView::Coordinate(*x),
        }
    }
}

/// The views of parts.
pub open spec fn piece_views(v: Seq<Piece>) -> Seq<PieceView> {
    Seq::new(v.len(), |i: int| v[i]@)
}

/// The parts of the text of a value, or why it has none.
pub type Shown = core::result::Result<Seq<PieceView>, Error>;

/// A text alone.
pub open spec fn shown_text(s: Seq<char>) -> Shown {
    Ok(seq![PieceView::Text(s)])
}

/// A text between two others.
pub open spec fn shown_between(open: Seq<char>, s: Option<Seq<char>>, close: Seq<char>) -> Shown {
    match s {
        Some(x) => shown_text(open + x + close),
        None => Err(Error::SerializeError(WriteReason::InvalidDateTime)),
    }
}

/// Parts between two texts.
pub open spec fn enclosed(open: Seq<char>, inner: Shown, close: Seq<char>) -> Shown {
    match inner {
        Err(e) => Err(e),
        Ok(p) => Ok(seq![PieceView::Text(open)] + p + seq![PieceView::Text(close)]),
    }
}

/// The string that a JSON text holds: none where it is null, and none at all where it is
/// neither a string without escapes nor null.
pub uninterp spec fn json_string_of(bytes: Seq<u8>) -> Option<Option<Seq<char>>>;

/// Calls `serde_json::from_slice` for an optional borrowed string.
#[verifier::external_body]
fn json_string(bytes: &[u8]) -> (r: Option<Option<String>>)
    ensures
        match r {
            Some(Some(s)) => json_string_of(bytes@) == Some(Some(s@)),
            Some(None) => json_string_of(bytes@) == Some(None::<Seq<char>>),
            None => json_string_of(bytes@) is None,
        },
{
    serde_json::from_slice::<Option<&str>>(bytes).ok().map(|o| o.map(|s| s.to_string()))
}

/// The text of an object that is held as text.
pub open spec fn object_text(b: Seq<u8>) -> Seq<char> {
    match json_string_of(b) {
        Some(Some(s)) => escaped_bytes(encode_utf8(s)),
        Some(None) => Seq::empty(),
        None => if valid_utf8(b) {
            escaped_bytes(b)
        } else {
            Seq::empty()
        },
    }
}

/// A point.
pub open spec fn point_pieces(x: u64, y: u64) -> Seq<PieceView> {
    seq![
        PieceView::Text("Point(["@),
        PieceView::Coordinate(x),
        PieceView::Text(", "@),
        PieceView::Coordinate(y),
        PieceView::Text("])"@),
    ]
}

/// Parts with commas between them.
pub open spec fn comma_separated(parts: Seq<Seq<PieceView>>) -> Seq<PieceView>
    decreases parts.len(),
{
    if parts.len() == 0 {
        Seq::empty()
    } else if parts.len() == 1 {
        parts[0]
    } else {
        comma_separated(parts.drop_last()) + seq![PieceView::Text(", "@)] + parts.last()
    }
}

/// A ring.
pub open spec fn ring_pieces(r: Seq<(u64, u64)>) -> Seq<PieceView> {
    seq![PieceView::Text("Ring(["@)] + comma_separated(
        Seq::new(r.len(), |i: int| point_pieces(r[i].0, r[i].1)),
    ) + seq![PieceView::Text("])"@)]
}

/// A polygon.
pub open spec fn polygon_pieces(p: Seq<Seq<(u64, u64)>>) -> Seq<PieceView> {
    seq![PieceView::Text("Polygon(["@)] + comma_separated(
        Seq::new(p.len(), |i: int| ring_pieces(p[i])),
    ) + seq![PieceView::Text("])"@)]
}

/// Several polygons.
pub open spec fn multi_pieces(m: Seq<Seq<Seq<(u64, u64)>>>) -> Seq<PieceView> {
    seq![PieceView::Text("MultiPolygon(["@)] + comma_separated(
        Seq::new(m.len(), |i: int| polygon_pieces(m[i])),
    ) + seq![PieceView::Text("])"@)]
}

/// The text of a value in a query.
pub open spec fn shown(v: ValueView) -> Shown
    decreases value_size(v), 0nat,
{
    match v {
        ValueView::Int8(x) => shown_text(int_text(x as int)),
        ValueView::Int16(x) => shown_text(int_text(x as int)),
        ValueView::Int32(x) => shown_text(int_text(x as int)),
        ValueView::Int64(x) => shown_text(int_text(x as int)),
        ValueView::Int128(x) => shown_text(int_text(x as int) + "::Int128"@),
        ValueView::Int256(b) => shown_text(
            int_text(untwos(be_value(b), b.len())) + "::Int256"@,
        ),
        ValueView::UInt8(x) => shown_text(dec_text(x as nat)),
        ValueView::UInt16(x) => shown_text(dec_text(x as nat)),
        ValueView::UInt32(x) => shown_text(dec_text(x as nat)),
        ValueView::UInt64(x) => shown_text(dec_text(x as nat)),
        ValueView::UInt128(x) => shown_text(dec_text(x as nat) + "::UInt128"@),
        ValueView::UInt256(b) => shown_text(dec_text(be_value(b)) + "::UInt256"@),
        ValueView::Float32(x) => Ok(seq![PieceView::Float32(x)]),
        ValueView::Float64(x) => Ok(seq![PieceView::Float64(x)]),
        ValueView::Bool(b) => shown_text(
            if b {
                "true"@
            } else {
                "false"@
            },
        ),
        ValueView::Decimal32(s, x) => shown_text(pointed(int_text(x as int), s as nat)),
        ValueView::Decimal64(s, x) => shown_text(pointed(int_text(x as int), s as nat)),
        ValueView::Decimal128(s, x) => shown_text(pointed(int_text(x as int), s as nat)),
        ValueView::Decimal256(s, b) => shown_text(
            pointed(int_text(untwos(be_value(b), b.len())), s as nat),
        ),
        ValueView::String(b) => shown_text("'"@ + escaped_bytes(b) + "'"@),
        ValueView::Uuid(x) => shown_text("'"@ + uuid_text(x as nat) + "'"@),
        ValueView::Date(x) => shown_between("'makeDate("@, date_text(x), ")'"@),
        ValueView::Date32(x) => shown_between("'makeDate("@, date32_text(x), ")'"@),
        ValueView::DateTime(tz, x) => match datetime_rfc3339(tz, x) {
            None => Err(Error::SerializeError(WriteReason::InvalidDateTime)),
            Some(s) => shown_text(
                "parseDateTimeBestEffort('"@ + escaped_bytes(encode_utf8(s)) + "')"@,
            ),
        },
        ValueView::DateTime64(tz, x, p) => match datetime64_rfc3339(tz, x, p as nat) {
            None => Err(Error::SerializeError(WriteReason::InvalidDateTime)),
            Some(s) => shown_text(
                "parseDateTime64BestEffort('"@ + escaped_bytes(encode_utf8(s)) + "', "@ + dec_text(
                    p as nat,
                ) + ")"@,
            ),
        },
        ValueView::Enum8(name, _) => shown_text(name),
        ValueView::Enum16(name, _) => shown_text(name),
        ValueView::Array(s) => enclosed("["@, all_shown(s), "]"@),
        ValueView::Tuple(s) => enclosed("("@, all_shown(s), ")"@),
        ValueView::Null => shown_text("NULL"@),
        ValueView::MapOf(k, x) => if k.len() != x.len() {
            Err(Error::SerializeError(WriteReason::UnsupportedValue))
        } else {
            enclosed("{"@, entries_shown(k, x), "}"@)
        },
        ValueView::Variant(d, x) => enclosed(
            "variant("@ + dec_text(d as nat) + ","@,
            shown(*x),
            ")"@,
        ),
        ValueView::Dynamic(name, x) => enclosed("dynamic('"@ + name + "',"@, shown(*x), ")"@),
        ValueView::Ipv4(x) => shown_text("'"@ + ipv4_text(x) + "'"@),
        ValueView::Ipv6(b) => shown_text("'"@ + ipv6_text(b) + "'"@),
        ValueView::Point(x, y) => Ok(point_pieces(x, y)),
        ValueView::Ring(r) => Ok(ring_pieces(r)),
        ValueView::Polygon(p) => Ok(polygon_pieces(p)),
        ValueView::MultiPolygon(m) => Ok(multi_pieces(m)),
        ValueView::Json(j) => shown_text("'"@ + escaped_bytes(document_text(j)) + "'"@),
        ValueView::Object(b) => shown_text("'"@ + object_text(b) + "'"@),
    }
}

/// The texts of values with commas between them.
pub open spec fn all_shown(s: Seq<ValueView>) -> Shown
    decreases values_size(s), 0nat,
{
    if s.len() == 0 {
        Ok(Seq::empty())
    } else {
        match shown(s[0]) {
            Err(e) => Err(e),
            Ok(p) => match all_shown(s.subrange(1, s.len() as int)) {
                Err(e) => Err(e),
                Ok(rest) => if s.len() == 1 {
                    Ok(p)
                } else {
                    Ok(p + seq![PieceView::Text(","@)] + rest)
                },
            },
        }
    }
}

/// The texts of keys and values, with colons and commas between them.
pub open spec fn entries_shown(k: Seq<ValueView>, x: Seq<ValueView>) -> Shown
    decreases values_size(k) + values_size(x), 0nat,
{
    if k.len() == 0 || x.len() == 0 {
        Ok(Seq::empty())
    } else {
        match shown(k[0]) {
            Err(e) => Err(e),
            Ok(p) => match shown(x[0]) {
                Err(e) => Err(e),
                Ok(q) => match entries_shown(
                    k.subrange(1, k.len() as int),
                    x.subrange(1, x.len() as int),
                ) {
                    Err(e) => Err(e),
                    Ok(rest) => {
                        let here = p + seq![PieceView::Text(":"@)] + q;
                        if k.len() == 1 {
                            Ok(here)
                        } else {
                            Ok(here + seq![PieceView::Text(","@)] + rest)
                        }
                    },
                },
            },
        }
    }
}

// ---------------------------------------------------------------------------
// Making the parts
// ---------------------------------------------------------------------------

/// Whether parts were appended as they should be.
pub open spec fn showed(before: Seq<Piece>, after: Seq<Piece>, r: Result<()>, s: Shown) -> bool {
    match r {
        Ok(()) => s is Ok && piece_views(after) == piece_views(before) + s->Ok_0,
        Err(e) => s == Err::<Seq<PieceView>, Error>(e),
    }
}

fn push_piece(out: &mut Vec<Piece>, p: Piece)
    ensures
        piece_views(final(out)@) == piece_views(old(out)@) + seq![p@],
        piece_views(final(out)@) == piece_views(old(out)@).push(p@),
{
    out.push(p);
    assert(piece_views(out@) =~= piece_views(old(out)@).push(p@));
    assert(piece_views(out@) =~= piece_views(old(out)@) + seq![p@]);
}

fn push_literal(out: &mut Vec<Piece>, s: &str)
    ensures
        piece_views(final(out)@) == piece_views(old(out)@) + seq![PieceView::Text(s@)],
        piece_views(final(out)@) == piece_views(old(out)@).push(PieceView::Text(s@)),
{
    push_piece(out, Piece::Text(from_chars(&to_chars(s))));
}

/// A text between two others.
fn join3(open: &str, s: &str, close: &str) -> (r: String)
    ensures
        r@ == open@ + s@ + close@,
{
    let mut out = String::new();
    out.push_str(open);
    out.push_str(s);
    out.push_str(close);
    assert(out@ =~= open@ + s@ + close@);
    out
}

fn join2(a: &str, b: &str) -> (r: String)
    ensures
        r@ == a@ + b@,
{
    let mut out = String::new();
    out.push_str(a);
    out.push_str(b);
    assert(out@ =~= a@ + b@);
    out
}

fn escape_text(b: &[u8]) -> (r: String)
    ensures
        r@ == escaped_bytes(b@),
{
    let mut out = String::new();
    escape_string(&mut out, b);
    assert(out@ =~= escaped_bytes(b@));
    out
}

fn show_date(out: &mut Vec<Piece>, text: Option<String>, Ghost(t): Ghost<Option<Seq<char>>>)
    -> (r: Result<()>)
    requires
        match text {
            Some(s) => t == Some(s@),
            None => t is None,
        },
    ensures
        showed(old(out)@, final(out)@, r, shown_between("'makeDate("@, t, ")'"@)),
{
    match text {
        Some(s) => {
            push_piece(out, Piece::Text(join3("'makeDate(", s.as_str(), ")'")));
            Ok(())
        },
        None => Err(Error::SerializeError(WriteReason::InvalidDateTime)),
    }
}

fn make_object_text(b: &Vec<u8>) -> (r: String)
    ensures
        r@ == object_text(b@),
{
    match json_string(b) {
        Some(Some(s)) => escape_text(s.as_str().as_bytes()),
        Some(None) => {
            let r = String::new();
            assert(r@ =~= Seq::<char>::empty());
            r
        },
        None => {
            match string_from_utf8(crate::values::clone_bytes(b)) {
                Some(_) => escape_text(b),
                None => {
                    let r = String::new();
                    assert(r@ =~= Seq::<char>::empty());
                    r
                },
            }
        },
    }
}

fn show_point(out: &mut Vec<Piece>, p: &Point)
    ensures
        piece_views(final(out)@) == piece_views(old(out)@) + point_pieces(p.0, p.1),
{
    push_literal(out, "Point([");
    push_piece(out, Piece::Coordinate(p.0));
    push_literal(out, ", ");
    push_piece(out, Piece::Coordinate(p.1));
    push_literal(out, "])");
    assert(piece_views(out@) =~= piece_views(old(out)@) + point_pieces(p.0, p.1));
}

proof fn lemma_separated(parts: Seq<Seq<PieceView>>, i: int)
    requires
        0 <= i < parts.len(),
    ensures
        comma_separated(parts.take(i + 1)) == (if i == 0 {
            parts[0]
        } else {
            comma_separated(parts.take(i)) + seq![PieceView::Text(", "@)] + parts[i]
        }),
{
    assert(parts.take(i + 1).drop_last() =~= parts.take(i));
}

fn show_ring(out: &mut Vec<Piece>, p: &Ring)
    ensures
        piece_views(final(out)@) == piece_views(old(out)@) + ring_pieces(
            crate::values::ring_view(*p),
        ),
{
    let ghost all = crate::values::ring_view(*p);
    let ghost parts = Seq::new(all.len(), |i: int| point_pieces(all[i].0, all[i].1));
    push_literal(out, "Ring([");
    let ghost start = piece_views(out@);
    let mut i: usize = 0;
    assert(start + comma_separated(parts.take(0)) =~= start);
    while i < p.0.len()
        invariant
            i <= p.0.len(),
            all == crate::values::ring_view(*p),
            parts == Seq::new(all.len(), |i: int| point_pieces(all[i].0, all[i].1)),
            piece_views(out@) == start + comma_separated(parts.take(i as int)),
        decreases p.0.len() - i,
    {
        proof {
            lemma_separated(parts, i as int);
        }
        if i > 0 {
            push_literal(out, ", ");
        }
        show_point(out, &p.0[i]);
        assert(piece_views(out@) =~= start + comma_separated(parts.take(i + 1)));
        i += 1;
    }
    assert(parts.take(parts.len() as int) =~= parts);
    push_literal(out, "])");
    assert(piece_views(out@) =~= piece_views(old(out)@) + ring_pieces(all));
}

fn show_polygon(out: &mut Vec<Piece>, p: &Polygon)
    ensures
        piece_views(final(out)@) == piece_views(old(out)@) + polygon_pieces(
            crate::values::polygon_view(*p),
        ),
{
    let ghost all = crate::values::polygon_view(*p);
    let ghost parts = Seq::new(all.len(), |i: int| ring_pieces(all[i]));
    push_literal(out, "Polygon([");
    let ghost start = piece_views(out@);
    let mut i: usize = 0;
    assert(start + comma_separated(parts.take(0)) =~= start);
    while i < p.0.len()
        invariant
            i <= p.0.len(),
            all == crate::values::polygon_view(*p),
            parts == Seq::new(all.len(), |i: int| ring_pieces(all[i])),
            piece_views(out@) == start + comma_separated(parts.take(i as int)),
        decreases p.0.len() - i,
    {
        proof {
            lemma_separated(parts, i as int);
        }
        if i > 0 {
            push_literal(out, ", ");
        }
        show_ring(out, &p.0[i]);
        assert(piece_views(out@) =~= start + comma_separated(parts.take(i + 1)));
        i += 1;
    }
    assert(parts.take(parts.len() as int) =~= parts);
    push_literal(out, "])");
    assert(piece_views(out@) =~= piece_views(old(out)@) + polygon_pieces(all));
}

fn show_multi(out: &mut Vec<Piece>, p: &crate::values::MultiPolygon)
    ensures
        piece_views(final(out)@) == piece_views(old(out)@) + multi_pieces(
            crate::values::multi_view(*p),
        ),
{
    let ghost all = crate::values::multi_view(*p);
    let ghost parts = Seq::new(all.len(), |i: int| polygon_pieces(all[i]));
    push_literal(out, "MultiPolygon([");
    let ghost start = piece_views(out@);
    let mut i: usize = 0;
    assert(start + comma_separated(parts.take(0)) =~= start);
    while i < p.0.len()
        invariant
            i <= p.0.len(),
            all == crate::values::multi_view(*p),
            parts == Seq::new(all.len(), |i: int| polygon_pieces(all[i])),
            piece_views(out@) == start + comma_separated(parts.take(i as int)),
        decreases p.0.len() - i,
    {
        proof {
            lemma_separated(parts, i as int);
        }
        if i > 0 {
            push_literal(out, ", ");
        }
        show_polygon(out, &p.0[i]);
        assert(piece_views(out@) =~= start + comma_separated(parts.take(i + 1)));
        i += 1;
    }
    assert(parts.take(parts.len() as int) =~= parts);
    push_literal(out, "])");
    assert(piece_views(out@) =~= piece_views(old(out)@) + multi_pieces(all));
}

/// The text of a value that has no other values in it, if that is one text.
fn plain_text(v: &Value) -> (r: Option<String>)
    ensures
        match r {
            Some(s) => shown(v@) == shown_text(s@),
            None => match v@ {
                ValueView::Float32(_)
                | ValueView::Float64(_)
                | ValueView::Date(_)
                | ValueView::Date32(_)
                | ValueView::DateTime(_, _)
                | ValueView::DateTime64(_, _, _)
                | ValueView::Array(_)
                | ValueView::Tuple(_)
                | ValueView::MapOf(_, _)
                | ValueView::Variant(_, _)
                | ValueView::Dynamic(_, _)
                | ValueView::Point(_, _)
                | ValueView::Ring(_)
                | ValueView::Polygon(_)
                | ValueView::MultiPolygon(_) => true,
                _ => false,
            },
        },
{
    let r = match v {
        Value::Int8(x) => int_to_string(*x as i128),
        Value::Int16(x) => int_to_string(*x as i128),
        Value::Int32(x) => int_to_string(*x as i128),
        Value::Int64(x) => int_to_string(*x as i128),
        Value::Int128(x) => join2(int_to_string(*x).as_str(), "::Int128"),
        Value::Int256(x) => join2(big_int_to_string(x.0.as_slice()).as_str(), "::Int256"),
        Value::UInt8(x) => uint_to_string(*x as u128),
        Value::UInt16(x) => uint_to_string(*x as u128),
        Value::UInt32(x) => uint_to_string(*x as u128),
        Value::UInt64(x) => uint_to_string(*x as u128),
        Value::UInt128(x) => join2(uint_to_string(*x).as_str(), "::UInt128"),
        Value::UInt256(x) => join2(big_uint_to_string(x.0.as_slice()).as_str(), "::UInt256"),
        Value::Bool(b) => if *b {
            from_chars(&to_chars("true"))
        } else {
            from_chars(&to_chars("false"))
        },
        Value::Decimal32(s, x) => put_point(int_to_string(*x as i128).as_str(), *s),
        Value::Decimal64(s, x) => put_point(int_to_string(*x as i128).as_str(), *s),
        Value::Decimal128(s, x) => put_point(int_to_string(*x).as_str(), *s),
        Value::Decimal256(s, x) => put_point(big_int_to_string(x.0.as_slice()).as_str(), *s),
        Value::String(b) => join3("'", escape_text(b).as_str(), "'"),
        Value::Uuid(x) => join3("'", uuid_to_string(*x).as_str(), "'"),
        Value::Enum8(name, _) => name.clone(),
        Value::Enum16(name, _) => name.clone(),
        Value::Null => from_chars(&to_chars("NULL")),
        Value::Ipv4(x) => join3("'", ipv4_to_string(x.0).as_str(), "'"),
        Value::Ipv6(x) => join3("'", ipv6_to_string(x.0.as_slice()).as_str(), "'"),
        Value::Json(j) => join3("'", escape_text(&j.to_text()).as_str(), "'"),
        Value::Object(b) => join3("'", make_object_text(b).as_str(), "'"),
        _ => return None,
    };
    Some(r)
}

impl Value {
    /// The parts of the text of the value in a query.
    pub fn display(&self) -> (r: Result<Vec<Piece>>)
        ensures
            match r {
                Ok(p) => shown(self@) == Ok::<_, Error>(piece_views(p@)),
                Err(e) => shown(self@) == Err::<Seq<PieceView>, Error>(e),
            },
    {
        let mut out: Vec<Piece> = Vec::new();
        match show(self, &mut out) {
            Ok(()) => {
                assert(piece_views(Seq::<Piece>::empty()) =~= Seq::<PieceView>::empty());
                assert(Seq::<PieceView>::empty() + shown(self@)->Ok_0 =~= shown(self@)->Ok_0);
                Ok(out)
            },
            Err(e) => Err(e),
        }
    }
}

/// Whether a value holds other values.
spec fn holds_values(v: ValueView) -> bool {
    v is Array || v is Tuple || v is MapOf || v is Variant || v is Dynamic
}

#[verifier::rlimit(40)]
fn show_leaf(v: &Value, out: &mut Vec<Piece>) -> (r: Result<()>)
    requires
        !holds_values(v@),
    ensures
        showed(old(out)@, final(out)@, r, shown(v@)),
{
    let ghost start = piece_views(out@);
    if let Some(s) = plain_text(v) {
        push_piece(out, Piece::Text(s));
        return Ok(());
    }
    match v {
        Value::Float32(x) => {
            push_piece(out, Piece::Float32(*x));
            Ok(())
        },
        Value::Float64(x) => {
            push_piece(out, Piece::Float64(*x));
            Ok(())
        },
        Value::Date(x) => show_date(out, date_to_string(x.0), Ghost(date_text(x.0))),
        Value::Date32(x) => show_date(out, date32_to_string(x.0), Ghost(date32_text(x.0))),
        Value::DateTime(x) => match datetime_to_rfc3339(x.0, x.1) {
            None => Err(Error::SerializeError(WriteReason::InvalidDateTime)),
            Some(s) => {
                let e = escape_text(s.as_str().as_bytes());
                push_piece(out, Piece::Text(join3("parseDateTimeBestEffort('", e.as_str(), "')")));
                Ok(())
            },
        },
        Value::DateTime64(x) => match datetime64_to_rfc3339(x.0, x.1, x.2) {
            None => Err(Error::SerializeError(WriteReason::InvalidDateTime)),
            Some(s) => {
                let e = escape_text(s.as_str().as_bytes());
                let head = join3("parseDateTime64BestEffort('", e.as_str(), "', ");
                let digits = uint_to_string(x.2 as u128);
                push_piece(out, Piece::Text(join3(head.as_str(), digits.as_str(), ")")));
                Ok(())
            },
        },
        Value::Point(p) => {
            show_point(out, p);
            Ok(())
        },
        Value::Ring(p) => {
            show_ring(out, p);
            Ok(())
        },
        Value::Polygon(p) => {
            show_polygon(out, p);
            Ok(())
        },
        Value::MultiPolygon(p) => {
            show_multi(out, p);
            Ok(())
        },
        _ => {
            assert(false);
            Ok(())
        },
    }
}

#[verifier::rlimit(40)]
fn show(v: &Value, out: &mut Vec<Piece>) -> (r: Result<()>)
    ensures
        showed(old(out)@, final(out)@, r, shown(v@)),
    decreases value_size(v@), 1nat,
{
    let ghost start = piece_views(out@);
    proof {
        v.lemma_view();
    }
    match v {
        Value::Array(s) => {
            push_literal(out, "[");
            match show_all(s, out) {
                Ok(()) => {},
                Err(e) => return Err(e),
            }
            push_literal(out, "]");
            assert(piece_views(out@) =~= start + shown(v@)->Ok_0);
            Ok(())
        },
        Value::Tuple(s) => {
            push_literal(out, "(");
            match show_all(s, out) {
                Ok(()) => {},
                Err(e) => return Err(e),
            }
            push_literal(out, ")");
            assert(piece_views(out@) =~= start + shown(v@)->Ok_0);
            Ok(())
        },
        Value::MapOf(k, x) => {
            assert(value_views(k@).len() == k@.len() && value_views(x@).len() == x@.len());
            if k.len() != x.len() {
                return Err(Error::SerializeError(WriteReason::UnsupportedValue));
            }
            push_literal(out, "{");
            match show_entries(k, x, out) {
                Ok(()) => {},
                Err(e) => return Err(e),
            }
            push_literal(out, "}");
            assert(piece_views(out@) =~= start + shown(v@)->Ok_0);
            Ok(())
        },
        Value::Variant(d, x) => {
            let digits = uint_to_string(*d as u128);
            push_piece(out, Piece::Text(join3("variant(", digits.as_str(), ",")));
            match show(x, out) {
                Ok(()) => {},
                Err(e) => return Err(e),
            }
            push_literal(out, ")");
            assert(piece_views(out@) =~= start + shown(v@)->Ok_0);
            Ok(())
        },
        Value::Dynamic(name, x) => {
            push_piece(out, Piece::Text(join3("dynamic('", name.as_str(), "',")));
            match show(x, out) {
                Ok(()) => {},
                Err(e) => return Err(e),
            }
            push_literal(out, ")");
            assert(piece_views(out@) =~= start + shown(v@)->Ok_0);
            Ok(())
        },
        _ => show_leaf(v, out),
    }
}

fn show_all(s: &Vec<Value>, out: &mut Vec<Piece>) -> (r: Result<()>)
    ensures
        showed(old(out)@, final(out)@, r, all_shown(value_views(s@))),
    decreases values_size(value_views(s@)), 1nat,
{
    let ghost all = value_views(s@);
    let ghost start = piece_views(out@);
    let mut i: usize = 0;
    proof {
        assert(all.subrange(0, all.len() as int) =~= all);
    }
    while i < s.len()
        invariant
            i <= s.len(),
            all == value_views(s@),
            start == piece_views(old(out)@),
            match all_shown(all.subrange(i as int, all.len() as int)) {
                Err(e) => all_shown(all) == Err::<Seq<PieceView>, Error>(e),
                Ok(rest) => all_shown(all) is Ok && start + all_shown(all)->Ok_0 == piece_views(
                    out@,
                ) + rest,
            },
        decreases s.len() - i,
    {
        let ghost before = piece_views(out@);
        let ghost here = all.subrange(i as int, all.len() as int);
        proof {
            crate::typed_node::lemma_values_size(all, i as int);
            assert(here[0] == s@[i as int]@);
            assert(here.subrange(1, here.len() as int) =~= all.subrange(i + 1, all.len() as int));
        }
        match show(&s[i], out) {
            Ok(()) => {},
            Err(e) => return Err(e),
        }
        let ghost mid = piece_views(out@);
        if i + 1 < s.len() {
            push_literal(out, ",");
        }
        proof {
            let p = shown(s@[i as int]@)->Ok_0;
            if let Ok(rest) = all_shown(all.subrange(i + 1, all.len() as int)) {
                if i + 1 < s.len() {
                    assert(before + (p + seq![PieceView::Text(","@)] + rest) =~= piece_views(out@)
                        + rest);
                } else {
                    assert(before + p =~= piece_views(out@) + rest);
                }
            }
        }
        i += 1;
    }
    assert(piece_views(out@) + Seq::<PieceView>::empty() =~= piece_views(out@));
    Ok(())
}

fn show_entries(k: &Vec<Value>, x: &Vec<Value>, out: &mut Vec<Piece>) -> (r: Result<()>)
    requires
        k@.len() == x@.len(),
    ensures
        showed(old(out)@, final(out)@, r, entries_shown(value_views(k@), value_views(x@))),
    decreases values_size(value_views(k@)) + values_size(value_views(x@)), 1nat,
{
    let ghost kv = value_views(k@);
    let ghost xv = value_views(x@);
    let ghost start = piece_views(out@);
    let mut i: usize = 0;
    proof {
        assert(kv.subrange(0, kv.len() as int) =~= kv);
        assert(xv.subrange(0, xv.len() as int) =~= xv);
    }
    while i < k.len()
        invariant
            i <= k.len(),
            k@.len() == x@.len(),
            kv == value_views(k@),
            xv == value_views(x@),
            start == piece_views(old(out)@),
            match entries_shown(
                kv.subrange(i as int, kv.len() as int),
                xv.subrange(i as int, xv.len() as int),
            ) {
                Err(e) => entries_shown(kv, xv) == Err::<Seq<PieceView>, Error>(e),
                Ok(rest) => entries_shown(kv, xv) is Ok && start + entries_shown(kv, xv)->Ok_0
                    == piece_views(out@) + rest,
            },
        decreases k.len() - i,
    {
        let ghost before = piece_views(out@);
        let ghost here = kv.subrange(i as int, kv.len() as int);
        let ghost there = xv.subrange(i as int, xv.len() as int);
        proof {
            crate::typed_node::lemma_values_size(kv, i as int);
            crate::typed_node::lemma_values_size(xv, i as int);
            assert(here[0] == k@[i as int]@);
            assert(there[0] == x@[i as int]@);
            assert(here.subrange(1, here.len() as int) =~= kv.subrange(i + 1, kv.len() as int));
            assert(there.subrange(1, there.len() as int) =~= xv.subrange(i + 1, xv.len() as int));
        }
        match show(&k[i], out) {
            Ok(()) => {},
            Err(e) => return Err(e),
        }
        push_literal(out, ":");
        match show(&x[i], out) {
            Ok(()) => {},
            Err(e) => return Err(e),
        }
        if i + 1 < k.len() {
            push_literal(out, ",");
        }
        proof {
            let p = shown(k@[i as int]@)->Ok_0;
            let q = shown(x@[i as int]@)->Ok_0;
            let pair = p + seq![PieceView::Text(":"@)] + q;
            if let Ok(rest) = entries_shown(
                kv.subrange(i + 1, kv.len() as int),
                xv.subrange(i + 1, xv.len() as int),
            ) {
                if i + 1 < k.len() {
                    assert(before + (pair + seq![PieceView::Text(","@)] + rest) =~= piece_views(
                        out@,
                    ) + rest);
                } else {
                    assert(before + pair =~= piece_views(out@) + rest);
                }
            }
        }
        i += 1;
    }
    assert(piece_views(out@) + Seq::<PieceView>::empty() =~= piece_views(out@));
    Ok(())
}

} // verus!
