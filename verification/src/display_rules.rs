//! How values are shown, and which of them are equal.
use vstd::prelude::*;
use vstd::utf8::encode_utf8;

use crate::big_int::be_value;
use crate::error::Error;
use crate::json_render::{document_compared, rendered};
use crate::json_value::{JsonNumber, JsonView};
use crate::text::{dec_text, int_text};
use crate::value_display::{
    all_shown, comma_separated, entries_shown, point_pieces, polygon_pieces, ring_pieces, shown,
    PieceView,
};
use crate::value_text::{
    date32_text, date_text, datetime64_rfc3339, datetime_rfc3339, escaped_bytes, group_at,
    groups_text, ipv4_text, ipv6_text, is_mapped, longest_run, pointed, short_hex, uuid_text,
    zero_run,
};
use crate::values::{all_compared, compared, ValueView};

verus! {

// ---------------------------------------------------------------------------
// Values
// ---------------------------------------------------------------------------

/// One text.
pub open spec fn one_text(s: Seq<char>) -> core::result::Result<Seq<PieceView>, Error> {
    Ok(seq![PieceView::Text(s)])
}

/// Numbers are shown by their digits, wide ones with their types; strings, identifiers and
/// addresses between quotes; null by its name.
pub proof fn law_scalars_are_shown(v: ValueView)
    ensures
        v is Null ==> shown(v) == one_text("NULL"@),
        v matches ValueView::Bool(b) ==> shown(v) == one_text(if b { "true"@ } else { "false"@ }),
        v matches ValueView::Int8(x) ==> shown(v) == one_text(int_text(x as int)),
        v matches ValueView::Int16(x) ==> shown(v) == one_text(int_text(x as int)),
        v matches ValueView::Int32(x) ==> shown(v) == one_text(int_text(x as int)),
        v matches ValueView::Int64(x) ==> shown(v) == one_text(int_text(x as int)),
        v matches ValueView::Int128(x) ==> shown(v) == one_text(int_text(x as int) + "::Int128"@),
        v matches ValueView::UInt8(x) ==> shown(v) == one_text(dec_text(x as nat)),
        v matches ValueView::UInt16(x) ==> shown(v) == one_text(dec_text(x as nat)),
        v matches ValueView::UInt32(x) ==> shown(v) == one_text(dec_text(x as nat)),
        v matches ValueView::UInt64(x) ==> shown(v) == one_text(dec_text(x as nat)),
        v matches ValueView::UInt128(x) ==> shown(v) == one_text(
            dec_text(x as nat) + "::UInt128"@,
        ),
        v matches ValueView::UInt256(b) ==> shown(v) == one_text(
            dec_text(be_value(b)) + "::UInt256"@,
        ),
        v matches ValueView::Float64(x) ==> shown(v) == Ok::<_, Error>(
            seq![PieceView::Float64(x)],
        ),
        v matches ValueView::Float32(x) ==> shown(v) == Ok::<_, Error>(
            seq![PieceView::Float32(x)],
        ),
        v matches ValueView::String(b) ==> shown(v) == one_text("'"@ + escaped_bytes(b) + "'"@),
        v matches ValueView::Uuid(x) ==> shown(v) == one_text("'"@ + uuid_text(x as nat) + "'"@),
        v matches ValueView::Ipv4(x) ==> shown(v) == one_text("'"@ + ipv4_text(x) + "'"@),
        v matches ValueView::Ipv6(b) ==> shown(v) == one_text("'"@ + ipv6_text(b) + "'"@),
        v matches ValueView::Enum8(name, _) ==> shown(v) == one_text(name),
        v matches ValueView::Enum16(name, _) ==> shown(v) == one_text(name),
        v matches ValueView::Decimal32(s, x) ==> shown(v) == one_text(
            pointed(int_text(x as int), s as nat),
        ),
        v matches ValueView::Decimal64(s, x) ==> shown(v) == one_text(
            pointed(int_text(x as int), s as nat),
        ),
        v matches ValueView::Decimal128(s, x) ==> shown(v) == one_text(
            pointed(int_text(x as int), s as nat),
        ),
        v matches ValueView::Date(x) ==> (match date_text(x) {
            Some(s) => shown(v) == one_text("'makeDate("@ + s + ")'"@),
            None => shown(v) is Err,
        }),
        v matches ValueView::Date32(x) ==> (match date32_text(x) {
            Some(s) => shown(v) == one_text("'makeDate("@ + s + ")'"@),
            None => shown(v) is Err,
        }),
        v matches ValueView::DateTime(tz, x) ==> (match datetime_rfc3339(tz, x) {
            Some(s) => shown(v) == one_text(
                "parseDateTimeBestEffort('"@ + escaped_bytes(encode_utf8(s)) + "')"@,
            ),
            None => shown(v) is Err,
        }),
        v matches ValueView::DateTime64(tz, x, p) ==> (match datetime64_rfc3339(tz, x, p as nat) {
            Some(s) => shown(v) == one_text(
                "parseDateTime64BestEffort('"@ + escaped_bytes(encode_utf8(s)) + "', "@ + dec_text(
                    p as nat,
                ) + ")"@,
            ),
            None => shown(v) is Err,
        }),
{
}

/// A point stands before as many of the digits as the scale tells, where there are so many.
pub proof fn law_pointed(a: Seq<char>, b: Seq<char>)
    ensures
        pointed(a + b, b.len()) == a + seq!['.'] + b,
{
    let s = a + b;
    assert(s.take(s.len() - b.len()) =~= a);
    assert(s.skip(s.len() - b.len()) =~= b);
}

/// The elements of arrays stand between brackets, those of tuples between parentheses, and the
/// entries of maps between braces, with commas between them and colons behind keys.
pub proof fn law_several_are_shown(
    a: ValueView,
    b: ValueView,
    p: Seq<PieceView>,
    q: Seq<PieceView>,
    d: u8,
)
    requires
        shown(a) == Ok::<_, Error>(p),
        shown(b) == Ok::<_, Error>(q),
    ensures
        shown(ValueView::Array(seq![a, b])) == Ok::<_, Error>(
            seq![PieceView::Text("["@)] + (p + seq![PieceView::Text(","@)] + q) + seq![
                PieceView::Text("]"@),
            ],
        ),
        shown(ValueView::Tuple(seq![a, b])) == Ok::<_, Error>(
            seq![PieceView::Text("("@)] + (p + seq![PieceView::Text(","@)] + q) + seq![
                PieceView::Text(")"@),
            ],
        ),
        shown(ValueView::MapOf(seq![a], seq![b])) == Ok::<_, Error>(
            seq![PieceView::Text("{"@)] + (p + seq![PieceView::Text(":"@)] + q) + seq![
                PieceView::Text("}"@),
            ],
        ),
        shown(ValueView::Variant(d, Box::new(a))) == Ok::<_, Error>(
            seq![PieceView::Text("variant("@ + dec_text(d as nat) + ","@)] + p + seq![
                PieceView::Text(")"@),
            ],
        ),
{
    let s = seq![a, b];
    let t = s.subrange(1, 2);
    assert(t =~= seq![b]);
    let none = t.subrange(1, 1);
    assert(none =~= Seq::<ValueView>::empty());
    assert(all_shown(none) == Ok::<_, Error>(Seq::<PieceView>::empty()));
    assert(all_shown(t) == Ok::<_, Error>(q));
    assert(all_shown(s) == Ok::<_, Error>(p + seq![PieceView::Text(","@)] + q));
    let k0 = seq![a].subrange(1, 1);
    let x0 = seq![b].subrange(1, 1);
    assert(k0 =~= Seq::<ValueView>::empty());
    assert(x0 =~= Seq::<ValueView>::empty());
    assert(entries_shown(k0, x0) == Ok::<_, Error>(Seq::<PieceView>::empty()));
    assert(entries_shown(seq![a], seq![b]) == Ok::<_, Error>(
        p + seq![PieceView::Text(":"@)] + q,
    ));
}

/// A point shows its two coordinates, a ring its points and a polygon its rings, between brackets
/// behind its name, with a comma and a blank between them.
pub proof fn law_points_are_shown(x: u64, y: u64, z: u64, w: u64, r: Seq<(u64, u64)>)
    ensures
        shown(ValueView::Point(x, y)) == Ok::<_, Error>(
            seq![
                PieceView::Text("Point(["@),
                PieceView::Coordinate(x),
                PieceView::Text(", "@),
                PieceView::Coordinate(y),
                PieceView::Text("])"@),
            ],
        ),
        ({
            let a = shown(ValueView::Point(x, y))->Ok_0;
            let b = shown(ValueView::Point(z, w))->Ok_0;
            shown(ValueView::Ring(seq![(x, y), (z, w)])) == Ok::<_, Error>(
                seq![PieceView::Text("Ring(["@)] + (a + seq![PieceView::Text(", "@)] + b) + seq![
                    PieceView::Text("])"@),
                ],
            )
        }),
        shown(ValueView::Polygon(seq![r])) == Ok::<_, Error>(
            seq![PieceView::Text("Polygon(["@)] + shown(ValueView::Ring(r))->Ok_0 + seq![
                PieceView::Text("])"@),
            ],
        ),
        shown(ValueView::MultiPolygon(seq![seq![r]])) == Ok::<_, Error>(
            seq![PieceView::Text("MultiPolygon(["@)] + shown(ValueView::Polygon(seq![r]))->Ok_0
                + seq![PieceView::Text("])"@)],
        ),
{
    let ring = seq![(x, y), (z, w)];
    let a = point_pieces(x, y);
    let b = point_pieces(z, w);
    let parts = Seq::new(ring.len(), |i: int| point_pieces(ring[i].0, ring[i].1));
    assert(parts =~= seq![a, b]);
    assert(parts.drop_last() =~= seq![a]);
    assert(comma_separated(seq![a]) == a);
    let rings = seq![r];
    let one = Seq::new(rings.len(), |i: int| ring_pieces(rings[i]));
    assert(one =~= seq![ring_pieces(r)]);
    let polygons = seq![rings];
    let only = Seq::new(polygons.len(), |i: int| polygon_pieces(polygons[i]));
    assert(only =~= seq![polygon_pieces(rings)]);
}

// ---------------------------------------------------------------------------
// Addresses
// ---------------------------------------------------------------------------

proof fn lemma_no_run(b: Seq<u8>, n: int)
    requires
        0 <= n <= 8,
        forall|i: int| 0 <= i < 8 ==> #[trigger] group_at(b, i) != 0,
    ensures
        longest_run(b, n) == (0int, 0nat),
    decreases n,
{
    if n > 0 {
        lemma_no_run(b, n - 1);
        assert(group_at(b, n - 1) != 0);
        assert(zero_run(b, n - 1) == 0);
    }
}

/// An address of sixteen bytes without a group that is zero reads as its eight groups in base
/// sixteen with colons between them.
pub proof fn law_texts_of_long_addresses(b: Seq<u8>)
    requires
        b.len() == 16,
        forall|i: int| 0 <= i < 8 ==> #[trigger] group_at(b, i) != 0,
    ensures
        ipv6_text(b) == short_hex(group_at(b, 0)) + seq![':'] + short_hex(group_at(b, 1)) + seq![
            ':',
        ] + short_hex(group_at(b, 2)) + seq![':'] + short_hex(group_at(b, 3)) + seq![':']
            + short_hex(group_at(b, 4)) + seq![':'] + short_hex(group_at(b, 5)) + seq![':']
            + short_hex(group_at(b, 6)) + seq![':'] + short_hex(group_at(b, 7)),
        forall|i: int|
            0 <= i < 8 ==> #[trigger] group_at(b, i) == 256 * b[2 * i] as nat + b[2 * i + 1] as nat,
{
    lemma_no_run(b, 8);
    reveal_with_fuel(groups_text, 9);
    assert(group_at(b, 0) != 0);
    assert(!is_mapped(b)) by {
        if is_mapped(b) {
            assert(b[0] == 0 && b[1] == 0);
        }
    }
}

/// An address of four bytes within one of sixteen reads as such.
pub proof fn law_texts_of_mapped_addresses(a: u8, b: u8, c: u8, d: u8)
    ensures
        ipv6_text(
            seq![0u8, 0, 0, 0, 0, 0, 0, 0, 0, 0, 0xFF, 0xFF, a, b, c, d],
        ) == "::ffff:"@ + dec_text(a as nat) + seq!['.'] + dec_text(b as nat) + seq!['.']
            + dec_text(c as nat) + seq!['.'] + dec_text(d as nat),
{
    let s = seq![0u8, 0, 0, 0, 0, 0, 0, 0, 0, 0, 0xFF, 0xFF, a, b, c, d];
    assert forall|i: int| 0 <= i < 10 implies #[trigger] s[i] == 0 by {}
    assert(is_mapped(s));
}

/// Whether groups of an address are all zero.
pub open spec fn zero_groups(b: Seq<u8>, i: int, k: int) -> bool {
    forall|j: int| i <= j < i + k ==> #[trigger] group_at(b, j) == 0
}

proof fn lemma_zero_run(b: Seq<u8>, i: int)
    requires
        0 <= i <= 8,
    ensures
        i + zero_run(b, i) <= 8,
        zero_groups(b, i, zero_run(b, i) as int),
        i + zero_run(b, i) < 8 ==> group_at(b, i + zero_run(b, i)) != 0,
    decreases 8 - i,
{
    if i < 8 && group_at(b, i) == 0 {
        lemma_zero_run(b, i + 1);
        let k = zero_run(b, i) as int;
        assert forall|j: int| i <= j < i + k implies #[trigger] group_at(b, j) == 0 by {
            if j > i {
                assert(zero_groups(b, i + 1, k - 1));
            }
        }
    }
}

proof fn lemma_longest(b: Seq<u8>, n: int)
    requires
        0 <= n <= 8,
    ensures
        forall|i: int| 0 <= i < n ==> #[trigger] zero_run(b, i) <= longest_run(b, n).1,
        longest_run(b, n).1 > 0 ==> 0 <= longest_run(b, n).0 < n && zero_run(
            b,
            longest_run(b, n).0,
        ) == longest_run(b, n).1,
        forall|i: int|
            0 <= i < longest_run(b, n).0 && i < n ==> #[trigger] zero_run(b, i) < longest_run(b, n).1,
    decreases n,
{
    if n > 0 {
        lemma_longest(b, n - 1);
    }
}

/// The longest run of groups that are zero stands as two colons, the first of those that are as
/// long; the groups before it and behind it stand with a colon between them.
pub proof fn law_runs_of_zeros_in_addresses(b: Seq<u8>, start: int, len: int)
    requires
        b.len() == 16,
        !is_mapped(b),
        0 <= start,
        1 < len,
        start + len <= 8,
        zero_groups(b, start, len),
        forall|i: int, k: int|
            0 <= i && 0 <= k && i + k <= 8 && #[trigger] zero_groups(b, i, k) ==> k <= len && (i
                < start ==> k < len),
    ensures
        ipv6_text(b) == groups_text(b, 0, start) + seq![':', ':'] + groups_text(b, start + len, 8),
{
    lemma_longest(b, 8);
    let (s, n) = longest_run(b, 8);
    lemma_zero_run(b, start);
    assert(zero_groups(b, start, zero_run(b, start) as int));
    if zero_run(b, start) < len {
        assert(group_at(b, start + zero_run(b, start)) == 0);
    }
    assert(zero_run(b, start) == len);
    lemma_zero_run(b, s);
    assert(zero_groups(b, s, zero_run(b, s) as int));
    assert(n == len);
}

/// Groups of an address stand with a colon between them, in lower case without leading zeros.
pub proof fn law_groups_of_addresses(b: Seq<u8>, from: int, to: int)
    requires
        from < to,
    ensures
        groups_text(b, from, from) == Seq::<char>::empty(),
        groups_text(b, from, from + 1) == short_hex(
            (256 * b[2 * from] as nat + b[2 * from + 1] as nat) as nat,
        ),
        groups_text(b, from, to + 1) == groups_text(b, from, to) + seq![':'] + short_hex(
            (256 * b[2 * to] as nat + b[2 * to + 1] as nat) as nat,
        ),
{
}

// ---------------------------------------------------------------------------
// Equality
// ---------------------------------------------------------------------------

/// Scalars are equal where they are the same.
pub proof fn law_equal_scalars(v: ValueView)
    ensures
        !(v is Object) && !(v is Json) && !(v is Array) && !(v is Tuple) && !(v is MapOf) && !(
        v is Variant) && !(v is Dynamic) ==> compared(v) == v,
{
}

/// Arrays and tuples are equal where they have as many elements, and each is equal.
pub proof fn law_equal_arrays(a: Seq<ValueView>, b: Seq<ValueView>)
    ensures
        compared(ValueView::Array(a)) == compared(ValueView::Array(b)) <==> a.len() == b.len()
            && forall|i: int| 0 <= i < a.len() ==> compared(#[trigger] a[i]) == compared(b[i]),
        compared(ValueView::Tuple(a)) == compared(ValueView::Tuple(b)) <==> a.len() == b.len()
            && forall|i: int| 0 <= i < a.len() ==> compared(#[trigger] a[i]) == compared(b[i]),
{
    lemma_compared(a);
    lemma_compared(b);
    let x = all_compared(a);
    let y = all_compared(b);
    if a.len() == b.len() && forall|i: int|
        0 <= i < a.len() ==> compared(#[trigger] a[i]) == compared(b[i]) {
        assert forall|i: int| 0 <= i < x.len() implies x[i] == y[i] by {
            assert(compared(a[i]) == compared(b[i]));
        }
        assert(x =~= y);
    }
    if x == y {
        assert forall|i: int| 0 <= i < a.len() implies compared(#[trigger] a[i]) == compared(
            b[i],
        ) by {
            assert(x[i] == y[i]);
        }
    }
}

/// Maps are equal where their keys are equal in their order, and their values likewise.
pub proof fn law_equal_maps(
    a: Seq<ValueView>,
    b: Seq<ValueView>,
    x: Seq<ValueView>,
    y: Seq<ValueView>,
)
    ensures
        compared(ValueView::MapOf(a, x)) == compared(ValueView::MapOf(b, y)) <==> compared(
            ValueView::Array(a),
        ) == compared(ValueView::Array(b)) && compared(ValueView::Array(x)) == compared(
            ValueView::Array(y),
        ),
{
}

/// Documents that are held as texts are all equal, and equal to no other value.
pub proof fn law_equal_texts_of_documents(a: Seq<u8>, b: Seq<u8>, v: ValueView)
    ensures
        compared(ValueView::Object(a)) == compared(ValueView::Object(b)),
        compared(v) == compared(ValueView::Object(a)) ==> v is Object,
{
}

proof fn lemma_compared(s: Seq<ValueView>)
    ensures
        all_compared(s).len() == s.len(),
        forall|i: int| 0 <= i < s.len() ==> #[trigger] all_compared(s)[i] == compared(s[i]),
    decreases s.len(),
{
    if s.len() > 0 {
        lemma_compared(s.subrange(0, s.len() - 1));
    }
}

/// Variants are equal where their discriminators and their values are.
pub proof fn law_equal_variants(c: u8, d: u8, x: ValueView, y: ValueView)
    ensures
        compared(ValueView::Variant(c, Box::new(x))) == compared(ValueView::Variant(d, Box::new(y)))
            <==> c == d && compared(x) == compared(y),
{
}

/// Documents that are scalars are equal where they are the same; zero is equal to the zero with
/// a minus.
pub proof fn law_equal_documents(s: Seq<char>, t: Seq<char>, x: u64, y: u64, a: bool, b: bool)
    ensures
        document_compared(JsonView::String(s)) == document_compared(JsonView::String(t)) <==> s
            == t,
        document_compared(JsonView::Bool(a)) == document_compared(JsonView::Bool(b)) <==> a == b,
        document_compared(JsonView::Number(JsonNumber::PosInt(x))) == document_compared(
            JsonView::Number(JsonNumber::PosInt(y)),
        ) <==> x == y,
        document_compared(JsonView::Number(JsonNumber::Float(0))) == document_compared(
            JsonView::Number(JsonNumber::Float(0x8000_0000_0000_0000)),
        ),
        document_compared(JsonView::Null) != document_compared(JsonView::Bool(a)),
        document_compared(JsonView::Null) != document_compared(JsonView::String(s)),
{
}

/// A document that is written keeps its strings, its truth values and its numbers; what is no
/// finite number becomes null.
pub proof fn law_rendered_scalars(s: Seq<char>, x: u64, b: bool)
    ensures
        rendered(JsonView::Null) is Null,
        rendered(JsonView::Bool(b)) == JsonView::Bool(b),
        rendered(JsonView::String(s)) == JsonView::String(s),
        rendered(JsonView::Number(JsonNumber::PosInt(x))) == JsonView::Number(
            JsonNumber::PosInt(x),
        ),
        rendered(JsonView::Number(JsonNumber::Float(x))) == (if x as nat / 0x10_0000_0000_0000
            % 0x800 == 0x7FF {
            JsonView::Null
        } else {
            JsonView::Number(JsonNumber::Float(x))
        }),
{
}

} // verus!
