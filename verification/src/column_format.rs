//! How columns stand in bytes.
use vstd::prelude::*;

use crate::cells::{cell_bytes, cells_bytes, parsed_cell, sized_bytes};
use crate::column_read::{lemma_ascending, parsed_column, parsed_offsets, span, States};
use crate::columns::{column_bytes, joined_rows, offset_bytes, row_items, rows_of};
use crate::error::Error;
use crate::prefixes::{parsed_prefix, prefix_bytes};
use crate::types::TypeView;
use crate::values::ValueView;
use crate::wire::{
    int_bytes, law_uint_reads_back, le_bytes, lemma_pow256, parsed_uint, string_bytes,
};
use crate::wire_format::law_bytes_of_small_numbers;

verus! {

// ---------------------------------------------------------------------------
// Values that may be null
// ---------------------------------------------------------------------------

/// A column of values that may be null begins with one byte for each row: one for null, and
/// zero for a value. The column of the values stands behind them.
pub proof fn law_nulls_are_written_as_ones(inner: TypeView, vs: Seq<ValueView>)
    ensures
        ({
            let t = TypeView::Nullable(Box::new(inner));
            &&& column_bytes(t, vs) is Ok <==> column_bytes(inner, vs) is Ok
            &&& column_bytes(t, vs) matches Ok(b) ==> {
                &&& b.len() >= vs.len()
                &&& forall|i: int|
                    0 <= i < vs.len() ==> {
                        &&& vs[i] is Null ==> #[trigger] b[i] == 1
                        &&& !(vs[i] is Null) ==> b[i] == 0
                    }
                &&& b.skip(vs.len() as int) == column_bytes(inner, vs)->Ok_0
            }
        }),
{
    let t = TypeView::Nullable(Box::new(inner));
    if column_bytes(inner, vs) is Ok {
        let b = column_bytes(t, vs)->Ok_0;
        assert(b.skip(vs.len() as int) =~= column_bytes(inner, vs)->Ok_0);
    }
}

/// A row of such a column is null where its byte is not zero, and the value that the column
/// behind the bytes has in that row where it is.
pub proof fn law_bytes_that_are_not_zero_are_nulls(
    s: Seq<u8>,
    inner: TypeView,
    n: nat,
    path: Seq<u16>,
    states: States,
)
    ensures
        ({
            let t = TypeView::Nullable(Box::new(inner));
            let whole = parsed_column(s, t, n, Set::empty(), path, states);
            let values = parsed_column(
                s.skip(n as int),
                inner,
                n,
                Set::empty(),
                path.push(0),
                states,
            );
            &&& whole is Ok <==> s.len() >= n && values is Ok
            &&& whole matches Ok(((vs, st), end)) ==> {
                let (inner_rows, inner_end) = values->Ok_0;
                let (xs, inner_states) = inner_rows;
                &&& end == inner_end
                &&& st == inner_states
                &&& vs.len() == xs.len()
                &&& forall|i: int|
                    0 <= i < vs.len() && i < n ==> {
                        &&& s[i] != 0 ==> #[trigger] vs[i] is Null
                        &&& s[i] == 0 ==> vs[i] == xs[i]
                    }
            }
        }),
{
}

// ---------------------------------------------------------------------------
// Arrays and maps
// ---------------------------------------------------------------------------

/// How many elements the first `n` arrays have together.
pub open spec fn elements_before(vs: Seq<ValueView>, n: int) -> nat
    decreases n,
{
    if n <= 0 || n > vs.len() {
        0
    } else {
        elements_before(vs, n - 1) + match vs[n - 1] {
            ValueView::Array(s) => s.len(),
            ValueView::MapOf(k, _) => k.len(),
            _ => 0,
        }
    }
}

/// The elements of arrays, one array behind the other.
pub open spec fn elements_of(vs: Seq<ValueView>) -> Seq<ValueView>
    decreases vs.len(),
{
    if vs.len() == 0 {
        Seq::empty()
    } else {
        elements_of(vs.drop_last()) + vs.last()->Array_0
    }
}

proof fn lemma_elements_head(vs: Seq<ValueView>, n: int)
    requires
        0 <= n < vs.len(),
    ensures
        elements_before(vs.drop_last(), n) == elements_before(vs, n),
    decreases n,
{
    if n > 0 {
        lemma_elements_head(vs, n - 1);
    }
}

pub(crate) proof fn lemma_arrays(t: TypeView, vs: Seq<ValueView>)
    requires
        t is Array || t is MapOf,
        rows_of(t, vs) is Ok,
    ensures
        joined_rows(rows_of(t, vs)->Ok_0).len() == elements_before(vs, vs.len() as int),
        t is Array ==> joined_rows(rows_of(t, vs)->Ok_0) == elements_of(vs),
        offset_bytes(rows_of(t, vs)->Ok_0).len() == 8 * vs.len(),
        forall|i: int|
            0 <= i < vs.len() ==> offset_bytes(rows_of(t, vs)->Ok_0).subrange(8 * i, 8 * i + 8)
                == #[trigger] le_bytes(elements_before(vs, i + 1), 8),
    decreases vs.len(),
{
    if vs.len() > 0 {
        let head = vs.drop_last();
        lemma_arrays(t, head);
        let rows = rows_of(t, vs)->Ok_0;
        let before = rows_of(t, head)->Ok_0;
        assert(rows.drop_last() =~= before);
        let a = offset_bytes(before);
        let last = le_bytes(joined_rows(rows).len(), 8);
        lemma_elements_head(vs, head.len() as int);
        assert(joined_rows(rows) == joined_rows(before) + rows.last());
        assert(joined_rows(rows).len() == elements_before(vs, vs.len() as int));
        assert(last.len() == 8) by {
            reveal_with_fuel(le_bytes, 9);
        }
        let all = offset_bytes(rows);
        assert(all == a + last);
        assert forall|i: int| 0 <= i < vs.len() implies all.subrange(8 * i, 8 * i + 8)
            == #[trigger] le_bytes(elements_before(vs, i + 1), 8) by {
            if i < head.len() {
                lemma_elements_head(vs, i + 1);
                assert(all.subrange(8 * i, 8 * i + 8) =~= a.subrange(8 * i, 8 * i + 8));
                assert(a.subrange(8 * i, 8 * i + 8) == le_bytes(elements_before(head, i + 1), 8));
            } else {
                assert(all.subrange(8 * i, 8 * i + 8) =~= last);
            }
        }
    }
}

/// A column of arrays begins with eight bytes for each row: how many elements there are up to
/// its end. The elements of all arrays stand behind them as one column.
pub proof fn law_ends_stand_before_elements(inner: TypeView, vs: Seq<ValueView>, b: Seq<u8>)
    requires
        !(inner is Variant),
        column_bytes(TypeView::Array(Box::new(inner)), vs) == Ok::<_, Error>(b),
    ensures
        b.len() >= 8 * vs.len(),
        forall|i: int|
            0 <= i < vs.len() ==> b.subrange(8 * i, 8 * i + 8) == #[trigger] le_bytes(
                elements_before(vs, i + 1),
                8,
            ),
        column_bytes(inner, elements_of(vs)) == Ok::<_, Error>(b.skip(8 * vs.len() as int)),
{
    let t = TypeView::Array(Box::new(inner));
    lemma_arrays(t, vs);
    let a = offset_bytes(rows_of(t, vs)->Ok_0);
    let c = column_bytes(inner, elements_of(vs))->Ok_0;
    assert(b == a + c);
    assert(b.skip(8 * vs.len() as int) =~= c);
    assert forall|i: int| 0 <= i < vs.len() implies b.subrange(8 * i, 8 * i + 8)
        == #[trigger] le_bytes(elements_before(vs, i + 1), 8) by {
        assert(b.subrange(8 * i, 8 * i + 8) =~= a.subrange(8 * i, 8 * i + 8));
    }
}

proof fn lemma_offsets_read(s: Seq<u8>, n: nat)
    ensures
        parsed_offsets(s, n) is Ok <==> s.len() >= 8 * n,
        parsed_offsets(s, n) matches Ok((o, rest)) ==> {
            &&& o.len() == n
            &&& rest == s.skip(8 * n as int)
            &&& forall|i: int|
                0 <= i < n ==> parsed_uint(s.skip(8 * i), 8) is Ok && parsed_uint(
                    s.skip(8 * i),
                    8,
                )->Ok_0.0 == #[trigger] o[i]
        },
    decreases n,
{
    if n > 0 {
        if let Ok((x, next)) = parsed_uint(s, 8) {
            lemma_offsets_read(next, (n - 1) as nat);
            crate::wire::lemma_le_value(s.take(8));
            lemma_pow256();
            if let Ok((tail, rest)) = parsed_offsets(next, (n - 1) as nat) {
                let o = parsed_offsets(s, n)->Ok_0.0;
                assert(next.skip(8 * (n - 1)) =~= s.skip(8 * n as int));
                assert(s.skip(0) =~= s);
                assert forall|i: int| 0 <= i < n implies parsed_uint(s.skip(8 * i), 8) is Ok
                    && parsed_uint(s.skip(8 * i), 8)->Ok_0.0 == #[trigger] o[i] by {
                    if i > 0 {
                        assert(o[i] == tail[i - 1]);
                        assert(next.skip(8 * (i - 1)) =~= s.skip(8 * i));
                    }
                }
            }
        }
    } else {
        assert(s.skip(0) =~= s);
    }
}

/// An array is read as the elements from the end of the array before it to its own end, which
/// stands in the eight bytes of its row.
pub proof fn law_arrays_are_cut_at_their_ends(
    s: Seq<u8>,
    inner: TypeView,
    n: nat,
    path: Seq<u16>,
    states: States,
)
    requires
        n > 0,
        parsed_column(
            s,
            TypeView::Array(Box::new(inner)),
            n,
            Set::empty(),
            path,
            states,
        ) is Ok,
    ensures
        ({
            let t = TypeView::Array(Box::new(inner));
            let whole = parsed_column(s, t, n, Set::empty(), path, states)->Ok_0;
            let ((vs, _), end) = whole;
            let total = parsed_uint(s.skip(8 * (n - 1)), 8)->Ok_0.0;
            let elements = parsed_column(
                s.skip(8 * n as int),
                inner,
                (total as usize) as nat,
                Set::empty(),
                path.push(0),
                states,
            );
            &&& s.len() >= 8 * n
            &&& elements is Ok
            &&& ({
                let ((items, _), inner_end) = elements->Ok_0;
                &&& end == inner_end
                &&& vs.len() == n
                &&& forall|i: int|
                    0 <= i < n ==> {
                        let from = if i == 0 {
                            0
                        } else {
                            parsed_uint(s.skip(8 * (i - 1)), 8)->Ok_0.0
                        };
                        let to = parsed_uint(s.skip(8 * i), 8)->Ok_0.0;
                        &&& from <= to <= items.len()
                        &&& #[trigger] vs[i] == ValueView::Array(
                            items.subrange(from as int, to as int),
                        )
                    }
            })
        }),
{
    let t = TypeView::Array(Box::new(inner));
    lemma_offsets_read(s, n);
    let (o, rest) = parsed_offsets(s, n)->Ok_0;
    assert(o.last() == o[n - 1]);
    let ((vs, _), _) = parsed_column(s, t, n, Set::empty(), path, states)->Ok_0;
    let ((items, _), _) = parsed_column(
        rest,
        inner,
        (o.last() as usize) as nat,
        Set::empty(),
        path.push(0),
        states,
    )->Ok_0;
    lemma_ascending(o, n as int);
    assert forall|i: int| 0 <= i < n implies {
        let from = if i == 0 {
            0
        } else {
            parsed_uint(s.skip(8 * (i - 1)), 8)->Ok_0.0
        };
        let to = parsed_uint(s.skip(8 * i), 8)->Ok_0.0;
        &&& from <= to <= items.len()
        &&& #[trigger] vs[i] == ValueView::Array(items.subrange(from as int, to as int))
    } by {
        lemma_ascending(o, i + 1);
        assert(o[i] <= o[n - 1]);
        assert(parsed_uint(s.skip(8 * i), 8)->Ok_0.0 == o[i]);
        if i > 0 {
            lemma_ascending(o, i);
            assert(o[i - 1] <= o[i]);
            assert(parsed_uint(s.skip(8 * (i - 1)), 8)->Ok_0.0 == o[i - 1]);
        }
        assert(vs[i] == ValueView::Array(span(o, items, i)));
    }
}

/// The keys of maps, one map behind the other.
pub open spec fn keys_of(vs: Seq<ValueView>) -> Seq<ValueView>
    decreases vs.len(),
{
    if vs.len() == 0 {
        Seq::empty()
    } else {
        keys_of(vs.drop_last()) + vs.last()->MapOf_0
    }
}

/// The values of maps, one map behind the other.
pub open spec fn values_under_keys(vs: Seq<ValueView>) -> Seq<ValueView>
    decreases vs.len(),
{
    if vs.len() == 0 {
        Seq::empty()
    } else {
        values_under_keys(vs.drop_last()) + vs.last()->MapOf_1
    }
}

proof fn lemma_maps(t: TypeView, vs: Seq<ValueView>)
    requires
        t is MapOf,
        rows_of(t, vs) is Ok,
    ensures
        joined_rows(rows_of(t, vs)->Ok_0) == keys_of(vs),
        joined_rows(crate::columns::map_values(vs)) == values_under_keys(vs),
    decreases vs.len(),
{
    let all = crate::columns::map_values(vs);
    if vs.len() > 0 {
        let head = vs.drop_last();
        lemma_maps(t, head);
        let rows = rows_of(t, vs)->Ok_0;
        assert(rows.drop_last() =~= rows_of(t, head)->Ok_0);
        assert(all.drop_last() =~= crate::columns::map_values(head));
        assert(all.last() == vs.last()->MapOf_1);
    }
}

/// A column of maps begins like one of arrays; behind the ends stand all keys, and behind
/// them all values.
pub proof fn law_keys_stand_before_values(
    k: TypeView,
    x: TypeView,
    vs: Seq<ValueView>,
    b: Seq<u8>,
)
    requires
        column_bytes(TypeView::MapOf(Box::new(k), Box::new(x)), vs) == Ok::<_, Error>(b),
    ensures
        b.len() >= 8 * vs.len(),
        forall|i: int|
            0 <= i < vs.len() ==> b.subrange(8 * i, 8 * i + 8) == #[trigger] le_bytes(
                elements_before(vs, i + 1),
                8,
            ),
        column_bytes(k, keys_of(vs)) is Ok,
        column_bytes(x, values_under_keys(vs)) is Ok,
        b.skip(8 * vs.len() as int) == column_bytes(k, keys_of(vs))->Ok_0 + column_bytes(
            x,
            values_under_keys(vs),
        )->Ok_0,
{
    let t = TypeView::MapOf(Box::new(k), Box::new(x));
    lemma_arrays(t, vs);
    lemma_maps(t, vs);
    let a = offset_bytes(rows_of(t, vs)->Ok_0);
    let c = column_bytes(k, keys_of(vs))->Ok_0 + column_bytes(x, values_under_keys(vs))->Ok_0;
    assert(b =~= a + c);
    assert(b.skip(8 * vs.len() as int) =~= c);
    assert forall|i: int| 0 <= i < vs.len() implies b.subrange(8 * i, 8 * i + 8)
        == #[trigger] le_bytes(elements_before(vs, i + 1), 8) by {
        assert(b.subrange(8 * i, 8 * i + 8) =~= a.subrange(8 * i, 8 * i + 8));
    }
}

// ---------------------------------------------------------------------------
// Tuples and points
// ---------------------------------------------------------------------------

/// The columns of the fields of tuples stand one behind the other.
pub proof fn law_fields_stand_in_order(a: TypeView, b: TypeView, xs: Seq<ValueView>, ys: Seq<ValueView>)
    requires
        xs.len() == ys.len(),
        column_bytes(a, xs) is Ok,
        column_bytes(b, ys) is Ok,
    ensures
        column_bytes(
            TypeView::Tuple(seq![a, b]),
            Seq::new(xs.len(), |i: int| ValueView::Tuple(seq![xs[i], ys[i]])),
        ) == Ok::<_, Error>(column_bytes(a, xs)->Ok_0 + column_bytes(b, ys)->Ok_0),
{
    let t = TypeView::Tuple(seq![a, b]);
    let vs = Seq::new(xs.len(), |i: int| ValueView::Tuple(seq![xs[i], ys[i]]));
    let rows = Seq::new(xs.len(), |i: int| seq![xs[i], ys[i]]);
    assert forall|i: int| 0 <= i < vs.len() implies row_items(t, #[trigger] vs[i]) == Ok::<
        _,
        Error,
    >(rows[i]) by {}
    crate::mixed_laws::lemma_rows_made(t, vs, rows);
    crate::column_laws::lemma_column_of(rows, 0, 2);
    crate::column_laws::lemma_column_of(rows, 1, 2);
    assert(crate::columns::column_of(rows, 0) =~= xs);
    assert(crate::columns::column_of(rows, 1) =~= ys);
    let ts = seq![a, b];
    let rest = ts.subrange(1, 2);
    assert(rest =~= seq![b]);
    let none = rest.subrange(1, 1);
    assert(none =~= Seq::<TypeView>::empty());
    reveal_with_fuel(crate::columns::types_size, 3);
    assert(crate::columns::field_columns(none, rows, 2) == Ok::<_, Error>(Seq::<u8>::empty()));
    assert(crate::columns::field_columns(rest, rows, 1) == Ok::<_, Error>(
        column_bytes(b, ys)->Ok_0 + Seq::<u8>::empty(),
    ));
    assert(column_bytes(b, ys)->Ok_0 + Seq::<u8>::empty() =~= column_bytes(b, ys)->Ok_0);
    assert(crate::columns::field_columns(ts, rows, 0) == Ok::<_, Error>(
        column_bytes(a, xs)->Ok_0 + column_bytes(b, ys)->Ok_0,
    ));
}

/// A point stands as its first coordinates and behind them its second ones; a ring stands as
/// an array of points, a polygon as one of rings, and so on.
pub proof fn law_points_and_rings(x: u64, y: u64, r: Seq<(u64, u64)>)
    ensures
        column_bytes(TypeView::Point, seq![ValueView::Point(x, y)]) == Ok::<_, Error>(
            le_bytes(x as nat, 8) + le_bytes(y as nat, 8),
        ),
        r.len() <= usize::MAX ==> column_bytes(TypeView::Ring, seq![ValueView::Ring(r)])
            == column_bytes(
            TypeView::Array(Box::new(TypeView::Point)),
            seq![ValueView::Array(Seq::new(r.len(), |i: int| ValueView::Point(r[i].0, r[i].1)))],
        ),
{
    let xs = crate::columns::coordinates(seq![ValueView::Point(x, y)], true);
    let ys = crate::columns::coordinates(seq![ValueView::Point(x, y)], false);
    assert(xs =~= seq![ValueView::Float64(x)]);
    assert(ys =~= seq![ValueView::Float64(y)]);
    lemma_one_cell(TypeView::Float64, ValueView::Float64(x));
    lemma_one_cell(TypeView::Float64, ValueView::Float64(y));
    let items = Seq::new(r.len(), |i: int| ValueView::Point(r[i].0, r[i].1));
    let a = TypeView::Array(Box::new(TypeView::Point));
    let one = seq![ValueView::Ring(r)];
    let two = seq![ValueView::Array(items)];
    assert forall|i: int| 0 <= i < 1 implies row_items(TypeView::Ring, #[trigger] one[i]) == Ok::<
        _,
        Error,
    >(seq![items][i]) by {}
    assert forall|i: int| 0 <= i < 1 implies row_items(a, #[trigger] two[i]) == Ok::<_, Error>(
        seq![items][i],
    ) by {}
    crate::mixed_laws::lemma_rows_made(TypeView::Ring, one, seq![items]);
    crate::mixed_laws::lemma_rows_made(a, two, seq![items]);
}

proof fn lemma_one_cell(t: TypeView, v: ValueView)
    requires
        cell_bytes(t, v) is Ok,
    ensures
        cells_bytes(t, seq![v]) == cell_bytes(t, v),
{
    assert(seq![v].skip(1) =~= Seq::<ValueView>::empty());
    assert(cells_bytes(t, Seq::empty()) == Ok::<_, Error>(Seq::<u8>::empty()));
    assert(cell_bytes(t, v)->Ok_0 + Seq::<u8>::empty() =~= cell_bytes(t, v)->Ok_0);
}

// ---------------------------------------------------------------------------
// Cells
// ---------------------------------------------------------------------------

/// Numbers stand in as many bytes as their types have, the lowest first; those of 256 bits,
/// whose highest byte is held first, are turned around. An identifier has its higher half
/// first.
pub proof fn law_bytes_of_numbers(v: ValueView)
    ensures
        v matches ValueView::Int8(x) ==> sized_bytes(v) == Some(int_bytes(x as int, 1)),
        v matches ValueView::Int16(x) ==> sized_bytes(v) == Some(int_bytes(x as int, 2)),
        v matches ValueView::Int32(x) ==> sized_bytes(v) == Some(int_bytes(x as int, 4)),
        v matches ValueView::Int64(x) ==> sized_bytes(v) == Some(int_bytes(x as int, 8)),
        v matches ValueView::Int128(x) ==> sized_bytes(v) == Some(int_bytes(x as int, 16)),
        v matches ValueView::UInt8(x) ==> sized_bytes(v) == Some(le_bytes(x as nat, 1)),
        v matches ValueView::UInt16(x) ==> sized_bytes(v) == Some(le_bytes(x as nat, 2)),
        v matches ValueView::UInt32(x) ==> sized_bytes(v) == Some(le_bytes(x as nat, 4)),
        v matches ValueView::UInt64(x) ==> sized_bytes(v) == Some(le_bytes(x as nat, 8)),
        v matches ValueView::UInt128(x) ==> sized_bytes(v) == Some(le_bytes(x as nat, 16)),
        v matches ValueView::Float32(x) ==> sized_bytes(v) == Some(le_bytes(x as nat, 4)),
        v matches ValueView::Float64(x) ==> sized_bytes(v) == Some(le_bytes(x as nat, 8)),
        v matches ValueView::Date(x) ==> sized_bytes(v) == Some(le_bytes(x as nat, 2)),
        v matches ValueView::Date32(x) ==> sized_bytes(v) == Some(int_bytes(x as int, 4)),
        v matches ValueView::DateTime(_, x) ==> sized_bytes(v) == Some(le_bytes(x as nat, 4)),
        v matches ValueView::DateTime64(_, x, _) ==> sized_bytes(v) == Some(
            le_bytes(x as nat, 8),
        ),
        v matches ValueView::Enum8(_, x) ==> sized_bytes(v) == Some(int_bytes(x as int, 1)),
        v matches ValueView::Enum16(_, x) ==> sized_bytes(v) == Some(int_bytes(x as int, 2)),
        v matches ValueView::Decimal32(_, x) ==> sized_bytes(v) == Some(int_bytes(x as int, 4)),
        v matches ValueView::Decimal64(_, x) ==> sized_bytes(v) == Some(int_bytes(x as int, 8)),
        v matches ValueView::Decimal128(_, x) ==> sized_bytes(v) == Some(int_bytes(x as int, 16)),
        v matches ValueView::Int256(b) ==> sized_bytes(v) matches Some(c) && c.len() == b.len()
            && forall|i: int| 0 <= i < b.len() ==> #[trigger] c[i] == b[b.len() - 1 - i],
        v matches ValueView::UInt256(b) ==> sized_bytes(v) matches Some(c) && c.len() == b.len()
            && forall|i: int| 0 <= i < b.len() ==> #[trigger] c[i] == b[b.len() - 1 - i],
        v matches ValueView::Decimal256(_, b) ==> sized_bytes(v) matches Some(c) && c.len()
            == b.len() && forall|i: int| 0 <= i < b.len() ==> #[trigger] c[i] == b[b.len() - 1 - i],
        v matches ValueView::Ipv4(x) ==> sized_bytes(v) == Some(le_bytes(x as nat, 4)),
        v matches ValueView::Ipv6(b) ==> sized_bytes(v) == Some(b),
        v matches ValueView::Uuid(n) ==> sized_bytes(v) == Some(
            le_bytes(n as nat / 0x1_0000_0000_0000_0000, 8) + le_bytes(
                n as nat % 0x1_0000_0000_0000_0000,
                8,
            ),
        ),
{
}

/// Cells stand one behind the other, each as the bytes of its value: a string behind its
/// length, and in a column of strings of one length cut or filled with zeros to it. Where
/// there is null, the value that the type starts with stands.
pub proof fn law_cells_stand_in_order(t: TypeView, v: ValueView, vs: Seq<ValueView>, n: usize)
    ensures
        cell_bytes(t, v) is Ok && cells_bytes(t, vs) is Ok ==> cells_bytes(t, seq![v] + vs) == Ok::<
            _,
            Error,
        >(cell_bytes(t, v)->Ok_0 + cells_bytes(t, vs)->Ok_0),
        v matches ValueView::String(b) ==> cell_bytes(TypeView::String, v) == Ok::<_, Error>(
            string_bytes(b),
        ),
        v matches ValueView::String(b) ==> cell_bytes(TypeView::FixedSizedString(n), v) matches Ok(
            c,
        ) && c.len() == n && forall|i: int|
            0 <= i < n ==> #[trigger] c[i] == (if i < b.len() {
                b[i]
            } else {
                0u8
            }),
        v matches ValueView::Object(b) ==> cell_bytes(TypeView::Object, v) == Ok::<_, Error>(
            string_bytes(b),
        ),
        t is UInt8 || t is UInt16 || t is UInt32 || t is UInt64 || t is Int8 || t is Int16
            || t is Int32 || t is Int64 || t is Float32 || t is Float64 || t is Date || t is Date32
            || t is DateTime || t is DateTime64 || t is Ipv4 ==> {
            &&& !(v is Null) && sized_bytes(v) is Some ==> cell_bytes(t, v) == Ok::<_, Error>(
                sized_bytes(v)->0,
            )
            &&& cell_bytes(t, ValueView::Null) matches Ok(c) && forall|i: int|
                0 <= i < c.len() ==> #[trigger] c[i] == 0
        },
        cell_bytes(TypeView::String, ValueView::Null) == Ok::<_, Error>(seq![0u8]),
{
    let all = seq![v] + vs;
    assert(all.skip(1) =~= vs);
    assert(all[0] == v);
    reveal_with_fuel(le_bytes, 9);
    lemma_pow256();
    assert(0nat % 256 == 0 && 0nat / 256 == 0);
    assert(string_bytes(Seq::<u8>::empty()) =~= seq![0u8]);
}

/// A cell is read from as many bytes as its type has, and gives the number that they are.
pub proof fn law_cells_are_read(a: u8, b: u8, rest: Seq<u8>)
    ensures
        parsed_cell(seq![a] + rest, TypeView::UInt8) == Ok::<_, Error>(
            (ValueView::UInt8(a), rest),
        ),
        parsed_cell(seq![a, b] + rest, TypeView::UInt16) == Ok::<_, Error>(
            (ValueView::UInt16((a + 256 * b) as u16), rest),
        ),
        parsed_cell(seq![a, b] + rest, TypeView::Date) == Ok::<_, Error>(
            (ValueView::Date((a + 256 * b) as u16), rest),
        ),
{
    crate::code_laws::lemma_one_byte(a, rest);
    crate::code_laws::lemma_two_bytes(a, b, rest);
}

// ---------------------------------------------------------------------------
// What stands before columns
// ---------------------------------------------------------------------------

/// Before a dictionary stands the number one and before a variant the number zero, in eight
/// bytes each; before numbers and strings nothing; before other columns what stands before
/// the columns in them, in order.
pub proof fn law_bytes_before_columns(t: TypeView, k: TypeView)
    ensures
        prefix_bytes(TypeView::LowCardinality(Box::new(t))) == Ok::<_, Error>(
            seq![1u8, 0, 0, 0, 0, 0, 0, 0],
        ),
        prefix_bytes(TypeView::Variant(Seq::empty())) == Ok::<_, Error>(
            seq![0u8, 0, 0, 0, 0, 0, 0, 0],
        ),
        prefix_bytes(TypeView::Object) == Ok::<_, Error>(seq![1u8, 0, 0, 0, 0, 0, 0, 0]),
        prefix_bytes(TypeView::Array(Box::new(t))) == prefix_bytes(t),
        prefix_bytes(TypeView::Nullable(Box::new(t))) == prefix_bytes(t),
        prefix_bytes(k) is Ok && prefix_bytes(t) is Ok ==> prefix_bytes(
            TypeView::MapOf(Box::new(k), Box::new(t)),
        ) == Ok::<_, Error>(prefix_bytes(k)->Ok_0 + prefix_bytes(t)->Ok_0),
        prefix_bytes(TypeView::String) == Ok::<_, Error>(Seq::<u8>::empty()),
        prefix_bytes(TypeView::Int64) == Ok::<_, Error>(Seq::<u8>::empty()),
        prefix_bytes(TypeView::Uuid) == Ok::<_, Error>(Seq::<u8>::empty()),
        t is Decimal32 || t is Decimal64 || t is DateTime || t is DateTime64 || t is Enum8
            || t is Enum16 || t is FixedSizedString || t is Point || t is Ring || t is Polygon
            || t is MultiPolygon || t is Date || t is Float64 || t is UInt8 || t is Bool
            ==> prefix_bytes(t) == Ok::<_, Error>(Seq::<u8>::empty()),
{
    law_bytes_of_small_numbers(1);
    law_bytes_of_small_numbers(0);
    let none = Seq::<TypeView>::empty();
    assert(crate::prefixes::prefixes_bytes(none) == Ok::<_, Error>(Seq::<u8>::empty()));
    assert(le_bytes(0, 8) + Seq::<u8>::empty() =~= le_bytes(0, 8));
}

/// What stands before a dictionary or a variant has to be that number; before a document
/// stands one byte, whatever it is.
pub proof fn law_bytes_before_columns_are_read(t: TypeView, x: u64, b: u8, rest: Seq<u8>)
    ensures
        parsed_prefix(
            le_bytes(x as nat, 8) + rest,
            TypeView::LowCardinality(Box::new(t)),
        ) is Ok <==> x == 1,
        parsed_prefix(
            seq![1u8, 0, 0, 0, 0, 0, 0, 0] + rest,
            TypeView::LowCardinality(Box::new(t)),
        ) == Ok::<_, Error>(((), rest)),
        parsed_prefix(
            le_bytes(x as nat, 8) + rest,
            TypeView::Variant(Seq::empty()),
        ) is Ok <==> x == 0,
        parsed_prefix(seq![b] + rest, TypeView::Object) == Ok::<_, Error>(((), rest)),
        parsed_prefix(rest, TypeView::String) == Ok::<_, Error>(((), rest)),
        parsed_prefix(rest, TypeView::Int64) == Ok::<_, Error>(((), rest)),
        parsed_prefix(rest, TypeView::Array(Box::new(t))) == parsed_prefix(rest, t),
        parsed_prefix(rest, TypeView::Nullable(Box::new(t))) == parsed_prefix(rest, t),
{
    lemma_pow256();
    law_uint_reads_back(x as nat, 8, rest);
    law_uint_reads_back(1, 8, rest);
    law_bytes_of_small_numbers(1);
    crate::code_laws::lemma_one_byte(b, rest);
    let none = Seq::<TypeView>::empty();
    assert(crate::prefixes::parsed_prefixes(rest, none) == Ok::<_, Error>(((), rest)));
}

} // verus!
