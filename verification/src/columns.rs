//! Columns of all types that need no state of their own: their prefixes and their bytes.
use vstd::prelude::*;

use crate::cells::{cells_bytes, has_cells, is_cell_type, put_cells};
use crate::error::{Error, Expected, Result, WriteReason};
use crate::guess::guessed;
use crate::low_cardinality::{low_bytes, put_low};
use crate::type_order::sorted_types;
use crate::types::{field_views, type_views, Type, TypeView};
use crate::values::{clone_values, value_views, Point, Polygon, Ring, Value, ValueView};
use crate::variant::{
    all_variants, column_views, discriminators_of, group_of, is_variant_ok, variant_ok,
    DiscriminatorMap, VariantSerializer, NULL_DISCRIMINATOR,
};
use crate::wire::{le_bytes, put_bytes, put_u64_le};

verus! {

// ---------------------------------------------------------------------------
// Written bytes
// ---------------------------------------------------------------------------

/// The bytes that are written, or why nothing can be.
pub type Written = core::result::Result<Seq<u8>, Error>;

/// Bytes, and those that are written behind them.
pub open spec fn followed(a: Written, b: Written) -> Written {
    match a {
        Err(e) => Err(e),
        Ok(x) => match b {
            Err(e) => Err(e),
            Ok(y) => Ok(x + y),
        },
    }
}

/// Whether a writer that held `before` and holds `after` was given the bytes `w`.
pub open spec fn wrote(before: Seq<u8>, after: Seq<u8>, r: Result<()>, w: Written) -> bool {
    match r {
        Ok(()) => w is Ok && after == before + w->Ok_0,
        Err(e) => w == Err::<Seq<u8>, Error>(e),
    }
}

/// Writing twice writes what follows one another.
pub proof fn lemma_wrote(a: Seq<u8>, b: Seq<u8>, c: Seq<u8>, r: Result<()>, v: Written, w: Written)
    requires
        wrote(a, b, Ok(()), v),
        wrote(b, c, r, w),
    ensures
        wrote(a, c, r, followed(v, w)),
{
    if r is Ok {
        assert(a + v->Ok_0 + w->Ok_0 =~= a + (v->Ok_0 + w->Ok_0));
    }
}

// ---------------------------------------------------------------------------
// Sizes of types
// ---------------------------------------------------------------------------

/// How many types a type is made of.
pub open spec fn type_size(t: TypeView) -> nat
    decreases t,
{
    match t {
        TypeView::Ring => 2,
        TypeView::Polygon => 3,
        TypeView::MultiPolygon => 4,
        TypeView::LowCardinality(inner) => 1 + type_size(*inner),
        TypeView::Array(inner) => 1 + type_size(*inner),
        TypeView::Nullable(inner) => 1 + type_size(*inner),
        TypeView::MapOf(k, v) => 1 + type_size(*k) + type_size(*v),
        TypeView::Tuple(ts) => 1 + types_size(ts),
        TypeView::Variant(ts) => 1 + types_size(ts),
        TypeView::TupleNamed(fs) => 1 + fields_size(fs),
        _ => 1,
    }
}

/// How many types a sequence of types is made of.
pub open spec fn types_size(ts: Seq<TypeView>) -> nat
    decreases ts,
{
    if ts.len() == 0 {
        0
    } else {
        1 + type_size(ts[0]) + types_size(ts.subrange(1, ts.len() as int))
    }
}

/// How many types named fields are made of.
pub open spec fn fields_size(fs: Seq<(Seq<char>, TypeView)>) -> nat
    decreases fs,
{
    if fs.len() == 0 {
        0
    } else {
        1 + type_size(fs[0].1) + fields_size(fs.subrange(1, fs.len() as int))
    }
}

/// The types of named fields.
pub open spec fn field_types(fs: Seq<(Seq<char>, TypeView)>) -> Seq<TypeView> {
    Seq::new(fs.len(), |i: int| fs[i].1)
}

/// Fields are as large as their types.
pub proof fn lemma_fields_size(fs: Seq<(Seq<char>, TypeView)>)
    ensures
        types_size(field_types(fs)) == fields_size(fs),
    decreases fs.len(),
{
    if fs.len() > 0 {
        let rest = fs.subrange(1, fs.len() as int);
        lemma_fields_size(rest);
        assert(field_types(fs).subrange(1, fs.len() as int) =~= field_types(rest));
    }
}

proof fn lemma_size_insert(ts: Seq<TypeView>, p: int, t: TypeView)
    requires
        0 <= p <= ts.len(),
    ensures
        types_size(ts.insert(p, t)) == types_size(ts) + 1 + type_size(t),
    decreases ts.len(),
{
    let all = ts.insert(p, t);
    if p == 0 {
        assert(all.subrange(1, all.len() as int) =~= ts);
    } else {
        let rest = ts.subrange(1, ts.len() as int);
        lemma_size_insert(rest, p - 1, t);
        assert(all.subrange(1, all.len() as int) =~= rest.insert(p - 1, t));
        assert(all[0] == ts[0]);
    }
}

/// Sorting types does not change their size.
pub proof fn lemma_sorted_size(ts: Seq<TypeView>)
    ensures
        types_size(sorted_types(ts)) == types_size(ts),
    decreases ts.len(),
{
    if ts.len() > 0 {
        let head = sorted_types(ts.drop_last());
        lemma_sorted_size(ts.drop_last());
        crate::type_order::law_sorted_types(ts.drop_last());
        crate::type_order::lemma_insert_pos(
            head,
            crate::type_display::type_text(ts.last()),
            0,
        );
        lemma_size_insert(
            head,
            crate::type_order::insert_pos(head, crate::type_display::type_text(ts.last()), 0),
            ts.last(),
        );
        lemma_size_insert(ts.drop_last(), ts.len() - 1, ts.last());
        assert(ts.drop_last().insert(ts.len() - 1, ts.last()) =~= ts);
    }
}

// ---------------------------------------------------------------------------
// Rows that hold several values
// ---------------------------------------------------------------------------

/// Types whose rows hold any number of elements of one type.
pub open spec fn is_array_like(t: TypeView) -> bool {
    match t {
        TypeView::Array(_) | TypeView::Ring | TypeView::Polygon | TypeView::MultiPolygon => true,
        _ => false,
    }
}

/// The type of the elements.
pub open spec fn element_type(t: TypeView) -> TypeView {
    match t {
        TypeView::Array(inner) => *inner,
        TypeView::Ring => TypeView::Point,
        TypeView::Polygon => TypeView::Ring,
        _ => TypeView::Polygon,
    }
}

/// The types of the fields of a tuple.
pub open spec fn tuple_fields(t: TypeView) -> Option<Seq<TypeView>> {
    match t {
        TypeView::Tuple(ts) => Some(ts),
        TypeView::TupleNamed(fs) => Some(field_types(fs)),
        _ => None,
    }
}

/// The values that one row holds: the elements of an array, the fields of a tuple or
/// the keys of a map.
pub open spec fn row_items(t: TypeView, v: ValueView) -> core::result::Result<
    Seq<ValueView>,
    Error,
> {
    let unsupported = Err(Error::SerializeError(WriteReason::UnsupportedValue));
    match t {
        TypeView::Array(_) => match v {
            ValueView::Array(s) => Ok(s),
            _ => Err(Error::Protocol(Expected::Array)),
        },
        TypeView::Ring => match v {
            ValueView::Ring(s) => Ok(Seq::new(s.len(), |i: int| ValueView::Point(s[i].0, s[i].1))),
            _ => unsupported,
        },
        TypeView::Polygon => match v {
            ValueView::Polygon(s) => Ok(Seq::new(s.len(), |i: int| ValueView::Ring(s[i]))),
            _ => unsupported,
        },
        TypeView::MultiPolygon => match v {
            ValueView::MultiPolygon(s) => Ok(Seq::new(s.len(), |i: int| ValueView::Polygon(s[i]))),
            _ => unsupported,
        },
        TypeView::Tuple(_) | TypeView::TupleNamed(_) => match v {
            ValueView::Tuple(s) => if s.len() > tuple_fields(t)->0.len() {
                Err(Error::SerializeError(WriteReason::TupleLength))
            } else {
                Ok(s)
            },
            _ => Err(Error::Protocol(Expected::Tuple)),
        },
        TypeView::MapOf(_, _) => match v {
            ValueView::MapOf(k, x) => if k.len() == x.len() {
                Ok(k)
            } else {
                unsupported
            },
            _ => unsupported,
        },
        _ => unsupported,
    }
}

/// The values that each row holds.
pub open spec fn rows_of(t: TypeView, vs: Seq<ValueView>) -> core::result::Result<
    Seq<Seq<ValueView>>,
    Error,
>
    decreases vs.len(),
{
    if vs.len() == 0 {
        Ok(Seq::empty())
    } else {
        match rows_of(t, vs.drop_last()) {
            Err(e) => Err(e),
            Ok(rows) => match row_items(t, vs.last()) {
                Err(e) => Err(e),
                Ok(s) => Ok(rows.push(s)),
            },
        }
    }
}

/// The values of each row of maps.
pub open spec fn map_values(vs: Seq<ValueView>) -> Seq<Seq<ValueView>> {
    Seq::new(vs.len(), |i: int| vs[i]->MapOf_1)
}

/// All values of all rows, in order.
pub open spec fn joined_rows(rows: Seq<Seq<ValueView>>) -> Seq<ValueView>
    decreases rows.len(),
{
    if rows.len() == 0 {
        Seq::empty()
    } else {
        joined_rows(rows.drop_last()) + rows.last()
    }
}

/// Behind how many values each row ends.
pub open spec fn offset_bytes(rows: Seq<Seq<ValueView>>) -> Seq<u8>
    decreases rows.len(),
{
    if rows.len() == 0 {
        Seq::empty()
    } else {
        offset_bytes(rows.drop_last()) + le_bytes(joined_rows(rows).len(), 8)
    }
}

/// The values at one place of the rows, where they reach that far.
pub open spec fn column_of(rows: Seq<Seq<ValueView>>, k: nat) -> Seq<ValueView>
    decreases rows.len(),
{
    if rows.len() == 0 {
        Seq::empty()
    } else {
        let head = column_of(rows.drop_last(), k);
        if k < rows.last().len() {
            head.push(rows.last()[k as int])
        } else {
            head
        }
    }
}

fn points_to_values(r: &Ring) -> (out: Vec<Value>)
    ensures
        value_views(out@) == Seq::new(
            r.0@.len(),
            |i: int| ValueView::Point(r.0@[i].0, r.0@[i].1),
        ),
{
    let mut out: Vec<Value> = Vec::new();
    let mut i: usize = 0;
    while i < r.0.len()
        invariant
            i <= r.0.len(),
            out@.len() == i,
            forall|j: int|
                0 <= j < i ==> (#[trigger] out@[j])@ == ValueView::Point(r.0@[j].0, r.0@[j].1),
        decreases r.0.len() - i,
    {
        out.push(Value::Point(r.0[i]));
        i += 1;
    }
    assert(value_views(out@) =~= Seq::new(
        r.0@.len(),
        |i: int| ValueView::Point(r.0@[i].0, r.0@[i].1),
    ));
    out
}

fn rings_to_values(p: &Polygon) -> (out: Vec<Value>)
    ensures
        value_views(out@) == Seq::new(
            p.0@.len(),
            |i: int| ValueView::Ring(crate::values::ring_view(p.0@[i])),
        ),
{
    let mut out: Vec<Value> = Vec::new();
    let mut i: usize = 0;
    while i < p.0.len()
        invariant
            i <= p.0.len(),
            out@.len() == i,
            forall|j: int|
                0 <= j < i ==> (#[trigger] out@[j])@ == ValueView::Ring(
                    crate::values::ring_view(p.0@[j]),
                ),
        decreases p.0.len() - i,
    {
        out.push(Value::Ring(p.0[i].clone()));
        i += 1;
    }
    assert(value_views(out@) =~= Seq::new(
        p.0@.len(),
        |i: int| ValueView::Ring(crate::values::ring_view(p.0@[i])),
    ));
    out
}

fn polygons_to_values(m: &Vec<Polygon>) -> (out: Vec<Value>)
    ensures
        value_views(out@) == Seq::new(
            m@.len(),
            |i: int| ValueView::Polygon(crate::values::polygon_view(m@[i])),
        ),
{
    let mut out: Vec<Value> = Vec::new();
    let mut i: usize = 0;
    while i < m.len()
        invariant
            i <= m.len(),
            out@.len() == i,
            forall|j: int|
                0 <= j < i ==> (#[trigger] out@[j])@ == ValueView::Polygon(
                    crate::values::polygon_view(m@[j]),
                ),
        decreases m.len() - i,
    {
        out.push(Value::Polygon(m[i].clone()));
        i += 1;
    }
    assert(value_views(out@) =~= Seq::new(
        m@.len(),
        |i: int| ValueView::Polygon(crate::values::polygon_view(m@[i])),
    ));
    out
}

/// The values that one row holds.
fn items_of(t: &Type, v: &Value) -> (r: Result<Vec<Value>>)
    ensures
        match r {
            Ok(s) => row_items(t@, v@) == Ok::<_, Error>(value_views(s@)),
            Err(e) => row_items(t@, v@) == Err::<Seq<ValueView>, Error>(e),
        },
{
    let unsupported = Err(Error::SerializeError(WriteReason::UnsupportedValue));
    proof {
        t.lemma_view();
        v.lemma_view();
    }
    match t {
        Type::Array(_) => match v {
            Value::Array(s) => Ok(clone_values(s)),
            _ => Err(Error::Protocol(Expected::Array)),
        },
        Type::Ring => match v {
            Value::Ring(s) => {
                let out = points_to_values(s);
                proof {
                    let p = crate::values::ring_view(*s);
                    assert(value_views(out@) =~= Seq::new(
                        p.len(),
                        |i: int| ValueView::Point(p[i].0, p[i].1),
                    ));
                }
                Ok(out)
            },
            _ => unsupported,
        },
        Type::Polygon => match v {
            Value::Polygon(s) => {
                let out = rings_to_values(s);
                proof {
                    let p = crate::values::polygon_view(*s);
                    assert(value_views(out@) =~= Seq::new(p.len(), |i: int| ValueView::Ring(p[i])));
                }
                Ok(out)
            },
            _ => unsupported,
        },
        Type::MultiPolygon => match v {
            Value::MultiPolygon(s) => {
                let out = polygons_to_values(&s.0);
                proof {
                    let p = crate::values::multi_view(*s);
                    assert(value_views(out@) =~= Seq::new(
                        p.len(),
                        |i: int| ValueView::Polygon(p[i]),
                    ));
                }
                Ok(out)
            },
            _ => unsupported,
        },
        Type::Tuple(ts) => match v {
            Value::Tuple(s) => if s.len() > ts.len() {
                Err(Error::SerializeError(WriteReason::TupleLength))
            } else {
                Ok(clone_values(s))
            },
            _ => Err(Error::Protocol(Expected::Tuple)),
        },
        Type::TupleNamed(fs) => match v {
            Value::Tuple(s) => if s.len() > fs.len() {
                Err(Error::SerializeError(WriteReason::TupleLength))
            } else {
                Ok(clone_values(s))
            },
            _ => Err(Error::Protocol(Expected::Tuple)),
        },
        Type::MapOf(_, _) => match v {
            Value::MapOf(k, x) => if k.len() == x.len() {
                Ok(clone_values(k))
            } else {
                unsupported
            },
            _ => unsupported,
        },
        _ => unsupported,
    }
}

/// The values that each row holds.
pub(crate) fn split_rows(t: &Type, values: &Vec<Value>) -> (r: Result<Vec<Vec<Value>>>)
    ensures
        match r {
            Ok(rows) => rows_of(t@, value_views(values@)) == Ok::<_, Error>(column_views(rows@)),
            Err(e) => rows_of(t@, value_views(values@)) == Err::<Seq<Seq<ValueView>>, Error>(e),
        },
{
    let ghost all = value_views(values@);
    let mut rows: Vec<Vec<Value>> = Vec::new();
    let mut i: usize = 0;
    assert(column_views(rows@) =~= Seq::<Seq<ValueView>>::empty());
    while i < values.len()
        invariant
            i <= values.len(),
            all == value_views(values@),
            rows_of(t@, all.take(i as int)) == Ok::<_, Error>(column_views(rows@)),
        decreases values.len() - i,
    {
        let ghost head = column_views(rows@);
        proof {
            assert(all.take(i + 1).drop_last() =~= all.take(i as int));
            assert(all.take(i + 1).last() == values@[i as int]@);
        }
        match items_of(t, &values[i]) {
            Err(e) => {
                proof {
                    lemma_rows_err(t@, all, i + 1, e);
                }
                return Err(e);
            },
            Ok(s) => {
                let ghost sv = value_views(s@);
                rows.push(s);
                assert(column_views(rows@) =~= head.push(sv));
            },
        }
        i += 1;
    }
    assert(all.take(all.len() as int) =~= all);
    Ok(rows)
}

proof fn lemma_rows_err(t: TypeView, vs: Seq<ValueView>, n: int, e: Error)
    requires
        0 <= n <= vs.len(),
        rows_of(t, vs.take(n)) == Err::<Seq<Seq<ValueView>>, Error>(e),
    ensures
        rows_of(t, vs) == Err::<Seq<Seq<ValueView>>, Error>(e),
    decreases vs.len() - n,
{
    if n == vs.len() {
        assert(vs.take(n) =~= vs);
    } else {
        assert(vs.take(n + 1).drop_last() =~= vs.take(n));
        lemma_rows_err(t, vs, n + 1, e);
    }
}

/// There is a row for each value.
pub proof fn lemma_rows_len(t: TypeView, vs: Seq<ValueView>)
    requires
        rows_of(t, vs) is Ok,
    ensures
        rows_of(t, vs)->Ok_0.len() == vs.len(),
        forall|i: int|
            0 <= i < vs.len() ==> row_items(t, vs[i]) == Ok::<_, Error>(
                #[trigger] rows_of(t, vs)->Ok_0[i],
            ),
    decreases vs.len(),
{
    if vs.len() > 0 {
        lemma_rows_len(t, vs.drop_last());
    }
}

pub(crate) fn split_map_values(values: &Vec<Value>) -> (rows: Vec<Vec<Value>>)
    requires
        forall|i: int| 0 <= i < values@.len() ==> (#[trigger] values@[i])@ is MapOf,
    ensures
        column_views(rows@) == map_values(value_views(values@)),
{
    let mut rows: Vec<Vec<Value>> = Vec::new();
    let mut i: usize = 0;
    while i < values.len()
        invariant
            i <= values.len(),
            rows@.len() == i,
            forall|i: int| 0 <= i < values@.len() ==> (#[trigger] values@[i])@ is MapOf,
            forall|j: int|
                0 <= j < i ==> value_views((#[trigger] rows@[j])@) == values@[j]@->MapOf_1,
        decreases values.len() - i,
    {
        proof {
            values@[i as int].lemma_view();
            assert(values@[i as int]@ is MapOf);
        }
        match &values[i] {
            Value::MapOf(_, x) => rows.push(clone_values(x)),
            _ => {
                assert(false);
                rows.push(Vec::new());
            },
        }
        i += 1;
    }
    assert(column_views(rows@) =~= map_values(value_views(values@)));
    rows
}

proof fn lemma_joined_grows(rows: Seq<Seq<ValueView>>, n: int)
    requires
        0 <= n <= rows.len(),
    ensures
        joined_rows(rows.take(n)).len() <= joined_rows(rows).len(),
    decreases rows.len() - n,
{
    if n == rows.len() {
        assert(rows.take(n) =~= rows);
    } else {
        lemma_joined_grows(rows, n + 1);
        assert(rows.take(n + 1).drop_last() =~= rows.take(n));
    }
}

/// All values of all rows, if an index can count them.
pub(crate) fn join_rows(rows: &Vec<Vec<Value>>) -> (r: Option<Vec<Value>>)
    ensures
        match r {
            Some(v) => {
                &&& value_views(v@) == joined_rows(column_views(rows@))
                &&& joined_rows(column_views(rows@)).len() <= usize::MAX
            },
            None => joined_rows(column_views(rows@)).len() > usize::MAX,
        },
{
    let ghost all = column_views(rows@);
    let mut out: Vec<Value> = Vec::new();
    let mut i: usize = 0;
    assert(value_views(out@) =~= Seq::<ValueView>::empty());
    while i < rows.len()
        invariant
            i <= rows.len(),
            all == column_views(rows@),
            value_views(out@) == joined_rows(all.take(i as int)),
        decreases rows.len() - i,
    {
        let ghost head = value_views(out@);
        proof {
            assert(all.take(i + 1).drop_last() =~= all.take(i as int));
            assert(all.take(i + 1).last() == value_views(rows@[i as int]@));
            lemma_joined_grows(all, i + 1);
        }
        if rows[i].len() > usize::MAX - out.len() {
            assert(head.len() == out@.len());
            return None;
        }
        let mut part = clone_values(&rows[i]);
        let ghost pv = value_views(part@);
        out.append(&mut part);
        assert(value_views(out@) =~= head + pv);
        i += 1;
    }
    assert(all.take(all.len() as int) =~= all);
    assert(value_views(out@).len() == out.len());
    Some(out)
}

/// Appends behind how many values each row ends.
pub(crate) fn put_offsets(out: &mut Vec<u8>, rows: &Vec<Vec<Value>>)
    requires
        joined_rows(column_views(rows@)).len() <= usize::MAX,
    ensures
        final(out)@ == old(out)@ + offset_bytes(column_views(rows@)),
{
    let ghost all = column_views(rows@);
    let mut offset: usize = 0;
    let mut i: usize = 0;
    assert(out@ + Seq::<u8>::empty() =~= out@);
    while i < rows.len()
        invariant
            i <= rows.len(),
            all == column_views(rows@),
            joined_rows(all).len() <= usize::MAX,
            offset == joined_rows(all.take(i as int)).len(),
            out@ == old(out)@ + offset_bytes(all.take(i as int)),
        decreases rows.len() - i,
    {
        let ghost head = offset_bytes(all.take(i as int));
        proof {
            assert(all.take(i + 1).drop_last() =~= all.take(i as int));
            assert(all.take(i + 1).last() == value_views(rows@[i as int]@));
            lemma_joined_grows(all, i + 1);
        }
        offset = offset + rows[i].len();
        put_u64_le(out, offset as u64);
        proof {
            assert(old(out)@ + head + le_bytes(offset as nat, 8) =~= old(out)@ + (head + le_bytes(
                offset as nat,
                8,
            )));
        }
        i += 1;
    }
    assert(all.take(all.len() as int) =~= all);
}

/// The values at one place of the rows.
pub(crate) fn pick_column(rows: &Vec<Vec<Value>>, k: usize) -> (r: Vec<Value>)
    ensures
        value_views(r@) == column_of(column_views(rows@), k as nat),
{
    let ghost all = column_views(rows@);
    let mut out: Vec<Value> = Vec::new();
    let mut i: usize = 0;
    assert(value_views(out@) =~= Seq::<ValueView>::empty());
    while i < rows.len()
        invariant
            i <= rows.len(),
            all == column_views(rows@),
            value_views(out@) == column_of(all.take(i as int), k as nat),
        decreases rows.len() - i,
    {
        let ghost head = value_views(out@);
        proof {
            assert(all.take(i + 1).drop_last() =~= all.take(i as int));
            assert(all.take(i + 1).last() == value_views(rows@[i as int]@));
        }
        if k < rows[i].len() {
            let x = rows[i][k].clone();
            let ghost xv = x@;
            out.push(x);
            assert(value_views(out@) =~= head.push(xv));
        }
        i += 1;
    }
    assert(all.take(all.len() as int) =~= all);
    out
}

// ---------------------------------------------------------------------------
// Values of a variant without discriminators
// ---------------------------------------------------------------------------

/// The first type from `i` on that is the given one.
pub open spec fn find_type(ts: Seq<TypeView>, t: TypeView, i: int) -> Option<int>
    decreases ts.len() - i,
{
    if i < 0 || i >= ts.len() {
        None
    } else if ts[i] == t {
        Some(i)
    } else {
        find_type(ts, t, i + 1)
    }
}

/// A value as one of a variant: under the discriminator of the type that it is guessed
/// to have.
pub open spec fn discriminated(v: ValueView, ts: Seq<TypeView>) -> core::result::Result<
    ValueView,
    Error,
> {
    if v is Null {
        Ok(ValueView::Variant(NULL_DISCRIMINATOR, Box::new(v)))
    } else {
        match find_type(sorted_types(ts), guessed(v), 0) {
            Some(i) => if i < NULL_DISCRIMINATOR {
                Ok(ValueView::Variant(i as u8, Box::new(v)))
            } else {
                Err(Error::SerializeError(WriteReason::NoMatchingVariant))
            },
            None => Err(Error::SerializeError(WriteReason::NoMatchingVariant)),
        }
    }
}

/// Values as those of a variant.
pub open spec fn all_discriminated(vs: Seq<ValueView>, ts: Seq<TypeView>) -> core::result::Result<
    Seq<ValueView>,
    Error,
>
    decreases vs.len(),
{
    if vs.len() == 0 {
        Ok(Seq::empty())
    } else {
        match discriminated(vs[0], ts) {
            Err(e) => Err(e),
            Ok(a) => match all_discriminated(vs.skip(1), ts) {
                Err(e) => Err(e),
                Ok(b) => Ok(seq![a] + b),
            },
        }
    }
}

/// Whether some value is neither one of a variant nor null.
pub open spec fn some_bare(vs: Seq<ValueView>) -> bool {
    exists|i: int| 0 <= i < vs.len() && !(#[trigger] vs[i] is Variant) && !(vs[i] is Null)
}

/// The elements of arrays as the element type takes them: where that is a variant, bare
/// values get their discriminators.
pub open spec fn wrapped(t: TypeView, vs: Seq<ValueView>) -> core::result::Result<
    Seq<ValueView>,
    Error,
> {
    match t {
        TypeView::Variant(ts) => if some_bare(vs) {
            all_discriminated(vs, ts)
        } else {
            Ok(vs)
        },
        _ => Ok(vs),
    }
}

fn discriminate(v: &Value, sorted: &Vec<Type>, Ghost(ts): Ghost<Seq<TypeView>>) -> (r: Result<
    Value,
>)
    requires
        type_views(sorted@) == sorted_types(ts),
    ensures
        match r {
            Ok(x) => discriminated(v@, ts) == Ok::<_, Error>(x@),
            Err(e) => discriminated(v@, ts) == Err::<ValueView, Error>(e),
        },
{
    if let Value::Null = v {
        let inner = v.clone();
        assert(inner@ is Null);
        return Ok(Value::Variant(NULL_DISCRIMINATOR, Box::new(inner)));
    }
    assert(!(v@ is Null));
    let t = v.guess_type();
    let mut i: usize = 0;
    while i < sorted.len()
        invariant
            i <= sorted.len(),
            type_views(sorted@) == sorted_types(ts),
            t@ == guessed(v@),
            !(v@ is Null),
            find_type(sorted_types(ts), t@, 0) == find_type(sorted_types(ts), t@, i as int),
        decreases sorted.len() - i,
    {
        assert(sorted_types(ts)[i as int] == sorted@[i as int]@);
        if sorted[i].same(&t) {
            if i < NULL_DISCRIMINATOR as usize {
                return Ok(Value::Variant(i as u8, Box::new(v.clone())));
            }
            return Err(Error::SerializeError(WriteReason::NoMatchingVariant));
        }
        i += 1;
    }
    assert(sorted_types(ts).len() == sorted@.len());
    Err(Error::SerializeError(WriteReason::NoMatchingVariant))
}

/// The values of arrays as those of a variant.
fn wrap_heterogeneous_elements(elements: &Vec<Value>, variant_types: &Vec<Type>) -> (r: Result<
    Vec<Value>,
>)
    ensures
        match r {
            Ok(v) => all_discriminated(value_views(elements@), type_views(variant_types@)) == Ok::<
                _,
                Error,
            >(value_views(v@)),
            Err(e) => all_discriminated(value_views(elements@), type_views(variant_types@))
                == Err::<Seq<ValueView>, Error>(e),
        },
{
    let ghost all = value_views(elements@);
    let ghost ts = type_views(variant_types@);
    let sorted = crate::type_order::sort_types(variant_types);
    let mut out: Vec<Value> = Vec::new();
    let mut i: usize = 0;
    proof {
        assert(all.skip(0) =~= all);
        if let Ok(b) = all_discriminated(all, ts) {
            assert(value_views(out@) + b =~= b);
        }
    }
    while i < elements.len()
        invariant
            i <= elements.len(),
            all == value_views(elements@),
            ts == type_views(variant_types@),
            type_views(sorted@) == sorted_types(ts),
            all_discriminated(all, ts) == match all_discriminated(all.skip(i as int), ts) {
                Err(e) => Err(e),
                Ok(rest) => Ok(value_views(out@) + rest),
            },
        decreases elements.len() - i,
    {
        let ghost head = value_views(out@);
        proof {
            assert(all.skip(i as int)[0] == elements@[i as int]@);
            assert(all.skip(i as int).skip(1) =~= all.skip(i + 1));
        }
        match discriminate(&elements[i], &sorted, Ghost(ts)) {
            Err(e) => return Err(e),
            Ok(x) => {
                let ghost xv = x@;
                out.push(x);
                proof {
                    assert(value_views(out@) =~= head.push(xv));
                    if let Ok(rest) = all_discriminated(all.skip(i + 1), ts) {
                        assert(head + (seq![xv] + rest) =~= value_views(out@) + rest);
                    }
                }
            },
        }
        i += 1;
    }
    assert(value_views(out@) + Seq::<ValueView>::empty() =~= value_views(out@));
    Ok(out)
}

/// Whether some value is neither one of a variant nor null.
fn needs_heterogeneous_transformation(values: &Vec<Value>) -> (r: bool)
    ensures
        r == some_bare(value_views(values@)),
{
    let ghost all = value_views(values@);
    let mut i: usize = 0;
    while i < values.len()
        invariant
            i <= values.len(),
            all == value_views(values@),
            forall|j: int| 0 <= j < i ==> (#[trigger] all[j]) is Variant || all[j] is Null,
        decreases values.len() - i,
    {
        assert(all[i as int] == values@[i as int]@);
        match &values[i] {
            Value::Variant(_, _) | Value::Null => {},
            _ => {
                assert(!(all[i as int] is Variant) && !(all[i as int] is Null));
                return true;
            },
        }
        i += 1;
    }
    false
}

pub(crate) fn wrap_elements(t: &Type, values: Vec<Value>) -> (r: Result<Vec<Value>>)
    ensures
        match r {
            Ok(v) => wrapped(t@, value_views(values@)) == Ok::<_, Error>(value_views(v@)),
            Err(e) => wrapped(t@, value_views(values@)) == Err::<Seq<ValueView>, Error>(e),
        },
{
    proof {
        t.lemma_view();
    }
    if let Type::Variant(ts) = t {
        if needs_heterogeneous_transformation(&values) {
            return wrap_heterogeneous_elements(&values, ts);
        }
    }
    Ok(values)
}

// ---------------------------------------------------------------------------
// Columns
// ---------------------------------------------------------------------------

/// Which rows are null: one byte for each.
pub open spec fn mask_bytes(vs: Seq<ValueView>) -> Seq<u8> {
    Seq::new(
        vs.len(),
        |i: int|
            if vs[i] is Null {
                1u8
            } else {
                0u8
            },
    )
}

/// Whether all values are points.
pub open spec fn all_points(vs: Seq<ValueView>) -> bool {
    forall|i: int| 0 <= i < vs.len() ==> (#[trigger] vs[i]) is Point
}

/// One coordinate of points, as numbers.
pub open spec fn coordinates(vs: Seq<ValueView>, first: bool) -> Seq<ValueView> {
    Seq::new(
        vs.len(),
        |i: int|
            ValueView::Float64(
                if first {
                    vs[i]->Point_0
                } else {
                    vs[i]->Point_1
                },
            ),
    )
}

/// The bytes of a column of values of a type.
pub open spec fn column_bytes(t: TypeView, vs: Seq<ValueView>) -> Written
    decreases type_size(t), 0nat,
{
    if is_cell_type(t) {
        cells_bytes(t, vs)
    } else if is_array_like(t) {
        match rows_of(t, vs) {
            Err(e) => Err(e),
            Ok(rows) => if joined_rows(rows).len() > usize::MAX {
                Err(Error::SerializeError(WriteReason::Overflow))
            } else {
                match wrapped(element_type(t), joined_rows(rows)) {
                    Err(e) => Err(e),
                    Ok(items) => followed(Ok(offset_bytes(rows)), column_bytes(element_type(t), items)),
                }
            },
        }
    } else if let Some(ts) = tuple_fields(t) {
        if types_size(ts) >= type_size(t) {
            arbitrary()
        } else {
            match rows_of(t, vs) {
                Err(e) => Err(e),
                Ok(rows) => field_columns(ts, rows, 0),
            }
        }
    } else {
        match t {
            TypeView::Nullable(inner) => followed(Ok(mask_bytes(vs)), column_bytes(*inner, vs)),
            TypeView::MapOf(k, x) => match rows_of(t, vs) {
                Err(e) => Err(e),
                Ok(rows) => if joined_rows(rows).len() > usize::MAX {
                    Err(Error::SerializeError(WriteReason::Overflow))
                } else {
                    followed(
                        Ok(offset_bytes(rows)),
                        followed(
                            column_bytes(*k, joined_rows(rows)),
                            column_bytes(*x, joined_rows(map_values(vs))),
                        ),
                    )
                },
            },
            TypeView::Point => if all_points(vs) {
                followed(
                    cells_bytes(TypeView::Float64, coordinates(vs, true)),
                    cells_bytes(TypeView::Float64, coordinates(vs, false)),
                )
            } else {
                Err(Error::SerializeError(WriteReason::UnsupportedValue))
            },
            TypeView::Variant(ts) => if !variant_ok(ts) {
                Err(Error::SerializeError(WriteReason::UnsupportedValue))
            } else if !all_variants(vs) {
                Err(Error::SerializeError(WriteReason::ExpectedVariant))
            } else if types_size(sorted_types(ts)) >= type_size(t) {
                arbitrary()
            } else {
                followed(Ok(discriminators_of(vs)), group_columns(sorted_types(ts), vs, 0))
            },
            TypeView::LowCardinality(inner) => low_bytes(*inner, vs),
            TypeView::Dynamic { .. } | TypeView::JSON { .. } => Err(
                Error::SerializeError(WriteReason::StateNotSet),
            ),
            _ => Err(Error::SerializeError(WriteReason::UnsupportedValue)),
        }
    }
}

/// The bytes of the columns of the fields of tuples, from the field `k` on.
pub open spec fn field_columns(ts: Seq<TypeView>, rows: Seq<Seq<ValueView>>, k: nat) -> Written
    decreases types_size(ts), 0nat,
{
    if ts.len() == 0 {
        Ok(Seq::empty())
    } else {
        followed(
            column_bytes(ts[0], column_of(rows, k)),
            field_columns(ts.subrange(1, ts.len() as int), rows, k + 1),
        )
    }
}

/// The bytes of the columns of the types of a variant, from the discriminator `d` on.
/// A type without a row has none.
pub open spec fn group_columns(ts: Seq<TypeView>, vs: Seq<ValueView>, d: nat) -> Written
    decreases types_size(ts), 0nat,
{
    if ts.len() == 0 {
        Ok(Seq::empty())
    } else {
        let group = group_of(vs, d as u8);
        followed(
            if d == NULL_DISCRIMINATOR || group.len() == 0 {
                Ok(Seq::empty())
            } else {
                column_bytes(ts[0], group)
            },
            group_columns(ts.subrange(1, ts.len() as int), vs, d + 1),
        )
    }
}

pub(crate) fn put_mask(out: &mut Vec<u8>, values: &Vec<Value>)
    ensures
        final(out)@ == old(out)@ + mask_bytes(value_views(values@)),
{
    let ghost all = value_views(values@);
    let mut i: usize = 0;
    assert(out@ =~= old(out)@ + mask_bytes(all).take(0));
    while i < values.len()
        invariant
            i <= values.len(),
            all == value_views(values@),
            out@ == old(out)@ + mask_bytes(all).take(i as int),
        decreases values.len() - i,
    {
        assert(all[i as int] == values@[i as int]@);
        match &values[i] {
            Value::Null => out.push(1),
            _ => out.push(0),
        }
        assert(out@ =~= old(out)@ + mask_bytes(all).take(i + 1));
        i += 1;
    }
    assert(mask_bytes(all).take(all.len() as int) =~= mask_bytes(all));
}

/// The coordinates of points.
fn split_points(values: &Vec<Value>) -> (r: Option<(Vec<Value>, Vec<Value>)>)
    ensures
        match r {
            Some((xs, ys)) => {
                &&& all_points(value_views(values@))
                &&& value_views(xs@) == coordinates(value_views(values@), true)
                &&& value_views(ys@) == coordinates(value_views(values@), false)
            },
            None => !all_points(value_views(values@)),
        },
{
    let ghost all = value_views(values@);
    let mut xs: Vec<Value> = Vec::new();
    let mut ys: Vec<Value> = Vec::new();
    let mut i: usize = 0;
    while i < values.len()
        invariant
            i <= values.len(),
            all == value_views(values@),
            xs@.len() == i,
            ys@.len() == i,
            forall|j: int| 0 <= j < i ==> (#[trigger] all[j]) is Point,
            forall|j: int|
                0 <= j < i ==> (#[trigger] xs@[j])@ == coordinates(all, true)[j],
            forall|j: int|
                0 <= j < i ==> (#[trigger] ys@[j])@ == coordinates(all, false)[j],
        decreases values.len() - i,
    {
        assert(all[i as int] == values@[i as int]@);
        match &values[i] {
            Value::Point(p) => {
                xs.push(Value::Float64(p.0));
                ys.push(Value::Float64(p.1));
            },
            _ => {
                assert(!(all[i as int] is Point));
                return None;
            },
        }
        i += 1;
    }
    assert(value_views(xs@) =~= coordinates(all, true));
    assert(value_views(ys@) =~= coordinates(all, false));
    Some((xs, ys))
}

/// The types of named fields.
pub fn types_of_fields(fs: &Vec<(String, Type)>) -> (r: Vec<Type>)
    ensures
        type_views(r@) == field_types(field_views(fs@)),
{
    let mut out: Vec<Type> = Vec::new();
    let mut i: usize = 0;
    while i < fs.len()
        invariant
            i <= fs.len(),
            out@.len() == i,
            forall|j: int| 0 <= j < i ==> (#[trigger] out@[j])@ == fs@[j].1@,
        decreases fs.len() - i,
    {
        out.push(fs[i].1.clone());
        i += 1;
    }
    assert(type_views(out@) =~= field_types(field_views(fs@)));
    out
}

/// The type of the elements of an array-like type.
pub fn type_of_elements(t: &Type) -> (r: Type)
    requires
        is_array_like(t@),
    ensures
        r@ == element_type(t@),
{
    proof {
        t.lemma_view();
    }
    match t {
        Type::Array(inner) => (**inner).clone(),
        Type::Ring => Type::Point,
        Type::Polygon => Type::Ring,
        _ => Type::Polygon,
    }
}

impl Type {
    /// Appends the column of values of this type.
    pub fn serialize_plain_column(&self, values: &Vec<Value>, writer: &mut Vec<u8>) -> (r: Result<()>)
        ensures
            wrote(
                old(writer)@,
                final(writer)@,
                r,
                column_bytes(self@, value_views(values@)),
            ),
        decreases type_size(self@), 1nat,
    {
        proof {
            self.lemma_view();
        }
        if has_cells(self) {
            return put_cells(writer, self, values);
        }
        match self {
            Type::Array(_) | Type::Ring | Type::Polygon | Type::MultiPolygon => {
                serialize_rows(self, values, writer)
            },
            Type::Tuple(ts) => {
                let rows = match split_rows(self, values) {
                    Ok(rows) => rows,
                    Err(e) => return Err(e),
                };
                serialize_fields(ts, &rows, writer)
            },
            Type::TupleNamed(fs) => {
                proof {
                    lemma_fields_size(field_views(fs@));
                }
                let rows = match split_rows(self, values) {
                    Ok(rows) => rows,
                    Err(e) => return Err(e),
                };
                let ts = types_of_fields(fs);
                serialize_fields(&ts, &rows, writer)
            },
            Type::Nullable(inner) => {
                let ghost start = writer@;
                put_mask(writer, values);
                let ghost mid = writer@;
                let r = inner.serialize_plain_column(values, writer);
                proof {
                    let all = value_views(values@);
                    lemma_wrote(
                        start,
                        mid,
                        writer@,
                        r,
                        Ok(mask_bytes(all)),
                        column_bytes(inner@, all),
                    );
                }
                r
            },
            Type::MapOf(_, _) => serialize_map(self, values, writer),
            Type::Point => {
                let (xs, ys) = match split_points(values) {
                    Some(p) => p,
                    None => return Err(Error::SerializeError(WriteReason::UnsupportedValue)),
                };
                let ghost start = writer@;
                match put_cells(writer, &Type::Float64, &xs) {
                    Ok(()) => {},
                    Err(e) => return Err(e),
                }
                let ghost mid = writer@;
                let r = put_cells(writer, &Type::Float64, &ys);
                proof {
                    let all = value_views(values@);
                    lemma_wrote(
                        start,
                        mid,
                        writer@,
                        r,
                        cells_bytes(TypeView::Float64, coordinates(all, true)),
                        cells_bytes(TypeView::Float64, coordinates(all, false)),
                    );
                }
                r
            },
            Type::Variant(_) => serialize_variant(self, values, writer),
            Type::LowCardinality(inner) => put_low(writer, inner, values),
            Type::Dynamic { .. } | Type::JSON { .. } => Err(
                Error::SerializeError(WriteReason::StateNotSet),
            ),
            _ => Err(Error::SerializeError(WriteReason::UnsupportedValue)),
        }
    }
}

fn serialize_rows(t: &Type, values: &Vec<Value>, writer: &mut Vec<u8>) -> (r: Result<()>)
    requires
        is_array_like(t@),
    ensures
        wrote(old(writer)@, final(writer)@, r, column_bytes(t@, value_views(values@))),
    decreases type_size(t@), 0nat,
{
    let ghost all = value_views(values@);
    let rows = match split_rows(t, values) {
        Ok(rows) => rows,
        Err(e) => return Err(e),
    };
    let items = match join_rows(&rows) {
        Some(v) => v,
        None => return Err(Error::SerializeError(WriteReason::Overflow)),
    };
    let inner = type_of_elements(t);
    let ghost start = writer@;
    put_offsets(writer, &rows);
    let ghost mid = writer@;
    let wrapped_items = match wrap_elements(&inner, items) {
        Ok(v) => v,
        Err(e) => return Err(e),
    };
    assert(type_size(inner@) < type_size(t@)) by {
        reveal_with_fuel(type_size, 2);
    }
    let r = inner.serialize_plain_column(&wrapped_items, writer);
    proof {
        lemma_wrote(
            start,
            mid,
            writer@,
            r,
            Ok(offset_bytes(column_views(rows@))),
            column_bytes(inner@, value_views(wrapped_items@)),
        );
    }
    r
}

fn serialize_map(t: &Type, values: &Vec<Value>, writer: &mut Vec<u8>) -> (r: Result<()>)
    requires
        t@ is MapOf,
    ensures
        wrote(old(writer)@, final(writer)@, r, column_bytes(t@, value_views(values@))),
    decreases type_size(t@), 0nat,
{
    let ghost all = value_views(values@);
    proof {
        t.lemma_view();
    }
    if let Type::MapOf(key, value) = t {
        let rows = match split_rows(t, values) {
            Ok(rows) => rows,
            Err(e) => return Err(e),
        };
        let keys = match join_rows(&rows) {
            Some(v) => v,
            None => return Err(Error::SerializeError(WriteReason::Overflow)),
        };
        proof {
            lemma_map_rows(t@, all);
            assert forall|i: int| 0 <= i < values@.len() implies (
            #[trigger] values@[i])@ is MapOf by {
                assert(all[i] is MapOf);
            }
        }
        let value_rows = split_map_values(values);
        let ghost start = writer@;
        put_offsets(writer, &rows);
        let ghost mid = writer@;
        match key.serialize_plain_column(&keys, writer) {
            Ok(()) => {},
            Err(e) => return Err(e),
        }
        let ghost mid2 = writer@;
        let map_items = match join_rows(&value_rows) {
            Some(v) => v,
            None => {
                assert(false);
                return Err(Error::SerializeError(WriteReason::Overflow));
            },
        };
        let r = value.serialize_plain_column(&map_items, writer);
        proof {
            let w1 = column_bytes(key@, joined_rows(column_views(rows@)));
            let w2 = column_bytes(value@, joined_rows(map_values(all)));
            lemma_wrote(mid, mid2, writer@, r, w1, w2);
            lemma_wrote(
                start,
                mid,
                writer@,
                r,
                Ok(offset_bytes(column_views(rows@))),
                followed(w1, w2),
            );
        }
        r
    } else {
        Err(Error::SerializeError(WriteReason::UnsupportedValue))
    }
}

/// Maps hold as many values as keys.
pub proof fn lemma_map_rows(t: TypeView, vs: Seq<ValueView>)
    requires
        t is MapOf,
        rows_of(t, vs) is Ok,
    ensures
        forall|i: int| 0 <= i < vs.len() ==> (#[trigger] vs[i]) is MapOf,
        joined_rows(map_values(vs)).len() == joined_rows(rows_of(t, vs)->Ok_0).len(),
    decreases vs.len(),
{
    if vs.len() > 0 {
        lemma_map_rows(t, vs.drop_last());
        assert(map_values(vs).drop_last() =~= map_values(vs.drop_last()));
        let rows = rows_of(t, vs)->Ok_0;
        assert(rows.drop_last() =~= rows_of(t, vs.drop_last())->Ok_0);
        assert(forall|i: int| 0 <= i < vs.len() - 1 ==> vs[i] == vs.drop_last()[i]);
    }
}

fn serialize_fields(ts: &Vec<Type>, rows: &Vec<Vec<Value>>, writer: &mut Vec<u8>) -> (r: Result<()>)
    ensures
        wrote(
            old(writer)@,
            final(writer)@,
            r,
            field_columns(type_views(ts@), column_views(rows@), 0),
        ),
    decreases types_size(type_views(ts@)), 1nat,
{
    let ghost all = type_views(ts@);
    let ghost rv = column_views(rows@);
    let ghost start = writer@;
    let mut i: usize = 0;
    proof {
        assert(all.subrange(0, all.len() as int) =~= all);
        if let Ok(b) = field_columns(all, rv, 0) {
            assert(start + b =~= writer@ + b);
        }
    }
    while i < ts.len()
        invariant
            i <= ts.len(),
            all == type_views(ts@),
            rv == column_views(rows@),
            types_size(all.subrange(i as int, all.len() as int)) <= types_size(all),
            match field_columns(all.subrange(i as int, all.len() as int), rv, i as nat) {
                Err(e) => field_columns(all, rv, 0) == Err::<Seq<u8>, Error>(e),
                Ok(b) => field_columns(all, rv, 0) is Ok && start + field_columns(
                    all,
                    rv,
                    0,
                )->Ok_0 == writer@ + b,
            },
        decreases ts.len() - i,
    {
        let ghost before = writer@;
        let ghost here = all.subrange(i as int, all.len() as int);
        proof {
            assert(here[0] == ts@[i as int]@);
            assert(here.subrange(1, here.len() as int) =~= all.subrange(i + 1, all.len() as int));
        }
        let column = pick_column(rows, i);
        match ts[i].serialize_plain_column(&column, writer) {
            Ok(()) => {},
            Err(e) => return Err(e),
        }
        proof {
            let w = column_bytes(ts@[i as int]@, column_of(rv, i as nat));
            if let Ok(b) = field_columns(
                all.subrange(i + 1, all.len() as int),
                rv,
                (i + 1) as nat,
            ) {
                assert(before + (w->Ok_0 + b) =~= writer@ + b);
            }
        }
        i += 1;
    }
    assert(writer@ + Seq::<u8>::empty() =~= writer@);
    Ok(())
}

fn serialize_variant(t: &Type, values: &Vec<Value>, writer: &mut Vec<u8>) -> (r: Result<()>)
    requires
        t@ is Variant,
    ensures
        wrote(old(writer)@, final(writer)@, r, column_bytes(t@, value_views(values@))),
    decreases type_size(t@), 0nat,
{
    let ghost all = value_views(values@);
    proof {
        t.lemma_view();
    }
    if let Type::Variant(ts) = t {
        if !is_variant_ok(ts) {
            return Err(Error::SerializeError(WriteReason::UnsupportedValue));
        }
        let map = DiscriminatorMap::new(ts);
        let (discriminators, groups) = match VariantSerializer::extract_discriminators_and_values(
            values,
        ) {
            Ok(p) => p,
            Err(e) => return Err(e),
        };
        let ghost start = writer@;
        put_bytes(writer, discriminators.as_slice());
        let ghost mid = writer@;
        proof {
            lemma_sorted_size(type_views(ts@));
        }
        let r = serialize_groups(&map, &groups, writer, Ghost(all));
        proof {
            lemma_wrote(
                start,
                mid,
                writer@,
                r,
                Ok(discriminators_of(all)),
                group_columns(map@, all, 0),
            );
        }
        r
    } else {
        Err(Error::SerializeError(WriteReason::UnsupportedValue))
    }
}

fn serialize_groups(
    map: &DiscriminatorMap,
    groups: &Vec<Vec<Value>>,
    writer: &mut Vec<u8>,
    Ghost(vs): Ghost<Seq<ValueView>>,
) -> (r: Result<()>)
    requires
        map.wf(),
        groups@.len() == 256,
        forall|d: int|
            0 <= d < 256 ==> value_views((#[trigger] groups@[d])@) == group_of(vs, d as u8),
    ensures
        wrote(old(writer)@, final(writer)@, r, group_columns(map@, vs, 0)),
    decreases types_size(map@), 1nat,
{
    let ghost all = map@;
    let ghost start = writer@;
    let n: usize = map.len();
    let mut i: usize = 0;
    proof {
        assert(all.subrange(0, all.len() as int) =~= all);
    }
    while i < n
        invariant
            i <= n <= 256,
            n == all.len(),
            map.wf(),
            all == map@,
            groups@.len() == 256,
            forall|d: int|
                0 <= d < 256 ==> value_views((#[trigger] groups@[d])@) == group_of(vs, d as u8),
            types_size(all.subrange(i as int, all.len() as int)) <= types_size(all),
            match group_columns(all.subrange(i as int, all.len() as int), vs, i as nat) {
                Err(e) => group_columns(all, vs, 0) == Err::<Seq<u8>, Error>(e),
                Ok(b) => group_columns(all, vs, 0) is Ok && start + group_columns(
                    all,
                    vs,
                    0,
                )->Ok_0 == writer@ + b,
            },
        decreases n - i,
    {
        let ghost before = writer@;
        let ghost here = all.subrange(i as int, all.len() as int);
        proof {
            assert(here[0] == all[i as int]);
            assert(here.subrange(1, here.len() as int) =~= all.subrange(i + 1, all.len() as int));
            assert(value_views(groups@[i as int]@).len() == groups@[i as int]@.len());
        }
        let d: u8 = i as u8;
        if d != NULL_DISCRIMINATOR && groups[i].len() > 0 {
            if let Some(inner) = map.get_type(d) {
                match inner.serialize_plain_column(&groups[i], writer) {
                    Ok(()) => {},
                    Err(e) => return Err(e),
                }
            }
        }
        proof {
            let group = group_of(vs, d);
            let w: Written = if d == NULL_DISCRIMINATOR || group.len() == 0 {
                Ok(Seq::empty())
            } else {
                column_bytes(here[0], group)
            };
            assert(writer@ =~= before + w->Ok_0);
            if let Ok(b) = group_columns(
                all.subrange(i + 1, all.len() as int),
                vs,
                (i + 1) as nat,
            ) {
                assert(before + (w->Ok_0 + b) =~= writer@ + b);
            }
        }
        i += 1;
    }
    assert(writer@ + Seq::<u8>::empty() =~= writer@);
    Ok(())
}

} // verus!
