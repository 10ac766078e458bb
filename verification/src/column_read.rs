//! Reading columns of all types that need no state of their own.
use vstd::prelude::*;

use crate::cells::{get_cells, has_cells, is_cell_type, parsed_cell, parsed_cells};
use crate::columns::{
    element_type, is_array_like, lemma_fields_size, lemma_sorted_size, tuple_fields,
    type_of_elements, type_size, types_of_fields, types_size,
};
use crate::error::{Error, ReadReason, Result};
use crate::low_cardinality::{parsed_low, read_low};
use crate::sparse::{parsed_sparse, read_sparse_with_path, same_path, SparseRuntime, SparseState};
use crate::state::TypeSpecificState;
use crate::type_order::sorted_types;
use crate::types::{field_views, type_views, Type, TypeView};
use crate::values::{
    multi_view, polygon_view, ring_view, value_views, MultiPolygon, Point, Polygon, Ring, Value,
    ValueView,
};
use crate::variant::{
    column_views, is_variant_ok, rank, row_value, variant_ok, DiscriminatorMap, VariantDeserializer,
    NULL_DISCRIMINATOR,
};
use crate::wire::{get_bytes, get_u64_le, parsed_bytes, parsed_uint, Parsed};

verus! {

// ---------------------------------------------------------------------------
// Which columns are sparse
// ---------------------------------------------------------------------------

/// The kind of a column that is sparse.
pub const SPARSE_KIND: u8 = 1;

/// The kinds of the columns within a type, by their paths.
pub struct KindPlan {
    entries: Vec<(Vec<u16>, u8)>,
}

spec fn kind_map(entries: Seq<(Vec<u16>, u8)>) -> Map<Seq<u16>, u8>
    decreases entries.len(),
{
    if entries.len() == 0 {
        Map::empty()
    } else {
        kind_map(entries.drop_last()).insert(entries.last().0@, entries.last().1)
    }
}

/// The kinds that entries tell; a later entry replaces an earlier one with its path.
pub closed spec fn kinds_of(entries: Seq<(Vec<u16>, u8)>) -> Map<Seq<u16>, u8> {
    kind_map(entries)
}

/// An entry tells its kind, whatever stands before it.
pub proof fn lemma_kinds_of(entries: Seq<(Vec<u16>, u8)>)
    ensures
        entries.len() == 0 ==> kinds_of(entries) == Map::<Seq<u16>, u8>::empty(),
        entries.len() > 0 ==> kinds_of(entries) == kinds_of(entries.drop_last()).insert(
            entries.last().0@,
            entries.last().1,
        ),
{
}

impl KindPlan {
    /// The kinds by their paths.
    pub closed spec fn view(&self) -> Map<Seq<u16>, u8> {
        kind_map(self.entries@)
    }

    /// The paths of the sparse columns.
    pub open spec fn sparse(&self) -> Set<Seq<u16>> {
        sparse_paths(self@)
    }

    /// A plan of paths and their kinds.
    pub fn new(entries: Vec<(Vec<u16>, u8)>) -> (r: KindPlan)
        ensures
            r@ == kinds_of(entries@),
    {
        KindPlan { entries }
    }

    /// Whether the column at a path is sparse.
    pub fn is_sparse(&self, path: &Vec<u16>) -> (r: bool)
        ensures
            r == self.sparse().contains(path@),
    {
        let mut i: usize = self.entries.len();
        assert(self.entries@.take(i as int) =~= self.entries@);
        while i > 0
            invariant
                i <= self.entries.len(),
                self.sparse().contains(path@) == sparse_paths(
                    kind_map(self.entries@.take(i as int)),
                ).contains(path@),
            decreases i,
        {
            i -= 1;
            proof {
                let prefix = self.entries@.take(i + 1);
                assert(prefix.drop_last() =~= self.entries@.take(i as int));
                assert(prefix.last() == self.entries@[i as int]);
            }
            if same_path(&self.entries[i].0, path) {
                return self.entries[i].1 == SPARSE_KIND;
            }
        }
        false
    }
}

/// The paths whose kind is sparse.
pub open spec fn sparse_paths(kinds: Map<Seq<u16>, u8>) -> Set<Seq<u16>> {
    Set::new(|p: Seq<u16>| kinds.contains_key(p) && kinds[p] == SPARSE_KIND)
}

/// The states of the sparse columns, by their paths.
pub type States = Map<Seq<u16>, SparseState>;

/// The state at a path; where there is none, nothing is left of an earlier granule.
pub open spec fn state_at(states: States, path: Seq<u16>) -> SparseState {
    if states.contains_key(path) {
        states[path]
    } else {
        SparseState { trailing_defaults: 0, has_value_after_defaults: false }
    }
}

// ---------------------------------------------------------------------------
// Rows that hold several values
// ---------------------------------------------------------------------------

/// Reads behind how many values each of `n` rows ends.
pub open spec fn parsed_offsets(s: Seq<u8>, n: nat) -> Parsed<Seq<u64>>
    decreases n,
{
    if n == 0 {
        Ok((Seq::empty(), s))
    } else {
        match parsed_uint(s, 8) {
            Err(e) => Err(e),
            Ok((x, next)) => match parsed_offsets(next, (n - 1) as nat) {
                Err(e) => Err(e),
                Ok((rest, end)) => Ok((seq![x as u64] + rest, end)),
            },
        }
    }
}

/// The largest of the first `i` offsets.
pub open spec fn reach(offsets: Seq<u64>, i: int) -> nat
    decreases i,
{
    if i <= 0 || i > offsets.len() {
        0
    } else if reach(offsets, i - 1) < offsets[i - 1] {
        offsets[i - 1] as nat
    } else {
        reach(offsets, i - 1)
    }
}

/// Whether no offset is less than the one before it.
pub open spec fn ascending(offsets: Seq<u64>) -> bool {
    forall|i: int, j: int| 0 <= i <= j < offsets.len() ==> offsets[i] <= offsets[j]
}

/// Where no offset is less than the one before it, the last one reaches farthest.
pub proof fn lemma_ascending(offsets: Seq<u64>, i: int)
    requires
        ascending(offsets),
        0 < i <= offsets.len(),
    ensures
        reach(offsets, i) == offsets[i - 1],
    decreases i,
{
    if i > 1 {
        lemma_ascending(offsets, i - 1);
        assert(offsets[i - 2] <= offsets[i - 1]);
    } else {
        assert(reach(offsets, 0) == 0);
    }
}

/// The values of one row: from where the rows before it reach up to where it reaches.
pub open spec fn span(offsets: Seq<u64>, items: Seq<ValueView>, i: int) -> Seq<ValueView> {
    items.subrange(reach(offsets, i) as int, reach(offsets, i + 1) as int)
}

/// The value of an array-like type with the given elements.
pub open spec fn value_of_items(t: TypeView, s: Seq<ValueView>) -> ValueView {
    match t {
        TypeView::Ring => ValueView::Ring(
            Seq::new(s.len(), |i: int| (s[i]->Point_0, s[i]->Point_1)),
        ),
        TypeView::Polygon => ValueView::Polygon(Seq::new(s.len(), |i: int| s[i]->Ring_0)),
        TypeView::MultiPolygon => ValueView::MultiPolygon(
            Seq::new(s.len(), |i: int| s[i]->Polygon_0),
        ),
        _ => ValueView::Array(s),
    }
}

/// The rows of an array-like type whose elements are given.
pub open spec fn array_rows(t: TypeView, offsets: Seq<u64>, items: Seq<ValueView>) -> Seq<
    ValueView,
> {
    Seq::new(offsets.len(), |i: int| value_of_items(t, span(offsets, items, i)))
}

/// The rows of a map type whose keys and values are given.
pub open spec fn map_rows(offsets: Seq<u64>, keys: Seq<ValueView>, values: Seq<ValueView>) -> Seq<
    ValueView,
> {
    Seq::new(
        offsets.len(),
        |i: int| ValueView::MapOf(span(offsets, keys, i), span(offsets, values, i)),
    )
}

/// The values at one row of columns, where they reach that far.
pub open spec fn row_across(columns: Seq<Seq<ValueView>>, r: int) -> Seq<ValueView>
    decreases columns.len(),
{
    if columns.len() == 0 {
        Seq::empty()
    } else {
        let head = row_across(columns.drop_last(), r);
        if r < columns.last().len() {
            head.push(columns.last()[r])
        } else {
            head
        }
    }
}

/// Columns as tuples.
pub open spec fn tuple_rows(columns: Seq<Seq<ValueView>>, n: nat) -> Seq<ValueView> {
    Seq::new(n, |r: int| ValueView::Tuple(row_across(columns, r)))
}

/// Values, of which those that are marked are null.
pub open spec fn masked(vs: Seq<ValueView>, mask: Seq<u8>) -> Seq<ValueView> {
    Seq::new(
        vs.len(),
        |i: int|
            if i < mask.len() && mask[i] != 0 {
                ValueView::Null
            } else {
                vs[i]
            },
    )
}

/// Points of which the coordinates are given.
pub open spec fn points_of(xs: Seq<ValueView>, ys: Seq<ValueView>) -> Seq<ValueView> {
    Seq::new(xs.len(), |i: int| ValueView::Point(xs[i]->Float64_0, ys[i]->Float64_0))
}

/// Whether each discriminator finds its value.
pub open spec fn all_found(ds: Seq<u8>, columns: Seq<Seq<ValueView>>) -> bool {
    forall|i: int|
        0 <= i < ds.len() ==> row_value(
            #[trigger] ds[i],
            rank(ds, ds[i], i) as int,
            columns,
        ) is Some
}

/// The rows of a variant.
pub open spec fn variant_rows(ds: Seq<u8>, columns: Seq<Seq<ValueView>>) -> Seq<ValueView> {
    Seq::new(ds.len(), |i: int| row_value(ds[i], rank(ds, ds[i], i) as int, columns)->0)
}

// ---------------------------------------------------------------------------
// Columns
// ---------------------------------------------------------------------------

/// Reads a column of `n` values of a type that stands at a path.
pub open spec fn parsed_column(
    s: Seq<u8>,
    t: TypeView,
    n: nat,
    plan: Set<Seq<u16>>,
    path: Seq<u16>,
    states: States,
) -> Parsed<(Seq<ValueView>, States)>
    decreases type_size(t), 0nat,
{
    if plan.contains(path) {
        if is_cell_type(t) {
            match parsed_sparse(s, t, n, state_at(states, path)) {
                Err(e) => Err(e),
                Ok(((vs, next), rest)) => Ok(((vs, states.insert(path, next)), rest)),
            }
        } else {
            Err(Error::DeserializeError(ReadReason::UnsupportedType))
        }
    } else if is_cell_type(t) {
        match parsed_cells(s, t, n) {
            Err(e) => Err(e),
            Ok((vs, rest)) => Ok(((vs, states), rest)),
        }
    } else if is_array_like(t) {
        if n == 0 {
            Ok(((Seq::empty(), states), s))
        } else {
            match parsed_offsets(s, n) {
                Err(e) => Err(e),
                Ok((offsets, rest)) => match parsed_column(
                    rest,
                    element_type(t),
                    (offsets.last() as usize) as nat,
                    plan,
                    path.push(0),
                    states,
                ) {
                    Err(e) => Err(e),
                    Ok(((items, next), end)) => if ascending(offsets) && reach(offsets, n as int)
                        <= items.len() {
                        Ok(((array_rows(t, offsets, items), next), end))
                    } else {
                        Err(Error::DeserializeError(ReadReason::RowsOutOfRange))
                    },
                },
            }
        }
    } else if let Some(ts) = tuple_fields(t) {
        if types_size(ts) >= type_size(t) {
            arbitrary()
        } else {
            match parsed_fields(s, ts, n, plan, path, 0, states) {
                Err(e) => Err(e),
                Ok(((columns, next), rest)) => Ok(((tuple_rows(columns, n), next), rest)),
            }
        }
    } else {
        match t {
            TypeView::Nullable(inner) => match parsed_bytes(s, n) {
                Err(e) => Err(e),
                Ok((mask, rest)) => match parsed_column(
                    rest,
                    *inner,
                    n,
                    plan,
                    path.push(0),
                    states,
                ) {
                    Err(e) => Err(e),
                    Ok(((vs, next), end)) => Ok(((masked(vs, mask), next), end)),
                },
            },
            TypeView::MapOf(k, x) => if n == 0 {
                Ok(((Seq::empty(), states), s))
            } else {
                match parsed_offsets(s, n) {
                    Err(e) => Err(e),
                    Ok((offsets, rest)) => {
                        let total = (offsets.last() as usize) as nat;
                        match parsed_column(rest, *k, total, plan, path.push(0), states) {
                            Err(e) => Err(e),
                            Ok(((keys, st), rest2)) => match parsed_column(
                                rest2,
                                *x,
                                total,
                                plan,
                                path.push(1),
                                st,
                            ) {
                                Err(e) => Err(e),
                                Ok(((values, next), end)) => if reach(offsets, n as int)
                                    <= keys.len() && reach(offsets, n as int) <= values.len() {
                                    Ok(((map_rows(offsets, keys, values), next), end))
                                } else {
                                    Err(Error::DeserializeError(ReadReason::RowsOutOfRange))
                                },
                            },
                        }
                    },
                }
            },
            TypeView::Point => match parsed_cells(s, TypeView::Float64, n) {
                Err(e) => Err(e),
                Ok((xs, rest)) => match parsed_cells(rest, TypeView::Float64, n) {
                    Err(e) => Err(e),
                    Ok((ys, end)) => Ok(((points_of(xs, ys), states), end)),
                },
            },
            TypeView::Variant(ts) => if !variant_ok(ts) {
                Err(Error::DeserializeError(ReadReason::UnsupportedType))
            } else if types_size(sorted_types(ts)) >= type_size(t) {
                arbitrary()
            } else {
                match parsed_bytes(s, n) {
                    Err(e) => Err(e),
                    Ok((ds, rest)) => match parsed_groups(rest, sorted_types(ts), ds, 0) {
                        Err(e) => Err(e),
                        Ok((columns, end)) => if all_found(ds, columns) {
                            Ok(((variant_rows(ds, columns), states), end))
                        } else {
                            Err(Error::DeserializeError(ReadReason::InvalidOffset))
                        },
                    },
                }
            },
            TypeView::LowCardinality(inner) => match parsed_low(s, *inner, n) {
                Err(e) => Err(e),
                Ok((vs, rest)) => Ok(((vs, states), rest)),
            },
            TypeView::Dynamic { .. } | TypeView::JSON { .. } => Err(
                Error::DeserializeError(ReadReason::StateNotSet),
            ),
            _ => Err(Error::DeserializeError(ReadReason::UnsupportedType)),
        }
    }
}

/// Reads the columns of the fields of `n` tuples, from the field `k` on.
pub open spec fn parsed_fields(
    s: Seq<u8>,
    ts: Seq<TypeView>,
    n: nat,
    plan: Set<Seq<u16>>,
    path: Seq<u16>,
    k: nat,
    states: States,
) -> Parsed<(Seq<Seq<ValueView>>, States)>
    decreases types_size(ts), 0nat,
{
    if ts.len() == 0 {
        Ok(((Seq::empty(), states), s))
    } else {
        match parsed_column(s, ts[0], n, plan, path.push(k as u16), states) {
            Err(e) => Err(e),
            Ok(((c, st), next)) => match parsed_fields(
                next,
                ts.subrange(1, ts.len() as int),
                n,
                plan,
                path,
                k + 1,
                st,
            ) {
                Err(e) => Err(e),
                Ok(((cs, last), end)) => Ok(((seq![c] + cs, last), end)),
            },
        }
    }
}

/// Reads the columns of the types of a variant, from the discriminator `d` on. A type
/// without a row has none.
pub open spec fn parsed_groups(s: Seq<u8>, ts: Seq<TypeView>, ds: Seq<u8>, d: nat) -> Parsed<
    Seq<Seq<ValueView>>,
>
    decreases types_size(ts), 0nat,
{
    if ts.len() == 0 {
        Ok((Seq::empty(), s))
    } else {
        let count = if d == NULL_DISCRIMINATOR {
            0
        } else {
            rank(ds, d as u8, ds.len() as int)
        };
        let column = if count == 0 {
            Ok(((Seq::empty(), Map::empty()), s))
        } else {
            parsed_column(s, ts[0], count, Set::empty(), Seq::empty(), Map::empty())
        };
        match column {
            Err(e) => Err(e),
            Ok(((c, _), next)) => match parsed_groups(
                next,
                ts.subrange(1, ts.len() as int),
                ds,
                d + 1,
            ) {
                Err(e) => Err(e),
                Ok((cs, end)) => Ok((seq![c] + cs, end)),
            },
        }
    }
}

// ---------------------------------------------------------------------------
// Putting rows together
// ---------------------------------------------------------------------------

/// Reads behind how many values each of `n` rows ends.
pub fn read_offsets(reader: &mut &[u8], n: usize) -> (r: Result<Vec<u64>>)
    ensures
        match r {
            Ok(v) => {
                &&& parsed_offsets(old(reader)@, n as nat) == Ok::<_, Error>((v@, final(reader)@))
                &&& v@.len() == n
            },
            Err(e) => parsed_offsets(old(reader)@, n as nat) == Err::<(Seq<u64>, Seq<u8>), Error>(
                e,
            ),
        },
{
    let mut out: Vec<u64> = Vec::new();
    let mut i: usize = 0;
    proof {
        if let Ok((rest, _)) = parsed_offsets(reader@, n as nat) {
            assert(out@ + rest =~= rest);
        }
    }
    while i < n
        invariant
            i <= n,
            out@.len() == i,
            parsed_offsets(old(reader)@, n as nat) == match parsed_offsets(
                reader@,
                (n - i) as nat,
            ) {
                Err(e) => Err(e),
                Ok((rest, end)) => Ok((out@ + rest, end)),
            },
        decreases n - i,
    {
        let ghost head = out@;
        match get_u64_le(reader) {
            Err(e) => return Err(e),
            Ok(x) => {
                out.push(x);
                proof {
                    if let Ok((rest, _)) = parsed_offsets(reader@, (n - i - 1) as nat) {
                        assert(head + (seq![x] + rest) =~= out@ + rest);
                    }
                }
            },
        }
        i += 1;
    }
    assert(out@ + Seq::<u64>::empty() =~= out@);
    Ok(out)
}

/// How far the offsets reach, if none is less than the one before it.
pub(crate) fn reach_of(offsets: &Vec<u64>) -> (r: (u64, bool))
    ensures
        r.0 == reach(offsets@, offsets@.len() as int),
        r.1 == ascending(offsets@),
{
    let mut max: u64 = 0;
    let mut up: bool = true;
    let mut i: usize = 0;
    while i < offsets.len()
        invariant
            i <= offsets.len(),
            max == reach(offsets@, i as int),
            up ==> forall|j: int, k: int| 0 <= j <= k < i ==> offsets@[j] <= offsets@[k],
            !up ==> !ascending(offsets@),
        decreases offsets.len() - i,
    {
        if i > 0 && offsets[i] < offsets[i - 1] {
            up = false;
        }
        if max < offsets[i] {
            max = offsets[i];
        }
        i += 1;
    }
    (max, up)
}

proof fn lemma_reach(offsets: Seq<u64>, i: int, j: int)
    requires
        0 <= i <= j <= offsets.len(),
    ensures
        reach(offsets, i) <= reach(offsets, j),
    decreases j - i,
{
    if i < j {
        lemma_reach(offsets, i, j - 1);
    }
}

/// The values from one place up to another.
fn take_span(items: &Vec<Value>, from: usize, to: usize) -> (r: Vec<Value>)
    requires
        from <= to <= items@.len(),
    ensures
        value_views(r@) == value_views(items@).subrange(from as int, to as int),
{
    let mut out: Vec<Value> = Vec::new();
    let mut i: usize = from;
    while i < to
        invariant
            from <= i <= to <= items@.len(),
            out@.len() == i - from,
            forall|j: int| 0 <= j < i - from ==> (#[trigger] out@[j])@ == items@[from + j]@,
        decreases to - i,
    {
        out.push(items[i].clone());
        i += 1;
    }
    assert(value_views(out@) =~= value_views(items@).subrange(from as int, to as int));
    out
}

/// Whether the values are what the elements of an array-like type are.
pub(crate) open spec fn are_elements(t: TypeView, s: Seq<ValueView>) -> bool {
    match t {
        TypeView::Ring => forall|i: int| 0 <= i < s.len() ==> (#[trigger] s[i]) is Point,
        TypeView::Polygon => forall|i: int| 0 <= i < s.len() ==> (#[trigger] s[i]) is Ring,
        TypeView::MultiPolygon => forall|i: int|
            0 <= i < s.len() ==> (#[trigger] s[i]) is Polygon,
        _ => true,
    }
}

fn make_ring(items: &Vec<Value>) -> (r: Ring)
    requires
        are_elements(TypeView::Ring, value_views(items@)),
    ensures
        ValueView::Ring(ring_view(r)) == value_of_items(TypeView::Ring, value_views(items@)),
{
    let ghost all = value_views(items@);
    let mut out: Vec<Point> = Vec::new();
    let mut i: usize = 0;
    while i < items.len()
        invariant
            i <= items.len(),
            all == value_views(items@),
            are_elements(TypeView::Ring, all),
            out@.len() == i,
            forall|j: int|
                0 <= j < i ==> (#[trigger] out@[j]) == Point(all[j]->Point_0, all[j]->Point_1),
        decreases items.len() - i,
    {
        assert(all[i as int] == items@[i as int]@);
        if let Value::Point(p) = &items[i] {
            out.push(*p);
        } else {
            assert(false);
        }
        i += 1;
    }
    let r = Ring(out);
    assert(ring_view(r) =~= Seq::new(all.len(), |i: int| (all[i]->Point_0, all[i]->Point_1)));
    r
}

fn make_polygon(items: &Vec<Value>) -> (r: Polygon)
    requires
        are_elements(TypeView::Polygon, value_views(items@)),
    ensures
        ValueView::Polygon(polygon_view(r)) == value_of_items(
            TypeView::Polygon,
            value_views(items@),
        ),
{
    let ghost all = value_views(items@);
    let mut out: Vec<Ring> = Vec::new();
    let mut i: usize = 0;
    while i < items.len()
        invariant
            i <= items.len(),
            all == value_views(items@),
            are_elements(TypeView::Polygon, all),
            out@.len() == i,
            forall|j: int| 0 <= j < i ==> ring_view(#[trigger] out@[j]) == all[j]->Ring_0,
        decreases items.len() - i,
    {
        assert(all[i as int] == items@[i as int]@);
        if let Value::Ring(p) = &items[i] {
            out.push(p.clone());
        } else {
            assert(false);
        }
        i += 1;
    }
    let r = Polygon(out);
    assert(polygon_view(r) =~= Seq::new(all.len(), |i: int| all[i]->Ring_0));
    r
}

fn make_multi(items: &Vec<Value>) -> (r: MultiPolygon)
    requires
        are_elements(TypeView::MultiPolygon, value_views(items@)),
    ensures
        ValueView::MultiPolygon(multi_view(r)) == value_of_items(
            TypeView::MultiPolygon,
            value_views(items@),
        ),
{
    let ghost all = value_views(items@);
    let mut out: Vec<Polygon> = Vec::new();
    let mut i: usize = 0;
    while i < items.len()
        invariant
            i <= items.len(),
            all == value_views(items@),
            are_elements(TypeView::MultiPolygon, all),
            out@.len() == i,
            forall|j: int| 0 <= j < i ==> polygon_view(#[trigger] out@[j]) == all[j]->Polygon_0,
        decreases items.len() - i,
    {
        assert(all[i as int] == items@[i as int]@);
        if let Value::Polygon(p) = &items[i] {
            out.push(p.clone());
        } else {
            assert(false);
        }
        i += 1;
    }
    let r = MultiPolygon(out);
    assert(multi_view(r) =~= Seq::new(all.len(), |i: int| all[i]->Polygon_0));
    r
}

fn make_array(t: &Type, items: Vec<Value>) -> (r: Value)
    requires
        is_array_like(t@),
        are_elements(t@, value_views(items@)),
    ensures
        r@ == value_of_items(t@, value_views(items@)),
{
    match t {
        Type::Ring => Value::Ring(make_ring(&items)),
        Type::Polygon => Value::Polygon(make_polygon(&items)),
        Type::MultiPolygon => Value::MultiPolygon(make_multi(&items)),
        _ => {
            let r = Value::Array(items);
            proof {
                r.lemma_view();
            }
            r
        },
    }
}

pub(crate) fn build_arrays(t: &Type, offsets: &Vec<u64>, items: &Vec<Value>) -> (r: Vec<Value>)
    requires
        is_array_like(t@),
        are_elements(t@, value_views(items@)),
        ascending(offsets@),
        reach(offsets@, offsets@.len() as int) <= items@.len(),
    ensures
        value_views(r@) == array_rows(t@, offsets@, value_views(items@)),
{
    let ghost all = value_views(items@);
    let mut out: Vec<Value> = Vec::new();
    let mut from: usize = 0;
    let mut i: usize = 0;
    while i < offsets.len()
        invariant
            i <= offsets.len(),
            all == value_views(items@),
            is_array_like(t@),
            are_elements(t@, all),
            ascending(offsets@),
            reach(offsets@, offsets@.len() as int) <= items@.len(),
            from == reach(offsets@, i as int),
            out@.len() == i,
            forall|j: int|
                0 <= j < i ==> (#[trigger] out@[j])@ == value_of_items(
                    t@,
                    span(offsets@, all, j),
                ),
        decreases offsets.len() - i,
    {
        proof {
            lemma_reach(offsets@, i + 1, offsets@.len() as int);
            lemma_reach(offsets@, i as int, i + 1);
            lemma_ascending(offsets@, i + 1);
            assert(items.len() <= usize::MAX);
        }
        let to: usize = offsets[i] as usize;
        let part = take_span(items, from, to);
        assert(value_views(part@) == span(offsets@, all, i as int));
        out.push(make_array(t, part));
        from = to;
        i += 1;
    }
    assert(value_views(out@) =~= array_rows(t@, offsets@, all));
    out
}

pub(crate) fn build_maps(offsets: &Vec<u64>, keys: &Vec<Value>, values: &Vec<Value>) -> (r: Vec<Value>)
    requires
        reach(offsets@, offsets@.len() as int) <= keys@.len(),
        reach(offsets@, offsets@.len() as int) <= values@.len(),
    ensures
        value_views(r@) == map_rows(offsets@, value_views(keys@), value_views(values@)),
{
    let ghost kv = value_views(keys@);
    let ghost vv = value_views(values@);
    let mut out: Vec<Value> = Vec::new();
    let mut from: usize = 0;
    let mut i: usize = 0;
    while i < offsets.len()
        invariant
            i <= offsets.len(),
            kv == value_views(keys@),
            vv == value_views(values@),
            reach(offsets@, offsets@.len() as int) <= keys@.len(),
            reach(offsets@, offsets@.len() as int) <= values@.len(),
            from == reach(offsets@, i as int),
            out@.len() == i,
            forall|j: int|
                0 <= j < i ==> (#[trigger] out@[j])@ == ValueView::MapOf(
                    span(offsets@, kv, j),
                    span(offsets@, vv, j),
                ),
        decreases offsets.len() - i,
    {
        proof {
            lemma_reach(offsets@, i + 1, offsets@.len() as int);
            lemma_reach(offsets@, i as int, i + 1);
            assert(keys.len() <= usize::MAX);
        }
        let mut to: usize = from;
        if (from as u64) < offsets[i] {
            to = offsets[i] as usize;
        }
        let k = take_span(keys, from, to);
        let v = take_span(values, from, to);
        let row = Value::MapOf(k, v);
        proof {
            row.lemma_view();
        }
        out.push(row);
        from = to;
        i += 1;
    }
    assert(value_views(out@) =~= map_rows(offsets@, kv, vv));
    out
}

/// The values at one row of columns.
fn pick_row(columns: &Vec<Vec<Value>>, r: usize) -> (out: Vec<Value>)
    ensures
        value_views(out@) == row_across(column_views(columns@), r as int),
{
    let ghost all = column_views(columns@);
    let mut out: Vec<Value> = Vec::new();
    let mut i: usize = 0;
    assert(value_views(out@) =~= Seq::<ValueView>::empty());
    while i < columns.len()
        invariant
            i <= columns.len(),
            all == column_views(columns@),
            value_views(out@) == row_across(all.take(i as int), r as int),
        decreases columns.len() - i,
    {
        let ghost head = value_views(out@);
        proof {
            assert(all.take(i + 1).drop_last() =~= all.take(i as int));
            assert(all.take(i + 1).last() == value_views(columns@[i as int]@));
        }
        if r < columns[i].len() {
            let x = columns[i][r].clone();
            let ghost xv = x@;
            out.push(x);
            assert(value_views(out@) =~= head.push(xv));
        }
        i += 1;
    }
    assert(all.take(all.len() as int) =~= all);
    out
}

/// Columns as tuples.
pub(crate) fn build_tuples(rows: usize, columns: &Vec<Vec<Value>>) -> (out: Vec<Value>)
    ensures
        value_views(out@) == tuple_rows(column_views(columns@), rows as nat),
{
    let mut out: Vec<Value> = Vec::new();
    let mut r: usize = 0;
    while r < rows
        invariant
            r <= rows,
            out@.len() == r,
            forall|j: int|
                0 <= j < r ==> (#[trigger] out@[j])@ == ValueView::Tuple(
                    row_across(column_views(columns@), j),
                ),
        decreases rows - r,
    {
        let v = Value::Tuple(pick_row(columns, r));
        proof {
            v.lemma_view();
        }
        out.push(v);
        r += 1;
    }
    assert(value_views(out@) =~= tuple_rows(column_views(columns@), rows as nat));
    out
}

pub(crate) fn apply_mask(values: &Vec<Value>, mask: &Vec<u8>) -> (out: Vec<Value>)
    ensures
        value_views(out@) == masked(value_views(values@), mask@),
{
    let ghost all = value_views(values@);
    let mut out: Vec<Value> = Vec::new();
    let mut i: usize = 0;
    while i < values.len()
        invariant
            i <= values.len(),
            all == value_views(values@),
            out@.len() == i,
            forall|j: int| 0 <= j < i ==> (#[trigger] out@[j])@ == masked(all, mask@)[j],
        decreases values.len() - i,
    {
        if i < mask.len() && mask[i] != 0 {
            out.push(Value::Null);
        } else {
            out.push(values[i].clone());
        }
        i += 1;
    }
    assert(value_views(out@) =~= masked(all, mask@));
    out
}

proof fn lemma_float_cells(s: Seq<u8>, n: nat)
    ensures
        match parsed_cells(s, TypeView::Float64, n) {
            Ok((vs, _)) => vs.len() == n && forall|i: int|
                0 <= i < n ==> (#[trigger] vs[i]) is Float64,
            Err(_) => true,
        },
    decreases n,
{
    if n > 0 {
        if let Ok((_, next)) = parsed_cell(s, TypeView::Float64) {
            lemma_float_cells(next, (n - 1) as nat);
        }
    }
}

fn build_points(xs: &Vec<Value>, ys: &Vec<Value>) -> (out: Vec<Value>)
    requires
        xs@.len() == ys@.len(),
        forall|i: int| 0 <= i < xs@.len() ==> (#[trigger] xs@[i])@ is Float64,
        forall|i: int| 0 <= i < ys@.len() ==> (#[trigger] ys@[i])@ is Float64,
    ensures
        value_views(out@) == points_of(value_views(xs@), value_views(ys@)),
{
    let mut out: Vec<Value> = Vec::new();
    let mut i: usize = 0;
    while i < xs.len()
        invariant
            i <= xs.len(),
            xs@.len() == ys@.len(),
            forall|i: int| 0 <= i < xs@.len() ==> (#[trigger] xs@[i])@ is Float64,
            forall|i: int| 0 <= i < ys@.len() ==> (#[trigger] ys@[i])@ is Float64,
            out@.len() == i,
            forall|j: int|
                0 <= j < i ==> (#[trigger] out@[j])@ == ValueView::Point(
                    xs@[j]@->Float64_0,
                    ys@[j]@->Float64_0,
                ),
        decreases xs.len() - i,
    {
        assert(xs@[i as int]@ is Float64);
        assert(ys@[i as int]@ is Float64);
        match (&xs[i], &ys[i]) {
            (Value::Float64(x), Value::Float64(y)) => out.push(Value::Point(Point(*x, *y))),
            _ => {
                assert(false);
                out.push(Value::Null);
            },
        }
        i += 1;
    }
    assert(value_views(out@) =~= points_of(value_views(xs@), value_views(ys@)));
    out
}

proof fn lemma_elements(
    s: Seq<u8>,
    t: TypeView,
    n: nat,
    plan: Set<Seq<u16>>,
    path: Seq<u16>,
    states: States,
)
    requires
        is_array_like(t),
        parsed_column(s, element_type(t), n, plan, path, states) is Ok,
    ensures
        are_elements(t, parsed_column(s, element_type(t), n, plan, path, states)->Ok_0.0.0),
{
}

pub(crate) fn child(path: &Vec<u16>, k: u16) -> (r: Vec<u16>)
    ensures
        r@ == path@.push(k),
{
    let mut out: Vec<u16> = Vec::new();
    let mut i: usize = 0;
    while i < path.len()
        invariant
            i <= path.len(),
            out@ == path@.take(i as int),
        decreases path.len() - i,
    {
        out.push(path[i]);
        assert(out@ =~= path@.take(i + 1));
        i += 1;
    }
    out.push(k);
    assert(out@ =~= path@.push(k));
    out
}

fn copy_path(path: &Vec<u16>) -> (r: Vec<u16>)
    ensures
        r@ == path@,
{
    let mut out: Vec<u16> = Vec::new();
    let mut i: usize = 0;
    while i < path.len()
        invariant
            i <= path.len(),
            out@ == path@.take(i as int),
        decreases path.len() - i,
    {
        out.push(path[i]);
        assert(out@ =~= path@.take(i + 1));
        i += 1;
    }
    assert(out@ =~= path@);
    out
}

/// Whether a reader that stood before `before` and stands before `after` gave what was
/// to be read.
pub open spec fn read_as(
    after: Seq<u8>,
    states: States,
    r: Result<Vec<Value>>,
    p: Parsed<(Seq<ValueView>, States)>,
) -> bool {
    match r {
        Ok(v) => p == Ok::<_, Error>(((value_views(v@), states), after)),
        Err(e) => p == Err::<((Seq<ValueView>, States), Seq<u8>), Error>(e),
    }
}

impl Type {
    /// Reads a column of values of this type that stands at a path.
    pub fn deserialize_column_with_path(
        &self,
        reader: &mut &[u8],
        rows: usize,
        plan: &KindPlan,
        runtime: &mut SparseRuntime,
        path: &Vec<u16>,
    ) -> (r: Result<Vec<Value>>)
        ensures
            read_as(
                final(reader)@,
                final(runtime)@,
                r,
                parsed_column(
                    old(reader)@,
                    self@,
                    rows as nat,
                    plan.sparse(),
                    path@,
                    old(runtime)@,
                ),
            ),
        decreases type_size(self@), 1nat,
    {
        proof {
            self.lemma_view();
        }
        if plan.is_sparse(path) {
            if !has_cells(self) {
                return Err(Error::DeserializeError(ReadReason::UnsupportedType));
            }
            return read_sparse_with_path(self, reader, rows, runtime, copy_path(path));
        }
        if has_cells(self) {
            return get_cells(reader, self, rows);
        }
        match self {
            Type::Array(_) | Type::Ring | Type::Polygon | Type::MultiPolygon => {
                read_arrays(self, reader, rows, plan, runtime, path)
            },
            Type::Tuple(ts) => {
                match read_fields(ts, reader, rows, plan, runtime, path) {
                    Ok(columns) => Ok(build_tuples(rows, &columns)),
                    Err(e) => Err(e),
                }
            },
            Type::TupleNamed(fs) => {
                proof {
                    lemma_fields_size(field_views(fs@));
                }
                let ts = types_of_fields(fs);
                match read_fields(&ts, reader, rows, plan, runtime, path) {
                    Ok(columns) => Ok(build_tuples(rows, &columns)),
                    Err(e) => Err(e),
                }
            },
            Type::Nullable(inner) => {
                let mask = match get_bytes(reader, rows) {
                    Ok(b) => b,
                    Err(e) => return Err(e),
                };
                match inner.deserialize_column_with_path(
                    reader,
                    rows,
                    plan,
                    runtime,
                    &child(path, 0),
                ) {
                    Ok(values) => Ok(apply_mask(&values, &mask)),
                    Err(e) => Err(e),
                }
            },
            Type::MapOf(_, _) => read_maps(self, reader, rows, plan, runtime, path),
            Type::Point => {
                proof {
                    lemma_float_cells(reader@, rows as nat);
                }
                let xs = match get_cells(reader, &Type::Float64, rows) {
                    Ok(v) => v,
                    Err(e) => return Err(e),
                };
                proof {
                    lemma_float_cells(reader@, rows as nat);
                    assert forall|i: int| 0 <= i < xs@.len() implies (
                    #[trigger] xs@[i])@ is Float64 by {
                        assert(value_views(xs@)[i] is Float64);
                    }
                }
                let ys = match get_cells(reader, &Type::Float64, rows) {
                    Ok(v) => v,
                    Err(e) => return Err(e),
                };
                proof {
                    assert forall|i: int| 0 <= i < ys@.len() implies (
                    #[trigger] ys@[i])@ is Float64 by {
                        assert(value_views(ys@)[i] is Float64);
                    }
                }
                Ok(build_points(&xs, &ys))
            },
            Type::Variant(_) => read_variants(self, reader, rows, plan, runtime, path),
            Type::LowCardinality(inner) => read_low(inner, reader, rows),
            Type::Dynamic { .. } | Type::JSON { .. } => Err(
                Error::DeserializeError(ReadReason::StateNotSet),
            ),
            _ => Err(Error::DeserializeError(ReadReason::UnsupportedType)),
        }
    }
}

fn read_arrays(
    t: &Type,
    reader: &mut &[u8],
    rows: usize,
    plan: &KindPlan,
    runtime: &mut SparseRuntime,
    path: &Vec<u16>,
) -> (r: Result<Vec<Value>>)
    requires
        is_array_like(t@),
        !plan.sparse().contains(path@),
    ensures
        read_as(
            final(reader)@,
            final(runtime)@,
            r,
            parsed_column(old(reader)@, t@, rows as nat, plan.sparse(), path@, old(runtime)@),
        ),
    decreases type_size(t@), 0nat,
{
    if rows == 0 {
        let out: Vec<Value> = Vec::new();
        assert(value_views(out@) =~= Seq::<ValueView>::empty());
        return Ok(out);
    }
    let offsets = match read_offsets(reader, rows) {
        Ok(v) => v,
        Err(e) => return Err(e),
    };
    let inner = type_of_elements(t);
    let last: u64 = offsets[offsets.len() - 1];
    assert(type_size(inner@) < type_size(t@)) by {
        reveal_with_fuel(type_size, 2);
    }
    let ghost rest = reader@;
    let ghost before = runtime@;
    let items = match inner.deserialize_column_with_path(
        reader,
        last as usize,
        plan,
        runtime,
        &child(path, 0),
    ) {
        Ok(v) => v,
        Err(e) => return Err(e),
    };
    proof {
        lemma_elements(
            rest,
            t@,
            (last as usize) as nat,
            plan.sparse(),
            path@.push(0),
            before,
        );
    }
    let (max, up) = reach_of(&offsets);
    assert(value_views(items@).len() == items@.len());
    if !up || max > items.len() as u64 {
        return Err(Error::DeserializeError(ReadReason::RowsOutOfRange));
    }
    Ok(build_arrays(t, &offsets, &items))
}

fn read_maps(
    t: &Type,
    reader: &mut &[u8],
    rows: usize,
    plan: &KindPlan,
    runtime: &mut SparseRuntime,
    path: &Vec<u16>,
) -> (r: Result<Vec<Value>>)
    requires
        t@ is MapOf,
        !plan.sparse().contains(path@),
    ensures
        read_as(
            final(reader)@,
            final(runtime)@,
            r,
            parsed_column(old(reader)@, t@, rows as nat, plan.sparse(), path@, old(runtime)@),
        ),
    decreases type_size(t@), 0nat,
{
    proof {
        t.lemma_view();
    }
    if let Type::MapOf(key, value) = t {
        if rows == 0 {
            let out: Vec<Value> = Vec::new();
            assert(value_views(out@) =~= Seq::<ValueView>::empty());
            return Ok(out);
        }
        let offsets = match read_offsets(reader, rows) {
            Ok(v) => v,
            Err(e) => return Err(e),
        };
        let last: u64 = offsets[offsets.len() - 1];
        let keys = match key.deserialize_column_with_path(
            reader,
            last as usize,
            plan,
            runtime,
            &child(path, 0),
        ) {
            Ok(v) => v,
            Err(e) => return Err(e),
        };
        let values = match value.deserialize_column_with_path(
            reader,
            last as usize,
            plan,
            runtime,
            &child(path, 1),
        ) {
            Ok(v) => v,
            Err(e) => return Err(e),
        };
        let (max, _) = reach_of(&offsets);
        assert(value_views(keys@).len() == keys@.len());
        assert(value_views(values@).len() == values@.len());
        if max > keys.len() as u64 || max > values.len() as u64 {
            return Err(Error::DeserializeError(ReadReason::RowsOutOfRange));
        }
        Ok(build_maps(&offsets, &keys, &values))
    } else {
        Err(Error::DeserializeError(ReadReason::UnsupportedType))
    }
}

fn read_fields(
    ts: &Vec<Type>,
    reader: &mut &[u8],
    rows: usize,
    plan: &KindPlan,
    runtime: &mut SparseRuntime,
    path: &Vec<u16>,
) -> (r: Result<Vec<Vec<Value>>>)
    ensures
        match r {
            Ok(v) => parsed_fields(
                old(reader)@,
                type_views(ts@),
                rows as nat,
                plan.sparse(),
                path@,
                0,
                old(runtime)@,
            ) == Ok::<_, Error>(((column_views(v@), final(runtime)@), final(reader)@)),
            Err(e) => parsed_fields(
                old(reader)@,
                type_views(ts@),
                rows as nat,
                plan.sparse(),
                path@,
                0,
                old(runtime)@,
            ) == Err::<((Seq<Seq<ValueView>>, States), Seq<u8>), Error>(e),
        },
    decreases types_size(type_views(ts@)), 1nat,
{
    let ghost all = type_views(ts@);
    let ghost sparse = plan.sparse();
    let ghost whole = parsed_fields(reader@, all, rows as nat, sparse, path@, 0, runtime@);
    let mut out: Vec<Vec<Value>> = Vec::new();
    let mut i: usize = 0;
    proof {
        assert(all.subrange(0, all.len() as int) =~= all);
        if let Ok(((cs, _), _)) = whole {
            assert(column_views(out@) + cs =~= cs);
        }
    }
    while i < ts.len()
        invariant
            i <= ts.len(),
            all == type_views(ts@),
            sparse == plan.sparse(),
            whole == parsed_fields(
                old(reader)@,
                all,
                rows as nat,
                sparse,
                path@,
                0,
                old(runtime)@,
            ),
            types_size(all.subrange(i as int, all.len() as int)) <= types_size(all),
            whole == match parsed_fields(
                reader@,
                all.subrange(i as int, all.len() as int),
                rows as nat,
                sparse,
                path@,
                i as nat,
                runtime@,
            ) {
                Err(e) => Err(e),
                Ok(((cs, st), end)) => Ok(((column_views(out@) + cs, st), end)),
            },
        decreases ts.len() - i,
    {
        let ghost head = column_views(out@);
        let ghost here = all.subrange(i as int, all.len() as int);
        proof {
            assert(here[0] == ts@[i as int]@);
            assert(here.subrange(1, here.len() as int) =~= all.subrange(i + 1, all.len() as int));
        }
        match ts[i].deserialize_column_with_path(
            reader,
            rows,
            plan,
            runtime,
            &child(path, i as u16),
        ) {
            Err(e) => return Err(e),
            Ok(v) => {
                let ghost vv = value_views(v@);
                out.push(v);
                proof {
                    assert(column_views(out@) =~= head.push(vv));
                    if let Ok(((cs, _), _)) = parsed_fields(
                        reader@,
                        all.subrange(i + 1, all.len() as int),
                        rows as nat,
                        sparse,
                        path@,
                        (i + 1) as nat,
                        runtime@,
                    ) {
                        assert(head + (seq![vv] + cs) =~= column_views(out@) + cs);
                    }
                }
            },
        }
        i += 1;
    }
    assert(column_views(out@) + Seq::<Seq<ValueView>>::empty() =~= column_views(out@));
    Ok(out)
}

fn read_variants(
    t: &Type,
    reader: &mut &[u8],
    rows: usize,
    plan: &KindPlan,
    runtime: &mut SparseRuntime,
    path: &Vec<u16>,
) -> (r: Result<Vec<Value>>)
    requires
        t@ is Variant,
        !plan.sparse().contains(path@),
    ensures
        read_as(
            final(reader)@,
            final(runtime)@,
            r,
            parsed_column(old(reader)@, t@, rows as nat, plan.sparse(), path@, old(runtime)@),
        ),
    decreases type_size(t@), 0nat,
{
    proof {
        t.lemma_view();
    }
    if let Type::Variant(ts) = t {
        if !is_variant_ok(ts) {
            return Err(Error::DeserializeError(ReadReason::UnsupportedType));
        }
        proof {
            lemma_sorted_size(type_views(ts@));
        }
        let map = DiscriminatorMap::new(ts);
        let discriminators = match get_bytes(reader, rows) {
            Ok(b) => b,
            Err(e) => return Err(e),
        };
        let (offsets, counts) = VariantDeserializer::build_offsets_and_counts(&discriminators);
        let columns = match read_groups(map.types(), reader, &counts, Ghost(discriminators@)) {
            Ok(c) => c,
            Err(e) => return Err(e),
        };
        let ghost cols = column_views(columns@);
        let ghost ds = discriminators@;
        proof {
            assert forall|i: int| 0 <= i < ds.len() implies row_value(
                #[trigger] ds[i],
                rank(ds, ds[i], i) as int,
                cols,
            ) == row_value(ds[i], offsets@[i] as int, cols) by {
                assert(offsets@[i] == (if ds[i] == NULL_DISCRIMINATOR {
                    0
                } else {
                    rank(ds, ds[i], i)
                }));
            }
        }
        match VariantDeserializer::reconstruct_values(&discriminators, &offsets, &columns) {
            Ok(v) => {
                proof {
                    assert forall|i: int| 0 <= i < ds.len() implies row_value(
                        #[trigger] ds[i],
                        rank(ds, ds[i], i) as int,
                        cols,
                    ) is Some by {
                        assert(row_value(ds[i], offsets@[i] as int, cols) == Some(v@[i]@));
                    }
                    assert(value_views(v@) =~= variant_rows(ds, cols));
                }
                Ok(v)
            },
            Err(e) => Err(e),
        }
    } else {
        Err(Error::DeserializeError(ReadReason::UnsupportedType))
    }
}

/// Reads the columns of types that discriminators tell apart.
pub(crate) fn read_groups(
    types: &Vec<Type>,
    reader: &mut &[u8],
    counts: &Vec<usize>,
    Ghost(ds): Ghost<Seq<u8>>,
) -> (r: Result<Vec<Vec<Value>>>)
    requires
        types@.len() <= 256,
        counts@.len() == 256,
        forall|d: int|
            0 <= d < 256 ==> (#[trigger] counts@[d]) == (if d == NULL_DISCRIMINATOR {
                0
            } else {
                rank(ds, d as u8, ds.len() as int)
            }),
    ensures
        match r {
            Ok(v) => parsed_groups(old(reader)@, type_views(types@), ds, 0) == Ok::<_, Error>(
                (column_views(v@), final(reader)@),
            ),
            Err(e) => parsed_groups(old(reader)@, type_views(types@), ds, 0) == Err::<
                (Seq<Seq<ValueView>>, Seq<u8>),
                Error,
            >(e),
        },
    decreases types_size(type_views(types@)), 1nat,
{
    let ghost all = type_views(types@);
    let ghost whole = parsed_groups(reader@, all, ds, 0);
    let mut out: Vec<Vec<Value>> = Vec::new();
    let n: usize = types.len();
    let mut i: usize = 0;
    let plan = KindPlan::new(Vec::new());
    let root: Vec<u16> = Vec::new();
    proof {
        assert(plan.sparse() =~= Set::<Seq<u16>>::empty());
        assert(all.subrange(0, all.len() as int) =~= all);
        if let Ok((cs, _)) = whole {
            assert(column_views(out@) + cs =~= cs);
        }
    }
    while i < n
        invariant
            i <= n <= 256,
            n == all.len(),
            n == types.len(),
            all == type_views(types@),
            root@ == Seq::<u16>::empty(),
            plan.sparse() == Set::<Seq<u16>>::empty(),
            counts@.len() == 256,
            forall|d: int|
                0 <= d < 256 ==> (#[trigger] counts@[d]) == (if d == NULL_DISCRIMINATOR {
                    0
                } else {
                    rank(ds, d as u8, ds.len() as int)
                }),
            whole == parsed_groups(old(reader)@, all, ds, 0),
            types_size(all.subrange(i as int, all.len() as int)) <= types_size(all),
            whole == match parsed_groups(
                reader@,
                all.subrange(i as int, all.len() as int),
                ds,
                i as nat,
            ) {
                Err(e) => Err(e),
                Ok((cs, end)) => Ok((column_views(out@) + cs, end)),
            },
        decreases n - i,
    {
        let ghost head = column_views(out@);
        let ghost here = all.subrange(i as int, all.len() as int);
        proof {
            assert(here[0] == all[i as int]);
            assert(here.subrange(1, here.len() as int) =~= all.subrange(i + 1, all.len() as int));
        }
        let count: usize = counts[i];
        let mut column: Vec<Value> = Vec::new();
        assert(value_views(column@) =~= Seq::<ValueView>::empty());
        if count > 0 {
            let mut runtime = SparseRuntime::new();
            column = match types[i].deserialize_column_with_path(
                reader,
                count,
                &plan,
                &mut runtime,
                &root,
            ) {
                Ok(v) => v,
                Err(e) => return Err(e),
            };
        }
        let ghost vv = value_views(column@);
        out.push(column);
        proof {
            assert(column_views(out@) =~= head.push(vv));
            if let Ok((cs, _)) = parsed_groups(
                reader@,
                all.subrange(i + 1, all.len() as int),
                ds,
                (i + 1) as nat,
            ) {
                assert(head + (seq![vv] + cs) =~= column_views(out@) + cs);
            }
        }
        i += 1;
    }
    assert(column_views(out@) + Seq::<Seq<ValueView>>::empty() =~= column_views(out@));
    Ok(out)
}

// ---------------------------------------------------------------------------
// State
// ---------------------------------------------------------------------------

/// What reading a column needs to know besides its type.
pub struct DeserializerState {
    /// The kinds of the columns within the type. Without them no column is sparse.
    pub kind_plan: Option<KindPlan>,
    /// What earlier granules of sparse columns have left.
    pub sparse: SparseRuntime,
    /// What stands before the column has told of it.
    pub type_specific: TypeSpecificState,
}

impl DeserializerState {
    /// The paths of the sparse columns.
    pub open spec fn plan(&self) -> Set<Seq<u16>> {
        match self.kind_plan {
            Some(p) => p.sparse(),
            None => Set::empty(),
        }
    }

    /// No sparse columns.
    pub fn new() -> (r: DeserializerState)
        ensures
            r.kind_plan is None,
            r.sparse@ == Map::<Seq<u16>, SparseState>::empty(),
            r.type_specific is Nothing,
    {
        DeserializerState {
            kind_plan: None,
            sparse: SparseRuntime::new(),
            type_specific: TypeSpecificState::Nothing,
        }
    }
}

impl Default for DeserializerState {
    fn default() -> (r: DeserializerState)
        ensures
            r.kind_plan is None,
            r.sparse@ == Map::<Seq<u16>, SparseState>::empty(),
            r.type_specific is Nothing,
    {
        DeserializerState::new()
    }
}

/// A plan by which no column is sparse.
pub(crate) fn no_plan() -> (r: KindPlan)
    ensures
        r.sparse() == Set::<Seq<u16>>::empty(),
{
    let plan = KindPlan::new(Vec::new());
    assert(plan.sparse() =~= Set::<Seq<u16>>::empty());
    plan
}

impl Type {
    /// Reads a column of values of this type.
    pub fn deserialize_plain_column(
        &self,
        reader: &mut &[u8],
        rows: usize,
        state: &mut DeserializerState,
    ) -> (r: Result<Vec<Value>>)
        ensures
            read_as(
                final(reader)@,
                final(state).sparse@,
                r,
                parsed_column(
                    old(reader)@,
                    self@,
                    rows as nat,
                    old(state).plan(),
                    Seq::empty(),
                    old(state).sparse@,
                ),
            ),
            final(state).kind_plan == old(state).kind_plan,
            final(state).type_specific == old(state).type_specific,
    {
        let root: Vec<u16> = Vec::new();
        assert(root@ =~= Seq::<u16>::empty());
        match &state.kind_plan {
            Some(plan) => self.deserialize_column_with_path(
                reader,
                rows,
                plan,
                &mut state.sparse,
                &root,
            ),
            None => {
                let plan = no_plan();
                self.deserialize_column_with_path(reader, rows, &plan, &mut state.sparse, &root)
            },
        }
    }
}

} // verus!
