//! What is written as a column is read back.
use vstd::prelude::*;

use crate::cell_laws::{cell_fits, law_cells_read_back};
use crate::cells::{cell_bytes, cells_bytes, is_cell_type};
use crate::column_read::{
    array_rows, ascending, map_rows, masked, parsed_column, parsed_fields, parsed_groups,
    parsed_offsets, points_of, reach, row_across, span, tuple_rows, value_of_items, variant_rows,
    States,
};
use crate::columns::{
    all_points, column_bytes, column_of, coordinates, element_type, field_columns, field_types,
    group_columns, is_array_like, joined_rows, lemma_fields_size, lemma_map_rows, lemma_rows_len,
    lemma_sorted_size, map_values, mask_bytes, offset_bytes, row_items, rows_of, some_bare,
    tuple_fields, type_size, types_size, wrapped,
};
use crate::error::Error;
use crate::low_cardinality::{law_low_reads_back, low_fits};
use crate::prefixes::{parsed_prefix, parsed_prefixes, prefix_bytes, prefixes_bytes};
use crate::guess::default_of;
use crate::type_order::sorted_types;
use crate::types::TypeView;
use crate::values::ValueView;
use crate::variant::{
    all_variants, discriminators_of, group_of, lemma_group_len, lemma_group_rank, rank, row_value,
    variant_ok, NULL_DISCRIMINATOR,
};
use crate::wire::{law_uint_reads_back, le_bytes, lemma_pow256, parsed_bytes};

verus! {

// ---------------------------------------------------------------------------
// Columns of values of a type
// ---------------------------------------------------------------------------

/// Whether the values of a column are values of the type, and at each level no more
/// than an index can count.
pub open spec fn column_fits(t: TypeView, vs: Seq<ValueView>) -> bool
    decreases type_size(t), 0nat,
{
    if is_cell_type(t) {
        forall|i: int| 0 <= i < vs.len() ==> cell_fits(#[trigger] vs[i], t)
    } else if is_array_like(t) {
        match rows_of(t, vs) {
            Err(_) => false,
            Ok(rows) => joined_rows(rows).len() <= usize::MAX && column_fits(
                element_type(t),
                joined_rows(rows),
            ),
        }
    } else if let Some(ts) = tuple_fields(t) {
        if types_size(ts) >= type_size(t) {
            arbitrary()
        } else {
            match rows_of(t, vs) {
                Err(_) => false,
                Ok(rows) => all_long(rows, ts.len()) && fields_fit(ts, rows, 0),
            }
        }
    } else {
        match t {
            TypeView::Nullable(inner) => if is_cell_type(*inner) {
                forall|i: int|
                    0 <= i < vs.len() ==> cell_fits(filled(#[trigger] vs[i], *inner), *inner)
            } else {
                no_nulls(vs) && column_fits(*inner, vs)
            },
            TypeView::MapOf(k, x) => match rows_of(t, vs) {
                Err(_) => false,
                Ok(rows) => {
                    &&& joined_rows(rows).len() <= usize::MAX
                    &&& column_fits(*k, joined_rows(rows))
                    &&& column_fits(*x, joined_rows(map_values(vs)))
                },
            },
            TypeView::Point => all_points(vs),
            TypeView::LowCardinality(inner) => low_fits(*inner, vs),
            TypeView::Variant(ts) => if types_size(sorted_types(ts)) >= type_size(t) {
                arbitrary()
            } else {
                &&& variant_ok(ts)
                &&& all_variants(vs)
                &&& all_known(vs, ts.len())
                &&& groups_fit(sorted_types(ts), vs, 0)
            },
            _ => false,
        }
    }
}

/// Whether the fields of tuples are values of their types, from the field `k` on.
pub open spec fn fields_fit(ts: Seq<TypeView>, rows: Seq<Seq<ValueView>>, k: nat) -> bool
    decreases types_size(ts), 0nat,
{
    ts.len() == 0 || {
        &&& column_fits(ts[0], column_of(rows, k))
        &&& fields_fit(ts.subrange(1, ts.len() as int), rows, k + 1)
    }
}

/// Whether the values of a variant are values of their types, from the discriminator
/// `d` on.
pub open spec fn groups_fit(ts: Seq<TypeView>, vs: Seq<ValueView>, d: nat) -> bool
    decreases types_size(ts), 0nat,
{
    ts.len() == 0 || {
        &&& d != NULL_DISCRIMINATOR ==> column_fits(ts[0], group_of(vs, d as u8))
        &&& groups_fit(ts.subrange(1, ts.len() as int), vs, d + 1)
    }
}

/// Whether all rows hold `n` values.
pub open spec fn all_long(rows: Seq<Seq<ValueView>>, n: nat) -> bool {
    forall|i: int| 0 <= i < rows.len() ==> (#[trigger] rows[i]).len() == n
}

/// Whether no value is null.
pub open spec fn no_nulls(vs: Seq<ValueView>) -> bool {
    forall|i: int| 0 <= i < vs.len() ==> !((#[trigger] vs[i]) is Null)
}

/// Whether the discriminators of variant values are those of `n` types, or that of null.
pub open spec fn all_known(vs: Seq<ValueView>, n: nat) -> bool {
    forall|i: int|
        0 <= i < vs.len() ==> {
            let d = (#[trigger] vs[i])->Variant_0;
            if d == NULL_DISCRIMINATOR {
                *(vs[i]->Variant_1) == ValueView::Null
            } else {
                d < n
            }
        }
}

/// A value, or what is written in place of null.
pub open spec fn filled(v: ValueView, t: TypeView) -> ValueView {
    if v is Null {
        default_of(t)
    } else {
        v
    }
}

// ---------------------------------------------------------------------------
// Offsets
// ---------------------------------------------------------------------------

/// The offsets of rows.
pub open spec fn offsets_of(rows: Seq<Seq<ValueView>>) -> Seq<u64> {
    Seq::new(rows.len(), |i: int| joined_rows(rows.take(i + 1)).len() as u64)
}

pub(crate) proof fn lemma_joined_prefix(rows: Seq<Seq<ValueView>>, n: int)
    requires
        0 <= n <= rows.len(),
    ensures
        joined_rows(rows.take(n)).len() <= joined_rows(rows).len(),
        joined_rows(rows).take(joined_rows(rows.take(n)).len() as int) == joined_rows(
            rows.take(n),
        ),
    decreases rows.len() - n,
{
    if n == rows.len() {
        assert(rows.take(n) =~= rows);
        assert(joined_rows(rows).take(joined_rows(rows).len() as int) =~= joined_rows(rows));
    } else {
        lemma_joined_prefix(rows, n + 1);
        assert(rows.take(n + 1).drop_last() =~= rows.take(n));
        let a = joined_rows(rows.take(n));
        let b = joined_rows(rows.take(n + 1));
        assert(b == a + rows[n]);
        assert(joined_rows(rows).take(a.len() as int) =~= joined_rows(rows).take(
            b.len() as int,
        ).take(a.len() as int));
        assert(b.take(a.len() as int) =~= a);
    }
}

proof fn lemma_offsets(rows: Seq<Seq<ValueView>>, i: int)
    requires
        0 <= i <= rows.len(),
        joined_rows(rows).len() <= usize::MAX,
    ensures
        reach(offsets_of(rows), i) == joined_rows(rows.take(i)).len(),
        i < rows.len() ==> span(offsets_of(rows), joined_rows(rows), i) == rows[i],
    decreases i,
{
    let offsets = offsets_of(rows);
    lemma_joined_prefix(rows, i);
    if i > 0 {
        lemma_offsets(rows, i - 1);
        assert(rows.take(i).drop_last() =~= rows.take(i - 1));
        assert(offsets[i - 1] == joined_rows(rows.take(i)).len());
    }
    if i < rows.len() {
        lemma_joined_prefix(rows, i + 1);
        assert(rows.take(i + 1).drop_last() =~= rows.take(i));
        let a = joined_rows(rows.take(i));
        let b = joined_rows(rows.take(i + 1));
        assert(b == a + rows[i]);
        assert(offsets[i] == b.len());
        assert(reach(offsets, i + 1) == b.len());
        assert(joined_rows(rows).subrange(a.len() as int, b.len() as int) =~= rows[i]) by {
            assert forall|j: int| 0 <= j < rows[i].len() implies joined_rows(rows)[a.len() + j]
                == rows[i][j] by {
                assert(joined_rows(rows).take(b.len() as int)[a.len() + j] == b[a.len() + j]);
            }
        }
    }
}

proof fn lemma_offsets_ascend(rows: Seq<Seq<ValueView>>)
    requires
        joined_rows(rows).len() <= usize::MAX,
    ensures
        ascending(offsets_of(rows)),
{
    let offsets = offsets_of(rows);
    assert forall|i: int, j: int| 0 <= i <= j < offsets.len() implies offsets[i] <= offsets[j] by {
        lemma_joined_prefix(rows, i + 1);
        lemma_joined_prefix(rows, j + 1);
        lemma_joined_prefix(rows.take(j + 1), i + 1);
        assert(rows.take(j + 1).take(i + 1) =~= rows.take(i + 1));
    }
}

proof fn lemma_offsets_append(s: Seq<u8>, n: nat, x: nat, rest: Seq<u8>, head: Seq<u64>)
    requires
        parsed_offsets(s, n) == Ok::<_, Error>((head, le_bytes(x, 8) + rest)),
        x <= u64::MAX,
    ensures
        parsed_offsets(s, n + 1) == Ok::<_, Error>((head.push(x as u64), rest)),
    decreases n,
{
    if n == 0 {
        lemma_pow256();
        law_uint_reads_back(x, 8, rest);
        assert(parsed_offsets(rest, 0) == Ok::<_, Error>((Seq::<u64>::empty(), rest)));
        assert(head =~= Seq::<u64>::empty());
        assert(seq![x as u64] + Seq::<u64>::empty() =~= head.push(x as u64));
    } else {
        let (y, next) = crate::wire::parsed_uint(s, 8)->Ok_0;
        let tail = parsed_offsets(next, (n - 1) as nat)->Ok_0.0;
        lemma_offsets_append(next, (n - 1) as nat, x, rest, tail);
        assert(seq![y as u64] + tail.push(x as u64) =~= head.push(x as u64));
    }
}

pub(crate) proof fn lemma_offsets_read_back(rows: Seq<Seq<ValueView>>, rest: Seq<u8>)
    requires
        joined_rows(rows).len() <= usize::MAX,
    ensures
        parsed_offsets(offset_bytes(rows) + rest, rows.len()) == Ok::<_, Error>(
            (offsets_of(rows), rest),
        ),
    decreases rows.len(),
{
    if rows.len() == 0 {
        assert(offset_bytes(rows) + rest =~= rest);
        assert(offsets_of(rows) =~= Seq::<u64>::empty());
    } else {
        let head = rows.drop_last();
        let x = joined_rows(rows).len();
        let tail = le_bytes(x, 8) + rest;
        lemma_joined_prefix(rows, rows.len() - 1);
        assert(rows.take(rows.len() - 1) =~= head);
        lemma_offsets_read_back(head, tail);
        assert(offset_bytes(head) + tail =~= offset_bytes(rows) + rest);
        lemma_offsets_append(
            offset_bytes(rows) + rest,
            head.len(),
            x,
            rest,
            offsets_of(head),
        );
        assert(offsets_of(rows) =~= offsets_of(head).push(x as u64)) by {
            assert(rows.take(rows.len() as int) =~= rows);
            assert forall|i: int| 0 <= i < head.len() implies offsets_of(rows)[i] == offsets_of(
                head,
            )[i] by {
                assert(rows.take(i + 1) =~= head.take(i + 1));
            }
        }
    }
}

// ---------------------------------------------------------------------------
// Empty columns
// ---------------------------------------------------------------------------

/// A column without values takes no bytes.
pub proof fn law_empty_column(t: TypeView)
    requires
        column_fits(t, Seq::empty()),
    ensures
        column_bytes(t, Seq::empty()) == Ok::<_, Error>(Seq::<u8>::empty()),
    decreases type_size(t), 0nat,
{
    let none = Seq::<ValueView>::empty();
    let no_rows = Seq::<Seq<ValueView>>::empty();
    if is_cell_type(t) {
    } else if is_array_like(t) {
        assert(joined_rows(no_rows) == none);
        law_empty_column(element_type(t));
        assert(!some_bare(none));
        assert(offset_bytes(no_rows) + Seq::<u8>::empty() =~= Seq::<u8>::empty());
    } else if let Some(ts) = tuple_fields(t) {
        if let TypeView::TupleNamed(fs) = t {
            lemma_fields_size(fs);
        }
        lemma_empty_fields(ts, 0);
    } else {
        match t {
            TypeView::Nullable(inner) => {
                assert(mask_bytes(none) =~= Seq::<u8>::empty());
                assert(Seq::<u8>::empty() + Seq::<u8>::empty() =~= Seq::<u8>::empty());
                if !is_cell_type(*inner) {
                    law_empty_column(*inner);
                }
            },
            TypeView::MapOf(k, x) => {
                assert(joined_rows(no_rows) == none);
                assert(map_values(none) =~= no_rows);
                law_empty_column(*k);
                law_empty_column(*x);
                assert(Seq::<u8>::empty() + Seq::<u8>::empty() =~= Seq::<u8>::empty());
            },
            TypeView::Point => {
                assert(coordinates(none, true) =~= none);
                assert(coordinates(none, false) =~= none);
                assert(Seq::<u8>::empty() + Seq::<u8>::empty() =~= Seq::<u8>::empty());
            },
            TypeView::Variant(ts) => {
                assert(discriminators_of(none) =~= Seq::<u8>::empty());
                lemma_sorted_size(ts);
                lemma_empty_groups(sorted_types(ts), 0);
                assert(Seq::<u8>::empty() + Seq::<u8>::empty() =~= Seq::<u8>::empty());
            },
            _ => {},
        }
    }
}

proof fn lemma_empty_fields(ts: Seq<TypeView>, k: nat)
    requires
        fields_fit(ts, Seq::empty(), k),
    ensures
        field_columns(ts, Seq::empty(), k) == Ok::<_, Error>(Seq::<u8>::empty()),
    decreases types_size(ts), 0nat,
{
    if ts.len() > 0 {
        assert(column_of(Seq::<Seq<ValueView>>::empty(), k) == Seq::<ValueView>::empty());
        law_empty_column(ts[0]);
        lemma_empty_fields(ts.subrange(1, ts.len() as int), k + 1);
        assert(Seq::<u8>::empty() + Seq::<u8>::empty() =~= Seq::<u8>::empty());
    }
}

proof fn lemma_empty_groups(ts: Seq<TypeView>, d: nat)
    ensures
        group_columns(ts, Seq::empty(), d) == Ok::<_, Error>(Seq::<u8>::empty()),
    decreases types_size(ts), 0nat,
{
    if ts.len() > 0 {
        assert(group_of(Seq::<ValueView>::empty(), d as u8) == Seq::<ValueView>::empty());
        lemma_empty_groups(ts.subrange(1, ts.len() as int), d + 1);
        assert(Seq::<u8>::empty() + Seq::<u8>::empty() =~= Seq::<u8>::empty());
    }
}

// ---------------------------------------------------------------------------
// Reading back
// ---------------------------------------------------------------------------

/// A column that was written is read back, whatever stands behind it.
#[verifier::rlimit(40)]
pub proof fn law_column_reads_back(
    t: TypeView,
    vs: Seq<ValueView>,
    rest: Seq<u8>,
    path: Seq<u16>,
    states: States,
)
    requires
        column_fits(t, vs),
    ensures
        column_bytes(t, vs) is Ok,
        parsed_column(
            column_bytes(t, vs)->Ok_0 + rest,
            t,
            vs.len(),
            Set::empty(),
            path,
            states,
        ) == Ok::<_, Error>(((vs, states), rest)),
    decreases type_size(t), 1nat,
{
    if is_cell_type(t) {
        law_cells_read_back(vs, t, rest);
    } else if is_array_like(t) {
        lemma_arrays_read_back(t, vs, rest, path, states);
    } else if let Some(ts) = tuple_fields(t) {
        if let TypeView::TupleNamed(fs) = t {
            lemma_fields_size(fs);
        }
        let rows = rows_of(t, vs)->Ok_0;
        lemma_rows_len(t, vs);
        lemma_fields_read_back(ts, rows, 0, ts.len(), rest, path, states);
        let columns = Seq::new(ts.len(), |i: int| column_of(rows, i as nat));
        assert(columns =~= Seq::new(ts.len(), |i: int| column_of(rows, (0 + i) as nat)));
        assert(tuple_rows(columns, vs.len()) =~= vs) by {
            assert forall|r: int| 0 <= r < vs.len() implies row_across(columns, r) == (
            #[trigger] vs[r])->Tuple_0 by {
                lemma_row_across(rows, ts.len(), r);
                assert(row_items(t, vs[r]) == Ok::<_, Error>(rows[r]));
            }
            assert forall|r: int| 0 <= r < vs.len() implies (#[trigger] vs[r]) is Tuple by {
                assert(row_items(t, vs[r]) == Ok::<_, Error>(rows[r]));
            }
        }
    } else {
        match t {
            TypeView::Nullable(inner) => lemma_nullable_reads_back(t, vs, rest, path, states),
            TypeView::MapOf(k, x) => lemma_maps_read_back(t, vs, rest, path, states),
            TypeView::Point => lemma_points_read_back(t, vs, rest, path, states),
            TypeView::LowCardinality(inner) => law_low_reads_back(*inner, vs, rest),
            TypeView::Variant(ts) => lemma_variants_read_back(t, vs, rest, path, states),
            _ => {},
        }
    }
}

#[verifier::rlimit(60)]
#[verifier::spinoff_prover]
proof fn lemma_arrays_read_back(
    t: TypeView,
    vs: Seq<ValueView>,
    rest: Seq<u8>,
    path: Seq<u16>,
    states: States,
)
    requires
        is_array_like(t),
        column_fits(t, vs),
    ensures
        column_bytes(t, vs) is Ok,
        parsed_column(
            column_bytes(t, vs)->Ok_0 + rest,
            t,
            vs.len(),
            Set::empty(),
            path,
            states,
        ) == Ok::<_, Error>(((vs, states), rest)),
    decreases type_size(t), 0nat,
{
    let e = element_type(t);
    let rows = rows_of(t, vs)->Ok_0;
    let items = joined_rows(rows);
    lemma_rows_len(t, vs);
    assert(type_size(e) < type_size(t)) by {
        reveal_with_fuel(type_size, 2);
    }
    assert(column_fits(e, items));
    lemma_wrapped(e, items);
    law_column_reads_back(e, items, rest, path.push(0), states);
    let b = column_bytes(e, items)->Ok_0;
    let all = offset_bytes(rows) + b;
    lemma_array_bytes(t, vs, b);
    if vs.len() == 0 {
        assert(vs =~= Seq::<ValueView>::empty());
        law_empty_column(t);
        assert(all + rest =~= rest);
    } else {
        assert(all + rest =~= offset_bytes(rows) + (b + rest));
        lemma_offsets_read_back(rows, b + rest);
        lemma_rows_end(rows);
        lemma_array_rows(t, vs);
        lemma_array_step(
            all + rest,
            t,
            vs.len(),
            path,
            states,
            offsets_of(rows),
            b + rest,
            items,
            rest,
        );
    }
}

pub(crate) proof fn lemma_wrapped(t: TypeView, vs: Seq<ValueView>)
    requires
        column_fits(t, vs),
    ensures
        wrapped(t, vs) == Ok::<_, Error>(vs),
{
    if let TypeView::Variant(ts) = t {
        lemma_sorted_size(ts);
        assert(all_variants(vs));
        assert(!some_bare(vs));
    }
}

/// What writing an array-like column comes to.
proof fn lemma_array_bytes(t: TypeView, vs: Seq<ValueView>, b: Seq<u8>)
    requires
        is_array_like(t),
        rows_of(t, vs) is Ok,
        joined_rows(rows_of(t, vs)->Ok_0).len() <= usize::MAX,
        wrapped(element_type(t), joined_rows(rows_of(t, vs)->Ok_0)) == Ok::<_, Error>(
            joined_rows(rows_of(t, vs)->Ok_0),
        ),
        column_bytes(element_type(t), joined_rows(rows_of(t, vs)->Ok_0)) == Ok::<_, Error>(b),
    ensures
        column_bytes(t, vs) == Ok::<_, Error>(offset_bytes(rows_of(t, vs)->Ok_0) + b),
{
}

/// What reading an array-like column comes to.
proof fn lemma_array_step(
    s: Seq<u8>,
    t: TypeView,
    n: nat,
    path: Seq<u16>,
    states: States,
    offsets: Seq<u64>,
    mid: Seq<u8>,
    items: Seq<ValueView>,
    end: Seq<u8>,
)
    requires
        is_array_like(t),
        n > 0,
        parsed_offsets(s, n) == Ok::<_, Error>((offsets, mid)),
        parsed_column(
            mid,
            element_type(t),
            (offsets.last() as usize) as nat,
            Set::empty(),
            path.push(0),
            states,
        ) == Ok::<_, Error>(((items, states), end)),
        ascending(offsets),
        reach(offsets, n as int) <= items.len(),
    ensures
        parsed_column(s, t, n, Set::empty(), path, states) == Ok::<_, Error>(
            ((array_rows(t, offsets, items), states), end),
        ),
{
}

/// The offsets of rows end with how many values there are.
pub(crate) proof fn lemma_rows_end(rows: Seq<Seq<ValueView>>)
    requires
        joined_rows(rows).len() <= usize::MAX,
        rows.len() > 0,
    ensures
        ascending(offsets_of(rows)),
        reach(offsets_of(rows), rows.len() as int) == joined_rows(rows).len(),
        (offsets_of(rows).last() as usize) as nat == joined_rows(rows).len(),
{
    lemma_offsets(rows, rows.len() as int);
    lemma_offsets_ascend(rows);
    assert(rows.take(rows.len() as int) =~= rows);
}

pub(crate) proof fn lemma_array_rows(t: TypeView, vs: Seq<ValueView>)
    requires
        is_array_like(t),
        rows_of(t, vs) is Ok,
        joined_rows(rows_of(t, vs)->Ok_0).len() <= usize::MAX,
    ensures
        ({
            let rows = rows_of(t, vs)->Ok_0;
            array_rows(t, offsets_of(rows), joined_rows(rows)) == vs
        }),
{
    let rows = rows_of(t, vs)->Ok_0;
    let offsets = offsets_of(rows);
    let items = joined_rows(rows);
    lemma_rows_len(t, vs);
    assert forall|i: int| 0 <= i < vs.len() implies value_of_items(t, span(offsets, items, i))
        == #[trigger] vs[i] by {
        lemma_offsets(rows, i);
        assert(row_items(t, vs[i]) == Ok::<_, Error>(rows[i]));
        lemma_items_make_value(t, vs[i], rows[i]);
    }
    assert(array_rows(t, offsets, items) =~= vs);
}

proof fn lemma_items_make_value(t: TypeView, v: ValueView, s: Seq<ValueView>)
    requires
        is_array_like(t),
        row_items(t, v) == Ok::<_, Error>(s),
    ensures
        value_of_items(t, s) == v,
{
    match t {
        TypeView::Ring => {
            let p = v->Ring_0;
            assert(Seq::new(s.len(), |i: int| (s[i]->Point_0, s[i]->Point_1)) =~= p);
        },
        TypeView::Polygon => {
            let p = v->Polygon_0;
            assert(Seq::new(s.len(), |i: int| s[i]->Ring_0) =~= p);
        },
        TypeView::MultiPolygon => {
            let p = v->MultiPolygon_0;
            assert(Seq::new(s.len(), |i: int| s[i]->Polygon_0) =~= p);
        },
        _ => {},
    }
}

pub(crate) proof fn lemma_column_of(rows: Seq<Seq<ValueView>>, k: nat, n: nat)
    requires
        all_long(rows, n),
        k < n,
    ensures
        column_of(rows, k).len() == rows.len(),
        forall|r: int| 0 <= r < rows.len() ==> (#[trigger] column_of(rows, k)[r]) == rows[r][k as int],
    decreases rows.len(),
{
    if rows.len() > 0 {
        let head = rows.drop_last();
        assert(all_long(head, n)) by {
            assert forall|i: int| 0 <= i < head.len() implies (#[trigger] head[i]).len() == n by {
                assert(head[i] == rows[i]);
            }
        }
        lemma_column_of(head, k, n);
        assert(rows.last() == rows[rows.len() - 1]);
    }
}

pub(crate) proof fn lemma_row_across(rows: Seq<Seq<ValueView>>, n: nat, r: int)
    requires
        all_long(rows, n),
        0 <= r < rows.len(),
    ensures
        row_across(Seq::new(n, |i: int| column_of(rows, i as nat)), r) == rows[r],
{
    lemma_row_across_up_to(rows, n, n, r);
    assert(rows[r].take(n as int) =~= rows[r]);
}

proof fn lemma_row_across_up_to(rows: Seq<Seq<ValueView>>, n: nat, k: nat, r: int)
    requires
        all_long(rows, n),
        k <= n,
        0 <= r < rows.len(),
    ensures
        row_across(Seq::new(k, |i: int| column_of(rows, i as nat)), r) == rows[r].take(k as int),
    decreases k,
{
    let columns = Seq::new(k, |i: int| column_of(rows, i as nat));
    assert(rows[r].len() == n);
    if k == 0 {
        assert(rows[r].take(0) =~= Seq::<ValueView>::empty());
    } else {
        let fewer = Seq::new((k - 1) as nat, |i: int| column_of(rows, i as nat));
        lemma_row_across_up_to(rows, n, (k - 1) as nat, r);
        assert(columns.drop_last() =~= fewer);
        lemma_column_of(rows, (k - 1) as nat, n);
        assert(rows[r].take(k as int) =~= rows[r].take(k - 1).push(rows[r][k - 1]));
    }
}

proof fn lemma_fields_read_back(
    ts: Seq<TypeView>,
    rows: Seq<Seq<ValueView>>,
    k: nat,
    n: nat,
    rest: Seq<u8>,
    path: Seq<u16>,
    states: States,
)
    requires
        fields_fit(ts, rows, k),
        all_long(rows, n),
        k + ts.len() == n,
    ensures
        field_columns(ts, rows, k) is Ok,
        parsed_fields(
            field_columns(ts, rows, k)->Ok_0 + rest,
            ts,
            rows.len(),
            Set::empty(),
            path,
            k,
            states,
        ) == Ok::<_, Error>(
            ((Seq::new(ts.len(), |i: int| column_of(rows, (k + i) as nat)), states), rest),
        ),
    decreases types_size(ts), 0nat,
{
    if ts.len() == 0 {
        assert(field_columns(ts, rows, k)->Ok_0 + rest =~= rest);
        assert(Seq::new(ts.len(), |i: int| column_of(rows, (k + i) as nat)) =~= Seq::<
            Seq<ValueView>,
        >::empty());
    } else {
        let tail = ts.subrange(1, ts.len() as int);
        lemma_fields_read_back(tail, rows, k + 1, n, rest, path, states);
        let c = column_of(rows, k);
        lemma_column_of(rows, k, n);
        let a = field_columns(tail, rows, k + 1)->Ok_0;
        law_column_reads_back(ts[0], c, a + rest, path.push(k as u16), states);
        let b = column_bytes(ts[0], c)->Ok_0;
        assert(field_columns(ts, rows, k)->Ok_0 + rest =~= b + (a + rest));
        assert(Seq::new(ts.len(), |i: int| column_of(rows, (k + i) as nat)) =~= seq![c] + Seq::new(
            tail.len(),
            |i: int| column_of(rows, (k + 1 + i) as nat),
        ));
    }
}

proof fn lemma_filled_cells(t: TypeView, vs: Seq<ValueView>)
    requires
        is_cell_type(t),
    ensures
        cells_bytes(t, vs) == cells_bytes(t, Seq::new(vs.len(), |i: int| filled(vs[i], t))),
    decreases vs.len(),
{
    let all = Seq::new(vs.len(), |i: int| filled(vs[i], t));
    if vs.len() > 0 {
        let tail = vs.skip(1);
        lemma_filled_cells(t, tail);
        assert(Seq::new(tail.len(), |i: int| filled(tail[i], t)) =~= all.skip(1));
        assert(!(default_of(t) is Null));
        assert(cell_bytes(t, vs[0]) == cell_bytes(t, all[0]));
    }
}

#[verifier::rlimit(60)]
#[verifier::spinoff_prover]
proof fn lemma_nullable_reads_back(
    t: TypeView,
    vs: Seq<ValueView>,
    rest: Seq<u8>,
    path: Seq<u16>,
    states: States,
)
    requires
        t is Nullable,
        column_fits(t, vs),
    ensures
        column_bytes(t, vs) is Ok,
        parsed_column(
            column_bytes(t, vs)->Ok_0 + rest,
            t,
            vs.len(),
            Set::empty(),
            path,
            states,
        ) == Ok::<_, Error>(((vs, states), rest)),
    decreases type_size(t), 0nat,
{
    let inner = *(t->Nullable_0);
    let mask = mask_bytes(vs);
    let full = Seq::new(vs.len(), |i: int| filled(vs[i], inner));
    if is_cell_type(inner) {
        lemma_filled_cells(inner, vs);
        assert forall|i: int| 0 <= i < full.len() implies cell_fits(#[trigger] full[i], inner) by {
            assert(cell_fits(filled(vs[i], inner), inner));
        }
        law_cells_read_back(full, inner, rest);
    } else {
        law_column_reads_back(inner, vs, rest, path.push(0), states);
        assert(full =~= vs);
    }
    let b = column_bytes(inner, vs)->Ok_0;
    assert(parsed_column(b + rest, inner, vs.len(), Set::empty(), path.push(0), states) == Ok::<
        _,
        Error,
    >(((full, states), rest)));
    lemma_nullable_bytes(t, vs, b);
    let all = mask + b;
    assert(all + rest =~= mask + (b + rest));
    assert((mask + (b + rest)).take(vs.len() as int) =~= mask);
    assert((mask + (b + rest)).skip(vs.len() as int) =~= b + rest);
    lemma_nullable_step(all + rest, t, vs.len(), path, states, mask, b + rest, full, rest);
    assert(masked(full, mask) =~= vs);
}

/// What writing a column of values that may be null comes to.
proof fn lemma_nullable_bytes(t: TypeView, vs: Seq<ValueView>, b: Seq<u8>)
    requires
        t is Nullable,
        column_bytes(*(t->Nullable_0), vs) == Ok::<_, Error>(b),
    ensures
        column_bytes(t, vs) == Ok::<_, Error>(mask_bytes(vs) + b),
{
}

/// What reading a column of values that may be null comes to.
proof fn lemma_nullable_step(
    s: Seq<u8>,
    t: TypeView,
    n: nat,
    path: Seq<u16>,
    states: States,
    mask: Seq<u8>,
    mid: Seq<u8>,
    vs: Seq<ValueView>,
    end: Seq<u8>,
)
    requires
        t is Nullable,
        parsed_bytes(s, n) == Ok::<_, Error>((mask, mid)),
        parsed_column(mid, *(t->Nullable_0), n, Set::empty(), path.push(0), states) == Ok::<
            _,
            Error,
        >(((vs, states), end)),
    ensures
        parsed_column(s, t, n, Set::empty(), path, states) == Ok::<_, Error>(
            ((masked(vs, mask), states), end),
        ),
{
}

#[verifier::rlimit(60)]
#[verifier::spinoff_prover]
proof fn lemma_maps_read_back(
    t: TypeView,
    vs: Seq<ValueView>,
    rest: Seq<u8>,
    path: Seq<u16>,
    states: States,
)
    requires
        t is MapOf,
        column_fits(t, vs),
    ensures
        column_bytes(t, vs) is Ok,
        parsed_column(
            column_bytes(t, vs)->Ok_0 + rest,
            t,
            vs.len(),
            Set::empty(),
            path,
            states,
        ) == Ok::<_, Error>(((vs, states), rest)),
    decreases type_size(t), 0nat,
{
    let k = *(t->MapOf_0);
    let x = *(t->MapOf_1);
    let rows = rows_of(t, vs)->Ok_0;
    let values = map_values(vs);
    let keys = joined_rows(rows);
    let items = joined_rows(values);
    lemma_rows_len(t, vs);
    lemma_map_rows(t, vs);
    law_column_reads_back(x, items, rest, path.push(1), states);
    let b = column_bytes(x, items)->Ok_0;
    law_column_reads_back(k, keys, b + rest, path.push(0), states);
    let a = column_bytes(k, keys)->Ok_0;
    let all = offset_bytes(rows) + (a + b);
    lemma_map_bytes(t, vs, a, b);
    if vs.len() == 0 {
        assert(vs =~= Seq::<ValueView>::empty());
        law_empty_column(t);
        assert(all + rest =~= rest);
    } else {
        assert(all + rest =~= offset_bytes(rows) + (a + (b + rest)));
        lemma_offsets_read_back(rows, a + (b + rest));
        lemma_rows_end(rows);
        lemma_map_rows_back(t, vs);
        lemma_map_step(
            all + rest,
            t,
            vs.len(),
            path,
            states,
            offsets_of(rows),
            a + (b + rest),
            keys,
            b + rest,
            items,
            rest,
        );
    }
}

/// What writing a column of maps comes to.
proof fn lemma_map_bytes(t: TypeView, vs: Seq<ValueView>, a: Seq<u8>, b: Seq<u8>)
    requires
        t is MapOf,
        rows_of(t, vs) is Ok,
        joined_rows(rows_of(t, vs)->Ok_0).len() <= usize::MAX,
        column_bytes(*(t->MapOf_0), joined_rows(rows_of(t, vs)->Ok_0)) == Ok::<_, Error>(a),
        column_bytes(*(t->MapOf_1), joined_rows(map_values(vs))) == Ok::<_, Error>(b),
    ensures
        column_bytes(t, vs) == Ok::<_, Error>(offset_bytes(rows_of(t, vs)->Ok_0) + (a + b)),
{
}

/// What reading a column of maps comes to.
proof fn lemma_map_step(
    s: Seq<u8>,
    t: TypeView,
    n: nat,
    path: Seq<u16>,
    states: States,
    offsets: Seq<u64>,
    mid: Seq<u8>,
    keys: Seq<ValueView>,
    mid2: Seq<u8>,
    items: Seq<ValueView>,
    end: Seq<u8>,
)
    requires
        t is MapOf,
        n > 0,
        parsed_offsets(s, n) == Ok::<_, Error>((offsets, mid)),
        parsed_column(
            mid,
            *(t->MapOf_0),
            (offsets.last() as usize) as nat,
            Set::empty(),
            path.push(0),
            states,
        ) == Ok::<_, Error>(((keys, states), mid2)),
        parsed_column(
            mid2,
            *(t->MapOf_1),
            (offsets.last() as usize) as nat,
            Set::empty(),
            path.push(1),
            states,
        ) == Ok::<_, Error>(((items, states), end)),
        reach(offsets, n as int) <= keys.len(),
        reach(offsets, n as int) <= items.len(),
    ensures
        parsed_column(s, t, n, Set::empty(), path, states) == Ok::<_, Error>(
            ((map_rows(offsets, keys, items), states), end),
        ),
{
}

pub(crate) proof fn lemma_map_rows_back(t: TypeView, vs: Seq<ValueView>)
    requires
        t is MapOf,
        rows_of(t, vs) is Ok,
        joined_rows(rows_of(t, vs)->Ok_0).len() <= usize::MAX,
    ensures
        ({
            let rows = rows_of(t, vs)->Ok_0;
            map_rows(offsets_of(rows), joined_rows(rows), joined_rows(map_values(vs))) == vs
        }),
{
    let rows = rows_of(t, vs)->Ok_0;
    let values = map_values(vs);
    let offsets = offsets_of(rows);
    let keys = joined_rows(rows);
    let items = joined_rows(values);
    lemma_rows_len(t, vs);
    lemma_map_rows(t, vs);
    lemma_same_offsets(t, vs);
    assert forall|i: int| 0 <= i < vs.len() implies ValueView::MapOf(
        span(offsets, keys, i),
        span(offsets, items, i),
    ) == #[trigger] vs[i] by {
        lemma_offsets(rows, i);
        lemma_offsets(values, i);
        assert(row_items(t, vs[i]) == Ok::<_, Error>(rows[i]));
    }
    assert(map_rows(offsets, keys, items) =~= vs);
}

proof fn lemma_same_offsets(t: TypeView, vs: Seq<ValueView>)
    requires
        t is MapOf,
        rows_of(t, vs) is Ok,
    ensures
        offsets_of(rows_of(t, vs)->Ok_0) == offsets_of(map_values(vs)),
{
    let rows = rows_of(t, vs)->Ok_0;
    let values = map_values(vs);
    lemma_rows_len(t, vs);
    assert forall|i: int| 0 <= i < vs.len() implies (#[trigger] offsets_of(rows)[i])
        == offsets_of(values)[i] by {
        let a = rows.take(i + 1);
        let b = values.take(i + 1);
        assert forall|j: int| 0 <= j < a.len() implies (#[trigger] a[j]).len() == b[j].len() by {
            assert(row_items(t, vs[j]) == Ok::<_, Error>(rows[j]));
        }
        lemma_joined_lens(a, b);
    }
    assert(offsets_of(rows) =~= offsets_of(values));
}

pub(crate) proof fn lemma_joined_lens(a: Seq<Seq<ValueView>>, b: Seq<Seq<ValueView>>)
    requires
        a.len() == b.len(),
        forall|i: int| 0 <= i < a.len() ==> (#[trigger] a[i]).len() == b[i].len(),
    ensures
        joined_rows(a).len() == joined_rows(b).len(),
    decreases a.len(),
{
    if a.len() > 0 {
        assert forall|i: int| 0 <= i < a.len() - 1 implies (#[trigger] a.drop_last()[i]).len()
            == b.drop_last()[i].len() by {
            assert(a[i].len() == b[i].len());
        }
        lemma_joined_lens(a.drop_last(), b.drop_last());
        assert(a[a.len() - 1].len() == b[a.len() - 1].len());
    }
}

proof fn lemma_points_read_back(
    t: TypeView,
    vs: Seq<ValueView>,
    rest: Seq<u8>,
    path: Seq<u16>,
    states: States,
)
    requires
        t is Point,
        column_fits(t, vs),
    ensures
        column_bytes(t, vs) is Ok,
        parsed_column(
            column_bytes(t, vs)->Ok_0 + rest,
            t,
            vs.len(),
            Set::empty(),
            path,
            states,
        ) == Ok::<_, Error>(((vs, states), rest)),
{
    let xs = coordinates(vs, true);
    let ys = coordinates(vs, false);
    law_cells_read_back(ys, TypeView::Float64, rest);
    let b = cells_bytes(TypeView::Float64, ys)->Ok_0;
    law_cells_read_back(xs, TypeView::Float64, b + rest);
    let a = cells_bytes(TypeView::Float64, xs)->Ok_0;
    assert(column_bytes(t, vs)->Ok_0 + rest =~= a + (b + rest));
    assert(points_of(xs, ys) =~= vs) by {
        assert forall|i: int| 0 <= i < vs.len() implies points_of(xs, ys)[i] == vs[i] by {
            assert(vs[i] is Point);
        }
    }
}

pub(crate) proof fn lemma_groups_read_back(ts: Seq<TypeView>, vs: Seq<ValueView>, d: nat, rest: Seq<u8>)
    requires
        groups_fit(ts, vs, d),
        d + ts.len() <= 256,
    ensures
        group_columns(ts, vs, d) is Ok,
        parsed_groups(group_columns(ts, vs, d)->Ok_0 + rest, ts, discriminators_of(vs), d) == Ok::<
            _,
            Error,
        >((groups_from(vs, d, ts.len()), rest)),
    decreases types_size(ts), 0nat,
{
    let ds = discriminators_of(vs);
    if ts.len() == 0 {
        assert(group_columns(ts, vs, d)->Ok_0 + rest =~= rest);
        assert(groups_from(vs, d, 0) =~= Seq::<Seq<ValueView>>::empty());
    } else {
        let tail = ts.subrange(1, ts.len() as int);
        lemma_groups_read_back(tail, vs, d + 1, rest);
        let a = group_columns(tail, vs, d + 1)->Ok_0;
        let group = group_of(vs, d as u8);
        lemma_group_len(vs, d as u8);
        let whole = group_columns(ts, vs, d);
        if d == NULL_DISCRIMINATOR || group.len() == 0 {
            assert(Seq::<u8>::empty() + a =~= a);
            assert(whole == Ok::<_, Error>(a));
            assert(group_entry(vs, d) =~= Seq::<ValueView>::empty());
        } else {
            law_column_reads_back(ts[0], group, a + rest, Seq::empty(), Map::empty());
            let b = column_bytes(ts[0], group)->Ok_0;
            assert(whole == Ok::<_, Error>(b + a));
            assert(b + a + rest =~= b + (a + rest));
        }
        assert(groups_from(vs, d, ts.len()) =~= seq![group_entry(vs, d)] + groups_from(
            vs,
            d + 1,
            tail.len(),
        )) by {
            assert forall|i: int| 0 <= i < ts.len() implies groups_from(vs, d, ts.len())[i] == (
            seq![group_entry(vs, d)] + groups_from(vs, d + 1, tail.len()))[i] by {
                if i > 0 {
                    assert(groups_from(vs, d + 1, tail.len())[i - 1] == group_entry(
                        vs,
                        (d + 1 + (i - 1)) as nat,
                    ));
                }
            }
        }
    }
}

/// The values of one discriminator; null has none.
pub open spec fn group_entry(vs: Seq<ValueView>, d: nat) -> Seq<ValueView> {
    if d == NULL_DISCRIMINATOR {
        Seq::empty()
    } else {
        group_of(vs, d as u8)
    }
}

/// The values of each of `n` discriminators, from `d` on.
pub open spec fn groups_from(vs: Seq<ValueView>, d: nat, n: nat) -> Seq<Seq<ValueView>> {
    Seq::new(n, |i: int| group_entry(vs, (d + i) as nat))
}

proof fn lemma_variants_read_back(
    t: TypeView,
    vs: Seq<ValueView>,
    rest: Seq<u8>,
    path: Seq<u16>,
    states: States,
)
    requires
        t is Variant,
        column_fits(t, vs),
    ensures
        column_bytes(t, vs) is Ok,
        parsed_column(
            column_bytes(t, vs)->Ok_0 + rest,
            t,
            vs.len(),
            Set::empty(),
            path,
            states,
        ) == Ok::<_, Error>(((vs, states), rest)),
    decreases type_size(t), 0nat,
{
    let ts = t->Variant_0;
    let ds = discriminators_of(vs);
    lemma_sorted_size(ts);
    crate::type_order::law_sorted_types(ts);
    let sorted = sorted_types(ts);
    lemma_groups_read_back(sorted, vs, 0, rest);
    let a = group_columns(sorted, vs, 0)->Ok_0;
    assert(column_bytes(t, vs) == Ok::<_, Error>(ds + a));
    assert(ds + a + rest =~= ds + (a + rest));
    assert((ds + (a + rest)).take(vs.len() as int) =~= ds);
    assert((ds + (a + rest)).skip(vs.len() as int) =~= a + rest);
    let columns = groups_from(vs, 0, sorted.len());
    assert forall|i: int| 0 <= i < ds.len() implies row_value(
        #[trigger] ds[i],
        rank(ds, ds[i], i) as int,
        columns,
    ) == Some(vs[i]) by {
        assert(vs[i] is Variant);
        lemma_group_rank(vs, ds[i], i);
        if ds[i] != NULL_DISCRIMINATOR {
            assert(columns[ds[i] as int] == group_of(vs, ds[i]));
        }
    }
    assert(variant_rows(ds, columns) =~= vs);
}

// ---------------------------------------------------------------------------
// Prefixes
// ---------------------------------------------------------------------------

/// Whether what stands before a column of the type is told by the type alone, and holds
/// no version of the format of objects, of which reading takes one byte and writing
/// makes eight.
pub open spec fn plain_prefix(t: TypeView) -> bool
    decreases type_size(t), 0nat,
{
    match t {
        TypeView::Array(inner) => plain_prefix(*inner),
        TypeView::Nullable(inner) => plain_prefix(*inner),
        TypeView::MapOf(k, v) => plain_prefix(*k) && plain_prefix(*v),
        TypeView::Tuple(ts) => plain_prefixes(ts),
        TypeView::TupleNamed(fs) => if types_size(field_types(fs)) >= type_size(t) {
            arbitrary()
        } else {
            plain_prefixes(field_types(fs))
        },
        TypeView::Variant(ts) => plain_prefixes(ts),
        TypeView::Object | TypeView::Dynamic { .. } | TypeView::JSON { .. } => false,
        _ => true,
    }
}

/// Whether this holds of all types.
pub open spec fn plain_prefixes(ts: Seq<TypeView>) -> bool
    decreases types_size(ts), 0nat,
{
    ts.len() == 0 || (plain_prefix(ts[0]) && plain_prefixes(ts.subrange(1, ts.len() as int)))
}

/// What was written before a column is read before it.
pub proof fn law_prefix_reads_back(t: TypeView, rest: Seq<u8>)
    requires
        plain_prefix(t),
    ensures
        prefix_bytes(t) is Ok,
        parsed_prefix(prefix_bytes(t)->Ok_0 + rest, t) == Ok::<_, Error>(((), rest)),
    decreases type_size(t), 0nat,
{
    lemma_pow256();
    match t {
        TypeView::Array(inner) => law_prefix_reads_back(*inner, rest),
        TypeView::Nullable(inner) => law_prefix_reads_back(*inner, rest),
        TypeView::MapOf(k, v) => {
            law_prefix_reads_back(*v, rest);
            let b = prefix_bytes(*v)->Ok_0;
            law_prefix_reads_back(*k, b + rest);
            let a = prefix_bytes(*k)->Ok_0;
            assert(a + b + rest =~= a + (b + rest));
        },
        TypeView::Tuple(ts) => lemma_prefixes_read_back(ts, rest),
        TypeView::TupleNamed(fs) => {
            lemma_fields_size(fs);
            lemma_prefixes_read_back(field_types(fs), rest);
        },
        TypeView::LowCardinality(_) => law_uint_reads_back(1, 8, rest),
        TypeView::Variant(ts) => {
            lemma_prefixes_read_back(ts, rest);
            let b = prefixes_bytes(ts)->Ok_0;
            law_uint_reads_back(0, 8, b + rest);
            assert(le_bytes(0, 8) + b + rest =~= le_bytes(0, 8) + (b + rest));
        },
        _ => {
            assert(Seq::<u8>::empty() + rest =~= rest);
        },
    }
}

/// The same for several types.
pub proof fn lemma_prefixes_read_back(ts: Seq<TypeView>, rest: Seq<u8>)
    requires
        plain_prefixes(ts),
    ensures
        prefixes_bytes(ts) is Ok,
        parsed_prefixes(prefixes_bytes(ts)->Ok_0 + rest, ts) == Ok::<_, Error>(((), rest)),
    decreases types_size(ts), 0nat,
{
    if ts.len() == 0 {
        assert(Seq::<u8>::empty() + rest =~= rest);
    } else {
        let tail = ts.subrange(1, ts.len() as int);
        lemma_prefixes_read_back(tail, rest);
        let b = prefixes_bytes(tail)->Ok_0;
        law_prefix_reads_back(ts[0], b + rest);
        let a = prefix_bytes(ts[0])->Ok_0;
        assert(a + b + rest =~= a + (b + rest));
    }
}

} // verus!
