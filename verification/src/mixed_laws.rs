//! Arrays of values of several types: as they are written, and read back.
use vstd::prelude::*;

use crate::cells::is_cell_type;
use crate::column_laws::{
    all_long, column_fits, fields_fit, groups_fit, law_column_reads_back, lemma_column_of,
    lemma_joined_lens, lemma_joined_prefix, lemma_wrapped,
};
use crate::column_read::{parsed_column, States};
use crate::columns::{
    all_discriminated, column_bytes, column_of, discriminated, field_columns, followed,
    group_columns, joined_rows, lemma_fields_size, lemma_map_rows, lemma_rows_len,
    lemma_sorted_size, map_values, mask_bytes, offset_bytes, row_items, rows_of, some_bare,
    tuple_fields, type_size, types_size, wrapped,
};
use crate::error::Error;
use crate::type_order::{law_sorted_types, sorted_types};
use crate::types::TypeView;
use crate::values::ValueView;
use crate::variant::{
    all_variants, discriminators_of, group_of, lemma_group_len, lemma_group_rank, rank,
    NULL_DISCRIMINATOR,
};

verus! {

// ---------------------------------------------------------------------------
// Rows cut out of values
// ---------------------------------------------------------------------------

/// Rows as long as others, cut out of values that stand one behind the other.
pub open spec fn cut(rows: Seq<Seq<ValueView>>, items: Seq<ValueView>) -> Seq<Seq<ValueView>> {
    Seq::new(
        rows.len(),
        |i: int|
            items.subrange(
                joined_rows(rows.take(i)).len() as int,
                joined_rows(rows.take(i + 1)).len() as int,
            ),
    )
}

proof fn lemma_cut_at(rows: Seq<Seq<ValueView>>, items: Seq<ValueView>, k: int)
    requires
        items.len() == joined_rows(rows).len(),
        0 <= k <= rows.len(),
    ensures
        joined_rows(rows.take(k)).len() <= items.len(),
        joined_rows(cut(rows, items).take(k)) == items.take(joined_rows(rows.take(k)).len() as int),
        k < rows.len() ==> cut(rows, items)[k].len() == rows[k].len(),
        k < rows.len() ==> joined_rows(rows.take(k + 1)).len() == joined_rows(rows.take(k)).len()
            + rows[k].len(),
    decreases k,
{
    let all = cut(rows, items);
    lemma_joined_prefix(rows, k);
    if k < rows.len() {
        lemma_joined_prefix(rows, k + 1);
        assert(rows.take(k + 1).drop_last() =~= rows.take(k));
        assert(rows.take(k + 1).last() == rows[k]);
    }
    if k == 0 {
        assert(all.take(0) =~= Seq::<Seq<ValueView>>::empty());
        assert(items.take(0) =~= Seq::<ValueView>::empty());
    } else {
        lemma_cut_at(rows, items, k - 1);
        assert(all.take(k).drop_last() =~= all.take(k - 1));
        assert(all.take(k).last() == all[k - 1]);
        let a = joined_rows(rows.take(k - 1)).len() as int;
        let b = joined_rows(rows.take(k)).len() as int;
        assert(items.take(a) + items.subrange(a, b) =~= items.take(b));
    }
}

/// Rows that are cut out of values join to them again, and are as long as the others.
pub proof fn law_cut(rows: Seq<Seq<ValueView>>, items: Seq<ValueView>)
    requires
        items.len() == joined_rows(rows).len(),
    ensures
        joined_rows(cut(rows, items)) == items,
        cut(rows, items).len() == rows.len(),
        forall|i: int| 0 <= i < rows.len() ==> (#[trigger] cut(rows, items)[i]).len() == rows[i].len(),
{
    let n = rows.len() as int;
    lemma_cut_at(rows, items, n);
    assert(cut(rows, items).take(n) =~= cut(rows, items));
    assert(rows.take(n) =~= rows);
    assert(items.take(items.len() as int) =~= items);
    assert forall|i: int| 0 <= i < rows.len() implies (#[trigger] cut(rows, items)[i]).len()
        == rows[i].len() by {
        lemma_cut_at(rows, items, i);
    }
}

pub(crate) proof fn lemma_cut_same(rows: Seq<Seq<ValueView>>)
    ensures
        cut(rows, joined_rows(rows)) == rows,
{
    let items = joined_rows(rows);
    law_cut(rows, items);
    assert forall|i: int| 0 <= i < rows.len() implies #[trigger] cut(rows, items)[i] == rows[i] by {
        lemma_joined_prefix(rows, i);
        lemma_joined_prefix(rows, i + 1);
        assert(rows.take(i + 1).drop_last() =~= rows.take(i));
        let a = joined_rows(rows.take(i));
        let b = joined_rows(rows.take(i + 1));
        assert(b == a + rows[i]);
        assert forall|j: int| 0 <= j < rows[i].len() implies items[a.len() + j] == rows[i][j] by {
            assert(items.take(b.len() as int)[a.len() + j] == b[a.len() + j]);
        }
        assert(items.subrange(a.len() as int, b.len() as int) =~= rows[i]);
    }
    assert(cut(rows, items) =~= rows);
}

pub(crate) proof fn lemma_cut_piece(
    rows: Seq<Seq<ValueView>>,
    items: Seq<ValueView>,
    i: int,
) -> (r: (int, int))
    requires
        items.len() == joined_rows(rows).len(),
        0 <= i < rows.len(),
    ensures
        0 <= r.0 <= r.1 <= items.len(),
        cut(rows, items)[i] == items.subrange(r.0, r.1),
        rows[i] == joined_rows(rows).subrange(r.0, r.1),
{
    lemma_cut_same(rows);
    lemma_cut_at(rows, items, i);
    lemma_cut_at(rows, items, i + 1);
    assert(cut(rows, joined_rows(rows))[i] == rows[i]);
    (joined_rows(rows.take(i)).len() as int, joined_rows(rows.take(i + 1)).len() as int)
}

pub(crate) proof fn lemma_same_offset_bytes(a: Seq<Seq<ValueView>>, b: Seq<Seq<ValueView>>)
    requires
        a.len() == b.len(),
        forall|i: int| 0 <= i < a.len() ==> (#[trigger] a[i]).len() == b[i].len(),
    ensures
        offset_bytes(a) == offset_bytes(b),
    decreases a.len(),
{
    if a.len() > 0 {
        let x = a.drop_last();
        let y = b.drop_last();
        assert forall|i: int| 0 <= i < x.len() implies (#[trigger] x[i]).len() == y[i].len() by {
            assert(x[i] == a[i] && y[i] == b[i]);
        }
        lemma_same_offset_bytes(x, y);
        lemma_joined_lens(a, b);
    }
}

pub(crate) proof fn lemma_rows_made(t: TypeView, vs: Seq<ValueView>, rows: Seq<Seq<ValueView>>)
    requires
        vs.len() == rows.len(),
        forall|i: int|
            0 <= i < vs.len() ==> row_items(t, #[trigger] vs[i]) == Ok::<_, Error>(rows[i]),
    ensures
        rows_of(t, vs) == Ok::<_, Error>(rows),
    decreases vs.len(),
{
    if vs.len() > 0 {
        let n = vs.len() - 1;
        assert forall|i: int| 0 <= i < n implies row_items(t, #[trigger] vs.drop_last()[i]) == Ok::<
            _,
            Error,
        >(rows.drop_last()[i]) by {
            assert(vs.drop_last()[i] == vs[i]);
        }
        lemma_rows_made(t, vs.drop_last(), rows.drop_last());
        assert(row_items(t, vs[n]) == Ok::<_, Error>(rows[n]));
        assert(rows.drop_last().push(rows[n]) =~= rows);
    } else {
        assert(rows =~= Seq::<Seq<ValueView>>::empty());
    }
}

// ---------------------------------------------------------------------------
// Values as they are written
// ---------------------------------------------------------------------------

/// The values of a column as they are written: bare elements of arrays of variants have
/// their discriminators.
#[verifier::opaque]
pub open spec fn stored(t: TypeView, vs: Seq<ValueView>) -> Seq<ValueView>
    decreases type_size(t), 0nat,
{
    match t {
        TypeView::Array(inner) => match rows_of(t, vs) {
            Err(_) => vs,
            Ok(rows) => match wrapped(*inner, joined_rows(rows)) {
                Err(_) => vs,
                Ok(items) => arrays_of(cut(rows, stored(*inner, items))),
            },
        },
        TypeView::Nullable(inner) => stored(*inner, vs),
        TypeView::MapOf(k, x) => match rows_of(t, vs) {
            Err(_) => vs,
            Ok(rows) => maps_of(
                cut(rows, stored(*k, joined_rows(rows))),
                cut(map_values(vs), stored(*x, joined_rows(map_values(vs)))),
            ),
        },
        TypeView::Tuple(ts) => match rows_of(t, vs) {
            Err(_) => vs,
            Ok(rows) => if all_long(rows, ts.len()) {
                tuples_of(stored_fields(ts, rows, 0), vs.len())
            } else {
                vs
            },
        },
        TypeView::TupleNamed(_) => {
            let ts = tuple_fields(t)->0;
            if types_size(ts) >= type_size(t) {
                arbitrary()
            } else {
                match rows_of(t, vs) {
                    Err(_) => vs,
                    Ok(rows) => if all_long(rows, ts.len()) {
                        tuples_of(stored_fields(ts, rows, 0), vs.len())
                    } else {
                        vs
                    },
                }
            }
        },
        TypeView::Variant(ts) => if types_size(sorted_types(ts)) >= type_size(t) {
            arbitrary()
        } else {
            variants_of(vs, stored_groups(sorted_types(ts), vs, 0))
        },
        _ => vs,
    }
}

/// The columns of the fields of tuples as they are written, from the field `k` on.
pub open spec fn stored_fields(ts: Seq<TypeView>, rows: Seq<Seq<ValueView>>, k: nat) -> Seq<
    Seq<ValueView>,
>
    decreases types_size(ts), 0nat,
{
    if ts.len() == 0 {
        Seq::empty()
    } else {
        seq![stored(ts[0], column_of(rows, k))] + stored_fields(
            ts.subrange(1, ts.len() as int),
            rows,
            k + 1,
        )
    }
}

/// The columns of the types of a variant as they are written, from the discriminator `d` on.
pub open spec fn stored_groups(ts: Seq<TypeView>, vs: Seq<ValueView>, d: nat) -> Seq<
    Seq<ValueView>,
>
    decreases types_size(ts), 0nat,
{
    if ts.len() == 0 {
        Seq::empty()
    } else {
        seq![stored_group(ts[0], vs, d)] + stored_groups(
            ts.subrange(1, ts.len() as int),
            vs,
            d + 1,
        )
    }
}

/// The column of one type of a variant as it is written.
pub open spec fn stored_group(t: TypeView, vs: Seq<ValueView>, d: nat) -> Seq<ValueView>
    decreases type_size(t), 1nat,
{
    if d == NULL_DISCRIMINATOR || group_of(vs, d as u8).len() == 0 {
        Seq::empty()
    } else {
        stored(t, group_of(vs, d as u8))
    }
}

/// Arrays of rows.
pub open spec fn arrays_of(rows: Seq<Seq<ValueView>>) -> Seq<ValueView> {
    Seq::new(rows.len(), |i: int| ValueView::Array(rows[i]))
}

/// Maps of rows of keys and of values.
pub open spec fn maps_of(keys: Seq<Seq<ValueView>>, values: Seq<Seq<ValueView>>) -> Seq<
    ValueView,
> {
    Seq::new(keys.len(), |i: int| ValueView::MapOf(keys[i], values[i]))
}

/// Tuples of `n` rows of columns.
pub open spec fn tuples_of(columns: Seq<Seq<ValueView>>, n: nat) -> Seq<ValueView> {
    Seq::new(n, |i: int| ValueView::Tuple(Seq::new(columns.len(), |k: int| columns[k][i])))
}

/// Variants with the discriminators of others, and the values of columns.
pub open spec fn variants_of(vs: Seq<ValueView>, columns: Seq<Seq<ValueView>>) -> Seq<ValueView> {
    Seq::new(
        vs.len(),
        |i: int|
            {
                let d = vs[i]->Variant_0;
                if d == NULL_DISCRIMINATOR || d >= columns.len() {
                    vs[i]
                } else {
                    ValueView::Variant(
                        d,
                        Box::new(columns[d as int][rank(discriminators_of(vs), d, i) as int]),
                    )
                }
            },
    )
}

proof fn lemma_stored_fields(ts: Seq<TypeView>, rows: Seq<Seq<ValueView>>, k: nat)
    ensures
        stored_fields(ts, rows, k).len() == ts.len(),
        forall|i: int|
            0 <= i < ts.len() ==> (#[trigger] stored_fields(ts, rows, k)[i]) == stored(
                ts[i],
                column_of(rows, (k + i) as nat),
            ),
    decreases ts.len(),
{
    reveal(stored);
    if ts.len() > 0 {
        let tail = ts.subrange(1, ts.len() as int);
        lemma_stored_fields(tail, rows, k + 1);
        let all = stored_fields(ts, rows, k);
        let rest = stored_fields(tail, rows, k + 1);
        assert(all == seq![stored(ts[0], column_of(rows, k))] + rest);
        assert forall|i: int| 0 <= i < ts.len() implies (#[trigger] all[i]) == stored(
            ts[i],
            column_of(rows, (k + i) as nat),
        ) by {
            if i > 0 {
                assert(all[i] == rest[i - 1]);
                assert(tail[i - 1] == ts[i]);
                assert((k + 1 + (i - 1)) as nat == (k + i) as nat);
            }
        }
    }
}

pub(crate) proof fn lemma_stored_groups(ts: Seq<TypeView>, vs: Seq<ValueView>, d: nat)
    ensures
        stored_groups(ts, vs, d).len() == ts.len(),
        forall|i: int|
            0 <= i < ts.len() ==> (#[trigger] stored_groups(ts, vs, d)[i]) == stored_group(
                ts[i],
                vs,
                (d + i) as nat,
            ),
    decreases ts.len(),
{
    reveal(stored);
    if ts.len() > 0 {
        let tail = ts.subrange(1, ts.len() as int);
        lemma_stored_groups(tail, vs, d + 1);
        let all = stored_groups(ts, vs, d);
        let rest = stored_groups(tail, vs, d + 1);
        assert(all == seq![stored_group(ts[0], vs, d)] + rest);
        assert forall|i: int| 0 <= i < ts.len() implies (#[trigger] all[i]) == stored_group(
            ts[i],
            vs,
            (d + i) as nat,
        ) by {
            if i > 0 {
                assert(all[i] == rest[i - 1]);
                assert(tail[i - 1] == ts[i]);
                assert((d + 1 + (i - 1)) as nat == (d + i) as nat);
            }
        }
    }
}

/// As many values are written as there are, and the same of them are null.
pub proof fn law_stored_len(t: TypeView, vs: Seq<ValueView>)
    requires
        column_bytes(t, vs) is Ok,
    ensures
        stored(t, vs).len() == vs.len(),
        forall|i: int|
            0 <= i < vs.len() ==> ((#[trigger] stored(t, vs)[i]) is Null <==> vs[i] is Null),
    decreases type_size(t),
{
    reveal(stored);
    let out = stored(t, vs);
    match t {
        TypeView::Array(inner) => {
            lemma_rows_len(t, vs);
            assert forall|i: int| 0 <= i < vs.len() implies ((#[trigger] out[i]) is Null
                <==> vs[i] is Null) by {
                assert(row_items(t, vs[i]) == Ok::<_, Error>(rows_of(t, vs)->Ok_0[i]));
            }
        },
        TypeView::Nullable(inner) => law_stored_len(*inner, vs),
        TypeView::MapOf(_, _) => {
            lemma_rows_len(t, vs);
            assert forall|i: int| 0 <= i < vs.len() implies ((#[trigger] out[i]) is Null
                <==> vs[i] is Null) by {
                assert(row_items(t, vs[i]) == Ok::<_, Error>(rows_of(t, vs)->Ok_0[i]));
            }
        },
        TypeView::Tuple(_) => {
            lemma_rows_len(t, vs);
            assert forall|i: int| 0 <= i < vs.len() implies ((#[trigger] out[i]) is Null
                <==> vs[i] is Null) by {
                assert(row_items(t, vs[i]) == Ok::<_, Error>(rows_of(t, vs)->Ok_0[i]));
            }
        },
        TypeView::TupleNamed(fs) => {
            lemma_fields_size(fs);
            lemma_rows_len(t, vs);
            assert forall|i: int| 0 <= i < vs.len() implies ((#[trigger] out[i]) is Null
                <==> vs[i] is Null) by {
                assert(row_items(t, vs[i]) == Ok::<_, Error>(rows_of(t, vs)->Ok_0[i]));
            }
        },
        TypeView::Variant(ts) => {
            lemma_sorted_size(ts);
            assert forall|i: int| 0 <= i < vs.len() implies ((#[trigger] out[i]) is Null
                <==> vs[i] is Null) by {
                assert(vs[i] is Variant);
            }
        },
        _ => {},
    }
}

pub(crate) proof fn lemma_discriminated_len(vs: Seq<ValueView>, ts: Seq<TypeView>)
    requires
        all_discriminated(vs, ts) is Ok,
    ensures
        all_discriminated(vs, ts)->Ok_0.len() == vs.len(),
        forall|i: int|
            0 <= i < vs.len() ==> discriminated(#[trigger] vs[i], ts) == Ok::<_, Error>(
                all_discriminated(vs, ts)->Ok_0[i],
            ),
    decreases vs.len(),
{
    if vs.len() > 0 {
        let tail = vs.skip(1);
        lemma_discriminated_len(tail, ts);
        let all = all_discriminated(vs, ts)->Ok_0;
        assert forall|i: int| 0 <= i < vs.len() implies discriminated(#[trigger] vs[i], ts) == Ok::<
            _,
            Error,
        >(all[i]) by {
            if i > 0 {
                assert(tail[i - 1] == vs[i]);
            }
        }
    }
}

pub(crate) proof fn lemma_wrapped_len(t: TypeView, vs: Seq<ValueView>)
    requires
        wrapped(t, vs) is Ok,
    ensures
        wrapped(t, vs)->Ok_0.len() == vs.len(),
        forall|i: int|
            0 <= i < vs.len() ==> (#[trigger] wrapped(t, vs)->Ok_0[i]) == vs[i] || (
            wrapped(t, vs)->Ok_0[i] matches ValueView::Variant(_, x) && *x == vs[i]),
{
    if let TypeView::Variant(ts) = t {
        if some_bare(vs) {
            lemma_discriminated_len(vs, ts);
            let w = wrapped(t, vs)->Ok_0;
            assert forall|i: int| 0 <= i < vs.len() implies (#[trigger] w[i]) == vs[i] || (
            w[i] matches ValueView::Variant(_, x) && *x == vs[i]) by {
                assert(discriminated(vs[i], ts) == Ok::<_, Error>(w[i]));
            }
        }
    }
}

// ---------------------------------------------------------------------------
// The bytes are the same
// ---------------------------------------------------------------------------

/// Values have the same bytes as those that they are written as.
pub proof fn law_stored_bytes(t: TypeView, vs: Seq<ValueView>)
    requires
        column_bytes(t, vs) is Ok,
        column_fits(t, stored(t, vs)),
    ensures
        column_bytes(t, stored(t, vs)) == column_bytes(t, vs),
    decreases type_size(t), 1nat,
{
    match t {
        TypeView::Array(inner) => lemma_array_stored(t, *inner, vs),
        TypeView::Nullable(inner) => lemma_nullable_stored(t, *inner, vs),
        TypeView::MapOf(k, x) => lemma_map_stored(t, *k, *x, vs),
        TypeView::Tuple(ts) => lemma_tuple_stored(t, ts, vs),
        TypeView::TupleNamed(fs) => {
            lemma_fields_size(fs);
            lemma_tuple_stored(t, tuple_fields(t)->0, vs);
        },
        TypeView::Variant(ts) => lemma_variant_stored(t, ts, vs),
        _ => {
            reveal(stored);
        },
    }
}

pub(crate) proof fn lemma_array_parts(t: TypeView, inner: TypeView, vs: Seq<ValueView>)
    requires
        t == TypeView::Array(Box::new(inner)),
        column_bytes(t, vs) is Ok,
    ensures
        rows_of(t, vs) is Ok,
        joined_rows(rows_of(t, vs)->Ok_0).len() <= usize::MAX,
        wrapped(inner, joined_rows(rows_of(t, vs)->Ok_0)) is Ok,
        column_bytes(inner, wrapped(inner, joined_rows(rows_of(t, vs)->Ok_0))->Ok_0) is Ok,
        column_bytes(t, vs) == followed(
            Ok(offset_bytes(rows_of(t, vs)->Ok_0)),
            column_bytes(inner, wrapped(inner, joined_rows(rows_of(t, vs)->Ok_0))->Ok_0),
        ),
        stored(t, vs) == arrays_of(
            cut(
                rows_of(t, vs)->Ok_0,
                stored(inner, wrapped(inner, joined_rows(rows_of(t, vs)->Ok_0))->Ok_0),
            ),
        ),
{
    reveal(stored);
}

proof fn lemma_array_made(t: TypeView, inner: TypeView, rows: Seq<Seq<ValueView>>)
    requires
        t == TypeView::Array(Box::new(inner)),
    ensures
        rows_of(t, arrays_of(rows)) == Ok::<_, Error>(rows),
        column_fits(t, arrays_of(rows)) ==> column_fits(inner, joined_rows(rows)),
        column_fits(t, arrays_of(rows)) ==> joined_rows(rows).len() <= usize::MAX,
{
    let out = arrays_of(rows);
    assert forall|i: int| 0 <= i < out.len() implies row_items(t, #[trigger] out[i]) == Ok::<
        _,
        Error,
    >(rows[i]) by {}
    lemma_rows_made(t, out, rows);
}

proof fn lemma_array_wrote(t: TypeView, inner: TypeView, rows: Seq<Seq<ValueView>>)
    requires
        t == TypeView::Array(Box::new(inner)),
        column_fits(t, arrays_of(rows)),
    ensures
        column_bytes(t, arrays_of(rows)) == followed(
            Ok(offset_bytes(rows)),
            column_bytes(inner, joined_rows(rows)),
        ),
{
    lemma_array_made(t, inner, rows);
    lemma_wrapped(inner, joined_rows(rows));
}

proof fn lemma_array_stored(t: TypeView, inner: TypeView, vs: Seq<ValueView>)
    requires
        t == TypeView::Array(Box::new(inner)),
        column_bytes(t, vs) is Ok,
        column_fits(t, stored(t, vs)),
    ensures
        column_bytes(t, stored(t, vs)) == column_bytes(t, vs),
    decreases type_size(t), 0nat,
{
    lemma_array_parts(t, inner, vs);
    let rows = rows_of(t, vs)->Ok_0;
    let items = joined_rows(rows);
    let w = wrapped(inner, items)->Ok_0;
    let si = stored(inner, w);
    lemma_wrapped_len(inner, items);
    law_stored_len(inner, w);
    law_cut(rows, si);
    let made = cut(rows, si);
    lemma_array_made(t, inner, made);
    assert(type_size(inner) < type_size(t));
    law_stored_bytes(inner, w);
    lemma_array_wrote(t, inner, made);
    lemma_same_offset_bytes(made, rows);
}

proof fn lemma_nullable_stored(t: TypeView, inner: TypeView, vs: Seq<ValueView>)
    requires
        t == TypeView::Nullable(Box::new(inner)),
        column_bytes(t, vs) is Ok,
        column_fits(t, stored(t, vs)),
    ensures
        column_bytes(t, stored(t, vs)) == column_bytes(t, vs),
    decreases type_size(t), 0nat,
{
    reveal(stored);
    let out = stored(inner, vs);
    assert(stored(t, vs) == out);
    assert(column_bytes(inner, vs) is Ok);
    law_stored_len(inner, vs);
    assert(mask_bytes(out) =~= mask_bytes(vs));
    if is_cell_type(inner) {
        assert(out == vs);
    } else {
        assert(type_size(inner) < type_size(t));
        law_stored_bytes(inner, vs);
    }
}

proof fn lemma_map_made(
    t: TypeView,
    k: TypeView,
    x: TypeView,
    keys: Seq<Seq<ValueView>>,
    values: Seq<Seq<ValueView>>,
)
    requires
        t == TypeView::MapOf(Box::new(k), Box::new(x)),
        keys.len() == values.len(),
        forall|i: int| 0 <= i < keys.len() ==> (#[trigger] keys[i]).len() == values[i].len(),
    ensures
        rows_of(t, maps_of(keys, values)) == Ok::<_, Error>(keys),
        map_values(maps_of(keys, values)) == values,
{
    let out = maps_of(keys, values);
    assert forall|i: int| 0 <= i < out.len() implies row_items(t, #[trigger] out[i]) == Ok::<
        _,
        Error,
    >(keys[i]) by {
        assert(keys[i].len() == values[i].len());
    }
    lemma_rows_made(t, out, keys);
    assert(map_values(out) =~= values);
}

proof fn lemma_map_stored(t: TypeView, k: TypeView, x: TypeView, vs: Seq<ValueView>)
    requires
        t == TypeView::MapOf(Box::new(k), Box::new(x)),
        column_bytes(t, vs) is Ok,
        column_fits(t, stored(t, vs)),
    ensures
        column_bytes(t, stored(t, vs)) == column_bytes(t, vs),
    decreases type_size(t), 0nat,
{
    reveal(stored);
    let rows = rows_of(t, vs)->Ok_0;
    let mv = map_values(vs);
    lemma_rows_len(t, vs);
    lemma_map_rows(t, vs);
    let sk = stored(k, joined_rows(rows));
    let sx = stored(x, joined_rows(mv));
    law_stored_len(k, joined_rows(rows));
    law_stored_len(x, joined_rows(mv));
    law_cut(rows, sk);
    law_cut(mv, sx);
    let keys = cut(rows, sk);
    let values = cut(mv, sx);
    assert forall|i: int| 0 <= i < keys.len() implies (#[trigger] keys[i]).len()
        == values[i].len() by {
        assert(row_items(t, vs[i]) == Ok::<_, Error>(rows[i]));
    }
    assert(stored(t, vs) == maps_of(keys, values));
    lemma_map_made(t, k, x, keys, values);
    law_stored_bytes(k, joined_rows(rows));
    law_stored_bytes(x, joined_rows(mv));
    lemma_same_offset_bytes(keys, rows);
}

proof fn lemma_tuple_stored(t: TypeView, ts: Seq<TypeView>, vs: Seq<ValueView>)
    requires
        tuple_fields(t) == Some(ts),
        types_size(ts) < type_size(t),
        column_bytes(t, vs) is Ok,
        column_fits(t, stored(t, vs)),
    ensures
        column_bytes(t, stored(t, vs)) == column_bytes(t, vs),
    decreases type_size(t), 0nat,
{
    reveal(stored);
    let rows = rows_of(t, vs)->Ok_0;
    let n = vs.len();
    lemma_rows_len(t, vs);
    if all_long(rows, ts.len()) {
        let columns = stored_fields(ts, rows, 0);
        let out = tuples_of(columns, n);
        assert(stored(t, vs) == out);
        lemma_stored_fields(ts, rows, 0);
        let made = Seq::new(n, |i: int| Seq::new(columns.len(), |k: int| columns[k][i]));
        assert forall|i: int| 0 <= i < out.len() implies row_items(t, #[trigger] out[i]) == Ok::<
            _,
            Error,
        >(made[i]) by {}
        lemma_rows_made(t, out, made);
        assert(all_long(made, ts.len()));
        assert(field_columns(ts, rows, 0) is Ok);
        assert forall|k: int| 0 <= k < ts.len() implies column_of(made, k as nat)
            == #[trigger] columns[k] by {
            lemma_field_written(ts, rows, 0, k);
            lemma_column_of(rows, k as nat, ts.len());
            law_stored_len(ts[k], column_of(rows, k as nat));
            lemma_column_of(made, k as nat, ts.len());
            assert(columns[k] == stored(ts[k], column_of(rows, (0 + k) as nat)));
            assert(column_of(made, k as nat) =~= columns[k]);
        }
        lemma_fields_stored(ts, rows, made, 0, columns);
    }
}

proof fn lemma_field_written(ts: Seq<TypeView>, rows: Seq<Seq<ValueView>>, k: nat, i: int)
    requires
        field_columns(ts, rows, k) is Ok,
        0 <= i < ts.len(),
    ensures
        column_bytes(ts[i], column_of(rows, (k + i) as nat)) is Ok,
        type_size(ts[i]) < types_size(ts),
    decreases ts.len(),
{
    if i > 0 {
        let tail = ts.subrange(1, ts.len() as int);
        lemma_field_written(tail, rows, k + 1, i - 1);
        assert(tail[i - 1] == ts[i]);
        assert((k + 1 + (i - 1)) as nat == (k + i) as nat);
    }
}

proof fn lemma_fields_stored(
    ts: Seq<TypeView>,
    rows: Seq<Seq<ValueView>>,
    made: Seq<Seq<ValueView>>,
    k: nat,
    columns: Seq<Seq<ValueView>>,
)
    requires
        field_columns(ts, rows, k) is Ok,
        fields_fit(ts, made, k),
        columns.len() == k + ts.len(),
        forall|i: int|
            k <= i < columns.len() ==> (#[trigger] columns[i]) == stored(
                ts[i - k],
                column_of(rows, i as nat),
            ),
        forall|i: int|
            k <= i < columns.len() ==> column_of(made, i as nat) == #[trigger] columns[i],
    ensures
        field_columns(ts, made, k) == field_columns(ts, rows, k),
    decreases types_size(ts), 0nat,
{
    if ts.len() > 0 {
        let tail = ts.subrange(1, ts.len() as int);
        assert(columns[k as int] == stored(ts[0], column_of(rows, k)));
        assert(column_of(made, k) == columns[k as int]);
        law_stored_bytes(ts[0], column_of(rows, k));
        assert forall|i: int| k + 1 <= i < columns.len() implies (#[trigger] columns[i]) == stored(
            tail[i - (k + 1)],
            column_of(rows, i as nat),
        ) by {
            assert(tail[i - (k + 1)] == ts[i - k]);
        }
        lemma_fields_stored(tail, rows, made, k + 1, columns);
    }
}

proof fn lemma_ranked(ds: Seq<u8>, d: u8, n: int, r: nat)
    requires
        0 <= n <= ds.len(),
        r < rank(ds, d, n),
    ensures
        exists|i: int| 0 <= i < n && #[trigger] ds[i] == d && rank(ds, d, i) == r,
    decreases n,
{
    if n > 0 {
        if ds[n - 1] == d && rank(ds, d, n - 1) == r {
            assert(ds[n - 1] == d);
        } else {
            lemma_ranked(ds, d, n - 1, r);
        }
    }
}

pub(crate) proof fn lemma_group_stored(vs: Seq<ValueView>, columns: Seq<Seq<ValueView>>, d: u8)
    requires
        all_variants(vs),
        d != NULL_DISCRIMINATOR,
        d < columns.len(),
        columns[d as int].len() == group_of(vs, d).len(),
    ensures
        group_of(variants_of(vs, columns), d) == columns[d as int],
        discriminators_of(variants_of(vs, columns)) == discriminators_of(vs),
{
    let out = variants_of(vs, columns);
    let ds = discriminators_of(vs);
    assert(discriminators_of(out) =~= ds) by {
        assert forall|i: int| 0 <= i < vs.len() implies discriminators_of(out)[i] == ds[i] by {
            assert(vs[i] is Variant);
        }
    }
    lemma_group_len(vs, d);
    lemma_group_len(out, d);
    let g = group_of(out, d);
    assert forall|r: int| 0 <= r < g.len() implies g[r] == columns[d as int][r] by {
        lemma_ranked(ds, d, vs.len() as int, r as nat);
        let i = choose|i: int| 0 <= i < vs.len() && #[trigger] ds[i] == d && rank(ds, d, i) == r;
        assert(vs[i] is Variant);
        lemma_group_rank(out, d, i);
    }
    assert(g =~= columns[d as int]);
}

pub(crate) proof fn lemma_group_written(ts: Seq<TypeView>, vs: Seq<ValueView>, d: nat, i: int)
    requires
        group_columns(ts, vs, d) is Ok,
        0 <= i < ts.len(),
    ensures
        d + i != NULL_DISCRIMINATOR && group_of(vs, (d + i) as u8).len() > 0 ==> column_bytes(
            ts[i],
            group_of(vs, (d + i) as u8),
        ) is Ok,
        type_size(ts[i]) < types_size(ts),
    decreases ts.len(),
{
    if i > 0 {
        let tail = ts.subrange(1, ts.len() as int);
        lemma_group_written(tail, vs, d + 1, i - 1);
        assert(tail[i - 1] == ts[i]);
        assert((d + 1 + (i - 1)) as u8 == (d + i) as u8);
    }
}

proof fn lemma_variant_stored(t: TypeView, ts: Seq<TypeView>, vs: Seq<ValueView>)
    requires
        t == TypeView::Variant(ts),
        column_bytes(t, vs) is Ok,
        column_fits(t, stored(t, vs)),
    ensures
        column_bytes(t, stored(t, vs)) == column_bytes(t, vs),
    decreases type_size(t), 0nat,
{
    reveal(stored);
    lemma_sorted_size(ts);
    law_sorted_types(ts);
    let sorted = sorted_types(ts);
    let columns = stored_groups(sorted, vs, 0);
    let out = variants_of(vs, columns);
    assert(stored(t, vs) == out);
    lemma_stored_groups(sorted, vs, 0);
    assert(all_variants(vs));
    assert(group_columns(sorted, vs, 0) is Ok);
    lemma_columns_long(sorted, vs, columns);
    assert(discriminators_of(out) =~= discriminators_of(vs)) by {
        assert forall|i: int| 0 <= i < vs.len() implies discriminators_of(out)[i]
            == discriminators_of(vs)[i] by {
            assert(vs[i] is Variant);
        }
    }
    lemma_groups_stored(sorted, vs, out, 0, columns);
}

pub(crate) proof fn lemma_columns_long(ts: Seq<TypeView>, vs: Seq<ValueView>, columns: Seq<Seq<ValueView>>)
    requires
        ts.len() <= 256,
        group_columns(ts, vs, 0) is Ok,
        columns.len() == ts.len(),
        forall|i: int|
            0 <= i < ts.len() ==> (#[trigger] columns[i]) == stored_group(ts[i], vs, i as nat),
    ensures
        forall|i: int|
            0 <= i < ts.len() && i != NULL_DISCRIMINATOR ==> (#[trigger] columns[i]).len()
                == group_of(vs, i as u8).len(),
{
    reveal(stored);
    assert forall|i: int| 0 <= i < ts.len() && i != NULL_DISCRIMINATOR implies (
    #[trigger] columns[i]).len() == group_of(vs, i as u8).len() by {
        lemma_group_written(ts, vs, 0, i);
        if group_of(vs, i as u8).len() > 0 {
            law_stored_len(ts[i], group_of(vs, i as u8));
        }
    }
}

proof fn lemma_groups_stored(
    ts: Seq<TypeView>,
    vs: Seq<ValueView>,
    out: Seq<ValueView>,
    d: nat,
    columns: Seq<Seq<ValueView>>,
)
    requires
        all_variants(vs),
        out == variants_of(vs, columns),
        group_columns(ts, vs, d) is Ok,
        groups_fit(ts, out, d),
        columns.len() == d + ts.len(),
        columns.len() <= 256,
        forall|i: int|
            d <= i < columns.len() ==> (#[trigger] columns[i]) == stored_group(
                ts[i - d],
                vs,
                i as nat,
            ),
        forall|i: int|
            0 <= i < columns.len() && i != NULL_DISCRIMINATOR ==> (#[trigger] columns[i]).len()
                == group_of(vs, i as u8).len(),
    ensures
        group_columns(ts, out, d) == group_columns(ts, vs, d),
    decreases types_size(ts), 0nat,
{
    if ts.len() > 0 {
        let tail = ts.subrange(1, ts.len() as int);
        assert(columns[d as int] == stored_group(ts[0], vs, d));
        reveal(stored);
        if d != NULL_DISCRIMINATOR {
            lemma_group_stored(vs, columns, d as u8);
            if group_of(vs, d as u8).len() > 0 {
                law_stored_bytes(ts[0], group_of(vs, d as u8));
            }
        }
        assert forall|i: int| d + 1 <= i < columns.len() implies (#[trigger] columns[i])
            == stored_group(tail[i - (d + 1)], vs, i as nat) by {
            assert(tail[i - (d + 1)] == ts[i - d]);
        }
        lemma_groups_stored(tail, vs, out, d + 1, columns);
    }
}

// ---------------------------------------------------------------------------
// Reading back
// ---------------------------------------------------------------------------

/// Whether values can be written as a column, and are of its type as they are written.
pub open spec fn is_stored(t: TypeView, vs: Seq<ValueView>) -> bool {
    column_bytes(t, vs) is Ok && column_fits(t, stored(t, vs))
}

/// What is read of a column is what its values are written as: of an array of bare values
/// of several types the same values under the discriminators of their types.
pub proof fn law_mixed_column_reads_back(
    t: TypeView,
    vs: Seq<ValueView>,
    rest: Seq<u8>,
    path: Seq<u16>,
    states: States,
)
    requires
        is_stored(t, vs),
    ensures
        parsed_column(
            column_bytes(t, vs)->Ok_0 + rest,
            t,
            vs.len(),
            Set::empty(),
            path,
            states,
        ) == Ok::<_, Error>(((stored(t, vs), states), rest)),
{
    law_stored_bytes(t, vs);
    law_stored_len(t, vs);
    law_column_reads_back(t, stored(t, vs), rest, path, states);
}

// ---------------------------------------------------------------------------
// Values that have their discriminators
// ---------------------------------------------------------------------------

/// Values of the type of a column are written as they are.
pub proof fn law_stored_same(t: TypeView, vs: Seq<ValueView>)
    requires
        column_fits(t, vs),
    ensures
        stored(t, vs) == vs,
    decreases type_size(t), 1nat,
{
    match t {
        TypeView::Array(inner) => {
            reveal(stored);
            let rows = rows_of(t, vs)->Ok_0;
            lemma_rows_len(t, vs);
            lemma_wrapped(*inner, joined_rows(rows));
            law_stored_same(*inner, joined_rows(rows));
            lemma_cut_same(rows);
            let si = stored(*inner, joined_rows(rows));
            assert(stored(t, vs) == arrays_of(cut(rows, si)));
            assert forall|i: int| 0 <= i < vs.len() implies arrays_of(rows)[i] == #[trigger] vs[i] by {
                assert(row_items(t, vs[i]) == Ok::<_, Error>(rows[i]));
            }
            assert(arrays_of(rows) =~= vs);
        },
        TypeView::Nullable(inner) => {
            reveal(stored);
            if is_cell_type(*inner) {
                assert(stored(*inner, vs) == vs);
            } else {
                law_stored_same(*inner, vs);
            }
        },
        TypeView::MapOf(k, x) => {
            reveal(stored);
            let rows = rows_of(t, vs)->Ok_0;
            lemma_rows_len(t, vs);
            law_stored_same(*k, joined_rows(rows));
            law_stored_same(*x, joined_rows(map_values(vs)));
            lemma_cut_same(rows);
            lemma_cut_same(map_values(vs));
            let made = maps_of(rows, map_values(vs));
            assert forall|i: int| 0 <= i < vs.len() implies made[i] == #[trigger] vs[i] by {
                assert(row_items(t, vs[i]) == Ok::<_, Error>(rows[i]));
            }
            assert(made =~= vs);
        },
        TypeView::Tuple(ts) => lemma_tuple_same(t, ts, vs),
        TypeView::TupleNamed(fs) => {
            lemma_fields_size(fs);
            lemma_tuple_same(t, tuple_fields(t)->0, vs);
        },
        TypeView::Variant(ts) => lemma_variant_same(t, ts, vs),
        _ => {
            reveal(stored);
        },
    }
}

proof fn lemma_tuple_same(t: TypeView, ts: Seq<TypeView>, vs: Seq<ValueView>)
    requires
        tuple_fields(t) == Some(ts),
        types_size(ts) < type_size(t),
        column_fits(t, vs),
    ensures
        stored(t, vs) == vs,
    decreases type_size(t), 0nat,
{
    reveal(stored);
    let rows = rows_of(t, vs)->Ok_0;
    lemma_rows_len(t, vs);
    lemma_stored_fields(ts, rows, 0);
    lemma_fields_same(ts, rows, 0);
    let columns = stored_fields(ts, rows, 0);
    let made = tuples_of(columns, vs.len());
    assert forall|i: int| 0 <= i < vs.len() implies made[i] == #[trigger] vs[i] by {
        assert(row_items(t, vs[i]) == Ok::<_, Error>(rows[i]));
        let row = Seq::new(columns.len(), |k: int| columns[k][i]);
        assert forall|k: int| 0 <= k < ts.len() implies row[k] == rows[i][k] by {
            assert(columns[k] == column_of(rows, (0 + k) as nat));
            lemma_column_of(rows, k as nat, ts.len());
        }
        assert(rows[i].len() == ts.len());
        assert(row =~= rows[i]);
    }
    assert(made =~= vs);
}

proof fn lemma_fields_same(ts: Seq<TypeView>, rows: Seq<Seq<ValueView>>, k: nat)
    requires
        fields_fit(ts, rows, k),
    ensures
        forall|i: int|
            0 <= i < ts.len() ==> stored(#[trigger] ts[i], column_of(rows, (k + i) as nat))
                == column_of(rows, (k + i) as nat),
    decreases types_size(ts), 0nat,
{
    if ts.len() > 0 {
        let tail = ts.subrange(1, ts.len() as int);
        law_stored_same(ts[0], column_of(rows, k));
        lemma_fields_same(tail, rows, k + 1);
        assert forall|i: int| 0 <= i < ts.len() implies stored(
            #[trigger] ts[i],
            column_of(rows, (k + i) as nat),
        ) == column_of(rows, (k + i) as nat) by {
            if i > 0 {
                assert(tail[i - 1] == ts[i]);
                assert((k + 1 + (i - 1)) as nat == (k + i) as nat);
            }
        }
    }
}

proof fn lemma_groups_same(ts: Seq<TypeView>, vs: Seq<ValueView>, d: nat)
    requires
        groups_fit(ts, vs, d),
    ensures
        forall|i: int|
            0 <= i < ts.len() && d + i != NULL_DISCRIMINATOR ==> stored(
                #[trigger] ts[i],
                group_of(vs, (d + i) as u8),
            ) == group_of(vs, (d + i) as u8),
    decreases types_size(ts), 0nat,
{
    if ts.len() > 0 {
        let tail = ts.subrange(1, ts.len() as int);
        if d != NULL_DISCRIMINATOR {
            law_stored_same(ts[0], group_of(vs, d as u8));
        }
        lemma_groups_same(tail, vs, d + 1);
        assert forall|i: int| 0 <= i < ts.len() && d + i != NULL_DISCRIMINATOR implies stored(
            #[trigger] ts[i],
            group_of(vs, (d + i) as u8),
        ) == group_of(vs, (d + i) as u8) by {
            if i > 0 {
                assert(tail[i - 1] == ts[i]);
                assert((d + 1 + (i - 1)) as u8 == (d + i) as u8);
            }
        }
    }
}

proof fn lemma_variant_same(t: TypeView, ts: Seq<TypeView>, vs: Seq<ValueView>)
    requires
        t == TypeView::Variant(ts),
        column_fits(t, vs),
    ensures
        stored(t, vs) == vs,
    decreases type_size(t), 0nat,
{
    reveal(stored);
    lemma_sorted_size(ts);
    law_sorted_types(ts);
    let sorted = sorted_types(ts);
    let columns = stored_groups(sorted, vs, 0);
    lemma_stored_groups(sorted, vs, 0);
    lemma_groups_same(sorted, vs, 0);
    let made = variants_of(vs, columns);
    assert forall|i: int| 0 <= i < vs.len() implies made[i] == #[trigger] vs[i] by {
        assert(vs[i] is Variant);
        let d = vs[i]->Variant_0;
        if d != NULL_DISCRIMINATOR && d < columns.len() {
            lemma_group_rank(vs, d, i);
            assert(columns[d as int] == stored_group(sorted[d as int], vs, (0 + d) as nat));
            assert(columns[d as int] == group_of(vs, d));
        }
    }
    assert(made =~= vs);
}

/// Values of the type of a column can be read back as they are written.
pub proof fn law_fitting_is_stored(t: TypeView, vs: Seq<ValueView>)
    requires
        column_fits(t, vs),
    ensures
        is_stored(t, vs),
        stored(t, vs) == vs,
{
    law_stored_same(t, vs);
    law_column_reads_back(t, vs, Seq::empty(), Seq::empty(), Map::empty());
}

/// Arrays of bare values of several types are read back as arrays of the same values under
/// the discriminators of their types.
pub proof fn law_array_of_several_types_reads_back(
    ts: Seq<TypeView>,
    vs: Seq<ValueView>,
    w: Seq<ValueView>,
    rest: Seq<u8>,
    path: Seq<u16>,
    states: States,
)
    requires
        rows_of(TypeView::Array(Box::new(TypeView::Variant(ts))), vs) is Ok,
        ({
            let items = joined_rows(
                rows_of(TypeView::Array(Box::new(TypeView::Variant(ts))), vs)->Ok_0,
            );
            &&& items.len() <= usize::MAX
            &&& some_bare(items)
            &&& all_discriminated(items, ts) == Ok::<_, Error>(w)
        }),
        column_fits(TypeView::Variant(ts), w),
    ensures
        ({
            let t = TypeView::Array(Box::new(TypeView::Variant(ts)));
            let rows = rows_of(t, vs)->Ok_0;
            &&& is_stored(t, vs)
            &&& stored(t, vs) == arrays_of(cut(rows, w))
            &&& parsed_column(
                column_bytes(t, vs)->Ok_0 + rest,
                t,
                vs.len(),
                Set::empty(),
                path,
                states,
            ) == Ok::<_, Error>(((arrays_of(cut(rows, w)), states), rest))
        }),
{
    let inner = TypeView::Variant(ts);
    let t = TypeView::Array(Box::new(inner));
    let rows = rows_of(t, vs)->Ok_0;
    let items = joined_rows(rows);
    assert(wrapped(inner, items) == Ok::<_, Error>(w));
    law_column_reads_back(inner, w, rest, path, states);
    assert(column_bytes(t, vs) == followed(Ok(offset_bytes(rows)), column_bytes(inner, w)));
    lemma_array_parts(t, inner, vs);
    law_stored_same(inner, w);
    lemma_wrapped_len(inner, items);
    law_cut(rows, w);
    let made = cut(rows, w);
    lemma_rows_len(t, vs);
    assert forall|i: int| 0 <= i < made.len() implies row_items(t, #[trigger] arrays_of(made)[i])
        == Ok::<_, Error>(made[i]) by {}
    lemma_rows_made(t, arrays_of(made), made);
    assert(column_fits(t, arrays_of(made)));
    law_mixed_column_reads_back(t, vs, rest, path, states);
}

} // verus!
