//! Columns of types that hold columns of any values, or of documents, are read back.
use vstd::prelude::*;

use crate::column_laws::{
    all_known, all_long, group_entry, groups_from, law_prefix_reads_back, lemma_array_rows,
    lemma_column_of, lemma_joined_lens, lemma_map_rows_back, lemma_offsets_read_back,
    lemma_row_across, lemma_rows_end, no_nulls, offsets_of, plain_prefix, plain_prefixes,
};
use crate::column_read::{
    all_found, array_rows, ascending, map_rows, masked, parsed_offsets, reach, row_across,
    tuple_rows, variant_rows, States,
};
use crate::columns::{
    column_of, field_types, joined_rows, lemma_fields_size, lemma_map_rows, lemma_rows_len,
    lemma_sorted_size, map_values, mask_bytes, offset_bytes, row_items, rows_of, some_bare,
    tuple_fields, type_size, types_size, wrapped,
};
use crate::dynamic::{
    all_registered, discriminator_bytes, entries_of, law_values_are_registered, names_of, registry,
    takes_complex_types, type_columns, value_discriminators, values_of_type,
    DYNAMIC_VERSION_FLATTENED,
};
use crate::dynamic_laws::{
    dynamic_stored, law_dynamic_prefix_reads_back, law_mixed_dynamic_reads_back, lemma_empty_stored,
    names_tell, types_stored,
};
use crate::error::Error;
use crate::held_columns::{
    any_holds, held_bytes, held_fields, held_group, held_groups, held_prefix, held_prefixes, holds,
    left, left_group, lemma_held_fields_step, lemma_held_groups_step, parsed_held,
    parsed_held_fields, parsed_held_groups, parsed_held_prefix, parsed_held_prefixes, Held,
};
use crate::json_columns::{JsonParts, JSON_OBJECT_VERSION_FLATTENED};
use crate::json_documents::documents;
use crate::json_laws::{layout_of, stored_block};
use crate::json_read::typed_paths_in;
use crate::json_write::{json_bytes, written_version};
use crate::mixed_laws::{
    arrays_of, cut, is_stored, law_cut, law_mixed_column_reads_back, law_stored_len, lemma_cut_same,
    lemma_rows_made, lemma_same_offset_bytes, lemma_wrapped_len, stored,
};
use crate::sparse::SparseState;
use crate::type_order::{law_sorted_types, sorted_types};
use crate::types::TypeView;
use crate::values::ValueView;
use crate::variant::{
    all_variants, discriminators_of, group_of, lemma_group_len, lemma_group_rank, rank, row_value,
    variant_ok, NULL_DISCRIMINATOR,
};
use crate::whole_columns::{
    dynamic_reads, dynamic_stores, json_reads, lemma_dynamic_same, lemma_json_back,
    lemma_json_prefix_back, ServerVersion,
};
use crate::wire::{law_uint_reads_back, le_bytes, lemma_pow256, parsed_bytes};

verus! {

// ---------------------------------------------------------------------------
// Columns that fit what is known of them
// ---------------------------------------------------------------------------

/// Whether values are those of which the types are known, and are written as `out`.
pub open spec fn known_values(
    vs: Seq<ValueView>,
    out: Seq<ValueView>,
    entries: Seq<(Seq<char>, TypeView)>,
) -> bool {
    &&& all_registered(vs, names_of(entries))
    &&& types_stored(field_types(entries), vs, names_of(entries), 0)
    &&& entries.len() <= u64::MAX
    &&& out == dynamic_stored(vs, entries)
}

/// Whether values are the documents of which the columns are known, and `out` are those that
/// the columns make.
pub open spec fn known_documents(
    vs: Seq<ValueView>,
    out: Seq<ValueView>,
    p: JsonParts,
) -> bool {
    &&& json_reads(p)
    &&& p.rows == vs.len()
    &&& out.len() == vs.len()
    &&& documents(stored_block(p), p.rows) == Ok::<_, Error>(out)
    &&& vs.len() == 0 ==> json_bytes(p) == Ok::<_, Error>(Seq::<u8>::empty())
}

/// Whether rows are as many as others, and each as long.
pub open spec fn same_shape(a: Seq<Seq<ValueView>>, b: Seq<Seq<ValueView>>) -> bool {
    &&& a.len() == b.len()
    &&& forall|i: int| 0 <= i < a.len() ==> (#[trigger] a[i]).len() == b[i].len()
}

/// Whether the values of a column are values of the type that are read back as `out`, where
/// `w` is known as it is written and `r` as it is read. They are the same values, but for
/// the discriminators of bare elements of arrays of variants.
#[verifier::opaque]
pub open spec fn held_fits(
    t: TypeView,
    vs: Seq<ValueView>,
    out: Seq<ValueView>,
    w: Held,
    r: Held,
) -> bool
    decreases type_size(t), 0nat,
{
    if !holds(t) {
        is_stored(t, vs) && out == stored(t, vs)
    } else if let Some(ts) = tuple_fields(t) {
        if types_size(ts) >= type_size(t) {
            arbitrary()
        } else {
            match (rows_of(t, vs), rows_of(t, out)) {
                (Ok(rows), Ok(back)) => {
                    &&& rows.len() == back.len()
                    &&& all_long(rows, ts.len())
                    &&& all_long(back, ts.len())
                    &&& held_fields_fit(ts, rows, back, 0, w, r)
                },
                _ => false,
            }
        }
    } else {
        match t {
            TypeView::Dynamic { .. } => match (w, r) {
                (Held::Dynamic(_, entries), Held::Dynamic(version, told)) => {
                    &&& known_values(vs, out, entries)
                    &&& told == entries
                    &&& version == Some(DYNAMIC_VERSION_FLATTENED)
                },
                _ => false,
            },
            TypeView::JSON { .. } => match (w, r) {
                (Held::Json(p), Held::Layout(layout)) => known_documents(vs, out, p) && layout
                    == layout_of(p),
                _ => false,
            },
            TypeView::Array(inner) => match (rows_of(t, vs), rows_of(t, out)) {
                (Ok(rows), Ok(back)) => {
                    &&& same_shape(rows, back)
                    &&& joined_rows(rows).len() <= usize::MAX
                    &&& wrapped(*inner, joined_rows(rows)) is Ok
                    &&& held_fits(
                        *inner,
                        wrapped(*inner, joined_rows(rows))->Ok_0,
                        joined_rows(back),
                        w,
                        r,
                    )
                },
                _ => false,
            },
            TypeView::Nullable(inner) => no_nulls(vs) && no_nulls(out) && held_fits(
                *inner,
                vs,
                out,
                w,
                r,
            ),
            TypeView::MapOf(k, x) => match (rows_of(t, vs), rows_of(t, out)) {
                (Ok(rows), Ok(back)) => {
                    &&& same_shape(rows, back)
                    &&& joined_rows(rows).len() <= usize::MAX
                    &&& held_fits(*k, joined_rows(rows), joined_rows(back), w, r)
                    &&& held_fits(
                        *x,
                        joined_rows(map_values(vs)),
                        joined_rows(map_values(out)),
                        left(*k, joined_rows(rows), w),
                        r,
                    )
                },
                _ => false,
            },
            TypeView::Variant(ts) => if types_size(sorted_types(ts)) >= type_size(t) {
                arbitrary()
            } else {
                &&& variant_ok(ts)
                &&& all_variants(vs)
                &&& all_variants(out)
                &&& discriminators_of(vs) == discriminators_of(out)
                &&& all_known(out, ts.len())
                &&& held_groups_fit(sorted_types(ts), vs, out, 0, w, r)
            },
            _ => false,
        }
    }
}

/// Whether the values of a variant are values of their types, from the discriminator
/// `d` on.
pub open spec fn held_groups_fit(
    ts: Seq<TypeView>,
    vs: Seq<ValueView>,
    out: Seq<ValueView>,
    d: nat,
    w: Held,
    r: Held,
) -> bool
    decreases types_size(ts), 0nat,
{
    ts.len() == 0 || {
        &&& d != NULL_DISCRIMINATOR && group_of(vs, d as u8).len() > 0 ==> held_fits(
            ts[0],
            group_of(vs, d as u8),
            group_of(out, d as u8),
            w,
            r,
        )
        &&& held_groups_fit(
            ts.subrange(1, ts.len() as int),
            vs,
            out,
            d + 1,
            left_group(ts[0], vs, d, w),
            r,
        )
    }
}

/// Whether the fields of tuples are values of their types, from the field `k` on.
pub open spec fn held_fields_fit(
    ts: Seq<TypeView>,
    rows: Seq<Seq<ValueView>>,
    back: Seq<Seq<ValueView>>,
    k: nat,
    w: Held,
    r: Held,
) -> bool
    decreases types_size(ts), 0nat,
{
    ts.len() == 0 || {
        &&& held_fits(ts[0], column_of(rows, k), column_of(back, k), w, r)
        &&& held_fields_fit(
            ts.subrange(1, ts.len() as int),
            rows,
            back,
            k + 1,
            left(ts[0], column_of(rows, k), w),
            r,
        )
    }
}

proof fn lemma_same_joined(a: Seq<Seq<ValueView>>, b: Seq<Seq<ValueView>>)
    requires
        same_shape(a, b),
    ensures
        offset_bytes(a) == offset_bytes(b),
        joined_rows(a).len() == joined_rows(b).len(),
{
    lemma_same_offset_bytes(a, b);
    lemma_joined_lens(a, b);
}

// ---------------------------------------------------------------------------
// Empty columns
// ---------------------------------------------------------------------------

proof fn lemma_empty_types(ts: Seq<TypeView>, names: Seq<Seq<char>>, d: nat)
    requires
        types_stored(ts, Seq::empty(), names, d),
    ensures
        type_columns(ts, Seq::empty(), names, d) == Ok::<_, Error>(Seq::<u8>::empty()),
    decreases ts.len(),
{
    let none = Seq::<ValueView>::empty();
    if ts.len() > 0 {
        let tail = ts.subrange(1, ts.len() as int);
        assert(values_of_type(none, names, d) =~= none);
        assert(is_stored(ts[0], values_of_type(none, names, (d + 0) as nat)));
        lemma_empty_stored(ts[0]);
        assert forall|i: int| 0 <= i < tail.len() implies is_stored(
            #[trigger] tail[i],
            values_of_type(none, names, (d + 1 + i) as nat),
        ) by {
            assert(is_stored(ts[i + 1], values_of_type(none, names, (d + (i + 1)) as nat)));
        }
        lemma_empty_types(tail, names, d + 1);
        assert(Seq::<u8>::empty() + Seq::<u8>::empty() =~= Seq::<u8>::empty());
    }
}

/// A column without values takes no bytes.
#[verifier::spinoff_prover]
#[verifier::rlimit(40)]
pub proof fn law_empty_held_column(t: TypeView, out: Seq<ValueView>, w: Held, r: Held)
    requires
        held_fits(t, Seq::empty(), out, w, r),
    ensures
        held_bytes(t, Seq::empty(), w) == Ok::<_, Error>(Seq::<u8>::empty()),
    decreases type_size(t), 0nat,
{
    reveal(held_bytes);
    reveal(held_fits);
    reveal(left);
    let none = Seq::<ValueView>::empty();
    let no_rows = Seq::<Seq<ValueView>>::empty();
    assert(Seq::<u8>::empty() + Seq::<u8>::empty() =~= Seq::<u8>::empty());
    if !holds(t) {
        lemma_empty_stored(t);
    } else if let Some(ts) = tuple_fields(t) {
        if let TypeView::TupleNamed(fs) = t {
            lemma_fields_size(fs);
        }
        lemma_empty_held_fields(ts, rows_of(t, out)->Ok_0, 0, w, r);
    } else {
        match t {
            TypeView::Dynamic { .. } => {
                let entries = w->Dynamic_1;
                let names = names_of(entries);
                lemma_empty_types(field_types(entries), names, 0);
                assert(value_discriminators(none, names) =~= Seq::<u64>::empty());
                assert(discriminator_bytes(Seq::<u64>::empty(), names.len()) =~= Seq::<
                    u8,
                >::empty());
            },
            TypeView::Array(inner) => {
                assert(joined_rows(no_rows) == none);
                assert(!some_bare(none));
                assert(wrapped(*inner, none) == Ok::<_, Error>(none));
                law_empty_held_column(*inner, joined_rows(rows_of(t, out)->Ok_0), w, r);
                assert(offset_bytes(no_rows) + Seq::<u8>::empty() =~= Seq::<u8>::empty());
            },
            TypeView::Nullable(inner) => {
                assert(mask_bytes(none) =~= Seq::<u8>::empty());
                law_empty_held_column(*inner, out, w, r);
            },
            TypeView::MapOf(k, x) => {
                assert(joined_rows(no_rows) == none);
                assert(map_values(none) =~= no_rows);
                law_empty_held_column(*k, joined_rows(rows_of(t, out)->Ok_0), w, r);
                law_empty_held_column(*x, joined_rows(map_values(out)), left(*k, none, w), r);
                assert(offset_bytes(no_rows) =~= Seq::<u8>::empty());
            },
            TypeView::Variant(ts) => {
                assert(discriminators_of(none) =~= Seq::<u8>::empty());
                lemma_sorted_size(ts);
                lemma_empty_held_groups(sorted_types(ts), 0, w);
            },
            _ => {},
        }
    }
}

proof fn lemma_empty_held_groups(ts: Seq<TypeView>, d: nat, w: Held)
    ensures
        held_groups(ts, Seq::empty(), d, w) == Ok::<_, Error>(Seq::<u8>::empty()),
    decreases types_size(ts), 0nat,
{
    reveal(held_bytes);
    reveal(left);
    if ts.len() > 0 {
        assert(group_of(Seq::<ValueView>::empty(), d as u8) == Seq::<ValueView>::empty());
        assert(held_group(ts[0], Seq::empty(), d, w) == Ok::<_, Error>(Seq::<u8>::empty()));
        lemma_empty_held_groups(
            ts.subrange(1, ts.len() as int),
            d + 1,
            left_group(ts[0], Seq::empty(), d, w),
        );
        assert(Seq::<u8>::empty() + Seq::<u8>::empty() =~= Seq::<u8>::empty());
    }
}

proof fn lemma_empty_held_fields(
    ts: Seq<TypeView>,
    back: Seq<Seq<ValueView>>,
    k: nat,
    w: Held,
    r: Held,
)
    requires
        held_fields_fit(ts, Seq::empty(), back, k, w, r),
    ensures
        held_fields(ts, Seq::empty(), k, w) == Ok::<_, Error>(Seq::<u8>::empty()),
    decreases types_size(ts), 0nat,
{
    reveal(held_bytes);
    reveal(held_fits);
    reveal(left);
    if ts.len() > 0 {
        assert(column_of(Seq::<Seq<ValueView>>::empty(), k) == Seq::<ValueView>::empty());
        law_empty_held_column(ts[0], column_of(back, k), w, r);
        lemma_empty_held_fields(
            ts.subrange(1, ts.len() as int),
            back,
            k + 1,
            left(ts[0], Seq::empty(), w),
            r,
        );
        assert(Seq::<u8>::empty() + Seq::<u8>::empty() =~= Seq::<u8>::empty());
    }
}

// ---------------------------------------------------------------------------
// Columns
// ---------------------------------------------------------------------------

/// Columns of types that hold no others, or are themselves such columns.
proof fn lemma_leaf_back(
    t: TypeView,
    vs: Seq<ValueView>,
    out: Seq<ValueView>,
    w: Held,
    r: Held,
    rest: Seq<u8>,
    path: Seq<u16>,
    states: States,
)
    requires
        held_fits(t, vs, out, w, r),
        !holds(t) || t is Dynamic || t is JSON,
    ensures
        out.len() == vs.len(),
        held_bytes(t, vs, w) is Ok,
        parsed_held(
            held_bytes(t, vs, w)->Ok_0 + rest,
            t,
            vs.len(),
            Set::empty(),
            path,
            states,
            r,
        ) == Ok::<_, Error>(((out, states), rest)),
{
    reveal(held_bytes);
    reveal(held_fits);
    reveal(parsed_held);
    if !holds(t) {
        law_stored_len(t, vs);
        law_mixed_column_reads_back(t, vs, rest, path, states);
    } else {
        match t {
            TypeView::Dynamic { .. } => law_mixed_dynamic_reads_back(vs, w->Dynamic_1, rest),
            _ => {
                let b = lemma_json_back(w->Json_0, rest);
            },
        }
    }
}

proof fn lemma_type_fits(
    t: TypeView,
    vs: Seq<ValueView>,
    out: Seq<ValueView>,
    w: Held,
    r: Held,
)
    requires
        held_fits(t, vs, out, w, r),
        holds(t),
    ensures
        !(t is Dynamic) && !(t is JSON) ==> t is Array || t is Nullable || t is MapOf
            || t is Variant || tuple_fields(t) is Some,
{
    reveal(held_fits);
}

/// A column that was written is read back, whatever stands behind it: its values, with
/// discriminators where bare elements of arrays of variants had none.
#[verifier::spinoff_prover]
#[verifier::rlimit(40)]
pub proof fn law_held_column_reads_back(
    t: TypeView,
    vs: Seq<ValueView>,
    out: Seq<ValueView>,
    w: Held,
    r: Held,
    rest: Seq<u8>,
    path: Seq<u16>,
    states: States,
)
    requires
        held_fits(t, vs, out, w, r),
    ensures
        out.len() == vs.len(),
        held_bytes(t, vs, w) is Ok,
        parsed_held(
            held_bytes(t, vs, w)->Ok_0 + rest,
            t,
            vs.len(),
            Set::empty(),
            path,
            states,
            r,
        ) == Ok::<_, Error>(((out, states), rest)),
    decreases type_size(t), 1nat,
{
    if !holds(t) || t is Dynamic || t is JSON {
        lemma_leaf_back(t, vs, out, w, r, rest, path, states);
    } else if let Some(ts) = tuple_fields(t) {
        lemma_tuples_back(t, ts, vs, out, w, r, rest, path, states);
    } else {
        lemma_type_fits(t, vs, out, w, r);
        match t {
            TypeView::Array(inner) => {
                lemma_arrays_back(t, *inner, vs, out, w, r, rest, path, states);
            },
            TypeView::Nullable(inner) => {
                lemma_nullable_fits(t, vs, out, w, r);
                law_held_column_reads_back(*inner, vs, out, w, r, rest, path.push(0), states);
                let b = held_bytes(*inner, vs, w)->Ok_0;
                lemma_nulls_back(t, vs, out, w, r, b, rest, path, states);
            },
            TypeView::MapOf(k, x) => {
                lemma_maps_back(t, *k, *x, vs, out, w, r, rest, path, states);
            },
            TypeView::Variant(ts) => {
                lemma_variants_back(t, ts, vs, out, w, r, rest, path, states);
            },
            _ => {},
        }
    }
}

#[verifier::spinoff_prover]
#[verifier::rlimit(60)]
proof fn lemma_tuples_back(
    t: TypeView,
    ts: Seq<TypeView>,
    vs: Seq<ValueView>,
    out: Seq<ValueView>,
    w: Held,
    r: Held,
    rest: Seq<u8>,
    path: Seq<u16>,
    states: States,
)
    requires
        tuple_fields(t) == Some(ts),
        holds(t),
        held_fits(t, vs, out, w, r),
    ensures
        out.len() == vs.len(),
        held_bytes(t, vs, w) is Ok,
        parsed_held(
            held_bytes(t, vs, w)->Ok_0 + rest,
            t,
            vs.len(),
            Set::empty(),
            path,
            states,
            r,
        ) == Ok::<_, Error>(((out, states), rest)),
    decreases type_size(t), 0nat,
{
    reveal(held_bytes);
    reveal(held_fits);
    reveal(parsed_held);
    if let TypeView::TupleNamed(fs) = t {
        lemma_fields_size(fs);
    }
    let rows = rows_of(t, vs)->Ok_0;
    let back = rows_of(t, out)->Ok_0;
    lemma_rows_len(t, vs);
    lemma_rows_len(t, out);
    lemma_held_fields_back(ts, rows, back, 0, ts.len(), w, r, rest, path, states);
    let columns = Seq::new(ts.len(), |i: int| column_of(back, i as nat));
    assert(columns =~= Seq::new(ts.len(), |i: int| column_of(back, (0 + i) as nat)));
    assert(tuple_rows(columns, out.len()) =~= out) by {
        assert forall|i: int| 0 <= i < out.len() implies row_across(columns, i) == (
        #[trigger] out[i])->Tuple_0 by {
            lemma_row_across(back, ts.len(), i);
            assert(row_items(t, out[i]) == Ok::<_, Error>(back[i]));
        }
        assert forall|i: int| 0 <= i < out.len() implies (#[trigger] out[i]) is Tuple by {
            assert(row_items(t, out[i]) == Ok::<_, Error>(back[i]));
        }
    }
}

proof fn lemma_fields_fit_step(
    ts: Seq<TypeView>,
    rows: Seq<Seq<ValueView>>,
    back: Seq<Seq<ValueView>>,
    k: nat,
    w: Held,
    r: Held,
)
    requires
        ts.len() > 0,
        held_fields_fit(ts, rows, back, k, w, r),
    ensures
        held_fits(ts[0], column_of(rows, k), column_of(back, k), w, r),
        held_fields_fit(
            ts.subrange(1, ts.len() as int),
            rows,
            back,
            k + 1,
            left(ts[0], column_of(rows, k), w),
            r,
        ),
{
    reveal(held_fits);
    reveal(left);
}

/// What reading the columns of fields comes to, one after the other.
proof fn lemma_parsed_fields_step(
    s: Seq<u8>,
    ts: Seq<TypeView>,
    n: nat,
    path: Seq<u16>,
    k: nat,
    states: States,
    r: Held,
    c: Seq<ValueView>,
    mid: Seq<u8>,
    cs: Seq<Seq<ValueView>>,
    end: Seq<u8>,
)
    requires
        ts.len() > 0,
        parsed_held(s, ts[0], n, Set::empty(), path.push(k as u16), states, r) == Ok::<_, Error>(
            ((c, states), mid),
        ),
        parsed_held_fields(
            mid,
            ts.subrange(1, ts.len() as int),
            n,
            Set::empty(),
            path,
            k + 1,
            states,
            r,
        ) == Ok::<_, Error>(((cs, states), end)),
    ensures
        parsed_held_fields(s, ts, n, Set::empty(), path, k, states, r) == Ok::<_, Error>(
            ((seq![c] + cs, states), end),
        ),
{
    reveal(parsed_held);
}

#[verifier::spinoff_prover]
#[verifier::rlimit(100)]
proof fn lemma_held_fields_back(
    ts: Seq<TypeView>,
    rows: Seq<Seq<ValueView>>,
    back: Seq<Seq<ValueView>>,
    k: nat,
    n: nat,
    w: Held,
    r: Held,
    rest: Seq<u8>,
    path: Seq<u16>,
    states: States,
)
    requires
        held_fields_fit(ts, rows, back, k, w, r),
        all_long(rows, n),
        all_long(back, n),
        rows.len() == back.len(),
        k + ts.len() == n,
    ensures
        held_fields(ts, rows, k, w) is Ok,
        parsed_held_fields(
            held_fields(ts, rows, k, w)->Ok_0 + rest,
            ts,
            rows.len(),
            Set::empty(),
            path,
            k,
            states,
            r,
        ) == Ok::<_, Error>(
            ((Seq::new(ts.len(), |i: int| column_of(back, (k + i) as nat)), states), rest),
        ),
    decreases types_size(ts), 0nat,
{
    if ts.len() == 0 {
        assert(held_fields(ts, rows, k, w)->Ok_0 + rest =~= rest);
        assert(Seq::new(ts.len(), |i: int| column_of(back, (k + i) as nat)) =~= Seq::<
            Seq<ValueView>,
        >::empty());
    } else {
        let tail = ts.subrange(1, ts.len() as int);
        let v = column_of(rows, k);
        let c = column_of(back, k);
        let next = left(ts[0], v, w);
        lemma_fields_fit_step(ts, rows, back, k, w, r);
        lemma_held_fields_step(ts, rows, k, w);
        lemma_held_fields_back(tail, rows, back, k + 1, n, next, r, rest, path, states);
        lemma_column_of(rows, k, n);
        let a = held_fields(tail, rows, k + 1, next)->Ok_0;
        law_held_column_reads_back(ts[0], v, c, w, r, a + rest, path.push(k as u16), states);
        let b = held_bytes(ts[0], v, w)->Ok_0;
        assert(b + a + rest =~= b + (a + rest));
        let cs = Seq::new(tail.len(), |i: int| column_of(back, (k + 1 + i) as nat));
        lemma_parsed_fields_step(
            b + (a + rest),
            ts,
            rows.len(),
            path,
            k,
            states,
            r,
            c,
            a + rest,
            cs,
            rest,
        );
        assert(Seq::new(ts.len(), |i: int| column_of(back, (k + i) as nat)) =~= seq![c] + cs);
    }
}

/// What reading a column of arrays comes to.
proof fn lemma_held_array_step(
    s: Seq<u8>,
    t: TypeView,
    n: nat,
    path: Seq<u16>,
    states: States,
    r: Held,
    offsets: Seq<u64>,
    mid: Seq<u8>,
    items: Seq<ValueView>,
    end: Seq<u8>,
)
    requires
        t is Array,
        holds(t),
        n > 0,
        parsed_offsets(s, n) == Ok::<_, Error>((offsets, mid)),
        parsed_held(
            mid,
            *(t->Array_0),
            (offsets.last() as usize) as nat,
            Set::empty(),
            path.push(0),
            states,
            r,
        ) == Ok::<_, Error>(((items, states), end)),
        ascending(offsets),
        reach(offsets, n as int) <= items.len(),
    ensures
        parsed_held(s, t, n, Set::empty(), path, states, r) == Ok::<_, Error>(
            ((array_rows(t, offsets, items), states), end),
        ),
{
    reveal(parsed_held);
}

/// No rows are read of no bytes.
proof fn lemma_no_rows(s: Seq<u8>, t: TypeView, path: Seq<u16>, states: States, r: Held)
    requires
        t is Array || t is MapOf,
        holds(t),
    ensures
        parsed_held(s, t, 0, Set::empty(), path, states, r) == Ok::<_, Error>(
            ((Seq::<ValueView>::empty(), states), s),
        ),
{
    reveal(parsed_held);
}

/// What writing a column of arrays comes to.
proof fn lemma_held_array_bytes(t: TypeView, vs: Seq<ValueView>, w: Held, b: Seq<u8>)
    requires
        t is Array,
        holds(t),
        rows_of(t, vs) is Ok,
        joined_rows(rows_of(t, vs)->Ok_0).len() <= usize::MAX,
        wrapped(*(t->Array_0), joined_rows(rows_of(t, vs)->Ok_0)) is Ok,
        held_bytes(
            *(t->Array_0),
            wrapped(*(t->Array_0), joined_rows(rows_of(t, vs)->Ok_0))->Ok_0,
            w,
        ) == Ok::<_, Error>(b),
    ensures
        held_bytes(t, vs, w) == Ok::<_, Error>(offset_bytes(rows_of(t, vs)->Ok_0) + b),
{
    reveal(held_bytes);
}

#[verifier::spinoff_prover]
#[verifier::rlimit(100)]
proof fn lemma_arrays_back(
    t: TypeView,
    inner: TypeView,
    vs: Seq<ValueView>,
    out: Seq<ValueView>,
    w: Held,
    r: Held,
    rest: Seq<u8>,
    path: Seq<u16>,
    states: States,
)
    requires
        t == TypeView::Array(Box::new(inner)),
        holds(t),
        held_fits(t, vs, out, w, r),
    ensures
        out.len() == vs.len(),
        held_bytes(t, vs, w) is Ok,
        parsed_held(
            held_bytes(t, vs, w)->Ok_0 + rest,
            t,
            vs.len(),
            Set::empty(),
            path,
            states,
            r,
        ) == Ok::<_, Error>(((out, states), rest)),
    decreases type_size(t), 0nat,
{
    reveal(held_fits);
    let rows = rows_of(t, vs)->Ok_0;
    let back = rows_of(t, out)->Ok_0;
    let told = wrapped(inner, joined_rows(rows))->Ok_0;
    let items = joined_rows(back);
    lemma_rows_len(t, vs);
    lemma_rows_len(t, out);
    lemma_same_joined(rows, back);
    lemma_wrapped_len(inner, joined_rows(rows));
    law_held_column_reads_back(inner, told, items, w, r, rest, path.push(0), states);
    let b = held_bytes(inner, told, w)->Ok_0;
    let all = offset_bytes(rows) + b;
    lemma_held_array_bytes(t, vs, w, b);
    if vs.len() == 0 {
        assert(vs =~= Seq::<ValueView>::empty());
        assert(out =~= Seq::<ValueView>::empty());
        law_empty_held_column(t, out, w, r);
        assert(all + rest =~= rest);
        lemma_no_rows(rest, t, path, states, r);
    } else {
        assert(all + rest =~= offset_bytes(back) + (b + rest));
        lemma_offsets_read_back(back, b + rest);
        lemma_rows_end(back);
        lemma_array_rows(t, out);
        lemma_held_array_step(
            all + rest,
            t,
            vs.len(),
            path,
            states,
            r,
            offsets_of(back),
            b + rest,
            items,
            rest,
        );
    }
}

/// What writing a column of values that may be null comes to.
proof fn lemma_held_nullable_bytes(t: TypeView, vs: Seq<ValueView>, w: Held, b: Seq<u8>)
    requires
        t is Nullable,
        holds(t),
        held_bytes(*(t->Nullable_0), vs, w) == Ok::<_, Error>(b),
    ensures
        held_bytes(t, vs, w) == Ok::<_, Error>(mask_bytes(vs) + b),
{
    reveal(held_bytes);
}

/// What reading a column of values that may be null comes to.
proof fn lemma_held_nullable_step(
    s: Seq<u8>,
    t: TypeView,
    n: nat,
    path: Seq<u16>,
    states: States,
    r: Held,
    mask: Seq<u8>,
    mid: Seq<u8>,
    vs: Seq<ValueView>,
    end: Seq<u8>,
)
    requires
        t is Nullable,
        holds(t),
        parsed_bytes(s, n) == Ok::<_, Error>((mask, mid)),
        parsed_held(mid, *(t->Nullable_0), n, Set::empty(), path.push(0), states, r) == Ok::<
            _,
            Error,
        >(((vs, states), end)),
    ensures
        parsed_held(s, t, n, Set::empty(), path, states, r) == Ok::<_, Error>(
            ((masked(vs, mask), states), end),
        ),
{
    reveal(parsed_held);
}

proof fn lemma_mask_back(vs: Seq<ValueView>, out: Seq<ValueView>, tail: Seq<u8>)
    requires
        no_nulls(vs),
        no_nulls(out),
        out.len() == vs.len(),
    ensures
        parsed_bytes(mask_bytes(vs) + tail, vs.len()) == Ok::<_, Error>((mask_bytes(vs), tail)),
        masked(out, mask_bytes(vs)) == out,
{
    let mask = mask_bytes(vs);
    assert((mask + tail).take(vs.len() as int) =~= mask);
    assert((mask + tail).skip(vs.len() as int) =~= tail);
    assert(masked(out, mask) =~= out);
}

proof fn lemma_nullable_fits(
    t: TypeView,
    vs: Seq<ValueView>,
    out: Seq<ValueView>,
    w: Held,
    r: Held,
)
    requires
        t is Nullable,
        holds(t),
        held_fits(t, vs, out, w, r),
    ensures
        no_nulls(vs),
        no_nulls(out),
        held_fits(*(t->Nullable_0), vs, out, w, r),
        type_size(*(t->Nullable_0)) < type_size(t),
{
    reveal(held_fits);
}

proof fn lemma_nulls_back(
    t: TypeView,
    vs: Seq<ValueView>,
    out: Seq<ValueView>,
    w: Held,
    r: Held,
    b: Seq<u8>,
    rest: Seq<u8>,
    path: Seq<u16>,
    states: States,
)
    requires
        t is Nullable,
        holds(t),
        no_nulls(vs),
        no_nulls(out),
        out.len() == vs.len(),
        held_bytes(*(t->Nullable_0), vs, w) == Ok::<_, Error>(b),
        parsed_held(
            b + rest,
            *(t->Nullable_0),
            vs.len(),
            Set::empty(),
            path.push(0),
            states,
            r,
        ) == Ok::<_, Error>(((out, states), rest)),
    ensures
        held_bytes(t, vs, w) == Ok::<_, Error>(mask_bytes(vs) + b),
        parsed_held(
            mask_bytes(vs) + b + rest,
            t,
            vs.len(),
            Set::empty(),
            path,
            states,
            r,
        ) == Ok::<_, Error>(((out, states), rest)),
{
    let mask = mask_bytes(vs);
    lemma_held_nullable_bytes(t, vs, w, b);
    lemma_mask_back(vs, out, b + rest);
    assert(mask + b + rest =~= mask + (b + rest));
    lemma_held_nullable_step(
        mask + b + rest,
        t,
        vs.len(),
        path,
        states,
        r,
        mask,
        b + rest,
        out,
        rest,
    );
}

/// What reading a column of maps comes to.
proof fn lemma_held_map_step(
    s: Seq<u8>,
    t: TypeView,
    n: nat,
    path: Seq<u16>,
    states: States,
    r: Held,
    offsets: Seq<u64>,
    mid: Seq<u8>,
    keys: Seq<ValueView>,
    mid2: Seq<u8>,
    items: Seq<ValueView>,
    end: Seq<u8>,
)
    requires
        t is MapOf,
        holds(t),
        n > 0,
        parsed_offsets(s, n) == Ok::<_, Error>((offsets, mid)),
        parsed_held(
            mid,
            *(t->MapOf_0),
            (offsets.last() as usize) as nat,
            Set::empty(),
            path.push(0),
            states,
            r,
        ) == Ok::<_, Error>(((keys, states), mid2)),
        parsed_held(
            mid2,
            *(t->MapOf_1),
            (offsets.last() as usize) as nat,
            Set::empty(),
            path.push(1),
            states,
            r,
        ) == Ok::<_, Error>(((items, states), end)),
        reach(offsets, n as int) <= keys.len(),
        reach(offsets, n as int) <= items.len(),
    ensures
        parsed_held(s, t, n, Set::empty(), path, states, r) == Ok::<_, Error>(
            ((map_rows(offsets, keys, items), states), end),
        ),
{
    reveal(parsed_held);
}

/// What writing a column of maps comes to.
proof fn lemma_held_map_bytes(t: TypeView, vs: Seq<ValueView>, w: Held, a: Seq<u8>, b: Seq<u8>)
    requires
        t is MapOf,
        holds(t),
        rows_of(t, vs) is Ok,
        joined_rows(rows_of(t, vs)->Ok_0).len() <= usize::MAX,
        held_bytes(*(t->MapOf_0), joined_rows(rows_of(t, vs)->Ok_0), w) == Ok::<_, Error>(a),
        held_bytes(
            *(t->MapOf_1),
            joined_rows(map_values(vs)),
            left(*(t->MapOf_0), joined_rows(rows_of(t, vs)->Ok_0), w),
        ) == Ok::<_, Error>(b),
    ensures
        held_bytes(t, vs, w) == Ok::<_, Error>(offset_bytes(rows_of(t, vs)->Ok_0) + (a + b)),
{
    reveal(left);
    reveal(held_bytes);
}

#[verifier::spinoff_prover]
#[verifier::rlimit(60)]
proof fn lemma_maps_back(
    t: TypeView,
    k: TypeView,
    x: TypeView,
    vs: Seq<ValueView>,
    out: Seq<ValueView>,
    w: Held,
    r: Held,
    rest: Seq<u8>,
    path: Seq<u16>,
    states: States,
)
    requires
        t == TypeView::MapOf(Box::new(k), Box::new(x)),
        holds(t),
        held_fits(t, vs, out, w, r),
    ensures
        out.len() == vs.len(),
        held_bytes(t, vs, w) is Ok,
        parsed_held(
            held_bytes(t, vs, w)->Ok_0 + rest,
            t,
            vs.len(),
            Set::empty(),
            path,
            states,
            r,
        ) == Ok::<_, Error>(((out, states), rest)),
    decreases type_size(t), 0nat,
{
    reveal(held_fits);
    reveal(left);
    let rows = rows_of(t, vs)->Ok_0;
    let back = rows_of(t, out)->Ok_0;
    let written = joined_rows(map_values(vs));
    let keys = joined_rows(back);
    let items = joined_rows(map_values(out));
    let next = left(k, joined_rows(rows), w);
    lemma_rows_len(t, vs);
    lemma_rows_len(t, out);
    lemma_map_rows(t, vs);
    lemma_map_rows(t, out);
    lemma_same_joined(rows, back);
    law_held_column_reads_back(x, written, items, next, r, rest, path.push(1), states);
    let b = held_bytes(x, written, next)->Ok_0;
    law_held_column_reads_back(k, joined_rows(rows), keys, w, r, b + rest, path.push(0), states);
    let a = held_bytes(k, joined_rows(rows), w)->Ok_0;
    let all = offset_bytes(rows) + (a + b);
    lemma_held_map_bytes(t, vs, w, a, b);
    if vs.len() == 0 {
        assert(vs =~= Seq::<ValueView>::empty());
        assert(out =~= Seq::<ValueView>::empty());
        law_empty_held_column(t, out, w, r);
        assert(all + rest =~= rest);
        lemma_no_rows(rest, t, path, states, r);
    } else {
        assert(all + rest =~= offset_bytes(back) + (a + (b + rest)));
        lemma_offsets_read_back(back, a + (b + rest));
        lemma_rows_end(back);
        lemma_map_rows_back(t, out);
        lemma_held_map_step(
            all + rest,
            t,
            vs.len(),
            path,
            states,
            r,
            offsets_of(back),
            a + (b + rest),
            keys,
            b + rest,
            items,
            rest,
        );
    }
}

proof fn lemma_groups_fit_step(
    ts: Seq<TypeView>,
    vs: Seq<ValueView>,
    out: Seq<ValueView>,
    d: nat,
    w: Held,
    r: Held,
)
    requires
        ts.len() > 0,
        held_groups_fit(ts, vs, out, d, w, r),
    ensures
        d != NULL_DISCRIMINATOR && group_of(vs, d as u8).len() > 0 ==> held_fits(
            ts[0],
            group_of(vs, d as u8),
            group_of(out, d as u8),
            w,
            r,
        ),
        held_groups_fit(
            ts.subrange(1, ts.len() as int),
            vs,
            out,
            d + 1,
            left_group(ts[0], vs, d, w),
            r,
        ),
{
    reveal(held_fits);
    reveal(left);
}

/// What reading the columns of the types of a variant comes to, one after the other.
proof fn lemma_parsed_groups_step(
    s: Seq<u8>,
    ts: Seq<TypeView>,
    vs: Seq<ValueView>,
    d: nat,
    r: Held,
    mid: Seq<u8>,
    cs: Seq<Seq<ValueView>>,
    end: Seq<u8>,
)
    requires
        ts.len() > 0,
        d < 256,
        if group_entry(vs, d).len() == 0 {
            s == mid
        } else {
            parsed_held(
                s,
                ts[0],
                group_entry(vs, d).len(),
                Set::empty(),
                Seq::empty(),
                Map::empty(),
                r,
            ) == Ok::<_, Error>(
                ((group_entry(vs, d), Map::<Seq<u16>, SparseState>::empty()), mid),
            )
        },
        parsed_held_groups(
            mid,
            ts.subrange(1, ts.len() as int),
            discriminators_of(vs),
            d + 1,
            r,
        ) == Ok::<_, Error>((cs, end)),
    ensures
        parsed_held_groups(s, ts, discriminators_of(vs), d, r) == Ok::<_, Error>(
            (seq![group_entry(vs, d)] + cs, end),
        ),
{
    reveal(parsed_held);
    lemma_group_len(vs, d as u8);
    if group_entry(vs, d).len() == 0 {
        assert(group_entry(vs, d) =~= Seq::<ValueView>::empty());
    }
}

proof fn lemma_groups_head(vs: Seq<ValueView>, d: nat, n: nat)
    requires
        n > 0,
    ensures
        groups_from(vs, d, n) == seq![group_entry(vs, d)] + groups_from(
            vs,
            d + 1,
            (n - 1) as nat,
        ),
{
    let tail = groups_from(vs, d + 1, (n - 1) as nat);
    assert forall|i: int| 0 <= i < n implies groups_from(vs, d, n)[i] == (seq![
        group_entry(vs, d),
    ] + tail)[i] by {
        if i > 0 {
            assert(tail[i - 1] == group_entry(vs, (d + 1 + (i - 1)) as nat));
        }
    }
    assert(groups_from(vs, d, n) =~= seq![group_entry(vs, d)] + tail);
}

#[verifier::spinoff_prover]
#[verifier::rlimit(100)]
proof fn lemma_held_groups_back(
    ts: Seq<TypeView>,
    vs: Seq<ValueView>,
    out: Seq<ValueView>,
    d: nat,
    w: Held,
    r: Held,
    rest: Seq<u8>,
)
    requires
        held_groups_fit(ts, vs, out, d, w, r),
        discriminators_of(vs) == discriminators_of(out),
        d + ts.len() <= 256,
    ensures
        held_groups(ts, vs, d, w) is Ok,
        parsed_held_groups(
            held_groups(ts, vs, d, w)->Ok_0 + rest,
            ts,
            discriminators_of(out),
            d,
            r,
        ) == Ok::<_, Error>((groups_from(out, d, ts.len()), rest)),
    decreases types_size(ts), 0nat,
{
    if ts.len() == 0 {
        assert(held_groups(ts, vs, d, w)->Ok_0 + rest =~= rest);
        assert(groups_from(out, d, 0) =~= Seq::<Seq<ValueView>>::empty());
    } else {
        let tail = ts.subrange(1, ts.len() as int);
        let next = left_group(ts[0], vs, d, w);
        lemma_groups_fit_step(ts, vs, out, d, w, r);
        lemma_held_groups_step(ts, vs, d, w);
        lemma_held_groups_back(tail, vs, out, d + 1, next, r, rest);
        lemma_group_len(vs, d as u8);
        lemma_group_len(out, d as u8);
        let a = held_groups(tail, vs, d + 1, next)->Ok_0;
        let b = if d == NULL_DISCRIMINATOR || group_of(vs, d as u8).len() == 0 {
            Seq::<u8>::empty()
        } else {
            law_held_column_reads_back(
                ts[0],
                group_of(vs, d as u8),
                group_of(out, d as u8),
                w,
                r,
                a + rest,
                Seq::empty(),
                Map::empty(),
            );
            held_bytes(ts[0], group_of(vs, d as u8), w)->Ok_0
        };
        assert(held_group(ts[0], vs, d, w) == Ok::<_, Error>(b));
        assert(held_groups(ts, vs, d, w) == Ok::<_, Error>(b + a));
        assert(b + a + rest =~= b + (a + rest));
        if b.len() == 0 {
            assert(b + (a + rest) =~= a + rest);
        }
        lemma_groups_head(out, d, ts.len());
        lemma_parsed_groups_step(
            b + (a + rest),
            ts,
            out,
            d,
            r,
            a + rest,
            groups_from(out, d + 1, tail.len()),
            rest,
        );
    }
}

/// The rows that the groups of variants make.
proof fn lemma_variant_rows(vs: Seq<ValueView>, n: nat)
    requires
        all_variants(vs),
        all_known(vs, n),
        n <= 256,
    ensures
        all_found(discriminators_of(vs), groups_from(vs, 0, n)),
        variant_rows(discriminators_of(vs), groups_from(vs, 0, n)) == vs,
{
    let ds = discriminators_of(vs);
    let columns = groups_from(vs, 0, n);
    assert forall|i: int| 0 <= i < ds.len() implies row_value(
        #[trigger] ds[i],
        rank(ds, ds[i], i) as int,
        columns,
    ) == Some(vs[i]) by {
        assert(vs[i] is Variant);
        lemma_group_rank(vs, ds[i], i);
        if ds[i] != NULL_DISCRIMINATOR {
            assert(columns[ds[i] as int] == group_of(vs, ds[i]));
        }
    }
    assert(variant_rows(ds, columns) =~= vs);
}

#[verifier::spinoff_prover]
#[verifier::rlimit(60)]
proof fn lemma_variants_back(
    t: TypeView,
    ts: Seq<TypeView>,
    vs: Seq<ValueView>,
    out: Seq<ValueView>,
    w: Held,
    r: Held,
    rest: Seq<u8>,
    path: Seq<u16>,
    states: States,
)
    requires
        t == TypeView::Variant(ts),
        holds(t),
        held_fits(t, vs, out, w, r),
    ensures
        out.len() == vs.len(),
        held_bytes(t, vs, w) is Ok,
        parsed_held(
            held_bytes(t, vs, w)->Ok_0 + rest,
            t,
            vs.len(),
            Set::empty(),
            path,
            states,
            r,
        ) == Ok::<_, Error>(((out, states), rest)),
    decreases type_size(t), 0nat,
{
    reveal(held_bytes);
    reveal(held_fits);
    reveal(parsed_held);
    let ds = discriminators_of(vs);
    lemma_sorted_size(ts);
    law_sorted_types(ts);
    let sorted = sorted_types(ts);
    assert(discriminators_of(out).len() == out.len());
    lemma_held_groups_back(sorted, vs, out, 0, w, r, rest);
    let a = held_groups(sorted, vs, 0, w)->Ok_0;
    assert(held_bytes(t, vs, w) == Ok::<_, Error>(ds + a));
    assert(ds + a + rest =~= ds + (a + rest));
    assert((ds + (a + rest)).take(vs.len() as int) =~= ds);
    assert((ds + (a + rest)).skip(vs.len() as int) =~= a + rest);
    assert(parsed_bytes(ds + a + rest, vs.len()) == Ok::<_, Error>((ds, a + rest)));
    lemma_variant_rows(out, sorted.len());
}

// ---------------------------------------------------------------------------
// What stands before columns
// ---------------------------------------------------------------------------

/// Whether what is written before a column, with `w` known, can be read back, and tells
/// `r`.
pub open spec fn held_prefix_fits(t: TypeView, w: Held, r: Held, server: ServerVersion) -> bool
    decreases type_size(t), 0nat,
{
    match t {
        TypeView::Dynamic { .. } => match (w, r) {
            (Held::Dynamic(_, entries), Held::Dynamic(version, told)) => {
                &&& takes_complex_types(server)
                &&& names_tell(entries)
                &&& plain_prefixes(field_types(entries))
                &&& entries.len() <= u64::MAX
                &&& told == entries
                &&& version == Some(DYNAMIC_VERSION_FLATTENED)
            },
            _ => false,
        },
        TypeView::JSON { .. } => match (w, r) {
            (Held::Json(p), Held::Layout(layout)) => {
                &&& json_reads(p)
                &&& typed_paths_in(t) == p.typed
                &&& written_version(p.version) == JSON_OBJECT_VERSION_FLATTENED
                    ==> takes_complex_types(server)
                &&& layout == layout_of(p)
            },
            _ => false,
        },
        TypeView::Array(inner) => held_prefix_fits(*inner, w, r, server),
        TypeView::Nullable(inner) => held_prefix_fits(*inner, w, r, server),
        TypeView::MapOf(k, x) => held_prefix_fits(*k, w, r, server) && held_prefix_fits(
            *x,
            w,
            r,
            server,
        ),
        TypeView::Tuple(ts) => held_prefixes_fit(ts, w, r, server),
        TypeView::TupleNamed(fs) => if types_size(field_types(fs)) >= type_size(t) {
            arbitrary()
        } else {
            held_prefixes_fit(field_types(fs), w, r, server)
        },
        TypeView::Variant(ts) => held_prefixes_fit(ts, w, r, server),
        _ => plain_prefix(t),
    }
}

/// Whether this holds of all types.
pub open spec fn held_prefixes_fit(
    ts: Seq<TypeView>,
    w: Held,
    r: Held,
    server: ServerVersion,
) -> bool
    decreases types_size(ts), 0nat,
{
    ts.len() == 0 || (held_prefix_fits(ts[0], w, r, server) && held_prefixes_fit(
        ts.subrange(1, ts.len() as int),
        w,
        r,
        server,
    ))
}

/// What was written before a column is read before it, and tells what is to be known of
/// the columns that the type holds, if it holds any.
#[verifier::spinoff_prover]
#[verifier::rlimit(60)]
pub proof fn law_held_prefix_reads_back(
    t: TypeView,
    w: Held,
    r: Held,
    server: ServerVersion,
    rest: Seq<u8>,
    h: Held,
)
    requires
        held_prefix_fits(t, w, r, server),
    ensures
        held_prefix(t, w, server) is Ok,
        parsed_held_prefix(held_prefix(t, w, server)->Ok_0 + rest, t, h) == Ok::<_, Error>(
            (
                if holds(t) {
                    r
                } else {
                    h
                },
                rest,
            ),
        ),
    decreases type_size(t), 0nat,
{
    lemma_pow256();
    match t {
        TypeView::Dynamic { .. } => {
            law_dynamic_prefix_reads_back(w->Dynamic_1, rest);
        },
        TypeView::JSON { .. } => {
            let a = lemma_json_prefix_back(w->Json_0, t, rest);
        },
        TypeView::Array(inner) => law_held_prefix_reads_back(*inner, w, r, server, rest, h),
        TypeView::Nullable(inner) => law_held_prefix_reads_back(*inner, w, r, server, rest, h),
        TypeView::MapOf(k, x) => {
            let next = if holds(*k) {
                r
            } else {
                h
            };
            law_held_prefix_reads_back(*x, w, r, server, rest, next);
            let b = held_prefix(*x, w, server)->Ok_0;
            law_held_prefix_reads_back(*k, w, r, server, b + rest, h);
            let a = held_prefix(*k, w, server)->Ok_0;
            assert(a + b + rest =~= a + (b + rest));
        },
        TypeView::Tuple(ts) => lemma_held_prefixes_back(ts, w, r, server, rest, h),
        TypeView::TupleNamed(fs) => {
            lemma_fields_size(fs);
            lemma_held_prefixes_back(field_types(fs), w, r, server, rest, h);
        },
        TypeView::Variant(ts) => {
            lemma_held_prefixes_back(ts, w, r, server, rest, h);
            let b = held_prefixes(ts, w, server)->Ok_0;
            law_uint_reads_back(0, 8, b + rest);
            assert(le_bytes(0, 8) + b + rest =~= le_bytes(0, 8) + (b + rest));
        },
        _ => law_prefix_reads_back(t, rest),
    }
}

#[verifier::spinoff_prover]
#[verifier::rlimit(40)]
proof fn lemma_held_prefixes_back(
    ts: Seq<TypeView>,
    w: Held,
    r: Held,
    server: ServerVersion,
    rest: Seq<u8>,
    h: Held,
)
    requires
        held_prefixes_fit(ts, w, r, server),
    ensures
        held_prefixes(ts, w, server) is Ok,
        parsed_held_prefixes(held_prefixes(ts, w, server)->Ok_0 + rest, ts, h) == Ok::<_, Error>(
            (
                if any_holds(ts) {
                    r
                } else {
                    h
                },
                rest,
            ),
        ),
    decreases types_size(ts), 0nat,
{
    if ts.len() == 0 {
        assert(Seq::<u8>::empty() + rest =~= rest);
    } else {
        let tail = ts.subrange(1, ts.len() as int);
        let next = if holds(ts[0]) {
            r
        } else {
            h
        };
        lemma_held_prefixes_back(tail, w, r, server, rest, next);
        let b = held_prefixes(tail, w, server)->Ok_0;
        law_held_prefix_reads_back(ts[0], w, r, server, b + rest, h);
        let a = held_prefix(ts[0], w, server)->Ok_0;
        assert(a + b + rest =~= a + (b + rest));
    }
}

// ---------------------------------------------------------------------------
// Columns with what stands before them
// ---------------------------------------------------------------------------

/// A column that was written behind what stands before it is read back: what stands before
/// it tells what is to be known of the columns that the type holds, and with that the
/// values are read, with discriminators where bare elements of arrays of variants had none.
pub proof fn law_held_reads_back(
    t: TypeView,
    vs: Seq<ValueView>,
    out: Seq<ValueView>,
    w: Held,
    r: Held,
    server: ServerVersion,
    rest: Seq<u8>,
)
    requires
        holds(t),
        held_prefix_fits(t, w, r, server),
        held_fits(t, vs, out, w, r),
    ensures
        held_prefix(t, w, server) is Ok,
        held_bytes(t, vs, w) is Ok,
        ({
            let column = held_bytes(t, vs, w)->Ok_0 + rest;
            &&& parsed_held_prefix(
                held_prefix(t, w, server)->Ok_0 + column,
                t,
                Held::Nothing,
            ) == Ok::<_, Error>((r, column))
            &&& parsed_held(
                column,
                t,
                vs.len(),
                Set::empty(),
                Seq::empty(),
                Map::empty(),
                r,
            ) == Ok::<_, Error>(((out, Map::<Seq<u16>, SparseState>::empty()), rest))
        }),
{
    law_held_column_reads_back(t, vs, out, w, r, rest, Seq::empty(), Map::empty());
    let column = held_bytes(t, vs, w)->Ok_0 + rest;
    law_held_prefix_reads_back(t, w, r, server, column, Held::Nothing);
}

/// Arrays of any values are read back as they are written, where the types of all their values
/// were found before and the names of these types tell them.
#[verifier::spinoff_prover]
#[verifier::rlimit(100)]
pub proof fn law_arrays_of_mixed_values_read_back(
    vs: Seq<ValueView>,
    items: Seq<ValueView>,
    max_types: Option<u32>,
    server: ServerVersion,
    rest: Seq<u8>,
)
    requires
        takes_complex_types(server),
        rows_of(any_arrays(max_types), vs) is Ok,
        joined_rows(rows_of(any_arrays(max_types), vs)->Ok_0) == items,
        items.len() <= usize::MAX,
        dynamic_stores(items),
    ensures
        ({
            let t = any_arrays(max_types);
            let entries = entries_of(registry(items));
            let w = Held::Dynamic(None, entries);
            let r = Held::Dynamic(Some(DYNAMIC_VERSION_FLATTENED), entries);
            let back = cut(rows_of(t, vs)->Ok_0, dynamic_stored(items, entries));
            &&& held_prefix(t, w, server) is Ok
            &&& held_bytes(t, vs, w) is Ok
            &&& ({
                let column = held_bytes(t, vs, w)->Ok_0 + rest;
                &&& parsed_held_prefix(
                    held_prefix(t, w, server)->Ok_0 + column,
                    t,
                    Held::Nothing,
                ) == Ok::<_, Error>((r, column))
                &&& parsed_held(
                    column,
                    t,
                    vs.len(),
                    Set::empty(),
                    Seq::empty(),
                    Map::empty(),
                    r,
                ) == Ok::<_, Error>(
                    ((arrays_of(back), Map::<Seq<u16>, SparseState>::empty()), rest),
                )
            })
        }),
{
    reveal(held_fits);
    reveal(dynamic_stores);
    let t = any_arrays(max_types);
    let entries = entries_of(registry(items));
    let inner = TypeView::Dynamic { max_types };
    let w = Held::Dynamic(None, entries);
    let r = Held::Dynamic(Some(DYNAMIC_VERSION_FLATTENED), entries);
    assert(names_of(entries) =~= registry(items));
    law_values_are_registered(items);
    assert(holds(inner) && holds(t));
    let rows = rows_of(t, vs)->Ok_0;
    let told = dynamic_stored(items, entries);
    let back = cut(rows, told);
    law_cut(rows, told);
    let out = arrays_of(back);
    assert forall|i: int| 0 <= i < out.len() implies row_items(t, #[trigger] out[i]) == Ok::<
        _,
        Error,
    >(back[i]) by {}
    lemma_rows_made(t, out, back);
    assert(held_fits(inner, items, told, w, r));
    assert(wrapped(inner, items) == Ok::<_, Error>(items));
    assert(held_fits(t, vs, out, w, r));
    assert(held_prefix_fits(inner, w, r, server));
    assert(held_prefix_fits(t, w, r, server));
    law_held_reads_back(t, vs, out, w, r, server, rest);
}

/// Arrays of any values are read back, where the types of all their values were found before,
/// the names of these types tell them, and the values are of those types.
pub proof fn law_arrays_of_any_values_read_back(
    vs: Seq<ValueView>,
    items: Seq<ValueView>,
    max_types: Option<u32>,
    server: ServerVersion,
    rest: Seq<u8>,
)
    requires
        takes_complex_types(server),
        rows_of(any_arrays(max_types), vs) is Ok,
        joined_rows(rows_of(any_arrays(max_types), vs)->Ok_0) == items,
        items.len() <= usize::MAX,
        dynamic_reads(items),
    ensures
        ({
            let t = any_arrays(max_types);
            let entries = entries_of(registry(items));
            let w = Held::Dynamic(None, entries);
            let r = Held::Dynamic(Some(DYNAMIC_VERSION_FLATTENED), entries);
            &&& held_prefix(t, w, server) is Ok
            &&& held_bytes(t, vs, w) is Ok
            &&& ({
                let column = held_bytes(t, vs, w)->Ok_0 + rest;
                &&& parsed_held_prefix(
                    held_prefix(t, w, server)->Ok_0 + column,
                    t,
                    Held::Nothing,
                ) == Ok::<_, Error>((r, column))
                &&& parsed_held(
                    column,
                    t,
                    vs.len(),
                    Set::empty(),
                    Seq::empty(),
                    Map::empty(),
                    r,
                ) == Ok::<_, Error>(((vs, Map::<Seq<u16>, SparseState>::empty()), rest))
            })
        }),
{
    let t = any_arrays(max_types);
    let rows = rows_of(t, vs)->Ok_0;
    lemma_dynamic_same(items);
    law_arrays_of_mixed_values_read_back(vs, items, max_types, server, rest);
    lemma_cut_same(rows);
    lemma_rows_len(t, vs);
    assert forall|i: int| 0 <= i < vs.len() implies arrays_of(rows)[i] == #[trigger] vs[i] by {
        assert(row_items(t, vs[i]) == Ok::<_, Error>(rows[i]));
    }
    assert(arrays_of(rows) =~= vs);
}

/// The type of arrays of any values.
pub open spec fn any_arrays(max_types: Option<u32>) -> TypeView {
    TypeView::Array(Box::new(TypeView::Dynamic { max_types }))
}

} // verus!
