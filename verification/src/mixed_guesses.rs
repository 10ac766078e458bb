//! Arrays of values of several types can be written, and are read back.
use vstd::prelude::*;

use crate::cell_laws::cell_fits;
use crate::cells::is_cell_type;
use crate::column_laws::{column_fits, groups_fit};
use crate::columns::{
    all_discriminated, column_bytes, discriminated, field_types, find_type, group_columns,
    joined_rows, lemma_sorted_size, row_items, rows_of, some_bare, type_size, types_size, wrapped,
};
use crate::dynamic::{
    entries_of, law_registry, lemma_name_index, name_index, registered_type, registry,
    value_discriminator, values_of_type,
};
use crate::dynamic_laws::types_stored;
use crate::error::Error;
use crate::guess::{guessed, guesses, law_guesses, types_named};
use crate::guess_laws::law_guesses_differ;
use crate::mixed_laws::{
    arrays_of, cut, is_stored, law_cut, law_fitting_is_stored, law_stored_len, lemma_array_parts,
    lemma_columns_long, lemma_discriminated_len, lemma_group_stored, lemma_rows_made,
    lemma_stored_groups, lemma_wrapped_len, stored, stored_group, stored_groups, variants_of,
};
use crate::name_round_trip::{law_type_name_reads_back, name_tells};
use crate::text::text_le;
use crate::type_display::type_text;
use crate::type_order::{law_sorted_types, names_differ, sorted_types};
use crate::types::TypeView;
use crate::values::ValueView;
use crate::variant::{
    all_variants, distinct_names, group_of, lemma_group_rank, variant_ok, NULL_DISCRIMINATOR,
};

verus! {

// ---------------------------------------------------------------------------
// Values of the types that they have of themselves
// ---------------------------------------------------------------------------

/// Whether a value is null or a cell of the type that it has of itself.
pub open spec fn is_own_cell(v: ValueView) -> bool {
    v is Null || (is_cell_type(guessed(v)) && cell_fits(v, guessed(v)))
}

/// Whether a value is null or a cell, or an array of such values: of one type without nulls,
/// or of several types, no more than a byte can tell apart beside null.
#[verifier::opaque]
pub open spec fn is_own_value(v: ValueView) -> bool
    decreases v,
{
    match v {
        ValueView::Array(s) => {
            &&& forall|i: int| 0 <= i < s.len() ==> is_own_value(#[trigger] s[i])
            &&& guesses(s).len() <= 1 ==> no_null(s)
            &&& guesses(s).len() < NULL_DISCRIMINATOR
            &&& types_named(guesses(s))
        },
        _ => is_own_cell(v),
    }
}

/// Whether no value is null.
pub open spec fn no_null(s: Seq<ValueView>) -> bool {
    forall|i: int| 0 <= i < s.len() ==> !((#[trigger] s[i]) is Null)
}

/// Whether this holds of all values.
pub open spec fn all_own(s: Seq<ValueView>) -> bool {
    forall|i: int| 0 <= i < s.len() ==> is_own_value(#[trigger] s[i])
}

pub(crate) proof fn lemma_own_array(s: Seq<ValueView>)
    ensures
        is_own_value(ValueView::Array(s)) == {
            &&& all_own(s)
            &&& guesses(s).len() <= 1 ==> no_null(s)
            &&& guesses(s).len() < NULL_DISCRIMINATOR
            &&& types_named(guesses(s))
        },
{
    reveal(is_own_value);
}

proof fn lemma_own(v: ValueView)
    requires
        is_own_value(v),
        !(v is Null),
    ensures
        !(v is Array) ==> is_own_cell(v),
        !(v is Variant),
        v is Array <==> guessed(v) is Array,
        !(guessed(v) is Variant),
{
    reveal(is_own_value);
}

/// How many elements the arrays in a value have together.
pub open spec fn elements_in(v: ValueView) -> nat
    decreases v,
{
    match v {
        ValueView::Array(s) => s.len() + element_count(s),
        ValueView::Variant(_, x) => elements_in(*x),
        _ => 0,
    }
}

/// How many elements the arrays in values have together.
pub open spec fn element_count(s: Seq<ValueView>) -> nat
    decreases s,
{
    if s.len() == 0 {
        0
    } else {
        element_count(s.subrange(0, s.len() - 1)) + elements_in(s[s.len() - 1])
    }
}

proof fn lemma_count_push(s: Seq<ValueView>, v: ValueView)
    ensures
        element_count(s.push(v)) == element_count(s) + elements_in(v),
{
    assert(s.push(v).subrange(0, s.len() as int) =~= s);
}

proof fn lemma_count_added(a: Seq<ValueView>, b: Seq<ValueView>)
    ensures
        element_count(a + b) == element_count(a) + element_count(b),
    decreases b.len(),
{
    if b.len() == 0 {
        assert(a + b =~= a);
    } else {
        let hb = b.subrange(0, b.len() - 1);
        lemma_count_added(a, hb);
        assert((a + b).subrange(0, (a + b).len() - 1) =~= a + hb);
    }
}

proof fn lemma_count_joined(vs: Seq<ValueView>, rows: Seq<Seq<ValueView>>)
    requires
        vs.len() == rows.len(),
        forall|i: int| 0 <= i < vs.len() ==> (#[trigger] vs[i]) == ValueView::Array(rows[i]),
    ensures
        element_count(vs) == joined_rows(rows).len() + element_count(joined_rows(rows)),
    decreases vs.len(),
{
    if vs.len() > 0 {
        let hv = vs.drop_last();
        let hr = rows.drop_last();
        assert forall|i: int| 0 <= i < hv.len() implies (#[trigger] hv[i]) == ValueView::Array(
            hr[i],
        ) by {
            assert(hv[i] == vs[i]);
        }
        lemma_count_joined(hv, hr);
        assert(vs.subrange(0, vs.len() - 1) =~= hv);
        assert(vs[vs.len() - 1] == ValueView::Array(rows[rows.len() - 1]));
        lemma_count_added(joined_rows(hr), rows.last());
        assert(elements_in(vs[vs.len() - 1]) == rows.last().len() + element_count(rows.last()));
        assert(joined_rows(rows) == joined_rows(hr) + rows.last());
    }
}

proof fn lemma_count_group(w: Seq<ValueView>, d: u8)
    requires
        all_variants(w),
    ensures
        element_count(group_of(w, d)) <= element_count(w),
    decreases w.len(),
{
    if w.len() > 0 {
        let head = w.drop_last();
        assert(all_variants(head)) by {
            assert forall|i: int| 0 <= i < head.len() implies (#[trigger] head[i]) is Variant by {
                assert(head[i] == w[i]);
                assert(w[i] is Variant);
            }
        }
        lemma_count_group(head, d);
        assert(w.subrange(0, w.len() - 1) =~= head);
        assert(w[w.len() - 1] is Variant);
        lemma_count_push(group_of(head, d), *w.last()->Variant_1);
        assert(elements_in(w.last()) == elements_in(*w.last()->Variant_1));
    }
}

proof fn lemma_count_same(a: Seq<ValueView>, b: Seq<ValueView>)
    requires
        a.len() == b.len(),
        forall|i: int| 0 <= i < a.len() ==> elements_in(#[trigger] a[i]) == elements_in(b[i]),
    ensures
        element_count(a) == element_count(b),
    decreases a.len(),
{
    if a.len() > 0 {
        let x = a.subrange(0, a.len() - 1);
        let y = b.subrange(0, b.len() - 1);
        assert forall|i: int| 0 <= i < x.len() implies elements_in(#[trigger] x[i]) == elements_in(
            y[i],
        ) by {
            assert(x[i] == a[i] && y[i] == b[i]);
        }
        lemma_count_same(x, y);
        assert(elements_in(a[a.len() - 1]) == elements_in(b[b.len() - 1]));
    }
}

// ---------------------------------------------------------------------------
// Discriminators
// ---------------------------------------------------------------------------

proof fn lemma_found(ts: Seq<TypeView>, t: TypeView, i: int, k: int)
    requires
        0 <= i <= k < ts.len(),
        ts[k] == t,
    ensures
        find_type(ts, t, i) matches Some(j) && i <= j < ts.len() && ts[j] == t,
    decreases ts.len() - i,
{
    if ts[i] != t {
        lemma_found(ts, t, i + 1, k);
    }
}

pub(crate) proof fn lemma_sorted_contains(ts: Seq<TypeView>, t: TypeView)
    ensures
        sorted_types(ts).contains(t) == ts.contains(t),
{
    broadcast use vstd::seq_lib::group_to_multiset_ensures;

    law_sorted_types(ts);
    assert(ts.contains(t) <==> ts.to_multiset().count(t) > 0);
    assert(sorted_types(ts).contains(t) <==> sorted_types(ts).to_multiset().count(t) > 0);
}

proof fn lemma_sorted_distinct(ts: Seq<TypeView>)
    requires
        ts.no_duplicates(),
        names_differ(ts),
    ensures
        distinct_names(sorted_types(ts)),
{
    let sorted = sorted_types(ts);
    law_sorted_types(ts);
    ts.lemma_multiset_has_no_duplicates();
    sorted.lemma_multiset_has_no_duplicates_conv();
    assert forall|i: int, j: int| 0 <= i < j < sorted.len() implies #[trigger] type_text(sorted[i])
        != #[trigger] type_text(sorted[j]) by {
        lemma_sorted_contains(ts, sorted[i]);
        lemma_sorted_contains(ts, sorted[j]);
        assert(sorted.contains(sorted[i]) && sorted.contains(sorted[j]));
        let a = choose|a: int| 0 <= a < ts.len() && ts[a] == sorted[i];
        let b = choose|b: int| 0 <= b < ts.len() && ts[b] == sorted[j];
        assert(type_text(ts[a]) == type_text(ts[b]) ==> ts[a] == ts[b]);
    }
}

/// Whether values are nulls and values of the given types.
spec fn values_of(vs: Seq<ValueView>, ts: Seq<TypeView>) -> bool {
    forall|i: int| 0 <= i < vs.len() ==> (#[trigger] vs[i]) is Null || ts.contains(guessed(vs[i]))
}

/// The discriminator of a value of one of the types.
proof fn lemma_told(v: ValueView, ts: Seq<TypeView>)
    requires
        ts.len() < NULL_DISCRIMINATOR,
        v is Null || ts.contains(guessed(v)),
    ensures
        ({
            let sorted = sorted_types(ts);
            &&& discriminated(v, ts) matches Ok(w) && w is Variant && *w->Variant_1 == v
            &&& v is Null ==> discriminated(v, ts)->Ok_0->Variant_0 == NULL_DISCRIMINATOR
            &&& !(v is Null) ==> discriminated(v, ts)->Ok_0->Variant_0 < ts.len()
                && sorted[discriminated(v, ts)->Ok_0->Variant_0 as int] == guessed(v)
        }),
{
    law_sorted_types(ts);
    if !(v is Null) {
        let sorted = sorted_types(ts);
        lemma_sorted_contains(ts, guessed(v));
        let k = choose|k: int| 0 <= k < sorted.len() && sorted[k] == guessed(v);
        lemma_found(sorted, guessed(v), 0, k);
    }
}

proof fn lemma_all_told(vs: Seq<ValueView>, ts: Seq<TypeView>)
    requires
        ts.len() < NULL_DISCRIMINATOR,
        values_of(vs, ts),
    ensures
        all_discriminated(vs, ts) is Ok,
    decreases vs.len(),
{
    if vs.len() > 0 {
        assert(vs[0] is Null || ts.contains(guessed(vs[0])));
        lemma_told(vs[0], ts);
        let tail = vs.skip(1);
        assert forall|i: int| 0 <= i < tail.len() implies (#[trigger] tail[i]) is Null
            || ts.contains(guessed(tail[i])) by {
            assert(tail[i] == vs[i + 1]);
        }
        lemma_all_told(tail, ts);
    }
}

proof fn lemma_group_values(w: Seq<ValueView>, d: u8, t: TypeView)
    requires
        all_variants(w),
        forall|i: int|
            0 <= i < w.len() && (#[trigger] w[i])->Variant_0 == d ==> {
                let x = *w[i]->Variant_1;
                is_own_value(x) && !(x is Null) && guessed(x) == t
            },
    ensures
        forall|i: int|
            0 <= i < group_of(w, d).len() ==> {
                let x = #[trigger] group_of(w, d)[i];
                is_own_value(x) && !(x is Null) && guessed(x) == t
            },
    decreases w.len(),
{
    if w.len() > 0 {
        let head = w.drop_last();
        assert(all_variants(head)) by {
            assert forall|i: int| 0 <= i < head.len() implies (#[trigger] head[i]) is Variant by {
                assert(head[i] == w[i]);
                assert(w[i] is Variant);
            }
        }
        assert forall|i: int| 0 <= i < head.len() && (#[trigger] head[i])->Variant_0 == d implies {
            let x = *head[i]->Variant_1;
            is_own_value(x) && !(x is Null) && guessed(x) == t
        } by {
            assert(head[i] == w[i]);
        }
        lemma_group_values(head, d, t);
        assert(w[w.len() - 1] == w.last());
        let hg = group_of(head, d);
        let all = group_of(w, d);
        assert forall|i: int| 0 <= i < all.len() implies {
            let x = #[trigger] all[i];
            is_own_value(x) && !(x is Null) && guessed(x) == t
        } by {
            if i < hg.len() {
                assert(all[i] == hg[i]);
            }
        }
    }
}

// ---------------------------------------------------------------------------
// Columns
// ---------------------------------------------------------------------------

proof fn lemma_array_is_stored(t: TypeView, inner: TypeView, vs: Seq<ValueView>)
    requires
        t == TypeView::Array(Box::new(inner)),
        rows_of(t, vs) is Ok,
        joined_rows(rows_of(t, vs)->Ok_0).len() <= usize::MAX,
        wrapped(inner, joined_rows(rows_of(t, vs)->Ok_0)) is Ok,
        is_stored(inner, wrapped(inner, joined_rows(rows_of(t, vs)->Ok_0))->Ok_0),
    ensures
        is_stored(t, vs),
{
    let rows = rows_of(t, vs)->Ok_0;
    let items = joined_rows(rows);
    let w = wrapped(inner, items)->Ok_0;
    assert(column_bytes(t, vs) is Ok);
    lemma_array_parts(t, inner, vs);
    lemma_wrapped_len(inner, items);
    law_stored_len(inner, w);
    let told = stored(inner, w);
    law_cut(rows, told);
    let made = cut(rows, told);
    let out = arrays_of(made);
    assert forall|i: int| 0 <= i < out.len() implies row_items(t, #[trigger] out[i]) == Ok::<
        _,
        Error,
    >(made[i]) by {}
    lemma_rows_made(t, out, made);
    assert(column_fits(t, out));
}

proof fn lemma_groups_written(ts: Seq<TypeView>, w: Seq<ValueView>, d: nat)
    requires
        forall|i: int|
            0 <= i < ts.len() && d + i != NULL_DISCRIMINATOR ==> column_bytes(
                #[trigger] ts[i],
                group_of(w, (d + i) as u8),
            ) is Ok,
    ensures
        group_columns(ts, w, d) is Ok,
    decreases ts.len(),
{
    if ts.len() > 0 {
        let tail = ts.subrange(1, ts.len() as int);
        if d != NULL_DISCRIMINATOR {
            assert(column_bytes(ts[0], group_of(w, (d + 0) as u8)) is Ok);
        }
        assert forall|i: int| 0 <= i < tail.len() && d + 1 + i != NULL_DISCRIMINATOR implies column_bytes(
            #[trigger] tail[i],
            group_of(w, (d + 1 + i) as u8),
        ) is Ok by {
            assert(tail[i] == ts[i + 1]);
            assert((d + 1 + i) as u8 == (d + (i + 1)) as u8);
        }
        lemma_groups_written(tail, w, d + 1);
    }
}

proof fn lemma_groups(ts: Seq<TypeView>, w: Seq<ValueView>, d: nat)
    requires
        forall|i: int|
            0 <= i < ts.len() && d + i != NULL_DISCRIMINATOR ==> column_fits(
                #[trigger] ts[i],
                group_of(w, (d + i) as u8),
            ),
    ensures
        groups_fit(ts, w, d),
    decreases ts.len(),
{
    if ts.len() > 0 {
        let tail = ts.subrange(1, ts.len() as int);
        if d != NULL_DISCRIMINATOR {
            assert(column_fits(ts[0], group_of(w, (d + 0) as u8)));
        }
        assert forall|i: int| 0 <= i < tail.len() && d + 1 + i != NULL_DISCRIMINATOR implies column_fits(
            #[trigger] tail[i],
            group_of(w, (d + 1 + i) as u8),
        ) by {
            assert(tail[i] == ts[i + 1]);
            assert((d + 1 + i) as u8 == (d + (i + 1)) as u8);
        }
        lemma_groups(tail, w, d + 1);
    }
}

/// Whether there are values under a discriminator, and they can be read back as they are
/// written.
spec fn is_group_stored(ts: Seq<TypeView>, w: Seq<ValueView>, d: int) -> bool {
    group_of(w, d as u8).len() > 0 && is_stored(sorted_types(ts)[d], group_of(w, d as u8))
}

proof fn lemma_variant_is_stored(ts: Seq<TypeView>, w: Seq<ValueView>)
    requires
        variant_ok(ts),
        ts.len() < NULL_DISCRIMINATOR,
        all_variants(w),
        forall|i: int|
            0 <= i < w.len() ==> {
                let d = (#[trigger] w[i])->Variant_0;
                if d == NULL_DISCRIMINATOR {
                    *w[i]->Variant_1 is Null
                } else {
                    d < ts.len()
                }
            },
        forall|d: int| 0 <= d < ts.len() ==> #[trigger] is_group_stored(ts, w, d),
    ensures
        is_stored(TypeView::Variant(ts), w),
{
    reveal(stored);
    let t = TypeView::Variant(ts);
    lemma_sorted_size(ts);
    law_sorted_types(ts);
    let sorted = sorted_types(ts);
    assert forall|i: int| 0 <= i < sorted.len() && 0 + i != NULL_DISCRIMINATOR implies column_bytes(
        #[trigger] sorted[i],
        group_of(w, (0 + i) as u8),
    ) is Ok by {
        assert(is_group_stored(ts, w, i));
    }
    lemma_groups_written(sorted, w, 0);
    assert(column_bytes(t, w) is Ok);
    let columns = stored_groups(sorted, w, 0);
    let out = variants_of(w, columns);
    assert(stored(t, w) == out);
    lemma_stored_groups(sorted, w, 0);
    lemma_columns_long(sorted, w, columns);
    assert forall|i: int| 0 <= i < sorted.len() && 0 + i != NULL_DISCRIMINATOR implies column_fits(
        #[trigger] sorted[i],
        group_of(out, (0 + i) as u8),
    ) by {
        assert(is_group_stored(ts, w, i));
        lemma_group_stored(w, columns, i as u8);
        assert(columns[i] == stored_group(sorted[i], w, (0 + i) as nat));
        assert(columns[i] == stored(sorted[i], group_of(w, i as u8)));
    }
    lemma_groups(sorted, out, 0);
    assert forall|i: int| 0 <= i < out.len() implies (#[trigger] out[i]) is Variant && {
        let d = out[i]->Variant_0;
        if d == NULL_DISCRIMINATOR {
            *(out[i]->Variant_1) == ValueView::Null
        } else {
            d < ts.len()
        }
    } by {
        assert(w[i] is Variant);
    }
    assert(column_fits(t, out));
}

/// Whether some value has a type.
spec fn occurs(s: Seq<ValueView>, t: TypeView) -> bool {
    exists|i: int| 0 <= i < s.len() && !(s[i] is Null) && #[trigger] guessed(s[i]) == t
}

/// Whether this holds of all types.
spec fn all_occur(s: Seq<ValueView>, ts: Seq<TypeView>) -> bool {
    forall|d: int| 0 <= d < ts.len() ==> occurs(s, #[trigger] ts[d])
}

proof fn lemma_elements(s: Seq<ValueView>, e: TypeView)
    requires
        is_own_value(ValueView::Array(s)),
        guessed(ValueView::Array(s)) == TypeView::Array(Box::new(e)),
    ensures
        all_own(s),
        !(e is Variant) ==> no_null(s) && forall|i: int|
            0 <= i < s.len() ==> guessed(#[trigger] s[i]) == e,
        !(e is Variant) && s.len() == 0 ==> e is String,
        e matches TypeView::Variant(ts) ==> {
            &&& ts.len() < NULL_DISCRIMINATOR
            &&& distinct_names(ts)
            &&& values_of(s, ts)
            &&& some_bare(s)
            &&& all_occur(s, ts)
        },
{
    let all = guesses(s);
    lemma_own_array(s);
    law_guesses(s);
    if all.len() == 1 {
        assert(all.contains(all[0]));
        let k = choose|k: int|
            0 <= k < s.len() && !(s[k] is Null) && #[trigger] guessed(s[k]) == all[0];
        assert(is_own_value(s[k]));
        lemma_own(s[k]);
    }
    if let TypeView::Variant(ts) = e {
        assert(all.len() > 1);
        law_guesses_differ(s);
        assert(ts == sorted_types(all));
        law_sorted_types(all);
        lemma_sorted_distinct(all);
        assert forall|i: int| 0 <= i < s.len() implies (#[trigger] s[i]) is Null || ts.contains(
            guessed(s[i]),
        ) by {
            lemma_sorted_contains(all, guessed(s[i]));
            if !(s[i] is Null) {
                assert(guessed(s[i]) == guessed(s[i]));
            }
        }
        assert forall|d: int| 0 <= d < ts.len() implies occurs(s, #[trigger] ts[d]) by {
            assert(ts.contains(ts[d]));
            lemma_sorted_contains(all, ts[d]);
        }
        assert(occurs(s, ts[0]));
        let k = choose|k: int|
            0 <= k < s.len() && !(s[k] is Null) && #[trigger] guessed(s[k]) == ts[0];
        assert(is_own_value(s[k]));
        lemma_own(s[k]);
        assert(!(s[k] is Variant) && !(s[k] is Null));
    } else {
        assert(all.len() <= 1);
        assert forall|i: int| 0 <= i < s.len() implies guessed(#[trigger] s[i]) == e by {
            assert(!(s[i] is Null));
            assert(all.contains(guessed(s[i])));
            assert(all[0] == guessed(s[i]));
        }
        if s.len() == 0 {
            assert(all.len() == 0);
        }
    }
}

/// Whether the values of all rows are values of one type, or nulls and values of several.
spec fn rows_of_type(rows: Seq<Seq<ValueView>>, e: TypeView) -> bool {
    forall|i: int|
        0 <= i < rows.len() ==> is_own_value(ValueView::Array(#[trigger] rows[i])) && guessed(
            ValueView::Array(rows[i]),
        ) == TypeView::Array(Box::new(e))
}

proof fn lemma_joined_elements(rows: Seq<Seq<ValueView>>, e: TypeView)
    requires
        rows_of_type(rows, e),
    ensures
        all_own(joined_rows(rows)),
        !(e is Variant) ==> no_null(joined_rows(rows)) && forall|i: int|
            0 <= i < joined_rows(rows).len() ==> guessed(#[trigger] joined_rows(rows)[i]) == e,
        e matches TypeView::Variant(ts) ==> {
            &&& values_of(joined_rows(rows), ts)
            &&& rows.len() > 0 ==> some_bare(joined_rows(rows))
            &&& rows.len() > 0 ==> all_occur(joined_rows(rows), ts)
        },
    decreases rows.len(),
{
    if rows.len() > 0 {
        let head = rows.drop_last();
        assert(rows_of_type(head, e)) by {
            assert forall|i: int| 0 <= i < head.len() implies is_own_value(
                ValueView::Array(#[trigger] head[i]),
            ) && guessed(ValueView::Array(head[i])) == TypeView::Array(Box::new(e)) by {
                assert(head[i] == rows[i]);
            }
        }
        lemma_joined_elements(head, e);
        let last = rows[rows.len() - 1];
        let a = joined_rows(head);
        let all = joined_rows(rows);
        assert(all == a + last);
        assert(is_own_value(ValueView::Array(last)));
        lemma_elements(last, e);
        if let TypeView::Variant(ts) = e {
            let k = choose|k: int|
                0 <= k < last.len() && !(#[trigger] last[k] is Variant) && !(last[k] is Null);
            assert(all[a.len() + k] == last[k]);
            assert forall|d: int| 0 <= d < ts.len() implies occurs(all, #[trigger] ts[d]) by {
                assert(occurs(last, ts[d]));
                let i = choose|i: int|
                    0 <= i < last.len() && !(last[i] is Null) && #[trigger] guessed(last[i]) == ts[d];
                assert(all[a.len() + i] == last[i]);
                assert(guessed(all[a.len() + i]) == ts[d]);
            }
        }
    }
}

/// Values of one type that they have of themselves can be written as a column of it, and be
/// read back as they are written.
pub proof fn law_own_column_is_stored(t: TypeView, vs: Seq<ValueView>)
    requires
        vs.len() > 0,
        all_own(vs),
        forall|i: int| 0 <= i < vs.len() ==> !((#[trigger] vs[i]) is Null) && guessed(vs[i]) == t,
        element_count(vs) <= usize::MAX,
    ensures
        is_stored(t, vs),
    decreases type_size(t), 1nat,
{
    assert forall|i: int| 0 <= i < vs.len() implies ((#[trigger] vs[i]) is Array <==> t is Array)
        && (!(vs[i] is Array) ==> is_own_cell(vs[i])) by {
        assert(is_own_value(vs[i]) && guessed(vs[i]) == t);
        lemma_own(vs[i]);
    }
    if let TypeView::Array(inner) = t {
        lemma_own_arrays(t, *inner, vs);
    } else {
        assert forall|i: int| 0 <= i < vs.len() implies cell_fits(#[trigger] vs[i], t) by {
            assert(guessed(vs[i]) == t);
        }
        assert(is_own_cell(vs[0]) && guessed(vs[0]) == t);
        law_fitting_is_stored(t, vs);
    }
}

proof fn lemma_own_arrays(t: TypeView, e: TypeView, vs: Seq<ValueView>)
    requires
        t == TypeView::Array(Box::new(e)),
        vs.len() > 0,
        all_own(vs),
        forall|i: int| 0 <= i < vs.len() ==> (#[trigger] vs[i]) is Array && guessed(vs[i]) == t,
        element_count(vs) <= usize::MAX,
    ensures
        is_stored(t, vs),
    decreases type_size(t), 0nat,
{
    let rows = Seq::new(vs.len(), |i: int| vs[i]->Array_0);
    assert forall|i: int| 0 <= i < vs.len() implies row_items(t, #[trigger] vs[i]) == Ok::<
        _,
        Error,
    >(rows[i]) && vs[i] == ValueView::Array(rows[i]) by {
        assert(vs[i] is Array);
    }
    lemma_rows_made(t, vs, rows);
    lemma_count_joined(vs, rows);
    let items = joined_rows(rows);
    assert(rows_of_type(rows, e)) by {
        assert forall|i: int| 0 <= i < rows.len() implies is_own_value(
            ValueView::Array(#[trigger] rows[i]),
        ) && guessed(ValueView::Array(rows[i])) == TypeView::Array(Box::new(e)) by {
            assert(vs[i] == ValueView::Array(rows[i]));
            assert(is_own_value(vs[i]) && guessed(vs[i]) == t);
        }
    }
    lemma_joined_elements(rows, e);
    assert(is_own_value(ValueView::Array(rows[0])));
    lemma_elements(rows[0], e);
    assert(type_size(e) < type_size(t));
    if let TypeView::Variant(ts) = e {
        lemma_mixed_items(ts, items);
    } else {
        assert(wrapped(e, items) == Ok::<_, Error>(items));
        if items.len() > 0 {
            law_own_column_is_stored(e, items);
        } else {
            lemma_all_empty(rows, 0);
            assert(column_fits(e, items));
            law_fitting_is_stored(e, items);
        }
    }
    lemma_array_is_stored(t, e, vs);
}

proof fn lemma_all_empty(rows: Seq<Seq<ValueView>>, i: int)
    requires
        joined_rows(rows).len() == 0,
        0 <= i < rows.len(),
    ensures
        rows[i].len() == 0,
    decreases rows.len(),
{
    if i < rows.len() - 1 {
        assert(rows.drop_last()[i] == rows[i]);
        lemma_all_empty(rows.drop_last(), i);
    }
}

/// Whether values are others under the discriminators of their types.
spec fn told_as(ts: Seq<TypeView>, items: Seq<ValueView>, w: Seq<ValueView>) -> bool {
    &&& w.len() == items.len()
    &&& all_variants(w)
    &&& forall|i: int|
        0 <= i < w.len() ==> {
            let d = (#[trigger] w[i])->Variant_0;
            &&& *w[i]->Variant_1 == items[i]
            &&& d == NULL_DISCRIMINATOR <==> items[i] is Null
            &&& d != NULL_DISCRIMINATOR ==> d < ts.len() && guessed(items[i])
                == sorted_types(ts)[d as int]
        }
}

proof fn lemma_told_as(ts: Seq<TypeView>, items: Seq<ValueView>)
    requires
        ts.len() < NULL_DISCRIMINATOR,
        values_of(items, ts),
    ensures
        all_discriminated(items, ts) is Ok,
        told_as(ts, items, all_discriminated(items, ts)->Ok_0),
{
    lemma_all_told(items, ts);
    lemma_discriminated_len(items, ts);
    let w = all_discriminated(items, ts)->Ok_0;
    assert forall|i: int| 0 <= i < w.len() implies (#[trigger] w[i]) is Variant && {
        let d = w[i]->Variant_0;
        &&& *w[i]->Variant_1 == items[i]
        &&& d == NULL_DISCRIMINATOR <==> items[i] is Null
        &&& d != NULL_DISCRIMINATOR ==> d < ts.len() && guessed(items[i])
            == sorted_types(ts)[d as int]
    } by {
        assert(discriminated(items[i], ts) == Ok::<_, Error>(w[i]));
        assert(items[i] is Null || ts.contains(guessed(items[i])));
        lemma_told(items[i], ts);
    }
}

proof fn lemma_told_group(ts: Seq<TypeView>, items: Seq<ValueView>, w: Seq<ValueView>, d: int)
    requires
        ts.len() < NULL_DISCRIMINATOR,
        distinct_names(ts),
        all_own(items),
        all_occur(items, ts),
        told_as(ts, items, w),
        0 <= d < ts.len(),
    ensures
        ({
            let group = group_of(w, d as u8);
            &&& group.len() > 0
            &&& all_own(group)
            &&& forall|i: int|
                0 <= i < group.len() ==> !((#[trigger] group[i]) is Null) && guessed(group[i])
                    == sorted_types(ts)[d]
            &&& element_count(group) <= element_count(items)
        }),
{
    let sorted = sorted_types(ts);
    law_sorted_types(ts);
    lemma_sorted_contains(ts, sorted[d]);
    assert(sorted.contains(sorted[d]));
    let c = choose|c: int| 0 <= c < ts.len() && ts[c] == sorted[d];
    assert(occurs(items, ts[c]));
    let i = choose|i: int|
        0 <= i < items.len() && !(items[i] is Null) && #[trigger] guessed(items[i]) == ts[c];
    assert(w[i] is Variant);
    lemma_sorted_apart(ts, w[i]->Variant_0 as int, d);
    lemma_group_rank(w, d as u8, i);
    assert forall|k: int| 0 <= k < w.len() && (#[trigger] w[k])->Variant_0 == d as u8 implies {
        let x = *w[k]->Variant_1;
        is_own_value(x) && !(x is Null) && guessed(x) == sorted[d]
    } by {
        assert(is_own_value(items[k]));
    }
    lemma_group_values(w, d as u8, sorted[d]);
    lemma_count_group(w, d as u8);
    assert forall|k: int| 0 <= k < w.len() implies elements_in(#[trigger] w[k]) == elements_in(
        items[k],
    ) by {
        assert(w[k] is Variant);
    }
    lemma_count_same(w, items);
}

proof fn lemma_mixed_items(ts: Seq<TypeView>, items: Seq<ValueView>)
    requires
        ts.len() < NULL_DISCRIMINATOR,
        distinct_names(ts),
        all_own(items),
        values_of(items, ts),
        some_bare(items),
        all_occur(items, ts),
        element_count(items) <= usize::MAX,
    ensures
        wrapped(TypeView::Variant(ts), items) is Ok,
        is_stored(TypeView::Variant(ts), wrapped(TypeView::Variant(ts), items)->Ok_0),
    decreases type_size(TypeView::Variant(ts)), 2nat,
{
    lemma_told_as(ts, items);
    law_sorted_types(ts);
    lemma_sorted_size(ts);
    let sorted = sorted_types(ts);
    let w = all_discriminated(items, ts)->Ok_0;
    assert(wrapped(TypeView::Variant(ts), items) == Ok::<_, Error>(w));
    assert forall|d: int| 0 <= d < ts.len() implies #[trigger] is_group_stored(ts, w, d) by {
        lemma_told_group(ts, items, w, d);
        lemma_type_in(sorted, d);
        law_own_column_is_stored(sorted[d], group_of(w, d as u8));
    }
    assert(variant_ok(ts));
    lemma_variant_is_stored(ts, w);
}

proof fn lemma_type_in(ts: Seq<TypeView>, i: int)
    requires
        0 <= i < ts.len(),
    ensures
        type_size(ts[i]) < types_size(ts),
    decreases ts.len(),
{
    if i > 0 {
        let tail = ts.subrange(1, ts.len() as int);
        assert(tail[i - 1] == ts[i]);
        lemma_type_in(tail, i - 1);
    }
}

proof fn lemma_sorted_apart(ts: Seq<TypeView>, i: int, j: int)
    requires
        distinct_names(ts),
        0 <= i < sorted_types(ts).len(),
        0 <= j < sorted_types(ts).len(),
        sorted_types(ts)[i] == sorted_types(ts)[j],
    ensures
        i == j,
{
    assert(ts.no_duplicates()) by {
        assert forall|a: int, b: int| 0 <= a < ts.len() && 0 <= b < ts.len() && a != b implies ts[a]
            != ts[b] by {
            if a < b {
                assert(type_text(ts[a]) != type_text(ts[b]));
            } else {
                assert(type_text(ts[b]) != type_text(ts[a]));
            }
        }
    }
    let sorted = sorted_types(ts);
    law_sorted_types(ts);
    ts.lemma_multiset_has_no_duplicates();
    sorted.lemma_multiset_has_no_duplicates_conv();
}

// ---------------------------------------------------------------------------
// Values of any types
// ---------------------------------------------------------------------------

proof fn lemma_values_of_type(vs: Seq<ValueView>, names: Seq<Seq<char>>, d: nat)
    requires
        all_own(vs),
        forall|i: int|
            0 <= i < vs.len() && !(vs[i] is Null) ==> name_tells(guessed(#[trigger] vs[i])),
    ensures
        forall|i: int|
            0 <= i < values_of_type(vs, names, d).len() ==> {
                let w = #[trigger] values_of_type(vs, names, d)[i];
                &&& is_own_value(w)
                &&& !(w is Null)
                &&& d < names.len()
                &&& guessed(w) == registered_type(names[d as int])
            },
        element_count(values_of_type(vs, names, d)) <= element_count(vs),
    decreases vs.len(),
{
    if vs.len() > 0 {
        let head = vs.drop_last();
        let last = vs[vs.len() - 1];
        assert(last == vs.last());
        assert(is_own_value(last));
        assert forall|i: int| 0 <= i < head.len() implies is_own_value(#[trigger] head[i]) && (
        head[i] is Null || name_tells(guessed(head[i]))) by {
            assert(head[i] == vs[i]);
        }
        lemma_values_of_type(head, names, d);
        let hv = values_of_type(head, names, d);
        let all = values_of_type(vs, names, d);
        lemma_name_index(names, type_text(guessed(last)), 0);
        if !(last is Null) {
            law_type_name_reads_back(guessed(last));
        }
        assert forall|i: int| 0 <= i < all.len() implies {
            let w = #[trigger] all[i];
            &&& is_own_value(w)
            &&& !(w is Null)
            &&& d < names.len()
            &&& guessed(w) == registered_type(names[d as int])
        } by {
            if i < hv.len() {
                assert(all[i] == hv[i]);
            }
        }
        assert(vs.subrange(0, vs.len() - 1) =~= head);
        lemma_count_push(hv, last);
    }
}

proof fn lemma_held(vs: Seq<ValueView>, names: Seq<Seq<char>>, d: nat, i: int)
    requires
        0 <= i < vs.len(),
        !(vs[i] is Null),
        value_discriminator(vs[i], names) == Some(d),
    ensures
        values_of_type(vs, names, d).len() > 0,
    decreases vs.len(),
{
    if i < vs.len() - 1 {
        assert(vs.drop_last()[i] == vs[i]);
        lemma_held(vs.drop_last(), names, d, i);
    }
}

proof fn lemma_type_held(vs: Seq<ValueView>, k: int)
    requires
        0 <= k < registry(vs).len(),
    ensures
        values_of_type(vs, registry(vs), k as nat).len() > 0,
{
    let names = registry(vs);
    law_registry(vs);
    assert(names.contains(names[k]));
    let i = choose|i: int|
        0 <= i < vs.len() && !(vs[i] is Null) && #[trigger] type_text(guessed(vs[i])) == names[k];
    lemma_name_index(names, names[k], 0);
    let d = name_index(names, names[k], 0)->0;
    assert(d == k) by {
        if d < k {
            assert(text_le(names[d as int], names[k]));
        } else if k < d {
            assert(text_le(names[k], names[d as int]));
        }
    }
    lemma_held(vs, names, k as nat, i);
}

/// Nulls, cells, and arrays of such values of one type or of several, can be written as a
/// column of any values once their types have been found out, and be read back as they are
/// written.
pub proof fn law_own_values_are_stored(vs: Seq<ValueView>)
    requires
        all_own(vs),
        forall|i: int|
            0 <= i < vs.len() && !(vs[i] is Null) ==> name_tells(guessed(#[trigger] vs[i])),
        element_count(vs) <= usize::MAX,
    ensures
        types_stored(field_types(entries_of(registry(vs))), vs, registry(vs), 0),
{
    let names = registry(vs);
    let ts = field_types(entries_of(names));
    law_registry(vs);
    assert forall|k: int| 0 <= k < ts.len() implies is_stored(
        #[trigger] ts[k],
        values_of_type(vs, names, (0 + k) as nat),
    ) by {
        let group = values_of_type(vs, names, k as nat);
        lemma_values_of_type(vs, names, k as nat);
        lemma_type_held(vs, k);
        law_own_column_is_stored(ts[k], group);
    }
}

} // verus!
