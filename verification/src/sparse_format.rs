//! How sparse columns and columns with a dictionary stand in bytes.
use vstd::prelude::*;

use crate::cells::{cell_bytes, sized_bytes};
use crate::discriminators::parsed_discriminators;
use crate::dynamic::discriminator_bytes;
use crate::error::Error;
use crate::ingest_laws::{bounds_of, is_of, number_in};
use crate::low_cardinality::{
    dictionary, dictionary_bytes, entry_of, key_bytes, keys_bytes, low_bytes, low_rows, place,
    places, with_entries, Entry,
};
use crate::column_read::sparse_paths;
use crate::sparse::{
    element_bytes, first_places, group_bytes, is_default, is_sparse_value, placed, sparse_bytes,
    SparseState,
};
use crate::types::TypeView;
use crate::values::ValueView;
use crate::wire::{le_bytes, varuint_bytes};

verus! {

// ---------------------------------------------------------------------------
// Sparse columns
// ---------------------------------------------------------------------------

/// A number is left out of a sparse column if it is zero, and a string never is.
pub proof fn law_zeros_are_left_out(t: TypeView, v: ValueView, b: Seq<u8>)
    ensures
        bounds_of(t).0 < bounds_of(t).1 && is_of(v, t) ==> (is_default(t, v) <==> number_in(v)
            == Some(0int)),
        v matches ValueView::Float64(x) ==> (is_default(TypeView::Float64, v) <==> x == 0),
        v matches ValueView::Float32(x) ==> (is_default(TypeView::Float32, v) <==> x == 0),
        v matches ValueView::Date(x) ==> (is_default(TypeView::Date, v) <==> x == 0),
        v matches ValueView::Date32(x) ==> (is_default(TypeView::Date32, v) <==> x == 0),
        v matches ValueView::Ipv4(x) ==> (is_default(TypeView::Ipv4, v) <==> x == 0),
        v matches ValueView::DateTime(tz, x) ==> (is_default(TypeView::DateTime(tz), v) <==> x
            == 0),
        v matches ValueView::DateTime64(tz, x, p) ==> (is_default(
            TypeView::DateTime64(p, tz),
            v,
        ) <==> x == 0),
        v matches ValueView::Ipv6(a) ==> (is_default(TypeView::Ipv6, v) <==> forall|i: int|
            0 <= i < a.len() ==> #[trigger] a[i] == 0),
        !(t is Nullable) ==> is_default(TypeView::Nullable(Box::new(t)), v) == is_default(t, v),
        !is_default(TypeView::String, ValueView::String(b)),
        !(t is Nullable) ==> !is_default(t, ValueView::Null),
{
}

/// A column begins with how many rows were left out before each value; the number of those
/// behind the last one has two to the power of 62 added to it.
pub proof fn law_runs_of_rows_left_out(
    t: TypeView,
    k: nat,
    left_out: Seq<ValueView>,
    v: ValueView,
    vs: Seq<ValueView>,
)
    requires
        forall|i: int| 0 <= i < left_out.len() ==> is_default(t, #[trigger] left_out[i]),
        k + left_out.len() < 0x4000_0000_0000_0000,
        !is_default(t, v),
    ensures
        group_bytes(t, left_out, k) == varuint_bytes(
            (k + left_out.len() + 0x4000_0000_0000_0000) as nat,
        ),
        group_bytes(t, left_out + (seq![v] + vs), k) == varuint_bytes((k + left_out.len()) as nat)
            + group_bytes(t, vs, 0),
    decreases left_out.len(),
{
    let whole = left_out + (seq![v] + vs);
    if left_out.len() == 0 {
        assert(whole =~= seq![v] + vs);
        assert(whole.skip(1) =~= vs);
        let x = k as u64;
        assert((x | 0x4000_0000_0000_0000u64) == x + 0x4000_0000_0000_0000) by (bit_vector)
            requires
                x < 0x4000_0000_0000_0000,
        ;
    } else {
        let tail = left_out.skip(1);
        assert forall|i: int| 0 <= i < tail.len() implies is_default(t, #[trigger] tail[i]) by {
            assert(tail[i] == left_out[i + 1]);
        }
        assert(whole.skip(1) =~= tail + (seq![v] + vs));
        assert(whole[0] == left_out[0]);
        law_runs_of_rows_left_out(t, k + 1, tail, v, vs);
    }
}

/// The values that were not left out stand behind these numbers, one behind the other, each as
/// the bytes of a number.
pub proof fn law_values_of_sparse_columns(t: TypeView, v: ValueView, vs: Seq<ValueView>)
    ensures
        is_default(t, v) ==> element_bytes(t, seq![v] + vs) == element_bytes(t, vs),
        !is_default(t, v) && !(v is Null) && is_sparse_value(v) && element_bytes(t, vs) is Ok
            ==> element_bytes(t, seq![v] + vs) == Ok::<_, Error>(
            sized_bytes(v)->0 + element_bytes(t, vs)->Ok_0,
        ),
        element_bytes(t, vs) is Ok ==> sparse_bytes(t, vs) == Ok::<_, Error>(
            group_bytes(t, vs, 0) + element_bytes(t, vs)->Ok_0,
        ),
        number_in(v) is Some || v is Float32 || v is Float64 || v is Date || v is Date32 || v is Ipv4
            || v is Ipv6 || v is DateTime || v is DateTime64 || v is Decimal32 || v is Decimal64
            || v is Enum8 || v is Enum16 ==> is_sparse_value(v),
        v is Int128 || v is UInt128 || v is Int256 || v is UInt256 || v is Decimal128
            || v is Decimal256 || v is Uuid || v is String || v is Array || v is Null
            ==> !is_sparse_value(v),
        !is_default(t, v) && !(v is Null) && !is_sparse_value(v) ==> element_bytes(
            t,
            seq![v] + vs,
        ) is Err,
{
    assert((seq![v] + vs).skip(1) =~= vs);
    assert((seq![v] + vs)[0] == v);
}

// ---------------------------------------------------------------------------
// Dictionaries
// ---------------------------------------------------------------------------

/// With fewer than 256 keys, eight bytes stand first, of which the second is two; the number of
/// keys in eight bytes, the keys, the number of rows in eight bytes, and for each row one byte
/// with the place of its key follow.
pub proof fn law_bytes_of_dictionaries(inner: TypeView, dict: Seq<Entry>, es: Seq<Entry>)
    requires
        dict.len() < 0x100,
    ensures
        dictionary_bytes(inner, dict, es) == seq![0u8, 2, 0, 0, 0, 0, 0, 0] + (le_bytes(
            dict.len(),
            8,
        ) + (keys_bytes(inner, dict) + (le_bytes(es.len(), 8) + Seq::new(
            es.len(),
            |i: int| place(dict, es[i], 0) as u8,
        )))),
{
    reveal_with_fuel(le_bytes, 9);
    assert(le_bytes(512, 8) =~= seq![0u8, 2, 0, 0, 0, 0, 0, 0]);
    let ds = places(dict, es);
    let bytes = Seq::new(es.len(), |i: int| place(dict, es[i], 0) as u8);
    assert forall|i: int| 0 <= i < ds.len() implies #[trigger] ds[i] < 0x100 by {
        lemma_place(dict, es[i], 0);
    }
    lemma_small_places(ds, dict.len());
    assert forall|i: int| 0 <= i < ds.len() implies discriminator_bytes(ds, dict.len())[i]
        == bytes[i] by {
        lemma_place(dict, es[i], 0);
        assert(ds[i] == place(dict, es[i], 0) as u64);
    }
    assert(discriminator_bytes(ds, dict.len()) =~= bytes);
}

proof fn lemma_small_places(ds: Seq<u64>, total: nat)
    requires
        total < 0x100,
        forall|i: int| 0 <= i < ds.len() ==> #[trigger] ds[i] < 0x100,
    ensures
        discriminator_bytes(ds, total).len() == ds.len(),
        forall|i: int|
            0 <= i < ds.len() ==> #[trigger] discriminator_bytes(ds, total)[i] == ds[i] as u8,
    decreases ds.len(),
{
    if ds.len() > 0 {
        let head = ds.drop_last();
        assert forall|i: int| 0 <= i < head.len() implies #[trigger] head[i] < 0x100 by {
            assert(head[i] == ds[i]);
        }
        lemma_small_places(head, total);
        let x = ds.last() as nat;
        assert(ds[ds.len() - 1] == ds.last());
        reveal_with_fuel(le_bytes, 2);
        assert(le_bytes(x, 1) =~= seq![(x % 256) as u8]);
        let all = discriminator_bytes(ds, total);
        assert forall|i: int| 0 <= i < ds.len() implies #[trigger] all[i] == ds[i] as u8 by {
            if i < head.len() {
                assert(head[i] == ds[i]);
                assert(all[i] == discriminator_bytes(head, total)[i]);
            }
        }
    }
}

proof fn lemma_place(dict: Seq<Entry>, e: Entry, i: int)
    requires
        0 <= i <= dict.len(),
    ensures
        i <= place(dict, e, i) <= dict.len(),
        place(dict, e, i) < dict.len() ==> dict[place(dict, e, i)] == e,
        (exists|k: int| i <= k < dict.len() && #[trigger] dict[k] == e) ==> place(dict, e, i)
            < dict.len(),
    decreases dict.len() - i,
{
    if i < dict.len() && dict[i] != e {
        lemma_place(dict, e, i + 1);
    }
}

/// The keys of a dictionary are the different values in the order in which they come up, with
/// the one for null first where there may be nulls; the place of a row is that of its value.
pub proof fn law_dictionaries_hold_each_value_once(inner: TypeView, es: Seq<Entry>, i: int)
    requires
        0 <= i < es.len(),
    ensures
        ({
            let dict = dictionary(inner, es);
            &&& dict.no_duplicates()
            &&& 0 <= place(dict, es[i], 0) < dict.len()
            &&& dict[place(dict, es[i], 0)] == es[i]
            &&& inner is Nullable ==> dict[0] is None
            &&& !(inner is Nullable) ==> dict[0] == es[0]
            &&& forall|k: int|
                0 <= k < dict.len() ==> es.contains(#[trigger] dict[k]) || (inner is Nullable && k
                    == 0)
        }),
{
    let first: Seq<Entry> = if inner is Nullable {
        seq![None]
    } else {
        Seq::empty()
    };
    lemma_with_entries(first, es);
    let dict = dictionary(inner, es);
    assert(dict == with_entries(first, es));
    assert(es.contains(es[i]));
    assert(dict.contains(es[i]));
    let k = choose|k: int| 0 <= k < dict.len() && dict[k] == es[i];
    assert(dict[k] == es[i]);
    lemma_place(dict, es[i], 0);
    if inner is Nullable {
        assert(first[0] is None);
        assert(dict[0] == first[0]);
    } else {
        lemma_first_entry(es);
    }
    assert forall|k: int| 0 <= k < dict.len() implies es.contains(#[trigger] dict[k]) || (
    inner is Nullable && k == 0) by {
        if first.len() <= k {
            assert(es.contains(with_entries(first, es)[k]));
        }
    }
}

proof fn lemma_first_entry(es: Seq<Entry>)
    requires
        es.len() > 0,
    ensures
        with_entries(Seq::empty(), es).len() > 0,
        with_entries(Seq::empty(), es)[0] == es[0],
    decreases es.len(),
{
    if es.len() > 1 {
        lemma_first_entry(es.drop_last());
        assert(es.drop_last()[0] == es[0]);
    } else {
        assert(es.drop_last() =~= Seq::<Entry>::empty());
        assert(with_entries(Seq::empty(), es.drop_last()) == Seq::<Entry>::empty());
        assert(!Seq::<Entry>::empty().contains(es.last()));
    }
}

proof fn lemma_with_entries(first: Seq<Entry>, es: Seq<Entry>)
    requires
        first.no_duplicates(),
    ensures
        with_entries(first, es).no_duplicates(),
        with_entries(first, es).len() >= first.len(),
        forall|k: int| 0 <= k < first.len() ==> with_entries(first, es)[k] == #[trigger] first[k],
        forall|e: Entry| #[trigger]
            es.contains(e) ==> with_entries(first, es).contains(e),
        forall|k: int|
            first.len() <= k < with_entries(first, es).len() ==> es.contains(
                #[trigger] with_entries(first, es)[k],
            ),
    decreases es.len(),
{
    let all = with_entries(first, es);
    if es.len() > 0 {
        let he = es.drop_last();
        let head = with_entries(first, he);
        lemma_with_entries(first, he);
        assert forall|e: Entry| #[trigger] es.contains(e) implies all.contains(e) by {
            let i = choose|i: int| 0 <= i < es.len() && es[i] == e;
            if i < he.len() {
                assert(he[i] == e);
                assert(he.contains(e));
                let k = choose|k: int| 0 <= k < head.len() && head[k] == e;
                assert(all[k] == e);
            } else {
                assert(e == es.last());
                if head.contains(e) {
                } else {
                    assert(all[all.len() - 1] == e);
                }
            }
        }
        assert forall|k: int| first.len() <= k < all.len() implies es.contains(
            #[trigger] all[k],
        ) by {
            if k < head.len() {
                assert(all[k] == head[k]);
                assert(he.contains(head[k]));
                let i = choose|i: int| 0 <= i < he.len() && he[i] == head[k];
                assert(es[i] == all[k]);
            } else {
                assert(es[es.len() - 1] == all[k]);
            }
        }
    }
}

/// A value in a dictionary is the bytes of its cell, and null where there may be nulls is none.
pub proof fn law_keys_are_cells(inner: TypeView, v: ValueView, e: Entry, dict: Seq<Entry>)
    ensures
        entry_of(TypeView::Nullable(Box::new(inner)), ValueView::Null) == Ok::<Entry, Error>(None),
        !(v is Null) ==> entry_of(TypeView::Nullable(Box::new(inner)), v) == (match cell_bytes(
            inner,
            v,
        ) {
            Ok(b) => Ok(Some(b)),
            Err(x) => Err(x),
        }),
        keys_bytes(inner, seq![e] + dict) == key_bytes(inner, e) + keys_bytes(inner, dict),
        e matches Some(b) ==> key_bytes(inner, e) == b,
        low_bytes(inner, Seq::empty()) == Ok::<_, Error>(Seq::<u8>::empty()),
{
    assert((seq![e] + dict).skip(1) =~= dict);
    assert((seq![e] + dict)[0] == e);
}

/// A row of a column with a dictionary is read as the key at its place, and as null where there
/// may be nulls and its place is zero.
pub proof fn law_rows_of_dictionaries(
    inner: TypeView,
    keys: Seq<ValueView>,
    ds: Seq<u64>,
    i: int,
)
    requires
        0 <= i < ds.len(),
    ensures
        low_rows(inner, keys, ds).len() == ds.len(),
        inner is Nullable && ds[i] == 0 ==> low_rows(inner, keys, ds)[i] is Null,
        !(inner is Nullable) || ds[i] != 0 ==> low_rows(inner, keys, ds)[i] == keys[ds[i] as int],
{
}

/// The first byte tells how wide places are: zero for one byte, one for two, two for four and three
/// for eight, as few as tell all keys. The second byte is two.
pub proof fn law_width_of_places(inner: TypeView, dict: Seq<Entry>, es: Seq<Entry>)
    ensures
        ({
            let b = dictionary_bytes(inner, dict, es);
            let kind: u8 = if dict.len() < 0x100 {
                0
            } else if dict.len() < 0x1_0000 {
                1
            } else if dict.len() < 0x1_0000_0000 {
                2
            } else {
                3
            };
            &&& b.len() >= 16
            &&& b.take(8) == seq![kind, 2, 0, 0, 0, 0, 0, 0]
            &&& b.subrange(8, 16) == le_bytes(dict.len(), 8)
        }),
{
    reveal_with_fuel(le_bytes, 9);
    let b = dictionary_bytes(inner, dict, es);
    let kind: u8 = if dict.len() < 0x100 {
        0
    } else if dict.len() < 0x1_0000 {
        1
    } else if dict.len() < 0x1_0000_0000 {
        2
    } else {
        3
    };
    let flags = 512 + kind as nat;
    assert(flags % 256 == kind && flags / 256 == 2);
    assert(2nat / 256 == 0 && 2nat % 256 == 2 && 0nat / 256 == 0 && 0nat % 256 == 0);
    assert(le_bytes(flags, 8) =~= seq![kind, 2, 0, 0, 0, 0, 0, 0]);
    assert(b.take(8) =~= le_bytes(flags, 8));
    assert(b.subrange(8, 16) =~= le_bytes(dict.len(), 8));
}

/// A column is sparse where the number one is told for its path, and for no other number.
pub proof fn law_sparse_paths(kinds: Map<Seq<u16>, u8>, path: Seq<u16>)
    ensures
        sparse_paths(kinds).contains(path) <==> kinds.contains_key(path) && kinds[path] == 1,
{
}

/// A sparse column starts with as many rows left out as were left over before, and with a value
/// behind them if that was left over.
pub proof fn law_rows_left_over(n: usize)
    ensures
        first_places(SparseState { trailing_defaults: n, has_value_after_defaults: true }) == seq![
            n as nat,
        ],
        first_places(
            SparseState { trailing_defaults: n, has_value_after_defaults: false },
        ).len() == 0,
{
}

/// A row of a sparse column that has a value holds it, and all others hold what the type starts
/// with.
pub proof fn law_values_at_their_places(
    rows: Seq<ValueView>,
    places: Seq<nat>,
    vs: Seq<ValueView>,
    r: int,
)
    requires
        0 <= r < rows.len(),
        places.len() == vs.len(),
    ensures
        placed(rows, places, vs).len() == rows.len(),
        (forall|i: int| 0 <= i < places.len() ==> #[trigger] places[i] != r) ==> placed(
            rows,
            places,
            vs,
        )[r] == rows[r],
        forall|i: int|
            0 <= i < places.len() && #[trigger] places[i] == r && (forall|k: int|
                i < k < places.len() ==> #[trigger] places[k] != r) ==> placed(rows, places, vs)[r]
                == vs[i],
    decreases places.len(),
{
    if places.len() > 0 {
        let next = if places[0] < rows.len() {
            rows.update(places[0] as int, vs[0])
        } else {
            rows
        };
        let ps = places.skip(1);
        let xs = vs.skip(1);
        law_values_at_their_places(next, ps, xs, r);
        if forall|i: int| 0 <= i < places.len() ==> #[trigger] places[i] != r {
            assert(places[0] != r);
            assert forall|i: int| 0 <= i < ps.len() implies #[trigger] ps[i] != r by {
                assert(ps[i] == places[i + 1]);
            }
        }
        assert forall|i: int|
            0 <= i < places.len() && #[trigger] places[i] == r && (forall|k: int|
                i < k < places.len() ==> #[trigger] places[k] != r) implies placed(
            rows,
            places,
            vs,
        )[r] == vs[i] by {
            if i == 0 {
                assert forall|k: int| 0 <= k < ps.len() implies #[trigger] ps[k] != r by {
                    assert(ps[k] == places[k + 1]);
                }
            } else {
                assert(ps[i - 1] == r);
                assert forall|k: int| i - 1 < k < ps.len() implies #[trigger] ps[k] != r by {
                    assert(ps[k] == places[k + 1]);
                }
                assert(xs[i - 1] == vs[i]);
            }
        }
    }
}

} // verus!
