//! What is refused of dictionaries, servers and documents that share a column, and in what order
//! paths and documents stand.
use vstd::prelude::*;

use crate::binary_value::parsed_binary_value;
use crate::cells::{is_cell_type, parsed_cells};
use crate::discriminators::parsed_discriminators;
use crate::dynamic::{server_too_old, takes_complex_types};
use crate::error::{ComplexType, Error, ReadReason, WriteReason};
use crate::ingest::canonical;
use crate::json_columns::{fill_of, JsonParts};
use crate::json_documents::{
    documents, entries_between, entry_place, row_members, with_shared, with_value, Block, Members,
};
use crate::json_value::JsonView;
use crate::json_write::{emptied, field_pos, json_prefix, known_prefix, sorted_fields, SharedEntry};
use crate::low_cardinality::{low_rows, parsed_low};
use crate::state::TypeSpecificState;
use crate::text::{lemma_text_le_refl, lemma_text_le_total, lemma_text_le_trans, text_le};
use crate::types::{stripped, TypeView};
use crate::value_display::{json_string_of, object_text};
use crate::value_text::escaped_bytes;
use crate::values::ValueView;
use crate::wire::{law_uint_reads_back, le_bytes, lemma_pow256, parsed_uint};

verus! {

// ---------------------------------------------------------------------------
// Dictionaries
// ---------------------------------------------------------------------------

/// A dictionary is refused whose first number tells places of more than eight bytes, or that it is
/// a dictionary of several blocks, or that it brings no keys of its own.
pub proof fn law_dictionaries_that_are_refused(x: u64, rest: Seq<u8>, inner: TypeView, n: nat)
    requires
        n > 0,
        x % 256 > 3 || x / 256 % 2 == 1 || x / 512 % 2 == 0,
    ensures
        parsed_low(le_bytes(x as nat, 8) + rest, inner, n) is Err,
{
    lemma_pow256();
    law_uint_reads_back(x as nat, 8, rest);
}

/// A dictionary whose first number tells places of one byte is read with them, and each has to be
/// that of a key.
pub proof fn law_places_are_those_of_keys(
    s: Seq<u8>,
    s1: Seq<u8>,
    s2: Seq<u8>,
    s3: Seq<u8>,
    s4: Seq<u8>,
    end: Seq<u8>,
    inner: TypeView,
    flags: nat,
    count: nat,
    keys: Seq<ValueView>,
    ds: Seq<u64>,
    n: nat,
)
    requires
        n > 0,
        is_cell_type(stripped(inner)),
        parsed_uint(s, 8) == Ok::<_, Error>((flags, s1)),
        flags % 256 == 0 && flags / 256 % 2 == 0 && flags / 512 % 2 == 1,
        parsed_uint(s1, 8) == Ok::<_, Error>((count, s2)),
        count <= usize::MAX,
        parsed_cells(s2, stripped(inner), count) == Ok::<_, Error>((keys, s3)),
        parsed_uint(s3, 8) == Ok::<_, Error>((n, s4)),
        parsed_discriminators(s4, n, 255) == Ok::<_, Error>((ds, end)),
    ensures
        (exists|i: int| 0 <= i < ds.len() && #[trigger] ds[i] >= keys.len()) ==> parsed_low(
            s,
            inner,
            n,
        ) is Err,
        (forall|i: int| 0 <= i < ds.len() ==> #[trigger] ds[i] < keys.len()) ==> parsed_low(
            s,
            inner,
            n,
        ) == Ok::<_, Error>((low_rows(inner, keys, ds), end)),
{
}

/// A column with a dictionary of values that may be null has null where a row has nothing.
pub proof fn law_rows_without_values(t: TypeView)
    ensures
        fill_of(
            TypeView::LowCardinality(Box::new(TypeView::Nullable(Box::new(t)))),
        ) == ValueView::Null,
        fill_of(TypeView::Nullable(Box::new(t))) == ValueView::Null,
        fill_of(TypeView::LowCardinality(Box::new(TypeView::String))) == ValueView::String(
            Seq::empty(),
        ),
{
    reveal_with_fuel(crate::guess::default_of, 3);
}

// ---------------------------------------------------------------------------
// Servers
// ---------------------------------------------------------------------------

/// A server before 25.6 is told with its own major and minor number. It refuses documents with a
/// column for each path, and takes those of the older versions.
pub proof fn law_old_servers(
    what: ComplexType,
    major: u64,
    minor: u64,
    patch: u64,
    st: TypeSpecificState,
)
    requires
        major < 25 || (major == 25 && minor < 6),
        st is Json,
    ensures
        server_too_old(what, Some((major, minor, patch))) == Error::SerializeError(
            WriteReason::ServerTooOld(what, major, minor),
        ),
        st->Json_0@.version is None || st->Json_0@.version == Some(3u64) ==> known_prefix(
            st,
            Some((major, minor, patch)),
        ) == Err::<Seq<u8>, Error>(
            Error::SerializeError(WriteReason::ServerTooOld(ComplexType::Json, major, minor)),
        ),
        st->Json_0@.version == Some(0u64) || st->Json_0@.version == Some(2u64) ==> known_prefix(
            st,
            Some((major, minor, patch)),
        ) == json_prefix(st->Json_0@),
{
}

/// A server that tells no version, or 25.6 or a later one, takes documents of any version.
pub proof fn law_new_servers(server: Option<(u64, u64, u64)>, st: TypeSpecificState)
    requires
        match server {
            None => true,
            Some((major, minor, _)) => major > 25 || (major == 25 && minor >= 6),
        },
    ensures
        takes_complex_types(server),
        st is Json ==> known_prefix(st, server) == json_prefix(st->Json_0@),
        !(st is Json) ==> known_prefix(st, server) == Err::<Seq<u8>, Error>(
            Error::SerializeError(WriteReason::StateNotSet),
        ),
{
}

// ---------------------------------------------------------------------------
// Order of typed paths
// ---------------------------------------------------------------------------

/// Whether fields stand in the order of their names.
pub open spec fn in_order(fs: Seq<(Seq<char>, TypeView)>) -> bool {
    forall|i: int, j: int| 0 <= i < j < fs.len() ==> text_le(#[trigger] fs[i].0, #[trigger] fs[j].0)
}

proof fn lemma_field_place(fs: Seq<(Seq<char>, TypeView)>, name: Seq<char>, i: int)
    requires
        in_order(fs),
        0 <= i <= fs.len(),
        forall|k: int| 0 <= k < i ==> text_le(#[trigger] fs[k].0, name),
    ensures
        ({
            let p = field_pos(fs, name, i);
            &&& i <= p <= fs.len()
            &&& forall|k: int| 0 <= k < p ==> text_le(#[trigger] fs[k].0, name)
            &&& forall|k: int| p <= k < fs.len() ==> text_le(name, #[trigger] fs[k].0)
        }),
    decreases fs.len() - i,
{
    if i < fs.len() {
        if text_le(fs[i].0, name) {
            lemma_field_place(fs, name, i + 1);
        } else {
            lemma_text_le_total(fs[i].0, name);
            assert forall|k: int| i <= k < fs.len() implies text_le(name, #[trigger] fs[k].0) by {
                if k > i {
                    assert(text_le(fs[i].0, fs[k].0));
                    lemma_text_le_trans(name, fs[i].0, fs[k].0);
                }
            }
        }
    }
}

/// Paths that have types told stand in the order of their names, each as often as it was told.
pub proof fn law_typed_paths_stand_in_order(fs: Seq<(Seq<char>, TypeView)>)
    ensures
        in_order(sorted_fields(fs)),
        sorted_fields(fs).to_multiset() == fs.to_multiset(),
    decreases fs.len(),
{
    if fs.len() > 0 {
        let front = fs.drop_last();
        let last = fs.last();
        law_typed_paths_stand_in_order(front);
        let head = sorted_fields(front);
        let p = field_pos(head, last.0, 0);
        lemma_field_place(head, last.0, 0);
        lemma_text_le_refl(last.0);
        let all = head.insert(p, last);
        assert forall|i: int, j: int| 0 <= i < j < all.len() implies text_le(
            #[trigger] all[i].0,
            #[trigger] all[j].0,
        ) by {
            let a: int = if i < p {
                i
            } else {
                i - 1
            };
            let b: int = if j < p {
                j
            } else {
                j - 1
            };
            if i != p {
                assert(all[i] == head[a]);
            }
            if j != p {
                assert(all[j] == head[b]);
            }
        }
        head.to_multiset_ensures();
        front.to_multiset_ensures();
        assert(fs =~= front.push(last));
        vstd::seq_lib::to_multiset_insert(head, p, last);
    }
}

// ---------------------------------------------------------------------------
// Values that share a column
// ---------------------------------------------------------------------------

proof fn lemma_entry(entries: Seq<SharedEntry>, path: Seq<char>, i: int)
    requires
        0 <= i,
    ensures
        match entry_place(entries, path, i) {
            Some(p) => i <= p < entries.len() && entries[p].0 == path,
            None => forall|k: int| i <= k < entries.len() ==> (#[trigger] entries[k]).0 != path,
        },
    decreases entries.len() - i,
{
    if i < entries.len() && entries[i].0 != path {
        lemma_entry(entries, path, i + 1);
    }
}

/// Of the values that a row has at one path in the shared column, the last counts.
pub proof fn law_last_of_shared_values(
    keys: Seq<Seq<char>>,
    values: Seq<Seq<u8>>,
    from: nat,
    to: nat,
    k: nat,
)
    requires
        from <= k < to,
        forall|i: int| k < i < to ==> #[trigger] keys[i] != keys[k as int],
    ensures
        ({
            let es = entries_between(keys, values, from, to);
            &&& exists|i: int|
                0 <= i < es.len() && #[trigger] es[i] == (keys[k as int], values[k as int])
            &&& forall|i: int|
                0 <= i < es.len() && (#[trigger] es[i]).0 == keys[k as int] ==> es[i].1
                    == values[k as int]
        }),
    decreases to,
{
    let path = keys[k as int];
    let es = entries_between(keys, values, from, to);
    let before = entries_between(keys, values, from, (to - 1) as nat);
    lemma_distinct(keys, values, from, (to - 1) as nat);
    lemma_entry(before, keys[to - 1], 0);
    if k == to - 1 {
        match entry_place(before, path, 0) {
            Some(p) => {
                assert(es[p] == (path, values[k as int]));
            },
            None => {
                assert(es[es.len() - 1] == (path, values[k as int]));
            },
        }
    } else {
        law_last_of_shared_values(keys, values, from, (to - 1) as nat, k);
        let i = choose|i: int|
            0 <= i < before.len() && #[trigger] before[i] == (path, values[k as int]);
        assert(keys[to - 1] != path);
        assert(es[i] == before[i]);
        assert forall|i: int| 0 <= i < es.len() && (#[trigger] es[i]).0 == path implies es[i].1
            == values[k as int] by {
            assert(i < before.len() && es[i] == before[i]);
        }
    }
}

proof fn lemma_distinct(keys: Seq<Seq<char>>, values: Seq<Seq<u8>>, from: nat, to: nat)
    ensures
        ({
            let es = entries_between(keys, values, from, to);
            forall|i: int, j: int|
                0 <= i < j < es.len() ==> (#[trigger] es[i]).0 != (#[trigger] es[j]).0
        }),
    decreases to,
{
    if to > from {
        let before = entries_between(keys, values, from, (to - 1) as nat);
        lemma_distinct(keys, values, from, (to - 1) as nat);
        lemma_entry(before, keys[to - 1], 0);
        let es = entries_between(keys, values, from, to);
        assert forall|i: int, j: int| 0 <= i < j < es.len() implies (#[trigger] es[i]).0 != (
        #[trigger] es[j]).0 by {
            if j < before.len() {
                assert(es[i].0 == before[i].0 && es[j].0 == before[j].0);
            } else {
                assert(es[i].0 == before[i].0);
            }
        }
    }
}

/// A value of the shared column is put at its path; bytes that are no value are refused.
pub proof fn law_shared_values_are_put_in(m: Members, entries: Seq<SharedEntry>, e: SharedEntry)
    requires
        with_shared(m, entries) is Ok,
    ensures
        parsed_binary_value(e.1) is Err ==> with_shared(m, entries.push(e)) == Err::<Members, Error>(
            Error::DeserializeError(ReadReason::InvalidSharedValue),
        ),
        parsed_binary_value(e.1) matches Ok((v, _)) ==> with_shared(m, entries.push(e))
            == with_value(with_shared(m, entries)->Ok_0, e.0, v),
        with_shared(m, Seq::empty()) == Ok::<_, Error>(m),
{
    assert(entries.push(e).drop_last() =~= entries);
}

/// Each row of a block is the object of its own members.
pub proof fn law_documents_of_rows(b: Block, n: nat, r: int)
    requires
        documents(b, n) is Ok,
        0 <= r < n,
    ensures
        documents(b, n)->Ok_0.len() == n,
        row_members(b, r) matches Ok(m) && documents(b, n)->Ok_0[r] == ValueView::Json(
            JsonView::Object(m),
        ),
    decreases n,
{
    if r < n - 1 {
        law_documents_of_rows(b, (n - 1) as nat, r);
    } else if n > 1 {
        law_documents_of_rows(b, (n - 1) as nat, 0);
    }
}

/// What has been written is not held any longer: the paths and the version stay, and their columns
/// hold no values.
pub proof fn law_written_columns_are_given_up(p: JsonParts, i: int)
    ensures
        emptied(p).version == p.version,
        emptied(p).typed == p.typed,
        emptied(p).rows == p.rows,
        emptied(p).taken,
        emptied(p).shared is None,
        emptied(p).typed_columns.len() == 0,
        emptied(p).dynamic.len() == p.dynamic.len(),
        0 <= i < p.dynamic.len() ==> emptied(p).dynamic[i].0 == p.dynamic[i].0
            && emptied(p).dynamic[i].1.len() == 0,
{
}

// ---------------------------------------------------------------------------
// Texts and numbers
// ---------------------------------------------------------------------------

/// The text of a document shows the string that it holds, nothing where it is null, and itself
/// where it is another.
pub proof fn law_shown_documents(b: Seq<u8>, s: Seq<char>)
    ensures
        json_string_of(b) == Some(Some(s)) ==> object_text(b) == escaped_bytes(
            vstd::utf8::encode_utf8(s),
        ),
        json_string_of(b) == Some(None::<Seq<char>>) ==> object_text(b).len() == 0,
        json_string_of(b) is None && vstd::utf8::valid_utf8(b) ==> object_text(b) == escaped_bytes(
            b,
        ),
        json_string_of(b) is None && !vstd::utf8::valid_utf8(b) ==> object_text(b).len() == 0,
{
}

/// Numbers keep their bits, and whatever is no number has the bits of a quiet one.
pub proof fn law_bits_of_no_number(bits: u64)
    ensures
        bits <= 0x7FF0_0000_0000_0000 ==> canonical(bits) == bits,
        0x8000_0000_0000_0000 <= bits <= 0xFFF0_0000_0000_0000 ==> canonical(bits) == bits,
        0x7FF0_0000_0000_0000 < bits < 0x8000_0000_0000_0000 ==> canonical(bits)
            == 0x7FF8_0000_0000_0000,
        0xFFF0_0000_0000_0000 < bits ==> canonical(bits) == 0x7FF8_0000_0000_0000,
{
}

} // verus!
