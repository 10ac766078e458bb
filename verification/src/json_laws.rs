//! What is written of the columns of JSON documents is read back.
use vstd::prelude::*;
use vstd::utf8::{encode_utf8, encode_utf8_decode_utf8, encode_utf8_valid_utf8};

use crate::column_laws::{lemma_prefixes_read_back, plain_prefixes};
use crate::column_read::{parsed_column, parsed_offsets, States};
use crate::columns::{column_bytes, field_types};
use crate::discriminators::parsed_discriminators;
use crate::dynamic::{
    dynamic_bytes, dynamic_header, entries_of, law_values_are_registered, name_bytes, names_of,
    registry, strictly_ascending,
};
use crate::dynamic_laws::{
    dynamic_stored, law_dynamic_header_reads_back, law_mixed_dynamic_reads_back, names_tell,
    types_stored,
};
use crate::dynamic_read::{
    all_placed, dynamic_row, dynamic_rows, parsed_flattened, parsed_type_columns,
    parsed_types_flattened,
};
use crate::error::Error;
use crate::json_columns::{JsonParts, JSON_OBJECT_VERSION_V1};
use crate::json_documents::{
    all_within, documents, entries_between, entry_place, parsed_json, parsed_shared, parsed_strings,
    row_start, shared_map, typed_names, Block,
};
use crate::json_paths::typed_type;
use crate::json_read::{
    parsed_dynamic_columns, parsed_headers, parsed_json_prefix, parsed_names, parsed_path_values,
    parsed_typed, path_rows, typed_paths_in, untyped_names, Entries, LayoutView,
};
use crate::json_write::{
    all_entries, column_names, dynamic_data, entry_names, entry_offsets, entry_values, field_pos,
    filled_columns, has_shared, is_written_version, json_bytes, json_prefix, path_headers,
    paths_bytes, same_prefixes, shared_bytes, shared_row, shared_rows, sorted_fields, typed_data,
    written_version, SharedEntry, WRITTEN_MAX_DYNAMIC_PATHS,
};
use crate::mixed_laws::{is_stored, law_mixed_column_reads_back, stored};
use crate::prefixes::{parsed_prefixes, prefix_bytes, prefixes_bytes};
use crate::text::text_le;
use crate::types::TypeView;
use crate::values::ValueView;
use crate::variant::rank;
use crate::wire::{
    law_string_reads_back, law_uint_reads_back, law_varuint_reads_back, le_bytes, lemma_pow256,
    parsed_string, parsed_uint, parsed_varuint, string_bytes, varuint_bytes,
};

verus! {

// ---------------------------------------------------------------------------
// Names and strings
// ---------------------------------------------------------------------------

/// Whether no name is longer than an index can count.
pub open spec fn names_short(names: Seq<Seq<char>>) -> bool {
    forall|i: int| 0 <= i < names.len() ==> encode_utf8(#[trigger] names[i]).len() <= usize::MAX
}

proof fn lemma_names_append(s: Seq<u8>, n: nat, name: Seq<char>, rest: Seq<u8>, head: Seq<Seq<char>>)
    requires
        parsed_names(s, n) == Ok::<_, Error>((head, string_bytes(encode_utf8(name)) + rest)),
        encode_utf8(name).len() <= usize::MAX,
    ensures
        parsed_names(s, n + 1) == Ok::<_, Error>((head.push(name), rest)),
    decreases n,
{
    if n == 0 {
        law_string_reads_back(encode_utf8(name), rest);
        encode_utf8_valid_utf8(name);
        encode_utf8_decode_utf8(name);
        assert(parsed_names(rest, 0) == Ok::<_, Error>((Seq::<Seq<char>>::empty(), rest)));
        assert(seq![name] + Seq::<Seq<char>>::empty() =~= head.push(name));
    } else {
        let (b, next) = parsed_string(s)->Ok_0;
        let tail = parsed_names(next, (n - 1) as nat)->Ok_0.0;
        lemma_names_append(next, (n - 1) as nat, name, rest, tail);
        let first = vstd::utf8::decode_utf8(b);
        assert(seq![first] + tail.push(name) =~= head.push(name));
    }
}

/// Names that were written are read back.
pub proof fn law_names_read_back(names: Seq<Seq<char>>, rest: Seq<u8>)
    requires
        names_short(names),
    ensures
        parsed_names(name_bytes(names) + rest, names.len()) == Ok::<_, Error>((names, rest)),
    decreases names.len(),
{
    if names.len() == 0 {
        assert(name_bytes(names) + rest =~= rest);
        assert(names =~= Seq::<Seq<char>>::empty());
    } else {
        let head = names.drop_last();
        let last = names.last();
        let b = string_bytes(encode_utf8(last));
        assert(names_short(head)) by {
            assert forall|i: int| 0 <= i < head.len() implies encode_utf8(
                #[trigger] head[i],
            ).len() <= usize::MAX by {
                assert(head[i] == names[i]);
            }
        }
        assert(last == names[names.len() - 1]);
        law_names_read_back(head, b + rest);
        assert(name_bytes(names) + rest =~= name_bytes(head) + (b + rest));
        lemma_names_append(name_bytes(names) + rest, head.len(), last, rest, head);
        assert(head.push(last) =~= names);
    }
}

/// The bytes of values.
spec fn values_of(entries: Seq<SharedEntry>) -> Seq<Seq<u8>> {
    Seq::new(entries.len(), |i: int| entries[i].1)
}

proof fn lemma_strings_append(s: Seq<u8>, n: nat, b: Seq<u8>, rest: Seq<u8>, head: Seq<Seq<u8>>)
    requires
        parsed_strings(s, n) == Ok::<_, Error>((head, string_bytes(b) + rest)),
        b.len() <= usize::MAX,
    ensures
        parsed_strings(s, n + 1) == Ok::<_, Error>((head.push(b), rest)),
    decreases n,
{
    if n == 0 {
        law_string_reads_back(b, rest);
        assert(parsed_strings(rest, 0) == Ok::<_, Error>((Seq::<Seq<u8>>::empty(), rest)));
        assert(seq![b] + Seq::<Seq<u8>>::empty() =~= head.push(b));
    } else {
        let (first, next) = parsed_string(s)->Ok_0;
        let tail = parsed_strings(next, (n - 1) as nat)->Ok_0.0;
        lemma_strings_append(next, (n - 1) as nat, b, rest, tail);
        assert(seq![first] + tail.push(b) =~= head.push(b));
    }
}

/// Whether no value is longer than an index can count, nor any path.
pub open spec fn entries_short(entries: Seq<SharedEntry>) -> bool {
    forall|i: int|
        0 <= i < entries.len() ==> (#[trigger] entries[i]).1.len() <= usize::MAX && encode_utf8(
            entries[i].0,
        ).len() <= usize::MAX
}

proof fn lemma_strings_read_back(entries: Seq<SharedEntry>, rest: Seq<u8>)
    requires
        entries_short(entries),
    ensures
        parsed_strings(entry_values(entries) + rest, entries.len()) == Ok::<_, Error>(
            (values_of(entries), rest),
        ),
    decreases entries.len(),
{
    if entries.len() == 0 {
        assert(entry_values(entries) + rest =~= rest);
        assert(values_of(entries) =~= Seq::<Seq<u8>>::empty());
    } else {
        let head = entries.drop_last();
        let last = entries.last();
        let b = string_bytes(last.1);
        assert(entries_short(head)) by {
            assert forall|i: int| 0 <= i < head.len() implies (
            #[trigger] head[i]).1.len() <= usize::MAX && encode_utf8(head[i].0).len()
                <= usize::MAX by {
                assert(head[i] == entries[i]);
            }
        }
        assert(last == entries[entries.len() - 1]);
        lemma_strings_read_back(head, b + rest);
        assert(entry_values(entries) + rest =~= entry_values(head) + (b + rest));
        lemma_strings_append(
            entry_values(entries) + rest,
            head.len(),
            last.1,
            rest,
            values_of(head),
        );
        assert(values_of(head).push(last.1) =~= values_of(entries));
    }
}

// ---------------------------------------------------------------------------
// The shared column
// ---------------------------------------------------------------------------

/// Where rows end.
spec fn ends_of(rows: Seq<Seq<SharedEntry>>) -> Seq<u64> {
    Seq::new(rows.len(), |i: int| all_entries(rows.take(i + 1)).len() as u64)
}

proof fn lemma_entries_prefix(rows: Seq<Seq<SharedEntry>>, n: int)
    requires
        0 <= n <= rows.len(),
    ensures
        all_entries(rows.take(n)).len() <= all_entries(rows).len(),
        all_entries(rows).take(all_entries(rows.take(n)).len() as int) == all_entries(
            rows.take(n),
        ),
    decreases rows.len() - n,
{
    if n == rows.len() {
        assert(rows.take(n) =~= rows);
        assert(all_entries(rows).take(all_entries(rows).len() as int) =~= all_entries(rows));
    } else {
        lemma_entries_prefix(rows, n + 1);
        assert(rows.take(n + 1).drop_last() =~= rows.take(n));
        let a = all_entries(rows.take(n));
        let b = all_entries(rows.take(n + 1));
        assert(b == a + rows[n]);
        assert(all_entries(rows).take(a.len() as int) =~= all_entries(rows).take(
            b.len() as int,
        ).take(a.len() as int));
        assert(b.take(a.len() as int) =~= a);
    }
}

proof fn lemma_ends_append(s: Seq<u8>, n: nat, x: nat, rest: Seq<u8>, head: Seq<u64>)
    requires
        parsed_offsets(s, n) == Ok::<_, Error>((head, le_bytes(x, 8) + rest)),
        x <= u64::MAX,
    ensures
        parsed_offsets(s, n + 1) == Ok::<_, Error>((head.push(x as u64), rest)),
    decreases n,
{
    if n == 0 {
        lemma_pow256();
        law_uint_reads_back(x, 8, rest);
        assert(parsed_offsets(rest, 0) == Ok::<_, Error>((Seq::<u64>::empty(), rest)));
        assert(seq![x as u64] + Seq::<u64>::empty() =~= head.push(x as u64));
    } else {
        let (y, next) = parsed_uint(s, 8)->Ok_0;
        let tail = parsed_offsets(next, (n - 1) as nat)->Ok_0.0;
        lemma_ends_append(next, (n - 1) as nat, x, rest, tail);
        assert(seq![y as u64] + tail.push(x as u64) =~= head.push(x as u64));
    }
}

proof fn lemma_ends_read_back(rows: Seq<Seq<SharedEntry>>, rest: Seq<u8>)
    requires
        all_entries(rows).len() <= usize::MAX,
    ensures
        parsed_offsets(entry_offsets(rows) + rest, rows.len()) == Ok::<_, Error>(
            (ends_of(rows), rest),
        ),
    decreases rows.len(),
{
    if rows.len() == 0 {
        assert(entry_offsets(rows) + rest =~= rest);
        assert(ends_of(rows) =~= Seq::<u64>::empty());
    } else {
        let head = rows.drop_last();
        let x = all_entries(rows).len();
        let tail = le_bytes(x, 8) + rest;
        lemma_entries_prefix(rows, rows.len() - 1);
        assert(rows.take(rows.len() - 1) =~= head);
        lemma_ends_read_back(head, tail);
        assert(entry_offsets(head) + tail =~= entry_offsets(rows) + rest);
        lemma_ends_append(entry_offsets(rows) + rest, head.len(), x, rest, ends_of(head));
        assert(ends_of(rows) =~= ends_of(head).push(x as u64)) by {
            assert(rows.take(rows.len() as int) =~= rows);
            assert forall|i: int| 0 <= i < head.len() implies ends_of(rows)[i] == ends_of(
                head,
            )[i] by {
                assert(rows.take(i + 1) =~= head.take(i + 1));
            }
        }
    }
}

/// Whether the values of a row have different paths.
pub open spec fn distinct_entries(row: Seq<SharedEntry>) -> bool {
    forall|i: int, j: int| 0 <= i < j < row.len() ==> row[i].0 != row[j].0
}

proof fn lemma_no_place(entries: Seq<SharedEntry>, path: Seq<char>, i: int)
    requires
        0 <= i,
        forall|j: int| i <= j < entries.len() ==> (#[trigger] entries[j]).0 != path,
    ensures
        entry_place(entries, path, i) is None,
    decreases entries.len() - i,
{
    if i < entries.len() {
        lemma_no_place(entries, path, i + 1);
    }
}

proof fn lemma_between(
    keys: Seq<Seq<char>>,
    values: Seq<Seq<u8>>,
    row: Seq<SharedEntry>,
    from: nat,
    k: nat,
)
    requires
        distinct_entries(row),
        k <= row.len(),
        from + row.len() <= keys.len(),
        from + row.len() <= values.len(),
        forall|i: int| 0 <= i < row.len() ==> keys[from + i] == (#[trigger] row[i]).0,
        forall|i: int| 0 <= i < row.len() ==> values[from + i] == (#[trigger] row[i]).1,
    ensures
        entries_between(keys, values, from, from + k) == row.take(k as int),
    decreases k,
{
    if k == 0 {
        assert(row.take(0) =~= Seq::<SharedEntry>::empty());
    } else {
        lemma_between(keys, values, row, from, (k - 1) as nat);
        let head = row.take(k - 1);
        let last = row[k - 1];
        assert(keys[from + (k - 1)] == last.0);
        assert(values[from + (k - 1)] == last.1);
        assert forall|j: int| 0 <= j < head.len() implies (#[trigger] head[j]).0 != last.0 by {
            assert(row[j].0 != row[k - 1].0);
        }
        lemma_no_place(head, last.0, 0);
        assert(row.take(k as int) =~= head.push(last));
    }
}

proof fn lemma_shared_map(rows: Seq<Seq<SharedEntry>>)
    requires
        all_entries(rows).len() <= usize::MAX,
        forall|i: int| 0 <= i < rows.len() ==> distinct_entries(#[trigger] rows[i]),
    ensures
        shared_map(
            ends_of(rows),
            entry_names(all_entries(rows)),
            values_of(all_entries(rows)),
        ) == rows,
        all_within(ends_of(rows), all_entries(rows).len()),
        row_start(ends_of(rows), rows.len() as int) == all_entries(rows).len(),
{
    let ends = ends_of(rows);
    let all = all_entries(rows);
    let keys = entry_names(all);
    let values = values_of(all);
    assert forall|i: int| 0 <= i < rows.len() implies (#[trigger] ends[i]) as usize <= all.len() by {
        lemma_entries_prefix(rows, i + 1);
    }
    assert forall|i: int| 0 <= i < rows.len() implies (#[trigger] shared_map(ends, keys, values)[i])
        == rows[i] by {
        let row = rows[i];
        lemma_entries_prefix(rows, i);
        lemma_entries_prefix(rows, i + 1);
        assert(rows.take(i + 1).drop_last() =~= rows.take(i));
        let a = all_entries(rows.take(i));
        let b = all_entries(rows.take(i + 1));
        assert(b == a + row);
        assert(row_start(ends, i) == a.len()) by {
            if i == 0 {
                assert(rows.take(0) =~= Seq::<Seq<SharedEntry>>::empty());
            }
        }
        assert((ends[i] as usize) as nat == b.len());
        assert forall|j: int| 0 <= j < row.len() implies keys[a.len() + j] == (
        #[trigger] row[j]).0 && values[a.len() + j] == row[j].1 by {
            assert(all.take(b.len() as int)[a.len() + j] == b[a.len() + j]);
        }
        assert(distinct_entries(row));
        lemma_between(keys, values, row, a.len(), row.len());
        assert(row.take(row.len() as int) =~= row);
    }
    assert(shared_map(ends, keys, values) =~= rows);
    assert(rows.take(rows.len() as int) =~= rows);
    if rows.len() == 0 {
        assert(all.len() == 0);
    }
}

proof fn lemma_last_differs(names: Seq<Seq<char>>, x: Seq<char>)
    requires
        strictly_ascending(names),
        names.len() > 0,
        names.drop_last().contains(x),
    ensures
        x != names.last(),
        names.contains(x),
{
    let k = choose|k: int| 0 <= k < names.drop_last().len() && names.drop_last()[k] == x;
    assert(names[k] == x);
    assert(text_le(names[k], names[names.len() - 1]) && names[k] != names[names.len() - 1]);
}

proof fn lemma_row_distinct(columns: Seq<(Seq<char>, Seq<ValueView>)>, r: int)
    requires
        strictly_ascending(column_names(columns)),
        shared_row(columns, r) is Ok,
    ensures
        distinct_entries(shared_row(columns, r)->Ok_0),
        forall|i: int|
            0 <= i < shared_row(columns, r)->Ok_0.len() ==> column_names(columns).contains(
                (#[trigger] shared_row(columns, r)->Ok_0[i]).0,
            ),
    decreases columns.len(),
{
    if columns.len() > 0 {
        let head = columns.drop_last();
        let names = column_names(columns);
        assert(column_names(head) =~= names.drop_last());
        assert(strictly_ascending(column_names(head)));
        lemma_row_distinct(head, r);
        let before = shared_row(head, r)->Ok_0;
        let row = shared_row(columns, r)->Ok_0;
        assert forall|i: int| 0 <= i < row.len() implies names.contains(
            (#[trigger] row[i]).0,
        ) by {
            if i < before.len() {
                assert(row[i] == before[i]);
                lemma_last_differs(names, before[i].0);
            } else {
                assert(names[names.len() - 1] == row[i].0);
            }
        }
        assert forall|i: int, j: int| 0 <= i < j < row.len() implies row[i].0 != row[j].0 by {
            assert(row[i] == before[i]);
            lemma_last_differs(names, before[i].0);
            if j < before.len() {
                assert(before[i].0 != before[j].0);
            }
        }
    }
}

proof fn lemma_rows_distinct(columns: Seq<(Seq<char>, Seq<ValueView>)>, n: nat)
    requires
        strictly_ascending(column_names(columns)),
        shared_rows(columns, n) is Ok,
    ensures
        shared_rows(columns, n)->Ok_0.len() == n,
        forall|i: int|
            0 <= i < n ==> distinct_entries(#[trigger] shared_rows(columns, n)->Ok_0[i]),
    decreases n,
{
    if n > 0 {
        lemma_rows_distinct(columns, (n - 1) as nat);
        lemma_row_distinct(columns, n - 1);
    }
}

proof fn lemma_shared_step(
    s: Seq<u8>,
    n: nat,
    ends: Seq<u64>,
    s1: Seq<u8>,
    keys: Seq<Seq<char>>,
    s2: Seq<u8>,
    values: Seq<Seq<u8>>,
    end: Seq<u8>,
)
    requires
        parsed_offsets(s, n) == Ok::<_, Error>((ends, s1)),
        parsed_names(s1, row_start(ends, n as int)) == Ok::<_, Error>((keys, s2)),
        parsed_strings(s2, row_start(ends, n as int)) == Ok::<_, Error>((values, end)),
        all_within(ends, row_start(ends, n as int)),
    ensures
        parsed_shared(s, n) == Ok::<_, Error>((shared_map(ends, keys, values), end)),
{
}

proof fn lemma_entries_read_back(all: Seq<SharedEntry>, rest: Seq<u8>)
    requires
        entries_short(all),
    ensures
        parsed_names(
            name_bytes(entry_names(all)) + (entry_values(all) + rest),
            all.len(),
        ) == Ok::<_, Error>((entry_names(all), entry_values(all) + rest)),
        parsed_strings(entry_values(all) + rest, all.len()) == Ok::<_, Error>(
            (values_of(all), rest),
        ),
{
    lemma_strings_read_back(all, rest);
    assert forall|i: int| 0 <= i < entry_names(all).len() implies encode_utf8(
        #[trigger] entry_names(all)[i],
    ).len() <= usize::MAX by {
        assert(all[i].1.len() <= usize::MAX && encode_utf8(all[i].0).len() <= usize::MAX);
    }
    law_names_read_back(entry_names(all), entry_values(all) + rest);
    assert(entry_names(all).len() == all.len());
}

proof fn lemma_rows_read_back(rows: Seq<Seq<SharedEntry>>, rest: Seq<u8>)
    requires
        all_entries(rows).len() <= usize::MAX,
        entries_short(all_entries(rows)),
        forall|i: int| 0 <= i < rows.len() ==> distinct_entries(#[trigger] rows[i]),
    ensures
        parsed_shared(
            entry_offsets(rows) + (name_bytes(entry_names(all_entries(rows))) + (entry_values(
                all_entries(rows),
            ) + rest)),
            rows.len(),
        ) == Ok::<_, Error>((rows, rest)),
{
    let all = all_entries(rows);
    let s2 = entry_values(all) + rest;
    let s1 = name_bytes(entry_names(all)) + s2;
    lemma_shared_map(rows);
    lemma_entries_read_back(all, rest);
    lemma_ends_read_back(rows, s1);
    lemma_shared_step(
        entry_offsets(rows) + s1,
        rows.len(),
        ends_of(rows),
        s1,
        entry_names(all),
        s2,
        values_of(all),
        rest,
    );
}

/// The shared column that was written is read back: each row has its paths and values.
#[verifier::spinoff_prover]
#[verifier::rlimit(40)]
pub proof fn law_shared_reads_back(
    columns: Seq<(Seq<char>, Seq<ValueView>)>,
    n: nat,
    rest: Seq<u8>,
)
    requires
        strictly_ascending(column_names(columns)),
        shared_rows(columns, n) is Ok,
        all_entries(shared_rows(columns, n)->Ok_0).len() <= usize::MAX,
        entries_short(all_entries(shared_rows(columns, n)->Ok_0)),
    ensures
        shared_bytes(Some(columns), n) is Ok,
        parsed_shared(shared_bytes(Some(columns), n)->Ok_0 + rest, n) == Ok::<_, Error>(
            (shared_rows(columns, n)->Ok_0, rest),
        ),
{
    let rows = shared_rows(columns, n)->Ok_0;
    let all = all_entries(rows);
    lemma_rows_distinct(columns, n);
    lemma_rows_read_back(rows, rest);
    assert(entry_offsets(rows) + (name_bytes(entry_names(all)) + entry_values(all)) + rest
        =~= entry_offsets(rows) + (name_bytes(entry_names(all)) + (entry_values(all) + rest)));
}

// ---------------------------------------------------------------------------
// Columns
// ---------------------------------------------------------------------------

/// Whether the columns of paths can be read back as those of their types, as they are
/// written.
#[verifier::opaque]
pub open spec fn typed_fit(
    typed: Seq<(Seq<char>, TypeView)>,
    columns: Seq<Seq<ValueView>>,
    n: nat,
) -> bool {
    &&& typed.len() == columns.len()
    &&& forall|i: int|
        0 <= i < typed.len() ==> is_stored(typed[i].1, #[trigger] columns[i]) && columns[i].len()
            == n
}

/// The columns of paths as they are written.
pub open spec fn stored_typed(
    typed: Seq<(Seq<char>, TypeView)>,
    columns: Seq<Seq<ValueView>>,
) -> Seq<Seq<ValueView>> {
    Seq::new(columns.len(), |i: int| stored(typed[i].1, columns[i]))
}

spec fn no_states() -> States {
    Map::empty()
}

proof fn lemma_typed_step(
    s: Seq<u8>,
    typed: Seq<(Seq<char>, TypeView)>,
    n: nat,
    c: Seq<ValueView>,
    mid: Seq<u8>,
    cs: Seq<Seq<ValueView>>,
    end: Seq<u8>,
)
    requires
        typed.len() > 0,
        parsed_column(s, typed[0].1, n, Set::empty(), Seq::empty(), no_states()) == Ok::<_, Error>(
            ((c, no_states()), mid),
        ),
        parsed_typed(mid, typed.subrange(1, typed.len() as int), n) == Ok::<_, Error>((cs, end)),
    ensures
        parsed_typed(s, typed, n) == Ok::<_, Error>((seq![c] + cs, end)),
{
}

proof fn lemma_typed_bytes(
    typed: Seq<(Seq<char>, TypeView)>,
    columns: Seq<Seq<ValueView>>,
    b: Seq<u8>,
    a: Seq<u8>,
)
    requires
        typed.len() > 0,
        columns.len() > 0,
        column_bytes(typed[0].1, columns[0]) == Ok::<_, Error>(b),
        typed_data(
            typed.subrange(1, typed.len() as int),
            columns.subrange(1, columns.len() as int),
        ) == Ok::<_, Error>(a),
    ensures
        typed_data(typed, columns) == Ok::<_, Error>(b + a),
{
}

proof fn lemma_column_back(t: TypeView, vs: Seq<ValueView>, rest: Seq<u8>) -> (b: Seq<u8>)
    requires
        is_stored(t, vs),
    ensures
        column_bytes(t, vs) == Ok::<_, Error>(b),
        parsed_column(b + rest, t, vs.len(), Set::empty(), Seq::empty(), no_states()) == Ok::<
            _,
            Error,
        >(((stored(t, vs), no_states()), rest)),
{
    law_mixed_column_reads_back(t, vs, rest, Seq::empty(), no_states());
    column_bytes(t, vs)->Ok_0
}

/// The columns of the paths with types of their own are read back as they are written.
#[verifier::spinoff_prover]
#[verifier::rlimit(40)]
pub proof fn law_typed_data_reads_back(
    typed: Seq<(Seq<char>, TypeView)>,
    columns: Seq<Seq<ValueView>>,
    n: nat,
    rest: Seq<u8>,
)
    requires
        typed_fit(typed, columns, n),
    ensures
        typed_data(typed, columns) is Ok,
        parsed_typed(typed_data(typed, columns)->Ok_0 + rest, typed, n) == Ok::<_, Error>(
            (stored_typed(typed, columns), rest),
        ),
    decreases typed.len(),
{
    if typed.len() == 0 {
        reveal(typed_fit);
        assert(typed_data(typed, columns)->Ok_0 + rest =~= rest);
        assert(stored_typed(typed, columns) =~= Seq::<Seq<ValueView>>::empty());
    } else {
        let tt = typed.subrange(1, typed.len() as int);
        let cc = columns.subrange(1, columns.len() as int);
        assert(typed_fit(tt, cc, n) && is_stored(typed[0].1, columns[0]) && columns[0].len() == n
            && typed.len() == columns.len()) by {
            reveal(typed_fit);
            assert forall|i: int| 0 <= i < tt.len() implies is_stored(
                tt[i].1,
                #[trigger] cc[i],
            ) && cc[i].len() == n by {
                assert(cc[i] == columns[i + 1]);
                assert(tt[i] == typed[i + 1]);
            }
        }
        law_typed_data_reads_back(tt, cc, n, rest);
        let a = typed_data(tt, cc)->Ok_0;
        let b = lemma_column_back(typed[0].1, columns[0], a + rest);
        lemma_typed_bytes(typed, columns, b, a);
        assert(b + a + rest =~= b + (a + rest));
        let c = stored(typed[0].1, columns[0]);
        let cs = stored_typed(tt, cc);
        lemma_typed_step(b + (a + rest), typed, n, c, a + rest, cs, rest);
        assert(seq![c] + cs =~= stored_typed(typed, columns));
    }
}

/// Whether the column of a path can be read back as it is written once its types have been
/// found out.
#[verifier::opaque]
pub open spec fn path_fits(column: Seq<ValueView>, n: nat) -> bool {
    &&& column.len() == n
    &&& registry(column).len() <= u64::MAX
    &&& types_stored(field_types(entries_of(registry(column))), column, registry(column), 0)
}

/// The column of a path as it is written.
pub open spec fn stored_path(column: Seq<ValueView>) -> Seq<ValueView> {
    dynamic_stored(column, entries_of(registry(column)))
}

/// The columns of paths as they are written, without the paths.
pub open spec fn stored_paths(columns: Seq<(Seq<char>, Seq<ValueView>)>) -> Seq<Seq<ValueView>> {
    Seq::new(columns.len(), |i: int| stored_path(columns[i].1))
}

/// The types of the columns of paths.
pub open spec fn path_types(columns: Seq<(Seq<char>, Seq<ValueView>)>) -> Seq<Entries> {
    Seq::new(columns.len(), |i: int| entries_of(registry(columns[i].1)))
}

/// The columns of paths without the paths.
pub open spec fn bare_columns(columns: Seq<(Seq<char>, Seq<ValueView>)>) -> Seq<Seq<ValueView>> {
    Seq::new(columns.len(), |i: int| columns[i].1)
}

proof fn lemma_path_types(columns: Seq<(Seq<char>, Seq<ValueView>)>)
    requires
        columns.len() > 0,
    ensures
        ({
            let cc = columns.subrange(1, columns.len() as int);
            let types = path_types(columns);
            &&& types.len() == columns.len()
            &&& types[0] == entries_of(registry(columns[0].1))
            &&& types.subrange(1, types.len() as int) == path_types(cc)
            &&& types == seq![entries_of(registry(columns[0].1))] + path_types(cc)
            &&& stored_paths(columns) == seq![stored_path(columns[0].1)] + stored_paths(cc)
        }),
{
    let cc = columns.subrange(1, columns.len() as int);
    let types = path_types(columns);
    assert(types.subrange(1, types.len() as int) =~= path_types(cc));
    assert(types =~= seq![types[0]] + types.subrange(1, types.len() as int));
    assert(stored_paths(columns) =~= seq![stored_path(columns[0].1)] + stored_paths(cc));
}

proof fn lemma_flattened_values(s: Seq<u8>, n: nat, ts: Seq<TypeView>)
    requires
        parsed_flattened(s, n, ts) is Ok,
    ensures
        parsed_path_values(s, n, ts) == parsed_flattened(s, n, ts),
{
    let (ds, mid) = parsed_discriminators(s, n, ts.len())->Ok_0;
    let (columns, end) = parsed_type_columns(mid, ts, ds, 0)->Ok_0;
    assert(all_placed(ds, ts.len(), columns));
    assert forall|i: int| 0 <= i < ds.len() implies path_rows(ds, ts.len(), columns)[i]
        == dynamic_rows(ds, ts.len(), columns)[i] by {
        assert(dynamic_row(ds[i], rank(ds, ds[i], i) as int, ts.len(), columns) is Some);
    }
    assert(path_rows(ds, ts.len(), columns) =~= dynamic_rows(ds, ts.len(), columns));
}

proof fn lemma_dynamic_bytes(
    columns: Seq<(Seq<char>, Seq<ValueView>)>,
    b: Seq<u8>,
    a: Seq<u8>,
)
    requires
        columns.len() > 0,
        dynamic_bytes(columns[0].1, entries_of(registry(columns[0].1))) == Ok::<_, Error>(b),
        dynamic_data(columns.subrange(1, columns.len() as int)) == Ok::<_, Error>(a),
    ensures
        dynamic_data(columns) == Ok::<_, Error>(b + a),
{
}

proof fn lemma_dynamic_step(
    s: Seq<u8>,
    n: nat,
    types: Seq<Entries>,
    c: Seq<ValueView>,
    mid: Seq<u8>,
    cs: Seq<Seq<ValueView>>,
    end: Seq<u8>,
)
    requires
        types.len() > 0,
        parsed_path_values(s, n, field_types(types[0])) == Ok::<_, Error>((c, mid)),
        parsed_dynamic_columns(mid, n, types.subrange(1, types.len() as int)) == Ok::<_, Error>(
            (cs, end),
        ),
    ensures
        parsed_dynamic_columns(s, n, types) == Ok::<_, Error>((seq![c] + cs, end)),
{
}

proof fn lemma_path_back(c: Seq<ValueView>, n: nat, rest: Seq<u8>) -> (b: Seq<u8>)
    requires
        path_fits(c, n),
    ensures
        dynamic_bytes(c, entries_of(registry(c))) == Ok::<_, Error>(b),
        parsed_path_values(b + rest, n, field_types(entries_of(registry(c)))) == Ok::<_, Error>(
            (stored_path(c), rest),
        ),
{
    reveal(path_fits);
    let entries = entries_of(registry(c));
    assert(names_of(entries) =~= registry(c));
    law_values_are_registered(c);
    law_mixed_dynamic_reads_back(c, entries, rest);
    let b = dynamic_bytes(c, entries)->Ok_0;
    lemma_flattened_values(b + rest, n, field_types(entries_of(registry(c))));
    b
}

/// The columns of the other paths are read back as they are written.
#[verifier::spinoff_prover]
#[verifier::rlimit(40)]
pub proof fn law_dynamic_data_reads_back(
    columns: Seq<(Seq<char>, Seq<ValueView>)>,
    n: nat,
    rest: Seq<u8>,
)
    requires
        forall|i: int| 0 <= i < columns.len() ==> path_fits((#[trigger] columns[i]).1, n),
    ensures
        dynamic_data(columns) is Ok,
        parsed_dynamic_columns(
            dynamic_data(columns)->Ok_0 + rest,
            n,
            path_types(columns),
        ) == Ok::<_, Error>((stored_paths(columns), rest)),
    decreases columns.len(),
{
    if columns.len() == 0 {
        assert(dynamic_data(columns)->Ok_0 + rest =~= rest);
        assert(stored_paths(columns) =~= Seq::<Seq<ValueView>>::empty());
    } else {
        let cc = columns.subrange(1, columns.len() as int);
        assert forall|i: int| 0 <= i < cc.len() implies path_fits((#[trigger] cc[i]).1, n) by {
            assert(cc[i] == columns[i + 1]);
        }
        law_dynamic_data_reads_back(cc, n, rest);
        let c = columns[0].1;
        assert(path_fits(c, n));
        let a = dynamic_data(cc)->Ok_0;
        let b = lemma_path_back(c, n, a + rest);
        lemma_dynamic_bytes(columns, b, a);
        assert(b + a + rest =~= b + (a + rest));
        let types = path_types(columns);
        lemma_path_types(columns);
        let w = stored_path(c);
        lemma_dynamic_step(b + (a + rest), n, types, w, a + rest, stored_paths(cc), rest);
    }
}

/// Whether the columns of a block of documents can be read back.
pub open spec fn parts_fit(p: JsonParts) -> bool {
    &&& is_written_version(written_version(p.version))
    &&& typed_fit(p.typed, p.typed_columns, p.rows)
    &&& forall|i: int| 0 <= i < p.dynamic.len() ==> path_fits((#[trigger] p.dynamic[i]).1, p.rows)
    &&& has_shared(written_version(p.version)) ==> {
        let columns = shared_columns(p);
        &&& strictly_ascending(column_names(columns))
        &&& shared_rows(columns, p.rows) is Ok
        &&& all_entries(shared_rows(columns, p.rows)->Ok_0).len() <= usize::MAX
        &&& entries_short(all_entries(shared_rows(columns, p.rows)->Ok_0))
    }
}

/// The columns of the paths that share one.
pub open spec fn shared_columns(p: JsonParts) -> Seq<(Seq<char>, Seq<ValueView>)> {
    match p.shared {
        Some(c) => c,
        None => Seq::empty(),
    }
}

/// The paths of a block of documents.
pub open spec fn layout_of(p: JsonParts) -> LayoutView {
    LayoutView {
        version: written_version(p.version),
        typed: p.typed,
        names: column_names(p.dynamic),
        types: path_types(p.dynamic),
    }
}

/// The columns of a block of documents.
pub open spec fn block_of(p: JsonParts) -> Block {
    Block {
        typed_names: typed_names(p.typed),
        typed_columns: p.typed_columns,
        names: column_names(p.dynamic),
        columns: bare_columns(p.dynamic),
        shared: if has_shared(written_version(p.version)) {
            shared_rows(shared_columns(p), p.rows)->Ok_0
        } else {
            Seq::empty()
        },
        nulls: has_shared(written_version(p.version)),
    }
}

/// The columns of a block of documents as they are written.
pub open spec fn stored_block(p: JsonParts) -> Block {
    Block {
        typed_columns: stored_typed(p.typed, p.typed_columns),
        columns: stored_paths(p.dynamic),
        ..block_of(p)
    }
}

proof fn lemma_json_step(
    s: Seq<u8>,
    p: JsonParts,
    s1: Seq<u8>,
    s2: Seq<u8>,
    end: Seq<u8>,
)
    requires
        is_written_version(written_version(p.version)),
        p.typed.len() == p.typed_columns.len(),
        parsed_typed(s, p.typed, p.rows) == Ok::<_, Error>(
            (stored_typed(p.typed, p.typed_columns), s1),
        ),
        parsed_dynamic_columns(s1, p.rows, path_types(p.dynamic)) == Ok::<_, Error>(
            (stored_paths(p.dynamic), s2),
        ),
        if has_shared(written_version(p.version)) {
            parsed_shared(s2, p.rows) == Ok::<_, Error>((block_of(p).shared, end))
        } else {
            s2 == end
        },
    ensures
        parsed_json(s, p.rows, layout_of(p)) == (match documents(stored_block(p), p.rows) {
            Err(e) => Err(e),
            Ok(v) => Ok((v, end)),
        }),
{
    assert(stored_block(p).typed_names.len() == p.typed.len());
    assert(stored_block(p).names.len() == stored_block(p).columns.len());
}

proof fn lemma_json_bytes(p: JsonParts, a: Seq<u8>, b: Seq<u8>, c: Seq<u8>)
    requires
        p.typed_columns.len() == p.typed.len(),
        typed_data(p.typed, p.typed_columns) == Ok::<_, Error>(a),
        dynamic_data(p.dynamic) == Ok::<_, Error>(b),
        if has_shared(written_version(p.version)) {
            shared_bytes(p.shared, p.rows) == Ok::<_, Error>(c)
        } else {
            c.len() == 0
        },
    ensures
        json_bytes(p) == Ok::<_, Error>(a + (b + c)),
{
    assert(filled_columns(p.typed_columns, p.typed.len(), p.rows) =~= p.typed_columns);
    if !has_shared(written_version(p.version)) {
        assert(c =~= Seq::<u8>::empty());
    }
}

proof fn lemma_shared_back(p: JsonParts, rest: Seq<u8>) -> (c: Seq<u8>)
    requires
        parts_fit(p),
    ensures
        if has_shared(written_version(p.version)) {
            &&& shared_bytes(p.shared, p.rows) == Ok::<_, Error>(c)
            &&& parsed_shared(c + rest, p.rows) == Ok::<_, Error>((block_of(p).shared, rest))
        } else {
            c.len() == 0
        },
{
    if has_shared(written_version(p.version)) {
        let columns = shared_columns(p);
        law_shared_reads_back(columns, p.rows, rest);
        assert(shared_bytes(p.shared, p.rows) == shared_bytes(Some(columns), p.rows));
        shared_bytes(Some(columns), p.rows)->Ok_0
    } else {
        Seq::empty()
    }
}

proof fn lemma_assoc(a: Seq<u8>, b: Seq<u8>, c: Seq<u8>, rest: Seq<u8>)
    ensures
        a + (b + c) + rest == a + (b + (c + rest)),
{
    assert(a + (b + c) + rest =~= a + (b + (c + rest)));
}

#[verifier::spinoff_prover]
#[verifier::rlimit(60)]
proof fn lemma_columns_read_back(p: JsonParts, c: Seq<u8>, rest: Seq<u8>)
    requires
        is_written_version(written_version(p.version)),
        typed_fit(p.typed, p.typed_columns, p.rows),
        p.typed.len() == p.typed_columns.len(),
        forall|i: int| 0 <= i < p.dynamic.len() ==> path_fits((#[trigger] p.dynamic[i]).1, p.rows),
        if has_shared(written_version(p.version)) {
            &&& shared_bytes(p.shared, p.rows) == Ok::<_, Error>(c)
            &&& parsed_shared(c + rest, p.rows) == Ok::<_, Error>((block_of(p).shared, rest))
        } else {
            c.len() == 0
        },
    ensures
        json_bytes(p) is Ok,
        parsed_json(json_bytes(p)->Ok_0 + rest, p.rows, layout_of(p)) == (match documents(
            stored_block(p),
            p.rows,
        ) {
            Err(e) => Err(e),
            Ok(v) => Ok((v, rest)),
        }),
{
    if !has_shared(written_version(p.version)) {
        assert(c + rest =~= rest);
    }
    law_dynamic_data_reads_back(p.dynamic, p.rows, c + rest);
    let b = dynamic_data(p.dynamic)->Ok_0;
    law_typed_data_reads_back(p.typed, p.typed_columns, p.rows, b + (c + rest));
    let a = typed_data(p.typed, p.typed_columns)->Ok_0;
    lemma_json_bytes(p, a, b, c);
    lemma_assoc(a, b, c, rest);
    lemma_json_step(a + (b + (c + rest)), p, b + (c + rest), c + rest, rest);
}

/// What is read of a column of documents that was written is the documents of its own
/// columns as they are written.
#[verifier::spinoff_prover]
#[verifier::rlimit(40)]
pub proof fn law_json_columns_read_back(p: JsonParts, rest: Seq<u8>)
    requires
        parts_fit(p),
    ensures
        json_bytes(p) is Ok,
        parsed_json(json_bytes(p)->Ok_0 + rest, p.rows, layout_of(p)) == (match documents(
            stored_block(p),
            p.rows,
        ) {
            Err(e) => Err(e),
            Ok(v) => Ok((v, rest)),
        }),
{
    assert(p.typed.len() == p.typed_columns.len()) by {
        reveal(typed_fit);
    }
    let c = lemma_shared_back(p, rest);
    lemma_columns_read_back(p, c, rest);
}

// ---------------------------------------------------------------------------
// What stands before a column
// ---------------------------------------------------------------------------

/// Whether the types at a path can be read back.
#[verifier::opaque]
pub open spec fn header_fits(column: Seq<ValueView>) -> bool {
    let entries = entries_of(registry(column));
    &&& names_tell(entries)
    &&& plain_prefixes(field_types(entries))
    &&& entries.len() <= u64::MAX
}

proof fn lemma_header_bytes(
    version: u64,
    columns: Seq<(Seq<char>, Seq<ValueView>)>,
    h: Seq<u8>,
    a: Seq<u8>,
)
    requires
        columns.len() > 0,
        dynamic_header(version, entries_of(registry(columns[0].1))) == Ok::<_, Error>(h),
        path_headers(version, columns.subrange(1, columns.len() as int)) == Ok::<_, Error>(a),
    ensures
        path_headers(version, columns) == Ok::<_, Error>(h + a),
{
}

proof fn lemma_header_step(
    s: Seq<u8>,
    n: nat,
    version: u64,
    next: Seq<u8>,
    entries: Entries,
    mid: Seq<u8>,
    all: Seq<Entries>,
    end: Seq<u8>,
)
    requires
        parsed_uint(s, 8) == Ok::<_, Error>((version as nat, next)),
        parsed_types_flattened(next) == Ok::<_, Error>((entries, mid)),
        parsed_headers(mid, n, version) == Ok::<_, Error>((all, end)),
    ensures
        parsed_headers(s, n + 1, version) == Ok::<_, Error>((seq![entries] + all, end)),
{
}

proof fn lemma_header_back(version: u64, column: Seq<ValueView>, rest: Seq<u8>) -> (r: (
    Seq<u8>,
    Seq<u8>,
))
    requires
        header_fits(column),
    ensures
        dynamic_header(version, entries_of(registry(column))) == Ok::<_, Error>(r.0),
        parsed_uint(r.0 + rest, 8) == Ok::<_, Error>((version as nat, r.1)),
        parsed_types_flattened(r.1) == Ok::<_, Error>((entries_of(registry(column)), rest)),
{
    reveal(header_fits);
    let entries = entries_of(registry(column));
    law_dynamic_header_reads_back(version, entries, rest);
    let h = dynamic_header(version, entries)->Ok_0;
    (h, parsed_uint(h + rest, 8)->Ok_0.1)
}

#[verifier::spinoff_prover]
#[verifier::rlimit(40)]
proof fn lemma_headers_read_back(
    version: u64,
    columns: Seq<(Seq<char>, Seq<ValueView>)>,
    rest: Seq<u8>,
)
    requires
        forall|i: int| 0 <= i < columns.len() ==> header_fits((#[trigger] columns[i]).1),
    ensures
        path_headers(version, columns) is Ok,
        parsed_headers(
            path_headers(version, columns)->Ok_0 + rest,
            columns.len(),
            version,
        ) == Ok::<_, Error>((path_types(columns), rest)),
    decreases columns.len(),
{
    if columns.len() == 0 {
        assert(path_headers(version, columns)->Ok_0 + rest =~= rest);
        assert(path_types(columns) =~= Seq::<Entries>::empty());
    } else {
        let cc = columns.subrange(1, columns.len() as int);
        assert forall|i: int| 0 <= i < cc.len() implies header_fits((#[trigger] cc[i]).1) by {
            assert(cc[i] == columns[i + 1]);
        }
        lemma_headers_read_back(version, cc, rest);
        assert(header_fits(columns[0].1));
        let entries = entries_of(registry(columns[0].1));
        let a = path_headers(version, cc)->Ok_0;
        let (h, next) = lemma_header_back(version, columns[0].1, a + rest);
        lemma_header_bytes(version, columns, h, a);
        assert(h + a + rest =~= h + (a + rest));
        lemma_header_step(
            h + (a + rest),
            cc.len(),
            version,
            next,
            entries,
            a + rest,
            path_types(cc),
            rest,
        );
        lemma_path_types(columns);
    }
}

proof fn lemma_untyped(names: Seq<Seq<char>>, typed: Seq<(Seq<char>, TypeView)>)
    requires
        forall|i: int| 0 <= i < names.len() ==> typed_type(typed, #[trigger] names[i]) is None,
    ensures
        untyped_names(names, typed) == names,
    decreases names.len(),
{
    if names.len() > 0 {
        assert forall|i: int| 0 <= i < names.drop_last().len() implies typed_type(
            typed,
            #[trigger] names.drop_last()[i],
        ) is None by {
            assert(names.drop_last()[i] == names[i]);
        }
        lemma_untyped(names.drop_last(), typed);
        assert(typed_type(typed, names[names.len() - 1]) is None);
        assert(names.drop_last().push(names.last()) =~= names);
    } else {
        assert(untyped_names(names, typed) =~= names);
    }
}

proof fn lemma_layout_step(
    p: JsonParts,
    t: TypeView,
    s: Seq<u8>,
    s0: Seq<u8>,
    s1: Seq<u8>,
    s2: Seq<u8>,
    s3: Seq<u8>,
    s4: Seq<u8>,
    rest: Seq<u8>,
)
    requires
        t is JSON,
        typed_paths_in(t) == p.typed,
        is_written_version(written_version(p.version)),
        parsed_uint(s, 8) == Ok::<_, Error>((written_version(p.version) as nat, s0)),
        if written_version(p.version) == JSON_OBJECT_VERSION_V1 {
            parsed_varuint(s0) is Ok && parsed_varuint(s0)->Ok_0.1 == s1
        } else {
            s0 == s1
        },
        parsed_varuint(s1) == Ok::<_, Error>((p.dynamic.len(), s2)),
        parsed_names(s2, p.dynamic.len()) == Ok::<_, Error>((column_names(p.dynamic), s3)),
        untyped_names(column_names(p.dynamic), p.typed) == column_names(p.dynamic),
        parsed_prefixes(s3, field_types(p.typed)) is Ok,
        parsed_prefixes(s3, field_types(p.typed))->Ok_0.1 == s4,
        parsed_headers(s4, p.dynamic.len(), written_version(p.version)) == Ok::<_, Error>(
            (path_types(p.dynamic), rest),
        ),
    ensures
        parsed_json_prefix(s, t) == Ok::<_, Error>((layout_of(p), rest)),
{
    assert(column_names(p.dynamic).len() == p.dynamic.len());
}

proof fn lemma_prefix_bytes(p: JsonParts, b: Seq<u8>, c: Seq<u8>)
    requires
        !p.taken,
        is_written_version(written_version(p.version)),
        same_prefixes(p.typed),
        prefixes_bytes(field_types(p.typed)) == Ok::<_, Error>(b),
        path_headers(written_version(p.version), p.dynamic) == Ok::<_, Error>(c),
    ensures
        json_prefix(p) == Ok::<_, Error>(
            paths_bytes(written_version(p.version), column_names(p.dynamic)) + (b + c),
        ),
{
}

proof fn lemma_paths_read_back(version: u64, names: Seq<Seq<char>>, s3: Seq<u8>) -> (r: (
    Seq<u8>,
    Seq<u8>,
    Seq<u8>,
))
    requires
        names_short(names),
        names.len() <= u64::MAX,
    ensures
        parsed_uint(paths_bytes(version, names) + s3, 8) == Ok::<_, Error>((version as nat, r.0)),
        if version == JSON_OBJECT_VERSION_V1 {
            parsed_varuint(r.0) is Ok && parsed_varuint(r.0)->Ok_0.1 == r.1
        } else {
            r.0 == r.1
        },
        parsed_varuint(r.1) == Ok::<_, Error>((names.len(), r.2)),
        parsed_names(r.2, names.len()) == Ok::<_, Error>((names, s3)),
{
    lemma_pow256();
    law_names_read_back(names, s3);
    let a = name_bytes(names);
    law_varuint_reads_back(names.len() as u64, a + s3);
    let k = varuint_bytes(names.len());
    let m: Seq<u8> = if version == JSON_OBJECT_VERSION_V1 {
        varuint_bytes(WRITTEN_MAX_DYNAMIC_PATHS as nat)
    } else {
        Seq::empty()
    };
    let s1 = k + (a + s3);
    law_varuint_reads_back(WRITTEN_MAX_DYNAMIC_PATHS, s1);
    if version != JSON_OBJECT_VERSION_V1 {
        assert(m + s1 =~= s1);
    }
    let v = le_bytes(version as nat, 8);
    law_uint_reads_back(version as nat, 8, m + s1);
    assert(paths_bytes(version, names) + s3 =~= v + (m + s1));
    (m + s1, s1, a + s3)
}

/// What stands before a column of documents tells its paths again, where what stands before
/// the columns of the paths with types of their own is the same in both orders.
#[verifier::spinoff_prover]
#[verifier::rlimit(60)]
pub proof fn law_json_prefix_reads_back(p: JsonParts, t: TypeView, rest: Seq<u8>)
    requires
        t is JSON,
        !p.taken,
        typed_paths_in(t) == p.typed,
        is_written_version(written_version(p.version)),
        same_prefixes(p.typed),
        plain_prefixes(field_types(p.typed)),
        names_short(column_names(p.dynamic)),
        p.dynamic.len() <= u64::MAX,
        forall|i: int| 0 <= i < p.dynamic.len() ==> header_fits((#[trigger] p.dynamic[i]).1),
        forall|i: int|
            0 <= i < p.dynamic.len() ==> typed_type(p.typed, (#[trigger] p.dynamic[i]).0) is None,
    ensures
        json_prefix(p) is Ok,
        parsed_json_prefix(json_prefix(p)->Ok_0 + rest, t) == Ok::<_, Error>((layout_of(p), rest)),
{
    let version = written_version(p.version);
    let names = column_names(p.dynamic);
    lemma_headers_read_back(version, p.dynamic, rest);
    let c = path_headers(version, p.dynamic)->Ok_0;
    lemma_prefixes_read_back(field_types(p.typed), c + rest);
    let b = prefixes_bytes(field_types(p.typed))->Ok_0;
    let s3 = b + (c + rest);
    let (s0, s1, s2) = lemma_paths_read_back(version, names, s3);
    assert forall|i: int| 0 <= i < names.len() implies typed_type(
        p.typed,
        #[trigger] names[i],
    ) is None by {
        assert(typed_type(p.typed, p.dynamic[i].0) is None);
    }
    lemma_untyped(names, p.typed);
    lemma_prefix_bytes(p, b, c);
    lemma_assoc(paths_bytes(version, names), b, c, rest);
    lemma_layout_step(p, t, paths_bytes(version, names) + s3, s0, s1, s2, s3, c + rest, rest);
}

proof fn lemma_field_pos(fs: Seq<(Seq<char>, TypeView)>, name: Seq<char>, i: int)
    requires
        0 <= i <= fs.len(),
    ensures
        i <= field_pos(fs, name, i) <= fs.len(),
    decreases fs.len() - i,
{
    if i < fs.len() && text_le(fs[i].0, name) {
        lemma_field_pos(fs, name, i + 1);
    }
}

proof fn lemma_sorted_in(fs: Seq<(Seq<char>, TypeView)>)
    ensures
        forall|i: int|
            0 <= i < sorted_fields(fs).len() ==> fs.contains(#[trigger] sorted_fields(fs)[i]),
    decreases fs.len(),
{
    if fs.len() > 0 {
        let rest = fs.drop_last();
        lemma_sorted_in(rest);
        let head = sorted_fields(rest);
        let all = sorted_fields(fs);
        lemma_field_pos(head, fs.last().0, 0);
        let p = field_pos(head, fs.last().0, 0);
        assert(fs[fs.len() - 1] == fs.last());
        assert forall|i: int| 0 <= i < all.len() implies fs.contains(#[trigger] all[i]) by {
            if i != p {
                let k = if i < p {
                    i
                } else {
                    i - 1
                };
                assert(all[i] == head[k]);
                assert(rest.contains(head[k]));
                let q = choose|q: int| 0 <= q < rest.len() && rest[q] == head[k];
                assert(fs[q] == all[i]);
            }
        }
    }
}

proof fn lemma_nothing_before(ts: Seq<TypeView>)
    requires
        forall|i: int|
            0 <= i < ts.len() ==> prefix_bytes(#[trigger] ts[i]) == Ok::<_, Error>(
                Seq::<u8>::empty(),
            ),
    ensures
        prefixes_bytes(ts) == Ok::<_, Error>(Seq::<u8>::empty()),
    decreases ts.len(),
{
    if ts.len() > 0 {
        let tail = ts.subrange(1, ts.len() as int);
        assert(prefix_bytes(ts[0]) == Ok::<_, Error>(Seq::<u8>::empty()));
        assert forall|i: int| 0 <= i < tail.len() implies prefix_bytes(#[trigger] tail[i]) == Ok::<
            _,
            Error,
        >(Seq::<u8>::empty()) by {
            assert(tail[i] == ts[i + 1]);
        }
        lemma_nothing_before(tail);
        assert(Seq::<u8>::empty() + Seq::<u8>::empty() =~= Seq::<u8>::empty());
    }
}

/// What stands before the columns of paths with types of their own is the same in the order
/// of the paths and in that of the type, if the type names the paths in order, or if nothing
/// stands before columns of these types.
pub proof fn law_same_prefixes(typed: Seq<(Seq<char>, TypeView)>)
    requires
        sorted_fields(typed) == typed || forall|i: int|
            0 <= i < typed.len() ==> prefix_bytes((#[trigger] typed[i]).1) == Ok::<_, Error>(
                Seq::<u8>::empty(),
            ),
    ensures
        same_prefixes(typed),
{
    if sorted_fields(typed) != typed {
        let sorted = sorted_fields(typed);
        lemma_sorted_in(typed);
        let a = field_types(sorted);
        let b = field_types(typed);
        assert forall|i: int| 0 <= i < a.len() implies prefix_bytes(#[trigger] a[i]) == Ok::<
            _,
            Error,
        >(Seq::<u8>::empty()) by {
            assert(typed.contains(sorted[i]));
            let k = choose|k: int| 0 <= k < typed.len() && typed[k] == sorted[i];
            assert(prefix_bytes(typed[k].1) == Ok::<_, Error>(Seq::<u8>::empty()));
        }
        assert forall|i: int| 0 <= i < b.len() implies prefix_bytes(#[trigger] b[i]) == Ok::<
            _,
            Error,
        >(Seq::<u8>::empty()) by {
            assert(prefix_bytes(typed[i].1) == Ok::<_, Error>(Seq::<u8>::empty()));
        }
        lemma_nothing_before(a);
        lemma_nothing_before(b);
    }
}

} // verus!
