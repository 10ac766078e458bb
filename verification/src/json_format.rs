//! How columns of documents stand in bytes.
use vstd::prelude::*;

use crate::coerce::fitted;
use crate::columns::field_types;
use crate::dynamic::{entries_of, names_of, registry, takes_complex_types};
use crate::dynamic_format::{law_names_stand_behind_their_lengths, named};
use crate::error::Error;
use crate::json_columns::{frequency, last_cell, path_column, JsonParts};
use crate::json_documents::{parsed_json, row_settings, with_value};
use crate::json_paths::{leaf_cell, leaf_value, skipped, typed_type, Cells, PathRules};
use crate::json_object::{member_value, with_member, with_nested};
use crate::json_read::{parsed_headers, parsed_json_prefix, path_rows, untyped_names, LayoutView};
use crate::json_text::json_of_text;
use crate::json_value::JsonView;
use crate::json_write::{
    all_entries, column_names, dynamic_data, entry_offsets, entry_values, filled_columns,
    json_bytes, json_prefix, path_headers, shared_bytes, shared_row, shared_rows, sorted_fields,
    typed_data, written_version, SharedEntry,
};
use crate::prefixes::prefixes_bytes;
use crate::text::split_text;
use crate::text_rules::law_parts_between_separators;
use crate::typed_node::json_of;
use crate::types::TypeView;
use crate::values::ValueView;
use crate::wire::{
    law_uint_reads_back, law_varuint_reads_back, le_bytes, lemma_pow256, varuint_bytes,
};
use crate::variant::rank;
use crate::wire_format::{law_bytes_of_small_numbers, law_length_stands_before_a_string};

verus! {

// ---------------------------------------------------------------------------
// What stands before a column of documents
// ---------------------------------------------------------------------------

/// The number of the version stands first in eight bytes: three if none was asked for. In the
/// first version the number 1024 stands behind it. The number of the paths and the paths
/// follow, then what stands before the columns of the paths with types of their own in the
/// order of the paths, and then the types at each of the other paths.
pub proof fn law_bytes_before_documents(p: JsonParts, a: Seq<u8>, b: Seq<u8>)
    requires
        !p.taken,
        prefixes_bytes(field_types(sorted_fields(p.typed))) == Ok::<_, Error>(a),
        path_headers(written_version(p.version), p.dynamic) == Ok::<_, Error>(b),
    ensures
        ({
            let names = column_names(p.dynamic);
            let paths = varuint_bytes(names.len()) + named(names);
            &&& p.version is None || p.version == Some(3u64) ==> json_prefix(p) == Ok::<_, Error>(
                seq![3u8, 0, 0, 0, 0, 0, 0, 0] + paths + (a + b),
            )
            &&& p.version == Some(2u64) ==> json_prefix(p) == Ok::<_, Error>(
                seq![2u8, 0, 0, 0, 0, 0, 0, 0] + paths + (a + b),
            )
            &&& p.version == Some(0u64) ==> json_prefix(p) == Ok::<_, Error>(
                seq![0u8, 0, 0, 0, 0, 0, 0, 0] + (varuint_bytes(1024) + paths) + (a + b),
            )
            &&& p.version is Some && p.version != Some(0u64) && p.version != Some(2u64)
                && p.version != Some(3u64) ==> json_prefix(p) is Err
        }),
{
    let names = column_names(p.dynamic);
    law_names_stand_behind_their_lengths(names);
    law_bytes_of_small_numbers(0);
    law_bytes_of_small_numbers(2);
    law_bytes_of_small_numbers(3);
    let paths = varuint_bytes(names.len()) + named(names);
    assert(Seq::<u8>::empty() + paths =~= paths);
}

/// At each path stand the version again, the number of types, their names, and what stands
/// before their columns.
pub proof fn law_types_at_a_path(
    version: u64,
    columns: Seq<(Seq<char>, Seq<ValueView>)>,
    a: Seq<u8>,
    b: Seq<u8>,
)
    requires
        columns.len() > 0,
        prefixes_bytes(field_types(entries_of(registry(columns[0].1)))) == Ok::<_, Error>(a),
        path_headers(version, columns.subrange(1, columns.len() as int)) == Ok::<_, Error>(b),
    ensures
        ({
            let names = registry(columns[0].1);
            path_headers(version, columns) == Ok::<_, Error>(
                le_bytes(version as nat, 8) + (varuint_bytes(names.len()) + named(names)) + a + b,
            )
        }),
{
    let names = registry(columns[0].1);
    assert(names_of(entries_of(names)) =~= names);
    law_names_stand_behind_their_lengths(names);
}

/// Without paths nothing but the version and the number zero stands before a column; in the
/// first version a limit, whatever it is, stands between them. Documents that stand as texts
/// have the version one and nothing behind it. Other versions are refused.
pub proof fn law_versions_before_documents(t: TypeView, limit: u64, version: u64, rest: Seq<u8>)
    requires
        t == (TypeView::JSON {
            max_dynamic_paths: None,
            max_dynamic_types: None,
            typed_paths: Seq::empty(),
            skip_exact: Seq::empty(),
            skip_regex: Seq::empty(),
        }),
        version > 3,
    ensures
        ({
            let none = LayoutView {
                version: 0,
                typed: Seq::empty(),
                names: Seq::empty(),
                types: Seq::empty(),
            };
            &&& parsed_json_prefix(
                seq![3u8, 0, 0, 0, 0, 0, 0, 0] + (seq![0u8] + rest),
                t,
            ) == Ok::<_, Error>((LayoutView { version: 3, ..none }, rest))
            &&& parsed_json_prefix(
                seq![2u8, 0, 0, 0, 0, 0, 0, 0] + (seq![0u8] + rest),
                t,
            ) == Ok::<_, Error>((LayoutView { version: 2, ..none }, rest))
            &&& parsed_json_prefix(
                seq![0u8, 0, 0, 0, 0, 0, 0, 0] + (varuint_bytes(limit as nat) + (seq![0u8] + rest)),
                t,
            ) == Ok::<_, Error>((none, rest))
            &&& parsed_json_prefix(seq![1u8, 0, 0, 0, 0, 0, 0, 0] + rest, t) == Ok::<_, Error>(
                (LayoutView { version: 1, ..none }, rest),
            )
            &&& parsed_json_prefix(le_bytes(version as nat, 8) + rest, t) is Err
        }),
{
    lemma_pow256();
    let s = seq![0u8] + rest;
    law_bytes_of_small_numbers(0);
    law_bytes_of_small_numbers(1);
    law_bytes_of_small_numbers(2);
    law_bytes_of_small_numbers(3);
    law_uint_reads_back(3, 8, s);
    law_uint_reads_back(2, 8, s);
    law_uint_reads_back(0, 8, varuint_bytes(limit as nat) + s);
    law_uint_reads_back(1, 8, rest);
    law_uint_reads_back(version as nat, 8, rest);
    law_varuint_reads_back(limit, s);
    law_varuint_reads_back(0, rest);
    assert(varuint_bytes(0) =~= seq![0u8]);
    let ts = field_types(Seq::<(Seq<char>, TypeView)>::empty());
    assert(ts =~= Seq::<TypeView>::empty());
    assert(crate::prefixes::parsed_prefixes(rest, ts) == Ok::<_, Error>(((), rest)));
    assert(crate::json_read::parsed_names(rest, 0) == Ok::<_, Error>(
        (Seq::<Seq<char>>::empty(), rest),
    ));
}

// ---------------------------------------------------------------------------
// Columns
// ---------------------------------------------------------------------------

/// The columns of the paths with types of their own stand before those of the other paths.
/// What paths share stands behind them in the versions zero and two alone.
pub proof fn law_columns_of_documents(p: JsonParts, a: Seq<u8>, b: Seq<u8>)
    requires
        typed_data(p.typed, filled_columns(p.typed_columns, p.typed.len(), p.rows)) == Ok::<
            _,
            Error,
        >(a),
        dynamic_data(p.dynamic) == Ok::<_, Error>(b),
    ensures
        p.version is None || p.version == Some(3u64) ==> json_bytes(p) == Ok::<_, Error>(a + b),
        (p.version == Some(0u64) || p.version == Some(2u64)) && shared_bytes(
            p.shared,
            p.rows,
        ) is Ok ==> json_bytes(p) == Ok::<_, Error>(
            a + b + shared_bytes(p.shared, p.rows)->Ok_0,
        ),
{
    assert(b + Seq::<u8>::empty() =~= b);
    if shared_bytes(p.shared, p.rows) is Ok {
        let c = shared_bytes(p.shared, p.rows)->Ok_0;
        assert(a + (b + c) =~= a + b + c);
    }
}

/// How many shared values the first `n` rows have together.
pub open spec fn entries_before(rows: Seq<Seq<SharedEntry>>, n: int) -> nat
    decreases n,
{
    if n <= 0 || n > rows.len() {
        0
    } else {
        entries_before(rows, n - 1) + rows[n - 1].len()
    }
}

/// The paths of shared values, row by row.
pub open spec fn entry_paths(rows: Seq<Seq<SharedEntry>>) -> Seq<Seq<char>>
    decreases rows.len(),
{
    if rows.len() == 0 {
        Seq::empty()
    } else {
        entry_paths(rows.drop_last()) + Seq::new(rows.last().len(), |i: int| rows.last()[i].0)
    }
}

proof fn lemma_entries_head(rows: Seq<Seq<SharedEntry>>, n: int)
    requires
        0 <= n < rows.len(),
    ensures
        entries_before(rows.drop_last(), n) == entries_before(rows, n),
    decreases n,
{
    if n > 0 {
        lemma_entries_head(rows, n - 1);
    }
}

proof fn lemma_entry_offsets(rows: Seq<Seq<SharedEntry>>)
    ensures
        all_entries(rows).len() == entries_before(rows, rows.len() as int),
        entry_offsets(rows).len() == 8 * rows.len(),
        forall|i: int|
            0 <= i < rows.len() ==> entry_offsets(rows).subrange(8 * i, 8 * i + 8)
                == #[trigger] le_bytes(entries_before(rows, i + 1), 8),
        crate::json_write::entry_names(all_entries(rows)) == entry_paths(rows),
    decreases rows.len(),
{
    if rows.len() > 0 {
        let head = rows.drop_last();
        lemma_entry_offsets(head);
        lemma_entries_head(rows, head.len() as int);
        let a = entry_offsets(head);
        let last = le_bytes(all_entries(rows).len(), 8);
        assert(last.len() == 8) by {
            reveal_with_fuel(le_bytes, 9);
        }
        let all = entry_offsets(rows);
        assert(all == a + last);
        assert forall|i: int| 0 <= i < rows.len() implies all.subrange(8 * i, 8 * i + 8)
            == #[trigger] le_bytes(entries_before(rows, i + 1), 8) by {
            if i < head.len() {
                lemma_entries_head(rows, i + 1);
                assert(all.subrange(8 * i, 8 * i + 8) =~= a.subrange(8 * i, 8 * i + 8));
                assert(a.subrange(8 * i, 8 * i + 8) == le_bytes(entries_before(head, i + 1), 8));
            } else {
                assert(all.subrange(8 * i, 8 * i + 8) =~= last);
            }
        }
        assert(crate::json_write::entry_names(all_entries(rows)) =~= entry_paths(rows));
    } else {
        assert(crate::json_write::entry_names(all_entries(rows)) =~= entry_paths(rows));
    }
}

/// What paths share stands as maps do: eight bytes for each row tell how many values there are
/// up to its end, all paths stand behind them, and all values in their binary form, each
/// behind its length, behind the paths.
pub proof fn law_shared_values_stand_as_maps(
    columns: Seq<(Seq<char>, Seq<ValueView>)>,
    n: nat,
    rows: Seq<Seq<SharedEntry>>,
)
    requires
        shared_rows(columns, n) == Ok::<_, Error>(rows),
    ensures
        shared_bytes(Some(columns), n) matches Ok(b) && b.len() >= 8 * rows.len() && b.skip(
            8 * rows.len() as int,
        ) == named(entry_paths(rows)) + entry_values(all_entries(rows)) && forall|i: int|
            0 <= i < rows.len() ==> b.subrange(8 * i, 8 * i + 8) == #[trigger] le_bytes(
                entries_before(rows, i + 1),
                8,
            ),
{
    lemma_entry_offsets(rows);
    law_names_stand_behind_their_lengths(entry_paths(rows));
    let a = entry_offsets(rows);
    let c = named(entry_paths(rows)) + entry_values(all_entries(rows));
    let b = shared_bytes(Some(columns), n)->Ok_0;
    assert(b =~= a + c);
    assert(b.skip(8 * rows.len() as int) =~= c);
    assert forall|i: int| 0 <= i < rows.len() implies b.subrange(8 * i, 8 * i + 8)
        == #[trigger] le_bytes(entries_before(rows, i + 1), 8) by {
        assert(b.subrange(8 * i, 8 * i + 8) =~= a.subrange(8 * i, 8 * i + 8));
    }
}

/// A row shares its values that are not null, each behind its path in its binary form.
pub proof fn law_shared_values_of_a_row(
    columns: Seq<(Seq<char>, Seq<ValueView>)>,
    name: Seq<char>,
    column: Seq<ValueView>,
    r: int,
    head: Seq<SharedEntry>,
)
    requires
        0 <= r < column.len(),
        shared_row(columns, r) == Ok::<_, Error>(head),
    ensures
        column[r] is Null ==> shared_row(columns.push((name, column)), r) == Ok::<_, Error>(head),
        !(column[r] is Null) ==> (match crate::binary_value::binary_value(column[r]) {
            Some(b) => shared_row(columns.push((name, column)), r) == Ok::<_, Error>(
                head.push((name, b)),
            ),
            None => shared_row(columns.push((name, column)), r) is Err,
        }),
{
    let all = columns.push((name, column));
    assert(all.drop_last() =~= columns);
    assert(all.last() == (name, column));
}

// ---------------------------------------------------------------------------
// Paths
// ---------------------------------------------------------------------------

/// A path that the type leaves out has no cell; one with a type of its own has a cell of that
/// type, though it is left out; any other has the value of its leaf.
pub proof fn law_cells_of_paths(path: Seq<char>, j: JsonView, rules: PathRules)
    ensures
        typed_type(rules.typed, path) is None && rules.exact.contains(path)
            ==> leaf_cell((path, j), rules) is None,
        typed_type(rules.typed, path) is None && !skipped(rules, path)
            && leaf_value(j) is Ok ==> leaf_cell((path, j), rules) == Some(
            Ok::<_, Error>((path, leaf_value(j)->Ok_0)),
        ),
        typed_type(rules.typed, path) is Some && leaf_value(j) is Ok ==> leaf_cell(
            (path, j),
            rules,
        ) == Some(
            match fitted(leaf_value(j)->Ok_0, typed_type(rules.typed, path)->0) {
                Ok(x) => Ok((path, x)),
                Err(e) => Err(e),
            },
        ),
        rules.typed.len() > 0 && rules.typed[0].0 == path ==> typed_type(
            rules.typed,
            path,
        ) == Some(rules.typed[0].1),
{
}

/// The column of a path has for each row the last cell of the row at the path, and what fills
/// it where there is none.
pub proof fn law_column_of_a_path(rows: Seq<Cells>, path: Seq<char>, fill: ValueView, r: int)
    requires
        0 <= r < rows.len(),
    ensures
        path_column(rows, path, fill).len() == rows.len(),
        (exists|i: int| 0 <= i < rows[r].len() && (#[trigger] rows[r][i]).0 == path) ==> exists|
            i: int,
        |
            0 <= i < rows[r].len() && (#[trigger] rows[r][i]) == (
                path,
                path_column(rows, path, fill)[r],
            ) && forall|k: int| i < k < rows[r].len() ==> (#[trigger] rows[r][k]).0 != path,
        (forall|i: int| 0 <= i < rows[r].len() ==> (#[trigger] rows[r][i]).0 != path)
            ==> path_column(rows, path, fill)[r] == fill,
{
    lemma_last_cell(rows[r], path);
}

proof fn lemma_last_cell(cells: Cells, path: Seq<char>)
    ensures
        last_cell(cells, path) matches Some(v) ==> exists|i: int|
            0 <= i < cells.len() && (#[trigger] cells[i]) == (path, v) && forall|k: int|
                i < k < cells.len() ==> (#[trigger] cells[k]).0 != path,
        last_cell(cells, path) is None ==> forall|i: int|
            0 <= i < cells.len() ==> (#[trigger] cells[i]).0 != path,
    decreases cells.len(),
{
    if cells.len() > 0 {
        let head = cells.drop_last();
        let n = cells.len() - 1;
        lemma_last_cell(head, path);
        if cells.last().0 == path {
            assert(cells[n] == (path, cells.last().1));
        } else {
            if let Some(v) = last_cell(head, path) {
                let i = choose|i: int|
                    0 <= i < head.len() && (#[trigger] head[i]) == (path, v) && forall|k: int|
                        i < k < head.len() ==> (#[trigger] head[k]).0 != path;
                assert(cells[i] == (path, v));
                assert forall|k: int| i < k < cells.len() implies (#[trigger] cells[k]).0
                    != path by {
                    if k < n {
                        assert(head[k] == cells[k]);
                    }
                }
            } else {
                assert forall|i: int| 0 <= i < cells.len() implies (#[trigger] cells[i]).0
                    != path by {
                    if i < n {
                        assert(head[i] == cells[i]);
                    }
                }
            }
        }
    }
}

/// How often a path has a value that is not null.
pub proof fn law_frequency_counts_values(column: Seq<ValueView>, v: ValueView)
    ensures
        frequency(Seq::empty()) == 0,
        frequency(column.push(v)) == frequency(column) + if v is Null {
            0nat
        } else {
            1nat
        },
{
    assert(column.push(v).drop_last() =~= column);
}

/// A row shows the values at paths in order; where nulls are not shown, those alone that are
/// not null.
pub proof fn law_rows_show_values(
    names: Seq<Seq<char>>,
    columns: Seq<Seq<ValueView>>,
    r: int,
    n: int,
)
    requires
        0 < n <= columns.len(),
        n <= names.len(),
        0 <= r < columns[n - 1].len(),
    ensures
        row_settings(names, columns, r, n, true) == row_settings(names, columns, r, n - 1, true).push(
            (names[n - 1], columns[n - 1][r]),
        ),
        columns[n - 1][r] is Null ==> row_settings(names, columns, r, n, false) == row_settings(
            names,
            columns,
            r,
            n - 1,
            false,
        ),
        !(columns[n - 1][r] is Null) ==> row_settings(names, columns, r, n, false)
            == row_settings(names, columns, r, n - 1, false).push(
            (names[n - 1], columns[n - 1][r]),
        ),
{
}

/// A server takes columns of any values, and documents with a column for each path, from
/// version 25.6 on; so does one whose version is not known.
pub proof fn law_servers_that_take_any_values(major: u64, minor: u64, patch: u64)
    ensures
        takes_complex_types(None),
        takes_complex_types(Some((major, minor, patch))) <==> major as int * 0x1_0000_0000_0000_0000
            + minor >= 25 * 0x1_0000_0000_0000_0000 + 6,
{
}

/// In the flattened version paths with types of their own do not count among the others.
pub proof fn law_listed_paths(
    names: Seq<Seq<char>>,
    name: Seq<char>,
    typed: Seq<(Seq<char>, TypeView)>,
)
    ensures
        untyped_names(Seq::empty(), typed).len() == 0,
        typed_type(typed, name) is Some ==> untyped_names(names.push(name), typed) == untyped_names(
            names,
            typed,
        ),
        typed_type(typed, name) is None ==> untyped_names(names.push(name), typed) == untyped_names(
            names,
            typed,
        ).push(name),
{
    assert(names.push(name).drop_last() =~= names);
}

/// The types at a path are refused where they tell another version.
pub proof fn law_versions_at_paths(version: u64, other: u64, n: nat, rest: Seq<u8>)
    requires
        n > 0,
        version != other,
    ensures
        parsed_headers(le_bytes(other as nat, 8) + rest, n, version) is Err,
{
    lemma_pow256();
    law_uint_reads_back(other as nat, 8, rest);
}

/// Documents that stand as texts are read from them, one behind the other.
pub proof fn law_documents_as_texts(b: Seq<u8>, j: JsonView, n: nat, rest: Seq<u8>)
    requires
        b.len() < 128,
        json_of_text(b) == Some(j),
        n > 0,
    ensures
        ({
            let layout = LayoutView {
                version: 1,
                typed: Seq::empty(),
                names: Seq::empty(),
                types: Seq::empty(),
            };
            parsed_json(seq![b.len() as u8] + b + rest, n, layout) == (match parsed_json(
                rest,
                (n - 1) as nat,
                layout,
            ) {
                Err(e) => Err(e),
                Ok((vs, end)) => Ok((seq![ValueView::Json(j)] + vs, end)),
            })
        }),
{
    law_length_stands_before_a_string(b, rest);
}

/// A path of a row that no column has a value for is null, and otherwise the next value of the
/// column that its discriminator tells.
pub proof fn law_values_at_paths(ds: Seq<u64>, total: nat, columns: Seq<Seq<ValueView>>, i: int)
    requires
        0 <= i < ds.len(),
        total <= u64::MAX,
        columns.len() == total,
    ensures
        path_rows(ds, total, columns).len() == ds.len(),
        ds[i] >= total ==> path_rows(ds, total, columns)[i] is Null,
        ds[i] < total && rank(ds, ds[i], i) < columns[ds[i] as int].len() ==> path_rows(
            ds,
            total,
            columns,
        )[i] == columns[ds[i] as int][rank(ds, ds[i], i) as int],
        rank(ds, ds[i], 0) == 0,
        i + 1 <= ds.len() ==> rank(ds, ds[i], i + 1) == rank(ds, ds[i], i) + 1,
{
}

/// A value at a path stands in the object at the members that the path names, one in the other.
pub proof fn law_paths_name_members(a: Seq<char>, b: Seq<char>, v: ValueView, j: JsonView)
    requires
        forall|i: int| 0 <= i < a.len() ==> #[trigger] a[i] != '.',
        forall|i: int| 0 <= i < b.len() ==> #[trigger] b[i] != '.',
        json_of(v) == Ok::<_, Error>(j),
    ensures
        with_value(Seq::empty(), a, v) == Ok::<_, Error>(seq![(a, j)]),
        with_value(Seq::empty(), a + (seq!['.'] + b), v) == Ok::<_, Error>(
            seq![(a, JsonView::Object(seq![(b, j)]))],
        ),
{
    law_parts_between_separators(b, b, '.');
    law_parts_between_separators(a, b, '.');
    assert(split_text(a, '.') =~= seq![a]);
    assert(split_text(a + (seq!['.'] + b), '.') =~= seq![a, b]);
    lemma_two_members(a, b, j);
    lemma_two_members(a, b, JsonView::Null);
}

proof fn lemma_two_members(a: Seq<char>, b: Seq<char>, j: JsonView)
    ensures
        with_nested(Seq::empty(), seq![a], j) == Ok::<_, Error>(seq![(a, j)]),
        with_nested(Seq::empty(), seq![a, b], j) == Ok::<_, Error>(
            seq![(a, JsonView::Object(seq![(b, j)]))],
        ),
{
    assert(seq![a, b].skip(1) =~= seq![b]);
    lemma_first_member(a, j);
    lemma_first_member(b, j);
    assert(with_nested(Seq::empty(), seq![b], j) == Ok::<_, Error>(seq![(b, j)]));
    lemma_first_member(a, JsonView::Object(seq![(b, j)]));
}

proof fn lemma_first_member(name: Seq<char>, j: JsonView)
    ensures
        with_member(Seq::empty(), name, j) == seq![(name, j)],
        member_value(Seq::empty(), name) is None,
{
    let none = Seq::<(Seq<char>, JsonView)>::empty();
    assert(crate::dynamic::name_pos(crate::json_object::member_names(none), name, 0) == 0);
    assert(none.insert(0, (name, j)) =~= seq![(name, j)]);
}

} // verus!
