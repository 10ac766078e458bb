//! What documents a column takes in, and what paths it finds in them.
use vstd::prelude::*;
use vstd::utf8::valid_utf8;

use crate::dynamic::{lemma_with_name, strictly_ascending, with_name};
use crate::error::{Error, WriteReason};
use crate::json_columns::{
    analyzed, chosen_paths, dynamic_names, parts_of, path_column, path_columns, path_frequency,
    with_row_names, JsonParts,
};
use crate::json_paths::{
    document_of, leaf_cell, leaf_cells, leaves, rows_cells, typed_type, Cells, PathRules,
};
use crate::json_text::{json_of_text, pattern_valid};
use crate::json_value::JsonView;
use crate::path_laws::{law_as_many_paths_as_may_be, law_frequent_paths_are_kept};
use crate::text::text_le;
use crate::types::TypeView;
use crate::values::ValueView;

verus! {

// ---------------------------------------------------------------------------
// Documents
// ---------------------------------------------------------------------------

/// A column of documents takes documents, and texts of documents; null is a row without one.
/// Numbers, arrays and other values are refused, and texts that are no documents.
pub proof fn law_documents_behind_values(v: ValueView, j: JsonView, b: Seq<u8>)
    ensures
        document_of(ValueView::Json(j)) == Ok::<_, Error>(Some(j)),
        document_of(ValueView::Null) == Ok::<Option<JsonView>, Error>(None),
        valid_utf8(b) && json_of_text(b) == Some(j) ==> document_of(ValueView::String(b)) == Ok::<
            _,
            Error,
        >(Some(j)),
        json_of_text(b) == Some(j) ==> document_of(ValueView::Object(b)) == Ok::<_, Error>(Some(j)),
        json_of_text(b) is None ==> document_of(ValueView::String(b)) is Err && document_of(
            ValueView::Object(b),
        ) is Err,
        !valid_utf8(b) ==> document_of(ValueView::String(b)) == Err::<Option<JsonView>, Error>(
            Error::SerializeError(WriteReason::InvalidUtf8),
        ),
        v is Int64 || v is UInt64 || v is Float64 || v is Bool || v is Array || v is Tuple
            || v is MapOf || v is Uuid || v is Date ==> document_of(v) == Err::<
            Option<JsonView>,
            Error,
        >(Error::SerializeError(WriteReason::ExpectedJsonValue)),
{
}

// ---------------------------------------------------------------------------
// Cells
// ---------------------------------------------------------------------------

/// The cells of a document are those of its leaves, in their order, without the leaves that are
/// left out.
pub proof fn law_cells_of_leaves(
    a: Seq<(Seq<char>, JsonView)>,
    leaf: (Seq<char>, JsonView),
    b: Seq<(Seq<char>, JsonView)>,
    rules: PathRules,
)
    requires
        leaf_cells(a, rules) is Ok,
        leaf_cells(b, rules) is Ok,
    ensures
        leaf_cell(leaf, rules) is None ==> leaf_cells(a + (seq![leaf] + b), rules) == Ok::<
            _,
            Error,
        >(leaf_cells(a, rules)->Ok_0 + leaf_cells(b, rules)->Ok_0),
        leaf_cell(leaf, rules) matches Some(Ok(c)) ==> leaf_cells(
            a + (seq![leaf] + b),
            rules,
        ) == Ok::<_, Error>(leaf_cells(a, rules)->Ok_0 + (seq![c] + leaf_cells(b, rules)->Ok_0)),
        leaf_cell(leaf, rules) matches Some(Err(e)) ==> leaf_cells(
            a + (seq![leaf] + b),
            rules,
        ) == Err::<Cells, Error>(e),
    decreases b.len(),
{
    let s = a + (seq![leaf] + b);
    if b.len() == 0 {
        assert(s.drop_last() =~= a);
        assert(s.last() == leaf);
        assert(leaf_cells(b, rules)->Ok_0 =~= Seq::empty());
        let x = leaf_cells(a, rules)->Ok_0;
        assert(x + Seq::<(Seq<char>, ValueView)>::empty() =~= x);
        if let Some(Ok(c)) = leaf_cell(leaf, rules) {
            assert(x.push(c) =~= x + (seq![c] + leaf_cells(b, rules)->Ok_0));
        }
    } else {
        let front = b.drop_last();
        law_cells_of_leaves(a, leaf, front, rules);
        assert(s.drop_last() =~= a + (seq![leaf] + front));
        assert(s.last() == b.last());
        let x = leaf_cells(a, rules)->Ok_0;
        let y = leaf_cells(front, rules)->Ok_0;
        let z = leaf_cells(b, rules)->Ok_0;
        if let Some(Ok(d)) = leaf_cell(b.last(), rules) {
            assert(z =~= y.push(d));
            assert((x + y).push(d) =~= x + z);
            if let Some(Ok(c)) = leaf_cell(leaf, rules) {
                assert((x + (seq![c] + y)).push(d) =~= x + (seq![c] + z));
            }
        } else {
            assert(z =~= y);
        }
    }
}

/// Each row has the cells of its own document, a row without one none.
pub proof fn law_rows_have_their_own_cells(vs: Seq<ValueView>, rules: PathRules, r: int)
    requires
        rows_cells(vs, rules) is Ok,
        0 <= r < vs.len(),
    ensures
        rows_cells(vs, rules)->Ok_0.len() == vs.len(),
        vs[r] is Null ==> rows_cells(vs, rules)->Ok_0[r] == Seq::<(Seq<char>, ValueView)>::empty(),
        document_of(vs[r]) matches Ok(Some(j)) ==> leaf_cells(leaves(j, Seq::empty()), rules)
            == Ok::<_, Error>(rows_cells(vs, rules)->Ok_0[r]),
        document_of(vs[r]) is Ok,
    decreases vs.len(),
{
    let front = vs.drop_last();
    if r < front.len() {
        law_rows_have_their_own_cells(front, rules, r);
        assert(front[r] == vs[r]);
    } else if front.len() > 0 {
        law_rows_have_their_own_cells(front, rules, 0);
    }
}

// ---------------------------------------------------------------------------
// Paths
// ---------------------------------------------------------------------------

proof fn lemma_row_names(
    names: Seq<Seq<char>>,
    cells: Cells,
    typed: Seq<(Seq<char>, TypeView)>,
    path: Seq<char>,
)
    requires
        strictly_ascending(names),
    ensures
        strictly_ascending(with_row_names(names, cells, typed)),
        with_row_names(names, cells, typed).contains(path) <==> names.contains(path) || (typed_type(
            typed,
            path,
        ) is None && exists|i: int| 0 <= i < cells.len() && (#[trigger] cells[i]).0 == path),
    decreases cells.len(),
{
    if cells.len() > 0 {
        let front = cells.drop_last();
        let head = with_row_names(names, front, typed);
        lemma_row_names(names, front, typed, path);
        lemma_with_name(head, cells.last().0);
        if exists|i: int| 0 <= i < front.len() && (#[trigger] front[i]).0 == path {
            let i = choose|i: int| 0 <= i < front.len() && (#[trigger] front[i]).0 == path;
            assert(cells[i].0 == path);
        }
        if exists|i: int| 0 <= i < cells.len() && (#[trigger] cells[i]).0 == path {
            let i = choose|i: int| 0 <= i < cells.len() && (#[trigger] cells[i]).0 == path;
            if i < front.len() {
                assert(front[i].0 == path);
            } else {
                assert(cells.last().0 == path);
            }
        }
        assert(cells[cells.len() - 1] == cells.last());
        assert(with_name(head, cells.last().0).contains(path) <==> head.contains(path) || path
            == cells.last().0);
    }
}

/// The paths that get columns of their own are those at which some row has a value, but for the
/// ones that have types told.
pub proof fn law_paths_of_rows(
    rows: Seq<Cells>,
    typed: Seq<(Seq<char>, TypeView)>,
    path: Seq<char>,
)
    ensures
        dynamic_names(rows, typed).contains(path) <==> typed_type(typed, path) is None && exists|
            r: int,
            i: int,
        |
            0 <= r < rows.len() && 0 <= i < rows[r].len() && (#[trigger] rows[r][i]).0 == path,
        strictly_ascending(dynamic_names(rows, typed)),
    decreases rows.len(),
{
    if rows.len() > 0 {
        let front = rows.drop_last();
        law_paths_of_rows(front, typed, path);
        lemma_row_names(dynamic_names(front, typed), rows.last(), typed, path);
        assert(rows.last() == rows[rows.len() - 1]);
        if exists|r: int, i: int|
            0 <= r < front.len() && 0 <= i < front[r].len() && (#[trigger] front[r][i]).0 == path {
            let (r, i) = choose|r: int, i: int|
                0 <= r < front.len() && 0 <= i < front[r].len() && (#[trigger] front[r][i]).0
                    == path;
            assert(rows[r][i].0 == path);
        }
        if exists|i: int| 0 <= i < rows.last().len() && (#[trigger] rows.last()[i]).0 == path {
            let i = choose|i: int| 0 <= i < rows.last().len() && (#[trigger] rows.last()[i]).0
                == path;
            assert(rows[rows.len() - 1][i].0 == path);
        }
        if exists|r: int, i: int|
            0 <= r < rows.len() && 0 <= i < rows[r].len() && (#[trigger] rows[r][i]).0 == path {
            let (r, i) = choose|r: int, i: int|
                0 <= r < rows.len() && 0 <= i < rows[r].len() && (#[trigger] rows[r][i]).0 == path;
            if r < front.len() {
                assert(front[r][i].0 == path);
            } else {
                assert(rows.last()[i].0 == path);
            }
        }
    } else {
        assert(!Seq::<Seq<char>>::empty().contains(path));
    }
}

/// Of two paths that occur as often, the one whose name comes first is kept before the other.
pub proof fn law_names_break_ties(
    all: Seq<Seq<char>>,
    rows: Seq<Cells>,
    limit: nat,
    a: Seq<char>,
    b: Seq<char>,
)
    requires
        chosen_paths(all, all, rows, limit, true).contains(a),
        chosen_paths(all, all, rows, limit, false).contains(b),
    ensures
        path_frequency(rows, a) > path_frequency(rows, b) || (path_frequency(rows, a)
            == path_frequency(rows, b) && a != b && text_le(a, b)),
{
    law_frequent_paths_are_kept(all, rows, limit, a, b);
}

/// Without a version, and in version three, each path has a column and nothing is shared. In the
/// versions zero and two there are no more columns than allowed, and the other paths are shared.
pub proof fn law_versions_that_share_paths(
    rows: Seq<Cells>,
    typed: Seq<(Seq<char>, TypeView)>,
    most: u32,
    version: Option<u64>,
)
    ensures
        ({
            let p = parts_of(rows, typed, most, version);
            let names = dynamic_names(rows, typed);
            &&& p.version == version
            &&& version is None || version == Some(3u64) ==> p.shared is None && p.dynamic
                == path_columns(names, rows)
            &&& version == Some(0u64) || version == Some(2u64) ==> {
                &&& names.len() <= most ==> p.dynamic.len() == names.len()
                &&& names.len() > most ==> p.dynamic.len() == most
            }
        }),
{
    law_paths_of_rows(rows, typed, Seq::empty());
    law_as_many_paths_as_may_be(dynamic_names(rows, typed), rows, most as nat);
}

/// A column of a path holds what the path has in each row, and null where it has nothing.
pub proof fn law_columns_of_paths(names: Seq<Seq<char>>, rows: Seq<Cells>, i: int)
    requires
        0 <= i < names.len(),
    ensures
        path_columns(names, rows).len() == names.len(),
        path_columns(names, rows)[i].0 == names[i],
        path_columns(names, rows)[i].1 == path_column(rows, names[i], ValueView::Null),
{
}

/// Where no limit is told, 1024 paths may have columns. A pattern that is none is refused, and a
/// type that is not one of documents.
pub proof fn law_limit_of_paths(
    vs: Seq<ValueView>,
    types: Option<u32>,
    typed: Seq<(Seq<char>, TypeView)>,
    exact: Seq<Seq<char>>,
    patterns: Seq<Seq<char>>,
    version: Option<u64>,
    t: TypeView,
)
    ensures
        ({
            let of = |most: Option<u32>|
                TypeView::JSON {
                    max_dynamic_paths: most,
                    max_dynamic_types: types,
                    typed_paths: typed,
                    skip_exact: exact,
                    skip_regex: patterns,
                };
            &&& analyzed(vs, of(None), version) == analyzed(vs, of(Some(1024u32)), version)
            &&& (exists|i: int| 0 <= i < patterns.len() && !pattern_valid(#[trigger] patterns[i]))
                ==> analyzed(vs, of(None), version) == Err::<JsonParts, Error>(
                Error::SerializeError(WriteReason::InvalidSkipPattern),
            )
        }),
        !(t is JSON) ==> analyzed(vs, t, version) == Err::<JsonParts, Error>(
            Error::SerializeError(WriteReason::ExpectedJsonType),
        ),
{
}

} // verus!
