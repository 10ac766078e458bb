//! Documents that were taken apart into columns come back out of them.
use vstd::prelude::*;
use vstd::utf8::{encode_utf8, encode_utf8_decode_utf8, encode_utf8_valid_utf8};

use crate::binary_laws::law_plain_value_reads_back;
use crate::binary_value::{binary_value, parsed_binary_value};
use crate::dynamic::{lemma_with_name, strictly_ascending, takes_complex_types};
use crate::error::Error;
use crate::json_columns::{
    analyzed, chosen_paths, dynamic_names, last_cell, parts_of, path_column, path_columns,
    shares_paths, with_row_names, JsonParts, JSON_OBJECT_VERSION_FLATTENED,
};
use crate::json_documents::{
    documents, lemma_nested_error, row_members, row_settings, with_shared, with_values, Block,
};
use crate::json_laws::{bare_columns, block_of, shared_columns, stored_block};
use crate::json_object::{member_names, member_value, ordered_along};
use crate::json_paths::{
    document_of, leaf_cells, leaf_value, leaves, member_leaves, member_path, rows_cells, skipped,
    typed_type, Cells, PathRules,
};
use crate::json_read::typed_paths_in;
use crate::json_text::is_plain_number;
use crate::json_value::{JsonNumber, JsonView};
use crate::json_write::{column_names, has_shared, shared_row, shared_rows, written_version};
use crate::leaf_laws::{
    all_leaf_names, leaf_names, lemma_members_agree, lemma_names_make, lemma_put_append,
    lemma_tidy_head, put_names, steps, tidy, under, Leaf, Members,
};
use crate::mixed_blocks::{law_analyzed_leaves, law_stored_documents, typed_shown};
use crate::order_laws::{all_apart, all_ordered, apart, law_order_of_leaves, lemma_apart_sym};
use crate::path_laws::law_paths_are_split;
use crate::text::{split_text, text_le};
use crate::typed_node::json_of;
use crate::types::TypeView;
use crate::values::ValueView;
use crate::whole_columns::{
    json_reads, law_json_column_reads_back, parsed_whole, whole_bytes, ServerVersion,
};

verus! {

// ---------------------------------------------------------------------------
// Values and leaves
// ---------------------------------------------------------------------------

/// Whether a value comes back: it has a document that is no object, and, if it may be
/// written in its binary form, what is read of that has the same document.
pub open spec fn comes_back(v: ValueView, in_binary: bool) -> bool {
    &&& json_of(v) is Ok
    &&& !(json_of(v)->Ok_0 is Object)
    &&& in_binary ==> {
        &&& binary_value(v) is Some
        &&& parsed_binary_value(binary_value(v)->0) is Ok
        &&& json_of(parsed_binary_value(binary_value(v)->0)->Ok_0.0) == json_of(v)
    }
}

/// The leaf that a value at a path makes.
pub open spec fn leaf_of(path: Seq<char>, v: ValueView) -> Leaf {
    (split_text(path, '.'), json_of(v)->Ok_0)
}

/// The leaves that values at paths make.
pub open spec fn leaves_of(settings: Seq<(Seq<char>, ValueView)>) -> Seq<Leaf> {
    Seq::new(settings.len(), |i: int| leaf_of(settings[i].0, settings[i].1))
}

/// Whether all values that are not null come back, those at paths that share a column in their
/// binary form.
pub open spec fn all_come_back(cells: Cells, shared: Seq<Seq<char>>) -> bool {
    forall|i: int|
        0 <= i < cells.len() && !((#[trigger] cells[i]).1 is Null) ==> comes_back(
            cells[i].1,
            shared.contains(cells[i].0),
        )
}

/// The cells of paths without types of their own that are not null.
pub open spec fn untyped_cells(cells: Cells, typed: Seq<(Seq<char>, TypeView)>) -> Cells
    decreases cells.len(),
{
    if cells.len() == 0 {
        Seq::empty()
    } else {
        let head = untyped_cells(cells.drop_last(), typed);
        if typed_type(typed, cells.last().0) is None && !(cells.last().1 is Null) {
            head.push(cells.last())
        } else {
            head
        }
    }
}

/// Whether the paths of cells part.
pub open spec fn cells_apart(cells: Cells) -> bool {
    forall|i: int, j: int|
        0 <= i < cells.len() && 0 <= j < cells.len() && i != j ==> apart(
            split_text((#[trigger] cells[i]).0, '.'),
            split_text((#[trigger] cells[j]).0, '.'),
        )
}

pub(crate) proof fn lemma_with_values(m: Members, settings: Seq<(Seq<char>, ValueView)>)
    requires
        forall|i: int| 0 <= i < settings.len() ==> json_of((#[trigger] settings[i]).1) is Ok,
        put_names(m, leaves_of(settings)) is Ok,
    ensures
        with_values(m, settings) == put_names(m, leaves_of(settings)),
    decreases settings.len(),
{
    if settings.len() > 0 {
        let head = settings.drop_last();
        let last = settings.last();
        assert(leaves_of(settings).drop_last() =~= leaves_of(head));
        assert(last == settings[settings.len() - 1]);
        assert forall|i: int| 0 <= i < head.len() implies json_of((#[trigger] head[i]).1) is Ok by {
            assert(head[i] == settings[i]);
        }
        lemma_with_values(m, head);
        let x = put_names(m, leaves_of(head))->Ok_0;
        lemma_nested_error(x, split_text(last.0, '.'), JsonView::Null, json_of(last.1)->Ok_0);
    }
}

proof fn lemma_shared_values(m: Members, columns: Seq<(Seq<char>, Seq<ValueView>)>, r: int)
    requires
        forall|i: int|
            0 <= i < columns.len() && 0 <= r < (#[trigger] columns[i]).1.len() && !(columns[i].1[r] is Null)
                ==> comes_back(columns[i].1[r], true),
    ensures
        shared_row(columns, r) is Ok,
        with_shared(m, shared_row(columns, r)->Ok_0) == with_values(
            m,
            row_settings(
                column_names(columns),
                bare_columns(columns),
                r,
                columns.len() as int,
                false,
            ),
        ),
    decreases columns.len(),
{
    if columns.len() > 0 {
        let head = columns.drop_last();
        let (name, column) = columns.last();
        assert(columns[columns.len() - 1] == columns.last());
        assert forall|i: int|
            0 <= i < head.len() && 0 <= r < (#[trigger] head[i]).1.len() && !(head[i].1[r] is Null)
            implies comes_back(head[i].1[r], true) by {
            assert(head[i] == columns[i]);
        }
        lemma_shared_values(m, head, r);
        lemma_settings_head(columns, r, head.len() as int);
        let rs = row_settings(
            column_names(columns),
            bare_columns(columns),
            r,
            columns.len() as int,
            false,
        );
        let hs = row_settings(
            column_names(head),
            bare_columns(head),
            r,
            head.len() as int,
            false,
        );
        let entries = shared_row(head, r)->Ok_0;
        if 0 <= r < column.len() && !(column[r] is Null) {
            assert(comes_back(columns[columns.len() - 1].1[r], true));
            let e = (name, binary_value(column[r])->0);
            assert(entries.push(e).drop_last() =~= entries);
            assert(rs == hs.push((name, column[r])));
            assert(rs.drop_last() =~= hs);
        }
    }
}

proof fn lemma_settings_head(columns: Seq<(Seq<char>, Seq<ValueView>)>, r: int, n: int)
    requires
        columns.len() > 0,
        0 <= n < columns.len(),
    ensures
        row_settings(column_names(columns), bare_columns(columns), r, n, false) == row_settings(
            column_names(columns.drop_last()),
            bare_columns(columns.drop_last()),
            r,
            n,
            false,
        ),
    decreases n,
{
    if n > 0 {
        lemma_settings_head(columns, r, n - 1);
        assert(columns.drop_last()[n - 1] == columns[n - 1]);
    }
}

/// The values of a row at paths.
pub open spec fn settings_at(names: Seq<Seq<char>>, rows: Seq<Cells>, r: int) -> Seq<(Seq<char>, ValueView)> {
    row_settings(
        column_names(path_columns(names, rows)),
        bare_columns(path_columns(names, rows)),
        r,
        names.len() as int,
        false,
    )
}

/// The value of a row at a path.
spec fn value_at(rows: Seq<Cells>, r: int, path: Seq<char>) -> ValueView {
    path_column(rows, path, ValueView::Null)[r]
}

proof fn lemma_settings(names: Seq<Seq<char>>, rows: Seq<Cells>, r: int, n: int)
    requires
        0 <= r < rows.len(),
        0 <= n <= names.len(),
        names.no_duplicates(),
    ensures
        ({
            let columns = path_columns(names, rows);
            let s = row_settings(column_names(columns), bare_columns(columns), r, n, false);
            &&& forall|x: Seq<char>, v: ValueView| #[trigger]
                s.contains((x, v)) <==> names.take(n).contains(x) && v == value_at(rows, r, x) && !(
                v is Null)
            &&& forall|i: int, j: int|
                0 <= i < s.len() && 0 <= j < s.len() && i != j ==> (#[trigger] s[i]).0 != (
                #[trigger] s[j]).0
        }),
    decreases n,
{
    let columns = path_columns(names, rows);
    let s = row_settings(column_names(columns), bare_columns(columns), r, n, false);
    if n > 0 {
        lemma_settings(names, rows, r, n - 1);
        let head = row_settings(column_names(columns), bare_columns(columns), r, n - 1, false);
        let y = names[n - 1];
        let w = value_at(rows, r, y);
        assert(column_names(columns)[n - 1] == y);
        assert(bare_columns(columns)[n - 1][r] == w);
        let hn = names.take(n - 1);
        assert(names.take(n) =~= hn.push(y));
        assert(!hn.contains(y)) by {
            if hn.contains(y) {
                let k = choose|k: int| 0 <= k < hn.len() && hn[k] == y;
                assert(names[k] == names[n - 1]);
            }
        }
        assert(s == if w is Null {
            head
        } else {
            head.push((y, w))
        });
        assert forall|x: Seq<char>, v: ValueView| #[trigger] s.contains((x, v)) <==> names.take(
            n,
        ).contains(x) && v == value_at(rows, r, x) && !(v is Null) by {
            lemma_pushed(hn, y, x);
            lemma_pushed(head, (y, w), (x, v));
            assert(head.contains((x, v)) <==> hn.contains(x) && v == value_at(rows, r, x) && !(
            v is Null));
        }
        assert forall|i: int, j: int| 0 <= i < s.len() && 0 <= j < s.len() && i != j implies (
        #[trigger] s[i]).0 != (#[trigger] s[j]).0 by {
            if i < head.len() && j < head.len() {
                assert(head[i].0 != head[j].0);
            } else {
                let k = if i < head.len() {
                    i
                } else {
                    j
                };
                assert(head.contains(head[k]));
                assert(head[k] == (head[k].0, head[k].1));
                assert(hn.contains(head[k].0));
            }
        }
    } else {
        assert(names.take(0).len() == 0);
    }
}

proof fn lemma_pushed<A>(s: Seq<A>, y: A, x: A)
    ensures
        s.push(y).contains(x) <==> s.contains(x) || x == y,
{
    if s.contains(x) {
        let k = choose|k: int| 0 <= k < s.len() && s[k] == x;
        assert(s.push(y)[k] == x);
    }
    assert(s.push(y)[s.len() as int] == y);
    if s.push(y).contains(x) && x != y {
        let k = choose|k: int| 0 <= k < s.push(y).len() && s.push(y)[k] == x;
        assert(s[k] == x);
    }
}

// ---------------------------------------------------------------------------
// Cells
// ---------------------------------------------------------------------------

pub(crate) proof fn lemma_untyped(cells: Cells, typed: Seq<(Seq<char>, TypeView)>)
    requires
        cells_apart(cells),
    ensures
        forall|c: (Seq<char>, ValueView)| #[trigger]
            untyped_cells(cells, typed).contains(c) <==> cells.contains(c) && typed_type(typed, c.0) is None
                && !(c.1 is Null),
        cells_apart(untyped_cells(cells, typed)),
    decreases cells.len(),
{
    let all = untyped_cells(cells, typed);
    if cells.len() > 0 {
        let hc = cells.drop_last();
        let y = cells.last();
        assert(cells_apart(hc)) by {
            assert forall|i: int, j: int|
                0 <= i < hc.len() && 0 <= j < hc.len() && i != j implies apart(
                split_text((#[trigger] hc[i]).0, '.'),
                split_text((#[trigger] hc[j]).0, '.'),
            ) by {
                assert(hc[i] == cells[i] && hc[j] == cells[j]);
                assert(apart(split_text(cells[i].0, '.'), split_text(cells[j].0, '.')));
            }
        }
        lemma_untyped(hc, typed);
        let head = untyped_cells(hc, typed);
        assert(hc.push(y) =~= cells);
        assert forall|c: (Seq<char>, ValueView)| #[trigger] all.contains(c) <==> cells.contains(c)
            && typed_type(typed, c.0) is None && !(c.1 is Null) by {
            lemma_pushed(hc, y, c);
            lemma_pushed(head, y, c);
            assert(head.contains(c) <==> hc.contains(c) && typed_type(typed, c.0) is None && !(
            c.1 is Null));
        }
        assert forall|i: int, j: int|
            0 <= i < all.len() && 0 <= j < all.len() && i != j implies apart(
            split_text((#[trigger] all[i]).0, '.'),
            split_text((#[trigger] all[j]).0, '.'),
        ) by {
            if i < head.len() && j < head.len() {
                assert(apart(split_text(head[i].0, '.'), split_text(head[j].0, '.')));
            } else {
                let k = if i < head.len() {
                    i
                } else {
                    j
                };
                assert(head.contains(head[k]));
                assert(hc.contains(head[k]));
                let p = choose|p: int| 0 <= p < hc.len() && hc[p] == head[k];
                assert(cells[p] == head[k] && cells[cells.len() - 1] == y);
                assert(apart(
                    split_text(cells[p].0, '.'),
                    split_text(cells[cells.len() - 1].0, '.'),
                ));
                lemma_apart_sym(split_text(head[k].0, '.'), split_text(y.0, '.'));
            }
        }
    }
}

pub(crate) proof fn lemma_last_cell(cells: Cells, path: Seq<char>)
    requires
        cells_apart(cells),
    ensures
        forall|v: ValueView| cells.contains((path, v)) <==> last_cell(cells, path) == Some(v),
    decreases cells.len(),
{
    if cells.len() > 0 {
        let hc = cells.drop_last();
        let y = cells.last();
        assert(cells_apart(hc)) by {
            assert forall|i: int, j: int|
                0 <= i < hc.len() && 0 <= j < hc.len() && i != j implies apart(
                split_text((#[trigger] hc[i]).0, '.'),
                split_text((#[trigger] hc[j]).0, '.'),
            ) by {
                assert(hc[i] == cells[i] && hc[j] == cells[j]);
                assert(apart(split_text(cells[i].0, '.'), split_text(cells[j].0, '.')));
            }
        }
        lemma_last_cell(hc, path);
        assert(hc.push(y) =~= cells);
        assert forall|v: ValueView| cells.contains((path, v)) <==> last_cell(cells, path) == Some(
            v,
        ) by {
            lemma_pushed(hc, y, (path, v));
            if y.0 == path && hc.contains((path, v)) {
                let p = choose|p: int| 0 <= p < hc.len() && hc[p] == (path, v);
                assert(cells[p] == (path, v) && cells[cells.len() - 1] == y);
                assert(apart(
                    split_text(cells[p].0, '.'),
                    split_text(cells[cells.len() - 1].0, '.'),
                ));
                lemma_same_not_apart(split_text(path, '.'));
            }
        }
    }
}

pub(crate) proof fn lemma_last_in(cells: Cells, path: Seq<char>)
    ensures
        last_cell(cells, path) matches Some(v) ==> exists|i: int|
            0 <= i < cells.len() && #[trigger] cells[i] == (path, v),
    decreases cells.len(),
{
    if cells.len() > 0 {
        let hc = cells.drop_last();
        lemma_last_in(hc, path);
        assert(cells[cells.len() - 1] == cells.last());
        if cells.last().0 == path {
            assert(cells[cells.len() - 1] == (path, cells.last().1));
        } else if let Some(v) = last_cell(hc, path) {
            let i = choose|i: int| 0 <= i < hc.len() && #[trigger] hc[i] == (path, v);
            assert(cells[i] == (path, v));
        }
    }
}

pub(crate) proof fn lemma_same_not_apart(a: Seq<Seq<char>>)
    ensures
        !apart(a, a),
    decreases a.len(),
{
    if a.len() > 0 {
        lemma_same_not_apart(a.skip(1));
    }
}

proof fn lemma_row_names(
    names: Seq<Seq<char>>,
    cells: Cells,
    typed: Seq<(Seq<char>, TypeView)>,
)
    requires
        strictly_ascending(names),
    ensures
        strictly_ascending(with_row_names(names, cells, typed)),
        forall|x: Seq<char>| #[trigger]
            names.contains(x) ==> with_row_names(names, cells, typed).contains(x),
        forall|i: int|
            0 <= i < cells.len() && typed_type(typed, (#[trigger] cells[i]).0) is None
                ==> with_row_names(names, cells, typed).contains(cells[i].0),
    decreases cells.len(),
{
    if cells.len() > 0 {
        let head = with_row_names(names, cells.drop_last(), typed);
        lemma_row_names(names, cells.drop_last(), typed);
        lemma_with_name(head, cells.last().0);
        let all = with_row_names(names, cells, typed);
        assert forall|x: Seq<char>| #[trigger] names.contains(x) implies all.contains(x) by {
            assert(head.contains(x));
        }
        assert forall|i: int|
            0 <= i < cells.len() && typed_type(typed, (#[trigger] cells[i]).0) is None
            implies all.contains(cells[i].0) by {
            if i < cells.len() - 1 {
                assert(cells.drop_last()[i] == cells[i]);
                assert(head.contains(cells[i].0));
            }
        }
    }
}

pub(crate) proof fn lemma_dynamic_names(rows: Seq<Cells>, typed: Seq<(Seq<char>, TypeView)>)
    ensures
        strictly_ascending(dynamic_names(rows, typed)),
        forall|r: int, i: int|
            0 <= r < rows.len() && 0 <= i < rows[r].len() && typed_type(
                typed,
                (#[trigger] rows[r][i]).0,
            ) is None ==> dynamic_names(rows, typed).contains(rows[r][i].0),
    decreases rows.len(),
{
    if rows.len() > 0 {
        let head = dynamic_names(rows.drop_last(), typed);
        lemma_dynamic_names(rows.drop_last(), typed);
        lemma_row_names(head, rows.last(), typed);
        assert forall|r: int, i: int|
            0 <= r < rows.len() && 0 <= i < rows[r].len() && typed_type(
                typed,
                (#[trigger] rows[r][i]).0,
            ) is None implies dynamic_names(rows, typed).contains(rows[r][i].0) by {
            if r < rows.len() - 1 {
                assert(rows.drop_last()[r] == rows[r]);
                assert(head.contains(rows.drop_last()[r][i].0));
            } else {
                assert(rows.last()[i] == rows[r][i]);
            }
        }
    }
}

proof fn lemma_no_duplicates(names: Seq<Seq<char>>)
    requires
        strictly_ascending(names),
    ensures
        names.no_duplicates(),
{
    assert forall|i: int, j: int| 0 <= i < names.len() && 0 <= j < names.len() && i != j implies names[i]
        != names[j] by {
        if i < j {
            assert(text_le(names[i], names[j]));
        } else {
            assert(text_le(names[j], names[i]));
        }
    }
}

// ---------------------------------------------------------------------------
// Rows
// ---------------------------------------------------------------------------

/// The paths of documents with columns of their own, and those that share one.
pub open spec fn split_names(
    rows: Seq<Cells>,
    typed: Seq<(Seq<char>, TypeView)>,
    max_paths: u32,
    version: Option<u64>,
) -> (Seq<Seq<char>>, Seq<Seq<char>>) {
    let names = dynamic_names(rows, typed);
    if shares_paths(version) {
        (
            chosen_paths(names, names, rows, max_paths as nat, true),
            chosen_paths(names, names, rows, max_paths as nat, false),
        )
    } else {
        (names, Seq::empty())
    }
}

pub(crate) proof fn lemma_split(
    rows: Seq<Cells>,
    typed: Seq<(Seq<char>, TypeView)>,
    max_paths: u32,
    version: Option<u64>,
)
    ensures
        ({
            let (kept, shared) = split_names(rows, typed, max_paths, version);
            &&& kept.no_duplicates()
            &&& shared.no_duplicates()
            &&& forall|x: Seq<char>| #[trigger]
                dynamic_names(rows, typed).contains(x) <==> kept.contains(x) || shared.contains(x)
            &&& forall|x: Seq<char>| !(#[trigger] kept.contains(x) && shared.contains(x))
        }),
{
    let names = dynamic_names(rows, typed);
    let (kept, shared) = split_names(rows, typed, max_paths, version);
    lemma_dynamic_names(rows, typed);
    if shares_paths(version) {
        law_paths_are_split(names, rows, max_paths as nat, Seq::empty());
        lemma_no_duplicates(kept);
        lemma_no_duplicates(shared);
        assert forall|x: Seq<char>| #[trigger] names.contains(x) <==> kept.contains(x)
            || shared.contains(x) by {
            law_paths_are_split(names, rows, max_paths as nat, x);
        }
        assert forall|x: Seq<char>| !(#[trigger] kept.contains(x) && shared.contains(x)) by {
            law_paths_are_split(names, rows, max_paths as nat, x);
        }
    } else {
        lemma_no_duplicates(names);
    }
}

/// The values of a row at all paths without types of their own.
spec fn all_settings(
    rows: Seq<Cells>,
    typed: Seq<(Seq<char>, TypeView)>,
    max_paths: u32,
    version: Option<u64>,
    r: int,
) -> Seq<(Seq<char>, ValueView)> {
    let (kept, shared) = split_names(rows, typed, max_paths, version);
    settings_at(kept, rows, r) + settings_at(shared, rows, r)
}

#[verifier::spinoff_prover]
#[verifier::rlimit(60)]
proof fn lemma_all_settings(
    rows: Seq<Cells>,
    typed: Seq<(Seq<char>, TypeView)>,
    max_paths: u32,
    version: Option<u64>,
    r: int,
)
    requires
        0 <= r < rows.len(),
        cells_apart(rows[r]),
    ensures
        ({
            let s = all_settings(rows, typed, max_paths, version, r);
            let u = untyped_cells(rows[r], typed);
            &&& forall|c: (Seq<char>, ValueView)| #[trigger] s.contains(c) <==> u.contains(c)
            &&& forall|i: int, j: int|
                0 <= i < s.len() && 0 <= j < s.len() && i != j ==> (#[trigger] s[i]).0 != (
                #[trigger] s[j]).0
        }),
{
    let (kept, shared) = split_names(rows, typed, max_paths, version);
    let a = settings_at(kept, rows, r);
    let b = settings_at(shared, rows, r);
    let s = a + b;
    let u = untyped_cells(rows[r], typed);
    let names = dynamic_names(rows, typed);
    lemma_split(rows, typed, max_paths, version);
    lemma_settings(kept, rows, r, kept.len() as int);
    lemma_settings(shared, rows, r, shared.len() as int);
    assert(kept.take(kept.len() as int) =~= kept);
    assert(shared.take(shared.len() as int) =~= shared);
    lemma_untyped(rows[r], typed);
    lemma_dynamic_names(rows, typed);
    assert forall|c: (Seq<char>, ValueView)| #[trigger] s.contains(c) <==> u.contains(c) by {
        let (x, v) = c;
        lemma_last_cell(rows[r], x);
        lemma_joined(a, b, c);
        assert(a.contains((x, v)) <==> kept.contains(x) && v == value_at(rows, r, x) && !(
        v is Null));
        assert(b.contains((x, v)) <==> shared.contains(x) && v == value_at(rows, r, x) && !(
        v is Null));
        assert(names.contains(x) <==> kept.contains(x) || shared.contains(x));
        assert(u.contains(c) <==> rows[r].contains(c) && typed_type(typed, x) is None && !(
        v is Null));
        assert(rows[r].contains((x, v)) <==> last_cell(rows[r], x) == Some(v));
        if u.contains(c) {
            let k = choose|k: int| 0 <= k < rows[r].len() && rows[r][k] == c;
            assert(names.contains(rows[r][k].0));
        }
        if s.contains(c) {
            assert(last_cell(rows[r], x) is Some);
            crate::path_laws::law_dynamic_names_are_untyped(rows, typed, x);
        }
    }
    assert forall|i: int, j: int| 0 <= i < s.len() && 0 <= j < s.len() && i != j implies (
    #[trigger] s[i]).0 != (#[trigger] s[j]).0 by {
        lemma_side(a, b, kept, shared, rows, r, i);
        lemma_side(a, b, kept, shared, rows, r, j);
        if i < a.len() && j < a.len() {
            assert(a[i].0 != a[j].0);
        } else if i >= a.len() && j >= a.len() {
            assert(b[i - a.len()].0 != b[j - a.len()].0);
        } else {
            assert(!(kept.contains(s[i].0) && shared.contains(s[i].0)));
        }
    }
}

proof fn lemma_side(
    a: Seq<(Seq<char>, ValueView)>,
    b: Seq<(Seq<char>, ValueView)>,
    kept: Seq<Seq<char>>,
    shared: Seq<Seq<char>>,
    rows: Seq<Cells>,
    r: int,
    i: int,
)
    requires
        0 <= i < a.len() + b.len(),
        forall|x: Seq<char>, v: ValueView| #[trigger]
            a.contains((x, v)) <==> kept.contains(x) && v == value_at(rows, r, x) && !(v is Null),
        forall|x: Seq<char>, v: ValueView| #[trigger]
            b.contains((x, v)) <==> shared.contains(x) && v == value_at(rows, r, x) && !(v is Null),
    ensures
        i < a.len() ==> kept.contains((a + b)[i].0),
        i >= a.len() ==> shared.contains((a + b)[i].0),
{
    if i < a.len() {
        assert(a[i] == (a[i].0, a[i].1));
        assert(a.contains((a[i].0, a[i].1)));
    } else {
        let e = b[i - a.len()];
        assert(e == (e.0, e.1));
        assert(b.contains((e.0, e.1)));
    }
}

proof fn lemma_joined<A>(a: Seq<A>, b: Seq<A>, x: A)
    ensures
        (a + b).contains(x) <==> a.contains(x) || b.contains(x),
{
    if a.contains(x) {
        let k = choose|k: int| 0 <= k < a.len() && a[k] == x;
        assert((a + b)[k] == x);
    }
    if b.contains(x) {
        let k = choose|k: int| 0 <= k < b.len() && b[k] == x;
        assert((a + b)[a.len() + k] == x);
    }
    if (a + b).contains(x) {
        let k = choose|k: int| 0 <= k < (a + b).len() && (a + b)[k] == x;
        if k < a.len() {
            assert(a[k] == x);
        } else {
            assert(b[k - a.len()] == x);
        }
    }
}

/// Values at different paths of one row make leaves in any order alike.
proof fn lemma_settings_order(
    base: Members,
    cells: Cells,
    typed: Seq<(Seq<char>, TypeView)>,
    s: Seq<(Seq<char>, ValueView)>,
)
    requires
        cells_apart(cells),
        all_ordered(base, leaves_of(untyped_cells(cells, typed))),
        put_names(base, leaves_of(untyped_cells(cells, typed))) is Ok,
        forall|c: (Seq<char>, ValueView)| #[trigger]
            s.contains(c) <==> untyped_cells(cells, typed).contains(c),
        forall|i: int, j: int|
            0 <= i < s.len() && 0 <= j < s.len() && i != j ==> (#[trigger] s[i]).0 != (
            #[trigger] s[j]).0,
    ensures
        put_names(base, leaves_of(s)) == put_names(base, leaves_of(untyped_cells(cells, typed))),
{
    let u = untyped_cells(cells, typed);
    let ul = leaves_of(u);
    let sl = leaves_of(s);
    lemma_untyped(cells, typed);
    assert(all_apart(ul)) by {
        assert forall|i: int, j: int| 0 <= i < ul.len() && 0 <= j < ul.len() && i != j implies apart(
            (#[trigger] ul[i]).0,
            (#[trigger] ul[j]).0,
        ) by {
            assert(apart(split_text(u[i].0, '.'), split_text(u[j].0, '.')));
        }
    }
    assert(sl.no_duplicates()) by {
        assert forall|i: int, j: int|
            0 <= i < sl.len() && 0 <= j < sl.len() && i != j implies sl[i] != sl[j] by {
            assert(s[i].0 != s[j].0);
            assert(s.contains(s[i]) && s.contains(s[j]));
            assert(u.contains(s[i]) && u.contains(s[j]));
            let p = choose|p: int| 0 <= p < u.len() && u[p] == s[i];
            let q = choose|q: int| 0 <= q < u.len() && u[q] == s[j];
            assert(apart(split_text(u[p].0, '.'), split_text(u[q].0, '.')));
            lemma_same_not_apart(split_text(u[p].0, '.'));
        }
    }
    assert forall|e: Leaf| #[trigger] ul.contains(e) <==> sl.contains(e) by {
        if ul.contains(e) {
            let p = choose|p: int| 0 <= p < ul.len() && ul[p] == e;
            assert(u.contains(u[p]));
            assert(s.contains(u[p]));
            let q = choose|q: int| 0 <= q < s.len() && s[q] == u[p];
            assert(sl[q] == e);
        }
        if sl.contains(e) {
            let q = choose|q: int| 0 <= q < sl.len() && sl[q] == e;
            assert(s.contains(s[q]));
            assert(u.contains(s[q]));
            let p = choose|p: int| 0 <= p < u.len() && u[p] == s[q];
            assert(ul[p] == e);
        }
    }
    law_order_of_leaves(base, ul, sl);
}

proof fn lemma_untyped_come_back(
    cells: Cells,
    typed: Seq<(Seq<char>, TypeView)>,
    s: Seq<(Seq<char>, ValueView)>,
    shared: Seq<Seq<char>>,
)
    requires
        cells_apart(cells),
        all_come_back(untyped_cells(cells, typed), shared),
        forall|c: (Seq<char>, ValueView)| #[trigger]
            s.contains(c) ==> untyped_cells(cells, typed).contains(c),
    ensures
        forall|i: int|
            0 <= i < s.len() ==> comes_back((#[trigger] s[i]).1, shared.contains(s[i].0)),
{
    lemma_untyped(cells, typed);
    assert forall|i: int| 0 <= i < s.len() implies comes_back(
        (#[trigger] s[i]).1,
        shared.contains(s[i].0),
    ) by {
        let u = untyped_cells(cells, typed);
        assert(s.contains(s[i]));
        assert(u.contains(s[i]));
        let k = choose|k: int| 0 <= k < u.len() && u[k] == s[i];
        assert(!(u[k].1 is Null));
    }
}

proof fn lemma_shared_row_at(columns: Seq<(Seq<char>, Seq<ValueView>)>, n: nat, r: int)
    requires
        shared_rows(columns, n) is Ok,
        0 <= r < n,
    ensures
        shared_rows(columns, n)->Ok_0.len() == n,
        shared_row(columns, r) is Ok,
        shared_rows(columns, n)->Ok_0[r] == shared_row(columns, r)->Ok_0,
    decreases n,
{
    if r < n - 1 {
        lemma_shared_row_at(columns, (n - 1) as nat, r);
    } else if n > 1 {
        lemma_shared_row_at(columns, (n - 1) as nat, 0);
    }
}

/// The paths without types of their own of one row make what the cells of its document
/// make, in the order in which they stand there.
#[verifier::spinoff_prover]
#[verifier::rlimit(60)]
pub(crate) proof fn lemma_row_untyped(
    rows: Seq<Cells>,
    typed: Seq<(Seq<char>, TypeView)>,
    max_paths: u32,
    version: Option<u64>,
    r: int,
    base: Members,
)
    requires
        0 <= r < rows.len(),
        cells_apart(rows[r]),
        all_come_back(
            untyped_cells(rows[r], typed),
            split_names(rows, typed, max_paths, version).1,
        ),
        all_ordered(base, leaves_of(untyped_cells(rows[r], typed))),
        put_names(base, leaves_of(untyped_cells(rows[r], typed))) is Ok,
    ensures
        ({
            let (kept, shared) = split_names(rows, typed, max_paths, version);
            let first = with_values(base, settings_at(kept, rows, r));
            &&& first is Ok
            &&& shared_row(path_columns(shared, rows), r) is Ok
            &&& with_shared(first->Ok_0, shared_row(path_columns(shared, rows), r)->Ok_0)
                == put_names(base, leaves_of(untyped_cells(rows[r], typed)))
        }),
{
    let (kept, shared) = split_names(rows, typed, max_paths, version);
    let a = settings_at(kept, rows, r);
    let b = settings_at(shared, rows, r);
    let s = a + b;
    let u = untyped_cells(rows[r], typed);
    lemma_all_settings(rows, typed, max_paths, version, r);
    assert(s == all_settings(rows, typed, max_paths, version, r));
    lemma_settings_order(base, rows[r], typed, s);
    lemma_untyped_come_back(rows[r], typed, s, shared);
    assert(leaves_of(s) =~= leaves_of(a) + leaves_of(b));
    lemma_put_append(base, leaves_of(a), leaves_of(b));
    let m2 = put_names(base, leaves_of(a))->Ok_0;
    assert forall|i: int| 0 <= i < a.len() implies json_of((#[trigger] a[i]).1) is Ok by {
        assert(s[i] == a[i]);
        assert(comes_back(s[i].1, shared.contains(s[i].0)));
    }
    assert forall|i: int| 0 <= i < b.len() implies json_of((#[trigger] b[i]).1) is Ok by {
        assert(s[a.len() + i] == b[i]);
        assert(comes_back(s[a.len() + i].1, shared.contains(s[a.len() + i].0)));
    }
    lemma_with_values(base, a);
    lemma_with_values(m2, b);
    let columns = path_columns(shared, rows);
    lemma_split(rows, typed, max_paths, version);
    lemma_settings(shared, rows, r, shared.len() as int);
    assert(shared.take(shared.len() as int) =~= shared);
    assert forall|i: int|
        0 <= i < columns.len() && 0 <= r < (#[trigger] columns[i]).1.len() && !(columns[i].1[r] is Null)
        implies comes_back(columns[i].1[r], true) by {
        let x = shared[i];
        let v = columns[i].1[r];
        assert(v == value_at(rows, r, x));
        assert(shared.contains(shared[i]));
        assert(b.contains((x, v)));
        let k = choose|k: int| 0 <= k < b.len() && b[k] == (x, v);
        assert(s[a.len() + k] == b[k]);
        assert(comes_back(s[a.len() + k].1, shared.contains(s[a.len() + k].0)));
    }
    lemma_shared_values(m2, columns, r);
}

/// The members that the paths with types of their own make in one row.
pub open spec fn typed_members(p: JsonParts, r: int) -> core::result::Result<Members, Error> {
    let b = block_of(p);
    with_values(
        Seq::empty(),
        row_settings(b.typed_names, b.typed_columns, r, b.typed_columns.len() as int, b.nulls),
    )
}

/// The paths that share a column.
pub open spec fn shared_names(p: JsonParts) -> Seq<Seq<char>> {
    column_names(shared_columns(p))
}

pub(crate) proof fn lemma_shared_names(
    rows: Seq<Cells>,
    typed: Seq<(Seq<char>, TypeView)>,
    max_paths: u32,
    version: Option<u64>,
)
    ensures
        shared_names(parts_of(rows, typed, max_paths, version)) == split_names(
            rows,
            typed,
            max_paths,
            version,
        ).1,
{
    let (_, shared) = split_names(rows, typed, max_paths, version);
    assert(shared_names(parts_of(rows, typed, max_paths, version)) =~= shared);
}

/// A row of a block is made of the paths with types of their own, and of the cells of its
/// document behind them, in the order in which they stand there.
pub proof fn law_row_comes_back(
    rows: Seq<Cells>,
    typed: Seq<(Seq<char>, TypeView)>,
    max_paths: u32,
    version: Option<u64>,
    r: int,
    base: Members,
)
    requires
        0 <= r < rows.len(),
        cells_apart(rows[r]),
        all_come_back(
            untyped_cells(rows[r], typed),
            split_names(rows, typed, max_paths, version).1,
        ),
        shares_paths(version) == has_shared(written_version(version)),
        has_shared(written_version(version)) ==> shared_rows(
            shared_columns(parts_of(rows, typed, max_paths, version)),
            rows.len(),
        ) is Ok,
        typed_members(parts_of(rows, typed, max_paths, version), r) == Ok::<_, Error>(base),
        all_ordered(base, leaves_of(untyped_cells(rows[r], typed))),
        put_names(base, leaves_of(untyped_cells(rows[r], typed))) is Ok,
    ensures
        row_members(block_of(parts_of(rows, typed, max_paths, version)), r) == put_names(
            base,
            leaves_of(untyped_cells(rows[r], typed)),
        ),
{
    let p = parts_of(rows, typed, max_paths, version);
    let b = block_of(p);
    let (kept, shared) = split_names(rows, typed, max_paths, version);
    lemma_row_untyped(rows, typed, max_paths, version, r, base);
    assert(p.dynamic == path_columns(kept, rows));
    assert(b.columns.len() == kept.len());
    let columns = path_columns(shared, rows);
    assert(shared_columns(p) =~= columns);
    if shares_paths(version) {
        lemma_shared_row_at(columns, rows.len(), r);
    } else {
        assert(columns.len() == 0);
        assert(shared_row(columns, r)->Ok_0 =~= Seq::empty());
    }
}

// ---------------------------------------------------------------------------
// Documents
// ---------------------------------------------------------------------------

proof fn lemma_first_name(m: Members, i: int)
    requires
        tidy(JsonView::Object(m)),
        0 <= i < all_leaf_names(m).len(),
    ensures
        all_leaf_names(m)[i].0.len() > 0,
        member_names(m).contains(all_leaf_names(m)[i].0[0]),
    decreases m,
{
    let head = m.subrange(0, m.len() - 1);
    let last = m.last();
    let a = all_leaf_names(head);
    let names = member_names(m);
    if i < a.len() {
        lemma_tidy_head(m);
        lemma_first_name(head, i);
        assert(all_leaf_names(m)[i] == a[i]);
        let x = a[i].0[0];
        let k = choose|k: int| 0 <= k < member_names(head).len() && member_names(head)[k] == x;
        assert(names[k] == x);
    } else {
        let e = under(last.0, leaf_names(last.1))[i - a.len()];
        assert(all_leaf_names(m)[i] == e);
        assert(e.0[0] == last.0);
        assert(names[m.len() - 1] == last.0);
    }
}

proof fn lemma_apart_names(j: JsonView)
    requires
        tidy(j),
    ensures
        all_apart(leaf_names(j)),
    decreases j,
{
    if let JsonView::Object(m) = j {
        lemma_apart_members(m);
    }
}

proof fn lemma_apart_members(m: Members)
    requires
        tidy(JsonView::Object(m)),
    ensures
        all_apart(all_leaf_names(m)),
    decreases m,
{
    if m.len() > 0 {
        let head = m.subrange(0, m.len() - 1);
        let last = m.last();
        assert(last == m[m.len() - 1]);
        lemma_tidy_head(m);
        lemma_apart_members(head);
        lemma_apart_names(last.1);
        let a = all_leaf_names(head);
        let inner = leaf_names(last.1);
        let b = under(last.0, inner);
        let all = all_leaf_names(m);
        let names = member_names(m);
        assert forall|i: int, j: int| 0 <= i < all.len() && 0 <= j < all.len() && i != j implies apart(
            (#[trigger] all[i]).0,
            (#[trigger] all[j]).0,
        ) by {
            if i < a.len() && j < a.len() {
                assert(all[i] == a[i] && all[j] == a[j]);
                assert(apart(a[i].0, a[j].0));
            } else if i >= a.len() && j >= a.len() {
                let p = i - a.len();
                let q = j - a.len();
                assert(all[i] == b[p] && all[j] == b[q]);
                assert(apart(inner[p].0, inner[q].0));
                assert(b[p].0.skip(1) =~= inner[p].0);
                assert(b[q].0.skip(1) =~= inner[q].0);
            } else {
                let k = if i < a.len() {
                    i
                } else {
                    j
                };
                let l = if i < a.len() {
                    j - a.len()
                } else {
                    i - a.len()
                };
                lemma_first_name(head, k);
                let x = a[k].0[0];
                let q = choose|q: int| 0 <= q < member_names(head).len() && member_names(head)[q] == x;
                assert(names[q] == x && names[m.len() - 1] == last.0);
                assert(text_le(names[q], names[m.len() - 1]));
                assert(b[l].0[0] == last.0);
                assert(apart(a[k].0, b[l].0));
                lemma_apart_sym(a[k].0, b[l].0);
            }
        }
    }
}

pub(crate) proof fn lemma_leaf_value(j: JsonView)
    ensures
        leaf_value(j) is Ok,
    decreases j,
{
    if let JsonView::Array(a) = j {
        lemma_leaf_values(a);
    }
}

proof fn lemma_leaf_values(s: Seq<JsonView>)
    ensures
        crate::json_paths::leaf_values(s) is Ok,
    decreases s,
{
    if s.len() > 0 {
        lemma_leaf_values(s.subrange(0, s.len() - 1));
        assert(s.last() == s[s.len() - 1]);
        lemma_leaf_value(s[s.len() - 1]);
    }
}

/// Whether leaves part.
spec fn leaves_apart(ls: Seq<(Seq<char>, JsonView)>) -> bool {
    forall|i: int, j: int|
        0 <= i < ls.len() && 0 <= j < ls.len() && i != j ==> apart(
            split_text((#[trigger] ls[i]).0, '.'),
            split_text((#[trigger] ls[j]).0, '.'),
        )
}

proof fn lemma_cells_apart(ls: Seq<(Seq<char>, JsonView)>, rules: PathRules)
    requires
        leaves_apart(ls),
        leaf_cells(ls, rules) is Ok,
    ensures
        cells_apart(leaf_cells(ls, rules)->Ok_0),
        forall|i: int|
            0 <= i < leaf_cells(ls, rules)->Ok_0.len() ==> exists|k: int|
                0 <= k < ls.len() && (#[trigger] ls[k]).0 == (#[trigger] leaf_cells(
                    ls,
                    rules,
                )->Ok_0[i]).0,
    decreases ls.len(),
{
    if ls.len() > 0 {
        let hl = ls.drop_last();
        assert(leaves_apart(hl)) by {
            assert forall|i: int, j: int|
                0 <= i < hl.len() && 0 <= j < hl.len() && i != j implies apart(
                split_text((#[trigger] hl[i]).0, '.'),
                split_text((#[trigger] hl[j]).0, '.'),
            ) by {
                assert(hl[i] == ls[i] && hl[j] == ls[j]);
                assert(apart(split_text(ls[i].0, '.'), split_text(ls[j].0, '.')));
            }
        }
        lemma_cells_apart(hl, rules);
        let head = leaf_cells(hl, rules)->Ok_0;
        let all = leaf_cells(ls, rules)->Ok_0;
        let y = ls.last().0;
        assert(ls[ls.len() - 1] == ls.last());
        assert forall|i: int| 0 <= i < all.len() implies exists|k: int|
            0 <= k < ls.len() && (#[trigger] ls[k]).0 == (#[trigger] all[i]).0 by {
            if i < head.len() {
                assert(all[i] == head[i]);
                let k = choose|k: int| 0 <= k < hl.len() && (#[trigger] hl[k]).0 == head[i].0;
                assert(ls[k] == hl[k]);
            } else {
                assert(ls[ls.len() - 1].0 == all[i].0);
            }
        }
        assert forall|i: int, j: int|
            0 <= i < all.len() && 0 <= j < all.len() && i != j implies apart(
            split_text((#[trigger] all[i]).0, '.'),
            split_text((#[trigger] all[j]).0, '.'),
        ) by {
            if i < head.len() && j < head.len() {
                assert(all[i] == head[i] && all[j] == head[j]);
                assert(apart(split_text(head[i].0, '.'), split_text(head[j].0, '.')));
            } else {
                let p = if i < head.len() {
                    i
                } else {
                    j
                };
                assert(all[p] == head[p]);
                let k = choose|k: int| 0 <= k < hl.len() && (#[trigger] hl[k]).0 == head[p].0;
                assert(ls[k] == hl[k]);
                assert(apart(split_text(ls[k].0, '.'), split_text(ls[ls.len() - 1].0, '.')));
                lemma_apart_sym(split_text(ls[k].0, '.'), split_text(y, '.'));
            }
        }
    }
}

/// The cells of a document part at their paths.
pub proof fn law_cells_part(m: Members, rules: PathRules)
    requires
        tidy(JsonView::Object(m)),
        leaf_cells(leaves(JsonView::Object(m), Seq::empty()), rules) is Ok,
    ensures
        cells_apart(leaf_cells(leaves(JsonView::Object(m), Seq::empty()), rules)->Ok_0),
{
    let ls = member_leaves(m, Seq::empty());
    let ns = all_leaf_names(m);
    lemma_members_agree(m, Seq::empty());
    lemma_apart_members(m);
    assert(leaves_apart(ls)) by {
        assert forall|i: int, j: int| 0 <= i < ls.len() && 0 <= j < ls.len() && i != j implies apart(
            split_text((#[trigger] ls[i]).0, '.'),
            split_text((#[trigger] ls[j]).0, '.'),
        ) by {
            assert(split_text(ls[i].0, '.') == steps(Seq::empty()) + ns[i].0);
            assert(split_text(ls[j].0, '.') == steps(Seq::empty()) + ns[j].0);
            assert(steps(Seq::empty()) + ns[i].0 =~= ns[i].0);
            assert(steps(Seq::empty()) + ns[j].0 =~= ns[j].0);
            assert(apart(ns[i].0, ns[j].0));
        }
    }
    lemma_cells_apart(ls, rules);
}

// ---------------------------------------------------------------------------
// Without types of their own
// ---------------------------------------------------------------------------

/// What comes back of a leaf: nothing of a null and of a path that is left out, and of
/// another value the document of the value that it became.
pub open spec fn returned_leaf(j: JsonView, path: Seq<char>, rules: PathRules) -> Option<JsonView> {
    let v = leaf_value(j)->Ok_0;
    if skipped(rules, path) || v is Null {
        None
    } else {
        Some(json_of(v)->Ok_0)
    }
}

/// What comes back of an object: its members, without those of which nothing comes back.
pub open spec fn returned(m: Members, path: Seq<char>, rules: PathRules) -> Members
    decreases m,
{
    if m.len() == 0 {
        Seq::empty()
    } else {
        let head = returned(m.subrange(0, m.len() - 1), path, rules);
        let name = m.last().0;
        let at = member_path(path, name);
        match m.last().1 {
            JsonView::Object(x) => {
                let inner = returned(x, at, rules);
                if inner.len() == 0 {
                    head
                } else {
                    head.push((name, JsonView::Object(inner)))
                }
            },
            j => match returned_leaf(j, at, rules) {
                None => head,
                Some(w) => head.push((name, w)),
            },
        }
    }
}

/// Whether all leaves of an object come back, those at paths that share a column in their
/// binary form.
pub open spec fn all_return(
    m: Members,
    path: Seq<char>,
    rules: PathRules,
    shared: Seq<Seq<char>>,
) -> bool {
    forall|i: int|
        0 <= i < member_leaves(m, path).len() && returned_leaf(
            (#[trigger] member_leaves(m, path)[i]).1,
            member_leaves(m, path)[i].0,
            rules,
        ) is Some ==> comes_back(
            leaf_value(member_leaves(m, path)[i].1)->Ok_0,
            shared.contains(member_leaves(m, path)[i].0),
        )
}

proof fn lemma_return_head(m: Members, path: Seq<char>, rules: PathRules, shared: Seq<Seq<char>>)
    requires
        m.len() > 0,
        all_return(m, path, rules, shared),
    ensures
        all_return(m.subrange(0, m.len() - 1), path, rules, shared),
        m.last().1 matches JsonView::Object(x) ==> all_return(
            x,
            member_path(path, m.last().0),
            rules,
            shared,
        ),
        !(m.last().1 is Object) && returned_leaf(
            m.last().1,
            member_path(path, m.last().0),
            rules,
        ) is Some ==> comes_back(
            leaf_value(m.last().1)->Ok_0,
            shared.contains(member_path(path, m.last().0)),
        ),
{
    let head = m.subrange(0, m.len() - 1);
    let at = member_path(path, m.last().0);
    let a = member_leaves(head, path);
    let b = leaves(m.last().1, at);
    let all = member_leaves(m, path);
    assert(all == a + b);
    assert forall|i: int|
        0 <= i < a.len() && returned_leaf((#[trigger] a[i]).1, a[i].0, rules) is Some
        implies comes_back(leaf_value(a[i].1)->Ok_0, shared.contains(a[i].0)) by {
        assert(all[i] == a[i]);
        assert(returned_leaf(all[i].1, all[i].0, rules) is Some);
    }
    assert forall|i: int|
        0 <= i < b.len() && returned_leaf((#[trigger] b[i]).1, b[i].0, rules) is Some
        implies comes_back(leaf_value(b[i].1)->Ok_0, shared.contains(b[i].0)) by {
        assert(all[a.len() + i] == b[i]);
        assert(returned_leaf(all[a.len() + i].1, all[a.len() + i].0, rules) is Some);
    }
    if !(m.last().1 is Object) {
        assert(b[0] == (at, m.last().1));
    }
}

/// The leaves that come back of leaves.
spec fn kept_leaves(ls: Seq<(Seq<char>, JsonView)>, rules: PathRules) -> Seq<Leaf>
    decreases ls.len(),
{
    if ls.len() == 0 {
        Seq::empty()
    } else {
        let head = kept_leaves(ls.drop_last(), rules);
        match returned_leaf(ls.last().1, ls.last().0, rules) {
            None => head,
            Some(w) => head.push((split_text(ls.last().0, '.'), w)),
        }
    }
}

proof fn lemma_kept_append(
    a: Seq<(Seq<char>, JsonView)>,
    b: Seq<(Seq<char>, JsonView)>,
    rules: PathRules,
)
    ensures
        kept_leaves(a + b, rules) == kept_leaves(a, rules) + kept_leaves(b, rules),
    decreases b.len(),
{
    if b.len() == 0 {
        assert(a + b =~= a);
        assert(kept_leaves(a, rules) + kept_leaves(b, rules) =~= kept_leaves(a, rules));
    } else {
        lemma_kept_append(a, b.drop_last(), rules);
        assert((a + b).drop_last() =~= a + b.drop_last());
        assert(kept_leaves(a + b, rules) =~= kept_leaves(a, rules) + kept_leaves(b, rules));
    }
}

proof fn lemma_kept_cells(ls: Seq<(Seq<char>, JsonView)>, rules: PathRules)
    requires
        rules.typed.len() == 0,
    ensures
        leaf_cells(ls, rules) is Ok,
        leaves_of(untyped_cells(leaf_cells(ls, rules)->Ok_0, rules.typed)) == kept_leaves(ls, rules),
    decreases ls.len(),
{
    if ls.len() == 0 {
        assert(leaves_of(untyped_cells(leaf_cells(ls, rules)->Ok_0, rules.typed)) =~= Seq::empty());
    } else {
        let hl = ls.drop_last();
        let (path, j) = ls.last();
        lemma_kept_cells(hl, rules);
        lemma_leaf_value(j);
        let head = leaf_cells(hl, rules)->Ok_0;
        let v = leaf_value(j)->Ok_0;
        assert(typed_type(rules.typed, path) is None);
        let hu = untyped_cells(head, rules.typed);
        if !skipped(rules, path) {
            let all = head.push((path, v));
            assert(all.drop_last() =~= head);
            if !(v is Null) {
                assert(untyped_cells(all, rules.typed) == hu.push((path, v)));
                assert(leaves_of(hu.push((path, v))) =~= leaves_of(hu).push(leaf_of(path, v)));
            }
        }
    }
}

/// The leaves that come back of a member, below its name.
spec fn inner_names(j: JsonView, at: Seq<char>, rules: PathRules) -> Seq<Leaf> {
    match j {
        JsonView::Object(x) => all_leaf_names(returned(x, at, rules)),
        _ => match returned_leaf(j, at, rules) {
            None => Seq::empty(),
            Some(w) => seq![(Seq::empty(), w)],
        },
    }
}

/// Whether leaves are those with the given names below a path.
spec fn stand_at(u: Seq<Leaf>, n: Seq<Leaf>, before: Seq<Seq<char>>) -> bool {
    &&& u.len() == n.len()
    &&& forall|i: int|
        0 <= i < u.len() ==> (#[trigger] u[i]).0 == before + n[i].0 && u[i].1 == n[i].1
}

proof fn lemma_kept_one(at: Seq<char>, j: JsonView, rules: PathRules)
    ensures
        kept_leaves(seq![(at, j)], rules) == (match returned_leaf(j, at, rules) {
            None => Seq::<Leaf>::empty(),
            Some(w) => seq![(split_text(at, '.'), w)],
        }),
{
    let b = seq![(at, j)];
    assert(b.drop_last() =~= Seq::<(Seq<char>, JsonView)>::empty());
    assert(kept_leaves(b.drop_last(), rules) == Seq::<Leaf>::empty());
    assert(b.last() == (at, j));
    if let Some(w) = returned_leaf(j, at, rules) {
        assert(Seq::<Leaf>::empty().push((split_text(at, '.'), w)) =~= seq![
            (split_text(at, '.'), w),
        ]);
    }
}

proof fn lemma_pushed_names(head: Members, name: Seq<char>, w: JsonView)
    ensures
        all_leaf_names(head.push((name, w))) == all_leaf_names(head) + under(name, leaf_names(w)),
{
    let m = head.push((name, w));
    assert(m.subrange(0, m.len() - 1) =~= head);
}

proof fn lemma_returned_names(m: Members, path: Seq<char>, rules: PathRules)
    requires
        m.len() > 0,
        all_return(m, path, rules, Seq::empty()),
    ensures
        all_leaf_names(returned(m, path, rules)) == all_leaf_names(
            returned(m.subrange(0, m.len() - 1), path, rules),
        ) + under(m.last().0, inner_names(m.last().1, member_path(path, m.last().0), rules)),
{
    let hr = returned(m.subrange(0, m.len() - 1), path, rules);
    let last = m.last();
    let at = member_path(path, last.0);
    let inner = inner_names(last.1, at, rules);
    lemma_return_head(m, path, rules, Seq::empty());
    match last.1 {
        JsonView::Object(x) => {
            let rx = returned(x, at, rules);
            if rx.len() > 0 {
                lemma_pushed_names(hr, last.0, JsonView::Object(rx));
            } else {
                assert(all_leaf_names(hr) + under(last.0, inner) =~= all_leaf_names(hr));
            }
        },
        _ => match returned_leaf(last.1, at, rules) {
            None => {
                assert(all_leaf_names(hr) + under(last.0, inner) =~= all_leaf_names(hr));
            },
            Some(w) => {
                lemma_pushed_names(hr, last.0, w);
                assert(leaf_names(w) =~= inner);
            },
        },
    }
}

proof fn lemma_kept_child(j: JsonView, at: Seq<char>, rules: PathRules)
    requires
        tidy(j),
        at.len() > 0,
        j matches JsonView::Object(x) ==> all_return(x, at, rules, Seq::empty()),
    ensures
        stand_at(kept_leaves(leaves(j, at), rules), inner_names(j, at, rules), steps(at)),
    decreases j,
{
    match j {
        JsonView::Object(x) => {
            lemma_kept_names(x, at, rules);
        },
        _ => {
            lemma_kept_one(at, j, rules);
            assert(steps(at) + Seq::<Seq<char>>::empty() =~= steps(at));
        },
    }
}

proof fn lemma_kept_names(m: Members, path: Seq<char>, rules: PathRules)
    requires
        tidy(JsonView::Object(m)),
        all_return(m, path, rules, Seq::empty()),
    ensures
        stand_at(
            kept_leaves(member_leaves(m, path), rules),
            all_leaf_names(returned(m, path, rules)),
            steps(path),
        ),
    decreases m,
{
    if m.len() > 0 {
        let head = m.subrange(0, m.len() - 1);
        let last = m.last();
        assert(last == m[m.len() - 1]);
        let at = member_path(path, last.0);
        lemma_tidy_head(m);
        lemma_return_head(m, path, rules, Seq::empty());
        lemma_kept_names(head, path, rules);
        crate::leaf_laws::lemma_steps(path, last.0);
        lemma_kept_child(last.1, at, rules);
        lemma_returned_names(m, path, rules);
        let ua = kept_leaves(member_leaves(head, path), rules);
        let ub = kept_leaves(leaves(last.1, at), rules);
        lemma_kept_append(member_leaves(head, path), leaves(last.1, at), rules);
        let inner = inner_names(last.1, at, rules);
        let na = all_leaf_names(returned(head, path, rules));
        let nb = under(last.0, inner);
        lemma_stand_together(ua, na, ub, inner, steps(path), last.0);
    }
}

proof fn lemma_stand_together(
    ua: Seq<Leaf>,
    na: Seq<Leaf>,
    ub: Seq<Leaf>,
    inner: Seq<Leaf>,
    before: Seq<Seq<char>>,
    name: Seq<char>,
)
    requires
        stand_at(ua, na, before),
        stand_at(ub, inner, before + seq![name]),
    ensures
        stand_at(ua + ub, na + under(name, inner), before),
{
    let u = ua + ub;
    let n = na + under(name, inner);
    assert forall|i: int| 0 <= i < u.len() implies (#[trigger] u[i]).0 == before + n[i].0 && u[i].1
        == n[i].1 by {
        if i < ua.len() {
            assert(u[i] == ua[i] && n[i] == na[i]);
        } else {
            let k = i - ua.len();
            assert(u[i] == ub[k] && n[i] == under(name, inner)[k]);
            assert(ub[k].0 == before + seq![name] + inner[k].0);
            assert(before + seq![name] + inner[k].0 =~= before + (seq![name] + inner[k].0));
        }
    }
}

#[verifier::spinoff_prover]
#[verifier::rlimit(60)]
proof fn lemma_returned_tidy(m: Members, path: Seq<char>, rules: PathRules)
    requires
        tidy(JsonView::Object(m)),
        all_return(m, path, rules, Seq::empty()),
    ensures
        tidy(JsonView::Object(returned(m, path, rules))),
        forall|i: int|
            0 <= i < returned(m, path, rules).len() ==> member_names(m).contains(
                (#[trigger] returned(m, path, rules)[i]).0,
            ),
    decreases m,
{
    let r = returned(m, path, rules);
    if m.len() == 0 {
        assert(member_names(r) =~= Seq::<Seq<char>>::empty());
    } else {
        let head = m.subrange(0, m.len() - 1);
        let last = m.last();
        assert(last == m[m.len() - 1]);
        let at = member_path(path, last.0);
        lemma_tidy_head(m);
        lemma_return_head(m, path, rules, Seq::empty());
        lemma_returned_tidy(head, path, rules);
        let hr = returned(head, path, rules);
        if let JsonView::Object(x) = last.1 {
            lemma_returned_tidy(x, at, rules);
        }
        let names = member_names(m);
        let rn = member_names(r);
        let hn = member_names(hr);
        assert forall|i: int| 0 <= i < r.len() implies names.contains((#[trigger] r[i]).0) by {
            if i < hr.len() {
                assert(r[i] == hr[i]);
                let k = choose|k: int|
                    0 <= k < member_names(head).len() && member_names(head)[k] == hr[i].0;
                assert(names[k] == hr[i].0);
            } else {
                assert(names[m.len() - 1] == last.0);
            }
        }
        assert forall|i: int, j: int| 0 <= i < j < rn.len() implies text_le(rn[i], rn[j]) && rn[i]
            != rn[j] by {
            assert(rn[i] == hn[i]);
            if j < hr.len() {
                assert(rn[j] == hn[j]);
                assert(text_le(hn[i], hn[j]));
            } else {
                assert(r[i] == hr[i]);
                let k = choose|k: int|
                    0 <= k < member_names(head).len() && member_names(head)[k] == hr[i].0;
                assert(names[k] == hr[i].0 && names[m.len() - 1] == last.0);
                assert(text_le(names[k], names[m.len() - 1]));
            }
        }
        assert forall|i: int| 0 <= i < r.len() implies {
            &&& (#[trigger] r[i]).0.len() > 0
            &&& !r[i].0.contains('.')
            &&& !(r[i].1 matches JsonView::Object(x) && x.len() == 0)
            &&& tidy(r[i].1)
        } by {
            if i < hr.len() {
                assert(r[i] == hr[i]);
            }
        }
    }
}

/// The paths that a JSON type leaves out, and the types of paths.
pub open spec fn rules_in(t: TypeView) -> PathRules {
    match t {
        TypeView::JSON { typed_paths, skip_exact, skip_regex, .. } => PathRules {
            typed: typed_paths,
            exact: skip_exact,
            patterns: skip_regex,
        },
        _ => arbitrary(),
    }
}

/// What comes back of an object that is held as a value.
pub open spec fn returned_value(v: ValueView, rules: PathRules) -> ValueView {
    match v {
        ValueView::Json(JsonView::Object(m)) => ValueView::Json(
            JsonView::Object(returned(m, Seq::empty(), rules)),
        ),
        _ => v,
    }
}

/// Whether a value is an object of which all leaves come back, those at paths that share a
/// column in their binary form.
pub open spec fn is_returned(v: ValueView, rules: PathRules, shared: Seq<Seq<char>>) -> bool {
    v matches ValueView::Json(JsonView::Object(m)) && tidy(JsonView::Object(m)) && all_return(
        m,
        Seq::empty(),
        rules,
        shared,
    )
}

proof fn lemma_weaker(m: Members, path: Seq<char>, rules: PathRules, shared: Seq<Seq<char>>)
    requires
        all_return(m, path, rules, shared),
    ensures
        all_return(m, path, rules, Seq::empty()),
{
    let ls = member_leaves(m, path);
    assert forall|i: int|
        0 <= i < ls.len() && returned_leaf((#[trigger] ls[i]).1, ls[i].0, rules) is Some
        implies comes_back(
        leaf_value(ls[i].1)->Ok_0,
        Seq::<Seq<char>>::empty().contains(ls[i].0),
    ) by {
        assert(comes_back(leaf_value(ls[i].1)->Ok_0, shared.contains(ls[i].0)));
    }
}

proof fn lemma_rows_cells(vs: Seq<ValueView>, rules: PathRules, r: int, shared: Seq<Seq<char>>)
    requires
        rules.typed.len() == 0,
        0 <= r < vs.len(),
        forall|i: int| 0 <= i < vs.len() ==> is_returned(#[trigger] vs[i], rules, shared),
    ensures
        rows_cells(vs, rules) is Ok,
        rows_cells(vs, rules)->Ok_0.len() == vs.len(),
        document_of(vs[r]) matches Ok(Some(j)) && leaf_cells(leaves(j, Seq::empty()), rules)
            == Ok::<_, Error>(rows_cells(vs, rules)->Ok_0[r]),
    decreases vs.len(),
{
    let head = vs.drop_last();
    let last = vs[vs.len() - 1];
    assert(is_returned(vs[vs.len() - 1], rules, shared));
    assert(is_returned(vs[r], rules, shared));
    let j = last->Json_0;
    lemma_kept_cells(leaves(j, Seq::empty()), rules);
    if head.len() > 0 {
        assert forall|i: int| 0 <= i < head.len() implies is_returned(#[trigger] head[i], rules, shared) by {
            assert(head[i] == vs[i]);
        }
        lemma_rows_cells(
            head,
            rules,
            if r < head.len() {
                r
            } else {
                0
            },
            shared,
        );
        if r < head.len() {
            assert(head[r] == vs[r]);
        }
    } else {
        assert(rows_cells(head, rules) == Ok::<_, Error>(Seq::<Cells>::empty()));
    }
}

proof fn lemma_cells_come_back(
    ls: Seq<(Seq<char>, JsonView)>,
    rules: PathRules,
    shared: Seq<Seq<char>>,
)
    requires
        rules.typed.len() == 0,
        forall|i: int|
            0 <= i < ls.len() && returned_leaf((#[trigger] ls[i]).1, ls[i].0, rules) is Some
                ==> comes_back(leaf_value(ls[i].1)->Ok_0, shared.contains(ls[i].0)),
    ensures
        leaf_cells(ls, rules) is Ok,
        all_come_back(leaf_cells(ls, rules)->Ok_0, shared),
    decreases ls.len(),
{
    lemma_kept_cells(ls, rules);
    if ls.len() > 0 {
        let hl = ls.drop_last();
        assert forall|i: int|
            0 <= i < hl.len() && returned_leaf((#[trigger] hl[i]).1, hl[i].0, rules) is Some
            implies comes_back(leaf_value(hl[i].1)->Ok_0, shared.contains(hl[i].0)) by {
            assert(hl[i] == ls[i]);
            assert(returned_leaf(ls[i].1, ls[i].0, rules) is Some);
        }
        lemma_cells_come_back(hl, rules, shared);
        let head = leaf_cells(hl, rules)->Ok_0;
        let all = leaf_cells(ls, rules)->Ok_0;
        let (path, j) = ls.last();
        assert(ls[ls.len() - 1] == ls.last());
        lemma_leaf_value(j);
        assert(typed_type(rules.typed, path) is None);
        assert forall|i: int| 0 <= i < all.len() && !((#[trigger] all[i]).1 is Null) implies comes_back(
            all[i].1,
            shared.contains(all[i].0),
        ) by {
            if i < head.len() {
                assert(all[i] == head[i]);
            } else {
                assert(all[i] == (path, leaf_value(j)->Ok_0));
                assert(returned_leaf(ls[ls.len() - 1].1, ls[ls.len() - 1].0, rules) is Some);
            }
        }
    }
}

pub(crate) proof fn lemma_untyped_of_all(
    cells: Cells,
    typed: Seq<(Seq<char>, TypeView)>,
    shared: Seq<Seq<char>>,
)
    requires
        cells_apart(cells),
        all_come_back(cells, shared),
    ensures
        all_come_back(untyped_cells(cells, typed), shared),
{
    let u = untyped_cells(cells, typed);
    lemma_untyped(cells, typed);
    assert forall|i: int| 0 <= i < u.len() && !((#[trigger] u[i]).1 is Null) implies comes_back(
        u[i].1,
        shared.contains(u[i].0),
    ) by {
        assert(u.contains(u[i]));
        let k = choose|k: int| 0 <= k < cells.len() && cells[k] == u[i];
        assert(!(cells[k].1 is Null));
    }
}

pub(crate) proof fn lemma_empty_along(c: Seq<Seq<char>>)
    ensures
        ordered_along(Seq::<(Seq<char>, JsonView)>::empty(), c),
{
    let none: Members = Seq::empty();
    assert(member_names(none) =~= Seq::<Seq<char>>::empty());
    if c.len() > 0 {
        assert(member_value(none, c[0]) is None);
    }
}

pub(crate) proof fn lemma_all_shared(columns: Seq<(Seq<char>, Seq<ValueView>)>, n: nat)
    requires
        forall|r: int| 0 <= r < n ==> #[trigger] shared_row(columns, r) is Ok,
    ensures
        shared_rows(columns, n) is Ok,
    decreases n,
{
    if n > 0 {
        lemma_all_shared(columns, (n - 1) as nat);
        assert(shared_row(columns, n - 1) is Ok);
    }
}

/// What a row of documents without typed paths comes to.
proof fn lemma_row_returns(vs: Seq<ValueView>, rules: PathRules, r: int, shared: Seq<Seq<char>>)
    requires
        rules.typed.len() == 0,
        0 <= r < vs.len(),
        forall|i: int| 0 <= i < vs.len() ==> is_returned(#[trigger] vs[i], rules, shared),
    ensures
        rows_cells(vs, rules) is Ok,
        ({
            let rows = rows_cells(vs, rules)->Ok_0;
            let none: Members = Seq::empty();
            let u = leaves_of(untyped_cells(rows[r], rules.typed));
            &&& rows.len() == vs.len()
            &&& cells_apart(rows[r])
            &&& all_come_back(untyped_cells(rows[r], rules.typed), shared)
            &&& all_ordered(none, u)
            &&& put_names(none, u) is Ok
            &&& returned_value(vs[r], rules) == ValueView::Json(
                JsonView::Object(put_names(none, u)->Ok_0),
            )
        }),
{
    let rows = rows_cells(vs, rules)->Ok_0;
    lemma_rows_cells(vs, rules, r, shared);
    assert(is_returned(vs[r], rules, shared));
    let m = vs[r]->Json_0->Object_0;
    let ls = member_leaves(m, Seq::empty());
    lemma_weaker(m, Seq::empty(), rules, shared);
    law_cells_part(m, rules);
    lemma_cells_come_back(ls, rules, shared);
    lemma_untyped_of_all(rows[r], rules.typed, shared);
    lemma_kept_cells(ls, rules);
    lemma_kept_names(m, Seq::empty(), rules);
    lemma_returned_tidy(m, Seq::empty(), rules);
    let back = returned(m, Seq::empty(), rules);
    lemma_names_make(back);
    let u = leaves_of(untyped_cells(rows[r], rules.typed));
    let n = all_leaf_names(back);
    assert(u =~= n) by {
        assert forall|i: int| 0 <= i < u.len() implies u[i] == n[i] by {
            assert(u[i].0 == steps(Seq::empty()) + n[i].0);
            assert(steps(Seq::empty()) + n[i].0 =~= n[i].0);
        }
    }
    let none: Members = Seq::empty();
    assert forall|i: int| 0 <= i < u.len() implies ordered_along(none, (#[trigger] u[i]).0) by {
        lemma_empty_along(u[i].0);
    }
}

pub(crate) proof fn lemma_documents(b: Block, out: Seq<ValueView>, n: nat)
    requires
        n <= out.len(),
        forall|r: int|
            0 <= r < n ==> (#[trigger] out[r] matches ValueView::Json(JsonView::Object(m)) && row_members(b, r)
                == Ok::<_, Error>(m)),
    ensures
        documents(b, n) == Ok::<_, Error>(out.take(n as int)),
    decreases n,
{
    if n == 0 {
        assert(out.take(0) =~= Seq::<ValueView>::empty());
    } else {
        lemma_documents(b, out, (n - 1) as nat);
        assert(out[n - 1] matches ValueView::Json(JsonView::Object(m)) && row_members(b, n - 1)
            == Ok::<_, Error>(m));
        assert(out.take(n as int) =~= out.take(n - 1).push(out[n - 1]));
    }
}

/// Documents that are written to a column of a type without typed paths come back out of
/// it in every version: with truth values as numbers, and without nulls and the paths
/// that the type leaves out.
pub proof fn law_documents_come_back(
    vs: Seq<ValueView>,
    t: TypeView,
    version: Option<u64>,
    p: JsonParts,
)
    requires
        t is JSON,
        rules_in(t).typed.len() == 0,
        analyzed(vs, t, version) == Ok::<_, Error>(p),
        forall|i: int|
            0 <= i < vs.len() ==> is_returned(#[trigger] vs[i], rules_in(t), shared_names(p)),
    ensures
        documents(block_of(p), vs.len()) == Ok::<_, Error>(
            Seq::new(vs.len(), |i: int| returned_value(vs[i], rules_in(t))),
        ),
        p.rows == vs.len(),
{
    let rules = rules_in(t);
    let out = Seq::new(vs.len(), |i: int| returned_value(vs[i], rules));
    if vs.len() == 0 {
        assert(out =~= Seq::<ValueView>::empty());
        assert(rows_cells(vs, rules) == Ok::<_, Error>(Seq::<Cells>::empty()));
    } else {
        let rows = rows_cells(vs, rules)->Ok_0;
        lemma_row_returns(vs, rules, 0, shared_names(p));
        let max: u32 = match t {
            TypeView::JSON { max_dynamic_paths: Some(n), .. } => n,
            _ => crate::json_columns::DEFAULT_MAX_DYNAMIC_PATHS,
        };
        assert(p == parts_of(rows, rules.typed, max, version));
        let (kept, shared) = split_names(rows, rules.typed, max, version);
        let columns = path_columns(shared, rows);
        lemma_shared_names(rows, rules.typed, max, version);
        let none: Members = Seq::empty();
        assert forall|r: int| 0 <= r < rows.len() implies #[trigger] shared_row(columns, r) is Ok by {
            lemma_row_returns(vs, rules, r, shared);
            lemma_row_untyped(rows, rules.typed, max, version, r, none);
        }
        lemma_all_shared(columns, rows.len());
        assert(shared_columns(p) =~= columns);
        assert forall|r: int| 0 <= r < vs.len() implies (#[trigger] out[r] matches ValueView::Json(
            JsonView::Object(m),
        ) && row_members(block_of(p), r) == Ok::<_, Error>(m)) by {
            lemma_row_returns(vs, rules, r, shared);
            assert(typed_members(p, r) == Ok::<_, Error>(none));
            law_row_comes_back(rows, rules.typed, max, version, r, none);
        }
        lemma_documents(block_of(p), out, vs.len());
        assert(out.take(vs.len() as int) =~= out);
    }
}

/// Whether a leaf is a truth value, an integer as it is held, a finite number or a string.
pub open spec fn is_scalar(j: JsonView) -> bool {
    match j {
        JsonView::Bool(_) => true,
        JsonView::Number(n) => is_plain_number(n),
        JsonView::String(s) => encode_utf8(s).len() <= usize::MAX,
        _ => false,
    }
}

/// Scalars come back: truth values as the numbers one and zero, others as they are.
pub proof fn law_scalars_come_back(j: JsonView)
    requires
        is_scalar(j),
    ensures
        comes_back(leaf_value(j)->Ok_0, true),
        json_of(leaf_value(j)->Ok_0) == Ok::<_, Error>(
            match j {
                JsonView::Bool(b) => JsonView::Number(
                    JsonNumber::PosInt(
                        if b {
                            1
                        } else {
                            0
                        },
                    ),
                ),
                _ => j,
            },
        ),
{
    let v = leaf_value(j)->Ok_0;
    if let JsonView::String(s) = j {
        encode_utf8_valid_utf8(s);
        encode_utf8_decode_utf8(s);
    }
    law_plain_value_reads_back(v, Seq::empty());
    assert(binary_value(v)->0 + Seq::<u8>::empty() =~= binary_value(v)->0);
}

/// What is read of a column of documents that was written is what comes back of them.
pub proof fn law_written_documents_come_back(
    vs: Seq<ValueView>,
    t: TypeView,
    version: Option<u64>,
    server: ServerVersion,
    rest: Seq<u8>,
)
    requires
        t is JSON,
        rules_in(t).typed.len() == 0,
        forall|i: int|
            0 <= i < vs.len() ==> is_returned(
                #[trigger] vs[i],
                rules_in(t),
                shared_names(analyzed(vs, t, version)->Ok_0),
            ),
        analyzed(vs, t, version) is Ok,
        json_reads(analyzed(vs, t, version)->Ok_0),
        written_version(version) == JSON_OBJECT_VERSION_FLATTENED ==> takes_complex_types(server),
    ensures
        whole_bytes(t, vs, version, server) is Ok,
        parsed_whole(whole_bytes(t, vs, version, server)->Ok_0 + rest, t, vs.len()) == Ok::<
            _,
            Error,
        >((Seq::new(vs.len(), |i: int| returned_value(vs[i], rules_in(t))), rest)),
{
    let p = analyzed(vs, t, version)->Ok_0;
    law_documents_come_back(vs, t, version, p);
    lemma_analyzed_version(vs, t, version);
    assert(p.typed_columns.len() == 0);
    lemma_stored_documents(vs, t, version);
    law_json_column_reads_back(t, p, server, rest);
}

pub(crate) proof fn lemma_stored_documents(vs: Seq<ValueView>, t: TypeView, version: Option<u64>)
    requires
        t is JSON,
        analyzed(vs, t, version) is Ok,
        json_reads(analyzed(vs, t, version)->Ok_0),
        typed_shown(
            analyzed(vs, t, version)->Ok_0.typed,
            analyzed(vs, t, version)->Ok_0.typed_columns,
        ),
    ensures
        ({
            let p = analyzed(vs, t, version)->Ok_0;
            documents(stored_block(p), p.rows) == documents(block_of(p), p.rows)
        }),
{
    reveal(json_reads);
    law_analyzed_leaves(vs, t, version);
    law_stored_documents(analyzed(vs, t, version)->Ok_0);
}

pub(crate) proof fn lemma_analyzed_version(vs: Seq<ValueView>, t: TypeView, version: Option<u64>)
    requires
        analyzed(vs, t, version) is Ok,
        t is JSON,
    ensures
        analyzed(vs, t, version)->Ok_0.version == version,
        analyzed(vs, t, version)->Ok_0.typed == typed_paths_in(t),
{
}

} // verus!
