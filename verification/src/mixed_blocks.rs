//! Blocks of documents: their documents are those of the values as they are written.
use vstd::prelude::*;

use crate::column_laws::column_fits;
use crate::columns::field_types;
use crate::dynamic::{
    entries_of, law_values_are_registered, names_of, registry, value_discriminators, values_of_type,
};
use crate::dynamic_laws::law_dynamic_stored;
use crate::json_columns::{
    analyzed, last_cell, parts_of, path_column, path_columns, JsonParts, DEFAULT_MAX_DYNAMIC_PATHS,
};
use crate::json_documents::{documents, row_members, row_settings, with_values, Block};
use crate::json_laws::{block_of, parts_fit, path_fits, stored_block, stored_path, typed_fit};
use crate::json_paths::{
    document_of, leaf_cells, leaf_value, leaf_values, leaves, rows_cells, typed_type, Cells,
    PathRules,
};
use crate::json_value::JsonView;
use crate::leaf_laws::Members;
use crate::mixed_documents::{
    all_leaves, is_leaf, law_leaf_document, law_stored_leaves, leaf_json, lemma_leaf_array,
    lemma_leaf_scalar,
};
use crate::mixed_laws::{is_stored, law_fitting_is_stored, law_stored_len, stored};
use crate::path_laws::law_dynamic_names_are_untyped;
use crate::return_laws::{lemma_last_in, lemma_leaf_value, lemma_split, rules_in, split_names};
use crate::typed_node::json_of;
use crate::types::TypeView;
use crate::values::ValueView;
use crate::variant::rank;

verus! {

// ---------------------------------------------------------------------------
// Columns with the same documents
// ---------------------------------------------------------------------------

/// Whether the values of two columns have the same documents, and the same of them are null.
pub open spec fn is_alike(a: Seq<ValueView>, b: Seq<ValueView>) -> bool {
    &&& a.len() == b.len()
    &&& forall|i: int|
        0 <= i < a.len() ==> json_of(#[trigger] a[i]) == json_of(b[i]) && (a[i] is Null
            <==> b[i] is Null)
}

/// Whether this holds of the columns of two blocks.
pub open spec fn all_alike(a: Seq<Seq<ValueView>>, b: Seq<Seq<ValueView>>) -> bool {
    &&& a.len() == b.len()
    &&& forall|i: int| 0 <= i < a.len() ==> is_alike(#[trigger] a[i], b[i])
}

spec fn settings_alike(
    a: Seq<(Seq<char>, ValueView)>,
    b: Seq<(Seq<char>, ValueView)>,
) -> bool {
    &&& a.len() == b.len()
    &&& forall|i: int|
        0 <= i < a.len() ==> (#[trigger] a[i]).0 == b[i].0 && json_of(a[i].1) == json_of(b[i].1)
}

proof fn lemma_settings_alike(
    names: Seq<Seq<char>>,
    a: Seq<Seq<ValueView>>,
    b: Seq<Seq<ValueView>>,
    r: int,
    n: int,
    nulls: bool,
)
    requires
        all_alike(a, b),
        n <= a.len(),
    ensures
        settings_alike(row_settings(names, a, r, n, nulls), row_settings(names, b, r, n, nulls)),
    decreases n,
{
    if n > 0 {
        lemma_settings_alike(names, a, b, r, n - 1, nulls);
        assert(is_alike(a[n - 1], b[n - 1]));
        if 0 <= r < a[n - 1].len() {
            assert(json_of(a[n - 1][r]) == json_of(b[n - 1][r]));
        }
    }
}

proof fn lemma_values_alike(
    m: Members,
    a: Seq<(Seq<char>, ValueView)>,
    b: Seq<(Seq<char>, ValueView)>,
)
    requires
        settings_alike(a, b),
    ensures
        with_values(m, a) == with_values(m, b),
    decreases a.len(),
{
    if a.len() > 0 {
        let ha = a.drop_last();
        let hb = b.drop_last();
        assert forall|i: int| 0 <= i < ha.len() implies (#[trigger] ha[i]).0 == hb[i].0 && json_of(
            ha[i].1,
        ) == json_of(hb[i].1) by {
            assert(ha[i] == a[i] && hb[i] == b[i]);
        }
        lemma_values_alike(m, ha, hb);
        assert(a[a.len() - 1].0 == b[b.len() - 1].0);
    }
}

/// Blocks whose columns have the same documents make the same documents.
pub proof fn law_alike_blocks(x: Block, y: Block, n: nat)
    requires
        x.typed_names == y.typed_names,
        x.names == y.names,
        x.shared == y.shared,
        x.nulls == y.nulls,
        all_alike(x.typed_columns, y.typed_columns),
        all_alike(x.columns, y.columns),
    ensures
        documents(x, n) == documents(y, n),
    decreases n,
{
    if n > 0 {
        law_alike_blocks(x, y, (n - 1) as nat);
        let r = n - 1;
        let k = x.typed_columns.len() as int;
        let l = x.columns.len() as int;
        let none: Members = Seq::empty();
        let a = row_settings(x.typed_names, x.typed_columns, r, k, x.nulls);
        let b = row_settings(y.typed_names, y.typed_columns, r, k, y.nulls);
        lemma_settings_alike(x.typed_names, x.typed_columns, y.typed_columns, r, k, x.nulls);
        lemma_values_alike(none, a, b);
        let c = row_settings(x.names, x.columns, r, l, false);
        let d = row_settings(y.names, y.columns, r, l, false);
        lemma_settings_alike(x.names, x.columns, y.columns, r, l, false);
        if let Ok(m) = with_values(none, a) {
            lemma_values_alike(m, c, d);
        }
        assert(row_members(x, r) == row_members(y, r));
    }
}

// ---------------------------------------------------------------------------
// Columns as they are written
// ---------------------------------------------------------------------------

proof fn lemma_leaves_alike(a: Seq<ValueView>, b: Seq<ValueView>, i: int, j: int)
    requires
        0 <= i < a.len(),
        0 <= j < b.len(),
        is_leaf(a[i]),
        is_leaf(b[j]),
        leaf_json(a[i]) == leaf_json(b[j]),
    ensures
        json_of(a[i]) == json_of(b[j]),
{
    law_leaf_document(a[i]);
    law_leaf_document(b[j]);
}

proof fn lemma_type_leaves(vs: Seq<ValueView>, names: Seq<Seq<char>>, d: nat)
    requires
        all_leaves(vs),
    ensures
        all_leaves(values_of_type(vs, names, d)),
    decreases vs.len(),
{
    if vs.len() > 0 {
        let head = vs.drop_last();
        assert forall|i: int| 0 <= i < head.len() implies is_leaf(#[trigger] head[i]) by {
            assert(head[i] == vs[i]);
        }
        lemma_type_leaves(head, names, d);
        assert(is_leaf(vs[vs.len() - 1]));
    }
}

proof fn lemma_path_alike(c: Seq<ValueView>, n: nat)
    requires
        path_fits(c, n),
        all_leaves(c),
    ensures
        is_alike(stored_path(c), c),
{
    reveal(path_fits);
    let names = registry(c);
    let entries = entries_of(names);
    assert(names_of(entries) =~= names);
    law_values_are_registered(c);
    let out = stored_path(c);
    let ds = value_discriminators(c, names);
    assert forall|i: int| 0 <= i < out.len() implies json_of(#[trigger] out[i]) == json_of(c[i]) && (
    out[i] is Null <==> c[i] is Null) by {
        law_dynamic_stored(c, entries, i);
        let d = ds[i];
        if d < names.len() {
            let t = field_types(entries)[d as int];
            let group = values_of_type(c, names, d as nat);
            let r = rank(ds, d, i) as int;
            lemma_type_leaves(c, names, d as nat);
            law_stored_len(t, group);
            law_stored_leaves(t, group);
            assert(is_leaf(stored(t, group)[r]));
            lemma_leaves_alike(stored(t, group), c, r, i);
        }
    }
}

/// Whether the columns of the paths with types of their own show as they are written: they
/// hold values of their types, or scalars and arrays and variants of such values.
pub open spec fn typed_shown(
    typed: Seq<(Seq<char>, TypeView)>,
    columns: Seq<Seq<ValueView>>,
) -> bool {
    forall|i: int|
        0 <= i < columns.len() ==> column_fits(typed[i].1, #[trigger] columns[i]) || all_leaves(
            columns[i],
        )
}

proof fn lemma_typed_alike(t: TypeView, c: Seq<ValueView>)
    requires
        is_stored(t, c),
        column_fits(t, c) || all_leaves(c),
    ensures
        is_alike(stored(t, c), c),
{
    if column_fits(t, c) {
        law_fitting_is_stored(t, c);
    } else {
        law_stored_len(t, c);
        law_stored_leaves(t, c);
        let out = stored(t, c);
        assert forall|i: int| 0 <= i < out.len() implies json_of(#[trigger] out[i]) == json_of(c[i]) by {
            assert(is_leaf(out[i]) && is_leaf(c[i]));
            lemma_leaves_alike(out, c, i, i);
        }
    }
}

/// The documents of a block are those of its columns as they are written.
pub proof fn law_stored_documents(p: JsonParts)
    requires
        parts_fit(p),
        typed_shown(p.typed, p.typed_columns),
        forall|i: int| 0 <= i < p.dynamic.len() ==> all_leaves((#[trigger] p.dynamic[i]).1),
    ensures
        documents(stored_block(p), p.rows) == documents(block_of(p), p.rows),
{
    let x = stored_block(p);
    let y = block_of(p);
    assert forall|i: int| 0 <= i < x.typed_columns.len() implies is_alike(
        #[trigger] x.typed_columns[i],
        y.typed_columns[i],
    ) by {
        reveal(typed_fit);
        assert(column_fits(p.typed[i].1, p.typed_columns[i]) || all_leaves(p.typed_columns[i]));
        lemma_typed_alike(p.typed[i].1, p.typed_columns[i]);
    }
    assert forall|i: int| 0 <= i < x.columns.len() implies is_alike(
        #[trigger] x.columns[i],
        y.columns[i],
    ) by {
        assert(path_fits(p.dynamic[i].1, p.rows));
        lemma_path_alike(p.dynamic[i].1, p.rows);
    }
    law_alike_blocks(x, y, p.rows);
}

// ---------------------------------------------------------------------------
// Values of documents
// ---------------------------------------------------------------------------

proof fn lemma_leaf_of(j: JsonView)
    ensures
        leaf_value(j) is Ok,
        is_leaf(leaf_value(j)->Ok_0),
    decreases j,
{
    lemma_leaf_value(j);
    if let JsonView::Array(a) = j {
        lemma_leaves_of(a);
        lemma_leaf_array(leaf_values(a)->Ok_0);
    } else {
        lemma_leaf_scalar(leaf_value(j)->Ok_0);
    }
}

proof fn lemma_leaves_of(s: Seq<JsonView>)
    ensures
        leaf_values(s) is Ok,
        all_leaves(leaf_values(s)->Ok_0),
    decreases s,
{
    if s.len() > 0 {
        lemma_leaves_of(s.subrange(0, s.len() - 1));
        assert(s.last() == s[s.len() - 1]);
        lemma_leaf_of(s[s.len() - 1]);
    }
}

/// Whether the cells of a row at paths without types of their own are scalars and arrays of
/// such values.
spec fn leaf_row(cells: Cells, typed: Seq<(Seq<char>, TypeView)>) -> bool {
    forall|i: int|
        0 <= i < cells.len() && typed_type(typed, (#[trigger] cells[i]).0) is None ==> is_leaf(
            cells[i].1,
        )
}

proof fn lemma_leaf_row(ls: Seq<(Seq<char>, JsonView)>, rules: PathRules)
    requires
        leaf_cells(ls, rules) is Ok,
    ensures
        leaf_row(leaf_cells(ls, rules)->Ok_0, rules.typed),
    decreases ls.len(),
{
    if ls.len() > 0 {
        lemma_leaf_row(ls.drop_last(), rules);
        lemma_leaf_of(ls.last().1);
        let head = leaf_cells(ls.drop_last(), rules)->Ok_0;
        let all = leaf_cells(ls, rules)->Ok_0;
        assert forall|i: int|
            0 <= i < all.len() && typed_type(rules.typed, (#[trigger] all[i]).0) is None implies is_leaf(
            all[i].1,
        ) by {
            if i < head.len() {
                assert(all[i] == head[i]);
            }
        }
    }
}

proof fn lemma_leaf_rows(vs: Seq<ValueView>, rules: PathRules)
    requires
        rows_cells(vs, rules) is Ok,
    ensures
        forall|r: int|
            0 <= r < rows_cells(vs, rules)->Ok_0.len() ==> leaf_row(
                #[trigger] rows_cells(vs, rules)->Ok_0[r],
                rules.typed,
            ),
    decreases vs.len(),
{
    if vs.len() > 0 {
        lemma_leaf_rows(vs.drop_last(), rules);
        let before = rows_cells(vs.drop_last(), rules)->Ok_0;
        let rows = rows_cells(vs, rules)->Ok_0;
        if let Some(j) = document_of(vs.last())->Ok_0 {
            lemma_leaf_row(leaves(j, Seq::empty()), rules);
        }
        assert forall|r: int| 0 <= r < rows.len() implies leaf_row(#[trigger] rows[r], rules.typed) by {
            if r < before.len() {
                assert(rows[r] == before[r]);
            }
        }
    }
}

proof fn lemma_path_leaves(rows: Seq<Cells>, typed: Seq<(Seq<char>, TypeView)>, path: Seq<char>)
    requires
        forall|r: int| 0 <= r < rows.len() ==> leaf_row(#[trigger] rows[r], typed),
        typed_type(typed, path) is None,
    ensures
        all_leaves(path_column(rows, path, ValueView::Null)),
{
    let column = path_column(rows, path, ValueView::Null);
    lemma_leaf_scalar(ValueView::Null);
    assert forall|r: int| 0 <= r < column.len() implies is_leaf(#[trigger] column[r]) by {
        lemma_last_in(rows[r], path);
        assert(leaf_row(rows[r], typed));
        if let Some(v) = last_cell(rows[r], path) {
            let i = choose|i: int| 0 <= i < rows[r].len() && #[trigger] rows[r][i] == (path, v);
            assert(rows[r][i].0 == path);
        }
    }
}

/// The columns that documents are taken apart into, at paths without types of their own,
/// hold scalars and arrays of such values.
pub proof fn law_analyzed_leaves(vs: Seq<ValueView>, t: TypeView, version: Option<u64>)
    requires
        t is JSON,
        analyzed(vs, t, version) is Ok,
    ensures
        forall|i: int|
            0 <= i < analyzed(vs, t, version)->Ok_0.dynamic.len() ==> all_leaves(
                (#[trigger] analyzed(vs, t, version)->Ok_0.dynamic[i]).1,
            ),
{
    let rules = rules_in(t);
    let typed = rules.typed;
    let p = analyzed(vs, t, version)->Ok_0;
    let rows = rows_cells(vs, rules)->Ok_0;
    lemma_leaf_rows(vs, rules);
    let max: u32 = match t {
        TypeView::JSON { max_dynamic_paths: Some(n), .. } => n,
        _ => DEFAULT_MAX_DYNAMIC_PATHS,
    };
    assert(p == parts_of(rows, typed, max, version));
    let (kept, _) = split_names(rows, typed, max, version);
    lemma_split(rows, typed, max, version);
    assert(p.dynamic == path_columns(kept, rows));
    assert forall|i: int| 0 <= i < p.dynamic.len() implies all_leaves((#[trigger] p.dynamic[i]).1) by {
        assert(kept.contains(kept[i]));
        law_dynamic_names_are_untyped(rows, typed, kept[i]);
        lemma_path_leaves(rows, typed, kept[i]);
    }
}

} // verus!
