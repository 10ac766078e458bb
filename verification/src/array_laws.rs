//! Documents of scalars and of arrays, however nested, come back.
use vstd::prelude::*;
use vstd::utf8::encode_utf8;

use crate::column_laws::{plain_prefix, plain_prefixes};
use crate::columns::field_types;
use crate::dynamic::{entries_of, law_registry, registry, strictly_ascending, takes_complex_types};
use crate::dynamic_laws::{dynamic_stored, names_tell};
use crate::error::Error;
use crate::guess::{common, guessed, guesses, law_guesses};
use crate::json_columns::{
    analyzed, dynamic_names, last_cell, parts_of, path_column, path_columns, typed_columns,
    DEFAULT_MAX_DYNAMIC_PATHS, JSON_OBJECT_VERSION_FLATTENED,
};
use crate::json_laws::{header_fits, path_fits, shared_columns, typed_fit};
use crate::json_paths::{
    all_patterns, document_of, leaf_cells, leaf_value, leaves, rows_cells, typed_type, Cells,
    PathRules,
};
use crate::json_value::JsonView;
use crate::json_write::{column_names, is_written_version, sorted_fields, written_version};
use crate::mixed_documents::{
    is_leaf, law_leaf_document, leaf_json, lemma_leaf_array, lemma_leaf_scalar,
};
use crate::mixed_guesses::{
    element_count, elements_in, is_own_value, law_own_values_are_stored, lemma_own_array,
    lemma_sorted_contains, no_null,
};
use crate::name_paths::law_registered_names_tell;
use crate::name_round_trip::{law_type_name_reads_back, name_tells, nests};
use crate::path_laws::law_parts_are_columns;
use crate::return_laws::{
    all_come_back, comes_back, lemma_last_in, lemma_leaf_value, lemma_shared_names, lemma_split,
    lemma_untyped_of_all, rules_in, shared_names, split_names,
};
use crate::scalar_laws::{
    is_scalar_cell, leaf_count, lemma_all_plain, lemma_chosen_len, lemma_dynamic_names_short,
    lemma_name, lemma_names_count, lemma_registry_len, lemma_shared_rows_short, short_row,
};
use crate::type_display::{type_text, zones_named};
use crate::type_order::{law_sorted_types, sorted_types};
use crate::typed_laws::{
    holds_object, law_written_typed_documents_come_back, lemma_rows_part, returned_rows,
    row_returns,
};
use crate::types::TypeView;
use crate::values::ValueView;
use crate::variant::NULL_DISCRIMINATOR;
use crate::whole_columns::{
    dynamic_stores, json_reads, law_mixed_dynamic_column_reads_back, parsed_whole, whole_bytes,
    ServerVersion,
};

verus! {

// ---------------------------------------------------------------------------
// Values
// ---------------------------------------------------------------------------

/// Whether a value is null or a scalar, or an array of such values: of one type without nulls,
/// or of several types, no more than a byte can tell apart beside null.
#[verifier::opaque]
pub open spec fn is_scalar_tree(v: ValueView) -> bool
    decreases v,
{
    match v {
        ValueView::Array(s) => {
            &&& forall|i: int| 0 <= i < s.len() ==> is_scalar_tree(#[trigger] s[i])
            &&& guesses(s).len() <= 1 ==> no_null(s)
            &&& guesses(s).len() < NULL_DISCRIMINATOR
        },
        _ => v is Null || is_scalar_cell(v),
    }
}

/// Whether a value is such a tree of scalars whose type, if it is an array, has a name that is
/// no longer than an index can count.
pub open spec fn is_array_cell(v: ValueView) -> bool {
    is_scalar_tree(v) && (v is Array ==> encode_utf8(type_text(guessed(v))).len() <= usize::MAX)
}

spec fn is_tree_type(t: TypeView) -> bool {
    nests(t) && plain_prefix(t) && zones_named(t)
}

proof fn lemma_tree_types(ts: Seq<TypeView>)
    requires
        ts.len() > 0,
        forall|i: int| 0 <= i < ts.len() ==> is_tree_type(#[trigger] ts[i]),
    ensures
        is_tree_type(TypeView::Variant(ts)),
{
    assert forall|i: int| 0 <= i < ts.len() implies nests(#[trigger] ts[i]) && plain_prefix(ts[i])
        && zones_named(ts[i]) by {
        assert(is_tree_type(ts[i]));
    }
    lemma_all_plain(ts);
}

proof fn lemma_common(ts: Seq<TypeView>)
    requires
        forall|i: int| 0 <= i < ts.len() ==> is_tree_type(#[trigger] ts[i]),
    ensures
        is_tree_type(common(ts)),
{
    if ts.len() == 1 {
        assert(is_tree_type(ts[0]));
    } else if ts.len() > 1 {
        let sorted = sorted_types(ts);
        law_sorted_types(ts);
        assert forall|i: int| 0 <= i < sorted.len() implies is_tree_type(#[trigger] sorted[i]) by {
            lemma_sorted_contains(ts, sorted[i]);
            assert(sorted.contains(sorted[i]));
            let k = choose|k: int| 0 <= k < ts.len() && ts[k] == sorted[i];
            assert(is_tree_type(ts[k]));
        }
        lemma_tree_types(sorted);
    }
}

proof fn lemma_tree(v: ValueView)
    requires
        is_scalar_tree(v),
    ensures
        is_own_value(v),
        is_leaf(v),
        !(v is Null) ==> is_tree_type(guessed(v)),
    decreases v,
{
    reveal(is_scalar_tree);
    if let ValueView::Array(s) = v {
        assert forall|i: int| 0 <= i < s.len() implies is_own_value(#[trigger] s[i]) && is_leaf(
            s[i],
        ) && (s[i] is Null || is_tree_type(guessed(s[i]))) by {
            lemma_tree(s[i]);
        }
        let all = guesses(s);
        law_guesses(s);
        assert forall|k: int| 0 <= k < all.len() implies is_tree_type(#[trigger] all[k]) by {
            assert(all.contains(all[k]));
            let i = choose|i: int|
                0 <= i < s.len() && !(s[i] is Null) && #[trigger] guessed(s[i]) == all[k];
            assert(is_own_value(s[i]));
        }
        lemma_common(all);
        assert(guessed(v) == TypeView::Array(Box::new(common(all))));
        assert forall|k: int| 0 <= k < all.len() implies zones_named(#[trigger] all[k]) by {
            assert(is_tree_type(all[k]));
        }
        lemma_own_array(s);
        lemma_leaf_array(s);
    } else {
        reveal(is_own_value);
        lemma_leaf_scalar(v);
    }
}

/// Null, a scalar or an array of such values is a value of the type that it has of itself, which
/// is told by its name, and it comes back as a document.
pub proof fn law_array_cell(v: ValueView)
    requires
        is_array_cell(v),
    ensures
        is_own_value(v),
        !(v is Null) ==> name_tells(guessed(v)) && plain_prefix(guessed(v)),
        comes_back(v, false),
{
    lemma_tree(v);
    law_leaf_document(v);
    lemma_no_object(v);
}

proof fn lemma_no_object(v: ValueView)
    requires
        is_array_cell(v),
    ensures
        !(leaf_json(v) is Object),
{
    if let ValueView::Array(s) = v {
        lemma_leaf_array(s);
    } else {
        reveal(is_scalar_tree);
        reveal(leaf_json);
    }
}

// ---------------------------------------------------------------------------
// Columns
// ---------------------------------------------------------------------------

/// Columns of nulls, scalars and arrays of them, however nested, can be read back once their
/// types have been found out.
pub proof fn law_array_columns_fit(vs: Seq<ValueView>)
    requires
        forall|i: int| 0 <= i < vs.len() ==> is_array_cell(#[trigger] vs[i]),
        vs.len() <= usize::MAX,
        element_count(vs) <= usize::MAX,
    ensures
        path_fits(vs, vs.len()),
        header_fits(vs),
{
    reveal(path_fits);
    reveal(header_fits);
    let names = registry(vs);
    let entries = entries_of(names);
    let ts = field_types(entries);
    assert forall|i: int| 0 <= i < vs.len() implies is_own_value(#[trigger] vs[i]) && (
    vs[i] is Null || (name_tells(guessed(vs[i])) && plain_prefix(guessed(vs[i])))) by {
        law_array_cell(vs[i]);
    }
    law_registry(vs);
    lemma_registry_len(vs);
    law_registered_names_tell(vs);
    law_own_values_are_stored(vs);
    assert forall|k: int| 0 <= k < entries.len() implies encode_utf8((#[trigger] entries[k]).0).len()
        <= usize::MAX && plain_prefix(entries[k].1) by {
        assert(names.contains(names[k]));
        let i = choose|i: int|
            0 <= i < vs.len() && !(vs[i] is Null) && #[trigger] type_text(guessed(vs[i]))
                == names[k];
        assert(is_array_cell(vs[i]));
        if !(vs[i] is Array) {
            reveal(is_scalar_tree);
            lemma_name(guessed(vs[i]));
        }
        law_type_name_reads_back(guessed(vs[i]));
    }
    assert(names_tell(entries));
    assert forall|k: int| 0 <= k < ts.len() implies plain_prefix(#[trigger] ts[k]) by {
        assert(ts[k] == entries[k].1);
    }
    lemma_all_plain(ts);
}

/// Nulls, scalars and arrays of them, however nested and of one type or of several, that are
/// written to a column of any values are read back as they are written. The limits are those
/// of memory.
pub proof fn law_array_values_read_back(
    t: TypeView,
    vs: Seq<ValueView>,
    version: Option<u64>,
    server: ServerVersion,
    rest: Seq<u8>,
)
    requires
        t is Dynamic,
        takes_complex_types(server),
        forall|i: int| 0 <= i < vs.len() ==> is_array_cell(#[trigger] vs[i]),
        vs.len() <= usize::MAX,
        element_count(vs) <= usize::MAX,
    ensures
        whole_bytes(t, vs, version, server) is Ok,
        parsed_whole(whole_bytes(t, vs, version, server)->Ok_0 + rest, t, vs.len()) == Ok::<
            _,
            Error,
        >((dynamic_stored(vs, entries_of(registry(vs))), rest)),
{
    law_array_columns_fit(vs);
    assert(dynamic_stores(vs)) by {
        reveal(path_fits);
        reveal(header_fits);
        reveal(dynamic_stores);
    }
    law_mixed_dynamic_column_reads_back(t, vs, version, server, rest);
}

// ---------------------------------------------------------------------------
// Rows
// ---------------------------------------------------------------------------

/// Whether the cells of a row are nulls, scalars and arrays of them, at paths that are no
/// longer than an index can count.
pub open spec fn array_row(cells: Cells) -> bool {
    forall|i: int|
        0 <= i < cells.len() ==> is_array_cell((#[trigger] cells[i]).1) && encode_utf8(
            cells[i].0,
        ).len() <= usize::MAX
}

/// How many elements the arrays of a row have together.
pub open spec fn row_elements(cells: Cells) -> nat
    decreases cells.len(),
{
    if cells.len() == 0 {
        0
    } else {
        row_elements(cells.drop_last()) + elements_in(cells.last().1)
    }
}

/// How many elements the arrays of rows have together.
pub open spec fn rows_elements(rows: Seq<Cells>) -> nat
    decreases rows.len(),
{
    if rows.len() == 0 {
        0
    } else {
        rows_elements(rows.drop_last()) + row_elements(rows.last())
    }
}

proof fn lemma_last_elements(cells: Cells, path: Seq<char>)
    ensures
        last_cell(cells, path) matches Some(v) ==> elements_in(v) <= row_elements(cells),
    decreases cells.len(),
{
    if cells.len() > 0 {
        lemma_last_elements(cells.drop_last(), path);
    }
}

proof fn lemma_column_elements(rows: Seq<Cells>, path: Seq<char>)
    ensures
        element_count(path_column(rows, path, ValueView::Null)) <= rows_elements(rows),
    decreases rows.len(),
{
    if rows.len() > 0 {
        let head = rows.drop_last();
        lemma_column_elements(head, path);
        lemma_last_elements(rows.last(), path);
        assert(elements_in(ValueView::Null) == 0);
        let column = path_column(rows, path, ValueView::Null);
        assert(column.subrange(0, column.len() - 1) =~= path_column(head, path, ValueView::Null));
    }
}

proof fn lemma_path_cells(rows: Seq<Cells>, path: Seq<char>)
    requires
        forall|r: int| 0 <= r < rows.len() ==> array_row(#[trigger] rows[r]),
    ensures
        forall|r: int|
            0 <= r < rows.len() ==> is_array_cell(
                #[trigger] path_column(rows, path, ValueView::Null)[r],
            ),
{
    let column = path_column(rows, path, ValueView::Null);
    reveal(is_scalar_tree);
    assert forall|r: int| 0 <= r < column.len() implies is_array_cell(#[trigger] column[r]) by {
        lemma_last_in(rows[r], path);
        assert(array_row(rows[r]));
        if let Some(v) = last_cell(rows[r], path) {
            let i = choose|i: int| 0 <= i < rows[r].len() && #[trigger] rows[r][i] == (path, v);
            assert(is_array_cell(rows[r][i].1));
        }
    }
}

/// Rows of nulls, scalars and arrays of them can be read back where no paths share a column.
#[verifier::spinoff_prover]
#[verifier::rlimit(60)]
pub proof fn law_array_rows_are_read(rows: Seq<Cells>, max_paths: u32, version: Option<u64>)
    requires
        forall|r: int| 0 <= r < rows.len() ==> array_row(#[trigger] rows[r]),
        is_written_version(written_version(version)),
        split_names(rows, Seq::empty(), max_paths, version).1.len() == 0,
        rows.len() <= usize::MAX,
        dynamic_names(rows, Seq::empty()).len() <= usize::MAX,
        rows_elements(rows) <= usize::MAX,
    ensures
        json_reads(parts_of(rows, Seq::empty(), max_paths, version)),
{
    reveal(json_reads);
    reveal(typed_fit);
    let typed = Seq::<(Seq<char>, TypeView)>::empty();
    let p = parts_of(rows, typed, max_paths, version);
    let all = dynamic_names(rows, typed);
    let (names, shared) = split_names(rows, typed, max_paths, version);
    lemma_split(rows, typed, max_paths, version);
    lemma_chosen_len(all, all, rows, max_paths as nat, true);
    law_parts_are_columns(rows, typed, max_paths, version);
    assert(p.dynamic == path_columns(names, rows));
    let columns = path_columns(shared, rows);
    assert(shared_columns(p) =~= columns);
    lemma_shared_rows_short(columns, rows.len());
    assert(strictly_ascending(column_names(columns)));
    assert(rows.len() * columns.len() == 0) by (nonlinear_arith)
        requires
            columns.len() == 0,
    ;
    assert forall|r: int| 0 <= r < rows.len() implies short_row(#[trigger] rows[r], typed) by {
        assert(array_row(rows[r]));
    }
    lemma_dynamic_names_short(rows, typed);
    assert(column_names(p.dynamic) =~= names);
    assert forall|i: int| 0 <= i < names.len() implies encode_utf8(#[trigger] names[i]).len()
        <= usize::MAX by {
        assert(names.contains(names[i]));
        assert(all.contains(names[i]));
        let k = choose|k: int| 0 <= k < all.len() && all[k] == names[i];
        assert(encode_utf8(all[k]).len() <= usize::MAX);
    }
    assert forall|i: int| 0 <= i < p.dynamic.len() implies path_fits(
        (#[trigger] p.dynamic[i]).1,
        p.rows,
    ) && header_fits(p.dynamic[i].1) by {
        lemma_path_cells(rows, names[i]);
        lemma_column_elements(rows, names[i]);
        law_array_columns_fit(p.dynamic[i].1);
    }
    assert(field_types(typed) =~= Seq::<TypeView>::empty());
    assert(sorted_fields(typed) =~= typed);
    assert(typed_columns(rows, typed).len() == 0);
    assert(typed_fit(p.typed, p.typed_columns, p.rows));
    assert(plain_prefixes(Seq::<TypeView>::empty()));
}

// ---------------------------------------------------------------------------
// Documents
// ---------------------------------------------------------------------------

/// Whether leaves become nulls, scalars and arrays of them, at paths that are no longer than
/// an index can count.
pub open spec fn array_leaves(ls: Seq<(Seq<char>, JsonView)>) -> bool {
    forall|k: int|
        0 <= k < ls.len() ==> is_array_cell(leaf_value((#[trigger] ls[k]).1)->Ok_0) && encode_utf8(
            ls[k].0,
        ).len() <= usize::MAX
}

/// Whether a value is null, or an object of nulls, scalars and arrays of them with its members
/// in order.
pub open spec fn array_document(v: ValueView) -> bool {
    holds_object(v) && (document_of(v) matches Ok(Some(j)) ==> array_leaves(
        leaves(j, Seq::empty()),
    ))
}

proof fn lemma_array_cells(ls: Seq<(Seq<char>, JsonView)>, rules: PathRules)
    requires
        rules.typed.len() == 0,
        array_leaves(ls),
    ensures
        leaf_cells(ls, rules) is Ok,
        array_row(leaf_cells(ls, rules)->Ok_0),
    decreases ls.len(),
{
    if ls.len() > 0 {
        let hl = ls.drop_last();
        let last = ls.last();
        assert(ls[ls.len() - 1] == last);
        assert(array_leaves(hl)) by {
            assert forall|k: int| 0 <= k < hl.len() implies is_array_cell(
                leaf_value((#[trigger] hl[k]).1)->Ok_0,
            ) && encode_utf8(hl[k].0).len() <= usize::MAX by {
                assert(hl[k] == ls[k]);
            }
        }
        lemma_array_cells(hl, rules);
        lemma_leaf_value(last.1);
        let head = leaf_cells(hl, rules)->Ok_0;
        let all = leaf_cells(ls, rules)->Ok_0;
        assert(typed_type(rules.typed, last.0) is None);
        assert forall|i: int| 0 <= i < all.len() implies is_array_cell((#[trigger] all[i]).1)
            && encode_utf8(all[i].0).len() <= usize::MAX by {
            if i < head.len() {
                assert(all[i] == head[i]);
            }
        }
    }
}

proof fn lemma_array_documents(vs: Seq<ValueView>, rules: PathRules)
    requires
        rules.typed.len() == 0,
        forall|i: int| 0 <= i < vs.len() ==> array_document(#[trigger] vs[i]),
    ensures
        rows_cells(vs, rules) is Ok,
        rows_cells(vs, rules)->Ok_0.len() == vs.len(),
        forall|r: int| 0 <= r < vs.len() ==> array_row(#[trigger] rows_cells(vs, rules)->Ok_0[r]),
    decreases vs.len(),
{
    if vs.len() > 0 {
        let head = vs.drop_last();
        let last = vs.last();
        assert(vs[vs.len() - 1] == last);
        assert(array_document(vs[vs.len() - 1]));
        assert forall|i: int| 0 <= i < head.len() implies array_document(#[trigger] head[i]) by {
            assert(head[i] == vs[i]);
        }
        lemma_array_documents(head, rules);
        let before = rows_cells(head, rules)->Ok_0;
        if let Some(j) = document_of(last)->Ok_0 {
            lemma_array_cells(leaves(j, Seq::empty()), rules);
        }
        let rows = rows_cells(vs, rules)->Ok_0;
        assert forall|r: int| 0 <= r < rows.len() implies array_row(#[trigger] rows[r]) by {
            if r < before.len() {
                assert(rows[r] == before[r]);
            }
        }
    }
}

/// Documents of scalars and of arrays of them, however nested and of one type or of several,
/// that are written to a column of a type without typed paths are read back, in every version,
/// where no paths share a column: without nulls beside the arrays and the paths that the type
/// leaves out, and with truth values as numbers. The limits are those of memory.
#[verifier::spinoff_prover]
#[verifier::rlimit(40)]
pub proof fn law_array_documents_come_back(
    vs: Seq<ValueView>,
    t: TypeView,
    version: Option<u64>,
    server: ServerVersion,
    rest: Seq<u8>,
)
    requires
        t is JSON,
        rules_in(t).typed.len() == 0,
        all_patterns(rules_in(t).patterns),
        is_written_version(written_version(version)),
        written_version(version) == JSON_OBJECT_VERSION_FLATTENED ==> takes_complex_types(server),
        shared_names(analyzed(vs, t, version)->Ok_0).len() == 0,
        forall|i: int| 0 <= i < vs.len() ==> array_document(#[trigger] vs[i]),
        vs.len() <= usize::MAX,
        leaf_count(vs) <= usize::MAX,
        rows_elements(rows_cells(vs, rules_in(t))->Ok_0) <= usize::MAX,
    ensures
        whole_bytes(t, vs, version, server) is Ok,
        parsed_whole(whole_bytes(t, vs, version, server)->Ok_0 + rest, t, vs.len()) == Ok::<
            _,
            Error,
        >((returned_rows(vs, t, version), rest)),
{
    let rules = rules_in(t);
    let typed = rules.typed;
    assert(typed =~= Seq::<(Seq<char>, TypeView)>::empty());
    lemma_array_documents(vs, rules);
    let rows = rows_cells(vs, rules)->Ok_0;
    lemma_names_count(vs, rules);
    let max: u32 = match t {
        TypeView::JSON { max_dynamic_paths: Some(n), .. } => n,
        _ => DEFAULT_MAX_DYNAMIC_PATHS,
    };
    assert(analyzed(vs, t, version) == Ok::<_, Error>(parts_of(rows, typed, max, version)));
    lemma_shared_names(rows, typed, max, version);
    law_array_rows_are_read(rows, max, version);
    let none = shared_names(analyzed(vs, t, version)->Ok_0);
    assert forall|i: int| 0 <= i < vs.len() implies holds_object(#[trigger] vs[i]) by {
        assert(array_document(vs[i]));
    }
    assert forall|i: int| 0 <= i < vs.len() implies row_returns(#[trigger] rows[i], typed, none) by {
        lemma_rows_part(vs, rules, i);
        assert(array_row(rows[i]));
        assert forall|k: int| 0 <= k < rows[i].len() && !((#[trigger] rows[i][k]).1 is Null) implies comes_back(
            rows[i][k].1,
            none.contains(rows[i][k].0),
        ) by {
            law_array_cell(rows[i][k].1);
        }
        assert(all_come_back(rows[i], none));
        lemma_untyped_of_all(rows[i], typed, none);
    }
    assert(analyzed(vs, t, version)->Ok_0.typed_columns.len() == 0);
    law_written_typed_documents_come_back(vs, t, version, server, rest);
}

} // verus!
