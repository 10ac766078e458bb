//! Documents of scalars come back.
use vstd::prelude::*;
use vstd::utf8::{encode_utf8, is_ascii_chars, is_ascii_chars_encode_utf8};

use crate::binary_value::binary_value;
use crate::cell_laws::cell_fits;
use crate::cells::is_cell_type;
use crate::column_laws::{column_fits, plain_prefix, plain_prefixes};
use crate::columns::field_types;
use crate::dynamic::{
    entries_of, law_registry, law_values_are_registered, lemma_name_index, lemma_name_pos,
    lemma_with_name, names_of, registry, strictly_ascending, takes_complex_types, values_of_type,
    with_name,
};
use crate::dynamic_laws::{law_dynamic_stored_same, names_tell};
use crate::error::Error;
use crate::guess::guessed;
use crate::json_columns::{
    analyzed, chosen_paths, dynamic_names, last_cell, parts_of, path_column, path_columns,
    typed_columns, with_row_names, DEFAULT_MAX_DYNAMIC_PATHS, JSON_OBJECT_VERSION_FLATTENED,
};
use crate::json_laws::{
    entries_short, header_fits, names_short, path_fits, shared_columns, typed_fit,
};
use crate::json_paths::{
    all_patterns, document_of, leaf_cells, leaf_value, leaves, member_leaves, rows_cells,
    typed_type, Cells, PathRules,
};
use crate::json_object::member_names;
use crate::json_value::JsonView;
use crate::json_write::{
    all_entries, column_names, is_written_version, same_prefixes, shared_row, shared_rows,
    sorted_fields, written_version,
};
use crate::leaf_laws::{tidy, Members};
use crate::name_paths::law_registered_names_tell;
use crate::name_round_trip::name_tells;
use crate::path_laws::law_parts_are_columns;
use crate::return_laws::{
    all_come_back, comes_back, is_scalar, law_scalars_come_back, lemma_last_in, lemma_leaf_value,
    lemma_split, lemma_untyped_of_all, rules_in, shared_names, split_names,
};
use crate::type_display::type_text;
use crate::typed_laws::{
    holds_object, law_written_typed_documents_come_back, lemma_rows_part, returned_rows,
    row_returns,
};
use crate::types::TypeView;
use crate::values::ValueView;
use crate::whole_columns::{json_reads, parsed_whole, whole_bytes, ServerVersion};
use crate::wire::{le_bytes, pow128, string_bytes, twos, varuint_bytes};

verus! {

// ---------------------------------------------------------------------------
// Values of scalars
// ---------------------------------------------------------------------------

/// Whether a value is one that a scalar becomes. A string, with its type and its length
/// before it, is no longer than an index can count.
pub open spec fn is_scalar_cell(v: ValueView) -> bool {
    match v {
        ValueView::UInt8(_) | ValueView::Int64(_) | ValueView::UInt64(_) | ValueView::Float64(_) => {
            true
        },
        ValueView::String(b) => b.len() + 11 <= usize::MAX,
        _ => false,
    }
}

proof fn lemma_varuint_len(x: nat, k: nat)
    requires
        k > 0,
        x < pow128(k),
    ensures
        varuint_bytes(x).len() <= k,
    decreases k,
{
    if x >= 128 {
        if k == 1 {
            assert(pow128(1) == 128 * pow128(0));
        } else {
            let p = pow128((k - 1) as nat);
            assert(pow128(k) == 128 * p);
            assert(x / 128 < p) by (nonlinear_arith)
                requires
                    x < 128 * p,
            ;
            lemma_varuint_len(x / 128, (k - 1) as nat);
        }
    }
}

proof fn lemma_le_len(x: nat, n: nat)
    ensures
        le_bytes(x, n).len() == n,
    decreases n,
{
    if n > 0 {
        lemma_le_len(x / 256, (n - 1) as nat);
    }
}

proof fn lemma_short(v: ValueView)
    requires
        is_scalar_cell(v),
    ensures
        binary_value(v) is Some,
        binary_value(v)->0.len() <= usize::MAX,
{
    match v {
        ValueView::UInt8(x) => lemma_le_len(x as nat, 1),
        ValueView::UInt64(x) => lemma_le_len(x as nat, 8),
        ValueView::Float64(x) => lemma_le_len(x as nat, 8),
        ValueView::Int64(x) => lemma_le_len(twos(x as int, 8), 8),
        ValueView::String(b) => {
            assert(u64::MAX < pow128(10)) by {
                reveal_with_fuel(pow128, 11);
            }
            lemma_varuint_len(b.len(), 10);
            assert(string_bytes(b).len() <= 10 + b.len());
        },
        _ => {},
    }
}

pub(crate) proof fn lemma_name(t: TypeView)
    requires
        t is UInt8 || t is Int64 || t is UInt64 || t is Float64 || t is String,
    ensures
        encode_utf8(type_text(t)).len() <= usize::MAX,
{
    reveal_strlit("UInt8");
    reveal_strlit("Int64");
    reveal_strlit("UInt64");
    reveal_strlit("Float64");
    reveal_strlit("String");
    let s = type_text(t);
    assert(is_ascii_chars(s));
    is_ascii_chars_encode_utf8(s);
}

// ---------------------------------------------------------------------------
// Columns of scalars
// ---------------------------------------------------------------------------

/// Whether a column holds scalars and nulls.
pub open spec fn scalar_column(vs: Seq<ValueView>) -> bool {
    forall|i: int| 0 <= i < vs.len() ==> (#[trigger] vs[i]) is Null || is_scalar_cell(vs[i])
}

pub(crate) proof fn lemma_registry_len(vs: Seq<ValueView>)
    ensures
        registry(vs).len() <= vs.len(),
    decreases vs.len(),
{
    if vs.len() > 0 {
        let head = registry(vs.drop_last());
        lemma_registry_len(vs.drop_last());
        lemma_name_pos(head, type_text(guessed(vs.last())), 0);
    }
}

proof fn lemma_values_of_type(vs: Seq<ValueView>, names: Seq<Seq<char>>, d: nat)
    requires
        scalar_column(vs),
    ensures
        forall|i: int|
            0 <= i < values_of_type(vs, names, d).len() ==> {
                let w = #[trigger] values_of_type(vs, names, d)[i];
                is_scalar_cell(w) && d < names.len() && names[d as int] == type_text(guessed(w))
            },
    decreases vs.len(),
{
    if vs.len() > 0 {
        let head = vs.drop_last();
        let last = vs.last();
        assert(vs[vs.len() - 1] == last);
        assert(scalar_column(head)) by {
            assert forall|i: int| 0 <= i < head.len() implies (#[trigger] head[i]) is Null
                || is_scalar_cell(head[i]) by {
                assert(head[i] == vs[i]);
            }
        }
        lemma_values_of_type(head, names, d);
        lemma_name_index(names, type_text(guessed(last)), 0);
        let hv = values_of_type(head, names, d);
        let all = values_of_type(vs, names, d);
        assert forall|i: int| 0 <= i < all.len() implies {
            let w = #[trigger] all[i];
            is_scalar_cell(w) && d < names.len() && names[d as int] == type_text(guessed(w))
        } by {
            if i < hv.len() {
                assert(all[i] == hv[i]);
            }
        }
    }
}

pub(crate) proof fn lemma_all_plain(ts: Seq<TypeView>)
    requires
        forall|i: int| 0 <= i < ts.len() ==> plain_prefix(#[trigger] ts[i]),
    ensures
        plain_prefixes(ts),
    decreases ts.len(),
{
    if ts.len() > 0 {
        let tail = ts.subrange(1, ts.len() as int);
        assert(plain_prefix(ts[0]));
        assert forall|i: int| 0 <= i < tail.len() implies plain_prefix(#[trigger] tail[i]) by {
            assert(tail[i] == ts[i + 1]);
        }
        lemma_all_plain(tail);
    }
}

/// Columns of scalars can be read back once their types have been found out.
pub proof fn law_scalar_columns_fit(vs: Seq<ValueView>)
    requires
        scalar_column(vs),
        vs.len() <= usize::MAX,
    ensures
        path_fits(vs, vs.len()),
        header_fits(vs),
{
    reveal(path_fits);
    reveal(header_fits);
    let names = registry(vs);
    let entries = entries_of(names);
    let ts = field_types(entries);
    law_registry(vs);
    lemma_registry_len(vs);
    assert forall|i: int| 0 <= i < vs.len() && !(vs[i] is Null) implies name_tells(
        guessed(#[trigger] vs[i]),
    ) by {}
    law_registered_names_tell(vs);
    assert forall|k: int| 0 <= k < names.len() implies {
        let t = (#[trigger] entries[k]).1;
        &&& t is UInt8 || t is Int64 || t is UInt64 || t is Float64 || t is String
        &&& names[k] == type_text(t)
    } by {
        assert(names.contains(names[k]));
        let i = choose|i: int|
            0 <= i < vs.len() && !(vs[i] is Null) && #[trigger] type_text(guessed(vs[i]))
                == names[k];
        assert(is_scalar_cell(vs[i]));
        crate::name_round_trip::law_type_name_reads_back(guessed(vs[i]));
    }
    assert(names_tell(entries)) by {
        assert forall|k: int| 0 <= k < entries.len() implies encode_utf8(
            (#[trigger] entries[k]).0,
        ).len() <= usize::MAX by {
            lemma_name(entries[k].1);
        }
    }
    assert forall|k: int| 0 <= k < ts.len() implies plain_prefix(#[trigger] ts[k]) by {
        assert(ts[k] == entries[k].1);
    }
    lemma_all_plain(ts);
    assert forall|k: int| 0 <= k < ts.len() implies column_fits(
        #[trigger] ts[k],
        values_of_type(vs, names, (0 + k) as nat),
    ) by {
        let group = values_of_type(vs, names, k as nat);
        lemma_values_of_type(vs, names, k as nat);
        assert(ts[k] == entries[k].1);
        assert(is_cell_type(ts[k]));
        assert forall|i: int| 0 <= i < group.len() implies cell_fits(#[trigger] group[i], ts[k]) by {
            let w = group[i];
            assert(is_scalar_cell(w));
            crate::name_round_trip::law_type_name_reads_back(guessed(w));
            crate::name_round_trip::law_type_name_reads_back(ts[k]);
            assert(guessed(w) == ts[k]);
        }
    }
    assert(names_of(entries) =~= names);
    law_values_are_registered(vs);
    law_dynamic_stored_same(vs, entries);
}

// ---------------------------------------------------------------------------
// Shared columns of scalars
// ---------------------------------------------------------------------------

/// Whether columns hold scalars and nulls at paths that are no longer than an index can
/// count.
pub open spec fn scalar_columns(columns: Seq<(Seq<char>, Seq<ValueView>)>) -> bool {
    forall|i: int|
        0 <= i < columns.len() ==> scalar_column((#[trigger] columns[i]).1) && encode_utf8(
            columns[i].0,
        ).len() <= usize::MAX
}

proof fn lemma_shared_row_short(columns: Seq<(Seq<char>, Seq<ValueView>)>, r: int)
    requires
        scalar_columns(columns),
    ensures
        shared_row(columns, r) is Ok,
        entries_short(shared_row(columns, r)->Ok_0),
        shared_row(columns, r)->Ok_0.len() <= columns.len(),
    decreases columns.len(),
{
    if columns.len() > 0 {
        let head = columns.drop_last();
        let (name, column) = columns.last();
        assert(columns[columns.len() - 1] == columns.last());
        assert forall|i: int| 0 <= i < head.len() implies scalar_column((#[trigger] head[i]).1)
            && encode_utf8(head[i].0).len() <= usize::MAX by {
            assert(head[i] == columns[i]);
        }
        lemma_shared_row_short(head, r);
        assert(scalar_column(column));
        if 0 <= r < column.len() && !(column[r] is Null) {
            assert(is_scalar_cell(column[r]));
            lemma_short(column[r]);
        }
    }
}

pub(crate) proof fn lemma_shared_rows_short(columns: Seq<(Seq<char>, Seq<ValueView>)>, n: nat)
    requires
        scalar_columns(columns),
    ensures
        shared_rows(columns, n) is Ok,
        entries_short(all_entries(shared_rows(columns, n)->Ok_0)),
        all_entries(shared_rows(columns, n)->Ok_0).len() <= n * columns.len(),
    decreases n,
{
    if n > 0 {
        let m = (n - 1) as nat;
        lemma_shared_rows_short(columns, m);
        lemma_shared_row_short(columns, m as int);
        let head = shared_rows(columns, m)->Ok_0;
        let x = shared_row(columns, m as int)->Ok_0;
        let all = shared_rows(columns, n)->Ok_0;
        assert(all == head.push(x));
        assert(all.drop_last() =~= head);
        let a = all_entries(head);
        assert(all_entries(all) == a + x);
        assert(m * columns.len() + columns.len() == n * columns.len()) by (nonlinear_arith)
            requires
                n == m + 1,
        ;
        assert forall|i: int| 0 <= i < (a + x).len() implies (#[trigger] (a + x)[i]).1.len()
            <= usize::MAX && encode_utf8((a + x)[i].0).len() <= usize::MAX by {
            if i < a.len() {
                assert((a + x)[i] == a[i]);
            } else {
                assert((a + x)[i] == x[i - a.len()]);
            }
        }
    }
}

// ---------------------------------------------------------------------------
// Rows of scalars
// ---------------------------------------------------------------------------

/// Whether the cells of a row at paths without types of their own are scalars and nulls,
/// at paths that are no longer than an index can count.
pub open spec fn scalar_row(cells: Cells, typed: Seq<(Seq<char>, TypeView)>) -> bool {
    forall|i: int|
        0 <= i < cells.len() && typed_type(typed, (#[trigger] cells[i]).0) is None ==> (
        cells[i].1 is Null || is_scalar_cell(cells[i].1)) && encode_utf8(cells[i].0).len()
            <= usize::MAX
}

/// Whether this holds of all rows.
pub open spec fn scalar_rows(rows: Seq<Cells>, typed: Seq<(Seq<char>, TypeView)>) -> bool {
    forall|r: int| 0 <= r < rows.len() ==> scalar_row(#[trigger] rows[r], typed)
}

/// Whether the paths without types of their own of a row are no longer than an index can
/// count.
pub open spec fn short_row(cells: Cells, typed: Seq<(Seq<char>, TypeView)>) -> bool {
    forall|i: int|
        0 <= i < cells.len() && typed_type(typed, (#[trigger] cells[i]).0) is None ==> encode_utf8(
            cells[i].0,
        ).len() <= usize::MAX
}

proof fn lemma_row_names_short(
    names: Seq<Seq<char>>,
    cells: Cells,
    typed: Seq<(Seq<char>, TypeView)>,
)
    requires
        strictly_ascending(names),
        names_short(names),
        short_row(cells, typed),
    ensures
        strictly_ascending(with_row_names(names, cells, typed)),
        names_short(with_row_names(names, cells, typed)),
    decreases cells.len(),
{
    if cells.len() > 0 {
        let hc = cells.drop_last();
        let last = cells.last();
        assert(cells[cells.len() - 1] == last);
        assert(short_row(hc, typed)) by {
            assert forall|i: int|
                0 <= i < hc.len() && typed_type(typed, (#[trigger] hc[i]).0) is None implies encode_utf8(
                hc[i].0,
            ).len() <= usize::MAX by {
                assert(hc[i] == cells[i]);
            }
        }
        lemma_row_names_short(names, hc, typed);
        let head = with_row_names(names, hc, typed);
        if typed_type(typed, last.0) is None {
            lemma_with_name(head, last.0);
            let all = with_name(head, last.0);
            assert forall|i: int| 0 <= i < all.len() implies encode_utf8(#[trigger] all[i]).len()
                <= usize::MAX by {
                assert(all.contains(all[i]));
                if all[i] != last.0 {
                    assert(head.contains(all[i]));
                    let k = choose|k: int| 0 <= k < head.len() && head[k] == all[i];
                    assert(encode_utf8(head[k]).len() <= usize::MAX);
                }
            }
        }
    }
}

pub(crate) proof fn lemma_dynamic_names_short(
    rows: Seq<Cells>,
    typed: Seq<(Seq<char>, TypeView)>,
)
    requires
        forall|r: int| 0 <= r < rows.len() ==> short_row(#[trigger] rows[r], typed),
    ensures
        strictly_ascending(dynamic_names(rows, typed)),
        names_short(dynamic_names(rows, typed)),
    decreases rows.len(),
{
    if rows.len() > 0 {
        let head = rows.drop_last();
        assert(rows[rows.len() - 1] == rows.last());
        assert forall|r: int| 0 <= r < head.len() implies short_row(#[trigger] head[r], typed) by {
            assert(head[r] == rows[r]);
        }
        lemma_dynamic_names_short(head, typed);
        lemma_row_names_short(dynamic_names(head, typed), rows.last(), typed);
    }
}

proof fn lemma_path_column(
    rows: Seq<Cells>,
    typed: Seq<(Seq<char>, TypeView)>,
    path: Seq<char>,
)
    requires
        scalar_rows(rows, typed),
        typed_type(typed, path) is None,
    ensures
        scalar_column(path_column(rows, path, ValueView::Null)),
{
    let column = path_column(rows, path, ValueView::Null);
    assert forall|r: int| 0 <= r < column.len() implies (#[trigger] column[r]) is Null
        || is_scalar_cell(column[r]) by {
        lemma_last_in(rows[r], path);
        assert(scalar_row(rows[r], typed));
        if let Some(v) = last_cell(rows[r], path) {
            let i = choose|i: int| 0 <= i < rows[r].len() && #[trigger] rows[r][i] == (path, v);
            assert(rows[r][i].0 == path);
        }
    }
}

proof fn lemma_path_columns(
    rows: Seq<Cells>,
    typed: Seq<(Seq<char>, TypeView)>,
    names: Seq<Seq<char>>,
)
    requires
        scalar_rows(rows, typed),
        forall|i: int| 0 <= i < names.len() ==> dynamic_names(rows, typed).contains(
            #[trigger] names[i],
        ),
    ensures
        scalar_columns(path_columns(names, rows)),
        names_short(column_names(path_columns(names, rows))),
{
    let all = dynamic_names(rows, typed);
    let columns = path_columns(names, rows);
    assert forall|r: int| 0 <= r < rows.len() implies short_row(#[trigger] rows[r], typed) by {
        assert(scalar_row(rows[r], typed));
    }
    lemma_dynamic_names_short(rows, typed);
    assert forall|i: int| 0 <= i < columns.len() implies scalar_column((#[trigger] columns[i]).1)
        && encode_utf8(columns[i].0).len() <= usize::MAX by {
        assert(all.contains(names[i]));
        let k = choose|k: int| 0 <= k < all.len() && all[k] == names[i];
        assert(encode_utf8(all[k]).len() <= usize::MAX);
        crate::path_laws::law_dynamic_names_are_untyped(rows, typed, names[i]);
        lemma_path_column(rows, typed, names[i]);
    }
    let cn = column_names(columns);
    assert forall|i: int| 0 <= i < cn.len() implies encode_utf8(#[trigger] cn[i]).len()
        <= usize::MAX by {
        assert(cn[i] == columns[i].0);
    }
}

pub(crate) proof fn lemma_chosen_len(
    names: Seq<Seq<char>>,
    all: Seq<Seq<char>>,
    rows: Seq<Cells>,
    limit: nat,
    keep: bool,
)
    ensures
        chosen_paths(names, all, rows, limit, keep).len() <= names.len(),
    decreases names.len(),
{
    if names.len() > 0 {
        lemma_chosen_len(names.drop_last(), all, rows, limit, keep);
    }
}

/// Whether the paths with types of their own can be read back: what stands before their
/// columns is told by their types, the same in the order of the paths and in that of the
/// type, and their columns fit.
pub open spec fn typed_part_reads(
    rows: Seq<Cells>,
    typed: Seq<(Seq<char>, TypeView)>,
) -> bool {
    &&& typed_fit(typed, typed_columns(rows, typed), rows.len())
    &&& same_prefixes(typed)
    &&& plain_prefixes(field_types(typed))
}

/// Rows of scalars can be read back in every version.
#[verifier::spinoff_prover]
#[verifier::rlimit(60)]
pub proof fn law_scalar_rows_are_read(
    rows: Seq<Cells>,
    typed: Seq<(Seq<char>, TypeView)>,
    max_paths: u32,
    version: Option<u64>,
)
    requires
        scalar_rows(rows, typed),
        typed_part_reads(rows, typed),
        is_written_version(written_version(version)),
        rows.len() <= usize::MAX,
        dynamic_names(rows, typed).len() <= usize::MAX,
        rows.len() * dynamic_names(rows, typed).len() <= usize::MAX,
    ensures
        json_reads(parts_of(rows, typed, max_paths, version)),
{
    reveal(json_reads);
    let p = parts_of(rows, typed, max_paths, version);
    let names = dynamic_names(rows, typed);
    let (kept, shared) = split_names(rows, typed, max_paths, version);
    lemma_split(rows, typed, max_paths, version);
    law_parts_are_columns(rows, typed, max_paths, version);
    lemma_chosen_len(names, names, rows, max_paths as nat, true);
    lemma_chosen_len(names, names, rows, max_paths as nat, false);
    assert forall|i: int| 0 <= i < kept.len() implies names.contains(#[trigger] kept[i]) by {
        assert(kept.contains(kept[i]));
    }
    assert forall|i: int| 0 <= i < shared.len() implies names.contains(#[trigger] shared[i]) by {
        assert(shared.contains(shared[i]));
    }
    lemma_path_columns(rows, typed, kept);
    lemma_path_columns(rows, typed, shared);
    let columns = path_columns(shared, rows);
    assert(p.dynamic == path_columns(kept, rows));
    assert(shared_columns(p) =~= columns);
    assert forall|i: int| 0 <= i < p.dynamic.len() implies path_fits(
        (#[trigger] p.dynamic[i]).1,
        p.rows,
    ) && header_fits(p.dynamic[i].1) by {
        law_scalar_columns_fit(p.dynamic[i].1);
    }
    lemma_shared_rows_short(columns, rows.len());
    assert(rows.len() * columns.len() <= rows.len() * names.len()) by (nonlinear_arith)
        requires
            columns.len() <= names.len(),
    ;
    if shared.len() == 0 {
        assert(strictly_ascending(column_names(columns)));
    }
}

// ---------------------------------------------------------------------------
// Documents of scalars
// ---------------------------------------------------------------------------

/// Whether a leaf is null or a scalar, and a string no longer than an index can count
/// with its type and its length.
pub open spec fn is_scalar_leaf(j: JsonView) -> bool {
    j is Null || (is_scalar(j) && (j matches JsonView::String(s) ==> encode_utf8(s).len() + 11
        <= usize::MAX))
}

/// Whether the leaves of a document are scalars and nulls.
pub open spec fn scalar_leaves(ls: Seq<(Seq<char>, JsonView)>) -> bool {
    forall|k: int|
        0 <= k < ls.len() ==> is_scalar_leaf((#[trigger] ls[k]).1) && encode_utf8(ls[k].0).len()
            <= usize::MAX
}

/// Whether a value is null, or an object of scalars with its members in order.
pub open spec fn scalar_document(v: ValueView) -> bool {
    holds_object(v) && (document_of(v) matches Ok(Some(j)) ==> scalar_leaves(
        leaves(j, Seq::empty()),
    ))
}

proof fn lemma_flat_leaves(m: Members)
    requires
        forall|i: int| 0 <= i < m.len() ==> is_scalar_leaf((#[trigger] m[i]).1),
    ensures
        member_leaves(m, Seq::empty()) == m,
    decreases m.len(),
{
    if m.len() > 0 {
        let head = m.subrange(0, m.len() - 1);
        assert(m[m.len() - 1] == m.last());
        assert forall|i: int| 0 <= i < head.len() implies is_scalar_leaf((#[trigger] head[i]).1) by {
            assert(head[i] == m[i]);
        }
        lemma_flat_leaves(head);
        let (name, j) = m.last();
        assert(is_scalar_leaf(j));
        assert(leaves(j, name) == seq![(name, j)]);
        assert(head + seq![(name, j)] =~= m);
        assert(member_leaves(m, Seq::empty()) =~= m);
    } else {
        assert(member_leaves(m, Seq::empty()) =~= m);
    }
}

/// An object of scalars under ordinary names, in order, is a document of scalars with as
/// many leaves as members.
pub proof fn law_flat_object(m: Members)
    requires
        strictly_ascending(member_names(m)),
        forall|i: int|
            0 <= i < m.len() ==> {
                &&& (#[trigger] m[i]).0.len() > 0
                &&& !m[i].0.contains('.')
                &&& encode_utf8(m[i].0).len() <= usize::MAX
                &&& is_scalar_leaf(m[i].1)
            },
    ensures
        scalar_document(ValueView::Json(JsonView::Object(m))),
        leaves(JsonView::Object(m), Seq::empty()).len() == m.len(),
{
    assert forall|i: int| 0 <= i < m.len() implies !((#[trigger] m[i]).1 is Object) && tidy(
        m[i].1,
    ) by {
        assert(is_scalar_leaf(m[i].1));
    }
    lemma_flat_leaves(m);
    assert(leaves(JsonView::Object(m), Seq::empty()) == member_leaves(m, Seq::empty()));
    assert(tidy(JsonView::Object(m)));
}

proof fn lemma_scalar_leaf(j: JsonView)
    requires
        is_scalar_leaf(j),
    ensures
        leaf_value(j) is Ok,
        leaf_value(j)->Ok_0 is Null || (is_scalar_cell(leaf_value(j)->Ok_0) && comes_back(
            leaf_value(j)->Ok_0,
            true,
        )),
{
    if !(j is Null) {
        law_scalars_come_back(j);
        lemma_leaf_value(j);
    }
}

/// Whether all values that are not null come back in their binary form.
pub open spec fn all_in_binary(cells: Cells) -> bool {
    forall|i: int|
        0 <= i < cells.len() && !((#[trigger] cells[i]).1 is Null) ==> comes_back(cells[i].1, true)
}

proof fn lemma_scalar_cells(ls: Seq<(Seq<char>, JsonView)>, rules: PathRules)
    requires
        rules.typed.len() == 0,
        scalar_leaves(ls),
    ensures
        leaf_cells(ls, rules) is Ok,
        scalar_row(leaf_cells(ls, rules)->Ok_0, rules.typed),
        all_in_binary(leaf_cells(ls, rules)->Ok_0),
    decreases ls.len(),
{
    if ls.len() > 0 {
        let hl = ls.drop_last();
        let last = ls.last();
        assert(ls[ls.len() - 1] == last);
        assert(scalar_leaves(hl)) by {
            assert forall|k: int| 0 <= k < hl.len() implies is_scalar_leaf((#[trigger] hl[k]).1)
                && encode_utf8(hl[k].0).len() <= usize::MAX by {
                assert(hl[k] == ls[k]);
            }
        }
        lemma_scalar_cells(hl, rules);
        lemma_scalar_leaf(last.1);
        let head = leaf_cells(hl, rules)->Ok_0;
        let all = leaf_cells(ls, rules)->Ok_0;
        assert(typed_type(rules.typed, last.0) is None);
        assert forall|i: int|
            0 <= i < all.len() && typed_type(rules.typed, (#[trigger] all[i]).0) is None implies (
        all[i].1 is Null || is_scalar_cell(all[i].1)) && encode_utf8(all[i].0).len()
            <= usize::MAX by {
            if i < head.len() {
                assert(all[i] == head[i]);
            }
        }
        assert forall|i: int| 0 <= i < all.len() && !((#[trigger] all[i]).1 is Null) implies comes_back(
            all[i].1,
            true,
        ) by {
            if i < head.len() {
                assert(all[i] == head[i]);
            }
        }
    }
}

proof fn lemma_scalar_documents(vs: Seq<ValueView>, rules: PathRules)
    requires
        rules.typed.len() == 0,
        forall|i: int| 0 <= i < vs.len() ==> scalar_document(#[trigger] vs[i]),
    ensures
        rows_cells(vs, rules) is Ok,
        rows_cells(vs, rules)->Ok_0.len() == vs.len(),
        scalar_rows(rows_cells(vs, rules)->Ok_0, rules.typed),
        forall|r: int|
            0 <= r < vs.len() ==> all_in_binary(#[trigger] rows_cells(vs, rules)->Ok_0[r]),
    decreases vs.len(),
{
    if vs.len() > 0 {
        let head = vs.drop_last();
        let last = vs.last();
        assert(vs[vs.len() - 1] == last);
        assert(scalar_document(vs[vs.len() - 1]));
        assert forall|i: int| 0 <= i < head.len() implies scalar_document(#[trigger] head[i]) by {
            assert(head[i] == vs[i]);
        }
        lemma_scalar_documents(head, rules);
        let before = rows_cells(head, rules)->Ok_0;
        if let Some(j) = document_of(last)->Ok_0 {
            lemma_scalar_cells(leaves(j, Seq::empty()), rules);
        }
        let rows = rows_cells(vs, rules)->Ok_0;
        assert(rows.drop_last() =~= before);
        assert forall|r: int| 0 <= r < rows.len() implies scalar_row(
            #[trigger] rows[r],
            rules.typed,
        ) && all_in_binary(rows[r]) by {
            if r < before.len() {
                assert(rows[r] == before[r]);
            }
        }
    }
}

/// How many leaves the documents of values have.
pub open spec fn leaf_count(vs: Seq<ValueView>) -> nat
    decreases vs.len(),
{
    if vs.len() == 0 {
        0
    } else {
        leaf_count(vs.drop_last()) + match document_of(vs.last()) {
            Ok(Some(j)) => leaves(j, Seq::empty()).len(),
            _ => 0,
        }
    }
}

proof fn lemma_cells_count(ls: Seq<(Seq<char>, JsonView)>, rules: PathRules)
    requires
        leaf_cells(ls, rules) is Ok,
    ensures
        leaf_cells(ls, rules)->Ok_0.len() <= ls.len(),
    decreases ls.len(),
{
    if ls.len() > 0 {
        lemma_cells_count(ls.drop_last(), rules);
    }
}

proof fn lemma_row_names_count(
    names: Seq<Seq<char>>,
    cells: Cells,
    typed: Seq<(Seq<char>, TypeView)>,
)
    ensures
        with_row_names(names, cells, typed).len() <= names.len() + cells.len(),
    decreases cells.len(),
{
    if cells.len() > 0 {
        lemma_row_names_count(names, cells.drop_last(), typed);
        lemma_name_pos(with_row_names(names, cells.drop_last(), typed), cells.last().0, 0);
    }
}

pub(crate) proof fn lemma_names_count(vs: Seq<ValueView>, rules: PathRules)
    requires
        rows_cells(vs, rules) is Ok,
    ensures
        rows_cells(vs, rules)->Ok_0.len() == vs.len(),
        dynamic_names(rows_cells(vs, rules)->Ok_0, rules.typed).len() <= leaf_count(vs),
    decreases vs.len(),
{
    if vs.len() > 0 {
        let head = vs.drop_last();
        lemma_names_count(head, rules);
        let rows = rows_cells(vs, rules)->Ok_0;
        let before = rows_cells(head, rules)->Ok_0;
        assert(rows.drop_last() =~= before);
        if let Some(j) = document_of(vs.last())->Ok_0 {
            lemma_cells_count(leaves(j, Seq::empty()), rules);
        }
        lemma_row_names_count(dynamic_names(before, rules.typed), rows.last(), rules.typed);
    }
}

proof fn lemma_fewer_forms(cells: Cells, shared: Seq<Seq<char>>)
    requires
        all_in_binary(cells),
    ensures
        all_come_back(cells, shared),
{
    assert forall|i: int| 0 <= i < cells.len() && !((#[trigger] cells[i]).1 is Null) implies comes_back(
        cells[i].1,
        shared.contains(cells[i].0),
    ) by {
        assert(comes_back(cells[i].1, true));
    }
}

proof fn lemma_scalar_analysis(
    vs: Seq<ValueView>,
    t: TypeView,
    version: Option<u64>,
    rows: Seq<Cells>,
)
    requires
        t is JSON,
        rules_in(t).typed.len() == 0,
        all_patterns(rules_in(t).patterns),
        is_written_version(written_version(version)),
        rows_cells(vs, rules_in(t)) == Ok::<_, Error>(rows),
        scalar_rows(rows, rules_in(t).typed),
        rows.len() <= usize::MAX,
        dynamic_names(rows, rules_in(t).typed).len() <= usize::MAX,
        rows.len() * dynamic_names(rows, rules_in(t).typed).len() <= usize::MAX,
    ensures
        analyzed(vs, t, version) is Ok,
        json_reads(analyzed(vs, t, version)->Ok_0),
{
    let typed = rules_in(t).typed;
    let max: u32 = match t {
        TypeView::JSON { max_dynamic_paths: Some(n), .. } => n,
        _ => DEFAULT_MAX_DYNAMIC_PATHS,
    };
    assert(analyzed(vs, t, version) == Ok::<_, Error>(parts_of(rows, typed, max, version)));
    assert(typed =~= Seq::<(Seq<char>, TypeView)>::empty());
    assert(field_types(typed) =~= Seq::<TypeView>::empty());
    assert(sorted_fields(typed) =~= typed);
    assert(typed_columns(rows, typed).len() == typed.len());
    reveal(typed_fit);
    assert(typed_fit(typed, typed_columns(rows, typed), rows.len()));
    assert(plain_prefixes(Seq::<TypeView>::empty()));
    assert(typed_part_reads(rows, typed));
    law_scalar_rows_are_read(rows, typed, max, version);
}

/// Documents of scalars that are written to a column of a type without typed paths are
/// read back, in every version: without nulls and the paths that the type leaves out,
/// and with truth values as numbers. The limits are those of memory.
#[verifier::spinoff_prover]
#[verifier::rlimit(40)]
pub proof fn law_scalar_documents_come_back(
    vs: Seq<ValueView>,
    t: TypeView,
    version: Option<u64>,
    server: ServerVersion,
    rest: Seq<u8>,
)
    requires
        t is JSON,
        rules_in(t).typed.len() == 0,
        all_patterns(rules_in(t).patterns),
        is_written_version(written_version(version)),
        forall|i: int| 0 <= i < vs.len() ==> scalar_document(#[trigger] vs[i]),
        vs.len() <= usize::MAX,
        leaf_count(vs) <= usize::MAX,
        vs.len() * leaf_count(vs) <= usize::MAX,
        written_version(version) == JSON_OBJECT_VERSION_FLATTENED ==> takes_complex_types(server),
    ensures
        whole_bytes(t, vs, version, server) is Ok,
        parsed_whole(whole_bytes(t, vs, version, server)->Ok_0 + rest, t, vs.len()) == Ok::<
            _,
            Error,
        >((returned_rows(vs, t, version), rest)),
{
    let rules = rules_in(t);
    let typed = rules.typed;
    lemma_scalar_documents(vs, rules);
    let rows = rows_cells(vs, rules)->Ok_0;
    lemma_names_count(vs, rules);
    let n = dynamic_names(rows, typed).len();
    assert(rows.len() * n <= vs.len() * leaf_count(vs)) by (nonlinear_arith)
        requires
            rows.len() == vs.len(),
            n <= leaf_count(vs),
    ;
    lemma_scalar_analysis(vs, t, version, rows);
    assert forall|i: int| 0 <= i < vs.len() implies holds_object(#[trigger] vs[i]) by {
        assert(scalar_document(vs[i]));
    }
    let shared = shared_names(analyzed(vs, t, version)->Ok_0);
    assert forall|i: int| 0 <= i < vs.len() implies row_returns(
        #[trigger] rows[i],
        typed,
        shared,
    ) by {
        lemma_rows_part(vs, rules, i);
        lemma_fewer_forms(rows[i], shared);
        lemma_untyped_of_all(rows[i], typed, shared);
    }
    assert(analyzed(vs, t, version)->Ok_0.typed_columns.len() == 0);
    law_written_typed_documents_come_back(vs, t, version, server, rest);
}

} // verus!
