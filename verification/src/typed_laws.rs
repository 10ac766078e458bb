//! What comes back of documents at paths with types of their own, and beside them.
use vstd::prelude::*;

use crate::coerce::fitted;
use crate::dynamic::takes_complex_types;
use crate::error::Error;
use crate::json_columns::{
    analyzed, fill_of, last_cell, last_type, parts_of, path_columns, typed_columns, JsonParts,
    DEFAULT_MAX_DYNAMIC_PATHS, JSON_OBJECT_VERSION_FLATTENED,
};
use crate::json_documents::{documents, row_members, row_settings, typed_names, with_values};
use crate::json_laws::{block_of, shared_columns};
use crate::json_object::{
    law_nested_value, law_with_member, member_names, member_value, nested_value, ordered_along,
    with_nested,
};
use crate::json_paths::{
    document_cells, document_of, leaf_cell, leaf_cells, leaf_value, leaves, rows_cells, typed_type,
    Cells, PathRules,
};
use crate::json_value::JsonView;
use crate::json_write::{has_shared, shared_row, written_version};
use crate::leaf_laws::{lemma_put_append, put_names, tidy, Leaf, Members};
use crate::mixed_blocks::typed_shown;
use crate::order_laws::{
    all_apart, all_ordered, apart, below, lemma_apart_sym, lemma_below_ordered, lemma_move_last,
    lemma_not_apart, lemma_order_kept, lemma_order_kept_all,
};
use crate::return_laws::{
    all_come_back, cells_apart, comes_back, law_cells_part, law_row_comes_back, leaf_of, leaves_of,
    lemma_all_shared, lemma_analyzed_version, lemma_documents, lemma_empty_along, lemma_last_cell,
    lemma_row_untyped, lemma_shared_names, lemma_stored_documents, lemma_untyped, lemma_with_values,
    rules_in, shared_names, split_names, typed_members, untyped_cells,
};
use crate::text::split_text;
use crate::typed_node::json_of;
use crate::types::TypeView;
use crate::values::ValueView;
use crate::whole_columns::{
    json_reads, law_json_column_reads_back, parsed_whole, whole_bytes, ServerVersion,
};

verus! {

// ---------------------------------------------------------------------------
// Leaves whose paths part
// ---------------------------------------------------------------------------

/// Whether nothing but objects is in the way along a path.
pub open spec fn is_open(m: Members, c: Seq<Seq<char>>) -> bool
    decreases c.len(),
{
    c.len() > 0 && (c.len() > 1 ==> match member_value(m, c[0]) {
        None => true,
        Some(JsonView::Object(x)) => is_open(x, c.skip(1)),
        Some(_) => false,
    })
}

proof fn lemma_empty_open(c: Seq<Seq<char>>)
    requires
        c.len() > 0,
    ensures
        is_open(Seq::<(Seq<char>, JsonView)>::empty(), c),
{
    let none: Members = Seq::empty();
    assert(member_names(none) =~= Seq::<Seq<char>>::empty());
    assert(member_value(none, c[0]) is None);
}

proof fn lemma_below_open(m: Members, c: Seq<Seq<char>>)
    requires
        is_open(m, c),
        c.len() > 1,
    ensures
        is_open(below(m, c[0]), c.skip(1)),
{
    if member_value(m, c[0]) is None {
        lemma_empty_open(c.skip(1));
    }
}

proof fn lemma_open_set(m: Members, c: Seq<Seq<char>>, x: JsonView)
    requires
        is_open(m, c),
    ensures
        with_nested(m, c, x) is Ok,
    decreases c.len(),
{
    if c.len() > 1 {
        lemma_below_open(m, c);
        lemma_open_set(below(m, c[0]), c.skip(1), x);
    }
}

proof fn lemma_open_kept(m: Members, a: Seq<Seq<char>>, x: JsonView, c: Seq<Seq<char>>)
    requires
        ordered_along(m, a),
        ordered_along(m, c),
        apart(a, c),
        is_open(m, a),
        is_open(m, c),
    ensures
        with_nested(m, a, x) is Ok,
        is_open(with_nested(m, a, x)->Ok_0, c),
    decreases a.len(),
{
    lemma_open_set(m, a, x);
    if a[0] == c[0] {
        assert(apart(a.skip(1), c.skip(1)));
        assert(a.skip(1).len() > 0 && c.skip(1).len() > 0);
    }
    if a.len() == 1 {
        law_with_member(m, a[0], x, c[0]);
    } else {
        lemma_below_open(m, a);
        lemma_open_set(below(m, a[0]), a.skip(1), x);
        let inner = with_nested(below(m, a[0]), a.skip(1), x)->Ok_0;
        law_with_member(m, a[0], JsonView::Object(inner), c[0]);
        if a[0] == c[0] {
            lemma_below_ordered(m, a);
            lemma_below_ordered(m, c);
            lemma_below_open(m, c);
            lemma_open_kept(below(m, a[0]), a.skip(1), x, c.skip(1));
        }
    }
}

proof fn lemma_apart_head(ls: Seq<Leaf>)
    requires
        ls.len() > 0,
        all_apart(ls),
    ensures
        all_apart(ls.drop_last()),
        forall|i: int|
            0 <= i < ls.len() - 1 ==> apart((#[trigger] ls.drop_last()[i]).0, ls.last().0),
{
    let head = ls.drop_last();
    assert forall|i: int, j: int|
        0 <= i < head.len() && 0 <= j < head.len() && i != j implies apart(
        (#[trigger] head[i]).0,
        (#[trigger] head[j]).0,
    ) by {
        assert(apart(ls[i].0, ls[j].0));
    }
    assert forall|i: int| 0 <= i < head.len() implies apart((#[trigger] head[i]).0, ls.last().0) by {
        assert(apart(ls[i].0, ls[ls.len() - 1].0));
    }
}

/// Leaves whose paths part can be set one after the other, and leave other paths open.
proof fn lemma_put_apart(m: Members, ls: Seq<Leaf>, c: Seq<Seq<char>>)
    requires
        all_apart(ls),
        all_ordered(m, ls),
        forall|i: int| 0 <= i < ls.len() ==> is_open(m, (#[trigger] ls[i]).0),
        ordered_along(m, c),
        is_open(m, c),
        forall|i: int| 0 <= i < ls.len() ==> apart((#[trigger] ls[i]).0, c),
    ensures
        put_names(m, ls) is Ok,
        is_open(put_names(m, ls)->Ok_0, c),
        ordered_along(put_names(m, ls)->Ok_0, c),
    decreases ls.len(),
{
    if ls.len() > 0 {
        let head = ls.drop_last();
        let last = ls.last();
        lemma_apart_head(ls);
        assert(ls[ls.len() - 1] == last);
        assert forall|i: int| 0 <= i < head.len() implies ordered_along(m, (#[trigger] head[i]).0)
            && is_open(m, head[i].0) && apart(head[i].0, c) by {
            assert(head[i] == ls[i]);
        }
        lemma_put_apart(m, head, c);
        lemma_put_apart(m, head, last.0);
        let w = put_names(m, head)->Ok_0;
        lemma_open_kept(w, last.0, last.1, c);
        lemma_order_kept(w, last.0, last.1, c);
    }
}

/// Whether no path is empty.
pub open spec fn all_paths(ls: Seq<Leaf>) -> bool {
    forall|i: int| 0 <= i < ls.len() ==> (#[trigger] ls[i]).0.len() > 0
}

/// Leaves whose paths part make an object, and each is found in it at its path.
pub proof fn law_apart_leaves_make_an_object(ls: Seq<Leaf>, k: int)
    requires
        all_apart(ls),
        all_paths(ls),
    ensures
        put_names(Seq::empty(), ls) is Ok,
        0 <= k < ls.len() ==> nested_value(put_names(Seq::empty(), ls)->Ok_0, ls[k].0) == Some(
            ls[k].1,
        ),
{
    let none: Members = Seq::empty();
    assert forall|i: int| 0 <= i < ls.len() implies ordered_along(none, (#[trigger] ls[i]).0)
        && is_open(none, ls[i].0) by {
        lemma_empty_along(ls[i].0);
        lemma_empty_open(ls[i].0);
    }
    if ls.len() > 0 {
        let head = ls.drop_last();
        let last = ls.last();
        assert(ls[ls.len() - 1] == last);
        lemma_apart_head(ls);
        assert forall|i: int| 0 <= i < head.len() implies ordered_along(
            none,
            (#[trigger] head[i]).0,
        ) && is_open(none, head[i].0) by {
            assert(head[i] == ls[i]);
        }
        lemma_put_apart(none, head, last.0);
        lemma_open_set(put_names(none, head)->Ok_0, last.0, last.1);
    }
    if 0 <= k < ls.len() {
        lemma_found_at(ls, k);
    }
}

proof fn lemma_found_at(ls: Seq<Leaf>, k: int)
    requires
        all_apart(ls),
        all_paths(ls),
        put_names(Seq::empty(), ls) is Ok,
        0 <= k < ls.len(),
    ensures
        nested_value(put_names(Seq::empty(), ls)->Ok_0, ls[k].0) == Some(ls[k].1),
{
    let none: Members = Seq::empty();
    assert forall|i: int| 0 <= i < ls.len() implies ordered_along(none, (#[trigger] ls[i]).0)
        && is_open(none, ls[i].0) by {
        lemma_empty_along(ls[i].0);
        lemma_empty_open(ls[i].0);
    }
    lemma_move_last(none, ls, k);
    let rest = ls.remove(k);
    let moved = rest.push(ls[k]);
    assert(moved.drop_last() =~= rest);
    assert(moved.last() == ls[k]);
    assert forall|i: int| 0 <= i < rest.len() implies ordered_along(none, (#[trigger] rest[i]).0)
        && is_open(none, rest[i].0) && apart(rest[i].0, ls[k].0) by {
        let p = if i < k {
            i
        } else {
            i + 1
        };
        assert(rest[i] == ls[p]);
        assert(apart(ls[p].0, ls[k].0));
    }
    assert(all_apart(rest)) by {
        assert forall|i: int, j: int|
            0 <= i < rest.len() && 0 <= j < rest.len() && i != j implies apart(
            (#[trigger] rest[i]).0,
            (#[trigger] rest[j]).0,
        ) by {
            let p = if i < k {
                i
            } else {
                i + 1
            };
            let q = if j < k {
                j
            } else {
                j + 1
            };
            assert(rest[i] == ls[p] && rest[j] == ls[q]);
            assert(apart(ls[p].0, ls[q].0));
        }
    }
    assert(ordered_along(none, ls[k].0));
    lemma_put_apart(none, rest, ls[k].0);
    law_nested_value(put_names(none, rest)->Ok_0, ls[k].0, ls[k].1);
}

// ---------------------------------------------------------------------------
// Paths with types of their own
// ---------------------------------------------------------------------------

/// Whether paths with types of their own part.
pub open spec fn typed_apart(typed: Seq<(Seq<char>, TypeView)>) -> bool {
    forall|i: int, j: int|
        0 <= i < typed.len() && 0 <= j < typed.len() && i != j ==> apart(
            split_text((#[trigger] typed[i]).0, '.'),
            split_text((#[trigger] typed[j]).0, '.'),
        )
}

/// The value of a row at a path with a type of its own: what the document has there, or
/// what stands for a value that is not there.
pub open spec fn typed_value(cells: Cells, typed: Seq<(Seq<char>, TypeView)>, i: int) -> ValueView {
    match last_cell(cells, typed[i].0) {
        Some(v) => v,
        None => fill_of(typed[i].1),
    }
}

/// The values of a row at the first `n` paths with types of their own; nulls are kept or
/// left out.
pub open spec fn typed_settings(
    cells: Cells,
    typed: Seq<(Seq<char>, TypeView)>,
    n: int,
    nulls: bool,
) -> Cells
    decreases n,
{
    if n <= 0 {
        Seq::empty()
    } else {
        let head = typed_settings(cells, typed, n - 1, nulls);
        let v = typed_value(cells, typed, n - 1);
        if nulls || !(v is Null) {
            head.push((typed[n - 1].0, v))
        } else {
            head
        }
    }
}

/// All values of which the document of a row is made again: those at paths with types of
/// their own, and then the others.
pub open spec fn row_values(
    cells: Cells,
    typed: Seq<(Seq<char>, TypeView)>,
    nulls: bool,
) -> Cells {
    typed_settings(cells, typed, typed.len() as int, nulls) + untyped_cells(cells, typed)
}

/// What comes back of a row.
pub open spec fn returned_row(
    cells: Cells,
    typed: Seq<(Seq<char>, TypeView)>,
    nulls: bool,
) -> Members {
    put_names(Seq::empty(), leaves_of(row_values(cells, typed, nulls)))->Ok_0
}

/// Whether a row comes back: its values do, those at paths that share a column in their binary
/// form, and the paths with types of their own lead neither to nor past one of its other
/// paths.
pub open spec fn row_returns(
    cells: Cells,
    typed: Seq<(Seq<char>, TypeView)>,
    shared: Seq<Seq<char>>,
) -> bool {
    &&& all_come_back(untyped_cells(cells, typed), shared)
    &&& forall|i: int|
        0 <= i < typed.len() ==> json_of(#[trigger] typed_value(cells, typed, i)) is Ok
    &&& forall|i: int, j: int|
        0 <= i < typed.len() && 0 <= j < untyped_cells(cells, typed).len() ==> apart(
            split_text((#[trigger] typed[i]).0, '.'),
            split_text((#[trigger] untyped_cells(cells, typed)[j]).0, '.'),
        )
}

proof fn lemma_row_weaker(
    cells: Cells,
    typed: Seq<(Seq<char>, TypeView)>,
    shared: Seq<Seq<char>>,
)
    requires
        row_returns(cells, typed, shared),
    ensures
        row_returns(cells, typed, Seq::empty()),
{
    let u = untyped_cells(cells, typed);
    assert forall|i: int| 0 <= i < u.len() && !((#[trigger] u[i]).1 is Null) implies comes_back(
        u[i].1,
        Seq::<Seq<char>>::empty().contains(u[i].0),
    ) by {
        assert(comes_back(u[i].1, shared.contains(u[i].0)));
    }
}

proof fn lemma_last_type(typed: Seq<(Seq<char>, TypeView)>, i: int)
    requires
        typed_apart(typed),
        0 <= i < typed.len(),
    ensures
        last_type(typed, typed[i].0) == Some(typed[i].1),
    decreases typed.len(),
{
    let n = typed.len() - 1;
    assert(typed.last() == typed[n]);
    if i < n {
        assert(apart(split_text(typed[i].0, '.'), split_text(typed[n].0, '.')));
        lemma_not_apart(split_text(typed[i].0, '.'));
        let head = typed.drop_last();
        assert(typed_apart(head)) by {
            assert forall|p: int, q: int|
                0 <= p < head.len() && 0 <= q < head.len() && p != q implies apart(
                split_text((#[trigger] head[p]).0, '.'),
                split_text((#[trigger] head[q]).0, '.'),
            ) by {
                assert(head[p] == typed[p] && head[q] == typed[q]);
                assert(apart(split_text(typed[p].0, '.'), split_text(typed[q].0, '.')));
            }
        }
        assert(head[i] == typed[i]);
        lemma_last_type(head, i);
    }
}

/// The values that are read of a row at paths with types of their own.
proof fn lemma_typed_settings(
    rows: Seq<Cells>,
    typed: Seq<(Seq<char>, TypeView)>,
    r: int,
    n: int,
    nulls: bool,
)
    requires
        typed_apart(typed),
        0 <= r < rows.len(),
        0 <= n <= typed.len(),
    ensures
        row_settings(typed_names(typed), typed_columns(rows, typed), r, n, nulls)
            == typed_settings(rows[r], typed, n, nulls),
    decreases n,
{
    if n > 0 {
        lemma_typed_settings(rows, typed, r, n - 1, nulls);
        lemma_last_type(typed, n - 1);
        let column = typed_columns(rows, typed)[n - 1];
        assert(column[r] == typed_value(rows[r], typed, n - 1));
    }
}

proof fn lemma_settings_at(
    cells: Cells,
    typed: Seq<(Seq<char>, TypeView)>,
    n: int,
    nulls: bool,
)
    requires
        typed_apart(typed),
        0 <= n <= typed.len(),
    ensures
        cells_apart(typed_settings(cells, typed, n, nulls)),
        forall|k: int|
            0 <= k < typed_settings(cells, typed, n, nulls).len() ==> exists|i: int|
                0 <= i < n && (#[trigger] typed[i]).0 == (#[trigger] typed_settings(
                    cells,
                    typed,
                    n,
                    nulls,
                )[k]).0 && typed_settings(cells, typed, n, nulls)[k].1 == typed_value(
                    cells,
                    typed,
                    i,
                ),
        forall|i: int|
            0 <= i < n && (nulls || !(typed_value(cells, typed, i) is Null)) ==> typed_settings(
                cells,
                typed,
                n,
                nulls,
            ).contains(((#[trigger] typed[i]).0, typed_value(cells, typed, i))),
    decreases n,
{
    if n > 0 {
        lemma_settings_at(cells, typed, n - 1, nulls);
        let head = typed_settings(cells, typed, n - 1, nulls);
        let all = typed_settings(cells, typed, n, nulls);
        let v = typed_value(cells, typed, n - 1);
        assert forall|k: int| 0 <= k < all.len() implies exists|i: int|
            0 <= i < n && (#[trigger] typed[i]).0 == (#[trigger] all[k]).0 && all[k].1
                == typed_value(cells, typed, i) by {
            if k < head.len() {
                assert(all[k] == head[k]);
                let i = choose|i: int|
                    0 <= i < n - 1 && (#[trigger] typed[i]).0 == head[k].0 && head[k].1
                        == typed_value(cells, typed, i);
                assert(typed[i].0 == all[k].0);
            } else {
                assert(typed[n - 1].0 == all[k].0);
            }
        }
        assert forall|i: int|
            0 <= i < n && (nulls || !(typed_value(cells, typed, i) is Null)) implies all.contains(
            ((#[trigger] typed[i]).0, typed_value(cells, typed, i)),
        ) by {
            if i < n - 1 {
                let e = (typed[i].0, typed_value(cells, typed, i));
                assert(head.contains(e));
                let k = choose|k: int| 0 <= k < head.len() && head[k] == e;
                assert(all[k] == e);
            } else {
                assert(all[all.len() - 1] == (typed[i].0, v));
            }
        }
        assert forall|p: int, q: int| 0 <= p < all.len() && 0 <= q < all.len() && p != q implies apart(
            split_text((#[trigger] all[p]).0, '.'),
            split_text((#[trigger] all[q]).0, '.'),
        ) by {
            if p < head.len() && q < head.len() {
                assert(all[p] == head[p] && all[q] == head[q]);
                assert(apart(split_text(head[p].0, '.'), split_text(head[q].0, '.')));
            } else {
                let k = if p < head.len() {
                    p
                } else {
                    q
                };
                assert(all[k] == head[k]);
                let i = choose|i: int|
                    0 <= i < n - 1 && (#[trigger] typed[i]).0 == head[k].0 && head[k].1
                        == typed_value(cells, typed, i);
                assert(apart(split_text(typed[i].0, '.'), split_text(typed[n - 1].0, '.')));
                lemma_apart_sym(split_text(typed[i].0, '.'), split_text(typed[n - 1].0, '.'));
            }
        }
    }
}

/// The leaves of a row that comes back part at their paths.
proof fn lemma_row_apart(cells: Cells, typed: Seq<(Seq<char>, TypeView)>, nulls: bool)
    requires
        typed_apart(typed),
        cells_apart(cells),
        row_returns(cells, typed, Seq::empty()),
    ensures
        all_apart(leaves_of(row_values(cells, typed, nulls))),
        all_paths(leaves_of(row_values(cells, typed, nulls))),
        forall|i: int|
            0 <= i < typed_settings(cells, typed, typed.len() as int, nulls).len() ==> json_of(
                (#[trigger] typed_settings(cells, typed, typed.len() as int, nulls)[i]).1,
            ) is Ok,
{
    let n = typed.len() as int;
    let a = typed_settings(cells, typed, n, nulls);
    let b = untyped_cells(cells, typed);
    let all = row_values(cells, typed, nulls);
    let ls = leaves_of(all);
    lemma_settings_at(cells, typed, n, nulls);
    lemma_untyped(cells, typed);
    assert forall|i: int, j: int| 0 <= i < all.len() && 0 <= j < all.len() && i != j implies apart(
        split_text((#[trigger] all[i]).0, '.'),
        split_text((#[trigger] all[j]).0, '.'),
    ) by {
        if i < a.len() && j < a.len() {
            assert(all[i] == a[i] && all[j] == a[j]);
            assert(apart(split_text(a[i].0, '.'), split_text(a[j].0, '.')));
        } else if i >= a.len() && j >= a.len() {
            assert(all[i] == b[i - a.len()] && all[j] == b[j - a.len()]);
            assert(apart(split_text(b[i - a.len()].0, '.'), split_text(b[j - a.len()].0, '.')));
        } else {
            let p = if i < a.len() {
                i
            } else {
                j
            };
            let q = if i < a.len() {
                j
            } else {
                i
            };
            assert(all[p] == a[p] && all[q] == b[q - a.len()]);
            let k = choose|k: int|
                0 <= k < n && (#[trigger] typed[k]).0 == a[p].0 && a[p].1 == typed_value(
                    cells,
                    typed,
                    k,
                );
            assert(apart(split_text(typed[k].0, '.'), split_text(b[q - a.len()].0, '.')));
            lemma_apart_sym(split_text(all[p].0, '.'), split_text(all[q].0, '.'));
        }
    }
    assert forall|i: int, j: int| 0 <= i < ls.len() && 0 <= j < ls.len() && i != j implies apart(
        (#[trigger] ls[i]).0,
        (#[trigger] ls[j]).0,
    ) by {
        assert(apart(split_text(all[i].0, '.'), split_text(all[j].0, '.')));
    }
    assert forall|i: int| 0 <= i < ls.len() implies (#[trigger] ls[i]).0.len() > 0 by {
        crate::text::lemma_split_nonempty(all[i].0, '.');
    }
    assert forall|i: int| 0 <= i < a.len() implies json_of((#[trigger] a[i]).1) is Ok by {
        let k = choose|k: int|
            0 <= k < n && (#[trigger] typed[k]).0 == a[i].0 && a[i].1 == typed_value(
                cells,
                typed,
                k,
            );
        assert(json_of(typed_value(cells, typed, k)) is Ok);
    }
}

/// In what comes back of a row, each path with a type of its own leads to the value that
/// the row has there, or to what stands for a value that is not there.
pub proof fn law_typed_value_comes_back(
    cells: Cells,
    typed: Seq<(Seq<char>, TypeView)>,
    nulls: bool,
    i: int,
)
    requires
        typed_apart(typed),
        cells_apart(cells),
        row_returns(cells, typed, Seq::empty()),
        0 <= i < typed.len(),
        nulls || !(typed_value(cells, typed, i) is Null),
    ensures
        nested_value(returned_row(cells, typed, nulls), split_text(typed[i].0, '.')) == Some(
            json_of(typed_value(cells, typed, i))->Ok_0,
        ),
{
    let n = typed.len() as int;
    let a = typed_settings(cells, typed, n, nulls);
    let all = row_values(cells, typed, nulls);
    let e = (typed[i].0, typed_value(cells, typed, i));
    lemma_row_apart(cells, typed, nulls);
    lemma_settings_at(cells, typed, n, nulls);
    assert(a.contains(e));
    let k = choose|k: int| 0 <= k < a.len() && a[k] == e;
    assert(all[k] == e);
    law_apart_leaves_make_an_object(leaves_of(all), k);
    assert(leaves_of(all)[k] == leaf_of(e.0, e.1));
}

/// In what comes back of a row, each other path leads to the value that the row has there.
pub proof fn law_other_value_comes_back(
    cells: Cells,
    typed: Seq<(Seq<char>, TypeView)>,
    nulls: bool,
    j: int,
)
    requires
        typed_apart(typed),
        cells_apart(cells),
        row_returns(cells, typed, Seq::empty()),
        0 <= j < untyped_cells(cells, typed).len(),
    ensures
        ({
            let (path, v) = untyped_cells(cells, typed)[j];
            nested_value(returned_row(cells, typed, nulls), split_text(path, '.')) == Some(
                json_of(v)->Ok_0,
            )
        }),
{
    let a = typed_settings(cells, typed, typed.len() as int, nulls);
    let all = row_values(cells, typed, nulls);
    let e = untyped_cells(cells, typed)[j];
    lemma_row_apart(cells, typed, nulls);
    assert(all[a.len() + j] == e);
    law_apart_leaves_make_an_object(leaves_of(all), a.len() + j);
    assert(leaves_of(all)[a.len() + j] == leaf_of(e.0, e.1));
}

// ---------------------------------------------------------------------------
// Documents
// ---------------------------------------------------------------------------

/// Whether a value is null, or an object with its members in order.
pub open spec fn holds_object(v: ValueView) -> bool {
    match document_of(v) {
        Ok(None) => true,
        Ok(Some(JsonView::Object(m))) => tidy(JsonView::Object(m)),
        _ => false,
    }
}

pub(crate) proof fn lemma_rows_part(vs: Seq<ValueView>, rules: PathRules, r: int)
    requires
        0 <= r < vs.len(),
        rows_cells(vs, rules) is Ok,
        forall|i: int| 0 <= i < vs.len() ==> holds_object(#[trigger] vs[i]),
    ensures
        rows_cells(vs, rules)->Ok_0.len() == vs.len(),
        document_of(vs[r]) is Ok,
        document_cells(document_of(vs[r])->Ok_0, rules) == Ok::<_, Error>(
            rows_cells(vs, rules)->Ok_0[r],
        ),
        cells_apart(rows_cells(vs, rules)->Ok_0[r]),
    decreases vs.len(),
{
    let head = vs.drop_last();
    let last = vs[vs.len() - 1];
    assert(vs.last() == last);
    assert(holds_object(vs[vs.len() - 1]));
    let rows = rows_cells(vs, rules)->Ok_0;
    if head.len() > 0 {
        assert forall|i: int| 0 <= i < head.len() implies holds_object(#[trigger] head[i]) by {
            assert(head[i] == vs[i]);
        }
        lemma_rows_part(
            head,
            rules,
            if r < head.len() {
                r
            } else {
                0
            },
        );
    } else {
        assert(rows_cells(head, rules) == Ok::<_, Error>(Seq::<Cells>::empty()));
    }
    if r < head.len() {
        assert(head[r] == vs[r]);
        assert(rows[r] == rows_cells(head, rules)->Ok_0[r]);
    } else {
        match document_of(last)->Ok_0 {
            Some(JsonView::Object(m)) => law_cells_part(m, rules),
            _ => {},
        }
    }
}

/// The value of a row at a path with a type of its own is what the document has there,
/// made to fit the type, and else what stands in a column of the type for a value that is
/// not there: null where the type takes it, and the value that the type starts with.
pub proof fn law_typed_value(v: ValueView, rules: PathRules, i: int)
    requires
        typed_apart(rules.typed),
        0 <= i < rules.typed.len(),
        document_of(v) matches Ok(Some(JsonView::Object(m))) && tidy(JsonView::Object(m)),
        document_cells(document_of(v)->Ok_0, rules) is Ok,
    ensures
        ({
            let (path, t) = rules.typed[i];
            let ls = leaves(document_of(v)->Ok_0->0, Seq::empty());
            let found = typed_value(
                document_cells(document_of(v)->Ok_0, rules)->Ok_0,
                rules.typed,
                i,
            );
            &&& forall|k: int|
                0 <= k < ls.len() && (#[trigger] ls[k]).0 == path ==> leaf_value(ls[k].1) is Ok
                    && fitted(leaf_value(ls[k].1)->Ok_0, t) == Ok::<_, Error>(found)
            &&& (forall|k: int| 0 <= k < ls.len() ==> (#[trigger] ls[k]).0 != path) ==> found
                == fill_of(t)
        }),
{
    let (path, t) = rules.typed[i];
    let j = document_of(v)->Ok_0->0;
    let ls = leaves(j, Seq::empty());
    let cells = leaf_cells(ls, rules)->Ok_0;
    law_cells_part(j->Object_0, rules);
    lemma_last_cell(cells, path);
    lemma_first_type(rules.typed, i);
    lemma_cells_of_leaves(ls, rules, path);
    assert forall|k: int| 0 <= k < ls.len() && (#[trigger] ls[k]).0 == path implies leaf_value(
        ls[k].1,
    ) is Ok && fitted(leaf_value(ls[k].1)->Ok_0, t) == Ok::<_, Error>(
        typed_value(cells, rules.typed, i),
    ) by {
        let x = fitted(leaf_value(ls[k].1)->Ok_0, t)->Ok_0;
        assert(cells.contains((path, x)));
        assert(last_cell(cells, path) == Some(x));
    }
    if forall|k: int| 0 <= k < ls.len() ==> (#[trigger] ls[k]).0 != path {
        if let Some(x) = last_cell(cells, path) {
            assert(cells.contains((path, x)));
        }
    }
}

proof fn lemma_first_type(typed: Seq<(Seq<char>, TypeView)>, i: int)
    requires
        typed_apart(typed),
        0 <= i < typed.len(),
    ensures
        typed_type(typed, typed[i].0) == Some(typed[i].1),
    decreases typed.len(),
{
    if i > 0 {
        assert(apart(split_text(typed[0].0, '.'), split_text(typed[i].0, '.')));
        lemma_not_apart(split_text(typed[i].0, '.'));
        let tail = typed.skip(1);
        assert(typed_apart(tail)) by {
            assert forall|p: int, q: int|
                0 <= p < tail.len() && 0 <= q < tail.len() && p != q implies apart(
                split_text((#[trigger] tail[p]).0, '.'),
                split_text((#[trigger] tail[q]).0, '.'),
            ) by {
                assert(tail[p] == typed[p + 1] && tail[q] == typed[q + 1]);
                assert(apart(split_text(typed[p + 1].0, '.'), split_text(typed[q + 1].0, '.')));
            }
        }
        assert(tail[i - 1] == typed[i]);
        lemma_first_type(tail, i - 1);
    }
}

proof fn lemma_cells_of_leaves(ls: Seq<(Seq<char>, JsonView)>, rules: PathRules, path: Seq<char>)
    requires
        leaf_cells(ls, rules) is Ok,
        typed_type(rules.typed, path) is Some,
    ensures
        forall|k: int|
            0 <= k < ls.len() && (#[trigger] ls[k]).0 == path ==> {
                let t = typed_type(rules.typed, path)->0;
                &&& leaf_value(ls[k].1) is Ok
                &&& fitted(leaf_value(ls[k].1)->Ok_0, t) is Ok
                &&& leaf_cells(ls, rules)->Ok_0.contains(
                    (path, fitted(leaf_value(ls[k].1)->Ok_0, t)->Ok_0),
                )
            },
        forall|v: ValueView|
            #[trigger] leaf_cells(ls, rules)->Ok_0.contains((path, v)) ==> exists|k: int|
                0 <= k < ls.len() && (#[trigger] ls[k]).0 == path,
    decreases ls.len(),
{
    if ls.len() > 0 {
        let hl = ls.drop_last();
        let last = ls.last();
        assert(ls[ls.len() - 1] == last);
        lemma_cells_of_leaves(hl, rules, path);
        let head = leaf_cells(hl, rules)->Ok_0;
        let all = leaf_cells(ls, rules)->Ok_0;
        let t = typed_type(rules.typed, path)->0;
        assert forall|k: int| 0 <= k < ls.len() && (#[trigger] ls[k]).0 == path implies {
            &&& leaf_value(ls[k].1) is Ok
            &&& fitted(leaf_value(ls[k].1)->Ok_0, t) is Ok
            &&& all.contains((path, fitted(leaf_value(ls[k].1)->Ok_0, t)->Ok_0))
        } by {
            if k < hl.len() {
                assert(hl[k] == ls[k]);
                let e = (path, fitted(leaf_value(ls[k].1)->Ok_0, t)->Ok_0);
                assert(head.contains(e));
                let p = choose|p: int| 0 <= p < head.len() && head[p] == e;
                assert(all[p] == e);
            } else {
                assert(leaf_cell(last, rules) is Some);
                assert(all[all.len() - 1] == (
                    path,
                    fitted(leaf_value(ls[k].1)->Ok_0, t)->Ok_0,
                ));
            }
        }
        assert forall|v: ValueView| #[trigger] all.contains((path, v)) implies exists|k: int|
            0 <= k < ls.len() && (#[trigger] ls[k]).0 == path by {
            let p = choose|p: int| 0 <= p < all.len() && all[p] == (path, v);
            if p < head.len() {
                assert(head[p] == (path, v));
                assert(head.contains((path, v)));
                let k = choose|k: int| 0 <= k < hl.len() && (#[trigger] hl[k]).0 == path;
                assert(ls[k] == hl[k]);
            } else {
                assert(ls[ls.len() - 1].0 == path);
            }
        }
    }
}

/// Documents that are written to a column come back out of it in every version: of each
/// row, the values at the paths that have types of their own, and the others that are
/// not null.
pub proof fn law_typed_documents_come_back(
    vs: Seq<ValueView>,
    t: TypeView,
    version: Option<u64>,
    p: JsonParts,
)
    requires
        t is JSON,
        typed_apart(rules_in(t).typed),
        analyzed(vs, t, version) == Ok::<_, Error>(p),
        forall|i: int| 0 <= i < vs.len() ==> holds_object(#[trigger] vs[i]),
        forall|i: int|
            0 <= i < vs.len() ==> row_returns(
                #[trigger] rows_cells(vs, rules_in(t))->Ok_0[i],
                rules_in(t).typed,
                shared_names(p),
            ),
    ensures
        documents(block_of(p), vs.len()) == Ok::<_, Error>(
            returned_rows(vs, t, version),
        ),
        p.rows == vs.len(),
{
    let rules = rules_in(t);
    let typed = rules.typed;
    let rows = rows_cells(vs, rules)->Ok_0;
    let nulls = has_shared(written_version(version));
    let out = returned_rows(vs, t, version);
    if vs.len() == 0 {
        assert(out =~= Seq::<ValueView>::empty());
        assert(rows_cells(vs, rules) == Ok::<_, Error>(Seq::<Cells>::empty()));
    } else {
        lemma_rows_part(vs, rules, 0);
        let max: u32 = match t {
            TypeView::JSON { max_dynamic_paths: Some(n), .. } => n,
            _ => DEFAULT_MAX_DYNAMIC_PATHS,
        };
        assert(p == parts_of(rows, typed, max, version));
        let (kept, shared) = split_names(rows, typed, max, version);
        let columns = path_columns(shared, rows);
        lemma_shared_names(rows, typed, max, version);
        assert forall|r: int| 0 <= r < rows.len() implies #[trigger] shared_row(columns, r) is Ok by {
            assert(row_returns(rows[r], typed, shared));
            lemma_row_weaker(rows[r], typed, shared);
            lemma_rows_part(vs, rules, r);
            let base = lemma_row_base(rows, typed, r, nulls);
            lemma_row_untyped(rows, typed, max, version, r, base);
        }
        lemma_all_shared(columns, rows.len());
        assert(shared_columns(p) =~= columns);
        assert forall|r: int| 0 <= r < vs.len() implies (#[trigger] out[r] matches ValueView::Json(
            JsonView::Object(m),
        ) && row_members(block_of(p), r) == Ok::<_, Error>(m)) by {
            assert(row_returns(rows[r], typed, shared));
            lemma_row_weaker(rows[r], typed, shared);
            lemma_rows_part(vs, rules, r);
            let base = lemma_row_base(rows, typed, r, nulls);
            assert(block_of(p).typed_names == typed_names(typed));
            assert(typed_members(p, r) == Ok::<_, Error>(base));
            law_row_comes_back(rows, typed, max, version, r, base);
        }
        lemma_documents(block_of(p), out, vs.len());
        assert(out.take(vs.len() as int) =~= out);
    }
}

/// What comes back of each row of a column of documents.
pub open spec fn returned_rows(vs: Seq<ValueView>, t: TypeView, version: Option<u64>) -> Seq<
    ValueView,
> {
    Seq::new(
        vs.len(),
        |r: int|
            ValueView::Json(
                JsonView::Object(
                    returned_row(
                        rows_cells(vs, rules_in(t))->Ok_0[r],
                        rules_in(t).typed,
                        has_shared(written_version(version)),
                    ),
                ),
            ),
    )
}

proof fn lemma_row_base(
    rows: Seq<Cells>,
    typed: Seq<(Seq<char>, TypeView)>,
    r: int,
    nulls: bool,
) -> (base: Members)
    requires
        0 <= r < rows.len(),
        typed_apart(typed),
        cells_apart(rows[r]),
        row_returns(rows[r], typed, Seq::empty()),
    ensures
        with_values(
            Seq::empty(),
            row_settings(
                typed_names(typed),
                typed_columns(rows, typed),
                r,
                typed.len() as int,
                nulls,
            ),
        ) == Ok::<_, Error>(base),
        all_ordered(base, leaves_of(untyped_cells(rows[r], typed))),
        put_names(base, leaves_of(untyped_cells(rows[r], typed))) == Ok::<_, Error>(
            returned_row(rows[r], typed, nulls),
        ),
{
    let none: Members = Seq::empty();
    let cells = rows[r];
    let n = typed.len() as int;
    let a = typed_settings(cells, typed, n, nulls);
    let b = untyped_cells(cells, typed);
    let all = row_values(cells, typed, nulls);
    let ls = leaves_of(all);
    let la = leaves_of(a);
    let lb = leaves_of(b);
    lemma_row_apart(cells, typed, nulls);
    law_apart_leaves_make_an_object(ls, 0);
    assert(ls =~= la + lb);
    lemma_put_append(none, la, lb);
    let base = put_names(none, la)->Ok_0;
    lemma_typed_settings(rows, typed, r, n, nulls);
    lemma_with_values(none, a);
    assert(all_ordered(none, la)) by {
        assert forall|i: int| 0 <= i < la.len() implies ordered_along(none, (#[trigger] la[i]).0) by {
            lemma_empty_along(la[i].0);
        }
    }
    assert(all_apart(la)) by {
        assert forall|i: int, j: int| 0 <= i < la.len() && 0 <= j < la.len() && i != j implies apart(
            (#[trigger] la[i]).0,
            (#[trigger] la[j]).0,
        ) by {
            assert(ls[i] == la[i] && ls[j] == la[j]);
            assert(apart(ls[i].0, ls[j].0));
        }
    }
    assert forall|k: int| 0 <= k < lb.len() implies ordered_along(base, (#[trigger] lb[k]).0) by {
        assert forall|i: int| 0 <= i < la.len() implies apart((#[trigger] la[i]).0, lb[k].0) by {
            assert(ls[i] == la[i] && ls[la.len() + k] == lb[k]);
            assert(apart(ls[i].0, ls[la.len() + k].0));
        }
        lemma_empty_along(lb[k].0);
        lemma_order_kept_all(none, la, lb[k].0);
    }
    base
}

/// What is read of a column of documents that was written is what comes back of them.
pub proof fn law_written_typed_documents_come_back(
    vs: Seq<ValueView>,
    t: TypeView,
    version: Option<u64>,
    server: ServerVersion,
    rest: Seq<u8>,
)
    requires
        t is JSON,
        typed_apart(rules_in(t).typed),
        forall|i: int| 0 <= i < vs.len() ==> holds_object(#[trigger] vs[i]),
        analyzed(vs, t, version) is Ok,
        forall|i: int|
            0 <= i < vs.len() ==> row_returns(
                #[trigger] rows_cells(vs, rules_in(t))->Ok_0[i],
                rules_in(t).typed,
                shared_names(analyzed(vs, t, version)->Ok_0),
            ),
        json_reads(analyzed(vs, t, version)->Ok_0),
        typed_shown(
            analyzed(vs, t, version)->Ok_0.typed,
            analyzed(vs, t, version)->Ok_0.typed_columns,
        ),
        written_version(version) == JSON_OBJECT_VERSION_FLATTENED ==> takes_complex_types(server),
    ensures
        whole_bytes(t, vs, version, server) is Ok,
        parsed_whole(whole_bytes(t, vs, version, server)->Ok_0 + rest, t, vs.len()) == Ok::<
            _,
            Error,
        >((returned_rows(vs, t, version), rest)),
{
    let p = analyzed(vs, t, version)->Ok_0;
    law_typed_documents_come_back(vs, t, version, p);
    lemma_analyzed_version(vs, t, version);
    lemma_stored_documents(vs, t, version);
    law_json_column_reads_back(t, p, server, rest);
}

} // verus!
