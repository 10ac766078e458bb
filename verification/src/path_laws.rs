//! Which paths of documents get a column of their own.
use vstd::prelude::*;

use crate::dynamic::{lemma_with_name, strictly_ascending};
use crate::json_columns::{
    chosen_paths, count_before, dynamic_names, goes_before, parts_of, path_columns, path_frequency,
    shares_paths, with_row_names,
};
use crate::json_paths::{typed_type, Cells};
use crate::json_write::column_names;
use crate::text::{lemma_text_le_antisym, lemma_text_le_total, lemma_text_le_trans, text_le};
use crate::types::TypeView;

verus! {

/// Of two paths exactly one goes before the other.
pub proof fn law_paths_are_ordered(rows: Seq<Cells>, a: Seq<char>, b: Seq<char>)
    requires
        a != b,
    ensures
        goes_before(rows, a, b) != goes_before(rows, b, a),
{
    lemma_text_le_total(a, b);
    if text_le(a, b) && text_le(b, a) {
        lemma_text_le_antisym(a, b);
    }
}

proof fn lemma_before_trans(rows: Seq<Cells>, a: Seq<char>, b: Seq<char>, c: Seq<char>)
    requires
        goes_before(rows, a, b),
        goes_before(rows, b, c),
    ensures
        goes_before(rows, a, c),
{
    if path_frequency(rows, a) == path_frequency(rows, c) {
        lemma_text_le_trans(a, b, c);
        if a == c {
            lemma_text_le_antisym(a, b);
        }
    }
}

proof fn lemma_count_monotone(
    names: Seq<Seq<char>>,
    rows: Seq<Cells>,
    a: Seq<char>,
    b: Seq<char>,
)
    requires
        goes_before(rows, a, b),
    ensures
        count_before(names, rows, a) <= count_before(names, rows, b),
    decreases names.len(),
{
    if names.len() > 0 {
        lemma_count_monotone(names.drop_last(), rows, a, b);
        if goes_before(rows, names.last(), a) {
            lemma_before_trans(rows, names.last(), a, b);
        }
    }
}

/// Whether a path has a column of its own.
pub open spec fn is_kept(all: Seq<Seq<char>>, rows: Seq<Cells>, limit: nat, path: Seq<char>) -> bool {
    count_before(all, rows, path) < limit
}

proof fn lemma_chosen(
    names: Seq<Seq<char>>,
    all: Seq<Seq<char>>,
    rows: Seq<Cells>,
    limit: nat,
    keep: bool,
)
    ensures
        forall|x: Seq<char>| #[trigger]
            chosen_paths(names, all, rows, limit, keep).contains(x) <==> names.contains(x)
                && is_kept(all, rows, limit, x) == keep,
    decreases names.len(),
{
    let chosen = chosen_paths(names, all, rows, limit, keep);
    if names.len() > 0 {
        let head = names.drop_last();
        let before = chosen_paths(head, all, rows, limit, keep);
        lemma_chosen(head, all, rows, limit, keep);
        assert forall|x: Seq<char>| #[trigger] chosen.contains(x) <==> names.contains(x) && is_kept(
            all,
            rows,
            limit,
            x,
        ) == keep by {
            lemma_push_contains(head, names.last(), x);
            assert(head.push(names.last()) =~= names);
            lemma_push_contains(before, names.last(), x);
            assert(before.contains(x) <==> head.contains(x) && is_kept(all, rows, limit, x)
                == keep);
        }
    }
}

proof fn lemma_push_contains(s: Seq<Seq<char>>, y: Seq<char>, x: Seq<char>)
    ensures
        s.push(y).contains(x) <==> s.contains(x) || x == y,
{
    if s.contains(x) {
        let k = choose|k: int| 0 <= k < s.len() && s[k] == x;
        assert(s.push(y)[k] == x);
    }
    if x == y {
        assert(s.push(y)[s.len() as int] == x);
    }
    if s.push(y).contains(x) && x != y {
        let k = choose|k: int| 0 <= k < s.push(y).len() && s.push(y)[k] == x;
        assert(s[k] == x);
    }
}

proof fn lemma_ascending_at(names: Seq<Seq<char>>, i: int, j: int)
    requires
        strictly_ascending(names),
        0 <= i < j < names.len(),
    ensures
        text_le(names[i], names[j]),
        names[i] != names[j],
{
    assert(text_le(names[i], names[j]));
}

proof fn lemma_chosen_ascend(
    names: Seq<Seq<char>>,
    all: Seq<Seq<char>>,
    rows: Seq<Cells>,
    limit: nat,
    keep: bool,
)
    requires
        strictly_ascending(names),
    ensures
        strictly_ascending(chosen_paths(names, all, rows, limit, keep)),
    decreases names.len(),
{
    if names.len() > 0 {
        let head = names.drop_last();
        let before = chosen_paths(head, all, rows, limit, keep);
        let chosen = chosen_paths(names, all, rows, limit, keep);
        assert(strictly_ascending(head));
        lemma_chosen_ascend(head, all, rows, limit, keep);
        lemma_chosen(head, all, rows, limit, keep);
        assert forall|i: int, j: int| 0 <= i < j < chosen.len() implies text_le(
            chosen[i],
            chosen[j],
        ) && chosen[i] != chosen[j] by {
            assert(before.contains(before[i]));
            if j < before.len() {
                assert(text_le(before[i], before[j]) && before[i] != before[j]);
            } else {
                let k = choose|k: int| 0 <= k < head.len() && head[k] == before[i];
                lemma_ascending_at(names, k, names.len() - 1);
            }
        }
    }
}

/// Each path either has a column of its own or shares one, and both lists are ascending.
pub proof fn law_paths_are_split(
    all: Seq<Seq<char>>,
    rows: Seq<Cells>,
    limit: nat,
    path: Seq<char>,
)
    requires
        strictly_ascending(all),
    ensures
        ({
            let kept = chosen_paths(all, all, rows, limit, true);
            let shared = chosen_paths(all, all, rows, limit, false);
            &&& all.contains(path) <==> kept.contains(path) || shared.contains(path)
            &&& !(kept.contains(path) && shared.contains(path))
            &&& strictly_ascending(kept)
            &&& strictly_ascending(shared)
        }),
{
    lemma_chosen(all, all, rows, limit, true);
    lemma_chosen(all, all, rows, limit, false);
    lemma_chosen_ascend(all, all, rows, limit, true);
    lemma_chosen_ascend(all, all, rows, limit, false);
}

/// No path that shares a column is more frequent than one that has its own; of equally
/// frequent ones that whose name stands first has its own.
pub proof fn law_frequent_paths_are_kept(
    all: Seq<Seq<char>>,
    rows: Seq<Cells>,
    limit: nat,
    a: Seq<char>,
    b: Seq<char>,
)
    requires
        chosen_paths(all, all, rows, limit, true).contains(a),
        chosen_paths(all, all, rows, limit, false).contains(b),
    ensures
        goes_before(rows, a, b),
        path_frequency(rows, a) >= path_frequency(rows, b),
{
    lemma_chosen(all, all, rows, limit, true);
    lemma_chosen(all, all, rows, limit, false);
    assert(is_kept(all, rows, limit, a) && !is_kept(all, rows, limit, b));
    law_paths_are_ordered(rows, a, b);
    if goes_before(rows, b, a) {
        lemma_count_monotone(all, rows, b, a);
    }
}

proof fn lemma_count_split(
    names: Seq<Seq<char>>,
    all: Seq<Seq<char>>,
    rows: Seq<Cells>,
    limit: nat,
    path: Seq<char>,
)
    ensures
        count_before(names, rows, path) == count_before(
            chosen_paths(names, all, rows, limit, true),
            rows,
            path,
        ) + count_before(chosen_paths(names, all, rows, limit, false), rows, path),
        chosen_paths(names, all, rows, limit, true).len() + chosen_paths(
            names,
            all,
            rows,
            limit,
            false,
        ).len() == names.len(),
    decreases names.len(),
{
    if names.len() > 0 {
        let head = names.drop_last();
        lemma_count_split(head, all, rows, limit, path);
        let kept = chosen_paths(head, all, rows, limit, true);
        let shared = chosen_paths(head, all, rows, limit, false);
        assert(kept.push(names.last()).drop_last() =~= kept);
        assert(shared.push(names.last()).drop_last() =~= shared);
    }
}

/// The first of paths in the order of how frequent they are, or the last.
proof fn lemma_extreme(names: Seq<Seq<char>>, rows: Seq<Cells>, first: bool) -> (k: int)
    requires
        names.len() > 0,
        strictly_ascending(names),
    ensures
        0 <= k < names.len(),
        forall|i: int|
            0 <= i < names.len() && i != k ==> (if first {
                goes_before(rows, names[k], #[trigger] names[i])
            } else {
                goes_before(rows, names[i], names[k])
            }),
    decreases names.len(),
{
    if names.len() == 1 {
        0
    } else {
        let head = names.drop_last();
        let last = names.last();
        assert(strictly_ascending(head));
        let k = lemma_extreme(head, rows, first);
        lemma_ascending_at(names, k, names.len() - 1);
        law_paths_are_ordered(rows, names[k], last);
        if goes_before(rows, last, names[k]) == first {
            let m = names.len() - 1;
            assert forall|i: int| 0 <= i < names.len() && i != m implies (if first {
                goes_before(rows, names[m], #[trigger] names[i])
            } else {
                goes_before(rows, names[i], names[m])
            }) by {
                assert(head[i] == names[i]);
                if i != k {
                    if first {
                        lemma_before_trans(rows, last, head[k], head[i]);
                    } else {
                        lemma_before_trans(rows, head[i], head[k], last);
                    }
                }
            }
            m
        } else {
            assert forall|i: int| 0 <= i < names.len() && i != k implies (if first {
                goes_before(rows, names[k], #[trigger] names[i])
            } else {
                goes_before(rows, names[i], names[k])
            }) by {
                if i < head.len() {
                    assert(head[i] == names[i]);
                }
            }
            k
        }
    }
}

proof fn lemma_count_all(names: Seq<Seq<char>>, rows: Seq<Cells>, path: Seq<char>, k: int)
    requires
        forall|i: int|
            0 <= i < names.len() && i != k ==> goes_before(rows, #[trigger] names[i], path),
    ensures
        count_before(names, rows, path) + 1 >= names.len(),
        !(0 <= k < names.len()) ==> count_before(names, rows, path) == names.len(),
    decreases names.len(),
{
    if names.len() > 0 {
        let head = names.drop_last();
        assert forall|i: int| 0 <= i < head.len() && i != k implies goes_before(
            rows,
            #[trigger] head[i],
            path,
        ) by {
            assert(head[i] == names[i]);
        }
        lemma_count_all(head, rows, path, k);
        if names.len() - 1 != k {
            assert(goes_before(rows, names[names.len() - 1], path));
        }
    }
}

proof fn lemma_count_none(names: Seq<Seq<char>>, rows: Seq<Cells>, path: Seq<char>)
    requires
        forall|i: int| 0 <= i < names.len() ==> !goes_before(rows, #[trigger] names[i], path),
    ensures
        count_before(names, rows, path) == 0,
    decreases names.len(),
{
    if names.len() > 0 {
        let head = names.drop_last();
        assert forall|i: int| 0 <= i < head.len() implies !goes_before(
            rows,
            #[trigger] head[i],
            path,
        ) by {
            assert(head[i] == names[i]);
        }
        lemma_count_none(head, rows, path);
        assert(!goes_before(rows, names[names.len() - 1], path));
    }
}

proof fn lemma_count_most(names: Seq<Seq<char>>, rows: Seq<Cells>, path: Seq<char>)
    ensures
        count_before(names, rows, path) <= names.len(),
    decreases names.len(),
{
    if names.len() > 0 {
        lemma_count_most(names.drop_last(), rows, path);
    }
}

/// As many paths have a column of their own as there may be, or all of them.
pub proof fn law_as_many_paths_as_may_be(all: Seq<Seq<char>>, rows: Seq<Cells>, limit: nat)
    requires
        strictly_ascending(all),
    ensures
        chosen_paths(all, all, rows, limit, true).len() == if all.len() <= limit {
            all.len()
        } else {
            limit
        },
{
    let kept = chosen_paths(all, all, rows, limit, true);
    let shared = chosen_paths(all, all, rows, limit, false);
    lemma_chosen(all, all, rows, limit, true);
    lemma_chosen(all, all, rows, limit, false);
    lemma_chosen_ascend(all, all, rows, limit, true);
    lemma_chosen_ascend(all, all, rows, limit, false);
    lemma_count_split(all, all, rows, limit, Seq::empty());
    if kept.len() > 0 {
        let k = lemma_extreme(kept, rows, false);
        let m = kept[k];
        assert(kept.contains(m));
        assert(is_kept(all, rows, limit, m));
        lemma_count_all(kept, rows, m, k);
        lemma_count_split(all, all, rows, limit, m);
    }
    if shared.len() > 0 {
        let k = lemma_extreme(shared, rows, true);
        let m = shared[k];
        assert(shared.contains(m));
        assert(!is_kept(all, rows, limit, m));
        assert forall|i: int| 0 <= i < shared.len() implies !goes_before(
            rows,
            #[trigger] shared[i],
            m,
        ) by {
            if i != k {
                assert(goes_before(rows, m, shared[i]));
                if goes_before(rows, shared[i], m) {
                    lemma_before_trans(rows, m, shared[i], m);
                }
            }
        }
        lemma_count_none(shared, rows, m);
        lemma_count_split(all, all, rows, limit, m);
        lemma_count_most(kept, rows, m);
    }
}

// ---------------------------------------------------------------------------
// What is found out of a column
// ---------------------------------------------------------------------------

proof fn lemma_row_names_untyped(
    names: Seq<Seq<char>>,
    cells: Cells,
    typed: Seq<(Seq<char>, TypeView)>,
)
    requires
        strictly_ascending(names),
        forall|x: Seq<char>| #[trigger] names.contains(x) ==> typed_type(typed, x) is None,
    ensures
        strictly_ascending(with_row_names(names, cells, typed)),
        forall|x: Seq<char>| #[trigger]
            with_row_names(names, cells, typed).contains(x) ==> typed_type(typed, x) is None,
    decreases cells.len(),
{
    if cells.len() > 0 {
        let head = with_row_names(names, cells.drop_last(), typed);
        lemma_row_names_untyped(names, cells.drop_last(), typed);
        lemma_with_name(head, cells.last().0);
    }
}

/// The paths that are listed have no types of their own.
pub proof fn law_dynamic_names_are_untyped(
    rows: Seq<Cells>,
    typed: Seq<(Seq<char>, TypeView)>,
    path: Seq<char>,
)
    requires
        dynamic_names(rows, typed).contains(path),
    ensures
        typed_type(typed, path) is None,
{
    lemma_names_untyped(rows, typed);
}

proof fn lemma_names_untyped(rows: Seq<Cells>, typed: Seq<(Seq<char>, TypeView)>)
    ensures
        strictly_ascending(dynamic_names(rows, typed)),
        forall|x: Seq<char>| #[trigger]
            dynamic_names(rows, typed).contains(x) ==> typed_type(typed, x) is None,
    decreases rows.len(),
{
    if rows.len() > 0 {
        lemma_names_untyped(rows.drop_last(), typed);
        lemma_row_names_untyped(dynamic_names(rows.drop_last(), typed), rows.last(), typed);
    }
}

/// What is found out of a column holds a value for each row at each path; the paths that
/// have no type of their own come in order, and no path comes twice.
pub proof fn law_parts_are_columns(
    rows: Seq<Cells>,
    typed: Seq<(Seq<char>, TypeView)>,
    max_paths: u32,
    version: Option<u64>,
)
    ensures
        ({
            let p = parts_of(rows, typed, max_paths, version);
            &&& p.rows == rows.len()
            &&& p.typed_columns.len() == typed.len()
            &&& forall|i: int|
                0 <= i < typed.len() ==> (#[trigger] p.typed_columns[i]).len() == rows.len()
            &&& strictly_ascending(column_names(p.dynamic))
            &&& forall|i: int|
                0 <= i < p.dynamic.len() ==> (#[trigger] p.dynamic[i]).1.len() == rows.len()
                    && typed_type(typed, p.dynamic[i].0) is None
            &&& p.shared matches Some(columns) ==> {
                &&& columns.len() > 0
                &&& strictly_ascending(column_names(columns))
                &&& forall|i: int|
                    0 <= i < columns.len() ==> (#[trigger] columns[i]).1.len() == rows.len()
                        && typed_type(typed, columns[i].0) is None
            }
        }),
{
    let p = parts_of(rows, typed, max_paths, version);
    let names = dynamic_names(rows, typed);
    let limit = max_paths as nat;
    lemma_names_untyped(rows, typed);
    let (kept, shared) = if shares_paths(version) {
        lemma_chosen(names, names, rows, limit, true);
        lemma_chosen(names, names, rows, limit, false);
        lemma_chosen_ascend(names, names, rows, limit, true);
        lemma_chosen_ascend(names, names, rows, limit, false);
        (
            chosen_paths(names, names, rows, limit, true),
            chosen_paths(names, names, rows, limit, false),
        )
    } else {
        (names, Seq::empty())
    };
    assert(column_names(path_columns(kept, rows)) =~= kept);
    assert(column_names(path_columns(shared, rows)) =~= shared);
    assert forall|i: int| 0 <= i < p.dynamic.len() implies (#[trigger] p.dynamic[i]).1.len()
        == rows.len() && typed_type(typed, p.dynamic[i].0) is None by {
        assert(kept.contains(kept[i]));
        assert(names.contains(kept[i]));
    }
    if let Some(columns) = p.shared {
        assert forall|i: int| 0 <= i < columns.len() implies (#[trigger] columns[i]).1.len()
            == rows.len() && typed_type(typed, columns[i].0) is None by {
            assert(shared.contains(shared[i]));
            assert(names.contains(shared[i]));
        }
    }
}

} // verus!
