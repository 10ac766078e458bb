//! Setting leaves in an object: their order does not matter.
use vstd::prelude::*;

use crate::dynamic::{lemma_name_pos, name_pos, strictly_ascending};
use crate::json_object::{
    law_with_member, member_at, member_names, member_value, ordered_along, with_member, with_nested,
};
use crate::json_value::JsonView;
use crate::leaf_laws::{lemma_put_prefix, lemma_replace_member, put_names, Leaf, Members};
use crate::text::{lemma_text_le_antisym, lemma_text_le_refl, text_le};

verus! {

/// Whether two paths part at some name, so that neither leads on from the other.
pub open spec fn apart(a: Seq<Seq<char>>, b: Seq<Seq<char>>) -> bool
    decreases a.len(),
{
    a.len() > 0 && b.len() > 0 && (a[0] != b[0] || apart(a.skip(1), b.skip(1)))
}

pub(crate) proof fn lemma_apart_sym(a: Seq<Seq<char>>, b: Seq<Seq<char>>)
    ensures
        apart(a, b) == apart(b, a),
    decreases a.len(),
{
    if a.len() > 0 && b.len() > 0 && a[0] == b[0] {
        lemma_apart_sym(a.skip(1), b.skip(1));
    }
}

pub(crate) proof fn lemma_not_apart(a: Seq<Seq<char>>)
    ensures
        !apart(a, a),
    decreases a.len(),
{
    if a.len() > 0 {
        lemma_not_apart(a.skip(1));
    }
}

proof fn lemma_ascending_at(names: Seq<Seq<char>>, i: int, j: int)
    requires
        strictly_ascending(names),
        0 <= i < j < names.len(),
    ensures
        text_le(names[i], names[j]),
        names[i] != names[j],
{
    assert(text_le(names[i], names[j]));
}

/// A member stands where it is found, and is found where it stands.
proof fn lemma_found(m: Members, name: Seq<char>)
    requires
        strictly_ascending(member_names(m)),
    ensures
        member_at(m, name) matches Some(p) ==> 0 <= p < m.len() && m[p].0 == name,
        forall|i: int| 0 <= i < m.len() && (#[trigger] m[i]).0 == name ==> member_at(m, name) == Some(i),
{
    let names = member_names(m);
    lemma_name_pos(names, name, 0);
    let p = name_pos(names, name, 0);
    lemma_text_le_refl(name);
    assert forall|i: int| 0 <= i < m.len() && (#[trigger] m[i]).0 == name implies member_at(m, name)
        == Some(i) by {
        assert(names[i] == name);
        assert(p <= i);
        if p < i {
            lemma_ascending_at(names, p, i);
            lemma_text_le_antisym(names[p], names[i]);
        }
    }
}

proof fn lemma_same_prefix(m: Members, n: Members, k: int)
    requires
        strictly_ascending(member_names(m)),
        strictly_ascending(member_names(n)),
        forall|x: Seq<char>| #[trigger] member_value(m, x) == member_value(n, x),
        0 <= k <= m.len(),
    ensures
        k <= n.len(),
        forall|i: int| 0 <= i < k ==> #[trigger] m[i] == n[i],
    decreases k,
{
    if k > 0 {
        let i = k - 1;
        lemma_same_prefix(m, n, i);
        let x = m[i].0;
        lemma_found(m, x);
        lemma_found(n, x);
        assert(member_value(m, x) == Some(m[i].1));
        assert(member_value(n, x) == Some(m[i].1));
        let j = member_at(n, x)->0;
        assert(n[j].0 == x);
        let mn = member_names(m);
        let nn = member_names(n);
        if j < i {
            assert(m[j] == n[j]);
            lemma_ascending_at(mn, j, i);
        }
        if j > i {
            let y = n[i].0;
            lemma_found(m, y);
            lemma_found(n, y);
            assert(member_value(n, y) == Some(n[i].1));
            assert(member_value(m, y) is Some);
            let q = member_at(m, y)->0;
            assert(m[q].0 == y);
            lemma_ascending_at(nn, i, j);
            if q < i {
                assert(m[q] == n[q]);
                lemma_ascending_at(nn, q, i);
            } else if q > i {
                lemma_ascending_at(mn, i, q);
                lemma_text_le_antisym(x, y);
            }
        }
        assert(j == i);
        assert(n[i] == (x, m[i].1));
        assert(m[i] == (x, m[i].1));
    }
}

/// Members in order are told by what is found under each name.
pub proof fn law_members_are_told(m: Members, n: Members)
    requires
        strictly_ascending(member_names(m)),
        strictly_ascending(member_names(n)),
        forall|x: Seq<char>| #[trigger] member_value(m, x) == member_value(n, x),
    ensures
        m == n,
{
    lemma_same_prefix(m, n, m.len() as int);
    lemma_same_prefix(n, m, n.len() as int);
    assert(m =~= n);
}

proof fn lemma_members_commute(m: Members, a: Seq<char>, x: JsonView, b: Seq<char>, y: JsonView)
    requires
        strictly_ascending(member_names(m)),
        a != b,
    ensures
        with_member(with_member(m, a, x), b, y) == with_member(with_member(m, b, y), a, x),
{
    law_with_member(m, a, x, a);
    law_with_member(m, b, y, b);
    let p = with_member(with_member(m, a, x), b, y);
    let q = with_member(with_member(m, b, y), a, x);
    law_with_member(with_member(m, a, x), b, y, b);
    law_with_member(with_member(m, b, y), a, x, a);
    assert forall|n: Seq<char>| #[trigger] member_value(p, n) == member_value(q, n) by {
        law_with_member(m, a, x, n);
        law_with_member(m, b, y, n);
        law_with_member(with_member(m, a, x), b, y, n);
        law_with_member(with_member(m, b, y), a, x, n);
        if n == a {
            law_with_member(m, a, x, a);
        }
        if n == b {
            law_with_member(m, b, y, b);
        }
    }
    law_members_are_told(p, q);
}

/// What a path leads to below its first name.
pub open spec fn below(m: Members, name: Seq<char>) -> Members {
    match member_value(m, name) {
        Some(JsonView::Object(x)) => x,
        _ => Seq::empty(),
    }
}

pub(crate) proof fn lemma_below_ordered(m: Members, a: Seq<Seq<char>>)
    requires
        ordered_along(m, a),
        a.len() > 1,
    ensures
        ordered_along(below(m, a[0]), a.skip(1)),
{
    if !(member_value(m, a[0]) matches Some(JsonView::Object(_))) {
        let none: Members = Seq::empty();
        assert(member_names(none) =~= Seq::<Seq<char>>::empty());
        if a.skip(1).len() > 0 {
            assert(member_value(none, a.skip(1)[0]) is None);
        }
    }
}

/// Setting one leaf keeps the order along another path.
pub(crate) proof fn lemma_order_kept(m: Members, a: Seq<Seq<char>>, x: JsonView, c: Seq<Seq<char>>)
    requires
        ordered_along(m, a),
        ordered_along(m, c),
        apart(a, c),
        with_nested(m, a, x) is Ok,
    ensures
        ordered_along(with_nested(m, a, x)->Ok_0, c),
    decreases a.len(),
{
    let all = with_nested(m, a, x)->Ok_0;
    if a[0] == c[0] {
        assert(apart(a.skip(1), c.skip(1)));
        assert(a.skip(1).len() > 0 && c.skip(1).len() > 0);
    }
    if a.len() == 1 {
        law_with_member(m, a[0], x, c[0]);
    } else {
        let inner = with_nested(below(m, a[0]), a.skip(1), x)->Ok_0;
        law_with_member(m, a[0], JsonView::Object(inner), c[0]);
        if a[0] == c[0] {
            lemma_below_ordered(m, a);
            lemma_below_ordered(m, c);
            lemma_order_kept(below(m, a[0]), a.skip(1), x, c.skip(1));
        }
    }
}

proof fn lemma_nested_commute(
    m: Members,
    a: Seq<Seq<char>>,
    x: JsonView,
    b: Seq<Seq<char>>,
    y: JsonView,
)
    requires
        ordered_along(m, a),
        ordered_along(m, b),
        apart(a, b),
        with_nested(m, a, x) is Ok,
        with_nested(with_nested(m, a, x)->Ok_0, b, y) is Ok,
    ensures
        with_nested(m, b, y) is Ok,
        with_nested(with_nested(m, b, y)->Ok_0, a, x) == with_nested(
            with_nested(m, a, x)->Ok_0,
            b,
            y,
        ),
    decreases a.len(),
{
    let m1 = with_nested(m, a, x)->Ok_0;
    if a[0] != b[0] {
        let av = if a.len() == 1 {
            x
        } else {
            JsonView::Object(with_nested(below(m, a[0]), a.skip(1), x)->Ok_0)
        };
        let bv = if b.len() == 1 {
            y
        } else {
            JsonView::Object(with_nested(below(m, b[0]), b.skip(1), y)->Ok_0)
        };
        assert(m1 == with_member(m, a[0], av));
        law_with_member(m, a[0], av, b[0]);
        assert(member_value(m1, b[0]) == member_value(m, b[0]));
        law_with_member(m, b[0], bv, a[0]);
        lemma_members_commute(m, a[0], av, b[0], bv);
    } else {
        let inner = below(m, a[0]);
        assert(apart(a.skip(1), b.skip(1)));
        assert(a.skip(1).len() > 0 && b.skip(1).len() > 0);
        lemma_below_ordered(m, a);
        lemma_below_ordered(m, b);
        let i1 = with_nested(inner, a.skip(1), x)->Ok_0;
        assert(m1 == with_member(m, a[0], JsonView::Object(i1)));
        lemma_replace_member(m, a[0], JsonView::Object(i1), JsonView::Object(i1));
        assert(member_value(m1, b[0]) == Some(JsonView::Object(i1)));
        lemma_nested_commute(inner, a.skip(1), x, b.skip(1), y);
        let i2 = with_nested(i1, b.skip(1), y)->Ok_0;
        let j1 = with_nested(inner, b.skip(1), y)->Ok_0;
        lemma_replace_member(m, a[0], JsonView::Object(i1), JsonView::Object(i2));
        lemma_replace_member(m, a[0], JsonView::Object(j1), JsonView::Object(i2));
    }
}

// ---------------------------------------------------------------------------
// Lists of leaves
// ---------------------------------------------------------------------------

/// Whether the paths of leaves part.
pub open spec fn all_apart(ls: Seq<Leaf>) -> bool {
    forall|i: int, j: int|
        0 <= i < ls.len() && 0 <= j < ls.len() && i != j ==> apart(
            (#[trigger] ls[i]).0,
            (#[trigger] ls[j]).0,
        )
}

/// Whether members are ordered along the paths of leaves.
pub open spec fn all_ordered(m: Members, ls: Seq<Leaf>) -> bool {
    forall|i: int| 0 <= i < ls.len() ==> ordered_along(m, (#[trigger] ls[i]).0)
}

pub(crate) proof fn lemma_order_kept_all(m: Members, ls: Seq<Leaf>, c: Seq<Seq<char>>)
    requires
        all_ordered(m, ls),
        all_apart(ls),
        ordered_along(m, c),
        forall|i: int| 0 <= i < ls.len() ==> apart((#[trigger] ls[i]).0, c),
        put_names(m, ls) is Ok,
    ensures
        ordered_along(put_names(m, ls)->Ok_0, c),
    decreases ls.len(),
{
    if ls.len() > 0 {
        let head = ls.drop_last();
        lemma_put_prefix(m, ls, ls.len() - 1);
        assert(ls.take(ls.len() - 1) =~= head);
        assert(ls.last() == ls[ls.len() - 1]);
        assert forall|i: int| 0 <= i < head.len() implies ordered_along(m, (#[trigger] head[i]).0)
            && apart(head[i].0, c) && apart(head[i].0, ls.last().0) by {
            assert(head[i] == ls[i]);
            assert(apart(ls[i].0, ls[ls.len() - 1].0));
        }
        assert(all_apart(head)) by {
            assert forall|i: int, j: int|
                0 <= i < head.len() && 0 <= j < head.len() && i != j implies apart(
                (#[trigger] head[i]).0,
                (#[trigger] head[j]).0,
            ) by {
                assert(apart(ls[i].0, ls[j].0));
            }
        }
        lemma_order_kept_all(m, head, c);
        lemma_order_kept_all(m, head, ls.last().0);
        lemma_order_kept(put_names(m, head)->Ok_0, ls.last().0, ls.last().1, c);
    }
}

proof fn lemma_swap_last(m: Members, ls: Seq<Leaf>, a: Leaf, b: Leaf)
    requires
        all_ordered(m, ls.push(a).push(b)),
        all_apart(ls.push(a).push(b)),
        put_names(m, ls.push(a).push(b)) is Ok,
    ensures
        put_names(m, ls.push(b).push(a)) == put_names(m, ls.push(a).push(b)),
{
    let all = ls.push(a).push(b);
    let n = ls.len() as int;
    assert(all.drop_last() =~= ls.push(a));
    assert(ls.push(a).drop_last() =~= ls);
    assert(ls.push(b).push(a).drop_last() =~= ls.push(b));
    assert(ls.push(b).drop_last() =~= ls);
    lemma_put_prefix(m, all, n);
    assert(all.take(n) =~= ls);
    assert(all[n] == a && all[n + 1] == b);
    assert forall|i: int| 0 <= i < ls.len() implies ordered_along(m, (#[trigger] ls[i]).0) && apart(
        ls[i].0,
        a.0,
    ) && apart(ls[i].0, b.0) by {
        assert(all[i] == ls[i]);
        assert(apart(all[i].0, all[n].0));
        assert(apart(all[i].0, all[n + 1].0));
    }
    assert(all_apart(ls)) by {
        assert forall|i: int, j: int|
            0 <= i < ls.len() && 0 <= j < ls.len() && i != j implies apart(
            (#[trigger] ls[i]).0,
            (#[trigger] ls[j]).0,
        ) by {
            assert(all[i] == ls[i] && all[j] == ls[j]);
            assert(apart(all[i].0, all[j].0));
        }
    }
    assert(ordered_along(m, all[n].0) && ordered_along(m, all[n + 1].0));
    lemma_order_kept_all(m, ls, a.0);
    lemma_order_kept_all(m, ls, b.0);
    assert(apart(all[n].0, all[n + 1].0));
    let w = put_names(m, ls)->Ok_0;
    lemma_put_prefix(m, all, n + 1);
    assert(all.take(n + 1) =~= ls.push(a));
    assert(ls.push(a).last() == a && all.last() == b);
    assert(put_names(m, ls.push(a)) == with_nested(w, a.0, a.1));
    assert(put_names(m, all) == with_nested(with_nested(w, a.0, a.1)->Ok_0, b.0, b.1));
    assert(ls.push(b).last() == b && ls.push(b).push(a).last() == a);
    assert(put_names(m, ls.push(b)) == with_nested(w, b.0, b.1));
    lemma_nested_commute(put_names(m, ls)->Ok_0, a.0, a.1, b.0, b.1);
}

proof fn lemma_sub_fits(m: Members, all: Seq<Leaf>, ls: Seq<Leaf>)
    requires
        all_ordered(m, all),
        all_apart(all),
        ls.no_duplicates(),
        forall|i: int| 0 <= i < ls.len() ==> all.contains(#[trigger] ls[i]),
    ensures
        all_ordered(m, ls),
        all_apart(ls),
{
    assert forall|i: int| 0 <= i < ls.len() implies ordered_along(m, (#[trigger] ls[i]).0) by {
        assert(all.contains(ls[i]));
        let k = choose|k: int| 0 <= k < all.len() && all[k] == ls[i];
        assert(ordered_along(m, all[k].0));
    }
    assert forall|i: int, j: int| 0 <= i < ls.len() && 0 <= j < ls.len() && i != j implies apart(
        (#[trigger] ls[i]).0,
        (#[trigger] ls[j]).0,
    ) by {
        assert(all.contains(ls[i]) && all.contains(ls[j]));
        let k = choose|k: int| 0 <= k < all.len() && all[k] == ls[i];
        let l = choose|l: int| 0 <= l < all.len() && all[l] == ls[j];
        assert(ls[i] != ls[j]);
        assert(apart(all[k].0, all[l].0));
    }
}

proof fn lemma_apart_distinct(ls: Seq<Leaf>)
    requires
        all_apart(ls),
    ensures
        ls.no_duplicates(),
{
    assert forall|i: int, j: int| 0 <= i < ls.len() && 0 <= j < ls.len() && i != j implies ls[i]
        != ls[j] by {
        assert(apart(ls[i].0, ls[j].0));
        lemma_not_apart(ls[i].0);
    }
}

pub(crate) proof fn lemma_move_last(m: Members, ls: Seq<Leaf>, k: int)
    requires
        all_ordered(m, ls),
        all_apart(ls),
        put_names(m, ls) is Ok,
        0 <= k < ls.len(),
    ensures
        put_names(m, ls.remove(k).push(ls[k])) == put_names(m, ls),
    decreases ls.len(),
{
    let n = ls.len() as int;
    if k == n - 1 {
        assert(ls.remove(k).push(ls[k]) =~= ls);
    } else {
        let head = ls.drop_last();
        let z = ls.last();
        let a = ls[k];
        lemma_apart_distinct(ls);
        assert forall|i: int| 0 <= i < head.len() implies ls.contains(#[trigger] head[i]) by {
            assert(head[i] == ls[i]);
        }
        lemma_sub_fits(m, ls, head);
        lemma_put_prefix(m, ls, n - 1);
        assert(ls.take(n - 1) =~= head);
        lemma_move_last(m, head, k);
        let rest = head.remove(k);
        assert(head[k] == a);
        let one = rest.push(a).push(z);
        assert(one.drop_last() =~= rest.push(a));
        assert(put_names(m, one) == put_names(m, ls));
        assert(one.no_duplicates() && forall|i: int|
            0 <= i < one.len() ==> ls.contains(#[trigger] one[i])) by {
            assert forall|i: int| 0 <= i < one.len() implies ls.contains(#[trigger] one[i]) by {
                if i < k {
                    assert(one[i] == ls[i]);
                } else if i < n - 2 {
                    assert(one[i] == ls[i + 1]);
                } else if i == n - 2 {
                    assert(one[i] == ls[k]);
                } else {
                    assert(one[i] == ls[n - 1]);
                }
            }
            assert forall|i: int, j: int|
                0 <= i < one.len() && 0 <= j < one.len() && i != j implies one[i] != one[j] by {
                let p = if i < k {
                    i
                } else if i < n - 2 {
                    i + 1
                } else if i == n - 2 {
                    k
                } else {
                    n - 1
                };
                let q = if j < k {
                    j
                } else if j < n - 2 {
                    j + 1
                } else if j == n - 2 {
                    k
                } else {
                    n - 1
                };
                assert(one[i] == ls[p] && one[j] == ls[q] && p != q);
            }
        }
        lemma_sub_fits(m, ls, one);
        lemma_swap_last(m, rest, a, z);
        assert(ls.remove(k).push(a) =~= rest.push(z).push(a));
    }
}

/// Leaves whose paths part make the same in any order.
pub proof fn law_order_of_leaves(m: Members, ls: Seq<Leaf>, ns: Seq<Leaf>)
    requires
        all_ordered(m, ls),
        all_apart(ls),
        put_names(m, ls) is Ok,
        ns.no_duplicates(),
        forall|e: Leaf| #[trigger] ls.contains(e) <==> ns.contains(e),
    ensures
        put_names(m, ns) == put_names(m, ls),
    decreases ns.len(),
{
    lemma_apart_distinct(ls);
    if ns.len() == 0 {
        if ls.len() > 0 {
            assert(ls.contains(ls[0]));
        }
        assert(ls =~= ns);
    } else {
        let z = ns.last();
        assert(ns.contains(ns[ns.len() - 1]));
        assert(ls.contains(z));
        let k = choose|k: int| 0 <= k < ls.len() && ls[k] == z;
        lemma_move_last(m, ls, k);
        let rest = ls.remove(k);
        let head = ns.drop_last();
        let moved = rest.push(z);
        assert(moved.drop_last() =~= rest);
        assert forall|i: int| 0 <= i < rest.len() implies ls.contains(#[trigger] rest[i]) by {
            if i < k {
                assert(rest[i] == ls[i]);
            } else {
                assert(rest[i] == ls[i + 1]);
            }
        }
        assert(rest.no_duplicates()) by {
            assert forall|i: int, j: int|
                0 <= i < rest.len() && 0 <= j < rest.len() && i != j implies rest[i] != rest[j] by {
                let p = if i < k {
                    i
                } else {
                    i + 1
                };
                let q = if j < k {
                    j
                } else {
                    j + 1
                };
                assert(rest[i] == ls[p] && rest[j] == ls[q]);
            }
        }
        lemma_sub_fits(m, ls, rest);
        lemma_put_prefix(m, moved, rest.len() as int);
        assert(moved.take(rest.len() as int) =~= rest);
        assert forall|e: Leaf| #[trigger] rest.contains(e) <==> head.contains(e) by {
            if rest.contains(e) {
                let i = choose|i: int| 0 <= i < rest.len() && rest[i] == e;
                let p = if i < k {
                    i
                } else {
                    i + 1
                };
                assert(ls[p] == e);
                assert(ls.contains(e));
                assert(e != z) by {
                    assert(ls[p] != ls[k]);
                }
                assert(ns.contains(e));
                let j = choose|j: int| 0 <= j < ns.len() && ns[j] == e;
                assert(head[j] == e);
            }
            if head.contains(e) {
                let j = choose|j: int| 0 <= j < head.len() && head[j] == e;
                assert(ns[j] == e);
                assert(ns.contains(e));
                assert(ls.contains(e));
                assert(ns[j] != ns[ns.len() - 1]);
                let p = choose|p: int| 0 <= p < ls.len() && ls[p] == e;
                assert(p != k);
                if p < k {
                    assert(rest[p] == e);
                } else {
                    assert(rest[p - 1] == e);
                }
            }
        }
        assert(head.no_duplicates());
        law_order_of_leaves(m, rest, head);
    }
}

} // verus!
