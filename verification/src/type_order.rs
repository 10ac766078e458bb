//! The order of types by their names.
use vstd::prelude::*;

use crate::text::{
    chars_le, lemma_text_le_antisym, lemma_text_le_total, lemma_text_le_trans, text_le, to_chars,
};
use crate::type_display::{type_text, zones_named};
use crate::types::{type_views, Type, TypeView};

verus! {

/// Where a type with the given name goes in: behind the types from `i` on whose
/// names do not stand behind it.
pub open spec fn insert_pos(ts: Seq<TypeView>, name: Seq<char>, i: int) -> int
    decreases ts.len() - i,
{
    if 0 <= i < ts.len() && text_le(type_text(ts[i]), name) {
        insert_pos(ts, name, i + 1)
    } else {
        i
    }
}

/// Types ordered by their names; those with the same name keep their order.
pub open spec fn sorted_types(ts: Seq<TypeView>) -> Seq<TypeView>
    decreases ts.len(),
{
    if ts.len() == 0 {
        ts
    } else {
        let head = sorted_types(ts.drop_last());
        head.insert(insert_pos(head, type_text(ts.last()), 0), ts.last())
    }
}

/// Whether types are ordered by their names.
pub open spec fn names_ascend(ts: Seq<TypeView>) -> bool {
    forall|i: int, j: int| 0 <= i <= j < ts.len() ==> text_le(type_text(ts[i]), type_text(ts[j]))
}

/// A type goes in behind those that do not stand behind it.
pub proof fn lemma_insert_pos(ts: Seq<TypeView>, name: Seq<char>, i: int)
    requires
        0 <= i <= ts.len(),
    ensures
        i <= insert_pos(ts, name, i) <= ts.len(),
        forall|j: int|
            i <= j < insert_pos(ts, name, i) ==> text_le(#[trigger] type_text(ts[j]), name),
        insert_pos(ts, name, i) < ts.len() ==> !text_le(
            type_text(ts[insert_pos(ts, name, i)]),
            name,
        ),
    decreases ts.len() - i,
{
    if i < ts.len() && text_le(type_text(ts[i]), name) {
        lemma_insert_pos(ts, name, i + 1);
    }
}

/// Sorting puts types in the order of their names and neither adds nor drops one.
pub proof fn law_sorted_types(ts: Seq<TypeView>)
    ensures
        names_ascend(sorted_types(ts)),
        sorted_types(ts).to_multiset() == ts.to_multiset(),
        sorted_types(ts).len() == ts.len(),
    decreases ts.len(),
{
    if ts.len() == 0 {
    } else {
        law_sorted_types(ts.drop_last());
        let head = sorted_types(ts.drop_last());
        let t = ts.last();
        let name = type_text(t);
        let p = insert_pos(head, name, 0);
        lemma_insert_pos(head, name, 0);
        let all = head.insert(p, t);
        crate::text::lemma_text_le_refl(name);
        assert forall|i: int, j: int| 0 <= i <= j < all.len() implies text_le(
            type_text(all[i]),
            type_text(all[j]),
        ) by {
            if p < head.len() {
                lemma_text_le_total(name, type_text(head[p]));
            }
            if j < p {
                assert(all[i] == head[i] && all[j] == head[j]);
            } else if j == p {
                if i < p {
                    assert(all[i] == head[i]);
                }
            } else if i < p {
                assert(all[i] == head[i] && all[j] == head[j - 1]);
            } else if i == p {
                assert(all[j] == head[j - 1]);
                assert(text_le(type_text(head[p]), type_text(head[j - 1])));
                lemma_text_le_trans(name, type_text(head[p]), type_text(head[j - 1]));
            } else {
                assert(all[i] == head[i - 1] && all[j] == head[j - 1]);
            }
        }
        broadcast use vstd::seq_lib::group_to_multiset_ensures;

        assert(ts.drop_last().push(t) =~= ts);
        assert(head.insert(p, t).to_multiset() =~= head.to_multiset().insert(t));
        assert(ts.to_multiset() =~= ts.drop_last().to_multiset().insert(t));
    }
}

/// Whether different types have different names.
pub open spec fn names_differ(ts: Seq<TypeView>) -> bool {
    forall|i: int, j: int|
        0 <= i < ts.len() && 0 <= j < ts.len() && type_text(ts[i]) == type_text(ts[j]) ==> ts[i]
            == ts[j]
}

proof fn lemma_one_order(a: Seq<TypeView>, b: Seq<TypeView>)
    requires
        names_ascend(a),
        names_ascend(b),
        names_differ(a),
        a.to_multiset() == b.to_multiset(),
    ensures
        a == b,
    decreases a.len(),
{
    broadcast use vstd::seq_lib::group_to_multiset_ensures;

    assert(a.len() == a.to_multiset().len());
    assert(b.len() == b.to_multiset().len());
    if a.len() > 0 {
        assert(b.contains(a[0])) by {
            assert(a.contains(a[0]));
            assert(b.to_multiset().count(a[0]) > 0);
        }
        assert(a.contains(b[0])) by {
            assert(b.contains(b[0]));
            assert(a.to_multiset().count(b[0]) > 0);
        }
        let j = choose|j: int| 0 <= j < b.len() && b[j] == a[0];
        let i = choose|i: int| 0 <= i < a.len() && a[i] == b[0];
        assert(text_le(type_text(a[0]), type_text(a[i])));
        assert(text_le(type_text(b[0]), type_text(b[j])));
        lemma_text_le_antisym(type_text(a[0]), type_text(b[0]));
        assert(a[0] == a[i]);
        let x = a.skip(1);
        let y = b.skip(1);
        assert(x.insert(0, a[0]) =~= a);
        assert(y.insert(0, b[0]) =~= b);
        assert(a.to_multiset() =~= x.to_multiset().insert(a[0]));
        assert(b.to_multiset() =~= y.to_multiset().insert(a[0]));
        assert(x.to_multiset() =~= a.to_multiset().remove(a[0]));
        assert(y.to_multiset() =~= b.to_multiset().remove(a[0]));
        assert forall|p: int, q: int| 0 <= p <= q < x.len() implies text_le(
            type_text(x[p]),
            type_text(x[q]),
        ) by {
            assert(text_le(type_text(a[p + 1]), type_text(a[q + 1])));
        }
        assert forall|p: int, q: int| 0 <= p <= q < y.len() implies text_le(
            type_text(y[p]),
            type_text(y[q]),
        ) by {
            assert(text_le(type_text(b[p + 1]), type_text(b[q + 1])));
        }
        assert forall|p: int, q: int|
            0 <= p < x.len() && 0 <= q < x.len() && type_text(x[p]) == type_text(
                x[q],
            ) implies x[p] == x[q] by {
            assert(a[p + 1] == a[q + 1]);
        }
        lemma_one_order(x, y);
        assert(a =~= b);
    } else {
        assert(a =~= b);
    }
}

/// Types come out in the same order, in whatever order they are given, if types of the
/// same name are the same: so a reordered list of types gives each type of a variant the
/// discriminator that it had.
pub proof fn law_order_does_not_matter(ts: Seq<TypeView>, us: Seq<TypeView>)
    requires
        ts.to_multiset() == us.to_multiset(),
        names_differ(ts),
    ensures
        sorted_types(ts) == sorted_types(us),
{
    broadcast use vstd::seq_lib::group_to_multiset_ensures;

    law_sorted_types(ts);
    law_sorted_types(us);
    let a = sorted_types(ts);
    assert forall|i: int, j: int|
        0 <= i < a.len() && 0 <= j < a.len() && type_text(a[i]) == type_text(
            a[j],
        ) implies a[i] == a[j] by {
        assert(a.contains(a[i]) && a.contains(a[j]));
        assert(ts.to_multiset().count(a[i]) > 0 && ts.to_multiset().count(a[j]) > 0);
        assert(ts.contains(a[i]) && ts.contains(a[j]));
        let p = choose|p: int| 0 <= p < ts.len() && ts[p] == a[i];
        let q = choose|q: int| 0 <= q < ts.len() && ts[q] == a[j];
        assert(type_text(ts[p]) == type_text(ts[q]));
    }
    lemma_one_order(a, sorted_types(us));
}

/// The place of a type among sorted ones.
fn find_pos(ts: &Vec<Type>, t: &Type) -> (r: usize)
    ensures
        r == insert_pos(type_views(ts@), type_text(t@), 0),
        r <= ts@.len(),
        zones_named(t@),
{
    let name = to_chars(t.to_string().as_str());
    let mut i: usize = 0;
    while i < ts.len()
        invariant
            i <= ts.len(),
            zones_named(t@),
            name@ == type_text(t@),
            insert_pos(type_views(ts@), type_text(t@), 0) == insert_pos(
                type_views(ts@),
                type_text(t@),
                i as int,
            ),
        decreases ts.len() - i,
    {
        let other = to_chars(ts[i].to_string().as_str());
        assert(type_views(ts@)[i as int] == ts@[i as int]@);
        if !chars_le(&other, &name) {
            return i;
        }
        i += 1;
    }
    i
}

/// Orders types by their names.
pub fn sort_types(ts: &Vec<Type>) -> (r: Vec<Type>)
    ensures
        type_views(r@) == sorted_types(type_views(ts@)),
        r@.len() == ts@.len(),
        forall|i: int| 0 <= i < ts@.len() ==> zones_named((#[trigger] ts@[i])@),
{
    let ghost all = type_views(ts@);
    let mut out: Vec<Type> = Vec::new();
    let mut i: usize = 0;
    assert(type_views(out@) =~= sorted_types(all.take(0)));
    while i < ts.len()
        invariant
            i <= ts.len(),
            all == type_views(ts@),
            out@.len() == i,
            type_views(out@) == sorted_types(all.take(i as int)),
            forall|j: int| 0 <= j < i ==> zones_named((#[trigger] ts@[j])@),
        decreases ts.len() - i,
    {
        let p = find_pos(&out, &ts[i]);
        let t = ts[i].clone();
        let ghost before = out@;
        out.insert(p, t);
        proof {
            assert(all.take(i + 1).drop_last() =~= all.take(i as int));
            assert(all.take(i + 1).last() == ts@[i as int]@);
            assert(type_views(out@) =~= type_views(before).insert(p as int, ts@[i as int]@));
        }
        i += 1;
    }
    assert(all.take(all.len() as int) =~= all);
    out
}

} // verus!
