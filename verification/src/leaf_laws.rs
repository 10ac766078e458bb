//! A document is what its leaves make when they are set at their paths.
use vstd::prelude::*;

use crate::dynamic::{lemma_name_pos, name_pos, strictly_ascending};
use crate::error::Error;
use crate::json_object::{
    law_with_member, member_at, member_names, member_value, with_member, with_nested,
};
use crate::json_paths::{leaves, member_leaves, member_path};
use crate::json_value::JsonView;
use crate::text::{lemma_split_nonempty, lemma_text_le_antisym, split_text, text_le};

verus! {

/// The members of an object.
pub type Members = Seq<(Seq<char>, JsonView)>;

/// Members with values set at paths, one behind the other.
pub open spec fn put_leaves(m: Members, ls: Seq<(Seq<char>, JsonView)>) -> core::result::Result<
    Members,
    Error,
>
    decreases ls.len(),
{
    if ls.len() == 0 {
        Ok(m)
    } else {
        match put_leaves(m, ls.drop_last()) {
            Err(e) => Err(e),
            Ok(x) => with_nested(x, split_text(ls.last().0, '.'), ls.last().1),
        }
    }
}

/// Whether the objects of a document have their members in order, under names that are
/// not empty and hold no points, and whether no object within it is empty.
pub open spec fn tidy(j: JsonView) -> bool
    decreases j,
{
    match j {
        JsonView::Object(m) => {
            &&& strictly_ascending(member_names(m))
            &&& forall|i: int|
                0 <= i < m.len() ==> {
                    &&& (#[trigger] m[i]).0.len() > 0
                    &&& !m[i].0.contains('.')
                    &&& !(m[i].1 matches JsonView::Object(x) && x.len() == 0)
                    &&& tidy(m[i].1)
                }
        },
        _ => true,
    }
}

// ---------------------------------------------------------------------------
// Leaves by the names along their paths
// ---------------------------------------------------------------------------

/// A leaf: the names along its path, and its value.
pub type Leaf = (Seq<Seq<char>>, JsonView);

/// Leaves of a member as those of its object.
pub open spec fn under(name: Seq<char>, ls: Seq<Leaf>) -> Seq<Leaf> {
    Seq::new(ls.len(), |i: int| (seq![name] + ls[i].0, ls[i].1))
}

/// The leaves of a document.
pub open spec fn leaf_names(j: JsonView) -> Seq<Leaf>
    decreases j,
{
    match j {
        JsonView::Object(m) => all_leaf_names(m),
        _ => seq![(Seq::empty(), j)],
    }
}

/// The leaves of the members of an object.
pub open spec fn all_leaf_names(m: Members) -> Seq<Leaf>
    decreases m,
{
    if m.len() == 0 {
        Seq::empty()
    } else {
        all_leaf_names(m.subrange(0, m.len() - 1)) + under(m.last().0, leaf_names(m.last().1))
    }
}

/// Members with leaves set, one behind the other.
pub open spec fn put_names(m: Members, ls: Seq<Leaf>) -> core::result::Result<Members, Error>
    decreases ls.len(),
{
    if ls.len() == 0 {
        Ok(m)
    } else {
        match put_names(m, ls.drop_last()) {
            Err(e) => Err(e),
            Ok(x) => with_nested(x, ls.last().0, ls.last().1),
        }
    }
}

pub(crate) proof fn lemma_put_append(m: Members, a: Seq<Leaf>, b: Seq<Leaf>)
    ensures
        put_names(m, a + b) == match put_names(m, a) {
            Err(e) => Err(e),
            Ok(x) => put_names(x, b),
        },
    decreases b.len(),
{
    if b.len() == 0 {
        assert(a + b =~= a);
    } else {
        lemma_put_append(m, a, b.drop_last());
        assert((a + b).drop_last() =~= a + b.drop_last());
    }
}

pub(crate) proof fn lemma_put_prefix(m: Members, ls: Seq<Leaf>, n: int)
    requires
        put_names(m, ls) is Ok,
        0 <= n <= ls.len(),
    ensures
        put_names(m, ls.take(n)) is Ok,
{
    assert(ls =~= ls.take(n) + ls.skip(n));
    lemma_put_append(m, ls.take(n), ls.skip(n));
}

// ---------------------------------------------------------------------------
// Members
// ---------------------------------------------------------------------------

proof fn lemma_push_member(m: Members, name: Seq<char>, value: JsonView)
    requires
        strictly_ascending(member_names(m.push((name, value)))),
    ensures
        with_member(m, name, value) == m.push((name, value)),
        member_value(m, name) is None,
        strictly_ascending(member_names(m)),
{
    let names = member_names(m);
    let all = member_names(m.push((name, value)));
    assert forall|i: int, j: int| 0 <= i < j < names.len() implies text_le(names[i], names[j])
        && names[i] != names[j] by {
        assert(all[i] == names[i] && all[j] == names[j]);
        assert(text_le(all[i], all[j]));
    }
    lemma_name_pos(names, name, 0);
    let p = name_pos(names, name, 0);
    if p < names.len() {
        assert(all[p] == names[p]);
        assert(all[names.len() as int] == name);
        assert(text_le(all[p], all[names.len() as int]));
        lemma_text_le_antisym(names[p], name);
    }
    assert(m.insert(m.len() as int, (name, value)) =~= m.push((name, value)));
}

pub(crate) proof fn lemma_replace_member(m: Members, name: Seq<char>, x: JsonView, y: JsonView)
    requires
        strictly_ascending(member_names(m)),
    ensures
        with_member(with_member(m, name, x), name, y) == with_member(m, name, y),
        member_value(with_member(m, name, x), name) == Some(x),
{
    law_with_member(m, name, x, name);
    let names = member_names(m);
    lemma_name_pos(names, name, 0);
    let one = with_member(m, name, x);
    let p = name_pos(names, name, 0);
    assert(one[p] == (name, x));
    assert(member_value(one, name) == Some(x));
    lemma_name_pos(member_names(one), name, 0);
    let q = member_at(one, name)->0;
    assert(0 <= q < one.len() && one[q].0 == name);
    assert(member_names(one)[q] == name);
    assert(member_names(one)[p] == name);
    if q < p {
        assert(text_le(member_names(one)[q], member_names(one)[p]));
    } else if p < q {
        assert(text_le(member_names(one)[p], member_names(one)[q]));
    }
    assert(with_member(one, name, y) =~= with_member(m, name, y));
}

proof fn lemma_put_under(m: Members, name: Seq<char>, ls: Seq<Leaf>)
    requires
        strictly_ascending(member_names(m)),
        member_value(m, name) is None,
        ls.len() > 0,
        forall|i: int| 0 <= i < ls.len() ==> (#[trigger] ls[i]).0.len() > 0,
        put_names(Seq::empty(), ls) is Ok,
    ensures
        put_names(m, under(name, ls)) == Ok::<_, Error>(
            with_member(m, name, JsonView::Object(put_names(Seq::empty(), ls)->Ok_0)),
        ),
    decreases ls.len(),
{
    let head = ls.drop_last();
    let last = ls.last();
    let all = under(name, ls);
    assert(all.drop_last() =~= under(name, head));
    let segments = seq![name] + last.0;
    assert(all.last() == (segments, last.1));
    assert(ls[ls.len() - 1].0.len() > 0);
    assert(segments.skip(1) =~= last.0);
    assert(segments.len() > 1 && segments[0] == name);
    let empty: Members = Seq::empty();
    lemma_put_prefix(empty, ls, ls.len() - 1);
    assert(ls.take(ls.len() - 1) =~= head);
    if head.len() == 0 {
        assert(put_names(m, under(name, head)) == Ok::<_, Error>(m));
        assert(put_names(empty, head) == Ok::<_, Error>(empty));
    } else {
        assert forall|i: int| 0 <= i < head.len() implies (#[trigger] head[i]).0.len() > 0 by {
            assert(head[i] == ls[i]);
        }
        lemma_put_under(m, name, head);
        let inner = put_names(empty, head)->Ok_0;
        let next = put_names(empty, ls)->Ok_0;
        lemma_replace_member(m, name, JsonView::Object(inner), JsonView::Object(next));
    }
}

pub(crate) proof fn lemma_leaf_names_fit(j: JsonView)
    requires
        tidy(j),
    ensures
        !(j is Object) ==> leaf_names(j) == seq![(Seq::<Seq<char>>::empty(), j)],
        j matches JsonView::Object(m) ==> forall|i: int|
            0 <= i < leaf_names(j).len() ==> (#[trigger] leaf_names(j)[i]).0.len() > 0,
        j matches JsonView::Object(m) ==> m.len() > 0 ==> leaf_names(j).len() > 0,
    decreases j,
{
    if let JsonView::Object(m) = j {
        lemma_all_fit(m);
    }
}

pub(crate) proof fn lemma_all_fit(m: Members)
    requires
        tidy(JsonView::Object(m)),
    ensures
        forall|i: int|
            0 <= i < all_leaf_names(m).len() ==> (#[trigger] all_leaf_names(m)[i]).0.len() > 0,
        m.len() > 0 ==> all_leaf_names(m).len() > 0,
    decreases m,
{
    if m.len() > 0 {
        let head = m.subrange(0, m.len() - 1);
        let last = m.last();
        lemma_tidy_head(m);
        lemma_all_fit(head);
        assert(last == m[m.len() - 1]);
        lemma_leaf_names_fit(last.1);
        let ls = under(last.0, leaf_names(last.1));
        assert(leaf_names(last.1).len() > 0);
        let all = all_leaf_names(m);
        assert forall|i: int| 0 <= i < all.len() implies (#[trigger] all[i]).0.len() > 0 by {
            if i < all_leaf_names(head).len() {
                assert(all[i] == all_leaf_names(head)[i]);
            } else {
                assert(all[i] == ls[i - all_leaf_names(head).len()]);
            }
        }
    }
}

pub(crate) proof fn lemma_tidy_head(m: Members)
    requires
        tidy(JsonView::Object(m)),
        m.len() > 0,
    ensures
        tidy(JsonView::Object(m.subrange(0, m.len() - 1))),
{
    let head = m.subrange(0, m.len() - 1);
    let names = member_names(m);
    let hn = member_names(head);
    assert forall|i: int, j: int| 0 <= i < j < hn.len() implies text_le(hn[i], hn[j]) && hn[i]
        != hn[j] by {
        assert(names[i] == hn[i] && names[j] == hn[j]);
        assert(text_le(names[i], names[j]));
    }
    assert forall|i: int| 0 <= i < head.len() implies {
        &&& (#[trigger] head[i]).0.len() > 0
        &&& !head[i].0.contains('.')
        &&& !(head[i].1 matches JsonView::Object(x) && x.len() == 0)
        &&& tidy(head[i].1)
    } by {
        assert(head[i] == m[i]);
    }
}

pub(crate) proof fn lemma_names_make(m: Members)
    requires
        tidy(JsonView::Object(m)),
    ensures
        put_names(Seq::empty(), all_leaf_names(m)) == Ok::<_, Error>(m),
    decreases m,
{
    let empty: Members = Seq::empty();
    if m.len() == 0 {
        assert(m =~= empty);
    } else {
        let head = m.subrange(0, m.len() - 1);
        let last = m.last();
        assert(last == m[m.len() - 1]);
        lemma_tidy_head(m);
        lemma_names_make(head);
        assert(head.push(last) =~= m);
        assert(last == (last.0, last.1));
        lemma_push_member(head, last.0, last.1);
        let inner = leaf_names(last.1);
        let ls = under(last.0, inner);
        lemma_put_append(empty, all_leaf_names(head), ls);
        lemma_leaf_names_fit(last.1);
        if let JsonView::Object(x) = last.1 {
            lemma_names_make(x);
            lemma_put_under(head, last.0, inner);
        } else {
            let segments = seq![last.0] + Seq::<Seq<char>>::empty();
            assert(ls =~= seq![(segments, last.1)]);
            assert(segments.len() == 1 && segments[0] == last.0);
            assert(ls.drop_last() =~= Seq::<Leaf>::empty());
            assert(put_names(head, ls.drop_last()) == Ok::<_, Error>(head));
        }
    }
}

// ---------------------------------------------------------------------------
// Paths
// ---------------------------------------------------------------------------

proof fn lemma_split_name(s: Seq<char>)
    requires
        !s.contains('.'),
    ensures
        split_text(s, '.') == seq![s],
    decreases s.len(),
{
    if s.len() > 0 {
        assert(s.contains(s[0]));
        let tail = s.skip(1);
        assert(!tail.contains('.')) by {
            if tail.contains('.') {
                let k = choose|k: int| 0 <= k < tail.len() && tail[k] == '.';
                assert(s[k + 1] == '.');
            }
        }
        lemma_split_name(tail);
        assert(seq![s[0]] + tail =~= s);
        assert(seq![tail].update(0, s) =~= seq![s]);
    }
}

proof fn lemma_split_path(a: Seq<char>, b: Seq<char>)
    ensures
        split_text(a + seq!['.'] + b, '.') == split_text(a, '.') + split_text(b, '.'),
    decreases a.len(),
{
    let s = a + seq!['.'] + b;
    if a.len() == 0 {
        assert(s.skip(1) =~= b);
        assert(s[0] == '.');
        assert(a =~= Seq::<char>::empty());
    } else {
        let tail = a.skip(1);
        lemma_split_path(tail, b);
        lemma_split_nonempty(tail, '.');
        assert(s.skip(1) =~= tail + seq!['.'] + b);
        assert(s[0] == a[0]);
        let x = split_text(tail, '.');
        let y = split_text(b, '.');
        if a[0] == '.' {
            assert(seq![Seq::<char>::empty()] + (x + y) =~= seq![Seq::<char>::empty()] + x + y);
        } else {
            let h = seq![a[0]] + x[0];
            assert((x + y)[0] == x[0]);
            assert((x + y).update(0, h) =~= x.update(0, h) + y);
        }
    }
}

/// Whether leaves are the same by their paths and by the names along them, below a path.
pub open spec fn agree(
    ls: Seq<(Seq<char>, JsonView)>,
    ns: Seq<Leaf>,
    before: Seq<Seq<char>>,
) -> bool {
    &&& ls.len() == ns.len()
    &&& forall|i: int|
        0 <= i < ls.len() ==> split_text((#[trigger] ls[i]).0, '.') == before + ns[i].0 && ls[i].1
            == ns[i].1
}

/// The names along a path; none along the empty one.
pub open spec fn steps(path: Seq<char>) -> Seq<Seq<char>> {
    if path.len() == 0 {
        Seq::empty()
    } else {
        split_text(path, '.')
    }
}

pub(crate) proof fn lemma_steps(path: Seq<char>, name: Seq<char>)
    requires
        name.len() > 0,
        !name.contains('.'),
    ensures
        steps(member_path(path, name)) == steps(path) + seq![name],
        member_path(path, name).len() > 0,
{
    lemma_split_name(name);
    if path.len() == 0 {
        assert(steps(path) + seq![name] =~= seq![name]);
    } else {
        lemma_split_path(path, name);
    }
}

proof fn lemma_leaves_agree(j: JsonView, path: Seq<char>)
    requires
        tidy(j),
        path.len() > 0,
    ensures
        agree(leaves(j, path), leaf_names(j), steps(path)),
    decreases j,
{
    match j {
        JsonView::Object(m) => {
            lemma_members_agree(m, path);
        },
        _ => {
            assert(steps(path) + Seq::<Seq<char>>::empty() =~= steps(path));
        },
    }
}

pub(crate) proof fn lemma_members_agree(m: Members, path: Seq<char>)
    requires
        tidy(JsonView::Object(m)),
    ensures
        agree(member_leaves(m, path), all_leaf_names(m), steps(path)),
    decreases m,
{
    if m.len() > 0 {
        let head = m.subrange(0, m.len() - 1);
        let last = m.last();
        assert(last == m[m.len() - 1]);
        lemma_tidy_head(m);
        lemma_members_agree(head, path);
        lemma_steps(path, last.0);
        let p = member_path(path, last.0);
        lemma_leaves_agree(last.1, p);
        let ls = leaves(last.1, p);
        let ns = leaf_names(last.1);
        let un = under(last.0, ns);
        let a = member_leaves(head, path);
        let all = member_leaves(m, path);
        let names = all_leaf_names(m);
        assert forall|i: int| 0 <= i < all.len() implies split_text((#[trigger] all[i]).0, '.')
            == steps(path) + names[i].0 && all[i].1 == names[i].1 by {
            if i < a.len() {
                assert(all[i] == a[i]);
                assert(names[i] == all_leaf_names(head)[i]);
            } else {
                let k = i - a.len();
                assert(all[i] == ls[k]);
                assert(names[i] == un[k]);
                assert(steps(p) + ns[k].0 =~= steps(path) + (seq![last.0] + ns[k].0));
            }
        }
    }
}

proof fn lemma_put_agree(m: Members, ls: Seq<(Seq<char>, JsonView)>, ns: Seq<Leaf>)
    requires
        agree(ls, ns, Seq::empty()),
    ensures
        put_leaves(m, ls) == put_names(m, ns),
    decreases ls.len(),
{
    if ls.len() > 0 {
        let a = ls.drop_last();
        let b = ns.drop_last();
        assert(agree(a, b, Seq::empty())) by {
            assert forall|i: int| 0 <= i < a.len() implies split_text((#[trigger] a[i]).0, '.')
                == Seq::<Seq<char>>::empty() + b[i].0 && a[i].1 == b[i].1 by {
                assert(a[i] == ls[i]);
            }
        }
        lemma_put_agree(m, a, b);
        let k = ls.len() - 1;
        assert(split_text(ls[k].0, '.') == Seq::<Seq<char>>::empty() + ns[k].0);
        assert(Seq::<Seq<char>>::empty() + ns[k].0 =~= ns[k].0);
    }
}

/// The leaves of an object, set at their paths in an empty one, make it again.
pub proof fn law_leaves_make_the_document(m: Members)
    requires
        tidy(JsonView::Object(m)),
    ensures
        put_leaves(Seq::empty(), leaves(JsonView::Object(m), Seq::empty())) == Ok::<_, Error>(m),
{
    lemma_members_agree(m, Seq::empty());
    lemma_put_agree(Seq::empty(), member_leaves(m, Seq::empty()), all_leaf_names(m));
    lemma_names_make(m);
}

} // verus!
