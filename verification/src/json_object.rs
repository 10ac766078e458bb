//! JSON objects: members in the order of their names, and values at paths.
use vstd::prelude::*;

use crate::dynamic::{lemma_name_pos, name_pos, strictly_ascending};
use crate::error::{Error, ReadReason, Result};
use crate::json_value::{member_views, JsonValue, JsonView};
use crate::text::{chars_le, eq_chars, texts, to_chars};

verus! {

/// The names of members.
pub open spec fn member_names(m: Seq<(Seq<char>, JsonView)>) -> Seq<Seq<char>> {
    Seq::new(m.len(), |i: int| m[i].0)
}

/// The place of a member, if there is one of the name.
pub open spec fn member_at(m: Seq<(Seq<char>, JsonView)>, name: Seq<char>) -> Option<int> {
    let p = name_pos(member_names(m), name, 0);
    if p < m.len() && m[p].0 == name {
        Some(p)
    } else {
        None
    }
}

/// The value of a member, if there is one of the name.
pub open spec fn member_value(m: Seq<(Seq<char>, JsonView)>, name: Seq<char>) -> Option<JsonView> {
    match member_at(m, name) {
        Some(p) => Some(m[p].1),
        None => None,
    }
}

/// Members with one set: in place of the one of that name, or in the place of its name.
pub open spec fn with_member(
    m: Seq<(Seq<char>, JsonView)>,
    name: Seq<char>,
    value: JsonView,
) -> Seq<(Seq<char>, JsonView)> {
    match member_at(m, name) {
        Some(p) => m.update(p, (name, value)),
        None => m.insert(name_pos(member_names(m), name, 0), (name, value)),
    }
}

/// Members are found by their names, and setting one changes no other.
pub proof fn law_with_member(
    m: Seq<(Seq<char>, JsonView)>,
    name: Seq<char>,
    value: JsonView,
    other: Seq<char>,
)
    requires
        strictly_ascending(member_names(m)),
    ensures
        strictly_ascending(member_names(with_member(m, name, value))),
        member_value(with_member(m, name, value), name) == Some(value),
        other != name ==> member_value(with_member(m, name, value), other) == member_value(
            m,
            other,
        ),
{
    let names = member_names(m);
    let all = with_member(m, name, value);
    crate::dynamic::lemma_with_name(names, name);
    lemma_name_pos(names, name, 0);
    assert(member_names(all) =~= crate::dynamic::with_name(names, name));
    lemma_member_found(m, other);
    lemma_member_found(all, other);
    lemma_member_found(all, name);
    let p = name_pos(names, name, 0);
    assert(all[p] == (name, value));
    assert(member_names(all)[p] == name);
    lemma_name_pos(names, other, 0);
    lemma_name_pos(member_names(all), other, 0);
    if other != name {
        match member_at(m, other) {
            Some(q) => {
                let q2 = if member_at(m, name) is None && q >= p {
                    q + 1
                } else {
                    q
                };
                assert(all[q2] == m[q]);
                assert(member_names(all)[q2] == other);
            },
            None => {
                if let Some(q) = member_at(all, other) {
                    let q2 = if member_at(m, name) is None && q > p {
                        q - 1
                    } else {
                        q
                    };
                    assert(m[q2] == all[q]);
                    assert(names[q2] == other);
                }
            },
        }
    }
}

/// In ordered members, the one of a name is found where it stands.
proof fn lemma_member_found(m: Seq<(Seq<char>, JsonView)>, name: Seq<char>)
    requires
        strictly_ascending(member_names(m)),
    ensures
        forall|i: int|
            0 <= i < m.len() && #[trigger] member_names(m)[i] == name ==> member_at(m, name)
                == Some(i),
{
    let names = member_names(m);
    lemma_name_pos(names, name, 0);
    let p = name_pos(names, name, 0);
    assert forall|i: int| 0 <= i < m.len() && #[trigger] names[i] == name implies member_at(
        m,
        name,
    ) == Some(i) by {
        crate::text::lemma_text_le_refl(name);
        assert(p <= i);
        if p < i {
            assert(crate::text::text_le(names[p], names[i]) && names[p] != names[i]);
            crate::text::lemma_text_le_antisym(names[p], names[i]);
        }
    }
}

/// Where a name goes among members.
fn find_member(m: &Vec<(String, JsonValue)>, name: &Vec<char>) -> (r: (usize, bool))
    ensures
        r.0 == name_pos(member_names(member_views(m@)), name@, 0),
        r.0 <= m@.len(),
        r.1 == (member_at(member_views(m@), name@) is Some),
        r.1 ==> r.0 < m@.len(),
{
    let ghost all = member_views(m@);
    let ghost names = member_names(all);
    let mut i: usize = 0;
    while i < m.len()
        invariant
            i <= m.len(),
            all == member_views(m@),
            names == member_names(all),
            name_pos(names, name@, 0) == name_pos(names, name@, i as int),
        decreases m.len() - i,
    {
        let other = to_chars(m[i].0.as_str());
        assert(names[i as int] == other@);
        assert(all[i as int].0 == other@);
        if chars_le(name, &other) {
            return (i, eq_chars(&other, name));
        }
        i += 1;
    }
    assert(names.len() == m@.len());
    (i, false)
}

/// Sets a member.
pub fn insert_member(m: &mut Vec<(String, JsonValue)>, name: String, value: JsonValue)
    ensures
        member_views(final(m)@) == with_member(member_views(old(m)@), name@, value@),
{
    let ghost before = member_views(m@);
    let ghost entry = (name@, value@);
    let chars = to_chars(name.as_str());
    let (p, found) = find_member(m, &chars);
    if found {
        m.set(p, (name, value));
        assert(member_views(m@) =~= before.update(p as int, entry));
    } else {
        m.insert(p, (name, value));
        assert(member_views(m@) =~= before.insert(p as int, entry));
    }
}

// ---------------------------------------------------------------------------
// Paths
// ---------------------------------------------------------------------------

/// Members with a value set at a path. Objects are made on the way; anything else there
/// is in the way.
pub open spec fn with_nested(
    m: Seq<(Seq<char>, JsonView)>,
    segments: Seq<Seq<char>>,
    value: JsonView,
) -> core::result::Result<Seq<(Seq<char>, JsonView)>, Error>
    decreases segments.len(),
{
    if segments.len() == 0 {
        Err(Error::DeserializeError(ReadReason::EmptyPath))
    } else if segments.len() == 1 {
        Ok(with_member(m, segments[0], value))
    } else {
        match member_value(m, segments[0]) {
            None => match with_nested(Seq::empty(), segments.skip(1), value) {
                Err(e) => Err(e),
                Ok(inner) => Ok(with_member(m, segments[0], JsonView::Object(inner))),
            },
            Some(JsonView::Object(x)) => match with_nested(x, segments.skip(1), value) {
                Err(e) => Err(e),
                Ok(inner) => Ok(with_member(m, segments[0], JsonView::Object(inner))),
            },
            Some(_) => Err(Error::DeserializeError(ReadReason::PathConflict)),
        }
    }
}

/// The value at a path.
pub open spec fn nested_value(m: Seq<(Seq<char>, JsonView)>, segments: Seq<Seq<char>>) -> Option<
    JsonView,
>
    decreases segments.len(),
{
    if segments.len() == 0 {
        None
    } else if segments.len() == 1 {
        member_value(m, segments[0])
    } else {
        match member_value(m, segments[0]) {
            Some(JsonView::Object(x)) => nested_value(x, segments.skip(1)),
            _ => None,
        }
    }
}

/// Whether the members on the way along a path are ordered.
pub open spec fn ordered_along(m: Seq<(Seq<char>, JsonView)>, segments: Seq<Seq<char>>) -> bool
    decreases segments.len(),
{
    &&& strictly_ascending(member_names(m))
    &&& segments.len() > 1 ==> match member_value(m, segments[0]) {
        Some(JsonView::Object(x)) => ordered_along(x, segments.skip(1)),
        _ => true,
    }
}

/// What was set at a path is found there.
pub proof fn law_nested_value(
    m: Seq<(Seq<char>, JsonView)>,
    segments: Seq<Seq<char>>,
    value: JsonView,
)
    requires
        ordered_along(m, segments),
        with_nested(m, segments, value) is Ok,
    ensures
        nested_value(with_nested(m, segments, value)->Ok_0, segments) == Some(value),
        strictly_ascending(member_names(with_nested(m, segments, value)->Ok_0)),
    decreases segments.len(),
{
    let name = segments[0];
    if segments.len() == 1 {
        law_with_member(m, name, value, name);
    } else {
        let inner = match member_value(m, name) {
            Some(JsonView::Object(x)) => x,
            _ => Seq::empty(),
        };
        if member_value(m, name) is None {
            assert(ordered_along(Seq::<(Seq<char>, JsonView)>::empty(), segments.skip(1))) by {
                lemma_empty_ordered(segments.skip(1));
            }
        }
        law_nested_value(inner, segments.skip(1), value);
        let sub = with_nested(inner, segments.skip(1), value)->Ok_0;
        law_with_member(m, name, JsonView::Object(sub), name);
    }
}

proof fn lemma_empty_ordered(segments: Seq<Seq<char>>)
    ensures
        ordered_along(Seq::<(Seq<char>, JsonView)>::empty(), segments),
{
    let none = Seq::<(Seq<char>, JsonView)>::empty();
    assert(member_names(none) =~= Seq::<Seq<char>>::empty());
    if segments.len() > 0 {
        assert(member_value(none, segments[0]) is None);
    }
}

/// Sets a value at a path.
pub fn set_nested_value_segments(
    object: &mut Vec<(String, JsonValue)>,
    segments: &[String],
    value: JsonValue,
) -> (r: Result<()>)
    ensures
        match r {
            Ok(()) => with_nested(member_views(old(object)@), texts(segments@), value@) == Ok::<
                _,
                Error,
            >(member_views(final(object)@)),
            Err(e) => with_nested(member_views(old(object)@), texts(segments@), value@) == Err::<
                Seq<(Seq<char>, JsonView)>,
                Error,
            >(e),
        },
    decreases segments@.len(),
{
    let ghost before = member_views(object@);
    let ghost path = texts(segments@);
    if segments.len() == 0 {
        return Err(Error::DeserializeError(ReadReason::EmptyPath));
    }
    let name = segments[0].clone();
    assert(path[0] == name@);
    if segments.len() == 1 {
        insert_member(object, name, value);
        return Ok(());
    }
    let rest = vstd::slice::slice_subrange(segments, 1, segments.len());
    assert(texts(rest@) =~= path.skip(1));
    let chars = to_chars(name.as_str());
    let (p, found) = find_member(object, &chars);
    let mut inner: Vec<(String, JsonValue)> = Vec::new();
    if found {
        assert(before[p as int].1 == object@[p as int].1@);
        proof {
            object@[p as int].1.lemma_view();
        }
        match object[p].1.clone() {
            JsonValue::Object(x) => {
                proof {
                    JsonValue::Object(x).lemma_view();
                }
                inner = x;
            },
            _ => {
                assert(!(before[p as int].1 is Object));
                return Err(Error::DeserializeError(ReadReason::PathConflict));
            },
        }
    } else {
        assert(member_views(inner@) =~= Seq::<(Seq<char>, JsonView)>::empty());
    }
    match set_nested_value_segments(&mut inner, rest, value) {
        Err(e) => Err(e),
        Ok(()) => {
            let x = JsonValue::Object(inner);
            proof {
                x.lemma_view();
            }
            insert_member(object, name, x);
            Ok(())
        },
    }
}

} // verus!
