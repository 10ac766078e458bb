//! What trees values become in types that are not their own, and what documents trees become.
use vstd::prelude::*;

use crate::error::{Error, ReadReason};
use crate::guess::guessed;
use crate::json_object::with_member;
use crate::json_value::JsonView;
use crate::node::{MapKeyPolicy, NodeMode, NodeView};
use crate::text::int_text;
use crate::typed_node::{
    json_of, json_of_node, jsons_of_nodes, key_json, keys_json, members_from, node_of,
};
use crate::types::TypeView;
use crate::value_text::{datetime64_text, datetime_text};
use crate::values::ValueView;

verus! {

// ---------------------------------------------------------------------------
// Types looked through
// ---------------------------------------------------------------------------

/// A value in a type of values that may be null becomes what it becomes in the type itself; where
/// rows are read, in a dictionary likewise.
pub proof fn law_trees_look_through(v: ValueView, t: TypeView, mode: NodeMode)
    ensures
        node_of(v, TypeView::Nullable(Box::new(t)), mode) == node_of(v, t, mode),
        node_of(v, TypeView::LowCardinality(Box::new(t)), NodeMode::Reading) == node_of(
            v,
            t,
            NodeMode::Reading,
        ),
{
}

/// A value of a variant, or of any type, becomes what it becomes in the type it shows itself.
pub proof fn law_trees_of_any_values(d: u8, x: ValueView, t: TypeView, mode: NodeMode)
    requires
        !(mode is Plain),
    ensures
        node_of(ValueView::Variant(d, Box::new(x)), t, mode) == node_of(x, guessed(x), mode),
{
    let v = ValueView::Variant(d, Box::new(x));
    assert(crate::typed_node::value_size(v) == 1 + crate::typed_node::value_size(x));
}

/// An array in a type of no arrays becomes its document, and a tuple in one of no tuples, a map in
/// one of no maps.
pub proof fn law_trees_in_other_types(v: ValueView, t: TypeView, mode: NodeMode)
    requires
        v is Array && !(t is Array) || v is Tuple && !(t is Tuple || t is TupleNamed) || v is MapOf
            && !(t is MapOf),
        !(t is Nullable || t is LowCardinality),
    ensures
        json_of(v) matches Ok(j) ==> node_of(v, t, mode) == Ok::<_, Error>(NodeView::Json(j)),
        json_of(v) is Err ==> node_of(v, t, mode) is Err,
{
}

/// Times of a row that is read stand as texts, with as many digits behind the point as the type
/// tells.
pub proof fn law_times_of_rows(tz: chrono_tz::Tz, x: u32, ticks: u64, p: usize, t: TypeView)
    ensures
        t is DateTime && datetime_text(tz, x) is Some ==> node_of(
            ValueView::DateTime(tz, x),
            t,
            NodeMode::Reading,
        ) == Ok::<_, Error>(NodeView::Str(datetime_text(tz, x)->0)),
        t matches TypeView::DateTime64(scale, _) ==> (match datetime64_text(
            tz,
            ticks,
            p as nat,
            scale as nat,
        ) {
            Some(s) => node_of(ValueView::DateTime64(tz, ticks, p), t, NodeMode::Reading) == Ok::<
                _,
                Error,
            >(NodeView::Str(s)),
            None => node_of(ValueView::DateTime64(tz, ticks, p), t, NodeMode::Reading) is Err,
        }),
{
}

// ---------------------------------------------------------------------------
// Documents of trees
// ---------------------------------------------------------------------------

/// A list becomes an array of the documents of its elements, in their order.
pub proof fn law_documents_of_lists(x: Seq<NodeView>, j: JsonView, i: int)
    requires
        json_of_node(NodeView::List(x)) == Ok::<_, Error>(j),
    ensures
        j matches JsonView::Array(a) && a.len() == x.len() && (0 <= i < x.len() ==> json_of_node(x[i])
            == Ok::<_, Error>(a[i])),
{
    lemma_jsons(x, i);
}

proof fn lemma_jsons(x: Seq<NodeView>, i: int)
    requires
        jsons_of_nodes(x) is Ok,
    ensures
        jsons_of_nodes(x)->Ok_0.len() == x.len(),
        0 <= i < x.len() ==> json_of_node(x[i]) == Ok::<_, Error>(jsons_of_nodes(x)->Ok_0[i]),
    decreases x.len(),
{
    if x.len() > 0 {
        let more = x.subrange(1, x.len() as int);
        lemma_jsons(more, i - 1);
        if 0 < i < x.len() {
            assert(more[i - 1] == x[i]);
        }
    }
}

proof fn lemma_one_field(key: NodeView, name: Seq<char>, x: NodeView, j: JsonView)
    requires
        key_json(key) == Some(JsonView::String(name)),
        json_of_node(x) == Ok::<_, Error>(j),
    ensures
        json_of_node(NodeView::Fields(seq![key], seq![x])) == Ok::<_, Error>(
            JsonView::Object(seq![(name, j)]),
        ),
{
    let k = seq![key];
    let xs = seq![x];
    assert(k.subrange(1, 1) =~= Seq::<NodeView>::empty());
    assert(xs.subrange(1, 1) =~= Seq::<NodeView>::empty());
    assert(keys_json(k.subrange(1, 1)) == Some(Seq::<JsonView>::empty()));
    assert(jsons_of_nodes(xs.subrange(1, 1)) == Ok::<_, Error>(Seq::<JsonView>::empty()));
    let keys = seq![JsonView::String(name)];
    assert(seq![JsonView::String(name)] + Seq::<JsonView>::empty() =~= keys);
    assert(seq![j] + Seq::<JsonView>::empty() =~= seq![j]);
    reveal_with_fuel(members_from, 2);
    let none = Seq::<(Seq<char>, JsonView)>::empty();
    assert(with_member(none, name, j) =~= seq![(name, j)]);
}

/// A field becomes a member of an object under its name: a key that is a number or a truth value
/// under its text. A key that is missing or a list is refused.
pub proof fn law_documents_of_fields(key: NodeView, x: NodeView, j: JsonView)
    requires
        json_of_node(x) == Ok::<_, Error>(j),
    ensures
        ({
            let of = json_of_node(NodeView::Fields(seq![key], seq![x]));
            let named = |name: Seq<char>| Ok::<_, Error>(JsonView::Object(seq![(name, j)]));
            &&& key matches NodeView::Str(s) ==> of == named(s)
            &&& key matches NodeView::Bool(b) ==> of == named(
                if b {
                    "true"@
                } else {
                    "false"@
                },
            )
            &&& key matches NodeView::U8(n) ==> of == named(int_text(n as int))
            &&& key matches NodeView::U64(n) ==> of == named(int_text(n as int))
            &&& key matches NodeView::I32(n) ==> of == named(int_text(n as int))
            &&& key matches NodeView::I64(n) ==> of == named(int_text(n as int))
            &&& key is Missing || key is List || key is Fields ==> of == Err::<JsonView, Error>(
                Error::DeserializeError(ReadReason::KeyNotAString),
            )
        }),
{
    if let Some(JsonView::String(name)) = key_json(key) {
        lemma_one_field(key, name, x, j);
    } else {
        assert(seq![key][0] == key);
        assert(key is Missing || key is List || key is Fields ==> keys_json(seq![key]) is None);
    }
}

/// A document of a value is that of its tree in the type it shows itself.
pub proof fn law_documents_of_values(v: ValueView, n: NodeView)
    requires
        node_of(v, guessed(v), NodeMode::Typed(MapKeyPolicy::Stringify)) == Ok::<_, Error>(n),
    ensures
        json_of(v) == json_of_node(n),
{
}

} // verus!
