//! Trees of values of a type, and documents of values.
use vstd::prelude::*;
use vstd::utf8::decode_utf8;

use crate::columns::{field_types, types_of_fields};
use crate::error::{Error, ReadReason, Result};
use crate::guess::guessed;
use crate::json_object::{insert_member, with_member};
use crate::json_render::document_text;
use crate::json_value::{json_views, member_views, JsonNumber, JsonValue, JsonView};
use crate::node::{
    finite32, finite64, is_finite32, is_finite64, made, make_scalar, make_special, node_views,
    scalar_node, special_node, MapKeyPolicy, Node, NodeMode, NodeView, Noded,
};
use crate::text::{
    dec_text, from_chars, int_text, int_to_string, lossy_text, string_from_utf8, string_from_utf8_lossy, to_chars,
    uint_to_string,
};
use crate::types::{field_views, type_views, Type, TypeView};
use crate::values::{value_views, Value, ValueView};

verus! {

// ---------------------------------------------------------------------------
// Sizes
// ---------------------------------------------------------------------------

/// How many values a value is made of.
pub open spec fn value_size(v: ValueView) -> nat
    decreases v,
{
    match v {
        ValueView::Array(s) => 1 + values_size(s),
        ValueView::Tuple(s) => 1 + values_size(s),
        ValueView::MapOf(k, x) => 1 + values_size(k) + values_size(x),
        ValueView::Variant(_, x) => 1 + value_size(*x),
        ValueView::Dynamic(_, x) => 1 + value_size(*x),
        _ => 1,
    }
}

/// How many values a sequence of values is made of.
pub open spec fn values_size(s: Seq<ValueView>) -> nat
    decreases s,
{
    if s.len() == 0 {
        0
    } else {
        1 + value_size(s[0]) + values_size(s.subrange(1, s.len() as int))
    }
}

/// How many trees a tree is made of.
pub open spec fn node_size(n: NodeView) -> nat
    decreases n,
{
    match n {
        NodeView::List(s) => 1 + nodes_size(s),
        NodeView::Fields(k, x) => 1 + nodes_size(k) + nodes_size(x),
        _ => 1,
    }
}

/// How many trees a sequence of trees is made of.
pub open spec fn nodes_size(s: Seq<NodeView>) -> nat
    decreases s,
{
    if s.len() == 0 {
        0
    } else {
        1 + node_size(s[0]) + nodes_size(s.subrange(1, s.len() as int))
    }
}

/// What is left of values is no larger, and larger than the first of it.
pub proof fn lemma_values_size(s: Seq<ValueView>, i: int)
    requires
        0 <= i <= s.len(),
    ensures
        values_size(s.subrange(i, s.len() as int)) <= values_size(s),
        i < s.len() ==> value_size(s[i]) < values_size(s.subrange(i, s.len() as int)),
    decreases i,
{
    let here = s.subrange(i, s.len() as int);
    if i > 0 {
        lemma_values_size(s, i - 1);
        let before = s.subrange(i - 1, s.len() as int);
        assert(before.subrange(1, before.len() as int) =~= here);
    } else {
        assert(here =~= s);
    }
    if i < s.len() {
        assert(here[0] == s[i]);
    }
}

proof fn lemma_nodes_size(s: Seq<NodeView>, i: int)
    requires
        0 <= i <= s.len(),
    ensures
        nodes_size(s.subrange(i, s.len() as int)) <= nodes_size(s),
        i < s.len() ==> node_size(s[i]) < nodes_size(s.subrange(i, s.len() as int)),
    decreases i,
{
    let here = s.subrange(i, s.len() as int);
    if i > 0 {
        lemma_nodes_size(s, i - 1);
        let before = s.subrange(i - 1, s.len() as int);
        assert(before.subrange(1, before.len() as int) =~= here);
    } else {
        assert(here =~= s);
    }
    if i < s.len() {
        assert(here[0] == s[i]);
    }
}

// ---------------------------------------------------------------------------
// Documents of trees
// ---------------------------------------------------------------------------

/// A document, or why there is none.
pub type Documented = core::result::Result<JsonView, Error>;

/// An integer as a number of a document.
pub open spec fn int_number(x: int) -> JsonView {
    if x >= 0 {
        JsonView::Number(JsonNumber::PosInt(x as u64))
    } else {
        JsonView::Number(JsonNumber::NegInt(x as i64))
    }
}

/// The text of a truth value.
pub open spec fn bool_text(b: bool) -> Seq<char> {
    if b {
        "true"@
    } else {
        "false"@
    }
}

/// What names a member: a string, or a document whose text is the name. Integers and
/// truth values name members by their texts; what is no number names none.
pub open spec fn key_json(n: NodeView) -> Option<JsonView> {
    match n {
        NodeView::Str(s) => Some(JsonView::String(s)),
        NodeView::Bool(b) => Some(JsonView::String(bool_text(b))),
        NodeView::I8(x) => Some(JsonView::String(int_text(x as int))),
        NodeView::I16(x) => Some(JsonView::String(int_text(x as int))),
        NodeView::I32(x) => Some(JsonView::String(int_text(x as int))),
        NodeView::I64(x) => Some(JsonView::String(int_text(x as int))),
        NodeView::U8(x) => Some(JsonView::String(int_text(x as int))),
        NodeView::U16(x) => Some(JsonView::String(int_text(x as int))),
        NodeView::U32(x) => Some(JsonView::String(int_text(x as int))),
        NodeView::U64(x) => Some(JsonView::String(int_text(x as int))),
        NodeView::F32(x) => if finite32(x) {
            Some(JsonView::Number(JsonNumber::Single(x)))
        } else {
            None
        },
        NodeView::F64(x) => if finite64(x) {
            Some(JsonView::Number(JsonNumber::Float(x)))
        } else {
            None
        },
        NodeView::Json(j) => match j {
            JsonView::String(s) => Some(JsonView::String(s)),
            JsonView::Bool(b) => Some(JsonView::String(bool_text(b))),
            JsonView::Number(x) => Some(JsonView::Number(x)),
            _ => None,
        },
        _ => None,
    }
}

/// What names members.
pub open spec fn keys_json(s: Seq<NodeView>) -> Option<Seq<JsonView>>
    decreases s.len(),
{
    if s.len() == 0 {
        Some(Seq::empty())
    } else {
        match key_json(s[0]) {
            None => None,
            Some(j) => match keys_json(s.subrange(1, s.len() as int)) {
                None => None,
                Some(rest) => Some(seq![j] + rest),
            },
        }
    }
}

/// Whether all names are strings.
pub open spec fn all_strings(s: Seq<JsonView>) -> bool {
    forall|i: int| 0 <= i < s.len() ==> (#[trigger] s[i]) is String
}

/// The members that names and values make; a later one takes the place of an earlier
/// one with its name.
pub open spec fn members_from(keys: Seq<JsonView>, values: Seq<JsonView>, n: int) -> Seq<
    (Seq<char>, JsonView),
>
    decreases n,
{
    if n <= 0 {
        Seq::empty()
    } else {
        with_member(members_from(keys, values, n - 1), keys[n - 1]->String_0, values[n - 1])
    }
}

/// The object that names and values make.
pub open spec fn object_from(keys: Seq<JsonView>, values: Seq<JsonView>) -> JsonView {
    if keys.len() == values.len() && all_strings(keys) {
        JsonView::Object(members_from(keys, values, keys.len() as int))
    } else {
        JsonView::Entries(keys, values)
    }
}

/// The document of a tree.
pub open spec fn json_of_node(n: NodeView) -> Documented
    decreases node_size(n), 0nat,
{
    match n {
        NodeView::Missing => Ok(JsonView::Null),
        NodeView::Bool(b) => Ok(JsonView::Bool(b)),
        NodeView::I8(x) => Ok(int_number(x as int)),
        NodeView::I16(x) => Ok(int_number(x as int)),
        NodeView::I32(x) => Ok(int_number(x as int)),
        NodeView::I64(x) => Ok(int_number(x as int)),
        NodeView::U8(x) => Ok(int_number(x as int)),
        NodeView::U16(x) => Ok(int_number(x as int)),
        NodeView::U32(x) => Ok(int_number(x as int)),
        NodeView::U64(x) => Ok(int_number(x as int)),
        NodeView::F32(x) => Ok(
            if finite32(x) {
                JsonView::Number(JsonNumber::Single(x))
            } else {
                JsonView::Null
            },
        ),
        NodeView::F64(x) => Ok(
            if finite64(x) {
                JsonView::Number(JsonNumber::Float(x))
            } else {
                JsonView::Null
            },
        ),
        NodeView::Str(s) => Ok(JsonView::String(s)),
        NodeView::Json(j) => Ok(j),
        NodeView::List(s) => match jsons_of_nodes(s) {
            Err(e) => Err(e),
            Ok(a) => Ok(JsonView::Array(a)),
        },
        NodeView::Fields(k, x) => match keys_json(k) {
            None => Err(Error::DeserializeError(ReadReason::KeyNotAString)),
            Some(keys) => match jsons_of_nodes(x) {
                Err(e) => Err(e),
                Ok(values) => Ok(object_from(keys, values)),
            },
        },
    }
}

/// The documents of trees.
pub open spec fn jsons_of_nodes(s: Seq<NodeView>) -> core::result::Result<Seq<JsonView>, Error>
    decreases nodes_size(s), 0nat,
{
    if s.len() == 0 {
        Ok(Seq::empty())
    } else {
        match json_of_node(s[0]) {
            Err(e) => Err(e),
            Ok(j) => match jsons_of_nodes(s.subrange(1, s.len() as int)) {
                Err(e) => Err(e),
                Ok(rest) => Ok(seq![j] + rest),
            },
        }
    }
}

fn make_number(x: i128) -> (r: JsonValue)
    requires
        i64::MIN <= x <= u64::MAX,
    ensures
        r@ == int_number(x as int),
{
    if x >= 0 {
        JsonValue::Number(JsonNumber::PosInt(x as u64))
    } else {
        JsonValue::Number(JsonNumber::NegInt(x as i64))
    }
}

fn bool_to_string(b: bool) -> (r: String)
    ensures
        r@ == bool_text(b),
{
    if b {
        "true".to_owned()
    } else {
        "false".to_owned()
    }
}

fn make_member_key(n: &Node) -> (r: Option<JsonValue>)
    ensures
        match r {
            Some(j) => key_json(n@) == Some(j@),
            None => key_json(n@) is None,
        },
{
    match n {
        Node::Str(s) => Some(JsonValue::String(s.clone())),
        Node::Bool(b) => Some(JsonValue::String(bool_to_string(*b))),
        Node::I8(x) => Some(JsonValue::String(int_to_string(*x as i128))),
        Node::I16(x) => Some(JsonValue::String(int_to_string(*x as i128))),
        Node::I32(x) => Some(JsonValue::String(int_to_string(*x as i128))),
        Node::I64(x) => Some(JsonValue::String(int_to_string(*x as i128))),
        Node::U8(x) => Some(JsonValue::String(int_to_string(*x as i128))),
        Node::U16(x) => Some(JsonValue::String(int_to_string(*x as i128))),
        Node::U32(x) => Some(JsonValue::String(int_to_string(*x as i128))),
        Node::U64(x) => Some(JsonValue::String(int_to_string(*x as i128))),
        Node::F32(x) => if is_finite32(*x) {
            Some(JsonValue::Number(JsonNumber::Single(*x)))
        } else {
            None
        },
        Node::F64(x) => if is_finite64(*x) {
            Some(JsonValue::Number(JsonNumber::Float(*x)))
        } else {
            None
        },
        Node::Json(j) => match j {
            JsonValue::String(s) => Some(JsonValue::String(s.clone())),
            JsonValue::Bool(b) => Some(JsonValue::String(bool_to_string(*b))),
            JsonValue::Number(x) => Some(JsonValue::Number(*x)),
            _ => None,
        },
        _ => None,
    }
}

fn make_keys(nodes: &Vec<Node>) -> (r: Option<Vec<JsonValue>>)
    ensures
        match r {
            Some(v) => keys_json(node_views(nodes@)) == Some(json_views(v@)),
            None => keys_json(node_views(nodes@)) is None,
        },
{
    let ghost all = node_views(nodes@);
    let mut out: Vec<JsonValue> = Vec::new();
    let mut i: usize = 0;
    proof {
        assert(all.subrange(0, all.len() as int) =~= all);
        if let Some(rest) = keys_json(all) {
            assert(json_views(out@) + rest =~= rest);
        }
    }
    while i < nodes.len()
        invariant
            i <= nodes.len(),
            all == node_views(nodes@),
            keys_json(all) == match keys_json(all.subrange(i as int, all.len() as int)) {
                None => None,
                Some(rest) => Some(json_views(out@) + rest),
            },
        decreases nodes.len() - i,
    {
        let ghost head = json_views(out@);
        let ghost here = all.subrange(i as int, all.len() as int);
        proof {
            assert(here[0] == nodes@[i as int]@);
            assert(here.subrange(1, here.len() as int) =~= all.subrange(i + 1, all.len() as int));
        }
        let j = match make_member_key(&nodes[i]) {
            Some(j) => j,
            None => return None,
        };
        let ghost jv = j@;
        out.push(j);
        proof {
            assert(json_views(out@) =~= head.push(jv));
            if let Some(rest) = keys_json(all.subrange(i + 1, all.len() as int)) {
                assert(head + (seq![jv] + rest) =~= json_views(out@) + rest);
            }
        }
        i += 1;
    }
    assert(json_views(out@) + Seq::<JsonView>::empty() =~= json_views(out@));
    Some(out)
}

fn make_object(keys: Vec<JsonValue>, values: Vec<JsonValue>) -> (r: JsonValue)
    ensures
        r@ == object_from(json_views(keys@), json_views(values@)),
{
    let ghost kv = json_views(keys@);
    let ghost xv = json_views(values@);
    if keys.len() == values.len() {
        let mut members: Vec<(String, JsonValue)> = Vec::new();
        let mut i: usize = 0;
        let mut plain: bool = true;
        assert(member_views(members@) =~= Seq::<(Seq<char>, JsonView)>::empty());
        while plain && i < keys.len()
            invariant
                i <= keys.len(),
                keys.len() == values.len(),
                kv == json_views(keys@),
                xv == json_views(values@),
                plain ==> forall|j: int| 0 <= j < i ==> (#[trigger] kv[j]) is String,
                plain ==> member_views(members@) == members_from(kv, xv, i as int),
                !plain ==> !all_strings(kv),
            decreases keys.len() - i, (if plain { 1int } else { 0 }),
        {
            assert(kv[i as int] == keys@[i as int]@);
            match &keys[i] {
                JsonValue::String(s) => {
                    insert_member(&mut members, s.clone(), values[i].clone());
                    i += 1;
                },
                _ => {
                    assert(!(kv[i as int] is String));
                    plain = false;
                },
            }
        }
        if plain {
            let r = JsonValue::Object(members);
            proof {
                r.lemma_view();
            }
            return r;
        }
    }
    let r = JsonValue::Entries(keys, values);
    proof {
        r.lemma_view();
    }
    r
}

impl Node {
    /// The document of a tree.
    pub fn to_json(&self) -> (r: Result<JsonValue>)
        ensures
            match r {
                Ok(j) => json_of_node(self@) == Ok::<_, Error>(j@),
                Err(e) => json_of_node(self@) == Err::<JsonView, Error>(e),
            },
        decreases node_size(self@), 1nat,
    {
        proof {
            self.lemma_view();
        }
        match self {
            Node::Missing => Ok(JsonValue::Null),
            Node::Bool(b) => Ok(JsonValue::Bool(*b)),
            Node::I8(x) => Ok(make_number(*x as i128)),
            Node::I16(x) => Ok(make_number(*x as i128)),
            Node::I32(x) => Ok(make_number(*x as i128)),
            Node::I64(x) => Ok(make_number(*x as i128)),
            Node::U8(x) => Ok(make_number(*x as i128)),
            Node::U16(x) => Ok(make_number(*x as i128)),
            Node::U32(x) => Ok(make_number(*x as i128)),
            Node::U64(x) => Ok(make_number(*x as i128)),
            Node::F32(x) => Ok(
                if is_finite32(*x) {
                    JsonValue::Number(JsonNumber::Single(*x))
                } else {
                    JsonValue::Null
                },
            ),
            Node::F64(x) => Ok(
                if is_finite64(*x) {
                    JsonValue::Number(JsonNumber::Float(*x))
                } else {
                    JsonValue::Null
                },
            ),
            Node::Str(s) => Ok(JsonValue::String(s.clone())),
            Node::Json(j) => Ok(j.clone()),
            Node::List(s) => match nodes_to_json(s) {
                Err(e) => Err(e),
                Ok(a) => {
                    let r = JsonValue::Array(a);
                    proof {
                        r.lemma_view();
                    }
                    Ok(r)
                },
            },
            Node::Fields(k, x) => match make_keys(k) {
                None => Err(Error::DeserializeError(ReadReason::KeyNotAString)),
                Some(keys) => match nodes_to_json(x) {
                    Err(e) => Err(e),
                    Ok(values) => Ok(make_object(keys, values)),
                },
            },
        }
    }
}

fn nodes_to_json(nodes: &Vec<Node>) -> (r: Result<Vec<JsonValue>>)
    ensures
        match r {
            Ok(v) => jsons_of_nodes(node_views(nodes@)) == Ok::<_, Error>(json_views(v@)),
            Err(e) => jsons_of_nodes(node_views(nodes@)) == Err::<Seq<JsonView>, Error>(e),
        },
    decreases nodes_size(node_views(nodes@)), 1nat,
{
    let ghost all = node_views(nodes@);
    let mut out: Vec<JsonValue> = Vec::new();
    let mut i: usize = 0;
    proof {
        assert(all.subrange(0, all.len() as int) =~= all);
        if let Ok(rest) = jsons_of_nodes(all) {
            assert(json_views(out@) + rest =~= rest);
        }
    }
    while i < nodes.len()
        invariant
            i <= nodes.len(),
            all == node_views(nodes@),
            jsons_of_nodes(all) == match jsons_of_nodes(
                all.subrange(i as int, all.len() as int),
            ) {
                Err(e) => Err(e),
                Ok(rest) => Ok(json_views(out@) + rest),
            },
        decreases nodes.len() - i,
    {
        let ghost head = json_views(out@);
        let ghost here = all.subrange(i as int, all.len() as int);
        proof {
            lemma_nodes_size(all, i as int);
            assert(here[0] == nodes@[i as int]@);
            assert(here.subrange(1, here.len() as int) =~= all.subrange(i + 1, all.len() as int));
        }
        match nodes[i].to_json() {
            Err(e) => return Err(e),
            Ok(j) => {
                let ghost jv = j@;
                out.push(j);
                proof {
                    assert(json_views(out@) =~= head.push(jv));
                    if let Ok(rest) = jsons_of_nodes(all.subrange(i + 1, all.len() as int)) {
                        assert(head + (seq![jv] + rest) =~= json_views(out@) + rest);
                    }
                }
            },
        }
        i += 1;
    }
    assert(json_views(out@) + Seq::<JsonView>::empty() =~= json_views(out@));
    Ok(out)
}

// ---------------------------------------------------------------------------
// Trees of values
// ---------------------------------------------------------------------------

/// The type without the wrappers that a value does not show.
pub open spec fn base_type(t: TypeView, mode: NodeMode) -> TypeView
    decreases t,
{
    match t {
        TypeView::Nullable(inner) => base_type(*inner, mode),
        TypeView::LowCardinality(inner) => if mode is Reading {
            base_type(*inner, mode)
        } else {
            t
        },
        _ => t,
    }
}

/// Whether the type tells how to make a tree of the value. If it does not, the tree is
/// made of the document of the value.
pub open spec fn is_direct(v: ValueView, b: TypeView, mode: NodeMode) -> bool {
    scalar_node(v) is Some || special_node(v, b, mode) is Some || match (v, b) {
        (ValueView::Array(_), TypeView::Array(_)) => true,
        (ValueView::Tuple(_), TypeView::Tuple(_)) => true,
        (ValueView::Tuple(_), TypeView::TupleNamed(_)) => true,
        (ValueView::MapOf(_, _), TypeView::MapOf(_, _)) => true,
        (ValueView::Variant(_, _), _) => !(mode is Plain),
        (ValueView::Dynamic(_, _), _) => !(mode is Plain),
        _ => false,
    }
}

/// The names of fields as keys.
pub open spec fn name_nodes(fs: Seq<(Seq<char>, TypeView)>, n: nat) -> Seq<NodeView> {
    Seq::new(n, |i: int| NodeView::Str(fs[i].0))
}

/// A list of nodes.
pub open spec fn list_of(s: core::result::Result<Seq<NodeView>, Error>) -> Noded {
    match s {
        Err(e) => Err(e),
        Ok(x) => Ok(NodeView::List(x)),
    }
}

/// Keys and values as fields, or as lists of two.
pub open spec fn map_of(
    s: core::result::Result<(Seq<NodeView>, Seq<NodeView>), Error>,
    mode: NodeMode,
) -> Noded {
    match s {
        Err(e) => Err(e),
        Ok((k, x)) => if mode == NodeMode::Typed(MapKeyPolicy::Pairs) {
            Ok(NodeView::List(Seq::new(k.len(), |i: int| NodeView::List(seq![k[i], x[i]]))))
        } else {
            Ok(NodeView::Fields(k, x))
        },
    }
}

/// The tree of a value of a type.
pub open spec fn node_of(v: ValueView, t: TypeView, mode: NodeMode) -> Noded
    decreases
            value_size(v),
            (if is_direct(v, base_type(t, mode), mode) {
                0nat
            } else {
                2nat
            }),
{
    let b = base_type(t, mode);
    if !is_direct(v, b, mode) {
        match json_of(v) {
            Ok(j) => Ok(NodeView::Json(j)),
            Err(e) => Err(e),
        }
    } else if scalar_node(v) is Some {
        scalar_node(v)->0
    } else if special_node(v, b, mode) is Some {
        special_node(v, b, mode)->0
    } else {
        match (v, b) {
            (ValueView::Array(s), TypeView::Array(inner)) => list_of(nodes_of(s, *inner, mode)),
            (ValueView::Tuple(s), TypeView::Tuple(ts)) => list_of(nodes_across(s, ts, mode)),
            (ValueView::Tuple(s), TypeView::TupleNamed(fs)) => match nodes_across(
                s,
                field_types(fs),
                mode,
            ) {
                Err(e) => Err(e),
                Ok(x) => Ok(NodeView::Fields(name_nodes(fs, x.len()), x)),
            },
            (ValueView::MapOf(k, x), TypeView::MapOf(kt, xt)) => map_of(
                entries_of(k, x, *kt, *xt, mode),
                mode,
            ),
            (ValueView::Variant(_, x), _) => node_of(*x, guessed(*x), mode),
            (ValueView::Dynamic(_, x), _) => node_of(*x, guessed(*x), mode),
            _ => arbitrary(),
        }
    }
}

/// The document of a value: that of the tree that the guessed type makes of it.
pub open spec fn json_of(v: ValueView) -> Documented
    decreases value_size(v), 1nat,
{
    match node_of(v, guessed(v), NodeMode::Typed(MapKeyPolicy::Stringify)) {
        Err(_) => Err(Error::DeserializeError(ReadReason::NotAsJson)),
        Ok(n) => json_of_node(n),
    }
}

/// The trees of values of one type.
pub open spec fn nodes_of(s: Seq<ValueView>, t: TypeView, mode: NodeMode) -> core::result::Result<
    Seq<NodeView>,
    Error,
>
    decreases values_size(s), 0nat,
{
    if s.len() == 0 {
        Ok(Seq::empty())
    } else {
        match node_of(s[0], t, mode) {
            Err(e) => Err(e),
            Ok(n) => match nodes_of(s.subrange(1, s.len() as int), t, mode) {
                Err(e) => Err(e),
                Ok(rest) => Ok(seq![n] + rest),
            },
        }
    }
}

/// The trees of values, each of its type, as far as there are both.
pub open spec fn nodes_across(s: Seq<ValueView>, ts: Seq<TypeView>, mode: NodeMode)
    -> core::result::Result<Seq<NodeView>, Error>
    decreases values_size(s), 0nat,
{
    if s.len() == 0 || ts.len() == 0 {
        Ok(Seq::empty())
    } else {
        match node_of(s[0], ts[0], mode) {
            Err(e) => Err(e),
            Ok(n) => match nodes_across(
                s.subrange(1, s.len() as int),
                ts.subrange(1, ts.len() as int),
                mode,
            ) {
                Err(e) => Err(e),
                Ok(rest) => Ok(seq![n] + rest),
            },
        }
    }
}

/// A key as a string: the text of its document, and that of a string as it is.
pub open spec fn key_node(k: ValueView) -> NodeView
    decreases value_size(k), 2nat,
{
    match k {
        ValueView::String(b) => NodeView::Str(lossy_text(b)),
        _ => match json_of(k) {
            Err(_) => NodeView::Str("null"@),
            Ok(j) => match j {
                JsonView::String(s) => NodeView::Str(s),
                JsonView::Number(JsonNumber::PosInt(x)) => NodeView::Str(dec_text(x as nat)),
                JsonView::Number(JsonNumber::NegInt(x)) => NodeView::Str(int_text(x as int)),
                JsonView::Bool(b) => NodeView::Str(
                    if b {
                        "true"@
                    } else {
                        "false"@
                    },
                ),
                JsonView::Null => NodeView::Str("null"@),
                _ => NodeView::Str(decode_utf8(document_text(j))),
            },
        },
    }
}

/// A key of a map.
pub open spec fn map_key(k: ValueView, t: TypeView, mode: NodeMode) -> Noded
    decreases value_size(k), 3nat,
{
    if mode == NodeMode::Typed(MapKeyPolicy::Native) || mode == NodeMode::Typed(
        MapKeyPolicy::Pairs,
    ) {
        node_of(k, t, mode)
    } else {
        Ok(key_node(k))
    }
}

/// The keys and values of a map, as far as there are both.
pub open spec fn entries_of(
    k: Seq<ValueView>,
    x: Seq<ValueView>,
    kt: TypeView,
    xt: TypeView,
    mode: NodeMode,
) -> core::result::Result<(Seq<NodeView>, Seq<NodeView>), Error>
    decreases values_size(k) + values_size(x), 0nat,
{
    if k.len() == 0 || x.len() == 0 {
        Ok((Seq::empty(), Seq::empty()))
    } else {
        match map_key(k[0], kt, mode) {
            Err(e) => Err(e),
            Ok(a) => match node_of(x[0], xt, mode) {
                Err(e) => Err(e),
                Ok(b) => match entries_of(
                    k.subrange(1, k.len() as int),
                    x.subrange(1, x.len() as int),
                    kt,
                    xt,
                    mode,
                ) {
                    Err(e) => Err(e),
                    Ok((ks, xs)) => Ok((seq![a] + ks, seq![b] + xs)),
                },
            },
        }
    }
}

fn strip_type(t: &Type, mode: NodeMode) -> (r: &Type)
    ensures
        r@ == base_type(t@, mode),
    decreases t,
{
    match t {
        Type::Nullable(inner) => strip_type(inner, mode),
        Type::LowCardinality(inner) => match mode {
            NodeMode::Reading => strip_type(inner, mode),
            _ => t,
        },
        _ => t,
    }
}

fn make_list(r: Result<Vec<Node>>, Ghost(s): Ghost<core::result::Result<Seq<NodeView>, Error>>)
    -> (n: Result<Node>)
    requires
        match r {
            Ok(v) => s == Ok::<_, Error>(node_views(v@)),
            Err(e) => s == Err::<Seq<NodeView>, Error>(e),
        },
    ensures
        made(n, list_of(s)),
{
    match r {
        Ok(v) => {
            let n = Node::List(v);
            proof {
                n.lemma_view();
            }
            Ok(n)
        },
        Err(e) => Err(e),
    }
}

fn make_names(fs: &Vec<(String, Type)>, n: usize) -> (r: Vec<Node>)
    requires
        n <= fs@.len(),
    ensures
        node_views(r@) == name_nodes(field_views(fs@), n as nat),
{
    let mut out: Vec<Node> = Vec::new();
    let mut i: usize = 0;
    while i < n
        invariant
            i <= n <= fs@.len(),
            out@.len() == i,
            forall|j: int| 0 <= j < i ==> (#[trigger] out@[j])@ == NodeView::Str(fs@[j].0@),
        decreases n - i,
    {
        out.push(Node::Str(fs[i].0.clone()));
        i += 1;
    }
    assert(node_views(out@) =~= name_nodes(field_views(fs@), n as nat));
    out
}

fn make_pairs(keys: Vec<Node>, values: Vec<Node>) -> (r: Node)
    requires
        keys@.len() == values@.len(),
    ensures
        r@ == NodeView::List(
            Seq::new(
                keys@.len(),
                |i: int| NodeView::List(seq![node_views(keys@)[i], node_views(values@)[i]]),
            ),
        ),
{
    let ghost kv = node_views(keys@);
    let ghost xv = node_views(values@);
    let mut keys = keys;
    let mut values = values;
    let n: usize = keys.len();
    let mut out: Vec<Node> = Vec::new();
    while out.len() < n
        invariant
            out@.len() <= n,
            keys@.len() == n - out@.len(),
            values@.len() == n - out@.len(),
            kv.len() == n,
            xv.len() == n,
            forall|j: int| 0 <= j < keys@.len() ==> (#[trigger] keys@[j])@ == kv[j],
            forall|j: int| 0 <= j < values@.len() ==> (#[trigger] values@[j])@ == xv[j],
            forall|j: int|
                0 <= j < out@.len() ==> (#[trigger] out@[j])@ == NodeView::List(
                    seq![kv[n - 1 - j], xv[n - 1 - j]],
                ),
        decreases n - out.len(),
    {
        let ghost last = n - 1 - out@.len();
        assert(keys@[last]@ == kv[last]);
        assert(values@[last]@ == xv[last]);
        match (keys.pop(), values.pop()) {
            (Some(k), Some(x)) => {
                let mut two: Vec<Node> = Vec::new();
                two.push(k);
                two.push(x);
                assert(node_views(two@) =~= seq![kv[last], xv[last]]);
                let pair = Node::List(two);
                proof {
                    pair.lemma_view();
                }
                out.push(pair);
            },
            _ => {
                assert(false);
                return Node::Missing;
            },
        }
    }
    let ghost upside_down = out@;
    let mut right: Vec<Node> = Vec::new();
    while right.len() < n
        invariant
            upside_down.len() == n,
            right@.len() <= n,
            out@ == upside_down.take(n - right@.len()),
            forall|j: int| 0 <= j < right@.len() ==> (#[trigger] right@[j]) == upside_down[n - 1 - j],
        decreases n - right.len(),
    {
        let ghost before = out@;
        match out.pop() {
            Some(x) => {
                assert(x == before.last());
                right.push(x);
                assert(out@ =~= upside_down.take(n - right@.len()));
            },
            None => {
                assert(false);
                return Node::Missing;
            },
        }
    }
    proof {
        assert forall|j: int| 0 <= j < n implies (#[trigger] node_views(right@)[j])
            == NodeView::List(seq![kv[j], xv[j]]) by {
            assert(right@[j] == upside_down[n - 1 - j]);
            assert(upside_down[n - 1 - j]@ == NodeView::List(
                seq![kv[n - 1 - (n - 1 - j)], xv[n - 1 - (n - 1 - j)]],
            ));
        }
        assert(node_views(right@) =~= Seq::new(
            n as nat,
            |i: int| NodeView::List(seq![kv[i], xv[i]]),
        ));
    }
    let r = Node::List(right);
    proof {
        r.lemma_view();
    }
    r
}

/// The tree of a value of a type.
pub fn serialize_typed_impl(v: &Value, t: &Type, mode: NodeMode) -> (r: Result<Node>)
    ensures
        made(r, node_of(v@, t@, mode)),
    decreases
            value_size(v@),
            (if is_direct(v@, base_type(t@, mode), mode) {
                0nat
            } else {
                2nat
            }),
            1nat,
{
    let b = strip_type(t, mode);
    proof {
        v.lemma_view();
        b.lemma_view();
    }
    if let Some(r) = make_scalar(v) {
        return r;
    }
    if let Some(r) = make_special(v, b, mode) {
        return r;
    }
    match (v, b) {
        (Value::Array(s), Type::Array(inner)) => {
            let r = make_nodes(s, inner, mode);
            make_list(r, Ghost(nodes_of(value_views(s@), inner@, mode)))
        },
        (Value::Tuple(s), Type::Tuple(ts)) => {
            let r = make_nodes_across(s, ts, mode);
            make_list(r, Ghost(nodes_across(value_views(s@), type_views(ts@), mode)))
        },
        (Value::Tuple(s), Type::TupleNamed(fs)) => {
            let ts = types_of_fields(fs);
            assert(type_views(ts@).len() == fs@.len());
            match make_nodes_across(s, &ts, mode) {
                Err(e) => Err(e),
                Ok(x) => {
                    assert(node_views(x@).len() == x@.len());
                    let names = make_names(fs, x.len());
                    let n = Node::Fields(names, x);
                    proof {
                        n.lemma_view();
                    }
                    Ok(n)
                },
            }
        },
        (Value::MapOf(k, x), Type::MapOf(kt, xt)) => {
            match make_entries(k, x, kt, xt, mode) {
                Err(e) => Err(e),
                Ok((keys, values)) => {
                    let pairs: bool = match mode {
                        NodeMode::Typed(MapKeyPolicy::Pairs) => true,
                        _ => false,
                    };
                    if pairs {
                        Ok(make_pairs(keys, values))
                    } else {
                        let n = Node::Fields(keys, values);
                        proof {
                            n.lemma_view();
                        }
                        Ok(n)
                    }
                },
            }
        },
        (Value::Variant(_, x), _) | (Value::Dynamic(_, x), _) => {
            let plain: bool = match mode {
                NodeMode::Plain => true,
                _ => false,
            };
            if plain {
                match v.to_json() {
                    Ok(j) => Ok(Node::Json(j)),
                    Err(e) => Err(e),
                }
            } else {
                let inner = x.guess_type();
                serialize_typed_impl(x, &inner, mode)
            }
        },
        _ => {
            assert(!is_direct(v@, b@, mode));
            match v.to_json() {
                Ok(j) => Ok(Node::Json(j)),
                Err(e) => Err(e),
            }
        },
    }
}

impl Value {
    /// The document of a value.
    pub fn to_json(&self) -> (r: Result<JsonValue>)
        ensures
            match r {
                Ok(j) => json_of(self@) == Ok::<_, Error>(j@),
                Err(e) => json_of(self@) == Err::<JsonView, Error>(e),
            },
        decreases value_size(self@), 1nat, 0nat,
    {
        let t = self.guess_type();
        match serialize_typed_impl(self, &t, NodeMode::Typed(MapKeyPolicy::Stringify)) {
            Err(_) => Err(Error::DeserializeError(ReadReason::NotAsJson)),
            Ok(n) => n.to_json(),
        }
    }
}

fn make_nodes(s: &Vec<Value>, t: &Type, mode: NodeMode) -> (r: Result<Vec<Node>>)
    ensures
        match r {
            Ok(v) => nodes_of(value_views(s@), t@, mode) == Ok::<_, Error>(node_views(v@)),
            Err(e) => nodes_of(value_views(s@), t@, mode) == Err::<Seq<NodeView>, Error>(e),
        },
    decreases values_size(value_views(s@)), 0nat, 0nat,
{
    let ghost all = value_views(s@);
    let mut out: Vec<Node> = Vec::new();
    let mut i: usize = 0;
    proof {
        assert(all.subrange(0, all.len() as int) =~= all);
        if let Ok(rest) = nodes_of(all, t@, mode) {
            assert(node_views(out@) + rest =~= rest);
        }
    }
    while i < s.len()
        invariant
            i <= s.len(),
            all == value_views(s@),
            nodes_of(all, t@, mode) == match nodes_of(
                all.subrange(i as int, all.len() as int),
                t@,
                mode,
            ) {
                Err(e) => Err(e),
                Ok(rest) => Ok(node_views(out@) + rest),
            },
        decreases s.len() - i,
    {
        let ghost head = node_views(out@);
        let ghost here = all.subrange(i as int, all.len() as int);
        proof {
            lemma_values_size(all, i as int);
            assert(here[0] == s@[i as int]@);
            assert(here.subrange(1, here.len() as int) =~= all.subrange(i + 1, all.len() as int));
        }
        match serialize_typed_impl(&s[i], t, mode) {
            Err(e) => return Err(e),
            Ok(n) => {
                let ghost nv = n@;
                out.push(n);
                proof {
                    assert(node_views(out@) =~= head.push(nv));
                    if let Ok(rest) = nodes_of(all.subrange(i + 1, all.len() as int), t@, mode) {
                        assert(head + (seq![nv] + rest) =~= node_views(out@) + rest);
                    }
                }
            },
        }
        i += 1;
    }
    assert(node_views(out@) + Seq::<NodeView>::empty() =~= node_views(out@));
    Ok(out)
}

fn make_nodes_across(s: &Vec<Value>, ts: &Vec<Type>, mode: NodeMode) -> (r: Result<Vec<Node>>)
    ensures
        match r {
            Ok(v) => {
                &&& nodes_across(value_views(s@), type_views(ts@), mode) == Ok::<_, Error>(
                    node_views(v@),
                )
                &&& v@.len() <= ts@.len()
            },
            Err(e) => nodes_across(value_views(s@), type_views(ts@), mode) == Err::<
                Seq<NodeView>,
                Error,
            >(e),
        },
    decreases values_size(value_views(s@)), 0nat, 0nat,
{
    let ghost all = value_views(s@);
    let ghost tv = type_views(ts@);
    let mut out: Vec<Node> = Vec::new();
    let mut i: usize = 0;
    proof {
        assert(all.subrange(0, all.len() as int) =~= all);
        assert(tv.subrange(0, tv.len() as int) =~= tv);
        if let Ok(rest) = nodes_across(all, tv, mode) {
            assert(node_views(out@) + rest =~= rest);
        }
    }
    while i < s.len() && i < ts.len()
        invariant
            i <= s.len(),
            i <= ts.len(),
            out@.len() == i,
            all == value_views(s@),
            tv == type_views(ts@),
            nodes_across(all, tv, mode) == match nodes_across(
                all.subrange(i as int, all.len() as int),
                tv.subrange(i as int, tv.len() as int),
                mode,
            ) {
                Err(e) => Err(e),
                Ok(rest) => Ok(node_views(out@) + rest),
            },
        decreases s.len() - i,
    {
        let ghost head = node_views(out@);
        let ghost here = all.subrange(i as int, all.len() as int);
        let ghost there = tv.subrange(i as int, tv.len() as int);
        proof {
            lemma_values_size(all, i as int);
            assert(here[0] == s@[i as int]@);
            assert(there[0] == ts@[i as int]@);
            assert(here.subrange(1, here.len() as int) =~= all.subrange(i + 1, all.len() as int));
            assert(there.subrange(1, there.len() as int) =~= tv.subrange(i + 1, tv.len() as int));
        }
        match serialize_typed_impl(&s[i], &ts[i], mode) {
            Err(e) => return Err(e),
            Ok(n) => {
                let ghost nv = n@;
                out.push(n);
                proof {
                    assert(node_views(out@) =~= head.push(nv));
                    if let Ok(rest) = nodes_across(
                        all.subrange(i + 1, all.len() as int),
                        tv.subrange(i + 1, tv.len() as int),
                        mode,
                    ) {
                        assert(head + (seq![nv] + rest) =~= node_views(out@) + rest);
                    }
                }
            },
        }
        i += 1;
    }
    assert(node_views(out@) + Seq::<NodeView>::empty() =~= node_views(out@));
    Ok(out)
}

/// A key as a string.
fn stringify_key_for_json(k: &Value) -> (r: Node)
    ensures
        r@ == key_node(k@),
    decreases value_size(k@), 2nat, 0nat,
{
    match k {
        Value::String(b) => Node::Str(string_from_utf8_lossy(b)),
        _ => match k.to_json() {
            Err(_) => Node::Str(from_chars(&to_chars("null"))),
            Ok(j) => {
                match j {
                    JsonValue::String(s) => Node::Str(s),
                    JsonValue::Number(JsonNumber::PosInt(x)) => Node::Str(
                        uint_to_string(x as u128),
                    ),
                    JsonValue::Number(JsonNumber::NegInt(x)) => Node::Str(int_to_string(x as i128)),
                    JsonValue::Bool(b) => Node::Str(
                        if b {
                            from_chars(&to_chars("true"))
                        } else {
                            from_chars(&to_chars("false"))
                        },
                    ),
                    JsonValue::Null => Node::Str(from_chars(&to_chars("null"))),
                    other => match string_from_utf8(other.to_text()) {
                        Some(s) => Node::Str(s),
                        None => {
                            assert(false);
                            Node::Missing
                        },
                    },
                }
            },
        },
    }
}

fn make_key(k: &Value, t: &Type, mode: NodeMode) -> (r: Result<Node>)
    ensures
        made(r, map_key(k@, t@, mode)),
    decreases value_size(k@), 3nat, 0nat,
{
    match mode {
        NodeMode::Typed(MapKeyPolicy::Native) | NodeMode::Typed(MapKeyPolicy::Pairs) => {
            serialize_typed_impl(k, t, mode)
        },
        _ => Ok(stringify_key_for_json(k)),
    }
}

fn make_entries(k: &Vec<Value>, x: &Vec<Value>, kt: &Type, xt: &Type, mode: NodeMode) -> (r: Result<
    (Vec<Node>, Vec<Node>),
>)
    ensures
        match r {
            Ok((a, b)) => {
                &&& entries_of(value_views(k@), value_views(x@), kt@, xt@, mode) == Ok::<_, Error>(
                    (node_views(a@), node_views(b@)),
                )
                &&& a@.len() == b@.len()
            },
            Err(e) => entries_of(value_views(k@), value_views(x@), kt@, xt@, mode) == Err::<
                (Seq<NodeView>, Seq<NodeView>),
                Error,
            >(e),
        },
    decreases values_size(value_views(k@)) + values_size(value_views(x@)), 0nat, 0nat,
{
    let ghost kv = value_views(k@);
    let ghost xv = value_views(x@);
    let mut keys: Vec<Node> = Vec::new();
    let mut values: Vec<Node> = Vec::new();
    let mut i: usize = 0;
    proof {
        assert(kv.subrange(0, kv.len() as int) =~= kv);
        assert(xv.subrange(0, xv.len() as int) =~= xv);
        if let Ok((a, b)) = entries_of(kv, xv, kt@, xt@, mode) {
            assert(node_views(keys@) + a =~= a);
            assert(node_views(values@) + b =~= b);
        }
    }
    while i < k.len() && i < x.len()
        invariant
            i <= k.len(),
            i <= x.len(),
            keys@.len() == i,
            values@.len() == i,
            kv == value_views(k@),
            xv == value_views(x@),
            entries_of(kv, xv, kt@, xt@, mode) == match entries_of(
                kv.subrange(i as int, kv.len() as int),
                xv.subrange(i as int, xv.len() as int),
                kt@,
                xt@,
                mode,
            ) {
                Err(e) => Err(e),
                Ok((a, b)) => Ok((node_views(keys@) + a, node_views(values@) + b)),
            },
        decreases k.len() - i,
    {
        let ghost head = node_views(keys@);
        let ghost head2 = node_views(values@);
        let ghost here = kv.subrange(i as int, kv.len() as int);
        let ghost there = xv.subrange(i as int, xv.len() as int);
        proof {
            lemma_values_size(kv, i as int);
            lemma_values_size(xv, i as int);
            assert(here[0] == k@[i as int]@);
            assert(there[0] == x@[i as int]@);
            assert(here.subrange(1, here.len() as int) =~= kv.subrange(i + 1, kv.len() as int));
            assert(there.subrange(1, there.len() as int) =~= xv.subrange(i + 1, xv.len() as int));
        }
        let a = match make_key(&k[i], kt, mode) {
            Ok(n) => n,
            Err(e) => return Err(e),
        };
        let b = match serialize_typed_impl(&x[i], xt, mode) {
            Ok(n) => n,
            Err(e) => return Err(e),
        };
        let ghost av = a@;
        let ghost bv = b@;
        keys.push(a);
        values.push(b);
        proof {
            assert(node_views(keys@) =~= head.push(av));
            assert(node_views(values@) =~= head2.push(bv));
            if let Ok((ka, xb)) = entries_of(
                kv.subrange(i + 1, kv.len() as int),
                xv.subrange(i + 1, xv.len() as int),
                kt@,
                xt@,
                mode,
            ) {
                assert(head + (seq![av] + ka) =~= node_views(keys@) + ka);
                assert(head2 + (seq![bv] + xb) =~= node_views(values@) + xb);
            }
        }
        i += 1;
    }
    proof {
        assert(node_views(keys@) + Seq::<NodeView>::empty() =~= node_views(keys@));
        assert(node_views(values@) + Seq::<NodeView>::empty() =~= node_views(values@));
    }
    Ok((keys, values))
}

/// The tree of a row: its columns by their names, as far as there are values.
pub open spec fn row_node(
    cols: Seq<(Seq<char>, TypeView)>,
    row: Seq<ValueView>,
    mode: NodeMode,
) -> Noded {
    match nodes_across(row, field_types(cols), mode) {
        Err(e) => Err(e),
        Ok(x) => Ok(NodeView::Fields(name_nodes(cols, x.len()), x)),
    }
}

/// The tree of a row.
pub fn make_row(cols: &Vec<(String, Type)>, row: &Vec<Value>, mode: NodeMode) -> (r: Result<Node>)
    ensures
        made(r, row_node(field_views(cols@), value_views(row@), mode)),
{
    let ts = types_of_fields(cols);
    assert(type_views(ts@).len() == cols@.len());
    match make_nodes_across(row, &ts, mode) {
        Err(e) => Err(e),
        Ok(x) => {
            assert(node_views(x@).len() == x@.len());
            let names = make_names(cols, x.len());
            let n = Node::Fields(names, x);
            proof {
                n.lemma_view();
            }
            Ok(n)
        },
    }
}

} // verus!
