//! JSON documents read from text, and the texts of parts of them.
use arrow::datatypes::{ArrowPrimitiveType, Float64Type};
use serde_json::Value as SerdeJson;
use vstd::prelude::*;
use vstd::utf8::valid_utf8;

use crate::dynamic::strictly_ascending;
use crate::json_value::{json_views, member_views, JsonNumber, JsonValue, JsonView};
use crate::node::finite64;

verus! {

/// A document as `serde_json` holds it.
#[verifier::external_type_specification]
#[verifier::external_body]
pub struct ExJsonDocument(SerdeJson);

/// What a document holds.
pub uninterp spec fn json_view(v: SerdeJson) -> JsonView;

/// The document that a text tells, if it tells one.
pub uninterp spec fn json_of_text(bytes: Seq<u8>) -> Option<JsonView>;

/// The text of a document.
pub uninterp spec fn json_text(v: JsonView) -> Seq<u8>;

/// One level of a document.
pub enum JsonLayer {
    Null,
    Bool(bool),
    Number(JsonNumber),
    Text(String),
    Items(Vec<SerdeJson>),
    Members(Vec<(String, SerdeJson)>),
}

/// What the parts of an array hold.
pub open spec fn item_views(v: Seq<SerdeJson>) -> Seq<JsonView> {
    Seq::new(v.len(), |i: int| json_view(v[i]))
}

/// What the members of an object hold.
pub open spec fn named_views(v: Seq<(String, SerdeJson)>) -> Seq<(Seq<char>, JsonView)> {
    Seq::new(v.len(), |i: int| (v[i].0@, json_view(v[i].1)))
}

/// The names of members.
pub open spec fn first_names(v: Seq<(String, SerdeJson)>) -> Seq<Seq<char>> {
    Seq::new(v.len(), |i: int| v[i].0@)
}

/// Numbers as `serde_json` holds them: integers by their sign, and finite numbers of
/// double precision.
pub open spec fn is_plain_number(n: JsonNumber) -> bool {
    match n {
        JsonNumber::PosInt(_) => true,
        JsonNumber::NegInt(x) => x < 0,
        JsonNumber::Float(b) => finite64(b),
        JsonNumber::Single(_) => false,
    }
}

/// Calls `serde_json::from_slice`. The same text tells the same document, or none.
#[verifier::external_body]
pub(crate) fn json_from_slice(bytes: &[u8]) -> (r: Option<SerdeJson>)
    ensures
        match r {
            Some(v) => json_of_text(bytes@) == Some(json_view(v)),
            None => json_of_text(bytes@) is None,
        },
{
    serde_json::from_slice(bytes).ok()
}

/// Calls `serde_json::to_vec`, which does not fail on a document and writes UTF-8. The
/// text is told by what the document holds.
#[verifier::external_body]
pub(crate) fn json_to_vec(v: &SerdeJson) -> (r: Vec<u8>)
    ensures
        r@ == json_text(json_view(*v)),
        valid_utf8(r@),
{
    serde_json::to_vec(v).unwrap_or_default()
}

/// Takes a `serde_json::Value` apart by its variants, and a number by `as_u64`, `as_i64`
/// and `as_f64`: a number is an unsigned integer, a negative integer or a finite number of
/// double precision. Members come in the order of the object, a map ordered by its keys.
#[verifier::external_body]
pub(crate) fn json_layer(v: &SerdeJson) -> (r: JsonLayer)
    ensures
        match r {
            JsonLayer::Null => json_view(*v) == JsonView::Null,
            JsonLayer::Bool(b) => json_view(*v) == JsonView::Bool(b),
            JsonLayer::Number(n) => json_view(*v) == JsonView::Number(n) && is_plain_number(n),
            JsonLayer::Text(s) => json_view(*v) == JsonView::String(s@),
            JsonLayer::Items(a) => json_view(*v) == JsonView::Array(item_views(a@)),
            JsonLayer::Members(m) => json_view(*v) == JsonView::Object(named_views(m@))
                && strictly_ascending(first_names(m@)),
        },
{
    match v {
        SerdeJson::Null => JsonLayer::Null,
        SerdeJson::Bool(b) => JsonLayer::Bool(*b),
        SerdeJson::Number(n) => JsonLayer::Number(match (n.as_u64(), n.as_i64()) {
            (Some(u), _) => JsonNumber::PosInt(u),
            (None, Some(i)) => JsonNumber::NegInt(i),
            (None, None) => JsonNumber::Float(n.as_f64().unwrap_or_default().to_bits()),
        }),
        SerdeJson::String(s) => JsonLayer::Text(s.clone()),
        SerdeJson::Array(a) => JsonLayer::Items(a.clone()),
        SerdeJson::Object(m) => {
            JsonLayer::Members(m.iter().map(|(k, x)| (k.clone(), x.clone())).collect())
        },
    }
}

/// Makes a `serde_json::Value` of one level: by its variants, and by `From` for numbers,
/// of which the finite ones keep their value. The members of an object are ordered by
/// their names already, so that the map keeps their order. `Float64Type` names the type
/// of numbers of double precision.
#[verifier::external_body]
pub(crate) fn json_build(layer: JsonLayer) -> (r: SerdeJson)
    requires
        match layer {
            JsonLayer::Number(n) => is_plain_number(n),
            JsonLayer::Members(m) => strictly_ascending(first_names(m@)),
            _ => true,
        },
    ensures
        json_view(r) == (match layer {
            JsonLayer::Null => JsonView::Null,
            JsonLayer::Bool(b) => JsonView::Bool(b),
            JsonLayer::Number(n) => JsonView::Number(n),
            JsonLayer::Text(s) => JsonView::String(s@),
            JsonLayer::Items(a) => JsonView::Array(item_views(a@)),
            JsonLayer::Members(m) => JsonView::Object(named_views(m@)),
        }),
{
    match layer {
        JsonLayer::Null => SerdeJson::Null,
        JsonLayer::Bool(b) => SerdeJson::Bool(b),
        JsonLayer::Number(JsonNumber::PosInt(n)) => SerdeJson::from(n),
        JsonLayer::Number(JsonNumber::NegInt(n)) => SerdeJson::from(n),
        JsonLayer::Number(JsonNumber::Float(n)) => {
            SerdeJson::from(<Float64Type as ArrowPrimitiveType>::Native::from_bits(n))
        },
        JsonLayer::Number(JsonNumber::Single(n)) => SerdeJson::from(n),
        JsonLayer::Text(s) => SerdeJson::String(s),
        JsonLayer::Items(a) => SerdeJson::Array(a),
        JsonLayer::Members(m) => SerdeJson::Object(m.into_iter().collect()),
    }
}

proof fn lemma_item_smaller(j: JsonView, i: int)
    requires
        j is Array,
        0 <= i < j->Array_0.len(),
    ensures
        decreases_to!(j => j->Array_0[i]),
{
    let s = j->Array_0;
    assert(decreases_to!(j => s));
    assert(decreases_to!(s => s[i]));
}

proof fn lemma_member_smaller(j: JsonView, i: int)
    requires
        j is Object,
        0 <= i < j->Object_0.len(),
    ensures
        decreases_to!(j => j->Object_0[i].1),
{
    let m = j->Object_0;
    assert(decreases_to!(j => m));
    assert(decreases_to!(m => m[i]));
    assert(decreases_to!(m[i] => m[i].1));
}

/// A document.
pub(crate) fn document(v: &SerdeJson) -> (r: JsonValue)
    ensures
        r@ == json_view(*v),
    decreases json_view(*v),
{
    match json_layer(v) {
        JsonLayer::Null => JsonValue::Null,
        JsonLayer::Bool(b) => JsonValue::Bool(b),
        JsonLayer::Number(n) => JsonValue::Number(n),
        JsonLayer::Text(s) => JsonValue::String(s),
        JsonLayer::Items(a) => {
            let mut out: Vec<JsonValue> = Vec::new();
            let mut i: usize = 0;
            while i < a.len()
                invariant
                    i <= a.len(),
                    out@.len() == i,
                    json_view(*v) == JsonView::Array(item_views(a@)),
                    forall|j: int| 0 <= j < i ==> (#[trigger] out@[j])@ == json_view(a@[j]),
                decreases a.len() - i,
            {
                proof {
                    let items = item_views(a@);
                    assert(items[i as int] == json_view(a@[i as int]));
                    lemma_item_smaller(json_view(*v), i as int);
                }
                out.push(document(&a[i]));
                i += 1;
            }
            assert(json_views(out@) =~= item_views(a@));
            let r = JsonValue::Array(out);
            proof {
                r.lemma_view();
            }
            r
        },
        JsonLayer::Members(m) => {
            let mut out: Vec<(String, JsonValue)> = Vec::new();
            let mut i: usize = 0;
            while i < m.len()
                invariant
                    i <= m.len(),
                    out@.len() == i,
                    json_view(*v) == JsonView::Object(named_views(m@)),
                    forall|j: int|
                        0 <= j < i ==> (#[trigger] out@[j]).0@ == m@[j].0@ && out@[j].1@
                            == json_view(m@[j].1),
                decreases m.len() - i,
            {
                proof {
                    let members = named_views(m@);
                    assert(members[i as int].1 == json_view(m@[i as int].1));
                    lemma_member_smaller(json_view(*v), i as int);
                }
                out.push((m[i].0.clone(), document(&m[i].1)));
                i += 1;
            }
            assert(member_views(out@) =~= named_views(m@));
            let r = JsonValue::Object(out);
            proof {
                r.lemma_view();
            }
            r
        },
    }
}

/// Reads a document from its text.
pub fn parse_json(bytes: &[u8]) -> (r: Option<JsonValue>)
    ensures
        match r {
            Some(v) => json_of_text(bytes@) == Some(v@),
            None => json_of_text(bytes@) is None,
        },
{
    match json_from_slice(bytes) {
        Some(v) => Some(document(&v)),
        None => None,
    }
}

// ---------------------------------------------------------------------------
// Patterns
// ---------------------------------------------------------------------------

/// Whether a text is a pattern.
pub uninterp spec fn pattern_valid(pattern: Seq<char>) -> bool;

/// Whether a pattern is found in a text.
pub uninterp spec fn pattern_found(pattern: Seq<char>, text: Seq<char>) -> bool;

/// Calls `regex::Regex::new`.
#[verifier::external_body]
pub(crate) fn is_pattern(pattern: &str) -> (r: bool)
    ensures
        r == pattern_valid(pattern@),
{
    regex::Regex::new(pattern).is_ok()
}

/// Calls `regex::Regex::is_match` on the compiled pattern.
#[verifier::external_body]
pub(crate) fn find_pattern(pattern: &str, text: &str) -> (r: bool)
    requires
        pattern_valid(pattern@),
    ensures
        r == pattern_found(pattern@, text@),
{
    regex::Regex::new(pattern).is_ok_and(|p| p.is_match(text))
}

} // verus!
