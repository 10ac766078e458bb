//! JSON documents.
use vstd::prelude::*;

verus! {

/// A number in a JSON document. Numbers of floating point are held as their bits.
#[derive(Debug, Clone, Copy, PartialEq, Eq, Structural, Hash)]
pub enum JsonNumber {
    /// An integer that is not negative.
    PosInt(u64),
    /// A negative integer.
    NegInt(i64),
    /// A number of double precision.
    Float(u64),
    /// A number of single precision.
    Single(u32),
}

/// A JSON document.
///
/// Names that are the texts of documents are made only when the document is written out.
#[derive(Debug, Hash)]
pub enum JsonValue {
    Null,
    Bool(bool),
    Number(JsonNumber),
    String(String),
    Array(Vec<JsonValue>),
    /// The members of an object.
    Object(Vec<(String, JsonValue)>),
    /// An object whose members are named by the texts of documents, given with the
    /// values that they name.
    Entries(Vec<JsonValue>, Vec<JsonValue>),
}

/// The model of a [`JsonValue`].
pub ghost enum JsonView {
    Null,
    Bool(bool),
    Number(JsonNumber),
    String(Seq<char>),
    Array(Seq<JsonView>),
    Object(Seq<(Seq<char>, JsonView)>),
    Entries(Seq<JsonView>, Seq<JsonView>),
}

/// The views of a sequence of documents.
pub open spec fn json_views(v: Seq<JsonValue>) -> Seq<JsonView> {
    Seq::new(v.len(), |i: int| v[i]@)
}

/// The views of the members of an object.
pub open spec fn member_views(v: Seq<(String, JsonValue)>) -> Seq<(Seq<char>, JsonView)> {
    Seq::new(v.len(), |i: int| (v[i].0@, v[i].1@))
}

impl JsonValue {
    /// The model of a document.
    pub open spec fn view(&self) -> JsonView
        decreases self,
    {
        match self {
            JsonValue::Null => JsonView::Null,
            JsonValue::Bool(b) => JsonView::Bool(*b),
            JsonValue::Number(n) => JsonView::Number(*n),
            JsonValue::String(s) => JsonView::String(s@),
            JsonValue::Array(v) => JsonView::Array(
                Seq::new(
                    v@.len(),
                    |i: int|
                        if 0 <= i < v@.len() {
                            v@[i].view()
                        } else {
                            arbitrary()
                        },
                ),
            ),
            JsonValue::Object(v) => JsonView::Object(
                Seq::new(
                    v@.len(),
                    |i: int|
                        if 0 <= i < v@.len() {
                            (v@[i].0@, v@[i].1.view())
                        } else {
                            arbitrary()
                        },
                ),
            ),
            JsonValue::Entries(k, v) => JsonView::Entries(
                Seq::new(
                    k@.len(),
                    |i: int|
                        if 0 <= i < k@.len() {
                            k@[i].view()
                        } else {
                            arbitrary()
                        },
                ),
                Seq::new(
                    v@.len(),
                    |i: int|
                        if 0 <= i < v@.len() {
                            v@[i].view()
                        } else {
                            arbitrary()
                        },
                ),
            ),
        }
    }

    /// What the view of a composite document is made of.
    pub proof fn lemma_view(&self)
        ensures
            self matches JsonValue::Array(v) ==> self@ == JsonView::Array(json_views(v@)),
            self matches JsonValue::Object(v) ==> self@ == JsonView::Object(member_views(v@)),
            self matches JsonValue::Entries(k, v) ==> self@ == JsonView::Entries(
                json_views(k@),
                json_views(v@),
            ),
    {
        match self {
            JsonValue::Array(v) => {
                assert(self@->Array_0 =~= json_views(v@));
            },
            JsonValue::Object(v) => {
                assert(self@->Object_0 =~= member_views(v@));
            },
            JsonValue::Entries(k, v) => {
                assert(self@->Entries_0 =~= json_views(k@));
                assert(self@->Entries_1 =~= json_views(v@));
            },
            _ => {},
        }
    }
}

fn clone_documents(v: &Vec<JsonValue>) -> (r: Vec<JsonValue>)
    ensures
        json_views(r@) == json_views(v@),
    decreases v,
{
    let mut out: Vec<JsonValue> = Vec::new();
    let mut i: usize = 0;
    while i < v.len()
        invariant
            i <= v.len(),
            out.len() == i,
            forall|j: int| 0 <= j < i ==> out@[j]@ == v@[j]@,
        decreases v.len() - i,
    {
        assert(decreases_to!(v@ => v@[i as int]));
        out.push(v[i].clone());
        i += 1;
    }
    assert(json_views(out@) =~= json_views(v@));
    out
}

fn clone_members(v: &Vec<(String, JsonValue)>) -> (r: Vec<(String, JsonValue)>)
    ensures
        member_views(r@) == member_views(v@),
    decreases v,
{
    let mut out: Vec<(String, JsonValue)> = Vec::new();
    let mut i: usize = 0;
    while i < v.len()
        invariant
            i <= v.len(),
            out.len() == i,
            forall|j: int| 0 <= j < i ==> out@[j].0@ == v@[j].0@ && out@[j].1@ == v@[j].1@,
        decreases v.len() - i,
    {
        assert(decreases_to!(v@ => v@[i as int]));
        assert(decreases_to!(v@[i as int] => v@[i as int].1));
        out.push((v[i].0.clone(), v[i].1.clone()));
        i += 1;
    }
    assert(member_views(out@) =~= member_views(v@));
    out
}

impl Clone for JsonValue {
    fn clone(&self) -> (r: Self)
        ensures
            r@ == self@,
        decreases self,
    {
        let r = match self {
            JsonValue::Null => JsonValue::Null,
            JsonValue::Bool(b) => JsonValue::Bool(*b),
            JsonValue::Number(n) => JsonValue::Number(*n),
            JsonValue::String(s) => JsonValue::String(s.clone()),
            JsonValue::Array(v) => JsonValue::Array(clone_documents(v)),
            JsonValue::Object(v) => JsonValue::Object(clone_members(v)),
            JsonValue::Entries(k, v) => JsonValue::Entries(
                clone_documents(k),
                clone_documents(v),
            ),
        };
        proof {
            self.lemma_view();
            r.lemma_view();
        }
        r
    }
}

} // verus!
