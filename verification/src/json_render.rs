//! The texts of documents.
use serde_json::Value as SerdeJson;
use vstd::prelude::*;
use vstd::utf8::{decode_utf8, valid_utf8};

use crate::dynamic::strictly_ascending;
use crate::float_bits::{double_of_single, single_to_double};
use crate::json_object::{
    insert_member, law_with_member, member_names, member_value, with_member,
};
use crate::json_text::{
    first_names, is_plain_number, item_views, json_build, json_text, json_to_vec, json_view,
    named_views, JsonLayer,
};
use crate::json_value::{json_views, member_views, JsonNumber, JsonValue, JsonView};
use crate::node::{finite64, is_finite64};
use crate::order_laws::law_members_are_told;
use crate::text::string_from_utf8;

verus! {

/// The bits of a zero of double precision with a sign.
pub const NEGATIVE_ZERO: u64 = 0x8000_0000_0000_0000;

/// How many documents a document is made of.
pub open spec fn json_size(j: JsonView) -> nat
    decreases j,
{
    match j {
        JsonView::Array(s) => 1 + items_size(s),
        JsonView::Object(m) => 1 + members_size(m),
        JsonView::Entries(k, x) => 1 + items_size(k) + items_size(x),
        _ => 1,
    }
}

/// How many documents a sequence of documents is made of.
pub open spec fn items_size(s: Seq<JsonView>) -> nat
    decreases s,
{
    if s.len() == 0 {
        0
    } else {
        items_size(s.subrange(0, s.len() - 1)) + 1 + json_size(s[s.len() - 1])
    }
}

/// How many documents members are made of.
pub open spec fn members_size(m: Seq<(Seq<char>, JsonView)>) -> nat
    decreases m,
{
    if m.len() == 0 {
        0
    } else {
        members_size(m.subrange(0, m.len() - 1)) + 1 + json_size(m[m.len() - 1].1)
    }
}

/// A number as it is written: what is not finite is null.
pub open spec fn rendered_number(n: JsonNumber) -> JsonView {
    match n {
        JsonNumber::PosInt(x) => JsonView::Number(JsonNumber::PosInt(x)),
        JsonNumber::NegInt(x) => if x >= 0 {
            JsonView::Number(JsonNumber::PosInt(x as u64))
        } else {
            JsonView::Number(JsonNumber::NegInt(x))
        },
        JsonNumber::Float(b) => if finite64(b) {
            JsonView::Number(JsonNumber::Float(b))
        } else {
            JsonView::Null
        },
        JsonNumber::Single(b) => if finite64(double_of_single(b) as u64) {
            JsonView::Number(JsonNumber::Float(double_of_single(b) as u64))
        } else {
            JsonView::Null
        },
    }
}

/// The name that a document gives: the string that it is, or its text.
pub open spec fn name_of(j: JsonView) -> Seq<char> {
    match j {
        JsonView::String(s) => s,
        _ => decode_utf8(json_text(j)),
    }
}

/// A document as it is written: numbers as they are held, the members of objects by their
/// names, and texts in place of what stands for them.
pub open spec fn rendered(j: JsonView) -> JsonView
    decreases json_size(j),
{
    match j {
        JsonView::Number(n) => rendered_number(n),
        JsonView::Array(s) => JsonView::Array(rendered_items(s)),
        JsonView::Object(m) => JsonView::Object(rendered_members(m)),
        JsonView::Entries(k, x) => JsonView::Object(rendered_entries(k, x)),
        _ => j,
    }
}

/// The elements of an array as they are written.
pub open spec fn rendered_items(s: Seq<JsonView>) -> Seq<JsonView>
    decreases items_size(s),
{
    if s.len() == 0 {
        Seq::empty()
    } else {
        rendered_items(s.subrange(0, s.len() - 1)).push(rendered(s.last()))
    }
}

/// The members of an object as they are written; a later one takes the place of an
/// earlier one with its name.
pub open spec fn rendered_members(m: Seq<(Seq<char>, JsonView)>) -> Seq<(Seq<char>, JsonView)>
    decreases members_size(m),
{
    if m.len() == 0 {
        Seq::empty()
    } else {
        with_member(
            rendered_members(m.subrange(0, m.len() - 1)),
            m.last().0,
            rendered(m.last().1),
        )
    }
}

/// Members that are named by documents as they are written.
pub open spec fn rendered_entries(k: Seq<JsonView>, x: Seq<JsonView>) -> Seq<(Seq<char>, JsonView)>
    decreases items_size(k) + items_size(x),
{
    if k.len() == 0 || k.len() != x.len() {
        Seq::empty()
    } else {
        with_member(
            rendered_entries(k.subrange(0, k.len() - 1), x.subrange(0, x.len() - 1)),
            name_of(rendered(k.last())),
            rendered(x.last()),
        )
    }
}

/// The text of a document.
pub open spec fn document_text(j: JsonView) -> Seq<u8> {
    json_text(rendered(j))
}

/// Whether a document is one as it is written.
pub open spec fn is_rendered(j: JsonView) -> bool
    decreases j,
{
    match j {
        JsonView::Number(n) => is_plain_number(n),
        JsonView::Array(s) => forall|i: int| 0 <= i < s.len() ==> is_rendered(#[trigger] s[i]),
        JsonView::Object(m) => {
            &&& strictly_ascending(member_names(m))
            &&& forall|i: int| 0 <= i < m.len() ==> is_rendered((#[trigger] m[i]).1)
        },
        JsonView::Entries(_, _) => false,
        _ => true,
    }
}

/// A document as it is written is one as it is written.
pub proof fn law_rendered(j: JsonView)
    ensures
        is_rendered(rendered(j)),
    decreases json_size(j),
{
    match j {
        JsonView::Array(s) => lemma_items(s),
        JsonView::Object(m) => lemma_members(m),
        JsonView::Entries(k, x) => lemma_entries(k, x),
        _ => {},
    }
}

proof fn lemma_items(s: Seq<JsonView>)
    ensures
        is_rendered(JsonView::Array(rendered_items(s))),
    decreases items_size(s),
{
    let all = rendered_items(s);
    if s.len() > 0 {
        let head = rendered_items(s.subrange(0, s.len() - 1));
        lemma_items(s.subrange(0, s.len() - 1));
        law_rendered(s.last());
        assert(is_rendered(JsonView::Array(head)));
        assert forall|i: int| 0 <= i < all.len() implies is_rendered(#[trigger] all[i]) by {
            if i < head.len() {
                assert(all[i] == head[i]);
                lemma_item_rendered(head, i);
            } else {
                assert(all[i] == rendered(s.last()));
            }
        }
    }
}

proof fn lemma_item_rendered(s: Seq<JsonView>, i: int)
    requires
        is_rendered(JsonView::Array(s)),
        0 <= i < s.len(),
    ensures
        is_rendered(s[i]),
{
    let j = JsonView::Array(s);
    assert(is_rendered(j));
    match j {
        JsonView::Array(x) => {
            assert(x == s);
            assert(forall|k: int| 0 <= k < x.len() ==> is_rendered(#[trigger] x[k]));
            assert(is_rendered(x[i]));
        },
        _ => {},
    }
}

proof fn lemma_with_rendered(m: Seq<(Seq<char>, JsonView)>, name: Seq<char>, value: JsonView)
    requires
        is_rendered(JsonView::Object(m)),
        is_rendered(value),
    ensures
        is_rendered(JsonView::Object(with_member(m, name, value))),
{
    law_with_member(m, name, value, name);
    let all = with_member(m, name, value);
    crate::dynamic::lemma_name_pos(member_names(m), name, 0);
    let p = crate::dynamic::name_pos(member_names(m), name, 0);
    assert forall|i: int| 0 <= i < all.len() implies is_rendered((#[trigger] all[i]).1) by {
        if i < p || (i > p && all.len() == m.len()) {
            assert(all[i] == m[i]);
        } else if i > p {
            assert(all[i] == m[i - 1]);
        }
    }
}

proof fn lemma_members(m: Seq<(Seq<char>, JsonView)>)
    ensures
        is_rendered(JsonView::Object(rendered_members(m))),
    decreases members_size(m),
{
    if m.len() > 0 {
        lemma_members(m.subrange(0, m.len() - 1));
        assert(m.last() == m[m.len() - 1]);
        law_rendered(m[m.len() - 1].1);
        lemma_with_rendered(
            rendered_members(m.subrange(0, m.len() - 1)),
            m.last().0,
            rendered(m.last().1),
        );
    }
}

proof fn lemma_entries(k: Seq<JsonView>, x: Seq<JsonView>)
    ensures
        is_rendered(JsonView::Object(rendered_entries(k, x))),
    decreases items_size(k) + items_size(x),
{
    if k.len() > 0 && k.len() == x.len() {
        let kk = k.subrange(0, k.len() - 1);
        let xx = x.subrange(0, x.len() - 1);
        lemma_entries(kk, xx);
        law_rendered(x.last());
        lemma_with_rendered(
            rendered_entries(kk, xx),
            name_of(rendered(k.last())),
            rendered(x.last()),
        );
    }
}

// ---------------------------------------------------------------------------
// Rendering
// ---------------------------------------------------------------------------

fn make_number(n: JsonNumber) -> (r: JsonValue)
    ensures
        r@ == rendered_number(n),
{
    match n {
        JsonNumber::PosInt(x) => JsonValue::Number(JsonNumber::PosInt(x)),
        JsonNumber::NegInt(x) => if x >= 0 {
            JsonValue::Number(JsonNumber::PosInt(x as u64))
        } else {
            JsonValue::Number(JsonNumber::NegInt(x))
        },
        JsonNumber::Float(b) => if is_finite64(b) {
            JsonValue::Number(JsonNumber::Float(b))
        } else {
            JsonValue::Null
        },
        JsonNumber::Single(x) => {
            let b: u64 = single_to_double(x);
            if is_finite64(b) {
                JsonValue::Number(JsonNumber::Float(b))
            } else {
                JsonValue::Null
            }
        },
    }
}

fn make_name(j: &JsonValue) -> (r: String)
    requires
        is_rendered(j@),
    ensures
        r@ == name_of(j@),
{
    match j {
        JsonValue::String(s) => s.clone(),
        _ => {
            let text = json_to_vec(&build(j));
            match string_from_utf8(text) {
                Some(s) => s,
                None => {
                    assert(false);
                    String::new()
                },
            }
        },
    }
}

impl JsonValue {
    /// The document as it is written.
    pub fn render(&self) -> (r: JsonValue)
        ensures
            r@ == rendered(self@),
        decreases json_size(self@), 1nat,
    {
        proof {
            self.lemma_view();
        }
        let r = match self {
            JsonValue::Null => JsonValue::Null,
            JsonValue::Bool(b) => JsonValue::Bool(*b),
            JsonValue::String(s) => JsonValue::String(s.clone()),
            JsonValue::Number(n) => make_number(*n),
            JsonValue::Array(a) => JsonValue::Array(render_items(a)),
            JsonValue::Object(m) => JsonValue::Object(render_members(m)),
            JsonValue::Entries(k, x) => JsonValue::Object(render_entries(k, x)),
        };
        proof {
            r.lemma_view();
        }
        r
    }

    /// The text of the document.
    pub fn to_text(&self) -> (r: Vec<u8>)
        ensures
            r@ == document_text(self@),
            valid_utf8(r@),
    {
        proof {
            law_rendered(self@);
        }
        json_to_vec(&build(&self.render()))
    }

    /// The document as `serde_json` holds it.
    pub fn to_serde(&self) -> (r: SerdeJson)
        ensures
            json_view(r) == rendered(self@),
    {
        proof {
            law_rendered(self@);
        }
        build(&self.render())
    }
}

proof fn lemma_items_prefix(s: Seq<JsonView>, i: int)
    requires
        0 <= i < s.len(),
    ensures
        items_size(s.subrange(0, i)) + 1 + json_size(s[i]) <= items_size(s),
    decreases s.len(),
{
    let head = s.subrange(0, s.len() - 1);
    if i < s.len() - 1 {
        lemma_items_prefix(head, i);
        assert(head.subrange(0, i) =~= s.subrange(0, i));
    }
}

proof fn lemma_members_prefix(m: Seq<(Seq<char>, JsonView)>, i: int)
    requires
        0 <= i < m.len(),
    ensures
        json_size(m[i].1) < members_size(m),
    decreases m.len(),
{
    if i < m.len() - 1 {
        lemma_members_prefix(m.subrange(0, m.len() - 1), i);
    }
}

fn render_items(a: &Vec<JsonValue>) -> (r: Vec<JsonValue>)
    ensures
        json_views(r@) == rendered_items(json_views(a@)),
    decreases items_size(json_views(a@)), 2nat,
{
    let ghost all = json_views(a@);
    let mut out: Vec<JsonValue> = Vec::new();
    let mut i: usize = 0;
    assert(json_views(out@) =~= rendered_items(all.subrange(0, 0)));
    while i < a.len()
        invariant
            i <= a.len(),
            all == json_views(a@),
            json_views(out@) == rendered_items(all.subrange(0, i as int)),
        decreases a.len() - i,
    {
        let ghost head = json_views(out@);
        proof {
            lemma_items_prefix(all, i as int);
            let here = all.subrange(0, i + 1);
            assert(here.subrange(0, here.len() - 1) =~= all.subrange(0, i as int));
            assert(here.last() == a@[i as int]@);
        }
        let x = a[i].render();
        let ghost xv = x@;
        out.push(x);
        assert(json_views(out@) =~= head.push(xv));
        i += 1;
    }
    assert(all.subrange(0, all.len() as int) =~= all);
    out
}

fn render_members(m: &Vec<(String, JsonValue)>) -> (r: Vec<(String, JsonValue)>)
    ensures
        member_views(r@) == rendered_members(member_views(m@)),
    decreases members_size(member_views(m@)), 2nat,
{
    let ghost all = member_views(m@);
    let mut out: Vec<(String, JsonValue)> = Vec::new();
    let mut i: usize = 0;
    assert(member_views(out@) =~= rendered_members(all.subrange(0, 0)));
    while i < m.len()
        invariant
            i <= m.len(),
            all == member_views(m@),
            member_views(out@) == rendered_members(all.subrange(0, i as int)),
        decreases m.len() - i,
    {
        proof {
            lemma_members_prefix(all, i as int);
            let here = all.subrange(0, i + 1);
            assert(here.subrange(0, here.len() - 1) =~= all.subrange(0, i as int));
            assert(here.last() == (m@[i as int].0@, m@[i as int].1@));
        }
        let x = m[i].1.render();
        insert_member(&mut out, m[i].0.clone(), x);
        i += 1;
    }
    assert(all.subrange(0, all.len() as int) =~= all);
    out
}

fn render_entries(k: &Vec<JsonValue>, x: &Vec<JsonValue>) -> (r: Vec<(String, JsonValue)>)
    ensures
        member_views(r@) == rendered_entries(json_views(k@), json_views(x@)),
    decreases items_size(json_views(k@)) + items_size(json_views(x@)), 2nat,
{
    let ghost kv = json_views(k@);
    let ghost xv = json_views(x@);
    let mut out: Vec<(String, JsonValue)> = Vec::new();
    if k.len() != x.len() {
        assert(member_views(out@) =~= rendered_entries(kv, xv));
        return out;
    }
    let mut i: usize = 0;
    assert(member_views(out@) =~= rendered_entries(kv.subrange(0, 0), xv.subrange(0, 0)));
    while i < k.len()
        invariant
            i <= k.len(),
            k.len() == x.len(),
            kv == json_views(k@),
            xv == json_views(x@),
            member_views(out@) == rendered_entries(
                kv.subrange(0, i as int),
                xv.subrange(0, i as int),
            ),
        decreases k.len() - i,
    {
        proof {
            lemma_items_prefix(kv, i as int);
            lemma_items_prefix(xv, i as int);
            let a = kv.subrange(0, i + 1);
            let b = xv.subrange(0, i + 1);
            assert(a.subrange(0, a.len() - 1) =~= kv.subrange(0, i as int));
            assert(b.subrange(0, b.len() - 1) =~= xv.subrange(0, i as int));
            assert(a.last() == k@[i as int]@);
            assert(b.last() == x@[i as int]@);
            law_rendered(k@[i as int]@);
        }
        let key = k[i].render();
        let value = x[i].render();
        insert_member(&mut out, make_name(&key), value);
        i += 1;
    }
    assert(kv.subrange(0, kv.len() as int) =~= kv);
    assert(xv.subrange(0, xv.len() as int) =~= xv);
    out
}

fn build(j: &JsonValue) -> (r: SerdeJson)
    requires
        is_rendered(j@),
    ensures
        json_view(r) == j@,
    decreases json_size(j@),
{
    proof {
        j.lemma_view();
    }
    match j {
        JsonValue::Null => json_build(JsonLayer::Null),
        JsonValue::Bool(b) => json_build(JsonLayer::Bool(*b)),
        JsonValue::Number(n) => json_build(JsonLayer::Number(*n)),
        JsonValue::String(s) => json_build(JsonLayer::Text(s.clone())),
        JsonValue::Array(a) => {
            let ghost all = json_views(a@);
            let mut out: Vec<SerdeJson> = Vec::new();
            let mut i: usize = 0;
            while i < a.len()
                invariant
                    i <= a.len(),
                    all == json_views(a@),
                    j@ == JsonView::Array(all),
                    is_rendered(j@),
                    out@.len() == i,
                    forall|k: int| 0 <= k < i ==> json_view(#[trigger] out@[k]) == all[k],
                decreases a.len() - i,
            {
                proof {
                    lemma_items_prefix(all, i as int);
                    assert(is_rendered(all[i as int]));
                }
                out.push(build(&a[i]));
                i += 1;
            }
            assert(item_views(out@) =~= all);
            json_build(JsonLayer::Items(out))
        },
        JsonValue::Object(m) => {
            let ghost all = member_views(m@);
            let mut out: Vec<(String, SerdeJson)> = Vec::new();
            let mut i: usize = 0;
            while i < m.len()
                invariant
                    i <= m.len(),
                    all == member_views(m@),
                    j@ == JsonView::Object(all),
                    is_rendered(j@),
                    out@.len() == i,
                    forall|k: int|
                        0 <= k < i ==> (#[trigger] out@[k]).0@ == all[k].0 && json_view(out@[k].1)
                            == all[k].1,
                decreases m.len() - i,
            {
                proof {
                    lemma_members_prefix(all, i as int);
                    assert(is_rendered(all[i as int].1));
                }
                out.push((m[i].0.clone(), build(&m[i].1)));
                i += 1;
            }
            assert(named_views(out@) =~= all);
            assert(first_names(out@) =~= member_names(all));
            json_build(JsonLayer::Members(out))
        },
        _ => {
            assert(false);
            json_build(JsonLayer::Null)
        },
    }
}

// ---------------------------------------------------------------------------
// Equality
// ---------------------------------------------------------------------------

/// A number as `==` sees it: there is one zero.
pub open spec fn unsigned_zero(n: JsonNumber) -> JsonNumber {
    match n {
        JsonNumber::Float(b) => JsonNumber::Float(
            if b == NEGATIVE_ZERO {
                0
            } else {
                b
            },
        ),
        _ => n,
    }
}

/// A document that is written, as `==` sees it.
pub open spec fn unsigned_zeros(j: JsonView) -> JsonView
    decreases json_size(j),
{
    match j {
        JsonView::Number(n) => JsonView::Number(unsigned_zero(n)),
        JsonView::Array(s) => JsonView::Array(unsigned_items(s)),
        JsonView::Object(m) => JsonView::Object(unsigned_members(m)),
        _ => j,
    }
}

/// The elements of an array as `==` sees them.
pub open spec fn unsigned_items(s: Seq<JsonView>) -> Seq<JsonView>
    decreases items_size(s),
{
    if s.len() == 0 {
        Seq::empty()
    } else {
        unsigned_items(s.subrange(0, s.len() - 1)).push(unsigned_zeros(s.last()))
    }
}

/// The members of an object as `==` sees them.
pub open spec fn unsigned_members(m: Seq<(Seq<char>, JsonView)>) -> Seq<(Seq<char>, JsonView)>
    decreases members_size(m),
{
    if m.len() == 0 {
        Seq::empty()
    } else {
        unsigned_members(m.subrange(0, m.len() - 1)).push(
            (m.last().0, unsigned_zeros(m.last().1)),
        )
    }
}

/// A document as `==` sees it: as it is written, with its members by their names, and with
/// one zero.
pub open spec fn document_compared(j: JsonView) -> JsonView {
    unsigned_zeros(rendered(j))
}

proof fn lemma_unsigned_items(s: Seq<JsonView>)
    ensures
        unsigned_items(s).len() == s.len(),
        forall|i: int| 0 <= i < s.len() ==> #[trigger] unsigned_items(s)[i] == unsigned_zeros(s[i]),
    decreases s.len(),
{
    if s.len() > 0 {
        lemma_unsigned_items(s.subrange(0, s.len() - 1));
    }
}

proof fn lemma_unsigned_members(m: Seq<(Seq<char>, JsonView)>)
    ensures
        unsigned_members(m).len() == m.len(),
        forall|i: int|
            0 <= i < m.len() ==> #[trigger] unsigned_members(m)[i] == (
                m[i].0,
                unsigned_zeros(m[i].1),
            ),
    decreases m.len(),
{
    if m.len() > 0 {
        lemma_unsigned_members(m.subrange(0, m.len() - 1));
    }
}

proof fn lemma_member_rendered(m: Seq<(Seq<char>, JsonView)>, i: int)
    requires
        is_rendered(JsonView::Object(m)),
        0 <= i < m.len(),
    ensures
        is_rendered(m[i].1),
        strictly_ascending(member_names(m)),
{
    let j = JsonView::Object(m);
    assert(is_rendered(j));
    match j {
        JsonView::Object(x) => {
            assert(x == m);
            assert(forall|k: int| 0 <= k < x.len() ==> is_rendered((#[trigger] x[k]).1));
            assert(is_rendered(x[i].1));
        },
        _ => {},
    }
}

fn one_zero(n: JsonNumber) -> (r: JsonNumber)
    ensures
        r == unsigned_zero(n),
{
    match n {
        JsonNumber::Float(b) => if b == NEGATIVE_ZERO {
            JsonNumber::Float(0)
        } else {
            n
        },
        _ => n,
    }
}

fn eq_items(a: &Vec<JsonValue>, b: &Vec<JsonValue>) -> (r: bool)
    requires
        is_rendered(JsonView::Array(json_views(a@))),
        is_rendered(JsonView::Array(json_views(b@))),
    ensures
        r == (unsigned_items(json_views(a@)) == unsigned_items(json_views(b@))),
    decreases a,
{
    let ghost av = json_views(a@);
    let ghost bv = json_views(b@);
    proof {
        lemma_unsigned_items(av);
        lemma_unsigned_items(bv);
    }
    if a.len() != b.len() {
        assert(unsigned_items(av).len() != unsigned_items(bv).len());
        return false;
    }
    let mut i: usize = 0;
    while i < a.len()
        invariant
            i <= a.len(),
            a.len() == b.len(),
            av == json_views(a@),
            bv == json_views(b@),
            is_rendered(JsonView::Array(av)),
            is_rendered(JsonView::Array(bv)),
            unsigned_items(av).len() == av.len(),
            unsigned_items(bv).len() == bv.len(),
            forall|j: int|
                0 <= j < av.len() ==> #[trigger] unsigned_items(av)[j] == unsigned_zeros(av[j]),
            forall|j: int|
                0 <= j < bv.len() ==> #[trigger] unsigned_items(bv)[j] == unsigned_zeros(bv[j]),
            forall|j: int|
                0 <= j < i ==> #[trigger] unsigned_items(av)[j] == unsigned_items(bv)[j],
        decreases a.len() - i,
    {
        proof {
            assert(decreases_to!(a@ => a@[i as int]));
            lemma_item_rendered(av, i as int);
            lemma_item_rendered(bv, i as int);
        }
        if !eq_written(&a[i], &b[i]) {
            assert(unsigned_items(av)[i as int] != unsigned_items(bv)[i as int]);
            return false;
        }
        i += 1;
    }
    assert(unsigned_items(av) =~= unsigned_items(bv));
    true
}

fn eq_members(a: &Vec<(String, JsonValue)>, b: &Vec<(String, JsonValue)>) -> (r: bool)
    requires
        is_rendered(JsonView::Object(member_views(a@))),
        is_rendered(JsonView::Object(member_views(b@))),
    ensures
        r == (unsigned_members(member_views(a@)) == unsigned_members(member_views(b@))),
    decreases a,
{
    let ghost av = member_views(a@);
    let ghost bv = member_views(b@);
    proof {
        lemma_unsigned_members(av);
        lemma_unsigned_members(bv);
    }
    if a.len() != b.len() {
        assert(unsigned_members(av).len() != unsigned_members(bv).len());
        return false;
    }
    let mut i: usize = 0;
    while i < a.len()
        invariant
            i <= a.len(),
            a.len() == b.len(),
            av == member_views(a@),
            bv == member_views(b@),
            is_rendered(JsonView::Object(av)),
            is_rendered(JsonView::Object(bv)),
            unsigned_members(av).len() == av.len(),
            unsigned_members(bv).len() == bv.len(),
            forall|j: int|
                0 <= j < av.len() ==> #[trigger] unsigned_members(av)[j] == (
                    av[j].0,
                    unsigned_zeros(av[j].1),
                ),
            forall|j: int|
                0 <= j < bv.len() ==> #[trigger] unsigned_members(bv)[j] == (
                    bv[j].0,
                    unsigned_zeros(bv[j].1),
                ),
            forall|j: int|
                0 <= j < i ==> #[trigger] unsigned_members(av)[j] == unsigned_members(bv)[j],
        decreases a.len() - i,
    {
        proof {
            assert(decreases_to!(a@ => a@[i as int]));
            assert(decreases_to!(a@[i as int] => a@[i as int].1));
            lemma_member_rendered(av, i as int);
            lemma_member_rendered(bv, i as int);
        }
        if a[i].0 != b[i].0 || !eq_written(&a[i].1, &b[i].1) {
            assert(unsigned_members(av)[i as int] != unsigned_members(bv)[i as int]);
            return false;
        }
        i += 1;
    }
    assert(unsigned_members(av) =~= unsigned_members(bv));
    true
}

/// Whether two documents that are written are equal.
fn eq_written(a: &JsonValue, b: &JsonValue) -> (r: bool)
    requires
        is_rendered(a@),
        is_rendered(b@),
    ensures
        r == (unsigned_zeros(a@) == unsigned_zeros(b@)),
    decreases a,
{
    proof {
        a.lemma_view();
        b.lemma_view();
    }
    match (a, b) {
        (JsonValue::Null, JsonValue::Null) => true,
        (JsonValue::Bool(x), JsonValue::Bool(y)) => *x == *y,
        (JsonValue::Number(x), JsonValue::Number(y)) => one_zero(*x) == one_zero(*y),
        (JsonValue::String(x), JsonValue::String(y)) => *x == *y,
        (JsonValue::Array(x), JsonValue::Array(y)) => eq_items(x, y),
        (JsonValue::Object(x), JsonValue::Object(y)) => eq_members(x, y),
        _ => false,
    }
}

impl JsonValue {
    /// Whether `==` holds of two documents: their members may stand in any order, and zero
    /// has no sign.
    pub fn same(&self, other: &JsonValue) -> (r: bool)
        ensures
            r == (document_compared(self@) == document_compared(other@)),
    {
        proof {
            law_rendered(self@);
            law_rendered(other@);
        }
        eq_written(&self.render(), &other.render())
    }
}

impl PartialEq for JsonValue {
    fn eq(&self, other: &Self) -> (r: bool) {
        self.same(other)
    }
}

impl vstd::std_specs::cmp::PartialEqSpecImpl for JsonValue {
    open spec fn obeys_eq_spec() -> bool {
        true
    }

    open spec fn eq_spec(&self, other: &Self) -> bool {
        document_compared(self@) == document_compared(other@)
    }
}

impl Eq for JsonValue {

}

/// The value of the member of a name, where no two members have the same one.
proof fn lemma_rendered_value(m: Seq<(Seq<char>, JsonView)>, name: Seq<char>)
    requires
        forall|i: int, j: int|
            0 <= i < m.len() && 0 <= j < m.len() && i != j ==> (#[trigger] m[i]).0 != (
            #[trigger] m[j]).0,
    ensures
        strictly_ascending(member_names(rendered_members(m))),
        forall|i: int|
            0 <= i < m.len() && (#[trigger] m[i]).0 == name ==> member_value(
                rendered_members(m),
                name,
            ) == Some(rendered(m[i].1)),
        (forall|i: int| 0 <= i < m.len() ==> (#[trigger] m[i]).0 != name) ==> member_value(
            rendered_members(m),
            name,
        ) is None,
    decreases m.len(),
{
    let all = rendered_members(m);
    if m.len() == 0 {
        assert(member_names(all) =~= Seq::<Seq<char>>::empty());
    } else {
        let head = m.subrange(0, m.len() - 1);
        let last = m.last();
        assert(m[m.len() - 1] == last);
        assert forall|i: int, j: int|
            0 <= i < head.len() && 0 <= j < head.len() && i != j implies (#[trigger] head[i]).0 != (
        #[trigger] head[j]).0 by {
            assert(head[i] == m[i] && head[j] == m[j]);
        }
        lemma_rendered_value(head, name);
        law_with_member(rendered_members(head), last.0, rendered(last.1), name);
        assert forall|i: int| 0 <= i < m.len() && (#[trigger] m[i]).0 == name implies member_value(
            all,
            name,
        ) == Some(rendered(m[i].1)) by {
            if i < m.len() - 1 {
                assert(head[i] == m[i]);
                assert(m[i].0 != m[m.len() - 1].0);
            }
        }
        if forall|i: int| 0 <= i < m.len() ==> (#[trigger] m[i]).0 != name {
            assert forall|i: int| 0 <= i < head.len() implies (#[trigger] head[i]).0 != name by {
                assert(head[i] == m[i]);
            }
        }
    }
}

/// Documents whose members, each of a name of its own, stand in another order are equal.
pub proof fn law_members_in_any_order(
    m: Seq<(Seq<char>, JsonView)>,
    n: Seq<(Seq<char>, JsonView)>,
)
    requires
        forall|e: (Seq<char>, JsonView)| #[trigger] m.contains(e) <==> n.contains(e),
        forall|i: int, j: int|
            0 <= i < m.len() && 0 <= j < m.len() && i != j ==> (#[trigger] m[i]).0 != (
            #[trigger] m[j]).0,
        forall|i: int, j: int|
            0 <= i < n.len() && 0 <= j < n.len() && i != j ==> (#[trigger] n[i]).0 != (
            #[trigger] n[j]).0,
    ensures
        document_compared(JsonView::Object(m)) == document_compared(JsonView::Object(n)),
{
    let a = rendered_members(m);
    let b = rendered_members(n);
    lemma_rendered_value(m, Seq::empty());
    lemma_rendered_value(n, Seq::empty());
    assert forall|x: Seq<char>| #[trigger] member_value(a, x) == member_value(b, x) by {
        lemma_rendered_value(m, x);
        lemma_rendered_value(n, x);
        if exists|i: int| 0 <= i < m.len() && (#[trigger] m[i]).0 == x {
            let i = choose|i: int| 0 <= i < m.len() && (#[trigger] m[i]).0 == x;
            assert(m.contains(m[i]));
            assert(n.contains(m[i]));
            let k = choose|k: int| 0 <= k < n.len() && n[k] == m[i];
            assert(n[k].0 == x);
        } else {
            assert forall|k: int| 0 <= k < n.len() implies (#[trigger] n[k]).0 != x by {
                assert(n.contains(n[k]));
                assert(m.contains(n[k]));
                let i = choose|i: int| 0 <= i < m.len() && m[i] == n[k];
                assert(m[i].0 != x);
            }
        }
    }
    law_members_are_told(a, b);
}

} // verus!
