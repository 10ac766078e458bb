//! The documents of values of several types: the same with discriminators as without.
use vstd::prelude::*;

use crate::columns::{
    column_bytes, group_columns, joined_rows, lemma_fields_size, lemma_rows_len, lemma_sorted_size,
    row_items, rows_of, type_size, wrapped,
};
use crate::error::Error;
use crate::guess::guessed;
use crate::json_value::JsonView;
use crate::mixed_laws::{
    arrays_of, cut, law_stored_len, lemma_array_parts, lemma_cut_piece, lemma_group_written,
    lemma_stored_groups, lemma_wrapped_len, stored, stored_group, stored_groups, variants_of,
};
use crate::node::{scalar_node, MapKeyPolicy, NodeMode, NodeView};
use crate::type_order::{law_sorted_types, sorted_types};
use crate::typed_node::{
    base_type, is_direct, json_of, json_of_node, jsons_of_nodes, node_of, nodes_of, value_size,
    values_size,
};
use crate::types::TypeView;
use crate::values::ValueView;
use crate::variant::{
    all_variants, discriminators_of, group_of, lemma_group_rank, rank, NULL_DISCRIMINATOR,
};

verus! {

// ---------------------------------------------------------------------------
// Values at the ends of paths
// ---------------------------------------------------------------------------

/// Whether a value is a scalar, or an array or a variant of such values.
#[verifier::opaque]
pub open spec fn is_leaf(v: ValueView) -> bool
    decreases v,
{
    match v {
        ValueView::Array(s) => forall|i: int| 0 <= i < s.len() ==> is_leaf(#[trigger] s[i]),
        ValueView::Variant(_, x) => is_leaf(*x),
        _ => scalar_node(v) is Some && scalar_node(v)->0 is Ok,
    }
}

/// The document of such a value.
#[verifier::opaque]
pub open spec fn leaf_json(v: ValueView) -> JsonView
    decreases value_size(v), 0nat,
{
    match v {
        ValueView::Array(s) => JsonView::Array(leaf_jsons(s)),
        ValueView::Variant(_, x) => leaf_json(*x),
        _ => json_of_node(scalar_node(v)->0->Ok_0)->Ok_0,
    }
}

/// The documents of such values.
pub open spec fn leaf_jsons(s: Seq<ValueView>) -> Seq<JsonView>
    decreases values_size(s), 0nat,
{
    if s.len() == 0 {
        Seq::empty()
    } else {
        seq![leaf_json(s[0])] + leaf_jsons(s.subrange(1, s.len() as int))
    }
}

/// Whether all values are scalars, or arrays or variants of such values.
pub open spec fn all_leaves(vs: Seq<ValueView>) -> bool {
    forall|i: int| 0 <= i < vs.len() ==> is_leaf(#[trigger] vs[i])
}

pub(crate) proof fn lemma_leaf_scalar(v: ValueView)
    requires
        scalar_node(v) is Some,
        scalar_node(v)->0 is Ok,
    ensures
        is_leaf(v),
{
    reveal(is_leaf);
}

pub(crate) proof fn lemma_leaf_array(s: Seq<ValueView>)
    ensures
        is_leaf(ValueView::Array(s)) == all_leaves(s),
        leaf_json(ValueView::Array(s)) == JsonView::Array(leaf_jsons(s)),
{
    reveal(is_leaf);
    reveal(leaf_json);
}

proof fn lemma_leaf_variant(d: u8, x: ValueView)
    ensures
        is_leaf(ValueView::Variant(d, Box::new(x))) == is_leaf(x),
        leaf_json(ValueView::Variant(d, Box::new(x))) == leaf_json(x),
{
    reveal(is_leaf);
    reveal(leaf_json);
}

proof fn lemma_leaf_jsons(s: Seq<ValueView>)
    ensures
        leaf_jsons(s) == Seq::new(s.len(), |i: int| leaf_json(s[i])),
    decreases s.len(),
{
    reveal(leaf_json);
    let out = Seq::new(s.len(), |i: int| leaf_json(s[i]));
    if s.len() > 0 {
        let tail = s.subrange(1, s.len() as int);
        lemma_leaf_jsons(tail);
        assert(out =~= seq![leaf_json(s[0])] + Seq::new(tail.len(), |i: int| leaf_json(tail[i])));
    } else {
        assert(out =~= Seq::<JsonView>::empty());
    }
}

spec fn document_mode() -> NodeMode {
    NodeMode::Typed(MapKeyPolicy::Stringify)
}

spec fn is_node_of(n: NodeView, v: ValueView) -> bool {
    json_of_node(n) == Ok::<_, Error>(leaf_json(v))
}

proof fn lemma_leaf_node(v: ValueView, t: TypeView)
    requires
        is_leaf(v),
    ensures
        node_of(v, t, document_mode()) is Ok,
        is_node_of(node_of(v, t, document_mode())->Ok_0, v),
    decreases
            value_size(v),
            (if is_direct(v, base_type(t, document_mode()), document_mode()) {
                0nat
            } else {
                2nat
            }),
{
    let mode = document_mode();
    let b = base_type(t, mode);
    match v {
        ValueView::Array(s) => {
            if is_direct(v, b, mode) {
                lemma_leaf_array(s);
                lemma_leaf_nodes(s, *b->Array_0);
                let nodes = nodes_of(s, *b->Array_0, mode)->Ok_0;
                lemma_node_documents(nodes, s);
                lemma_leaf_jsons(s);
                assert(node_of(v, t, mode) == Ok::<_, Error>(NodeView::List(nodes)));
                assert(json_of_node(NodeView::List(nodes)) == Ok::<_, Error>(leaf_json(v)));
            } else {
                assert(is_direct(v, base_type(guessed(v), mode), mode));
                lemma_leaf_node(v, guessed(v));
                assert(json_of(v) == Ok::<_, Error>(leaf_json(v)));
                assert(node_of(v, t, mode) == Ok::<_, Error>(NodeView::Json(leaf_json(v))));
                assert(json_of_node(NodeView::Json(leaf_json(v))) == Ok::<_, Error>(leaf_json(v)));
            }
        },
        ValueView::Variant(d, x) => {
            lemma_leaf_variant(d, *x);
            lemma_leaf_node(*x, guessed(*x));
        },
        _ => {
            reveal(is_leaf);
            reveal(leaf_json);
        },
    }
}

proof fn lemma_leaf_nodes(s: Seq<ValueView>, t: TypeView)
    requires
        forall|i: int| 0 <= i < s.len() ==> is_leaf(#[trigger] s[i]),
    ensures
        nodes_of(s, t, document_mode()) is Ok,
        nodes_of(s, t, document_mode())->Ok_0.len() == s.len(),
        forall|i: int|
            0 <= i < s.len() ==> is_node_of(
                #[trigger] nodes_of(s, t, document_mode())->Ok_0[i],
                s[i],
            ),
    decreases values_size(s), 0nat,
{
    if s.len() > 0 {
        let tail = s.subrange(1, s.len() as int);
        assert forall|i: int| 0 <= i < tail.len() implies is_leaf(#[trigger] tail[i]) by {
            assert(tail[i] == s[i + 1]);
        }
        lemma_leaf_node(s[0], t);
        lemma_leaf_nodes(tail, t);
        let all = nodes_of(s, t, document_mode())->Ok_0;
        let rest = nodes_of(tail, t, document_mode())->Ok_0;
        assert forall|i: int| 0 <= i < s.len() implies is_node_of(#[trigger] all[i], s[i]) by {
            if i > 0 {
                assert(all[i] == rest[i - 1]);
                assert(tail[i - 1] == s[i]);
            }
        }
    }
}

proof fn lemma_node_documents(nodes: Seq<NodeView>, s: Seq<ValueView>)
    requires
        nodes.len() == s.len(),
        forall|i: int| 0 <= i < s.len() ==> is_node_of(#[trigger] nodes[i], s[i]),
    ensures
        jsons_of_nodes(nodes) == Ok::<_, Error>(Seq::new(s.len(), |i: int| leaf_json(s[i]))),
    decreases s.len(),
{
    let out = Seq::new(s.len(), |i: int| leaf_json(s[i]));
    if s.len() > 0 {
        let tail = s.subrange(1, s.len() as int);
        let rest = nodes.subrange(1, nodes.len() as int);
        assert forall|i: int| 0 <= i < tail.len() implies is_node_of(#[trigger] rest[i], tail[i]) by {
            assert(rest[i] == nodes[i + 1]);
            assert(tail[i] == s[i + 1]);
        }
        lemma_node_documents(rest, tail);
        assert(is_node_of(nodes[0], s[0]));
        assert(out =~= seq![leaf_json(s[0])] + Seq::new(tail.len(), |i: int| leaf_json(tail[i])));
    } else {
        assert(out =~= Seq::<JsonView>::empty());
    }
}

/// The document of a scalar, or of an array or a variant of such values, does not depend on
/// discriminators.
pub proof fn law_leaf_document(v: ValueView)
    requires
        is_leaf(v),
    ensures
        json_of(v) == Ok::<_, Error>(leaf_json(v)),
{
    lemma_leaf_node(v, guessed(v));
}

// ---------------------------------------------------------------------------
// Values as they are written
// ---------------------------------------------------------------------------

/// Whether values have the same documents as others.
pub open spec fn same_leaves(a: Seq<ValueView>, b: Seq<ValueView>) -> bool {
    &&& a.len() == b.len()
    &&& forall|i: int|
        0 <= i < a.len() ==> is_leaf(#[trigger] a[i]) && leaf_json(a[i]) == leaf_json(b[i])
}

/// Values are written as ones with the same documents.
pub proof fn law_stored_leaves(t: TypeView, vs: Seq<ValueView>)
    requires
        column_bytes(t, vs) is Ok,
        all_leaves(vs),
    ensures
        same_leaves(stored(t, vs), vs),
    decreases type_size(t), 1nat,
{
    law_stored_len(t, vs);
    match t {
        TypeView::Array(inner) => lemma_arrays_stored(t, *inner, vs),
        TypeView::Nullable(inner) => {
            reveal(stored);
            law_stored_leaves(*inner, vs);
        },
        TypeView::MapOf(_, _) => lemma_no_rows(t, vs),
        TypeView::Tuple(_) => lemma_no_rows(t, vs),
        TypeView::TupleNamed(fs) => {
            lemma_fields_size(fs);
            lemma_no_rows(t, vs);
        },
        TypeView::Variant(ts) => lemma_variants_stored(t, ts, vs),
        _ => {
            reveal(stored);
        },
    }
}

proof fn lemma_no_rows(t: TypeView, vs: Seq<ValueView>)
    requires
        t is MapOf || t is Tuple || t is TupleNamed,
        rows_of(t, vs) is Ok,
        all_leaves(vs),
    ensures
        vs.len() == 0,
{
    if vs.len() > 0 {
        lemma_rows_len(t, vs);
        assert(row_items(t, vs[0]) == Ok::<_, Error>(rows_of(t, vs)->Ok_0[0]));
        assert(is_leaf(vs[0]));
        reveal(is_leaf);
    }
}

proof fn lemma_same_array(a: Seq<ValueView>, b: Seq<ValueView>)
    requires
        same_leaves(a, b),
    ensures
        is_leaf(ValueView::Array(a)),
        leaf_json(ValueView::Array(a)) == leaf_json(ValueView::Array(b)),
{
    lemma_leaf_array(a);
    lemma_leaf_array(b);
    lemma_leaf_jsons(a);
    lemma_leaf_jsons(b);
    assert(leaf_jsons(a) =~= leaf_jsons(b)) by {
        assert forall|i: int| 0 <= i < a.len() implies leaf_jsons(a)[i] == leaf_jsons(b)[i] by {
            assert(is_leaf(a[i]));
        }
    }
}

proof fn lemma_same_cut(rows: Seq<Seq<ValueView>>, s: Seq<ValueView>, i: int)
    requires
        same_leaves(s, joined_rows(rows)),
        0 <= i < rows.len(),
    ensures
        same_leaves(cut(rows, s)[i], rows[i]),
{
    let items = joined_rows(rows);
    let (a, b) = lemma_cut_piece(rows, s, i);
    let got = s.subrange(a, b);
    let row = items.subrange(a, b);
    assert forall|j: int| 0 <= j < got.len() implies is_leaf(#[trigger] got[j]) && leaf_json(got[j])
        == leaf_json(row[j]) by {
        assert(is_leaf(s[a + j]));
    }
}

proof fn lemma_joined_leaves(rows: Seq<Seq<ValueView>>)
    requires
        forall|i: int| 0 <= i < rows.len() ==> all_leaves(#[trigger] rows[i]),
    ensures
        all_leaves(joined_rows(rows)),
    decreases rows.len(),
{
    if rows.len() > 0 {
        let head = rows.drop_last();
        assert forall|i: int| 0 <= i < head.len() implies all_leaves(#[trigger] head[i]) by {
            assert(head[i] == rows[i]);
        }
        lemma_joined_leaves(head);
        assert(all_leaves(rows[rows.len() - 1]));
    }
}

proof fn lemma_wrapped_leaves(t: TypeView, vs: Seq<ValueView>)
    requires
        wrapped(t, vs) is Ok,
        all_leaves(vs),
    ensures
        all_leaves(wrapped(t, vs)->Ok_0),
        same_leaves(wrapped(t, vs)->Ok_0, vs),
{
    lemma_wrapped_len(t, vs);
    let w = wrapped(t, vs)->Ok_0;
    assert forall|i: int| 0 <= i < vs.len() implies is_leaf(#[trigger] w[i]) && leaf_json(w[i])
        == leaf_json(vs[i]) by {
        assert(is_leaf(vs[i]));
        if let ValueView::Variant(d, x) = w[i] {
            if w[i] != vs[i] {
                lemma_leaf_variant(d, *x);
            }
        }
    }
}

proof fn lemma_arrays_stored(t: TypeView, inner: TypeView, vs: Seq<ValueView>)
    requires
        t == TypeView::Array(Box::new(inner)),
        column_bytes(t, vs) is Ok,
        all_leaves(vs),
    ensures
        same_leaves(stored(t, vs), vs),
    decreases type_size(t), 0nat,
{
    lemma_array_parts(t, inner, vs);
    lemma_rows_len(t, vs);
    let rows = rows_of(t, vs)->Ok_0;
    let items = joined_rows(rows);
    assert forall|i: int| 0 <= i < rows.len() implies all_leaves(#[trigger] rows[i]) by {
        assert(row_items(t, vs[i]) == Ok::<_, Error>(rows[i]));
        assert(is_leaf(vs[i]));
        lemma_leaf_array(rows[i]);
    }
    lemma_joined_leaves(rows);
    lemma_wrapped_leaves(inner, items);
    let w = wrapped(inner, items)->Ok_0;
    assert(type_size(inner) < type_size(t));
    law_stored_leaves(inner, w);
    let si = stored(inner, w);
    assert(same_leaves(si, items)) by {
        assert forall|i: int| 0 <= i < si.len() implies is_leaf(#[trigger] si[i]) && leaf_json(si[i])
            == leaf_json(items[i]) by {
            assert(leaf_json(w[i]) == leaf_json(items[i]));
        }
    }
    let out = arrays_of(cut(rows, si));
    assert forall|i: int| 0 <= i < out.len() implies is_leaf(#[trigger] out[i]) && leaf_json(out[i])
        == leaf_json(vs[i]) by {
        lemma_same_cut(rows, si, i);
        lemma_same_array(cut(rows, si)[i], rows[i]);
        assert(row_items(t, vs[i]) == Ok::<_, Error>(rows[i]));
    }
}

proof fn lemma_group_leaves(vs: Seq<ValueView>, d: u8)
    requires
        all_variants(vs),
        all_leaves(vs),
    ensures
        all_leaves(group_of(vs, d)),
    decreases vs.len(),
{
    if vs.len() > 0 {
        let head = vs.drop_last();
        assert(all_variants(head) && all_leaves(head)) by {
            assert forall|i: int| 0 <= i < head.len() implies (#[trigger] head[i]) is Variant
                && is_leaf(head[i]) by {
                assert(head[i] == vs[i]);
                assert(vs[i] is Variant && is_leaf(vs[i]));
            }
        }
        lemma_group_leaves(head, d);
        let last = vs[vs.len() - 1];
        assert(last is Variant && is_leaf(last));
        lemma_leaf_variant(last->Variant_0, *last->Variant_1);
    }
}

proof fn lemma_variants_stored(t: TypeView, ts: Seq<TypeView>, vs: Seq<ValueView>)
    requires
        t == TypeView::Variant(ts),
        column_bytes(t, vs) is Ok,
        all_leaves(vs),
    ensures
        same_leaves(stored(t, vs), vs),
    decreases type_size(t), 0nat,
{
    reveal(stored);
    lemma_sorted_size(ts);
    law_sorted_types(ts);
    let sorted = sorted_types(ts);
    let columns = stored_groups(sorted, vs, 0);
    lemma_stored_groups(sorted, vs, 0);
    assert(all_variants(vs));
    assert(group_columns(sorted, vs, 0) is Ok);
    let out = variants_of(vs, columns);
    assert(stored(t, vs) == out);
    assert forall|i: int| 0 <= i < out.len() implies is_leaf(#[trigger] out[i]) && leaf_json(out[i])
        == leaf_json(vs[i]) by {
        assert(vs[i] is Variant && is_leaf(vs[i]));
        let d = vs[i]->Variant_0;
        if d != NULL_DISCRIMINATOR && d < columns.len() {
            let g = group_of(vs, d);
            let r = rank(discriminators_of(vs), d, i) as int;
            lemma_group_rank(vs, d, i);
            lemma_group_leaves(vs, d);
            lemma_group_written(sorted, vs, 0, d as int);
            law_stored_leaves(sorted[d as int], g);
            assert(columns[d as int] == stored_group(sorted[d as int], vs, (0 + d) as nat));
            assert(columns[d as int] == stored(sorted[d as int], g));
            assert(is_leaf(stored(sorted[d as int], g)[r]));
            lemma_leaf_variant(d, *vs[i]->Variant_1);
            lemma_leaf_variant(d, columns[d as int][r]);
        }
    }
}

} // verus!
