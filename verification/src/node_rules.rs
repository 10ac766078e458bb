//! What trees and documents values become.
use vstd::prelude::*;
use vstd::utf8::{decode_utf8, valid_utf8};

use crate::big_int::be_value;
use crate::columns::field_types;
use crate::error::Error;
use crate::guess::guessed;
use crate::json_value::{JsonNumber, JsonView};
use crate::node::{MapKeyPolicy, NodeMode, NodeView};
use crate::text::{dec_text, int_text};
use crate::typed_node::{json_of, key_node, node_of, nodes_across, nodes_of, row_node};
use crate::types::TypeView;
use crate::value_text::{date_text, datetime_text, decimal_text, ipv4_text, ipv6_text, uuid_text};
use crate::values::ValueView;

verus! {

// ---------------------------------------------------------------------------
// Scalars
// ---------------------------------------------------------------------------

/// Numbers become numbers of their width, those that are too wide texts; strings texts, and
/// identifiers, addresses and names of options likewise. What is no finite number is missing.
pub proof fn law_trees_of_scalars(v: ValueView, t: TypeView, mode: NodeMode)
    ensures
        v is Null ==> node_of(v, t, mode) == Ok::<_, Error>(NodeView::Missing),
        v matches ValueView::Bool(x) ==> node_of(v, t, mode) == Ok::<_, Error>(NodeView::Bool(x)),
        v matches ValueView::Int8(x) ==> node_of(v, t, mode) == Ok::<_, Error>(NodeView::I8(x)),
        v matches ValueView::Int16(x) ==> node_of(v, t, mode) == Ok::<_, Error>(NodeView::I16(x)),
        v matches ValueView::Int32(x) ==> node_of(v, t, mode) == Ok::<_, Error>(NodeView::I32(x)),
        v matches ValueView::Int64(x) ==> node_of(v, t, mode) == Ok::<_, Error>(NodeView::I64(x)),
        v matches ValueView::UInt8(x) ==> node_of(v, t, mode) == Ok::<_, Error>(NodeView::U8(x)),
        v matches ValueView::UInt16(x) ==> node_of(v, t, mode) == Ok::<_, Error>(NodeView::U16(x)),
        v matches ValueView::UInt32(x) ==> node_of(v, t, mode) == Ok::<_, Error>(NodeView::U32(x)),
        v matches ValueView::UInt64(x) ==> node_of(v, t, mode) == Ok::<_, Error>(NodeView::U64(x)),
        v matches ValueView::Int128(x) ==> node_of(v, t, mode) == Ok::<_, Error>(
            NodeView::Str(int_text(x as int)),
        ),
        v matches ValueView::UInt128(x) ==> node_of(v, t, mode) == Ok::<_, Error>(
            NodeView::Str(dec_text(x as nat)),
        ),
        v matches ValueView::UInt256(b) ==> node_of(v, t, mode) == Ok::<_, Error>(
            NodeView::Str(dec_text(be_value(b))),
        ),
        v matches ValueView::Float64(x) ==> node_of(v, t, mode) == Ok::<_, Error>(
            if x as nat / 0x10_0000_0000_0000 % 0x800 == 0x7FF {
                NodeView::Missing
            } else {
                NodeView::F64(x)
            },
        ),
        v matches ValueView::Float32(x) ==> node_of(v, t, mode) == Ok::<_, Error>(
            if x as nat / 0x80_0000 % 0x100 == 0xFF {
                NodeView::Missing
            } else {
                NodeView::F32(x)
            },
        ),
        v matches ValueView::String(b) ==> valid_utf8(b) ==> node_of(v, t, mode) == Ok::<_, Error>(
            NodeView::Str(decode_utf8(b)),
        ),
        v matches ValueView::Uuid(x) ==> node_of(v, t, mode) == Ok::<_, Error>(
            NodeView::Str(uuid_text(x as nat)),
        ),
        v matches ValueView::Ipv4(x) ==> node_of(v, t, mode) == Ok::<_, Error>(
            NodeView::Str(ipv4_text(x)),
        ),
        v matches ValueView::Ipv6(b) ==> node_of(v, t, mode) == Ok::<_, Error>(
            NodeView::Str(ipv6_text(b)),
        ),
        v matches ValueView::Enum8(name, _) ==> node_of(v, t, mode) == Ok::<_, Error>(
            NodeView::Str(name),
        ),
        v matches ValueView::Enum16(name, _) ==> node_of(v, t, mode) == Ok::<_, Error>(
            NodeView::Str(name),
        ),
        v matches ValueView::Decimal32(s, x) ==> s < usize::MAX ==> node_of(v, t, mode) == Ok::<
            _,
            Error,
        >(NodeView::Str(decimal_text(int_text(x as int), s as nat))),
        v matches ValueView::Decimal64(s, x) ==> s < usize::MAX ==> node_of(v, t, mode) == Ok::<
            _,
            Error,
        >(NodeView::Str(decimal_text(int_text(x as int), s as nat))),
        v matches ValueView::Decimal128(s, x) ==> s < usize::MAX ==> node_of(v, t, mode) == Ok::<
            _,
            Error,
        >(NodeView::Str(decimal_text(int_text(x as int), s as nat))),
{
}

/// A number of 256 bits is held with its highest byte first.
pub proof fn law_wide_numbers(b: Seq<u8>, x: u8)
    ensures
        be_value(Seq::empty()) == 0,
        be_value(b.push(x)) == 256 * be_value(b) + x,
{
    assert(b.push(x).drop_last() =~= b);
}

/// Dates, times and points have trees of their own; documents stand for themselves.
pub proof fn law_trees_of_dates_and_points(
    v: ValueView,
    t: TypeView,
    policy: MapKeyPolicy,
)
    ensures
        ({
            let mode = NodeMode::Typed(policy);
            &&& v matches ValueView::Date(x) ==> date_text(x) matches Some(s) ==> node_of(
                v,
                t,
                mode,
            ) == Ok::<_, Error>(NodeView::Str(s))
            &&& v matches ValueView::DateTime(tz, x) ==> datetime_text(tz, x) matches Some(s)
                ==> node_of(v, t, mode) == Ok::<_, Error>(NodeView::Str(s))
            &&& v matches ValueView::Point(x, y) ==> node_of(v, t, mode) == Ok::<_, Error>(
                NodeView::List(seq![NodeView::F64(x), NodeView::F64(y)]),
            )
            &&& v matches ValueView::Json(j) ==> node_of(v, t, mode) == Ok::<_, Error>(
                NodeView::Json(j),
            )
        }),
{
}

// ---------------------------------------------------------------------------
// Arrays, tuples and maps
// ---------------------------------------------------------------------------

proof fn lemma_nodes(s: Seq<ValueView>, t: TypeView, mode: NodeMode)
    requires
        nodes_of(s, t, mode) is Ok,
    ensures
        nodes_of(s, t, mode)->Ok_0.len() == s.len(),
        forall|i: int|
            0 <= i < s.len() ==> node_of(#[trigger] s[i], t, mode) == Ok::<_, Error>(
                nodes_of(s, t, mode)->Ok_0[i],
            ),
    decreases s.len(),
{
    if s.len() > 0 {
        let tail = s.subrange(1, s.len() as int);
        lemma_nodes(tail, t, mode);
        let all = nodes_of(s, t, mode)->Ok_0;
        let rest = nodes_of(tail, t, mode)->Ok_0;
        assert forall|i: int| 0 <= i < s.len() implies node_of(#[trigger] s[i], t, mode) == Ok::<
            _,
            Error,
        >(all[i]) by {
            if i > 0 {
                assert(tail[i - 1] == s[i]);
                assert(all[i] == rest[i - 1]);
            }
        }
    }
}

/// An array becomes the list of the trees of its elements.
pub proof fn law_trees_of_arrays(s: Seq<ValueView>, t: TypeView, mode: NodeMode, n: NodeView)
    requires
        node_of(ValueView::Array(s), TypeView::Array(Box::new(t)), mode) == Ok::<_, Error>(n),
    ensures
        n matches NodeView::List(x) && x.len() == s.len() && forall|i: int|
            0 <= i < s.len() ==> node_of(#[trigger] s[i], t, mode) == Ok::<_, Error>(x[i]),
{
    lemma_nodes(s, t, mode);
}

proof fn lemma_across(s: Seq<ValueView>, ts: Seq<TypeView>, mode: NodeMode)
    requires
        nodes_across(s, ts, mode) is Ok,
        s.len() == ts.len(),
    ensures
        nodes_across(s, ts, mode)->Ok_0.len() == s.len(),
        forall|i: int|
            0 <= i < s.len() ==> node_of(#[trigger] s[i], ts[i], mode) == Ok::<_, Error>(
                nodes_across(s, ts, mode)->Ok_0[i],
            ),
    decreases s.len(),
{
    if s.len() > 0 {
        let tail = s.subrange(1, s.len() as int);
        let types = ts.subrange(1, ts.len() as int);
        lemma_across(tail, types, mode);
        let all = nodes_across(s, ts, mode)->Ok_0;
        let rest = nodes_across(tail, types, mode)->Ok_0;
        assert forall|i: int| 0 <= i < s.len() implies node_of(#[trigger] s[i], ts[i], mode)
            == Ok::<_, Error>(all[i]) by {
            if i > 0 {
                assert(tail[i - 1] == s[i]);
                assert(types[i - 1] == ts[i]);
                assert(all[i] == rest[i - 1]);
            }
        }
    }
}

/// A row becomes fields: the tree of each value under the name of its column.
pub proof fn law_trees_of_rows(
    cols: Seq<(Seq<char>, TypeView)>,
    row: Seq<ValueView>,
    mode: NodeMode,
    n: NodeView,
)
    requires
        cols.len() == row.len(),
        row_node(cols, row, mode) == Ok::<_, Error>(n),
    ensures
        n matches NodeView::Fields(k, x) && k.len() == row.len() && x.len() == row.len() && forall|
            i: int,
        |
            0 <= i < row.len() ==> k[i] == NodeView::Str(cols[i].0) && node_of(
                #[trigger] row[i],
                cols[i].1,
                mode,
            ) == Ok::<_, Error>(x[i]),
{
    let ts = field_types(cols);
    lemma_across(row, ts, mode);
    let x = nodes_across(row, ts, mode)->Ok_0;
    assert forall|i: int| 0 <= i < row.len() implies node_of(#[trigger] row[i], cols[i].1, mode)
        == Ok::<_, Error>(x[i]) by {
        assert(ts[i] == cols[i].1);
    }
}

/// A tuple becomes the list of the trees of its fields, and one with names fields under them.
pub proof fn law_trees_of_tuples(
    s: Seq<ValueView>,
    fs: Seq<(Seq<char>, TypeView)>,
    mode: NodeMode,
    n: NodeView,
    m: NodeView,
)
    requires
        s.len() == fs.len(),
        node_of(ValueView::Tuple(s), TypeView::Tuple(field_types(fs)), mode) == Ok::<_, Error>(n),
        node_of(ValueView::Tuple(s), TypeView::TupleNamed(fs), mode) == Ok::<_, Error>(m),
    ensures
        n matches NodeView::List(x) && x.len() == s.len() && forall|i: int|
            0 <= i < s.len() ==> node_of(#[trigger] s[i], fs[i].1, mode) == Ok::<_, Error>(x[i]),
        m matches NodeView::Fields(k, x) && k.len() == s.len() && n == NodeView::List(x) && forall|
            i: int,
        |
            0 <= i < s.len() ==> #[trigger] k[i] == NodeView::Str(fs[i].0),
{
    let ts = field_types(fs);
    lemma_across(s, ts, mode);
    let x = nodes_across(s, ts, mode)->Ok_0;
    assert forall|i: int| 0 <= i < s.len() implies node_of(#[trigger] s[i], fs[i].1, mode) == Ok::<
        _,
        Error,
    >(x[i]) by {
        assert(ts[i] == fs[i].1);
    }
}

/// A map of one entry becomes a field, whose name is the text of the key; it becomes a list of
/// the key and the value where that is asked for.
pub proof fn law_trees_of_maps(
    k: ValueView,
    x: ValueView,
    kt: TypeView,
    xt: TypeView,
    a: NodeView,
    b: NodeView,
)
    ensures
        ({
            let v = ValueView::MapOf(seq![k], seq![x]);
            let t = TypeView::MapOf(Box::new(kt), Box::new(xt));
            let plain = NodeMode::Typed(MapKeyPolicy::Stringify);
            let pairs = NodeMode::Typed(MapKeyPolicy::Pairs);
            let native = NodeMode::Typed(MapKeyPolicy::Native);
            &&& node_of(x, xt, plain) == Ok::<_, Error>(b) ==> node_of(v, t, plain) == Ok::<
                _,
                Error,
            >(NodeView::Fields(seq![key_node(k)], seq![b]))
            &&& node_of(k, kt, pairs) == Ok::<_, Error>(a) && node_of(x, xt, pairs) == Ok::<
                _,
                Error,
            >(b) ==> node_of(v, t, pairs) == Ok::<_, Error>(
                NodeView::List(seq![NodeView::List(seq![a, b])]),
            )
            &&& node_of(k, kt, native) == Ok::<_, Error>(a) && node_of(x, xt, native) == Ok::<
                _,
                Error,
            >(b) ==> node_of(v, t, native) == Ok::<_, Error>(
                NodeView::Fields(seq![a], seq![b]),
            )
        }),
        k matches ValueView::String(s) ==> valid_utf8(s) ==> key_node(k) == NodeView::Str(
            decode_utf8(s),
        ),
        k matches ValueView::UInt64(n) ==> key_node(k) == NodeView::Str(dec_text(n as nat)),
        k matches ValueView::Int64(n) ==> key_node(k) == NodeView::Str(int_text(n as int)),
{
    let ks = seq![k];
    let xs = seq![x];
    let k0 = ks.subrange(1, 1);
    let x0 = xs.subrange(1, 1);
    assert(k0 =~= Seq::<ValueView>::empty());
    assert(x0 =~= Seq::<ValueView>::empty());
    let plain = NodeMode::Typed(MapKeyPolicy::Stringify);
    let pairs = NodeMode::Typed(MapKeyPolicy::Pairs);
    let native = NodeMode::Typed(MapKeyPolicy::Native);
    lemma_one_entry(k, x, kt, xt, plain);
    lemma_one_entry(k, x, kt, xt, pairs);
    lemma_one_entry(k, x, kt, xt, native);
    law_documents_of_scalars(k);
    let one = Seq::new(1, |i: int| NodeView::List(seq![seq![a][i], seq![b][i]]));
    assert(one =~= seq![NodeView::List(seq![a, b])]);
}

proof fn lemma_one_entry(k: ValueView, x: ValueView, kt: TypeView, xt: TypeView, mode: NodeMode)
    ensures
        crate::typed_node::entries_of(seq![k], seq![x], kt, xt, mode) == (
        match crate::typed_node::map_key(k, kt, mode) {
            Err(e) => Err(e),
            Ok(a) => match node_of(x, xt, mode) {
                Err(e) => Err(e),
                Ok(b) => Ok((seq![a], seq![b])),
            },
        }),
{
    let ks = seq![k];
    let xs = seq![x];
    let k0 = ks.subrange(1, 1);
    let x0 = xs.subrange(1, 1);
    assert(k0 =~= Seq::<ValueView>::empty());
    assert(x0 =~= Seq::<ValueView>::empty());
    assert(crate::typed_node::entries_of(k0, x0, kt, xt, mode) == Ok::<_, Error>(
        (Seq::<NodeView>::empty(), Seq::<NodeView>::empty()),
    ));
    if let Ok(a) = crate::typed_node::map_key(k, kt, mode) {
        assert(seq![a] + Seq::<NodeView>::empty() =~= seq![a]);
        if let Ok(b) = node_of(x, xt, mode) {
            assert(seq![b] + Seq::<NodeView>::empty() =~= seq![b]);
        }
    }
}

// ---------------------------------------------------------------------------
// Documents
// ---------------------------------------------------------------------------

/// The documents of scalars.
pub proof fn law_documents_of_scalars(v: ValueView)
    ensures
        v is Null ==> json_of(v) == Ok::<_, Error>(JsonView::Null),
        v matches ValueView::Bool(b) ==> json_of(v) == Ok::<_, Error>(JsonView::Bool(b)),
        v matches ValueView::UInt8(x) ==> json_of(v) == Ok::<_, Error>(
            JsonView::Number(JsonNumber::PosInt(x as u64)),
        ),
        v matches ValueView::UInt64(x) ==> json_of(v) == Ok::<_, Error>(
            JsonView::Number(JsonNumber::PosInt(x)),
        ),
        v matches ValueView::Int64(x) ==> json_of(v) == Ok::<_, Error>(
            JsonView::Number(
                if x < 0 {
                    JsonNumber::NegInt(x)
                } else {
                    JsonNumber::PosInt(x as u64)
                },
            ),
        ),
        v matches ValueView::Float64(x) ==> json_of(v) == Ok::<_, Error>(
            if x as nat / 0x10_0000_0000_0000 % 0x800 == 0x7FF {
                JsonView::Null
            } else {
                JsonView::Number(JsonNumber::Float(x))
            },
        ),
        v matches ValueView::String(b) ==> valid_utf8(b) ==> json_of(v) == Ok::<_, Error>(
            JsonView::String(decode_utf8(b)),
        ),
        v matches ValueView::Json(j) ==> json_of(v) == Ok::<_, Error>(j),
{
    law_trees_of_scalars(v, guessed(v), NodeMode::Typed(MapKeyPolicy::Stringify));
    law_trees_of_dates_and_points(v, guessed(v), MapKeyPolicy::Stringify);
}

} // verus!
