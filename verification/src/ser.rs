//! Writing values of a type to a data format.
use vstd::prelude::*;

use crate::columns::{field_types, types_of_fields};
use crate::error::{Error, Result};
use crate::guess::guessed;
use crate::node::{made, MapKeyPolicy, Node, NodeMode, NodeView};
use crate::typed_node::{json_of, json_of_node, make_row, node_of, row_node, serialize_typed_impl};
use crate::types::{field_views, Type, TypeView};
use crate::values::{value_views, Value, ValueView};

verus! {

/// A value of a type.
///
/// Tuples with named fields become fields, other tuples and arrays lists, and null is
/// missing. The keys of maps become strings.
pub struct Typed<'a> {
    pub v: &'a Value,
    pub t: &'a Type,
}

impl<'a> Typed<'a> {
    /// The tree of the value.
    pub fn node(&self) -> (r: Result<Node>)
        ensures
            made(r, node_of(self.v@, self.t@, NodeMode::Typed(MapKeyPolicy::Stringify))),
    {
        serialize_typed_impl(self.v, self.t, NodeMode::Typed(MapKeyPolicy::Stringify))
    }
}

/// A value of a type, with a policy for the keys of maps.
pub struct TypedWith<'a> {
    pub v: &'a Value,
    pub t: &'a Type,
    pub map_key_policy: MapKeyPolicy,
}

impl<'a> TypedWith<'a> {
    /// The tree of the value.
    pub fn node(&self) -> (r: Result<Node>)
        ensures
            made(r, node_of(self.v@, self.t@, NodeMode::Typed(self.map_key_policy))),
    {
        serialize_typed_impl(self.v, self.t, NodeMode::Typed(self.map_key_policy))
    }
}

/// A row: the values of columns with names and types.
pub struct RowSerializer<'a> {
    pub cols: &'a Vec<(String, Type)>,
    pub row: &'a Vec<Value>,
}

impl<'a> RowSerializer<'a> {
    /// The tree of the row.
    pub fn node(&self) -> (r: Result<Node>)
        ensures
            made(
                r,
                row_node(
                    field_views(self.cols@),
                    value_views(self.row@),
                    NodeMode::Typed(MapKeyPolicy::Stringify),
                ),
            ),
    {
        make_row(self.cols, self.row, NodeMode::Typed(MapKeyPolicy::Stringify))
    }
}

/// The type that a cell of a row is shown by: tuples with named fields as other tuples.
pub open spec fn positional(t: TypeView) -> TypeView {
    match t {
        TypeView::TupleNamed(fs) => TypeView::Tuple(field_types(fs)),
        _ => t,
    }
}

/// Columns whose cells are shown by their positions.
pub open spec fn positional_columns(cols: Seq<(Seq<char>, TypeView)>) -> Seq<(Seq<char>, TypeView)> {
    Seq::new(cols.len(), |i: int| (cols[i].0, positional(cols[i].1)))
}

fn make_positional(cols: &Vec<(String, Type)>) -> (r: Vec<(String, Type)>)
    ensures
        field_views(r@) == positional_columns(field_views(cols@)),
{
    let mut out: Vec<(String, Type)> = Vec::new();
    let mut i: usize = 0;
    while i < cols.len()
        invariant
            i <= cols.len(),
            out@.len() == i,
            forall|j: int|
                0 <= j < i ==> (#[trigger] out@[j]).0@ == cols@[j].0@ && out@[j].1@ == positional(
                    cols@[j].1@,
                ),
        decreases cols.len() - i,
    {
        let t = match &cols[i].1 {
            Type::TupleNamed(fs) => {
                let t = Type::Tuple(types_of_fields(fs));
                proof {
                    t.lemma_view();
                    cols@[i as int].1.lemma_view();
                }
                t
            },
            other => {
                proof {
                    other.lemma_view();
                }
                other.clone()
            },
        };
        out.push((cols[i].0.clone(), t));
        i += 1;
    }
    assert(field_views(out@) =~= positional_columns(field_views(cols@)));
    out
}

/// A row with the given policy for the keys of maps. Cells that are tuples with named
/// fields become lists of their values, as those of other tuples do.
pub struct RowSerWith<'a> {
    pub cols: &'a Vec<(String, Type)>,
    pub row: &'a Vec<Value>,
    pub map_key_policy: MapKeyPolicy,
}

impl<'a> RowSerWith<'a> {
    /// The tree of the row.
    pub fn node(&self) -> (r: Result<Node>)
        ensures
            made(
                r,
                row_node(
                    positional_columns(field_views(self.cols@)),
                    value_views(self.row@),
                    NodeMode::Typed(self.map_key_policy),
                ),
            ),
    {
        let cols = make_positional(self.cols);
        make_row(&cols, self.row, NodeMode::Typed(self.map_key_policy))
    }
}

/// Null is missing, whatever the type and whatever the tree is made for.
pub proof fn law_null_is_missing(t: TypeView, mode: NodeMode)
    ensures
        node_of(ValueView::Null, t, mode) == Ok::<_, Error>(NodeView::Missing),
{
}

/// A type that allows null makes the same tree as the type that it wraps.
pub proof fn law_nullable_is_transparent(v: ValueView, t: TypeView, mode: NodeMode)
    ensures
        node_of(v, TypeView::Nullable(Box::new(t)), mode) == node_of(v, t, mode),
{
}

/// A value of the type that is guessed for it has the document that it has alone.
pub proof fn law_typed_matches_document(v: ValueView, n: NodeView)
    requires
        node_of(v, guessed(v), NodeMode::Typed(MapKeyPolicy::Stringify)) == Ok::<_, Error>(n),
    ensures
        json_of(v) == json_of_node(n),
{
}

} // verus!
