//! Reading out of values of a type.
use vstd::prelude::*;

use crate::error::Result;
use crate::node::{made, Node, NodeMode};
use crate::typed_node::{make_row, node_of, row_node, serialize_typed_impl};
use crate::types::{field_views, Type};
use crate::values::{value_views, Value};

verus! {

/// A value of a type to be read out of.
pub struct TypedDeserializer<'a> {
    pub v: &'a Value,
    pub t: &'a Type,
}

impl<'a> TypedDeserializer<'a> {
    /// The tree of the value.
    pub fn node(&self) -> (r: Result<Node>)
        ensures
            made(r, node_of(self.v@, self.t@, NodeMode::Reading)),
    {
        serialize_typed_impl(self.v, self.t, NodeMode::Reading)
    }
}

/// A row to be read out of: the values of columns with names and types.
pub struct RowDeserializer<'a> {
    pub cols: &'a Vec<(String, Type)>,
    pub row: &'a Vec<Value>,
}

impl<'a> RowDeserializer<'a> {
    /// The tree of the row.
    pub fn node(&self) -> (r: Result<Node>)
        ensures
            made(r, row_node(field_views(self.cols@), value_views(self.row@), NodeMode::Reading)),
    {
        make_row(self.cols, self.row, NodeMode::Reading)
    }
}

} // verus!
