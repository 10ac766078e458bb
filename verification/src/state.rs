//! What is known of a column besides its type while it is written or read.
use vstd::prelude::*;

use crate::dynamic::DynamicState;
use crate::json_columns::JsonState;
use crate::json_read::JsonLayout;

verus! {

/// What columns of some types need besides their type.
#[derive(Debug)]
pub enum TypeSpecificState {
    /// Nothing is known.
    Nothing,
    /// The types of a column of any values.
    Dynamic(DynamicState),
    /// The columns of the paths of a column of documents.
    Json(JsonState),
    /// The paths of a column of documents that is being read.
    JsonLayout(JsonLayout),
}

/// What writing a column needs to know besides its type.
#[derive(Debug)]
pub struct SerializerState {
    /// What the column needs besides its type.
    pub type_specific: TypeSpecificState,
    /// The version of the server, if it is known.
    pub server_version: Option<(u64, u64, u64)>,
}

impl Default for SerializerState {
    fn default() -> (r: SerializerState)
        ensures
            r.type_specific is Nothing,
            r.server_version is None,
    {
        SerializerState { type_specific: TypeSpecificState::Nothing, server_version: None }
    }
}

} // verus!
