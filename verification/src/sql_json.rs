//! Documents as the values of a column.
use vstd::prelude::*;

use crate::error::{Error, ReadReason, Result};
use crate::json_text::{json_of_text, parse_json};
use crate::json_value::{JsonValue, JsonView};
use crate::types::Type;
use crate::values::{Value, ValueView};

verus! {

/// A value that is kept as a document.
#[derive(Clone, Debug, Default, PartialEq)]
pub struct Json<T>(pub T);

/// The document that a value of a column holds: a document as it is, the text of one read.
pub open spec fn held_document(v: ValueView) -> core::result::Result<JsonView, Error> {
    match v {
        ValueView::Json(j) => Ok(j),
        ValueView::Object(b) | ValueView::String(b) => match json_of_text(b) {
            Some(j) => Ok(j),
            None => Err(Error::DeserializeError(ReadReason::InvalidJson)),
        },
        _ => Err(Error::DeserializeError(ReadReason::NotAsJson)),
    }
}

impl Json<JsonValue> {
    /// The value that stands for the document. The type of the column does not matter.
    pub fn to_sql(self, _type_hint: Option<&Type>) -> (r: Result<Value>)
        ensures
            r matches Ok(v) && v@ == ValueView::Json(self.0@),
    {
        Ok(Value::Json(self.0))
    }

    /// The document that a value holds. The type of the column does not matter.
    pub fn from_sql(_type: &Type, value: Value) -> (r: Result<Self>)
        ensures
            match r {
                Ok(d) => held_document(value@) == Ok::<_, Error>(d.0@),
                Err(e) => held_document(value@) == Err::<JsonView, _>(e),
            },
    {
        match value {
            Value::Json(j) => Ok(Json(j)),
            Value::Object(b) | Value::String(b) => match parse_json(&b) {
                Some(j) => Ok(Json(j)),
                None => Err(Error::DeserializeError(ReadReason::InvalidJson)),
            },
            _ => Err(Error::DeserializeError(ReadReason::NotAsJson)),
        }
    }
}

/// A document that was made a value is found in it again.
pub proof fn law_document_is_held(d: JsonView)
    ensures
        held_document(ValueView::Json(d)) == Ok::<_, Error>(d),
{
}

} // verus!
