//! Cells of JSON rows as values of columns.
use serde_json::Value as SerdeJson;
use vstd::prelude::*;
use vstd::utf8::encode_utf8;

use crate::error::{Error, Result, WriteReason};
use crate::float_bits::{
    double_of_int, double_to_i64, double_to_single, double_to_u64, i64_of_double, int_to_double,
    single_of_double, u64_of_double,
};
use crate::guess::default_of;
use crate::json_text::{
    document, json_from_slice, json_layer, json_of_text, json_text, json_to_vec, json_view,
    JsonLayer,
};
use crate::json_value::{JsonNumber, JsonView};
use crate::text::{parse_int, parse_uint, parsed_int, parsed_uint, to_chars};
use crate::types::{nullable, Type, TypeView};
use crate::values::{Value, ValueView};

verus! {

/// What a cell becomes.
pub type Ingested = core::result::Result<ValueView, Error>;

// ---------------------------------------------------------------------------
// Numbers
// ---------------------------------------------------------------------------

/// Whether bits of double precision are those of no number.
pub open spec fn is_nan(bits: u64) -> bool {
    bits as nat / 0x10_0000_0000_0000 % 0x800 == 0x7FF && bits as nat % 0x10_0000_0000_0000 != 0
}

/// Bits of double precision, with one pattern for all that is no number.
pub open spec fn canonical(bits: u64) -> u64 {
    if is_nan(bits) {
        0x7FF8_0000_0000_0000
    } else {
        bits
    }
}

/// The bits of double precision of the number that a text reads as.
pub uninterp spec fn double_of_text(s: Seq<char>) -> Option<u64>;

/// Calls `str::parse` for a number of double precision, and `to_bits` on the result. The
/// bits of what is no number are not told. `Number::from_f64` stands in the body for the
/// type of its parameter alone: what it returns is dropped.
#[verifier::external_body]
fn parse_double(s: &str) -> (r: Option<u64>)
    ensures
        match r {
            Some(b) => double_of_text(s@) == Some(canonical(b)),
            None => double_of_text(s@) is None,
        },
{
    s.parse().ok().map(|x| (serde_json::Number::from_f64(x), x.to_bits()).1)
}

/// The unsigned integer of a cell. Where conversions are allowed, a negative integer is
/// taken around, a fraction cut off, and a text read.
pub open spec fn cell_u64(j: JsonView, strict: bool) -> core::result::Result<u64, Error> {
    let none = Err(Error::SerializeError(WriteReason::Coercion));
    match j {
        JsonView::Number(JsonNumber::PosInt(x)) => Ok(x),
        JsonView::Number(JsonNumber::NegInt(x)) => if strict {
            none
        } else {
            Ok(x as u64)
        },
        JsonView::Number(JsonNumber::Float(x)) => if strict {
            none
        } else {
            Ok(u64_of_double(x) as u64)
        },
        JsonView::String(s) => if strict {
            none
        } else {
            match parsed_uint(s, u64::MAX as nat) {
                Some(n) => Ok(n as u64),
                None => none,
            }
        },
        _ => none,
    }
}

/// The signed integer of a cell. Where conversions are allowed, a large integer is taken
/// around, a fraction cut off, and a text read.
pub open spec fn cell_i64(j: JsonView, strict: bool) -> core::result::Result<i64, Error> {
    let none = Err(Error::SerializeError(WriteReason::Coercion));
    match j {
        JsonView::Number(JsonNumber::PosInt(x)) => if x <= i64::MAX {
            Ok(x as i64)
        } else if strict {
            none
        } else {
            Ok(x as i64)
        },
        JsonView::Number(JsonNumber::NegInt(x)) => Ok(x),
        JsonView::Number(JsonNumber::Float(x)) => if strict {
            none
        } else {
            Ok(i64_of_double(x) as i64)
        },
        JsonView::String(s) => if strict {
            none
        } else {
            match parsed_int(s, i64::MIN as int, i64::MAX as int) {
                Some(n) => Ok(n as i64),
                None => none,
            }
        },
        _ => none,
    }
}

/// The bits of double precision of a cell. Where conversions are allowed, a text is read.
pub open spec fn cell_f64(j: JsonView, strict: bool) -> core::result::Result<u64, Error> {
    let none = Err(Error::SerializeError(WriteReason::Coercion));
    match j {
        JsonView::Number(JsonNumber::PosInt(x)) => Ok(double_of_int(x as int) as u64),
        JsonView::Number(JsonNumber::NegInt(x)) => Ok(double_of_int(x as int) as u64),
        JsonView::Number(JsonNumber::Float(x)) => Ok(x),
        JsonView::String(s) => if strict {
            none
        } else {
            match double_of_text(s) {
                Some(x) => Ok(x),
                None => none,
            }
        },
        _ => none,
    }
}

fn canonical_bits(bits: u64) -> (r: u64)
    ensures
        r == canonical(bits),
{
    if bits / 0x10_0000_0000_0000 % 0x800 == 0x7FF && bits % 0x10_0000_0000_0000 != 0 {
        0x7FF8_0000_0000_0000
    } else {
        bits
    }
}

fn to_u64(v: &SerdeJson, strict: bool) -> (r: Result<u64>)
    ensures
        r == cell_u64(json_view(*v), strict),
{
    match json_layer(v) {
        JsonLayer::Number(JsonNumber::PosInt(x)) => Ok(x),
        JsonLayer::Number(JsonNumber::NegInt(x)) => if strict {
            Err(Error::SerializeError(WriteReason::Coercion))
        } else {
            Ok(x as u64)
        },
        JsonLayer::Number(JsonNumber::Float(x)) => if strict {
            Err(Error::SerializeError(WriteReason::Coercion))
        } else {
            Ok(double_to_u64(x))
        },
        JsonLayer::Text(s) => {
            if strict {
                return Err(Error::SerializeError(WriteReason::Coercion));
            }
            let chars = to_chars(s.as_str());
            match parse_uint(&chars, u64::MAX) {
                Some(n) => Ok(n),
                None => Err(Error::SerializeError(WriteReason::Coercion)),
            }
        },
        _ => Err(Error::SerializeError(WriteReason::Coercion)),
    }
}

fn to_i64(v: &SerdeJson, strict: bool) -> (r: Result<i64>)
    ensures
        r == cell_i64(json_view(*v), strict),
{
    match json_layer(v) {
        JsonLayer::Number(JsonNumber::PosInt(x)) => if x <= i64::MAX as u64 {
            Ok(x as i64)
        } else if strict {
            Err(Error::SerializeError(WriteReason::Coercion))
        } else {
            Ok(x as i64)
        },
        JsonLayer::Number(JsonNumber::NegInt(x)) => Ok(x),
        JsonLayer::Number(JsonNumber::Float(x)) => if strict {
            Err(Error::SerializeError(WriteReason::Coercion))
        } else {
            Ok(double_to_i64(x))
        },
        JsonLayer::Text(s) => {
            if strict {
                return Err(Error::SerializeError(WriteReason::Coercion));
            }
            let chars = to_chars(s.as_str());
            match parse_int(&chars, i64::MIN, i64::MAX) {
                Some(n) => Ok(n),
                None => Err(Error::SerializeError(WriteReason::Coercion)),
            }
        },
        _ => Err(Error::SerializeError(WriteReason::Coercion)),
    }
}

fn to_f64(v: &SerdeJson, strict: bool) -> (r: Result<u64>)
    ensures
        r == cell_f64(json_view(*v), strict),
{
    match json_layer(v) {
        JsonLayer::Number(JsonNumber::PosInt(x)) => Ok(int_to_double(x as i128)),
        JsonLayer::Number(JsonNumber::NegInt(x)) => Ok(int_to_double(x as i128)),
        JsonLayer::Number(JsonNumber::Float(x)) => Ok(x),
        JsonLayer::Text(s) => {
            if strict {
                return Err(Error::SerializeError(WriteReason::Coercion));
            }
            match parse_double(s.as_str()) {
                Some(x) => Ok(canonical_bits(x)),
                None => Err(Error::SerializeError(WriteReason::Coercion)),
            }
        },
        _ => Err(Error::SerializeError(WriteReason::Coercion)),
    }
}

/// The integer, if it fits.
pub fn u8_from_u64(x: u64) -> (r: Result<u8>)
    ensures
        r == (if x <= u8::MAX {
            Ok(x as u8)
        } else {
            Err(Error::SerializeError(WriteReason::Overflow))
        }),
{
    if x <= u8::MAX as u64 {
        Ok(x as u8)
    } else {
        Err(Error::SerializeError(WriteReason::Overflow))
    }
}

/// The integer, if it fits.
pub fn u16_from_u64(x: u64) -> (r: Result<u16>)
    ensures
        r == (if x <= u16::MAX {
            Ok(x as u16)
        } else {
            Err(Error::SerializeError(WriteReason::Overflow))
        }),
{
    if x <= u16::MAX as u64 {
        Ok(x as u16)
    } else {
        Err(Error::SerializeError(WriteReason::Overflow))
    }
}

/// The integer, if it fits.
pub fn u32_from_u64(x: u64) -> (r: Result<u32>)
    ensures
        r == (if x <= u32::MAX {
            Ok(x as u32)
        } else {
            Err(Error::SerializeError(WriteReason::Overflow))
        }),
{
    if x <= u32::MAX as u64 {
        Ok(x as u32)
    } else {
        Err(Error::SerializeError(WriteReason::Overflow))
    }
}

/// The integer, if it fits.
pub fn i8_from_i64(x: i64) -> (r: Result<i8>)
    ensures
        r == (if i8::MIN <= x <= i8::MAX {
            Ok(x as i8)
        } else {
            Err(Error::SerializeError(WriteReason::Overflow))
        }),
{
    if x >= i8::MIN as i64 && x <= i8::MAX as i64 {
        Ok(x as i8)
    } else {
        Err(Error::SerializeError(WriteReason::Overflow))
    }
}

/// The integer, if it fits.
pub fn i16_from_i64(x: i64) -> (r: Result<i16>)
    ensures
        r == (if i16::MIN <= x <= i16::MAX {
            Ok(x as i16)
        } else {
            Err(Error::SerializeError(WriteReason::Overflow))
        }),
{
    if x >= i16::MIN as i64 && x <= i16::MAX as i64 {
        Ok(x as i16)
    } else {
        Err(Error::SerializeError(WriteReason::Overflow))
    }
}

/// The integer, if it fits.
pub fn i32_from_i64(x: i64) -> (r: Result<i32>)
    ensures
        r == (if i32::MIN <= x <= i32::MAX {
            Ok(x as i32)
        } else {
            Err(Error::SerializeError(WriteReason::Overflow))
        }),
{
    if x >= i32::MIN as i64 && x <= i32::MAX as i64 {
        Ok(x as i32)
    } else {
        Err(Error::SerializeError(WriteReason::Overflow))
    }
}

// ---------------------------------------------------------------------------
// Cells
// ---------------------------------------------------------------------------

/// The text of a cell for a column of documents. A string that holds a document counts
/// as that document.
pub open spec fn document_text(j: JsonView) -> Seq<u8> {
    match j {
        JsonView::String(s) => match json_of_text(encode_utf8(s)) {
            Some(parsed) => json_text(parsed),
            None => json_text(j),
        },
        _ => json_text(j),
    }
}

/// The number of a cell in a column of numbers.
pub open spec fn cell_number(j: JsonView, t: TypeView, strict: bool) -> Ingested {
    let overflow = Err(Error::SerializeError(WriteReason::Overflow));
    match t {
        TypeView::UInt8 => match cell_u64(j, strict) {
            Err(e) => Err(e),
            Ok(x) => if x <= u8::MAX {
                Ok(ValueView::UInt8(x as u8))
            } else {
                overflow
            },
        },
        TypeView::UInt16 => match cell_u64(j, strict) {
            Err(e) => Err(e),
            Ok(x) => if x <= u16::MAX {
                Ok(ValueView::UInt16(x as u16))
            } else {
                overflow
            },
        },
        TypeView::UInt32 => match cell_u64(j, strict) {
            Err(e) => Err(e),
            Ok(x) => if x <= u32::MAX {
                Ok(ValueView::UInt32(x as u32))
            } else {
                overflow
            },
        },
        TypeView::UInt64 => match cell_u64(j, strict) {
            Err(e) => Err(e),
            Ok(x) => Ok(ValueView::UInt64(x)),
        },
        TypeView::Int8 => match cell_i64(j, strict) {
            Err(e) => Err(e),
            Ok(x) => if i8::MIN <= x <= i8::MAX {
                Ok(ValueView::Int8(x as i8))
            } else {
                overflow
            },
        },
        TypeView::Int16 => match cell_i64(j, strict) {
            Err(e) => Err(e),
            Ok(x) => if i16::MIN <= x <= i16::MAX {
                Ok(ValueView::Int16(x as i16))
            } else {
                overflow
            },
        },
        TypeView::Int32 => match cell_i64(j, strict) {
            Err(e) => Err(e),
            Ok(x) => if i32::MIN <= x <= i32::MAX {
                Ok(ValueView::Int32(x as i32))
            } else {
                overflow
            },
        },
        TypeView::Int64 => match cell_i64(j, strict) {
            Err(e) => Err(e),
            Ok(x) => Ok(ValueView::Int64(x)),
        },
        TypeView::Float32 => match cell_f64(j, strict) {
            Err(e) => Err(e),
            Ok(x) => Ok(ValueView::Float32(single_of_double(x) as u32)),
        },
        TypeView::Float64 => match cell_f64(j, strict) {
            Err(e) => Err(e),
            Ok(x) => Ok(ValueView::Float64(x)),
        },
        _ => Err(Error::SerializeError(WriteReason::UnsupportedMapping)),
    }
}

/// The value of a cell that is there.
pub open spec fn present_cell(j: JsonView, t: TypeView, strict: bool) -> Ingested
    decreases t,
{
    match t {
        TypeView::JSON { .. } => match j {
            JsonView::Null => Ok(ValueView::Null),
            JsonView::String(_) => Ok(ValueView::String(document_text(j))),
            _ => Ok(ValueView::Json(j)),
        },
        TypeView::Object => match j {
            JsonView::Null => Ok(ValueView::Null),
            _ => Ok(ValueView::Object(document_text(j))),
        },
        _ => if j is Null {
            Ok(
                if nullable(t) {
                    ValueView::Null
                } else {
                    default_of(t)
                },
            )
        } else {
            match t {
                TypeView::Nullable(inner) => present_cell(j, *inner, strict),
                TypeView::LowCardinality(inner) => present_cell(j, *inner, strict),
                TypeView::String => Ok(ValueView::String(string_cell(j))),
                TypeView::FixedSizedString(_) => Ok(ValueView::String(string_cell(j))),
                _ => cell_number(j, t, strict),
            }
        },
    }
}

/// The string of a cell: a string itself, or the text of anything else.
pub open spec fn string_cell(j: JsonView) -> Seq<u8> {
    match j {
        JsonView::String(s) => encode_utf8(s),
        _ => json_text(j),
    }
}

/// The value of a cell of a column, which may not be there.
pub open spec fn ingested(
    cell: Option<JsonView>,
    t: TypeView,
    strict: bool,
    on_missing_default: bool,
) -> Ingested {
    match cell {
        None => if nullable(t) {
            Ok(ValueView::Null)
        } else if on_missing_default {
            Ok(default_of(t))
        } else {
            Err(Error::SerializeError(WriteReason::MissingColumn))
        },
        Some(j) => present_cell(j, t, strict),
    }
}

fn make_document_text(v: &SerdeJson) -> (r: Vec<u8>)
    ensures
        r@ == document_text(json_view(*v)),
{
    match json_layer(v) {
        JsonLayer::Text(s) => match json_from_slice(s.as_str().as_bytes()) {
            Some(parsed) => json_to_vec(&parsed),
            None => json_to_vec(v),
        },
        _ => json_to_vec(v),
    }
}

fn make_string(v: &SerdeJson) -> (r: Value)
    ensures
        r@ == ValueView::String(string_cell(json_view(*v))),
{
    match json_layer(v) {
        JsonLayer::Text(s) => Value::string(s.as_str()),
        _ => Value::String(json_to_vec(v)),
    }
}

fn make_number(v: &SerdeJson, t: &Type, strict: bool) -> (r: Result<Value>)
    ensures
        crate::coerce::fits_as(r, cell_number(json_view(*v), t@, strict)),
{
    match t {
        Type::UInt8 => match to_u64(v, strict) {
            Err(e) => Err(e),
            Ok(x) => match u8_from_u64(x) {
                Ok(y) => Ok(Value::UInt8(y)),
                Err(e) => Err(e),
            },
        },
        Type::UInt16 => match to_u64(v, strict) {
            Err(e) => Err(e),
            Ok(x) => match u16_from_u64(x) {
                Ok(y) => Ok(Value::UInt16(y)),
                Err(e) => Err(e),
            },
        },
        Type::UInt32 => match to_u64(v, strict) {
            Err(e) => Err(e),
            Ok(x) => match u32_from_u64(x) {
                Ok(y) => Ok(Value::UInt32(y)),
                Err(e) => Err(e),
            },
        },
        Type::UInt64 => match to_u64(v, strict) {
            Err(e) => Err(e),
            Ok(x) => Ok(Value::UInt64(x)),
        },
        Type::Int8 => match to_i64(v, strict) {
            Err(e) => Err(e),
            Ok(x) => match i8_from_i64(x) {
                Ok(y) => Ok(Value::Int8(y)),
                Err(e) => Err(e),
            },
        },
        Type::Int16 => match to_i64(v, strict) {
            Err(e) => Err(e),
            Ok(x) => match i16_from_i64(x) {
                Ok(y) => Ok(Value::Int16(y)),
                Err(e) => Err(e),
            },
        },
        Type::Int32 => match to_i64(v, strict) {
            Err(e) => Err(e),
            Ok(x) => match i32_from_i64(x) {
                Ok(y) => Ok(Value::Int32(y)),
                Err(e) => Err(e),
            },
        },
        Type::Int64 => match to_i64(v, strict) {
            Err(e) => Err(e),
            Ok(x) => Ok(Value::Int64(x)),
        },
        Type::Float32 => match to_f64(v, strict) {
            Err(e) => Err(e),
            Ok(x) => Ok(Value::Float32(double_to_single(x))),
        },
        Type::Float64 => match to_f64(v, strict) {
            Err(e) => Err(e),
            Ok(x) => Ok(Value::Float64(x)),
        },
        _ => Err(Error::SerializeError(WriteReason::UnsupportedMapping)),
    }
}

fn make_cell(v: &SerdeJson, ty: &Type, strict: bool) -> (r: Result<Value>)
    ensures
        crate::coerce::fits_as(r, present_cell(json_view(*v), ty@, strict)),
    decreases ty,
{
    let layer = json_layer(v);
    match ty {
        Type::JSON { .. } => match layer {
            JsonLayer::Null => Ok(Value::Null),
            JsonLayer::Text(_) => Ok(Value::String(make_document_text(v))),
            _ => Ok(Value::Json(document(v))),
        },
        Type::Object => match layer {
            JsonLayer::Null => Ok(Value::Null),
            _ => Ok(Value::Object(make_document_text(v))),
        },
        _ => {
            if let JsonLayer::Null = layer {
                if ty.is_nullable() {
                    return Ok(Value::Null);
                }
                return Ok(ty.default_value());
            }
            assert(!(json_view(*v) is Null));
            match ty {
                Type::Nullable(inner) => make_cell(v, inner, strict),
                Type::LowCardinality(inner) => make_cell(v, inner, strict),
                Type::String | Type::FixedSizedString(_) => Ok(make_string(v)),
                _ => make_number(v, ty, strict),
            }
        },
    }
}

/// The value of a cell of a column, which may not be there.
pub fn cell_to_value(
    cell: Option<&SerdeJson>,
    ty: &Type,
    strict: bool,
    on_missing_default: bool,
) -> (r: Result<Value>)
    ensures
        crate::coerce::fits_as(
            r,
            ingested(
                match cell {
                    Some(v) => Some(json_view(*v)),
                    None => None,
                },
                ty@,
                strict,
                on_missing_default,
            ),
        ),
{
    match cell {
        None => if ty.is_nullable() {
            Ok(Value::Null)
        } else if on_missing_default {
            Ok(ty.default_value())
        } else {
            Err(Error::SerializeError(WriteReason::MissingColumn))
        },
        Some(v) => make_cell(v, ty, strict),
    }
}

} // verus!
