//! What cells of JSON rows become.
use vstd::prelude::*;
use vstd::utf8::encode_utf8;

use crate::error::{Error, WriteReason};
use crate::ingest::ingested;
use crate::json_text::{json_of_text, json_text};
use crate::json_value::{JsonNumber, JsonView};
use crate::text::{dec_text, int_text, law_int_text_reads_back, law_uint_text_reads_back};
use crate::types::TypeView;
use crate::values::ValueView;

verus! {

/// A cell that is there and is not null becomes in a column of values that may be null, or of
/// a dictionary, what it becomes in a column of the values themselves.
pub proof fn law_cell_that_may_be_null(j: JsonView, t: TypeView, strict: bool, filled: bool)
    requires
        !(j is Null),
    ensures
        ingested(Some(j), TypeView::Nullable(Box::new(t)), strict, filled) == ingested(
            Some(j),
            t,
            strict,
            filled,
        ),
        ingested(Some(j), TypeView::LowCardinality(Box::new(t)), strict, filled) == ingested(
            Some(j),
            t,
            strict,
            filled,
        ),
{
    assert(ingested(Some(j), TypeView::Nullable(Box::new(t)), strict, filled)
        == crate::ingest::present_cell(j, TypeView::Nullable(Box::new(t)), strict));
}

/// Whether a column holds numbers or strings.
pub open spec fn holds_scalars(t: TypeView) -> bool {
    t is UInt8 || t is UInt16 || t is UInt32 || t is UInt64 || t is Int8 || t is Int16 || t is Int32
        || t is Int64 || t is Float32 || t is Float64 || t is String || t is FixedSizedString
}

/// What is not null does not become null in a column of numbers or of strings.
pub proof fn law_values_do_not_get_lost(j: JsonView, t: TypeView, strict: bool, filled: bool)
    requires
        !(j is Null),
        holds_scalars(t),
    ensures
        ingested(Some(j), t, strict, filled) matches Ok(v) ==> !(v is Null),
        ingested(Some(j), TypeView::Nullable(Box::new(t)), strict, filled) matches Ok(v) ==> !(
        v is Null),
{
    law_cell_that_may_be_null(j, t, strict, filled);
}

/// The number that a value holds.
pub open spec fn number_in(v: ValueView) -> Option<int> {
    match v {
        ValueView::UInt8(x) => Some(x as int),
        ValueView::UInt16(x) => Some(x as int),
        ValueView::UInt32(x) => Some(x as int),
        ValueView::UInt64(x) => Some(x as int),
        ValueView::Int8(x) => Some(x as int),
        ValueView::Int16(x) => Some(x as int),
        ValueView::Int32(x) => Some(x as int),
        ValueView::Int64(x) => Some(x as int),
        _ => None,
    }
}

/// The least and the greatest number of a type.
pub open spec fn bounds_of(t: TypeView) -> (int, int) {
    match t {
        TypeView::UInt8 => (0, 0xFF),
        TypeView::UInt16 => (0, 0xFFFF),
        TypeView::UInt32 => (0, 0xFFFF_FFFF),
        TypeView::UInt64 => (0, 0xFFFF_FFFF_FFFF_FFFF),
        TypeView::Int8 => (-0x80, 0x7F),
        TypeView::Int16 => (-0x8000, 0x7FFF),
        TypeView::Int32 => (-0x8000_0000, 0x7FFF_FFFF),
        TypeView::Int64 => (-0x8000_0000_0000_0000, 0x7FFF_FFFF_FFFF_FFFF),
        _ => (1, 0),
    }
}

/// Whether a value is one of a type of numbers.
pub open spec fn is_of(v: ValueView, t: TypeView) -> bool {
    match t {
        TypeView::UInt8 => v is UInt8,
        TypeView::UInt16 => v is UInt16,
        TypeView::UInt32 => v is UInt32,
        TypeView::UInt64 => v is UInt64,
        TypeView::Int8 => v is Int8,
        TypeView::Int16 => v is Int16,
        TypeView::Int32 => v is Int32,
        TypeView::Int64 => v is Int64,
        TypeView::Float32 => v is Float32,
        TypeView::Float64 => v is Float64,
        TypeView::String | TypeView::FixedSizedString(_) => v is String,
        _ => false,
    }
}

/// An integer in the range of a type of integers becomes that integer in the type; one beyond
/// it is refused, where no conversion is allowed.
pub proof fn law_integers_keep_their_values(
    n: JsonNumber,
    t: TypeView,
    strict: bool,
    filled: bool,
)
    requires
        n is PosInt || n is NegInt,
        bounds_of(t).0 < bounds_of(t).1,
    ensures
        ({
            let x = match n {
                JsonNumber::PosInt(x) => x as int,
                JsonNumber::NegInt(x) => x as int,
                _ => 0,
            };
            let (least, greatest) = bounds_of(t);
            let r = ingested(Some(JsonView::Number(n)), t, strict, filled);
            &&& (n is NegInt ==> x < 0) && least <= x <= greatest ==> (r matches Ok(v) && is_of(
                v,
                t,
            ) && number_in(v) == Some(x))
            &&& strict && (n is NegInt ==> x < 0) && !(least <= x <= greatest) ==> r is Err
        }),
{
}

/// Where conversions are allowed, an integer that has not the sign of the type is taken around at
/// 64 bits. One that is in the range of no narrower type is refused there all the same.
pub proof fn law_integers_beyond_the_range(x: i64, y: u64, t: TypeView, strict: bool, filled: bool)
    requires
        x < 0,
        bounds_of(t).0 < bounds_of(t).1,
    ensures
        ({
            let low = JsonView::Number(JsonNumber::NegInt(x));
            let high = JsonView::Number(JsonNumber::PosInt(y));
            let (least, greatest) = bounds_of(t);
            &&& ingested(Some(low), TypeView::UInt64, false, filled) == Ok::<_, Error>(
                ValueView::UInt64((x + 0x1_0000_0000_0000_0000) as u64),
            )
            &&& y > 0x7FFF_FFFF_FFFF_FFFF ==> ingested(
                Some(high),
                TypeView::Int64,
                false,
                filled,
            ) == Ok::<_, Error>(ValueView::Int64((y - 0x1_0000_0000_0000_0000) as i64))
            &&& greatest < y <= 0x7FFF_FFFF_FFFF_FFFF ==> ingested(
                Some(high),
                t,
                strict,
                filled,
            ) is Err
            &&& x < least && t != TypeView::UInt64 ==> ingested(Some(low), t, strict, filled) is Err
        }),
{
    assert((x as u64) as i128 == x as i128 + 0x1_0000_0000_0000_0000i128) by (bit_vector)
        requires
            x < 0,
    ;
    assert(y > 0x7FFF_FFFF_FFFF_FFFF ==> (y as i64) as i128 == y as i128
        - 0x1_0000_0000_0000_0000i128) by (bit_vector);
}

/// A value in a column of numbers or strings is one of the type of the column.
pub proof fn law_cells_have_the_type_of_the_column(
    j: JsonView,
    t: TypeView,
    strict: bool,
    filled: bool,
)
    requires
        holds_scalars(t),
    ensures
        ingested(Some(j), t, strict, filled) matches Ok(v) ==> is_of(v, t),
        ingested(None, t, strict, filled) matches Ok(v) ==> is_of(v, t),
{
}

/// A string becomes its bytes in a column of strings, and anything else its text.
pub proof fn law_strings_keep_their_bytes(
    s: Seq<char>,
    j: JsonView,
    n: usize,
    strict: bool,
    filled: bool,
)
    ensures
        ingested(Some(JsonView::String(s)), TypeView::String, strict, filled) == Ok::<_, Error>(
            ValueView::String(encode_utf8(s)),
        ),
        ingested(
            Some(JsonView::String(s)),
            TypeView::FixedSizedString(n),
            strict,
            filled,
        ) == Ok::<_, Error>(ValueView::String(encode_utf8(s))),
        !(j is Null) && !(j is String) ==> ingested(
            Some(j),
            TypeView::String,
            strict,
            filled,
        ) == Ok::<_, Error>(ValueView::String(json_text(j))),
{
}

/// Where conversions are allowed, the text of an integer becomes the integer; where they are
/// not, no text becomes a number.
pub proof fn law_texts_of_integers(x: u64, y: i64, s: Seq<char>, t: TypeView, filled: bool)
    requires
        bounds_of(t).0 < bounds_of(t).1 || t is Float32 || t is Float64,
    ensures
        ingested(
            Some(JsonView::String(dec_text(x as nat))),
            TypeView::UInt64,
            false,
            filled,
        ) == Ok::<_, Error>(ValueView::UInt64(x)),
        ingested(
            Some(JsonView::String(int_text(y as int))),
            TypeView::Int64,
            false,
            filled,
        ) == Ok::<_, Error>(ValueView::Int64(y)),
        ingested(Some(JsonView::String(s)), t, true, filled) == Err::<ValueView, Error>(
            Error::SerializeError(WriteReason::Coercion),
        ),
{
    law_uint_text_reads_back(x as nat, u64::MAX as nat);
    law_int_text_reads_back(y as int, i64::MIN as int, i64::MAX as int);
}

/// Truth values, arrays and objects are no numbers.
pub proof fn law_what_is_no_number(j: JsonView, t: TypeView, strict: bool, filled: bool)
    requires
        j is Bool || j is Array || j is Object,
        bounds_of(t).0 < bounds_of(t).1 || t is Float32 || t is Float64,
    ensures
        ingested(Some(j), t, strict, filled) is Err,
{
}

/// A number with a fraction keeps its bits in a column of double precision, and is refused in
/// one of integers where no conversion is allowed.
pub proof fn law_fractions(x: u64, t: TypeView, strict: bool, filled: bool)
    requires
        bounds_of(t).0 < bounds_of(t).1,
    ensures
        ingested(
            Some(JsonView::Number(JsonNumber::Float(x))),
            TypeView::Float64,
            strict,
            filled,
        ) == Ok::<_, Error>(ValueView::Float64(x)),
        ingested(Some(JsonView::Number(JsonNumber::Float(x))), t, true, filled) is Err,
{
}

/// Null, and a cell that is not there, become null where the column may hold it. Elsewhere null
/// becomes what the type starts with, and so does a cell that is not there if that is asked for.
pub proof fn law_cells_that_are_null_or_not_there(t: TypeView, strict: bool, filled: bool)
    ensures
        ({
            let may_be_null = TypeView::Nullable(Box::new(t));
            &&& ingested(Some(JsonView::Null), may_be_null, strict, filled) == Ok::<_, Error>(
                ValueView::Null,
            )
            &&& ingested(None, may_be_null, strict, filled) == Ok::<_, Error>(ValueView::Null)
        }),
        bounds_of(t).0 < bounds_of(t).1 ==> {
            &&& ingested(Some(JsonView::Null), t, strict, filled) matches Ok(v) && number_in(v)
                == Some(0int)
            &&& filled ==> (ingested(None, t, strict, filled) matches Ok(v) && number_in(v) == Some(
                0int,
            ))
        },
        t is String ==> ingested(Some(JsonView::Null), t, strict, filled) == Ok::<_, Error>(
            ValueView::String(Seq::empty()),
        ),
        !(t is Nullable) && !filled ==> ingested(None, t, strict, filled) == Err::<
            ValueView,
            Error,
        >(Error::SerializeError(WriteReason::MissingColumn)),
{
}

/// A document in a column of documents is kept, unless it is a string: that counts as the
/// document in it, if there is one, and is handed on as text.
pub proof fn law_documents_in_cells(j: JsonView, s: Seq<char>, t: TypeView, strict: bool, filled: bool)
    requires
        t is JSON,
    ensures
        !(j is String) && !(j is Null) ==> ingested(Some(j), t, strict, filled) == Ok::<_, Error>(
            ValueView::Json(j),
        ),
        ingested(Some(JsonView::Null), t, strict, filled) == Ok::<_, Error>(ValueView::Null),
        json_of_text(encode_utf8(s)) matches Some(d) ==> ingested(
            Some(JsonView::String(s)),
            t,
            strict,
            filled,
        ) == Ok::<_, Error>(ValueView::String(json_text(d))),
        json_of_text(encode_utf8(s)) matches Some(d) ==> ingested(
            Some(JsonView::String(s)),
            TypeView::Object,
            strict,
            filled,
        ) == Ok::<_, Error>(ValueView::Object(json_text(d))),
        !(j is String) && !(j is Null) ==> ingested(
            Some(j),
            TypeView::Object,
            strict,
            filled,
        ) == Ok::<_, Error>(ValueView::Object(json_text(j))),
{
}

/// Columns of other types take no cells.
pub proof fn law_columns_that_take_no_cells(j: JsonView, t: TypeView, strict: bool, filled: bool)
    requires
        !(j is Null),
        t is Array || t is Tuple || t is MapOf || t is Uuid || t is Date || t is DateTime
            || t is Variant || t is Dynamic,
    ensures
        ingested(Some(j), t, strict, filled) == Err::<ValueView, Error>(
            Error::SerializeError(WriteReason::UnsupportedMapping),
        ),
{
}

} // verus!
