//! Errors of the library.
//!
//! An error names the stage that failed and the reason. Both are plain data, so
//! contracts state exactly which error comes back for which input.
use vstd::prelude::*;

use crate::text::{dec_text, push_dec};

verus! {

/// A type that only later servers take.
#[derive(Debug, Clone, Copy, PartialEq, Eq, Structural)]
pub enum ComplexType {
    Dynamic,
    Json,
}

/// Why a type name could not be read.
#[derive(Debug, Clone, Copy, PartialEq, Eq, Structural)]
pub enum TypeParseReason {
    EmptyIdentifier,
    UnknownType,
    NotParameterized,
    MalformedArguments,
    TrailingComma,
    EmptyArgument,
    MismatchedParentheses,
    TooManyArguments,
    ArgumentCount,
    BadScale,
    BadPrecision,
    InvalidScale,
    PrecisionTooLarge,
    EmptyFixedString,
    UnquotedTimezone,
    UnknownTimezone,
    EnumNotParenthesized,
    EnumExpectedQuote,
    EnumExpectedEquals,
    EnumInvalidValue,
    EnumUnexpectedEnd,
    EnumIncomplete,
    InvalidTupleElement,
    UnsupportedNested,
    EmptyVariant,
    InvalidMaxTypes,
    UnknownDynamicParameter,
    InvalidMaxDynamicPaths,
    InvalidMaxDynamicTypes,
}

/// Why bytes could not be turned into values.
#[derive(Debug, Clone, Copy, PartialEq, Eq, Structural)]
pub enum ReadReason {
    VarUIntOverflow,
    UnsupportedType,
    InvalidEnumIndex,
    InvalidUtf8,
    UnknownTypeName,
    UnsupportedVersion,
    StateNotSet,
    TooManyRows,
    InvalidOffset,
    EmptyPath,
    PathConflict,
    MissingPathValues,
    InvalidJson,
    RowsOutOfRange,
    NotAsJson,
    InvalidSharedValue,
    InvalidDictionary,
    KeyNotAString,
}

/// Why values could not be turned into bytes or into another form.
#[derive(Debug, Clone, Copy, PartialEq, Eq, Structural)]
pub enum WriteReason {
    UnsupportedValue,
    NotAByte,
    ExpectedVariant,
    TupleLength,
    StateNotSet,
    /// The type that the server is too old for, and its version.
    ServerTooOld(ComplexType, u64, u64),
    UnsupportedVersion,
    ExpectedJsonType,
    ExpectedJsonValue,
    InvalidUtf8,
    InvalidSkipPattern,
    MissingColumn,
    UnsupportedMapping,
    Coercion,
    Overflow,
    InvalidDateTime,
    NoMatchingVariant,
    InvalidJson,
}

/// What a value was expected to be.
#[derive(Debug, Clone, Copy, PartialEq, Eq, Structural)]
pub enum Expected {
    Integer,
    Array,
    Tuple,
    Variant,
}

/// An error of the library.
#[derive(Debug, Clone, Copy, PartialEq, Eq, Structural)]
pub enum Error {
    /// A type name is malformed.
    TypeParseError(TypeParseReason),
    /// Bytes do not describe what they should.
    DeserializeError(ReadReason),
    /// Values cannot be written as asked.
    SerializeError(WriteReason),
    /// A type has no binary encoding, or a value does not fit its type.
    Encode,
    /// A type byte is not known.
    Decode,
    /// A value is not of the shape that the protocol asks for.
    Protocol(Expected),
    /// The input ended too early.
    UnexpectedEof,
}

/// Results of the library.
pub type Result<T> = core::result::Result<T, Error>;

/// The sentence for each error.
pub open spec fn message(e: Error) -> Seq<char> {
    match e {
        Error::TypeParseError(reason) => match reason {
            TypeParseReason::EmptyIdentifier => "type parse error: invalid empty identifier for type"@,
            TypeParseReason::UnknownType => "type parse error: invalid type name"@,
            TypeParseReason::NotParameterized => "type parse error: invalid type with arguments"@,
            TypeParseReason::MalformedArguments => "type parse error: malformed arguments to type"@,
            TypeParseReason::TrailingComma => "type parse error: trailing comma in argument list"@,
            TypeParseReason::EmptyArgument => "type parse error: empty argument in list"@,
            TypeParseReason::MismatchedParentheses => "type parse error: mismatched parentheses"@,
            TypeParseReason::TooManyArguments => "type parse error: too many arguments"@,
            TypeParseReason::ArgumentCount => "type parse error: wrong number of arguments"@,
            TypeParseReason::BadScale => "type parse error: couldn't parse scale"@,
            TypeParseReason::BadPrecision => "type parse error: could not parse precision"@,
            TypeParseReason::InvalidScale => "type parse error: invalid scale"@,
            TypeParseReason::PrecisionTooLarge => "type parse error: bad decimal spec, cannot exceed 76 precision"@,
            TypeParseReason::EmptyFixedString => "type parse error: FixedString size must be greater than 0"@,
            TypeParseReason::UnquotedTimezone => "type parse error: timezone must be quoted"@,
            TypeParseReason::UnknownTimezone => "type parse error: failed to parse timezone"@,
            TypeParseReason::EnumNotParenthesized => "type parse error: Enum arguments must be enclosed in parentheses"@,
            TypeParseReason::EnumExpectedQuote => "type parse error: expected single quote at start of variant name"@,
            TypeParseReason::EnumExpectedEquals => "type parse error: expected '=' after variant name"@,
            TypeParseReason::EnumInvalidValue => "type parse error: invalid enum value"@,
            TypeParseReason::EnumUnexpectedEnd => "type parse error: expected enum variant, found end of input"@,
            TypeParseReason::EnumIncomplete => "type parse error: incomplete enum variant at end of input"@,
            TypeParseReason::InvalidTupleElement => "type parse error: invalid tuple element"@,
            TypeParseReason::UnsupportedNested => "type parse error: unsupported Nested type"@,
            TypeParseReason::EmptyVariant => "type parse error: Variant expects at least one type argument"@,
            TypeParseReason::InvalidMaxTypes => "type parse error: invalid max_types value"@,
            TypeParseReason::UnknownDynamicParameter => "type parse error: unknown Dynamic parameter, valid parameter is: max_types"@,
            TypeParseReason::InvalidMaxDynamicPaths => "type parse error: invalid max_dynamic_paths value"@,
            TypeParseReason::InvalidMaxDynamicTypes => "type parse error: invalid max_dynamic_types value"@,
        },
        Error::DeserializeError(reason) => match reason {
            ReadReason::VarUIntOverflow => "deserialize error: VarUInt overflow"@,
            ReadReason::UnsupportedType => "deserialize error: type is not supported here"@,
            ReadReason::InvalidEnumIndex => "deserialize error: invalid enum index"@,
            ReadReason::InvalidUtf8 => "deserialize error: invalid UTF-8"@,
            ReadReason::UnknownTypeName => "deserialize error: unknown type"@,
            ReadReason::UnsupportedVersion => "deserialize error: unsupported serialization version"@,
            ReadReason::StateNotSet => "deserialize error: metadata not set in state"@,
            ReadReason::TooManyRows => "deserialize error: row count too large (likely corrupt data)"@,
            ReadReason::InvalidOffset => "deserialize error: invalid offset for discriminator"@,
            ReadReason::EmptyPath => "deserialize error: empty path"@,
            ReadReason::PathConflict => "deserialize error: path conflict, not an object"@,
            ReadReason::MissingPathValues => "deserialize error: path values missing"@,
            ReadReason::InvalidJson => "deserialize error: invalid JSON"@,
            ReadReason::RowsOutOfRange => "deserialize error: offsets do not ascend"@,
            ReadReason::NotAsJson => "deserialize error: value has no JSON form"@,
            ReadReason::InvalidSharedValue => "deserialize error: failed to deserialize shared data value"@,
            ReadReason::InvalidDictionary => "deserialize error: LowCardinality: invalid dictionary"@,
            ReadReason::KeyNotAString => "deserialize error: key must be a string"@,
        },
        Error::SerializeError(reason) => match reason {
            WriteReason::UnsupportedValue => "serialize error: value cannot be written as this type"@,
            WriteReason::NotAByte => "serialize error: string serializer called with non-byte value"@,
            WriteReason::ExpectedVariant => "serialize error: expected Variant value"@,
            WriteReason::TupleLength => "serialize error: tuple has more fields than its type"@,
            WriteReason::StateNotSet => "serialize error: serialization state not found, values must be analyzed first"@,
            WriteReason::ServerTooOld(what, major, minor) => (match what {
                ComplexType::Dynamic => "serialize error: Dynamic type"@,
                ComplexType::Json => "serialize error: JSON V3"@,
            }) + " requires ClickHouse server version >= 25.6, got "@ + dec_text(major as nat)
                + "."@ + dec_text(minor as nat),
            WriteReason::UnsupportedVersion => "serialize error: unsupported version for write"@,
            WriteReason::ExpectedJsonType => "serialize error: expected JSON type"@,
            WriteReason::ExpectedJsonValue => "serialize error: JSON serialization expects Object or String"@,
            WriteReason::InvalidUtf8 => "serialize error: invalid UTF-8 in JSON string"@,
            WriteReason::InvalidSkipPattern => "serialize error: invalid skip_path pattern"@,
            WriteReason::MissingColumn => "serialize error: missing non-nullable column"@,
            WriteReason::UnsupportedMapping => "serialize error: unsupported type mapping"@,
            WriteReason::Coercion => "serialize error: cannot coerce value"@,
            WriteReason::Overflow => "serialize error: value overflows its type"@,
            WriteReason::InvalidDateTime => "serialize error: invalid date or time"@,
            WriteReason::NoMatchingVariant => "serialize error: Cannot find matching variant type for the value"@,
            WriteReason::InvalidJson => "serialize error: invalid JSON"@,
        },
        Error::Encode => "encode error: unsupported type or value for binary encoding"@,
        Error::Decode => "decode error: unknown type byte"@,
        Error::Protocol(expected) => match expected {
            Expected::Integer => "protocol error: expected integer"@,
            Expected::Array => "protocol error: expected array"@,
            Expected::Tuple => "protocol error: expected tuple"@,
            Expected::Variant => "protocol error: expected variant"@,
        },
        Error::UnexpectedEof => "io error: unexpected end of input"@,
    }
}

impl Error {
    /// The error as a sentence.
    pub fn to_string(&self) -> (r: String)
        ensures
            r@ == message(*self),
    {
        let text: &str = match self {
            Error::TypeParseError(reason) => match reason {
                TypeParseReason::EmptyIdentifier => "type parse error: invalid empty identifier for type",
                TypeParseReason::UnknownType => "type parse error: invalid type name",
                TypeParseReason::NotParameterized => "type parse error: invalid type with arguments",
                TypeParseReason::MalformedArguments => "type parse error: malformed arguments to type",
                TypeParseReason::TrailingComma => "type parse error: trailing comma in argument list",
                TypeParseReason::EmptyArgument => "type parse error: empty argument in list",
                TypeParseReason::MismatchedParentheses => "type parse error: mismatched parentheses",
                TypeParseReason::TooManyArguments => "type parse error: too many arguments",
                TypeParseReason::ArgumentCount => "type parse error: wrong number of arguments",
                TypeParseReason::BadScale => "type parse error: couldn't parse scale",
                TypeParseReason::BadPrecision => "type parse error: could not parse precision",
                TypeParseReason::InvalidScale => "type parse error: invalid scale",
                TypeParseReason::PrecisionTooLarge => "type parse error: bad decimal spec, cannot exceed 76 precision",
                TypeParseReason::EmptyFixedString => "type parse error: FixedString size must be greater than 0",
                TypeParseReason::UnquotedTimezone => "type parse error: timezone must be quoted",
                TypeParseReason::UnknownTimezone => "type parse error: failed to parse timezone",
                TypeParseReason::EnumNotParenthesized => "type parse error: Enum arguments must be enclosed in parentheses",
                TypeParseReason::EnumExpectedQuote => "type parse error: expected single quote at start of variant name",
                TypeParseReason::EnumExpectedEquals => "type parse error: expected '=' after variant name",
                TypeParseReason::EnumInvalidValue => "type parse error: invalid enum value",
                TypeParseReason::EnumUnexpectedEnd => "type parse error: expected enum variant, found end of input",
                TypeParseReason::EnumIncomplete => "type parse error: incomplete enum variant at end of input",
                TypeParseReason::InvalidTupleElement => "type parse error: invalid tuple element",
                TypeParseReason::UnsupportedNested => "type parse error: unsupported Nested type",
                TypeParseReason::EmptyVariant => "type parse error: Variant expects at least one type argument",
                TypeParseReason::InvalidMaxTypes => "type parse error: invalid max_types value",
                TypeParseReason::UnknownDynamicParameter => "type parse error: unknown Dynamic parameter, valid parameter is: max_types",
                TypeParseReason::InvalidMaxDynamicPaths => "type parse error: invalid max_dynamic_paths value",
                TypeParseReason::InvalidMaxDynamicTypes => "type parse error: invalid max_dynamic_types value",
            },
            Error::DeserializeError(reason) => match reason {
                ReadReason::VarUIntOverflow => "deserialize error: VarUInt overflow",
                ReadReason::UnsupportedType => "deserialize error: type is not supported here",
                ReadReason::InvalidEnumIndex => "deserialize error: invalid enum index",
                ReadReason::InvalidUtf8 => "deserialize error: invalid UTF-8",
                ReadReason::UnknownTypeName => "deserialize error: unknown type",
                ReadReason::UnsupportedVersion => "deserialize error: unsupported serialization version",
                ReadReason::StateNotSet => "deserialize error: metadata not set in state",
                ReadReason::TooManyRows => "deserialize error: row count too large (likely corrupt data)",
                ReadReason::InvalidOffset => "deserialize error: invalid offset for discriminator",
                ReadReason::EmptyPath => "deserialize error: empty path",
                ReadReason::PathConflict => "deserialize error: path conflict, not an object",
                ReadReason::MissingPathValues => "deserialize error: path values missing",
                ReadReason::InvalidJson => "deserialize error: invalid JSON",
                ReadReason::RowsOutOfRange => "deserialize error: offsets do not ascend",
                ReadReason::NotAsJson => "deserialize error: value has no JSON form",
                ReadReason::InvalidSharedValue => "deserialize error: failed to deserialize shared data value",
                ReadReason::InvalidDictionary => "deserialize error: LowCardinality: invalid dictionary",
                ReadReason::KeyNotAString => "deserialize error: key must be a string",
            },
            Error::SerializeError(reason) => match reason {
                WriteReason::UnsupportedValue => "serialize error: value cannot be written as this type",
                WriteReason::NotAByte => "serialize error: string serializer called with non-byte value",
                WriteReason::ExpectedVariant => "serialize error: expected Variant value",
                WriteReason::TupleLength => "serialize error: tuple has more fields than its type",
                WriteReason::StateNotSet => "serialize error: serialization state not found, values must be analyzed first",
                WriteReason::ServerTooOld(what, major, minor) => {
                    let mut out: String = (match what {
                        ComplexType::Dynamic => "serialize error: Dynamic type",
                        ComplexType::Json => "serialize error: JSON V3",
                    }).to_string();
                    out.append(" requires ClickHouse server version >= 25.6, got ");
                    push_dec(&mut out, *major as u128);
                    out.append(".");
                    push_dec(&mut out, *minor as u128);
                    return out;
                },
                WriteReason::UnsupportedVersion => "serialize error: unsupported version for write",
                WriteReason::ExpectedJsonType => "serialize error: expected JSON type",
                WriteReason::ExpectedJsonValue => "serialize error: JSON serialization expects Object or String",
                WriteReason::InvalidUtf8 => "serialize error: invalid UTF-8 in JSON string",
                WriteReason::InvalidSkipPattern => "serialize error: invalid skip_path pattern",
                WriteReason::MissingColumn => "serialize error: missing non-nullable column",
                WriteReason::UnsupportedMapping => "serialize error: unsupported type mapping",
                WriteReason::Coercion => "serialize error: cannot coerce value",
                WriteReason::Overflow => "serialize error: value overflows its type",
                WriteReason::InvalidDateTime => "serialize error: invalid date or time",
                WriteReason::NoMatchingVariant => "serialize error: Cannot find matching variant type for the value",
                WriteReason::InvalidJson => "serialize error: invalid JSON",
            },
            Error::Encode => "encode error: unsupported type or value for binary encoding",
            Error::Decode => "decode error: unknown type byte",
            Error::Protocol(expected) => match expected {
                Expected::Integer => "protocol error: expected integer",
                Expected::Array => "protocol error: expected array",
                Expected::Tuple => "protocol error: expected tuple",
                Expected::Variant => "protocol error: expected variant",
            },
            Error::UnexpectedEof => "io error: unexpected end of input",
        };
        text.to_string()
    }
}

} // verus!
