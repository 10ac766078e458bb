//! What the messages of errors begin with.
use vstd::prelude::*;

use crate::error::{message, ComplexType, Error, ReadReason, TypeParseReason, WriteReason};
use crate::text::dec_text;

verus! {

/// Whether a text begins with another.
pub open spec fn begins(s: Seq<char>, start: Seq<char>) -> bool {
    s.len() > start.len() && s.take(start.len() as int) == start
}

/// Errors in the names of types say so.
#[verifier::spinoff_prover]
#[verifier::rlimit(60)]
pub proof fn law_messages_on_type_names(reason: TypeParseReason)
    ensures
        begins(message(Error::TypeParseError(reason)), "type parse error: "@),
{
    let m = message(Error::TypeParseError(reason));
    reveal_strlit("type parse error: ");
    match reason {
        TypeParseReason::EmptyIdentifier => {
            reveal_strlit("type parse error: invalid empty identifier for type");
        },
        TypeParseReason::UnknownType => {
            reveal_strlit("type parse error: invalid type name");
        },
        TypeParseReason::NotParameterized => {
            reveal_strlit("type parse error: invalid type with arguments");
        },
        TypeParseReason::MalformedArguments => {
            reveal_strlit("type parse error: malformed arguments to type");
        },
        TypeParseReason::TrailingComma => {
            reveal_strlit("type parse error: trailing comma in argument list");
        },
        TypeParseReason::EmptyArgument => {
            reveal_strlit("type parse error: empty argument in list");
        },
        TypeParseReason::MismatchedParentheses => {
            reveal_strlit("type parse error: mismatched parentheses");
        },
        TypeParseReason::TooManyArguments => {
            reveal_strlit("type parse error: too many arguments");
        },
        TypeParseReason::ArgumentCount => {
            reveal_strlit("type parse error: wrong number of arguments");
        },
        TypeParseReason::BadScale => {
            reveal_strlit("type parse error: couldn't parse scale");
        },
        TypeParseReason::BadPrecision => {
            reveal_strlit("type parse error: could not parse precision");
        },
        TypeParseReason::InvalidScale => {
            reveal_strlit("type parse error: invalid scale");
        },
        TypeParseReason::PrecisionTooLarge => {
            reveal_strlit("type parse error: bad decimal spec, cannot exceed 76 precision");
        },
        TypeParseReason::EmptyFixedString => {
            reveal_strlit("type parse error: FixedString size must be greater than 0");
        },
        TypeParseReason::UnquotedTimezone => {
            reveal_strlit("type parse error: timezone must be quoted");
        },
        TypeParseReason::UnknownTimezone => {
            reveal_strlit("type parse error: failed to parse timezone");
        },
        TypeParseReason::EnumNotParenthesized => {
            reveal_strlit("type parse error: Enum arguments must be enclosed in parentheses");
        },
        TypeParseReason::EnumExpectedQuote => {
            reveal_strlit("type parse error: expected single quote at start of variant name");
        },
        TypeParseReason::EnumExpectedEquals => {
            reveal_strlit("type parse error: expected '=' after variant name");
        },
        TypeParseReason::EnumInvalidValue => {
            reveal_strlit("type parse error: invalid enum value");
        },
        TypeParseReason::EnumUnexpectedEnd => {
            reveal_strlit("type parse error: expected enum variant, found end of input");
        },
        TypeParseReason::EnumIncomplete => {
            reveal_strlit("type parse error: incomplete enum variant at end of input");
        },
        TypeParseReason::InvalidTupleElement => {
            reveal_strlit("type parse error: invalid tuple element");
        },
        TypeParseReason::UnsupportedNested => {
            reveal_strlit("type parse error: unsupported Nested type");
        },
        TypeParseReason::EmptyVariant => {
            reveal_strlit("type parse error: Variant expects at least one type argument");
        },
        TypeParseReason::InvalidMaxTypes => {
            reveal_strlit("type parse error: invalid max_types value");
        },
        TypeParseReason::UnknownDynamicParameter => {
            reveal_strlit("type parse error: unknown Dynamic parameter, valid parameter is: max_types");
        },
        TypeParseReason::InvalidMaxDynamicPaths => {
            reveal_strlit("type parse error: invalid max_dynamic_paths value");
        },
        TypeParseReason::InvalidMaxDynamicTypes => {
            reveal_strlit("type parse error: invalid max_dynamic_types value");
        },
    }
    assert(m.take(18) =~= "type parse error: "@);
}

/// Errors in what was read say so.
#[verifier::spinoff_prover]
#[verifier::rlimit(60)]
pub proof fn law_messages_on_reading(reason: ReadReason)
    ensures
        begins(message(Error::DeserializeError(reason)), "deserialize error: "@),
{
    let m = message(Error::DeserializeError(reason));
    reveal_strlit("deserialize error: ");
    match reason {
        ReadReason::VarUIntOverflow => {
            reveal_strlit("deserialize error: VarUInt overflow");
        },
        ReadReason::UnsupportedType => {
            reveal_strlit("deserialize error: type is not supported here");
        },
        ReadReason::InvalidEnumIndex => {
            reveal_strlit("deserialize error: invalid enum index");
        },
        ReadReason::InvalidUtf8 => {
            reveal_strlit("deserialize error: invalid UTF-8");
        },
        ReadReason::UnknownTypeName => {
            reveal_strlit("deserialize error: unknown type");
        },
        ReadReason::UnsupportedVersion => {
            reveal_strlit("deserialize error: unsupported serialization version");
        },
        ReadReason::StateNotSet => {
            reveal_strlit("deserialize error: metadata not set in state");
        },
        ReadReason::TooManyRows => {
            reveal_strlit("deserialize error: row count too large (likely corrupt data)");
        },
        ReadReason::InvalidOffset => {
            reveal_strlit("deserialize error: invalid offset for discriminator");
        },
        ReadReason::EmptyPath => {
            reveal_strlit("deserialize error: empty path");
        },
        ReadReason::PathConflict => {
            reveal_strlit("deserialize error: path conflict, not an object");
        },
        ReadReason::MissingPathValues => {
            reveal_strlit("deserialize error: path values missing");
        },
        ReadReason::InvalidJson => {
            reveal_strlit("deserialize error: invalid JSON");
        },
        ReadReason::RowsOutOfRange => {
            reveal_strlit("deserialize error: offsets do not ascend");
        },
        ReadReason::NotAsJson => {
            reveal_strlit("deserialize error: value has no JSON form");
        },
        ReadReason::InvalidSharedValue => {
            reveal_strlit("deserialize error: failed to deserialize shared data value");
        },
        ReadReason::InvalidDictionary => {
            reveal_strlit("deserialize error: LowCardinality: invalid dictionary");
        },
        ReadReason::KeyNotAString => {
            reveal_strlit("deserialize error: key must be a string");
        },
    }
    assert(m.take(19) =~= "deserialize error: "@);
}

/// Errors in what was to be written say so.
#[verifier::spinoff_prover]
#[verifier::rlimit(60)]
pub proof fn law_messages_on_writing(reason: WriteReason)
    ensures
        begins(message(Error::SerializeError(reason)), "serialize error: "@),
{
    let m = message(Error::SerializeError(reason));
    reveal_strlit("serialize error: ");
    match reason {
        WriteReason::UnsupportedValue => {
            reveal_strlit("serialize error: value cannot be written as this type");
        },
        WriteReason::NotAByte => {
            reveal_strlit("serialize error: string serializer called with non-byte value");
        },
        WriteReason::ExpectedVariant => {
            reveal_strlit("serialize error: expected Variant value");
        },
        WriteReason::TupleLength => {
            reveal_strlit("serialize error: tuple has more fields than its type");
        },
        WriteReason::StateNotSet => {
            reveal_strlit("serialize error: serialization state not found, values must be analyzed first");
        },
        WriteReason::UnsupportedVersion => {
            reveal_strlit("serialize error: unsupported version for write");
        },
        WriteReason::ExpectedJsonType => {
            reveal_strlit("serialize error: expected JSON type");
        },
        WriteReason::ExpectedJsonValue => {
            reveal_strlit("serialize error: JSON serialization expects Object or String");
        },
        WriteReason::InvalidUtf8 => {
            reveal_strlit("serialize error: invalid UTF-8 in JSON string");
        },
        WriteReason::InvalidSkipPattern => {
            reveal_strlit("serialize error: invalid skip_path pattern");
        },
        WriteReason::MissingColumn => {
            reveal_strlit("serialize error: missing non-nullable column");
        },
        WriteReason::UnsupportedMapping => {
            reveal_strlit("serialize error: unsupported type mapping");
        },
        WriteReason::Coercion => {
            reveal_strlit("serialize error: cannot coerce value");
        },
        WriteReason::Overflow => {
            reveal_strlit("serialize error: value overflows its type");
        },
        WriteReason::InvalidDateTime => {
            reveal_strlit("serialize error: invalid date or time");
        },
        WriteReason::NoMatchingVariant => {
            reveal_strlit("serialize error: Cannot find matching variant type for the value");
        },
        WriteReason::InvalidJson => {
            reveal_strlit("serialize error: invalid JSON");
        },
        WriteReason::ServerTooOld(what, _, _) => {
            match what {
                ComplexType::Dynamic => {
                    reveal_strlit("serialize error: Dynamic type");
                },
                ComplexType::Json => {
                    reveal_strlit("serialize error: JSON V3");
                },
            }
        },
    }
    assert(m.take(17) =~= "serialize error: "@);
}

/// A server that is too old is told with its own version at the end.
pub proof fn law_message_on_old_servers(what: ComplexType, major: u64, minor: u64)
    ensures
        ({
            let m = message(Error::SerializeError(WriteReason::ServerTooOld(what, major, minor)));
            let told = dec_text(major as nat) + seq!['.'] + dec_text(minor as nat);
            m.len() > told.len() && m.skip(m.len() - told.len()) == told
        }),
{
    let m = message(Error::SerializeError(WriteReason::ServerTooOld(what, major, minor)));
    let told = dec_text(major as nat) + seq!['.'] + dec_text(minor as nat);
    reveal_strlit(".");
    reveal_strlit(" requires ClickHouse server version >= 25.6, got ");
    assert(m.skip(m.len() - told.len()) =~= told);
}

} // verus!
