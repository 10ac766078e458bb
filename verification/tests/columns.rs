//! Columns, written and read back.
use chrono_tz::UTC;
use clickhouse_arrow::binary_value::{deserialize_binary_value, serialize_binary_value};
use clickhouse_arrow::column_read::{DeserializerState, KindPlan};
use clickhouse_arrow::dynamic::DynamicSerializer;
use clickhouse_arrow::error::{Error, Expected, ReadReason, TypeParseReason, WriteReason};
use clickhouse_arrow::json_columns::JsonSerializer;
use clickhouse_arrow::json_text::parse_json;
use clickhouse_arrow::sparse::{
    read_sparse_with_path, write_sparse, SizedSerializer, SparseRuntime,
};
use clickhouse_arrow::state::{SerializerState, TypeSpecificState};
use clickhouse_arrow::type_encoding::{decode_type, encode_type};
use clickhouse_arrow::types::Type;
use clickhouse_arrow::values::{
    i256, u256, Date, Date32, DateTime, DynDateTime64, Ipv4, Ipv6, MultiPolygon, Point, Polygon,
    Ring, Value,
};
use clickhouse_arrow::wire::{put_var_uint, read_string, read_varuint};

fn read_back(ty: &Type, bytes: &[u8], rows: usize) -> Vec<Value> {
    let mut reader = bytes;
    let out = ty.deserialize_column(&mut reader, rows, &mut DeserializerState::default()).unwrap();
    assert_eq!(reader.len(), 0);
    out
}

fn check(ty: Type, values: Vec<Value>) {
    let mut out = Vec::new();
    let mut state = SerializerState::default();
    ty.serialize_prefix(&mut out, &state).unwrap();
    let mut reader = &out[..];
    ty.deserialize_prefix(&mut reader, &mut DeserializerState::default()).unwrap();
    assert_eq!(reader.len(), 0);
    out.clear();
    ty.serialize_column(&values, &mut out, &mut state).unwrap();
    assert_eq!(read_back(&ty, &out, values.len()), values);
}

#[test]
fn columns_of_numbers_are_read_back() {
    check(Type::Int8, vec![Value::Int8(-1), Value::Int8(127)]);
    check(Type::Int16, vec![Value::Int16(-2)]);
    check(Type::Int32, vec![Value::Int32(i32::MIN)]);
    check(Type::Int64, vec![Value::Int64(i64::MAX)]);
    check(Type::Int128, vec![Value::Int128(-5)]);
    check(Type::Int256, vec![Value::Int256(i256([9; 32]))]);
    check(Type::UInt8, vec![Value::UInt8(200)]);
    check(Type::UInt16, vec![Value::UInt16(1)]);
    check(Type::UInt32, vec![Value::UInt32(1)]);
    check(Type::UInt64, vec![Value::UInt64(u64::MAX)]);
    check(Type::UInt128, vec![Value::UInt128(u128::MAX)]);
    check(Type::UInt256, vec![Value::UInt256(u256([3; 32]))]);
    check(Type::Float32, vec![Value::Float32(1.5f32.to_bits())]);
    check(Type::Float64, vec![Value::Float64(f64::NAN.to_bits())]);
    check(Type::Decimal32(2), vec![Value::Decimal32(2, -12)]);
    check(Type::Decimal256(4), vec![Value::Decimal256(4, i256([1; 32]))]);
    check(Type::Uuid, vec![Value::Uuid(0x550e8400_e29b_41d4_a716_446655440000)]);
    check(Type::Date, vec![Value::Date(Date(3))]);
    check(Type::Date32, vec![Value::Date32(Date32(-3))]);
    check(Type::DateTime(UTC), vec![Value::DateTime(DateTime(UTC, 5))]);
    check(Type::DateTime64(3, UTC), vec![Value::DateTime64(DynDateTime64(UTC, 5, 3))]);
    check(Type::Ipv4, vec![Value::Ipv4(Ipv4(0x0102_0304))]);
    check(Type::Ipv6, vec![Value::Ipv6(Ipv6([7; 16]))]);
    let options = vec![("on".to_string(), 1), ("off".to_string(), 2)];
    check(Type::Enum8(options), vec![Value::Enum8("off".to_string(), 2)]);
}

#[test]
fn bytes_of_numbers() {
    let mut out = Vec::new();
    let mut state = SerializerState::default();
    Type::UInt16.serialize_column(&vec![Value::UInt16(0x0102)], &mut out, &mut state).unwrap();
    assert_eq!(out, vec![2, 1]);
    out.clear();
    Type::Uuid.serialize_column(&vec![Value::Uuid(1 << 64)], &mut out, &mut state).unwrap();
    assert_eq!(out, vec![1, 0, 0, 0, 0, 0, 0, 0, 0, 0, 0, 0, 0, 0, 0, 0]);
}

#[test]
fn columns_of_columns_are_read_back() {
    let s = |x: &str| Value::string(x);
    check(Type::String, vec![s(""), s("abc")]);
    check(
        Type::Array(Box::new(Type::String)),
        vec![Value::Array(vec![s("a"), s("b")]), Value::Array(vec![]), Value::Array(vec![s("c")])],
    );
    check(
        Type::Tuple(vec![Type::Int8, Type::String]),
        vec![Value::Tuple(vec![Value::Int8(1), s("x")]), Value::Tuple(vec![Value::Int8(2), s("y")])],
    );
    check(
        Type::MapOf(Box::new(Type::String), Box::new(Type::Int64)),
        vec![Value::MapOf(vec![s("k")], vec![Value::Int64(1)]), Value::MapOf(vec![], vec![])],
    );
    check(
        Type::Nullable(Box::new(Type::Int32)),
        vec![Value::Null, Value::Int32(4)],
    );
    let p = |x: f64, y: f64| Point(x.to_bits(), y.to_bits());
    check(Type::Point, vec![Value::Point(p(1.0, 2.0)), Value::Point(p(-1.0, 0.5))]);
    check(Type::Ring, vec![Value::Ring(Ring(vec![p(0.0, 0.0), p(1.0, 1.0)]))]);
    check(Type::Polygon, vec![Value::Polygon(Polygon(vec![Ring(vec![p(3.0, 4.0)])]))]);
    check(
        Type::MultiPolygon,
        vec![Value::MultiPolygon(MultiPolygon(vec![Polygon(vec![Ring(vec![p(5.0, 6.0)])])]))],
    );
}

#[test]
fn test_array_with_non_byte_values_returns_error() {
    let mut buf = Vec::new();

    // Array with a Float64 mixed in - should error, not silently drop
    let values = vec![Value::Array(vec![
        Value::UInt8(65),
        Value::Float64(3.14f64.to_bits()), // Invalid - not a byte
        Value::UInt8(67),
    ])];

    let result = Type::String.serialize_column(&values, &mut buf, &mut SerializerState::default());

    assert!(result.is_err());
    let err = result.unwrap_err().to_string();
    assert!(err.contains("non-byte value"));
}

#[test]
fn test_array_with_valid_bytes_succeeds() {
    let mut buf = Vec::new();

    let values = vec![Value::Array(vec![
        Value::UInt8(65), // 'A'
        Value::UInt8(66), // 'B'
        Value::Int8(67),  // 'C' (as signed)
    ])];

    let result = Type::String.serialize_column(&values, &mut buf, &mut SerializerState::default());

    assert!(result.is_ok());
    // String format: varint length + bytes
    assert_eq!(&buf[1..], b"ABC");
}

#[test]
fn values_of_another_type_are_refused() {
    let mut out = Vec::new();
    let mut state = SerializerState::default();
    assert!(Type::Int8.serialize_column(&vec![Value::string("1")], &mut out, &mut state).is_err());
    assert!(Type::Array(Box::new(Type::Int8))
        .serialize_column(&vec![Value::Int8(1)], &mut out, &mut SerializerState::default())
        .is_err());
}

#[test]
fn truncated_columns_are_refused() {
    let mut reader: &[u8] = &[1, 2, 3];
    let result = Type::UInt16.deserialize_column(&mut reader, 2, &mut DeserializerState::default());
    assert_eq!(result.unwrap_err(), Error::UnexpectedEof);
}

#[test]
fn sparse_columns_are_read_back() {
    let values = vec![
        Value::UInt64(0),
        Value::UInt64(5),
        Value::UInt64(0),
        Value::UInt64(0),
        Value::UInt64(7),
        Value::UInt64(0),
    ];
    let mut out = Vec::new();
    write_sparse(&Type::UInt64, &values, &mut out).unwrap();
    let mut expected = Vec::new();
    put_var_uint(&mut expected, 1);
    put_var_uint(&mut expected, 2);
    put_var_uint(&mut expected, (1u64 << 62) | 1);
    expected.extend_from_slice(&5u64.to_le_bytes());
    expected.extend_from_slice(&7u64.to_le_bytes());
    assert_eq!(out, expected);
    let mut reader = &out[..];
    let mut runtime = SparseRuntime::new();
    let back =
        read_sparse_with_path(&Type::UInt64, &mut reader, 6, &mut runtime, Vec::new()).unwrap();
    assert_eq!(back, values);
    let mut dense = Vec::new();
    SizedSerializer::write_sync(&Type::UInt64, &values, &mut dense, false).unwrap();
    assert_eq!(dense.len(), 48);
}

#[test]
fn plans_tell_which_columns_are_sparse() {
    let plan = KindPlan::new(vec![(vec![], 0), (vec![0], 1), (vec![1], 0)]);
    assert!(plan.is_sparse(&vec![0]));
    assert!(!plan.is_sparse(&vec![1]));
    assert!(!plan.is_sparse(&vec![2]));
}

#[test]
fn binary_values_are_read_back() {
    let values = vec![
        Value::Null,
        Value::Bool(false),
        Value::Int8(-3),
        Value::UInt64(99),
        Value::Float32(0.5f32.to_bits()),
        Value::string("text"),
        Value::Array(vec![Value::Int64(1), Value::Int64(2)]),
    ];
    for value in values {
        let mut out = Vec::new();
        serialize_binary_value(&mut out, &value).unwrap();
        assert_eq!(deserialize_binary_value(&out).unwrap(), value);
    }
}

#[test]
fn types_without_a_byte_are_refused() {
    let mut out = Vec::new();
    assert_eq!(encode_type(&mut out, &Type::Point).unwrap_err(), Error::Encode);
    let mut reader: &[u8] = &[0xee];
    assert_eq!(decode_type(&mut reader).unwrap_err(), Error::Decode);
}

#[test]
fn lengths_are_written_in_groups_of_seven_bits() {
    let mut out = Vec::new();
    put_var_uint(&mut out, 300);
    assert_eq!(out, vec![0xac, 0x02]);
    let mut reader = &out[..];
    assert_eq!(read_varuint(&mut reader).unwrap(), 300);
    let mut reader: &[u8] = &[0xff, 0xff, 0xff, 0xff, 0xff, 0xff, 0xff, 0xff, 0xff, 0xff, 0xff];
    assert_eq!(
        read_varuint(&mut reader).unwrap_err(),
        Error::DeserializeError(ReadReason::VarUIntOverflow)
    );
    let mut reader: &[u8] = &[4, b'a'];
    assert_eq!(read_string(&mut reader).unwrap_err(), Error::UnexpectedEof);
}

#[test]
fn shapes_that_are_asked_for() {
    assert_eq!(Value::UInt8(4).index_value().unwrap(), 4);
    assert_eq!(
        Value::string("4").index_value().unwrap_err(),
        Error::Protocol(Expected::Integer)
    );
    assert_eq!(Value::Int8(1).unwrap_array().unwrap_err(), Error::Protocol(Expected::Array));
    assert_eq!(Value::Int8(1).unwrap_tuple().unwrap_err(), Error::Protocol(Expected::Tuple));
    assert_eq!(Value::Null.justify_null(&Type::Int8), Value::Int8(0));
    assert_eq!(Value::Int8(3).justify_null(&Type::Int8), Value::Int8(3));
}

#[test]
fn each_malformed_name_has_its_reason() {
    let cases = [
        ("", TypeParseReason::EmptyIdentifier),
        ("Strange", TypeParseReason::UnknownType),
        ("Int8(3)", TypeParseReason::NotParameterized),
        ("Array(Int8", TypeParseReason::MalformedArguments),
        ("Tuple(Int8,)", TypeParseReason::TrailingComma),
        ("Tuple(Int8,,Int8)", TypeParseReason::EmptyArgument),
        ("Tuple(Int8()", TypeParseReason::MismatchedParentheses),
        ("Array(Int8, Int8)", TypeParseReason::TooManyArguments),
        ("Map(Int8)", TypeParseReason::ArgumentCount),
        ("FixedString(x)", TypeParseReason::BadScale),
        ("Decimal(x, 1)", TypeParseReason::BadPrecision),
        ("Decimal32(10)", TypeParseReason::InvalidScale),
        ("Decimal(77, 2)", TypeParseReason::PrecisionTooLarge),
        ("FixedString(0)", TypeParseReason::EmptyFixedString),
        ("DateTime(UTC)", TypeParseReason::UnquotedTimezone),
        ("DateTime('Nowhere')", TypeParseReason::UnknownTimezone),
        ("Enum8'a'", TypeParseReason::EnumNotParenthesized),
        ("Enum8(a)", TypeParseReason::EnumExpectedQuote),
        ("Enum8('a' 1)", TypeParseReason::EnumExpectedEquals),
        ("Enum8('a' = 128)", TypeParseReason::EnumInvalidValue),
        ("Enum8('a' = 1,)", TypeParseReason::EnumUnexpectedEnd),
        ("Enum8('a)", TypeParseReason::EnumIncomplete),
        ("Nested()", TypeParseReason::UnsupportedNested),
        ("Variant()", TypeParseReason::EmptyVariant),
        ("Dynamic(max_types=x)", TypeParseReason::InvalidMaxTypes),
        ("Dynamic(x)", TypeParseReason::UnknownDynamicParameter),
        ("JSON(max_dynamic_paths=x)", TypeParseReason::InvalidMaxDynamicPaths),
        ("JSON(max_dynamic_types=x)", TypeParseReason::InvalidMaxDynamicTypes),
    ];
    for (name, reason) in cases {
        assert_eq!(Type::from_str(name).unwrap_err(), Error::TypeParseError(reason), "{name}");
    }
    assert!(Error::SerializeError(WriteReason::NotAByte).to_string().contains("non-byte value"));
}

#[test]
fn documents_in_object_columns_are_written_as_text() {
    let document = parse_json(b"{\"b\": [1, {\"c\": null}], \"a\": \"x\"}").unwrap();
    let mut out = Vec::new();
    Type::Object
        .serialize_column(&vec![Value::Json(document)], &mut out, &mut SerializerState::default())
        .unwrap();
    let text = b"{\"a\":\"x\",\"b\":[1,{\"c\":null}]}";
    assert_eq!(out[0] as usize, text.len());
    assert_eq!(&out[1..], text);
}

#[test]
fn columns_of_any_values_below_other_types() {
    let ty = Type::Array(Box::new(Type::Dynamic { max_types: None }));
    let values = vec![
        Value::Array(vec![Value::Int32(1), Value::string("a")]),
        Value::Array(vec![Value::Null, Value::Int32(2)]),
    ];
    let inner = vec![Value::Int32(1), Value::string("a"), Value::Null, Value::Int32(2)];
    let mut state = SerializerState {
        type_specific: DynamicSerializer::analyze_values(&inner),
        ..Default::default()
    };
    let mut out = Vec::new();
    ty.serialize_prefix(&mut out, &state).unwrap();
    ty.serialize_column(&values, &mut out, &mut state).unwrap();
    let mut reader = &out[..];
    let mut reading = DeserializerState::default();
    ty.deserialize_prefix(&mut reader, &mut reading).unwrap();
    assert_eq!(ty.deserialize_column(&mut reader, 2, &mut reading).unwrap(), values);
    assert_eq!(reader.len(), 0);
}

#[test]
fn arrays_of_several_types_below_other_types() {
    let ty = Type::Array(Box::new(Type::Dynamic { max_types: None }));
    let bare = Value::Array(vec![Value::Int32(1), Value::string("a")]);
    let told = Value::Array(vec![
        Value::Variant(0, Box::new(Value::Int32(1))),
        Value::Variant(1, Box::new(Value::string("a"))),
    ]);
    let values = vec![Value::Array(vec![bare.clone(), Value::Int32(3)]), Value::Array(vec![])];
    let inner = vec![bare, Value::Int32(3)];
    let mut state = SerializerState {
        type_specific: DynamicSerializer::analyze_values(&inner),
        ..Default::default()
    };
    let mut out = Vec::new();
    ty.serialize_prefix(&mut out, &state).unwrap();
    ty.serialize_column(&values, &mut out, &mut state).unwrap();
    let mut reader = &out[..];
    let mut reading = DeserializerState::default();
    ty.deserialize_prefix(&mut reader, &mut reading).unwrap();
    assert_eq!(
        ty.deserialize_column(&mut reader, 2, &mut reading).unwrap(),
        vec![Value::Array(vec![told, Value::Int32(3)]), Value::Array(vec![])]
    );
    assert_eq!(reader.len(), 0);
}

#[test]
fn columns_of_documents_below_other_types() {
    let json = Type::from_str("JSON").unwrap();
    let ty = Type::Tuple(vec![
        Type::UInt8,
        Type::MapOf(Box::new(Type::String), Box::new(json)),
    ]);
    let json = Type::from_str("JSON").unwrap();
    let document = |s: &str| Value::Json(parse_json(s.as_bytes()).unwrap());
    let map = |d: Value| Value::MapOf(vec![Value::string("k")], vec![d]);
    let values = vec![
        Value::Tuple(vec![Value::UInt8(1), map(document("{\"a\":1}"))]),
        Value::Tuple(vec![Value::UInt8(2), map(document("{\"b\":\"x\"}"))]),
    ];
    let inner = vec![document("{\"a\":1}"), document("{\"b\":\"x\"}")];
    let mut state = SerializerState {
        type_specific: TypeSpecificState::Json(
            JsonSerializer::analyze_values(&inner, &json).unwrap(),
        ),
        ..Default::default()
    };
    let mut out = Vec::new();
    ty.serialize_prefix(&mut out, &state).unwrap();
    ty.serialize_column(&values, &mut out, &mut state).unwrap();
    match &state.type_specific {
        TypeSpecificState::Json(left) => assert!(left.dynamic_path_columns[0].1.is_empty()),
        _ => panic!("Expected JSON state"),
    }
    let mut reader = &out[..];
    let mut reading = DeserializerState::default();
    ty.deserialize_prefix(&mut reader, &mut reading).unwrap();
    assert_eq!(ty.deserialize_column(&mut reader, 2, &mut reading).unwrap(), values);
}

#[test]
fn what_is_no_number_is_not_written_as_one() {
    for sparse in [false, true] {
        let mut out = Vec::new();
        let values = vec![Value::string("a")];
        assert_eq!(
            SizedSerializer::write_sync(&Type::String, &values, &mut out, sparse).unwrap_err(),
            Error::SerializeError(WriteReason::UnsupportedValue)
        );
    }
    let mut out = Vec::new();
    let ty = Type::Nullable(Box::new(Type::UInt16));
    SizedSerializer::write_sync(&ty, &vec![Value::UInt16(258)], &mut out, false).unwrap();
    assert_eq!(out, [2, 1]);
}

#[test]
fn columns_of_few_different_values() {
    let ty = Type::LowCardinality(Box::new(Type::String));
    let values = vec![Value::string("b"), Value::string("a"), Value::string("b")];
    let mut out = Vec::new();
    ty.serialize_column(&values, &mut out, &mut SerializerState::default()).unwrap();
    let mut expected = vec![0, 2, 0, 0, 0, 0, 0, 0];
    expected.extend([2, 0, 0, 0, 0, 0, 0, 0]);
    expected.extend([1, b'b', 1, b'a']);
    expected.extend([3, 0, 0, 0, 0, 0, 0, 0]);
    expected.extend([0, 1, 0]);
    assert_eq!(out, expected);
    assert_eq!(read_back(&ty, &out, 3), values);

    let ty = Type::LowCardinality(Box::new(Type::Nullable(Box::new(Type::UInt16))));
    let values = vec![Value::UInt16(0), Value::Null, Value::UInt16(7), Value::Null];
    let mut out = Vec::new();
    ty.serialize_column(&values, &mut out, &mut SerializerState::default()).unwrap();
    assert_eq!(out[8], 3);
    assert_eq!(out[16..22], [0, 0, 0, 0, 7, 0]);
    assert_eq!(out[30..], [1, 0, 2, 0]);
    assert_eq!(read_back(&ty, &out, 4), values);

    let ty = Type::Array(Box::new(Type::LowCardinality(Box::new(Type::UInt32))));
    let many = Value::Array((0..300).map(Value::UInt32).collect());
    let values = vec![many, Value::Array(vec![]), Value::Array(vec![Value::UInt32(299)])];
    let mut out = Vec::new();
    ty.serialize_column(&values, &mut out, &mut SerializerState::default()).unwrap();
    assert_eq!(out[24..26], [1, 2]);
    assert_eq!(read_back(&ty, &out, 3), values);
}

#[test]
fn dictionaries_that_are_refused() {
    let ty = Type::LowCardinality(Box::new(Type::UInt8));
    let read = |flags: u8, high: u8, rows: u8, place: u8| {
        let mut data = vec![flags, high, 0, 0, 0, 0, 0, 0];
        data.extend([1, 0, 0, 0, 0, 0, 0, 0]);
        data.push(42);
        data.extend([rows, 0, 0, 0, 0, 0, 0, 0]);
        data.push(place);
        let mut reader = &data[..];
        ty.deserialize_column(&mut reader, 1, &mut DeserializerState::default())
    };
    let invalid = Error::DeserializeError(ReadReason::InvalidDictionary);
    assert_eq!(read(0, 2, 1, 0).unwrap(), vec![Value::UInt8(42)]);
    assert_eq!(read(0, 6, 1, 0).unwrap(), vec![Value::UInt8(42)]);
    assert_eq!(read(4, 2, 1, 0).unwrap_err(), invalid);
    assert_eq!(read(0, 3, 1, 0).unwrap_err(), invalid);
    assert_eq!(read(0, 0, 1, 0).unwrap_err(), invalid);
    assert_eq!(read(0, 2, 2, 0).unwrap_err(), invalid);
    assert_eq!(read(0, 2, 1, 1).unwrap_err(), invalid);
    let mut out = Vec::new();
    let nested = Type::LowCardinality(Box::new(Type::Array(Box::new(Type::UInt8))));
    let values = vec![Value::Array(vec![])];
    let result = nested.serialize_column(&values, &mut out, &mut SerializerState::default());
    assert_eq!(result.unwrap_err(), Error::SerializeError(WriteReason::UnsupportedValue));
}
