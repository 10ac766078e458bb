//! Columns of variants.
use clickhouse_arrow::column_read::DeserializerState;
use clickhouse_arrow::dynamic::DynamicSerializer;
use clickhouse_arrow::error::{Error, Expected, ReadReason, WriteReason};
use clickhouse_arrow::state::SerializerState;
use clickhouse_arrow::types::Type;
use clickhouse_arrow::values::{Date, Value};
use clickhouse_arrow::variant::{DiscriminatorMap, VariantDeserializer, VariantSerializer};
use clickhouse_arrow::wire::{get_u64_le, get_u8};

fn create_test_data(discriminators: &[u8], column_data: &[u8]) -> Vec<u8> {
    let mut data = vec![0u8; 8]; // Version prefix
    data.extend_from_slice(discriminators);
    data.extend_from_slice(column_data);
    data
}

fn variant(discriminator: u8, value: Value) -> Value {
    Value::Variant(discriminator, Box::new(value))
}

fn assert_variant(value: &Value, discriminator: u8, expected: Value) {
    match value {
        Value::Variant(d, inner) => {
            assert_eq!(*d, discriminator);
            assert_eq!(**inner, expected);
        }
        _ => panic!("Expected Variant"),
    }
}

fn check_deserialization(
    variant_type: Type,
    discriminators: &[u8],
    data: &[u8],
    expected: Vec<(u8, Value)>,
) {
    let data = create_test_data(discriminators, data);
    let mut reader: &[u8] = &data;
    let mut state = DeserializerState::default();
    VariantDeserializer::read_prefix_sync(&variant_type, &mut reader).unwrap();
    let values =
        VariantDeserializer::read_sync(&variant_type, &mut reader, discriminators.len(), &mut state)
            .unwrap();
    assert_eq!(values.len(), expected.len());
    for (value, (d, v)) in values.iter().zip(expected) {
        assert_variant(value, d, v);
    }
    assert_eq!(reader.len(), 0);
}

fn check_roundtrip(variant_type: Type, values: Vec<Value>) {
    let mut buffer = Vec::new();
    let mut writing = SerializerState::default();
    VariantSerializer::write_prefix_sync(&variant_type, &mut buffer, &writing).unwrap();
    VariantSerializer::write_sync(&variant_type, &values, &mut buffer, &mut writing).unwrap();
    let mut reader: &[u8] = &buffer;
    let mut state = DeserializerState::default();
    VariantDeserializer::read_prefix_sync(&variant_type, &mut reader).unwrap();
    let back =
        VariantDeserializer::read_sync(&variant_type, &mut reader, values.len(), &mut state).unwrap();
    assert_eq!(back, values);
    assert_eq!(reader.len(), 0);
}

// Helper function to create multitype test data programmatically
fn create_multitype_test_data() -> (Type, Vec<u8>) {
    let variant_type = Type::Variant(vec![
        Type::UInt64,
        Type::String,
        Type::Date,
        Type::Array(Box::new(Type::UInt8)),
        Type::DateTime(chrono_tz::UTC),
    ]);

    let mut data = vec![0u8; 8]; // Version prefix
    data.extend_from_slice(&[4u8, 3u8, 1u8, 0u8, 2u8]); // Discriminators
    // Array(UInt8) data
    data.extend_from_slice(&[3, 0, 0, 0, 0, 0, 0, 0, 1, 2, 3]);
    // Date data
    data.extend_from_slice(&100u16.to_le_bytes());
    // DateTime data
    data.extend_from_slice(&1_234_567_890_u32.to_le_bytes());
    // String data
    data.extend_from_slice(&[5, b'h', b'e', b'l', b'l', b'o']);
    // UInt64 data
    data.extend_from_slice(&[231, 3, 0, 0, 0, 0, 0, 0]); // 999

    (variant_type, data)
}

#[test]
fn test_discriminator_map_basic_sorting() {
    let types = vec![Type::String, Type::UInt64, Type::Array(Box::new(Type::String))];
    let map = DiscriminatorMap::new(&types);
    // Expected order: Array(String), String, UInt64
    assert_eq!(map.get_type(0).unwrap().to_string(), "Array(String)");
    assert_eq!(map.get_type(1).unwrap().to_string(), "String");
    assert_eq!(map.get_type(2).unwrap().to_string(), "UInt64");
    assert!(map.get_type(3).is_none());
}

#[test]
fn test_discriminator_map_datetime_sorting() {
    let types = vec![Type::String, Type::DateTime(chrono_tz::UTC), Type::Date];
    let map = DiscriminatorMap::new(&types);
    // Expected order: Date, DateTime('UTC'), String
    assert_eq!(map.get_type(0).unwrap().to_string(), "Date");
    assert_eq!(map.get_type(1).unwrap().to_string(), "DateTime('UTC')");
    assert_eq!(map.get_type(2).unwrap().to_string(), "String");
}

#[test]
fn test_discriminator_map_nested_variant() {
    let nested_str = "Variant(String, Variant(UInt64, Date))";
    let nested_type = Type::from_str(nested_str).unwrap();
    match &nested_type {
        Type::Variant(types) => {
            assert_eq!(types.len(), 2);
            assert_eq!(types[0].to_string(), "String");
            assert!(matches!(&types[1], Type::Variant(_)));
        }
        _ => panic!("Expected Variant type"),
    }
    let nested_map = DiscriminatorMap::new(match &nested_type {
        Type::Variant(types) => types,
        _ => unreachable!(),
    });
    assert_eq!(nested_map.get_type(0).unwrap().to_string(), "String");
    assert!(matches!(nested_map.get_type(1).unwrap(), Type::Variant(_)));
}

#[test]
fn test_variant_complex_array_deserialization() {
    let variant_type =
        Type::Variant(vec![Type::Array(Box::new(Type::String)), Type::UInt64, Type::Date]);
    let date_bytes = 19723u16.to_le_bytes();
    let data = create_test_data(&[0u8, 1u8, 2u8], &[
        2,
        0,
        0,
        0,
        0,
        0,
        0,
        0, // offset 2
        1,
        b'a', // 'a'
        1,
        b'b', // 'b'
        date_bytes[0],
        date_bytes[1], // Date
        42,
        0,
        0,
        0,
        0,
        0,
        0,
        0, // 42
    ]);
    let mut reader: &[u8] = &data;
    let mut state = DeserializerState::default();
    variant_type.deserialize_prefix(&mut reader, &mut state).unwrap();
    let values =
        VariantDeserializer::read_sync(&variant_type, &mut reader, 3, &mut state).unwrap();
    assert_eq!(values.len(), 3);

    // Check array value
    match &values[0] {
        Value::Variant(0, inner) => match &**inner {
            Value::Array(items) => {
                assert_eq!(items.len(), 2);
                assert_eq!(items[0], Value::String(b"a".to_vec()));
                assert_eq!(items[1], Value::String(b"b".to_vec()));
            }
            _ => panic!("Expected Array"),
        },
        _ => panic!("Expected Variant(0, Array)"),
    }
    assert_variant(&values[1], 1, Value::Date(Date(19723)));
    assert_variant(&values[2], 2, Value::UInt64(42));
}

// Multitype sorting tests
#[test]
fn test_variant_multitype_discriminator_order() {
    let (variant_type, data) = create_multitype_test_data();
    let mut reader: &[u8] = &data;
    let mut state = DeserializerState::default();
    variant_type.deserialize_prefix(&mut reader, &mut state).unwrap();
    let values =
        VariantDeserializer::read_sync(&variant_type, &mut reader, 5, &mut state).unwrap();
    assert_eq!(values.len(), 5);

    // Verify discriminator assignments match expected sort order
    assert_variant(&values[0], 4, Value::UInt64(999)); // UInt64 -> discriminator 4
    assert_variant(&values[1], 3, Value::String(b"hello".to_vec())); // String -> discriminator 3
    assert_variant(&values[2], 1, Value::Date(Date(100))); // Date -> discriminator 1
}

#[test]
fn test_variant_multitype_array_handling() {
    let (variant_type, data) = create_multitype_test_data();
    let mut reader: &[u8] = &data;
    let mut state = DeserializerState::default();
    variant_type.deserialize_prefix(&mut reader, &mut state).unwrap();
    let values =
        VariantDeserializer::read_sync(&variant_type, &mut reader, 5, &mut state).unwrap();

    // Check array (discriminator 0)
    match &values[3] {
        Value::Variant(0, inner) => match &**inner {
            Value::Array(items) => {
                assert_eq!(items, &[Value::UInt8(1), Value::UInt8(2), Value::UInt8(3)]);
            }
            _ => panic!("Expected Array"),
        },
        _ => panic!("Expected Variant(0, Array)"),
    }
}

#[test]
fn test_variant_multitype_datetime_handling() {
    let (variant_type, data) = create_multitype_test_data();
    let mut reader: &[u8] = &data;
    let mut state = DeserializerState::default();
    variant_type.deserialize_prefix(&mut reader, &mut state).unwrap();
    let values =
        VariantDeserializer::read_sync(&variant_type, &mut reader, 5, &mut state).unwrap();

    // Check DateTime (discriminator 2)
    match &values[4] {
        Value::Variant(2, inner) => match &**inner {
            Value::DateTime(dt) => assert_eq!(dt.1, 1_234_567_890),
            _ => panic!("Expected DateTime"),
        },
        _ => panic!("Expected Variant(2, DateTime)"),
    }
}

#[test]
fn test_variant_homogeneous() {
    let variant_type = Type::Variant(vec![Type::String, Type::UInt64, Type::Float64]);
    // All UInt64 (discriminator 2 after sorting)
    let values: Vec<_> =
        (100..=500).step_by(100).map(|v| variant(2, Value::UInt64(v))).collect();

    let mut buffer = Vec::new();
    let mut writing = SerializerState::default();
    VariantSerializer::write_prefix_sync(&variant_type, &mut buffer, &writing).unwrap();
    VariantSerializer::write_sync(&variant_type, &values, &mut buffer, &mut writing).unwrap();

    // Verify discriminators
    let mut reader: &[u8] = &buffer;
    assert_eq!(get_u64_le(&mut reader).unwrap(), 0); // Version
    for _ in 0..5 {
        assert_eq!(get_u8(&mut reader).unwrap(), 2); // All discriminators should be 2
    }
}

#[test]
fn test_variant_all_nulls() {
    let variant_type = Type::Variant(vec![Type::String, Type::UInt64, Type::Date]);
    let values: Vec<Value> = (0..4).map(|_| variant(0xFF, Value::Null)).collect();
    let mut buffer = Vec::new();
    let mut writing = SerializerState::default();
    VariantSerializer::write_prefix_sync(&variant_type, &mut buffer, &writing).unwrap();
    VariantSerializer::write_sync(&variant_type, &values, &mut buffer, &mut writing).unwrap();

    // Verify wire format
    let mut reader: &[u8] = &buffer;
    assert_eq!(get_u64_le(&mut reader).unwrap(), 0); // Version
    for _ in 0..4 {
        assert_eq!(get_u8(&mut reader).unwrap(), 0xFF); // All NULL discriminators
    }
    assert_eq!(reader.len(), 0); // No column data
}

#[test]
fn test_extract_discriminators() {
    let values = vec![
        variant(0, Value::String(b"a".to_vec())),
        variant(1, Value::UInt64(42)),
        variant(0, Value::String(b"b".to_vec())),
        variant(0xFF, Value::Null),
    ];
    let (discriminators, grouped) =
        VariantSerializer::extract_discriminators_and_values(&values).unwrap();
    assert_eq!(discriminators, vec![0, 1, 0, 0xFF]);
    assert_eq!(grouped.iter().filter(|g| !g.is_empty()).count(), 3);
    assert_eq!(grouped[0].len(), 2);
    assert_eq!(grouped[1].len(), 1);
    assert_eq!(grouped[0xFF].len(), 1);
}

#[test]
fn test_variant_simple_deserialization() {
    check_deserialization(
        Type::Variant(vec![Type::String, Type::UInt64]),
        &[0u8, 1u8, 0u8],
        &[3, b'y', b'e', b's', 3, b'y', b'e', b's', 2, 0, 0, 0, 0, 0, 0, 0],
        vec![
            (0, Value::String(b"yes".to_vec())),
            (1, Value::UInt64(2)),
            (0, Value::String(b"yes".to_vec())),
        ],
    );
}

#[test]
fn test_variant_null_deserialization() {
    check_deserialization(
        Type::Variant(vec![Type::String, Type::UInt64]),
        &[0u8, 0xFF, 1u8],
        &[5, b'h', b'e', b'l', b'l', b'o', 42, 0, 0, 0, 0, 0, 0, 0],
        vec![(0, Value::String(b"hello".to_vec())), (0xFF, Value::Null), (1, Value::UInt64(42))],
    );
}

#[test]
fn test_variant_async_basic_deserialization() {
    check_deserialization(
        Type::Variant(vec![Type::String, Type::UInt64]),
        &[1u8, 0u8],
        &[4, b't', b'e', b's', b't', 100, 0, 0, 0, 0, 0, 0, 0],
        vec![(1, Value::UInt64(100)), (0, Value::String(b"test".to_vec()))],
    );
}

#[test]
fn test_variant_async_different_types() {
    check_deserialization(
        Type::Variant(vec![Type::String, Type::UInt32]),
        &[0u8, 1u8],
        &[
            4, b't', b'e', b's', b't', // 'test'
            50, 0, 0, 0, // 50 as UInt32
        ],
        vec![(0, Value::String(b"test".to_vec())), (1, Value::UInt32(50))],
    );
}

#[test]
fn test_variant_simple() {
    check_roundtrip(
        Type::Variant(vec![Type::String, Type::UInt64]),
        vec![
            variant(0, Value::String(b"hello".to_vec())),
            variant(1, Value::UInt64(42)),
            variant(0, Value::String(b"world".to_vec())),
        ],
    );
}

#[test]
fn test_variant_with_nulls() {
    check_roundtrip(
        Type::Variant(vec![Type::String, Type::UInt64]),
        vec![
            variant(0, Value::String(b"test".to_vec())),
            variant(0xFF, Value::Null),
            variant(1, Value::UInt64(123)),
        ],
    );
}

#[test]
fn test_variant_complex_types() {
    check_roundtrip(
        Type::Variant(vec![Type::Array(Box::new(Type::String)), Type::Date]),
        vec![
            variant(
                0,
                Value::Array(vec![Value::String(b"a".to_vec()), Value::String(b"b".to_vec())]),
            ),
            variant(1, Value::Date(Date(19723))),
            variant(0, Value::Array(vec![Value::String(b"c".to_vec())])),
        ],
    );
}

#[test]
fn test_variant_sparse() {
    check_roundtrip(
        Type::Variant(vec![
            Type::String,
            Type::UInt64,
            Type::Float64,
            Type::Array(Box::new(Type::Int32)),
            Type::Date,
        ]),
        vec![
            variant(3, Value::String(b"test".to_vec())),
            variant(4, Value::UInt64(42)),
            variant(2, Value::Float64(std::f64::consts::PI.to_bits())),
            variant(1, Value::Date(Date(19723))),
            variant(0, Value::Array(vec![Value::Int32(1), Value::Int32(2)])),
            variant(3, Value::String(b"another".to_vec())),
            variant(0xFF, Value::Null),
            variant(4, Value::UInt64(999)),
        ],
    );
}

#[test]
fn test_variant_with_nested_types() {
    check_roundtrip(
        Type::Variant(vec![
            Type::String,
            Type::Array(Box::new(Type::Nullable(Box::new(Type::UInt64)))),
            Type::Tuple(vec![Type::String, Type::UInt64]),
        ]),
        vec![
            variant(1, Value::String(b"test_str".to_vec())),
            variant(0, Value::Array(vec![Value::UInt64(100), Value::Null, Value::UInt64(200)])),
            variant(
                2,
                Value::Tuple(vec![Value::String(b"tuple_str".to_vec()), Value::UInt64(42)]),
            ),
        ],
    );
}

#[test]
fn test_variant_empty() {
    check_roundtrip(Type::Variant(vec![Type::String, Type::UInt64]), vec![]);
}

#[test]
fn test_variant_async() {
    check_roundtrip(
        Type::Variant(vec![Type::String, Type::UInt64]),
        vec![variant(1, Value::UInt64(999)), variant(0, Value::String(b"async".to_vec()))],
    );
}

#[test]
fn values_that_are_no_variants_are_refused() {
    let result = VariantSerializer::extract_discriminators_and_values(&vec![Value::Int8(1)]);
    assert_eq!(result.unwrap_err(), Error::SerializeError(WriteReason::ExpectedVariant));
}

#[test]
fn too_many_rows_of_a_variant_are_refused() {
    let ty = Type::Variant(vec![Type::UInt8]);
    let mut reader: &[u8] = &[];
    let mut state = DeserializerState::default();
    let result = VariantDeserializer::read_sync(&ty, &mut reader, 1_000_001, &mut state);
    assert_eq!(result.unwrap_err(), Error::DeserializeError(ReadReason::TooManyRows));
}

#[test]
fn groups_make_the_rows_again() {
    let values = vec![
        variant(1, Value::UInt64(3)),
        variant(0, Value::String(b"x".to_vec())),
        variant(1, Value::UInt64(4)),
    ];
    let (ds, groups) = VariantSerializer::extract_discriminators_and_values(&values).unwrap();
    let (offsets, counts) = VariantDeserializer::build_offsets_and_counts(&ds);
    assert_eq!(offsets, vec![0, 0, 1]);
    assert_eq!((counts[0], counts[1], counts[2]), (1, 2, 0));
    let back = VariantDeserializer::reconstruct_values(&ds, &offsets, &groups).unwrap();
    assert_eq!(back, values);
}

#[test]
fn too_many_rows_leave_the_reader_where_it_was() {
    let variant_type = Type::Variant(vec![Type::Int8]);
    let data = [1u8, 2, 3];
    let mut reader: &[u8] = &data;
    let mut state = DeserializerState::default();
    let result = VariantDeserializer::read_sync(&variant_type, &mut reader, usize::MAX, &mut state);
    assert_eq!(result.unwrap_err(), Error::DeserializeError(ReadReason::TooManyRows));
    assert_eq!(reader, &data);
}

#[test]
fn another_version_is_read_and_refused() {
    let data = [7u8, 0, 0, 0, 0, 0, 0, 0, 42];
    let mut reader: &[u8] = &data;
    let result =
        VariantDeserializer::read_prefix_sync(&Type::Variant(vec![Type::Int8]), &mut reader);
    assert_eq!(result.unwrap_err(), Error::DeserializeError(ReadReason::UnsupportedVersion));
    assert_eq!(reader, &[42]);
}

#[test]
fn another_type_is_refused_behind_the_version() {
    let data = [0u8, 0, 0, 0, 0, 0, 0, 0, 42];
    let mut reader: &[u8] = &data;
    let result = VariantDeserializer::read_prefix_sync(&Type::Int8, &mut reader);
    assert_eq!(result.unwrap_err(), Error::Protocol(Expected::Variant));
    assert_eq!(reader, &[42]);
}

#[test]
fn variants_of_any_values_are_read_back() {
    let ty = Type::Variant(vec![Type::Int8, Type::Dynamic { max_types: None }]);
    let values = vec![
        variant(0, Value::string("a")),
        variant(1, Value::Int8(5)),
        variant(0, Value::Int32(7)),
        variant(0xFF, Value::Null),
    ];
    let inner = vec![Value::string("a"), Value::Int32(7)];
    let mut writing = SerializerState {
        type_specific: DynamicSerializer::analyze_values(&inner),
        ..Default::default()
    };
    let mut buffer = Vec::new();
    VariantSerializer::write_prefix_sync(&ty, &mut buffer, &writing).unwrap();
    VariantSerializer::write_sync(&ty, &values, &mut buffer, &mut writing).unwrap();
    let mut reader: &[u8] = &buffer;
    let mut state = DeserializerState::default();
    ty.deserialize_prefix(&mut reader, &mut state).unwrap();
    let back = VariantDeserializer::read_sync(&ty, &mut reader, 4, &mut state).unwrap();
    assert_eq!(back, values);
    assert!(reader.is_empty());
}

#[test]
fn rows_are_made_as_far_as_there_are_offsets() {
    let columns = vec![vec![Value::Int8(1), Value::Int8(2)]];
    let back = VariantDeserializer::reconstruct_values(&[0, 0, 7], &vec![1, 0], &columns).unwrap();
    assert_eq!(back, vec![variant(0, Value::Int8(2)), variant(0, Value::Int8(1))]);
    let back = VariantDeserializer::reconstruct_values(&[0], &vec![1, 9, 9], &columns).unwrap();
    assert_eq!(back, vec![variant(0, Value::Int8(2))]);
}
