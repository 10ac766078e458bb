//! Columns of values of any type.
use clickhouse_arrow::column_read::DeserializerState;
use clickhouse_arrow::discriminators::{
    build_offsets, parse_type_entry, read_discriminator, write_discriminator_sync,
};
use clickhouse_arrow::dynamic::{DynamicSerializer, DYNAMIC_VERSION_FLATTENED};
use clickhouse_arrow::dynamic_read::DynamicDeserializer;
use clickhouse_arrow::error::{ComplexType, Error, ReadReason, WriteReason};
use clickhouse_arrow::state::{SerializerState, TypeSpecificState};
use clickhouse_arrow::types::Type;
use clickhouse_arrow::values::Value;
use clickhouse_arrow::wire::{
    get_u64_le, put_string, put_u64_le, put_var_uint, read_string, read_varuint,
};

// Assert that type names serialize correctly in round-trip
fn assert_type_names_serialization(type_names: &[String]) {
    let mut buffer = Vec::new();

    // Write total count and type names
    put_var_uint(&mut buffer, type_names.len() as u64);
    for name_of_type in type_names {
        put_string(&mut buffer, name_of_type.as_bytes());
    }

    // Verify serialization round-trip
    let mut reader = &buffer[..];
    let count = read_varuint(&mut reader).unwrap();
    assert_eq!(count, type_names.len() as u64);
    for expected in type_names {
        let bytes = read_string(&mut reader).unwrap();
        let actual = String::from_utf8(bytes.to_vec()).unwrap();
        assert_eq!(&actual, expected);
    }
}

// Type name serialization tests
#[test]
fn test_type_names_basic_serialization() {
    let type_names = vec!["Array(Int32)".to_string(), "Date".to_string(), "Float32".to_string()];
    assert_type_names_serialization(&type_names);
}

#[test]
fn test_type_registry_building_with_mixed_values() {
    let values = vec![
        Value::String(b"test".to_vec()),
        Value::Int32(42),
        Value::String(b"another".to_vec()),
        Value::Float64(std::f64::consts::PI.to_bits()),
        Value::Null,
        Value::Int32(99),
    ];
    let (reg_type_names, type_map, total_types) =
        DynamicSerializer::build_type_registry(&values);

    // Verify alphabetical ordering and correct indices
    assert_eq!(reg_type_names, vec!["Float64", "Int32", "String"]);
    assert_eq!(total_types, 3);
    assert_eq!(type_map[0].0, "Float64");
    assert_eq!(type_map[1].0, "Int32");
    assert_eq!(type_map[2].0, "String");
}

#[test]
fn test_type_registry_null_handling() {
    let values = vec![Value::Null, Value::Null, Value::Int32(42)];
    let (type_names, type_map, total_types) = DynamicSerializer::build_type_registry(&values);

    // Only Int32 should be in registry (nulls ignored)
    assert_eq!(type_names, vec!["Int32"]);
    assert_eq!(total_types, 1);
    assert_eq!(type_map[0].0, "Int32");
}

// Value type guessing tests
#[test]
fn test_value_type_guessing_basic_types() {
    let test_cases = vec![
        (Value::Int32(42), "Int32"),
        (Value::String(b"hello".to_vec()), "String"),
        (Value::Float64(std::f64::consts::PI.to_bits()), "Float64"),
        (Value::UInt64(12345), "UInt64"),
        (Value::Float32(1.5f32.to_bits()), "Float32"),
    ];

    for (value, expected_type_name) in test_cases {
        let guessed_type = value.guess_type();
        let name_of_type = guessed_type.to_string();
        assert_eq!(name_of_type, expected_type_name, "For value {value:?}");
    }
}

#[test]
fn test_dynamic_v3_prefix_format() {
    let mut buffer = Vec::new();

    // Write FLATTENED serialization version and type data
    put_u64_le(&mut buffer, DYNAMIC_VERSION_FLATTENED);
    put_var_uint(&mut buffer, 3);

    // Write type names in alphabetical order
    let type_names = vec!["Float64", "Int32", "String"];
    for name in &type_names {
        put_string(&mut buffer, name.as_bytes());
    }

    // Verify round-trip deserialization
    let mut reader = &buffer[..];
    let version = get_u64_le(&mut reader).unwrap();
    assert_eq!(version, DYNAMIC_VERSION_FLATTENED);
    let total_types = read_varuint(&mut reader).unwrap();
    assert_eq!(total_types, 3);
    for expected in &type_names {
        let bytes = read_string(&mut reader).unwrap();
        let actual = String::from_utf8(bytes.to_vec()).unwrap();
        assert_eq!(&actual, expected);
    }
}

#[test]
fn test_homogeneous_nested_arrays() {
    // Test that homogeneous nested arrays work correctly
    let values = vec![
        Value::Array(vec![Value::Int32(1), Value::Int32(2)]),
        Value::Array(vec![
            Value::Array(vec![Value::String(b"a".to_vec()), Value::String(b"b".to_vec())]),
            Value::Array(vec![Value::String(b"c".to_vec()), Value::String(b"d".to_vec())]),
        ]),
        Value::Tuple(vec![
            Value::String(b"name".to_vec()),
            Value::Array(vec![Value::Float64(1.0f64.to_bits()), Value::Float64(2.0f64.to_bits())]),
        ]),
    ];

    let state = DynamicSerializer::analyze_values(&values);

    if let TypeSpecificState::Dynamic(dynamic_state) = state {
        let type_names = dynamic_state.type_names();
        println!("Detected types:");
        for t in &type_names {
            println!("  - {t}");
        }
        assert!(type_names.contains(&"Array(Int32)".to_string()));
        assert!(type_names.contains(&"Array(Array(String))".to_string()));
        assert!(
            type_names.contains(&"Tuple(String, Array(Float64))".to_string())
        );
    } else {
        panic!("Expected Dynamic state");
    }
}

#[test]
fn test_heterogeneous_detection_works() {
    // Test that guess_type() now correctly detects heterogeneous arrays
    let mixed_array = Value::Array(vec![
        Value::Int32(1),
        Value::String(b"mixed".to_vec()),
        Value::Float64(3.14f64.to_bits()),
    ]);

    let guessed = mixed_array.guess_type();
    // Now correctly detects heterogeneous array and wraps in Variant!
    assert_eq!(guessed.to_string(), "Array(Variant(Float64, Int32, String))");
}

#[test]
fn test_evil_heterogeneous_nested_arrays() {
    // The evil case: deeply nested heterogeneous arrays
    let values = vec![
        // Heterogeneous at top level
        Value::Array(vec![
            Value::Int32(42),
            Value::String(b"mixed".to_vec()),
            Value::Float64(3.14f64.to_bits()),
        ]),
        // Even more evil: nested heterogeneous
        Value::Array(vec![
            Value::Int32(1),
            Value::String(b"level1".to_vec()),
            Value::Array(vec![
                Value::Float64(2.71f64.to_bits()),
                Value::Null,
                Value::Array(vec![Value::Int8(99), Value::String(b"deep".to_vec())]),
            ]),
        ]),
    ];

    // This should NOT panic when heterogeneous support is implemented
    let state = DynamicSerializer::analyze_values(&values);

    if let TypeSpecificState::Dynamic(dynamic_state) = state {
        let type_names = dynamic_state.type_names();
        println!("Evil test - detected types:");
        for t in &type_names {
            println!("  - {t}");
        }
        // When working, should detect Variant-wrapped types
        let has_variant = type_names.iter().any(|t| t.contains("Variant"));
        assert!(has_variant, "Should detect heterogeneous arrays and wrap in Variant");
    } else {
        panic!("Expected Dynamic state");
    }
}

#[test]
fn test_heterogeneous_array_guess_type() {
    let evil = Value::Array(vec![
        Value::Int32(42),
        Value::String(b"chaos".to_vec()),
        Value::Array(vec![Value::Float64(3.14f64.to_bits()), Value::Null]),
    ]);

    let guessed = evil.guess_type();
    let type_string = guessed.to_string();

    // Should detect and wrap heterogeneous arrays in Variant
    assert!(type_string.contains("Variant"), "Expected Variant wrapper, got: {type_string}");
}

fn nested_dynamic_rows() -> Vec<Value> {
    vec![
        // Simple types (baseline)
        Value::Int32(42),
        Value::String(b"hello".to_vec()),
        // Homogeneous nested Array
        Value::Array(vec![Value::Int32(1), Value::Int32(2), Value::Int32(3)]),
        // Homogeneous Array of Arrays
        Value::Array(vec![
            Value::Array(vec![Value::Int32(1), Value::Int32(2)]),
            Value::Array(vec![Value::Int32(3), Value::Int32(4)]),
        ]),
        // Tuple with mixed types (but each position has consistent type)
        Value::Tuple(vec![Value::String(b"name".to_vec()), Value::Int32(25), Value::Float64(3.14f64.to_bits())]),
        // Map with homogeneous nested values
        Value::MapOf(vec![Value::String(b"key1".to_vec()), Value::String(b"key2".to_vec())], vec![
            Value::Array(vec![Value::Int32(1), Value::Int32(2)]),
            Value::Array(vec![Value::Int32(3), Value::Int32(4)]),
        ]),
        // Complex nested but still homogeneous: Array of Tuples
        Value::Array(vec![
            Value::Tuple(vec![Value::String(b"item1".to_vec()), Value::Float64(19.99f64.to_bits())]),
            Value::Tuple(vec![Value::String(b"item2".to_vec()), Value::Float64(29.99f64.to_bits())]),
        ]),
        // NULL value
        Value::Null,
    ]
}

fn heterogeneous_dynamic_rows() -> Vec<Value> {
    vec![
        // The evil case: heterogeneous array at top level
        Value::Array(vec![
            Value::Int32(42),
            Value::String(b"mixed".to_vec()),
            Value::Float64(3.14f64.to_bits()),
        ]),
        // Even more evil: nested heterogeneous arrays
        Value::Array(vec![
            Value::Int32(1),
            Value::String(b"level1".to_vec()),
            Value::Array(vec![
                Value::Float64(2.71f64.to_bits()),
                Value::String(b"level2".to_vec()),
                Value::Null,
                Value::Array(vec![
                    Value::Int8(99),
                    Value::UInt64(100),
                    Value::String(b"level3".to_vec()),
                ]),
            ]),
        ]),
        // Heterogeneous inside tuple
        Value::Tuple(vec![
            Value::String(b"normal".to_vec()),
            Value::Array(vec![
                Value::Int32(1),
                Value::String(b"mixed_in_tuple".to_vec()),
                Value::Float32(1.5f32.to_bits()),
            ]),
        ]),
        // Heterogeneous as map values
        Value::MapOf(vec![Value::String(b"chaos".to_vec())], vec![Value::Array(vec![
            Value::Int32(1),
            Value::String(b"mixed_in_map".to_vec()),
            Value::Tuple(vec![Value::Int8(1), Value::Float64(2.0f64.to_bits())]),
        ])]),
    ]
}

#[test]
fn test_homogeneous_nested_type_detection() {

    let rows = nested_dynamic_rows();

    // Analyze the values to build type registry
    let state = DynamicSerializer::analyze_values(&rows);

    if let TypeSpecificState::Dynamic(dynamic_state) = state {
        let type_names = dynamic_state.type_names();

        // Verify we detected all unique types
        assert!(type_names.contains(&"Int32".to_string()));
        assert!(type_names.contains(&"String".to_string()));
        assert!(type_names.contains(&"Array(Int32)".to_string()));
        assert!(type_names.contains(&"Array(Array(Int32))".to_string()));
        assert!(type_names.contains(&"Tuple(String, Int32, Float64)".to_string()));
        assert!(type_names.contains(&"Map(String, Array(Int32))".to_string()));

        // Complex nested types
        assert!(type_names.iter().any(|t| t.contains("Array(Tuple(String, Float64))")));

        println!("Detected {} unique types:", type_names.len());
        for (i, name_of_type) in type_names.iter().enumerate() {
            println!("  {i}: {name_of_type}");
        }
    } else {
        panic!("Expected Dynamic state");
    }
}

#[test]
fn test_recursive_guess_type_homogeneous() {
    // Test deeply nested but homogeneous structure
    let nested = Value::Array(vec![
        Value::Tuple(vec![
            Value::Int32(1),
            Value::MapOf(vec![Value::String(b"key".to_vec())], vec![Value::Array(vec![
                Value::Float64(3.14f64.to_bits()),
                Value::Float64(2.71f64.to_bits()),
            ])]),
        ]),
        Value::Tuple(vec![
            Value::Int32(2),
            Value::MapOf(vec![Value::String(b"key2".to_vec())], vec![Value::Array(vec![
                Value::Float64(1.41f64.to_bits()),
                Value::Float64(1.73f64.to_bits()),
            ])]),
        ]),
    ]);

    let guessed = nested.guess_type();
    let type_string = guessed.to_string();

    // Verify the complete nested type was detected
    assert_eq!(type_string, "Array(Tuple(Int32, Map(String, Array(Float64))))");
}

#[test]
fn test_heterogeneous_array_detection() {

    let rows = heterogeneous_dynamic_rows();

    let state = DynamicSerializer::analyze_values(&rows);

    if let TypeSpecificState::Dynamic(dynamic_state) = state {
        let type_names = dynamic_state.type_names();

        // When implemented, should detect Variant-wrapped types
        assert!(type_names.iter().any(|t| t.contains("Array(Variant")));

        println!("Heterogeneous types detected:");
        for name_of_type in &type_names {
            println!("  {name_of_type}");
        }
    } else {
        panic!("Expected Dynamic state");
    }
}

#[test]
fn test_evil_deeply_nested_heterogeneous() {
    // The ultimate evil: deeply nested with heterogeneous arrays at multiple levels
    let evil = Value::Array(vec![
        Value::Int32(42),
        Value::String(b"chaos".to_vec()),
        Value::Array(vec![
            Value::Float64(3.14f64.to_bits()),
            Value::Null,
            Value::Array(vec![
                Value::Int8(1),
                Value::String(b"deep".to_vec()),
                Value::Tuple(vec![
                    Value::Float32(1.5f32.to_bits()),
                    Value::Array(vec![Value::UInt64(999), Value::String(b"deepest".to_vec())]),
                ]),
            ]),
        ]),
    ]);

    // When working, this should produce something like:
    // Array(Variant(Int32, String, Array(Variant(Float64, Null, Array(Variant(...))))))
    let guessed = evil.guess_type();
    let type_string = guessed.to_string();

    println!("Evil nested type: {type_string}");
    assert!(
        type_string.contains("Variant"),
        "Should detect and wrap heterogeneous arrays in Variant"
    );
}

#[test]
fn test_current_heterogeneous_limitation() {
    // This test verifies that heterogeneous arrays are correctly detected
    // and wrapped in Variant types

    let mixed_array = Value::Array(vec![
        Value::Int32(1),
        Value::String(b"oops".to_vec()),
        Value::Float64(3.14f64.to_bits()),
    ]);

    let guessed = mixed_array.guess_type();

    // Correct behavior: detects all element types and wraps in Variant
    assert_eq!(guessed.to_string(), "Array(Variant(Float64, Int32, String))");
    // Types are sorted alphabetically in the Variant
}

#[test]
fn test_type_registry_sorting() {

    let rows = vec![
        Value::String(b"z".to_vec()),
        Value::Int32(1),
        Value::Array(vec![Value::Int32(1)]),
        Value::Float64(3.14f64.to_bits()),
    ];

    let state = DynamicSerializer::analyze_values(&rows);

    if let TypeSpecificState::Dynamic(dynamic_state) = state {
        let type_names = dynamic_state.type_names();

        // Verify alphabetical ordering
        assert_eq!(type_names[0], "Array(Int32)");
        assert_eq!(type_names[1], "Float64");
        assert_eq!(type_names[2], "Int32");
        assert_eq!(type_names[3], "String");
    }
}

fn state_of(values: &Vec<Value>) -> SerializerState {
    SerializerState {
        type_specific: DynamicSerializer::analyze_values(values),
        ..Default::default()
    }
}

fn check_server_version(version: Option<(u64, u64, u64)>, should_succeed: bool) {
    let values = vec![Value::Int32(42), Value::String(b"test".to_vec())];
    let mut state = state_of(&values);
    state.server_version = version;
    let mut buffer = Vec::new();
    let result = DynamicSerializer::write_prefix_sync(&mut buffer, &state);
    if should_succeed {
        assert!(result.is_ok());
        assert!(!buffer.is_empty());
    } else {
        let err = result.unwrap_err();
        let (major, minor, _) = version.unwrap();
        assert_eq!(
            err,
            Error::SerializeError(WriteReason::ServerTooOld(ComplexType::Dynamic, major, minor))
        );
        assert!(err.to_string().ends_with(&format!(
            "Dynamic type requires ClickHouse server version >= 25.6, got {major}.{minor}"
        )));
        assert!(err.to_string().contains("requires ClickHouse server version >= 25.6"));
    }
}

#[test]
fn test_version_check_no_version_info() {
    check_server_version(None, true);
}

#[test]
fn test_version_check_too_old_major() {
    check_server_version(Some((24, 12, 0)), false);
}

#[test]
fn test_version_check_too_old_minor_25_1() {
    check_server_version(Some((25, 1, 0)), false);
}

#[test]
fn test_version_check_too_old_minor_25_5() {
    check_server_version(Some((25, 5, 0)), false);
}

#[test]
fn test_version_check_minimum_supported() {
    check_server_version(Some((25, 6, 0)), true);
}

#[test]
fn test_version_check_newer_supported_25_7() {
    check_server_version(Some((25, 7, 0)), true);
}

#[test]
fn test_version_check_newer_supported_26_0() {
    check_server_version(Some((26, 0, 0)), true);
}

#[test]
fn test_dynamic_prefix_writing_integration() {
    let values = vec![
        Value::Int32(42),
        Value::String(b"hello".to_vec()),
        Value::Float64(std::f64::consts::PI.to_bits()),
    ];
    let mut buffer = Vec::new();
    DynamicSerializer::write_prefix_sync(&mut buffer, &state_of(&values)).unwrap();
    let mut reader = &buffer[..];
    assert_eq!(get_u64_le(&mut reader).unwrap(), DYNAMIC_VERSION_FLATTENED);
    assert_eq!(read_varuint(&mut reader).unwrap(), 3);
}

fn check_discriminator(total_types: usize, expected_bytes: usize) {
    let mut buffer = Vec::new();
    write_discriminator_sync(&mut buffer, 0, total_types);
    assert_eq!(buffer.len(), expected_bytes);
    let last = (total_types - 1) as u64;
    buffer.clear();
    write_discriminator_sync(&mut buffer, last, total_types);
    assert_eq!(buffer.len(), expected_bytes);
    let mut reader = &buffer[..];
    assert_eq!(read_discriminator(&mut reader, total_types as u64).unwrap(), last);
}

#[test]
fn test_discriminator_u8_small() {
    check_discriminator(100, 1);
}

#[test]
fn test_discriminator_u8_max() {
    check_discriminator(255, 1);
}

#[test]
fn test_discriminator_u16_min() {
    check_discriminator(256, 2);
}

#[test]
fn test_discriminator_u16_max() {
    check_discriminator(65535, 2);
}

#[test]
fn test_discriminator_u32_min() {
    check_discriminator(65536, 4);
}

#[test]
fn test_discriminator_u32_max() {
    check_discriminator(4_294_967_295_usize, 4);
}

#[test]
fn test_discriminator_u64_range() {
    let total_types = 4_294_967_296_usize;
    let mut buffer = Vec::new();
    write_discriminator_sync(&mut buffer, 0, total_types);
    assert_eq!(buffer.len(), 8, "Should use u64 for very large total_types");
    check_discriminator(total_types, 8);
}

#[test]
fn test_discriminator_size() {
    let test_cases: Vec<(u64, usize)> = vec![
        (100, 1),
        (255, 1),
        (256, 2),
        (65535, 2),
        (65536, 4),
        (4_294_967_295, 4),
        (4_294_967_296, 8),
    ];

    for (total_types, expected_size) in test_cases {
        let mut buffer = Vec::new();
        write_discriminator_sync(&mut buffer, 0, total_types as usize);
        let size = buffer.len();
        assert_eq!(size, expected_size, "Failed for total_types: {total_types}");
    }
}

#[test]
fn dynamic_values_are_read_back() {
    let values = vec![
        Value::Int32(7),
        Value::Null,
        Value::String(b"seven".to_vec()),
        Value::Int32(-7),
        Value::Array(vec![Value::Int32(1), Value::Int32(2)]),
    ];
    let state = state_of(&values);
    let mut buffer = Vec::new();
    DynamicSerializer::write_prefix_sync(&mut buffer, &state).unwrap();
    DynamicSerializer::write_sync(&values, &mut buffer, &state).unwrap();

    let mut reader = &buffer[..];
    let mut reading = DeserializerState::default();
    DynamicDeserializer::read_prefix(&mut reader, &mut reading).unwrap();
    let back = DynamicDeserializer::read(&mut reader, values.len(), &reading).unwrap();
    assert_eq!(reader.len(), 0);
    assert_eq!(back, values);
}

#[test]
fn the_first_types_of_a_dynamic_column_are_written_by_name() {
    let values = vec![Value::String(b"a".to_vec()), Value::Int32(1)];
    let mut buffer = Vec::new();
    DynamicSerializer::write_prefix_sync(&mut buffer, &state_of(&values)).unwrap();
    let mut expected = vec![3, 0, 0, 0, 0, 0, 0, 0, 2, 5];
    expected.extend_from_slice(b"Int32");
    expected.push(6);
    expected.extend_from_slice(b"String");
    assert_eq!(buffer, expected);
}

#[test]
fn dynamic_data_needs_what_stands_before_it() {
    let mut buffer = Vec::new();
    let state = SerializerState::default();
    let result = DynamicSerializer::write_prefix_sync(&mut buffer, &state);
    assert_eq!(result.unwrap_err(), Error::SerializeError(WriteReason::StateNotSet));
    let mut reader = &buffer[..];
    let result = DynamicDeserializer::read(&mut reader, 1, &DeserializerState::default());
    assert_eq!(result.unwrap_err(), Error::DeserializeError(ReadReason::StateNotSet));
}

#[test]
fn unknown_versions_of_dynamic_columns_are_refused() {
    let mut reader: &[u8] = &[9, 0, 0, 0, 0, 0, 0, 0];
    let result = DynamicDeserializer::read_prefix(&mut reader, &mut DeserializerState::default());
    assert_eq!(result.unwrap_err(), Error::DeserializeError(ReadReason::UnsupportedVersion));
}

#[test]
fn offsets_count_each_discriminator() {
    let (offsets, counts) = build_offsets(&vec![1, 0, 1, 2, 1], 2);
    assert_eq!(offsets, vec![0, 0, 1, 0, 2]);
    assert_eq!(counts.get(&0), Some(&1));
    assert_eq!(counts.get(&1), Some(&3));
}

#[test]
fn type_entries_are_names_of_types() {
    let (name, ty) = parse_type_entry(b"Array(UInt8)".to_vec()).unwrap();
    assert_eq!(name, "Array(UInt8)");
    assert_eq!(ty, Type::Array(Box::new(Type::UInt8)));
    assert_eq!(
        parse_type_entry(vec![0xff]).unwrap_err(),
        Error::DeserializeError(ReadReason::InvalidUtf8)
    );
}

#[test]
fn rows_are_made_as_far_as_there_are_discriminators_and_offsets() {
    let columns = vec![vec![Value::Int8(1), Value::Int8(2)]];
    let rows = |ds: Vec<u64>, offsets: Vec<usize>| {
        DynamicDeserializer::reconstruct_values(&ds, &offsets, &columns, 1).unwrap()
    };
    assert_eq!(rows(vec![0, 1, 7], vec![1, 0]), vec![Value::Int8(2), Value::Null]);
    assert_eq!(rows(vec![0], vec![0, 9]), vec![Value::Int8(1)]);
}
