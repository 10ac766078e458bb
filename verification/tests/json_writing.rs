//! Columns of JSON documents, written and read back.
use clickhouse_arrow::column_read::DeserializerState;
use clickhouse_arrow::error::{ComplexType, Error, Result, WriteReason};
use clickhouse_arrow::json_columns::{
    JsonSerializer, JsonState, JSON_OBJECT_VERSION_FLATTENED, JSON_OBJECT_VERSION_V1,
    JSON_OBJECT_VERSION_V2,
};
use clickhouse_arrow::json_read::JsonDeserializer;
use clickhouse_arrow::json_text::parse_json;
use clickhouse_arrow::json_value::JsonValue;
use clickhouse_arrow::state::{SerializerState, TypeSpecificState};
use clickhouse_arrow::types::Type;
use clickhouse_arrow::values::Value;
use clickhouse_arrow::wire::get_u64_le;

/// A document as `serde_json` holds it.
fn plain(j: &JsonValue) -> serde_json::Value {
    j.to_serde()
}

fn parsed(text: &str) -> serde_json::Value {
    serde_json::from_str(text).unwrap()
}

fn default_json_type() -> Type {
    Type::JSON {
        max_dynamic_paths: None,
        max_dynamic_types: None,
        typed_paths: vec![],
        skip_exact: vec![],
        skip_regex: vec![],
    }
}

fn json_type_with_config(
    typed_paths: Vec<(String, Box<Type>)>,
    skip_exact: Vec<String>,
    skip_regex: Vec<String>,
    max_dynamic_paths: Option<u32>,
) -> Type {
    Type::JSON { max_dynamic_paths, max_dynamic_types: None, typed_paths, skip_exact, skip_regex }
}

fn parse_json_value(v: &Value) -> serde_json::Value {
    match v {
        Value::Json(json) => plain(json),
        Value::Object(bytes) | Value::String(bytes) => serde_json::from_slice(bytes).unwrap(),
        other => panic!("Unexpected value type: {other:?}"),
    }
}

fn analyzed_with_version(
    values: &Vec<Value>,
    type_: &Type,
    version: Option<u64>,
) -> Result<TypeSpecificState> {
    Ok(TypeSpecificState::Json(JsonSerializer::analyze_values_with_version(values, type_, version)?))
}

fn analyzed(values: &Vec<Value>, type_: &Type) -> TypeSpecificState {
    TypeSpecificState::Json(JsonSerializer::analyze_values(values, type_).unwrap())
}

fn roundtrip(values: &Vec<Value>, type_: &Type) -> Result<Vec<Value>> {
    roundtrip_with_version(values, type_, None)
}

fn roundtrip_with_version(
    values: &Vec<Value>,
    type_: &Type,
    version: Option<u64>,
) -> Result<Vec<Value>> {
    let mut output = vec![];
    let mut state = SerializerState::default();
    state.type_specific = analyzed_with_version(values, type_, version)?;
    JsonSerializer::write_prefix(&mut output, &mut state)?;
    JsonSerializer::write(&mut output, &mut state)?;

    let mut input = &output[..];
    let mut deser_state = DeserializerState::default();
    JsonDeserializer::read_prefix(type_, &mut input, &mut deser_state)?;
    let out = JsonDeserializer::read(&mut input, values.len(), &deser_state)?;
    assert_eq!(input.len(), 0);
    Ok(out)
}

fn typed_column<'a>(state: &'a JsonState, path: &str) -> Option<&'a Vec<Value>> {
    state.typed_paths.iter().position(|(name, _)| name == path).map(|i| &state.typed_path_columns[i])
}

#[test]
fn test_json_roundtrip_various_shapes() {
    // Test multiple JSON shapes in one test
    let test_cases: Vec<(&str, Vec<Value>)> = vec![
        ("simple objects", vec![
            Value::String(br#"{"name": "Alice", "age": 30}"#.to_vec()),
            Value::String(br#"{"name": "Bob", "age": 25}"#.to_vec()),
        ]),
        ("nested objects", vec![
            Value::String(br#"{"user": {"name": "Alice"}, "active": true}"#.to_vec()),
            Value::String(br#"{"user": {"name": "Bob"}, "score": 95.5}"#.to_vec()),
        ]),
        ("mixed types", vec![
            Value::String(br#"{"id": 1, "name": "test", "active": true}"#.to_vec()),
            Value::String(br#"{"id": 2, "score": 88.1, "metadata": "extra"}"#.to_vec()),
        ]),
        ("with nulls", vec![
            Value::String(br#"{"name": "Alice"}"#.to_vec()),
            Value::Null,
            Value::String(br#"{"name": "Bob"}"#.to_vec()),
        ]),
        ("empty objects", vec![
            Value::String(br#"{}"#.to_vec()),
            Value::String(br#"{"name": "test"}"#.to_vec()),
        ]),
    ];

    let type_ = default_json_type();
    for (name, values) in test_cases {
        let result = roundtrip(&values, &type_);
        assert!(result.is_ok(), "Failed on case '{name}': {:?}", result.err());
        assert_eq!(result.unwrap().len(), values.len(), "Length mismatch for '{name}'");
    }
}

#[test]
fn test_json_wire_format_uses_v3() {
        let values = vec![
        Value::String(br#"{"name": "Alice", "age": 30}"#.to_vec()),
        Value::String(br#"{"name": "Bob", "score": 95.5}"#.to_vec()),
    ];

    let type_ = default_json_type();
    let mut output = vec![];
    let mut state = SerializerState::default();
    state.type_specific = analyzed(&values, &type_);
    JsonSerializer::write_prefix(&mut output, &mut state).unwrap();
    JsonSerializer::write(&mut output, &mut state).unwrap();

    let mut cursor = &output[..];
    let version = get_u64_le(&mut cursor).unwrap();

    assert_eq!(version, JSON_OBJECT_VERSION_FLATTENED);
    assert!(output[8] > 0, "Should have dynamic paths");
}

// ========== Typed Paths Tests ==========

#[test]
fn test_json_typed_paths_extraction_and_roundtrip() {
    let values = vec![
        Value::String(br#"{"id": 123, "name": "Alice", "score": 95.5}"#.to_vec()),
        Value::String(br#"{"id": 456, "name": "Bob", "active": true}"#.to_vec()),
        Value::String(br#"{"id": 789, "name": "Charlie", "tags": ["a", "b"]}"#.to_vec()),
    ];

    let type_ = json_type_with_config(
        vec![
            ("id".to_string(), Box::new(Type::UInt32)),
            ("name".to_string(), Box::new(Type::String)),
        ],
        vec![],
        vec![],
        None,
    );

    // Verify extraction
    let state = analyzed(&values, &type_);
    if let TypeSpecificState::Json(json_state) = &state {
        assert_eq!(json_state.typed_paths.len(), 2);
        assert!(!json_state.dynamic_paths().contains(&"id".to_string()));
        assert!(!json_state.dynamic_paths().contains(&"name".to_string()));

        assert!(typed_column(json_state, "id").is_some());
        assert!(typed_column(json_state, "name").is_some());
    } else {
        panic!("Expected JSON state");
    }

    // Verify roundtrip
    let result = roundtrip(&values, &type_).unwrap();
    assert_eq!(result.len(), values.len());

    for (orig, deser) in values.iter().zip(result.iter()) {
        let orig_json = parse_json_value(orig);
        let deser_json = parse_json_value(deser);
        assert_eq!(orig_json["id"], deser_json["id"]);
        assert_eq!(orig_json["name"], deser_json["name"]);
    }
}

#[test]
fn test_json_typed_paths_type_conversions() {
    let values = vec![
        Value::String(br#"{"i8": 127, "u8": 255, "f32": 3.14, "f64": 2.71828}"#.to_vec()),
        Value::String(br#"{"i8": -128, "u8": 0, "f32": -1.23, "f64": -9.876}"#.to_vec()),
    ];

    let type_ = json_type_with_config(
        vec![
            ("i8".to_string(), Box::new(Type::Int8)),
            ("u8".to_string(), Box::new(Type::UInt8)),
            ("f32".to_string(), Box::new(Type::Float32)),
            ("f64".to_string(), Box::new(Type::Float64)),
        ],
        vec![],
        vec![],
        None,
    );

    let result = roundtrip(&values, &type_).unwrap();
    for v in &result {
        let json = parse_json_value(v);
        assert!(json["i8"].is_number());
        assert!(json["u8"].is_number());
        assert!(json["f32"].is_number());
        assert!(json["f64"].is_number());
    }
    let json0 = parse_json_value(&result[0]);
    assert_eq!(json0["i8"], 127);
    assert_eq!(json0["u8"], 255);

}

#[test]
fn test_json_typed_paths_overflow_wrapping() {
    let values = vec![Value::String(br#"{"overflow_u8": 256, "negative_to_u8": -1}"#.to_vec())];

    let type_ = json_type_with_config(
        vec![
            ("overflow_u8".to_string(), Box::new(Type::UInt8)),
            ("negative_to_u8".to_string(), Box::new(Type::UInt8)),
        ],
        vec![],
        vec![],
        None,
    );

    let result = roundtrip(&values, &type_).unwrap();
    let json = parse_json_value(&result[0]);
    assert_eq!(json["overflow_u8"], 0); // 256 wraps to 0
    assert_eq!(json["negative_to_u8"], 255); // -1 wraps to 255

}

#[test]
fn test_json_typed_paths_collections() {
    let values = vec![Value::String(
        br#"{"int_arr": [1, 2, 3], "nested": [[1, 2], [3, 4]], "tuple": [100, 3.14, "hi"]}"#
            .to_vec(),
    )];

    let type_ = json_type_with_config(
        vec![
            ("int_arr".to_string(), Box::new(Type::Array(Box::new(Type::Int32)))),
            (
                "nested".to_string(),
                Box::new(Type::Array(Box::new(Type::Array(Box::new(Type::Int32))))),
            ),
            (
                "tuple".to_string(),
                Box::new(Type::Tuple(vec![Type::UInt32, Type::Float32, Type::String])),
            ),
        ],
        vec![],
        vec![],
        None,
    );

    let result = roundtrip(&values, &type_).unwrap();
    let json = parse_json_value(&result[0]);

    assert_eq!(json["int_arr"][0], 1);
    assert_eq!(json["nested"][0][0], 1);
    assert_eq!(json["tuple"][0], 100);
    assert_eq!(json["tuple"][2], "hi");

}

#[test]
fn test_json_typed_paths_variant_in_array() {
    let values = vec![
        Value::String(br#"{"items": [1, "text", 3.14]}"#.to_vec()),
        Value::String(br#"{"items": ["hello", 42]}"#.to_vec()),
    ];

    let type_ = json_type_with_config(
        vec![(
            "items".to_string(),
            Box::new(Type::Array(Box::new(Type::Variant(vec![
                Type::String,
                Type::Int64,
                Type::Float64,
            ])))),
        )],
        vec![],
        vec![],
        None,
    );

    // Verify analysis produces correct structure
    let state = analyzed(&values, &type_);
    if let TypeSpecificState::Json(json_state) = &state {
        let items = typed_column(json_state, "items").unwrap();
        assert_eq!(items.len(), 2);

        for array_val in items {
            if let Value::Array(elements) = array_val {
                for elem in elements {
                    assert!(matches!(elem, Value::Variant(_, _)));
                }
            }
        }
    }

    // Verify prefix serialization works
    let mut output = vec![];
    let mut ser_state = SerializerState::default();
    ser_state.type_specific = state;
    JsonSerializer::write_prefix(&mut output, &mut ser_state).unwrap();
    assert!(!output.is_empty());

}

#[test]
fn test_json_typed_paths_variant_type_mismatch_error() {
    let values = vec![Value::String(br#"{"strict_int": "not_a_number"}"#.to_vec())];

    let type_ = json_type_with_config(
        vec![(
            "strict_int".to_string(),
            Box::new(Type::Variant(vec![Type::UInt32, Type::Int32])),
        )],
        vec![],
        vec![],
        None,
    );

    let result = JsonSerializer::analyze_values(&values, &type_);
    assert!(result.is_err());
    let err = result.unwrap_err().to_string();
    assert!(err.contains("Cannot find matching variant type"));

}

// ========== Skip Paths Tests ==========

#[test]
fn test_json_skip_paths() {
    let values = vec![
        Value::String(
            br#"{"public": "data", "password": "secret", "api_key": "xyz"}"#.to_vec(),
        ),
        Value::String(br#"{"public": "info", "secret_token": "abc"}"#.to_vec()),
    ];

    let type_ = json_type_with_config(
        vec![],
        vec!["password".to_string()],
        vec![".*_key".to_string(), "secret.*".to_string()],
        None,
    );

    // Verify analysis excludes skipped paths
    let state = analyzed(&values, &type_);
    if let TypeSpecificState::Json(json_state) = &state {
        assert_eq!(json_state.dynamic_paths().len(), 1);
        assert!(json_state.dynamic_paths().contains(&"public".to_string()));
        assert!(!json_state.dynamic_paths().contains(&"password".to_string()));
        assert!(!json_state.dynamic_paths().contains(&"api_key".to_string()));
        assert!(!json_state.dynamic_paths().contains(&"secret_token".to_string()));
    }

    // Verify roundtrip excludes skipped paths
    let result = roundtrip(&values, &type_).unwrap();
    for v in &result {
        let json = parse_json_value(v);
        assert!(!json["public"].is_null());
        assert!(json["password"].is_null());
        assert!(json["api_key"].is_null());
        assert!(json["secret_token"].is_null());
    }

}

#[test]
fn test_json_typed_and_skip_paths_combined() {
    let values = vec![Value::String(
        br#"{"id": 1, "name": "Alice", "password": "secret", "score": 95}"#.to_vec(),
    )];

    let type_ = json_type_with_config(
        vec![
            ("id".to_string(), Box::new(Type::UInt32)),
            ("name".to_string(), Box::new(Type::String)),
        ],
        vec!["password".to_string()],
        vec![],
        None,
    );

    let state = analyzed(&values, &type_);
    if let TypeSpecificState::Json(json_state) = &state {
        assert_eq!(json_state.typed_paths.len(), 2);
        assert!(json_state.dynamic_paths().contains(&"score".to_string()));
        assert!(!json_state.dynamic_paths().contains(&"password".to_string()));
        assert!(!json_state.dynamic_paths().contains(&"id".to_string()));
    }

}

// ========== V1/V2/V3 Format Tests ==========

#[test]
fn test_json_v1_format() {
    let values = vec![
        Value::String(br#"{"a": 1, "b": "hello"}"#.to_vec()),
        Value::String(br#"{"a": 2, "c": true}"#.to_vec()),
    ];
    let type_ = default_json_type();

    // Verify prefix format
    let mut output = vec![];
    let mut state = SerializerState::default();
    state.type_specific =
        analyzed_with_version(&values, &type_, Some(JSON_OBJECT_VERSION_V1)).unwrap();
    JsonSerializer::write_prefix(&mut output, &mut state).unwrap();

    let mut reader = &output[..];
    let version = get_u64_le(&mut reader).unwrap();
    assert_eq!(version, JSON_OBJECT_VERSION_V1);
    // V1 has max_dynamic_paths first (1024 as varuint = 0x80 0x08)
    assert_eq!(reader[0], 0x80);
    assert_eq!(reader[1], 0x08);

    // Verify roundtrip
    let result =
        roundtrip_with_version(&values, &type_, Some(JSON_OBJECT_VERSION_V1)).unwrap();
    assert_eq!(result.len(), values.len());

}

#[test]
fn test_json_v2_format() {
    let values = vec![
        Value::String(br#"{"name": "Alice", "age": 30}"#.to_vec()),
        Value::String(br#"{"name": "Bob", "score": 95.5}"#.to_vec()),
    ];
    let type_ = default_json_type();

    // Verify prefix format
    let mut output = vec![];
    let mut state = SerializerState::default();
    state.type_specific =
        analyzed_with_version(&values, &type_, Some(JSON_OBJECT_VERSION_V2)).unwrap();
    JsonSerializer::write_prefix(&mut output, &mut state).unwrap();

    let mut reader = &output[..];
    let version = get_u64_le(&mut reader).unwrap();
    assert_eq!(version, JSON_OBJECT_VERSION_V2);
    // V2 has no max_dynamic_paths, just num_paths
    assert_eq!(reader[0], 3); // 3 paths: age, name, score

    // Verify roundtrip
    let result =
        roundtrip_with_version(&values, &type_, Some(JSON_OBJECT_VERSION_V2)).unwrap();
    assert_eq!(result.len(), values.len());

}

#[test]
fn test_json_v2_path_frequency_selection() {
    // With max_dynamic_paths=2, only most frequent paths become dynamic
    let values = vec![
        Value::String(br#"{"frequent": 1, "common": 10, "rare1": 100}"#.to_vec()),
        Value::String(br#"{"frequent": 2, "common": 20, "rare2": 200}"#.to_vec()),
        Value::String(br#"{"frequent": 3, "rare3": 300}"#.to_vec()),
    ];

    let type_ = json_type_with_config(vec![], vec![], vec![], Some(2));
    let state = analyzed_with_version(&values, &type_, Some(JSON_OBJECT_VERSION_V2)).unwrap();

    if let TypeSpecificState::Json(json_state) = &state {
        assert_eq!(json_state.dynamic_paths().len(), 2);
        assert!(json_state.dynamic_paths().contains(&"frequent".to_string()));
        assert!(json_state.dynamic_paths().contains(&"common".to_string()));

        let shared = json_state.shared_path_columns.as_ref().unwrap();
        assert_eq!(shared.len(), 3);
        assert!(shared.iter().any(|(name, _)| name == "rare1"));
        assert!(shared.iter().any(|(name, _)| name == "rare2"));
        assert!(shared.iter().any(|(name, _)| name == "rare3"));
    }

}

#[test]
fn test_json_v2_shared_data_roundtrip() {
    let values = vec![
        Value::String(br#"{"main": 1, "overflow": 100}"#.to_vec()),
        Value::String(br#"{"main": 2, "overflow": 200}"#.to_vec()),
        Value::String(br#"{"main": 3}"#.to_vec()),
    ];

    let type_ = json_type_with_config(vec![], vec![], vec![], Some(1));
    let result =
        roundtrip_with_version(&values, &type_, Some(JSON_OBJECT_VERSION_V2)).unwrap();
    assert_eq!(result.len(), values.len());

    for v in &result {
        match v {
            Value::Object(_) | Value::String(_) | Value::Dynamic(_, _) => {}
            Value::Json(_) => {}
            other => panic!("Unexpected value type: {other:?}"),
        }
    }

}

#[test]
fn test_json_v2_no_overflow_when_under_limit() {
    let values = vec![Value::String(br#"{"a": 1, "b": 2}"#.to_vec())];

    let type_ = json_type_with_config(vec![], vec![], vec![], Some(10)); // limit > paths
    let state = analyzed_with_version(&values, &type_, Some(JSON_OBJECT_VERSION_V2)).unwrap();

    if let TypeSpecificState::Json(json_state) = &state {
        assert_eq!(json_state.dynamic_paths().len(), 2);
        assert!(json_state.shared_path_columns.is_none());
    }

}

#[test]
fn test_json_v3_ignores_max_dynamic_paths() {
    let values = vec![Value::String(br#"{"a": 1, "b": 2, "c": 3, "d": 4, "e": 5}"#.to_vec())];

    let type_ = json_type_with_config(vec![], vec![], vec![], Some(2)); // would limit V1/V2
    let state = analyzed_with_version(&values, &type_, None).unwrap(); // V3

    if let TypeSpecificState::Json(json_state) = &state {
        assert_eq!(json_state.dynamic_paths().len(), 5); // V3 sends all
        assert!(json_state.shared_path_columns.is_none());
    }

}

#[test]
fn test_json_analyze_values_returns_json_state() {
    let values = vec![
        Value::String(br#"{"name": "Alice"}"#.to_vec()),
        Value::String(br#"{"name": "Bob", "score": 95}"#.to_vec()),
    ];

    let type_ = default_json_type();
    let state = analyzed(&values, &type_);

    assert!(matches!(state, TypeSpecificState::Json(_)));
}

#[test]
fn test_json_string_to_numeric_parsing() {
    let values = vec![Value::String(
        br#"{"str_int": "123", "str_float": "3.14", "digit": "0"}"#.to_vec(),
    )];

    let type_ = json_type_with_config(
        vec![
            ("str_int".to_string(), Box::new(Type::Int32)),
            ("str_float".to_string(), Box::new(Type::Float64)),
            ("digit".to_string(), Box::new(Type::UInt8)),
        ],
        vec![],
        vec![],
        None,
    );

    let result = roundtrip(&values, &type_).unwrap();
    let json = parse_json_value(&result[0]);

    assert_eq!(json["str_int"], 123);
    assert_eq!(json["str_float"], 3.14);
    assert_eq!(json["digit"], 0);

}

// ========== ClickHouse Discriminator Ordering ==========

#[test]
fn test_json_typed_paths_variant_discriminator_ordering() {
    // ClickHouse sorts variant types alphabetically: Int64 (disc=0), String (disc=1)
    let values = vec![
        Value::String(br#"{"a": ["b0"]}"#.to_vec()),
        Value::String(br#"{"a": ["b1"]}"#.to_vec()),
    ];

    let type_ = json_type_with_config(
        vec![(
            "a".to_string(),
            Box::new(Type::Array(Box::new(Type::Variant(vec![Type::String, Type::Int64])))),
        )],
        vec![],
        vec![],
        None,
    );

    let state = analyzed(&values, &type_);
    if let TypeSpecificState::Json(json_state) = &state {
        let a_column = typed_column(json_state, "a").unwrap();

        for array_val in a_column {
            if let Value::Array(arr) = array_val {
                if let Some(Value::Variant(discriminator, _)) = arr.first() {
                    // String values get discriminator 1 (Int64=0, String=1 alphabetically)
                    assert_eq!(*discriminator, 1);
                }
            }
        }
    }

}

#[test]
fn test_json_typed_paths_defaults_behavior() {
    let values_uint = vec![
        Value::String(br#"{"name": "Alice"}"#.to_vec()),
        Value::String(br#"{"name": "Bob", "id": 42}"#.to_vec()),
    ];
    let type_uint = json_type_with_config(
        vec![("id".to_string(), Box::new(Type::UInt32))],
        vec![],
        vec![],
        None,
    );
    let result = roundtrip(&values_uint, &type_uint).unwrap();
    assert_eq!(parse_json_value(&result[0])["id"], 0);
    assert_eq!(parse_json_value(&result[1])["id"], 42);

    // LowCardinality(String) non-nullable defaults to ""
    let values_lc = vec![
        Value::String(br#"{"name": "Alice"}"#.to_vec()),
        Value::String(br#"{"name": "Bob", "status": "ok"}"#.to_vec()),
    ];
    let type_lc = json_type_with_config(
        vec![("status".to_string(), Box::new(Type::LowCardinality(Box::new(Type::String))))],
        vec![],
        vec![],
        None,
    );
    let result = roundtrip(&values_lc, &type_lc).unwrap();
    assert_eq!(parse_json_value(&result[0])["status"], "");
    assert_eq!(parse_json_value(&result[1])["status"], "ok");

    let values_var = vec![
        Value::String(br#"{"name": "Alice"}"#.to_vec()),
        Value::String(br#"{"name": "Bob", "value": "x"}"#.to_vec()),
        Value::String(br#"{"name": "Carol", "value": 7}"#.to_vec()),
    ];
    let type_var = json_type_with_config(
        vec![("value".to_string(), Box::new(Type::Variant(vec![Type::String, Type::UInt64])))],
        vec![],
        vec![],
        None,
    );
    let result = roundtrip(&values_var, &type_var).unwrap();
    assert!(parse_json_value(&result[0])["value"].is_null());
    assert_eq!(parse_json_value(&result[1])["value"], "x");
    assert_eq!(parse_json_value(&result[2])["value"], 7);
}

#[test]
fn json_documents_are_read_back_in_every_version() {
    let values = vec![
        Value::String(br#"{"a": {"b": 1, "c": "x"}, "d": 2.5}"#.to_vec()),
        Value::String(br#"{"a": {"b": -4}, "e": [1, 2]}"#.to_vec()),
    ];
    let type_ = json_type_with_config(vec![], vec![], vec![], Some(2));
    for version in [None, Some(JSON_OBJECT_VERSION_V1), Some(JSON_OBJECT_VERSION_V2)] {
        let result = roundtrip_with_version(&values, &type_, version).unwrap();
        let first = parse_json_value(&result[0]);
        assert_eq!(first["a"]["b"], 1);
        assert_eq!(first["a"]["c"], "x");
        assert_eq!(first["d"], 2.5);
        let second = parse_json_value(&result[1]);
        assert_eq!(second["a"]["b"], -4);
        assert_eq!(second["e"], parsed("[1, 2]"));
    }
}

#[test]
fn equally_frequent_paths_are_kept_by_name() {
    let values = vec![Value::String(br#"{"b": 1, "a": 2, "c": 3}"#.to_vec())];
    let type_ = json_type_with_config(vec![], vec![], vec![], Some(2));
    let state =
        JsonSerializer::analyze_values_with_version(&values, &type_, Some(JSON_OBJECT_VERSION_V2))
            .unwrap();
    assert_eq!(state.dynamic_paths(), vec!["a", "b"]);
    let shared = state.shared_path_columns.unwrap();
    assert_eq!(shared.len(), 1);
    assert_eq!(shared[0].0, "c");
}

#[test]
fn what_cannot_be_a_column_of_documents_is_refused() {
    let values = vec![Value::String(b"{}".to_vec())];
    assert_eq!(
        JsonSerializer::analyze_values(&values, &Type::String).unwrap_err(),
        Error::SerializeError(WriteReason::ExpectedJsonType)
    );
    let bad = json_type_with_config(vec![], vec![], vec!["(".to_string()], None);
    assert_eq!(
        JsonSerializer::analyze_values(&values, &bad).unwrap_err(),
        Error::SerializeError(WriteReason::InvalidSkipPattern)
    );
    assert_eq!(
        JsonSerializer::analyze_values(&vec![Value::Int8(1)], &default_json_type()).unwrap_err(),
        Error::SerializeError(WriteReason::ExpectedJsonValue)
    );
    assert!(JsonSerializer::analyze_values(
        &vec![Value::String(b"{".to_vec())],
        &default_json_type()
    )
    .is_err());
}

#[test]
fn old_servers_do_not_take_flattened_documents() {
    assert!(JsonSerializer::check_server_version(Some((25, 6, 0)), 3).is_ok());
    assert_eq!(
        JsonSerializer::check_server_version(Some((25, 5, 9)), 3).unwrap_err(),
        Error::SerializeError(WriteReason::ServerTooOld(ComplexType::Json, 25, 5))
    );
    assert!(JsonSerializer::check_server_version(None, 3).is_ok());
    assert!(JsonSerializer::check_server_version(Some((24, 1, 0)), 0).is_ok());
}

#[test]
fn objects_in_arrays_become_their_texts() {
    let document = parse_json(b"{\"a\": [{\"y\": 1, \"x\": []}]}").unwrap();
    let state = JsonSerializer::analyze_values(
        &vec![Value::Json(document)],
        &default_json_type(),
    )
    .unwrap();
    assert_eq!(
        state.dynamic_path_columns[0].1[0],
        Value::Array(vec![Value::string("{\"x\":[],\"y\":1}")])
    );
}

#[test]
fn writing_keeps_the_version_and_takes_the_columns() {
    let values = vec![Value::String(br#"{"a": 1}"#.to_vec())];
    let type_ = default_json_type();
    let mut state = SerializerState::default();
    state.type_specific = analyzed(&values, &type_);
    let mut output = vec![];
    JsonSerializer::write_prefix(&mut output, &mut state).unwrap();
    JsonSerializer::write(&mut output, &mut state).unwrap();
    match state.type_specific {
        TypeSpecificState::Json(st) => {
            assert_eq!(st.version, Some(JSON_OBJECT_VERSION_FLATTENED));
            assert_eq!(st.dynamic_paths(), vec!["a"]);
            assert!(st.dynamic_path_columns[0].1.is_empty());
            assert!(st.shared_path_columns.is_none());
        }
        _ => panic!("Expected JSON state"),
    }
}

#[test]
fn documents_come_back_without_nulls_and_skipped_paths() {
    let document = |s: &str| Value::Json(parse_json(s.as_bytes()).unwrap());
    let values = vec![document(r#"{"a": null, "b": {"c": true, "s": "x"}, "d": {"e": null}}"#)];
    let type_ = json_type_with_config(vec![], vec!["b.s".to_string()], vec![], Some(0));
    for version in [None, Some(JSON_OBJECT_VERSION_V1), Some(JSON_OBJECT_VERSION_V2)] {
        let result = roundtrip_with_version(&values, &type_, version).unwrap();
        assert_eq!(parse_json_value(&result[0]), parsed(r#"{"b": {"c": 1}}"#));
    }
}

#[test]
fn typed_columns_that_were_taken_out_are_written_as_nulls() {
    let typed = vec![("id".to_string(), Box::new(Type::UInt16))];
    let type_ = json_type_with_config(typed, vec![], vec![], None);
    let values = vec![Value::String(br#"{"id": 258}"#.to_vec())];
    let mut state = SerializerState::default();
    state.type_specific = analyzed(&values, &type_);
    let mut first = vec![];
    JsonSerializer::write(&mut first, &mut state).unwrap();
    assert_eq!(first, [2, 1]);
    let mut second = vec![];
    JsonSerializer::write(&mut second, &mut state).unwrap();
    assert_eq!(second, [0, 0]);
}

#[test]
fn documents_come_back_at_and_beside_typed_paths() {
    let document = |s: &str| Value::Json(parse_json(s.as_bytes()).unwrap());
    let values = vec![
        document(r#"{"name": "Alice"}"#),
        document(r#"{"id": "42", "name": "Bob", "o": {"x": true}}"#),
        Value::Null,
    ];
    let typed = vec![
        ("id".to_string(), Box::new(Type::UInt32)),
        ("n".to_string(), Box::new(Type::Nullable(Box::new(Type::String)))),
    ];
    let type_ = json_type_with_config(typed, vec![], vec![], None);
    let result = roundtrip_with_version(&values, &type_, None).unwrap();
    assert_eq!(parse_json_value(&result[0]), parsed(r#"{"id": 0, "name": "Alice"}"#));
    assert_eq!(
        parse_json_value(&result[1]),
        parsed(r#"{"id": 42, "name": "Bob", "o": {"x": 1}}"#)
    );
    assert_eq!(parse_json_value(&result[2]), parsed(r#"{"id": 0}"#));
    for version in [Some(JSON_OBJECT_VERSION_V1), Some(JSON_OBJECT_VERSION_V2)] {
        let result = roundtrip_with_version(&values, &type_, version).unwrap();
        assert_eq!(
            parse_json_value(&result[0]),
            parsed(r#"{"id": 0, "n": null, "name": "Alice"}"#)
        );
        assert_eq!(parse_json_value(&result[2]), parsed(r#"{"id": 0, "n": null}"#));
    }
}

#[test]
fn paths_whose_columns_were_taken_out_have_no_types() {
    let values = vec![Value::String(br#"{"a": 1}"#.to_vec())];
    let mut state = SerializerState::default();
    state.type_specific = analyzed(&values, &default_json_type());
    let mut first = vec![];
    JsonSerializer::write_prefix(&mut first, &mut state).unwrap();
    JsonSerializer::write(&mut vec![], &mut state).unwrap();
    let mut second = vec![];
    JsonSerializer::write_prefix(&mut second, &mut state).unwrap();
    assert_eq!(second, [3, 0, 0, 0, 0, 0, 0, 0, 1, 1, b'a']);
    assert_eq!(first[..second.len()], second);
    assert!(first.len() > second.len());
}
