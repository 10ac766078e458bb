//! Columns of JSON documents, read.
use clickhouse_arrow::column_read::DeserializerState;
use clickhouse_arrow::error::{Error, ReadReason};
use clickhouse_arrow::json_read::JsonDeserializer;
use clickhouse_arrow::json_value::JsonValue;
use clickhouse_arrow::types::Type;
use clickhouse_arrow::values::Value;

/// A document as `serde_json` holds it.
fn plain(j: &JsonValue) -> serde_json::Value {
    j.to_serde()
}

fn parsed(text: &str) -> serde_json::Value {
    serde_json::from_str(text).unwrap()
}

fn document(v: &Value) -> serde_json::Value {
    match v {
        Value::Json(j) => plain(j),
        _ => panic!("Expected JSON value"),
    }
}

fn entry<'a>(row: &'a [(String, Vec<u8>)], path: &str) -> Option<&'a Vec<u8>> {
    row.iter().find(|(name, _)| name == path).map(|(_, bytes)| bytes)
}

#[test]
fn json_string_serialization_is_parsed() {
    let rows: [&[u8]; 2] = [br#"{"a":1}"#, br#"{"b":"x"}"#];

    let mut payload = Vec::new();
    payload.extend_from_slice(&1u64.to_le_bytes());
    for row in &rows {
        payload.push(row.len() as u8);
        payload.extend_from_slice(row);
    }

    let mut reader: &[u8] = &payload;
    let mut state = DeserializerState::default();
    let type_ = Type::JSON {
        max_dynamic_paths: None,
        max_dynamic_types: None,
        typed_paths:       vec![],
        skip_exact:        vec![],
        skip_regex:        vec![],
    };

    JsonDeserializer::read_prefix(&type_, &mut reader, &mut state).unwrap();
    let values =
        JsonDeserializer::read(&mut reader, rows.len(), &state).unwrap();

    assert_eq!(values.len(), 2);
    assert_eq!(document(&values[0]), parsed(r#"{"a": 1}"#));
    assert_eq!(document(&values[1]), parsed(r#"{"b": "x"}"#));
}

#[test]
fn test_read_shared_data_map_empty() {
    // Test with 3 rows, all with 0 entries
    let mut payload = Vec::new();

    // Stream 1: ArraySizes (cumulative offsets, all 0)
    payload.extend_from_slice(&0u64.to_le_bytes()); // row 0: 0 entries
    payload.extend_from_slice(&0u64.to_le_bytes()); // row 1: 0 entries
    payload.extend_from_slice(&0u64.to_le_bytes()); // row 2: 0 entries

    // Stream 2: Keys (empty, 0 total entries)
    // Stream 3: Values (empty, 0 total entries)

    let mut reader: &[u8] = &payload;
    let result = JsonDeserializer::read_shared_data_map(&mut reader, 3).unwrap();

    assert_eq!(result.len(), 3);
    assert!(result[0].is_empty());
    assert!(result[1].is_empty());
    assert!(result[2].is_empty());
}

#[test]
fn test_read_shared_data_map_single_entry_per_row() {
    // Test with 2 rows, each with 1 entry
    let mut payload = Vec::new();

    // Stream 1: ArraySizes (cumulative offsets)
    payload.extend_from_slice(&1u64.to_le_bytes()); // row 0: 1 entry (cumulative: 1)
    payload.extend_from_slice(&2u64.to_le_bytes()); // row 1: 1 entry (cumulative: 2)

    // Stream 2: Keys (2 total keys)
    // Key 0: "path.a" (6 bytes)
    payload.push(6); // VarUInt length
    payload.extend_from_slice(b"path.a");
    // Key 1: "path.b" (6 bytes)
    payload.push(6); // VarUInt length
    payload.extend_from_slice(b"path.b");

    // Stream 3: Values (2 total values, binary encoded)
    // Value 0: type_byte=0x0a (Int64) + 42 as i64
    let mut value0 = vec![0x0a]; // Int64 type byte
    value0.extend_from_slice(&42i64.to_le_bytes());
    payload.push(value0.len() as u8); // VarUInt length
    payload.extend_from_slice(&value0);

    // Value 1: type_byte=0x15 (String) + "hello" (5 bytes)
    let mut value1 = vec![0x15]; // String type byte
    value1.push(5); // String length VarUInt
    value1.extend_from_slice(b"hello");
    payload.push(value1.len() as u8); // VarUInt length
    payload.extend_from_slice(&value1);

    let mut reader: &[u8] = &payload;
    let result = JsonDeserializer::read_shared_data_map(&mut reader, 2).unwrap();

    assert_eq!(result.len(), 2);
    assert_eq!(result[0].len(), 1);
    assert_eq!(result[1].len(), 1);

    assert!(entry(&result[0], "path.a").is_some());
    assert!(entry(&result[1], "path.b").is_some());

    // Verify binary value bytes
    let expected_value0: Vec<u8> = {
        let mut v = vec![0x0a];
        v.extend_from_slice(&42i64.to_le_bytes());
        v
    };
    assert_eq!(entry(&result[0], "path.a").unwrap(), &expected_value0);
}

#[test]
fn test_read_shared_data_map_multiple_entries_per_row() {
    // Test with 2 rows: first has 2 entries, second has 3 entries
    let mut payload = Vec::new();

    // Stream 1: ArraySizes (cumulative offsets)
    payload.extend_from_slice(&2u64.to_le_bytes()); // row 0: 2 entries (cumulative: 2)
    payload.extend_from_slice(&5u64.to_le_bytes()); // row 1: 3 entries (cumulative: 5)

    // Stream 2: Keys (5 total keys)
    let keys = vec!["a", "b", "c", "d", "e"];
    for key in &keys {
        payload.push(key.len() as u8);
        payload.extend_from_slice(key.as_bytes());
    }

    // Stream 3: Values (5 total values, all Int64 for simplicity)
    for i in 0..5 {
        let mut value = vec![0x0a]; // Int64 type byte
        value.extend_from_slice(&(i as i64).to_le_bytes());
        payload.push(value.len() as u8);
        payload.extend_from_slice(&value);
    }

    let mut reader: &[u8] = &payload;
    let result = JsonDeserializer::read_shared_data_map(&mut reader, 2).unwrap();

    assert_eq!(result.len(), 2);
    assert_eq!(result[0].len(), 2); // First row: 2 entries
    assert_eq!(result[1].len(), 3); // Second row: 3 entries

    // Verify row 0 has keys "a" and "b"
    assert!(entry(&result[0], "a").is_some());
    assert!(entry(&result[0], "b").is_some());

    // Verify row 1 has keys "c", "d", and "e"
    assert!(entry(&result[1], "c").is_some());
    assert!(entry(&result[1], "d").is_some());
    assert!(entry(&result[1], "e").is_some());
}

#[test]
fn test_read_shared_data_map_mixed_empty_and_data() {
    // Test with 4 rows: empty, data, empty, data
    let mut payload = Vec::new();

    // Stream 1: ArraySizes (cumulative offsets)
    payload.extend_from_slice(&0u64.to_le_bytes()); // row 0: 0 entries
    payload.extend_from_slice(&1u64.to_le_bytes()); // row 1: 1 entry (cumulative: 1)
    payload.extend_from_slice(&1u64.to_le_bytes()); // row 2: 0 entries
    payload.extend_from_slice(&3u64.to_le_bytes()); // row 3: 2 entries (cumulative: 3)

    // Stream 2: Keys (3 total)
    let keys = vec!["x", "y", "z"];
    for key in &keys {
        payload.push(key.len() as u8);
        payload.extend_from_slice(key.as_bytes());
    }

    // Stream 3: Values (3 total)
    for i in 0..3 {
        let mut value = vec![0x0a]; // Int64
        value.extend_from_slice(&(i as i64).to_le_bytes());
        payload.push(value.len() as u8);
        payload.extend_from_slice(&value);
    }

    let mut reader: &[u8] = &payload;
    let result = JsonDeserializer::read_shared_data_map(&mut reader, 4).unwrap();

    assert_eq!(result.len(), 4);
    assert_eq!(result[0].len(), 0); // row 0: empty
    assert_eq!(result[1].len(), 1); // row 1: 1 entry
    assert_eq!(result[2].len(), 0); // row 2: empty
    assert_eq!(result[3].len(), 2); // row 3: 2 entries

    assert!(entry(&result[1], "x").is_some());
    assert!(entry(&result[3], "y").is_some());
    assert!(entry(&result[3], "z").is_some());
}

// V1/V2 End-to-end Deserialization Tests

#[test]
fn test_json_v2_deserialization_simple() {
    // Test V2 format with 1 typed path and shared data
    // JSON structure: {"id": <int>, "name": <string in shared data>}
    let mut payload = Vec::new();

    // ObjectStructure:
    // - version = 2
    payload.extend_from_slice(&2u64.to_le_bytes());
    // - num_dynamic_paths = 0 (no dynamic paths declared in structure)
    payload.push(0);
    // - typed paths are implicit (alphabetically sorted)

    // Data for 2 rows:
    // Row 0: {"id": 1, "name": "Alice"}
    // Row 1: {"id": 2, "name": "Bob"}

    // Typed path "id" column (Int64):
    // No prefix needed for Int64
    // Values: [1, 2]
    payload.extend_from_slice(&1i64.to_le_bytes());
    payload.extend_from_slice(&2i64.to_le_bytes());

    // Shared data Map:
    // Stream 1: ArraySizes (cumulative offsets)
    payload.extend_from_slice(&1u64.to_le_bytes()); // row 0: 1 entry
    payload.extend_from_slice(&2u64.to_le_bytes()); // row 1: 1 entry

    // Stream 2: Keys
    payload.push(4); // "name" length
    payload.extend_from_slice(b"name");
    payload.push(4); // "name" length
    payload.extend_from_slice(b"name");

    // Stream 3: Values (binary encoded strings)
    // Row 0: String "Alice"
    let mut alice_value = vec![0x15]; // String type byte
    alice_value.push(5); // length
    alice_value.extend_from_slice(b"Alice");
    payload.push(alice_value.len() as u8);
    payload.extend_from_slice(&alice_value);

    // Row 1: String "Bob"
    let mut bob_value = vec![0x15]; // String type byte
    bob_value.push(3); // length
    bob_value.extend_from_slice(b"Bob");
    payload.push(bob_value.len() as u8);
    payload.extend_from_slice(&bob_value);

    let mut reader: &[u8] = &payload;
    let mut state = DeserializerState::default();

    let type_ = Type::JSON {
        max_dynamic_paths: None,
        max_dynamic_types: None,
        typed_paths:       vec![("id".to_string(), Box::new(Type::Int64))],
        skip_exact:        vec![],
        skip_regex:        vec![],
    };

    JsonDeserializer::read_prefix(&type_, &mut reader, &mut state).unwrap();
    let values = JsonDeserializer::read(&mut reader, 2, &state).unwrap();

    assert_eq!(values.len(), 2);

    // Verify row 0
    if let Value::Json(found) = &values[0] {
        let json0 = plain(found);
        assert_eq!(json0.get("id").unwrap(), &serde_json::Value::from(1));
        assert_eq!(json0.get("name").unwrap(), &serde_json::Value::from("Alice"));
    } else {
        panic!("Expected JSON value");
    }

    // Verify row 1
    if let Value::Json(found) = &values[1] {
        let json1 = plain(found);
        assert_eq!(json1.get("id").unwrap(), &serde_json::Value::from(2));
        assert_eq!(json1.get("name").unwrap(), &serde_json::Value::from("Bob"));
    } else {
        panic!("Expected JSON value");
    }
}

#[test]
fn test_json_v1_deserialization_with_max_dynamic_paths() {
    // Test V1 format which has extra max_dynamic_paths field
    let mut payload = Vec::new();

    // ObjectStructure:
    // - version = 0 (V1)
    payload.extend_from_slice(&0u64.to_le_bytes());
    // - max_dynamic_paths = 100 (this field is skipped)
    payload.push(100);
    // - num_dynamic_paths = 0
    payload.push(0);

    // Data for 1 row: {"value": 42}
    // Typed path "value" column (Int64):
    payload.extend_from_slice(&42i64.to_le_bytes());

    // Shared data Map (empty):
    // Stream 1: ArraySizes
    payload.extend_from_slice(&0u64.to_le_bytes()); // row 0: 0 entries

    let mut reader: &[u8] = &payload;
    let mut state = DeserializerState::default();

    let type_ = Type::JSON {
        max_dynamic_paths: None,
        max_dynamic_types: None,
        typed_paths:       vec![("value".to_string(), Box::new(Type::Int64))],
        skip_exact:        vec![],
        skip_regex:        vec![],
    };

    JsonDeserializer::read_prefix(&type_, &mut reader, &mut state).unwrap();
    let values = JsonDeserializer::read(&mut reader, 1, &state).unwrap();

    assert_eq!(values.len(), 1);

    if let Value::Json(found) = &values[0] {
        let json = plain(found);
        assert_eq!(json.get("value").unwrap(), &serde_json::Value::from(42));
    } else {
        panic!("Expected JSON value");
    }
}

#[test]
fn test_json_v2_nested_paths_in_shared_data() {
    // Test V2 with nested paths like "user.profile.age" in shared data
    let mut payload = Vec::new();

    // ObjectStructure V2:
    payload.extend_from_slice(&2u64.to_le_bytes());
    payload.push(0); // no dynamic paths

    // Data for 1 row: {"user": {"profile": {"age": 30}}}
    // Shared data Map:
    // Stream 1: ArraySizes
    payload.extend_from_slice(&1u64.to_le_bytes()); // 1 entry

    // Stream 2: Keys
    let key = "user.profile.age";
    payload.push(key.len() as u8);
    payload.extend_from_slice(key.as_bytes());

    // Stream 3: Values (Int64 30)
    let mut value = vec![0x0a]; // Int64 type byte
    value.extend_from_slice(&30i64.to_le_bytes());
    payload.push(value.len() as u8);
    payload.extend_from_slice(&value);

    let mut reader: &[u8] = &payload;
    let mut state = DeserializerState::default();

    let type_ = Type::JSON {
        max_dynamic_paths: None,
        max_dynamic_types: None,
        typed_paths:       vec![],
        skip_exact:        vec![],
        skip_regex:        vec![],
    };

    JsonDeserializer::read_prefix(&type_, &mut reader, &mut state).unwrap();
    let values = JsonDeserializer::read(&mut reader, 1, &state).unwrap();

    assert_eq!(values.len(), 1);

    if let Value::Json(found) = &values[0] {
        let json = plain(found);
        // Should reconstruct nested structure
        let user = json.get("user").unwrap().as_object().unwrap();
        let profile = user.get("profile").unwrap().as_object().unwrap();
        assert_eq!(profile.get("age").unwrap(), &serde_json::Value::from(30));
    } else {
        panic!("Expected JSON value");
    }
}

#[test]
fn unknown_versions_of_json_columns_are_refused() {
    let type_ = Type::from_str("JSON").unwrap();
    let mut reader: &[u8] = &[7, 0, 0, 0, 0, 0, 0, 0];
    let mut state = DeserializerState::default();
    let result = JsonDeserializer::read_prefix(&type_, &mut reader, &mut state);
    assert_eq!(result.unwrap_err(), Error::DeserializeError(ReadReason::UnsupportedVersion));
}

#[test]
fn malformed_documents_are_refused() {
    let type_ = Type::from_str("JSON").unwrap();
    let payload = [1, 0, 0, 0, 0, 0, 0, 0, 1, b'{'];
    let mut reader: &[u8] = &payload;
    let mut state = DeserializerState::default();
    JsonDeserializer::read_prefix(&type_, &mut reader, &mut state).unwrap();
    let result = JsonDeserializer::read(&mut reader, 1, &state);
    assert_eq!(result.unwrap_err(), Error::DeserializeError(ReadReason::InvalidJson));
}

#[test]
fn documents_need_what_stands_before_them() {
    let mut reader: &[u8] = &[];
    let result = JsonDeserializer::read(&mut reader, 1, &DeserializerState::default());
    assert_eq!(result.unwrap_err(), Error::DeserializeError(ReadReason::StateNotSet));
}
