//! Values and types in their binary form.
use clickhouse_arrow::binary_value::{deserialize_binary_value, serialize_binary_value};
use clickhouse_arrow::type_encoding::{decode_type, encode_type};
use clickhouse_arrow::types::Type;
use clickhouse_arrow::values::Value;

#[test]
fn test_deserialize_bool() {
    // Type byte 0x2D (Bool) + value 0x01 (true)
    let data = vec![0x2d, 0x01];
    let value = deserialize_binary_value(&data).unwrap();
    assert_eq!(value, Value::Bool(true));
}

#[test]
fn test_deserialize_int64() {
    // Type byte 0x0A (Int64) + value 30 (0x1E) as 8-byte LE
    let data = vec![0x0a, 0x1e, 0x00, 0x00, 0x00, 0x00, 0x00, 0x00, 0x00];
    let value = deserialize_binary_value(&data).unwrap();
    assert_eq!(value, Value::Int64(30));
}

#[test]
fn test_deserialize_string() {
    // Type byte 0x15 (String) + VarUInt(5) + "Alice"
    let data = vec![0x15, 0x05, 0x41, 0x6c, 0x69, 0x63, 0x65];
    let value = deserialize_binary_value(&data).unwrap();
    assert_eq!(value, Value::String(b"Alice".to_vec()));
}

#[test]
fn test_deserialize_float64() {
    // Type byte 0x0E (Float64) + 95.5 as Float64 LE
    let data = vec![0x0e, 0x00, 0x00, 0x00, 0x00, 0x00, 0xe0, 0x57, 0x40];
    let value = deserialize_binary_value(&data).unwrap();
    if let Value::Float64(f) = value {
        assert!((f64::from_bits(f) - 95.5).abs() < 0.001);
    } else {
        panic!("Expected Float64");
    }
}

#[test]
fn test_deserialize_array_nullable_string() {
    // Type byte 0x1E (Array) + element type 0x23 (Nullable) + 0x15 (String)
    // + VarUInt count=2 + null_byte=0 + VarUInt(5) + "admin" + null_byte=0 + VarUInt(4) +
    //   "user"
    let data = vec![
        0x1e, // Array
        0x23, // Nullable
        0x15, // String
        0x02, // count=2
        0x00, // not null
        0x05, 0x61, 0x64, 0x6d, 0x69, 0x6e, // "admin"
        0x00, // not null
        0x04, 0x75, 0x73, 0x65, 0x72, // "user"
    ];
    let value = deserialize_binary_value(&data).unwrap();
    if let Value::Array(elements) = value {
        assert_eq!(elements.len(), 2);
        assert_eq!(elements[0], Value::String(b"admin".to_vec()));
        assert_eq!(elements[1], Value::String(b"user".to_vec()));
    } else {
        panic!("Expected Array");
    }
}

#[test]
fn test_deserialize_nothing() {
    // Type byte 0x00 (Nothing)
    let data = vec![0x00];
    let value = deserialize_binary_value(&data).unwrap();
    assert_eq!(value, Value::Null);
}

#[test]
fn test_serialize_bool() {
    let mut buf = Vec::new();
    serialize_binary_value(&mut buf, &Value::Bool(true)).unwrap();
    assert_eq!(buf, vec![0x2d, 0x01]); // Type Bool + value true
}

#[test]
fn test_serialize_int64() {
    let mut buf = Vec::new();
    serialize_binary_value(&mut buf, &Value::Int64(30)).unwrap();
    assert_eq!(buf, vec![0x0a, 0x1e, 0x00, 0x00, 0x00, 0x00, 0x00, 0x00, 0x00]);
}

#[test]
fn test_serialize_string() {
    let mut buf = Vec::new();
    serialize_binary_value(&mut buf, &Value::String(b"Alice".to_vec())).unwrap();
    assert_eq!(buf, vec![0x15, 0x05, 0x41, 0x6c, 0x69, 0x63, 0x65]);
}

#[test]
fn test_serialize_float64() {
    let mut buf = Vec::new();
    serialize_binary_value(&mut buf, &Value::Float64(95.5f64.to_bits())).unwrap();
    assert_eq!(buf, vec![0x0e, 0x00, 0x00, 0x00, 0x00, 0x00, 0xe0, 0x57, 0x40]);
}

#[test]
fn test_serialize_array() {
    let mut buf = Vec::new();
    let array =
        Value::Array(vec![Value::String(b"admin".to_vec()), Value::String(b"user".to_vec())]);
    serialize_binary_value(&mut buf, &array).unwrap();

    // Should be: Array(String) + count=2 + "admin" + "user"
    let expected = vec![
        0x1e, // Array
        0x15, // String element type
        0x02, // count=2
        0x05, 0x61, 0x64, 0x6d, 0x69, 0x6e, // "admin"
        0x04, 0x75, 0x73, 0x65, 0x72, // "user"
    ];
    assert_eq!(buf, expected);
}

#[test]
fn test_serialize_nothing() {
    let mut buf = Vec::new();
    serialize_binary_value(&mut buf, &Value::Null).unwrap();
    assert_eq!(buf, vec![0x00]); // Just type byte
}

#[test]
fn test_encode_decode_primitives() {
    let types = vec![
        Type::Nothing,
        Type::Bool,
        Type::UInt8,
        Type::UInt32,
        Type::Int64,
        Type::Float32,
        Type::Float64,
        Type::String,
        Type::Uuid,
        Type::Date,
    ];

    for ty in types {
        let mut buf = Vec::new();
        encode_type(&mut buf, &ty).unwrap();
        let mut cursor: &[u8] = &buf;
        let decoded = decode_type(&mut cursor).unwrap();
        assert_eq!(ty, decoded);
    }
}

#[test]
fn test_encode_decode_array() {
    let ty = Type::Array(Box::new(Type::String));
    let mut buf = Vec::new();
    encode_type(&mut buf, &ty).unwrap();
    let mut cursor: &[u8] = &buf;
    let decoded = decode_type(&mut cursor).unwrap();
    assert_eq!(ty, decoded);
}

#[test]
fn test_encode_decode_nullable() {
    let ty = Type::Nullable(Box::new(Type::Int64));
    let mut buf = Vec::new();
    encode_type(&mut buf, &ty).unwrap();
    let mut cursor: &[u8] = &buf;
    let decoded = decode_type(&mut cursor).unwrap();
    assert_eq!(ty, decoded);
}

#[test]
fn test_encode_decode_map() {
    let ty = Type::MapOf(Box::new(Type::String), Box::new(Type::Int32));
    let mut buf = Vec::new();
    encode_type(&mut buf, &ty).unwrap();
    let mut cursor: &[u8] = &buf;
    let decoded = decode_type(&mut cursor).unwrap();
    assert_eq!(ty, decoded);
}

#[test]
fn test_encode_decode_nested() {
    let ty = Type::Array(Box::new(Type::Nullable(Box::new(Type::String))));
    let mut buf = Vec::new();
    encode_type(&mut buf, &ty).unwrap();
    let mut cursor: &[u8] = &buf;
    let decoded = decode_type(&mut cursor).unwrap();
    assert_eq!(ty, decoded);
}
