//! Values as JSON documents.
use chrono_tz::UTC;
use clickhouse_arrow::json_value::JsonValue;
use clickhouse_arrow::values::{
    i256, u256, Date, Date32, DateTime, DynDateTime64, Ipv4, Ipv6, MultiPolygon, Point, Polygon,
    Ring, Value,
};

/// A document as `serde_json` holds it.
fn plain(j: &JsonValue) -> serde_json::Value {
    j.to_serde()
}

fn parsed(text: &str) -> serde_json::Value {
    serde_json::from_str(text).unwrap()
}

fn check(value: Value, expected: &str) {
    assert_eq!(plain(&value.to_json().unwrap()), parsed(expected), "Failed on: {value:?}");
}

fn double(x: f64) -> Value {
    Value::Float64(x.to_bits())
}

fn point(x: f64, y: f64) -> Point {
    Point(x.to_bits(), y.to_bits())
}

#[test]
fn test_numeric_json_conversions() {
    check(Value::Int8(42), "42");
    check(Value::Int16(-1000), "-1000");
    check(Value::Int32(123_456), "123456");
    check(Value::Int64(-999_999_999), "-999999999");
    check(Value::UInt8(255), "255");
    check(Value::UInt16(65_535), "65535");
    check(Value::UInt32(4_294_967_295), "4294967295");
    check(Value::UInt64(18_446_744_073_709_551_615_u64), "18446744073709551615");
}

#[test]
fn test_large_integer_json_conversions() {
    check(
        Value::Int128(170_141_183_460_469_231_731_687_303_715_884_105_727_i128),
        "\"170141183460469231731687303715884105727\"",
    );
    check(
        Value::UInt128(340_282_366_920_938_463_463_374_607_431_768_211_455_u128),
        "\"340282366920938463463374607431768211455\"",
    );

    let i256_val = i256([
        1, 2, 3, 4, 5, 6, 7, 8, 9, 10, 11, 12, 13, 14, 15, 16, 17, 18, 19, 20, 21, 22, 23, 24, 25,
        26, 27, 28, 29, 30, 31, 32,
    ]);
    let u256_val = u256([
        1, 2, 3, 4, 5, 6, 7, 8, 9, 10, 11, 12, 13, 14, 15, 16, 17, 18, 19, 20, 21, 22, 23, 24, 25,
        26, 27, 28, 29, 30, 31, 32,
    ]);
    assert!(plain(&Value::Int256(i256_val).to_json().unwrap()).is_string());
    assert!(plain(&Value::UInt256(u256_val).to_json().unwrap()).is_string());
}

#[test]
fn test_float_json_conversions() {
    assert_eq!(
        plain(&Value::Float32(std::f32::consts::PI.to_bits()).to_json().unwrap()),
        serde_json::Value::from(std::f32::consts::PI)
    );
    assert_eq!(
        plain(&double(-std::f64::consts::E).to_json().unwrap()),
        serde_json::Value::from(-std::f64::consts::E)
    );
}

#[test]
fn test_decimal_json_conversions() {
    check(Value::Decimal32(2, 1234), "\"12.34\"");
    check(Value::Decimal32(0, 1234), "\"1234\"");
    check(Value::Decimal32(4, 12), "\"0.0012\"");
    check(Value::Decimal32(2, -1234), "\"-12.34\"");
    check(Value::Decimal64(6, 123_456_789), "\"123.456789\"");
    check(Value::Decimal64(10, 5), "\"0.0000000005\"");
    check(Value::Decimal128(3, 123_456), "\"123.456\"");
}

#[test]
fn test_decimal256_json_conversion() {
    let d256 = i256([
        0, 0, 0, 0, 0, 0, 0, 0, 0, 0, 0, 0, 0, 0, 0, 0, 0, 0, 0, 0, 0, 0, 0, 0, 0, 0, 0, 0, 0, 0,
        0, 100,
    ]);
    check(Value::Decimal256(2, d256), "\"1.00\"");
}

#[test]
fn test_string_null_json_conversions() {
    check(Value::Null, "null");
    check(Value::String(b"hello world".to_vec()), "\"hello world\"");
    check(Value::String(b"".to_vec()), "\"\"");
}

#[test]
fn test_datetime_json_conversions() {
    check(Value::Date(Date(19737)), "\"2024-01-15\"");
    check(Value::Date32(Date32(45655)), "\"2024-12-31\"");
    check(Value::DateTime(DateTime(UTC, 1_705_320_600)), "\"2024-01-15 12:10:00\"");
    check(
        Value::DateTime64(DynDateTime64(UTC, 1_705_320_600_123, 3)),
        "\"2024-01-15 12:10:00.123\"",
    );
}

#[test]
fn test_uuid_network_json_conversions() {
    check(
        Value::Uuid(0x550e8400_e29b_41d4_a716_446655440000),
        "\"550e8400-e29b-41d4-a716-446655440000\"",
    );
    check(Value::Ipv4(Ipv4(0xc0a8_0101)), "\"192.168.1.1\"");
    let octets = [0x20, 0x01, 0x0d, 0xb8, 0, 0, 0, 0, 0, 0, 0, 0, 0, 0, 0, 1];
    check(Value::Ipv6(Ipv6(octets)), "\"2001:db8::1\"");
}

#[test]
fn test_enum_json_conversions() {
    check(Value::Enum8("active".to_string(), 1), "\"active\"");
    check(Value::Enum16("pending".to_string(), 2), "\"pending\"");
}

#[test]
fn test_container_json_conversions() {
    check(
        Value::Array(vec![Value::Int32(1), Value::Int32(2), Value::Int32(3)]),
        "[1, 2, 3]",
    );
    check(
        Value::Tuple(vec![
            Value::Int32(1),
            Value::String(b"hello".to_vec()),
            double(std::f64::consts::PI),
        ]),
        "[1, \"hello\", 3.141592653589793]",
    );
    check(
        Value::MapOf(
            vec![Value::String(b"name".to_vec()), Value::String(b"age".to_vec())],
            vec![Value::String(b"Alice".to_vec()), Value::Int32(30)],
        ),
        "{\"name\": \"Alice\", \"age\": 30}",
    );
    check(
        Value::MapOf(
            vec![Value::Int32(1), Value::Int32(2)],
            vec![Value::String(b"one".to_vec()), Value::String(b"two".to_vec())],
        ),
        "{\"1\": \"one\", \"2\": \"two\"}",
    );
    check(
        Value::MapOf(
            vec![Value::UInt64(42), double(3.5), Value::Null],
            vec![
                Value::String(b"forty-two".to_vec()),
                Value::String(b"float".to_vec()),
                Value::String(b"null-key".to_vec()),
            ],
        ),
        "{\"42\": \"forty-two\", \"3.5\": \"float\", \"null\": \"null-key\"}",
    );
}

#[test]
fn test_variant_object_json_conversions() {
    check(Value::Variant(0, Box::new(Value::String(b"hello".to_vec()))), "\"hello\"");
    check(Value::Variant(1, Box::new(Value::Int32(42))), "42");
}

#[test]
fn test_object_json_conversion() {
    let json_obj = b"{\"key\": \"value\", \"number\": 42}";
    check(Value::Object(json_obj.to_vec()), "{\"key\": \"value\", \"number\": 42}");
}

#[test]
fn test_geo_json_conversions() {
    check(Value::Point(point(1.5, 2.5)), "[1.5, 2.5]");
    check(
        Value::Ring(Ring(vec![
            point(0.0, 0.0),
            point(1.0, 0.0),
            point(1.0, 1.0),
            point(0.0, 0.0),
        ])),
        "[[0.0, 0.0], [1.0, 0.0], [1.0, 1.0], [0.0, 0.0]]",
    );
}

#[test]
fn test_polygon_json_conversion() {
    let polygon = Polygon(vec![
        Ring(vec![
            point(0.0, 0.0),
            point(4.0, 0.0),
            point(4.0, 4.0),
            point(0.0, 4.0),
            point(0.0, 0.0),
        ]),
        Ring(vec![
            point(1.0, 1.0),
            point(1.0, 2.0),
            point(2.0, 2.0),
            point(2.0, 1.0),
            point(1.0, 1.0),
        ]),
    ]);
    let json_poly = plain(&Value::Polygon(polygon).to_json().unwrap());
    assert!(json_poly.is_array());
    assert_eq!(json_poly.as_array().unwrap().len(), 2); // outer ring + hole
}

#[test]
fn test_multipolygon_json_conversion() {
    let multi = MultiPolygon(vec![Polygon(vec![Ring(vec![
        point(0.0, 0.0),
        point(1.0, 0.0),
        point(1.0, 1.0),
        point(0.0, 0.0),
    ])])]);
    let json_multi = plain(&Value::MultiPolygon(multi).to_json().unwrap());
    assert!(json_multi.is_array());
    assert_eq!(json_multi.as_array().unwrap().len(), 1);
}

#[test]
fn test_nested_json_conversions() {
    check(
        Value::Array(vec![
            Value::Array(vec![Value::Int32(1), Value::Int32(2)]),
            Value::Array(vec![Value::Int32(3), Value::Int32(4)]),
        ]),
        "[[1, 2], [3, 4]]",
    );
    check(
        Value::Array(vec![
            Value::Tuple(vec![Value::String(b"a".to_vec()), Value::Int32(1)]),
            Value::Tuple(vec![Value::String(b"b".to_vec()), Value::Int32(2)]),
        ]),
        "[[\"a\", 1], [\"b\", 2]]",
    );
}
