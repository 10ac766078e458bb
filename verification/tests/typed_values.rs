//! Values of known types, written out and read.
use clickhouse_arrow::de::{RowDeserializer, TypedDeserializer};
use clickhouse_arrow::error::{Error, ReadReason, Result};
use clickhouse_arrow::json_value::JsonValue;
use clickhouse_arrow::node::{MapKeyPolicy, Node};
use clickhouse_arrow::ser::{RowSerWith, RowSerializer, Typed, TypedWith};
use clickhouse_arrow::serde_impls::{RowSer, Typed as PlainTyped};
use clickhouse_arrow::types::Type;
use clickhouse_arrow::values::{Date, DynDateTime64, MultiPolygon, Point, Polygon, Ring, Value};

/// A document as `serde_json` holds it.
fn plain(j: &JsonValue) -> serde_json::Value {
    j.to_serde()
}

fn parsed(text: &str) -> serde_json::Value {
    serde_json::from_str(text).unwrap()
}

fn point(x: f64, y: f64) -> Point {
    Point(x.to_bits(), y.to_bits())
}

fn made(node: Result<Node>) -> serde_json::Value {
    plain(&node.unwrap().to_json().unwrap())
}

fn written(node: Result<Node>) -> Vec<u8> {
    serde_json::to_vec(&made(node)).unwrap()
}

#[test]
fn transcode_named_tuple_via_deserializer() {
    let cols = vec![(
        "my_tuple".into(),
        Type::TupleNamed(vec![("a".into(), Type::String), ("b".into(), Type::Int64)]),
    )];
    let row = vec![Value::Tuple(vec![Value::string("x"), Value::Int64(7)])];

    let out = written(RowDeserializer { cols: &cols, row: &row }.node());
    let got: serde_json::Value = serde_json::from_slice(&out).unwrap();
    assert_eq!(got, parsed(r#"{"my_tuple": {"a":"x","b":7}}"#));
}

#[test]
fn typed_deserializer_transcodes_primitives() {
    let ty = Type::Int32;
    let v = Value::Int32(42);
    let out = written(TypedDeserializer { v: &v, t: &ty }.node());
    assert_eq!(serde_json::from_slice::<i32>(&out).unwrap(), 42);
}

#[test]
fn typed_deserializer_transcodes_decimal_as_string() {
    let ty = Type::Decimal64(2);
    let v = Value::Decimal64(2, 1234);
    let out = written(TypedDeserializer { v: &v, t: &ty }.node());
    let got: serde_json::Value = serde_json::from_slice(&out).unwrap();
    assert_eq!(got, parsed(r#""12.34""#));
}

#[test]
fn typed_deserializer_transcodes_map_with_stringified_keys() {
    let ty = Type::MapOf(Box::new(Type::Int64), Box::new(Type::String));
    let v = Value::MapOf(
        vec![Value::Int64(7), Value::Int64(42)],
        vec![Value::string("x"), Value::string("y")],
    );
    let out = written(TypedDeserializer { v: &v, t: &ty }.node());
    let got: serde_json::Value = serde_json::from_slice(&out).unwrap();
    assert_eq!(got, parsed(r#"{"7": "x", "42": "y"}"#));
}

#[test]
fn typed_deserializer_transcodes_float_nan_to_null() {
    let ty = Type::Float64;
    let v = Value::Float64(f64::NAN.to_bits());
    let out = written(TypedDeserializer { v: &v, t: &ty }.node());
    let got: serde_json::Value = serde_json::from_slice(&out).unwrap();
    assert_eq!(got, serde_json::Value::Null);
}

#[test]
fn typed_deserializer_transcodes_point() {
    let ty = Type::Point;
    let v = Value::Point(point(1.0, -2.5));
    let out = written(TypedDeserializer { v: &v, t: &ty }.node());
    let got: serde_json::Value = serde_json::from_slice(&out).unwrap();
    assert_eq!(got, parsed(r#"[1.0, -2.5]"#));
}

#[test]
fn typed_deserializer_transcodes_ring() {
    let ty = Type::Ring;
    let v = Value::Ring(Ring(vec![point(0.0, 0.0), point(1.0, 1.0)]));
    let out = written(TypedDeserializer { v: &v, t: &ty }.node());
    let got: serde_json::Value = serde_json::from_slice(&out).unwrap();
    assert_eq!(got, parsed(r#"[[0.0, 0.0], [1.0, 1.0]]"#));
}

#[test]
fn typed_deserializer_transcodes_polygon() {
    let ty = Type::Polygon;
    let v = Value::Polygon(Polygon(vec![Ring(vec![
        point(0.0, 0.0),
        point(1.0, 0.0),
        point(1.0, 1.0),
        point(0.0, 0.0),
    ])]));
    let out = written(TypedDeserializer { v: &v, t: &ty }.node());
    let got: serde_json::Value = serde_json::from_slice(&out).unwrap();
    assert_eq!(got, parsed(r#"[[[0.0, 0.0], [1.0, 0.0], [1.0, 1.0], [0.0, 0.0]]]"#));
}

#[test]
fn typed_deserializer_transcodes_multi_polygon() {
    let ty = Type::MultiPolygon;
    let v = Value::MultiPolygon(MultiPolygon(vec![
        Polygon(vec![Ring(vec![point(0.0, 0.0), point(1.0, 0.0), point(1.0, 1.0)])]),
        Polygon(vec![Ring(vec![point(2.0, 2.0), point(3.0, 2.0), point(3.0, 3.0)])]),
    ]));
    let out = written(TypedDeserializer { v: &v, t: &ty }.node());
    let got: serde_json::Value = serde_json::from_slice(&out).unwrap();
    assert_eq!(
        got,
        parsed(r#"[[[[0.0, 0.0], [1.0, 0.0], [1.0, 1.0]]], [[[2.0, 2.0], [3.0, 2.0], [3.0, 3.0]]]]"#)
    );
}

#[test]
fn typed_deserializer_transcodes_object_bytes() {
    let ty = Type::Object;
    let bytes = serde_json::to_vec(&parsed(r#"{"k": [1, 2, 3]}"#)).unwrap();
    let v = Value::Object(bytes);
    let out = written(TypedDeserializer { v: &v, t: &ty }.node());
    let got: serde_json::Value = serde_json::from_slice(&out).unwrap();
    assert_eq!(got, parsed(r#"{"k": [1, 2, 3]}"#));
}

#[test]
fn typed_deserializer_transcodes_variant_inner() {
    let ty = Type::Variant(vec![Type::Int64]);
    let v = Value::Variant(0, Box::new(Value::Int64(9)));
    let out = written(TypedDeserializer { v: &v, t: &ty }.node());
    let got: serde_json::Value = serde_json::from_slice(&out).unwrap();
    assert_eq!(got, parsed(r#"9"#));
}

#[test]
fn ser_named_tuple_serializes_as_object() {
    let ty = Type::TupleNamed(vec![("a".into(), Type::String), ("b".into(), Type::Int64)]);
    let v = Value::Tuple(vec![Value::string("x"), Value::Int64(7)]);
    let got = made(Typed { v: &v, t: &ty }.node());
    assert_eq!(got, parsed(r#"{"a": "x", "b": 7}"#));
}

#[test]
fn ser_array_of_named_tuple_serializes_as_array_of_objects() {
    let ty = Type::Array(Box::new(Type::TupleNamed(vec![
        ("a".into(), Type::String),
        ("b".into(), Type::Int64),
    ])));
    let v = Value::Array(vec![
        Value::Tuple(vec![Value::string("x"), Value::Int64(7)]),
        Value::Tuple(vec![Value::string("y"), Value::Int64(8)]),
    ]);
    let got = made(Typed { v: &v, t: &ty }.node());
    assert_eq!(got, parsed(r#"[{"a": "x", "b": 7}, {"a": "y", "b": 8}]"#));
}

#[test]
fn ser_rowser_serializes_row_object() {
    let cols = vec![
        (
            "t".into(),
            Type::TupleNamed(vec![("a".into(), Type::String), ("b".into(), Type::Int64)]),
        ),
        ("n".into(), Type::Nullable(Box::new(Type::Int32))),
    ];
    let row = vec![Value::Tuple(vec![Value::string("z"), Value::Int64(1)]), Value::Null];
    let got = made(RowSerializer { cols: &cols, row: &row }.node());
    assert_eq!(got, parsed(r#"{"t": {"a": "z", "b": 1}, "n": null}"#));
}

#[test]
fn map_stringify_policy_serializes_string_keys() {
    let ty = Type::MapOf(Box::new(Type::Int64), Box::new(Type::String));
    let v = Value::MapOf(vec![Value::Int64(7), Value::Int64(42)], vec![
        Value::string("x"),
        Value::string("y"),
    ]);
    let got = made(TypedWith {
        v:              &v,
        t:              &ty,
        map_key_policy: MapKeyPolicy::Stringify,
    }.node());
    assert_eq!(got, parsed(r#"{"7": "x", "42": "y"}"#));
}

#[test]
fn map_native_policy_on_json_backend_coerces_to_strings() {
    let ty = Type::MapOf(Box::new(Type::Int64), Box::new(Type::String));
    let v = Value::MapOf(vec![Value::Int64(7)], vec![Value::string("x")]);
    // serde_json coerces non-string keys to strings when serializing maps
    let got = made(TypedWith {
        v:              &v,
        t:              &ty,
        map_key_policy: MapKeyPolicy::Native,
    }.node());
    assert_eq!(got, parsed(r#"{"7": "x"}"#));
}

#[test]
fn map_native_policy_tuple_key_errors_on_json_backend() {
    // Composite key (tuple) cannot be coerced to a JSON object key; serde_json should error
    let key_ty = Type::Tuple(vec![Type::Int32, Type::Int32]);
    let ty = Type::MapOf(Box::new(key_ty.clone()), Box::new(Type::String));
    let key = Value::Tuple(vec![Value::Int32(1), Value::Int32(2)]);
    let v = Value::MapOf(vec![key], vec![Value::string("x")]);
    let err = TypedWith {
        v:              &v,
        t:              &ty,
        map_key_policy: MapKeyPolicy::Native,
    }
    .node()
    .unwrap()
    .to_json()
    .unwrap_err();
    let msg = err.to_string().to_lowercase();
    assert!(msg.contains("key") || msg.contains("string"));
}

#[test]
fn typed_matches_to_json_for_scalars_and_dates() {
    // Decimal string formatting
    let v = Value::Decimal64(2, 1234);
    let t = Type::Decimal64(2);
    let got = made(Typed { v: &v, t: &t }.node());
    assert_eq!(got, plain(&v.to_json().unwrap()));

    // Date
    let v = Value::Date(Date(0));
    let t = Type::Date;
    let got = made(Typed { v: &v, t: &t }.node());
    assert_eq!(got, plain(&v.to_json().unwrap()));

    // DateTime64 with scale 3
    let tz = chrono_tz::UTC;
    let v = Value::DateTime64(DynDateTime64(tz, 1_700_000_000_000, 3));
    let t = Type::DateTime64(3, tz);
    let got = made(Typed { v: &v, t: &t }.node());
    assert_eq!(got, plain(&v.to_json().unwrap()));
}

#[test]
fn typed_matches_to_json_for_object_and_geo() {
    // Object (JSON bytes)
    let obj = parsed(r#"{"k": [1,2,3], "b": true}"#);
    let bytes = serde_json::to_vec(&obj).unwrap();
    let v = Value::Object(bytes);
    let t = Type::Object;
    let got = made(Typed { v: &v, t: &t }.node());
    assert_eq!(got, plain(&v.to_json().unwrap()));

    // Geo: Point
    let v = Value::Point(point(1.0, 2.0));
    let t = Type::Point;
    let got = made(Typed { v: &v, t: &t }.node());
    assert_eq!(got, plain(&v.to_json().unwrap()));
}

#[test]
fn serde_impls_named_tuple_serializes_as_object() {
    let ty = Type::TupleNamed(vec![("a".into(), Type::String), ("b".into(), Type::Int64)]);
    let v = Value::Tuple(vec![Value::string("x"), Value::Int64(7)]);
    let got = made(PlainTyped { v: &v, t: &ty }.node());
    assert_eq!(got, parsed(r#"{"a": "x", "b": 7}"#));
}

#[test]
fn serde_impls_array_of_named_tuple_serializes_as_array_of_objects() {
    let ty = Type::Array(Box::new(Type::TupleNamed(vec![
        ("a".into(), Type::String),
        ("b".into(), Type::Int64),
    ])));
    let v = Value::Array(vec![
        Value::Tuple(vec![Value::string("x"), Value::Int64(7)]),
        Value::Tuple(vec![Value::string("y"), Value::Int64(8)]),
    ]);
    let got = made(PlainTyped { v: &v, t: &ty }.node());
    assert_eq!(got, parsed(r#"[{"a": "x", "b": 7}, {"a": "y", "b": 8}]"#));
}

#[test]
fn serde_impls_rowser_serializes_row_object() {
    let cols = vec![
        (
            "t".into(),
            Type::TupleNamed(vec![("a".into(), Type::String), ("b".into(), Type::Int64)]),
        ),
        ("n".into(), Type::Nullable(Box::new(Type::Int32))),
    ];
    let row = vec![Value::Tuple(vec![Value::string("z"), Value::Int64(1)]), Value::Null];
    let got = made(RowSer { cols: &cols, row: &row }.node());
    assert_eq!(got, parsed(r#"{"t": {"a": "z", "b": 1}, "n": null}"#));
}

#[test]
fn map_pairs_policy_gives_lists() {
    let ty = Type::MapOf(Box::new(Type::Int64), Box::new(Type::String));
    let v = Value::MapOf(vec![Value::Int64(7)], vec![Value::string("x")]);
    let got = made(TypedWith { v: &v, t: &ty, map_key_policy: MapKeyPolicy::Pairs }.node());
    assert_eq!(got, parsed(r#"[[7, "x"]]"#));
    let cols = vec![("m".to_string(), ty)];
    let row = vec![v];
    let got =
        made(RowSerWith { cols: &cols, row: &row, map_key_policy: MapKeyPolicy::Pairs }.node());
    assert_eq!(got, parsed(r#"{"m": [[7, "x"]]}"#));
}

#[test]
fn null_is_missing_in_every_type() {
    for ty in [Type::Int8, Type::Nullable(Box::new(Type::String)), Type::Object] {
        let node = Typed { v: &Value::Null, t: &ty }.node().unwrap();
        assert!(matches!(node, Node::Missing));
        let node = PlainTyped { v: &Value::Null, t: &ty }.node().unwrap();
        assert!(matches!(node, Node::Missing));
    }
}

#[test]
fn nullable_types_are_transparent() {
    let v = Value::UInt16(300);
    let bare = made(Typed { v: &v, t: &Type::UInt16 }.node());
    let nullable = Type::Nullable(Box::new(Type::UInt16));
    assert_eq!(bare, made(Typed { v: &v, t: &nullable }.node()));
    assert_eq!(bare, parsed("300"));
}

#[test]
fn composite_keys_are_no_names() {
    let key = Value::Tuple(vec![Value::Int32(1)]);
    let ty = Type::MapOf(Box::new(Type::Tuple(vec![Type::Int32])), Box::new(Type::Int8));
    let v = Value::MapOf(vec![key], vec![Value::Int8(1)]);
    let node = TypedWith { v: &v, t: &ty, map_key_policy: MapKeyPolicy::Native }.node().unwrap();
    assert_eq!(
        node.to_json().unwrap_err(),
        Error::DeserializeError(ReadReason::KeyNotAString)
    );
}

#[test]
fn rows_with_a_policy_show_named_tuples_by_position() {
    let cols = vec![(
        "t".to_string(),
        Type::TupleNamed(vec![("a".into(), Type::String), ("b".into(), Type::Int64)]),
    )];
    let row = vec![Value::Tuple(vec![Value::string("z"), Value::Int64(1)])];
    let got =
        made(RowSerWith { cols: &cols, row: &row, map_key_policy: MapKeyPolicy::Stringify }.node());
    assert_eq!(got, parsed(r#"{"t": ["z", 1]}"#));
}
