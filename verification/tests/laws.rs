//! What holds of several operations together, on values.
use clickhouse_arrow::column_read::DeserializerState;
use clickhouse_arrow::error::{ComplexType, Error, WriteReason};
use clickhouse_arrow::json_columns::{
    JsonSerializer, JSON_OBJECT_VERSION_V1, JSON_OBJECT_VERSION_V2,
};
use clickhouse_arrow::json_object::set_nested_value_segments;
use clickhouse_arrow::json_paths::{extract_paths_from_json, Rules};
use clickhouse_arrow::json_text::parse_json;
use clickhouse_arrow::json_value::JsonValue;
use clickhouse_arrow::state::SerializerState;
use clickhouse_arrow::text::{split, to_chars};
use clickhouse_arrow::types::Type;
use clickhouse_arrow::value_text::escape_string;
use clickhouse_arrow::values::Value;
use clickhouse_arrow::variant::DiscriminatorMap;

fn reads_back(ty: Type) {
    assert_eq!(Type::from_str(&ty.to_string()).unwrap(), ty);
}

#[test]
fn nested_types_are_read_back_from_their_names() {
    let odd = vec![("it's".to_string(), 1), ("a\\b, c)".to_string(), -128)];
    reads_back(Type::Enum8(odd.clone()));
    reads_back(Type::Array(Box::new(Type::Enum8(odd.clone()))));
    reads_back(Type::Tuple(vec![Type::Enum8(odd), Type::MapOf(
        Box::new(Type::String),
        Box::new(Type::Variant(vec![Type::DateTime64(9, chrono_tz::Europe::Paris), Type::Uuid])),
    )]));
    reads_back(Type::Enum16(vec![("ends in \\".to_string(), 7)]));
    reads_back(Type::Tuple(vec![]));
    reads_back(Type::JSON {
        max_dynamic_paths: Some(8),
        max_dynamic_types: Some(4),
        typed_paths: vec![
            ("a.b".to_string(), Box::new(Type::Array(Box::new(Type::Decimal64(3))))),
            ("c_1".to_string(), Box::new(Type::Dynamic { max_types: Some(2) })),
        ],
        skip_exact: vec!["d.e".to_string()],
        skip_regex: vec![".*_x".to_string()],
    });
}

#[test]
fn some_names_are_those_of_other_types() {
    assert_eq!(Type::from_str(&Type::Bool.to_string()).unwrap(), Type::UInt8);
    assert_eq!(Type::from_str(&Type::Binary.to_string()).unwrap(), Type::String);
    let named = Type::TupleNamed(vec![("a".to_string(), Type::Int8)]);
    assert_eq!(Type::from_str(&named.to_string()).unwrap(), Type::Tuple(vec![Type::Int8]));
    let nested = Type::Array(Box::new(Type::Enum8(vec![("a\\".to_string(), 1)])));
    assert!(Type::from_str(&nested.to_string()).is_err());
}

#[test]
fn whole_columns_are_read_back() {
    let json = Type::from_str("JSON(max_dynamic_paths=1)").unwrap();
    let document = |s: &str| Value::Json(parse_json(s.as_bytes()).unwrap());
    let columns = vec![
        (Type::Array(Box::new(Type::UInt8)), vec![Value::Array(vec![Value::UInt8(3)])]),
        (
            Type::Dynamic { max_types: None },
            vec![Value::Null, Value::string("x"), Value::Int64(-5)],
        ),
        (json, vec![document("{\"a\":1,\"b\":{\"c\":\"x\"}}"), document("{\"a\":2}")]),
    ];
    for (ty, values) in columns {
        for version in [None, Some(JSON_OBJECT_VERSION_V1), Some(JSON_OBJECT_VERSION_V2)] {
            let mut out = Vec::new();
            ty.write_column(&values, version, Some((25, 6, 1)), &mut out).unwrap();
            let mut reader = &out[..];
            let back = ty.read_column(&mut reader, values.len()).unwrap();
            assert_eq!(reader.len(), 0);
            assert_eq!(back, values, "{ty:?} in {version:?}");
        }
    }
}

#[test]
fn old_servers_take_no_dynamic_columns() {
    let mut out = Vec::new();
    let ty = Type::Dynamic { max_types: None };
    let result = ty.write_column(&vec![Value::Int8(1)], None, Some((25, 5, 0)), &mut out);
    assert_eq!(
        result.unwrap_err(),
        Error::SerializeError(WriteReason::ServerTooOld(ComplexType::Dynamic, 25, 5))
    );
}

#[test]
fn leaves_make_the_document() {
    let document =
        parse_json(b"{\"a\":{\"b\":\"x\",\"c\":{\"d\":\"y\"}},\"e\":\"z\"}").unwrap();
    let rules = Rules { typed: vec![], exact: vec![], patterns: vec![] };
    let leaves = extract_paths_from_json(&document, &rules).unwrap();
    let paths: Vec<&str> = leaves.iter().map(|(path, _)| path.as_str()).collect();
    assert_eq!(paths, vec!["a.b", "a.c.d", "e"]);
    let mut object = Vec::new();
    for (path, value) in &leaves {
        let segments = split(&to_chars(path), '.');
        set_nested_value_segments(&mut object, &segments, value.to_json().unwrap()).unwrap();
    }
    assert_eq!(JsonValue::Object(object), document);
}

#[test]
fn kept_paths_are_the_most_frequent_ones() {
    let text = |s: &str| Value::String(s.as_bytes().to_vec());
    let values = vec![text("{\"r\":1,\"s\":1}"), text("{\"s\":1,\"t\":1}"), text("{\"t\":1}")];
    let ty = Type::from_str("JSON(max_dynamic_paths=2)").unwrap();
    let state = JsonSerializer::analyze_values_with_version(
        &values,
        &ty,
        Some(JSON_OBJECT_VERSION_V2),
    )
    .unwrap();
    assert_eq!(state.dynamic_paths(), vec!["s", "t"]);
    assert_eq!(state.shared_path_columns.unwrap()[0].0, "r");
}

#[test]
fn empty_columns_take_no_bytes() {
    let mut out = Vec::new();
    Type::String.serialize_column(&vec![], &mut out, &mut SerializerState::default()).unwrap();
    assert!(out.is_empty());
    let mut reader = &out[..];
    let back =
        Type::String.deserialize_column(&mut reader, 0, &mut DeserializerState::default()).unwrap();
    assert!(back.is_empty());
}

#[test]
fn reordered_types_keep_their_discriminators() {
    let types = vec![Type::String, Type::Array(Box::new(Type::Int8)), Type::UInt64];
    let reordered = vec![Type::UInt64, Type::String, Type::Array(Box::new(Type::Int8))];
    let map = DiscriminatorMap::new(&types);
    assert_eq!(map.types(), DiscriminatorMap::new(&reordered).types());
    assert_eq!(map.get_type(0), Some(&Type::Array(Box::new(Type::Int8))));
    assert_eq!(map.get_type(3), None);
}

#[test]
fn arrays_of_the_same_types_have_one_type() {
    let array = |values: Vec<Value>| Value::Array(values).guess_type();
    let first = array(vec![Value::Int8(1), Value::string("a"), Value::Int8(2)]);
    assert_eq!(first, array(vec![Value::string("b"), Value::Null, Value::Int8(3)]));
    assert_eq!(first, Type::Array(Box::new(Type::Variant(vec![Type::Int8, Type::String]))));
    assert_eq!(array(vec![Value::Null]), Type::Array(Box::new(Type::String)));
    assert_eq!(array(vec![]), Type::Array(Box::new(Type::String)));
}

#[test]
fn shown_strings_are_told_apart() {
    let shown = |bytes: &[u8]| {
        let mut out = String::new();
        escape_string(&mut out, bytes);
        out
    };
    assert_eq!(shown(&[0x8a, b'\'', 0, b'a']), "\\x8A\\'\\0a");
    let mut seen: Vec<String> = (0..=255u8).map(|b| shown(&[b])).collect();
    for text in &seen {
        assert!(text.chars().all(|c| c.is_ascii() && !('\x07'..='\x0d').contains(&c) && c != '\0'));
    }
    seen.sort();
    seen.dedup();
    assert_eq!(seen.len(), 256);
}

#[test]
fn arrays_of_several_types_come_back_under_discriminators() {
    let bare = Value::Array(vec![Value::string("a"), Value::Int64(7), Value::Null]);
    let told = Value::Array(vec![
        Value::Variant(1, Box::new(Value::string("a"))),
        Value::Variant(0, Box::new(Value::Int64(7))),
        Value::Variant(255, Box::new(Value::Null)),
    ]);
    let variant = Type::Variant(vec![Type::String, Type::Int64]);
    let columns = vec![
        (Type::Array(Box::new(variant.clone())), bare.clone(), told.clone()),
        (
            Type::Array(Box::new(Type::Array(Box::new(variant)))),
            Value::Array(vec![bare.clone()]),
            Value::Array(vec![told.clone()]),
        ),
        (Type::Dynamic { max_types: None }, bare, told),
    ];
    for (ty, values, expected) in columns {
        let mut out = Vec::new();
        ty.write_column(&vec![values], None, Some((25, 6, 1)), &mut out).unwrap();
        let mut reader = &out[..];
        let back = ty.read_column(&mut reader, 1).unwrap();
        assert_eq!(reader.len(), 0);
        assert_eq!(back, vec![expected], "{ty:?}");
    }
}

#[test]
fn arrays_of_several_types_in_documents_come_back_as_they_are() {
    let ty = Type::from_str("JSON").unwrap();
    let document = |s: &str| Value::Json(parse_json(s.as_bytes()).unwrap());
    let values = vec![
        document("{\"a\":[1,\"x\",2.5],\"b\":[[1,\"y\"],[\"z\"]]}"),
        document("{\"a\":[\"u\",null,3]}"),
        document("{\"a\":4}"),
    ];
    for version in [None, Some(JSON_OBJECT_VERSION_V1), Some(JSON_OBJECT_VERSION_V2)] {
        let mut out = Vec::new();
        ty.write_column(&values, version, Some((25, 6, 1)), &mut out).unwrap();
        let mut reader = &out[..];
        let back = ty.read_column(&mut reader, values.len()).unwrap();
        assert_eq!(reader.len(), 0);
        assert_eq!(back, values, "{version:?}");
    }
}

#[test]
fn documents_come_back_whatever_the_order_of_typed_paths() {
    let ty = Type::from_str("JSON(b Int64, a String)").unwrap();
    let values = vec![Value::Json(parse_json(b"{\"a\":\"x\",\"b\":-1,\"c\":2}").unwrap())];
    for version in [None, Some(JSON_OBJECT_VERSION_V1), Some(JSON_OBJECT_VERSION_V2)] {
        let mut out = Vec::new();
        ty.write_column(&values, version, Some((25, 6, 1)), &mut out).unwrap();
        let mut reader = &out[..];
        assert_eq!(ty.read_column(&mut reader, 1).unwrap(), values, "{version:?}");
        assert_eq!(reader.len(), 0);
    }
}

#[test]
fn nulls_in_arrays_of_one_type_come_back_as_its_default() {
    let ty = Type::from_str("JSON").unwrap();
    let document = |s: &str| Value::Json(parse_json(s.as_bytes()).unwrap());
    let mut out = Vec::new();
    let values = vec![document("{\"a\":[1,null]}")];
    ty.write_column(&values, None, Some((25, 6, 1)), &mut out).unwrap();
    let mut reader = &out[..];
    assert_eq!(ty.read_column(&mut reader, 1).unwrap(), vec![document("{\"a\":[1,0]}")]);
    assert_eq!(reader.len(), 0);
}
