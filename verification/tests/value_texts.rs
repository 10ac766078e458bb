//! Texts of values, and of what they are made of.
use chrono_tz::UTC;
use clickhouse_arrow::big_int::{big_int_to_string, big_uint_to_string};
use clickhouse_arrow::coerce::convert_to_type;
use clickhouse_arrow::error::{Error, WriteReason};
use clickhouse_arrow::float_bits::{
    double_to_i64, double_to_single, double_to_u64, int_to_double, single_to_double,
};
use clickhouse_arrow::json_object::set_nested_value_segments;
use clickhouse_arrow::json_value::{JsonNumber, JsonValue};
use clickhouse_arrow::sql_json::Json;
use clickhouse_arrow::text::{int_to_string, parse_int, parse_uint, split, to_chars, uint_to_string};
use clickhouse_arrow::type_args::eat_identifier;
use clickhouse_arrow::types::Type;
use clickhouse_arrow::value_display::Piece;
use clickhouse_arrow::value_text::{
    date_to_string, datetime64_to_rfc3339, datetime64_to_string, datetime_to_rfc3339,
    datetime_to_string, escape_string, format_decimal, ipv6_to_string, put_point,
    LAST_LOCAL_SECOND,
};
use clickhouse_arrow::values::{i256, u256, Date, DateTime, DynDateTime64, Ipv4, Ipv6, Point, Value};

/// The text of a value, with numbers of floating point in brackets.
fn shown(v: &Value) -> String {
    let mut out = String::new();
    for piece in v.display().unwrap() {
        match piece {
            Piece::Text(s) => out.push_str(&s),
            Piece::Float32(b) => out.push_str(&format!("<{}>", f32::from_bits(b))),
            Piece::Float64(b) => out.push_str(&format!("<{}>", f64::from_bits(b))),
            Piece::Coordinate(b) => out.push_str(&format!("{:?}", f64::from_bits(b))),
        }
    }
    out
}

#[test]
fn values_are_shown_as_in_a_query() {
    assert_eq!(shown(&Value::Int8(-5)), "-5");
    assert_eq!(shown(&Value::UInt128(5)), "5::UInt128");
    assert_eq!(shown(&Value::Int128(-5)), "-5::Int128");
    assert_eq!(shown(&Value::Float64(1.5f64.to_bits())), "<1.5>");
    assert_eq!(shown(&Value::Float32(1.5f32.to_bits())), "<1.5>");
    assert_eq!(shown(&Value::Bool(true)), "true");
    assert_eq!(shown(&Value::Null), "NULL");
    assert_eq!(shown(&Value::string("a'b\n")), "'a\\'b\\n'");
    assert_eq!(shown(&Value::Decimal32(2, 1234)), "12.34");
    assert_eq!(shown(&Value::Uuid(1)), "'00000000-0000-0000-0000-000000000001'");
    assert_eq!(shown(&Value::Date(Date(0))), "'makeDate(1970-01-01)'");
    assert_eq!(
        shown(&Value::DateTime(DateTime(UTC, 0))),
        "parseDateTimeBestEffort('1970-01-01T00:00:00Z')"
    );
    assert_eq!(shown(&Value::Array(vec![Value::Int8(1), Value::Int8(2)])), "[1,2]");
    assert_eq!(shown(&Value::Tuple(vec![Value::Int8(1), Value::string("x")])), "(1,'x')");
    assert_eq!(shown(&Value::MapOf(vec![Value::string("k")], vec![Value::Int8(1)])), "{'k':1}");
    assert_eq!(shown(&Value::Variant(3, Box::new(Value::Int8(1)))), "variant(3,1)");
    assert_eq!(
        shown(&Value::Dynamic("Int8".to_string(), Box::new(Value::Int8(1)))),
        "dynamic('Int8',1)"
    );
    assert_eq!(shown(&Value::Ipv4(Ipv4(0x7f00_0001))), "'127.0.0.1'");
    assert_eq!(shown(&Value::Ipv6(Ipv6([0; 16]))), "'::'");
    assert_eq!(
        shown(&Value::Point(Point(1.0f64.to_bits(), 2.5f64.to_bits()))),
        "Point([1.0, 2.5])"
    );
    assert_eq!(shown(&Value::Enum8("on".to_string(), 1)), "on");
    let document = JsonValue::Object(vec![
        ("b".to_string(), JsonValue::Number(JsonNumber::Float(0.5f64.to_bits()))),
        ("a".to_string(), JsonValue::String("it's".to_string())),
    ]);
    assert_eq!(shown(&Value::Json(document)), "'{\"a\":\"it\\'s\",\"b\":0.5}'");
}

#[test]
fn times_that_no_calendar_holds_are_refused() {
    let v = Value::DateTime64(DynDateTime64(UTC, 1, 20));
    assert_eq!(
        v.display().unwrap_err(),
        Error::SerializeError(WriteReason::InvalidDateTime)
    );
}

#[test]
fn maps_with_a_key_too_many_are_refused() {
    let v = Value::MapOf(vec![Value::Int8(1)], vec![]);
    assert_eq!(
        v.display().unwrap_err(),
        Error::SerializeError(WriteReason::UnsupportedValue)
    );
}

#[test]
fn integers_of_256_bits() {
    let mut bytes = [0u8; 32];
    bytes[31] = 7;
    assert_eq!(big_uint_to_string(&bytes), "7");
    assert_eq!(big_int_to_string(&[0xff; 32]), "-1");
    bytes = [0; 32];
    bytes[15] = 1;
    assert_eq!(big_uint_to_string(&bytes), "340282366920938463463374607431768211456");
    assert_eq!(shown(&Value::Int256(i256([0xff; 32]))), "-1::Int256");
    assert_eq!(shown(&Value::UInt256(u256([0; 32]))), "0::UInt256");
}

#[test]
fn decimals_have_their_point() {
    assert_eq!(format_decimal("1234", 2), "12.34");
    assert_eq!(format_decimal("-5", 3), "-0.005");
    assert_eq!(format_decimal("5", 0), "5");
    assert_eq!(put_point("1234", 2), "12.34");
}

#[test]
fn quotes_are_escaped() {
    let mut out = String::new();
    escape_string(&mut out, b"it's");
    assert_eq!(out, "it\\'s");
}

#[test]
fn days_and_times() {
    assert_eq!(date_to_string(19737).unwrap(), "2024-01-15");
    assert_eq!(datetime_to_string(UTC, 1_705_320_600).unwrap(), "2024-01-15 12:10:00");
    let york = chrono_tz::America::New_York;
    assert_eq!(datetime_to_string(york, 1_705_320_600).unwrap(), "2024-01-15 07:10:00");
    assert_eq!(
        datetime64_to_string(UTC, 1_705_320_600_123, 3, 3).unwrap(),
        "2024-01-15 12:10:00.123"
    );
    assert_eq!(
        datetime_to_rfc3339(york, 1_705_320_600).unwrap(),
        "2024-01-15T07:10:00-05:00"
    );
    assert_eq!(
        datetime64_to_rfc3339(UTC, 1_705_320_600_123, 3).unwrap(),
        "2024-01-15T12:10:00.123Z"
    );
    assert!(datetime64_to_string(UTC, 1, 10, 3).is_none());
}

#[test]
fn numbers_and_their_texts() {
    assert_eq!(uint_to_string(0), "0");
    assert_eq!(int_to_string(-120), "-120");
    assert_eq!(parse_uint(&to_chars("0042"), 100), Some(42));
    assert_eq!(parse_uint(&to_chars("101"), 100), None);
    assert_eq!(parse_uint(&to_chars(""), 100), None);
    assert_eq!(parse_int(&to_chars("-8"), -8, 7), Some(-8));
    assert_eq!(parse_int(&to_chars("+7"), -8, 7), Some(7));
    assert_eq!(parse_int(&to_chars("8"), -8, 7), None);
    assert_eq!(split(&to_chars("a.b."), '.'), vec!["a", "b", ""]);
}

#[test]
fn bits_of_floating_point() {
    for x in [0i128, 1, -1, 3, 1 << 53, (1 << 53) + 1, (1 << 60) + 65, -(1 << 63) - 1] {
        assert_eq!(int_to_double(x), (x as f64).to_bits());
    }
    for x in [0.0f64, -0.0, 1.5, 0.1, 1e40, 1e-40, 1e-46, f64::INFINITY, -3.4028235677973366e38] {
        assert_eq!(double_to_single(x.to_bits()), (x as f32).to_bits());
        assert_eq!(double_to_i64(x.to_bits()), x as i64);
        assert_eq!(double_to_u64(x.to_bits()), x as u64);
    }
    for x in [-1.5f64, 1e18, -1e18, 1e19, 2e19, -1e300, f64::NAN] {
        assert_eq!(double_to_i64(x.to_bits()), x as i64);
        assert_eq!(double_to_u64(x.to_bits()), x as u64);
    }
    for x in [0.0f32, 1.5, 0.1, 1e-45, -1e-40, f32::MAX, f32::NEG_INFINITY] {
        assert_eq!(single_to_double(x.to_bits()), (x as f64).to_bits());
    }
}

#[test]
fn values_are_converted_to_types() {
    assert_eq!(convert_to_type(&Value::Int64(256), &Type::UInt8).unwrap(), Value::UInt8(0));
    assert_eq!(convert_to_type(&Value::Int64(-1), &Type::UInt8).unwrap(), Value::UInt8(255));
    assert_eq!(
        convert_to_type(&Value::string("3.14"), &Type::Float64).unwrap(),
        Value::Float64(3.14f64.to_bits())
    );
    assert_eq!(
        convert_to_type(&Value::string("x"), &Type::Variant(vec![Type::String, Type::Int64]))
            .unwrap(),
        Value::Variant(1, Box::new(Value::string("x")))
    );
    assert_eq!(
        convert_to_type(&Value::string("x"), &Type::Variant(vec![Type::UInt32, Type::Int32]))
            .unwrap_err(),
        Error::SerializeError(WriteReason::NoMatchingVariant)
    );
}

#[test]
fn values_are_set_at_nested_paths() {
    let one = || JsonValue::Number(JsonNumber::PosInt(1));
    let mut object = Vec::new();
    let path = ["a".to_string(), "b".to_string()];
    set_nested_value_segments(&mut object, &path, one()).unwrap();
    assert_eq!(
        object,
        vec![("a".to_string(), JsonValue::Object(vec![("b".to_string(), one())]))]
    );
    let deeper = ["a".to_string(), "b".to_string(), "c".to_string()];
    assert!(set_nested_value_segments(&mut object, &deeper, one()).is_err());
    assert!(set_nested_value_segments(&mut object, &[], one()).is_err());
}

#[test]
fn documents_are_held_by_values() {
    let document = JsonValue::Array(vec![JsonValue::Bool(true)]);
    let held = Json(document.clone()).to_sql(None).unwrap();
    assert_eq!(held, Value::Json(document.clone()));
    assert_eq!(Json::from_sql(&Type::String, held).unwrap().0, document);
    assert_eq!(Json::from_sql(&Type::String, Value::string("[true]")).unwrap().0, document);
    assert!(Json::from_sql(&Type::String, Value::string("[")).is_err());
    assert!(Json::from_sql(&Type::String, Value::Int8(1)).is_err());
}

#[test]
fn objects_are_shown_by_the_string_that_they_hold() {
    assert_eq!(shown(&Value::Object(b"\"a'b\"".to_vec())), "'a\\'b'");
    assert_eq!(shown(&Value::Object(b"null".to_vec())), "''");
    assert_eq!(shown(&Value::Object(b"{\"a\":1}".to_vec())), "'{\"a\":1}'");
    assert_eq!(shown(&Value::Object(vec![0xff])), "''");
}

#[test]
fn malformed_text_is_replaced_in_documents() {
    let v = Value::String(vec![b'a', 0xff, b'b']);
    assert_eq!(v.to_json().unwrap(), JsonValue::String("a\u{fffd}b".to_string()));
}

#[test]
fn identifiers_hold_letters_beyond_ascii() {
    assert_eq!(eat_identifier("\u{fc}ber\u{b2} x"), ("\u{fc}ber\u{b2}", " x"));
    assert_eq!(eat_identifier("\u{b2}x"), ("", "\u{b2}x"));
}

#[test]
fn addresses_of_sixteen_bytes() {
    let text = |groups: [u16; 8]| {
        let octets: Vec<u8> = groups.iter().flat_map(|g| g.to_be_bytes()).collect();
        ipv6_to_string(&octets)
    };
    assert_eq!(text([0, 0, 0, 0, 0, 0, 0, 1]), "::1");
    assert_eq!(text([1, 0, 0, 0, 0, 0, 0, 0]), "1::");
    assert_eq!(text([0xfe80, 0, 0, 1, 0, 0, 0, 2]), "fe80:0:0:1::2");
    assert_eq!(text([1, 0, 0, 2, 3, 0, 0, 4]), "1::2:3:0:0:4");
    assert_eq!(text([1, 0, 2, 3, 4, 5, 6, 7]), "1:0:2:3:4:5:6:7");
    assert_eq!(text([0, 0, 0, 0, 0, 0xffff, 0xc0a8, 0x0101]), "::ffff:192.168.1.1");
    assert_eq!(ipv6_to_string(&[1, 2]), "");
}

#[test]
fn documents_are_written_in_order() {
    let document = JsonValue::Object(vec![
        ("z".to_string(), JsonValue::Array(vec![JsonValue::Null, JsonValue::Bool(true)])),
        ("a".to_string(), JsonValue::Number(JsonNumber::NegInt(-3))),
        ("z".to_string(), JsonValue::Number(JsonNumber::Float(f64::NAN.to_bits()))),
    ]);
    assert_eq!(document.to_text(), b"{\"a\":-3,\"z\":null}");
}

#[test]
fn moments_up_to_the_last_local_one() {
    let last = LAST_LOCAL_SECOND as u64;
    assert_eq!(datetime64_to_string(UTC, last, 0, 0).unwrap(), "+262142-12-31 23:59:59");
    assert_eq!(datetime64_to_rfc3339(UTC, last, 0).unwrap(), "+262142-12-31T23:59:59Z");
    assert!(datetime64_to_string(UTC, last + 1, 0, 0).is_none());
    assert!(datetime64_to_rfc3339(UTC, last + 1, 0).is_none());
    let east = chrono_tz::Asia::Tokyo;
    assert!(datetime64_to_rfc3339(east, last, 0).is_none());
    assert_eq!(
        datetime64_to_rfc3339(east, last - 9 * 3600, 0).unwrap(),
        "+262142-12-31T23:59:59+09:00"
    );
    let west = chrono_tz::America::Lima;
    assert_eq!(
        datetime64_to_rfc3339(west, last, 0).unwrap(),
        "+262142-12-31T18:59:59-05:00"
    );
    assert!(datetime64_to_string(UTC, u64::MAX, 0, 0).is_none());
}

#[test]
fn documents_are_compared_by_their_values() {
    let number = |x: f64| JsonValue::Number(JsonNumber::Float(x.to_bits()));
    let member = |name: &str, j: JsonValue| (name.to_string(), j);
    assert_eq!(number(0.0), number(-0.0));
    assert_ne!(number(0.0), number(0.5));
    assert_ne!(number(1.0), JsonValue::Number(JsonNumber::PosInt(1)));
    let a = JsonValue::Object(vec![
        member("x", number(0.0)),
        member("y", JsonValue::Array(vec![JsonValue::Null])),
    ]);
    let b = JsonValue::Object(vec![
        member("y", JsonValue::Array(vec![JsonValue::Null])),
        member("x", number(-0.0)),
    ]);
    assert_eq!(a, b);
    assert_eq!(Value::Json(a), Value::Json(b));
    assert_ne!(
        JsonValue::Array(vec![JsonValue::Null, JsonValue::Bool(true)]),
        JsonValue::Array(vec![JsonValue::Bool(true), JsonValue::Null])
    );
}
