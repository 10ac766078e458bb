//! Cells of JSON rows as values of columns.
use clickhouse_arrow::error::{Error, WriteReason};
use clickhouse_arrow::ingest::{
    cell_to_value, i16_from_i64, i32_from_i64, i8_from_i64, u16_from_u64, u32_from_u64, u8_from_u64,
};
use clickhouse_arrow::json_text::parse_json;
use clickhouse_arrow::types::Type;
use clickhouse_arrow::values::Value;

fn cell(text: &str, ty: Type, strict: bool) -> Result<Value, Error> {
    let v: serde_json::Value = serde_json::from_str(text).unwrap();
    cell_to_value(Some(&v), &ty, strict, false)
}

fn nullable(ty: Type) -> Type {
    Type::Nullable(Box::new(ty))
}

#[test]
fn cells_that_are_not_there() {
    assert_eq!(cell_to_value(None, &nullable(Type::Int8), true, false).unwrap(), Value::Null);
    assert_eq!(cell_to_value(None, &Type::Int8, true, true).unwrap(), Value::Int8(0));
    assert_eq!(
        cell_to_value(None, &Type::Int8, true, false).unwrap_err(),
        Error::SerializeError(WriteReason::MissingColumn)
    );
}

#[test]
fn numbers_become_numbers() {
    assert_eq!(cell("7", Type::UInt8, true).unwrap(), Value::UInt8(7));
    assert_eq!(cell("-7", Type::Int16, true).unwrap(), Value::Int16(-7));
    assert_eq!(cell("70000", Type::UInt32, true).unwrap(), Value::UInt32(70000));
    assert_eq!(cell("2.5", Type::Float64, true).unwrap(), Value::Float64(2.5f64.to_bits()));
    assert_eq!(cell("2.5", Type::Float32, true).unwrap(), Value::Float32(2.5f32.to_bits()));
    assert!(cell("256", Type::UInt8, true).is_err());
    assert!(cell("-1", Type::UInt64, true).is_err());
}

#[test]
fn texts_of_numbers_are_read_unless_strict() {
    assert_eq!(cell("\"12\"", Type::Int32, false).unwrap(), Value::Int32(12));
    assert_eq!(cell("\"1.25\"", Type::Float64, false).unwrap(), Value::Float64(1.25f64.to_bits()));
    assert!(cell("\"12\"", Type::Int32, true).is_err());
    assert!(cell("\"twelve\"", Type::Int32, false).is_err());
}

#[test]
fn strings_take_anything() {
    assert_eq!(cell("\"a\"", Type::String, true).unwrap(), Value::string("a"));
    assert_eq!(cell("[1,2]", Type::String, true).unwrap(), Value::string("[1,2]"));
    assert_eq!(cell("null", nullable(Type::String), true).unwrap(), Value::Null);
    assert_eq!(cell("null", Type::String, true).unwrap(), Value::string(""));
}

#[test]
fn documents_stay_documents() {
    let ty = Type::from_str("JSON").unwrap();
    let text = "{\"a\":[1,null,true]}";
    let expected = parse_json(text.as_bytes()).unwrap();
    assert_eq!(cell(text, ty, true).unwrap(), Value::Json(expected));
    assert_eq!(
        cell(text, Type::Object, true).unwrap(),
        Value::Object(text.as_bytes().to_vec())
    );
}

#[test]
fn other_types_are_not_mapped() {
    assert_eq!(
        cell("1", Type::Date, true).unwrap_err(),
        Error::SerializeError(WriteReason::UnsupportedMapping)
    );
}

#[test]
fn narrow_integers() {
    assert_eq!(u8_from_u64(255).unwrap(), 255);
    assert!(u8_from_u64(256).is_err());
    assert_eq!(u16_from_u64(65535).unwrap(), 65535);
    assert!(u16_from_u64(65536).is_err());
    assert_eq!(u32_from_u64(4_294_967_295).unwrap(), 4_294_967_295);
    assert!(u32_from_u64(4_294_967_296).is_err());
    assert_eq!(i8_from_i64(-128).unwrap(), -128);
    assert!(i8_from_i64(128).is_err());
    assert_eq!(i16_from_i64(-32768).unwrap(), -32768);
    assert!(i16_from_i64(32768).is_err());
    assert_eq!(i32_from_i64(-2_147_483_648).unwrap(), -2_147_483_648);
    assert!(i32_from_i64(2_147_483_648).is_err());
}
