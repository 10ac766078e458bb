//! Queries, their identifiers and their parameters.
use clickhouse_arrow::query::{ParamValue, ParsedQuery, Qid, QueryParams};

#[test]
fn identifiers_are_written_as_hexadecimal_digits() {
    let id = Qid::from_u128(0x0123_4567_89ab_cdef_0011_2233_4455_6677);
    assert_eq!(id.to_string(), "0123456789abcdef0011223344556677");
    let mut out = Vec::new();
    id.write_id(&mut out);
    assert_eq!(out[0], 32);
    assert_eq!(&out[1..], b"0123456789abcdef0011223344556677");
}

#[test]
fn the_key_of_an_identifier_is_the_sum_of_its_bytes() {
    assert_eq!(Qid::from_u128(0).key(), 0);
    assert_eq!(Qid::from_u128(0xff).key(), 255);
    assert_eq!(Qid::from_u128(u128::MAX).key(), 16 * 255);
    assert_eq!(Qid::from_u128((1 << 64) + 2).key(), 3);
}

#[test]
fn new_identifiers_are_random_ones() {
    let a = Qid::new().into_inner();
    assert_eq!((a >> 76) & 0xf, 4);
    assert_eq!((a >> 62) & 0x3, 2);
    assert_ne!(a, Qid::default().into_inner());
    assert_eq!(Qid::from_option(Some(7)).into_inner(), 7);
    let b = Qid::from_option(None).into_inner();
    assert_eq!((b >> 76) & 0xf, 4);
}

#[test]
fn queries_have_no_white_space_around_them() {
    let q = ParsedQuery::new("  SELECT 1\n");
    assert_eq!(q.as_str(), "SELECT 1");
    assert_eq!(ParsedQuery::new(q.as_str()), q);
    assert_eq!(ParsedQuery::new(" \t").as_str(), "");
}

#[test]
fn parameters_keep_their_order() {
    let params = vec![
        ("b".to_string(), ParamValue::Text("x".to_string())),
        ("a".to_string(), ParamValue::Int(-3)),
        ("c".to_string(), ParamValue::Bool(true)),
    ];
    let settings = QueryParams::new(params.clone()).into_settings();
    assert_eq!(settings, params);
}
