//! Names of types: identifiers, argument lists, whole types.
use chrono_tz::Tz;
use clickhouse_arrow::type_args::{eat_identifier, parse_fixed_args, parse_variable_args};
use clickhouse_arrow::types::Type;

/// Tests `eat_identifier` for splitting type names and arguments.
#[test]
fn test_eat_identifier() {
    assert_eq!(eat_identifier("Int8"), ("Int8", ""));
    assert_eq!(eat_identifier("Enum8('a'=1)"), ("Enum8", "('a'=1)"));
    assert_eq!(eat_identifier("DateTime('UTC')"), ("DateTime", "('UTC')"));
    assert_eq!(eat_identifier("Map(String,Int32)"), ("Map", "(String,Int32)"));
    assert_eq!(eat_identifier(""), ("", ""));
    assert_eq!(eat_identifier("Invalid Type"), ("Invalid", " Type"));
}

/// Tests `parse_fixed_args` for fixed-size argument lists.
#[test]
fn test_parse_fixed_args() {
    let (args, count) = parse_fixed_args::<2>("(UInt32, String)").unwrap();
    assert_eq!(count, 2);
    assert_eq!(args[..count], ["UInt32", "String"]);

    let (args, count) = parse_fixed_args::<1>("(String)").unwrap();
    assert_eq!(count, 1);
    assert_eq!(args[..count], ["String"]);

    let (args, count) = parse_fixed_args::<2>("(3, 'UTC')").unwrap();
    assert_eq!(count, 2);
    assert_eq!(args[..count], ["3", "'UTC'"]);

    assert!(parse_fixed_args::<1>("(UInt32, String)").is_err()); // Too many args
    assert!(parse_fixed_args::<1>("(()").is_err()); // Mismatched parens
    assert!(parse_fixed_args::<1>("(String,)").is_err()); // Trailing comma
}

/// Tests `parse_variable_args` for variable-size argument lists.
#[test]
fn test_parse_variable_args() {
    let args = parse_variable_args("(Int8, String, Float64)").unwrap();
    assert_eq!(args, vec!["Int8", "String", "Float64"]);

    let args = parse_variable_args("(3, 'UTC', 'extra')").unwrap();
    assert_eq!(args, vec!["3", "'UTC'", "'extra'"]);

    let args = parse_variable_args("(())").unwrap();
    assert_eq!(args, vec!["()"]);

    let args = parse_variable_args("()").unwrap();
    assert_eq!(args, Vec::<&str>::new());

    assert!(parse_variable_args("(()").is_err()); // Mismatched parens
    assert!(parse_variable_args("(String,)").is_err()); // Trailing comma
}

/// Tests `Type::from_str` for primitive types.
#[test]
fn test_from_str_primitives() {
    assert_eq!(Type::from_str("Int8").unwrap(), Type::Int8);
    assert_eq!(Type::from_str("UInt8").unwrap(), Type::UInt8);
    assert_eq!(Type::from_str("Bool").unwrap(), Type::UInt8); // Bool alias
    assert_eq!(Type::from_str("Float64").unwrap(), Type::Float64);
    assert_eq!(Type::from_str("String").unwrap(), Type::String);
    assert_eq!(Type::from_str("UUID").unwrap(), Type::Uuid);
    assert_eq!(Type::from_str("Date").unwrap(), Type::Date);
    assert_eq!(Type::from_str("IPv4").unwrap(), Type::Ipv4);
    assert_eq!(Type::from_str("IPv6").unwrap(), Type::Ipv6);
}

/// Tests `Type::from_str` for decimal types.
#[test]
fn test_from_str_decimals() {
    assert_eq!(Type::from_str("Decimal32(2)").unwrap(), Type::Decimal32(2));
    assert_eq!(Type::from_str("Decimal64(4)").unwrap(), Type::Decimal64(4));
    assert_eq!(Type::from_str("Decimal128(6)").unwrap(), Type::Decimal128(6));
    assert_eq!(Type::from_str("Decimal256(8)").unwrap(), Type::Decimal256(8));
    assert_eq!(Type::from_str("Decimal(9, 2)").unwrap(), Type::Decimal32(2));
    assert_eq!(Type::from_str("Decimal(18, 4)").unwrap(), Type::Decimal64(4));
    assert_eq!(Type::from_str("Decimal(38, 6)").unwrap(), Type::Decimal128(6));
    assert_eq!(Type::from_str("Decimal(76, 8)").unwrap(), Type::Decimal256(8));

    assert!(Type::from_str("Decimal32(0)").is_err()); // Invalid scale
    assert!(Type::from_str("Decimal(77, 8)").is_err()); // Precision too large
    assert!(Type::from_str("Decimal(9)").is_err()); // Missing scale
}

/// Tests `Type::from_str` for string and binary types.
#[test]
fn test_from_str_strings() {
    assert_eq!(Type::from_str("String").unwrap(), Type::String);
    assert_eq!(Type::from_str("FixedString(4)").unwrap(), Type::FixedSizedString(4));
    assert!(Type::from_str("FixedString(0)").is_err()); // Invalid size
    assert!(Type::from_str("FixedString(a)").is_err()); // Invalid size
}

/// Tests `Type::from_str` for date and time types.
#[test]
fn test_from_str_datetime() {
    assert_eq!(Type::from_str("DateTime").unwrap(), Type::DateTime(chrono_tz::UTC));
    assert_eq!(Type::from_str("DateTime('UTC')").unwrap(), Type::DateTime(chrono_tz::UTC));
    assert_eq!(
        Type::from_str("DateTime('America/New_York')").unwrap(),
        Type::DateTime(chrono_tz::America::New_York)
    );
    assert!(Type::from_str("DateTime('UTC', 'extra')").is_err()); // Too many args
    assert!(Type::from_str("DateTime(UTC)").is_err()); // Unquoted timezone

    assert_eq!(Type::from_str("DateTime64(3)").unwrap(), Type::DateTime64(3, chrono_tz::UTC));
    assert_eq!(
        Type::from_str("DateTime64(6, 'UTC')").unwrap(),
        Type::DateTime64(6, chrono_tz::UTC)
    );
    assert_eq!(
        Type::from_str("DateTime64(3, 'America/New_York')").unwrap(),
        Type::DateTime64(3, chrono_tz::America::New_York)
    );
    assert!(Type::from_str("DateTime64()").is_err()); // Too few args
    assert!(Type::from_str("DateTime64(3, 'UTC', 'extra')").is_err()); // Too many args
    assert!(Type::from_str("DateTime64(3, UTC)").is_err()); // Unquoted timezone
}

/// Tests `Type::from_str` for Enum8 with explicit indices.
#[test]
fn test_from_str_enum8_explicit() {
    let enum8 = Type::from_str("Enum8('active' = 1, 'inactive' = 2)").unwrap();
    assert_eq!(enum8, Type::Enum8(vec![("active".into(), 1), ("inactive".into(), 2)]));

    let single = Type::from_str("Enum8('test' = -1)").unwrap();
    assert_eq!(single, Type::Enum8(vec![("test".into(), -1)]));

    let negative = Type::from_str("Enum8('neg' = -128, 'zero' = 0)").unwrap();
    assert_eq!(negative, Type::Enum8(vec![("neg".into(), -128), ("zero".into(), 0)]));
}

/// Tests `Type::from_str` for Enum8 with empty variants.
#[test]
fn test_from_str_enum8_empty() {
    let empty = Type::from_str("Enum8()").unwrap();
    assert_eq!(empty, Type::Enum8(vec![]));
}

/// Tests `Type::from_str` for Enum16 with explicit indices.
#[test]
fn test_from_str_enum16_explicit() {
    let enum16 = Type::from_str("Enum16('high' = 1000, 'low' = -1000)").unwrap();
    assert_eq!(enum16, Type::Enum16(vec![("high".into(), 1000), ("low".into(), -1000)]));

    let single = Type::from_str("Enum16('test' = 0)").unwrap();
    assert_eq!(single, Type::Enum16(vec![("test".into(), 0)]));
}

/// Tests `Type::from_str` error cases for Enum8.
#[test]
fn test_from_str_enum8_errors() {
    assert!(Type::from_str("Enum8('a' = 1, 2)").is_err()); // Lone value
    assert!(Type::from_str("Enum8('a' = x)").is_err()); // Invalid value
    assert!(Type::from_str("Enum8(a = 1)").is_err()); // Unquoted name
    assert!(Type::from_str("Enum8('a' = 1, )").is_err()); // Trailing comma
    assert!(Type::from_str("Enum8('a' = 1").is_err()); // Unclosed paren
}

/// Tests `Type::from_str` error cases for Enum16.
#[test]
fn test_from_str_enum16_errors() {
    assert!(Type::from_str("Enum16('a' = 1, 2)").is_err()); // Lone value
    assert!(Type::from_str("Enum16('a' = x)").is_err()); // Invalid value
    assert!(Type::from_str("Enum16(a = 1)").is_err()); // Unquoted name
    assert!(Type::from_str("Enum16('a' = 1, )").is_err()); // Trailing comma
    assert!(Type::from_str("Enum16('a' = 1").is_err()); // Unclosed paren
}

/// Tests `Type::from_str` for complex types.
#[test]
fn test_from_str_complex_types() {
    assert_eq!(
        Type::from_str("LowCardinality(String)").unwrap(),
        Type::LowCardinality(Box::new(Type::String))
    );
    assert_eq!(Type::from_str("Array(Int32)").unwrap(), Type::Array(Box::new(Type::Int32)));
    assert_eq!(
        Type::from_str("Tuple(Int32, String)").unwrap(),
        Type::Tuple(vec![Type::Int32, Type::String])
    );
    assert_eq!(
        Type::from_str("Nullable(Int32)").unwrap(),
        Type::Nullable(Box::new(Type::Int32))
    );
    assert_eq!(
        Type::from_str("Map(String, Int32)").unwrap(),
        Type::MapOf(Box::new(Type::String), Box::new(Type::Int32))
    );
    assert_eq!(Type::from_str("JSON").unwrap(), Type::JSON {
        max_dynamic_paths: None,
        max_dynamic_types: None,
        typed_paths:       vec![],
        skip_exact:        vec![],
        skip_regex:        vec![],
    });
    assert_eq!(Type::from_str("Object").unwrap(), Type::Object);
    assert_eq!(Type::from_str("Json").unwrap(), Type::Object);

    assert!(Type::from_str("LowCardinality()").is_err()); // Missing arg
    assert!(Type::from_str("Array(Int32, String)").is_err()); // Too many args
    assert!(Type::from_str("Map(String)").is_err()); // Missing value type
}

/// Tests round-trip `to_string` and `from_str` for all types.
#[test]
fn test_round_trip_type_strings() {
    let special_types = vec![
        (Type::Binary, Type::String),
        (Type::FixedSizedBinary(8), Type::FixedSizedString(8)),
    ];

    let types = vec![
        Type::Int8,
        Type::UInt8,
        Type::Float64,
        Type::String,
        Type::FixedSizedString(4),
        Type::Uuid,
        Type::Date,
        Type::Date32,
        Type::DateTime(Tz::UTC),
        Type::DateTime64(3, Tz::America__New_York),
        Type::Ipv4,
        Type::Ipv6,
        Type::Decimal32(2),
        Type::Enum8(vec![("active".into(), 1), ("inactive".into(), 2)]),
        Type::Enum16(vec![("high".into(), 1000)]),
        Type::LowCardinality(Box::new(Type::String)),
        Type::Array(Box::new(Type::Int32)),
        Type::Tuple(vec![Type::Int32, Type::String]),
        Type::Nullable(Box::new(Type::Int32)),
        Type::MapOf(Box::new(Type::String), Box::new(Type::Int32)),
        Type::Object,
    ];

    for ty in types {
        let type_str = ty.to_string();
        let parsed = Type::from_str(&type_str)
            .unwrap_or_else(|e| panic!("Failed to parse '{type_str}' for type {ty:?}: {e:?}"));
        assert_eq!(
            parsed, ty,
            "Round-trip failed for type {ty:?}: expected {ty:?}, got {parsed:?}"
        );
    }

    for (ty, mapped_ty) in special_types {
        let type_str = ty.to_string();
        let parsed = Type::from_str(&type_str)
            .unwrap_or_else(|e| panic!("Failed to parse '{type_str}' for type {ty:?}: {e:?}"));
        assert_eq!(
            parsed, mapped_ty,
            "Round-trip failed for type {ty:?}: expected {mapped_ty:?}, got {parsed:?}"
        );
    }
}

/// Tests error cases for general type parsing.
#[test]
fn test_from_str_general_errors() {
    assert!(Type::from_str("").is_err()); // Empty input
    assert!(Type::from_str("InvalidType").is_err()); // Unknown type
    assert!(Type::from_str("Nested(String)").is_err()); // Unsupported Nested
    assert!(Type::from_str("Int8(").is_err()); // Unclosed paren
    assert!(Type::from_str("Tuple(String,)").is_err()); // Trailing comma
}

/// Tests parsing of parameterized Dynamic and JSON types.
#[test]
fn test_from_str_parameterized_types() {
    // Test Dynamic with parameters
    assert_eq!(Type::from_str("Dynamic").unwrap(), Type::Dynamic { max_types: None });
    assert_eq!(Type::from_str("Dynamic(max_types=16)").unwrap(), Type::Dynamic {
        max_types: Some(16),
    });
    assert_eq!(Type::from_str("Dynamic(max_types=100)").unwrap(), Type::Dynamic {
        max_types: Some(100),
    });

    // Test JSON with parameters
    assert_eq!(Type::from_str("JSON").unwrap(), Type::JSON {
        max_dynamic_paths: None,
        max_dynamic_types: None,
        typed_paths:       vec![],
        skip_exact:        vec![],
        skip_regex:        vec![],
    });
    assert_eq!(Type::from_str("JSON(max_dynamic_paths=16)").unwrap(), Type::JSON {
        max_dynamic_paths: Some(16),
        max_dynamic_types: None,
        typed_paths:       vec![],
        skip_exact:        vec![],
        skip_regex:        vec![],
    });
    assert_eq!(Type::from_str("JSON(max_dynamic_types=64)").unwrap(), Type::JSON {
        max_dynamic_paths: None,
        max_dynamic_types: Some(64),
        typed_paths:       vec![],
        skip_exact:        vec![],
        skip_regex:        vec![],
    });
    assert_eq!(
        Type::from_str("JSON(max_dynamic_paths=100, max_dynamic_types=32)").unwrap(),
        Type::JSON {
            max_dynamic_paths: Some(100),
            max_dynamic_types: Some(32),
            typed_paths:       vec![],
            skip_exact:        vec![],
            skip_regex:        vec![],
        }
    );
    assert_eq!(
        Type::from_str("JSON(max_dynamic_types=32, max_dynamic_paths=100)").unwrap(),
        Type::JSON {
            max_dynamic_paths: Some(100),
            max_dynamic_types: Some(32),
            typed_paths:       vec![],
            skip_exact:        vec![],
            skip_regex:        vec![],
        }
    );

    // Test error cases
    assert!(Type::from_str("Dynamic(invalid_param=16)").is_err());
    assert!(Type::from_str("Dynamic(max_types=abc)").is_err());
    assert!(Type::from_str("JSON(max_dynamic_paths=abc)").is_err());
    assert!(Type::from_str("JSON(max_dynamic_types=xyz)").is_err());

    // Test typed paths parsing
    assert_eq!(
        Type::from_str("JSON(Name String, max_dynamic_paths=100)").unwrap(),
        Type::JSON {
            max_dynamic_paths: Some(100),
            max_dynamic_types: None,
            typed_paths:       vec![("Name".to_string(), Box::new(Type::String))],
            skip_exact:        vec![],
            skip_regex:        vec![],
        }
    );
    assert_eq!(Type::from_str("JSON(Name String, Age Int64)").unwrap(), Type::JSON {
        max_dynamic_paths: None,
        max_dynamic_types: None,
        typed_paths:       vec![
            ("Name".to_string(), Box::new(Type::String)),
            ("Age".to_string(), Box::new(Type::Int64))
        ],
        skip_exact:        vec![],
        skip_regex:        vec![],
    });

    // Test skip paths parsing
    assert_eq!(
        Type::from_str("JSON(SKIP fake.field, max_dynamic_types=32)").unwrap(),
        Type::JSON {
            max_dynamic_paths: None,
            max_dynamic_types: Some(32),
            typed_paths:       vec![],
            skip_exact:        vec!["fake.field".to_string()],
            skip_regex:        vec![],
        }
    );
    assert_eq!(Type::from_str("JSON(SKIP REGEXP '.*\\.debug')").unwrap(), Type::JSON {
        max_dynamic_paths: None,
        max_dynamic_types: None,
        typed_paths:       vec![],
        skip_exact:        vec![],
        skip_regex:        vec![".*\\.debug".to_string()],
    });

    // Test combined typed paths and skip paths
    assert_eq!(
        Type::from_str(
            "JSON(Name String, Age Int64, SKIP REGEXP '.*\\.debug', SKIP temp.field)"
        )
        .unwrap(),
        Type::JSON {
            max_dynamic_paths: None,
            max_dynamic_types: None,
            typed_paths:       vec![
                ("Name".to_string(), Box::new(Type::String)),
                ("Age".to_string(), Box::new(Type::Int64))
            ],
            skip_exact:        vec!["temp.field".to_string()],
            skip_regex:        vec![".*\\.debug".to_string()],
        }
    );
}

/// Tests parsing of JSON with quoted skip paths
#[test]
fn test_json_quoted_skip_paths() {
    // Test single-quoted skip paths
    let json_type = Type::from_str("JSON(SKIP 'field.to.skip')").unwrap();
    if let Type::JSON { skip_exact, skip_regex, .. } = json_type {
        assert_eq!(skip_exact.len(), 1);
        assert_eq!(skip_exact[0], "field.to.skip");
        assert!(skip_regex.is_empty());
    } else {
        panic!("Expected JSON type");
    }

    // Test double-quoted skip paths
    let json_type = Type::from_str("JSON(SKIP \"another.field\")").unwrap();
    if let Type::JSON { skip_exact, skip_regex, .. } = json_type {
        assert_eq!(skip_exact.len(), 1);
        assert_eq!(skip_exact[0], "another.field");
        assert!(skip_regex.is_empty());
    } else {
        panic!("Expected JSON type");
    }

    // Test backtick-quoted skip paths (existing behavior)
    let json_type = Type::from_str("JSON(SKIP `backtick.field`)").unwrap();
    if let Type::JSON { skip_exact, skip_regex, .. } = json_type {
        assert_eq!(skip_exact.len(), 1);
        assert_eq!(skip_exact[0], "backtick.field");
        assert!(skip_regex.is_empty());
    } else {
        panic!("Expected JSON type");
    }

    // Test mixed quotes with multiple skip paths
    let json_type =
        Type::from_str("JSON(SKIP 'single', SKIP \"double\", SKIP `backtick`)").unwrap();
    if let Type::JSON { skip_exact, skip_regex, .. } = json_type {
        assert_eq!(skip_exact.len(), 3);
        assert!(skip_regex.is_empty());
        assert_eq!(skip_exact[0], "single");
        assert_eq!(skip_exact[1], "double");
        assert_eq!(skip_exact[2], "backtick");
    } else {
        panic!("Expected JSON type");
    }

    // Test combined with other parameters
    let json_type =
        Type::from_str("JSON(max_dynamic_paths=100, SKIP 'field.name', Name String)").unwrap();
    if let Type::JSON { max_dynamic_paths, skip_exact, skip_regex, typed_paths, .. } = json_type {
        assert_eq!(max_dynamic_paths, Some(100));
        assert_eq!(skip_exact.len(), 1);
        assert_eq!(skip_exact[0], "field.name");
        assert!(skip_regex.is_empty());
        assert_eq!(typed_paths.len(), 1);
        assert_eq!(typed_paths[0], ("Name".to_string(), Box::new(Type::String)));
    } else {
        panic!("Expected JSON type");
    }
}

/// Tests parsing of JSON typed paths and skip paths.
#[test]
fn test_json_typed_and_skip_paths() {
    // Test basic typed paths
    let json_type = Type::from_str("JSON(Name String, Age UInt32, Score Float64)").unwrap();
    if let Type::JSON { typed_paths, skip_exact, skip_regex, .. } = json_type {
        assert_eq!(typed_paths.len(), 3);
        assert_eq!(typed_paths[0], ("Name".to_string(), Box::new(Type::String)));
        assert_eq!(typed_paths[1], ("Age".to_string(), Box::new(Type::UInt32)));
        assert_eq!(typed_paths[2], ("Score".to_string(), Box::new(Type::Float64)));
        assert!(skip_exact.is_empty());
        assert!(skip_regex.is_empty());
    } else {
        panic!("Expected JSON type");
    }

    // Test basic skip paths
    let json_type = Type::from_str("JSON(SKIP debug.info, SKIP REGEXP '.*\\.temp')").unwrap();
    if let Type::JSON { typed_paths, skip_exact, skip_regex, .. } = json_type {
        assert!(typed_paths.is_empty());
        assert_eq!(skip_exact, vec!["debug.info".to_string()]);
        assert_eq!(skip_regex, vec![".*\\.temp".to_string()]);
    } else {
        panic!("Expected JSON type");
    }

    // Test complex nested types in typed paths
    let json_type =
        Type::from_str("JSON(UserData Nullable(String), Scores Array(Float64))").unwrap();
    if let Type::JSON { typed_paths, .. } = json_type {
        assert_eq!(typed_paths.len(), 2);
        assert_eq!(
            typed_paths[0],
            ("UserData".to_string(), Box::new(Type::Nullable(Box::new(Type::String))))
        );
        assert_eq!(
            typed_paths[1],
            ("Scores".to_string(), Box::new(Type::Array(Box::new(Type::Float64))))
        );
    } else {
        panic!("Expected JSON type");
    }

    // Test backtick-quoted field names
    let json_type = Type::from_str("JSON(`user.name` String, `data.count` Int32)").unwrap();
    if let Type::JSON { typed_paths, .. } = json_type {
        assert_eq!(typed_paths.len(), 2);
        assert_eq!(typed_paths[0], ("user.name".to_string(), Box::new(Type::String)));
        assert_eq!(typed_paths[1], ("data.count".to_string(), Box::new(Type::Int32)));
    } else {
        panic!("Expected JSON type");
    }

    // Test invalid type in typed path should be silently ignored
    let json_type =
        Type::from_str("JSON(ValidName String, InvalidType UnknownType, AnotherValid UInt64)")
            .unwrap();
    if let Type::JSON { typed_paths, .. } = json_type {
        // Should only have the valid types
        assert_eq!(typed_paths.len(), 2);
        assert_eq!(typed_paths[0], ("ValidName".to_string(), Box::new(Type::String)));
        assert_eq!(typed_paths[1], ("AnotherValid".to_string(), Box::new(Type::UInt64)));
    } else {
        panic!("Expected JSON type");
    }
}

/// Tests round-trip serialization/parsing of parameterized types.
#[test]
fn test_round_trip_parameterized_types() {
    // Test that Display and FromStr are consistent for parameterized types
    let test_cases = vec![
        Type::Dynamic { max_types: None },
        Type::Dynamic { max_types: Some(16) },
        Type::Dynamic { max_types: Some(100) },
        Type::JSON {
            max_dynamic_paths: None,
            max_dynamic_types: None,
            typed_paths:       vec![],
            skip_exact:        vec![],
            skip_regex:        vec![],
        },
        Type::JSON {
            max_dynamic_paths: Some(16),
            max_dynamic_types: None,
            typed_paths:       vec![],
            skip_exact:        vec![],
            skip_regex:        vec![],
        },
        Type::JSON {
            max_dynamic_paths: None,
            max_dynamic_types: Some(64),
            typed_paths:       vec![],
            skip_exact:        vec![],
            skip_regex:        vec![],
        },
        Type::JSON {
            max_dynamic_paths: Some(100),
            max_dynamic_types: Some(32),
            typed_paths:       vec![],
            skip_exact:        vec![],
            skip_regex:        vec![],
        },
        Type::JSON {
            max_dynamic_paths: None,
            max_dynamic_types: None,
            typed_paths:       vec![("Name".to_string(), Box::new(Type::String))],
            skip_exact:        vec!["debug.field".to_string()],
            skip_regex:        vec![],
        },
    ];

    for original_type in test_cases {
        let type_string = original_type.to_string();
        let parsed_type = Type::from_str(&type_string)
            .unwrap_or_else(|e| panic!("Failed to parse '{type_string}': {e:?}"));
        assert_eq!(
            original_type, parsed_type,
            "Round-trip failed: {original_type:?} -> {type_string} -> {parsed_type:?}"
        );
    }
}

/// Tests parsing of simple Variant types
#[test]
fn test_parse_simple_variant() {
    let variant = Type::from_str("Variant(String, UInt64, Date)").unwrap();
    match variant {
        Type::Variant(types) => {
            assert_eq!(types.len(), 3);
            assert_eq!(types[0], Type::String);
            assert_eq!(types[1], Type::UInt64);
            assert_eq!(types[2], Type::Date);
        }
        _ => panic!("Expected Variant type"),
    }
}

/// Tests parsing of nested Variant types
#[test]
fn test_parse_nested_variant() {
    let variant = Type::from_str("Variant(String, Variant(UInt64, Date))").unwrap();
    match variant {
        Type::Variant(types) => {
            assert_eq!(types.len(), 2);
            assert_eq!(types[0], Type::String);

            // Check the nested variant
            match &types[1] {
                Type::Variant(inner_types) => {
                    assert_eq!(inner_types.len(), 2);
                    assert_eq!(inner_types[0], Type::UInt64);
                    assert_eq!(inner_types[1], Type::Date);
                }
                _ => panic!("Expected nested Variant type"),
            }
        }
        _ => panic!("Expected Variant type"),
    }
}

/// Tests parsing of deeply nested Variant types
#[test]
fn test_parse_deeply_nested_variant() {
    let variant =
        Type::from_str("Variant(String, Variant(UInt64, Variant(Date, Float32)))").unwrap();
    match variant {
        Type::Variant(types) => {
            assert_eq!(types.len(), 2);
            assert_eq!(types[0], Type::String);

            // Check the first level nested variant
            match &types[1] {
                Type::Variant(inner_types) => {
                    assert_eq!(inner_types.len(), 2);
                    assert_eq!(inner_types[0], Type::UInt64);

                    // Check the second level nested variant
                    match &inner_types[1] {
                        Type::Variant(deep_types) => {
                            assert_eq!(deep_types.len(), 2);
                            assert_eq!(deep_types[0], Type::Date);
                            assert_eq!(deep_types[1], Type::Float32);
                        }
                        _ => panic!("Expected deeply nested Variant type"),
                    }
                }
                _ => panic!("Expected nested Variant type"),
            }
        }
        _ => panic!("Expected Variant type"),
    }
}

/// Tests parsing of Variant with other complex types
#[test]
fn test_parse_variant_with_other_complex_types() {
    // Variant containing Array and Nullable types
    let variant = Type::from_str("Variant(String, Array(UInt64), Nullable(Date))").unwrap();
    match variant {
        Type::Variant(types) => {
            assert_eq!(types.len(), 3);
            assert_eq!(types[0], Type::String);

            match &types[1] {
                Type::Array(inner) => {
                    assert_eq!(**inner, Type::UInt64);
                }
                _ => panic!("Expected Array type"),
            }

            match &types[2] {
                Type::Nullable(inner) => {
                    assert_eq!(**inner, Type::Date);
                }
                _ => panic!("Expected Nullable type"),
            }
        }
        _ => panic!("Expected Variant type"),
    }
}

/// Tests parsing of Variant containing a Tuple
#[test]
fn test_parse_variant_with_tuple() {
    let variant = Type::from_str("Variant(String, Tuple(UInt64, Date))").unwrap();
    match variant {
        Type::Variant(types) => {
            assert_eq!(types.len(), 2);
            assert_eq!(types[0], Type::String);

            match &types[1] {
                Type::Tuple(inner_types) => {
                    assert_eq!(inner_types.len(), 2);
                    assert_eq!(inner_types[0], Type::UInt64);
                    assert_eq!(inner_types[1], Type::Date);
                }
                _ => panic!("Expected Tuple type"),
            }
        }
        _ => panic!("Expected Variant type"),
    }
}

/// Tests parsing of Variant containing a Map
#[test]
fn test_parse_variant_with_map() {
    let variant = Type::from_str("Variant(String, Map(String, UInt64))").unwrap();
    match variant {
        Type::Variant(types) => {
            assert_eq!(types.len(), 2);
            assert_eq!(types[0], Type::String);

            match &types[1] {
                Type::MapOf(key, value) => {
                    assert_eq!(**key, Type::String);
                    assert_eq!(**value, Type::UInt64);
                }
                _ => panic!("Expected Map type"),
            }
        }
        _ => panic!("Expected Variant type"),
    }
}

/// Tests parsing of a complex nested Variant with multiple levels
#[test]
fn test_parse_complex_nested_variant() {
    let variant = Type::from_str(
        "Variant(String, Array(Variant(UInt64, Nullable(Date))), Map(String, Variant(Float32, \
         Bool)))",
    )
    .unwrap();
    match variant {
        Type::Variant(types) => {
            assert_eq!(types.len(), 3);
            assert_eq!(types[0], Type::String);

            // Check Array of Variant
            match &types[1] {
                Type::Array(inner) => match &**inner {
                    Type::Variant(var_types) => {
                        assert_eq!(var_types.len(), 2);
                        assert_eq!(var_types[0], Type::UInt64);
                        match &var_types[1] {
                            Type::Nullable(nullable_inner) => {
                                assert_eq!(**nullable_inner, Type::Date);
                            }
                            _ => panic!("Expected Nullable type"),
                        }
                    }
                    _ => panic!("Expected Variant type inside Array"),
                },
                _ => panic!("Expected Array type"),
            }

            // Check Map with Variant value
            match &types[2] {
                Type::MapOf(key, value) => {
                    assert_eq!(**key, Type::String);
                    match &**value {
                        Type::Variant(var_types) => {
                            assert_eq!(var_types.len(), 2);
                            assert_eq!(var_types[0], Type::Float32);
                            assert_eq!(var_types[1], Type::UInt8); // Bool is UInt8
                        }
                        _ => panic!("Expected Variant type as Map value"),
                    }
                }
                _ => panic!("Expected Map type"),
            }
        }
        _ => panic!("Expected Variant type"),
    }
}

/// Tests that empty Variant should fail
#[test]
fn test_parse_variant_empty_should_fail() {
    let result = Type::from_str("Variant()");
    assert!(result.is_err());
    if let Err(e) = result {
        assert!(e.to_string().contains("at least one type argument"));
    }
}
