//! Columns with sparse elements, alone and inside of arrays and tuples.
use clickhouse_arrow::column_read::{DeserializerState, KindPlan};
use clickhouse_arrow::sparse::{read_sparse_with_path, SparseRuntime};
use clickhouse_arrow::types::Type;
use clickhouse_arrow::values::Value;
use clickhouse_arrow::wire::put_var_uint;

#[test]
fn array_of_tuple_with_sparse_element() {
    // Type: Array(Tuple(UInt64, UInt64))
    // 3 rows with offsets [2,2,3] -> total 3 items
    // Tuple e0 is SPARSE, e1 is DEFAULT
    let inner_tuple = Type::Tuple(vec![Type::UInt64, Type::UInt64]);
    let ty = Type::Array(Box::new(inner_tuple));

    let mut bytes = Vec::new();
    // Offsets per row
    bytes.extend_from_slice(&(2u64).to_le_bytes());
    bytes.extend_from_slice(&(2u64).to_le_bytes());
    bytes.extend_from_slice(&(3u64).to_le_bytes());

    // Now inner tuple data for 3 items:
    // Element 0 (UInt64, SPARSE over 3 items): indices at 0 and 2
    // Groups: 0 (first), 1 (gap to next), end flag 0 (no trailing)
    put_var_uint(&mut bytes, 0);
    put_var_uint(&mut bytes, 1);
    put_var_uint(&mut bytes, 1u64 << 62);
    // values: two u64 (for 2 indices)
    bytes.extend_from_slice(&7u64.to_le_bytes());
    bytes.extend_from_slice(&9u64.to_le_bytes());

    // Element 1 (UInt64, DEFAULT): 3 values
    bytes.extend_from_slice(&100u64.to_le_bytes());
    bytes.extend_from_slice(&200u64.to_le_bytes());
    bytes.extend_from_slice(&300u64.to_le_bytes());

    let mut reader: &[u8] = &bytes;
    let mut state = DeserializerState::default();
        // Plan kinds: [] for Array (ignored), [0] for inner tuple, then elements
    state.kind_plan = Some(KindPlan::new(vec![
        (vec![], 0),       // array node
        (vec![0], 0),      // tuple node
        (vec![0, 0], 1),   // tuple e0 sparse
        (vec![0, 1], 0),   // tuple e1 default
    ]));

    let out = ty
        .deserialize_column(&mut reader, 3, &mut state)
        .expect("array(tuple) read");

    assert_eq!(out.len(), 3);
    // row0 has 2 items: (7,100), (0,200)
    if let Value::Array(items) = &out[0] {
        assert_eq!(items.len(), 2);
        if let Value::Tuple(v) = &items[0] {
            assert!(matches!(v[0], Value::UInt64(7)));
            assert!(matches!(v[1], Value::UInt64(100)));
        } else { panic!("expected tuple"); }
        if let Value::Tuple(v) = &items[1] {
            assert!(matches!(v[0], Value::UInt64(0)));
            assert!(matches!(v[1], Value::UInt64(200)));
        } else { panic!("expected tuple"); }
    } else { panic!("expected array"); }

    // row2 has 1 item: (9,300)
    if let Value::Array(items) = &out[2] {
        assert_eq!(items.len(), 1);
        if let Value::Tuple(v) = &items[0] {
            assert!(matches!(v[0], Value::UInt64(9)));
            assert!(matches!(v[1], Value::UInt64(300)));
        } else { panic!("expected tuple"); }
    } else { panic!("expected array"); }
}

#[test]
fn array_of_nested_tuple_sparse() {
    // Type: Array(Tuple(UUID, Tuple(UInt64)))
    // Plan kinds (synthetic):
    // []            = DEFAULT (array)
    // [0]           = DEFAULT (outer tuple)
    // [0,0]         = SPARSE  (UUID)
    // [0,1]         = DEFAULT (inner tuple)
    // [0,1,0]       = SPARSE  (UInt64)
    let inner = Type::Tuple(vec![Type::UInt64]);
    let tuple = Type::Tuple(vec![Type::Uuid, inner]);
    let ty = Type::Array(Box::new(tuple));

    // Offsets for 2 rows: [1,3] -> total 3 items
    let mut bytes = Vec::new();
    bytes.extend_from_slice(&(1u64).to_le_bytes());
    bytes.extend_from_slice(&(3u64).to_le_bytes());

    // Now 3 tuple items flattened
    // UUID (sparse) across 3: present at item 0 and 2
    put_var_uint(&mut bytes, 0); // first value immediately
    put_var_uint(&mut bytes, 1); // gap of 1 till next
    put_var_uint(&mut bytes, 1u64 << 62); // end, no trailing defaults
    let u0a: u64 = 0x01010101_02020202; let u0b: u64 = 0x03030303_04040404;
    let u2a: u64 = 0xa0a0a0a0_b0b0b0b0; let u2b: u64 = 0xc0c0c0c0_d0d0d0d0;
    bytes.extend_from_slice(&u0a.to_le_bytes()); bytes.extend_from_slice(&u0b.to_le_bytes());
    bytes.extend_from_slice(&u2a.to_le_bytes()); bytes.extend_from_slice(&u2b.to_le_bytes());

    // Inner UInt64 (sparse) across 3: present at item 1 only
    put_var_uint(&mut bytes, 1); // one default before first value
    put_var_uint(&mut bytes, (1u64 << 62) | 1); // end with one trailing default
    bytes.extend_from_slice(&777u64.to_le_bytes());

    let mut reader: &[u8] = &bytes;
    let mut state = DeserializerState::default();
        state.kind_plan = Some(KindPlan::new(vec![
        (vec![], 0),        // array
        (vec![0], 0),       // outer tuple
        (vec![0, 0], 1),    // uuid sparse
        (vec![0, 1], 0),    // inner tuple
        (vec![0, 1, 0], 1), // inner uint64 sparse
    ]));

    let out = ty.deserialize_column(&mut reader, 2, &mut state).expect("array nested tuple");
    assert_eq!(out.len(), 2);

    // Row 0 has 1 item: (uuid0, (default))
    if let Value::Array(items) = &out[0] {
        assert_eq!(items.len(), 1);
        if let Value::Tuple(t) = &items[0] {
            if let Value::Uuid(u) = t[0] {
                assert_eq!(u, ((u128::from(u0a) << 64) | u128::from(u0b)));
            } else { panic!("uuid0"); }
            if let Value::Tuple(it) = &t[1] {
                assert!(matches!(it[0], Value::UInt64(0)));
            } else { panic!("inner"); }
        } else { panic!("tuple"); }
    } else { panic!("array"); }

    // Row 1 has 2 items: (default uuid, (777)), (uuid2, (default))
    if let Value::Array(items) = &out[1] {
        assert_eq!(items.len(), 2);
        if let Value::Tuple(t) = &items[0] {
            if let Value::Uuid(u) = t[0] { assert_eq!(u, 0); } else { panic!("uuid"); }
            if let Value::Tuple(it) = &t[1] { assert!(matches!(it[0], Value::UInt64(777))); } else { panic!("inner"); }
        } else { panic!("tuple"); }
        if let Value::Tuple(t) = &items[1] {
            if let Value::Uuid(u) = t[0] {
                assert_eq!(u, ((u128::from(u2a) << 64) | u128::from(u2b)));
            } else { panic!("uuid2"); }
            if let Value::Tuple(it) = &t[1] { assert!(matches!(it[0], Value::UInt64(0))); } else { panic!("inner"); }
        } else { panic!("tuple"); }
    } else { panic!("array"); }
}

#[test]
fn nested_basic_deserialize() {
    // Nested(id UInt64, val UInt64) -> Array(Tuple(UInt64, UInt64))
    let ty = Type::from_str("Nested(id UInt64, val UInt64)").unwrap();

    // 2 rows, offsets [1,3] => total 3 items
    let mut bytes = Vec::new();
    bytes.extend_from_slice(&(1u64).to_le_bytes());
    bytes.extend_from_slice(&(3u64).to_le_bytes());

    // Tuple field 0 (id): 3 values
    for v in [10u64, 20u64, 30u64] {
        bytes.extend_from_slice(&v.to_le_bytes());
    }
    // Tuple field 1 (val): 3 values
    for v in [100u64, 200u64, 300u64] {
        bytes.extend_from_slice(&v.to_le_bytes());
    }

    let mut reader: &[u8] = &bytes;
    let mut state = DeserializerState::default();

    let out = ty
        .deserialize_column(&mut reader, 2, &mut state)
        .expect("nested deserialize");

    assert_eq!(out.len(), 2);
    // Row 0: one item (10,100)
    if let Value::Array(items) = &out[0] {
        assert_eq!(items.len(), 1);
        if let Value::Tuple(t) = &items[0] {
            assert!(matches!(t[0], Value::UInt64(10)));
            assert!(matches!(t[1], Value::UInt64(100)));
        } else { panic!("expected tuple"); }
    } else { panic!("expected array"); }

    // Row 1: two items (20,200), (30,300)
    if let Value::Array(items) = &out[1] {
        assert_eq!(items.len(), 2);
        if let Value::Tuple(t) = &items[0] {
            assert!(matches!(t[0], Value::UInt64(20)));
            assert!(matches!(t[1], Value::UInt64(200)));
        } else { panic!("expected tuple"); }
        if let Value::Tuple(t) = &items[1] {
            assert!(matches!(t[0], Value::UInt64(30)));
            assert!(matches!(t[1], Value::UInt64(300)));
        } else { panic!("expected tuple"); }
    } else { panic!("expected array"); }
}

#[test]
fn tuple_sparse_mixed() {
    // Plan: Tuple(UInt64, UInt64, Uuid)
    // kinds: []=DEFAULT, [0]=SPARSE, [1]=DEFAULT, [2]=SPARSE
    let types = vec![Type::UInt64, Type::UInt64, Type::Uuid];
    let tuple_ty = Type::Tuple(types);
    let rows = 6usize;

    // Build raw bytes for element 0 (UInt64, SPARSE): indices at 1 and 4
    let mut bytes = Vec::new();
    // Offsets groups: 1, 2, end-flag 1
    put_var_uint(&mut bytes, 1);
    put_var_uint(&mut bytes, 2);
    put_var_uint(&mut bytes, (1u64 << 62) | 1);
    // values: two u64 (10, 20)
    bytes.extend_from_slice(&10u64.to_le_bytes());
    bytes.extend_from_slice(&20u64.to_le_bytes());

    // Element 1 (UInt64, DEFAULT): 6 values 100..105
    for v in 100u64..106u64 {
        bytes.extend_from_slice(&v.to_le_bytes());
    }

    // Element 2 (Uuid, SPARSE): indices at 0 and 5
    // Offsets groups: 0, 4, end-flag 0
    put_var_uint(&mut bytes, 0);
    put_var_uint(&mut bytes, 4);
    put_var_uint(&mut bytes, 1u64 << 62);
    // values: two uuids as (u64,u64)
    let u0a: u64 = 0x11111111_22222222;
    let u0b: u64 = 0x33333333_44444444;
    let u1a: u64 = 0xaaaaaaaa_bbbbbbbb;
    let u1b: u64 = 0xcccccccc_dddddddd;
    bytes.extend_from_slice(&u0a.to_le_bytes());
    bytes.extend_from_slice(&u0b.to_le_bytes());
    bytes.extend_from_slice(&u1a.to_le_bytes());
    bytes.extend_from_slice(&u1b.to_le_bytes());

    let mut reader: &[u8] = &bytes;

    // Prepare state with kind plan
    let mut state = DeserializerState::default();
        state.kind_plan = Some(KindPlan::new(vec![
        (vec![], 0),          // tuple node default
        (vec![0], 1),         // e0 sparse
        (vec![1], 0),         // e1 default
        (vec![2], 1),         // e2 sparse
    ]));

    // Read tuple column
    let out = tuple_ty
        .deserialize_column(&mut reader, rows, &mut state)
        .expect("tuple read");

    assert_eq!(out.len(), rows);
    // Validate several rows
    // row 0: e0=default(0), e1=100, e2=uuid0 present
    if let Value::Tuple(v) = &out[0] {
        assert!(matches!(v[0], Value::UInt64(0)));
        assert!(matches!(v[1], Value::UInt64(100)));
        match v[2] {
            Value::Uuid(u) => {
                assert_eq!(u, ((u128::from(u0a) << 64) | u128::from(u0b)));
            }
            _ => panic!("expected uuid"),
        }
    } else {
        panic!("expected tuple value");
    }

    // row 1: e0=10, e1=101, e2=default (all-zero uuid)
    if let Value::Tuple(v) = &out[1] {
        assert!(matches!(v[0], Value::UInt64(10)));
        assert!(matches!(v[1], Value::UInt64(101)));
        match v[2] {
            Value::Uuid(u) => {
                assert_eq!(u, 0);
            }
            _ => panic!("expected uuid"),
        }
    }

    // row 4: e0=20, e1=104, e2=default
    if let Value::Tuple(v) = &out[4] {
        assert!(matches!(v[0], Value::UInt64(20)));
        assert!(matches!(v[1], Value::UInt64(104)));
        match v[2] {
            Value::Uuid(u) => {
                assert_eq!(u, 0);
            }
            _ => panic!("expected uuid"),
        }
    }

    // row 5: e0=default(0), e1=105, e2=uuid1 present
    if let Value::Tuple(v) = &out[5] {
        assert!(matches!(v[0], Value::UInt64(0)));
        assert!(matches!(v[1], Value::UInt64(105)));
        match v[2] {
            Value::Uuid(u) => {
                assert_eq!(u, ((u128::from(u1a) << 64) | u128::from(u1b)));
            }
            _ => panic!("expected uuid"),
        }
    }
}

#[test]
fn nested_tuple_sparse_elements() {
    // Type: Tuple(UInt64, Tuple(UInt64, UUID))
    // Kinds plan:
    //  []      = DEFAULT (tuple root)
    //  [0]     = SPARSE  (outer first element sparse)
    //  [1]     = DEFAULT (inner tuple)
    //  [1,0]   = DEFAULT (inner first element dense)
    //  [1,1]   = SPARSE  (inner second element sparse)
    let inner = Type::Tuple(vec![Type::UInt64, Type::Uuid]);
    let tuple_ty = Type::Tuple(vec![Type::UInt64, inner]);
    let rows = 5usize;

    let mut bytes = Vec::new();

    // Element [0] (UInt64, SPARSE): indices at 1 and 3
    // Groups: 1 (defaults before first), 1 (gap), end flag 1 (one trailing default)
    put_var_uint(&mut bytes, 1);
    put_var_uint(&mut bytes, 1);
    put_var_uint(&mut bytes, (1u64 << 62) | 1);
    // values: two u64 (11, 33)
    bytes.extend_from_slice(&11u64.to_le_bytes());
    bytes.extend_from_slice(&33u64.to_le_bytes());

    // Inner tuple [1]
    // Element [1,0] (UInt64, DEFAULT): 5 values
    for v in 100u64..105u64 {
        bytes.extend_from_slice(&v.to_le_bytes());
    }
    // Element [1,1] (UUID, SPARSE): indices at 0 and 4
    // Groups: 0, 3, end flag 0
    put_var_uint(&mut bytes, 0);
    put_var_uint(&mut bytes, 3);
    put_var_uint(&mut bytes, 1u64 << 62);
    // two UUIDs
    let a1: u64 = 0x01020304_05060708;
    let a2: u64 = 0x090a0b0c_0d0e0f10;
    let b1: u64 = 0x11223344_55667788;
    let b2: u64 = 0x99aabbcc_ddeeff00;
    bytes.extend_from_slice(&a1.to_le_bytes());
    bytes.extend_from_slice(&a2.to_le_bytes());
    bytes.extend_from_slice(&b1.to_le_bytes());
    bytes.extend_from_slice(&b2.to_le_bytes());

    let mut reader: &[u8] = &bytes;
    let mut state = DeserializerState::default();
        state.kind_plan = Some(KindPlan::new(vec![
        (vec![], 0),      // tuple root
        (vec![0], 1),     // outer first elem sparse
        (vec![1], 0),     // inner tuple default
        (vec![1, 0], 0),  // inner first elem dense
        (vec![1, 1], 1),  // inner second elem sparse
    ]));

    let out = tuple_ty
        .deserialize_column(&mut reader, rows, &mut state)
        .expect("nested tuple read");

    assert_eq!(out.len(), rows);
    // Row 0: [0]=default(0), inner=(100, uuid a)
    if let Value::Tuple(v) = &out[0] {
        assert!(matches!(v[0], Value::UInt64(0)));
        if let Value::Tuple(iv) = &v[1] {
            assert!(matches!(iv[0], Value::UInt64(100)));
            if let Value::Uuid(u) = iv[1] {
                assert_eq!(u, ((u128::from(a1) << 64) | u128::from(a2)));
            } else { panic!("expected uuid"); }
        } else { panic!("expected inner tuple"); }
    } else { panic!("expected tuple"); }

    // Row 1: [0]=11 present, inner=(101, default uuid)
    if let Value::Tuple(v) = &out[1] {
        assert!(matches!(v[0], Value::UInt64(11)));
        if let Value::Tuple(iv) = &v[1] {
            assert!(matches!(iv[0], Value::UInt64(101)));
            if let Value::Uuid(u) = iv[1] { assert_eq!(u, 0); } else { panic!("uuid"); }
        } else { panic!("inner"); }
    } else { panic!("tuple"); }

    // Row 3: [0]=33 present, inner=(103, default)
    if let Value::Tuple(v) = &out[3] {
        assert!(matches!(v[0], Value::UInt64(33)));
        if let Value::Tuple(iv) = &v[1] {
            assert!(matches!(iv[0], Value::UInt64(103)));
            if let Value::Uuid(u) = iv[1] { assert_eq!(u, 0); } else { panic!("uuid"); }
        } else { panic!("inner"); }
    } else { panic!("tuple"); }

    // Row 4: [0]=default(0), inner=(104, uuid b)
    if let Value::Tuple(v) = &out[4] {
        assert!(matches!(v[0], Value::UInt64(0)));
        if let Value::Tuple(iv) = &v[1] {
            assert!(matches!(iv[0], Value::UInt64(104)));
            if let Value::Uuid(u) = iv[1] {
                assert_eq!(u, ((u128::from(b1) << 64) | u128::from(b2)));
            } else { panic!("uuid"); }
        } else { panic!("inner"); }
    } else { panic!("tuple"); }
}

#[test]
fn test_sparse_string_generic_async() {
    // Build offsets for 10 rows: non-defaults at 1 and 5
    let mut bytes = Vec::new();
    put_var_uint(&mut bytes, 1); // defaults before first value
    put_var_uint(&mut bytes, 3); // gap to next value
    put_var_uint(&mut bytes, (1u64 << 62) | 4); // end-of-granule with trailing defaults

    // Elements: two strings "a", "bbb"
    // String layout: varUInt length + bytes
    put_var_uint(&mut bytes, 1);
    bytes.extend_from_slice(b"a");
    put_var_uint(&mut bytes, 3);
    bytes.extend_from_slice(b"bbb");

    let mut reader: &[u8] = &bytes;
    let ty = Type::String;
    let mut runtime = SparseRuntime::new();

    let out = read_sparse_with_path(&ty, &mut reader, 10, &mut runtime, Vec::new()).unwrap();
    assert_eq!(out.len(), 10);
    let get_str = |v: &Value| match v {
        Value::String(s) => String::from_utf8_lossy(s).to_string(),
        _ => panic!("expected String"),
    };
    assert_eq!(get_str(&out[0]), "");
    assert_eq!(get_str(&out[1]), "a");
    assert_eq!(get_str(&out[5]), "bbb");
    assert_eq!(get_str(&out[9]), "");
}
