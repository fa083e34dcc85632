use parquetry::schema::{
    analyze_schema, RawField, RawKind, RawLogical, RawPhysical, Repetition, Schema,
};
use parquetry::sort::{Sort, SortKey};
use parquetry::error::SortKeyError;
use parquetry::value::Value;

fn simple_schema() -> Schema {
    let leaf = |name: &str, repetition, logical, physical| RawField {
        name: name.to_string(),
        repetition,
        logical,
        kind: RawKind::Primitive(physical),
    };
    let root = RawField {
        name: "simple".to_string(),
        repetition: Repetition::Required,
        logical: RawLogical::Plain,
        kind: RawKind::Group(vec![
            leaf(
                "abc",
                Repetition::Required,
                RawLogical::Integer { bit_width: 64, signed: false },
                RawPhysical::Int64,
            ),
            leaf("def", Repetition::Optional, RawLogical::Str, RawPhysical::ByteArray),
            leaf(
                "mno",
                Repetition::Required,
                RawLogical::Integer { bit_width: 32, signed: false },
                RawPhysical::Int32,
            ),
            leaf("raw", Repetition::Optional, RawLogical::Plain, RawPhysical::ByteArray),
        ]),
    };
    analyze_schema(&root).expect("schema should analyze")
}

const ABC: usize = 0;
const DEF: usize = 1;
const MNO: usize = 2;
const RAW: usize = 3;

fn record(abc: u64, def: Option<&[u8]>, mno: u32) -> Value {
    Value::Group(vec![
        Value::U64(abc),
        match def {
            Some(b) => Value::Str(b.to_vec()),
            None => Value::Null,
        },
        Value::U32(mno),
        Value::Null,
    ])
}

#[test]
fn sort_key_rejects_bad_descriptors() {
    let schema = simple_schema();
    assert_eq!(schema.sort_key(&vec![]), Err(SortKeyError::UnsupportedLength(0)));
    let six = vec![Sort::new(ABC); 6];
    assert_eq!(schema.sort_key(&six), Err(SortKeyError::UnsupportedLength(6)));
    let with_raw = vec![Sort::new(ABC), Sort::new(RAW)];
    assert_eq!(schema.sort_key(&with_raw), Err(SortKeyError::NonSingletonByteArrayKey));
}

#[test]
fn sort_key_keeps_selectors_in_order() {
    let schema = simple_schema();
    let key = schema.sort_key(&vec![Sort::new(MNO), Sort::new(ABC)]).unwrap();
    match key {
        SortKey::Columns2(a, b) => {
            assert_eq!(a.column, MNO);
            assert_eq!(b.column, ABC);
            assert!(!a.descending && !a.nulls_first);
        }
        _ => panic!("expected two columns"),
    }
}

#[test]
fn sort_by_key_bytes_matches_tuple_order() {
    let schema = simple_schema();
    let key = schema.sort_key(&vec![Sort::new(MNO), Sort::new(ABC)]).unwrap();
    let tuples: Vec<(u32, u64)> = vec![
        (5, 1),
        (1, 9),
        (5, 1),
        (0, u64::MAX),
        (u32::MAX, 0),
        (1, 2),
        (5, 0),
    ];
    let mut by_bytes: Vec<(u32, u64)> = tuples.clone();
    by_bytes.sort_by_key(|t| {
        let row = record(t.1, None, t.0);
        schema.sort_key_value(&row, &key)
    });
    let mut by_fields = tuples.clone();
    by_fields.sort_by_key(|t| (t.0, t.1));
    assert_eq!(by_bytes, by_fields);
}

#[test]
fn null_placement_orders_absent_values() {
    let schema = simple_schema();
    let some_row = record(0, Some(b"x"), 0);
    let none_row = record(0, None, 0);
    for descending in [false, true] {
        // nulls last (the default): encode(Some) < encode(None)
        let mut sel = Sort::new(DEF);
        if descending {
            sel = sel.descending();
        }
        let key = schema.sort_key(&vec![sel]).unwrap();
        let some_bytes = schema.sort_key_value(&some_row, &key);
        let none_bytes = schema.sort_key_value(&none_row, &key);
        assert!(some_bytes < none_bytes);
        // nulls first: encode(None) < encode(Some)
        let key = schema.sort_key(&vec![sel.nulls_first()]).unwrap();
        let some_bytes = schema.sort_key_value(&some_row, &key);
        let none_bytes = schema.sort_key_value(&none_row, &key);
        assert!(none_bytes < some_bytes);
    }
}

#[test]
fn string_keys_are_delimited() {
    let schema = simple_schema();
    let ab = record(0, Some(b"ab"), 0);
    let ab1 = record(0, Some(b"ab\x01"), 0);
    let ac = record(0, Some(b"ac"), 0);
    let key = schema.sort_key(&vec![Sort::new(DEF)]).unwrap();
    let e_ab = schema.sort_key_value(&ab, &key);
    let e_ab1 = schema.sort_key_value(&ab1, &key);
    let e_ac = schema.sort_key_value(&ac, &key);
    assert!(e_ab < e_ab1);
    assert!(e_ab1 < e_ac);
    let key = schema.sort_key(&vec![Sort::new(DEF).descending()]).unwrap();
    let d_ab = schema.sort_key_value(&ab, &key);
    let d_ab1 = schema.sort_key_value(&ab1, &key);
    let d_ac = schema.sort_key_value(&ac, &key);
    assert!(d_ac < d_ab1);
    assert!(d_ab1 < d_ab);
}

#[test]
fn descending_flips_numeric_order() {
    let schema = simple_schema();
    let lo = record(3, None, 0);
    let hi = record(12, None, 0);
    let key = schema.sort_key(&vec![Sort::new(ABC)]).unwrap();
    assert!(schema.sort_key_value(&lo, &key) < schema.sort_key_value(&hi, &key));
    let key = schema.sort_key(&vec![Sort::new(ABC).descending()]).unwrap();
    assert!(schema.sort_key_value(&hi, &key) < schema.sort_key_value(&lo, &key));
}

#[test]
fn timestamps_normalize_to_microseconds() {
    // a millisecond timestamp column encodes as its microsecond form
    let leaf = RawField {
        name: "ts".to_string(),
        repetition: Repetition::Required,
        logical: RawLogical::Timestamp {
            utc: true,
            unit: parquetry::schema::RawTimeUnit::Millis,
        },
        kind: RawKind::Primitive(RawPhysical::Int64),
    };
    let root = RawField {
        name: "t".to_string(),
        repetition: Repetition::Required,
        logical: RawLogical::Plain,
        kind: RawKind::Group(vec![leaf]),
    };
    let schema = analyze_schema(&root).unwrap();
    let key = schema.sort_key(&vec![Sort::new(0usize)]).unwrap();
    let row = Value::Group(vec![Value::TimestampMillis(2)]);
    let bytes = schema.sort_key_value(&row, &key);
    // 2 ms == 2000 us, big-endian over eight bytes with the sign bit
    // flipped so that negative timestamps rank first
    assert_eq!(bytes, vec![0x80, 0, 0, 0, 0, 0, 0x07, 0xd0]);
    let earlier = Value::Group(vec![Value::TimestampMillis(-5)]);
    assert!(schema.sort_key_value(&earlier, &key) < bytes);
}

fn one_leaf_schema(logical: RawLogical, physical: RawPhysical) -> Schema {
    let root = RawField {
        name: "t".to_string(),
        repetition: Repetition::Required,
        logical: RawLogical::Plain,
        kind: RawKind::Group(vec![RawField {
            name: "x".to_string(),
            repetition: Repetition::Required,
            logical,
            kind: RawKind::Primitive(physical),
        }]),
    };
    analyze_schema(&root).unwrap()
}

#[test]
fn signed_integers_order_across_zero() {
    let schema = one_leaf_schema(RawLogical::Plain, RawPhysical::Int32);
    let key = schema.sort_key(&vec![Sort::new(0usize)]).unwrap();
    let enc = |v: i32| schema.sort_key_value(&Value::Group(vec![Value::I32(v)]), &key);
    assert!(enc(i32::MIN) < enc(-1));
    assert!(enc(-1) < enc(0));
    assert!(enc(0) < enc(1));
    assert!(enc(1) < enc(i32::MAX));
    let key = schema.sort_key(&vec![Sort::new(0usize).descending()]).unwrap();
    let dec = |v: i32| schema.sort_key_value(&Value::Group(vec![Value::I32(v)]), &key);
    assert!(dec(0) < dec(-1));
    assert!(dec(1) < dec(0));
}

#[test]
fn dates_order_across_the_epoch() {
    let schema = one_leaf_schema(RawLogical::Date, RawPhysical::Int32);
    let key = schema.sort_key(&vec![Sort::new(0usize)]).unwrap();
    let enc = |d: i32| schema.sort_key_value(&Value::Group(vec![Value::Date(d)]), &key);
    assert!(enc(-365) < enc(0));
    assert!(enc(0) < enc(365));
}

#[test]
fn signed_longs_order_across_zero() {
    let schema = one_leaf_schema(
        RawLogical::Integer { bit_width: 64, signed: true },
        RawPhysical::Int64,
    );
    let key = schema.sort_key(&vec![Sort::new(0usize)]).unwrap();
    let enc = |v: i64| schema.sort_key_value(&Value::Group(vec![Value::I64(v)]), &key);
    assert!(enc(i64::MIN) < enc(-1));
    assert!(enc(-1) < enc(0));
    assert!(enc(0) < enc(i64::MAX));
}

#[test]
fn floats_order_by_total_order() {
    let schema = one_leaf_schema(RawLogical::Plain, RawPhysical::Float);
    let key = schema.sort_key(&vec![Sort::new(0usize)]).unwrap();
    let enc =
        |v: f32| schema.sort_key_value(&Value::Group(vec![Value::F32Bits(v.to_bits())]), &key);
    assert!(enc(f32::NEG_INFINITY) < enc(-1.5));
    assert!(enc(-1.5) < enc(-0.0));
    assert!(enc(-0.0) < enc(0.0));
    assert!(enc(0.0) < enc(2.25));
    assert!(enc(2.25) < enc(f32::INFINITY));
    let schema = one_leaf_schema(RawLogical::Plain, RawPhysical::Double);
    let key = schema.sort_key(&vec![Sort::new(0usize)]).unwrap();
    let encd =
        |v: f64| schema.sort_key_value(&Value::Group(vec![Value::F64Bits(v.to_bits())]), &key);
    assert!(encd(-3.5) < encd(0.0));
    assert!(encd(0.0) < encd(7.25));
}
