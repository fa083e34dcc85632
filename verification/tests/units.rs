use parquetry::schema::{
    analyze_schema, DateTimeUnit, RawField, RawKind, RawLogical, RawPhysical, RawTimeUnit,
    Repetition, TypeMapping,
};
use parquetry::sort::{Sort, SortColumn, SortKey};
use parquetry::value::Value;
use parquetry::write::SizeCounter;

#[test]
fn type_mappings_follow_annotations() {
    assert_eq!(
        TypeMapping::from_types(RawLogical::Plain, RawPhysical::Boolean),
        Some(TypeMapping::Bool)
    );
    assert_eq!(
        TypeMapping::from_types(
            RawLogical::Integer { bit_width: 32, signed: false },
            RawPhysical::Int32
        ),
        Some(TypeMapping::U32)
    );
    assert_eq!(
        TypeMapping::from_types(
            RawLogical::Integer { bit_width: 16, signed: true },
            RawPhysical::Int32
        ),
        None
    );
    assert_eq!(
        TypeMapping::from_types(
            RawLogical::Timestamp { utc: false, unit: RawTimeUnit::Millis },
            RawPhysical::Int64
        ),
        None
    );
    assert_eq!(
        TypeMapping::from_types(
            RawLogical::Timestamp { utc: true, unit: RawTimeUnit::Micros },
            RawPhysical::Int64
        ),
        Some(TypeMapping::DateTime(DateTimeUnit::Micros))
    );
    assert_eq!(
        TypeMapping::from_types(RawLogical::Plain, RawPhysical::FixedLenByteArray(20)),
        Some(TypeMapping::FixedLengthByteArray(20))
    );
}

#[test]
fn type_mapping_copy_and_variants() {
    assert!(TypeMapping::Bool.is_copy());
    assert!(TypeMapping::FixedLengthByteArray(8).is_copy());
    assert!(TypeMapping::DateTime(DateTimeUnit::Micros).is_copy());
    assert!(!TypeMapping::String.is_copy());
    assert!(!TypeMapping::ByteArray.is_copy());
    assert!(!TypeMapping::Date.is_copy());
    assert_eq!(TypeMapping::U64.row_field_variant(), "ULong");
    assert_eq!(TypeMapping::DateTime(DateTimeUnit::Millis).row_field_variant(), "TimestampMillis");
    assert_eq!(TypeMapping::ByteArray.row_field_variant(), "Bytes");
}

#[test]
fn sort_builders_set_flags() {
    let s = Sort::new(3usize);
    assert_eq!(s.column, 3);
    assert!(!s.descending && !s.nulls_first);
    let s = s.descending().nulls_first();
    assert!(s.descending && s.nulls_first);
    assert_eq!(s.column.index(), 3);
    let key = SortKey::Columns3(Sort::new(0usize), Sort::new(1usize), Sort::new(2usize));
    let cols = key.columns();
    assert_eq!(cols.len(), 3);
    assert_eq!(cols[1].column, 1);
}

#[test]
fn size_counter_first_row_within_budget_is_valid() {
    let mut counter = SizeCounter::new(100);
    assert!(counter.add(40));
    assert!(matches!(
        counter.checked(1u8),
        parquetry::write::SizeChecked::Valid(1)
    ));
}

#[test]
fn timestamp_millis_validation_bounds() {
    let root = RawField {
        name: "t".to_string(),
        repetition: Repetition::Required,
        logical: RawLogical::Plain,
        kind: RawKind::Group(vec![RawField {
            name: "ts".to_string(),
            repetition: Repetition::Required,
            logical: RawLogical::Timestamp { utc: true, unit: RawTimeUnit::Millis },
            kind: RawKind::Primitive(RawPhysical::Int64),
        }]),
    };
    let schema = analyze_schema(&root).unwrap();
    // out of the microsecond-convertible range
    assert!(!Value::TimestampMillis(i64::MAX).validate(&schema.fields[0]));
    assert!(Value::TimestampMillis(9_223_372_036_854_775).validate(&schema.fields[0]));
    assert!(Value::TimestampMillis(-9_223_372_036_854_775).validate(&schema.fields[0]));
}

#[test]
fn fixed_length_values_must_match_declared_width() {
    let root = RawField {
        name: "t".to_string(),
        repetition: Repetition::Required,
        logical: RawLogical::Plain,
        kind: RawKind::Group(vec![RawField {
            name: "fp".to_string(),
            repetition: Repetition::Required,
            logical: RawLogical::Plain,
            kind: RawKind::Primitive(RawPhysical::FixedLenByteArray(4)),
        }]),
    };
    let schema = analyze_schema(&root).unwrap();
    assert!(Value::Fixed(vec![1, 2, 3, 4]).validate(&schema.fields[0]));
    assert!(!Value::Fixed(vec![1, 2, 3]).validate(&schema.fields[0]));
    assert!(!Value::Bytes(vec![1, 2, 3, 4]).validate(&schema.fields[0]));
}

#[test]
fn analyzer_rejects_non_group_root() {
    let root = RawField {
        name: "x".to_string(),
        repetition: Repetition::Required,
        logical: RawLogical::Plain,
        kind: RawKind::Primitive(RawPhysical::Int32),
    };
    assert!(matches!(
        analyze_schema(&root),
        Err(parquetry::error::SchemaShapeError::InvalidRootSchema)
    ));
}

#[test]
fn analyzer_rejects_overdeep_nesting() {
    let mut field = RawField {
        name: "leaf".to_string(),
        repetition: Repetition::Optional,
        logical: RawLogical::Plain,
        kind: RawKind::Primitive(RawPhysical::Int32),
    };
    for i in 0..505 {
        field = RawField {
            name: format!("g{i}"),
            repetition: Repetition::Optional,
            logical: RawLogical::Plain,
            kind: RawKind::Group(vec![field]),
        };
    }
    let root = RawField {
        name: "deep".to_string(),
        repetition: Repetition::Required,
        logical: RawLogical::Plain,
        kind: RawKind::Group(vec![field]),
    };
    assert!(matches!(
        analyze_schema(&root),
        Err(parquetry::error::SchemaShapeError::DepthLimitExceeded(_))
    ));
}
