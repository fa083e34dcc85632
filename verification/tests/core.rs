use parquetry::error::SchemaShapeError;
use parquetry::reconstruct::reconstruct;
use parquetry::schema::{
    analyze_schema, RawField, RawKind, RawLogical, RawPhysical, RawTimeUnit, Repetition, Schema,
    TypeMapping,
};
use parquetry::shred::{shred, Workspace};
use parquetry::value::Value;

fn leaf(name: &str, repetition: Repetition, logical: RawLogical, physical: RawPhysical) -> RawField {
    RawField { name: name.to_string(), repetition, logical, kind: RawKind::Primitive(physical) }
}

fn group(name: &str, repetition: Repetition, children: Vec<RawField>) -> RawField {
    RawField {
        name: name.to_string(),
        repetition,
        logical: RawLogical::Plain,
        kind: RawKind::Group(children),
    }
}

fn list_of(name: &str, repetition: Repetition, element: RawField) -> RawField {
    RawField {
        name: name.to_string(),
        repetition,
        logical: RawLogical::List,
        kind: RawKind::Group(vec![RawField {
            name: "list".to_string(),
            repetition: Repetition::Repeated,
            logical: RawLogical::Plain,
            kind: RawKind::Group(vec![element]),
        }]),
    }
}

/// A nested schema exercising optional groups at several depths, a
/// list of strings, and a list of lists of integers.
fn nested_schema() -> Schema {
    let root = group(
        "user",
        Repetition::Required,
        vec![
            leaf(
                "id",
                Repetition::Required,
                RawLogical::Integer { bit_width: 64, signed: false },
                RawPhysical::Int64,
            ),
            leaf(
                "ts",
                Repetition::Required,
                RawLogical::Timestamp { utc: true, unit: RawTimeUnit::Millis },
                RawPhysical::Int64,
            ),
            leaf("status", Repetition::Optional, RawLogical::Plain, RawPhysical::Int32),
            group(
                "user_info",
                Repetition::Optional,
                vec![
                    leaf(
                        "screen_name",
                        Repetition::Required,
                        RawLogical::Str,
                        RawPhysical::ByteArray,
                    ),
                    group(
                        "user_name_info",
                        Repetition::Optional,
                        vec![
                            leaf(
                                "name",
                                Repetition::Required,
                                RawLogical::Str,
                                RawPhysical::ByteArray,
                            ),
                            list_of(
                                "withheld_in_countries",
                                Repetition::Optional,
                                leaf(
                                    "element",
                                    Repetition::Required,
                                    RawLogical::Str,
                                    RawPhysical::ByteArray,
                                ),
                            ),
                        ],
                    ),
                ],
            ),
            list_of(
                "matrix",
                Repetition::Optional,
                list_of(
                    "element",
                    Repetition::Optional,
                    leaf("element", Repetition::Required, RawLogical::Plain, RawPhysical::Int32),
                ),
            ),
        ],
    );
    analyze_schema(&root).expect("schema should analyze")
}

#[test]
fn analyzer_assigns_ordinals_and_levels() {
    let schema = nested_schema();
    // columns in pre-order over leaves:
    // 0 id, 1 ts, 2 status, 3 screen_name, 4 name, 5 withheld element,
    // 6 matrix inner element
    assert_eq!(schema.columns.len(), 7);
    assert_eq!(schema.columns[0].name, "id");
    assert_eq!(schema.columns[0].max_def, 0);
    assert_eq!(schema.columns[0].max_rep, 0);
    assert_eq!(schema.columns[0].mapping, TypeMapping::U64);
    assert_eq!(schema.columns[1].mapping, TypeMapping::DateTime(parquetry::schema::DateTimeUnit::Millis));
    assert_eq!(schema.columns[2].max_def, 1);
    assert_eq!(schema.columns[3].name, "screen_name");
    assert_eq!(schema.columns[3].max_def, 1);
    assert_eq!(schema.columns[4].max_def, 2);
    // withheld element: optional user_info + optional user_name_info +
    // optional list + its repeated level
    assert_eq!(schema.columns[5].name, "element");
    assert_eq!(schema.columns[5].max_def, 4);
    assert_eq!(schema.columns[5].max_rep, 1);
    // matrix inner element: optional outer list (+rep), optional inner
    // list (+rep)
    assert_eq!(schema.columns[6].max_def, 4);
    assert_eq!(schema.columns[6].max_rep, 2);
}

#[test]
fn analyzer_rejects_bare_repeated_field() {
    let root = group(
        "bad",
        Repetition::Required,
        vec![leaf("xs", Repetition::Repeated, RawLogical::Plain, RawPhysical::Int32)],
    );
    match analyze_schema(&root) {
        Err(SchemaShapeError::UnsupportedRepetition(name)) => assert_eq!(name, "xs"),
        other => panic!("expected UnsupportedRepetition, got {:?}", other.is_ok()),
    }
}

#[test]
fn analyzer_rejects_misshapen_list() {
    // list annotation whose inner group is not named "list"
    let root = group(
        "bad",
        Repetition::Required,
        vec![RawField {
            name: "xs".to_string(),
            repetition: Repetition::Optional,
            logical: RawLogical::List,
            kind: RawKind::Group(vec![RawField {
                name: "items".to_string(),
                repetition: Repetition::Repeated,
                logical: RawLogical::Plain,
                kind: RawKind::Group(vec![leaf(
                    "element",
                    Repetition::Required,
                    RawLogical::Plain,
                    RawPhysical::Int32,
                )]),
            }]),
        }],
    );
    assert!(matches!(
        analyze_schema(&root),
        Err(SchemaShapeError::UnsupportedRepetition(_))
    ));
}

#[test]
fn analyzer_rejects_empty_group() {
    let root = group("bad", Repetition::Required, vec![group("g", Repetition::Optional, vec![])]);
    assert!(matches!(analyze_schema(&root), Err(SchemaShapeError::EmptyGroup(_))));
}

#[test]
fn analyzer_rejects_unsupported_type() {
    let root = group(
        "bad",
        Repetition::Required,
        vec![leaf("x", Repetition::Required, RawLogical::Plain, RawPhysical::Int96)],
    );
    assert!(matches!(analyze_schema(&root), Err(SchemaShapeError::UnsupportedType(_))));
}

fn sample_row(id: u64, status: Option<i32>, info: Value, matrix: Value) -> Value {
    Value::Group(vec![
        Value::U64(id),
        Value::TimestampMillis(1_700_000_000_000),
        match status {
            Some(v) => Value::I32(v),
            None => Value::Null,
        },
        info,
        matrix,
    ])
}

#[test]
fn shred_levels_for_nested_nulls() {
    let schema = nested_schema();
    let mut ws = Workspace::new_for(&schema);
    // user_info absent entirely: every leaf under it records def 0,
    // and list columns record their repetition level 0
    let row = sample_row(7, None, Value::Null, Value::Null);
    shred(&schema, &row, &mut ws);
    assert_eq!(ws.columns[0].values, vec![Value::U64(7)]);
    assert_eq!(ws.columns[0].def_levels, Vec::<u16>::new());
    assert_eq!(ws.columns[2].def_levels, vec![0]);
    assert_eq!(ws.columns[3].def_levels, vec![0]);
    assert_eq!(ws.columns[4].def_levels, vec![0]);
    assert_eq!(ws.columns[5].def_levels, vec![0]);
    assert_eq!(ws.columns[5].rep_levels, vec![0]);
    // absent outer list writes its depth minus two: 0
    assert_eq!(ws.columns[6].def_levels, vec![0]);
    assert_eq!(ws.columns[6].rep_levels, vec![0]);
    assert!(ws.columns[5].values.is_empty());
}

#[test]
fn shred_levels_for_lists() {
    let schema = nested_schema();
    let mut ws = Workspace::new_for(&schema);
    let info = Value::Group(vec![
        Value::Str(b"screen".to_vec()),
        Value::Group(vec![
            Value::Str(b"name".to_vec()),
            Value::List(vec![
                Value::Str(b"aa".to_vec()),
                Value::Str(b"bb".to_vec()),
                Value::Str(b"cc".to_vec()),
            ]),
        ]),
    ]);
    // matrix: [[1,2],[],null,[3]]
    let matrix = Value::List(vec![
        Value::List(vec![Value::I32(1), Value::I32(2)]),
        Value::List(vec![]),
        Value::Null,
        Value::List(vec![Value::I32(3)]),
    ]);
    let row = sample_row(9, Some(4), info, matrix);
    shred(&schema, &row, &mut ws);
    // withheld list: first element rep 0, later elements rep 1
    assert_eq!(ws.columns[5].rep_levels, vec![0, 1, 1]);
    assert_eq!(ws.columns[5].def_levels, vec![4, 4, 4]);
    // matrix: [[1,2],[],null,[3]]
    // defs: present value 4; empty inner 3; null inner 2; then 4
    assert_eq!(ws.columns[6].def_levels, vec![4, 4, 3, 2, 4]);
    // reps: first occurrence 0; continuation inside inner list 2;
    // new outer elements 1
    assert_eq!(ws.columns[6].rep_levels, vec![0, 2, 1, 1, 1]);
    assert_eq!(
        ws.columns[6].values,
        vec![Value::I32(1), Value::I32(2), Value::I32(3)]
    );
}

#[test]
fn round_trip_nested_rows() {
    let schema = nested_schema();
    let mut ws = Workspace::new_for(&schema);
    let rows = vec![
        sample_row(1, None, Value::Null, Value::Null),
        sample_row(
            2,
            Some(-5),
            Value::Group(vec![Value::Str(b"s".to_vec()), Value::Null]),
            Value::List(vec![]),
        ),
        sample_row(
            3,
            None,
            Value::Group(vec![
                Value::Str(b"t".to_vec()),
                Value::Group(vec![Value::Str(b"n".to_vec()), Value::List(vec![])]),
            ]),
            Value::List(vec![Value::List(vec![Value::I32(42)])]),
        ),
        sample_row(
            4,
            Some(0),
            Value::Group(vec![
                Value::Str(b"u".to_vec()),
                Value::Group(vec![
                    Value::Str(b"m".to_vec()),
                    Value::List(vec![Value::Str(b"xx".to_vec())]),
                ]),
            ]),
            Value::List(vec![
                Value::List(vec![Value::I32(1), Value::I32(2), Value::I32(3)]),
                Value::Null,
                Value::List(vec![]),
            ]),
        ),
    ];
    for row in &rows {
        shred(&schema, row, &mut ws);
    }
    let decoded = reconstruct(&schema, &ws).expect("decode should succeed");
    assert_eq!(decoded, rows);
}

#[test]
fn row_group_boundaries_are_transparent() {
    let schema = nested_schema();
    let rows = vec![
        sample_row(10, Some(1), Value::Null, Value::List(vec![])),
        sample_row(11, None, Value::Null, Value::Null),
        sample_row(
            12,
            Some(2),
            Value::Group(vec![Value::Str(b"a".to_vec()), Value::Null]),
            Value::List(vec![Value::List(vec![Value::I32(9)])]),
        ),
    ];
    // one row group holding all three rows
    let mut all = Workspace::new_for(&schema);
    for row in &rows {
        shred(&schema, row, &mut all);
    }
    let whole = reconstruct(&schema, &all).expect("decode should succeed");
    // two row groups: the first two rows, then the third, with the
    // workspace flushed and cleared at the boundary
    let mut ws = Workspace::new_for(&schema);
    shred(&schema, &rows[0], &mut ws);
    shred(&schema, &rows[1], &mut ws);
    let mut first = reconstruct(&schema, &ws).expect("decode should succeed");
    ws.clear();
    shred(&schema, &rows[2], &mut ws);
    let second = reconstruct(&schema, &ws).expect("decode should succeed");
    first.extend(second);
    assert_eq!(first, whole);
    assert_eq!(first, rows);
}

#[test]
fn reconstruct_rejects_mismatched_levels() {
    let schema = nested_schema();
    let mut ws = Workspace::new_for(&schema);
    let row = sample_row(5, None, Value::Null, Value::Null);
    shred(&schema, &row, &mut ws);
    // corrupt one definition level beyond its maximum
    ws.columns[2].def_levels[0] = 9;
    assert!(reconstruct(&schema, &ws).is_err());
}

#[test]
fn string_values_reject_nul_bytes() {
    let ok = Value::string_value(b"hello".to_vec(), vec!["a".to_string()]);
    assert_eq!(ok.unwrap(), Value::Str(b"hello".to_vec()));
    let bad = Value::string_value(b"he\0llo".to_vec(), vec!["a".to_string()]);
    match bad {
        Err(parquetry::error::ValueError::NullByteString { index, .. }) => assert_eq!(index, 2),
        _ => panic!("expected NullByteString"),
    }
}

#[test]
fn validate_checks_shapes() {
    let schema = nested_schema();
    assert!(Value::U64(1).validate(&schema.fields[0]));
    assert!(!Value::I64(1).validate(&schema.fields[0]));
    assert!(!Value::Null.validate(&schema.fields[0]));
    assert!(Value::Null.validate(&schema.fields[2]));
}
