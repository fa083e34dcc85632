use parquetry::error::Error;
use parquetry::schema::{analyze_schema, RawField, RawKind, RawLogical, RawPhysical, Repetition};
use parquetry::sort::Sort;
use parquetry::store::{concatenation_merge, framed_row, split_frames, StoreError};
use parquetry::value::Value;
use parquetry::write::{plan_row_groups, SizeChecked, SizeCounter, WriteConfig};
use std::collections::BTreeMap;

#[test]
fn size_counter_tracks_budget() {
    let config = WriteConfig { max_size: 10, fail_on_oversized: true };
    let mut counter = config.size_counter();
    assert!(counter.is_empty());
    assert!(counter.add(4));
    assert!(!counter.is_empty());
    assert!(counter.add(6));
    assert!(!counter.add(1));
    counter.reset();
    assert!(counter.is_empty());
    // a first row over budget still joins its group, marked oversized
    assert!(counter.add(11));
    match counter.checked("row") {
        SizeChecked::Oversized { value, size, limit } => {
            assert_eq!(value, "row");
            assert_eq!(size, 11);
            assert_eq!(limit, 10);
        }
        SizeChecked::Valid(_) => panic!("expected an oversized row"),
    }
    assert!(matches!(counter.checked("next"), SizeChecked::Valid("next")));
}

#[test]
fn size_counter_add_saturates_safely() {
    let mut counter = SizeCounter::new(u64::MAX);
    assert!(counter.add(u64::MAX));
    // the sum would overflow, so the row cannot join
    assert!(!counter.add(1));
}

#[test]
fn row_groups_split_greedily() {
    let sizes = vec![4u64, 4, 3, 6, 1];
    let counts = plan_row_groups(&sizes, 10, false).unwrap();
    assert_eq!(counts, vec![2, 3]);
}

#[test]
fn oversized_row_stands_alone_when_tolerated() {
    let sizes = vec![4u64, 25, 4, 4];
    let counts = plan_row_groups(&sizes, 10, false).unwrap();
    assert_eq!(counts, vec![1, 1, 2]);
}

#[test]
fn oversized_row_fails_the_split_when_fatal() {
    let sizes = vec![4u64, 4, 25, 4];
    match plan_row_groups(&sizes, 10, true) {
        Err(Error::OversizedRowValue { row_group_index }) => assert_eq!(row_group_index, 1),
        other => panic!("expected OversizedRowValue, got {:?}", other),
    }
}

#[test]
fn framing_round_trips() {
    let rows: Vec<Vec<u8>> = vec![b"alpha".to_vec(), b"".to_vec(), b"gamma!".to_vec()];
    let mut payload: Vec<u8> = Vec::new();
    for row in &rows {
        let framed = framed_row(row);
        payload.extend(framed);
    }
    let decoded = split_frames(&payload).unwrap();
    assert_eq!(decoded, rows);
}

#[test]
fn split_rejects_truncated_payloads() {
    // three bytes cannot hold a length prefix
    assert!(matches!(split_frames(&vec![0, 0, 1]), Err(StoreError::InvalidValue(_))));
    // prefix promises four bytes, only two follow
    let bad = vec![0, 0, 0, 4, 9, 9];
    assert!(matches!(split_frames(&bad), Err(StoreError::InvalidValue(_))));
}

#[test]
fn merge_batching_is_transparent() {
    let a = framed_row(&b"one".to_vec());
    let b = framed_row(&b"two".to_vec());
    let c = framed_row(&b"three".to_vec());
    // all at once
    let whole = concatenation_merge(None, &vec![a.clone(), b.clone(), c.clone()]);
    // in two batches, the first batch's result standing as the
    // existing value of the second merge
    let first = concatenation_merge(None, &vec![a.clone(), b.clone()]);
    let batched = concatenation_merge(Some(&first), &vec![c.clone()]);
    assert_eq!(whole, batched);
    assert_eq!(split_frames(&whole).unwrap(), vec![
        b"one".to_vec(),
        b"two".to_vec(),
        b"three".to_vec()
    ]);
}

/// End-to-end external sort over an in-memory ordered store: insert
/// unordered rows keyed by their sort key, merge in several batches,
/// drain in ascending key order, and compare with sorting in memory.
#[test]
fn external_sort_reproduces_in_memory_sort() {
    let leaf = |name: &str, repetition, logical, physical| RawField {
        name: name.to_string(),
        repetition,
        logical,
        kind: RawKind::Primitive(physical),
    };
    let root = RawField {
        name: "simple".to_string(),
        repetition: Repetition::Required,
        logical: RawLogical::Plain,
        kind: RawKind::Group(vec![
            leaf(
                "abc",
                Repetition::Required,
                RawLogical::Integer { bit_width: 64, signed: false },
                RawPhysical::Int64,
            ),
            leaf("def", Repetition::Optional, RawLogical::Str, RawPhysical::ByteArray),
        ]),
    };
    let schema = analyze_schema(&root).unwrap();
    let key = schema.sort_key(&vec![Sort::new(0usize)]).unwrap();

    // rows with colliding keys; the payload doubles as the "serialized
    // row" so insertion order within a key is visible
    let inserts: Vec<(u64, Vec<u8>)> = vec![
        (123, b"foo".to_vec()),
        (123, b"abc".to_vec()),
        (7, b"other".to_vec()),
        (9000, b"big".to_vec()),
        (123, b"".to_vec()),
        (7, b"again".to_vec()),
        (123, b"foox".to_vec()),
    ];

    let mut store: BTreeMap<Vec<u8>, Vec<u8>> = BTreeMap::new();
    for (abc, payload) in &inserts {
        let row = Value::Group(vec![Value::U64(*abc), Value::Null]);
        let key_bytes = schema.sort_key_value(&row, &key);
        let operand = framed_row(payload);
        // merge one operand at a time, forcing many merge steps
        let existing = store.get(&key_bytes);
        let merged = concatenation_merge(existing, &vec![operand]);
        store.insert(key_bytes, merged);
    }

    let mut drained: Vec<Vec<u8>> = Vec::new();
    for (_, payload) in store.iter() {
        drained.extend(split_frames(payload).unwrap());
    }

    let mut expected = inserts.clone();
    expected.sort_by_key(|p| p.0);
    let expected_rows: Vec<Vec<u8>> = expected.into_iter().map(|p| p.1).collect();
    assert_eq!(drained, expected_rows);
}
