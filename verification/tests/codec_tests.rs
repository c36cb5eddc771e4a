use int_map_codec::bucket::{KeyMap, UnknownKeyHandler};
use int_map_codec::decode::{decode, DecodeError};
use int_map_codec::encode::{cardinality, encode};
use int_map_codec::record::{FieldValue, Record};
use int_map_codec::schema::{resolve_schema, FieldDecl, PolicyMarker, RecordSchema};

type U64Record = Record<u64, KeyMap<u64>>;

fn decl(name: &str, optional: bool, markers: Vec<PolicyMarker>, handles: bool) -> FieldDecl {
    FieldDecl {
        name: name.to_string(),
        optional,
        markers,
        handles_unknown_keys: handles,
    }
}

fn keyed(lit: &str) -> PolicyMarker {
    PolicyMarker::Keyed(lit.to_string())
}

/// The worked example schema: `{a: keyed(1), b: keyed(-2) optional, u: catchall}`.
fn example_schema() -> RecordSchema {
    resolve_schema(vec![
        decl("a", false, vec![keyed("1")], false),
        decl("b", true, vec![keyed("-2")], false),
        decl("u", false, vec![PolicyMarker::CatchAll], true),
    ])
    .unwrap()
}

fn bucket_of(entries: &[(i64, u64)]) -> KeyMap<u64> {
    let mut m = KeyMap::empty();
    for (k, v) in entries {
        m.insert(*k, *v);
    }
    m
}

fn example_record() -> U64Record {
    Record {
        slots: vec![
            FieldValue::Present(10),
            FieldValue::Absent,
            FieldValue::Bucket(bucket_of(&[(7, 99)])),
        ],
    }
}

#[test]
fn example_encodes_to_two_pairs() {
    let schema = example_schema();
    let out = encode(&schema, example_record());
    assert_eq!(out.expected_count, 2);
    assert_eq!(out.pairs, vec![(1, 10), (7, 99)]);
}

#[test]
fn example_decodes_back() {
    let schema = example_schema();
    let rec = decode(&schema, vec![(1, 10u64), (7, 99)]).unwrap();
    assert_eq!(rec, example_record());
}

#[test]
fn example_duplicate_keyed_key_fails() {
    let schema = example_schema();
    let err = decode::<u64, KeyMap<u64>>(&schema, vec![(1, 10), (1, 11)]).unwrap_err();
    assert_eq!(err, DecodeError::DuplicateField("a".to_string()));
}

#[test]
fn example_missing_required_field_fails() {
    let schema = example_schema();
    let err = decode::<u64, KeyMap<u64>>(&schema, vec![(-2, 5)]).unwrap_err();
    assert_eq!(err, DecodeError::MissingField("a".to_string()));
}

#[test]
fn round_trip_with_optional_present() {
    let schema = example_schema();
    let record: U64Record = Record {
        slots: vec![
            FieldValue::Present(1),
            FieldValue::Present(2),
            FieldValue::Bucket(bucket_of(&[(5, 50), (6, 60)])),
        ],
    };
    let out = encode(&schema, record.clone());
    assert_eq!(out.expected_count, 4);
    assert_eq!(out.pairs.len(), 4);
    let back = decode(&schema, out.pairs).unwrap();
    assert_eq!(back, record);
}

#[test]
fn round_trip_survives_pair_reordering() {
    let schema = example_schema();
    let record: U64Record = Record {
        slots: vec![
            FieldValue::Present(1),
            FieldValue::Present(2),
            FieldValue::Bucket(bucket_of(&[(5, 50)])),
        ],
    };
    let mut pairs = encode(&schema, record.clone()).pairs;
    pairs.reverse();
    let back = decode(&schema, pairs).unwrap();
    assert_eq!(back, record);
}

#[test]
fn cardinality_counts_only_emitted_pairs() {
    let schema = example_schema();
    let absent = example_record();
    assert_eq!(cardinality(&schema, &absent), 2);
    let empty_bucket: U64Record = Record {
        slots: vec![
            FieldValue::Present(3),
            FieldValue::Absent,
            FieldValue::Bucket(KeyMap::empty()),
        ],
    };
    assert_eq!(cardinality(&schema, &empty_bucket), 1);
    let out = encode(&schema, empty_bucket);
    assert_eq!(out.expected_count, out.pairs.len());
    assert_eq!(out.pairs, vec![(1, 3)]);
}

#[test]
fn absent_optional_field_emits_no_pair() {
    let schema = example_schema();
    let out = encode(&schema, example_record());
    assert!(out.pairs.iter().all(|p| p.0 != -2));
}

#[test]
fn stream_without_optional_key_decodes_to_absent() {
    let schema = example_schema();
    let rec: U64Record = decode(&schema, vec![(1, 10)]).unwrap();
    assert_eq!(rec.slots[1], FieldValue::Absent);
}

#[test]
fn unknown_key_goes_to_catchall_bucket() {
    let schema = example_schema();
    let rec: U64Record = decode(&schema, vec![(1, 10), (123, 7)]).unwrap();
    match &rec.slots[2] {
        FieldValue::Bucket(m) => {
            assert!(m.contains_key(123));
            assert_eq!(m.entry_list(), &vec![(123, 7)]);
        }
        other => panic!("catch-all slot held {:?}", other),
    }
}

#[test]
fn unknown_key_without_catchall_fails() {
    let schema = resolve_schema(vec![decl("a", false, vec![keyed("1")], false)]).unwrap();
    let err = decode::<u64, KeyMap<u64>>(&schema, vec![(1, 10), (123, 7)]).unwrap_err();
    assert_eq!(err, DecodeError::UnknownField(123));
}

#[test]
fn repeated_unmatched_key_overwrites_in_bucket() {
    let schema = example_schema();
    let rec: U64Record = decode(&schema, vec![(1, 10), (7, 1), (7, 2)]).unwrap();
    match &rec.slots[2] {
        FieldValue::Bucket(m) => {
            assert_eq!(m.size(), 1);
            assert_eq!(m.entry_list(), &vec![(7, 2)]);
        }
        other => panic!("catch-all slot held {:?}", other),
    }
}

#[test]
fn duplicate_fails_whatever_the_stream_order() {
    let schema = example_schema();
    for pairs in [
        vec![(1, 1u64), (1, 2), (7, 9)],
        vec![(1, 1), (7, 9), (1, 2)],
        vec![(7, 9), (1, 1), (1, 2)],
    ] {
        let err = decode::<u64, KeyMap<u64>>(&schema, pairs).unwrap_err();
        assert_eq!(err, DecodeError::DuplicateField("a".to_string()));
    }
}

#[test]
fn phantom_fields_never_emit_and_reconstruct_as_marker() {
    let schema = resolve_schema(vec![
        decl("a", false, vec![keyed("1")], false),
        decl("ghost_mark", false, vec![PolicyMarker::Phantom], false),
    ])
    .unwrap();
    let record: U64Record = Record {
        slots: vec![FieldValue::Present(8), FieldValue::Marker],
    };
    let out = encode(&schema, record.clone());
    assert_eq!(out.expected_count, 1);
    assert_eq!(out.pairs, vec![(1, 8)]);
    let back = decode(&schema, out.pairs).unwrap();
    assert_eq!(back, record);
    assert_eq!(back.slots[1], FieldValue::Marker);
}

#[test]
fn catchall_with_empty_bucket_round_trips() {
    let schema = example_schema();
    let record: U64Record = Record {
        slots: vec![
            FieldValue::Present(4),
            FieldValue::Absent,
            FieldValue::Bucket(KeyMap::empty()),
        ],
    };
    let out = encode(&schema, record.clone());
    assert_eq!(out.pairs, vec![(1, 4)]);
    let back = decode(&schema, out.pairs).unwrap();
    assert_eq!(back, record);
}

#[test]
fn decode_handles_string_values() {
    let schema = example_schema();
    let pairs = vec![
        (1, "hello".to_string()),
        (-2, "there".to_string()),
        (9, "extra".to_string()),
    ];
    let rec: Record<String, KeyMap<String>> = decode(&schema, pairs).unwrap();
    assert_eq!(rec.slots[0], FieldValue::Present("hello".to_string()));
    assert_eq!(rec.slots[1], FieldValue::Present("there".to_string()));
    match &rec.slots[2] {
        FieldValue::Bucket(m) => assert_eq!(m.entry_list(), &vec![(9, "extra".to_string())]),
        other => panic!("catch-all slot held {:?}", other),
    }
}

#[test]
fn empty_stream_fails_on_first_required_field() {
    let schema = example_schema();
    let err = decode::<u64, KeyMap<u64>>(&schema, Vec::new()).unwrap_err();
    assert_eq!(err, DecodeError::MissingField("a".to_string()));
}

#[test]
fn empty_stream_succeeds_when_nothing_is_required() {
    let schema = resolve_schema(vec![decl("b", true, vec![keyed("-2")], false)]).unwrap();
    let rec: U64Record = decode(&schema, Vec::new()).unwrap();
    assert_eq!(rec.slots, vec![FieldValue::Absent]);
}

#[test]
fn extreme_keys_round_trip() {
    let schema = resolve_schema(vec![
        decl("lo", false, vec![keyed("-9223372036854775808")], false),
        decl("hi", false, vec![keyed("9223372036854775807")], false),
    ])
    .unwrap();
    let record: U64Record = Record {
        slots: vec![FieldValue::Present(1), FieldValue::Present(2)],
    };
    let out = encode(&schema, record.clone());
    assert_eq!(out.pairs, vec![(i64::MIN, 1), (i64::MAX, 2)]);
    let back = decode(&schema, out.pairs).unwrap();
    assert_eq!(back, record);
}

#[test]
fn unknown_key_handler_capability_on_the_builtin_map() {
    let mut m: KeyMap<u64> = UnknownKeyHandler::new();
    assert_eq!(m.num_items(), 0);
    assert!(m.handles_key(0));
    assert!(m.handles_key(i64::MIN));
    m.fill_value(3, 30);
    m.fill_value(-4, 40);
    m.fill_value(3, 31);
    assert_eq!(m.num_items(), 2);
    assert_eq!(m.iter(), &vec![(3, 31), (-4, 40)]);
    assert!(m.contains_key(-4));
    assert!(!m.contains_key(5));
}
