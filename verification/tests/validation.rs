use profix::decode::deserialize;
use profix::schema::{Entry, FieldSpec, Record, Schema, Slot};
use profix::validate::{
    closes_group, group_is_ok, has_distinct_tags, record_fits, schema_is_ok, serialize_checked,
    text_is_ok, tokens_are_ok, value_is_ok,
};
use profix::value::{Timestamp, Value, ValueKind};

fn scalar(tag: u64, kind: ValueKind, required: bool) -> Entry {
    Entry::Scalar(FieldSpec { tag, kind, required })
}

fn text(t: &str) -> Slot {
    Slot::Scalar(Value::Text(t.as_bytes().to_vec()))
}

fn quotes(inner_tail: u64) -> Schema {
    Schema {
        msg_type: b"i".to_vec(),
        entries: vec![
            scalar(34, ValueKind::UInt, true),
            Entry::Group(
                296,
                vec![
                    scalar(302, ValueKind::Text, true),
                    Entry::Group(
                        295,
                        vec![scalar(299, ValueKind::Text, true), scalar(inner_tail, ValueKind::Text, false)],
                    ),
                    scalar(304, ValueKind::Int, false),
                ],
            ),
            scalar(58, ValueKind::Text, false),
        ],
    }
}

#[test]
fn schema_with_distinct_tags_is_ok() {
    assert!(schema_is_ok(&quotes(55)));
    assert!(schema_is_ok(&Schema { msg_type: b"0".to_vec(), entries: vec![] }));
}

#[test]
fn schema_with_colliding_tags_is_not_ok() {
    assert!(!schema_is_ok(&quotes(58)));
    assert!(!schema_is_ok(&quotes(304)));
    assert!(!schema_is_ok(&quotes(302)));
    assert!(!schema_is_ok(&quotes(10)));
    assert!(!schema_is_ok(&quotes(299)));
    assert!(!schema_is_ok(&quotes(296)));
    assert!(schema_is_ok(&quotes(297)));
    let twice = Schema {
        msg_type: b"A".to_vec(),
        entries: vec![scalar(50, ValueKind::UInt, true), scalar(50, ValueKind::Int, true)],
    };
    assert!(!schema_is_ok(&twice));
    let checksum = Schema { msg_type: b"A".to_vec(), entries: vec![scalar(10, ValueKind::UInt, true)] };
    assert!(!schema_is_ok(&checksum));
    let code = Schema { msg_type: vec![65, 1], entries: vec![] };
    assert!(!schema_is_ok(&code));
    let empty_group = Schema { msg_type: b"A".to_vec(), entries: vec![Entry::Group(5, vec![])] };
    assert!(!schema_is_ok(&empty_group));
    let group_first =
        Schema { msg_type: b"A".to_vec(), entries: vec![Entry::Group(5, vec![Entry::Group(6, vec![])])] };
    assert!(!schema_is_ok(&group_first));
}

#[test]
fn parts_of_the_schema_check() {
    let entries = quotes(55).entries;
    assert!(has_distinct_tags(&entries));
    let group = match &entries[1] {
        Entry::Group(_, group) => group,
        other => panic!("{:?}", other),
    };
    assert!(group_is_ok(group));
    assert!(closes_group(group, 58));
    assert!(closes_group(group, 302));
    assert!(!closes_group(group, 304));
    assert!(!closes_group(group, 55));
    assert!(text_is_ok(b"plain"));
    assert!(!text_is_ok(b"a\x01b"));
    assert!(tokens_are_ok(&vec![b"1".to_vec(), b"2".to_vec()]));
    assert!(!tokens_are_ok(&vec![b"1".to_vec(), b"1".to_vec()]));
    assert!(!tokens_are_ok(&vec![b"1".to_vec(), vec![1]]));
}

#[test]
fn values_that_read_back() {
    assert!(value_is_ok(&ValueKind::UInt, &Value::UInt(7)));
    assert!(!value_is_ok(&ValueKind::UInt, &Value::Int(7)));
    assert!(value_is_ok(&ValueKind::Char, &Value::Char(b'Y')));
    assert!(!value_is_ok(&ValueKind::Char, &Value::Char(1)));
    assert!(!value_is_ok(&ValueKind::Char, &Value::Char(200)));
    assert!(value_is_ok(&ValueKind::Text, &Value::Text(b"ok".to_vec())));
    assert!(!value_is_ok(&ValueKind::Text, &Value::Text(vec![0xff])));
    assert!(!value_is_ok(&ValueKind::Text, &Value::Text(vec![b'a', 1])));
    assert!(value_is_ok(&ValueKind::Decimal, &Value::Decimal(b"1.5".to_vec())));
    assert!(!value_is_ok(&ValueKind::Decimal, &Value::Decimal(vec![1])));
    let code = ValueKind::Code(vec![b"1".to_vec(), b"2".to_vec()]);
    assert!(value_is_ok(&code, &Value::Code(1)));
    assert!(!value_is_ok(&code, &Value::Code(2)));
    let whole = Value::Timestamp(Timestamp { secs: 1547916808, nanos: 997_000_000 });
    assert!(value_is_ok(&ValueKind::Timestamp, &whole));
    let finer = Value::Timestamp(Timestamp { secs: 1547916808, nanos: 997_000_001 });
    assert!(!value_is_ok(&ValueKind::Timestamp, &finer));
    let far = Value::Timestamp(Timestamp { secs: i64::MAX, nanos: 0 });
    assert!(!value_is_ok(&ValueKind::Timestamp, &far));
}

#[test]
fn checked_message_decodes_to_itself() {
    let schema = quotes(55);
    let record = Record {
        slots: vec![
            Slot::Scalar(Value::UInt(9)),
            Slot::Group(vec![
                vec![
                    text("set-1"),
                    Slot::Group(vec![vec![text("q0"), text("SYM")], vec![text("q1"), Slot::Absent]]),
                    Slot::Scalar(Value::Int(2)),
                ],
                vec![text("set-2"), Slot::Absent, Slot::Absent],
            ]),
            Slot::Absent,
        ],
    };
    assert!(record_fits(&schema, &record));
    let bytes = serialize_checked(&schema, &record).unwrap();
    assert_eq!(deserialize(&schema, &bytes), Ok(record));
}

#[test]
fn unfit_message_is_not_written() {
    let schema = quotes(55);
    let delimiter = Record {
        slots: vec![Slot::Scalar(Value::UInt(9)), Slot::Absent, text("a\x01b")],
    };
    assert!(!record_fits(&schema, &delimiter));
    assert_eq!(serialize_checked(&schema, &delimiter), None);
    let missing = Record { slots: vec![Slot::Absent, Slot::Absent, Slot::Absent] };
    assert!(!record_fits(&schema, &missing));
    let headless = Record {
        slots: vec![
            Slot::Scalar(Value::UInt(9)),
            Slot::Group(vec![vec![Slot::Absent, Slot::Absent, Slot::Absent]]),
            Slot::Absent,
        ],
    };
    assert!(!record_fits(&schema, &headless));
    let short = Record { slots: vec![Slot::Scalar(Value::UInt(9))] };
    assert!(!record_fits(&schema, &short));
    let fit = Record { slots: vec![Slot::Scalar(Value::UInt(9)), Slot::Absent, Slot::Absent] };
    assert_eq!(serialize_checked(&quotes(58), &fit), None);
    assert!(serialize_checked(&schema, &fit).is_some());
}
