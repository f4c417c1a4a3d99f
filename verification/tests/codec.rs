use profix::common::to_fix;
use profix::decode::{deserialize, deserialize_from_fix, deserialize_group_from_fix};
use profix::encode::{
    encode_body, frame_body, serialize, FixMessageType, FixSerializable, TypedMessage,
};
use profix::error::ParseError;
use profix::message::parse_fix_message;
use profix::schema::{Entry, FieldSpec, Record, Schema, Slot};
use profix::value::{parse_value, render_value, FixParse, Timestamp, Value, ValueKind};

fn scalar(tag: u64, kind: ValueKind, required: bool) -> Entry {
    Entry::Scalar(FieldSpec { tag, kind, required })
}

fn field(tag: u64, kind: ValueKind, required: bool) -> Entry {
    scalar(tag, kind, required)
}

fn text(t: &str) -> Slot {
    Slot::Scalar(Value::Text(t.as_bytes().to_vec()))
}

fn signed(v: i64) -> Slot {
    Slot::Scalar(Value::Int(v))
}

fn simple_schema() -> Schema {
    Schema {
        msg_type: b"A".to_vec(),
        entries: vec![scalar(50, ValueKind::UInt, true), scalar(51, ValueKind::Decimal, true)],
    }
}

fn side_tokens() -> Vec<Vec<u8>> {
    vec![b"1".to_vec(), b"2".to_vec()]
}

fn quote_schema() -> Schema {
    Schema {
        msg_type: b"Z".to_vec(),
        entries: vec![
            scalar(34, ValueKind::UInt, true),
            scalar(49, ValueKind::Text, true),
            scalar(58, ValueKind::Text, false),
            Entry::Group(
                295,
                vec![
                    field(55, ValueKind::Text, true),
                    field(48, ValueKind::Text, true),
                    field(22, ValueKind::Int, false),
                ],
            ),
            scalar(54, ValueKind::Code(side_tokens()), false),
        ],
    }
}

fn write(schema: &Schema, record: &Record) -> Option<Vec<u8>> {
    serialize(&TypedMessage { schema, record })
}

fn wrap(body: &str) -> Vec<u8> {
    frame_body(&to_fix(body))
}

#[test]
fn deserialize_test() {
    let fix = to_fix("8=FIX.4.2|9=18|35=A|50=5|51=1.23|10=038|");
    let record = deserialize(&simple_schema(), &fix).unwrap();
    assert_eq!(record.slots.len(), 2);
    assert_eq!(record.slots[0], Slot::Scalar(Value::UInt(5)));
    match &record.slots[1] {
        Slot::Scalar(Value::Decimal(text)) => {
            let value: f64 = String::from_utf8(text.clone()).unwrap().parse().unwrap();
            assert_eq!(value, 1.23);
        }
        other => panic!("{:?}", other),
    }
}

#[test]
fn serialize_test() {
    let seq: u64 = 5;
    let value: f64 = 1.23;
    let record = Record {
        slots: vec![
            Slot::Scalar(Value::UInt(seq)),
            Slot::Scalar(Value::Decimal(format!("{}", value).into_bytes())),
        ],
    };
    let fix = "8=FIX.4.2|9=18|35=A|50=5|51=1.23|10=038|";
    assert_eq!(write(&simple_schema(), &record).unwrap(), fix.replace('|', "\x01").into_bytes());
}

#[test]
fn reencoding_the_decoded_message_gives_the_same_bytes() {
    let fix = to_fix("8=FIX.4.2|9=18|35=A|50=5|51=1.23|10=038|");
    let record = deserialize(&simple_schema(), &fix).unwrap();
    assert_eq!(write(&simple_schema(), &record).unwrap(), fix);
}

#[test]
fn round_trip_with_group_and_optionals() {
    let record = Record {
        slots: vec![
            Slot::Scalar(Value::UInt(4)),
            Slot::Scalar(Value::Text(b"Fake1".to_vec())),
            Slot::Absent,
            Slot::Group(vec![
                vec![text("AAA"), text("id-a"), signed(-8)],
                vec![text("BBB"), text("id-b"), Slot::Absent],
            ]),
            Slot::Scalar(Value::Code(1)),
        ],
    };
    let bytes = write(&quote_schema(), &record).unwrap();
    let body = "35=Z|34=4|49=Fake1|295=2|55=AAA|48=id-a|22=-8|55=BBB|48=id-b|54=2|";
    assert_eq!(encode_body(&quote_schema(), &record).unwrap(), to_fix(body));
    assert_eq!(bytes, wrap(body));
    assert_eq!(deserialize(&quote_schema(), &bytes), Ok(record));
}

#[test]
fn round_trip_of_an_empty_group() {
    let record = Record {
        slots: vec![
            Slot::Scalar(Value::UInt(1)),
            Slot::Scalar(Value::Text(b"x".to_vec())),
            Slot::Scalar(Value::Text(b"note".to_vec())),
            Slot::Group(vec![]),
            Slot::Absent,
        ],
    };
    let bytes = write(&quote_schema(), &record).unwrap();
    assert_eq!(bytes, wrap("35=Z|34=1|49=x|58=note|295=0|"));
    assert_eq!(deserialize(&quote_schema(), &bytes), Ok(record));
}

#[test]
fn frame_body_counts_and_sums() {
    assert_eq!(frame_body(&to_fix("35=A|")), to_fix("8=FIX.4.2|9=5|35=A|10=178|"));
    assert_eq!(frame_body(b""), to_fix("8=FIX.4.2|9=0|10=198|"));
}

#[test]
fn altered_byte_is_a_checksum_violation() {
    let fix = to_fix("8=FIX.4.2|9=18|35=A|50=6|51=1.23|10=038|");
    assert_eq!(deserialize(&simple_schema(), &fix), Err(ParseError::ChecksumMismatch));
    let fix = to_fix("8=FIX.4.2|9=18|35=A|50=5|51=1.24|10=038|");
    assert_eq!(deserialize(&simple_schema(), &fix), Err(ParseError::ChecksumMismatch));
    let fix = to_fix("8=FIX.4.3|9=18|35=A|50=5|51=1.23|10=038|");
    assert_eq!(deserialize(&simple_schema(), &fix), Err(ParseError::ChecksumMismatch));
}

#[test]
fn required_tag_twice_is_a_duplicate() {
    let fix = wrap("35=A|50=5|50=5|51=1.23|");
    assert_eq!(deserialize(&simple_schema(), &fix), Err(ParseError::DuplicateField));
    let fix = wrap("35=A|50=5|51=1.23|51=1.23|");
    assert_eq!(deserialize(&simple_schema(), &fix), Err(ParseError::DuplicateField));
}

#[test]
fn absent_required_tag_is_missing() {
    let fix = wrap("35=A|50=5|");
    assert_eq!(deserialize(&simple_schema(), &fix), Err(ParseError::MissingField));
    let fix = wrap("35=A|51=1.23|");
    assert_eq!(deserialize(&simple_schema(), &fix), Err(ParseError::MissingField));
}

#[test]
fn unknown_tags_are_passed_over() {
    let fix = wrap("35=A|1=x|50=5|999=y|51=1.23|7=|");
    let record = deserialize(&simple_schema(), &fix).unwrap();
    assert_eq!(record.slots[0], Slot::Scalar(Value::UInt(5)));
    assert_eq!(record.slots[1], Slot::Scalar(Value::Decimal(b"1.23".to_vec())));
}

#[test]
fn other_type_code_is_unknown() {
    let fix = wrap("35=B|50=5|51=1.23|");
    assert_eq!(deserialize(&simple_schema(), &fix), Err(ParseError::UnknownMessageType));
}

#[test]
fn malformed_value_is_invalid() {
    let fix = wrap("35=A|50=five|51=1.23|");
    assert_eq!(deserialize(&simple_schema(), &fix), Err(ParseError::InvalidValue));
    let fix = to_fix("8=FIX.4.2|9=18|35=A|50=5|51=1.23|10=abc|");
    assert_eq!(deserialize(&simple_schema(), &fix), Err(ParseError::InvalidValue));
}

#[test]
fn message_without_checksum_field_ends_early() {
    let input = to_fix("8=FIX.4.2|9=8|35=A|50=5|51=1|");
    let msg = parse_fix_message(&input).unwrap();
    assert_eq!(deserialize_from_fix(&simple_schema(), msg), Err(ParseError::EndBeforeChecksum));
}

#[test]
fn group_of_three_stops_at_the_unrelated_tag() {
    let fields = vec![
        field(55, ValueKind::Text, true),
        field(48, ValueKind::Text, true),
        field(22, ValueKind::Int, true),
    ];
    let input = to_fix("55=A|48=a|22=8|55=B|48=b|22=9|55=C|22=7|48=c|60=later|10=000|");
    let (rows, cont) = deserialize_group_from_fix(&fields, 3, &input).unwrap();
    assert_eq!(rows.len(), 3);
    assert_eq!(rows[0], vec![text("A"), text("a"), signed(8)]);
    assert_eq!(rows[1], vec![text("B"), text("b"), signed(9)]);
    assert_eq!(rows[2], vec![text("C"), text("c"), signed(7)]);
    assert_eq!(cont.next_field.id, 60);
    assert_eq!(cont.next_field.value, b"later");
    assert_eq!(cont.next_input, &to_fix("60=later|10=000|")[..]);
    let consumed = to_fix("55=A|48=a|22=8|55=B|48=b|22=9|55=C|22=7|48=c|");
    assert_eq!(cont.checksum, profix::checksum::checksum(&consumed));
}

#[test]
fn group_reads_no_more_than_its_count() {
    let fields = vec![field(55, ValueKind::Text, true), field(48, ValueKind::Text, false)];
    let input = to_fix("55=A|48=a|55=B|55=C|10=000|");
    let (rows, cont) = deserialize_group_from_fix(&fields, 2, &input).unwrap();
    assert_eq!(rows.len(), 2);
    assert_eq!(rows[1], vec![text("B"), Slot::Absent]);
    assert_eq!(cont.next_field.id, 55);
    assert_eq!(cont.next_input, &to_fix("55=C|10=000|")[..]);
    let (rows, cont) = deserialize_group_from_fix(&fields, 0, &input).unwrap();
    assert!(rows.is_empty());
    assert_eq!(cont.checksum, 0);
    assert_eq!(cont.next_input, &input[..]);
}

#[test]
fn group_may_deliver_fewer_than_its_count() {
    let fields = vec![field(55, ValueKind::Text, true)];
    let input = to_fix("55=A|10=000|");
    let (rows, cont) = deserialize_group_from_fix(&fields, 5, &input).unwrap();
    assert_eq!(rows.len(), 1);
    assert_eq!(cont.next_field.id, 10);
}

fn group_error(fields: &Vec<Entry>, input: &str) -> Option<ParseError> {
    let bytes = to_fix(input);
    let r = deserialize_group_from_fix(fields, 2, &bytes);
    r.err()
}

#[test]
fn group_failures() {
    let fields = vec![
        field(55, ValueKind::Text, true),
        field(48, ValueKind::Text, true),
        field(22, ValueKind::Int, false),
    ];
    assert_eq!(group_error(&fields, "55=A|22=1|22=2|48=a|10=000|"), Some(ParseError::DuplicateField));
    assert_eq!(group_error(&fields, "55=A|22=1|10=000|"), Some(ParseError::MissingField));
    assert_eq!(group_error(&fields, "55=A|22=x|48=a|10=000|"), Some(ParseError::InvalidValue));
    assert_eq!(group_error(&fields, "55=A|"), Some(ParseError::EndBeforeChecksum));
    assert_eq!(group_error(&fields, "55=A|48"), Some(ParseError::TagNotTerminated));
}

#[test]
fn group_count_twice_is_a_duplicate() {
    let fix = wrap("35=Z|34=1|49=x|295=1|55=A|48=a|295=0|");
    assert_eq!(deserialize(&quote_schema(), &fix), Err(ParseError::DuplicateField));
}

#[test]
fn encode_refuses_what_does_not_fit_the_schema() {
    let schema = simple_schema();
    let short = Record { slots: vec![Slot::Scalar(Value::UInt(5))] };
    assert_eq!(write(&schema, &short), None);
    let missing = Record { slots: vec![Slot::Scalar(Value::UInt(5)), Slot::Absent] };
    assert_eq!(write(&schema, &missing), None);
    let wrong = Record {
        slots: vec![Slot::Scalar(Value::Int(5)), Slot::Scalar(Value::Decimal(b"1".to_vec()))],
    };
    assert_eq!(write(&schema, &wrong), None);
}

#[test]
fn values_parse_by_kind() {
    assert_eq!(parse_value(&ValueKind::UInt, b"+17"), Some(Value::UInt(17)));
    assert_eq!(parse_value(&ValueKind::UInt, b"-1"), None);
    assert_eq!(parse_value(&ValueKind::UInt, b""), None);
    assert_eq!(parse_value(&ValueKind::Int, b"-9223372036854775808"), Some(Value::Int(i64::MIN)));
    assert_eq!(parse_value(&ValueKind::Int, b"9223372036854775807"), Some(Value::Int(i64::MAX)));
    assert_eq!(parse_value(&ValueKind::Int, b"9223372036854775808"), None);
    assert_eq!(parse_value(&ValueKind::Int, b"-"), None);
    assert_eq!(parse_value(&ValueKind::Char, b"Y"), Some(Value::Char(b'Y')));
    assert_eq!(parse_value(&ValueKind::Char, b"YN"), None);
    assert_eq!(parse_value(&ValueKind::Text, b"BTCUSD"), Some(Value::Text(b"BTCUSD".to_vec())));
    assert_eq!(parse_value(&ValueKind::Text, &[0xff, 0xfe]), None);
    assert_eq!(parse_value(&ValueKind::Code(side_tokens()), b"2"), Some(Value::Code(1)));
    assert_eq!(parse_value(&ValueKind::Code(side_tokens()), b"3"), None);
}

#[test]
fn values_render_by_kind() {
    let mut out = b">".to_vec();
    assert!(render_value(&ValueKind::UInt, &Value::UInt(1200), &mut out));
    assert!(render_value(&ValueKind::Int, &Value::Int(-45), &mut out));
    assert!(render_value(&ValueKind::Int, &Value::Int(i64::MIN), &mut out));
    assert!(render_value(&ValueKind::Char, &Value::Char(b'9'), &mut out));
    assert!(render_value(&ValueKind::Code(side_tokens()), &Value::Code(0), &mut out));
    assert_eq!(out, b">1200-45-922337203685477580891".to_vec());
    assert!(!render_value(&ValueKind::Code(side_tokens()), &Value::Code(2), &mut out));
    assert!(!render_value(&ValueKind::UInt, &Value::Int(1), &mut out));
    assert_eq!(out, b">1200-45-922337203685477580891".to_vec());
}

#[test]
fn timestamps_go_through_chrono() {
    let parsed = parse_value(&ValueKind::Timestamp, b"20190119-16:53:28.997");
    assert_eq!(parsed, Some(Value::Timestamp(Timestamp { secs: 1547916808, nanos: 997_000_000 })));
    assert_eq!(parse_value(&ValueKind::Timestamp, b"2019-01-19"), None);
    assert_eq!(parse_value(&ValueKind::Timestamp, &[0xff]), None);
    let mut out = Vec::new();
    let t = Value::Timestamp(Timestamp { secs: 1547916808, nanos: 997_000_000 });
    assert!(render_value(&ValueKind::Timestamp, &t, &mut out));
    assert_eq!(out, b"20190119-16:53:28.997".to_vec());
    let mut out = Vec::new();
    let t = Value::Timestamp(Timestamp { secs: i64::MAX, nanos: 0 });
    assert!(!render_value(&ValueKind::Timestamp, &t, &mut out));
    assert!(out.is_empty());
}

#[test]
fn typed_message_writes_its_body_and_type() {
    let schema = simple_schema();
    let record = Record {
        slots: vec![Slot::Scalar(Value::UInt(5)), Slot::Scalar(Value::Decimal(b"1.23".to_vec()))],
    };
    let message = TypedMessage { schema: &schema, record: &record };
    assert_eq!(message.msg_type(), b"A");
    assert_eq!(schema.msg_type(), b"A");
    assert_eq!(message.serialize_body_to_fix(), Some(to_fix("35=A|50=5|51=1.23|")));
}

#[test]
fn scalars_parse_by_type() {
    assert_eq!(u64::parse(b"42"), Ok(42));
    assert_eq!(u64::parse(b"4x"), Err(ParseError::InvalidValue));
    assert_eq!(i64::parse(b"-42"), Ok(-42));
    assert_eq!(i64::parse(b"+42"), Ok(42));
    assert_eq!(u8::parse(b"038"), Ok(38));
    assert_eq!(u8::parse(b"255"), Ok(255));
    assert_eq!(u8::parse(b"256"), Err(ParseError::InvalidValue));
    assert_eq!(
        Timestamp::parse(b"19700101-00:00:01.5"),
        Ok(Timestamp { secs: 1, nanos: 500_000_000 })
    );
    assert_eq!(Timestamp::parse(b"yesterday"), Err(ParseError::InvalidValue));
}

fn mass_quote() -> Schema {
    Schema {
        msg_type: b"i".to_vec(),
        entries: vec![
            scalar(34, ValueKind::UInt, true),
            scalar(117, ValueKind::Text, true),
            Entry::Group(
                453,
                vec![
                    scalar(448, ValueKind::Text, true),
                    scalar(447, ValueKind::Text, true),
                    scalar(452, ValueKind::Int, true),
                ],
            ),
            Entry::Group(
                296,
                vec![
                    scalar(302, ValueKind::Text, true),
                    scalar(304, ValueKind::Int, true),
                    Entry::Group(
                        295,
                        vec![
                            scalar(299, ValueKind::Text, true),
                            scalar(55, ValueKind::Text, true),
                            scalar(132, ValueKind::Decimal, false),
                        ],
                    ),
                ],
            ),
            scalar(58, ValueKind::Text, false),
        ],
    }
}

fn decimal(t: &str) -> Slot {
    Slot::Scalar(Value::Decimal(t.as_bytes().to_vec()))
}

#[test]
fn nested_groups_round_trip() {
    let record = Record {
        slots: vec![
            Slot::Scalar(Value::UInt(3)),
            text("mq_5"),
            Slot::Group(vec![vec![text("IG_MM"), text("D"), signed(66)]]),
            Slot::Group(vec![
                vec![
                    text("1"),
                    signed(3),
                    Slot::Group(vec![
                        vec![text("0"), text("TC.D"), decimal("48.0")],
                        vec![text("1"), text("TC.E"), Slot::Absent],
                    ]),
                ],
                vec![text("2"), signed(0), Slot::Group(vec![])],
                vec![text("3"), signed(1), Slot::Absent],
            ]),
            text("done"),
        ],
    };
    let body = "35=i|34=3|117=mq_5|453=1|448=IG_MM|447=D|452=66|\
                296=3|302=1|304=3|295=2|299=0|55=TC.D|132=48.0|299=1|55=TC.E|\
                302=2|304=0|295=0|302=3|304=1|58=done|";
    let bytes = write(&mass_quote(), &record).unwrap();
    assert_eq!(bytes, wrap(body));
    assert_eq!(deserialize(&mass_quote(), &bytes), Ok(record));
}

#[test]
fn nested_group_stops_the_inner_rows_at_the_outer_tag() {
    let schema = mass_quote();
    let entries = match &schema.entries[3] {
        Entry::Group(_, entries) => entries,
        other => panic!("{:?}", other),
    };
    let input = to_fix("302=1|295=1|299=0|55=A|304=7|302=2|304=8|58=x|10=000|");
    let (rows, cont) = deserialize_group_from_fix(entries, 2, &input).unwrap();
    assert_eq!(
        rows,
        vec![
            vec![text("1"), signed(7), Slot::Group(vec![vec![text("0"), text("A"), Slot::Absent]])],
            vec![text("2"), signed(8), Slot::Absent],
        ]
    );
    assert_eq!(cont.next_field.id, 58);
    let consumed = to_fix("302=1|295=1|299=0|55=A|304=7|302=2|304=8|");
    assert_eq!(cont.checksum, profix::checksum::checksum(&consumed));
}

#[test]
fn nested_group_failures() {
    let schema = mass_quote();
    let fix = wrap("35=i|34=3|117=q|296=1|302=1|304=3|295=1|299=0|295=1|299=1|55=B|");
    assert_eq!(deserialize(&schema, &fix), Err(ParseError::MissingField));
    let fix = wrap("35=i|34=3|117=q|296=1|302=1|304=3|295=1|299=0|55=A|295=0|");
    assert_eq!(deserialize(&schema, &fix), Err(ParseError::DuplicateField));
    let fix = wrap("35=i|34=3|117=q|296=1|302=1|304=3|295=x|");
    assert_eq!(deserialize(&schema, &fix), Err(ParseError::InvalidValue));
}

fn prop_round_trip(seq: u64, qty: i64, name: String, note: Option<String>, side: bool) -> bool {
    if name.as_bytes().contains(&1u8) {
        return true;
    }
    if let Some(n) = &note {
        if n.as_bytes().contains(&1u8) {
            return true;
        }
    }
    let schema = Schema {
        msg_type: b"D".to_vec(),
        entries: vec![
            scalar(34, ValueKind::UInt, true),
            Entry::Group(
                453,
                vec![scalar(448, ValueKind::Text, true), scalar(452, ValueKind::Int, false)],
            ),
            scalar(58, ValueKind::Text, false),
            scalar(54, ValueKind::Code(side_tokens()), true),
        ],
    };
    let record = Record {
        slots: vec![
            Slot::Scalar(Value::UInt(seq)),
            Slot::Group(vec![
                vec![text(&name), signed(qty)],
                vec![text(&name), Slot::Absent],
            ]),
            match note {
                Some(n) => text(&n),
                None => Slot::Absent,
            },
            Slot::Scalar(Value::Code(if side { 0 } else { 1 })),
        ],
    };
    let bytes = match write(&schema, &record) {
        Some(bytes) => bytes,
        None => return false,
    };
    deserialize(&schema, &bytes) == Ok(record)
}

#[test]
fn qc_round_trip() {
    quickcheck::quickcheck(prop_round_trip as fn(u64, i64, String, Option<String>, bool) -> bool);
}

fn prop_checksum_guards(seq: u64, at: usize, delta: u8) -> bool {
    let record = Record {
        slots: vec![Slot::Scalar(Value::UInt(seq)), Slot::Scalar(Value::Decimal(b"1.5".to_vec()))],
    };
    let mut bytes = write(&simple_schema(), &record).unwrap();
    let at = at % (bytes.len() - 7);
    if delta == 0 {
        return true;
    }
    bytes[at] = bytes[at].wrapping_add(delta);
    deserialize(&simple_schema(), &bytes).is_err()
}

#[test]
fn qc_altered_byte_never_decodes() {
    quickcheck::quickcheck(prop_checksum_guards as fn(u64, usize, u8) -> bool);
}

#[test]
fn altered_tag_may_end_the_message_early() {
    let schema = Schema { msg_type: b"A".to_vec(), entries: vec![scalar(50, ValueKind::UInt, true)] };
    let mut prefix = to_fix("8=FIX.4.2|9=17|35=A|50=5|");
    let sum = profix::checksum::checksum(&prefix);
    let passed_over = format!("11={:03}\x01", sum).into_bytes();
    let at = prefix.len();
    prefix.extend_from_slice(&passed_over);
    let total = profix::checksum::checksum(&prefix);
    prefix.extend_from_slice(format!("10={:03}\x01", total).as_bytes());
    let record = deserialize(&schema, &prefix).unwrap();
    assert_eq!(record.slots[0], Slot::Scalar(Value::UInt(5)));
    let mut altered = prefix.clone();
    altered[at + 1] = b'0';
    assert_eq!(deserialize(&schema, &altered), Ok(record));
}

#[test]
fn earlier_failures_come_first() {
    let fix = wrap("35=A|50=x|50=5|51=1.23|");
    assert_eq!(deserialize(&simple_schema(), &fix), Err(ParseError::InvalidValue));
    let fix = to_fix("8=FIX.4.2|9=10|35=A|50=5|10=000|");
    assert_eq!(deserialize(&simple_schema(), &fix), Err(ParseError::ChecksumMismatch));
}

fn catalog_header() -> Vec<Entry> {
    vec![
        scalar(34, ValueKind::UInt, true),
        scalar(49, ValueKind::Text, true),
        scalar(56, ValueKind::Text, true),
        scalar(52, ValueKind::Timestamp, true),
    ]
}

fn party_id_group() -> Vec<Entry> {
    vec![
        scalar(448, ValueKind::Text, true),
        scalar(447, ValueKind::Text, true),
        scalar(452, ValueKind::Int, true),
    ]
}

fn catalog_mass_quote() -> Schema {
    let mut entries = catalog_header();
    entries.push(scalar(117, ValueKind::Text, true));
    entries.push(Entry::Group(453, party_id_group()));
    entries.push(Entry::Group(
        296,
        vec![
            scalar(302, ValueKind::Text, true),
            scalar(304, ValueKind::Int, true),
            Entry::Group(
                295,
                vec![
                    scalar(299, ValueKind::Text, true),
                    scalar(55, ValueKind::Text, true),
                    scalar(48, ValueKind::Text, true),
                    scalar(22, ValueKind::Int, true),
                    scalar(132, ValueKind::Decimal, true),
                    scalar(133, ValueKind::Decimal, true),
                    scalar(134, ValueKind::Decimal, true),
                    scalar(135, ValueKind::Decimal, true),
                ],
            ),
        ],
    ));
    Schema { msg_type: b"i".to_vec(), entries }
}

fn catalog_quote_cancel() -> Schema {
    let mut entries = catalog_header();
    entries.push(scalar(131, ValueKind::Text, true));
    entries.push(Entry::Group(
        295,
        vec![
            scalar(55, ValueKind::Text, true),
            scalar(48, ValueKind::Text, true),
            scalar(22, ValueKind::Int, true),
        ],
    ));
    Schema { msg_type: b"Z".to_vec(), entries }
}

fn catalog_quote_status_report() -> Schema {
    let mut entries = catalog_header();
    entries.push(scalar(131, ValueKind::Text, true));
    entries.push(scalar(55, ValueKind::Text, true));
    entries.push(scalar(48, ValueKind::Text, true));
    entries.push(scalar(22, ValueKind::Int, true));
    entries.push(scalar(297, ValueKind::Int, true));
    entries.push(Entry::Group(453, party_id_group()));
    entries.push(scalar(60, ValueKind::Timestamp, true));
    Schema { msg_type: b"AI".to_vec(), entries }
}

#[test]
fn mass_quote_parse() {
    let mq = to_fix("8=FIXT.1.1|9=407|35=i|49=Fake1|56=FakeExchange|34=3|52=20190119-16:53:28.997|117=TC.D.A0.opt0.IP#mq_1547916808997138090_5|453=1|448=IG_MM|447=D|452=66|296=1|302=1|304=3|295=3|299=0|55=TC.D.A0.opt0.IP|48=TC.D.A0.opt0.IP|22=8|132=48.0|133=50.0|134=5.0|135=5.0|299=1|55=TC.D.A0.opt0.IP|48=TC.D.A0.opt0.IP|22=8|132=48.0|133=51.0|134=5.0|135=5.0|299=2|55=TC.D.A0.opt0.IP|48=TC.D.A0.opt0.IP|22=8|132=47.0|133=51.0|134=5.0|135=5.0|10=099|");
    let result = deserialize(&catalog_mass_quote(), &mq);
    assert!(result.is_ok());
    let record = result.unwrap();
    assert_eq!(record.slots[0], Slot::Scalar(Value::UInt(3)));
    assert_eq!(record.slots[5], Slot::Group(vec![vec![text("IG_MM"), text("D"), signed(66)]]));
    match &record.slots[6] {
        Slot::Group(sets) => {
            assert_eq!(sets.len(), 1);
            assert_eq!(sets[0][1], signed(3));
            match &sets[0][2] {
                Slot::Group(quotes) => {
                    assert_eq!(quotes.len(), 3);
                    assert_eq!(quotes[2][0], text("2"));
                    assert_eq!(quotes[2][4], decimal("47.0"));
                }
                other => panic!("{:?}", other),
            }
        }
        other => panic!("{:?}", other),
    }
}

#[test]
fn quote_cancel_parse() {
    let qc = to_fix("8=FIXT.1.1|9=170|35=Z|49=Fake1|56=FakeExchange|34=4|52=20190119-16:53:28.997|131=TC.D.A0.opt0.IP#mqc_5|298=1|453=1|448=IG_MM|447=D|452=66|295=1|55=TC.D.A0.opt0.IP|48=TC.D.A0.opt0.IP|22=8|10=042|");
    let result = deserialize(&catalog_quote_cancel(), &qc);
    assert!(result.is_ok());
    let record = result.unwrap();
    assert_eq!(
        record.slots[5],
        Slot::Group(vec![vec![text("TC.D.A0.opt0.IP"), text("TC.D.A0.opt0.IP"), signed(8)]])
    );
}

#[test]
fn quote_status_report_serialize() {
    let sent = Slot::Scalar(Value::Timestamp(Timestamp { secs: 1547916808, nanos: 997_000_000 }));
    let qs = Record {
        slots: vec![
            Slot::Scalar(Value::UInt(4)),
            text("Fake1"),
            text("FakeExchange"),
            Slot::Scalar(Value::Timestamp(Timestamp { secs: 1547916808, nanos: 997_000_000 })),
            text("TC.D.A0.opt0.IP#mqc_5"),
            text("TC.D.A0.opt0.IP"),
            text("DummySecurityID"),
            signed(8),
            signed(1),
            Slot::Group(vec![vec![text("1"), text("D"), signed(66)]]),
            sent,
        ],
    };
    let serialized = write(&catalog_quote_status_report(), &qs).unwrap();
    let body = "35=AI|34=4|49=Fake1|56=FakeExchange|52=20190119-16:53:28.997|\
                131=TC.D.A0.opt0.IP#mqc_5|55=TC.D.A0.opt0.IP|48=DummySecurityID|22=8|297=1|\
                453=1|448=1|447=D|452=66|60=20190119-16:53:28.997|";
    assert_eq!(serialized, wrap(body));
    assert_eq!(deserialize(&catalog_quote_status_report(), &serialized), Ok(qs));
}
