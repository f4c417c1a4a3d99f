//! The schema mapper and the group parser: from the fields of a message to
//! a typed message.

use vstd::prelude::*;
use vstd::slice::slice_subrange;
use crate::checksum::{add_checksums, checksum_add};
use crate::error::ParseError;
use crate::field::{field_spec, lemma_field_bounds, parse_fix_field, FieldView, FixField, CHECKSUM_ID};
use crate::message::{message_spec, parse_fix_message, FixMessage, MessageView};
use crate::numbers::{byte_spec, unsigned_spec};
use crate::schema::{
    empty_slots, find_entry, find_entry_at, is_absent, is_slots_missing, lemma_group_view,
    new_slots, rows_view, slots_missing, slots_view, Entry, Record, Schema, Slot, SlotView,
};
use crate::session::bytes_eq;
use crate::value::{parse_value, parse_value_spec, FixParse};

verus! {

/// Where a group parse stopped: the checksum of what it consumed, the input
/// from there on, and the field that stands there.
pub struct ParserContinuation<'a> {
    pub checksum: u8,
    pub next_input: &'a [u8],
    pub next_field: FixField<'a>,
}

/// What a group parse yields: the sub-records, the input from where it
/// stopped, and the checksum of what it consumed.
pub struct GroupScan {
    pub rows: Seq<Seq<SlotView>>,
    pub rest: Seq<u8>,
    pub sum: int,
}

/// What reading one entry yields: the slot it fills, the input behind it,
/// and the running checksum there.
pub struct EntryRead {
    pub slot: SlotView,
    pub rest: Seq<u8>,
    pub sum: int,
}

/// The input behind the field `f`, which must not be the last thing in it.
pub open spec fn rest_after(input: Seq<u8>, f: FieldView) -> Option<Seq<u8>> {
    if 0 < f.length < input.len() {
        Some(input.skip(f.length as int))
    } else {
        None
    }
}

/// True when a field with tag `tag` opens a sub-record of the group: the
/// group's first entry is a scalar with that tag.
pub open spec fn opens_row(entries: Seq<Entry>, tag: u64) -> bool {
    entries.len() > 0 && entries[0] is Scalar && entries[0]->Scalar_0.tag == tag
}

/// True when slot `j` is there and holds nothing.
pub open spec fn slot_absent(slots: Seq<SlotView>, j: int) -> bool {
    0 <= j < slots.len() && slots[j] is Absent
}

/// Reading the field `f`, which stands at the start of `input` and carries
/// the tag of `entry`. A scalar whose slot is absent parses the value. A
/// group parses the count, hands what follows to the group parser, and goes
/// on where that stopped. A slot that is filled already is a duplicate.
#[verifier::opaque]
pub open spec fn read_entry(entry: Entry, absent: bool, input: Seq<u8>, f: FieldView, sum: int)
    -> Result<EntryRead, ParseError>
    decreases input.len(), 0nat,
{
    match entry {
        Entry::Scalar(spec) => if !absent {
            Err(ParseError::DuplicateField)
        } else {
            match parse_value_spec(spec.kind, f.value) {
                None => Err(ParseError::InvalidValue),
                Some(v) => match rest_after(input, f) {
                    None => Err(ParseError::EndBeforeChecksum),
                    Some(rest) => Ok(
                        EntryRead {
                            slot: SlotView::Scalar(v),
                            rest,
                            sum: checksum_add(sum, f.checksum),
                        },
                    ),
                },
            }
        },
        Entry::Group(_, sub) => match unsigned_spec(f.value) {
            None => Err(ParseError::InvalidValue),
            Some(count) => match rest_after(input, f) {
                None => Err(ParseError::EndBeforeChecksum),
                Some(rest) => if !absent {
                    Err(ParseError::DuplicateField)
                } else {
                    match scan_group(sub@, rest, count as nat, Seq::empty(), 0) {
                        Err(e) => Err(e),
                        Ok(g) => Ok(
                            EntryRead {
                                slot: SlotView::Group(g.rows),
                                rest: g.rest,
                                sum: checksum_add(checksum_add(sum, f.checksum), g.sum),
                            },
                        ),
                    }
                },
            },
        },
    }
}

/// The group parser between two sub-records: `remaining` more may be read,
/// `rows` were read, `sum` is the checksum of what was consumed. A field that
/// opens a sub-record starts one; any other field, or a used-up count, ends
/// the group at that field.
#[verifier::opaque]
pub open spec fn scan_group(
    entries: Seq<Entry>,
    input: Seq<u8>,
    remaining: nat,
    rows: Seq<Seq<SlotView>>,
    sum: int,
) -> Result<GroupScan, ParseError>
    decreases input.len(), 0nat,
{
    match field_spec(input) {
        Err(e) => Err(e),
        Ok(f) => if remaining == 0 || !opens_row(entries, f.id) {
            Ok(GroupScan { rows, rest: input, sum })
        } else {
            match parse_value_spec(entries[0]->Scalar_0.kind, f.value) {
                None => Err(ParseError::InvalidValue),
                Some(v) => match rest_after(input, f) {
                    None => Err(ParseError::EndBeforeChecksum),
                    Some(rest) => scan_row(
                        entries,
                        rest,
                        remaining,
                        rows,
                        checksum_add(sum, f.checksum),
                        empty_slots(entries.len()).update(0, SlotView::Scalar(v)),
                    ),
                },
            }
        },
    }
}

/// The group parser inside a sub-record: `row` holds what was read of it.
/// A field of an entry other than the first fills that entry's slot; any
/// other field closes the sub-record.
#[verifier::opaque]
pub open spec fn scan_row(
    entries: Seq<Entry>,
    input: Seq<u8>,
    remaining: nat,
    rows: Seq<Seq<SlotView>>,
    sum: int,
    row: Seq<SlotView>,
) -> Result<GroupScan, ParseError>
    decreases input.len(), 1nat,
{
    match field_spec(input) {
        Err(e) => Err(e),
        Ok(f) => match find_entry(entries, f.id, 1) {
            Some(j) => match read_entry(entries[j], slot_absent(row, j), input, f, sum) {
                Err(e) => Err(e),
                Ok(r) => if r.rest.len() < input.len() {
                    scan_row(entries, r.rest, remaining, rows, r.sum, row.update(j, r.slot))
                } else {
                    Err(ParseError::EndBeforeChecksum)
                },
            },
            None => if slots_missing(entries, row) {
                Err(ParseError::MissingField)
            } else {
                scan_group(entries, input, (remaining - 1) as nat, rows.push(row), sum)
            },
        },
    }
}

/// What the trailing checksum field `f` makes of a message whose bytes so
/// far sum to `sum` and whose slots are `slots`.
pub open spec fn finish_message(entries: Seq<Entry>, f: FieldView, sum: int, slots: Seq<SlotView>)
    -> Result<Seq<SlotView>, ParseError> {
    match byte_spec(f.value) {
        None => Err(ParseError::InvalidValue),
        Some(c) => if c as int != sum {
            Err(ParseError::ChecksumMismatch)
        } else if slots_missing(entries, slots) {
            Err(ParseError::MissingField)
        } else {
            Ok(slots)
        },
    }
}

/// The schema mapper at a field boundary: `sum` is the checksum of all bytes
/// before `input`, `slots` holds what was read. A field of an entry fills
/// that entry's slot; the checksum field ends the message; any other field
/// is passed over.
#[verifier::opaque]
pub open spec fn scan_message(entries: Seq<Entry>, input: Seq<u8>, sum: int, slots: Seq<SlotView>)
    -> Result<Seq<SlotView>, ParseError>
    decreases input.len(),
{
    match field_spec(input) {
        Err(e) => Err(e),
        Ok(f) => match find_entry(entries, f.id, 0) {
            Some(i) => match read_entry(entries[i], slot_absent(slots, i), input, f, sum) {
                Err(e) => Err(e),
                Ok(r) => if r.rest.len() < input.len() {
                    scan_message(entries, r.rest, r.sum, slots.update(i, r.slot))
                } else {
                    Err(ParseError::EndBeforeChecksum)
                },
            },
            None => if f.id == CHECKSUM_ID {
                finish_message(entries, f, sum, slots)
            } else {
                match rest_after(input, f) {
                    None => Err(ParseError::EndBeforeChecksum),
                    Some(rest) => scan_message(entries, rest, checksum_add(sum, f.checksum), slots),
                }
            },
        },
    }
}

/// The typed message that the body of `m` holds under `schema`.
pub open spec fn decode_body_spec(schema: Schema, m: MessageView) -> Result<
    Seq<SlotView>,
    ParseError,
> {
    scan_message(
        schema.entries@,
        m.body,
        m.header_checksum,
        empty_slots(schema.entries@.len() as nat),
    )
}

/// The typed message that the bytes `input` hold under `schema`: the
/// envelope first, then the type code, then the body.
pub open spec fn decode_spec(schema: Schema, input: Seq<u8>) -> Result<Seq<SlotView>, ParseError> {
    match message_spec(input) {
        Err(e) => Err(e),
        Ok(m) => if m.msg_type != schema.msg_type@ {
            Err(ParseError::UnknownMessageType)
        } else {
            decode_body_spec(schema, m)
        },
    }
}

/// A group parse never hands back more input than it was given.
pub proof fn lemma_scan_group_shrinks(
    entries: Seq<Entry>,
    input: Seq<u8>,
    remaining: nat,
    rows: Seq<Seq<SlotView>>,
    sum: int,
)
    ensures
        scan_group(entries, input, remaining, rows, sum) is Ok ==> scan_group(
            entries,
            input,
            remaining,
            rows,
            sum,
        )->Ok_0.rest.len() <= input.len(),
    decreases input.len(), 0nat,
{
    reveal(read_entry);
    reveal(scan_group);
    reveal(scan_row);
    match field_spec(input) {
        Err(e) => {},
        Ok(f) => {
            if remaining == 0 || !opens_row(entries, f.id) {
            } else {
                match parse_value_spec(entries[0]->Scalar_0.kind, f.value) {
                    None => {},
                    Some(v) => match rest_after(input, f) {
                        None => {},
                        Some(rest) => {
                            lemma_scan_row_shrinks(
                                entries,
                                rest,
                                remaining,
                                rows,
                                checksum_add(sum, f.checksum),
                                empty_slots(entries.len()).update(0, SlotView::Scalar(v)),
                            );
                        },
                    },
                }
            }
        },
    }
}

/// A group parse inside a sub-record never hands back more input than it
/// was given.
pub proof fn lemma_scan_row_shrinks(
    entries: Seq<Entry>,
    input: Seq<u8>,
    remaining: nat,
    rows: Seq<Seq<SlotView>>,
    sum: int,
    row: Seq<SlotView>,
)
    ensures
        scan_row(entries, input, remaining, rows, sum, row) is Ok ==> scan_row(
            entries,
            input,
            remaining,
            rows,
            sum,
            row,
        )->Ok_0.rest.len() <= input.len(),
    decreases input.len(), 1nat,
{
    reveal(read_entry);
    reveal(scan_group);
    reveal(scan_row);
    match field_spec(input) {
        Err(e) => {},
        Ok(f) => match find_entry(entries, f.id, 1) {
            Some(j) => {
                match read_entry(entries[j], slot_absent(row, j), input, f, sum) {
                    Err(e) => {},
                    Ok(r) => {
                        if r.rest.len() < input.len() {
                            lemma_scan_row_shrinks(
                                entries,
                                r.rest,
                                remaining,
                                rows,
                                r.sum,
                                row.update(j, r.slot),
                            );
                        }
                    },
                }
            },
            None => {
                if !slots_missing(entries, row) {
                    lemma_scan_group_shrinks(
                        entries,
                        input,
                        (remaining - 1) as nat,
                        rows.push(row),
                        sum,
                    );
                }
            },
        },
    }
}

/// Reads the value of one entry from the field that carries its tag, and
/// hands back the slot, the input behind what was read, and the running
/// checksum there.
pub fn deserialize_entry<'a>(
    entry: &Entry,
    absent: bool,
    input: &'a [u8],
    field: &FixField<'a>,
    sum: u8,
) -> (r: Result<(Slot, &'a [u8], u8), ParseError>)
    requires
        field_spec(input@) == Ok::<FieldView, ParseError>(field@),
    ensures
        match r {
            Ok((slot, rest, total)) => read_entry(*entry, absent, input@, field@, sum as int)
                == Ok::<EntryRead, ParseError>(
                EntryRead { slot: slot@, rest: rest@, sum: total as int },
            ) && rest@.len() < input@.len(),
            Err(e) => read_entry(*entry, absent, input@, field@, sum as int) == Err::<
                EntryRead,
                ParseError,
            >(e),
        },
    decreases input@.len(), 0nat,
{
    proof {
        reveal(read_entry);
        reveal(scan_group);
        reveal(scan_row);
        lemma_field_bounds(input@);
    }
    match entry {
        Entry::Scalar(spec) => {
            if !absent {
                return Err(ParseError::DuplicateField);
            }
            let v = match parse_value(&spec.kind, field.value) {
                Some(v) => v,
                None => {
                    return Err(ParseError::InvalidValue);
                },
            };
            if input.len() <= field.length {
                return Err(ParseError::EndBeforeChecksum);
            }
            let rest = slice_subrange(input, field.length, input.len());
            assert(rest@ =~= input@.skip(field.length as int));
            Ok((Slot::Scalar(v), rest, add_checksums(sum, field.checksum)))
        },
        Entry::Group(_, sub) => {
            let count = match u64::parse(field.value) {
                Ok(n) => n,
                Err(e) => {
                    return Err(e);
                },
            };
            if input.len() <= field.length {
                return Err(ParseError::EndBeforeChecksum);
            }
            let rest = slice_subrange(input, field.length, input.len());
            assert(rest@ =~= input@.skip(field.length as int));
            if !absent {
                return Err(ParseError::DuplicateField);
            }
            proof {
                lemma_scan_group_shrinks(sub@, rest@, count as nat, Seq::empty(), 0);
            }
            let (rows, cont) = match deserialize_group_from_fix(sub, count, rest) {
                Ok(pair) => pair,
                Err(e) => {
                    return Err(e);
                },
            };
            proof {
                lemma_group_view(rows);
            }
            Ok(
                (
                    Slot::Group(rows),
                    cont.next_input,
                    add_checksums(add_checksums(sum, field.checksum), cont.checksum),
                ),
            )
        },
    }
}

/// Reads the sub-records of a repeating group from the input that follows
/// its count: at most `expected_length` of them, each opened by the first
/// entry of `entries`. Stops at the first field that opens none, and hands
/// it back with the input from there on and the checksum of what was
/// consumed.
pub fn deserialize_group_from_fix<'a>(
    entries: &Vec<Entry>,
    expected_length: u64,
    input: &'a [u8],
) -> (r: Result<(Vec<Vec<Slot>>, ParserContinuation<'a>), ParseError>)
    ensures
        match r {
            Ok((rows, cont)) => scan_group(
                entries@,
                input@,
                expected_length as nat,
                Seq::empty(),
                0,
            ) == Ok::<GroupScan, ParseError>(
                GroupScan { rows: rows_view(rows), rest: cont.next_input@, sum: cont.checksum as int },
            ) && field_spec(cont.next_input@) == Ok::<FieldView, ParseError>(cont.next_field@),
            Err(e) => scan_group(entries@, input@, expected_length as nat, Seq::empty(), 0)
                == Err::<GroupScan, ParseError>(e),
        },
    decreases input@.len(), 1nat,
{
    let ghost goal = scan_group(entries@, input@, expected_length as nat, Seq::empty(), 0);
    proof {
        reveal(read_entry);
        reveal(scan_group);
        reveal(scan_row);
    }
    let mut rows: Vec<Vec<Slot>> = Vec::new();
    let mut cur = input;
    let mut sum: u8 = 0;
    let mut remaining = expected_length;
    let mut field = match parse_fix_field(cur) {
        Ok(f) => f,
        Err(e) => {
            return Err(e);
        },
    };
    assert(rows_view(rows) =~= Seq::empty());
    loop
        invariant
            goal == scan_group(entries@, input@, expected_length as nat, Seq::empty(), 0),
            cur@.len() <= input@.len(),
            field_spec(cur@) == Ok::<FieldView, ParseError>(field@),
            goal == scan_group(entries@, cur@, remaining as nat, rows_view(rows), sum as int),
        decreases cur@.len(),
    {
        let ghost at_entry = cur@.len();
        proof {
            reveal(read_entry);
            reveal(scan_group);
            reveal(scan_row);
            lemma_field_bounds(cur@);
        }
        let opener = if remaining != 0 && entries.len() > 0 {
            match &entries[0] {
                Entry::Scalar(spec) => if spec.tag == field.id {
                    Some(spec)
                } else {
                    None
                },
                Entry::Group(_, _) => None,
            }
        } else {
            None
        };
        let head = match opener {
            Some(spec) => match parse_value(&spec.kind, field.value) {
                Some(v) => v,
                None => {
                    return Err(ParseError::InvalidValue);
                },
            },
            None => {
                return Ok(
                    (rows, ParserContinuation { checksum: sum, next_input: cur, next_field: field }),
                );
            },
        };
        let mut row = new_slots(entries.len());
        row.set(0, Slot::Scalar(head));
        assert(slots_view(row) =~= empty_slots(entries@.len()).update(0, SlotView::Scalar(head@)));
        if cur.len() <= field.length {
            return Err(ParseError::EndBeforeChecksum);
        }
        sum = add_checksums(sum, field.checksum);
        let rest = slice_subrange(cur, field.length, cur.len());
        assert(rest@ =~= cur@.skip(field.length as int));
        cur = rest;
        field = match parse_fix_field(cur) {
            Ok(f) => f,
            Err(e) => {
                return Err(e);
            },
        };
        let mut place = find_entry_at(entries, field.id, 1);
        while place.is_some()
            invariant
                goal == scan_group(entries@, input@, expected_length as nat, Seq::empty(), 0),
                remaining > 0,
                cur@.len() < at_entry,
                at_entry <= input@.len(),
                row@.len() == entries@.len(),
                field_spec(cur@) == Ok::<FieldView, ParseError>(field@),
                goal == scan_row(
                    entries@,
                    cur@,
                    remaining as nat,
                    rows_view(rows),
                    sum as int,
                    slots_view(row),
                ),
                match place {
                    Some(j) => find_entry(entries@, field.id, 1) == Some(j as int) && 1 <= j
                        < entries@.len(),
                    None => find_entry(entries@, field.id, 1) is None,
                },
            decreases cur@.len(),
        {
            let j = place.unwrap();
            proof {
                reveal(read_entry);
                reveal(scan_group);
                reveal(scan_row);
            }
            let absent = is_absent(&row[j]);
            assert(absent == slot_absent(slots_view(row), j as int));
            let (slot, rest, total) = match deserialize_entry(&entries[j], absent, cur, &field, sum) {
                Ok(triple) => triple,
                Err(e) => {
                    return Err(e);
                },
            };
            let ghost before = slots_view(row);
            let ghost read = slot@;
            row.set(j, slot);
            assert(slots_view(row) =~= before.update(j as int, read));
            sum = total;
            cur = rest;
            field = match parse_fix_field(cur) {
                Ok(f) => f,
                Err(e) => {
                    proof {
                        reveal_with_fuel(scan_row, 2);
                    }
                    return Err(e);
                },
            };
            place = find_entry_at(entries, field.id, 1);
        }
        if is_slots_missing(entries, &row) {
            return Err(ParseError::MissingField);
        }
        let ghost before = rows_view(rows);
        let ghost closed = slots_view(row);
        rows.push(row);
        assert(rows_view(rows) =~= before.push(closed));
        remaining = remaining - 1;
    }
}

/// Reads the body of a message under `schema` into a typed message: every
/// scalar at most once, every group through the group parser, unknown fields
/// passed over, up to the checksum field, which must agree with the bytes
/// before it; then every required scalar must have been met.
pub fn deserialize_from_fix(schema: &Schema, msg: FixMessage) -> (r: Result<Record, ParseError>)
    ensures
        match r {
            Ok(record) => decode_body_spec(*schema, msg@) == Ok::<Seq<SlotView>, ParseError>(
                record@,
            ),
            Err(e) => decode_body_spec(*schema, msg@) == Err::<Seq<SlotView>, ParseError>(e),
        },
{
    let ghost goal = decode_body_spec(*schema, msg@);
    proof {
        reveal(read_entry);
        reveal(scan_message);
    }
    let entries = &schema.entries;
    let mut slots = new_slots(entries.len());
    let mut cur = msg.body;
    let mut sum = msg.header_checksum;
    let mut field = match parse_fix_field(cur) {
        Ok(f) => f,
        Err(e) => {
            return Err(e);
        },
    };
    loop
        invariant
            goal == decode_body_spec(*schema, msg@),
            entries == &schema.entries,
            slots@.len() == entries@.len(),
            field_spec(cur@) == Ok::<FieldView, ParseError>(field@),
            goal == scan_message(entries@, cur@, sum as int, slots_view(slots)),
        decreases cur@.len(),
    {
        proof {
            reveal(read_entry);
            reveal(scan_message);
            lemma_field_bounds(cur@);
        }
        match find_entry_at(entries, field.id, 0) {
            Some(i) => {
                let absent = is_absent(&slots[i]);
                assert(absent == slot_absent(slots_view(slots), i as int));
                let (slot, rest, total) = match deserialize_entry(
                    &entries[i],
                    absent,
                    cur,
                    &field,
                    sum,
                ) {
                    Ok(triple) => triple,
                    Err(e) => {
                        return Err(e);
                    },
                };
                let ghost before = slots_view(slots);
                let ghost read = slot@;
                slots.set(i, slot);
                assert(slots_view(slots) =~= before.update(i as int, read));
                sum = total;
                cur = rest;
            },
            None => {
                if field.id == CHECKSUM_ID {
                    let stated = match u8::parse(field.value) {
                        Ok(c) => c,
                        Err(e) => {
                            return Err(e);
                        },
                    };
                    if stated != sum {
                        return Err(ParseError::ChecksumMismatch);
                    }
                    if is_slots_missing(entries, &slots) {
                        return Err(ParseError::MissingField);
                    }
                    return Ok(Record { slots });
                }
                if cur.len() <= field.length {
                    return Err(ParseError::EndBeforeChecksum);
                }
                sum = add_checksums(sum, field.checksum);
                let rest = slice_subrange(cur, field.length, cur.len());
                assert(rest@ =~= cur@.skip(field.length as int));
                cur = rest;
            },
        }
        field = match parse_fix_field(cur) {
            Ok(f) => f,
            Err(e) => {
                proof {
                    reveal_with_fuel(scan_message, 2);
                }
                return Err(e);
            },
        };
    }
}

/// Reads one whole message under `schema`: the envelope, the type code,
/// which must be the schema's, and the body.
pub fn deserialize(schema: &Schema, input: &[u8]) -> (r: Result<Record, ParseError>)
    ensures
        match r {
            Ok(record) => decode_spec(*schema, input@) == Ok::<Seq<SlotView>, ParseError>(record@),
            Err(e) => decode_spec(*schema, input@) == Err::<Seq<SlotView>, ParseError>(e),
        },
{
    let msg = match parse_fix_message(input) {
        Ok(m) => m,
        Err(e) => {
            return Err(e);
        },
    };
    if !bytes_eq(msg.msg_type, schema.msg_type.as_slice()) {
        return Err(ParseError::UnknownMessageType);
    }
    deserialize_from_fix(schema, msg)
}

} // verus!
