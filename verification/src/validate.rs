//! Checking a schema and a message before they are used: whether what is
//! written can be read back.

use vstd::prelude::*;
use crate::decode::decode_spec;
use crate::encode::{encode_body, encode_spec, frame_body};
use crate::error::ParseError;
use crate::field::{CHECKSUM_ID, DELIMITER};
use crate::roundtrip::{
    entries_ok, group_ok, lemma_round_trip, row_ok, schema_ok, siblings_free, slot_ok, slots_ok,
    tail_free, text_ok, tokens_ok, value_ok,
};
use crate::schema::{
    entry_tag, lemma_group_view, rows_view, slots_view, Entry, Record, Schema, Slot, SlotView,
};
use crate::session::bytes_eq;
use crate::value::{is_utf8, render_value, FixParse, Timestamp, Value, ValueKind};

verus! {

/// True when no two entries carry the same tag.
pub open spec fn distinct_tags(entries: Seq<Entry>) -> bool {
    forall|i: int, j: int|
        0 <= i < j < entries.len() ==> entry_tag(#[trigger] entries[i]) != entry_tag(
            #[trigger] entries[j],
        )
}

/// The tag under which an entry is met on the wire.
pub fn tag_of(entry: &Entry) -> (tag: u64)
    ensures
        tag == entry_tag(*entry),
{
    match entry {
        Entry::Scalar(f) => f.tag,
        Entry::Group(count_tag, _) => *count_tag,
    }
}

/// Says whether `text` holds no delimiter.
pub fn text_is_ok(text: &[u8]) -> (r: bool)
    ensures
        r == text_ok(text@),
{
    let mut k: usize = 0;
    while k < text.len()
        invariant
            k <= text.len(),
            forall|i: int| 0 <= i < k ==> #[trigger] text@[i] != DELIMITER,
        decreases text.len() - k,
    {
        if text[k] == DELIMITER {
            return false;
        }
        k += 1;
    }
    true
}

/// Says whether a field with tag `tag` closes every sub-record of the
/// group, at any depth.
pub fn closes_group(entries: &Vec<Entry>, tag: u64) -> (r: bool)
    ensures
        r == tail_free(entries@, tag),
    decreases entries,
{
    let mut k: usize = 0;
    while k < entries.len()
        invariant
            k <= entries.len(),
            forall|j: int| 1 <= j < k ==> entry_tag(#[trigger] entries@[j]) != tag,
            forall|j: int|
                0 <= j < k && (#[trigger] entries@[j]) is Group ==> tail_free(
                    entries@[j]->Group_1@,
                    tag,
                ),
        decreases entries.len() - k,
    {
        if k >= 1 && tag_of(&entries[k]) == tag {
            return false;
        }
        match &entries[k] {
            Entry::Group(_, sub) => {
                if !closes_group(sub, tag) {
                    return false;
                }
            },
            Entry::Scalar(_) => {},
        }
        k += 1;
    }
    true
}

/// Says whether the tag of every entry of `entries` closes the sub-records
/// of the group `inner`.
pub fn closed_by_siblings(entries: &Vec<Entry>, inner: &Vec<Entry>) -> (r: bool)
    ensures
        r == siblings_free(entries@, inner@),
{
    let mut k: usize = 0;
    while k < entries.len()
        invariant
            k <= entries.len(),
            forall|i: int| 0 <= i < k ==> tail_free(inner@, entry_tag(#[trigger] entries@[i])),
        decreases entries.len() - k,
    {
        if !closes_group(inner, tag_of(&entries[k])) {
            return false;
        }
        k += 1;
    }
    true
}

/// Says whether no two entries carry the same tag.
pub fn has_distinct_tags(entries: &Vec<Entry>) -> (r: bool)
    ensures
        r == distinct_tags(entries@),
{
    let mut j: usize = 0;
    while j < entries.len()
        invariant
            j <= entries.len(),
            forall|a: int, b: int|
                0 <= a < b < j ==> entry_tag(#[trigger] entries@[a]) != entry_tag(
                    #[trigger] entries@[b],
                ),
        decreases entries.len() - j,
    {
        let tag = tag_of(&entries[j]);
        let mut i: usize = 0;
        while i < j
            invariant
                i <= j < entries.len(),
                tag == entry_tag(entries@[j as int]),
                forall|a: int| 0 <= a < i ==> entry_tag(#[trigger] entries@[a]) != tag,
            decreases j - i,
        {
            if tag_of(&entries[i]) == tag {
                return false;
            }
            i += 1;
        }
        j += 1;
    }
    true
}

/// Says whether the sub-records of a group can be told apart on the wire.
pub fn group_is_ok(entries: &Vec<Entry>) -> (r: bool)
    ensures
        r == group_ok(entries@),
    decreases entries,
{
    if entries.len() == 0 {
        return false;
    }
    match &entries[0] {
        Entry::Group(_, _) => {
            return false;
        },
        Entry::Scalar(_) => {},
    }
    if !has_distinct_tags(entries) {
        return false;
    }
    let mut k: usize = 0;
    while k < entries.len()
        invariant
            k <= entries.len(),
            entries@.len() > 0,
            entries@[0] is Scalar,
            distinct_tags(entries@),
            forall|j: int|
                0 <= j < k && (#[trigger] entries@[j]) is Group ==> group_ok(
                    entries@[j]->Group_1@,
                ) && siblings_free(entries@, entries@[j]->Group_1@),
        decreases entries.len() - k,
    {
        match &entries[k] {
            Entry::Group(_, sub) => {
                if !group_is_ok(sub) || !closed_by_siblings(entries, sub) {
                    return false;
                }
            },
            Entry::Scalar(_) => {},
        }
        k += 1;
    }
    true
}

/// Says whether the entries of a schema can be told apart on the wire.
pub fn entries_are_ok(entries: &Vec<Entry>) -> (r: bool)
    ensures
        r == entries_ok(entries@),
{
    if !has_distinct_tags(entries) {
        return false;
    }
    let mut k: usize = 0;
    while k < entries.len()
        invariant
            k <= entries.len(),
            distinct_tags(entries@),
            forall|i: int| 0 <= i < k ==> entry_tag(#[trigger] entries@[i]) != CHECKSUM_ID,
            forall|j: int|
                0 <= j < k && (#[trigger] entries@[j]) is Group ==> group_ok(
                    entries@[j]->Group_1@,
                ) && siblings_free(entries@, entries@[j]->Group_1@) && tail_free(
                    entries@[j]->Group_1@,
                    CHECKSUM_ID,
                ),
        decreases entries.len() - k,
    {
        if tag_of(&entries[k]) == CHECKSUM_ID {
            return false;
        }
        match &entries[k] {
            Entry::Group(_, sub) => {
                if !group_is_ok(sub) || !closed_by_siblings(entries, sub) || !closes_group(
                    sub,
                    CHECKSUM_ID,
                ) {
                    return false;
                }
            },
            Entry::Scalar(_) => {},
        }
        k += 1;
    }
    true
}

/// Says whether a schema can be read back: whether every message that fits
/// it decodes to itself after it was encoded.
pub fn schema_is_ok(schema: &Schema) -> (r: bool)
    ensures
        r == schema_ok(*schema),
{
    text_is_ok(schema.msg_type.as_slice()) && entries_are_ok(&schema.entries)
}

/// Says whether the tokens of an enumerated code can be told apart on the
/// wire.
pub fn tokens_are_ok(tokens: &Vec<Vec<u8>>) -> (r: bool)
    ensures
        r == tokens_ok(tokens@),
{
    let mut j: usize = 0;
    while j < tokens.len()
        invariant
            j <= tokens.len(),
            forall|a: int, b: int|
                0 <= a < b < j ==> (#[trigger] tokens@[a])@ != (#[trigger] tokens@[b])@,
            forall|a: int| 0 <= a < j ==> text_ok((#[trigger] tokens@[a])@),
        decreases tokens.len() - j,
    {
        if !text_is_ok(tokens[j].as_slice()) {
            return false;
        }
        let mut i: usize = 0;
        while i < j
            invariant
                i <= j < tokens.len(),
                forall|a: int| 0 <= a < i ==> (#[trigger] tokens@[a])@ != tokens@[j as int]@,
            decreases j - i,
        {
            if bytes_eq(tokens[i].as_slice(), tokens[j].as_slice()) {
                return false;
            }
            i += 1;
        }
        j += 1;
    }
    true
}

/// Says whether `v` is a value of kind `kind` that can be written and read
/// back.
pub fn value_is_ok(kind: &ValueKind, v: &Value) -> (r: bool)
    ensures
        r == value_ok(*kind, v@),
{
    match (kind, v) {
        (ValueKind::UInt, Value::UInt(_)) => true,
        (ValueKind::Int, Value::Int(_)) => true,
        (ValueKind::Char, Value::Char(c)) => *c < 128 && *c != DELIMITER,
        (ValueKind::Text, Value::Text(t)) => is_utf8(t.as_slice()) && text_is_ok(t.as_slice()),
        (ValueKind::Decimal, Value::Decimal(t)) => text_is_ok(t.as_slice()),
        (ValueKind::Timestamp, Value::Timestamp(t)) => {
            let mut text: Vec<u8> = Vec::new();
            if !render_value(kind, v, &mut text) {
                return false;
            }
            assert(text@ =~= crate::value::text_of_timestamp(t.secs, t.nanos)->Some_0);
            if !text_is_ok(text.as_slice()) {
                return false;
            }
            match Timestamp::parse(text.as_slice()) {
                Ok(back) => back == *t,
                Err(_) => false,
            }
        },
        (ValueKind::Code(tokens), Value::Code(i)) => *i < tokens.len() && tokens_are_ok(tokens),
        _ => false,
    }
}

/// Says whether `slot` holds what `entry` can write and read back.
pub fn slot_is_ok(entry: &Entry, slot: &Slot) -> (r: bool)
    ensures
        r == slot_ok(*entry, slot@),
    decreases slot, 0nat,
{
    match (entry, slot) {
        (Entry::Scalar(f), Slot::Absent) => !f.required,
        (Entry::Scalar(f), Slot::Scalar(v)) => value_is_ok(&f.kind, v),
        (Entry::Group(_, _), Slot::Absent) => true,
        (Entry::Group(_, sub), Slot::Group(rows)) => {
            proof {
                lemma_group_view(*rows);
            }
            rows_are_ok(sub, rows)
        },
        (Entry::Scalar(_), Slot::Group(rows)) => {
            proof {
                lemma_group_view(*rows);
            }
            false
        },
        (Entry::Group(_, _), Slot::Scalar(_)) => false,
    }
}

/// Says whether every sub-record of a group can be written and read back.
pub fn rows_are_ok(entries: &Vec<Entry>, rows: &Vec<Vec<Slot>>) -> (r: bool)
    ensures
        r == (forall|i: int|
            0 <= i < rows_view(*rows).len() ==> row_ok(entries@, #[trigger] rows_view(*rows)[i])),
        rows_view(*rows).len() <= u64::MAX,
    decreases rows, 0nat,
{
    let ghost rv = rows_view(*rows);
    let mut k: usize = 0;
    while k < rows.len()
        invariant
            k <= rows.len(),
            rv == rows_view(*rows),
            forall|i: int| 0 <= i < k ==> row_ok(entries@, #[trigger] rv[i]),
        decreases rows.len() - k,
    {
        assert(rv[k as int] == slots_view(rows@[k as int]));
        if !row_is_ok(entries, &rows[k]) {
            assert(!row_ok(entries@, rv[k as int]));
            return false;
        }
        k += 1;
    }
    true
}

/// Says whether `row` is a sub-record of the group that can be written and
/// read back.
pub fn row_is_ok(entries: &Vec<Entry>, row: &Vec<Slot>) -> (r: bool)
    ensures
        r == row_ok(entries@, slots_view(*row)),
    decreases row, 1nat,
{
    if row.len() != entries.len() || row.len() == 0 {
        return false;
    }
    let opens = match &row[0] {
        Slot::Scalar(_) => true,
        Slot::Absent => false,
        Slot::Group(rows) => {
            proof {
                lemma_group_view(*rows);
            }
            false
        },
    };
    assert(slots_view(*row)[0] == row@[0]@);
    if !opens {
        return false;
    }
    let ghost sv = slots_view(*row);
    let mut k: usize = 0;
    while k < row.len()
        invariant
            k <= row.len(),
            row@.len() == entries@.len(),
            row@.len() > 0,
            sv[0] is Scalar,
            sv == slots_view(*row),
            forall|j: int| 0 <= j < k ==> slot_ok(entries@[j], #[trigger] sv[j]),
        decreases row.len() - k,
    {
        assert(sv[k as int] == row@[k as int]@);
        if !slot_is_ok(&entries[k], &row[k]) {
            assert(!slot_ok(entries@[k as int], sv[k as int]));
            return false;
        }
        k += 1;
    }
    true
}

/// Says whether a message holds, slot by slot, what its schema can write and
/// read back.
pub fn record_fits(schema: &Schema, record: &Record) -> (r: bool)
    ensures
        r == slots_ok(schema.entries@, record@),
{
    let entries = &schema.entries;
    let slots = &record.slots;
    if slots.len() != entries.len() {
        return false;
    }
    let ghost sv = slots_view(*slots);
    let mut k: usize = 0;
    while k < slots.len()
        invariant
            k <= slots.len(),
            entries == &schema.entries,
            sv == record@,
            slots@.len() == entries@.len(),
            sv == slots_view(*slots),
            forall|j: int| 0 <= j < k ==> slot_ok(entries@[j], #[trigger] sv[j]),
        decreases slots.len() - k,
    {
        assert(sv[k as int] == slots@[k as int]@);
        if !slot_is_ok(&entries[k], &slots[k]) {
            assert(!slot_ok(entries@[k as int], sv[k as int]));
            return false;
        }
        k += 1;
    }
    true
}

/// Renders a whole message after checking the schema and the message, so
/// that what comes out decodes to the message again. None where the schema
/// cannot be read back or the message does not fit it.
pub fn serialize_checked(schema: &Schema, record: &Record) -> (r: Option<Vec<u8>>)
    ensures
        match r {
            Some(bytes) => encode_spec(*schema, record@) == Some(bytes@) && decode_spec(
                *schema,
                bytes@,
            ) == Ok::<Seq<SlotView>, ParseError>(record@),
            None => !schema_ok(*schema) || !slots_ok(schema.entries@, record@),
        },
{
    if !schema_is_ok(schema) || !record_fits(schema, record) {
        return None;
    }
    match encode_body(schema, record) {
        Some(body) => {
            proof {
                assert(body@.len() == body.len());
                lemma_round_trip(*schema, *record);
            }
            Some(frame_body(body.as_slice()))
        },
        None => {
            proof {
                lemma_round_trip(*schema, *record);
            }
            None
        },
    }
}

} // verus!
