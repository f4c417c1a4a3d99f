//! What holds of every decode: checksum, duplicate and missing-field
//! violations.

use vstd::prelude::*;
use crate::checksum::{checksum_add, checksum_spec, lemma_checksum_update};
use crate::decode::{
    decode_body_spec, read_entry, rest_after, scan_group, scan_message, scan_row, slot_absent,
    EntryRead,
};
use crate::encode::field_text;
use crate::error::ParseError;
use crate::field::{field_spec, FieldView, CHECKSUM_ID};
use crate::message::MessageView;
use crate::field::DELIMITER;
use crate::numbers::{byte_spec, decimal_text, unsigned_spec};
use crate::roundtrip::{
    entries_ok, lemma_field_text_read_back, lemma_find_entry_own, lemma_message_advance, text_ok,
};
use crate::schema::{empty_slots, entry_tag, find_entry, slots_missing, Entry, Schema, SlotView};
use crate::session::{validation_failure, CompIds, Mismatch};
use crate::value::parse_value_spec;

verus! {

/// Two different running sums stay different when the same checksum is
/// added to both.
pub proof fn lemma_sums_stay_apart(a: int, b: int, x: int)
    requires
        0 <= a < 256,
        0 <= b < 256,
        a != b,
    ensures
        checksum_add(a, x) != checksum_add(b, x),
        0 <= checksum_add(a, x) < 256,
        0 <= checksum_add(b, x) < 256,
{
}

/// Reading an entry does not depend on the running sum but for the sum it
/// hands on, and two different sums stay different.
pub proof fn lemma_read_entry_sum(
    entry: Entry,
    absent: bool,
    input: Seq<u8>,
    f: FieldView,
    sum: int,
    altered: int,
)
    requires
        0 <= sum < 256,
        0 <= altered < 256,
        sum != altered,
        read_entry(entry, absent, input, f, sum) is Ok,
    ensures
        read_entry(entry, absent, input, f, altered) is Ok,
        read_entry(entry, absent, input, f, altered)->Ok_0.slot == read_entry(
            entry,
            absent,
            input,
            f,
            sum,
        )->Ok_0.slot,
        read_entry(entry, absent, input, f, altered)->Ok_0.rest == read_entry(
            entry,
            absent,
            input,
            f,
            sum,
        )->Ok_0.rest,
        read_entry(entry, absent, input, f, altered)->Ok_0.sum != read_entry(
            entry,
            absent,
            input,
            f,
            sum,
        )->Ok_0.sum,
        0 <= read_entry(entry, absent, input, f, sum)->Ok_0.sum < 256,
        0 <= read_entry(entry, absent, input, f, altered)->Ok_0.sum < 256,
{
    reveal(read_entry);
    reveal(scan_group);
    reveal(scan_row);
    lemma_sums_stay_apart(sum, altered, f.checksum);
    match entry {
        Entry::Scalar(_) => {},
        Entry::Group(_, sub) => {
            let count = unsigned_spec(f.value)->Some_0;
            let rest = rest_after(input, f)->Some_0;
            let g = scan_group(sub@, rest, count as nat, Seq::empty(), 0)->Ok_0;
            lemma_sums_stay_apart(
                checksum_add(sum, f.checksum),
                checksum_add(altered, f.checksum),
                g.sum,
            );
        },
    }
}

/// True when the two messages have values in the same slots.
pub open spec fn same_absence(a: Seq<SlotView>, b: Seq<SlotView>) -> bool {
    &&& a.len() == b.len()
    &&& forall|j: int| 0 <= j < a.len() ==> ((#[trigger] a[j]) is Absent <==> b[j] is Absent)
}

/// Checksum violation: where the schema mapper accepts a message from a
/// field boundary on with one running sum, it rejects the same bytes with a
/// checksum violation under any other running sum, whatever values the
/// filled slots hold. So whatever alters the sum of the bytes before that
/// boundary and leaves the rest as it was makes the decode fail with a
/// checksum violation.
pub proof fn lemma_altered_sum_is_rejected(
    entries: Seq<Entry>,
    input: Seq<u8>,
    sum: int,
    altered: int,
    slots: Seq<SlotView>,
    other: Seq<SlotView>,
)
    requires
        0 <= sum < 256,
        0 <= altered < 256,
        sum != altered,
        same_absence(slots, other),
        scan_message(entries, input, sum, slots) is Ok,
    ensures
        scan_message(entries, input, altered, other) == Err::<Seq<SlotView>, ParseError>(
            ParseError::ChecksumMismatch,
        ),
    decreases input.len(),
{
    reveal(read_entry);
    reveal(scan_message);
    let f = field_spec(input)->Ok_0;
    match find_entry(entries, f.id, 0) {
        Some(i) => {
            let absent = slot_absent(slots, i);
            assert(absent == slot_absent(other, i));
            lemma_read_entry_sum(entries[i], absent, input, f, sum, altered);
            let r = read_entry(entries[i], absent, input, f, sum)->Ok_0;
            let q = read_entry(entries[i], absent, input, f, altered)->Ok_0;
            lemma_read_entry_fills(entries[i], absent, input, f, sum);
            lemma_altered_sum_is_rejected(
                entries,
                r.rest,
                r.sum,
                q.sum,
                slots.update(i, r.slot),
                other.update(i, r.slot),
            );
        },
        None => {
            if f.id != CHECKSUM_ID {
                let rest = rest_after(input, f)->Some_0;
                lemma_sums_stay_apart(sum, altered, f.checksum);
                lemma_altered_sum_is_rejected(
                    entries,
                    rest,
                    checksum_add(sum, f.checksum),
                    checksum_add(altered, f.checksum),
                    slots,
                    other,
                );
            }
        },
    }
}

/// Reading an entry fills its slot: what is read is never absent, and a slot
/// that is filled is never read again.
pub proof fn lemma_read_entry_fills(
    entry: Entry,
    absent: bool,
    input: Seq<u8>,
    f: FieldView,
    sum: int,
)
    requires
        read_entry(entry, absent, input, f, sum) is Ok,
    ensures
        absent,
        !(read_entry(entry, absent, input, f, sum)->Ok_0.slot is Absent),
{
    reveal(read_entry);
    reveal(scan_group);
    reveal(scan_row);
}

/// Checksum violation in the body: where the schema mapper accepts a
/// message that starts with a field that the schema passes over, it rejects
/// with a checksum violation the message in which one byte of that field's
/// value is replaced by another byte that is no delimiter.
pub proof fn lemma_altered_value_is_rejected(
    entries: Seq<Entry>,
    tag: u64,
    value: Seq<u8>,
    i: int,
    b: u8,
    rest: Seq<u8>,
    sum: int,
    slots: Seq<SlotView>,
)
    requires
        text_ok(value),
        0 <= i < value.len(),
        b != value[i],
        b != DELIMITER,
        find_entry(entries, tag, 0) is None,
        tag != CHECKSUM_ID,
        0 <= sum < 256,
        scan_message(entries, field_text(tag, value) + rest, sum, slots) is Ok,
    ensures
        scan_message(entries, field_text(tag, value.update(i, b)) + rest, sum, slots) == Err::<
            Seq<SlotView>,
            ParseError,
        >(ParseError::ChecksumMismatch),
{
    reveal(read_entry);
    reveal(scan_message);
    let altered = value.update(i, b);
    lemma_field_text_read_back(tag, value, rest);
    lemma_field_text_read_back(tag, altered, rest);
    let own = field_text(tag, value);
    let other = field_text(tag, altered);
    let at = decimal_text(tag as nat).len() + 1 + i;
    assert(other =~= own.update(at, b));
    assert(own[at] == value[i]);
    lemma_checksum_update(own, at, b);
    lemma_sums_stay_apart(checksum_spec(own), checksum_spec(other), sum);
    lemma_altered_sum_is_rejected(
        entries,
        rest,
        checksum_add(sum, checksum_spec(own)),
        checksum_add(sum, checksum_spec(other)),
        slots,
        slots,
    );
}

/// Checksum violation in a value: where the schema mapper accepts a message
/// that starts with a scalar of the schema, it rejects with a checksum
/// violation the message in which one byte of that scalar's value is
/// replaced by another byte that is no delimiter, as long as the value still
/// is one of its kind.
pub proof fn lemma_altered_scalar_is_rejected(
    entries: Seq<Entry>,
    k: int,
    value: Seq<u8>,
    i: int,
    b: u8,
    rest: Seq<u8>,
    sum: int,
    slots: Seq<SlotView>,
)
    requires
        entries_ok(entries),
        0 <= k < entries.len(),
        entries[k] is Scalar,
        text_ok(value),
        0 <= i < value.len(),
        b != value[i],
        b != DELIMITER,
        parse_value_spec(entries[k]->Scalar_0.kind, value.update(i, b)) is Some,
        0 <= sum < 256,
        scan_message(entries, field_text(entries[k]->Scalar_0.tag, value) + rest, sum, slots)
            is Ok,
    ensures
        scan_message(
            entries,
            field_text(entries[k]->Scalar_0.tag, value.update(i, b)) + rest,
            sum,
            slots,
        ) == Err::<Seq<SlotView>, ParseError>(ParseError::ChecksumMismatch),
{
    reveal(read_entry);
    reveal(scan_message);
    let f = entries[k]->Scalar_0;
    let altered = value.update(i, b);
    lemma_field_text_read_back(f.tag, value, rest);
    lemma_field_text_read_back(f.tag, altered, rest);
    assert(entry_tag(entries[k]) == f.tag);
    lemma_find_entry_own(entries, k, 0);
    let own = field_text(f.tag, value);
    let other = field_text(f.tag, altered);
    let at = decimal_text(f.tag as nat).len() + 1 + i;
    assert(other =~= own.update(at, b));
    assert(own[at] == value[i]);
    lemma_checksum_update(own, at, b);
    lemma_sums_stay_apart(checksum_spec(own), checksum_spec(other), sum);
    let v = parse_value_spec(f.kind, value)->Some_0;
    let w = parse_value_spec(f.kind, altered)->Some_0;
    assert(rest_after(own + rest, field_spec(own + rest)->Ok_0) == Some(rest));
    assert(rest_after(other + rest, field_spec(other + rest)->Ok_0) == Some(rest));
    lemma_altered_sum_is_rejected(
        entries,
        rest,
        checksum_add(sum, checksum_spec(own)),
        checksum_add(sum, checksum_spec(other)),
        slots.update(k, SlotView::Scalar(v)),
        slots.update(k, SlotView::Scalar(w)),
    );
}

/// Checksum violation for a header: of two messages with the same body and
/// headers that sum differently, at most one decodes; the other fails with a
/// checksum violation.
pub proof fn lemma_altered_header_is_rejected(schema: Schema, m: MessageView, altered: MessageView)
    requires
        m.body == altered.body,
        0 <= m.header_checksum < 256,
        0 <= altered.header_checksum < 256,
        m.header_checksum != altered.header_checksum,
        decode_body_spec(schema, m) is Ok,
    ensures
        decode_body_spec(schema, altered) == Err::<Seq<SlotView>, ParseError>(
            ParseError::ChecksumMismatch,
        ),
{
    lemma_altered_sum_is_rejected(
        schema.entries@,
        m.body,
        m.header_checksum,
        altered.header_checksum,
        empty_slots(schema.entries@.len() as nat),
        empty_slots(schema.entries@.len() as nat),
    );
}

/// Duplicate field: where the schema mapper stands at a field whose tag is
/// that of a scalar of the schema and the scalar's slot is filled, the
/// decode fails with a duplicate-field violation.
pub proof fn lemma_filled_slot_is_duplicate(
    entries: Seq<Entry>,
    input: Seq<u8>,
    sum: int,
    slots: Seq<SlotView>,
)
    requires
        field_spec(input) is Ok,
        find_entry(entries, field_spec(input)->Ok_0.id, 0) is Some,
        entries[find_entry(entries, field_spec(input)->Ok_0.id, 0)->Some_0] is Scalar,
        find_entry(entries, field_spec(input)->Ok_0.id, 0)->Some_0 < slots.len(),
        !(slots[find_entry(entries, field_spec(input)->Ok_0.id, 0)->Some_0] is Absent),
    ensures
        scan_message(entries, input, sum, slots) == Err::<Seq<SlotView>, ParseError>(
            ParseError::DuplicateField,
        ),
{
    reveal(read_entry);
    reveal(scan_message);
}

/// Duplicate field: a scalar of the schema that occurs twice in a row, the
/// first time with a value of its kind, makes the decode fail with a
/// duplicate-field violation, whatever the second value is and whatever
/// follows.
pub proof fn lemma_twice_is_duplicate(
    entries: Seq<Entry>,
    k: int,
    first: Seq<u8>,
    second: Seq<u8>,
    rest: Seq<u8>,
    sum: int,
    slots: Seq<SlotView>,
)
    requires
        entries_ok(entries),
        0 <= k < entries.len(),
        entries[k] is Scalar,
        slots.len() == entries.len(),
        slots[k] is Absent,
        text_ok(first),
        text_ok(second),
        parse_value_spec(entries[k]->Scalar_0.kind, first) is Some,
    ensures
        scan_message(
            entries,
            field_text(entries[k]->Scalar_0.tag, first) + (field_text(
                entries[k]->Scalar_0.tag,
                second,
            ) + rest),
            sum,
            slots,
        ) == Err::<Seq<SlotView>, ParseError>(ParseError::DuplicateField),
{
    reveal(read_entry);
    let tag = entries[k]->Scalar_0.tag;
    let v = parse_value_spec(entries[k]->Scalar_0.kind, first)->Some_0;
    let behind = field_text(tag, second) + rest;
    let input = field_text(tag, first) + behind;
    lemma_field_text_read_back(tag, first, behind);
    lemma_field_text_read_back(tag, second, rest);
    assert(entry_tag(entries[k]) == tag);
    lemma_find_entry_own(entries, k, 0);
    let f = field_spec(input)->Ok_0;
    let read = EntryRead {
        slot: SlotView::Scalar(v),
        rest: behind,
        sum: checksum_add(sum, f.checksum),
    };
    assert(rest_after(input, f) == Some(behind));
    lemma_message_advance(entries, k, input, read, sum, slots);
    lemma_filled_slot_is_duplicate(entries, behind, read.sum, slots.update(k, read.slot));
}

/// Missing mandatory field: where the schema mapper stands at a checksum
/// field that agrees with the running sum and a required scalar has no
/// value, the decode fails with a missing-mandatory violation.
pub proof fn lemma_missing_at_checksum(
    entries: Seq<Entry>,
    input: Seq<u8>,
    sum: int,
    slots: Seq<SlotView>,
)
    requires
        field_spec(input) is Ok,
        field_spec(input)->Ok_0.id == CHECKSUM_ID,
        find_entry(entries, CHECKSUM_ID, 0) is None,
        byte_spec(field_spec(input)->Ok_0.value) == Some(sum as u8),
        0 <= sum < 256,
        slots_missing(entries, slots),
    ensures
        scan_message(entries, input, sum, slots) == Err::<Seq<SlotView>, ParseError>(
            ParseError::MissingField,
        ),
{
    reveal(read_entry);
    reveal(scan_message);
}

/// Missing mandatory field: a message that the schema mapper accepts has a
/// value for every required scalar of the schema.
pub proof fn lemma_decoded_is_complete(
    entries: Seq<Entry>,
    input: Seq<u8>,
    sum: int,
    slots: Seq<SlotView>,
)
    requires
        scan_message(entries, input, sum, slots) is Ok,
    ensures
        !slots_missing(entries, scan_message(entries, input, sum, slots)->Ok_0),
    decreases input.len(),
{
    reveal(read_entry);
    reveal(scan_message);
    let f = field_spec(input)->Ok_0;
    match find_entry(entries, f.id, 0) {
        Some(i) => {
            let r = read_entry(entries[i], slot_absent(slots, i), input, f, sum)->Ok_0;
            lemma_decoded_is_complete(entries, r.rest, r.sum, slots.update(i, r.slot));
        },
        None => {
            if f.id != CHECKSUM_ID {
                let rest = rest_after(input, f)->Some_0;
                lemma_decoded_is_complete(entries, rest, checksum_add(sum, f.checksum), slots);
            }
        },
    }
}

/// Session start: a fresh session expects sequence number 1, so a first
/// header that carries any other number is out of order, whatever its
/// identities.
pub proof fn lemma_first_sequence_is_one(ids: CompIds, seq: u64, sender: Seq<u8>, target: Seq<u8>)
    requires
        seq != 1,
    ensures
        validation_failure(1, ids, seq, sender, target) == Some(Mismatch::Sequence),
{
}

} // verus!
