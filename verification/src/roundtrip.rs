//! What was written is read back: fields, values, groups, whole messages.

use vstd::prelude::*;
use vstd::arithmetic::div_mod::{lemma_add_mod_noop, lemma_add_mod_noop_right};
use vstd::utf8::valid_utf8;
use crate::checksum::{byte_sum, checksum_add, checksum_spec, lemma_byte_sum_concat};
use crate::decode::{
    decode_spec, read_entry, rest_after, scan_group, scan_message, scan_row, slot_absent,
    EntryRead, GroupScan,
};
use crate::encode::{
    body_spec, encode_row, encode_rows_from, encode_slot, encode_slots_from, encode_spec,
    field_text, frame_spec, header_text, version_text,
};
use crate::error::ParseError;
use crate::field::{
    decimal_value, digits_end, field_spec, find_byte, is_digit, lemma_digits_end_step,
    lemma_field_bounds, lemma_find_byte_step, FieldView, CHECKSUM_ID, DELIMITER, SEPARATOR,
};
use crate::message::{
    header_field_spec, message_spec, MessageView, LENGTH_ID, MSG_TYPE_ID, VERSION_ID,
};
use crate::numbers::{
    all_digits, checksum_text, decimal_text, lemma_checksum_text_round_trip, lemma_decimal_text,
    lemma_signed_round_trip, lemma_unsigned_round_trip, signed_text,
};
use crate::schema::{
    empty_slots, entry_tag, find_entry, slots_missing, Entry, Record, Schema, SlotView,
};
use crate::value::{
    code_index, parse_value_spec, render_value_spec, text_of_timestamp, timestamp_spec,
    ValueKind, ValueView,
};

verus! {

/// True when `t` holds no delimiter, so that it can stand as a value.
pub open spec fn text_ok(t: Seq<u8>) -> bool {
    forall|i: int| 0 <= i < t.len() ==> #[trigger] t[i] != DELIMITER
}

/// True when the tokens of an enumerated code can be told apart on the
/// wire: no two are equal and none holds a delimiter.
pub open spec fn tokens_ok(tokens: Seq<Vec<u8>>) -> bool {
    &&& forall|i: int, j: int|
        0 <= i < j < tokens.len() ==> (#[trigger] tokens[i])@ != (#[trigger] tokens[j])@
    &&& forall|i: int| 0 <= i < tokens.len() ==> text_ok((#[trigger] tokens[i])@)
}

/// True when `v` is a value of kind `kind` that can be written and read
/// back: a character is ASCII and no delimiter, a text is UTF-8 without a
/// delimiter, a code names one of its tokens, a time is one that chrono
/// writes and reads back as it is.
pub open spec fn value_ok(kind: ValueKind, v: ValueView) -> bool {
    match (kind, v) {
        (ValueKind::UInt, ValueView::UInt(_)) => true,
        (ValueKind::Int, ValueView::Int(_)) => true,
        (ValueKind::Char, ValueView::Char(c)) => c < 128 && c != DELIMITER,
        (ValueKind::Text, ValueView::Text(t)) => valid_utf8(t) && text_ok(t),
        (ValueKind::Decimal, ValueView::Decimal(t)) => text_ok(t),
        (ValueKind::Timestamp, ValueView::Timestamp(t)) => match text_of_timestamp(
            t.secs,
            t.nanos,
        ) {
            Some(text) => text_ok(text) && timestamp_spec(text) == Some(t),
            None => false,
        },
        (ValueKind::Code(tokens), ValueView::Code(i)) => i < tokens@.len() && tokens_ok(tokens@),
        _ => false,
    }
}

/// The tokenizer reads back what was written: for a tag written in digits,
/// a value without a delimiter, and any bytes behind the delimiter, it gives
/// that tag, that value, and the length and checksum of the field alone.
pub proof fn lemma_field_read_back(digits: Seq<u8>, value: Seq<u8>, rest: Seq<u8>)
    requires
        digits.len() > 0,
        all_digits(digits),
        decimal_value(digits) <= u64::MAX,
        text_ok(value),
    ensures
        field_spec(digits + seq![SEPARATOR] + value + seq![DELIMITER] + rest) == Ok::<
            FieldView,
            ParseError,
        >(
            FieldView {
                id: decimal_value(digits) as u64,
                value,
                length: (digits.len() + value.len() + 2) as nat,
                checksum: checksum_spec(digits + seq![SEPARATOR] + value + seq![DELIMITER]),
            },
        ),
{
    reveal(field_spec);
    let own = digits + seq![SEPARATOR] + value + seq![DELIMITER];
    let s = own + rest;
    let e = digits.len() as int;
    let d = e + 1 + value.len();
    assert forall|j: int| 0 <= j < e implies is_digit(#[trigger] s[j]) by {
        assert(s[j] == digits[j]);
    }
    lemma_digits_end_step(s, 0, e);
    assert(s[e] == SEPARATOR);
    assert(digits_end(s, e) == e);
    assert(s.subrange(0, e) =~= digits);
    assert forall|j: int| e + 1 <= j < d implies #[trigger] s[j] != DELIMITER by {
        assert(s[j] == value[j - e - 1]);
    }
    lemma_find_byte_step(s, e + 1, d, DELIMITER);
    assert(s[d] == DELIMITER);
    assert(find_byte(s, d, DELIMITER) == d);
    assert(s.subrange(e + 1, d) =~= value);
    assert(s.subrange(0, d + 1) =~= own);
}

/// The tokenizer reads back a field as the encoder writes it, whatever
/// follows.
pub proof fn lemma_field_text_read_back(tag: u64, value: Seq<u8>, rest: Seq<u8>)
    requires
        text_ok(value),
    ensures
        field_spec(field_text(tag, value) + rest) == Ok::<FieldView, ParseError>(
            FieldView {
                id: tag,
                value,
                length: field_text(tag, value).len(),
                checksum: checksum_spec(field_text(tag, value)),
            },
        ),
        field_text(tag, value).len() >= 3,
        (field_text(tag, value) + rest).skip(field_text(tag, value).len() as int) == rest,
{
    lemma_decimal_text(tag as nat);
    lemma_field_read_back(decimal_text(tag as nat), value, rest);
    assert((field_text(tag, value) + rest).skip(field_text(tag, value).len() as int) =~= rest);
}

/// Among distinct tokens, the search for a token finds its own place.
pub proof fn lemma_code_index(tokens: Seq<Vec<u8>>, i: int, from: int)
    requires
        tokens_ok(tokens),
        0 <= from <= i < tokens.len(),
    ensures
        code_index(tokens, tokens[i]@, from) == Some(i),
    decreases i - from,
{
    if from < i {
        lemma_code_index(tokens, i, from + 1);
    }
}

/// A value that can be written reads back as itself, and its text holds no
/// delimiter.
pub proof fn lemma_value_round_trip(kind: ValueKind, v: ValueView)
    requires
        value_ok(kind, v),
    ensures
        render_value_spec(kind, v) is Some,
        text_ok(render_value_spec(kind, v)->Some_0),
        parse_value_spec(kind, render_value_spec(kind, v)->Some_0) == Some(v),
{
    match (kind, v) {
        (ValueKind::UInt, ValueView::UInt(n)) => {
            lemma_unsigned_round_trip(n);
            lemma_decimal_text(n as nat);
        },
        (ValueKind::Int, ValueView::Int(n)) => {
            lemma_signed_round_trip(n);
            if n < 0 {
                lemma_decimal_text((-(n as int)) as nat);
                let t = signed_text(n as int);
                let m = decimal_text((-(n as int)) as nat);
                assert forall|i: int| 0 <= i < t.len() implies #[trigger] t[i] != DELIMITER by {
                    if i > 0 {
                        assert(t[i] == m[i - 1]);
                    }
                }
            } else {
                lemma_decimal_text(n as nat);
            }
        },
        (ValueKind::Char, ValueView::Char(c)) => {},
        (ValueKind::Text, ValueView::Text(t)) => {},
        (ValueKind::Decimal, ValueView::Decimal(t)) => {},
        (ValueKind::Timestamp, ValueView::Timestamp(t)) => {},
        (ValueKind::Code(tokens), ValueView::Code(i)) => {
            lemma_code_index(tokens@, i as int, 0);
        },
        _ => {},
    }
}

/// Where no entry at or after `from` carries `tag`, the search finds none.
pub proof fn lemma_find_entry_none(entries: Seq<Entry>, tag: u64, from: int)
    requires
        0 <= from,
        forall|j: int| from <= j < entries.len() ==> entry_tag(#[trigger] entries[j]) != tag,
    ensures
        find_entry(entries, tag, from) is None,
    decreases entries.len() - from,
{
    if from < entries.len() {
        lemma_find_entry_none(entries, tag, from + 1);
    }
}

/// Among entries with distinct tags, the search for an entry's tag finds the
/// entry.
pub proof fn lemma_find_entry_own(entries: Seq<Entry>, k: int, from: int)
    requires
        0 <= from <= k < entries.len(),
        forall|i: int, j: int|
            0 <= i < j < entries.len() ==> entry_tag(#[trigger] entries[i]) != entry_tag(
                #[trigger] entries[j],
            ),
    ensures
        find_entry(entries, entry_tag(entries[k]), from) == Some(k),
    decreases k - from,
{
    if from < k {
        lemma_find_entry_own(entries, k, from + 1);
    }
}

/// Reducing after every addition gives what reducing the parts first gives.
pub proof fn lemma_wrapping_sum(sum: int, x: int, y: int)
    ensures
        ((sum + x % 256) % 256 + y % 256) % 256 == (sum + (x + y) % 256) % 256,
{
    let step = sum + x % 256;
    assert((step % 256 + y % 256) % 256 == (step + y) % 256) by {
        lemma_add_mod_noop(step, y, 256);
    }
    assert(((sum + y) + x % 256) % 256 == (sum + y + x) % 256) by {
        lemma_add_mod_noop_right(sum + y, x, 256);
    }
    assert((sum + (x + y) % 256) % 256 == (sum + (x + y)) % 256) by {
        lemma_add_mod_noop_right(sum, x + y, 256);
    }
}

/// Adding the checksum of a first part and then that of a second is adding
/// the checksum of both together.
pub proof fn lemma_checksum_add_concat(sum: int, a: Seq<u8>, b: Seq<u8>)
    ensures
        checksum_add(checksum_add(sum, checksum_spec(a)), checksum_spec(b)) == checksum_add(
            sum,
            checksum_spec(a + b),
        ),
{
    lemma_byte_sum_concat(a, b);
    lemma_wrapping_sum(sum, byte_sum(a) as int, byte_sum(b) as int);
}

/// True when `tag` is not the tag of an entry of the group behind its
/// first, nor of an entry behind the first in any group inside it: a field
/// with this tag closes every sub-record of the group, at any depth.
pub open spec fn tail_free(entries: Seq<Entry>, tag: u64) -> bool
    decreases entries,
{
    &&& forall|j: int| 1 <= j < entries.len() ==> entry_tag(#[trigger] entries[j]) != tag
    &&& forall|j: int|
        0 <= j < entries.len() && (#[trigger] entries[j]) is Group ==> tail_free(
            entries[j]->Group_1@,
            tag,
        )
}

/// True when the tag of every entry of `entries` closes the sub-records of
/// the group `inner`.
pub open spec fn siblings_free(entries: Seq<Entry>, inner: Seq<Entry>) -> bool {
    forall|i: int| 0 <= i < entries.len() ==> tail_free(inner, entry_tag(#[trigger] entries[i]))
}

/// True when the sub-records of a group can be told apart on the wire: the
/// first entry is a scalar, no two entries carry the same tag, and every
/// group inside can be told apart in the same way and is closed by the tag
/// of every entry around it.
pub open spec fn group_ok(entries: Seq<Entry>) -> bool
    decreases entries,
{
    &&& entries.len() > 0
    &&& entries[0] is Scalar
    &&& forall|i: int, j: int|
        0 <= i < j < entries.len() ==> entry_tag(#[trigger] entries[i]) != entry_tag(
            #[trigger] entries[j],
        )
    &&& forall|j: int|
        0 <= j < entries.len() && (#[trigger] entries[j]) is Group ==> group_ok(
            entries[j]->Group_1@,
        ) && siblings_free(entries, entries[j]->Group_1@)
}

/// True when the entries of a schema can be told apart on the wire: no two
/// carry the same tag, none carries the checksum tag, and every group can be
/// told apart and is closed by the checksum tag and by the tag of every
/// entry of the schema.
pub open spec fn entries_ok(entries: Seq<Entry>) -> bool {
    &&& forall|i: int, j: int|
        0 <= i < j < entries.len() ==> entry_tag(#[trigger] entries[i]) != entry_tag(
            #[trigger] entries[j],
        )
    &&& forall|i: int| 0 <= i < entries.len() ==> entry_tag(#[trigger] entries[i]) != CHECKSUM_ID
    &&& forall|j: int|
        0 <= j < entries.len() && (#[trigger] entries[j]) is Group ==> group_ok(
            entries[j]->Group_1@,
        ) && siblings_free(entries, entries[j]->Group_1@) && tail_free(
            entries[j]->Group_1@,
            CHECKSUM_ID,
        )
}

/// True when the schema can be read back: its type code holds no delimiter
/// and its entries can be told apart.
pub open spec fn schema_ok(schema: Schema) -> bool {
    text_ok(schema.msg_type@) && entries_ok(schema.entries@)
}

/// True when `tag` is `closing` or the tag of an entry.
pub open spec fn known_tag(entries: Seq<Entry>, closing: u64, tag: u64) -> bool {
    tag == closing || exists|i: int|
        0 <= i < entries.len() && entry_tag(#[trigger] entries[i]) == tag
}

/// True when `slot` holds what `entry` can write and read back.
pub open spec fn slot_ok(entry: Entry, slot: SlotView) -> bool
    decreases slot, 0nat,
{
    match (entry, slot) {
        (Entry::Scalar(f), SlotView::Absent) => !f.required,
        (Entry::Scalar(f), SlotView::Scalar(v)) => value_ok(f.kind, v),
        (Entry::Group(_, _), SlotView::Absent) => true,
        (Entry::Group(_, sub), SlotView::Group(rows)) => rows.len() <= u64::MAX && forall|
            r: int,
        | 0 <= r < rows.len() ==> row_ok(sub@, #[trigger] rows[r]),
        _ => false,
    }
}

/// True when `row` is a sub-record that can be written and read back: one
/// slot for each entry of the group, a scalar in the first, and every slot
/// fit for its entry.
pub open spec fn row_ok(entries: Seq<Entry>, row: Seq<SlotView>) -> bool
    decreases row, 1nat,
{
    &&& row.len() == entries.len()
    &&& row.len() > 0
    &&& row[0] is Scalar
    &&& forall|j: int| 0 <= j < row.len() ==> slot_ok(entries[j], #[trigger] row[j])
}

/// True when the message holds, slot by slot, what its schema can write and
/// read back.
pub open spec fn slots_ok(entries: Seq<Entry>, slots: Seq<SlotView>) -> bool {
    &&& slots.len() == entries.len()
    &&& forall|k: int| 0 <= k < slots.len() ==> slot_ok(entries[k], #[trigger] slots[k])
}

/// The first tag of a group closes its sub-records.
pub proof fn lemma_head_closes(entries: Seq<Entry>)
    requires
        group_ok(entries),
    ensures
        tail_free(entries, entry_tag(entries[0])),
{
    assert forall|j: int| 0 <= j < entries.len() && (#[trigger] entries[j]) is Group implies tail_free(
        entries[j]->Group_1@,
        entry_tag(entries[0]),
    ) by {
        assert(siblings_free(entries, entries[j]->Group_1@));
    }
}

/// A tag that closes the sub-records of a group is found among none of the
/// entries behind the first.
pub proof fn lemma_closing_not_found(entries: Seq<Entry>, tag: u64)
    requires
        tail_free(entries, tag),
    ensures
        find_entry(entries, tag, 1) is None,
{
    lemma_find_entry_none(entries, tag, 1);
}

/// What may follow a group inside a list of entries closes the group's
/// sub-records.
pub proof fn lemma_known_closes(entries: Seq<Entry>, j: int, closing: u64, tag: u64)
    requires
        0 <= j < entries.len(),
        entries[j] is Group,
        siblings_free(entries, entries[j]->Group_1@),
        tail_free(entries[j]->Group_1@, closing),
        known_tag(entries, closing, tag),
    ensures
        tail_free(entries[j]->Group_1@, tag),
{
    if tag != closing {
        let i = choose|i: int| 0 <= i < entries.len() && entry_tag(#[trigger] entries[i]) == tag;
        assert(tail_free(entries[j]->Group_1@, entry_tag(entries[i])));
    }
}

/// A slot that can be written has a text.
pub proof fn lemma_slot_encodes(entry: Entry, slot: SlotView)
    requires
        slot_ok(entry, slot),
    ensures
        encode_slot(entry, slot) is Some,
    decreases slot, 0nat,
{
    match (entry, slot) {
        (Entry::Scalar(f), SlotView::Scalar(v)) => {
            lemma_value_round_trip(f.kind, v);
        },
        (Entry::Group(_, sub), SlotView::Group(rows)) => {
            lemma_rows_encode(sub@, rows, 0);
        },
        _ => {},
    }
}

/// Sub-records that can be written have a text from every one on.
pub proof fn lemma_rows_encode(entries: Seq<Entry>, rows: Seq<Seq<SlotView>>, k: int)
    requires
        forall|r: int| 0 <= r < rows.len() ==> row_ok(entries, #[trigger] rows[r]),
        0 <= k,
    ensures
        encode_rows_from(entries, rows, k) is Some,
    decreases rows, rows.len() - k,
{
    if k < rows.len() {
        lemma_rows_encode(entries, rows, k + 1);
        lemma_row_encodes(entries, rows[k]);
    }
}

/// A sub-record that can be written has a text.
pub proof fn lemma_row_encodes(entries: Seq<Entry>, row: Seq<SlotView>)
    requires
        row_ok(entries, row),
    ensures
        encode_row(entries, row) is Some,
        encode_row(entries, row) == encode_slots_from(entries, row, 0),
        entries[0] is Scalar,
    decreases row, row.len() + 1,
{
    assert(slot_ok(entries[0], row[0]));
    lemma_slots_encode(entries, row, 0);
}

/// Slots that can be written have a text from every one on.
pub proof fn lemma_slots_encode(entries: Seq<Entry>, slots: Seq<SlotView>, k: int)
    requires
        slots.len() == entries.len(),
        forall|j: int| 0 <= j < slots.len() ==> slot_ok(entries[j], #[trigger] slots[j]),
        0 <= k,
    ensures
        encode_slots_from(entries, slots, k) is Some,
    decreases slots, slots.len() - k,
{
    if k < slots.len() {
        lemma_slots_encode(entries, slots, k + 1);
        lemma_slot_encodes(entries[k], slots[k]);
    }
}

/// The decimal text of a number holds no delimiter.
pub proof fn lemma_count_text(n: nat)
    ensures
        text_ok(decimal_text(n)),
{
    lemma_decimal_text(n);
    let count = decimal_text(n);
    assert forall|i: int| 0 <= i < count.len() implies #[trigger] count[i] != DELIMITER by {
        assert(is_digit(count[i]));
    }
}

/// The text of a slot that holds something starts with a field that carries
/// the tag of its entry, whatever follows.
pub proof fn lemma_slot_opens(entry: Entry, slot: SlotView, behind: Seq<u8>)
    requires
        slot_ok(entry, slot),
        !(slot is Absent),
    ensures
        encode_slot(entry, slot) is Some,
        field_spec(encode_slot(entry, slot)->Some_0 + behind) is Ok,
        field_spec(encode_slot(entry, slot)->Some_0 + behind)->Ok_0.id == entry_tag(entry),
{
    lemma_slot_encodes(entry, slot);
    let own = encode_slot(entry, slot)->Some_0;
    match (entry, slot) {
        (Entry::Scalar(f), SlotView::Scalar(v)) => {
            lemma_value_round_trip(f.kind, v);
            lemma_field_text_read_back(f.tag, render_value_spec(f.kind, v)->Some_0, behind);
        },
        (Entry::Group(count_tag, sub), SlotView::Group(rows)) => {
            lemma_rows_encode(sub@, rows, 0);
            lemma_count_text(rows.len());
            let count = decimal_text(rows.len());
            let body = encode_rows_from(sub@, rows, 0)->Some_0;
            assert(own + behind =~= field_text(count_tag, count) + (body + behind));
            lemma_field_text_read_back(count_tag, count, body + behind);
        },
        _ => {},
    }
}

/// What is written from slot `k` on, followed by a field with the tag
/// `closing`, starts with a field that carries `closing` or the tag of an
/// entry.
pub proof fn lemma_slots_start(
    entries: Seq<Entry>,
    slots: Seq<SlotView>,
    k: int,
    after: Seq<u8>,
    closing: u64,
)
    requires
        slots.len() == entries.len(),
        forall|j: int| 0 <= j < slots.len() ==> slot_ok(entries[j], #[trigger] slots[j]),
        0 <= k <= entries.len(),
        field_spec(after) is Ok,
        field_spec(after)->Ok_0.id == closing,
    ensures
        encode_slots_from(entries, slots, k) is Some,
        field_spec(encode_slots_from(entries, slots, k)->Some_0 + after) is Ok,
        known_tag(
            entries,
            closing,
            field_spec(encode_slots_from(entries, slots, k)->Some_0 + after)->Ok_0.id,
        ),
    decreases entries.len() - k,
{
    lemma_slots_encode(entries, slots, k);
    let text = encode_slots_from(entries, slots, k)->Some_0;
    if k >= entries.len() {
        assert(text + after =~= after);
    } else {
        lemma_slots_start(entries, slots, k + 1, after, closing);
        lemma_slot_encodes(entries[k], slots[k]);
        let more = encode_slots_from(entries, slots, k + 1)->Some_0;
        let own = encode_slot(entries[k], slots[k])->Some_0;
        assert(text == own + more);
        assert(text + after =~= own + (more + after));
        if slots[k] is Absent {
            assert(own =~= Seq::<u8>::empty());
            assert(text + after =~= more + after);
        } else {
            lemma_slot_opens(entries[k], slots[k], more + after);
        }
    }
}

/// Inside a sub-record, the group parser moves on behind an entry that was
/// read.
pub proof fn lemma_row_advance(
    entries: Seq<Entry>,
    k: int,
    input: Seq<u8>,
    read: EntryRead,
    remaining: nat,
    rows: Seq<Seq<SlotView>>,
    sum: int,
    cur: Seq<SlotView>,
)
    requires
        field_spec(input) is Ok,
        find_entry(entries, field_spec(input)->Ok_0.id, 1) == Some(k),
        read_entry(entries[k], slot_absent(cur, k), input, field_spec(input)->Ok_0, sum) == Ok::<
            EntryRead,
            ParseError,
        >(read),
        read.rest.len() < input.len(),
    ensures
        scan_row(entries, input, remaining, rows, sum, cur) == scan_row(
            entries,
            read.rest,
            remaining,
            rows,
            read.sum,
            cur.update(k, read.slot),
        ),
{
    reveal(read_entry);
    reveal(scan_group);
    reveal(scan_row);
}

/// The schema mapper moves on behind an entry that was read.
pub proof fn lemma_message_advance(
    entries: Seq<Entry>,
    k: int,
    input: Seq<u8>,
    read: EntryRead,
    sum: int,
    cur: Seq<SlotView>,
)
    requires
        field_spec(input) is Ok,
        find_entry(entries, field_spec(input)->Ok_0.id, 0) == Some(k),
        read_entry(entries[k], slot_absent(cur, k), input, field_spec(input)->Ok_0, sum) == Ok::<
            EntryRead,
            ParseError,
        >(read),
        read.rest.len() < input.len(),
    ensures
        scan_message(entries, input, sum, cur) == scan_message(
            entries,
            read.rest,
            read.sum,
            cur.update(k, read.slot),
        ),
{
    reveal(read_entry);
    reveal(scan_message);
}

/// Inside a sub-record that is complete, the group parser closes it at a
/// field that is none of the entries behind the first.
pub proof fn lemma_row_close(
    entries: Seq<Entry>,
    row: Seq<SlotView>,
    after: Seq<u8>,
    remaining: nat,
    rows: Seq<Seq<SlotView>>,
    sum: int,
)
    requires
        row_ok(entries, row),
        field_spec(after) is Ok,
        find_entry(entries, field_spec(after)->Ok_0.id, 1) is None,
        remaining >= 1,
    ensures
        scan_row(entries, after, remaining, rows, sum, row) == scan_group(
            entries,
            after,
            (remaining - 1) as nat,
            rows.push(row),
            sum,
        ),
{
    reveal(read_entry);
    reveal(scan_group);
    reveal(scan_row);
    assert(!slots_missing(entries, row)) by {
        assert forall|i: int|
            0 <= i < entries.len() && i < row.len() && entries[i] is Scalar
                && entries[i]->Scalar_0.required implies !((#[trigger] row[i]) is Absent) by {
            assert(slot_ok(entries[i], row[i]));
        }
    }
}

/// Reading back one entry: the text of a slot that holds something,
/// followed by a field that closes whatever group the slot holds, is read
/// as that slot, and the reading stops at that field with the checksum of
/// the text added.
pub proof fn lemma_entry_read_back(entry: Entry, slot: SlotView, behind: Seq<u8>, sum: int)
    requires
        slot_ok(entry, slot),
        !(slot is Absent),
        field_spec(behind) is Ok,
        entry is Group ==> group_ok(entry->Group_1@) && tail_free(
            entry->Group_1@,
            field_spec(behind)->Ok_0.id,
        ),
        0 <= sum < 256,
    ensures
        encode_slot(entry, slot) is Some,
        field_spec(encode_slot(entry, slot)->Some_0 + behind) is Ok,
        field_spec(encode_slot(entry, slot)->Some_0 + behind)->Ok_0.id == entry_tag(entry),
        read_entry(
            entry,
            true,
            encode_slot(entry, slot)->Some_0 + behind,
            field_spec(encode_slot(entry, slot)->Some_0 + behind)->Ok_0,
            sum,
        ) == Ok::<EntryRead, ParseError>(
            EntryRead {
                slot,
                rest: behind,
                sum: checksum_add(sum, checksum_spec(encode_slot(entry, slot)->Some_0)),
            },
        ),
    decreases slot, 0nat,
{
    reveal(read_entry);
    reveal(scan_group);
    reveal(scan_row);
    lemma_slot_opens(entry, slot, behind);
    lemma_field_bounds(behind);
    let own = encode_slot(entry, slot)->Some_0;
    let input = own + behind;
    match (entry, slot) {
        (Entry::Scalar(f), SlotView::Scalar(v)) => {
            lemma_value_round_trip(f.kind, v);
            lemma_field_text_read_back(f.tag, render_value_spec(f.kind, v)->Some_0, behind);
        },
        (Entry::Group(count_tag, sub), SlotView::Group(rows)) => {
            lemma_rows_encode(sub@, rows, 0);
            lemma_count_text(rows.len());
            lemma_unsigned_round_trip(rows.len() as u64);
            let count = decimal_text(rows.len());
            let head = field_text(count_tag, count);
            let body = encode_rows_from(sub@, rows, 0)->Some_0;
            assert(own == head + body);
            assert(input =~= head + (body + behind));
            lemma_field_text_read_back(count_tag, count, body + behind);
            lemma_rows_read_back(sub@, rows, 0, behind, 0);
            assert(rows.take(0) =~= Seq::<Seq<SlotView>>::empty());
            lemma_checksum_add_concat(sum, head, body);
            assert(rest_after(input, field_spec(input)->Ok_0) == Some(body + behind));
        },
        _ => {},
    }
}

/// The group parser reads the sub-records from the `k`-th on as they were
/// written, as long as its count allows, and stops at the field behind them.
pub proof fn lemma_rows_read_back(
    entries: Seq<Entry>,
    rows: Seq<Seq<SlotView>>,
    k: int,
    after: Seq<u8>,
    sum: int,
)
    requires
        group_ok(entries),
        forall|r: int| 0 <= r < rows.len() ==> row_ok(entries, #[trigger] rows[r]),
        0 <= k <= rows.len(),
        field_spec(after) is Ok,
        tail_free(entries, field_spec(after)->Ok_0.id),
        0 <= sum < 256,
    ensures
        encode_rows_from(entries, rows, k) is Some,
        scan_group(
            entries,
            encode_rows_from(entries, rows, k)->Some_0 + after,
            (rows.len() - k) as nat,
            rows.take(k),
            sum,
        ) == Ok::<GroupScan, ParseError>(
            GroupScan {
                rows,
                rest: after,
                sum: checksum_add(sum, checksum_spec(encode_rows_from(entries, rows, k)->Some_0)),
            },
        ),
    decreases rows, rows.len() - k,
{
    lemma_rows_encode(entries, rows, k);
    let text = encode_rows_from(entries, rows, k)->Some_0;
    if k >= rows.len() {
        reveal(read_entry);
        reveal(scan_group);
        reveal(scan_row);
        assert(text + after =~= after);
        assert(rows.take(k) =~= rows);
    } else {
        lemma_rows_encode(entries, rows, k + 1);
        lemma_row_encodes(entries, rows[k]);
        let own = encode_row(entries, rows[k])->Some_0;
        let tail = encode_rows_from(entries, rows, k + 1)->Some_0;
        let behind = tail + after;
        assert(text == own + tail);
        assert(text + after =~= own + behind);
        if k + 1 < rows.len() {
            lemma_rows_encode(entries, rows, k + 2);
            lemma_row_encodes(entries, rows[k + 1]);
            let more = encode_rows_from(entries, rows, k + 2)->Some_0;
            let next = encode_row(entries, rows[k + 1])->Some_0;
            assert(behind =~= next + (more + after));
            lemma_row_opens(entries, rows[k + 1], more + after);
            lemma_head_closes(entries);
        } else {
            assert(behind =~= after);
        }
        let sum1 = checksum_add(sum, checksum_spec(own));
        lemma_row_read_back(entries, rows[k], behind, (rows.len() - k) as nat, rows.take(k), sum);
        assert(rows.take(k).push(rows[k]) =~= rows.take(k + 1));
        lemma_rows_read_back(entries, rows, k + 1, after, sum1);
        lemma_checksum_add_concat(sum, own, tail);
    }
}

/// The text of a sub-record starts with a field that carries the tag of the
/// group's first entry.
pub proof fn lemma_row_opens(entries: Seq<Entry>, row: Seq<SlotView>, rest: Seq<u8>)
    requires
        row_ok(entries, row),
    ensures
        encode_row(entries, row) is Some,
        field_spec(encode_row(entries, row)->Some_0 + rest) is Ok,
        field_spec(encode_row(entries, row)->Some_0 + rest)->Ok_0.id == entry_tag(entries[0]),
{
    lemma_row_encodes(entries, row);
    lemma_slots_encode(entries, row, 1);
    assert(slot_ok(entries[0], row[0]));
    lemma_slot_encodes(entries[0], row[0]);
    let own = encode_slot(entries[0], row[0])->Some_0;
    let tail = encode_slots_from(entries, row, 1)->Some_0;
    assert(encode_row(entries, row)->Some_0 + rest =~= own + (tail + rest));
    lemma_slot_opens(entries[0], row[0], tail + rest);
}

/// Between two sub-records, the group parser reads one sub-record as it was
/// written and stands between sub-records again at the field behind it.
pub proof fn lemma_row_read_back(
    entries: Seq<Entry>,
    row: Seq<SlotView>,
    after: Seq<u8>,
    remaining: nat,
    rows: Seq<Seq<SlotView>>,
    sum: int,
)
    requires
        group_ok(entries),
        row_ok(entries, row),
        field_spec(after) is Ok,
        tail_free(entries, field_spec(after)->Ok_0.id),
        remaining >= 1,
        0 <= sum < 256,
    ensures
        encode_row(entries, row) is Some,
        scan_group(entries, encode_row(entries, row)->Some_0 + after, remaining, rows, sum)
            == scan_group(
            entries,
            after,
            (remaining - 1) as nat,
            rows.push(row),
            checksum_add(sum, checksum_spec(encode_row(entries, row)->Some_0)),
        ),
    decreases row, row.len() + 1,
{
    reveal(read_entry);
    reveal(scan_group);
    reveal(scan_row);
    lemma_row_encodes(entries, row);
    lemma_slots_encode(entries, row, 1);
    assert(slot_ok(entries[0], row[0]));
    let f = entries[0]->Scalar_0;
    let v = row[0]->Scalar_0;
    lemma_value_round_trip(f.kind, v);
    let value = render_value_spec(f.kind, v)->Some_0;
    let own = field_text(f.tag, value);
    let cur = empty_slots(entries.len()).update(0, SlotView::Scalar(v));
    let sum1 = checksum_add(sum, checksum_spec(own));
    lemma_row_tail(entries, row, 1, cur, after, remaining, rows, sum1);
    let tail = encode_slots_from(entries, row, 1)->Some_0;
    let text = encode_row(entries, row)->Some_0;
    assert(text == own + tail);
    assert(text + after =~= own + (tail + after));
    lemma_field_text_read_back(f.tag, value, tail + after);
    lemma_field_bounds(after);
    let fv = field_spec(text + after)->Ok_0;
    assert(rest_after(text + after, fv) == Some(tail + after));
    lemma_checksum_add_concat(sum, own, tail);
}

/// Inside a sub-record, the group parser reads the entries from place `k`
/// on as they were written, and closes the sub-record at the field behind
/// them.
pub proof fn lemma_row_tail(
    entries: Seq<Entry>,
    row: Seq<SlotView>,
    k: int,
    cur: Seq<SlotView>,
    after: Seq<u8>,
    remaining: nat,
    rows: Seq<Seq<SlotView>>,
    sum: int,
)
    requires
        group_ok(entries),
        row_ok(entries, row),
        1 <= k <= entries.len(),
        cur.len() == row.len(),
        forall|j: int| 0 <= j < k ==> cur[j] == row[j],
        forall|j: int| k <= j < cur.len() ==> cur[j] is Absent,
        field_spec(after) is Ok,
        tail_free(entries, field_spec(after)->Ok_0.id),
        remaining >= 1,
        0 <= sum < 256,
    ensures
        encode_slots_from(entries, row, k) is Some,
        scan_row(entries, encode_slots_from(entries, row, k)->Some_0 + after, remaining, rows, sum, cur)
            == scan_group(
            entries,
            after,
            (remaining - 1) as nat,
            rows.push(row),
            checksum_add(sum, checksum_spec(encode_slots_from(entries, row, k)->Some_0)),
        ),
    decreases row, row.len() - k,
{
    lemma_slots_encode(entries, row, k);
    let text = encode_slots_from(entries, row, k)->Some_0;
    let closing = field_spec(after)->Ok_0.id;
    if k >= entries.len() {
        assert(text + after =~= after);
        assert(cur =~= row);
        lemma_closing_not_found(entries, closing);
        lemma_row_close(entries, row, after, remaining, rows, sum);
    } else {
        lemma_slots_encode(entries, row, k + 1);
        assert(slot_ok(entries[k], row[k]));
        lemma_slot_encodes(entries[k], row[k]);
        let own = encode_slot(entries[k], row[k])->Some_0;
        let more = encode_slots_from(entries, row, k + 1)->Some_0;
        let behind = more + after;
        assert(text == own + more);
        assert(text + after =~= own + behind);
        if row[k] is Absent {
            assert(own =~= Seq::<u8>::empty());
            assert(text =~= more);
            lemma_row_tail(entries, row, k + 1, cur, after, remaining, rows, sum);
        } else {
            lemma_slots_start(entries, row, k + 1, after, closing);
            if entries[k] is Group {
                lemma_known_closes(entries, k, closing, field_spec(behind)->Ok_0.id);
            }
            lemma_entry_read_back(entries[k], row[k], behind, sum);
            lemma_find_entry_own(entries, k, 1);
            lemma_field_bounds(behind);
            let sum1 = checksum_add(sum, checksum_spec(own));
            let read = EntryRead { slot: row[k], rest: behind, sum: sum1 };
            lemma_row_advance(entries, k, own + behind, read, remaining, rows, sum, cur);
            lemma_row_tail(
                entries,
                row,
                k + 1,
                cur.update(k, row[k]),
                after,
                remaining,
                rows,
                sum1,
            );
            lemma_checksum_add_concat(sum, own, more);
        }
    }
}

/// Repeating-group read-back: for sub-records that can be written, the
/// group parser started with their number as its count on their text,
/// followed by a field that closes the group, gives exactly those
/// sub-records, stops at that field, and reports the checksum of the text it
/// consumed.
pub proof fn lemma_group_read_back(entries: Seq<Entry>, rows: Seq<Seq<SlotView>>, after: Seq<u8>)
    requires
        group_ok(entries),
        forall|r: int| 0 <= r < rows.len() ==> row_ok(entries, #[trigger] rows[r]),
        field_spec(after) is Ok,
        tail_free(entries, field_spec(after)->Ok_0.id),
    ensures
        encode_rows_from(entries, rows, 0) is Some,
        scan_group(
            entries,
            encode_rows_from(entries, rows, 0)->Some_0 + after,
            rows.len(),
            Seq::empty(),
            0,
        ) == Ok::<GroupScan, ParseError>(
            GroupScan {
                rows,
                rest: after,
                sum: checksum_spec(encode_rows_from(entries, rows, 0)->Some_0),
            },
        ),
{
    lemma_rows_read_back(entries, rows, 0, after, 0);
    assert(rows.take(0) =~= Seq::<Seq<SlotView>>::empty());
}

/// The checksum field as it is written.
pub open spec fn trailer(c: u8) -> Seq<u8> {
    field_text(CHECKSUM_ID, checksum_text(c))
}

/// The tokenizer reads the checksum field back, whatever follows.
pub proof fn lemma_trailer_read_back(c: u8, tail: Seq<u8>)
    ensures
        field_spec(trailer(c) + tail) == Ok::<FieldView, ParseError>(
            FieldView {
                id: CHECKSUM_ID,
                value: checksum_text(c),
                length: trailer(c).len(),
                checksum: checksum_spec(trailer(c)),
            },
        ),
        trailer(c).len() >= 3,
{
    lemma_checksum_text_round_trip(c);
    let t = checksum_text(c);
    assert forall|i: int| 0 <= i < t.len() implies #[trigger] t[i] != DELIMITER by {
        assert(is_digit(t[i]));
    }
    lemma_field_text_read_back(CHECKSUM_ID, checksum_text(c), tail);
}

/// At the checksum field, the schema mapper accepts a complete message whose
/// bytes sum to what the field states.
pub proof fn lemma_finish(entries: Seq<Entry>, cur: Seq<SlotView>, c: u8, tail: Seq<u8>)
    requires
        entries_ok(entries),
        !slots_missing(entries, cur),
    ensures
        scan_message(entries, trailer(c) + tail, c as int, cur) == Ok::<Seq<SlotView>, ParseError>(
            cur,
        ),
{
    reveal(read_entry);
    reveal(scan_message);
    lemma_trailer_read_back(c, tail);
    lemma_checksum_text_round_trip(c);
    lemma_find_entry_none(entries, CHECKSUM_ID, 0);
}

/// The schema mapper reads the slots from the `k`-th on as they were
/// written, and the checksum field behind them accepts the message.
pub proof fn lemma_slots_read_back(
    entries: Seq<Entry>,
    slots: Seq<SlotView>,
    k: int,
    cur: Seq<SlotView>,
    c: u8,
    tail: Seq<u8>,
    sum: int,
)
    requires
        entries_ok(entries),
        slots_ok(entries, slots),
        0 <= k <= entries.len(),
        cur.len() == slots.len(),
        forall|j: int| 0 <= j < k ==> cur[j] == slots[j],
        forall|j: int| k <= j < cur.len() ==> cur[j] is Absent,
        0 <= sum < 256,
        encode_slots_from(entries, slots, k) is Some,
        c as int == checksum_add(sum, checksum_spec(encode_slots_from(entries, slots, k)->Some_0)),
    ensures
        scan_message(
            entries,
            encode_slots_from(entries, slots, k)->Some_0 + (trailer(c) + tail),
            sum,
            cur,
        ) == Ok::<Seq<SlotView>, ParseError>(slots),
    decreases entries.len() - k,
{
    let text = encode_slots_from(entries, slots, k)->Some_0;
    let after = trailer(c) + tail;
    lemma_trailer_read_back(c, tail);
    if k >= entries.len() {
        assert(text + after =~= after);
        assert(cur =~= slots);
        assert(!slots_missing(entries, slots)) by {
            assert forall|i: int|
                0 <= i < entries.len() && i < slots.len() && entries[i] is Scalar
                    && entries[i]->Scalar_0.required implies !((#[trigger] slots[i]) is Absent) by {
                assert(slot_ok(entries[i], slots[i]));
            }
        }
        lemma_finish(entries, cur, c, tail);
    } else {
        lemma_slots_encode(entries, slots, k + 1);
        assert(slot_ok(entries[k], slots[k]));
        lemma_slot_encodes(entries[k], slots[k]);
        let own = encode_slot(entries[k], slots[k])->Some_0;
        let more = encode_slots_from(entries, slots, k + 1)->Some_0;
        let behind = more + after;
        assert(text == own + more);
        assert(text + after =~= own + behind);
        lemma_checksum_add_concat(sum, own, more);
        if slots[k] is Absent {
            assert(own =~= Seq::<u8>::empty());
            assert(text =~= more);
            lemma_slots_read_back(entries, slots, k + 1, cur, c, tail, sum);
        } else {
            lemma_slots_start(entries, slots, k + 1, after, CHECKSUM_ID);
            if entries[k] is Group {
                lemma_known_closes(entries, k, CHECKSUM_ID, field_spec(behind)->Ok_0.id);
            }
            lemma_entry_read_back(entries[k], slots[k], behind, sum);
            lemma_find_entry_own(entries, k, 0);
            lemma_field_bounds(behind);
            let sum1 = checksum_add(sum, checksum_spec(own));
            let read = EntryRead { slot: slots[k], rest: behind, sum: sum1 };
            lemma_message_advance(entries, k, own + behind, read, sum, cur);
            lemma_slots_read_back(entries, slots, k + 1, cur.update(k, slots[k]), c, tail, sum1);
        }
    }
}

/// The envelope parser reads a written header field back and hands on what
/// follows it.
pub proof fn lemma_header_field_read_back(id: u64, value: Seq<u8>, rest: Seq<u8>)
    requires
        text_ok(value),
        rest.len() > 0,
    ensures
        header_field_spec(id, field_text(id, value) + rest) == Ok::<
            (FieldView, Seq<u8>),
            ParseError,
        >(
            (
                FieldView {
                    id,
                    value,
                    length: field_text(id, value).len(),
                    checksum: checksum_spec(field_text(id, value)),
                },
                rest,
            ),
        ),
{
    lemma_field_text_read_back(id, value, rest);
}

/// The texts that the encoder writes into the header and the trailer hold
/// no delimiter, and the trailer is seven bytes long.
pub proof fn lemma_frame_texts(n: nat, c: u8)
    ensures
        text_ok(version_text()),
        text_ok(decimal_text(n)),
        trailer(c).len() == 7,
{
    lemma_decimal_text(n);
    let count = decimal_text(n);
    assert forall|i: int| 0 <= i < count.len() implies #[trigger] count[i] != DELIMITER by {
        assert(is_digit(count[i]));
    }
    reveal_with_fuel(decimal_text, 2);
    assert(decimal_text(10).len() == 2);
    lemma_checksum_text_round_trip(c);
}

/// The checksum of four parts in a row is that of the four added one after
/// the other.
pub proof fn lemma_checksum_four(a: Seq<u8>, b: Seq<u8>, c: Seq<u8>, d: Seq<u8>)
    ensures
        0 <= checksum_add(checksum_add(checksum_spec(a), checksum_spec(b)), checksum_spec(c))
            < 256,
        checksum_spec((a + b) + (c + d)) == checksum_add(
            checksum_add(checksum_add(checksum_spec(a), checksum_spec(b)), checksum_spec(c)),
            checksum_spec(d),
        ),
{
    lemma_byte_sum_concat(a, b);
    lemma_byte_sum_concat(c, d);
    lemma_byte_sum_concat(a + b, c + d);
    let x = byte_sum(a) as int;
    let y = byte_sum(b) as int;
    let z = byte_sum(c) as int;
    let w = byte_sum(d) as int;
    lemma_add_mod_noop(x, y, 256);
    lemma_add_mod_noop(x + y, z, 256);
    lemma_add_mod_noop(x + y + z, w, 256);
}

/// The envelope parser reads back the envelope that the encoder writes
/// around a body that starts with the type code.
pub proof fn lemma_envelope_read_back(msg_type: Seq<u8>, inner: Seq<u8>)
    requires
        text_ok(msg_type),
        (field_text(MSG_TYPE_ID, msg_type) + inner).len() <= u64::MAX,
    ensures
        message_spec(frame_spec(field_text(MSG_TYPE_ID, msg_type) + inner)) == Ok::<
            MessageView,
            ParseError,
        >(
            MessageView {
                msg_type,
                body: inner + trailer(
                    checksum_spec(
                        header_text(field_text(MSG_TYPE_ID, msg_type) + inner) + (field_text(
                            MSG_TYPE_ID,
                            msg_type,
                        ) + inner),
                    ) as u8,
                ),
                header_checksum: checksum_add(
                    checksum_add(
                        checksum_spec(field_text(VERSION_ID, version_text())),
                        checksum_spec(
                            field_text(
                                LENGTH_ID,
                                decimal_text((field_text(MSG_TYPE_ID, msg_type) + inner).len()),
                            ),
                        ),
                    ),
                    checksum_spec(field_text(MSG_TYPE_ID, msg_type)),
                ),
            },
        ),
{
    reveal(message_spec);
    let f35 = field_text(MSG_TYPE_ID, msg_type);
    let body = f35 + inner;
    let count = decimal_text(body.len());
    let f8 = field_text(VERSION_ID, version_text());
    let f9 = field_text(LENGTH_ID, count);
    let c = checksum_spec(header_text(body) + body) as u8;
    let frame = frame_spec(body);
    let after8 = f9 + body + trailer(c);
    let after9 = body + trailer(c);
    let after35 = inner + trailer(c);
    assert(frame =~= f8 + after8);
    assert(after8 =~= f9 + after9);
    assert(after9 =~= f35 + after35);
    lemma_frame_texts(body.len(), c);
    lemma_unsigned_round_trip(body.len() as u64);
    lemma_header_field_read_back(VERSION_ID, version_text(), after8);
    lemma_header_field_read_back(LENGTH_ID, count, after9);
    lemma_header_field_read_back(MSG_TYPE_ID, msg_type, after35);
}

/// Round trip: a message that fits a schema that can be read back has a
/// wire form, and decoding that wire form under the schema gives the message
/// again.
pub proof fn lemma_round_trip(schema: Schema, record: Record)
    requires
        schema_ok(schema),
        slots_ok(schema.entries@, record@),
        body_spec(schema, record@) is Some ==> body_spec(schema, record@)->Some_0.len()
            <= u64::MAX,
    ensures
        encode_spec(schema, record@) is Some,
        decode_spec(schema, encode_spec(schema, record@)->Some_0) == Ok::<
            Seq<SlotView>,
            ParseError,
        >(record@),
{
    let entries = schema.entries@;
    let slots = record@;
    lemma_slots_encode(entries, slots, 0);
    let inner = encode_slots_from(entries, slots, 0)->Some_0;
    let f35 = field_text(MSG_TYPE_ID, schema.msg_type@);
    let body = f35 + inner;
    assert(body_spec(schema, slots) == Some(body));
    let c = checksum_spec(header_text(body) + body) as u8;
    lemma_envelope_read_back(schema.msg_type@, inner);
    let f8 = field_text(VERSION_ID, version_text());
    let f9 = field_text(LENGTH_ID, decimal_text(body.len()));
    let hsum = checksum_add(
        checksum_add(checksum_spec(f8), checksum_spec(f9)),
        checksum_spec(f35),
    );
    let start = empty_slots(entries.len());
    lemma_checksum_four(f8, f9, f35, inner);
    assert(trailer(c) + Seq::<u8>::empty() =~= trailer(c));
    lemma_slots_read_back(entries, slots, 0, start, c, Seq::empty(), hsum);
}

} // verus!
