//! The serializer: from a typed message to its fields, and the frame of
//! header and checksum around them.

use vstd::prelude::*;
use crate::checksum::{checksum, checksum_spec};
use crate::field::{DELIMITER, SEPARATOR};
use crate::message::{LENGTH_ID, MSG_TYPE_ID, VERSION_ID};
use crate::numbers::{checksum_text, decimal_text, push_checksum, push_decimal};
use crate::schema::{
    lemma_group_view, rows_view, slots_view, Entry, Record, Schema, Slot, SlotView,
};
use crate::value::{render_value, render_value_spec, Value, ValueKind};

verus! {

/// The protocol version that every message announces, `FIX.4.2`.
pub open spec fn version_text() -> Seq<u8> {
    seq![70u8, 73u8, 88u8, 46u8, 52u8, 46u8, 50u8]
}

/// One field on the wire: the tag in decimal, `=`, the value, the delimiter.
pub open spec fn field_text(tag: u64, value: Seq<u8>) -> Seq<u8> {
    decimal_text(tag as nat) + seq![SEPARATOR] + value + seq![DELIMITER]
}

/// `front` put before a text that may be missing.
pub open spec fn prepend(front: Seq<u8>, back: Option<Seq<u8>>) -> Option<Seq<u8>> {
    match back {
        Some(b) => Some(front + b),
        None => None,
    }
}

/// One entry on the wire: nothing for an absent slot that is not required,
/// the field for a scalar, the count and the sub-records for a group. None
/// where the slot does not fit the entry.
pub open spec fn encode_slot(entry: Entry, slot: SlotView) -> Option<Seq<u8>>
    decreases slot, 0nat,
{
    match (entry, slot) {
        (Entry::Scalar(f), SlotView::Absent) => if f.required {
            None
        } else {
            Some(Seq::empty())
        },
        (Entry::Scalar(f), SlotView::Scalar(v)) => match render_value_spec(f.kind, v) {
            None => None,
            Some(text) => Some(field_text(f.tag, text)),
        },
        (Entry::Group(_, _), SlotView::Absent) => Some(Seq::empty()),
        (Entry::Group(count_tag, sub), SlotView::Group(rows)) => prepend(
            field_text(count_tag, decimal_text(rows.len())),
            encode_rows_from(sub@, rows, 0),
        ),
        _ => None,
    }
}

/// The sub-records from `k` on, one after the other.
pub open spec fn encode_rows_from(entries: Seq<Entry>, rows: Seq<Seq<SlotView>>, k: int) -> Option<
    Seq<u8>,
>
    decreases rows, rows.len() - k,
{
    if k < 0 || k >= rows.len() {
        Some(Seq::empty())
    } else {
        match encode_row(entries, rows[k]) {
            None => None,
            Some(text) => prepend(text, encode_rows_from(entries, rows, k + 1)),
        }
    }
}

/// One sub-record on the wire. It has one slot for each entry of the group
/// and a scalar in the first, which opens it.
pub open spec fn encode_row(entries: Seq<Entry>, row: Seq<SlotView>) -> Option<Seq<u8>>
    decreases row, row.len() + 1,
{
    if row.len() != entries.len() || entries.len() == 0 || !(entries[0] is Scalar) || !(
    row[0] is Scalar) {
        None
    } else {
        encode_slots_from(entries, row, 0)
    }
}

/// The entries from `k` on, in the order of the schema.
pub open spec fn encode_slots_from(entries: Seq<Entry>, slots: Seq<SlotView>, k: int) -> Option<
    Seq<u8>,
>
    decreases slots, slots.len() - k,
{
    if k < 0 || k >= entries.len() || k >= slots.len() {
        Some(Seq::empty())
    } else {
        match encode_slot(entries[k], slots[k]) {
            None => None,
            Some(text) => prepend(text, encode_slots_from(entries, slots, k + 1)),
        }
    }
}

/// The body of a message: the type code first, then the entries. None where
/// the message does not fit the schema.
pub open spec fn body_spec(schema: Schema, slots: Seq<SlotView>) -> Option<Seq<u8>> {
    if slots.len() != schema.entries@.len() {
        None
    } else {
        prepend(
            field_text(MSG_TYPE_ID, schema.msg_type@),
            encode_slots_from(schema.entries@, slots, 0),
        )
    }
}

/// The header that goes before a body: the version and the body's length.
pub open spec fn header_text(body: Seq<u8>) -> Seq<u8> {
    field_text(VERSION_ID, version_text()) + field_text(LENGTH_ID, decimal_text(body.len()))
}

/// A whole message around `body`: the header, the body, and the checksum of
/// both in three digits.
pub open spec fn frame_spec(body: Seq<u8>) -> Seq<u8> {
    header_text(body) + body + field_text(
        10,
        checksum_text(checksum_spec(header_text(body) + body) as u8),
    )
}

/// The whole message for a typed message under its schema.
pub open spec fn encode_spec(schema: Schema, slots: Seq<SlotView>) -> Option<Seq<u8>> {
    match body_spec(schema, slots) {
        Some(body) => Some(frame_spec(body)),
        None => None,
    }
}

/// Putting two texts in front one after the other is putting their
/// concatenation in front.
pub proof fn lemma_prepend_twice(a: Seq<u8>, b: Seq<u8>, back: Option<Seq<u8>>)
    ensures
        prepend(a, prepend(b, back)) == prepend(a + b, back),
{
    match back {
        Some(t) => {
            assert(a + (b + t) =~= (a + b) + t);
        },
        None => {},
    }
}

/// Appends the tag and `=` to `out`.
fn push_tag(out: &mut Vec<u8>, tag: u64)
    ensures
        final(out)@ == old(out)@ + (decimal_text(tag as nat) + seq![SEPARATOR]),
{
    push_decimal(out, tag);
    out.push(SEPARATOR);
    assert(final(out)@ =~= old(out)@ + (decimal_text(tag as nat) + seq![SEPARATOR]));
}

/// Appends one field with the given value bytes to `out`.
fn push_field(out: &mut Vec<u8>, tag: u64, value: &[u8])
    ensures
        final(out)@ == old(out)@ + field_text(tag, value@),
{
    push_tag(out, tag);
    out.extend_from_slice(value);
    out.push(DELIMITER);
    assert(final(out)@ =~= old(out)@ + field_text(tag, value@));
}

/// Appends one field with the text of `v` to `out`, if `v` has a text under
/// `kind`.
fn push_value_field(out: &mut Vec<u8>, tag: u64, kind: &ValueKind, v: &Value) -> (ok: bool)
    ensures
        match render_value_spec(*kind, v@) {
            Some(text) => ok && final(out)@ == old(out)@ + field_text(tag, text),
            None => !ok,
        },
{
    push_tag(out, tag);
    if !render_value(kind, v, out) {
        return false;
    }
    out.push(DELIMITER);
    assert(final(out)@ =~= old(out)@ + field_text(tag, render_value_spec(*kind, v@)->Some_0));
    true
}

/// Nothing put in front changes nothing.
pub proof fn lemma_prepend_empty(back: Option<Seq<u8>>)
    ensures
        prepend(Seq::empty(), back) == back,
{
    match back {
        Some(t) => {
            assert(Seq::<u8>::empty() + t =~= t);
        },
        None => {},
    }
}

/// Appends one entry to `out`, if the slot fits the entry.
fn push_slot(out: &mut Vec<u8>, entry: &Entry, slot: &Slot) -> (ok: bool)
    ensures
        match encode_slot(*entry, slot@) {
            Some(text) => ok && final(out)@ == old(out)@ + text,
            None => !ok,
        },
    decreases slot, 0nat,
{
    match (entry, slot) {
        (Entry::Scalar(f), Slot::Absent) => {
            assert(out@ + Seq::<u8>::empty() =~= out@);
            !f.required
        },
        (Entry::Scalar(f), Slot::Scalar(v)) => push_value_field(out, f.tag, &f.kind, v),
        (Entry::Group(_, _), Slot::Absent) => {
            assert(out@ + Seq::<u8>::empty() =~= out@);
            true
        },
        (Entry::Group(count_tag, sub), Slot::Group(rows)) => {
            let ghost start = out@;
            proof {
                lemma_group_view(*rows);
            }
            push_tag(out, *count_tag);
            push_decimal(out, rows.len() as u64);
            out.push(DELIMITER);
            let ghost head = field_text(*count_tag, decimal_text(rows@.len()));
            assert(out@ =~= start + head);
            if !push_rows(out, sub, rows) {
                return false;
            }
            proof {
                let text = encode_rows_from(sub@, rows_view(*rows), 0)->Some_0;
                assert(start + head + text =~= start + (head + text));
            }
            true
        },
        (Entry::Scalar(_), Slot::Group(rows)) => {
            proof {
                lemma_group_view(*rows);
            }
            false
        },
        (Entry::Group(_, _), Slot::Scalar(_)) => false,
    }
}

/// Appends the sub-records of a group to `out`, if each fits the group's
/// entries.
fn push_rows(out: &mut Vec<u8>, entries: &Vec<Entry>, rows: &Vec<Vec<Slot>>) -> (ok: bool)
    ensures
        match encode_rows_from(entries@, rows_view(*rows), 0) {
            Some(text) => ok && final(out)@ == old(out)@ + text,
            None => !ok,
        },
    decreases rows, 0nat,
{
    let ghost start = out@;
    let ghost rv = rows_view(*rows);
    let ghost acc = Seq::<u8>::empty();
    let mut k: usize = 0;
    assert(out@ =~= start + acc);
    proof {
        lemma_prepend_empty(encode_rows_from(entries@, rv, 0));
    }
    while k < rows.len()
        invariant
            k <= rows.len(),
            rv == rows_view(*rows),
            out@ == start + acc,
            encode_rows_from(entries@, rv, 0) == prepend(
                acc,
                encode_rows_from(entries@, rv, k as int),
            ),
        decreases rows.len() - k,
    {
        assert(rv[k as int] == slots_view(rows@[k as int]));
        if !push_row(out, entries, &rows[k]) {
            return false;
        }
        proof {
            let text = encode_row(entries@, rv[k as int])->Some_0;
            lemma_prepend_twice(acc, text, encode_rows_from(entries@, rv, k + 1));
            assert(start + acc + text =~= start + (acc + text));
            acc = acc + text;
        }
        k += 1;
    }
    proof {
        assert(acc + Seq::<u8>::empty() =~= acc);
    }
    true
}

/// Appends one sub-record to `out`, if it fits the group's entries.
fn push_row(out: &mut Vec<u8>, entries: &Vec<Entry>, row: &Vec<Slot>) -> (ok: bool)
    ensures
        match encode_row(entries@, slots_view(*row)) {
            Some(text) => ok && final(out)@ == old(out)@ + text,
            None => !ok,
        },
    decreases row, 1nat,
{
    if row.len() != entries.len() || entries.len() == 0 {
        return false;
    }
    let opens = match (&entries[0], &row[0]) {
        (Entry::Scalar(_), Slot::Scalar(_)) => true,
        (Entry::Scalar(_), Slot::Group(rows)) => {
            proof {
                lemma_group_view(*rows);
            }
            false
        },
        _ => false,
    };
    assert(slots_view(*row)[0] == row@[0]@);
    if !opens {
        return false;
    }
    push_slots(out, entries, row)
}

/// Appends the entries of a message or of one sub-record to `out`, if each
/// slot fits its entry.
fn push_slots(out: &mut Vec<u8>, entries: &Vec<Entry>, slots: &Vec<Slot>) -> (ok: bool)
    requires
        slots@.len() == entries@.len(),
    ensures
        match encode_slots_from(entries@, slots_view(*slots), 0) {
            Some(text) => ok && final(out)@ == old(out)@ + text,
            None => !ok,
        },
    decreases slots, 0nat,
{
    let ghost start = out@;
    let ghost sv = slots_view(*slots);
    let ghost acc = Seq::<u8>::empty();
    let mut k: usize = 0;
    assert(out@ =~= start + acc);
    proof {
        lemma_prepend_empty(encode_slots_from(entries@, sv, 0));
    }
    while k < entries.len()
        invariant
            k <= entries.len(),
            slots@.len() == entries@.len(),
            sv == slots_view(*slots),
            out@ == start + acc,
            encode_slots_from(entries@, sv, 0) == prepend(
                acc,
                encode_slots_from(entries@, sv, k as int),
            ),
        decreases entries.len() - k,
    {
        assert(sv[k as int] == slots@[k as int]@);
        if !push_slot(out, &entries[k], &slots[k]) {
            return false;
        }
        proof {
            let text = encode_slot(entries@[k as int], sv[k as int])->Some_0;
            lemma_prepend_twice(acc, text, encode_slots_from(entries@, sv, k + 1));
            assert(start + acc + text =~= start + (acc + text));
            acc = acc + text;
        }
        k += 1;
    }
    proof {
        assert(acc + Seq::<u8>::empty() =~= acc);
    }
    true
}

/// Renders the body of a typed message under its schema: the type code,
/// then every entry that has a value, in the order of the schema.
pub fn encode_body(schema: &Schema, record: &Record) -> (r: Option<Vec<u8>>)
    ensures
        match r {
            Some(body) => body_spec(*schema, record@) == Some(body@),
            None => body_spec(*schema, record@) is None,
        },
{
    if record.slots.len() != schema.entries.len() {
        return None;
    }
    let mut out: Vec<u8> = Vec::new();
    push_field(&mut out, MSG_TYPE_ID, schema.msg_type.as_slice());
    assert(out@ =~= field_text(MSG_TYPE_ID, schema.msg_type@));
    if push_slots(&mut out, &schema.entries, &record.slots) {
        Some(out)
    } else {
        None
    }
}

/// Wraps a body into a whole message: the version and the body's length in
/// front, the checksum of both behind.
pub fn frame_body(body: &[u8]) -> (r: Vec<u8>)
    ensures
        r@ == frame_spec(body@),
{
    let mut out: Vec<u8> = Vec::new();
    push_tag(&mut out, VERSION_ID);
    out.push(70);
    out.push(73);
    out.push(88);
    out.push(46);
    out.push(52);
    out.push(46);
    out.push(50);
    out.push(DELIMITER);
    assert(out@ =~= field_text(VERSION_ID, version_text()));
    push_tag(&mut out, LENGTH_ID);
    push_decimal(&mut out, body.len() as u64);
    out.push(DELIMITER);
    assert(out@ =~= header_text(body@));
    out.extend_from_slice(body);
    let ghost covered = out@;
    assert(covered == header_text(body@) + body@);
    let sum = checksum(out.as_slice());
    push_tag(&mut out, 10);
    push_checksum(&mut out, sum);
    out.push(DELIMITER);
    assert(out@ =~= covered + field_text(10, checksum_text(sum)));
    out
}

/// Something that carries a message type code.
pub trait FixMessageType {
    /// The type code.
    spec fn msg_type_spec(&self) -> Seq<u8>;

    fn msg_type(&self) -> (r: &[u8])
        ensures
            r@ == self.msg_type_spec(),
    ;
}

/// Something that can be written as the body of a message.
pub trait FixSerializable {
    /// The body, none where there is nothing that can be written.
    spec fn body_text(&self) -> Option<Seq<u8>>;

    fn serialize_body_to_fix(&self) -> (r: Option<Vec<u8>>)
        ensures
            match r {
                Some(body) => self.body_text() == Some(body@),
                None => self.body_text() is None,
            },
    ;
}

/// A typed message together with the schema that it is written under.
pub struct TypedMessage<'a> {
    pub schema: &'a Schema,
    pub record: &'a Record,
}

impl FixMessageType for Schema {
    open spec fn msg_type_spec(&self) -> Seq<u8> {
        self.msg_type@
    }

    fn msg_type(&self) -> (r: &[u8]) {
        self.msg_type.as_slice()
    }
}

impl<'a> FixMessageType for TypedMessage<'a> {
    open spec fn msg_type_spec(&self) -> Seq<u8> {
        self.schema.msg_type@
    }

    fn msg_type(&self) -> (r: &[u8]) {
        self.schema.msg_type.as_slice()
    }
}

impl<'a> FixSerializable for TypedMessage<'a> {
    open spec fn body_text(&self) -> Option<Seq<u8>> {
        body_spec(*self.schema, self.record@)
    }

    fn serialize_body_to_fix(&self) -> (r: Option<Vec<u8>>) {
        encode_body(self.schema, self.record)
    }
}

/// The whole message for something that can be written as a body.
pub open spec fn serialize_spec(body: Option<Seq<u8>>) -> Option<Seq<u8>> {
    match body {
        Some(b) => Some(frame_spec(b)),
        None => None,
    }
}

/// Renders a whole message: the body that `t` writes, wrapped into the
/// header and the checksum.
pub fn serialize<T: FixSerializable>(t: &T) -> (r: Option<Vec<u8>>)
    ensures
        match r {
            Some(bytes) => serialize_spec(t.body_text()) == Some(bytes@),
            None => serialize_spec(t.body_text()) is None,
        },
{
    match t.serialize_body_to_fix() {
        Some(body) => Some(frame_body(body.as_slice())),
        None => None,
    }
}

} // verus!
