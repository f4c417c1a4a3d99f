//! Message schemas and typed messages.

use vstd::prelude::*;
use crate::value::{Value, ValueKind, ValueView};

verus! {

/// One scalar field of a schema: its tag, the kind of its value, and whether
/// a message without it is incomplete.
#[derive(Clone, Debug)]
pub struct FieldSpec {
    pub tag: u64,
    pub kind: ValueKind,
    pub required: bool,
}

/// One entry of a schema: a scalar field, or a repeating group with the tag
/// of its count and the entries of one sub-record. The first entry of a
/// group is a scalar and opens each sub-record; the others may be groups
/// themselves.
#[derive(Debug)]
pub enum Entry {
    Scalar(FieldSpec),
    Group(u64, Vec<Entry>),
}

/// The schema of one message type: the type code and the entries in the
/// order in which they are written.
#[derive(Debug)]
pub struct Schema {
    pub msg_type: Vec<u8>,
    pub entries: Vec<Entry>,
}

/// What a typed message holds for one entry of its schema. A sub-record of a
/// group holds one slot for each entry of the group.
#[derive(Debug, PartialEq)]
pub enum Slot {
    Absent,
    Scalar(Value),
    Group(Vec<Vec<Slot>>),
}

/// A typed message: one slot for each entry of its schema.
#[derive(Debug, PartialEq)]
pub struct Record {
    pub slots: Vec<Slot>,
}

/// A slot with its bytes as sequences.
pub enum SlotView {
    Absent,
    Scalar(ValueView),
    Group(Seq<Seq<SlotView>>),
}

/// The view of one slot, sub-records and all.
pub open spec fn slot_view(slot: Slot) -> SlotView
    decreases slot,
{
    match slot {
        Slot::Absent => SlotView::Absent,
        Slot::Scalar(v) => SlotView::Scalar(v@),
        Slot::Group(rows) => SlotView::Group(
            Seq::new(
                rows@.len(),
                |i: int|
                    if 0 <= i < rows@.len() {
                        Seq::new(
                            rows@[i]@.len(),
                            |j: int|
                                if 0 <= j < rows@[i]@.len() {
                                    slot_view(rows@[i]@[j])
                                } else {
                                    SlotView::Absent
                                },
                        )
                    } else {
                        Seq::empty()
                    },
            ),
        ),
    }
}

impl View for Slot {
    type V = SlotView;

    open spec fn view(&self) -> SlotView {
        slot_view(*self)
    }
}

/// The view of the slots of a message or of one sub-record.
pub open spec fn slots_view(slots: Vec<Slot>) -> Seq<SlotView> {
    Seq::new(slots@.len(), |i: int| slots@[i]@)
}

/// The view of the sub-records of a group.
pub open spec fn rows_view(rows: Vec<Vec<Slot>>) -> Seq<Seq<SlotView>> {
    Seq::new(rows@.len(), |i: int| slots_view(rows@[i]))
}

impl View for Record {
    type V = Seq<SlotView>;

    open spec fn view(&self) -> Seq<SlotView> {
        slots_view(self.slots)
    }
}

/// The view of a group is made of the views of its sub-records.
pub proof fn lemma_group_view(rows: Vec<Vec<Slot>>)
    ensures
        Slot::Group(rows)@ == SlotView::Group(rows_view(rows)),
{
    let a = slot_view(Slot::Group(rows))->Group_0;
    let b = rows_view(rows);
    assert(a.len() == b.len());
    assert forall|i: int| 0 <= i < a.len() implies a[i] == b[i] by {
        assert(a[i] =~= b[i]);
    }
    assert(a =~= b);
}

/// The tag under which an entry is met on the wire.
pub open spec fn entry_tag(e: Entry) -> u64 {
    match e {
        Entry::Scalar(f) => f.tag,
        Entry::Group(count_tag, _) => count_tag,
    }
}

/// The position at or after `from` of the first entry with tag `tag`.
pub open spec fn find_entry(entries: Seq<Entry>, tag: u64, from: int) -> Option<int>
    decreases entries.len() - from,
{
    if from < 0 || from >= entries.len() {
        None
    } else if entry_tag(entries[from]) == tag {
        Some(from)
    } else {
        find_entry(entries, tag, from + 1)
    }
}

/// A run of absent slots.
pub open spec fn empty_slots(n: nat) -> Seq<SlotView> {
    Seq::new(n, |i: int| SlotView::Absent)
}

/// True when a required scalar among `entries` has no value in `slots`.
pub open spec fn slots_missing(entries: Seq<Entry>, slots: Seq<SlotView>) -> bool {
    exists|i: int|
        0 <= i < entries.len() && i < slots.len() && entries[i] is Scalar
            && entries[i]->Scalar_0.required && (#[trigger] slots[i]) is Absent
}

/// Finds the first entry at or after `from` with tag `tag`.
pub fn find_entry_at(entries: &Vec<Entry>, tag: u64, from: usize) -> (r: Option<usize>)
    ensures
        match r {
            Some(i) => find_entry(entries@, tag, from as int) == Some(i as int) && from <= i
                < entries@.len(),
            None => find_entry(entries@, tag, from as int) is None,
        },
{
    let mut k: usize = from;
    while k < entries.len()
        invariant
            from <= k,
            find_entry(entries@, tag, from as int) == find_entry(entries@, tag, k as int),
        decreases entries.len() - k,
    {
        let found = match &entries[k] {
            Entry::Scalar(f) => f.tag == tag,
            Entry::Group(count_tag, _) => *count_tag == tag,
        };
        if found {
            return Some(k);
        }
        k += 1;
    }
    None
}

/// A run of `n` absent slots.
pub fn new_slots(n: usize) -> (slots: Vec<Slot>)
    ensures
        slots@.len() == n,
        slots_view(slots) == empty_slots(n as nat),
{
    let mut slots: Vec<Slot> = Vec::new();
    let mut k: usize = 0;
    while k < n
        invariant
            k <= n,
            slots@.len() == k,
            forall|j: int| 0 <= j < k ==> (#[trigger] slots@[j]) is Absent,
        decreases n - k,
    {
        slots.push(Slot::Absent);
        k += 1;
    }
    assert(slots_view(slots) =~= empty_slots(n as nat));
    slots
}

/// Says whether a slot holds nothing.
pub fn is_absent(slot: &Slot) -> (r: bool)
    ensures
        r == (slot@ is Absent),
{
    match slot {
        Slot::Absent => true,
        _ => false,
    }
}

/// Says whether a required scalar among `entries` has no value in `slots`.
pub fn is_slots_missing(entries: &Vec<Entry>, slots: &Vec<Slot>) -> (r: bool)
    requires
        slots@.len() == entries@.len(),
    ensures
        r == slots_missing(entries@, slots_view(*slots)),
{
    let mut k: usize = 0;
    while k < entries.len()
        invariant
            k <= entries.len(),
            slots@.len() == entries@.len(),
            forall|i: int|
                0 <= i < k ==> !(entries@[i] is Scalar && entries@[i]->Scalar_0.required && (
                #[trigger] slots_view(*slots)[i]) is Absent),
        decreases entries.len() - k,
    {
        let required = match &entries[k] {
            Entry::Scalar(f) => f.required,
            Entry::Group(_, _) => false,
        };
        let absent = is_absent(&slots[k]);
        assert(absent == (slots_view(*slots)[k as int] is Absent));
        if required && absent {
            return true;
        }
        k += 1;
    }
    false
}

} // verus!
