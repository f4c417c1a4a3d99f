//! Session state: sequence counters and identities, and the validation of
//! received headers against them.

use vstd::prelude::*;
use vstd::slice::slice_to_vec;

verus! {

/// The two identities of a session: ours and the counterparty's.
#[derive(Clone, Debug)]
pub struct CompIds {
    pub sender: Vec<u8>,
    pub target: Vec<u8>,
}

/// What session validation reads of a received message.
pub trait FixHeader {
    /// The sequence number that the message carries.
    spec fn seq_spec(&self) -> u64;

    /// The identity that the message was sent to.
    spec fn target_spec(&self) -> Seq<u8>;

    /// The identity that sent the message.
    spec fn sender_spec(&self) -> Seq<u8>;

    fn seq(&self) -> (r: u64)
        ensures
            r == self.seq_spec(),
    ;

    fn target(&self) -> (r: &[u8])
        ensures
            r@ == self.target_spec(),
    ;

    fn sender(&self) -> (r: &[u8])
        ensures
            r@ == self.sender_spec(),
    ;
}

/// The header values of one message, held on their own.
#[derive(Clone, Debug)]
pub struct Header {
    pub seq: u64,
    pub sender: Vec<u8>,
    pub target: Vec<u8>,
}

impl FixHeader for Header {
    open spec fn seq_spec(&self) -> u64 {
        self.seq
    }

    open spec fn target_spec(&self) -> Seq<u8> {
        self.target@
    }

    open spec fn sender_spec(&self) -> Seq<u8> {
        self.sender@
    }

    fn seq(&self) -> (r: u64) {
        self.seq
    }

    fn target(&self) -> (r: &[u8]) {
        self.target.as_slice()
    }

    fn sender(&self) -> (r: &[u8]) {
        self.sender.as_slice()
    }
}

/// Why a received message does not belong to the session. The identity
/// variants carry the identity that the message holds.
#[derive(Debug)]
pub enum MessageValidationErr {
    SeqNumOutOfOrder,
    SenderMismatch(Vec<u8>),
    TargetMismatch(Vec<u8>),
}

/// Why a handler gave a message up.
#[derive(Debug)]
pub enum HandleErr {
    MessageValidationErr(MessageValidationErr),
    Unknown,
}

impl From<MessageValidationErr> for HandleErr {
    fn from(e: MessageValidationErr) -> (r: HandleErr) {
        HandleErr::MessageValidationErr(e)
    }
}

impl vstd::std_specs::convert::FromSpecImpl<MessageValidationErr> for HandleErr {
    open spec fn obeys_from_spec() -> bool {
        true
    }

    open spec fn from_spec(e: MessageValidationErr) -> HandleErr {
        HandleErr::MessageValidationErr(e)
    }
}

/// The check that a header fails.
#[derive(Clone, Copy, Debug, PartialEq, Eq, Structural)]
pub enum Mismatch {
    Sequence,
    Sender,
    Target,
}

/// The first check that a header fails under the given session values, the
/// checks taken in their fixed order: the sequence number must be the
/// expected one, the sender must be the session's counterparty, the target
/// must be the session's own identity.
pub open spec fn validation_failure(
    expected_seq: u64,
    ids: CompIds,
    seq: u64,
    sender: Seq<u8>,
    target: Seq<u8>,
) -> Option<Mismatch> {
    if seq != expected_seq {
        Some(Mismatch::Sequence)
    } else if sender != ids.target@ {
        Some(Mismatch::Sender)
    } else if target != ids.sender@ {
        Some(Mismatch::Target)
    } else {
        None
    }
}

/// True when the two byte strings are equal.
pub fn bytes_eq(a: &[u8], b: &[u8]) -> (r: bool)
    ensures
        r == (a@ == b@),
{
    if a.len() != b.len() {
        return false;
    }
    let mut k: usize = 0;
    while k < a.len()
        invariant
            a@.len() == b@.len(),
            k <= a.len(),
            forall|j: int| 0 <= j < k ==> a@[j] == b@[j],
        decreases a.len() - k,
    {
        if a[k] != b[k] {
            return false;
        }
        k += 1;
    }
    assert(a@ =~= b@);
    true
}

/// The state of one session: the next sequence number to send, the next one
/// to expect, and the two identities.
pub struct FixClient {
    send_seq_num: u64,
    rcv_seq_num: u64,
    comp_ids: CompIds,
}

impl FixClient {
    /// The sequence number that the next outbound message gets.
    pub closed spec fn send_seq(&self) -> u64 {
        self.send_seq_num
    }

    /// The sequence number that the next inbound message must carry.
    pub closed spec fn rcv_seq(&self) -> u64 {
        self.rcv_seq_num
    }

    /// The identities that the session was made with.
    pub closed spec fn ids(&self) -> CompIds {
        self.comp_ids
    }

    /// A fresh session: both counters at 1.
    pub fn new(comp_ids: CompIds) -> (r: FixClient)
        ensures
            r.send_seq() == 1,
            r.rcv_seq() == 1,
            r.ids() == comp_ids,
    {
        FixClient { send_seq_num: 1, rcv_seq_num: 1, comp_ids }
    }

    /// The identities that the session was made with.
    pub fn comp_ids(&self) -> (r: &CompIds)
        ensures
            *r == self.ids(),
    {
        &self.comp_ids
    }

    /// The sequence number that the next outbound message gets, left in
    /// place.
    pub fn next_send_seq(&self) -> (r: u64)
        ensures
            r == self.send_seq(),
    {
        self.send_seq_num
    }

    /// The sequence number that the next inbound message must carry.
    pub fn expected_rcv_seq(&self) -> (r: u64)
        ensures
            r == self.rcv_seq(),
    {
        self.rcv_seq_num
    }

    /// Hands out the current outbound sequence number and moves the counter
    /// on by one.
    pub fn get_next_send_seq(&mut self) -> (seq: u64)
        requires
            old(self).send_seq() < u64::MAX,
        ensures
            seq == old(self).send_seq(),
            final(self).send_seq() == old(self).send_seq() + 1,
            final(self).rcv_seq() == old(self).rcv_seq(),
            final(self).ids() == old(self).ids(),
    {
        let seq = self.send_seq_num;
        self.send_seq_num += 1;
        seq
    }

    /// Holds a received header against the session: the sequence number
    /// first, then the sender, then the target. Only a header that passes
    /// all three moves the inbound counter on.
    pub fn validate_msg<T: FixHeader>(&mut self, m: &T) -> (r: Result<(), MessageValidationErr>)
        requires
            old(self).rcv_seq() < u64::MAX,
        ensures
            final(self).send_seq() == old(self).send_seq(),
            final(self).ids() == old(self).ids(),
            match r {
                Ok(_) => validation_failure(
                    old(self).rcv_seq(),
                    old(self).ids(),
                    m.seq_spec(),
                    m.sender_spec(),
                    m.target_spec(),
                ) is None && final(self).rcv_seq() == old(self).rcv_seq() + 1,
                Err(e) => final(self).rcv_seq() == old(self).rcv_seq() && match e {
                    MessageValidationErr::SeqNumOutOfOrder => validation_failure(
                        old(self).rcv_seq(),
                        old(self).ids(),
                        m.seq_spec(),
                        m.sender_spec(),
                        m.target_spec(),
                    ) == Some(Mismatch::Sequence),
                    MessageValidationErr::SenderMismatch(got) => validation_failure(
                        old(self).rcv_seq(),
                        old(self).ids(),
                        m.seq_spec(),
                        m.sender_spec(),
                        m.target_spec(),
                    ) == Some(Mismatch::Sender) && got@ == m.sender_spec(),
                    MessageValidationErr::TargetMismatch(got) => validation_failure(
                        old(self).rcv_seq(),
                        old(self).ids(),
                        m.seq_spec(),
                        m.sender_spec(),
                        m.target_spec(),
                    ) == Some(Mismatch::Target) && got@ == m.target_spec(),
                },
            },
    {
        if m.seq() != self.rcv_seq_num {
            Err(MessageValidationErr::SeqNumOutOfOrder)
        } else if !bytes_eq(m.sender(), self.comp_ids.target.as_slice()) {
            Err(MessageValidationErr::SenderMismatch(slice_to_vec(m.sender())))
        } else if !bytes_eq(m.target(), self.comp_ids.sender.as_slice()) {
            Err(MessageValidationErr::TargetMismatch(slice_to_vec(m.target())))
        } else {
            self.rcv_seq_num += 1;
            Ok(())
        }
    }
}

} // verus!
