//! The connection loop as decisions: the messages in a buffer, the handler
//! that a message goes to, and the command that follows each event.

use vstd::prelude::*;
use vstd::slice::slice_subrange;
use crate::decode::{decode_body_spec, deserialize_from_fix};
use crate::error::ParseError;
use crate::message::{message_spec, parse_fix_message, MessageView};
use crate::schema::{Record, Schema, SlotView};
use crate::session::bytes_eq;

verus! {

/// Seconds to wait before a new connection attempt.
pub const BACKOFF_SECS: u64 = 10;

/// Nanoseconds to yield at the end of every round.
pub const TICK_NANOS: u32 = 1000;

/// From the start of the checksum marker to the end of a message: the
/// marker's delimiter, `10=`, three digits and the closing delimiter.
pub const FRAME_TAIL: usize = 8;

/// The bytes that announce the checksum field: the delimiter of the field
/// before it, then `10=`.
pub open spec fn marker() -> Seq<u8> {
    seq![1u8, 49u8, 48u8, 61u8]
}

/// The first place at or after `from` where `needle` stands in `haystack`.
pub open spec fn find_from(haystack: Seq<u8>, needle: Seq<u8>, from: int) -> Option<int>
    decreases haystack.len() - from,
{
    if from < 0 || from >= haystack.len() || from + needle.len() > haystack.len() {
        None
    } else if haystack.subrange(from, from + needle.len()) == needle {
        Some(from)
    } else {
        find_from(haystack, needle, from + 1)
    }
}

/// The end of the message that starts at `begin`: eight bytes behind the
/// first checksum marker, if the buffer reaches that far.
pub open spec fn frame_end(buf: Seq<u8>, begin: int) -> Option<int> {
    if 0 <= begin <= buf.len() {
        match find_from(buf.skip(begin), marker(), 0) {
            Some(pos) => if begin + pos + FRAME_TAIL <= buf.len() {
                Some(begin + pos + FRAME_TAIL)
            } else {
                None
            },
            None => None,
        }
    } else {
        None
    }
}

/// The messages in `buf` from `begin` on, each as its start and end.
pub open spec fn frames_from(buf: Seq<u8>, begin: int) -> Seq<(int, int)>
    decreases buf.len() - begin,
{
    match frame_end(buf, begin) {
        Some(end) => if begin < end {
            seq![(begin, end)] + frames_from(buf, end)
        } else {
            Seq::empty()
        },
        None => Seq::empty(),
    }
}

/// Finds the first place where `needle` stands in `haystack`.
pub fn find_subsequence(haystack: &[u8], needle: &[u8]) -> (r: Option<usize>)
    requires
        needle@.len() > 0,
    ensures
        match r {
            Some(i) => find_from(haystack@, needle@, 0) == Some(i as int) && i + needle@.len()
                <= haystack@.len(),
            None => find_from(haystack@, needle@, 0) is None,
        },
{
    let n = needle.len();
    if haystack.len() < n {
        return None;
    }
    let last: usize = haystack.len() - n;
    let mut i: usize = 0;
    while i <= last
        invariant
            n == needle@.len(),
            n > 0,
            haystack@.len() <= usize::MAX,
            last + n == haystack@.len(),
            i <= last + 1,
            find_from(haystack@, needle@, 0) == find_from(haystack@, needle@, i as int),
        decreases last + 1 - i,
    {
        if bytes_eq(slice_subrange(haystack, i, i + n), needle) {
            return Some(i);
        }
        i += 1;
    }
    None
}

/// The end of the message that starts at `begin` in `buf`.
pub fn next_frame_end(buf: &[u8], begin: usize) -> (r: Option<usize>)
    requires
        begin <= buf@.len(),
    ensures
        match r {
            Some(end) => frame_end(buf@, begin as int) == Some(end as int) && begin < end
                <= buf@.len(),
            None => frame_end(buf@, begin as int) is None,
        },
{
    let rest = slice_subrange(buf, begin, buf.len());
    assert(rest@ =~= buf@.skip(begin as int));
    let needle: [u8; 4] = [1, 49, 48, 61];
    assert(needle@ =~= marker());
    match find_subsequence(rest, needle.as_slice()) {
        Some(pos) => {
            if rest.len() - pos >= FRAME_TAIL {
                Some(begin + pos + FRAME_TAIL)
            } else {
                None
            }
        },
        None => None,
    }
}

/// Cuts the buffer into messages: each ends eight bytes behind a checksum
/// marker, and the next starts where the one before ended. Bytes behind the
/// last whole message are left out.
pub fn split_frames(buf: &[u8]) -> (r: Vec<(usize, usize)>)
    ensures
        r@.len() == frames_from(buf@, 0).len(),
        forall|k: int|
            0 <= k < r@.len() ==> (#[trigger] r@[k]).0 as int == frames_from(buf@, 0)[k].0
                && r@[k].1 as int == frames_from(buf@, 0)[k].1 && r@[k].0 < r@[k].1
                <= buf@.len(),
{
    let mut out: Vec<(usize, usize)> = Vec::new();
    let mut begin: usize = 0;
    let ghost mut done: Seq<(int, int)> = Seq::empty();
    assert(done + frames_from(buf@, 0) =~= frames_from(buf@, 0));
    loop
        invariant
            begin <= buf@.len(),
            out@.len() == done.len(),
            forall|k: int|
                0 <= k < out@.len() ==> (#[trigger] out@[k]).0 as int == done[k].0 && out@[k].1 as int
                    == done[k].1 && out@[k].0 < out@[k].1 <= buf@.len(),
            frames_from(buf@, 0) == done + frames_from(buf@, begin as int),
        decreases buf@.len() - begin,
    {
        match next_frame_end(buf, begin) {
            Some(end) => {
                out.push((begin, end));
                proof {
                    let tail = frames_from(buf@, end as int);
                    assert(done + (seq![(begin as int, end as int)] + tail) =~= done.push(
                        (begin as int, end as int),
                    ) + tail);
                    done = done.push((begin as int, end as int));
                }
                begin = end;
            },
            None => {
                assert(done + Seq::<(int, int)>::empty() =~= done);
                return out;
            },
        }
    }
}

/// The first schema at or after `from` whose type code is `msg_type`.
pub open spec fn find_schema(schemas: Seq<Schema>, msg_type: Seq<u8>, from: int) -> Option<int>
    decreases schemas.len() - from,
{
    if from < 0 || from >= schemas.len() {
        None
    } else if schemas[from].msg_type@ == msg_type {
        Some(from)
    } else {
        find_schema(schemas, msg_type, from + 1)
    }
}

/// What a set of schemas makes of a message: the first schema with the
/// message's type code decodes it; without one the type is unknown.
pub open spec fn decode_any_spec(schemas: Seq<Schema>, input: Seq<u8>) -> Result<
    (int, Seq<SlotView>),
    ParseError,
> {
    match message_spec(input) {
        Err(e) => Err(e),
        Ok(m) => match find_schema(schemas, m.msg_type, 0) {
            None => Err(ParseError::UnknownMessageType),
            Some(i) => match decode_body_spec(schemas[i], m) {
                Err(e) => Err(e),
                Ok(slots) => Ok((i, slots)),
            },
        },
    }
}

/// Decodes a message under the first schema of the set that carries its
/// type code, and says which schema that was.
pub fn deserialize_any(schemas: &Vec<Schema>, input: &[u8]) -> (r: Result<
    (usize, Record),
    ParseError,
>)
    ensures
        match r {
            Ok((i, record)) => decode_any_spec(schemas@, input@) == Ok::<
                (int, Seq<SlotView>),
                ParseError,
            >((i as int, record@)) && i < schemas@.len(),
            Err(e) => decode_any_spec(schemas@, input@) == Err::<(int, Seq<SlotView>), ParseError>(
                e,
            ),
        },
{
    let msg = match parse_fix_message(input) {
        Ok(m) => m,
        Err(e) => {
            return Err(e);
        },
    };
    let mut k: usize = 0;
    while k < schemas.len()
        invariant
            k <= schemas.len(),
            message_spec(input@) == Ok::<MessageView, ParseError>(msg@),
            find_schema(schemas@, msg@.msg_type, 0) == find_schema(schemas@, msg@.msg_type, k as int),
        decreases schemas.len() - k,
    {
        if bytes_eq(schemas[k].msg_type.as_slice(), msg.msg_type) {
            return match deserialize_from_fix(&schemas[k], msg) {
                Ok(record) => Ok((k, record)),
                Err(e) => Err(e),
            };
        }
        k += 1;
    }
    Err(ParseError::UnknownMessageType)
}

/// Where a received message goes.
#[derive(Debug, PartialEq)]
pub enum Dispatch {
    /// A session message: the schema that decoded it, and the message.
    Session(usize, Record),
    /// An application message: the schema that decoded it, and the message.
    Application(usize, Record),
    /// Neither set decodes it; the error is that of the application set.
    Unrecognized(ParseError),
}

/// A dispatch with its message as a view.
pub enum DispatchView {
    Session(int, Seq<SlotView>),
    Application(int, Seq<SlotView>),
    Unrecognized(ParseError),
}

impl View for Dispatch {
    type V = DispatchView;

    open spec fn view(&self) -> DispatchView {
        match *self {
            Dispatch::Session(i, record) => DispatchView::Session(i as int, record@),
            Dispatch::Application(i, record) => DispatchView::Application(i as int, record@),
            Dispatch::Unrecognized(e) => DispatchView::Unrecognized(e),
        }
    }
}

/// Where a message goes: to the session handler if the session set decodes
/// it; if not, to the application handler if the application set does.
pub open spec fn classify_spec(sessions: Seq<Schema>, applications: Seq<Schema>, input: Seq<u8>)
    -> DispatchView {
    match decode_any_spec(sessions, input) {
        Ok((i, slots)) => DispatchView::Session(i, slots),
        Err(_) => match decode_any_spec(applications, input) {
            Ok((i, slots)) => DispatchView::Application(i, slots),
            Err(e) => DispatchView::Unrecognized(e),
        },
    }
}

/// Decodes a message against the session set first and the application set
/// second.
pub fn classify(sessions: &Vec<Schema>, applications: &Vec<Schema>, input: &[u8]) -> (r: Dispatch)
    ensures
        r@ == classify_spec(sessions@, applications@, input@),
{
    match deserialize_any(sessions, input) {
        Ok((i, record)) => Dispatch::Session(i, record),
        Err(_) => match deserialize_any(applications, input) {
            Ok((i, record)) => Dispatch::Application(i, record),
            Err(e) => Dispatch::Unrecognized(e),
        },
    }
}

/// Why a connection was given up.
#[derive(Clone, Copy, Debug, PartialEq, Eq, Structural)]
pub enum Reason {
    ConnectFailed,
    TransportFailed,
    Unrecognized,
    HandlerFailed,
}

/// Where one connection attempt stands.
#[derive(Clone, Copy, Debug, PartialEq, Eq, Structural)]
pub enum Phase {
    Connecting,
    Connected,
    Terminated(Reason),
}

/// What the outside reported of the last command.
#[derive(Clone, Copy, Debug, PartialEq, Eq, Structural)]
pub enum Event {
    /// The factory gave no connection.
    ConnectFailed,
    /// The factory gave a connection and a fresh handler.
    ConnectOk,
    /// The transport has nothing to read.
    WouldBlock,
    /// The transport failed in any other way.
    TransportError,
    /// Every message of the last read was decoded and handled.
    FramesHandled,
    /// A message of the last read was decoded by neither set.
    FrameUnrecognized,
    /// A handler gave a message up.
    HandlerFailed,
    /// The round's housekeeping is done.
    RoundDone,
    /// The backoff sleep is over.
    BackoffDone,
}

/// What the outside is to do next.
#[derive(Clone, Copy, Debug, PartialEq, Eq, Structural)]
pub enum Command {
    /// Ask the factory for a connection and a handler, with a fresh session.
    Connect,
    /// Poll the transport without blocking and dispatch what was read.
    Receive,
    /// Hand the handler at most one queued action if it is logged in, call
    /// its poll hook, and yield for the given nanoseconds.
    Housekeep(u32),
    /// Drop the connection and sleep for the given seconds.
    Backoff(u64),
}

/// The command that a phase repeats when nothing moved it on.
pub open spec fn standing_command(phase: Phase) -> Command {
    match phase {
        Phase::Connecting => Command::Connect,
        Phase::Connected => Command::Receive,
        Phase::Terminated(_) => Command::Backoff(BACKOFF_SECS),
    }
}

/// The phase and command that follow `event` in `phase`. An event that the
/// phase does not expect leaves the phase as it is.
pub open spec fn step_spec(phase: Phase, event: Event) -> (Phase, Command) {
    match (phase, event) {
        (Phase::Connecting, Event::ConnectOk) => (Phase::Connected, Command::Receive),
        (Phase::Connecting, Event::ConnectFailed) => (
            Phase::Terminated(Reason::ConnectFailed),
            Command::Backoff(BACKOFF_SECS),
        ),
        (Phase::Connected, Event::WouldBlock) => (Phase::Connected, Command::Housekeep(TICK_NANOS)),
        (Phase::Connected, Event::FramesHandled) => (
            Phase::Connected,
            Command::Housekeep(TICK_NANOS),
        ),
        (Phase::Connected, Event::RoundDone) => (Phase::Connected, Command::Receive),
        (Phase::Connected, Event::TransportError) => (
            Phase::Terminated(Reason::TransportFailed),
            Command::Backoff(BACKOFF_SECS),
        ),
        (Phase::Connected, Event::FrameUnrecognized) => (
            Phase::Terminated(Reason::Unrecognized),
            Command::Backoff(BACKOFF_SECS),
        ),
        (Phase::Connected, Event::HandlerFailed) => (
            Phase::Terminated(Reason::HandlerFailed),
            Command::Backoff(BACKOFF_SECS),
        ),
        (Phase::Terminated(_), Event::BackoffDone) => (Phase::Connecting, Command::Connect),
        _ => (phase, standing_command(phase)),
    }
}

/// One decision of the connection loop: the phase and the command that
/// follow what the outside reported.
pub fn fix_loop(phase: Phase, event: Event) -> (r: (Phase, Command))
    ensures
        r == step_spec(phase, event),
{
    match (phase, event) {
        (Phase::Connecting, Event::ConnectOk) => (Phase::Connected, Command::Receive),
        (Phase::Connecting, Event::ConnectFailed) => (
            Phase::Terminated(Reason::ConnectFailed),
            Command::Backoff(BACKOFF_SECS),
        ),
        (Phase::Connected, Event::WouldBlock) | (Phase::Connected, Event::FramesHandled) => (
            Phase::Connected,
            Command::Housekeep(TICK_NANOS),
        ),
        (Phase::Connected, Event::RoundDone) => (Phase::Connected, Command::Receive),
        (Phase::Connected, Event::TransportError) => (
            Phase::Terminated(Reason::TransportFailed),
            Command::Backoff(BACKOFF_SECS),
        ),
        (Phase::Connected, Event::FrameUnrecognized) => (
            Phase::Terminated(Reason::Unrecognized),
            Command::Backoff(BACKOFF_SECS),
        ),
        (Phase::Connected, Event::HandlerFailed) => (
            Phase::Terminated(Reason::HandlerFailed),
            Command::Backoff(BACKOFF_SECS),
        ),
        (Phase::Terminated(_), Event::BackoffDone) => (Phase::Connecting, Command::Connect),
        (Phase::Connecting, _) => (phase, Command::Connect),
        (Phase::Connected, _) => (phase, Command::Receive),
        (Phase::Terminated(_), _) => (phase, Command::Backoff(BACKOFF_SECS)),
    }
}

} // verus!
