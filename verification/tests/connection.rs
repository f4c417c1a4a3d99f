use profix::common::to_fix;
use profix::encode::frame_body;
use profix::error::ParseError;
use profix::fix_loop::{
    classify, deserialize_any, find_subsequence, fix_loop, next_frame_end, split_frames, Command,
    Dispatch, Event, Phase, Reason,
};
use profix::schema::{Entry, FieldSpec, Schema, Slot};
use profix::value::{Value, ValueKind};

fn schema(code: &[u8], tag: u64) -> Schema {
    Schema {
        msg_type: code.to_vec(),
        entries: vec![Entry::Scalar(FieldSpec { tag, kind: ValueKind::UInt, required: true })],
    }
}

#[test]
fn find_subsequence_gives_the_first_place() {
    assert_eq!(find_subsequence(b"abcabc", b"bc"), Some(1));
    assert_eq!(find_subsequence(b"abcabc", b"abcabc"), Some(0));
    assert_eq!(find_subsequence(b"abcabc", b"cb"), None);
    assert_eq!(find_subsequence(b"ab", b"abc"), None);
    assert_eq!(find_subsequence(b"", b"a"), None);
}

#[test]
fn buffer_is_cut_behind_each_checksum() {
    let one = to_fix("8=FIX.4.2|9=5|35=A|10=178|");
    let two = to_fix("8=FIX.4.2|9=10|35=A|34=1|10=123|");
    let mut buf = one.clone();
    buf.extend_from_slice(&two);
    buf.extend_from_slice(b"8=FIX.4.2\x019=5\x0135=A\x0110=1");
    let frames = split_frames(&buf);
    assert_eq!(frames, vec![(0, one.len()), (one.len(), one.len() + two.len())]);
    assert_eq!(&buf[frames[1].0..frames[1].1], &two[..]);
    assert_eq!(next_frame_end(&buf, 0), Some(one.len()));
    assert_eq!(next_frame_end(&buf, one.len() + two.len()), None);
    assert!(split_frames(b"no marker here").is_empty());
    assert!(split_frames(b"").is_empty());
}

#[test]
fn session_set_is_tried_first() {
    let sessions = vec![schema(b"A", 34)];
    let applications = vec![schema(b"A", 35), schema(b"D", 34)];
    let logon = frame_body(&to_fix("35=A|34=1|"));
    match classify(&sessions, &applications, &logon) {
        Dispatch::Session(0, record) => {
            assert_eq!(record.slots[0], Slot::Scalar(Value::UInt(1)))
        }
        other => panic!("{:?}", other),
    }
    let order = frame_body(&to_fix("35=D|34=2|"));
    match classify(&sessions, &applications, &order) {
        Dispatch::Application(1, record) => {
            assert_eq!(record.slots[0], Slot::Scalar(Value::UInt(2)))
        }
        other => panic!("{:?}", other),
    }
    let other = frame_body(&to_fix("35=X|34=2|"));
    assert_eq!(
        classify(&sessions, &applications, &other),
        Dispatch::Unrecognized(ParseError::UnknownMessageType)
    );
    let broken = frame_body(&to_fix("35=A|99=2|"));
    assert_eq!(
        classify(&sessions, &applications, &broken),
        Dispatch::Unrecognized(ParseError::MissingField)
    );
}

#[test]
fn first_schema_with_the_type_code_decodes() {
    let set = vec![schema(b"A", 34), schema(b"B", 34), schema(b"B", 35)];
    let msg = frame_body(&to_fix("35=B|34=9|"));
    let (index, record) = deserialize_any(&set, &msg).unwrap();
    assert_eq!(index, 1);
    assert_eq!(record.slots[0], Slot::Scalar(Value::UInt(9)));
    assert_eq!(deserialize_any(&set, b"").err(), Some(ParseError::EmptyMessage));
}

#[test]
fn connection_moves_through_its_phases() {
    assert_eq!(fix_loop(Phase::Connecting, Event::ConnectOk), (Phase::Connected, Command::Receive));
    assert_eq!(
        fix_loop(Phase::Connecting, Event::ConnectFailed),
        (Phase::Terminated(Reason::ConnectFailed), Command::Backoff(10))
    );
    assert_eq!(
        fix_loop(Phase::Connected, Event::WouldBlock),
        (Phase::Connected, Command::Housekeep(1000))
    );
    assert_eq!(
        fix_loop(Phase::Connected, Event::FramesHandled),
        (Phase::Connected, Command::Housekeep(1000))
    );
    assert_eq!(fix_loop(Phase::Connected, Event::RoundDone), (Phase::Connected, Command::Receive));
    assert_eq!(
        fix_loop(Phase::Connected, Event::TransportError),
        (Phase::Terminated(Reason::TransportFailed), Command::Backoff(10))
    );
    assert_eq!(
        fix_loop(Phase::Connected, Event::FrameUnrecognized),
        (Phase::Terminated(Reason::Unrecognized), Command::Backoff(10))
    );
    assert_eq!(
        fix_loop(Phase::Connected, Event::HandlerFailed),
        (Phase::Terminated(Reason::HandlerFailed), Command::Backoff(10))
    );
    assert_eq!(
        fix_loop(Phase::Terminated(Reason::HandlerFailed), Event::BackoffDone),
        (Phase::Connecting, Command::Connect)
    );
    assert_eq!(
        fix_loop(Phase::Connecting, Event::WouldBlock),
        (Phase::Connecting, Command::Connect)
    );
    assert_eq!(
        fix_loop(Phase::Terminated(Reason::Unrecognized), Event::ConnectOk),
        (Phase::Terminated(Reason::Unrecognized), Command::Backoff(10))
    );
}
