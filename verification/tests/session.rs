use profix::session::{CompIds, FixClient, FixHeader, HandleErr, Header, MessageValidationErr};

fn ids() -> CompIds {
    CompIds { sender: b"server".to_vec(), target: b"client".to_vec() }
}

fn header(seq: u64, sender: &[u8], target: &[u8]) -> Header {
    Header { seq, sender: sender.to_vec(), target: target.to_vec() }
}

#[test]
fn outbound_sequence_starts_at_one_and_counts_up() {
    let mut client = FixClient::new(ids());
    assert_eq!(client.get_next_send_seq(), 1);
    assert_eq!(client.get_next_send_seq(), 2);
    assert_eq!(client.get_next_send_seq(), 3);
    assert_eq!(client.expected_rcv_seq(), 1);
}

#[test]
fn first_inbound_message_must_carry_sequence_one() {
    let mut client = FixClient::new(ids());
    let r = client.validate_msg(&header(2, b"client", b"server"));
    assert!(matches!(r, Err(MessageValidationErr::SeqNumOutOfOrder)));
    assert_eq!(client.expected_rcv_seq(), 1);
    assert!(client.validate_msg(&header(1, b"client", b"server")).is_ok());
    assert_eq!(client.expected_rcv_seq(), 2);
    assert!(client.validate_msg(&header(2, b"client", b"server")).is_ok());
    assert_eq!(client.expected_rcv_seq(), 3);
}

#[test]
fn sender_is_checked_before_target() {
    let mut client = FixClient::new(ids());
    match client.validate_msg(&header(1, b"other", b"nobody")) {
        Err(MessageValidationErr::SenderMismatch(got)) => assert_eq!(got, b"other".to_vec()),
        other => panic!("{:?}", other),
    }
    match client.validate_msg(&header(1, b"client", b"nobody")) {
        Err(MessageValidationErr::TargetMismatch(got)) => assert_eq!(got, b"nobody".to_vec()),
        other => panic!("{:?}", other),
    }
    assert_eq!(client.expected_rcv_seq(), 1);
}

#[test]
fn sequence_is_checked_before_identity() {
    let mut client = FixClient::new(ids());
    let r = client.validate_msg(&header(7, b"other", b"nobody"));
    assert!(matches!(r, Err(MessageValidationErr::SeqNumOutOfOrder)));
}

#[test]
fn header_hands_out_its_parts() {
    let h = header(4, b"a", b"b");
    assert_eq!(h.seq(), 4);
    assert_eq!(h.sender(), b"a");
    assert_eq!(h.target(), b"b");
    let client = FixClient::new(ids());
    assert_eq!(client.comp_ids().sender, b"server".to_vec());
    assert_eq!(client.comp_ids().target, b"client".to_vec());
}

#[test]
fn validation_failure_wraps_into_handle_error() {
    let e = HandleErr::from(MessageValidationErr::SeqNumOutOfOrder);
    assert!(matches!(e, HandleErr::MessageValidationErr(MessageValidationErr::SeqNumOutOfOrder)));
}
