use profix::checksum::checksum;
use profix::common::to_fix;
use profix::error::ParseError;
use profix::message::{parse_fix_message, FixMessage};

#[test]
fn message_test_header() {
    let msg = to_fix("8=FIX.4.2|9=10|35=A|34=1|10=123|");
    let result = parse_fix_message(&msg);
    assert_eq!(
        result,
        Ok(FixMessage {
            msg_type: b"A",
            body: &to_fix("34=1|10=123|"),
            header_checksum: checksum(&to_fix("8=FIX.4.2|9=10|35=A|")),
        })
    );
}

#[test]
fn message_test_error_empty() {
    assert!(parse_fix_message(&to_fix("")).is_err());
}

#[test]
fn message_test_error_no_length() {
    assert!(parse_fix_message(&to_fix("8=FIX.4.2|")).is_err());
}

#[test]
fn message_test_error_invalid_length() {
    assert!(parse_fix_message(&to_fix("8=FIX.4.2|9=5|35=A|10=123|")).is_ok());
    assert!(parse_fix_message(&to_fix("8=FIX.4.2|9=6|35=A|10=123|")).is_err());
}

#[test]
fn message_test_error_no_body() {
    assert!(parse_fix_message(&to_fix("8=FIX.4.2|9=166|35=A|")).is_err());
}

#[test]
fn message_test_error_different_order() {
    assert!(parse_fix_message(&to_fix("9=5|8=FIX.4.2|35=A|10=111|")).is_err());
}

#[test]
fn message_test_error_weird_field() {
    assert!(parse_fix_message(&to_fix("8=FIX.4.2|3=5|9=5|35=A|10=111|")).is_err());
}

#[test]
fn parsing_test_header() {
    let msg = to_fix("8=FIX.4.2|9=10|35=A|34=1|10=123|");
    let result = parse_fix_message(&msg);
    assert_eq!(
        result,
        Ok(FixMessage {
            msg_type: b"A",
            body: &to_fix("34=1|10=123|"),
            header_checksum: checksum(&to_fix("8=FIX.4.2|9=10|35=A|")),
        })
    );
}

#[test]
fn parsing_test_error_empty() {
    assert!(parse_fix_message(&to_fix("")).is_err());
}

#[test]
fn parsing_test_error_no_length() {
    assert!(parse_fix_message(&to_fix("8=FIX.4.2|")).is_err());
}

#[test]
fn parsing_test_error_no_body() {
    assert!(parse_fix_message(&to_fix("8=FIX.4.2|9=166|35=A|")).is_err());
}

#[test]
fn parsing_test_error_different_order() {
    assert!(parse_fix_message(&to_fix("9=5|8=FIX.4.2|35=A|10=111|")).is_err());
}

#[test]
fn parsing_test_error_weird_field() {
    assert!(parse_fix_message(&to_fix("8=FIX.4.2|3=5|9=5|35=A|10=111|")).is_err());
}

#[test]
fn envelope_names_each_failure() {
    assert_eq!(parse_fix_message(b""), Err(ParseError::EmptyMessage));
    assert_eq!(
        parse_fix_message(&to_fix("9=5|8=FIX.4.2|35=A|10=111|")),
        Err(ParseError::UnexpectedHeaderTag)
    );
    assert_eq!(parse_fix_message(&to_fix("8=FIX.4.2|")), Err(ParseError::HeaderEndOfInput));
    assert_eq!(
        parse_fix_message(&to_fix("8=FIX.4.2|9=6|35=A|10=123|")),
        Err(ParseError::InvalidLength)
    );
    assert_eq!(
        parse_fix_message(&to_fix("8=FIX.4.2|9=x|35=A|10=123|")),
        Err(ParseError::InvalidDigit)
    );
    assert_eq!(
        parse_fix_message(&to_fix("8=FIX.4.2|9=|35=A|10=123|")),
        Err(ParseError::EmptyInteger)
    );
    assert_eq!(
        parse_fix_message(&to_fix("8=FIX.4.2|9=99999999999999999999|35=A|10=123|")),
        Err(ParseError::IntegerOutOfRange)
    );
    assert_eq!(
        parse_fix_message(&to_fix("8=FIX.4.2|9=5|35=A")),
        Err(ParseError::InvalidLength)
    );
}

#[test]
fn parsing_test_error_invalid_length() {
    assert!(parse_fix_message(&to_fix("8=FIX.4.2|9=5|35=A|10=123|")).is_ok());
    assert!(parse_fix_message(&to_fix("8=FIX.4.2|9=6|35=A|10=123|")).is_err());
}
