//! The envelope parser: version, body length and message type.

use vstd::prelude::*;
use vstd::slice::slice_subrange;
use crate::checksum::{add_checksums, checksum_add};
use crate::error::ParseError;
use crate::field::{field_spec, parse_fix_field, FieldView, FixField};
use crate::numbers::{int_spec, parse_int};

verus! {

/// The tag of the protocol version, first in every message.
pub const VERSION_ID: u64 = 8;

/// The tag of the body length, second in every message.
pub const LENGTH_ID: u64 = 9;

/// The tag of the message type, third in every message.
pub const MSG_TYPE_ID: u64 = 35;

/// The width of the trailing checksum field: `10=`, three digits and the
/// delimiter.
pub const CHECKSUM_LENGTH: usize = 7;

/// A message after its three header fields were read.
pub struct MessageView {
    pub msg_type: Seq<u8>,
    pub body: Seq<u8>,
    pub header_checksum: int,
}

/// A message after its three header fields were read: its type, the bytes
/// that follow the header, and the checksum of the header.
#[derive(Debug, PartialEq, Eq)]
pub struct FixMessage<'a> {
    pub msg_type: &'a [u8],
    pub body: &'a [u8],
    pub header_checksum: u8,
}

impl<'a> View for FixMessage<'a> {
    type V = MessageView;

    open spec fn view(&self) -> MessageView {
        MessageView {
            msg_type: self.msg_type@,
            body: self.body@,
            header_checksum: self.header_checksum as int,
        }
    }
}

/// The header field with tag `id` at the start of `s`, and what follows it.
/// A header field is never the last thing in a message.
pub open spec fn header_field_spec(id: u64, s: Seq<u8>) -> Result<(FieldView, Seq<u8>), ParseError> {
    match field_spec(s) {
        Err(e) => Err(e),
        Ok(f) => if f.id != id {
            Err(ParseError::UnexpectedHeaderTag)
        } else if s.len() <= f.length {
            Err(ParseError::HeaderEndOfInput)
        } else {
            Ok((f, s.skip(f.length as int)))
        },
    }
}

/// The envelope of the message `s`: version, body length and message type in
/// this order, the declared length equal to what lies between the length
/// field and the checksum field.
#[verifier::opaque]
pub open spec fn message_spec(s: Seq<u8>) -> Result<MessageView, ParseError> {
    if s.len() == 0 {
        Err(ParseError::EmptyMessage)
    } else {
        match header_field_spec(VERSION_ID, s) {
            Err(e) => Err(e),
            Ok((version, after_version)) => match header_field_spec(LENGTH_ID, after_version) {
                Err(e) => Err(e),
                Ok((length, after_length)) => match int_spec(length.value) {
                    Err(e) => Err(e),
                    Ok(declared) => if declared + CHECKSUM_LENGTH != after_length.len() {
                        Err(ParseError::InvalidLength)
                    } else {
                        match header_field_spec(MSG_TYPE_ID, after_length) {
                            Err(e) => Err(e),
                            Ok((msg_type, body)) => Ok(
                                MessageView {
                                    msg_type: msg_type.value,
                                    body,
                                    header_checksum: checksum_add(
                                        checksum_add(version.checksum, length.checksum),
                                        msg_type.checksum,
                                    ),
                                },
                            ),
                        }
                    },
                },
            },
        }
    }
}

/// Reads one header field and checks its tag.
pub fn parse_header_field<'a>(id: u64, input: &'a [u8]) -> (r: Result<
    (FixField<'a>, &'a [u8]),
    ParseError,
>)
    ensures
        match r {
            Ok((f, rest)) => header_field_spec(id, input@) == Ok::<
                (FieldView, Seq<u8>),
                ParseError,
            >((f@, rest@)),
            Err(e) => header_field_spec(id, input@) == Err::<(FieldView, Seq<u8>), ParseError>(e),
        },
{
    match parse_fix_field(input) {
        Ok(field) => {
            if field.id != id {
                return Err(ParseError::UnexpectedHeaderTag);
            }
            if input.len() > field.length {
                let len = field.length;
                let rest = slice_subrange(input, len, input.len());
                assert(rest@ =~= input@.skip(len as int));
                Ok((field, rest))
            } else {
                Err(ParseError::HeaderEndOfInput)
            }
        },
        Err(e) => Err(e),
    }
}

/// Reads and checks the envelope of one message.
pub fn parse_fix_message<'a>(input: &'a [u8]) -> (r: Result<FixMessage<'a>, ParseError>)
    ensures
        match r {
            Ok(m) => message_spec(input@) == Ok::<MessageView, ParseError>(m@),
            Err(e) => message_spec(input@) == Err::<MessageView, ParseError>(e),
        },
{
    proof {
        reveal(message_spec);
    }
    if input.len() == 0 {
        return Err(ParseError::EmptyMessage);
    }
    let (version, input1) = match parse_header_field(VERSION_ID, input) {
        Ok(pair) => pair,
        Err(e) => {
            return Err(e);
        },
    };
    let (length, input2) = match parse_header_field(LENGTH_ID, input1) {
        Ok(pair) => pair,
        Err(e) => {
            return Err(e);
        },
    };
    let declared = match parse_int(length.value) {
        Ok(v) => v,
        Err(e) => {
            return Err(e);
        },
    };
    if declared as u128 + CHECKSUM_LENGTH as u128 != input2.len() as u128 {
        return Err(ParseError::InvalidLength);
    }
    let (msg_type, body) = match parse_header_field(MSG_TYPE_ID, input2) {
        Ok(pair) => pair,
        Err(e) => {
            return Err(e);
        },
    };
    Ok(
        FixMessage {
            msg_type: msg_type.value,
            body,
            header_checksum: add_checksums(
                add_checksums(version.checksum, length.checksum),
                msg_type.checksum,
            ),
        },
    )
}

} // verus!
