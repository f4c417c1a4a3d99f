//! The failures of reading a message.

use vstd::prelude::*;

verus! {

/// Every way in which reading a FIX message can fail.
#[derive(Clone, Copy, Debug, PartialEq, Eq, Structural)]
pub enum ParseError {
    /// The tokenizer was handed no bytes at all.
    EmptyField,
    /// The first byte of a field is not a decimal digit.
    InvalidInitialTagCharacter,
    /// The input ended while the tag was still being read.
    TagNotTerminated,
    /// A byte that is neither a digit nor `=` stands inside the tag.
    InvalidTagCharacter,
    /// The tag does not fit in 64 bits.
    TagOutOfRange,
    /// The input ended before the delimiter that closes the value.
    ValueNotTerminated,
    /// The message holds no bytes.
    EmptyMessage,
    /// A header field carries another tag than the one its place calls for.
    UnexpectedHeaderTag,
    /// Nothing follows a header field.
    HeaderEndOfInput,
    /// The declared body length differs from the bytes that follow.
    InvalidLength,
    /// An integer was asked for and the text is empty.
    EmptyInteger,
    /// An integer was asked for and a byte of the text is no digit.
    InvalidDigit,
    /// An integer was asked for and the digits exceed the target type.
    IntegerOutOfRange,
    /// A value does not have the shape its kind calls for.
    InvalidValue,
    /// A scalar or a group count occurs a second time.
    DuplicateField,
    /// A required scalar never occurred before the checksum field.
    MissingField,
    /// The checksum field disagrees with the bytes that precede it.
    ChecksumMismatch,
    /// The input ended before a checksum field was seen.
    EndBeforeChecksum,
    /// No schema of the set carries the message's type.
    UnknownMessageType,
}

} // verus!
