//! Scalar values: their kinds, their text on the wire, and the trusted
//! calls that read and write what this library does not define itself.

use vstd::prelude::*;
use vstd::slice::slice_to_vec;
use vstd::string::StringSliceAdditionalSpecFns;
use vstd::utf8::valid_utf8;
use crate::error::ParseError;
use crate::numbers::{
    byte_spec, decimal_text, parse_byte, parse_signed, parse_unsigned, push_decimal, push_signed,
    signed_spec, signed_text, unsigned_spec,
};
use crate::session::bytes_eq;

verus! {

/// A point in time without a zone: seconds since the start of 1970 and the
/// nanoseconds within the second.
#[derive(Clone, Copy, Debug, PartialEq, Eq, Structural)]
pub struct Timestamp {
    pub secs: i64,
    pub nanos: u32,
}

/// The point in time that chrono reads from the UTF-8 text `text` in the
/// form `YYYYMMDD-HH:MM:SS` with an optional fraction, if it reads one.
pub uninterp spec fn timestamp_of_text(text: Seq<u8>) -> Option<Timestamp>;

/// The text that chrono writes for a point in time in the form
/// `YYYYMMDD-HH:MM:SS.fff`, if it can represent the point.
pub uninterp spec fn text_of_timestamp(secs: i64, nanos: u32) -> Option<Seq<u8>>;

/// The point in time that the bytes `text` spell: they must be UTF-8, and
/// what chrono reads from them decides.
pub open spec fn timestamp_spec(text: Seq<u8>) -> Option<Timestamp> {
    if valid_utf8(text) {
        timestamp_of_text(text)
    } else {
        None
    }
}

/// Calls `core::str::from_utf8`, which accepts exactly the byte strings
/// that are well-formed UTF-8 and hands them back unchanged as a string
/// slice.
#[verifier::external_body]
fn utf8_text<'a>(bytes: &'a [u8]) -> (r: Option<&'a str>)
    ensures
        match r {
            Some(text) => valid_utf8(bytes@) && text.spec_bytes() == bytes@,
            None => !valid_utf8(bytes@),
        },
{
    core::str::from_utf8(bytes).ok()
}

/// Says whether the bytes are well-formed UTF-8.
pub fn is_utf8(bytes: &[u8]) -> (r: bool)
    ensures
        r == valid_utf8(bytes@),
{
    utf8_text(bytes).is_some()
}

/// Calls `chrono::NaiveDateTime::parse_from_str` with the format
/// `%Y%m%d-%H:%M:%S%.f` and hands back the seconds and nanoseconds of what
/// it read. The contract only names the result.
#[verifier::external_body]
fn parse_timestamp(text: &str) -> (r: Option<Timestamp>)
    ensures
        r == timestamp_of_text(text.spec_bytes()),
{
    let t = chrono::NaiveDateTime::parse_from_str(text, "%Y%m%d-%H:%M:%S%.f").ok()?;
    Some(Timestamp { secs: t.and_utc().timestamp(), nanos: t.and_utc().timestamp_subsec_nanos() })
}

/// Calls `chrono::DateTime::from_timestamp` and formats what it gives with
/// `%Y%m%d-%H:%M:%S%.3f`. The contract only names the result, which is
/// absent where chrono cannot represent the point.
#[verifier::external_body]
fn format_timestamp(t: Timestamp) -> (r: Option<Vec<u8>>)
    ensures
        match r {
            Some(text) => text_of_timestamp(t.secs, t.nanos) == Some(text@),
            None => text_of_timestamp(t.secs, t.nanos) is None,
        },
{
    let point = chrono::DateTime::from_timestamp(t.secs, t.nanos)?;
    Some(point.naive_utc().format("%Y%m%d-%H:%M:%S%.3f").to_string().into_bytes())
}

/// A scalar type that can be read from the value of a field.
pub trait FixParse: Sized {
    /// The value that `value` spells, if it spells one.
    spec fn parse_spec(value: Seq<u8>) -> Option<Self>;

    /// Reads the value of a field; a text that spells none is an invalid
    /// value.
    fn parse(value: &[u8]) -> (r: Result<Self, ParseError>)
        ensures
            match r {
                Ok(v) => Self::parse_spec(value@) == Some(v),
                Err(e) => e == ParseError::InvalidValue && Self::parse_spec(value@) is None,
            },
    ;
}

impl FixParse for u64 {
    open spec fn parse_spec(value: Seq<u8>) -> Option<u64> {
        unsigned_spec(value)
    }

    fn parse(value: &[u8]) -> (r: Result<u64, ParseError>) {
        match parse_unsigned(value) {
            Some(v) => Ok(v),
            None => Err(ParseError::InvalidValue),
        }
    }
}

impl FixParse for i64 {
    open spec fn parse_spec(value: Seq<u8>) -> Option<i64> {
        signed_spec(value)
    }

    fn parse(value: &[u8]) -> (r: Result<i64, ParseError>) {
        match parse_signed(value) {
            Some(v) => Ok(v),
            None => Err(ParseError::InvalidValue),
        }
    }
}

impl FixParse for u8 {
    open spec fn parse_spec(value: Seq<u8>) -> Option<u8> {
        byte_spec(value)
    }

    fn parse(value: &[u8]) -> (r: Result<u8, ParseError>) {
        match parse_byte(value) {
            Some(v) => Ok(v),
            None => Err(ParseError::InvalidValue),
        }
    }
}

impl FixParse for Timestamp {
    open spec fn parse_spec(value: Seq<u8>) -> Option<Timestamp> {
        timestamp_spec(value)
    }

    fn parse(value: &[u8]) -> (r: Result<Timestamp, ParseError>) {
        match utf8_text(value) {
            Some(text) => match parse_timestamp(text) {
                Some(v) => Ok(v),
                None => Err(ParseError::InvalidValue),
            },
            None => Err(ParseError::InvalidValue),
        }
    }
}

/// The kinds of scalar value that a field can carry. An enumerated code
/// lists its literal tokens; the value is the position of the token.
#[derive(Clone, Debug)]
pub enum ValueKind {
    UInt,
    Int,
    Char,
    Text,
    Decimal,
    Timestamp,
    Code(Vec<Vec<u8>>),
}

/// A scalar value of a typed message. A decimal keeps its text as it stood
/// on the wire.
#[derive(Clone, Debug, PartialEq)]
pub enum Value {
    UInt(u64),
    Int(i64),
    Char(u8),
    Text(Vec<u8>),
    Decimal(Vec<u8>),
    Timestamp(Timestamp),
    Code(usize),
}

/// A scalar value with its bytes as a sequence.
pub enum ValueView {
    UInt(u64),
    Int(i64),
    Char(u8),
    Text(Seq<u8>),
    Decimal(Seq<u8>),
    Timestamp(Timestamp),
    Code(usize),
}

impl View for Value {
    type V = ValueView;

    open spec fn view(&self) -> ValueView {
        match *self {
            Value::UInt(v) => ValueView::UInt(v),
            Value::Int(v) => ValueView::Int(v),
            Value::Char(c) => ValueView::Char(c),
            Value::Text(t) => ValueView::Text(t@),
            Value::Decimal(t) => ValueView::Decimal(t@),
            Value::Timestamp(t) => ValueView::Timestamp(t),
            Value::Code(i) => ValueView::Code(i),
        }
    }
}

/// The view of a value that may be absent.
pub open spec fn option_view(v: Option<Value>) -> Option<ValueView> {
    match v {
        Some(v) => Some(v@),
        None => None,
    }
}

/// The position at or after `from` of the first token equal to `text`.
pub open spec fn code_index(tokens: Seq<Vec<u8>>, text: Seq<u8>, from: int) -> Option<int>
    decreases tokens.len() - from,
{
    if from < 0 || from >= tokens.len() {
        None
    } else if tokens[from]@ == text {
        Some(from)
    } else {
        code_index(tokens, text, from + 1)
    }
}

/// The value of kind `kind` that `text` spells, if it spells one.
pub open spec fn parse_value_spec(kind: ValueKind, text: Seq<u8>) -> Option<ValueView> {
    match kind {
        ValueKind::UInt => match unsigned_spec(text) {
            Some(v) => Some(ValueView::UInt(v)),
            None => None,
        },
        ValueKind::Int => match signed_spec(text) {
            Some(v) => Some(ValueView::Int(v)),
            None => None,
        },
        ValueKind::Char => if text.len() == 1 && text[0] < 128 {
            Some(ValueView::Char(text[0]))
        } else {
            None
        },
        ValueKind::Text => if valid_utf8(text) {
            Some(ValueView::Text(text))
        } else {
            None
        },
        ValueKind::Decimal => Some(ValueView::Decimal(text)),
        ValueKind::Timestamp => match timestamp_spec(text) {
            Some(t) => Some(ValueView::Timestamp(t)),
            None => None,
        },
        ValueKind::Code(tokens) => match code_index(tokens@, text, 0) {
            Some(i) => Some(ValueView::Code(i as usize)),
            None => None,
        },
    }
}

/// The text of a value under its kind; none where the value is of another
/// kind, names no token, or is a time that cannot be written.
pub open spec fn render_value_spec(kind: ValueKind, v: ValueView) -> Option<Seq<u8>> {
    match (kind, v) {
        (ValueKind::UInt, ValueView::UInt(n)) => Some(decimal_text(n as nat)),
        (ValueKind::Int, ValueView::Int(n)) => Some(signed_text(n as int)),
        (ValueKind::Char, ValueView::Char(c)) => Some(seq![c]),
        (ValueKind::Text, ValueView::Text(t)) => Some(t),
        (ValueKind::Decimal, ValueView::Decimal(t)) => Some(t),
        (ValueKind::Timestamp, ValueView::Timestamp(t)) => text_of_timestamp(t.secs, t.nanos),
        (ValueKind::Code(tokens), ValueView::Code(i)) => if i < tokens@.len() {
            Some(tokens@[i as int]@)
        } else {
            None
        },
        _ => None,
    }
}

/// Finds the first token equal to `text`.
pub fn find_code(tokens: &Vec<Vec<u8>>, text: &[u8]) -> (r: Option<usize>)
    ensures
        match r {
            Some(i) => code_index(tokens@, text@, 0) == Some(i as int),
            None => code_index(tokens@, text@, 0) is None,
        },
{
    let mut k: usize = 0;
    while k < tokens.len()
        invariant
            k <= tokens.len(),
            code_index(tokens@, text@, 0) == code_index(tokens@, text@, k as int),
        decreases tokens.len() - k,
    {
        if bytes_eq(tokens[k].as_slice(), text) {
            return Some(k);
        }
        k += 1;
    }
    None
}

/// Reads `text` as a value of kind `kind`.
pub fn parse_value(kind: &ValueKind, text: &[u8]) -> (r: Option<Value>)
    ensures
        option_view(r) == parse_value_spec(*kind, text@),
{
    match kind {
        ValueKind::UInt => match u64::parse(text) {
            Ok(v) => Some(Value::UInt(v)),
            Err(_) => None,
        },
        ValueKind::Int => match i64::parse(text) {
            Ok(v) => Some(Value::Int(v)),
            Err(_) => None,
        },
        ValueKind::Char => {
            if text.len() == 1 && text[0] < 128 {
                Some(Value::Char(text[0]))
            } else {
                None
            }
        },
        ValueKind::Text => {
            if is_utf8(text) {
                Some(Value::Text(slice_to_vec(text)))
            } else {
                None
            }
        },
        ValueKind::Decimal => Some(Value::Decimal(slice_to_vec(text))),
        ValueKind::Timestamp => match Timestamp::parse(text) {
            Ok(t) => Some(Value::Timestamp(t)),
            Err(_) => None,
        },
        ValueKind::Code(tokens) => match find_code(tokens, text) {
            Some(i) => Some(Value::Code(i)),
            None => None,
        },
    }
}

/// Appends the text of `v` under `kind` to `out`, and says whether there was
/// a text to append.
pub fn render_value(kind: &ValueKind, v: &Value, out: &mut Vec<u8>) -> (ok: bool)
    ensures
        match render_value_spec(*kind, v@) {
            Some(text) => ok && final(out)@ == old(out)@ + text,
            None => !ok && final(out)@ == old(out)@,
        },
{
    match (kind, v) {
        (ValueKind::UInt, Value::UInt(n)) => {
            push_decimal(out, *n);
            true
        },
        (ValueKind::Int, Value::Int(n)) => {
            push_signed(out, *n);
            true
        },
        (ValueKind::Char, Value::Char(c)) => {
            out.push(*c);
            assert(final(out)@ =~= old(out)@ + seq![*c]);
            true
        },
        (ValueKind::Text, Value::Text(t)) => {
            out.extend_from_slice(t.as_slice());
            true
        },
        (ValueKind::Decimal, Value::Decimal(t)) => {
            out.extend_from_slice(t.as_slice());
            true
        },
        (ValueKind::Timestamp, Value::Timestamp(t)) => match format_timestamp(*t) {
            Some(text) => {
                out.extend_from_slice(text.as_slice());
                true
            },
            None => false,
        },
        (ValueKind::Code(tokens), Value::Code(i)) => {
            if *i < tokens.len() {
                out.extend_from_slice(tokens[*i].as_slice());
                true
            } else {
                false
            }
        },
        _ => false,
    }
}

} // verus!
