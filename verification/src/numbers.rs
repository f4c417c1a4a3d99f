//! Decimal numbers as text: reading and writing them.

use vstd::prelude::*;
use vstd::slice::slice_subrange;
use crate::error::ParseError;
use crate::field::{decimal_value, is_digit, is_digit_byte};

verus! {

/// The ASCII plus sign.
pub const PLUS: u8 = 43;

/// The ASCII minus sign.
pub const MINUS: u8 = 45;

/// True when every byte of `s` is a digit.
pub open spec fn all_digits(s: Seq<u8>) -> bool {
    forall|i: int| 0 <= i < s.len() ==> is_digit(#[trigger] s[i])
}

/// The value of a run of digits without a sign, or the reason why `s` is
/// none that fits 64 bits.
pub open spec fn int_spec(s: Seq<u8>) -> Result<u64, ParseError> {
    if s.len() == 0 {
        Err(ParseError::EmptyInteger)
    } else if !all_digits(s) {
        Err(ParseError::InvalidDigit)
    } else if decimal_value(s) > u64::MAX {
        Err(ParseError::IntegerOutOfRange)
    } else {
        Ok(decimal_value(s) as u64)
    }
}

/// The shortest decimal text of `v`.
pub open spec fn decimal_text(v: nat) -> Seq<u8>
    decreases v,
{
    if v < 10 {
        seq![(48 + v) as u8]
    } else {
        decimal_text(v / 10).push((48 + v % 10) as u8)
    }
}

/// The decimal text of a signed number: a minus sign where it is negative.
pub open spec fn signed_text(v: int) -> Seq<u8> {
    if v < 0 {
        seq![MINUS] + decimal_text((-v) as nat)
    } else {
        decimal_text(v as nat)
    }
}

/// The digits of an unsigned number after an optional plus sign.
pub open spec fn unsigned_digits(s: Seq<u8>) -> Seq<u8> {
    if s.len() > 0 && s[0] == PLUS {
        s.skip(1)
    } else {
        s
    }
}

/// The unsigned number that `s` spells: an optional plus sign, then at least
/// one digit, the whole within 64 bits.
pub open spec fn unsigned_spec(s: Seq<u8>) -> Option<u64> {
    match int_spec(unsigned_digits(s)) {
        Ok(v) => Some(v),
        Err(_) => None,
    }
}

/// The signed number that `s` spells: an optional sign, then at least one
/// digit, the whole within 64 bits.
pub open spec fn signed_spec(s: Seq<u8>) -> Option<i64> {
    if s.len() > 0 && s[0] == MINUS {
        match int_spec(s.skip(1)) {
            Ok(m) => if m <= 0x8000_0000_0000_0000u64 {
                Some((-(m as int)) as i64)
            } else {
                None
            },
            Err(_) => None,
        }
    } else {
        match int_spec(unsigned_digits(s)) {
            Ok(m) => if m <= i64::MAX as u64 {
                Some(m as i64)
            } else {
                None
            },
            Err(_) => None,
        }
    }
}

/// The byte that `s` spells as an unsigned number, if it is at most 255.
pub open spec fn byte_spec(s: Seq<u8>) -> Option<u8> {
    match unsigned_spec(s) {
        Some(v) => if v <= 255 {
            Some(v as u8)
        } else {
            None
        },
        None => None,
    }
}

/// A checksum as the trailer shows it: three digits, padded with zeros.
pub open spec fn checksum_text(c: u8) -> Seq<u8> {
    seq![(48 + c / 100) as u8, (48 + (c / 10) % 10) as u8, (48 + c % 10) as u8]
}

/// The decimal text of a number is made of digits, at least one, and spells
/// that number.
pub proof fn lemma_decimal_text(v: nat)
    ensures
        decimal_text(v).len() > 0,
        all_digits(decimal_text(v)),
        decimal_value(decimal_text(v)) == v,
    decreases v,
{
    if v < 10 {
        let t = decimal_text(v);
        assert(t.drop_last() =~= Seq::<u8>::empty());
        assert(decimal_value(t.drop_last()) == 0);
    } else {
        lemma_decimal_text(v / 10);
        let t = decimal_text(v);
        assert(t.drop_last() =~= decimal_text(v / 10));
        assert(all_digits(t)) by {
            assert forall|i: int| 0 <= i < t.len() implies is_digit(#[trigger] t[i]) by {
                if i < t.len() - 1 {
                    assert(t[i] == decimal_text(v / 10)[i]);
                }
            }
        }
    }
}

/// Reading back the decimal text of an unsigned number gives the number.
pub proof fn lemma_unsigned_round_trip(v: u64)
    ensures
        unsigned_spec(decimal_text(v as nat)) == Some(v),
        int_spec(decimal_text(v as nat)) == Ok::<u64, ParseError>(v),
{
    lemma_decimal_text(v as nat);
    let t = decimal_text(v as nat);
    assert(is_digit(t[0]));
}

/// Reading back the decimal text of a signed number gives the number.
pub proof fn lemma_signed_round_trip(v: i64)
    ensures
        signed_spec(signed_text(v as int)) == Some(v),
{
    if v < 0 {
        let m = (-(v as int)) as nat;
        lemma_decimal_text(m);
        let t = signed_text(v as int);
        assert(t.skip(1) =~= decimal_text(m));
        assert(t[0] == MINUS);
    } else {
        lemma_decimal_text(v as nat);
        let t = decimal_text(v as nat);
        assert(is_digit(t[0]));
    }
}

/// Reading back the three digits of a checksum gives the checksum.
pub proof fn lemma_checksum_text_round_trip(c: u8)
    ensures
        byte_spec(checksum_text(c)) == Some(c),
        checksum_text(c).len() == 3,
        all_digits(checksum_text(c)),
{
    let t = checksum_text(c);
    let t2 = t.drop_last();
    let t1 = t2.drop_last();
    assert(t1.drop_last() =~= Seq::<u8>::empty());
    assert(decimal_value(t1.drop_last()) == 0);
    assert(decimal_value(t1) == c / 100);
    assert(decimal_value(t2) == 10 * (c / 100) + (c / 10) % 10);
    assert(decimal_value(t) == c);
    assert(is_digit(t[0]));
}

/// Reads a run of digits without a sign as a 64-bit number.
pub fn parse_int(value: &[u8]) -> (r: Result<u64, ParseError>)
    ensures
        r == int_spec(value@),
{
    let n = value.len();
    if n == 0 {
        return Err(ParseError::EmptyInteger);
    }
    let mut k: usize = 0;
    let mut acc: u64 = 0;
    let mut fits = true;
    while k < n
        invariant
            n == value@.len(),
            k <= n,
            forall|j: int| 0 <= j < k ==> is_digit(#[trigger] value@[j]),
            fits ==> acc as nat == decimal_value(value@.subrange(0, k as int)),
            !fits ==> decimal_value(value@.subrange(0, k as int)) > u64::MAX,
        decreases n - k,
    {
        let c = value[k];
        if !is_digit_byte(c) {
            return Err(ParseError::InvalidDigit);
        }
        proof {
            assert(value@.subrange(0, k + 1).drop_last() =~= value@.subrange(0, k as int));
        }
        if fits {
            let digit: u64 = (c - 48) as u64;
            match acc.checked_mul(10) {
                Some(tenfold) => match tenfold.checked_add(digit) {
                    Some(next) => {
                        acc = next;
                    },
                    None => {
                        fits = false;
                    },
                },
                None => {
                    fits = false;
                },
            }
        }
        k += 1;
    }
    proof {
        assert(value@.subrange(0, k as int) =~= value@);
    }
    if fits {
        Ok(acc)
    } else {
        Err(ParseError::IntegerOutOfRange)
    }
}

/// Reads an unsigned number with an optional plus sign.
pub fn parse_unsigned(value: &[u8]) -> (r: Option<u64>)
    ensures
        r == unsigned_spec(value@),
{
    let digits = if value.len() > 0 && value[0] == PLUS {
        slice_subrange(value, 1, value.len())
    } else {
        value
    };
    match parse_int(digits) {
        Ok(v) => Some(v),
        Err(_) => None,
    }
}

/// Reads a signed number with an optional sign.
pub fn parse_signed(value: &[u8]) -> (r: Option<i64>)
    ensures
        r == signed_spec(value@),
{
    if value.len() > 0 && value[0] == MINUS {
        match parse_int(slice_subrange(value, 1, value.len())) {
            Ok(m) => {
                if m < 0x8000_0000_0000_0000u64 {
                    Some(-(m as i64))
                } else if m == 0x8000_0000_0000_0000u64 {
                    Some(i64::MIN)
                } else {
                    None
                }
            },
            Err(_) => None,
        }
    } else {
        match parse_unsigned(value) {
            Some(m) => {
                if m <= 0x7fff_ffff_ffff_ffffu64 {
                    Some(m as i64)
                } else {
                    None
                }
            },
            None => None,
        }
    }
}

/// Reads an unsigned number of at most 255.
pub fn parse_byte(value: &[u8]) -> (r: Option<u8>)
    ensures
        r == byte_spec(value@),
{
    match parse_unsigned(value) {
        Some(v) => {
            if v <= 255 {
                Some(v as u8)
            } else {
                None
            }
        },
        None => None,
    }
}

/// Appends the shortest decimal text of `v` to `out`.
pub fn push_decimal(out: &mut Vec<u8>, v: u64)
    ensures
        final(out)@ == old(out)@ + decimal_text(v as nat),
    decreases v,
{
    if v < 10 {
        out.push(48 + v as u8);
        assert(final(out)@ =~= old(out)@ + decimal_text(v as nat));
    } else {
        push_decimal(out, v / 10);
        out.push(48 + (v % 10) as u8);
        assert(final(out)@ =~= old(out)@ + decimal_text(v as nat));
    }
}

/// Appends the decimal text of a signed number to `out`.
pub fn push_signed(out: &mut Vec<u8>, v: i64)
    ensures
        final(out)@ == old(out)@ + signed_text(v as int),
{
    if v < 0 {
        out.push(MINUS);
        let magnitude: u64 = if v == i64::MIN {
            0x8000_0000_0000_0000u64
        } else {
            (-v) as u64
        };
        push_decimal(out, magnitude);
        assert(final(out)@ =~= old(out)@ + signed_text(v as int));
    } else {
        push_decimal(out, v as u64);
    }
}

/// Appends the three digits of a checksum to `out`.
pub fn push_checksum(out: &mut Vec<u8>, c: u8)
    ensures
        final(out)@ == old(out)@ + checksum_text(c),
{
    out.push(48 + c / 100);
    out.push(48 + (c / 10) % 10);
    out.push(48 + c % 10);
    assert(final(out)@ =~= old(out)@ + checksum_text(c));
}

} // verus!
