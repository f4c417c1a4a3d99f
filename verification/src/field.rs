//! The tokenizer: one `tag=value` field at a time.

use vstd::prelude::*;
use vstd::slice::slice_subrange;
use crate::checksum::{add_checksums, checksum_spec, lemma_checksum_push};
use crate::error::ParseError;

verus! {

/// The byte that closes every field.
pub const DELIMITER: u8 = 1;

/// The byte between a tag and its value, `=`.
pub const SEPARATOR: u8 = 61;

/// The tag of the trailing checksum field.
pub const CHECKSUM_ID: u64 = 10;

/// True of the ASCII digits.
pub open spec fn is_digit(b: u8) -> bool {
    48 <= b <= 57
}

/// The first index at or after `from` that holds no digit, or the length.
pub open spec fn digits_end(s: Seq<u8>, from: int) -> int
    decreases s.len() - from,
{
    if 0 <= from < s.len() && is_digit(s[from]) {
        digits_end(s, from + 1)
    } else {
        from
    }
}

/// The first index at or after `from` that holds `b`, or the length.
pub open spec fn find_byte(s: Seq<u8>, from: int, b: u8) -> int
    decreases s.len() - from,
{
    if 0 <= from < s.len() && s[from] != b {
        find_byte(s, from + 1, b)
    } else {
        from
    }
}

/// The number that the digits of `s` spell in base ten.
pub open spec fn decimal_value(s: Seq<u8>) -> nat
    decreases s.len(),
{
    if s.len() == 0 {
        0
    } else {
        (10 * decimal_value(s.drop_last()) + (s.last() - 48)) as nat
    }
}

/// One `tag=value` unit as the tokenizer reports it.
pub struct FieldView {
    pub id: u64,
    pub value: Seq<u8>,
    pub length: nat,
    pub checksum: int,
}

/// What the tokenizer makes of `s`: the field at its start, or the reason
/// why there is none.
#[verifier::opaque]
pub open spec fn field_spec(s: Seq<u8>) -> Result<FieldView, ParseError> {
    let e = digits_end(s, 0);
    let d = find_byte(s, e + 1, DELIMITER);
    if s.len() == 0 {
        Err(ParseError::EmptyField)
    } else if e == 0 {
        Err(ParseError::InvalidInitialTagCharacter)
    } else if e >= s.len() {
        Err(ParseError::TagNotTerminated)
    } else if s[e] != SEPARATOR {
        Err(ParseError::InvalidTagCharacter)
    } else if decimal_value(s.subrange(0, e)) > u64::MAX {
        Err(ParseError::TagOutOfRange)
    } else if d >= s.len() {
        Err(ParseError::ValueNotTerminated)
    } else {
        Ok(
            FieldView {
                id: decimal_value(s.subrange(0, e)) as u64,
                value: s.subrange(e + 1, d),
                length: (d + 1) as nat,
                checksum: checksum_spec(s.subrange(0, d + 1)),
            },
        )
    }
}

/// One `tag=value` unit, its value borrowed from the input.
#[derive(Debug, PartialEq, Eq)]
pub struct FixField<'a> {
    pub id: u64,
    pub value: &'a [u8],
    pub length: usize,
    pub checksum: u8,
}

impl<'a> View for FixField<'a> {
    type V = FieldView;

    open spec fn view(&self) -> FieldView {
        FieldView {
            id: self.id,
            value: self.value@,
            length: self.length as nat,
            checksum: self.checksum as int,
        }
    }
}

/// `digits_end` does not move while only digits are passed.
pub proof fn lemma_digits_end_step(s: Seq<u8>, from: int, k: int)
    requires
        0 <= from <= k <= s.len(),
        forall|j: int| from <= j < k ==> is_digit(#[trigger] s[j]),
    ensures
        digits_end(s, from) == digits_end(s, k),
    decreases k - from,
{
    if from < k {
        lemma_digits_end_step(s, from + 1, k);
    }
}

/// `find_byte` does not move while the byte is not met.
pub proof fn lemma_find_byte_step(s: Seq<u8>, from: int, k: int, b: u8)
    requires
        0 <= from <= k <= s.len(),
        forall|j: int| from <= j < k ==> #[trigger] s[j] != b,
    ensures
        find_byte(s, from, b) == find_byte(s, k, b),
    decreases k - from,
{
    if from < k {
        lemma_find_byte_step(s, from + 1, k, b);
    }
}

/// `find_byte` never goes back and never passes the end.
pub proof fn lemma_find_byte_bounds(s: Seq<u8>, from: int, b: u8)
    requires
        0 <= from,
    ensures
        from <= find_byte(s, from, b),
        from <= s.len() ==> find_byte(s, from, b) <= s.len(),
    decreases s.len() - from,
{
    if from < s.len() && s[from] != b {
        lemma_find_byte_bounds(s, from + 1, b);
    }
}

/// `digits_end` never goes back and never passes the end.
pub proof fn lemma_digits_end_bounds(s: Seq<u8>, from: int)
    requires
        0 <= from,
    ensures
        from <= digits_end(s, from),
        from <= s.len() ==> digits_end(s, from) <= s.len(),
    decreases s.len() - from,
{
    if from < s.len() && is_digit(s[from]) {
        lemma_digits_end_bounds(s, from + 1);
    }
}

/// A field that was read is at least three bytes long, lies within the
/// input, and is two bytes longer than its tag and value together.
pub proof fn lemma_field_bounds(s: Seq<u8>)
    requires
        field_spec(s) is Ok,
    ensures
        3 <= field_spec(s)->Ok_0.length <= s.len(),
        field_spec(s)->Ok_0.value.len() + 2 <= field_spec(s)->Ok_0.length,
{
    reveal(field_spec);
    lemma_digits_end_bounds(s, 0);
    lemma_find_byte_bounds(s, digits_end(s, 0) + 1, DELIMITER);
}

/// True of the ASCII digits.
pub fn is_digit_byte(b: u8) -> (r: bool)
    ensures
        r == is_digit(b),
{
    48 <= b && b <= 57
}

/// Reads the field at the start of `input`: the digits of the tag up to `=`,
/// then the value up to the delimiter.
pub fn parse_fix_field<'a>(input: &'a [u8]) -> (r: Result<FixField<'a>, ParseError>)
    ensures
        match r {
            Ok(f) => field_spec(input@) == Ok::<FieldView, ParseError>(f@),
            Err(e) => field_spec(input@) == Err::<FieldView, ParseError>(e),
        },
{
    proof {
        reveal(field_spec);
    }
    let n = input.len();
    if n == 0 {
        return Err(ParseError::EmptyField);
    }
    let mut k: usize = 0;
    let mut id: u64 = 0;
    let mut fits = true;
    let mut sum: u8 = 0;
    while k < n && is_digit_byte(input[k])
        invariant
            n == input@.len(),
            k <= n,
            forall|j: int| 0 <= j < k ==> is_digit(#[trigger] input@[j]),
            fits ==> id as nat == decimal_value(input@.subrange(0, k as int)),
            !fits ==> decimal_value(input@.subrange(0, k as int)) > u64::MAX,
            sum as int == checksum_spec(input@.subrange(0, k as int)),
        decreases n - k,
    {
        let c = input[k];
        proof {
            assert(input@.subrange(0, k + 1).drop_last() =~= input@.subrange(0, k as int));
            assert(input@.subrange(0, k + 1) =~= input@.subrange(0, k as int).push(c));
            lemma_checksum_push(input@.subrange(0, k as int), c);
        }
        if fits {
            let digit: u64 = (c - 48) as u64;
            match id.checked_mul(10) {
                Some(tenfold) => match tenfold.checked_add(digit) {
                    Some(next) => {
                        id = next;
                    },
                    None => {
                        fits = false;
                    },
                },
                None => {
                    fits = false;
                },
            }
        }
        sum = add_checksums(sum, c);
        k += 1;
    }
    proof {
        lemma_digits_end_step(input@, 0, k as int);
    }
    if k == 0 {
        return Err(ParseError::InvalidInitialTagCharacter);
    }
    if k >= n {
        return Err(ParseError::TagNotTerminated);
    }
    if input[k] != SEPARATOR {
        return Err(ParseError::InvalidTagCharacter);
    }
    if !fits {
        return Err(ParseError::TagOutOfRange);
    }
    let start: usize = k + 1;
    proof {
        assert(input@.subrange(0, k + 1) =~= input@.subrange(0, k as int).push(SEPARATOR));
        lemma_checksum_push(input@.subrange(0, k as int), SEPARATOR);
    }
    sum = add_checksums(sum, SEPARATOR);
    let mut d: usize = start;
    while d < n && input[d] != DELIMITER
        invariant
            n == input@.len(),
            start <= d <= n,
            forall|j: int| start <= j < d ==> #[trigger] input@[j] != DELIMITER,
            sum as int == checksum_spec(input@.subrange(0, d as int)),
        decreases n - d,
    {
        proof {
            assert(input@.subrange(0, d + 1) =~= input@.subrange(0, d as int).push(input@[d as int]));
            lemma_checksum_push(input@.subrange(0, d as int), input@[d as int]);
        }
        sum = add_checksums(sum, input[d]);
        d += 1;
    }
    proof {
        lemma_find_byte_step(input@, start as int, d as int, DELIMITER);
    }
    if d >= n {
        return Err(ParseError::ValueNotTerminated);
    }
    proof {
        assert(input@.subrange(0, d + 1) =~= input@.subrange(0, d as int).push(DELIMITER));
        lemma_checksum_push(input@.subrange(0, d as int), DELIMITER);
    }
    sum = add_checksums(sum, DELIMITER);
    Ok(FixField { id, value: slice_subrange(input, start, d), length: d + 1, checksum: sum })
}

} // verus!
