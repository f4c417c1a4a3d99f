//! The checksum: the sum of the bytes of a message, wrapping at 256.

use vstd::prelude::*;

verus! {

/// The sum of the bytes of `s`.
pub open spec fn byte_sum(s: Seq<u8>) -> nat
    decreases s.len(),
{
    if s.len() == 0 {
        0
    } else {
        byte_sum(s.drop_last()) + s.last() as nat
    }
}

/// The byte sum of `s`, reduced modulo 256.
pub open spec fn checksum_spec(s: Seq<u8>) -> int {
    byte_sum(s) as int % 256
}

/// Sum of two checksums, wrapping at 256.
pub open spec fn checksum_add(a: int, b: int) -> int {
    (a + b) % 256
}

/// The byte sum of a concatenation is the sum of the byte sums.
pub proof fn lemma_byte_sum_concat(a: Seq<u8>, b: Seq<u8>)
    ensures
        byte_sum(a + b) == byte_sum(a) + byte_sum(b),
    decreases b.len(),
{
    if b.len() == 0 {
        assert(a + b =~= a);
    } else {
        lemma_byte_sum_concat(a, b.drop_last());
        assert((a + b).drop_last() =~= a + b.drop_last());
        assert((a + b).last() == b.last());
    }
}

/// A checksum always fits in one byte.
pub proof fn lemma_checksum_range(s: Seq<u8>)
    ensures
        0 <= checksum_spec(s) < 256,
{
}

/// The checksum of one more byte.
pub proof fn lemma_checksum_push(s: Seq<u8>, b: u8)
    ensures
        checksum_spec(s.push(b)) == checksum_add(checksum_spec(s), b as int),
{
    assert(s.push(b).drop_last() =~= s);
}

/// The checksum of a concatenation is the wrapping sum of the checksums of
/// its two parts.
pub proof fn lemma_checksum_concat(a: Seq<u8>, b: Seq<u8>)
    ensures
        checksum_spec(a + b) == checksum_add(checksum_spec(a), checksum_spec(b)),
{
    lemma_byte_sum_concat(a, b);
}

/// The checksum does not depend on the order in which two parts are joined.
pub proof fn lemma_checksum_commutes(a: Seq<u8>, b: Seq<u8>)
    ensures
        checksum_spec(a + b) == checksum_spec(b + a),
{
    lemma_byte_sum_concat(a, b);
    lemma_byte_sum_concat(b, a);
}

/// Joining three parts gives the same checksum however they are grouped.
pub proof fn lemma_checksum_associates(a: Seq<u8>, b: Seq<u8>, c: Seq<u8>)
    ensures
        checksum_spec((a + b) + c) == checksum_spec(a + (b + c)),
        checksum_add(checksum_add(checksum_spec(a), checksum_spec(b)), checksum_spec(c))
            == checksum_add(checksum_spec(a), checksum_add(checksum_spec(b), checksum_spec(c))),
{
    assert((a + b) + c =~= a + (b + c));
}

/// Replacing one byte changes the byte sum by the difference of the two.
pub proof fn lemma_byte_sum_update(s: Seq<u8>, i: int, b: u8)
    requires
        0 <= i < s.len(),
    ensures
        byte_sum(s.update(i, b)) == byte_sum(s) - s[i] + b,
    decreases s.len(),
{
    let t = s.update(i, b);
    if i == s.len() - 1 {
        assert(t.drop_last() =~= s.drop_last());
    } else {
        lemma_byte_sum_update(s.drop_last(), i, b);
        assert(t.drop_last() =~= s.drop_last().update(i, b));
    }
}

/// A single altered byte alters the checksum.
pub proof fn lemma_checksum_update(s: Seq<u8>, i: int, b: u8)
    requires
        0 <= i < s.len(),
        b != s[i],
    ensures
        checksum_spec(s.update(i, b)) != checksum_spec(s),
{
    lemma_byte_sum_update(s, i, b);
}

/// Wrapping sum of two checksum bytes.
pub fn add_checksums(a: u8, b: u8) -> (sum: u8)
    ensures
        sum as int == checksum_add(a as int, b as int),
{
    let wide: u16 = (a as u16 + b as u16) % 256;
    wide as u8
}

/// Byte-wise sum of `input`, wrapping at 256.
pub fn checksum(input: &[u8]) -> (sum: u8)
    ensures
        sum as int == checksum_spec(input@),
{
    let mut sum: u8 = 0;
    let mut k: usize = 0;
    while k < input.len()
        invariant
            k <= input.len(),
            sum as int == checksum_spec(input@.subrange(0, k as int)),
        decreases input.len() - k,
    {
        proof {
            assert(input@.subrange(0, k + 1) =~= input@.subrange(0, k as int).push(input@[k as int]));
            lemma_checksum_push(input@.subrange(0, k as int), input@[k as int]);
        }
        sum = add_checksums(sum, input[k]);
        k += 1;
    }
    proof {
        assert(input@.subrange(0, k as int) =~= input@);
    }
    sum
}

} // verus!
