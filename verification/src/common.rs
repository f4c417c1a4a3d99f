//! Readable test vectors as wire bytes.

use vstd::prelude::*;
use vstd::string::StringSliceAdditionalSpecFns;

verus! {

/// The byte that test vectors write in place of the delimiter, `|`.
pub const PIPE: u8 = 124;

/// A byte of a readable test vector as it goes on the wire.
pub open spec fn wire_byte(b: u8) -> u8 {
    if b == PIPE {
        1
    } else {
        b
    }
}

/// Turns a readable test vector into wire bytes: every `|` becomes the
/// delimiter, every other byte stays.
pub fn to_fix(s: &str) -> (r: Vec<u8>)
    ensures
        r@ == s.spec_bytes().map_values(|b: u8| wire_byte(b)),
{
    let bytes = s.as_bytes();
    let mut out: Vec<u8> = Vec::new();
    let mut k: usize = 0;
    while k < bytes.len()
        invariant
            k <= bytes.len(),
            out@.len() == k,
            forall|j: int| 0 <= j < k ==> out@[j] == wire_byte(#[trigger] bytes@[j]),
        decreases bytes.len() - k,
    {
        let b = bytes[k];
        out.push(if b == PIPE {
            1
        } else {
            b
        });
        k += 1;
    }
    assert(out@ =~= bytes@.map_values(|b: u8| wire_byte(b)));
    out
}

} // verus!
