//! Byte classifiers for the primitive parsers.

use vstd::prelude::*;

verus! {

/// An ASCII letter: `A` to `Z` or `a` to `z`.
pub open spec fn ascii_alpha(b: u8) -> bool {
    (0x41 <= b && b <= 0x5a) || (0x61 <= b && b <= 0x7a)
}

/// An ASCII decimal digit: `0` to `9`.
pub open spec fn ascii_digit(b: u8) -> bool {
    0x30 <= b && b <= 0x39
}

#[verifier::when_used_as_spec(ascii_alpha)]
pub fn is_alpha(b: u8) -> (r: bool)
    ensures
        r == ascii_alpha(b),
{
    (0x41 <= b && b <= 0x5a) || (0x61 <= b && b <= 0x7a)
}

#[verifier::when_used_as_spec(ascii_digit)]
pub fn is_digit(b: u8) -> (r: bool)
    ensures
        r == ascii_digit(b),
{
    0x30 <= b && b <= 0x39
}

} // verus!
