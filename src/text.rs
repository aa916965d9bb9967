//! Small string-building helpers over std that vstd leaves unspecified.

use vstd::prelude::*;

verus! {

/// Relies on `char::from_u32`: a code point below the surrogate range is a
/// valid scalar value and comes back as the character with that code.
#[verifier::external_body]
pub(crate) fn char_from_code(code: u32) -> (r: char)
    requires
        code < 0xD800,
    ensures
        r as u32 == code,
{
    char::from_u32(code).unwrap_or(' ')
}

/// Relies on `String::push`: appends one character at the end.
#[verifier::external_body]
pub(crate) fn push_char(s: &mut String, c: char)
    ensures
        final(s)@ == old(s)@.push(c),
{
    s.push(c)
}

} // verus!
