//! Small helpers around `String` and `char` shared by the codecs.

use vstd::prelude::*;

verus! {

/// Appends the character `c` to `out`.
///
/// Relies on `String::push`: it appends exactly the one character.
#[verifier::external_body]
pub(crate) fn push_char(out: &mut String, c: char)
    ensures
        final(out)@ == old(out)@.push(c),
{
    out.push(c);
}

/// Whether `v` is a Unicode scalar value, that is, the code of some `char`.
pub open spec fn is_unicode_scalar(v: int) -> bool {
    (0 <= v < 0xD800) || (0xE000 <= v <= 0x10FFFF)
}

/// Turns a code point into the character it denotes, rejecting surrogates
/// and values beyond the Unicode range.
///
/// Relies on `char::from_u32`: it returns the character with the given
/// code exactly when the code is a Unicode scalar value.
#[verifier::external_body]
pub(crate) fn char_from_u32(v: u32) -> (r: Option<char>)
    ensures
        r is Some <==> is_unicode_scalar(v as int),
        r is Some ==> r->0 as u32 == v,
{
    char::from_u32(v)
}

} // verus!
