//! The few standard-library operations on characters and strings that
//! vstd gives no specification of, each stated as its documentation
//! states it.

use vstd::prelude::*;

verus! {

/// `char::from_u32`: `Some` of the character with that code exactly when
/// the code is a Unicode scalar value, `None` for a surrogate or a value
/// above U+10FFFF.
#[verifier::external_body]
pub fn char_from_u32(code: u32) -> (r: Option<char>)
    ensures
        r == (if vstd::utf8::is_scalar(code) { Some(code as char) } else { None::<char> }),
{
    char::from_u32(code)
}

/// `String::push`: appends one character.
#[verifier::external_body]
pub fn push_char(s: &mut String, c: char)
    ensures
        final(s)@ == old(s)@.push(c),
{
    s.push(c)
}

} // verus!
