//! Contracts assumed of the standard library where `vstd` states none.
//!
//! Nothing here is proved: each contract restates what the documentation of
//! the standard function promises.
use vstd::prelude::*;
use vstd::utf8::is_scalar;

verus! {

/// `char::from_u32`: the character with the given scalar value, and `None`
/// exactly for the numbers that are no scalar value (the surrogates and
/// everything above `0x10FFFF`).
pub assume_specification[ char::from_u32 ](i: u32) -> (c: Option<char>)
    ensures
        is_scalar(i) ==> c == Some(i as char),
        !is_scalar(i) ==> c is None,
;

/// `String::push`: appends the one character to the end of the string and
/// leaves what was there in place.
pub assume_specification[ String::push ](s: &mut String, c: char)
    ensures
        final(s)@ == old(s)@.push(c),
;

} // verus!
