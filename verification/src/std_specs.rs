//! What this crate takes from the standard library without proof.

use vstd::prelude::*;
use vstd::utf8::is_scalar;

verus! {

/// `String::push` appends the one character to the end of the string.
pub assume_specification[ String::push ](text: &mut String, ch: char)
    ensures
        final(text)@ == old(text)@.push(ch),
;

/// `char::from_u32` gives the character of a scalar value, and `None` for
/// every other number.
pub assume_specification[ char::from_u32 ](i: u32) -> (c: Option<char>)
    ensures
        is_scalar(i) ==> c == Some(i as char),
        !is_scalar(i) ==> c is None,
;

} // verus!
