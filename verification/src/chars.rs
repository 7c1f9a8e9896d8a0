//! Characters and strings: what this library takes from the standard
//! library without a proof of its own.
//!
//! Each contract below is a claim about a function of the standard library.
//! Nothing here is proved; everything else in the library is proved from it.

use vstd::prelude::*;

verus! {

/// A number is a Unicode scalar value: a code point that is no surrogate.
pub open spec fn is_scalar(u: u32) -> bool {
    u <= 0xD7FF || (0xE000 <= u && u <= 0x10FFFF)
}

/// `char::from_u32` of the standard library: the character with the given
/// number, where the number is a Unicode scalar value, and `None` where it is
/// not.
pub assume_specification[ char::from_u32 ](i: u32) -> (c: Option<char>)
    ensures
        c == (if is_scalar(i) {
            Some(i as char)
        } else {
            None::<char>
        }),
;

/// The number of a character is a scalar value, and tells the character.
pub proof fn lemma_char_number(a: char, b: char)
    ensures
        is_scalar(a as u32),
        a as u32 == b as u32 ==> a == b,
{
}

/// A scalar value is the number of the character it is cast to.
pub proof fn lemma_scalar_char(u: u32)
    requires
        is_scalar(u),
    ensures
        (u as char) as u32 == u,
{
}

/// `String::push` of the standard library: appends one character to the end of
/// the string and leaves the rest as it was.
pub assume_specification[ String::push ](s: &mut String, ch: char)
    ensures
        final(s)@ == old(s)@.push(ch),
;

/// Whether a character has the Unicode property White_Space, as
/// `char::is_whitespace` tells it.
pub uninterp spec fn white_space(c: char) -> bool;

/// `char::is_whitespace` of the standard library. Its result depends on the
/// character alone; the contract gives it the name [`white_space`].
pub assume_specification[ char::is_whitespace ](c: char) -> (yes: bool)
    ensures
        yes == white_space(c),
;

/// Whether a character is a control code, as `char::is_control` tells it.
pub uninterp spec fn control_code(c: char) -> bool;

/// `char::is_control` of the standard library. Its result depends on the
/// character alone; the contract gives it the name [`control_code`].
pub assume_specification[ char::is_control ](c: char) -> (yes: bool)
    ensures
        yes == control_code(c),
;

} // verus!
