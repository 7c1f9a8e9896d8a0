//! Writing a character as the inside of a Rust character literal, for
//! generated font tables.

use crate::chars::{control_code, is_scalar};
use vstd::prelude::*;
use vstd::string::{StrSliceExecFns, StringExecFns};

verus! {

/// Why a value could not be written as a character literal.
#[derive(Debug, Clone, Copy, PartialEq, Eq)]
pub enum EscapeError {
    /// The value is no string.
    NotAString,
    /// The string does not hold exactly one character.
    NotOneCharacter,
}

impl EscapeError {
    /// The text of [`EscapeError::message`].
    pub open spec fn message_text(&self) -> Seq<char> {
        match self {
            EscapeError::NotAString => "expected string"@,
            EscapeError::NotOneCharacter => "expected single character"@,
        }
    }

    /// The error in words.
    pub fn message(&self) -> (text: String)
        ensures
            text@ == self.message_text(),
    {
        match self {
            EscapeError::NotAString => String::from_str("expected string"),
            EscapeError::NotOneCharacter => String::from_str("expected single character"),
        }
    }
}

/// The character of a hexadecimal digit, in lower case.
pub open spec fn hex_digit(d: int) -> char {
    if d < 10 {
        (48 + d) as char
    } else {
        (87 + d) as char
    }
}

/// The lowest `width` hexadecimal digits of a number, the highest first.
pub open spec fn hex_digits(n: nat, width: nat) -> Seq<char>
    decreases width,
{
    if width == 0 {
        Seq::empty()
    } else {
        hex_digits(n / 16, (width - 1) as nat).push(hex_digit((n % 16) as int))
    }
}

/// How many hexadecimal digits a number has, and at least 4.
pub open spec fn hex_width(n: nat) -> nat {
    if n < 0x1_0000 {
        4
    } else if n < 0x10_0000 {
        5
    } else {
        6
    }
}

/// A character as it stands between the quotes of a character literal: the
/// quote, the backslash, newline, carriage return, tab and NUL by their short
/// escapes, any other control code as `\u{..}` with its number in at least
/// four hexadecimal digits, and every other character as itself.
pub open spec fn escaped(c: char) -> Seq<char> {
    if c == '\'' {
        seq!['\\', '\'']
    } else if c == '\\' {
        seq!['\\', '\\']
    } else if c == '\n' {
        seq!['\\', 'n']
    } else if c == '\r' {
        seq!['\\', 'r']
    } else if c == '\t' {
        seq!['\\', 't']
    } else if c == '\0' {
        seq!['\\', '0']
    } else if control_code(c) {
        seq!['\\', 'u', '{'] + hex_digits(c as u32 as nat, hex_width(c as u32 as nat)) + seq!['}']
    } else {
        seq![c]
    }
}

/// What [`rust_char_escape`] gives for a value: `None` stands for a value
/// that is no string.
pub open spec fn escape_of(value: Option<&str>) -> Result<Seq<char>, EscapeError> {
    match value {
        None => Err(EscapeError::NotAString),
        Some(s) => if s@.len() == 1 {
            Ok(escaped(s@[0]))
        } else {
            Err(EscapeError::NotOneCharacter)
        },
    }
}

/// One hexadecimal digit.
fn hex_figure(d: u32) -> (figure: char)
    requires
        d < 16,
    ensures
        figure == hex_digit(d as int),
{
    let code = if d < 10 {
        48 + d
    } else {
        87 + d
    };
    proof {
        assert(is_scalar(code));
    }
    match char::from_u32(code) {
        Some(figure) => figure,
        None => '0',
    }
}

/// Appends the lowest `width` hexadecimal digits of `n` to `text`.
fn push_hex(text: &mut String, n: u32, width: u32)
    requires
        width <= 8,
    ensures
        final(text)@ == old(text)@ + hex_digits(n as nat, width as nat),
    decreases width,
{
    if width > 0 {
        push_hex(text, n / 16, width - 1);
        text.push(hex_figure(n % 16));
        proof {
            assert(text@ =~= old(text)@ + hex_digits(n as nat, width as nat));
        }
    } else {
        proof {
            assert(text@ =~= old(text)@ + hex_digits(n as nat, width as nat));
        }
    }
}

/// Writes the one character of `value` as the inside of a character literal.
pub fn rust_char_escape(value: Option<&str>) -> (literal: Result<String, EscapeError>)
    ensures
        literal matches Ok(text) ==> escape_of(value) == Ok::<Seq<char>, EscapeError>(text@),
        literal matches Err(error) ==> escape_of(value) == Err::<Seq<char>, EscapeError>(error),
{
    let s = match value {
        Some(s) => s,
        None => {
            return Err(EscapeError::NotAString);
        },
    };
    if s.unicode_len() != 1 {
        return Err(EscapeError::NotOneCharacter);
    }
    let ch = s.get_char(0);
    let mut text = String::new();
    if ch == '\'' {
        text.push('\\');
        text.push('\'');
    } else if ch == '\\' {
        text.push('\\');
        text.push('\\');
    } else if ch == '\n' {
        text.push('\\');
        text.push('n');
    } else if ch == '\r' {
        text.push('\\');
        text.push('r');
    } else if ch == '\t' {
        text.push('\\');
        text.push('t');
    } else if ch == '\0' {
        text.push('\\');
        text.push('0');
    } else if ch.is_control() {
        let code = ch as u32;
        let width: u32 = if code < 0x1_0000 {
            4
        } else if code < 0x10_0000 {
            5
        } else {
            6
        };
        text.push('\\');
        text.push('u');
        text.push('{');
        push_hex(&mut text, code, width);
        text.push('}');
    } else {
        text.push(ch);
    }
    proof {
        assert(text@ =~= escaped(ch));
    }
    Ok(text)
}

} // verus!
