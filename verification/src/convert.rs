//! Conversion between one character and its codepoint.

use crate::decimal::{decimal_text, push_signed_decimal};
use vstd::prelude::*;
use vstd::string::{StrSliceExecFns, StringExecFns};

verus! {

/// Why a conversion was refused.
#[derive(Clone, Copy, Debug, PartialEq, Eq, Structural)]
pub enum TextError {
    /// The codepoint of a character was asked of an empty text.
    EmptyInput,
    /// `value` is no scalar value: it lies outside `0..=0x10FFFF` or among
    /// the surrogates `0xD800..=0xDFFF`.
    InvalidCodepoint { value: i64 },
}

impl TextError {
    /// The error in words. For a refused codepoint they name the range that
    /// is accepted and the value that was given.
    pub open spec fn message_text(self) -> Seq<char> {
        match self {
            TextError::EmptyInput => "Got an empty string!"@,
            TextError::InvalidCodepoint { value } =>
                "Invalid Unicode codepoint! (0..1114111 expected, got: "@ + decimal_text(
                    value as int,
                ) + ")"@,
        }
    }

    /// Writes the error out.
    pub fn message(&self) -> (text: String)
        ensures
            text@ == self.message_text(),
    {
        match self {
            TextError::EmptyInput => String::from_str("Got an empty string!"),
            TextError::InvalidCodepoint { value } => {
                let mut text = String::from_str(
                    "Invalid Unicode codepoint! (0..1114111 expected, got: ",
                );
                push_signed_decimal(&mut text, *value);
                text.append(")");
                text
            },
        }
    }
}

/// Whether `codepoint` is a scalar value: at most `0x10FFFF` and no surrogate.
pub open spec fn is_scalar_value(codepoint: int) -> bool {
    0 <= codepoint <= 0x10FFFF && !(0xD800 <= codepoint <= 0xDFFF)
}

/// The codepoint of the first character of `text`.
pub open spec fn codepoint_of(text: Seq<char>) -> Result<i64, TextError> {
    if text.len() == 0 {
        Err(TextError::EmptyInput)
    } else {
        Ok(text[0] as i64)
    }
}

/// The text of the one character whose codepoint is `codepoint`.
pub open spec fn character_of(codepoint: i64) -> Result<Seq<char>, TextError> {
    if is_scalar_value(codepoint as int) {
        Ok(seq![codepoint as char])
    } else {
        Err(TextError::InvalidCodepoint { value: codepoint })
    }
}

/// Gives the codepoint of the first character of `text`. What follows that
/// character is not looked at. An empty text is refused.
pub fn char_to_codepoint(text: &str) -> (codepoint: Result<i64, TextError>)
    ensures
        codepoint == codepoint_of(text@),
        codepoint matches Ok(value) ==> is_scalar_value(value as int) && character_of(value)
            == Ok::<Seq<char>, TextError>(seq![text@[0]]),
{
    if text.is_empty() {
        Err(TextError::EmptyInput)
    } else {
        let first = text.get_char(0);
        Ok(first as u32 as i64)
    }
}

/// Gives the text of the one character whose codepoint is `codepoint`. A
/// number that is no scalar value is refused.
pub fn codepoint_to_char(codepoint: i64) -> (character: Result<String, TextError>)
    ensures
        match character {
            Ok(text) => character_of(codepoint) == Ok::<Seq<char>, TextError>(text@),
            Err(error) => character_of(codepoint) == Err::<Seq<char>, TextError>(error),
        },
{
    if codepoint < 0 || codepoint > 0x10FFFF {
        return Err(TextError::InvalidCodepoint { value: codepoint });
    }
    match char::from_u32(codepoint as u32) {
        Some(c) => {
            let mut text = String::new();
            text.push(c);
            Ok(text)
        },
        None => Err(TextError::InvalidCodepoint { value: codepoint }),
    }
}

/// The number of a character is a scalar value.
pub proof fn lemma_char_is_scalar_value(c: char)
    ensures
        is_scalar_value(c as int),
{
}

/// A codepoint that is given out is a scalar value.
pub proof fn lemma_codepoint_is_scalar_value(text: Seq<char>)
    requires
        text.len() > 0,
    ensures
        codepoint_of(text) is Ok,
        is_scalar_value(codepoint_of(text).unwrap() as int),
{
    lemma_char_is_scalar_value(text[0]);
}

/// Only the first character counts: what follows it changes nothing.
pub proof fn lemma_only_first_character_counts(first: char, more: Seq<char>)
    ensures
        codepoint_of(seq![first] + more) == codepoint_of(seq![first]),
{
}

/// The codepoint of a character, turned back into a character, is that
/// character again.
pub proof fn lemma_character_round_trip(c: char)
    ensures
        codepoint_of(seq![c]) is Ok,
        character_of(codepoint_of(seq![c]).unwrap()) == Ok::<Seq<char>, TextError>(seq![c]),
{
}

/// The character of a scalar value has that value as its codepoint.
pub proof fn lemma_codepoint_round_trip(codepoint: i64)
    requires
        is_scalar_value(codepoint as int),
    ensures
        character_of(codepoint) is Ok,
        codepoint_of(character_of(codepoint).unwrap()) == Ok::<i64, TextError>(codepoint),
{
}

} // verus!
