use vstd::prelude::*;

use crate::numerals::push_i64_chars;
use crate::numerals::push_u128_chars;
use crate::text::chars_to_string;
use crate::text::push_str_chars;

verus! {

/// The single failure kind of the pipeline: unsupported or invalid input,
/// carrying a human-readable message.
#[derive(Debug)]
pub struct InterpreterError {
    message: String,
}

impl InterpreterError {
    /// The message carried by this error.
    pub closed spec fn message_view(&self) -> Seq<char> {
        self.message@
    }

    pub fn new(message: String) -> (e: InterpreterError)
        ensures
            e.message_view() == message@,
    {
        InterpreterError { message }
    }

    /// The error raised when a numeral grows past the supported magnitude:
    /// its message names the accumulated value and the digit that follows.
    pub(crate) fn unsupported_number(accumulator: i64, n: u64) -> (e: InterpreterError) {
        let mut chars: Vec<char> = Vec::new();
        push_str_chars(&mut chars, "Unsupported number: ");
        push_i64_chars(&mut chars, accumulator);
        push_u128_chars(&mut chars, n as u128);
        let message = chars_to_string(&chars);
        InterpreterError { message }
    }

    /// The error raised when the parser meets a token it cannot start a term
    /// with.
    pub(crate) fn unexpected_token() -> (e: InterpreterError) {
        let mut chars: Vec<char> = Vec::new();
        push_str_chars(&mut chars, "Unexpected token in input");
        let message = chars_to_string(&chars);
        InterpreterError { message }
    }

    /// The error raised when an interpretation root is neither a number nor
    /// an expression.
    pub(crate) fn invalid_input() -> (e: InterpreterError) {
        let mut chars: Vec<char> = Vec::new();
        push_str_chars(&mut chars, "Invalid interpretation input");
        let message = chars_to_string(&chars);
        InterpreterError { message }
    }
}

} // verus!
