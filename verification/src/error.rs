//! Parse errors: a message and the 0-based source line it points at.

use crate::text::{chars_to_string, push_str_chars, spec_udec, str_to_chars, usize_to_chars};
use vstd::prelude::*;

verus! {

/// A parsing error with an optional 0-based line index.
#[derive(Debug)]
pub struct ParseError {
    pub message: String,
    pub line: Option<usize>,
}

/// Spec-level mirror of `ParseError`.
pub struct ErrV {
    pub message: Seq<char>,
    pub line: Option<usize>,
}

impl View for ParseError {
    type V = ErrV;

    open spec fn view(&self) -> ErrV {
        ErrV { message: self.message@, line: self.line }
    }
}

/// The human-readable form: `Line N: message` with a 1-based line number,
/// or the bare message when no line is known.
pub open spec fn spec_error_display(e: ErrV) -> Seq<char> {
    match e.line {
        Option::Some(l) => "Line "@ + spec_udec(
            if l < usize::MAX {
                l + 1
            } else {
                l as int
            },
        ) + ": "@ + e.message,
        Option::None => e.message,
    }
}

impl ParseError {
    /// A fresh error at the given 0-based line.
    pub fn new(message: &str, line: Option<usize>) -> (r: ParseError)
        ensures
            r@.message == message@,
            r@.line == line,
    {
        ParseError { message: String::from_str(message), line }
    }

    /// Render the error for display, with a 1-based line number.
    pub fn display_string(&self) -> (r: String)
        ensures
            r@ == spec_error_display(self@),
    {
        match self.line {
            Option::Some(l) => {
                let shown = if l < usize::MAX {
                    l + 1
                } else {
                    l
                };
                let mut out: Vec<char> = Vec::new();
                push_str_chars(&mut out, "Line ");
                let digits = usize_to_chars(shown);
                crate::text::push_char_vec(&mut out, &digits);
                push_str_chars(&mut out, ": ");
                let msg = str_to_chars(self.message.as_str());
                crate::text::push_char_vec(&mut out, &msg);
                proof {
                    assert(out@ =~= spec_error_display(self@));
                }
                chars_to_string(&out)
            },
            Option::None => {
                let msg = str_to_chars(self.message.as_str());
                chars_to_string(&msg)
            },
        }
    }
}

} // verus!
