//! The error reported when a whole-unit decode entry point rejects its input.

use vstd::prelude::*;

verus! {

/// A decode failure, tagged with the notation that rejected the input and
/// carrying a human-readable message.
#[derive(Debug)]
pub enum ParseError {
    /// The tag-based or column-layout notation rejected the input.
    Pbn(String),
    /// The pipe-tokenized notation rejected the input.
    Lin(String),
    /// The single-line dot notation rejected the input.
    Oneline(String),
}

impl ParseError {
    /// The human-readable message carried by the error.
    pub fn message(&self) -> (m: &String)
        ensures
            m@ == self.text(),
    {
        match self {
            ParseError::Pbn(m) => m,
            ParseError::Lin(m) => m,
            ParseError::Oneline(m) => m,
        }
    }

    /// The carried message, as a sequence of characters.
    pub open spec fn text(&self) -> Seq<char> {
        match self {
            ParseError::Pbn(m) => m@,
            ParseError::Lin(m) => m@,
            ParseError::Oneline(m) => m@,
        }
    }
}

} // verus!
