//! Errors in a template.
use vstd::prelude::*;

verus! {

/// What went wrong.
#[derive(Clone, Copy, Debug, PartialEq, Eq)]
pub enum ErrorKind {
    /// A quoted string has no closing quote.
    UnterminatedString,
    /// `#` is not followed by six hex digits.
    InvalidHexValue,
    /// Indentation holds a tab, or a line is indented less than its siblings.
    InvalidIndentation,
    /// A number does not fit its type.
    InvalidNumber,
    /// A token of another kind was expected; `expected` names it, or is empty.
    InvalidToken { expected: &'static str },
}

/// An error and the position, in characters, of the text that caused it.
#[derive(Clone, Copy, Debug, PartialEq, Eq)]
pub struct Error {
    pub kind: ErrorKind,
    pub pos: usize,
}

} // verus!
