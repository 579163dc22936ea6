//! The errors a parse can end in.

use vstd::prelude::*;

use crate::parser::Rule;

verus! {

/// Mathematical model of a grammar rejection.
pub struct ParseErrorModel {
    /// Character position at which the input stopped matching.
    pub pos: int,
    /// The rules that were expected at that position.
    pub expected: Seq<Rule>,
}

/// A grammar rejection: the character position at which the input stopped
/// matching, and the rules that were expected there.
#[derive(Debug, PartialEq)]
pub struct ParseError {
    pub pos: usize,
    pub expected: Vec<Rule>,
}

impl View for ParseError {
    type V = ParseErrorModel;

    open spec fn view(&self) -> ParseErrorModel {
        ParseErrorModel { pos: self.pos as int, expected: self.expected@ }
    }
}

/// Mathematical model of an error.
pub enum ErrorModel {
    Parser(ParseErrorModel),
    IntOutOfRange(int),
}

/// Why a parse returned no command: the input does not match the grammar, or
/// a lexically valid integer literal (at the given character position) does
/// not fit in 64 signed bits.
#[derive(Debug, PartialEq)]
pub enum Error {
    Parser(ParseError),
    IntOutOfRange(usize),
}

impl View for Error {
    type V = ErrorModel;

    open spec fn view(&self) -> ErrorModel {
        match self {
            Error::Parser(pe) => ErrorModel::Parser(pe@),
            Error::IntOutOfRange(p) => ErrorModel::IntOutOfRange(*p as int),
        }
    }
}

impl Error {
    /// A short description, in place of a `Display` implementation.
    pub fn describe(&self) -> &'static str {
        match self {
            Error::Parser(_) => "the input does not match the grammar",
            Error::IntOutOfRange(_) => "an integer literal does not fit in 64 signed bits",
        }
    }
}

} // verus!
