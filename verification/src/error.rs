//! The error taxonomy: what a parse can fail with.

use vstd::prelude::*;
use crate::tree::Rule;

verus! {

/// The input text does not match the grammar: the position (1-based line
/// and column, counted in characters) where matching stopped, and the
/// rules that were expected there.
#[derive(Debug, Clone, PartialEq)]
pub struct SyntaxError {
    pub line: usize,
    pub col: usize,
    pub expected: Vec<Rule>,
}

/// The mathematical shape of a [`SyntaxError`].
pub struct SyntaxErrorView {
    pub line: int,
    pub col: int,
    pub expected: Seq<Rule>,
}

impl View for SyntaxError {
    type V = SyntaxErrorView;

    open spec fn view(&self) -> SyntaxErrorView {
        SyntaxErrorView { line: self.line as int, col: self.col as int, expected: self.expected@ }
    }
}

/// What parsing a note can fail with.  A syntax error comes from the
/// grammar; the other kinds come from the tree interpreter, which
/// re-checks the shape of the tree it walks rather than trusting it.
#[derive(Debug, Clone, PartialEq)]
pub enum Error {
    /// A tree node carries a rule that may not stand at this point.
    UnexpectedRule(Rule),
    /// A required tree node is missing or carries the wrong rule.
    ExpectedRule(Rule),
    /// The input text does not match the grammar.
    ParsingError(SyntaxError),
    /// A repetition numeral (the carried text) does not fit the count type.
    ParseIntError(String),
    /// A weight numeral (the carried text) is not a plain decimal or does
    /// not fit the weight type.
    ParseFloatError(String),
}

/// The mathematical shape of an [`Error`].
pub enum ErrorView {
    UnexpectedRule(Rule),
    ExpectedRule(Rule),
    ParsingError(SyntaxErrorView),
    ParseIntError(Seq<char>),
    ParseFloatError(Seq<char>),
}

impl View for Error {
    type V = ErrorView;

    open spec fn view(&self) -> ErrorView {
        match self {
            Error::UnexpectedRule(r) => ErrorView::UnexpectedRule(*r),
            Error::ExpectedRule(r) => ErrorView::ExpectedRule(*r),
            Error::ParsingError(e) => ErrorView::ParsingError(e@),
            Error::ParseIntError(t) => ErrorView::ParseIntError(t@),
            Error::ParseFloatError(t) => ErrorView::ParseFloatError(t@),
        }
    }
}

} // verus!
