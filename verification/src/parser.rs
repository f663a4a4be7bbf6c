//! What a tolerant parse of a source text hands over: the statements it
//! recovered with the errors it stepped over, or the error that stopped it.

use crate::diagnostics::Diagnostic;
use crate::rules::Rule;
use crate::terms::Term;
use vstd::prelude::*;

verus! {

/// A top-level statement.
#[derive(Debug, PartialEq, Eq)]
pub enum Line {
    /// A rule definition.
    Rule(Rule),
    /// A bare query.
    Query(Term),
}

/// What went wrong in the parser.
#[derive(Debug, Clone, Copy, PartialEq, Eq, Structural)]
pub enum ParseError {
    IntegerOverflow { loc: usize },
    InvalidTokenCharacter { loc: usize },
    InvalidToken { loc: usize },
    UnrecognizedEOF { loc: usize },
    UnrecognizedToken { loc: usize },
    ExtraToken { loc: usize },
    WrongValueType { loc: usize },
    ReservedWord { loc: usize },
    /// A parse error that records no location.
    Unlocated,
}

/// The category of an error.
#[derive(Debug, Clone, Copy, PartialEq, Eq, Structural)]
pub enum ErrorKind {
    /// Raised by the parser.
    Parse(ParseError),
    /// Raised anywhere else.
    Other,
}

/// An error that stopped the parse, with its description.
#[derive(Debug, PartialEq, Eq)]
pub struct PolarError {
    pub kind: ErrorKind,
    pub message: String,
}

/// The result of a tolerant parse.
pub type ParseResult = Result<(Vec<Line>, Vec<Diagnostic>), PolarError>;

impl Line {
    /// The term that an analysis of this statement starts from: a rule's
    /// body, or the query itself.
    pub open spec fn root(self) -> Term {
        match self {
            Line::Rule(rule) => rule.body,
            Line::Query(term) => term,
        }
    }
}

impl ParseError {
    /// The offset that the error points at, if it records one.
    pub open spec fn location(self) -> Option<usize> {
        match self {
            ParseError::IntegerOverflow { loc } => Some(loc),
            ParseError::InvalidTokenCharacter { loc } => Some(loc),
            ParseError::InvalidToken { loc } => Some(loc),
            ParseError::UnrecognizedEOF { loc } => Some(loc),
            ParseError::UnrecognizedToken { loc } => Some(loc),
            ParseError::ExtraToken { loc } => Some(loc),
            ParseError::WrongValueType { loc } => Some(loc),
            ParseError::ReservedWord { loc } => Some(loc),
            ParseError::Unlocated => None,
        }
    }
}

impl ErrorKind {
    /// The offset that an error of this kind points at: that of a parse
    /// error which records one, and none otherwise.
    pub open spec fn location(self) -> Option<usize> {
        match self {
            ErrorKind::Parse(error) => error.location(),
            ErrorKind::Other => None,
        }
    }
}

} // verus!
