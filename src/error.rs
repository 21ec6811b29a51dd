use vstd::prelude::*;

use crate::source_pos::SourcePos;

verus! {

/// The errors of the interpreter.
#[derive(Debug, Clone, PartialEq)]
pub enum Error {
    ParseError(ParseError),
    /// A `Real` was divided by zero.
    DivisionByZero,
}

/// What went wrong while scanning or parsing.
#[derive(Debug, Clone, PartialEq)]
pub enum ParseErrorKind {
    // Lexer errors
    InfiniteString,
    StringEOL,
    LargeInt,
    BadRealLiteral,
    Illegal(char),
    UnknownEscape(char),
    // Parser errors
    TempParseErr,
    ExpectedPrimitive,
    ExpectedAtom(String),
    EndOfFile(String),
}

/// An error together with the position of the character that caused it.
#[derive(Debug, Clone, PartialEq)]
pub struct ParseError {
    pub kind: ParseErrorKind,
    pub pos: SourcePos,
}

pub type Result<T> = core::result::Result<T, Error>;

impl ParseError {
    pub fn new(kind: ParseErrorKind, pos: SourcePos) -> (r: ParseError)
        ensures
            r.kind == kind,
            r.pos == pos,
    {
        ParseError { kind, pos }
    }
}


/// The text that describes an error of kind `kind`.
pub open spec fn description_of(kind: ParseErrorKind) -> Seq<char> {
    match kind {
        ParseErrorKind::InfiniteString => "infinite string literal"@,
        ParseErrorKind::StringEOL => "newline in string literal"@,
        ParseErrorKind::LargeInt => "int literal too big"@,
        ParseErrorKind::BadRealLiteral => "could not parse real literal"@,
        ParseErrorKind::Illegal(_) => "illegal character"@,
        ParseErrorKind::UnknownEscape(_) => "unknown escape code"@,
        ParseErrorKind::TempParseErr => "parser error"@,
        ParseErrorKind::ExpectedPrimitive => "expected primitive"@,
        ParseErrorKind::EndOfFile(_) => "end of file"@,
        ParseErrorKind::ExpectedAtom(_) => "expected atom"@,
    }
}

impl ParseError {
    /// A short description of what went wrong.
    pub fn description(&self) -> (r: &'static str)
        ensures
            r@ == description_of(self.kind),
    {
        match self.kind {
            ParseErrorKind::InfiniteString => "infinite string literal",
            ParseErrorKind::StringEOL => "newline in string literal",
            ParseErrorKind::LargeInt => "int literal too big",
            ParseErrorKind::BadRealLiteral => "could not parse real literal",
            ParseErrorKind::Illegal(_) => "illegal character",
            ParseErrorKind::UnknownEscape(_) => "unknown escape code",
            ParseErrorKind::TempParseErr => "parser error",
            ParseErrorKind::ExpectedPrimitive => "expected primitive",
            ParseErrorKind::EndOfFile(_) => "end of file",
            ParseErrorKind::ExpectedAtom(_) => "expected atom",
        }
    }
}

impl Error {
    /// A short description of what went wrong.
    pub fn description(&self) -> (r: &'static str)
        ensures
            match self {
                Error::ParseError(e) => r@ == description_of(e.kind),
                Error::DivisionByZero => r@ == "division by zero"@,
            },
    {
        match self {
            Error::ParseError(e) => e.description(),
            Error::DivisionByZero => "division by zero",
        }
    }
}

} // verus!
