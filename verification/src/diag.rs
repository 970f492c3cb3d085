//! Structured, span-anchored diagnostics.
//!
//! Every failure of lexing or parsing is one of a closed set of error
//! values carrying the offending character or token and its source range;
//! a boundary layer can render them in any presentation format.

use vstd::prelude::*;
use crate::lexis::{Token, TokenKind, TokenM};
use crate::source::SourceRange;

verus! {

/// What a failed expectation was looking for.
#[derive(Clone, Copy, Debug, PartialEq, Eq, Structural)]
pub enum Expectation {
    /// A single specific token kind.
    Kind(TokenKind),
    /// Either a pipe or a closing square bracket, inside a choice orthogram.
    PipeOrClose,
}

/// A terminal failure of a `lex()` or `parse()` call.
#[derive(Debug, PartialEq)]
pub enum ParseError {
    /// A character matched no lexical pattern.
    InvalidCharacter { ch: char, span: SourceRange },
    /// Input ended where more was required.
    UnexpectedEndOfFile { span: SourceRange },
    /// A token of the wrong kind appeared where a specific kind was required.
    UnexpectedToken { found: Token, expected: Expectation },
    /// A token appeared where only a newline or the end of file was allowed.
    ExpectedEndOfLine { found: Token },
    /// A structural token appeared where ordinary text was required.
    ExpectedText { found: Token },
}

/// The mathematical value of a [`ParseError`].
pub ghost enum ErrorM {
    InvalidCharacter { ch: char, start: int, end: int },
    UnexpectedEndOfFile { start: int, end: int },
    UnexpectedToken { found: TokenM, expected: Expectation },
    ExpectedEndOfLine { found: TokenM },
    ExpectedText { found: TokenM },
}

impl View for ParseError {
    type V = ErrorM;

    closed spec fn view(&self) -> ErrorM {
        match self {
            ParseError::InvalidCharacter { ch, span } => ErrorM::InvalidCharacter {
                ch: *ch,
                start: span.start as int,
                end: span.end as int,
            },
            ParseError::UnexpectedEndOfFile { span } => ErrorM::UnexpectedEndOfFile {
                start: span.start as int,
                end: span.end as int,
            },
            ParseError::UnexpectedToken { found, expected } => ErrorM::UnexpectedToken {
                found: found@,
                expected: *expected,
            },
            ParseError::ExpectedEndOfLine { found } => ErrorM::ExpectedEndOfLine { found: found@ },
            ParseError::ExpectedText { found } => ErrorM::ExpectedText { found: found@ },
        }
    }
}

impl Clone for ParseError {
    fn clone(&self) -> (r: Self)
        ensures
            r@ == self@,
    {
        match self {
            ParseError::InvalidCharacter { ch, span } => ParseError::InvalidCharacter {
                ch: *ch,
                span: *span,
            },
            ParseError::UnexpectedEndOfFile { span } => ParseError::UnexpectedEndOfFile {
                span: *span,
            },
            ParseError::UnexpectedToken { found, expected } => ParseError::UnexpectedToken {
                found: found.clone(),
                expected: *expected,
            },
            ParseError::ExpectedEndOfLine { found } => ParseError::ExpectedEndOfLine {
                found: found.clone(),
            },
            ParseError::ExpectedText { found } => ParseError::ExpectedText {
                found: found.clone(),
            },
        }
    }
}

/// A factory for diagnostics against one named source buffer.
pub struct Diag<'s> {
    source_name: &'s str,
    source: &'s str,
}

impl<'s> Diag<'s> {
    /// The text this factory reports against.
    pub closed spec fn spec_source(&self) -> Seq<char> {
        self.source@
    }

    /// The display name of the source buffer.
    pub closed spec fn spec_source_name(&self) -> Seq<char> {
        self.source_name@
    }

    pub fn new(source_name: &'s str, source: &'s str) -> (d: Diag<'s>)
        ensures
            d.spec_source() == source@,
            d.spec_source_name() == source_name@,
    {
        Diag { source_name, source }
    }

    /// The source text, for a boundary layer that renders diagnostics.
    pub fn source(&self) -> (r: &'s str)
        ensures
            r@ == self.spec_source(),
    {
        self.source
    }

    /// The source name, for a boundary layer that renders diagnostics.
    pub fn source_name(&self) -> (r: &'s str)
        ensures
            r@ == self.spec_source_name(),
    {
        self.source_name
    }

    pub fn invalid_token(&self, bad_char: char, bad_char_span: SourceRange) -> (e: ParseError)
        ensures
            e@ == (ErrorM::InvalidCharacter {
                ch: bad_char,
                start: bad_char_span.start as int,
                end: bad_char_span.end as int,
            }),
    {
        ParseError::InvalidCharacter { ch: bad_char, span: bad_char_span }
    }

    pub fn unexpected_eof(&self, eof_span: SourceRange) -> (e: ParseError)
        ensures
            e@ == (ErrorM::UnexpectedEndOfFile {
                start: eof_span.start as int,
                end: eof_span.end as int,
            }),
    {
        ParseError::UnexpectedEndOfFile { span: eof_span }
    }

    pub fn unexpected_token(&self, token: Token, expected: Expectation) -> (e: ParseError)
        ensures
            e@ == (ErrorM::UnexpectedToken { found: token@, expected }),
    {
        ParseError::UnexpectedToken { found: token, expected }
    }

    pub fn expected_eol(&self, token: Token) -> (e: ParseError)
        ensures
            e@ == (ErrorM::ExpectedEndOfLine { found: token@ }),
    {
        ParseError::ExpectedEndOfLine { found: token }
    }

    pub fn expected_text(&self, token: Token) -> (e: ParseError)
        ensures
            e@ == (ErrorM::ExpectedText { found: token@ }),
    {
        ParseError::ExpectedText { found: token }
    }
}

} // verus!
