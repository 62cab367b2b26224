use vstd::prelude::*;

verus! {

/// A failure of the tokenizer.
#[derive(Debug, Clone, Copy, PartialEq, Eq)]
pub enum LexError {
    /// A character that belongs to no token of the surface syntax.
    UnexpectedChar(char),
    /// A double-quoted string literal that is never closed.
    UnterminatedString,
    /// An integer literal that does not fit the number type.
    NumberTooLarge,
}

/// A failure of the tree builder, the only stage that validates structure.
#[derive(Debug, Clone, Copy, PartialEq, Eq)]
pub enum ParseError {
    /// The input ended where a token tree was expected.
    UnexpectedEnd,
    /// The repetition marker was not followed by an opening delimiter.
    ExpectedOpenParen,
    /// A repetition group was never closed.
    Unbalanced,
    /// The terminator after a group (and its optional separator) is missing.
    ExpectedTerminator,
}

/// Any failure of the library: a tokenizer failure, a tree-builder failure,
/// or a failure of the multi-stream parser.
#[derive(Debug, Clone, Copy, PartialEq, Eq)]
pub enum Error {
    Lex(LexError),
    Parse(ParseError),
    /// A stream's next token did not match what the grammar demanded.
    Mismatch,
    /// A stream ran out of tokens while one was demanded.
    EndOfInput,
    /// The supply of pause identifiers is exhausted.
    PausesExhausted,
}

impl Error {
    /// A short human-readable description of the failure.
    pub fn message(&self) -> &'static str {
        match self {
            Error::Lex(LexError::UnexpectedChar(_)) => "unexpected character",
            Error::Lex(LexError::UnterminatedString) => "unterminated string literal",
            Error::Lex(LexError::NumberTooLarge) => "number literal out of range",
            Error::Parse(ParseError::UnexpectedEnd) => "unexpected end of input while a token tree was expected",
            Error::Parse(ParseError::ExpectedOpenParen) => "expected `(` after the repetition marker",
            Error::Parse(ParseError::Unbalanced) => "unbalanced parentheses",
            Error::Parse(ParseError::ExpectedTerminator) => "expected `*`",
            Error::Mismatch => "unexpected token",
            Error::EndOfInput => "end of input",
            Error::PausesExhausted => "too many pause identifiers",
        }
    }
}

} // verus!
