//! Error values shared by the parser, the typed binding layer and the
//! emitters. Every parse or decode error is terminal for the call that
//! produced it: no retry, no partial result, no recovery.

use vstd::prelude::*;

verus! {

/// Mathematical image of an [`Error`], with positions as unbounded integers
/// and texts as character sequences.
#[verifier::ext_equal]
pub enum ErrModel {
    UnexpectedChar(char, int),
    UnexpectedEof,
    InvalidEscape(char),
    InvalidUnicode(u32),
    InvalidNumber(Seq<char>),
    TrailingData(int),
    DuplicateKey(Seq<char>),
    Expected(char, Option<char>),
    Custom(Seq<char>),
    TypeMismatch(Seq<char>, Seq<char>),
}

/// What can go wrong while parsing text, decoding a value into a typed
/// target, or emitting text.
#[derive(Debug, Clone, PartialEq)]
pub enum Error {
    /// Unexpected character at position (counted in characters).
    UnexpectedChar(char, usize),
    /// Unexpected end of input.
    UnexpectedEof,
    /// Invalid escape sequence.
    InvalidEscape(char),
    /// Invalid unicode code point.
    InvalidUnicode(u32),
    /// Invalid number literal.
    InvalidNumber(String),
    /// Trailing data after a complete value.
    TrailingData(usize),
    /// Duplicate key in an object.
    DuplicateKey(String),
    /// Expected a specific character; holds what stood there, if anything.
    Expected(char, Option<char>),
    /// Catch-all for binding-level invariant violations.
    Custom(String),
    /// Shape mismatch while decoding into a typed target.
    TypeMismatch { expected: &'static str, got: &'static str },
}

impl View for Error {
    type V = ErrModel;

    open spec fn view(&self) -> ErrModel {
        match self {
            Error::UnexpectedChar(c, p) => ErrModel::UnexpectedChar(*c, *p as int),
            Error::UnexpectedEof => ErrModel::UnexpectedEof,
            Error::InvalidEscape(c) => ErrModel::InvalidEscape(*c),
            Error::InvalidUnicode(n) => ErrModel::InvalidUnicode(*n),
            Error::InvalidNumber(s) => ErrModel::InvalidNumber(s@),
            Error::TrailingData(p) => ErrModel::TrailingData(*p as int),
            Error::DuplicateKey(s) => ErrModel::DuplicateKey(s@),
            Error::Expected(c, g) => ErrModel::Expected(*c, *g),
            Error::Custom(s) => ErrModel::Custom(s@),
            Error::TypeMismatch { expected, got } => ErrModel::TypeMismatch(expected@, got@),
        }
    }
}

} // verus!
