use vstd::prelude::*;
use crate::lexer::{SpecToken, Token};
use crate::op::Op;

verus! {

/// Why a decimal integer literal could not be read.
#[derive(Debug, Clone, Copy, PartialEq, Eq, Structural)]
pub enum IntErrorKind {
    /// The literal is larger than `i64::MAX`.
    PosOverflow,
}

/// Why a floating-point literal could not be read.
#[derive(Debug, Clone, Copy, PartialEq, Eq, Structural)]
pub enum FloatErrorKind {
    Empty,
    Invalid,
}

/// The errors of lexing and parsing.
#[derive(Debug)]
pub enum Error {
    UnterminatedString,
    NotEnoughCake(Token),
    IntError(IntErrorKind),
    FloatError(FloatErrorKind),
    MissingClosingParen,
    MissingComma,
    InvalidToken(Token),
    InvalidOperator(Op),
}

/// The model of an error.
pub enum SpecError {
    UnterminatedString,
    NotEnoughCake(SpecToken),
    IntError(IntErrorKind),
    FloatError(FloatErrorKind),
    MissingClosingParen,
    MissingComma,
    InvalidToken(SpecToken),
    InvalidOperator(Op),
}

impl View for Error {
    type V = SpecError;

    open spec fn view(&self) -> SpecError {
        match self {
            Error::UnterminatedString => SpecError::UnterminatedString,
            Error::NotEnoughCake(t) => SpecError::NotEnoughCake(t@),
            Error::IntError(k) => SpecError::IntError(*k),
            Error::FloatError(k) => SpecError::FloatError(*k),
            Error::MissingClosingParen => SpecError::MissingClosingParen,
            Error::MissingComma => SpecError::MissingComma,
            Error::InvalidToken(t) => SpecError::InvalidToken(t@),
            Error::InvalidOperator(op) => SpecError::InvalidOperator(*op),
        }
    }
}

} // verus!
