//! Tokens of an expression and the errors of lexing, parsing and integer
//! arithmetic.
use vstd::prelude::*;

verus! {

/// A token. A number is kept as the span `start..end` of its characters in the
/// input, which hold a valid decimal floating-point literal.
#[derive(Clone, Copy, Debug, PartialEq, Eq, Structural)]
pub enum Token {
    Number { start: usize, end: usize },
    Plus,
    Minus,
    Star,
    Slash,
    Percent,
    Caret,
    Bang,
    LParen,
    RParen,
    Eof,
}

/// Why an expression could not be evaluated.
#[derive(Clone, Copy, Debug, PartialEq, Eq, Structural)]
pub enum CalcError {
    /// The characters `start..end` of the input look like a number but are
    /// not a valid literal.
    InvalidNumber { start: usize, end: usize },
    /// A character that starts no token.
    UnexpectedChar(char),
    /// A token where an operand was expected.
    UnexpectedToken(Token),
    /// The token found where `)` was expected.
    Expected(Token),
    /// A token after a complete expression.
    TrailingChars(Token),
    /// Division or remainder by zero.
    DivisionByZero,
    /// An integer power whose exponent is above `POW_LIMIT`.
    ExponentTooLarge,
}

} // verus!
