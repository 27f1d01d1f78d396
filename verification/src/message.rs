//! The texts of the errors, as the calculator prints them.
use crate::bigint::POW_LIMIT;
use crate::natural::{decimal, Natural};
use crate::token::{CalcError, Token};
use vstd::prelude::*;

verus! {

/// What `format!("{:?}", c)` gives: the character between single quotes,
/// escaped as a Rust character literal is.
pub uninterp spec fn char_debug_text(c: char) -> Seq<char>;

/// `format!("{:?}", c)`, std's `Debug` for `char`. The result is named
/// `char_debug_text(c)`. As std's documentation of `char::escape_debug`
/// shows, a printable ASCII character other than a quote or a backslash is
/// written as itself, between single quotes; the escapes of the other
/// characters are not stated.
#[verifier::external_body]
fn char_debug(c: char) -> (r: String)
    ensures
        r@ == char_debug_text(c),
        (' ' <= c <= '~' && c != '\'' && c != '"' && c != '\\') ==> r@ == seq!['\'', c, '\''],
{
    format!("{c:?}")
}

/// How a message names a token. A number is shown as `Number(v)`, where `v`
/// is `number`, the rendering of its value.
pub open spec fn token_text(t: Token, number: Seq<char>) -> Seq<char> {
    match t {
        Token::Number { .. } => "Number("@ + number + ")"@,
        Token::Plus => "Plus"@,
        Token::Minus => "Minus"@,
        Token::Star => "Star"@,
        Token::Slash => "Slash"@,
        Token::Percent => "Percent"@,
        Token::Caret => "Caret"@,
        Token::Bang => "Bang"@,
        Token::LParen => "LParen"@,
        Token::RParen => "RParen"@,
        Token::Eof => "Eof"@,
    }
}

/// The message of `e`, an error met on `input`. `number` renders the value
/// of the number token that the error carries, if it carries one.
pub open spec fn message_spec(e: CalcError, input: Seq<char>, number: Seq<char>) -> Seq<char> {
    match e {
        CalcError::InvalidNumber { start, end } => "invalid number: "@ + input.subrange(
            start as int,
            end as int,
        ),
        CalcError::UnexpectedChar(c) => "unexpected character: "@ + char_debug_text(c),
        CalcError::UnexpectedToken(t) => "unexpected token: "@ + token_text(t, number),
        CalcError::Expected(t) => "expected ')', got "@ + token_text(t, number),
        CalcError::TrailingChars(t) => "unexpected trailing token: "@ + token_text(t, number),
        CalcError::DivisionByZero => "division by zero"@,
        CalcError::ExponentTooLarge => "exponent too large for integer power (max "@ + decimal(
            POW_LIMIT as nat,
        ) + ")"@,
    }
}

impl Token {
    /// How a message names the token (see `token_text`).
    pub fn text(&self, number: &str) -> (r: String)
        ensures
            r@ == token_text(*self, number@),
    {
        match self {
            Token::Number { .. } => {
                let mut s = String::from_str("Number(");
                s.append(number);
                s.append(")");
                s
            },
            Token::Plus => String::from_str("Plus"),
            Token::Minus => String::from_str("Minus"),
            Token::Star => String::from_str("Star"),
            Token::Slash => String::from_str("Slash"),
            Token::Percent => String::from_str("Percent"),
            Token::Caret => String::from_str("Caret"),
            Token::Bang => String::from_str("Bang"),
            Token::LParen => String::from_str("LParen"),
            Token::RParen => String::from_str("RParen"),
            Token::Eof => String::from_str("Eof"),
        }
    }
}

impl CalcError {
    /// The message of the error, met on `input`; `number` renders the value
    /// of the number token that the error carries, if it carries one.
    pub fn message(&self, input: &str, number: &str) -> (r: String)
        requires
            *self matches CalcError::InvalidNumber { start, end } ==> start <= end <= input@.len(),
        ensures
            r@ == message_spec(*self, input@, number@),
            *self matches CalcError::UnexpectedChar(c) ==> (' ' <= c <= '~' && c != '\'' && c
                != '"' && c != '\\' ==> r@ == "unexpected character: "@ + seq!['\'', c, '\'']),
    {
        match self {
            CalcError::InvalidNumber { start, end } => {
                let mut s = String::from_str("invalid number: ");
                s.append(input.substring_char(*start, *end));
                s
            },
            CalcError::UnexpectedChar(c) => {
                let mut s = String::from_str("unexpected character: ");
                s.append(char_debug(*c).as_str());
                s
            },
            CalcError::UnexpectedToken(t) => {
                let mut s = String::from_str("unexpected token: ");
                s.append(t.text(number).as_str());
                s
            },
            CalcError::Expected(t) => {
                let mut s = String::from_str("expected ')', got ");
                s.append(t.text(number).as_str());
                s
            },
            CalcError::TrailingChars(t) => {
                let mut s = String::from_str("unexpected trailing token: ");
                s.append(t.text(number).as_str());
                s
            },
            CalcError::DivisionByZero => String::from_str("division by zero"),
            CalcError::ExponentTooLarge => {
                let mut s = String::from_str("exponent too large for integer power (max ");
                s.append(Natural::from_u64(POW_LIMIT as u64).to_decimal().as_str());
                s.append(")");
                s
            },
        }
    }
}

} // verus!
