use calc_flash::program::compile;
use calc_flash::token::{CalcError, Token};

fn message_of(input: &str, number: &str) -> String {
    let e = compile(input).error.unwrap();
    e.message(input, number)
}

#[test]
fn message_texts_of_syntax_errors() {
    assert_eq!(message_of("1 + $", ""), "unexpected character: '$'");
    assert_eq!(message_of("(1 + 2", ""), "expected ')', got Eof");
    assert_eq!(message_of("(1 + 2 3", "3.0"), "expected ')', got Number(3.0)");
    assert_eq!(message_of("1 2", "2.0"), "unexpected trailing token: Number(2.0)");
    assert_eq!(message_of("1 )", ""), "unexpected trailing token: RParen");
    assert_eq!(message_of("* 2", ""), "unexpected token: Star");
    assert_eq!(message_of("1 +", ""), "unexpected token: Eof");
    assert_eq!(message_of("2 * (3 - )", ""), "unexpected token: RParen");
    assert_eq!(message_of("1 + 1.2.3", ""), "invalid number: 1.2.3");
}

#[test]
fn message_texts_of_arithmetic_errors() {
    assert_eq!(CalcError::DivisionByZero.message("1/0", ""), "division by zero");
    assert_eq!(
        CalcError::ExponentTooLarge.message("2^5000000", ""),
        "exponent too large for integer power (max 4000000)"
    );
}

#[test]
fn token_texts() {
    assert_eq!(Token::Plus.text(""), "Plus");
    assert_eq!(Token::Caret.text(""), "Caret");
    assert_eq!(Token::LParen.text(""), "LParen");
    assert_eq!(Token::Number { start: 0, end: 3 }.text("1.5"), "Number(1.5)");
}
