use calc_flash::lexer::Lexer;
use calc_flash::parser::{Op, Parser};
use calc_flash::program::compile;
use calc_flash::token::{CalcError, Token};

fn tokens(s: &str) -> Result<Vec<Token>, CalcError> {
    Lexer::new(s).tokenize()
}

fn push(start: usize, end: usize) -> Op {
    Op::Push { start, end }
}

#[test]
fn lexer_cursor() {
    let mut lx = Lexer::new(" \t7");
    assert_eq!(lx.peek(), Some(' '));
    assert_eq!(lx.advance(), Some(' '));
    lx.skip_ws();
    assert_eq!(lx.pos, 2);
    assert_eq!(lx.peek(), Some('7'));
    assert_eq!(lx.advance(), Some('7'));
    assert_eq!(lx.peek(), None);
    assert_eq!(lx.advance(), None);
    assert_eq!(lx.pos, 4);
}

#[test]
fn tokenize_expression() {
    assert_eq!(
        tokens("2+2").unwrap(),
        vec![
            Token::Number { start: 0, end: 1 },
            Token::Plus,
            Token::Number { start: 2, end: 3 },
            Token::Eof
        ]
    );
    assert_eq!(
        tokens(" (1.5e-3 % 4)! ^ -x").err(),
        Some(CalcError::UnexpectedChar('x'))
    );
    assert_eq!(
        tokens("*/%^!()").unwrap(),
        vec![
            Token::Star,
            Token::Slash,
            Token::Percent,
            Token::Caret,
            Token::Bang,
            Token::LParen,
            Token::RParen,
            Token::Eof
        ]
    );
    assert_eq!(tokens("").unwrap(), vec![Token::Eof]);
}

#[test]
fn number_literals() {
    assert_eq!(tokens(".5").unwrap()[0], Token::Number { start: 0, end: 2 });
    assert_eq!(tokens("5.").unwrap()[0], Token::Number { start: 0, end: 2 });
    assert_eq!(tokens("1E5").unwrap()[0], Token::Number { start: 0, end: 3 });
    assert_eq!(tokens("1.e+7").unwrap()[0], Token::Number { start: 0, end: 5 });
    assert_eq!(tokens("2e-3-1").unwrap()[0], Token::Number { start: 0, end: 4 });
    assert_eq!(tokens("1..2").err(), Some(CalcError::InvalidNumber { start: 0, end: 4 }));
    assert_eq!(tokens("3 + 1e").err(), Some(CalcError::InvalidNumber { start: 4, end: 6 }));
    assert_eq!(tokens(".").err(), Some(CalcError::InvalidNumber { start: 0, end: 1 }));
    assert_eq!(tokens("1e+").err(), Some(CalcError::InvalidNumber { start: 0, end: 3 }));
    assert_eq!(tokens("1e5e5").err(), Some(CalcError::InvalidNumber { start: 0, end: 5 }));
}

#[test]
fn precedence_and_associativity() {
    assert_eq!(compile("2^3^2").ops, vec![push(0, 1), push(2, 3), push(4, 5), Op::Pow, Op::Pow]);
    assert_eq!(compile("-2^2").ops, vec![push(1, 2), push(3, 4), Op::Pow, Op::Neg]);
    assert_eq!(compile("10-3*2").ops, vec![push(0, 2), push(3, 4), push(5, 6), Op::Mul, Op::Sub]);
    assert_eq!(compile("8-2-1").ops, vec![push(0, 1), push(2, 3), Op::Sub, push(4, 5), Op::Sub]);
    assert_eq!(compile("3!!").ops, vec![push(0, 1), Op::Fact, Op::Fact]);
    assert_eq!(compile("2^-1").ops, vec![push(0, 1), push(3, 4), Op::Neg, Op::Pow]);
    assert_eq!(compile("7%(2)").ops, vec![push(0, 1), push(3, 4), Op::Rem]);
    assert!(compile("2^3^2").error.is_none());
}

#[test]
fn syntax_errors() {
    let p = compile("(1+2");
    assert_eq!(p.ops, vec![push(1, 2), push(3, 4), Op::Add]);
    assert_eq!(p.error, Some(CalcError::Expected(Token::Eof)));
    let p = compile("2 3");
    assert_eq!(p.ops, vec![push(0, 1)]);
    assert_eq!(p.error, Some(CalcError::TrailingChars(Token::Number { start: 2, end: 3 })));
    let p = compile(")");
    assert!(p.ops.is_empty());
    assert_eq!(p.error, Some(CalcError::UnexpectedToken(Token::RParen)));
    let p = compile("1+");
    assert_eq!(p.ops, vec![push(0, 1)]);
    assert_eq!(p.error, Some(CalcError::UnexpectedToken(Token::Eof)));
    let p = compile("1 $ 2");
    assert!(p.ops.is_empty());
    assert_eq!(p.error, Some(CalcError::UnexpectedChar('$')));
}

#[test]
fn parser_cursor() {
    let mut parser = Parser::new(vec![Token::Minus, Token::Eof]);
    assert_eq!(parser.peek(), Token::Minus);
    assert_eq!(parser.advance(), Token::Minus);
    assert_eq!(parser.advance(), Token::Eof);
    assert_eq!(parser.pos, 1);
    let mut parser = Parser::new(vec![Token::Number { start: 0, end: 1 }, Token::Bang, Token::Eof]);
    assert!(parser.parse().is_ok());
    assert_eq!(parser.ops, vec![push(0, 1), Op::Fact]);
}

// Every candidate number text over the characters a number token can hold:
// the lexer accepts it exactly when `f64::from_str` does.
#[test]
fn literal_validity_agrees_with_std() {
    let alphabet = ['1', '0', '.', 'e', 'E', '+', '-'];
    let mut texts: Vec<String> = vec![String::new()];
    let mut checked = 0;
    for _ in 0..6 {
        let mut next = Vec::new();
        for t in &texts {
            for c in alphabet {
                let mut s = t.clone();
                s.push(c);
                next.push(s);
            }
        }
        for s in &next {
            let first = s.chars().next().unwrap();
            if !(first.is_ascii_digit() || first == '.') {
                continue;
            }
            match tokens(s) {
                Ok(t) => {
                    if let Token::Number { start, end } = t[0] {
                        let text: String = s.chars().skip(start).take(end - start).collect();
                        assert!(text.parse::<f64>().is_ok(), "{text}");
                        checked += 1;
                    }
                }
                Err(CalcError::InvalidNumber { start, end }) => {
                    let text: String = s.chars().skip(start).take(end - start).collect();
                    assert!(text.parse::<f64>().is_err(), "{text}");
                    checked += 1;
                }
                Err(_) => {}
            }
        }
        texts = next;
    }
    assert!(checked > 1000);
}

#[test]
fn cursor_past_the_end() {
    let mut lx = Lexer::new("1");
    lx.advance();
    lx.advance();
    assert_eq!(lx.pos, 2);
    lx.skip_ws();
    assert_eq!(lx.pos, 2);
    assert_eq!(lx.read_number(), Err(CalcError::InvalidNumber { start: 2, end: 2 }));
    assert_eq!(lx.tokenize(), Ok(vec![Token::Eof]));
    let mut lx = Lexer::new("  +");
    lx.skip_ws();
    assert_eq!(lx.pos, 2);
    lx.skip_ws();
    assert_eq!(lx.pos, 2);
    assert_eq!(lx.tokenize(), Ok(vec![Token::Plus, Token::Eof]));
}

#[test]
fn subtraction_and_division_group_to_the_left() {
    assert_eq!(
        compile("1-2-3").ops,
        vec![push(0, 1), push(2, 3), Op::Sub, push(4, 5), Op::Sub]
    );
    assert_eq!(
        compile("1+2-3").ops,
        vec![push(0, 1), push(2, 3), Op::Add, push(4, 5), Op::Sub]
    );
    assert_eq!(
        compile("8/4/2").ops,
        vec![push(0, 1), push(2, 3), Op::Div, push(4, 5), Op::Div]
    );
    assert_eq!(
        compile("7%4*2").ops,
        vec![push(0, 1), push(2, 3), Op::Rem, push(4, 5), Op::Mul]
    );
}

#[test]
fn power_groups_to_the_right_and_under_minus() {
    let p = compile("2^3^2");
    assert_eq!(p.error, None);
    assert_eq!(p.ops, vec![push(0, 1), push(2, 3), push(4, 5), Op::Pow, Op::Pow]);
    let q = compile("-2^2");
    assert_eq!(q.error, None);
    assert_eq!(q.ops, vec![push(1, 2), push(3, 4), Op::Pow, Op::Neg]);
    let r = compile("2^-1^2");
    assert_eq!(r.ops, vec![push(0, 1), push(3, 4), push(5, 6), Op::Pow, Op::Neg, Op::Pow]);
}
