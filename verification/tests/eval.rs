// The calculator's scenarios, run through the library: `compile` lowers the
// expression and the integer operations of the library evaluate it. Every
// literal here is integral, so the integer operations are the ones the
// calculator applies.
use calc_flash::bigint::BigInt;
use calc_flash::factorial::{fact_cache, factorial, prime_factorial};
use calc_flash::natural::Natural;
use calc_flash::parser::Op;
use calc_flash::program::compile;
use calc_flash::token::CalcError;

enum Val {
    Int(BigInt),
    // A literal with a fraction or an exponent: only its text is kept here.
    Other,
}

#[derive(Debug, PartialEq)]
enum Failure {
    Calc(CalcError),
    FactorialDomain,
}

fn literal(text: &str) -> Val {
    if text.chars().all(|c| c.is_ascii_digit()) {
        let n: i64 = text.parse().unwrap();
        Val::Int(BigInt::from_i64(n))
    } else {
        Val::Other
    }
}

fn as_int(v: Val) -> BigInt {
    match v {
        Val::Int(x) => x,
        Val::Other => panic!("a non-integral value reached integer arithmetic"),
    }
}

fn eval_int(expr: &str) -> Result<BigInt, Failure> {
    let chars: Vec<char> = expr.chars().collect();
    let program = compile(expr);
    let table = fact_cache();
    let mut stack: Vec<Val> = Vec::new();
    for op in program.ops.iter() {
        let v = match *op {
            Op::Push { start, end } => {
                let text: String = chars[start..end].iter().collect();
                literal(&text)
            }
            Op::Neg => Val::Int(as_int(stack.pop().unwrap()).neg()),
            Op::Fact => match stack.pop().unwrap() {
                Val::Int(x) => {
                    if x.is_negative() {
                        return Err(Failure::FactorialDomain);
                    }
                    let n = x.magnitude().to_u32().unwrap() as u64;
                    Val::Int(BigInt::from_natural(factorial(n, &table)))
                }
                Val::Other => return Err(Failure::FactorialDomain),
            },
            binary => {
                let b = as_int(stack.pop().unwrap());
                let a = as_int(stack.pop().unwrap());
                Val::Int(match binary {
                    Op::Add => a.add(&b),
                    Op::Sub => a.sub(&b),
                    Op::Mul => a.mul(&b),
                    Op::Div => {
                        if b.is_zero() {
                            return Err(Failure::Calc(CalcError::DivisionByZero));
                        }
                        a.div_exact(&b).expect("an exact quotient")
                    }
                    Op::Rem => {
                        if b.is_zero() {
                            return Err(Failure::Calc(CalcError::DivisionByZero));
                        }
                        a.rem(&b)
                    }
                    Op::Pow => {
                        assert!(!b.is_negative());
                        a.checked_pow(&b).map_err(Failure::Calc)?
                    }
                    _ => unreachable!(),
                })
            }
        };
        stack.push(v);
    }
    if let Some(e) = program.error {
        return Err(Failure::Calc(e));
    }
    assert_eq!(stack.len(), 1);
    Ok(as_int(stack.pop().unwrap()))
}

fn evald(expr: &str) -> String {
    eval_int(expr).unwrap().to_decimal()
}

#[test]
fn basic() {
    assert_eq!(evald("2+2"), "4");
    assert_eq!(evald("10-3*2"), "4");
}

#[test]
fn parens() {
    assert_eq!(evald("(1+2)*3"), "9");
}

#[test]
fn power() {
    assert_eq!(evald("2^10"), "1024");
    assert_eq!(evald("2^3^2"), "512");
}

#[test]
fn fact() {
    assert_eq!(evald("5!"), "120");
    assert_eq!(evald("(3+2)!"), "120");
}

#[test]
fn big_fact() {
    assert!(eval_int("(10!)!").is_ok());
}

#[test]
fn unary() {
    assert_eq!(evald("-5+3"), "-2");
    assert_eq!(evald("--5"), "5");
}

#[test]
fn divzero() {
    assert!(eval_int("1/0").is_err());
}

#[test]
fn fact_err() {
    assert!(eval_int("(-1)!").is_err());
    assert!(eval_int("1.5!").is_err());
}

#[test]
fn pow_too_large() {
    assert!(eval_int("2^9999999999").is_err());
}

#[test]
fn cached_factorial() {
    let table = fact_cache();
    let cached = factorial(1000, &table).to_decimal();
    let direct = prime_factorial(1000).to_decimal();
    assert_eq!(cached, direct);
}

#[test]
fn exponent_limit_is_four_million() {
    assert_eq!(
        eval_int("2^4000001").err(),
        Some(Failure::Calc(CalcError::ExponentTooLarge))
    );
    let big = eval_int("2^4000000").unwrap();
    assert_eq!(big.magnitude().significant_bits(), 4_000_001);
}

#[test]
fn exact_division_and_remainder() {
    assert_eq!(evald("84/7"), "12");
    assert_eq!(evald("-7%2"), "-1");
    assert_eq!(evald("7%-2"), "1");
    assert_eq!(evald("2*-3"), "-6");
}

#[test]
fn arithmetic_error_precedes_syntax_error() {
    assert_eq!(
        eval_int("(1/0").err(),
        Some(Failure::Calc(CalcError::DivisionByZero))
    );
    assert_eq!(
        eval_int("1/0 2").err(),
        Some(Failure::Calc(CalcError::DivisionByZero))
    );
}

#[test]
fn factorial_beyond_table_matches_recurrence() {
    let table = fact_cache();
    let f1000 = factorial(1000, &table);
    let f1001 = factorial(1001, &table);
    assert_eq!(f1000.mul(&Natural::from_u64(1001)).to_decimal(), f1001.to_decimal());
}
