//! Verified core of an arbitrary-precision integer calculator: the lexer, the
//! recursive-descent parser that lowers an expression to a postfix program,
//! exact integer arithmetic on top of GMP (through `rug`), and the factorial
//! machinery (prime sieve, Legendre exponents, balanced product tree).
pub mod natural;
pub mod bigint;
pub mod powers;
pub mod display;
pub mod token;
pub mod message;
pub mod lexer;
pub mod parser;
pub mod program;
pub mod grouping;
pub mod primes;
pub mod factorial;
pub mod legendre;
pub mod args;
pub mod repl;
