//! Recursive-descent parser. It lowers the tokens of an expression to a
//! postfix program, in which each operation comes in the order in which the
//! expression evaluates it:
//!
//! ```text
//! expr    = term   ((+ | -)  term)*
//! term    = unary  ((* | / | %) unary)*
//! unary   = - unary | power
//! power   = postfix (^ unary)?      right-associative
//! postfix = primary !*
//! primary = number | ( expr )
//! ```
//!
//! When the tokens do not parse, the program holds the operations that come
//! before the point of the error, so that an evaluator meets an arithmetic
//! error among them before it reports the syntax error.
use crate::token::{CalcError, Token};
use vstd::prelude::*;

verus! {

/// One step of a postfix program.
#[derive(Clone, Copy, Debug, PartialEq, Eq, Structural)]
pub enum Op {
    /// Push the number written at `start..end` of the input.
    Push { start: usize, end: usize },
    Add,
    Sub,
    Mul,
    Div,
    Rem,
    Neg,
    Pow,
    Fact,
}

/// What a parsing step yields: the operations it emits, and the position
/// after what it read or the error that stopped it.
pub type Parsed = (Seq<Op>, Result<int, CalcError>);

/// The token at `p`, `Eof` outside the sequence.
pub open spec fn tok(t: Seq<Token>, p: int) -> Token {
    if 0 <= p < t.len() {
        t[p]
    } else {
        Token::Eof
    }
}

/// `ops` followed by `op` when `r` is a success.
pub open spec fn then_op(ops: Seq<Op>, r: Result<int, CalcError>, op: Op) -> Seq<Op> {
    if r is Ok {
        ops.push(op)
    } else {
        ops
    }
}

/// The operation of a `*`, `/` or `%` token.
pub open spec fn mul_op(x: Token) -> Option<Op> {
    match x {
        Token::Star => Some(Op::Mul),
        Token::Slash => Some(Op::Div),
        Token::Percent => Some(Op::Rem),
        _ => None,
    }
}

/// The operation of a `+` or `-` token.
pub open spec fn add_op(x: Token) -> Option<Op> {
    match x {
        Token::Plus => Some(Op::Add),
        Token::Minus => Some(Op::Sub),
        _ => None,
    }
}

/// `primary = number | ( expr )`.
pub open spec fn primary(t: Seq<Token>, p: int) -> Parsed
    decreases t.len() - p, 0int,
{
    if p < 0 || p >= t.len() {
        (seq![], Err(CalcError::UnexpectedToken(Token::Eof)))
    } else {
        match t[p] {
            Token::Number { start, end } => (seq![Op::Push { start, end }], Ok(p + 1)),
            Token::LParen => {
                let (o, r) = expr(t, p + 1);
                match r {
                    Ok(q) => if tok(t, q) == Token::RParen {
                        (o, Ok(q + 1))
                    } else {
                        (o, Err(CalcError::Expected(tok(t, q))))
                    },
                    Err(e) => (o, Err(e)),
                }
            },
            other => (seq![], Err(CalcError::UnexpectedToken(other))),
        }
    }
}

/// The `!`s after an operand, one `Fact` each.
pub open spec fn bangs(t: Seq<Token>, q: int, acc: Seq<Op>) -> Parsed
    decreases t.len() - q,
{
    if 0 <= q < t.len() && t[q] == Token::Bang {
        bangs(t, q + 1, acc.push(Op::Fact))
    } else {
        (acc, Ok(q))
    }
}

/// `postfix = primary !*`.
pub open spec fn postfix(t: Seq<Token>, p: int) -> Parsed
    decreases t.len() - p, 1int,
{
    let (o, r) = primary(t, p);
    match r {
        Ok(q) => if p < q <= t.len() {
            bangs(t, q, o)
        } else {
            (o, r)
        },
        Err(_) => (o, r),
    }
}

/// `power = postfix (^ unary)?`.
pub open spec fn power(t: Seq<Token>, p: int) -> Parsed
    decreases t.len() - p, 2int,
{
    let (o1, r1) = postfix(t, p);
    match r1 {
        Ok(q) => if p <= q < t.len() && t[q] == Token::Caret {
            let (o2, r2) = unary(t, q + 1);
            (then_op(o1 + o2, r2, Op::Pow), r2)
        } else {
            (o1, r1)
        },
        Err(_) => (o1, r1),
    }
}

/// `unary = - unary | power`.
pub open spec fn unary(t: Seq<Token>, p: int) -> Parsed
    decreases t.len() - p, 3int,
{
    if 0 <= p < t.len() && t[p] == Token::Minus {
        let (o, r) = unary(t, p + 1);
        (then_op(o, r, Op::Neg), r)
    } else {
        power(t, p)
    }
}

/// The `((* | / | %) unary)*` part of a term, from position `q`, after `acc`.
pub open spec fn term_rest(t: Seq<Token>, q: int, acc: Seq<Op>) -> Parsed
    decreases t.len() - q, 4int,
{
    if 0 <= q < t.len() && mul_op(t[q]) is Some {
        let op = mul_op(t[q])->0;
        let (o2, r2) = unary(t, q + 1);
        match r2 {
            Ok(q2) => if q < q2 <= t.len() {
                term_rest(t, q2, acc + o2.push(op))
            } else {
                (acc + o2.push(op), r2)
            },
            Err(_) => (acc + o2, r2),
        }
    } else {
        (acc, Ok(q))
    }
}

/// `term = unary ((* | / | %) unary)*`.
pub open spec fn term(t: Seq<Token>, p: int) -> Parsed
    decreases t.len() - p, 5int,
{
    let (o, r) = unary(t, p);
    match r {
        Ok(q) => if p < q <= t.len() {
            term_rest(t, q, o)
        } else {
            (o, r)
        },
        Err(_) => (o, r),
    }
}

/// The `((+ | -) term)*` part of an expression, from position `q`, after
/// `acc`.
pub open spec fn expr_rest(t: Seq<Token>, q: int, acc: Seq<Op>) -> Parsed
    decreases t.len() - q, 6int,
{
    if 0 <= q < t.len() && add_op(t[q]) is Some {
        let op = add_op(t[q])->0;
        let (o2, r2) = term(t, q + 1);
        match r2 {
            Ok(q2) => if q < q2 <= t.len() {
                expr_rest(t, q2, acc + o2.push(op))
            } else {
                (acc + o2.push(op), r2)
            },
            Err(_) => (acc + o2, r2),
        }
    } else {
        (acc, Ok(q))
    }
}

/// `expr = term ((+ | -) term)*`.
pub open spec fn expr(t: Seq<Token>, p: int) -> Parsed
    decreases t.len() - p, 7int,
{
    let (o, r) = term(t, p);
    match r {
        Ok(q) => if p < q <= t.len() {
            expr_rest(t, q, o)
        } else {
            (o, r)
        },
        Err(_) => (o, r),
    }
}

/// A whole expression from position `p`: `expr` followed by `Eof`.
pub open spec fn parse_from(t: Seq<Token>, p: int) -> Parsed {
    let (o, r) = expr(t, p);
    match r {
        Ok(q) => if tok(t, q) == Token::Eof {
            (o, r)
        } else {
            (o, Err(CalcError::TrailingChars(tok(t, q))))
        },
        Err(_) => (o, r),
    }
}

/// A whole expression: `expr` followed by `Eof`.
pub open spec fn parse_all(t: Seq<Token>) -> Parsed {
    parse_from(t, 0)
}

/// A token sequence as the lexer produces it: it ends with `Eof`.
pub open spec fn well_formed(t: Seq<Token>) -> bool {
    t.len() > 0 && t.last() == Token::Eof
}

/// The cursor of the parser over the tokens, and the program emitted so far.
pub struct Parser {
    pub tokens: Vec<Token>,
    pub pos: usize,
    pub ops: Vec<Op>,
}

/// The parser's state is usable: the tokens end with `Eof` and the cursor is
/// on one of them.
pub open spec fn ready(p: &Parser) -> bool {
    well_formed(p.tokens@) && p.pos < p.tokens.len()
}

/// What a parsing method owes for the spec step `s`, from state `a` to `b`.
pub open spec fn follows(a: &Parser, b: &Parser, s: Parsed, r: Result<(), CalcError>) -> bool {
    &&& b.tokens@ == a.tokens@
    &&& ready(b)
    &&& b.ops@ == a.ops@ + s.0
    &&& match r {
        Ok(_) => s.1 == Ok::<int, CalcError>(b.pos as int) && a.pos < b.pos,
        Err(e) => s.1 == Err::<int, CalcError>(e),
    }
}

impl Parser {
    /// A parser at the first of `tokens`, with an empty program.
    pub fn new(tokens: Vec<Token>) -> (r: Parser)
        ensures
            r.tokens == tokens,
            r.pos == 0,
            r.ops@ == Seq::<Op>::empty(),
    {
        Parser { tokens, pos: 0, ops: Vec::new() }
    }

    /// The token under the cursor.
    pub fn peek(&self) -> (r: Token)
        requires
            self.pos < self.tokens.len(),
        ensures
            r == self.tokens@[self.pos as int],
    {
        self.tokens[self.pos]
    }

    /// Returns the token under the cursor and moves past it, staying on the
    /// last token.
    pub fn advance(&mut self) -> (r: Token)
        requires
            old(self).pos < old(self).tokens.len(),
        ensures
            r == old(self).tokens@[old(self).pos as int],
            final(self).tokens == old(self).tokens,
            final(self).ops == old(self).ops,
            final(self).pos == if old(self).pos + 1 < old(self).tokens.len() {
                old(self).pos + 1
            } else {
                old(self).pos as int
            },
    {
        let t = self.tokens[self.pos];
        if self.pos + 1 < self.tokens.len() {
            self.pos = self.pos + 1;
        }
        t
    }

    /// `primary = number | ( expr )`.
    fn parse_primary(&mut self) -> (r: Result<(), CalcError>)
        requires
            ready(old(self)),
        ensures
            follows(old(self), final(self), primary(old(self).tokens@, old(self).pos as int), r),
        decreases old(self).tokens.len() - old(self).pos, 0int,
    {
        proof {
            lemma_not_last(self);
        }
        match self.peek() {
            Token::Number { start, end } => {
                self.advance();
                self.ops.push(Op::Push { start, end });
                proof {
                    assert(self.ops@ =~= old(self).ops@ + seq![Op::Push { start, end }]);
                }
                Ok(())
            },
            Token::LParen => {
                self.advance();
                self.parse_expr()?;
                proof {
                    lemma_not_last(self);
                }
                let t = self.peek();
                if t != Token::RParen {
                    return Err(CalcError::Expected(t));
                }
                self.advance();
                Ok(())
            },
            other => Err(CalcError::UnexpectedToken(other)),
        }
    }

    /// `postfix = primary !*`.
    fn parse_postfix(&mut self) -> (r: Result<(), CalcError>)
        requires
            ready(old(self)),
        ensures
            follows(old(self), final(self), postfix(old(self).tokens@, old(self).pos as int), r),
        decreases old(self).tokens.len() - old(self).pos, 1int,
    {
        let ghost t = self.tokens@;
        let ghost p0 = self.pos as int;
        self.parse_primary()?;
        let ghost mut acc = primary(t, p0).0;
        loop
            invariant
                t == old(self).tokens@,
                p0 == old(self).pos,
                self.tokens@ == t,
                ready(self),
                p0 < self.pos,
                self.ops@ == old(self).ops@ + acc,
                postfix(t, p0) == bangs(t, self.pos as int, acc),
            decreases self.tokens.len() - self.pos,
        {
            proof {
                lemma_not_last(self);
            }
            if self.peek() != Token::Bang {
                return Ok(());
            }
            self.advance();
            self.ops.push(Op::Fact);
            proof {
                acc = acc.push(Op::Fact);
                assert(self.ops@ =~= old(self).ops@ + acc);
            }
        }
    }

    /// `power = postfix (^ unary)?`.
    fn parse_power(&mut self) -> (r: Result<(), CalcError>)
        requires
            ready(old(self)),
        ensures
            follows(old(self), final(self), power(old(self).tokens@, old(self).pos as int), r),
        decreases old(self).tokens.len() - old(self).pos, 2int,
    {
        let ghost t = self.tokens@;
        let ghost p0 = self.pos as int;
        self.parse_postfix()?;
        proof {
            lemma_not_last(self);
        }
        if self.peek() == Token::Caret {
            let ghost q = self.pos as int;
            self.advance();
            let ghost mid = self.ops@;
            let r = self.parse_unary();
            proof {
                assert(mid + unary(t, q + 1).0 == self.ops@);
            }
            match r {
                Ok(()) => {
                    self.ops.push(Op::Pow);
                    proof {
                        assert(self.ops@ =~= old(self).ops@ + power(t, p0).0);
                    }
                    Ok(())
                },
                Err(e) => {
                    proof {
                        assert(self.ops@ =~= old(self).ops@ + power(t, p0).0);
                    }
                    Err(e)
                },
            }
        } else {
            Ok(())
        }
    }

    /// `unary = - unary | power`.
    fn parse_unary(&mut self) -> (r: Result<(), CalcError>)
        requires
            ready(old(self)),
        ensures
            follows(old(self), final(self), unary(old(self).tokens@, old(self).pos as int), r),
        decreases old(self).tokens.len() - old(self).pos, 3int,
    {
        let ghost t = self.tokens@;
        let ghost p0 = self.pos as int;
        proof {
            lemma_not_last(self);
        }
        if self.peek() == Token::Minus {
            self.advance();
            self.parse_unary()?;
            self.ops.push(Op::Neg);
            proof {
                assert(self.ops@ =~= old(self).ops@ + unary(t, p0).0);
            }
            return Ok(());
        }
        self.parse_power()
    }

    /// `term = unary ((* | / | %) unary)*`.
    fn parse_term(&mut self) -> (r: Result<(), CalcError>)
        requires
            ready(old(self)),
        ensures
            follows(old(self), final(self), term(old(self).tokens@, old(self).pos as int), r),
        decreases old(self).tokens.len() - old(self).pos, 5int,
    {
        let ghost t = self.tokens@;
        let ghost p0 = self.pos as int;
        self.parse_unary()?;
        let ghost mut acc = unary(t, p0).0;
        loop
            invariant
                t == old(self).tokens@,
                p0 == old(self).pos,
                self.tokens@ == t,
                ready(self),
                p0 < self.pos,
                self.ops@ == old(self).ops@ + acc,
                term(t, p0) == term_rest(t, self.pos as int, acc),
            decreases self.tokens.len() - self.pos,
        {
            proof {
                lemma_not_last(self);
            }
            let op = match self.peek() {
                Token::Star => Op::Mul,
                Token::Slash => Op::Div,
                Token::Percent => Op::Rem,
                _ => {
                    return Ok(());
                },
            };
            let ghost q = self.pos as int;
            self.advance();
            let ghost before = self.ops@;
            let r = self.parse_unary();
            let ghost o2 = self.ops@.subrange(before.len() as int, self.ops@.len() as int);
            proof {
                assert(self.ops@ =~= old(self).ops@ + (acc + o2));
                assert(before + o2 =~= self.ops@);
                assert(o2 == unary(t, q + 1).0);
            }
            match r {
                Ok(()) => {
                    self.ops.push(op);
                    proof {
                        acc = acc + o2.push(op);
                        assert(self.ops@ =~= old(self).ops@ + acc);
                    }
                },
                Err(e) => {
                    return Err(e);
                },
            }
        }
    }

    /// `expr = term ((+ | -) term)*`.
    fn parse_expr(&mut self) -> (r: Result<(), CalcError>)
        requires
            ready(old(self)),
        ensures
            follows(old(self), final(self), expr(old(self).tokens@, old(self).pos as int), r),
        decreases old(self).tokens.len() - old(self).pos, 7int,
    {
        let ghost t = self.tokens@;
        let ghost p0 = self.pos as int;
        self.parse_term()?;
        let ghost mut acc = term(t, p0).0;
        loop
            invariant
                t == old(self).tokens@,
                p0 == old(self).pos,
                self.tokens@ == t,
                ready(self),
                p0 < self.pos,
                self.ops@ == old(self).ops@ + acc,
                expr(t, p0) == expr_rest(t, self.pos as int, acc),
            decreases self.tokens.len() - self.pos,
        {
            proof {
                lemma_not_last(self);
            }
            let op = match self.peek() {
                Token::Plus => Op::Add,
                Token::Minus => Op::Sub,
                _ => {
                    return Ok(());
                },
            };
            let ghost q = self.pos as int;
            self.advance();
            let ghost before = self.ops@;
            let r = self.parse_term();
            let ghost o2 = self.ops@.subrange(before.len() as int, self.ops@.len() as int);
            proof {
                assert(self.ops@ =~= old(self).ops@ + (acc + o2));
                assert(before + o2 =~= self.ops@);
                assert(o2 == term(t, q + 1).0);
            }
            match r {
                Ok(()) => {
                    self.ops.push(op);
                    proof {
                        acc = acc + o2.push(op);
                        assert(self.ops@ =~= old(self).ops@ + acc);
                    }
                },
                Err(e) => {
                    return Err(e);
                },
            }
        }
    }

    /// Parses the tokens from the cursor on: an expression followed by `Eof`.
    pub fn parse(&mut self) -> (r: Result<(), CalcError>)
        requires
            ready(old(self)),
        ensures
            final(self).tokens@ == old(self).tokens@,
            final(self).ops@ == old(self).ops@ + parse_from(
                old(self).tokens@,
                old(self).pos as int,
            ).0,
            match r {
                Ok(_) => parse_from(old(self).tokens@, old(self).pos as int).1 is Ok,
                Err(e) => parse_from(old(self).tokens@, old(self).pos as int).1 == Err::<
                    int,
                    CalcError,
                >(e),
            },
    {
        self.parse_expr()?;
        let t = self.peek();
        if t != Token::Eof {
            return Err(CalcError::TrailingChars(t));
        }
        Ok(())
    }
}

/// A token that is not `Eof` is not the last one.
proof fn lemma_not_last(p: &Parser)
    requires
        ready(p),
    ensures
        p.tokens@[p.pos as int] != Token::Eof ==> p.pos + 1 < p.tokens.len(),
{
}

} // verus!
