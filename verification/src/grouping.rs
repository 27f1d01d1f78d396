//! How the parser groups operators. `-`, `+`, `*`, `/` and `%` associate to
//! the left, `^` to the right, a product binds tighter than a sum, and a
//! leading minus applies to a whole power: `-a^b` is `-(a^b)`. The grouping
//! of `+ - * / % ^` and of a leading minus is stated over the grammar's
//! steps, for operands of any shape; every law is stated over
//! `compile_spec`, for operands that are single numbers.
use crate::lexer::lex;
use crate::parser::{
    add_op, bangs, expr, expr_rest, mul_op, parse_all, postfix, power, primary, term, term_rest,
    tok, unary, Op,
};
use crate::program::compile_spec;
use crate::token::{CalcError, Token};
use vstd::prelude::*;

verus! {

/// Each step of the grammar that succeeds ends after it starts, within the
/// tokens (`bangs`, which may read nothing, ends where it starts or later).
proof fn lemma_bangs_advances(t: Seq<Token>, q: int, acc: Seq<Op>)
    requires
        q <= t.len(),
    ensures
        bangs(t, q, acc).1 matches Ok(q2) && q <= q2 <= t.len(),
    decreases t.len() - q,
{
    if 0 <= q < t.len() && t[q] == Token::Bang {
        lemma_bangs_advances(t, q + 1, acc.push(Op::Fact));
    }
}

proof fn lemma_primary_advances(t: Seq<Token>, p: int)
    ensures
        primary(t, p).1 matches Ok(q) ==> p < q <= t.len(),
    decreases t.len() - p, 0int,
{
    if 0 <= p < t.len() && t[p] == Token::LParen {
        lemma_expr_advances(t, p + 1);
    }
}

proof fn lemma_postfix_advances(t: Seq<Token>, p: int)
    ensures
        postfix(t, p).1 matches Ok(q) ==> p < q <= t.len(),
    decreases t.len() - p, 1int,
{
    lemma_primary_advances(t, p);
    let (o, r) = primary(t, p);
    if let Ok(q) = r {
        lemma_bangs_advances(t, q, o);
    }
}

proof fn lemma_power_advances(t: Seq<Token>, p: int)
    ensures
        power(t, p).1 matches Ok(q) ==> p < q <= t.len(),
    decreases t.len() - p, 2int,
{
    lemma_postfix_advances(t, p);
    if let Ok(q) = postfix(t, p).1 {
        if p <= q < t.len() && t[q] == Token::Caret {
            lemma_unary_advances(t, q + 1);
        }
    }
}

proof fn lemma_unary_advances(t: Seq<Token>, p: int)
    ensures
        unary(t, p).1 matches Ok(q) ==> p < q <= t.len(),
    decreases t.len() - p, 3int,
{
    if 0 <= p < t.len() && t[p] == Token::Minus {
        lemma_unary_advances(t, p + 1);
    } else {
        lemma_power_advances(t, p);
    }
}

proof fn lemma_term_rest_advances(t: Seq<Token>, q: int, acc: Seq<Op>)
    requires
        q <= t.len(),
    ensures
        term_rest(t, q, acc).1 matches Ok(q2) ==> q <= q2 <= t.len(),
    decreases t.len() - q, 4int,
{
    if 0 <= q < t.len() && mul_op(t[q]) is Some {
        let op = mul_op(t[q])->0;
        lemma_unary_advances(t, q + 1);
        let (o2, r2) = unary(t, q + 1);
        if let Ok(q2) = r2 {
            lemma_term_rest_advances(t, q2, acc + o2.push(op));
        }
    }
}

proof fn lemma_term_advances(t: Seq<Token>, p: int)
    ensures
        term(t, p).1 matches Ok(q) ==> p < q <= t.len(),
    decreases t.len() - p, 5int,
{
    lemma_unary_advances(t, p);
    let (o, r) = unary(t, p);
    if let Ok(q) = r {
        lemma_term_rest_advances(t, q, o);
    }
}

proof fn lemma_expr_rest_advances(t: Seq<Token>, q: int, acc: Seq<Op>)
    requires
        q <= t.len(),
    ensures
        expr_rest(t, q, acc).1 matches Ok(q2) ==> q <= q2 <= t.len(),
    decreases t.len() - q, 6int,
{
    if 0 <= q < t.len() && add_op(t[q]) is Some {
        let op = add_op(t[q])->0;
        lemma_term_advances(t, q + 1);
        let (o2, r2) = term(t, q + 1);
        if let Ok(q2) = r2 {
            lemma_expr_rest_advances(t, q2, acc + o2.push(op));
        }
    }
}

proof fn lemma_expr_advances(t: Seq<Token>, p: int)
    ensures
        expr(t, p).1 matches Ok(q) ==> p < q <= t.len(),
    decreases t.len() - p, 7int,
{
    lemma_term_advances(t, p);
    let (o, r) = term(t, p);
    if let Ok(q) = r {
        lemma_expr_rest_advances(t, q, o);
    }
}

/// A postfix operand starts on a token, and not on a minus.
proof fn lemma_postfix_starts(t: Seq<Token>, p: int)
    ensures
        postfix(t, p).1 is Ok ==> 0 <= p < t.len() && t[p] != Token::Minus,
{
}

/// `a o1 b o2 c`, where `o1` and `o2` are each `*`, `/` or `%`, is grouped as
/// `(a o1 b) o2 c`: the term's program is that of `a`, then that of `b`, then
/// `o1`, then that of `c`, then `o2`. The operands `a`, `b` and `c` start at
/// `p`, `q1 + 1` and `q2 + 1`, and the term ends at `q3`.
pub proof fn lemma_term_left_assoc(t: Seq<Token>, p: int, q1: int, q2: int, q3: int)
    requires
        unary(t, p).1 == Ok::<int, CalcError>(q1),
        mul_op(tok(t, q1)) is Some,
        unary(t, q1 + 1).1 == Ok::<int, CalcError>(q2),
        mul_op(tok(t, q2)) is Some,
        unary(t, q2 + 1).1 == Ok::<int, CalcError>(q3),
        mul_op(tok(t, q3)) is None,
    ensures
        term(t, p) == (
            unary(t, p).0 + unary(t, q1 + 1).0.push(mul_op(tok(t, q1))->0) + unary(
                t,
                q2 + 1,
            ).0.push(mul_op(tok(t, q2))->0),
            Ok::<int, CalcError>(q3),
        ),
{
    lemma_unary_advances(t, p);
    lemma_unary_advances(t, q1 + 1);
    lemma_unary_advances(t, q2 + 1);
    let a = unary(t, p).0;
    let b = unary(t, q1 + 1).0.push(mul_op(tok(t, q1))->0);
    let c = unary(t, q2 + 1).0.push(mul_op(tok(t, q2))->0);
    assert(term_rest(t, q3, a + b + c) == (a + b + c, Ok::<int, CalcError>(q3)));
    assert(term_rest(t, q2, a + b) == term_rest(t, q3, a + b + c));
    assert(term_rest(t, q1, a) == term_rest(t, q2, a + b));
}

/// `a o1 b o2 c`, where `o1` and `o2` are each `+` or `-`, is grouped as
/// `(a o1 b) o2 c`: the expression's program is that of `a`, then that of `b`,
/// then `o1`, then that of `c`, then `o2`. The terms `a`, `b` and `c` start at
/// `p`, `q1 + 1` and `q2 + 1`, and the expression ends at `q3`.
pub proof fn lemma_expr_left_assoc(t: Seq<Token>, p: int, q1: int, q2: int, q3: int)
    requires
        term(t, p).1 == Ok::<int, CalcError>(q1),
        add_op(tok(t, q1)) is Some,
        term(t, q1 + 1).1 == Ok::<int, CalcError>(q2),
        add_op(tok(t, q2)) is Some,
        term(t, q2 + 1).1 == Ok::<int, CalcError>(q3),
        add_op(tok(t, q3)) is None,
    ensures
        expr(t, p) == (
            term(t, p).0 + term(t, q1 + 1).0.push(add_op(tok(t, q1))->0) + term(
                t,
                q2 + 1,
            ).0.push(add_op(tok(t, q2))->0),
            Ok::<int, CalcError>(q3),
        ),
{
    lemma_term_advances(t, p);
    lemma_term_advances(t, q1 + 1);
    lemma_term_advances(t, q2 + 1);
    let a = term(t, p).0;
    let b = term(t, q1 + 1).0.push(add_op(tok(t, q1))->0);
    let c = term(t, q2 + 1).0.push(add_op(tok(t, q2))->0);
    assert(expr_rest(t, q3, a + b + c) == (a + b + c, Ok::<int, CalcError>(q3)));
    assert(expr_rest(t, q2, a + b) == expr_rest(t, q3, a + b + c));
    assert(expr_rest(t, q1, a) == expr_rest(t, q2, a + b));
}

/// `a ^ b ^ c` is grouped as `a ^ (b ^ c)`: the program is that of `a`, then
/// that of `b`, then that of `c`, then two powers. The operands start at `p`,
/// `q1 + 1` and `q2 + 1`, and the power ends at `q3`.
pub proof fn lemma_power_right_assoc(t: Seq<Token>, p: int, q1: int, q2: int, q3: int)
    requires
        postfix(t, p).1 == Ok::<int, CalcError>(q1),
        tok(t, q1) == Token::Caret,
        postfix(t, q1 + 1).1 == Ok::<int, CalcError>(q2),
        tok(t, q2) == Token::Caret,
        unary(t, q2 + 1).1 == Ok::<int, CalcError>(q3),
    ensures
        power(t, p) == (
            postfix(t, p).0 + postfix(t, q1 + 1).0 + unary(t, q2 + 1).0.push(Op::Pow).push(
                Op::Pow,
            ),
            Ok::<int, CalcError>(q3),
        ),
{
    lemma_postfix_advances(t, p);
    lemma_postfix_advances(t, q1 + 1);
    lemma_postfix_starts(t, q1 + 1);
    let a = postfix(t, p).0;
    let b = postfix(t, q1 + 1).0;
    let c = unary(t, q2 + 1).0;
    assert(power(t, q1 + 1) == ((b + c).push(Op::Pow), Ok::<int, CalcError>(q3)));
    assert(unary(t, q1 + 1) == power(t, q1 + 1));
    assert((a + (b + c).push(Op::Pow)).push(Op::Pow) =~= a + b + c.push(Op::Pow).push(Op::Pow));
}

/// `-a ^ b` is `-(a ^ b)`: the program is that of `a`, then that of `b`, then
/// the power, then the negation. The minus stands at `p`, the operands start
/// at `p + 1` and `q1 + 1`, and the whole ends at `q2`.
pub proof fn lemma_neg_of_power(t: Seq<Token>, p: int, q1: int, q2: int)
    requires
        tok(t, p) == Token::Minus,
        postfix(t, p + 1).1 == Ok::<int, CalcError>(q1),
        tok(t, q1) == Token::Caret,
        unary(t, q1 + 1).1 == Ok::<int, CalcError>(q2),
    ensures
        unary(t, p) == (
            postfix(t, p + 1).0 + unary(t, q1 + 1).0.push(Op::Pow).push(Op::Neg),
            Ok::<int, CalcError>(q2),
        ),
{
    lemma_postfix_advances(t, p + 1);
    lemma_postfix_starts(t, p + 1);
    let a = postfix(t, p + 1).0;
    let b = unary(t, q1 + 1).0;
    assert(power(t, p + 1) == ((a + b).push(Op::Pow), Ok::<int, CalcError>(q2)));
    assert(unary(t, p + 1) == power(t, p + 1));
    assert((a + b).push(Op::Pow).push(Op::Neg) =~= a + b.push(Op::Pow).push(Op::Neg));
}

/// The push of a number token.
pub open spec fn push_of(x: Token) -> Op {
    match x {
        Token::Number { start, end } => Op::Push { start, end },
        _ => Op::Push { start: 0, end: 0 },
    }
}

/// A number not followed by `!` is a postfix operand of one push; when no
/// `^` follows either, it is a whole unary operand.
proof fn lemma_number_operand(t: Seq<Token>, p: int)
    requires
        0 <= p < t.len(),
        t[p] is Number,
        tok(t, p + 1) != Token::Bang,
    ensures
        postfix(t, p) == (seq![push_of(t[p])], Ok::<int, CalcError>(p + 1)),
        tok(t, p + 1) != Token::Caret ==> unary(t, p) == (
            seq![push_of(t[p])],
            Ok::<int, CalcError>(p + 1),
        ),
{
    assert(primary(t, p) == (seq![push_of(t[p])], Ok::<int, CalcError>(p + 1)));
    assert(bangs(t, p + 1, seq![push_of(t[p])]) == (
        seq![push_of(t[p])],
        Ok::<int, CalcError>(p + 1),
    ));
    assert(unary(t, p) == power(t, p));
}

/// A number followed by neither `!`, `^`, `*`, `/` nor `%` is a whole term.
proof fn lemma_number_term(t: Seq<Token>, p: int)
    requires
        0 <= p < t.len(),
        t[p] is Number,
        tok(t, p + 1) != Token::Bang,
        tok(t, p + 1) != Token::Caret,
        mul_op(tok(t, p + 1)) is None,
    ensures
        term(t, p) == (seq![push_of(t[p])], Ok::<int, CalcError>(p + 1)),
{
    lemma_number_operand(t, p);
    assert(term_rest(t, p + 1, seq![push_of(t[p])]) == (
        seq![push_of(t[p])],
        Ok::<int, CalcError>(p + 1),
    ));
}

/// Text whose tokens are `a o1 b o2 c`, with numbers `a`, `b`, `c` and `o1`,
/// `o2` each `+` or `-`, compiles without error to `a b o1 c o2`: the left
/// operation is done first.
pub proof fn lemma_compile_additive_left_assoc(s: Seq<char>, t: Seq<Token>)
    requires
        lex(s) == Ok::<Seq<Token>, CalcError>(t),
        t.len() == 6,
        t[0] is Number,
        add_op(t[1]) is Some,
        t[2] is Number,
        add_op(t[3]) is Some,
        t[4] is Number,
        t[5] == Token::Eof,
    ensures
        compile_spec(s) == (
            seq![push_of(t[0]), push_of(t[2]), add_op(t[1])->0, push_of(t[4]), add_op(t[3])->0],
            None::<CalcError>,
        ),
{
    lemma_number_term(t, 0);
    lemma_number_term(t, 2);
    lemma_number_term(t, 4);
    assert(tok(t, 1) == t[1] && tok(t, 3) == t[3] && tok(t, 5) == t[5]);
    lemma_expr_left_assoc(t, 0, 1, 3, 5);
    assert(parse_all(t).0 =~= seq![
        push_of(t[0]),
        push_of(t[2]),
        add_op(t[1])->0,
        push_of(t[4]),
        add_op(t[3])->0,
    ]);
}

/// Text whose tokens are `a o1 b o2 c`, with numbers `a`, `b`, `c` and `o1`,
/// `o2` each `*`, `/` or `%`, compiles without error to `a b o1 c o2`: the
/// left operation is done first.
pub proof fn lemma_compile_multiplicative_left_assoc(s: Seq<char>, t: Seq<Token>)
    requires
        lex(s) == Ok::<Seq<Token>, CalcError>(t),
        t.len() == 6,
        t[0] is Number,
        mul_op(t[1]) is Some,
        t[2] is Number,
        mul_op(t[3]) is Some,
        t[4] is Number,
        t[5] == Token::Eof,
    ensures
        compile_spec(s) == (
            seq![push_of(t[0]), push_of(t[2]), mul_op(t[1])->0, push_of(t[4]), mul_op(t[3])->0],
            None::<CalcError>,
        ),
{
    assert(tok(t, 1) == t[1] && tok(t, 3) == t[3] && tok(t, 5) == t[5]);
    lemma_number_operand(t, 0);
    lemma_number_operand(t, 2);
    lemma_number_operand(t, 4);
    lemma_term_left_assoc(t, 0, 1, 3, 5);
    let o = term(t, 0).0;
    assert(expr_rest(t, 5, o) == (o, Ok::<int, CalcError>(5)));
    assert(o =~= seq![
        push_of(t[0]),
        push_of(t[2]),
        mul_op(t[1])->0,
        push_of(t[4]),
        mul_op(t[3])->0,
    ]);
}

/// Text whose tokens are `a o1 b o2 c`, with numbers `a`, `b`, `c`, `o1`
/// one of `+`, `-` and `o2` one of `*`, `/`, `%`, compiles without error to
/// `a b c o2 o1`: the product binds tighter than the sum.
pub proof fn lemma_compile_product_binds_tighter(s: Seq<char>, t: Seq<Token>)
    requires
        lex(s) == Ok::<Seq<Token>, CalcError>(t),
        t.len() == 6,
        t[0] is Number,
        add_op(t[1]) is Some,
        t[2] is Number,
        mul_op(t[3]) is Some,
        t[4] is Number,
        t[5] == Token::Eof,
    ensures
        compile_spec(s) == (
            seq![push_of(t[0]), push_of(t[2]), push_of(t[4]), mul_op(t[3])->0, add_op(t[1])->0],
            None::<CalcError>,
        ),
{
    assert(tok(t, 1) == t[1] && tok(t, 3) == t[3] && tok(t, 5) == t[5]);
    lemma_number_term(t, 0);
    lemma_number_operand(t, 2);
    lemma_number_operand(t, 4);
    let b = seq![push_of(t[2])];
    let c = seq![push_of(t[4])];
    let bc = b + c.push(mul_op(t[3])->0);
    assert(term_rest(t, 5, bc) == (bc, Ok::<int, CalcError>(5)));
    assert(term_rest(t, 3, b) == term_rest(t, 5, bc));
    assert(term(t, 2) == (bc, Ok::<int, CalcError>(5)));
    let o = seq![push_of(t[0])] + bc.push(add_op(t[1])->0);
    assert(expr_rest(t, 5, o) == (o, Ok::<int, CalcError>(5)));
    assert(expr_rest(t, 1, seq![push_of(t[0])]) == expr_rest(t, 5, o));
    assert(o =~= seq![
        push_of(t[0]),
        push_of(t[2]),
        push_of(t[4]),
        mul_op(t[3])->0,
        add_op(t[1])->0,
    ]);
}

/// Text whose tokens are `a ^ b ^ c`, with numbers `a`, `b`, `c`, compiles
/// without error to `a b c ^ ^`: the right power is taken first.
pub proof fn lemma_compile_power_right_assoc(s: Seq<char>, t: Seq<Token>)
    requires
        lex(s) == Ok::<Seq<Token>, CalcError>(t),
        t.len() == 6,
        t[0] is Number,
        t[1] == Token::Caret,
        t[2] is Number,
        t[3] == Token::Caret,
        t[4] is Number,
        t[5] == Token::Eof,
    ensures
        compile_spec(s) == (
            seq![push_of(t[0]), push_of(t[2]), push_of(t[4]), Op::Pow, Op::Pow],
            None::<CalcError>,
        ),
{
    assert(tok(t, 1) == t[1] && tok(t, 3) == t[3] && tok(t, 5) == t[5]);
    lemma_number_operand(t, 0);
    lemma_number_operand(t, 2);
    lemma_number_operand(t, 4);
    lemma_power_right_assoc(t, 0, 1, 3, 5);
    let o = power(t, 0).0;
    assert(o =~= seq![push_of(t[0]), push_of(t[2]), push_of(t[4]), Op::Pow, Op::Pow]);
    assert(unary(t, 0) == power(t, 0));
    assert(term_rest(t, 5, o) == (o, Ok::<int, CalcError>(5)));
    assert(expr_rest(t, 5, o) == (o, Ok::<int, CalcError>(5)));
}

/// Text whose tokens are `- a ^ b`, with numbers `a`, `b`, compiles without
/// error to `a b ^ neg`: the power is taken first, then negated.
pub proof fn lemma_compile_neg_of_power(s: Seq<char>, t: Seq<Token>)
    requires
        lex(s) == Ok::<Seq<Token>, CalcError>(t),
        t.len() == 5,
        t[0] == Token::Minus,
        t[1] is Number,
        t[2] == Token::Caret,
        t[3] is Number,
        t[4] == Token::Eof,
    ensures
        compile_spec(s) == (
            seq![push_of(t[1]), push_of(t[3]), Op::Pow, Op::Neg],
            None::<CalcError>,
        ),
{
    assert(tok(t, 0) == t[0] && tok(t, 2) == t[2] && tok(t, 4) == t[4]);
    lemma_number_operand(t, 1);
    lemma_number_operand(t, 3);
    lemma_neg_of_power(t, 0, 2, 4);
    let o = unary(t, 0).0;
    assert(o =~= seq![push_of(t[1]), push_of(t[3]), Op::Pow, Op::Neg]);
    assert(term_rest(t, 4, o) == (o, Ok::<int, CalcError>(4)));
    assert(expr_rest(t, 4, o) == (o, Ok::<int, CalcError>(4)));
}

} // verus!
