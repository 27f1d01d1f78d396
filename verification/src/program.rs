//! From text to a postfix program, and what such a program does to an
//! evaluation stack.
use crate::lexer::{
    is_digit, is_float_literal, lemma_number_end_bounds, lemma_skip_ws_end_bounds, lex, lex_from,
    number_end, skip_ws_end, symbol_token, Lexer,
};
use crate::parser::{
    add_op, bangs, expr, expr_rest, mul_op, parse_all, postfix, power, primary, term, term_rest,
    unary, well_formed, Op, Parsed, Parser,
};
use crate::token::{CalcError, Token};
use vstd::prelude::*;

verus! {

/// The compiled form of an expression: the postfix program, and the error
/// that stopped lexing or parsing, if any. On an error the program holds the
/// operations that the expression performs before the point of the error.
pub struct Program {
    pub ops: Vec<Op>,
    pub error: Option<CalcError>,
}

/// The program and the error for the text `s`.
pub open spec fn compile_spec(s: Seq<char>) -> (Seq<Op>, Option<CalcError>) {
    match lex(s) {
        Err(e) => (seq![], Some(e)),
        Ok(t) => {
            let (o, r) = parse_all(t);
            (
                o,
                match r {
                    Ok(_) => None,
                    Err(e) => Some(e),
                },
            )
        },
    }
}

proof fn lemma_lex_from_ends_with_eof(s: Seq<char>, i: int)
    requires
        0 <= i <= s.len(),
    ensures
        lex_from(s, i) matches Ok(t) ==> well_formed(t),
    decreases s.len() - i,
{
    let j = skip_ws_end(s, i);
    lemma_skip_ws_end_bounds(s, i);
    if j < s.len() {
        if is_digit(s[j]) || s[j] == '.' {
            lemma_number_end_bounds(s, j);
            lemma_lex_from_ends_with_eof(s, number_end(s, j));
        } else if symbol_token(s[j]) is Some {
            lemma_lex_from_ends_with_eof(s, j + 1);
        }
    }
    if let Ok(t) = lex_from(s, i) {
        if j < s.len() && (is_digit(s[j]) || s[j] == '.' || symbol_token(s[j]) is Some) {
            let rest = if is_digit(s[j]) || s[j] == '.' {
                lex_from(s, number_end(s, j))
            } else {
                lex_from(s, j + 1)
            };
            assert(t.last() == rest->Ok_0.last());
        }
    }
}

/// Lexes and parses `input`.
pub fn compile(input: &str) -> (r: Program)
    ensures
        (r.ops@, r.error) == compile_spec(input@),
{
    let mut lexer = Lexer::new(input);
    match lexer.tokenize() {
        Err(e) => Program { ops: Vec::new(), error: Some(e) },
        Ok(tokens) => {
            proof {
                lemma_lex_from_ends_with_eof(input@, 0);
            }
            let mut parser = Parser::new(tokens);
            let r = parser.parse();
            let error = match r {
                Ok(()) => None,
                Err(e) => Some(e),
            };
            proof {
                assert(parser.ops@ =~= parse_all(tokens@).0);
            }
            Program { ops: parser.ops, error }
        },
    }
}

/// The height of an evaluation stack after `op`, from height `d`; `None`
/// when `op` needs more operands than the stack holds.
pub open spec fn step_height(op: Op, d: int) -> Option<int> {
    match op {
        Op::Push { .. } => Some(d + 1),
        Op::Neg | Op::Fact => if d >= 1 {
            Some(d)
        } else {
            None
        },
        _ => if d >= 2 {
            Some(d - 1)
        } else {
            None
        },
    }
}

/// The height of an evaluation stack after running `ops` from height `d`;
/// `None` when some operation finds too few operands.
pub open spec fn run_height(ops: Seq<Op>, d: int) -> Option<int>
    decreases ops.len(),
{
    if ops.len() == 0 {
        Some(d)
    } else {
        match run_height(ops.drop_last(), d) {
            None => None,
            Some(e) => step_height(ops.last(), e),
        }
    }
}

/// Running a parsing step's operations from height `d` never pops an empty
/// stack; on success it leaves one more value, on an error at least `d`.
pub open spec fn balanced(s: Parsed, d: int) -> bool {
    match run_height(s.0, d) {
        None => false,
        Some(x) => if s.1 is Ok {
            x == d + 1
        } else {
            x >= d
        },
    }
}

proof fn lemma_run_concat(a: Seq<Op>, b: Seq<Op>, d: int)
    ensures
        run_height(a + b, d) == match run_height(a, d) {
            None => None,
            Some(e) => run_height(b, e),
        },
    decreases b.len(),
{
    if b.len() == 0 {
        assert(a + b =~= a);
    } else {
        lemma_run_concat(a, b.drop_last(), d);
        assert((a + b).drop_last() =~= a + b.drop_last());
    }
}

proof fn lemma_run_push(a: Seq<Op>, x: Op, d: int)
    ensures
        run_height(a.push(x), d) == match run_height(a, d) {
            None => None,
            Some(e) => step_height(x, e),
        },
{
    assert(a.push(x).drop_last() =~= a);
}

proof fn lemma_bangs_balanced(t: Seq<Token>, q: int, acc: Seq<Op>, d: int)
    requires
        run_height(acc, d) == Some(d + 1),
        d >= 0,
    ensures
        balanced(bangs(t, q, acc), d),
        bangs(t, q, acc).1 is Ok,
    decreases t.len() - q,
{
    if 0 <= q < t.len() && t[q] == Token::Bang {
        lemma_run_push(acc, Op::Fact, d);
        lemma_bangs_balanced(t, q + 1, acc.push(Op::Fact), d);
    }
}

proof fn lemma_primary_balanced(t: Seq<Token>, p: int, d: int)
    requires
        d >= 0,
    ensures
        balanced(primary(t, p), d),
    decreases t.len() - p, 0int,
{
    if 0 <= p < t.len() {
        match t[p] {
            Token::Number { start, end } => {
                lemma_run_push(seq![], Op::Push { start, end }, d);
                assert(seq![].push(Op::Push { start, end }) =~= seq![Op::Push { start, end }]);
            },
            Token::LParen => {
                lemma_expr_balanced(t, p + 1, d);
            },
            _ => {},
        }
    }
}

proof fn lemma_postfix_balanced(t: Seq<Token>, p: int, d: int)
    requires
        d >= 0,
    ensures
        balanced(postfix(t, p), d),
    decreases t.len() - p, 1int,
{
    lemma_primary_balanced(t, p, d);
    let (o, r) = primary(t, p);
    if let Ok(q) = r {
        if p < q <= t.len() {
            lemma_bangs_balanced(t, q, o, d);
        }
    }
}

proof fn lemma_power_balanced(t: Seq<Token>, p: int, d: int)
    requires
        d >= 0,
    ensures
        balanced(power(t, p), d),
    decreases t.len() - p, 2int,
{
    lemma_postfix_balanced(t, p, d);
    let (o1, r1) = postfix(t, p);
    if let Ok(q) = r1 {
        if p <= q < t.len() && t[q] == Token::Caret {
            lemma_unary_balanced(t, q + 1, d + 1);
            let (o2, r2) = unary(t, q + 1);
            lemma_run_concat(o1, o2, d);
            lemma_run_push(o1 + o2, Op::Pow, d);
        }
    }
}

proof fn lemma_unary_balanced(t: Seq<Token>, p: int, d: int)
    requires
        d >= 0,
    ensures
        balanced(unary(t, p), d),
    decreases t.len() - p, 3int,
{
    if 0 <= p < t.len() && t[p] == Token::Minus {
        lemma_unary_balanced(t, p + 1, d);
        lemma_run_push(unary(t, p + 1).0, Op::Neg, d);
    } else {
        lemma_power_balanced(t, p, d);
    }
}

proof fn lemma_term_rest_balanced(t: Seq<Token>, q: int, acc: Seq<Op>, d: int)
    requires
        d >= 0,
        run_height(acc, d) == Some(d + 1),
    ensures
        balanced(term_rest(t, q, acc), d),
    decreases t.len() - q, 4int,
{
    if 0 <= q < t.len() && mul_op(t[q]) is Some {
        let op = mul_op(t[q])->0;
        lemma_unary_balanced(t, q + 1, d + 1);
        let (o2, r2) = unary(t, q + 1);
        lemma_run_concat(acc, o2, d);
        lemma_run_concat(acc, o2.push(op), d);
        lemma_run_push(o2, op, d + 1);
        if let Ok(q2) = r2 {
            if q < q2 <= t.len() {
                lemma_term_rest_balanced(t, q2, acc + o2.push(op), d);
            }
        }
    }
}

proof fn lemma_term_balanced(t: Seq<Token>, p: int, d: int)
    requires
        d >= 0,
    ensures
        balanced(term(t, p), d),
    decreases t.len() - p, 5int,
{
    lemma_unary_balanced(t, p, d);
    let (o, r) = unary(t, p);
    if let Ok(q) = r {
        if p < q <= t.len() {
            lemma_term_rest_balanced(t, q, o, d);
        }
    }
}

proof fn lemma_expr_rest_balanced(t: Seq<Token>, q: int, acc: Seq<Op>, d: int)
    requires
        d >= 0,
        run_height(acc, d) == Some(d + 1),
    ensures
        balanced(expr_rest(t, q, acc), d),
    decreases t.len() - q, 6int,
{
    if 0 <= q < t.len() && add_op(t[q]) is Some {
        let op = add_op(t[q])->0;
        lemma_term_balanced(t, q + 1, d + 1);
        let (o2, r2) = term(t, q + 1);
        lemma_run_concat(acc, o2, d);
        lemma_run_concat(acc, o2.push(op), d);
        lemma_run_push(o2, op, d + 1);
        if let Ok(q2) = r2 {
            if q < q2 <= t.len() {
                lemma_expr_rest_balanced(t, q2, acc + o2.push(op), d);
            }
        }
    }
}

proof fn lemma_expr_balanced(t: Seq<Token>, p: int, d: int)
    requires
        d >= 0,
    ensures
        balanced(expr(t, p), d),
    decreases t.len() - p, 7int,
{
    lemma_term_balanced(t, p, d);
    let (o, r) = term(t, p);
    if let Ok(q) = r {
        if p < q <= t.len() {
            lemma_expr_rest_balanced(t, q, o, d);
        }
    }
}

/// A program compiled without error leaves exactly one value when run on an
/// empty stack; a program cut short by an error never pops an empty stack.
pub proof fn lemma_program_leaves_one_value(s: Seq<char>)
    ensures
        compile_spec(s).1 is None ==> run_height(compile_spec(s).0, 0) == Some(1int),
        run_height(compile_spec(s).0, 0) is Some,
{
    if let Ok(t) = lex(s) {
        lemma_expr_balanced(t, 0, 0);
    }
}

/// `x` stands for the characters `start..end` of `s`, which form a valid
/// number literal.
pub open spec fn literal_in(s: Seq<char>, start: usize, end: usize) -> bool {
    start < end <= s.len() && is_float_literal(s, start as int, end as int)
}

/// Every number token of `t` is a literal of `s`.
pub open spec fn numbers_in(s: Seq<char>, t: Seq<Token>) -> bool {
    forall|i: int|
        0 <= i < t.len() ==> (#[trigger] t[i] matches Token::Number { start, end } ==> literal_in(
            s,
            start,
            end,
        ))
}

/// Every push of `o` is a literal of `s`.
pub open spec fn pushes_in(s: Seq<char>, o: Seq<Op>) -> bool {
    forall|i: int|
        0 <= i < o.len() ==> (#[trigger] o[i] matches Op::Push { start, end } ==> literal_in(
            s,
            start,
            end,
        ))
}

proof fn lemma_lex_numbers(s: Seq<char>, i: int)
    requires
        0 <= i <= s.len(),
        s.len() <= usize::MAX,
    ensures
        lex_from(s, i) matches Ok(t) ==> numbers_in(s, t),
    decreases s.len() - i,
{
    let j = skip_ws_end(s, i);
    lemma_skip_ws_end_bounds(s, i);
    if j < s.len() {
        if is_digit(s[j]) || s[j] == '.' {
            let e = number_end(s, j);
            lemma_number_end_bounds(s, j);
            lemma_lex_numbers(s, e);
            if let Ok(t) = lex_from(s, i) {
                let rest = lex_from(s, e)->Ok_0;
                assert(t == seq![Token::Number { start: j as usize, end: e as usize }] + rest);
                assert forall|k: int| 0 <= k < t.len() implies (#[trigger] t[k] matches Token::Number {
                    start,
                    end,
                } ==> literal_in(s, start, end)) by {
                    if k > 0 {
                        assert(t[k] == rest[k - 1]);
                    }
                }
            }
        } else if symbol_token(s[j]) is Some {
            lemma_lex_numbers(s, j + 1);
            if let Ok(t) = lex_from(s, i) {
                let rest = lex_from(s, j + 1)->Ok_0;
                assert forall|k: int| 0 <= k < t.len() implies (#[trigger] t[k] matches Token::Number {
                    start,
                    end,
                } ==> literal_in(s, start, end)) by {
                    if k > 0 {
                        assert(t[k] == rest[k - 1]);
                    }
                }
            }
        }
    }
}

proof fn lemma_pushes_concat(s: Seq<char>, a: Seq<Op>, b: Seq<Op>)
    requires
        pushes_in(s, a),
        pushes_in(s, b),
    ensures
        pushes_in(s, a + b),
{
    assert forall|i: int| 0 <= i < (a + b).len() implies (#[trigger] (a + b)[i] matches Op::Push {
        start,
        end,
    } ==> literal_in(s, start, end)) by {
        if i >= a.len() {
            assert((a + b)[i] == b[i - a.len()]);
        }
    }
}

proof fn lemma_pushes_push(s: Seq<char>, a: Seq<Op>, x: Op)
    requires
        pushes_in(s, a),
        !(x is Push),
    ensures
        pushes_in(s, a.push(x)),
{
    assert forall|i: int| 0 <= i < a.push(x).len() implies (#[trigger] a.push(x)[i] matches Op::Push {
        start,
        end,
    } ==> literal_in(s, start, end)) by {
        if i < a.len() {
            assert(a.push(x)[i] == a[i]);
        }
    }
}

proof fn lemma_bangs_pushes(s: Seq<char>, t: Seq<Token>, q: int, acc: Seq<Op>)
    requires
        pushes_in(s, acc),
    ensures
        pushes_in(s, bangs(t, q, acc).0),
    decreases t.len() - q,
{
    if 0 <= q < t.len() && t[q] == Token::Bang {
        lemma_pushes_push(s, acc, Op::Fact);
        lemma_bangs_pushes(s, t, q + 1, acc.push(Op::Fact));
    }
}

proof fn lemma_primary_pushes(s: Seq<char>, t: Seq<Token>, p: int)
    requires
        numbers_in(s, t),
    ensures
        pushes_in(s, primary(t, p).0),
    decreases t.len() - p, 0int,
{
    if 0 <= p < t.len() {
        match t[p] {
            Token::Number { start, end } => {
                assert(seq![Op::Push { start, end }][0] == Op::Push { start, end });
            },
            Token::LParen => {
                lemma_expr_pushes(s, t, p + 1);
            },
            _ => {},
        }
    }
}

proof fn lemma_postfix_pushes(s: Seq<char>, t: Seq<Token>, p: int)
    requires
        numbers_in(s, t),
    ensures
        pushes_in(s, postfix(t, p).0),
    decreases t.len() - p, 1int,
{
    lemma_primary_pushes(s, t, p);
    let (o, r) = primary(t, p);
    if let Ok(q) = r {
        if p < q <= t.len() {
            lemma_bangs_pushes(s, t, q, o);
        }
    }
}

proof fn lemma_power_pushes(s: Seq<char>, t: Seq<Token>, p: int)
    requires
        numbers_in(s, t),
    ensures
        pushes_in(s, power(t, p).0),
    decreases t.len() - p, 2int,
{
    lemma_postfix_pushes(s, t, p);
    let (o1, r1) = postfix(t, p);
    if let Ok(q) = r1 {
        if p <= q < t.len() && t[q] == Token::Caret {
            lemma_unary_pushes(s, t, q + 1);
            let o2 = unary(t, q + 1).0;
            lemma_pushes_concat(s, o1, o2);
            lemma_pushes_push(s, o1 + o2, Op::Pow);
        }
    }
}

proof fn lemma_unary_pushes(s: Seq<char>, t: Seq<Token>, p: int)
    requires
        numbers_in(s, t),
    ensures
        pushes_in(s, unary(t, p).0),
    decreases t.len() - p, 3int,
{
    if 0 <= p < t.len() && t[p] == Token::Minus {
        lemma_unary_pushes(s, t, p + 1);
        lemma_pushes_push(s, unary(t, p + 1).0, Op::Neg);
    } else {
        lemma_power_pushes(s, t, p);
    }
}

proof fn lemma_term_rest_pushes(s: Seq<char>, t: Seq<Token>, q: int, acc: Seq<Op>)
    requires
        numbers_in(s, t),
        pushes_in(s, acc),
    ensures
        pushes_in(s, term_rest(t, q, acc).0),
    decreases t.len() - q, 4int,
{
    if 0 <= q < t.len() && mul_op(t[q]) is Some {
        let op = mul_op(t[q])->0;
        lemma_unary_pushes(s, t, q + 1);
        let (o2, r2) = unary(t, q + 1);
        lemma_pushes_concat(s, acc, o2);
        lemma_pushes_push(s, o2, op);
        lemma_pushes_concat(s, acc, o2.push(op));
        if let Ok(q2) = r2 {
            if q < q2 <= t.len() {
                lemma_term_rest_pushes(s, t, q2, acc + o2.push(op));
            }
        }
    }
}

proof fn lemma_term_pushes(s: Seq<char>, t: Seq<Token>, p: int)
    requires
        numbers_in(s, t),
    ensures
        pushes_in(s, term(t, p).0),
    decreases t.len() - p, 5int,
{
    lemma_unary_pushes(s, t, p);
    let (o, r) = unary(t, p);
    if let Ok(q) = r {
        if p < q <= t.len() {
            lemma_term_rest_pushes(s, t, q, o);
        }
    }
}

proof fn lemma_expr_rest_pushes(s: Seq<char>, t: Seq<Token>, q: int, acc: Seq<Op>)
    requires
        numbers_in(s, t),
        pushes_in(s, acc),
    ensures
        pushes_in(s, expr_rest(t, q, acc).0),
    decreases t.len() - q, 6int,
{
    if 0 <= q < t.len() && add_op(t[q]) is Some {
        let op = add_op(t[q])->0;
        lemma_term_pushes(s, t, q + 1);
        let (o2, r2) = term(t, q + 1);
        lemma_pushes_concat(s, acc, o2);
        lemma_pushes_push(s, o2, op);
        lemma_pushes_concat(s, acc, o2.push(op));
        if let Ok(q2) = r2 {
            if q < q2 <= t.len() {
                lemma_expr_rest_pushes(s, t, q2, acc + o2.push(op));
            }
        }
    }
}

proof fn lemma_expr_pushes(s: Seq<char>, t: Seq<Token>, p: int)
    requires
        numbers_in(s, t),
    ensures
        pushes_in(s, expr(t, p).0),
    decreases t.len() - p, 7int,
{
    lemma_term_pushes(s, t, p);
    let (o, r) = term(t, p);
    if let Ok(q) = r {
        if p < q <= t.len() {
            lemma_expr_rest_pushes(s, t, q, o);
        }
    }
}

/// Every number that a compiled program pushes is written in the input, at
/// the span it names, as a valid decimal floating-point literal.
pub proof fn lemma_program_pushes_literals(s: Seq<char>)
    requires
        s.len() <= usize::MAX,
    ensures
        pushes_in(s, compile_spec(s).0),
{
    lemma_lex_numbers(s, 0);
    if let Ok(t) = lex(s) {
        lemma_expr_pushes(s, t, 0);
    }
}

} // verus!
