//! Turns the text of an expression into tokens.
use crate::token::{CalcError, Token};
use vstd::prelude::*;

verus! {

/// A decimal digit.
pub open spec fn is_digit(c: char) -> bool {
    '0' <= c <= '9'
}

/// A character that may occur in a number.
pub open spec fn is_number_char(c: char) -> bool {
    is_digit(c) || c == '.' || c == 'e' || c == 'E'
}

/// Where a number that starts at `i` ends: it takes digits, `.`, `e` and `E`,
/// and a sign right after an `e` or `E`.
pub open spec fn number_end(s: Seq<char>, i: int) -> int
    decreases s.len() - i,
{
    if 0 <= i < s.len() && is_number_char(s[i]) {
        if (s[i] == 'e' || s[i] == 'E') && i + 1 < s.len() && (s[i + 1] == '+' || s[i + 1]
            == '-') {
            number_end(s, i + 2)
        } else {
            number_end(s, i + 1)
        }
    } else {
        i
    }
}

/// The first position at or after `i`, below `hi`, that does not hold a
/// digit (`hi` when there is none).
pub open spec fn digits_end(s: Seq<char>, i: int, hi: int) -> int
    decreases hi - i,
{
    if i < hi && 0 <= i < s.len() && is_digit(s[i]) {
        digits_end(s, i + 1, hi)
    } else {
        i
    }
}

/// The characters `lo..hi` of `s` form a decimal floating-point literal, by
/// the grammar that `f64::from_str` documents (without a sign, since a number
/// token starts with a digit or a point):
/// `(Digit+ | Digit+ '.' Digit* | Digit* '.' Digit+) (('e' | 'E') Sign? Digit+)?`.
pub open spec fn is_float_literal(s: Seq<char>, lo: int, hi: int) -> bool {
    let a = digits_end(s, lo, hi);
    let has_point = a < hi && s[a] == '.';
    let m = if has_point {
        digits_end(s, a + 1, hi)
    } else {
        a
    };
    let frac = if has_point {
        m - (a + 1)
    } else {
        0
    };
    &&& a > lo || frac > 0
    &&& m == hi || {
        &&& s[m] == 'e' || s[m] == 'E'
        &&& {
            let k = if m + 1 < hi && (s[m + 1] == '+' || s[m + 1] == '-') {
                m + 2
            } else {
                m + 1
            };
            k < hi && digits_end(s, k, hi) == hi
        }
    }
}

/// The single-character token that `c` stands for, if any.
pub open spec fn symbol_token(c: char) -> Option<Token> {
    if c == '+' {
        Some(Token::Plus)
    } else if c == '-' {
        Some(Token::Minus)
    } else if c == '*' {
        Some(Token::Star)
    } else if c == '/' {
        Some(Token::Slash)
    } else if c == '%' {
        Some(Token::Percent)
    } else if c == '^' {
        Some(Token::Caret)
    } else if c == '!' {
        Some(Token::Bang)
    } else if c == '(' {
        Some(Token::LParen)
    } else if c == ')' {
        Some(Token::RParen)
    } else {
        None
    }
}

/// Every position that `skip_ws_end` passes from `i` holds a blank.
pub proof fn lemma_skipped_is_blank(s: Seq<char>, i: int, k: int)
    requires
        i <= k < skip_ws_end(s, i),
    ensures
        0 <= k < s.len(),
        is_blank(s[k]),
    decreases k - i,
{
    if k > i {
        lemma_skipped_is_blank(s, i + 1, k);
    }
}

/// `skip_ws_end` stops on a character that is not blank, or at the end, and
/// never moves back.
pub proof fn lemma_skip_ws_end_stops(s: Seq<char>, i: int)
    ensures
        i <= skip_ws_end(s, i),
        0 <= skip_ws_end(s, i) < s.len() ==> !is_blank(s[skip_ws_end(s, i)]),
    decreases s.len() - i,
{
    if 0 <= i < s.len() && is_blank(s[i]) {
        lemma_skip_ws_end_stops(s, i + 1);
    }
}

/// `toks` in front of the tokens of a successful result.
pub open spec fn prepend(toks: Seq<Token>, r: Result<Seq<Token>, CalcError>) -> Result<
    Seq<Token>,
    CalcError,
> {
    match r {
        Ok(t) => Ok(toks + t),
        Err(e) => Err(e),
    }
}

pub proof fn lemma_skip_ws_end_bounds(s: Seq<char>, i: int)
    requires
        0 <= i <= s.len(),
    ensures
        i <= skip_ws_end(s, i) <= s.len(),
    decreases s.len() - i,
{
    if i < s.len() && is_blank(s[i]) {
        lemma_skip_ws_end_bounds(s, i + 1);
    }
}

pub proof fn lemma_number_end_bounds(s: Seq<char>, i: int)
    requires
        0 <= i <= s.len(),
    ensures
        i <= number_end(s, i) <= s.len(),
        i < s.len() && is_number_char(s[i]) ==> i < number_end(s, i),
    decreases s.len() - i,
{
    if i < s.len() && is_number_char(s[i]) {
        if (s[i] == 'e' || s[i] == 'E') && i + 1 < s.len() && (s[i + 1] == '+' || s[i + 1]
            == '-') {
            lemma_number_end_bounds(s, i + 2);
        } else {
            lemma_number_end_bounds(s, i + 1);
        }
    }
}

/// The tokens of `s` from position `i` on, ending with `Eof`, or the first
/// error: a number that is not a valid literal, or a character that starts
/// no token. Spaces and tabs separate tokens.
pub open spec fn lex_from(s: Seq<char>, i: int) -> Result<Seq<Token>, CalcError>
    decreases s.len() - i,
{
    if i < 0 || i > s.len() {
        Ok(seq![Token::Eof])
    } else {
        let j = skip_ws_end(s, i);
        proof {
            lemma_skip_ws_end_bounds(s, i);
        }
        if j >= s.len() {
            Ok(seq![Token::Eof])
        } else if is_digit(s[j]) || s[j] == '.' {
            let e = number_end(s, j);
            proof {
                lemma_number_end_bounds(s, j);
            }
            if is_float_literal(s, j, e) {
                prepend(seq![Token::Number { start: j as usize, end: e as usize }], lex_from(s, e))
            } else {
                Err(CalcError::InvalidNumber { start: j as usize, end: e as usize })
            }
        } else if let Some(t) = symbol_token(s[j]) {
            prepend(seq![t], lex_from(s, j + 1))
        } else {
            Err(CalcError::UnexpectedChar(s[j]))
        }
    }
}

proof fn lemma_prepend_assoc(a: Seq<Token>, b: Seq<Token>, r: Result<Seq<Token>, CalcError>)
    ensures
        prepend(a, prepend(b, r)) == prepend(a + b, r),
{
    if let Ok(x) = r {
        assert(a + (b + x) =~= (a + b) + x);
    }
}

/// The tokens of `s`, ending with `Eof`, or the first error.
pub open spec fn lex(s: Seq<char>) -> Result<Seq<Token>, CalcError> {
    lex_from(s, 0)
}

/// A character that separates tokens or can start one.
pub open spec fn starts_token(c: char) -> bool {
    is_blank(c) || is_digit(c) || c == '.' || symbol_token(c) is Some
}

/// A character that can stand in an expression the lexer accepts: one that
/// starts a token, or an exponent mark inside a number.
pub open spec fn allowed_char(c: char) -> bool {
    starts_token(c) || c == 'e' || c == 'E'
}

/// What lexing `s` from `i` can give: tokens that end with the only `Eof`,
/// from text made of allowed characters; or a character at or after `i` that
/// starts no token; or a span at or after `i` that is not a valid number
/// literal. No other error.
pub open spec fn lex_shape(s: Seq<char>, i: int, r: Result<Seq<Token>, CalcError>) -> bool {
    match r {
        Ok(t) => {
            &&& t.len() >= 1
            &&& t.last() == Token::Eof
            &&& forall|k: int| 0 <= k < t.len() - 1 ==> #[trigger] t[k] != Token::Eof
            &&& forall|k: int| i <= k < s.len() ==> allowed_char(#[trigger] s[k])
        },
        Err(CalcError::UnexpectedChar(c)) => exists|k: int|
            i <= k < s.len() && #[trigger] s[k] == c && !starts_token(c),
        Err(CalcError::InvalidNumber { start, end }) => i <= start < end <= s.len()
            && !is_float_literal(s, start as int, end as int),
        Err(_) => false,
    }
}

/// The characters of a number run are allowed characters.
proof fn lemma_number_run_allowed(s: Seq<char>, i: int, k: int)
    requires
        0 <= i <= k < number_end(s, i),
    ensures
        k < s.len(),
        allowed_char(s[k]),
    decreases s.len() - i,
{
    if k > i {
        if (s[i] == 'e' || s[i] == 'E') && i + 1 < s.len() && (s[i + 1] == '+' || s[i + 1]
            == '-') {
            if k > i + 1 {
                lemma_number_run_allowed(s, i + 2, k);
            }
        } else {
            lemma_number_run_allowed(s, i + 1, k);
        }
    }
}

/// Lexing from `i` has the shape `lex_shape` describes.
proof fn lemma_lex_from_shape(s: Seq<char>, i: int)
    requires
        0 <= i <= s.len(),
        s.len() <= usize::MAX,
    ensures
        lex_shape(s, i, lex_from(s, i)),
    decreases s.len() - i,
{
    let j = skip_ws_end(s, i);
    lemma_skip_ws_end_bounds(s, i);
    lemma_skip_ws_end_stops(s, i);
    assert forall|k: int| i <= k < j implies is_blank(#[trigger] s[k]) by {
        lemma_skipped_is_blank(s, i, k);
    }
    if j < s.len() {
        if is_digit(s[j]) || s[j] == '.' {
            let e = number_end(s, j);
            lemma_number_end_bounds(s, j);
            if is_float_literal(s, j, e) {
                lemma_lex_from_shape(s, e);
                let rest = lex_from(s, e);
                let head = seq![Token::Number { start: j as usize, end: e as usize }];
                assert(lex_from(s, i) == prepend(head, rest));
                match rest {
                    Ok(t2) => {
                        let t = head + t2;
                        assert(t.last() == t2.last());
                        assert forall|k: int| 0 <= k < t.len() - 1 implies #[trigger] t[k]
                            != Token::Eof by {
                            if k > 0 {
                                assert(t[k] == t2[k - 1]);
                            }
                        }
                        assert forall|k: int| i <= k < s.len() implies allowed_char(
                            #[trigger] s[k],
                        ) by {
                            if j <= k < e {
                                lemma_number_run_allowed(s, j, k);
                            }
                        }
                    },
                    Err(CalcError::UnexpectedChar(c)) => {
                        let w = choose|k: int| e <= k < s.len() && #[trigger] s[k] == c
                            && !starts_token(c);
                        assert(i <= w < s.len() && s[w] == c);
                    },
                    Err(_) => {},
                }
            }
        } else if symbol_token(s[j]) is Some {
            lemma_lex_from_shape(s, j + 1);
            let rest = lex_from(s, j + 1);
            let head = seq![symbol_token(s[j])->0];
            assert(lex_from(s, i) == prepend(head, rest));
            match rest {
                Ok(t2) => {
                    let t = head + t2;
                    assert(t.last() == t2.last());
                    assert forall|k: int| 0 <= k < t.len() - 1 implies #[trigger] t[k]
                        != Token::Eof by {
                        if k > 0 {
                            assert(t[k] == t2[k - 1]);
                        }
                    }
                    assert forall|k: int| i <= k < s.len() implies allowed_char(
                        #[trigger] s[k],
                    ) by {
                        if k == j {
                            assert(symbol_token(s[j]) is Some);
                        }
                    }
                },
                Err(CalcError::UnexpectedChar(c)) => {
                    let w = choose|k: int| j + 1 <= k < s.len() && #[trigger] s[k] == c
                        && !starts_token(c);
                    assert(i <= w < s.len() && s[w] == c);
                },
                Err(_) => {},
            }
        } else {
            assert(i <= j < s.len() && !starts_token(s[j]));
        }
    }
}

/// The tokens of any text end with its only `Eof` and come from allowed
/// characters; the only errors are a character that starts no token and a
/// number span that is not a valid literal.
pub proof fn lemma_lex_shape(s: Seq<char>)
    requires
        s.len() <= usize::MAX,
    ensures
        lex_shape(s, 0, lex(s)),
{
    lemma_lex_from_shape(s, 0);
}

/// Every character of `s[i..j]` is one of `0`..`9`.
pub open spec fn all_decimal_digits(s: Seq<char>, i: int, j: int) -> bool {
    forall|k: int| i <= k < j ==> '0' <= #[trigger] s[k] <= '9'
}

proof fn lemma_digit_run(s: Seq<char>, i: int, j: int)
    requires
        0 <= i <= j <= s.len(),
        all_decimal_digits(s, i, j),
        j == s.len() || !is_number_char(s[j]),
    ensures
        number_end(s, i) == j,
        digits_end(s, i, j) == j,
    decreases j - i,
{
    if i < j {
        lemma_digit_run(s, i + 1, j);
    }
}

/// A run of decimal digits, up to the end of the text or to a character that
/// cannot continue a number, is one number token: its span is the whole run.
/// Every digit `0`..`9` is read as a digit.
pub proof fn lemma_digits_are_one_number(s: Seq<char>, j: int)
    requires
        0 < j <= s.len(),
        s.len() <= usize::MAX,
        all_decimal_digits(s, 0, j),
        j == s.len() || !is_number_char(s[j]),
    ensures
        lex(s) == prepend(seq![Token::Number { start: 0, end: j as usize }], lex_from(s, j)),
        j == s.len() ==> lex(s) == Ok::<Seq<Token>, CalcError>(
            seq![Token::Number { start: 0, end: j as usize }, Token::Eof],
        ),
{
    assert('0' <= s[0] <= '9');
    assert(skip_ws_end(s, 0) == 0);
    lemma_digit_run(s, 0, j);
    assert(is_float_literal(s, 0, j));
    if j == s.len() {
        assert(skip_ws_end(s, j) == j);
        assert(lex_from(s, j) == Ok::<Seq<Token>, CalcError>(seq![Token::Eof]));
        assert(seq![Token::Number { start: 0, end: j as usize }] + seq![Token::Eof] =~= seq![
            Token::Number { start: 0, end: j as usize },
            Token::Eof,
        ]);
    }
}

/// Text that lexes holds only spaces, tabs, digits, `.`, the exponent marks
/// `e` and `E`, and the symbols `+ - * / % ^ ! ( )`: any other character,
/// a newline among them, makes lexing fail.
pub proof fn lemma_lexed_characters(s: Seq<char>)
    requires
        s.len() <= usize::MAX,
        lex(s) is Ok,
    ensures
        forall|k: int|
            0 <= k < s.len() ==> {
                let c = #[trigger] s[k];
                ||| c == ' '
                ||| c == '\t'
                ||| '0' <= c <= '9'
                ||| c == '.'
                ||| c == 'e'
                ||| c == 'E'
                ||| c == '+'
                ||| c == '-'
                ||| c == '*'
                ||| c == '/'
                ||| c == '%'
                ||| c == '^'
                ||| c == '!'
                ||| c == '('
                ||| c == ')'
            },
{
    lemma_lex_shape(s);
    assert forall|k: int| 0 <= k < s.len() implies allowed_char(#[trigger] s[k]) by {}
}

/// The character at `i`, or `None` past either end.
pub open spec fn char_at(s: Seq<char>, i: int) -> Option<char> {
    if 0 <= i < s.len() {
        Some(s[i])
    } else {
        None
    }
}

/// The characters that separate tokens.
pub open spec fn is_blank(c: char) -> bool {
    c == ' ' || c == '\t'
}

/// The first position at or after `i` that does not hold a space or a tab.
pub open spec fn skip_ws_end(s: Seq<char>, i: int) -> int
    decreases s.len() - i,
{
    if 0 <= i < s.len() && is_blank(s[i]) {
        skip_ws_end(s, i + 1)
    } else {
        i
    }
}

/// A character-level cursor over the input.
pub struct Lexer {
    pub input: Vec<char>,
    pub pos: usize,
}

impl Lexer {
    /// A lexer positioned at the start of `input`.
    pub fn new(input: &str) -> (r: Lexer)
        ensures
            r.input@ == input@,
            r.pos == 0,
    {
        let mut chars: Vec<char> = Vec::new();
        for c in iter: input.chars()
            invariant
                iter.seq() == input@,
                chars@ == input@.take(iter.index() as int),
        {
            chars.push(c);
        }
        assert(chars@ =~= input@);
        Lexer { input: chars, pos: 0 }
    }

    /// The character under the cursor, if any.
    pub fn peek(&self) -> (r: Option<char>)
        ensures
            r == char_at(self.input@, self.pos as int),
    {
        if self.pos < self.input.len() {
            Some(self.input[self.pos])
        } else {
            None
        }
    }

    /// Returns the character under the cursor and moves one step forward.
    pub fn advance(&mut self) -> (r: Option<char>)
        requires
            old(self).pos < usize::MAX,
        ensures
            r == char_at(old(self).input@, old(self).pos as int),
            final(self).input == old(self).input,
            final(self).pos == old(self).pos + 1,
    {
        let c = self.peek();
        self.pos = self.pos + 1;
        c
    }

    /// The end of the run of digits from `i`, stopping at `hi`.
    fn scan_digits(&self, i: usize, hi: usize) -> (r: usize)
        requires
            i <= hi <= self.input.len(),
        ensures
            r == digits_end(self.input@, i as int, hi as int),
            i <= r <= hi,
    {
        let mut k = i;
        while k < hi && '0' <= self.input[k] && self.input[k] <= '9'
            invariant
                i <= k <= hi <= self.input.len(),
                digits_end(self.input@, k as int, hi as int) == digits_end(
                    self.input@,
                    i as int,
                    hi as int,
                ),
            decreases hi - k,
        {
            k = k + 1;
        }
        k
    }

    /// Whether the characters `lo..hi` form a valid number literal.
    fn is_literal(&self, lo: usize, hi: usize) -> (r: bool)
        requires
            lo <= hi <= self.input.len(),
        ensures
            r == is_float_literal(self.input@, lo as int, hi as int),
    {
        let a = self.scan_digits(lo, hi);
        let has_point = a < hi && self.input[a] == '.';
        let m = if has_point {
            self.scan_digits(a + 1, hi)
        } else {
            a
        };
        let frac = if has_point {
            m - (a + 1)
        } else {
            0
        };
        if !(a > lo || frac > 0) {
            return false;
        }
        if m == hi {
            return true;
        }
        if !(self.input[m] == 'e' || self.input[m] == 'E') {
            return false;
        }
        let k = if m + 1 < hi && (self.input[m + 1] == '+' || self.input[m + 1] == '-') {
            m + 2
        } else {
            m + 1
        };
        k < hi && self.scan_digits(k, hi) == hi
    }

    /// Moves past spaces and tabs: the cursor ends on the first other
    /// character, or at the end of the input. Past the end it stays.
    pub fn skip_ws(&mut self)
        ensures
            final(self).input == old(self).input,
            final(self).pos == skip_ws_end(old(self).input@, old(self).pos as int),
            old(self).pos <= final(self).pos,
            forall|k: int|
                old(self).pos <= k < final(self).pos ==> k < final(self).input.len() && is_blank(
                    #[trigger] final(self).input@[k],
                ),
            final(self).pos < final(self).input.len() ==> !is_blank(
                final(self).input@[final(self).pos as int],
            ),
    {
        proof {
            lemma_skip_ws_end_stops(self.input@, self.pos as int);
            assert forall|k: int|
                old(self).pos <= k < skip_ws_end(self.input@, self.pos as int) implies k
                < self.input.len() && is_blank(#[trigger] self.input@[k]) by {
                lemma_skipped_is_blank(self.input@, self.pos as int, k);
            }
        }
        while self.pos < self.input.len() && (self.input[self.pos] == ' ' || self.input[self.pos]
            == '\t')
            invariant
                self.input == old(self).input,
                old(self).pos <= self.pos,
                self.pos <= self.input.len() || self.pos == old(self).pos,
                skip_ws_end(self.input@, self.pos as int) == skip_ws_end(
                    old(self).input@,
                    old(self).pos as int,
                ),
            decreases self.input.len() - self.pos,
        {
            self.pos = self.pos + 1;
        }
    }

    /// Reads the number that starts at the cursor.
    pub fn read_number(&mut self) -> (r: Result<Token, CalcError>)
        ensures
            final(self).input == old(self).input,
            final(self).pos == number_end(old(self).input@, old(self).pos as int),
            r == if is_float_literal(old(self).input@, old(self).pos as int, final(self).pos as int) {
                Ok::<Token, CalcError>(Token::Number { start: old(self).pos, end: final(self).pos })
            } else {
                Err(CalcError::InvalidNumber { start: old(self).pos, end: final(self).pos })
            },
    {
        let start = self.pos;
        while self.pos < self.input.len() && ('0' <= self.input[self.pos] && self.input[self.pos]
            <= '9' || self.input[self.pos] == '.' || self.input[self.pos] == 'e'
            || self.input[self.pos] == 'E')
            invariant
                self.input == old(self).input,
                start == old(self).pos,
                start <= self.pos,
                self.pos <= self.input.len() || self.pos == start,
                number_end(self.input@, self.pos as int) == number_end(
                    self.input@,
                    start as int,
                ),
            decreases self.input.len() - self.pos,
        {
            let c = self.input[self.pos];
            self.pos = self.pos + 1;
            if (c == 'e' || c == 'E') && self.pos < self.input.len() && (self.input[self.pos]
                == '+' || self.input[self.pos] == '-') {
                self.pos = self.pos + 1;
            }
        }
        if self.pos > self.input.len() {
            return Err(CalcError::InvalidNumber { start, end: self.pos });
        }
        if self.is_literal(start, self.pos) {
            Ok(Token::Number { start, end: self.pos })
        } else {
            Err(CalcError::InvalidNumber { start, end: self.pos })
        }
    }

    /// The tokens of the input from the cursor on, ending with `Eof`, or the
    /// first error.
    pub fn tokenize(&mut self) -> (r: Result<Vec<Token>, CalcError>)
        ensures
            match r {
                Ok(t) => lex_from(old(self).input@, old(self).pos as int) == Ok::<
                    Seq<Token>,
                    CalcError,
                >(t@),
                Err(e) => lex_from(old(self).input@, old(self).pos as int) == Err::<
                    Seq<Token>,
                    CalcError,
                >(e),
            },
    {
        let mut tokens: Vec<Token> = Vec::new();
        loop
            invariant
                self.input == old(self).input,
                self.pos <= self.input.len() || (self.pos == old(self).pos && tokens@.len() == 0),
                prepend(tokens@, lex_from(self.input@, self.pos as int)) == lex_from(
                    old(self).input@,
                    old(self).pos as int,
                ),
            decreases self.input.len() - self.pos,
        {
            let ghost before = self.pos;
            self.skip_ws();
            proof {
                if before <= self.input.len() {
                    lemma_skip_ws_end_bounds(self.input@, before as int);
                }
            }
            match self.peek() {
                None => {
                    let ghost old_tokens = tokens@;
                    tokens.push(Token::Eof);
                    assert(tokens@ =~= old_tokens + seq![Token::Eof]);
                    return Ok(tokens);
                },
                Some(c) => {
                    if '0' <= c && c <= '9' || c == '.' {
                        proof {
                            lemma_number_end_bounds(self.input@, self.pos as int);
                        }
                        match self.read_number() {
                            Ok(t) => {
                                let ghost old_tokens = tokens@;
                                tokens.push(t);
                                proof {
                                    assert(tokens@ =~= old_tokens + seq![t]);
                                    lemma_prepend_assoc(
                                        old_tokens,
                                        seq![t],
                                        lex_from(self.input@, self.pos as int),
                                    );
                                }
                            },
                            Err(e) => {
                                return Err(e);
                            },
                        }
                    } else {
                        let t = if c == '+' {
                            Token::Plus
                        } else if c == '-' {
                            Token::Minus
                        } else if c == '*' {
                            Token::Star
                        } else if c == '/' {
                            Token::Slash
                        } else if c == '%' {
                            Token::Percent
                        } else if c == '^' {
                            Token::Caret
                        } else if c == '!' {
                            Token::Bang
                        } else if c == '(' {
                            Token::LParen
                        } else if c == ')' {
                            Token::RParen
                        } else {
                            return Err(CalcError::UnexpectedChar(c));
                        };
                        self.advance();
                        let ghost old_tokens = tokens@;
                        tokens.push(t);
                        proof {
                            assert(tokens@ =~= old_tokens + seq![t]);
                            lemma_prepend_assoc(
                                old_tokens,
                                seq![t],
                                lex_from(self.input@, self.pos as int),
                            );
                        }
                    }
                },
            }
        }
    }
}

} // verus!
