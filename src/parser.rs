use std::rc::Rc;
use vstd::prelude::*;
use crate::expressions::{Ast, Expression, Numeral, asts, lemma_asts_empty, lemma_asts_push};
use crate::tokens::{Token, TokenType, token_views};
use crate::lexer::{
    CharClass, LexError, dot_twice, in_class, is_decimal_digit, lex, lex_from, number_scan, run_end,
};

verus! {

broadcast use vstd::std_specs::vec::group_vec_axioms;

/// What the parser rejects.
#[derive(Clone, Copy, Debug, PartialEq, Eq, Structural)]
pub enum ParseError {
    /// A token that cannot start an expression.
    UnknownExpression,
    /// Something other than a name or `)` in a parameter list.
    ExpectedParameter,
    /// `function` with neither a `{` block nor a `->` expression after it.
    ExpectedFunctionBody,
    /// Hexadecimal digits that are empty, malformed, or too large.
    BadHexNumber,
}

/// The kind of token at `i`, or `EOF` past the end.
pub open spec fn kind(toks: Seq<(TokenType, Seq<char>)>, i: int) -> TokenType {
    if 0 <= i < toks.len() {
        toks[i].0
    } else {
        TokenType::EOF
    }
}

pub open spec fn is_hex_char(c: char) -> bool {
    ('0' <= c <= '9') || ('a' <= c <= 'f') || ('A' <= c <= 'F')
}

pub open spec fn hex_digit_value(c: char) -> int {
    if '0' <= c <= '9' {
        c as int - '0' as int
    } else if 'a' <= c <= 'f' {
        c as int - 'a' as int + 10
    } else {
        c as int - 'A' as int + 10
    }
}

/// The number that hexadecimal digits denote.
pub open spec fn hex_value(s: Seq<char>) -> int
    decreases s.len(),
{
    if s.len() == 0 {
        0
    } else {
        hex_value(s.drop_last()) * 16 + hex_digit_value(s.last())
    }
}

/// The largest value of a hexadecimal literal (that of a signed 64-bit integer).
pub const HEX_MAX: u64 = 0x7fff_ffff_ffff_ffff;

/// The value of a hexadecimal literal: one or more hex digits, at most `HEX_MAX`.
pub open spec fn hex_literal(s: Seq<char>) -> Option<u64> {
    if s.len() > 0 && (forall|i: int| 0 <= i < s.len() ==> is_hex_char(#[trigger] s[i]))
        && hex_value(s) <= HEX_MAX {
        Some(hex_value(s) as u64)
    } else {
        None
    }
}

/// A parse result: the tree and where parsing goes on, or an error.
pub type Parsed = Result<(Ast, int), ParseError>;

/// An expression: a sum.
pub open spec fn p_expression(toks: Seq<(TokenType, Seq<char>)>, pos: int) -> Parsed
    decreases toks.len() - pos, 5int,
{
    p_additive(toks, pos)
}

/// A sum: products joined by `+` and `-`, left to right.
pub open spec fn p_additive(toks: Seq<(TokenType, Seq<char>)>, pos: int) -> Parsed
    decreases toks.len() - pos, 4int,
{
    match p_multiplicative(toks, pos) {
        Err(e) => Err(e),
        Ok((l, pos1)) => if pos1 <= pos || pos1 > toks.len() {
            Err(ParseError::UnknownExpression)
        } else {
            p_additive_rest(toks, pos1, l)
        },
    }
}

/// The rest of a sum whose left part, `left`, ends at `pos`.
pub open spec fn p_additive_rest(toks: Seq<(TokenType, Seq<char>)>, pos: int, left: Ast) -> Parsed
    decreases toks.len() - pos, 4int,
{
    let op = kind(toks, pos);
    if op == TokenType::Add || op == TokenType::Substract {
        match p_multiplicative(toks, pos + 1) {
            Err(e) => Err(e),
            Ok((r, pos2)) => if pos2 <= pos + 1 || pos2 > toks.len() {
                Err(ParseError::UnknownExpression)
            } else {
                p_additive_rest(toks, pos2, Ast::Binary(op, Box::new(left), Box::new(r)))
            },
        }
    } else {
        Ok((left, pos))
    }
}

/// A product: prefixed primaries joined by `*` and `/`, left to right.
pub open spec fn p_multiplicative(toks: Seq<(TokenType, Seq<char>)>, pos: int) -> Parsed
    decreases toks.len() - pos, 3int,
{
    match p_unary(toks, pos) {
        Err(e) => Err(e),
        Ok((l, pos1)) => if pos1 <= pos || pos1 > toks.len() {
            Err(ParseError::UnknownExpression)
        } else {
            p_multiplicative_rest(toks, pos1, l)
        },
    }
}

/// The rest of a product whose left part, `left`, ends at `pos`.
pub open spec fn p_multiplicative_rest(toks: Seq<(TokenType, Seq<char>)>, pos: int, left: Ast) -> Parsed
    decreases toks.len() - pos, 3int,
{
    let op = kind(toks, pos);
    if op == TokenType::Multiply || op == TokenType::Divide {
        match p_unary(toks, pos + 1) {
            Err(e) => Err(e),
            Ok((r, pos2)) => if pos2 <= pos + 1 || pos2 > toks.len() {
                Err(ParseError::UnknownExpression)
            } else {
                p_multiplicative_rest(toks, pos2, Ast::Binary(op, Box::new(left), Box::new(r)))
            },
        }
    } else {
        Ok((left, pos))
    }
}

/// A primary with an optional prefix `-` or `+`.
pub open spec fn p_unary(toks: Seq<(TokenType, Seq<char>)>, pos: int) -> Parsed
    decreases toks.len() - pos, 2int,
{
    let op = kind(toks, pos);
    if op == TokenType::Substract || op == TokenType::Add {
        match p_primary(toks, pos + 1) {
            Err(e) => Err(e),
            Ok((e, pos1)) => Ok((Ast::Unary(op, Box::new(e)), pos1)),
        }
    } else {
        p_primary(toks, pos)
    }
}

/// The names of a parameter list after its `(`, up to and past its `)`.
pub open spec fn p_params(toks: Seq<(TokenType, Seq<char>)>, pos: int, acc: Seq<Seq<char>>) -> Result<
    (Seq<Seq<char>>, int),
    ParseError,
>
    decreases toks.len() - pos,
{
    let k = kind(toks, pos);
    if k == TokenType::VariableKey {
        p_params(toks, pos + 1, acc.push(toks[pos].1))
    } else if k == TokenType::RightParen {
        Ok((acc, pos + 1))
    } else {
        Err(ParseError::ExpectedParameter)
    }
}

/// Expressions up to and past the token `close`.
pub open spec fn p_sequence(
    toks: Seq<(TokenType, Seq<char>)>,
    pos: int,
    close: TokenType,
    acc: Seq<Ast>,
) -> Result<
    (Seq<Ast>, int),
    ParseError,
>
    decreases toks.len() - pos, 6int,
{
    if kind(toks, pos) == close && pos < toks.len() {
        Ok((acc, pos + 1))
    } else {
        match p_expression(toks, pos) {
            Err(e) => Err(e),
            Ok((e, pos1)) => if pos1 <= pos || pos1 > toks.len() {
                Err(ParseError::UnknownExpression)
            } else {
                p_sequence(toks, pos1, close, acc.push(e))
            },
        }
    }
}

/// A literal; a name read, assigned, cleared or called; a function; or a
/// parenthesised expression.
pub open spec fn p_primary(toks: Seq<(TokenType, Seq<char>)>, pos: int) -> Parsed
    decreases toks.len() - pos, 1int,
{
    let k = kind(toks, pos);
    if k == TokenType::Func {
        let pr = if kind(toks, pos + 1) == TokenType::LeftParen {
            p_params(toks, pos + 2, Seq::empty())
        } else {
            Ok((Seq::empty(), pos + 1))
        };
        match pr {
            Err(e) => Err(e),
            Ok((params, b)) => if b <= pos || b > toks.len() {
                Err(ParseError::UnknownExpression)
            } else if kind(toks, b) == TokenType::LeftBrace {
                match p_sequence(toks, b + 1, TokenType::RightBrace, Seq::empty()) {
                    Err(e) => Err(e),
                    Ok((stmts, q)) => Ok((Ast::Function(Box::new(Ast::Block(stmts)), params), q)),
                }
            } else if kind(toks, b) == TokenType::ActionPointer {
                match p_expression(toks, b + 1) {
                    Err(e) => Err(e),
                    Ok((body, q)) => Ok((Ast::Function(Box::new(body), params), q)),
                }
            } else {
                Err(ParseError::ExpectedFunctionBody)
            },
        }
    } else if k == TokenType::Null {
        Ok((Ast::Null, pos + 1))
    } else if k == TokenType::Number {
        Ok((Ast::Decimal(toks[pos].1), pos + 1))
    } else if k == TokenType::StringValue {
        Ok((Ast::Str(toks[pos].1), pos + 1))
    } else if k == TokenType::VariableKey {
        let name = toks[pos].1;
        let k2 = kind(toks, pos + 1);
        if k2 == TokenType::Setter {
            match p_expression(toks, pos + 2) {
                Err(e) => Err(e),
                Ok((v, q)) => Ok((Ast::Assign(name, Box::new(v)), q)),
            }
        } else if k2 == TokenType::Remover {
            Ok((Ast::Assign(name, Box::new(Ast::Null)), pos + 2))
        } else if k2 == TokenType::LeftParen {
            match p_sequence(toks, pos + 2, TokenType::RightParen, Seq::empty()) {
                Err(e) => Err(e),
                Ok((args, q)) => Ok((Ast::Call(name, args), q)),
            }
        } else {
            Ok((Ast::Get(name), pos + 1))
        }
    } else if k == TokenType::HexNumber {
        match hex_literal(toks[pos].1) {
            Some(v) => Ok((Ast::Integer(v), pos + 1)),
            None => Err(ParseError::BadHexNumber),
        }
    } else if k == TokenType::LeftParen {
        match p_expression(toks, pos + 1) {
            Err(e) => Err(e),
            Ok((e, q)) => Ok((e, if kind(toks, q) == TokenType::RightParen && q < toks.len() {
                q + 1
            } else {
                q
            })),
        }
    } else {
        Err(ParseError::UnknownExpression)
    }
}

/// The statements from `pos` up to the end of input (or an `EOF` token),
/// after those already in `acc`.
pub open spec fn p_program(toks: Seq<(TokenType, Seq<char>)>, pos: int, acc: Seq<Ast>) -> Result<
    Seq<Ast>,
    ParseError,
>
    decreases toks.len() - pos,
{
    if kind(toks, pos) == TokenType::EOF {
        Ok(acc)
    } else {
        match p_expression(toks, pos) {
            Err(e) => Err(e),
            Ok((e, pos1)) => if pos1 <= pos || pos1 > toks.len() {
                Err(ParseError::UnknownExpression)
            } else {
                p_program(toks, pos1, acc.push(e))
            },
        }
    }
}

/// The statements of a whole token sequence.
pub open spec fn program(toks: Seq<(TokenType, Seq<char>)>) -> Result<Seq<Ast>, ParseError> {
    p_program(toks, 0, Seq::empty())
}

/// An executable result and its final position agree with a parse result.
pub open spec fn agrees(r: Result<Expression, ParseError>, pos1: int, s: Parsed) -> bool {
    match s {
        Ok((a, q)) => r matches Ok(e) && e.ast() == a && pos1 == q,
        Err(err) => r == Err::<Expression, ParseError>(err),
    }
}

proof fn lemma_hex_nonneg(s: Seq<char>)
    requires
        forall|i: int| 0 <= i < s.len() ==> is_hex_char(#[trigger] s[i]),
    ensures
        hex_value(s) >= 0,
    decreases s.len(),
{
    if s.len() > 0 {
        let d = s.drop_last();
        assert forall|i: int| 0 <= i < d.len() implies is_hex_char(#[trigger] d[i]) by {
            assert(d[i] == s[i]);
        }
        lemma_hex_nonneg(d);
        assert(is_hex_char(s[s.len() - 1]));
    }
}

proof fn lemma_hex_prefix(s: Seq<char>, i: int)
    requires
        forall|j: int| 0 <= j < s.len() ==> is_hex_char(#[trigger] s[j]),
        0 <= i <= s.len(),
    ensures
        hex_value(s.take(i)) <= hex_value(s),
    decreases s.len(),
{
    if i == s.len() {
        assert(s.take(i) =~= s);
    } else {
        let d = s.drop_last();
        assert forall|j: int| 0 <= j < d.len() implies is_hex_char(#[trigger] d[j]) by {
            assert(d[j] == s[j]);
        }
        lemma_hex_prefix(d, i);
        assert(d.take(i) =~= s.take(i));
        lemma_hex_nonneg(d);
        assert(is_hex_char(s[s.len() - 1]));
    }
}

/// The value of hexadecimal digits, as a signed 64-bit parse would give it.
fn hex_number(s: &String) -> (r: Option<u64>)
    ensures
        r == hex_literal(s@),
{
    let n = s.as_str().unicode_len();
    if n == 0 {
        return None;
    }
    let mut acc: u64 = 0;
    let mut i: usize = 0;
    while i < n
        invariant
            n == s@.len(),
            i <= n,
            acc == hex_value(s@.take(i as int)),
            acc <= HEX_MAX,
            forall|j: int| 0 <= j < i ==> is_hex_char(#[trigger] s@[j]),
        decreases n - i,
    {
        let c = s.as_str().get_char(i);
        let d: u64 = if '0' <= c && c <= '9' {
            (c as u64) - ('0' as u64)
        } else if 'a' <= c && c <= 'f' {
            (c as u64) - ('a' as u64) + 10
        } else if 'A' <= c && c <= 'F' {
            (c as u64) - ('A' as u64) + 10
        } else {
            return None;
        };
        proof {
            assert(s@.take(i + 1).drop_last() =~= s@.take(i as int));
            assert(s@.take(i + 1).last() == c);
        }
        if acc >= 0x0800_0000_0000_0000 {
            proof {
                if forall|j: int| 0 <= j < s@.len() ==> is_hex_char(#[trigger] s@[j]) {
                    lemma_hex_prefix(s@, i + 1);
                }
            }
            return None;
        }
        acc = acc * 16 + d;
        i = i + 1;
    }
    proof {
        assert(s@.take(n as int) =~= s@);
    }
    Some(acc)
}

/// Builds the syntax tree of a token sequence, one tree per statement.
pub struct Parser<'a> {
    pub input: &'a Vec<Token>,
    pub output: Vec<Expression>,
    position: usize,
}

impl<'a> Parser<'a> {
    /// The tokens being parsed.
    pub closed spec fn toks(&self) -> Seq<Token> {
        self.input@
    }

    /// The index of the next token to read.
    pub closed spec fn at(&self) -> int {
        self.position as int
    }

    /// The statements parsed so far.
    pub closed spec fn parsed(&self) -> Seq<Expression> {
        self.output@
    }

    /// The statements parsed so far.
    pub fn statements(&self) -> (r: &Vec<Expression>)
        ensures
            r@ == self.parsed(),
    {
        &self.output
    }

    pub fn new(input: &'a Vec<Token>) -> (r: Parser<'a>)
        ensures
            r.toks() == input@,
            r.at() == 0,
            r.parsed() == Seq::<Expression>::empty(),
    {
        Parser { input, output: Vec::new(), position: 0 }
    }

    /// The kind of the token `relative` places ahead, or `EOF` past the end.
    fn peek(&self, relative: usize) -> (r: TokenType)
        ensures
            r == kind(token_views(self.input@), self.position + relative),
    {
        let len = self.input.len();
        if relative >= len || self.position >= len - relative {
            return TokenType::EOF;
        }
        self.input[self.position + relative].token_type
    }

    /// Whether the next token is of kind `a` or `b`.
    fn peek_is(&self, a: TokenType, b: TokenType) -> (r: bool)
        ensures
            r == (kind(token_views(self.input@), self.position as int) == a || kind(
                token_views(self.input@),
                self.position as int,
            ) == b),
    {
        let k = self.peek(0);
        k == a || k == b
    }

    /// Consumes the next token where it is of the given kind.
    fn match_type(&mut self, token_type: TokenType) -> (r: bool)
        requires
            old(self).position <= old(self).input@.len(),
        ensures
            r == (kind(token_views(old(self).input@), old(self).position as int) == token_type),
            final(self).position == (if r && old(self).position < old(self).input@.len() {
                old(self).position + 1
            } else {
                old(self).position as int
            }),
            final(self).input == old(self).input,
            final(self).output == old(self).output,
    {
        let curr_token = self.peek(0);
        if curr_token != token_type {
            return false;
        }
        if self.position < self.input.len() {
            self.position += 1;
        }
        true
    }

    fn expression(&mut self) -> (r: Result<Expression, ParseError>)
        requires
            old(self).position <= old(self).input@.len(),
        ensures
            final(self).input == old(self).input,
            final(self).output == old(self).output,
            final(self).position <= final(self).input@.len(),
            r is Ok ==> old(self).position < final(self).position,
            agrees(
                r,
                final(self).position as int,
                p_expression(token_views(old(self).input@), old(self).position as int),
            ),
        decreases old(self).input@.len() - old(self).position, 5int,
    {
        self.additive()
    }

    /// Sums and differences, left to right.
    fn additive(&mut self) -> (r: Result<Expression, ParseError>)
        requires
            old(self).position <= old(self).input@.len(),
        ensures
            final(self).input == old(self).input,
            final(self).output == old(self).output,
            final(self).position <= final(self).input@.len(),
            r is Ok ==> old(self).position < final(self).position,
            agrees(
                r,
                final(self).position as int,
                p_additive(token_views(old(self).input@), old(self).position as int),
            ),
        decreases old(self).input@.len() - old(self).position, 4int,
    {
        let ghost toks = token_views(self.input@);
        let len = self.input.len();
        let start = self.position;
        let mut expr = match self.multiplicative() {
            Ok(e) => e,
            Err(e) => {
                return Err(e);
            },
        };
        while self.peek_is(TokenType::Add, TokenType::Substract)
            invariant
                self.input == old(self).input,
                self.output == old(self).output,
                toks == token_views(self.input@),
                len == toks.len(),
                start == old(self).position,
                start < self.position <= toks.len(),
                p_additive(toks, start as int) == p_additive_rest(
                    toks,
                    self.position as int,
                    expr.ast(),
                ),
            decreases toks.len() - self.position,
        {
            let op = self.peek(0);
            self.position = self.position + 1;
            let rhs = match self.multiplicative() {
                Ok(e) => e,
                Err(e) => {
                    return Err(e);
                },
            };
            expr = Expression::Binary(op, Box::new(expr), Box::new(rhs));
        }
        Ok(expr)
    }

    /// Products and quotients, left to right.
    fn multiplicative(&mut self) -> (r: Result<Expression, ParseError>)
        requires
            old(self).position <= old(self).input@.len(),
        ensures
            final(self).input == old(self).input,
            final(self).output == old(self).output,
            final(self).position <= final(self).input@.len(),
            r is Ok ==> old(self).position < final(self).position,
            agrees(
                r,
                final(self).position as int,
                p_multiplicative(token_views(old(self).input@), old(self).position as int),
            ),
        decreases old(self).input@.len() - old(self).position, 3int,
    {
        let ghost toks = token_views(self.input@);
        let len = self.input.len();
        let start = self.position;
        let mut expr = match self.unary() {
            Ok(e) => e,
            Err(e) => {
                return Err(e);
            },
        };
        while self.peek_is(TokenType::Multiply, TokenType::Divide)
            invariant
                self.input == old(self).input,
                self.output == old(self).output,
                toks == token_views(self.input@),
                len == toks.len(),
                start == old(self).position,
                start < self.position <= toks.len(),
                p_multiplicative(toks, start as int) == p_multiplicative_rest(
                    toks,
                    self.position as int,
                    expr.ast(),
                ),
            decreases toks.len() - self.position,
        {
            let op = self.peek(0);
            self.position = self.position + 1;
            let rhs = match self.unary() {
                Ok(e) => e,
                Err(e) => {
                    return Err(e);
                },
            };
            expr = Expression::Binary(op, Box::new(expr), Box::new(rhs));
        }
        Ok(expr)
    }

    /// A primary expression, with an optional prefix `-` or `+`.
    fn unary(&mut self) -> (r: Result<Expression, ParseError>)
        requires
            old(self).position <= old(self).input@.len(),
        ensures
            final(self).input == old(self).input,
            final(self).output == old(self).output,
            final(self).position <= final(self).input@.len(),
            r is Ok ==> old(self).position < final(self).position,
            agrees(
                r,
                final(self).position as int,
                p_unary(token_views(old(self).input@), old(self).position as int),
            ),
        decreases old(self).input@.len() - old(self).position, 2int,
    {
        let k = self.peek(0);
        if k == TokenType::Substract || k == TokenType::Add {
            proof {
                assert(self.position < self.input.len());
            }
            self.position = self.position + 1;
            return match self.primary() {
                Ok(e) => Ok(Expression::Unary(k, Box::new(e))),
                Err(e) => Err(e),
            };
        }
        self.primary()
    }

    /// Expressions up to and past the token `close`.
    fn sequence(&mut self, close: TokenType) -> (r: Result<Vec<Expression>, ParseError>)
        requires
            old(self).position <= old(self).input@.len(),
            close != TokenType::EOF,
        ensures
            final(self).input == old(self).input,
            final(self).output == old(self).output,
            final(self).position <= final(self).input@.len(),
            r is Ok ==> old(self).position < final(self).position,
            match p_sequence(
                token_views(old(self).input@),
                old(self).position as int,
                close,
                Seq::empty(),
            ) {
                Ok((es, q)) => r matches Ok(v) && asts(v@) == es && final(self).position == q,
                Err(e) => r == Err::<Vec<Expression>, ParseError>(e),
            },
        decreases old(self).input@.len() - old(self).position, 7int,
    {
        let ghost toks = token_views(self.input@);
        let len = self.input.len();
        let start = self.position;
        let mut exprs: Vec<Expression> = Vec::new();
        proof {
            lemma_asts_empty();
        }
        while !self.peek_is(close, close)
            invariant
                self.input == old(self).input,
                self.output == old(self).output,
                toks == token_views(self.input@),
                len == toks.len(),
                start == old(self).position,
                start <= self.position <= len,
                p_sequence(toks, start as int, close, Seq::empty()) == p_sequence(
                    toks,
                    self.position as int,
                    close,
                    asts(exprs@),
                ),
            decreases len - self.position,
        {
            let ghost before = exprs@;
            match self.expression() {
                Ok(e) => exprs.push(e),
                Err(e) => {
                    return Err(e);
                },
            }
            proof {
                lemma_asts_push(before, exprs@.last());
                assert(before.push(exprs@.last()) =~= exprs@);
            }
        }
        self.position = self.position + 1;
        Ok(exprs)
    }

    /// `function`, an optional parameter list, and a `{` block or a `->`
    /// expression.
    fn function_literal(&mut self) -> (r: Result<Expression, ParseError>)
        requires
            old(self).position <= old(self).input@.len(),
            kind(token_views(old(self).input@), old(self).position as int) == TokenType::Func,
        ensures
            final(self).input == old(self).input,
            final(self).output == old(self).output,
            final(self).position <= final(self).input@.len(),
            r is Ok ==> old(self).position < final(self).position,
            agrees(
                r,
                final(self).position as int,
                p_primary(token_views(old(self).input@), old(self).position as int),
            ),
        decreases old(self).input@.len() - old(self).position, 0int,
    {
        let ghost toks = token_views(self.input@);
        let len = self.input.len();
        let pos = self.position;
        self.position = pos + 1;
        let mut args: Vec<String> = Vec::new();
        if self.match_type(TokenType::LeftParen) {
            proof {
                assert(Seq::new(args@.len(), |i: int| args@[i]@) =~= Seq::<Seq<char>>::empty());
            }
            while self.peek_is(TokenType::VariableKey, TokenType::VariableKey)
                invariant
                    self.input == old(self).input,
                    self.output == old(self).output,
                    toks == token_views(self.input@),
                    len == toks.len(),
                    pos + 2 <= self.position <= len,
                    pos == old(self).position,
                    kind(toks, pos + 1) == TokenType::LeftParen,
                    p_params(toks, pos + 2, Seq::empty()) == p_params(
                        toks,
                        self.position as int,
                        Seq::new(args@.len(), |i: int| args@[i]@),
                    ),
                decreases len - self.position,
            {
                let ghost before = Seq::new(args@.len(), |i: int| args@[i]@);
                args.push(self.input[self.position].data.clone());
                proof {
                    assert(Seq::new(args@.len(), |i: int| args@[i]@) =~= before.push(
                        toks[self.position as int].1,
                    ));
                }
                self.position = self.position + 1;
            }
            if !self.match_type(TokenType::RightParen) {
                return Err(ParseError::ExpectedParameter);
            }
        }
        let b = self.position;
        let ghost params = Seq::new(args@.len(), |i: int| args@[i]@);
        proof {
            if kind(toks, pos + 1) != TokenType::LeftParen {
                assert(params =~= Seq::<Seq<char>>::empty());
            }
        }
        if self.match_type(TokenType::LeftBrace) {
            let exprs = match self.sequence(TokenType::RightBrace) {
                Ok(v) => v,
                Err(e) => {
                    return Err(e);
                },
            };
            let ghost stmts = asts(exprs@);
            let body = Rc::new(Expression::Block(exprs));
            let names = Rc::new(args);
            let f = Expression::Function(body, names);
            proof {
                assert(body.ast() == Ast::Block(stmts));
                assert(f.ast() == Ast::Function(Box::new(Ast::Block(stmts)), params));
            }
            return Ok(f);
        } else if self.match_type(TokenType::ActionPointer) {
            return match self.expression() {
                Ok(e) => Ok(Expression::Function(Rc::new(e), Rc::new(args))),
                Err(e) => Err(e),
            };
        }
        return Err(ParseError::ExpectedFunctionBody);
    }

    /// A name: assigned (`<-`), cleared (`><`), called (`(`), or read.
    fn name_expression(&mut self) -> (r: Result<Expression, ParseError>)
        requires
            old(self).position <= old(self).input@.len(),
            kind(token_views(old(self).input@), old(self).position as int) == TokenType::VariableKey,
        ensures
            final(self).input == old(self).input,
            final(self).output == old(self).output,
            final(self).position <= final(self).input@.len(),
            r is Ok ==> old(self).position < final(self).position,
            agrees(
                r,
                final(self).position as int,
                p_primary(token_views(old(self).input@), old(self).position as int),
            ),
        decreases old(self).input@.len() - old(self).position, 0int,
    {
        let pos = self.position;
        proof {
            assert(pos < self.input.len());
        }
        let name = self.input[pos].data.clone();
        let k2 = self.peek(1);
        if k2 == TokenType::Setter {
            self.position = pos + 2;
            return match self.expression() {
                Ok(e) => Ok(Expression::SetVariable(name, Box::new(e))),
                Err(e) => Err(e),
            };
        }
        if k2 == TokenType::Remover {
            self.position = pos + 2;
            let e = Expression::SetVariable(name, Box::new(Expression::Null));
            proof {
                assert(Expression::Null.ast() == Ast::Null);
            }
            return Ok(e);
        }
        if k2 == TokenType::LeftParen {
            self.position = pos + 2;
            return match self.sequence(TokenType::RightParen) {
                Ok(args) => Ok(Expression::CallFunc(name, args)),
                Err(e) => Err(e),
            };
        }
        self.position = pos + 1;
        return Ok(Expression::GetVariable(name));
    }

    /// Literals, names (read, assigned, cleared or called), functions and
    /// parenthesised expressions.
    fn primary(&mut self) -> (r: Result<Expression, ParseError>)
        requires
            old(self).position <= old(self).input@.len(),
        ensures
            final(self).input == old(self).input,
            final(self).output == old(self).output,
            final(self).position <= final(self).input@.len(),
            r is Ok ==> old(self).position < final(self).position,
            agrees(
                r,
                final(self).position as int,
                p_primary(token_views(old(self).input@), old(self).position as int),
            ),
        decreases old(self).input@.len() - old(self).position, 1int,
    {
        let pos = self.position;
        let k = self.peek(0);
        if k == TokenType::EOF {
            return Err(ParseError::UnknownExpression);
        }
        proof {
            assert(pos < self.input.len());
        }
        if k == TokenType::Func {
            return self.function_literal();
        }
        if k == TokenType::Null {
            self.position = pos + 1;
            return Ok(Expression::Null);
        }
        if k == TokenType::Number {
            let data = self.input[pos].data.clone();
            self.position = pos + 1;
            return Ok(Expression::NumberValue(Numeral::Decimal(data)));
        }
        if k == TokenType::StringValue {
            let data = self.input[pos].data.clone();
            self.position = pos + 1;
            return Ok(Expression::StringValue(data));
        }
        if k == TokenType::VariableKey {
            return self.name_expression();
        }
        if k == TokenType::HexNumber {
            let value = hex_number(&self.input[pos].data);
            self.position = pos + 1;
            return match value {
                Some(v) => Ok(Expression::NumberValue(Numeral::Integer(v))),
                None => Err(ParseError::BadHexNumber),
            };
        }
        if k == TokenType::LeftParen {
            self.position = pos + 1;
            let e = match self.expression() {
                Ok(e) => e,
                Err(e) => {
                    return Err(e);
                },
            };
            self.match_type(TokenType::RightParen);
            return Ok(e);
        }
        Err(ParseError::UnknownExpression)
    }

    /// Parses statements up to the end of input (or an `EOF` token),
    /// appending one tree per statement to `output`.
    pub fn parse(&mut self) -> (r: Result<(), ParseError>)
        requires
            old(self).at() <= old(self).toks().len(),
        ensures
            final(self).toks() == old(self).toks(),
            final(self).at() <= final(self).toks().len(),
            match p_program(token_views(old(self).toks()), old(self).at(), Seq::empty()) {
                Ok(es) => r is Ok && asts(final(self).parsed()) == asts(old(self).parsed()) + es,
                Err(e) => r == Err::<(), ParseError>(e) && final(self).parsed() == old(self).parsed(),
            },
    {
        let n0 = self.output.len();
        let ghost toks = token_views(self.input@);
        let ghost pos0 = self.position as int;
        let ghost out0 = self.output@;
        let ghost mut acc: Seq<Ast> = Seq::empty();
        let len = self.input.len();
        proof {
            assert(asts(out0) + acc =~= asts(out0));
        }
        while !self.peek_is(TokenType::EOF, TokenType::EOF)
            invariant
                toks == token_views(self.input@),
                self.input == old(self).input,
                len == toks.len(),
                pos0 == old(self).position,
                out0 == old(self).output@,
                n0 == out0.len(),
                n0 <= self.output@.len(),
                self.output@.subrange(0, n0 as int) == out0,
                pos0 <= self.position <= len,
                asts(self.output@) == asts(out0) + acc,
                p_program(toks, pos0, Seq::empty()) == p_program(toks, self.position as int, acc),
            decreases len - self.position,
        {
            let ghost before = self.output@;
            let expr = match self.expression() {
                Ok(e) => e,
                Err(e) => {
                    self.output.truncate(n0);
                    proof {
                        assert(self.output@ =~= out0);
                    }
                    return Err(e);
                },
            };
            self.output.push(expr);
            proof {
                assert(self.output@.subrange(0, n0 as int) =~= before.subrange(0, n0 as int));
                lemma_asts_push(before, self.output@.last());
                assert(before.push(self.output@.last()) =~= self.output@);
                assert(asts(out0) + acc.push(self.output@.last().ast()) =~= (asts(out0) + acc).push(
                    self.output@.last().ast(),
                ));
                acc = acc.push(self.output@.last().ast());
            }
        }
        self.match_type(TokenType::EOF);
        Ok(())
    }
}

/// A decimal numeric literal: digits with at most one `.`, starting with a
/// digit.
pub open spec fn decimal_literal(cs: Seq<char>) -> bool {
    &&& cs.len() > 0
    &&& is_decimal_digit(cs[0])
    &&& forall|i: int| 0 <= i < cs.len() ==> in_class(#[trigger] cs[i], CharClass::Decimal)
    &&& !dot_twice(cs, 0, cs.len() as int)
}

proof fn lemma_run_to_end(cs: Seq<char>, i: int, k: CharClass)
    requires
        0 <= i <= cs.len(),
        forall|j: int| i <= j < cs.len() ==> in_class(#[trigger] cs[j], k),
    ensures
        run_end(cs, i, k) == cs.len(),
    decreases cs.len() - i,
{
    if i < cs.len() {
        lemma_run_to_end(cs, i + 1, k);
    }
}

/// A decimal literal lexes to one `Number` token that carries its text,
/// and that token alone parses to one statement: the literal with that text.
pub proof fn decimal_literal_lexes_and_parses_to_itself(cs: Seq<char>)
    requires
        decimal_literal(cs),
    ensures
        lex(cs) == Ok::<Seq<(TokenType, Seq<char>)>, LexError>(seq![(TokenType::Number, cs)]),
        program(seq![(TokenType::Number, cs)]) == Ok::<Seq<Ast>, ParseError>(
            seq![Ast::Decimal(cs)],
        ),
{
    lemma_run_to_end(cs, 0, CharClass::Decimal);
    assert(cs.subrange(0, cs.len() as int) =~= cs);
    assert(number_scan(cs, 0, cs.len() as int) == (
        Some((TokenType::Number, cs)),
        cs.len() as int,
    ));
    assert(lex_from(cs, cs.len() as int) == Ok::<Seq<(TokenType, Seq<char>)>, LexError>(
        Seq::empty(),
    ));
    assert(seq![(TokenType::Number, cs)] + Seq::<(TokenType, Seq<char>)>::empty() =~= seq![
        (TokenType::Number, cs),
    ]);
    let toks = seq![(TokenType::Number, cs)];
    let a = Ast::Decimal(cs);
    assert(p_primary(toks, 0) == Ok::<(Ast, int), ParseError>((a, 1)));
    assert(p_unary(toks, 0) == Ok::<(Ast, int), ParseError>((a, 1)));
    assert(p_multiplicative_rest(toks, 1, a) == Ok::<(Ast, int), ParseError>((a, 1)));
    assert(p_multiplicative(toks, 0) == Ok::<(Ast, int), ParseError>((a, 1)));
    assert(p_additive_rest(toks, 1, a) == Ok::<(Ast, int), ParseError>((a, 1)));
    assert(p_additive(toks, 0) == Ok::<(Ast, int), ParseError>((a, 1)));
    assert(p_expression(toks, 0) == Ok::<(Ast, int), ParseError>((a, 1)));
    assert(Seq::<Ast>::empty().push(a) =~= seq![a]);
    assert(p_program(toks, 1, seq![a]) == Ok::<Seq<Ast>, ParseError>(seq![a]));
}

} // verus!
