use vstd::prelude::*;
use crate::tokens::{Token, TokenType, token_views};
use vstd::std_specs::iter::IteratorSpec;

verus! {

broadcast use vstd::std_specs::vec::group_vec_axioms, vstd::string::axiom_spec_iter,
    vstd::string::next_postcondition;

/// What the lexer rejects.
#[derive(Clone, Copy, Debug, PartialEq, Eq, Structural)]
pub enum LexError {
    /// A numeric literal with a second `.`.
    RepeatedDot,
    /// `<` not followed by `-`.
    ExpectedDash,
    /// `>` not followed by `<`.
    ExpectedLess,
    /// A `"` with no closing `"`.
    UnterminatedString,
}

/// Whether `char::is_alphabetic` holds of a character.
pub uninterp spec fn alphabetic(c: char) -> bool;

/// Whether `char::is_alphanumeric` holds of a character.
pub uninterp spec fn alphanumeric(c: char) -> bool;

/// Relies on `char::is_alphabetic`: the Unicode Alphabetic property.
#[verifier::external_body]
fn is_alphabetic(c: char) -> (r: bool)
    ensures
        r == alphabetic(c),
{
    c.is_alphabetic()
}

/// Relies on `char::is_alphanumeric`: Alphabetic or Numeric in Unicode.
#[verifier::external_body]
fn is_alphanumeric(c: char) -> (r: bool)
    ensures
        r == alphanumeric(c),
{
    c.is_alphanumeric()
}

/// The characters of a text, in order.
fn chars_of(s: &str) -> (r: Vec<char>)
    ensures
        r@ == s@,
{
    let mut it = s.chars();
    let mut r: Vec<char> = Vec::new();
    loop
        invariant
            it.obeys_prophetic_iter_laws(),
            it.decrease() is Some,
            r@ + it.remaining() == s@,
        ensures
            r@ == s@,
        decreases it.decrease()->0,
    {
        match it.next() {
            Some(c) => {
                let ghost rest = it.remaining();
                r.push(c);
                proof {
                    assert(r@ + rest =~= s@);
                }
            },
            None => {
                proof {
                    assert(r@ + it.remaining() =~= r@);
                }
                break;
            },
        }
    }
    r
}

/// Relies on `String::push`: appends one character.
pub assume_specification[ std::string::String::push ](s: &mut std::string::String, ch: char)
    ensures
        final(s)@ == old(s)@.push(ch),
;

pub open spec fn is_decimal_digit(c: char) -> bool {
    '0' <= c <= '9'
}

pub open spec fn is_hex_digit(c: char) -> bool {
    ('0' <= c <= '9') || ('a' <= c <= 'f') || ('A' <= c <= 'F')
}

/// The classes of character that make up a run inside one token.
#[derive(Clone, Copy, Debug, PartialEq, Eq, Structural)]
pub enum CharClass {
    /// Digits and dots of a decimal literal.
    Decimal,
    /// Hexadecimal digits.
    Hex,
    /// Characters that continue a name.
    Name,
    /// Anything but a double quote.
    NotQuote,
}

pub open spec fn in_class(c: char, k: CharClass) -> bool {
    match k {
        CharClass::Decimal => is_decimal_digit(c) || c == '.',
        CharClass::Hex => is_hex_digit(c),
        CharClass::Name => alphanumeric(c) || c == '_' || c == '$',
        CharClass::NotQuote => c != '"',
    }
}

pub open spec fn starts_name(c: char) -> bool {
    alphabetic(c) || c == '_' || c == '$'
}

/// The end of the longest run of class `k` that starts at `i`.
pub open spec fn run_end(cs: Seq<char>, i: int, k: CharClass) -> int
    decreases cs.len() - i,
{
    if 0 <= i < cs.len() && in_class(cs[i], k) {
        run_end(cs, i + 1, k)
    } else {
        i
    }
}

/// Two dots among `cs[i..j]`.
pub open spec fn dot_twice(cs: Seq<char>, i: int, j: int) -> bool {
    exists|a: int, b: int| i <= a < b < j && cs[a] == '.' && cs[b] == '.'
}

/// The kind of a one-character operator or bracket (`-` aside).
pub open spec fn operator_kind(c: char) -> Option<TokenType> {
    if c == '+' {
        Some(TokenType::Add)
    } else if c == '*' {
        Some(TokenType::Multiply)
    } else if c == '/' {
        Some(TokenType::Divide)
    } else if c == '(' {
        Some(TokenType::LeftParen)
    } else if c == ')' {
        Some(TokenType::RightParen)
    } else if c == '{' {
        Some(TokenType::LeftBrace)
    } else if c == '}' {
        Some(TokenType::RightBrace)
    } else {
        None
    }
}

pub open spec fn empty_text() -> Seq<char> {
    Seq::empty()
}

/// The token that a name becomes: a reserved word, or a variable key.
pub open spec fn name_token(w: Seq<char>) -> (TokenType, Seq<char>) {
    if w == "null"@ {
        (TokenType::Null, empty_text())
    } else if w == "function"@ {
        (TokenType::Func, empty_text())
    } else {
        (TokenType::VariableKey, w)
    }
}

/// The token that the decimal run `cs[i..j]` starts, and where the next
/// token starts: a hexadecimal literal after exactly `0x` or `0X`.
pub open spec fn number_scan(cs: Seq<char>, i: int, j: int) -> (Option<(TokenType, Seq<char>)>, int) {
    if j == i + 1 && cs[i] == '0' && j < cs.len() && (cs[j] == 'x' || cs[j] == 'X') {
        let k = run_end(cs, j + 1, CharClass::Hex);
        (Some((TokenType::HexNumber, cs.subrange(j + 1, k))), k)
    } else {
        (Some((TokenType::Number, cs.subrange(i, j))), j)
    }
}

/// One step of lexing at `i < cs.len()`: the token found there (none for a
/// skipped character) and where lexing goes on.
pub open spec fn scan(cs: Seq<char>, i: int) -> Result<(Option<(TokenType, Seq<char>)>, int), LexError> {
    let c = cs[i];
    if c == '"' {
        let close = run_end(cs, i + 1, CharClass::NotQuote);
        if close >= cs.len() {
            Err(LexError::UnterminatedString)
        } else {
            Ok((Some((TokenType::StringValue, cs.subrange(i + 1, close))), close + 1))
        }
    } else if c == '<' {
        if i + 1 < cs.len() && cs[i + 1] == '-' {
            Ok((Some((TokenType::Setter, empty_text())), i + 2))
        } else {
            Err(LexError::ExpectedDash)
        }
    } else if c == '>' {
        if i + 1 < cs.len() && cs[i + 1] == '<' {
            Ok((Some((TokenType::Remover, empty_text())), i + 2))
        } else {
            Err(LexError::ExpectedLess)
        }
    } else if is_decimal_digit(c) {
        let j = run_end(cs, i, CharClass::Decimal);
        if dot_twice(cs, i, j) {
            Err(LexError::RepeatedDot)
        } else {
            Ok(number_scan(cs, i, j))
        }
    } else if c == '-' {
        if i + 1 < cs.len() && cs[i + 1] == '>' {
            Ok((Some((TokenType::ActionPointer, empty_text())), i + 2))
        } else {
            Ok((Some((TokenType::Substract, empty_text())), i + 1))
        }
    } else if operator_kind(c) is Some {
        Ok((Some((operator_kind(c)->0, empty_text())), i + 1))
    } else if starts_name(c) {
        let j = run_end(cs, i + 1, CharClass::Name);
        Ok((Some(name_token(cs.subrange(i, j))), j))
    } else {
        Ok((None, i + 1))
    }
}

/// `prefix` followed by the tokens of `r`, or the error of `r`.
pub open spec fn after(
    prefix: Seq<(TokenType, Seq<char>)>,
    r: Result<Seq<(TokenType, Seq<char>)>, LexError>,
) -> Result<Seq<(TokenType, Seq<char>)>, LexError> {
    match r {
        Ok(s) => Ok(prefix + s),
        Err(e) => Err(e),
    }
}

pub open spec fn opt_seq(t: Option<(TokenType, Seq<char>)>) -> Seq<(TokenType, Seq<char>)> {
    match t {
        Some(t) => seq![t],
        None => Seq::empty(),
    }
}

/// The tokens of `cs` from position `i` on, or the first error.
pub open spec fn lex_from(cs: Seq<char>, i: int) -> Result<Seq<(TokenType, Seq<char>)>, LexError>
    decreases cs.len() - i,
{
    if i < 0 || i >= cs.len() {
        Ok(Seq::empty())
    } else {
        match scan(cs, i) {
            Err(e) => Err(e),
            Ok((t, j)) => if j <= i || j > cs.len() {
                Ok(Seq::empty())
            } else {
                after(opt_seq(t), lex_from(cs, j))
            },
        }
    }
}

/// The tokens of a whole text, or the first error.
pub open spec fn lex(cs: Seq<char>) -> Result<Seq<(TokenType, Seq<char>)>, LexError> {
    lex_from(cs, 0)
}

proof fn lemma_push_concat(s: Seq<(TokenType, Seq<char>)>, t: (TokenType, Seq<char>))
    ensures
        s.push(t) == s + seq![t],
        s + Seq::<(TokenType, Seq<char>)>::empty() == s,
{
    assert(s.push(t) =~= s + seq![t]);
    assert(s + Seq::<(TokenType, Seq<char>)>::empty() =~= s);
}

/// Turns source text into tokens.
pub struct Lexer<'a> {
    pub input: &'a str,
    chars: Vec<char>,
    pub output: Vec<Token>,
    position: usize,
}

fn in_class_exec(c: char, k: CharClass) -> (r: bool)
    ensures
        r == in_class(c, k),
{
    match k {
        CharClass::Decimal => ('0' <= c && c <= '9') || c == '.',
        CharClass::Hex => ('0' <= c && c <= '9') || ('a' <= c && c <= 'f') || ('A' <= c && c <= 'F'),
        CharClass::Name => is_alphanumeric(c) || c == '_' || c == '$',
        CharClass::NotQuote => c != '"',
    }
}

impl<'a> Lexer<'a> {
    /// Where lexing stands, as an index into the characters of the input.
    pub closed spec fn at(&self) -> int {
        self.position as int
    }

    /// The characters of the input.
    pub closed spec fn source(&self) -> Seq<char> {
        self.input@
    }

    /// The tokens produced so far.
    pub closed spec fn tokens(&self) -> Seq<(TokenType, Seq<char>)> {
        token_views(self.output@)
    }

    /// `l1` is `l0` after one step of lexing: the token found at `l0`'s
    /// position has been appended and the position moved past it.
    closed spec fn scanned(l0: Lexer, l1: Lexer, r: Result<(), LexError>) -> bool {
        &&& l1.chars@ == l0.chars@
        &&& l1.input == l0.input
        &&& match scan(l0.chars@, l0.position as int) {
            Ok((t, j)) => {
                &&& r is Ok
                &&& l1.position == j
                &&& l0.position < j <= l0.chars@.len()
                &&& token_views(l1.output@) == token_views(l0.output@) + opt_seq(t)
            },
            Err(e) => r == Err::<(), LexError>(e) && l1.output == l0.output,
        }
    }

    /// The tokens produced so far.
    pub fn tokens_out(&self) -> (r: &Vec<Token>)
        ensures
            token_views(r@) == self.tokens(),
    {
        &self.output
    }

    pub fn new(input: &'a str) -> (r: Lexer<'a>)
        ensures
            r.source() == input@,
            r.tokens() == Seq::<(TokenType, Seq<char>)>::empty(),
            r.at() == 0,
    {
        Lexer { input, chars: Vec::new(), output: Vec::new(), position: 0 }
    }

    /// The character `relative` places ahead, or `'\0'` past the end.
    fn peek(&self, relative: usize) -> (r: char)
        ensures
            r == (if self.position + relative < self.chars@.len() {
                self.chars@[self.position + relative]
            } else {
                '\0'
            }),
    {
        let len = self.chars.len();
        if relative >= len || self.position >= len - relative {
            return '\0';
        }
        self.chars[self.position + relative]
    }

    /// Moves one character on and returns the one now current.
    fn next(&mut self) -> (r: char)
        requires
            old(self).position < old(self).chars@.len(),
        ensures
            final(self).position == old(self).position + 1,
            final(self).chars == old(self).chars,
            final(self).input == old(self).input,
            final(self).output == old(self).output,
            r == (if final(self).position < final(self).chars@.len() {
                final(self).chars@[final(self).position as int]
            } else {
                '\0'
            }),
    {
        let len = self.chars.len();
        proof {
            assert(self.position < len);
        }
        self.position += 1;
        self.peek(0)
    }

    fn add_token(&mut self, token_type: TokenType, data: String)
        ensures
            token_views(final(self).output@) == token_views(old(self).output@).push(
                (token_type, data@),
            ),
            final(self).position == old(self).position,
            final(self).chars == old(self).chars,
            final(self).input == old(self).input,
    {
        self.output.push(Token::new(token_type, data));
        proof {
            assert(token_views(final(self).output@) =~= token_views(old(self).output@).push(
                (token_type, data@),
            ));
        }
    }

    /// The end of the run of class `k` that starts at `from`.
    fn run(&self, from: usize, k: CharClass) -> (j: usize)
        requires
            from <= self.chars@.len(),
        ensures
            j == run_end(self.chars@, from as int, k),
            from <= j <= self.chars@.len(),
            forall|a: int| from <= a < j ==> in_class(#[trigger] self.chars@[a], k),
            from < self.chars@.len() && in_class(self.chars@[from as int], k) ==> j > from,
    {
        let mut i = from;
        while i < self.chars.len() && in_class_exec(self.chars[i], k)
            invariant
                from <= i <= self.chars@.len(),
                run_end(self.chars@, from as int, k) == run_end(self.chars@, i as int, k),
                forall|a: int| from <= a < i ==> in_class(#[trigger] self.chars@[a], k),
            decreases self.chars@.len() - i,
        {
            i = i + 1;
        }
        i
    }

    /// The characters `a..b` as a string.
    fn text(&self, a: usize, b: usize) -> (s: String)
        requires
            a <= b <= self.chars@.len(),
        ensures
            s@ == self.chars@.subrange(a as int, b as int),
    {
        let mut s = String::new();
        let mut i = a;
        while i < b
            invariant
                a <= i <= b <= self.chars@.len(),
                s@ == self.chars@.subrange(a as int, i as int),
            decreases b - i,
        {
            s.push(self.chars[i]);
            proof {
                assert(s@ =~= self.chars@.subrange(a as int, i + 1));
            }
            i = i + 1;
        }
        s
    }

    /// A decimal literal, or a hexadecimal one after exactly `0x`.
    fn tokenize_number(&mut self) -> (r: Result<(), LexError>)
        requires
            old(self).position < old(self).chars@.len(),
            is_decimal_digit(old(self).chars@[old(self).position as int]),
        ensures
            Lexer::scanned(*old(self), *final(self), r),
    {
        let len = self.chars.len();
        let start = self.position;
        let end = self.run(start, CharClass::Decimal);
        let ghost cs = self.chars@;
        let ghost out0 = token_views(self.output@);
        let mut seen = false;
        let mut k = start;
        while k < end
            invariant
                start <= k <= end <= cs.len(),
                cs == self.chars@,
                *self == *old(self),
                start == old(self).position,
                len == cs.len(),
                end == run_end(cs, start as int, CharClass::Decimal),
                start < cs.len(),
                is_decimal_digit(cs[start as int]),
                out0 == token_views(old(self).output@),
                seen <==> exists|a: int| start <= a < k && cs[a] == '.',
                !dot_twice(cs, start as int, k as int),
            decreases end - k,
        {
            if self.chars[k] == '.' {
                if seen {
                    proof {
                        let a = choose|a: int| start <= a < k && cs[a] == '.';
                        assert(dot_twice(cs, start as int, end as int)) by {
                            assert(start <= a < k < end && cs[a] == '.' && cs[k as int] == '.');
                        }
                        assert(scan(cs, start as int) == Err::<
                            (Option<(TokenType, Seq<char>)>, int),
                            LexError,
                        >(LexError::RepeatedDot));
                    }
                    return Err(LexError::RepeatedDot);
                }
                seen = true;
            }
            proof {
                assert forall|a: int, b: int|
                    !(start <= a < b < k + 1 && cs[a] == '.' && cs[b] == '.') by {
                    if start <= a < b < k + 1 && cs[a] == '.' && cs[b] == '.' && b < k {
                        assert(dot_twice(cs, start as int, k as int));
                    }
                }
            }
            k = k + 1;
        }
        if end == start + 1 && self.chars[start] == '0' && end < self.chars.len() && (
        self.chars[end] == 'x' || self.chars[end] == 'X') {
            self.position = end;
            self.next();
            self.tokenize_hex_number();
            proof {
                lemma_push_concat(out0, token_views(self.output@).last());
                assert(scan(cs, start as int) == Ok::<
                    (Option<(TokenType, Seq<char>)>, int),
                    LexError,
                >(number_scan(cs, start as int, end as int)));
            }
            return Ok(());
        }
        let num = self.text(start, end);
        self.position = end;
        self.add_token(TokenType::Number, num);
        proof {
            lemma_push_concat(out0, (TokenType::Number, cs.subrange(start as int, end as int)));
            assert(scan(cs, start as int) == Ok::<
                (Option<(TokenType, Seq<char>)>, int),
                LexError,
            >(number_scan(cs, start as int, end as int)));
        }
        Ok(())
    }

    /// The hexadecimal digits from the current position.
    fn tokenize_hex_number(&mut self)
        requires
            old(self).position <= old(self).chars@.len(),
        ensures
            final(self).chars == old(self).chars,
            final(self).input == old(self).input,
            final(self).position == run_end(old(self).chars@, old(self).position as int, CharClass::Hex),
            old(self).position <= final(self).position <= old(self).chars@.len(),
            token_views(final(self).output@) == token_views(old(self).output@).push(
                (
                    TokenType::HexNumber,
                    old(self).chars@.subrange(
                        old(self).position as int,
                        final(self).position as int,
                    ),
                ),
            ),
    {
        let start = self.position;
        let end = self.run(start, CharClass::Hex);
        let num = self.text(start, end);
        self.position = end;
        self.add_token(TokenType::HexNumber, num);
    }

    /// A one-character operator or bracket, or `->` where `-` is followed
    /// by `>`.
    fn tokenize_operator(&mut self, op_type: TokenType) -> (r: Result<(), LexError>)
        requires
            old(self).position < old(self).chars@.len(),
            ({
                let c = old(self).chars@[old(self).position as int];
                (c == '-' && op_type == TokenType::Substract) || operator_kind(c) == Some(op_type)
            }),
        ensures
            Lexer::scanned(*old(self), *final(self), r),
    {
        let ghost out0 = token_views(self.output@);
        if op_type == TokenType::Substract && self.peek(1) == '>' {
            self.add_token(TokenType::ActionPointer, String::new());
            self.next();
            self.next();
            proof {
                lemma_push_concat(out0, (TokenType::ActionPointer, empty_text()));
            }
            return Ok(());
        }
        self.add_token(op_type, String::new());
        self.next();
        proof {
            lemma_push_concat(out0, (op_type, empty_text()));
        }
        Ok(())
    }

    /// A name: `null` and `function` are reserved words.
    fn tokenize_key_word(&mut self) -> (r: Result<(), LexError>)
        requires
            old(self).position < old(self).chars@.len(),
            starts_name(old(self).chars@[old(self).position as int]),
            !is_decimal_digit(old(self).chars@[old(self).position as int]),
            ({
                let c = old(self).chars@[old(self).position as int];
                c != '"' && c != '<' && c != '>' && c != '-' && operator_kind(c) is None
            }),
        ensures
            Lexer::scanned(*old(self), *final(self), r),
    {
        let ghost out0 = token_views(self.output@);
        proof {
            assert(self.position < self.chars.len());
        }
        let start = self.position;
        let end = self.run(start + 1, CharClass::Name);
        let key_word = self.text(start, end);
        let ghost w = key_word@;
        self.position = end;
        let null_word = "null".to_string();
        let function_word = "function".to_string();
        if key_word == null_word {
            self.add_token(TokenType::Null, String::new());
        } else if key_word == function_word {
            self.add_token(TokenType::Func, String::new());
        } else {
            self.add_token(TokenType::VariableKey, key_word);
        }
        proof {
            lemma_push_concat(out0, name_token(w));
        }
        Ok(())
    }

    /// A string literal: the characters up to the next `"`.
    fn tokenize_string(&mut self) -> (r: Result<(), LexError>)
        requires
            old(self).position < old(self).chars@.len(),
            old(self).chars@[old(self).position as int] == '"',
        ensures
            Lexer::scanned(*old(self), *final(self), r),
    {
        let ghost out0 = token_views(self.output@);
        proof {
            assert(self.position < self.chars.len());
        }
        let start = self.position + 1;
        let close = self.run(start, CharClass::NotQuote);
        if close >= self.chars.len() {
            return Err(LexError::UnterminatedString);
        }
        let string = self.text(start, close);
        self.position = close;
        self.add_token(TokenType::StringValue, string);
        self.next();
        proof {
            lemma_push_concat(out0, (TokenType::StringValue, string@));
        }
        Ok(())
    }

    /// `<-`.
    fn tokenize_setter(&mut self) -> (r: Result<(), LexError>)
        requires
            old(self).position < old(self).chars@.len(),
            old(self).chars@[old(self).position as int] == '<',
        ensures
            Lexer::scanned(*old(self), *final(self), r),
    {
        let ghost out0 = token_views(self.output@);
        if self.next() == '-' {
            self.add_token(TokenType::Setter, String::new());
            self.next();
            proof {
                lemma_push_concat(out0, (TokenType::Setter, empty_text()));
            }
            Ok(())
        } else {
            Err(LexError::ExpectedDash)
        }
    }

    /// `><`.
    fn tokenize_remover(&mut self) -> (r: Result<(), LexError>)
        requires
            old(self).position < old(self).chars@.len(),
            old(self).chars@[old(self).position as int] == '>',
        ensures
            Lexer::scanned(*old(self), *final(self), r),
    {
        let ghost out0 = token_views(self.output@);
        if self.next() == '<' {
            self.add_token(TokenType::Remover, String::new());
            self.next();
            proof {
                lemma_push_concat(out0, (TokenType::Remover, empty_text()));
            }
            Ok(())
        } else {
            Err(LexError::ExpectedLess)
        }
    }

    /// Lexes the input from the current position to its end, appending the
    /// tokens to `output`; on an error, stops there and returns it.
    pub fn tokenize(&mut self) -> (r: Result<(), LexError>)
        ensures
            final(self).source() == old(self).source(),
            match lex_from(old(self).source(), old(self).at()) {
                Ok(ts) => r is Ok && final(self).tokens() == old(self).tokens() + ts,
                Err(e) => r == Err::<(), LexError>(e) && final(self).tokens() == old(self).tokens(),
            },
    {
        let n0 = self.output.len();
        self.chars = chars_of(self.input);
        let ghost cs = self.chars@;
        let ghost pos0 = self.position as int;
        let ghost out0 = token_views(self.output@);
        while self.position < self.chars.len()
            invariant
                self.chars@ == cs,
                cs == old(self).input@,
                self.input == old(self).input,
                pos0 == old(self).position,
                out0 == token_views(old(self).output@),
                n0 == out0.len(),
                n0 <= self.output@.len(),
                token_views(self.output@).subrange(0, n0 as int) == out0,
                after(out0, lex_from(cs, pos0)) == after(
                    token_views(self.output@),
                    lex_from(cs, self.position as int),
                ),
            decreases cs.len() - self.position,
        {
            let ghost l0 = *self;
            let curr_ch = self.peek(0);
            let step = if curr_ch == '"' {
                self.tokenize_string()
            } else if curr_ch == '<' {
                self.tokenize_setter()
            } else if curr_ch == '>' {
                self.tokenize_remover()
            } else if '0' <= curr_ch && curr_ch <= '9' {
                self.tokenize_number()
            } else if curr_ch == '-' {
                self.tokenize_operator(TokenType::Substract)
            } else if let Some(op) = operator_type(curr_ch) {
                self.tokenize_operator(op)
            } else if is_alphabetic(curr_ch) || curr_ch == '_' || curr_ch == '$' {
                self.tokenize_key_word()
            } else {
                self.next();
                Ok(())
            };
            proof {
                let i = l0.position as int;
                if let Ok((t, j)) = scan(cs, i) {
                    if step is Ok {
                        let rest = lex_from(cs, j);
                        assert(lex_from(cs, i) == after(opt_seq(t), rest));
                        if let Ok(rs) = rest {
                            assert(token_views(l0.output@) + (opt_seq(t) + rs) =~= token_views(
                                self.output@,
                            ) + rs);
                        }
                        if step is Ok && t is None {
                            assert(token_views(self.output@) =~= token_views(l0.output@) + opt_seq(t));
                        }
                        if step is Ok {
                            assert((token_views(l0.output@) + opt_seq(t)).subrange(0, n0 as int)
                                =~= token_views(l0.output@).subrange(0, n0 as int));
                            assert(self.output@.len() == token_views(self.output@).len());
                            assert(l0.output@.len() == token_views(l0.output@).len());
                        }
                    }
                }
            }
            if let Err(e) = step {
                proof {
                    assert(lex_from(cs, l0.position as int) == Err::<
                        Seq<(TokenType, Seq<char>)>,
                        LexError,
                    >(e));
                }
                let ghost before = self.output@;
                self.output.truncate(n0);
                proof {
                    assert(self.output@ =~= before.subrange(0, n0 as int));
                    assert(token_views(self.output@) =~= token_views(before).subrange(0, n0 as int));
                }
                return Err(e);
            }
        }
        Ok(())
    }
}

/// The kind of a one-character operator or bracket, `-` aside.
fn operator_type(c: char) -> (r: Option<TokenType>)
    ensures
        r == operator_kind(c),
{
    if c == '+' {
        Some(TokenType::Add)
    } else if c == '*' {
        Some(TokenType::Multiply)
    } else if c == '/' {
        Some(TokenType::Divide)
    } else if c == '(' {
        Some(TokenType::LeftParen)
    } else if c == ')' {
        Some(TokenType::RightParen)
    } else if c == '{' {
        Some(TokenType::LeftBrace)
    } else if c == '}' {
        Some(TokenType::RightBrace)
    } else {
        None
    }
}

} // verus!
