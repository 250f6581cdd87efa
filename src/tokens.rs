use vstd::prelude::*;

verus! {

/// The kinds of token the lexer produces.
#[derive(Clone, Copy, Debug, PartialEq, Eq, Structural)]
pub enum TokenType {
    /// A number in decimal notation.
    Number,
    /// A number in hexadecimal notation (the digits after `0x`).
    HexNumber,
    VariableKey,
    StringValue,
    Null,
    /// `><`
    Remover,
    /// `<-`
    Setter,
    /// `function`
    Func,
    /// `->`
    ActionPointer,
    Multiply,
    Divide,
    Add,
    Substract,
    LeftParen,
    RightParen,
    LeftBrace,
    RightBrace,
    /// End of input.
    EOF,
}

impl TokenType {
    /// The text by which a token kind is shown.
    pub open spec fn spec_name(self) -> Seq<char> {
        match self {
            TokenType::Number => "Number"@,
            TokenType::HexNumber => "HexNumber"@,
            TokenType::VariableKey => "VariableKey"@,
            TokenType::StringValue => "StringValue"@,
            TokenType::Null => "null"@,
            TokenType::Remover => "><"@,
            TokenType::Setter => "<-"@,
            TokenType::Func => "function"@,
            TokenType::ActionPointer => "->"@,
            TokenType::Multiply => "*"@,
            TokenType::Divide => "/"@,
            TokenType::Add => "+"@,
            TokenType::Substract => "-"@,
            TokenType::LeftParen => "("@,
            TokenType::RightParen => ")"@,
            TokenType::LeftBrace => "{"@,
            TokenType::RightBrace => "}"@,
            TokenType::EOF => "EOF"@,
        }
    }

    pub fn to_string(&self) -> (r: String)
        ensures
            r@ == self.spec_name(),
    {
        let s = match self {
            TokenType::Number => "Number",
            TokenType::HexNumber => "HexNumber",
            TokenType::VariableKey => "VariableKey",
            TokenType::StringValue => "StringValue",
            TokenType::Null => "null",
            TokenType::Remover => "><",
            TokenType::Setter => "<-",
            TokenType::Func => "function",
            TokenType::ActionPointer => "->",
            TokenType::Multiply => "*",
            TokenType::Divide => "/",
            TokenType::Add => "+",
            TokenType::Substract => "-",
            TokenType::LeftParen => "(",
            TokenType::RightParen => ")",
            TokenType::LeftBrace => "{",
            TokenType::RightBrace => "}",
            TokenType::EOF => "EOF",
        };
        s.to_string()
    }
}

/// A token: its kind and, for literals and names, the text it carries.
#[derive(Clone, Debug, PartialEq)]
pub struct Token {
    pub token_type: TokenType,
    pub data: String,
}

impl View for Token {
    type V = (TokenType, Seq<char>);

    open spec fn view(&self) -> (TokenType, Seq<char>) {
        (self.token_type, self.data@)
    }
}

/// The views of a sequence of tokens.
pub open spec fn token_views(s: Seq<Token>) -> Seq<(TokenType, Seq<char>)> {
    s.map_values(|t: Token| t@)
}

impl Token {
    pub fn new(token_type: TokenType, data: String) -> (r: Token)
        ensures
            r@ == (token_type, data@),
    {
        Token { token_type, data }
    }
}

} // verus!
