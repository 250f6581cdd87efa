use tinyscript::lexer::{LexError, Lexer};
use tinyscript::tokens::{Token, TokenType};

fn lex(src: &str) -> Result<Vec<(TokenType, String)>, LexError> {
    let mut lexer = Lexer::new(src);
    lexer.tokenize()?;
    Ok(lexer.output.iter().map(|t| (t.token_type, t.data.clone())).collect())
}

fn tok(kind: TokenType, data: &str) -> (TokenType, String) {
    (kind, data.to_string())
}

#[test]
fn lexes_decimal_number() {
    assert_eq!(lex("12.5"), Ok(vec![tok(TokenType::Number, "12.5")]));
    assert_eq!(lex("007"), Ok(vec![tok(TokenType::Number, "007")]));
}

#[test]
fn second_dot_is_a_lex_error() {
    assert_eq!(lex("1.2.3"), Err(LexError::RepeatedDot));
    assert_eq!(lex("x <- 1..2"), Err(LexError::RepeatedDot));
}

#[test]
fn hex_literal_lexes_as_hex_number() {
    assert_eq!(lex("0x1F"), Ok(vec![tok(TokenType::HexNumber, "1F")]));
    assert_eq!(lex("0Xff"), Ok(vec![tok(TokenType::HexNumber, "ff")]));
}

#[test]
fn zero_then_x_only_after_a_lone_zero() {
    assert_eq!(
        lex("10x"),
        Ok(vec![tok(TokenType::Number, "10"), tok(TokenType::VariableKey, "x")])
    );
}

#[test]
fn reserved_words_and_names() {
    assert_eq!(
        lex("null function foo"),
        Ok(vec![
            tok(TokenType::Null, ""),
            tok(TokenType::Func, ""),
            tok(TokenType::VariableKey, "foo"),
        ])
    );
}

#[test]
fn names_may_start_with_underscore_or_dollar() {
    assert_eq!(
        lex("_a $b c_1$"),
        Ok(vec![
            tok(TokenType::VariableKey, "_a"),
            tok(TokenType::VariableKey, "$b"),
            tok(TokenType::VariableKey, "c_1$"),
        ])
    );
}

#[test]
fn names_may_hold_non_ascii_letters() {
    assert_eq!(lex("héllo2"), Ok(vec![tok(TokenType::VariableKey, "héllo2")]));
    assert_eq!(lex("名前"), Ok(vec![tok(TokenType::VariableKey, "名前")]));
}

#[test]
fn string_literal_keeps_its_characters() {
    assert_eq!(
        lex("\"hi there\" \"\""),
        Ok(vec![tok(TokenType::StringValue, "hi there"), tok(TokenType::StringValue, "")])
    );
}

#[test]
fn unterminated_string_is_a_lex_error() {
    assert_eq!(lex("\"abc"), Err(LexError::UnterminatedString));
}

#[test]
fn setter_and_remover() {
    assert_eq!(
        lex("x <- 5 y ><"),
        Ok(vec![
            tok(TokenType::VariableKey, "x"),
            tok(TokenType::Setter, ""),
            tok(TokenType::Number, "5"),
            tok(TokenType::VariableKey, "y"),
            tok(TokenType::Remover, ""),
        ])
    );
}

#[test]
fn malformed_setter_is_a_lex_error() {
    assert_eq!(lex("x < 5"), Err(LexError::ExpectedDash));
    assert_eq!(lex("x <"), Err(LexError::ExpectedDash));
}

#[test]
fn malformed_remover_is_a_lex_error() {
    assert_eq!(lex("x > 5"), Err(LexError::ExpectedLess));
}

#[test]
fn minus_and_action_pointer() {
    assert_eq!(
        lex("1-2 ->"),
        Ok(vec![
            tok(TokenType::Number, "1"),
            tok(TokenType::Substract, ""),
            tok(TokenType::Number, "2"),
            tok(TokenType::ActionPointer, ""),
        ])
    );
}

#[test]
fn single_character_operators() {
    assert_eq!(
        lex("+*/(){}"),
        Ok(vec![
            tok(TokenType::Add, ""),
            tok(TokenType::Multiply, ""),
            tok(TokenType::Divide, ""),
            tok(TokenType::LeftParen, ""),
            tok(TokenType::RightParen, ""),
            tok(TokenType::LeftBrace, ""),
            tok(TokenType::RightBrace, ""),
        ])
    );
}

#[test]
fn whitespace_and_unknown_characters_are_skipped() {
    assert_eq!(lex(" ;, \n\t"), Ok(vec![]));
    assert_eq!(lex(""), Ok(vec![]));
    assert_eq!(lex("a;b"), Ok(vec![tok(TokenType::VariableKey, "a"), tok(TokenType::VariableKey, "b")]));
}

#[test]
fn token_type_names() {
    assert_eq!(TokenType::Number.to_string(), "Number");
    assert_eq!(TokenType::Null.to_string(), "null");
    assert_eq!(TokenType::Setter.to_string(), "<-");
    assert_eq!(TokenType::Remover.to_string(), "><");
    assert_eq!(TokenType::ActionPointer.to_string(), "->");
    assert_eq!(TokenType::Substract.to_string(), "-");
    assert_eq!(TokenType::EOF.to_string(), "EOF");
}

#[test]
fn token_new_keeps_kind_and_text() {
    let t = Token::new(TokenType::VariableKey, "abc".to_string());
    assert_eq!(t.token_type, TokenType::VariableKey);
    assert_eq!(t.data, "abc");
}

#[test]
fn failed_lexing_leaves_no_tokens() {
    let mut lexer = Lexer::new("a b 1.2.3 c");
    assert_eq!(lexer.tokenize(), Err(LexError::RepeatedDot));
    assert!(lexer.output.is_empty());
}
