use std::rc::Rc;
use tinyscript::expressions::{Expression, Numeral};
use tinyscript::lexer::Lexer;
use tinyscript::parser::{ParseError, Parser};
use tinyscript::tokens::TokenType;

fn parse(src: &str) -> Result<Vec<Expression>, ParseError> {
    let mut lexer = Lexer::new(src);
    lexer.tokenize().unwrap();
    let mut parser = Parser::new(&lexer.output);
    parser.parse()?;
    Ok(parser.output)
}

fn num(s: &str) -> Expression {
    Expression::NumberValue(Numeral::Decimal(s.to_string()))
}

fn bin(op: TokenType, a: Expression, b: Expression) -> Expression {
    Expression::Binary(op, Box::new(a), Box::new(b))
}

fn get(s: &str) -> Expression {
    Expression::GetVariable(s.to_string())
}

#[test]
fn number_literal_parses_to_its_text() {
    assert_eq!(parse("42"), Ok(vec![num("42")]));
    assert_eq!(parse("3.25"), Ok(vec![num("3.25")]));
}

#[test]
fn hex_literal_parses_to_its_value() {
    assert_eq!(parse("0x1F"), Ok(vec![Expression::NumberValue(Numeral::Integer(31))]));
    assert_eq!(
        parse("0x7FFFFFFFFFFFFFFF"),
        Ok(vec![Expression::NumberValue(Numeral::Integer(0x7fff_ffff_ffff_ffff))])
    );
}

#[test]
fn bad_hex_literals_are_parse_errors() {
    assert_eq!(parse("0x8000000000000000"), Err(ParseError::BadHexNumber));
    assert_eq!(parse("0x"), Err(ParseError::BadHexNumber));
}

#[test]
fn products_bind_tighter_than_sums() {
    assert_eq!(
        parse("1 + 2 * 3"),
        Ok(vec![bin(TokenType::Add, num("1"), bin(TokenType::Multiply, num("2"), num("3")))])
    );
}

#[test]
fn operators_associate_to_the_left() {
    assert_eq!(
        parse("8 / 4 / 2"),
        Ok(vec![bin(TokenType::Divide, bin(TokenType::Divide, num("8"), num("4")), num("2"))])
    );
    assert_eq!(
        parse("1 - 2 - 3"),
        Ok(vec![bin(TokenType::Substract, bin(TokenType::Substract, num("1"), num("2")), num("3"))])
    );
}

#[test]
fn parentheses_reset_precedence() {
    assert_eq!(
        parse("(1 + 2) * 3"),
        Ok(vec![bin(TokenType::Multiply, bin(TokenType::Add, num("1"), num("2")), num("3"))])
    );
}

#[test]
fn prefix_operators() {
    assert_eq!(parse("-5"), Ok(vec![Expression::Unary(TokenType::Substract, Box::new(num("5")))]));
    assert_eq!(parse("+x"), Ok(vec![Expression::Unary(TokenType::Add, Box::new(get("x")))]));
}

#[test]
fn assignment_and_clearing() {
    assert_eq!(
        parse("x <- 1 + 2"),
        Ok(vec![Expression::SetVariable(
            "x".to_string(),
            Box::new(bin(TokenType::Add, num("1"), num("2")))
        )])
    );
    assert_eq!(
        parse("x ><"),
        Ok(vec![Expression::SetVariable("x".to_string(), Box::new(Expression::Null))])
    );
}

#[test]
fn call_with_arguments() {
    assert_eq!(
        parse("f(1 \"a\" g())"),
        Ok(vec![Expression::CallFunc(
            "f".to_string(),
            vec![
                num("1"),
                Expression::StringValue("a".to_string()),
                Expression::CallFunc("g".to_string(), vec![]),
            ]
        )])
    );
}

#[test]
fn function_with_block_body() {
    assert_eq!(
        parse("function (a b) { a b }"),
        Ok(vec![Expression::Function(
            Rc::new(Expression::Block(vec![get("a"), get("b")])),
            Rc::new(vec!["a".to_string(), "b".to_string()])
        )])
    );
}

#[test]
fn function_with_arrow_body() {
    assert_eq!(
        parse("function -> null"),
        Ok(vec![Expression::Function(Rc::new(Expression::Null), Rc::new(vec![]))])
    );
}

#[test]
fn function_without_body_is_a_parse_error() {
    assert_eq!(parse("function (a)"), Err(ParseError::ExpectedFunctionBody));
}

#[test]
fn bad_parameter_list_is_a_parse_error() {
    assert_eq!(parse("function (1) -> 1"), Err(ParseError::ExpectedParameter));
    assert_eq!(parse("function (a"), Err(ParseError::ExpectedParameter));
}

#[test]
fn unknown_expression_is_a_parse_error() {
    assert_eq!(parse(")"), Err(ParseError::UnknownExpression));
    assert_eq!(parse("1 +"), Err(ParseError::UnknownExpression));
    assert_eq!(parse("f(1"), Err(ParseError::UnknownExpression));
}

#[test]
fn one_tree_per_statement() {
    assert_eq!(
        parse("1 \"s\" x null"),
        Ok(vec![num("1"), Expression::StringValue("s".to_string()), get("x"), Expression::Null])
    );
    assert_eq!(parse(""), Ok(vec![]));
}

#[test]
fn accessors_show_tokens_and_statements() {
    let mut lexer = Lexer::new("a b");
    lexer.tokenize().unwrap();
    assert_eq!(lexer.tokens_out().len(), 2);
    let mut parser = Parser::new(lexer.tokens_out());
    parser.parse().unwrap();
    assert_eq!(parser.statements(), &vec![get("a"), get("b")]);
}

#[test]
fn failed_parsing_leaves_no_statements() {
    let mut lexer = Lexer::new("a b )");
    lexer.tokenize().unwrap();
    let mut parser = Parser::new(&lexer.output);
    assert_eq!(parser.parse(), Err(ParseError::UnknownExpression));
    assert!(parser.output.is_empty());
}
