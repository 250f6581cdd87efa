use std::rc::Rc;
use tinyscript::expressions::{EvalError, Expression, Natives, Numbers, Numeral};
use tinyscript::lexer::LexError;
use tinyscript::parser::ParseError;
use tinyscript::program::{run, RunError};
use tinyscript::storage::{Storage, PRINT_NATIVE};
use tinyscript::value::Value;

struct Floats;

impl Numbers for Floats {
    fn number_from_decimal(&self, text: &String) -> u64 {
        text.parse::<f64>().unwrap().to_bits()
    }

    fn number_from_integer(&self, value: u64) -> u64 {
        (value as f64).to_bits()
    }

    fn number_add(&self, a: u64, b: u64) -> u64 {
        (f64::from_bits(a) + f64::from_bits(b)).to_bits()
    }

    fn number_sub(&self, a: u64, b: u64) -> u64 {
        (f64::from_bits(a) - f64::from_bits(b)).to_bits()
    }

    fn number_mul(&self, a: u64, b: u64) -> u64 {
        (f64::from_bits(a) * f64::from_bits(b)).to_bits()
    }

    fn number_div(&self, a: u64, b: u64) -> u64 {
        (f64::from_bits(a) / f64::from_bits(b)).to_bits()
    }

    fn number_neg(&self, a: u64) -> u64 {
        (-f64::from_bits(a)).to_bits()
    }

    fn number_text(&self, a: u64) -> String {
        f64::from_bits(a).to_string()
    }
}

struct FloatHost {
    printed: Vec<String>,
}

impl Natives<Floats> for FloatHost {
    fn call_native(
        &mut self,
        id: usize,
        args: &Vec<Expression>,
        storage: &mut Storage,
        numbers: &Floats,
        depth: u64,
    ) -> Result<Value, EvalError> {
        assert_eq!(id, PRINT_NATIVE);
        let value = args[0].eval(storage, numbers, self, depth)?;
        let shown = value.to_text(numbers);
        self.printed.push(shown);
        Ok(Value::Null)
    }
}

fn host() -> FloatHost {
    FloatHost { printed: Vec::new() }
}

fn eval_all(src: &str) -> Result<Vec<Value>, RunError> {
    let mut storage = Storage::new();
    storage.init_std();
    run(src, &mut storage, &Floats, &mut host(), 1000)
}

fn last(src: &str) -> Result<Value, RunError> {
    eval_all(src).map(|vs| vs.last().cloned().unwrap_or(Value::Null))
}

fn number(x: f64) -> Value {
    Value::Number(x.to_bits())
}

fn text(s: &str) -> Value {
    Value::String(s.to_string())
}

fn not_found(s: &str) -> RunError {
    RunError::Eval(EvalError::VariableNotFound(s.to_string()))
}

#[test]
fn decimal_literals_evaluate_to_their_value() {
    assert_eq!(last("12.5"), Ok(number(12.5)));
    assert_eq!(last("007"), Ok(number(7.0)));
    assert_eq!(last("0"), Ok(number(0.0)));
    assert_eq!(last("3."), Ok(number(3.0)));
}

#[test]
fn hex_literal_evaluates_to_its_value() {
    assert_eq!(last("0x1F"), Ok(number(31.0)));
}

#[test]
fn string_concatenation() {
    assert_eq!(last("\"a\" + \"b\""), Ok(text("ab")));
    assert_eq!(last("\"a\" + 1"), Ok(text("a1")));
    assert_eq!(last("1 + \"a\""), Ok(text("1a")));
    assert_eq!(last("\"x\" + 2.5"), Ok(text("x2.5")));
}

#[test]
fn number_arithmetic() {
    assert_eq!(last("1 + 2"), Ok(number(3.0)));
    assert_eq!(last("7 - 2 * 3"), Ok(number(1.0)));
    assert_eq!(last("8 / 4 / 2"), Ok(number(1.0)));
    assert_eq!(last("-(2 + 3)"), Ok(number(-5.0)));
    assert_eq!(last("+4"), Ok(number(4.0)));
}

#[test]
fn division_by_zero_is_infinity() {
    let v = last("1 / 0").unwrap();
    match v {
        Value::Number(bits) => assert_eq!(f64::from_bits(bits), f64::INFINITY),
        other => panic!("expected a number, got {:?}", other),
    }
    match last("0 / 0").unwrap() {
        Value::Number(bits) => assert!(f64::from_bits(bits).is_nan()),
        other => panic!("expected a number, got {:?}", other),
    }
}

#[test]
fn assignment_creates_a_top_level_variable() {
    assert_eq!(eval_all("x <- 5 x"), Ok(vec![number(5.0), number(5.0)]));
}

#[test]
fn name_declared_in_a_function_is_gone_after_the_call() {
    assert_eq!(last("f <- function { y <- 1 } f() y"), Err(not_found("y")));
}

#[test]
fn assignment_in_a_function_mutates_the_outer_binding() {
    assert_eq!(last("x <- 1 f <- function { x <- 2 } f() x"), Ok(number(2.0)));
}

#[test]
fn missing_arguments_matter_only_when_read() {
    assert_eq!(last("f <- function (a b) -> a f(1)"), Ok(number(1.0)));
    assert_eq!(last("g <- function (a b) -> b g(1)"), Err(not_found("b")));
    assert_eq!(last("h <- function (a b) -> 9 h()"), Ok(number(9.0)));
}

#[test]
fn extra_arguments_are_not_evaluated() {
    assert_eq!(last("f <- function (a) -> a f(1 undefined)"), Ok(number(1.0)));
}

#[test]
fn parameters_are_local_to_the_call() {
    assert_eq!(last("f <- function (a) -> a f(7) a"), Err(not_found("a")));
    assert_eq!(last("f <- function (a b) -> a + b f(2 3)"), Ok(number(5.0)));
}

#[test]
fn reading_unbound_name_fails_until_assigned() {
    assert_eq!(last("z"), Err(not_found("z")));
    assert_eq!(last("z <- 3 z"), Ok(number(3.0)));
}

#[test]
fn remover_sets_null() {
    assert_eq!(last("x <- 1 x >< x"), Ok(Value::Null));
}

#[test]
fn block_value_is_its_last_statement() {
    assert_eq!(last("f <- function { 1 2 \"three\" } f()"), Ok(text("three")));
    assert_eq!(last("f <- function { } f()"), Ok(Value::Null));
}

#[test]
fn type_errors() {
    assert_eq!(last("-\"a\""), Err(RunError::Eval(EvalError::CannotNegate)));
    assert_eq!(last("null + 1"), Err(RunError::Eval(EvalError::CannotAdd)));
    assert_eq!(last("\"a\" - 1"), Err(RunError::Eval(EvalError::CannotSubstract)));
    assert_eq!(last("\"a\" * 1"), Err(RunError::Eval(EvalError::CannotMultiply)));
    assert_eq!(last("\"a\" / 1"), Err(RunError::Eval(EvalError::CannotDivide)));
}

#[test]
fn calling_a_non_function_fails() {
    assert_eq!(
        last("x <- 1 x()"),
        Err(RunError::Eval(EvalError::NotCallable("x".to_string())))
    );
    assert_eq!(last("nothing()"), Err(not_found("nothing")));
}

#[test]
fn unbounded_recursion_stops_at_the_depth_limit() {
    assert_eq!(last("f <- function -> f() f()"), Err(RunError::Eval(EvalError::TooDeep)));
    let mut storage = Storage::new();
    assert_eq!(Expression::Null.eval(&mut storage, &Floats, &mut host(), 0), Err(EvalError::TooDeep));
}

#[test]
fn print_native_gets_raw_arguments() {
    let mut storage = Storage::new();
    storage.init_std();
    let mut h = host();
    let r = run("print(\"hi\") print(1 + 1) print(null) print(print)", &mut storage, &Floats, &mut h, 100);
    assert_eq!(r, Ok(vec![Value::Null, Value::Null, Value::Null, Value::Null]));
    assert_eq!(h.printed, vec!["hi", "2", "null", "function"]);
}

#[test]
fn lex_and_parse_errors_stop_the_run() {
    assert_eq!(eval_all("1.2.3"), Err(RunError::Lex(LexError::RepeatedDot)));
    assert_eq!(eval_all("x < 1"), Err(RunError::Lex(LexError::ExpectedDash)));
    assert_eq!(eval_all("*"), Err(RunError::Parse(ParseError::UnknownExpression)));
    assert_eq!(eval_all(""), Ok(vec![]));
}

#[test]
fn function_value_shares_its_code() {
    let body = Rc::new(Expression::Null);
    let params = Rc::new(vec!["p".to_string()]);
    let e = Expression::Function(body.clone(), params.clone());
    let mut storage = Storage::new();
    let v = e.eval(&mut storage, &Floats, &mut host(), 5).unwrap();
    match &v {
        Value::Function(b, p) => {
            assert!(Rc::ptr_eq(b, &body));
            assert!(Rc::ptr_eq(p, &params));
        }
        other => panic!("expected a function, got {:?}", other),
    }
    let copy = v.duplicate();
    assert_eq!(copy, v);
}

#[test]
fn return_evaluates_its_operand() {
    let e = Expression::Return(Box::new(Expression::StringValue("r".to_string())));
    let mut storage = Storage::new();
    assert_eq!(e.eval(&mut storage, &Floats, &mut host(), 5), Ok(text("r")));
}

#[test]
fn integer_numerals_go_through_the_host() {
    let e = Expression::NumberValue(Numeral::Integer(255));
    let mut storage = Storage::new();
    assert_eq!(e.eval(&mut storage, &Floats, &mut host(), 5), Ok(number(255.0)));
}

#[test]
fn values_as_text() {
    let h = Floats;
    assert_eq!(Value::Null.to_text(&h), "null");
    assert_eq!(Value::Bool(true).to_text(&h), "true");
    assert_eq!(Value::Bool(false).to_text(&h), "false");
    assert_eq!(number(1.5).to_text(&h), "1.5");
    assert_eq!(text("raw").to_text(&h), "raw");
    assert_eq!(Value::NativeFunc(0).to_text(&h), "function");
}

#[test]
fn value_operations_on_numbers_use_the_host() {
    let f = Floats;
    assert_eq!(number(7.0).sub(number(2.0), &f), number(5.0));
    assert_eq!(number(3.0).mul(number(4.0), &f), number(12.0));
    assert_eq!(number(1.0).div(number(4.0), &f), number(0.25));
    assert_eq!(number(2.5).neg(&f), number(-2.5));
    assert_eq!(number(2.0).add(text("x"), &f), text("2x"));
    assert!(number(1.0).is_number());
    assert!(!text("a").can_add(&Value::Null));
}
