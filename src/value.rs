use std::rc::Rc;
use vstd::prelude::*;
use crate::expressions::{EvalError, Expression, Numbers};
use crate::tokens::TokenType;

verus! {

/// A runtime value. A number is held in the host's encoding (the bit
/// pattern of a double); the library never looks inside it.
#[derive(Clone, Debug, PartialEq)]
pub enum Value {
    Null,
    Number(u64),
    Bool(bool),
    String(String),
    Function(Rc<Expression>, Rc<Vec<String>>),
    NativeFunc(usize),
}

/// Relies on `Rc::clone`: the new pointer refers to the same value.
#[verifier::external_body]
pub(crate) fn share<T>(r: &Rc<T>) -> (s: Rc<T>)
    ensures
        s == *r,
{
    Rc::clone(r)
}

impl Value {
    /// What negating `a` gives: for a number, the host's negation of it.
    pub open spec fn neg_post<N: Numbers>(num: &N, a: Value, r: Result<Value, EvalError>) -> bool {
        match a {
            Value::Number(x) => r matches Ok(Value::Number(n)) && call_ensures(
                N::number_neg,
                (num, x),
                n,
            ),
            _ => r == Err::<Value, EvalError>(EvalError::CannotNegate),
        }
    }

    /// What adding `a` and `b` gives: the host's sum of two numbers, the
    /// concatenation of two strings, and of a string with the host's text of
    /// a number on either side.
    pub open spec fn add_post<N: Numbers>(
        num: &N,
        a: Value,
        b: Value,
        r: Result<Value, EvalError>,
    ) -> bool {
        match (a, b) {
            (Value::Number(x), Value::Number(y)) => r matches Ok(Value::Number(n)) && call_ensures(
                N::number_add,
                (num, x, y),
                n,
            ),
            (Value::String(x), Value::String(y)) => r matches Ok(Value::String(s)) && s@ == x@ + y@,
            (Value::String(x), Value::Number(y)) => r matches Ok(Value::String(s)) && exists|
                t: String,
            | #[trigger] call_ensures(N::number_text, (num, y), t) && s@ == x@ + t@,
            (Value::Number(x), Value::String(y)) => r matches Ok(Value::String(s)) && exists|
                t: String,
            | #[trigger] call_ensures(N::number_text, (num, x), t) && s@ == t@ + y@,
            _ => r == Err::<Value, EvalError>(EvalError::CannotAdd),
        }
    }

    /// What an arithmetic operator other than `+` gives: for two numbers,
    /// what the host's operation `f` returns on them; else the error `err`.
    pub open spec fn numeric_post<F: FnOnce(&N, u64, u64) -> u64, N: Numbers>(
        f: F,
        num: &N,
        a: Value,
        b: Value,
        r: Result<Value, EvalError>,
        err: EvalError,
    ) -> bool {
        match (a, b) {
            (Value::Number(x), Value::Number(y)) => r matches Ok(Value::Number(n)) && call_ensures(
                f,
                (num, x, y),
                n,
            ),
            _ => r == Err::<Value, EvalError>(err),
        }
    }

    /// What the binary operator `op` gives on `a` and `b`; an operator that
    /// is not arithmetic gives `Null`.
    pub open spec fn binary_post<N: Numbers>(
        num: &N,
        op: TokenType,
        a: Value,
        b: Value,
        r: Result<Value, EvalError>,
    ) -> bool {
        if op == TokenType::Add {
            Value::add_post(num, a, b, r)
        } else if op == TokenType::Substract {
            Value::numeric_post(N::number_sub, num, a, b, r, EvalError::CannotSubstract)
        } else if op == TokenType::Multiply {
            Value::numeric_post(N::number_mul, num, a, b, r, EvalError::CannotMultiply)
        } else if op == TokenType::Divide {
            Value::numeric_post(N::number_div, num, a, b, r, EvalError::CannotDivide)
        } else {
            r == Ok::<Value, EvalError>(Value::Null)
        }
    }

    /// Whether `+` applies to `a` and `b`: two numbers, two strings, or a
    /// string and a number in either order.
    pub open spec fn addable(a: Value, b: Value) -> bool {
        (a is Number || a is String) && (b is Number || b is String)
    }

    pub fn is_number(&self) -> (r: bool)
        ensures
            r == (*self is Number),
    {
        match self {
            Value::Number(_) => true,
            _ => false,
        }
    }

    /// Whether `+` applies to this value and `other`.
    pub fn can_add(&self, other: &Value) -> (r: bool)
        ensures
            r == Value::addable(*self, *other),
    {
        match (self, other) {
            (Value::Number(_), Value::Number(_)) => true,
            (Value::Number(_), Value::String(_)) => true,
            (Value::String(_), Value::Number(_)) => true,
            (Value::String(_), Value::String(_)) => true,
            _ => false,
        }
    }

    /// A copy of this value; a function's code is shared, not copied.
    pub fn duplicate(&self) -> (r: Value)
        ensures
            r == *self,
    {
        match self {
            Value::Null => Value::Null,
            Value::Number(n) => Value::Number(*n),
            Value::Bool(b) => Value::Bool(*b),
            Value::String(s) => Value::String(s.clone()),
            Value::Function(body, params) => Value::Function(share(body), share(params)),
            Value::NativeFunc(id) => Value::NativeFunc(*id),
        }
    }

    /// Negation, of a number only: negating any other value is a fatal
    /// type error, so callers test the kind first (`is_number`).
    pub fn neg<N: Numbers>(self, num: &N) -> (r: Value)
        requires
            self is Number,
        ensures
            Value::neg_post(num, self, Ok(r)),
    {
        match self {
            Value::Number(a) => Value::Number(num.number_neg(a)),
            _ => Value::Null,
        }
    }

    /// Addition of numbers, concatenation of strings, and of a string with
    /// the text of a number on either side.
    pub fn add<N: Numbers>(self, other: Value, num: &N) -> (r: Value)
        requires
            Value::addable(self, other),
        ensures
            Value::add_post(num, self, other, Ok(r)),
    {
        match (self, other) {
            (Value::Number(a), Value::Number(b)) => Value::Number(num.number_add(a, b)),
            (Value::String(a), Value::String(b)) => {
                let mut s = a;
                s.append(b.as_str());
                Value::String(s)
            },
            (Value::String(a), Value::Number(b)) => {
                let text = num.number_text(b);
                let mut s = a;
                s.append(text.as_str());
                Value::String(s)
            },
            (Value::Number(a), Value::String(b)) => {
                let mut s = num.number_text(a);
                s.append(b.as_str());
                Value::String(s)
            },
            _ => Value::Null,
        }
    }

    /// Subtraction, of numbers only: applying it to any other value is a fatal
    /// type error, so callers test the kinds first (`is_number`).
    pub fn sub<N: Numbers>(self, other: Value, num: &N) -> (r: Value)
        requires
            self is Number && other is Number,
        ensures
            Value::numeric_post(N::number_sub, num, self, other, Ok(r), EvalError::CannotSubstract),
    {
        match (self, other) {
            (Value::Number(a), Value::Number(b)) => Value::Number(num.number_sub(a, b)),
            _ => Value::Null,
        }
    }

    /// Multiplication, of numbers only: applying it to any other value is a fatal
    /// type error, so callers test the kinds first (`is_number`).
    pub fn mul<N: Numbers>(self, other: Value, num: &N) -> (r: Value)
        requires
            self is Number && other is Number,
        ensures
            Value::numeric_post(N::number_mul, num, self, other, Ok(r), EvalError::CannotMultiply),
    {
        match (self, other) {
            (Value::Number(a), Value::Number(b)) => Value::Number(num.number_mul(a, b)),
            _ => Value::Null,
        }
    }

    /// Division, of numbers only: applying it to any other value is a fatal
    /// type error, so callers test the kinds first (`is_number`).
    pub fn div<N: Numbers>(self, other: Value, num: &N) -> (r: Value)
        requires
            self is Number && other is Number,
        ensures
            Value::numeric_post(N::number_div, num, self, other, Ok(r), EvalError::CannotDivide),
    {
        match (self, other) {
            (Value::Number(a), Value::Number(b)) => Value::Number(num.number_div(a, b)),
            _ => Value::Null,
        }
    }

    /// The text by which a value is shown: `null`, a number's text, `true`
    /// or `false`, a string's own characters, or `function`.
    pub fn to_text<N: Numbers>(&self, num: &N) -> (r: String)
        ensures
            match self {
                Value::Null => r@ == "null"@,
                Value::Number(n) => call_ensures(N::number_text, (num, *n), r),
                Value::Bool(b) => r@ == (if *b { "true"@ } else { "false"@ }),
                Value::String(s) => r@ == s@,
                Value::Function(_, _) => r@ == "function"@,
                Value::NativeFunc(_) => r@ == "function"@,
            },
    {
        match self {
            Value::Null => "null".to_string(),
            Value::Number(n) => num.number_text(*n),
            Value::Bool(b) => if *b {
                "true".to_string()
            } else {
                "false".to_string()
            },
            Value::String(s) => s.clone(),
            Value::Function(_, _) => "function".to_string(),
            Value::NativeFunc(_) => "function".to_string(),
        }
    }
}

} // verus!
