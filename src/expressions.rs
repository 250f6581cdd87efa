use std::rc::Rc;
use vstd::prelude::*;
use crate::tokens::TokenType;
use crate::storage::{Storage, StorageVariable};
use crate::value::{Value, share};

verus! {

/// A numeric literal as written: decimal text, or the value of hexadecimal
/// digits. The host turns it into its number representation.
#[derive(Clone, Debug, PartialEq)]
pub enum Numeral {
    Decimal(String),
    Integer(u64),
}

/// A node of the syntax tree. Children are owned by their parent; the body
/// and parameter list of a function are shared with the values made from it.
#[derive(Debug, PartialEq)]
pub enum Expression {
    Null,
    NumberValue(Numeral),
    StringValue(String),
    Binary(TokenType, Box<Expression>, Box<Expression>),
    Unary(TokenType, Box<Expression>),
    GetVariable(String),
    SetVariable(String, Box<Expression>),
    Block(Vec<Expression>),
    Function(Rc<Expression>, Rc<Vec<String>>),
    CallFunc(String, Vec<Expression>),
    Return(Box<Expression>),
}

/// The syntax tree as a mathematical value: texts as character sequences,
/// children as sequences of trees.
pub enum Ast {
    Null,
    Decimal(Seq<char>),
    Integer(u64),
    Str(Seq<char>),
    Binary(TokenType, Box<Ast>, Box<Ast>),
    Unary(TokenType, Box<Ast>),
    Get(Seq<char>),
    Assign(Seq<char>, Box<Ast>),
    Block(Seq<Ast>),
    Function(Box<Ast>, Seq<Seq<char>>),
    Call(Seq<char>, Seq<Ast>),
    Return(Box<Ast>),
}

broadcast use vstd::std_specs::vec::group_vec_axioms;

/// The trees of a sequence of expressions.
pub open spec fn asts(es: Seq<Expression>) -> Seq<Ast>
    decreases es,
{
    if es.len() == 0 {
        Seq::empty()
    } else {
        seq![es[0].ast()] + asts(es.subrange(1, es.len() as int))
    }
}

pub proof fn lemma_asts_empty()
    ensures
        asts(Seq::<Expression>::empty()) == Seq::<Ast>::empty(),
{
}

/// The trees of a sequence with one more expression.
pub proof fn lemma_asts_push(es: Seq<Expression>, e: Expression)
    ensures
        asts(es.push(e)) == asts(es).push(e.ast()),
        asts(es).len() == es.len(),
    decreases es.len(),
{
    if es.len() == 0 {
        assert(es.push(e).subrange(1, 1) =~= Seq::<Expression>::empty());
        assert(asts(Seq::<Expression>::empty()) == Seq::<Ast>::empty());
        assert(es.push(e)[0] == e);
        assert(asts(es.push(e)) == seq![e.ast()] + Seq::<Ast>::empty());
        assert(asts(es.push(e)) =~= seq![e.ast()]);
    } else {
        let rest = es.subrange(1, es.len() as int);
        lemma_asts_push(rest, e);
        assert(es.push(e).subrange(1, es.len() + 1 as int) =~= rest.push(e));
        assert(es.push(e)[0] == es[0]);
        assert(asts(es.push(e)) =~= asts(es).push(e.ast()));
    }
}

impl Expression {
    /// The tree that this expression denotes.
    pub open spec fn ast(&self) -> Ast
        decreases self,
    {
        match self {
            Expression::Null => Ast::Null,
            Expression::NumberValue(Numeral::Decimal(t)) => Ast::Decimal(t@),
            Expression::NumberValue(Numeral::Integer(v)) => Ast::Integer(*v),
            Expression::StringValue(s) => Ast::Str(s@),
            Expression::Binary(op, l, r) => Ast::Binary(*op, Box::new(l.ast()), Box::new(r.ast())),
            Expression::Unary(op, e) => Ast::Unary(*op, Box::new(e.ast())),
            Expression::GetVariable(k) => Ast::Get(k@),
            Expression::SetVariable(k, e) => Ast::Assign(k@, Box::new(e.ast())),
            Expression::Block(es) => Ast::Block(asts(es@)),
            Expression::Function(b, ps) => Ast::Function(
                Box::new(b.ast()),
                Seq::new(ps@.len(), |i: int| ps@[i]@),
            ),
            Expression::CallFunc(k, args) => Ast::Call(k@, asts(args@)),
            Expression::Return(e) => Ast::Return(Box::new(e.ast())),
        }
    }
}

/// Why an evaluation stopped.
#[derive(Clone, Debug, PartialEq)]
pub enum EvalError {
    /// A read of a name that no frame on the chain binds.
    VariableNotFound(String),
    CannotNegate,
    CannotAdd,
    CannotSubstract,
    CannotMultiply,
    CannotDivide,
    /// A call of a name whose value is not a function.
    NotCallable(String),
    /// Expressions nested deeper than the depth allowed.
    TooDeep,
}

/// The host's numbers. The library holds a number only in the host's
/// encoding (the bit pattern of a double); what each operation returns is
/// the host's, and contracts speak of it as what the host's method returns
/// on the given arguments.
pub trait Numbers {
    /// The number that a decimal literal's text denotes.
    fn number_from_decimal(&self, text: &String) -> u64;

    /// The number that an integer denotes.
    fn number_from_integer(&self, value: u64) -> u64;

    fn number_add(&self, a: u64, b: u64) -> u64;

    fn number_sub(&self, a: u64, b: u64) -> u64;

    fn number_mul(&self, a: u64, b: u64) -> u64;

    fn number_div(&self, a: u64, b: u64) -> u64;

    fn number_neg(&self, a: u64) -> u64;

    /// The text of a number, as concatenation with a string shows it.
    fn number_text(&self, a: u64) -> String;
}

/// The host's native functions (such as `print`).
pub trait Natives<N: Numbers> {
    /// Runs native function `id` on its unevaluated arguments against the
    /// live storage; `depth` is what is left of the nesting allowed.
    fn call_native(
        &mut self,
        id: usize,
        args: &Vec<Expression>,
        storage: &mut Storage,
        numbers: &N,
        depth: u64,
    ) -> Result<Value, EvalError>;
}

/// Names a state and a result that a step of an evaluation reaches; the
/// quantifiers below are matched on it.
pub open spec fn reached<R>(s: Storage, r: R) -> bool {
    true
}

/// Evaluating `e` from `s0` with `d` levels of nesting allowed may end in
/// `s1` with result `r`. Where the host answers (a number, a native
/// function) any answer of the right kind is allowed; everything else is
/// fixed: operands are evaluated left to right, a block runs in a scope of
/// its own and gives its last value, a call binds its arguments in a new
/// scope and runs the body there.
pub open spec fn evaluates<N: Numbers>(
    num: &N,
    s0: Storage,
    e: Expression,
    s1: Storage,
    r: Result<Value, EvalError>,
    d: nat,
) -> bool
    decreases d, 0nat,
{
    if d == 0 {
        r == Err::<Value, EvalError>(EvalError::TooDeep) && s1 == s0
    } else {
        let d1 = (d - 1) as nat;
        match e {
            Expression::Null => r == Ok::<Value, EvalError>(Value::Null) && s1 == s0,
            Expression::NumberValue(Numeral::Decimal(t)) => s1 == s0 && (r matches Ok(
                Value::Number(n),
            ) && call_ensures(N::number_from_decimal, (num, &t), n)),
            Expression::NumberValue(Numeral::Integer(v)) => s1 == s0 && (r matches Ok(
                Value::Number(n),
            ) && call_ensures(N::number_from_integer, (num, v), n)),
            Expression::StringValue(t) => r == Ok::<Value, EvalError>(Value::String(t)) && s1
                == s0,
            Expression::Function(b, p) => r == Ok::<Value, EvalError>(Value::Function(b, p))
                && s1 == s0,
            Expression::GetVariable(k) => s1 == s0 && match s0.value_of(k@) {
                Some(v) => r == Ok::<Value, EvalError>(v),
                None => r == Err::<Value, EvalError>(EvalError::VariableNotFound(k)),
            },
            Expression::SetVariable(k, x) => exists|sm: Storage, rv: Result<Value, EvalError>|
                #[trigger] reached(sm, rv) && evaluates(num, s0, *x, sm, rv, d1) && match rv {
                    Err(err) => r == Err::<Value, EvalError>(err) && s1 == sm,
                    Ok(v) => r == Ok::<Value, EvalError>(v) && Storage::assigned(sm, s1, k@, v),
                },
            Expression::Unary(op, x) => if op == TokenType::Add {
                evaluates(num, s0, *x, s1, r, d1)
            } else if op == TokenType::Substract {
                exists|rv: Result<Value, EvalError>|
                    #[trigger] reached(s1, rv) && evaluates(num, s0, *x, s1, rv, d1) && match rv {
                        Err(err) => r == Err::<Value, EvalError>(err),
                        Ok(v) => Value::neg_post(num, v, r),
                    }
            } else {
                r == Ok::<Value, EvalError>(Value::Null) && s1 == s0
            },
            Expression::Binary(op, l, x) => exists|sm: Storage, rl: Result<Value, EvalError>|
                #[trigger] reached(sm, rl) && evaluates(num, s0, *l, sm, rl, d1) && match rl {
                    Err(err) => r == Err::<Value, EvalError>(err) && s1 == sm,
                    Ok(vl) => exists|rr: Result<Value, EvalError>|
                        #[trigger] reached(s1, rr) && evaluates(num, sm, *x, s1, rr, d1) && match rr {
                            Err(err) => r == Err::<Value, EvalError>(err),
                            Ok(vr) => Value::binary_post(num, op, vl, vr, r),
                        },
                },
            Expression::Block(es) => exists|sa: Storage, sb: Storage|
                #![trigger Storage::entered(s0, sa), Storage::exited(sb, s1)]
                Storage::entered(s0, sa) && runs(num, sa, es@, 0, Value::Null, sb, r, d1)
                    && Storage::exited(sb, s1),
            Expression::CallFunc(k, args) => match s0.value_of(k@) {
                None => r == Err::<Value, EvalError>(EvalError::VariableNotFound(k)) && s1 == s0,
                Some(Value::Function(body, params)) => exists|
                    sa: Storage,
                    sb: Storage,
                    rb: Result<(), EvalError>,
                |
                    #![trigger Storage::entered(s0, sa), reached(sb, rb)]
                    Storage::entered(s0, sa) && reached(sb, rb) && binds(num, 
                        sa,
                        params@,
                        args@,
                        0,
                        sb,
                        rb,
                        d1,
                    ) && match rb {
                        Err(err) => r == Err::<Value, EvalError>(err) && Storage::exited(sb, s1),
                        Ok(_) => exists|sc: Storage|
                            #[trigger] Storage::exited(sc, s1) && evaluates(num, sb, *body, sc, r, d1),
                    },
                Some(Value::NativeFunc(_)) => true,
                Some(_) => r == Err::<Value, EvalError>(EvalError::NotCallable(k)) && s1 == s0,
            },
            Expression::Return(x) => evaluates(num, s0, *x, s1, r, d1),
        }
    }
}

/// Running the statements `es[i..]` from `s0`, after statements whose last
/// value was `last`, may end in `s1` with result `r`: the value of the last
/// statement, or the first error.
pub open spec fn runs<N: Numbers>(
    num: &N,
    s0: Storage,
    es: Seq<Expression>,
    i: int,
    last: Value,
    s1: Storage,
    r: Result<Value, EvalError>,
    d: nat,
) -> bool
    decreases d, es.len() - i,
{
    if i < 0 || i >= es.len() {
        r == Ok::<Value, EvalError>(last) && s1 == s0
    } else {
        exists|sm: Storage, rv: Result<Value, EvalError>|
            #[trigger] reached(sm, rv) && evaluates(num, s0, es[i], sm, rv, d) && match rv {
                Err(err) => r == Err::<Value, EvalError>(err) && s1 == sm,
                Ok(v) => runs(num, sm, es, i + 1, v, s1, r, d),
            }
    }
}

/// Binding `params[i..]` to the values of `args[i..]`, pair by pair, from
/// `s0` may end in `s1` with result `r`; a parameter with no argument is
/// left unbound and an argument with no parameter is not evaluated.
pub open spec fn binds<N: Numbers>(
    num: &N,
    s0: Storage,
    params: Seq<String>,
    args: Seq<Expression>,
    i: int,
    s1: Storage,
    r: Result<(), EvalError>,
    d: nat,
) -> bool
    decreases d, params.len() - i,
{
    if i < 0 || i >= params.len() || i >= args.len() {
        r == Ok::<(), EvalError>(()) && s1 == s0
    } else {
        exists|sm: Storage, rv: Result<Value, EvalError>|
            #[trigger] reached(sm, rv) && evaluates(num, s0, args[i], sm, rv, d) && match rv {
                Err(err) => r == Err::<(), EvalError>(err) && s1 == sm,
                Ok(v) => exists|sn: Storage|
                    #[trigger] Storage::assigned(sm, sn, params[i]@, v) && binds(num, 
                        sn,
                        params,
                        args,
                        i + 1,
                        s1,
                        r,
                        d,
                    ),
            }
    }
}

impl Expression {
    /// Evaluates this expression against `storage`, allowing expressions to
    /// nest `depth` deep (function bodies included).
    pub fn eval<N: Numbers, H: Natives<N>>(
        &self,
        storage: &mut Storage,
        num: &N,
        natives: &mut H,
        depth: u64,
    ) -> (r: Result<Value, EvalError>)
        ensures
            evaluates(num, *old(storage), *self, *final(storage), r, depth as nat),
        decreases depth, 0nat,
    {
        let ghost s0 = *storage;
        if depth == 0 {
            return Err(EvalError::TooDeep);
        }
        let inner = depth - 1;
        match self {
            Expression::Null => Ok(Value::Null),
            Expression::NumberValue(numeral) => match numeral {
                Numeral::Decimal(text) => Ok(Value::Number(num.number_from_decimal(text))),
                Numeral::Integer(value) => Ok(Value::Number(num.number_from_integer(*value))),
            },
            Expression::StringValue(value) => Ok(Value::String(value.clone())),
            Expression::Binary(op_type, left_expr, right_expr) => {
                let rl = left_expr.eval(storage, num, natives, inner);
                let ghost sm = *storage;
                proof {
                    assert(reached(sm, rl));
                }
                let left = match rl {
                    Ok(v) => v,
                    Err(e) => {
                        return Err(e);
                    },
                };
                let rr = right_expr.eval(storage, num, natives, inner);
                proof {
                    assert(reached(*storage, rr));
                }
                let right = match rr {
                    Ok(v) => v,
                    Err(e) => {
                        return Err(e);
                    },
                };
                match op_type {
                    TokenType::Add => if left.can_add(&right) {
                        Ok(left.add(right, num))
                    } else {
                        Err(EvalError::CannotAdd)
                    },
                    TokenType::Substract => if left.is_number() && right.is_number() {
                        Ok(left.sub(right, num))
                    } else {
                        Err(EvalError::CannotSubstract)
                    },
                    TokenType::Multiply => if left.is_number() && right.is_number() {
                        Ok(left.mul(right, num))
                    } else {
                        Err(EvalError::CannotMultiply)
                    },
                    TokenType::Divide => if left.is_number() && right.is_number() {
                        Ok(left.div(right, num))
                    } else {
                        Err(EvalError::CannotDivide)
                    },
                    _ => Ok(Value::Null),
                }
            },
            Expression::Unary(op_type, expr) => match op_type {
                TokenType::Add => expr.eval(storage, num, natives, inner),
                TokenType::Substract => {
                    let rv = expr.eval(storage, num, natives, inner);
                    proof {
                        assert(reached(*storage, rv));
                    }
                    match rv {
                        Ok(v) => if v.is_number() {
                            Ok(v.neg(num))
                        } else {
                            Err(EvalError::CannotNegate)
                        },
                        Err(e) => Err(e),
                    }
                },
                _ => Ok(Value::Null),
            },
            Expression::GetVariable(key) => match storage.slot_of(key) {
                Some(_) => Ok(storage.get(StorageVariable::User(key.clone()))),
                None => Err(EvalError::VariableNotFound(key.clone())),
            },
            Expression::SetVariable(key, expr) => {
                let rv = expr.eval(storage, num, natives, inner);
                let ghost sm = *storage;
                proof {
                    assert(reached(sm, rv));
                }
                let value = match rv {
                    Ok(v) => v,
                    Err(e) => {
                        return Err(e);
                    },
                };
                storage.assign_or_declare(key, value.duplicate());
                Ok(value)
            },
            Expression::Block(exprs) => {
                let mut result = Value::Null;
                storage.scope_start();
                let ghost sa = *storage;
                let mut i: usize = 0;
                while i < exprs.len()
                    invariant
                        i <= exprs@.len(),
                        inner < depth,
                        inner as nat == (depth as nat - 1) as nat,
                        Storage::entered(s0, sa),
                        s0 == *old(storage),
                        *self == Expression::Block(*exprs),
                        forall|s_end: Storage, rr: Result<Value, EvalError>|
                            #[trigger] runs(num, *storage, exprs@, i as int, result, s_end, rr, inner as nat)
                                ==> runs(num, sa, exprs@, 0, Value::Null, s_end, rr, inner as nat),
                    decreases exprs@.len() - i,
                {
                    let ghost si = *storage;
                    let ghost last = result;
                    let rv = exprs[i].eval(storage, num, natives, inner);
                    let ghost sm = *storage;
                    proof {
                        assert(reached(sm, rv));
                    }
                    result = match rv {
                        Ok(v) => v,
                        Err(e) => {
                            proof {
                                assert(runs(num, si, exprs@, i as int, last, sm, rv, inner as nat));
                            }
                            storage.scope_end();
                            return Err(e);
                        },
                    };
                    proof {
                        assert forall|s_end: Storage, rr: Result<Value, EvalError>|
                            #[trigger] runs(num, sm, exprs@, i + 1, result, s_end, rr, inner as nat)
                                implies runs(num, sa, exprs@, 0, Value::Null, s_end, rr, inner as nat) by {
                            assert(runs(num, si, exprs@, i as int, last, s_end, rr, inner as nat));
                        }
                    }
                    i = i + 1;
                }
                let ghost sb = *storage;
                proof {
                    let done = Ok::<Value, EvalError>(result);
                    assert(runs(num, sb, exprs@, i as int, result, sb, done, inner as nat));
                }
                storage.scope_end();
                Ok(result)
            },
            Expression::Function(body, params) => Ok(Value::Function(share(body), share(params))),
            Expression::CallFunc(key, args) => {
                let func = match storage.slot_of(key) {
                    Some(_) => storage.get(StorageVariable::User(key.clone())),
                    None => {
                        return Err(EvalError::VariableNotFound(key.clone()));
                    },
                };
                match func {
                    Value::Function(body, params) => {
                        storage.scope_start();
                        let bound = bind_arguments(storage, num, natives, &params, args, inner);
                        proof {
                            assert(reached(*storage, bound));
                        }
                        match bound {
                            Ok(()) => {},
                            Err(e) => {
                                storage.scope_end();
                                return Err(e);
                            },
                        }
                        let result = body.eval(storage, num, natives, inner);
                        storage.scope_end();
                        result
                    },
                    Value::NativeFunc(id) => natives.call_native(id, args, storage, num, inner),
                    _ => Err(EvalError::NotCallable(key.clone())),
                }
            },
            Expression::Return(expr) => expr.eval(storage, num, natives, inner),
        }
    }
}

/// Binds each parameter, in order, to the value of the argument in the same
/// place, by the assignment policy; parameters with no argument stay unbound
/// and arguments with no parameter are not evaluated.
pub fn bind_arguments<N: Numbers, H: Natives<N>>(
    storage: &mut Storage,
    num: &N,
    natives: &mut H,
    params: &Vec<String>,
    args: &Vec<Expression>,
    depth: u64,
) -> (r: Result<(), EvalError>)
    ensures
        binds(num, *old(storage), params@, args@, 0, *final(storage), r, depth as nat),
    decreases depth, 1nat,
{
    let ghost s0 = *storage;
    let mut i: usize = 0;
    while i < params.len() && i < args.len()
        invariant
            i <= params@.len(),
            s0 == *old(storage),
            forall|s_end: Storage, rr: Result<(), EvalError>|
                #[trigger] binds(num, *storage, params@, args@, i as int, s_end, rr, depth as nat)
                    ==> binds(num, s0, params@, args@, 0, s_end, rr, depth as nat),
        decreases params@.len() - i,
    {
        let ghost si = *storage;
        let rv = args[i].eval(storage, num, natives, depth);
        let ghost sm = *storage;
        proof {
            assert(reached(sm, rv));
        }
        let value = match rv {
            Ok(v) => v,
            Err(e) => {
                proof {
                    let failed = Err::<(), EvalError>(e);
                    assert(binds(num, si, params@, args@, i as int, sm, failed, depth as nat));
                }
                return Err(e);
            },
        };
        storage.assign_or_declare(&params[i], value);
        proof {
            assert forall|s_end: Storage, rr: Result<(), EvalError>|
                #[trigger] binds(num, *storage, params@, args@, i + 1, s_end, rr, depth as nat)
                    implies binds(num, s0, params@, args@, 0, s_end, rr, depth as nat) by {
                assert(binds(num, si, params@, args@, i as int, s_end, rr, depth as nat));
            }
        }
        i = i + 1;
    }
    proof {
        let done = Ok::<(), EvalError>(());
        assert(binds(num, *storage, params@, args@, i as int, *storage, done, depth as nat));
    }
    Ok(())
}

/// Evaluating an assignment that succeeds leaves the name bound to the value
/// it produced, whether the name was bound before (anywhere up the chain of
/// scopes) or not.
pub proof fn assignment_reads_back<N: Numbers>(
    num: &N,
    s0: Storage,
    key: String,
    x: Box<Expression>,
    s1: Storage,
    v: Value,
    d: nat,
)
    requires
        evaluates(num, s0, Expression::SetVariable(key, x), s1, Ok::<Value, EvalError>(v), d),
    ensures
        s1.value_of(key@) == Some(v),
{
    let (sm, rv) = choose|sm: Storage, rv: Result<Value, EvalError>|
        #[trigger] reached(sm, rv) && evaluates(num, s0, *x, sm, rv, (d - 1) as nat) && match rv {
            Err(err) => Ok::<Value, EvalError>(v) == Err::<Value, EvalError>(err) && s1 == sm,
            Ok(w) => Ok::<Value, EvalError>(v) == Ok::<Value, EvalError>(w) && Storage::assigned(
                sm,
                s1,
                key@,
                w,
            ),
        };
    Storage::assigned_name_reads_back(sm, s1, key@, v);
}

/// Reading a name that resolves nowhere fails; once an assignment to it has
/// succeeded, reading it gives the value assigned.
pub proof fn read_fails_until_assigned<N: Numbers>(
    num: &N,
    s0: Storage,
    key: String,
    x: Box<Expression>,
    s1: Storage,
    v: Value,
    s2: Storage,
    r: Result<Value, EvalError>,
    d: nat,
)
    requires
        d > 0,
        evaluates(num, s0, Expression::SetVariable(key, x), s1, Ok::<Value, EvalError>(v), d),
        evaluates(num, s1, Expression::GetVariable(key), s2, r, d),
    ensures
        s0.value_of(key@) is None ==> forall|sr: Storage, rr: Result<Value, EvalError>|
            #[trigger] evaluates(num, s0, Expression::GetVariable(key), sr, rr, d) ==> rr == Err::<
                Value,
                EvalError,
            >(EvalError::VariableNotFound(key)),
        r == Ok::<Value, EvalError>(v),
{
    assignment_reads_back(num, s0, key, x, s1, v, d);
}

/// Binding fewer arguments than there are parameters behaves as binding the
/// parameters that have an argument: the others play no part in the call
/// until the body reads them.
pub proof fn missing_arguments_are_not_bound<N: Numbers>(
    num: &N,
    s0: Storage,
    params: Seq<String>,
    args: Seq<Expression>,
    i: int,
    s1: Storage,
    r: Result<(), EvalError>,
    d: nat,
)
    requires
        args.len() < params.len(),
        0 <= i,
    ensures
        binds(num, s0, params, args, i, s1, r, d) == binds(num, 
            s0,
            params.take(args.len() as int),
            args,
            i,
            s1,
            r,
            d,
        ),
    decreases args.len() - i,
{
    let tp = params.take(args.len() as int);
    if i < args.len() {
        assert(tp[i] == params[i]);
        assert forall|sn: Storage, s_end: Storage, rr: Result<(), EvalError>|
            #[trigger] binds(num, sn, params, args, i + 1, s_end, rr, d) == binds(num, 
                sn,
                tp,
                args,
                i + 1,
                s_end,
                rr,
                d,
            ) by {
            missing_arguments_are_not_bound(num, sn, params, args, i + 1, s_end, rr, d);
        }
        if binds(num, s0, params, args, i, s1, r, d) {
            let (sm, rv) = choose|sm: Storage, rv: Result<Value, EvalError>|
                #[trigger] reached(sm, rv) && evaluates(num, s0, args[i], sm, rv, d) && match rv {
                    Err(err) => r == Err::<(), EvalError>(err) && s1 == sm,
                    Ok(v) => exists|sn: Storage|
                        #[trigger] Storage::assigned(sm, sn, params[i]@, v) && binds(num, 
                            sn,
                            params,
                            args,
                            i + 1,
                            s1,
                            r,
                            d,
                        ),
                };
            if let Ok(v) = rv {
                let sn = choose|sn: Storage|
                    #[trigger] Storage::assigned(sm, sn, params[i]@, v) && binds(num, 
                        sn,
                        params,
                        args,
                        i + 1,
                        s1,
                        r,
                        d,
                    );
                assert(binds(num, sn, tp, args, i + 1, s1, r, d));
            }
            assert(binds(num, s0, tp, args, i, s1, r, d));
        }
        if binds(num, s0, tp, args, i, s1, r, d) {
            let (sm, rv) = choose|sm: Storage, rv: Result<Value, EvalError>|
                #[trigger] reached(sm, rv) && evaluates(num, s0, args[i], sm, rv, d) && match rv {
                    Err(err) => r == Err::<(), EvalError>(err) && s1 == sm,
                    Ok(v) => exists|sn: Storage|
                        #[trigger] Storage::assigned(sm, sn, tp[i]@, v) && binds(num, 
                            sn,
                            tp,
                            args,
                            i + 1,
                            s1,
                            r,
                            d,
                        ),
                };
            if let Ok(v) = rv {
                let sn = choose|sn: Storage|
                    #[trigger] Storage::assigned(sm, sn, tp[i]@, v) && binds(num, 
                        sn,
                        tp,
                        args,
                        i + 1,
                        s1,
                        r,
                        d,
                    );
                assert(binds(num, sn, params, args, i + 1, s1, r, d));
            }
            assert(binds(num, s0, params, args, i, s1, r, d));
        }
    }
}

} // verus!
