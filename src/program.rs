use vstd::prelude::*;
use crate::expressions::{
    Ast, EvalError, Expression, Natives, Numbers, asts, evaluates, lemma_asts_empty, reached,
};
use crate::lexer::{LexError, Lexer, lex};
use crate::parser::{ParseError, Parser, program};
use crate::storage::Storage;
use crate::tokens::token_views;
use crate::value::Value;

verus! {

/// Why a program did not run to its end.
#[derive(Clone, Debug, PartialEq)]
pub enum RunError {
    Lex(LexError),
    Parse(ParseError),
    Eval(EvalError),
}

/// The values of a run, or why it stopped.
pub open spec fn run_view(r: Result<Vec<Value>, RunError>) -> Result<Seq<Value>, RunError> {
    match r {
        Ok(vs) => Ok(vs@),
        Err(e) => Err(e),
    }
}

/// Evaluating the statements `es[i..]` in order from `s0`, after statements
/// whose values were `vals`, may end in `s1` with result `r`: the value of
/// every statement, or the first error.
pub open spec fn performs<N: Numbers>(
    num: &N,
    s0: Storage,
    es: Seq<Expression>,
    i: int,
    vals: Seq<Value>,
    s1: Storage,
    r: Result<Seq<Value>, RunError>,
    d: nat,
) -> bool
    decreases es.len() - i,
{
    if i < 0 || i >= es.len() {
        r == Ok::<Seq<Value>, RunError>(vals) && s1 == s0
    } else {
        exists|sm: Storage, rv: Result<Value, EvalError>|
            #[trigger] reached(sm, rv) && evaluates(num, s0, es[i], sm, rv, d) && match rv {
                Err(e) => r == Err::<Seq<Value>, RunError>(RunError::Eval(e)) && s1 == sm,
                Ok(v) => performs(num, sm, es, i + 1, vals.push(v), s1, r, d),
            }
    }
}

/// Lexes and parses `source`, then evaluates its statements in order
/// against `storage`, giving the value of each; stops at the first error.
pub fn run<N: Numbers, H: Natives<N>>(
    source: &str,
    storage: &mut Storage,
    num: &N,
    natives: &mut H,
    depth: u64,
) -> (r: Result<Vec<Value>, RunError>)
    ensures
        match lex(source@) {
            Err(e) => r == Err::<Vec<Value>, RunError>(RunError::Lex(e)) && *final(storage)
                == *old(storage),
            Ok(ts) => match program(ts) {
                Err(e) => r == Err::<Vec<Value>, RunError>(RunError::Parse(e)) && *final(storage)
                    == *old(storage),
                Ok(stmts) => exists|es: Seq<Expression>|
                    #[trigger] asts(es) == stmts && performs(num, 
                        *old(storage),
                        es,
                        0,
                        Seq::empty(),
                        *final(storage),
                        run_view(r),
                        depth as nat,
                    ),
            },
        },
{
    let ghost s0 = *storage;
    let mut lexer = Lexer::new(source);
    match lexer.tokenize() {
        Ok(()) => {},
        Err(e) => {
            return Err(RunError::Lex(e));
        },
    }
    let tokens = lexer.tokens_out();
    let mut parser = Parser::new(tokens);
    proof {
        assert(token_views(tokens@) =~= lex(source@)->Ok_0);
    }
    match parser.parse() {
        Ok(()) => {},
        Err(e) => {
            return Err(RunError::Parse(e));
        },
    }
    let statements = parser.statements();
    proof {
        lemma_asts_empty();
        assert(Seq::<Ast>::empty() + asts(statements@) =~= asts(statements@));
    }
    let mut values: Vec<Value> = Vec::new();
    let mut i: usize = 0;
    while i < statements.len()
        invariant
            i <= statements@.len(),
            s0 == *old(storage),
            lex(source@) is Ok,
            program(lex(source@)->Ok_0) == Ok::<Seq<Ast>, ParseError>(asts(statements@)),
            forall|s_end: Storage, rr: Result<Seq<Value>, RunError>|
                #[trigger] performs(num, *storage, statements@, i as int, values@, s_end, rr, depth as nat)
                    ==> performs(num, s0, statements@, 0, Seq::empty(), s_end, rr, depth as nat),
        decreases statements@.len() - i,
    {
        let ghost si = *storage;
        let ghost before = values@;
        let rv = statements[i].eval(storage, num, natives, depth);
        let ghost sm = *storage;
        proof {
            assert(reached(sm, rv));
        }
        match rv {
            Ok(v) => values.push(v),
            Err(e) => {
                proof {
                    let failed = Err::<Seq<Value>, RunError>(RunError::Eval(e));
                    assert(performs(num, si, statements@, i as int, before, sm, failed, depth as nat));
                }
                return Err(RunError::Eval(e));
            },
        }
        proof {
            assert forall|s_end: Storage, rr: Result<Seq<Value>, RunError>|
                #[trigger] performs(num, sm, statements@, i + 1, values@, s_end, rr, depth as nat)
                    implies performs(num, s0, statements@, 0, Seq::empty(), s_end, rr, depth as nat) by {
                assert(performs(num, si, statements@, i as int, before, s_end, rr, depth as nat));
            }
        }
        i = i + 1;
    }
    proof {
        let done = Ok::<Seq<Value>, RunError>(values@);
        assert(performs(num, *storage, statements@, i as int, values@, *storage, done, depth as nat));
    }
    Ok(values)
}

} // verus!
