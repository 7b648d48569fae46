use vstd::prelude::*;

pub mod number;
pub mod tokenizer;
pub mod ast;
pub mod parser;
pub mod rendering;

use crate::ast::{Arithmetic, Context, EvalError, Expr, Object, eval_rel};
use crate::parser::{ParseError, Parser, parse_tokens};
use crate::tokenizer::{lex, lexemes};

verus! {

/// Why a program has no value.
#[derive(Debug, PartialEq)]
pub enum Error {
    Lex(String),
    Parse(ParseError),
    Eval(EvalError),
}

/// The evaluator's part of a program's result.
pub open spec fn evaluation_result(r: Result<Object, Error>) -> Result<Object, EvalError> {
    match r {
        Ok(v) => Ok(v),
        Err(Error::Eval(e)) => Err(e),
        Err(_) => Err(EvalError::OutOfSteps),
    }
}

/// Runs a program: splits it into tokens, parses its leading expression and
/// evaluates that against `context`, within `steps` evaluation steps.
pub fn evaluate<A: Arithmetic>(source: &str, context: &mut Context, ops: &A, steps: u64) -> (r: Result<
    Object,
    Error,
>)
    ensures
        lex(source@) is Err <==> r matches Err(Error::Lex(_)),
        lex(source@) matches Err(e) ==> (r matches Err(Error::Lex(m)) && m@ == e.text()),
        r matches Err(Error::Parse(e)) ==> exists|ts: Seq<crate::tokenizer::Token>|
            lex(source@) == Ok::<_, crate::tokenizer::LexError>(lexemes(ts)) && parse_tokens(ts) == Err::<crate::ast::Ast, ParseError>(e),
        (r matches Err(Error::Lex(_)) || r matches Err(Error::Parse(_))) ==> final(context)@ == old(context)@,
        (r is Ok || r matches Err(Error::Eval(_))) ==> exists|ts: Seq<crate::tokenizer::Token>, x: Expr, s2: int|
            lex(source@) == Ok::<_, crate::tokenizer::LexError>(lexemes(ts)) && parse_tokens(ts) == Ok::<crate::ast::Ast, ParseError>(x.ast())
                && eval_rel(x, old(context)@, steps as int, evaluation_result(r), final(context)@, s2),
{
    let tokens = match crate::tokenizer::tokenize(source) {
        Ok(t) => t,
        Err(m) => return Err(Error::Lex(m)),
    };
    let mut parser = Parser::new(tokens.as_slice());
    let expr = match parser.start_parsing() {
        Ok(e) => e,
        Err(e) => return Err(Error::Parse(e)),
    };
    let mut budget = steps;
    let r = expr.eval(context, ops, &mut budget);
    assert(parse_tokens(tokens@) == Ok::<crate::ast::Ast, ParseError>(expr.ast()));
    match r {
        Ok(v) => Ok(v),
        Err(e) => Err(Error::Eval(e)),
    }
}

} // verus!
