//! # callisp
//!
//! A small Lisp interpreter whose evaluation engine is specified and verified:
//! every executable step of the evaluator is proved to agree with the
//! big-step semantics written as spec functions in [`eval`].

pub mod ast;
pub mod builtins;
pub mod display;
pub mod env;
pub mod error;
pub mod eval;
pub mod host;
pub mod parser;
pub mod special_forms;
pub mod text;
pub mod laws;
pub mod lexer;

use vstd::prelude::*;
use crate::display::print_term;
use crate::env::Environment;
use crate::error::LispError;
use crate::ast::Term;
use crate::eval::{MAX_DEPTH, term_runs, exchanges, stepped};
use crate::host::Host;
use crate::parser::parse_expr_spec;

verus! {

/// Whether a printed result agrees with a result of the semantics.
pub open spec fn printed(res: Result<Term, error::Fault>, r: Result<String, LispError>) -> bool {
    match res {
        Ok(v) => r is Ok && r->Ok_0@ == print_term(v),
        Err(e) => r is Err && r->Err_0@ == e,
    }
}

/// Parses the expression at the start of `input`, evaluates it, and returns
/// the printed form of its value.
pub fn parse_eval_print<H: Host>(input: String, env: &mut Environment, host: &mut H) -> (r: Result<String, LispError>)
    requires
        old(env)@.len() >= 1,
    ensures
        stepped(*old(env), *final(env)),
        match parse_expr_spec(input@, 0) {
            None => r is Err && r->Err_0@ == error::Fault::ParseError(input@) && *final(env) == *old(env),
            Some((t, _)) => exists|res: Result<Term, error::Fault>|
                #[trigger] term_runs(t, old(env)@, MAX_DEPTH as nat, exchanges(*old(env), *final(env)), res, final(env)@)
                    && printed(res, r),
        },
{
    proof {
        eval::lemma_no_events(env.trace());
    }
    let expr = match parser::parse_expr(input.as_str()) {
        Ok((_, expr)) => expr,
        Err(e) => return Err(e),
    };
    let res = eval::eval_expr(expr, env, host);
    let ghost rv = builtins::result_view(res);
    assert(term_runs(expr@, old(env)@, MAX_DEPTH as nat, exchanges(*old(env), *final(env)), rv, final(env)@));
    match res {
        Ok(v) => Ok(v.display()),
        Err(e) => Err(e),
    }
}

} // verus!
