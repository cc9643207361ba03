//! The special forms: lists whose head is one of a closed set of symbols are
//! evaluated by their own rules instead of by application.

use vstd::prelude::*;
use crate::ast::{Ast, LispAtom, LispCallable, LispLambda, Term, seq_view, names_view, lemma_list_view};
use crate::builtins::result_view;
use crate::env::{Environment, bind_innermost, lemma_added_concat};
use crate::error::LispError;
use crate::error::Fault;
use crate::eval::{
    Io, eval_expr_depth, eval_special, eval_term, special_runs, stepped, exchanges, truthy,
    lambda_result, quote_result, all_symbols, symbol_names, lemma_no_events,
};
use crate::host::Host;

verus! {

/// The special forms.
#[derive(Debug, Clone, Copy, PartialEq, Eq, Structural)]
pub enum SpecialForm {
    Lambda,
    Define,
    If,
    Quote,
}

/// The special form a symbol names, if any: `lambda` (also written `λ`),
/// `define`, `if` and `quote`.
pub open spec fn special_form(name: Seq<char>) -> Option<SpecialForm> {
    if name == "lambda"@ || name == "λ"@ {
        Some(SpecialForm::Lambda)
    } else if name == "define"@ {
        Some(SpecialForm::Define)
    } else if name == "if"@ {
        Some(SpecialForm::If)
    } else if name == "quote"@ {
        Some(SpecialForm::Quote)
    } else {
        None
    }
}

fn is_named(s: &String, name: &str) -> (r: bool)
    ensures
        r == (s@ == name@),
{
    s.eq(&name.to_owned())
}

/// The special form a symbol names, if any.
pub fn special_form_of(name: &String) -> (r: Option<SpecialForm>)
    ensures
        r == special_form(name@),
{
    if is_named(name, "lambda") || is_named(name, "λ") {
        Some(SpecialForm::Lambda)
    } else if is_named(name, "define") {
        Some(SpecialForm::Define)
    } else if is_named(name, "if") {
        Some(SpecialForm::If)
    } else if is_named(name, "quote") {
        Some(SpecialForm::Quote)
    } else {
        None
    }
}

/// `(if cond then else)`: evaluates `cond`, then exactly one branch: `then`
/// unless the condition is the boolean `false`, `else` otherwise.
pub fn lisp_if<H: Host>(args: Vec<Ast>, env: &mut Environment, host: &mut H, depth: u64) -> (r: Result<Ast, LispError>)
    requires
        old(env)@.len() >= 1,
    ensures
        stepped(*old(env), *final(env)),
        special_runs(SpecialForm::If, seq_view(args@), old(env)@, depth as nat, exchanges(*old(env), *final(env)), result_view(r), final(env)@),
    decreases depth, 2nat, 0nat,
{
    let ghost a = seq_view(args@);
    let ghost e0 = *env;
    proof {
        lemma_no_events(env.trace());
    }
    let mut args = args;
    if args.len() == 0 {
        return Err(LispError::BadArity);
    }
    let condition = args.remove(0);
    assert(seq_view(args@) =~= a.drop_first());
    assert(condition@ == a[0]);
    let condition = eval_expr_depth(condition, env, host, depth);
    let ghost e1 = *env;
    let condition = match condition {
        Ok(c) => c,
        Err(e) => {
            proof {
                assert forall|r1: Io| #[trigger] eval_special(SpecialForm::If, a, e0@, depth as nat, exchanges(e0, e1) + r1)
                    == Some((Err::<Term, Fault>(e@), e1@, r1)) by {
                    assert(eval_term(a[0], e0@, depth as nat, exchanges(e0, e1) + r1) == Some((Err::<Term, Fault>(e@), e1@, r1)));
                }
            }
            return Err(e);
        },
    };
    let is_false = match condition {
        Ast::Atom(LispAtom::Bool(b)) => !b,
        _ => false,
    };
    assert(is_false == !truthy(condition@));
    if is_false && args.len() < 2 || !is_false && args.len() < 1 {
        proof {
            assert forall|r1: Io| #[trigger] eval_special(SpecialForm::If, a, e0@, depth as nat, exchanges(e0, e1) + r1)
                == Some((Err::<Term, Fault>(Fault::BadArity), e1@, r1)) by {
                assert(eval_term(a[0], e0@, depth as nat, exchanges(e0, e1) + r1) == Some((Ok::<Term, Fault>(condition@), e1@, r1)));
            }
        }
        return Err(LispError::BadArity);
    }
    if is_false {
        args.remove(0);
    }
    let branch = args.remove(0);
    assert(branch@ == if is_false { a[2] } else { a[1] });
    let r = eval_expr_depth(branch, env, host, depth);
    let ghost e2 = *env;
    proof {
        lemma_added_concat(e0.trace(), e1.trace(), e2.trace());
        assert forall|r2: Io| #[trigger] eval_special(SpecialForm::If, a, e0@, depth as nat, exchanges(e0, e2) + r2)
            == Some((result_view(r), e2@, r2)) by {
            assert(exchanges(e0, e2) + r2 =~= exchanges(e0, e1) + (exchanges(e1, e2) + r2));
            assert(eval_term(a[0], e0@, depth as nat, exchanges(e0, e1) + (exchanges(e1, e2) + r2))
                == Some((Ok::<Term, Fault>(condition@), e1@, exchanges(e1, e2) + r2)));
            assert(eval_term(branch@, e1@, depth as nat, exchanges(e1, e2) + r2) == Some((result_view(r), e2@, r2)));
        }
    }
    r
}

/// `(define sym expr)`: evaluates `expr` and binds `sym` to its value in the
/// innermost scope; the form's own value is `Unspecified`.
pub fn define<H: Host>(args: Vec<Ast>, env: &mut Environment, host: &mut H, depth: u64) -> (r: Result<Ast, LispError>)
    requires
        old(env)@.len() >= 1,
    ensures
        stepped(*old(env), *final(env)),
        special_runs(SpecialForm::Define, seq_view(args@), old(env)@, depth as nat, exchanges(*old(env), *final(env)), result_view(r), final(env)@),
    decreases depth, 2nat, 0nat,
{
    let ghost a = seq_view(args@);
    let ghost e0 = *env;
    proof {
        lemma_no_events(env.trace());
    }
    let mut args = args;
    if args.len() == 0 {
        return Err(LispError::TypeError);
    }
    let first = args.remove(0);
    assert(seq_view(args@) =~= a.drop_first());
    assert(first@ == a[0]);
    let binding = match first {
        Ast::Atom(LispAtom::Symbol(s)) => s,
        _ => return Err(LispError::TypeError),
    };
    if args.len() == 0 {
        return Err(LispError::BadArity);
    }
    let expr = args.remove(0);
    assert(expr@ == a[1]);
    let value = eval_expr_depth(expr, env, host, depth);
    let ghost e1 = *env;
    let value = match value {
        Ok(v) => v,
        Err(e) => {
            proof {
                assert forall|r1: Io| #[trigger] eval_special(SpecialForm::Define, a, e0@, depth as nat, exchanges(e0, e1) + r1)
                    == Some((Err::<Term, Fault>(e@), e1@, r1)) by {
                    assert(eval_term(a[1], e0@, depth as nat, exchanges(e0, e1) + r1) == Some((Err::<Term, Fault>(e@), e1@, r1)));
                }
            }
            return Err(e);
        },
    };
    let ghost mid = env@;
    let ghost name = binding@;
    let ghost v = value@;
    env.bind(binding, value);
    assert(bind_innermost(mid, name, v).drop_last() =~= mid.drop_last());
    proof {
        assert forall|r1: Io| #[trigger] eval_special(SpecialForm::Define, a, e0@, depth as nat, exchanges(e0, e1) + r1)
            == Some((Ok::<Term, Fault>(Term::Unspecified), bind_innermost(mid, name, v), r1)) by {
            assert(eval_term(a[1], e0@, depth as nat, exchanges(e0, e1) + r1) == Some((Ok::<Term, Fault>(v), e1@, r1)));
        }
    }
    Ok(Ast::Unspecified)
}

/// The names of a list of symbols, or a type error if an element is not a symbol.
fn symbols_to_names(items: &Vec<Ast>) -> (r: Result<Vec<String>, LispError>)
    ensures
        all_symbols(seq_view(items@)) ==> r is Ok && names_view(r->Ok_0@) == symbol_names(seq_view(items@)),
        !all_symbols(seq_view(items@)) ==> r == Err::<Vec<String>, LispError>(LispError::TypeError),
{
    let ghost terms = seq_view(items@);
    let mut out: Vec<String> = Vec::new();
    let mut i: usize = 0;
    while i < items.len()
        invariant
            terms == seq_view(items@),
            i <= items@.len(),
            out@.len() == i,
            forall|j: int| 0 <= j < i ==> #[trigger] terms[j] is Symbol && terms[j]->Symbol_0 == out@[j]@,
        decreases items.len() - i,
    {
        match &items[i] {
            Ast::Atom(LispAtom::Symbol(s)) => out.push(s.clone()),
            _ => {
                assert(!(terms[i as int] is Symbol));
                return Err(LispError::TypeError);
            },
        }
        i = i + 1;
    }
    assert(names_view(out@) =~= symbol_names(terms));
    Ok(out)
}

/// `(lambda (x y ...) body)`: a closure over the parameter names and the
/// unevaluated body. Each parameter must be a symbol.
pub fn lambda(args: Vec<Ast>, _env: &mut Environment) -> (r: Result<Ast, LispError>)
    ensures
        *final(_env) == *old(_env),
        result_view(r) == lambda_result(seq_view(args@)),
{
    let ghost a = seq_view(args@);
    let mut args = args;
    if args.len() == 0 {
        return Err(LispError::TypeError);
    }
    let params = args.remove(0);
    assert(seq_view(args@) =~= a.drop_first());
    let names = match params {
        Ast::List(items) => {
            proof {
                lemma_list_view(items);
            }
            match symbols_to_names(&items) {
                Ok(names) => names,
                Err(e) => return Err(e),
            }
        },
        _ => return Err(LispError::TypeError),
    };
    if args.len() == 0 {
        return Err(LispError::BadArity);
    }
    let body = args.remove(0);
    let closure = LispLambda::new(names.len(), names, body);
    Ok(Ast::Function(LispCallable::Lambda(closure)))
}

/// `(quote x)`: `x` itself, unevaluated.
pub fn quote(args: Vec<Ast>, _env: &mut Environment) -> (r: Result<Ast, LispError>)
    ensures
        *final(_env) == *old(_env),
        result_view(r) == quote_result(seq_view(args@)),
{
    if args.len() != 1 {
        return Err(LispError::TypeError);
    }
    let mut args = args;
    Ok(args.remove(0))
}

} // verus!
