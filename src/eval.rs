//! The evaluator: a big-step semantics written as spec functions over the
//! models of expressions and environments, and the executable evaluator that
//! is proved to follow it.
//!
//! Requests to the host are recorded, with their replies, in the
//! environment's trace; each evaluator function states that its result and
//! the environment afterwards are those of the semantics run on the
//! exchanges it made, whatever exchanges follow them.
//!
//! Every evaluation is given a depth budget: each nested evaluation of a
//! subexpression, argument or function body spends one unit, and an
//! evaluation that starts with none left fails with `DepthExceeded`.

use vstd::prelude::*;
use crate::ast::{Ast, LispAtom, LispCallable, LispLambda, Term, seq_view, lemma_list_view, names_view};
use crate::builtins::{BuiltinOp, builtin_accepts, is_pure_op, pure_result, result_view, apply_pure};
use crate::env::{Environment, lookup, bind_innermost, scope_map, extends, added, lemma_added_concat};
use crate::error::{Fault, LispError};
use crate::host::{Host, HostEvent, opt_text};
use crate::parser::{parse_expr_at, parse_expr_spec, parse_program, parse_program_spec};
use crate::text::chars_of;
use crate::special_forms::{SpecialForm, special_form, special_form_of, lisp_if, define, lambda, quote};

verus! {

/// A stack of scopes, outermost first.
pub type Scopes = Seq<Map<Seq<char>, Term>>;

/// The depth budget of [`eval_expr`]: the largest there is, so that in
/// practice only the call stack bounds how deeply evaluation nests.
pub const MAX_DEPTH: u64 = 18446744073709551615;

/// The scope that binds each parameter to the argument at the same position;
/// a later parameter of the same name wins.
pub open spec fn param_scope(params: Seq<Seq<char>>, args: Seq<Term>) -> Map<Seq<char>, Term>
    decreases params.len(),
{
    if params.len() == 0 {
        Map::empty()
    } else {
        param_scope(params.drop_last(), args).insert(params.last(), args[params.len() - 1])
    }
}

/// Whether every element is a symbol.
pub open spec fn all_symbols(items: Seq<Term>) -> bool {
    forall|i: int| 0 <= i < items.len() ==> #[trigger] items[i] is Symbol
}

/// The names of a sequence of symbols.
pub open spec fn symbol_names(items: Seq<Term>) -> Seq<Seq<char>> {
    Seq::new(items.len(), |i: int| items[i]->Symbol_0)
}

/// Whether a value counts as true: everything but the boolean `false`.
pub open spec fn truthy(t: Term) -> bool {
    t != Term::Bool(false)
}

/// The exchanges with the host that an evaluation is given, oldest first.
pub type Io = Seq<HostEvent>;

/// An outcome of evaluation: the result, the environment afterwards and the
/// exchanges with the host not yet used; `None` where the given exchanges do
/// not answer the requests the evaluation makes.
pub type Outcome = Option<(Result<Term, Fault>, Scopes, Io)>;

/// The result of evaluating `e` in `env` with depth budget `d`, where `io`
/// holds the host's replies in the order the requests are made.
pub open spec fn eval_term(e: Term, env: Scopes, d: nat, io: Io) -> Outcome
    decreases d, 0nat, 0nat,
{
    if d == 0 {
        Some((Err(Fault::DepthExceeded), env, io))
    } else {
        let d1 = (d - 1) as nat;
        match e {
            Term::List(items) => {
                if items.len() > 0 && items[0] is Symbol && special_form(items[0]->Symbol_0) is Some {
                    eval_special(special_form(items[0]->Symbol_0)->Some_0, items.drop_first(), env, d1, io)
                } else {
                    eval_application(items, env, d1, io)
                }
            },
            Term::Symbol(name) => Some(
                (
                    match lookup(env, name) {
                        Some(v) => Ok(v),
                        None => Err(Fault::Undefined(name)),
                    },
                    env,
                    io,
                ),
            ),
            _ => Some((Ok(e), env, io)),
        }
    }
}

/// Evaluates each element from left to right, threading the environment and
/// the host's replies; the first error stops it.
pub open spec fn eval_seq(items: Seq<Term>, env: Scopes, d: nat, io: Io) -> Option<(Result<Seq<Term>, Fault>, Scopes, Io)>
    decreases d, 1nat, items.len(),
{
    if items.len() == 0 {
        Some((Ok(Seq::empty()), env, io))
    } else {
        match eval_term(items[0], env, d, io) {
            None => None,
            Some((Err(e), env1, io1)) => Some((Err(e), env1, io1)),
            Some((Ok(v), env1, io1)) => match eval_seq(items.drop_first(), env1, d, io1) {
                None => None,
                Some((Err(e), env2, io2)) => Some((Err(e), env2, io2)),
                Some((Ok(vs), env2, io2)) => Some((Ok(seq![v] + vs), env2, io2)),
            },
        }
    }
}

/// `(quote x)` is `x`, unevaluated.
pub open spec fn quote_result(args: Seq<Term>) -> Result<Term, Fault> {
    if args.len() != 1 {
        Err(Fault::TypeError)
    } else {
        Ok(args[0])
    }
}

/// `(lambda (x y ...) body)` is a closure over those parameter names and the
/// unevaluated body.
pub open spec fn lambda_result(args: Seq<Term>) -> Result<Term, Fault> {
    if args.len() == 0 || !(args[0] is List) || !all_symbols(args[0]->List_0) {
        Err(Fault::TypeError)
    } else if args.len() < 2 {
        Err(Fault::BadArity)
    } else {
        Ok(Term::Lambda(symbol_names(args[0]->List_0), Box::new(args[1])))
    }
}

/// The special forms, given the elements after the form's name.
pub open spec fn eval_special(form: SpecialForm, args: Seq<Term>, env: Scopes, d: nat, io: Io) -> Outcome
    decreases d, 2nat, 0nat,
{
    match form {
        SpecialForm::Quote => Some((quote_result(args), env, io)),
        SpecialForm::If => if args.len() == 0 {
            Some((Err(Fault::BadArity), env, io))
        } else {
            match eval_term(args[0], env, d, io) {
                None => None,
                Some((Err(e), env1, io1)) => Some((Err(e), env1, io1)),
                Some((Ok(c), env1, io1)) => if truthy(c) {
                    if args.len() < 2 {
                        Some((Err(Fault::BadArity), env1, io1))
                    } else {
                        eval_term(args[1], env1, d, io1)
                    }
                } else {
                    if args.len() < 3 {
                        Some((Err(Fault::BadArity), env1, io1))
                    } else {
                        eval_term(args[2], env1, d, io1)
                    }
                },
            }
        },
        SpecialForm::Define => if args.len() == 0 || !(args[0] is Symbol) {
            Some((Err(Fault::TypeError), env, io))
        } else if args.len() < 2 {
            Some((Err(Fault::BadArity), env, io))
        } else {
            match eval_term(args[1], env, d, io) {
                None => None,
                Some((Err(e), env1, io1)) => Some((Err(e), env1, io1)),
                Some((Ok(v), env1, io1)) => Some((Ok(Term::Unspecified), bind_innermost(env1, args[0]->Symbol_0, v), io1)),
            }
        },
        SpecialForm::Lambda => Some((lambda_result(args), env, io)),
    }
}

/// Whether a builtin that talks to the host was given an argument of the
/// wrong type: a string to print or a path to load, an integer exit status.
pub open spec fn host_arg_error(op: BuiltinOp, args: Seq<Term>) -> bool {
    match op {
        BuiltinOp::PutStr | BuiltinOp::Use => !(args[0] is Str),
        BuiltinOp::Exit => args.len() == 1 && !(args[0] is Int),
        _ => false,
    }
}

/// The status `exit` asks for: its argument, or zero without one.
pub open spec fn exit_code(args: Seq<Term>) -> int {
    if args.len() == 0 {
        0
    } else {
        args[0]->Int_0
    }
}

/// The builtins that talk to the host, on well-typed arguments: each makes
/// one request, answered by the first exchange of `io`.
/// - `putstr` writes its string; its value is `Unspecified`.
/// - `readline` is the line read, or an I/O error.
/// - `exit` asks to end with its status; if the host returns, its value is `Unspecified`.
/// - `use` reads the file at its path (an I/O error if it cannot be read) and
///   evaluates the expressions of its text, see [`load_spec`].
pub open spec fn host_builtin(op: BuiltinOp, args: Seq<Term>, env: Scopes, d: nat, io: Io) -> Outcome
    decreases d, 3nat, 0nat,
{
    if io.len() == 0 {
        None
    } else {
        let rest = io.drop_first();
        match op {
            BuiltinOp::PutStr => if io[0] == HostEvent::Print(args[0]->Str_0) {
                Some((Ok(Term::Unspecified), env, rest))
            } else {
                None
            },
            BuiltinOp::ReadLine => match io[0] {
                HostEvent::ReadLine(Some(line)) => Some((Ok(Term::Str(line)), env, rest)),
                HostEvent::ReadLine(None) => Some((Err(Fault::IOError), env, rest)),
                _ => None,
            },
            BuiltinOp::Exit => if io[0] == HostEvent::Exit(exit_code(args)) {
                Some((Ok(Term::Unspecified), env, rest))
            } else {
                None
            },
            _ => match io[0] {
                HostEvent::ReadFile(path, reply) => if path != args[0]->Str_0 {
                    None
                } else {
                    match reply {
                        None => Some((Err(Fault::IOError), env, rest)),
                        Some(text) => load_spec(text, 0, Term::List(Seq::empty()), env, d, rest),
                    }
                },
                _ => None,
            },
        }
    }
}

/// Evaluates the expressions of `text` from position `pos` on, one after
/// another, as far as they can be read; the value is that of the last one
/// (`last` if there is none).
pub open spec fn load_spec(text: Seq<char>, pos: int, last: Term, env: Scopes, d: nat, io: Io) -> Outcome
    decreases d, 2nat, text.len() - pos,
{
    match parse_expr_spec(text, pos) {
        None => Some((Ok(last), env, io)),
        Some((t, e)) => if 0 <= pos < e <= text.len() {
            match eval_term(t, env, d, io) {
                None => None,
                Some((Err(x), env1, io1)) => Some((Err(x), env1, io1)),
                Some((Ok(v), env1, io1)) => load_spec(text, e, v, env1, d, io1),
            }
        } else {
            None
        },
    }
}

/// Applies a value to already evaluated arguments: the arity contract is
/// checked before anything else happens.
pub open spec fn apply_term(f: Term, args: Seq<Term>, env: Scopes, d: nat, io: Io) -> Outcome
    decreases d, 4nat, 0nat,
{
    match f {
        Term::Builtin(op) => if !builtin_accepts(op, args.len()) {
            Some((Err(Fault::BadArity), env, io))
        } else if is_pure_op(op) {
            Some((pure_result(op, args), env, io))
        } else if op is Eval {
            eval_term(args[0], env, d, io)
        } else if host_arg_error(op, args) {
            Some((Err(Fault::TypeError), env, io))
        } else {
            host_builtin(op, args, env, d, io)
        },
        Term::Lambda(params, body) => if args.len() != params.len() {
            Some((Err(Fault::BadArity), env, io))
        } else {
            match eval_term(*body, env.push(param_scope(params, args)), d, io) {
                None => None,
                Some((r, env1, io1)) => Some((r, env1.drop_last(), io1)),
            }
        },
        _ => Some((Err(Fault::TypeError), env, io)),
    }
}

/// A list whose head is not a special form: the head and then the arguments
/// are evaluated from left to right, and the head's value is applied.
pub open spec fn eval_application(items: Seq<Term>, env: Scopes, d: nat, io: Io) -> Outcome
    decreases d, 5nat, 0nat,
{
    if items.len() == 0 {
        Some((Err(Fault::TypeError), env, io))
    } else {
        match eval_term(items[0], env, d, io) {
            None => None,
            Some((Err(e), env1, io1)) => Some((Err(e), env1, io1)),
            Some((Ok(f), env1, io1)) => match eval_seq(items.drop_first(), env1, d, io1) {
                None => None,
                Some((Err(e), env2, io2)) => Some((Err(e), env2, io2)),
                Some((Ok(args), env2, io2)) => apply_term(f, args, env2, d, io2),
            },
        }
    }
}

/// An evaluation leaves the number of scopes and every scope but the
/// innermost as they were.
pub open spec fn frames_kept(before: Scopes, after: Scopes) -> bool {
    after.len() == before.len() && after.drop_last() == before.drop_last()
}

/// The exchanges with the host made between two states of an environment.
pub open spec fn exchanges(before: Environment, after: Environment) -> Io {
    added(before.trace(), after.trace())
}

/// A step of evaluation from `before` to `after`: outer scopes kept, and
/// exchanges with the host only appended.
pub open spec fn stepped(before: Environment, after: Environment) -> bool {
    frames_kept(before@, after@) && extends(before.trace(), after.trace())
}

/// The model of a result.
pub open spec fn seq_result_view(r: Result<Vec<Ast>, LispError>) -> Result<Seq<Term>, Fault> {
    match r {
        Ok(vs) => Ok(seq_view(vs@)),
        Err(e) => Err(e@),
    }
}

/// Evaluating `e` with the exchanges `events` gives `r` and `env1`, whatever
/// replies follow them.
pub open spec fn term_runs(e: Term, env: Scopes, d: nat, events: Io, r: Result<Term, Fault>, env1: Scopes) -> bool {
    forall|rest: Io| #[trigger] eval_term(e, env, d, events + rest) == Some((r, env1, rest))
}

pub open spec fn seq_runs(items: Seq<Term>, env: Scopes, d: nat, events: Io, r: Result<Seq<Term>, Fault>, env1: Scopes) -> bool {
    forall|rest: Io| #[trigger] eval_seq(items, env, d, events + rest) == Some((r, env1, rest))
}

pub open spec fn special_runs(form: SpecialForm, args: Seq<Term>, env: Scopes, d: nat, events: Io, r: Result<Term, Fault>, env1: Scopes) -> bool {
    forall|rest: Io| #[trigger] eval_special(form, args, env, d, events + rest) == Some((r, env1, rest))
}

pub open spec fn apply_runs(f: Term, args: Seq<Term>, env: Scopes, d: nat, events: Io, r: Result<Term, Fault>, env1: Scopes) -> bool {
    forall|rest: Io| #[trigger] apply_term(f, args, env, d, events + rest) == Some((r, env1, rest))
}

pub open spec fn application_runs(items: Seq<Term>, env: Scopes, d: nat, events: Io, r: Result<Term, Fault>, env1: Scopes) -> bool {
    forall|rest: Io| #[trigger] eval_application(items, env, d, events + rest) == Some((r, env1, rest))
}

pub open spec fn load_runs(text: Seq<char>, pos: int, last: Term, env: Scopes, d: nat, events: Io, r: Result<Term, Fault>, env1: Scopes) -> bool {
    forall|rest: Io| #[trigger] load_spec(text, pos, last, env, d, events + rest) == Some((r, env1, rest))
}

pub proof fn lemma_no_events(t: Io)
    ensures
        added(t, t) == Seq::<HostEvent>::empty(),
        extends(t, t),
        forall|rest: Io| #[trigger] (Seq::<HostEvent>::empty() + rest) == rest,
{
    assert(added(t, t) =~= Seq::<HostEvent>::empty());
    assert(t.subrange(0, t.len() as int) =~= t);
    assert forall|rest: Io| #[trigger] (Seq::<HostEvent>::empty() + rest) == rest by {
        assert(Seq::<HostEvent>::empty() + rest =~= rest);
    }
}

proof fn lemma_one_event(t: Io, x: HostEvent)
    ensures
        added(t, t.push(x)) == seq![x],
        extends(t, t.push(x)),
        forall|rest: Io| #[trigger] (seq![x] + rest).drop_first() == rest && (seq![x] + rest)[0] == x && (seq![x] + rest).len() > 0,
{
    assert(added(t, t.push(x)) =~= seq![x]);
    assert(t.push(x).subrange(0, t.len() as int) =~= t);
    assert forall|rest: Io| #[trigger] (seq![x] + rest).drop_first() == rest && (seq![x] + rest)[0] == x && (seq![x] + rest).len() > 0 by {
        assert((seq![x] + rest).drop_first() =~= rest);
    }
}

/// Evaluate a lisp expression with the budget [`MAX_DEPTH`].
pub fn eval_expr<H: Host>(input: Ast, env: &mut Environment, host: &mut H) -> (r: Result<Ast, LispError>)
    requires
        old(env)@.len() >= 1,
    ensures
        stepped(*old(env), *final(env)),
        term_runs(input@, old(env)@, MAX_DEPTH as nat, exchanges(*old(env), *final(env)), result_view(r), final(env)@),
{
    eval_expr_depth(input, env, host, MAX_DEPTH)
}

/// Evaluate a lisp expression with the given depth budget.
pub fn eval_expr_depth<H: Host>(input: Ast, env: &mut Environment, host: &mut H, depth: u64) -> (r: Result<Ast, LispError>)
    requires
        old(env)@.len() >= 1,
    ensures
        stepped(*old(env), *final(env)),
        term_runs(input@, old(env)@, depth as nat, exchanges(*old(env), *final(env)), result_view(r), final(env)@),
    decreases depth, 0nat, 0nat,
{
    let ghost e0 = *env;
    let ghost iv = input@;
    proof {
        lemma_no_events(env.trace());
    }
    if depth == 0 {
        proof {
            assert forall|rest: Io| #[trigger] eval_term(iv, e0@, depth as nat, exchanges(e0, e0) + rest)
                == Some((Err::<Term, Fault>(Fault::DepthExceeded), e0@, rest)) by {
                assert(exchanges(e0, e0) + rest =~= rest);
            }
        }
        return Err(LispError::DepthExceeded);
    }
    let d = depth - 1;
    match input {
        Ast::List(list) => {
            proof {
                lemma_list_view(list);
            }
            let form = if list.len() > 0 {
                match &list[0] {
                    Ast::Atom(LispAtom::Symbol(s)) => special_form_of(s),
                    _ => None,
                }
            } else {
                None
            };
            match form {
                Some(form) => {
                    let ghost items = seq_view(list@);
                    let mut args = list;
                    args.remove(0);
                    assert(seq_view(args@) =~= items.drop_first());
                    let ghost av = seq_view(args@);
                    let r = match form {
                        SpecialForm::If => lisp_if(args, env, host, d),
                        SpecialForm::Define => define(args, env, host, d),
                        SpecialForm::Lambda => lambda(args, env),
                        SpecialForm::Quote => quote(args, env),
                    };
                    proof {
                        assert forall|rest: Io| #[trigger] eval_term(iv, e0@, depth as nat, exchanges(e0, *env) + rest)
                            == Some((result_view(r), env@, rest)) by {
                            assert(eval_special(form, av, e0@, d as nat, exchanges(e0, *env) + rest) == Some((result_view(r), env@, rest)));
                        }
                    }
                    r
                },
                None => {
                    let ghost items = seq_view(list@);
                    let r = eval_list(list, env, host, d);
                    proof {
                        assert forall|rest: Io| #[trigger] eval_term(iv, e0@, depth as nat, exchanges(e0, *env) + rest)
                            == Some((result_view(r), env@, rest)) by {
                            assert(eval_application(items, e0@, d as nat, exchanges(e0, *env) + rest) == Some((result_view(r), env@, rest)));
                        }
                    }
                    r
                },
            }
        },
        Ast::Atom(LispAtom::Symbol(symbol)) => {
            let r = eval_symbol(symbol, env);
            proof {
                assert forall|rest: Io| #[trigger] eval_term(iv, e0@, depth as nat, exchanges(e0, e0) + rest)
                    == Some((result_view(r), e0@, rest)) by {
                    assert(exchanges(e0, e0) + rest =~= rest);
                }
            }
            r
        },
        _ => {
            proof {
                assert forall|rest: Io| #[trigger] eval_term(iv, e0@, depth as nat, exchanges(e0, e0) + rest)
                    == Some((Ok::<Term, Fault>(iv), e0@, rest)) by {
                    assert(exchanges(e0, e0) + rest =~= rest);
                }
            }
            Ok(input)
        },
    }
}

fn eval_symbol(symbol: String, env: &Environment) -> (r: Result<Ast, LispError>)
    ensures
        result_view(r) == match lookup(env@, symbol@) {
            Some(v) => Ok(v),
            None => Err(Fault::Undefined(symbol@)),
        },
{
    match env.get(symbol.as_str()) {
        Some(v) => Ok(v),
        None => Err(LispError::Undefined(symbol)),
    }
}

fn eval_list<H: Host>(list: Vec<Ast>, env: &mut Environment, host: &mut H, depth: u64) -> (r: Result<Ast, LispError>)
    requires
        old(env)@.len() >= 1,
    ensures
        stepped(*old(env), *final(env)),
        application_runs(seq_view(list@), old(env)@, depth as nat, exchanges(*old(env), *final(env)), result_view(r), final(env)@),
    decreases depth, 5nat, 0nat,
{
    let ghost items = seq_view(list@);
    let ghost e0 = *env;
    proof {
        lemma_no_events(env.trace());
    }
    if list.len() == 0 {
        return Err(LispError::TypeError);
    }
    let mut rest = list;
    let head = rest.remove(0);
    assert(seq_view(rest@) =~= items.drop_first());
    assert(head@ == items[0]);
    let func = eval_expr_depth(head, env, host, depth);
    let ghost e1 = *env;
    let func = match func {
        Ok(f) => f,
        Err(e) => {
            proof {
                assert forall|r1: Io| #[trigger] eval_application(items, e0@, depth as nat, exchanges(e0, e1) + r1)
                    == Some((Err::<Term, Fault>(e@), e1@, r1)) by {
                    assert(eval_term(items[0], e0@, depth as nat, exchanges(e0, e1) + r1) == Some((Err::<Term, Fault>(e@), e1@, r1)));
                }
            }
            return Err(e);
        },
    };
    let args = eval_items(rest, env, host, depth);
    let ghost e2 = *env;
    proof {
        lemma_added_concat(e0.trace(), e1.trace(), e2.trace());
    }
    let args = match args {
        Ok(args) => args,
        Err(e) => {
            proof {
                assert forall|r2: Io| #[trigger] eval_application(items, e0@, depth as nat, exchanges(e0, e2) + r2)
                    == Some((Err::<Term, Fault>(e@), e2@, r2)) by {
                    assert(exchanges(e0, e2) + r2 =~= exchanges(e0, e1) + (exchanges(e1, e2) + r2));
                    assert(eval_term(items[0], e0@, depth as nat, exchanges(e0, e1) + (exchanges(e1, e2) + r2))
                        == Some((Ok::<Term, Fault>(func@), e1@, exchanges(e1, e2) + r2)));
                    assert(eval_seq(items.drop_first(), e1@, depth as nat, exchanges(e1, e2) + r2)
                        == Some((Err::<Seq<Term>, Fault>(e@), e2@, r2)));
                }
            }
            return Err(e);
        },
    };
    let ghost av = seq_view(args@);
    let r = call_function(func, args, env, host, depth);
    let ghost e3 = *env;
    proof {
        lemma_added_concat(e0.trace(), e2.trace(), e3.trace());
        assert forall|r3: Io| #[trigger] eval_application(items, e0@, depth as nat, exchanges(e0, e3) + r3)
            == Some((result_view(r), e3@, r3)) by {
            let tail = exchanges(e1, e2) + (exchanges(e2, e3) + r3);
            assert(exchanges(e0, e3) + r3 =~= exchanges(e0, e1) + tail);
            assert(eval_term(items[0], e0@, depth as nat, exchanges(e0, e1) + tail)
                == Some((Ok::<Term, Fault>(func@), e1@, tail)));
            assert(eval_seq(items.drop_first(), e1@, depth as nat, exchanges(e1, e2) + (exchanges(e2, e3) + r3))
                == Some((Ok::<Seq<Term>, Fault>(av), e2@, exchanges(e2, e3) + r3)));
            assert(apply_term(func@, av, e2@, depth as nat, exchanges(e2, e3) + r3) == Some((result_view(r), e3@, r3)));
        }
    }
    r
}

/// Evaluates the expressions from left to right; the first error stops it.
fn eval_items<H: Host>(items: Vec<Ast>, env: &mut Environment, host: &mut H, depth: u64) -> (r: Result<Vec<Ast>, LispError>)
    requires
        old(env)@.len() >= 1,
    ensures
        stepped(*old(env), *final(env)),
        seq_runs(seq_view(items@), old(env)@, depth as nat, exchanges(*old(env), *final(env)), seq_result_view(r), final(env)@),
    decreases depth, 1nat, items@.len(),
{
    let ghost terms = seq_view(items@);
    let ghost e0 = *env;
    proof {
        lemma_no_events(env.trace());
    }
    if items.len() == 0 {
        let empty: Vec<Ast> = Vec::new();
        assert(seq_view(empty@) =~= Seq::<Term>::empty());
        return Ok(empty);
    }
    let mut rest = items;
    let first = rest.remove(0);
    assert(seq_view(rest@) =~= terms.drop_first());
    assert(first@ == terms[0]);
    let v = eval_expr_depth(first, env, host, depth);
    let ghost e1 = *env;
    let v = match v {
        Ok(v) => v,
        Err(e) => {
            proof {
                assert forall|r1: Io| #[trigger] eval_seq(terms, e0@, depth as nat, exchanges(e0, e1) + r1)
                    == Some((Err::<Seq<Term>, Fault>(e@), e1@, r1)) by {
                    assert(eval_term(terms[0], e0@, depth as nat, exchanges(e0, e1) + r1) == Some((Err::<Term, Fault>(e@), e1@, r1)));
                }
            }
            return Err(e);
        },
    };
    let vs = eval_items(rest, env, host, depth);
    let ghost e2 = *env;
    proof {
        lemma_added_concat(e0.trace(), e1.trace(), e2.trace());
        assert forall|r2: Io| #[trigger] eval_seq(terms, e0@, depth as nat, exchanges(e0, e2) + r2)
            == Some((match seq_result_view(vs) {
                Ok(xs) => Ok(seq![v@] + xs),
                Err(x) => Err(x),
            }, e2@, r2)) by {
            assert(exchanges(e0, e2) + r2 =~= exchanges(e0, e1) + (exchanges(e1, e2) + r2));
            assert(eval_term(terms[0], e0@, depth as nat, exchanges(e0, e1) + (exchanges(e1, e2) + r2))
                == Some((Ok::<Term, Fault>(v@), e1@, exchanges(e1, e2) + r2)));
            assert(eval_seq(terms.drop_first(), e1@, depth as nat, exchanges(e1, e2) + r2) == Some((seq_result_view(vs), e2@, r2)));
        }
    }
    let mut vs = match vs {
        Ok(vs) => vs,
        Err(e) => return Err(e),
    };
    let ghost tail = vs@;
    vs.insert(0, v);
    assert(seq_view(vs@) =~= seq![v@] + seq_view(tail));
    Ok(vs)
}

/// Applies an evaluated head to evaluated arguments.
fn call_function<H: Host>(func: Ast, args: Vec<Ast>, env: &mut Environment, host: &mut H, depth: u64) -> (r: Result<Ast, LispError>)
    requires
        old(env)@.len() >= 1,
    ensures
        stepped(*old(env), *final(env)),
        apply_runs(func@, seq_view(args@), old(env)@, depth as nat, exchanges(*old(env), *final(env)), result_view(r), final(env)@),
    decreases depth, 4nat, 0nat,
{
    proof {
        lemma_no_events(env.trace());
    }
    match func {
        Ast::Function(f) => {
            if !f.arity(args.len()) {
                return Err(LispError::BadArity);
            }
            f.call(args, env, host, depth)
        },
        _ => Err(LispError::TypeError),
    }
}

/// Whether a callable value accepts `n` arguments.
pub open spec fn callable_accepts(f: Term, n: nat) -> bool {
    match f {
        Term::Builtin(op) => builtin_accepts(op, n),
        Term::Lambda(params, _) => n == params.len(),
        _ => false,
    }
}

impl LispCallable {
    /// Whether the callable accepts `num_args` arguments.
    pub fn arity(&self, num_args: usize) -> (r: bool)
        ensures
            r == callable_accepts(Ast::Function(*self)@, num_args as nat),
    {
        match self {
            LispCallable::Builtin(b) => b.op.accepts(num_args),
            LispCallable::Lambda(l) => l.arity() == num_args,
        }
    }

    /// Calls the callable on already evaluated arguments that its arity
    /// contract accepts.
    pub fn call<H: Host>(self, args: Vec<Ast>, env: &mut Environment, host: &mut H, depth: u64) -> (r: Result<Ast, LispError>)
        requires
            old(env)@.len() >= 1,
            callable_accepts(Ast::Function(self)@, args@.len() as nat),
        ensures
            stepped(*old(env), *final(env)),
            apply_runs(Ast::Function(self)@, seq_view(args@), old(env)@, depth as nat, exchanges(*old(env), *final(env)), result_view(r), final(env)@),
        decreases depth, 3nat, 0nat,
    {
        match self {
            LispCallable::Builtin(b) => call_builtin(b.op, args, env, host, depth),
            LispCallable::Lambda(l) => l.call(args, env, host, depth),
        }
    }
}

/// Runs a builtin on arguments its arity contract accepts.
fn call_builtin<H: Host>(op: BuiltinOp, args: Vec<Ast>, env: &mut Environment, host: &mut H, depth: u64) -> (r: Result<Ast, LispError>)
    requires
        old(env)@.len() >= 1,
        builtin_accepts(op, args@.len() as nat),
    ensures
        stepped(*old(env), *final(env)),
        apply_runs(Term::Builtin(op), seq_view(args@), old(env)@, depth as nat, exchanges(*old(env), *final(env)), result_view(r), final(env)@),
    decreases depth, 2nat, 0nat,
{
    let ghost e0 = *env;
    let ghost terms = seq_view(args@);
    proof {
        lemma_no_events(env.trace());
    }
    let mut args = args;
    match op {
        BuiltinOp::Eval => {
            let e = args.remove(0);
            assert(e@ == terms[0]);
            let r = eval_expr_depth(e, env, host, depth);
            proof {
                assert forall|rest: Io| #[trigger] apply_term(Term::Builtin(op), terms, e0@, depth as nat, exchanges(e0, *env) + rest)
                    == Some((result_view(r), env@, rest)) by {
                    assert(eval_term(terms[0], e0@, depth as nat, exchanges(e0, *env) + rest) == Some((result_view(r), env@, rest)));
                }
            }
            r
        },
        BuiltinOp::PutStr => match &args[0] {
            Ast::Atom(LispAtom::String(s)) => {
                env.host_put_line(host, s);
                proof {
                    lemma_one_event(e0.trace(), HostEvent::Print(s@));
                }
                Ok(Ast::Unspecified)
            },
            _ => Err(LispError::TypeError),
        },
        BuiltinOp::ReadLine => {
            let line = env.host_read_line(host);
            proof {
                lemma_one_event(e0.trace(), HostEvent::ReadLine(opt_text(line)));
            }
            match line {
                Some(line) => Ok(Ast::Atom(LispAtom::String(line))),
                None => Err(LispError::IOError),
            }
        },
        BuiltinOp::Exit => {
            let code = if args.len() == 0 {
                0
            } else {
                match &args[0] {
                    Ast::Atom(LispAtom::Int(n)) => *n,
                    _ => return Err(LispError::TypeError),
                }
            };
            assert(code as int == exit_code(terms));
            env.host_exit(host, code);
            proof {
                lemma_one_event(e0.trace(), HostEvent::Exit(code as int));
            }
            Ok(Ast::Unspecified)
        },
        BuiltinOp::Use => {
            let path = match &args[0] {
                Ast::Atom(LispAtom::String(p)) => p,
                _ => return Err(LispError::TypeError),
            };
            assert(terms[0] == Term::Str(path@));
            let reply = env.host_read_file(host, path);
            let ghost e1 = *env;
            let ghost x = HostEvent::ReadFile(path@, opt_text(reply));
            proof {
                lemma_one_event(e0.trace(), HostEvent::ReadFile(path@, opt_text(reply)));
            }
            match reply {
                Some(text) => {
                    let r = load_source(text, env, host, depth);
                    let ghost e2 = *env;
                    proof {
                        lemma_added_concat(e0.trace(), e1.trace(), e2.trace());
                        assert forall|r2: Io| #[trigger] apply_term(Term::Builtin(op), terms, e0@, depth as nat, exchanges(e0, e2) + r2)
                            == Some((result_view(r), e2@, r2)) by {
                            let io = exchanges(e0, e2) + r2;
                            assert(io =~= seq![x] + (exchanges(e1, e2) + r2));
                            assert(io[0] == x);
                            assert(io.drop_first() =~= exchanges(e1, e2) + r2);
                            assert(!host_arg_error(op, terms));
                            assert(load_spec(text@, 0, Term::List(Seq::empty()), e1@, depth as nat, exchanges(e1, e2) + r2)
                                == Some((result_view(r), e2@, r2)));
                            assert(host_builtin(op, terms, e0@, depth as nat, io) == Some((result_view(r), e2@, r2)));
                        }
                    }
                    r
                },
                None => {
                    proof {
                        assert forall|r2: Io| #[trigger] apply_term(Term::Builtin(op), terms, e0@, depth as nat, exchanges(e0, e1) + r2)
                            == Some((Err::<Term, Fault>(Fault::IOError), e1@, r2)) by {
                            let io = exchanges(e0, e1) + r2;
                            assert(io[0] == x);
                            assert(!host_arg_error(op, terms));
                        }
                    }
                    Err(LispError::IOError)
                },
            }
        },
        _ => apply_pure(op, args),
    }
}

/// Evaluates the expressions of a loaded text one after another, as far as
/// they can be read; the value is that of the last one, or an empty list.
fn load_source<H: Host>(text: String, env: &mut Environment, host: &mut H, depth: u64) -> (r: Result<Ast, LispError>)
    requires
        old(env)@.len() >= 1,
    ensures
        stepped(*old(env), *final(env)),
        load_runs(text@, 0, Term::List(Seq::empty()), old(env)@, depth as nat, exchanges(*old(env), *final(env)), result_view(r), final(env)@),
    decreases depth, 1nat, 0nat,
{
    let ghost e0 = *env;
    let cs = chars_of(text.as_str());
    let mut pos: usize = 0;
    let mut res = Ast::List(Vec::new());
    proof {
        lemma_no_events(env.trace());
        assert(res@ == Term::List(Seq::empty())) by {
            assert(res@->List_0 =~= Seq::<Term>::empty());
        }
    }
    loop
        invariant
            cs@ == text@,
            pos <= cs@.len(),
            env@.len() >= 1,
            stepped(e0, *env),
            e0 == *old(env),
            forall|r2: Io| #[trigger] load_spec(cs@, 0, Term::List(Seq::empty()), e0@, depth as nat, exchanges(e0, *env) + r2)
                == load_spec(cs@, pos as int, res@, env@, depth as nat, r2),
        decreases cs@.len() - pos,
    {
        let ghost e1 = *env;
        match parse_expr_at(&cs, pos) {
            Some((expr, e)) => {
                let ghost t = expr@;
                let ghost last = res@;
                let v = eval_expr_depth(expr, env, host, depth);
                let ghost e2 = *env;
                proof {
                    lemma_added_concat(e0.trace(), e1.trace(), e2.trace());
                }
                match v {
                    Ok(v) => {
                        proof {
                            assert forall|r2: Io| #[trigger] load_spec(cs@, 0, Term::List(Seq::empty()), e0@, depth as nat, exchanges(e0, e2) + r2)
                                == load_spec(cs@, e as int, v@, e2@, depth as nat, r2) by {
                                assert(exchanges(e0, e2) + r2 =~= exchanges(e0, e1) + (exchanges(e1, e2) + r2));
                                assert(eval_term(t, e1@, depth as nat, exchanges(e1, e2) + r2) == Some((Ok::<Term, Fault>(v@), e2@, r2)));
                                assert(load_spec(cs@, pos as int, last, e1@, depth as nat, exchanges(e1, e2) + r2)
                                    == load_spec(cs@, e as int, v@, e2@, depth as nat, r2));
                            }
                        }
                        res = v;
                        pos = e;
                    },
                    Err(err) => {
                        proof {
                            assert forall|r2: Io| #[trigger] load_spec(cs@, 0, Term::List(Seq::empty()), e0@, depth as nat, exchanges(e0, e2) + r2)
                                == Some((Err::<Term, Fault>(err@), e2@, r2)) by {
                                assert(exchanges(e0, e2) + r2 =~= exchanges(e0, e1) + (exchanges(e1, e2) + r2));
                                assert(eval_term(t, e1@, depth as nat, exchanges(e1, e2) + r2) == Some((Err::<Term, Fault>(err@), e2@, r2)));
                                assert(load_spec(cs@, pos as int, last, e1@, depth as nat, exchanges(e1, e2) + r2)
                                    == Some((Err::<Term, Fault>(err@), e2@, r2)));
                            }
                        }
                        return Err(err);
                    },
                }
            },
            None => {
                proof {
                    assert forall|r2: Io| #[trigger] load_spec(cs@, 0, Term::List(Seq::empty()), e0@, depth as nat, exchanges(e0, *env) + r2)
                        == Some((Ok::<Term, Fault>(res@), env@, r2)) by {
                        assert(load_spec(cs@, pos as int, res@, env@, depth as nat, r2) == Some((Ok::<Term, Fault>(res@), env@, r2)));
                    }
                }
                return Ok(res);
            },
        }
    }
}

/// The expressions of a program evaluated one after another, threading the
/// environment and the host's replies; the first error stops it, and
/// otherwise the value is `Unspecified`.
pub open spec fn eval_all(ts: Seq<Term>, env: Scopes, d: nat, io: Io) -> Outcome
    decreases ts.len(),
{
    if ts.len() == 0 {
        Some((Ok(Term::Unspecified), env, io))
    } else {
        match eval_term(ts[0], env, d, io) {
            None => None,
            Some((Err(e), env1, io1)) => Some((Err(e), env1, io1)),
            Some((Ok(_), env1, io1)) => eval_all(ts.drop_first(), env1, d, io1),
        }
    }
}

/// Parses a whole program text and evaluates its expressions in order with
/// the budget [`MAX_DEPTH`]; the first error stops it. Nothing is evaluated
/// if the text cannot be parsed.
pub fn execute_program<H: Host>(input: &str, env: &mut Environment, host: &mut H) -> (r: Result<Ast, LispError>)
    requires
        old(env)@.len() >= 1,
    ensures
        stepped(*old(env), *final(env)),
        match parse_program_spec(input@, 0) {
            Err(rest) => r is Err && r->Err_0@ == Fault::ParseError(rest) && *final(env) == *old(env),
            Ok(ts) => forall|rest: Io| #[trigger] eval_all(ts, old(env)@, MAX_DEPTH as nat, exchanges(*old(env), *final(env)) + rest)
                == Some((result_view(r), final(env)@, rest)),
        },
{
    let ghost e0 = *env;
    proof {
        lemma_no_events(env.trace());
    }
    let mut exprs = match parse_program(input) {
        Ok(exprs) => exprs,
        Err(e) => return Err(e),
    };
    let ghost ts = seq_view(exprs@);
    proof {
        assert forall|r2: Io| #[trigger] eval_all(ts, e0@, MAX_DEPTH as nat, exchanges(e0, *env) + r2)
            == eval_all(seq_view(exprs@), env@, MAX_DEPTH as nat, r2) by {
            assert(exchanges(e0, *env) + r2 =~= r2);
        }
    }
    while exprs.len() > 0
        invariant
            env@.len() >= 1,
            stepped(e0, *env),
            e0 == *old(env),
            parse_program_spec(input@, 0) == Ok::<Seq<Term>, Seq<char>>(ts),
            forall|r2: Io| #[trigger] eval_all(ts, e0@, MAX_DEPTH as nat, exchanges(e0, *env) + r2)
                == eval_all(seq_view(exprs@), env@, MAX_DEPTH as nat, r2),
        decreases exprs@.len(),
    {
        let ghost e1 = *env;
        let ghost rem = seq_view(exprs@);
        let expr = exprs.remove(0);
        assert(expr@ == rem[0]);
        assert(seq_view(exprs@) =~= rem.drop_first());
        let v = eval_expr(expr, env, host);
        let ghost e2 = *env;
        proof {
            lemma_added_concat(e0.trace(), e1.trace(), e2.trace());
        }
        match v {
            Ok(_) => {
                proof {
                    assert forall|r2: Io| #[trigger] eval_all(ts, e0@, MAX_DEPTH as nat, exchanges(e0, e2) + r2)
                        == eval_all(seq_view(exprs@), e2@, MAX_DEPTH as nat, r2) by {
                        assert(exchanges(e0, e2) + r2 =~= exchanges(e0, e1) + (exchanges(e1, e2) + r2));
                        assert(eval_term(rem[0], e1@, MAX_DEPTH as nat, exchanges(e1, e2) + r2) == Some((result_view(v), e2@, r2)));
                    }
                }
            },
            Err(err) => {
                proof {
                    assert forall|r2: Io| #[trigger] eval_all(ts, e0@, MAX_DEPTH as nat, exchanges(e0, e2) + r2)
                        == Some((Err::<Term, Fault>(err@), e2@, r2)) by {
                        assert(exchanges(e0, e2) + r2 =~= exchanges(e0, e1) + (exchanges(e1, e2) + r2));
                        assert(eval_term(rem[0], e1@, MAX_DEPTH as nat, exchanges(e1, e2) + r2) == Some((Err::<Term, Fault>(err@), e2@, r2)));
                    }
                }
                return Err(err);
            },
        }
    }
    proof {
        assert forall|r2: Io| #[trigger] eval_all(ts, e0@, MAX_DEPTH as nat, exchanges(e0, *env) + r2)
            == Some((Ok::<Term, Fault>(Term::Unspecified), env@, r2)) by {
            assert(seq_view(exprs@).len() == 0);
        }
    }
    Ok(Ast::Unspecified)
}

/// The entries of a closure's scope: each parameter with its argument.
fn zip_bindings(names: Vec<String>, args: Vec<Ast>) -> (r: Vec<(String, Ast)>)
    requires
        names@.len() == args@.len(),
    ensures
        scope_map(r@) == param_scope(names_view(names@), seq_view(args@)),
{
    let ghost ns = names_view(names@);
    let ghost avs = seq_view(args@);
    let ghost n = names@.len() as int;
    let mut names = names;
    let mut args = args;
    let mut out: Vec<(String, Ast)> = Vec::new();
    while names.len() > 0
        invariant
            names@.len() == args@.len(),
            out@.len() + names@.len() == n,
            ns.len() == n,
            avs.len() == n,
            forall|j: int| 0 <= j < out@.len() ==> #[trigger] out@[j].0@ == ns[j] && out@[j].1@ == avs[j],
            names_view(names@) == ns.subrange(out@.len() as int, n),
            seq_view(args@) == avs.subrange(out@.len() as int, n),
        decreases names@.len(),
    {
        let ghost k = out@.len() as int;
        assert(names_view(names@)[0] == ns[k]);
        assert(seq_view(args@)[0] == avs[k]);
        let ghost before_names = names_view(names@);
        let ghost before_args = seq_view(args@);
        let name = names.remove(0);
        let arg = args.remove(0);
        assert(names_view(names@) =~= before_names.drop_first());
        assert(seq_view(args@) =~= before_args.drop_first());
        assert(before_names.drop_first() =~= ns.subrange(k + 1, n));
        assert(before_args.drop_first() =~= avs.subrange(k + 1, n));
        out.push((name, arg));
    }
    proof {
        lemma_zip_scope(out@, ns, avs);
    }
    out
}

proof fn lemma_zip_scope(entries: Seq<(String, Ast)>, ns: Seq<Seq<char>>, avs: Seq<Term>)
    requires
        entries.len() == ns.len(),
        ns.len() <= avs.len(),
        forall|j: int| 0 <= j < entries.len() ==> #[trigger] entries[j].0@ == ns[j] && entries[j].1@ == avs[j],
    ensures
        scope_map(entries) == param_scope(ns, avs),
    decreases entries.len(),
{
    if entries.len() > 0 {
        let d = entries.drop_last();
        assert forall|j: int| 0 <= j < d.len() implies #[trigger] d[j].0@ == ns.drop_last()[j] && d[j].1@ == avs[j] by {
            assert(entries[j].0@ == ns[j]);
        }
        lemma_zip_scope(d, ns.drop_last(), avs);
        assert(entries[entries.len() - 1].0@ == ns[ns.len() - 1]);
    }
}

impl LispLambda {
    /// Calls the closure: binds its parameters to the arguments in a new
    /// innermost scope, evaluates the body there, and removes that scope again,
    /// whether the body succeeded or failed.
    pub fn call<H: Host>(self, args: Vec<Ast>, env: &mut Environment, host: &mut H, depth: u64) -> (r: Result<Ast, LispError>)
        requires
            old(env)@.len() >= 1,
            args@.len() == self.bindings@.len(),
        ensures
            final(env)@ == old(env)@,
            extends(old(env).trace(), final(env).trace()),
            apply_runs(
                Term::Lambda(names_view(self.bindings@), Box::new(self.body@)),
                seq_view(args@),
                old(env)@,
                depth as nat,
                exchanges(*old(env), *final(env)),
                result_view(r),
                final(env)@,
            ),
        decreases depth, 2nat, 0nat,
    {
        let ghost params = names_view(self.bindings@);
        let ghost avs = seq_view(args@);
        let ghost body = self.body@;
        let ghost e0 = *env;
        let entries = zip_bindings(self.bindings, args);
        env.new_scope(entries);
        let ghost e1 = *env;
        let res = eval_expr_depth(*self.body, env, host, depth);
        let ghost e2 = *env;
        env.pop_scope();
        assert(final(env)@ =~= old(env)@);
        proof {
            assert(exchanges(e0, *env) == exchanges(e1, e2));
            assert(e1@ == e0@.push(param_scope(params, avs)));
            assert forall|rest: Io| #[trigger] apply_term(Term::Lambda(params, Box::new(body)), avs, e0@, depth as nat, exchanges(e0, *env) + rest)
                == Some((result_view(res), env@, rest)) by {
                assert(eval_term(body, e1@, depth as nat, exchanges(e1, e2) + rest) == Some((result_view(res), e2@, rest)));
                assert(e2@.drop_last() =~= env@);
            }
        }
        res
    }
}

} // verus!
