use callisp::ast::{Ast, LispAtom, LispType};
use callisp::builtins::{at_least_one, at_least_two, at_least_zero, exactly_one, exactly_zero, one_or_zero, BuiltinOp};
use callisp::env::Environment;
use callisp::error::LispError;
use callisp::eval::{eval_expr, eval_expr_depth, execute_program};
use callisp::host::ScriptHost;
use callisp::parse_eval_print;
use callisp::parser::parse_expr;

fn run(src: &str, env: &mut Environment, host: &mut ScriptHost) -> Result<Ast, LispError> {
    let (_, expr) = parse_expr(src)?;
    eval_expr(expr, env, host)
}

fn eval_fresh(src: &str) -> Result<Ast, LispError> {
    let mut env = Environment::outer_new();
    let mut host = ScriptHost::new(vec![]);
    run(src, &mut env, &mut host)
}

fn sym(s: &str) -> Ast {
    Ast::Atom(LispAtom::Symbol(s.to_string()))
}

fn int_val(n: i64) -> Ast {
    Ast::Atom(LispAtom::Int(n))
}

fn boolean(b: bool) -> Ast {
    Ast::Atom(LispAtom::Bool(b))
}

#[test]
fn quote_returns_its_argument_unevaluated() {
    let r = eval_fresh("(quote (undefined-thing 1 x))").unwrap();
    assert_eq!(r, Ast::List(vec![sym("undefined-thing"), int_val(1), sym("x")]));
    assert_eq!(eval_fresh("(quote nowhere)").unwrap(), sym("nowhere"));
    assert_eq!(eval_fresh("(quote)"), Err(LispError::TypeError));
}

#[test]
fn if_evaluates_exactly_one_branch() {
    assert_eq!(eval_fresh("(if false undefined-a 2)").unwrap(), int_val(2));
    assert_eq!(eval_fresh("(if true 1 undefined-b)").unwrap(), int_val(1));
    assert_eq!(eval_fresh("(if 0 1 2)").unwrap(), int_val(1));
    assert_eq!(eval_fresh("(if (quote ()) 1 2)").unwrap(), int_val(1));
    assert_eq!(eval_fresh("(if)"), Err(LispError::BadArity));
    assert_eq!(eval_fresh("(if false 1)"), Err(LispError::BadArity));
}

#[test]
fn if_branch_side_effects_happen_once() {
    let mut env = Environment::outer_new();
    let mut host = ScriptHost::new(vec![]);
    run("(if false (putstr \"then\") (putstr \"else\"))", &mut env, &mut host).unwrap();
    assert_eq!(host.output, vec!["else".to_string()]);
}

#[test]
fn parameters_shadow_outer_bindings() {
    let mut env = Environment::outer_new();
    let mut host = ScriptHost::new(vec![]);
    assert_eq!(run("(define x 1)", &mut env, &mut host).unwrap(), Ast::Unspecified);
    assert_eq!(run("((lambda (x) x) 2)", &mut env, &mut host).unwrap(), int_val(2));
    assert_eq!(run("x", &mut env, &mut host).unwrap(), int_val(1));
}

#[test]
fn bindings_inside_a_closure_do_not_leak() {
    let mut env = Environment::outer_new();
    let mut host = ScriptHost::new(vec![]);
    run("((lambda (y) (define z 5)) 1)", &mut env, &mut host).unwrap();
    assert_eq!(run("z", &mut env, &mut host), Err(LispError::Undefined("z".to_string())));
    assert_eq!(env.scope_count(), 1);
}

#[test]
fn arity_errors_come_before_the_body_runs() {
    let mut env = Environment::outer_new();
    let mut host = ScriptHost::new(vec![]);
    run("(define f (lambda (a b) (define leaked 1)))", &mut env, &mut host).unwrap();
    assert_eq!(run("(f 1)", &mut env, &mut host), Err(LispError::BadArity));
    assert_eq!(run("(f 1 2 3)", &mut env, &mut host), Err(LispError::BadArity));
    assert_eq!(run("leaked", &mut env, &mut host), Err(LispError::Undefined("leaked".to_string())));
    assert_eq!(env.scope_count(), 1);
    assert_eq!(run("(f 1 2)", &mut env, &mut host).unwrap(), Ast::Unspecified);
}

#[test]
fn zero_parameter_closures_apply_to_no_arguments() {
    assert_eq!(eval_fresh("((lambda () 7))").unwrap(), int_val(7));
}

#[test]
fn arithmetic() {
    assert_eq!(eval_fresh("(+ 1 2 3)").unwrap(), int_val(6));
    assert_eq!(eval_fresh("(- 5)").unwrap(), int_val(-5));
    assert_eq!(eval_fresh("(/ 1 0)"), Err(LispError::DivisionByZero));
    assert_eq!(eval_fresh("(- 10 3 2)").unwrap(), int_val(5));
    assert_eq!(eval_fresh("(* 2 3 4)").unwrap(), int_val(24));
    assert_eq!(eval_fresh("(/ 7 2)").unwrap(), int_val(3));
    assert_eq!(eval_fresh("(/ -7 2)").unwrap(), int_val(-3));
    assert_eq!(eval_fresh("(/ 2)").unwrap(), int_val(0));
    assert_eq!(eval_fresh("(/ 1)").unwrap(), int_val(1));
    assert_eq!(eval_fresh("(+ 4)").unwrap(), int_val(4));
    assert_eq!(eval_fresh("(/ 0)"), Err(LispError::DivisionByZero));
}

#[test]
fn arithmetic_errors() {
    assert_eq!(eval_fresh("(+ 9223372036854775807 1)"), Err(LispError::Overflow));
    assert_eq!(eval_fresh("(- -9223372036854775808)"), Err(LispError::Overflow));
    assert_eq!(eval_fresh("(/ -9223372036854775808 -1)"), Err(LispError::Overflow));
    assert_eq!(eval_fresh("(* 4294967296 4294967296)"), Err(LispError::Overflow));
    assert_eq!(eval_fresh("(+ 1 \"a\")"), Err(LispError::TypeError));
    assert_eq!(eval_fresh("(+ 1.5 1)"), Err(LispError::TypeError));
    assert_eq!(eval_fresh("(+)"), Err(LispError::BadArity));
}

#[test]
fn comparisons() {
    assert_eq!(eval_fresh("(< 1 2 3)").unwrap(), boolean(true));
    assert_eq!(eval_fresh("(< 1 3 2)").unwrap(), boolean(false));
    assert_eq!(eval_fresh("(<= 1 1 2)").unwrap(), boolean(true));
    assert_eq!(eval_fresh("(> 3 2 1)").unwrap(), boolean(true));
    assert_eq!(eval_fresh("(>= 3 3 4)").unwrap(), boolean(false));
    assert_eq!(eval_fresh("(< 1)"), Err(LispError::BadArity));
    assert_eq!(eval_fresh("(< 1 \"b\")"), Err(LispError::TypeError));
}

#[test]
fn equality() {
    assert_eq!(eval_fresh("(equal? 1 1)").unwrap(), boolean(true));
    assert_eq!(eval_fresh("(equal? (quote (a \"b\" 2)) (quote (a \"b\" 2)))").unwrap(), boolean(true));
    assert_eq!(eval_fresh("(equal? 1 \"1\")").unwrap(), boolean(false));
    assert_eq!(eval_fresh("(equal? 1 1 2)").unwrap(), boolean(false));
    assert_eq!(eval_fresh("(equal? + +)").unwrap(), boolean(false));
    assert_eq!(eval_fresh("(equal? (type 1) (type 2))").unwrap(), boolean(true));
    assert_eq!(eval_fresh("(equal? 1)"), Err(LispError::BadArity));
    assert_eq!(eval_fresh("(equal? (define p 1) (define q 2))").unwrap(), boolean(false));
    assert_eq!(eval_fresh("(equal? (list (define p 1)) (list (define q 2)))").unwrap(), boolean(false));
    assert_eq!(eval_fresh("(equal? (list) (list))").unwrap(), boolean(true));
}

#[test]
fn list_builtins() {
    assert_eq!(eval_fresh("(list 1 2)").unwrap(), Ast::List(vec![int_val(1), int_val(2)]));
    assert_eq!(eval_fresh("(list)").unwrap(), Ast::List(vec![]));
    assert_eq!(eval_fresh("(list? (list))").unwrap(), boolean(true));
    assert_eq!(eval_fresh("(list? 1)").unwrap(), boolean(false));
    assert_eq!(eval_fresh("(empty? (list))").unwrap(), boolean(true));
    assert_eq!(eval_fresh("(empty? (list 1))").unwrap(), boolean(false));
    assert_eq!(eval_fresh("(empty? 1)").unwrap(), boolean(false));
    assert_eq!(eval_fresh("(count (list 1 2 3))").unwrap(), int_val(3));
    assert_eq!(eval_fresh("(count 3)"), Err(LispError::TypeError));
}

#[test]
fn type_tags() {
    assert_eq!(eval_fresh("(type 1)").unwrap(), Ast::Type(LispType::Int));
    assert_eq!(eval_fresh("(type 1.5)").unwrap(), Ast::Type(LispType::Float));
    assert_eq!(eval_fresh("(type \"s\")").unwrap(), Ast::Type(LispType::String));
    assert_eq!(eval_fresh("(type true)").unwrap(), Ast::Type(LispType::Bool));
    assert_eq!(eval_fresh("(type (list))").unwrap(), Ast::Type(LispType::List));
    assert_eq!(eval_fresh("(type +)").unwrap(), Ast::Type(LispType::Function));
    assert_eq!(eval_fresh("(type (lambda (x) x))").unwrap(), Ast::Type(LispType::Function));
    assert_eq!(eval_fresh("(type (type 1))").unwrap(), Ast::Type(LispType::Type));
    assert_eq!(eval_fresh("(type (quote a))").unwrap(), Ast::Type(LispType::Symbol));
    assert_eq!(eval_fresh("(type (define q 1))").unwrap(), Ast::Type(LispType::Unspecified));
}

#[test]
fn evaluation_errors() {
    assert_eq!(eval_fresh("nope"), Err(LispError::Undefined("nope".to_string())));
    assert_eq!(eval_fresh("(1 2)"), Err(LispError::TypeError));
    assert_eq!(eval_fresh("()"), Err(LispError::TypeError));
    assert_eq!(eval_fresh("(define 1 2)"), Err(LispError::TypeError));
    assert_eq!(eval_fresh("(define x)"), Err(LispError::BadArity));
    assert_eq!(eval_fresh("(lambda (1) x)"), Err(LispError::TypeError));
    assert_eq!(eval_fresh("(lambda x x)"), Err(LispError::TypeError));
    assert_eq!(eval_fresh("(lambda (x))"), Err(LispError::BadArity));
    assert_eq!(eval_fresh("(+ 1 nope (undefined))"), Err(LispError::Undefined("nope".to_string())));
}

#[test]
fn self_evaluating_values() {
    assert_eq!(eval_fresh("5").unwrap(), int_val(5));
    assert_eq!(eval_fresh("\"s\"").unwrap(), Ast::Atom(LispAtom::String("s".to_string())));
    assert_eq!(eval_fresh("2.5").unwrap(), Ast::Atom(LispAtom::Float("2.5".to_string())));
}

#[test]
fn eval_builtin_and_lambda_alias() {
    assert_eq!(eval_fresh("(eval (quote (+ 1 2)))").unwrap(), int_val(3));
    assert_eq!(eval_fresh("((λ (x) (* x x)) 4)").unwrap(), int_val(16));
}

#[test]
fn recursion_through_define() {
    let mut env = Environment::outer_new();
    let mut host = ScriptHost::new(vec![]);
    run("(define fact (lambda (n) (if (<= n 1) 1 (* n (fact (- n 1))))))", &mut env, &mut host).unwrap();
    assert_eq!(run("(fact 10)", &mut env, &mut host).unwrap(), int_val(3628800));
}

#[test]
fn depth_budget() {
    let mut env = Environment::outer_new();
    let mut host = ScriptHost::new(vec![]);
    assert_eq!(eval_expr_depth(int_val(1), &mut env, &mut host, 0), Err(LispError::DepthExceeded));
    assert_eq!(eval_expr_depth(int_val(1), &mut env, &mut host, 1).unwrap(), int_val(1));
    run("(define loop (lambda (n) (loop n)))", &mut env, &mut host).unwrap();
    let (_, call) = parse_expr("(loop 1)").unwrap();
    assert_eq!(eval_expr_depth(call, &mut env, &mut host, 60), Err(LispError::DepthExceeded));
    assert_eq!(env.scope_count(), 1);
}

#[test]
fn host_builtins() {
    let mut env = Environment::outer_new();
    let mut host = ScriptHost::new(vec!["first line".to_string()]);
    assert_eq!(run("(putstr \"hi\")", &mut env, &mut host).unwrap(), Ast::Unspecified);
    assert_eq!(host.output, vec!["hi".to_string()]);
    assert_eq!(run("(putstr 1)", &mut env, &mut host), Err(LispError::TypeError));
    assert_eq!(
        run("(readline)", &mut env, &mut host).unwrap(),
        Ast::Atom(LispAtom::String("first line".to_string()))
    );
    assert_eq!(run("(readline)", &mut env, &mut host), Err(LispError::IOError));
    run("(exit 3)", &mut env, &mut host).unwrap();
    assert_eq!(host.exit_code, Some(3));
    run("(exit)", &mut env, &mut host).unwrap();
    assert_eq!(host.exit_code, Some(0));
    assert_eq!(run("(exit 1 2)", &mut env, &mut host), Err(LispError::BadArity));
}

#[test]
fn use_loads_and_evaluates_a_file() {
    let mut env = Environment::outer_new();
    let mut host = ScriptHost::new(vec![]);
    host.files.push(("lib.lisp".to_string(), "(define y 7)\n(+ y 1)\n".to_string()));
    assert_eq!(run("(use \"lib.lisp\")", &mut env, &mut host).unwrap(), int_val(8));
    assert_eq!(run("y", &mut env, &mut host).unwrap(), int_val(7));
    assert_eq!(run("(use \"missing.lisp\")", &mut env, &mut host), Err(LispError::IOError));
    assert_eq!(run("(use 1)", &mut env, &mut host), Err(LispError::TypeError));
}

#[test]
fn parse_eval_print_round() {
    let mut env = Environment::outer_new();
    let mut host = ScriptHost::new(vec![]);
    assert_eq!(parse_eval_print("(+ 1 2)".to_string(), &mut env, &mut host).unwrap(), "3");
    assert_eq!(
        parse_eval_print("(list 1 \"a\" (quote b) (list))".to_string(), &mut env, &mut host).unwrap(),
        "(1 \"a\" b ())"
    );
    assert_eq!(parse_eval_print("(type 1)".to_string(), &mut env, &mut host).unwrap(), "builtin type int");
    assert_eq!(parse_eval_print("+".to_string(), &mut env, &mut host).unwrap(), "<function>");
    assert_eq!(parse_eval_print("(define a 1)".to_string(), &mut env, &mut host).unwrap(), "");
    assert_eq!(parse_eval_print("(- 5)".to_string(), &mut env, &mut host).unwrap(), "-5");
    assert_eq!(
        parse_eval_print(")".to_string(), &mut env, &mut host),
        Err(LispError::ParseError(")".to_string()))
    );
}

#[test]
fn error_messages() {
    assert_eq!(LispError::Undefined("x".to_string()).message(), "ERROR: Undefined identifier: x");
    assert_eq!(LispError::ParseError("(".to_string()).message(), "ERROR: Could not parse expression: (");
    assert_eq!(LispError::IOError.message(), "ERROR: IO error.");
    assert_eq!(LispError::DivisionByZero.message(), "ERROR: Division by zero.");
}

#[test]
fn environment_operations() {
    let mut env = Environment::with_binds(vec![("k".to_string(), int_val(1))]);
    assert_eq!(env.get("k").unwrap(), int_val(1));
    assert!(env.get("+").is_none());
    env.new_scope(vec![("k".to_string(), int_val(2)), ("k".to_string(), int_val(3))]);
    assert_eq!(env.scope_count(), 2);
    assert_eq!(env.get("k").unwrap(), int_val(3));
    env.bind("k".to_string(), int_val(4));
    assert_eq!(env.get("k").unwrap(), int_val(4));
    env.pop_scope();
    assert_eq!(env.get("k").unwrap(), int_val(1));
    env.bind("k".to_string(), int_val(5));
    env.bind("m".to_string(), int_val(6));
    assert_eq!(env.get("k").unwrap(), int_val(5));
    assert_eq!(env.get("m").unwrap(), int_val(6));
}

#[test]
fn arity_predicates() {
    assert!(one_or_zero(0) && one_or_zero(1) && !one_or_zero(2));
    assert!(exactly_zero(0) && !exactly_zero(1));
    assert!(exactly_one(1) && !exactly_one(0) && !exactly_one(2));
    assert!(at_least_zero(0) && at_least_zero(9));
    assert!(at_least_one(1) && !at_least_one(0));
    assert!(at_least_two(2) && !at_least_two(1));
    assert!(BuiltinOp::Exit.accepts(1) && !BuiltinOp::Exit.accepts(2));
    assert!(BuiltinOp::List.accepts(0));
}

#[test]
fn functions_are_never_equal() {
    let f = eval_fresh("+").unwrap();
    assert!(f != f.duplicate());
    let l = eval_fresh("(lambda (x) x)").unwrap();
    assert!(l != l.duplicate());
    assert_eq!(Ast::Unspecified, Ast::Unspecified);
}

#[test]
fn execute_program_runs_in_order_and_stops_at_errors() {
    let mut env = Environment::outer_new();
    let mut host = ScriptHost::new(vec![]);
    let r = execute_program("(define a 1)\n(putstr \"x\")\n(define b (+ a 1))\n", &mut env, &mut host);
    assert_eq!(r.unwrap(), Ast::Unspecified);
    assert_eq!(run("b", &mut env, &mut host).unwrap(), int_val(2));
    assert_eq!(host.output, vec!["x".to_string()]);

    let r = execute_program("(define c 1) (nope) (define d 2)", &mut env, &mut host);
    assert_eq!(r, Err(LispError::Undefined("nope".to_string())));
    assert_eq!(run("c", &mut env, &mut host).unwrap(), int_val(1));
    assert_eq!(run("d", &mut env, &mut host), Err(LispError::Undefined("d".to_string())));

    let r = execute_program("(define e 1) (oops", &mut env, &mut host);
    assert_eq!(r, Err(LispError::ParseError(" (oops".to_string())));
    assert_eq!(run("e", &mut env, &mut host), Err(LispError::Undefined("e".to_string())));
}

#[test]
fn host_results_flow_into_evaluation() {
    let mut env = Environment::outer_new();
    let mut host = ScriptHost::new(vec!["hello".to_string()]);
    run("(define s (readline))", &mut env, &mut host).unwrap();
    assert_eq!(run("s", &mut env, &mut host).unwrap(), Ast::Atom(LispAtom::String("hello".to_string())));
    run("(define f (lambda (a b) a))", &mut env, &mut host).unwrap();
    assert_eq!(run("(f (readline))", &mut env, &mut host), Err(LispError::IOError));
    host.input.push("x".to_string());
    assert_eq!(run("(f (readline))", &mut env, &mut host), Err(LispError::BadArity));
    host.input.push("y".to_string());
    assert_eq!(run("(1 (readline))", &mut env, &mut host), Err(LispError::TypeError));
    run("(if (readline) (putstr \"a\") (putstr \"b\"))", &mut env, &mut host).unwrap_err();
    assert!(host.output.is_empty());
}
