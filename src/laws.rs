//! Laws of the interpreter, stated over its semantics and proved: quoting,
//! conditionals, scoping, arity, equality, and reading back printed values.

use vstd::prelude::*;
use crate::ast::{Term, type_of};
use crate::builtins::{BuiltinOp, comparable, in_i64, lisp_equal, pure_result};
use crate::display::{print_term, print_seq, nat_text};
use crate::env::{bind_innermost, lookup};
use crate::error::Fault;
use crate::eval::{
    Io, Scopes, eval_term, eval_seq, eval_special, apply_term, eval_application, host_builtin, load_spec,
    param_scope, frames_kept, truthy,
};
use crate::host::HostEvent;
use crate::parser::{
    CharClass, in_class, run_len, skip_space, digits_len, sign_len, float_end, int_end, int_value,
    exponent_end, digits_value, holds_at, is_space, is_digit, is_symbol_char, parse_expr_spec,
    parse_atom_spec, parse_items_spec,
};
use crate::special_forms::{SpecialForm, special_form};

verus! {

proof fn lemma_form_names()
    ensures
        special_form("quote"@) == Some(SpecialForm::Quote),
        special_form("if"@) == Some(SpecialForm::If),
{
    reveal_strlit("quote");
    reveal_strlit("if");
    reveal_strlit("lambda");
    reveal_strlit("λ");
    reveal_strlit("define");
    assert("quote"@[0] != "lambda"@[0]);
    assert("quote"@.len() != "λ"@.len());
    assert("quote"@ != "define"@);
    assert("quote"@ != "if"@);
    assert("if"@ != "lambda"@);
    assert("if"@ != "λ"@);
    assert("if"@.len() != "define"@.len());
}

/// `(quote x)` evaluates to `x` itself, unevaluated, whatever `x` holds
/// (symbols bound nowhere included), and leaves the environment unchanged
/// without asking anything of the host.
pub proof fn law_quote(x: Term, env: Scopes, d: nat, io: Io)
    requires
        d >= 1,
    ensures
        eval_term(Term::List(seq![Term::Symbol("quote"@), x]), env, d, io) == Some((Ok::<Term, Fault>(x), env, io)),
{
    lemma_form_names();
    let items = seq![Term::Symbol("quote"@), x];
    assert(items.drop_first() =~= seq![x]);
}

/// `(if c a b)` evaluates `c` and then exactly one branch: once `c` has
/// given a value, the outcome is that of `a` alone if the value is anything
/// but `false`, and that of `b` alone otherwise.
pub proof fn law_if(c: Term, a: Term, b: Term, env: Scopes, d: nat, io: Io)
    requires
        d >= 1,
    ensures
        eval_term(c, env, (d - 1) as nat, io) matches Some((Ok(v), env1, io1)) ==> eval_term(
            Term::List(seq![Term::Symbol("if"@), c, a, b]),
            env,
            d,
            io,
        ) == eval_term(if truthy(v) { a } else { b }, env1, (d - 1) as nat, io1),
{
    lemma_form_names();
    let items = seq![Term::Symbol("if"@), c, a, b];
    assert(items.drop_first() =~= seq![c, a, b]);
}

/// `(if false a b)` evaluates exactly `b`: its outcome is that of `b` alone,
/// and `a` is not evaluated.
pub proof fn law_if_false(a: Term, b: Term, env: Scopes, d: nat, io: Io)
    requires
        d >= 2,
    ensures
        eval_term(Term::List(seq![Term::Symbol("if"@), Term::Bool(false), a, b]), env, d, io)
            == eval_term(b, env, (d - 1) as nat, io),
{
    law_if(Term::Bool(false), a, b, env, d, io);
}

/// `(if true a b)` evaluates exactly `a`: its outcome is that of `a` alone,
/// and `b` is not evaluated.
pub proof fn law_if_true(a: Term, b: Term, env: Scopes, d: nat, io: Io)
    requires
        d >= 2,
    ensures
        eval_term(Term::List(seq![Term::Symbol("if"@), Term::Bool(true), a, b]), env, d, io)
            == eval_term(a, env, (d - 1) as nat, io),
{
    law_if(Term::Bool(true), a, b, env, d, io);
}

/// A parameter shadows every outer binding of its name: the closure
/// `(lambda (x) x)` applied to `v` yields `v` whatever `x` is bound to
/// outside, and the environment afterwards is the one before.
pub proof fn law_parameter_shadows(name: Seq<char>, v: Term, env: Scopes, d: nat, io: Io)
    requires
        d >= 1,
    ensures
        apply_term(Term::Lambda(seq![name], Box::new(Term::Symbol(name))), seq![v], env, d, io)
            == Some((Ok::<Term, Fault>(v), env, io)),
{
    let scope = param_scope(seq![name], seq![v]);
    assert(seq![name].drop_last() =~= Seq::<Seq<char>>::empty());
    assert(param_scope(Seq::<Seq<char>>::empty(), seq![v]) == Map::<Seq<char>, Term>::empty());
    assert(scope == Map::<Seq<char>, Term>::empty().insert(name, v));
    let inner = env.push(scope);
    assert(lookup(inner, name) == Some(v));
    assert(inner.drop_last() =~= env);
}

/// A closure given more or fewer arguments than it has parameters fails with
/// an arity error before its body is entered: the outcome does not depend on
/// the body, and no binding is made and nothing is asked of the host.
pub proof fn law_closure_arity(params: Seq<Seq<char>>, body: Term, args: Seq<Term>, env: Scopes, d: nat, io: Io)
    requires
        args.len() != params.len(),
    ensures
        apply_term(Term::Lambda(params, Box::new(body)), args, env, d, io) == Some((Err::<Term, Fault>(Fault::BadArity), env, io)),
{
}

/// In a call whose head is a closure and whose arguments all evaluate, a
/// wrong number of arguments gives an arity error, and the environment and
/// the host's replies are left as the argument evaluation left them.
pub proof fn law_application_arity(items: Seq<Term>, env: Scopes, d: nat, io: Io)
    requires
        items.len() >= 1,
    ensures
        eval_term(items[0], env, d, io) matches Some((Ok(Term::Lambda(params, body)), env1, io1)) ==> (eval_seq(
            items.drop_first(),
            env1,
            d,
            io1,
        ) matches Some((Ok(args), env2, io2)) ==> (args.len() != params.len() ==> eval_application(items, env, d, io)
            == Some((Err::<Term, Fault>(Fault::BadArity), env2, io2)))),
{
}

/// `equal?` is reflexive on every value that holds neither a function nor
/// `Unspecified`.
pub proof fn law_equal_reflexive(a: Term)
    requires
        comparable(a),
    ensures
        pure_result(BuiltinOp::Equal, seq![a, a]) == Ok::<Term, Fault>(Term::Bool(true)),
{
    let args = seq![a, a];
    assert forall|i: int| 1 <= i < args.len() implies lisp_equal(args[0], #[trigger] args[i]) by {}
}

/// `equal?` on values of different types is `false`, not an error.
pub proof fn law_equal_across_types(a: Term, b: Term)
    requires
        type_of(a) != type_of(b),
    ensures
        pure_result(BuiltinOp::Equal, seq![a, b]) == Ok::<Term, Fault>(Term::Bool(false)),
{
    let args = seq![a, b];
    assert(!lisp_equal(args[0], args[1]));
}

proof fn lemma_frames_term(e: Term, env: Scopes, d: nat, io: Io)
    requires
        env.len() >= 1,
    ensures
        eval_term(e, env, d, io) matches Some((_, env1, _)) ==> frames_kept(env, env1),
    decreases d, 0nat, 0nat,
{
    if d > 0 {
        let d1 = (d - 1) as nat;
        match e {
            Term::List(items) => {
                if items.len() > 0 && items[0] is Symbol && special_form(items[0]->Symbol_0) is Some {
                    lemma_frames_special(special_form(items[0]->Symbol_0)->Some_0, items.drop_first(), env, d1, io);
                } else {
                    lemma_frames_application(items, env, d1, io);
                }
            },
            _ => {},
        }
    }
}

proof fn lemma_frames_seq(items: Seq<Term>, env: Scopes, d: nat, io: Io)
    requires
        env.len() >= 1,
    ensures
        eval_seq(items, env, d, io) matches Some((_, env1, _)) ==> frames_kept(env, env1),
    decreases d, 1nat, items.len(),
{
    if items.len() > 0 {
        lemma_frames_term(items[0], env, d, io);
        match eval_term(items[0], env, d, io) {
            Some((Ok(_), env1, io1)) => {
                lemma_frames_seq(items.drop_first(), env1, d, io1);
            },
            _ => {},
        }
    }
}

proof fn lemma_frames_special(form: SpecialForm, args: Seq<Term>, env: Scopes, d: nat, io: Io)
    requires
        env.len() >= 1,
    ensures
        eval_special(form, args, env, d, io) matches Some((_, env1, _)) ==> frames_kept(env, env1),
    decreases d, 2nat, 0nat,
{
    match form {
        SpecialForm::If => {
            if args.len() > 0 {
                lemma_frames_term(args[0], env, d, io);
                match eval_term(args[0], env, d, io) {
                    Some((Ok(_), env1, io1)) => {
                        if args.len() >= 2 {
                            lemma_frames_term(args[1], env1, d, io1);
                        }
                        if args.len() >= 3 {
                            lemma_frames_term(args[2], env1, d, io1);
                        }
                    },
                    _ => {},
                }
            }
        },
        SpecialForm::Define => {
            if args.len() >= 2 && args[0] is Symbol {
                lemma_frames_term(args[1], env, d, io);
                match eval_term(args[1], env, d, io) {
                    Some((Ok(v), env1, _)) => {
                        assert(bind_innermost(env1, args[0]->Symbol_0, v).drop_last() =~= env1.drop_last());
                    },
                    _ => {},
                }
            }
        },
        _ => {},
    }
}

proof fn lemma_frames_load(text: Seq<char>, pos: int, last: Term, env: Scopes, d: nat, io: Io)
    requires
        env.len() >= 1,
    ensures
        load_spec(text, pos, last, env, d, io) matches Some((_, env1, _)) ==> frames_kept(env, env1),
    decreases d, 2nat, text.len() - pos,
{
    match parse_expr_spec(text, pos) {
        Some((t, e)) => {
            if 0 <= pos < e <= text.len() {
                lemma_frames_term(t, env, d, io);
                match eval_term(t, env, d, io) {
                    Some((Ok(v), env1, io1)) => {
                        lemma_frames_load(text, e, v, env1, d, io1);
                    },
                    _ => {},
                }
            }
        },
        None => {},
    }
}

proof fn lemma_frames_host(op: BuiltinOp, args: Seq<Term>, env: Scopes, d: nat, io: Io)
    requires
        env.len() >= 1,
    ensures
        host_builtin(op, args, env, d, io) matches Some((_, env1, _)) ==> frames_kept(env, env1),
    decreases d, 3nat, 0nat,
{
    if io.len() > 0 {
        match io[0] {
            HostEvent::ReadFile(_, Some(text)) => {
                lemma_frames_load(text, 0, Term::List(Seq::empty()), env, d, io.drop_first());
            },
            _ => {},
        }
    }
}

proof fn lemma_frames_apply(f: Term, args: Seq<Term>, env: Scopes, d: nat, io: Io)
    requires
        env.len() >= 1,
    ensures
        apply_term(f, args, env, d, io) matches Some((_, env1, _)) ==> frames_kept(env, env1),
        f is Lambda ==> (apply_term(f, args, env, d, io) matches Some((_, env1, _)) ==> env1 == env),
    decreases d, 4nat, 0nat,
{
    match f {
        Term::Builtin(op) => {
            if args.len() > 0 {
                lemma_frames_term(args[0], env, d, io);
            }
            lemma_frames_host(op, args, env, d, io);
        },
        Term::Lambda(params, body) => {
            if args.len() == params.len() {
                let inner = env.push(param_scope(params, args));
                lemma_frames_term(*body, inner, d, io);
                match eval_term(*body, inner, d, io) {
                    Some((_, env1, _)) => {
                        assert(inner.drop_last() =~= env);
                        assert(env1.drop_last() =~= env);
                    },
                    None => {},
                }
            }
        },
        _ => {},
    }
}

proof fn lemma_frames_application(items: Seq<Term>, env: Scopes, d: nat, io: Io)
    requires
        env.len() >= 1,
    ensures
        eval_application(items, env, d, io) matches Some((_, env1, _)) ==> frames_kept(env, env1),
    decreases d, 5nat, 0nat,
{
    if items.len() > 0 {
        lemma_frames_term(items[0], env, d, io);
        match eval_term(items[0], env, d, io) {
            Some((Ok(f), env1, io1)) => {
                lemma_frames_seq(items.drop_first(), env1, d, io1);
                match eval_seq(items.drop_first(), env1, d, io1) {
                    Some((Ok(args), env2, io2)) => {
                        lemma_frames_apply(f, args, env2, d, io2);
                    },
                    _ => {},
                }
            },
            _ => {},
        }
    }
}

/// Evaluation never changes an outer scope nor the number of scopes: a
/// binding made during it lands in the innermost scope only.
pub proof fn law_outer_scopes_kept(e: Term, env: Scopes, d: nat, io: Io)
    requires
        env.len() >= 1,
    ensures
        eval_term(e, env, d, io) matches Some((_, env1, _)) ==> env1.len() == env.len() && env1.drop_last() == env.drop_last(),
{
    lemma_frames_term(e, env, d, io);
}

/// Bindings made while a closure runs never leak out of it: a call leaves the
/// environment exactly as it was.
pub proof fn law_closure_call_keeps_env(params: Seq<Seq<char>>, body: Term, args: Seq<Term>, env: Scopes, d: nat, io: Io)
    requires
        env.len() >= 1,
    ensures
        apply_term(Term::Lambda(params, Box::new(body)), args, env, d, io) matches Some((_, env1, _)) ==> env1 == env,
{
    lemma_frames_apply(Term::Lambda(params, Box::new(body)), args, env, d, io);
}

/// Whether position `k` of `s` ends a token: the end of the text, layout or `)`.
pub open spec fn is_delimiter(s: Seq<char>, k: int) -> bool {
    k == s.len() || (0 <= k < s.len() && (is_space(s[k]) || s[k] == ')'))
}

/// A symbol that reads back as itself: symbol characters, not starting like
/// a number (a digit, or a sign and a digit) or with `true` or `false`.
pub open spec fn printable_symbol(x: Seq<char>) -> bool {
    &&& x.len() > 0
    &&& forall|k: int| 0 <= k < x.len() ==> is_symbol_char(#[trigger] x[k])
    &&& !is_digit(x[0])
    &&& !(x.len() >= 2 && (x[0] == '+' || x[0] == '-') && is_digit(x[1]))
    &&& !(x.len() >= 4 && x.subrange(0, 4) == "true"@)
    &&& !(x.len() >= 5 && x.subrange(0, 5) == "false"@)
}

/// The values whose printed form reads back as the value: symbols as above,
/// strings without a double quote, booleans, 64-bit integers, floats whose
/// text is a whole float literal, and lists of such values.
pub open spec fn printable(t: Term) -> bool
    decreases t,
{
    match t {
        Term::Symbol(x) => printable_symbol(x),
        Term::Str(x) => forall|k: int| 0 <= k < x.len() ==> #[trigger] x[k] != '"',
        Term::Bool(_) => true,
        Term::Int(n) => in_i64(n),
        Term::Float(x) => float_end(x, 0) == Some(x.len() as int),
        Term::List(items) => forall|k: int| 0 <= k < items.len() ==> printable(#[trigger] items[k]),
        _ => false,
    }
}

/// `s` holds the printed form of `t` at `i`, followed by a delimiter.
pub open spec fn placed(t: Term, s: Seq<char>, i: int) -> bool {
    let p = print_term(t);
    0 <= i && i + p.len() <= s.len() && s.subrange(i, i + p.len()) == p && is_delimiter(s, i + p.len())
}

/// Reading at `a`, after layout up to `b`, finds `t` printed at `b`.
pub open spec fn reads_back(t: Term, s: Seq<char>, a: int, b: int) -> bool {
    (0 <= a <= b && skip_space(s, a) == b && placed(t, s, b)) ==> parse_expr_spec(s, a) == Some((t, b + print_term(t).len()))
}

/// The printed forms of values, each preceded by a space.
pub open spec fn tail_text(ts: Seq<Term>) -> Seq<char>
    decreases ts.len(),
{
    if ts.len() == 0 {
        Seq::empty()
    } else {
        seq![' '] + print_term(ts[0]) + tail_text(ts.drop_first())
    }
}

proof fn lemma_print_seq_split(ts: Seq<Term>)
    requires
        ts.len() > 0,
    ensures
        print_seq(ts) == print_term(ts[0]) + tail_text(ts.drop_first()),
    decreases ts.len(),
{
    let rest = ts.drop_first();
    assert(ts.subrange(1, ts.len() as int) =~= rest);
    if ts.len() == 1 {
        assert(tail_text(rest) =~= Seq::<char>::empty());
        assert(print_seq(ts) =~= print_term(ts[0]) + tail_text(rest));
    } else {
        lemma_print_seq_split(rest);
        assert(print_seq(ts) =~= print_term(ts[0]) + tail_text(rest));
    }
}

proof fn lemma_run_exact(s: Seq<char>, k: int, m: int, class: CharClass)
    requires
        0 <= k,
        0 <= m,
        k + m <= s.len(),
        forall|x: int| k <= x < k + m ==> in_class(class, #[trigger] s[x]),
        k + m == s.len() || !in_class(class, s[k + m]),
    ensures
        run_len(s, k, class) == m,
    decreases m,
{
    if m > 0 {
        lemma_run_exact(s, k + 1, m - 1, class);
    }
}

proof fn lemma_nat_text(m: nat)
    ensures
        nat_text(m).len() >= 1,
        forall|x: int| 0 <= x < nat_text(m).len() ==> is_digit(#[trigger] nat_text(m)[x]),
    decreases m,
{
    if m >= 10 {
        lemma_nat_text(m / 10);
        let a = nat_text(m / 10);
        let t = nat_text(m);
        assert forall|x: int| 0 <= x < t.len() implies is_digit(#[trigger] t[x]) by {
            if x < a.len() {
                assert(t[x] == a[x]);
            }
        }
    }
}

proof fn lemma_digits_of_text(s: Seq<char>, k: int, m: nat)
    requires
        0 <= k,
        k + nat_text(m).len() <= s.len(),
        s.subrange(k, k + nat_text(m).len()) == nat_text(m),
    ensures
        digits_value(s, k, k + nat_text(m).len()) == m,
    decreases m,
{
    let t = nat_text(m);
    let e = k + t.len();
    assert(s[e - 1] == t[t.len() - 1]);
    if m >= 10 {
        let a = nat_text(m / 10);
        assert(s.subrange(k, k + a.len()) =~= a) by {
            assert forall|x: int| 0 <= x < a.len() implies s.subrange(k, k + a.len())[x] == a[x] by {
                assert(s[k + x] == t[x]);
            }
        }
        lemma_digits_of_text(s, k, m / 10);
        assert(m == (m / 10) * 10 + m % 10);
    } else {
        assert(digits_value(s, k, k) == 0);
    }
}

proof fn lemma_not_word(s: Seq<char>, i: int, x: Seq<char>, w: Seq<char>)
    requires
        0 <= i,
        i + x.len() <= s.len(),
        s.subrange(i, i + x.len()) == x,
        is_delimiter(s, i + x.len()),
        !(x.len() >= w.len() && x.subrange(0, w.len() as int) == w),
        forall|k: int| 0 <= k < w.len() ==> !is_space(#[trigger] w[k]) && w[k] != ')',
    ensures
        !holds_at(s, i, w),
{
    if holds_at(s, i, w) {
        if x.len() >= w.len() {
            assert(x.subrange(0, w.len() as int) =~= w) by {
                assert forall|k: int| 0 <= k < w.len() implies x.subrange(0, w.len() as int)[k] == w[k] by {
                    assert(s.subrange(i, i + w.len())[k] == w[k]);
                    assert(s[i + k] == x[k]);
                }
            }
        } else {
            let n = x.len() as int;
            assert(s.subrange(i, i + w.len())[n] == w[n]);
            assert(s[i + n] == w[n]);
        }
    }
}

proof fn lemma_words()
    ensures
        forall|k: int| 0 <= k < "true"@.len() ==> !is_space(#[trigger] "true"@[k]) && "true"@[k] != ')',
        forall|k: int| 0 <= k < "false"@.len() ==> !is_space(#[trigger] "false"@[k]) && "false"@[k] != ')',
        "true"@.len() == 4 && "true"@[0] == 't',
        "false"@.len() == 5 && "false"@[0] == 'f',
{
    reveal_strlit("true");
    reveal_strlit("false");
}

proof fn lemma_print_head(t: Term)
    requires
        printable(t),
    ensures
        print_term(t).len() > 0,
        !is_space(print_term(t)[0]),
        print_term(t)[0] != ')',
{
    lemma_words();
    match t {
        Term::Symbol(x) => {
            assert(is_symbol_char(x[0]));
        },
        Term::Int(n) => {
            if n >= 0 {
                lemma_nat_text(n as nat);
            }
        },
        Term::Float(x) => {
            if sign_len(x, 0) == 0 {
                assert(is_digit(x[0]));
            }
        },
        _ => {},
    }
}

proof fn lemma_run_shift(x: Seq<char>, s: Seq<char>, b: int, k: int, class: CharClass)
    requires
        0 <= b,
        b + x.len() <= s.len(),
        forall|y: int| 0 <= y < x.len() ==> s[b + y] == #[trigger] x[y],
        0 <= k <= x.len(),
        b + x.len() == s.len() || !in_class(class, s[b + x.len()]),
    ensures
        run_len(s, b + k, class) == run_len(x, k, class),
    decreases x.len() - k,
{
    if k < x.len() {
        assert(s[b + k] == x[k]);
        lemma_run_shift(x, s, b, k + 1, class);
    }
}

proof fn lemma_sign_shift(x: Seq<char>, s: Seq<char>, b: int, k: int)
    requires
        0 <= b,
        b + x.len() <= s.len(),
        forall|y: int| 0 <= y < x.len() ==> s[b + y] == #[trigger] x[y],
        0 <= k <= x.len(),
        is_delimiter(s, b + x.len()),
    ensures
        sign_len(s, b + k) == sign_len(x, k),
{
    if k < x.len() {
        assert(s[b + k] == x[k]);
    }
}

proof fn lemma_exponent_shift(x: Seq<char>, s: Seq<char>, b: int, k: int)
    requires
        0 <= b,
        b + x.len() <= s.len(),
        forall|y: int| 0 <= y < x.len() ==> s[b + y] == #[trigger] x[y],
        0 <= k <= x.len(),
        is_delimiter(s, b + x.len()),
    ensures
        match exponent_end(x, k) {
            Some(e) => exponent_end(s, b + k) == Some(b + e),
            None => exponent_end(s, b + k) is None,
        },
{
    if k < x.len() {
        assert(s[b + k] == x[k]);
        if x[k] == 'e' || x[k] == 'E' {
            lemma_sign_shift(x, s, b, k + 1);
            let m = k + 1 + sign_len(x, k + 1);
            lemma_run_shift(x, s, b, m, CharClass::Digit);
        }
    }
}

proof fn lemma_float_shift(x: Seq<char>, s: Seq<char>, b: int)
    requires
        0 <= b,
        b + x.len() <= s.len(),
        s.subrange(b, b + x.len()) == x,
        is_delimiter(s, b + x.len()),
        float_end(x, 0) == Some(x.len() as int),
    ensures
        float_end(s, b) == Some(b + x.len()),
{
    assert forall|y: int| 0 <= y < x.len() implies s[b + y] == #[trigger] x[y] by {
        assert(s.subrange(b, b + x.len())[y] == x[y]);
    }
    lemma_sign_shift(x, s, b, 0);
    let k = sign_len(x, 0) as int;
    lemma_run_shift(x, s, b, k, CharClass::Digit);
    let p = k + digits_len(x, k);
    lemma_run_bound_laws(x, k, CharClass::Digit);
    if p < x.len() {
        assert(s[b + p] == x[p]);
    }
    if p < x.len() && x[p] == '.' {
        lemma_run_shift(x, s, b, p + 1, CharClass::Digit);
        lemma_run_bound_laws(x, p + 1, CharClass::Digit);
        let q = p + 1 + digits_len(x, p + 1);
        lemma_exponent_shift(x, s, b, q);
    } else {
        lemma_exponent_shift(x, s, b, p);
    }
}

proof fn lemma_run_bound_laws(s: Seq<char>, i: int, class: CharClass)
    requires
        0 <= i <= s.len(),
    ensures
        i + run_len(s, i, class) <= s.len(),
    decreases s.len() - i,
{
    if i < s.len() {
        lemma_run_bound_laws(s, i + 1, class);
    }
}

proof fn lemma_no_atom_at_close(s: Seq<char>, j: int)
    requires
        0 <= j < s.len(),
        s[j] == ')',
    ensures
        parse_atom_spec(s, j) is None,
{
    lemma_words();
    assert(digits_len(s, j) == 0);
    assert(sign_len(s, j) == 0);
    if holds_at(s, j, "true"@) {
        assert(s.subrange(j, j + 4)[0] == "true"@[0]);
    }
    if holds_at(s, j, "false"@) {
        assert(s.subrange(j, j + 5)[0] == "false"@[0]);
    }
}

proof fn lemma_reads_back(t: Term, s: Seq<char>, a: int, b: int)
    requires
        printable(t),
    ensures
        reads_back(t, s, a, b),
    decreases t,
{
    if 0 <= a <= b && skip_space(s, a) == b && placed(t, s, b) {
        let p = print_term(t);
        let e = b + p.len();
        lemma_print_head(t);
        lemma_words();
        assert(s[b] == p[0]);
        match t {
            Term::List(items) => {
                assert forall|k: int, a2: int, b2: int| 0 <= k < items.len() implies #[trigger] reads_back(items[k], s, a2, b2) by {
                    lemma_reads_back(items[k], s, a2, b2);
                }
                lemma_reads_list(items, s, b);
            },
            _ => {
                lemma_reads_atom(t, s, b);
            },
        }
    }
}

proof fn lemma_reads_atom(t: Term, s: Seq<char>, b: int)
    requires
        printable(t),
        !(t is List),
        placed(t, s, b),
    ensures
        parse_atom_spec(s, b) == Some((t, b + print_term(t).len())),
{
    let p = print_term(t);
    let e = b + p.len();
    lemma_words();
    lemma_print_head(t);
    assert forall|x: int| 0 <= x < p.len() implies s[b + x] == #[trigger] p[x] by {
        assert(s.subrange(b, e)[x] == p[x]);
    }
    match t {
        Term::Symbol(x) => {
            if x.len() >= 2 {
                assert(s[b + 1] == x[1]);
            }
            assert(!is_digit(s[b + sign_len(s, b)]) || b + sign_len(s, b) >= s.len());
            assert(digits_len(s, b + sign_len(s, b)) == 0);
            assert(float_end(s, b) is None);
            assert(int_end(s, b) is None);
            lemma_not_word(s, b, x, "true"@);
            lemma_not_word(s, b, x, "false"@);
            assert forall|y: int| b + 1 <= y < b + 1 + (x.len() - 1) implies in_class(CharClass::SymbolChar, #[trigger] s[y]) by {
                assert(s[y] == x[y - b]);
            }
            lemma_run_exact(s, b + 1, x.len() - 1, CharClass::SymbolChar);
            assert(s.subrange(b, e) =~= x);
        },
        Term::Str(x) => {
            assert(s[b] == '"');
            assert(digits_len(s, b) == 0);
            assert forall|y: int| b + 1 <= y < b + 1 + x.len() implies in_class(CharClass::NotQuote, #[trigger] s[y]) by {
                assert(s[y] == p[y - b]);
                assert(p[y - b] == x[y - b - 1]);
            }
            assert(s[b + 1 + x.len()] == p[x.len() + 1int]);
            lemma_run_exact(s, b + 1, x.len() as int, CharClass::NotQuote);
            assert(s.subrange(b + 1, b + 1 + x.len()) =~= x) by {
                assert forall|y: int| 0 <= y < x.len() implies s.subrange(b + 1, b + 1 + x.len())[y] == x[y] by {
                    assert(s[b + 1 + y] == p[y + 1]);
                }
            }
        },
        Term::Bool(v) => {
            assert(digits_len(s, b) == 0);
            if v {
                assert(s.subrange(b, b + 4) =~= "true"@);
            } else {
                if holds_at(s, b, "true"@) {
                    assert(s.subrange(b, b + 4)[0] == "true"@[0]);
                }
                assert(s.subrange(b, b + 5) =~= "false"@);
            }
        },
        Term::Int(n) => {
            let m: nat = if n < 0 { (-n) as nat } else { n as nat };
            let nt = nat_text(m);
            lemma_nat_text(m);
            let k = if n < 0 { b + 1 } else { b };
            assert(p == if n < 0 { seq!['-'] + nt } else { nt });
            assert forall|x: int| 0 <= x < nt.len() implies s[k + x] == #[trigger] nt[x] by {
                assert(s[k + x] == p[k - b + x]);
            }
            assert(sign_len(s, b) == k - b);
            assert forall|y: int| k <= y < k + nt.len() implies in_class(CharClass::Digit, #[trigger] s[y]) by {
                assert(s[y] == nt[y - k]);
            }
            assert(e == k + nt.len());
            lemma_run_exact(s, k, nt.len() as int, CharClass::Digit);
            assert(exponent_end(s, e) is None);
            assert(float_end(s, b) is None);
            assert(int_end(s, b) == Some(e));
            assert(s.subrange(k, k + nt.len()) =~= nt) by {
                assert forall|y: int| 0 <= y < nt.len() implies s.subrange(k, k + nt.len())[y] == nt[y] by {
                    assert(s[k + y] == nt[y]);
                }
            }
            lemma_digits_of_text(s, k, m);
            assert(int_value(s, b, e) == n);
        },
        Term::Float(x) => {
            lemma_float_shift(x, s, b);
        },
        _ => {},
    }
}

proof fn lemma_reads_items(ts: Seq<Term>, s: Seq<char>, e: int)
    requires
        forall|k: int| 0 <= k < ts.len() ==> printable(#[trigger] ts[k]),
        forall|k: int, a: int, b: int| 0 <= k < ts.len() ==> #[trigger] reads_back(ts[k], s, a, b),
        0 <= e,
        e + tail_text(ts).len() < s.len(),
        s.subrange(e, e + tail_text(ts).len()) == tail_text(ts),
        s[e + tail_text(ts).len()] == ')',
    ensures
        parse_items_spec(s, e) == (ts, e + tail_text(ts).len()),
    decreases ts.len(),
{
    let tt = tail_text(ts);
    if ts.len() == 0 {
        assert(ts =~= Seq::<Term>::empty());
    } else {
        let t = ts[0];
        let p = print_term(t);
        let rest = ts.drop_first();
        let rt = tail_text(rest);
        assert(tt == seq![' '] + p + rt);
        assert forall|x: int| 0 <= x < tt.len() implies s[e + x] == #[trigger] tt[x] by {
            assert(s.subrange(e, e + tt.len())[x] == tt[x]);
        }
        assert(tt[0] == ' ');
        assert(s[e + 0] == tt[0]);
        lemma_print_head(t);
        assert(tt[1] == p[0]);
        assert(s[e + 1] == tt[1]);
        assert(run_len(s, e + 1, CharClass::Space) == 0);
        assert(skip_space(s, e) == e + 1);
        let b = e + 1;
        let e2 = b + p.len();
        assert(s.subrange(b, e2) =~= p) by {
            assert forall|x: int| 0 <= x < p.len() implies s.subrange(b, e2)[x] == p[x] by {
                assert(s[e + 1 + x] == tt[1 + x]);
            }
        }
        if rest.len() > 0 {
            assert(s[e2] == tt[1int + p.len()]);
        }
        assert(is_delimiter(s, e2));
        assert(reads_back(ts[0], s, e, b));
        assert(s.subrange(e2, e2 + rt.len()) =~= rt) by {
            assert forall|x: int| 0 <= x < rt.len() implies s.subrange(e2, e2 + rt.len())[x] == rt[x] by {
                assert(s[e2 + x] == tt[1 + p.len() + x]);
            }
        }
        assert forall|k: int, a: int, b2: int| 0 <= k < rest.len() implies #[trigger] reads_back(rest[k], s, a, b2) by {
            assert(rest[k] == ts[k + 1]);
            assert(reads_back(ts[k + 1], s, a, b2));
        }
        lemma_reads_items(rest, s, e2);
        assert(seq![t] + rest =~= ts);
    }
}

proof fn lemma_reads_list(items: Seq<Term>, s: Seq<char>, b: int)
    requires
        printable(Term::List(items)),
        placed(Term::List(items), s, b),
        forall|k: int, a: int, b2: int| 0 <= k < items.len() ==> #[trigger] reads_back(items[k], s, a, b2),
    ensures
        parse_expr_spec(s, b) == Some((Term::List(items), b + print_term(Term::List(items)).len())),
{
    let p = print_term(Term::List(items));
    let e = b + p.len();
    let body = print_seq(items);
    assert(p == seq!['('] + body + seq![')']);
    assert forall|x: int| 0 <= x < p.len() implies s[b + x] == #[trigger] p[x] by {
        assert(s.subrange(b, e)[x] == p[x]);
    }
    assert(p[0] == '(');
    assert(s[b + 0] == p[0]);
    assert(skip_space(s, b) == b);
    assert(p[p.len() - 1] == ')');
    assert(s[b + (p.len() - 1)] == p[p.len() - 1]);
    if items.len() == 0 {
        assert(body =~= Seq::<char>::empty());
        assert(s[b + 1] == ')');
        lemma_no_atom_at_close(s, b + 1);
        assert(skip_space(s, b + 1) == b + 1);
        assert(parse_expr_spec(s, b + 1) is None);
        assert(items =~= Seq::<Term>::empty());
    } else {
        lemma_print_seq_split(items);
        let t = items[0];
        let head_text = print_term(t);
        let rest = items.drop_first();
        let tt = tail_text(rest);
        assert(body == head_text + tt);
        lemma_print_head(t);
        assert(s[b + 1] == p[1]);
        assert(skip_space(s, b + 1) == b + 1);
        let e1 = b + 1 + head_text.len();
        assert(s.subrange(b + 1, e1) =~= head_text) by {
            assert forall|x: int| 0 <= x < head_text.len() implies s.subrange(b + 1, e1)[x] == head_text[x] by {
                assert(s[b + 1 + x] == p[1 + x]);
            }
        }
        assert(s[e1] == p[1int + head_text.len()]);
        if rest.len() > 0 {
            assert(tt[0] == ' ');
        }
        assert(is_delimiter(s, e1));
        assert(reads_back(items[0], s, b + 1, b + 1));
        assert(s.subrange(e1, e1 + tt.len()) =~= tt) by {
            assert forall|x: int| 0 <= x < tt.len() implies s.subrange(e1, e1 + tt.len())[x] == tt[x] by {
                assert(s[e1 + x] == p[1 + head_text.len() + x]);
            }
        }
        assert forall|k: int| 0 <= k < rest.len() implies printable(#[trigger] rest[k]) by {
            assert(rest[k] == items[k + 1]);
        }
        assert forall|k: int, a: int, b2: int| 0 <= k < rest.len() implies #[trigger] reads_back(rest[k], s, a, b2) by {
            assert(rest[k] == items[k + 1]);
            assert(reads_back(items[k + 1], s, a, b2));
        }
        assert(s[e1 + tt.len()] == p[1int + head_text.len() + tt.len()]);
        lemma_reads_items(rest, s, e1);
        assert(s[e - 1] == ')');
        assert(seq![t] + rest =~= items);
    }
}

/// Reading back the printed form of a value gives the value itself, for
/// every value without functions, type tags or `Unspecified` whose strings
/// hold no double quote, whose floats are written as float literals, and
/// whose symbols do not read as something else (see [`printable`]).
pub proof fn law_print_then_parse(t: Term)
    requires
        printable(t),
    ensures
        parse_expr_spec(print_term(t), 0) == Some((t, print_term(t).len() as int)),
{
    let s = print_term(t);
    lemma_print_head(t);
    assert(s.subrange(0, s.len() as int) =~= s);
    assert(run_len(s, 0, CharClass::Space) == 0);
    lemma_reads_back(t, s, 0, 0);
}

} // verus!
