//! The builtin functions of the interpreter: their arity contracts, the
//! meaning of the ones that compute a value from their arguments alone, and
//! the table that seeds the outermost scope.

use vstd::prelude::*;
use crate::ast::{
    Ast, LispAtom, LispBuiltin, LispCallable, LispType, Term, seq_view, type_of, values_equal,
    function_free,
    lemma_list_view,
};
use crate::env::scope_map;
use crate::error::{Fault, LispError};

verus! {

/// The operation a builtin function performs.
#[derive(Debug, Clone, Copy, PartialEq, Eq, Structural)]
pub enum BuiltinOp {
    Add,
    Sub,
    Mul,
    Div,
    Eval,
    Exit,
    Use,
    PutStr,
    ReadLine,
    Equal,
    Gt,
    Ge,
    Lt,
    Le,
    List,
    IsList,
    IsEmpty,
    Count,
    GetType,
}

/// Accepts zero or one argument.
pub fn one_or_zero(num_args: usize) -> (r: bool)
    ensures
        r == (num_args <= 1),
{
    num_args <= 1
}

/// Accepts no argument.
pub fn exactly_zero(num_args: usize) -> (r: bool)
    ensures
        r == (num_args == 0),
{
    num_args == 0
}

/// Accepts exactly one argument.
pub fn exactly_one(num_args: usize) -> (r: bool)
    ensures
        r == (num_args == 1),
{
    num_args == 1
}

/// Accepts any number of arguments.
pub fn at_least_zero(_num_args: usize) -> (r: bool)
    ensures
        r,
{
    true
}

/// Accepts one argument or more.
pub fn at_least_one(num_args: usize) -> (r: bool)
    ensures
        r == (num_args >= 1),
{
    num_args >= 1
}

/// Accepts two arguments or more.
pub fn at_least_two(num_args: usize) -> (r: bool)
    ensures
        r == (num_args >= 2),
{
    num_args >= 2
}

/// The arity contract of each builtin.
pub open spec fn builtin_accepts(op: BuiltinOp, n: nat) -> bool {
    match op {
        BuiltinOp::Exit => n <= 1,
        BuiltinOp::ReadLine => n == 0,
        BuiltinOp::Eval | BuiltinOp::Use | BuiltinOp::PutStr | BuiltinOp::IsList
        | BuiltinOp::IsEmpty | BuiltinOp::Count | BuiltinOp::GetType => n == 1,
        BuiltinOp::List => true,
        BuiltinOp::Add | BuiltinOp::Sub | BuiltinOp::Mul | BuiltinOp::Div => n >= 1,
        BuiltinOp::Equal | BuiltinOp::Gt | BuiltinOp::Ge | BuiltinOp::Lt | BuiltinOp::Le => n >= 2,
    }
}

/// Whether a builtin talks to the host (prints, reads, loads a file or exits).
pub open spec fn is_host_op(op: BuiltinOp) -> bool {
    op is Exit || op is Use || op is PutStr || op is ReadLine
}

/// Whether a builtin's result depends on its arguments alone.
pub open spec fn is_pure_op(op: BuiltinOp) -> bool {
    !is_host_op(op) && !(op is Eval)
}

impl BuiltinOp {
    /// Whether the builtin accepts `num_args` arguments.
    pub fn accepts(&self, num_args: usize) -> (r: bool)
        ensures
            r == builtin_accepts(*self, num_args as nat),
    {
        match self {
            BuiltinOp::Exit => one_or_zero(num_args),
            BuiltinOp::ReadLine => exactly_zero(num_args),
            BuiltinOp::Eval | BuiltinOp::Use | BuiltinOp::PutStr | BuiltinOp::IsList
            | BuiltinOp::IsEmpty | BuiltinOp::Count | BuiltinOp::GetType => exactly_one(num_args),
            BuiltinOp::List => at_least_zero(num_args),
            BuiltinOp::Add | BuiltinOp::Sub | BuiltinOp::Mul | BuiltinOp::Div => at_least_one(num_args),
            BuiltinOp::Equal | BuiltinOp::Gt | BuiltinOp::Ge | BuiltinOp::Lt | BuiltinOp::Le => at_least_two(num_args),
        }
    }
}

pub open spec fn in_i64(x: int) -> bool {
    i64::MIN <= x <= i64::MAX
}

/// Integer division rounding toward zero.
pub open spec fn trunc_div(x: int, d: int) -> int {
    if x == 0 {
        0
    } else if x > 0 && d > 0 {
        x / d
    } else if x < 0 && d < 0 {
        (-x) / (-d)
    } else if x < 0 {
        -((-x) / d)
    } else {
        -(x / (-d))
    }
}

/// One step of an arithmetic fold: `acc op x`, with an error where the result
/// is not a 64-bit integer or the divisor is zero.
pub open spec fn arith_step(op: BuiltinOp, acc: int, x: int) -> Result<int, Fault> {
    let v = match op {
        BuiltinOp::Add => acc + x,
        BuiltinOp::Sub => acc - x,
        BuiltinOp::Mul => acc * x,
        _ => trunc_div(acc, x),
    };
    if op is Div && x == 0 {
        Err(Fault::DivisionByZero)
    } else if in_i64(v) {
        Ok(v)
    } else {
        Err(Fault::Overflow)
    }
}

/// Folds `op` over `xs` from the left, starting at `acc`; the first error stops it.
pub open spec fn arith_fold(op: BuiltinOp, acc: int, xs: Seq<int>) -> Result<int, Fault>
    decreases xs.len(),
{
    if xs.len() == 0 {
        Ok(acc)
    } else {
        match arith_step(op, acc, xs[0]) {
            Ok(a) => arith_fold(op, a, xs.drop_first()),
            Err(e) => Err(e),
        }
    }
}

/// Whether every argument is an integer.
pub open spec fn all_ints(args: Seq<Term>) -> bool {
    forall|i: int| 0 <= i < args.len() ==> #[trigger] args[i] is Int
}

/// The integers that integer arguments hold.
pub open spec fn ints_of(args: Seq<Term>) -> Seq<int> {
    Seq::new(args.len(), |i: int| args[i]->Int_0)
}

/// The value of `+`, `-`, `*` or `/` on integers: a fold from the left, except
/// that `(- x)` is `-x` and `(/ x)` is `1 / x`. Division rounds toward zero.
pub open spec fn arith_result(op: BuiltinOp, xs: Seq<int>) -> Result<int, Fault> {
    if xs.len() == 1 && op is Sub {
        arith_step(op, 0, xs[0])
    } else if xs.len() == 1 && op is Div {
        arith_step(op, 1, xs[0])
    } else {
        arith_fold(op, xs[0], xs.drop_first())
    }
}

/// Whether `a` and `b` are in the relation that a comparison builtin names.
pub open spec fn compare(op: BuiltinOp, a: int, b: int) -> bool {
    match op {
        BuiltinOp::Gt => a > b,
        BuiltinOp::Ge => a >= b,
        BuiltinOp::Lt => a < b,
        _ => a <= b,
    }
}

/// Whether each adjacent pair of `xs` is in the relation.
pub open spec fn chain_holds(op: BuiltinOp, xs: Seq<int>) -> bool {
    forall|i: int| 0 <= i < xs.len() - 1 ==> compare(op, #[trigger] xs[i], xs[i + 1])
}

/// What a builtin whose result depends on its arguments alone returns, for an
/// argument count its arity contract accepts.
pub open spec fn pure_result(op: BuiltinOp, args: Seq<Term>) -> Result<Term, Fault> {
    match op {
        BuiltinOp::Add | BuiltinOp::Sub | BuiltinOp::Mul | BuiltinOp::Div => {
            if !all_ints(args) {
                Err(Fault::TypeError)
            } else {
                match arith_result(op, ints_of(args)) {
                    Ok(v) => Ok(Term::Int(v)),
                    Err(e) => Err(e),
                }
            }
        },
        BuiltinOp::Gt | BuiltinOp::Ge | BuiltinOp::Lt | BuiltinOp::Le => {
            if !all_ints(args) {
                Err(Fault::TypeError)
            } else {
                Ok(Term::Bool(chain_holds(op, ints_of(args))))
            }
        },
        BuiltinOp::Equal => Ok(
            Term::Bool(forall|i: int| 1 <= i < args.len() ==> lisp_equal(args[0], #[trigger] args[i])),
        ),
        BuiltinOp::List => Ok(Term::List(args)),
        BuiltinOp::IsList => Ok(Term::Bool(args[0] is List)),
        BuiltinOp::IsEmpty => Ok(Term::Bool(args[0] is List && args[0]->List_0.len() == 0)),
        BuiltinOp::Count => match args[0] {
            Term::List(items) => if in_i64(items.len() as int) {
                Ok(Term::Int(items.len() as int))
            } else {
                Err(Fault::Overflow)
            },
            _ => Err(Fault::TypeError),
        },
        _ => Ok(Term::Type(type_of(args[0]))),
    }
}

/// Whether neither a function nor `Unspecified` occurs anywhere in the value.
pub open spec fn comparable(t: Term) -> bool
    decreases t,
{
    match t {
        Term::List(items) => forall|i: int| 0 <= i < items.len() ==> comparable(#[trigger] items[i]),
        Term::Builtin(_) | Term::Lambda(_, _) | Term::Unspecified => false,
        _ => true,
    }
}

/// The equality of `equal?`: structural, except that a function or
/// `Unspecified` is equal to nothing, not even to itself (so neither is a list
/// that holds one).
pub open spec fn lisp_equal(a: Term, b: Term) -> bool {
    a == b && comparable(a)
}

proof fn lemma_comparable_function_free(t: Term)
    requires
        comparable(t),
    ensures
        crate::ast::function_free(t),
    decreases t,
{
    match t {
        Term::List(items) => {
            assert forall|i: int| 0 <= i < items.len() implies crate::ast::function_free(#[trigger] items[i]) by {
                lemma_comparable_function_free(items[i]);
            }
        },
        _ => {},
    }
}

/// Whether neither a function nor `Unspecified` occurs anywhere in the value.
fn is_comparable(a: &Ast) -> (r: bool)
    ensures
        r == comparable(a@),
    decreases a,
{
    match a {
        Ast::List(items) => {
            proof {
                lemma_list_view(*items);
            }
            let mut i: usize = 0;
            while i < items.len()
                invariant
                    *a == Ast::List(*items),
                    a@ == Term::List(seq_view(items@)),
                    i <= items@.len(),
                    forall|j: int| 0 <= j < i ==> comparable(#[trigger] seq_view(items@)[j]),
                decreases items.len() - i,
            {
                proof {
                    vstd::std_specs::vec::axiom_vec_index_decreases(*items, i as int);
                }
                if !is_comparable(&items[i]) {
                    assert(!comparable(seq_view(items@)[i as int]));
                    assert(a@->List_0[i as int] == seq_view(items@)[i as int]);
                    return false;
                }
                i = i + 1;
            }
            true
        },
        Ast::Function(_) | Ast::Unspecified => false,
        _ => true,
    }
}

/// The model of an evaluation result.
pub open spec fn result_view(r: Result<Ast, LispError>) -> Result<Term, Fault> {
    match r {
        Ok(v) => Ok(v@),
        Err(e) => Err(e@),
    }
}

fn int_value(v: i64) -> (r: Ast)
    ensures
        r@ == Term::Int(v as int),
{
    Ast::Atom(LispAtom::Int(v))
}

fn bool_value(b: bool) -> (r: Ast)
    ensures
        r@ == Term::Bool(b),
{
    Ast::Atom(LispAtom::Bool(b))
}

/// The integers the arguments hold, or a type error if one is not an integer.
fn to_list_of_ints(args: &Vec<Ast>) -> (r: Result<Vec<i64>, LispError>)
    ensures
        all_ints(seq_view(args@)) ==> r is Ok && r->Ok_0@.map_values(|v: i64| v as int) == ints_of(seq_view(args@)),
        !all_ints(seq_view(args@)) ==> r == Err::<Vec<i64>, LispError>(LispError::TypeError),
{
    let ghost terms = seq_view(args@);
    let mut out: Vec<i64> = Vec::new();
    let mut i: usize = 0;
    while i < args.len()
        invariant
            terms == seq_view(args@),
            i <= args.len(),
            out@.len() == i,
            forall|j: int| 0 <= j < i ==> #[trigger] terms[j] is Int && terms[j]->Int_0 == out@[j] as int,
        decreases args.len() - i,
    {
        match &args[i] {
            Ast::Atom(LispAtom::Int(n)) => out.push(*n),
            _ => {
                assert(!(terms[i as int] is Int));
                return Err(LispError::TypeError);
            },
        }
        i = i + 1;
    }
    assert(out@.map_values(|v: i64| v as int) =~= ints_of(terms));
    Ok(out)
}

fn arith_apply(op: BuiltinOp, acc: i64, x: i64) -> (r: Result<i64, LispError>)
    requires
        op is Add || op is Sub || op is Mul || op is Div,
    ensures
        result_int(r) == arith_step(op, acc as int, x as int),
{
    match op {
        BuiltinOp::Add => match acc.checked_add(x) {
            Some(v) => Ok(v),
            None => Err(LispError::Overflow),
        },
        BuiltinOp::Sub => match acc.checked_sub(x) {
            Some(v) => Ok(v),
            None => Err(LispError::Overflow),
        },
        BuiltinOp::Mul => match acc.checked_mul(x) {
            Some(v) => Ok(v),
            None => Err(LispError::Overflow),
        },
        _ => {
            if x == 0 {
                Err(LispError::DivisionByZero)
            } else {
                match acc.checked_div(x) {
                    Some(v) => Ok(v),
                    None => Err(LispError::Overflow),
                }
            }
        },
    }
}

pub open spec fn result_int(r: Result<i64, LispError>) -> Result<int, Fault> {
    match r {
        Ok(v) => Ok(v as int),
        Err(e) => Err(e@),
    }
}

fn arith(op: BuiltinOp, xs: &Vec<i64>) -> (r: Result<i64, LispError>)
    requires
        op is Add || op is Sub || op is Mul || op is Div,
        xs@.len() >= 1,
    ensures
        result_int(r) == arith_result(op, xs@.map_values(|v: i64| v as int)),
{
    let ghost ys = xs@.map_values(|v: i64| v as int);
    if xs.len() == 1 && op == BuiltinOp::Sub {
        return arith_apply(op, 0, xs[0]);
    }
    if xs.len() == 1 && op == BuiltinOp::Div {
        return arith_apply(op, 1, xs[0]);
    }
    let mut acc: i64 = xs[0];
    let mut i: usize = 1;
    assert(ys.drop_first() =~= ys.subrange(1, ys.len() as int));
    while i < xs.len()
        invariant
            1 <= i <= xs@.len(),
            ys == xs@.map_values(|v: i64| v as int),
            op is Add || op is Sub || op is Mul || op is Div,
            arith_result(op, ys) == arith_fold(op, acc as int, ys.subrange(i as int, ys.len() as int)),
        decreases xs.len() - i,
    {
        let ghost rest = ys.subrange(i as int, ys.len() as int);
        assert(rest.drop_first() =~= ys.subrange(i + 1, ys.len() as int));
        match arith_apply(op, acc, xs[i]) {
            Ok(v) => {
                acc = v;
            },
            Err(e) => {
                return Err(e);
            },
        }
        i = i + 1;
    }
    assert(ys.subrange(i as int, ys.len() as int).len() == 0);
    Ok(acc)
}

fn chain(op: BuiltinOp, xs: &Vec<i64>) -> (r: bool)
    ensures
        r == chain_holds(op, xs@.map_values(|v: i64| v as int)),
{
    let ghost ys = xs@.map_values(|v: i64| v as int);
    if xs.len() < 2 {
        return true;
    }
    let mut i: usize = 0;
    while i < xs.len() - 1
        invariant
            ys == xs@.map_values(|v: i64| v as int),
            xs@.len() >= 2,
            i <= xs@.len() - 1,
            forall|j: int| 0 <= j < i && j < ys.len() - 1 ==> compare(op, #[trigger] ys[j], ys[j + 1]),
        decreases xs.len() - i,
    {
        let a = xs[i];
        let b = xs[i + 1];
        let holds = match op {
            BuiltinOp::Gt => a > b,
            BuiltinOp::Ge => a >= b,
            BuiltinOp::Lt => a < b,
            _ => a <= b,
        };
        if !holds {
            assert(!compare(op, ys[i as int], ys[i + 1]));
            return false;
        }
        i = i + 1;
    }
    true
}

/// Applies a builtin whose result depends on its arguments alone.
pub fn apply_pure(op: BuiltinOp, args: Vec<Ast>) -> (r: Result<Ast, LispError>)
    requires
        is_pure_op(op),
        builtin_accepts(op, args@.len() as nat),
    ensures
        result_view(r) == pure_result(op, seq_view(args@)),
{
    let ghost terms = seq_view(args@);
    match op {
        BuiltinOp::Add | BuiltinOp::Sub | BuiltinOp::Mul | BuiltinOp::Div => {
            let xs = to_list_of_ints(&args)?;
            match arith(op, &xs) {
                Ok(v) => Ok(int_value(v)),
                Err(e) => Err(e),
            }
        },
        BuiltinOp::Gt | BuiltinOp::Ge | BuiltinOp::Lt | BuiltinOp::Le => {
            let xs = to_list_of_ints(&args)?;
            Ok(bool_value(chain(op, &xs)))
        },
        BuiltinOp::Equal => {
            if !is_comparable(&args[0]) {
                proof {
                    assert(!lisp_equal(terms[0], terms[1]));
                }
                return Ok(bool_value(false));
            }
            proof {
                lemma_comparable_function_free(terms[0]);
            }
            let mut i: usize = 1;
            while i < args.len()
                invariant
                    comparable(terms[0]),
                    function_free(terms[0]),
                    op == BuiltinOp::Equal,
                    terms == seq_view(args@),
                    1 <= i <= args@.len(),
                    forall|j: int| 1 <= j < i ==> lisp_equal(terms[0], #[trigger] terms[j]),
                decreases args.len() - i,
            {
                if !args[0].equals(&args[i]) {
                    assert(!lisp_equal(terms[0], terms[i as int]));
                    return Ok(bool_value(false));
                }
                i = i + 1;
            }
            Ok(bool_value(true))
        },
        BuiltinOp::List => {
            proof {
                lemma_list_view(args);
            }
            Ok(Ast::List(args))
        },
        BuiltinOp::IsList => Ok(bool_value(matches!(&args[0], Ast::List(_)))),
        BuiltinOp::IsEmpty => {
            let empty = match &args[0] {
                Ast::List(items) => {
                    proof {
                        lemma_list_view(*items);
                    }
                    items.len() == 0
                },
                _ => false,
            };
            Ok(bool_value(empty))
        },
        BuiltinOp::Count => match &args[0] {
            Ast::List(items) => {
                proof {
                    lemma_list_view(*items);
                }
                let n = items.len() as u64;
                if n <= i64::MAX as u64 {
                    Ok(int_value(n as i64))
                } else {
                    Err(LispError::Overflow)
                }
            },
            _ => Err(LispError::TypeError),
        },
        _ => Ok(Ast::Type(LispType::of(&args[0]))),
    }
}

/// The bindings of the outermost scope: each builtin under its name.
pub open spec fn builtin_scope() -> Map<Seq<char>, Term> {
    Map::empty()
        .insert("+"@, Term::Builtin(BuiltinOp::Add))
        .insert("-"@, Term::Builtin(BuiltinOp::Sub))
        .insert("*"@, Term::Builtin(BuiltinOp::Mul))
        .insert("/"@, Term::Builtin(BuiltinOp::Div))
        .insert("eval"@, Term::Builtin(BuiltinOp::Eval))
        .insert("exit"@, Term::Builtin(BuiltinOp::Exit))
        .insert("use"@, Term::Builtin(BuiltinOp::Use))
        .insert("putstr"@, Term::Builtin(BuiltinOp::PutStr))
        .insert("readline"@, Term::Builtin(BuiltinOp::ReadLine))
        .insert("equal?"@, Term::Builtin(BuiltinOp::Equal))
        .insert(">"@, Term::Builtin(BuiltinOp::Gt))
        .insert(">="@, Term::Builtin(BuiltinOp::Ge))
        .insert("<"@, Term::Builtin(BuiltinOp::Lt))
        .insert("<="@, Term::Builtin(BuiltinOp::Le))
        .insert("list"@, Term::Builtin(BuiltinOp::List))
        .insert("list?"@, Term::Builtin(BuiltinOp::IsList))
        .insert("empty?"@, Term::Builtin(BuiltinOp::IsEmpty))
        .insert("count"@, Term::Builtin(BuiltinOp::Count))
        .insert("type"@, Term::Builtin(BuiltinOp::GetType))
}

fn push_builtin(entries: &mut Vec<(String, Ast)>, name: &str, op: BuiltinOp)
    ensures
        scope_map(final(entries)@) == scope_map(old(entries)@).insert(name@, Term::Builtin(op)),
{
    entries.push((name.to_owned(), Ast::Function(LispCallable::Builtin(LispBuiltin { op }))));
    assert(final(entries)@.drop_last() =~= old(entries)@);
}

/// The entries of the outermost scope.
pub fn builtin_bindings() -> (r: Vec<(String, Ast)>)
    ensures
        scope_map(r@) == builtin_scope(),
{
    let mut v: Vec<(String, Ast)> = Vec::new();
    push_builtin(&mut v, "+", BuiltinOp::Add);
    push_builtin(&mut v, "-", BuiltinOp::Sub);
    push_builtin(&mut v, "*", BuiltinOp::Mul);
    push_builtin(&mut v, "/", BuiltinOp::Div);
    push_builtin(&mut v, "eval", BuiltinOp::Eval);
    push_builtin(&mut v, "exit", BuiltinOp::Exit);
    push_builtin(&mut v, "use", BuiltinOp::Use);
    push_builtin(&mut v, "putstr", BuiltinOp::PutStr);
    push_builtin(&mut v, "readline", BuiltinOp::ReadLine);
    push_builtin(&mut v, "equal?", BuiltinOp::Equal);
    push_builtin(&mut v, ">", BuiltinOp::Gt);
    push_builtin(&mut v, ">=", BuiltinOp::Ge);
    push_builtin(&mut v, "<", BuiltinOp::Lt);
    push_builtin(&mut v, "<=", BuiltinOp::Le);
    push_builtin(&mut v, "list", BuiltinOp::List);
    push_builtin(&mut v, "list?", BuiltinOp::IsList);
    push_builtin(&mut v, "empty?", BuiltinOp::IsEmpty);
    push_builtin(&mut v, "count", BuiltinOp::Count);
    push_builtin(&mut v, "type", BuiltinOp::GetType);
    v
}

} // verus!
