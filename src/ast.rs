//! The expression/value model: one tagged union used both for source trees
//! and for runtime values, together with its mathematical model [`Term`].

use vstd::prelude::*;
use crate::builtins::BuiltinOp;

verus! {

/// The mathematical model of an [`Ast`]: the same tree with sequences in
/// place of vectors and character sequences in place of strings.
pub enum Term {
    Symbol(Seq<char>),
    Str(Seq<char>),
    Bool(bool),
    Int(int),
    Float(Seq<char>),
    List(Seq<Term>),
    Builtin(BuiltinOp),
    Lambda(Seq<Seq<char>>, Box<Term>),
    Type(LispType),
    Unspecified,
}

/// A non-list primitive value.
#[derive(Debug, Clone)]
pub enum LispAtom {
    /// An identifier, looked up in the environment when evaluated.
    Symbol(String),
    /// A string literal.
    String(String),
    /// A boolean.
    Bool(bool),
    /// A 64-bit integer.
    Int(i64),
    /// A double-precision literal, kept as the decimal text it was written in.
    Float(String),
}

/// An expression, which is also a runtime value.
#[derive(Debug)]
pub enum Ast {
    /// An atom, such as a number, string, or symbol.
    Atom(LispAtom),
    /// A list created using `()`.
    List(Vec<Ast>),
    /// A callable function.
    Function(LispCallable),
    /// A type tag (like int or float).
    Type(LispType),
    /// The value of forms that have no meaningful value.
    Unspecified,
}

/// A callable value: a builtin of the interpreter or a closure made by `lambda`.
#[derive(Debug)]
pub enum LispCallable {
    /// One of the interpreter's own functions.
    Builtin(LispBuiltin),
    /// A closure.
    Lambda(LispLambda),
}

/// A builtin function, identified by the operation it performs.
#[derive(Debug, Clone, Copy)]
pub struct LispBuiltin {
    pub op: BuiltinOp,
}

/// A function created using `lambda`: its parameter names and its unevaluated body.
/// It accepts exactly as many arguments as it has parameters.
#[derive(Debug)]
pub struct LispLambda {
    pub bindings: Vec<String>,
    pub body: Box<Ast>,
}

/// The category of a value, as produced by the `type` builtin.
#[derive(Debug, Clone, Copy, PartialEq, Eq, Structural)]
pub enum LispType {
    Int,
    Float,
    String,
    Bool,
    List,
    Function,
    Type,
    Symbol,
    Unspecified,
}

/// The model of a list of parameter names.
pub open spec fn names_view(names: Seq<String>) -> Seq<Seq<char>> {
    names.map_values(|s: String| s@)
}

impl View for LispAtom {
    type V = Term;

    open spec fn view(&self) -> Term {
        match self {
            LispAtom::Symbol(s) => Term::Symbol(s@),
            LispAtom::String(s) => Term::Str(s@),
            LispAtom::Bool(b) => Term::Bool(*b),
            LispAtom::Int(n) => Term::Int(*n as int),
            LispAtom::Float(s) => Term::Float(s@),
        }
    }
}

impl Ast {
    /// The model of this expression.
    pub open spec fn model(&self) -> Term
        decreases self,
    {
        match self {
            Ast::Atom(a) => a@,
            Ast::List(items) => Term::List(
                Seq::new(items@.len(), |i: int| if 0 <= i < items@.len() { items@[i].model() } else { Term::Unspecified }),
            ),
            Ast::Function(LispCallable::Builtin(b)) => Term::Builtin(b.op),
            Ast::Function(LispCallable::Lambda(l)) => Term::Lambda(names_view(l.bindings@), Box::new(l.body.model())),
            Ast::Type(t) => Term::Type(*t),
            Ast::Unspecified => Term::Unspecified,
        }
    }
}

impl View for Ast {
    type V = Term;

    open spec fn view(&self) -> Term {
        self.model()
    }
}

/// The models of a sequence of expressions.
pub open spec fn seq_view(items: Seq<Ast>) -> Seq<Term> {
    Seq::new(items.len(), |i: int| items[i]@)
}

pub proof fn lemma_list_view(items: Vec<Ast>)
    ensures
        Ast::List(items)@ == Term::List(seq_view(items@)),
{
    assert(Ast::List(items)@->List_0 =~= seq_view(items@));
}

/// The type tag of a value: total, every value has exactly one.
pub open spec fn type_of(t: Term) -> LispType {
    match t {
        Term::Symbol(_) => LispType::Symbol,
        Term::Str(_) => LispType::String,
        Term::Bool(_) => LispType::Bool,
        Term::Int(_) => LispType::Int,
        Term::Float(_) => LispType::Float,
        Term::List(_) => LispType::List,
        Term::Builtin(_) => LispType::Function,
        Term::Lambda(_, _) => LispType::Function,
        Term::Type(_) => LispType::Type,
        Term::Unspecified => LispType::Unspecified,
    }
}

/// Whether no function occurs anywhere in the value.
pub open spec fn function_free(t: Term) -> bool
    decreases t,
{
    match t {
        Term::List(items) => forall|i: int| 0 <= i < items.len() ==> function_free(#[trigger] items[i]),
        Term::Builtin(_) => false,
        Term::Lambda(_, _) => false,
        _ => true,
    }
}

/// The equality of values: structural, except that a function is equal to nothing,
/// not even to itself (so neither is a list that holds one).
pub open spec fn values_equal(a: Term, b: Term) -> bool {
    a == b && function_free(a)
}

impl LispAtom {
    /// A copy of this atom.
    pub fn duplicate(&self) -> (r: LispAtom)
        ensures
            r@ == self@,
    {
        match self {
            LispAtom::Symbol(s) => LispAtom::Symbol(s.clone()),
            LispAtom::String(s) => LispAtom::String(s.clone()),
            LispAtom::Bool(b) => LispAtom::Bool(*b),
            LispAtom::Int(n) => LispAtom::Int(*n),
            LispAtom::Float(s) => LispAtom::Float(s.clone()),
        }
    }

    /// Structural equality of atoms.
    pub fn equals(&self, other: &LispAtom) -> (r: bool)
        ensures
            r == (self@ == other@),
    {
        match (self, other) {
            (LispAtom::Symbol(a), LispAtom::Symbol(b)) => a.eq(b),
            (LispAtom::String(a), LispAtom::String(b)) => a.eq(b),
            (LispAtom::Bool(a), LispAtom::Bool(b)) => *a == *b,
            (LispAtom::Int(a), LispAtom::Int(b)) => *a == *b,
            (LispAtom::Float(a), LispAtom::Float(b)) => a.eq(b),
            _ => false,
        }
    }
}

/// Copies a list of names.
fn copy_names(names: &Vec<String>) -> (r: Vec<String>)
    ensures
        names_view(r@) == names_view(names@),
{
    let mut out: Vec<String> = Vec::new();
    let mut i: usize = 0;
    while i < names.len()
        invariant
            i <= names.len(),
            out@.len() == i,
            forall|j: int| 0 <= j < i ==> out@[j]@ == names@[j]@,
        decreases names.len() - i,
    {
        out.push(names[i].clone());
        i = i + 1;
    }
    assert(names_view(out@) =~= names_view(names@));
    out
}

impl Ast {
    /// A copy of this value, equal to it in every part.
    pub fn duplicate(&self) -> (r: Ast)
        ensures
            r@ == self@,
        decreases self,
    {
        match self {
            Ast::Atom(a) => Ast::Atom(a.duplicate()),
            Ast::List(items) => {
                proof {
                    lemma_list_view(*items);
                }
                let mut out: Vec<Ast> = Vec::new();
                let mut i: usize = 0;
                while i < items.len()
                    invariant
                        *self == Ast::List(*items),
                        self@ == Term::List(seq_view(items@)),
                        i <= items.len(),
                        out@.len() == i,
                        forall|j: int| 0 <= j < i ==> out@[j]@ == items@[j]@,
                    decreases items.len() - i,
                {
                    proof {
                        vstd::std_specs::vec::axiom_vec_index_decreases(*items, i as int);
                    }
                    out.push(items[i].duplicate());
                    i = i + 1;
                }
                let r = Ast::List(out);
                assert(r@->List_0 =~= self@->List_0);
                r
            },
            Ast::Function(LispCallable::Builtin(b)) => Ast::Function(LispCallable::Builtin(*b)),
            Ast::Function(LispCallable::Lambda(l)) => {
                let body = l.body.duplicate();
                Ast::Function(LispCallable::Lambda(LispLambda { bindings: copy_names(&l.bindings), body: Box::new(body) }))
            },
            Ast::Type(t) => Ast::Type(*t),
            Ast::Unspecified => Ast::Unspecified,
        }
    }

    /// Equality of values: structural, with functions equal to nothing.
    pub fn equals(&self, other: &Ast) -> (r: bool)
        ensures
            r == values_equal(self@, other@),
        decreases self,
    {
        match (self, other) {
            (Ast::Atom(a), Ast::Atom(b)) => a.equals(b),
            (Ast::List(xs), Ast::List(ys)) => {
                proof {
                    lemma_list_view(*xs);
                    lemma_list_view(*ys);
                }
                if xs.len() != ys.len() {
                    assert(self@->List_0.len() != other@->List_0.len());
                    return false;
                }
                let mut i: usize = 0;
                while i < xs.len()
                    invariant
                        *self == Ast::List(*xs),
                        *other == Ast::List(*ys),
                        self@ == Term::List(seq_view(xs@)),
                        other@ == Term::List(seq_view(ys@)),
                        i <= xs.len(),
                        xs.len() == ys.len(),
                        forall|j: int| 0 <= j < i ==> values_equal(#[trigger] xs@[j]@, ys@[j]@),
                    decreases xs.len() - i,
                {
                    proof {
                        vstd::std_specs::vec::axiom_vec_index_decreases(*xs, i as int);
                    }
                    if !xs[i].equals(&ys[i]) {
                        assert(self@->List_0[i as int] == xs@[i as int]@);
                        assert(other@->List_0[i as int] == ys@[i as int]@);
                        return false;
                    }
                    i = i + 1;
                }
                assert(self@->List_0 =~= other@->List_0) by {
                    assert forall|j: int| 0 <= j < xs@.len() implies self@->List_0[j] == other@->List_0[j] by {
                        assert(values_equal(xs@[j]@, ys@[j]@));
                    }
                }
                assert forall|j: int| 0 <= j < self@->List_0.len() implies function_free(#[trigger] self@->List_0[j]) by {
                    assert(values_equal(xs@[j]@, ys@[j]@));
                }
                true
            },
            (Ast::Type(a), Ast::Type(b)) => *a == *b,
            (Ast::Unspecified, Ast::Unspecified) => true,
            _ => false,
        }
    }
}

impl PartialEq for Ast {
    fn eq(&self, other: &Ast) -> (r: bool) {
        self.equals(other)
    }
}

impl vstd::std_specs::cmp::PartialEqSpecImpl for Ast {
    open spec fn obeys_eq_spec() -> bool {
        true
    }

    open spec fn eq_spec(&self, other: &Ast) -> bool {
        values_equal(self@, other@)
    }
}

impl LispLambda {
    /// A closure with the given parameter names and body; `arity` is the
    /// number of parameters.
    pub fn new(arity: usize, bindings: Vec<String>, body: Ast) -> (r: Self)
        requires
            arity == bindings@.len(),
        ensures
            r.bindings == bindings,
            *r.body == body,
    {
        LispLambda { bindings, body: Box::new(body) }
    }

    /// The number of arguments the closure accepts.
    pub fn arity(&self) -> (r: usize)
        ensures
            r == self.bindings@.len(),
    {
        self.bindings.len()
    }
}

impl LispType {
    /// The type tag of a value.
    pub fn of(value: &Ast) -> (r: LispType)
        ensures
            r == type_of(value@),
    {
        match value {
            Ast::Atom(LispAtom::Symbol(_)) => LispType::Symbol,
            Ast::Atom(LispAtom::String(_)) => LispType::String,
            Ast::Atom(LispAtom::Bool(_)) => LispType::Bool,
            Ast::Atom(LispAtom::Int(_)) => LispType::Int,
            Ast::Atom(LispAtom::Float(_)) => LispType::Float,
            Ast::List(_) => LispType::List,
            Ast::Function(_) => LispType::Function,
            Ast::Type(_) => LispType::Type,
            Ast::Unspecified => LispType::Unspecified,
        }
    }
}

} // verus!
