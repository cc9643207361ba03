//! The printed form of values: a pure function of the value.

use vstd::prelude::*;
use crate::ast::{Ast, LispAtom, LispType, Term, seq_view, lemma_list_view};
use crate::text::{push_str, string_of};

verus! {

/// The decimal digits of a natural number.
pub open spec fn nat_text(n: nat) -> Seq<char>
    decreases n,
{
    if n < 10 {
        seq![digit_char((n % 10) as nat)]
    } else {
        nat_text(n / 10) + seq![digit_char((n % 10) as nat)]
    }
}

pub open spec fn digit_char(d: nat) -> char {
    (('0' as nat) + d) as char
}

/// The decimal text of an integer, with a `-` if it is negative.
pub open spec fn int_text(n: int) -> Seq<char> {
    if n < 0 {
        seq!['-'] + nat_text((-n) as nat)
    } else {
        nat_text(n as nat)
    }
}

/// The name a type tag prints as.
pub open spec fn type_label(t: LispType) -> Seq<char> {
    match t {
        LispType::Int => "builtin type int"@,
        LispType::Float => "builtin type float"@,
        LispType::String => "builtin type string"@,
        LispType::Bool => "builtin type bool"@,
        LispType::List => "list"@,
        LispType::Function => "function"@,
        LispType::Type => "type"@,
        LispType::Symbol => "symbol"@,
        LispType::Unspecified => "unspecified"@,
    }
}

/// The printed form of a value. Strings print between double quotes, lists
/// as their elements separated by single spaces between parentheses, and
/// `Unspecified` as nothing.
pub open spec fn print_term(t: Term) -> Seq<char>
    decreases t,
{
    match t {
        Term::Symbol(s) => s,
        Term::Str(s) => seq!['"'] + s + seq!['"'],
        Term::Bool(b) => if b { "true"@ } else { "false"@ },
        Term::Int(n) => int_text(n),
        Term::Float(s) => s,
        Term::List(items) => seq!['('] + print_seq(items) + seq![')'],
        Term::Builtin(_) => "<function>"@,
        Term::Lambda(_, _) => "<function>"@,
        Term::Type(ty) => type_label(ty),
        Term::Unspecified => Seq::empty(),
    }
}

/// The printed forms of values separated by single spaces.
pub open spec fn print_seq(ts: Seq<Term>) -> Seq<char>
    decreases ts,
{
    if ts.len() == 0 {
        Seq::empty()
    } else if ts.len() == 1 {
        print_term(ts[0])
    } else {
        print_term(ts[0]) + seq![' '] + print_seq(ts.subrange(1, ts.len() as int))
    }
}

fn digit_of(d: u64) -> (r: char)
    requires
        d < 10,
    ensures
        r == digit_char(d as nat),
{
    match d {
        0 => '0',
        1 => '1',
        2 => '2',
        3 => '3',
        4 => '4',
        5 => '5',
        6 => '6',
        7 => '7',
        8 => '8',
        _ => '9',
    }
}

fn push_nat(out: &mut Vec<char>, n: u64)
    ensures
        final(out)@ == old(out)@ + nat_text(n as nat),
    decreases n,
{
    if n >= 10 {
        push_nat(out, n / 10);
    }
    out.push(digit_of(n % 10));
    assert(final(out)@ =~= old(out)@ + nat_text(n as nat));
}

proof fn lemma_print_seq_snoc(ts: Seq<Term>)
    requires
        ts.len() >= 2,
    ensures
        print_seq(ts) == print_seq(ts.drop_last()) + seq![' '] + print_term(ts.last()),
    decreases ts.len(),
{
    let rest = ts.subrange(1, ts.len() as int);
    if ts.len() == 2 {
        assert(ts.drop_last() =~= seq![ts[0]]);
        assert(rest =~= seq![ts[1]]);
        assert(print_seq(rest) == print_term(ts[1]));
        assert(print_seq(ts.drop_last()) == print_term(ts[0]));
    } else {
        lemma_print_seq_snoc(rest);
        assert(rest.drop_last() =~= ts.drop_last().subrange(1, ts.len() - 1));
        assert(print_seq(ts) =~= print_seq(ts.drop_last()) + seq![' '] + print_term(ts.last()));
    }
}

impl Ast {
    /// Appends the printed form of this value to `out`.
    pub fn write_to(&self, out: &mut Vec<char>)
        ensures
            final(out)@ == old(out)@ + print_term(self@),
        decreases self,
    {
        match self {
            Ast::Atom(LispAtom::Symbol(s)) => push_str(out, s.as_str()),
            Ast::Atom(LispAtom::String(s)) => {
                out.push('"');
                push_str(out, s.as_str());
                out.push('"');
                assert(final(out)@ =~= old(out)@ + print_term(self@));
            },
            Ast::Atom(LispAtom::Bool(b)) => {
                if *b {
                    push_str(out, "true");
                } else {
                    push_str(out, "false");
                }
            },
            Ast::Atom(LispAtom::Int(n)) => {
                if *n < 0 {
                    out.push('-');
                    let m: u64 = if *n == i64::MIN {
                        9223372036854775808u64
                    } else {
                        (-*n) as u64
                    };
                    push_nat(out, m);
                    assert(final(out)@ =~= old(out)@ + print_term(self@));
                } else {
                    push_nat(out, *n as u64);
                }
            },
            Ast::Atom(LispAtom::Float(s)) => push_str(out, s.as_str()),
            Ast::List(items) => {
                proof {
                    lemma_list_view(*items);
                }
                let ghost ts = seq_view(items@);
                out.push('(');
                let mut i: usize = 0;
                while i < items.len()
                    invariant
                        *self == Ast::List(*items),
                        self@ == Term::List(ts),
                        ts == seq_view(items@),
                        i <= items@.len(),
                        out@ == old(out)@ + seq!['('] + print_seq(ts.subrange(0, i as int)),
                    decreases items.len() - i,
                {
                    proof {
                        vstd::std_specs::vec::axiom_vec_index_decreases(*items, i as int);
                    }
                    let ghost before = out@;
                    if i > 0 {
                        out.push(' ');
                    }
                    items[i].write_to(out);
                    proof {
                        let p = ts.subrange(0, i + 1);
                        assert(p.drop_last() =~= ts.subrange(0, i as int));
                        assert(p.last() == items@[i as int]@);
                        if i > 0 {
                            lemma_print_seq_snoc(p);
                        } else {
                            assert(ts.subrange(0, 0) =~= Seq::<Term>::empty());
                        }
                        assert(out@ =~= old(out)@ + seq!['('] + print_seq(p));
                    }
                    i = i + 1;
                }
                out.push(')');
                assert(ts.subrange(0, items@.len() as int) =~= ts);
                assert(final(out)@ =~= old(out)@ + print_term(self@));
            },
            Ast::Function(_) => push_str(out, "<function>"),
            Ast::Type(t) => {
                let name = match t {
                    LispType::Int => "builtin type int",
                    LispType::Float => "builtin type float",
                    LispType::String => "builtin type string",
                    LispType::Bool => "builtin type bool",
                    LispType::List => "list",
                    LispType::Function => "function",
                    LispType::Type => "type",
                    LispType::Symbol => "symbol",
                    LispType::Unspecified => "unspecified",
                };
                push_str(out, name);
            },
            Ast::Unspecified => {
                assert(final(out)@ =~= old(out)@);
            },
        }
    }

    /// The printed form of this value.
    pub fn display(&self) -> (r: String)
        ensures
            r@ == print_term(self@),
    {
        let mut out: Vec<char> = Vec::new();
        self.write_to(&mut out);
        assert(out@ =~= print_term(self@));
        string_of(&out)
    }
}

} // verus!
