//! The reader: turns source text into expressions.
//!
//! The grammar, over characters:
//! - an expression is optional layout (space, tab, line feed, carriage return)
//!   followed by a list or an atom;
//! - a list is `(`, then expressions separated by layout, then optional
//!   layout and `)`;
//! - an atom is the first of: a float (`[+-]digits` followed by `.digits*`
//!   with an optional exponent, or by an exponent alone), an integer
//!   (`[+-]digits`, which must fit in 64 bits), a string (`"` up to the next
//!   `"`), `true`, `false`, or a symbol (symbol characters, the first of which
//!   is not a digit).

use vstd::prelude::*;
use crate::ast::{Ast, LispAtom, Term, seq_view, lemma_list_view};
use crate::builtins::in_i64;
use crate::error::{Fault, LispError};
use crate::text::{chars_of, text_between};

verus! {

/// Layout between expressions.
pub open spec fn is_space(c: char) -> bool {
    c == ' ' || c == '\t' || c == '\n' || c == '\r'
}

/// The characters with the Unicode `White_Space` property.
pub open spec fn is_white(c: char) -> bool {
    ('\u{9}' <= c <= '\u{d}') || c == ' ' || c == '\u{85}' || c == '\u{a0}' || c == '\u{1680}'
        || ('\u{2000}' <= c <= '\u{200a}') || c == '\u{2028}' || c == '\u{2029}' || c == '\u{202f}'
        || c == '\u{205f}' || c == '\u{3000}'
}

/// A character that may occur in a symbol.
pub open spec fn is_symbol_char(c: char) -> bool {
    c != '(' && c != ')' && c != '"' && c != ';' && !is_white(c)
}

pub open spec fn is_digit(c: char) -> bool {
    '0' <= c <= '9'
}

/// Whether `c` is whitespace in the sense of Unicode's `White_Space` property.
pub fn is_whitespace(c: char) -> (r: bool)
    ensures
        r == is_white(c),
{
    ('\u{9}' <= c && c <= '\u{d}') || c == ' ' || c == '\u{85}' || c == '\u{a0}' || c == '\u{1680}'
        || ('\u{2000}' <= c && c <= '\u{200a}') || c == '\u{2028}' || c == '\u{2029}' || c == '\u{202f}'
        || c == '\u{205f}' || c == '\u{3000}'
}

/// Whether `c` may occur in a symbol.
pub fn is_symbol_character(c: char) -> (r: bool)
    ensures
        r == is_symbol_char(c),
{
    c != '(' && c != ')' && c != '"' && c != ';' && !is_whitespace(c)
}

/// The classes of characters that tokens are runs of.
#[derive(Clone, Copy)]
pub enum CharClass {
    Space,
    Digit,
    SymbolChar,
    NotQuote,
}

pub open spec fn in_class(class: CharClass, c: char) -> bool {
    match class {
        CharClass::Space => is_space(c),
        CharClass::Digit => is_digit(c),
        CharClass::SymbolChar => is_symbol_char(c),
        CharClass::NotQuote => c != '"',
    }
}

/// The number of characters from `i` on that are in `class`.
pub open spec fn run_len(s: Seq<char>, i: int, class: CharClass) -> nat
    decreases s.len() - i,
{
    if 0 <= i < s.len() && in_class(class, s[i]) {
        1 + run_len(s, i + 1, class)
    } else {
        0
    }
}

pub open spec fn skip_space(s: Seq<char>, i: int) -> int {
    i + run_len(s, i, CharClass::Space)
}

pub open spec fn digits_len(s: Seq<char>, i: int) -> nat {
    run_len(s, i, CharClass::Digit)
}

pub open spec fn sign_len(s: Seq<char>, i: int) -> nat {
    if 0 <= i < s.len() && (s[i] == '+' || s[i] == '-') {
        1
    } else {
        0
    }
}

/// Where an integer token starting at `j` ends.
pub open spec fn int_end(s: Seq<char>, j: int) -> Option<int> {
    let k = j + sign_len(s, j);
    if digits_len(s, k) == 0 {
        None
    } else {
        Some(k + digits_len(s, k))
    }
}

/// Where an exponent starting at `k` ends.
pub open spec fn exponent_end(s: Seq<char>, k: int) -> Option<int> {
    if 0 <= k < s.len() && (s[k] == 'e' || s[k] == 'E') {
        let m = k + 1 + sign_len(s, k + 1);
        if digits_len(s, m) == 0 {
            None
        } else {
            Some(m + digits_len(s, m))
        }
    } else {
        None
    }
}

/// Where a float token starting at `j` ends.
pub open spec fn float_end(s: Seq<char>, j: int) -> Option<int> {
    let k = j + sign_len(s, j);
    let n = digits_len(s, k);
    if n == 0 {
        None
    } else {
        let p = k + n;
        if 0 <= p < s.len() && s[p] == '.' {
            let q = p + 1 + digits_len(s, p + 1);
            match exponent_end(s, q) {
                Some(e) => Some(e),
                None => Some(q),
            }
        } else {
            exponent_end(s, p)
        }
    }
}

/// The value of the decimal digits `s[a..b]`.
pub open spec fn digits_value(s: Seq<char>, a: int, b: int) -> int
    decreases b - a,
{
    if b <= a {
        0
    } else {
        digits_value(s, a, b - 1) * 10 + (s[b - 1] as int - '0' as int)
    }
}

/// The value of the integer token `s[j..e]`.
pub open spec fn int_value(s: Seq<char>, j: int, e: int) -> int {
    let k = j + sign_len(s, j);
    if s[j] == '-' {
        -digits_value(s, k, e)
    } else {
        digits_value(s, k, e)
    }
}

/// Whether `s` holds `w` at `j`.
pub open spec fn holds_at(s: Seq<char>, j: int, w: Seq<char>) -> bool {
    0 <= j && j + w.len() <= s.len() && s.subrange(j, j + w.len()) == w
}

/// The atom that starts at `j`, and where it ends.
pub open spec fn parse_atom_spec(s: Seq<char>, j: int) -> Option<(Term, int)> {
    if float_end(s, j) is Some {
        let e = float_end(s, j)->Some_0;
        Some((Term::Float(s.subrange(j, e)), e))
    } else if int_end(s, j) is Some {
        let e = int_end(s, j)->Some_0;
        if in_i64(int_value(s, j, e)) {
            Some((Term::Int(int_value(s, j, e)), e))
        } else {
            None
        }
    } else if 0 <= j < s.len() && s[j] == '"' {
        let q = j + 1 + run_len(s, j + 1, CharClass::NotQuote);
        if q < s.len() {
            Some((Term::Str(s.subrange(j + 1, q)), q + 1))
        } else {
            None
        }
    } else if holds_at(s, j, "true"@) {
        Some((Term::Bool(true), j + 4))
    } else if holds_at(s, j, "false"@) {
        Some((Term::Bool(false), j + 5))
    } else {
        parse_symbol_spec(s, j)
    }
}

/// The symbol that starts at `j`, and where it ends.
pub open spec fn parse_symbol_spec(s: Seq<char>, j: int) -> Option<(Term, int)> {
    if 0 <= j < s.len() && is_symbol_char(s[j]) && !is_digit(s[j]) {
        let e = j + 1 + run_len(s, j + 1, CharClass::SymbolChar);
        Some((Term::Symbol(s.subrange(j, e)), e))
    } else {
        None
    }
}

/// A list that starts right at `j`.
pub open spec fn list_at_spec(s: Seq<char>, j: int) -> Option<(Term, int)> {
    if 0 <= j < s.len() && s[j] == '(' {
        parse_list_spec(s, j + 1)
    } else {
        None
    }
}

/// Whether a text-level result agrees with a parse outcome: the value and the
/// text after it, or a parse error carrying the whole input.
pub open spec fn reads_as(outcome: Option<(Term, int)>, input: Seq<char>, r: Result<(String, Ast), LispError>) -> bool {
    match outcome {
        Some((t, e)) => r is Ok && r->Ok_0.1@ == t && r->Ok_0.0@ == input.subrange(e, input.len() as int),
        None => r is Err && r->Err_0@ == Fault::ParseError(input),
    }
}

/// The expression that starts at `i` (after optional layout), and where it ends.
pub open spec fn parse_expr_spec(s: Seq<char>, i: int) -> Option<(Term, int)>
    decreases s.len() - i, 2nat,
{
    let j = skip_space(s, i);
    if 0 <= i && j < s.len() && s[j] == '(' {
        parse_list_spec(s, j + 1)
    } else {
        parse_atom_spec(s, j)
    }
}

/// The elements after one that ended at `e`: each is preceded by layout.
pub open spec fn parse_items_spec(s: Seq<char>, e: int) -> (Seq<Term>, int)
    decreases s.len() - e, 3nat,
{
    if 0 <= e < s.len() && is_space(s[e]) {
        match parse_expr_spec(s, e) {
            Some((t, e2)) => if e < e2 <= s.len() {
                let (ts, e3) = parse_items_spec(s, e2);
                (seq![t] + ts, e3)
            } else {
                (Seq::empty(), e)
            },
            None => (Seq::empty(), e),
        }
    } else {
        (Seq::empty(), e)
    }
}

/// A list whose `(` ends at `i`.
pub open spec fn parse_list_spec(s: Seq<char>, i: int) -> Option<(Term, int)>
    decreases s.len() - i, 4nat,
{
    match parse_expr_spec(s, i) {
        None => close_list(s, i, Seq::empty()),
        Some((t, e)) => if i < e <= s.len() {
            let (ts, e2) = parse_items_spec(s, e);
            close_list(s, e2, seq![t] + ts)
        } else {
            None
        },
    }
}

/// Optional layout and the `)` that closes a list of `items`.
pub open spec fn close_list(s: Seq<char>, k: int, items: Seq<Term>) -> Option<(Term, int)> {
    let m = skip_space(s, k);
    if 0 <= m < s.len() && s[m] == ')' {
        Some((Term::List(items), m + 1))
    } else {
        None
    }
}

/// The expressions of a whole text: each parsed after the previous one,
/// with only layout allowed after the last; otherwise the text from where an
/// expression could not be read.
pub open spec fn parse_program_spec(s: Seq<char>, i: int) -> Result<Seq<Term>, Seq<char>>
    decreases s.len() - i,
{
    if skip_space(s, i) >= s.len() {
        Ok(Seq::empty())
    } else {
        match parse_expr_spec(s, i) {
            Some((t, e)) => if 0 <= i < e <= s.len() {
                match parse_program_spec(s, e) {
                    Ok(ts) => Ok(seq![t] + ts),
                    Err(rest) => Err(rest),
                }
            } else {
                Err(s.subrange(i, s.len() as int))
            },
            None => Err(s.subrange(i, s.len() as int)),
        }
    }
}

fn class_holds(class: CharClass, c: char) -> (r: bool)
    ensures
        r == in_class(class, c),
{
    match class {
        CharClass::Space => c == ' ' || c == '\t' || c == '\n' || c == '\r',
        CharClass::Digit => '0' <= c && c <= '9',
        CharClass::SymbolChar => is_symbol_character(c),
        CharClass::NotQuote => c != '"',
    }
}

/// The end of the run of `class` characters that starts at `i`.
pub(crate) fn run_end(cs: &Vec<char>, i: usize, class: CharClass) -> (r: usize)
    requires
        i <= cs@.len(),
    ensures
        r == i + run_len(cs@, i as int, class),
        r <= cs@.len(),
{
    let mut k: usize = i;
    while k < cs.len() && class_holds(class, cs[k])
        invariant
            i <= k <= cs@.len(),
            run_len(cs@, i as int, class) == (k - i) + run_len(cs@, k as int, class),
        decreases cs.len() - k,
    {
        k = k + 1;
    }
    k
}

fn sign_at(cs: &Vec<char>, i: usize) -> (r: usize)
    requires
        i <= cs@.len(),
    ensures
        r == sign_len(cs@, i as int),
        i + r <= cs.len(),
{
    if i < cs.len() && (cs[i] == '+' || cs[i] == '-') {
        1
    } else {
        0
    }
}

fn exponent_at(cs: &Vec<char>, k: usize) -> (r: Option<usize>)
    requires
        k <= cs@.len(),
    ensures
        r matches Some(e) ==> exponent_end(cs@, k as int) == Some(e as int) && k < e <= cs@.len(),
        r is None ==> exponent_end(cs@, k as int) is None,
{
    if k < cs.len() && (cs[k] == 'e' || cs[k] == 'E') {
        let m = k + 1 + sign_at(cs, k + 1);
        let e = run_end(cs, m, CharClass::Digit);
        if e == m {
            None
        } else {
            Some(e)
        }
    } else {
        None
    }
}

fn float_at(cs: &Vec<char>, j: usize) -> (r: Option<usize>)
    requires
        j <= cs@.len(),
    ensures
        r matches Some(e) ==> float_end(cs@, j as int) == Some(e as int) && j < e <= cs@.len(),
        r is None ==> float_end(cs@, j as int) is None,
{
    let k = j + sign_at(cs, j);
    let p = run_end(cs, k, CharClass::Digit);
    if p == k {
        return None;
    }
    if p < cs.len() && cs[p] == '.' {
        let q = run_end(cs, p + 1, CharClass::Digit);
        match exponent_at(cs, q) {
            Some(e) => Some(e),
            None => Some(q),
        }
    } else {
        exponent_at(cs, p)
    }
}

proof fn lemma_digits_value_grows(s: Seq<char>, a: int, k: int, b: int)
    requires
        a <= k <= b <= s.len(),
        0 <= a,
        forall|x: int| a <= x < b ==> is_digit(#[trigger] s[x]),
    ensures
        0 <= digits_value(s, a, k) <= digits_value(s, a, b),
    decreases b - a,
{
    if k < b {
        lemma_digits_value_grows(s, a, k, b - 1);
        assert(is_digit(s[b - 1]));
    } else if a < k {
        lemma_digits_value_grows(s, a, k - 1, k - 1);
        assert(is_digit(s[k - 1]));
    }
}

proof fn lemma_run_all(s: Seq<char>, i: int, class: CharClass, x: int)
    requires
        0 <= i <= x < i + run_len(s, i, class),
    ensures
        in_class(class, s[x]),
    decreases x - i,
{
    if x > i {
        lemma_run_all(s, i + 1, class, x);
    }
}

/// The value of the digits `cs[a..b]`, or `None` if it exceeds `u64::MAX`.
pub(crate) fn digits_number(cs: &Vec<char>, a: usize, b: usize) -> (r: Option<u64>)
    requires
        a <= b <= cs@.len(),
        forall|x: int| a <= x < b ==> is_digit(#[trigger] cs@[x]),
    ensures
        r matches Some(v) ==> v as int == digits_value(cs@, a as int, b as int),
        r is None ==> digits_value(cs@, a as int, b as int) > u64::MAX,
{
    let mut acc: u64 = 0;
    let mut k: usize = a;
    while k < b
        invariant
            a <= k <= b <= cs@.len(),
            forall|x: int| a <= x < b ==> is_digit(#[trigger] cs@[x]),
            acc as int == digits_value(cs@, a as int, k as int),
        decreases b - k,
    {
        let d = (cs[k] as u32 - '0' as u32) as u64;
        assert(is_digit(cs@[k as int]));
        let next = match acc.checked_mul(10) {
            Some(t) => t.checked_add(d),
            None => None,
        };
        match next {
            Some(v) => {
                acc = v;
            },
            None => {
                proof {
                    lemma_digits_value_grows(cs@, a as int, k + 1, b as int);
                }
                return None;
            },
        }
        k = k + 1;
    }
    Some(acc)
}

fn int_atom(cs: &Vec<char>, j: usize, e: usize) -> (r: Option<Ast>)
    requires
        int_end(cs@, j as int) == Some(e as int),
        e <= cs@.len(),
    ensures
        r matches Some(a) ==> in_i64(int_value(cs@, j as int, e as int)) && a@ == Term::Int(int_value(cs@, j as int, e as int)),
        r is None ==> !in_i64(int_value(cs@, j as int, e as int)),
{
    let k = j + sign_at(cs, j);
    proof {
        assert forall|x: int| k <= x < e implies is_digit(#[trigger] cs@[x]) by {
            lemma_run_all(cs@, k as int, CharClass::Digit, x);
        }
    }
    let negative = cs[j] == '-';
    match digits_number(cs, k, e) {
        None => None,
        Some(v) => {
            if negative {
                if v <= 9223372036854775807u64 {
                    Some(Ast::Atom(LispAtom::Int(-(v as i64))))
                } else if v == 9223372036854775808u64 {
                    Some(Ast::Atom(LispAtom::Int(i64::MIN)))
                } else {
                    None
                }
            } else {
                if v <= 9223372036854775807u64 {
                    Some(Ast::Atom(LispAtom::Int(v as i64)))
                } else {
                    None
                }
            }
        },
    }
}

/// Whether `cs` holds the word `w` at `j`.
fn holds_word(cs: &Vec<char>, j: usize, w: &str) -> (r: bool)
    requires
        j <= cs@.len(),
    ensures
        r == holds_at(cs@, j as int, w@),
{
    let ws = chars_of(w);
    if cs.len() - j < ws.len() {
        return false;
    }
    let mut i: usize = 0;
    while i < ws.len()
        invariant
            ws@ == w@,
            j <= cs@.len(),
            j + ws@.len() <= cs@.len(),
            i <= ws@.len(),
            forall|x: int| 0 <= x < i ==> cs@[j + x] == #[trigger] ws@[x],
        decreases ws.len() - i,
    {
        assert(j + i < cs.len());
        if cs[j + i] != ws[i] {
            assert(cs@.subrange(j as int, j + ws@.len())[i as int] != ws@[i as int]);
            return false;
        }
        i = i + 1;
    }
    assert(cs@.subrange(j as int, j + ws@.len()) =~= ws@);
    true
}

/// The atom that starts at `j`, and where it ends.
fn parse_atom_at(cs: &Vec<char>, j: usize) -> (r: Option<(Ast, usize)>)
    requires
        j <= cs@.len(),
    ensures
        r matches Some((a, e)) ==> parse_atom_spec(cs@, j as int) == Some((a@, e as int)) && j < e <= cs@.len(),
        r is None ==> parse_atom_spec(cs@, j as int) is None,
{
    if let Some(e) = float_at(cs, j) {
        return Some((Ast::Atom(LispAtom::Float(text_between(cs, j, e))), e));
    }
    let k = j + sign_at(cs, j);
    let d = run_end(cs, k, CharClass::Digit);
    if d > k {
        assert(int_end(cs@, j as int) == Some(d as int));
        return match int_atom(cs, j, d) {
            Some(a) => Some((a, d)),
            None => None,
        };
    }
    assert(int_end(cs@, j as int) is None);
    if j < cs.len() && cs[j] == '"' {
        let q = run_end(cs, j + 1, CharClass::NotQuote);
        if q < cs.len() {
            return Some((Ast::Atom(LispAtom::String(text_between(cs, j + 1, q))), q + 1));
        } else {
            return None;
        }
    }
    if holds_word(cs, j, "true") {
        proof {
            reveal_strlit("true");
        }
        return Some((Ast::Atom(LispAtom::Bool(true)), j + 4));
    }
    if holds_word(cs, j, "false") {
        proof {
            reveal_strlit("false");
        }
        return Some((Ast::Atom(LispAtom::Bool(false)), j + 5));
    }
    parse_symbol_at(cs, j)
}

fn parse_symbol_at(cs: &Vec<char>, j: usize) -> (r: Option<(Ast, usize)>)
    requires
        j <= cs@.len(),
    ensures
        r matches Some((a, e)) ==> parse_symbol_spec(cs@, j as int) == Some((a@, e as int)) && j < e <= cs@.len(),
        r is None ==> parse_symbol_spec(cs@, j as int) is None,
{
    if j < cs.len() && is_symbol_character(cs[j]) && !('0' <= cs[j] && cs[j] <= '9') {
        let e = run_end(cs, j + 1, CharClass::SymbolChar);
        return Some((Ast::Atom(LispAtom::Symbol(text_between(cs, j, e))), e));
    }
    None
}

fn read_result(cs: &Vec<char>, input: &str, outcome: Option<(Ast, usize)>) -> (r: Result<(String, Ast), LispError>)
    requires
        cs@ == input@,
        outcome matches Some((_, e)) ==> e <= cs@.len(),
    ensures
        match outcome {
            Some((a, e)) => r is Ok && r->Ok_0.1@ == a@ && r->Ok_0.0@ == input@.subrange(e as int, input@.len() as int),
            None => r is Err && r->Err_0@ == Fault::ParseError(input@),
        },
{
    match outcome {
        Some((a, e)) => Ok((text_between(cs, e, cs.len()), a)),
        None => Err(LispError::ParseError(input.to_owned())),
    }
}

/// Parse a symbol at the very start of `input`.
pub fn parse_symbol(input: &str) -> (r: Result<(String, Ast), LispError>)
    ensures
        reads_as(parse_symbol_spec(input@, 0), input@, r),
{
    let cs = chars_of(input);
    let outcome = parse_symbol_at(&cs, 0);
    read_result(&cs, input, outcome)
}

/// Parse an atom at the very start of `input`.
pub fn parse_atom(input: &str) -> (r: Result<(String, Ast), LispError>)
    ensures
        reads_as(parse_atom_spec(input@, 0), input@, r),
{
    let cs = chars_of(input);
    let outcome = parse_atom_at(&cs, 0);
    read_result(&cs, input, outcome)
}

/// Parse a list that starts with the very first character of `input`.
pub fn parse_list(input: &str) -> (r: Result<(String, Ast), LispError>)
    ensures
        reads_as(list_at_spec(input@, 0), input@, r),
{
    let cs = chars_of(input);
    let outcome = if cs.len() > 0 && cs[0] == '(' {
        parse_list_at(&cs, 1)
    } else {
        None
    };
    read_result(&cs, input, outcome)
}

/// The expression that starts at `i` (after optional layout), and where it ends.
pub fn parse_expr_at(cs: &Vec<char>, i: usize) -> (r: Option<(Ast, usize)>)
    requires
        i <= cs@.len(),
    ensures
        r matches Some((a, e)) ==> parse_expr_spec(cs@, i as int) == Some((a@, e as int)) && i < e <= cs@.len(),
        r is None ==> parse_expr_spec(cs@, i as int) is None,
    decreases cs@.len() - i, 2nat,
{
    let j = run_end(cs, i, CharClass::Space);
    if j < cs.len() && cs[j] == '(' {
        parse_list_at(cs, j + 1)
    } else {
        parse_atom_at(cs, j)
    }
}

fn parse_items_at(cs: &Vec<char>, e: usize) -> (r: (Vec<Ast>, usize))
    requires
        e <= cs@.len(),
    ensures
        parse_items_spec(cs@, e as int) == (seq_view(r.0@), r.1 as int),
        e <= r.1 <= cs@.len(),
    decreases cs@.len() - e, 3nat,
{
    if e < cs.len() && class_holds(CharClass::Space, cs[e]) {
        match parse_expr_at(cs, e) {
            Some((t, e2)) => {
                let (mut ts, e3) = parse_items_at(cs, e2);
                let ghost tail = seq_view(ts@);
                ts.insert(0, t);
                assert(seq_view(ts@) =~= seq![t@] + tail);
                (ts, e3)
            },
            None => {
                let v: Vec<Ast> = Vec::new();
                assert(seq_view(v@) =~= Seq::<Term>::empty());
                (v, e)
            },
        }
    } else {
        let v: Vec<Ast> = Vec::new();
        assert(seq_view(v@) =~= Seq::<Term>::empty());
        (v, e)
    }
}

fn close_list_at(cs: &Vec<char>, k: usize, items: Vec<Ast>) -> (r: Option<(Ast, usize)>)
    requires
        k <= cs@.len(),
    ensures
        r matches Some((a, e)) ==> close_list(cs@, k as int, seq_view(items@)) == Some((a@, e as int)) && k < e <= cs@.len(),
        r is None ==> close_list(cs@, k as int, seq_view(items@)) is None,
{
    let m = run_end(cs, k, CharClass::Space);
    if m < cs.len() && cs[m] == ')' {
        proof {
            lemma_list_view(items);
        }
        Some((Ast::List(items), m + 1))
    } else {
        None
    }
}

fn parse_list_at(cs: &Vec<char>, i: usize) -> (r: Option<(Ast, usize)>)
    requires
        i <= cs@.len(),
    ensures
        r matches Some((a, e)) ==> parse_list_spec(cs@, i as int) == Some((a@, e as int)) && i < e <= cs@.len(),
        r is None ==> parse_list_spec(cs@, i as int) is None,
    decreases cs@.len() - i, 4nat,
{
    match parse_expr_at(cs, i) {
        None => {
            let v: Vec<Ast> = Vec::new();
            assert(seq_view(v@) =~= Seq::<Term>::empty());
            close_list_at(cs, i, v)
        },
        Some((t, e)) => {
            let (mut ts, e2) = parse_items_at(cs, e);
            let ghost tail = seq_view(ts@);
            ts.insert(0, t);
            assert(seq_view(ts@) =~= seq![t@] + tail);
            close_list_at(cs, e2, ts)
        },
    }
}

/// Parse a lisp expression at the start of `input`, after optional layout.
/// Returns the text after it and the expression.
pub fn parse_expr(input: &str) -> (r: Result<(String, Ast), LispError>)
    ensures
        reads_as(parse_expr_spec(input@, 0), input@, r),
{
    let cs = chars_of(input);
    let outcome = parse_expr_at(&cs, 0);
    read_result(&cs, input, outcome)
}

/// Parse a lisp expression that makes up the whole of `input` (after
/// optional leading layout); the text returned after it is empty.
pub fn parse_complete_expr(input: &str) -> (r: Result<(String, Ast), LispError>)
    ensures
        match parse_expr_spec(input@, 0) {
            Some((t, e)) => if e == input@.len() {
                r is Ok && r->Ok_0.1@ == t && r->Ok_0.0@.len() == 0
            } else {
                r is Err && r->Err_0@ == Fault::ParseError(input@)
            },
            None => r is Err && r->Err_0@ == Fault::ParseError(input@),
        },
{
    let cs = chars_of(input);
    match parse_expr_at(&cs, 0) {
        Some((a, e)) => {
            if e == cs.len() {
                Ok((text_between(&cs, e, cs.len()), a))
            } else {
                Err(LispError::ParseError(input.to_owned()))
            }
        },
        None => Err(LispError::ParseError(input.to_owned())),
    }
}

/// The result of parsing the rest of a program once `done` has been read.
pub open spec fn after(done: Seq<Term>, rest: Result<Seq<Term>, Seq<char>>) -> Result<Seq<Term>, Seq<char>> {
    match rest {
        Ok(ts) => Ok(done + ts),
        Err(e) => Err(e),
    }
}

/// Parse every expression of a program text; trailing layout is allowed.
/// Fails with the text from the first expression that cannot be read.
pub fn parse_program(input: &str) -> (r: Result<Vec<Ast>, LispError>)
    ensures
        match parse_program_spec(input@, 0) {
            Ok(ts) => r is Ok && seq_view(r->Ok_0@) == ts,
            Err(rest) => r is Err && r->Err_0@ == Fault::ParseError(rest),
        },
{
    let cs = chars_of(input);
    let mut exprs: Vec<Ast> = Vec::new();
    let mut pos: usize = 0;
    assert(seq_view(exprs@) =~= Seq::<Term>::empty());
    assert(parse_program_spec(cs@, 0) == after(seq_view(exprs@), parse_program_spec(cs@, 0)));
    loop
        invariant
            cs@ == input@,
            pos <= cs@.len(),
            parse_program_spec(cs@, 0) == after(seq_view(exprs@), parse_program_spec(cs@, pos as int)),
        decreases cs@.len() - pos,
    {
        let j = run_end(&cs, pos, CharClass::Space);
        if j >= cs.len() {
            assert(parse_program_spec(cs@, pos as int) == Ok::<Seq<Term>, Seq<char>>(Seq::empty()));
            assert(seq_view(exprs@) + Seq::<Term>::empty() =~= seq_view(exprs@));
            return Ok(exprs);
        }
        match parse_expr_at(&cs, pos) {
            Some((a, e)) => {
                let ghost before = seq_view(exprs@);
                exprs.push(a);
                assert(seq_view(exprs@) =~= before.push(a@));
                proof {
                    let rest = parse_program_spec(cs@, e as int);
                    match rest {
                        Ok(ts) => {
                            assert(before + (seq![a@] + ts) =~= seq_view(exprs@) + ts);
                        },
                        Err(_) => {},
                    }
                }
                pos = e;
            },
            None => {
                return Err(LispError::ParseError(text_between(&cs, pos, cs.len())));
            },
        }
    }
}

} // verus!
