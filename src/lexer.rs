//! A tokenizer for source text: splits it into located tokens.

use vstd::prelude::*;
use crate::parser::{
    CharClass, run_len, digits_len, digits_value, is_digit, is_symbol_char, is_symbol_character, is_white,
    is_whitespace, run_end, digits_number,
};
use crate::text::text_between;

verus! {

/// Where a token starts: its line and its column, both counted from zero.
#[derive(Debug, Clone, Copy, PartialEq, Eq, Structural)]
pub struct Location {
    pub line: usize,
    pub column: usize,
}

impl Location {
    pub fn new(line: usize, column: usize) -> (r: Self)
        ensures
            r.line == line,
            r.column == column,
    {
        Location { line, column }
    }
}

/// The kinds of tokens.
#[derive(Debug)]
pub enum TokenKind {
    LParen,
    RParen,
    Plus,
    Minus,
    Times,
    Divide,
    SingleQuote,
    Dot,
    Newline,
    /// A string literal, without its quotes.
    String(String),
    /// An integer literal.
    Integer(isize),
    /// A single-precision literal, kept as its text.
    Float(String),
    /// A double-precision literal, kept as its text.
    Double(String),
    /// `true` or `false`.
    Boolean(bool),
    /// A name: a letter or `_`, then identifier characters.
    Identifier(String),
    Invalid,
}

/// The model of a [`TokenKind`].
pub enum TokenTerm {
    LParen,
    RParen,
    Plus,
    Minus,
    Times,
    Divide,
    SingleQuote,
    Dot,
    Newline,
    Str(Seq<char>),
    Integer(int),
    Float(Seq<char>),
    Double(Seq<char>),
    Boolean(bool),
    Identifier(Seq<char>),
    Invalid,
}

impl View for TokenKind {
    type V = TokenTerm;

    open spec fn view(&self) -> TokenTerm {
        match self {
            TokenKind::LParen => TokenTerm::LParen,
            TokenKind::RParen => TokenTerm::RParen,
            TokenKind::Plus => TokenTerm::Plus,
            TokenKind::Minus => TokenTerm::Minus,
            TokenKind::Times => TokenTerm::Times,
            TokenKind::Divide => TokenTerm::Divide,
            TokenKind::SingleQuote => TokenTerm::SingleQuote,
            TokenKind::Dot => TokenTerm::Dot,
            TokenKind::Newline => TokenTerm::Newline,
            TokenKind::String(s) => TokenTerm::Str(s@),
            TokenKind::Integer(n) => TokenTerm::Integer(*n as int),
            TokenKind::Float(s) => TokenTerm::Float(s@),
            TokenKind::Double(s) => TokenTerm::Double(s@),
            TokenKind::Boolean(b) => TokenTerm::Boolean(*b),
            TokenKind::Identifier(s) => TokenTerm::Identifier(s@),
            TokenKind::Invalid => TokenTerm::Invalid,
        }
    }
}

/// A token and where it starts.
#[derive(Debug)]
pub struct Token {
    pub loc: Location,
    pub kind: TokenKind,
}

impl Token {
    pub fn new(line: usize, column: usize, kind: TokenKind) -> (r: Self)
        ensures
            r.loc.line == line,
            r.loc.column == column,
            r.kind == kind,
    {
        Token { loc: Location { line, column }, kind }
    }
}

/// Why a text could not be tokenized.
#[derive(Debug, Clone, Copy, PartialEq, Eq, Structural)]
pub enum LexErrKind {
    /// A string literal has no closing quote.
    UnclosedString,
    /// A character that starts no token.
    UnexpectedChar(char),
    /// An integer literal beyond the range of `isize`.
    NumberTooLarge,
}

/// A tokenizing error and where it occurred.
#[derive(Debug, Clone, Copy, PartialEq, Eq, Structural)]
pub struct LexError {
    pub loc: Location,
    pub kind: LexErrKind,
}

impl LexError {
    pub fn new(loc: Location, kind: LexErrKind) -> (r: Self)
        ensures
            r.loc == loc,
            r.kind == kind,
    {
        LexError { loc, kind }
    }
}

/// Whether `c` may continue an identifier.
pub fn is_ident_char(c: char) -> (r: bool)
    ensures
        r == is_symbol_char(c),
{
    is_symbol_character(c)
}

/// The model of a token: line, column and kind.
pub type LexToken = (int, int, TokenTerm);

/// The model of a tokenizing error: line, column and kind.
pub type LexFault = (int, int, LexErrKind);

/// The token that a single character makes by itself, if any.
pub open spec fn single_char_token(c: char) -> Option<TokenTerm> {
    if c == '(' {
        Some(TokenTerm::LParen)
    } else if c == ')' {
        Some(TokenTerm::RParen)
    } else if c == '\'' {
        Some(TokenTerm::SingleQuote)
    } else if c == '.' {
        Some(TokenTerm::Dot)
    } else if c == '+' {
        Some(TokenTerm::Plus)
    } else if c == '-' {
        Some(TokenTerm::Minus)
    } else if c == '*' {
        Some(TokenTerm::Times)
    } else if c == '/' {
        Some(TokenTerm::Divide)
    } else {
        None
    }
}

pub open spec fn is_ident_start(c: char) -> bool {
    ('a' <= c <= 'z') || ('A' <= c <= 'Z') || c == '_'
}

/// The number of line feeds in `s[a..b]`.
pub open spec fn line_feeds(s: Seq<char>, a: int, b: int) -> int
    decreases b - a,
{
    if b <= a {
        0
    } else {
        line_feeds(s, a, b - 1) + if s[b - 1] == '\n' { 1int } else { 0int }
    }
}

/// The start of the line that position `b` is on, given that the line at `a`
/// starts at `bol`.
pub open spec fn line_start(s: Seq<char>, a: int, b: int, bol: int) -> int
    decreases b - a,
{
    if b <= a {
        bol
    } else if s[b - 1] == '\n' {
        b
    } else {
        line_start(s, a, b - 1, bol)
    }
}

pub open spec fn prepend(t: LexToken, rest: Result<Seq<LexToken>, LexFault>) -> Result<Seq<LexToken>, LexFault> {
    match rest {
        Ok(ts) => Ok(seq![t] + ts),
        Err(e) => Err(e),
    }
}

/// The tokens of `s` from position `i` on, where the current line has number
/// `line` and starts at `bol`.
pub open spec fn lex_spec(s: Seq<char>, i: int, line: int, bol: int) -> Result<Seq<LexToken>, LexFault>
    decreases s.len() - i
    via lex_spec_decreases
{
    if i < 0 || i >= s.len() {
        Ok(Seq::empty())
    } else {
        let c = s[i];
        let col = i - bol;
        if single_char_token(c) is Some {
            prepend((line, col, single_char_token(c)->Some_0), lex_spec(s, i + 1, line, bol))
        } else if c == '\n' {
            prepend((line, col, TokenTerm::Newline), lex_spec(s, i + 1, line + 1, i + 1))
        } else if c == '"' {
            let q = i + 1 + run_len(s, i + 1, CharClass::NotQuote);
            if q >= s.len() {
                Err((line, col, LexErrKind::UnclosedString))
            } else {
                prepend(
                    (line, col, TokenTerm::Str(s.subrange(i + 1, q))),
                    lex_spec(s, q + 1, line + line_feeds(s, i + 1, q), line_start(s, i + 1, q, bol)),
                )
            }
        } else if is_digit(c) {
            let e = i + digits_len(s, i);
            if digits_value(s, i, e) > isize::MAX {
                Err((line, col, LexErrKind::NumberTooLarge))
            } else {
                prepend((line, col, TokenTerm::Integer(digits_value(s, i, e))), lex_spec(s, e, line, bol))
            }
        } else if is_ident_start(c) {
            let e = i + 1 + run_len(s, i + 1, CharClass::SymbolChar);
            let word = s.subrange(i, e);
            let kind = if word == "true"@ {
                TokenTerm::Boolean(true)
            } else if word == "false"@ {
                TokenTerm::Boolean(false)
            } else {
                TokenTerm::Identifier(word)
            };
            prepend((line, col, kind), lex_spec(s, e, line, bol))
        } else if is_white(c) {
            lex_spec(s, i + 1, line, bol)
        } else {
            Err((line, col, LexErrKind::UnexpectedChar(c)))
        }
    }
}

proof fn lemma_run_bound(s: Seq<char>, i: int, class: CharClass)
    requires
        0 <= i <= s.len(),
    ensures
        i + run_len(s, i, class) <= s.len(),
    decreases s.len() - i,
{
    if i < s.len() {
        lemma_run_bound(s, i + 1, class);
    }
}

#[via_fn]
proof fn lex_spec_decreases(s: Seq<char>, i: int, line: int, bol: int) {
    if 0 <= i < s.len() {
        lemma_run_bound(s, i + 1, CharClass::NotQuote);
        lemma_run_bound(s, i, CharClass::Digit);
        lemma_run_bound(s, i + 1, CharClass::SymbolChar);
    }
}

/// The model of a token.
pub open spec fn token_view(t: Token) -> LexToken {
    (t.loc.line as int, t.loc.column as int, t.kind@)
}

pub open spec fn tokens_view(ts: Seq<Token>) -> Seq<LexToken> {
    Seq::new(ts.len(), |i: int| token_view(ts[i]))
}

pub open spec fn after_tokens(done: Seq<LexToken>, rest: Result<Seq<LexToken>, LexFault>) -> Result<Seq<LexToken>, LexFault> {
    match rest {
        Ok(ts) => Ok(done + ts),
        Err(e) => Err(e),
    }
}

fn single_char_kind(c: char) -> (r: Option<TokenKind>)
    ensures
        match r {
            Some(k) => single_char_token(c) == Some(k@),
            None => single_char_token(c) is None,
        },
{
    if c == '(' {
        Some(TokenKind::LParen)
    } else if c == ')' {
        Some(TokenKind::RParen)
    } else if c == '\'' {
        Some(TokenKind::SingleQuote)
    } else if c == '.' {
        Some(TokenKind::Dot)
    } else if c == '+' {
        Some(TokenKind::Plus)
    } else if c == '-' {
        Some(TokenKind::Minus)
    } else if c == '*' {
        Some(TokenKind::Times)
    } else if c == '/' {
        Some(TokenKind::Divide)
    } else {
        None
    }
}

/// Turn a string into a vector of located tokens. Layout other than line
/// feeds is skipped; a line feed is a token of its own.
pub fn tokenize(input: &str) -> (r: Result<Vec<Token>, LexError>)
    ensures
        match lex_spec(input@, 0, 0, 0) {
            Ok(ts) => r is Ok && tokens_view(r->Ok_0@) == ts,
            Err(e) => r is Err && (r->Err_0.loc.line as int, r->Err_0.loc.column as int, r->Err_0.kind) == e,
        },
{
    let cs = crate::text::chars_of(input);
    let mut tokens: Vec<Token> = Vec::new();
    let mut cur: usize = 0;
    let mut line: usize = 0;
    let mut bol: usize = 0;
    assert(tokens_view(tokens@) =~= Seq::<LexToken>::empty());
    assert(lex_spec(cs@, 0, 0, 0) == after_tokens(Seq::empty(), lex_spec(cs@, 0, 0, 0))) by {
        match lex_spec(cs@, 0, 0, 0) {
            Ok(ts) => {
                assert(Seq::<LexToken>::empty() + ts =~= ts);
            },
            Err(_) => {},
        }
    }
    while cur < cs.len()
        invariant
            cs@ == input@,
            cur <= cs@.len(),
            bol <= cur,
            line <= cur,
            lex_spec(cs@, 0, 0, 0) == after_tokens(tokens_view(tokens@), lex_spec(cs@, cur as int, line as int, bol as int)),
        decreases cs@.len() - cur,
    {
        let c = cs[cur];
        let col = cur - bol;
        let ghost done = tokens_view(tokens@);
        let ghost rest_before = lex_spec(cs@, cur as int, line as int, bol as int);
        if let Some(kind) = single_char_kind(c) {
            let t = Token::new(line, col, kind);
            tokens.push(t);
            assert(tokens_view(tokens@) =~= done.push(token_view(t)));
            cur = cur + 1;
            proof {
                match lex_spec(cs@, cur as int, line as int, bol as int) {
                    Ok(ts) => {
                        assert(done + (seq![token_view(t)] + ts) =~= tokens_view(tokens@) + ts);
                    },
                    Err(_) => {},
                }
            }
        } else if c == '\n' {
            let t = Token::new(line, col, TokenKind::Newline);
            tokens.push(t);
            assert(tokens_view(tokens@) =~= done.push(token_view(t)));
            cur = cur + 1;
            line = line + 1;
            bol = cur;
            proof {
                match lex_spec(cs@, cur as int, line as int, bol as int) {
                    Ok(ts) => {
                        assert(done + (seq![token_view(t)] + ts) =~= tokens_view(tokens@) + ts);
                    },
                    Err(_) => {},
                }
            }
        } else if c == '"' {
            let start = cur + 1;
            let mut k: usize = start;
            let mut feeds: usize = 0;
            let mut new_bol: usize = bol;
            while k < cs.len() && cs[k] != '"'
                invariant
                    start <= k <= cs@.len(),
                    bol <= cur < start,
                    feeds as int == line_feeds(cs@, start as int, k as int),
                    feeds <= k - start,
                    new_bol as int == line_start(cs@, start as int, k as int, bol as int),
                    new_bol <= k,
                    run_len(cs@, start as int, CharClass::NotQuote) == (k - start) + run_len(cs@, k as int, CharClass::NotQuote),
                decreases cs@.len() - k,
            {
                if cs[k] == '\n' {
                    feeds = feeds + 1;
                    new_bol = k + 1;
                }
                k = k + 1;
            }
            if k >= cs.len() {
                return Err(LexError::new(Location::new(line, col), LexErrKind::UnclosedString));
            }
            let t = Token::new(line, col, TokenKind::String(text_between(&cs, start, k)));
            tokens.push(t);
            assert(tokens_view(tokens@) =~= done.push(token_view(t)));
            cur = k + 1;
            line = line + feeds;
            bol = new_bol;
            proof {
                match lex_spec(cs@, cur as int, line as int, bol as int) {
                    Ok(ts) => {
                        assert(done + (seq![token_view(t)] + ts) =~= tokens_view(tokens@) + ts);
                    },
                    Err(_) => {},
                }
            }
        } else if '0' <= c && c <= '9' {
            let e = run_end(&cs, cur, CharClass::Digit);
            proof {
                assert forall|x: int| cur <= x < e implies is_digit(#[trigger] cs@[x]) by {
                    lemma_in_run(cs@, cur as int, x);
                }
            }
            let value = digits_number(&cs, cur, e);
            let n: isize = match value {
                Some(v) => {
                    if v <= isize::MAX as u64 {
                        v as isize
                    } else {
                        return Err(LexError::new(Location::new(line, col), LexErrKind::NumberTooLarge));
                    }
                },
                None => {
                    return Err(LexError::new(Location::new(line, col), LexErrKind::NumberTooLarge));
                },
            };
            let t = Token::new(line, col, TokenKind::Integer(n));
            tokens.push(t);
            assert(tokens_view(tokens@) =~= done.push(token_view(t)));
            cur = e;
            proof {
                match lex_spec(cs@, cur as int, line as int, bol as int) {
                    Ok(ts) => {
                        assert(done + (seq![token_view(t)] + ts) =~= tokens_view(tokens@) + ts);
                    },
                    Err(_) => {},
                }
            }
        } else if ('a' <= c && c <= 'z') || ('A' <= c && c <= 'Z') || c == '_' {
            let e = run_end(&cs, cur + 1, CharClass::SymbolChar);
            let word = text_between(&cs, cur, e);
            let kind = if word.eq(&"true".to_owned()) {
                TokenKind::Boolean(true)
            } else if word.eq(&"false".to_owned()) {
                TokenKind::Boolean(false)
            } else {
                TokenKind::Identifier(word)
            };
            let t = Token::new(line, col, kind);
            tokens.push(t);
            assert(tokens_view(tokens@) =~= done.push(token_view(t)));
            cur = e;
            proof {
                match lex_spec(cs@, cur as int, line as int, bol as int) {
                    Ok(ts) => {
                        assert(done + (seq![token_view(t)] + ts) =~= tokens_view(tokens@) + ts);
                    },
                    Err(_) => {},
                }
            }
        } else if is_whitespace(c) {
            cur = cur + 1;
        } else {
            return Err(LexError::new(Location::new(line, col), LexErrKind::UnexpectedChar(c)));
        }
    }
    proof {
        match lex_spec(cs@, cur as int, line as int, bol as int) {
            Ok(ts) => {
                assert(ts =~= Seq::<LexToken>::empty());
                assert(tokens_view(tokens@) + ts =~= tokens_view(tokens@));
            },
            Err(_) => {},
        }
    }
    Ok(tokens)
}

proof fn lemma_in_run(s: Seq<char>, i: int, x: int)
    requires
        0 <= i <= x < i + run_len(s, i, CharClass::Digit),
    ensures
        is_digit(s[x]),
    decreases x - i,
{
    if x > i {
        lemma_in_run(s, i + 1, x);
    }
}

} // verus!
