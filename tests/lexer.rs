use callisp::lexer::{is_ident_char, tokenize, LexErrKind, LexError, Location, TokenKind};

#[test]
fn lex_s_expr() {
    let input = "((+ a _ab_c) \"string literal\")";
    let toks = tokenize(input).expect("Lexer failed");
    for token in toks {
        println!("{:?}", token);
    }
}

#[test]
fn lex_kinds_and_locations() {
    let toks = tokenize("(+ ab\n \"x\ny\" 42)").unwrap();
    assert_eq!(toks.len(), 7);
    assert!(matches!(toks[0].kind, TokenKind::LParen));
    assert!(matches!(toks[1].kind, TokenKind::Plus));
    assert!(matches!(&toks[2].kind, TokenKind::Identifier(s) if s == "ab"));
    assert_eq!(toks[2].loc, Location::new(0, 3));
    assert!(matches!(toks[3].kind, TokenKind::Newline));
    assert!(matches!(&toks[4].kind, TokenKind::String(s) if s == "x\ny"));
    assert_eq!(toks[4].loc, Location::new(1, 1));
    assert!(matches!(toks[5].kind, TokenKind::Integer(42)));
    assert_eq!(toks[5].loc, Location::new(2, 3));
    assert!(matches!(toks[6].kind, TokenKind::RParen));
}

#[test]
fn lex_booleans() {
    let toks = tokenize("true false truth").unwrap();
    assert!(matches!(toks[0].kind, TokenKind::Boolean(true)));
    assert!(matches!(toks[1].kind, TokenKind::Boolean(false)));
    assert!(matches!(&toks[2].kind, TokenKind::Identifier(s) if s == "truth"));
}

#[test]
fn lex_errors() {
    assert_eq!(
        tokenize("(a \"open").unwrap_err(),
        LexError::new(Location::new(0, 3), LexErrKind::UnclosedString)
    );
    assert_eq!(
        tokenize("a\n#").unwrap_err(),
        LexError::new(Location::new(1, 0), LexErrKind::UnexpectedChar('#'))
    );
    assert_eq!(
        tokenize("99999999999999999999").unwrap_err(),
        LexError::new(Location::new(0, 0), LexErrKind::NumberTooLarge)
    );
}

#[test]
fn ident_chars() {
    assert!(is_ident_char('a'));
    assert!(is_ident_char('?'));
    assert!(!is_ident_char('('));
    assert!(!is_ident_char(';'));
    assert!(!is_ident_char(' '));
    assert!(!is_ident_char('\u{3000}'));
}
