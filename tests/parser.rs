use callisp::ast::{Ast, LispAtom};
use callisp::error::LispError;
use callisp::parser::{parse_atom, parse_complete_expr, parse_expr, parse_list, parse_program, parse_symbol};

fn sym(s: &str) -> Ast {
    Ast::Atom(LispAtom::Symbol(s.to_string()))
}

fn int_val(n: i64) -> Ast {
    Ast::Atom(LispAtom::Int(n))
}

#[test]
fn parse_symbol_works() {
    parse_symbol("1").expect_err("parsed '1' as symbol");

    let (_, ast) = parse_symbol("a123-five?").expect("parse symbol failed");
    let expected = sym("a123-five?");
    assert_eq!(ast, expected);
}

#[test]
fn parse_atom_works() {
    let (_, ast) = parse_atom("1").expect("parse atom failed");
    let expected = int_val(1);
    assert_eq!(ast, expected);

    let (_, ast) = parse_atom("1E10").expect("parse atom failed");
    let expected = Ast::Atom(LispAtom::Float("1E10".to_string()));
    assert_eq!(ast, expected);
}

#[test]
fn parse_list_works() {
    let (_, ast) = parse_list("(1 2\n)").expect("parse list failed");
    let expected = Ast::List(vec![int_val(1), int_val(2)]);
    assert_eq!(ast, expected);
}

#[test]
fn parse_expr_works() {
    let (_, ast) = parse_expr(" (one   two (f\n3)\n)").expect("parse expr failed");
    let expected = Ast::List(vec![
        sym("one"),
        sym("two"),
        Ast::List(vec![sym("f"), int_val(3)]),
    ]);
    assert_eq!(ast, expected);
}

#[test]
fn parse_expr_hands_back_the_rest() {
    let (rest, ast) = parse_expr("12abc").unwrap();
    assert_eq!(rest, "abc");
    assert_eq!(ast, int_val(12));

    let (rest, ast) = parse_expr("  (a b) (c)").unwrap();
    assert_eq!(rest, " (c)");
    assert_eq!(ast, Ast::List(vec![sym("a"), sym("b")]));
}

#[test]
fn parse_atoms_of_each_kind() {
    assert_eq!(parse_atom("\"hi there\"").unwrap().1, Ast::Atom(LispAtom::String("hi there".to_string())));
    assert_eq!(parse_atom("true").unwrap().1, Ast::Atom(LispAtom::Bool(true)));
    assert_eq!(parse_atom("false").unwrap().1, Ast::Atom(LispAtom::Bool(false)));
    assert_eq!(parse_atom("-5").unwrap().1, int_val(-5));
    assert_eq!(parse_atom("+7").unwrap().1, int_val(7));
    assert_eq!(parse_atom("-").unwrap().1, sym("-"));
    assert_eq!(parse_atom("-1.5e3").unwrap().1, Ast::Atom(LispAtom::Float("-1.5e3".to_string())));
    assert_eq!(parse_atom("2.").unwrap().1, Ast::Atom(LispAtom::Float("2.".to_string())));
    assert_eq!(parse_atom("-9223372036854775808").unwrap().1, int_val(i64::MIN));
    assert_eq!(parse_atom("9223372036854775807").unwrap().1, int_val(i64::MAX));
}

#[test]
fn parse_integer_out_of_range_fails() {
    let r = parse_expr("9223372036854775808");
    assert_eq!(r, Err(LispError::ParseError("9223372036854775808".to_string())));
}

#[test]
fn parse_unterminated_inputs_fail() {
    assert!(parse_expr("(a b").is_err());
    assert!(parse_expr("\"open").is_err());
    assert!(parse_expr("").is_err());
    assert!(parse_expr(")").is_err());
    assert!(parse_list("a").is_err());
}

#[test]
fn parse_elements_need_layout_between_them() {
    assert!(parse_expr("(a(b))").is_err());
    assert_eq!(
        parse_expr("(a (b))").unwrap().1,
        Ast::List(vec![sym("a"), Ast::List(vec![sym("b")])])
    );
}

#[test]
fn parse_empty_list() {
    assert_eq!(parse_expr("( )").unwrap().1, Ast::List(vec![]));
}

#[test]
fn parse_complete_expr_rejects_trailing_text() {
    assert_eq!(parse_complete_expr("(a) b"), Err(LispError::ParseError("(a) b".to_string())));
    let (rest, ast) = parse_complete_expr("(a)").unwrap();
    assert_eq!(rest, "");
    assert_eq!(ast, Ast::List(vec![sym("a")]));
}

#[test]
fn parse_program_reads_every_expression() {
    let exprs = parse_program("(define x 1)\n x\n").unwrap();
    assert_eq!(exprs.len(), 2);
    assert_eq!(exprs[1], sym("x"));
    assert_eq!(parse_program("1 (a"), Err(LispError::ParseError(" (a".to_string())));
    assert_eq!(parse_program("  \n").unwrap().len(), 0);
}

#[test]
fn printed_values_read_back() {
    let value = Ast::List(vec![
        sym("foo"),
        int_val(-5),
        Ast::Atom(LispAtom::String("a b".to_string())),
        Ast::Atom(LispAtom::Bool(true)),
        Ast::List(vec![]),
        Ast::List(vec![sym("tru"), int_val(0)]),
    ]);
    let text = value.display();
    assert_eq!(text, "(foo -5 \"a b\" true () (tru 0))");
    let (rest, back) = parse_expr(&text).unwrap();
    assert_eq!(rest, "");
    assert_eq!(back, value);
}

#[test]
fn symbol_that_reads_as_a_boolean_does_not_round_trip() {
    let value = sym("trueish");
    let (rest, back) = parse_expr(&value.display()).unwrap();
    assert_eq!(back, Ast::Atom(LispAtom::Bool(true)));
    assert_eq!(rest, "ish");
}

#[test]
fn printed_floats_read_back() {
    for text in ["1.5", "-2.", "3e7", "+4.25E-2"] {
        let value = Ast::Atom(LispAtom::Float(text.to_string()));
        let (rest, back) = parse_expr(&value.display()).unwrap();
        assert_eq!(rest, "");
        assert_eq!(back, value);
    }
}
