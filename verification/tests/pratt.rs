use botlang::context::Context;
use botlang::display::write_expr;
use botlang::error::Error;
use botlang::expression::Expression;
use botlang::host::{Host, Request};
use botlang::lexer::lex;
use botlang::pratt::parse;

struct Plain;

impl Host<()> for Plain {
    fn answer(&self, request: &Request, _: &()) -> Expression {
        match request {
            Request::ShowFloat(s) | Request::DebugFloat(s) => Expression::Str(s.clone()),
            _ => Expression::Null,
        }
    }
}

fn shown(src: &str) -> String {
    let expr = parse(lex(src).unwrap()).unwrap();
    let mut ctx = Context::new(());
    let mut out = String::new();
    write_expr(&expr, &mut out, &mut ctx, &Plain);
    out
}

#[test]
fn addition() {
    let tokens = lex("2 * (1 + 2)").unwrap();
    assert_eq!(shown("2 * (1 + 2)"), "(* 2 (+ 1 2))");
    drop(tokens);
    let tokens = lex("2 * 1 + 2").unwrap();
    let expr = parse(tokens).unwrap();
    let mut ctx = Context::new(());
    let mut out = String::new();
    write_expr(&expr, &mut out, &mut ctx, &Plain);
    assert_eq!(out, "(+ (* 2 1) 2)");
}

#[test]
fn fun_fun() {
    let tokens = lex("cos(1) * sin(1)").unwrap();
    let expr = parse(tokens).unwrap();
    let mut ctx = Context::new(());
    let mut out = String::new();
    write_expr(&expr, &mut out, &mut ctx, &Plain);
    assert_eq!(out, "(* <fn cos(1) <fn sin(1))");
}

#[test]
fn precedence_and_associativity() {
    assert_eq!(shown("1 - 2 - 3"), "(- (- 1 2) 3)");
    assert_eq!(shown("1 + 2 * 3"), "(+ 1 (* 2 3))");
    // a prefix operator ends the expression it starts
    assert_eq!(shown("-1 + 2"), "(-1)");
}

#[test]
fn postfix_forms() {
    assert_eq!(shown("a[1][2]"), "a[1][2]");
    assert_eq!(shown("a = b = 3"), "a = b = 3");
    assert_eq!(shown("let x = [1, \"s\", f(2, 3)]"), "let x = [1, s, <fn f(23, )]");
}

#[test]
fn empty_collections() {
    assert_eq!(shown("[]"), "[]");
    assert_eq!(shown("f()"), "<fn f()");
}

#[test]
fn parse_errors() {
    assert!(matches!(parse(lex("(1 + 2").unwrap()), Err(Error::MissingClosingParen)));
    assert!(matches!(parse(lex("[1 2]").unwrap()), Err(Error::MissingComma)));
    assert!(matches!(parse(lex("f(1 2)").unwrap()), Err(Error::MissingComma)));
    assert!(matches!(parse(lex("*1").unwrap()), Err(Error::InvalidOperator(_))));
    assert!(matches!(parse(lex("").unwrap()), Err(Error::NotEnoughCake(_))));
    assert!(matches!(parse(lex("let 1 = 2").unwrap()), Err(Error::InvalidToken(_))));
    assert!(matches!(parse(lex("let x 2").unwrap()), Err(Error::InvalidToken(_))));
    assert!(matches!(parse(lex("a[1").unwrap()), Err(Error::InvalidToken(_))));
}

#[test]
fn invalid_operator_at_the_start() {
    assert!(matches!(parse(lex("* 2").unwrap()), Err(Error::InvalidOperator(botlang::op::Op::Mul))));
    assert!(matches!(parse(lex(") 1").unwrap()), Err(Error::InvalidOperator(botlang::op::Op::RParen))));
}
