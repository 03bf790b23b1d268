use botlang::expression::Expression;
use botlang::host::{Host, Request};
use botlang::lexer::{lex, Token};
use botlang::Interpreter;

struct Plain;

impl Host<()> for Plain {
    fn answer(&self, request: &Request, _: &()) -> Expression {
        match request {
            Request::ShowFloat(s) | Request::DebugFloat(s) => Expression::Str(s.clone()),
            _ => Expression::Null,
        }
    }
}

fn run(i: &mut Interpreter<()>, src: &str) -> Option<String> {
    i.run(src, &Plain).map(|s| s.to_string())
}

fn some(s: &str) -> Option<String> {
    Some(s.to_string())
}

#[test]
fn read_only_values_survive_every_program() {
    let mut i = Interpreter::new(());
    i.load_read_only(vec![("k".to_string(), "[1, 2]".to_string())]);
    for src in ["let k = 3", "k = 4", "k[0] = 9", "let k = y", "k(1)", "\"unterminated"] {
        let _ = run(&mut i, src);
        assert_eq!(run(&mut i, "k"), some("[1, 2]"));
    }
}

#[test]
fn declared_variable_reads_back() {
    let mut i = Interpreter::new(());
    assert_eq!(run(&mut i, "let x = [1, \"two\"]"), None);
    assert_eq!(run(&mut i, "x"), some("[1, two]"));
    assert_eq!(run(&mut i, "let s = \"a\" + \"b\""), None);
    assert_eq!(run(&mut i, "s"), some("ab"));
}

#[test]
fn assigned_element_reads_back() {
    let mut i = Interpreter::new(());
    assert_eq!(run(&mut i, "let a = [[0, 0], 0]"), None);
    assert_eq!(run(&mut i, "a[0][1] = 5"), None);
    assert_eq!(run(&mut i, "a[0][1]"), some("5"));
    assert_eq!(run(&mut i, "a"), some("[[0, 5], 0]"));
}

#[test]
fn case_mapping_composes() {
    let mut i = Interpreter::new(());
    let upper = run(&mut i, "to_upper(\"MiXeD_1\")");
    assert_eq!(upper, some("MIXED_1"));
    assert_eq!(run(&mut i, "to_upper(to_lower(\"MiXeD_1\"))"), upper);
    assert_eq!(run(&mut i, "to_lower(to_lower(\"MiXeD_1\"))"), run(&mut i, "to_lower(\"MiXeD_1\")"));
    assert_eq!(run(&mut i, "to_lower(to_upper(\"MiXeD_1\"))"), some("mixed_1"));
}

#[test]
fn integer_text_runs_back() {
    let mut i = Interpreter::new(());
    for text in ["0", "7", "123", "9223372036854775807"] {
        assert_eq!(run(&mut i, text), some(text));
    }
}

#[test]
fn exact_integer_arithmetic() {
    let mut i = Interpreter::new(());
    assert_eq!(run(&mut i, "40 + 2"), some("42"));
    assert_eq!(run(&mut i, "40 - 42"), some("-2"));
    assert_eq!(run(&mut i, "6 * 7"), some("42"));
    assert_eq!(run(&mut i, "42 / 0"), None);
}

#[test]
fn failed_program_changes_nothing() {
    let mut i = Interpreter::new(());
    assert_eq!(run(&mut i, "let x = 1"), None);
    assert_eq!(run(&mut i, "let x = (2"), some("missing closing paren"));
    assert_eq!(run(&mut i, "let x = \"2"), some("unterminated string"));
    assert_eq!(run(&mut i, "x"), some("1"));
}

#[test]
fn values_evaluate_to_themselves() {
    let mut i = Interpreter::new(());
    assert_eq!(run(&mut i, "\"s\""), some("s"));
    assert_eq!(run(&mut i, "[x, 1]"), some("[x, 1]"));
}

#[test]
fn lexing_yields_no_placeholders() {
    let mut tokens = lex("let a = [1, 2.5, \"s\"]; {..==}").unwrap();
    let mut n = 0;
    loop {
        let t = tokens.take();
        assert_ne!(t, Token::Consumed);
        if t == Token::Eof {
            break;
        }
        n += 1;
    }
    assert_eq!(n, 16);
}

#[test]
fn evaluation_gives_values() {
    let mut i = Interpreter::new(());
    assert_eq!(run(&mut i, "let f = [1, \"a\"]"), None);
    assert_eq!(run(&mut i, "f[0]"), some("1"));
    assert_eq!(run(&mut i, "f"), some("[1, a]"));
    assert_eq!(run(&mut i, "to_upper(f[1])"), some("A"));
}

#[test]
fn unknown_function_gives_null() {
    let mut i = Interpreter::new(());
    assert_eq!(run(&mut i, "nope(1, 2)"), None);
    assert_eq!(run(&mut i, "1(2)"), None);
}
