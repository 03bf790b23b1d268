use botlang::expression::Expression;
use botlang::fun::MathFn;
use botlang::host::{Host, Request};
use botlang::op::Op;
use botlang::Interpreter;

/// A host that does floating-point work with `f64` and knows one
/// registered function, `twice` (handle 0).
struct Floats;

fn number(e: &Expression) -> Option<f64> {
    match e {
        Expression::Int(i) => Some(*i as f64),
        Expression::Float(f) => f.parse::<f64>().ok(),
        _ => None,
    }
}

impl Host<u32> for Floats {
    fn answer(&self, request: &Request, user_data: &u32) -> Expression {
        match request {
            Request::Arith { op, lhs, rhs } => {
                let (Some(l), Some(r)) = (number(lhs), number(rhs)) else { return Expression::Null };
                let v = match op {
                    Op::Plus => l + r,
                    Op::Minus => l - r,
                    Op::Mul => l * r,
                    Op::Div if r != 0.0 => l / r,
                    _ => return Expression::Null,
                };
                Expression::Float(format!("{v:?}"))
            }
            Request::Math { fun, args } => {
                let Some(x) = args.first().and_then(number) else { return Expression::Null };
                let v = match fun {
                    MathFn::Sin => x.sin(),
                    MathFn::Cos => x.cos(),
                    MathFn::Asin => x.asin(),
                    MathFn::Pow => return Expression::Null,
                };
                Expression::Float(format!("{v:?}"))
            }
            Request::Call { handle: 0, args, .. } => match args.as_slice() {
                [Expression::Int(i)] => Expression::Int(i * 2 + *user_data as i64),
                _ => Expression::Null,
            },
            Request::Call { .. } => Expression::Null,
            Request::ShowFloat(t) => Expression::Str(format!("{}", t.parse::<f64>().unwrap())),
            Request::DebugFloat(t) => Expression::Str(format!("{:?}", t.parse::<f64>().unwrap())),
        }
    }
}

fn run(i: &mut Interpreter<u32>, src: &str) -> Option<String> {
    i.run(src, &Floats).map(|s| s.to_string())
}

fn some(s: &str) -> Option<String> {
    Some(s.to_string())
}

#[test]
fn arithmetic() {
    let mut i = Interpreter::new(0);
    assert_eq!(run(&mut i, "1 + 2 * 3"), some("7"));
    assert_eq!(run(&mut i, "(1 + 2) * 3"), some("9"));
    assert_eq!(run(&mut i, "7 / 2"), some("3"));
    // a prefix minus ends the expression it starts
    assert_eq!(run(&mut i, "-7 / 2"), some("-7"));
    assert_eq!(run(&mut i, "(0 - 7) / 2"), some("-3"));
    assert_eq!(run(&mut i, "1 / 0"), None);
    assert_eq!(run(&mut i, "-5"), some("-5"));
}

#[test]
fn integer_arithmetic_wraps() {
    let mut i = Interpreter::new(0);
    assert_eq!(run(&mut i, "9223372036854775807 + 1"), some("-9223372036854775808"));
}

#[test]
fn strings_join_whatever_the_operator() {
    let mut i = Interpreter::new(0);
    assert_eq!(run(&mut i, "\"ab\" + \"cd\""), some("abcd"));
    assert_eq!(run(&mut i, "\"ab\" - \"cd\""), some("abcd"));
    assert_eq!(run(&mut i, "\"ab\" + 1"), None);
}

#[test]
fn variables() {
    let mut i = Interpreter::new(0);
    assert_eq!(run(&mut i, "let x = 2"), None);
    assert_eq!(run(&mut i, "x * 3"), some("6"));
    assert_eq!(run(&mut i, "x = 5"), None);
    assert_eq!(run(&mut i, "x"), some("5"));
    assert_eq!(run(&mut i, "let x = y"), None);
    assert_eq!(run(&mut i, "x"), None);
    assert_eq!(run(&mut i, "-x"), None);
}

#[test]
fn read_only_variables() {
    let mut i = Interpreter::new(0);
    i.load_read_only(vec![
        ("name".to_string(), "\"bob\"".to_string()),
        ("sum".to_string(), "1 + 2".to_string()),
    ]);
    assert_eq!(run(&mut i, "name"), some("bob"));
    assert_eq!(run(&mut i, "sum * 2"), some("6"));
    assert_eq!(run(&mut i, "let name = 1"), None);
    assert_eq!(run(&mut i, "name = 1"), None);
    assert_eq!(run(&mut i, "name"), some("bob"));
}

#[test]
fn arrays() {
    let mut i = Interpreter::new(0);
    assert_eq!(run(&mut i, "let a = [1, [2, 3], \"s\"]"), None);
    assert_eq!(run(&mut i, "a"), some("[1, [2, 3], s]"));
    assert_eq!(run(&mut i, "a[1][0]"), some("2"));
    assert_eq!(run(&mut i, "a[3]"), None);
    assert_eq!(run(&mut i, "a[-1]"), None);
    assert_eq!(run(&mut i, "a[1][1] = 9"), None);
    assert_eq!(run(&mut i, "a"), some("[1, [2, 9], s]"));
    assert_eq!(run(&mut i, "a[7] = 9"), None);
    assert_eq!(run(&mut i, "a"), some("[1, [2, 9], s]"));
    assert_eq!(run(&mut i, "[][0]"), None);
}

#[test]
fn array_elements_are_evaluated_when_read() {
    let mut i = Interpreter::new(0);
    assert_eq!(run(&mut i, "let a = [x]"), None);
    assert_eq!(run(&mut i, "let x = 4"), None);
    assert_eq!(run(&mut i, "a[0]"), some("4"));
}

#[test]
fn string_functions() {
    let mut i = Interpreter::new(0);
    assert_eq!(run(&mut i, "to_upper(\"abC1\")"), some("ABC1"));
    assert_eq!(run(&mut i, "to_lower(\"AbC1\")"), some("abc1"));
    assert_eq!(run(&mut i, "to_lower(1)"), None);
    assert_eq!(run(&mut i, "to_lower(\"a\", \"b\")"), None);
    assert_eq!(run(&mut i, "nothing(1)"), None);
}

#[test]
fn floats_go_to_the_host() {
    let mut i = Interpreter::new(0);
    assert_eq!(run(&mut i, "1.5 + 1"), some("2.5"));
    assert_eq!(run(&mut i, "1.50"), some("1.5"));
    assert_eq!(run(&mut i, "2. * 2."), some("4"));
    assert_eq!(run(&mut i, "1.0 / 0"), None);
    assert_eq!(run(&mut i, "asin(sin(1))"), some("1"));
    assert_eq!(run(&mut i, "[1.25]"), some("[1.25]"));
}

#[test]
fn registered_functions() {
    let mut i = Interpreter::new(1);
    i.register_fun("twice".to_string(), 0);
    assert_eq!(run(&mut i, "twice(20)"), some("41"));
    i.register_fun("to_upper".to_string(), 0);
    assert_eq!(run(&mut i, "to_upper(1)"), some("3"));
}

#[test]
fn error_messages() {
    let mut i = Interpreter::new(0);
    assert_eq!(run(&mut i, "\"abc"), some("unterminated string"));
    assert_eq!(run(&mut i, "(1"), some("missing closing paren"));
    assert_eq!(run(&mut i, "[1 2]"), some("missing a comma in a collection"));
    assert_eq!(run(&mut i, "99999999999999999999"), some("number too large to fit in target type"));
    assert_eq!(run(&mut i, ")"), some("invalid operator: RParen"));
    assert_eq!(run(&mut i, ""), some("not enough cake: Eof"));
    assert_eq!(run(&mut i, ","), some("not enough cake: Comma"));
    assert_eq!(run(&mut i, "let 1"), some("invalid token: Int(1)"));
    assert_eq!(run(&mut i, "let x 1.5"), some("invalid token: Float(1.5)"));
    assert_eq!(run(&mut i, "let \"q\""), some("invalid token: Str(\"q\")"));
    assert_eq!(run(&mut i, "let x ("), some("invalid token: Op(LParen)"));
    assert_eq!(run(&mut i, "a[1 2"), some("invalid token: Int(2)"));
}

#[test]
fn display_of_unevaluated_forms() {
    let mut i = Interpreter::new(0);
    assert_eq!(run(&mut i, "let f = [g(1, 2, 3), a = b, let c = d, e[1], -(2)]"), None);
    assert_eq!(run(&mut i, "f"), some("[<fn g(12, 3, ), a = b, let c = d, e[1], (-2)]"));
}

/// A host that must not be asked for floating-point functions.
struct NoMaths;

impl Host<u32> for NoMaths {
    fn answer(&self, request: &Request, _: &u32) -> Expression {
        match request {
            Request::Math { .. } => panic!("the host was asked for a maths function"),
            _ => Expression::Null,
        }
    }
}

#[test]
fn maths_arguments_are_checked_before_asking() {
    let mut i = Interpreter::new(0);
    assert_eq!(i.run("sin(1, 2)", &NoMaths), None);
    assert_eq!(i.run("cos()", &NoMaths), None);
    assert_eq!(i.run("asin(\"a\")", &NoMaths), None);
    assert_eq!(i.run("pow(2)", &NoMaths), None);
    assert_eq!(i.run("pow(2, [1])", &NoMaths), None);
    assert_eq!(run(&mut i, "sin(0)"), some("0"));
}

#[test]
fn registered_functions_get_the_user_data() {
    let mut i = Interpreter::new(5);
    i.register_fun("twice".to_string(), 0);
    assert_eq!(run(&mut i, "twice(1)"), some("7"));
    i.register_fun("sin".to_string(), 0);
    assert_eq!(run(&mut i, "sin(2)"), some("9"));
}
