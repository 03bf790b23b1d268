use botlang::error::Error;
use botlang::lexer::{lex, Token};
use botlang::op::Op;

#[test]
fn string() {
    let input = "\"hello world\"";
    let mut tokens = lex(input).unwrap();
    assert_eq!(Token::Str("hello world".into()), tokens.take());
}

#[test]
fn numberwang() {
    let input = "123";
    let mut tokens = lex(input).unwrap();
    assert_eq!(Token::Int(123), tokens.take());
}

fn all(src: &str) -> Vec<Token> {
    let mut tokens = lex(src).unwrap();
    let mut out = Vec::new();
    loop {
        let t = tokens.take();
        if t == Token::Eof {
            return out;
        }
        out.push(t);
    }
}

#[test]
fn symbols_and_words() {
    assert_eq!(
        all("let x = (a_b + 2) * [c] / -d; {}"),
        vec![
            Token::Let,
            Token::Ident("x".into()),
            Token::Op(Op::Equal),
            Token::Op(Op::LParen),
            Token::Ident("a_b".into()),
            Token::Op(Op::Plus),
            Token::Int(2),
            Token::Op(Op::RParen),
            Token::Op(Op::Mul),
            Token::Op(Op::LBracket),
            Token::Ident("c".into()),
            Token::Op(Op::RBracket),
            Token::Op(Op::Div),
            Token::Op(Op::Minus),
            Token::Ident("d".into()),
            Token::SemiColon,
            Token::LCurly,
            Token::RCurly,
        ]
    );
}

#[test]
fn double_characters_use_one_character() {
    // only the first of the pair is used up, so the second starts a token again
    assert_eq!(all("=="), vec![Token::EqualEqual, Token::Op(Op::Equal)]);
    assert_eq!(all("a..b"), vec![Token::Ident("a".into()), Token::DotDot, Token::Ident("b".into())]);
}

#[test]
fn words_stop_at_digits() {
    assert_eq!(all("ab1"), vec![Token::Ident("ab".into()), Token::Int(1)]);
    assert_eq!(all("letter"), vec![Token::Ident("letter".into())]);
}

#[test]
fn floats_keep_their_text() {
    assert_eq!(all("1.50"), vec![Token::Float("1.50".into())]);
    assert_eq!(all("1.2.3"), vec![Token::Float("1.2".into()), Token::Int(3)]);
    assert_eq!(all("7."), vec![Token::Float("7.".into())]);
}

#[test]
fn largest_integer() {
    assert_eq!(all("9223372036854775807"), vec![Token::Int(i64::MAX)]);
    assert_eq!(all("007"), vec![Token::Int(7)]);
}

#[test]
fn integer_too_large() {
    assert!(matches!(lex("9223372036854775808"), Err(Error::IntError(_))));
}

#[test]
fn unterminated_string() {
    assert!(matches!(lex("\"abc"), Err(Error::UnterminatedString)));
}

#[test]
fn other_characters_are_skipped() {
    assert_eq!(all(" \t\n# ?!"), vec![]);
    assert_eq!(all("\"a b\" c"), vec![Token::Str("a b".into()), Token::Ident("c".into())]);
}

#[test]
fn consume_leaves_consumed_behind() {
    let mut t = Token::Int(4);
    let taken = t.consume();
    assert_eq!(taken, Token::Int(4));
    assert_eq!(t, Token::Consumed);
}

#[test]
fn peek_does_not_move() {
    let mut tokens = lex("a b").unwrap();
    assert_eq!(tokens.peek(), &Token::Ident("a".into()));
    assert_eq!(tokens.peek(), &Token::Ident("a".into()));
    tokens.consume();
    assert_eq!(tokens.take(), Token::Ident("b".into()));
    assert_eq!(tokens.peek(), &Token::Eof);
    assert_eq!(tokens.take(), Token::Eof);
}

#[test]
fn taking_a_token_leaves_consumed_behind() {
    let mut tokens = lex("a 1").unwrap();
    assert_eq!(tokens.take(), Token::Ident("a".to_string()));
    assert_eq!(tokens.peek(), &Token::Int(1));
    assert!(format!("{tokens:?}").contains("Consumed"));
    assert_eq!(tokens.take_int(), 1);
    assert_eq!(tokens.take(), Token::Eof);
    assert_eq!(format!("{tokens:?}").matches("Consumed").count(), 2);
}

#[test]
fn tokens_and_expressions_clone() {
    let t = Token::Str("x".to_string());
    assert_eq!(t.clone(), t);
    let e = botlang::expression::Expression::Array(vec![botlang::expression::Expression::Int(1)]);
    assert!(matches!(e.clone(), botlang::expression::Expression::Array(v) if v.len() == 1));
}
