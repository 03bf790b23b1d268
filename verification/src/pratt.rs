use vstd::prelude::*;
use crate::error::{Error, SpecError};
use crate::expression::{Expression, SpecExpr, lemma_models_push, models};
use crate::lexer::{SpecToken, Token, Tokens, peek_at};
use crate::op::{Op, infix_bp, postfix_bp, prefix_bp, spec_infix_bp, spec_postfix_bp, spec_prefix_bp};

verus! {

/// The result of parsing from a position: the expression and the position
/// after it.
pub type Parsed = Result<(SpecExpr, int), SpecError>;

/// Parses an expression at position `p` whose operators bind at least as
/// tightly as `bp`.
pub open spec fn spec_parse_with(ts: Seq<SpecToken>, p: int, bp: u8) -> Parsed
    decreases ts.len() - p, 0int,
{
    if !(0 <= p <= ts.len()) {
        Err(SpecError::NotEnoughCake(SpecToken::Eof))
    } else {
        match peek_at(ts, p) {
            SpecToken::Op(Op::LParen) => match spec_parse_with(ts, p + 1, 0) {
                Ok((e, q)) => if !(p < q <= ts.len()) {
                    Err(SpecError::MissingClosingParen)
                } else if peek_at(ts, q) != SpecToken::Op(Op::RParen) {
                    Err(SpecError::MissingClosingParen)
                } else {
                    spec_parse_loop(ts, q + 1, bp, e)
                },
                Err(err) => Err(err),
            },
            SpecToken::Op(Op::LBracket) => match spec_parse_array(ts, p + 1, Seq::empty()) {
                Ok((e, q)) => if !(p < q <= ts.len()) {
                    Err(SpecError::MissingComma)
                } else {
                    spec_parse_loop(ts, q, bp, e)
                },
                Err(err) => Err(err),
            },
            SpecToken::Op(op) => match spec_prefix_bp(op) {
                None => Err(SpecError::InvalidOperator(op)),
                Some(r) => match spec_parse_with(ts, p + 1, r) {
                    Ok((v, q)) => Ok((SpecExpr::Unary { value: Box::new(v), op }, q)),
                    Err(err) => Err(err),
                },
            },
            SpecToken::Let => spec_parse_decl(ts, p + 1),
            SpecToken::Ident(s) => spec_parse_loop(ts, p + 1, bp, SpecExpr::Ident(s)),
            SpecToken::Str(s) => spec_parse_loop(ts, p + 1, bp, SpecExpr::Str(s)),
            SpecToken::Int(i) => spec_parse_loop(ts, p + 1, bp, SpecExpr::Int(i)),
            SpecToken::Float(f) => spec_parse_loop(ts, p + 1, bp, SpecExpr::Float(f)),
            t => Err(SpecError::NotEnoughCake(t)),
        }
    }
}

/// Extends `lhs`, which ends before position `p`, with postfix and infix
/// operators binding at least as tightly as `bp`.
pub open spec fn spec_parse_loop(ts: Seq<SpecToken>, p: int, bp: u8, lhs: SpecExpr) -> Parsed
    decreases ts.len() - p, 0int,
{
    if !(0 <= p <= ts.len()) {
        Ok((lhs, p))
    } else {
        match peek_at(ts, p) {
            SpecToken::Op(op) => if spec_postfix_bp(op) is Some {
                let l = spec_postfix_bp(op)->0;
                if l < bp {
                    Ok((lhs, p))
                } else if op == Op::Equal {
                    match spec_parse_with(ts, p + 1, l) {
                        Ok((rhs, q)) => if !(p < q <= ts.len()) { Ok((lhs, p)) } else {
                            spec_parse_loop(ts, q, bp, SpecExpr::Assignment { lhs: Box::new(lhs), rhs: Box::new(rhs) })
                        },
                        Err(err) => Err(err),
                    }
                } else if op == Op::LBracket {
                    match spec_parse_with(ts, p + 1, l) {
                        Ok((key, q)) => if !(p < q <= ts.len()) { Ok((lhs, p)) } else {
                            match peek_at(ts, q) {
                                SpecToken::Op(Op::RBracket) => spec_parse_loop(ts, q + 1, bp,
                                    SpecExpr::Index { src: Box::new(lhs), key: Box::new(key) }),
                                t => Err(SpecError::InvalidToken(t)),
                            }
                        },
                        Err(err) => Err(err),
                    }
                } else {
                    match spec_parse_args(ts, p + 1, Seq::empty()) {
                        Ok((args, q)) => if !(p < q <= ts.len()) { Ok((lhs, p)) } else {
                            spec_parse_loop(ts, q, bp, SpecExpr::Fn { fun: Box::new(lhs), args })
                        },
                        Err(err) => Err(err),
                    }
                }
            } else if spec_infix_bp(op) is Some {
                let (l, r) = spec_infix_bp(op)->0;
                if l < bp {
                    Ok((lhs, p))
                } else {
                    match spec_parse_with(ts, p + 1, r) {
                        Ok((rhs, q)) => if !(p < q <= ts.len()) { Ok((lhs, p)) } else {
                            spec_parse_loop(ts, q, bp, SpecExpr::Binary { lhs: Box::new(lhs), rhs: Box::new(rhs), op })
                        },
                        Err(err) => Err(err),
                    }
                }
            } else {
                Ok((lhs, p))
            },
            _ => Ok((lhs, p)),
        }
    }
}

/// Parses `ident = value` after a `let`.
pub open spec fn spec_parse_decl(ts: Seq<SpecToken>, p: int) -> Parsed
    decreases ts.len() - p, 0int,
{
    if !(0 <= p <= ts.len()) {
        Err(SpecError::InvalidToken(SpecToken::Eof))
    } else {
        match peek_at(ts, p) {
            SpecToken::Ident(ident) => match peek_at(ts, p + 1) {
                SpecToken::Op(Op::Equal) => match spec_parse_with(ts, p + 2, 0) {
                    Ok((v, q)) => Ok((SpecExpr::Declaration { ident, value: Box::new(v) }, q)),
                    Err(err) => Err(err),
                },
                t => Err(SpecError::InvalidToken(t)),
            },
            t => Err(SpecError::InvalidToken(t)),
        }
    }
}

/// Parses the arguments of a call up to the closing parenthesis, after the
/// arguments `acc`.
pub open spec fn spec_parse_args(ts: Seq<SpecToken>, p: int, acc: Seq<SpecExpr>) -> Result<(Seq<SpecExpr>, int), SpecError>
    decreases ts.len() - p, 1int,
{
    if !(0 <= p <= ts.len()) {
        Err(SpecError::MissingComma)
    } else if peek_at(ts, p) == SpecToken::Op(Op::RParen) {
        Ok((acc, p + 1))
    } else {
        match spec_parse_with(ts, p, 0) {
            Ok((v, q)) => if !(p < q <= ts.len()) { Err(SpecError::MissingComma) } else {
                if peek_at(ts, q) == SpecToken::Op(Op::RParen) {
                    Ok((acc.push(v), q + 1))
                } else if peek_at(ts, q) == SpecToken::Comma {
                    spec_parse_args(ts, q + 1, acc.push(v))
                } else {
                    Err(SpecError::MissingComma)
                }
            },
            Err(err) => Err(err),
        }
    }
}

/// Parses the elements of an array up to the closing bracket, after the
/// elements `acc`.
pub open spec fn spec_parse_array(ts: Seq<SpecToken>, p: int, acc: Seq<SpecExpr>) -> Parsed
    decreases ts.len() - p, 1int,
{
    if !(0 <= p <= ts.len()) {
        Err(SpecError::MissingComma)
    } else if peek_at(ts, p) == SpecToken::Op(Op::RBracket) {
        Ok((SpecExpr::Array(acc), p + 1))
    } else {
        match spec_parse_with(ts, p, 0) {
            Ok((v, q)) => if !(p < q <= ts.len()) { Err(SpecError::MissingComma) } else {
                if peek_at(ts, q) == SpecToken::Op(Op::RBracket) {
                    Ok((SpecExpr::Array(acc.push(v)), q + 1))
                } else if peek_at(ts, q) == SpecToken::Comma {
                    spec_parse_array(ts, q + 1, acc.push(v))
                } else {
                    Err(SpecError::MissingComma)
                }
            },
            Err(err) => Err(err),
        }
    }
}

/// `a` and `b` hold the same tokens from position `p` on.
pub open spec fn same_from(a: Seq<SpecToken>, b: Seq<SpecToken>, p: int) -> bool {
    a.len() == b.len() && forall|i: int| p <= i < a.len() ==> #[trigger] a[i] == b[i]
}

/// `now` is `before` with some tokens in positions `p0..p1` taken out,
/// leaving `Consumed` in their place; every other token is as it was.
pub open spec fn taken_between(now: Seq<SpecToken>, before: Seq<SpecToken>, p0: int, p1: int) -> bool {
    &&& now.len() == before.len()
    &&& forall|i: int| 0 <= i < now.len() ==>
        #[trigger] now[i] == before[i] || (p0 <= i < p1 && now[i] is Consumed)
}

/// Parsing from `p` reads only the tokens from `p` on.
pub proof fn lemma_parse_with_from(a: Seq<SpecToken>, b: Seq<SpecToken>, p: int, bp: u8)
    requires
        same_from(a, b, p),
    ensures
        spec_parse_with(a, p, bp) == spec_parse_with(b, p, bp),
    decreases a.len() - p, 0int,
{
    if 0 <= p <= a.len() {
        assert(peek_at(a, p) == peek_at(b, p));
        match peek_at(a, p) {
            SpecToken::Op(Op::LParen) => {
                lemma_parse_with_from(a, b, p + 1, 0);
                if let Ok((e, q)) = spec_parse_with(a, p + 1, 0) {
                    if p < q <= a.len() {
                        assert(peek_at(a, q) == peek_at(b, q));
                        if peek_at(a, q) == SpecToken::Op(Op::RParen) {
                            lemma_parse_loop_from(a, b, q + 1, bp, e);
                        }
                    }
                }
            },
            SpecToken::Op(Op::LBracket) => {
                lemma_parse_array_from(a, b, p + 1, Seq::empty());
                if let Ok((e, q)) = spec_parse_array(a, p + 1, Seq::empty()) {
                    if p < q <= a.len() {
                        lemma_parse_loop_from(a, b, q, bp, e);
                    }
                }
            },
            SpecToken::Op(op) => {
                if let Some(r) = spec_prefix_bp(op) {
                    lemma_parse_with_from(a, b, p + 1, r);
                }
            },
            SpecToken::Let => lemma_parse_decl_from(a, b, p + 1),
            SpecToken::Ident(x) => lemma_parse_loop_from(a, b, p + 1, bp, SpecExpr::Ident(x)),
            SpecToken::Str(x) => lemma_parse_loop_from(a, b, p + 1, bp, SpecExpr::Str(x)),
            SpecToken::Int(x) => lemma_parse_loop_from(a, b, p + 1, bp, SpecExpr::Int(x)),
            SpecToken::Float(x) => lemma_parse_loop_from(a, b, p + 1, bp, SpecExpr::Float(x)),
            _ => {},
        }
    }
}

pub proof fn lemma_parse_loop_from(a: Seq<SpecToken>, b: Seq<SpecToken>, p: int, bp: u8, lhs: SpecExpr)
    requires
        same_from(a, b, p),
    ensures
        spec_parse_loop(a, p, bp, lhs) == spec_parse_loop(b, p, bp, lhs),
    decreases a.len() - p, 0int,
{
    if 0 <= p <= a.len() {
        assert(peek_at(a, p) == peek_at(b, p));
        if let SpecToken::Op(op) = peek_at(a, p) {
            if spec_postfix_bp(op) is Some {
                let l = spec_postfix_bp(op)->0;
                if l >= bp {
                    if op == Op::Equal {
                        lemma_parse_with_from(a, b, p + 1, l);
                        if let Ok((rhs, q)) = spec_parse_with(a, p + 1, l) {
                            if p < q <= a.len() {
                                lemma_parse_loop_from(a, b, q, bp,
                                    SpecExpr::Assignment { lhs: Box::new(lhs), rhs: Box::new(rhs) });
                            }
                        }
                    } else if op == Op::LBracket {
                        lemma_parse_with_from(a, b, p + 1, l);
                        if let Ok((key, q)) = spec_parse_with(a, p + 1, l) {
                            if p < q <= a.len() {
                                assert(peek_at(a, q) == peek_at(b, q));
                                if peek_at(a, q) == SpecToken::Op(Op::RBracket) {
                                    lemma_parse_loop_from(a, b, q + 1, bp,
                                        SpecExpr::Index { src: Box::new(lhs), key: Box::new(key) });
                                }
                            }
                        }
                    } else {
                        lemma_parse_args_from(a, b, p + 1, Seq::empty());
                        if let Ok((args, q)) = spec_parse_args(a, p + 1, Seq::empty()) {
                            if p < q <= a.len() {
                                lemma_parse_loop_from(a, b, q, bp, SpecExpr::Fn { fun: Box::new(lhs), args });
                            }
                        }
                    }
                }
            } else if spec_infix_bp(op) is Some {
                let (l, r) = spec_infix_bp(op)->0;
                if l >= bp {
                    lemma_parse_with_from(a, b, p + 1, r);
                    if let Ok((rhs, q)) = spec_parse_with(a, p + 1, r) {
                        if p < q <= a.len() {
                            lemma_parse_loop_from(a, b, q, bp,
                                SpecExpr::Binary { lhs: Box::new(lhs), rhs: Box::new(rhs), op });
                        }
                    }
                }
            }
        }
    }
}

pub proof fn lemma_parse_decl_from(a: Seq<SpecToken>, b: Seq<SpecToken>, p: int)
    requires
        same_from(a, b, p),
    ensures
        spec_parse_decl(a, p) == spec_parse_decl(b, p),
    decreases a.len() - p, 0int,
{
    if 0 <= p <= a.len() {
        assert(peek_at(a, p) == peek_at(b, p));
        assert(peek_at(a, p + 1) == peek_at(b, p + 1));
        if peek_at(a, p) is Ident && peek_at(a, p + 1) == SpecToken::Op(Op::Equal) {
            lemma_parse_with_from(a, b, p + 2, 0);
        }
    }
}

pub proof fn lemma_parse_args_from(a: Seq<SpecToken>, b: Seq<SpecToken>, p: int, acc: Seq<SpecExpr>)
    requires
        same_from(a, b, p),
    ensures
        spec_parse_args(a, p, acc) == spec_parse_args(b, p, acc),
    decreases a.len() - p, 1int,
{
    if 0 <= p <= a.len() {
        assert(peek_at(a, p) == peek_at(b, p));
        if peek_at(a, p) != SpecToken::Op(Op::RParen) {
            lemma_parse_with_from(a, b, p, 0);
            if let Ok((v, q)) = spec_parse_with(a, p, 0) {
                if p < q <= a.len() {
                    assert(peek_at(a, q) == peek_at(b, q));
                    if peek_at(a, q) == SpecToken::Comma {
                        lemma_parse_args_from(a, b, q + 1, acc.push(v));
                    }
                }
            }
        }
    }
}

pub proof fn lemma_parse_array_from(a: Seq<SpecToken>, b: Seq<SpecToken>, p: int, acc: Seq<SpecExpr>)
    requires
        same_from(a, b, p),
    ensures
        spec_parse_array(a, p, acc) == spec_parse_array(b, p, acc),
    decreases a.len() - p, 1int,
{
    if 0 <= p <= a.len() {
        assert(peek_at(a, p) == peek_at(b, p));
        if peek_at(a, p) != SpecToken::Op(Op::RBracket) {
            lemma_parse_with_from(a, b, p, 0);
            if let Ok((v, q)) = spec_parse_with(a, p, 0) {
                if p < q <= a.len() {
                    assert(peek_at(a, q) == peek_at(b, q));
                    if peek_at(a, q) == SpecToken::Comma {
                        lemma_parse_array_from(a, b, q + 1, acc.push(v));
                    }
                }
            }
        }
    }
}

/// The expression that the tokens from position `p` start with.
pub open spec fn spec_parse(ts: Seq<SpecToken>, p: int) -> Result<SpecExpr, SpecError> {
    match spec_parse_with(ts, p, 0) {
        Ok((e, _)) => Ok(e),
        Err(err) => Err(err),
    }
}

} // verus!

verus! {

/// `r` and the position `q` after the call are what the parse result `s`
/// from position `p` says.
pub open spec fn parse_outcome(s: Parsed, r: Result<Expression, Error>, p: int, q: int, n: int) -> bool {
    match s {
        Ok((e, end)) => r matches Ok(x) && x@ == e && q == end && p < end <= n,
        Err(err) => r matches Err(x) && x@ == err,
    }
}

/// Whether an expression can start with the token `t`: an opening
/// parenthesis or bracket, a prefix operator, `let`, a name or a literal.
pub open spec fn starts_expr(t: SpecToken) -> bool {
    match t {
        SpecToken::Op(op) => op == Op::LParen || op == Op::LBracket || spec_prefix_bp(op) is Some,
        SpecToken::Let | SpecToken::Ident(_) | SpecToken::Str(_) | SpecToken::Int(_) | SpecToken::Float(_) => true,
        _ => false,
    }
}

/// Parses the expression at the current position of `tokens`.
pub fn parse(tokens: Tokens) -> (r: Result<Expression, Error>)
    ensures
        match spec_parse(tokens.items(), tokens.pos()) {
            Ok(e) => r matches Ok(x) && x@ == e,
            Err(err) => r matches Err(x) && x@ == err,
        },
{
    let mut tokens = tokens;
    parse_with(&mut tokens, 0)
}

fn parse_with(tokens: &mut Tokens, bp: u8) -> (r: Result<Expression, Error>)
    ensures
        taken_between(final(tokens).items(), old(tokens).items(), old(tokens).pos(), final(tokens).pos()),
        old(tokens).pos() <= final(tokens).pos() <= old(tokens).items().len(),
        !starts_expr(peek_at(old(tokens).items(), old(tokens).pos())) ==> final(tokens).pos() == old(tokens).pos(),
        parse_outcome(spec_parse_with(old(tokens).items(), old(tokens).pos(), bp), r,
            old(tokens).pos(), final(tokens).pos(), old(tokens).items().len() as int),
    decreases old(tokens).items().len() - old(tokens).pos(), 0int,
{
    let ghost ts = tokens.items();
    let ghost p0 = tokens.pos();
    let ghost n = ts.len() as int;
    let first = tokens.peek();
    let mut lhs = match first {
        Token::Op(Op::LParen) => {
            tokens.consume();
            proof { lemma_parse_with_from(tokens.items(), ts, tokens.pos(), 0); }
            let inner = match parse_with(tokens, 0) {
                Ok(e) => e,
                Err(e) => return Err(e),
            };
            let closed = match tokens.peek() {
                Token::Op(Op::RParen) => true,
                _ => false,
            };
            if !closed {
                return Err(Error::MissingClosingParen);
            }
            tokens.consume();
            inner
        },
        Token::Op(Op::LBracket) => {
            tokens.consume();
            proof { lemma_parse_array_from(tokens.items(), ts, tokens.pos(), Seq::empty()); }
            match parse_array(tokens) {
                Ok(e) => e,
                Err(e) => return Err(e),
            }
        },
        Token::Op(op) => {
            let op = *op;
            match prefix_bp(op) {
                None => return Err(Error::InvalidOperator(op)),
                Some(r) => {
                    tokens.consume();
                    proof { lemma_parse_with_from(tokens.items(), ts, tokens.pos(), r); }
                    let value = match parse_with(tokens, r) {
                        Ok(v) => v,
                        Err(e) => return Err(e),
                    };
                    return Ok(Expression::Unary { value: Box::new(value), op });
                },
            }
        },
        Token::Let => {
            tokens.consume();
            proof { lemma_parse_decl_from(tokens.items(), ts, tokens.pos()); }
            return parse_decl(tokens);
        },
        Token::Ident(_) => Expression::Ident(tokens.take_string()),
        Token::Str(_) => Expression::Str(tokens.take_string()),
        Token::Int(_) => Expression::Int(tokens.take_int()),
        Token::Float(_) => Expression::Float(tokens.take_float()),
        token => return Err(Error::NotEnoughCake(token.duplicate())),
    };

    loop
        invariant
            taken_between(tokens.items(), ts, p0, tokens.pos()),
            ts == old(tokens).items(),
            p0 == old(tokens).pos(),
            n == ts.len(),
            0 <= p0 < tokens.pos() <= n,
            starts_expr(peek_at(ts, p0)),
            spec_parse_loop(ts, tokens.pos(), bp, lhs@) == spec_parse_with(ts, p0, bp),
        ensures
            taken_between(tokens.items(), ts, p0, tokens.pos()),
            0 <= p0 < tokens.pos() <= n,
            spec_parse_loop(ts, tokens.pos(), bp, lhs@) == spec_parse_with(ts, p0, bp),
            spec_parse_loop(ts, tokens.pos(), bp, lhs@) == Ok::<(SpecExpr, int), SpecError>((lhs@, tokens.pos())),
        decreases n - tokens.pos(),
    {
        let ghost p = tokens.pos();
        assert(peek_at(tokens.items(), p) == peek_at(ts, p));
        let op = match tokens.peek() {
            Token::Op(op) => *op,
            _ => break,
        };

        if let Some(l) = postfix_bp(op) {
            if l < bp {
                break;
            }
            tokens.consume();

            if op == Op::Equal {
                proof { lemma_parse_with_from(tokens.items(), ts, tokens.pos(), l); }
                let rhs = match parse_with(tokens, l) {
                    Ok(v) => v,
                    Err(e) => return Err(e),
                };
                lhs = Expression::Assignment { lhs: Box::new(lhs), rhs: Box::new(rhs) };
                continue;
            }

            if op == Op::LBracket {
                proof { lemma_parse_with_from(tokens.items(), ts, tokens.pos(), l); }
                let key = match parse_with(tokens, l) {
                    Ok(v) => v,
                    Err(e) => return Err(e),
                };
                lhs = Expression::Index { src: Box::new(lhs), key: Box::new(key) };
                assert(peek_at(tokens.items(), tokens.pos()) == peek_at(ts, tokens.pos()));
                let closing = tokens.take();
                match closing {
                    Token::Op(Op::RBracket) => continue,
                    token => return Err(Error::InvalidToken(token)),
                }
            }

            // a call: op is the opening parenthesis
            proof { lemma_parse_args_from(tokens.items(), ts, tokens.pos(), Seq::empty()); }
            let args = match parse_args(tokens) {
                Ok(a) => a,
                Err(e) => return Err(e),
            };
            lhs = Expression::Fn { fun: Box::new(lhs), args };
            continue;
        }

        if let Some((l, r)) = infix_bp(op) {
            if l < bp {
                break;
            }
            tokens.consume();
            proof { lemma_parse_with_from(tokens.items(), ts, tokens.pos(), r); }
            let rhs = match parse_with(tokens, r) {
                Ok(v) => v,
                Err(e) => return Err(e),
            };
            lhs = Expression::Binary { lhs: Box::new(lhs), rhs: Box::new(rhs), op };
            continue;
        }

        break;
    }

    Ok(lhs)
}

fn parse_decl(tokens: &mut Tokens) -> (r: Result<Expression, Error>)
    ensures
        taken_between(final(tokens).items(), old(tokens).items(), old(tokens).pos(), final(tokens).pos()),
        old(tokens).pos() <= final(tokens).pos() <= old(tokens).items().len(),
        parse_outcome(spec_parse_decl(old(tokens).items(), old(tokens).pos()), r,
            old(tokens).pos() - 1, final(tokens).pos(), old(tokens).items().len() as int),
    decreases old(tokens).items().len() - old(tokens).pos(), 0int,
{
    let ghost ts = tokens.items();
    let _ = tokens.peek();
    let ident = match tokens.take() {
        Token::Ident(ident) => ident,
        token => return Err(Error::InvalidToken(token)),
    };
    assert(peek_at(tokens.items(), tokens.pos()) == peek_at(ts, tokens.pos()));
    match tokens.take() {
        Token::Op(Op::Equal) => {},
        token => return Err(Error::InvalidToken(token)),
    }
    proof { lemma_parse_with_from(tokens.items(), ts, tokens.pos(), 0); }
    let value = match parse_with(tokens, 0) {
        Ok(v) => v,
        Err(e) => return Err(e),
    };
    Ok(Expression::Declaration { ident, value: Box::new(value) })
}

fn parse_args(tokens: &mut Tokens) -> (r: Result<Vec<Expression>, Error>)
    ensures
        taken_between(final(tokens).items(), old(tokens).items(), old(tokens).pos(), final(tokens).pos()),
        old(tokens).pos() <= final(tokens).pos() <= old(tokens).items().len(),
        match spec_parse_args(old(tokens).items(), old(tokens).pos(), Seq::empty()) {
            Ok((args, end)) => r matches Ok(v) && models(v@) == args && final(tokens).pos() == end
                && old(tokens).pos() < end <= old(tokens).items().len(),
            Err(err) => r matches Err(x) && x@ == err,
        },
    decreases old(tokens).items().len() - old(tokens).pos(), 1int,
{
    let ghost ts = tokens.items();
    let ghost p0 = tokens.pos();
    let ghost n = ts.len() as int;
    let _ = tokens.peek();
    let mut values: Vec<Expression> = Vec::new();
    assert(models(values@) =~= Seq::<SpecExpr>::empty());
    loop
        invariant
            taken_between(tokens.items(), ts, p0, tokens.pos()),
            ts == old(tokens).items(),
            p0 == old(tokens).pos(),
            n == ts.len(),
            0 <= p0 <= tokens.pos() <= n,
            spec_parse_args(ts, tokens.pos(), models(values@)) == spec_parse_args(ts, p0, Seq::empty()),
        decreases n - tokens.pos(),
    {
        let ghost p = tokens.pos();
        assert(peek_at(tokens.items(), p) == peek_at(ts, p));
        if let Token::Op(Op::RParen) = tokens.peek() {
            tokens.consume();
            return Ok(values);
        }
        proof { lemma_parse_with_from(tokens.items(), ts, tokens.pos(), 0); }
        let value = match parse_with(tokens, 0) {
            Ok(v) => v,
            Err(e) => return Err(e),
        };
        proof { lemma_models_push(values@, value); }
        values.push(value);
        assert(peek_at(tokens.items(), tokens.pos()) == peek_at(ts, tokens.pos()));
        if let Token::Op(Op::RParen) = tokens.peek() {
            tokens.consume();
            return Ok(values);
        }
        if let Token::Comma = tokens.peek() {
            tokens.consume();
            continue;
        }
        return Err(Error::MissingComma);
    }
}

fn parse_array(tokens: &mut Tokens) -> (r: Result<Expression, Error>)
    ensures
        taken_between(final(tokens).items(), old(tokens).items(), old(tokens).pos(), final(tokens).pos()),
        old(tokens).pos() <= final(tokens).pos() <= old(tokens).items().len(),
        parse_outcome(spec_parse_array(old(tokens).items(), old(tokens).pos(), Seq::empty()), r,
            old(tokens).pos() - 1, final(tokens).pos(), old(tokens).items().len() as int),
        r is Ok ==> old(tokens).pos() < final(tokens).pos(),
    decreases old(tokens).items().len() - old(tokens).pos(), 1int,
{
    let ghost ts = tokens.items();
    let ghost p0 = tokens.pos();
    let ghost n = ts.len() as int;
    let _ = tokens.peek();
    let mut values: Vec<Expression> = Vec::new();
    assert(models(values@) =~= Seq::<SpecExpr>::empty());
    loop
        invariant
            taken_between(tokens.items(), ts, p0, tokens.pos()),
            ts == old(tokens).items(),
            p0 == old(tokens).pos(),
            n == ts.len(),
            0 <= p0 <= tokens.pos() <= n,
            spec_parse_array(ts, tokens.pos(), models(values@)) == spec_parse_array(ts, p0, Seq::empty()),
        decreases n - tokens.pos(),
    {
        let ghost p = tokens.pos();
        assert(peek_at(tokens.items(), p) == peek_at(ts, p));
        if let Token::Op(Op::RBracket) = tokens.peek() {
            tokens.consume();
            return Ok(Expression::Array(values));
        }
        proof { lemma_parse_with_from(tokens.items(), ts, tokens.pos(), 0); }
        let value = match parse_with(tokens, 0) {
            Ok(v) => v,
            Err(e) => return Err(e),
        };
        proof { lemma_models_push(values@, value); }
        values.push(value);
        assert(peek_at(tokens.items(), tokens.pos()) == peek_at(ts, tokens.pos()));
        if let Token::Op(Op::RBracket) = tokens.peek() {
            tokens.consume();
            return Ok(Expression::Array(values));
        }
        if let Token::Comma = tokens.peek() {
            tokens.consume();
            continue;
        }
        return Err(Error::MissingComma);
    }
}

} // verus!
