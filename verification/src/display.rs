use vstd::prelude::*;
use crate::context::{Context, Machine, handed_since};
use crate::error::{Error, FloatErrorKind, IntErrorKind, SpecError};
use crate::eval::spec_ask;
use crate::expression::{Expression, SpecExpr, lemma_models_index, lemma_models_len, models};
use crate::host::{Host, Oracle, Request, SpecRequest, agrees, extends, lemma_agrees_prefix, lemma_extends_push, lemma_extends_refl, lemma_extends_trans, lemma_requests_push};
use crate::lexer::{SpecToken, Token};
use crate::op::{op_name, op_symbol};
use crate::text::{debug_quote, debug_text, int_text, push_int, push_str};

verus! {

/// The text in the host's answer to a formatting request.
pub open spec fn answer_text(a: SpecExpr) -> Seq<char> {
    match a {
        SpecExpr::Str(s) => s,
        _ => Seq::empty(),
    }
}

/// The display text of an expression, as its `Display` writes it, with the
/// host formatting floats; `Deferred` source is shown as it is.
pub open spec fn render(e: SpecExpr, m: Machine, o: Oracle) -> (Seq<char>, Machine)
    decreases e,
{
    match e {
        SpecExpr::Deferred(s) => (s, m),
        SpecExpr::Ident(i) => (i, m),
        SpecExpr::Str(s) => (s, m),
        SpecExpr::Binary { lhs, rhs, op } => {
            let (a, m1) = render(*lhs, m, o);
            let (b, m2) = render(*rhs, m1, o);
            ("("@ + op_symbol(op) + " "@ + a + " "@ + b + ")"@, m2)
        },
        SpecExpr::Unary { value, op } => {
            let (a, m1) = render(*value, m, o);
            ("("@ + op_symbol(op) + a + ")"@, m1)
        },
        SpecExpr::Int(i) => (int_text(i as int), m),
        SpecExpr::Float(f) => {
            let (ans, m1) = spec_ask(m, SpecRequest::ShowFloat(f), o);
            (answer_text(ans), m1)
        },
        SpecExpr::Fn { fun, args } => {
            let (a, m1) = render(*fun, m, o);
            let (b, m2) = render_args(args, 0, m1, o);
            ("<fn "@ + a + "("@ + b + ")"@, m2)
        },
        SpecExpr::Array(values) => {
            let (b, m1) = render_elems(values, 0, m, o);
            ("["@ + b + "]"@, m1)
        },
        SpecExpr::Declaration { ident, value } => {
            let (a, m1) = render(*value, m, o);
            ("let "@ + ident + " = "@ + a, m1)
        },
        SpecExpr::Assignment { lhs, rhs } => {
            let (a, m1) = render(*lhs, m, o);
            let (b, m2) = render(*rhs, m1, o);
            (a + " = "@ + b, m2)
        },
        SpecExpr::Index { src, key } => {
            let (a, m1) = render(*src, m, o);
            let (b, m2) = render(*key, m1, o);
            (a + "["@ + b + "]"@, m2)
        },
        SpecExpr::Null => ("<null>"@, m),
    }
}

/// The arguments of a call from position `i` on: each argument, followed
/// by `, ` when it is not the first.
pub open spec fn render_args(args: Seq<SpecExpr>, i: int, m: Machine, o: Oracle) -> (Seq<char>, Machine)
    decreases args,
{
    if args.len() == 0 {
        (Seq::empty(), m)
    } else {
        let (a, m1) = render(args[0], m, o);
        let (rest, m2) = render_args(args.drop_first(), i + 1, m1, o);
        (a + (if i > 0 { ", "@ } else { Seq::empty() }) + rest, m2)
    }
}

/// The elements of an array from position `i` on, separated by `, `.
pub open spec fn render_elems(values: Seq<SpecExpr>, i: int, m: Machine, o: Oracle) -> (Seq<char>, Machine)
    decreases values,
{
    if values.len() == 0 {
        (Seq::empty(), m)
    } else {
        let (a, m1) = render(values[0], m, o);
        let (rest, m2) = render_elems(values.drop_first(), i + 1, m1, o);
        ((if i > 0 { ", "@ } else { Seq::empty() }) + a + rest, m2)
    }
}

/// A token as its derived `Debug` writes it, with the host formatting floats.
pub open spec fn token_debug(t: SpecToken, m: Machine, o: Oracle) -> (Seq<char>, Machine) {
    match t {
        SpecToken::LCurly => ("LCurly"@, m),
        SpecToken::RCurly => ("RCurly"@, m),
        SpecToken::Comma => ("Comma"@, m),
        SpecToken::SemiColon => ("SemiColon"@, m),
        SpecToken::EqualEqual => ("EqualEqual"@, m),
        SpecToken::Op(op) => ("Op("@ + op_name(op) + ")"@, m),
        SpecToken::DotDot => ("DotDot"@, m),
        SpecToken::Let => ("Let"@, m),
        SpecToken::Ident(s) => ("Ident("@ + debug_text(s) + ")"@, m),
        SpecToken::Str(s) => ("Str("@ + debug_text(s) + ")"@, m),
        SpecToken::Int(i) => ("Int("@ + int_text(i as int) + ")"@, m),
        SpecToken::Float(f) => {
            let (ans, m1) = spec_ask(m, SpecRequest::DebugFloat(f), o);
            ("Float("@ + answer_text(ans) + ")"@, m1)
        },
        SpecToken::Consumed => ("Consumed"@, m),
        SpecToken::Eof => ("Eof"@, m),
    }
}

/// The message of an error, as its `Display` writes it.
pub open spec fn error_text(e: SpecError, m: Machine, o: Oracle) -> (Seq<char>, Machine) {
    match e {
        SpecError::UnterminatedString => ("unterminated string"@, m),
        SpecError::NotEnoughCake(t) => {
            let (a, m1) = token_debug(t, m, o);
            ("not enough cake: "@ + a, m1)
        },
        SpecError::IntError(IntErrorKind::PosOverflow) => ("number too large to fit in target type"@, m),
        SpecError::FloatError(FloatErrorKind::Empty) => ("cannot parse float from empty string"@, m),
        SpecError::FloatError(FloatErrorKind::Invalid) => ("invalid float literal"@, m),
        SpecError::MissingClosingParen => ("missing closing paren"@, m),
        SpecError::MissingComma => ("missing a comma in a collection"@, m),
        SpecError::InvalidToken(t) => {
            let (a, m1) = token_debug(t, m, o);
            ("invalid token: "@ + a, m1)
        },
        SpecError::InvalidOperator(op) => ("invalid operator: "@ + op_name(op), m),
    }
}

} // verus!

verus! {

/// Asks the host to format a float and appends the text of its answer.
fn write_answer<U, H: Host<U>>(request: Request, out: &mut String, ctx: &mut Context<U>, host: &H)
    requires
        old(ctx).wf(),
        request is ShowFloat || request is DebugFloat,
    ensures
        final(ctx).wf(),
        final(ctx).variables == old(ctx).variables,
        final(ctx).functions == old(ctx).functions,
        extends(final(ctx).history(), old(ctx).history()),
        final(ctx).user_data == old(ctx).user_data,
        handed_since(*final(ctx), *old(ctx)),
        forall|o: Oracle| #[trigger] agrees(o, final(ctx).history()) ==> ({
            let (ans, m1) = spec_ask(old(ctx).machine(), request@, o);
            final(out)@ == old(out)@ + answer_text(ans) && m1 == final(ctx).machine()
        }),
{
    let ghost h0 = ctx.history();
    let ghost m0 = ctx.machine();
    let ghost req = request@;
    let answer = ctx.ask(host, request);
    match &answer {
        Expression::Str(s) => push_str(out, s.as_str()),
        _ => {
            assert(out@ =~= old(out)@ + Seq::<char>::empty());
        },
    }
    proof {
        lemma_requests_push(h0, (req, answer@));
        lemma_extends_push(h0, (req, answer@));
        assert forall|o: Oracle| #[trigger] agrees(o, ctx.history()) implies ({
            let (ans, m1) = spec_ask(m0, req, o);
            out@ == old(out)@ + answer_text(ans) && m1 == ctx.machine()
        }) by {
            assert(ctx.history()[h0.len() as int] == (req, answer@));
            assert(ctx.machine() =~= Machine { vars: m0.vars, calls: m0.calls.push(req) });
        }
    }
}

/// Appends the display text of `e`.
pub fn write_expr<U, H: Host<U>>(e: &Expression, out: &mut String, ctx: &mut Context<U>, host: &H)
    requires
        old(ctx).wf(),
    ensures
        final(ctx).wf(),
        final(ctx).variables == old(ctx).variables,
        final(ctx).functions == old(ctx).functions,
        extends(final(ctx).history(), old(ctx).history()),
        final(ctx).user_data == old(ctx).user_data,
        handed_since(*final(ctx), *old(ctx)),
        forall|o: Oracle| #[trigger] agrees(o, final(ctx).history()) ==>
            final(out)@ == old(out)@ + render(e@, old(ctx).machine(), o).0
            && render(e@, old(ctx).machine(), o).1 == final(ctx).machine(),
    decreases e,
{
    let ghost h0 = ctx.history();
    let ghost m0 = ctx.machine();
    let ghost o0 = out@;
    match e {
        Expression::Deferred(s) | Expression::Ident(s) | Expression::Str(s) => {
            push_str(out, s.as_str());
            proof { lemma_extends_refl(h0); }
        },
        Expression::Int(i) => {
            push_int(out, *i);
            proof { lemma_extends_refl(h0); }
        },
        Expression::Float(f) => {
            write_answer(Request::ShowFloat(f.clone()), out, ctx, host);
        },
        Expression::Binary { lhs, rhs, op } => {
            push_str(out, "(");
            push_str(out, op.symbol());
            push_str(out, " ");
            let ghost o1 = out@;
            write_expr(lhs, out, ctx, host);
            let ghost h1 = ctx.history();
            let ghost o2 = out@;
            push_str(out, " ");
            let ghost o3 = out@;
            write_expr(rhs, out, ctx, host);
            let ghost o4 = out@;
            push_str(out, ")");
            proof {
                lemma_extends_trans(ctx.history(), h1, h0);
                assert forall|o: Oracle| #[trigger] agrees(o, ctx.history()) implies
                    out@ == o0 + render(e@, m0, o).0 && render(e@, m0, o).1 == ctx.machine() by {
                    lemma_agrees_prefix(o, ctx.history(), h1);
                    assert(out@ =~= o0 + render(e@, m0, o).0);
                }
            }
        },
        Expression::Unary { value, op } => {
            push_str(out, "(");
            push_str(out, op.symbol());
            write_expr(value, out, ctx, host);
            push_str(out, ")");
            proof {
                assert forall|o: Oracle| #[trigger] agrees(o, ctx.history()) implies
                    out@ == o0 + render(e@, m0, o).0 && render(e@, m0, o).1 == ctx.machine() by {
                    assert(out@ =~= o0 + render(e@, m0, o).0);
                }
            }
        },
        Expression::Fn { fun, args } => {
            push_str(out, "<fn ");
            write_expr(fun, out, ctx, host);
            let ghost h1 = ctx.history();
            push_str(out, "(");
            write_list(args, true, out, ctx, host);
            push_str(out, ")");
            proof {
                lemma_extends_trans(ctx.history(), h1, h0);
                assert forall|o: Oracle| #[trigger] agrees(o, ctx.history()) implies
                    out@ == o0 + render(e@, m0, o).0 && render(e@, m0, o).1 == ctx.machine() by {
                    lemma_agrees_prefix(o, ctx.history(), h1);
                    assert(out@ =~= o0 + render(e@, m0, o).0);
                }
            }
        },
        Expression::Array(values) => {
            push_str(out, "[");
            write_list(values, false, out, ctx, host);
            push_str(out, "]");
            proof {
                assert forall|o: Oracle| #[trigger] agrees(o, ctx.history()) implies
                    out@ == o0 + render(e@, m0, o).0 && render(e@, m0, o).1 == ctx.machine() by {
                    assert(out@ =~= o0 + render(e@, m0, o).0);
                }
            }
        },
        Expression::Declaration { ident, value } => {
            push_str(out, "let ");
            push_str(out, ident.as_str());
            push_str(out, " = ");
            write_expr(value, out, ctx, host);
            proof {
                assert forall|o: Oracle| #[trigger] agrees(o, ctx.history()) implies
                    out@ == o0 + render(e@, m0, o).0 && render(e@, m0, o).1 == ctx.machine() by {
                    assert(out@ =~= o0 + render(e@, m0, o).0);
                }
            }
        },
        Expression::Assignment { lhs, rhs } => {
            write_expr(lhs, out, ctx, host);
            let ghost h1 = ctx.history();
            push_str(out, " = ");
            write_expr(rhs, out, ctx, host);
            proof {
                lemma_extends_trans(ctx.history(), h1, h0);
                assert forall|o: Oracle| #[trigger] agrees(o, ctx.history()) implies
                    out@ == o0 + render(e@, m0, o).0 && render(e@, m0, o).1 == ctx.machine() by {
                    lemma_agrees_prefix(o, ctx.history(), h1);
                    assert(out@ =~= o0 + render(e@, m0, o).0);
                }
            }
        },
        Expression::Index { src, key } => {
            write_expr(src, out, ctx, host);
            let ghost h1 = ctx.history();
            push_str(out, "[");
            write_expr(key, out, ctx, host);
            push_str(out, "]");
            proof {
                lemma_extends_trans(ctx.history(), h1, h0);
                assert forall|o: Oracle| #[trigger] agrees(o, ctx.history()) implies
                    out@ == o0 + render(e@, m0, o).0 && render(e@, m0, o).1 == ctx.machine() by {
                    lemma_agrees_prefix(o, ctx.history(), h1);
                    assert(out@ =~= o0 + render(e@, m0, o).0);
                }
            }
        },
        Expression::Null => {
            push_str(out, "<null>");
            proof { lemma_extends_refl(h0); }
        },
    }
}

/// The text of a list: call arguments (`args`) or array elements.
pub open spec fn render_list(values: Seq<SpecExpr>, args: bool, i: int, m: Machine, o: Oracle) -> (Seq<char>, Machine) {
    if args { render_args(values, i, m, o) } else { render_elems(values, i, m, o) }
}

/// Appends the text of a list of expressions.
fn write_list<U, H: Host<U>>(values: &Vec<Expression>, args: bool, out: &mut String, ctx: &mut Context<U>, host: &H)
    requires
        old(ctx).wf(),
    ensures
        final(ctx).wf(),
        final(ctx).variables == old(ctx).variables,
        final(ctx).functions == old(ctx).functions,
        extends(final(ctx).history(), old(ctx).history()),
        final(ctx).user_data == old(ctx).user_data,
        handed_since(*final(ctx), *old(ctx)),
        forall|o: Oracle| #[trigger] agrees(o, final(ctx).history()) ==>
            final(out)@ == old(out)@ + render_list(models(values@), args, 0, old(ctx).machine(), o).0
            && render_list(models(values@), args, 0, old(ctx).machine(), o).1 == final(ctx).machine(),
    decreases values,
{
    let ghost h0 = ctx.history();
    let ghost m0 = ctx.machine();
    let ghost o0 = out@;
    let ghost vm = models(values@);
    let ghost vars0 = ctx.variables;
    let ghost funs0 = ctx.functions;
    proof {
        lemma_models_len(values@);
        lemma_extends_refl(h0);
        assert(vm.skip(0) =~= vm);
    }
    let mut i: usize = 0;
    while i < values.len()
        invariant
            i <= values@.len(),
            vm.len() == values@.len(),
            vm == models(values@),
            ctx.wf(),
            ctx.variables == vars0,
            ctx.functions == funs0,
            h0 == old(ctx).history(),
            m0 == old(ctx).machine(),
            vars0 == old(ctx).variables,
            funs0 == old(ctx).functions,
            o0 == old(out)@,
            extends(ctx.history(), h0),
            ctx.user_data == old(ctx).user_data,
            handed_since(*ctx, *old(ctx)),
            forall|o: Oracle| #[trigger] agrees(o, ctx.history()) ==>
                o0 + render_list(vm, args, 0, m0, o).0
                    == out@ + render_list(vm.skip(i as int), args, i as int, ctx.machine(), o).0
                && render_list(vm, args, 0, m0, o).1
                    == render_list(vm.skip(i as int), args, i as int, ctx.machine(), o).1,
        decreases values@.len() - i,
    {
        let ghost h1 = ctx.history();
        let ghost m1 = ctx.machine();
        let ghost before = out@;
        proof {
            lemma_models_index(values@, i as int);
            assert(vm.skip(i as int)[0] == vm[i as int]);
            assert(vm.skip(i as int).drop_first() =~= vm.skip(i + 1));
        }
        assert(decreases_to!(values => values@[i as int]));
        if !args && i > 0 {
            push_str(out, ", ");
        }
        let ghost mid = out@;
        write_expr(&values[i], out, ctx, host);
        let ghost after = out@;
        if args && i > 0 {
            push_str(out, ", ");
        }
        proof {
            lemma_extends_trans(ctx.history(), h1, h0);
            assert forall|o: Oracle| #[trigger] agrees(o, ctx.history()) implies
                o0 + render_list(vm, args, 0, m0, o).0
                    == out@ + render_list(vm.skip(i + 1), args, i + 1, ctx.machine(), o).0
                && render_list(vm, args, 0, m0, o).1
                    == render_list(vm.skip(i + 1), args, i + 1, ctx.machine(), o).1 by {
                lemma_agrees_prefix(o, ctx.history(), h1);
                let a = render(vm[i as int], m1, o).0;
                let rest = render_list(vm.skip(i + 1), args, i + 1, ctx.machine(), o).0;
                if args {
                    assert(before + (a + (if i > 0 { ", "@ } else { Seq::empty() }) + rest) =~= out@ + rest);
                } else {
                    assert(before + ((if i > 0 { ", "@ } else { Seq::empty() }) + a + rest) =~= out@ + rest);
                }
            }
        }
        i = i + 1;
    }
    proof {
        assert forall|o: Oracle| #[trigger] agrees(o, ctx.history()) implies
            out@ == o0 + render_list(vm, args, 0, m0, o).0
            && render_list(vm, args, 0, m0, o).1 == ctx.machine() by {
            assert(vm.skip(i as int) =~= Seq::<SpecExpr>::empty());
            assert(out@ + Seq::<char>::empty() =~= out@);
        }
    }
}

} // verus!

verus! {

/// Appends the `Debug` text of a token.
fn write_token<U, H: Host<U>>(t: &Token, out: &mut String, ctx: &mut Context<U>, host: &H)
    requires
        old(ctx).wf(),
    ensures
        final(ctx).wf(),
        final(ctx).variables == old(ctx).variables,
        final(ctx).functions == old(ctx).functions,
        extends(final(ctx).history(), old(ctx).history()),
        final(ctx).user_data == old(ctx).user_data,
        handed_since(*final(ctx), *old(ctx)),
        forall|o: Oracle| #[trigger] agrees(o, final(ctx).history()) ==>
            final(out)@ == old(out)@ + token_debug(t@, old(ctx).machine(), o).0
            && token_debug(t@, old(ctx).machine(), o).1 == final(ctx).machine(),
{
    let ghost h0 = ctx.history();
    let ghost m0 = ctx.machine();
    let ghost o0 = out@;
    proof { lemma_extends_refl(h0); }
    match t {
        Token::LCurly => push_str(out, "LCurly"),
        Token::RCurly => push_str(out, "RCurly"),
        Token::Comma => push_str(out, "Comma"),
        Token::SemiColon => push_str(out, "SemiColon"),
        Token::EqualEqual => push_str(out, "EqualEqual"),
        Token::Op(op) => {
            push_str(out, "Op(");
            push_str(out, op.name());
            push_str(out, ")");
            assert(out@ =~= o0 + token_debug(t@, m0, arbitrary()).0);
        },
        Token::DotDot => push_str(out, "DotDot"),
        Token::Let => push_str(out, "Let"),
        Token::Ident(s) => {
            push_str(out, "Ident(");
            let q = debug_quote(s.as_str());
            push_str(out, q.as_str());
            push_str(out, ")");
            assert(out@ =~= o0 + token_debug(t@, m0, arbitrary()).0);
        },
        Token::Str(s) => {
            push_str(out, "Str(");
            let q = debug_quote(s.as_str());
            push_str(out, q.as_str());
            push_str(out, ")");
            assert(out@ =~= o0 + token_debug(t@, m0, arbitrary()).0);
        },
        Token::Int(i) => {
            push_str(out, "Int(");
            push_int(out, *i);
            push_str(out, ")");
            assert(out@ =~= o0 + token_debug(t@, m0, arbitrary()).0);
        },
        Token::Float(f) => {
            push_str(out, "Float(");
            let ghost o1 = out@;
            write_answer(Request::DebugFloat(f.clone()), out, ctx, host);
            push_str(out, ")");
            proof {
                assert forall|o: Oracle| #[trigger] agrees(o, ctx.history()) implies
                    out@ == o0 + token_debug(t@, m0, o).0 && token_debug(t@, m0, o).1 == ctx.machine() by {
                    assert(out@ =~= o0 + token_debug(t@, m0, o).0);
                }
            }
        },
        Token::Consumed => push_str(out, "Consumed"),
        Token::Eof => push_str(out, "Eof"),
    }
}

/// Appends the message of an error (its `Display`).
pub fn write_error<U, H: Host<U>>(e: &Error, out: &mut String, ctx: &mut Context<U>, host: &H)
    requires
        old(ctx).wf(),
    ensures
        final(ctx).wf(),
        final(ctx).variables == old(ctx).variables,
        final(ctx).functions == old(ctx).functions,
        extends(final(ctx).history(), old(ctx).history()),
        final(ctx).user_data == old(ctx).user_data,
        handed_since(*final(ctx), *old(ctx)),
        forall|o: Oracle| #[trigger] agrees(o, final(ctx).history()) ==>
            final(out)@ == old(out)@ + error_text(e@, old(ctx).machine(), o).0
            && error_text(e@, old(ctx).machine(), o).1 == final(ctx).machine(),
{
    let ghost h0 = ctx.history();
    let ghost m0 = ctx.machine();
    let ghost o0 = out@;
    proof { lemma_extends_refl(h0); }
    match e {
        Error::UnterminatedString => push_str(out, "unterminated string"),
        Error::NotEnoughCake(token) => {
            push_str(out, "not enough cake: ");
            write_token(token, out, ctx, host);
            proof {
                assert forall|o: Oracle| #[trigger] agrees(o, ctx.history()) implies
                    out@ == o0 + error_text(e@, m0, o).0 && error_text(e@, m0, o).1 == ctx.machine() by {
                    assert(out@ =~= o0 + error_text(e@, m0, o).0);
                }
            }
        },
        Error::IntError(IntErrorKind::PosOverflow) => push_str(out, "number too large to fit in target type"),
        Error::FloatError(FloatErrorKind::Empty) => push_str(out, "cannot parse float from empty string"),
        Error::FloatError(FloatErrorKind::Invalid) => push_str(out, "invalid float literal"),
        Error::MissingClosingParen => push_str(out, "missing closing paren"),
        Error::MissingComma => push_str(out, "missing a comma in a collection"),
        Error::InvalidToken(token) => {
            push_str(out, "invalid token: ");
            write_token(token, out, ctx, host);
            proof {
                assert forall|o: Oracle| #[trigger] agrees(o, ctx.history()) implies
                    out@ == o0 + error_text(e@, m0, o).0 && error_text(e@, m0, o).1 == ctx.machine() by {
                    assert(out@ =~= o0 + error_text(e@, m0, o).0);
                }
            }
        },
        Error::InvalidOperator(op) => {
            push_str(out, "invalid operator: ");
            push_str(out, op.name());
            assert(out@ =~= o0 + error_text(e@, m0, arbitrary()).0);
        },
    }
}

} // verus!
