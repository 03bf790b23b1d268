use vstd::prelude::*;
use crate::context::{Context, Machine, handed_since};
use crate::expression::{Expression, SpecExpr, lemma_models_index, lemma_models_len, lemma_models_push, models};
use crate::fun::Callable;
use crate::fun::maths::{math_args_fit, math_args_ok};
use crate::fun::string::{spec_to_lower, spec_to_upper, to_lower, to_upper};
use crate::host::{Host, Oracle, Request, SpecRequest, agrees, extends, lemma_agrees_prefix, lemma_extends_push, lemma_extends_refl, lemma_extends_trans, lemma_requests_push};
use crate::lexer::{lex, spec_lex};
use crate::op::Op;
use crate::pratt::{parse, spec_parse};
use crate::vars::{assign, declare, undeclare, var_value};

verus! {

/// The names of the functions of a context.
pub type Funs = Map<Seq<char>, Callable>;

/// The host answers request `req` as the oracle says.
pub open spec fn spec_ask(m: Machine, req: SpecRequest, o: Oracle) -> (SpecExpr, Machine) {
    (o(m.calls.len()), Machine { vars: m.vars, calls: m.calls.push(req) })
}

/// Integer arithmetic; `+`, `-` and `*` wrap around, division by zero
/// gives `Null` and `i64::MIN / -1` wraps to `i64::MIN`.
pub open spec fn spec_int_op(lhs: i64, rhs: i64, op: Op) -> SpecExpr {
    match op {
        Op::Plus => SpecExpr::Int(lhs.wrapping_add(rhs)),
        Op::Minus => SpecExpr::Int(lhs.wrapping_sub(rhs)),
        Op::Mul => SpecExpr::Int(lhs.wrapping_mul(rhs)),
        Op::Div => if rhs == 0 {
            SpecExpr::Null
        } else {
            match lhs.checked_div(rhs) {
                Some(q) => SpecExpr::Int(q),
                None => SpecExpr::Int(i64::MIN),
            }
        },
        _ => SpecExpr::Null,
    }
}

/// Calling the function `key` with the evaluated arguments `args`: a
/// string function is applied here, a floating-point function whose
/// arguments suit it and a registered function go to the host, and an
/// unknown name gives `Null`.
pub open spec fn spec_call(key: Seq<char>, args: Seq<SpecExpr>, m: Machine, fs: Funs, o: Oracle) -> (SpecExpr, Machine) {
    if fs.contains_key(key) {
        match fs[key] {
            Callable::ToLower => (spec_to_lower(args), m),
            Callable::ToUpper => (spec_to_upper(args), m),
            Callable::Math(f) => if math_args_ok(f, args) {
                spec_ask(m, SpecRequest::Math { fun: f, args }, o)
            } else {
                (SpecExpr::Null, m)
            },
            Callable::Registered(h) => spec_ask(m, SpecRequest::Call { handle: h, name: key, args }, o),
        }
    } else {
        (SpecExpr::Null, m)
    }
}

/// Evaluates `e` in state `m` with at most `d` nested evaluations; the
/// host answers as `o` says. Gives the value and the new state.
pub open spec fn spec_eval(e: SpecExpr, m: Machine, fs: Funs, o: Oracle, d: nat) -> (SpecExpr, Machine)
    decreases d, 0int,
{
    if d == 0 {
        (SpecExpr::Null, m)
    } else {
        let d1 = (d - 1) as nat;
        match e {
            SpecExpr::Deferred(src) => match spec_lex(src) {
                Ok(ts) => match spec_parse(ts, 0) {
                    Ok(x) => spec_eval(x, m, fs, o, d1),
                    Err(_) => (SpecExpr::Null, m),
                },
                Err(_) => (SpecExpr::Null, m),
            },
            SpecExpr::Ident(id) => spec_eval(var_value(m.vars, id), m, fs, o, d1),
            SpecExpr::Str(_) => (e, m),
            SpecExpr::Int(_) => (e, m),
            SpecExpr::Float(_) => (e, m),
            SpecExpr::Array(_) => (e, m),
            SpecExpr::Binary { lhs, rhs, op } => spec_eval_op(*lhs, *rhs, op, m, fs, o, d1),
            SpecExpr::Unary { value, op } => (
                if op == Op::Minus {
                    match *value {
                        SpecExpr::Int(i) => SpecExpr::Int(0i64.wrapping_sub(i)),
                        _ => SpecExpr::Null,
                    }
                } else {
                    SpecExpr::Null
                },
                m,
            ),
            SpecExpr::Fn { fun, args } => match *fun {
                SpecExpr::Ident(key) => {
                    let (vals, m1) = spec_eval_args(args, 0, m, fs, o, d1);
                    spec_call(key, vals, m1, fs, o)
                },
                _ => (SpecExpr::Null, m),
            },
            SpecExpr::Declaration { ident, value } => {
                let (v, m1) = spec_eval(*value, m, fs, o, d1);
                let vars = if v is Null { undeclare(m1.vars, ident) } else { declare(m1.vars, ident, v) };
                (SpecExpr::Null, Machine { vars, calls: m1.calls })
            },
            SpecExpr::Assignment { lhs, rhs } => {
                let (v, m1) = spec_eval(*rhs, m, fs, o, d1);
                let (p, m2) = spec_place(*lhs, m1, fs, o, d1);
                match p {
                    Some((name, keys)) => (SpecExpr::Null, Machine { vars: assign(m2.vars, name, keys, v), calls: m2.calls }),
                    None => (SpecExpr::Null, m2),
                }
            },
            SpecExpr::Index { src, key } => spec_eval_index(*src, *key, m, fs, o, d1),
            SpecExpr::Null => (SpecExpr::Null, m),
        }
    }
}

/// Evaluates `args[i..]` in order.
pub open spec fn spec_eval_args(args: Seq<SpecExpr>, i: int, m: Machine, fs: Funs, o: Oracle, d: nat) -> (Seq<SpecExpr>, Machine)
    decreases d, args.len() - i + 1,
{
    if !(0 <= i < args.len()) {
        (Seq::empty(), m)
    } else {
        let (v, m1) = spec_eval(args[i], m, fs, o, d);
        let (rest, m2) = spec_eval_args(args, i + 1, m1, fs, o, d);
        (seq![v] + rest, m2)
    }
}

/// Evaluates both operands, then applies `op`: strings are joined whatever
/// the operator, integers are combined by `spec_int_op`, and a float with a
/// number goes to the host.
pub open spec fn spec_eval_op(lhs: SpecExpr, rhs: SpecExpr, op: Op, m: Machine, fs: Funs, o: Oracle, d: nat) -> (SpecExpr, Machine)
    decreases d, 0int,
{
    if d == 0 {
        (SpecExpr::Null, m)
    } else {
        let d1 = (d - 1) as nat;
        let (l, m1) = spec_eval(lhs, m, fs, o, d1);
        let (r, m2) = spec_eval(rhs, m1, fs, o, d1);
        match (l, r) {
            (SpecExpr::Str(a), SpecExpr::Str(b)) => (SpecExpr::Str(a + b), m2),
            (SpecExpr::Int(a), SpecExpr::Int(b)) => (spec_int_op(a, b, op), m2),
            (SpecExpr::Int(_), SpecExpr::Float(_)) => spec_ask(m2, SpecRequest::Arith { op, lhs: l, rhs: r }, o),
            (SpecExpr::Float(_), SpecExpr::Int(_)) => spec_ask(m2, SpecRequest::Arith { op, lhs: l, rhs: r }, o),
            (SpecExpr::Float(_), SpecExpr::Float(_)) => spec_ask(m2, SpecRequest::Arith { op, lhs: l, rhs: r }, o),
            _ => (SpecExpr::Null, m2),
        }
    }
}

/// Evaluates `src[key]`: the source is evaluated, and for a non-empty array
/// the key; an integer key within bounds selects the element, which is
/// evaluated in turn.
pub open spec fn spec_eval_index(src: SpecExpr, key: SpecExpr, m: Machine, fs: Funs, o: Oracle, d: nat) -> (SpecExpr, Machine)
    decreases d, 0int,
{
    if d == 0 {
        (SpecExpr::Null, m)
    } else {
        let d1 = (d - 1) as nat;
        let (s, m1) = spec_eval(src, m, fs, o, d1);
        match s {
            SpecExpr::Array(items) => if items.len() > 0 {
                let (k, m2) = spec_eval(key, m1, fs, o, d1);
                match k {
                    SpecExpr::Int(i) => if 0 <= i < items.len() {
                        spec_eval(items[i as int], m2, fs, o, d1)
                    } else {
                        (SpecExpr::Null, m2)
                    },
                    _ => (SpecExpr::Null, m2),
                }
            } else {
                (SpecExpr::Null, m1)
            },
            SpecExpr::Index { .. } => {
                let (s2, m2) = spec_eval(s, m1, fs, o, d1);
                spec_eval_index(s2, key, m2, fs, o, d1)
            },
            _ => (SpecExpr::Null, m1),
        }
    }
}

/// The place that an assignment's left side names: a variable and the keys
/// into nested arrays, innermost first. The keys are evaluated from the
/// outermost in.
pub open spec fn spec_place(lhs: SpecExpr, m: Machine, fs: Funs, o: Oracle, d: nat) -> (Option<(Seq<char>, Seq<i64>)>, Machine)
    decreases d, 0int,
{
    if d == 0 {
        (None, m)
    } else {
        let d1 = (d - 1) as nat;
        match lhs {
            SpecExpr::Ident(name) => (Some((name, Seq::empty())), m),
            SpecExpr::Index { src, key } => {
                let (k, m1) = spec_eval(*key, m, fs, o, d1);
                match k {
                    SpecExpr::Int(i) => {
                        let (p, m2) = spec_place(*src, m1, fs, o, d1);
                        match p {
                            Some((name, keys)) => (Some((name, keys.push(i))), m2),
                            None => (None, m2),
                        }
                    },
                    _ => (None, m1),
                }
            },
            _ => (None, m),
        }
    }
}

} // verus!

verus! {

/// The nesting bound of evaluation; evaluation gives `Null` where it would
/// nest deeper. It is high enough that the stack runs out first.
pub const DEPTH: u64 = 18446744073709551615u64;

/// Integer arithmetic, as `spec_int_op` says.
pub fn int_op(lhs: i64, rhs: i64, op: Op) -> (r: Expression)
    ensures
        r@ == spec_int_op(lhs, rhs, op),
{
    match op {
        Op::Plus => Expression::Int(lhs.wrapping_add(rhs)),
        Op::Minus => Expression::Int(lhs.wrapping_sub(rhs)),
        Op::Mul => Expression::Int(lhs.wrapping_mul(rhs)),
        Op::Div => if rhs != 0 {
            match lhs.checked_div(rhs) {
                Some(q) => Expression::Int(q),
                None => Expression::Int(i64::MIN),
            }
        } else {
            Expression::Null
        },
        _ => Expression::Null,
    }
}

/// Evaluates `expression` in `ctx`, asking `host` for what the library
/// cannot compute itself.
pub fn eval<U, H: Host<U>>(expression: Expression, ctx: &mut Context<U>, host: &H) -> (r: Expression)
    requires
        old(ctx).wf(),
    ensures
        final(ctx).wf(),
        final(ctx).functions@ == old(ctx).functions@,
        final(ctx).user_data == old(ctx).user_data,
        extends(final(ctx).history(), old(ctx).history()),
        handed_since(*final(ctx), *old(ctx)),
        forall|o: Oracle| #[trigger] agrees(o, final(ctx).history()) ==>
            spec_eval(expression@, old(ctx).machine(), old(ctx).functions@, o, DEPTH as nat) == (r@, final(ctx).machine()),
{
    eval_at(expression, ctx, host, DEPTH)
}

/// Calls the function `key` with the evaluated arguments `args`.
fn call<U, H: Host<U>>(ctx: &mut Context<U>, host: &H, key: String, args: Vec<Expression>) -> (r: Expression)
    requires
        old(ctx).wf(),
    ensures
        final(ctx).wf(),
        final(ctx).functions@ == old(ctx).functions@,
        final(ctx).user_data == old(ctx).user_data,
        extends(final(ctx).history(), old(ctx).history()),
        handed_since(*final(ctx), *old(ctx)),
        forall|o: Oracle| #[trigger] agrees(o, final(ctx).history()) ==>
            spec_call(key@, models(args@), old(ctx).machine(), old(ctx).functions@, o) == (r@, final(ctx).machine()),
{
    let ghost h0 = ctx.history();
    let ghost m0 = ctx.machine();
    let ghost fs = ctx.functions@;
    let ghost k = key@;
    let ghost a = models(args@);
    match ctx.functions.lookup(&key) {
        None => {
            proof { lemma_extends_refl(h0); }
            Expression::Null
        },
        Some(Callable::ToLower) => {
            proof { lemma_extends_refl(h0); }
            to_lower(args.as_slice())
        },
        Some(Callable::ToUpper) => {
            proof { lemma_extends_refl(h0); }
            to_upper(args.as_slice())
        },
        Some(Callable::Math(f)) => {
            if !math_args_fit(f, &args) {
                proof { lemma_extends_refl(h0); }
                return Expression::Null;
            }
            let request = Request::Math { fun: f, args };
            let ghost req = request@;
            let r = ctx.ask(host, request);
            proof {
                lemma_requests_push(h0, (req, r@));
                lemma_extends_push(h0, (req, r@));
                assert forall|o: Oracle| #[trigger] agrees(o, ctx.history()) implies
                    spec_call(k, a, m0, fs, o) == (r@, ctx.machine()) by {
                    assert(ctx.history()[h0.len() as int] == (req, r@));
                    assert(ctx.machine() =~= Machine { vars: m0.vars, calls: m0.calls.push(req) });
                }
            }
            r
        },
        Some(Callable::Registered(handle)) => {
            let request = Request::Call { handle, name: key, args };
            let ghost req = request@;
            let r = ctx.ask(host, request);
            proof {
                lemma_requests_push(h0, (req, r@));
                lemma_extends_push(h0, (req, r@));
                assert forall|o: Oracle| #[trigger] agrees(o, ctx.history()) implies
                    spec_call(k, a, m0, fs, o) == (r@, ctx.machine()) by {
                    assert(ctx.history()[h0.len() as int] == (req, r@));
                    assert(ctx.machine() =~= Machine { vars: m0.vars, calls: m0.calls.push(req) });
                }
            }
            r
        },
    }
}

fn eval_at<U, H: Host<U>>(e: Expression, ctx: &mut Context<U>, host: &H, d: u64) -> (r: Expression)
    requires
        old(ctx).wf(),
    ensures
        final(ctx).wf(),
        final(ctx).functions@ == old(ctx).functions@,
        final(ctx).user_data == old(ctx).user_data,
        extends(final(ctx).history(), old(ctx).history()),
        handed_since(*final(ctx), *old(ctx)),
        forall|o: Oracle| #[trigger] agrees(o, final(ctx).history()) ==>
            spec_eval(e@, old(ctx).machine(), old(ctx).functions@, o, d as nat) == (r@, final(ctx).machine()),
    decreases d, 0int,
{
    let ghost h0 = ctx.history();
    let ghost m0 = ctx.machine();
    let ghost fs = ctx.functions@;
    let ghost em = e@;
    if d == 0 {
        proof { lemma_extends_refl(h0); }
        return Expression::Null;
    }
    let d1 = d - 1;
    match e {
        Expression::Deferred(src) => {
            let tokens = match lex(src.as_str()) {
                Ok(t) => t,
                Err(_) => {
                    proof { lemma_extends_refl(h0); }
                    return Expression::Null;
                },
            };
            let expr = match parse(tokens) {
                Ok(x) => x,
                Err(_) => {
                    proof { lemma_extends_refl(h0); }
                    return Expression::Null;
                },
            };
            let r = eval_at(expr, ctx, host, d1);
            proof {
                assert forall|o: Oracle| #[trigger] agrees(o, ctx.history()) implies
                    spec_eval(em, m0, fs, o, d as nat) == (r@, ctx.machine()) by {
                }
            }
            r
        },
        Expression::Ident(ident) => {
            let value = ctx.variables.get(&ident);
            let r = eval_at(value, ctx, host, d1);
            proof {
                assert forall|o: Oracle| #[trigger] agrees(o, ctx.history()) implies
                    spec_eval(em, m0, fs, o, d as nat) == (r@, ctx.machine()) by {
                }
            }
            r
        },
        Expression::Str(s) => {
            proof { lemma_extends_refl(h0); }
            Expression::Str(s)
        },
        Expression::Int(i) => {
            proof { lemma_extends_refl(h0); }
            Expression::Int(i)
        },
        Expression::Float(f) => {
            proof { lemma_extends_refl(h0); }
            Expression::Float(f)
        },
        Expression::Array(v) => {
            proof { lemma_extends_refl(h0); }
            Expression::Array(v)
        },
        Expression::Binary { lhs, rhs, op } => {
            let r = eval_op(*lhs, *rhs, op, ctx, host, d1);
            proof {
                assert forall|o: Oracle| #[trigger] agrees(o, ctx.history()) implies
                    spec_eval(em, m0, fs, o, d as nat) == (r@, ctx.machine()) by {
                }
            }
            r
        },
        Expression::Unary { value, op } => {
            proof { lemma_extends_refl(h0); }
            assert(*em->Unary_value == value@);
            assert(em->Unary_op == op);
            let inner = *value;
            assert(*em->Unary_value == inner@);
            let r = if op == Op::Minus {
                match inner {
                    Expression::Int(i) => Expression::Int(0i64.wrapping_sub(i)),
                    _ => Expression::Null,
                }
            } else {
                Expression::Null
            };
            proof {
                assert forall|o: Oracle| #[trigger] agrees(o, ctx.history()) implies
                    spec_eval(em, m0, fs, o, d as nat) == (r@, ctx.machine()) by {
                }
            }
            r
        },
        Expression::Fn { fun, args } => {
            assert(*em->Fn_fun == fun@);
            let f = *fun;
            assert(*em->Fn_fun == f@);
            match f {
            Expression::Ident(key) => {
                assert(em is Fn);
                assert(em->Fn_args == models(args@));
                assert(*em->Fn_fun == SpecExpr::Ident(key@));
                let ghost am = models(args@);
                let vals = eval_args(args, ctx, host, d1);
                let ghost h1 = ctx.history();
                let ghost m1 = ctx.machine();
                let ghost vm = models(vals@);
                let r = call(ctx, host, key, vals);
                proof {
                    lemma_extends_trans(ctx.history(), h1, h0);
                    assert forall|o: Oracle| #[trigger] agrees(o, ctx.history()) implies
                        spec_eval(em, m0, fs, o, d as nat) == (r@, ctx.machine()) by {
                        lemma_agrees_prefix(o, ctx.history(), h1);
                        assert(spec_eval_args(am, 0, m0, fs, o, d1 as nat) == (vm, m1));
                        assert(spec_call(key@, vm, m1, fs, o) == (r@, ctx.machine()));
                    }
                }
                r
            },
            _ => {
                proof { lemma_extends_refl(h0); }
                Expression::Null
            },
            }
        },
        Expression::Declaration { ident, value } => {
            let v = eval_at(*value, ctx, host, d1);
            let ghost h1 = ctx.history();
            let ghost m1 = ctx.machine();
            let ghost vv = v@;
            let ghost id = ident@;
            let is_null = match v {
                Expression::Null => true,
                _ => false,
            };
            if is_null {
                ctx.variables.remove(&ident);
            } else {
                ctx.variables.push(ident, v);
            }
            proof {
                assert forall|o: Oracle| #[trigger] agrees(o, ctx.history()) implies
                    spec_eval(em, m0, fs, o, d as nat) == (Expression::Null@, ctx.machine()) by {
                    assert(ctx.machine() =~= Machine {
                        vars: if vv is Null { crate::vars::undeclare(m1.vars, id) } else { crate::vars::declare(m1.vars, id, vv) },
                        calls: m1.calls,
                    });
                }
            }
            Expression::Null
        },
        Expression::Assignment { lhs, rhs } => {
            let v = eval_at(*rhs, ctx, host, d1);
            let ghost h1 = ctx.history();
            let ghost vv = v@;
            let p = place(*lhs, ctx, host, d1);
            let ghost h2 = ctx.history();
            let ghost m2 = ctx.machine();
            match p {
                Some((name, keys)) => {
                    ctx.variables.assign(&name, &keys, v);
                },
                None => {},
            }
            proof {
                lemma_extends_trans(h2, h1, h0);
                assert forall|o: Oracle| #[trigger] agrees(o, ctx.history()) implies
                    spec_eval(em, m0, fs, o, d as nat) == (Expression::Null@, ctx.machine()) by {
                    lemma_agrees_prefix(o, ctx.history(), h1);
                }
            }
            Expression::Null
        },
        Expression::Index { src, key } => {
            let r = eval_index(*src, *key, ctx, host, d1);
            proof {
                assert forall|o: Oracle| #[trigger] agrees(o, ctx.history()) implies
                    spec_eval(em, m0, fs, o, d as nat) == (r@, ctx.machine()) by {
                }
            }
            r
        },
        Expression::Null => {
            proof { lemma_extends_refl(h0); }
            Expression::Null
        },
    }
}

fn eval_args<U, H: Host<U>>(args: Vec<Expression>, ctx: &mut Context<U>, host: &H, d: u64) -> (r: Vec<Expression>)
    requires
        old(ctx).wf(),
    ensures
        final(ctx).wf(),
        final(ctx).functions@ == old(ctx).functions@,
        final(ctx).user_data == old(ctx).user_data,
        extends(final(ctx).history(), old(ctx).history()),
        handed_since(*final(ctx), *old(ctx)),
        forall|o: Oracle| #[trigger] agrees(o, final(ctx).history()) ==>
            spec_eval_args(models(args@), 0, old(ctx).machine(), old(ctx).functions@, o, d as nat)
                == (models(r@), final(ctx).machine()),
    decreases d, 1int,
{
    let ghost h0 = ctx.history();
    let ghost m0 = ctx.machine();
    let ghost fs = ctx.functions@;
    let ghost am = models(args@);
    let ghost orig = args@;
    let mut args = args;
    let mut vals: Vec<Expression> = Vec::new();
    let n = args.len();
    let mut i: usize = 0;
    proof {
        lemma_extends_refl(h0);
        lemma_models_len(orig);
        assert(models(vals@) =~= Seq::<SpecExpr>::empty());
    }
    while i < n
        invariant
            n == args@.len(),
            n == orig.len(),
            am == models(orig),
            am.len() == n,
            i <= n,
            ctx.wf(),
            ctx.functions@ == fs,
            fs == old(ctx).functions@,
            ctx.user_data == old(ctx).user_data,
            h0 == old(ctx).history(),
            m0 == old(ctx).machine(),
            extends(ctx.history(), h0),
            ctx.user_data == old(ctx).user_data,
            handed_since(*ctx, *old(ctx)),
            forall|j: int| i <= j < n ==> #[trigger] args@[j] == orig[j],
            forall|o: Oracle| #[trigger] agrees(o, ctx.history()) ==>
                spec_eval_args(am, 0, m0, fs, o, d as nat) == (
                    models(vals@) + spec_eval_args(am, i as int, ctx.machine(), fs, o, d as nat).0,
                    spec_eval_args(am, i as int, ctx.machine(), fs, o, d as nat).1,
                ),
        decreases n - i,
    {
        let ghost h1 = ctx.history();
        let ghost m1 = ctx.machine();
        let ghost vs = vals@;
        let mut arg = Expression::Null;
        std::mem::swap(&mut arg, &mut args[i]);
        proof { lemma_models_index(orig, i as int); }
        let v = eval_at(arg, ctx, host, d);
        proof { lemma_models_push(vs, v); }
        vals.push(v);
        proof {
            lemma_extends_trans(ctx.history(), h1, h0);
            assert forall|o: Oracle| #[trigger] agrees(o, ctx.history()) implies
                spec_eval_args(am, 0, m0, fs, o, d as nat) == (
                    models(vals@) + spec_eval_args(am, i + 1, ctx.machine(), fs, o, d as nat).0,
                    spec_eval_args(am, i + 1, ctx.machine(), fs, o, d as nat).1,
                ) by {
                lemma_agrees_prefix(o, ctx.history(), h1);
                let rest = spec_eval_args(am, i + 1, ctx.machine(), fs, o, d as nat).0;
                assert(models(vs) + (seq![v@] + rest) =~= models(vals@) + rest);
            }
        }
        i = i + 1;
    }
    proof {
        assert forall|o: Oracle| #[trigger] agrees(o, ctx.history()) implies
            spec_eval_args(am, 0, m0, fs, o, d as nat) == (models(vals@), ctx.machine()) by {
            assert(models(vals@) + Seq::<SpecExpr>::empty() =~= models(vals@));
        }
    }
    vals
}

fn eval_op<U, H: Host<U>>(lhs: Expression, rhs: Expression, op: Op, ctx: &mut Context<U>, host: &H, d: u64) -> (r: Expression)
    requires
        old(ctx).wf(),
    ensures
        final(ctx).wf(),
        final(ctx).functions@ == old(ctx).functions@,
        final(ctx).user_data == old(ctx).user_data,
        extends(final(ctx).history(), old(ctx).history()),
        handed_since(*final(ctx), *old(ctx)),
        forall|o: Oracle| #[trigger] agrees(o, final(ctx).history()) ==>
            spec_eval_op(lhs@, rhs@, op, old(ctx).machine(), old(ctx).functions@, o, d as nat) == (r@, final(ctx).machine()),
    decreases d, 0int,
{
    let ghost h0 = ctx.history();
    let ghost m0 = ctx.machine();
    let ghost fs = ctx.functions@;
    let ghost lm = lhs@;
    let ghost rm = rhs@;
    if d == 0 {
        proof { lemma_extends_refl(h0); }
        return Expression::Null;
    }
    let l = eval_at(lhs, ctx, host, d - 1);
    let ghost h1 = ctx.history();
    let r = eval_at(rhs, ctx, host, d - 1);
    let ghost h2 = ctx.history();
    let ghost m2 = ctx.machine();
    let ghost lv = l@;
    let ghost rv = r@;
    proof { lemma_extends_trans(h2, h1, h0); }
    let early = match (&l, &r) {
        (Expression::Str(a), Expression::Str(b)) => {
            let mut s = a.clone();
            crate::text::push_str(&mut s, b.as_str());
            Some(Expression::Str(s))
        },
        (Expression::Int(a), Expression::Int(b)) => Some(int_op(*a, *b, op)),
        _ => None,
    };
    if let Some(res) = early {
        proof {
            assert forall|o: Oracle| #[trigger] agrees(o, ctx.history()) implies
                spec_eval_op(lm, rm, op, m0, fs, o, d as nat) == (res@, ctx.machine()) by {
                lemma_agrees_prefix(o, ctx.history(), h1);
            }
        }
        return res;
    }
    let floaty = match (&l, &r) {
        (Expression::Int(_), Expression::Float(_)) => true,
        (Expression::Float(_), Expression::Int(_)) => true,
        (Expression::Float(_), Expression::Float(_)) => true,
        _ => false,
    };
    if floaty {
        let request = Request::Arith { op, lhs: l, rhs: r };
        let ghost req = request@;
        let res = ctx.ask(host, request);
        proof {
            lemma_requests_push(h2, (req, res@));
            lemma_extends_push(h2, (req, res@));
            lemma_extends_trans(ctx.history(), h2, h0);
            lemma_extends_trans(ctx.history(), h2, h1);
            assert forall|o: Oracle| #[trigger] agrees(o, ctx.history()) implies
                spec_eval_op(lm, rm, op, m0, fs, o, d as nat) == (res@, ctx.machine()) by {
                lemma_agrees_prefix(o, ctx.history(), h2);
                lemma_agrees_prefix(o, ctx.history(), h1);
                assert(ctx.history()[h2.len() as int] == (req, res@));
                assert(ctx.machine() =~= Machine { vars: m2.vars, calls: m2.calls.push(req) });
            }
        }
        res
    } else {
        proof {
            assert forall|o: Oracle| #[trigger] agrees(o, ctx.history()) implies
                spec_eval_op(lm, rm, op, m0, fs, o, d as nat) == (Expression::Null@, ctx.machine()) by {
                lemma_agrees_prefix(o, ctx.history(), h1);
            }
        }
        Expression::Null
    }
}

fn eval_index<U, H: Host<U>>(src: Expression, key: Expression, ctx: &mut Context<U>, host: &H, d: u64) -> (r: Expression)
    requires
        old(ctx).wf(),
    ensures
        final(ctx).wf(),
        final(ctx).functions@ == old(ctx).functions@,
        final(ctx).user_data == old(ctx).user_data,
        extends(final(ctx).history(), old(ctx).history()),
        handed_since(*final(ctx), *old(ctx)),
        forall|o: Oracle| #[trigger] agrees(o, final(ctx).history()) ==>
            spec_eval_index(src@, key@, old(ctx).machine(), old(ctx).functions@, o, d as nat) == (r@, final(ctx).machine()),
    decreases d, 0int,
{
    let ghost h0 = ctx.history();
    let ghost m0 = ctx.machine();
    let ghost fs = ctx.functions@;
    let ghost sm = src@;
    let ghost km = key@;
    if d == 0 {
        proof { lemma_extends_refl(h0); }
        return Expression::Null;
    }
    let s = eval_at(src, ctx, host, d - 1);
    let ghost h1 = ctx.history();
    let ghost sv = s@;
    match s {
        Expression::Array(items) => {
            let mut items = items;
            proof { lemma_models_len(items@); }
            if items.len() == 0 {
                return Expression::Null;
            }
            let k = eval_at(key, ctx, host, d - 1);
            let ghost h2 = ctx.history();
            proof { lemma_extends_trans(h2, h1, h0); }
            match k {
                Expression::Int(i) => {
                    if i < 0 || (i as u64) >= (items.len() as u64) {
                        proof {
                            assert forall|o: Oracle| #[trigger] agrees(o, ctx.history()) implies
                                spec_eval_index(sm, km, m0, fs, o, d as nat) == (Expression::Null@, ctx.machine()) by {
                                lemma_agrees_prefix(o, ctx.history(), h1);
                            }
                        }
                        return Expression::Null;
                    }
                    let idx = i as usize;
                    assert(idx as int == i as int);
                    proof { lemma_models_index(items@, idx as int); }
                    let element = items.remove(idx);
                    let r = eval_at(element, ctx, host, d - 1);
                    proof {
                        lemma_extends_trans(ctx.history(), h2, h0);
                        lemma_extends_trans(ctx.history(), h2, h1);
                        assert forall|o: Oracle| #[trigger] agrees(o, ctx.history()) implies
                            spec_eval_index(sm, km, m0, fs, o, d as nat) == (r@, ctx.machine()) by {
                            lemma_agrees_prefix(o, ctx.history(), h2);
                            lemma_agrees_prefix(o, ctx.history(), h1);
                        }
                    }
                    r
                },
                _ => {
                    proof {
                        assert forall|o: Oracle| #[trigger] agrees(o, ctx.history()) implies
                            spec_eval_index(sm, km, m0, fs, o, d as nat) == (Expression::Null@, ctx.machine()) by {
                            lemma_agrees_prefix(o, ctx.history(), h1);
                        }
                    }
                    Expression::Null
                },
            }
        },
        Expression::Index { src: inner_src, key: inner_key } => {
            let again = Expression::Index { src: inner_src, key: inner_key };
            let s2 = eval_at(again, ctx, host, d - 1);
            let ghost h2 = ctx.history();
            let r = eval_index(s2, key, ctx, host, d - 1);
            proof {
                lemma_extends_trans(h2, h1, h0);
                lemma_extends_trans(ctx.history(), h2, h0);
                lemma_extends_trans(ctx.history(), h2, h1);
                assert forall|o: Oracle| #[trigger] agrees(o, ctx.history()) implies
                    spec_eval_index(sm, km, m0, fs, o, d as nat) == (r@, ctx.machine()) by {
                    lemma_agrees_prefix(o, ctx.history(), h2);
                    lemma_agrees_prefix(o, ctx.history(), h1);
                }
            }
            r
        },
        _ => Expression::Null,
    }
}

fn place<U, H: Host<U>>(lhs: Expression, ctx: &mut Context<U>, host: &H, d: u64) -> (r: Option<(String, Vec<i64>)>)
    requires
        old(ctx).wf(),
    ensures
        final(ctx).wf(),
        final(ctx).functions@ == old(ctx).functions@,
        final(ctx).user_data == old(ctx).user_data,
        extends(final(ctx).history(), old(ctx).history()),
        handed_since(*final(ctx), *old(ctx)),
        forall|o: Oracle| #[trigger] agrees(o, final(ctx).history()) ==>
            spec_place(lhs@, old(ctx).machine(), old(ctx).functions@, o, d as nat) == (
                match r { Some((name, keys)) => Some((name@, keys@)), None => None },
                final(ctx).machine(),
            ),
    decreases d, 0int,
{
    let ghost h0 = ctx.history();
    let ghost m0 = ctx.machine();
    let ghost fs = ctx.functions@;
    let ghost lm = lhs@;
    if d == 0 {
        proof { lemma_extends_refl(h0); }
        return None;
    }
    match lhs {
        Expression::Ident(name) => {
            proof { lemma_extends_refl(h0); }
            let keys: Vec<i64> = Vec::new();
            assert(keys@ =~= Seq::<i64>::empty());
            Some((name, keys))
        },
        Expression::Index { src, key } => {
            let k = eval_at(*key, ctx, host, d - 1);
            let ghost h1 = ctx.history();
            match k {
                Expression::Int(i) => {
                    let p = place(*src, ctx, host, d - 1);
                    proof { lemma_extends_trans(ctx.history(), h1, h0); }
                    match p {
                        Some((name, keys)) => {
                            let mut keys = keys;
                            keys.push(i);
                            let r = Some((name, keys));
                            proof {
                                assert forall|o: Oracle| #[trigger] agrees(o, ctx.history()) implies
                                    spec_place(lm, m0, fs, o, d as nat) == (
                                        match r { Some((name, keys)) => Some((name@, keys@)), None => None },
                                        ctx.machine(),
                                    ) by {
                                    lemma_agrees_prefix(o, ctx.history(), h1);
                                }
                            }
                            r
                        },
                        None => {
                            proof {
                                assert forall|o: Oracle| #[trigger] agrees(o, ctx.history()) implies
                                    spec_place(lm, m0, fs, o, d as nat) == (
                                        None::<(Seq<char>, Seq<i64>)>,
                                        ctx.machine(),
                                    ) by {
                                    lemma_agrees_prefix(o, ctx.history(), h1);
                                }
                            }
                            None
                        },
                    }
                },
                _ => None,
            }
        },
        _ => {
            proof { lemma_extends_refl(h0); }
            None
        },
    }
}

} // verus!
