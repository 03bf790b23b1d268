use vstd::prelude::*;
use crate::context::Machine;
use crate::eval::{Funs, spec_call, spec_eval, spec_eval_args, spec_eval_index, spec_eval_op, spec_int_op, spec_place};
use crate::expression::SpecExpr;
use crate::fun::string::{ascii_lower, ascii_upper, lower_char, upper_char};
use crate::host::{Oracle, SpecRequest};
use crate::fun::Callable;
use crate::lexer::{SpecToken, peek_at, lex_from, spec_lex, word_token, number_token, symbol_token, ident_end, number_end, closing_quote};
use crate::op::Op;
use crate::display::{error_text, render, render_args, render_elems};
use crate::eval::DEPTH;
use crate::pratt::spec_parse;
use crate::spec_run;
use crate::text::{digit_char, int_text, nat_text};
use crate::vars::{VarMap, assign, declare, undeclare, var_value, set_path, SpecVariable, can_write};

verus! {

/// Every read-only variable of `v0` is still in `v1`, unchanged.
pub open spec fn keeps_read_only(v0: VarMap, v1: VarMap) -> bool {
    forall|k: Seq<char>| #![trigger v1.contains_key(k)] v0.contains_key(k) && v0[k] is ReadOnly
        ==> v1.contains_key(k) && v1[k] == v0[k]
}

/// `m1` follows from `m0`: read-only variables are kept and requests are
/// only added.
pub open spec fn follows(m0: Machine, m1: Machine) -> bool {
    &&& keeps_read_only(m0.vars, m1.vars)
    &&& m0.calls.len() <= m1.calls.len()
    &&& m1.calls.subrange(0, m0.calls.len() as int) == m0.calls
}

proof fn lemma_follows_refl(m: Machine)
    ensures
        follows(m, m),
{
    assert(m.calls.subrange(0, m.calls.len() as int) =~= m.calls);
}

proof fn lemma_follows_trans(m0: Machine, m1: Machine, m2: Machine)
    requires
        follows(m0, m1),
        follows(m1, m2),
    ensures
        follows(m0, m2),
{
    assert(m2.calls.subrange(0, m0.calls.len() as int) =~= m1.calls.subrange(0, m0.calls.len() as int));
    assert forall|k: Seq<char>| #![trigger m2.vars.contains_key(k)] m0.vars.contains_key(k) && m0.vars[k] is ReadOnly
        implies m2.vars.contains_key(k) && m2.vars[k] == m0.vars[k] by {
        assert(m1.vars.contains_key(k));
    }
}

proof fn lemma_ask_follows(m: Machine, r: crate::host::SpecRequest, o: Oracle)
    ensures
        follows(m, crate::eval::spec_ask(m, r, o).1),
{
    let m1 = crate::eval::spec_ask(m, r, o).1;
    assert(m1.calls.subrange(0, m.calls.len() as int) =~= m.calls);
}

proof fn lemma_vars_follows(m: Machine, vars: VarMap)
    requires
        keeps_read_only(m.vars, vars),
    ensures
        follows(m, Machine { vars, calls: m.calls }),
{
    lemma_follows_refl(m);
}

proof fn lemma_declare_keeps(vars: VarMap, k: Seq<char>, v: SpecExpr)
    ensures
        keeps_read_only(vars, declare(vars, k, v)),
        keeps_read_only(vars, undeclare(vars, k)),
{
}

proof fn lemma_assign_keeps(vars: VarMap, k: Seq<char>, keys: Seq<i64>, v: SpecExpr)
    ensures
        keeps_read_only(vars, assign(vars, k, keys, v)),
{
}

proof fn lemma_call_follows(key: Seq<char>, args: Seq<SpecExpr>, m: Machine, fs: Funs, o: Oracle)
    ensures
        follows(m, spec_call(key, args, m, fs, o).1),
{
    lemma_follows_refl(m);
    if fs.contains_key(key) {
        match fs[key] {
            crate::fun::Callable::Math(f) => lemma_ask_follows(m, crate::host::SpecRequest::Math { fun: f, args }, o),
            crate::fun::Callable::Registered(h) => lemma_ask_follows(m, crate::host::SpecRequest::Call { handle: h, name: key, args }, o),
            _ => {},
        }
    }
}

/// Evaluation keeps every read-only variable as it was loaded, and only
/// adds requests to those made before.
pub proof fn law_eval_keeps_read_only(e: SpecExpr, m: Machine, fs: Funs, o: Oracle, d: nat)
    ensures
        follows(m, spec_eval(e, m, fs, o, d).1),
    decreases d, 0int,
{
    lemma_follows_refl(m);
    if d > 0 {
        let d1 = (d - 1) as nat;
        match e {
            SpecExpr::Deferred(src) => {
                if let Ok(ts) = spec_lex(src) {
                    if let Ok(x) = crate::pratt::spec_parse(ts, 0) {
                        law_eval_keeps_read_only(x, m, fs, o, d1);
                    }
                }
            },
            SpecExpr::Ident(id) => law_eval_keeps_read_only(var_value(m.vars, id), m, fs, o, d1),
            SpecExpr::Binary { lhs, rhs, op } => lemma_op_follows(*lhs, *rhs, op, m, fs, o, d1),
            SpecExpr::Fn { fun, args } => {
                if let SpecExpr::Ident(key) = *fun {
                    let (vals, m1) = spec_eval_args(args, 0, m, fs, o, d1);
                    lemma_args_follows(args, 0, m, fs, o, d1);
                    lemma_call_follows(key, vals, m1, fs, o);
                    lemma_follows_trans(m, m1, spec_call(key, vals, m1, fs, o).1);
                }
            },
            SpecExpr::Declaration { ident, value } => {
                let (v, m1) = spec_eval(*value, m, fs, o, d1);
                law_eval_keeps_read_only(*value, m, fs, o, d1);
                lemma_declare_keeps(m1.vars, ident, v);
                let vars = if v is Null { undeclare(m1.vars, ident) } else { declare(m1.vars, ident, v) };
                lemma_vars_follows(m1, vars);
                lemma_follows_trans(m, m1, Machine { vars, calls: m1.calls });
            },
            SpecExpr::Assignment { lhs, rhs } => {
                let (v, m1) = spec_eval(*rhs, m, fs, o, d1);
                law_eval_keeps_read_only(*rhs, m, fs, o, d1);
                let (p, m2) = spec_place(*lhs, m1, fs, o, d1);
                lemma_place_follows(*lhs, m1, fs, o, d1);
                lemma_follows_trans(m, m1, m2);
                if let Some((name, keys)) = p {
                    lemma_assign_keeps(m2.vars, name, keys, v);
                    lemma_vars_follows(m2, assign(m2.vars, name, keys, v));
                    lemma_follows_trans(m, m2, Machine { vars: assign(m2.vars, name, keys, v), calls: m2.calls });
                }
            },
            SpecExpr::Index { src, key } => lemma_index_follows(*src, *key, m, fs, o, d1),
            _ => {},
        }
    }
}

proof fn lemma_args_follows(args: Seq<SpecExpr>, i: int, m: Machine, fs: Funs, o: Oracle, d: nat)
    ensures
        follows(m, spec_eval_args(args, i, m, fs, o, d).1),
    decreases d, args.len() - i + 1,
{
    lemma_follows_refl(m);
    if 0 <= i < args.len() {
        let (v, m1) = spec_eval(args[i], m, fs, o, d);
        law_eval_keeps_read_only(args[i], m, fs, o, d);
        lemma_args_follows(args, i + 1, m1, fs, o, d);
        lemma_follows_trans(m, m1, spec_eval_args(args, i + 1, m1, fs, o, d).1);
    }
}

proof fn lemma_op_follows(lhs: SpecExpr, rhs: SpecExpr, op: Op, m: Machine, fs: Funs, o: Oracle, d: nat)
    ensures
        follows(m, spec_eval_op(lhs, rhs, op, m, fs, o, d).1),
    decreases d, 0int,
{
    lemma_follows_refl(m);
    if d > 0 {
        let d1 = (d - 1) as nat;
        let (l, m1) = spec_eval(lhs, m, fs, o, d1);
        let (r, m2) = spec_eval(rhs, m1, fs, o, d1);
        law_eval_keeps_read_only(lhs, m, fs, o, d1);
        law_eval_keeps_read_only(rhs, m1, fs, o, d1);
        lemma_follows_trans(m, m1, m2);
        lemma_ask_follows(m2, crate::host::SpecRequest::Arith { op, lhs: l, rhs: r }, o);
        lemma_follows_trans(m, m2, crate::eval::spec_ask(m2, crate::host::SpecRequest::Arith { op, lhs: l, rhs: r }, o).1);
    }
}

proof fn lemma_index_follows(src: SpecExpr, key: SpecExpr, m: Machine, fs: Funs, o: Oracle, d: nat)
    ensures
        follows(m, spec_eval_index(src, key, m, fs, o, d).1),
    decreases d, 0int,
{
    lemma_follows_refl(m);
    if d > 0 {
        let d1 = (d - 1) as nat;
        let (s, m1) = spec_eval(src, m, fs, o, d1);
        law_eval_keeps_read_only(src, m, fs, o, d1);
        match s {
            SpecExpr::Array(items) => {
                if items.len() > 0 {
                    let (k, m2) = spec_eval(key, m1, fs, o, d1);
                    law_eval_keeps_read_only(key, m1, fs, o, d1);
                    lemma_follows_trans(m, m1, m2);
                    if let SpecExpr::Int(i) = k {
                        if 0 <= i < items.len() {
                            law_eval_keeps_read_only(items[i as int], m2, fs, o, d1);
                            lemma_follows_trans(m, m2, spec_eval(items[i as int], m2, fs, o, d1).1);
                        }
                    }
                }
            },
            SpecExpr::Index { .. } => {
                let (s2, m2) = spec_eval(s, m1, fs, o, d1);
                law_eval_keeps_read_only(s, m1, fs, o, d1);
                lemma_follows_trans(m, m1, m2);
                lemma_index_follows(s2, key, m2, fs, o, d1);
                lemma_follows_trans(m, m2, spec_eval_index(s2, key, m2, fs, o, d1).1);
            },
            _ => {},
        }
    }
}

proof fn lemma_place_follows(lhs: SpecExpr, m: Machine, fs: Funs, o: Oracle, d: nat)
    ensures
        follows(m, spec_place(lhs, m, fs, o, d).1),
    decreases d, 0int,
{
    lemma_follows_refl(m);
    if d > 0 {
        let d1 = (d - 1) as nat;
        if let SpecExpr::Index { src, key } = lhs {
            let (k, m1) = spec_eval(*key, m, fs, o, d1);
            law_eval_keeps_read_only(*key, m, fs, o, d1);
            if let SpecExpr::Int(i) = k {
                lemma_place_follows(*src, m1, fs, o, d1);
                lemma_follows_trans(m, m1, spec_place(*src, m1, fs, o, d1).1);
            }
        }
    }
}

} // verus!

verus! {

/// Lexing produces no placeholder tokens: neither `Consumed` nor `Eof`.
pub proof fn law_lex_has_no_placeholders(src: Seq<char>)
    ensures
        spec_lex(src) matches Ok(ts) ==> forall|i: int| 0 <= i < ts.len() ==>
            !(#[trigger] ts[i] is Consumed) && !(ts[i] is Eof),
{
    lemma_lex_from_clean(src, 0, Seq::empty());
}

pub open spec fn clean_tokens(ts: Seq<SpecToken>) -> bool {
    forall|i: int| 0 <= i < ts.len() ==> !(#[trigger] ts[i] is Consumed) && !(ts[i] is Eof)
}

proof fn lemma_push_clean(ts: Seq<SpecToken>, t: SpecToken)
    requires
        clean_tokens(ts),
        !(t is Consumed),
        !(t is Eof),
    ensures
        clean_tokens(ts.push(t)),
{
    assert forall|i: int| 0 <= i < ts.push(t).len() implies !(#[trigger] ts.push(t)[i] is Consumed) && !(ts.push(t)[i] is Eof) by {
        if i < ts.len() { assert(ts.push(t)[i] == ts[i]); }
    }
}

proof fn lemma_lex_from_clean(cs: Seq<char>, i: int, acc: Seq<SpecToken>)
    requires
        clean_tokens(acc),
    ensures
        lex_from(cs, i, acc) matches Ok(ts) ==> clean_tokens(ts),
    decreases cs.len() - i,
{
    if 0 <= i < cs.len() {
        let c = cs[i];
        let next_same = i + 1 < cs.len() && cs[i + 1] == c;
        if c == '.' && next_same {
            lemma_push_clean(acc, SpecToken::DotDot);
            lemma_lex_from_clean(cs, i + 1, acc.push(SpecToken::DotDot));
        } else if c == '=' && next_same {
            lemma_push_clean(acc, SpecToken::EqualEqual);
            lemma_lex_from_clean(cs, i + 1, acc.push(SpecToken::EqualEqual));
        } else if symbol_token(c) is Some {
            lemma_push_clean(acc, symbol_token(c)->0);
            lemma_lex_from_clean(cs, i + 1, acc.push(symbol_token(c)->0));
        } else if crate::lexer::is_alpha(c) {
            let e = ident_end(cs, i + 1);
            if !(e <= i || e > cs.len()) {
                lemma_push_clean(acc, word_token(cs.subrange(i, e)));
                lemma_lex_from_clean(cs, e, acc.push(word_token(cs.subrange(i, e))));
            }
        } else if crate::lexer::is_digit(c) {
            let (e, is_float) = number_end(cs, i + 1, false);
            if !(e <= i || e > cs.len()) {
                if let Ok(t) = number_token(cs.subrange(i, e), is_float) {
                    lemma_push_clean(acc, t);
                    lemma_lex_from_clean(cs, e, acc.push(t));
                }
            }
        } else if c == '"' {
            if let Some(j) = closing_quote(cs, i + 1) {
                if !(j <= i || j >= cs.len()) {
                    lemma_push_clean(acc, SpecToken::Str(cs.subrange(i + 1, j)));
                    lemma_lex_from_clean(cs, j + 1, acc.push(SpecToken::Str(cs.subrange(i + 1, j))));
                }
            }
        } else {
            lemma_lex_from_clean(cs, i + 1, acc);
        }
    }
}

/// A value (string, integer, float or array) evaluates to itself and
/// changes nothing.
pub proof fn law_values_evaluate_to_themselves(e: SpecExpr, m: Machine, fs: Funs, o: Oracle, d: nat)
    requires
        d > 0,
        e is Str || e is Int || e is Float || e is Array,
    ensures
        spec_eval(e, m, fs, o, d) == (e, m),
{
}

/// After `let x = value`, where the value evaluates to a value `v` that
/// is not `Null` and `x` is not read-only, reading `x` gives back `v` and
/// changes nothing.
pub proof fn law_declared_variable_reads_back(
    x: Seq<char>,
    value: SpecExpr,
    m: Machine,
    fs: Funs,
    o: Oracle,
    d: nat,
    o2: Oracle,
    d2: nat,
)
    requires
        d > 0,
        d2 > 1,
        spec_eval(value, m, fs, o, (d - 1) as nat).0 is Str || spec_eval(value, m, fs, o, (d - 1) as nat).0 is Int
            || spec_eval(value, m, fs, o, (d - 1) as nat).0 is Float || spec_eval(value, m, fs, o, (d - 1) as nat).0 is Array,
        can_write(spec_eval(value, m, fs, o, (d - 1) as nat).1.vars, x),
    ensures
        ({
            let (r, m1) = spec_eval(SpecExpr::Declaration { ident: x, value: Box::new(value) }, m, fs, o, d);
            let v = spec_eval(value, m, fs, o, (d - 1) as nat).0;
            &&& r == SpecExpr::Null
            &&& spec_eval(SpecExpr::Ident(x), m1, fs, o2, d2) == (v, m1)
        }),
{
    let (r, m1) = spec_eval(SpecExpr::Declaration { ident: x, value: Box::new(value) }, m, fs, o, d);
    let v = spec_eval(value, m, fs, o, (d - 1) as nat).0;
    assert(m1.vars.contains_key(x) && m1.vars[x] == SpecVariable::ReadWrite(v));
    assert(var_value(m1.vars, x) == v);
    law_values_evaluate_to_themselves(v, m1, fs, o2, (d2 - 1) as nat);
}

/// A program's read-only variables cannot be redeclared, removed or
/// assigned to: the variable map is unchanged by such a declaration.
pub proof fn law_read_only_declaration_is_ignored(vars: VarMap, x: Seq<char>, v: SpecExpr, keys: Seq<i64>)
    requires
        vars.contains_key(x),
        vars[x] is ReadOnly,
    ensures
        declare(vars, x, v) == vars,
        undeclare(vars, x) == vars,
        assign(vars, x, keys, v) == vars,
{
}

/// The element at a path of nested arrays.
pub open spec fn get_path(e: SpecExpr, keys: Seq<i64>, i: int) -> Option<SpecExpr>
    decreases keys.len() - i,
{
    if !(0 <= i < keys.len()) {
        Some(e)
    } else {
        match e {
            SpecExpr::Array(items) => {
                let k = keys[i] as int;
                if 0 <= k < items.len() { get_path(items[k], keys, i + 1) } else { None }
            },
            _ => None,
        }
    }
}

/// Writing `v` at a path of nested arrays, then reading at the same path,
/// gives back `v`; the write succeeds exactly where the read of the old
/// value succeeds.
pub proof fn law_set_path_reads_back(e: SpecExpr, keys: Seq<i64>, i: int, v: SpecExpr)
    requires
        0 <= i <= keys.len(),
    ensures
        set_path(e, keys, i, v) is Some == get_path(e, keys, i) is Some,
        set_path(e, keys, i, v) matches Some(e2) ==> get_path(e2, keys, i) == Some(v),
    decreases keys.len() - i,
{
    if i < keys.len() {
        if let SpecExpr::Array(items) = e {
            let k = keys[i] as int;
            if 0 <= k < items.len() {
                law_set_path_reads_back(items[k], keys, i + 1, v);
                if let Some(x) = set_path(items[k], keys, i + 1, v) {
                    assert(items.update(k, x)[k] == x);
                }
            }
        }
    }
}

/// Upper-casing after lower-casing is upper-casing, and lower-casing twice
/// is lower-casing once.
pub proof fn law_case_mapping(s: Seq<char>)
    ensures
        ascii_upper(ascii_lower(s)) == ascii_upper(s),
        ascii_lower(ascii_lower(s)) == ascii_lower(s),
        ascii_lower(ascii_upper(s)) == ascii_lower(s),
{
    assert forall|c: char| #![trigger lower_char(c)] upper_char(lower_char(c)) == upper_char(c)
        && lower_char(lower_char(c)) == lower_char(c) && lower_char(upper_char(c)) == lower_char(c) by {
        if 'A' <= c && c <= 'Z' {
            assert((c as u8) as int == c as int);
            assert(lower_char(c) as int == c as int + 32);
        }
        if 'a' <= c && c <= 'z' {
            assert((c as u8) as int == c as int);
            assert(upper_char(c) as int == c as int - 32);
        }
    }
    assert(ascii_upper(ascii_lower(s)) =~= ascii_upper(s));
    assert(ascii_lower(ascii_lower(s)) =~= ascii_lower(s));
    assert(ascii_lower(ascii_upper(s)) =~= ascii_lower(s));
}

/// Integer arithmetic agrees with the mathematical operations wherever
/// the result fits in an `i64`, and dividing by zero gives `Null`.
pub proof fn law_int_op_exact(a: i64, b: i64)
    ensures
        i64::MIN <= a + b <= i64::MAX ==> spec_int_op(a, b, Op::Plus) == SpecExpr::Int((a + b) as i64),
        i64::MIN <= a - b <= i64::MAX ==> spec_int_op(a, b, Op::Minus) == SpecExpr::Int((a - b) as i64),
        i64::MIN <= a * b <= i64::MAX ==> spec_int_op(a, b, Op::Mul) == SpecExpr::Int((a * b) as i64),
        b == 0 ==> spec_int_op(a, b, Op::Div) == SpecExpr::Null,
{
}

} // verus!

verus! {

proof fn lemma_nat_text(n: nat)
    ensures
        nat_text(n).len() >= 1,
        forall|j: int| 0 <= j < nat_text(n).len() ==> crate::lexer::is_digit(#[trigger] nat_text(n)[j]),
        crate::lexer::decimal_value(nat_text(n)) == n,
    decreases n,
{
    let d = (n % 10) as nat;
    assert(crate::lexer::is_digit(digit_char(d)));
    assert(digit_char(d) as int - '0' as int == d);
    assert(0 <= d < 10);
    if n >= 10 {
        lemma_nat_text((n / 10) as nat);
        let s = nat_text(n);
        assert(s.drop_last() =~= nat_text((n / 10) as nat));
        assert(s.last() == digit_char(d));
        assert((n / 10) * 10 + n % 10 == n) by (nonlinear_arith);
        assert(crate::lexer::decimal_value(s) == crate::lexer::decimal_value(s.drop_last()) * 10 + (s.last() as int - '0' as int));
        assert forall|j: int| 0 <= j < s.len() implies crate::lexer::is_digit(#[trigger] s[j]) by {
            if j < s.len() - 1 {
                assert(s[j] == nat_text((n / 10) as nat)[j]);
            }
        }
    } else {
        let s = nat_text(n);
        assert(s.drop_last() =~= Seq::<char>::empty());
        assert(s.last() == digit_char(d));
        assert(n % 10 == n);
        assert(d == n);
        assert(s.len() == 1);
        assert(crate::lexer::decimal_value(s.drop_last()) == 0);
        assert(s.last() as int - '0' as int == n);
        assert(crate::lexer::decimal_value(s) == crate::lexer::decimal_value(s.drop_last()) * 10 + (s.last() as int - '0' as int));
    }
}

proof fn lemma_number_end_digits(cs: Seq<char>, i: int)
    requires
        0 <= i <= cs.len(),
        forall|j: int| 0 <= j < cs.len() ==> crate::lexer::is_digit(#[trigger] cs[j]),
    ensures
        number_end(cs, i, false) == (cs.len() as int, false),
    decreases cs.len() - i,
{
    if i < cs.len() {
        lemma_number_end_digits(cs, i + 1);
    }
}

/// The decimal text of a number that fits in an `i64` lexes back to that
/// number, as one integer token.
pub proof fn law_int_text_lexes_back(n: nat)
    requires
        n <= i64::MAX,
    ensures
        spec_lex(nat_text(n)) == Ok::<Seq<SpecToken>, crate::error::SpecError>(seq![SpecToken::Int(n as i64)]),
{
    let cs = nat_text(n);
    lemma_nat_text(n);
    lemma_number_end_digits(cs, 1);
    assert(cs.subrange(0, cs.len() as int) =~= cs);
    let c = cs[0];
    assert(crate::lexer::is_digit(c));
    assert(symbol_token(c) is None);
    assert(Seq::<SpecToken>::empty().push(SpecToken::Int(n as i64)) =~= seq![SpecToken::Int(n as i64)]);
    assert(number_end(cs, 1, false) == (cs.len() as int, false));
    assert(crate::lexer::number_token(cs.subrange(0, cs.len() as int), false)
        == Ok::<SpecToken, crate::error::SpecError>(SpecToken::Int(n as i64)));
    assert(lex_from(cs, cs.len() as int, seq![SpecToken::Int(n as i64)])
        == Ok::<Seq<SpecToken>, crate::error::SpecError>(seq![SpecToken::Int(n as i64)]));
    assert(lex_from(cs, 0, Seq::empty()) == lex_from(cs, cs.len() as int, Seq::<SpecToken>::empty().push(SpecToken::Int(n as i64))));
}

/// Running the decimal text of a number that fits in an `i64` writes that
/// same text, and changes nothing.
pub proof fn law_int_text_runs_back(n: nat, m: Machine, fs: Funs, o: Oracle)
    requires
        n <= i64::MAX,
    ensures
        spec_run(nat_text(n), m, fs, o) == (Some(nat_text(n)), m),
{
    law_int_text_lexes_back(n);
    let ts = seq![SpecToken::Int(n as i64)];
    assert(crate::lexer::peek_at(ts, 0) == SpecToken::Int(n as i64));
    assert(crate::lexer::peek_at(ts, 1) == SpecToken::Eof);
    assert(crate::pratt::spec_parse_loop(ts, 1, 0, SpecExpr::Int(n as i64))
        == Ok::<(SpecExpr, int), crate::error::SpecError>((SpecExpr::Int(n as i64), 1)));
    assert(crate::pratt::spec_parse_with(ts, 0, 0) == Ok::<(SpecExpr, int), crate::error::SpecError>((SpecExpr::Int(n as i64), 1)));
    assert(int_text((n as i64) as int) == nat_text(n));
}

/// A program that fails to lex or to parse changes no variable.
pub proof fn law_failed_program_changes_nothing(src: Seq<char>, m: Machine, fs: Funs, o: Oracle)
    requires
        spec_lex(src) is Err || spec_parse(spec_lex(src)->Ok_0, 0) is Err,
    ensures
        spec_run(src, m, fs, o).1.vars == m.vars,
        spec_run(src, m, fs, o).0 is Some,
{
}

proof fn lemma_render_keeps_vars(e: SpecExpr, m: Machine, o: Oracle)
    ensures
        render(e, m, o).1.vars == m.vars,
        follows(m, render(e, m, o).1),
    decreases e,
{
    lemma_follows_refl(m);
    match e {
        SpecExpr::Binary { lhs, rhs, op } => {
            let (a, m1) = render(*lhs, m, o);
            lemma_render_keeps_vars(*lhs, m, o);
            lemma_render_keeps_vars(*rhs, m1, o);
            lemma_follows_trans(m, m1, render(*rhs, m1, o).1);
        },
        SpecExpr::Unary { value, op } => lemma_render_keeps_vars(*value, m, o),
        SpecExpr::Float(f) => lemma_ask_follows(m, crate::host::SpecRequest::ShowFloat(f), o),
        SpecExpr::Fn { fun, args } => {
            let (a, m1) = render(*fun, m, o);
            lemma_render_keeps_vars(*fun, m, o);
            lemma_render_args_keeps_vars(args, 0, m1, o);
            lemma_follows_trans(m, m1, render_args(args, 0, m1, o).1);
        },
        SpecExpr::Array(values) => lemma_render_elems_keeps_vars(values, 0, m, o),
        SpecExpr::Declaration { ident, value } => lemma_render_keeps_vars(*value, m, o),
        SpecExpr::Assignment { lhs, rhs } => {
            let (a, m1) = render(*lhs, m, o);
            lemma_render_keeps_vars(*lhs, m, o);
            lemma_render_keeps_vars(*rhs, m1, o);
            lemma_follows_trans(m, m1, render(*rhs, m1, o).1);
        },
        SpecExpr::Index { src, key } => {
            let (a, m1) = render(*src, m, o);
            lemma_render_keeps_vars(*src, m, o);
            lemma_render_keeps_vars(*key, m1, o);
            lemma_follows_trans(m, m1, render(*key, m1, o).1);
        },
        _ => {},
    }
}

proof fn lemma_render_args_keeps_vars(args: Seq<SpecExpr>, i: int, m: Machine, o: Oracle)
    ensures
        render_args(args, i, m, o).1.vars == m.vars,
        follows(m, render_args(args, i, m, o).1),
    decreases args,
{
    lemma_follows_refl(m);
    if args.len() > 0 {
        let (a, m1) = render(args[0], m, o);
        lemma_render_keeps_vars(args[0], m, o);
        lemma_render_args_keeps_vars(args.drop_first(), i + 1, m1, o);
        lemma_follows_trans(m, m1, render_args(args.drop_first(), i + 1, m1, o).1);
    }
}

proof fn lemma_render_elems_keeps_vars(values: Seq<SpecExpr>, i: int, m: Machine, o: Oracle)
    ensures
        render_elems(values, i, m, o).1.vars == m.vars,
        follows(m, render_elems(values, i, m, o).1),
    decreases values,
{
    lemma_follows_refl(m);
    if values.len() > 0 {
        let (a, m1) = render(values[0], m, o);
        lemma_render_keeps_vars(values[0], m, o);
        lemma_render_elems_keeps_vars(values.drop_first(), i + 1, m1, o);
        lemma_follows_trans(m, m1, render_elems(values.drop_first(), i + 1, m1, o).1);
    }
}

proof fn lemma_error_text_follows(e: crate::error::SpecError, m: Machine, o: Oracle)
    ensures
        follows(m, error_text(e, m, o).1),
{
    lemma_follows_refl(m);
    match e {
        crate::error::SpecError::NotEnoughCake(SpecToken::Float(f)) =>
            lemma_ask_follows(m, crate::host::SpecRequest::DebugFloat(f), o),
        crate::error::SpecError::InvalidToken(SpecToken::Float(f)) =>
            lemma_ask_follows(m, crate::host::SpecRequest::DebugFloat(f), o),
        _ => {},
    }
}

/// Running a program keeps every read-only variable as it was loaded, and
/// only adds requests to those made before.
pub proof fn law_run_keeps_read_only(src: Seq<char>, m: Machine, fs: Funs, o: Oracle)
    ensures
        follows(m, spec_run(src, m, fs, o).1),
{
    match spec_lex(src) {
        Err(e) => lemma_error_text_follows(e, m, o),
        Ok(ts) => match spec_parse(ts, 0) {
            Err(e) => lemma_error_text_follows(e, m, o),
            Ok(x) => {
                let (v, m1) = spec_eval(x, m, fs, o, DEPTH as nat);
                law_eval_keeps_read_only(x, m, fs, o, DEPTH as nat);
                if !(v is Null) {
                    lemma_render_keeps_vars(v, m1, o);
                    lemma_follows_trans(m, m1, render(v, m1, o).1);
                }
            },
        },
    }
}

} // verus!

verus! {

/// A value form: a string, an integer, a float, an array or `Null`.
pub open spec fn is_value(e: SpecExpr) -> bool {
    e is Str || e is Int || e is Float || e is Array || e is Null
}

/// Every answer of the host is a value form.
pub open spec fn answers_values(o: Oracle) -> bool {
    forall|n: nat| #[trigger] is_value(o(n))
}

/// Where every answer of the host is a value form, so is the result of
/// evaluation; and that result evaluates to itself, changing nothing.
pub proof fn law_eval_gives_values(e: SpecExpr, m: Machine, fs: Funs, o: Oracle, d: nat)
    requires
        answers_values(o),
    ensures
        is_value(spec_eval(e, m, fs, o, d).0),
        forall|m2: Machine, d2: nat| d2 > 0 ==>
            #[trigger] spec_eval(spec_eval(e, m, fs, o, d).0, m2, fs, o, d2) == (spec_eval(e, m, fs, o, d).0, m2),
    decreases d, 1int,
{
    lemma_eval_value(e, m, fs, o, d);
}

proof fn lemma_eval_value(e: SpecExpr, m: Machine, fs: Funs, o: Oracle, d: nat)
    requires
        answers_values(o),
    ensures
        is_value(spec_eval(e, m, fs, o, d).0),
    decreases d, 0int,
{
    if d > 0 {
        let d1 = (d - 1) as nat;
        match e {
            SpecExpr::Deferred(src) => {
                if let Ok(ts) = spec_lex(src) {
                    if let Ok(x) = spec_parse(ts, 0) {
                        lemma_eval_value(x, m, fs, o, d1);
                    }
                }
            },
            SpecExpr::Ident(id) => lemma_eval_value(var_value(m.vars, id), m, fs, o, d1),
            SpecExpr::Binary { lhs, rhs, op } => lemma_op_value(*lhs, *rhs, op, m, fs, o, d1),
            SpecExpr::Fn { fun, args } => {
                if let SpecExpr::Ident(key) = *fun {
                    let (vals, m1) = spec_eval_args(args, 0, m, fs, o, d1);
                    lemma_call_value(key, vals, m1, fs, o);
                }
            },
            SpecExpr::Index { src, key } => lemma_index_value(*src, *key, m, fs, o, d1),
            _ => {},
        }
    }
}

proof fn lemma_call_value(key: Seq<char>, args: Seq<SpecExpr>, m: Machine, fs: Funs, o: Oracle)
    requires
        answers_values(o),
    ensures
        is_value(spec_call(key, args, m, fs, o).0),
{
    assert(is_value(o(m.calls.len())));
    assert(is_value(crate::fun::string::spec_to_lower(args)));
    assert(is_value(crate::fun::string::spec_to_upper(args)));
}

proof fn lemma_op_value(lhs: SpecExpr, rhs: SpecExpr, op: Op, m: Machine, fs: Funs, o: Oracle, d: nat)
    requires
        answers_values(o),
    ensures
        is_value(spec_eval_op(lhs, rhs, op, m, fs, o, d).0),
    decreases d, 0int,
{
    if d > 0 {
        let d1 = (d - 1) as nat;
        let (l, m1) = spec_eval(lhs, m, fs, o, d1);
        let (r, m2) = spec_eval(rhs, m1, fs, o, d1);
        assert(is_value(o(m2.calls.len())));
        if let (SpecExpr::Int(a), SpecExpr::Int(b)) = (l, r) {
            assert(is_value(spec_int_op(a, b, op)));
        }
    }
}

proof fn lemma_index_value(src: SpecExpr, key: SpecExpr, m: Machine, fs: Funs, o: Oracle, d: nat)
    requires
        answers_values(o),
    ensures
        is_value(spec_eval_index(src, key, m, fs, o, d).0),
    decreases d, 0int,
{
    if d > 0 {
        let d1 = (d - 1) as nat;
        let (s, m1) = spec_eval(src, m, fs, o, d1);
        match s {
            SpecExpr::Array(items) => {
                if items.len() > 0 {
                    let (k, m2) = spec_eval(key, m1, fs, o, d1);
                    if let SpecExpr::Int(i) = k {
                        if 0 <= i < items.len() {
                            lemma_eval_value(items[i as int], m2, fs, o, d1);
                        }
                    }
                }
            },
            SpecExpr::Index { .. } => {
                let (s2, m2) = spec_eval(s, m1, fs, o, d1);
                lemma_index_value(s2, key, m2, fs, o, d1);
            },
            _ => {},
        }
    }
}

} // verus!

verus! {

/// A function registered under a name, replacing any built-in one of that
/// name, is what a call by that name reaches: the arguments are evaluated
/// in order, then the host is asked exactly once, with the function's
/// handle, its name and the evaluated arguments, and its answer is the
/// value of the call.
pub proof fn law_registered_function_is_asked_once(
    name: Seq<char>,
    args: Seq<SpecExpr>,
    h: usize,
    m: Machine,
    fs: Funs,
    o: Oracle,
    d: nat,
)
    requires
        d > 0,
    ensures
        ({
            let fs2 = fs.insert(name, Callable::Registered(h));
            let (vals, m1) = spec_eval_args(args, 0, m, fs2, o, (d - 1) as nat);
            spec_eval(SpecExpr::Fn { fun: Box::new(SpecExpr::Ident(name)), args }, m, fs2, o, d) == (
                o(m1.calls.len()),
                Machine {
                    vars: m1.vars,
                    calls: m1.calls.push(SpecRequest::Call { handle: h, name, args: vals }),
                },
            )
        }),
{
}

/// A call of a name that no function has evaluates the arguments and gives
/// `Null`, asking the host nothing more; a call of anything but a name
/// gives `Null` and changes nothing.
pub proof fn law_unknown_function_gives_null(
    fun: SpecExpr,
    args: Seq<SpecExpr>,
    m: Machine,
    fs: Funs,
    o: Oracle,
    d: nat,
)
    requires
        d > 0,
    ensures
        fun matches SpecExpr::Ident(name) && !fs.contains_key(name) ==>
            spec_eval(SpecExpr::Fn { fun: Box::new(fun), args }, m, fs, o, d)
                == (SpecExpr::Null, spec_eval_args(args, 0, m, fs, o, (d - 1) as nat).1),
        !(fun is Ident) ==> spec_eval(SpecExpr::Fn { fun: Box::new(fun), args }, m, fs, o, d) == (SpecExpr::Null, m),
{
}

} // verus!

verus! {

/// Whether `c` is an ASCII letter.
pub open spec fn ascii_letter(c: char) -> bool {
    ('a' <= c && c <= 'z') || ('A' <= c && c <= 'Z')
}

/// `to_upper` keeps the length of its string argument and every character
/// that is not a lower-case ASCII letter, and turns each lower-case ASCII
/// letter into the upper-case one, 32 code points below it.
pub proof fn law_to_upper_changes_only_lower_case_letters(s: Seq<char>)
    ensures
        crate::fun::string::spec_to_upper(seq![SpecExpr::Str(s)]) matches SpecExpr::Str(t) && t.len() == s.len()
            && forall|i: int| 0 <= i < s.len() ==> {
                if 'a' <= s[i] && s[i] <= 'z' {
                    #[trigger] t[i] as int == s[i] as int - 32
                } else {
                    t[i] == s[i]
                }
            },
{
    let t = ascii_upper(s);
    assert forall|i: int| 0 <= i < s.len() implies {
        if 'a' <= s[i] && s[i] <= 'z' { #[trigger] t[i] as int == s[i] as int - 32 } else { t[i] == s[i] }
    } by {
        let c = s[i];
        if 'a' <= c && c <= 'z' {
            assert((c as u8) as int == c as int);
        }
    }
}

/// `to_lower` keeps the length of its string argument and every character
/// that is not an upper-case ASCII letter, and turns each upper-case ASCII
/// letter into the lower-case one, 32 code points above it.
pub proof fn law_to_lower_changes_only_upper_case_letters(s: Seq<char>)
    ensures
        crate::fun::string::spec_to_lower(seq![SpecExpr::Str(s)]) matches SpecExpr::Str(t) && t.len() == s.len()
            && forall|i: int| 0 <= i < s.len() ==> {
                if 'A' <= s[i] && s[i] <= 'Z' {
                    #[trigger] t[i] as int == s[i] as int + 32
                } else {
                    t[i] == s[i]
                }
            },
{
    let t = ascii_lower(s);
    assert forall|i: int| 0 <= i < s.len() implies {
        if 'A' <= s[i] && s[i] <= 'Z' { #[trigger] t[i] as int == s[i] as int + 32 } else { t[i] == s[i] }
    } by {
        let c = s[i];
        if 'A' <= c && c <= 'Z' {
            assert((c as u8) as int == c as int);
        }
    }
}

} // verus!

verus! {

/// A word of ASCII letters and underscores that starts with a letter and is
/// not `let` lexes to one identifier holding the whole word.
pub proof fn law_word_lexes_to_one_identifier(w: Seq<char>)
    requires
        w.len() > 0,
        ascii_letter(w[0]),
        forall|i: int| 0 <= i < w.len() ==> ascii_letter(#[trigger] w[i]) || w[i] == '_',
        w != seq!['l', 'e', 't'],
    ensures
        spec_lex(w) == Ok::<Seq<SpecToken>, crate::error::SpecError>(seq![SpecToken::Ident(w)]),
{
    lemma_ident_end_all(w, 1);
    assert(w.subrange(0, w.len() as int) =~= w);
    let acc = Seq::<SpecToken>::empty().push(SpecToken::Ident(w));
    assert(lex_from(w, w.len() as int, acc) == Ok::<Seq<SpecToken>, crate::error::SpecError>(acc));
    assert(acc =~= seq![SpecToken::Ident(w)]);
}

proof fn lemma_ident_end_all(w: Seq<char>, i: int)
    requires
        1 <= i <= w.len(),
        forall|j: int| 0 <= j < w.len() ==> ascii_letter(#[trigger] w[j]) || w[j] == '_',
    ensures
        ident_end(w, i) == w.len(),
    decreases w.len() - i,
{
    if i < w.len() {
        assert(ascii_letter(w[i]) || w[i] == '_');
        lemma_ident_end_all(w, i + 1);
    }
}

/// Whether `op` is `*` or `/`.
pub open spec fn multiplicative(op: Op) -> bool {
    op == Op::Mul || op == Op::Div
}

/// Whether `op` is `+` or `-`.
pub open spec fn additive(op: Op) -> bool {
    op == Op::Plus || op == Op::Minus
}

/// Operators of one precedence associate to the left: `a o1 b o2 c` parses
/// as `(a o1 b) o2 c`. Where `o2` binds more tightly than `o1` (a product
/// after a sum) it parses as `a o1 (b o2 c)`; a product before a sum parses
/// as `(a o1 b) o2 c`.
pub proof fn law_binary_operators_associate(a: i64, b: i64, c: i64, o1: Op, o2: Op)
    requires
        multiplicative(o1) || additive(o1),
        multiplicative(o2) || additive(o2),
    ensures
        ({
            let ts = seq![SpecToken::Int(a), SpecToken::Op(o1), SpecToken::Int(b), SpecToken::Op(o2), SpecToken::Int(c)];
            let left = SpecExpr::Binary {
                lhs: Box::new(SpecExpr::Binary { lhs: Box::new(SpecExpr::Int(a)), rhs: Box::new(SpecExpr::Int(b)), op: o1 }),
                rhs: Box::new(SpecExpr::Int(c)),
                op: o2,
            };
            let right = SpecExpr::Binary {
                lhs: Box::new(SpecExpr::Int(a)),
                rhs: Box::new(SpecExpr::Binary { lhs: Box::new(SpecExpr::Int(b)), rhs: Box::new(SpecExpr::Int(c)), op: o2 }),
                op: o1,
            };
            &&& (additive(o1) && multiplicative(o2)) ==> spec_parse(ts, 0) == Ok::<SpecExpr, crate::error::SpecError>(right)
            &&& !(additive(o1) && multiplicative(o2)) ==> spec_parse(ts, 0) == Ok::<SpecExpr, crate::error::SpecError>(left)
        }),
{
    let ts = seq![SpecToken::Int(a), SpecToken::Op(o1), SpecToken::Int(b), SpecToken::Op(o2), SpecToken::Int(c)];
    let ea = SpecExpr::Int(a);
    let eb = SpecExpr::Int(b);
    let ec = SpecExpr::Int(c);
    let (l1, r1) = crate::op::spec_infix_bp(o1)->0;
    let (l2, r2) = crate::op::spec_infix_bp(o2)->0;
    assert(peek_at(ts, 0) == SpecToken::Int(a));
    assert(peek_at(ts, 1) == SpecToken::Op(o1));
    assert(peek_at(ts, 2) == SpecToken::Int(b));
    assert(peek_at(ts, 3) == SpecToken::Op(o2));
    assert(peek_at(ts, 4) == SpecToken::Int(c));
    assert(peek_at(ts, 5) == SpecToken::Eof);
    assert(crate::pratt::spec_parse_loop(ts, 5, r2, ec) == Ok::<(SpecExpr, int), crate::error::SpecError>((ec, 5)));
    assert(crate::pratt::spec_parse_with(ts, 4, r2) == Ok::<(SpecExpr, int), crate::error::SpecError>((ec, 5)));
    if additive(o1) && multiplicative(o2) {
        let bc = SpecExpr::Binary { lhs: Box::new(eb), rhs: Box::new(ec), op: o2 };
        let whole = SpecExpr::Binary { lhs: Box::new(ea), rhs: Box::new(bc), op: o1 };
        assert(crate::pratt::spec_parse_loop(ts, 5, r1, bc) == Ok::<(SpecExpr, int), crate::error::SpecError>((bc, 5)));
        assert(crate::pratt::spec_parse_loop(ts, 3, r1, eb) == Ok::<(SpecExpr, int), crate::error::SpecError>((bc, 5)));
        assert(crate::pratt::spec_parse_with(ts, 2, r1) == Ok::<(SpecExpr, int), crate::error::SpecError>((bc, 5)));
        assert(crate::pratt::spec_parse_loop(ts, 5, 0, whole) == Ok::<(SpecExpr, int), crate::error::SpecError>((whole, 5)));
        assert(crate::pratt::spec_parse_loop(ts, 1, 0, ea) == Ok::<(SpecExpr, int), crate::error::SpecError>((whole, 5)));
        assert(crate::pratt::spec_parse_with(ts, 0, 0) == Ok::<(SpecExpr, int), crate::error::SpecError>((whole, 5)));
    } else {
        let ab = SpecExpr::Binary { lhs: Box::new(ea), rhs: Box::new(eb), op: o1 };
        let whole = SpecExpr::Binary { lhs: Box::new(ab), rhs: Box::new(ec), op: o2 };
        assert(crate::pratt::spec_parse_loop(ts, 3, r1, eb) == Ok::<(SpecExpr, int), crate::error::SpecError>((eb, 3)));
        assert(crate::pratt::spec_parse_with(ts, 2, r1) == Ok::<(SpecExpr, int), crate::error::SpecError>((eb, 3)));
        assert(crate::pratt::spec_parse_loop(ts, 5, 0, whole) == Ok::<(SpecExpr, int), crate::error::SpecError>((whole, 5)));
        assert(crate::pratt::spec_parse_loop(ts, 3, 0, ab) == Ok::<(SpecExpr, int), crate::error::SpecError>((whole, 5)));
        assert(crate::pratt::spec_parse_loop(ts, 1, 0, ea) == Ok::<(SpecExpr, int), crate::error::SpecError>((whole, 5)));
        assert(crate::pratt::spec_parse_with(ts, 0, 0) == Ok::<(SpecExpr, int), crate::error::SpecError>((whole, 5)));
    }
}

} // verus!

verus! {

/// Whether every one of `args` is an integer or a float.
pub open spec fn all_numbers(args: Seq<SpecExpr>) -> bool {
    forall|i: int| 0 <= i < args.len() ==> (#[trigger] args[i] is Int || args[i] is Float)
}

/// A call of a name bound to a floating-point function asks the host
/// exactly once, with that function and the arguments, when it gets the
/// numbers the function takes: two for `pow`, one for `sin`, `cos` and
/// `asin`. Any other arguments give `Null` and ask nothing.
pub proof fn law_maths_functions_take_numbers(key: Seq<char>, f: crate::fun::MathFn, args: Seq<SpecExpr>, m: Machine, fs: Funs, o: Oracle)
    requires
        fs.contains_key(key),
        fs[key] == Callable::Math(f),
    ensures
        ({
            let n: nat = if f == crate::fun::MathFn::Pow { 2 } else { 1 };
            &&& (args.len() == n && all_numbers(args)) ==> spec_call(key, args, m, fs, o) == (
                o(m.calls.len()),
                Machine { vars: m.vars, calls: m.calls.push(SpecRequest::Math { fun: f, args }) },
            )
            &&& !(args.len() == n && all_numbers(args)) ==> spec_call(key, args, m, fs, o) == (SpecExpr::Null, m)
        }),
{
}

/// The functions of a new context bind `pow` to the floating-point power
/// function and `sin`, `cos` and `asin` to theirs.
pub proof fn law_builtin_maths_names()
    ensures
        crate::fun::builtin_functions()["pow"@] == Callable::Math(crate::fun::MathFn::Pow),
        crate::fun::builtin_functions()["sin"@] == Callable::Math(crate::fun::MathFn::Sin),
        crate::fun::builtin_functions()["cos"@] == Callable::Math(crate::fun::MathFn::Cos),
        crate::fun::builtin_functions()["asin"@] == Callable::Math(crate::fun::MathFn::Asin),
        crate::fun::builtin_functions().contains_key("pow"@),
        crate::fun::builtin_functions().contains_key("sin"@),
        crate::fun::builtin_functions().contains_key("cos"@),
        crate::fun::builtin_functions().contains_key("asin"@),
{
    reveal_strlit("pow");
    reveal_strlit("sin");
    reveal_strlit("cos");
    reveal_strlit("asin");
    reveal_strlit("to_lower");
    reveal_strlit("to_upper");
    assert("sin"@.len() != "asin"@.len());
    assert("sin"@[0] != "pow"@[0]);
    assert("cos"@[0] != "sin"@[0]);
    assert("cos"@.len() != "asin"@.len());
    assert("cos"@[0] != "pow"@[0]);
    assert("asin"@.len() != "pow"@.len());
}

/// In `lhs op rhs`, where one operand's value is a float and the other's a
/// number, the host is asked once, with the operator and the two values in
/// the order they stand: the left operand's value first.
pub proof fn law_float_arithmetic_keeps_operand_order(lhs: SpecExpr, rhs: SpecExpr, op: Op, m: Machine, fs: Funs, o: Oracle, d: nat)
    requires
        d > 0,
    ensures
        ({
            let (l, m1) = spec_eval(lhs, m, fs, o, (d - 1) as nat);
            let (r, m2) = spec_eval(rhs, m1, fs, o, (d - 1) as nat);
            ((l is Float && (r is Int || r is Float)) || (l is Int && r is Float)) ==>
                spec_eval_op(lhs, rhs, op, m, fs, o, d) == (
                    o(m2.calls.len()),
                    Machine { vars: m2.vars, calls: m2.calls.push(SpecRequest::Arith { op, lhs: l, rhs: r }) },
                )
        }),
{
}

/// `a op f`, an integer literal and then a float literal, asks the host
/// once for `a op f` with the integer as the left operand, and gives its
/// answer; likewise `f op a` with the float on the left.
pub proof fn law_mixed_literals_go_to_the_host_in_order(a: i64, f: Seq<char>, op: Op, m: Machine, fs: Funs, o: Oracle, d: nat)
    requires
        d > 2,
    ensures
        spec_eval(SpecExpr::Binary { lhs: Box::new(SpecExpr::Int(a)), rhs: Box::new(SpecExpr::Float(f)), op }, m, fs, o, d) == (
            o(m.calls.len()),
            Machine { vars: m.vars, calls: m.calls.push(SpecRequest::Arith { op, lhs: SpecExpr::Int(a), rhs: SpecExpr::Float(f) }) },
        ),
        spec_eval(SpecExpr::Binary { lhs: Box::new(SpecExpr::Float(f)), rhs: Box::new(SpecExpr::Int(a)), op }, m, fs, o, d) == (
            o(m.calls.len()),
            Machine { vars: m.vars, calls: m.calls.push(SpecRequest::Arith { op, lhs: SpecExpr::Float(f), rhs: SpecExpr::Int(a) }) },
        ),
{
    let d1 = (d - 1) as nat;
    let d2 = (d1 - 1) as nat;
    let ia = SpecExpr::Int(a);
    let ff = SpecExpr::Float(f);
    assert(spec_eval(ia, m, fs, o, d2) == (ia, m));
    assert(spec_eval(ff, m, fs, o, d2) == (ff, m));
    let m2 = Machine { vars: m.vars, calls: m.calls.push(SpecRequest::Arith { op, lhs: ia, rhs: ff }) };
    assert(spec_eval_op(ia, ff, op, m, fs, o, d1) == (o(m.calls.len()), m2));
    let m3 = Machine { vars: m.vars, calls: m.calls.push(SpecRequest::Arith { op, lhs: ff, rhs: ia }) };
    assert(spec_eval_op(ff, ia, op, m, fs, o, d1) == (o(m.calls.len()), m3));
}

} // verus!
