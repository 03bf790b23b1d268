//! An interpreter for a small expression language: a lexer, a Pratt
//! parser and an evaluator with variables and functions.

pub mod op;
pub mod text;
pub mod expression;
pub mod error;
pub mod lexer;
pub mod pratt;
pub mod table;
pub mod vars;
pub mod fun;
pub mod host;
pub mod context;
pub mod eval;
pub mod display;
pub mod laws;

use vstd::prelude::*;
use crate::context::{Context, Machine};
use crate::display::{error_text, render, write_error, write_expr};
use crate::eval::{DEPTH, Funs, eval, spec_eval};
use crate::expression::Expression;
use crate::fun::{Callable, builtin_functions};
use crate::host::{History, Host, Oracle, agrees, extends, lemma_agrees_prefix, lemma_extends_trans};
use crate::lexer::{lex, spec_lex};
use crate::pratt::{parse, spec_parse};
use crate::vars::VarMap;

verus! {

/// What running `src` gives: the text written for an error or for a
/// non-null value, or nothing for `Null`; and the new state.
pub open spec fn spec_run(src: Seq<char>, m: Machine, fs: Funs, o: Oracle) -> (Option<Seq<char>>, Machine) {
    match spec_lex(src) {
        Err(e) => {
            let (t, m1) = error_text(e, m, o);
            (Some(t), m1)
        },
        Ok(ts) => match spec_parse(ts, 0) {
            Err(e) => {
                let (t, m1) = error_text(e, m, o);
                (Some(t), m1)
            },
            Ok(x) => {
                let (v, m1) = spec_eval(x, m, fs, o, DEPTH as nat);
                if v is Null {
                    (None, m1)
                } else {
                    let (t, m2) = render(v, m1, o);
                    (Some(t), m2)
                }
            },
        },
    }
}

/// Runs programs one after another in one context.
pub struct Interpreter<U> {
    context: Context<U>,
    output: String,
}

impl<U> Interpreter<U> {
    pub closed spec fn wf(&self) -> bool {
        self.context.wf()
    }

    /// The variables and the requests made to the host so far.
    pub closed spec fn state(&self) -> Machine {
        self.context.machine()
    }

    /// The functions that programs can call.
    pub closed spec fn functions(&self) -> Funs {
        self.context.functions@
    }

    /// The requests made to the host so far, with their answers.
    pub closed spec fn history(&self) -> History {
        self.context.history()
    }

    /// The user data that the host is handed with each request.
    pub closed spec fn user_data(&self) -> U {
        self.context.user_data
    }

    /// The user data handed to the host with each request so far, in the
    /// order of the history.
    pub closed spec fn given(&self) -> Seq<U> {
        self.context.given()
    }

    pub fn new(user_data: U) -> (r: Self)
        ensures
            r.wf(),
            r.user_data() == user_data,
            r.given() == Seq::<U>::empty(),
            r.state() == (Machine { vars: VarMap::empty(), calls: Seq::empty() }),
            r.functions() == builtin_functions(),
            r.history() == History::empty(),
    {
        let r = Self { context: Context::new(user_data), output: String::new() };
        assert(r.state() =~= Machine { vars: VarMap::empty(), calls: Seq::empty() });
        r
    }

    /// Makes `name` call the function that the embedding program knows by `handle`.
    pub fn register_fun(&mut self, name: String, handle: usize)
        requires
            old(self).wf(),
        ensures
            final(self).wf(),
            final(self).functions() == old(self).functions().insert(name@, Callable::Registered(handle)),
            final(self).state() == old(self).state(),
            final(self).history() == old(self).history(),
            final(self).user_data() == old(self).user_data(),
            final(self).given() == old(self).given(),
    {
        self.context.functions.register(name, Callable::Registered(handle));
    }

    /// Loads read-only variables, each bound to a source text.
    pub fn load_read_only(&mut self, values: Vec<(String, String)>)
        requires
            old(self).wf(),
        ensures
            final(self).wf(),
            final(self).state() == (Machine {
                vars: crate::context::load_values(
                    old(self).state().vars,
                    values@.map_values(|p: (String, String)| (p.0@, p.1@)),
                ),
                calls: old(self).state().calls,
            }),
            final(self).functions() == old(self).functions(),
            final(self).history() == old(self).history(),
            final(self).user_data() == old(self).user_data(),
            final(self).given() == old(self).given(),
    {
        self.context.load_read_only(values);
        assert(self.state() =~= Machine {
            vars: crate::context::load_values(
                old(self).state().vars,
                values@.map_values(|p: (String, String)| (p.0@, p.1@)),
            ),
            calls: old(self).state().calls,
        });
    }

    /// Runs the program `src`: the message of a lexing or parsing error, the
    /// display text of a value that is not `Null`, or nothing.
    pub fn run<H: Host<U>>(&mut self, src: &str, host: &H) -> (r: Option<&str>)
        requires
            old(self).wf(),
        ensures
            final(self).wf(),
            final(self).functions() == old(self).functions(),
            extends(final(self).history(), old(self).history()),
            final(self).user_data() == old(self).user_data(),
            final(self).given().len() == final(self).history().len(),
            forall|i: int| 0 <= i < old(self).given().len() ==> #[trigger] final(self).given()[i] == old(self).given()[i],
            forall|i: int| old(self).given().len() <= i < final(self).given().len() ==>
                #[trigger] final(self).given()[i] == old(self).user_data(),
            forall|o: Oracle| #[trigger] agrees(o, final(self).history()) ==>
                spec_run(src@, old(self).state(), old(self).functions(), o) == (
                    match r { Some(s) => Some(s@), None => None },
                    final(self).state(),
                ),
    {
        let ghost h0 = self.context.history();
        let ghost m0 = self.context.machine();
        let ghost fs = self.context.functions@;
        self.output = String::new();
        let tokens = match lex(src) {
            Ok(t) => t,
            Err(e) => {
                write_error(&e, &mut self.output, &mut self.context, host);
                proof {
                    assert forall|o: Oracle| #[trigger] agrees(o, self.history()) implies
                        spec_run(src@, m0, fs, o) == (Some(self.output@), self.state()) by {
                        assert(self.output@ =~= Seq::<char>::empty() + error_text(e@, m0, o).0);
                    }
                }
                return Some(self.output.as_str());
            },
        };
        let expr = match parse(tokens) {
            Ok(expr) => expr,
            Err(e) => {
                write_error(&e, &mut self.output, &mut self.context, host);
                proof {
                    assert forall|o: Oracle| #[trigger] agrees(o, self.history()) implies
                        spec_run(src@, m0, fs, o) == (Some(self.output@), self.state()) by {
                        assert(self.output@ =~= Seq::<char>::empty() + error_text(e@, m0, o).0);
                    }
                }
                return Some(self.output.as_str());
            },
        };
        let value = eval(expr, &mut self.context, host);
        let ghost h1 = self.context.history();
        let ghost m1 = self.context.machine();
        let ghost vm = value@;
        match value {
            Expression::Null => None,
            v => {
                write_expr(&v, &mut self.output, &mut self.context, host);
                proof {
                    lemma_extends_trans(self.context.history(), h1, h0);
                    assert forall|o: Oracle| #[trigger] agrees(o, self.history()) implies
                        spec_run(src@, m0, fs, o) == (Some(self.output@), self.state()) by {
                        lemma_agrees_prefix(o, self.context.history(), h1);
                        assert(self.output@ =~= Seq::<char>::empty() + render(vm, m1, o).0);
                    }
                }
                Some(self.output.as_str())
            },
        }
    }
}

} // verus!

