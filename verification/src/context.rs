use vstd::prelude::*;
use crate::expression::{Expression, SpecExpr};
use crate::fun::{Functions, builtin_functions};
use crate::host::{History, Host, Request, SpecRequest, requests};
use crate::vars::{SpecVariable, VarMap, Variables};

verus! {

/// The state that evaluation reads and changes: the variables, and the
/// requests made to the host so far.
#[verifier::ext_equal]
pub struct Machine {
    pub vars: VarMap,
    pub calls: Seq<SpecRequest>,
}

/// The variables after loading the read-only `values` in order, each
/// name bound to its text, to be evaluated when used.
pub open spec fn load_values(vars: VarMap, values: Seq<(Seq<char>, Seq<char>)>) -> VarMap
    decreases values.len(),
{
    if values.len() == 0 {
        vars
    } else {
        load_values(vars, values.drop_last()).insert(
            values.last().0,
            SpecVariable::ReadOnly(SpecExpr::Deferred(values.last().1)),
        )
    }
}

/// The record of the requests handed to the host, with the answer and the
/// user data of each. Nothing outside this module can add to it: only
/// `Context::ask`, which hands the request to the host, does.
pub struct Log<U> {
    history: Ghost<History>,
    given: Ghost<Seq<U>>,
}

impl<U> Log<U> {
    /// The requests, each with the answer it got.
    pub closed spec fn history(&self) -> History {
        self.history@
    }

    /// The user data handed with each request.
    pub closed spec fn given(&self) -> Seq<U> {
        self.given@
    }

    fn empty() -> (r: Self)
        ensures
            r.history() == History::empty(),
            r.given() == Seq::<U>::empty(),
    {
        Log { history: Ghost(History::empty()), given: Ghost(Seq::empty()) }
    }

    fn record(&mut self, request: Ghost<SpecRequest>, answer: Ghost<SpecExpr>, user_data: Ghost<U>)
        ensures
            final(self).history() == old(self).history().push((request@, answer@)),
            final(self).given() == old(self).given().push(user_data@),
    {
        self.history = Ghost(self.history@.push((request@, answer@)));
        self.given = Ghost(self.given@.push(user_data@));
    }
}

/// Variables, functions and the embedding program's data.
pub struct Context<U> {
    pub variables: Variables,
    pub functions: Functions,
    pub user_data: U,
    /// What the host was asked, and what it answered.
    pub log: Log<U>,
}

/// Since `c0`, the record of user data handed to the host has only grown,
/// and every request made since was handed the user data of `c0`.
pub open spec fn handed_since<U>(c1: Context<U>, c0: Context<U>) -> bool {
    &&& c0.given().len() <= c1.given().len()
    &&& forall|i: int| 0 <= i < c0.given().len() ==> #[trigger] c1.given()[i] == c0.given()[i]
    &&& forall|i: int| c0.given().len() <= i < c1.given().len() ==> #[trigger] c1.given()[i] == c0.user_data
}

impl<U> Context<U> {
    pub open spec fn wf(&self) -> bool {
        self.variables.wf() && self.functions.wf() && self.given().len() == self.history().len()
    }

    /// The requests made to the host through this context, with their
    /// answers. Only `ask`, which hands each request to the host, adds to it.
    pub open spec fn history(&self) -> History {
        self.log.history()
    }

    /// The user data handed to the host with each request, in order. Only
    /// `ask` adds to it.
    pub open spec fn given(&self) -> Seq<U> {
        self.log.given()
    }

    pub open spec fn machine(&self) -> Machine {
        Machine { vars: self.variables@, calls: requests(self.history()) }
    }

    pub fn new(user_data: U) -> (r: Self)
        ensures
            r.wf(),
            r.variables@ == VarMap::empty(),
            r.functions@ == builtin_functions(),
            r.history() == History::empty(),
            r.given() == Seq::<U>::empty(),
            r.user_data == user_data,
    {
        Self {
            variables: Variables::empty(),
            functions: Functions::new(),
            user_data,
            log: Log::empty(),
        }
    }

    /// Loads read-only variables: each name is bound to a source text.
    pub fn load_read_only(&mut self, values: Vec<(String, String)>)
        requires
            old(self).wf(),
        ensures
            final(self).wf(),
            final(self).variables@ == load_values(
                old(self).variables@,
                values@.map_values(|p: (String, String)| (p.0@, p.1@)),
            ),
            final(self).functions@ == old(self).functions@,
            final(self).history() == old(self).history(),
            final(self).user_data == old(self).user_data,
            final(self).given() == old(self).given(),
    {
        let ghost vs = values@.map_values(|p: (String, String)| (p.0@, p.1@));
        let mut values = values;
        let ghost orig = values@;
        let n = values.len();
        let mut i: usize = 0;
        assert(vs.take(0) =~= Seq::<(Seq<char>, Seq<char>)>::empty());
        while i < n
            invariant
                n == values@.len(),
                n == vs.len(),
                vs == orig.map_values(|p: (String, String)| (p.0@, p.1@)),
                i <= n,
                self.wf(),
                self.functions@ == old(self).functions@,
                self.history() == old(self).history(),
                self.user_data == old(self).user_data,
                self.given() == old(self).given(),
                forall|j: int| i <= j < n ==> #[trigger] values@[j] == orig[j],
                self.variables@ == load_values(old(self).variables@, vs.take(i as int)),
            decreases n - i,
        {
            let mut entry = (String::new(), String::new());
            std::mem::swap(&mut entry, &mut values[i]);
            let (key, value) = entry;
            proof {
                assert(vs.take(i + 1).drop_last() =~= vs.take(i as int));
                assert(vs[i as int] == (key@, value@));
            }
            self.variables.insert_ro(key, value);
            i = i + 1;
        }
        assert(vs.take(n as int) =~= vs);
    }

    /// Hands a request to the host, with the user data, and records the
    /// request with the answer and the user data it was handed.
    pub fn ask<H: Host<U>>(&mut self, host: &H, request: Request) -> (r: Expression)
        ensures
            final(self).variables == old(self).variables,
            final(self).functions == old(self).functions,
            final(self).user_data == old(self).user_data,
            final(self).history() == old(self).history().push((request@, r@)),
            final(self).given() == old(self).given().push(old(self).user_data),
    {
        let answer = host.answer(&request, &self.user_data);
        self.log.record(Ghost(request@), Ghost(answer@), Ghost(self.user_data));
        answer
    }
}

} // verus!
