use vstd::prelude::*;
use crate::expression::{Expression, SpecExpr, models};
use crate::fun::MathFn;
use crate::op::Op;

verus! {

/// Work that the evaluator hands to the embedding program: floating-point
/// arithmetic and formatting, and functions registered by the program.
#[derive(Debug)]
pub enum Request {
    /// `lhs op rhs` where one operand is a float and the other a number.
    Arith { op: Op, lhs: Expression, rhs: Expression },
    /// A floating-point function applied to the arguments.
    Math { fun: MathFn, args: Vec<Expression> },
    /// The registered function `handle`, called by the name `name`.
    Call { handle: usize, name: String, args: Vec<Expression> },
    /// The text of a float for display (`{}`); the answer is a `Str`.
    ShowFloat(String),
    /// The text of a float for debugging output (`{:?}`); the answer is a `Str`.
    DebugFloat(String),
}

/// The model of a request.
pub enum SpecRequest {
    Arith { op: Op, lhs: SpecExpr, rhs: SpecExpr },
    Math { fun: MathFn, args: Seq<SpecExpr> },
    Call { handle: usize, name: Seq<char>, args: Seq<SpecExpr> },
    ShowFloat(Seq<char>),
    DebugFloat(Seq<char>),
}

impl View for Request {
    type V = SpecRequest;

    open spec fn view(&self) -> SpecRequest {
        match self {
            Request::Arith { op, lhs, rhs } => SpecRequest::Arith { op: *op, lhs: lhs@, rhs: rhs@ },
            Request::Math { fun, args } => SpecRequest::Math { fun: *fun, args: models(args@) },
            Request::Call { handle, name, args } => SpecRequest::Call {
                handle: *handle,
                name: name@,
                args: models(args@),
            },
            Request::ShowFloat(s) => SpecRequest::ShowFloat(s@),
            Request::DebugFloat(s) => SpecRequest::DebugFloat(s@),
        }
    }
}

/// The embedding program, which answers requests. Nothing is assumed of
/// its answers: the library's contracts hold whatever it answers.
pub trait Host<U> {
    fn answer(&self, request: &Request, user_data: &U) -> Expression;
}

/// The requests made so far, each with the answer it got.
pub type History = Seq<(SpecRequest, SpecExpr)>;

/// A possible behaviour of the host: the answer to the request with each
/// number.
pub type Oracle = spec_fn(nat) -> SpecExpr;

/// The host's answers recorded in `h` are those of `o`.
pub open spec fn agrees(o: Oracle, h: History) -> bool {
    forall|i: int| 0 <= i < h.len() ==> o(i as nat) == (#[trigger] h[i]).1
}

/// `h1` continues `h0`.
pub open spec fn extends(h1: History, h0: History) -> bool {
    h0.len() <= h1.len() && h1.subrange(0, h0.len() as int) == h0
}

/// The requests of a history.
pub open spec fn requests(h: History) -> Seq<SpecRequest> {
    h.map_values(|x: (SpecRequest, SpecExpr)| x.0)
}

pub proof fn lemma_agrees_prefix(o: Oracle, h1: History, h0: History)
    requires
        agrees(o, h1),
        extends(h1, h0),
    ensures
        agrees(o, h0),
{
    assert forall|i: int| 0 <= i < h0.len() implies o(i as nat) == (#[trigger] h0[i]).1 by {
        assert(h0[i] == h1.subrange(0, h0.len() as int)[i]);
        assert(o(i as nat) == h1[i].1);
    }
}

pub proof fn lemma_extends_trans(h2: History, h1: History, h0: History)
    requires
        extends(h2, h1),
        extends(h1, h0),
    ensures
        extends(h2, h0),
{
    assert(h2.subrange(0, h0.len() as int) =~= h1.subrange(0, h0.len() as int));
}

pub proof fn lemma_extends_refl(h: History)
    ensures
        extends(h, h),
{
    assert(h.subrange(0, h.len() as int) =~= h);
}

} // verus!

verus! {

pub proof fn lemma_requests_push(h: History, x: (SpecRequest, SpecExpr))
    ensures
        requests(h.push(x)) == requests(h).push(x.0),
        requests(h).len() == h.len(),
{
    assert(requests(h.push(x)) =~= requests(h).push(x.0));
}

pub proof fn lemma_extends_push(h: History, x: (SpecRequest, SpecExpr))
    ensures
        extends(h.push(x), h),
{
    assert(h.push(x).subrange(0, h.len() as int) =~= h);
}

} // verus!
