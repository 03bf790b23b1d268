use vstd::prelude::*;
use crate::op::Op;

verus! {

/// An expression of the language, as the parser builds it and the evaluator
/// rewrites it. A floating-point number is held as the decimal text that
/// denotes it.
#[derive(Debug)]
pub enum Expression {
    Deferred(String),
    Ident(String),
    Str(String),
    Int(i64),
    Float(String),
    Binary { lhs: Box<Expression>, rhs: Box<Expression>, op: Op },
    Unary { value: Box<Expression>, op: Op },
    Fn { fun: Box<Expression>, args: Vec<Expression> },
    Array(Vec<Expression>),
    Index { src: Box<Expression>, key: Box<Expression> },
    Declaration { ident: String, value: Box<Expression> },
    Assignment { lhs: Box<Expression>, rhs: Box<Expression> },
    Null,
}

/// The mathematical model of an expression: strings become character
/// sequences and vectors become sequences.
pub enum SpecExpr {
    Deferred(Seq<char>),
    Ident(Seq<char>),
    Str(Seq<char>),
    Int(i64),
    Float(Seq<char>),
    Binary { lhs: Box<SpecExpr>, rhs: Box<SpecExpr>, op: Op },
    Unary { value: Box<SpecExpr>, op: Op },
    Fn { fun: Box<SpecExpr>, args: Seq<SpecExpr> },
    Array(Seq<SpecExpr>),
    Index { src: Box<SpecExpr>, key: Box<SpecExpr> },
    Declaration { ident: Seq<char>, value: Box<SpecExpr> },
    Assignment { lhs: Box<SpecExpr>, rhs: Box<SpecExpr> },
    Null,
}

impl Expression {
    pub open spec fn model(&self) -> SpecExpr
        decreases self,
    {
        match self {
            Expression::Deferred(s) => SpecExpr::Deferred(s@),
            Expression::Ident(s) => SpecExpr::Ident(s@),
            Expression::Str(s) => SpecExpr::Str(s@),
            Expression::Int(i) => SpecExpr::Int(*i),
            Expression::Float(s) => SpecExpr::Float(s@),
            Expression::Binary { lhs, rhs, op } => SpecExpr::Binary {
                lhs: Box::new(lhs.model()),
                rhs: Box::new(rhs.model()),
                op: *op,
            },
            Expression::Unary { value, op } => SpecExpr::Unary { value: Box::new(value.model()), op: *op },
            Expression::Fn { fun, args } => SpecExpr::Fn {
                fun: Box::new(fun.model()),
                args: models(args@),
            },
            Expression::Array(v) => SpecExpr::Array(models(v@)),
            Expression::Index { src, key } => SpecExpr::Index {
                src: Box::new(src.model()),
                key: Box::new(key.model()),
            },
            Expression::Declaration { ident, value } => SpecExpr::Declaration {
                ident: ident@,
                value: Box::new(value.model()),
            },
            Expression::Assignment { lhs, rhs } => SpecExpr::Assignment {
                lhs: Box::new(lhs.model()),
                rhs: Box::new(rhs.model()),
            },
            Expression::Null => SpecExpr::Null,
        }
    }
}

pub open spec fn models(s: Seq<Expression>) -> Seq<SpecExpr>
    decreases s,
{
    if s.len() == 0 {
        Seq::empty()
    } else {
        seq![s[0].model()] + models(s.drop_first())
    }
}

impl View for Expression {
    type V = SpecExpr;

    open spec fn view(&self) -> SpecExpr {
        self.model()
    }
}

} // verus!

verus! {

pub proof fn lemma_models_len(s: Seq<Expression>)
    ensures
        models(s).len() == s.len(),
    decreases s.len(),
{
    if s.len() > 0 {
        lemma_models_len(s.drop_first());
    }
}

pub proof fn lemma_models_index(s: Seq<Expression>, i: int)
    requires
        0 <= i < s.len(),
    ensures
        models(s)[i] == s[i].model(),
    decreases s.len(),
{
    lemma_models_len(s.drop_first());
    if i > 0 {
        lemma_models_index(s.drop_first(), i - 1);
    }
}

pub proof fn lemma_models_push(s: Seq<Expression>, x: Expression)
    ensures
        models(s.push(x)) == models(s).push(x.model()),
    decreases s.len(),
{
    if s.len() == 0 {
        assert(s.push(x).drop_first() =~= s);
        assert(models(s.push(x)) =~= models(s).push(x.model()));
    } else {
        lemma_models_push(s.drop_first(), x);
        assert(s.push(x).drop_first() =~= s.drop_first().push(x));
        assert(models(s.push(x)) =~= models(s).push(x.model()));
    }
}

} // verus!

verus! {

impl Expression {
    /// A copy of the expression.
    pub fn copy(&self) -> (r: Expression)
        ensures
            r@ == self@,
        decreases self,
    {
        match self {
            Expression::Deferred(s) => Expression::Deferred(s.clone()),
            Expression::Ident(s) => Expression::Ident(s.clone()),
            Expression::Str(s) => Expression::Str(s.clone()),
            Expression::Int(i) => Expression::Int(*i),
            Expression::Float(s) => Expression::Float(s.clone()),
            Expression::Binary { lhs, rhs, op } => Expression::Binary {
                lhs: Box::new((**lhs).copy()),
                rhs: Box::new((**rhs).copy()),
                op: *op,
            },
            Expression::Unary { value, op } => Expression::Unary { value: Box::new((**value).copy()), op: *op },
            Expression::Fn { fun, args } => Expression::Fn {
                fun: Box::new((**fun).copy()),
                args: copy_all(args),
            },
            Expression::Array(v) => Expression::Array(copy_all(v)),
            Expression::Index { src, key } => Expression::Index {
                src: Box::new((**src).copy()),
                key: Box::new((**key).copy()),
            },
            Expression::Declaration { ident, value } => Expression::Declaration {
                ident: ident.clone(),
                value: Box::new((**value).copy()),
            },
            Expression::Assignment { lhs, rhs } => Expression::Assignment {
                lhs: Box::new((**lhs).copy()),
                rhs: Box::new((**rhs).copy()),
            },
            Expression::Null => Expression::Null,
        }
    }
}

impl Clone for Expression {
    /// A copy of the expression, as `copy` makes it.
    fn clone(&self) -> (r: Self)
        ensures
            r@ == self@,
    {
        self.copy()
    }
}

/// A copy of each expression of `v`.
pub fn copy_all(v: &Vec<Expression>) -> (r: Vec<Expression>)
    ensures
        models(r@) == models(v@),
    decreases v,
{
    let mut r: Vec<Expression> = Vec::new();
    let mut i: usize = 0;
    while i < v.len()
        invariant
            i <= v@.len(),
            r@.len() == i,
            forall|j: int| 0 <= j < i ==> (#[trigger] r@[j])@ == v@[j]@,
        decreases v@.len() - i,
    {
        assert(decreases_to!(v => v@[i as int]));
        let c = v[i].copy();
        r.push(c);
        i = i + 1;
    }
    proof { lemma_models_ext(r@, v@); }
    r
}

pub proof fn lemma_models_ext(a: Seq<Expression>, b: Seq<Expression>)
    requires
        a.len() == b.len(),
        forall|j: int| 0 <= j < a.len() ==> (#[trigger] a[j])@ == b[j]@,
    ensures
        models(a) == models(b),
{
    lemma_models_len(a);
    lemma_models_len(b);
    assert forall|j: int| 0 <= j < a.len() implies models(a)[j] == models(b)[j] by {
        lemma_models_index(a, j);
        lemma_models_index(b, j);
    }
    assert(models(a) =~= models(b));
}

} // verus!
