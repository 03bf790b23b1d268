use vstd::prelude::*;
use crate::expression::{Expression, SpecExpr, lemma_models_index, lemma_models_len, models};
use crate::fun::MathFn;

verus! {

/// Whether `e` is a number: an integer or a float.
pub open spec fn is_number(e: SpecExpr) -> bool {
    e is Int || e is Float
}

/// How many arguments the floating-point function `f` takes: two for
/// `pow`, one for the others.
pub open spec fn math_arity(f: MathFn) -> nat {
    match f {
        MathFn::Pow => 2,
        _ => 1,
    }
}

/// Whether `args` suit `f`: as many as it takes, each a number. Other
/// arguments give `Null` without any floating-point work.
pub open spec fn math_args_ok(f: MathFn, args: Seq<SpecExpr>) -> bool {
    args.len() == math_arity(f) && forall|i: int| 0 <= i < args.len() ==> is_number(#[trigger] args[i])
}

/// Whether `args` suit the floating-point function `f`.
pub fn math_args_fit(f: MathFn, args: &Vec<Expression>) -> (r: bool)
    ensures
        r == math_args_ok(f, models(args@)),
{
    proof { lemma_models_len(args@); }
    let n: usize = match f {
        MathFn::Pow => 2,
        _ => 1,
    };
    if args.len() != n {
        return false;
    }
    let mut i: usize = 0;
    while i < args.len()
        invariant
            i <= args@.len(),
            models(args@).len() == args@.len(),
            forall|j: int| 0 <= j < i ==> is_number(#[trigger] models(args@)[j]),
        decreases args@.len() - i,
    {
        proof { lemma_models_index(args@, i as int); }
        match &args[i] {
            Expression::Int(_) | Expression::Float(_) => {},
            _ => {
                assert(!is_number(models(args@)[i as int]));
                return false;
            },
        }
        i = i + 1;
    }
    true
}

} // verus!
