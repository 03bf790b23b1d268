use vstd::prelude::*;
use crate::expression::{Expression, SpecExpr};
use crate::text::{chars_of, push_char};

verus! {

/// `c` in lower case, for ASCII letters; other characters are kept.
pub open spec fn lower_char(c: char) -> char {
    if 'A' <= c && c <= 'Z' { ((c as u8) + 32) as u8 as char } else { c }
}

/// `c` in upper case, for ASCII letters; other characters are kept.
pub open spec fn upper_char(c: char) -> char {
    if 'a' <= c && c <= 'z' { ((c as u8) - 32) as u8 as char } else { c }
}

pub open spec fn ascii_lower(s: Seq<char>) -> Seq<char> {
    s.map_values(|c: char| lower_char(c))
}

pub open spec fn ascii_upper(s: Seq<char>) -> Seq<char> {
    s.map_values(|c: char| upper_char(c))
}

/// The result of `to_lower` on the argument list `args`.
pub open spec fn spec_to_lower(args: Seq<SpecExpr>) -> SpecExpr {
    if args.len() != 1 {
        SpecExpr::Null
    } else {
        match args[0] {
            SpecExpr::Str(s) => SpecExpr::Str(ascii_lower(s)),
            _ => SpecExpr::Null,
        }
    }
}

/// The result of `to_upper` on the argument list `args`.
pub open spec fn spec_to_upper(args: Seq<SpecExpr>) -> SpecExpr {
    if args.len() != 1 {
        SpecExpr::Null
    } else {
        match args[0] {
            SpecExpr::Str(s) => SpecExpr::Str(ascii_upper(s)),
            _ => SpecExpr::Null,
        }
    }
}

fn map_ascii(s: &String, upper: bool) -> (r: String)
    ensures
        r@ == if upper { ascii_upper(s@) } else { ascii_lower(s@) },
{
    let cs = chars_of(s.as_str());
    let mut r = String::new();
    let mut i: usize = 0;
    while i < cs.len()
        invariant
            cs@ == s@,
            i <= cs@.len(),
            r@ == (if upper { ascii_upper(s@) } else { ascii_lower(s@) }).take(i as int),
        decreases cs@.len() - i,
    {
        let c = cs[i];
        let m = if upper {
            if 'a' <= c && c <= 'z' { ((c as u8) - 32) as char } else { c }
        } else {
            if 'A' <= c && c <= 'Z' { ((c as u8) + 32) as char } else { c }
        };
        push_char(&mut r, m);
        i = i + 1;
        assert(r@ =~= (if upper { ascii_upper(s@) } else { ascii_lower(s@) }).take(i as int));
    }
    assert(r@ =~= (if upper { ascii_upper(s@) } else { ascii_lower(s@) }));
    r
}

/// The single string argument in ASCII lower case.
pub fn to_lower(args: &[Expression]) -> (r: Expression)
    ensures
        r@ == spec_to_lower(crate::expression::models(args@)),
{
    proof { crate::expression::lemma_models_len(args@); }
    if args.len() != 1 {
        return Expression::Null;
    }
    proof { crate::expression::lemma_models_index(args@, 0); }
    match &args[0] {
        Expression::Str(s) => Expression::Str(map_ascii(s, false)),
        _ => Expression::Null,
    }
}

/// The single string argument in ASCII upper case.
pub fn to_upper(args: &[Expression]) -> (r: Expression)
    ensures
        r@ == spec_to_upper(crate::expression::models(args@)),
{
    proof { crate::expression::lemma_models_len(args@); }
    if args.len() != 1 {
        return Expression::Null;
    }
    proof { crate::expression::lemma_models_index(args@, 0); }
    match &args[0] {
        Expression::Str(s) => Expression::Str(map_ascii(s, true)),
        _ => Expression::Null,
    }
}

} // verus!
