use vstd::prelude::*;

verus! {

/// The operator symbols of the language.
#[derive(Debug, Copy, Clone, PartialEq, Eq, Structural)]
pub enum Op {
    LParen,
    RParen,
    LBracket,
    RBracket,
    Plus,
    Minus,
    Mul,
    Div,
    Equal,
}

/// Left and right binding powers of an infix operator.
pub open spec fn spec_infix_bp(op: Op) -> Option<(u8, u8)> {
    match op {
        Op::Plus | Op::Minus => Some((1u8, 2u8)),
        Op::Mul | Op::Div => Some((3u8, 4u8)),
        Op::LParen => Some((3u8, 4u8)),
        _ => None,
    }
}

/// Binding power of a postfix operator (call, index, assignment).
pub open spec fn spec_postfix_bp(op: Op) -> Option<u8> {
    match op {
        Op::LParen | Op::LBracket | Op::Equal => Some(5u8),
        _ => None,
    }
}

/// Binding power of a prefix operator.
pub open spec fn spec_prefix_bp(op: Op) -> Option<u8> {
    match op {
        Op::Plus | Op::Minus => Some(5u8),
        _ => None,
    }
}

pub fn infix_bp(op: Op) -> (r: Option<(u8, u8)>)
    ensures
        r == spec_infix_bp(op),
{
    let power = match op {
        Op::Plus | Op::Minus => (1, 2),
        Op::Mul | Op::Div => (3, 4),
        Op::LParen => (3, 4),
        _ => return None,
    };
    Some(power)
}

pub fn postfix_bp(op: Op) -> (r: Option<u8>)
    ensures
        r == spec_postfix_bp(op),
{
    let power = match op {
        Op::LParen | Op::LBracket | Op::Equal => 5,
        _ => return None,
    };
    Some(power)
}

pub fn prefix_bp(op: Op) -> (r: Option<u8>)
    ensures
        r == spec_prefix_bp(op),
{
    match op {
        Op::Plus | Op::Minus => Some(5),
        _ => None,
    }
}

} // verus!

verus! {

/// How an operator is written in the source.
pub open spec fn op_symbol(op: Op) -> Seq<char> {
    match op {
        Op::Plus => "+"@,
        Op::Minus => "-"@,
        Op::Mul => "*"@,
        Op::Div => "/"@,
        Op::LParen => "("@,
        Op::RParen => ")"@,
        Op::LBracket => "["@,
        Op::RBracket => "]"@,
        Op::Equal => "="@,
    }
}

/// The name of an operator, as its derived `Debug` writes it.
pub open spec fn op_name(op: Op) -> Seq<char> {
    match op {
        Op::LParen => "LParen"@,
        Op::RParen => "RParen"@,
        Op::LBracket => "LBracket"@,
        Op::RBracket => "RBracket"@,
        Op::Plus => "Plus"@,
        Op::Minus => "Minus"@,
        Op::Mul => "Mul"@,
        Op::Div => "Div"@,
        Op::Equal => "Equal"@,
    }
}

impl Op {
    /// How the operator is written in the source (its `Display`).
    pub fn symbol(&self) -> (r: &'static str)
        ensures
            r@ == op_symbol(*self),
    {
        match self {
            Op::Plus => "+",
            Op::Minus => "-",
            Op::Mul => "*",
            Op::Div => "/",
            Op::LParen => "(",
            Op::RParen => ")",
            Op::LBracket => "[",
            Op::RBracket => "]",
            Op::Equal => "=",
        }
    }

    /// The name of the operator (its `Debug`).
    pub fn name(&self) -> (r: &'static str)
        ensures
            r@ == op_name(*self),
    {
        match self {
            Op::LParen => "LParen",
            Op::RParen => "RParen",
            Op::LBracket => "LBracket",
            Op::RBracket => "RBracket",
            Op::Plus => "Plus",
            Op::Minus => "Minus",
            Op::Mul => "Mul",
            Op::Div => "Div",
            Op::Equal => "Equal",
        }
    }
}

} // verus!
