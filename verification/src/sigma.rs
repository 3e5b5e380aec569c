//! The signature Σ: the closed alphabet of term operators.
//!
//! Leaves (`Const`, `Var`, `Acc`, `Elem`, `Len`) carry a payload index in a
//! node's first slot; every other operator takes its operands from the
//! node's child slots, in order.
use vstd::prelude::*;

verus! {

#[derive(Debug, Clone, Copy, PartialEq, Eq, Structural)]
pub enum Op {
    Const,
    Var,
    /// fold accumulator binder (valid only inside a fold body)
    Acc,
    /// element `k` of parallel sequence `k` at the current fold index
    Elem,
    /// length of sequence `k`
    Len,
    /// fold(init, body) over the shared length of the sequences
    Fold,
    Neg,
    Abs,
    Sqrt,
    Floor,
    Ceil,
    Sin,
    Cos,
    Tan,
    Exp,
    Exp2,
    Ln,
    /// round to binary32 and widen back (the value of `(x as f32) as f64`)
    Rnd32,
    Add,
    Sub,
    Mul,
    Div,
    Min,
    Max,
    Pow,
    Lt,
    Gt,
    Le,
    Ge,
    Eq,
    Ne,
    Fma,
    Select,
}

/// Number of child operands of an operator (leaves have none; a fold has
/// its init and its body).
pub open spec fn op_arity(op: Op) -> nat {
    match op {
        Op::Const | Op::Var | Op::Acc | Op::Elem | Op::Len => 0,
        Op::Neg | Op::Abs | Op::Sqrt | Op::Floor | Op::Ceil | Op::Sin | Op::Cos | Op::Tan
        | Op::Exp | Op::Exp2 | Op::Ln | Op::Rnd32 => 1,
        Op::Fold | Op::Add | Op::Sub | Op::Mul | Op::Div | Op::Min | Op::Max | Op::Pow
        | Op::Lt | Op::Gt | Op::Le | Op::Ge | Op::Eq | Op::Ne => 2,
        Op::Fma | Op::Select => 3,
    }
}

/// A leaf that carries a payload index rather than children.
pub open spec fn is_leaf(op: Op) -> bool {
    op_arity(op) == 0
}

impl Op {
    pub fn arity(self) -> (r: usize)
        ensures
            r == op_arity(self),
    {
        match self {
            Op::Const | Op::Var | Op::Acc | Op::Elem | Op::Len => 0,
            Op::Neg | Op::Abs | Op::Sqrt | Op::Floor | Op::Ceil | Op::Sin | Op::Cos | Op::Tan
            | Op::Exp | Op::Exp2 | Op::Ln | Op::Rnd32 => 1,
            Op::Fold | Op::Add | Op::Sub | Op::Mul | Op::Div | Op::Min | Op::Max | Op::Pow
            | Op::Lt | Op::Gt | Op::Le | Op::Ge | Op::Eq | Op::Ne => 2,
            Op::Fma | Op::Select => 3,
        }
    }

    /// Small integer code of the operator, used by the structural hash.
    pub fn code(self) -> (r: u64)
        ensures
            r == op_code(self),
    {
        match self {
            Op::Const => 0,
            Op::Var => 1,
            Op::Acc => 2,
            Op::Elem => 3,
            Op::Len => 4,
            Op::Fold => 5,
            Op::Neg => 6,
            Op::Abs => 7,
            Op::Sqrt => 8,
            Op::Floor => 9,
            Op::Ceil => 10,
            Op::Sin => 11,
            Op::Cos => 12,
            Op::Tan => 13,
            Op::Exp => 14,
            Op::Exp2 => 15,
            Op::Ln => 16,
            Op::Add => 17,
            Op::Sub => 18,
            Op::Mul => 19,
            Op::Div => 20,
            Op::Min => 21,
            Op::Max => 22,
            Op::Pow => 23,
            Op::Lt => 24,
            Op::Gt => 25,
            Op::Le => 26,
            Op::Ge => 27,
            Op::Eq => 28,
            Op::Ne => 29,
            Op::Fma => 30,
            Op::Select => 31,
            Op::Rnd32 => 32,
        }
    }
}

pub open spec fn op_code(op: Op) -> u64 {
    match op {
        Op::Const => 0,
        Op::Var => 1,
        Op::Acc => 2,
        Op::Elem => 3,
        Op::Len => 4,
        Op::Fold => 5,
        Op::Neg => 6,
        Op::Abs => 7,
        Op::Sqrt => 8,
        Op::Floor => 9,
        Op::Ceil => 10,
        Op::Sin => 11,
        Op::Cos => 12,
        Op::Tan => 13,
        Op::Exp => 14,
        Op::Exp2 => 15,
        Op::Ln => 16,
        Op::Add => 17,
        Op::Sub => 18,
        Op::Mul => 19,
        Op::Div => 20,
        Op::Min => 21,
        Op::Max => 22,
        Op::Pow => 23,
        Op::Lt => 24,
        Op::Gt => 25,
        Op::Le => 26,
        Op::Ge => 27,
        Op::Eq => 28,
        Op::Ne => 29,
        Op::Fma => 30,
        Op::Select => 31,
        Op::Rnd32 => 32,
    }
}

/// Distinct operators have distinct codes.
pub proof fn lemma_op_code_injective(x: Op, y: Op)
    ensures
        op_code(x) == op_code(y) <==> x == y,
{
}


/// How two binary64 values compare: exactly one of `lt`, `eq`, `gt`, or
/// none of them when the pair is unordered (a NaN is involved).
pub open spec fn outcome_ok(lt: bool, eq: bool, gt: bool) -> bool {
    !(lt && eq) && !(lt && gt) && !(eq && gt)
}

/// The truth of a Σ comparison node for operands that compare as given:
/// Σ's comparisons are Rust's (`<`, `>`, `<=`, `>=`, `==`, `!=`), so every one
/// but `Ne` is false on an unordered pair, and `Ne` is true on it.
pub open spec fn relation_holds(op: Op, lt: bool, eq: bool, gt: bool) -> bool {
    match op {
        Op::Lt => lt,
        Op::Gt => gt,
        Op::Le => lt || eq,
        Op::Ge => gt || eq,
        Op::Eq => eq,
        Op::Ne => !eq,
        _ => false,
    }
}

} // verus!
