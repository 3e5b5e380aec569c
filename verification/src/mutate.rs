//! The mutation operator catalogue: which operator an `OpSwap` mutant puts
//! in place of another.
use vstd::prelude::*;
use crate::sigma::Op;

verus! {

/// The operators an `OpSwap` mutant may put in place of `op`.
pub open spec fn mutation_swaps(op: Op) -> Seq<Op> {
    match op {
        Op::Add => seq![Op::Sub, Op::Mul],
        Op::Sub => seq![Op::Add, Op::Div],
        Op::Mul => seq![Op::Div, Op::Add],
        Op::Div => seq![Op::Mul, Op::Sub],
        Op::Min => seq![Op::Max],
        Op::Max => seq![Op::Min],
        Op::Sin => seq![Op::Cos, Op::Tan],
        Op::Cos => seq![Op::Sin],
        Op::Exp => seq![Op::Ln],
        Op::Ln => seq![Op::Exp],
        Op::Neg => seq![Op::Abs],
        Op::Abs => seq![Op::Neg],
        Op::Floor => seq![Op::Ceil],
        Op::Ceil => seq![Op::Floor],
        _ => seq![],
    }
}

/// An operator swap keeps the node's shape: same number of operands.
pub proof fn lemma_swaps_keep_arity(op: Op, i: int)
    requires
        0 <= i < mutation_swaps(op).len(),
    ensures
        crate::sigma::op_arity(mutation_swaps(op)[i]) == crate::sigma::op_arity(op),
{
}

pub fn op_swaps(op: Op) -> (r: Vec<Op>)
    ensures
        r@ == mutation_swaps(op),
{
    let r = match op {
        Op::Add => vec![Op::Sub, Op::Mul],
        Op::Sub => vec![Op::Add, Op::Div],
        Op::Mul => vec![Op::Div, Op::Add],
        Op::Div => vec![Op::Mul, Op::Sub],
        Op::Min => vec![Op::Max],
        Op::Max => vec![Op::Min],
        Op::Sin => vec![Op::Cos, Op::Tan],
        Op::Cos => vec![Op::Sin],
        Op::Exp => vec![Op::Ln],
        Op::Ln => vec![Op::Exp],
        Op::Neg => vec![Op::Abs],
        Op::Abs => vec![Op::Neg],
        Op::Floor => vec![Op::Ceil],
        Op::Ceil => vec![Op::Floor],
        _ => vec![],
    };
    assert(r@ =~= mutation_swaps(op));
    r
}

} // verus!
