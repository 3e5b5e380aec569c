//! Settings of locate-guided repair, and the random choices of the
//! generation loop made from a drawn number.
use vstd::prelude::*;
use crate::sigma::Op;
use crate::term::Term;

verus! {

pub struct RepairParams {
    /// how many top-ranked suspicious nodes are tried
    pub top_k: usize,
    pub gp_budget_gens: u64,
    pub samples: usize,
}

impl Default for RepairParams {
    fn default() -> (r: RepairParams)
        ensures
            r.top_k == 5,
            r.gp_budget_gens == 30,
            r.samples == 32,
    {
        RepairParams { top_k: 5, gp_budget_gens: 30, samples: 32 }
    }
}

/// A node of `t` picked by the random draw `draw` (uniform over the arena
/// when the draw is).
pub fn random_node_id(t: &Term, draw: u64) -> (r: u32)
    requires
        t.nodes@.len() > 0,
    ensures
        r == (draw % (t.nodes@.len() as u64)) as u32,
{
    let n = t.len() as u64;
    (draw % n) as u32
}

/// The operators a single-fault repair tries in place of `op` (same arity).
pub open spec fn repair_swaps(op: Op) -> Seq<Op> {
    match op {
        Op::Add => seq![Op::Sub, Op::Mul],
        Op::Sub => seq![Op::Add, Op::Div],
        Op::Mul => seq![Op::Div, Op::Add],
        Op::Div => seq![Op::Mul, Op::Sub],
        Op::Min => seq![Op::Max],
        Op::Max => seq![Op::Min],
        Op::Sin => seq![Op::Cos],
        Op::Cos => seq![Op::Sin],
        Op::Neg => seq![Op::Abs],
        Op::Abs => seq![Op::Neg],
        Op::Floor => seq![Op::Ceil],
        Op::Ceil => seq![Op::Floor],
        _ => seq![],
    }
}

/// A repair swap keeps the node's shape: same number of operands, so the
/// arena stays children-first.
pub proof fn lemma_repair_swaps_keep_arity(op: Op, i: int)
    requires
        0 <= i < repair_swaps(op).len(),
    ensures
        crate::sigma::op_arity(repair_swaps(op)[i]) == crate::sigma::op_arity(op),
{
}

/// The op-swap moves of repair's first tier at a node labelled `op`.
pub fn swap_candidates(op: Op) -> (r: Vec<Op>)
    ensures
        r@ == repair_swaps(op),
{
    let r = match op {
        Op::Add => vec![Op::Sub, Op::Mul],
        Op::Sub => vec![Op::Add, Op::Div],
        Op::Mul => vec![Op::Div, Op::Add],
        Op::Div => vec![Op::Mul, Op::Sub],
        Op::Min => vec![Op::Max],
        Op::Max => vec![Op::Min],
        Op::Sin => vec![Op::Cos],
        Op::Cos => vec![Op::Sin],
        Op::Neg => vec![Op::Abs],
        Op::Abs => vec![Op::Neg],
        Op::Floor => vec![Op::Ceil],
        Op::Ceil => vec![Op::Floor],
        _ => vec![],
    };
    assert(r@ =~= repair_swaps(op));
    r
}

} // verus!
