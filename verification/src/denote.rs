//! What a node of an arena stands for: the expression tree rooted there,
//! shared operands written out in full. Two arenas whose nodes stand for
//! the same trees compute the same function, however they share.
use vstd::prelude::*;
use crate::sigma::{Op, op_arity};
use crate::term::{ConstLitV, Node, nodes_ok};

verus! {

/// A Σ expression tree.
pub enum Expr {
    Const(ConstLitV),
    /// a payload leaf (`Var`, `Acc`, `Elem`, `Len`) and its index
    Leaf(Op, u32),
    Node1(Op, Box<Expr>),
    Node2(Op, Box<Expr>, Box<Expr>),
    Node3(Op, Box<Expr>, Box<Expr>, Box<Expr>),
}

/// The tree node `id` of the arena stands for.
pub open spec fn denote(nodes: Seq<Node>, consts: Seq<ConstLitV>, id: int) -> Expr
    decreases id,
{
    if id < 0 || id >= nodes.len() {
        Expr::Leaf(Op::Const, 0)
    } else {
        let n = nodes[id];
        if op_arity(n.op) == 0 {
            if n.op == Op::Const {
                Expr::Const(consts[n.a as int])
            } else {
                Expr::Leaf(n.op, n.a)
            }
        } else if n.a >= id || (op_arity(n.op) >= 2 && n.b >= id) || (op_arity(n.op) >= 3
            && n.c >= id) {
            Expr::Leaf(Op::Const, 0)
        } else if op_arity(n.op) == 1 {
            Expr::Node1(n.op, Box::new(denote(nodes, consts, n.a as int)))
        } else if op_arity(n.op) == 2 {
            Expr::Node2(
                n.op,
                Box::new(denote(nodes, consts, n.a as int)),
                Box::new(denote(nodes, consts, n.b as int)),
            )
        } else {
            Expr::Node3(
                n.op,
                Box::new(denote(nodes, consts, n.a as int)),
                Box::new(denote(nodes, consts, n.b as int)),
                Box::new(denote(nodes, consts, n.c as int)),
            )
        }
    }
}

/// Appending to an arena (and to its constant table) leaves what the
/// existing nodes stand for unchanged.
pub proof fn lemma_denote_prefix(
    nodes: Seq<Node>,
    consts: Seq<ConstLitV>,
    nodes2: Seq<Node>,
    consts2: Seq<ConstLitV>,
    id: int,
)
    requires
        nodes_ok(nodes, consts.len()),
        nodes.len() <= nodes2.len(),
        nodes == nodes2.take(nodes.len() as int),
        consts.len() <= consts2.len(),
        consts == consts2.take(consts.len() as int),
        0 <= id < nodes.len(),
    ensures
        denote(nodes2, consts2, id) == denote(nodes, consts, id),
    decreases id,
{
    let n = nodes[id];
    assert(nodes2[id] == n);
    assert(crate::term::node_ok(nodes, consts.len(), id));
    if op_arity(n.op) == 0 {
        if n.op == Op::Const {
            assert(consts2[n.a as int] == consts[n.a as int]);
        }
    } else {
        lemma_denote_prefix(nodes, consts, nodes2, consts2, n.a as int);
        if op_arity(n.op) >= 2 {
            lemma_denote_prefix(nodes, consts, nodes2, consts2, n.b as int);
        }
        if op_arity(n.op) >= 3 {
            lemma_denote_prefix(nodes, consts, nodes2, consts2, n.c as int);
        }
    }
}

} // verus!
