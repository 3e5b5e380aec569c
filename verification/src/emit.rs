//! Back-emission: a term printed as Rust source.
//!
//! The printer preserves the exact op sequence:
//!   * every shared node (used twice or more) becomes a `let tN = …;` in
//!     arena order — the arena order is a valid schedule, so sharing costs
//!     nothing; nodes owned by a fold body stay inline in their loop
//!   * `select(c, a, b)` prints as `if a < b { … }` when `c` is an unshared
//!     comparison node, else as `if (c) != 0.0 { … }`
//!   * comparisons used as values print as `((a < b) as u8 as f64)`
//!   * arity ≤ 8 gives scalar parameters `v0..`; larger, one `v: &[f64; N]`
//!
//! How a constant prints is the caller's part: `lits[k]` is the Rust
//! literal for constant `k` (a round-trip decimal with an `_f64` suffix, or
//! `f64::from_bits(0x…)` for NaN payloads and infinities).
use vstd::prelude::*;
use crate::fmt::{decimal, decimal_exec};
use crate::harness::Certificate;
use crate::sigma::{Op, op_arity};
use crate::term::{binder_dep, binders_ok, clamp_usize, is_operand, node_ok, Node, Term};
use crate::text::{chars_of, join_with, put, put_join, put_lit, string_of};

verus! {

/// Parameters up to this arity are scalars; above it, one array.
pub const SCALAR_PARAM_MAX: usize = 8;

// ------------------------------------------------------------ sharing --

/// Node `i` is reachable from the root through operand edges.
pub open spec fn reachable(nodes: Seq<Node>, root: int, i: int) -> bool
    decreases root - i,
{
    if i == root {
        0 <= root < nodes.len()
    } else if i < 0 || i > root {
        false
    } else {
        exists|p: int| i < p <= root && #[trigger] is_operand(nodes, p, i) && reachable(nodes, root, p)
    }
}

/// How many of node `p`'s operand slots hold `i`.
pub open spec fn slots(nodes: Seq<Node>, p: int, i: int) -> nat {
    let n = nodes[p];
    (if op_arity(n.op) >= 1 && n.a == i { 1nat } else { 0nat }) + (if op_arity(n.op) >= 2 && n.b
        == i {
        1nat
    } else {
        0nat
    }) + (if op_arity(n.op) >= 3 && n.c == i {
        1nat
    } else {
        0nat
    })
}

/// Operand slots holding `i` among the reachable nodes `k..=root`.
pub open spec fn parent_uses(nodes: Seq<Node>, root: int, i: int, k: int) -> nat
    decreases root + 1 - k,
{
    if k > root {
        0
    } else {
        (if reachable(nodes, root, k) {
            slots(nodes, k, i)
        } else {
            0nat
        }) + parent_uses(nodes, root, i, k + 1)
    }
}

/// How often node `i` is used: once as the root, plus once per operand slot
/// of a reachable node that holds it.
pub open spec fn uses(nodes: Seq<Node>, root: int, i: int) -> nat {
    (if i == root {
        1nat
    } else {
        0nat
    }) + parent_uses(nodes, root, i, 0)
}

pub open spec fn leaf_op(op: Op) -> bool {
    op == Op::Const || op == Op::Var || op == Op::Acc || op == Op::Elem || op == Op::Len
}

/// Node `i` is printed once, as a `let`: reachable, used at least twice,
/// loop-invariant (no fold binder below it), not a leaf, not the root.
#[verifier::opaque]
pub open spec fn is_bound(t: Term, i: int) -> bool {
    &&& reachable(t.nodes@, t.root as int, i)
    &&& uses(t.nodes@, t.root as int, i) >= 2
    &&& !binder_dep(t.nodes@, i)
    &&& !leaf_op(t.nodes@[i].op)
    &&& i != t.root
}

/// `i` has an operand edge from a reachable node among `k..=root`.
pub open spec fn reached_from(nodes: Seq<Node>, root: int, i: int, k: int) -> bool {
    exists|p: int| k <= p <= root && #[trigger] is_operand(nodes, p, i) && reachable(nodes, root, p)
}

proof fn lemma_reached_step(nodes: Seq<Node>, root: int, i: int, p: int)
    ensures
        reached_from(nodes, root, i, p) == (reached_from(nodes, root, i, p + 1) || (p <= root
            && is_operand(nodes, p, i) && reachable(nodes, root, p))),
{
    if reached_from(nodes, root, i, p) {
        let q = choose|q: int|
            p <= q <= root && #[trigger] is_operand(nodes, q, i) && reachable(nodes, root, q);
        if q > p {
            assert(reached_from(nodes, root, i, p + 1));
        }
    }
    if reached_from(nodes, root, i, p + 1) {
        let q = choose|q: int|
            p + 1 <= q <= root && #[trigger] is_operand(nodes, q, i) && reachable(nodes, root, q);
        assert(reached_from(nodes, root, i, p));
    }
    if p <= root && is_operand(nodes, p, i) && reachable(nodes, root, p) {
        assert(reached_from(nodes, root, i, p));
    }
}

proof fn lemma_reachable_unfold(nodes: Seq<Node>, root: int, i: int)
    requires
        0 <= i < root,
    ensures
        reachable(nodes, root, i) == reached_from(nodes, root, i, i + 1),
{
}

/// Reachability and use counts, by one pass from the root down (operands
/// precede their users, so a node's users are all visited before it).
fn sharing(t: &Term) -> (r: (Vec<bool>, Vec<u64>))
    requires
        t.wf(),
    ensures
        r.0@.len() == t.nodes@.len(),
        r.1@.len() == t.nodes@.len(),
        forall|i: int|
            0 <= i < t.nodes@.len() ==> #[trigger] r.0@[i] == reachable(t.nodes@, t.root as int, i),
        forall|i: int|
            0 <= i < t.nodes@.len() ==> #[trigger] r.1@[i] == uses(t.nodes@, t.root as int, i),
{
    let n = t.nodes.len();
    let ghost nodes = t.nodes@;
    let root = t.root as usize;
    let ghost rt = root as int;
    let mut reach: Vec<bool> = Vec::new();
    let mut cnt: Vec<u64> = Vec::new();
    let mut i: usize = 0;
    while i < n
        invariant
            i <= n,
            n == nodes.len(),
            root < n,
            rt == root,
            reach@.len() == i,
            cnt@.len() == i,
            forall|j: int| 0 <= j < i ==> #[trigger] reach@[j] == (j == rt),
            forall|j: int| 0 <= j < i ==> #[trigger] cnt@[j] == if j == rt { 1u64 } else { 0u64 },
        decreases n - i,
    {
        reach.push(i == root);
        cnt.push(if i == root { 1 } else { 0 });
        i += 1;
    }
    let mut k: usize = root + 1;
    while k > 0
        invariant
            n == nodes.len(),
            nodes == t.nodes@,
            t.wf(),
            root < n,
            rt == root,
            k <= root + 1,
            reach@.len() == n,
            cnt@.len() == n,
            forall|j: int|
                k <= j < n ==> #[trigger] reach@[j] == reachable(nodes, rt, j),
            forall|j: int|
                0 <= j < k ==> #[trigger] reach@[j] == (j == rt || reached_from(nodes, rt, j, k as int)),
            forall|j: int|
                0 <= j < n ==> #[trigger] cnt@[j] == (if j == rt {
                    1nat
                } else {
                    0nat
                }) + parent_uses(nodes, rt, j, k as int),
            forall|j: int| 0 <= j < n ==> #[trigger] cnt@[j] <= 3 * (root + 1 - k) + 1,
        decreases k,
    {
        let p = k - 1;
        let nd = t.nodes[p];
        proof {
            assert(node_ok(nodes, t.consts@.len(), p as int));
            if p < root {
                lemma_reachable_unfold(nodes, rt, p as int);
            }
            assert(reach@[p as int] == reachable(nodes, rt, p as int));
        }
        let ghost r0 = reach@;
        let ghost c0 = cnt@;
        if reach[p] {
            let ar = nd.op.arity();
            if ar >= 1 {
                let c = nd.a as usize;
                reach.set(c, true);
                let v = cnt[c] + 1;
                cnt.set(c, v);
            }
            if ar >= 2 {
                let c = nd.b as usize;
                reach.set(c, true);
                let v = cnt[c] + 1;
                cnt.set(c, v);
            }
            if ar >= 3 {
                let c = nd.c as usize;
                reach.set(c, true);
                let v = cnt[c] + 1;
                cnt.set(c, v);
            }
        }
        proof {
            let live = reachable(nodes, rt, p as int);
            assert forall|j: int| 0 <= j < n implies #[trigger] cnt@[j] == c0[j] + (if live {
                slots(nodes, p as int, j)
            } else {
                0nat
            }) by {}
            assert forall|j: int| 0 <= j < n implies #[trigger] reach@[j] == (r0[j] || (live
                && is_operand(nodes, p as int, j))) by {}
            assert forall|j: int| 0 <= j < p implies #[trigger] reach@[j] == (j == rt || reached_from(
                nodes,
                rt,
                j,
                p as int,
            )) by {
                lemma_reached_step(nodes, rt, j, p as int);
            }
            assert forall|j: int| p <= j < n implies #[trigger] reach@[j] == reachable(nodes, rt, j) by {
                if j > p {
                    assert(!is_operand(nodes, p as int, j));
                }
            }
        }
        k -= 1;
    }
    (reach, cnt)
}

// ------------------------------------------------------------ printing --

pub open spec fn lits_view(lits: Seq<String>) -> Seq<Seq<char>> {
    lits.map_values(|s: String| s@)
}

pub open spec fn var_text(scalars: bool, i: u32) -> Seq<char> {
    if scalars {
        "v"@ + decimal(i as nat)
    } else {
        "v["@ + decimal(i as nat) + "]"@
    }
}

pub open spec fn is_infix(op: Op) -> bool {
    op == Op::Add || op == Op::Sub || op == Op::Mul || op == Op::Div
}

pub open spec fn infix_sym(op: Op) -> Seq<char> {
    if op == Op::Add {
        " + "@
    } else if op == Op::Sub {
        " - "@
    } else if op == Op::Mul {
        " * "@
    } else {
        " / "@
    }
}

pub open spec fn is_relation(op: Op) -> bool {
    op == Op::Lt || op == Op::Gt || op == Op::Le || op == Op::Ge || op == Op::Eq || op == Op::Ne
}

pub open spec fn rel_sym(op: Op) -> Seq<char> {
    if op == Op::Lt {
        " < "@
    } else if op == Op::Gt {
        " > "@
    } else if op == Op::Le {
        " <= "@
    } else if op == Op::Ge {
        " >= "@
    } else if op == Op::Eq {
        " == "@
    } else {
        " != "@
    }
}

/// Unary operators printed as a method call on the operand.
pub open spec fn is_method0(op: Op) -> bool {
    op == Op::Abs || op == Op::Sqrt || op == Op::Floor || op == Op::Ceil || op == Op::Sin || op
        == Op::Cos || op == Op::Tan || op == Op::Exp || op == Op::Exp2 || op == Op::Ln
}

pub open spec fn method0_sym(op: Op) -> Seq<char> {
    if op == Op::Abs {
        ".abs()"@
    } else if op == Op::Sqrt {
        ".sqrt()"@
    } else if op == Op::Floor {
        ".floor()"@
    } else if op == Op::Ceil {
        ".ceil()"@
    } else if op == Op::Sin {
        ".sin()"@
    } else if op == Op::Cos {
        ".cos()"@
    } else if op == Op::Tan {
        ".tan()"@
    } else if op == Op::Exp {
        ".exp()"@
    } else if op == Op::Exp2 {
        ".exp2()"@
    } else {
        ".ln()"@
    }
}

/// Binary operators printed as a method call with one argument.
pub open spec fn is_method1(op: Op) -> bool {
    op == Op::Pow || op == Op::Min || op == Op::Max
}

pub open spec fn method1_sym(op: Op) -> Seq<char> {
    if op == Op::Pow {
        ".powf("@
    } else if op == Op::Min {
        ".min("@
    } else {
        ".max("@
    }
}

/// The operand `k` of node `id` printed (operands precede their users).
pub open spec fn child(t: Term, lits: Seq<Seq<char>>, scalars: bool, k: int, id: int, top: bool) -> Seq<char>
    decreases id, 0int,
{
    if 0 <= k < id {
        expr_text(t, lits, scalars, k, top)
    } else {
        Seq::empty()
    }
}

/// The condition of a select at node `id` whose condition node is `a`.
pub open spec fn cond_text(t: Term, lits: Seq<Seq<char>>, scalars: bool, a: int, id: int) -> Seq<char>
    decreases id, 1int,
{
    let cn = t.nodes@[a];
    if 0 <= a < t.nodes@.len() && !is_bound(t, a) && is_relation(cn.op) {
        child(t, lits, scalars, cn.a as int, id, false) + rel_sym(cn.op) + child(
            t,
            lits,
            scalars,
            cn.b as int,
            id,
            false,
        )
    } else {
        "("@ + child(t, lits, scalars, a, id, false) + ") != 0.0"@
    }
}

pub open spec fn fold_loop_head() -> Seq<char> {
    ";                        for __i in 0..s0.len() { __acc = "@
}

/// Infix arithmetic, negation, and the binary32 round trip at node `id`.
pub open spec fn arith_text(t: Term, lits: Seq<Seq<char>>, scalars: bool, id: int) -> Seq<char>
    decreases id, 2int,
{
    let n = t.nodes@[id];
    if n.op == Op::Neg {
        "(-"@ + child(t, lits, scalars, n.a as int, id, false) + ")"@
    } else if n.op == Op::Rnd32 {
        "(("@ + child(t, lits, scalars, n.a as int, id, false) + " as f32) as f64)"@
    } else {
        "("@ + child(t, lits, scalars, n.a as int, id, false) + infix_sym(n.op) + child(
            t,
            lits,
            scalars,
            n.b as int,
            id,
            false,
        ) + ")"@
    }
}

/// Operators printed as method calls at node `id`.
pub open spec fn method_text(t: Term, lits: Seq<Seq<char>>, scalars: bool, id: int) -> Seq<char>
    decreases id, 2int,
{
    let n = t.nodes@[id];
    if is_method1(n.op) {
        child(t, lits, scalars, n.a as int, id, false) + method1_sym(n.op) + child(
            t,
            lits,
            scalars,
            n.b as int,
            id,
            false,
        ) + ")"@
    } else if n.op == Op::Fma {
        child(t, lits, scalars, n.a as int, id, false) + ".mul_add("@ + child(
            t,
            lits,
            scalars,
            n.b as int,
            id,
            false,
        ) + ", "@ + child(t, lits, scalars, n.c as int, id, false) + ")"@
    } else {
        child(t, lits, scalars, n.a as int, id, false) + method0_sym(n.op)
    }
}

/// A comparison used as a value at node `id`.
pub open spec fn relation_text(t: Term, lits: Seq<Seq<char>>, scalars: bool, id: int) -> Seq<char>
    decreases id, 2int,
{
    let n = t.nodes@[id];
    "(("@ + child(t, lits, scalars, n.a as int, id, false) + rel_sym(n.op) + child(
        t,
        lits,
        scalars,
        n.b as int,
        id,
        false,
    ) + ") as u8 as f64)"@
}

/// A fold at node `id`: with no sequences (length 0) it is its init.
pub open spec fn fold_text(t: Term, lits: Seq<Seq<char>>, scalars: bool, id: int) -> Seq<char>
    decreases id, 2int,
{
    let n = t.nodes@[id];
    if t.spec_seq_count() == 0 {
        "("@ + child(t, lits, scalars, n.a as int, id, false) + ")"@
    } else {
        "({ let mut __acc = "@ + child(t, lits, scalars, n.a as int, id, false) + fold_loop_head()
            + child(t, lits, scalars, n.b as int, id, true) + "; } __acc })"@
    }
}

/// A select at node `id`.
pub open spec fn select_text(t: Term, lits: Seq<Seq<char>>, scalars: bool, id: int) -> Seq<char>
    decreases id, 2int,
{
    let n = t.nodes@[id];
    "(if "@ + cond_text(t, lits, scalars, n.a as int, id) + " { "@ + child(
        t,
        lits,
        scalars,
        n.b as int,
        id,
        false,
    ) + " } else { "@ + child(t, lits, scalars, n.c as int, id, false) + " })"@
}

/// A leaf at node `id`.
pub open spec fn leaf_text(t: Term, lits: Seq<Seq<char>>, scalars: bool, id: int) -> Seq<char> {
    let n = t.nodes@[id];
    if n.op == Op::Const {
        lits[n.a as int]
    } else if n.op == Op::Var {
        var_text(scalars, n.a)
    } else if n.op == Op::Acc {
        "__acc"@
    } else if n.op == Op::Elem {
        "s"@ + decimal(n.a as nat) + "[__i]"@
    } else {
        "(s"@ + decimal(n.a as nat) + ".len() as f64)"@
    }
}

/// Node `id` printed as a Rust expression; `top` prints a bound node's own
/// definition rather than its name.
pub open spec fn expr_text(t: Term, lits: Seq<Seq<char>>, scalars: bool, id: int, top: bool) -> Seq<char>
    decreases id, 3int,
{
    if !(0 <= id < t.nodes@.len()) {
        Seq::empty()
    } else if !top && is_bound(t, id) {
        "t"@ + decimal(id as nat)
    } else {
        let op = t.nodes@[id].op;
        if leaf_op(op) {
            leaf_text(t, lits, scalars, id)
        } else if is_infix(op) || op == Op::Neg || op == Op::Rnd32 {
            arith_text(t, lits, scalars, id)
        } else if is_relation(op) {
            relation_text(t, lits, scalars, id)
        } else if op == Op::Fold {
            fold_text(t, lits, scalars, id)
        } else if op == Op::Select {
            select_text(t, lits, scalars, id)
        } else {
            method_text(t, lits, scalars, id)
        }
    }
}

fn infix_str(op: Op) -> (r: &'static str)
    requires
        is_infix(op),
    ensures
        r@ == infix_sym(op),
{
    match op {
        Op::Add => " + ",
        Op::Sub => " - ",
        Op::Mul => " * ",
        _ => " / ",
    }
}

fn rel_str(op: Op) -> (r: &'static str)
    requires
        is_relation(op),
    ensures
        r@ == rel_sym(op),
{
    match op {
        Op::Lt => " < ",
        Op::Gt => " > ",
        Op::Le => " <= ",
        Op::Ge => " >= ",
        Op::Eq => " == ",
        _ => " != ",
    }
}

fn method0_str(op: Op) -> (r: &'static str)
    requires
        is_method0(op),
    ensures
        r@ == method0_sym(op),
{
    match op {
        Op::Abs => ".abs()",
        Op::Sqrt => ".sqrt()",
        Op::Floor => ".floor()",
        Op::Ceil => ".ceil()",
        Op::Sin => ".sin()",
        Op::Cos => ".cos()",
        Op::Tan => ".tan()",
        Op::Exp => ".exp()",
        Op::Exp2 => ".exp2()",
        _ => ".ln()",
    }
}

fn method1_str(op: Op) -> (r: &'static str)
    requires
        is_method1(op),
    ensures
        r@ == method1_sym(op),
{
    match op {
        Op::Pow => ".powf(",
        Op::Min => ".min(",
        _ => ".max(",
    }
}

/// Everything the printer reads besides the node: the term, the constant
/// literals, which nodes are bound, and the parameter shape.
pub open spec fn printer_ok(t: Term, lits: Seq<String>, bound: Seq<bool>) -> bool {
    &&& t.wf()
    &&& lits.len() == t.consts@.len()
    &&& bound.len() == t.nodes@.len()
    &&& forall|i: int| 0 <= i < t.nodes@.len() ==> #[trigger] bound[i] == is_bound(t, i)
}

#[verifier::rlimit(60)]
fn put_expr(
    buf: &mut Vec<char>,
    t: &Term,
    lits: &[String],
    bound: &Vec<bool>,
    scalars: bool,
    seqs: usize,
    id: u32,
    top: bool,
)
    requires
        printer_ok(*t, lits@, bound@),
        seqs == clamp_usize(t.spec_seq_count()),
        id < t.nodes@.len(),
    ensures
        final(buf)@ == old(buf)@ + expr_text(*t, lits_view(lits@), scalars, id as int, top),
    decreases id, 3int,
{
    let ghost lv = lits_view(lits@);
    let ghost i = id as int;
    if !top && bound[id as usize] {
        put_lit(buf, "t");
        put(buf, &decimal_exec(id as usize));
        assert(buf@ =~= old(buf)@ + expr_text(*t, lv, scalars, i, top));
        return;
    }
    let n = t.nodes[id as usize];
    proof {
        assert(node_ok(t.nodes@, t.consts@.len(), i));
    }
    match n.op {
        Op::Const | Op::Var | Op::Acc | Op::Elem | Op::Len => {
            put_leaf(buf, t, lits, scalars, id);
        },
        Op::Fold => put_fold(buf, t, lits, bound, scalars, seqs, id),
        Op::Select => put_select(buf, t, lits, bound, scalars, seqs, id),
        Op::Add | Op::Sub | Op::Mul | Op::Div | Op::Neg | Op::Rnd32 => put_arith(
            buf,
            t,
            lits,
            bound,
            scalars,
            seqs,
            id,
        ),
        Op::Lt | Op::Gt | Op::Le | Op::Ge | Op::Eq | Op::Ne => put_relation(
            buf,
            t,
            lits,
            bound,
            scalars,
            seqs,
            id,
        ),
        _ => put_method(buf, t, lits, bound, scalars, seqs, id),
    }
}

fn put_leaf(buf: &mut Vec<char>, t: &Term, lits: &[String], scalars: bool, id: u32)
    requires
        t.wf(),
        lits@.len() == t.consts@.len(),
        id < t.nodes@.len(),
        leaf_op(t.nodes@[id as int].op),
    ensures
        final(buf)@ == old(buf)@ + leaf_text(*t, lits_view(lits@), scalars, id as int),
{
    let n = t.nodes[id as usize];
    proof {
        assert(node_ok(t.nodes@, t.consts@.len(), id as int));
    }
    match n.op {
        Op::Const => {
            put(buf, &chars_of(lits[n.a as usize].as_str()));
        },
        Op::Var => {
            if scalars {
                put_lit(buf, "v");
                put(buf, &decimal_exec(n.a as usize));
            } else {
                put_lit(buf, "v[");
                put(buf, &decimal_exec(n.a as usize));
                put_lit(buf, "]");
            }
        },
        Op::Acc => {
            put_lit(buf, "__acc");
        },
        Op::Elem => {
            put_lit(buf, "s");
            put(buf, &decimal_exec(n.a as usize));
            put_lit(buf, "[__i]");
        },
        _ => {
            put_lit(buf, "(s");
            put(buf, &decimal_exec(n.a as usize));
            put_lit(buf, ".len() as f64)");
        },
    }
    assert(buf@ =~= old(buf)@ + leaf_text(*t, lits_view(lits@), scalars, id as int));
}

/// Infix arithmetic, negation, and the binary32 round trip.
#[verifier::rlimit(60)]
fn put_arith(
    buf: &mut Vec<char>,
    t: &Term,
    lits: &[String],
    bound: &Vec<bool>,
    scalars: bool,
    seqs: usize,
    id: u32,
)
    requires
        printer_ok(*t, lits@, bound@),
        seqs == clamp_usize(t.spec_seq_count()),
        id < t.nodes@.len(),
        is_infix(t.nodes@[id as int].op) || t.nodes@[id as int].op == Op::Neg
            || t.nodes@[id as int].op == Op::Rnd32,
    ensures
        final(buf)@ == old(buf)@ + arith_text(*t, lits_view(lits@), scalars, id as int),
    decreases id, 2int,
{
    let ghost lv = lits_view(lits@);
    let ghost i = id as int;
    let n = t.nodes[id as usize];
    proof {
        assert(node_ok(t.nodes@, t.consts@.len(), i));
    }
    if n.op == Op::Neg {
        put_lit(buf, "(-");
        put_sub(buf, t, lits, bound, scalars, seqs, n.a, id, false);
        put_lit(buf, ")");
    } else if n.op == Op::Rnd32 {
        put_lit(buf, "((");
        put_sub(buf, t, lits, bound, scalars, seqs, n.a, id, false);
        put_lit(buf, " as f32) as f64)");
    } else {
        put_lit(buf, "(");
        put_sub(buf, t, lits, bound, scalars, seqs, n.a, id, false);
        put_lit(buf, infix_str(n.op));
        put_sub(buf, t, lits, bound, scalars, seqs, n.b, id, false);
        put_lit(buf, ")");
    }
    assert(buf@ =~= old(buf)@ + arith_text(*t, lv, scalars, i));
}

/// Operators printed as method calls (libm functions, min/max, fma).
#[verifier::rlimit(60)]
fn put_method(
    buf: &mut Vec<char>,
    t: &Term,
    lits: &[String],
    bound: &Vec<bool>,
    scalars: bool,
    seqs: usize,
    id: u32,
)
    requires
        printer_ok(*t, lits@, bound@),
        seqs == clamp_usize(t.spec_seq_count()),
        id < t.nodes@.len(),
        is_method0(t.nodes@[id as int].op) || is_method1(t.nodes@[id as int].op) || t.nodes@[id as int].op == Op::Fma,
    ensures
        final(buf)@ == old(buf)@ + method_text(*t, lits_view(lits@), scalars, id as int),
    decreases id, 2int,
{
    let ghost lv = lits_view(lits@);
    let ghost i = id as int;
    let n = t.nodes[id as usize];
    proof {
        assert(node_ok(t.nodes@, t.consts@.len(), i));
    }
    match n.op {
        Op::Pow | Op::Min | Op::Max => {
            put_sub(buf, t, lits, bound, scalars, seqs, n.a, id, false);
            put_lit(buf, method1_str(n.op));
            put_sub(buf, t, lits, bound, scalars, seqs, n.b, id, false);
            put_lit(buf, ")");
        },
        Op::Fma => {
            put_sub(buf, t, lits, bound, scalars, seqs, n.a, id, false);
            put_lit(buf, ".mul_add(");
            put_sub(buf, t, lits, bound, scalars, seqs, n.b, id, false);
            put_lit(buf, ", ");
            put_sub(buf, t, lits, bound, scalars, seqs, n.c, id, false);
            put_lit(buf, ")");
        },
        _ => {
            put_sub(buf, t, lits, bound, scalars, seqs, n.a, id, false);
            put_lit(buf, method0_str(n.op));
        },
    }
    assert(buf@ =~= old(buf)@ + method_text(*t, lv, scalars, i));
}

/// A comparison used as a value.
#[verifier::rlimit(60)]
fn put_relation(
    buf: &mut Vec<char>,
    t: &Term,
    lits: &[String],
    bound: &Vec<bool>,
    scalars: bool,
    seqs: usize,
    id: u32,
)
    requires
        printer_ok(*t, lits@, bound@),
        seqs == clamp_usize(t.spec_seq_count()),
        id < t.nodes@.len(),
        is_relation(t.nodes@[id as int].op),
    ensures
        final(buf)@ == old(buf)@ + relation_text(*t, lits_view(lits@), scalars, id as int),
    decreases id, 2int,
{
    let ghost lv = lits_view(lits@);
    let ghost i = id as int;
    let n = t.nodes[id as usize];
    proof {
        assert(node_ok(t.nodes@, t.consts@.len(), i));
    }
    put_lit(buf, "((");
    put_sub(buf, t, lits, bound, scalars, seqs, n.a, id, false);
    put_lit(buf, rel_str(n.op));
    put_sub(buf, t, lits, bound, scalars, seqs, n.b, id, false);
    put_lit(buf, ") as u8 as f64)");
    assert(buf@ =~= old(buf)@ + relation_text(*t, lv, scalars, i));
}

#[verifier::rlimit(60)]
fn put_fold(
    buf: &mut Vec<char>,
    t: &Term,
    lits: &[String],
    bound: &Vec<bool>,
    scalars: bool,
    seqs: usize,
    id: u32,
)
    requires
        printer_ok(*t, lits@, bound@),
        seqs == clamp_usize(t.spec_seq_count()),
        id < t.nodes@.len(),
        t.nodes@[id as int].op == Op::Fold,
    ensures
        final(buf)@ == old(buf)@ + fold_text(*t, lits_view(lits@), scalars, id as int),
    decreases id, 2int,
{
    let ghost lv = lits_view(lits@);
    let ghost i = id as int;
    let n = t.nodes[id as usize];
    proof {
        assert(node_ok(t.nodes@, t.consts@.len(), i));
    }
    if seqs == 0 {
        put_lit(buf, "(");
        put_sub(buf, t, lits, bound, scalars, seqs, n.a, id, false);
        put_lit(buf, ")");
    } else {
        put_lit(buf, "({ let mut __acc = ");
        put_sub(buf, t, lits, bound, scalars, seqs, n.a, id, false);
        put_lit(buf, ";                        for __i in 0..s0.len() { __acc = ");
        put_sub(buf, t, lits, bound, scalars, seqs, n.b, id, true);
        put_lit(buf, "; } __acc })");
    }
    assert(buf@ =~= old(buf)@ + fold_text(*t, lv, scalars, i));
}

#[verifier::rlimit(60)]
fn put_select(
    buf: &mut Vec<char>,
    t: &Term,
    lits: &[String],
    bound: &Vec<bool>,
    scalars: bool,
    seqs: usize,
    id: u32,
)
    requires
        printer_ok(*t, lits@, bound@),
        seqs == clamp_usize(t.spec_seq_count()),
        id < t.nodes@.len(),
        t.nodes@[id as int].op == Op::Select,
    ensures
        final(buf)@ == old(buf)@ + select_text(*t, lits_view(lits@), scalars, id as int),
    decreases id, 2int,
{
    let ghost lv = lits_view(lits@);
    let ghost i = id as int;
    let n = t.nodes[id as usize];
    proof {
        assert(node_ok(t.nodes@, t.consts@.len(), i));
    }
    put_lit(buf, "(if ");
    put_cond(buf, t, lits, bound, scalars, seqs, n.a, id);
    put_lit(buf, " { ");
    put_sub(buf, t, lits, bound, scalars, seqs, n.b, id, false);
    put_lit(buf, " } else { ");
    put_sub(buf, t, lits, bound, scalars, seqs, n.c, id, false);
    put_lit(buf, " })");
    assert(buf@ =~= old(buf)@ + select_text(*t, lv, scalars, i));
}

fn put_sub(
    buf: &mut Vec<char>,
    t: &Term,
    lits: &[String],
    bound: &Vec<bool>,
    scalars: bool,
    seqs: usize,
    k: u32,
    id: u32,
    top: bool,
)
    requires
        printer_ok(*t, lits@, bound@),
        seqs == clamp_usize(t.spec_seq_count()),
        k < id,
        id < t.nodes@.len(),
    ensures
        final(buf)@ == old(buf)@ + child(*t, lits_view(lits@), scalars, k as int, id as int, top),
    decreases id, 0int,
{
    put_expr(buf, t, lits, bound, scalars, seqs, k, top);
}

#[verifier::rlimit(60)]
fn put_cond(
    buf: &mut Vec<char>,
    t: &Term,
    lits: &[String],
    bound: &Vec<bool>,
    scalars: bool,
    seqs: usize,
    a: u32,
    id: u32,
)
    requires
        printer_ok(*t, lits@, bound@),
        seqs == clamp_usize(t.spec_seq_count()),
        a < id,
        id < t.nodes@.len(),
    ensures
        final(buf)@ == old(buf)@ + cond_text(*t, lits_view(lits@), scalars, a as int, id as int),
    decreases id, 1int,
{
    let cn = t.nodes[a as usize];
    proof {
        assert(node_ok(t.nodes@, t.consts@.len(), a as int));
    }
    let rel = match cn.op {
        Op::Lt | Op::Gt | Op::Le | Op::Ge | Op::Eq | Op::Ne => true,
        _ => false,
    };
    if !bound[a as usize] && rel {
        put_sub(buf, t, lits, bound, scalars, seqs, cn.a, id, false);
        put_lit(buf, rel_str(cn.op));
        put_sub(buf, t, lits, bound, scalars, seqs, cn.b, id, false);
    } else {
        put_lit(buf, "(");
        put_sub(buf, t, lits, bound, scalars, seqs, a, id, false);
        put_lit(buf, ") != 0.0");
    }
    assert(buf@ =~= old(buf)@ + cond_text(*t, lits_view(lits@), scalars, a as int, id as int));
}

// ---------------------------------------------------------- the file --

pub open spec fn bool_text(b: bool) -> Seq<char> {
    if b {
        "true"@
    } else {
        "false"@
    }
}

/// The doc comment carrying the certificate (or saying there is none).
pub open spec fn cert_text(cert: Option<&Certificate>) -> Seq<char> {
    match cert {
        Some(c) => "/// CERTIFIED: "@ + c.claim_text@ + "\n"@ + rules_line(c) + env_line(c),
        None => "/// UNCERTIFIED emission \u{2014} gate before use.\n"@,
    }
}

/// The applied rules, if any.
pub open spec fn rules_line(c: &Certificate) -> Seq<char> {
    if c.rule_trace@.len() > 0 {
        "/// rules applied: "@ + join_with(lits_view(c.rule_trace@), ", "@) + "\n"@
    } else {
        Seq::empty()
    }
}

/// Where the certificate was issued.
pub open spec fn env_line(c: &Certificate) -> Seq<char> {
    "/// env: "@ + c.env.target_triple@ + " fma="@ + bool_text(c.env.fma) + " avx="@ + bool_text(
        c.env.avx,
    ) + " libm="@ + c.env.libm@ + "\n"@
}

pub open spec fn scalar_params(k: nat) -> Seq<Seq<char>> {
    Seq::new(k, |i: int| "v"@ + decimal(i as nat) + ": f64"@)
}

pub open spec fn seq_params(k: nat) -> Seq<Seq<char>> {
    Seq::new(k, |i: int| "s"@ + decimal(i as nat) + ": &[f64]"@)
}

/// The function header line.
pub open spec fn signature(name: Seq<char>, arity: nat, seqs: nat) -> Seq<char> {
    if arity <= SCALAR_PARAM_MAX {
        "pub fn "@ + name + "("@ + join_with(scalar_params(arity) + seq_params(seqs), ", "@)
            + ") -> f64 {\n"@
    } else {
        "pub fn "@ + name + "(v: &[f64; "@ + decimal(arity) + "]"@ + (if seqs == 0 {
            Seq::empty()
        } else {
            ", "@ + join_with(seq_params(seqs), ", "@)
        }) + ") -> f64 {\n"@
    }
}

/// The `let` lines of the bound nodes among `0..k`, in arena order.
pub open spec fn lets_text(t: Term, lits: Seq<Seq<char>>, scalars: bool, k: int) -> Seq<char>
    decreases k,
{
    if k <= 0 {
        Seq::empty()
    } else {
        lets_text(t, lits, scalars, k - 1) + let_line(t, lits, scalars, k - 1)
    }
}

/// The `let` line of node `i`, if it is bound.
pub open spec fn let_line(t: Term, lits: Seq<Seq<char>>, scalars: bool, i: int) -> Seq<char> {
    if is_bound(t, i) {
        "    let t"@ + decimal(i as nat) + " = "@ + expr_text(t, lits, scalars, i, true) + ";\n"@
    } else {
        Seq::empty()
    }
}

/// The whole emitted source file.
pub open spec fn emit_text(t: Term, name: Seq<char>, cert: Option<&Certificate>, lits: Seq<Seq<char>>) -> Seq<char> {
    let arity = clamp_usize(t.spec_arity());
    let scalars = arity <= SCALAR_PARAM_MAX;
    "// AUTO-GENERATED by dge emit \u{2014} do not hand-edit.\n"@
        + "// Re-run the pipeline instead; hand edits VOID the certificate.\n"@ + cert_text(cert)
        + "#[allow(unused_parens, clippy::all)]\n"@ + signature(
        name,
        arity,
        clamp_usize(t.spec_seq_count()),
    ) + lets_text(t, lits, scalars, t.nodes@.len() as int) + "    "@ + expr_text(
        t,
        lits,
        scalars,
        t.root as int,
        true,
    ) + "\n"@ + "}\n"@
}

/// The rule names of a certificate, as characters.
fn names_of(v: &Vec<String>) -> (r: Vec<Vec<char>>)
    ensures
        r@.map_values(|x: Vec<char>| x@) == lits_view(v@),
{
    let mut names: Vec<Vec<char>> = Vec::new();
    let mut i: usize = 0;
    while i < v.len()
        invariant
            i <= v@.len(),
            names@.len() == i,
            forall|j: int| 0 <= j < i ==> #[trigger] names@[j]@ == v@[j]@,
        decreases v@.len() - i,
    {
        names.push(chars_of(v[i].as_str()));
        i += 1;
    }
    assert(names@.map_values(|x: Vec<char>| x@) =~= lits_view(v@));
    names
}

fn put_cert(buf: &mut Vec<char>, cert: Option<&Certificate>)
    ensures
        final(buf)@ == old(buf)@ + cert_text(cert),
{
    match cert {
        Some(c) => {
            let ghost b0 = buf@;
            put_lit(buf, "/// CERTIFIED: ");
            put(buf, &chars_of(c.claim().as_str()));
            put_lit(buf, "\n");
            put_rules(buf, c);
            put_env(buf, c);
            assert(buf@ =~= b0 + cert_text(cert));
        },
        None => {
            put_lit(buf, "/// UNCERTIFIED emission \u{2014} gate before use.\n");
            assert(buf@ =~= old(buf)@ + cert_text(cert));
        },
    }
}

fn put_rules(buf: &mut Vec<char>, c: &Certificate)
    ensures
        final(buf)@ == old(buf)@ + rules_line(c),
{
    if c.rule_trace.len() > 0 {
        let names = names_of(&c.rule_trace);
        put_lit(buf, "/// rules applied: ");
        put_join(buf, &names, ", ");
        put_lit(buf, "\n");
    }
    assert(buf@ =~= old(buf)@ + rules_line(c));
}

fn put_env(buf: &mut Vec<char>, c: &Certificate)
    ensures
        final(buf)@ == old(buf)@ + env_line(c),
{
    put_lit(buf, "/// env: ");
    put(buf, &chars_of(c.env.target_triple.as_str()));
    put_lit(buf, " fma=");
    put_lit(buf, if c.env.fma { "true" } else { "false" });
    put_lit(buf, " avx=");
    put_lit(buf, if c.env.avx { "true" } else { "false" });
    put_lit(buf, " libm=");
    put(buf, &chars_of(c.env.libm.as_str()));
    put_lit(buf, "\n");
    assert(buf@ =~= old(buf)@ + env_line(c));
}

fn param_list(prefix: &str, k: usize, suffix: &str) -> (r: Vec<Vec<char>>)
    ensures
        r@.map_values(|v: Vec<char>| v@) == Seq::new(
            k as nat,
            |i: int| prefix@ + decimal(i as nat) + suffix@,
        ),
{
    let mut r: Vec<Vec<char>> = Vec::new();
    let mut i: usize = 0;
    while i < k
        invariant
            i <= k,
            r@.len() == i,
            forall|j: int| 0 <= j < i ==> #[trigger] r@[j]@ == prefix@ + decimal(j as nat) + suffix@,
        decreases k - i,
    {
        let mut p: Vec<char> = Vec::new();
        put_lit(&mut p, prefix);
        put(&mut p, &decimal_exec(i));
        put_lit(&mut p, suffix);
        r.push(p);
        i += 1;
    }
    assert(r@.map_values(|v: Vec<char>| v@) =~= Seq::new(
        k as nat,
        |i: int| prefix@ + decimal(i as nat) + suffix@,
    ));
    r
}

fn put_signature(buf: &mut Vec<char>, name: &str, arity: usize, seqs: usize)
    ensures
        final(buf)@ == old(buf)@ + signature(name@, arity as nat, seqs as nat),
{
    let sp = param_list("s", seqs, ": &[f64]");
    assert(sp@.map_values(|v: Vec<char>| v@) =~= seq_params(seqs as nat));
    put_lit(buf, "pub fn ");
    put(buf, &chars_of(name));
    if arity <= SCALAR_PARAM_MAX {
        let mut ps = param_list("v", arity, ": f64");
        let ghost a = ps@.map_values(|v: Vec<char>| v@);
        let mut sp2 = param_list("s", seqs, ": &[f64]");
        ps.append(&mut sp2);
        assert(a =~= scalar_params(arity as nat));
        assert(ps@.map_values(|v: Vec<char>| v@) =~= scalar_params(arity as nat) + seq_params(
            seqs as nat,
        ));
        put_lit(buf, "(");
        put_join(buf, &ps, ", ");
        put_lit(buf, ") -> f64 {\n");
    } else {
        put_lit(buf, "(v: &[f64; ");
        put(buf, &decimal_exec(arity));
        put_lit(buf, "]");
        if seqs > 0 {
            put_lit(buf, ", ");
            put_join(buf, &sp, ", ");
        }
        put_lit(buf, ") -> f64 {\n");
    }
    assert(buf@ =~= old(buf)@ + signature(name@, arity as nat, seqs as nat));
}

fn put_let(
    buf: &mut Vec<char>,
    t: &Term,
    lits: &[String],
    bound: &Vec<bool>,
    scalars: bool,
    seqs: usize,
    k: usize,
)
    requires
        printer_ok(*t, lits@, bound@),
        seqs == clamp_usize(t.spec_seq_count()),
        k < t.nodes@.len(),
    ensures
        final(buf)@ == old(buf)@ + let_line(*t, lits_view(lits@), scalars, k as int),
{
    if bound[k] {
        put_lit(buf, "    let t");
        put(buf, &decimal_exec(k));
        put_lit(buf, " = ");
        put_expr(buf, t, lits, bound, scalars, seqs, k as u32, true);
        put_lit(buf, ";\n");
    }
    assert(buf@ =~= old(buf)@ + let_line(*t, lits_view(lits@), scalars, k as int));
}

/// Emit `t` as a Rust function named `fn_name`, with the certificate (if
/// any) attached as a doc comment; `lits[k]` is the literal of constant `k`.
pub fn emit_rust(t: &Term, fn_name: &str, cert: Option<&Certificate>, lits: &[String]) -> (r: String)
    requires
        t.wf(),
        binders_ok(t.nodes@),
        lits@.len() == t.consts@.len(),
    ensures
        r@ == emit_text(*t, fn_name@, cert, lits_view(lits@)),
{
    let arity = t.arity();
    let scalars = arity <= SCALAR_PARAM_MAX;
    let seqs = t.seq_count();
    let n = t.len();
    let (reach, cnt) = sharing(t);
    let owners = match t.fold_owners() {
        Ok(o) => o,
        Err(_) => {
            proof {
                assert(false);
            }
            return String::new();
        },
    };
    let mut bound: Vec<bool> = Vec::new();
    let mut i: usize = 0;
    while i < n
        invariant
            n == t.nodes@.len(),
            t.wf(),
            i <= n,
            reach@.len() == n,
            cnt@.len() == n,
            owners@.len() == n,
            crate::term::owners_exact(t.nodes@, owners@),
            forall|j: int| 0 <= j < n ==> #[trigger] reach@[j] == reachable(t.nodes@, t.root as int, j),
            forall|j: int| 0 <= j < n ==> #[trigger] cnt@[j] == uses(t.nodes@, t.root as int, j),
            bound@.len() == i,
            forall|j: int| 0 <= j < i ==> #[trigger] bound@[j] == is_bound(*t, j),
        decreases n - i,
    {
        let op = t.nodes[i].op;
        let leaf = match op {
            Op::Const | Op::Var | Op::Acc | Op::Elem | Op::Len => true,
            _ => false,
        };
        let b = reach[i] && cnt[i] >= 2 && owners[i].is_none() && !leaf && i != t.root as usize;
        proof {
            reveal(is_bound);
            assert(owners@[i as int] is Some <==> binder_dep(t.nodes@, i as int));
        }
        bound.push(b);
        i += 1;
    }
    let ghost lv = lits_view(lits@);
    let mut buf: Vec<char> = Vec::new();
    put_lit(&mut buf, "// AUTO-GENERATED by dge emit \u{2014} do not hand-edit.\n");
    put_lit(&mut buf, "// Re-run the pipeline instead; hand edits VOID the certificate.\n");
    put_cert(&mut buf, cert);
    put_lit(&mut buf, "#[allow(unused_parens, clippy::all)]\n");
    put_signature(&mut buf, fn_name, arity, seqs);
    let ghost head = buf@;
    let mut k: usize = 0;
    while k < n
        invariant
            n == t.nodes@.len(),
            k <= n,
            printer_ok(*t, lits@, bound@),
            seqs == clamp_usize(t.spec_seq_count()),
            scalars == (arity <= SCALAR_PARAM_MAX),
            lv == lits_view(lits@),
            buf@ == head + lets_text(*t, lv, scalars, k as int),
        decreases n - k,
    {
        put_let(&mut buf, t, lits, &bound, scalars, seqs, k);
        k += 1;
        assert(buf@ =~= head + lets_text(*t, lv, scalars, k as int));
    }
    put_lit(&mut buf, "    ");
    put_expr(&mut buf, t, lits, &bound, scalars, seqs, t.root, true);
    put_lit(&mut buf, "\n");
    put_lit(&mut buf, "}\n");
    assert(buf@ =~= emit_text(*t, fn_name@, cert, lv));
    string_of(&buf)
}


/// The methods the printer writes read back as the nodes they were printed
/// from: `.powf(`, `.min(`, `.max(` name a two-operand method that the
/// extractor admits and reads as the same Σ operator.
pub proof fn law_binary_methods_read_back(op: Op)
    requires
        is_method1(op),
    ensures
        method1_sym(op).len() >= 3,
        method1_sym(op)[0] == '.',
        method1_sym(op).last() == '(',
        ({
            let name = method1_sym(op).subrange(1, method1_sym(op).len() - 1);
            &&& (name == "powf"@ || name == "min"@ || name == "max"@)
            &&& crate::extract::reading::method2_op(name) == op
        }),
{
    reveal_strlit(".powf(");
    reveal_strlit(".min(");
    reveal_strlit(".max(");
    reveal_strlit("powf");
    reveal_strlit("min");
    reveal_strlit("max");
    let s = method1_sym(op);
    let name = s.subrange(1, s.len() - 1);
    if op == Op::Pow {
        assert(name =~= "powf"@);
        assert(name != "min"@ && name != "max"@) by {
            assert(name.len() != 3);
        }
    } else if op == Op::Min {
        assert(name =~= "min"@);
    } else {
        assert(name =~= "max"@);
        assert(name != "min"@) by {
            assert(name[1] != "min"@[1]);
        }
    }
}


/// The one-operand methods the printer writes read back as the nodes they
/// were printed from: `.name()` with a name the extractor reads as the same
/// Σ operator.
pub proof fn law_unary_methods_read_back(op: Op)
    requires
        is_method0(op),
    ensures
        method0_sym(op).len() >= 4,
        method0_sym(op)[0] == '.',
        method0_sym(op).subrange(method0_sym(op).len() - 2, method0_sym(op).len() as int) == seq!['(', ')'],
        crate::extract::reading::method1(method0_sym(op).subrange(1, method0_sym(op).len() - 2))
            == Some(op),
{
    reveal_strlit("abs");
    reveal_strlit("sqrt");
    reveal_strlit("floor");
    reveal_strlit("ceil");
    reveal_strlit("sin");
    reveal_strlit("cos");
    reveal_strlit("tan");
    reveal_strlit("exp");
    reveal_strlit("exp2");
    reveal_strlit("ln");
    if op == Op::Abs {
        reveal_strlit(".abs()");
        reveal_strlit("abs");
        assert(method0_sym(op).subrange(1, method0_sym(op).len() - 2) =~= "abs"@);
        assert("abs"@[0] != "sin"@[0]);
        assert("abs"@[0] != "cos"@[0]);
        assert("abs"@[0] != "tan"@[0]);
        assert("abs"@[0] != "exp"@[0]);
        assert("abs"@.len() != "exp2"@.len());
        assert("abs"@.len() != "ln"@.len());
        assert("abs"@.len() != "sqrt"@.len());
    }
    if op == Op::Sqrt {
        reveal_strlit(".sqrt()");
        reveal_strlit("sqrt");
        assert(method0_sym(op).subrange(1, method0_sym(op).len() - 2) =~= "sqrt"@);
        assert("sqrt"@.len() != "sin"@.len());
        assert("sqrt"@.len() != "cos"@.len());
        assert("sqrt"@.len() != "tan"@.len());
        assert("sqrt"@.len() != "exp"@.len());
        assert("sqrt"@[0] != "exp2"@[0]);
        assert("sqrt"@.len() != "ln"@.len());
    }
    if op == Op::Floor {
        reveal_strlit(".floor()");
        reveal_strlit("floor");
        assert(method0_sym(op).subrange(1, method0_sym(op).len() - 2) =~= "floor"@);
        assert("floor"@.len() != "sin"@.len());
        assert("floor"@.len() != "cos"@.len());
        assert("floor"@.len() != "tan"@.len());
        assert("floor"@.len() != "exp"@.len());
        assert("floor"@.len() != "exp2"@.len());
        assert("floor"@.len() != "ln"@.len());
        assert("floor"@.len() != "sqrt"@.len());
        assert("floor"@.len() != "abs"@.len());
    }
    if op == Op::Ceil {
        reveal_strlit(".ceil()");
        reveal_strlit("ceil");
        assert(method0_sym(op).subrange(1, method0_sym(op).len() - 2) =~= "ceil"@);
        assert("ceil"@.len() != "sin"@.len());
        assert("ceil"@.len() != "cos"@.len());
        assert("ceil"@.len() != "tan"@.len());
        assert("ceil"@.len() != "exp"@.len());
        assert("ceil"@[0] != "exp2"@[0]);
        assert("ceil"@.len() != "ln"@.len());
        assert("ceil"@[0] != "sqrt"@[0]);
        assert("ceil"@.len() != "abs"@.len());
        assert("ceil"@.len() != "floor"@.len());
    }
    if op == Op::Sin {
        reveal_strlit(".sin()");
        reveal_strlit("sin");
        assert(method0_sym(op).subrange(1, method0_sym(op).len() - 2) =~= "sin"@);
    }
    if op == Op::Cos {
        reveal_strlit(".cos()");
        reveal_strlit("cos");
        assert(method0_sym(op).subrange(1, method0_sym(op).len() - 2) =~= "cos"@);
        assert("cos"@[0] != "sin"@[0]);
    }
    if op == Op::Tan {
        reveal_strlit(".tan()");
        reveal_strlit("tan");
        assert(method0_sym(op).subrange(1, method0_sym(op).len() - 2) =~= "tan"@);
        assert("tan"@[0] != "sin"@[0]);
        assert("tan"@[0] != "cos"@[0]);
    }
    if op == Op::Exp {
        reveal_strlit(".exp()");
        reveal_strlit("exp");
        assert(method0_sym(op).subrange(1, method0_sym(op).len() - 2) =~= "exp"@);
        assert("exp"@[0] != "sin"@[0]);
        assert("exp"@[0] != "cos"@[0]);
        assert("exp"@[0] != "tan"@[0]);
    }
    if op == Op::Exp2 {
        reveal_strlit(".exp2()");
        reveal_strlit("exp2");
        assert(method0_sym(op).subrange(1, method0_sym(op).len() - 2) =~= "exp2"@);
        assert("exp2"@.len() != "sin"@.len());
        assert("exp2"@.len() != "cos"@.len());
        assert("exp2"@.len() != "tan"@.len());
        assert("exp2"@.len() != "exp"@.len());
    }
    if op == Op::Ln {
        reveal_strlit(".ln()");
        reveal_strlit("ln");
        assert(method0_sym(op).subrange(1, method0_sym(op).len() - 2) =~= "ln"@);
        assert("ln"@.len() != "sin"@.len());
        assert("ln"@.len() != "cos"@.len());
        assert("ln"@.len() != "tan"@.len());
        assert("ln"@.len() != "exp"@.len());
        assert("ln"@.len() != "exp2"@.len());
    }
}

/// The comparison the printer writes reads back as the node it was printed
/// from: ` tok ` with a Rust comparison token that the extractor reads as
/// the same Σ comparison.
pub proof fn law_relations_read_back(op: Op)
    requires
        is_relation(op),
    ensures
        rel_sym(op).len() >= 3,
        rel_sym(op)[0] == ' ',
        rel_sym(op).last() == ' ',
        crate::syntax::comparison_token(rel_sym(op).subrange(1, rel_sym(op).len() - 1)) matches Some(
            b,
        ) && crate::extract::reading::cmp_op(b) == op,
{
    if op == Op::Lt {
        reveal_strlit(" < ");
        assert(rel_sym(op).subrange(1, rel_sym(op).len() - 1) =~= seq!['<']);
    }
    if op == Op::Gt {
        reveal_strlit(" > ");
        assert(rel_sym(op).subrange(1, rel_sym(op).len() - 1) =~= seq!['>']);
        assert(seq!['>'][0] != seq!['<'][0]);
    }
    if op == Op::Le {
        reveal_strlit(" <= ");
        assert(rel_sym(op).subrange(1, rel_sym(op).len() - 1) =~= seq!['<', '=']);
        assert(seq!['<', '='].len() != seq!['<'].len());
        assert(seq!['<', '='].len() != seq!['>'].len());
    }
    if op == Op::Ge {
        reveal_strlit(" >= ");
        assert(rel_sym(op).subrange(1, rel_sym(op).len() - 1) =~= seq!['>', '=']);
        assert(seq!['>', '='].len() != seq!['<'].len());
        assert(seq!['>', '='].len() != seq!['>'].len());
        assert(seq!['>', '='][0] != seq!['<', '='][0]);
    }
    if op == Op::Eq {
        reveal_strlit(" == ");
        assert(rel_sym(op).subrange(1, rel_sym(op).len() - 1) =~= seq!['=', '=']);
        assert(seq!['=', '='].len() != seq!['<'].len());
        assert(seq!['=', '='].len() != seq!['>'].len());
        assert(seq!['=', '='][0] != seq!['<', '='][0]);
        assert(seq!['=', '='][0] != seq!['>', '='][0]);
    }
    if op == Op::Ne {
        reveal_strlit(" != ");
        assert(rel_sym(op).subrange(1, rel_sym(op).len() - 1) =~= seq!['!', '=']);
        assert(seq!['!', '='].len() != seq!['<'].len());
        assert(seq!['!', '='].len() != seq!['>'].len());
        assert(seq!['!', '='][0] != seq!['<', '='][0]);
        assert(seq!['!', '='][0] != seq!['>', '='][0]);
        assert(seq!['!', '='][0] != seq!['=', '='][0]);
    }
}


/// The arithmetic the printer writes reads back as the node it was printed
/// from: ` tok ` with a Rust operator token that the extractor reads as the
/// same Σ operator.
pub proof fn law_arithmetic_reads_back(op: Op)
    requires
        is_infix(op),
    ensures
        infix_sym(op).len() == 3,
        infix_sym(op)[0] == ' ',
        infix_sym(op)[2] == ' ',
        crate::syntax::arithmetic_token(infix_sym(op).subrange(1, 2)) matches Some(b)
            && crate::extract::reading::arith_op(b) == op,
{
    if op == Op::Add {
        reveal_strlit(" + ");
        assert(infix_sym(op).subrange(1, 2) =~= seq!['+']);
    }
    if op == Op::Sub {
        reveal_strlit(" - ");
        assert(infix_sym(op).subrange(1, 2) =~= seq!['-']);
        assert(seq!['-'][0] != seq!['+'][0]);
    }
    if op == Op::Mul {
        reveal_strlit(" * ");
        assert(infix_sym(op).subrange(1, 2) =~= seq!['*']);
        assert(seq!['*'][0] != seq!['+'][0]);
        assert(seq!['*'][0] != seq!['-'][0]);
    }
    if op == Op::Div {
        reveal_strlit(" / ");
        assert(infix_sym(op).subrange(1, 2) =~= seq!['/']);
        assert(seq!['/'][0] != seq!['+'][0]);
        assert(seq!['/'][0] != seq!['-'][0]);
        assert(seq!['/'][0] != seq!['*'][0]);
    }
}

} // verus!
