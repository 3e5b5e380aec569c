//! Term_p: an arena of Σ nodes in children-first order.
//!
//! A node refers to its operands by arena index, and every operand index is
//! smaller than the index of the node that uses it, so the arena order is a
//! valid evaluation schedule. Constants live in a side table; a constant is
//! either the exact IEEE-754 binary64 bit pattern or, where the source wrote
//! it in decimal, the decimal literal text (whose binary64 value is the
//! round-to-nearest reading of that text).
use vstd::prelude::*;
use crate::sigma::{Op, op_arity, op_code};

verus! {

#[derive(Debug, Clone, Copy, PartialEq, Eq, Structural)]
pub struct Node {
    pub op: Op,
    pub a: u32,
    pub b: u32,
    pub c: u32,
}

#[derive(Debug, Clone)]
pub enum ConstLit {
    /// exact binary64 bits
    Bits(u64),
    /// a decimal float literal, as written
    Decimal(Vec<char>),
}

pub open spec fn lit_view(l: ConstLit) -> ConstLitV {
    match l {
        ConstLit::Bits(b) => ConstLitV::Bits(b),
        ConstLit::Decimal(t) => ConstLitV::Decimal(t@),
    }
}

/// The mathematical content of a constant.
pub enum ConstLitV {
    Bits(u64),
    Decimal(Seq<char>),
}

/// Node `i` of `nodes` is well formed: its constant index is in range, and
/// each of its operands precedes it.
pub open spec fn node_ok(nodes: Seq<Node>, nconsts: nat, i: int) -> bool {
    let n = nodes[i];
    &&& (n.op == Op::Const ==> n.a < nconsts)
    &&& (op_arity(n.op) >= 1 ==> n.a < i)
    &&& (op_arity(n.op) >= 2 ==> n.b < i)
    &&& (op_arity(n.op) >= 3 ==> n.c < i)
}

pub open spec fn nodes_ok(nodes: Seq<Node>, nconsts: nat) -> bool {
    &&& nodes.len() < 0xffff_ffff
    &&& forall|i: int| 0 <= i < nodes.len() ==> #[trigger] node_ok(nodes, nconsts, i)
}

/// Largest payload index + 1 over the leaves with operator `op` (0 if none).
pub open spec fn payload_bound(nodes: Seq<Node>, op: Op) -> nat
    decreases nodes.len(),
{
    if nodes.len() == 0 {
        0
    } else {
        let rest = payload_bound(nodes.drop_last(), op);
        let n = nodes.last();
        if n.op == op && n.a + 1 > rest {
            (n.a + 1) as nat
        } else {
            rest
        }
    }
}

pub open spec fn has_op(nodes: Seq<Node>, op: Op) -> bool {
    exists|i: int| 0 <= i < nodes.len() && #[trigger] nodes[i].op == op
}

// ------------------------------------------------------------------ hash --

pub open spec fn mix(h: u64, x: u64) -> u64 {
    (((h ^ x) as nat * 0x100000001b3nat) % 0x1_0000_0000_0000_0000nat) as u64
}

pub open spec fn hash_node(h: u64, n: Node) -> u64 {
    mix(mix(mix(mix(h, op_code(n.op)), n.a as u64), n.b as u64), n.c as u64)
}

pub open spec fn hash_nodes(h: u64, s: Seq<Node>) -> u64
    decreases s.len(),
{
    if s.len() == 0 {
        h
    } else {
        hash_node(hash_nodes(h, s.drop_last()), s.last())
    }
}

pub open spec fn hash_chars(h: u64, s: Seq<char>) -> u64
    decreases s.len(),
{
    if s.len() == 0 {
        h
    } else {
        mix(hash_chars(h, s.drop_last()), s.last() as u64)
    }
}

pub open spec fn hash_lit(h: u64, l: ConstLitV) -> u64 {
    match l {
        ConstLitV::Bits(b) => mix(mix(h, 1), b),
        ConstLitV::Decimal(t) => mix(hash_chars(mix(h, 2), t), t.len() as u64),
    }
}

pub open spec fn hash_lits(h: u64, s: Seq<ConstLitV>) -> u64
    decreases s.len(),
{
    if s.len() == 0 {
        h
    } else {
        hash_lit(hash_lits(h, s.drop_last()), s.last())
    }
}

pub open spec fn lits_view(s: Seq<ConstLit>) -> Seq<ConstLitV> {
    s.map_values(|l: ConstLit| lit_view(l))
}

/// The structural hash of a term: FNV-1a style over the node records, the
/// root index, and the constants' exact contents (bits or literal text).
pub open spec fn term_hash(nodes: Seq<Node>, consts: Seq<ConstLitV>, root: u32) -> u64 {
    hash_lits(mix(hash_nodes(0xcbf29ce484222325u64, nodes), root as u64), consts)
}

pub fn mix_exec(h: u64, x: u64) -> (r: u64)
    ensures
        r == mix(h, x),
{
    (h ^ x).wrapping_mul(0x100000001b3)
}

// ------------------------------------------------------------------ term --

#[derive(Debug, Clone)]
pub struct Term {
    pub nodes: Vec<Node>,
    pub consts: Vec<ConstLit>,
    pub root: u32,
    /// structural hash — an index only; `structurally_eq` is the authority
    pub hash: u64,
}

impl Term {
    /// Well-formed: non-empty, children-first, root in range, hash current.
    pub open spec fn wf(&self) -> bool {
        &&& nodes_ok(self.nodes@, self.consts@.len())
        &&& self.nodes@.len() > 0
        &&& self.root < self.nodes@.len()
        &&& self.hash == term_hash(self.nodes@, lits_view(self.consts@), self.root)
    }

    /// Number of scalar variable slots.
    pub open spec fn spec_arity(&self) -> nat {
        payload_bound(self.nodes@, Op::Var)
    }

    /// Number of parallel sequence slots.
    pub open spec fn spec_seq_count(&self) -> nat {
        let e = payload_bound(self.nodes@, Op::Elem);
        let l = payload_bound(self.nodes@, Op::Len);
        if e >= l { e } else { l }
    }

    pub fn len(&self) -> (r: usize)
        ensures
            r == self.nodes@.len(),
    {
        self.nodes.len()
    }

    pub fn node(&self, id: u32) -> (r: Node)
        requires
            id < self.nodes@.len(),
        ensures
            r == self.nodes@[id as int],
    {
        self.nodes[id as usize]
    }

    /// Number of scalar variables the term reads (largest `Var` index + 1).
    pub fn arity(&self) -> (r: usize)
        ensures
            r == clamp_usize(self.spec_arity()),
    {
        payload_bound_exec(&self.nodes, Op::Var)
    }

    /// Number of parallel sequences the term reads (largest `Elem`/`Len`
    /// index + 1).
    pub fn seq_count(&self) -> (r: usize)
        ensures
            r == clamp_usize(self.spec_seq_count()),
    {
        let e = payload_bound_exec(&self.nodes, Op::Elem);
        let l = payload_bound_exec(&self.nodes, Op::Len);
        if e >= l { e } else { l }
    }

    pub fn has_fold(&self) -> (r: bool)
        ensures
            r == has_op(self.nodes@, Op::Fold),
    {
        let mut i: usize = 0;
        while i < self.nodes.len()
            invariant
                i <= self.nodes@.len(),
                forall|j: int| 0 <= j < i ==> self.nodes@[j].op != Op::Fold,
            decreases self.nodes@.len() - i,
        {
            if self.nodes[i].op == Op::Fold {
                return true;
            }
            i += 1;
        }
        false
    }

    /// Full-key structural comparison: same nodes, same root, same constants
    /// (bit patterns compared exactly, so −0.0 and +0.0 differ).
    pub fn structurally_eq(&self, other: &Term) -> (r: bool)
        ensures
            r == (self.nodes@ == other.nodes@ && self.root == other.root && lits_view(
                self.consts@,
            ) == lits_view(other.consts@)),
    {
        if self.root != other.root || self.nodes.len() != other.nodes.len()
            || self.consts.len() != other.consts.len() {
            proof {
                if self.nodes@ == other.nodes@ {
                    assert(self.nodes@.len() == other.nodes@.len());
                }
                if lits_view(self.consts@) == lits_view(other.consts@) {
                    assert(lits_view(self.consts@).len() == lits_view(other.consts@).len());
                }
            }
            return false;
        }
        let mut i: usize = 0;
        while i < self.nodes.len()
            invariant
                i <= self.nodes@.len(),
                self.nodes@.len() == other.nodes@.len(),
                forall|j: int| 0 <= j < i ==> self.nodes@[j] == other.nodes@[j],
            decreases self.nodes@.len() - i,
        {
            if self.nodes[i] != other.nodes[i] {
                assert(self.nodes@[i as int] != other.nodes@[i as int]);
                return false;
            }
            i += 1;
        }
        assert(self.nodes@ =~= other.nodes@);
        let mut k: usize = 0;
        while k < self.consts.len()
            invariant
                k <= self.consts@.len(),
                self.consts@.len() == other.consts@.len(),
                forall|j: int|
                    0 <= j < k ==> lit_view(#[trigger] self.consts@[j]) == lit_view(
                        other.consts@[j],
                    ),
            decreases self.consts@.len() - k,
        {
            if !lit_eq(&self.consts[k], &other.consts[k]) {
                assert(lits_view(self.consts@)[k as int] != lits_view(other.consts@)[k as int]);
                return false;
            }
            k += 1;
        }
        assert(lits_view(self.consts@) =~= lits_view(other.consts@));
        true
    }
}

/// The hash is an index of the structure: well-formed terms that compare
/// structurally equal carry the same hash.
pub proof fn lemma_equal_structure_equal_hash(a: Term, b: Term)
    requires
        a.wf(),
        b.wf(),
        a.nodes@ == b.nodes@,
        a.root == b.root,
        lits_view(a.consts@) == lits_view(b.consts@),
    ensures
        a.hash == b.hash,
{
}

// ------------------------------------------------------- fold binders --

/// Node `i` depends on a fold binder (`Acc`/`Elem`) — through any operand
/// except a fold's own body, which the fold consumes.
#[verifier::opaque]
pub open spec fn binder_dep(nodes: Seq<Node>, i: int) -> bool
    decreases i,
{
    if i < 0 || i >= nodes.len() {
        false
    } else {
        let n = nodes[i];
        if n.op == Op::Acc || n.op == Op::Elem {
            true
        } else if n.op == Op::Fold {
            false
        } else {
            ||| (op_arity(n.op) >= 1 && n.a < i && binder_dep(nodes, n.a as int))
            ||| (op_arity(n.op) >= 2 && n.b < i && binder_dep(nodes, n.b as int))
            ||| (op_arity(n.op) >= 3 && n.c < i && binder_dep(nodes, n.c as int))
        }
    }
}

/// Operand `c` is one of node `j`'s operands.
pub open spec fn is_operand(nodes: Seq<Node>, j: int, c: int) -> bool {
    let n = nodes[j];
    ||| (op_arity(n.op) >= 1 && c == n.a)
    ||| (op_arity(n.op) >= 2 && c == n.b)
    ||| (op_arity(n.op) >= 3 && c == n.c)
}

/// A valid binding structure: every binder-dependent node belongs to exactly
/// the fold whose body reaches it; fold inits do not depend on binders.
pub open spec fn owners_ok(nodes: Seq<Node>, owner: Seq<Option<u32>>) -> bool {
    &&& owner.len() == nodes.len()
    &&& forall|i: int|
        0 <= i < nodes.len() ==> (#[trigger] owner[i] is Some <==> binder_dep(nodes, i))
    &&& forall|i: int|
        0 <= i < nodes.len() && #[trigger] owner[i] is Some ==> {
            let f = owner[i]->0 as int;
            i < f < nodes.len() && nodes[f].op == Op::Fold
        }
    &&& forall|f: int|
        0 <= f < nodes.len() && #[trigger] nodes[f].op == Op::Fold ==> !binder_dep(
            nodes,
            nodes[f].a as int,
        ) && (binder_dep(nodes, nodes[f].b as int) ==> owner[nodes[f].b as int] == Some(
            f as u32,
        ))
    &&& forall|j: int, c: int|
        0 <= j < nodes.len() && nodes[j].op != Op::Fold && #[trigger] is_operand(nodes, j, c)
            && owner[j] is Some && binder_dep(nodes, c) ==> owner[c] == owner[j]
}

/// Node `y` accounts for the owner of node `x`: `x` is the body of fold
/// `y`, or an operand of a non-fold node `y` with the same owner.
pub open spec fn owned_via(nodes: Seq<Node>, owner: Seq<Option<u32>>, x: int, y: int) -> bool {
    ||| (0 <= y < nodes.len() && nodes[y].op == Op::Fold && nodes[y].b == x && owner[x] == Some(
        y as u32,
    ))
    ||| (x < y < nodes.len() && nodes[y].op != Op::Fold && is_operand(nodes, y, x)
        && owner[x] is Some && owner[y] == owner[x])
}

/// A valid binding structure in which every owned node is owned because a
/// fold body reaches it.
pub open spec fn owners_exact(nodes: Seq<Node>, owner: Seq<Option<u32>>) -> bool {
    &&& owners_ok(nodes, owner)
    &&& forall|x: int|
        0 <= x < nodes.len() && #[trigger] owner[x] is Some ==> exists|y: int|
            owned_via(nodes, owner, x, y)
}

/// The term's fold binders are used properly: some exact binding exists.
pub open spec fn binders_ok(nodes: Seq<Node>) -> bool {
    exists|o: Seq<Option<u32>>| owners_exact(nodes, o)
}

impl Term {
    /// The fold binding discipline: which fold (if any) owns each node.
    /// Body-owned nodes are re-evaluated per iteration; everything else is
    /// loop-invariant. Fails when a binder escapes its fold body, a binder
    /// feeds a fold's init, or two folds would share a body node.
    pub fn fold_owners(&self) -> (r: Result<Vec<Option<u32>>, String>)
        requires
            self.wf(),
        ensures
            r matches Ok(o) ==> owners_exact(self.nodes@, o@),
            r is Ok <==> binders_ok(self.nodes@),
    {
        let n = self.nodes.len();
        let ghost nodes = self.nodes@;
        // binder dependence, children first
        let mut dep: Vec<bool> = Vec::new();
        let mut i: usize = 0;
        while i < n
            invariant
                n == nodes.len(),
                nodes == self.nodes@,
                self.wf(),
                i <= n,
                dep@.len() == i,
                forall|j: int| 0 <= j < i ==> dep@[j] == binder_dep(nodes, j),
                forall|f: int|
                    0 <= f < i && #[trigger] nodes[f].op == Op::Fold ==> !binder_dep(
                        nodes,
                        nodes[f].a as int,
                    ),
            decreases n - i,
        {
            let nd = self.nodes[i];
            assert(node_ok(nodes, self.consts@.len(), i as int));
            let d = if nd.op == Op::Acc || nd.op == Op::Elem {
                true
            } else if nd.op == Op::Fold {
                if dep[nd.a as usize] {
                    proof {
                        if binders_ok(nodes) {
                            let o = choose|o: Seq<Option<u32>>| owners_exact(nodes, o);
                            assert(nodes[i as int].op == Op::Fold);
                        }
                    }
                    return Err(crate::text::owned("a fold binder feeds a fold's init"));
                }
                false
            } else {
                let ar = nd.op.arity();
                (ar >= 1 && dep[nd.a as usize]) || (ar >= 2 && dep[nd.b as usize]) || (ar >= 3
                    && dep[nd.c as usize])
            };
            proof {
                reveal(binder_dep);
                let ii = i as int;
                if op_arity(nd.op) >= 1 {
                    assert(dep@[nd.a as int] == binder_dep(nodes, nd.a as int));
                }
                if op_arity(nd.op) >= 2 {
                    assert(dep@[nd.b as int] == binder_dep(nodes, nd.b as int));
                }
                if op_arity(nd.op) >= 3 {
                    assert(dep@[nd.c as int] == binder_dep(nodes, nd.c as int));
                }
                assert(d == binder_dep(nodes, ii));
            }
            dep.push(d);
            i += 1;
        }
        // ownership, parents before children
        let ghost o = choose|o: Seq<Option<u32>>| owners_exact(nodes, o);
        let mut owner: Vec<Option<u32>> = Vec::new();
        let mut k: usize = 0;
        while k < n
            invariant
                k <= n,
                owner@.len() == k,
                forall|j: int| 0 <= j < k ==> owner@[j] is None,
            decreases n - k,
        {
            owner.push(None);
            k += 1;
        }
        let ghost mut why: Seq<int> = Seq::new(n as nat, |i: int| 0);
        proof {
            if binders_ok(nodes) {
                assert(owners_exact(nodes, o));
            }
            lemma_own_start(nodes, o, owner@, why);
        }
        let mut j: usize = n;
        while j > 0
            invariant
                n == nodes.len(),
                nodes == self.nodes@,
                self.wf(),
                j <= n,
                dep@.len() == n,
                forall|x: int| 0 <= x < n ==> dep@[x] == binder_dep(nodes, x),
                owner@.len() == n,
                why.len() == n,
                own_state(nodes, owner@, why, o, j as int, j as int),
            decreases j,
        {
            let (ok, Ghost(w)) = self.visit_owner(&mut owner, &dep, j - 1, Ghost(o), Ghost(why));
            if !ok {
                return Err(crate::text::owned("two folds share a body node"));
            }
            proof {
                why = w;
            }
            j -= 1;
        }
        // every binder-dependent node must have been reached from a body
        let mut m: usize = 0;
        while m < n
            invariant
                n == nodes.len(),
                nodes == self.nodes@,
                m <= n,
                dep@.len() == n,
                forall|x: int| 0 <= x < n ==> dep@[x] == binder_dep(nodes, x),
                forall|x: int| 0 <= x < m ==> (owner@[x] is Some <==> binder_dep(nodes, x)),
                forall|f: int|
                    0 <= f < n && #[trigger] nodes[f].op == Op::Fold ==> !binder_dep(
                        nodes,
                        nodes[f].a as int,
                    ),
                binders_ok(nodes) ==> owners_exact(nodes, o),
                owner@.len() == n,
                why.len() == n,
                own_state(nodes, owner@, why, o, 0, 0),
            decreases n - m,
        {
            if dep[m] && owner[m].is_none() {
                proof {
                    lemma_escape(nodes, o, owner@, why, m as int);
                }
                return Err(crate::text::owned("a fold binder escapes its fold body"));
            }
            proof {
                reveal(own_base);
            }
            m += 1;
        }
        proof {
            reveal(own_base);
            reveal(own_folds);
            reveal(own_operands);
            assert forall|x: int| 0 <= x < n && #[trigger] owner@[x] is Some implies exists|y: int|
                owned_via(nodes, owner@, x, y) by {
                assert(owned_via(nodes, owner@, x, why[x]));
            }
            assert forall|f: int| 0 <= f < n && #[trigger] nodes[f].op == Op::Fold implies !binder_dep(
                nodes,
                nodes[f].a as int,
            ) && (binder_dep(nodes, nodes[f].b as int) ==> owner@[nodes[f].b as int] == Some(
                f as u32,
            )) by {}
            assert(owners_ok(nodes, owner@));
            assert(owners_exact(nodes, owner@));
        }
        Ok(owner)
    }

    /// Visit node `x` of the backward ownership pass: a fold claims its
    /// binder-dependent body, an owned node passes its owner down to its
    /// binder-dependent operands. `false` when two folds would share a node.
    fn visit_owner(
        &self,
        owner: &mut Vec<Option<u32>>,
        dep: &Vec<bool>,
        x: usize,
        Ghost(o): Ghost<Seq<Option<u32>>>,
        Ghost(why): Ghost<Seq<int>>,
    ) -> (r: (bool, Ghost<Seq<int>>))
        requires
            self.wf(),
            x < self.nodes@.len(),
            dep@.len() == self.nodes@.len(),
            forall|i: int| 0 <= i < self.nodes@.len() ==> dep@[i] == binder_dep(self.nodes@, i),
            old(owner)@.len() == self.nodes@.len(),
            why.len() == self.nodes@.len(),
            own_state(self.nodes@, old(owner)@, why, o, x + 1, x + 1),
        ensures
            final(owner)@.len() == self.nodes@.len(),
            r.0 ==> r.1@.len() == self.nodes@.len(),
            r.0 ==> own_state(self.nodes@, final(owner)@, r.1@, o, x as int, x as int),
            !r.0 ==> !binders_ok(self.nodes@),
    {
        let ghost nodes = self.nodes@;
        let nd = self.nodes[x];
        assert(node_ok(nodes, self.consts@.len(), x as int));
        if nd.op == Op::Fold {
            let body = nd.b as usize;
            if dep[body] {
                proof {
                    lemma_fold_body_owner(nodes, o, owner@, why, x as int, self.consts@.len());
                }
                let ghost pre = owner@;
                if !claim(owner, body, x as u32) {
                    proof {
                        lemma_claim_conflict(nodes, o, pre, why, x as int, body as int, x as u32, x as int + 1);
                    }
                    return (false, Ghost(why));
                }
                let ghost w = why.update(body as int, x as int);
                proof {
                    lemma_claim(nodes, o, pre, why, x as int, body as int, x as u32, x as int + 1, self.consts@.len());
                    lemma_fold_visited(nodes, o, owner@, w, x as int, x as int, self.consts@.len());
                }
                (true, Ghost(w))
            } else {
                proof {
                    lemma_fold_visited(nodes, o, owner@, why, x as int, x as int + 1, self.consts@.len());
                }
                (true, Ghost(why))
            }
        } else {
            match owner[x] {
                Some(f) => self.visit_owned_op(owner, dep, x, f, Ghost(o), Ghost(why)),
                None => {
                    proof {
                        lemma_unowned_visited(nodes, o, owner@, why, x as int, self.consts@.len());
                    }
                    (true, Ghost(why))
                },
            }
        }
    }

    /// An owned non-fold node `x` passes its owner `f` to its
    /// binder-dependent operands.
    fn visit_owned_op(
        &self,
        owner: &mut Vec<Option<u32>>,
        dep: &Vec<bool>,
        x: usize,
        f: u32,
        Ghost(o): Ghost<Seq<Option<u32>>>,
        Ghost(why): Ghost<Seq<int>>,
    ) -> (r: (bool, Ghost<Seq<int>>))
        requires
            self.wf(),
            x < self.nodes@.len(),
            self.nodes@[x as int].op != Op::Fold,
            dep@.len() == self.nodes@.len(),
            forall|i: int| 0 <= i < self.nodes@.len() ==> dep@[i] == binder_dep(self.nodes@, i),
            old(owner)@.len() == self.nodes@.len(),
            old(owner)@[x as int] == Some(f),
            why.len() == self.nodes@.len(),
            own_state(self.nodes@, old(owner)@, why, o, x + 1, x + 1),
        ensures
            final(owner)@.len() == self.nodes@.len(),
            r.0 ==> r.1@.len() == self.nodes@.len(),
            r.0 ==> own_state(self.nodes@, final(owner)@, r.1@, o, x as int, x as int),
            !r.0 ==> !binders_ok(self.nodes@),
    {
        let ghost nodes = self.nodes@;
        let nd = self.nodes[x];
        assert(node_ok(nodes, self.consts@.len(), x as int));
        let ar = nd.op.arity();
        let ghost mut why = why;
        let ghost mut lo: int = x as int + 1;
        if ar >= 1 && dep[nd.a as usize] {
            let (ok, Ghost(w)) = self.pass_down(owner, x, nd.a as usize, f, Ghost(o), Ghost(why), Ghost(lo));
            if !ok {
                return (false, Ghost(why));
            }
            proof {
                why = w;
                lo = x as int;
            }
        }
        let ghost after_a = owner@;
        if ar >= 2 && dep[nd.b as usize] {
            let (ok, Ghost(w)) = self.pass_down(owner, x, nd.b as usize, f, Ghost(o), Ghost(why), Ghost(lo));
            if !ok {
                return (false, Ghost(why));
            }
            proof {
                why = w;
                lo = x as int;
            }
        }
        let ghost after_b = owner@;
        if ar >= 3 && dep[nd.c as usize] {
            let (ok, Ghost(w)) = self.pass_down(owner, x, nd.c as usize, f, Ghost(o), Ghost(why), Ghost(lo));
            if !ok {
                return (false, Ghost(why));
            }
            proof {
                why = w;
                lo = x as int;
            }
        }
        proof {
            let fin = owner@;
            assert forall|d: int|
                #[trigger] is_operand(nodes, x as int, d) && binder_dep(nodes, d) implies fin[d]
                == fin[x as int] by {
                if ar >= 1 && d == nd.a as int {
                    assert(after_a[d] == Some(f));
                    assert(after_b[d] == Some(f));
                } else if ar >= 2 && d == nd.b as int {
                    assert(after_b[d] == Some(f));
                } else {
                }
            }
            lemma_op_visited(nodes, o, fin, why, x as int, lo, self.consts@.len());
        }
        (true, Ghost(why))
    }

    /// Owned non-fold node `x` claims its binder-dependent operand `c` for
    /// its own fold `f`.
    fn pass_down(
        &self,
        owner: &mut Vec<Option<u32>>,
        x: usize,
        c: usize,
        f: u32,
        Ghost(o): Ghost<Seq<Option<u32>>>,
        Ghost(why): Ghost<Seq<int>>,
        Ghost(lo): Ghost<int>,
    ) -> (r: (bool, Ghost<Seq<int>>))
        requires
            self.wf(),
            x < self.nodes@.len(),
            x <= lo,
            self.nodes@[x as int].op != Op::Fold,
            is_operand(self.nodes@, x as int, c as int),
            binder_dep(self.nodes@, c as int),
            old(owner)@[x as int] == Some(f),
            own_state(self.nodes@, old(owner)@, why, o, x + 1, lo),
        ensures
            final(owner)@.len() == old(owner)@.len(),
            final(owner)@[x as int] == Some(f),
            forall|i: int|
                0 <= i < old(owner)@.len() && #[trigger] old(owner)@[i] is Some ==> final(owner)@[i]
                    == old(owner)@[i],
            r.0 ==> final(owner)@[c as int] == Some(f),
            r.0 ==> own_state(self.nodes@, final(owner)@, r.1@, o, x + 1, x as int),
            !r.0 ==> !binders_ok(self.nodes@),
    {
        let ghost nodes = self.nodes@;
        proof {
            assert(node_ok(nodes, self.consts@.len(), x as int));
            lemma_operand_owner(nodes, o, owner@, why, x as int, c as int, lo);
        }
        let ghost pre = owner@;
        if !claim(owner, c, f) {
            proof {
                lemma_claim_conflict(nodes, o, pre, why, x as int, c as int, f, lo);
            }
            return (false, Ghost(why));
        }
        proof {
            lemma_claim(nodes, o, pre, why, x as int, c as int, f, lo, self.consts@.len());
        }
        (true, Ghost(why.update(c as int, x as int)))
    }
}

/// Owned nodes: each owner is a fold above the node, the node is
/// binder-dependent, and `why` records an accounting node at or above `lo`.
#[verifier::opaque]
pub open spec fn own_base(nodes: Seq<Node>, owner: Seq<Option<u32>>, why: Seq<int>, lo: int) -> bool {
    let n = nodes.len();
    &&& owner.len() == n
    &&& why.len() == n
    &&& forall|x: int|
        0 <= x < n && #[trigger] owner[x] is Some ==> {
            let f = owner[x]->0 as int;
            &&& x < f < n
            &&& nodes[f].op == Op::Fold
            &&& binder_dep(nodes, x)
            &&& lo <= why[x] < n
            &&& owned_via(nodes, owner, x, why[x])
        }
}

/// Every visited fold (index `j..`) owns its binder-dependent body.
#[verifier::opaque]
pub open spec fn own_folds(nodes: Seq<Node>, owner: Seq<Option<u32>>, j: int) -> bool {
    forall|f: int|
        j <= f < nodes.len() && #[trigger] nodes[f].op == Op::Fold && binder_dep(
            nodes,
            nodes[f].b as int,
        ) ==> owner[nodes[f].b as int] == Some(f as u32)
}

/// Every visited owned non-fold node passes its owner to its
/// binder-dependent operands.
#[verifier::opaque]
pub open spec fn own_operands(nodes: Seq<Node>, owner: Seq<Option<u32>>, j: int) -> bool {
    forall|x: int, c: int|
        j <= x < nodes.len() && nodes[x].op != Op::Fold && #[trigger] is_operand(nodes, x, c)
            && owner[x] is Some && binder_dep(nodes, c) ==> owner[c] == owner[x]
}

/// Against an exact binding `o` (when one exists) the assignment agrees, and
/// it is complete for every node accounted for by a visited node.
#[verifier::opaque]
pub open spec fn own_agrees(
    nodes: Seq<Node>,
    owner: Seq<Option<u32>>,
    o: Seq<Option<u32>>,
    j: int,
) -> bool {
    binders_ok(nodes) ==> {
        &&& owners_exact(nodes, o)
        &&& forall|x: int| 0 <= x < nodes.len() && #[trigger] owner[x] is Some ==> owner[x] == o[x]
        &&& forall|x: int, y: int|
            0 <= x < nodes.len() && j <= y < nodes.len() && #[trigger] owned_via(nodes, o, x, y)
                ==> owner[x] == o[x]
    }
}

/// What the backward ownership pass has established after visiting the
/// nodes `j..`.
pub open spec fn own_state(
    nodes: Seq<Node>,
    owner: Seq<Option<u32>>,
    why: Seq<int>,
    o: Seq<Option<u32>>,
    j: int,
    lo: int,
) -> bool {
    &&& owner.len() == nodes.len()
    &&& why.len() == nodes.len()
    &&& own_base(nodes, owner, why, lo)
    &&& own_folds(nodes, owner, j)
    &&& own_operands(nodes, owner, j)
    &&& own_agrees(nodes, owner, o, j)
}

proof fn lemma_own_start(nodes: Seq<Node>, o: Seq<Option<u32>>, owner: Seq<Option<u32>>, why: Seq<int>)
    requires
        owner.len() == nodes.len(),
        why.len() == nodes.len(),
        forall|i: int| 0 <= i < owner.len() ==> owner[i] is None,
        binders_ok(nodes) ==> owners_exact(nodes, o),
    ensures
        own_state(nodes, owner, why, o, nodes.len() as int, nodes.len() as int),
{
    reveal(own_base);
    reveal(own_folds);
    reveal(own_operands);
    reveal(own_agrees);
}

/// Under an exact binding, a fold owns its binder-dependent body.
proof fn lemma_fold_body_owner(
    nodes: Seq<Node>,
    o: Seq<Option<u32>>,
    owner: Seq<Option<u32>>,
    why: Seq<int>,
    x: int,
    nc: nat,
)
    requires
        own_state(nodes, owner, why, o, x + 1, x + 1),
        0 <= x < nodes.len(),
        nodes[x].op == Op::Fold,
        binder_dep(nodes, nodes[x].b as int),
    ensures
        binders_ok(nodes) ==> o[nodes[x].b as int] == Some(x as u32),
{
    reveal(own_agrees);
}

/// A binder-dependent node the pass left unowned rules out every exact
/// binding.
proof fn lemma_escape(
    nodes: Seq<Node>,
    o: Seq<Option<u32>>,
    owner: Seq<Option<u32>>,
    why: Seq<int>,
    m: int,
)
    requires
        own_state(nodes, owner, why, o, 0, 0),
        0 <= m < nodes.len(),
        binder_dep(nodes, m),
        owner[m] is None,
    ensures
        !binders_ok(nodes),
{
    reveal(own_agrees);
    if binders_ok(nodes) {
        assert(owners_exact(nodes, o));
        assert(o[m] is Some);
        let y = choose|y: int| owned_via(nodes, o, m, y);
        assert(owned_via(nodes, o, m, y));
        assert(owner[m] == o[m]);
    }
}

/// A claim that finds another owner already in place rules out every exact
/// binding that would give the node to `f`.
proof fn lemma_claim_conflict(
    nodes: Seq<Node>,
    o: Seq<Option<u32>>,
    pre: Seq<Option<u32>>,
    why: Seq<int>,
    x: int,
    c: int,
    f: u32,
    lo: int,
)
    requires
        own_state(nodes, pre, why, o, x + 1, lo),
        0 <= c < nodes.len(),
        pre[c] is Some,
        pre[c] != Some(f),
        binders_ok(nodes) ==> o[c] == Some(f),
    ensures
        !binders_ok(nodes),
{
    reveal(own_agrees);
}

/// Claiming a binder-dependent node `c` for fold `f` while visiting `x`.
proof fn lemma_claim(
    nodes: Seq<Node>,
    o: Seq<Option<u32>>,
    pre: Seq<Option<u32>>,
    why: Seq<int>,
    x: int,
    c: int,
    f: u32,
    lo: int,
    nc: nat,
)
    requires
        nodes_ok(nodes, nc),
        own_state(nodes, pre, why, o, x + 1, lo),
        x <= lo,
        0 <= c < x < nodes.len(),
        pre[c] is None || pre[c] == Some(f),
        binder_dep(nodes, c),
        c < f < nodes.len(),
        nodes[f as int].op == Op::Fold,
        owned_via(nodes, pre.update(c, Some(f)), c, x),
        binders_ok(nodes) ==> o[c] == Some(f),
    ensures
        own_state(nodes, pre.update(c, Some(f)), why.update(c, x), o, x + 1, x),
{
    let post = pre.update(c, Some(f));
    let w = why.update(c, x);
    let n = nodes.len();
    assert forall|i: int| 0 <= i < n && #[trigger] pre[i] is Some implies post[i] == pre[i] by {
        if i == c {
            assert(pre[c] == Some(f));
        }
    }
    assert(own_base(nodes, post, w, x)) by {
        reveal(own_base);
        assert forall|i: int| 0 <= i < n && #[trigger] post[i] is Some implies {
            let g = post[i]->0 as int;
            &&& i < g < n
            &&& nodes[g].op == Op::Fold
            &&& binder_dep(nodes, i)
            &&& x <= w[i] < n
            &&& owned_via(nodes, post, i, w[i])
        } by {
            if i != c {
                assert(pre[i] is Some);
                let y = why[i];
                assert(owned_via(nodes, pre, i, y));
                if nodes[y].op != Op::Fold {
                    assert(pre[y] is Some);
                    assert(post[y] == pre[y]);
                }
            }
        }
    }
    assert(own_folds(nodes, post, x + 1)) by {
        reveal(own_folds);
        assert forall|g: int|
            x + 1 <= g < n && #[trigger] nodes[g].op == Op::Fold && binder_dep(
                nodes,
                nodes[g].b as int,
            ) implies post[nodes[g].b as int] == Some(g as u32) by {
            assert(node_ok(nodes, nc, g));
            assert(pre[nodes[g].b as int] == Some(g as u32));
            if nodes[g].b as int == c {
                assert(pre[c] == Some(f));
            }
        }
    }
    assert(own_operands(nodes, post, x + 1)) by {
        reveal(own_operands);
        assert forall|y: int, d: int|
            x + 1 <= y < n && nodes[y].op != Op::Fold && #[trigger] is_operand(nodes, y, d)
                && post[y] is Some && binder_dep(nodes, d) implies post[d] == post[y] by {
            assert(node_ok(nodes, nc, y));
            assert(post[y] == pre[y]);
            assert(pre[d] == pre[y]);
            if d == c {
                assert(pre[c] == Some(f));
            }
        }
    }
    assert(own_agrees(nodes, post, o, x + 1)) by {
        reveal(own_agrees);
        if binders_ok(nodes) {
            assert forall|i: int| 0 <= i < n && #[trigger] post[i] is Some implies post[i] == o[i] by {
                if i != c {
                    assert(pre[i] is Some);
                }
            }
            assert forall|i: int, y: int|
                0 <= i < n && x + 1 <= y < n && #[trigger] owned_via(nodes, o, i, y) implies post[i]
                == o[i] by {
                assert(pre[i] == o[i]);
                if i == c {
                    assert(pre[c] is Some ==> pre[c] == Some(f));
                }
            }
        }
    }
}

/// Facts about an owned visited node and the exact binding.
proof fn lemma_operand_owner(
    nodes: Seq<Node>,
    o: Seq<Option<u32>>,
    owner: Seq<Option<u32>>,
    why: Seq<int>,
    x: int,
    c: int,
    lo: int,
)
    requires
        own_state(nodes, owner, why, o, x + 1, lo),
        0 <= x < nodes.len(),
        nodes[x].op != Op::Fold,
        is_operand(nodes, x, c),
        owner[x] is Some,
        binder_dep(nodes, c),
    ensures
        binders_ok(nodes) ==> o[c] == owner[x],
        x < owner[x]->0 < nodes.len(),
        nodes[owner[x]->0 as int].op == Op::Fold,
{
    reveal(own_base);
    reveal(own_agrees);
    if binders_ok(nodes) {
        assert(owner[x] == o[x]);
        assert(is_operand(nodes, x, c));
    }
}

/// Visiting fold `x` once its body is claimed.
proof fn lemma_fold_visited(
    nodes: Seq<Node>,
    o: Seq<Option<u32>>,
    owner: Seq<Option<u32>>,
    why: Seq<int>,
    x: int,
    lo: int,
    nc: nat,
)
    requires
        x <= lo,
        own_state(nodes, owner, why, o, x + 1, lo),
        0 <= x < nodes.len(),
        node_ok(nodes, nc, x),
        nodes[x].op == Op::Fold,
        binder_dep(nodes, nodes[x].b as int) ==> owner[nodes[x].b as int] == Some(x as u32),
    ensures
        own_state(nodes, owner, why, o, x, x),
{
    assert(own_base(nodes, owner, why, x)) by {
        reveal(own_base);
    }
    assert(own_folds(nodes, owner, x)) by {
        reveal(own_folds);
    }
    assert(own_operands(nodes, owner, x)) by {
        reveal(own_operands);
    }
    assert(own_agrees(nodes, owner, o, x)) by {
        reveal(own_agrees);
        if binders_ok(nodes) {
            assert forall|i: int, y: int|
                0 <= i < nodes.len() && x <= y < nodes.len() && #[trigger] owned_via(
                    nodes,
                    o,
                    i,
                    y,
                ) implies owner[i] == o[i] by {
                if y == x {
                    assert(o[i] is Some);
                    assert(binder_dep(nodes, i));
                }
            }
        }
    }
}

/// Visiting an owned non-fold node `x` once its operands are claimed.
proof fn lemma_op_visited(
    nodes: Seq<Node>,
    o: Seq<Option<u32>>,
    owner: Seq<Option<u32>>,
    why: Seq<int>,
    x: int,
    lo: int,
    nc: nat,
)
    requires
        own_state(nodes, owner, why, o, x + 1, lo),
        x <= lo,
        0 <= x < nodes.len(),
        node_ok(nodes, nc, x),
        nodes[x].op != Op::Fold,
        owner[x] is Some,
        forall|d: int|
            #[trigger] is_operand(nodes, x, d) && binder_dep(nodes, d) ==> owner[d] == owner[x],
    ensures
        own_state(nodes, owner, why, o, x, x),
{
    let n = nodes.len();
    assert(own_base(nodes, owner, why, x)) by {
        reveal(own_base);
    }
    assert(own_folds(nodes, owner, x)) by {
        reveal(own_folds);
    }
    assert(own_operands(nodes, owner, x)) by {
        reveal(own_operands);
        assert forall|y: int, d: int|
            x <= y < n && nodes[y].op != Op::Fold && #[trigger] is_operand(nodes, y, d)
                && owner[y] is Some && binder_dep(nodes, d) implies owner[d] == owner[y] by {
            if y > x {
                assert(x + 1 <= y);
            }
        }
    }
    assert(own_agrees(nodes, owner, o, x)) by {
        reveal(own_agrees);
        if binders_ok(nodes) {
            assert(owner[x] == o[x]);
            assert forall|i: int, y: int|
                0 <= i < n && x <= y < n && #[trigger] owned_via(nodes, o, i, y) implies owner[i]
                == o[i] by {
                if y == x {
                    assert(o[i] is Some);
                    assert(binder_dep(nodes, i));
                    assert(owner[i] == owner[x]);
                }
            }
        }
    }
}

/// Visiting an unowned non-fold node `x`: under an exact binding it owns
/// nothing either, so there is nothing to pass down.
proof fn lemma_unowned_visited(
    nodes: Seq<Node>,
    o: Seq<Option<u32>>,
    owner: Seq<Option<u32>>,
    why: Seq<int>,
    x: int,
    nc: nat,
)
    requires
        own_state(nodes, owner, why, o, x + 1, x + 1),
        nodes_ok(nodes, nc),
        0 <= x < nodes.len(),
        nodes[x].op != Op::Fold,
        owner[x] is None,
    ensures
        own_state(nodes, owner, why, o, x, x),
{
    assert(own_base(nodes, owner, why, x)) by {
        reveal(own_base);
    }
    assert(own_folds(nodes, owner, x)) by {
        reveal(own_folds);
    }
    assert(own_operands(nodes, owner, x)) by {
        reveal(own_operands);
    }
    assert(own_agrees(nodes, owner, o, x)) by {
        reveal(own_agrees);
        if binders_ok(nodes) {
            if o[x] is Some {
                let y = choose|y: int| owned_via(nodes, o, x, y);
                assert(node_ok(nodes, nc, y));
                assert(owned_via(nodes, o, x, y));
            }
            assert forall|i: int, y: int|
                0 <= i < nodes.len() && x <= y < nodes.len() && #[trigger] owned_via(
                    nodes,
                    o,
                    i,
                    y,
                ) implies owner[i] == o[i] by {
                if y == x {
                    assert(o[x] is Some);
                }
            }
        }
    }
}

/// Give node `c` the owner `f`, unless it already has another one.
fn claim(owner: &mut Vec<Option<u32>>, c: usize, f: u32) -> (ok: bool)
    requires
        c < old(owner)@.len(),
    ensures
        ok == (old(owner)@[c as int] is None || old(owner)@[c as int] == Some(f)),
        ok ==> final(owner)@ == old(owner)@.update(c as int, Some(f)),
        !ok ==> final(owner)@ == old(owner)@,
{
    match owner[c] {
        Some(g) => {
            if g != f {
                return false;
            }
        },
        None => {},
    }
    owner.set(c, Some(f));
    true
}

pub fn lit_eq(x: &ConstLit, y: &ConstLit) -> (r: bool)
    ensures
        r == (lit_view(*x) == lit_view(*y)),
{
    match x {
        ConstLit::Bits(a) => match y {
            ConstLit::Bits(b) => *a == *b,
            ConstLit::Decimal(_) => false,
        },
        ConstLit::Decimal(s) => match y {
            ConstLit::Bits(_) => false,
            ConstLit::Decimal(t) => chars_eq(s, t),
        },
    }
}

pub fn chars_eq(s: &Vec<char>, t: &Vec<char>) -> (r: bool)
    ensures
        r == (s@ == t@),
{
    if s.len() != t.len() {
        assert(s@.len() != t@.len());
        return false;
    }
    let mut i: usize = 0;
    while i < s.len()
        invariant
            i <= s@.len(),
            s@.len() == t@.len(),
            forall|j: int| 0 <= j < i ==> s@[j] == t@[j],
        decreases s@.len() - i,
    {
        if s[i] != t[i] {
            assert(s@[i as int] != t@[i as int]);
            return false;
        }
        i += 1;
    }
    assert(s@ =~= t@);
    true
}

fn payload_bound_exec(nodes: &Vec<Node>, op: Op) -> (r: usize)
    ensures
        r == clamp_usize(payload_bound(nodes@, op)),
{
    let mut best: u64 = 0;
    let mut i: usize = 0;
    while i < nodes.len()
        invariant
            i <= nodes@.len(),
            best == payload_bound(nodes@.take(i as int), op),
            best <= 0x1_0000_0000,
        decreases nodes@.len() - i,
    {
        assert(nodes@.take(i + 1).drop_last() =~= nodes@.take(i as int));
        let n = nodes[i];
        if n.op == op && (n.a as u64) + 1 > best {
            best = (n.a as u64) + 1;
        }
        i += 1;
    }
    assert(nodes@.take(nodes@.len() as int) =~= nodes@);
    if best > usize::MAX as u64 {
        usize::MAX
    } else {
        best as usize
    }
}

/// `n` as a `usize`, saturating at `usize::MAX` (only reachable on a 32-bit
/// target with a payload index of `u32::MAX`).
pub open spec fn clamp_usize(n: nat) -> nat {
    if n <= usize::MAX { n } else { usize::MAX as nat }
}

// --------------------------------------------------------------- builder --

/// Children-first arena builder. Every id it hands out names an existing
/// node; `finish` seals the arena with a root and the structural hash.
pub struct TermBuilder {
    pub nodes: Vec<Node>,
    pub consts: Vec<ConstLit>,
}

impl TermBuilder {
    pub open spec fn inv(&self) -> bool {
        nodes_ok(self.nodes@, self.consts@.len()) && self.consts@.len() < 0xffff_ffff
    }

    /// Room for `k` more nodes (and constants) below the u32 id limit.
    pub open spec fn has_room(&self, k: nat) -> bool {
        self.nodes@.len() + k < 0xffff_ffff && self.consts@.len() + k < 0xffff_ffff
    }

    /// `id` names an existing node.
    pub open spec fn valid(&self, id: u32) -> bool {
        id < self.nodes@.len()
    }

    pub fn new() -> (b: Self)
        ensures
            b.inv(),
            b.nodes@.len() == 0,
            b.consts@.len() == 0,
    {
        TermBuilder { nodes: Vec::new(), consts: Vec::new() }
    }

    pub fn len(&self) -> (r: usize)
        ensures
            r == self.nodes@.len(),
    {
        self.nodes.len()
    }

    /// Room check for `k` more nodes.
    pub fn room(&self, k: usize) -> (r: bool)
        requires
            k < 0xffff_ffff,
        ensures
            r == self.has_room(k as nat),
    {
        self.nodes.len() < 0xffff_ffff - k && self.consts.len() < 0xffff_ffff - k
    }

    pub(crate) fn push(&mut self, n: Node) -> (id: u32)
        requires
            old(self).inv(),
            old(self).nodes@.len() + 1 < 0xffff_ffff,
            node_ok(old(self).nodes@.push(n), old(self).consts@.len(), old(self).nodes@.len() as int),
        ensures
            final(self).inv(),
            final(self).nodes@ == old(self).nodes@.push(n),
            final(self).consts@ == old(self).consts@,
            id == old(self).nodes@.len(),
    {
        let id = self.nodes.len() as u32;
        let ghost old_nodes = self.nodes@;
        self.nodes.push(n);
        assert forall|i: int| 0 <= i < self.nodes@.len() implies #[trigger] node_ok(
            self.nodes@,
            self.consts@.len(),
            i,
        ) by {
            if i < old_nodes.len() {
                assert(node_ok(old_nodes, self.consts@.len(), i));
                assert(self.nodes@[i] == old_nodes[i]);
            }
        }
        id
    }

    pub fn var(&mut self, i: u32) -> (id: u32)
        requires
            old(self).inv(),
            old(self).has_room(1),
        ensures
            final(self).inv(),
            final(self).nodes@ == old(self).nodes@.push(Node { op: Op::Var, a: i, b: 0, c: 0 }),
            final(self).consts@ == old(self).consts@,
            id == old(self).nodes@.len(),
    {
        self.push(Node { op: Op::Var, a: i, b: 0, c: 0 })
    }

    pub fn elem(&mut self, k: u32) -> (id: u32)
        requires
            old(self).inv(),
            old(self).has_room(1),
        ensures
            final(self).inv(),
            final(self).nodes@ == old(self).nodes@.push(Node { op: Op::Elem, a: k, b: 0, c: 0 }),
            final(self).consts@ == old(self).consts@,
            id == old(self).nodes@.len(),
    {
        self.push(Node { op: Op::Elem, a: k, b: 0, c: 0 })
    }

    pub fn len_of(&mut self, k: u32) -> (id: u32)
        requires
            old(self).inv(),
            old(self).has_room(1),
        ensures
            final(self).inv(),
            final(self).nodes@ == old(self).nodes@.push(Node { op: Op::Len, a: k, b: 0, c: 0 }),
            final(self).consts@ == old(self).consts@,
            id == old(self).nodes@.len(),
    {
        self.push(Node { op: Op::Len, a: k, b: 0, c: 0 })
    }

    pub fn acc(&mut self) -> (id: u32)
        requires
            old(self).inv(),
            old(self).has_room(1),
        ensures
            final(self).inv(),
            final(self).nodes@ == old(self).nodes@.push(Node { op: Op::Acc, a: 0, b: 0, c: 0 }),
            final(self).consts@ == old(self).consts@,
            id == old(self).nodes@.len(),
    {
        self.push(Node { op: Op::Acc, a: 0, b: 0, c: 0 })
    }

    /// A constant node over a fresh constant-table entry.
    pub fn constant(&mut self, v: ConstLit) -> (id: u32)
        requires
            old(self).inv(),
            old(self).has_room(1),
        ensures
            final(self).inv(),
            final(self).consts@ == old(self).consts@.push(v),
            final(self).nodes@ == old(self).nodes@.push(
                Node { op: Op::Const, a: old(self).consts@.len() as u32, b: 0, c: 0 },
            ),
            id == old(self).nodes@.len(),
    {
        let k = self.consts.len() as u32;
        let ghost old_nodes = self.nodes@;
        self.consts.push(v);
        assert forall|i: int| 0 <= i < self.nodes@.len() implies #[trigger] node_ok(
            self.nodes@,
            self.consts@.len(),
            i,
        ) by {
            assert(node_ok(old_nodes, (self.consts@.len() - 1) as nat, i));
        }
        self.push(Node { op: Op::Const, a: k, b: 0, c: 0 })
    }

    pub fn unary(&mut self, op: Op, x: u32) -> (id: u32)
        requires
            old(self).inv(),
            old(self).has_room(1),
            op_arity(op) == 1,
            old(self).valid(x),
        ensures
            final(self).inv(),
            final(self).nodes@ == old(self).nodes@.push(Node { op, a: x, b: 0, c: 0 }),
            final(self).consts@ == old(self).consts@,
            id == old(self).nodes@.len(),
    {
        self.push(Node { op, a: x, b: 0, c: 0 })
    }

    pub fn binary(&mut self, op: Op, x: u32, y: u32) -> (id: u32)
        requires
            old(self).inv(),
            old(self).has_room(1),
            op_arity(op) == 2,
            old(self).valid(x),
            old(self).valid(y),
        ensures
            final(self).inv(),
            final(self).nodes@ == old(self).nodes@.push(Node { op, a: x, b: y, c: 0 }),
            final(self).consts@ == old(self).consts@,
            id == old(self).nodes@.len(),
    {
        self.push(Node { op, a: x, b: y, c: 0 })
    }

    pub fn ternary(&mut self, op: Op, x: u32, y: u32, z: u32) -> (id: u32)
        requires
            old(self).inv(),
            old(self).has_room(1),
            op_arity(op) == 3,
            old(self).valid(x),
            old(self).valid(y),
            old(self).valid(z),
        ensures
            final(self).inv(),
            final(self).nodes@ == old(self).nodes@.push(Node { op, a: x, b: y, c: z }),
            final(self).consts@ == old(self).consts@,
            id == old(self).nodes@.len(),
    {
        self.push(Node { op, a: x, b: y, c: z })
    }

    /// fold(init, body)
    pub fn fold(&mut self, init: u32, body: u32) -> (id: u32)
        requires
            old(self).inv(),
            old(self).has_room(1),
            old(self).valid(init),
            old(self).valid(body),
        ensures
            final(self).inv(),
            final(self).nodes@ == old(self).nodes@.push(
                Node { op: Op::Fold, a: init, b: body, c: 0 },
            ),
            final(self).consts@ == old(self).consts@,
            id == old(self).nodes@.len(),
    {
        self.push(Node { op: Op::Fold, a: init, b: body, c: 0 })
    }

    /// Seal the arena with `root`, computing the structural hash.
    pub fn finish(self, root: u32) -> (t: Term)
        requires
            self.inv(),
            self.valid(root),
        ensures
            t.wf(),
            t.nodes@ == self.nodes@,
            t.consts@ == self.consts@,
            t.root == root,
    {
        let mut h: u64 = 0xcbf29ce484222325;
        let mut i: usize = 0;
        while i < self.nodes.len()
            invariant
                i <= self.nodes@.len(),
                h == hash_nodes(0xcbf29ce484222325u64, self.nodes@.take(i as int)),
            decreases self.nodes@.len() - i,
        {
            assert(self.nodes@.take(i + 1).drop_last() =~= self.nodes@.take(i as int));
            let n = self.nodes[i];
            h = mix_exec(h, n.op.code());
            h = mix_exec(h, n.a as u64);
            h = mix_exec(h, n.b as u64);
            h = mix_exec(h, n.c as u64);
            i += 1;
        }
        assert(self.nodes@.take(self.nodes@.len() as int) =~= self.nodes@);
        h = mix_exec(h, root as u64);
        let ghost h0 = h;
        let mut k: usize = 0;
        while k < self.consts.len()
            invariant
                k <= self.consts@.len(),
                h == hash_lits(h0, lits_view(self.consts@).take(k as int)),
            decreases self.consts@.len() - k,
        {
            assert(lits_view(self.consts@).take(k + 1).drop_last() =~= lits_view(
                self.consts@,
            ).take(k as int));
            h = hash_lit_exec(h, &self.consts[k]);
            k += 1;
        }
        assert(lits_view(self.consts@).take(self.consts@.len() as int) =~= lits_view(
            self.consts@,
        ));
        Term { nodes: self.nodes, consts: self.consts, root, hash: h }
    }
}

fn hash_lit_exec(h: u64, l: &ConstLit) -> (r: u64)
    ensures
        r == hash_lit(h, lit_view(*l)),
{
    match l {
        ConstLit::Bits(b) => mix_exec(mix_exec(h, 1), *b),
        ConstLit::Decimal(t) => {
            let mut g = mix_exec(h, 2);
            let ghost g0 = g;
            let mut i: usize = 0;
            while i < t.len()
                invariant
                    i <= t@.len(),
                    g == hash_chars(g0, t@.take(i as int)),
                decreases t@.len() - i,
            {
                assert(t@.take(i + 1).drop_last() =~= t@.take(i as int));
                g = mix_exec(g, t[i] as u64);
                i += 1;
            }
            assert(t@.take(t@.len() as int) =~= t@);
            mix_exec(g, t.len() as u64)
        },
    }
}

} // verus!
