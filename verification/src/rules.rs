//! Refactoring rules: each rewrite l → r carries its obligation class.
//! Whole-system correctness reduces to per-rule obligations; no rule enters
//! the active set unproved.
pub mod lang;
pub mod r_approx;
pub mod r_sem;

use vstd::prelude::*;
use crate::harness::VerifiedTerm;

verus! {

/// One rewrite rule l → r with its obligation class.
pub struct Rule {
    pub name: &'static str,
    /// s-expression patterns over Σ with pattern vars ?a ?b … (f64 literals
    /// allowed; they are translated to bitwise tokens for the e-graph)
    pub lhs: &'static str,
    pub rhs: &'static str,
    pub class: RuleClass,
}

pub enum RuleClass {
    /// [[l]] = [[r]] in QF_FP, with an UNSAT artifact stored on disk
    Dec,
    /// a reviewed algebraic proof, compiled into the source
    Sem { proof: &'static str },
    /// sound only up to ε; a Tier B equivalence test is mandatory after use
    Approx { rationale: &'static str },
}

/// `r` is the rule `name: lhs → rhs`.
pub open spec fn rule_is(r: Rule, name: Seq<char>, lhs: Seq<char>, rhs: Seq<char>) -> bool {
    r.name@ == name && r.lhs@ == lhs && r.rhs@ == rhs
}

pub struct RefactorOutcome {
    pub verified: VerifiedTerm,
    pub rule_trace: Vec<String>,
    pub cost_before: u64,
    pub cost_after: u64,
    pub budget_hit: bool,
}

} // verus!
