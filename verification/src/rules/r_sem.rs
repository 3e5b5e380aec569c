//! Rules with reviewed algebraic proofs: the route for what is decidable in
//! principle but infeasible in practice for the solver (it bit-blasts
//! Float64 commutativity into a SAT instance it cannot close in reasonable
//! time, while the IEEE-754 argument is one paragraph).
use vstd::prelude::*;
use crate::rules::{rule_is, Rule, RuleClass};

verus! {

pub const COMM_PROOF: &'static str = "
THEOREM (commutativity of fp.add / fp.mul, any IEEE-754 format, any rounding
mode). Let \u{2218} \u{2208} {+, \u{d7}} on the extended reals and rnd the rounding function.
IEEE-754 \u{a7}5.4 defines fp-op(a,b) = rnd(a \u{2218} b) for non-exceptional cases, with
exceptional cases (NaN propagation, \u{221e} arithmetic, zero-sign rules \u{a7}6.3)
defined symmetrically in the operands for + and \u{d7}:
  * a \u{2218} b = b \u{2218} a on the extended reals (commutativity of exact + and \u{d7});
  * rnd is a function of the exact value alone \u{21d2} rnd(a\u{2218}b) = rnd(b\u{2218}a);
  * NaN: if either operand is NaN the result is NaN (SMT FP theory has a
    single NaN, so the propagated payload question does not arise there;
    in Rust the payload of (NaN_p + x) vs (x + NaN_p) is the same operand's
    payload \u{2014} object equality holds at the level our metric observes);
  * zero signs: (+0)+(\u{2212}0) = (\u{2212}0)+(+0) = +0 under RNE (\u{a7}6.3, symmetric rule);
    \u{b1}0 products get sign = XOR of operand signs \u{2014} symmetric.
Hence fp.add and fp.mul are commutative. \u{220e}
NOTE this argument does NOT extend to fp.min/fp.max (\u{b1}0 order unspecified,
\u{a7}5.3.1 minNum) \u{2014} those stay OUT of the rule set, as measured by SMT.
";

pub fn table() -> (r: Vec<Rule>)
    ensures
        r@.len() == 2,
        rule_is(r@[0], "add-comm"@, "(+ ?a ?b)"@, "(+ ?b ?a)"@),
        rule_is(r@[1], "mul-comm"@, "(* ?a ?b)"@, "(* ?b ?a)"@),
        forall|i: int|
            0 <= i < 2 ==> (#[trigger] r@[i].class matches RuleClass::Sem { proof } && proof@
                == COMM_PROOF@),
{
    vec![
        Rule {
            name: "add-comm",
            lhs: "(+ ?a ?b)",
            rhs: "(+ ?b ?a)",
            class: RuleClass::Sem { proof: COMM_PROOF },
        },
        Rule {
            name: "mul-comm",
            lhs: "(* ?a ?b)",
            rhs: "(* ?b ?a)",
            class: RuleClass::Sem { proof: COMM_PROOF },
        },
    ]
}

} // verus!
