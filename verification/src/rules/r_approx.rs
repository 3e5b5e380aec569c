//! Rules sound only up to ε: admissible only in eps-mode, and then a Tier B
//! equivalence test on the extraction is mandatory — such a rule is a search
//! move, not a proof.
use vstd::prelude::*;
use crate::rules::{rule_is, Rule, RuleClass};

verus! {

pub open spec fn approx_because(r: Rule, why: Seq<char>) -> bool {
    r.class matches RuleClass::Approx { rationale } && rationale@ == why
}

pub fn table() -> (r: Vec<Rule>)
    ensures
        r@.len() == 5,
        rule_is(r@[0], "add-assoc~"@, "(+ (+ ?a ?b) ?c)"@, "(+ ?a (+ ?b ?c))"@),
        rule_is(r@[1], "mul-dist~"@, "(* ?a (+ ?b ?c))"@, "(+ (* ?a ?b) (* ?a ?c))"@),
        rule_is(r@[2], "mul-factor~"@, "(+ (* ?a ?b) (* ?a ?c))"@, "(* ?a (+ ?b ?c))"@),
        rule_is(r@[3], "mul-factor-r~"@, "(+ (* ?b ?a) (* ?c ?a))"@, "(* (+ ?b ?c) ?a)"@),
        rule_is(r@[4], "fma-contract~"@, "(+ (* ?a ?b) ?c)"@, "(fma ?a ?b ?c)"@),
        approx_because(r@[0], "f64 rounding order"@),
        approx_because(r@[1], "f64 rounding order"@),
        approx_because(r@[2], "f64 rounding order (reverse dist)"@),
        approx_because(r@[3], "f64 rounding order (reverse dist)"@),
        approx_because(
            r@[4],
            "exact vs double rounding; unbounded ULP under cancellation \u{2014} gate with mixed abs/rel eps"@,
        ),
{
    vec![
        Rule {
            name: "add-assoc~",
            lhs: "(+ (+ ?a ?b) ?c)",
            rhs: "(+ ?a (+ ?b ?c))",
            class: RuleClass::Approx { rationale: "f64 rounding order" },
        },
        Rule {
            name: "mul-dist~",
            lhs: "(* ?a (+ ?b ?c))",
            rhs: "(+ (* ?a ?b) (* ?a ?c))",
            class: RuleClass::Approx { rationale: "f64 rounding order" },
        },
        // factoring is the reverse direction; needed because e-graph
        // rewrites only add the rhs shape, so Horner forms are unreachable
        // without it
        Rule {
            name: "mul-factor~",
            lhs: "(+ (* ?a ?b) (* ?a ?c))",
            rhs: "(* ?a (+ ?b ?c))",
            class: RuleClass::Approx { rationale: "f64 rounding order (reverse dist)" },
        },
        Rule {
            name: "mul-factor-r~",
            lhs: "(+ (* ?b ?a) (* ?c ?a))",
            rhs: "(* (+ ?b ?c) ?a)",
            class: RuleClass::Approx { rationale: "f64 rounding order (reverse dist)" },
        },
        // fma contraction is not within one ULP: under catastrophic
        // cancellation (a*b ≈ -c) the plain form's multiply rounding becomes
        // an O(1) relative error in the small result. The honest ε for this
        // rule is a mixed abs/rel tolerance.
        Rule {
            name: "fma-contract~",
            lhs: "(+ (* ?a ?b) ?c)",
            rhs: "(fma ?a ?b ?c)",
            class: RuleClass::Approx {
                rationale: "exact vs double rounding; unbounded ULP under cancellation \u{2014} gate with mixed abs/rel eps",
            },
        },
    ]
}

} // verus!
