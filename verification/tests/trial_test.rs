use dge::trial::{bucket, DoorOutcome, FnTrial, TrialReport};

fn fn_trial(name: &str, syn: DoorOutcome, ir: DoorOutcome, cross: Option<Result<(), String>>) -> FnTrial {
    FnTrial {
        file: "kernels.rs".to_string(),
        name: name.to_string(),
        syn,
        ir,
        cross_gate: cross,
    }
}

fn fixture() -> TrialReport {
    TrialReport {
        fns: vec![
            fn_trial(
                "poly",
                DoorOutcome::Admitted { nodes: 9 },
                DoorOutcome::Admitted { nodes: 9 },
                Some(Ok(())),
            ),
            fn_trial(
                "dot3",
                DoorOutcome::Refused("Unsupported(\"method call `iter`\")".to_string()),
                DoorOutcome::Admitted { nodes: 7 },
                None,
            ),
            fn_trial(
                "halve",
                DoorOutcome::Refused("Unsupported(\"while loop\")".to_string()),
                DoorOutcome::Refused(
                    "P2 fold recognition: loop header shape not recognized".to_string(),
                ),
                None,
            ),
        ],
    }
}

#[test]
fn render_counts_both_doors() {
    let text = fixture().render();
    assert!(text.starts_with("FIELD TRIAL: 3 fns audited\n"), "{text}");
    assert!(text.contains("syn door admits : 1"), "{text}");
    assert!(text.contains("IR  door admits : 2"), "{text}");
    assert!(text.contains("1 of them REFUSED by syn"), "{text}");
    assert!(text.contains("1/1 agree"), "{text}");
}

#[test]
fn render_histogram_and_detail_lines() {
    let text = fixture().render();
    assert!(
        text.contains("\n     1  P2+ (loop shape beyond canonical fold)\n"),
        "{text}"
    );
    let poly_line = format!("  {:30} syn=OK(9n) ir=OK(9n) gate=AGREE\n", "poly");
    assert!(text.contains(&poly_line), "{text}");
    let halve_line = format!(
        "  {:30} syn=refused[other (see raw reasons)] ir=refused[P2+ (loop shape beyond canonical fold)]\n",
        "halve"
    );
    assert!(text.contains(&halve_line), "{text}");
}

#[test]
fn render_exact_small_report() {
    let rep = TrialReport {
        fns: vec![fn_trial(
            "f",
            DoorOutcome::Refused("rustc failed: E0425".to_string()),
            DoorOutcome::Refused("refused: P3 memory".to_string()),
            Some(Err("DOORS DISAGREE".to_string())),
        )],
    };
    let mut want = String::new();
    want.push_str("FIELD TRIAL: 1 fns audited\n");
    want.push_str("  syn door admits : 0\n");
    want.push_str("  IR  door admits : 0  (0 of them REFUSED by syn \u{2014} the IR door's added coverage)\n");
    want.push_str("  cross-door gate : 0/1 agree bitwise over 2e3 mu' samples\n");
    want.push_str("  !! f: DOORS DISAGREE\n");
    want.push_str("\nIR-door refusal histogram (the roadmap pricing data):\n");
    want.push_str("     1  P3 (memory / side effects)\n");
    want.push_str("\nper-fn detail:\n");
    want.push_str(&format!(
        "  {:30} syn=refused[not in the crate's public API (shim)] ir=refused[P3 (memory / side effects)] gate=DISAGREE!\n",
        "f"
    ));
    want.push_str("\nraw IR refusal reasons (all `other`, one sample per named bucket):\n");
    want.push_str(&format!("  {:30} [P3 (memory / side effects)] refused: P3 memory\n", "f"));
    want.push_str("\nraw syn refusal reasons (all `other`, one sample per named bucket):\n");
    want.push_str(&format!(
        "  {:30} [not in the crate's public API (shim)] rustc failed: E0425\n",
        "f"
    ));
    assert_eq!(rep.render(), want);
}

#[test]
fn histogram_orders_by_count_then_name() {
    let r = |s: &str| DoorOutcome::Refused(s.to_string());
    let ok = DoorOutcome::Admitted { nodes: 1 };
    let rep = TrialReport {
        fns: vec![
            fn_trial("a", ok.clone(), r("uses fast-math flags"), None),
            fn_trial("b", ok.clone(), r("P3 store"), None),
            fn_trial("c", ok.clone(), r("fast-math again"), None),
            fn_trial("d", ok.clone(), r("call outside the closed libm map"), None),
        ],
    };
    let text = rep.render();
    let fm = text.find("     2  fast-math flags\n").expect("fast-math row");
    let p3 = text.find("     1  P3 (memory / side effects)\n").expect("P3 row");
    let lm = text.find("     1  call outside the closed libm map\n").expect("libm row");
    assert!(fm < p3 && p3 < lm, "{text}");
}

#[test]
fn raw_section_samples_each_named_bucket_once() {
    let r = |s: &str| DoorOutcome::Refused(s.to_string());
    let rep = TrialReport {
        fns: vec![
            fn_trial("a", r("x"), r("P3 one"), None),
            fn_trial("b", r("y"), r("P3 two"), None),
            fn_trial("c", r("z"), r("mystery"), None),
            fn_trial("d", r("w"), r("mystery two"), None),
        ],
    };
    let text = rep.render();
    assert!(text.contains("] P3 one\n"));
    assert!(!text.contains("] P3 two\n"));
    assert!(text.contains("] mystery\n"));
    assert!(text.contains("] mystery two\n"));
}

#[test]
fn bucket_follows_the_rule_order() {
    assert_eq!(bucket("error[E0277]: trait bound"), "generic bounds not f64-instantiable (shim)");
    assert_eq!(bucket("cannot find function"), "not in the crate's public API (shim)");
    assert_eq!(bucket("rustc failed (shim): x"), "shim-build-failed");
    assert_eq!(bucket("method takes self; P2"), "method receiver (no IR shim; syn door audits &self readers)");
    assert_eq!(bucket("rustc failed: no such file"), "build-failed (not standalone-compilable)");
    assert_eq!(bucket("no `define double @f` found"), "no-ir-symbol (generic or not codegen'd)");
    assert_eq!(
        bucket("P2 fold recognition: panic/assert path"),
        "panic path (partial fn -- totality effort, audit class)"
    );
    assert_eq!(bucket("P3 memory"), "P3 (memory / side effects)");
    assert_eq!(bucket("P2 shape"), "P2+ (loop shape beyond canonical fold)");
    assert_eq!(bucket("outside the closed libm map (29 symbols)"), "call outside the closed libm map");
    assert_eq!(bucket("fast-math flag"), "fast-math flags");
    assert_eq!(bucket("frem has no Σ symbol"), "op outside Σ");
    assert_eq!(bucket("non-double param"), "non-f64 types");
    assert_eq!(bucket("something else"), "other (see raw reasons)");
    assert_eq!(bucket("f32 signature"), "f32 signature (no IR shim; syn door reads f32 via Rnd32)");
    assert_eq!(bucket("mutable method receiver"), "&mut self (effectful method -- audit's effort/P3 class)");
    assert_eq!(
        bucket("non-f64 receiver field `n`"),
        "reads non-f64 receiver state (Sigma is f64-only)"
    );
    assert_eq!(bucket("unsupported signature (shim)"), "unsupported signature (shim)");
}
