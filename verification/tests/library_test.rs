use dge::gp::{random_node_id, swap_candidates, RepairParams};
use dge::mutate::op_swaps;
use dge::jit::LowerConfig;
use dge::lift::inject_no_mangle;
use dge::locate::Spectrum;
use dge::optimize::{FnOutcome, Status, Summary};
use dge::rules::lang::{pattern_literals, translate_pattern, ConstBits, ElemIdx, LenIdx, VarIdx};
use dge::rules::{r_approx, r_sem, RuleClass};
use dge::scopes::{Binding, Scopes};
use dge::sigma::Op;
use dge::term::{ConstLit, TermBuilder};
use dge::trial::{lift_from_shim, try_ir, DoorOutcome};

// ------------------------------------------------------------- scopes --

fn node_of(b: Option<&Binding>) -> Option<u32> {
    match b {
        Some(Binding::Node(n)) => Some(*n),
        _ => None,
    }
}

#[test]
fn lookup_goes_innermost_out() {
    let mut sc = Scopes::new();
    sc.declare("x", Binding::Node(1));
    sc.declare("y", Binding::Node(2));
    sc.push_frame();
    sc.declare("x", Binding::Node(3));
    assert_eq!(node_of(sc.find_binding("x")), Some(3));
    assert_eq!(node_of(sc.find_binding("y")), Some(2));
    assert!(sc.find_binding("z").is_none());
    sc.pop_frame();
    assert_eq!(node_of(sc.find_binding("x")), Some(1));
}

#[test]
fn rebind_writes_the_declaring_frame() {
    let mut sc = Scopes::new();
    sc.declare("acc", Binding::Node(1));
    sc.push_frame();
    sc.declare("i", Binding::LoopIdx);
    assert!(sc.rebind("acc", Binding::Node(7)));
    assert_eq!(node_of(sc.find_binding("acc")), Some(7));
    assert!(matches!(sc.find_binding("i"), Some(Binding::LoopIdx)));
    sc.pop_frame();
    // the assignment escaped the inner frame
    assert_eq!(node_of(sc.find_binding("acc")), Some(7));
    assert!(!sc.rebind("nope", Binding::Foreign));
    assert!(sc.find_binding("nope").is_none());
}

#[test]
fn redeclaring_in_a_frame_replaces() {
    let mut sc = Scopes::new();
    sc.declare("s", Binding::Sequence(0));
    sc.declare("s", Binding::Int(4));
    assert!(matches!(sc.find_binding("s"), Some(Binding::Int(4))));
}

// ----------------------------------------------------------- no_mangle --

#[test]
fn no_mangle_goes_above_the_defining_line() {
    let src = "// f\npub fn f(x: f64) -> f64 {\n    x\n}\n";
    assert_eq!(
        inject_no_mangle(src, "f").unwrap(),
        "// f\n#[no_mangle]\npub fn f(x: f64) -> f64 {\n    x\n}\n"
    );
}

#[test]
fn no_mangle_is_word_bounded_and_idempotent() {
    let src = "fn ff() {}\nfn f<T>(t: T) {}\n";
    let once = inject_no_mangle(src, "f").unwrap();
    assert_eq!(once, "fn ff() {}\n#[no_mangle]\nfn f<T>(t: T) {}\n");
    assert_eq!(inject_no_mangle(&once, "f").unwrap(), once);
    assert_eq!(inject_no_mangle("fn f", "f").unwrap(), "#[no_mangle]\nfn f");
}

#[test]
fn no_mangle_reports_a_missing_function() {
    assert_eq!(inject_no_mangle("fn g() {}", "f"), Err("`fn f` not found in source".to_string()));
    assert_eq!(inject_no_mangle("fn ff() {}", "f"), Err("`fn f` not found in source".to_string()));
}

// ------------------------------------------------------------ IR door --

const IR_OK: &str = "define double @area(double %0) {\nstart:\n  %1 = fmul double %0, %0\n  ret double %1\n}\n";

#[test]
fn ir_door_outcome() {
    let (o, t) = try_ir(Ok(IR_OK.to_string()), "area");
    let t = t.expect("lifted");
    assert_eq!(o, DoorOutcome::Admitted { nodes: t.len() });
    assert_eq!(t.len(), 2);

    let (o, t) = try_ir(Err("rustc failed".to_string()), "area");
    assert_eq!(o, DoorOutcome::Refused("rustc failed".to_string()));
    assert!(t.is_none());

    let (o, t) = try_ir(Ok(IR_OK.to_string()), "missing");
    assert!(matches!(o, DoorOutcome::Refused(_)));
    assert!(t.is_none());
}

#[test]
fn shim_falls_back_on_opaque_calls_only() {
    let shim = "define double @dge_trial(double %0) {\nstart:\n  %1 = call double @opaque(double %0)\n  ret double %1\n}\n\
                define double @inner(double %0) {\nstart:\n  %1 = fadd double %0, %0\n  ret double %1\n}\n";
    let t = lift_from_shim(shim, "inner").expect("fell back to the instantiation");
    assert_eq!(t.len(), 2);
    // a refusal that is not about the libm map is reported as is
    let bad = "define double @dge_trial(double %0) {\nstart:\n  %1 = load double, ptr %p\n  ret double %1\n}\n";
    let e = lift_from_shim(bad, "inner").unwrap_err();
    assert!(e.starts_with("refused: "), "{e}");
    assert!(!e.contains("direct instantiation"), "{e}");
    // both refuse: both reasons
    let e2 = lift_from_shim(shim, "nowhere").unwrap_err();
    assert!(e2.starts_with("refused: call @opaque"), "{e2}");
    assert!(e2.contains("libm map"), "{e2}");
    assert!(e2.contains("; direct instantiation also refused: no `define double @"), "{e2}");
}

// ----------------------------------------------------- lang and tables --

#[test]
fn tokens_round_trip() {
    let one = ConstBits(1.0f64.to_bits());
    assert_eq!(one.to_token(), "c3ff0000000000000");
    assert_eq!(ConstBits::parse("c3ff0000000000000"), Ok(one));
    assert_eq!(ConstBits::parse(&ConstBits((-0.0f64).to_bits()).to_token()), Ok(ConstBits(1 << 63)));
    assert!(ConstBits::parse("3ff0000000000000").is_err());
    assert!(ConstBits::parse("c3ff").is_err());
    assert!(ConstBits::parse("c3ff000000000000g").is_err());
    assert_eq!(ElemIdx(3).to_token(), "e3");
    assert_eq!(LenIdx(0).to_token(), "L0");
    assert_eq!(VarIdx(42).to_token(), "v42");
    assert_eq!(ElemIdx::parse("e12"), Ok(ElemIdx(12)));
    assert_eq!(LenIdx::parse(&LenIdx(0).to_token()), Ok(LenIdx(0)));
    assert_eq!(VarIdx::parse(&VarIdx(42).to_token()), Ok(VarIdx(42)));
    assert!(VarIdx::parse("v").is_err());
    assert!(VarIdx::parse("vx").is_err());
    assert!(ElemIdx::parse("L1").is_err());
}

#[test]
fn patterns_translate_their_literals() {
    let src = "(* ?a 1.0)";
    let lits = pattern_literals(src);
    assert_eq!(lits, vec!["1.0".to_string()]);
    let bits: Vec<u64> = lits.iter().map(|l| l.parse::<f64>().unwrap().to_bits()).collect();
    assert_eq!(translate_pattern(src, &bits), "(* ?a c3ff0000000000000)");
    let src2 = "(fma ?a -2.5 (+ ?b 0.0))";
    let lits2 = pattern_literals(src2);
    assert_eq!(lits2, vec!["-2.5".to_string(), "0.0".to_string()]);
    let bits2: Vec<u64> = lits2.iter().map(|l| l.parse::<f64>().unwrap().to_bits()).collect();
    assert_eq!(translate_pattern(src2, &bits2), "(fma ?a cc004000000000000 (+ ?b c0000000000000000))");
    assert_eq!(translate_pattern("(+ ?a ?b)", &[]), "(+ ?a ?b)");
}

#[test]
fn rule_tables_hold_their_rules() {
    let sem = r_sem::table();
    assert_eq!(sem.len(), 2);
    assert_eq!((sem[0].name, sem[0].lhs, sem[0].rhs), ("add-comm", "(+ ?a ?b)", "(+ ?b ?a)"));
    assert!(matches!(sem[1].class, RuleClass::Sem { .. }));
    let ap = r_approx::table();
    assert_eq!(ap.len(), 5);
    assert_eq!(ap[4].rhs, "(fma ?a ?b ?c)");
    assert!(ap.iter().all(|r| matches!(r.class, RuleClass::Approx { .. })));
}

// --------------------------------------------------- smaller components --

#[test]
fn spectrum_counts_each_quadrant() {
    // 3 tests over 2 nodes; test 1 failed
    let s = Spectrum {
        covered: vec![true, false, false, true, true, true],
        failed: vec![false, true, false],
        n_nodes: 2,
    };
    assert_eq!(s.counts(0), (0, 2, 1, 0));
    assert_eq!(s.counts(1), (1, 1, 0, 1));
}

#[test]
fn summary_counts_statuses() {
    let o = |status| FnOutcome { file: "a.rs".to_string(), name: "f".to_string(), status };
    let s = Summary {
        outcomes: vec![
            o(Status::Rewritten { cost_before: 3, cost_after: 2, rules: vec![] }),
            o(Status::Refused("x".to_string())),
            o(Status::Skipped("y".to_string())),
            o(Status::Rewritten { cost_before: 1, cost_after: 1, rules: vec![] }),
            o(Status::CertifiedNotInPlace("z".to_string())),
        ],
        files_written: vec![],
        discharged: false,
        dry_run: true,
    };
    assert_eq!(s.rewritten(), 2);
    assert_eq!(s.refused(), 1);
    assert_eq!(Summary::default().rewritten(), 0);
}

#[test]
fn random_node_is_the_draw_modulo_size() {
    let mut b = TermBuilder::new();
    let x = b.var(0);
    let c = b.constant(ConstLit::Bits(2.0f64.to_bits()));
    let m = b.binary(Op::Mul, x, c);
    let t = b.finish(m);
    assert_eq!(random_node_id(&t, 0), 0);
    assert_eq!(random_node_id(&t, 7), 1);
    assert_eq!(random_node_id(&t, u64::MAX), (u64::MAX % 3) as u32);
}

#[test]
fn repair_and_lowering_defaults() {
    let p = RepairParams::default();
    assert_eq!((p.top_k, p.gp_budget_gens, p.samples), (5, 30, 32));
    let _ = LowerConfig::default();
}

#[test]
fn swap_tables() {
    assert_eq!(op_swaps(Op::Sin), vec![Op::Cos, Op::Tan]);
    assert_eq!(op_swaps(Op::Exp), vec![Op::Ln]);
    assert_eq!(op_swaps(Op::Fma), Vec::<Op>::new());
    assert_eq!(swap_candidates(Op::Sin), vec![Op::Cos]);
    assert_eq!(swap_candidates(Op::Div), vec![Op::Mul, Op::Sub]);
    assert_eq!(swap_candidates(Op::Exp), Vec::<Op>::new());
    for op in [Op::Add, Op::Sub, Op::Mul, Op::Div, Op::Min, Op::Max, Op::Sin, Op::Cos, Op::Exp, Op::Ln, Op::Neg, Op::Abs, Op::Floor, Op::Ceil] {
        for to in op_swaps(op).into_iter().chain(swap_candidates(op)) {
            assert_eq!(to.arity(), op.arity(), "{op:?} -> {to:?}");
        }
    }
}
