use dge::emit::emit_rust;
use dge::optimize::{cert_doc, cert_rules};
use dge::harness::{Certificate, EnvFingerprint};
use dge::sigma::Op;
use dge::term::{ConstLit, Term, TermBuilder};

fn lit_text(c: &ConstLit) -> String {
    let v = match c {
        ConstLit::Bits(b) => f64::from_bits(*b),
        ConstLit::Decimal(d) => d.iter().collect::<String>().parse::<f64>().unwrap(),
    };
    if v.is_nan() || v.is_infinite() {
        format!("f64::from_bits(0x{:016x})", v.to_bits())
    } else {
        format!("{v:?}_f64")
    }
}

fn lits(t: &Term) -> Vec<String> {
    t.consts.iter().map(lit_text).collect()
}

const HEAD: &str = "// AUTO-GENERATED by dge emit \u{2014} do not hand-edit.\n\
// Re-run the pipeline instead; hand edits VOID the certificate.\n";

#[test]
fn shared_subterm_becomes_a_let() {
    let mut b = TermBuilder::new();
    let x = b.var(0);
    let y = b.var(1);
    let s = b.binary(Op::Add, x, y);
    let root = b.binary(Op::Mul, s, s);
    let t = b.finish(root);
    let code = emit_rust(&t, "sq", None, &lits(&t));
    let want = format!(
        "{HEAD}/// UNCERTIFIED emission \u{2014} gate before use.\n\
         #[allow(unused_parens, clippy::all)]\n\
         pub fn sq(v0: f64, v1: f64) -> f64 {{\n    let t2 = (v0 + v1);\n    (t2 * t2)\n}}\n"
    );
    assert_eq!(code, want);
}

#[test]
fn fold_prints_as_a_loop_over_the_sequence() {
    let mut b = TermBuilder::new();
    let z = b.constant(ConstLit::Bits(0.0f64.to_bits()));
    let a = b.acc();
    let e = b.elem(0);
    let body = b.binary(Op::Add, a, e);
    let f = b.fold(z, body);
    let t = b.finish(f);
    let code = emit_rust(&t, "sum", None, &lits(&t));
    let want = format!(
        "{HEAD}/// UNCERTIFIED emission \u{2014} gate before use.\n\
         #[allow(unused_parens, clippy::all)]\n\
         pub fn sum(s0: &[f64]) -> f64 {{\n    ({{ let mut __acc = 0.0_f64;                        for __i in 0..s0.len() {{ __acc = (__acc + s0[__i]); }} __acc }})\n}}\n"
    );
    assert_eq!(code, want);
}

#[test]
fn select_on_a_comparison_prints_an_if() {
    let mut b = TermBuilder::new();
    let x = b.var(0);
    let y = b.var(1);
    let c = b.binary(Op::Lt, x, y);
    let half = b.constant(ConstLit::Decimal("0.5".chars().collect()));
    let m = b.binary(Op::Mul, x, half);
    let s = b.ternary(Op::Select, c, m, y);
    let t = b.finish(s);
    let code = emit_rust(&t, "pick", None, &lits(&t));
    assert!(code.contains("    (if v0 < v1 { (v0 * 0.5_f64) } else { v1 })\n"), "{code}");
}

#[test]
fn comparison_as_a_value_and_specials() {
    let mut b = TermBuilder::new();
    let x = b.var(0);
    let nan = b.constant(ConstLit::Bits(f64::NAN.to_bits()));
    let lt = b.binary(Op::Lt, x, nan);
    let sq = b.unary(Op::Sqrt, lt);
    let t = b.finish(sq);
    let code = emit_rust(&t, "f", None, &lits(&t));
    assert!(
        code.contains("    ((v0 < f64::from_bits(0x7ff8000000000000)) as u8 as f64).sqrt()\n"),
        "{code}"
    );
}

#[test]
fn large_arity_uses_an_array_parameter() {
    let mut b = TermBuilder::new();
    let x = b.var(9);
    let y = b.var(0);
    let s = b.binary(Op::Min, x, y);
    let t = b.finish(s);
    let code = emit_rust(&t, "wide", None, &lits(&t));
    assert!(code.contains("pub fn wide(v: &[f64; 10]) -> f64 {\n    v[9].min(v[0])\n}\n"), "{code}");
}

#[test]
fn certificate_travels_as_doc_comment() {
    let mut b = TermBuilder::new();
    let x = b.var(0);
    let n = b.unary(Op::Neg, x);
    let t = b.finish(n);
    let cert = Certificate {
        claim_text: "Tier A".to_string(),
        rule_trace: vec!["neg-neg".to_string(), "mul-one".to_string()],
        env: EnvFingerprint {
            target_triple: "x86_64-unknown-linux-gnu".to_string(),
            fma: true,
            avx: false,
            libm: "behavioral:00ff".to_string(),
        },
    };
    let code = emit_rust(&t, "g", Some(&cert), &lits(&t));
    let want = format!(
        "{HEAD}/// CERTIFIED: Tier A\n/// rules applied: neg-neg, mul-one\n\
         /// env: x86_64-unknown-linux-gnu fma=true avx=false libm=behavioral:00ff\n\
         #[allow(unused_parens, clippy::all)]\npub fn g(v0: f64) -> f64 {{\n    (-v0)\n}}\n"
    );
    assert_eq!(code, want);
}

#[test]
fn emitted_rules_are_read_back() {
    let mut b = TermBuilder::new();
    let x = b.var(0);
    let y = b.var(1);
    let s = b.binary(Op::Add, x, y);
    let t = b.finish(s);
    let rules = vec!["add-comm".to_string(), "fma-contract~".to_string(), "x".to_string()];
    let cert = Certificate {
        claim_text: "Tier B n=10000".to_string(),
        rule_trace: rules.clone(),
        env: EnvFingerprint {
            target_triple: "aarch64".to_string(),
            fma: false,
            avx: false,
            libm: "behavioral:1".to_string(),
        },
    };
    let code = emit_rust(&t, "h", Some(&cert), &lits(&t));
    assert_eq!(cert_rules(&code), rules);
    assert!(cert_doc(&code).starts_with("/// CERTIFIED: Tier B n=10000\n/// rules applied: "));
}

#[test]
fn nonfinite_values_are_spelled_by_their_bits() {
    use_nonfinite();
}

fn use_nonfinite() {
    assert_eq!(
        dge::fmt::nonfinite_literal(f64::INFINITY.to_bits()).as_deref(),
        Some("f64::from_bits(0x7ff0000000000000)")
    );
    assert_eq!(
        dge::fmt::nonfinite_literal(0xfff8_0000_0000_0001).as_deref(),
        Some("f64::from_bits(0xfff8000000000001)")
    );
    assert_eq!(dge::fmt::nonfinite_literal(1.5f64.to_bits()), None);
    assert_eq!(dge::fmt::nonfinite_literal(0), None);
}
