use dge::sigma::Op;
use dge::term::{ConstLit, Term, TermBuilder};

fn poly() -> Term {
    let mut b = TermBuilder::new();
    let two = b.constant(ConstLit::Bits(2.0f64.to_bits()));
    let x = b.var(0);
    let three = b.constant(ConstLit::Bits(3.0f64.to_bits()));
    let inner = b.ternary(Op::Fma, two, x, three);
    let one = b.constant(ConstLit::Bits(1.0f64.to_bits()));
    let root = b.ternary(Op::Fma, inner, x, one);
    b.finish(root)
}

#[test]
fn hash_is_structural_and_bitwise_on_consts() {
    let a = poly();
    let b = poly();
    assert_eq!(a.hash, b.hash);
    assert!(a.structurally_eq(&b));

    let mk = |z: f64| {
        let mut b = TermBuilder::new();
        let c = b.constant(ConstLit::Bits(z.to_bits()));
        b.finish(c)
    };
    let pos = mk(0.0);
    let neg = mk(-0.0);
    assert_ne!(pos.hash, neg.hash);
    assert!(!pos.structurally_eq(&neg));
}

#[test]
fn arity_and_seq_count_are_payload_bounds() {
    let mut b = TermBuilder::new();
    let x = b.var(2);
    let e = b.elem(1);
    let s = b.binary(Op::Add, x, e);
    let t = b.finish(s);
    assert_eq!(t.arity(), 3);
    assert_eq!(t.seq_count(), 2);
    assert_eq!(t.len(), 3);
    assert!(!t.has_fold());
}

#[test]
fn fold_owners_reports_binder_escape() {
    let mut b = TermBuilder::new();
    let a = b.acc();
    let one = b.constant(ConstLit::Bits(1.0f64.to_bits()));
    let s = b.binary(Op::Add, a, one);
    let t = b.finish(s);
    assert!(t.fold_owners().is_err());
}

#[test]
fn fold_owners_assigns_the_body_to_its_fold() {
    let mut b = TermBuilder::new();
    let z = b.constant(ConstLit::Bits(0.0f64.to_bits()));
    let a = b.acc();
    let e = b.elem(0);
    let body = b.binary(Op::Add, a, e);
    let f = b.fold(z, body);
    let t = b.finish(f);
    let o = t.fold_owners().expect("valid binders");
    assert_eq!(o, vec![None, Some(4), Some(4), Some(4), None]);
    assert!(t.has_fold());
}

#[test]
fn decimal_constants_compare_by_text() {
    let mk = |s: &str| {
        let mut b = TermBuilder::new();
        let c = b.constant(ConstLit::Decimal(s.chars().collect()));
        b.finish(c)
    };
    assert!(mk("1.5").structurally_eq(&mk("1.5")));
    assert_eq!(mk("1.5").hash, mk("1.5").hash);
    assert!(!mk("1.5").structurally_eq(&mk("2.5")));
}
