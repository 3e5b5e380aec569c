use dge::inplace::{
    apply_edits, build_slotmap, lc_to_byte, plan_rewrite, refusal, settle, FnLoc, ParamKind, SigArg,
};
use dge::optimize::{line_starts, Status};

fn strings(v: &[&str]) -> Vec<String> {
    v.iter().map(|s| s.to_string()).collect()
}

#[test]
fn line_and_column_map_to_bytes() {
    let src = "fn a() {}\n  fn \u{e9}b() {}\nlast";
    let ls = line_starts(src);
    assert_eq!(lc_to_byte(src, &ls, 1, 0), 0);
    assert_eq!(lc_to_byte(src, &ls, 1, 3), 3);
    // column counts characters: the é before `b` is two bytes
    assert_eq!(lc_to_byte(src, &ls, 2, 2), 12);
    assert_eq!(lc_to_byte(src, &ls, 2, 6), 17);
    // a column past the line's end stops after its newline
    assert_eq!(lc_to_byte(src, &ls, 1, 99), 10);
    // line 0 reads as line 1; a line past the end as the last line
    assert_eq!(lc_to_byte(src, &ls, 0, 2), 2);
    assert_eq!(lc_to_byte(src, &ls, 9, 2), src.len() - 2);
    assert_eq!(lc_to_byte(src, &ls, 3, 99), src.len());
}

#[test]
fn slot_map_follows_receiver_then_params() {
    let fields = vec![
        ("avg".to_string(), "f64".to_string()),
        ("n".to_string(), "usize".to_string()),
        ("w".to_string(), "f64".to_string()),
    ];
    let args = vec![
        SigArg::Receiver { mutable: false },
        SigArg::Typed(ParamKind::Scalar("x".to_string())),
        SigArg::Typed(ParamKind::Array("c".to_string(), 3)),
        SigArg::Typed(ParamKind::Sequence("xs".to_string())),
    ];
    let (slots, seqs, bad) = build_slotmap(&args, Some("Stats"), Some(&fields));
    assert_eq!(slots, strings(&["self.avg", "self.w", "x", "c[0]", "c[1]", "c[2]"]));
    assert_eq!(seqs, strings(&["xs"]));
    assert_eq!(bad, None);
}

#[test]
fn slot_map_keeps_the_first_reason() {
    let args = vec![
        SigArg::Receiver { mutable: true },
        SigArg::Typed(ParamKind::Scalar("v0".to_string())),
        SigArg::Typed(ParamKind::Bad("&mut parameter".to_string())),
    ];
    let (slots, _, bad) = build_slotmap(&args, Some("S"), None);
    assert_eq!(slots, strings(&["v0"]));
    assert_eq!(bad.as_deref(), Some("`&mut self` receiver (effectful)"));

    let (_, _, bad) = build_slotmap(&args[1..], None, None);
    assert_eq!(bad.as_deref(), Some("param `v0` collides with a generated identifier"));

    let recv = vec![SigArg::Receiver { mutable: false }];
    let (_, _, bad) = build_slotmap(&recv, None, None);
    assert_eq!(bad.as_deref(), Some("method on an unnameable self type"));
    let (_, _, bad) = build_slotmap(&recv, Some("Gone"), None);
    assert_eq!(bad.as_deref(), Some("receiver struct `Gone` not defined in this file"));
}

fn loc(src: &str, name_fn: &str, slots: &[&str]) -> FnLoc {
    let start = src.find(name_fn).unwrap();
    let open = start + src[start..].find('{').unwrap() + 1;
    let end = start + src[start..].find("\n}").unwrap() + 2;
    FnLoc {
        start,
        prefix_end: open,
        end,
        slot_exprs: strings(slots),
        seq_names: Vec::new(),
        unshimmable: None,
    }
}

const CODE: &str = "/// CERTIFIED x\n/// rules applied: mul-two\npub fn f(v0: f64) -> f64 {\n    v0 + v0\n}\n";

#[test]
fn plan_rewrites_a_free_function() {
    let src = "// keep\npub fn dbl(x: f64) -> f64 {\n    2.0 * x\n}\n// tail\n";
    let l = loc(src, "pub fn dbl", &["x"]);
    let (a, b, t) = plan_rewrite(src, Some(&l), CODE, 1, 0).unwrap();
    assert_eq!((a, b), (l.start, l.end));
    assert_eq!(
        t,
        "/// CERTIFIED x\n/// rules applied: mul-two\n#[allow(unused_parens, clippy::all)]\npub fn dbl(x: f64) -> f64 {\n    x + x\n}"
    );
    let out = apply_edits(src, vec![(a, b, t)]);
    assert!(out.starts_with("// keep\n/// CERTIFIED x\n"));
    assert!(out.ends_with("    x + x\n}\n// tail\n"));
}

#[test]
fn plan_reports_why_not_in_place() {
    let src = "pub fn dbl(x: f64) -> f64 {\n    2.0 * x\n}\n";
    assert_eq!(
        plan_rewrite(src, None, CODE, 1, 0),
        Err("not a free function (impl method / ambiguous) \u{2014} use `dge pipeline`".to_string())
    );
    let mut l = loc(src, "pub fn dbl", &["x"]);
    assert_eq!(
        plan_rewrite(src, Some(&l), CODE, 2, 0),
        Err("param/arity shape mismatch \u{2014} use `dge pipeline`".to_string())
    );
    assert_eq!(
        plan_rewrite(src, Some(&l), "no body", 1, 0),
        Err("could not parse emitted body".to_string())
    );
    l.unshimmable = Some("`&mut self` receiver (effectful)".to_string());
    assert_eq!(
        plan_rewrite(src, Some(&l), CODE, 1, 0),
        Err("`&mut self` receiver (effectful) \u{2014} use `dge pipeline`".to_string())
    );
}

#[test]
fn gate_outcome_settles_the_status() {
    match settle(Ok(()), 9, 4, CODE) {
        Status::Rewritten { cost_before, cost_after, rules } => {
            assert_eq!((cost_before, cost_after), (9, 4));
            assert_eq!(rules, strings(&["mul-two"]));
        }
        other => panic!("{other:?}"),
    }
    match settle(Err("drift at x\n  detail".to_string()), 9, 4, CODE) {
        Status::CertifiedNotInPlace(m) => assert_eq!(
            m,
            "in-place form failed re-extraction gate (drift at x \u{b7} detail) \u{2014} use `dge pipeline`"
        ),
        other => panic!("{other:?}"),
    }
    match refusal("refused: op outside \u{3a3}\n") {
        Status::Refused(m) => assert_eq!(m, "refused: op outside \u{3a3}"),
        other => panic!("{other:?}"),
    }
}

#[test]
fn edits_apply_bottom_up_and_keep_the_rest() {
    let src = "aa\u{e9}BBcc\u{20ac}DDee";
    // byte ranges of "BB" and "DD"
    let b0 = src.find("BB").unwrap();
    let d0 = src.find("DD").unwrap();
    let out = apply_edits(src, vec![(b0, b0 + 2, "x".to_string()), (d0, d0 + 2, "yyy".to_string())]);
    assert_eq!(out, "aa\u{e9}xcc\u{20ac}yyyee");
    let out2 = apply_edits(src, vec![(d0, d0 + 2, "yyy".to_string()), (b0, b0 + 2, "x".to_string())]);
    assert_eq!(out2, out);
    assert_eq!(apply_edits(src, Vec::new()), src);
}
