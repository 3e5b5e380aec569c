use dge::optimize::{
    body_inner, build_replacement, cert_doc, cert_rules, collides_generated, dedent_continuation,
    first_line, line_indent, line_starts, reindent, remap_body, strip_generated_preamble,
};

fn strings(v: &[&str]) -> Vec<String> {
    v.iter().map(|s| s.to_string()).collect()
}

#[test]
fn reindent_prefixes_continuation_lines_only() {
    assert_eq!(reindent("a\nb\n\nc", "    "), "a\n    b\n\n    c");
    assert_eq!(reindent("a\nb", ""), "a\nb");
    assert_eq!(reindent("single", "\t"), "single");
}

#[test]
fn dedent_removes_one_indent_where_present() {
    assert_eq!(dedent_continuation("a\n    b\n  c\n", "    "), "a\nb\n  c\n");
    assert_eq!(dedent_continuation("a\n    b", ""), "a\n    b");
}

#[test]
fn dedent_undoes_reindent() {
    let s = "fn f() {\n  let x = 1;\n\n  x\n}";
    for ind in ["", " ", "    ", "\t\t"] {
        assert_eq!(dedent_continuation(&reindent(s, ind), ind), s);
    }
}

#[test]
fn generated_names_collide() {
    for n in ["v0", "s12", "t3", "__acc", "__i"] {
        assert!(collides_generated(n), "{n}");
    }
    for n in ["v", "x", "v1a", "val", "s_1", "__j", "u1"] {
        assert!(!collides_generated(n), "{n}");
    }
}

#[test]
fn first_line_joins_nonblank_trimmed_lines() {
    assert_eq!(first_line("  refused: x  \n\n   because y \n"), "refused: x \u{b7} because y");
    assert_eq!(first_line(""), "");
    let long = "z".repeat(300);
    let f = first_line(&long);
    assert_eq!(f.chars().count(), 240);
    assert!(f.ends_with("..."));
    assert_eq!(&f[..237], &long[..237]);
    let exact = "q".repeat(240);
    assert_eq!(first_line(&exact), exact);
}

#[test]
fn certificate_doc_and_rules_are_read_back() {
    let code = "/// CERTIFIED Tier A\n  /// rules applied: mul-one, add-zero , ,fma\n#[allow(unused_parens)]\npub fn f(v0: f64) -> f64 {\n    v0\n}\n";
    assert_eq!(cert_doc(code), "/// CERTIFIED Tier A\n/// rules applied: mul-one, add-zero , ,fma");
    assert_eq!(cert_rules(code), strings(&["mul-one", "add-zero", "fma"]));
    assert_eq!(cert_rules("pub fn f() {}"), Vec::<String>::new());
    assert_eq!(cert_doc("pub fn f() {}"), "");
}

#[test]
fn generated_preamble_is_stripped_and_human_text_kept() {
    let p = "\n/// CERTIFIED Tier A\n/// rules applied: x\n#[allow(unused_parens, clippy::all)]\n    /// human doc\npub fn f(x: f64) -> f64 {";
    assert_eq!(strip_generated_preamble(p), "/// human doc\npub fn f(x: f64) -> f64 {");
    assert_eq!(strip_generated_preamble("pub fn g() {"), "pub fn g() {");
    assert_eq!(strip_generated_preamble("\n\n"), "");
    // a kept attribute stops the strip
    assert_eq!(strip_generated_preamble("#[inline]\n/// MODULO x\nfn h() {"), "#[inline]\n/// MODULO x\nfn h() {");
}

#[test]
fn body_inner_matches_the_outer_braces() {
    assert_eq!(body_inner("fn f() { let a = { 1 }; a }").as_deref(), Some(" let a = { 1 }; a "));
    assert_eq!(body_inner("fn f() {}").as_deref(), Some(""));
    assert_eq!(body_inner("no braces"), None);
    assert_eq!(body_inner("fn f() { { }"), None);
}

#[test]
fn line_starts_are_byte_offsets() {
    assert_eq!(line_starts("ab\ncd\n"), vec![0, 3, 6]);
    assert_eq!(line_starts(""), vec![0]);
    // multi-byte characters count by their UTF-8 width
    assert_eq!(line_starts("\u{e9}\nx\n\u{20ac}\ny"), vec![0, 3, 5, 9]);
}

#[test]
fn line_indent_is_the_blank_run_before_the_item() {
    let src = "mod m {\n    fn f() {}\n}\nfn g() {}\n";
    let f = src.find("fn f").unwrap();
    let g = src.find("fn g").unwrap();
    assert_eq!(line_indent(src, f), "    ");
    assert_eq!(line_indent(src, g), "");
    // not a blank run: text precedes the item on its line
    let h = "x; fn h() {}";
    assert_eq!(line_indent(h, h.find("fn").unwrap()), "");
}

#[test]
fn remap_body_flat_shape() {
    let slots = strings(&["x", "coeffs[3]", "self.avg"]);
    let seqs = strings(&["xs"]);
    let body = "let t0 = v0 * v1;\n    t0 + v2 + s0[__i] + v3 + v01 + s1 + xv0";
    assert_eq!(
        remap_body(body, &slots, &seqs, false),
        "let t0 = x * coeffs[3];\n    t0 + self.avg + xs[__i] + v3 + v01 + s1 + xv0"
    );
}

#[test]
fn remap_body_array_shape() {
    let slots: Vec<String> = (0..10).map(|k| format!("p{k}")).collect();
    let body = "v[0] + v [9 ] * v[10] + v[007] + v0 + v [ 1]";
    assert_eq!(remap_body(body, &slots, &[], true), "p0 + p9 * v[10] + p7 + v0 + v [ 1]");
}

#[test]
fn replacement_carries_doc_allow_header_and_remapped_body() {
    let code = "/// CERTIFIED x\npub fn f(v0: f64) -> f64 {\n    v0 * 2.0\n}\n";
    let inner = body_inner(code).unwrap();
    let prefix = "pub fn area(r: f64) -> f64 {";
    let r = build_replacement(code, prefix, &strings(&["r"]), &[], &inner, false, "");
    assert_eq!(r, "/// CERTIFIED x\n#[allow(unused_parens, clippy::all)]\npub fn area(r: f64) -> f64 {\n    r * 2.0\n}");
}

#[test]
fn replacement_is_reindented_for_methods() {
    let code = "pub fn f(v0: f64) -> f64 {\n    v0\n}";
    let inner = body_inner(code).unwrap();
    let prefix = "pub fn get(&self) -> f64 {";
    let r = build_replacement(code, prefix, &strings(&["self.a"]), &[], &inner, false, "    ");
    assert_eq!(r, "#[allow(unused_parens, clippy::all)]\n    pub fn get(&self) -> f64 {\n        self.a\n    }");
}
