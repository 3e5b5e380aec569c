//! The source door end to end: Rust text is parsed with syn, carried over
//! into the library's syntax, and read by `extract_fn`.

use dge::extract::{calls_well_formed, extract_fn, ExtractError};
use dge::sigma::Op;
use dge::syntax as sx;
use dge::term::Term;
use quote::ToTokens;

fn chars(s: &str) -> Vec<char> {
    s.chars().collect()
}

/// The items of a parsed file, as the library's plain syntax.
fn convert_file(f: &syn::File) -> sx::SourceFile {
    sx::SourceFile { items: f.items.iter().map(convert_item).collect() }
}

fn convert_item(it: &syn::Item) -> sx::Item {
    match it {
        syn::Item::Fn(f) => sx::Item::Fn(convert_fn(&f.sig, &f.block)),
        syn::Item::Mod(m) => match &m.content {
            Some((_, inner)) => sx::Item::Mod(inner.iter().map(convert_item).collect()),
            None => sx::Item::Other,
        },
        syn::Item::Impl(i) => {
            let ty = match &*i.self_ty {
                syn::Type::Path(p) => p.path.segments.last().map(|s| chars(&s.ident.to_string())),
                _ => None,
            };
            let fns = i
                .items
                .iter()
                .filter_map(|ii| match ii {
                    syn::ImplItem::Fn(f) => Some(convert_fn(&f.sig, &f.block)),
                    _ => None,
                })
                .collect();
            sx::Item::Impl(ty, fns)
        }
        syn::Item::Struct(s) => {
            let fields = match &s.fields {
                syn::Fields::Named(named) => Some(
                    named
                        .named
                        .iter()
                        .map(|f| {
                            let name = f.ident.as_ref().map(|i| i.to_string()).unwrap_or_default();
                            (chars(&name), f.ty.to_token_stream().to_string().replace(' ', ""))
                        })
                        .collect(),
                ),
                _ => None,
            };
            sx::Item::Struct(chars(&s.ident.to_string()), fields)
        }
        _ => sx::Item::Other,
    }
}

fn convert_fn(sig: &syn::Signature, body: &syn::Block) -> sx::FnDef {
    let inputs = sig
        .inputs
        .iter()
        .map(|a| match a {
            syn::FnArg::Receiver(r) => sx::FnArg::Receiver(r.mutability.is_some()),
            syn::FnArg::Typed(t) => sx::FnArg::Typed(convert_pat(&t.pat), convert_ty(&t.ty)),
        })
        .collect();
    let output = match &sig.output {
        syn::ReturnType::Type(_, t) => Some(convert_ty(t)),
        syn::ReturnType::Default => None,
    };
    sx::FnDef { name: chars(&sig.ident.to_string()), inputs, output, body: convert_block(body) }
}

fn convert_ty(t: &syn::Type) -> sx::Ty {
    match t {
        syn::Type::Path(p) => sx::Ty::Path(p.path.get_ident().map(|i| chars(&i.to_string()))),
        syn::Type::Reference(r) => sx::Ty::Ref(Box::new(convert_ty(&r.elem))),
        syn::Type::Array(a) => sx::Ty::Array(match &a.len {
            syn::Expr::Lit(l) => match &l.lit {
                syn::Lit::Int(i) => Some(chars(i.base10_digits())),
                _ => None,
            },
            _ => None,
        }),
        syn::Type::Slice(_) => sx::Ty::Slice,
        _ => sx::Ty::Other,
    }
}

fn convert_pat(p: &syn::Pat) -> sx::Pat {
    match p {
        syn::Pat::Ident(pi) => sx::Pat::Ident(chars(&pi.ident.to_string())),
        syn::Pat::Type(pt) => sx::Pat::Typed(Box::new(convert_pat(&pt.pat))),
        syn::Pat::Wild(_) => sx::Pat::Wild,
        _ => sx::Pat::Other,
    }
}

fn convert_block(b: &syn::Block) -> sx::Block {
    sx::Block { stmts: b.stmts.iter().map(convert_stmt).collect() }
}

fn convert_stmt(s: &syn::Stmt) -> sx::Stmt {
    match s {
        syn::Stmt::Local(l) => {
            sx::Stmt::Local(convert_pat(&l.pat), l.init.as_ref().map(|i| convert_expr(&i.expr)))
        }
        syn::Stmt::Expr(e, semi) => sx::Stmt::Expr(convert_expr(e), semi.is_some()),
        _ => sx::Stmt::Other,
    }
}

fn convert_lit(l: &syn::Lit) -> sx::Lit {
    match l {
        syn::Lit::Float(f) => match f.base10_parse::<f64>() {
            Ok(v) => sx::Lit::Float { bits: v.to_bits(), bits32: ((v as f32) as f64).to_bits() },
            Err(e) => sx::Lit::BadFloat(e.to_string()),
        },
        syn::Lit::Int(i) => sx::Lit::Int(chars(i.base10_digits())),
        _ => sx::Lit::Other,
    }
}

fn convert_binop(op: &syn::BinOp) -> sx::BinOp {
    match op {
        syn::BinOp::Add(_) => sx::BinOp::Add,
        syn::BinOp::Sub(_) => sx::BinOp::Sub,
        syn::BinOp::Mul(_) => sx::BinOp::Mul,
        syn::BinOp::Div(_) => sx::BinOp::Div,
        syn::BinOp::Lt(_) => sx::BinOp::Lt,
        syn::BinOp::Gt(_) => sx::BinOp::Gt,
        syn::BinOp::Le(_) => sx::BinOp::Le,
        syn::BinOp::Ge(_) => sx::BinOp::Ge,
        syn::BinOp::Eq(_) => sx::BinOp::Eq,
        syn::BinOp::Ne(_) => sx::BinOp::Ne,
        syn::BinOp::AddAssign(_) => sx::BinOp::AddAssign,
        syn::BinOp::SubAssign(_) => sx::BinOp::SubAssign,
        syn::BinOp::MulAssign(_) => sx::BinOp::MulAssign,
        syn::BinOp::DivAssign(_) => sx::BinOp::DivAssign,
        _ => sx::BinOp::Other,
    }
}

fn boxed(e: &syn::Expr) -> Box<sx::Expr> {
    Box::new(convert_expr(e))
}

/// The name of an expression's form, as the extractor reports it.
fn form(e: &syn::Expr) -> Vec<char> {
    chars(&format!("{:?}", std::mem::discriminant(e)))
}

fn convert_expr(e: &syn::Expr) -> sx::Expr {
    match e {
        syn::Expr::Field(f) => sx::Expr::Field(
            boxed(&f.base),
            match &f.member {
                syn::Member::Named(m) => Some(chars(&m.to_string())),
                syn::Member::Unnamed(_) => None,
            },
        ),
        syn::Expr::Lit(l) => sx::Expr::Lit(convert_lit(&l.lit)),
        syn::Expr::Path(p) => sx::Expr::Path(
            p.path.get_ident().map(|i| chars(&i.to_string())),
            p.path.segments.last().map(|s| chars(&s.ident.to_string())).unwrap_or_default(),
        ),
        syn::Expr::Index(ix) => sx::Expr::Index(boxed(&ix.expr), boxed(&ix.index)),
        syn::Expr::Paren(p) => sx::Expr::Paren(boxed(&p.expr)),
        syn::Expr::Group(g) => sx::Expr::Group(boxed(&g.expr)),
        syn::Expr::Cast(c) => sx::Expr::Cast(boxed(&c.expr), convert_ty(&c.ty)),
        syn::Expr::Unary(u) => sx::Expr::Unary(
            match u.op {
                syn::UnOp::Neg(_) => sx::UnOp::Neg,
                _ => sx::UnOp::Other,
            },
            boxed(&u.expr),
        ),
        syn::Expr::Binary(b) => sx::Expr::Binary(convert_binop(&b.op), boxed(&b.left), boxed(&b.right)),
        syn::Expr::MethodCall(m) => sx::Expr::MethodCall(
            boxed(&m.receiver),
            chars(&m.method.to_string()),
            m.args.iter().map(convert_expr).collect(),
        ),
        syn::Expr::Call(c) => sx::Expr::Call(boxed(&c.func), c.args.iter().map(convert_expr).collect()),
        syn::Expr::If(i) => sx::Expr::If(
            boxed(&i.cond),
            convert_block(&i.then_branch),
            i.else_branch.as_ref().map(|(_, x)| boxed(x)),
        ),
        syn::Expr::Block(b) => sx::Expr::Block(convert_block(&b.block)),
        syn::Expr::Return(r) => sx::Expr::Return(r.expr.as_ref().map(|x| boxed(x))),
        syn::Expr::While(_) => sx::Expr::While,
        syn::Expr::Loop(_) => sx::Expr::Loop,
        syn::Expr::ForLoop(f) => sx::Expr::ForLoop(convert_pat(&f.pat), boxed(&f.expr), convert_block(&f.body)),
        syn::Expr::Assign(a) => sx::Expr::Assign(boxed(&a.left), boxed(&a.right), form(e)),
        syn::Expr::Range(r) => sx::Expr::Range(
            r.start.as_ref().map(|x| boxed(x)),
            r.end.as_ref().map(|x| boxed(x)),
            matches!(r.limits, syn::RangeLimits::Closed(_)),
            form(e),
        ),
        _ => sx::Expr::Other(form(e)),
    }
}

/// Parse Rust source text into the library's plain syntax.
fn parse_source(src: &str) -> Result<sx::SourceFile, String> {
    syn::parse_file(src).map(|f| convert_file(&f)).map_err(|e| e.to_string())
}

fn extract(src: &str, name: &str) -> Result<Term, ExtractError> {
    let parsed = parse_source(src);
    if let Ok(f) = &parsed {
        assert!(calls_well_formed(f, name));
    }
    extract_fn(parsed, name)
}

fn root_op(t: &Term) -> Op {
    t.nodes[t.root as usize].op
}

fn has(t: &Term, op: Op) -> bool {
    t.nodes.iter().any(|n| n.op == op)
}

#[test]
fn non_f64_field_refuses_on_read_only() {
    let src = r#"
pub struct Mean { avg: f64, n: u64 }
impl Mean {
    pub fn mean(&self) -> f64 {
        if self.n > 0 { self.avg } else { f64::NAN }
    }
    pub fn raw_avg(&self) -> f64 { self.avg * 1.0 }
}
"#;
    match extract(src, "mean") {
        Err(ExtractError::Unsupported(m)) =>
            assert!(m.contains("n: u64") && m.contains("f64-only"), "{m}"),
        other => panic!("u64 field read must refuse: {other:?}"),
    }
    extract(src, "raw_avg").expect("f64-field-only method must extract");
}

#[test]
fn mutable_receiver_refuses() {
    let src = r#"
pub struct Acc { s: f64 }
impl Acc {
    pub fn bump(&mut self) -> f64 { self.s += 1.0; self.s }
}
"#;
    match extract(src, "bump") {
        Err(ExtractError::Unsupported(m)) =>
            assert!(m.contains("mutable method receiver"), "{m}"),
        other => panic!("&mut self must refuse: {other:?}"),
    }
}

#[test]
fn unknown_struct_and_foreign_field_refuse() {
    let src = "impl Ghost { pub fn f(&self) -> f64 { 1.0 } }";
    match extract(src, "f") {
        Err(ExtractError::Unsupported(m)) =>
            assert!(m.contains("no named-field definition"), "{m}"),
        other => panic!("unknown receiver layout must refuse: {other:?}"),
    }
    let src2 = r#"
pub struct P { x: f64 }
pub fn f(p: P) -> f64 { p.x }
"#;
    match extract(src2, "f") {
        Err(ExtractError::Unsupported(m)) =>
            assert!(m.contains("P3 territory") || m.contains("non-receiver"), "{m}"),
        other => panic!("non-self field access must refuse: {other:?}"),
    }
}

#[test]
fn honest_refusals_v12() {
    let multi = "fn f(a: &[f64]) -> f64 { let mut s = 0.0; let mut p = 1.0; \
                 for i in 0..a.len() { s += a[i]; p = p * a[i]; } s + p }";
    let t = extract(multi, "f").expect("independent accumulators fission (v1.5)");
    assert!(t.has_fold(), "fission must produce folds");
    let coupled = "fn w(a: &[f64]) -> f64 { let mut m = 0.0; let mut q = 0.0; \
                   for i in 0..a.len() { q += (a[i] - m) * a[i]; m = m + a[i]; } q }";
    match extract(coupled, "w") {
        Err(ExtractError::Unsupported(m)) =>
            assert!(m.contains("co-accumulator") && m.contains("fission"), "{m}"),
        other => panic!("coupled recurrence must be refused: {other:?}"),
    }
    let offset = "fn g(a: &[f64]) -> f64 { let mut s = 0.0; \
                  for i in 1..a.len() { s += a[i]; } s }";
    match extract(offset, "g") {
        Err(ExtractError::Unsupported(m)) => assert!(m.contains("start at 0"), "{m}"),
        other => panic!("offset range must be refused: {other:?}"),
    }
}

#[test]
fn non_innocuous_shapes_refuse_with_the_rounding_vocabulary() {
    let refuse = |src: &str, name: &str, needles: &[&str]| match extract(src, name) {
        Err(ExtractError::Unsupported(m)) => {
            for n in needles {
                assert!(m.contains(n), "`{m}` missing `{n}`");
            }
        }
        other => panic!("{name} must refuse: {other:?}"),
    };
    refuse("pub fn s(t: f32) -> f32 { t.sin() }", "s", &["innocuous", "sin"]);
    refuse("pub fn f(a: f32, b: f32, c: f32) -> f32 { a.mul_add(b, c) }", "f", &["mul_add", "innocuous"]);
    refuse("pub fn p(a: f32, b: f32) -> f32 { a.powf(b) }", "p", &["powf", "Sigma"]);
    refuse("pub fn m(a: f32, b: f64) -> f64 { b }", "m", &["mixed f32/f64"]);
    refuse("pub fn g(x: f64) -> f64 { ((x as f32) * (x as f32)) as f64 }", "g", &["bare `as f32`"]);
    refuse("pub fn h(x: f64) -> f64 { (x as i64) as f64 }", "h", &["truncates"]);
}

#[test]
fn widened_cast_reads_as_rnd32_node() {
    let t = extract("pub fn r(x: f64) -> f64 { (x as f32) as f64 }", "r").unwrap();
    assert_eq!(root_op(&t), Op::Rnd32);
    assert_eq!(t.nodes[t.nodes[t.root as usize].a as usize].op, Op::Var);
}

#[test]
fn getter_reads_fields_in_declaration_order() {
    let src = r#"
pub struct Kin { m: f64, v: f64, c: f64 }
impl Kin {
    pub fn energy(&self) -> f64 { 0.5 * self.m * self.v * self.v + self.c }
}
"#;
    let t = extract(src, "energy").expect("&self f64 getter must extract");
    assert_eq!(t.arity(), 3);
    assert_eq!(root_op(&t), Op::Add);
    // the right operand of the sum is the third field, variable 2
    let rhs = &t.nodes[t.nodes[t.root as usize].b as usize];
    assert_eq!((rhs.op, rhs.a), (Op::Var, 2));
}

#[test]
fn qualified_sqrt_reads_as_sqrt_node() {
    let src = r#"
pub struct V { s: f64, n2: f64 }
impl V {
    pub fn error(&self) -> f64 { num_traits::Float::sqrt(self.s / self.n2) }
}
"#;
    let t = extract(src, "error").expect("qualified sqrt must map");
    assert_eq!(root_op(&t), Op::Sqrt);
    assert!(has(&t, Op::Div));
}

#[test]
fn comparison_in_value_position_is_a_ne_node() {
    let t = extract("pub fn f(x: f64) -> f64 { ((x != 0.0) as u8 as f64) }", "f").unwrap();
    assert!(has(&t, Op::Ne), "a value-position comparison keeps its Ne node");
}

#[test]
fn comparison_against_zero_as_condition_reads_the_flag() {
    let t = extract(
        "pub fn f(c: f64, a: f64, b: f64) -> f64 { if (c) != 0.0 { a } else { b } }",
        "f",
    )
    .unwrap();
    assert_eq!(root_op(&t), Op::Select);
    assert!(!has(&t, Op::Ne), "a flag tested against zero is the select's condition itself");
}

#[test]
fn parse_error_and_missing_function() {
    assert!(matches!(extract("fn f( {", "f"), Err(ExtractError::Parse(_))));
    match extract("fn g(x: f64) -> f64 { x }", "f") {
        Err(ExtractError::FnNotFound(n)) => assert_eq!(n, "f"),
        other => panic!("{other:?}"),
    }
}
