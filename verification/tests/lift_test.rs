use dge::fold::{classify_params, int_to_float, parse_block, pass, BlockEnd};
use dge::lift::{instruction, lift_block, lift_ll, parse_params, LiftError, RawBlock};
use dge::names::{Env, NameSet};
use dge::sigma::Op;
use dge::term::{ConstLit, TermBuilder};

fn ir_with_body(body: &str) -> String {
    format!("define double @f(double %0, double %1) {{\nstart:\n{body}\n}}\n")
}

fn refusal(r: Result<dge::term::Term, LiftError>) -> String {
    match r {
        Err(LiftError::Refused(m)) => m,
        Err(e) => panic!("expected a refusal, got {}", e.message()),
        Ok(t) => panic!("expected a refusal, got a term of {} nodes", t.len()),
    }
}

#[test]
fn diamond_refuses_integer_condition() {
    const IR: &str = r#"
define double @f(double %x, i64 %n) {
start:
  %c = icmp eq i64 %n, 0
  br i1 %c, label %a, label %bb
a:
  %v = fmul double %x, 2.000000e+00
  br label %m
bb:
  %w = fmul double %x, 3.000000e+00
  br label %m
m:
  %r = phi double [ %v, %a ], [ %w, %bb ]
  ret double %r
}
"#;
    match lift_ll(IR, "f") {
        Err(LiftError::Refused(m)) => assert!(
            m.contains("Σ reading") || m.contains("Sigma") || m.contains("roadmap"),
            "{m}"
        ),
        Err(e) => panic!("expected refusal, got {}", e.message()),
        Ok(_) => panic!("expected refusal, got a term"),
    }
}

#[test]
fn p1_refuses_multi_exit_branching_with_roadmap() {
    let ir = ir_with_body(
        "  %2 = fcmp olt double %0, %1\n  br i1 %2, label %a, label %b\n\
         a:\n  ret double %0\nb:\n  ret double %1",
    );
    let m = refusal(lift_ll(&ir, "f"));
    assert!(
        m.contains("multi-exit") && m.contains("roadmap"),
        "refusal must name the shape and the plan: {m}"
    );
}

#[test]
fn p1_refuses_memory_ops_with_p3_roadmap() {
    let ir = ir_with_body("  %p = alloca double\n  store double %0, ptr %p\n  ret double %1");
    let m = refusal(lift_ll(&ir, "f"));
    assert!(m.contains("P3"), "must name P3: {m}");
}

#[test]
fn p1_refuses_calls_outside_the_libm_map() {
    let ir = ir_with_body("  %2 = call double @totally_legit_math(double %0)\n  ret double %2");
    let m = refusal(lift_ll(&ir, "f"));
    assert!(m.contains("libm map"), "{m}");
}

#[test]
fn p1_refuses_fast_math_flags() {
    let ir = ir_with_body("  %2 = fadd fast double %0, %1\n  ret double %2");
    let m = refusal(lift_ll(&ir, "f"));
    assert!(m.contains("IEEE"), "{m}");
}

#[test]
fn p1_refuses_unsupported_fcmp_predicates() {
    let ir = ir_with_body(
        "  %2 = fcmp one double %0, %1\n  %3 = select i1 %2, \
         double %0, double %1\n  ret double %3",
    );
    let m = refusal(lift_ll(&ir, "f"));
    assert!(m.contains("one"), "{m}");
}

#[test]
fn p1_hex_float_constants_are_bit_exact() {
    let ir = "define double @c(double %0) {\n\
              start:\n  %1 = fadd double %0, 0x8000000000000000\n  ret double %1\n}\n";
    let t = lift_ll(ir, "c").unwrap_or_else(|e| panic!("lift: {}", e.message()));
    assert_eq!(t.consts.len(), 1);
    match &t.consts[0] {
        ConstLit::Bits(b) => assert_eq!(*b, (-0.0f64).to_bits(), "must parse as -0.0 exactly"),
        ConstLit::Decimal(d) => panic!("hex constant read as decimal text {d:?}"),
    }
}

#[test]
fn straight_line_polynomial_lifts_to_the_expected_shape() {
    let ir = "define double @p(double %0) {\nstart:\n  %1 = fmul double %0, %0\n  \
              %2 = fadd double %1, 1.500000e+00\n  ret double %2\n}\n";
    let t = lift_ll(ir, "p").unwrap_or_else(|e| panic!("lift: {}", e.message()));
    assert_eq!(t.arity(), 1);
    assert_eq!(t.seq_count(), 0);
    let root = t.node(t.root);
    assert_eq!(root.op, Op::Add);
    assert_eq!(t.node(root.a).op, Op::Mul);
    assert_eq!(t.node(root.b).op, Op::Const);
    let lit: String = match &t.consts[t.node(root.b).a as usize] {
        ConstLit::Decimal(d) => d.iter().collect(),
        ConstLit::Bits(b) => panic!("decimal literal read as bits {b:#x}"),
    };
    assert_eq!(lit, "1.500000e+00");
}

#[test]
fn missing_function_is_reported_by_name() {
    let ir = ir_with_body("  ret double %0");
    match lift_ll(&ir, "nope") {
        Err(LiftError::FnNotFound(n)) => assert_eq!(n, "nope"),
        Err(e) => panic!("expected FnNotFound, got {}", e.message()),
        Ok(_) => panic!("expected FnNotFound, got a term"),
    }
}

#[test]
fn refusal_message_carries_the_refused_prefix() {
    let e = LiftError::Refused("x".to_string());
    assert_eq!(e.message(), "refused: x");
    let p = LiftError::Parse("y".to_string());
    assert_eq!(p.message(), "parse: y");
}

#[test]
fn libm_call_maps_to_its_sigma_op() {
    let ir = ir_with_body("  %2 = call double @llvm.sqrt.f64(double %0)\n  ret double %2");
    let t = lift_ll(&ir, "f").unwrap_or_else(|e| panic!("lift: {}", e.message()));
    assert_eq!(t.node(t.root).op, Op::Sqrt);
}

#[test]
fn select_over_ordered_compare_lifts() {
    let ir = ir_with_body(
        "  %2 = fcmp olt double %0, %1\n  %3 = select i1 %2, double %0, double %1\n  ret double %3",
    );
    let t = lift_ll(&ir, "f").unwrap_or_else(|e| panic!("lift: {}", e.message()));
    let root = t.node(t.root);
    assert_eq!(root.op, Op::Select);
    assert_eq!(t.node(root.a).op, Op::Lt);
    assert_eq!(t.arity(), 2);
}

fn chars(s: &str) -> Vec<char> {
    s.chars().collect()
}

#[test]
fn parameters_are_read_from_the_define_line() {
    let ps = parse_params(&chars("define double @f(double noundef %x, double %y) #0 {")).unwrap();
    assert_eq!(ps, vec![chars("x"), chars("y")]);
    assert!(matches!(parse_params(&chars("define double @f() {")), Err(LiftError::Refused(_))));
    assert!(matches!(parse_params(&chars("define double @f(i64 %n) {")), Err(LiftError::Refused(_))));
    assert!(matches!(parse_params(&chars("define double @f(double) {")), Err(LiftError::Parse(_))));
}

#[test]
fn straight_line_block_lifts_over_its_parameters() {
    let params = vec![chars("a"), chars("b")];
    let body = vec![
        chars("start:"),
        chars("  %s = fsub double %b, %a ; comment"),
        chars("  %p = fmul double %s, 2.5e+00"),
        chars("  ret double %p"),
    ];
    let t = lift_block(&params, &body).unwrap();
    // a, b, s, 2.5, p
    assert_eq!(t.len(), 5);
    assert_eq!(t.node(t.root).op, Op::Mul);
    assert_eq!(t.arity(), 2);
    let no_ret = vec![chars("%s = fadd double %a, %b")];
    assert!(matches!(lift_block(&params, &no_ret), Err(LiftError::Parse(_))));
    let unbound = vec![chars("%s = fadd double %a, %zz"), chars("ret double %s")];
    assert!(matches!(lift_block(&params, &unbound), Err(LiftError::Parse(_))));
}

#[test]
fn blocks_parse_into_phis_instructions_and_terminator() {
    let rb = RawBlock {
        label: chars("loop"),
        lines: vec![
            chars("%acc = phi double [ 0.000000e+00, %start ], [ %next, %loop ]"),
            chars("%next = fadd double %acc, %x"),
            chars("br i1 %done, label %exit, label %loop"),
        ],
    };
    let bl = parse_block(&rb).unwrap();
    assert_eq!(bl.label, chars("loop"));
    assert_eq!(bl.phis.len(), 1);
    assert_eq!(bl.phis[0].dst, chars("acc"));
    assert_eq!(bl.phis[0].ty, chars("double"));
    assert_eq!(
        bl.phis[0].inc,
        vec![(chars("0.000000e+00"), chars("start")), (chars("%next"), chars("loop"))]
    );
    assert_eq!(bl.insts, vec![chars("%next = fadd double %acc, %x")]);
    match &bl.term {
        BlockEnd::CondBr { cond, a, b } => {
            assert_eq!((cond, a, b), (&chars("done"), &chars("exit"), &chars("loop")));
        }
        _ => panic!("expected a conditional branch"),
    }
    let no_term = RawBlock { label: chars("b"), lines: vec![chars("%y = fneg double %x")] };
    assert!(matches!(parse_block(&no_term), Err(LiftError::Parse(_))));
    let late_phi = RawBlock {
        label: chars("b"),
        lines: vec![chars("%y = fneg double %x"), chars("%p = phi double [ %y, %b ]"), chars("ret double %p")],
    };
    assert!(matches!(parse_block(&late_phi), Err(LiftError::Parse(_))));
}

#[test]
fn loop_parameters_pair_pointers_with_lengths() {
    let r = classify_params(&chars("define double @s(ptr noalias %xs.0, i64 %xs.1, double %k)")).unwrap();
    assert_eq!(r.seq_ptrs.get(&chars("xs.0")), Some(0));
    assert_eq!(r.lens, vec![chars("xs.1")]);
    assert_eq!(r.scalars, vec![chars("k")]);
    assert!(matches!(classify_params(&chars("define double @s(double %a)")), Err(LiftError::Refused(_))));
    assert!(matches!(classify_params(&chars("define double @s(ptr %p)")), Err(LiftError::Refused(_))));
    assert!(matches!(classify_params(&chars("define double @s(i64 %n)")), Err(LiftError::Refused(_))));
}

const WHILE_LOOP_IR: &str = r#"
define double @halve_down(double %x, double %limit) {
start:
  %c0 = fcmp ogt double %x, %limit
  br i1 %c0, label %bb, label %done
bb:
  %xx = phi double [ %x, %start ], [ %y, %bb ]
  %y = fmul double %xx, 5.000000e-01
  %c = fcmp ogt double %y, %limit
  br i1 %c, label %bb, label %done
done:
  %r = phi double [ %x, %start ], [ %y, %bb ]
  ret double %r
}
"#;

#[test]
fn data_bound_while_loop_refuses_with_length_reason() {
    let m = refusal(lift_ll(WHILE_LOOP_IR, "halve_down"));
    assert!(m.contains("P2") && m.contains("LENGTH"), "{m}");
    assert!(m.starts_with("P2 fold recognition: loop over no sequence parameter"), "{m}");
}

#[test]
fn loop_with_too_many_blocks_names_the_block_count() {
    let ir = r#"
define double @f(double %x) {
a:
  br label %b
b:
  br label %c
c:
  br label %d
d:
  br label %lp
lp:
  %v = phi double [ %x, %d ], [ %w, %lp ]
  %w = fmul double %v, 5.000000e-01
  %k = fcmp ogt double %w, 1.000000e+00
  br i1 %k, label %lp, label %z
z:
  ret double %w
}
"#;
    let m = refusal(lift_ll(ir, "f"));
    assert!(m.starts_with("P2 fold recognition: 6 basic blocks"), "{m}");
}

#[test]
fn instruction_refuses_unmapped_predicate_and_fast_math() {
    let mut b = TermBuilder::new();
    let mut env = Env::new();
    let x = b.var(0);
    let y = b.var(1);
    env.insert(vec!['0'], x);
    env.insert(vec!['1'], y);
    let inst: Vec<char> = "fcmp one double %0, %1".chars().collect();
    match instruction(&inst, &env, &mut b) {
        Err(LiftError::Refused(m)) => assert!(m.starts_with("fcmp one: "), "{m}"),
        other => panic!("{:?}", other.map(|_| ())),
    }
    let inst: Vec<char> = "fcmp nnan olt double %0, %1".chars().collect();
    match instruction(&inst, &env, &mut b) {
        Err(LiftError::Refused(m)) => assert!(m.contains("IEEE"), "{m}"),
        other => panic!("{:?}", other.map(|_| ())),
    }
    let inst: Vec<char> = "fcmp olt double %0, %1".chars().collect();
    let id = instruction(&inst, &env, &mut b).unwrap_or_else(|e| panic!("{}", e.message()));
    assert_eq!(b.nodes[id as usize].op, Op::Lt);
}

#[test]
fn length_conversion_is_len_and_other_conversions_refuse() {
    let mut b = TermBuilder::new();
    let lens = vec![vec!['m'], vec!['n']];
    let rhs: Vec<char> = "uitofp nneg i64 %n to double".chars().collect();
    let id = int_to_float(&rhs, &lens, &mut b).unwrap_or_else(|e| panic!("{}", e.message()));
    assert_eq!((b.nodes[id as usize].op, b.nodes[id as usize].a), (Op::Len, 1));
    let rhs: Vec<char> = "sitofp i64 %i to double".chars().collect();
    match int_to_float(&rhs, &lens, &mut b) {
        Err(LiftError::Refused(m)) => {
            assert!(m.starts_with("P2 fold recognition: int->float of `%i`"), "{m}")
        }
        other => panic!("{:?}", other.map(|_| ())),
    }
    assert_eq!(b.nodes.len(), 1);
}

#[test]
fn pass_binds_each_line_and_refuses_index_conversions() {
    let rb = RawBlock {
        label: chars("body"),
        lines: vec![
            chars("%x = uitofp nneg i64 %n to double"),
            chars("%y = fadd double %x, %a"),
            chars("br label %done"),
        ],
    };
    let block = parse_block(&rb).unwrap_or_else(|e| panic!("{}", e.message()));
    let mut b = TermBuilder::new();
    let a = b.var(0);
    let mut fenv = Env::new();
    fenv.insert(chars("a"), a);
    let mut ints = NameSet::new();
    let mut geps = Env::new();
    let lens = vec![chars("n")];
    pass(&block, &Env::new(), &lens, &mut fenv, &mut ints, &mut geps, false, &mut b)
        .unwrap_or_else(|e| panic!("{}", e.message()));
    let x = fenv.get(&chars("x")).unwrap();
    assert_eq!((b.nodes[x as usize].op, b.nodes[x as usize].a), (Op::Len, 0));
    let y = fenv.get(&chars("y")).unwrap();
    assert_eq!(b.nodes[y as usize].op, Op::Add);
    assert_eq!((b.nodes[y as usize].a, b.nodes[y as usize].b), (x, a));

    let rb = RawBlock {
        label: chars("body"),
        lines: vec![chars("%w = sitofp i64 %i to double"), chars("br label %done")],
    };
    let block = parse_block(&rb).unwrap_or_else(|e| panic!("{}", e.message()));
    let mut fenv = Env::new();
    match pass(&block, &Env::new(), &lens, &mut fenv, &mut NameSet::new(), &mut Env::new(), false, &mut b) {
        Err(LiftError::Refused(m)) => assert!(m.contains("P2") && m.contains("%i"), "{m}"),
        other => panic!("{:?}", other),
    }
}

#[test]
fn panic_path_refuses_with_totality_vocabulary() {
    let ir = r#"
define double @guarded_mean(ptr %v.0, i64 %v.1) {
start:
  %_2 = icmp ugt i64 %v.1, 1
  br i1 %_2, label %bb2, label %bb1, !prof !3
bb1:
  tail call void @_ZN4core9panicking5panic17h0123456789abcdefE(ptr align 1 @alloc_1, i64 16, ptr align 8 @alloc_2) #5
  unreachable
bb2:
  %s = fadd double 0.000000e+00, 1.000000e+00
  ret double %s
}
"#;
    match lift_ll(ir, "guarded_mean") {
        Err(LiftError::Refused(m)) => {
            assert!(m.contains("unreachable") && m.contains("panic/assert"), "{m}");
        }
        Err(e) => panic!("must refuse as a panic path, not `{}`", e.message()),
        Ok(_) => panic!("a partial (panicking) function must not lift"),
    }
}

#[test]
fn branch_metadata_is_not_an_operand() {
    let rb = RawBlock {
        label: chars("start"),
        lines: vec![chars("br i1 %c, label %a, label %b, !prof !3")],
    };
    let bl = parse_block(&rb).unwrap_or_else(|e| panic!("{}", e.message()));
    match bl.term {
        BlockEnd::CondBr { cond, a, b } => {
            assert_eq!((cond, a, b), (chars("c"), chars("a"), chars("b")));
        }
        _ => panic!("conditional branch expected"),
    }
    let rb = RawBlock { label: chars("p"), lines: vec![chars("call void @f()"), chars("unreachable")] };
    match parse_block(&rb) {
        Err(LiftError::Refused(m)) => assert!(m.starts_with("P2 fold recognition: block `%p` ends in `unreachable`"), "{m}"),
        other => panic!("{:?}", other.map(|_| ())),
    }
}
