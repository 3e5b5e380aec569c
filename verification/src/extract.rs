//! The source front door: a Rust function, as syntax, read into a Σ term.
//!
//! Covered: f64 scalar parameters, fixed-size `[f64; N]` array parameters
//! indexed by compile-time integers, `&[f64]` sequence parameters read by
//! `for i in 0..s.len()` folds, `&self` receivers whose f64 fields become
//! variables, `let` with shadowing, `let mut` with assignment and compound
//! assignment (rebinding), `for` over literal bounds (unrolled), statement
//! `if`s (their diverging bindings merged into selects), value `if`s, the
//! float methods of Σ, comparisons, and f32 functions (each rounding
//! operation wrapped in a binary32 rounding). Everything else is refused
//! with a message saying why.
pub mod reading;

use vstd::prelude::*;
use crate::extract::reading::{
    XSt,
    Step,
    UNROLL_CAP,
    too_large,
    overflow_msg,
    ticked,
    int_text,
    all_digits,
    parse_num,
    i64_max,
    in_i64,
    has_room,
    nd,
    with_scopes,
    sx_push,
    sx_const,
    sx_r32,
    bits_one,
    int_const,
    opt_text,
    path_ident,
    peel,
    ty_ident,
    is_int_type,
    is_bad_scalar,
    is_cmp_op,
    is_compound,
    arith_op,
    cmp_op,
    method1,
    exact32,
    is_zero_float,
    is_zero_int,
    is_stmt_if,
    sx_pat_ident,
    sx_expr_ident,
    sx_const_int,
    open_frame,
    close_frame,
    sx_field,
    sx_lit,
    sx_path,
    sx_index,
    bare_f32_msg,
    unbounded_msg,
    sx_expr,
    sx_widen,
    sx_int_cast,
    sx_cast,
    sx_two,
    sx_binary,
    sx_apply1,
    sx_method,
    u64_max,
    sx_call,
    sx_cond,
    sx_if_value,
    sx_block_value,
    sx_stmt,
    sx_stmts,
    sx_stmt_expr,
    loop_var,
    sx_for,
    sx_unroll,
    sx_merge_frame,
    sx_merge,
    sx_if_stmt,
    targets,
    name_lt,
    insert_name,
    sorted_names,
    fold_inits,
    fold_setup,
    has_fold,
    sx_dup,
    vis_put,
    vis_frame,
    visible,
    sx_dups,
    fold_frame,
    dup_frame,
    foreign_frame,
    lost_binding,
    sx_fold_pass,
    arg_count_ok,
    calls_ok,
    block_calls_ok,
    stmt_calls_ok,
    find_fn,
    first_named,
    struct_fields,
    sig_has,
    bad_scalar,
    array_len,
    is_unsized_slice,
    has_room_n,
    sx_vars,
    sx_fields,
    bad_param_msg,
    bad_return_msg,
    sx_params,
    start_state,
    sx_read_fn,
    fn_calls_ok,
};
use crate::fmt::{decimal, digits_value};
use crate::scopes::{Binding, FrameV, Scopes, declared, frame_declare, frame_get, frame_put, rebound, scopes_get};
use crate::sigma::{Op, op_arity};
use crate::syntax::{BinOp, Block, Expr, FnArg, FnDef, Item, Lit, Pat, SourceFile, Stmt, Ty, UnOp};
use crate::term::{ConstLit, ConstLitV, Node, Term, TermBuilder, lit_view, lits_view, node_ok};
use crate::text::{copy_range, eq, owned, put, put_lit, string_of, wrap};

verus! {

#[derive(Debug)]
pub enum ExtractError {
    Parse(String),
    FnNotFound(String),
    Unsupported(String),
}

// ------------------------------------------------------------- refusals --

fn refuse(m: &str) -> (e: ExtractError)
    ensures
        e matches ExtractError::Unsupported(x) && x@ == m@,
{
    ExtractError::Unsupported(owned(m))
}

fn refuse_wrap(a: &str, x: &[char], b: &str) -> (e: ExtractError)
    ensures
        e matches ExtractError::Unsupported(s) && s@ == a@ + x@ + b@,
{
    ExtractError::Unsupported(wrap(a, x, b))
}

fn refuse_empty() -> (e: ExtractError)
    ensures
        e matches ExtractError::Unsupported(x) && x@ == Seq::<char>::empty(),
{
    ExtractError::Unsupported(String::new())
}

fn refuse_pre(a: &str, x: &[char]) -> (e: ExtractError)
    ensures
        e matches ExtractError::Unsupported(s) && s@ == a@ + x@,
{
    let mut m = crate::text::chars_of(a);
    put(&mut m, x);
    ExtractError::Unsupported(string_of(&m))
}

fn refuse_chars(m: &[char]) -> (e: ExtractError)
    ensures
        e matches ExtractError::Unsupported(x) && x@ == m@,
{
    ExtractError::Unsupported(string_of(m))
}

fn refuse_string(m: String) -> (e: ExtractError)
    ensures
        e matches ExtractError::Unsupported(x) && x@ == m@,
{
    ExtractError::Unsupported(m)
}

/// Whether an exec result agrees with a reading step.
pub open spec fn agrees<T>(r: Result<T, ExtractError>, after: XSt, s: Step<T>) -> bool {
    match s {
        Ok((v, st)) => r == Ok::<T, ExtractError>(v) && after == st,
        Err(m) => r matches Err(ExtractError::Unsupported(x)) && x@ == m,
    }
}

pub open spec fn agrees_err<T, U>(r: Result<T, ExtractError>, s: Result<U, Seq<char>>) -> bool {
    s is Err ==> (r matches Err(ExtractError::Unsupported(x)) && x@ == s->Err_0)
}

// ------------------------------------------------------------- numerals --

/// `{}` of an integer.
fn int_text_exec(k: i128) -> (r: Vec<char>)
    ensures
        r@ == int_text(k as int),
{
    let mag: u128 = if k < 0 {
        (0i128 - (k + 1)) as u128 + 1
    } else {
        k as u128
    };
    let digits = decimal_u128(mag);
    if k < 0 {
        let mut r: Vec<char> = Vec::new();
        r.push('-');
        put(&mut r, &digits);
        assert(r@ =~= seq!['-'] + decimal((-k) as nat));
        r
    } else {
        digits
    }
}

fn decimal_u128(n: u128) -> (r: Vec<char>)
    ensures
        r@ == decimal(n as nat),
    decreases n,
{
    if n < 10 {
        let mut v: Vec<char> = Vec::new();
        v.push(((n as u8) + 48) as char);
        assert(v@ =~= seq![crate::fmt::digit_char(n as nat)]);
        v
    } else {
        let mut v = decimal_u128(n / 10);
        v.push((((n % 10) as u8) + 48) as char);
        v
    }
}

/// Decimal digits read into an integer type whose largest value is `max`.
fn parse_num_exec(d: &[char], max: u128) -> (r: Result<u128, String>)
    requires
        max >= 9,
    ensures
        match parse_num(d@, max as nat) {
            Ok(v) => r == Ok::<u128, String>(v as u128),
            Err(m) => r matches Err(x) && x@ == m,
        },
{
    if d.len() == 0 {
        return Err(owned("cannot parse integer from empty string"));
    }
    let mut i: usize = 0;
    while i < d.len()
        invariant
            i <= d@.len(),
            forall|j: int| 0 <= j < i ==> '0' <= #[trigger] d@[j] <= '9',
        decreases d@.len() - i,
    {
        if !('0' <= d[i] && d[i] <= '9') {
            return Err(owned("invalid digit found in string"));
        }
        i += 1;
    }
    let mut acc: u128 = 0;
    let mut k: usize = 0;
    assert(d@.take(0) =~= Seq::<char>::empty());
    while k < d.len()
        invariant
            k <= d@.len(),
            all_digits(d@),
            acc == digits_value(d@.take(k as int)),
            acc <= max,
            max >= 9,
        decreases d@.len() - k,
    {
        assert(d@.take(k + 1).drop_last() =~= d@.take(k as int));
        let dig = (d[k] as u32 - 48) as u128;
        if acc > (max - dig) / 10 {
            proof {
                crate::fmt::lemma_digits_value_mono(d@, k + 1);
                assert(digits_value(d@.take(k + 1)) == 10 * acc + dig);
                assert(10 * acc + dig > max) by (nonlinear_arith)
                    requires acc > (max - dig) / 10, dig <= 9, max >= 9;
                assert(d@.take(d@.len() as int) =~= d@);
            }
            return Err(owned("number too large to fit in target type"));
        }
        proof {
            assert(10 * acc + dig <= max) by (nonlinear_arith)
                requires acc <= (max - dig) / 10, dig <= 9, max >= dig;
        }
        acc = acc * 10 + dig;
        k += 1;
    }
    assert(d@.take(d@.len() as int) =~= d@);
    Ok(acc)
}

// ------------------------------------------------------------- bindings --

/// A binding refers only to nodes below `n`.
pub open spec fn bind_ok(b: Binding, n: nat) -> bool {
    match b {
        Binding::Node(id) => id < n,
        Binding::Array(first, len) => first + len <= n,
        _ => true,
    }
}

pub open spec fn frame_ok(f: FrameV, n: nat) -> bool {
    forall|j: int| 0 <= j < f.len() ==> bind_ok(#[trigger] f[j].1, n)
}

/// Every binding of the scopes refers only to nodes below `n`.
pub open spec fn binds_ok(fs: Seq<FrameV>, n: nat) -> bool {
    forall|i: int| 0 <= i < fs.len() ==> frame_ok(#[trigger] fs[i], n)
}

proof fn lemma_frame_get_ok(f: FrameV, k: Seq<char>, n: nat)
    requires
        frame_ok(f, n),
        frame_get(f, k) is Some,
    ensures
        bind_ok(frame_get(f, k)->0, n),
    decreases f.len(),
{
    if f[0].0 != k {
        assert(frame_ok(f.drop_first(), n)) by {
            assert forall|j: int| 0 <= j < f.drop_first().len() implies bind_ok(
                #[trigger] f.drop_first()[j].1,
                n,
            ) by {
                assert(f.drop_first()[j] == f[j + 1]);
            }
        }
        lemma_frame_get_ok(f.drop_first(), k, n);
    } else {
        assert(bind_ok(f[0].1, n));
    }
}

/// What a name is bound to refers only to existing nodes.
proof fn lemma_get_ok(fs: Seq<FrameV>, k: Seq<char>, n: nat)
    requires
        binds_ok(fs, n),
        scopes_get(fs, k) is Some,
    ensures
        bind_ok(scopes_get(fs, k)->0, n),
    decreases fs.len(),
{
    assert(frame_ok(fs[fs.len() - 1], n));
    if frame_get(fs.last(), k) is Some {
        lemma_frame_get_ok(fs.last(), k, n);
    } else {
        assert(binds_ok(fs.drop_last(), n)) by {
            assert forall|i: int| 0 <= i < fs.drop_last().len() implies frame_ok(
                #[trigger] fs.drop_last()[i],
                n,
            ) by {
                assert(fs.drop_last()[i] == fs[i]);
            }
        }
        lemma_get_ok(fs.drop_last(), k, n);
    }
}

proof fn lemma_ok_mono(fs: Seq<FrameV>, n: nat, m: nat)
    requires
        binds_ok(fs, n),
        n <= m,
    ensures
        binds_ok(fs, m),
{
    assert forall|i: int| 0 <= i < fs.len() implies frame_ok(#[trigger] fs[i], m) by {
        assert(frame_ok(fs[i], n));
        assert forall|j: int| 0 <= j < fs[i].len() implies bind_ok(#[trigger] fs[i][j].1, m) by {
            assert(bind_ok(fs[i][j].1, n));
        }
    }
}

proof fn lemma_frame_declare_ok(f: FrameV, k: Seq<char>, b: Binding, n: nat)
    requires
        frame_ok(f, n),
        bind_ok(b, n),
    ensures
        frame_ok(frame_declare(f, k, b), n),
{
    let g = frame_declare(f, k, b);
    assert forall|j: int| 0 <= j < g.len() implies bind_ok(#[trigger] g[j].1, n) by {
        if frame_get(f, k) is Some {
            assert(g == frame_put(f, k, b));
        } else {
            if j < f.len() {
                assert(g[j] == f[j]);
            }
        }
    }
}

proof fn lemma_declared_ok(fs: Seq<FrameV>, k: Seq<char>, b: Binding, n: nat)
    requires
        binds_ok(fs, n),
        bind_ok(b, n),
        fs.len() > 0,
    ensures
        binds_ok(declared(fs, k, b), n),
        declared(fs, k, b).len() == fs.len(),
{
    assert(frame_ok(fs[fs.len() - 1], n));
    lemma_frame_declare_ok(fs.last(), k, b, n);
    let g = declared(fs, k, b);
    assert forall|i: int| 0 <= i < g.len() implies frame_ok(#[trigger] g[i], n) by {
        if i != fs.len() - 1 {
            assert(g[i] == fs[i]);
        }
    }
}

proof fn lemma_rebound_ok(fs: Seq<FrameV>, k: Seq<char>, b: Binding, n: nat)
    requires
        binds_ok(fs, n),
        bind_ok(b, n),
    ensures
        binds_ok(rebound(fs, k, b), n),
        rebound(fs, k, b).len() == fs.len(),
    decreases fs.len(),
{
    if fs.len() > 0 {
        assert(frame_ok(fs[fs.len() - 1], n));
        let g = rebound(fs, k, b);
        if frame_get(fs.last(), k) is Some {
            assert(frame_ok(frame_put(fs.last(), k, b), n)) by {
                let f = fs.last();
                let h = frame_put(f, k, b);
                assert forall|j: int| 0 <= j < h.len() implies bind_ok(#[trigger] h[j].1, n) by {
                    assert(bind_ok(f[j].1, n));
                }
            }
            assert forall|i: int| 0 <= i < g.len() implies frame_ok(#[trigger] g[i], n) by {
                if i < fs.len() - 1 {
                    assert(g[i] == fs[i]);
                }
            }
        } else {
            assert(binds_ok(fs.drop_last(), n)) by {
                assert forall|i: int| 0 <= i < fs.drop_last().len() implies frame_ok(
                    #[trigger] fs.drop_last()[i],
                    n,
                ) by {
                    assert(fs.drop_last()[i] == fs[i]);
                }
            }
            lemma_rebound_ok(fs.drop_last(), k, b, n);
            let r = rebound(fs.drop_last(), k, b);
            assert forall|i: int| 0 <= i < g.len() implies frame_ok(#[trigger] g[i], n) by {
                if i < r.len() {
                    assert(g[i] == r[i]);
                } else {
                    assert(g[i] == fs.last());
                }
            }
        }
    }
}

proof fn lemma_push_frame_ok(fs: Seq<FrameV>, f: FrameV, n: nat)
    requires
        binds_ok(fs, n),
        frame_ok(f, n),
    ensures
        binds_ok(fs.push(f), n),
{
    assert forall|i: int| 0 <= i < fs.push(f).len() implies frame_ok(#[trigger] fs.push(f)[i], n) by {
        if i < fs.len() {
            assert(fs.push(f)[i] == fs[i]);
        }
    }
}

proof fn lemma_drop_frame_ok(fs: Seq<FrameV>, n: nat)
    requires
        binds_ok(fs, n),
        fs.len() > 0,
    ensures
        binds_ok(fs.drop_last(), n),
{
    assert forall|i: int| 0 <= i < fs.drop_last().len() implies frame_ok(
        #[trigger] fs.drop_last()[i],
        n,
    ) by {
        assert(fs.drop_last()[i] == fs[i]);
    }
}

// ---------------------------------------------------------------- reader --

/// The reader: the arena under construction, and whether the function is
/// read in f32 mode.
struct Cx {
    b: TermBuilder,
    single: bool,
}

impl Cx {
    spec fn at(&self, sc: Scopes) -> XSt {
        XSt { nodes: self.b.nodes@, consts: lits_view(self.b.consts@), scopes: sc.view() }
    }

    /// The reader and the scopes fit together: a well-formed arena, at least
    /// one frame, every binding naming existing nodes.
    spec fn ready(&self, sc: Scopes) -> bool {
        &&& self.b.inv()
        &&& sc.wf()
        &&& sc.view().len() > 0
        &&& binds_ok(sc.view(), self.b.nodes@.len())
    }

    /// What a successful step keeps: readiness, the number of frames, and
    /// the arena only grows.
    spec fn kept(&self, sc: Scopes, after: Cx, sc2: Scopes) -> bool {
        &&& after.ready(sc2)
        &&& sc2.view().len() == sc.view().len()
        &&& self.b.nodes@.len() <= after.b.nodes@.len()
    }

    fn put_node(&mut self, sc: &Scopes, n: Node) -> (r: Result<u32, ExtractError>)
        requires
            old(self).b.inv(),
            n.op == Op::Const ==> n.a < old(self).b.consts@.len(),
            op_arity(n.op) >= 1 ==> n.a < old(self).b.nodes@.len(),
            op_arity(n.op) >= 2 ==> n.b < old(self).b.nodes@.len(),
            op_arity(n.op) >= 3 ==> n.c < old(self).b.nodes@.len(),
        ensures
            old(self).ready(*sc) ==> final(self).ready(*sc),
            final(self).single == old(self).single,
            final(self).b.inv(),
            agrees(r, final(self).at(*sc), sx_push(old(self).at(*sc), n)),
            r is Ok ==> final(self).b.nodes@.len() == old(self).b.nodes@.len() + 1 && r->Ok_0
                == old(self).b.nodes@.len(),
            r is Err ==> final(self).b.nodes@ == old(self).b.nodes@ && final(self).b.consts@ == old(
                self,
            ).b.consts@,
    {
        if !self.b.room(1) {
            return Err(refuse("term exceeds the u32 node-id space"));
        }
        let id = self.b.push(n);
        proof {
            if old(self).ready(*sc) {
                lemma_ok_mono(sc.view(), old(self).b.nodes@.len(), self.b.nodes@.len());
            }
        }
        assert(self.at(*sc) =~= XSt {
            nodes: old(self).b.nodes@.push(n),
            consts: lits_view(old(self).b.consts@),
            scopes: sc.view(),
        });
        Ok(id)
    }

    fn put_const(&mut self, sc: &Scopes, c: ConstLit) -> (r: Result<u32, ExtractError>)
        requires
            old(self).b.inv(),
        ensures
            old(self).ready(*sc) ==> final(self).ready(*sc),
            final(self).single == old(self).single,
            final(self).b.inv(),
            agrees(r, final(self).at(*sc), sx_const(old(self).at(*sc), lit_view(c))),
            r is Ok ==> final(self).b.nodes@.len() == old(self).b.nodes@.len() + 1 && r->Ok_0
                == old(self).b.nodes@.len(),
            r is Err ==> final(self).b.nodes@ == old(self).b.nodes@ && final(self).b.consts@ == old(
                self,
            ).b.consts@,
    {
        if !self.b.room(1) {
            return Err(refuse("term exceeds the u32 node-id space"));
        }
        let ghost v = lit_view(c);
        let id = self.b.constant(c);
        proof {
            if old(self).ready(*sc) {
                lemma_ok_mono(sc.view(), old(self).b.nodes@.len(), self.b.nodes@.len());
            }
        }
        assert(lits_view(self.b.consts@) =~= lits_view(old(self).b.consts@).push(v));
        assert(self.at(*sc) =~= XSt {
            nodes: old(self).b.nodes@.push(nd(Op::Const, old(self).b.consts@.len() as u32, 0, 0)),
            consts: lits_view(old(self).b.consts@).push(v),
            scopes: sc.view(),
        });
        Ok(id)
    }

    /// In f32 mode, round the result of a rounding operation to binary32.
    fn r32(&mut self, sc: &Scopes, id: u32) -> (r: Result<u32, ExtractError>)
        requires
            old(self).b.inv(),
            id < old(self).b.nodes@.len(),
        ensures
            old(self).ready(*sc) ==> final(self).ready(*sc),
            final(self).single == old(self).single,
            final(self).b.inv(),
            agrees(r, final(self).at(*sc), sx_r32(old(self).at(*sc), id, old(self).single)),
            r is Ok ==> old(self).b.nodes@.len() <= final(self).b.nodes@.len() && r->Ok_0
                < final(self).b.nodes@.len(),
    {
        if self.single {
            self.put_node(sc, Node { op: Op::Rnd32, a: id, b: 0, c: 0 })
        } else {
            Ok(id)
        }
    }
}

// ------------------------------------------------------------ leaf reads --

fn copy_chars(v: &Vec<char>) -> (r: Vec<char>)
    ensures
        r@ == v@,
{
    let r = copy_range(v, 0, v.len());
    assert(r@ =~= v@);
    r
}

fn pat_ident(p: &Pat) -> (r: Result<Vec<char>, ExtractError>)
    ensures
        match sx_pat_ident(*p) {
            Ok(n) => r matches Ok(v) && v@ == n,
            Err(m) => r matches Err(ExtractError::Unsupported(x)) && x@ == m,
        },
    decreases p,
{
    match p {
        Pat::Ident(n) => Ok(copy_chars(n)),
        Pat::Typed(q) => pat_ident(q),
        _ => Err(refuse("pattern binding")),
    }
}

fn expr_ident(e: &Expr) -> (r: Result<Vec<char>, ExtractError>)
    ensures
        match sx_expr_ident(*e) {
            Ok(n) => r matches Ok(v) && v@ == n,
            Err(m) => r matches Err(ExtractError::Unsupported(x)) && x@ == m,
        },
{
    match e {
        Expr::Path(id, _) => match id {
            Some(n) => Ok(copy_chars(n)),
            None => Err(refuse("qualified lvalue")),
        },
        _ => Err(refuse("non-identifier lvalue")),
    }
}

/// The identifier of a path expression that is a single bare one.
fn path_ident_exec(e: &Expr) -> (r: Option<&Vec<char>>)
    ensures
        match path_ident(*e) {
            Some(n) => r matches Some(v) && v@ == n,
            None => r is None,
        },
{
    match e {
        Expr::Path(Some(n), _) => Some(n),
        _ => None,
    }
}

fn ty_ident_exec(t: &Ty) -> (r: Option<&Vec<char>>)
    ensures
        match ty_ident(*t) {
            Some(n) => r matches Some(v) && v@ == n,
            None => r is None,
        },
{
    match t {
        Ty::Path(Some(n)) => Some(n),
        _ => None,
    }
}

fn is_int_type_exec(t: &[char]) -> (r: bool)
    ensures
        r == is_int_type(t@),
{
    crate::text::lit_is(t, "i8") || crate::text::lit_is(t, "i16") || crate::text::lit_is(t, "i32")
        || crate::text::lit_is(t, "i64") || crate::text::lit_is(t, "i128") || crate::text::lit_is(
        t,
        "u8",
    ) || crate::text::lit_is(t, "u16") || crate::text::lit_is(t, "u32") || crate::text::lit_is(
        t,
        "u64",
    ) || crate::text::lit_is(t, "u128") || crate::text::lit_is(t, "isize") || crate::text::lit_is(
        t,
        "usize",
    )
}

fn method1_exec(n: &[char]) -> (r: Option<Op>)
    ensures
        r == method1(n@),
{
    if crate::text::lit_is(n, "sin") {
        Some(Op::Sin)
    } else if crate::text::lit_is(n, "cos") {
        Some(Op::Cos)
    } else if crate::text::lit_is(n, "tan") {
        Some(Op::Tan)
    } else if crate::text::lit_is(n, "exp") {
        Some(Op::Exp)
    } else if crate::text::lit_is(n, "exp2") {
        Some(Op::Exp2)
    } else if crate::text::lit_is(n, "ln") {
        Some(Op::Ln)
    } else if crate::text::lit_is(n, "sqrt") {
        Some(Op::Sqrt)
    } else if crate::text::lit_is(n, "abs") {
        Some(Op::Abs)
    } else if crate::text::lit_is(n, "floor") {
        Some(Op::Floor)
    } else if crate::text::lit_is(n, "ceil") {
        Some(Op::Ceil)
    } else {
        None
    }
}

fn arith_op_exec(op: BinOp) -> (r: Op)
    ensures
        r == arith_op(op),
{
    match op {
        BinOp::Add | BinOp::AddAssign => Op::Add,
        BinOp::Sub | BinOp::SubAssign => Op::Sub,
        BinOp::Mul | BinOp::MulAssign => Op::Mul,
        _ => Op::Div,
    }
}

fn cmp_op_exec(op: BinOp) -> (r: Op)
    ensures
        r == cmp_op(op),
{
    match op {
        BinOp::Lt => Op::Lt,
        BinOp::Gt => Op::Gt,
        BinOp::Le => Op::Le,
        BinOp::Ge => Op::Ge,
        BinOp::Eq => Op::Eq,
        _ => Op::Ne,
    }
}

/// A compile-time integer (a loop bound, an index).
fn const_int(e: &Expr, sc: &Scopes) -> (r: Result<i64, ExtractError>)
    ensures
        match sx_const_int(*e, sc.view()) {
            Ok(v) => r matches Ok(x) && x as int == v,
            Err(m) => r matches Err(ExtractError::Unsupported(x)) && x@ == m,
        },
    decreases e,
{
    match e {
        Expr::Lit(l) => match l {
            Lit::Int(d) => match parse_num_exec(d, 0x7fff_ffff_ffff_ffff) {
                Ok(v) => Ok(v as i64),
                Err(m) => Err(refuse_string(m)),
            },
            _ => Err(refuse("non-int index")),
        },
        Expr::Path(id, _) => {
            let name: Vec<char> = match id {
                Some(n) => copy_chars(n),
                None => Vec::new(),
            };
            proof {
                if id is None {
                    assert(name@ =~= Seq::<char>::empty());
                }
            }
            match sc.lookup(&name) {
                Some(Binding::Int(k)) => Ok(*k),
                Some(Binding::LoopIdx) => Err(refuse("fold loop var in a constant-index position")),
                _ => Err(
                    refuse_wrap(
                        "index `",
                        &name,
                        "` is not a compile-time int (dynamic indexing needs the fold roadmap item)",
                    ),
                ),
            }
        },
        Expr::Binary(op, l, r) => {
            let a = const_int(l, sc)?;
            let b = const_int(r, sc)?;
            let v: i128 = if *op == BinOp::Add {
                a as i128 + b as i128
            } else if *op == BinOp::Sub {
                a as i128 - b as i128
            } else {
                proof {
                    assert(-0x8000_0000_0000_0000 * 0x8000_0000_0000_0000 <= a * b <= 0x8000_0000_0000_0000 * 0x8000_0000_0000_0000) by (nonlinear_arith)
                        requires -0x8000_0000_0000_0000 <= a <= 0x7fff_ffff_ffff_ffff, -0x8000_0000_0000_0000 <= b <= 0x7fff_ffff_ffff_ffff;
                }
                a as i128 * b as i128
            };
            if !(*op == BinOp::Add || *op == BinOp::Sub || *op == BinOp::Mul) {
                Err(refuse("index arithmetic op"))
            } else if v < -0x8000_0000_0000_0000 || v > 0x7fff_ffff_ffff_ffff {
                Err(refuse("integer overflow in a compile-time bound"))
            } else {
                Ok(v as i64)
            }
        },
        Expr::Paren(x) => const_int(x, sc),
        _ => Err(refuse("non-constant index expression")),
    }
}

impl Cx {
    /// A receiver field read `self.m`.
    fn field(&self, e: &Expr, sc: &Scopes) -> (r: Result<u32, ExtractError>)
        requires
            self.ready(*sc),
            e is Field,
        ensures
            agrees(r, self.at(*sc), sx_field(*e, self.at(*sc))),
            r is Ok ==> r->Ok_0 < self.b.nodes@.len(),
    {
        match e {
            Expr::Field(base, member) => {
                let is_self = match path_ident_exec(base) {
                    Some(id) => crate::text::lit_is(id, "self"),
                    None => false,
                };
                proof {
                    reveal_strlit("self");
                }
                if !is_self {
                    return Err(
                        refuse(
                            "field access on a non-receiver value -- struct dataflow beyond `self` flattening is P3 territory",
                        ),
                    );
                }
                match member {
                    None => Err(refuse("tuple-struct receiver field")),
                    Some(m) => {
                        let mut k = crate::text::chars_of("self.");
                        put(&mut k, m);
                        match sc.lookup(&k) {
                            Some(Binding::Node(id)) => {
                                proof {
                                    lemma_get_ok(sc.view(), k@, self.b.nodes@.len());
                                }
                                Ok(*id)
                            },
                            Some(Binding::NonF64Field(t)) => {
                                let mut msg = crate::text::chars_of("reads non-f64 receiver field `");
                                put(&mut msg, m);
                                put_lit(&mut msg, ": ");
                                let tc = crate::text::chars_of(t.as_str());
                                put(&mut msg, &tc);
                                put_lit(
                                    &mut msg,
                                    "` -- Sigma is f64-only; receiver flattening covers f64 fields (non-f64 state: the audit's effort class)",
                                );
                                Err(refuse_chars(&msg))
                            },
                            _ => Err(refuse_wrap("unknown receiver field `", m, "`")),
                        }
                    },
                }
            },
            _ => Err(refuse_empty()),
        }
    }

    fn lit(&mut self, l: &Lit, sc: &Scopes) -> (r: Result<u32, ExtractError>)
        requires
            old(self).b.inv(),
        ensures
            old(self).ready(*sc) ==> final(self).ready(*sc),
            final(self).single == old(self).single,
            final(self).b.inv(),
            agrees(r, final(self).at(*sc), sx_lit(*l, old(self).at(*sc), old(self).single)),
            r is Ok ==> final(self).b.nodes@.len() == old(self).b.nodes@.len() + 1 && r->Ok_0
                < final(self).b.nodes@.len(),
    {
        match l {
            Lit::Float { bits, bits32 } => self.put_const(
                sc,
                ConstLit::Bits(
                    if self.single {
                        *bits32
                    } else {
                        *bits
                    },
                ),
            ),
            Lit::BadFloat(m) => Err(ExtractError::Unsupported(m.clone())),
            Lit::Int(d) => match parse_num_exec(d, 0x7fff_ffff_ffff_ffff) {
                Ok(v) => self.put_const(sc, ConstLit::Decimal(int_text_exec(v as i128))),
                Err(m) => Err(refuse_string(m)),
            },
            Lit::Other => Err(refuse("non-numeric literal")),
        }
    }

    fn path(&mut self, e: &Expr, sc: &Scopes) -> (r: Result<u32, ExtractError>)
        requires
            old(self).ready(*sc),
            e is Path,
        ensures
            old(self).ready(*sc) ==> final(self).ready(*sc),
            final(self).single == old(self).single,
            final(self).b.inv(),
            agrees(r, final(self).at(*sc), sx_path(*e, old(self).at(*sc))),
            r is Ok ==> old(self).b.nodes@.len() <= final(self).b.nodes@.len() && r->Ok_0
                < final(self).b.nodes@.len(),
    {
        match e {
            Expr::Path(id, _) => match id {
                None => Err(refuse("qualified path")),
                Some(name) => match sc.lookup(name) {
                    Some(Binding::Node(id)) => {
                        proof {
                            lemma_get_ok(sc.view(), name@, self.b.nodes@.len());
                        }
                        Ok(*id)
                    },
                    Some(Binding::Int(k)) => self.put_const(
                        sc,
                        ConstLit::Decimal(int_text_exec(*k as i128)),
                    ),
                    Some(Binding::Array(_, _)) => Err(refuse_wrap("array `", name, "` used as a scalar")),
                    Some(Binding::Sequence(_)) => Err(
                        refuse_wrap("sequence `", name, "` used as a scalar"),
                    ),
                    Some(Binding::LoopIdx) => Err(refuse("fold loop var used outside `s[__i]` indexing")),
                    Some(Binding::Foreign) => Err(
                        refuse_wrap(
                            "fold body reads co-accumulator `",
                            name,
                            "` -- coupled recurrences (Welford-style) have no fission; cross-accumulator folds are on the roadmap",
                        ),
                    ),
                    Some(Binding::NonF64Field(t)) => {
                        let mut msg = crate::text::chars_of("reads non-f64 receiver field `");
                        put(&mut msg, name);
                        put_lit(&mut msg, ": ");
                        let tc = crate::text::chars_of(t.as_str());
                        put(&mut msg, &tc);
                        put_lit(&mut msg, "` -- Sigma is f64-only");
                        Err(refuse_chars(&msg))
                    },
                    None => Err(refuse_wrap("unbound `", name, "`")),
                },
            },
            _ => Err(refuse_empty()),
        }
    }

    /// `s[i]` with the fold loop variable, or a constant index into an array
    /// parameter.
    fn index(&mut self, e: &Expr, sc: &Scopes) -> (r: Result<u32, ExtractError>)
        requires
            old(self).ready(*sc),
            e is Index,
        ensures
            old(self).ready(*sc) ==> final(self).ready(*sc),
            final(self).single == old(self).single,
            final(self).b.inv(),
            agrees(r, final(self).at(*sc), sx_index(*e, old(self).at(*sc))),
            r is Ok ==> old(self).b.nodes@.len() <= final(self).b.nodes@.len() && r->Ok_0
                < final(self).b.nodes@.len(),
    {
        match e {
            Expr::Index(base, index) => {
                let name = match path_ident_exec(base) {
                    Some(n) => n,
                    None => {
                        return Err(refuse("indexing a non-identifier"));
                    },
                };
                if let Some(Binding::Sequence(k)) = sc.lookup(name) {
                    let k = *k;
                    let ok = match path_ident_exec(index) {
                        Some(i) => matches!(sc.lookup(i), Some(Binding::LoopIdx)),
                        None => false,
                    };
                    if ok {
                        return self.put_node(sc, Node { op: Op::Elem, a: k, b: 0, c: 0 });
                    } else {
                        return Err(
                            refuse_wrap(
                                "sequence `",
                                name,
                                "` indexed by a non-loop expression (windowed/offset access: roadmap)",
                            ),
                        );
                    }
                }
                let idx = const_int(index, sc)?;
                match sc.lookup(name) {
                    Some(Binding::Array(first, len)) => {
                        if 0 <= idx && idx < *len as i64 {
                            proof {
                                lemma_get_ok(sc.view(), name@, self.b.nodes@.len());
                            }
                            Ok(*first + idx as u32)
                        } else {
                            let mut msg = crate::text::chars_of("index ");
                            let it = int_text_exec(idx as i128);
                            put(&mut msg, &it);
                            put_lit(&mut msg, " out of bounds for `");
                            put(&mut msg, name);
                            put_lit(&mut msg, "` (len ");
                            let lt = decimal_u128(*len as u128);
                            put(&mut msg, &lt);
                            put_lit(&mut msg, ")");
                            Err(refuse_chars(&msg))
                        }
                    },
                    _ => Err(refuse_wrap("`", name, "` is not an array param")),
                }
            },
            _ => Err(refuse_empty()),
        }
    }
}

// ------------------------------------------------------------- the walk --

fn is_cmp_exec(op: BinOp) -> (r: bool)
    ensures
        r == is_cmp_op(op),
{
    match op {
        BinOp::Lt | BinOp::Gt | BinOp::Le | BinOp::Ge | BinOp::Eq | BinOp::Ne => true,
        _ => false,
    }
}

fn is_compound_exec(op: BinOp) -> (r: bool)
    ensures
        r == is_compound(op),
{
    match op {
        BinOp::AddAssign | BinOp::SubAssign | BinOp::MulAssign | BinOp::DivAssign => true,
        _ => false,
    }
}

fn is_zero_float_exec(e: &Expr) -> (r: bool)
    ensures
        r == is_zero_float(*e),
{
    match e {
        Expr::Lit(Lit::Float { bits, bits32: _ }) => *bits == 0 || *bits == 0x8000_0000_0000_0000,
        _ => false,
    }
}

fn is_stmt_if_exec(b: &Block) -> (r: bool)
    ensures
        r == is_stmt_if(*b),
{
    let n = b.stmts.len();
    if n == 0 {
        return true;
    }
    match &b.stmts[n - 1] {
        Stmt::Expr(e, semi) => {
            let valueish = match e {
                Expr::Assign(_, _, _) | Expr::ForLoop(_, _, _) | Expr::If(_, _, _) => false,
                _ => true,
            };
            !(!*semi && valueish)
        },
        _ => true,
    }
}

proof fn lemma_method1_unary(n: Seq<char>)
    requires
        method1(n) is Some,
    ensures
        op_arity(method1(n)->0) == 1,
        method1(n)->0 != Op::Const,
{
}

proof fn lemma_rebound_absent(fs: Seq<FrameV>, k: Seq<char>, b: Binding)
    requires
        scopes_get(fs, k) is None,
    ensures
        rebound(fs, k, b) == fs,
    decreases fs.len(),
{
    if fs.len() > 0 {
        lemma_rebound_absent(fs.drop_last(), k, b);
        assert(rebound(fs, k, b) =~= fs);
    }
}

impl Cx {
    fn expr(&mut self, e: &Expr, sc: &mut Scopes) -> (r: Result<u32, ExtractError>)
        requires
            old(self).ready(*old(sc)),
            calls_ok(*e),
        ensures
            final(self).single == old(self).single,
            agrees(r, final(self).at(*final(sc)), sx_expr(*e, old(self).at(*old(sc)), old(self).single)),
            r is Ok ==> old(self).kept(*old(sc), *final(self), *final(sc)) && r->Ok_0
                < final(self).b.nodes@.len(),
        decreases e, 2nat,
    {
        match e {
            Expr::Paren(x) => self.expr(x, sc),
            Expr::Group(x) => self.expr(x, sc),
            Expr::Field(_, _) => self.field(e, sc),
            Expr::Lit(l) => self.lit(l, sc),
            Expr::Path(_, _) => self.path(e, sc),
            Expr::Index(_, _) => self.index(e, sc),
            Expr::Cast(_, _) => self.cast(e, sc),
            Expr::Unary(op, x) => if *op == UnOp::Neg {
                let a = self.expr(x, sc)?;
                self.put_node(sc, Node { op: Op::Neg, a, b: 0, c: 0 })
            } else {
                Err(refuse("unary op"))
            },
            Expr::Binary(_, _, _) => self.binary(e, sc),
            Expr::MethodCall(_, _, _) => self.method(e, sc),
            Expr::Call(_, _) => self.call(e, sc),
            Expr::If(_, _, _) => self.if_value(e, sc),
            Expr::Block(b) => self.block_value(b, sc),
            Expr::Return(x) => match x {
                Some(y) => self.expr(y, sc),
                None => Err(refuse("bare return")),
            },
            Expr::While | Expr::Loop => Err(
                refuse(
                    "unbounded loop: Term_p is total \u{2014} use `for LO..HI` with literal bounds (unrolled); a fold operator in \u{3a3} is the roadmap item",
                ),
            ),
            Expr::ForLoop(_, _, _) => Err(refuse("`for` used as a value expression")),
            Expr::Assign(_, _, form) => Err(refuse_pre("expression form ", form)),
            Expr::Range(_, _, _, form) => Err(refuse_pre("expression form ", form)),
            Expr::Other(form) => Err(refuse_pre("expression form ", form)),
        }
    }

    fn widen(&mut self, x: &Expr, sc: &mut Scopes) -> (r: Result<u32, ExtractError>)
        requires
            old(self).ready(*old(sc)),
            calls_ok(*x),
        ensures
            final(self).single == old(self).single,
            agrees(r, final(self).at(*final(sc)), sx_widen(*x, old(self).at(*old(sc)), old(self).single)),
            r is Ok ==> old(self).kept(*old(sc), *final(self), *final(sc)) && r->Ok_0
                < final(self).b.nodes@.len(),
        decreases x, 3nat,
    {
        match x {
            Expr::Paren(y) => self.widen(y, sc),
            Expr::Cast(z, t2) => {
                let is32 = match ty_ident_exec(t2) {
                    Some(t) => crate::text::lit_is(t, "f32"),
                    None => false,
                };
                if is32 {
                    let a = self.expr(z, sc)?;
                    self.put_node(sc, Node { op: Op::Rnd32, a, b: 0, c: 0 })
                } else {
                    self.expr(x, sc)
                }
            },
            _ => self.expr(x, sc),
        }
    }

    fn int_cast(&mut self, x: &Expr, t: &[char], sc: &mut Scopes) -> (r: Result<u32, ExtractError>)
        requires
            old(self).ready(*old(sc)),
            calls_ok(*x),
        ensures
            final(self).single == old(self).single,
            agrees(
                r,
                final(self).at(*final(sc)),
                sx_int_cast(*x, t@, old(self).at(*old(sc)), old(self).single),
            ),
            r is Ok ==> old(self).kept(*old(sc), *final(self), *final(sc)) && r->Ok_0
                < final(self).b.nodes@.len(),
        decreases x, 3nat,
    {
        match x {
            Expr::Paren(y) => self.int_cast(y, t, sc),
            Expr::Binary(op, _, _) => if is_cmp_exec(*op) {
                self.expr(x, sc)
            } else {
                Err(refuse_wrap("`as ", t, "` truncates -- integer casts change the value, no Sigma reading"))
            },
            _ => Err(refuse_wrap("`as ", t, "` truncates -- integer casts change the value, no Sigma reading")),
        }
    }

    fn cast(&mut self, e: &Expr, sc: &mut Scopes) -> (r: Result<u32, ExtractError>)
        requires
            old(self).ready(*old(sc)),
            calls_ok(*e),
        ensures
            final(self).single == old(self).single,
            agrees(r, final(self).at(*final(sc)), sx_cast(*e, old(self).at(*old(sc)), old(self).single)),
            r is Ok ==> old(self).kept(*old(sc), *final(self), *final(sc)) && r->Ok_0
                < final(self).b.nodes@.len(),
        decreases e, 1nat,
    {
        match e {
            Expr::Cast(inner, ty) => match ty_ident_exec(ty) {
                Some(t) => if crate::text::lit_is(t, "f64") {
                    self.widen(inner, sc)
                } else if crate::text::lit_is(t, "f32") {
                    if self.single {
                        let a = self.expr(inner, sc)?;
                        self.put_node(sc, Node { op: Op::Rnd32, a, b: 0, c: 0 })
                    } else {
                        Err(
                            refuse(
                                "bare `as f32` in an f64 function -- the f32-typed intermediate makes downstream ops f32 ops invisible to syntax; only the widened round-trip `(e as f32) as f64` has a Sigma reading (Rnd32)",
                            ),
                        )
                    }
                } else if is_int_type_exec(t) {
                    self.int_cast(inner, t, sc)
                } else {
                    self.expr(inner, sc)
                },
                None => self.expr(inner, sc),
            },
            _ => Err(refuse_empty()),
        }
    }

    fn binary(&mut self, e: &Expr, sc: &mut Scopes) -> (r: Result<u32, ExtractError>)
        requires
            old(self).ready(*old(sc)),
            calls_ok(*e),
        ensures
            final(self).single == old(self).single,
            agrees(r, final(self).at(*final(sc)), sx_binary(*e, old(self).at(*old(sc)), old(self).single)),
            r is Ok ==> old(self).kept(*old(sc), *final(self), *final(sc)) && r->Ok_0
                < final(self).b.nodes@.len(),
        decreases e, 1nat,
    {
        match e {
            Expr::Binary(op, l, r) => {
                let op = *op;
                if op == BinOp::Add || op == BinOp::Sub || op == BinOp::Mul || op == BinOp::Div {
                    let a = self.expr(l, sc)?;
                    let c = self.expr(r, sc)?;
                    let v = self.put_node(sc, Node { op: arith_op_exec(op), a, b: c, c: 0 })?;
                    self.r32(sc, v)
                } else if is_cmp_exec(op) {
                    let a = self.expr(l, sc)?;
                    let c = self.expr(r, sc)?;
                    self.put_node(sc, Node { op: cmp_op_exec(op), a, b: c, c: 0 })
                } else {
                    Err(refuse("unsupported binary op"))
                }
            },
            _ => Err(refuse_empty()),
        }
    }

    /// A one-operand float function applied to node `a`.
    fn apply1(&mut self, sc: &Scopes, op: Op, a: u32, refusal: &[char]) -> (r: Result<u32, ExtractError>)
        requires
            old(self).b.inv(),
            op_arity(op) == 1,
            a < old(self).b.nodes@.len(),
        ensures
            final(self).single == old(self).single,
            final(self).b.inv(),
            old(self).ready(*sc) ==> final(self).ready(*sc),
            agrees(
                r,
                final(self).at(*sc),
                sx_apply1(op, a, old(self).at(*sc), old(self).single, refusal@),
            ),
            r is Ok ==> old(self).b.nodes@.len() <= final(self).b.nodes@.len() && r->Ok_0
                < final(self).b.nodes@.len(),
    {
        if self.single {
            if op == Op::Sqrt {
                let v = self.put_node(sc, Node { op: Op::Sqrt, a, b: 0, c: 0 })?;
                self.r32(sc, v)
            } else if op == Op::Abs || op == Op::Floor || op == Op::Ceil {
                self.put_node(sc, Node { op, a, b: 0, c: 0 })
            } else {
                Err(refuse_chars(refusal))
            }
        } else {
            self.put_node(sc, Node { op, a, b: 0, c: 0 })
        }
    }

    fn method(&mut self, e: &Expr, sc: &mut Scopes) -> (r: Result<u32, ExtractError>)
        requires
            old(self).ready(*old(sc)),
            calls_ok(*e),
        ensures
            final(self).single == old(self).single,
            agrees(r, final(self).at(*final(sc)), sx_method(*e, old(self).at(*old(sc)), old(self).single)),
            r is Ok ==> old(self).kept(*old(sc), *final(self), *final(sc)) && r->Ok_0
                < final(self).b.nodes@.len(),
        decreases e, 1nat,
    {
        match e {
            Expr::MethodCall(recv, name, args) => {
                let n: &[char] = name;
                if crate::text::lit_is(n, "len") && args.len() == 0 {
                    if let Some(s) = path_ident_exec(recv) {
                        if let Some(Binding::Sequence(k)) = sc.lookup(s) {
                            let k = *k;
                            return self.put_node(sc, Node { op: Op::Len, a: k, b: 0, c: 0 });
                        }
                    }
                }
                let a = self.expr(recv, sc)?;
                if let Some(op) = method1_exec(n) {
                    proof {
                        lemma_method1_unary(n@);
                    }
                    let mut msg = crate::text::chars_of("f32 `.");
                    put(&mut msg, n);
                    put_lit(&mut msg, "()` -- libm ");
                    put(&mut msg, n);
                    put_lit(&mut msg, "f is not round64(");
                    put(&mut msg, n);
                    put_lit(
                        &mut msg,
                        "): transcendentals have no innocuous double rounding, no Sigma reading",
                    );
                    return self.apply1(sc, op, a, &msg);
                }
                let is_pow = crate::text::lit_is(n, "powf") || crate::text::lit_is(n, "powi");
                let is_min = crate::text::lit_is(n, "min");
                let is_max = crate::text::lit_is(n, "max");
                if is_pow || is_min || is_max {
                    if args.len() < 1 {
                        return Err(refuse_empty());
                    }
                    if self.single && is_pow {
                        return Err(
                            refuse(
                                "f32 `.powf()`/`.powi()` -- powf32 is not round64(pow): no innocuous double rounding, no Sigma reading",
                            ),
                        );
                    }
                    let c = self.expr(&args[0], sc)?;
                    let op = if is_min {
                        Op::Min
                    } else if is_max {
                        Op::Max
                    } else {
                        Op::Pow
                    };
                    self.put_node(sc, Node { op, a, b: c, c: 0 })
                } else if crate::text::lit_is(n, "mul_add") {
                    if args.len() < 2 {
                        return Err(refuse_empty());
                    }
                    if self.single {
                        return Err(
                            refuse(
                                "f32 `.mul_add()` -- fmaf rounds ONCE at 24 bits; Rnd32(f64 fma) double-rounds a fused result, which is NOT innocuous",
                            ),
                        );
                    }
                    let c1 = self.expr(&args[0], sc)?;
                    let c2 = self.expr(&args[1], sc)?;
                    self.put_node(sc, Node { op: Op::Fma, a, b: c1, c: c2 })
                } else if crate::text::lit_is(n, "recip") {
                    let one = self.put_const(sc, ConstLit::Bits(0x3ff0_0000_0000_0000))?;
                    let v = self.put_node(sc, Node { op: Op::Div, a: one, b: a, c: 0 })?;
                    self.r32(sc, v)
                } else {
                    Err(refuse_wrap("method .", n, "() outside \u{3a3}"))
                }
            },
            _ => Err(refuse_empty()),
        }
    }

    fn call(&mut self, e: &Expr, sc: &mut Scopes) -> (r: Result<u32, ExtractError>)
        requires
            old(self).ready(*old(sc)),
            calls_ok(*e),
        ensures
            final(self).single == old(self).single,
            agrees(r, final(self).at(*final(sc)), sx_call(*e, old(self).at(*old(sc)), old(self).single)),
            r is Ok ==> old(self).kept(*old(sc), *final(self), *final(sc)) && r->Ok_0
                < final(self).b.nodes@.len(),
        decreases e, 1nat,
    {
        match e {
            Expr::Call(func, args) => match &**func {
                Expr::Path(_, last) => {
                    let n: &[char] = last;
                    if args.len() == 1 && (crate::text::lit_is(n, "f") || crate::text::lit_is(n, "from")
                        || crate::text::lit_is(n, "cast")) {
                        self.expr(&args[0], sc)
                    } else if crate::text::lit_is(n, "from_bits") && args.len() == 1 {
                        match &args[0] {
                            Expr::Lit(Lit::Int(d)) => match parse_num_exec(d, 0xffff_ffff_ffff_ffff) {
                                Ok(v) => self.put_const(sc, ConstLit::Bits(v as u64)),
                                Err(m) => Err(refuse_string(m)),
                            },
                            _ => Err(refuse("from_bits with non-literal")),
                        }
                    } else if args.len() == 1 && method1_exec(n).is_some() {
                        let op = method1_exec(n).unwrap();
                        proof {
                            lemma_method1_unary(n@);
                        }
                        let a = self.expr(&args[0], sc)?;
                        let mut msg = crate::text::chars_of("f32 `");
                        put(&mut msg, n);
                        put_lit(&mut msg, "` -- no innocuous double rounding for transcendentals");
                        self.apply1(sc, op, a, &msg)
                    } else {
                        Err(refuse_wrap("call `", n, "` outside \u{3a3}"))
                    }
                },
                _ => Err(refuse("indirect call")),
            },
            _ => Err(refuse_empty()),
        }
    }

    /// The condition of an `if`.
    fn cond(&mut self, c: &Expr, sc: &mut Scopes) -> (r: Result<u32, ExtractError>)
        requires
            old(self).ready(*old(sc)),
            calls_ok(*c),
        ensures
            final(self).single == old(self).single,
            agrees(r, final(self).at(*final(sc)), sx_cond(*c, old(self).at(*old(sc)), old(self).single)),
            r is Ok ==> old(self).kept(*old(sc), *final(self), *final(sc)) && r->Ok_0
                < final(self).b.nodes@.len(),
        decreases c, 3nat,
    {
        match c {
            Expr::Binary(op, l, r) => if *op == BinOp::Ne && is_zero_float_exec(r) {
                self.expr(l, sc)
            } else {
                self.expr(c, sc)
            },
            _ => self.expr(c, sc),
        }
    }

    fn if_value(&mut self, e: &Expr, sc: &mut Scopes) -> (r: Result<u32, ExtractError>)
        requires
            old(self).ready(*old(sc)),
            calls_ok(*e),
        ensures
            final(self).single == old(self).single,
            agrees(r, final(self).at(*final(sc)), sx_if_value(*e, old(self).at(*old(sc)), old(self).single)),
            r is Ok ==> old(self).kept(*old(sc), *final(self), *final(sc)) && r->Ok_0
                < final(self).b.nodes@.len(),
        decreases e, 1nat,
    {
        match e {
            Expr::If(c, then_b, els) => {
                let cond = self.cond(c, sc)?;
                let tv = self.block_value(then_b, sc)?;
                match els {
                    None => Err(refuse("value `if` without else")),
                    Some(eb) => {
                        let ev = self.expr(eb, sc)?;
                        self.put_node(sc, Node { op: Op::Select, a: cond, b: tv, c: ev })
                    },
                }
            },
            _ => Err(refuse_empty()),
        }
    }

    fn block_value(&mut self, b: &Block, sc: &mut Scopes) -> (r: Result<u32, ExtractError>)
        requires
            old(self).ready(*old(sc)),
            block_calls_ok(*b),
        ensures
            final(self).single == old(self).single,
            agrees(r, final(self).at(*final(sc)), sx_block_value(*b, old(self).at(*old(sc)), old(self).single)),
            r is Ok ==> old(self).kept(*old(sc), *final(self), *final(sc)) && r->Ok_0
                < final(self).b.nodes@.len(),
        decreases b, 1nat,
    {
        let ghost n0 = sc.view().len();
        sc.push_frame();
        proof {
            lemma_push_frame_ok(old(sc).view(), Seq::empty(), self.b.nodes@.len());
        }
        let last = self.stmts(&b.stmts, sc)?;
        let ghost before = sc.view();
        sc.pop_frame();
        proof {
            lemma_drop_frame_ok(before, self.b.nodes@.len());
        }
        match last {
            Some(v) => Ok(v),
            None => Err(refuse("block yields no value")),
        }
    }
}

impl Cx {
    fn stmts(&mut self, ss: &Vec<Stmt>, sc: &mut Scopes) -> (r: Result<Option<u32>, ExtractError>)
        requires
            old(self).ready(*old(sc)),
            forall|i: int| #![auto] 0 <= i < ss@.len() ==> stmt_calls_ok(ss@[i]),
        ensures
            final(self).single == old(self).single,
            agrees(r, final(self).at(*final(sc)), sx_stmts(ss@, old(self).at(*old(sc)), old(self).single)),
            r is Ok ==> old(self).kept(*old(sc), *final(self), *final(sc)) && (r->Ok_0 matches Some(
                v,
            ) ==> v < final(self).b.nodes@.len()),
        decreases ss@, 0nat,
    {
        let ghost st0 = self.at(*sc);
        let ghost single = self.single;
        let ghost n0 = sc.view().len();
        let ghost len0 = self.b.nodes@.len();
        let ghost target = sx_stmts(ss@, st0, single);
        let mut last: Option<u32> = None;
        let mut i: usize = 0;
        assert(ss@.subrange(0, ss@.len() as int) =~= ss@);
        while i < ss.len()
            invariant
                single == old(self).single,
                st0 == old(self).at(*old(sc)),
                n0 == old(sc).view().len(),
                len0 == old(self).b.nodes@.len(),
                i <= ss@.len(),
                self.single == single,
                forall|j: int| #![auto] 0 <= j < ss@.len() ==> stmt_calls_ok(ss@[j]),
                self.ready(*sc),
                sc.view().len() == n0,
                len0 <= self.b.nodes@.len(),
                target == sx_stmts(ss@, st0, single),
                last matches Some(v) ==> v < self.b.nodes@.len(),
                i == 0 ==> self.at(*sc) == st0,
                i < ss@.len() ==> target == sx_stmts(ss@.subrange(i as int, ss@.len() as int), self.at(*sc), single),
                i == ss@.len() && i > 0 ==> target == Ok::<(Option<u32>, XSt), Seq<char>>((last, self.at(*sc))),
            decreases ss@.len() - i,
        {
            let ghost cur = self.at(*sc);
            let ghost rest = ss@.subrange(i as int, ss@.len() as int);
            assert(rest[0] == ss@[i as int]);
            assert(rest.subrange(1, rest.len() as int) =~= ss@.subrange(i + 1, ss@.len() as int));
            let l1 = self.stmt(&ss[i], sc)?;
            last = l1;
            i += 1;
        }
        if ss.len() == 0 {
            return Ok(None);
        }
        Ok(last)
    }

    fn stmt(&mut self, s: &Stmt, sc: &mut Scopes) -> (r: Result<Option<u32>, ExtractError>)
        requires
            old(self).ready(*old(sc)),
            stmt_calls_ok(*s),
        ensures
            final(self).single == old(self).single,
            agrees(r, final(self).at(*final(sc)), sx_stmt(*s, old(self).at(*old(sc)), old(self).single)),
            r is Ok ==> old(self).kept(*old(sc), *final(self), *final(sc)) && (r->Ok_0 matches Some(
                v,
            ) ==> v < final(self).b.nodes@.len()),
        decreases s, 0nat,
    {
        match s {
            Stmt::Local(p, init) => {
                let name = pat_ident(p)?;
                match init {
                    None => Err(refuse("let without init")),
                    Some(x) => {
                        let v = self.expr(x, sc)?;
                        let ghost before = sc.view();
                        sc.bind(&name, Binding::Node(v));
                        proof {
                            lemma_declared_ok(before, name@, Binding::Node(v), self.b.nodes@.len());
                        }
                        Ok(None)
                    },
                }
            },
            Stmt::Expr(x, _) => self.stmt_expr(x, sc),
            Stmt::Other => Err(refuse("statement form")),
        }
    }

    fn stmt_expr(&mut self, x: &Expr, sc: &mut Scopes) -> (r: Result<Option<u32>, ExtractError>)
        requires
            old(self).ready(*old(sc)),
            calls_ok(*x),
        ensures
            final(self).single == old(self).single,
            agrees(r, final(self).at(*final(sc)), sx_stmt_expr(*x, old(self).at(*old(sc)), old(self).single)),
            r is Ok ==> old(self).kept(*old(sc), *final(self), *final(sc)) && (r->Ok_0 matches Some(
                v,
            ) ==> v < final(self).b.nodes@.len()),
        decreases x, 3nat,
    {
        match x {
            Expr::Assign(l, r, _) => {
                let name = expr_ident(l)?;
                if matches!(sc.lookup(&name), Some(Binding::Foreign)) {
                    return Ok(None);
                }
                let v = self.expr(r, sc)?;
                let ghost before = sc.view();
                if !sc.assign(&name, Binding::Node(v)) {
                    return Err(refuse_wrap("assign to unbound `", &name, "`"));
                }
                proof {
                    lemma_rebound_ok(before, name@, Binding::Node(v), self.b.nodes@.len());
                }
                Ok(None)
            },
            Expr::Binary(op, l, r) => if is_compound_exec(*op) {
                let name = expr_ident(l)?;
                if matches!(sc.lookup(&name), Some(Binding::Foreign)) {
                    return Ok(None);
                }
                let cur = match sc.lookup(&name) {
                    Some(Binding::Node(id)) => *id,
                    _ => {
                        return Err(refuse_wrap("`", &name, "` not a scalar"));
                    },
                };
                proof {
                    lemma_get_ok(sc.view(), name@, self.b.nodes@.len());
                }
                let rhs = self.expr(r, sc)?;
                let v = self.put_node(sc, Node { op: arith_op_exec(*op), a: cur, b: rhs, c: 0 })?;
                let w = self.r32(sc, v)?;
                let ghost before = sc.view();
                let found = sc.assign(&name, Binding::Node(w));
                proof {
                    lemma_rebound_ok(before, name@, Binding::Node(w), self.b.nodes@.len());
                    if !found {
                        lemma_rebound_absent(before, name@, Binding::Node(w));
                    }
                }
                Ok(None)
            } else {
                let v = self.expr(x, sc)?;
                Ok(Some(v))
            },
            Expr::ForLoop(_, _, _) => self.for_loop(x, sc),
            Expr::If(_, then_b, _) => if is_stmt_if_exec(then_b) {
                self.if_stmt(x, sc)
            } else {
                let v = self.expr(x, sc)?;
                Ok(Some(v))
            },
            _ => {
                let v = self.expr(x, sc)?;
                Ok(Some(v))
            },
        }
    }
}

// ----------------------------------------------------------------- folds --

pub open spec fn names_view(v: Seq<Vec<char>>) -> Seq<Seq<char>> {
    v.map_values(|x: Vec<char>| x@)
}

pub open spec fn vis_view(v: Seq<(Vec<char>, u32)>) -> Seq<(Seq<char>, u32)> {
    v.map_values(|x: (Vec<char>, u32)| (x.0@, x.1))
}

/// Append the variables the statements assign.
fn targets_into(ss: &Vec<Stmt>, out: &mut Vec<Vec<char>>)
    ensures
        names_view(final(out)@) == names_view(old(out)@) + targets(ss@),
    decreases ss@,
{
    let ghost goal = names_view(out@) + targets(ss@);
    let mut i: usize = 0;
    assert(ss@.subrange(0, ss@.len() as int) =~= ss@);
    while i < ss.len()
        invariant
            goal == names_view(old(out)@) + targets(ss@),
            i <= ss@.len(),
            goal == names_view(out@) + targets(ss@.subrange(i as int, ss@.len() as int)),
        decreases ss@.len() - i,
    {
        let ghost rest = ss@.subrange(i as int, ss@.len() as int);
        assert(rest[0] == ss@[i as int]);
        assert(rest.subrange(1, rest.len() as int) =~= ss@.subrange(i + 1, ss@.len() as int));
        let ghost before = names_view(out@);
        match &ss[i] {
            Stmt::Expr(e, _) => match e {
                Expr::Assign(l, _, _) => {
                    if let Ok(n) = expr_ident(l) {
                        out.push(n);
                    }
                },
                Expr::Binary(op, l, _) => {
                    if is_compound_exec(*op) {
                        if let Ok(n) = expr_ident(l) {
                            out.push(n);
                        }
                    }
                },
                Expr::If(_, then_b, els) => {
                    targets_into(&then_b.stmts, out);
                    if let Some(eb) = els {
                        if let Expr::Block(b) = &**eb {
                            targets_into(&b.stmts, out);
                        }
                    }
                },
                _ => {},
            },
            _ => {},
        }
        assert(names_view(out@) + targets(ss@.subrange(i + 1, ss@.len() as int)) =~= goal);
        i += 1;
    }
    assert(targets(ss@.subrange(i as int, ss@.len() as int)) =~= Seq::<Seq<char>>::empty());
    assert(names_view(out@) =~= goal);
}

fn name_lt_exec(a: &[char], b: &[char]) -> (r: bool)
    ensures
        r == name_lt(a@, b@),
{
    let mut i: usize = 0;
    assert(a@.skip(0) =~= a@);
    assert(b@.skip(0) =~= b@);
    while i < a.len() && i < b.len()
        invariant
            i <= a@.len(),
            i <= b@.len(),
            name_lt(a@, b@) == name_lt(a@.skip(i as int), b@.skip(i as int)),
        decreases a@.len() - i,
    {
        assert(a@.skip(i as int).drop_first() =~= a@.skip(i + 1));
        assert(b@.skip(i as int).drop_first() =~= b@.skip(i + 1));
        if a[i] != b[i] {
            return (a[i] as u32) < (b[i] as u32);
        }
        i += 1;
    }
    i < b.len()
}

/// `x` into its place in the ascending, repetition-free `s`.
fn insert_name_exec(s: &mut Vec<Vec<char>>, x: &[char])
    ensures
        names_view(final(s)@) == insert_name(names_view(old(s)@), x@),
{
    let ghost s0 = names_view(s@);
    let mut i: usize = 0;
    assert(s0.skip(0) =~= s0);
    assert(s0.take(0) + insert_name(s0.skip(0), x@) =~= insert_name(s0, x@));
    while i < s.len()
        invariant
            s0 == names_view(old(s)@),
            i <= s@.len(),
            s0 == names_view(s@),
            insert_name(s0, x@) == s0.take(i as int) + insert_name(s0.skip(i as int), x@),
        decreases s@.len() - i,
    {
        let ghost rest = s0.skip(i as int);
        assert(rest[0] == s@[i as int]@);
        assert(rest.drop_first() =~= s0.skip(i + 1));
        if eq(&s[i], x) {
            assert(insert_name(rest, x@) == rest);
            assert(s0.take(i as int) + rest =~= s0);
            return;
        }
        if name_lt_exec(x, &s[i]) {
            let xv = copy_range(x, 0, x.len());
            assert(xv@ =~= x@);
            s.insert(i, xv);
            assert(insert_name(rest, x@) == seq![x@] + rest);
            assert(names_view(s@) =~= s0.take(i as int) + (seq![x@] + rest));
            return;
        }
        assert(s0.take(i as int) + (seq![rest[0]] + insert_name(rest.drop_first(), x@)) =~= s0.take(
            i + 1,
        ) + insert_name(s0.skip(i + 1), x@));
        i += 1;
    }
    let xv = copy_range(x, 0, x.len());
    assert(xv@ =~= x@);
    s.push(xv);
    assert(s0.skip(i as int) =~= Seq::<Seq<char>>::empty());
    assert(names_view(s@) =~= s0.take(i as int) + seq![x@]);
}

fn sorted_names_exec(v: &Vec<Vec<char>>) -> (r: Vec<Vec<char>>)
    ensures
        names_view(r@) == sorted_names(names_view(v@)),
{
    let mut r: Vec<Vec<char>> = Vec::new();
    let mut i: usize = 0;
    assert(names_view(v@).take(0) =~= Seq::<Seq<char>>::empty());
    assert(names_view(r@) =~= Seq::<Seq<char>>::empty());
    while i < v.len()
        invariant
            i <= v@.len(),
            names_view(r@) == sorted_names(names_view(v@).take(i as int)),
        decreases v@.len() - i,
    {
        let ghost t = names_view(v@).take(i + 1);
        assert(t.drop_last() =~= names_view(v@).take(i as int));
        assert(t.last() == v@[i as int]@);
        insert_name_exec(&mut r, &v[i]);
        i += 1;
    }
    assert(names_view(v@).take(i as int) =~= names_view(v@));
    r
}

fn contains_name(v: &Vec<Vec<char>>, x: &[char]) -> (r: bool)
    ensures
        r == names_view(v@).contains(x@),
{
    let mut i: usize = 0;
    while i < v.len()
        invariant
            i <= v@.len(),
            forall|j: int| 0 <= j < i ==> names_view(v@)[j] != x@,
        decreases v@.len() - i,
    {
        if eq(&v[i], x) {
            assert(names_view(v@)[i as int] == x@);
            return true;
        }
        i += 1;
    }
    false
}

/// The accumulators of a fold loop, sorted, and the node each is bound to
/// before the loop.
fn fold_setup_exec(body: &Block, sc: &Scopes, n: usize) -> (r: Result<(Vec<Vec<char>>, Vec<u32>), ExtractError>)
    requires
        binds_ok(sc.view(), n as nat),
    ensures
        match fold_setup(*body, sc.view()) {
            Ok((t, ids)) => r matches Ok((a, b)) && names_view(a@) == t && b@ == ids && a@.len()
                == b@.len() && (forall|i: int| #![auto] 0 <= i < b@.len() ==> b@[i] < n),
            Err(m) => r matches Err(ExtractError::Unsupported(x)) && x@ == m,
        },
{
    let mut all: Vec<Vec<char>> = Vec::new();
    targets_into(&body.stmts, &mut all);
    assert(names_view(all@) =~= targets(body.stmts@));
    let tgts = sorted_names_exec(&all);
    if tgts.len() == 0 {
        return Err(refuse("fold body assigns nothing (side-effect loops are outside \u{3a3})"));
    }
    let ghost tv = names_view(tgts@);
    let mut inits: Vec<u32> = Vec::new();
    let mut i: usize = 0;
    assert(tv.take(0) =~= Seq::<Seq<char>>::empty());
    while i < tgts.len()
        invariant
            tv == sorted_names(targets(body.stmts@)),
            tgts@.len() > 0,
            inits@.len() == i,
            i <= tgts@.len(),
            tv == names_view(tgts@),
            binds_ok(sc.view(), n as nat),
            fold_inits(tv.take(i as int), sc.view()) == Ok::<Seq<u32>, Seq<char>>(inits@),
            forall|j: int| #![auto] 0 <= j < inits@.len() ==> inits@[j] < n,
        decreases tgts@.len() - i,
    {
        let ghost t = tv.take(i + 1);
        assert(t.drop_last() =~= tv.take(i as int));
        assert(t.last() == tgts@[i as int]@);
        assert(tv[i as int] == tgts@[i as int]@);
        match sc.lookup(&tgts[i]) {
            Some(Binding::Node(id)) => {
                proof {
                    lemma_get_ok(sc.view(), tgts@[i as int]@, n as nat);
                }
                inits.push(*id);
            },
            _ => {
                proof {
                    lemma_fold_inits_err(tv, sc.view(), i as int);
                }
                return Err(
                    refuse_wrap("accumulator `", &tgts[i], "` must be a scalar bound before the loop"),
                );
            },
        }
        i += 1;
    }
    assert(tv.take(i as int) =~= tv);
    Ok((tgts, inits))
}

/// Where an accumulator has no scalar binding, reading the inits stops
/// there.
proof fn lemma_fold_inits_err(tv: Seq<Seq<char>>, fs: Seq<FrameV>, i: int)
    requires
        0 <= i < tv.len(),
        fold_inits(tv.take(i), fs) is Ok,
        !(scopes_get(fs, tv[i]) matches Some(Binding::Node(_))),
    ensures
        fold_inits(tv, fs) == Err::<Seq<u32>, Seq<char>>(
            ticked("accumulator `"@, tv[i], "` must be a scalar bound before the loop"@),
        ),
    decreases tv.len() - i,
{
    lemma_fold_inits_prefix(tv, fs, i + 1);
    assert(tv.take(i + 1).drop_last() =~= tv.take(i));
}

/// Once reading the inits of a prefix fails, reading longer prefixes fails
/// with the same message.
proof fn lemma_fold_inits_prefix(tv: Seq<Seq<char>>, fs: Seq<FrameV>, k: int)
    requires
        0 <= k <= tv.len(),
    ensures
        fold_inits(tv.take(k), fs) is Err ==> fold_inits(tv, fs) == fold_inits(tv.take(k), fs),
    decreases tv.len() - k,
{
    if k < tv.len() {
        lemma_fold_inits_prefix(tv, fs, k + 1);
        assert(tv.take(k + 1).drop_last() =~= tv.take(k));
    } else {
        assert(tv.take(k) =~= tv);
    }
}

/// Record `(n, id)` among the visible scalars.
fn vis_put_exec(vs: &mut Vec<(Vec<char>, u32)>, n: &[char], id: u32)
    ensures
        vis_view(final(vs)@) == vis_put(vis_view(old(vs)@), n@, id),
{
    let ghost v0 = vis_view(vs@);
    let mut i: usize = 0;
    assert(v0.skip(0) =~= v0);
    assert(v0.take(0) + vis_put(v0.skip(0), n@, id) =~= vis_put(v0, n@, id));
    while i < vs.len()
        invariant
            v0 == vis_view(old(vs)@),
            i <= vs@.len(),
            v0 == vis_view(vs@),
            vis_put(v0, n@, id) == v0.take(i as int) + vis_put(v0.skip(i as int), n@, id),
        decreases vs@.len() - i,
    {
        let ghost rest = v0.skip(i as int);
        assert(rest[0] == (vs@[i as int].0@, vs@[i as int].1));
        assert(rest.drop_first() =~= v0.skip(i + 1));
        if eq(&vs[i].0, n) {
            let nv = copy_range(n, 0, n.len());
            assert(nv@ =~= n@);
            assert(vis_put(rest, n@, id) == seq![(n@, id)] + rest.drop_first());
            vs.set(i, (nv, id));
            assert(vis_view(vs@) =~= v0.take(i as int) + (seq![(n@, id)] + rest.drop_first()));
            return;
        }
        assert(v0.take(i as int) + (seq![rest[0]] + vis_put(rest.drop_first(), n@, id)) =~= v0.take(
            i + 1,
        ) + vis_put(v0.skip(i + 1), n@, id));
        i += 1;
    }
    let nv = copy_range(n, 0, n.len());
    assert(nv@ =~= n@);
    vs.push((nv, id));
    assert(v0.skip(i as int) =~= Seq::<(Seq<char>, u32)>::empty());
    assert(vis_view(vs@) =~= v0.take(i as int) + seq![(n@, id)]);
}

/// The scalar bindings visible through the scopes.
fn visible_exec(sc: &Scopes) -> (r: Vec<(Vec<char>, u32)>)
    ensures
        vis_view(r@) == visible(sc.view()),
{
    let ghost fs = sc.view();
    let mut vs: Vec<(Vec<char>, u32)> = Vec::new();
    let mut fi: usize = 0;
    let n = sc.frame_count();
    assert(fs.take(0) =~= Seq::<FrameV>::empty());
    assert(vis_view(vs@) =~= Seq::<(Seq<char>, u32)>::empty());
    while fi < n
        invariant
            fi <= n,
            n == fs.len(),
            fs == sc.view(),
            vis_view(vs@) == visible(fs.take(fi as int)),
        decreases n - fi,
    {
        let ghost base = vis_view(vs@);
        let m = sc.frame_len(fi);
        let mut j: usize = 0;
        while j < m
            invariant
                fi < n,
                n == fs.len(),
                fs == sc.view(),
                j <= m,
                m == fs[fi as int].len(),
                vis_view(vs@) == vis_frame(base, fs[fi as int], j as int),
            decreases m - j,
        {
            let (name, b) = sc.entry(fi, j);
            match b {
                Binding::Node(id) => {
                    vis_put_exec(&mut vs, name, *id);
                },
                _ => {},
            }
            j += 1;
        }
        assert(fs.take(fi + 1).drop_last() =~= fs.take(fi as int));
        assert(fs.take(fi + 1).last() == fs[fi as int]);
        fi += 1;
    }
    assert(fs.take(n as int) =~= fs);
    vs
}

fn has_fold_exec(nodes: &Vec<Node>, id: u32) -> (r: bool)
    ensures
        r == has_fold(nodes@, id as int),
    decreases id,
{
    if id as usize >= nodes.len() {
        return false;
    }
    let n = nodes[id as usize];
    if n.op == Op::Fold {
        return true;
    }
    let ar = n.op.arity();
    (ar >= 1 && n.a < id && has_fold_exec(nodes, n.a)) || (ar >= 2 && n.b < id && has_fold_exec(
        nodes,
        n.b,
    )) || (ar >= 3 && n.c < id && has_fold_exec(nodes, n.c))
}

impl Cx {
    /// A fresh copy of the subtree of node `id`.
    fn dup(&mut self, sc: &Scopes, id: u32) -> (r: Result<u32, ExtractError>)
        requires
            old(self).b.inv(),
            id < old(self).b.nodes@.len(),
        ensures
            final(self).single == old(self).single,
            final(self).b.inv(),
            old(self).ready(*sc) ==> final(self).ready(*sc),
            agrees(r, final(self).at(*sc), sx_dup(old(self).at(*sc), id as int)),
            old(self).b.nodes@.len() <= final(self).b.nodes@.len(),
            r is Ok ==> r->Ok_0 < final(self).b.nodes@.len(),
        decreases id,
    {
        let n = self.b.nodes[id as usize];
        proof {
            assert(node_ok(self.b.nodes@, self.b.consts@.len(), id as int));
        }
        let ar = n.op.arity();
        if ar == 0 {
            return self.put_node(sc, n);
        }
        let a = self.dup(sc, n.a)?;
        if ar == 1 {
            return self.put_node(sc, Node { op: n.op, a, b: 0, c: 0 });
        }
        let b = self.dup(sc, n.b)?;
        if ar == 2 {
            return self.put_node(sc, Node { op: n.op, a, b, c: 0 });
        }
        let c = self.dup(sc, n.c)?;
        self.put_node(sc, Node { op: n.op, a, b, c })
    }
}

impl Cx {
    /// Visible scalars, neither accumulators nor holding a fold, each bound
    /// to a fresh copy of its subtree.
    fn dups(&mut self, sc: &Scopes, tgts: &Vec<Vec<char>>) -> (r: Result<Vec<(Vec<char>, u32)>, ExtractError>)
        requires
            old(self).ready(*sc),
        ensures
            final(self).single == old(self).single,
            final(self).ready(*sc),
            old(self).b.nodes@.len() <= final(self).b.nodes@.len(),
            match sx_dups(old(self).at(*sc), visible(sc.view()), names_view(tgts@), 0, Seq::empty()) {
                Ok((ds, st)) => r matches Ok(v) && vis_view(v@) == ds && final(self).at(*sc) == st
                    && (forall|i: int| #![auto] 0 <= i < v@.len() ==> v@[i].1 < final(self).b.nodes@.len()),
                Err(m) => r matches Err(ExtractError::Unsupported(x)) && x@ == m,
            },
    {
        let vs = visible_exec(sc);
        let ghost vv = vis_view(vs@);
        let ghost tv = names_view(tgts@);
        proof {
            lemma_visible_ok(sc.view(), self.b.nodes@.len());
        }
        let mut out: Vec<(Vec<char>, u32)> = Vec::new();
        let mut i: usize = 0;
        assert(vis_view(out@) =~= Seq::<(Seq<char>, u32)>::empty());
        while i < vs.len()
            invariant
                vv == visible(sc.view()),
                i <= vs@.len(),
                vv == vis_view(vs@),
                tv == names_view(tgts@),
                self.single == old(self).single,
                self.ready(*sc),
                old(self).b.nodes@.len() <= self.b.nodes@.len(),
                forall|j: int| #![auto] 0 <= j < vv.len() ==> vv[j].1 < old(self).b.nodes@.len(),
                forall|j: int| #![auto] 0 <= j < out@.len() ==> out@[j].1 < self.b.nodes@.len(),
                sx_dups(old(self).at(*sc), vv, tv, 0, Seq::empty()) == sx_dups(
                    self.at(*sc),
                    vv,
                    tv,
                    i as int,
                    vis_view(out@),
                ),
            decreases vs@.len() - i,
        {
            assert(vv[i as int] == (vs@[i as int].0@, vs@[i as int].1));
            let skip = contains_name(tgts, &vs[i].0) || has_fold_exec(&self.b.nodes, vs[i].1);
            if !skip {
                let d = self.dup(sc, vs[i].1)?;
                let nv = copy_chars(&vs[i].0);
                let ghost before = vis_view(out@);
                out.push((nv, d));
                assert(vis_view(out@) =~= before.push((vv[i as int].0, d)));
            }
            i += 1;
        }
        Ok(out)
    }
}

proof fn lemma_vis_put_ok(vs: Seq<(Seq<char>, u32)>, k: Seq<char>, id: u32, n: nat)
    requires
        forall|j: int| #![auto] 0 <= j < vs.len() ==> vs[j].1 < n,
        id < n,
    ensures
        forall|j: int| #![auto] 0 <= j < vis_put(vs, k, id).len() ==> vis_put(vs, k, id)[j].1 < n,
    decreases vs.len(),
{
    if vs.len() > 0 && vs[0].0 != k {
        lemma_vis_put_ok(vs.drop_first(), k, id, n);
        let r = vis_put(vs.drop_first(), k, id);
        assert forall|j: int| #![auto] 0 <= j < vis_put(vs, k, id).len() implies vis_put(vs, k, id)[j].1 < n by {
            if j > 0 {
                assert(vis_put(vs, k, id)[j] == r[j - 1]);
            }
        }
    } else if vs.len() > 0 {
        assert forall|j: int| #![auto] 0 <= j < vis_put(vs, k, id).len() implies vis_put(vs, k, id)[j].1 < n by {
            if j > 0 {
                assert(vis_put(vs, k, id)[j] == vs[j]);
            }
        }
    }
}

proof fn lemma_vis_frame_ok(vs: Seq<(Seq<char>, u32)>, f: FrameV, j: int, n: nat)
    requires
        forall|x: int| #![auto] 0 <= x < vs.len() ==> vs[x].1 < n,
        frame_ok(f, n),
    ensures
        forall|x: int| #![auto] 0 <= x < vis_frame(vs, f, j).len() ==> vis_frame(vs, f, j)[x].1 < n,
    decreases j,
{
    if 0 < j <= f.len() {
        lemma_vis_frame_ok(vs, f, j - 1, n);
        assert(bind_ok(f[j - 1].1, n));
        if f[j - 1].1 is Node {
            lemma_vis_put_ok(vis_frame(vs, f, j - 1), f[j - 1].0, f[j - 1].1->Node_0, n);
        }
    }
}

/// The visible scalars name existing nodes.
proof fn lemma_visible_ok(fs: Seq<FrameV>, n: nat)
    requires
        binds_ok(fs, n),
    ensures
        forall|x: int| #![auto] 0 <= x < visible(fs).len() ==> visible(fs)[x].1 < n,
    decreases fs.len(),
{
    if fs.len() > 0 {
        lemma_drop_frame_ok(fs, n);
        lemma_visible_ok(fs.drop_last(), n);
        assert(frame_ok(fs[fs.len() - 1], n));
        lemma_vis_frame_ok(visible(fs.drop_last()), fs.last(), fs.last().len() as int, n);
    }
}

fn is_zero_int_exec(o: &Option<Box<Expr>>) -> (r: bool)
    ensures
        r == is_zero_int(*o),
{
    match o {
        Some(x) => match &**x {
            Expr::Lit(Lit::Int(d)) => match parse_num_exec(d, 0x7fff_ffff_ffff_ffff) {
                Ok(v) => v == 0,
                Err(_) => false,
            },
            _ => false,
        },
        None => false,
    }
}

proof fn lemma_set_ok(fs: Seq<FrameV>, fi: int, j: int, b: Binding, n: nat)
    requires
        binds_ok(fs, n),
        bind_ok(b, n),
        0 <= fi < fs.len(),
        0 <= j < fs[fi].len(),
    ensures
        binds_ok(fs.update(fi, fs[fi].update(j, (fs[fi][j].0, b))), n),
{
    let g = fs.update(fi, fs[fi].update(j, (fs[fi][j].0, b)));
    assert forall|i: int| 0 <= i < g.len() implies frame_ok(#[trigger] g[i], n) by {
        assert(frame_ok(fs[i], n));
        if i == fi {
            assert forall|x: int| 0 <= x < g[i].len() implies bind_ok(#[trigger] g[i][x].1, n) by {
                if x != j {
                    assert(g[i][x] == fs[i][x]);
                }
            }
        }
    }
}

impl Cx {
    /// The bindings the two branches leave different become selects.
    fn merge(&mut self, sc: &mut Scopes, tf: &Scopes, ef: &Scopes, cond: u32) -> (r: Result<(), ExtractError>)
        requires
            old(self).ready(*old(sc)),
            binds_ok(tf.view(), old(self).b.nodes@.len()),
            binds_ok(ef.view(), old(self).b.nodes@.len()),
            cond < old(self).b.nodes@.len(),
        ensures
            final(self).single == old(self).single,
            match sx_merge(old(self).at(*old(sc)), tf.view(), ef.view(), cond, 0, old(sc).view().len() as int) {
                Ok(st) => r is Ok && final(self).at(*final(sc)) == st,
                Err(m) => r matches Err(ExtractError::Unsupported(x)) && x@ == m,
            },
            r is Ok ==> old(self).kept(*old(sc), *final(self), *final(sc)),
    {
        let n = sc.frame_count();
        let ghost tv = tf.view();
        let ghost ev = ef.view();
        let ghost target = sx_merge(self.at(*sc), tv, ev, cond, 0, n as int);
        let ghost len0 = self.b.nodes@.len();
        let mut fi: usize = 0;
        while fi < n
            invariant
                target == sx_merge(old(self).at(*old(sc)), tv, ev, cond, 0, old(sc).view().len() as int),
                n == old(sc).view().len(),
                len0 == old(self).b.nodes@.len(),
                fi <= n,
                n == sc.view().len(),
                self.single == old(self).single,
                self.ready(*sc),
                len0 <= self.b.nodes@.len(),
                binds_ok(tv, self.b.nodes@.len()),
                binds_ok(ev, self.b.nodes@.len()),
                cond < self.b.nodes@.len(),
                tv == tf.view(),
                ev == ef.view(),
                target == sx_merge(self.at(*sc), tv, ev, cond, fi as int, n as int),
            decreases n - fi,
        {
            let m = sc.frame_len(fi);
            let mut j: usize = 0;
            while j < m
                invariant
                    target == sx_merge(old(self).at(*old(sc)), tv, ev, cond, 0, old(sc).view().len() as int),
                    n == old(sc).view().len(),
                    len0 == old(self).b.nodes@.len(),
                    fi < n,
                    j <= m,
                    n == sc.view().len(),
                    m == sc.view()[fi as int].len(),
                    self.single == old(self).single,
                    self.ready(*sc),
                    len0 <= self.b.nodes@.len(),
                    binds_ok(tv, self.b.nodes@.len()),
                    binds_ok(ev, self.b.nodes@.len()),
                    cond < self.b.nodes@.len(),
                    tv == tf.view(),
                    ev == ef.view(),
                    target == match sx_merge_frame(self.at(*sc), tv, ev, cond, fi as int, j as int, m as int) {
                        Err(x) => Err(x),
                        Ok(s1) => sx_merge(s1, tv, ev, cond, fi + 1, n as int),
                    },
                decreases m - j,
            {
                let (nm, _) = sc.entry(fi, j);
                let name = copy_chars(nm);
                let tb = tf.get_in_frame(fi, &name);
                let eb = ef.get_in_frame(fi, &name);
                let pick: Option<(u32, u32)> = match (tb, eb) {
                    (Some(Binding::Node(t)), Some(Binding::Node(e2))) => if *t != *e2 {
                        Some((*t, *e2))
                    } else {
                        None
                    },
                    _ => None,
                };
                if let Some((t, e2)) = pick {
                    proof {
                        assert(frame_ok(tv[fi as int], self.b.nodes@.len()));
                        assert(frame_ok(ev[fi as int], self.b.nodes@.len()));
                        lemma_frame_get_ok(tv[fi as int], name@, self.b.nodes@.len());
                        lemma_frame_get_ok(ev[fi as int], name@, self.b.nodes@.len());
                    }
                    let ghost l1 = self.b.nodes@.len();
                    let sel = self.put_node(sc, Node { op: Op::Select, a: cond, b: t, c: e2 })?;
                    let ghost before = sc.view();
                    sc.set_binding(fi, j, Binding::Node(sel));
                    proof {
                        lemma_set_ok(before, fi as int, j as int, Binding::Node(sel), self.b.nodes@.len());
                        lemma_ok_mono(tv, l1, self.b.nodes@.len());
                        lemma_ok_mono(ev, l1, self.b.nodes@.len());
                    }
                }
                j += 1;
            }
            fi += 1;
        }
        Ok(())
    }

    /// Iterations `lo..hi` of an unrolled loop.
    fn unroll(
        &mut self,
        body: &Block,
        var: &Option<Vec<char>>,
        lo: i64,
        hi: i64,
        sc: &mut Scopes,
    ) -> (r: Result<Option<u32>, ExtractError>)
        requires
            old(self).ready(*old(sc)),
            block_calls_ok(*body),
        ensures
            final(self).single == old(self).single,
            agrees(
                r,
                final(self).at(*final(sc)),
                sx_unroll(*body, opt_text(*var), lo as int, hi as int, old(self).at(*old(sc)), old(self).single),
            ),
            r is Ok ==> old(self).kept(*old(sc), *final(self), *final(sc)) && r->Ok_0 is None,
        decreases body, 1nat,
    {
        let ghost single = self.single;
        let ghost n0 = sc.view().len();
        let ghost len0 = self.b.nodes@.len();
        let ghost target = sx_unroll(*body, opt_text(*var), lo as int, hi as int, self.at(*sc), single);
        let mut k: i64 = lo;
        while k < hi
            invariant
                single == old(self).single,
                target == sx_unroll(*body, opt_text(*var), lo as int, hi as int, old(self).at(*old(sc)), old(self).single),
                n0 == old(sc).view().len(),
                len0 == old(self).b.nodes@.len(),
                self.single == single,
                block_calls_ok(*body),
                self.ready(*sc),
                sc.view().len() == n0,
                len0 <= self.b.nodes@.len(),
                lo <= k,
                k < hi ==> target == sx_unroll(*body, opt_text(*var), k as int, hi as int, self.at(*sc), single),
                k >= hi ==> target == Ok::<(Option<u32>, XSt), Seq<char>>((None, self.at(*sc))),
            decreases hi - k,
        {
            let ghost before = self.at(*sc);
            sc.push_frame();
            proof {
                lemma_push_frame_ok(before.scopes, Seq::empty(), self.b.nodes@.len());
            }
            if let Some(v) = var {
                let ghost b2 = sc.view();
                sc.bind(v, Binding::Int(k));
                proof {
                    lemma_declared_ok(b2, v@, Binding::Int(k), self.b.nodes@.len());
                }
            }
            let _ = self.stmts(&body.stmts, sc)?;
            let ghost b3 = sc.view();
            sc.pop_frame();
            proof {
                lemma_drop_frame_ok(b3, self.b.nodes@.len());
            }
            k += 1;
        }
        Ok(None)
    }

    /// Accumulators `k..` of a fold loop, each its own fold over the body.
    fn fold_loop(
        &mut self,
        body: &Block,
        var: &Option<Vec<char>>,
        tgts: &Vec<Vec<char>>,
        inits: &Vec<u32>,
        sc: &mut Scopes,
    ) -> (r: Result<Option<u32>, ExtractError>)
        requires
            old(self).ready(*old(sc)),
            block_calls_ok(*body),
            inits@.len() == tgts@.len(),
            forall|i: int| #![auto] 0 <= i < inits@.len() ==> inits@[i] < old(self).b.nodes@.len(),
        ensures
            final(self).single == old(self).single,
            agrees(
                r,
                final(self).at(*final(sc)),
                sx_fold_pass(*body, opt_text(*var), names_view(tgts@), inits@, 0, old(self).at(*old(sc)), old(self).single),
            ),
            r is Ok ==> old(self).kept(*old(sc), *final(self), *final(sc)) && r->Ok_0 is None,
        decreases body, 1nat,
    {
        let ghost single = self.single;
        let ghost n0 = sc.view().len();
        let ghost len0 = self.b.nodes@.len();
        let ghost tv = names_view(tgts@);
        let ghost vt = opt_text(*var);
        let ghost target = sx_fold_pass(*body, vt, tv, inits@, 0, self.at(*sc), single);
        let mut k: usize = 0;
        while k < tgts.len()
            invariant
                single == old(self).single,
                target == sx_fold_pass(*body, vt, tv, inits@, 0, old(self).at(*old(sc)), old(self).single),
                n0 == old(sc).view().len(),
                len0 == old(self).b.nodes@.len(),
                self.single == single,
                block_calls_ok(*body),
                self.ready(*sc),
                sc.view().len() == n0,
                len0 <= self.b.nodes@.len(),
                inits@.len() == tgts@.len(),
                tv == names_view(tgts@),
                vt == opt_text(*var),
                forall|i: int| #![auto] 0 <= i < inits@.len() ==> inits@[i] < self.b.nodes@.len(),
                k <= tgts@.len(),
                target == sx_fold_pass(*body, vt, tv, inits@, k as int, self.at(*sc), single),
            decreases tgts@.len() - k,
        {
            let acc = &tgts[k];
            assert(tv[k as int] == acc@);
            let leaf = self.put_node(sc, Node { op: Op::Acc, a: 0, b: 0, c: 0 })?;
            let ds: Vec<(Vec<char>, u32)> = if tgts.len() > 1 {
                self.dups(sc, tgts)?
            } else {
                Vec::new()
            };
            proof {
                if tgts.len() <= 1 {
                    assert(vis_view(ds@) =~= Seq::<(Seq<char>, u32)>::empty());
                }
            }
            let ghost s2 = self.at(*sc);
            let ghost dv = vis_view(ds@);
            sc.push_frame();
            proof {
                lemma_push_frame_ok(s2.scopes, Seq::empty(), self.b.nodes@.len());
                assert(dup_frame(dv, 0) =~= Seq::<(Seq<char>, Binding)>::empty());
            }
            let mut j: usize = 0;
            while j < ds.len()
                invariant
                    j <= ds@.len(),
                    dv == vis_view(ds@),
                    forall|i: int| #![auto] 0 <= i < ds@.len() ==> ds@[i].1 < self.b.nodes@.len(),
                    self.ready(*sc),
                    self.single == single,
                    sc.view() == s2.scopes.push(dup_frame(dv, j as int)),
                    self.b.nodes@ == s2.nodes,
                    lits_view(self.b.consts@) == s2.consts,
                decreases ds@.len() - j,
            {
                let ghost b2 = sc.view();
                assert(dv[j as int] == (ds@[j as int].0@, ds@[j as int].1));
                sc.bind(&ds[j].0, Binding::Node(ds[j].1));
                proof {
                    lemma_declared_ok(b2, ds@[j as int].0@, Binding::Node(ds@[j as int].1), self.b.nodes@.len());
                    assert(sc.view() =~= s2.scopes.push(dup_frame(dv, j + 1)));
                }
                j += 1;
            }
            let ghost b3 = sc.view();
            sc.bind(acc, Binding::Node(leaf));
            proof {
                lemma_declared_ok(b3, acc@, Binding::Node(leaf), self.b.nodes@.len());
                assert(sc.view() =~= s2.scopes.push(
                    frame_declare(dup_frame(dv, dv.len() as int), acc@, Binding::Node(leaf)),
                ));
            }
            let ghost f2 = frame_declare(dup_frame(dv, dv.len() as int), acc@, Binding::Node(leaf));
            let mut t: usize = 0;
            while t < tgts.len()
                invariant
                    t <= tgts@.len(),
                    tv == names_view(tgts@),
                    self.ready(*sc),
                    self.single == single,
                    sc.view() == s2.scopes.push(foreign_frame(f2, tv, acc@, t as int)),
                    self.b.nodes@ == s2.nodes,
                    lits_view(self.b.consts@) == s2.consts,
                decreases tgts@.len() - t,
            {
                assert(tv[t as int] == tgts@[t as int]@);
                if !eq(&tgts[t], acc) {
                    let ghost b4 = sc.view();
                    sc.bind(&tgts[t], Binding::Foreign);
                    proof {
                        lemma_declared_ok(b4, tgts@[t as int]@, Binding::Foreign, self.b.nodes@.len());
                    }
                }
                proof {
                    assert(sc.view() =~= s2.scopes.push(foreign_frame(f2, tv, acc@, t + 1)));
                }
                t += 1;
            }
            if let Some(v) = var {
                let ghost b5 = sc.view();
                sc.bind(v, Binding::LoopIdx);
                proof {
                    lemma_declared_ok(b5, v@, Binding::LoopIdx, self.b.nodes@.len());
                    assert(sc.view() =~= s2.scopes.push(fold_frame(dv, acc@, leaf, tv, vt)));
                }
            } else {
                proof {
                    assert(sc.view() =~= s2.scopes.push(fold_frame(dv, acc@, leaf, tv, vt)));
                }
            }
            let _ = self.stmts(&body.stmts, sc)?;
            let root = match sc.lookup(acc) {
                Some(Binding::Node(id)) => *id,
                _ => {
                    return Err(refuse_wrap("accumulator `", acc, "` lost its scalar binding"));
                },
            };
            proof {
                lemma_get_ok(sc.view(), acc@, self.b.nodes@.len());
            }
            let ghost b6 = sc.view();
            sc.pop_frame();
            proof {
                lemma_drop_frame_ok(b6, self.b.nodes@.len());
            }
            if root == leaf {
                return Err(refuse("fold body never updates the accumulator"));
            }
            let fid = self.put_node(sc, Node { op: Op::Fold, a: inits[k], b: root, c: 0 })?;
            let ghost b7 = sc.view();
            if !sc.assign(acc, Binding::Node(fid)) {
                return Err(refuse_wrap("accumulator `", acc, "` lost its scalar binding"));
            }
            proof {
                lemma_rebound_ok(b7, acc@, Binding::Node(fid), self.b.nodes@.len());
            }
            k += 1;
        }
        Ok(None)
    }

    /// A `for` over a range.
    fn for_loop(&mut self, x: &Expr, sc: &mut Scopes) -> (r: Result<Option<u32>, ExtractError>)
        requires
            old(self).ready(*old(sc)),
            calls_ok(*x),
        ensures
            final(self).single == old(self).single,
            agrees(r, final(self).at(*final(sc)), sx_for(*x, old(self).at(*old(sc)), old(self).single)),
            r is Ok ==> old(self).kept(*old(sc), *final(self), *final(sc)) && r->Ok_0 is None,
        decreases x, 1nat,
    {
        match x {
            Expr::ForLoop(p, rng, body) => {
                let var: Option<Vec<char>> = match p {
                    Pat::Ident(n) => Some(copy_chars(n)),
                    Pat::Wild => None,
                    _ => {
                        return Err(refuse("loop pattern"));
                    },
                };
                match &**rng {
                    Expr::Range(start, end, closed, _) => {
                        let is_len = match end {
                            Some(en) => match &**en {
                                Expr::MethodCall(_, m, _) => crate::text::lit_is(m, "len"),
                                _ => false,
                            },
                            None => false,
                        };
                        if is_len {
                            if !is_zero_int_exec(start) {
                                return Err(refuse("fold range must start at 0 (offset folds: roadmap)"));
                            }
                            let recv = match end {
                                Some(en) => match &**en {
                                    Expr::MethodCall(recv, _, _) => recv,
                                    _ => {
                                        return Err(refuse_empty());
                                    },
                                },
                                None => {
                                    return Err(refuse_empty());
                                },
                            };
                            let sn = match path_ident_exec(recv) {
                                Some(n) => n,
                                None => {
                                    return Err(refuse("len() on non-param"));
                                },
                            };
                            if !matches!(sc.lookup(sn), Some(Binding::Sequence(_))) {
                                return Err(refuse_wrap("`", sn, ".len()` bound requires a `&[f64]` param"));
                            }
                            let (tgts, inits) = fold_setup_exec(body, sc, self.b.nodes.len())?;
                            return self.fold_loop(body, &var, &tgts, &inits, sc);
                        }
                        let a = match start {
                            None => {
                                return Err(refuse("open range"));
                            },
                            Some(a) => a,
                        };
                        let lo = const_int(a, sc)?;
                        let b = match end {
                            None => {
                                return Err(refuse("open range"));
                            },
                            Some(b) => b,
                        };
                        let hi_raw = const_int(b, sc)?;
                        let hi: i128 = if *closed {
                            hi_raw as i128 + 1
                        } else {
                            hi_raw as i128
                        };
                        let span: i128 = hi - lo as i128;
                        if hi > 0x7fff_ffff_ffff_ffff || span < -0x8000_0000_0000_0000 || span
                            > 0x7fff_ffff_ffff_ffff {
                            return Err(refuse("integer overflow in a compile-time bound"));
                        }
                        if span > 1024 {
                            let mut msg = crate::text::chars_of("unroll of ");
                            let st = int_text_exec(span);
                            put(&mut msg, &st);
                            put_lit(&mut msg, " iterations exceeds cap 1024");
                            return Err(refuse_chars(&msg));
                        }
                        self.unroll(body, &var, lo, hi as i64, sc)
                    },
                    _ => Err(refuse("loop over a non-range (iterator adapters: roadmap)")),
                }
            },
            _ => Err(refuse_empty()),
        }
    }

    /// A statement-level `if`.
    fn if_stmt(&mut self, x: &Expr, sc: &mut Scopes) -> (r: Result<Option<u32>, ExtractError>)
        requires
            old(self).ready(*old(sc)),
            calls_ok(*x),
        ensures
            final(self).single == old(self).single,
            agrees(r, final(self).at(*final(sc)), sx_if_stmt(*x, old(self).at(*old(sc)), old(self).single)),
            r is Ok ==> old(self).kept(*old(sc), *final(self), *final(sc)) && r->Ok_0 is None,
        decreases x, 1nat,
    {
        match x {
            Expr::If(c, then_b, els) => {
                assert(block_calls_ok(*then_b));
                let cond = self.cond(c, sc)?;
                let ghost s1 = self.at(*sc);
                let mut then_sc = sc.duplicate();
                then_sc.push_frame();
                proof {
                    lemma_push_frame_ok(s1.scopes, Seq::empty(), self.b.nodes@.len());
                }
                let _ = self.stmts(&then_b.stmts, &mut then_sc)?;
                let ghost t2 = then_sc.view();
                then_sc.pop_frame();
                proof {
                    lemma_drop_frame_ok(t2, self.b.nodes@.len());
                    lemma_ok_mono(s1.scopes, s1.nodes.len(), self.b.nodes@.len());
                }
                let mut else_sc = sc.duplicate();
                match els {
                    None => {},
                    Some(eb) => match &**eb {
                        Expr::Block(b) => {
                            assert(calls_ok(**eb));
                            assert(block_calls_ok(*b));
                            else_sc.push_frame();
                            proof {
                                lemma_push_frame_ok(s1.scopes, Seq::empty(), self.b.nodes@.len());
                            }
                            let _ = self.stmts(&b.stmts, &mut else_sc)?;
                            let ghost e2 = else_sc.view();
                            else_sc.pop_frame();
                            proof {
                                lemma_drop_frame_ok(e2, self.b.nodes@.len());
                            }
                        },
                        _ => {
                            let _ = self.stmt_expr(eb, &mut else_sc)?;
                        },
                    },
                }
                proof {
                    lemma_ok_mono(then_sc.view(), self.b.nodes@.len(), self.b.nodes@.len());
                    lemma_ok_mono(s1.scopes, s1.nodes.len(), self.b.nodes@.len());
                }
                self.merge(sc, &then_sc, &else_sc, cond)?;
                Ok(None)
            },
            _ => Err(refuse_empty()),
        }
    }
}

// ------------------------------------------------------------- functions --

pub open spec fn opt_ref_text(o: Option<&Vec<char>>) -> Option<Seq<char>> {
    match o {
        Some(v) => Some(v@),
        None => None,
    }
}

fn first_named_exec<'a>(fns: &'a Vec<FnDef>, name: &[char]) -> (r: Option<&'a FnDef>)
    ensures
        match first_named(fns@, name@) {
            Some(f) => r matches Some(g) && *g == f,
            None => r is None,
        },
{
    let mut i: usize = 0;
    assert(fns@.skip(0) =~= fns@);
    while i < fns.len()
        invariant
            i <= fns@.len(),
            first_named(fns@, name@) == first_named(fns@.skip(i as int), name@),
        decreases fns@.len() - i,
    {
        assert(fns@.skip(i as int)[0] == fns@[i as int]);
        assert(fns@.skip(i as int).drop_first() =~= fns@.skip(i + 1));
        if eq(&fns[i].name, name) {
            return Some(&fns[i]);
        }
        i += 1;
    }
    None
}

fn find_fn_exec<'a>(items: &'a Vec<Item>, name: &[char]) -> (r: Option<(&'a FnDef, Option<&'a Vec<char>>)>)
    ensures
        match find_fn(items@, name@) {
            Some((d, ty)) => r matches Some((e, t)) && *e == d && opt_ref_text(t) == ty,
            None => r is None,
        },
    decreases items@,
{
    let mut i: usize = 0;
    assert(items@.subrange(0, items@.len() as int) =~= items@);
    while i < items.len()
        invariant
            i <= items@.len(),
            find_fn(items@, name@) == find_fn(items@.subrange(i as int, items@.len() as int), name@),
        decreases items@.len() - i,
    {
        let ghost rest = items@.subrange(i as int, items@.len() as int);
        assert(rest[0] == items@[i as int]);
        assert(rest.subrange(1, rest.len() as int) =~= items@.subrange(i + 1, items@.len() as int));
        match &items[i] {
            Item::Fn(f) => {
                if eq(&f.name, name) {
                    return Some((f, None));
                }
            },
            Item::Mod(inner) => {
                if let Some(h) = find_fn_exec(inner, name) {
                    return Some(h);
                }
            },
            Item::Impl(ty, fns) => {
                if let Some(f) = first_named_exec(fns, name) {
                    let t: Option<&Vec<char>> = match ty {
                        Some(v) => Some(v),
                        None => None,
                    };
                    return Some((f, t));
                }
            },
            _ => {},
        }
        i += 1;
    }
    assert(items@.subrange(i as int, items@.len() as int) =~= Seq::<Item>::empty());
    None
}

fn struct_fields_exec<'a>(items: &'a Vec<Item>, ty: &[char]) -> (r: Option<&'a Vec<(Vec<char>, String)>>)
    ensures
        match struct_fields(items@, ty@) {
            Some(fs) => r matches Some(g) && *g == fs,
            None => r is None,
        },
    decreases items@,
{
    let mut i: usize = 0;
    assert(items@.subrange(0, items@.len() as int) =~= items@);
    while i < items.len()
        invariant
            i <= items@.len(),
            struct_fields(items@, ty@) == struct_fields(items@.subrange(i as int, items@.len() as int), ty@),
        decreases items@.len() - i,
    {
        let ghost rest = items@.subrange(i as int, items@.len() as int);
        assert(rest[0] == items@[i as int]);
        assert(rest.subrange(1, rest.len() as int) =~= items@.subrange(i + 1, items@.len() as int));
        match &items[i] {
            Item::Struct(n, fields) => {
                if eq(n, ty) {
                    return match fields {
                        Some(fs) => Some(fs),
                        None => None,
                    };
                }
            },
            Item::Mod(inner) => {
                if let Some(h) = struct_fields_exec(inner, ty) {
                    return Some(h);
                }
            },
            _ => {},
        }
        i += 1;
    }
    assert(items@.subrange(i as int, items@.len() as int) =~= Seq::<Item>::empty());
    None
}

fn sig_has_exec(d: &FnDef, t: &str) -> (r: bool)
    ensures
        r == sig_has(*d, t@),
{
    if let Some(o) = &d.output {
        if let Some(n) = ty_ident_exec(o) {
            if crate::text::lit_is(n, t) {
                return true;
            }
        }
    }
    let mut i: usize = 0;
    while i < d.inputs.len()
        invariant
            i <= d.inputs@.len(),
            !(d.output matches Some(o) && ty_ident(o) == Some(t@)),
            forall|j: int|
                0 <= j < i ==> !(#[trigger] d.inputs@[j] matches FnArg::Typed(_, ty) && ty_ident(ty)
                    == Some(t@)),
        decreases d.inputs@.len() - i,
    {
        if let FnArg::Typed(_, ty) = &d.inputs[i] {
            if let Some(n) = ty_ident_exec(ty) {
                if crate::text::lit_is(n, t) {
                    assert(d.inputs@[i as int] matches FnArg::Typed(_, ty) && ty_ident(ty) == Some(t@));
                    return true;
                }
            }
        }
        i += 1;
    }
    false
}

fn bad_scalar_exec(t: &Ty) -> (r: Option<&Vec<char>>)
    ensures
        match bad_scalar(*t) {
            Some(n) => r matches Some(v) && v@ == n,
            None => r is None,
        },
{
    match ty_ident_exec(t) {
        Some(n) => if is_int_type_exec(n) || crate::text::lit_is(n, "bool") || crate::text::lit_is(
            n,
            "char",
        ) {
            Some(n)
        } else {
            None
        },
        None => None,
    }
}

fn array_len_exec(t: &Ty) -> (r: Option<usize>)
    ensures
        match array_len(*t) {
            Some(n) => r == Some(n as usize),
            None => r is None,
        },
        r matches Some(k) ==> array_len(*t) == Some(k as nat),
    decreases t,
{
    match t {
        Ty::Ref(inner) => array_len_exec(inner),
        Ty::Array(Some(d)) => match parse_num_exec(d, usize::MAX as u128) {
            Ok(n) => {
                assert(n <= usize::MAX);
                Some(n as usize)
            },
            Err(_) => None,
        },
        _ => None,
    }
}

fn is_unsized_slice_exec(t: &Ty) -> (r: bool)
    ensures
        r == is_unsized_slice(*t),
    decreases t,
{
    match t {
        Ty::Ref(inner) => is_unsized_slice_exec(inner),
        Ty::Slice => true,
        _ => false,
    }
}

// ----------------------------------------------------------- well formed --

fn calls_ok_exec(e: &Expr) -> (r: bool)
    ensures
        r == calls_ok(*e),
    decreases e,
{
    match e {
        Expr::Field(b, _) => calls_ok_exec(b),
        Expr::Index(a, b) => calls_ok_exec(a) && calls_ok_exec(b),
        Expr::Paren(x) => calls_ok_exec(x),
        Expr::Group(x) => calls_ok_exec(x),
        Expr::Cast(x, _) => calls_ok_exec(x),
        Expr::Unary(_, x) => calls_ok_exec(x),
        Expr::Binary(_, a, b) => calls_ok_exec(a) && calls_ok_exec(b),
        Expr::MethodCall(r, n, args) => {
            if !calls_ok_exec(r) {
                return false;
            }
            let needs1 = crate::text::lit_is(n, "powf") || crate::text::lit_is(n, "powi")
                || crate::text::lit_is(n, "min") || crate::text::lit_is(n, "max");
            if needs1 && args.len() < 1 {
                return false;
            }
            if crate::text::lit_is(n, "mul_add") && args.len() < 2 {
                return false;
            }
            all_calls_ok(args)
        },
        Expr::Call(f, args) => calls_ok_exec(f) && all_calls_ok(args),
        Expr::If(c, t, els) => calls_ok_exec(c) && block_calls_ok_exec(t) && match els {
            Some(x) => calls_ok_exec(x),
            None => true,
        },
        Expr::Block(b) => block_calls_ok_exec(b),
        Expr::Return(x) => match x {
            Some(y) => calls_ok_exec(y),
            None => true,
        },
        Expr::ForLoop(_, r, b) => calls_ok_exec(r) && block_calls_ok_exec(b),
        Expr::Assign(a, b, _) => calls_ok_exec(a) && calls_ok_exec(b),
        Expr::Range(a, b, _, _) => (match a {
            Some(x) => calls_ok_exec(x),
            None => true,
        }) && (match b {
            Some(x) => calls_ok_exec(x),
            None => true,
        }),
        _ => true,
    }
}

fn all_calls_ok(args: &Vec<Expr>) -> (r: bool)
    ensures
        r == (forall|i: int| #![auto] 0 <= i < args@.len() ==> calls_ok(args@[i])),
    decreases args@, 1nat,
{
    let mut i: usize = 0;
    while i < args.len()
        invariant
            i <= args@.len(),
            forall|j: int| #![auto] 0 <= j < i ==> calls_ok(args@[j]),
        decreases args@.len() - i,
    {
        if !calls_ok_exec(&args[i]) {
            return false;
        }
        i += 1;
    }
    true
}

fn block_calls_ok_exec(b: &Block) -> (r: bool)
    ensures
        r == block_calls_ok(*b),
    decreases b,
{
    let mut i: usize = 0;
    while i < b.stmts.len()
        invariant
            i <= b.stmts@.len(),
            forall|j: int| #![auto] 0 <= j < i ==> stmt_calls_ok(b.stmts@[j]),
        decreases b.stmts@.len() - i,
    {
        let ok = match &b.stmts[i] {
            Stmt::Local(_, init) => match init {
                Some(x) => calls_ok_exec(x),
                None => true,
            },
            Stmt::Expr(x, _) => calls_ok_exec(x),
            Stmt::Other => true,
        };
        if !ok {
            return false;
        }
        i += 1;
    }
    true
}

/// Whether the method calls of function `fn_name` have the arguments the
/// reader indexes (the condition `extract_fn` asks of its input).
pub fn calls_well_formed(file: &SourceFile, fn_name: &str) -> (r: bool)
    ensures
        r == fn_calls_ok(file.items@, fn_name@),
{
    let name = crate::text::chars_of(fn_name);
    match find_fn_exec(&file.items, &name) {
        Some((d, _)) => block_calls_ok_exec(&d.body),
        None => true,
    }
}

// -------------------------------------------------------------- signature --

impl Cx {
    /// Variables `slot .. slot + n`, one node each.
    fn vars(&mut self, sc: &Scopes, slot: u32, n: usize) -> (r: Result<(), ExtractError>)
        requires
            old(self).b.inv(),
            slot <= old(self).b.nodes@.len(),
        ensures
            final(self).single == old(self).single,
            final(self).b.inv(),
            old(self).ready(*sc) ==> final(self).ready(*sc),
            match sx_vars(old(self).at(*sc), slot as nat, n as nat) {
                Ok(st) => r is Ok && final(self).at(*sc) == st,
                Err(m) => r matches Err(ExtractError::Unsupported(x)) && x@ == m,
            },
    {
        if n >= 0xffff_ffff || !self.b.room(n) {
            return Err(refuse("term exceeds the u32 node-id space"));
        }
        let ghost n0 = self.b.nodes@;
        let mut j: usize = 0;
        assert(n0 + Seq::new(0, |k: int| nd(Op::Var, (slot + k) as u32, 0, 0)) =~= n0);
        while j < n
            invariant
                j <= n,
                n < 0xffff_ffff,
                slot <= n0.len(),
                n0.len() + n < 0xffff_ffff,
                self.b.consts@.len() + n < 0xffff_ffff,
                self.single == old(self).single,
                self.b.inv(),
                self.b.consts@ == old(self).b.consts@,
                n0 == old(self).b.nodes@,
                self.b.nodes@ == n0 + Seq::new(j as nat, |k: int| nd(Op::Var, (slot + k) as u32, 0, 0)),
            decreases n - j,
        {
            let _ = self.b.var(slot + j as u32);
            assert(self.b.nodes@ =~= n0 + Seq::new((j + 1) as nat, |k: int| nd(Op::Var, (slot + k) as u32, 0, 0)));
            j += 1;
        }
        proof {
            if old(self).ready(*sc) {
                lemma_ok_mono(sc.view(), n0.len(), self.b.nodes@.len());
            }
        }
        assert(self.at(*sc) =~= XSt {
            nodes: old(self).at(*sc).nodes + Seq::new(n as nat, |k: int| nd(Op::Var, (slot + k) as u32, 0, 0)),
            consts: old(self).at(*sc).consts,
            scopes: sc.view(),
        });
        Ok(())
    }

    /// The receiver's fields: an f64 field becomes the next variable, any
    /// other field refuses when read.
    fn fields(&mut self, sc: &mut Scopes, fs: &Vec<(Vec<char>, String)>, slot0: u32) -> (r: Result<u32, ExtractError>)
        requires
            old(self).ready(*old(sc)),
            slot0 <= old(self).b.nodes@.len(),
        ensures
            final(self).single == old(self).single,
            match sx_fields(fs@, 0, old(self).at(*old(sc)), slot0 as nat) {
                Ok((st, s2)) => r == Ok::<u32, ExtractError>(s2 as u32) && final(self).at(*final(sc))
                    == st && s2 <= final(self).b.nodes@.len(),
                Err(m) => r matches Err(ExtractError::Unsupported(x)) && x@ == m,
            },
            r is Ok ==> old(self).kept(*old(sc), *final(self), *final(sc)),
    {
        let ghost target = sx_fields(fs@, 0, self.at(*sc), slot0 as nat);
        let mut slot = slot0;
        let mut j: usize = 0;
        while j < fs.len()
            invariant
                j <= fs@.len(),
                target == sx_fields(fs@, 0, old(self).at(*old(sc)), slot0 as nat),
                target == sx_fields(fs@, j as int, self.at(*sc), slot as nat),
                self.single == old(self).single,
                self.ready(*sc),
                sc.view().len() == old(sc).view().len(),
                old(self).b.nodes@.len() <= self.b.nodes@.len(),
                slot <= self.b.nodes@.len(),
            decreases fs@.len() - j,
        {
            let mut key = crate::text::chars_of("self.");
            put(&mut key, &fs[j].0);
            if crate::text::lit_is(&crate::text::chars_of(fs[j].1.as_str()), "f64") {
                let id = self.put_node(sc, Node { op: Op::Var, a: slot, b: 0, c: 0 })?;
                let ghost b1 = sc.view();
                sc.bind(&key, Binding::Node(id));
                proof {
                    lemma_declared_ok(b1, key@, Binding::Node(id), self.b.nodes@.len());
                }
                slot = slot + 1;
            } else {
                let ghost b1 = sc.view();
                sc.bind(&key, Binding::NonF64Field(fs[j].1.clone()));
                proof {
                    lemma_declared_ok(b1, key@, Binding::NonF64Field(fs@[j as int].1), self.b.nodes@.len());
                }
            }
            j += 1;
        }
        Ok(slot)
    }

    /// The parameters, bound in the function's frame.
    fn params(
        &mut self,
        d: &FnDef,
        self_ty: Option<&Vec<char>>,
        items: &Vec<Item>,
        sc: &mut Scopes,
    ) -> (r: Result<(), ExtractError>)
        requires
            old(self).ready(*old(sc)),
            old(self).b.nodes@.len() == 0,
        ensures
            final(self).single == old(self).single,
            match sx_params(d.inputs@, 0, old(self).at(*old(sc)), 0, 0, old(self).single, opt_ref_text(self_ty), items@) {
                Ok(st) => r is Ok && final(self).at(*final(sc)) == st,
                Err(m) => r matches Err(ExtractError::Unsupported(x)) && x@ == m,
            },
            r is Ok ==> old(self).kept(*old(sc), *final(self), *final(sc)),
    {
        let ghost ty = opt_ref_text(self_ty);
        let ghost target = sx_params(d.inputs@, 0, self.at(*sc), 0, 0, self.single, ty, items@);
        let mut slot: u32 = 0;
        let mut sq: u32 = 0;
        let mut i: usize = 0;
        while i < d.inputs.len()
            invariant
                i <= d.inputs@.len(),
                ty == opt_ref_text(self_ty),
                target == sx_params(d.inputs@, 0, old(self).at(*old(sc)), 0, 0, old(self).single, ty, items@),
                target == sx_params(d.inputs@, i as int, self.at(*sc), slot as nat, sq as nat, self.single, ty, items@),
                self.single == old(self).single,
                self.ready(*sc),
                sc.view().len() == old(sc).view().len(),
                old(self).b.nodes@.len() <= self.b.nodes@.len(),
                slot <= self.b.nodes@.len(),
            decreases d.inputs@.len() - i,
        {
            let ghost cur = self.at(*sc);
            let ghost slot_c = slot;
            let ghost sq_c = sq;
            match &d.inputs[i] {
                FnArg::Typed(p, t) => {
                    let name = pat_ident(p)?;
                    if let Some(bad) = bad_scalar_exec(t) {
                        let mut msg = crate::text::chars_of("param `");
                        put(&mut msg, &name);
                        put_lit(&mut msg, ": ");
                        put(&mut msg, bad);
                        put_lit(&mut msg, "` -- Sigma is f64-only; extracting `");
                        put(&mut msg, bad);
                        put_lit(&mut msg, "` arithmetic as f64 changes rounding at every op (");
                        put(&mut msg, bad);
                        put_lit(&mut msg, " lifting: roadmap)");
                        return Err(refuse_chars(&msg));
                    }
                    if is_unsized_slice_exec(t) {
                        if self.single {
                            return Err(
                                refuse(
                                    "`&[f32]` sequence param -- f32 sequences are on the roadmap (Sigma seqs are f64)",
                                ),
                            );
                        }
                        if sq >= 0xffff_ffff {
                            return Err(refuse("term exceeds the u32 node-id space"));
                        }
                        let ghost b1 = sc.view();
                        sc.bind(&name, Binding::Sequence(sq));
                        proof {
                            lemma_declared_ok(b1, name@, Binding::Sequence(sq), self.b.nodes@.len());
                        }
                        sq = sq + 1;
                        assert(target == sx_params(d.inputs@, i + 1, self.at(*sc), slot as nat, sq as nat, self.single, ty, items@));
                    } else {
                        match array_len_exec(t) {
                            Some(n) => {
                                if self.single {
                                    return Err(refuse("f32 array param -- f32 arrays are on the roadmap"));
                                }
                                let first = self.b.nodes.len();
                                self.vars(sc, slot, n)?;
                                assert(sx_vars(cur, slot as nat, n as nat) is Ok);
                                assert(has_room_n(cur, n as nat));
                                assert(array_len(*t) == Some(n as nat));
                                assert(self.at(*sc) == sx_vars(cur, slot as nat, n as nat)->Ok_0);
                                let ghost b1 = sc.view();
                                sc.bind(&name, Binding::Array(first as u32, n as u32));
                                proof {
                                    lemma_declared_ok(b1, name@, Binding::Array(first as u32, n as u32), self.b.nodes@.len());
                                }
                                slot = slot + n as u32;
                                assert(target == sx_params(d.inputs@, i + 1, self.at(*sc), slot as nat, sq as nat, self.single, ty, items@));
                            },
                            None => {
                                let id = self.put_node(sc, Node { op: Op::Var, a: slot, b: 0, c: 0 })?;
                                let v = if self.single {
                                    self.put_node(sc, Node { op: Op::Rnd32, a: id, b: 0, c: 0 })?
                                } else {
                                    id
                                };
                                let ghost b1 = sc.view();
                                sc.bind(&name, Binding::Node(v));
                                proof {
                                    lemma_declared_ok(b1, name@, Binding::Node(v), self.b.nodes@.len());
                                }
                                slot = slot + 1;
                                assert(target == sx_params(d.inputs@, i + 1, self.at(*sc), slot as nat, sq as nat, self.single, ty, items@));
                            },
                        }
                    }
                },
                FnArg::Receiver(mutable) => {
                    if *mutable {
                        return Err(
                            refuse(
                                "mutable method receiver -- `&mut self` mutates receiver state (the audit's effort/P3 class); Sigma reads `&self` getters and free fns",
                            ),
                        );
                    }
                    let tn = match self_ty {
                        None => {
                            return Err(refuse("method on an unnameable self type"));
                        },
                        Some(tn) => tn,
                    };
                    let fs = match struct_fields_exec(items, tn) {
                        None => {
                            return Err(
                                refuse_wrap(
                                    "receiver struct `",
                                    tn,
                                    "` has no named-field definition in this file -- field layout unknown, cannot flatten `self`",
                                ),
                            );
                        },
                        Some(fs) => fs,
                    };
                    slot = self.fields(sc, fs, slot)?;
                    assert(target == sx_params(d.inputs@, i + 1, self.at(*sc), slot as nat, sq as nat, self.single, ty, items@));
                },
            }
            i += 1;
        }
        Ok(())
    }
}

/// Read function `fn_name` of a parsed source file into a Σ term.
///
/// Refuses with `Parse` when the file did not parse, `FnNotFound` when no
/// function (free, in an inline module, or a method) has the name, and
/// `Unsupported` with the reason where the reading stops, or where a value
/// of a fold body would escape its fold.
pub fn extract_fn(parsed: Result<SourceFile, String>, fn_name: &str) -> (r: Result<Term, ExtractError>)
    requires
        parsed matches Ok(f) ==> fn_calls_ok(f.items@, fn_name@),
    ensures
        match parsed {
            Err(m) => r == Err::<Term, ExtractError>(ExtractError::Parse(m)),
            Ok(f) => match find_fn(f.items@, fn_name@) {
                None => r matches Err(ExtractError::FnNotFound(x)) && x@ == fn_name@,
                Some((d, ty)) => match sx_read_fn(d, ty, f.items@) {
                    Err(m) => r matches Err(ExtractError::Unsupported(x)) && x@ == m,
                    Ok((st, root)) => if crate::term::binders_ok(st.nodes) {
                        r matches Ok(t) && t.wf() && t.nodes@ == st.nodes && lits_view(t.consts@)
                            == st.consts && t.root == root
                    } else {
                        r matches Err(ExtractError::Unsupported(x)) && crate::text::starts_with(
                            x@,
                            "a body value escapes its fold ("@,
                        ) && crate::text::ends_with(
                            x@,
                            ") -- fission requires accumulator-disjoint bodies"@,
                        )
                    },
                },
            },
        },
{
    let file = match parsed {
        Ok(f) => f,
        Err(m) => {
            return Err(ExtractError::Parse(m));
        },
    };
    let name = crate::text::chars_of(fn_name);
    let (d, self_ty) = match find_fn_exec(&file.items, &name) {
        Some(h) => h,
        None => {
            return Err(ExtractError::FnNotFound(owned(fn_name)));
        },
    };
    let saw32 = sig_has_exec(d, "f32");
    let saw64 = sig_has_exec(d, "f64");
    if saw32 && saw64 {
        return Err(
            refuse(
                "mixed f32/f64 signature -- precision of each op is invisible to the syntax walk; single-precision signatures only",
            ),
        );
    }
    if let Some(o) = &d.output {
        if let Some(t) = bad_scalar_exec(o) {
            let mut msg = crate::text::chars_of("return type `");
            put(&mut msg, t);
            put_lit(&mut msg, "` -- Sigma is f64-only; extracting `");
            put(&mut msg, t);
            put_lit(&mut msg, "` arithmetic as f64 changes rounding at every op (");
            put(&mut msg, t);
            put_lit(&mut msg, " lifting: roadmap)");
            return Err(refuse_chars(&msg));
        }
    }
    let mut cx = Cx { b: TermBuilder::new(), single: saw32 };
    let mut sc = Scopes::new();
    proof {
        assert(binds_ok(sc.view(), 0)) by {
            assert forall|i: int| 0 <= i < sc.view().len() implies frame_ok(#[trigger] sc.view()[i], 0) by {
                assert(sc.view()[i] =~= Seq::<(Seq<char>, Binding)>::empty());
            }
        }
        assert(lits_view(cx.b.consts@) =~= Seq::<ConstLitV>::empty());
        assert(cx.at(sc) =~= start_state());
    }
    cx.params(d, self_ty, &file.items, &mut sc)?;
    let root = cx.block_value(&d.body, &mut sc)?;
    let t = cx.b.finish(root);
    match t.fold_owners() {
        Ok(_) => Ok(t),
        Err(e) => {
            let mut msg = crate::text::chars_of("a body value escapes its fold (");
            let ec = crate::text::chars_of(e.as_str());
            put(&mut msg, &ec);
            put_lit(&mut msg, ") -- fission requires accumulator-disjoint bodies");
            proof {
                assert(crate::text::starts_with(msg@, "a body value escapes its fold ("@)) by {
                    assert(msg@.take("a body value escapes its fold ("@.len() as int) =~= "a body value escapes its fold ("@);
                }
                assert(crate::text::ends_with(msg@, ") -- fission requires accumulator-disjoint bodies"@)) by {
                    let tail = ") -- fission requires accumulator-disjoint bodies"@;
                    assert(msg@.skip(msg@.len() - tail.len()) =~= tail);
                }
            }
            Err(refuse_chars(&msg))
        },
    }
}

} // verus!
