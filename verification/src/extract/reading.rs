//! How the source front door reads a function: the arena it builds, node by
//! node, and the refusal it answers with where it stops.
//!
//! The reading walks the syntax with a state — the arena built so far and
//! the lexical scopes — and either continues with a new state or stops with
//! a refusal message. A statement-level `if` merges the bindings its
//! branches disagree on into selects, a `for` over literal bounds is
//! unrolled, and a `for` over `0..s.len()` becomes one fold per variable
//! its body assigns.
use vstd::prelude::*;
use crate::fmt::{decimal, digits_value};
use crate::scopes::{Binding, FrameV, declared, frame_declare, frame_get, rebound, scopes_get};
use crate::sigma::Op;
use crate::syntax::{BinOp, Block, Expr, FnArg, FnDef, Item, Lit, Pat, Stmt, Ty, UnOp};
use crate::term::{ConstLitV, Node};

verus! {

/// The state of a reading: the arena so far and the scopes.
#[verifier::ext_equal]
pub struct XSt {
    pub nodes: Seq<Node>,
    pub consts: Seq<ConstLitV>,
    pub scopes: Seq<FrameV>,
}

/// Where a reading step leads: a value and the next state, or a refusal.
pub type Step<T> = Result<(T, XSt), Seq<char>>;

pub const UNROLL_CAP: i64 = 1024;

// -------------------------------------------------------------- messages --

pub open spec fn too_large() -> Seq<char> {
    "term exceeds the u32 node-id space"@
}

/// What an integer cast does when the bounds arithmetic leaves `i64`.
pub open spec fn overflow_msg() -> Seq<char> {
    "integer overflow in a compile-time bound"@
}

pub open spec fn ticked(a: Seq<char>, x: Seq<char>, b: Seq<char>) -> Seq<char> {
    a + x + b
}

/// `{}` of an integer.
pub open spec fn int_text(k: int) -> Seq<char> {
    if k < 0 {
        seq!['-'] + decimal((-k) as nat)
    } else {
        decimal(k as nat)
    }
}

// -------------------------------------------------------------- numerals --

pub open spec fn all_digits(d: Seq<char>) -> bool {
    forall|i: int| 0 <= i < d.len() ==> '0' <= #[trigger] d[i] <= '9'
}

/// An integer literal's decimal digits read into an integer type whose
/// largest value is `max` (the reason `str::parse` gives where it fails).
pub open spec fn parse_num(d: Seq<char>, max: nat) -> Result<nat, Seq<char>> {
    if d.len() == 0 {
        Err("cannot parse integer from empty string"@)
    } else if !all_digits(d) {
        Err("invalid digit found in string"@)
    } else if digits_value(d) > max {
        Err("number too large to fit in target type"@)
    } else {
        Ok(digits_value(d))
    }
}

pub open spec fn i64_max() -> nat {
    0x7fff_ffff_ffff_ffff
}

pub open spec fn in_i64(v: int) -> bool {
    -0x8000_0000_0000_0000 <= v <= 0x7fff_ffff_ffff_ffff
}

// --------------------------------------------------------------- builder --

pub open spec fn has_room(st: XSt) -> bool {
    st.nodes.len() + 1 < 0xffff_ffff && st.consts.len() + 1 < 0xffff_ffff
}

pub open spec fn nd(op: Op, a: u32, b: u32, c: u32) -> Node {
    Node { op, a, b, c }
}

pub open spec fn with_scopes(st: XSt, fs: Seq<FrameV>) -> XSt {
    XSt { nodes: st.nodes, consts: st.consts, scopes: fs }
}

/// Append node `n`.
pub open spec fn sx_push(st: XSt, n: Node) -> Step<u32> {
    if has_room(st) {
        Ok((st.nodes.len() as u32, XSt { nodes: st.nodes.push(n), consts: st.consts, scopes: st.scopes }))
    } else {
        Err(too_large())
    }
}

/// Append a constant node over a fresh constant-table entry.
pub open spec fn sx_const(st: XSt, c: ConstLitV) -> Step<u32> {
    if has_room(st) {
        Ok((
            st.nodes.len() as u32,
            XSt {
                nodes: st.nodes.push(nd(Op::Const, st.consts.len() as u32, 0, 0)),
                consts: st.consts.push(c),
                scopes: st.scopes,
            },
        ))
    } else {
        Err(too_large())
    }
}

/// In single mode, the result of a rounding operation is rounded to binary32.
pub open spec fn sx_r32(st: XSt, id: u32, single: bool) -> Step<u32> {
    if single {
        sx_push(st, nd(Op::Rnd32, id, 0, 0))
    } else {
        Ok((id, st))
    }
}

pub open spec fn bits_one() -> u64 {
    0x3ff0_0000_0000_0000
}

/// The value of an integer as a Σ constant.
pub open spec fn int_const(k: int) -> ConstLitV {
    ConstLitV::Decimal(int_text(k))
}

// ---------------------------------------------------------------- shapes --

pub open spec fn opt_text(o: Option<Vec<char>>) -> Option<Seq<char>> {
    match o {
        Some(v) => Some(v@),
        None => None,
    }
}

/// The identifier of a path expression that is a single bare one.
pub open spec fn path_ident(e: Expr) -> Option<Seq<char>> {
    match e {
        Expr::Path(id, _) => opt_text(id),
        _ => None,
    }
}

/// `e` with its parentheses taken off.
pub open spec fn peel(e: Expr) -> Expr
    decreases e,
{
    match e {
        Expr::Paren(x) => peel(*x),
        _ => e,
    }
}

/// The identifier a path type names, when it is a single bare one.
pub open spec fn ty_ident(t: Ty) -> Option<Seq<char>> {
    match t {
        Ty::Path(id) => opt_text(id),
        _ => None,
    }
}

pub open spec fn is_int_type(t: Seq<char>) -> bool {
    ||| t == "i8"@ ||| t == "i16"@ ||| t == "i32"@ ||| t == "i64"@ ||| t == "i128"@
    ||| t == "u8"@ ||| t == "u16"@ ||| t == "u32"@ ||| t == "u64"@ ||| t == "u128"@
    ||| t == "isize"@ ||| t == "usize"@
}

/// The integer, bool and char types: concrete and not f64 (single is read in
/// single mode).
pub open spec fn is_bad_scalar(t: Seq<char>) -> bool {
    is_int_type(t) || t == "bool"@ || t == "char"@
}

pub open spec fn is_cmp_op(op: BinOp) -> bool {
    op == BinOp::Lt || op == BinOp::Gt || op == BinOp::Le || op == BinOp::Ge || op == BinOp::Eq
        || op == BinOp::Ne
}

pub open spec fn is_compound(op: BinOp) -> bool {
    op == BinOp::AddAssign || op == BinOp::SubAssign || op == BinOp::MulAssign || op
        == BinOp::DivAssign
}

pub open spec fn arith_op(op: BinOp) -> Op {
    match op {
        BinOp::Add | BinOp::AddAssign => Op::Add,
        BinOp::Sub | BinOp::SubAssign => Op::Sub,
        BinOp::Mul | BinOp::MulAssign => Op::Mul,
        _ => Op::Div,
    }
}

pub open spec fn cmp_op(op: BinOp) -> Op {
    match op {
        BinOp::Lt => Op::Lt,
        BinOp::Gt => Op::Gt,
        BinOp::Le => Op::Le,
        BinOp::Ge => Op::Ge,
        BinOp::Eq => Op::Eq,
        _ => Op::Ne,
    }
}

/// The two-operand float methods (`powf`, `powi`, `min`, `max`) and the Σ
/// operator each is read as.
pub open spec fn method2_op(n: Seq<char>) -> Op {
    if n == "min"@ {
        Op::Min
    } else if n == "max"@ {
        Op::Max
    } else {
        Op::Pow
    }
}

/// The one-operand float methods and the Σ operator of each.
pub open spec fn method1(name: Seq<char>) -> Option<Op> {
    if name == "sin"@ {
        Some(Op::Sin)
    } else if name == "cos"@ {
        Some(Op::Cos)
    } else if name == "tan"@ {
        Some(Op::Tan)
    } else if name == "exp"@ {
        Some(Op::Exp)
    } else if name == "exp2"@ {
        Some(Op::Exp2)
    } else if name == "ln"@ {
        Some(Op::Ln)
    } else if name == "sqrt"@ {
        Some(Op::Sqrt)
    } else if name == "abs"@ {
        Some(Op::Abs)
    } else if name == "floor"@ {
        Some(Op::Floor)
    } else if name == "ceil"@ {
        Some(Op::Ceil)
    } else {
        None
    }
}

/// The operators exact in binary32: no rounding to model.
pub open spec fn exact32(op: Op) -> bool {
    op == Op::Abs || op == Op::Floor || op == Op::Ceil
}

/// A float literal whose value is zero.
pub open spec fn is_zero_float(e: Expr) -> bool {
    e matches Expr::Lit(Lit::Float { bits, bits32 }) && (bits == 0 || bits
        == 0x8000_0000_0000_0000u64)
}

/// An integer literal whose value is zero.
pub open spec fn is_zero_int(o: Option<Box<Expr>>) -> bool {
    match o {
        Some(x) => match *x {
            Expr::Lit(Lit::Int(d)) => parse_num(d@, i64_max()) == Ok::<nat, Seq<char>>(0),
            _ => false,
        },
        None => false,
    }
}

/// A statement-level `if`: its then-branch does not end in a value
/// expression (an expression without `;` other than an assignment, a loop
/// or an `if`).
pub open spec fn is_stmt_if(then_b: Block) -> bool {
    let ss = then_b.stmts@;
    !(ss.len() > 0 && (ss.last() matches Stmt::Expr(e, semi) && !semi && !(e is Assign
        || e is ForLoop || e is If)))
}

pub open spec fn sx_pat_ident(p: Pat) -> Result<Seq<char>, Seq<char>>
    decreases p,
{
    match p {
        Pat::Ident(n) => Ok(n@),
        Pat::Typed(q) => sx_pat_ident(*q),
        _ => Err("pattern binding"@),
    }
}

pub open spec fn sx_expr_ident(e: Expr) -> Result<Seq<char>, Seq<char>> {
    match e {
        Expr::Path(id, _) => match id {
            Some(n) => Ok(n@),
            None => Err("qualified lvalue"@),
        },
        _ => Err("non-identifier lvalue"@),
    }
}

// --------------------------------------------------------- compile time --

/// A compile-time integer (a loop bound, an index).
pub open spec fn sx_const_int(e: Expr, fs: Seq<FrameV>) -> Result<int, Seq<char>>
    decreases e,
{
    match e {
        Expr::Lit(l) => match l {
            Lit::Int(d) => match parse_num(d@, i64_max()) {
                Ok(v) => Ok(v as int),
                Err(m) => Err(m),
            },
            _ => Err("non-int index"@),
        },
        Expr::Path(id, _) => {
            let name = match id {
                Some(n) => n@,
                None => Seq::<char>::empty(),
            };
            match scopes_get(fs, name) {
                Some(Binding::Int(k)) => Ok(k as int),
                Some(Binding::LoopIdx) => Err("fold loop var in a constant-index position"@),
                _ => Err(
                    ticked(
                        "index `"@,
                        name,
                        "` is not a compile-time int (dynamic indexing needs the fold roadmap item)"@,
                    ),
                ),
            }
        },
        Expr::Binary(op, l, r) => match sx_const_int(*l, fs) {
            Err(m) => Err(m),
            Ok(a) => match sx_const_int(*r, fs) {
                Err(m) => Err(m),
                Ok(b) => {
                    let v = if op == BinOp::Add {
                        a + b
                    } else if op == BinOp::Sub {
                        a - b
                    } else {
                        a * b
                    };
                    if !(op == BinOp::Add || op == BinOp::Sub || op == BinOp::Mul) {
                        Err("index arithmetic op"@)
                    } else if !in_i64(v) {
                        Err(overflow_msg())
                    } else {
                        Ok(v)
                    }
                },
            },
        },
        Expr::Paren(x) => sx_const_int(*x, fs),
        _ => Err("non-constant index expression"@),
    }
}

// ------------------------------------------------------------- bindings --

pub open spec fn open_frame(st: XSt) -> XSt {
    with_scopes(st, st.scopes.push(Seq::empty()))
}

pub open spec fn close_frame(st: XSt) -> XSt {
    with_scopes(st, st.scopes.drop_last())
}

// ---------------------------------------------------------------- values --

/// A receiver field read `self.m`.
pub open spec fn sx_field(e: Expr, st: XSt) -> Step<u32> {
    match e {
        Expr::Field(base, member) => if path_ident(*base) != Some("self"@) {
            Err(
                "field access on a non-receiver value -- struct dataflow beyond `self` flattening is P3 territory"@,
            )
        } else {
            match member {
                None => Err("tuple-struct receiver field"@),
                Some(m) => match scopes_get(st.scopes, "self."@ + m@) {
                    Some(Binding::Node(id)) => Ok((id, st)),
                    Some(Binding::NonF64Field(t)) => Err(
                        "reads non-f64 receiver field `"@ + m@ + ": "@ + t@
                            + "` -- Sigma is f64-only; receiver flattening covers f64 fields (non-f64 state: the audit's effort class)"@,
                    ),
                    _ => Err(ticked("unknown receiver field `"@, m@, "`"@)),
                },
            }
        },
        _ => Err(Seq::empty()),
    }
}

pub open spec fn sx_lit(l: Lit, st: XSt, single: bool) -> Step<u32> {
    match l {
        Lit::Float { bits, bits32 } => sx_const(
            st,
            ConstLitV::Bits(
                if single {
                    bits32
                } else {
                    bits
                },
            ),
        ),
        Lit::BadFloat(m) => Err(m@),
        Lit::Int(d) => match parse_num(d@, i64_max()) {
            Ok(v) => sx_const(st, int_const(v as int)),
            Err(m) => Err(m),
        },
        Lit::Other => Err("non-numeric literal"@),
    }
}

pub open spec fn sx_path(e: Expr, st: XSt) -> Step<u32> {
    match e {
        Expr::Path(id, _) => match id {
            None => Err("qualified path"@),
            Some(n) => {
                let name = n@;
                match scopes_get(st.scopes, name) {
                    Some(Binding::Node(id)) => Ok((id, st)),
                    Some(Binding::Int(k)) => sx_const(st, int_const(k as int)),
                    Some(Binding::Array(_, _)) => Err(ticked("array `"@, name, "` used as a scalar"@)),
                    Some(Binding::Sequence(_)) => Err(
                        ticked("sequence `"@, name, "` used as a scalar"@),
                    ),
                    Some(Binding::LoopIdx) => Err("fold loop var used outside `s[__i]` indexing"@),
                    Some(Binding::Foreign) => Err(
                        ticked(
                            "fold body reads co-accumulator `"@,
                            name,
                            "` -- coupled recurrences (Welford-style) have no fission; cross-accumulator folds are on the roadmap"@,
                        ),
                    ),
                    Some(Binding::NonF64Field(t)) => Err(
                        "reads non-f64 receiver field `"@ + name + ": "@ + t@
                            + "` -- Sigma is f64-only"@,
                    ),
                    None => Err(ticked("unbound `"@, name, "`"@)),
                }
            },
        },
        _ => Err(Seq::empty()),
    }
}

/// `s[i]` with the fold loop variable, or a constant index into an array
/// parameter.
pub open spec fn sx_index(e: Expr, st: XSt) -> Step<u32> {
    match e {
        Expr::Index(base, index) => match path_ident(*base) {
            None => Err("indexing a non-identifier"@),
            Some(name) => match scopes_get(st.scopes, name) {
                Some(Binding::Sequence(k)) => if (path_ident(*index) matches Some(i)
                    && scopes_get(st.scopes, i) == Some(Binding::LoopIdx)) {
                    sx_push(st, nd(Op::Elem, k, 0, 0))
                } else {
                    Err(
                        ticked(
                            "sequence `"@,
                            name,
                            "` indexed by a non-loop expression (windowed/offset access: roadmap)"@,
                        ),
                    )
                },
                _ => match sx_const_int(*index, st.scopes) {
                    Err(m) => Err(m),
                    Ok(idx) => match scopes_get(st.scopes, name) {
                        Some(Binding::Array(first, len)) => if 0 <= idx < len {
                            Ok(((first + idx) as u32, st))
                        } else {
                            Err(
                                "index "@ + int_text(idx) + " out of bounds for `"@ + name
                                    + "` (len "@ + decimal(len as nat) + ")"@,
                            )
                        },
                        _ => Err(ticked("`"@, name, "` is not an array param"@)),
                    },
                },
            },
        },
        _ => Err(Seq::empty()),
    }
}

pub open spec fn bare_f32_msg() -> Seq<char> {
    "bare `as f32` in an f64 function -- the f32-typed intermediate makes downstream ops f32 ops invisible to syntax; only the widened round-trip `(e as f32) as f64` has a Sigma reading (Rnd32)"@
}

pub open spec fn unbounded_msg() -> Seq<char> {
    "unbounded loop: Term_p is total \u{2014} use `for LO..HI` with literal bounds (unrolled); a fold operator in \u{3a3} is the roadmap item"@
}

/// Reading expression `e` gives a node (or a refusal).
pub open spec fn sx_expr(e: Expr, st: XSt, single: bool) -> Step<u32>
    decreases e, 2nat,
{
    match e {
        Expr::Paren(x) => sx_expr(*x, st, single),
        Expr::Group(x) => sx_expr(*x, st, single),
        Expr::Field(_, _) => sx_field(e, st),
        Expr::Lit(l) => sx_lit(l, st, single),
        Expr::Path(_, _) => sx_path(e, st),
        Expr::Index(_, _) => sx_index(e, st),
        Expr::Cast(_, _) => sx_cast(e, st, single),
        Expr::Unary(op, x) => if op == UnOp::Neg {
            match sx_expr(*x, st, single) {
                Err(m) => Err(m),
                Ok((a, s1)) => sx_push(s1, nd(Op::Neg, a, 0, 0)),
            }
        } else {
            Err("unary op"@)
        },
        Expr::Binary(_, _, _) => sx_binary(e, st, single),
        Expr::MethodCall(_, _, _) => sx_method(e, st, single),
        Expr::Call(_, _) => sx_call(e, st, single),
        Expr::If(_, _, _) => sx_if_value(e, st, single),
        Expr::Block(b) => sx_block_value(b, st, single),
        Expr::Return(x) => match x {
            Some(y) => sx_expr(*y, st, single),
            None => Err("bare return"@),
        },
        Expr::While => Err(unbounded_msg()),
        Expr::Loop => Err(unbounded_msg()),
        Expr::ForLoop(_, _, _) => Err("`for` used as a value expression"@),
        Expr::Assign(_, _, form) => Err("expression form "@ + form@),
        Expr::Range(_, _, _, form) => Err("expression form "@ + form@),
        Expr::Other(form) => Err("expression form "@ + form@),
    }
}

/// `e` (under parentheses) in `(e as single) as f64` position, or else the
/// operand of a widening cast.
pub open spec fn sx_widen(x: Expr, st: XSt, single: bool) -> Step<u32>
    decreases x, 3nat,
{
    match x {
        Expr::Paren(y) => sx_widen(*y, st, single),
        Expr::Cast(z, t2) => if ty_ident(t2) == Some("f32"@) {
            match sx_expr(*z, st, single) {
                Err(m) => Err(m),
                Ok((a, s1)) => sx_push(s1, nd(Op::Rnd32, a, 0, 0)),
            }
        } else {
            sx_expr(x, st, single)
        },
        _ => sx_expr(x, st, single),
    }
}

/// The operand of an integer cast: only a comparison (under parentheses)
/// has a reading, bool to 0/1 being exact.
pub open spec fn sx_int_cast(x: Expr, t: Seq<char>, st: XSt, single: bool) -> Step<u32>
    decreases x, 3nat,
{
    match x {
        Expr::Paren(y) => sx_int_cast(*y, t, st, single),
        Expr::Binary(op, _, _) => if is_cmp_op(op) {
            sx_expr(x, st, single)
        } else {
            Err(ticked("`as "@, t, "` truncates -- integer casts change the value, no Sigma reading"@))
        },
        _ => Err(ticked("`as "@, t, "` truncates -- integer casts change the value, no Sigma reading"@)),
    }
}

pub open spec fn sx_cast(e: Expr, st: XSt, single: bool) -> Step<u32>
    decreases e, 1nat,
{
    match e {
        Expr::Cast(inner, ty) => match ty_ident(ty) {
            Some(t) => if t == "f64"@ {
                sx_widen(*inner, st, single)
            } else if t == "f32"@ {
                if single {
                    match sx_expr(*inner, st, single) {
                        Err(m) => Err(m),
                        Ok((a, s1)) => sx_push(s1, nd(Op::Rnd32, a, 0, 0)),
                    }
                } else {
                    Err(bare_f32_msg())
                }
            } else if is_int_type(t) {
                sx_int_cast(*inner, t, st, single)
            } else {
                sx_expr(*inner, st, single)
            },
            None => sx_expr(*inner, st, single),
        },
        _ => Err(Seq::empty()),
    }
}

/// Both operands, then the node over them.
pub open spec fn sx_two(l: Expr, r: Expr, op: Op, st: XSt, single: bool) -> Step<u32>
    decreases l, 3nat,
{
    match sx_expr(l, st, single) {
        Err(m) => Err(m),
        Ok((a, s1)) => match sx_expr(r, s1, single) {
            Err(m) => Err(m),
            Ok((c, s2)) => sx_push(s2, nd(op, a, c, 0)),
        },
    }
}

pub open spec fn sx_binary(e: Expr, st: XSt, single: bool) -> Step<u32>
    decreases e, 1nat,
{
    match e {
        Expr::Binary(op, l, r) => if op == BinOp::Add || op == BinOp::Sub || op == BinOp::Mul
            || op == BinOp::Div {
            match sx_expr(*l, st, single) {
                Err(m) => Err(m),
                Ok((a, s1)) => match sx_expr(*r, s1, single) {
                    Err(m) => Err(m),
                    Ok((c, s2)) => match sx_push(s2, nd(arith_op(op), a, c, 0)) {
                        Err(m) => Err(m),
                        Ok((v, s3)) => sx_r32(s3, v, single),
                    },
                },
            }
        } else if is_cmp_op(op) {
            match sx_expr(*l, st, single) {
                Err(m) => Err(m),
                Ok((a, s1)) => match sx_expr(*r, s1, single) {
                    Err(m) => Err(m),
                    Ok((c, s2)) => sx_push(s2, nd(cmp_op(op), a, c, 0)),
                },
            }
        } else {
            Err("unsupported binary op"@)
        },
        _ => Err(Seq::empty()),
    }
}

/// A one-operand float function applied to node `a`.
pub open spec fn sx_apply1(op: Op, a: u32, st: XSt, single: bool, refusal: Seq<char>) -> Step<u32> {
    if single {
        if op == Op::Sqrt {
            match sx_push(st, nd(Op::Sqrt, a, 0, 0)) {
                Err(m) => Err(m),
                Ok((v, s1)) => sx_r32(s1, v, single),
            }
        } else if exact32(op) {
            sx_push(st, nd(op, a, 0, 0))
        } else {
            Err(refusal)
        }
    } else {
        sx_push(st, nd(op, a, 0, 0))
    }
}

pub open spec fn sx_method(e: Expr, st: XSt, single: bool) -> Step<u32>
    decreases e, 1nat,
{
    match e {
        Expr::MethodCall(recv, name, args) => {
            let n = name@;
            if n == "len"@ && args@.len() == 0 && (path_ident(*recv) matches Some(s)
                && scopes_get(st.scopes, s) matches Some(Binding::Sequence(_))) {
                match scopes_get(st.scopes, path_ident(*recv)->0) {
                    Some(Binding::Sequence(k)) => sx_push(st, nd(Op::Len, k, 0, 0)),
                    _ => Err(Seq::empty()),
                }
            } else {
                match sx_expr(*recv, st, single) {
                    Err(m) => Err(m),
                    Ok((a, s1)) => match method1(n) {
                        Some(op) => sx_apply1(
                            op,
                            a,
                            s1,
                            single,
                            "f32 `."@ + n + "()` -- libm "@ + n + "f is not round64("@ + n
                                + "): transcendentals have no innocuous double rounding, no Sigma reading"@,
                        ),
                        None => if n == "powf"@ || n == "powi"@ || n == "min"@ || n == "max"@ {
                            if args@.len() < 1 {
                                Err(Seq::empty())
                            } else if single && (n == "powf"@ || n == "powi"@) {
                                Err(
                                    "f32 `.powf()`/`.powi()` -- powf32 is not round64(pow): no innocuous double rounding, no Sigma reading"@,
                                )
                            } else {
                                match sx_expr(args@[0], s1, single) {
                                    Err(m) => Err(m),
                                    Ok((c, s2)) => sx_push(
                                        s2,
                                        nd(
                                            method2_op(n),
                                            a,
                                            c,
                                            0,
                                        ),
                                    ),
                                }
                            }
                        } else if n == "mul_add"@ {
                            if args@.len() < 2 {
                                Err(Seq::empty())
                            } else if single {
                                Err(
                                    "f32 `.mul_add()` -- fmaf rounds ONCE at 24 bits; Rnd32(f64 fma) double-rounds a fused result, which is NOT innocuous"@,
                                )
                            } else {
                                match sx_expr(args@[0], s1, single) {
                                    Err(m) => Err(m),
                                    Ok((c1, s2)) => match sx_expr(args@[1], s2, single) {
                                        Err(m) => Err(m),
                                        Ok((c2, s3)) => sx_push(s3, nd(Op::Fma, a, c1, c2)),
                                    },
                                }
                            }
                        } else if n == "recip"@ {
                            match sx_const(s1, ConstLitV::Bits(bits_one())) {
                                Err(m) => Err(m),
                                Ok((one, s2)) => match sx_push(s2, nd(Op::Div, one, a, 0)) {
                                    Err(m) => Err(m),
                                    Ok((v, s3)) => sx_r32(s3, v, single),
                                },
                            }
                        } else {
                            Err("method ."@ + n + "() outside \u{3a3}"@)
                        },
                    },
                }
            }
        },
        _ => Err(Seq::empty()),
    }
}

pub open spec fn u64_max() -> nat {
    0xffff_ffff_ffff_ffff
}

pub open spec fn sx_call(e: Expr, st: XSt, single: bool) -> Step<u32>
    decreases e, 1nat,
{
    match e {
        Expr::Call(func, args) => match *func {
            Expr::Path(_, last) => {
                let n = last@;
                if args@.len() == 1 && (n == "f"@ || n == "from"@ || n == "cast"@) {
                    sx_expr(args@[0], st, single)
                } else if n == "from_bits"@ && args@.len() == 1 {
                    match args@[0] {
                        Expr::Lit(Lit::Int(d)) => match parse_num(d@, u64_max()) {
                            Err(m) => Err(m),
                            Ok(v) => sx_const(st, ConstLitV::Bits(v as u64)),
                        },
                        _ => Err("from_bits with non-literal"@),
                    }
                } else if args@.len() == 1 && method1(n) is Some {
                    match sx_expr(args@[0], st, single) {
                        Err(m) => Err(m),
                        Ok((a, s1)) => sx_apply1(
                            method1(n)->0,
                            a,
                            s1,
                            single,
                            "f32 `"@ + n + "` -- no innocuous double rounding for transcendentals"@,
                        ),
                    }
                } else {
                    Err(ticked("call `"@, n, "` outside \u{3a3}"@))
                }
            },
            _ => Err("indirect call"@),
        },
        _ => Err(Seq::empty()),
    }
}

/// The condition of an `if`: a select's own raw condition `c != 0.0` is read
/// as `c` (a select tests its condition against zero); any other condition
/// is read as a value.
pub open spec fn sx_cond(c: Expr, st: XSt, single: bool) -> Step<u32>
    decreases c, 3nat,
{
    match c {
        Expr::Binary(op, l, r) => if op == BinOp::Ne && is_zero_float(*r) {
            sx_expr(*l, st, single)
        } else {
            sx_expr(c, st, single)
        },
        _ => sx_expr(c, st, single),
    }
}

pub open spec fn sx_if_value(e: Expr, st: XSt, single: bool) -> Step<u32>
    decreases e, 1nat,
{
    match e {
        Expr::If(c, then_b, els) => match sx_cond(*c, st, single) {
            Err(m) => Err(m),
            Ok((cond, s1)) => match sx_block_value(then_b, s1, single) {
                Err(m) => Err(m),
                Ok((tv, s2)) => match els {
                    None => Err("value `if` without else"@),
                    Some(eb) => match sx_expr(*eb, s2, single) {
                        Err(m) => Err(m),
                        Ok((ev, s3)) => sx_push(s3, nd(Op::Select, cond, tv, ev)),
                    },
                },
            },
        },
        _ => Err(Seq::empty()),
    }
}

/// A block read for its value: its statements in a frame of their own,
/// ending in a value expression.
pub open spec fn sx_block_value(b: Block, st: XSt, single: bool) -> Step<u32>
    decreases b, 1nat,
{
    match sx_stmts(b.stmts@, open_frame(st), single) {
        Err(m) => Err(m),
        Ok((last, s1)) => match last {
            Some(v) => Ok((v, close_frame(s1))),
            None => Err("block yields no value"@),
        },
    }
}

// ------------------------------------------------------------ statements --

/// One statement: a `let` binds in the current frame; an expression
/// statement gives a value only if it is a value expression.
pub open spec fn sx_stmt(s: Stmt, st: XSt, single: bool) -> Step<Option<u32>>
    decreases s, 0nat,
{
    match s {
        Stmt::Local(p, init) => match sx_pat_ident(p) {
            Err(m) => Err(m),
            Ok(name) => match init {
                None => Err("let without init"@),
                Some(x) => match sx_expr(x, st, single) {
                    Err(m) => Err(m),
                    Ok((v, s1)) => Ok((
                        None,
                        with_scopes(s1, declared(s1.scopes, name, Binding::Node(v))),
                    )),
                },
            },
        },
        Stmt::Expr(x, _) => sx_stmt_expr(x, st, single),
        Stmt::Other => Err("statement form"@),
    }
}

/// Statements run for their bindings and mutations, in the current frame;
/// the value of the last one.
pub open spec fn sx_stmts(ss: Seq<Stmt>, st: XSt, single: bool) -> Step<Option<u32>>
    decreases ss, 0nat,
{
    if ss.len() == 0 {
        Ok((None, st))
    } else {
        match sx_stmt(ss[0], st, single) {
            Err(m) => Err(m),
            Ok((l1, s1)) => if ss.len() == 1 {
                Ok((l1, s1))
            } else {
                sx_stmts(ss.subrange(1, ss.len() as int), s1, single)
            },
        }
    }
}

/// An expression statement: an assignment, a loop, a statement-level `if`,
/// or a value expression.
pub open spec fn sx_stmt_expr(x: Expr, st: XSt, single: bool) -> Step<Option<u32>>
    decreases x, 3nat,
{
    match x {
        Expr::Assign(l, r, _) => match sx_expr_ident(*l) {
            Err(m) => Err(m),
            Ok(name) => if scopes_get(st.scopes, name) == Some(Binding::Foreign) {
                Ok((None, st))
            } else {
                match sx_expr(*r, st, single) {
                    Err(m) => Err(m),
                    Ok((v, s1)) => if scopes_get(s1.scopes, name) is None {
                        Err(ticked("assign to unbound `"@, name, "`"@))
                    } else {
                        Ok((None, with_scopes(s1, rebound(s1.scopes, name, Binding::Node(v)))))
                    },
                }
            },
        },
        Expr::Binary(op, l, r) => if is_compound(op) {
            match sx_expr_ident(*l) {
                Err(m) => Err(m),
                Ok(name) => if scopes_get(st.scopes, name) == Some(Binding::Foreign) {
                    Ok((None, st))
                } else {
                    match scopes_get(st.scopes, name) {
                        Some(Binding::Node(cur)) => match sx_expr(*r, st, single) {
                            Err(m) => Err(m),
                            Ok((rhs, s1)) => match sx_push(s1, nd(arith_op(op), cur, rhs, 0)) {
                                Err(m) => Err(m),
                                Ok((v, s2)) => match sx_r32(s2, v, single) {
                                    Err(m) => Err(m),
                                    Ok((w, s3)) => Ok((
                                        None,
                                        with_scopes(s3, rebound(s3.scopes, name, Binding::Node(w))),
                                    )),
                                },
                            },
                        },
                        _ => Err(ticked("`"@, name, "` not a scalar"@)),
                    }
                },
            }
        } else {
            match sx_expr(x, st, single) {
                Err(m) => Err(m),
                Ok((v, s1)) => Ok((Some(v), s1)),
            }
        },
        Expr::ForLoop(_, _, _) => sx_for(x, st, single),
        Expr::If(_, then_b, _) => if is_stmt_if(then_b) {
            sx_if_stmt(x, st, single)
        } else {
            match sx_expr(x, st, single) {
                Err(m) => Err(m),
                Ok((v, s1)) => Ok((Some(v), s1)),
            }
        },
        _ => match sx_expr(x, st, single) {
            Err(m) => Err(m),
            Ok((v, s1)) => Ok((Some(v), s1)),
        },
    }
}

// ----------------------------------------------------------------- loops --

pub open spec fn loop_var(p: Pat) -> Result<Option<Seq<char>>, Seq<char>> {
    match p {
        Pat::Ident(n) => Ok(Some(n@)),
        Pat::Wild => Ok(None),
        _ => Err("loop pattern"@),
    }
}

/// A `for` over a range: unrolled when its bounds are compile-time ints, a
/// fold per assigned variable when it runs to a sequence's length.
pub open spec fn sx_for(x: Expr, st: XSt, single: bool) -> Step<Option<u32>>
    decreases x, 1nat,
{
    match x {
        Expr::ForLoop(p, rng, body) => match loop_var(p) {
            Err(m) => Err(m),
            Ok(var) => match *rng {
                Expr::Range(start, end, closed, _) => if (end matches Some(en) && (*en
                    matches Expr::MethodCall(_, m, _) && m@ == "len"@)) {
                    if !is_zero_int(start) {
                        Err("fold range must start at 0 (offset folds: roadmap)"@)
                    } else {
                        match end {
                            Some(en) => match *en {
                                Expr::MethodCall(recv, _, _) => match path_ident(*recv) {
                                    None => Err("len() on non-param"@),
                                    Some(sn) => if !(scopes_get(st.scopes, sn) matches Some(
                                        Binding::Sequence(_),
                                    )) {
                                        Err(
                                            ticked(
                                                "`"@,
                                                sn,
                                                ".len()` bound requires a `&[f64]` param"@,
                                            ),
                                        )
                                    } else {
                                        match fold_setup(body, st.scopes) {
                                            Err(m) => Err(m),
                                            Ok((tgts, inits)) => sx_fold_pass(
                                                body,
                                                var,
                                                tgts,
                                                inits,
                                                0,
                                                st,
                                                single,
                                            ),
                                        }
                                    },
                                },
                                _ => Err(Seq::empty()),
                            },
                            None => Err(Seq::empty()),
                        }
                    }
                } else {
                    match start {
                        None => Err("open range"@),
                        Some(a) => match sx_const_int(*a, st.scopes) {
                            Err(m) => Err(m),
                            Ok(lo) => match end {
                                None => Err("open range"@),
                                Some(b) => match sx_const_int(*b, st.scopes) {
                                    Err(m) => Err(m),
                                    Ok(hi_raw) => {
                                        let hi = if closed {
                                            hi_raw + 1
                                        } else {
                                            hi_raw
                                        };
                                        if !in_i64(hi) || !in_i64(hi - lo) {
                                            Err(overflow_msg())
                                        } else if hi - lo > UNROLL_CAP {
                                            Err(
                                                "unroll of "@ + int_text(hi - lo)
                                                    + " iterations exceeds cap 1024"@,
                                            )
                                        } else {
                                            sx_unroll(body, var, lo, hi, st, single)
                                        }
                                    },
                                },
                            },
                        },
                    }
                },
                _ => Err("loop over a non-range (iterator adapters: roadmap)"@),
            },
        },
        _ => Err(Seq::empty()),
    }
}

/// Iterations `k..hi` of an unrolled loop, each in a frame of its own with
/// the loop variable bound to its compile-time value.
pub open spec fn sx_unroll(
    body: Block,
    var: Option<Seq<char>>,
    k: int,
    hi: int,
    st: XSt,
    single: bool,
) -> Step<Option<u32>>
    decreases body, (if hi > k {
        hi - k
    } else {
        0
    }) as nat,
{
    if k >= hi {
        Ok((None, st))
    } else {
        let s0 = open_frame(st);
        let s1 = match var {
            Some(v) => with_scopes(s0, declared(s0.scopes, v, Binding::Int(k as i64))),
            None => s0,
        };
        match sx_stmts(body.stmts@, s1, single) {
            Err(m) => Err(m),
            Ok((_, s2)) => sx_unroll(body, var, k + 1, hi, close_frame(s2), single),
        }
    }
}

// -------------------------------------------------------- statement if --

/// The bindings of frame `fi`, from entry `j` on, that the two branches
/// disagree on become selects on `cond`.
pub open spec fn sx_merge_frame(
    st: XSt,
    tf: Seq<FrameV>,
    ef: Seq<FrameV>,
    cond: u32,
    fi: int,
    j: int,
    m: int,
) -> Result<XSt, Seq<char>>
    decreases m - j,
{
    if j >= m || fi >= st.scopes.len() || j >= st.scopes[fi].len() {
        Ok(st)
    } else {
        let name = st.scopes[fi][j].0;
        let tb = if fi < tf.len() {
            frame_get(tf[fi], name)
        } else {
            None
        };
        let eb = if fi < ef.len() {
            frame_get(ef[fi], name)
        } else {
            None
        };
        if (tb matches Some(Binding::Node(t)) && (eb matches Some(Binding::Node(e2)) && t != e2)) {
            match sx_push(st, nd(Op::Select, cond, tb->0->Node_0, eb->0->Node_0)) {
                Err(msg) => Err(msg),
                Ok((sel, s1)) => sx_merge_frame(
                    with_scopes(
                        s1,
                        s1.scopes.update(fi, s1.scopes[fi].update(j, (name, Binding::Node(sel)))),
                    ),
                    tf,
                    ef,
                    cond,
                    fi,
                    j + 1,
                    m,
                ),
            }
        } else {
            sx_merge_frame(st, tf, ef, cond, fi, j + 1, m)
        }
    }
}

/// Frames `fi..n` merged.
pub open spec fn sx_merge(
    st: XSt,
    tf: Seq<FrameV>,
    ef: Seq<FrameV>,
    cond: u32,
    fi: int,
    n: int,
) -> Result<XSt, Seq<char>>
    decreases n - fi,
{
    if fi >= n || fi >= st.scopes.len() {
        Ok(st)
    } else {
        match sx_merge_frame(st, tf, ef, cond, fi, 0, st.scopes[fi].len() as int) {
            Err(msg) => Err(msg),
            Ok(s1) => sx_merge(s1, tf, ef, cond, fi + 1, n),
        }
    }
}

/// A statement-level `if`: each branch runs on its own copy of the scopes;
/// every binding the branches leave different becomes a select.
pub open spec fn sx_if_stmt(x: Expr, st: XSt, single: bool) -> Step<Option<u32>>
    decreases x, 1nat,
{
    match x {
        Expr::If(c, then_b, els) => match sx_cond(*c, st, single) {
            Err(m) => Err(m),
            Ok((cond, s1)) => match sx_stmts(then_b.stmts@, open_frame(s1), single) {
                Err(m) => Err(m),
                Ok((_, t2)) => {
                    let then_fs = t2.scopes.drop_last();
                    let e0 = with_scopes(t2, s1.scopes);
                    let else_run: Result<XSt, Seq<char>> = match els {
                        None => Ok(e0),
                        Some(eb) => match *eb {
                            Expr::Block(b) => match sx_stmts(b.stmts@, open_frame(e0), single) {
                                Err(m) => Err(m),
                                Ok((_, e2)) => Ok(close_frame(e2)),
                            },
                            _ => match sx_stmt_expr(*eb, e0, single) {
                                Err(m) => Err(m),
                                Ok((_, e2)) => Ok(e2),
                            },
                        },
                    };
                    match else_run {
                        Err(m) => Err(m),
                        Ok(e3) => match sx_merge(
                            with_scopes(e3, s1.scopes),
                            then_fs,
                            e3.scopes,
                            cond,
                            0,
                            s1.scopes.len() as int,
                        ) {
                            Err(m) => Err(m),
                            Ok(s4) => Ok((None, s4)),
                        },
                    }
                },
            },
        },
        _ => Err(Seq::empty()),
    }
}

// ----------------------------------------------------------------- folds --

/// The variables a fold body assigns, in order of appearance: assignments
/// and compound assignments, also inside statement `if`s (an `else` block,
/// not an `else if`).
pub open spec fn targets(ss: Seq<Stmt>) -> Seq<Seq<char>>
    decreases ss,
{
    if ss.len() == 0 {
        Seq::empty()
    } else {
        let here: Seq<Seq<char>> = match ss[0] {
            Stmt::Expr(e, _) => match e {
                Expr::Assign(l, _, _) => match sx_expr_ident(*l) {
                    Ok(n) => seq![n],
                    Err(_) => Seq::empty(),
                },
                Expr::Binary(op, l, _) => if is_compound(op) {
                    match sx_expr_ident(*l) {
                        Ok(n) => seq![n],
                        Err(_) => Seq::empty(),
                    }
                } else {
                    Seq::empty()
                },
                Expr::If(_, then_b, els) => targets(then_b.stmts@) + match els {
                    Some(eb) => match *eb {
                        Expr::Block(b) => targets(b.stmts@),
                        _ => Seq::empty(),
                    },
                    None => Seq::empty(),
                },
                _ => Seq::empty(),
            },
            _ => Seq::empty(),
        };
        here + targets(ss.subrange(1, ss.len() as int))
    }
}

/// Strict lexicographic order of names (the order of `String`).
pub open spec fn name_lt(a: Seq<char>, b: Seq<char>) -> bool
    decreases a.len(),
{
    if b.len() == 0 {
        false
    } else if a.len() == 0 {
        true
    } else if a[0] != b[0] {
        (a[0] as u32) < (b[0] as u32)
    } else {
        name_lt(a.drop_first(), b.drop_first())
    }
}

/// `x` put into its place in the ascending, repetition-free `s`.
pub open spec fn insert_name(s: Seq<Seq<char>>, x: Seq<char>) -> Seq<Seq<char>>
    decreases s.len(),
{
    if s.len() == 0 {
        seq![x]
    } else if s[0] == x {
        s
    } else if name_lt(x, s[0]) {
        seq![x] + s
    } else {
        seq![s[0]] + insert_name(s.drop_first(), x)
    }
}

/// The names sorted ascending, each once.
pub open spec fn sorted_names(s: Seq<Seq<char>>) -> Seq<Seq<char>>
    decreases s.len(),
{
    if s.len() == 0 {
        Seq::empty()
    } else {
        insert_name(sorted_names(s.drop_last()), s.last())
    }
}

/// The node each accumulator is bound to before the loop.
pub open spec fn fold_inits(tgts: Seq<Seq<char>>, fs: Seq<FrameV>) -> Result<Seq<u32>, Seq<char>>
    decreases tgts.len(),
{
    if tgts.len() == 0 {
        Ok(Seq::empty())
    } else {
        match fold_inits(tgts.drop_last(), fs) {
            Err(m) => Err(m),
            Ok(ids) => match scopes_get(fs, tgts.last()) {
                Some(Binding::Node(id)) => Ok(ids.push(id)),
                _ => Err(
                    ticked(
                        "accumulator `"@,
                        tgts.last(),
                        "` must be a scalar bound before the loop"@,
                    ),
                ),
            },
        }
    }
}

pub open spec fn fold_setup(body: Block, fs: Seq<FrameV>) -> Result<(Seq<Seq<char>>, Seq<u32>), Seq<char>> {
    let tgts = sorted_names(targets(body.stmts@));
    if tgts.len() == 0 {
        Err("fold body assigns nothing (side-effect loops are outside \u{3a3})"@)
    } else {
        match fold_inits(tgts, fs) {
            Err(m) => Err(m),
            Ok(inits) => Ok((tgts, inits)),
        }
    }
}

/// Whether the subtree of node `id` holds a fold.
pub open spec fn has_fold(nodes: Seq<Node>, id: int) -> bool
    decreases id,
{
    if id < 0 || id >= nodes.len() {
        false
    } else {
        let n = nodes[id];
        if n.op == Op::Fold {
            true
        } else {
            let ar = crate::sigma::op_arity(n.op);
            (ar >= 1 && n.a < id && has_fold(nodes, n.a as int)) || (ar >= 2 && n.b < id
                && has_fold(nodes, n.b as int)) || (ar >= 3 && n.c < id && has_fold(
                nodes,
                n.c as int,
            ))
        }
    }
}

/// A fresh copy of the subtree of node `id`, shared operands copied once
/// per use; leaves are copied too (a constant keeps its table entry).
pub open spec fn sx_dup(st: XSt, id: int) -> Step<u32>
    decreases id,
{
    if id < 0 || id >= st.nodes.len() {
        Err(Seq::empty())
    } else {
        let n = st.nodes[id];
        let ar = crate::sigma::op_arity(n.op);
        if ar == 0 {
            sx_push(st, n)
        } else if n.a >= id || (ar >= 2 && n.b >= id) || (ar >= 3 && n.c >= id) {
            Err(Seq::empty())
        } else {
            match sx_dup(st, n.a as int) {
                Err(m) => Err(m),
                Ok((a, s1)) => if ar == 1 {
                    sx_push(s1, nd(n.op, a, 0, 0))
                } else {
                    match sx_dup(s1, n.b as int) {
                        Err(m) => Err(m),
                        Ok((b, s2)) => if ar == 2 {
                            sx_push(s2, nd(n.op, a, b, 0))
                        } else {
                            match sx_dup(s2, n.c as int) {
                                Err(m) => Err(m),
                                Ok((c, s3)) => sx_push(s3, nd(n.op, a, b, c)),
                            }
                        },
                    }
                },
            }
        }
    }
}

/// `(name, id)` recorded in a list of visible scalars: a later binding of
/// a name takes the place of an earlier one.
pub open spec fn vis_put(vs: Seq<(Seq<char>, u32)>, n: Seq<char>, id: u32) -> Seq<(Seq<char>, u32)>
    decreases vs.len(),
{
    if vs.len() == 0 {
        seq![(n, id)]
    } else if vs[0].0 == n {
        seq![(n, id)] + vs.drop_first()
    } else {
        seq![vs[0]] + vis_put(vs.drop_first(), n, id)
    }
}

pub open spec fn vis_frame(vs: Seq<(Seq<char>, u32)>, f: FrameV, j: int) -> Seq<(Seq<char>, u32)>
    decreases j,
{
    if j <= 0 || j > f.len() {
        vs
    } else {
        let prev = vis_frame(vs, f, j - 1);
        match f[j - 1].1 {
            Binding::Node(id) => vis_put(prev, f[j - 1].0, id),
            _ => prev,
        }
    }
}

/// The scalar bindings visible through the scopes, outermost frame first;
/// an inner binding of a name replaces an outer one.
pub open spec fn visible(fs: Seq<FrameV>) -> Seq<(Seq<char>, u32)>
    decreases fs.len(),
{
    if fs.len() == 0 {
        Seq::empty()
    } else {
        vis_frame(visible(fs.drop_last()), fs.last(), fs.last().len() as int)
    }
}

/// Visible scalars from `i` on that are neither accumulators nor hold a
/// fold, each bound to a fresh copy of its subtree.
pub open spec fn sx_dups(
    st: XSt,
    vs: Seq<(Seq<char>, u32)>,
    tgts: Seq<Seq<char>>,
    i: int,
    acc: Seq<(Seq<char>, u32)>,
) -> Step<Seq<(Seq<char>, u32)>>
    decreases vs.len() - i,
{
    if i >= vs.len() {
        Ok((acc, st))
    } else if tgts.contains(vs[i].0) || has_fold(st.nodes, vs[i].1 as int) {
        sx_dups(st, vs, tgts, i + 1, acc)
    } else {
        match sx_dup(st, vs[i].1 as int) {
            Err(m) => Err(m),
            Ok((d, s1)) => sx_dups(s1, vs, tgts, i + 1, acc.push((vs[i].0, d))),
        }
    }
}

/// The fold body's frame: the copies, the accumulator, the other
/// accumulators as foreign, the loop variable.
pub open spec fn fold_frame(
    dups: Seq<(Seq<char>, u32)>,
    acc: Seq<char>,
    leaf: u32,
    tgts: Seq<Seq<char>>,
    var: Option<Seq<char>>,
) -> FrameV {
    let f1 = dup_frame(dups, dups.len() as int);
    let f2 = frame_declare(f1, acc, Binding::Node(leaf));
    let f3 = foreign_frame(f2, tgts, acc, tgts.len() as int);
    match var {
        Some(v) => frame_declare(f3, v, Binding::LoopIdx),
        None => f3,
    }
}

pub open spec fn dup_frame(dups: Seq<(Seq<char>, u32)>, j: int) -> FrameV
    decreases j,
{
    if j <= 0 || j > dups.len() {
        Seq::empty()
    } else {
        frame_declare(dup_frame(dups, j - 1), dups[j - 1].0, Binding::Node(dups[j - 1].1))
    }
}

pub open spec fn foreign_frame(f: FrameV, tgts: Seq<Seq<char>>, acc: Seq<char>, j: int) -> FrameV
    decreases j,
{
    if j <= 0 || j > tgts.len() {
        f
    } else {
        let prev = foreign_frame(f, tgts, acc, j - 1);
        if tgts[j - 1] != acc {
            frame_declare(prev, tgts[j - 1], Binding::Foreign)
        } else {
            prev
        }
    }
}

pub open spec fn lost_binding(name: Seq<char>) -> Seq<char> {
    ticked("accumulator `"@, name, "` lost its scalar binding"@)
}

/// Accumulators `k..` of a fold loop, each its own fold over the body.
pub open spec fn sx_fold_pass(
    body: Block,
    var: Option<Seq<char>>,
    tgts: Seq<Seq<char>>,
    inits: Seq<u32>,
    k: int,
    st: XSt,
    single: bool,
) -> Step<Option<u32>>
    decreases body, (if tgts.len() > k {
        tgts.len() - k
    } else {
        0
    }) as nat,
{
    if k >= tgts.len() || k < 0 {
        Ok((None, st))
    } else {
        let acc = tgts[k];
        match sx_push(st, nd(Op::Acc, 0, 0, 0)) {
            Err(m) => Err(m),
            Ok((leaf, s1)) => {
                let d = if tgts.len() > 1 {
                    sx_dups(s1, visible(s1.scopes), tgts, 0, Seq::empty())
                } else {
                    Ok((Seq::empty(), s1))
                };
                match d {
                    Err(m) => Err(m),
                    Ok((dups, s2)) => {
                        let s3 = with_scopes(
                            s2,
                            s2.scopes.push(fold_frame(dups, acc, leaf, tgts, var)),
                        );
                        match sx_stmts(body.stmts@, s3, single) {
                            Err(m) => Err(m),
                            Ok((_, s4)) => match scopes_get(s4.scopes, acc) {
                                Some(Binding::Node(root)) => {
                                    let s5 = close_frame(s4);
                                    if root == leaf {
                                        Err("fold body never updates the accumulator"@)
                                    } else {
                                        match sx_push(s5, nd(Op::Fold, inits[k], root, 0)) {
                                            Err(m) => Err(m),
                                            Ok((fid, s6)) => if scopes_get(s6.scopes, acc) is None {
                                                Err(lost_binding(acc))
                                            } else {
                                                sx_fold_pass(
                                                    body,
                                                    var,
                                                    tgts,
                                                    inits,
                                                    k + 1,
                                                    with_scopes(
                                                        s6,
                                                        rebound(s6.scopes, acc, Binding::Node(fid)),
                                                    ),
                                                    single,
                                                )
                                            },
                                        }
                                    }
                                },
                                _ => Err(lost_binding(acc)),
                            },
                        }
                    },
                }
            },
        }
    }
}

// ---------------------------------------------------------- well formed --

/// The method calls the reader indexes the arguments of have them: `powf`,
/// `powi`, `min` and `max` one, `mul_add` two.
pub open spec fn arg_count_ok(name: Seq<char>, n: nat) -> bool {
    &&& (name == "powf"@ || name == "powi"@ || name == "min"@ || name == "max"@) ==> n >= 1
    &&& name == "mul_add"@ ==> n >= 2
}

pub open spec fn calls_ok(e: Expr) -> bool
    decreases e,
{
    match e {
        Expr::Field(b, _) => calls_ok(*b),
        Expr::Index(a, b) => calls_ok(*a) && calls_ok(*b),
        Expr::Paren(x) => calls_ok(*x),
        Expr::Group(x) => calls_ok(*x),
        Expr::Cast(x, _) => calls_ok(*x),
        Expr::Unary(_, x) => calls_ok(*x),
        Expr::Binary(_, a, b) => calls_ok(*a) && calls_ok(*b),
        Expr::MethodCall(r, n, args) => calls_ok(*r) && arg_count_ok(n@, args@.len()) && forall|
            i: int,
        |
            #![auto]
            0 <= i < args@.len() ==> calls_ok(args@[i]),
        Expr::Call(f, args) => calls_ok(*f) && forall|i: int|
            #![auto]
            0 <= i < args@.len() ==> calls_ok(args@[i]),
        Expr::If(c, t, els) => calls_ok(*c) && block_calls_ok(t) && (match els {
            Some(x) => calls_ok(*x),
            None => true,
        }),
        Expr::Block(b) => block_calls_ok(b),
        Expr::Return(x) => match x {
            Some(y) => calls_ok(*y),
            None => true,
        },
        Expr::ForLoop(_, r, b) => calls_ok(*r) && block_calls_ok(b),
        Expr::Assign(a, b, _) => calls_ok(*a) && calls_ok(*b),
        Expr::Range(a, b, _, _) => (match a {
            Some(x) => calls_ok(*x),
            None => true,
        }) && (match b {
            Some(x) => calls_ok(*x),
            None => true,
        }),
        _ => true,
    }
}

pub open spec fn block_calls_ok(b: Block) -> bool
    decreases b,
{
    forall|i: int| #![auto] 0 <= i < b.stmts@.len() ==> stmt_calls_ok(b.stmts@[i])
}

pub open spec fn stmt_calls_ok(s: Stmt) -> bool
    decreases s,
{
    match s {
        Stmt::Local(_, init) => match init {
            Some(x) => calls_ok(x),
            None => true,
        },
        Stmt::Expr(x, _) => calls_ok(x),
        Stmt::Other => true,
    }
}

// ------------------------------------------------------------- functions --

/// The first function named `name`, searching items in order and inline
/// modules where they stand; a method comes with its impl's self type.
pub open spec fn find_fn(items: Seq<Item>, name: Seq<char>) -> Option<(FnDef, Option<Seq<char>>)>
    decreases items,
{
    if items.len() == 0 {
        None
    } else {
        let rest = find_fn(items.subrange(1, items.len() as int), name);
        match items[0] {
            Item::Fn(f) => if f.name@ == name {
                Some((f, None))
            } else {
                rest
            },
            Item::Mod(inner) => match find_fn(inner@, name) {
                Some(h) => Some(h),
                None => rest,
            },
            Item::Impl(ty, fns) => match first_named(fns@, name) {
                Some(f) => Some((f, opt_text(ty))),
                None => rest,
            },
            _ => rest,
        }
    }
}

pub open spec fn first_named(fns: Seq<FnDef>, name: Seq<char>) -> Option<FnDef>
    decreases fns.len(),
{
    if fns.len() == 0 {
        None
    } else if fns[0].name@ == name {
        Some(fns[0])
    } else {
        first_named(fns.drop_first(), name)
    }
}

/// The named fields of the struct `ty`, in declaration order: the first
/// struct of that name decides (no named fields: none), a module's struct
/// only where the module has one with named fields.
pub open spec fn struct_fields(items: Seq<Item>, ty: Seq<char>) -> Option<Vec<(Vec<char>, String)>>
    decreases items,
{
    if items.len() == 0 {
        None
    } else {
        let rest = struct_fields(items.subrange(1, items.len() as int), ty);
        match items[0] {
            Item::Struct(n, fields) => if n@ == ty {
                fields
            } else {
                rest
            },
            Item::Mod(inner) => match struct_fields(inner@, ty) {
                Some(h) => Some(h),
                None => rest,
            },
            _ => rest,
        }
    }
}

/// The signature mentions the bare type `t` (result or a parameter).
pub open spec fn sig_has(d: FnDef, t: Seq<char>) -> bool {
    ||| (d.output matches Some(o) && ty_ident(o) == Some(t))
    ||| exists|i: int|
        0 <= i < d.inputs@.len() && (#[trigger] d.inputs@[i] matches FnArg::Typed(_, ty) && ty_ident(ty)
            == Some(t))
}

/// A concrete numeric type other than f64 (f32 has f32 mode).
pub open spec fn bad_scalar(t: Ty) -> Option<Seq<char>> {
    match ty_ident(t) {
        Some(n) => if is_bad_scalar(n) {
            Some(n)
        } else {
            None
        },
        None => None,
    }
}

pub open spec fn array_len(t: Ty) -> Option<nat>
    decreases t,
{
    match t {
        Ty::Ref(inner) => array_len(*inner),
        Ty::Array(Some(d)) => match parse_num(d@, usize::MAX as nat) {
            Ok(n) => Some(n),
            Err(_) => None,
        },
        _ => None,
    }
}

pub open spec fn is_unsized_slice(t: Ty) -> bool
    decreases t,
{
    match t {
        Ty::Ref(inner) => is_unsized_slice(*inner),
        Ty::Slice => true,
        _ => false,
    }
}

pub open spec fn has_room_n(st: XSt, n: nat) -> bool {
    st.nodes.len() + n < 0xffff_ffff && st.consts.len() + n < 0xffff_ffff
}

/// Variables `slot .. slot + n`, one node each.
pub open spec fn sx_vars(st: XSt, slot: nat, n: nat) -> Result<XSt, Seq<char>> {
    if has_room_n(st, n) {
        Ok(
            XSt {
                nodes: st.nodes + Seq::new(n, |j: int| nd(Op::Var, (slot + j) as u32, 0, 0)),
                consts: st.consts,
                scopes: st.scopes,
            },
        )
    } else {
        Err(too_large())
    }
}

/// The receiver's fields from `j` on: an f64 field becomes the next
/// variable, any other field refuses when read.
pub open spec fn sx_fields(fs: Seq<(Vec<char>, String)>, j: int, st: XSt, slot: nat) -> Result<(XSt, nat), Seq<char>>
    decreases fs.len() - j,
{
    if j >= fs.len() || j < 0 {
        Ok((st, slot))
    } else {
        let key = "self."@ + fs[j].0@;
        if fs[j].1@ == "f64"@ {
            match sx_push(st, nd(Op::Var, slot as u32, 0, 0)) {
                Err(m) => Err(m),
                Ok((id, s1)) => sx_fields(
                    fs,
                    j + 1,
                    with_scopes(s1, declared(s1.scopes, key, Binding::Node(id))),
                    slot + 1,
                ),
            }
        } else {
            sx_fields(
                fs,
                j + 1,
                with_scopes(st, declared(st.scopes, key, Binding::NonF64Field(fs[j].1))),
                slot,
            )
        }
    }
}

pub open spec fn bad_param_msg(name: Seq<char>, bad: Seq<char>) -> Seq<char> {
    "param `"@ + name + ": "@ + bad + "` -- Sigma is f64-only; extracting `"@ + bad
        + "` arithmetic as f64 changes rounding at every op ("@ + bad + " lifting: roadmap)"@
}

pub open spec fn bad_return_msg(t: Seq<char>) -> Seq<char> {
    "return type `"@ + t + "` -- Sigma is f64-only; extracting `"@ + t
        + "` arithmetic as f64 changes rounding at every op ("@ + t + " lifting: roadmap)"@
}

/// Parameters `i..` bound in the function's frame.
pub open spec fn sx_params(
    args: Seq<FnArg>,
    i: int,
    st: XSt,
    slot: nat,
    sq: nat,
    single: bool,
    self_ty: Option<Seq<char>>,
    items: Seq<Item>,
) -> Result<XSt, Seq<char>>
    decreases args.len() - i,
{
    if i >= args.len() || i < 0 {
        Ok(st)
    } else {
        match args[i] {
            FnArg::Typed(p, t) => match sx_pat_ident(p) {
                Err(m) => Err(m),
                Ok(name) => if bad_scalar(t) is Some {
                    Err(bad_param_msg(name, bad_scalar(t)->0))
                } else if is_unsized_slice(t) {
                    if single {
                        Err("`&[f32]` sequence param -- f32 sequences are on the roadmap (Sigma seqs are f64)"@)
                    } else if sq >= 0xffff_ffff {
                        Err(too_large())
                    } else {
                        sx_params(
                            args,
                            i + 1,
                            with_scopes(st, declared(st.scopes, name, Binding::Sequence(sq as u32))),
                            slot,
                            sq + 1,
                            single,
                            self_ty,
                            items,
                        )
                    }
                } else {
                    match array_len(t) {
                        Some(n) => if single {
                            Err("f32 array param -- f32 arrays are on the roadmap"@)
                        } else {
                            match sx_vars(st, slot, n) {
                                Err(m) => Err(m),
                                Ok(s1) => sx_params(
                                    args,
                                    i + 1,
                                    with_scopes(
                                        s1,
                                        declared(
                                            s1.scopes,
                                            name,
                                            Binding::Array(st.nodes.len() as u32, n as u32),
                                        ),
                                    ),
                                    slot + n,
                                    sq,
                                    single,
                                    self_ty,
                                    items,
                                ),
                            }
                        },
                        None => match sx_push(st, nd(Op::Var, slot as u32, 0, 0)) {
                            Err(m) => Err(m),
                            Ok((id, s1)) => match (if single {
                                sx_push(s1, nd(Op::Rnd32, id, 0, 0))
                            } else {
                                Ok((id, s1))
                            }) {
                                Err(m) => Err(m),
                                Ok((v, s2)) => sx_params(
                                    args,
                                    i + 1,
                                    with_scopes(s2, declared(s2.scopes, name, Binding::Node(v))),
                                    slot + 1,
                                    sq,
                                    single,
                                    self_ty,
                                    items,
                                ),
                            },
                        },
                    }
                },
            },
            FnArg::Receiver(mutable) => if mutable {
                Err(
                    "mutable method receiver -- `&mut self` mutates receiver state (the audit's effort/P3 class); Sigma reads `&self` getters and free fns"@,
                )
            } else {
                match self_ty {
                    None => Err("method on an unnameable self type"@),
                    Some(tn) => match struct_fields(items, tn) {
                        None => Err(
                            ticked(
                                "receiver struct `"@,
                                tn,
                                "` has no named-field definition in this file -- field layout unknown, cannot flatten `self`"@,
                            ),
                        ),
                        Some(fs) => match sx_fields(fs@, 0, st, slot) {
                            Err(m) => Err(m),
                            Ok((s1, slot2)) => sx_params(
                                args,
                                i + 1,
                                s1,
                                slot2,
                                sq,
                                single,
                                self_ty,
                                items,
                            ),
                        },
                    },
                }
            },
        }
    }
}

pub open spec fn start_state() -> XSt {
    XSt { nodes: Seq::empty(), consts: Seq::empty(), scopes: seq![Seq::empty()] }
}

/// Reading a function: its signature decides f32 mode and binds the
/// parameters, its body gives the root.
pub open spec fn sx_read_fn(d: FnDef, self_ty: Option<Seq<char>>, items: Seq<Item>) -> Result<(XSt, u32), Seq<char>> {
    let single = sig_has(d, "f32"@);
    if single && sig_has(d, "f64"@) {
        Err(
            "mixed f32/f64 signature -- precision of each op is invisible to the syntax walk; single-precision signatures only"@,
        )
    } else if (d.output matches Some(o) && bad_scalar(o) is Some) {
        Err(bad_return_msg(bad_scalar(d.output->0)->0))
    } else {
        match sx_params(d.inputs@, 0, start_state(), 0, 0, single, self_ty, items) {
            Err(m) => Err(m),
            Ok(st) => match sx_block_value(d.body, st, single) {
                Err(m) => Err(m),
                Ok((root, s2)) => Ok((s2, root)),
            },
        }
    }
}

/// The calls of the function `name` (if found) are well formed.
pub open spec fn fn_calls_ok(items: Seq<Item>, name: Seq<char>) -> bool {
    find_fn(items, name) matches Some((d, _)) ==> block_calls_ok(d.body)
}


/// The reader keeps what a comparison means: for every Rust comparison
/// operator and every way its operands can compare (NaN included), the Σ
/// node it is read as holds exactly when the Rust comparison does.
pub proof fn law_comparisons_keep_their_meaning(op: BinOp, lt: bool, eq: bool, gt: bool)
    requires
        is_cmp_op(op),
        crate::sigma::outcome_ok(lt, eq, gt),
    ensures
        crate::sigma::relation_holds(cmp_op(op), lt, eq, gt) == crate::syntax::rust_relation_holds(
            op,
            lt,
            eq,
            gt,
        ),
{
}

} // verus!
