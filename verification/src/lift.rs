//! The LLVM IR front door: lift a pure f64 function from IR text into Σ.
//!
//! Straight-line code (one basic block) is read instruction by instruction;
//! several blocks go to the fold/branch recognizer in `fold`. Recognition is
//! positive-only: anything outside the admitted subset is a refusal with its
//! reason, never a guess. Lifting is untrusted — a lifted term is meant to be
//! compared against the compiled original — so the guarantees stated here are
//! about the shape of what comes out: every lifted term is a well-formed
//! arena, and the refusals happen where the subset ends.
use vstd::prelude::*;
use crate::fold::lift_fold;
use crate::lex::{
    float_literal, is_float_literal, parse_hex16, hex16_digits, hex_number, split_top,
    spec_split_top, spec_symbol_of, strip_comment, symbol_of, trim_quotes, trim_quotes_exec,
    vecs_view,
};
use crate::names::{Env, lookup};
use crate::denote::{denote, Expr};
use crate::sigma::{Op, op_arity};
use crate::term::{lit_view, lits_view, ConstLit, ConstLitV, Term, TermBuilder};
use crate::text::{
    chars_of, copy_range, ends, eq, find_char, first_word, has, has_ws_exec, lit_is, owned,
    push_chars, push_lit, rfind_char, split_first_word, split_once, starts, strip_prefix,
    strip_prefix_char, string_of, trim, trim_exec, trim_start_exec, wrap, first_char_at,
    last_char_at, has_char, starts_with, contains, ends_with, occurs_at, trim_end, put_lit,
    trim_start, after_first_word, words, split_on, lines,
};

verus! {

#[derive(Debug)]
pub enum LiftError {
    /// input isn't (this subset of) LLVM IR text
    Parse(String),
    /// no `define` with a matching symbol
    FnNotFound(String),
    /// several mangled symbols match the requested name
    Ambiguous(Vec<String>),
    /// recognized IR, outside the admitted subset — the message names the
    /// phase that will admit it, or the reason it never will be admitted
    Refused(String),
}

/// How `{:?}` prints a list of strings.
pub uninterp spec fn debug_list(v: Seq<Seq<char>>) -> Seq<char>;

#[verifier::external_body]
fn debug_strings(v: &Vec<String>) -> (r: String)
    ensures
        r@ == debug_list(v@.map_values(|s: String| s@)),
{
    format!("{v:?}")
}

impl LiftError {
    /// The human-readable rendering of the error.
    pub fn message(&self) -> (r: String)
        ensures
            self matches LiftError::Parse(m) ==> r@ == "parse: "@ + m@,
            self matches LiftError::FnNotFound(n) ==> r@ == "no `define double @\u{2026}"@ + n@
                + "\u{2026}(double, \u{2026})` found"@,
            self matches LiftError::Ambiguous(v) ==> r@ == "ambiguous symbol; candidates: "@
                + debug_list(v@.map_values(|s: String| s@)),
            self matches LiftError::Refused(m) ==> r@ == "refused: "@ + m@,
    {
        match self {
            LiftError::Parse(m) => {
                let mut r = owned("parse: ");
                r.append(m.as_str());
                r
            },
            LiftError::FnNotFound(n) => {
                let mut r = owned("no `define double @\u{2026}");
                r.append(n.as_str());
                push_lit(&mut r, "\u{2026}(double, \u{2026})` found");
                r
            },
            LiftError::Ambiguous(v) => {
                let mut r = owned("ambiguous symbol; candidates: ");
                let d = debug_strings(v);
                r.append(d.as_str());
                r
            },
            LiftError::Refused(m) => {
                let mut r = owned("refused: ");
                r.append(m.as_str());
                r
            },
        }
    }
}

pub(crate) fn parse_err(a: &str, cs: &[char], b: &str) -> (e: LiftError)
    ensures
        (e matches LiftError::Parse(m) && m@ == a@ + cs@ + b@),
{
    LiftError::Parse(wrap(a, cs, b))
}

pub(crate) fn parse_lit(a: &str) -> (e: LiftError)
    ensures
        (e matches LiftError::Parse(m) && m@ == a@),
{
    LiftError::Parse(owned(a))
}

pub(crate) fn refused_lit(a: &str) -> (e: LiftError)
    ensures
        (e matches LiftError::Refused(m) && m@ == a@),
{
    LiftError::Refused(owned(a))
}

pub(crate) fn refused_wrap(a: &str, cs: &[char], b: &str) -> (e: LiftError)
    ensures
        (e matches LiftError::Refused(m) && m@ == a@ + cs@ + b@),
{
    LiftError::Refused(wrap(a, cs, b))
}

/// The refusal at the machine limit: node ids are `u32`.
pub open spec fn is_too_large(e: LiftError) -> bool {
    e matches LiftError::Parse(m) && m@ == "term exceeds the u32 node-id space"@
}

/// The machine limit: node ids are `u32`.
pub(crate) fn too_large() -> (e: LiftError)
    ensures
        e matches LiftError::Parse(m) && m@ == "term exceeds the u32 node-id space"@,
{
    parse_lit("term exceeds the u32 node-id space")
}

// ------------------------------------------------------------- the maps --

/// The fast-math flags: each licenses the compiler to relax IEEE-754.
pub open spec fn is_fmf(t: Seq<char>) -> bool {
    ||| t == "fast"@
    ||| t == "nnan"@
    ||| t == "ninf"@
    ||| t == "nsz"@
    ||| t == "arcp"@
    ||| t == "contract"@
    ||| t == "afn"@
    ||| t == "reassoc"@
}

pub fn fmf(t: &[char]) -> (r: bool)
    ensures
        r == is_fmf(t@),
{
    lit_is(t, "fast") || lit_is(t, "nnan") || lit_is(t, "ninf") || lit_is(t, "nsz") || lit_is(t, "arcp") || lit_is(
        t,
        "contract",
    ) || lit_is(t, "afn") || lit_is(t, "reassoc")
}

/// The closed call map: LLVM symbol / intrinsic → Σ op. Everything outside
/// it is a refusal. `llvm.minnum/maxnum` (and the 2019 `*num` forms rustc
/// lowers `f64::min/max` to) are Σ Min/Max — NaN yields the other operand;
/// the NaN-propagating `llvm.minimum/maximum` are deliberately absent.
pub open spec fn call_map(s: Seq<char>) -> Option<Op> {
    if s == "llvm.sqrt.f64"@ || s == "sqrt"@ {
        Some(Op::Sqrt)
    } else if s == "llvm.fabs.f64"@ || s == "fabs"@ {
        Some(Op::Abs)
    } else if s == "llvm.floor.f64"@ || s == "floor"@ {
        Some(Op::Floor)
    } else if s == "llvm.ceil.f64"@ || s == "ceil"@ {
        Some(Op::Ceil)
    } else if s == "llvm.sin.f64"@ || s == "sin"@ {
        Some(Op::Sin)
    } else if s == "llvm.cos.f64"@ || s == "cos"@ {
        Some(Op::Cos)
    } else if s == "tan"@ {
        Some(Op::Tan)
    } else if s == "llvm.exp.f64"@ || s == "exp"@ {
        Some(Op::Exp)
    } else if s == "llvm.exp2.f64"@ || s == "exp2"@ {
        Some(Op::Exp2)
    } else if s == "llvm.log.f64"@ || s == "log"@ {
        Some(Op::Ln)
    } else if s == "llvm.pow.f64"@ || s == "pow"@ {
        Some(Op::Pow)
    } else if s == "llvm.fma.f64"@ || s == "fma"@ {
        Some(Op::Fma)
    } else if s == "llvm.minnum.f64"@ || s == "fmin"@ || s == "llvm.minimumnum.f64"@ {
        Some(Op::Min)
    } else if s == "llvm.maxnum.f64"@ || s == "fmax"@ || s == "llvm.maximumnum.f64"@ {
        Some(Op::Max)
    } else {
        None
    }
}

pub fn call_op(s: &[char]) -> (r: Option<Op>)
    ensures
        r == call_map(s@),
{
    if lit_is(s, "llvm.sqrt.f64") || lit_is(s, "sqrt") {
        Some(Op::Sqrt)
    } else if lit_is(s, "llvm.fabs.f64") || lit_is(s, "fabs") {
        Some(Op::Abs)
    } else if lit_is(s, "llvm.floor.f64") || lit_is(s, "floor") {
        Some(Op::Floor)
    } else if lit_is(s, "llvm.ceil.f64") || lit_is(s, "ceil") {
        Some(Op::Ceil)
    } else if lit_is(s, "llvm.sin.f64") || lit_is(s, "sin") {
        Some(Op::Sin)
    } else if lit_is(s, "llvm.cos.f64") || lit_is(s, "cos") {
        Some(Op::Cos)
    } else if lit_is(s, "tan") {
        Some(Op::Tan)
    } else if lit_is(s, "llvm.exp.f64") || lit_is(s, "exp") {
        Some(Op::Exp)
    } else if lit_is(s, "llvm.exp2.f64") || lit_is(s, "exp2") {
        Some(Op::Exp2)
    } else if lit_is(s, "llvm.log.f64") || lit_is(s, "log") {
        Some(Op::Ln)
    } else if lit_is(s, "llvm.pow.f64") || lit_is(s, "pow") {
        Some(Op::Pow)
    } else if lit_is(s, "llvm.fma.f64") || lit_is(s, "fma") {
        Some(Op::Fma)
    } else if lit_is(s, "llvm.minnum.f64") || lit_is(s, "fmin") || lit_is(s, "llvm.minimumnum.f64") {
        Some(Op::Min)
    } else if lit_is(s, "llvm.maxnum.f64") || lit_is(s, "fmax") || lit_is(s, "llvm.maximumnum.f64") {
        Some(Op::Max)
    } else {
        None
    }
}

/// Every op in the call map is an operator with operands.
proof fn lemma_call_map_arity(s: Seq<char>)
    ensures
        call_map(s) matches Some(op) ==> 1 <= op_arity(op) <= 3,
{
}

// ------------------------------------------------------------- refusals --

/// Heads of instructions that are recognized IR but outside the subset.
pub open spec fn refused_head(h: Seq<char>) -> bool {
    ||| h == "br"@ || h == "phi"@ || h == "switch"@
    ||| h == "load"@ || h == "store"@ || h == "alloca"@ || h == "getelementptr"@
    ||| h == "sitofp"@ || h == "uitofp"@ || h == "fptosi"@ || h == "fptoui"@ || h == "fpext"@
        || h == "fptrunc"@ || h == "zext"@ || h == "sext"@
    ||| h == "add"@ || h == "sub"@ || h == "mul"@ || h == "sdiv"@ || h == "udiv"@ || h == "and"@
        || h == "or"@ || h == "xor"@ || h == "shl"@ || h == "lshr"@ || h == "ashr"@
    ||| h == "frem"@
}

pub open spec fn head_of(line: Seq<char>) -> Seq<char> {
    match first_word(line) {
        Some(w) => w,
        None => Seq::empty(),
    }
}

pub fn refused_head_exec(h: &[char]) -> (r: bool)
    ensures
        r == refused_head(h@),
{
    lit_is(h, "br") || lit_is(h, "phi") || lit_is(h, "switch") || lit_is(h, "load") || lit_is(
        h,
        "store",
    ) || lit_is(h, "alloca") || lit_is(h, "getelementptr") || lit_is(h, "sitofp") || lit_is(
        h,
        "uitofp",
    ) || lit_is(h, "fptosi") || lit_is(h, "fptoui") || lit_is(h, "fpext") || lit_is(h, "fptrunc")
        || lit_is(h, "zext") || lit_is(h, "sext") || lit_is(h, "add") || lit_is(h, "sub")
        || lit_is(h, "mul") || lit_is(h, "sdiv") || lit_is(h, "udiv") || lit_is(h, "and")
        || lit_is(h, "or") || lit_is(h, "xor") || lit_is(h, "shl") || lit_is(h, "lshr") || lit_is(
        h,
        "ashr",
    ) || lit_is(h, "frem")
}

/// The refusal for an instruction outside the subset: a refusal naming the
/// phase that would admit it for recognized heads, a parse error otherwise.
pub fn refuse_inst(line: &[char]) -> (e: LiftError)
    ensures
        e is Refused <==> refused_head(head_of(line@)),
        e is Parse <==> !refused_head(head_of(line@)),
{
    let head: Vec<char> = match split_first_word(line) {
        Some((w, _)) => w,
        None => Vec::new(),
    };
    assert(head@ == head_of(line@));
    let msg = if lit_is(&head, "br") || lit_is(&head, "phi") || lit_is(&head, "switch") {
        "control flow (`br`/`phi`) \u{2014} P2: natural-loop detection, induction variable + accumulator-phi recognition \u{2192} Fold; P1 is straight-line"
    } else if lit_is(&head, "load") || lit_is(&head, "store") || lit_is(&head, "alloca") || lit_is(
        &head,
        "getelementptr",
    ) {
        "memory operation \u{2014} P3: side-effect slicing + re-stitching (deferred until the field trial quantifies the coverage gap)"
    } else if lit_is(&head, "sitofp") || lit_is(&head, "uitofp") || lit_is(&head, "fptosi") || lit_is(
        &head,
        "fptoui",
    ) || lit_is(&head, "fpext") || lit_is(&head, "fptrunc") || lit_is(&head, "zext") || lit_is(&head, "sext") {
        "int/float conversion \u{2014} outside the pure-f64 P1 alphabet"
    } else if lit_is(&head, "add") || lit_is(&head, "sub") || lit_is(&head, "mul") || lit_is(&head, "sdiv") || lit_is(
        &head,
        "udiv",
    ) || lit_is(&head, "and") || lit_is(&head, "or") || lit_is(&head, "xor") || lit_is(&head, "shl") || lit_is(
        &head,
        "lshr",
    ) || lit_is(&head, "ashr") {
        "integer arithmetic \u{2014} outside the pure-f64 P1 alphabet"
    } else if lit_is(&head, "frem") {
        "frem has no \u{3a3} symbol (no decidable theory, no rule set) \u{2014} refused"
    } else {
        return parse_err("unrecognized instruction: `", line, "`");
    };
    let mut m = wrap("`", &head, "`: ");
    push_lit(&mut m, msg);
    LiftError::Refused(m)
}

pub open spec fn fmf_message(inst: Seq<char>) -> Seq<char> {
    "fast-math flags on `"@ + inst
        + "` \u{2014} fmf licenses the compiler to relax the IEEE-754 semantics \u{3a3} is defined over; the instruction's meaning is not the \u{3a3} op's meaning. Re-emit IR without -ffast-math."@
}

pub fn fmf_refusal(inst: &[char]) -> (e: LiftError)
    ensures
        (e matches LiftError::Refused(m) && m@ == fmf_message(inst@)),
{
    refused_wrap(
        "fast-math flags on `",
        inst,
        "` \u{2014} fmf licenses the compiler to relax the IEEE-754 semantics \u{3a3} is defined over; the instruction's meaning is not the \u{3a3} op's meaning. Re-emit IR without -ffast-math.",
    )
}

// -------------------------------------------------------------- operands --

/// The constant an LLVM double literal spells: `0x` + 16 hex digits is the
/// exact binary64 bit pattern; anything `f64::from_str` accepts is a decimal
/// literal (kept as written; its value is the round-to-nearest reading).
pub open spec fn spec_fconst(s: Seq<char>) -> Option<ConstLitV> {
    if starts_with(s, "0x"@) || starts_with(s, "0X"@) {
        match hex16_digits(s.skip(2)) {
            Some(d) => Some(ConstLitV::Bits(hex_number(d) as u64)),
            None => None,
        }
    } else if is_float_literal(s) {
        Some(ConstLitV::Decimal(s))
    } else {
        None
    }
}

/// LLVM double literals: decimal-scientific (`-1.500000e+00`) or the exact
/// bit form `0x` + 16 hex digits.
pub fn parse_fconst(s: &[char]) -> (r: Result<ConstLit, LiftError>)
    ensures
        r is Ok <==> spec_fconst(s@) is Some,
        not_missing(r),
        r matches Ok(c) ==> Some(lit_view(c)) == spec_fconst(s@),
        (starts_with(s@, "0x"@) || starts_with(s@, "0X"@)) && spec_fconst(s@) is None ==> r is Err
            && r->Err_0 is Refused,
        !(starts_with(s@, "0x"@) || starts_with(s@, "0X"@)) && spec_fconst(s@) is None ==> r is Err
            && r->Err_0 is Parse,
{
    let hex = match strip_prefix(s, "0x") {
        Some(h) => Some(h),
        None => strip_prefix(s, "0X"),
    };
    if let Some(h) = hex {
        proof {
            reveal_strlit("0x");
            reveal_strlit("0X");
        }
        return match parse_hex16(&h) {
            Some(bits) => Ok(ConstLit::Bits(bits)),
            None => Err(refused_wrap(
                "non-binary64 float literal `",
                s,
                "` (0xK/0xH/0xL are fp80/half/fp128)",
            )),
        };
    }
    if float_literal(s) {
        let t = copy_range(s, 0, s.len());
        assert(t@ =~= s@);
        Ok(ConstLit::Decimal(t))
    } else {
        Err(parse_err("bad float literal `", s, "`"))
    }
}

/// Shape facts the lifter keeps about its builder across a call: it only
/// grows and stays well formed.
pub open spec fn grows(b0: TermBuilder, b1: TermBuilder) -> bool {
    &&& b1.inv()
    &&& b0.nodes@.len() <= b1.nodes@.len()
    &&& b0.nodes@ == b1.nodes@.take(b0.nodes@.len() as int)
    &&& b0.consts@.len() <= b1.consts@.len()
    &&& b0.consts@ == b1.consts@.take(b0.consts@.len() as int)
}

/// `b1` holds at most `k` more nodes and constants than `b0`.
pub open spec fn within(b0: TermBuilder, b1: TermBuilder, k: nat) -> bool {
    b1.nodes@.len() <= b0.nodes@.len() + k && b1.consts@.len() <= b0.consts@.len() + k
}

pub proof fn lemma_grows_refl(b: TermBuilder)
    requires
        b.inv(),
    ensures
        grows(b, b),
{
    assert(b.nodes@ =~= b.nodes@.take(b.nodes@.len() as int));
    assert(b.consts@ =~= b.consts@.take(b.consts@.len() as int));
}

/// One node appended with the constants untouched: the builder grows by it.
pub proof fn lemma_node_appended(b0: TermBuilder, b1: TermBuilder, b: TermBuilder)
    requires
        grows(b0, b1),
        b.inv(),
        b.nodes@.len() == b1.nodes@.len() + 1,
        b.nodes@.drop_last() == b1.nodes@,
        b.consts@ == b1.consts@,
    ensures
        grows(b1, b),
        grows(b0, b),
{
    assert(b1.nodes@ =~= b.nodes@.take(b1.nodes@.len() as int));
    assert(b1.consts@ =~= b.consts@.take(b1.consts@.len() as int));
    lemma_grows_trans(b0, b1, b);
}

pub proof fn lemma_grows_trans(b0: TermBuilder, b1: TermBuilder, b2: TermBuilder)
    requires
        grows(b0, b1),
        grows(b1, b2),
    ensures
        grows(b0, b2),
{
    assert(b0.nodes@ =~= b2.nodes@.take(b0.nodes@.len() as int));
    assert(b0.consts@ =~= b2.consts@.take(b0.consts@.len() as int));
}

// ---------------------------------------------------------------- values --

/// What the builder's node `id` stands for.
pub open spec fn den(b: TermBuilder, id: int) -> Expr {
    denote(b.nodes@, lits_view(b.consts@), id)
}

/// The values of the SSA names bound in `ev`, over the builder's arena.
pub open spec fn vals(ev: Seq<(Seq<char>, u32)>, b: TermBuilder) -> Map<Seq<char>, Expr> {
    Map::new(
        |k: Seq<char>| lookup(ev, k) is Some,
        |k: Seq<char>| den(b, lookup(ev, k)->0 as int),
    )
}

/// Growing the builder changes no existing node's value.
pub proof fn lemma_den_stable(b0: TermBuilder, b1: TermBuilder, id: int)
    requires
        b0.inv(),
        grows(b0, b1),
        0 <= id < b0.nodes@.len(),
    ensures
        den(b1, id) == den(b0, id),
{
    assert(lits_view(b0.consts@) =~= lits_view(b1.consts@).take(b0.consts@.len() as int));
    crate::denote::lemma_denote_prefix(
        b0.nodes@,
        lits_view(b0.consts@),
        b1.nodes@,
        lits_view(b1.consts@),
        id,
    );
}

/// Growing the builder changes no SSA name's value.
pub proof fn lemma_vals_stable(env: Env, b0: TermBuilder, b1: TermBuilder)
    requires
        b0.inv(),
        grows(b0, b1),
        env.below(b0.nodes@.len()),
    ensures
        vals(env.view(), b1) == vals(env.view(), b0),
{
    assert forall|i: int| 0 <= i < env.view().len() implies env.view()[i].1 < b0.nodes@.len() by {
        assert(env.view()[i].1 == env.entries@[i].1);
    }
    lemma_vals_stable_view(env.view(), b0, b1);
}

pub proof fn lemma_vals_stable_view(ev: Seq<(Seq<char>, u32)>, b0: TermBuilder, b1: TermBuilder)
    requires
        b0.inv(),
        grows(b0, b1),
        forall|i: int| 0 <= i < ev.len() ==> ev[i].1 < b0.nodes@.len(),
    ensures
        vals(ev, b1) == vals(ev, b0),
{
    assert forall|k: Seq<char>| #[trigger] lookup(ev, k) is Some implies den(
        b1,
        lookup(ev, k)->0 as int,
    ) == den(b0, lookup(ev, k)->0 as int) by {
        crate::names::lemma_lookup_in(ev, k);
        let i = choose|i: int| 0 <= i < ev.len() && ev[i].1 == lookup(ev, k)->0;
        lemma_den_stable(b0, b1, lookup(ev, k)->0 as int);
    }
    assert(vals(ev, b1) =~= vals(ev, b0));
}

/// The value an operand spells: an SSA name's value, or a literal constant.
pub open spec fn operand_val(s: Seq<char>, m: Map<Seq<char>, Expr>) -> Option<Expr> {
    let t = trim(s);
    if t.len() > 0 && t[0] == '%' {
        if m.contains_key(t.skip(1)) {
            Some(m[t.skip(1)])
        } else {
            None
        }
    } else {
        match spec_fconst(t) {
            Some(c) => Some(Expr::Const(c)),
            None => None,
        }
    }
}

/// `s` with a leading keyword `l` and the blanks after it removed.
pub open spec fn strip_kw(s: Seq<char>, l: Seq<char>) -> Seq<char> {
    if starts_with(s, l) {
        trim(s.skip(l.len() as int))
    } else {
        s
    }
}

/// The value of a single typed operand (`double %x`, `noundef %x`, `%x`).
pub open spec fn one_val(s: Seq<char>, m: Map<Seq<char>, Expr>) -> Option<Expr> {
    operand_val(strip_kw(strip_kw(trim(s), "double"@), "noundef"@), m)
}

/// The values of a homogeneous operand pair `double %a, %b`.
pub open spec fn two_vals(s: Seq<char>, m: Map<Seq<char>, Expr>) -> Option<(Expr, Expr)> {
    let s1 = trim(s);
    if first_word(s1) matches Some(w) && is_fmf(w) {
        None
    } else if !starts_with(s1, "double"@) {
        None
    } else {
        let parts = spec_split_top(trim(s1.skip("double"@.len() as int)));
        if parts.len() != 2 {
            None
        } else {
            match (operand_val(parts[0], m), operand_val(parts[1], m)) {
                (Some(x), Some(y)) => Some((x, y)),
                _ => None,
            }
        }
    }
}

/// The leading tokens of a call up to its return type: the fast-math flags
/// among them, and the text from the return type on (or where the tokens
/// end). `None`: the tokens end without a return type.
pub open spec fn call_scan(r: Seq<char>) -> Option<(Seq<Seq<char>>, Seq<char>)>
    decreases r.len(),
{
    match first_word(r) {
        None => Some((Seq::empty(), r)),
        Some(tok) => if tok == "double"@ {
            Some((Seq::empty(), r))
        } else {
            let next = trim_start(after_first_word(r));
            if next.len() == 0 || next.len() >= r.len() {
                None
            } else {
                match call_scan(next) {
                    None => None,
                    Some((fl, rr)) => Some(
                        (
                            if is_fmf(tok) {
                                seq![tok] + fl
                            } else {
                                fl
                            },
                            rr,
                        ),
                    ),
                }
            }
        },
    }
}

/// The values of a call's arguments, each a single typed operand.
pub open spec fn vals_all(ps: Seq<Seq<char>>, m: Map<Seq<char>, Expr>) -> Option<Seq<Expr>>
    decreases ps.len(),
{
    if ps.len() == 0 {
        Some(Seq::empty())
    } else {
        match (vals_all(ps.drop_last(), m), one_val(ps.last(), m)) {
            (Some(xs), Some(x)) => Some(xs.push(x)),
            _ => None,
        }
    }
}

/// The node `op` applied to operand trees `xs` (one to three of them).
pub open spec fn apply_op(op: Op, xs: Seq<Expr>) -> Expr {
    if xs.len() == 1 {
        Expr::Node1(op, Box::new(xs[0]))
    } else if xs.len() == 2 {
        Expr::Node2(op, Box::new(xs[0]), Box::new(xs[1]))
    } else {
        Expr::Node3(op, Box::new(xs[0]), Box::new(xs[1]), Box::new(xs[2]))
    }
}

/// The callee of `min`/`max` lowerings rustc marks `nsz`.
pub open spec fn is_nsz_minmax(sym: Seq<char>) -> bool {
    sym == "llvm.minimumnum.f64"@ || sym == "llvm.maximumnum.f64"@ || sym == "llvm.minnum.f64"@
        || sym == "llvm.maxnum.f64"@
}

/// The value of a call `[flags] double @sym(args)`: the Σ op of `sym` in the
/// closed call map, applied to the arguments' values.
pub open spec fn call_val(rest: Seq<char>, m: Map<Seq<char>, Expr>) -> Option<Expr> {
    match call_scan(trim_start(rest)) {
        None => None,
        Some((flags, r)) => if !starts_with(r, "double"@) {
            None
        } else {
            let r2 = trim_start(r.skip("double"@.len() as int));
            if !(r2.len() > 0 && r2[0] == '@') {
                None
            } else {
                let at = r2.skip(1);
                if !has_char(at, '(') || !has_char(at, ')') {
                    None
                } else {
                    let open = choose|i: int| first_char_at(at, '(', i);
                    let close = choose|i: int| last_char_at(at, ')', i);
                    let sym = trim_quotes(at.take(open));
                    let nsz_ok = flags.len() == 1 && flags[0] == "nsz"@ && is_nsz_minmax(sym);
                    if close <= open || (flags.len() > 0 && !nsz_ok) {
                        None
                    } else {
                        match call_map(sym) {
                            None => None,
                            Some(op) => match vals_all(
                                spec_split_top(at.subrange(open + 1, close)),
                                m,
                            ) {
                                None => None,
                                Some(xs) => if xs.len() != op_arity(op) {
                                    None
                                } else {
                                    Some(apply_op(op, xs))
                                },
                            },
                        }
                    }
                }
            }
        },
    }
}

/// The binary arithmetic opcodes and their Σ ops.
pub open spec fn arith_op(h: Seq<char>) -> Option<Op> {
    if h == "fadd"@ {
        Some(Op::Add)
    } else if h == "fsub"@ {
        Some(Op::Sub)
    } else if h == "fmul"@ {
        Some(Op::Mul)
    } else if h == "fdiv"@ {
        Some(Op::Div)
    } else {
        None
    }
}

/// The ordered/unordered `fcmp` predicates Σ has (Rust's comparison
/// operators: `==` is `oeq`, `!=` is `une`).
pub open spec fn pred_op(p: Seq<char>) -> Option<Op> {
    if p == "olt"@ {
        Some(Op::Lt)
    } else if p == "ogt"@ {
        Some(Op::Gt)
    } else if p == "ole"@ {
        Some(Op::Le)
    } else if p == "oge"@ {
        Some(Op::Ge)
    } else if p == "oeq"@ {
        Some(Op::Eq)
    } else if p == "une"@ {
        Some(Op::Ne)
    } else {
        None
    }
}

/// The value of `select i1 %c, double %a, double %b`.
pub open spec fn select_val(rest: Seq<char>, m: Map<Seq<char>, Expr>) -> Option<Expr> {
    let parts = spec_split_top(rest);
    if parts.len() != 3 {
        None
    } else {
        let cond_t = trim(parts[0]);
        if !starts_with(cond_t, "i1"@) {
            None
        } else {
            let cond = trim(cond_t.skip("i1"@.len() as int));
            if !(cond.len() > 0 && cond[0] == '%') || !m.contains_key(cond.skip(1)) {
                None
            } else {
                match (one_val(parts[1], m), one_val(parts[2], m)) {
                    (Some(a), Some(c)) => Some(
                        Expr::Node3(
                            Op::Select,
                            Box::new(m[cond.skip(1)]),
                            Box::new(a),
                            Box::new(c),
                        ),
                    ),
                    _ => None,
                }
            }
        }
    }
}

/// The value an instruction's right-hand side computes from the values of
/// the SSA names in `m`; `None` where the instruction is refused or does not
/// parse.
pub open spec fn inst_val(inst: Seq<char>, m: Map<Seq<char>, Expr>) -> Option<Expr> {
    match first_word(inst) {
        None => None,
        Some(head) => {
            let rest = trim(after_first_word(inst));
            if refused_head(head) || is_fmf(head) {
                None
            } else if head == "fneg"@ {
                match one_val(rest, m) {
                    Some(a) => Some(Expr::Node1(Op::Neg, Box::new(a))),
                    None => None,
                }
            } else if arith_op(head) is Some {
                match two_vals(rest, m) {
                    Some((x, y)) => Some(
                        Expr::Node2(arith_op(head)->0, Box::new(x), Box::new(y)),
                    ),
                    None => None,
                }
            } else if head == "fcmp"@ {
                match first_word(rest) {
                    None => None,
                    Some(pred) => if is_fmf(pred) || pred_op(pred) is None {
                        None
                    } else {
                        match two_vals(trim(after_first_word(rest)), m) {
                            Some((x, y)) => Some(
                                Expr::Node2(pred_op(pred)->0, Box::new(x), Box::new(y)),
                            ),
                            None => None,
                        }
                    },
                }
            } else if head == "select"@ {
                select_val(rest, m)
            } else if head == "call"@ {
                call_val(rest, m)
            } else if head == "tail"@ || head == "notail"@ || head == "musttail"@ {
                if starts_with(rest, "call"@) {
                    call_val(trim(rest.skip("call"@.len() as int)), m)
                } else {
                    None
                }
            } else {
                None
            }
        },
    }
}

// ------------------------------------------------------ straight-line code --

/// Where a straight-line body has got to: the values of the SSA names so
/// far, the labels seen, and the returned value once `ret` is read.
pub type BlockState = (Map<Seq<char>, Expr>, nat, Option<Expr>);

/// One body line read into the state; `None` where the line is refused or
/// does not parse.
pub open spec fn line_step(st: BlockState, raw: Seq<char>) -> Option<BlockState> {
    let (m, labels, ret) = st;
    let l = clean(raw);
    if l.len() == 0 {
        Some(st)
    } else if is_label(l) {
        if labels + 1 > 1 {
            None
        } else {
            Some((m, labels + 1, ret))
        }
    } else if ret is Some {
        None
    } else if starts_with(l, "ret "@) {
        let rt = trim(l.skip("ret "@.len() as int));
        if !starts_with(rt, "double"@) {
            None
        } else {
            match operand_val(trim(rt.skip("double"@.len() as int)), m) {
                Some(v) => Some((m, labels, Some(v))),
                None => None,
            }
        }
    } else if !has_char(l, '=') {
        None
    } else {
        let i = choose|i: int| first_char_at(l, '=', i);
        let d = trim(l.take(i));
        if !(d.len() > 0 && d[0] == '%') {
            None
        } else {
            match inst_val(trim(l.skip(i + 1)), m) {
                Some(v) => Some((m.insert(d.skip(1), v), labels, ret)),
                None => None,
            }
        }
    }
}

/// The body lines read one after another.
pub open spec fn block_run(lines: Seq<Seq<char>>, st0: BlockState) -> Option<BlockState>
    decreases lines.len(),
{
    if lines.len() == 0 {
        Some(st0)
    } else {
        match block_run(lines.drop_last(), st0) {
            Some(st) => line_step(st, lines.last()),
            None => None,
        }
    }
}

/// The parameters bound to variables `0, 1, …` in order (a later name
/// shadowing an earlier one).
pub open spec fn param_vals(ps: Seq<Seq<char>>) -> Map<Seq<char>, Expr>
    decreases ps.len(),
{
    if ps.len() == 0 {
        Map::empty()
    } else {
        param_vals(ps.drop_last()).insert(ps.last(), Expr::Leaf(Op::Var, (ps.len() - 1) as u32))
    }
}

/// The value a straight-line body returns, over its parameters.
pub open spec fn block_val(params: Seq<Seq<char>>, lines: Seq<Seq<char>>) -> Option<Expr> {
    match block_run(lines, (param_vals(params), 0, None)) {
        Some((_, _, ret)) => ret,
        None => None,
    }
}

/// Binding one more name: lookups see it, and only it changes.
pub proof fn lemma_vals_insert(ev: Seq<(Seq<char>, u32)>, b: TermBuilder, k: Seq<char>, id: u32)
    ensures
        vals(ev.push((k, id)), b) == vals(ev, b).insert(k, den(b, id as int)),
{
    let e2 = ev.push((k, id));
    assert(e2.drop_last() =~= ev);
    assert forall|x: Seq<char>| #[trigger] lookup(e2, x) == (if x == k {
        Some(id)
    } else {
        lookup(ev, x)
    }) by {}
    assert(vals(e2, b) =~= vals(ev, b).insert(k, den(b, id as int)));
}

// ------------------------------------------------------------ parameters --

/// Index of the last token that starts with `%`.
pub open spec fn last_pct(toks: Seq<Seq<char>>) -> Option<int>
    decreases toks.len(),
{
    if toks.len() == 0 {
        None
    } else if starts_with(toks.last(), "%"@) {
        Some(toks.len() - 1)
    } else {
        last_pct(toks.drop_last())
    }
}

/// The name of a `double [attrs] %name` parameter.
pub open spec fn param_name(p: Seq<char>) -> Option<Seq<char>> {
    let toks = words(p);
    if toks.len() == 0 || toks[0] != "double"@ {
        None
    } else {
        match last_pct(toks) {
            None => None,
            Some(j) => if toks[j].len() == 0 {
                None
            } else {
                Some(toks[j].skip(1))
            },
        }
    }
}

/// The names of comma-separated parameters, all of them `double`.
pub open spec fn param_list(ps: Seq<Seq<char>>) -> Option<Seq<Seq<char>>>
    decreases ps.len(),
{
    if ps.len() == 0 {
        Some(Seq::empty())
    } else {
        match (param_list(ps.drop_last()), param_name(ps.last())) {
            (Some(ns), Some(n)) => Some(ns.push(n)),
            _ => None,
        }
    }
}

/// The parameter names of a `define` line: the list between its first `(`
/// and its last `)`, which must name at least one `double` parameter.
pub open spec fn param_names(sig: Seq<char>) -> Option<Seq<Seq<char>>> {
    if !has_char(sig, '(') || !has_char(sig, ')') {
        None
    } else {
        let open = choose|i: int| first_char_at(sig, '(', i);
        let close = choose|i: int| last_char_at(sig, ')', i);
        let inner = sig.subrange(open + 1, close);
        if close <= open || trim(inner).len() == 0 {
            None
        } else {
            match param_list(split_on(inner, ',')) {
                Some(ns) => if ns.len() == 0 {
                    None
                } else {
                    Some(ns)
                },
                None => None,
            }
        }
    }
}

// ----------------------------------------------------------------- define --

/// `sym` names the function `name`: exactly, or through the Itanium-mangled
/// segment `{len}{name}` rustc emits (`len` in bytes).
pub open spec fn names_fn(sym: Seq<char>, name: Seq<char>) -> bool {
    sym == name || (crate::text::utf8_len(name) <= usize::MAX && contains(
        sym,
        crate::fmt::decimal(crate::text::utf8_len(name)) + name,
    ))
}

/// Line `i` of `ls` is a `define` whose symbol names `name`.
pub open spec fn defines_at(ls: Seq<Seq<char>>, name: Seq<char>, i: int) -> bool {
    let lt = trim_start(ls[i]);
    &&& 0 <= i < ls.len()
    &&& starts_with(lt, "define"@)
    &&& spec_symbol_of(lt) matches Some(sym) && names_fn(sym, name)
}

/// The body lines from `j` up to (not including) the closing `}` line.
pub open spec fn body_from(ls: Seq<Seq<char>>, j: int) -> Seq<Seq<char>>
    decreases ls.len() - j,
{
    if j < 0 || j >= ls.len() || trim(ls[j]) == "}"@ {
        Seq::empty()
    } else {
        seq![ls[j]] + body_from(ls, j + 1)
    }
}

/// `(sig, body)` is a define of `name` in `ls`: its trimmed line and body.
pub open spec fn define_of(
    ls: Seq<Seq<char>>,
    name: Seq<char>,
    sig: Seq<char>,
    body: Seq<Seq<char>>,
) -> bool {
    exists|i: int|
        defines_at(ls, name, i) && sig == trim_start(ls[i]) && body == body_from(ls, i + 1)
}

/// How many basic blocks `split_blocks` finds in body lines `ls`, having
/// `started` (seen a non-blank line) before them: every label after the
/// first non-blank line closes a block, and the last block closes at the end.
pub open spec fn count_blocks(ls: Seq<Seq<char>>, started: bool) -> nat
    decreases ls.len(),
{
    if ls.len() == 0 {
        if started {
            1
        } else {
            0
        }
    } else {
        let l = clean(ls[0]);
        if l.len() == 0 {
            count_blocks(ls.drop_first(), started)
        } else if is_label(l) {
            (if started {
                1nat
            } else {
                0nat
            }) + count_blocks(ls.drop_first(), true)
        } else {
            count_blocks(ls.drop_first(), true)
        }
    }
}

/// The error is not a missing-function error (only `find_define` makes those).
pub open spec fn not_missing<T>(r: Result<T, LiftError>) -> bool {
    r matches Err(e) ==> !(e is FnNotFound)
}

/// SSA value or float literal → node id.
pub fn operand(s: &[char], env: &Env, b: &mut TermBuilder) -> (r: Result<u32, LiftError>)
    requires
        old(b).inv(),
        env.below(old(b).nodes@.len()),
    ensures
        not_missing(r),
        grows(*old(b), *final(b)),
        r matches Ok(id) ==> id < final(b).nodes@.len(),
        trim(s@).len() > 0 && trim(s@)[0] == '%' ==> (r is Ok <==> lookup(
            env.view(),
            trim(s@).skip(1),
        ) is Some),
        trim(s@).len() > 0 && trim(s@)[0] == '%' ==> (r matches Ok(id) ==> Some(id) == lookup(
            env.view(),
            trim(s@).skip(1),
        )),
        operand_val(s@, vals(env.view(), *old(b))) is None ==> r is Err,
        r matches Ok(id) ==> operand_val(s@, vals(env.view(), *old(b))) == Some(
            den(*final(b), id as int),
        ),
        r is Err && operand_val(s@, vals(env.view(), *old(b))) is Some ==> is_too_large(r->Err_0) && !old(b).has_room(1),
        r is Ok ==> within(*old(b), *final(b), 1),
{
    let t = trim_exec(s);
    assert(old(b).nodes@ =~= b.nodes@.take(b.nodes@.len() as int));
    assert(old(b).consts@ =~= b.consts@.take(b.consts@.len() as int));
    if let Some(name) = strip_prefix_char(&t, '%') {
        return match env.get(&name) {
            Some(id) => Ok(id),
            None => Err(parse_err("unbound SSA value %", &name, "")),
        };
    }
    let c = parse_fconst(&t)?;
    if !b.room(1) {
        return Err(too_large());
    }
    let ghost b0 = *b;
    let id = b.constant(c);
    proof {
        assert(lits_view(b.consts@) =~= lits_view(b0.consts@).push(lit_view(c)));
    }
    assert(old(b).nodes@ =~= b.nodes@.take(old(b).nodes@.len() as int));
    assert(old(b).consts@ =~= b.consts@.take(old(b).consts@.len() as int));
    Ok(id)
}

/// `s` with a leading literal `l` removed and the rest trimmed, or `s`
/// itself (`s.strip_prefix(l).map(str::trim).unwrap_or(s)`).
fn strip_or_keep(s: &[char], l: &str) -> (r: Vec<char>)
    ensures
        starts_with(s@, l@) ==> r@ == trim(s@.skip(l@.len() as int)),
        !starts_with(s@, l@) ==> r@ == s@,
{
    match strip_prefix(s, l) {
        Some(rest) => trim_exec(&rest),
        None => copy_range(s, 0, s.len()),
    }
}

/// `double %x` / `double 1.0e+00` / `noundef %x` / bare `%x`.
pub fn one_double_operand(s: &[char], env: &Env, b: &mut TermBuilder) -> (r: Result<
    u32,
    LiftError,
>)
    requires
        old(b).inv(),
        env.below(old(b).nodes@.len()),
    ensures
        not_missing(r),
        grows(*old(b), *final(b)),
        r matches Ok(id) ==> id < final(b).nodes@.len(),
        one_val(s@, vals(env.view(), *old(b))) is None ==> r is Err,
        r matches Ok(id) ==> one_val(s@, vals(env.view(), *old(b))) == Some(
            den(*final(b), id as int),
        ),
        r is Err && one_val(s@, vals(env.view(), *old(b))) is Some ==> is_too_large(r->Err_0) && !old(b).has_room(1),
        r is Ok ==> within(*old(b), *final(b), 1),
{
    let s1 = trim_exec(s);
    let s2 = strip_or_keep(&s1, "double");
    let s3 = strip_or_keep(&s2, "noundef");
    operand(&s3, env, b)
}

/// `double %a, %b` (LLVM prints the type once for homogeneous binops).
pub fn two_double_operands(s: &[char], env: &Env, b: &mut TermBuilder) -> (r: Result<
    (u32, u32),
    LiftError,
>)
    requires
        old(b).inv(),
        env.below(old(b).nodes@.len()),
    ensures
        not_missing(r),
        grows(*old(b), *final(b)),
        r matches Ok((x, y)) ==> x < final(b).nodes@.len() && y < final(b).nodes@.len(),
        first_word(trim(s@)) matches Some(w) && is_fmf(w) ==> (r matches Err(
            LiftError::Refused(m),
        ) && m@ == fmf_message(trim(s@))),
        two_vals(s@, vals(env.view(), *old(b))) is None ==> r is Err,
        r matches Ok((x, y)) ==> two_vals(s@, vals(env.view(), *old(b))) == Some(
            (den(*final(b), x as int), den(*final(b), y as int)),
        ),
        r is Err && two_vals(s@, vals(env.view(), *old(b))) is Some ==> is_too_large(r->Err_0) && !old(b).has_room(2),
        r is Ok ==> within(*old(b), *final(b), 2),
{
    let s1 = trim_exec(s);
    assert(old(b).nodes@ =~= b.nodes@.take(b.nodes@.len() as int));
    assert(old(b).consts@ =~= b.consts@.take(b.consts@.len() as int));
    if let Some((tok, _)) = split_first_word(&s1) {
        if fmf(&tok) {
            return Err(fmf_refusal(&s1));
        }
    }
    let s2 = match strip_prefix(&s1, "double") {
        Some(rest) => trim_exec(&rest),
        None => {
            return Err(refused_wrap(
                "operand type is not double: `",
                &s1,
                "` \u{2014} outside the pure-f64 P1 alphabet",
            ))
        },
    };
    let parts = split_top(&s2);
    if parts.len() != 2 {
        return Err(parse_err("expected 2 operands: `", &s2, "`"));
    }
    let ghost b0 = *b;
    let ghost m = vals(env.view(), b0);
    proof {
        reveal_strlit("double");
        assert(vecs_view(parts@) == spec_split_top(trim(s1@.skip("double"@.len() as int))));
        assert(parts@[0]@ == vecs_view(parts@)[0]);
        assert(parts@[1]@ == vecs_view(parts@)[1]);
    }
    let x = operand(&parts[0], env, b)?;
    let ghost b1 = *b;
    proof {
        lemma_vals_stable(*env, b0, b1);
    }
    let y = match operand(&parts[1], env, b) {
        Ok(y) => y,
        Err(e) => {
            proof {
                lemma_grows_trans(b0, b1, *b);
            }
            return Err(e);
        },
    };
    proof {
        lemma_grows_trans(b0, b1, *b);
        lemma_den_stable(b1, *b, x as int);
    }
    Ok((x, y))
}

/// The arithmetic opcodes are neither fast-math flags nor refused heads.
proof fn lemma_arith_heads(h: Seq<char>)
    requires
        arith_op(h) is Some,
    ensures
        !refused_head(h),
        !is_fmf(h),
        h != "fneg"@,
{
    reveal_strlit("fneg");
    assert("fneg"@[1] == 'n');
    reveal_strlit("fadd");
    reveal_strlit("fsub");
    reveal_strlit("fmul");
    reveal_strlit("fdiv");
    reveal_strlit("fast");
    reveal_strlit("nnan");
    reveal_strlit("ninf");
    reveal_strlit("nsz");
    reveal_strlit("arcp");
    reveal_strlit("contract");
    reveal_strlit("afn");
    reveal_strlit("reassoc");
    reveal_strlit("br");
    reveal_strlit("phi");
    reveal_strlit("switch");
    reveal_strlit("load");
    reveal_strlit("store");
    reveal_strlit("alloca");
    reveal_strlit("getelementptr");
    reveal_strlit("sitofp");
    reveal_strlit("uitofp");
    reveal_strlit("fptosi");
    reveal_strlit("fptoui");
    reveal_strlit("fpext");
    reveal_strlit("fptrunc");
    reveal_strlit("zext");
    reveal_strlit("sext");
    reveal_strlit("add");
    reveal_strlit("sub");
    reveal_strlit("mul");
    reveal_strlit("sdiv");
    reveal_strlit("udiv");
    reveal_strlit("and");
    reveal_strlit("or");
    reveal_strlit("xor");
    reveal_strlit("shl");
    reveal_strlit("lshr");
    reveal_strlit("ashr");
    reveal_strlit("frem");
    if h == "fadd"@ {
        assert(h.len() == 4);
        assert(h[1] != 'n');
        assert("fast"@[2] != h[2]);
        assert("nnan"@[0] != h[0]);
        assert("ninf"@[0] != h[0]);
        assert("nsz"@.len() != 4);
        assert("arcp"@[0] != h[0]);
        assert("contract"@.len() != 4);
        assert("afn"@.len() != 4);
        assert("reassoc"@.len() != 4);
        assert("br"@.len() != 4);
        assert("phi"@.len() != 4);
        assert("switch"@.len() != 4);
        assert("load"@[0] != h[0]);
        assert("store"@.len() != 4);
        assert("alloca"@.len() != 4);
        assert("getelementptr"@.len() != 4);
        assert("sitofp"@.len() != 4);
        assert("uitofp"@.len() != 4);
        assert("fptosi"@.len() != 4);
        assert("fptoui"@.len() != 4);
        assert("fpext"@.len() != 4);
        assert("fptrunc"@.len() != 4);
        assert("zext"@[0] != h[0]);
        assert("sext"@[0] != h[0]);
        assert("add"@.len() != 4);
        assert("sub"@.len() != 4);
        assert("mul"@.len() != 4);
        assert("sdiv"@[0] != h[0]);
        assert("udiv"@[0] != h[0]);
        assert("and"@.len() != 4);
        assert("or"@.len() != 4);
        assert("xor"@.len() != 4);
        assert("shl"@.len() != 4);
        assert("lshr"@[0] != h[0]);
        assert("ashr"@[0] != h[0]);
        assert("frem"@[1] != h[1]);
    }
    if h == "fsub"@ {
        assert(h.len() == 4);
        assert(h[1] != 'n');
        assert("fast"@[1] != h[1]);
        assert("nnan"@[0] != h[0]);
        assert("ninf"@[0] != h[0]);
        assert("nsz"@.len() != 4);
        assert("arcp"@[0] != h[0]);
        assert("contract"@.len() != 4);
        assert("afn"@.len() != 4);
        assert("reassoc"@.len() != 4);
        assert("br"@.len() != 4);
        assert("phi"@.len() != 4);
        assert("switch"@.len() != 4);
        assert("load"@[0] != h[0]);
        assert("store"@.len() != 4);
        assert("alloca"@.len() != 4);
        assert("getelementptr"@.len() != 4);
        assert("sitofp"@.len() != 4);
        assert("uitofp"@.len() != 4);
        assert("fptosi"@.len() != 4);
        assert("fptoui"@.len() != 4);
        assert("fpext"@.len() != 4);
        assert("fptrunc"@.len() != 4);
        assert("zext"@[0] != h[0]);
        assert("sext"@[0] != h[0]);
        assert("add"@.len() != 4);
        assert("sub"@.len() != 4);
        assert("mul"@.len() != 4);
        assert("sdiv"@[0] != h[0]);
        assert("udiv"@[0] != h[0]);
        assert("and"@.len() != 4);
        assert("or"@.len() != 4);
        assert("xor"@.len() != 4);
        assert("shl"@.len() != 4);
        assert("lshr"@[0] != h[0]);
        assert("ashr"@[0] != h[0]);
        assert("frem"@[1] != h[1]);
    }
    if h == "fmul"@ {
        assert(h.len() == 4);
        assert(h[1] != 'n');
        assert("fast"@[1] != h[1]);
        assert("nnan"@[0] != h[0]);
        assert("ninf"@[0] != h[0]);
        assert("nsz"@.len() != 4);
        assert("arcp"@[0] != h[0]);
        assert("contract"@.len() != 4);
        assert("afn"@.len() != 4);
        assert("reassoc"@.len() != 4);
        assert("br"@.len() != 4);
        assert("phi"@.len() != 4);
        assert("switch"@.len() != 4);
        assert("load"@[0] != h[0]);
        assert("store"@.len() != 4);
        assert("alloca"@.len() != 4);
        assert("getelementptr"@.len() != 4);
        assert("sitofp"@.len() != 4);
        assert("uitofp"@.len() != 4);
        assert("fptosi"@.len() != 4);
        assert("fptoui"@.len() != 4);
        assert("fpext"@.len() != 4);
        assert("fptrunc"@.len() != 4);
        assert("zext"@[0] != h[0]);
        assert("sext"@[0] != h[0]);
        assert("add"@.len() != 4);
        assert("sub"@.len() != 4);
        assert("mul"@.len() != 4);
        assert("sdiv"@[0] != h[0]);
        assert("udiv"@[0] != h[0]);
        assert("and"@.len() != 4);
        assert("or"@.len() != 4);
        assert("xor"@.len() != 4);
        assert("shl"@.len() != 4);
        assert("lshr"@[0] != h[0]);
        assert("ashr"@[0] != h[0]);
        assert("frem"@[1] != h[1]);
    }
    if h == "fdiv"@ {
        assert(h.len() == 4);
        assert(h[1] != 'n');
        assert("fast"@[1] != h[1]);
        assert("nnan"@[0] != h[0]);
        assert("ninf"@[0] != h[0]);
        assert("nsz"@.len() != 4);
        assert("arcp"@[0] != h[0]);
        assert("contract"@.len() != 4);
        assert("afn"@.len() != 4);
        assert("reassoc"@.len() != 4);
        assert("br"@.len() != 4);
        assert("phi"@.len() != 4);
        assert("switch"@.len() != 4);
        assert("load"@[0] != h[0]);
        assert("store"@.len() != 4);
        assert("alloca"@.len() != 4);
        assert("getelementptr"@.len() != 4);
        assert("sitofp"@.len() != 4);
        assert("uitofp"@.len() != 4);
        assert("fptosi"@.len() != 4);
        assert("fptoui"@.len() != 4);
        assert("fpext"@.len() != 4);
        assert("fptrunc"@.len() != 4);
        assert("zext"@[0] != h[0]);
        assert("sext"@[0] != h[0]);
        assert("add"@.len() != 4);
        assert("sub"@.len() != 4);
        assert("mul"@.len() != 4);
        assert("sdiv"@[0] != h[0]);
        assert("udiv"@[0] != h[0]);
        assert("and"@.len() != 4);
        assert("or"@.len() != 4);
        assert("xor"@.len() != 4);
        assert("shl"@.len() != 4);
        assert("lshr"@[0] != h[0]);
        assert("ashr"@[0] != h[0]);
        assert("frem"@[1] != h[1]);
    }
}

/// The comparison opcode is none of the other heads the lifter tells apart.
proof fn lemma_compare_head()
    ensures
        !refused_head("fcmp"@),
        !is_fmf("fcmp"@),
        "fcmp"@ != "fneg"@,
        arith_op("fcmp"@) is None,
{
    reveal_strlit("fcmp");
    assert("fcmp"@.len() == 4 && "fcmp"@[1] == 'c');
    reveal_strlit("fneg");
    assert("fneg"@[1] != 'c');
    reveal_strlit("fadd");
    assert("fadd"@[1] != 'c');
    reveal_strlit("fsub");
    assert("fsub"@[1] != 'c');
    reveal_strlit("fmul");
    assert("fmul"@[1] != 'c');
    reveal_strlit("fdiv");
    assert("fdiv"@[1] != 'c');
    reveal_strlit("fast");
    assert("fast"@[1] != 'c');
    reveal_strlit("nnan");
    assert("nnan"@[1] != 'c');
    reveal_strlit("ninf");
    assert("ninf"@[1] != 'c');
    reveal_strlit("nsz");
    assert("nsz"@.len() != 4);
    reveal_strlit("arcp");
    assert("arcp"@[1] != 'c');
    reveal_strlit("contract");
    assert("contract"@.len() != 4);
    reveal_strlit("afn");
    assert("afn"@.len() != 4);
    reveal_strlit("reassoc");
    assert("reassoc"@.len() != 4);
    reveal_strlit("br");
    assert("br"@.len() != 4);
    reveal_strlit("phi");
    assert("phi"@.len() != 4);
    reveal_strlit("switch");
    assert("switch"@.len() != 4);
    reveal_strlit("load");
    assert("load"@[1] != 'c');
    reveal_strlit("store");
    assert("store"@.len() != 4);
    reveal_strlit("alloca");
    assert("alloca"@.len() != 4);
    reveal_strlit("getelementptr");
    assert("getelementptr"@.len() != 4);
    reveal_strlit("sitofp");
    assert("sitofp"@.len() != 4);
    reveal_strlit("uitofp");
    assert("uitofp"@.len() != 4);
    reveal_strlit("fptosi");
    assert("fptosi"@.len() != 4);
    reveal_strlit("fptoui");
    assert("fptoui"@.len() != 4);
    reveal_strlit("fpext");
    assert("fpext"@.len() != 4);
    reveal_strlit("fptrunc");
    assert("fptrunc"@.len() != 4);
    reveal_strlit("zext");
    assert("zext"@[1] != 'c');
    reveal_strlit("sext");
    assert("sext"@[1] != 'c');
    reveal_strlit("add");
    assert("add"@.len() != 4);
    reveal_strlit("sub");
    assert("sub"@.len() != 4);
    reveal_strlit("mul");
    assert("mul"@.len() != 4);
    reveal_strlit("sdiv");
    assert("sdiv"@[1] != 'c');
    reveal_strlit("udiv");
    assert("udiv"@[1] != 'c');
    reveal_strlit("and");
    assert("and"@.len() != 4);
    reveal_strlit("or");
    assert("or"@.len() != 4);
    reveal_strlit("xor");
    assert("xor"@.len() != 4);
    reveal_strlit("shl");
    assert("shl"@.len() != 4);
    reveal_strlit("lshr");
    assert("lshr"@[1] != 'c');
    reveal_strlit("ashr");
    assert("ashr"@[1] != 'c');
    reveal_strlit("frem");
    assert("frem"@[1] != 'c');
}

// ---------------------------------------------------------- instructions --

/// One instruction's right-hand side → node id.
#[verifier::rlimit(80)]
pub fn instruction(inst: &[char], env: &Env, b: &mut TermBuilder) -> (r: Result<u32, LiftError>)
    requires
        old(b).inv(),
        env.below(old(b).nodes@.len()),
    ensures
        not_missing(r),
        grows(*old(b), *final(b)),
        r matches Ok(id) ==> id < final(b).nodes@.len(),
        first_word(inst@) is None ==> r is Err,
        first_word(inst@) matches Some(h) && refused_head(h) ==> r matches Err(
            LiftError::Refused(_),
        ),
        first_word(inst@) matches Some(h) && is_fmf(h) ==> r matches Err(LiftError::Refused(_)),
        inst_val(inst@, vals(env.view(), *old(b))) is None ==> r is Err,
        r matches Ok(id) ==> inst_val(inst@, vals(env.view(), *old(b))) == Some(
            den(*final(b), id as int),
        ),
        r is Err && inst_val(inst@, vals(env.view(), *old(b))) is Some ==> is_too_large(r->Err_0) && !old(b).has_room(4),
        r is Ok ==> within(*old(b), *final(b), 4),
        first_word(inst@) matches Some(h) && is_fmf(h) ==> (r matches Err(LiftError::Refused(m))
            && m@ == fmf_message(inst@)),
        first_word(inst@) == Some("fcmp"@) ==> (first_word(trim(after_first_word(inst@))) matches Some(
            p,
        ) ==> (pred_op(p) is None && !is_fmf(p) ==> (r matches Err(LiftError::Refused(m)) && m@
            == "fcmp "@ + p
            + ": \u{3a3} has olt/ogt/ole/oge/oeq/une (the Rust comparison operators); other predicates have no \u{3a3} symbol"@))),
        first_word(inst@) == Some("fcmp"@) ==> (first_word(trim(after_first_word(inst@))) matches Some(
            p,
        ) ==> (is_fmf(p) ==> (r matches Err(LiftError::Refused(m)) && m@ == fmf_message(inst@)))),
        first_word(inst@) matches Some(h) && arith_op(h) is Some ==> (first_word(
            trim(trim(after_first_word(inst@))),
        ) matches Some(w) && is_fmf(w) ==> (r matches Err(LiftError::Refused(m)) && exists|x: Seq<
            char,
        >| m@ == #[trigger] fmf_message(x))),
{
    assert(old(b).nodes@ =~= b.nodes@.take(b.nodes@.len() as int));
    assert(old(b).consts@ =~= b.consts@.take(b.consts@.len() as int));
    let ghost m = vals(env.view(), *b);
    proof {
        lemma_compare_head();
    }
    let (head, after) = match split_first_word(inst) {
        Some(p) => p,
        None => return Err(parse_lit("empty instruction")),
    };
    let rest = trim_exec(&after);
    // heads that are recognized IR outside the subset, and fast-math flags
    // standing where an opcode should be, are refused before any operand
    // is read (none of them is an opcode the subset admits)
    proof {
        if arith_op(head@) is Some {
            lemma_arith_heads(head@);
        }
    }
    if fmf(&head) {
        return Err(fmf_refusal(inst));
    }
    if refused_head_exec(&head) {
        return Err(refuse_inst(inst));
    }
    if lit_is(&head, "fadd") || lit_is(&head, "fsub") || lit_is(&head, "fmul") || lit_is(&head, "fdiv") {
        let op = if lit_is(&head, "fadd") {
            Op::Add
        } else if lit_is(&head, "fsub") {
            Op::Sub
        } else if lit_is(&head, "fmul") {
            Op::Mul
        } else {
            Op::Div
        };
        assert(arith_op(head@) == Some(op));
        proof {
            lemma_arith_heads(head@);
        }
        let (a, c) = match two_double_operands(&rest, env, b) {
            Ok(p) => p,
            Err(e) => {
                proof {
                    if first_word(trim(rest@)) matches Some(w) && is_fmf(w) {
                        assert(e matches LiftError::Refused(m) && m@ == fmf_message(trim(rest@)));
                    }
                }
                return Err(e);
            },
        };
        if !b.room(1) {
            return Err(too_large());
        }
        let ghost b1 = *b;
        let id = b.binary(op, a, c);
        proof {
            assert(b.nodes@.drop_last() =~= b1.nodes@);
            lemma_node_appended(*old(b), b1, *b);
            lemma_den_stable(b1, *b, a as int);
            lemma_den_stable(b1, *b, c as int);
        }
        return Ok(id);
    }
    assert(arith_op(head@) is None);
    if lit_is(&head, "fneg") {
        let a = one_double_operand(&rest, env, b)?;
        if !b.room(1) {
            return Err(too_large());
        }
        let ghost b1 = *b;
        let id = b.unary(Op::Neg, a);
        proof {
            assert(b.nodes@.drop_last() =~= b1.nodes@);
            lemma_node_appended(*old(b), b1, *b);
            lemma_den_stable(b1, *b, a as int);
        }
        return Ok(id);
    }
    if lit_is(&head, "fcmp") {
        // flags precede the predicate: `fcmp nsz olt double …`
        let (pred, after_pred) = match split_first_word(&rest) {
            Some(p) => p,
            None => return Err(parse_lit("fcmp: no predicate")),
        };
        if fmf(&pred) {
            return Err(fmf_refusal(inst));
        }
        let op = if lit_is(&pred, "olt") {
            Op::Lt
        } else if lit_is(&pred, "ogt") {
            Op::Gt
        } else if lit_is(&pred, "ole") {
            Op::Le
        } else if lit_is(&pred, "oge") {
            Op::Ge
        } else if lit_is(&pred, "oeq") {
            // Rust `==` is oeq (NaN ⇒ false), Rust `!=` is une (NaN ⇒ true)
            Op::Eq
        } else if lit_is(&pred, "une") {
            Op::Ne
        } else {
            return Err(refused_wrap(
                "fcmp ",
                &pred,
                ": \u{3a3} has olt/ogt/ole/oge/oeq/une (the Rust comparison operators); other predicates have no \u{3a3} symbol",
            ));
        };
        assert(pred_op(pred@) == Some(op));
        let operands = trim_exec(&after_pred);
        let (a, c) = two_double_operands(&operands, env, b)?;
        if !b.room(1) {
            return Err(too_large());
        }
        let ghost b1 = *b;
        let id = b.binary(op, a, c);
        proof {
            assert(b.nodes@.drop_last() =~= b1.nodes@);
            lemma_node_appended(*old(b), b1, *b);
            lemma_den_stable(b1, *b, a as int);
            lemma_den_stable(b1, *b, c as int);
        }
        return Ok(id);
    }
    if lit_is(&head, "select") {
        // select i1 %c, double %a, double %b   (scalar only)
        let parts = split_top(&rest);
        if parts.len() != 3 {
            return Err(parse_err("select: expected 3 operands: `", inst, "`"));
        }
        proof {
            assert(parts@[0]@ == vecs_view(parts@)[0]);
            assert(parts@[1]@ == vecs_view(parts@)[1]);
            assert(parts@[2]@ == vecs_view(parts@)[2]);
        }
        let cond_t = trim_exec(&parts[0]);
        let cond = match strip_prefix(&cond_t, "i1") {
            Some(c) => trim_exec(&c),
            None => {
                return Err(refused_lit(
                    "select on a non-i1 condition (vector select?) \u{2014} refused in P1",
                ))
            },
        };
        let cname = match strip_prefix_char(&cond, '%') {
            Some(n) => n,
            None => return Err(parse_lit("select: condition must be an SSA value")),
        };
        let cond_id = match env.get(&cname) {
            Some(id) => id,
            None => return Err(parse_err("select: unbound ", &cond, "")),
        };
        let a = one_double_operand(&parts[1], env, b)?;
        let ghost b1 = *b;
        proof {
            lemma_vals_stable(*env, *old(b), b1);
        }
        let c = match one_double_operand(&parts[2], env, b) {
            Ok(c) => c,
            Err(e) => {
                proof {
                    lemma_grows_trans(*old(b), b1, *b);
                }
                return Err(e);
            },
        };
        let ghost b2 = *b;
        proof {
            lemma_grows_trans(*old(b), b1, *b);
        }
        if !b.room(1) {
            return Err(too_large());
        }
        let id = b.ternary(Op::Select, cond_id, a, c);
        proof {
            assert(b.nodes@.drop_last() =~= b2.nodes@);
            lemma_node_appended(*old(b), b2, *b);
            lemma_den_stable(b2, *b, c as int);
            lemma_den_stable(b1, b2, a as int);
            lemma_den_stable(b2, *b, a as int);
            lemma_den_stable(*old(b), *b, cond_id as int);
        }
        return Ok(id);
    }
    if lit_is(&head, "tail") || lit_is(&head, "notail") || lit_is(&head, "musttail") || lit_is(&head, "call") {
        let call_rest = if lit_is(&head, "call") {
            rest
        } else {
            match strip_prefix(&rest, "call") {
                Some(r) => trim_exec(&r),
                None => return Err(refuse_inst(inst)),
            }
        };
        return lift_call(&call_rest, env, b);
    }
    Err(refuse_inst(inst))
}

/// The values of a list, where they all exist, are one per piece.
proof fn lemma_vals_all_len(ps: Seq<Seq<char>>, m: Map<Seq<char>, Expr>)
    ensures
        vals_all(ps, m) matches Some(xs) ==> xs.len() == ps.len(),
    decreases ps.len(),
{
    if ps.len() > 0 {
        lemma_vals_all_len(ps.drop_last(), m);
    }
}

/// Every piece of a list whose values all exist has a value.
proof fn lemma_vals_all_each(ps: Seq<Seq<char>>, m: Map<Seq<char>, Expr>, k: int)
    requires
        vals_all(ps, m) is Some,
        0 <= k < ps.len(),
    ensures
        one_val(ps[k], m) is Some,
    decreases ps.len(),
{
    if k < ps.len() - 1 {
        assert(ps.drop_last()[k] == ps[k]);
        lemma_vals_all_each(ps.drop_last(), m, k);
    }
}

/// The call's callee symbol and argument text:
/// `double @sym(args) [#N]` after `call` and its attributes.
pub fn lift_call(rest: &[char], env: &Env, b: &mut TermBuilder) -> (r: Result<u32, LiftError>)
    requires
        old(b).inv(),
        env.below(old(b).nodes@.len()),
    ensures
        not_missing(r),
        grows(*old(b), *final(b)),
        r matches Ok(id) ==> id < final(b).nodes@.len(),
        call_val(rest@, vals(env.view(), *old(b))) is None ==> r is Err,
        r matches Ok(id) ==> call_val(rest@, vals(env.view(), *old(b))) == Some(
            den(*final(b), id as int),
        ),
        r is Err && call_val(rest@, vals(env.view(), *old(b))) is Some ==> is_too_large(r->Err_0) && !old(b).has_room(4),
        r is Ok ==> within(*old(b), *final(b), 4),
{
    proof {
        lemma_grows_refl(*b);
    }
    let ghost m = vals(env.view(), *b);
    let ghost r0 = trim_start(rest@);
    // collect fmf before the return type; other tokens there are benign
    // attrs (noundef, nofpclass(nan), …)
    let mut flags: Vec<Vec<char>> = Vec::new();
    let mut r = trim_start_exec(rest);
    assert(vecs_view(flags@) =~= Seq::<Seq<char>>::empty());
    assert(vecs_view(flags@) + Seq::<Seq<char>>::empty() =~= Seq::<Seq<char>>::empty());
    loop
        invariant
            *b == *old(b),
            grows(*old(b), *b),
            r0 == trim_start(rest@),
            call_scan(r0) == with_flags(vecs_view(flags@), call_scan(r@)),
        ensures
            *b == *old(b),
            grows(*old(b), *b),
            r0 == trim_start(rest@),
            call_scan(r0) == Some((vecs_view(flags@), r@)),
        decreases r@.len(),
    {
        let (tok, after) = match split_first_word(&r) {
            Some(p) => p,
            None => {
                assert(vecs_view(flags@) + Seq::<Seq<char>>::empty() =~= vecs_view(flags@));
                break;
            },
        };
        if lit_is(&tok, "double") {
            assert(vecs_view(flags@) + Seq::<Seq<char>>::empty() =~= vecs_view(flags@));
            break;
        }
        let ghost fl0 = vecs_view(flags@);
        if fmf(&tok) {
            flags.push(tok);
        }
        proof {
            crate::text::lemma_trim_start_len(r@);
            crate::text::lemma_word_len_bound(crate::text::trim_start(r@));
        }
        let next = trim_start_exec(&after);
        proof {
            crate::text::lemma_trim_start_len(after@);
            lemma_first_word_shrinks(r@);
        }
        if next.len() == 0 {
            return Err(parse_err("call: `", rest, "`"));
        }
        proof {
            match call_scan(next@) {
                None => {},
                Some((fl, rr)) => {
                    if is_fmf(tok@) {
                        assert(vecs_view(flags@) =~= fl0.push(tok@));
                        assert(fl0 + (seq![tok@] + fl) =~= vecs_view(flags@) + fl);
                    } else {
                        assert(vecs_view(flags@) =~= fl0);
                    }
                },
            }
        }
        r = next;
    }
    let r2 = match strip_prefix(&r, "double") {
        Some(x) => trim_start_exec(&x),
        None => return Err(refused_lit("call returning non-double \u{2014} outside P1")),
    };
    let at = match strip_prefix_char(&r2, '@') {
        Some(x) => x,
        None => return Err(refused_lit("indirect call \u{2014} outside the closed libm map")),
    };
    let open = match find_char(&at, '(') {
        Some(i) => i,
        None => return Err(parse_err("call: `", rest, "`")),
    };
    let sym_raw = copy_range(&at, 0, open);
    let sym = trim_quotes_exec(&sym_raw);
    let close = match rfind_char(&at, ')') {
        Some(i) => i,
        None => return Err(parse_err("call: `", rest, "`")),
    };
    proof {
        crate::lex::lemma_first_char_unique(at@, '(', open as int, choose|i: int|
            first_char_at(at@, '(', i));
        crate::lex::lemma_last_char_unique(at@, ')', close as int, choose|i: int|
            last_char_at(at@, ')', i));
        assert(sym_raw@ =~= at@.take(open as int));
    }
    if close <= open {
        return Err(parse_err("call: `", rest, "`"));
    }
    let args_s = copy_range(&at, open + 1, close);
    // fmf carve-out, exactly one: rustc stamps `nsz` on its f64::min/max
    // lowering (Rust leaves the sign of a zero result unspecified, and Σ
    // Min/Max is defined as Rust min/max). Every other flag refuses.
    let nsz_minmax_only = flags.len() == 1 && lit_is(&flags[0], "nsz") && (lit_is(
        &sym,
        "llvm.minimumnum.f64",
    ) || lit_is(&sym, "llvm.maximumnum.f64") || lit_is(&sym, "llvm.minnum.f64") || lit_is(
        &sym,
        "llvm.maxnum.f64",
    ));
    proof {
        if flags@.len() == 1 {
            assert(vecs_view(flags@)[0] == flags@[0]@);
        }
    }
    if flags.len() > 0 && !nsz_minmax_only {
        return Err(fmf_refusal(rest));
    }
    let op = match call_op(&sym) {
        Some(op) => op,
        None => {
            return Err(refused_wrap(
                "call @",
                &sym,
                " \u{2014} outside the closed libm map (29 symbols); anything else is P3 territory or a new \u{3a3} op proposal",
            ))
        },
    };
    proof {
        lemma_call_map_arity(sym@);
        lemma_grows_refl(*b);
    }
    let pieces = split_top(&args_s);
    let ghost pv = vecs_view(pieces@);
    let mut args: Vec<u32> = Vec::new();
    let mut k: usize = 0;
    assert(pv.take(0) =~= Seq::<Seq<char>>::empty());
    assert(call_val(rest@, m) is Some ==> vals_all(pv, m) is Some);
    proof {
        lemma_vals_all_len(pv, m);
    }
    assert(call_val(rest@, m) is Some ==> pv.len() <= 3);
    while k < pieces.len()
        invariant
            call_val(rest@, m) is Some ==> vals_all(pv, m) is Some,
            call_val(rest@, m) is Some ==> pv.len() <= 3,
            within(*old(b), *b, k as nat),
            old(b).inv(),
            grows(*old(b), *b),
            env.below(old(b).nodes@.len()),
            forall|j: int| 0 <= j < args@.len() ==> args@[j] < b.nodes@.len(),
            args@.len() == k,
            k <= pieces@.len(),
            pv == vecs_view(pieces@),
            m == vals(env.view(), *old(b)),
            vals_all(pv.take(k as int), m) is Some,
            vals_all(pv.take(k as int), m)->0.len() == k,
            forall|j: int|
                0 <= j < k ==> #[trigger] den(*b, args@[j] as int) == vals_all(
                    pv.take(k as int),
                    m,
                )->0[j],
        decreases pieces@.len() - k,
    {
        let ghost before = *b;
        proof {
            lemma_vals_stable(*env, *old(b), before);
            assert(pieces@[k as int]@ == pv[k as int]);
            assert(pv.take(k + 1).drop_last() =~= pv.take(k as int));
        }
        let a = match one_double_operand(&pieces[k], env, b) {
            Ok(a) => a,
            Err(e) => {
                proof {
                    lemma_grows_trans(*old(b), before, *b);
                    if call_val(rest@, m) is Some {
                        lemma_vals_all_each(pv, m, k as int);
                    }
                }
                return Err(e);
            },
        };
        proof {
            lemma_grows_trans(*old(b), before, *b);
            assert forall|j: int| 0 <= j < k implies #[trigger] den(*b, args@[j] as int) == den(
                before,
                args@[j] as int,
            ) by {
                lemma_den_stable(before, *b, args@[j] as int);
            }
        }
        args.push(a);
        k += 1;
    }
    assert(pv.take(k as int) =~= pv);
    if args.len() != op.arity() {
        return Err(parse_err("@", &sym, ": argument count differs from the \u{3a3} op's arity"));
    }
    if !b.room(1) {
        return Err(too_large());
    }
    let ghost b1 = *b;
    let ghost xs = vals_all(pv, m)->0;
    let id = match op.arity() {
        1 => b.unary(op, args[0]),
        2 => b.binary(op, args[0], args[1]),
        _ => b.ternary(op, args[0], args[1], args[2]),
    };
    assert(b1.nodes@ =~= b.nodes@.take(b1.nodes@.len() as int));
    assert(b1.consts@ =~= b.consts@.take(b1.consts@.len() as int));
    proof {
        lemma_grows_trans(*old(b), b1, *b);
        assert forall|j: int| 0 <= j < args@.len() implies #[trigger] den(*b, args@[j] as int)
            == xs[j] by {
            lemma_den_stable(b1, *b, args@[j] as int);
        }
        assert(lits_view(b.consts@) == lits_view(b1.consts@));
        let n = b.nodes@[id as int];
        assert(n.op == op);
        assert(n.a == args@[0]);
        if op_arity(op) >= 2 {
            assert(n.b == args@[1]);
        }
        if op_arity(op) >= 3 {
            assert(n.c == args@[2]);
        }
        assert(xs.len() == args@.len());
        assert(id as int == b1.nodes@.len());
        assert(forall|j: int| 0 <= j < args@.len() ==> args@[j] < id);
        if op_arity(op) == 1 {
            assert(den(*b, id as int) == Expr::Node1(op, Box::new(den(*b, args@[0] as int))));
        } else if op_arity(op) == 2 {
            assert(den(*b, id as int) == Expr::Node2(
                op,
                Box::new(den(*b, args@[0] as int)),
                Box::new(den(*b, args@[1] as int)),
            ));
            assert(den(*b, args@[1] as int) == xs[1]);
        } else {
            assert(den(*b, id as int) == Expr::Node3(
                op,
                Box::new(den(*b, args@[0] as int)),
                Box::new(den(*b, args@[1] as int)),
                Box::new(den(*b, args@[2] as int)),
            ));
            assert(den(*b, args@[1] as int) == xs[1]);
            assert(den(*b, args@[2] as int) == xs[2]);
        }
        assert(den(*b, args@[0] as int) == xs[0]);
        assert(den(*b, id as int) == apply_op(op, xs));
    }
    Ok(id)
}

/// `call_scan` with flags found earlier put in front.
pub open spec fn with_flags(
    fl0: Seq<Seq<char>>,
    o: Option<(Seq<Seq<char>>, Seq<char>)>,
) -> Option<(Seq<Seq<char>>, Seq<char>)> {
    match o {
        None => None,
        Some((fl, rr)) => Some((fl0 + fl, rr)),
    }
}

/// Past its first word, what remains of a text is strictly shorter.
proof fn lemma_first_word_shrinks(s: Seq<char>)
    requires
        first_word(s) is Some,
    ensures
        trim_start(after_first_word(s)).len() < s.len(),
{
    let t = trim_start(s);
    crate::text::lemma_trim_start_len(s);
    crate::text::lemma_word_len_bound(t);
    crate::text::lemma_trim_start_len(after_first_word(s));
    lemma_trim_start_head(s);
    assert(crate::text::word_len(t) >= 1);
}

/// A trimmed text that is not empty starts with a non-blank.
proof fn lemma_trim_start_head(s: Seq<char>)
    ensures
        trim_start(s).len() > 0 ==> !crate::text::is_ws(trim_start(s)[0]),
    decreases s.len(),
{
    if s.len() > 0 && crate::text::is_ws(s[0]) {
        lemma_trim_start_head(s.drop_first());
    }
}

// ------------------------------------------------------------------ body --

/// One basic block of a function body, comments stripped.
pub struct RawBlock {
    pub label: Vec<char>,
    pub lines: Vec<Vec<char>>,
}

/// A line that is a block label: ends in `:` and holds no whitespace.
pub open spec fn is_label(l: Seq<char>) -> bool {
    l.len() > 0 && l.last() == ':' && !crate::text::has_ws(l)
}

/// The meaningful text of a raw body line.
pub open spec fn clean(l: Seq<char>) -> Seq<char> {
    trim(crate::lex::spec_strip_comment(l))
}

pub fn clean_line(l: &[char]) -> (r: Vec<char>)
    ensures
        r@ == clean(l@),
{
    let s = strip_comment(l);
    trim_exec(&s)
}

pub fn label_line(l: &[char]) -> (r: bool)
    ensures
        r == is_label(l@),
{
    l.len() > 0 && l[l.len() - 1] == ':' && !has_ws_exec(l)
}

/// Split the body into basic blocks; a body with no meaningful line is a
/// parse error.
pub fn split_blocks(body: &Vec<Vec<char>>) -> (r: Result<Vec<RawBlock>, LiftError>)
    ensures
        not_missing(r),
        r matches Ok(v) ==> v@.len() >= 1,
        r matches Ok(v) ==> v@.len() == count_blocks(vecs_view(body@), false),
        r is Err <==> forall|i: int| 0 <= i < body@.len() ==> clean(#[trigger] body@[i]@).len()
            == 0,
{
    let mut out: Vec<RawBlock> = Vec::new();
    let mut cur = RawBlock { label: Vec::new(), lines: Vec::new() };
    let mut started = false;
    let mut k: usize = 0;
    let ghost bv = vecs_view(body@);
    assert(bv.skip(0) =~= bv);
    while k < body.len()
        invariant
            k <= body@.len(),
            started == exists|i: int| 0 <= i < k && clean(#[trigger] body@[i]@).len() > 0,
            !started ==> out@.len() == 0,
            bv == vecs_view(body@),
            out@.len() + count_blocks(bv.skip(k as int), started) == count_blocks(bv, false),
        decreases body@.len() - k,
    {
        proof {
            assert(bv.skip(k as int).drop_first() =~= bv.skip(k + 1));
            assert(bv.skip(k as int)[0] == body@[k as int]@);
        }
        let line = clean_line(&body[k]);
        if line.len() == 0 {
            k += 1;
            continue;
        }
        if label_line(&line) {
            if started {
                out.push(cur);
            }
            let lab = copy_range(&line, 0, line.len() - 1);
            cur = RawBlock { label: lab, lines: Vec::new() };
            started = true;
            k += 1;
            continue;
        }
        started = true;
        cur.lines.push(line);
        k += 1;
    }
    if started {
        out.push(cur);
    }
    if out.len() == 0 {
        return Err(parse_lit("empty function body"));
    }
    Ok(out)
}

// ----------------------------------------------------------------- define --

/// Parse the `(double %a, double noundef %b, …)` list → parameter names.
/// A parameter that cannot be named makes the whole list fail.
proof fn lemma_param_list_stop(ps: Seq<Seq<char>>, k: int)
    requires
        0 <= k < ps.len(),
        param_name(ps[k]) is None,
    ensures
        param_list(ps) is None,
    decreases ps.len(),
{
    if k < ps.len() - 1 {
        assert(ps.drop_last()[k] == ps[k]);
        lemma_param_list_stop(ps.drop_last(), k);
    }
}

pub fn parse_params(sig: &[char]) -> (r: Result<Vec<Vec<char>>, LiftError>)
    ensures
        not_missing(r),
        r matches Ok(v) ==> v@.len() >= 1,
        !has_char(sig@, '(') ==> r is Err,
        !has_char(sig@, ')') ==> r is Err,
        param_names(sig@) is None ==> r is Err,
        r matches Ok(v) ==> param_names(sig@) == Some(vecs_view(v@)),
        param_names(sig@) is Some ==> r is Ok,
{
    let open = match find_char(sig, '(') {
        Some(i) => i,
        None => return Err(parse_lit("no `(`")),
    };
    let close = match rfind_char(sig, ')') {
        Some(i) => i,
        None => return Err(parse_lit("no `)`")),
    };
    proof {
        crate::lex::lemma_first_char_unique(sig@, '(', open as int, choose|i: int|
            first_char_at(sig@, '(', i));
        crate::lex::lemma_last_char_unique(sig@, ')', close as int, choose|i: int|
            last_char_at(sig@, ')', i));
    }
    if close <= open {
        return Err(parse_lit("no `)` after `(`"));
    }
    let inner = copy_range(sig, open + 1, close);
    let it = trim_exec(&inner);
    if it.len() == 0 {
        return Err(refused_lit("nullary function \u{2014} nothing to lift over \u{3bc}\u{2032}"));
    }
    let ps = crate::text::split_char(&inner, ',');
    let ghost pv = ps@.map_values(|v: Vec<char>| v@);
    let mut out: Vec<Vec<char>> = Vec::new();
    let mut k: usize = 0;
    assert(pv.take(0) =~= Seq::<Seq<char>>::empty());
    assert(vecs_view(out@) =~= Seq::<Seq<char>>::empty());
    assert(inner@ =~= sig@.subrange(open + 1, close as int));
    assert(param_list(pv) is None ==> param_names(sig@) is None);
    while k < ps.len()
        invariant
            param_list(pv) is None ==> param_names(sig@) is None,
            k <= ps@.len(),
            out@.len() == k,
            pv == ps@.map_values(|v: Vec<char>| v@),
            param_list(pv.take(k as int)) == Some(vecs_view(out@)),
        decreases ps@.len() - k,
    {
        let p = &ps[k];
        proof {
            assert(pv.take(k + 1).drop_last() =~= pv.take(k as int));
            assert(pv[k as int] == p@);
        }
        let toks = crate::text::words_exec(p);
        let ghost tv = toks@.map_values(|v: Vec<char>| v@);
        let pt = trim_exec(p);
        if toks.len() == 0 || !lit_is(&toks[0], "double") {
            proof {
                if toks@.len() > 0 {
                    assert(tv[0] == toks@[0]@);
                }
                lemma_param_list_stop(pv, k as int);
            }
            return Err(refused_wrap(
                "non-double parameter `",
                &pt,
                "` \u{2014} pointers/ints are P3 (memory & slicing); &[f64] sequence params are P2 (Fold)",
            ));
        }
        proof {
            assert(tv[0] == toks@[0]@);
        }
        // the last token that starts with `%`
        let mut j: usize = 0;
        let mut found: Option<usize> = None;
        assert(tv.take(0) =~= Seq::<Seq<char>>::empty());
        while j < toks.len()
            invariant
                j <= toks@.len(),
                found matches Some(f) ==> f < toks@.len(),
                tv == toks@.map_values(|v: Vec<char>| v@),
                last_pct(tv.take(j as int)) == match found {
                    Some(f) => Some(f as int),
                    None => None::<int>,
                },
            decreases toks@.len() - j,
        {
            proof {
                assert(tv.take(j + 1).drop_last() =~= tv.take(j as int));
                assert(tv[j as int] == toks@[j as int]@);
            }
            if starts(&toks[j], "%") {
                found = Some(j);
            }
            j += 1;
        }
        assert(tv.take(j as int) =~= tv);
        let name = match found {
            Some(i) => {
                let t = &toks[i];
                proof {
                    assert(tv[i as int] == t@);
                }
                if t.len() == 0 {
                    proof {
                        lemma_param_list_stop(pv, k as int);
                    }
                    return Err(parse_err("unnamed parameter `", &pt, "`"));
                }
                copy_range(t, 1, t.len())
            },
            None => {
                proof {
                    lemma_param_list_stop(pv, k as int);
                }
                return Err(parse_err("unnamed parameter `", &pt, "`"));
            },
        };
        proof {
            assert(name@ =~= tv[found->0 as int].skip(1));
        }
        let ghost prev = vecs_view(out@);
        out.push(name);
        assert(vecs_view(out@) =~= prev.push(name@));
        k += 1;
    }
    assert(pv.take(k as int) =~= pv);
    if out.len() == 0 {
        return Err(refused_lit("nullary function \u{2014} nothing to lift over \u{3bc}\u{2032}"));
    }
    Ok(out)
}

/// Find the matching `define`; return its signature line and body lines.
/// Matching: the exact symbol, or an Itanium-mangled segment `{len}{name}`
/// (what rustc emits) — an exact hit beats mangled-segment hits.
/// The words before a signature's `@` (the whole signature without one).
pub open spec fn before_at(sig: Seq<char>) -> Seq<char> {
    if has_char(sig, '@') {
        sig.take(choose|i: int| first_char_at(sig, '@', i))
    } else {
        sig
    }
}

/// A signature whose return type is `double`.
pub open spec fn returns_double(sig: Seq<char>) -> bool {
    words(before_at(sig)).contains("double"@)
}

/// Line `i` is the only `define` of the text, it defines exactly `name`,
/// and it returns `double`.
pub open spec fn sole_define(ls: Seq<Seq<char>>, name: Seq<char>, i: int) -> bool {
    &&& defines_at(ls, name, i)
    &&& crate::lex::spec_symbol_of(trim_start(ls[i])) == Some(name)
    &&& returns_double(trim_start(ls[i]))
    &&& forall|j: int|
        0 <= j < ls.len() && j != i ==> !starts_with(#[trigger] trim_start(ls[j]), "define"@)
}

/// The failures of locating a function's `define` in the IR text.
pub open spec fn locate_error(e: LiftError) -> bool {
    ||| e is FnNotFound
    ||| e is Ambiguous
    ||| e matches LiftError::Parse(m) && starts_with(m@, "bad define: `"@)
    ||| e matches LiftError::Refused(m) && m@
        == "return type is not double \u{2014} P1 lifts pure f64 functions only"@
}

pub fn find_define(ir: &[char], fn_name: &[char]) -> (r: Result<
    (Vec<char>, Vec<Vec<char>>),
    LiftError,
>)
    ensures
        r matches Err(LiftError::FnNotFound(n)) ==> n@ == fn_name@,
        r matches Ok((sig, _)) ==> starts_with(sig@, "define"@),
        r matches Ok((sig, body)) ==> define_of(lines(ir@), fn_name@, sig@, vecs_view(body@)),
        r matches Err(e) ==> locate_error(e),
        forall|i: int|
            sole_define(lines(ir@), fn_name@, i) ==> (r matches Ok((sig, body)) && sig@ == trim_start(
                #[trigger] lines(ir@)[i],
            ) && vecs_view(body@) == body_from(lines(ir@), i + 1)),
{
    let seg = mangled_segment(fn_name);
    // a name of `usize::MAX` bytes cannot occur; its segment is not searched
    let seg_ok = crate::text::utf8_len_exec(fn_name) < usize::MAX;
    let irl = crate::text::lines_exec(ir);
    let ghost ls = lines(ir@);
    let mut hits: Vec<(Vec<char>, Vec<Vec<char>>)> = Vec::new();
    let mut i: usize = 0;
    let ghost sole = exists|w: int| sole_define(ls, fn_name@, w);
    let ghost w = choose|w: int| sole_define(ls, fn_name@, w);
    while i < irl.len()
        invariant
            sole ==> sole_define(ls, fn_name@, w),
            sole ==> hits@.len() == (if i > w {
                1int
            } else {
                0int
            }),
            sole && i > w ==> hits@[0].0@ == trim_start(ls[w]) && vecs_view(hits@[0].1@)
                == body_from(ls, w + 1),
            i <= irl@.len(),
            ls == irl@.map_values(|v: Vec<char>| v@),
            ls == lines(ir@),
            crate::text::utf8_len(fn_name@) <= usize::MAX ==> seg@ == crate::fmt::decimal(
                crate::text::utf8_len(fn_name@),
            ) + fn_name@,
            seg_ok ==> crate::text::utf8_len(fn_name@) <= usize::MAX,
            forall|j: int| 0 <= j < hits@.len() ==> starts_with(#[trigger] hits@[j].0@, "define"@),
            forall|j: int|
                0 <= j < hits@.len() ==> define_of(
                    ls,
                    fn_name@,
                    #[trigger] hits@[j].0@,
                    vecs_view(hits@[j].1@),
                ),
        decreases irl@.len() - i,
    {
        let lt = trim_start_exec(&irl[i]);
        let ghost at_line = i as int;
        proof {
            assert(ls[at_line] == irl@[at_line]@);
        }
        i += 1;
        if !starts(&lt, "define") {
            proof {
                if sole && at_line != w {
                    assert(!starts_with(trim_start(ls[at_line]), "define"@));
                }
            }
            continue;
        }
        assert(sole ==> at_line == w);
        let sym = match symbol_of(&lt) {
            Some(s) => s,
            None => {
                proof {
                    assert((("bad define: `"@ + lt@) + "`"@).subrange(0, "bad define: `"@.len() as int)
                        =~= "bad define: `"@);
                }
                return Err(parse_err("bad define: `", &lt, "`"));
            },
        };
        if !eq(&sym, fn_name) && !(seg_ok && crate::text::find(&sym, &seg).is_some()) {
            continue;
        }
        proof {
            if !(sym@ == fn_name@) {
                assert(contains(sym@, seg@));
            }
            assert(names_fn(sym@, fn_name@));
        }
        let mut body: Vec<Vec<char>> = Vec::new();
        let ghost i0 = i;
        assert(vecs_view(body@) + body_from(ls, i as int) =~= body_from(ls, i as int));
        while i < irl.len()
            invariant_except_break
                vecs_view(body@) + body_from(ls, i as int) == body_from(ls, i0 as int),
            invariant
                i0 <= i <= irl@.len(),
                sole ==> i0 == w + 1,
                ls == irl@.map_values(|v: Vec<char>| v@),
            ensures
                vecs_view(body@) == body_from(ls, i0 as int),
                i0 <= i <= irl@.len(),
            decreases irl@.len() - i,
        {
            let bl = &irl[i];
            proof {
                assert(ls[i as int] == bl@);
            }
            let bt = trim_exec(bl);
            if lit_is(&bt, "}") {
                assert(body_from(ls, i as int) =~= Seq::<Seq<char>>::empty());
                assert(vecs_view(body@) + Seq::<Seq<char>>::empty() =~= vecs_view(body@));
                i += 1;
                break;
            }
            let ghost prev = vecs_view(body@);
            let line_copy = copy_range(bl, 0, bl.len());
            assert(line_copy@ =~= bl@);
            body.push(line_copy);
            proof {
                assert(vecs_view(body@) =~= prev.push(bl@));
                assert(prev + (seq![bl@] + body_from(ls, i + 1)) =~= vecs_view(body@) + body_from(
                    ls,
                    i + 1,
                ));
            }
            i += 1;
        }
        hits.push((lt, body));
        proof {
            assert(hits@.last().0@ == trim_start(ls[at_line]));
            assert(defines_at(ls, fn_name@, at_line));
        }
    }
    // exact symbol beats mangled-segment hits (closures nested in the
    // target fn also carry the segment)
    let mut exact: Vec<usize> = Vec::new();
    let mut k: usize = 0;
    while k < hits.len()
        invariant
            k <= hits@.len(),
            forall|j: int| 0 <= j < exact@.len() ==> exact@[j] < hits@.len(),
        decreases hits@.len() - k,
    {
        match symbol_of(&hits[k].0) {
            Some(s) => {
                if eq(&s, fn_name) {
                    exact.push(k);
                }
            },
            None => {},
        }
        k += 1;
    }
    if exact.len() == 1 {
        let only = hits.remove(exact[0]);
        hits = Vec::new();
        hits.push(only);
    }
    if hits.len() == 0 {
        return Err(LiftError::FnNotFound(string_of(fn_name)));
    }
    if hits.len() == 1 {
        let (sig, body) = hits.remove(0);
        // the return type is the `double` before the `@`
        let before_at = match find_char(&sig, '@') {
            Some(a) => {
                proof {
                    crate::lex::lemma_first_char_unique(sig@, '@', a as int, choose|i: int|
                        first_char_at(sig@, '@', i));
                }
                copy_range(&sig, 0, a)
            },
            None => copy_range(&sig, 0, sig.len()),
        };
        assert(before_at@ =~= crate::lift::before_at(sig@));
        let toks = crate::text::words_exec(&before_at);
        let ghost tv = toks@.map_values(|v: Vec<char>| v@);
        let mut has_double = false;
        let mut t: usize = 0;
        while t < toks.len()
            invariant
                t <= toks@.len(),
                tv == toks@.map_values(|v: Vec<char>| v@),
                has_double == exists|q: int| 0 <= q < t && tv[q] == "double"@,
            decreases toks@.len() - t,
        {
            proof {
                assert(tv[t as int] == toks@[t as int]@);
            }
            if lit_is(&toks[t], "double") {
                has_double = true;
            }
            t += 1;
        }
        proof {
            if tv.contains("double"@) {
                let q = choose|q: int| 0 <= q < tv.len() && tv[q] == "double"@;
                assert(0 <= q < t && tv[q] == "double"@);
            }
        }
        if !has_double {
            return Err(refused_lit(
                "return type is not double \u{2014} P1 lifts pure f64 functions only",
            ));
        }
        return Ok((sig, body));
    }
    let mut names: Vec<String> = Vec::new();
    let mut k2: usize = 0;
    while k2 < hits.len()
        invariant
            k2 <= hits@.len(),
        decreases hits@.len() - k2,
    {
        let s = match symbol_of(&hits[k2].0) {
            Some(s) => s,
            None => Vec::new(),
        };
        names.push(string_of(&s));
        k2 += 1;
    }
    Err(LiftError::Ambiguous(names))
}

/// The Itanium-mangled name segment `{len}{name}` (len in bytes, decimal).
pub fn mangled_segment(name: &[char]) -> (r: Vec<char>)
    ensures
        crate::text::utf8_len(name@) <= usize::MAX ==> r@ == crate::fmt::decimal(
            crate::text::utf8_len(name@),
        ) + name@,
{
    let n = crate::text::utf8_len_exec(name);
    let mut r = crate::fmt::decimal_exec(n);
    let mut k: usize = 0;
    let ghost r0 = r@;
    while k < name.len()
        invariant
            k <= name@.len(),
            r@ == r0 + name@.take(k as int),
        decreases name@.len() - k,
    {
        r.push(name[k]);
        k += 1;
        assert(r@ =~= r0 + name@.take(k as int));
    }
    assert(name@.take(name@.len() as int) =~= name@);
    r
}

// ------------------------------------------------------------------- lift --

/// A prefix of the body that already fails makes the whole body fail.
proof fn lemma_block_run_prefix(lines: Seq<Seq<char>>, st0: BlockState, k: int)
    requires
        0 <= k <= lines.len(),
        block_run(lines.take(k), st0) is None,
    ensures
        block_run(lines, st0) is None,
    decreases lines.len(),
{
    if k == lines.len() {
        assert(lines.take(k) =~= lines);
    } else {
        assert(lines.drop_last().take(k) =~= lines.take(k));
        lemma_block_run_prefix(lines.drop_last(), st0, k);
    }
}

/// A line that the state before it cannot take makes the whole body fail.
proof fn lemma_block_stop(lines: Seq<Seq<char>>, st0: BlockState, k: int, st: BlockState)
    requires
        0 < k <= lines.len(),
        block_run(lines.take(k - 1), st0) == Some(st),
        line_step(st, lines[k - 1]) is None,
    ensures
        block_run(lines, st0) is None,
{
    assert(lines.take(k).drop_last() =~= lines.take(k - 1));
    assert(lines.take(k).last() == lines[k - 1]);
    lemma_block_run_prefix(lines, st0, k);
}

/// The returned value so far, over the builder's arena.
pub open spec fn ret_val(ret: Option<u32>, b: TermBuilder) -> Option<Expr> {
    match ret {
        Some(id) => Some(den(b, id as int)),
        None => None,
    }
}

/// Lift a straight-line body (a single basic block) over its parameters:
/// the lifted term stands for exactly the value the body returns.
#[verifier::rlimit(60)]
pub fn lift_block(params: &Vec<Vec<char>>, body: &Vec<Vec<char>>) -> (r: Result<Term, LiftError>)
    ensures
        not_missing(r),
        r matches Ok(t) ==> t.wf(),
        block_val(vecs_view(params@), vecs_view(body@)) is None ==> r is Err,
        r matches Ok(t) ==> block_val(vecs_view(params@), vecs_view(body@)) == Some(
            denote(t.nodes@, lits_view(t.consts@), t.root as int),
        ),
        r is Err && block_val(vecs_view(params@), vecs_view(body@)) is Some ==> is_too_large(r->Err_0),
        block_val(vecs_view(params@), vecs_view(body@)) is Some && params@.len() + 4 * body@.len()
            + 1 < 0xffff_ffff ==> r is Ok,
{
    let ghost pv = vecs_view(params@);
    let ghost bv = vecs_view(body@);
    let mut b = TermBuilder::new();
    let mut env = Env::new();
    let mut i: usize = 0;
    assert(pv.take(0) =~= Seq::<Seq<char>>::empty());
    assert(vals(env.view(), b) =~= Map::<Seq<char>, Expr>::empty());
    while i < params.len()
        invariant
            b.inv(),
            env.below(b.nodes@.len()),
            i <= params@.len(),
            b.nodes@.len() == i,
            b.consts@.len() == 0,
            pv == vecs_view(params@),
            vals(env.view(), b) == param_vals(pv.take(i as int)),
        decreases params@.len() - i,
    {
        if !b.room(1) {
            return Err(too_large());
        }
        let ghost b0 = b;
        let ghost ev0 = env.view();
        assert forall|j: int| 0 <= j < ev0.len() implies ev0[j].1 < b0.nodes@.len() by {
            assert(ev0[j].1 == env.entries@[j].1);
        }
        let v = b.var(i as u32);
        let name = copy_range(&params[i], 0, params[i].len());
        env.insert(name, v);
        proof {
            assert(b0.nodes@ =~= b.nodes@.take(b0.nodes@.len() as int));
            assert(b0.consts@ =~= b.consts@.take(b0.consts@.len() as int));
            lemma_vals_stable_view(ev0, b0, b);
            lemma_vals_insert(ev0, b, name@, v);
            assert(pv.take(i + 1).drop_last() =~= pv.take(i as int));
            assert(params@[i as int]@ == pv[i as int]);
            assert(name@ =~= pv[i as int]);
            assert(pv.take(i + 1).last() == pv[i as int]);
            assert(den(b, v as int) == Expr::Leaf(Op::Var, i as u32));
            assert(param_vals(pv.take(i + 1)) == param_vals(pv.take(i as int)).insert(
                pv[i as int],
                Expr::Leaf(Op::Var, i as u32),
            ));
        }
        i += 1;
    }
    let ghost st0 = (param_vals(pv), 0nat, None::<Expr>);
    assert(pv.take(i as int) =~= pv);
    assert(bv.take(0) =~= Seq::<Seq<char>>::empty());
    let mut labels_seen: usize = 0;
    let mut ret: Option<u32> = None;
    let mut k: usize = 0;
    while k < body.len()
        invariant
            b.inv(),
            env.below(b.nodes@.len()),
            ret matches Some(id) ==> id < b.nodes@.len(),
            k <= body@.len(),
            b.nodes@.len() <= params@.len() + 4 * k,
            b.consts@.len() <= 4 * k,
            labels_seen <= k,
            bv == vecs_view(body@),
            pv == vecs_view(params@),
            st0 == (param_vals(pv), 0nat, None::<Expr>),
            block_run(bv.take(k as int), st0) == Some(
                (vals(env.view(), b), labels_seen as nat, ret_val(ret, b)),
            ),
        decreases body@.len() - k,
    {
        proof {
            assert(bv.take(k + 1).drop_last() =~= bv.take(k as int));
            assert(body@[k as int]@ == bv[k as int]);
        }
        let ghost stk = (vals(env.view(), b), labels_seen as nat, ret_val(ret, b));
        let line = clean_line(&body[k]);
        k += 1;
        if line.len() == 0 {
            continue;
        }
        if label_line(&line) {
            labels_seen += 1;
            if labels_seen > 1 {
                proof {
                    lemma_block_stop(bv, st0, k as int, stk);
                }
                return Err(refused_lit(
                    "multiple basic blocks \u{2014} loops/branches are P2 (natural-loop + phi \u{2192} Fold recognition); P1 is straight-line",
                ));
            }
            continue;
        }
        if ret.is_some() {
            proof {
                lemma_block_stop(bv, st0, k as int, stk);
            }
            return Err(parse_lit("instruction after ret"));
        }
        if let Some(rest) = strip_prefix(&line, "ret ") {
            let rt = trim_exec(&rest);
            let val = match strip_prefix(&rt, "double") {
                Some(v) => trim_exec(&v),
                None => {
                    proof {
                        lemma_block_stop(bv, st0, k as int, stk);
                    }
                    return Err(refused_lit("non-double return"));
                },
            };
            let ghost b0 = b;
            let id = match operand(&val, &env, &mut b) {
                Ok(id) => id,
                Err(e) => {
                    proof {
                        if operand_val(val@, stk.0) is None {
                            lemma_block_stop(bv, st0, k as int, stk);
                        }
                    }
                    return Err(e);
                },
            };
            proof {
                lemma_vals_stable(env, b0, b);
            }
            ret = Some(id);
            continue;
        }
        // %name = <inst> …
        let (dst, inst) = match split_once(&line, '=') {
            Some(p) => p,
            None => {
                proof {
                    lemma_block_stop(bv, st0, k as int, stk);
                }
                return Err(refuse_inst(&line));
            },
        };
        proof {
            let w = choose|w: int|
                first_char_at(line@, '=', w) && dst@ == line@.take(w) && inst@ == line@.skip(w + 1);
            crate::lex::lemma_first_char_unique(line@, '=', w, choose|j: int|
                first_char_at(line@, '=', j));
        }
        let dst = trim_exec(&dst);
        let dname = match strip_prefix_char(&dst, '%') {
            Some(n) => n,
            None => {
                proof {
                    lemma_block_stop(bv, st0, k as int, stk);
                }
                return Err(parse_err("expected SSA destination: `", &line, "`"));
            },
        };
        let it = trim_exec(&inst);
        let ghost b0 = b;
        let ghost ev0 = env.view();
        assert forall|j: int| 0 <= j < ev0.len() implies ev0[j].1 < b0.nodes@.len() by {
            assert(ev0[j].1 == env.entries@[j].1);
        }
        let id = match instruction(&it, &env, &mut b) {
            Ok(id) => id,
            Err(e) => {
                proof {
                    if inst_val(it@, stk.0) is None {
                        lemma_block_stop(bv, st0, k as int, stk);
                    }
                }
                return Err(e);
            },
        };
        env.insert(dname, id);
        proof {
            lemma_vals_stable_view(ev0, b0, b);
            lemma_vals_insert(ev0, b, dname@, id);
        }
    }
    assert(bv.take(k as int) =~= bv);
    let root = match ret {
        Some(r) => r,
        None => return Err(parse_lit("no `ret double` found")),
    };
    Ok(b.finish(root))
}

/// What a lifted term is of the IR: the term of a `define` of the name,
/// which, for a single-block body, stands for the value the body returns.
pub open spec fn lifted_from(ir: Seq<char>, name: Seq<char>, t: Term) -> bool {
    exists|sig: Seq<char>, body: Seq<Seq<char>>|
        #![trigger define_of(lines(ir), name, sig, body)]
        define_of(lines(ir), name, sig, body) && (count_blocks(body, false) == 1 ==> (param_names(
            sig,
        ) matches Some(ps) && block_val(ps, body) == Some(
            denote(t.nodes@, lits_view(t.consts@), t.root as int),
        )))
}

/// The single-block function that line `i` defines, read over its
/// parameters: its value, where it has one and fits the node-id space.
pub open spec fn sole_block_val(ls: Seq<Seq<char>>, i: int) -> Option<Expr> {
    let sig = trim_start(ls[i]);
    let body = body_from(ls, i + 1);
    if count_blocks(body, false) != 1 {
        None
    } else {
        match param_names(sig) {
            Some(ps) => if ps.len() + 4 * body.len() + 1 < 0xffff_ffff {
                block_val(ps, body)
            } else {
                None
            },
            None => None,
        }
    }
}

/// A body of blank lines has no block.
proof fn lemma_blank_no_blocks(ls: Seq<Seq<char>>)
    requires
        forall|i: int| 0 <= i < ls.len() ==> clean(#[trigger] ls[i]).len() == 0,
    ensures
        count_blocks(ls, false) == 0,
    decreases ls.len(),
{
    if ls.len() > 0 {
        assert(clean(ls[0]).len() == 0);
        assert forall|i: int| 0 <= i < ls.drop_first().len() implies clean(
            #[trigger] ls.drop_first()[i],
        ).len() == 0 by {
            assert(ls.drop_first()[i] == ls[i + 1]);
        }
        lemma_blank_no_blocks(ls.drop_first());
    }
}

/// Lift `fn_name` from LLVM IR text into Σ. Untrusted: compare the result
/// against the compiled original before relying on it.
///
/// One basic block → the straight-line reader; several → the fold/branch
/// recognizer. Anything neither can positively identify is a refusal.
pub fn lift_ll(ir: &str, fn_name: &str) -> (r: Result<Term, LiftError>)
    ensures
        r matches Ok(t) ==> t.wf(),
        r matches Err(LiftError::FnNotFound(n)) ==> n@ == fn_name@,
        r matches Ok(t) ==> lifted_from(ir@, fn_name@, t),
        r matches Err(e) ==> locate_error(e) || exists|sig: Seq<char>, body: Seq<Seq<char>>|
            #![trigger define_of(lines(ir@), fn_name@, sig, body)]
            define_of(lines(ir@), fn_name@, sig, body) && !(count_blocks(body, false) == 1 && (
            param_names(sig) matches Some(ps) && block_val(ps, body) is Some && ps.len() + 4
                * body.len() + 1 < 0xffff_ffff)),
        forall|i: int|
            sole_define(lines(ir@), fn_name@, i) && sole_block_val(lines(ir@), i) is Some ==> (
            r matches Ok(t) && sole_block_val(#[trigger] lines(ir@), i) == Some(
                denote(t.nodes@, lits_view(t.consts@), t.root as int),
            )),
{
    let irc = chars_of(ir);
    let name = chars_of(fn_name);
    let (sig_line, body) = find_define(&irc, &name)?;
    let blocks = match split_blocks(&body) {
        Ok(v) => v,
        Err(e) => {
            proof {
                lemma_blank_no_blocks(vecs_view(body@));
            }
            return Err(e);
        },
    };
    if blocks.len() > 1 {
        return lift_fold(&sig_line, &blocks);
    }
    let params = parse_params(&sig_line)?;
    lift_block(&params, &body)
}

// ------------------------------------------------------------ no_mangle --

/// A `fn <name>` occurrence ending at `j` names the function itself: the
/// name is followed by `(`, `<`, whitespace, or the end of the text.
pub open spec fn name_ends_at(s: Seq<char>, j: int) -> bool {
    j >= s.len() || s[j] == '(' || s[j] == '<' || crate::text::is_ws(s[j])
}

/// Where the scan for `needle` from `i` stops: the first occurrence whose
/// name ends there, skipping past each rejected occurrence whole.
pub open spec fn fn_site_from(s: Seq<char>, needle: Seq<char>, i: int) -> Option<int>
    decreases s.len() + 1 - i,
{
    if i < 0 || i > s.len() || needle.len() == 0 {
        None
    } else if occurs_at(s, needle, i) {
        if name_ends_at(s, i + needle.len()) {
            Some(i)
        } else {
            fn_site_from(s, needle, i + needle.len())
        }
    } else {
        fn_site_from(s, needle, i + 1)
    }
}

/// Start of the line that `pre` ends in: just past its last `\n`, or 0.
pub open spec fn line_begin(pre: Seq<char>) -> int {
    if has_char(pre, '\n') {
        (choose|j: int| last_char_at(pre, '\n', j)) + 1
    } else {
        0
    }
}

/// `src` with `#[no_mangle]` on its own line above the line defining
/// `fn <name>`, unless the line above already carries it.
pub open spec fn with_no_mangle(src: Seq<char>, name: Seq<char>) -> Option<Seq<char>> {
    match fn_site_from(src, "fn "@ + name, 0) {
        None => None,
        Some(i) => {
            let ls = line_begin(src.take(i));
            if ends_with(trim_end(src.take(ls)), "#[no_mangle]"@) {
                Some(src)
            } else {
                Some(src.take(ls) + "#[no_mangle]\n"@ + src.skip(ls))
            }
        },
    }
}

/// Prepend `#[no_mangle]` to the line defining `fn <fn_name>` (the name
/// word-bounded), so the compiled symbol keeps its name.
pub fn inject_no_mangle(src: &str, fn_name: &str) -> (r: Result<String, String>)
    ensures
        r matches Ok(t) ==> with_no_mangle(src@, fn_name@) == Some(t@),
        r matches Err(m) ==> with_no_mangle(src@, fn_name@) is None && m@ == "`fn "@ + fn_name@
            + "` not found in source"@,
        r is Ok <==> with_no_mangle(src@, fn_name@) is Some,
{
    let s = chars_of(src);
    let mut needle: Vec<char> = Vec::new();
    put_lit(&mut needle, "fn ");
    let name = chars_of(fn_name);
    crate::text::put(&mut needle, &name);
    let ghost nd = "fn "@ + fn_name@;
    assert(needle@ =~= nd);
    proof {
        reveal_strlit("fn ");
    }
    let n = s.len();
    let m = needle.len();
    let mut i: usize = 0;
    loop
        invariant
            i <= n,
            n == s@.len(),
            m == needle@.len(),
            needle@ == nd,
            nd == "fn "@ + fn_name@,
            nd.len() >= 3,
            s@ == src@,
            fn_site_from(s@, nd, i as int) == fn_site_from(s@, nd, 0),
        decreases n + 1 - i,
    {
        if crate::text::occurs_at_exec(&s, &needle, i) {
            let j = i + m;
            let hit = j >= n || s[j] == '(' || s[j] == '<' || crate::text::is_ws_exec(s[j]);
            if hit {
                assert(fn_site_from(s@, nd, i as int) == Some(i as int));
                let pre = copy_range(&s, 0, i);
                assert(pre@ =~= s@.take(i as int));
                let ls: usize = match rfind_char(&pre, '\n') {
                    Some(p) => {
                        proof {
                            crate::lex::lemma_last_char_unique(pre@, '\n', p as int, choose|j: int|
                                last_char_at(pre@, '\n', j));
                        }
                        p + 1
                    },
                    None => 0,
                };
                let head = copy_range(&s, 0, ls);
                assert(head@ =~= s@.take(ls as int));
                let t = crate::text::trim_end_exec(&head);
                assert(ls == line_begin(s@.take(i as int)));
                if ends(&t, "#[no_mangle]") {
                    return Ok(string_of(&s));
                }
                let mut out = head;
                put_lit(&mut out, "#[no_mangle]\n");
                let tail = copy_range(&s, ls, n);
                assert(tail@ =~= s@.skip(ls as int));
                crate::text::put(&mut out, &tail);
                return Ok(string_of(&out));
            }
            i = j;
        } else {
            if i == n {
                assert(fn_site_from(s@, nd, i + 1) is None);
                assert(fn_site_from(s@, nd, i as int) is None);
                let mut e = owned("`fn ");
                e.append(fn_name);
                push_lit(&mut e, "` not found in source");
                return Err(e);
            }
            i += 1;
        }
    }
}


/// The truth of `fcmp <pred>` on operands that compare as given, after the
/// LLVM language reference: a predicate is `o` (ordered: false on a NaN) or
/// `u` (unordered: true on a NaN) followed by the relation `eq`, `ne`, `lt`,
/// `gt`, `le` or `ge`.
pub open spec fn predicate_holds(pred: Seq<char>, lt: bool, eq: bool, gt: bool) -> bool {
    let unordered = !(lt || eq || gt);
    let rel = pred.subrange(1, pred.len() as int);
    let r = if rel == seq!['e', 'q'] {
        eq
    } else if rel == seq!['n', 'e'] {
        lt || gt
    } else if rel == seq!['l', 't'] {
        lt
    } else if rel == seq!['g', 't'] {
        gt
    } else if rel == seq!['l', 'e'] {
        lt || eq
    } else if rel == seq!['g', 'e'] {
        gt || eq
    } else {
        false
    };
    pred.len() == 3 && if pred[0] == 'o' {
        !unordered && r
    } else if pred[0] == 'u' {
        unordered || r
    } else {
        false
    }
}

/// The lifter keeps what a comparison means: every predicate it admits
/// becomes the Σ comparison that holds exactly when the `fcmp` does, for
/// every way the operands can compare (NaN included).
pub proof fn law_predicates_keep_their_meaning(pred: Seq<char>, lt: bool, eq: bool, gt: bool)
    requires
        pred_op(pred) is Some,
        crate::sigma::outcome_ok(lt, eq, gt),
    ensures
        crate::sigma::relation_holds(pred_op(pred)->0, lt, eq, gt) == predicate_holds(pred, lt, eq, gt),
{
    reveal_strlit("olt");
    reveal_strlit("ogt");
    reveal_strlit("ole");
    reveal_strlit("oge");
    reveal_strlit("oeq");
    reveal_strlit("une");
    let rel = pred.subrange(1, pred.len() as int);
    if pred == "olt"@ {
        assert(rel =~= seq!['l', 't']);
    } else if pred == "ogt"@ {
        assert(rel =~= seq!['g', 't']);
    } else if pred == "ole"@ {
        assert(rel =~= seq!['l', 'e']);
    } else if pred == "oge"@ {
        assert(rel =~= seq!['g', 'e']);
    } else if pred == "oeq"@ {
        assert(rel =~= seq!['e', 'q']);
    } else {
        assert(rel =~= seq!['n', 'e']);
    }
}


/// The C math library's name for the function a Rust `f64` method computes
/// (`x.ln()` is `log(x)`, `x.abs()` is `fabs(x)`).
pub open spec fn libm_name(method: Seq<char>) -> Seq<char> {
    if method == "abs"@ {
        "fabs"@
    } else if method == "ln"@ {
        "log"@
    } else {
        method
    }
}

/// The two front doors agree on the math library: a call of the C function
/// (or its LLVM intrinsic) in IR lifts to the Σ operator that the extractor
/// reads the Rust method of the same function as.
pub proof fn law_libm_calls_agree_with_methods(method: Seq<char>)
    requires
        crate::extract::reading::method1(method) is Some,
    ensures
        call_map(libm_name(method)) == crate::extract::reading::method1(method),
        method != "tan"@ ==> call_map("llvm."@ + libm_name(method) + ".f64"@)
            == crate::extract::reading::method1(method),
{
    reveal_strlit(".f64");
    reveal_strlit("abs");
    reveal_strlit("ceil");
    reveal_strlit("cos");
    reveal_strlit("exp");
    reveal_strlit("exp2");
    reveal_strlit("fabs");
    reveal_strlit("floor");
    reveal_strlit("llvm.");
    reveal_strlit("llvm.ceil.f64");
    reveal_strlit("llvm.cos.f64");
    reveal_strlit("llvm.exp.f64");
    reveal_strlit("llvm.exp2.f64");
    reveal_strlit("llvm.fabs.f64");
    reveal_strlit("llvm.floor.f64");
    reveal_strlit("llvm.log.f64");
    reveal_strlit("llvm.sin.f64");
    reveal_strlit("llvm.sqrt.f64");
    reveal_strlit("ln");
    reveal_strlit("log");
    reveal_strlit("sin");
    reveal_strlit("sqrt");
    reveal_strlit("tan");
    if method == "sqrt"@ {
        assert("sqrt"@.len() != "sin"@.len());
        assert("sqrt"@.len() != "cos"@.len());
        assert("sqrt"@.len() != "tan"@.len());
        assert("sqrt"@.len() != "exp"@.len());
        assert("sqrt"@[0] != "exp2"@[0]);
        assert("sqrt"@.len() != "ln"@.len());
        assert("sqrt"@.len() != "abs"@.len());
        assert("sqrt"@.len() != "ln"@.len());
        assert("sqrt"@.len() != "llvm.sqrt.f64"@.len());
        assert("llvm."@ + "sqrt"@ + ".f64"@ =~= "llvm.sqrt.f64"@);
    }
    if method == "abs"@ {
        assert("abs"@[0] != "sin"@[0]);
        assert("abs"@[0] != "cos"@[0]);
        assert("abs"@[0] != "tan"@[0]);
        assert("abs"@[0] != "exp"@[0]);
        assert("abs"@.len() != "exp2"@.len());
        assert("abs"@.len() != "ln"@.len());
        assert("abs"@.len() != "sqrt"@.len());
        assert("abs"@.len() != "ln"@.len());
        assert("fabs"@.len() != "llvm.sqrt.f64"@.len());
        assert("fabs"@[0] != "sqrt"@[0]);
        assert("fabs"@.len() != "llvm.fabs.f64"@.len());
        assert("llvm."@ + "fabs"@ + ".f64"@ =~= "llvm.fabs.f64"@);
        assert("llvm.fabs.f64"@[5] != "llvm.sqrt.f64"@[5]);
        assert("llvm.fabs.f64"@.len() != "sqrt"@.len());
    }
    if method == "floor"@ {
        assert("floor"@.len() != "sin"@.len());
        assert("floor"@.len() != "cos"@.len());
        assert("floor"@.len() != "tan"@.len());
        assert("floor"@.len() != "exp"@.len());
        assert("floor"@.len() != "exp2"@.len());
        assert("floor"@.len() != "ln"@.len());
        assert("floor"@.len() != "sqrt"@.len());
        assert("floor"@.len() != "abs"@.len());
        assert("floor"@.len() != "abs"@.len());
        assert("floor"@.len() != "ln"@.len());
        assert("floor"@.len() != "llvm.sqrt.f64"@.len());
        assert("floor"@.len() != "sqrt"@.len());
        assert("floor"@.len() != "llvm.fabs.f64"@.len());
        assert("floor"@.len() != "fabs"@.len());
        assert("floor"@.len() != "llvm.floor.f64"@.len());
        assert("llvm."@ + "floor"@ + ".f64"@ =~= "llvm.floor.f64"@);
        assert("llvm.floor.f64"@.len() != "llvm.sqrt.f64"@.len());
        assert("llvm.floor.f64"@.len() != "sqrt"@.len());
        assert("llvm.floor.f64"@.len() != "llvm.fabs.f64"@.len());
        assert("llvm.floor.f64"@.len() != "fabs"@.len());
    }
    if method == "ceil"@ {
        assert("ceil"@.len() != "sin"@.len());
        assert("ceil"@.len() != "cos"@.len());
        assert("ceil"@.len() != "tan"@.len());
        assert("ceil"@.len() != "exp"@.len());
        assert("ceil"@[0] != "exp2"@[0]);
        assert("ceil"@.len() != "ln"@.len());
        assert("ceil"@[0] != "sqrt"@[0]);
        assert("ceil"@.len() != "abs"@.len());
        assert("ceil"@.len() != "floor"@.len());
        assert("ceil"@.len() != "abs"@.len());
        assert("ceil"@.len() != "ln"@.len());
        assert("ceil"@.len() != "llvm.sqrt.f64"@.len());
        assert("ceil"@[0] != "sqrt"@[0]);
        assert("ceil"@.len() != "llvm.fabs.f64"@.len());
        assert("ceil"@[0] != "fabs"@[0]);
        assert("ceil"@.len() != "llvm.floor.f64"@.len());
        assert("ceil"@.len() != "floor"@.len());
        assert("ceil"@.len() != "llvm.ceil.f64"@.len());
        assert("llvm."@ + "ceil"@ + ".f64"@ =~= "llvm.ceil.f64"@);
        assert("llvm.ceil.f64"@[5] != "llvm.sqrt.f64"@[5]);
        assert("llvm.ceil.f64"@.len() != "sqrt"@.len());
        assert("llvm.ceil.f64"@[5] != "llvm.fabs.f64"@[5]);
        assert("llvm.ceil.f64"@.len() != "fabs"@.len());
        assert("llvm.ceil.f64"@.len() != "llvm.floor.f64"@.len());
        assert("llvm.ceil.f64"@.len() != "floor"@.len());
    }
    if method == "sin"@ {
        assert("sin"@[0] != "abs"@[0]);
        assert("sin"@.len() != "ln"@.len());
        assert("sin"@.len() != "llvm.sqrt.f64"@.len());
        assert("sin"@.len() != "sqrt"@.len());
        assert("sin"@.len() != "llvm.fabs.f64"@.len());
        assert("sin"@.len() != "fabs"@.len());
        assert("sin"@.len() != "llvm.floor.f64"@.len());
        assert("sin"@.len() != "floor"@.len());
        assert("sin"@.len() != "llvm.ceil.f64"@.len());
        assert("sin"@.len() != "ceil"@.len());
        assert("sin"@.len() != "llvm.sin.f64"@.len());
        assert("llvm."@ + "sin"@ + ".f64"@ =~= "llvm.sin.f64"@);
        assert("llvm.sin.f64"@.len() != "llvm.sqrt.f64"@.len());
        assert("llvm.sin.f64"@.len() != "sqrt"@.len());
        assert("llvm.sin.f64"@.len() != "llvm.fabs.f64"@.len());
        assert("llvm.sin.f64"@.len() != "fabs"@.len());
        assert("llvm.sin.f64"@.len() != "llvm.floor.f64"@.len());
        assert("llvm.sin.f64"@.len() != "floor"@.len());
        assert("llvm.sin.f64"@.len() != "llvm.ceil.f64"@.len());
        assert("llvm.sin.f64"@.len() != "ceil"@.len());
    }
    if method == "cos"@ {
        assert("cos"@[0] != "sin"@[0]);
        assert("cos"@[0] != "abs"@[0]);
        assert("cos"@.len() != "ln"@.len());
        assert("cos"@.len() != "llvm.sqrt.f64"@.len());
        assert("cos"@.len() != "sqrt"@.len());
        assert("cos"@.len() != "llvm.fabs.f64"@.len());
        assert("cos"@.len() != "fabs"@.len());
        assert("cos"@.len() != "llvm.floor.f64"@.len());
        assert("cos"@.len() != "floor"@.len());
        assert("cos"@.len() != "llvm.ceil.f64"@.len());
        assert("cos"@.len() != "ceil"@.len());
        assert("cos"@.len() != "llvm.sin.f64"@.len());
        assert("cos"@[0] != "sin"@[0]);
        assert("cos"@.len() != "llvm.cos.f64"@.len());
        assert("llvm."@ + "cos"@ + ".f64"@ =~= "llvm.cos.f64"@);
        assert("llvm.cos.f64"@.len() != "llvm.sqrt.f64"@.len());
        assert("llvm.cos.f64"@.len() != "sqrt"@.len());
        assert("llvm.cos.f64"@.len() != "llvm.fabs.f64"@.len());
        assert("llvm.cos.f64"@.len() != "fabs"@.len());
        assert("llvm.cos.f64"@.len() != "llvm.floor.f64"@.len());
        assert("llvm.cos.f64"@.len() != "floor"@.len());
        assert("llvm.cos.f64"@.len() != "llvm.ceil.f64"@.len());
        assert("llvm.cos.f64"@.len() != "ceil"@.len());
        assert("llvm.cos.f64"@[5] != "llvm.sin.f64"@[5]);
        assert("llvm.cos.f64"@.len() != "sin"@.len());
    }
    if method == "tan"@ {
        assert("tan"@[0] != "sin"@[0]);
        assert("tan"@[0] != "cos"@[0]);
        assert("tan"@[0] != "abs"@[0]);
        assert("tan"@.len() != "ln"@.len());
        assert("tan"@.len() != "llvm.sqrt.f64"@.len());
        assert("tan"@.len() != "sqrt"@.len());
        assert("tan"@.len() != "llvm.fabs.f64"@.len());
        assert("tan"@.len() != "fabs"@.len());
        assert("tan"@.len() != "llvm.floor.f64"@.len());
        assert("tan"@.len() != "floor"@.len());
        assert("tan"@.len() != "llvm.ceil.f64"@.len());
        assert("tan"@.len() != "ceil"@.len());
        assert("tan"@.len() != "llvm.sin.f64"@.len());
        assert("tan"@[0] != "sin"@[0]);
        assert("tan"@.len() != "llvm.cos.f64"@.len());
        assert("tan"@[0] != "cos"@[0]);
    }
    if method == "exp"@ {
        assert("exp"@[0] != "sin"@[0]);
        assert("exp"@[0] != "cos"@[0]);
        assert("exp"@[0] != "tan"@[0]);
        assert("exp"@[0] != "abs"@[0]);
        assert("exp"@.len() != "ln"@.len());
        assert("exp"@.len() != "llvm.sqrt.f64"@.len());
        assert("exp"@.len() != "sqrt"@.len());
        assert("exp"@.len() != "llvm.fabs.f64"@.len());
        assert("exp"@.len() != "fabs"@.len());
        assert("exp"@.len() != "llvm.floor.f64"@.len());
        assert("exp"@.len() != "floor"@.len());
        assert("exp"@.len() != "llvm.ceil.f64"@.len());
        assert("exp"@.len() != "ceil"@.len());
        assert("exp"@.len() != "llvm.sin.f64"@.len());
        assert("exp"@[0] != "sin"@[0]);
        assert("exp"@.len() != "llvm.cos.f64"@.len());
        assert("exp"@[0] != "cos"@[0]);
        assert("exp"@[0] != "tan"@[0]);
        assert("exp"@.len() != "llvm.exp.f64"@.len());
        assert("llvm."@ + "exp"@ + ".f64"@ =~= "llvm.exp.f64"@);
        assert("llvm.exp.f64"@.len() != "llvm.sqrt.f64"@.len());
        assert("llvm.exp.f64"@.len() != "sqrt"@.len());
        assert("llvm.exp.f64"@.len() != "llvm.fabs.f64"@.len());
        assert("llvm.exp.f64"@.len() != "fabs"@.len());
        assert("llvm.exp.f64"@.len() != "llvm.floor.f64"@.len());
        assert("llvm.exp.f64"@.len() != "floor"@.len());
        assert("llvm.exp.f64"@.len() != "llvm.ceil.f64"@.len());
        assert("llvm.exp.f64"@.len() != "ceil"@.len());
        assert("llvm.exp.f64"@[5] != "llvm.sin.f64"@[5]);
        assert("llvm.exp.f64"@.len() != "sin"@.len());
        assert("llvm.exp.f64"@[5] != "llvm.cos.f64"@[5]);
        assert("llvm.exp.f64"@.len() != "cos"@.len());
        assert("llvm.exp.f64"@.len() != "tan"@.len());
    }
    if method == "exp2"@ {
        assert("exp2"@.len() != "sin"@.len());
        assert("exp2"@.len() != "cos"@.len());
        assert("exp2"@.len() != "tan"@.len());
        assert("exp2"@.len() != "exp"@.len());
        assert("exp2"@.len() != "abs"@.len());
        assert("exp2"@.len() != "ln"@.len());
        assert("exp2"@.len() != "llvm.sqrt.f64"@.len());
        assert("exp2"@[0] != "sqrt"@[0]);
        assert("exp2"@.len() != "llvm.fabs.f64"@.len());
        assert("exp2"@[0] != "fabs"@[0]);
        assert("exp2"@.len() != "llvm.floor.f64"@.len());
        assert("exp2"@.len() != "floor"@.len());
        assert("exp2"@.len() != "llvm.ceil.f64"@.len());
        assert("exp2"@[0] != "ceil"@[0]);
        assert("exp2"@.len() != "llvm.sin.f64"@.len());
        assert("exp2"@.len() != "sin"@.len());
        assert("exp2"@.len() != "llvm.cos.f64"@.len());
        assert("exp2"@.len() != "cos"@.len());
        assert("exp2"@.len() != "tan"@.len());
        assert("exp2"@.len() != "llvm.exp.f64"@.len());
        assert("exp2"@.len() != "exp"@.len());
        assert("exp2"@.len() != "llvm.exp2.f64"@.len());
        assert("llvm."@ + "exp2"@ + ".f64"@ =~= "llvm.exp2.f64"@);
        assert("llvm.exp2.f64"@[5] != "llvm.sqrt.f64"@[5]);
        assert("llvm.exp2.f64"@.len() != "sqrt"@.len());
        assert("llvm.exp2.f64"@[5] != "llvm.fabs.f64"@[5]);
        assert("llvm.exp2.f64"@.len() != "fabs"@.len());
        assert("llvm.exp2.f64"@.len() != "llvm.floor.f64"@.len());
        assert("llvm.exp2.f64"@.len() != "floor"@.len());
        assert("llvm.exp2.f64"@[5] != "llvm.ceil.f64"@[5]);
        assert("llvm.exp2.f64"@.len() != "ceil"@.len());
        assert("llvm.exp2.f64"@.len() != "llvm.sin.f64"@.len());
        assert("llvm.exp2.f64"@.len() != "sin"@.len());
        assert("llvm.exp2.f64"@.len() != "llvm.cos.f64"@.len());
        assert("llvm.exp2.f64"@.len() != "cos"@.len());
        assert("llvm.exp2.f64"@.len() != "tan"@.len());
        assert("llvm.exp2.f64"@.len() != "llvm.exp.f64"@.len());
        assert("llvm.exp2.f64"@.len() != "exp"@.len());
    }
    if method == "ln"@ {
        assert("ln"@.len() != "sin"@.len());
        assert("ln"@.len() != "cos"@.len());
        assert("ln"@.len() != "tan"@.len());
        assert("ln"@.len() != "exp"@.len());
        assert("ln"@.len() != "exp2"@.len());
        assert("ln"@.len() != "abs"@.len());
        assert("log"@.len() != "llvm.sqrt.f64"@.len());
        assert("log"@.len() != "sqrt"@.len());
        assert("log"@.len() != "llvm.fabs.f64"@.len());
        assert("log"@.len() != "fabs"@.len());
        assert("log"@.len() != "llvm.floor.f64"@.len());
        assert("log"@.len() != "floor"@.len());
        assert("log"@.len() != "llvm.ceil.f64"@.len());
        assert("log"@.len() != "ceil"@.len());
        assert("log"@.len() != "llvm.sin.f64"@.len());
        assert("log"@[0] != "sin"@[0]);
        assert("log"@.len() != "llvm.cos.f64"@.len());
        assert("log"@[0] != "cos"@[0]);
        assert("log"@[0] != "tan"@[0]);
        assert("log"@.len() != "llvm.exp.f64"@.len());
        assert("log"@[0] != "exp"@[0]);
        assert("log"@.len() != "llvm.exp2.f64"@.len());
        assert("log"@.len() != "exp2"@.len());
        assert("log"@.len() != "llvm.log.f64"@.len());
        assert("llvm."@ + "log"@ + ".f64"@ =~= "llvm.log.f64"@);
        assert("llvm.log.f64"@.len() != "llvm.sqrt.f64"@.len());
        assert("llvm.log.f64"@.len() != "sqrt"@.len());
        assert("llvm.log.f64"@.len() != "llvm.fabs.f64"@.len());
        assert("llvm.log.f64"@.len() != "fabs"@.len());
        assert("llvm.log.f64"@.len() != "llvm.floor.f64"@.len());
        assert("llvm.log.f64"@.len() != "floor"@.len());
        assert("llvm.log.f64"@.len() != "llvm.ceil.f64"@.len());
        assert("llvm.log.f64"@.len() != "ceil"@.len());
        assert("llvm.log.f64"@[5] != "llvm.sin.f64"@[5]);
        assert("llvm.log.f64"@.len() != "sin"@.len());
        assert("llvm.log.f64"@[5] != "llvm.cos.f64"@[5]);
        assert("llvm.log.f64"@.len() != "cos"@.len());
        assert("llvm.log.f64"@.len() != "tan"@.len());
        assert("llvm.log.f64"@[5] != "llvm.exp.f64"@[5]);
        assert("llvm.log.f64"@.len() != "exp"@.len());
        assert("llvm.log.f64"@.len() != "llvm.exp2.f64"@.len());
        assert("llvm.log.f64"@.len() != "exp2"@.len());
    }
}


/// The Rust operator an LLVM floating-point arithmetic opcode computes
/// (`fadd` is `+`, `fsub` is `-`, `fmul` is `*`, `fdiv` is `/`).
pub open spec fn rust_operator_of(opcode: Seq<char>) -> Option<crate::syntax::BinOp> {
    if opcode == "fadd"@ {
        Some(crate::syntax::BinOp::Add)
    } else if opcode == "fsub"@ {
        Some(crate::syntax::BinOp::Sub)
    } else if opcode == "fmul"@ {
        Some(crate::syntax::BinOp::Mul)
    } else if opcode == "fdiv"@ {
        Some(crate::syntax::BinOp::Div)
    } else {
        None
    }
}

/// The two front doors agree on arithmetic: an opcode lifts to the Σ
/// operator that the extractor reads the Rust operator it computes as, and
/// the lifter admits exactly the four arithmetic opcodes.
pub proof fn law_arithmetic_opcodes_agree_with_operators(opcode: Seq<char>)
    ensures
        arith_op(opcode) is Some <==> rust_operator_of(opcode) is Some,
        rust_operator_of(opcode) matches Some(b) ==> arith_op(opcode) == Some(
            crate::extract::reading::arith_op(b),
        ),
{
}

} // verus!
