//! Multi-block recognition: the canonical counted loop → Σ Fold, and
//! acyclic branch trees → nested Selects.
//!
//! Target loop shape (rustc, `-C opt-level=1`, runtime unrolling off):
//!
//!   entry:  [int machinery: len guard, trip count]   br i1 %g, …
//!   loop:   %acc = phi double [ INIT, entry ], [ %next, loop ]   (exactly one)
//!           %i   = phi i64 …                                    (index)
//!           gep(seq_ptr, %i) → load double                      (Elem k)
//!           …f64 body…                                          (Acc, Elem)
//!           br i1 %c(int), label %loop, label %exit
//!   exit:   %r = phi double [ INIT, entry ], [ %next, loop ]     (LCSSA)
//!           …optional straight-line f64…  ret double …
//!
//! with an optional preheader between the guard and the loop and an
//! optional straight-line tail between the loop and the merge. Every line
//! must be identified as f64 dataflow, a sequence read, or integer index
//! machinery — or the function is refused with a named reason. The integer
//! world is left uninterpreted: the trip count is not read here.
use vstd::prelude::*;
use crate::fmt::{decimal, decimal_exec};
use crate::lift::{
    LiftError, RawBlock, grows, instruction, lemma_grows_refl, lemma_grows_trans, not_missing,
    operand, parse_err, parse_lit, parse_params, too_large,
};
use crate::lex::{spec_split_top, split_top, vecs_view};
use crate::names::{Env, NameSet, lookup};
use crate::sigma::Op;
use crate::denote::{Expr, denote};
use crate::term::{Node, Term, TermBuilder};
use crate::text::{
    copy_range, drop_leading_exec, drop_leading_lit_exec, eq, find_char, has, lit_is, owned,
    push_chars, push_lit, split_first_word, split_once, split_str_exec, starts, strip_prefix,
    trim_brackets_exec, trim_exec, words, words_exec, wrap, trim, drop_leading, drop_leading_lit,
    trim_brackets, split_str, has_char, first_char_at, starts_with, contains,
};

verus! {

pub struct Phi {
    pub dst: Vec<char>,
    pub ty: Vec<char>,
    /// (incoming value, predecessor label)
    pub inc: Vec<(Vec<char>, Vec<char>)>,
}

pub enum BlockEnd {
    Ret(Vec<char>),
    Br(Vec<char>),
    CondBr { cond: Vec<char>, a: Vec<char>, b: Vec<char> },
}

pub struct Block {
    pub label: Vec<char>,
    pub phis: Vec<Phi>,
    pub insts: Vec<Vec<char>>,
    pub term: BlockEnd,
}

/// A refusal from the fold recognizer: `P2 fold recognition: ` + reason.
pub fn refuse(msg: &str) -> (e: LiftError)
    ensures
        (e matches LiftError::Refused(m) && m@ == "P2 fold recognition: "@ + msg@),
{
    let mut m = owned("P2 fold recognition: ");
    push_lit(&mut m, msg);
    LiftError::Refused(m)
}

fn refuse_wrap(a: &str, cs: &[char], b: &str) -> (e: LiftError)
    ensures
        (e matches LiftError::Refused(m) && m@ == "P2 fold recognition: "@ + a@ + cs@ + b@),
{
    let mut m = owned("P2 fold recognition: ");
    push_lit(&mut m, a);
    push_chars(&mut m, cs);
    push_lit(&mut m, b);
    LiftError::Refused(m)
}

fn clone_chars(v: &Vec<char>) -> (r: Vec<char>)
    ensures
        r@ == v@,
{
    copy_range(v, 0, v.len())
}

// ---------------------------------------------------------------- params --

/// Parameter roles: `&[f64]` arrives as a (ptr, i64) pair; bare doubles are
/// scalar variables.
pub struct ParamRoles {
    /// sequence base pointer name → sequence index
    pub seq_ptrs: Env,
    /// slice length names (index machinery)
    pub lens: Vec<Vec<char>>,
    /// scalar names, in variable order
    pub scalars: Vec<Vec<char>>,
}

/// Parameter roles read so far: sequence pointers (name → sequence index),
/// the number of sequences, slice lengths, scalars, and whether a pointer
/// still waits for its length.
pub type RolesV = (Seq<(Seq<char>, u32)>, nat, Seq<Seq<char>>, Seq<Seq<char>>, bool);

/// One more parameter read into the roles; `None` where it is refused.
pub open spec fn role_step(st: RolesV, p: Seq<char>) -> Option<RolesV> {
    let (sp, n, lens, scalars, expect_len) = st;
    let toks = words(p);
    match crate::lift::last_pct(toks) {
        None => None,
        Some(j) => if toks.len() == 0 || toks[j].len() == 0 {
            None
        } else {
            let name = toks[j].skip(1);
            let ty = toks[0];
            if ty == "ptr"@ && !expect_len {
                let known = lookup(sp, name) is Some;
                if !known && n == u32::MAX {
                    None
                } else {
                    Some(
                        (
                            sp.push((name, n as u32)),
                            if known {
                                n
                            } else {
                                n + 1
                            },
                            lens,
                            scalars,
                            true,
                        ),
                    )
                }
            } else if ty == "i64"@ && expect_len {
                Some((sp, n, lens.push(name), scalars, false))
            } else if ty == "double"@ && !expect_len {
                Some((sp, n, lens, scalars.push(name), expect_len))
            } else {
                None
            }
        },
    }
}

/// The parameters read one after another.
pub open spec fn roles_run(ps: Seq<Seq<char>>) -> Option<RolesV>
    decreases ps.len(),
{
    if ps.len() == 0 {
        Some((Seq::empty(), 0, Seq::empty(), Seq::empty(), false))
    } else {
        match roles_run(ps.drop_last()) {
            Some(st) => role_step(st, ps.last()),
            None => None,
        }
    }
}

/// The parameter list read into roles, before the checks on what was read.
pub open spec fn param_list_roles(sig: Seq<char>) -> Option<RolesV> {
    if !crate::text::has_char(sig, '(') || !crate::text::has_char(sig, ')') {
        None
    } else {
        let open = choose|i: int| crate::text::first_char_at(sig, '(', i);
        let close = choose|i: int| crate::text::last_char_at(sig, ')', i);
        if close <= open {
            None
        } else {
            roles_run(crate::lex::spec_split_top(sig.subrange(open + 1, close)))
        }
    }
}

/// The roles of a loop function's parameters: every `ptr` followed by its
/// `i64` length (a `&[f64]`), the rest `double` scalars, at least one
/// sequence.
pub open spec fn param_roles(sig: Seq<char>) -> Option<
    (Seq<(Seq<char>, u32)>, Seq<Seq<char>>, Seq<Seq<char>>),
> {
    match param_list_roles(sig) {
        Some((sp, n, lens, scalars, expect_len)) => if expect_len || n == 0 {
            None
        } else {
            Some((sp, lens, scalars))
        },
        None => None,
    }
}

/// The refusal of a loop whose parameters hold no sequence: its trip count
/// is data, not a length.
pub open spec fn no_sequence_message() -> Seq<char> {
    "P2 fold recognition: "@
        + "loop over no sequence parameter -- Term_p folds iterate a runtime LENGTH; a loop whose trip count is f64 data (e.g. `while x > lim`) has no Sigma reading. P2 recovers slice Folds (ptr+i64 params)"@
}

/// A prefix of the parameters that already fails makes the list fail.
proof fn lemma_roles_run_prefix(ps: Seq<Seq<char>>, k: int)
    requires
        0 <= k <= ps.len(),
        roles_run(ps.take(k)) is None,
    ensures
        roles_run(ps) is None,
    decreases ps.len(),
{
    if k == ps.len() {
        assert(ps.take(k) =~= ps);
    } else {
        assert(ps.drop_last().take(k) =~= ps.take(k));
        lemma_roles_run_prefix(ps.drop_last(), k);
    }
}

/// A parameter that the roles before it cannot take makes the list fail.
proof fn lemma_roles_stop(ps: Seq<Seq<char>>, k: int, st: RolesV)
    requires
        0 < k <= ps.len(),
        roles_run(ps.take(k - 1)) == Some(st),
        role_step(st, ps[k - 1]) is None,
    ensures
        roles_run(ps) is None,
{
    assert(ps.take(k).drop_last() =~= ps.take(k - 1));
    lemma_roles_run_prefix(ps, k);
}

pub fn classify_params(sig: &[char]) -> (r: Result<ParamRoles, LiftError>)
    ensures
        not_missing(r),
        param_roles(sig@) is None ==> r is Err,
        r matches Ok(pr) ==> param_roles(sig@) == Some(
            (pr.seq_ptrs.view(), vecs_view(pr.lens@), vecs_view(pr.scalars@)),
        ),
        param_list_roles(sig@) matches Some(st) && !st.4 && st.1 == 0 ==> (r matches Err(
            LiftError::Refused(m),
        ) && m@ == no_sequence_message()),
{
    let open = match find_char(sig, '(') {
        Some(i) => i,
        None => return Err(parse_lit("no `(`")),
    };
    let close = match crate::text::rfind_char(sig, ')') {
        Some(i) => i,
        None => return Err(parse_lit("no `)`")),
    };
    proof {
        crate::lex::lemma_first_char_unique(sig@, '(', open as int, choose|i: int|
            crate::text::first_char_at(sig@, '(', i));
        crate::lex::lemma_last_char_unique(sig@, ')', close as int, choose|i: int|
            crate::text::last_char_at(sig@, ')', i));
    }
    if close <= open {
        return Err(parse_lit("no `)` after `(`"));
    }
    let inner = copy_range(sig, open + 1, close);
    let ps = split_top(&inner);
    let ghost pv = vecs_view(ps@);
    let mut seq_ptrs = Env::new();
    let mut nseq: u32 = 0;
    let mut lens: Vec<Vec<char>> = Vec::new();
    let mut scalars: Vec<Vec<char>> = Vec::new();
    let mut expect_len = false;
    let mut k: usize = 0;
    assert(pv.take(0) =~= Seq::<Seq<char>>::empty());
    assert(vecs_view(lens@) =~= Seq::<Seq<char>>::empty());
    assert(vecs_view(scalars@) =~= Seq::<Seq<char>>::empty());
    assert(inner@ =~= sig@.subrange(open + 1, close as int));
    assert(param_list_roles(sig@) == roles_run(pv));
    while k < ps.len()
        invariant
            param_list_roles(sig@) == roles_run(pv),
            k <= ps@.len(),
            pv == vecs_view(ps@),
            roles_run(pv.take(k as int)) == Some(
                (
                    seq_ptrs.view(),
                    nseq as nat,
                    vecs_view(lens@),
                    vecs_view(scalars@),
                    expect_len,
                ),
            ),
        decreases ps@.len() - k,
    {
        let ghost stb = (seq_ptrs.view(), nseq as nat, vecs_view(lens@), vecs_view(scalars@), expect_len);
        let p = &ps[k];
        proof {
            assert(pv.take(k + 1).drop_last() =~= pv.take(k as int));
            assert(pv[k as int] == p@);
        }
        let toks = words_exec(p);
        let ghost tv = toks@.map_values(|v: Vec<char>| v@);
        let pt = trim_exec(p);
        let mut found: Option<usize> = None;
        let mut j: usize = 0;
        assert(tv.take(0) =~= Seq::<Seq<char>>::empty());
        while j < toks.len()
            invariant
                j <= toks@.len(),
                found matches Some(f) ==> f < toks@.len(),
                tv == toks@.map_values(|v: Vec<char>| v@),
                crate::lift::last_pct(tv.take(j as int)) == match found {
                    Some(f) => Some(f as int),
                    None => None::<int>,
                },
            decreases toks@.len() - j,
        {
            proof {
                assert(tv.take(j + 1).drop_last() =~= tv.take(j as int));
                assert(tv[j as int] == toks@[j as int]@);
            }
            if starts(&toks[j], "%") {
                found = Some(j);
            }
            j += 1;
        }
        assert(tv.take(j as int) =~= tv);
        if toks.len() == 0 || found.is_none() {
            proof {
                lemma_roles_stop(pv, k + 1, stb);
            }
            return Err(parse_err("param `", &pt, "`"));
        }
        let ntok = &toks[found.unwrap()];
        proof {
            assert(tv[found->0 as int] == ntok@);
            assert(tv[0] == toks@[0]@);
        }
        if ntok.len() == 0 {
            proof {
                lemma_roles_stop(pv, k + 1, stb);
            }
            return Err(parse_err("param `", &pt, "`"));
        }
        let name = copy_range(ntok, 1, ntok.len());
        assert(name@ =~= ntok@.skip(1));
        let ty = &toks[0];
        if lit_is(ty, "ptr") && !expect_len {
            let known = seq_ptrs.get(&name).is_some();
            if !known && nseq == u32::MAX {
                proof {
                    lemma_roles_stop(pv, k + 1, stb);
                }
                return Err(too_large());
            }
            seq_ptrs.insert(name, nseq);
            if !known {
                nseq = nseq + 1;
            }
            expect_len = true;
        } else if lit_is(ty, "i64") && expect_len {
            let ghost prev = vecs_view(lens@);
            lens.push(name);
            assert(vecs_view(lens@) =~= prev.push(ntok@.skip(1)));
            expect_len = false;
        } else if lit_is(ty, "double") && !expect_len {
            let ghost prev = vecs_view(scalars@);
            scalars.push(name);
            assert(vecs_view(scalars@) =~= prev.push(ntok@.skip(1)));
        } else {
            proof {
                lemma_roles_stop(pv, k + 1, stb);
            }
            return Err(refuse_wrap(
                "parameter `",
                &pt,
                "` -- P2 admits `&[f64]` (ptr+i64 pairs) and f64 scalars; anything else is P3 territory",
            ));
        }
        k += 1;
    }
    assert(pv.take(k as int) =~= pv);
    if expect_len {
        return Err(refuse("trailing ptr without its i64 length -- not a slice pair"));
    }
    if nseq == 0 {
        return Err(refuse(
            "loop over no sequence parameter -- Term_p folds iterate a runtime LENGTH; a loop whose trip count is f64 data (e.g. `while x > lim`) has no Sigma reading. P2 recovers slice Folds (ptr+i64 params)",
        ));
    }
    Ok(ParamRoles { seq_ptrs, lens, scalars })
}

// ---------------------------------------------------------------- blocks --

// ----------------------------------------------------------- block views --

/// A block's terminator, as text.
pub enum EndV {
    Ret(Seq<char>),
    Br(Seq<char>),
    CondBr(Seq<char>, Seq<char>, Seq<char>),
}

pub open spec fn end_view(e: BlockEnd) -> EndV {
    match e {
        BlockEnd::Ret(v) => EndV::Ret(v@),
        BlockEnd::Br(l) => EndV::Br(l@),
        BlockEnd::CondBr { cond, a, b } => EndV::CondBr(cond@, a@, b@),
    }
}

/// A phi: destination, type, and (incoming value, predecessor) arms.
pub type PhiV = (Seq<char>, Seq<char>, Seq<(Seq<char>, Seq<char>)>);

pub open spec fn arms_view(inc: Seq<(Vec<char>, Vec<char>)>) -> Seq<(Seq<char>, Seq<char>)> {
    inc.map_values(|x: (Vec<char>, Vec<char>)| (x.0@, x.1@))
}

pub open spec fn phi_view(p: Phi) -> PhiV {
    (p.dst@, p.ty@, arms_view(p.inc@))
}

pub open spec fn phis_view(ps: Seq<Phi>) -> Seq<PhiV> {
    ps.map_values(|p: Phi| phi_view(p))
}

/// A branch target `label %name` → `name`.
pub open spec fn label_text(s: Seq<char>) -> Seq<char> {
    drop_leading(trim(drop_leading_lit(trim(s), "label "@)), '%')
}

/// The arms of a phi, `[ v, %pred ]` each, split apart.
pub open spec fn arms_run(arms: Seq<Seq<char>>) -> Option<Seq<(Seq<char>, Seq<char>)>>
    decreases arms.len(),
{
    if arms.len() == 0 {
        Some(Seq::empty())
    } else {
        match arms_run(arms.drop_last()) {
            None => None,
            Some(inc) => {
                let a = trim_brackets(arms.last());
                if !has_char(a, ',') {
                    None
                } else {
                    let k = choose|k: int| first_char_at(a, ',', k);
                    Some(inc.push((trim(a.take(k)), drop_leading(trim(a.skip(k + 1)), '%'))))
                }
            },
        }
    }
}

/// A block read so far: its phis, its other instructions, its terminator.
pub type ParseSt = (Seq<PhiV>, Seq<Seq<char>>, Option<EndV>);

/// One `%d = phi T [ … ], [ … ]` line read into the block.
pub open spec fn phi_line(st: ParseSt, line: Seq<char>) -> Option<ParseSt> {
    let (phis, insts, term) = st;
    if !has_char(line, '=') {
        None
    } else {
        let i = choose|i: int| first_char_at(line, '=', i);
        let rt = trim(line.skip(i + 1));
        if !starts_with(rt, "phi "@) {
            None
        } else {
            let rest = rt.skip("phi "@.len() as int);
            if !has_char(rest, '[') {
                None
            } else {
                let fb = choose|j: int| first_char_at(rest, '[', j);
                match arms_run(split_str(rest.skip(fb), "], ["@)) {
                    None => None,
                    Some(inc) => if insts.len() > 0 {
                        None
                    } else {
                        Some(
                            (
                                phis.push(
                                    (drop_leading(trim(line.take(i)), '%'), trim(rest.take(fb)), inc),
                                ),
                                insts,
                                term,
                            ),
                        )
                    },
                }
            }
        }
    }
}

/// The operands of a branch, without a trailing metadata attachment
/// (`, !prof !5`, `, !llvm.loop !7`).
pub open spec fn br_parts(s: Seq<char>) -> Seq<Seq<char>> {
    let parts = spec_split_top(s);
    if parts.len() > 1 && starts_with(trim(parts.last()), "!"@) {
        parts.drop_last()
    } else {
        parts
    }
}

/// The refusal of a block that ends in `unreachable`: the path of a panic
/// or a failed assert, which makes the function partial.
pub open spec fn panic_path_message(label: Seq<char>) -> Seq<char> {
    "P2 fold recognition: block `%"@ + label
        + "` ends in `unreachable` -- a panic/assert path; partial functions are refused (totality)"@
}

/// One block line read: a terminator (the last one read wins), a phi, or
/// an instruction.
pub open spec fn block_line(st: ParseSt, line: Seq<char>) -> Option<ParseSt> {
    let (phis, insts, term) = st;
    if starts_with(line, "unreachable"@) {
        None
    } else if starts_with(line, "ret "@) {
        Some((phis, insts, Some(EndV::Ret(trim(line.skip("ret "@.len() as int))))))
    } else if starts_with(line, "br "@) {
        let parts = br_parts(line.skip("br "@.len() as int));
        if parts.len() == 1 {
            let p0 = trim(parts[0]);
            if starts_with(p0, "label "@) {
                Some(
                    (
                        phis,
                        insts,
                        Some(EndV::Br(drop_leading(trim(p0.skip("label "@.len() as int)), '%'))),
                    ),
                )
            } else {
                None
            }
        } else if parts.len() == 3 {
            let p0 = trim(parts[0]);
            if starts_with(p0, "i1 "@) {
                Some(
                    (
                        phis,
                        insts,
                        Some(
                            EndV::CondBr(
                                drop_leading(trim(p0.skip("i1 "@.len() as int)), '%'),
                                label_text(parts[1]),
                                label_text(parts[2]),
                            ),
                        ),
                    ),
                )
            } else {
                None
            }
        } else {
            None
        }
    } else if contains(line, "= phi "@) {
        phi_line(st, line)
    } else {
        Some((phis, insts.push(line), term))
    }
}

/// The lines of a block read one after another.
pub open spec fn block_lines(ls: Seq<Seq<char>>) -> Option<ParseSt>
    decreases ls.len(),
{
    if ls.len() == 0 {
        Some((Seq::empty(), Seq::empty(), None))
    } else {
        match block_lines(ls.drop_last()) {
            Some(st) => block_line(st, ls.last()),
            None => None,
        }
    }
}

/// A prefix of a block's lines that already fails makes the block fail.
proof fn lemma_block_lines_prefix(ls: Seq<Seq<char>>, k: int)
    requires
        0 <= k <= ls.len(),
        block_lines(ls.take(k)) is None,
    ensures
        block_lines(ls) is None,
    decreases ls.len(),
{
    if k == ls.len() {
        assert(ls.take(k) =~= ls);
    } else {
        assert(ls.drop_last().take(k) =~= ls.take(k));
        lemma_block_lines_prefix(ls.drop_last(), k);
    }
}

/// A line that the state before it cannot take makes the block fail.
proof fn lemma_block_lines_stop(ls: Seq<Seq<char>>, k: int, st: ParseSt)
    requires
        0 < k <= ls.len(),
        block_lines(ls.take(k - 1)) == Some(st),
        block_line(st, ls[k - 1]) is None,
    ensures
        block_lines(ls) is None,
{
    assert(ls.take(k).drop_last() =~= ls.take(k - 1));
    lemma_block_lines_prefix(ls, k);
}

/// A prefix of a phi's arms that already fails makes the arm list fail.
proof fn lemma_arms_run_prefix(arms: Seq<Seq<char>>, k: int)
    requires
        0 <= k <= arms.len(),
        arms_run(arms.take(k)) is None,
    ensures
        arms_run(arms) is None,
    decreases arms.len(),
{
    if k == arms.len() {
        assert(arms.take(k) =~= arms);
    } else {
        assert(arms.drop_last().take(k) =~= arms.take(k));
        lemma_arms_run_prefix(arms.drop_last(), k);
    }
}

/// A line other than `unreachable` that the state before it cannot take:
/// the block fails, and no `unreachable` line is ever reached in it.
proof fn lemma_stop_before(ls: Seq<Seq<char>>, k: int, st: ParseSt)
    requires
        0 < k <= ls.len(),
        block_lines(ls.take(k - 1)) == Some(st),
        block_line(st, ls[k - 1]) is None,
        !starts_with(ls[k - 1], "unreachable"@),
    ensures
        block_lines(ls) is None,
        !exists|k0: int|
            0 <= k0 < ls.len() && block_lines(ls.take(k0)) is Some && starts_with(
                #[trigger] ls[k0],
                "unreachable"@,
            ),
{
    lemma_block_lines_stop(ls, k, st);
    assert(ls.take(k).drop_last() =~= ls.take(k - 1));
    assert forall|k0: int|
        0 <= k0 < ls.len() && block_lines(ls.take(k0)) is Some implies !starts_with(
        #[trigger] ls[k0],
        "unreachable"@,
    ) by {
        if starts_with(ls[k0], "unreachable"@) {
            assert(ls.take(k0 + 1).drop_last() =~= ls.take(k0));
            if k0 < k - 1 {
                assert(ls.take(k - 1).take(k0 + 1) =~= ls.take(k0 + 1));
                lemma_block_lines_prefix(ls.take(k - 1), k0 + 1);
            } else if k0 >= k {
                assert(ls.take(k0).take(k) =~= ls.take(k));
                lemma_block_lines_prefix(ls.take(k0), k);
            }
        }
    }
}

/// A block read to its end reaches no `unreachable` line.
proof fn lemma_read_to_end(ls: Seq<Seq<char>>)
    requires
        block_lines(ls) is Some,
    ensures
        !exists|k0: int|
            0 <= k0 < ls.len() && block_lines(ls.take(k0)) is Some && starts_with(
                #[trigger] ls[k0],
                "unreachable"@,
            ),
{
    assert forall|k0: int|
        0 <= k0 < ls.len() && block_lines(ls.take(k0)) is Some implies !starts_with(
        #[trigger] ls[k0],
        "unreachable"@,
    ) by {
        if starts_with(ls[k0], "unreachable"@) {
            assert(ls.take(k0 + 1).drop_last() =~= ls.take(k0));
            lemma_block_lines_prefix(ls, k0 + 1);
        }
    }
}

fn label_of(s: &[char]) -> (r: Vec<char>)
    ensures
        r@ == label_text(s@),
{
    let t = trim_exec(s);
    let u = drop_leading_lit_exec(&t, "label ");
    let v = trim_exec(&u);
    drop_leading_exec(&v, '%')
}

pub open spec fn opt_end(t: Option<BlockEnd>) -> Option<EndV> {
    match t {
        Some(e) => Some(end_view(e)),
        None => None,
    }
}

/// Read one raw block: its phis (which must come first), its instructions,
/// and its terminator.
pub fn parse_block(rb: &RawBlock) -> (r: Result<Block, LiftError>)
    ensures
        not_missing(r),
        r matches Ok(bl) ==> bl.label@ == rb.label@,
        !(block_lines(vecs_view(rb.lines@)) matches Some(st) && st.2 is Some) ==> r is Err,
        block_lines(vecs_view(rb.lines@)) matches Some(st) && st.2 is Some ==> r is Ok,
        r matches Ok(bl) ==> block_lines(vecs_view(rb.lines@)) == Some(
            (phis_view(bl.phis@), vecs_view(bl.insts@), Some(end_view(bl.term))),
        ),
        r matches Err(e) ==> ((e is Refused) <==> exists|k: int|
            0 <= k < rb.lines@.len() && block_lines(vecs_view(rb.lines@).take(k)) is Some
                && starts_with(#[trigger] vecs_view(rb.lines@)[k], "unreachable"@)),
        r matches Err(LiftError::Refused(m)) ==> m@ == panic_path_message(rb.label@),
{
    let ghost lv = vecs_view(rb.lines@);
    let mut phis: Vec<Phi> = Vec::new();
    let mut insts: Vec<Vec<char>> = Vec::new();
    let mut term: Option<BlockEnd> = None;
    let mut k: usize = 0;
    assert(lv.take(0) =~= Seq::<Seq<char>>::empty());
    assert(phis_view(phis@) =~= Seq::<PhiV>::empty());
    assert(vecs_view(insts@) =~= Seq::<Seq<char>>::empty());
    while k < rb.lines.len()
        invariant
            k <= rb.lines@.len(),
            lv == vecs_view(rb.lines@),
            block_lines(lv.take(k as int)) == Some(
                (phis_view(phis@), vecs_view(insts@), opt_end(term)),
            ),
        decreases rb.lines@.len() - k,
    {
        let ghost stb = (phis_view(phis@), vecs_view(insts@), opt_end(term));
        let line = &rb.lines[k];
        proof {
            assert(lv.take(k + 1).drop_last() =~= lv.take(k as int));
            assert(lv[k as int] == line@);
        }
        k += 1;
        if starts(line, "unreachable") {
            proof {
                lemma_block_lines_stop(lv, k as int, stb);
            }
            let mut m = owned("P2 fold recognition: block `%");
            push_chars(&mut m, &rb.label);
            push_lit(
                &mut m,
                "` ends in `unreachable` -- a panic/assert path; partial functions are refused (totality)",
            );
            return Err(LiftError::Refused(m));
        }
        if let Some(rest) = strip_prefix(line, "ret ") {
            term = Some(BlockEnd::Ret(trim_exec(&rest)));
        } else if let Some(rest) = strip_prefix(line, "br ") {
            let parts = split_top(&rest);
            let last_meta = if parts.len() > 1 {
                let lt = trim_exec(&parts[parts.len() - 1]);
                starts(&lt, "!")
            } else {
                false
            };
            let np = if last_meta {
                parts.len() - 1
            } else {
                parts.len()
            };
            proof {
                let pv = vecs_view(parts@);
                if parts@.len() > 1 {
                    assert(parts@[parts@.len() - 1]@ == pv.last());
                }
                assert(parts@.len() >= 1 ==> parts@[0]@ == pv[0]);
                assert(parts@.len() >= 3 ==> parts@[1]@ == pv[1]);
                assert(parts@.len() >= 3 ==> parts@[2]@ == pv[2]);
                assert(np == br_parts(rest@).len());
                assert(np >= 1 ==> br_parts(rest@)[0] == pv[0]);
                assert(np >= 3 ==> br_parts(rest@)[1] == pv[1] && br_parts(rest@)[2] == pv[2]);
            }
            if np == 1 {
                let p0 = trim_exec(&parts[0]);
                let lab = match strip_prefix(&p0, "label ") {
                    Some(l) => l,
                    None => {
                        proof {
                            lemma_stop_before(lv, k as int, stb);
                        }
                        return Err(parse_err("br: `", line, "`"));
                    },
                };
                let lt = trim_exec(&lab);
                term = Some(BlockEnd::Br(drop_leading_exec(&lt, '%')));
            } else if np == 3 {
                let p0 = trim_exec(&parts[0]);
                let c = match strip_prefix(&p0, "i1 ") {
                    Some(c) => c,
                    None => {
                        proof {
                            lemma_stop_before(lv, k as int, stb);
                        }
                        return Err(parse_err("br: `", line, "`"));
                    },
                };
                let ct = trim_exec(&c);
                let cond = drop_leading_exec(&ct, '%');
                term = Some(
                    BlockEnd::CondBr { cond, a: label_of(&parts[1]), b: label_of(&parts[2]) },
                );
            } else {
                proof {
                    lemma_stop_before(lv, k as int, stb);
                }
                return Err(parse_err("br: `", line, "`"));
            }
        } else if has(line, "= phi ") {
            let (dst, rhs) = match split_once(line, '=') {
                Some(p) => p,
                None => {
                    proof {
                        lemma_stop_before(lv, k as int, stb);
                    }
                    return Err(parse_err("phi: `", line, "`"));
                },
            };
            proof {
                let w = choose|w: int|
                    first_char_at(line@, '=', w) && dst@ == line@.take(w) && rhs@ == line@.skip(
                        w + 1,
                    );
                crate::lex::lemma_first_char_unique(line@, '=', w, choose|i: int|
                    first_char_at(line@, '=', i));
            }
            let rt = trim_exec(&rhs);
            let rest = match strip_prefix(&rt, "phi ") {
                Some(r) => r,
                None => {
                    proof {
                        lemma_stop_before(lv, k as int, stb);
                    }
                    return Err(parse_err("phi: `", line, "`"));
                },
            };
            let fb = match find_char(&rest, '[') {
                Some(i) => i,
                None => {
                    proof {
                        lemma_stop_before(lv, k as int, stb);
                    }
                    return Err(parse_err("phi: `", line, "`"));
                },
            };
            proof {
                crate::lex::lemma_first_char_unique(rest@, '[', fb as int, choose|j: int|
                    first_char_at(rest@, '[', j));
            }
            let ty_raw = copy_range(&rest, 0, fb);
            let ty = trim_exec(&ty_raw);
            let arms_text = copy_range(&rest, fb, rest.len());
            assert(ty_raw@ =~= rest@.take(fb as int));
            assert(arms_text@ =~= rest@.skip(fb as int));
            proof {
                reveal_strlit("], [");
            }
            let arms = split_str_exec(&arms_text, "], [");
            let ghost av = arms@.map_values(|v: Vec<char>| v@);
            let mut inc: Vec<(Vec<char>, Vec<char>)> = Vec::new();
            let mut j: usize = 0;
            assert(av.take(0) =~= Seq::<Seq<char>>::empty());
            assert(arms_view(inc@) =~= Seq::<(Seq<char>, Seq<char>)>::empty());
            assert(arms_run(av) is None ==> block_line(stb, line@) is None);
            while j < arms.len()
                invariant
                    arms_run(av) is None ==> block_line(stb, line@) is None,
                    0 < k <= lv.len(),
                    lv == vecs_view(rb.lines@),
                    block_lines(lv.take(k - 1)) == Some(stb),
                    lv[k - 1] == line@,
                    !starts_with(lv[k - 1], "unreachable"@),
                    j <= arms@.len(),
                    av == arms@.map_values(|v: Vec<char>| v@),
                    arms_run(av.take(j as int)) == Some(arms_view(inc@)),
                decreases arms@.len() - j,
            {
                proof {
                    assert(av.take(j + 1).drop_last() =~= av.take(j as int));
                    assert(av[j as int] == arms@[j as int]@);
                }
                let arm = trim_brackets_exec(&arms[j]);
                let (v, l) = match split_once(&arm, ',') {
                    Some(p) => p,
                    None => {
                        proof {
                            assert(av.take(j + 1).last() == av[j as int]);
                            lemma_arms_run_prefix(av, j + 1);
                            lemma_stop_before(lv, k as int, stb);
                        }
                        return Err(parse_err("phi arm `", &arm, "`"));
                    },
                };
                proof {
                    let w = choose|w: int|
                        first_char_at(arm@, ',', w) && v@ == arm@.take(w) && l@ == arm@.skip(
                            w + 1,
                        );
                    crate::lex::lemma_first_char_unique(arm@, ',', w, choose|i: int|
                        first_char_at(arm@, ',', i));
                }
                let lt = trim_exec(&l);
                let ghost prev = arms_view(inc@);
                inc.push((trim_exec(&v), drop_leading_exec(&lt, '%')));
                assert(arms_view(inc@) =~= prev.push(
                    (trim(v@), drop_leading(trim(l@), '%')),
                ));
                j += 1;
            }
            assert(av.take(j as int) =~= av);
            if insts.len() > 0 {
                proof {
                    lemma_stop_before(lv, k as int, stb);
                }
                return Err(parse_lit("phi after instructions"));
            }
            let dt = trim_exec(&dst);
            let ghost prev = phis_view(phis@);
            let ph = Phi { dst: drop_leading_exec(&dt, '%'), ty, inc };
            phis.push(ph);
            assert(phis_view(phis@) =~= prev.push(phi_view(ph)));
        } else {
            let ghost prev = vecs_view(insts@);
            let c = clone_chars(line);
            insts.push(c);
            assert(vecs_view(insts@) =~= prev.push(line@));
        }
    }
    assert(lv.take(k as int) =~= lv);
    match term {
        Some(t) => Ok(Block { label: clone_chars(&rb.label), phis, insts, term: t }),
        None => {
            proof {
                lemma_read_to_end(lv);
            }
            Err(parse_err("block `", &rb.label, "` has no terminator"))
        },
    }
}

/// Integer index machinery — recorded, never interpreted.
pub open spec fn int_machinery(rhs: Seq<char>) -> bool {
    let head = crate::lift::head_of(rhs);
    ||| head == "icmp"@ || head == "zext"@ || head == "sext"@ || head == "trunc"@
    ||| head == "add"@ || head == "sub"@ || head == "mul"@ || head == "udiv"@ || head == "sdiv"@
    ||| head == "or"@ || head == "and"@ || head == "xor"@ || head == "shl"@ || head == "lshr"@
        || head == "ashr"@
    ||| (crate::text::contains(rhs, "call"@) && (crate::text::contains(rhs, " i64 @llvm."@)
        || crate::text::contains(rhs, " i1 @llvm."@)))
    ||| (crate::text::starts_with(rhs, "select i1"@) && crate::text::contains(rhs, ", i64 "@))
}

pub fn is_int_machinery(rhs: &[char]) -> (r: bool)
    ensures
        r == int_machinery(rhs@),
{
    let head: Vec<char> = match split_first_word(rhs) {
        Some((w, _)) => w,
        None => Vec::new(),
    };
    assert(head@ == crate::lift::head_of(rhs@));
    lit_is(&head, "icmp") || lit_is(&head, "zext") || lit_is(&head, "sext") || lit_is(
        &head,
        "trunc",
    ) || lit_is(&head, "add") || lit_is(&head, "sub") || lit_is(&head, "mul") || lit_is(
        &head,
        "udiv",
    ) || lit_is(&head, "sdiv") || lit_is(&head, "or") || lit_is(&head, "and") || lit_is(
        &head,
        "xor",
    ) || lit_is(&head, "shl") || lit_is(&head, "lshr") || lit_is(&head, "ashr") || (has(
        rhs,
        "call",
    ) && (has(rhs, " i64 @llvm.") || has(rhs, " i1 @llvm."))) || (starts(rhs, "select i1")
        && has(rhs, ", i64 "))
}

/// Void metadata/hint calls that carry no dataflow.
pub open spec fn void_hint(line: Seq<char>) -> bool {
    crate::text::contains(line, " void @llvm."@) && (crate::text::contains(line, "assume"@)
        || crate::text::contains(line, "noalias.scope.decl"@) || crate::text::contains(
        line,
        "lifetime"@,
    ) || crate::text::contains(line, "experimental"@))
}

pub fn is_void_hint(line: &[char]) -> (r: bool)
    ensures
        r == void_hint(line@),
{
    has(line, " void @llvm.") && (has(line, "assume") || has(line, "noalias.scope.decl") || has(
        line,
        "lifetime",
    ) || has(line, "experimental"))
}

// ------------------------------------------------------------------ pass --

/// Read one block's instructions: index machinery is recorded in `ints`,
/// sequence reads become `Elem`, length conversions become `Len`, and
/// everything else must be Σ-liftable f64 dataflow.
/// The operand of an integer-to-float conversion: the token after the
/// first `i64` token, without its `%` (empty where there is none).
pub open spec fn conv_operand(toks: Seq<Seq<char>>) -> Seq<char>
    decreases toks.len(),
{
    if toks.len() < 2 {
        Seq::empty()
    } else if toks[0] == "i64"@ {
        drop_leading(toks[1], '%')
    } else {
        conv_operand(toks.drop_first())
    }
}

/// The position of the first length parameter named `x`.
pub open spec fn first_len(lens: Seq<Seq<char>>, x: Seq<char>) -> Option<int>
    decreases lens.len(),
{
    if lens.len() == 0 {
        None
    } else if lens[0] == x {
        Some(0)
    } else {
        match first_len(lens.drop_first(), x) {
            Some(i) => Some(i + 1),
            None => None,
        }
    }
}

proof fn lemma_first_len_bound(lens: Seq<Seq<char>>, x: Seq<char>)
    ensures
        first_len(lens, x) matches Some(i) ==> 0 <= i < lens.len() && lens[i] == x,
    decreases lens.len(),
{
    if lens.len() > 0 && lens[0] != x {
        lemma_first_len_bound(lens.drop_first(), x);
    }
}

/// The refusal of a conversion whose operand is no sequence length.
pub open spec fn int_to_float_message(x: Seq<char>) -> Seq<char> {
    "P2 fold recognition: "@ + "int->float of `%"@ + x
        + "` which is not a sequence length -- Sigma fold bodies are index-blind (Acc/Elem/Len only); index-dependent values are on the roadmap"@
}

/// An integer-to-float conversion in a fold body: the conversion of the
/// `k`-th length parameter is the node `Len(k)`; any other is index-dependent
/// data and is refused.
pub fn int_to_float(rhs: &[char], lens: &Vec<Vec<char>>, b: &mut TermBuilder) -> (r: Result<
    u32,
    LiftError,
>)
    requires
        old(b).inv(),
    ensures
        final(b).inv(),
        grows(*old(b), *final(b)),
        match first_len(vecs_view(lens@), conv_operand(words(rhs@))) {
            Some(k) => if old(b).has_room(1) && k <= 0xffff_fffe {
                r matches Ok(id) && id == old(b).nodes@.len() && final(b).nodes@ == old(b).nodes@.push(
                    Node { op: Op::Len, a: k as u32, b: 0, c: 0 },
                ) && final(b).consts@ == old(b).consts@
            } else {
                r matches Err(e) && crate::lift::is_too_large(e) && *final(b) == *old(b)
            },
            None => r matches Err(LiftError::Refused(m)) && m@ == int_to_float_message(
                conv_operand(words(rhs@)),
            ) && *final(b) == *old(b),
        },
{
    proof {
        lemma_grows_refl(*b);
    }
    let toks = words_exec(rhs);
    let ghost tv = toks@.map_values(|v: Vec<char>| v@);
    let mut opnd: Vec<char> = Vec::new();
    let mut t: usize = 0;
    let mut seen_i64 = false;
    assert(tv.skip(0) =~= tv);
    while t < toks.len()
        invariant_except_break
            t <= toks@.len(),
            tv == toks@.map_values(|v: Vec<char>| v@),
            !seen_i64 ==> conv_operand(tv) == conv_operand(tv.skip(t as int)),
            seen_i64 ==> t >= 1 && tv[t - 1] == "i64"@ && conv_operand(tv) == conv_operand(
                tv.skip(t - 1),
            ),
            opnd@ == Seq::<char>::empty(),
        invariant
            tv == toks@.map_values(|v: Vec<char>| v@),
        ensures
            opnd@ == conv_operand(tv),
        decreases toks@.len() - t,
    {
        if seen_i64 {
            proof {
                assert(tv.skip(t - 1)[0] == tv[t - 1]);
                assert(tv.skip(t - 1)[1] == tv[t as int]);
                assert(tv[t as int] == toks@[t as int]@);
            }
            opnd = drop_leading_exec(&toks[t], '%');
            break;
        }
        proof {
            assert(tv.skip(t as int).drop_first() =~= tv.skip(t + 1));
            assert(tv.skip(t as int)[0] == tv[t as int]);
            assert(tv[t as int] == toks@[t as int]@);
        }
        if lit_is(&toks[t], "i64") {
            seen_i64 = true;
        }
        t += 1;
        proof {
            if !seen_i64 {
                assert(tv.skip(t as int).len() < 2 ==> conv_operand(tv.skip(t as int))
                    == Seq::<char>::empty());
            }
        }
        if t == toks.len() {
            proof {
                if seen_i64 {
                    assert(tv.skip(t - 1).len() == 1);
                } else {
                    assert(tv.skip(t as int).len() == 0);
                }
            }
            break;
        }
    }
    let ghost lv = vecs_view(lens@);
    let mut pos: Option<usize> = None;
    let mut q: usize = 0;
    assert(lv.skip(0) =~= lv);
    while q < lens.len()
        invariant_except_break
            q <= lens@.len(),
            lv == vecs_view(lens@),
            pos is None,
            first_len(lv, opnd@) == match first_len(lv.skip(q as int), opnd@) {
                Some(i) => Some(i + q),
                None => None,
            },
        invariant
            lv == vecs_view(lens@),
        ensures
            pos matches Some(p) ==> first_len(lv, opnd@) == Some(p as int),
            pos is None ==> first_len(lv, opnd@) is None,
        decreases lens@.len() - q,
    {
        proof {
            assert(lv.skip(q as int)[0] == lv[q as int]);
            assert(lv[q as int] == lens@[q as int]@);
            assert(lv.skip(q as int).drop_first() =~= lv.skip(q + 1));
        }
        if eq(&lens[q], &opnd) {
            pos = Some(q);
            break;
        }
        q += 1;
    }
    match pos {
        Some(kk) => {
            if !b.room(1) || kk > 0xffff_fffe {
                return Err(too_large());
            }
            let id = b.len_of(kk as u32);
            proof {
                assert(old(b).nodes@ =~= b.nodes@.take(old(b).nodes@.len() as int));
                assert(old(b).consts@ =~= b.consts@.take(old(b).consts@.len() as int));
            }
            Ok(id)
        },
        None => Err(refuse_wrap(
            "int->float of `%",
            &opnd,
            "` which is not a sequence length -- Sigma fold bodies are index-blind (Acc/Elem/Len only); index-dependent values are on the roadmap",
        )),
    }
}

/// What a fold or branch body has read so far: the values of its f64 SSA
/// names, its integer index names, and its element addresses (SSA name →
/// sequence index).
pub type PassSt = (Map<Seq<char>, Expr>, Seq<Seq<char>>, Seq<(Seq<char>, u32)>);

/// The text after the first occurrence of `l` in `s`.
pub open spec fn after_first(s: Seq<char>, l: Seq<char>) -> Seq<char> {
    s.subrange((choose|i: int| crate::text::first_occurrence(s, l, i)) + l.len(), s.len() as int)
}

/// The base pointer and index of an element address
/// `getelementptr double, ptr %base, i64 %idx`.
pub open spec fn gep_parts(rest: Seq<char>) -> Option<(Seq<char>, Seq<char>)> {
    if !contains(rest, "double,"@) {
        None
    } else {
        let args = spec_split_top(after_first(rest, "double,"@));
        let a0 = trim(args[0]);
        if !starts_with(a0, "ptr "@) || args.len() < 2 {
            None
        } else {
            let a1 = trim(args[1]);
            if !starts_with(a1, "i64 "@) {
                None
            } else {
                Some(
                    (
                        drop_leading(trim(a0.skip("ptr "@.len() as int)), '%'),
                        drop_leading(trim(a1.skip("i64 "@.len() as int)), '%'),
                    ),
                )
            }
        }
    }
}

/// The address a `load double, ptr %src, …` reads.
pub open spec fn load_src(rest: Seq<char>) -> Option<Seq<char>> {
    if !starts_with(rest, "double, ptr "@) {
        None
    } else {
        Some(
            drop_leading(
                trim(crate::text::split_on(rest.skip("double, ptr "@.len() as int), ',')[0]),
                '%',
            ),
        )
    }
}

/// One instruction line of a body read into the state; `None` where it is
/// refused or does not parse.
pub open spec fn pass_step(
    st: PassSt,
    line: Seq<char>,
    seq_ptrs: Seq<(Seq<char>, u32)>,
    lens: Seq<Seq<char>>,
    in_loop: bool,
) -> Option<PassSt> {
    let (m, ints, geps) = st;
    if void_hint(line) {
        Some(st)
    } else if !has_char(line, '=') {
        None
    } else {
        let i = choose|i: int| first_char_at(line, '=', i);
        let dst = drop_leading(trim(line.take(i)), '%');
        let rhs = trim(line.skip(i + 1));
        if int_machinery(rhs) {
            Some((m, ints.push(dst), geps))
        } else if starts_with(rhs, "getelementptr "@) {
            if !in_loop {
                None
            } else {
                match gep_parts(rhs.skip("getelementptr "@.len() as int)) {
                    Some((base, idx)) => match lookup(seq_ptrs, base) {
                        Some(k) => if ints.contains(idx) {
                            Some((m, ints, geps.push((dst, k))))
                        } else {
                            None
                        },
                        None => None,
                    },
                    None => None,
                }
            }
        } else if starts_with(rhs, "load "@) {
            match load_src(rhs.skip("load "@.len() as int)) {
                Some(src) => match lookup(geps, src) {
                    Some(k) => Some((m.insert(dst, Expr::Leaf(Op::Elem, k)), ints, geps)),
                    None => None,
                },
                None => None,
            }
        } else if starts_with(rhs, "store "@) || starts_with(rhs, "alloca"@) {
            None
        } else if starts_with(rhs, "uitofp"@) || starts_with(rhs, "sitofp"@) {
            match first_len(lens, conv_operand(words(rhs))) {
                Some(k) => if k <= 0xffff_fffe {
                    Some((m.insert(dst, Expr::Leaf(Op::Len, k as u32)), ints, geps))
                } else {
                    None
                },
                None => None,
            }
        } else {
            match crate::lift::inst_val(rhs, m) {
                Some(v) => Some((m.insert(dst, v), ints, geps)),
                None => None,
            }
        }
    }
}

/// The lines of a body read one after another.
pub open spec fn pass_run(
    lines: Seq<Seq<char>>,
    st0: PassSt,
    seq_ptrs: Seq<(Seq<char>, u32)>,
    lens: Seq<Seq<char>>,
    in_loop: bool,
) -> Option<PassSt>
    decreases lines.len(),
{
    if lines.len() == 0 {
        Some(st0)
    } else {
        match pass_run(lines.drop_last(), st0, seq_ptrs, lens, in_loop) {
            Some(st) => pass_step(st, lines.last(), seq_ptrs, lens, in_loop),
            None => None,
        }
    }
}

proof fn lemma_pass_run_prefix(
    lines: Seq<Seq<char>>,
    st0: PassSt,
    seq_ptrs: Seq<(Seq<char>, u32)>,
    lens: Seq<Seq<char>>,
    in_loop: bool,
    k: int,
)
    requires
        0 <= k <= lines.len(),
        pass_run(lines.take(k), st0, seq_ptrs, lens, in_loop) is None,
    ensures
        pass_run(lines, st0, seq_ptrs, lens, in_loop) is None,
    decreases lines.len(),
{
    if k == lines.len() {
        assert(lines.take(k) =~= lines);
    } else {
        assert(lines.drop_last().take(k) =~= lines.take(k));
        lemma_pass_run_prefix(lines.drop_last(), st0, seq_ptrs, lens, in_loop, k);
    }
}

/// A line that the state before it cannot take makes the whole body fail.
proof fn lemma_pass_stop(
    lines: Seq<Seq<char>>,
    st0: PassSt,
    seq_ptrs: Seq<(Seq<char>, u32)>,
    lens: Seq<Seq<char>>,
    in_loop: bool,
    k: int,
    st: PassSt,
)
    requires
        0 < k <= lines.len(),
        pass_run(lines.take(k - 1), st0, seq_ptrs, lens, in_loop) == Some(st),
        pass_step(st, lines[k - 1], seq_ptrs, lens, in_loop) is None,
    ensures
        pass_run(lines, st0, seq_ptrs, lens, in_loop) is None,
{
    assert(lines.take(k).drop_last() =~= lines.take(k - 1));
    lemma_pass_run_prefix(lines, st0, seq_ptrs, lens, in_loop, k);
}

proof fn lemma_first_occurrence_unique(s: Seq<char>, l: Seq<char>, i: int, j: int)
    requires
        crate::text::first_occurrence(s, l, i),
        crate::text::first_occurrence(s, l, j),
    ensures
        i == j,
{
}

pub fn pass(
    block: &Block,
    seq_ptrs: &Env,
    lens: &Vec<Vec<char>>,
    fenv: &mut Env,
    ints: &mut NameSet,
    geps: &mut Env,
    in_loop: bool,
    b: &mut TermBuilder,
) -> (r: Result<(), LiftError>)
    requires
        old(b).inv(),
        old(fenv).below(old(b).nodes@.len()),
    ensures
        not_missing(r),
        grows(*old(b), *final(b)),
        final(fenv).below(final(b).nodes@.len()),
        pass_run(
            vecs_view(block.insts@),
            (crate::lift::vals(old(fenv).view(), *old(b)), old(ints).view(), old(geps).view()),
            seq_ptrs.view(),
            vecs_view(lens@),
            in_loop,
        ) is None ==> r is Err,
        r is Ok ==> pass_run(
            vecs_view(block.insts@),
            (crate::lift::vals(old(fenv).view(), *old(b)), old(ints).view(), old(geps).view()),
            seq_ptrs.view(),
            vecs_view(lens@),
            in_loop,
        ) == Some(
            (crate::lift::vals(final(fenv).view(), *final(b)), final(ints).view(), final(geps).view()),
        ),
        pass_run(
            vecs_view(block.insts@),
            (crate::lift::vals(old(fenv).view(), *old(b)), old(ints).view(), old(geps).view()),
            seq_ptrs.view(),
            vecs_view(lens@),
            in_loop,
        ) is Some && old(b).has_room(4 * block.insts@.len()) ==> r is Ok,
{
    proof {
        lemma_grows_refl(*b);
    }
    let ghost lv = vecs_view(block.insts@);
    let ghost sp = seq_ptrs.view();
    let ghost lnv = vecs_view(lens@);
    let ghost st0 = (crate::lift::vals(fenv.view(), *b), ints.view(), geps.view());
    let mut k: usize = 0;
    assert(lv.take(0) =~= Seq::<Seq<char>>::empty());
    while k < block.insts.len()
        invariant
            k <= block.insts@.len(),
            grows(*old(b), *b),
            fenv.below(b.nodes@.len()),
            lv == vecs_view(block.insts@),
            sp == seq_ptrs.view(),
            lnv == vecs_view(lens@),
            st0 == (crate::lift::vals(old(fenv).view(), *old(b)), old(ints).view(), old(geps).view()),
            pass_run(lv.take(k as int), st0, sp, lnv, in_loop) == Some(
                (crate::lift::vals(fenv.view(), *b), ints.view(), geps.view()),
            ),
            b.nodes@.len() <= old(b).nodes@.len() + 4 * k,
            b.consts@.len() <= old(b).consts@.len() + 4 * k,
        decreases block.insts@.len() - k,
    {
        let ghost stk = (crate::lift::vals(fenv.view(), *b), ints.view(), geps.view());
        let ghost ev0 = fenv.view();
        proof {
            assert(lv.take(k + 1).drop_last() =~= lv.take(k as int));
            assert(lv[k as int] == block.insts@[k as int]@);
            assert forall|j: int| 0 <= j < ev0.len() implies ev0[j].1 < b.nodes@.len() by {
                assert(ev0[j].1 == fenv.entries@[j].1);
            }
        }
        let line = &block.insts[k];
        k += 1;
        if is_void_hint(line) {
            continue;
        }
        let (dst_raw, rhs_raw) = match split_once(line, '=') {
            Some(p) => p,
            None => {
                proof {
                    lemma_pass_stop(lv, st0, sp, lnv, in_loop, k as int, stk);
                }
                return Err(parse_err("unrecognized: `", line, "`"));
            },
        };
        proof {
            let w = choose|w: int|
                first_char_at(line@, '=', w) && dst_raw@ == line@.take(w) && rhs_raw@ == line@.skip(
                    w + 1,
                );
            crate::lex::lemma_first_char_unique(line@, '=', w, choose|j: int|
                first_char_at(line@, '=', j));
        }
        let dt = trim_exec(&dst_raw);
        let dst = drop_leading_exec(&dt, '%');
        let rhs = trim_exec(&rhs_raw);
        if is_int_machinery(&rhs) {
            ints.insert(dst);
            continue;
        }
        if let Some(rest) = strip_prefix(&rhs, "getelementptr ") {
            if !in_loop {
                proof {
                    lemma_pass_stop(lv, st0, sp, lnv, in_loop, k as int, stk);
                }
                return Err(refuse("address computation outside the loop -- P3"));
            }
            let after_ty = match find_sub_after(&rest, "double,") {
                Some(a) => a,
                None => {
                    proof {
                        lemma_pass_stop(lv, st0, sp, lnv, in_loop, k as int, stk);
                    }
                    return Err(refuse("gep on a non-double element -- P3"));
                },
            };
            proof {
                let i = choose|i: int|
                    crate::text::first_occurrence(rest@, "double,"@, i) && after_ty@ == rest@.subrange(
                        i + "double,"@.len(),
                        rest@.len() as int,
                    );
                lemma_first_occurrence_unique(rest@, "double,"@, i, choose|j: int|
                    crate::text::first_occurrence(rest@, "double,"@, j));
                assert(after_ty@ == after_first(rest@, "double,"@));
            }
            let args = split_top(&after_ty);
            proof {
                assert(args@[0]@ == vecs_view(args@)[0]);
                if args@.len() >= 2 {
                    assert(args@[1]@ == vecs_view(args@)[1]);
                }
            }
            let a0 = trim_exec(&args[0]);
            let base = match strip_prefix(&a0, "ptr ") {
                Some(x) => {
                    let xt = trim_exec(&x);
                    drop_leading_exec(&xt, '%')
                },
                None => {
                    proof {
                        lemma_pass_stop(lv, st0, sp, lnv, in_loop, k as int, stk);
                    }
                    return Err(parse_err("gep: `", line, "`"));
                },
            };
            if args.len() < 2 {
                proof {
                    lemma_pass_stop(lv, st0, sp, lnv, in_loop, k as int, stk);
                }
                return Err(parse_err("gep: `", line, "`"));
            }
            let a1 = trim_exec(&args[1]);
            let idx = match strip_prefix(&a1, "i64 ") {
                Some(x) => {
                    let xt = trim_exec(&x);
                    drop_leading_exec(&xt, '%')
                },
                None => {
                    proof {
                        lemma_pass_stop(lv, st0, sp, lnv, in_loop, k as int, stk);
                    }
                    return Err(parse_err("gep: `", line, "`"));
                },
            };
            let k_seq = match seq_ptrs.get(&base) {
                Some(s) => s,
                None => {
                    proof {
                        lemma_pass_stop(lv, st0, sp, lnv, in_loop, k as int, stk);
                    }
                    return Err(refuse_wrap(
                        "gep off `%",
                        &base,
                        "` which is not a sequence parameter -- P3",
                    ));
                },
            };
            if !ints.contains(&idx) {
                proof {
                    lemma_pass_stop(lv, st0, sp, lnv, in_loop, k as int, stk);
                }
                return Err(refuse_wrap(
                    "gep index `%",
                    &idx,
                    "` is not induction machinery -- offset/windowed indexing is on the roadmap",
                ));
            }
            geps.insert(dst, k_seq);
            continue;
        }
        if let Some(rest) = strip_prefix(&rhs, "load ") {
            let src = match strip_prefix(&rest, "double, ptr ") {
                Some(x) => {
                    let pieces = crate::text::split_char(&x, ',');
                    proof {
                        assert(pieces@[0]@ == pieces@.map_values(|v: Vec<char>| v@)[0]);
                    }
                    let first = trim_exec(&pieces[0]);
                    drop_leading_exec(&first, '%')
                },
                None => {
                    proof {
                        lemma_pass_stop(lv, st0, sp, lnv, in_loop, k as int, stk);
                    }
                    return Err(refuse("load of a non-double -- P3"));
                },
            };
            let k_seq = match geps.get(&src) {
                Some(s) => s,
                None => {
                    proof {
                        lemma_pass_stop(lv, st0, sp, lnv, in_loop, k as int, stk);
                    }
                    return Err(refuse_wrap(
                        "load from `%",
                        &src,
                        "` which is not a recognized sequence read -- P3",
                    ));
                },
            };
            if !b.room(1) {
                return Err(too_large());
            }
            let ghost b0 = *b;
            let e = b.elem(k_seq);
            assert(b0.nodes@ =~= b.nodes@.take(b0.nodes@.len() as int));
            assert(b0.consts@ =~= b.consts@.take(b0.consts@.len() as int));
            proof {
                lemma_grows_trans(*old(b), b0, *b);
                crate::lift::lemma_vals_stable_view(ev0, b0, *b);
                crate::lift::lemma_vals_insert(ev0, *b, dst@, e);
                assert(crate::lift::den(*b, e as int) == Expr::Leaf(Op::Elem, k_seq));
            }
            fenv.insert(dst, e);
            continue;
        }
        if starts(&rhs, "store ") || starts(&rhs, "alloca") {
            proof {
                lemma_pass_stop(lv, st0, sp, lnv, in_loop, k as int, stk);
            }
            return Err(refuse("memory write -- P3 (side-effect slicing)"));
        }
        if starts(&rhs, "uitofp") || starts(&rhs, "sitofp") {
            // `uitofp` of a LENGTH param is Len(k); any other int→float
            // conversion is index-dependent data with no Σ reading
            let ghost b0 = *b;
            let id = match int_to_float(&rhs, lens, b) {
                Ok(id) => id,
                Err(e) => {
                    proof {
                        if !(first_len(lnv, conv_operand(words(rhs@))) matches Some(kk)
                            && kk <= 0xffff_fffe) {
                            lemma_pass_stop(lv, st0, sp, lnv, in_loop, k as int, stk);
                        }
                    }
                    return Err(e);
                },
            };
            proof {
                lemma_grows_trans(*old(b), b0, *b);
                crate::lift::lemma_vals_stable_view(ev0, b0, *b);
                crate::lift::lemma_vals_insert(ev0, *b, dst@, id);
            }
            fenv.insert(dst, id);
            continue;
        }
        // otherwise it must be Σ-liftable f64 dataflow (the P1 machinery)
        let ghost b0 = *b;
        match instruction(&rhs, fenv, b) {
            Ok(id) => {
                proof {
                    lemma_grows_trans(*old(b), b0, *b);
                    crate::lift::lemma_vals_stable_view(ev0, b0, *b);
                    crate::lift::lemma_vals_insert(ev0, *b, dst@, id);
                }
                fenv.insert(dst, id);
            },
            Err(e) => {
                proof {
                    lemma_grows_trans(*old(b), b0, *b);
                    if crate::lift::inst_val(rhs@, stk.0) is None {
                        lemma_pass_stop(lv, st0, sp, lnv, in_loop, k as int, stk);
                    }
                }
                if let LiftError::Parse(m) = &e {
                    let mc = crate::text::chars_of(m.as_str());
                    if has(&mc, "unbound SSA value") {
                        let mut msg = owned("P2 fold recognition: `");
                        push_chars(&mut msg, line);
                        push_lit(&mut msg, "` mixes the integer index world into f64 dataflow (");
                        push_chars(&mut msg, &mc);
                        push_lit(
                            &mut msg,
                            ") -- Sigma fold bodies are index-blind; index-dependent values are on the roadmap",
                        );
                        return Err(LiftError::Refused(msg));
                    }
                }
                return Err(e);
            },
        }
    }
    assert(lv.take(k as int) =~= lv);
    Ok(())
}

/// The text after the first occurrence of the literal `l`.
fn find_sub_after(s: &[char], l: &str) -> (r: Option<Vec<char>>)
    ensures
        r is None <==> !crate::text::contains(s@, l@),
        r matches Some(v) ==> exists|i: int|
            crate::text::first_occurrence(s@, l@, i) && v@ == s@.subrange(i + l@.len(), s@.len() as int),
{
    let lc = crate::text::chars_of(l);
    let n = s.len();
    match crate::text::find(s, &lc) {
        Some(i) => {
            proof {
                assert(crate::text::occurs_at(s@, lc@, i as int));
            }
            let v = copy_range(s, i + lc.len(), n);
            assert(crate::text::first_occurrence(s@, l@, i as int));
            Some(v)
        },
        None => None,
    }
}

// ------------------------------------------------------------ lift_fold --

/// The first block with label `label`.
fn find_block(blocks: &Vec<Block>, label: &[char]) -> (r: Option<usize>)
    ensures
        r matches Some(i) ==> i < blocks@.len() && blocks@[i as int].label@ == label@ && forall|
            j: int,
        |
            0 <= j < i ==> blocks@[j].label@ != label@,
        r is None ==> forall|j: int| 0 <= j < blocks@.len() ==> blocks@[j].label@ != label@,
{
    let mut i: usize = 0;
    while i < blocks.len()
        invariant
            i <= blocks@.len(),
            forall|j: int| 0 <= j < i ==> blocks@[j].label@ != label@,
        decreases blocks@.len() - i,
    {
        if eq(&blocks[i].label, label) {
            return Some(i);
        }
        i += 1;
    }
    None
}

/// The block's conditional branch has itself as a target.
fn self_loops(bl: &Block) -> (r: bool)
    ensures
        r == (bl.term matches BlockEnd::CondBr { cond, a, b } && (a@ == bl.label@ || b@
            == bl.label@)),
{
    match &bl.term {
        BlockEnd::CondBr { a, b, .. } => eq(a, &bl.label) || eq(b, &bl.label),
        _ => false,
    }
}

/// The block ends in an unconditional branch to `label`.
fn br_to(bl: &Block, label: &[char]) -> (r: bool)
    ensures
        r == (bl.term matches BlockEnd::Br(l) && l@ == label@),
{
    match &bl.term {
        BlockEnd::Br(l) => eq(l, label),
        _ => false,
    }
}

fn decimal_msg(a: &str, n: usize, b: &str) -> (e: LiftError)
    ensures
        e matches LiftError::Refused(m) && m@ == "P2 fold recognition: "@ + a@ + decimal(n as nat)
            + b@,
{
    let d = decimal_exec(n);
    refuse_wrap(a, &d, b)
}

/// A raw block's terminator, as it parses.
pub open spec fn raw_end(rb: RawBlock) -> EndV {
    match block_lines(vecs_view(rb.lines@)) {
        Some((_, _, Some(e))) => e,
        _ => EndV::Ret(Seq::empty()),
    }
}

pub open spec fn raw_ends(raw: Seq<RawBlock>) -> EndsV {
    raw.map_values(|rb: RawBlock| (rb.label@, raw_end(rb)))
}

/// Reading a raw block reaches an `unreachable` line.
pub open spec fn reaches_unreachable(rb: RawBlock) -> bool {
    exists|k: int|
        0 <= k < rb.lines@.len() && block_lines(vecs_view(rb.lines@).take(k)) is Some && starts_with(
            #[trigger] vecs_view(rb.lines@)[k],
            "unreachable"@,
        )
}

/// The sequence pointers of a loop function's parameters.
pub open spec fn role_ptrs(sig: Seq<char>) -> Seq<(Seq<char>, u32)> {
    match param_roles(sig) {
        Some((sp, _, _)) => sp,
        None => Seq::empty(),
    }
}

/// The slice lengths of a loop function's parameters.
pub open spec fn role_lens(sig: Seq<char>) -> Seq<Seq<char>> {
    match param_roles(sig) {
        Some((_, lens, _)) => lens,
        None => Seq::empty(),
    }
}

/// The instructions of a raw block, as it parses.
pub open spec fn raw_insts(rb: RawBlock) -> Seq<Seq<char>> {
    match block_lines(vecs_view(rb.lines@)) {
        Some((_, insts, _)) => insts,
        None => Seq::empty(),
    }
}

/// Block `x` is the first that ends in a return.
pub open spec fn first_ret(raw: Seq<RawBlock>, x: int) -> bool {
    &&& 0 <= x < raw.len()
    &&& raw_end(raw[x]) is Ret
    &&& forall|j: int| 0 <= j < x ==> !(raw_end(#[trigger] raw[j]) is Ret)
}

/// The operand of a `ret double <operand>` terminator.
pub open spec fn ret_operand(e: EndV) -> Seq<char> {
    match e {
        EndV::Ret(p) => trim(trim(p).skip("double"@.len() as int)),
        _ => Seq::empty(),
    }
}

/// A raw block reads into phis, instructions and a terminator.
pub open spec fn block_parses(rb: RawBlock) -> bool {
    block_lines(vecs_view(rb.lines@)) matches Some(st) && st.2 is Some
}

/// A raw block whose conditional branch targets the block itself.
pub open spec fn raw_self_loop(rb: RawBlock) -> bool {
    block_lines(vecs_view(rb.lines@)) matches Some((_, _, Some(EndV::CondBr(_, a, b)))) && (a
        == rb.label@ || b == rb.label@)
}

/// The loop recognizer. Dispatch: a multi-block CFG without a back-edge is
/// branching straight-line code (`lift_acyclic`); otherwise it must be the
/// canonical counted loop, which becomes one Σ Fold.
/// Every raw block parsed, in order; the first that does not parse stops
/// the reading with its error.
fn parse_blocks(raw: &Vec<RawBlock>) -> (r: Result<Vec<Block>, LiftError>)
    ensures
        not_missing(r),
        r is Err ==> exists|i: int| 0 <= i < raw@.len() && !block_parses(#[trigger] raw@[i]),
        forall|i: int|
            0 <= i < raw@.len() && (forall|j: int| 0 <= j < i ==> block_parses(#[trigger] raw@[j]))
                && reaches_unreachable(#[trigger] raw@[i]) ==> (r matches Err(LiftError::Refused(m))
                && m@ == panic_path_message(raw@[i].label@)),
        r matches Ok(blocks) ==> {
            &&& blocks@.len() == raw@.len()
            &&& forall|j: int| 0 <= j < raw@.len() ==> block_parses(#[trigger] raw@[j])
            &&& forall|j: int| 0 <= j < raw@.len() ==> #[trigger] block_ends(blocks@)[j] == raw_ends(raw@)[j]
            &&& forall|j: int|
                0 <= j < raw@.len() ==> block_lines(vecs_view(#[trigger] raw@[j].lines@)) == Some(
                    (phis_view(blocks@[j].phis@), vecs_view(blocks@[j].insts@), Some(end_view(blocks@[j].term))),
                )
            &&& forall|j: int|
                0 <= j < raw@.len() ==> raw_self_loop(#[trigger] raw@[j]) == (blocks@[j].term matches BlockEnd::CondBr {
                    cond,
                    a,
                    b,
                } && (a@ == blocks@[j].label@ || b@ == blocks@[j].label@))
            &&& forall|i: int| 0 <= i < raw@.len() ==> !reaches_unreachable(#[trigger] raw@[i])
        },
{
    let mut blocks: Vec<Block> = Vec::new();
    let mut k: usize = 0;
    while k < raw.len()
        invariant
            k <= raw@.len(),
            blocks@.len() == k,
            forall|j: int| 0 <= j < k ==> block_parses(#[trigger] raw@[j]),
            forall|j: int| 0 <= j < k ==> #[trigger] block_ends(blocks@)[j] == raw_ends(raw@)[j],
            forall|j: int|
                0 <= j < k ==> block_lines(vecs_view(#[trigger] raw@[j].lines@)) == Some(
                    (phis_view(blocks@[j].phis@), vecs_view(blocks@[j].insts@), Some(end_view(blocks@[j].term))),
                ),
            forall|j: int|
                0 <= j < k ==> raw_self_loop(#[trigger] raw@[j]) == (blocks@[j].term matches BlockEnd::CondBr {
                    cond,
                    a,
                    b,
                } && (a@ == blocks@[j].label@ || b@ == blocks@[j].label@)),
        decreases raw@.len() - k,
    {
        let bl = match parse_block(&raw[k]) {
            Ok(bl) => bl,
            Err(e) => {
                assert(!block_parses(raw@[k as int]));
                proof {
                    assert forall|i: int|
                        0 <= i < raw@.len() && (forall|j: int|
                            0 <= j < i ==> block_parses(#[trigger] raw@[j])) && reaches_unreachable(
                            #[trigger] raw@[i],
                        ) implies i == k as int by {
                        if i < k {
                            let ls = vecs_view(raw@[i].lines@);
                            let k0 = choose|k0: int|
                                0 <= k0 < ls.len() && block_lines(ls.take(k0)) is Some && starts_with(
                                    #[trigger] ls[k0],
                                    "unreachable"@,
                                );
                            assert(ls.take(k0 + 1).drop_last() =~= ls.take(k0));
                            lemma_block_lines_prefix(ls, k0 + 1);
                            assert(block_parses(raw@[i]));
                        } else if i > k {
                            assert(block_parses(raw@[k as int]));
                        }
                    }
                }
                return Err(e);
            },
        };
        let ghost before = blocks@;
        blocks.push(bl);
        proof {
            assert forall|j: int| 0 <= j <= k implies #[trigger] block_ends(blocks@)[j] == raw_ends(
                raw@,
            )[j] by {
                if j < k {
                    assert(blocks@[j] == before[j]);
                    assert(block_ends(before)[j] == block_ends(blocks@)[j]);
                }
            }
            assert forall|j: int| 0 <= j <= k implies block_lines(vecs_view(#[trigger] raw@[j].lines@))
                == Some(
                (phis_view(blocks@[j].phis@), vecs_view(blocks@[j].insts@), Some(end_view(blocks@[j].term))),
            ) by {
                if j < k {
                    assert(blocks@[j] == before[j]);
                }
            }
        }
        k += 1;
    }
    proof {
        assert forall|i: int| 0 <= i < raw@.len() implies !reaches_unreachable(#[trigger] raw@[i]) by {
            assert(block_parses(raw@[i]));
            lemma_read_to_end(vecs_view(raw@[i].lines@));
        }
    }
    Ok(blocks)
}

#[verifier::rlimit(100)]
#[verifier::spinoff_prover]
#[verifier::loop_isolation(false)]
pub fn lift_fold(sig: &[char], raw: &Vec<RawBlock>) -> (r: Result<Term, LiftError>)
    ensures
        r matches Ok(t) ==> t.wf(),
        r matches Ok(t) ==> ((exists|i: int| 0 <= i < raw@.len() && raw_self_loop(#[trigger] raw@[i]))
            ==> exists|x: int, st0: PassSt, st1: PassSt|
            #![trigger first_ret(raw@, x), pass_run(raw_insts(raw@[x]), st0, role_ptrs(sig@), role_lens(sig@), false), st1.0]
            first_ret(raw@, x) && param_roles(sig@) is Some && pass_run(
                raw_insts(raw@[x]),
                st0,
                role_ptrs(sig@),
                role_lens(sig@),
                false,
            ) == Some(st1) && crate::lift::operand_val(ret_operand(raw_end(raw@[x])), st1.0)
                == Some(denote(t.nodes@, crate::term::lits_view(t.consts@), t.root as int))),
        not_missing(r),
        (exists|i: int| 0 <= i < raw@.len() && !block_parses(#[trigger] raw@[i])) ==> r is Err,
        forall|i: int|
            0 <= i < raw@.len() && (forall|j: int| 0 <= j < i ==> block_parses(#[trigger] raw@[j]))
                && reaches_unreachable(#[trigger] raw@[i]) ==> (r matches Err(LiftError::Refused(m))
                && m@ == panic_path_message(raw@[i].label@)),
        (forall|i: int| 0 <= i < raw@.len() ==> block_parses(#[trigger] raw@[i])) && (exists|
            i: int,
        | 0 <= i < raw@.len() && raw_self_loop(#[trigger] raw@[i])) ==> (if raw@.len() < 3
            || raw@.len() > 5 {
            r matches Err(LiftError::Refused(m)) && m@ == "P2 fold recognition: "@ + decimal(
                raw@.len(),
            )
                + " basic blocks -- the canonical counted loop is entry -> (preheader?) -> loop -> (LCSSA tail?) -> merge (3-5). Runtime-unrolled or nested control flow refuses (P2 covers the single natural loop); re-emit with -C llvm-args=--unroll-runtime=false or wait for P3"@
        } else {
            param_list_roles(sig@) matches Some(st) && !st.4 && st.1 == 0 ==> (r matches Err(
                LiftError::Refused(m),
            ) && m@ == no_sequence_message())
        }),
        (forall|i: int| 0 <= i < raw@.len() ==> block_parses(#[trigger] raw@[i])) && (forall|i: int|
            0 <= i < raw@.len() ==> !raw_self_loop(#[trigger] raw@[i])) && crate::lift::param_names(
            sig@,
        ) is Some && raw@.len() < 0xffff_ffff && well_targeted(raw_ends(raw@)) && ret_count(
            raw_ends(raw@),
        ) != 1 ==> (r matches Err(LiftError::Refused(m)) && (m@ == cyclic_message() || m@
            == multi_exit_message(ret_count(raw_ends(raw@))))),
{
    let blocks = parse_blocks(raw)?;
    let mut lp_idx: Option<usize> = None;
    let mut i: usize = 0;
    while i < blocks.len()
        invariant
            i <= blocks@.len(),
            lp_idx matches Some(x) ==> x < blocks@.len() && (blocks@[x as int].term matches BlockEnd::CondBr {
                cond,
                a,
                b,
            } && (a@ == blocks@[x as int].label@ || b@ == blocks@[x as int].label@)),
            lp_idx is None ==> forall|j: int|
                0 <= j < i ==> !(#[trigger] blocks@[j].term matches BlockEnd::CondBr { cond, a, b } && (
                a@ == blocks@[j].label@ || b@ == blocks@[j].label@)),
        decreases blocks@.len() - i,
    {
        if lp_idx.is_none() && self_loops(&blocks[i]) {
            lp_idx = Some(i);
        }
        i += 1;
    }
    let lp_i = match lp_idx {
        Some(x) => x,
        None => {
            assert(forall|j: int| 0 <= j < raw@.len() ==> !raw_self_loop(#[trigger] raw@[j]));
            assert(block_ends(blocks@) =~= raw_ends(raw@));
            return lift_acyclic(sig, &blocks);
        },
    };
    assert(raw_self_loop(raw@[lp_i as int]));
    let nraw = raw.len();
    if nraw < 3 || nraw > 5 {
        proof {
            reveal_strlit("");
            assert(""@ =~= Seq::<char>::empty());
        }
        return Err(decimal_msg(
            "",
            nraw,
            " basic blocks -- the canonical counted loop is entry -> (preheader?) -> loop -> (LCSSA tail?) -> merge (3-5). Runtime-unrolled or nested control flow refuses (P2 covers the single natural loop); re-emit with -C llvm-args=--unroll-runtime=false or wait for P3",
        ));
    }
    let roles = classify_params(sig)?;
    let lp = &blocks[lp_i];
    let entry = &blocks[0];
    let mut exit_idx: Option<usize> = None;
    let mut j: usize = 0;
    while j < blocks.len()
        invariant
            j <= blocks@.len(),
            exit_idx matches Some(x) ==> x < blocks@.len() && blocks@[x as int].term is Ret && forall|
                y: int,
            | 0 <= y < x ==> !(#[trigger] blocks@[y].term is Ret),
            exit_idx is None ==> forall|y: int| 0 <= y < j ==> !(#[trigger] blocks@[y].term is Ret),
        decreases blocks@.len() - j,
    {
        if exit_idx.is_none() {
            if let BlockEnd::Ret(_) = &blocks[j].term {
                exit_idx = Some(j);
            }
        }
        j += 1;
    }
    let exit = match exit_idx {
        Some(x) => &blocks[x],
        None => return Err(parse_lit("no ret block")),
    };
    let ghost ex = exit_idx->0 as int;
    proof {
        assert forall|y: int| 0 <= y < ex implies !(raw_end(#[trigger] raw@[y]) is Ret) by {
            assert(block_ends(blocks@)[y] == raw_ends(raw@)[y]);
            assert(block_ends(blocks@)[y].1 == end_view(blocks@[y].term));
        }
        assert(block_ends(blocks@)[ex] == raw_ends(raw@)[ex]);
        assert(first_ret(raw@, ex));
        assert(raw_insts(raw@[ex]) == vecs_view(blocks@[ex].insts@));
        assert(raw_end(raw@[ex]) == end_view(blocks@[ex].term));
    }
    let loop_exit_target: Vec<char> = match &lp.term {
        BlockEnd::CondBr { a, b, .. } => if eq(a, &lp.label) {
            clone_chars(b)
        } else {
            clone_chars(a)
        },
        _ => return Err(refuse("the loop block does not end in a conditional branch")),
    };
    // optional LCSSA tail: post-loop f64 straight-line, then an
    // unconditional br to the merge
    let tail: Option<usize> = if !eq(&loop_exit_target, &exit.label) {
        let t = match find_block(&blocks, &loop_exit_target) {
            Some(t) => t,
            None => return Err(parse_lit("dangling loop exit label")),
        };
        if blocks[t].phis.len() > 0 || !br_to(&blocks[t], &exit.label) {
            return Err(refuse(
                "the loop's exit block is not a straight-line tail into the merge -- nested or multi-exit control flow is P3",
            ));
        }
        Some(t)
    } else {
        None
    };
    if entry.phis.len() > 0 {
        return Err(refuse("entry block has phis -- merged control flow before the loop"));
    }
    if eq(&entry.label, &lp.label) || eq(&entry.label, &exit.label) || eq(&lp.label, &exit.label) {
        return Err(refuse("entry/loop/exit roles are not three distinct blocks"));
    }
    // optional PREHEADER: entry guards to {exit, X} where X != loop; X must
    // be phi-free straight-line falling through to the loop
    let preheader: Option<usize> = match &entry.term {
        BlockEnd::CondBr { a, b, .. } => {
            if !eq(a, b) && (eq(a, &exit.label) || eq(b, &exit.label)) {
                let into = if eq(a, &exit.label) {
                    b
                } else {
                    a
                };
                if eq(into, &lp.label) {
                    None
                } else {
                    let ph = match find_block(&blocks, into) {
                        Some(p) => p,
                        None => return Err(parse_lit("dangling entry target")),
                    };
                    if blocks[ph].phis.len() > 0 || !br_to(&blocks[ph], &lp.label) {
                        return Err(refuse(
                            "the block between the guard and the loop is not a straight-line preheader -- nested control flow is P3",
                        ));
                    }
                    Some(ph)
                }
            } else {
                return Err(refuse("entry must guard-branch to {loop|preheader, exit}"));
            }
        },
        _ => return Err(refuse("entry must guard-branch to {loop|preheader, exit}")),
    };
    // every block must have a recognized role
    let expected: usize = 3 + (if preheader.is_some() {
        1
    } else {
        0
    }) + (if tail.is_some() {
        1
    } else {
        0
    });
    if nraw != expected {
        let d = decimal_exec(nraw);
        let e = decimal_exec(expected);
        let mut m = owned("P2 fold recognition: ");
        push_chars(&mut m, &d);
        push_lit(&mut m, " blocks but only ");
        push_chars(&mut m, &e);
        push_lit(&mut m, " recognized roles -- unaccounted control flow is P3");
        return Err(LiftError::Refused(m));
    }
    let mut b = TermBuilder::new();
    let mut fenv = Env::new();
    let mut ints = NameSet::new();
    let mut q: usize = 0;
    while q < roles.lens.len()
        invariant
            q <= roles.lens@.len(),
        decreases roles.lens@.len() - q,
    {
        ints.insert(clone_chars(&roles.lens[q]));
        q += 1;
    }
    let mut s: usize = 0;
    while s < roles.scalars.len()
        invariant
            s <= roles.scalars@.len(),
            b.inv(),
            b.nodes@.len() == s,
            fenv.below(b.nodes@.len()),
        decreases roles.scalars@.len() - s,
    {
        if !b.room(1) {
            return Err(too_large());
        }
        let v = b.var(s as u32);
        fenv.insert(clone_chars(&roles.scalars[s]), v);
        s += 1;
    }
    let mut geps = Env::new();
    // entry + preheader: loop-invariant f64 (hoisted) + the zero-length guard
    pass(entry, &roles.seq_ptrs, &roles.lens, &mut fenv, &mut ints, &mut geps, false, &mut b)?;
    if let BlockEnd::CondBr { cond, .. } = &entry.term {
        if !ints.contains(cond) {
            return Err(refuse("entry guard is not an integer length test"));
        }
    }
    if let Some(ph) = preheader {
        pass(
            &blocks[ph],
            &roles.seq_ptrs,
            &roles.lens,
            &mut fenv,
            &mut ints,
            &mut geps,
            false,
            &mut b,
        )?;
    }
    // loop phis: ONE double accumulator; i64 induction machinery
    let mut acc_phi: Option<usize> = None;
    let mut pi: usize = 0;
    while pi < lp.phis.len()
        invariant
            pi <= lp.phis@.len(),
            acc_phi matches Some(x) ==> x < lp.phis@.len(),
        decreases lp.phis@.len() - pi,
    {
        let p = &lp.phis[pi];
        if lit_is(&p.ty, "double") {
            if acc_phi.is_some() {
                return Err(refuse(
                    "two f64 accumulator phis -- multi-accumulator folds are on the roadmap (Sigma v1.2 is single-accumulator)",
                ));
            }
            acc_phi = Some(pi);
        } else if lit_is(&p.ty, "i64") {
            let mut ok = true;
            let mut a: usize = 0;
            while a < p.inc.len()
                invariant
                    a <= p.inc@.len(),
                decreases p.inc@.len() - a,
            {
                let (v, l) = &p.inc[a];
                let vt = drop_leading_exec(v, '%');
                if !(eq(l, &lp.label) || lit_is(v, "0") || lit_is(v, "1") || ints.contains(&vt)) {
                    ok = false;
                }
                a += 1;
            }
            if !ok {
                return Err(refuse_wrap(
                    "i64 phi `%",
                    &p.dst,
                    "` does not start at 0/1 -- non-zero range starts are on the roadmap",
                ));
            }
            ints.insert(clone_chars(&p.dst));
        } else {
            return Err(refuse_wrap("phi of type `", &p.ty, "` in the loop"));
        }
        pi += 1;
    }
    let acc = match acc_phi {
        Some(x) => &lp.phis[x],
        None => {
            return Err(refuse(
                "no f64 accumulator phi -- the loop computes nothing Sigma can fold",
            ))
        },
    };
    let mut init_v: Option<Vec<char>> = None;
    let mut next_v: Option<Vec<char>> = None;
    let mut a: usize = 0;
    while a < acc.inc.len()
        invariant
            a <= acc.inc@.len(),
        decreases acc.inc@.len() - a,
    {
        let (v, l) = &acc.inc[a];
        if eq(l, &lp.label) {
            if next_v.is_none() {
                next_v = Some(clone_chars(v));
            }
        } else {
            if init_v.is_none() {
                init_v = Some(clone_chars(v));
            }
        }
        a += 1;
    }
    let (init_v, next_v) = match (init_v, next_v) {
        (Some(x), Some(y)) => (x, y),
        _ => return Err(parse_lit("accumulator phi is not 2-armed entry/loop")),
    };
    // init strictly precedes the fold body in the arena (children-first)
    let init_id = operand(&init_v, &fenv, &mut b)?;
    if !b.room(1) {
        return Err(too_large());
    }
    let acc_id = b.acc();
    fenv.insert(clone_chars(&acc.dst), acc_id);
    // loop body
    pass(lp, &roles.seq_ptrs, &roles.lens, &mut fenv, &mut ints, &mut geps, true, &mut b)?;
    if let BlockEnd::CondBr { cond, .. } = &lp.term {
        if !ints.contains(cond) {
            return Err(refuse(
                "loop condition depends on f64 data -- not a counted 0..n loop; Term_p folds iterate a runtime LENGTH (`while x > lim` has no Sigma reading)",
            ));
        }
    }
    let next_name = drop_leading_exec(&next_v, '%');
    let body_root = match fenv.get(&next_name) {
        Some(x) => x,
        None => {
            return Err(refuse(
                "the accumulator's next value was not recognized as f64 dataflow",
            ))
        },
    };
    // the fold exists now; everything after the loop sees the FOLD node
    // wherever it names the body result
    if !b.room(1) {
        return Err(too_large());
    }
    let fold_id = b.fold(init_id, body_root);
    fenv.insert(next_name, fold_id);
    // optional LCSSA tail: post-loop f64 applied to the fold result
    let mut tail_result = clone_chars(&next_v);
    if let Some(t) = tail {
        pass(&blocks[t], &roles.seq_ptrs, &roles.lens, &mut fenv, &mut ints, &mut geps, false, &mut b)?;
        let tb = &blocks[t];
        if tb.insts.len() == 0 {
            return Err(refuse("empty LCSSA tail block"));
        }
        let last = &tb.insts[tb.insts.len() - 1];
        tail_result = match split_once(last, '=') {
            Some((d, _)) => trim_exec(&d),
            None => return Err(refuse("empty LCSSA tail block")),
        };
    }
    // merge: the phi's loop-side arm must be the (post-processed)
    // accumulator; its entry-side arm the accumulator's init (or, with a
    // tail, LLVM's folded value of it, which is taken as given)
    if exit.phis.len() != 1 || !lit_is(&exit.phis[0].ty, "double") {
        return Err(refuse(
            "exit must merge exactly one f64 value -- multiple live-outs are on the roadmap",
        ));
    }
    let lcssa = &exit.phis[0];
    let comp_label = match tail {
        Some(t) => &blocks[t].label,
        None => &lp.label,
    };
    let mut comp_arm: Option<Vec<char>> = None;
    let mut entry_arm: Option<Vec<char>> = None;
    let mut c: usize = 0;
    while c < lcssa.inc.len()
        invariant
            c <= lcssa.inc@.len(),
        decreases lcssa.inc@.len() - c,
    {
        let (v, l) = &lcssa.inc[c];
        if eq(l, comp_label) {
            if comp_arm.is_none() {
                comp_arm = Some(clone_chars(v));
            }
        } else {
            if entry_arm.is_none() {
                entry_arm = Some(clone_chars(v));
            }
        }
        c += 1;
    }
    let loop_side_ok = match &comp_arm {
        Some(v) => eq(v, &tail_result),
        None => false,
    };
    let entry_side_ok = if tail.is_some() {
        entry_arm.is_some()
    } else {
        match &entry_arm {
            Some(v) => eq(v, &init_v) || same_bits(v, &init_v),
            None => false,
        }
    };
    if !loop_side_ok || !entry_side_ok {
        return Err(refuse(
            "exit phi does not merge {accumulator init, accumulator next} -- the loop's live-out is not the accumulator",
        ));
    }
    let tr = drop_leading_exec(&tail_result, '%');
    let merged = match fenv.get(&tr) {
        Some(x) => x,
        None => return Err(refuse("tail result is not f64 dataflow")),
    };
    // optional straight-line f64 post-processing, then ret
    proof {
        assert(role_ptrs(sig@) == roles.seq_ptrs.view());
        assert(role_lens(sig@) == vecs_view(roles.lens@));
    }
    let ghost st0 = (
        crate::lift::vals(fenv.view(), b).insert(lcssa.dst@, crate::lift::den(b, merged as int)),
        ints.view(),
        geps.view(),
    );
    let t = read_exit(exit, &lcssa.dst, merged, &roles, &mut fenv, &mut ints, &mut geps, b)?;
    proof {
        let st1 = choose|st1: PassSt|
            pass_run(vecs_view(exit.insts@), st0, roles.seq_ptrs.view(), vecs_view(roles.lens@), false)
                == Some(st1) && crate::lift::operand_val(ret_operand(end_view(exit.term)), st1.0)
                == Some(denote(t.nodes@, crate::term::lits_view(t.consts@), t.root as int));
        assert(pass_run(raw_insts(raw@[ex]), st0, role_ptrs(sig@), role_lens(sig@), false) == Some(
            st1,
        ));
    }
    Ok(t)
}

/// The exit block of a fold: its straight-line f64 post-processing, read
/// with the merged value bound, then the `ret` operand as the term's root.
#[verifier::rlimit(40)]
fn read_exit(
    exit: &Block,
    phi_dst: &Vec<char>,
    merged: u32,
    roles: &ParamRoles,
    fenv: &mut Env,
    ints: &mut NameSet,
    geps: &mut Env,
    b: TermBuilder,
) -> (r: Result<Term, LiftError>)
    requires
        b.inv(),
        old(fenv).below(b.nodes@.len()),
        merged < b.nodes@.len(),
    ensures
        not_missing(r),
        r matches Ok(t) ==> t.wf(),
        r matches Ok(t) ==> exists|st1: PassSt|
            pass_run(
                vecs_view(exit.insts@),
                (
                    crate::lift::vals(old(fenv).view(), b).insert(phi_dst@, crate::lift::den(b, merged as int)),
                    old(ints).view(),
                    old(geps).view(),
                ),
                roles.seq_ptrs.view(),
                vecs_view(roles.lens@),
                false,
            ) == Some(st1) && crate::lift::operand_val(ret_operand(end_view(exit.term)), st1.0)
                == Some(denote(t.nodes@, crate::term::lits_view(t.consts@), t.root as int)),
{
    let mut b = b;
    let ghost ev0 = fenv.view();
    proof {
        assert forall|j: int| 0 <= j < ev0.len() implies ev0[j].1 < b.nodes@.len() by {
            assert(ev0[j].1 == fenv.entries@[j].1);
        }
        crate::lift::lemma_vals_insert(ev0, b, phi_dst@, merged);
    }
    fenv.insert(clone_chars(phi_dst), merged);
    pass(exit, &roles.seq_ptrs, &roles.lens, fenv, ints, geps, false, &mut b)?;
    let ghost st1 = (crate::lift::vals(fenv.view(), b), ints.view(), geps.view());
    let r = match &exit.term {
        BlockEnd::Ret(r) => r,
        _ => return Err(parse_lit("no ret block")),
    };
    let rt = trim_exec(r);
    let rv = match strip_prefix(&rt, "double") {
        Some(v) => trim_exec(&v),
        None => return Err(refuse("non-double return")),
    };
    proof {
        reveal_strlit("double");
        assert(rv@ == ret_operand(end_view(exit.term)));
    }
    let root = operand(&rv, &fenv, &mut b)?;
    let t = b.finish(root);
    proof {
        assert(crate::lift::operand_val(ret_operand(end_view(exit.term)), st1.0) == Some(
            denote(t.nodes@, crate::term::lits_view(t.consts@), t.root as int),
        ));
    }
    // the binding discipline is a free internal validator here: if
    // recognition wired Acc/Elem outside their fold, fail loudly now
    match t.fold_owners() {
        Ok(_) => {},
        Err(e) => {
            let mut m = owned("P2 fold recognition: a body value escapes its fold (");
            m.append(e.as_str());
            push_lit(&mut m, ") -- last-iteration live-outs are on the roadmap");
            return Err(LiftError::Refused(m));
        },
    }
    Ok(t)
}

/// Two literals spell the same binary64 bits: both are exact-bit (`0x…`)
/// literals with equal bits. (Decimal spellings are compared as text.)
fn same_bits(x: &[char], y: &[char]) -> (r: bool)
    ensures
        r == match (crate::lift::spec_fconst(x@), crate::lift::spec_fconst(y@)) {
            (Some(crate::term::ConstLitV::Bits(p)), Some(crate::term::ConstLitV::Bits(q))) => p == q,
            (Some(crate::term::ConstLitV::Decimal(p)), Some(crate::term::ConstLitV::Decimal(q))) => p
                == q,
            _ => false,
        },
{
    match (crate::lift::parse_fconst(x), crate::lift::parse_fconst(y)) {
        (Ok(crate::term::ConstLit::Bits(p)), Ok(crate::term::ConstLit::Bits(q))) => p == q,
        (Ok(crate::term::ConstLit::Decimal(p)), Ok(crate::term::ConstLit::Decimal(q))) => eq(
            &p,
            &q,
        ),
        _ => false,
    }
}

// --------------------------------------------------------- acyclic CFGs --

fn label_index(labels: &Env, l: &[char], n: usize) -> (r: Result<usize, LiftError>)
    requires
        labels.below(n as nat),
    ensures
        not_missing(r),
        r matches Ok(i) ==> i < n,
        r is Ok <==> lookup(labels.view(), l@) is Some,
        r matches Ok(i) ==> lookup(labels.view(), l@) == Some(i as u32),
        r matches Ok(i) ==> lookup(labels.view(), l@) matches Some(v) && v as int == i as int,
{
    match labels.get(l) {
        Some(i) => Ok(i as usize),
        None => Err(parse_err("dangling label %", l, "")),
    }
}

/// An `if/else` whose arms both bind lowers to a branch diamond (or a
/// triangle); a phi at a merge of an acyclic CFG is a Select over the branch
/// tree that leads to it. Σ's eager evaluation of both arms is sound because
/// the alphabet is total.
/// How many of the blocks end in a return.
pub open spec fn ret_blocks(bs: Seq<Block>) -> nat
    decreases bs.len(),
{
    if bs.len() == 0 {
        0
    } else {
        ret_blocks(bs.drop_last()) + if bs.last().term is Ret {
            1nat
        } else {
            0nat
        }
    }
}

/// A block by its label and its terminator.
pub type EndsV = Seq<(Seq<char>, EndV)>;

pub open spec fn block_ends(bs: Seq<Block>) -> EndsV {
    bs.map_values(|bl: Block| (bl.label@, end_view(bl.term)))
}

/// The labels a terminator branches to.
pub open spec fn targets(e: EndV) -> Seq<Seq<char>> {
    match e {
        EndV::Ret(_) => Seq::empty(),
        EndV::Br(l) => seq![l],
        EndV::CondBr(_, a, b) => seq![a, b],
    }
}

/// Every branch target is the label of some block, and no block branches
/// to its own label.
pub open spec fn well_targeted(es: EndsV) -> bool {
    forall|x: int, t: Seq<char>|
        0 <= x < es.len() && #[trigger] targets(es[x].1).contains(t) ==> t != es[x].0 && exists|
            y: int,
        | 0 <= y < es.len() && #[trigger] es[y].0 == t
}

/// How many blocks end in a return.
pub open spec fn ret_count(es: EndsV) -> nat
    decreases es.len(),
{
    if es.len() == 0 {
        0
    } else {
        ret_count(es.drop_last()) + if es.last().1 is Ret {
            1nat
        } else {
            0nat
        }
    }
}

/// The refusal of a branch region with a cycle the loop recognizer does not
/// read.
pub open spec fn cyclic_message() -> Seq<char> {
    "P2 fold recognition: "@ + "cyclic control flow beyond the canonical counted loop -- P3"@
}

/// The refusal of a branch region with `n` return blocks.
pub open spec fn multi_exit_message(n: nat) -> Seq<char> {
    "P2 fold recognition: "@ + decimal(n)
        + " return blocks -- early returns / multi-exit CFGs are on the roadmap (v1 recovers single-exit branch trees)"@
}

/// Labels entered in block order: a label that occurs is found, and what is
/// found is the index of a block with that label.
proof fn lemma_label_lookup(e: Seq<(Seq<char>, u32)>, k: Seq<char>)
    requires
        forall|j: int| 0 <= j < e.len() ==> (#[trigger] e[j]).1 == j as u32,
        e.len() < 0xffff_ffff,
    ensures
        (exists|y: int| 0 <= y < e.len() && #[trigger] e[y].0 == k) ==> lookup(e, k) is Some,
        lookup(e, k) matches Some(v) ==> v < e.len() && e[v as int].0 == k,
    decreases e.len(),
{
    if e.len() > 0 {
        let d = e.drop_last();
        assert forall|j: int| 0 <= j < d.len() implies (#[trigger] d[j]).1 == j as u32 by {
            assert(d[j] == e[j]);
        }
        lemma_label_lookup(d, k);
        if e.last().0 != k {
            if exists|y: int| 0 <= y < e.len() && #[trigger] e[y].0 == k {
                let y = choose|y: int| 0 <= y < e.len() && #[trigger] e[y].0 == k;
                assert(y < e.len() - 1);
                assert(d[y].0 == k);
            }
            if let Some(v) = lookup(d, k) {
                assert(d[v as int] == e[v as int]);
            }
        } else {
            assert(e[e.len() - 1].1 == (e.len() - 1) as u32);
        }
    }
}

/// Counting return blocks over the blocks or over their terminators agrees.
proof fn lemma_ret_count(bs: Seq<Block>)
    ensures
        ret_blocks(bs) == ret_count(block_ends(bs)),
    decreases bs.len(),
{
    if bs.len() > 0 {
        lemma_ret_count(bs.drop_last());
        assert(block_ends(bs).drop_last() =~= block_ends(bs.drop_last()));
    }
}

#[verifier::loop_isolation(false)]
pub fn lift_acyclic(sig: &[char], blocks: &Vec<Block>) -> (r: Result<Term, LiftError>)
    ensures
        r matches Ok(t) ==> t.wf(),
        not_missing(r),
        r is Ok ==> ret_blocks(blocks@) == 1,
        crate::lift::param_names(sig@) is Some && blocks@.len() < 0xffff_ffff && well_targeted(block_ends(blocks@))
            && ret_count(block_ends(blocks@)) != 1 ==> (r matches Err(LiftError::Refused(m)) && (m@
            == cyclic_message() || m@ == multi_exit_message(ret_count(block_ends(blocks@))))),
{
    let ghost es = block_ends(blocks@);
    let ghost shaped = crate::lift::param_names(sig@) is Some && blocks@.len() < 0xffff_ffff && well_targeted(es);
    let params = match parse_params(sig) {
        Ok(p) => p,
        Err(LiftError::Refused(m)) => {
            let mut msg = owned("P2 fold recognition: acyclic CFG with non-scalar params (");
            msg.append(m.as_str());
            push_lit(&mut msg, ") -- sequence-bearing branches are on the roadmap");
            return Err(LiftError::Refused(msg));
        },
        Err(e) => return Err(e),
    };
    let n = blocks.len();
    if n >= 0xffff_ffff {
        return Err(too_large());
    }
    let mut labels = Env::new();
    let mut i: usize = 0;
    while i < n
        invariant
            n == blocks@.len(),
            n < 0xffff_ffff,
            i <= n,
            labels.below(n as nat),
            labels.view().len() == i,
            forall|j: int| 0 <= j < i ==> #[trigger] labels.view()[j] == (blocks@[j].label@, j as u32),
        decreases n - i,
    {
        labels.insert(clone_chars(&blocks[i].label), i as u32);
        i += 1;
    }
    // successor lists; predecessors; in-degrees
    let mut succs: Vec<Vec<usize>> = Vec::new();
    let mut preds: Vec<Vec<usize>> = Vec::new();
    let mut z: usize = 0;
    while z < n
        invariant
            z <= n,
            preds@.len() == z,
        decreases n - z,
    {
        preds.push(Vec::new());
        z += 1;
    }
    let mut x: usize = 0;
    while x < n
        invariant
            n == blocks@.len(),
            x <= n,
            succs@.len() == x,
            preds@.len() == n,
            labels.below(n as nat),
            forall|p: int, q: int|
                0 <= p < x && 0 <= q < succs@[p]@.len() ==> #[trigger] succs@[p]@[q] < n,
            labels.view().len() == n,
            forall|j: int| 0 <= j < n ==> #[trigger] labels.view()[j] == (blocks@[j].label@, j as u32),
            es == block_ends(blocks@),
            shaped == (crate::lift::param_names(sig@) is Some && blocks@.len() < 0xffff_ffff && well_targeted(es)),
        decreases n - x,
    {
        proof {
            assert(es[x as int] == (blocks@[x as int].label@, end_view(blocks@[x as int].term)));
        }
        let mut ss: Vec<usize> = Vec::new();
        let ghost lv = labels.view();
        proof {
            assert forall|j: int| 0 <= j < lv.len() implies (#[trigger] lv[j]).1 == j as u32 by {}
        }
        match &blocks[x].term {
            BlockEnd::Br(l) => {
                proof {
                    if shaped {
                        assert(targets(es[x as int].1)[0] == l@);
                        assert(targets(es[x as int].1).contains(l@));
                        let y = choose|y: int| 0 <= y < es.len() && #[trigger] es[y].0 == l@;
                        assert(es[y] == (blocks@[y].label@, end_view(blocks@[y].term)));
                        assert(lv[y].0 == l@);
                    }
                    lemma_label_lookup(lv, l@);
                }
                let t = label_index(&labels, l, n)?;
                ss.push(t);
            },
            BlockEnd::CondBr { a, b, .. } => {
                proof {
                    if shaped {
                        assert(targets(es[x as int].1)[0] == a@);
                        assert(targets(es[x as int].1).contains(a@));
                        assert(targets(es[x as int].1)[1] == b@);
                        assert(targets(es[x as int].1).contains(b@));
                        {
                        let y = choose|y: int| 0 <= y < es.len() && #[trigger] es[y].0 == a@;
                        assert(es[y] == (blocks@[y].label@, end_view(blocks@[y].term)));
                        assert(lv[y].0 == a@);
                        }
                        let y = choose|y: int| 0 <= y < es.len() && #[trigger] es[y].0 == b@;
                        assert(es[y] == (blocks@[y].label@, end_view(blocks@[y].term)));
                        assert(lv[y].0 == b@);
                    }
                    lemma_label_lookup(lv, a@);
                    lemma_label_lookup(lv, b@);
                }
                let ta = label_index(&labels, a, n)?;
                let tb = label_index(&labels, b, n)?;
                ss.push(ta);
                ss.push(tb);
            },
            BlockEnd::Ret(_) => {},
        }
        let mut y: usize = 0;
        while y < ss.len()
            invariant
                y <= ss@.len(),
                preds@.len() == n,
                shaped ==> forall|q: int| 0 <= q < ss@.len() ==> ss@[q] != x && ss@[q] < n,
            decreases ss@.len() - y,
        {
            let t = ss[y];
            if t == x {
                return Err(refuse("self-loop in acyclic path"));
            }
            if t >= n {
                return Err(parse_lit("dangling label"));
            }
            let mut pv = preds.remove(t);
            pv.push(x);
            preds.insert(t, pv);
            y += 1;
        }
        succs.push(ss);
        x += 1;
    }
    // real topological order (LLVM's textual block order is a layout
    // order — the merge can print before its own predecessors)
    let mut indeg: Vec<usize> = Vec::new();
    let mut w: usize = 0;
    while w < n
        invariant
            w <= n,
            preds@.len() == n,
            indeg@.len() == w,
        decreases n - w,
    {
        indeg.push(preds[w].len());
        w += 1;
    }
    let mut q: Vec<usize> = Vec::new();
    let mut w2: usize = 0;
    while w2 < n
        invariant
            w2 <= n,
            indeg@.len() == n,
            forall|p: int| 0 <= p < q@.len() ==> #[trigger] q@[p] < n,
        decreases n - w2,
    {
        if indeg[w2] == 0 {
            q.push(w2);
        }
        w2 += 1;
    }
    let mut topo: Vec<usize> = Vec::new();
    while q.len() > 0
        invariant
            n == blocks@.len(),
            indeg@.len() == n,
            succs@.len() == n,
            forall|p: int, r: int|
                0 <= p < n && 0 <= r < succs@[p]@.len() ==> #[trigger] succs@[p]@[r] < n,
            forall|p: int| 0 <= p < q@.len() ==> #[trigger] q@[p] < n,
            forall|p: int| 0 <= p < topo@.len() ==> #[trigger] topo@[p] < n,
        decreases q@.len() + sum_usize(indeg@),
    {
        let i = q.pop().unwrap();
        topo.push(i);
        let ss = &succs[i];
        let ghost m0 = q@.len() + sum_usize(indeg@);
        let mut y: usize = 0;
        while y < ss.len()
            invariant
                n == blocks@.len(),
                indeg@.len() == n,
                y <= ss@.len(),
                forall|r: int| 0 <= r < ss@.len() ==> #[trigger] ss@[r] < n,
                forall|p: int| 0 <= p < q@.len() ==> #[trigger] q@[p] < n,
                q@.len() + sum_usize(indeg@) <= m0,
            decreases ss@.len() - y,
        {
            let t = ss[y];
            if indeg[t] > 0 {
                proof {
                    lemma_sum_dec(indeg@, t as int);
                }
                let d = indeg[t] - 1;
                indeg.set(t, d);
                if d == 0 {
                    q.push(t);
                }
            }
            y += 1;
        }
    }
    if topo.len() != n {
        return Err(refuse("cyclic control flow beyond the canonical counted loop -- P3"));
    }
    let mut rets: usize = 0;
    let mut v: usize = 0;
    assert(blocks@.take(0) =~= Seq::<Block>::empty());
    while v < n
        invariant
            n == blocks@.len(),
            v <= n,
            rets <= v,
            rets == ret_blocks(blocks@.take(v as int)),
        decreases n - v,
    {
        assert(blocks@.take(v + 1).drop_last() =~= blocks@.take(v as int));
        if let BlockEnd::Ret(_) = &blocks[v].term {
            rets += 1;
        }
        v += 1;
    }
    assert(blocks@.take(v as int) =~= blocks@);
    proof {
        lemma_ret_count(blocks@);
    }
    if rets != 1 {
        proof {
            reveal_strlit("");
            assert(""@ =~= Seq::<char>::empty());
        }
        return Err(decimal_msg(
            "",
            rets,
            " return blocks -- early returns / multi-exit CFGs are on the roadmap (v1 recovers single-exit branch trees)",
        ));
    }
    if n == 0 {
        return Err(parse_lit("empty function body"));
    }
    let mut b = TermBuilder::new();
    let mut fenv = Env::new();
    let mut ints = NameSet::new();
    let mut pv: usize = 0;
    while pv < params.len()
        invariant
            pv <= params@.len(),
            b.inv(),
            b.nodes@.len() == pv,
            fenv.below(b.nodes@.len()),
        decreases params@.len() - pv,
    {
        if !b.room(1) {
            return Err(too_large());
        }
        let id = b.var(pv as u32);
        fenv.insert(clone_chars(&params[pv]), id);
        pv += 1;
    }
    let seq_ptrs = Env::new();
    let lens: Vec<Vec<char>> = Vec::new();
    let mut geps = Env::new();
    let entry = topo[0];
    let mut ret_val: Option<u32> = None;
    let mut ti: usize = 0;
    while ti < topo.len()
        invariant
            n == blocks@.len(),
            topo@.len() == n,
            entry < n,
            ti <= topo@.len(),
            forall|p: int| 0 <= p < topo@.len() ==> #[trigger] topo@[p] < n,
            preds@.len() == n,
            labels.below(n as nat),
            b.inv(),
            fenv.below(b.nodes@.len()),
            ret_val matches Some(r) ==> r < b.nodes@.len(),
        decreases topo@.len() - ti,
    {
        let mi = topo[ti];
        ti += 1;
        let m = &blocks[mi];
        let mut k: usize = 0;
        while k < m.phis.len()
            invariant
                n == blocks@.len(),
                entry < n,
                mi < n,
                k <= m.phis@.len(),
                preds@.len() == n,
                labels.below(n as nat),
                b.inv(),
                fenv.below(b.nodes@.len()),
                ret_val matches Some(r) ==> r < b.nodes@.len(),
            decreases m.phis@.len() - k,
        {
            let p = &m.phis[k];
            if !lit_is(&p.ty, "double") {
                return Err(refuse_wrap("phi of type `", &p.ty, "` at a merge"));
            }
            let id = resolve(entry, mi, blocks, &preds, &labels, &p.inc, &fenv, &ints, &mut b, n)?;
            fenv.insert(clone_chars(&p.dst), id);
            k += 1;
        }
        pass(m, &seq_ptrs, &lens, &mut fenv, &mut ints, &mut geps, false, &mut b)?;
        if let BlockEnd::Ret(r) = &m.term {
            let rt = trim_exec(r);
            let rv = match strip_prefix(&rt, "double") {
                Some(x) => trim_exec(&x),
                None => return Err(refuse("non-double return")),
            };
            let id = operand(&rv, &fenv, &mut b)?;
            ret_val = Some(id);
        }
    }
    match ret_val {
        Some(root) => Ok(b.finish(root)),
        None => Err(parse_lit("no ret block")),
    }
}

/// Sum of a sequence of counts.
pub open spec fn sum_usize(s: Seq<usize>) -> nat
    decreases s.len(),
{
    if s.len() == 0 {
        0
    } else {
        sum_usize(s.drop_last()) + s.last() as nat
    }
}

proof fn lemma_sum_dec(s: Seq<usize>, t: int)
    requires
        0 <= t < s.len(),
        s[t] > 0,
    ensures
        sum_usize(s.update(t, (s[t] - 1) as usize)) == sum_usize(s) - 1,
    decreases s.len(),
{
    let u = s.update(t, (s[t] - 1) as usize);
    if t == s.len() - 1 {
        assert(u.drop_last() =~= s.drop_last());
    } else {
        assert(u.drop_last() =~= s.drop_last().update(t, (s[t] - 1) as usize));
        lemma_sum_dec(s.drop_last(), t);
    }
}

/// The value of the last arm from predecessor `label`.
pub open spec fn last_arm(arms: Seq<(Seq<char>, Seq<char>)>, label: Seq<char>) -> Option<Seq<char>>
    decreases arms.len(),
{
    if arms.len() == 0 {
        None
    } else if arms.last().1 == label {
        Some(arms.last().0)
    } else {
        last_arm(arms.drop_last(), label)
    }
}

/// The incoming value a phi takes from predecessor `label` (the last arm
/// naming it, as a map built from the arms would hold).
fn inc_get(inc: &Vec<(Vec<char>, Vec<char>)>, label: &[char]) -> (r: Option<Vec<char>>)
    ensures
        match last_arm(arms_view(inc@), label@) {
            Some(v) => r matches Some(w) && w@ == v,
            None => r is None,
        },
{
    let ghost av = arms_view(inc@);
    let mut i = inc.len();
    assert(av.take(i as int) =~= av);
    while i > 0
        invariant
            i <= inc@.len(),
            av == arms_view(inc@),
            last_arm(av, label@) == last_arm(av.take(i as int), label@),
        decreases i,
    {
        let ghost t = av.take(i as int);
        assert(t.last() == (inc@[i - 1].0@, inc@[i - 1].1@));
        assert(t.drop_last() =~= av.take(i - 1));
        if eq(&inc[i - 1].1, label) {
            return Some(clone_chars(&inc[i - 1].0));
        }
        i -= 1;
    }
    assert(av.take(0) =~= Seq::<(Seq<char>, Seq<char>)>::empty());
    None
}

/// The value a phi at merge `m` takes, resolved down the branch tree from
/// block `bi`: a conditional branch is a Select over its two subtrees; a
/// direct edge into `m` contributes that edge's incoming value. Every block
/// upstream of the merge must have exactly one predecessor (a tree). `fuel`
/// bounds the depth by the block count.
/// How many predecessors each block has.
pub open spec fn pred_counts(preds: Seq<Vec<usize>>) -> Seq<nat> {
    preds.map_values(|v: Vec<usize>| v@.len())
}

/// The value that a phi at merge block `mi` takes, read as a branch tree
/// from block `bi`: a conditional branch becomes a select on its condition,
/// between the values along its first and its second target.
pub open spec fn tree_val(
    bi: int,
    mi: int,
    es: EndsV,
    lv: Seq<(Seq<char>, u32)>,
    pc: Seq<nat>,
    inc: Seq<(Seq<char>, Seq<char>)>,
    m: Map<Seq<char>, Expr>,
    ints: Seq<Seq<char>>,
    fuel: nat,
) -> Option<Expr>
    decreases fuel, 1nat,
{
    if fuel == 0 || !(0 <= bi < es.len()) {
        None
    } else {
        match es[bi].1 {
            EndV::Br(l) => edge_val(l, bi, mi, es, lv, pc, inc, m, ints, fuel),
            EndV::CondBr(c, a, b) => if ints.contains(c) || !m.contains_key(c) {
                None
            } else {
                match (
                    edge_val(a, bi, mi, es, lv, pc, inc, m, ints, fuel),
                    edge_val(b, bi, mi, es, lv, pc, inc, m, ints, fuel),
                ) {
                    (Some(t), Some(f)) => Some(
                        Expr::Node3(Op::Select, Box::new(m[c]), Box::new(t), Box::new(f)),
                    ),
                    _ => None,
                }
            },
            EndV::Ret(_) => None,
        }
    }
}

/// The value along the edge from block `from` to the block labelled
/// `target`: the phi's arm for that edge where it enters the merge, the
/// branch tree below it otherwise (a block of a tree has one predecessor).
pub open spec fn edge_val(
    target: Seq<char>,
    from: int,
    mi: int,
    es: EndsV,
    lv: Seq<(Seq<char>, u32)>,
    pc: Seq<nat>,
    inc: Seq<(Seq<char>, Seq<char>)>,
    m: Map<Seq<char>, Expr>,
    ints: Seq<Seq<char>>,
    fuel: nat,
) -> Option<Expr>
    decreases fuel, 0nat,
{
    if fuel == 0 || !(0 <= from < es.len()) {
        None
    } else {
        match lookup(lv, target) {
            None => None,
            Some(ti) => if ti == mi {
                match last_arm(inc, es[from].0) {
                    Some(v) => crate::lift::operand_val(v, m),
                    None => None,
                }
            } else if !(ti < pc.len()) || pc[ti as int] != 1 {
                None
            } else {
                tree_val(ti as int, mi, es, lv, pc, inc, m, ints, (fuel - 1) as nat)
            },
        }
    }
}

/// Running the branches from block `bi` until the merge `mi`, deciding each
/// conditional branch by `truth` of its condition: the phi value of the edge
/// that enters the merge, and how many conditional branches were taken.
pub open spec fn walk(
    bi: int,
    mi: int,
    es: EndsV,
    lv: Seq<(Seq<char>, u32)>,
    pc: Seq<nat>,
    inc: Seq<(Seq<char>, Seq<char>)>,
    m: Map<Seq<char>, Expr>,
    ints: Seq<Seq<char>>,
    truth: spec_fn(Expr) -> bool,
    fuel: nat,
) -> Option<(Expr, nat)>
    decreases fuel, 1nat,
{
    if fuel == 0 || !(0 <= bi < es.len()) {
        None
    } else {
        match es[bi].1 {
            EndV::Br(l) => walk_edge(l, bi, mi, es, lv, pc, inc, m, ints, truth, fuel),
            EndV::CondBr(c, a, b) => if ints.contains(c) || !m.contains_key(c) {
                None
            } else {
                match walk_edge(
                    if truth(m[c]) {
                        a
                    } else {
                        b
                    },
                    bi,
                    mi,
                    es,
                    lv,
                    pc,
                    inc,
                    m,
                    ints,
                    truth,
                    fuel,
                ) {
                    Some((w, n)) => Some((w, n + 1)),
                    None => None,
                }
            },
            EndV::Ret(_) => None,
        }
    }
}

pub open spec fn walk_edge(
    target: Seq<char>,
    from: int,
    mi: int,
    es: EndsV,
    lv: Seq<(Seq<char>, u32)>,
    pc: Seq<nat>,
    inc: Seq<(Seq<char>, Seq<char>)>,
    m: Map<Seq<char>, Expr>,
    ints: Seq<Seq<char>>,
    truth: spec_fn(Expr) -> bool,
    fuel: nat,
) -> Option<(Expr, nat)>
    decreases fuel, 0nat,
{
    if fuel == 0 || !(0 <= from < es.len()) {
        None
    } else {
        match lookup(lv, target) {
            None => None,
            Some(ti) => if ti == mi {
                match last_arm(inc, es[from].0) {
                    Some(v) => match crate::lift::operand_val(v, m) {
                        Some(x) => Some((x, 0nat)),
                        None => None,
                    },
                    None => None,
                }
            } else if !(ti < pc.len()) || pc[ti as int] != 1 {
                None
            } else {
                walk(ti as int, mi, es, lv, pc, inc, m, ints, truth, (fuel - 1) as nat)
            },
        }
    }
}

/// Deciding `n` selects by `truth` of their conditions leads from `v` to `w`.
pub open spec fn selects_to(v: Expr, truth: spec_fn(Expr) -> bool, w: Expr, n: nat) -> bool
    decreases n,
{
    if n == 0 {
        v == w
    } else {
        match v {
            Expr::Node3(Op::Select, c, t, f) => if truth(*c) {
                selects_to(*t, truth, w, (n - 1) as nat)
            } else {
                selects_to(*f, truth, w, (n - 1) as nat)
            },
            _ => false,
        }
    }
}

/// A branch region lifts to selects that pick what running it picks: for
/// every way its conditions can come out, deciding the selects of the
/// lifted value by the same conditions gives the phi value of the edge by
/// which the run enters the merge.
pub proof fn law_branch_tree_picks_the_taken_edge(
    bi: int,
    mi: int,
    es: EndsV,
    lv: Seq<(Seq<char>, u32)>,
    pc: Seq<nat>,
    inc: Seq<(Seq<char>, Seq<char>)>,
    m: Map<Seq<char>, Expr>,
    ints: Seq<Seq<char>>,
    truth: spec_fn(Expr) -> bool,
    fuel: nat,
)
    requires
        tree_val(bi, mi, es, lv, pc, inc, m, ints, fuel) is Some,
    ensures
        walk(bi, mi, es, lv, pc, inc, m, ints, truth, fuel) matches Some((w, n)) && selects_to(
            tree_val(bi, mi, es, lv, pc, inc, m, ints, fuel)->0,
            truth,
            w,
            n,
        ),
    decreases fuel, 1nat,
{
    match es[bi].1 {
        EndV::Br(l) => {
            law_edge_picks_the_taken_edge(l, bi, mi, es, lv, pc, inc, m, ints, truth, fuel);
        },
        EndV::CondBr(c, a, b) => {
            law_edge_picks_the_taken_edge(a, bi, mi, es, lv, pc, inc, m, ints, truth, fuel);
            law_edge_picks_the_taken_edge(b, bi, mi, es, lv, pc, inc, m, ints, truth, fuel);
        },
        EndV::Ret(_) => {},
    }
}

/// The edge form of the branch-tree law.
pub proof fn law_edge_picks_the_taken_edge(
    target: Seq<char>,
    from: int,
    mi: int,
    es: EndsV,
    lv: Seq<(Seq<char>, u32)>,
    pc: Seq<nat>,
    inc: Seq<(Seq<char>, Seq<char>)>,
    m: Map<Seq<char>, Expr>,
    ints: Seq<Seq<char>>,
    truth: spec_fn(Expr) -> bool,
    fuel: nat,
)
    requires
        edge_val(target, from, mi, es, lv, pc, inc, m, ints, fuel) is Some,
    ensures
        walk_edge(target, from, mi, es, lv, pc, inc, m, ints, truth, fuel) matches Some((w, n))
            && selects_to(edge_val(target, from, mi, es, lv, pc, inc, m, ints, fuel)->0, truth, w, n),
    decreases fuel, 0nat,
{
    match lookup(lv, target) {
        None => {},
        Some(ti) => {
            if ti != mi {
                law_branch_tree_picks_the_taken_edge(
                    ti as int,
                    mi,
                    es,
                    lv,
                    pc,
                    inc,
                    m,
                    ints,
                    truth,
                    (fuel - 1) as nat,
                );
            }
        },
    }
}

fn resolve(
    bi: usize,
    m: usize,
    blocks: &Vec<Block>,
    preds: &Vec<Vec<usize>>,
    labels: &Env,
    inc: &Vec<(Vec<char>, Vec<char>)>,
    fenv: &Env,
    ints: &NameSet,
    b: &mut TermBuilder,
    fuel: usize,
) -> (r: Result<u32, LiftError>)
    requires
        old(b).inv(),
        fenv.below(old(b).nodes@.len()),
        bi < blocks@.len(),
        m < blocks@.len(),
        preds@.len() == blocks@.len(),
        labels.below(blocks@.len() as nat),
    ensures
        not_missing(r),
        grows(*old(b), *final(b)),
        r matches Ok(id) ==> id < final(b).nodes@.len(),
        r matches Ok(id) ==> tree_val(
            bi as int,
            m as int,
            block_ends(blocks@),
            labels.view(),
            pred_counts(preds@),
            arms_view(inc@),
            crate::lift::vals(fenv.view(), *old(b)),
            ints.view(),
            fuel as nat,
        ) == Some(crate::lift::den(*final(b), id as int)),
    decreases fuel, 1int,
{
    proof {
        lemma_grows_refl(*b);
    }
    let n = blocks.len();
    if fuel == 0 {
        return Err(refuse("branch tree deeper than the block count"));
    }
    let bl = &blocks[bi];
    proof {
        assert(block_ends(blocks@)[bi as int] == (bl.label@, end_view(bl.term)));
    }
    match &bl.term {
        BlockEnd::Br(l) => {
            let ti = label_index(labels, l, n)?;
            proof {
                assert(pred_counts(preds@)[ti as int] == preds@[ti as int]@.len());
            }
            if ti == m {
                let v = match inc_get(inc, &bl.label) {
                    Some(v) => v,
                    None => {
                        return Err(refuse_wrap(
                            "edge %",
                            &bl.label,
                            " -> merge carries no phi value",
                        ))
                    },
                };
                operand(&v, fenv, b)
            } else {
                if preds[ti].len() != 1 {
                    return Err(refuse(
                        "shared arm / sequential merge upstream of this merge -- non-tree acyclic regions are on the roadmap",
                    ));
                }
                resolve(ti, m, blocks, preds, labels, inc, fenv, ints, b, fuel - 1)
            }
        },
        BlockEnd::CondBr { cond, a, b: bb } => {
            if ints.contains(cond) {
                return Err(refuse("branch condition is integer data -- no \u{3a3} reading"));
            }
            let c = match fenv.get(cond) {
                Some(c) => c,
                None => return Err(parse_err("unbound condition %", cond, "")),
            };
            let ghost b0 = *b;
            let tv = resolve_side(a, bi, m, blocks, preds, labels, inc, fenv, ints, b, fuel)?;
            let ghost b1 = *b;
            proof {
                crate::lift::lemma_vals_stable(*fenv, b0, b1);
            }
            let fv = match resolve_side(bb, bi, m, blocks, preds, labels, inc, fenv, ints, b, fuel) {
                Ok(v) => v,
                Err(e) => {
                    proof {
                        lemma_grows_trans(b0, b1, *b);
                    }
                    return Err(e);
                },
            };
            proof {
                lemma_grows_trans(b0, b1, *b);
            }
            if !b.room(1) {
                return Err(too_large());
            }
            let ghost b2 = *b;
            let id = b.ternary(Op::Select, c, tv, fv);
            assert(b2.nodes@ =~= b.nodes@.take(b2.nodes@.len() as int));
            assert(b2.consts@ =~= b.consts@.take(b2.consts@.len() as int));
            proof {
                lemma_grows_trans(b0, b2, *b);
                lemma_grows_trans(b1, b2, *b);
                crate::lift::lemma_den_stable(b0, *b, c as int);
                crate::lift::lemma_den_stable(b1, *b, tv as int);
                crate::lift::lemma_den_stable(b2, *b, fv as int);
                assert(crate::lift::den(*b, id as int) == Expr::Node3(
                    Op::Select,
                    Box::new(crate::lift::den(*b, c as int)),
                    Box::new(crate::lift::den(*b, tv as int)),
                    Box::new(crate::lift::den(*b, fv as int)),
                ));
            }
            Ok(id)
        },
        BlockEnd::Ret(_) => Err(refuse(
            "a return block upstream of a merge -- multi-exit regions are on the roadmap",
        )),
    }
}

/// One arm of a conditional branch at block `from`.
fn resolve_side(
    target: &[char],
    from: usize,
    m: usize,
    blocks: &Vec<Block>,
    preds: &Vec<Vec<usize>>,
    labels: &Env,
    inc: &Vec<(Vec<char>, Vec<char>)>,
    fenv: &Env,
    ints: &NameSet,
    b: &mut TermBuilder,
    fuel: usize,
) -> (r: Result<u32, LiftError>)
    requires
        old(b).inv(),
        fenv.below(old(b).nodes@.len()),
        from < blocks@.len(),
        m < blocks@.len(),
        preds@.len() == blocks@.len(),
        labels.below(blocks@.len() as nat),
        fuel > 0,
    ensures
        not_missing(r),
        grows(*old(b), *final(b)),
        r matches Ok(id) ==> id < final(b).nodes@.len(),
        r matches Ok(id) ==> edge_val(
            target@,
            from as int,
            m as int,
            block_ends(blocks@),
            labels.view(),
            pred_counts(preds@),
            arms_view(inc@),
            crate::lift::vals(fenv.view(), *old(b)),
            ints.view(),
            fuel as nat,
        ) == Some(crate::lift::den(*final(b), id as int)),
    decreases fuel, 0int,
{
    proof {
        lemma_grows_refl(*b);
    }
    let n = blocks.len();
    let ti = label_index(labels, target, n)?;
    proof {
        assert(pred_counts(preds@)[ti as int] == preds@[ti as int]@.len());
        assert(block_ends(blocks@)[from as int] == (blocks@[from as int].label@, end_view(
            blocks@[from as int].term,
        )));
    }
    if ti == m {
        // direct edge into the merge: this predecessor's incoming value
        let v = match inc_get(inc, &blocks[from].label) {
            Some(v) => v,
            None => {
                return Err(refuse_wrap(
                    "edge %",
                    &blocks[from].label,
                    " -> merge carries no phi value",
                ))
            },
        };
        operand(&v, fenv, b)
    } else {
        if preds[ti].len() != 1 {
            return Err(refuse(
                "shared arm / sequential merge upstream of this merge -- non-tree acyclic regions are on the roadmap",
            ));
        }
        resolve(ti, m, blocks, preds, labels, inc, fenv, ints, b, fuel - 1)
    }
}

} // verus!
