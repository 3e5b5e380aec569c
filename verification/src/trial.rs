//! The field trial's bookkeeping: every audited function is tried at both
//! front doors, and every refusal is bucketed by the phase that would admit
//! it. The buckets price the roadmap: the size of the P3 bucket on real code
//! is measured, not guessed.
//!
//! What is and is not claimed: when both doors admit a function, the two
//! terms are compared bitwise over μ′ (a real check between two independent
//! lowerings); when only one door admits, the term is reported admitted but
//! untested, and no equivalence claim is made.
use vstd::prelude::*;
use crate::fmt::{decimal, decimal_exec, pad_left, pad_right, put_pad_left, put_pad_right};
use crate::lift::lift_ll;
use crate::term::Term;
use crate::text::{chars_of, contains, has, owned, push_lit, put, put_lit, starts, starts_with, string_of};

verus! {

#[derive(Debug, Clone, PartialEq, Eq)]
pub enum DoorOutcome {
    Admitted { nodes: usize },
    /// the raw refusal reason (bucketed when rendered)
    Refused(String),
}

#[derive(Debug)]
pub struct FnTrial {
    pub file: String,
    pub name: String,
    pub syn: DoorOutcome,
    pub ir: DoorOutcome,
    /// `Some(Ok)`: both doors agree bitwise over μ′; `Some(Err)`: they
    /// disagree (a bug in one lowering); `None`: fewer than two admissions.
    pub cross_gate: Option<Result<(), String>>,
}

#[derive(Debug, Default)]
pub struct TrialReport {
    pub fns: Vec<FnTrial>,
}

// ---------------------------------------------------------------- buckets --
// Bucket ids follow the byte order of the bucket names (the order in which
// a map keyed by the names iterates them).
pub const B_MUT_SELF: usize = 0;
pub const B_P2: usize = 1;
pub const B_P3: usize = 2;
pub const B_BUILD_FAILED: usize = 3;
pub const B_LIBM: usize = 4;
pub const B_F32: usize = 5;
pub const B_FAST_MATH: usize = 6;
pub const B_GENERIC: usize = 7;
pub const B_METHOD: usize = 8;
pub const B_NO_IR_SYMBOL: usize = 9;
pub const B_NON_F64: usize = 10;
pub const B_NOT_PUBLIC: usize = 11;
pub const B_OUTSIDE_SIGMA: usize = 12;
pub const B_OTHER: usize = 13;
pub const B_PANIC: usize = 14;
pub const B_RECEIVER_STATE: usize = 15;
pub const B_SHIM_FAILED: usize = 16;
pub const B_UNSUPPORTED_SIG: usize = 17;
pub const N_BUCKETS: usize = 18;

/// The name of bucket `i`.
pub open spec fn bucket_text(i: nat) -> Seq<char> {
    if i == B_MUT_SELF {
        "&mut self (effectful method -- audit's effort/P3 class)"@
    } else if i == B_P2 {
        "P2+ (loop shape beyond canonical fold)"@
    } else if i == B_P3 {
        "P3 (memory / side effects)"@
    } else if i == B_BUILD_FAILED {
        "build-failed (not standalone-compilable)"@
    } else if i == B_LIBM {
        "call outside the closed libm map"@
    } else if i == B_F32 {
        "f32 signature (no IR shim; syn door reads f32 via Rnd32)"@
    } else if i == B_FAST_MATH {
        "fast-math flags"@
    } else if i == B_GENERIC {
        "generic bounds not f64-instantiable (shim)"@
    } else if i == B_METHOD {
        "method receiver (no IR shim; syn door audits &self readers)"@
    } else if i == B_NO_IR_SYMBOL {
        "no-ir-symbol (generic or not codegen'd)"@
    } else if i == B_NON_F64 {
        "non-f64 types"@
    } else if i == B_NOT_PUBLIC {
        "not in the crate's public API (shim)"@
    } else if i == B_OUTSIDE_SIGMA {
        "op outside \u{3a3}"@
    } else if i == B_OTHER {
        "other (see raw reasons)"@
    } else if i == B_PANIC {
        "panic path (partial fn -- totality effort, audit class)"@
    } else if i == B_RECEIVER_STATE {
        "reads non-f64 receiver state (Sigma is f64-only)"@
    } else if i == B_SHIM_FAILED {
        "shim-build-failed"@
    } else {
        "unsupported signature (shim)"@
    }
}

/// The bucket of a refusal reason: the first rule whose words occur in it.
/// Order matters — the method-receiver and panic-path rules precede the
/// broader phase words that their messages also contain.
pub open spec fn bucket_index(r: Seq<char>) -> nat {
    if contains(r, "E0277"@) {
        B_GENERIC as nat
    } else if contains(r, "E0425"@) || contains(r, "E0433"@) || contains(r, "cannot find"@) {
        B_NOT_PUBLIC as nat
    } else if contains(r, "rustc failed (shim)"@) {
        B_SHIM_FAILED as nat
    } else if contains(r, "method takes self"@) {
        B_METHOD as nat
    } else if contains(r, "f32 signature"@) {
        B_F32 as nat
    } else if contains(r, "mutable method receiver"@) {
        B_MUT_SELF as nat
    } else if contains(r, "non-f64 receiver field"@) {
        B_RECEIVER_STATE as nat
    } else if contains(r, "unsupported signature (shim)"@) {
        B_UNSUPPORTED_SIG as nat
    } else if contains(r, "rustc failed"@) {
        B_BUILD_FAILED as nat
    } else if contains(r, "no `define"@) || contains(r, "not found in source"@) {
        B_NO_IR_SYMBOL as nat
    } else if contains(r, "panic/assert"@) || contains(r, "`unreachable`"@) {
        B_PANIC as nat
    } else if contains(r, "P3"@) {
        B_P3 as nat
    } else if contains(r, "P2"@) {
        B_P2 as nat
    } else if contains(r, "libm map"@) {
        B_LIBM as nat
    } else if contains(r, "fast-math"@) {
        B_FAST_MATH as nat
    } else if contains(r, "\u{3a3} v1.1"@) || contains(r, "no \u{3a3} symbol"@) || contains(
        r,
        "Sigma"@,
    ) {
        B_OUTSIDE_SIGMA as nat
    } else if contains(r, "non-double"@) || contains(r, "pure-f64"@) {
        B_NON_F64 as nat
    } else {
        B_OTHER as nat
    }
}

fn bucket_id(r: &[char]) -> (i: usize)
    ensures
        i == bucket_index(r@),
        i < N_BUCKETS,
{
    if has(r, "E0277") {
        B_GENERIC
    } else if has(r, "E0425") || has(r, "E0433") || has(r, "cannot find") {
        B_NOT_PUBLIC
    } else if has(r, "rustc failed (shim)") {
        B_SHIM_FAILED
    } else if has(r, "method takes self") {
        B_METHOD
    } else if has(r, "f32 signature") {
        B_F32
    } else if has(r, "mutable method receiver") {
        B_MUT_SELF
    } else if has(r, "non-f64 receiver field") {
        B_RECEIVER_STATE
    } else if has(r, "unsupported signature (shim)") {
        B_UNSUPPORTED_SIG
    } else if has(r, "rustc failed") {
        B_BUILD_FAILED
    } else if has(r, "no `define") || has(r, "not found in source") {
        B_NO_IR_SYMBOL
    } else if has(r, "panic/assert") || has(r, "`unreachable`") {
        B_PANIC
    } else if has(r, "P3") {
        B_P3
    } else if has(r, "P2") {
        B_P2
    } else if has(r, "libm map") {
        B_LIBM
    } else if has(r, "fast-math") {
        B_FAST_MATH
    } else if has(r, "\u{3a3} v1.1") || has(r, "no \u{3a3} symbol") || has(r, "Sigma") {
        B_OUTSIDE_SIGMA
    } else if has(r, "non-double") || has(r, "pure-f64") {
        B_NON_F64
    } else {
        B_OTHER
    }
}

fn bucket_name(i: usize) -> (r: &'static str)
    requires
        i < N_BUCKETS,
    ensures
        r@ == bucket_text(i as nat),
{
    if i == B_MUT_SELF {
        "&mut self (effectful method -- audit's effort/P3 class)"
    } else if i == B_P2 {
        "P2+ (loop shape beyond canonical fold)"
    } else if i == B_P3 {
        "P3 (memory / side effects)"
    } else if i == B_BUILD_FAILED {
        "build-failed (not standalone-compilable)"
    } else if i == B_LIBM {
        "call outside the closed libm map"
    } else if i == B_F32 {
        "f32 signature (no IR shim; syn door reads f32 via Rnd32)"
    } else if i == B_FAST_MATH {
        "fast-math flags"
    } else if i == B_GENERIC {
        "generic bounds not f64-instantiable (shim)"
    } else if i == B_METHOD {
        "method receiver (no IR shim; syn door audits &self readers)"
    } else if i == B_NO_IR_SYMBOL {
        "no-ir-symbol (generic or not codegen'd)"
    } else if i == B_NON_F64 {
        "non-f64 types"
    } else if i == B_NOT_PUBLIC {
        "not in the crate's public API (shim)"
    } else if i == B_OUTSIDE_SIGMA {
        "op outside \u{3a3}"
    } else if i == B_OTHER {
        "other (see raw reasons)"
    } else if i == B_PANIC {
        "panic path (partial fn -- totality effort, audit class)"
    } else if i == B_RECEIVER_STATE {
        "reads non-f64 receiver state (Sigma is f64-only)"
    } else if i == B_SHIM_FAILED {
        "shim-build-failed"
    } else {
        "unsupported signature (shim)"
    }
}

/// Collapse a refusal string into a stable histogram bucket. The buckets are
/// the roadmap's own vocabulary — the P2/P3 words in refusal messages exist
/// precisely so this function can count them.
pub fn bucket(reason: &str) -> (r: &'static str)
    ensures
        r@ == bucket_text(bucket_index(reason@)),
{
    let rc = chars_of(reason);
    bucket_name(bucket_id(&rc))
}

// ------------------------------------------------------------ the report --

/// What the report's header counts.
pub enum Tally {
    SynAdmits,
    IrAdmits,
    IrOnly,
    Compared,
    Agree,
}

pub open spec fn tallies(f: FnTrial, t: Tally) -> bool {
    match t {
        Tally::SynAdmits => f.syn is Admitted,
        Tally::IrAdmits => f.ir is Admitted,
        Tally::IrOnly => f.ir is Admitted && f.syn is Refused,
        Tally::Compared => f.cross_gate is Some,
        Tally::Agree => f.cross_gate matches Some(Ok(_)),
    }
}

/// How many of `fns` the tally `t` counts.
pub open spec fn count_of(fns: Seq<FnTrial>, t: Tally) -> nat
    decreases fns.len(),
{
    if fns.len() == 0 {
        0
    } else {
        count_of(fns.drop_last(), t) + if tallies(fns.last(), t) {
            1nat
        } else {
            0nat
        }
    }
}

/// How many IR refusals among `fns` fall into bucket `b`.
pub open spec fn occ(fns: Seq<FnTrial>, b: nat) -> nat
    decreases fns.len(),
{
    if fns.len() == 0 {
        0
    } else {
        occ(fns.drop_last(), b) + if fns.last().ir matches DoorOutcome::Refused(r)
            && bucket_index(r@) == b {
            1nat
        } else {
            0nat
        }
    }
}

pub open spec fn header(fns: Seq<FnTrial>) -> Seq<char> {
    "FIELD TRIAL: "@ + decimal(fns.len()) + " fns audited\n"@ + "  syn door admits : "@
        + decimal(count_of(fns, Tally::SynAdmits)) + "\n"@ + "  IR  door admits : "@ + decimal(
        count_of(fns, Tally::IrAdmits),
    ) + "  ("@ + decimal(count_of(fns, Tally::IrOnly))
        + " of them REFUSED by syn \u{2014} the IR door's added coverage)\n"@
        + "  cross-door gate : "@ + decimal(count_of(fns, Tally::Agree)) + "/"@ + decimal(
        count_of(fns, Tally::Compared),
    ) + " agree bitwise over 2e3 mu' samples\n"@
}

/// One line per cross-door disagreement.
pub open spec fn disagreements(fns: Seq<FnTrial>) -> Seq<char>
    decreases fns.len(),
{
    if fns.len() == 0 {
        Seq::empty()
    } else {
        disagreements(fns.drop_last()) + match fns.last().cross_gate {
            Some(Err(e)) => "  !! "@ + fns.last().name@ + ": "@ + e@ + "\n"@,
            _ => Seq::empty(),
        }
    }
}

/// The histogram row of bucket `b` if its count is `c`.
pub open spec fn row(fns: Seq<FnTrial>, c: nat, b: nat) -> Seq<char> {
    if occ(fns, b) == c {
        "  "@ + pad_left(decimal(c), 4) + "  "@ + bucket_text(b) + "\n"@
    } else {
        Seq::empty()
    }
}

/// Rows of count `c`, buckets `0..k` in bucket order.
pub open spec fn rows_of(fns: Seq<FnTrial>, c: nat, k: nat) -> Seq<char>
    decreases k,
{
    if k == 0 {
        Seq::empty()
    } else {
        rows_of(fns, c, (k - 1) as nat) + row(fns, c, (k - 1) as nat)
    }
}

/// The histogram rows for the counts `hi` down to `c + 1`: highest count
/// first, ties in bucket order.
pub open spec fn hist_down(fns: Seq<FnTrial>, hi: nat, c: nat) -> Seq<char>
    decreases hi - c,
{
    if c >= hi {
        Seq::empty()
    } else {
        hist_down(fns, hi, c + 1) + rows_of(fns, c + 1, N_BUCKETS as nat)
    }
}

pub open spec fn door_text(o: DoorOutcome) -> Seq<char> {
    match o {
        DoorOutcome::Admitted { nodes } => "OK("@ + decimal(nodes as nat) + "n)"@,
        DoorOutcome::Refused(r) => "refused["@ + bucket_text(bucket_index(r@)) + "]"@,
    }
}

pub open spec fn gate_text(g: Option<Result<(), String>>) -> Seq<char> {
    match g {
        Some(Ok(_)) => " gate=AGREE"@,
        Some(Err(_)) => " gate=DISAGREE!"@,
        None => Seq::empty(),
    }
}

/// The detail line of one function.
pub open spec fn detail_line(f: FnTrial) -> Seq<char> {
    "  "@ + pad_right(f.name@, 30) + " syn="@ + door_text(f.syn) + " ir="@ + door_text(f.ir)
        + gate_text(f.cross_gate) + "\n"@
}

/// One detail line per function.
pub open spec fn details(fns: Seq<FnTrial>) -> Seq<char>
    decreases fns.len(),
{
    if fns.len() == 0 {
        Seq::empty()
    } else {
        details(fns.drop_last()) + detail_line(fns.last())
    }
}

pub open spec fn side(f: FnTrial, ir: bool) -> DoorOutcome {
    if ir {
        f.ir
    } else {
        f.syn
    }
}

/// A refusal that lands in bucket `b`.
pub open spec fn refused_into(o: DoorOutcome, b: nat) -> bool {
    o matches DoorOutcome::Refused(r) && bucket_index(r@) == b
}

/// Some function of `fns` was refused into bucket `b` at the given door.
pub open spec fn seen(fns: Seq<FnTrial>, ir: bool, b: nat) -> bool {
    exists|j: int| 0 <= j < fns.len() && #[trigger] refused_into(side(fns[j], ir), b)
}

/// The raw-reason line of one function at one door, given the functions
/// before it.
pub open spec fn raw_line(before: Seq<FnTrial>, f: FnTrial, ir: bool) -> Seq<char> {
    match side(f, ir) {
        DoorOutcome::Refused(r) => {
            let b = bucket_index(r@);
            if is_other(b) || !seen(before, ir, b) {
                "  "@ + pad_right(f.name@, 30) + " ["@ + bucket_text(b) + "] "@ + r@ + "\n"@
            } else {
                Seq::empty()
            }
        },
        _ => Seq::empty(),
    }
}

/// Raw refusal reasons at one door: every `other`, and the first sample of
/// each named bucket.
pub open spec fn raws(fns: Seq<FnTrial>, ir: bool) -> Seq<char>
    decreases fns.len(),
{
    if fns.len() == 0 {
        Seq::empty()
    } else {
        raws(fns.drop_last(), ir) + raw_line(fns.drop_last(), fns.last(), ir)
    }
}

/// The whole rendered report.
pub open spec fn report_text(fns: Seq<FnTrial>) -> Seq<char> {
    header(fns) + disagreements(fns)
        + "\nIR-door refusal histogram (the roadmap pricing data):\n"@ + hist_down(
        fns,
        fns.len(),
        0,
    ) + "\nper-fn detail:\n"@ + details(fns)
        + "\nraw IR refusal reasons (all `other`, one sample per named bucket):\n"@ + raws(
        fns,
        true,
    ) + "\nraw syn refusal reasons (all `other`, one sample per named bucket):\n"@ + raws(
        fns,
        false,
    )
}

fn tally_exec(f: &FnTrial, t: &Tally) -> (r: bool)
    ensures
        r == tallies(*f, *t),
{
    match t {
        Tally::SynAdmits => matches!(f.syn, DoorOutcome::Admitted { .. }),
        Tally::IrAdmits => matches!(f.ir, DoorOutcome::Admitted { .. }),
        Tally::IrOnly => matches!(f.ir, DoorOutcome::Admitted { .. }) && matches!(
            f.syn,
            DoorOutcome::Refused(_)
        ),
        Tally::Compared => f.cross_gate.is_some(),
        Tally::Agree => matches!(f.cross_gate, Some(Ok(_))),
    }
}

fn count_exec(fns: &Vec<FnTrial>, t: Tally) -> (r: usize)
    ensures
        r == count_of(fns@, t),
{
    let mut k: usize = 0;
    let mut i: usize = 0;
    while i < fns.len()
        invariant
            i <= fns@.len(),
            k <= i,
            k == count_of(fns@.take(i as int), t),
        decreases fns@.len() - i,
    {
        assert(fns@.take(i + 1).drop_last() =~= fns@.take(i as int));
        if tally_exec(&fns[i], &t) {
            k += 1;
        }
        i += 1;
    }
    assert(fns@.take(i as int) =~= fns@);
    k
}

fn put_door(buf: &mut Vec<char>, o: &DoorOutcome)
    ensures
        final(buf)@ == old(buf)@ + door_text(*o),
{
    match o {
        DoorOutcome::Admitted { nodes } => {
            put_lit(buf, "OK(");
            put(buf, &decimal_exec(*nodes));
            put_lit(buf, "n)");
        },
        DoorOutcome::Refused(r) => {
            let rc = chars_of(r.as_str());
            put_lit(buf, "refused[");
            put_lit(buf, bucket_name(bucket_id(&rc)));
            put_lit(buf, "]");
        },
    }
    assert(buf@ =~= old(buf)@ + door_text(*o));
}

/// Bucket `b`'s name starts with "other": every such refusal is listed raw.
pub open spec fn is_other(b: nat) -> bool {
    starts_with(bucket_text(b), "other"@)
}

proof fn lemma_seen_step(
    pre: Seq<FnTrial>,
    nxt: Seq<FnTrial>,
    ir: bool,
    s0: Seq<bool>,
    s1: Seq<bool>,
    gb: int,
)
    requires
        nxt.len() == pre.len() + 1,
        forall|j: int| 0 <= j < pre.len() ==> #[trigger] nxt[j] == pre[j],
        s0.len() == N_BUCKETS,
        s1.len() == N_BUCKETS,
        forall|b: int|
            0 <= b < N_BUCKETS && !is_other(b as nat) ==> (#[trigger] s0[b] <==> seen(
                pre,
                ir,
                b as nat,
            )),
        gb >= -1,
        gb == -1 ==> !(side(nxt.last(), ir) is Refused),
        gb >= 0 ==> refused_into(side(nxt.last(), ir), gb as nat),
        forall|x: int| 0 <= x < N_BUCKETS && x != gb ==> #[trigger] s1[x] == s0[x],
        gb >= 0 && !is_other(gb as nat) ==> s1[gb],
    ensures
        forall|b: int|
            0 <= b < N_BUCKETS && !is_other(b as nat) ==> (#[trigger] s1[b] <==> seen(
                nxt,
                ir,
                b as nat,
            )),
{
    assert forall|b: int| 0 <= b < N_BUCKETS && !is_other(b as nat) implies (#[trigger] s1[b]
        <==> seen(nxt, ir, b as nat)) by {
        let last = nxt.len() - 1;
        assert(nxt[last] == nxt.last());
        if b == gb {
            assert(refused_into(side(nxt[last], ir), b as nat));
            assert(seen(nxt, ir, b as nat));
            assert(s1[b]);
        } else {
            assert(s1[b] == s0[b]);
            assert(s0[b] <==> seen(pre, ir, b as nat));
            if seen(pre, ir, b as nat) {
                let j = choose|j: int|
                    0 <= j < pre.len() && #[trigger] refused_into(side(pre[j], ir), b as nat);
                assert(nxt[j] == pre[j]);
                assert(refused_into(side(nxt[j], ir), b as nat));
                assert(seen(nxt, ir, b as nat));
            }
            if seen(nxt, ir, b as nat) {
                let j = choose|j: int|
                    0 <= j < nxt.len() && #[trigger] refused_into(side(nxt[j], ir), b as nat);
                if j < pre.len() {
                    assert(nxt[j] == pre[j]);
                    assert(refused_into(side(pre[j], ir), b as nat));
                    assert(seen(pre, ir, b as nat));
                } else {
                    assert(j == last);
                    match side(nxt.last(), ir) {
                        DoorOutcome::Refused(r) => {
                            assert(bucket_index(r@) == b as nat);
                            assert(gb >= 0);
                            assert(bucket_index(r@) == gb as nat);
                        },
                        DoorOutcome::Admitted { .. } => {},
                    }
                }
            }
        }
    }
}

fn put_raw(buf: &mut Vec<char>, name: &str, b: usize, r: &[char])
    requires
        b < N_BUCKETS,
    ensures
        final(buf)@ == old(buf)@ + ("  "@ + pad_right(name@, 30) + " ["@ + bucket_text(b as nat)
            + "] "@ + r@ + "\n"@),
{
    put_lit(buf, "  ");
    put_pad_right(buf, &chars_of(name), 30);
    put_lit(buf, " [");
    put_lit(buf, bucket_name(b));
    put_lit(buf, "] ");
    put(buf, r);
    put_lit(buf, "\n");
    assert(buf@ =~= old(buf)@ + ("  "@ + pad_right(name@, 30) + " ["@ + bucket_text(b as nat)
        + "] "@ + r@ + "\n"@));
}

/// Append the raw-reason section body for one door.
fn put_raws(buf: &mut Vec<char>, fns: &Vec<FnTrial>, ir: bool)
    ensures
        final(buf)@ == old(buf)@ + raws(fns@, ir),
{
    let ghost b0 = buf@;
    let mut sampled: Vec<bool> = Vec::new();
    let mut k: usize = 0;
    while k < N_BUCKETS
        invariant
            k <= N_BUCKETS,
            sampled@.len() == k,
            forall|j: int| 0 <= j < k ==> !sampled@[j],
        decreases N_BUCKETS - k,
    {
        sampled.push(false);
        k += 1;
    }
    let mut i: usize = 0;
    while i < fns.len()
        invariant
            i <= fns@.len(),
            sampled@.len() == N_BUCKETS,
            buf@ == b0 + raws(fns@.take(i as int), ir),
            forall|b: int|
                0 <= b < N_BUCKETS && !is_other(b as nat) ==> (#[trigger] sampled@[b] <==> seen(
                    fns@.take(i as int),
                    ir,
                    b as nat,
                )),
        decreases fns@.len() - i,
    {
        let ghost pre = fns@.take(i as int);
        let ghost nxt = fns@.take(i + 1);
        assert(nxt.drop_last() =~= pre);
        assert(nxt.last() == fns@[i as int]);
        let f = &fns[i];
        let o = if ir {
            &f.ir
        } else {
            &f.syn
        };
        let ghost s0 = sampled@;
        let ghost bb = buf@;
        let ghost mut gb: int = -1;
        if let DoorOutcome::Refused(r) = o {
            let rc = chars_of(r.as_str());
            let b = bucket_id(&rc);
            let nc = chars_of(bucket_name(b));
            let other = starts(&nc, "other");
            if other || !sampled[b] {
                if !other {
                    sampled.set(b, true);
                }
                put_raw(buf, f.name.as_str(), b, &rc);
            }
            proof {
                gb = b as int;
                assert(!other ==> (s0[b as int] <==> seen(pre, ir, b as nat)));
            }
        }
        proof {
            assert(buf@ == bb + raw_line(pre, fns@[i as int], ir));
            lemma_seen_step(pre, nxt, ir, s0, sampled@, gb);
        }
        i += 1;
    }
    assert(fns@.take(i as int) =~= fns@);
}

fn put_header(buf: &mut Vec<char>, fns: &Vec<FnTrial>)
    ensures
        final(buf)@ == old(buf)@ + header(fns@),
{
    put_lit(buf, "FIELD TRIAL: ");
    put(buf, &decimal_exec(fns.len()));
    put_lit(buf, " fns audited\n");
    put_lit(buf, "  syn door admits : ");
    put(buf, &decimal_exec(count_exec(fns, Tally::SynAdmits)));
    put_lit(buf, "\n");
    put_lit(buf, "  IR  door admits : ");
    put(buf, &decimal_exec(count_exec(fns, Tally::IrAdmits)));
    put_lit(buf, "  (");
    put(buf, &decimal_exec(count_exec(fns, Tally::IrOnly)));
    put_lit(buf, " of them REFUSED by syn \u{2014} the IR door's added coverage)\n");
    put_lit(buf, "  cross-door gate : ");
    put(buf, &decimal_exec(count_exec(fns, Tally::Agree)));
    put_lit(buf, "/");
    put(buf, &decimal_exec(count_exec(fns, Tally::Compared)));
    put_lit(buf, " agree bitwise over 2e3 mu' samples\n");
    assert(buf@ =~= old(buf)@ + header(fns@));
}

fn put_disagreements(buf: &mut Vec<char>, fns: &Vec<FnTrial>)
    ensures
        final(buf)@ == old(buf)@ + disagreements(fns@),
{
    let ghost b0 = buf@;
    let n = fns.len();
    let mut i: usize = 0;
    while i < n
        invariant
            n == fns@.len(),
            i <= n,
            buf@ == b0 + disagreements(fns@.take(i as int)),
        decreases n - i,
    {
        assert(fns@.take(i + 1).drop_last() =~= fns@.take(i as int));
        let f = &fns[i];
        if let Some(Err(e)) = &f.cross_gate {
            put_lit(buf, "  !! ");
            put(buf, &chars_of(f.name.as_str()));
            put_lit(buf, ": ");
            put(buf, &chars_of(e.as_str()));
            put_lit(buf, "\n");
        }
        i += 1;
        assert(buf@ =~= b0 + disagreements(fns@.take(i as int)));
    }
    assert(fns@.take(n as int) =~= fns@);
}

/// IR refusals per bucket.
fn bucket_counts(fns: &Vec<FnTrial>) -> (counts: Vec<usize>)
    ensures
        counts@.len() == N_BUCKETS,
        forall|b: int| 0 <= b < N_BUCKETS ==> #[trigger] counts@[b] == occ(fns@, b as nat),
{
    let n = fns.len();
    let mut counts: Vec<usize> = Vec::new();
    let mut k: usize = 0;
    while k < N_BUCKETS
        invariant
            k <= N_BUCKETS,
            counts@.len() == k,
            forall|j: int| 0 <= j < k ==> counts@[j] == 0,
        decreases N_BUCKETS - k,
    {
        counts.push(0);
        k += 1;
    }
    let mut i: usize = 0;
    while i < n
        invariant
            n == fns@.len(),
            i <= n,
            counts@.len() == N_BUCKETS,
            forall|b: int|
                0 <= b < N_BUCKETS ==> #[trigger] counts@[b] == occ(fns@.take(i as int), b as nat)
                    && counts@[b] <= i,
        decreases n - i,
    {
        let ghost pre = fns@.take(i as int);
        let ghost nxt = fns@.take(i + 1);
        assert(nxt.drop_last() =~= pre);
        assert(nxt.last() == fns@[i as int]);
        if let DoorOutcome::Refused(r) = &fns[i].ir {
            let b = bucket_id(&chars_of(r.as_str()));
            let c = counts[b] + 1;
            counts.set(b, c);
        }
        i += 1;
    }
    assert(fns@.take(n as int) =~= fns@);
    counts
}

fn put_row(buf: &mut Vec<char>, fns: &Vec<FnTrial>, count: usize, c: usize, b: usize)
    requires
        b < N_BUCKETS,
        count == occ(fns@, b as nat),
    ensures
        final(buf)@ == old(buf)@ + row(fns@, c as nat, b as nat),
{
    if count == c {
        put_lit(buf, "  ");
        put_pad_left(buf, &decimal_exec(c), 4);
        put_lit(buf, "  ");
        put_lit(buf, bucket_name(b));
        put_lit(buf, "\n");
    }
    assert(buf@ =~= old(buf)@ + row(fns@, c as nat, b as nat));
}

fn put_hist(buf: &mut Vec<char>, fns: &Vec<FnTrial>)
    ensures
        final(buf)@ == old(buf)@ + hist_down(fns@, fns@.len(), 0),
{
    let ghost b0 = buf@;
    let n = fns.len();
    let counts = bucket_counts(fns);
    let mut c: usize = n;
    while c > 0
        invariant
            n == fns@.len(),
            c <= n,
            counts@.len() == N_BUCKETS,
            forall|b: int| 0 <= b < N_BUCKETS ==> #[trigger] counts@[b] == occ(fns@, b as nat),
            buf@ == b0 + hist_down(fns@, n as nat, c as nat),
        decreases c,
    {
        let ghost h = buf@;
        let mut b: usize = 0;
        while b < N_BUCKETS
            invariant
                b <= N_BUCKETS,
                c <= n,
                counts@.len() == N_BUCKETS,
                forall|x: int| 0 <= x < N_BUCKETS ==> #[trigger] counts@[x] == occ(fns@, x as nat),
                buf@ == h + rows_of(fns@, c as nat, b as nat),
            decreases N_BUCKETS - b,
        {
            put_row(buf, fns, counts[b], c, b);
            b += 1;
            assert(buf@ =~= h + rows_of(fns@, c as nat, b as nat));
        }
        c -= 1;
        assert(buf@ =~= b0 + hist_down(fns@, n as nat, c as nat));
    }
}

fn put_detail_line(buf: &mut Vec<char>, f: &FnTrial)
    ensures
        final(buf)@ == old(buf)@ + detail_line(*f),
{
    put_lit(buf, "  ");
    put_pad_right(buf, &chars_of(f.name.as_str()), 30);
    put_lit(buf, " syn=");
    put_door(buf, &f.syn);
    put_lit(buf, " ir=");
    put_door(buf, &f.ir);
    match &f.cross_gate {
        Some(Ok(())) => put_lit(buf, " gate=AGREE"),
        Some(Err(_)) => put_lit(buf, " gate=DISAGREE!"),
        None => {},
    }
    put_lit(buf, "\n");
    assert(buf@ =~= old(buf)@ + detail_line(*f));
}

fn put_details(buf: &mut Vec<char>, fns: &Vec<FnTrial>)
    ensures
        final(buf)@ == old(buf)@ + details(fns@),
{
    let ghost b0 = buf@;
    let n = fns.len();
    let mut i: usize = 0;
    while i < n
        invariant
            n == fns@.len(),
            i <= n,
            buf@ == b0 + details(fns@.take(i as int)),
        decreases n - i,
    {
        assert(fns@.take(i + 1).drop_last() =~= fns@.take(i as int));
        put_detail_line(buf, &fns[i]);
        i += 1;
        assert(buf@ =~= b0 + details(fns@.take(i as int)));
    }
    assert(fns@.take(n as int) =~= fns@);
}

// ------------------------------------------------------------ the IR door --

/// The IR door's outcome for one function, given what the compiler emitted
/// for it (its IR text, or why none could be had).
pub fn try_ir(emitted: Result<String, String>, name: &str) -> (r: (DoorOutcome, Option<Term>))
    ensures
        emitted matches Err(e) ==> r.0 == DoorOutcome::Refused(e) && r.1 is None,
        r.1 matches Some(t) ==> t.wf() && r.0 == (DoorOutcome::Admitted { nodes: t.nodes@.len() as usize }),
        r.1 is None ==> r.0 is Refused,
        emitted matches Ok(ir) ==> (r.1 matches Some(t) ==> crate::lift::lifted_from(ir@, name@, t)),
{
    let ir = match emitted {
        Ok(ir) => ir,
        Err(e) => return (DoorOutcome::Refused(e), None),
    };
    let text = ir.as_str();
    assert(text@ == ir@);
    match lift_ll(text, name) {
        Ok(t) => {
            let n = t.len();
            (DoorOutcome::Admitted { nodes: n }, Some(t))
        },
        Err(e) => (DoorOutcome::Refused(e.message()), None),
    }
}

/// Lift the trial wrapper `dge_trial` from the shim's IR; when that refuses
/// on an opaque call, the generic instantiation was emitted but not inlined,
/// so the instantiated `fn_name` itself is lifted instead.
pub fn lift_from_shim(ir: &str, fn_name: &str) -> (r: Result<Term, String>)
    ensures
        r matches Ok(t) ==> t.wf(),
        r matches Ok(t) ==> crate::lift::lifted_from(ir@, "dge_trial"@, t)
            || crate::lift::lifted_from(ir@, fn_name@, t),
{
    match lift_ll(ir, "dge_trial") {
        Ok(t) => Ok(t),
        Err(e1) => {
            let s1 = e1.message();
            if has(&chars_of(s1.as_str()), "libm map") {
                match lift_ll(ir, fn_name) {
                    Ok(t) => Ok(t),
                    Err(e2) => {
                        let mut m = s1;
                        push_lit(&mut m, "; direct instantiation also refused: ");
                        let s2 = e2.message();
                        m.append(s2.as_str());
                        Err(m)
                    },
                }
            } else {
                Err(s1)
            }
        },
    }
}

impl TrialReport {
    pub fn render(&self) -> (out: String)
        ensures
            out@ == report_text(self.fns@),
    {
        let fns = &self.fns;
        let mut buf: Vec<char> = Vec::new();
        put_header(&mut buf, fns);
        put_disagreements(&mut buf, fns);
        put_lit(&mut buf, "\nIR-door refusal histogram (the roadmap pricing data):\n");
        put_hist(&mut buf, fns);
        put_lit(&mut buf, "\nper-fn detail:\n");
        put_details(&mut buf, fns);
        put_lit(&mut buf, "\nraw IR refusal reasons (all `other`, one sample per named bucket):\n");
        put_raws(&mut buf, fns, true);
        put_lit(
            &mut buf,
            "\nraw syn refusal reasons (all `other`, one sample per named bucket):\n",
        );
        put_raws(&mut buf, fns, false);
        assert(buf@ =~= report_text(fns@));
        string_of(&buf)
    }
}

} // verus!
