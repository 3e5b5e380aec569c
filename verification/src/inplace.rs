//! Locating a function in its source file and planning its in-place
//! rewrite: byte offsets from line/column positions, the map from emitted
//! slots back to the source's own expressions, and the splice of verified
//! replacements into the file text.
use vstd::prelude::*;
use crate::fmt::{decimal, decimal_exec};
use crate::optimize::{
    body_inner, build_replacement, cert_rules, closes_at, collides_generated, first_line, indent_at,
    line_indent, replacement_text, rules_of, strings_view, strip_generated_preamble, summary_line,
    without_preamble, Status,
};
use crate::text::{
    chars_of, copy_range, first_char_at, has_char, lines, owned, push_lit, put, put_lit, string_of,
    utf8_len, utf8_width,
};

verus! {

// ------------------------------------------------------- byte positions --

/// `b` is the byte offset of a character boundary of `s`.
pub open spec fn is_boundary(s: Seq<char>, b: int) -> bool {
    exists|ci: int| 0 <= ci <= s.len() && utf8_len(#[trigger] s.take(ci)) == b
}

proof fn lemma_utf8_step(s: Seq<char>, j: int)
    requires
        0 <= j < s.len(),
    ensures
        utf8_len(s.take(j + 1)) == utf8_len(s.take(j)) + utf8_width(s[j]),
        utf8_len(s.take(j + 1)) >= utf8_len(s.take(j)) + 1,
{
    assert(s.take(j + 1).drop_last() =~= s.take(j));
}

/// Byte offsets grow strictly with the char index.
proof fn lemma_utf8_strict(s: Seq<char>, a: int, b: int)
    requires
        0 <= a <= b <= s.len(),
    ensures
        utf8_len(s.take(a)) + (b - a) <= utf8_len(s.take(b)),
    decreases b - a,
{
    if a < b {
        lemma_utf8_strict(s, a, b - 1);
        lemma_utf8_step(s, b - 1);
    }
}

/// The char index at byte boundary `b`: the unique one.
pub open spec fn char_index(s: Seq<char>, b: int) -> int {
    choose|ci: int| 0 <= ci <= s.len() && utf8_len(#[trigger] s.take(ci)) == b
}

proof fn lemma_char_index_unique(s: Seq<char>, b: int, ci: int)
    requires
        0 <= ci <= s.len(),
        utf8_len(s.take(ci)) == b,
    ensures
        char_index(s, b) == ci,
{
    let cj = char_index(s, b);
    if cj < ci {
        lemma_utf8_strict(s, cj, ci);
    } else if cj > ci {
        lemma_utf8_strict(s, ci, cj);
    }
}

/// The char index of byte boundary `b`.
pub fn char_index_exec(c: &[char], b: usize) -> (ci: usize)
    requires
        is_boundary(c@, b as int),
    ensures
        ci <= c@.len(),
        utf8_len(c@.take(ci as int)) == b,
        ci == char_index(c@, b as int),
{
    let mut ci: usize = 0;
    let mut bytes: usize = 0;
    assert(c@.take(0) =~= Seq::<char>::empty());
    while bytes < b && ci < c.len()
        invariant
            ci <= c@.len(),
            bytes == utf8_len(c@.take(ci as int)),
            bytes <= b,
            is_boundary(c@, b as int),
        decreases c@.len() - ci,
    {
        proof {
            lemma_utf8_step(c@, ci as int);
            let k = choose|k: int| 0 <= k <= c@.len() && utf8_len(#[trigger] c@.take(k)) == b;
            if k <= ci {
                lemma_utf8_strict(c@, k, ci as int);
            }
            lemma_utf8_strict(c@, ci as int + 1, k);
        }
        let u = c[ci] as u32;
        let w: usize = if u < 0x80 {
            1
        } else if u < 0x800 {
            2
        } else if u < 0x10000 {
            3
        } else {
            4
        };
        bytes = bytes + w;
        ci += 1;
    }
    proof {
        let k = choose|k: int| 0 <= k <= c@.len() && utf8_len(#[trigger] c@.take(k)) == b;
        if bytes < b {
            lemma_utf8_strict(c@, k, ci as int);
        }
        lemma_char_index_unique(c@, b as int, ci as int);
    }
    ci
}

/// Characters a column walk consumes from char index `i`: up to `col` of
/// them, stopping after a line break or at the end of the text.
pub open spec fn walked(s: Seq<char>, i: int, col: nat) -> nat
    decreases s.len() - i,
{
    if col == 0 || i < 0 || i >= s.len() {
        0
    } else if s[i] == '\n' {
        1
    } else {
        1 + walked(s, i + 1, (col - 1) as nat)
    }
}

/// The line a 1-based `line` selects among `n` line starts (clamped).
pub open spec fn line_slot(line: nat, n: nat) -> int {
    let l = if line == 0 { 0 } else { line - 1 };
    if l < n - 1 { l } else { n - 1 }
}

/// Byte offset of a 1-based line and 0-based char column, given the byte
/// offsets `ls` of the line starts of `src`: the column is counted from the
/// line's start and stops at the line's end.
pub fn lc_to_byte(src: &str, ls: &[usize], line: usize, column: usize) -> (r: usize)
    requires
        ls@.len() > 0,
        is_boundary(src@, ls@[line_slot(line as nat, ls@.len()) as int] as int),
        utf8_len(src@) <= usize::MAX,
    ensures
        ({
            let ci = char_index(src@, ls@[line_slot(line as nat, ls@.len())] as int);
            r == utf8_len(src@.take(ci + walked(src@, ci, column as nat)))
        }),
{
    let c = chars_of(src);
    let l = if line == 0 { 0 } else { line - 1 };
    let li = if l < ls.len() - 1 { l } else { ls.len() - 1 };
    let start = ls[li];
    let ci = char_index_exec(&c, start);
    let ghost s = c@;
    let mut byte = start;
    let mut col: usize = 0;
    let mut i = ci;
    let mut stop = false;
    while i < c.len() && !stop && col < column
        invariant
            ci <= i <= s.len(),
            s == c@,
            s == src@,
            utf8_len(s) <= usize::MAX,
            col == i - ci,
            col <= column,
            byte == utf8_len(s.take(i as int)),
            !stop ==> walked(s, ci as int, column as nat) == col + walked(
                s,
                i as int,
                (column - col) as nat,
            ),
            stop ==> walked(s, ci as int, column as nat) == col,
        decreases s.len() - i, if stop { 0int } else { 1int },
    {
        proof {
            lemma_utf8_step(s, i as int);
            lemma_utf8_prefix_le(s, i + 1);
        }
        let ch = c[i];
        let u = ch as u32;
        let w: usize = if u < 0x80 {
            1
        } else if u < 0x800 {
            2
        } else if u < 0x10000 {
            3
        } else {
            4
        };
        byte = byte + w;
        col += 1;
        i += 1;
        if ch == '\n' {
            stop = true;
        }
    }
    byte
}

proof fn lemma_utf8_prefix_le(s: Seq<char>, k: int)
    requires
        0 <= k <= s.len(),
    ensures
        utf8_len(s.take(k)) <= utf8_len(s),
{
    lemma_utf8_strict(s, k, s.len() as int);
    assert(s.take(s.len() as int) =~= s);
}

// ------------------------------------------------------------- slot map --

/// One typed parameter's shape.
#[derive(Debug, Clone)]
pub enum ParamKind {
    Scalar(String),
    /// name, element count `N` of `[f64; N]` / `&[f64; N]`
    Array(String, usize),
    /// `&[f64]`
    Sequence(String),
    /// why the parameter cannot be rewritten in place
    Bad(String),
}

/// One parameter of a signature, as the slot map reads it.
#[derive(Debug, Clone)]
pub enum SigArg {
    Receiver { mutable: bool },
    Typed(ParamKind),
}

/// The slot map built so far: var-slot expressions, sequence names, and the
/// first reason the shape can't be rewritten in place.
pub type SlotMapV = (Seq<Seq<char>>, Seq<Seq<char>>, Option<Seq<char>>);

/// Keep the first reason.
pub open spec fn first_bad(bad: Option<Seq<char>>, why: Seq<char>) -> Option<Seq<char>> {
    if bad is Some {
        bad
    } else {
        Some(why)
    }
}

pub open spec fn flagged(bad: Option<Seq<char>>, n: Seq<char>) -> Option<Seq<char>> {
    if crate::optimize::is_generated_name(n) {
        first_bad(bad, "param `"@ + n + "` collides with a generated identifier"@)
    } else {
        bad
    }
}

/// `self.<field>` for each `f64` field, in declaration order.
pub open spec fn f64_field_slots(fs: Seq<(Seq<char>, Seq<char>)>) -> Seq<Seq<char>>
    decreases fs.len(),
{
    if fs.len() == 0 {
        Seq::empty()
    } else if fs.last().1 == "f64"@ {
        f64_field_slots(fs.drop_last()).push("self."@ + fs.last().0)
    } else {
        f64_field_slots(fs.drop_last())
    }
}

/// `n[0]`, …, `n[len-1]`.
pub open spec fn array_slots(n: Seq<char>, len: nat) -> Seq<Seq<char>> {
    Seq::new(len, |j: int| n + "["@ + decimal(j as nat) + "]"@)
}

pub open spec fn pairs_view(fs: Seq<(String, String)>) -> Seq<(Seq<char>, Seq<char>)> {
    fs.map_values(|p: (String, String)| (p.0@, p.1@))
}

/// The slot map after one more parameter.
pub open spec fn slot_step(
    st: SlotMapV,
    a: SigArg,
    self_ty: Option<Seq<char>>,
    fields: Option<Seq<(Seq<char>, Seq<char>)>>,
) -> SlotMapV {
    let (slots, seqs, bad) = st;
    match a {
        SigArg::Receiver { mutable } => {
            if mutable {
                (slots, seqs, first_bad(bad, "`&mut self` receiver (effectful)"@))
            } else {
                match self_ty {
                    None => (slots, seqs, first_bad(bad, "method on an unnameable self type"@)),
                    Some(tyn) => match fields {
                        None => (
                            slots,
                            seqs,
                            first_bad(
                                bad,
                                "receiver struct `"@ + tyn + "` not defined in this file"@,
                            ),
                        ),
                        Some(fs) => (slots + f64_field_slots(fs), seqs, bad),
                    },
                }
            }
        },
        SigArg::Typed(k) => match k {
            ParamKind::Scalar(n) => (slots.push(n@), seqs, flagged(bad, n@)),
            ParamKind::Array(n, len) => (
                slots + array_slots(n@, len as nat),
                seqs,
                flagged(bad, n@),
            ),
            ParamKind::Sequence(n) => (slots, seqs.push(n@), flagged(bad, n@)),
            ParamKind::Bad(r) => (slots, seqs, first_bad(bad, r@)),
        },
    }
}

/// The slot map of a whole signature.
pub open spec fn slot_map(
    args: Seq<SigArg>,
    self_ty: Option<Seq<char>>,
    fields: Option<Seq<(Seq<char>, Seq<char>)>>,
) -> SlotMapV
    decreases args.len(),
{
    if args.len() == 0 {
        (Seq::empty(), Seq::empty(), None)
    } else {
        slot_step(slot_map(args.drop_last(), self_ty, fields), args.last(), self_ty, fields)
    }
}

pub open spec fn opt_view(o: Option<String>) -> Option<Seq<char>> {
    match o {
        Some(x) => Some(x@),
        None => None,
    }
}

fn owned_chars(l: &str) -> (r: String)
    ensures
        r@ == l@,
{
    crate::text::owned(l)
}

fn keep_first(bad: &mut Option<String>, why: String)
    ensures
        opt_view(*final(bad)) == first_bad(opt_view(*old(bad)), why@),
{
    if bad.is_none() {
        *bad = Some(why);
    }
}

fn push_view(v: &mut Vec<String>, x: String)
    ensures
        final(v)@.map_values(|s: String| s@) == old(v)@.map_values(|s: String| s@).push(x@),
{
    v.push(x);
    assert(v@.map_values(|s: String| s@) =~= old(v)@.map_values(|s: String| s@).push(x@));
}

/// The var-slot expressions and sequence names a signature maps to, in the
/// order the extractor assigns slots (a receiver's `f64` fields in
/// declaration order, then the parameters in source order: a scalar takes
/// one slot, `[f64; N]` takes `N`, `&[f64]` a sequence slot), with the
/// first reason, if any, the shape can't be rewritten in place. `fields`
/// are the named fields (name, type text) of the receiver's struct `self_ty`
/// when it is defined in the file.
pub fn build_slotmap(
    args: &[SigArg],
    self_ty: Option<&str>,
    fields: Option<&[(String, String)]>,
) -> (r: (Vec<String>, Vec<String>, Option<String>))
    ensures
        ({
            let sty = match self_ty {
                Some(t) => Some(t@),
                None => None,
            };
            let fv = match fields {
                Some(f) => Some(pairs_view(f@)),
                None => None,
            };
            let m = slot_map(args@, sty, fv);
            &&& r.0@.map_values(|s: String| s@) == m.0
            &&& r.1@.map_values(|s: String| s@) == m.1
            &&& opt_view(r.2) == m.2
        }),
{
    let ghost sty = match self_ty {
        Some(t) => Some(t@),
        None => None,
    };
    let ghost fv = match fields {
        Some(f) => Some(pairs_view(f@)),
        None => None,
    };
    let mut slots: Vec<String> = Vec::new();
    let mut seqs: Vec<String> = Vec::new();
    let mut bad: Option<String> = None;
    let mut i: usize = 0;
    assert(args@.take(0) =~= Seq::<SigArg>::empty());
    assert(slots@.map_values(|s: String| s@) =~= Seq::<Seq<char>>::empty());
    assert(seqs@.map_values(|s: String| s@) =~= Seq::<Seq<char>>::empty());
    while i < args.len()
        invariant
            i <= args@.len(),
            sty == (match self_ty {
                Some(t) => Some(t@),
                None => None::<Seq<char>>,
            }),
            fv == (match fields {
                Some(f) => Some(pairs_view(f@)),
                None => None::<Seq<(Seq<char>, Seq<char>)>>,
            }),
            ({
                let m = slot_map(args@.take(i as int), sty, fv);
                &&& slots@.map_values(|s: String| s@) == m.0
                &&& seqs@.map_values(|s: String| s@) == m.1
                &&& opt_view(bad) == m.2
            }),
        decreases args@.len() - i,
    {
        assert(args@.take(i + 1).drop_last() =~= args@.take(i as int));
        match &args[i] {
            SigArg::Receiver { mutable } => {
                if *mutable {
                    keep_first(&mut bad, owned_chars("`&mut self` receiver (effectful)"));
                } else {
                    match self_ty {
                        None => {
                            keep_first(&mut bad, owned_chars("method on an unnameable self type"));
                        },
                        Some(tyn) => match fields {
                            None => {
                                let mut m = owned_chars("receiver struct `");
                                m.append(tyn);
                                crate::text::push_lit(&mut m, "` not defined in this file");
                                keep_first(&mut bad, m);
                            },
                            Some(fs) => {
                                let ghost before = slots@.map_values(|s: String| s@);
                                let mut j: usize = 0;
                                assert(pairs_view(fs@).take(0) =~= Seq::<(Seq<char>, Seq<char>)>::empty());
                                assert(before + f64_field_slots(Seq::empty()) =~= before);
                                while j < fs.len()
                                    invariant
                                        j <= fs@.len(),
                                        slots@.map_values(|s: String| s@) == before
                                            + f64_field_slots(pairs_view(fs@).take(j as int)),
                                    decreases fs@.len() - j,
                                {
                                    assert(pairs_view(fs@).take(j + 1).drop_last() =~= pairs_view(
                                        fs@,
                                    ).take(j as int));
                                    let ghost prev = slots@.map_values(|s: String| s@);
                                    if crate::text::lit_is(&chars_of(fs[j].1.as_str()), "f64") {
                                        let mut x = owned_chars("self.");
                                        x.append(fs[j].0.as_str());
                                        push_view(&mut slots, x);
                                        assert(slots@.map_values(|s: String| s@) =~= before
                                            + f64_field_slots(pairs_view(fs@).take(j + 1)));
                                    } else {
                                        assert(slots@.map_values(|s: String| s@) =~= before
                                            + f64_field_slots(pairs_view(fs@).take(j + 1)));
                                    }
                                    j += 1;
                                }
                                assert(pairs_view(fs@).take(j as int) =~= pairs_view(fs@));
                            },
                        },
                    }
                }
            },
            SigArg::Typed(k) => match k {
                ParamKind::Scalar(n) => {
                    if collides_generated(n.as_str()) {
                        keep_first(&mut bad, collide_reason(n.as_str()));
                    }
                    push_view(&mut slots, n.clone());
                },
                ParamKind::Array(n, len) => {
                    if collides_generated(n.as_str()) {
                        keep_first(&mut bad, collide_reason(n.as_str()));
                    }
                    let ghost before = slots@.map_values(|s: String| s@);
                    let mut j: usize = 0;
                    assert(array_slots(n@, 0) =~= Seq::<Seq<char>>::empty());
                    assert(before + array_slots(n@, 0) =~= before);
                    while j < *len
                        invariant
                            j <= *len,
                            slots@.map_values(|s: String| s@) == before + array_slots(n@, j as nat),
                        decreases *len - j,
                    {
                        let mut e: Vec<char> = chars_of(n.as_str());
                        put_lit(&mut e, "[");
                        put(&mut e, &decimal_exec(j));
                        put_lit(&mut e, "]");
                        let x = string_of(&e);
                        push_view(&mut slots, x);
                        assert(slots@.map_values(|s: String| s@) =~= before + array_slots(
                            n@,
                            (j + 1) as nat,
                        ));
                        j += 1;
                    }
                },
                ParamKind::Sequence(n) => {
                    if collides_generated(n.as_str()) {
                        keep_first(&mut bad, collide_reason(n.as_str()));
                    }
                    push_view(&mut seqs, n.clone());
                },
                ParamKind::Bad(r) => {
                    keep_first(&mut bad, r.clone());
                },
            },
        }
        i += 1;
    }
    assert(args@.take(i as int) =~= args@);
    (slots, seqs, bad)
}

fn collide_reason(n: &str) -> (r: String)
    ensures
        r@ == "param `"@ + n@ + "` collides with a generated identifier"@,
{
    let mut m = owned_chars("param `");
    m.append(n);
    crate::text::push_lit(&mut m, "` collides with a generated identifier");
    m
}

// ------------------------------------------------------------- planning --

/// A located function: byte spans, and the map from emitted slots back to
/// the source's own expressions.
#[derive(Debug)]
pub struct FnLoc {
    /// byte offset of the item's start (first attribute, visibility or `fn`)
    pub start: usize,
    /// byte offset just past the body's opening `{`
    pub prefix_end: usize,
    /// byte offset just past the body's closing `}`
    pub end: usize,
    /// var slot `k` (emitted `v{k}` / `v[k]`) → source expression
    pub slot_exprs: Vec<String>,
    /// sequence slot `j` (emitted `s{j}`) → source parameter name
    pub seq_names: Vec<String>,
    /// why the shape can't be rewritten in place, if it can't
    pub unshimmable: Option<String>,
}

/// The loc's spans fall on character boundaries of `src`, in order.
pub open spec fn spans_ok(src: Seq<char>, l: FnLoc) -> bool {
    &&& is_boundary(src, l.start as int)
    &&& is_boundary(src, l.prefix_end as int)
    &&& char_index(src, l.start as int) <= char_index(src, l.prefix_end as int)
}

/// The located function reaches the in-place edit (rather than being
/// reported certified-but-not-in-place before it).
pub open spec fn reaches_edit(l: FnLoc, arity: nat, seq_count: nat) -> bool {
    l.unshimmable is None && l.slot_exprs@.len() == arity && l.seq_names@.len() == seq_count
}

/// The in-place edit of a certified function, or why it stays certified
/// but not rewritten in place. `code` is the certified emission; `arity`
/// and `seq_count` are its term's. The edit replaces the item's bytes
/// `start..end`; its text is still to be re-extracted and compared with the
/// certified term before anything is written.
pub fn plan_rewrite(
    src: &str,
    loc: Option<&FnLoc>,
    code: &str,
    arity: usize,
    seq_count: usize,
) -> (r: Result<(usize, usize, String), String>)
    requires
        loc matches Some(l) ==> (reaches_edit(*l, arity as nat, seq_count as nat) ==> spans_ok(
            src@,
            *l,
        )),
    ensures
        loc is None ==> (r matches Err(m)
            && m@ == "not a free function (impl method / ambiguous) \u{2014} use `dge pipeline`"@),
        loc matches Some(l) ==> (l.unshimmable matches Some(x) ==> (r matches Err(m) && m@ == x@
            + " \u{2014} use `dge pipeline`"@)),
        loc matches Some(l) ==> (l.unshimmable is None && !reaches_edit(
            *l,
            arity as nat,
            seq_count as nat,
        ) ==> (r matches Err(m) && m@ == "param/arity shape mismatch \u{2014} use `dge pipeline`"@)),
        loc matches Some(l) ==> (reaches_edit(*l, arity as nat, seq_count as nat) ==> {
            let cs = char_index(src@, l.start as int);
            let pre = src@.subrange(cs, char_index(src@, l.prefix_end as int));
            let parsed = has_char(code@, '{') && exists|o: int, e: int|
                first_char_at(code@, '{', o) && closes_at(code@, o, e);
            &&& !parsed ==> (r matches Err(m) && m@ == "could not parse emitted body"@)
            &&& parsed ==> (r matches Ok((a, b, t)) && a == l.start && b == l.end && exists|
                o: int,
                e: int,
            |
                first_char_at(code@, '{', o) && closes_at(code@, o, e) && t@ == replacement_text(
                    code@,
                    without_preamble(pre),
                    strings_view(l.slot_exprs@),
                    strings_view(l.seq_names@),
                    code@.subrange(o + 1, e),
                    arity > 8,
                    indent_at(src@, cs),
                ))
        }),
{
    let l = match loc {
        None => {
            return Err(owned("not a free function (impl method / ambiguous) \u{2014} use `dge pipeline`"));
        },
        Some(l) => l,
    };
    match &l.unshimmable {
        Some(x) => {
            let mut m = x.clone();
            push_lit(&mut m, " \u{2014} use `dge pipeline`");
            return Err(m);
        },
        None => {},
    }
    if l.slot_exprs.len() != arity || l.seq_names.len() != seq_count {
        return Err(owned("param/arity shape mismatch \u{2014} use `dge pipeline`"));
    }
    let c = chars_of(src);
    let cs = char_index_exec(&c, l.start);
    let cp = char_index_exec(&c, l.prefix_end);
    let prefix = string_of(&copy_range(&c, cs, cp));
    let inner = match body_inner(code) {
        Some(x) => x,
        None => return Err(owned("could not parse emitted body")),
    };
    let array_shape = arity > 8;
    let indent = line_indent(src, l.start);
    let stripped = strip_generated_preamble(prefix.as_str());
    let repl = build_replacement(
        code,
        stripped.as_str(),
        &l.slot_exprs,
        &l.seq_names,
        inner.as_str(),
        array_shape,
        indent.as_str(),
    );
    Ok((l.start, l.end, repl))
}

/// What becomes of a planned edit once its text has been re-extracted and
/// compared with the certified term: rewritten (with the certificate's
/// costs and rules), or left as it was, with the reason the comparison
/// failed.
pub fn settle(gate: Result<(), String>, cost_before: u64, cost_after: u64, code: &str) -> (r: Status)
    ensures
        gate is Ok ==> (r matches Status::Rewritten { cost_before: b, cost_after: a, rules } && b
            == cost_before && a == cost_after && strings_view(rules@) == rules_of(lines(code@))),
        gate matches Err(e) ==> (r matches Status::CertifiedNotInPlace(m) && m@
            == "in-place form failed re-extraction gate ("@ + summary_line(e@)
            + ") \u{2014} use `dge pipeline`"@),
{
    match gate {
        Ok(()) => {
            let rules = cert_rules(code);
            proof {
                assert(strings_view(rules@) == rules@.map_values(|s: String| s@));
            }
            Status::Rewritten { cost_before, cost_after, rules }
        },
        Err(e) => {
            let mut m = owned("in-place form failed re-extraction gate (");
            let f = first_line(e.as_str());
            m.append(f.as_str());
            push_lit(&mut m, ") \u{2014} use `dge pipeline`");
            Status::CertifiedNotInPlace(m)
        },
    }
}

/// The status of a function the pipeline refused: its first line.
pub fn refusal(e: &str) -> (r: Status)
    ensures
        r matches Status::Refused(m) && m@ == summary_line(e@),
{
    Status::Refused(first_line(e))
}

// --------------------------------------------------------------- splice --

/// An edit in char indices: replace `s[a..b]` with `t`.
pub type EditV = (int, int, Seq<char>);

/// Index of the edit that starts last.
pub open spec fn top_edit(es: Seq<EditV>) -> int {
    choose|k: int| 0 <= k < es.len() && forall|j: int| 0 <= j < es.len() ==> es[j].0 <= #[trigger] es[k].0
}

/// `s` with every edit of `es` applied, from the one that starts last down,
/// so that each edit's offsets still refer to the original text.
pub open spec fn spliced(s: Seq<char>, es: Seq<EditV>) -> Seq<char>
    decreases es.len(),
{
    let k = top_edit(es);
    if es.len() == 0 || !(0 <= k < es.len()) {
        s
    } else {
        let e = es[k];
        spliced(s.take(e.0) + e.2 + s.skip(e.1), es.remove(k))
    }
}

/// The edits in char indices of `src`.
pub open spec fn edits_view(src: Seq<char>, es: Seq<(usize, usize, String)>) -> Seq<EditV> {
    es.map_values(
        |e: (usize, usize, String)|
            (char_index(src, e.0 as int), char_index(src, e.1 as int), e.2@),
    )
}

/// Edits on boundaries of `src`, non-empty, and pairwise disjoint.
pub open spec fn edits_ok(src: Seq<char>, es: Seq<(usize, usize, String)>) -> bool {
    &&& forall|i: int|
        0 <= i < es.len() ==> is_boundary(src, (#[trigger] es[i]).0 as int) && is_boundary(
            src,
            es[i].1 as int,
        ) && es[i].0 < es[i].1
    &&& forall|i: int, j: int|
        0 <= i < es.len() && 0 <= j < es.len() && i != j ==> (#[trigger] es[i]).1 <= (
        #[trigger] es[j]).0 || es[j].1 <= es[i].0
}

/// Apply verified rewrites to a file's text: each function's byte range is
/// replaced by its new text, and everything outside the ranges is kept
/// exactly as it was.
pub fn apply_edits(src: &str, edits: Vec<(usize, usize, String)>) -> (r: String)
    requires
        edits_ok(src@, edits@),
    ensures
        r@ == spliced(src@, edits_view(src@, edits@)),
{
    let c = chars_of(src);
    let ghost full = edits_view(src@, edits@);
    // the edits in char indices
    let mut es: Vec<(usize, usize, String)> = Vec::new();
    let mut i: usize = 0;
    while i < edits.len()
        invariant
            i <= edits@.len(),
            c@ == src@,
            edits_ok(src@, edits@),
            full == edits_view(src@, edits@),
            es@.len() == i,
            forall|j: int|
                0 <= j < i ==> ((#[trigger] es@[j]).0 as int, es@[j].1 as int, es@[j].2@)
                    == full[j],
        decreases edits@.len() - i,
    {
        let a = char_index_exec(&c, edits[i].0);
        let b = char_index_exec(&c, edits[i].1);
        es.push((a, b, edits[i].2.clone()));
        i += 1;
    }
    proof {
        assert forall|j: int, k: int|
            0 <= j < es@.len() && 0 <= k < es@.len() && j != k implies (#[trigger] es@[j]).1 <= (
            #[trigger] es@[k]).0 || es@[k].1 <= es@[j].0 by {
            lemma_char_index_order(src@, edits@[j].1 as int, edits@[k].0 as int);
            lemma_char_index_order(src@, edits@[k].1 as int, edits@[j].0 as int);
        }
        assert forall|j: int| 0 <= j < es@.len() implies (#[trigger] es@[j]).0 < es@[j].1 && es@[j].1
            <= src@.len() by {
            lemma_char_index_order(src@, edits@[j].1 as int, edits@[j].0 as int);
        }
    }
    let mut cur = c;
    let mut bound: usize = cur.len();
    let ghost orig = src@;
    let ghost mut rest: Seq<EditV> = full;
    assert(es@.map_values(|e: (usize, usize, String)| (e.0 as int, e.1 as int, e.2@)) =~= rest);
    proof {
        assert forall|j: int| 0 <= j < rest.len() implies (#[trigger] rest[j]).0 < rest[j].1 <= bound by {
            assert(rest[j].0 == es@[j].0);
        }
        assert forall|j: int, k: int| 0 <= j < rest.len() && 0 <= k < rest.len() && j != k implies (
        #[trigger] rest[j]).1 <= (#[trigger] rest[k]).0 || rest[k].1 <= rest[j].0 by {
            assert(rest[j].0 == es@[j].0 && rest[k].0 == es@[k].0);
        }
    }
    while es.len() > 0
        invariant
            bound <= cur@.len(),
            bound <= orig.len(),
            cur@.take(bound as int) == orig.take(bound as int),
            rest == es@.map_values(|e: (usize, usize, String)| (e.0 as int, e.1 as int, e.2@)),
            spliced(orig, full) == spliced(cur@, rest),
            edits_below(rest, bound as int),
        decreases es@.len(),
    {
        let k = top_index(&es);
        proof {
            assert forall|x: int| 0 <= x < rest.len() implies (#[trigger] rest[x]).0 <= rest[k as int].0 by {
                assert(rest[x].0 == es@[x].0);
            }
            lemma_top_is(rest, k as int, bound as int);
        }
        let ghost before = cur@;
        let e = es.remove(k);
        let next = splice_one(&cur, e.0, e.1, e.2.as_str());
        proof {
            assert(rest.remove(k as int) =~= es@.map_values(
                |e: (usize, usize, String)| (e.0 as int, e.1 as int, e.2@),
            ));
            assert(next@.take(e.0 as int) =~= orig.take(e.0 as int)) by {
                assert(before.take(bound as int).take(e.0 as int) =~= before.take(e.0 as int));
                assert(orig.take(bound as int).take(e.0 as int) =~= orig.take(e.0 as int));
            }
            lemma_below_after_top(rest, k as int, bound as int);
        }
        cur = next;
        bound = e.0;
        proof {
            rest = rest.remove(k as int);
        }
    }
    string_of(&cur)
}

/// Every edit is non-empty and ends by `bound`, and no two overlap.
pub open spec fn edits_below(es: Seq<EditV>, bound: int) -> bool {
    &&& forall|j: int| 0 <= j < es.len() ==> (#[trigger] es[j]).0 < es[j].1 <= bound
    &&& forall|j: int, k: int|
        0 <= j < es.len() && 0 <= k < es.len() && j != k ==> (#[trigger] es[j]).1 <= (
        #[trigger] es[k]).0 || es[k].1 <= es[j].0
}

/// An edit that starts no earlier than any other is the one `top_edit`
/// picks: disjoint non-empty edits have distinct starts.
proof fn lemma_top_is(es: Seq<EditV>, k: int, bound: int)
    requires
        edits_below(es, bound),
        0 <= k < es.len(),
        forall|x: int| 0 <= x < es.len() ==> (#[trigger] es[x]).0 <= es[k].0,
    ensures
        top_edit(es) == k,
{
    let t = top_edit(es);
    assert(forall|j: int| 0 <= j < es.len() ==> es[j].0 <= #[trigger] es[k].0);
    if t != k {
        assert(es[t].0 <= es[k].0);
        assert(es[k].0 <= es[t].0);
        assert(es[t].1 <= es[k].0 || es[k].1 <= es[t].0);
    }
}

/// Once the last-starting edit is applied, the others all end before its
/// start.
proof fn lemma_below_after_top(es: Seq<EditV>, k: int, bound: int)
    requires
        edits_below(es, bound),
        0 <= k < es.len(),
        forall|x: int| 0 <= x < es.len() ==> (#[trigger] es[x]).0 <= es[k].0,
    ensures
        edits_below(es.remove(k), es[k].0),
{
    let r = es.remove(k);
    assert forall|j: int| 0 <= j < r.len() implies (#[trigger] r[j]).0 < r[j].1 <= es[k].0 by {
        let jj = if j < k { j } else { j + 1 };
        assert(r[j] == es[jj]);
        assert(es[jj].0 <= es[k].0);
        assert(es[jj].1 <= es[k].0 || es[k].1 <= es[jj].0);
    }
    assert forall|j: int, m: int| 0 <= j < r.len() && 0 <= m < r.len() && j != m implies (
    #[trigger] r[j]).1 <= (#[trigger] r[m]).0 || r[m].1 <= r[j].0 by {
        let jj = if j < k { j } else { j + 1 };
        let mm = if m < k { m } else { m + 1 };
        assert(r[j] == es[jj] && r[m] == es[mm]);
        assert(es[jj].1 <= es[mm].0 || es[mm].1 <= es[jj].0);
    }
}

/// Index of an edit that starts no earlier than any other.
fn top_index(es: &Vec<(usize, usize, String)>) -> (k: usize)
    requires
        es@.len() > 0,
    ensures
        k < es@.len(),
        forall|x: int| 0 <= x < es@.len() ==> (#[trigger] es@[x]).0 <= es@[k as int].0,
{
    let mut k: usize = 0;
    let mut j: usize = 1;
    while j < es.len()
        invariant
            1 <= j <= es@.len(),
            k < j,
            forall|x: int| 0 <= x < j ==> (#[trigger] es@[x]).0 <= es@[k as int].0,
        decreases es@.len() - j,
    {
        if es[j].0 > es[k].0 {
            k = j;
        }
        j += 1;
    }
    k
}

/// `cur[..a] + t + cur[b..]`.
fn splice_one(cur: &Vec<char>, a: usize, b: usize, t: &str) -> (r: Vec<char>)
    requires
        a <= b <= cur@.len(),
    ensures
        r@ == cur@.take(a as int) + t@ + cur@.skip(b as int),
{
    let mut next = copy_range(cur, 0, a);
    let mut tc = chars_of(t);
    next.append(&mut tc);
    let n = cur.len();
    let tail = copy_range(cur, b, n);
    put(&mut next, &tail);
    assert(next@ =~= cur@.take(a as int) + t@ + cur@.skip(b as int));
    next
}

/// Char indices keep the order of the byte offsets they stand for.
proof fn lemma_char_index_order(s: Seq<char>, a: int, b: int)
    requires
        is_boundary(s, a),
        is_boundary(s, b),
    ensures
        a <= b <==> char_index(s, a) <= char_index(s, b),
        0 <= char_index(s, a) <= s.len(),
        utf8_len(s.take(char_index(s, a))) == a,
{
    let ca = char_index(s, a);
    let cb = char_index(s, b);
    if ca < cb {
        lemma_utf8_strict(s, ca, cb);
    } else if cb < ca {
        lemma_utf8_strict(s, cb, ca);
    }
}

} // verus!
