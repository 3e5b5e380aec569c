//! The whole-codebase front door's bookkeeping and its source-text editing:
//! every certifiable function is rewritten in place with its certificate,
//! everything else is left exactly as it was, with the reason reported.
use vstd::prelude::*;
use crate::fmt::{decimal, decimal_exec, digits_below, digits_value};
use crate::lex::{all_digits, is_digit};
use crate::text::{
    chars_of, copy_range, first_char_at, has_char, join_with, lines, lines_exec, put, put_join, put_lit,
    split_char, split_on, starts, starts_with, string_of, trim, trim_exec, trim_start,
    trim_start_exec, utf8_len, utf8_width, trim_end,
};

verus! {

#[derive(Debug)]
pub enum Status {
    /// certified and rewritten in place (or would be, under a dry run)
    Rewritten { cost_before: u64, cost_after: u64, rules: Vec<String> },
    /// certified, but the function's shape can't be rewritten in place yet
    CertifiedNotInPlace(String),
    /// the pipeline refused this function
    Refused(String),
    /// not attempted / not locatable
    Skipped(String),
}

#[derive(Debug)]
pub struct FnOutcome {
    pub file: String,
    pub name: String,
    pub status: Status,
}

#[derive(Debug, Default)]
pub struct Summary {
    pub outcomes: Vec<FnOutcome>,
    pub files_written: Vec<String>,
    pub discharged: bool,
    pub dry_run: bool,
}

/// How many of `os` have a status accepted by `rewritten` (when `want` is
/// true) or by `refused` (when false).
pub open spec fn count_status(os: Seq<FnOutcome>, want_rewritten: bool) -> nat
    decreases os.len(),
{
    if os.len() == 0 {
        0
    } else {
        count_status(os.drop_last(), want_rewritten) + if (want_rewritten
            && os.last().status is Rewritten) || (!want_rewritten && os.last().status is Refused) {
            1nat
        } else {
            0nat
        }
    }
}

fn count_exec(os: &Vec<FnOutcome>, want_rewritten: bool) -> (r: usize)
    ensures
        r == count_status(os@, want_rewritten),
{
    let mut k: usize = 0;
    let mut i: usize = 0;
    while i < os.len()
        invariant
            i <= os@.len(),
            k <= i,
            k == count_status(os@.take(i as int), want_rewritten),
        decreases os@.len() - i,
    {
        assert(os@.take(i + 1).drop_last() =~= os@.take(i as int));
        let hit = if want_rewritten {
            matches!(os[i].status, Status::Rewritten { .. })
        } else {
            matches!(os[i].status, Status::Refused(_))
        };
        if hit {
            k += 1;
        }
        i += 1;
    }
    assert(os@.take(i as int) =~= os@);
    k
}

impl Summary {
    pub fn rewritten(&self) -> (r: usize)
        ensures
            r == count_status(self.outcomes@, true),
    {
        count_exec(&self.outcomes, true)
    }

    pub fn refused(&self) -> (r: usize)
        ensures
            r == count_status(self.outcomes@, false),
    {
        count_exec(&self.outcomes, false)
    }
}

// ------------------------------------------------------- re-indentation --

/// Pieces joined by newlines (the inverse of splitting at `\n`).
pub open spec fn join_lines(ps: Seq<Seq<char>>) -> Seq<char>
    decreases ps.len(),
{
    if ps.len() == 0 {
        Seq::empty()
    } else if ps.len() == 1 {
        ps[0]
    } else {
        join_lines(ps.drop_last()) + seq!['\n'] + ps.last()
    }
}

/// A line with `indent` put in front, unless the line is empty.
pub open spec fn indent_line(l: Seq<char>, indent: Seq<char>) -> Seq<char> {
    if l.len() > 0 {
        indent + l
    } else {
        l
    }
}

/// A line with one leading `indent` removed, if it has one.
pub open spec fn dedent_line(l: Seq<char>, indent: Seq<char>) -> Seq<char> {
    if starts_with(l, indent) {
        l.skip(indent.len() as int)
    } else {
        l
    }
}

/// Every line but the first, transformed.
pub open spec fn map_rest(ps: Seq<Seq<char>>, indent: Seq<char>, add: bool) -> Seq<Seq<char>> {
    Seq::new(
        ps.len(),
        |i: int|
            if i == 0 {
                ps[0]
            } else if add {
                indent_line(ps[i], indent)
            } else {
                dedent_line(ps[i], indent)
            },
    )
}

/// `s` with every line after the first prefixed by `indent` (empty lines
/// stay empty).
pub open spec fn reindented(s: Seq<char>, indent: Seq<char>) -> Seq<char> {
    if indent.len() == 0 {
        s
    } else {
        join_lines(map_rest(split_on(s, '\n'), indent, true))
    }
}

/// `s` with one leading `indent` removed from every line after the first.
pub open spec fn dedented(s: Seq<char>, indent: Seq<char>) -> Seq<char> {
    if indent.len() == 0 {
        s
    } else {
        join_lines(map_rest(split_on(s, '\n'), indent, false))
    }
}

/// Splitting at newlines and joining again gives the text back.
pub proof fn lemma_join_split(s: Seq<char>)
    ensures
        join_lines(split_on(s, '\n')) == s,
    decreases s.len(),
{
    if s.len() > 0 {
        let t = s.drop_last();
        lemma_join_split(t);
        crate::text::lemma_split_on_nonempty_len(t, '\n');
        let r = split_on(t, '\n');
        if s.last() == '\n' {
            assert(split_on(s, '\n').drop_last() =~= r);
            assert(join_lines(split_on(s, '\n')) =~= t + seq!['\n']);
        } else {
            let u = r.update(r.len() - 1, r.last().push(s.last()));
            if r.len() == 1 {
                assert(join_lines(u) =~= r[0].push(s.last()));
            } else {
                assert(u.drop_last() =~= r.drop_last());
                assert(join_lines(u) =~= join_lines(r.drop_last()) + seq!['\n'] + r.last().push(
                    s.last(),
                ));
            }
            assert(s =~= t.push(s.last()));
        }
    } else {
        assert(split_on(s, '\n') =~= seq![Seq::<char>::empty()]);
    }
}

/// Joining newline-free pieces and splitting at newlines gives the pieces
/// back.
pub proof fn lemma_split_join(ps: Seq<Seq<char>>)
    requires
        ps.len() >= 1,
        forall|i: int| 0 <= i < ps.len() ==> !has_char(#[trigger] ps[i], '\n'),
    ensures
        split_on(join_lines(ps), '\n') == ps,
    decreases ps.len(),
{
    if ps.len() == 1 {
        crate::text::lemma_split_single(ps[0], '\n');
        assert(split_on(ps[0], '\n') =~= ps);
    } else {
        let q = ps.drop_last();
        lemma_split_join(q);
        lemma_split_append(join_lines(q), ps.last());
        assert(split_on(join_lines(ps), '\n') =~= ps);
    }
}

/// Splitting `a`, a newline, then a newline-free `b`: `a`'s pieces and `b`.
proof fn lemma_split_append(a: Seq<char>, b: Seq<char>)
    requires
        !has_char(b, '\n'),
    ensures
        split_on(a + seq!['\n'] + b, '\n') == split_on(a, '\n').push(b),
    decreases b.len(),
{
    if b.len() == 0 {
        let w = a + seq!['\n'] + b;
        assert(w.drop_last() =~= a);
        assert(w.last() == '\n');
        assert(b =~= Seq::<char>::empty());
        assert(split_on(w, '\n') == split_on(a, '\n').push(Seq::<char>::empty()));
    } else {
        let bt = b.drop_last();
        assert(!has_char(bt, '\n')) by {
            if has_char(bt, '\n') {
                let i = choose|i: int| 0 <= i < bt.len() && bt[i] == '\n';
                assert(b[i] == '\n');
            }
        }
        lemma_split_append(a, bt);
        let w = a + seq!['\n'] + b;
        assert(w.drop_last() =~= a + seq!['\n'] + bt);
        assert(w.last() == b.last());
        assert(b.last() != '\n') by {
            assert(b[b.len() - 1] == b.last());
        }
        assert(bt.push(b.last()) =~= b);
        let r = split_on(a, '\n').push(bt);
        assert(r.update(r.len() - 1, r.last().push(b.last())) =~= split_on(a, '\n').push(b));
    }
}

/// Removing the indentation that `reindent` added gives the text back, for
/// an indentation without line breaks (an item's own leading blanks).
pub proof fn lemma_dedent_reindent(s: Seq<char>, indent: Seq<char>)
    requires
        !has_char(indent, '\n'),
    ensures
        dedented(reindented(s, indent), indent) == s,
{
    if indent.len() > 0 {
        let ps = split_on(s, '\n');
        crate::text::lemma_split_on_nonempty_len(s, '\n');
        let qs = map_rest(ps, indent, true);
        assert forall|i: int| 0 <= i < qs.len() implies !has_char(#[trigger] qs[i], '\n') by {
            lemma_split_pieces_clean(s, i);
            if i > 0 && ps[i].len() > 0 {
                if has_char(qs[i], '\n') {
                    let k = choose|k: int| 0 <= k < qs[i].len() && qs[i][k] == '\n';
                    if k < indent.len() {
                        assert(indent[k] == '\n');
                    } else {
                        assert(ps[i][k - indent.len()] == '\n');
                    }
                }
            }
        }
        lemma_split_join(qs);
        let rs = map_rest(qs, indent, false);
        assert forall|i: int| 0 <= i < ps.len() implies #[trigger] rs[i] == ps[i] by {
            if i > 0 {
                if ps[i].len() > 0 {
                    assert((indent + ps[i]).subrange(0, indent.len() as int) =~= indent);
                    assert((indent + ps[i]).skip(indent.len() as int) =~= ps[i]);
                } else {
                    assert(!starts_with(ps[i], indent));
                }
            }
        }
        assert(rs =~= ps);
        lemma_join_split(s);
    }
}

/// No piece of a split at `\n` holds a `\n`.
proof fn lemma_split_pieces_clean(s: Seq<char>, i: int)
    requires
        0 <= i < split_on(s, '\n').len(),
    ensures
        !has_char(split_on(s, '\n')[i], '\n'),
    decreases s.len(),
{
    if s.len() > 0 {
        let t = s.drop_last();
        crate::text::lemma_split_on_nonempty_len(t, '\n');
        let r = split_on(t, '\n');
        if s.last() == '\n' {
            if i < r.len() {
                lemma_split_pieces_clean(t, i);
            }
        } else {
            if i < r.len() - 1 {
                lemma_split_pieces_clean(t, i);
            } else {
                lemma_split_pieces_clean(t, r.len() - 1);
                let l = r.last().push(s.last());
                assert(!has_char(l, '\n')) by {
                    if has_char(l, '\n') {
                        let k = choose|k: int| 0 <= k < l.len() && l[k] == '\n';
                        if k < r.last().len() {
                            assert(r.last()[k] == '\n');
                        }
                    }
                }
            }
        }
    } else {
        assert(split_on(s, '\n') =~= seq![Seq::<char>::empty()]);
    }
}

fn put_pieces(pieces: &Vec<Vec<char>>, indent: &[char], add: bool) -> (r: Vec<char>)
    requires
        pieces@.len() >= 1,
    ensures
        r@ == join_lines(map_rest(pieces@.map_values(|v: Vec<char>| v@), indent@, add)),
{
    let ghost pv = pieces@.map_values(|v: Vec<char>| v@);
    let mut out: Vec<char> = Vec::new();
    let mut i: usize = 0;
    while i < pieces.len()
        invariant
            1 <= pieces@.len(),
            i <= pieces@.len(),
            pv == pieces@.map_values(|v: Vec<char>| v@),
            out@ == join_lines(map_rest(pv, indent@, add).take(i as int)),
        decreases pieces@.len() - i,
    {
        let ghost m = map_rest(pv, indent@, add);
        assert(m.take(i + 1).drop_last() =~= m.take(i as int));
        let line = &pieces[i];
        if i > 0 {
            out.push('\n');
            if add {
                if line.len() > 0 {
                    put(&mut out, indent);
                }
                put(&mut out, line);
            } else {
                let n = line.len();
                let k = indent.len();
                if k <= n && starts_with_slice(line, indent) {
                    put(&mut out, &copy_range(line, k, n));
                } else {
                    put(&mut out, line);
                }
            }
        } else {
            put(&mut out, line);
        }
        proof {
            if i == 0 {
                assert(m.take(1) =~= seq![pv[0]]);
            }
            if i > 0 && !add {
                assert(line@.skip(indent@.len() as int) =~= line@.subrange(
                    indent@.len() as int,
                    line@.len() as int,
                ));
            }
        }
        i += 1;
        assert(out@ =~= join_lines(map_rest(pv, indent@, add).take(i as int)));
    }
    assert(map_rest(pv, indent@, add).take(i as int) =~= map_rest(pv, indent@, add));
    out
}

fn starts_with_slice(s: &[char], p: &[char]) -> (r: bool)
    ensures
        r == starts_with(s@, p@),
{
    crate::text::starts_with_exec(s, p)
}

/// Prefix every line after the first with `indent` (non-empty lines only).
/// The first line already follows the source indent that precedes the item.
pub fn reindent(s: &str, indent: &str) -> (r: String)
    ensures
        r@ == reindented(s@, indent@),
{
    let ind = chars_of(indent);
    if ind.len() == 0 {
        return string_of(&chars_of(s));
    }
    let pieces = split_char(&chars_of(s), '\n');
    string_of(&put_pieces(&pieces, &ind, true))
}

/// Remove one leading `indent` from every line after the first.
pub fn dedent_continuation(s: &str, indent: &str) -> (r: String)
    ensures
        r@ == dedented(s@, indent@),
{
    let ind = chars_of(indent);
    if ind.len() == 0 {
        return string_of(&chars_of(s));
    }
    let pieces = split_char(&chars_of(s), '\n');
    string_of(&put_pieces(&pieces, &ind, false))
}

// ------------------------------------------------------ naming and text --

/// A parameter name that looks like a generated identifier (`vN`, `sN`,
/// `tN`, `__acc`, `__i`): remapping it in place would be ambiguous.
pub open spec fn is_generated_name(name: Seq<char>) -> bool {
    ||| name == "__acc"@
    ||| name == "__i"@
    ||| (name.len() >= 2 && (name[0] == 'v' || name[0] == 's' || name[0] == 't') && all_digits(
        name.skip(1),
    ))
}

pub fn collides_generated(name: &str) -> (r: bool)
    ensures
        r == is_generated_name(name@),
{
    proof {
        reveal_strlit("__acc");
        reveal_strlit("__i");
    }
    let c = chars_of(name);
    if crate::text::lit_is(&c, "__acc") || crate::text::lit_is(&c, "__i") {
        return true;
    }
    if c.len() < 2 || !(c[0] == 'v' || c[0] == 's' || c[0] == 't') {
        return false;
    }
    assert(c@ != "__acc"@ && c@ != "__i"@) by {
        assert(c@[0] != "__acc"@[0]);
        assert(c@[0] != "__i"@[0]);
    }
    let mut i: usize = 1;
    while i < c.len()
        invariant
            1 <= i <= c@.len(),
            c@ == name@,
            c@.len() >= 2,
            c@[0] == 'v' || c@[0] == 's' || c@[0] == 't',
            c@ != "__acc"@ && c@ != "__i"@,
            forall|j: int| 1 <= j < i ==> is_digit(#[trigger] c@[j]),
        decreases c@.len() - i,
    {
        if !('0' <= c[i] && c[i] <= '9') {
            assert(!is_digit(c@.skip(1)[i - 1]));
            return false;
        }
        i += 1;
    }
    assert forall|j: int| 0 <= j < c@.skip(1).len() implies is_digit(#[trigger] c@.skip(1)[j]) by {
        assert(c@.skip(1)[j] == c@[j + 1]);
    }
    true
}

/// The trimmed non-blank lines of `ls`, in order.
pub open spec fn nonblank(ls: Seq<Seq<char>>) -> Seq<Seq<char>>
    decreases ls.len(),
{
    if ls.len() == 0 {
        Seq::empty()
    } else if trim(ls.last()).len() > 0 {
        nonblank(ls.drop_last()).push(trim(ls.last()))
    } else {
        nonblank(ls.drop_last())
    }
}

/// A multi-line message flattened into one summary line of at most 240
/// characters.
pub open spec fn summary_line(s: Seq<char>) -> Seq<char> {
    let j = join_with(nonblank(lines(s)), " \u{b7} "@);
    if j.len() > 240 {
        j.take(237) + "..."@
    } else {
        j
    }
}

/// Flatten a multi-line refusal/error into one readable summary line.
pub fn first_line(s: &str) -> (r: String)
    ensures
        r@ == summary_line(s@),
{
    let ls = lines_exec(&chars_of(s));
    let ghost lv = ls@.map_values(|v: Vec<char>| v@);
    let mut kept: Vec<Vec<char>> = Vec::new();
    let mut i: usize = 0;
    while i < ls.len()
        invariant
            i <= ls@.len(),
            lv == ls@.map_values(|v: Vec<char>| v@),
            kept@.map_values(|v: Vec<char>| v@) == nonblank(lv.take(i as int)),
        decreases ls@.len() - i,
    {
        assert(lv.take(i + 1).drop_last() =~= lv.take(i as int));
        let t = trim_exec(&ls[i]);
        if t.len() > 0 {
            let ghost prev = kept@.map_values(|v: Vec<char>| v@);
            kept.push(t);
            assert(kept@.map_values(|v: Vec<char>| v@) =~= prev.push(trim(lv[i as int])));
        }
        i += 1;
    }
    assert(lv.take(i as int) =~= lv);
    let mut j: Vec<char> = Vec::new();
    put_join(&mut j, &kept, " \u{b7} ");
    assert(j@ =~= join_with(nonblank(lines(s@)), " \u{b7} "@));
    if j.len() > 240 {
        let mut t = copy_range(&j, 0, 237);
        put_lit(&mut t, "...");
        string_of(&t)
    } else {
        string_of(&j)
    }
}

/// The `///` lines of `ls` with their indentation removed, in order.
pub open spec fn doc_lines(ls: Seq<Seq<char>>) -> Seq<Seq<char>>
    decreases ls.len(),
{
    if ls.len() == 0 {
        Seq::empty()
    } else if starts_with(trim_start(ls.last()), "///"@) {
        doc_lines(ls.drop_last()).push(trim_start(ls.last()))
    } else {
        doc_lines(ls.drop_last())
    }
}

/// The `///` certificate doc lines of emitted code, verbatim.
pub fn cert_doc(code: &str) -> (r: String)
    ensures
        r@ == join_with(doc_lines(lines(code@)), "\n"@),
{
    let ls = lines_exec(&chars_of(code));
    let ghost lv = ls@.map_values(|v: Vec<char>| v@);
    let mut kept: Vec<Vec<char>> = Vec::new();
    let mut i: usize = 0;
    while i < ls.len()
        invariant
            i <= ls@.len(),
            lv == ls@.map_values(|v: Vec<char>| v@),
            kept@.map_values(|v: Vec<char>| v@) == doc_lines(lv.take(i as int)),
        decreases ls@.len() - i,
    {
        assert(lv.take(i + 1).drop_last() =~= lv.take(i as int));
        let t = trim_start_exec(&ls[i]);
        if starts(&t, "///") {
            let ghost prev = kept@.map_values(|v: Vec<char>| v@);
            kept.push(t);
            assert(kept@.map_values(|v: Vec<char>| v@) =~= prev.push(trim_start(lv[i as int])));
        }
        i += 1;
    }
    assert(lv.take(i as int) =~= lv);
    let mut j: Vec<char> = Vec::new();
    put_join(&mut j, &kept, "\n");
    string_of(&j)
}

/// The rule names on a `/// rules applied:` line (after its prefix):
/// comma-separated, trimmed, empty names dropped.
pub open spec fn rule_names(rest: Seq<char>) -> Seq<Seq<char>> {
    nonempty(split_on(rest, ',').map_values(|p: Seq<char>| trim(p)))
}

pub open spec fn nonempty(ps: Seq<Seq<char>>) -> Seq<Seq<char>>
    decreases ps.len(),
{
    if ps.len() == 0 {
        Seq::empty()
    } else if ps.last().len() > 0 {
        nonempty(ps.drop_last()).push(ps.last())
    } else {
        nonempty(ps.drop_last())
    }
}

/// The rules named by the first `/// rules applied:` line of `ls`, if any.
pub open spec fn rules_of(ls: Seq<Seq<char>>) -> Seq<Seq<char>>
    decreases ls.len(),
{
    if ls.len() == 0 {
        Seq::empty()
    } else if starts_with(trim_start(ls[0]), "/// rules applied:"@) {
        rule_names(trim_start(ls[0]).skip(18))
    } else {
        rules_of(ls.drop_first())
    }
}

/// The applied rule names recorded in emitted code's certificate.
pub fn cert_rules(code: &str) -> (r: Vec<String>)
    ensures
        r@.map_values(|s: String| s@) == rules_of(lines(code@)),
{
    let ls = lines_exec(&chars_of(code));
    let ghost lv = ls@.map_values(|v: Vec<char>| v@);
    assert(lv.skip(0) =~= lv);
    let mut i: usize = 0;
    while i < ls.len()
        invariant
            i <= ls@.len(),
            lv == ls@.map_values(|v: Vec<char>| v@),
            lv == lines(code@),
            rules_of(lv) == rules_of(lv.skip(i as int)),
        decreases ls@.len() - i,
    {
        let ghost rest = lv.skip(i as int);
        assert(rest[0] == lv[i as int]);
        assert(rest.drop_first() =~= lv.skip(i + 1));
        let t = trim_start_exec(&ls[i]);
        if starts(&t, "/// rules applied:") {
            proof {
                reveal_strlit("/// rules applied:");
            }
            let n = t.len();
            let after = copy_range(&t, 18, n);
            let parts = split_char(&after, ',');
            let ghost pv = parts@.map_values(|v: Vec<char>| v@);
            let mut out: Vec<String> = Vec::new();
            let mut k: usize = 0;
            while k < parts.len()
                invariant
                    k <= parts@.len(),
                    pv == parts@.map_values(|v: Vec<char>| v@),
                    out@.map_values(|s: String| s@) == nonempty(
                        pv.map_values(|p: Seq<char>| trim(p)).take(k as int),
                    ),
                decreases parts@.len() - k,
            {
                let ghost tv = pv.map_values(|p: Seq<char>| trim(p));
                assert(tv.take(k + 1).drop_last() =~= tv.take(k as int));
                let w = trim_exec(&parts[k]);
                if w.len() > 0 {
                    let ghost prev = out@.map_values(|s: String| s@);
                    out.push(string_of(&w));
                    assert(out@.map_values(|s: String| s@) =~= prev.push(w@));
                }
                k += 1;
            }
            assert(pv.map_values(|p: Seq<char>| trim(p)).take(k as int) =~= pv.map_values(
                |p: Seq<char>| trim(p),
            ));
            assert(after@ =~= t@.skip(18));
            assert(rules_of(rest) == rule_names(t@.skip(18)));
            return out;
        }
        i += 1;
    }
    assert(lv.skip(i as int) =~= Seq::<Seq<char>>::empty());
    Vec::new()
}

// -------------------------------------------------- generated preambles --

/// A line (trimmed) of the kind the rewriter itself emits in front of a
/// function: blank, certificate doc, generated-file banner, generated
/// allow attribute.
pub open spec fn is_generated_line(t: Seq<char>) -> bool {
    ||| t.len() == 0
    ||| starts_with(t, "/// CERTIFIED"@)
    ||| starts_with(t, "/// rules applied"@)
    ||| starts_with(t, "/// MODULO"@)
    ||| starts_with(t, "/// env"@)
    ||| starts_with(t, "// AUTO-GENERATED"@)
    ||| starts_with(t, "// Re-run"@)
    ||| t == "#[allow(unused_parens, clippy::all)]"@
    ||| t == "#[allow(unused_variables, unused_parens, clippy::all)]"@
}

/// Length of the first line of `s`, its `\n` included.
pub open spec fn line_len(s: Seq<char>) -> nat
    decreases s.len(),
{
    if s.len() == 0 {
        0
    } else if s[0] == '\n' {
        1
    } else {
        1 + line_len(s.drop_first())
    }
}

proof fn lemma_line_len(s: Seq<char>)
    ensures
        line_len(s) <= s.len(),
        s.len() > 0 ==> line_len(s) >= 1,
    decreases s.len(),
{
    if s.len() > 0 && s[0] != '\n' {
        lemma_line_len(s.drop_first());
    }
}

/// Length of the run of generated lines at the front of `s`.
pub open spec fn preamble_len(s: Seq<char>) -> nat
    decreases s.len(),
{
    let k = line_len(s);
    if s.len() == 0 || k == 0 || k > s.len() {
        0
    } else if is_generated_line(trim(s.take(k as int))) {
        k + preamble_len(s.skip(k as int))
    } else {
        0
    }
}

/// `prefix` without a previously generated preamble, so that re-running
/// the rewriter is idempotent; the surviving first line is left-trimmed.
pub open spec fn without_preamble(prefix: Seq<char>) -> Seq<char> {
    trim_start(prefix.skip(preamble_len(prefix) as int))
}

fn is_generated_line_exec(t: &[char]) -> (r: bool)
    ensures
        r == is_generated_line(t@),
{
    t.len() == 0 || starts(t, "/// CERTIFIED") || starts(t, "/// rules applied") || starts(
        t,
        "/// MODULO",
    ) || starts(t, "/// env") || starts(t, "// AUTO-GENERATED") || starts(t, "// Re-run")
        || crate::text::lit_is(t, "#[allow(unused_parens, clippy::all)]")
        || crate::text::lit_is(t, "#[allow(unused_variables, unused_parens, clippy::all)]")
}

/// Drop a previously generated preamble from the front of a prefix. Only
/// lines this tool emits are dropped; human doc comments and attributes are
/// kept.
pub fn strip_generated_preamble(prefix: &str) -> (r: String)
    ensures
        r@ == without_preamble(prefix@),
{
    let p = chars_of(prefix);
    let n = p.len();
    let mut idx: usize = 0;
    let mut done = false;
    assert(p@.skip(0) =~= p@);
    while idx < n && !done
        invariant
            idx <= n,
            n == p@.len(),
            preamble_len(p@) == idx + preamble_len(p@.skip(idx as int)),
            done ==> preamble_len(p@.skip(idx as int)) == 0,
        decreases n - idx + if done { 0int } else { 1int },
    {
        let ghost rest = p@.skip(idx as int);
        let mut e: usize = idx;
        while e < n && p[e] != '\n'
            invariant
                idx <= e <= n,
                n == p@.len(),
                forall|j: int| idx <= j < e ==> p@[j] != '\n',
            decreases n - e,
        {
            e += 1;
        }
        let end = if e < n { e + 1 } else { e };
        proof {
            lemma_line_len_at(p@, idx as int, e as int);
            lemma_line_len(rest);
        }
        let line = copy_range(&p, idx, end);
        assert(line@ =~= rest.take((end - idx) as int));
        let t = trim_exec(&line);
        if is_generated_line_exec(&t) {
            assert(rest.skip((end - idx) as int) =~= p@.skip(end as int));
            idx = end;
        } else {
            done = true;
        }
    }
    proof {
        if idx == n {
            assert(p@.skip(idx as int) =~= Seq::<char>::empty());
        }
    }
    let rest = copy_range(&p, idx, n);
    assert(rest@ =~= p@.skip(idx as int));
    string_of(&trim_start_exec(&rest))
}

/// The first line of `s` from `a` ends at `e` (at its `\n`, or the end).
proof fn lemma_line_len_at(s: Seq<char>, a: int, e: int)
    requires
        0 <= a <= e <= s.len(),
        forall|j: int| a <= j < e ==> s[j] != '\n',
        e == s.len() || s[e] == '\n',
    ensures
        line_len(s.skip(a)) == if e < s.len() { e - a + 1 } else { e - a },
    decreases e - a,
{
    let r = s.skip(a);
    if a < e {
        assert(r[0] == s[a]);
        assert(r.drop_first() =~= s.skip(a + 1));
        lemma_line_len_at(s, a + 1, e);
    } else if e < s.len() {
        assert(r[0] == s[e]);
    }
}

// ------------------------------------------------------------ function body --

/// Brace balance of `s[o..k]`: opening minus closing braces.
pub open spec fn balance(s: Seq<char>, o: int, k: int) -> int
    decreases k - o,
{
    if k <= o {
        0
    } else {
        balance(s, o, k - 1) + if s[k - 1] == '{' {
            1int
        } else if s[k - 1] == '}' {
            -1int
        } else {
            0int
        }
    }
}

/// `e` is where the brace group opened at `o` closes: the first point at
/// which the balance from `o` returns to zero.
pub open spec fn closes_at(s: Seq<char>, o: int, e: int) -> bool {
    &&& o <= e < s.len()
    &&& balance(s, o, e + 1) == 0
    &&& forall|k: int| o < k <= e ==> #[trigger] balance(s, o, k) != 0
}

/// The text between a function's first `{` and its matching `}`.
pub fn body_inner(code: &str) -> (r: Option<String>)
    ensures
        r is None <==> (!has_char(code@, '{') || forall|o: int, e: int|
            first_char_at(code@, '{', o) ==> !closes_at(code@, o, e)),
        r matches Some(x) ==> exists|o: int, e: int|
            first_char_at(code@, '{', o) && closes_at(code@, o, e) && x@ == code@.subrange(o + 1, e),
{
    let c = chars_of(code);
    let open = match crate::text::find_char(&c, '{') {
        Some(o) => o,
        None => return None,
    };
    let n = c.len();
    let mut depth: i128 = 0;
    let mut k: usize = open;
    while k < n
        invariant
            open <= k <= n,
            n == c@.len(),
            c@ == code@,
            first_char_at(c@, '{', open as int),
            depth == balance(c@, open as int, k as int),
            k == open ==> depth == 0,
            k > open ==> depth > 0,
            depth <= k as int,
            forall|j: int| open < j <= k ==> #[trigger] balance(c@, open as int, j) != 0,
        decreases n - k,
    {
        if c[k] == '{' {
            depth += 1;
        } else if c[k] == '}' {
            depth -= 1;
            if depth == 0 {
                let x = copy_range(&c, open + 1, k);
                proof {
                    assert(closes_at(c@, open as int, k as int));
                    lemma_first_char_unique(c@, open as int);
                }
                return Some(string_of(&x));
            }
        }
        k += 1;
    }
    proof {
        assert forall|o: int, e: int| first_char_at(code@, '{', o) implies !closes_at(code@, o, e) by {
            lemma_first_char_unique(c@, open as int);
            assert(o == open);
        }
    }
    None
}

proof fn lemma_first_char_unique(s: Seq<char>, o: int)
    requires
        first_char_at(s, '{', o),
    ensures
        forall|p: int| first_char_at(s, '{', p) ==> p == o,
{
    assert forall|p: int| first_char_at(s, '{', p) implies p == o by {
        if p < o {
            assert(s[p] != '{');
        } else if p > o {
            assert(s[o] != '{');
        }
    }
}

// ----------------------------------------------------------- byte offsets --

/// Byte offset of each line start of `s` (as `str` indexes them).
pub open spec fn line_starts_of(s: Seq<char>) -> Seq<nat>
    decreases s.len(),
{
    if s.len() == 0 {
        seq![0nat]
    } else if s.last() == '\n' {
        line_starts_of(s.drop_last()).push(utf8_len(s))
    } else {
        line_starts_of(s.drop_last())
    }
}

pub fn line_starts(src: &str) -> (r: Vec<usize>)
    requires
        utf8_len(src@) <= usize::MAX,
    ensures
        r@.map_values(|x: usize| x as nat) == line_starts_of(src@),
{
    let c = chars_of(src);
    let mut v: Vec<usize> = Vec::new();
    v.push(0);
    assert(v@.map_values(|x: usize| x as nat) =~= line_starts_of(c@.take(0)));
    let mut bytes: usize = 0;
    let mut i: usize = 0;
    while i < c.len()
        invariant
            i <= c@.len(),
            c@ == src@,
            utf8_len(c@) <= usize::MAX,
            bytes == utf8_len(c@.take(i as int)),
            v@.map_values(|x: usize| x as nat) == line_starts_of(c@.take(i as int)),
        decreases c@.len() - i,
    {
        let ghost t = c@.take(i + 1);
        assert(t.drop_last() =~= c@.take(i as int));
        proof {
            lemma_utf8_prefix(c@, i + 1);
        }
        let ch = c[i];
        let u = ch as u32;
        let w: usize = if u < 0x80 {
            1
        } else if u < 0x800 {
            2
        } else if u < 0x10000 {
            3
        } else {
            4
        };
        bytes = bytes + w;
        if ch == '\n' {
            let ghost prev = v@.map_values(|x: usize| x as nat);
            v.push(bytes);
            assert(v@.map_values(|x: usize| x as nat) =~= prev.push(bytes as nat));
        }
        i += 1;
    }
    assert(c@.take(i as int) =~= c@);
    v
}

proof fn lemma_utf8_prefix(s: Seq<char>, k: int)
    requires
        0 <= k <= s.len(),
    ensures
        utf8_len(s.take(k)) <= utf8_len(s),
    decreases s.len() - k,
{
    if k < s.len() {
        lemma_utf8_prefix(s, k + 1);
        assert(s.take(k + 1).drop_last() =~= s.take(k));
    } else {
        assert(s.take(k) =~= s);
    }
}

/// A blank run: spaces and tabs only.
pub open spec fn blanks(s: Seq<char>) -> bool {
    forall|i: int| 0 <= i < s.len() ==> (#[trigger] s[i] == ' ' || s[i] == '\t')
}

/// The indentation in front of char index `ci`: the text from the start of
/// its line, if that is a non-empty run of blanks; else empty.
pub open spec fn indent_at(s: Seq<char>, ci: int) -> Seq<char> {
    let seg = s.subrange(crate::lift::line_begin(s.take(ci)), ci);
    if seg.len() > 0 && blanks(seg) {
        seg
    } else {
        Seq::empty()
    }
}

/// The leading whitespace of the line containing byte `start`, if that run
/// is entirely blank (an item's own indentation); else empty. Empty for a
/// top-level item, so top-level output is unchanged.
pub fn line_indent(src: &str, start: usize) -> (r: String)
    requires
        crate::inplace::is_boundary(src@, start as int),
    ensures
        r@ == indent_at(src@, crate::inplace::char_index(src@, start as int)),
{
    let c = chars_of(src);
    let ci = crate::inplace::char_index_exec(&c, start);
    let pre = copy_range(&c, 0, ci);
    assert(pre@ =~= c@.take(ci as int));
    let begin: usize = match crate::text::rfind_char(&pre, '\n') {
        Some(p) => {
            proof {
                crate::lex::lemma_last_char_unique(pre@, '\n', p as int, choose|j: int|
                    crate::text::last_char_at(pre@, '\n', j));
            }
            p + 1
        },
        None => 0,
    };
    let seg = copy_range(&c, begin, ci);
    let mut all_blank = seg.len() > 0;
    let mut i: usize = 0;
    while i < seg.len()
        invariant
            i <= seg@.len(),
            all_blank ==> seg@.len() > 0,
            all_blank == (seg@.len() > 0 && forall|j: int| 0 <= j < i ==> (#[trigger] seg@[j] == ' '
                || seg@[j] == '\t')),
        decreases seg@.len() - i,
    {
        if !(seg[i] == ' ' || seg[i] == '\t') {
            all_blank = false;
        }
        i += 1;
    }
    if all_blank {
        string_of(&seg)
    } else {
        string_of(&Vec::new())
    }
}


// ------------------------------------------------------------ body remap --

pub open spec fn is_id_start(c: char) -> bool {
    ('a' <= c <= 'z') || ('A' <= c <= 'Z') || c == '_'
}

pub open spec fn is_id_cont(c: char) -> bool {
    is_id_start(c) || ('0' <= c <= '9')
}

/// ASCII whitespace (what `char::is_whitespace` accepts below 0x80).
pub open spec fn is_ascii_ws(c: char) -> bool {
    c == ' ' || c == '\t' || c == '\n' || c == '\r' || c == '\x0b' || c == '\x0c'
}

/// The end of the run of characters satisfying `p` that starts at `j`.
pub open spec fn run_end(s: Seq<char>, j: int, p: spec_fn(char) -> bool) -> int
    decreases s.len() - j,
{
    if 0 <= j < s.len() && p(s[j]) {
        run_end(s, j + 1, p)
    } else {
        j
    }
}

proof fn lemma_run_end(s: Seq<char>, j: int, p: spec_fn(char) -> bool)
    requires
        0 <= j <= s.len(),
    ensures
        j <= run_end(s, j, p) <= s.len(),
        forall|k: int| j <= k < run_end(s, j, p) ==> p(#[trigger] s[k]),
        run_end(s, j, p) < s.len() ==> !p(s[run_end(s, j, p)]),
    decreases s.len() - j,
{
    if j < s.len() && p(s[j]) {
        lemma_run_end(s, j + 1, p);
    }
}

/// `id` is `letter` followed by the shortest numeral of an index below `n`
/// (the name `format!("{letter}{k}")` gives slot `k`).
pub open spec fn indexed(id: Seq<char>, letter: char, n: nat) -> bool {
    let d = id.drop_first();
    &&& id.len() >= 2
    &&& id[0] == letter
    &&& all_digits(d)
    &&& decimal(digits_value(d)) == d
    &&& digits_value(d) < n
}

/// What an identifier of the emitted body becomes: a sequence parameter
/// `s{j}` its source name, a scalar slot `v{k}` (flat shape) its source
/// expression; anything else stays.
pub open spec fn ident_rep(
    id: Seq<char>,
    slots: Seq<Seq<char>>,
    seqs: Seq<Seq<char>>,
    array_shape: bool,
) -> Seq<char> {
    if indexed(id, 's', seqs.len()) {
        seqs[digits_value(id.drop_first()) as int]
    } else if !array_shape && indexed(id, 'v', slots.len()) {
        slots[digits_value(id.drop_first()) as int]
    } else {
        id
    }
}

/// An array-shape slot reference `[ k ]` (blanks allowed around the digits)
/// right after a `v` that ends at `e`, with `k` below `n`: the index and the
/// position past `]`.
pub open spec fn slot_ref(s: Seq<char>, e: int, n: nat) -> Option<(nat, int)> {
    let j = run_end(s, e, |c: char| is_ascii_ws(c));
    if j < s.len() && s[j] == '[' {
        let de = run_end(s, j + 1, |c: char| is_digit(c));
        let j2 = run_end(s, de, |c: char| is_ascii_ws(c));
        let k = digits_value(s.subrange(j + 1, de));
        if de > j + 1 && j2 < s.len() && s[j2] == ']' && k < n {
            Some((k, j2 + 1))
        } else {
            None
        }
    } else {
        None
    }
}

/// One step of the remap at `i`: the text it produces and where it resumes.
pub open spec fn remap_step(
    s: Seq<char>,
    i: int,
    slots: Seq<Seq<char>>,
    seqs: Seq<Seq<char>>,
    array_shape: bool,
) -> (Seq<char>, int) {
    if !is_id_start(s[i]) {
        (seq![s[i]], i + 1)
    } else {
        let e = run_end(s, i + 1, |c: char| is_id_cont(c));
        let id = s.subrange(i, e);
        if array_shape && id == seq!['v'] {
            match slot_ref(s, e, slots.len()) {
                Some((k, after)) => (slots[k as int], after),
                None => (id, e),
            }
        } else {
            (ident_rep(id, slots, seqs, array_shape), e)
        }
    }
}

/// The remapped text of `s[i..]`.
pub open spec fn remap_from(
    s: Seq<char>,
    i: int,
    slots: Seq<Seq<char>>,
    seqs: Seq<Seq<char>>,
    array_shape: bool,
) -> Seq<char>
    decreases s.len() - i,
{
    if i < 0 || i >= s.len() {
        Seq::empty()
    } else {
        let (piece, next) = remap_step(s, i, slots, seqs, array_shape);
        if next <= i || next > s.len() {
            Seq::empty()
        } else {
            piece + remap_from(s, next, slots, seqs, array_shape)
        }
    }
}

pub open spec fn strings_view(v: Seq<String>) -> Seq<Seq<char>> {
    v.map_values(|x: String| x@)
}

proof fn lemma_step_advances(
    s: Seq<char>,
    i: int,
    slots: Seq<Seq<char>>,
    seqs: Seq<Seq<char>>,
    array_shape: bool,
)
    requires
        0 <= i < s.len(),
    ensures
        i < remap_step(s, i, slots, seqs, array_shape).1 <= s.len(),
{
    if is_id_start(s[i]) {
        let e = run_end(s, i + 1, |c: char| is_id_cont(c));
        lemma_run_end(s, i + 1, |c: char| is_id_cont(c));
        let j = run_end(s, e, |c: char| is_ascii_ws(c));
        lemma_run_end(s, e, |c: char| is_ascii_ws(c));
        if j < s.len() && s[j] == '[' {
            let de = run_end(s, j + 1, |c: char| is_digit(c));
            lemma_run_end(s, j + 1, |c: char| is_digit(c));
            lemma_run_end(s, de, |c: char| is_ascii_ws(c));
        }
    }
}

fn is_id_start_exec(c: char) -> (r: bool)
    ensures
        r == is_id_start(c),
{
    ('a' <= c && c <= 'z') || ('A' <= c && c <= 'Z') || c == '_'
}

fn is_id_cont_exec(c: char) -> (r: bool)
    ensures
        r == is_id_cont(c),
{
    is_id_start_exec(c) || ('0' <= c && c <= '9')
}

fn is_ascii_ws_exec(c: char) -> (r: bool)
    ensures
        r == is_ascii_ws(c),
{
    c == ' ' || c == '\t' || c == '\n' || c == '\r' || c == '\x0b' || c == '\x0c'
}

/// `id` is `letter` followed by the numeral of an index below `n`: that index.
fn indexed_exec(id: &[char], letter: char, n: usize) -> (r: Option<usize>)
    ensures
        r is Some <==> indexed(id@, letter, n as nat),
        r matches Some(k) ==> k == digits_value(id@.drop_first()),
{
    if id.len() < 2 || id[0] != letter {
        return None;
    }
    let m = id.len();
    let d = copy_range(id, 1, m);
    assert(d@ =~= id@.drop_first());
    let mut i: usize = 0;
    while i < d.len()
        invariant
            i <= d@.len(),
            id@.len() >= 2,
            d@ == id@.drop_first(),
            forall|j: int| 0 <= j < i ==> is_digit(#[trigger] d@[j]),
        decreases d@.len() - i,
    {
        if !('0' <= d[i] && d[i] <= '9') {
            assert(!is_digit(d@[i as int]));
            assert(!all_digits(id@.drop_first()));
            return None;
        }
        i += 1;
    }
    assert(d@.subrange(0, d@.len() as int) =~= d@);
    let k = match digits_below(&d, 0, d.len(), n) {
        Some(k) => k,
        None => return None,
    };
    let numeral = decimal_exec(k);
    if crate::text::eq(&numeral, &d) {
        Some(k)
    } else {
        None
    }
}

fn ident_rep_exec(id: &[char], slots: &[String], seqs: &[String], array_shape: bool) -> (r: Vec<
    char,
>)
    ensures
        r@ == ident_rep(id@, strings_view(slots@), strings_view(seqs@), array_shape),
{
    if let Some(j) = indexed_exec(id, 's', seqs.len()) {
        return chars_of(&seqs[j]);
    }
    if !array_shape {
        if let Some(k) = indexed_exec(id, 'v', slots.len()) {
            return chars_of(&slots[k]);
        }
    }
    copy_range(id, 0, id.len())
}

/// The end of the run of ASCII whitespace from `j`.
fn skip_ascii_ws(s: &[char], j: usize) -> (r: usize)
    requires
        j <= s@.len(),
    ensures
        r == run_end(s@, j as int, |c: char| is_ascii_ws(c)),
{
    let mut k = j;
    proof {
        lemma_run_end(s@, j as int, |c: char| is_ascii_ws(c));
    }
    while k < s.len() && is_ascii_ws_exec(s[k])
        invariant
            j <= k <= s@.len(),
            run_end(s@, k as int, |c: char| is_ascii_ws(c)) == run_end(
                s@,
                j as int,
                |c: char| is_ascii_ws(c),
            ),
        decreases s@.len() - k,
    {
        k += 1;
    }
    k
}

/// `[ k ]` after a `v` ending at `e`, with `k` below `n`.
fn slot_ref_exec(s: &[char], e: usize, n: usize) -> (r: Option<(usize, usize)>)
    requires
        e <= s@.len(),
    ensures
        r matches Some((k, a)) ==> slot_ref(s@, e as int, n as nat) == Some((k as nat, a as int)),
        r is None ==> slot_ref(s@, e as int, n as nat) is None,
{
    let j = skip_ascii_ws(s, e);
    proof {
        lemma_run_end(s@, e as int, |c: char| is_ascii_ws(c));
    }
    if !(j < s.len() && s[j] == '[') {
        return None;
    }
    let ds = j + 1;
    let mut de = ds;
    proof {
        lemma_run_end(s@, ds as int, |c: char| is_digit(c));
    }
    while de < s.len() && '0' <= s[de] && s[de] <= '9'
        invariant
            ds <= de <= s@.len(),
            forall|i: int| ds <= i < de ==> is_digit(#[trigger] s@[i]),
            run_end(s@, de as int, |c: char| is_digit(c)) == run_end(
                s@,
                ds as int,
                |c: char| is_digit(c),
            ),
        decreases s@.len() - de,
    {
        de += 1;
    }
    let j2 = skip_ascii_ws(s, de);
    if de > ds && j2 < s.len() && s[j2] == ']' {
        match digits_below(s, ds, de, n) {
            Some(k) => Some((k, j2 + 1)),
            None => None,
        }
    } else {
        None
    }
}

/// Rewrite an emitted body to reference the source's own expressions:
/// `v{k}` (or `v[k]` in array shape) becomes the slot's expression and
/// `s{j}` the sequence parameter's name; temporaries, fold internals,
/// literals and operators are untouched.
pub fn remap_body(inner: &str, slot_exprs: &[String], seq_names: &[String], array_shape: bool) -> (r:
    String)
    ensures
        r@ == remap_from(
            inner@,
            0,
            strings_view(slot_exprs@),
            strings_view(seq_names@),
            array_shape,
        ),
{
    let c = chars_of(inner);
    let n = c.len();
    let ghost slots = strings_view(slot_exprs@);
    let ghost seqs = strings_view(seq_names@);
    let ghost full = remap_from(c@, 0, slots, seqs, array_shape);
    let mut out: Vec<char> = Vec::new();
    let mut i: usize = 0;
    while i < n
        invariant
            i <= n,
            n == c@.len(),
            c@ == inner@,
            slots == strings_view(slot_exprs@),
            seqs == strings_view(seq_names@),
            full == remap_from(c@, 0, slots, seqs, array_shape),
            full == out@ + remap_from(c@, i as int, slots, seqs, array_shape),
        decreases n - i,
    {
        proof {
            lemma_step_advances(c@, i as int, slots, seqs, array_shape);
        }
        let ghost step = remap_step(c@, i as int, slots, seqs, array_shape);
        let ghost before = out@;
        let ghost rest_next = remap_from(c@, step.1, slots, seqs, array_shape);
        let next: usize;
        if !is_id_start_exec(c[i]) {
            out.push(c[i]);
            next = i + 1;
        } else {
            let mut e = i + 1;
            proof {
                lemma_run_end(c@, i + 1, |ch: char| is_id_cont(ch));
            }
            while e < n && is_id_cont_exec(c[e])
                invariant
                    i + 1 <= e <= n,
                    n == c@.len(),
                    run_end(c@, e as int, |ch: char| is_id_cont(ch)) == run_end(
                        c@,
                        i + 1,
                        |ch: char| is_id_cont(ch),
                    ),
                decreases n - e,
            {
                e += 1;
            }
            let id = copy_range(&c, i, e);
            let mut done = false;
            let mut resume = e;
            if array_shape && e == i + 1 && c[i] == 'v' {
                assert(id@ =~= seq!['v']);
                if let Some((k, after)) = slot_ref_exec(&c, e, slot_exprs.len()) {
                    let mut x = chars_of(&slot_exprs[k]);
                    out.append(&mut x);
                    resume = after;
                    done = true;
                }
            } else {
                proof {
                    if array_shape && id@ == seq!['v'] {
                        assert(id@.len() == 1);
                        assert(id@[0] == c@[i as int]);
                    }
                }
            }
            if !done {
                let mut x = ident_rep_exec(&id, slot_exprs, seq_names, array_shape);
                proof {
                    if array_shape && id@ == seq!['v'] {
                        assert(!indexed(id@, 's', seqs.len()));
                    }
                }
                out.append(&mut x);
            }
            next = resume;
        }
        assert(out@ == before + step.0);
        assert(next == step.1);
        assert(before + (step.0 + rest_next) =~= (before + step.0) + rest_next);
        i = next;
    }
    assert(remap_from(c@, i as int, slots, seqs, array_shape) =~= Seq::<char>::empty());
    assert(out@ =~= full);
    string_of(&out)
}

// ---------------------------------------------------------- replacement --

/// `s` without trailing spaces, `\n` and `\r`.
pub open spec fn trim_end_breaks(s: Seq<char>) -> Seq<char>
    decreases s.len(),
{
    if s.len() > 0 && (s.last() == ' ' || s.last() == '\n' || s.last() == '\r') {
        trim_end_breaks(s.drop_last())
    } else {
        s
    }
}

fn trim_end_breaks_exec(s: &[char]) -> (r: Vec<char>)
    ensures
        r@ == trim_end_breaks(s@),
{
    let mut e = s.len();
    assert(s@.take(e as int) =~= s@);
    while e > 0 && (s[e - 1] == ' ' || s[e - 1] == '\n' || s[e - 1] == '\r')
        invariant
            e <= s@.len(),
            trim_end_breaks(s@.take(e as int)) == trim_end_breaks(s@),
        decreases e,
    {
        assert(s@.take(e as int).drop_last() =~= s@.take(e - 1));
        e -= 1;
    }
    copy_range(s, 0, e)
}

/// The text that replaces a certified function in its source file.
pub open spec fn replacement_text(
    code: Seq<char>,
    prefix: Seq<char>,
    slots: Seq<Seq<char>>,
    seqs: Seq<Seq<char>>,
    inner: Seq<char>,
    array_shape: bool,
    indent: Seq<char>,
) -> Seq<char> {
    let doc = join_with(doc_lines(lines(code)), "\n"@);
    let head = if doc.len() > 0 {
        doc + "\n"@
    } else {
        Seq::empty()
    };
    reindented(
        head + "#[allow(unused_parens, clippy::all)]\n"@ + dedented(prefix, indent)
            + trim_end_breaks(remap_from(inner, 0, slots, seqs, array_shape)) + "\n}"@,
        indent,
    )
}

/// The in-place replacement of a certified function: its certificate doc,
/// the lint allowance, the function's own header, and the certified body
/// written over the source's own expressions, at the item's indentation.
pub fn build_replacement(
    code: &str,
    prefix: &str,
    slot_exprs: &[String],
    seq_names: &[String],
    inner: &str,
    array_shape: bool,
    indent: &str,
) -> (r: String)
    ensures
        r@ == replacement_text(
            code@,
            prefix@,
            strings_view(slot_exprs@),
            strings_view(seq_names@),
            inner@,
            array_shape,
            indent@,
        ),
{
    let mut r: Vec<char> = Vec::new();
    let doc = cert_doc(code);
    let dc = chars_of(doc.as_str());
    if dc.len() > 0 {
        put(&mut r, &dc);
        put_lit(&mut r, "\n");
    }
    put_lit(&mut r, "#[allow(unused_parens, clippy::all)]\n");
    let pre = dedent_continuation(prefix, indent);
    put(&mut r, &chars_of(pre.as_str()));
    let body = remap_body(inner, slot_exprs, seq_names, array_shape);
    put(&mut r, &trim_end_breaks_exec(&chars_of(body.as_str())));
    put_lit(&mut r, "\n}");
    let whole = string_of(&r);
    proof {
        let d = join_with(doc_lines(lines(code@)), "\n"@);
        let head: Seq<char> = if d.len() > 0 {
            d + "\n"@
        } else {
            Seq::empty()
        };
        assert(r@ =~= head + "#[allow(unused_parens, clippy::all)]\n"@ + dedented(prefix@, indent@)
            + trim_end_breaks(
            remap_from(inner@, 0, strings_view(slot_exprs@), strings_view(seq_names@), array_shape),
        ) + "\n}"@);
    }
    reindent(whole.as_str(), indent)
}

// ----------------------------------------------------- reading back rules --

/// A rule name the certificate's rules line can carry and `cert_rules` read
/// back: non-empty, without surrounding blanks, commas or line breaks.
pub open spec fn plain_rule_name(r: Seq<char>) -> bool {
    r.len() > 0 && trim(r) == r && !has_char(r, ',') && !has_char(r, '\n')
}

/// No line break in either part, none in the whole.
proof fn lemma_no_char_concat(a: Seq<char>, b: Seq<char>, c: char)
    requires
        !has_char(a, c),
        !has_char(b, c),
    ensures
        !has_char(a + b, c),
{
    if has_char(a + b, c) {
        let i = choose|i: int| 0 <= i < (a + b).len() && (a + b)[i] == c;
        if i < a.len() {
            assert(a[i] == c);
        } else {
            assert(b[i - a.len()] == c);
        }
    }
}

/// Names free of `c`, joined by a separator free of `c`, are free of `c`.
proof fn lemma_join_no_char(ws: Seq<Seq<char>>, sep: Seq<char>, c: char)
    requires
        !has_char(sep, c),
        forall|i: int| 0 <= i < ws.len() ==> !has_char(#[trigger] ws[i], c),
    ensures
        !has_char(join_with(ws, sep), c),
    decreases ws.len(),
{
    if ws.len() == 0 {
        assert(!has_char(Seq::<char>::empty(), c));
    } else if ws.len() > 1 {
        lemma_join_no_char(ws.drop_last(), sep, c);
        lemma_no_char_concat(join_with(ws.drop_last(), sep), sep, c);
        lemma_no_char_concat(join_with(ws.drop_last(), sep) + sep, ws.last(), c);
    }
}

/// `" " + join(ws, ", ")` splits at the commas into the names, each with
/// the blank in front.
proof fn lemma_split_joined(ws: Seq<Seq<char>>)
    requires
        ws.len() > 0,
        forall|i: int| 0 <= i < ws.len() ==> !has_char(#[trigger] ws[i], ','),
    ensures
        split_on(seq![' '] + join_with(ws, ", "@), ',') == ws.map_values(|w: Seq<char>| seq![' '] + w),
    decreases ws.len(),
{
    reveal_strlit(", ");
    if ws.len() == 1 {
        lemma_no_char_concat(seq![' '], ws[0], ',');
        crate::text::lemma_split_single(seq![' '] + ws[0], ',');
        assert(ws.map_values(|w: Seq<char>| seq![' '] + w) =~= seq![seq![' '] + ws[0]]);
    } else {
        let d = ws.drop_last();
        lemma_split_joined(d);
        assert(seq![' '] + join_with(ws, ", "@) =~= (seq![' '] + join_with(d, ", "@)) + seq![','] + (
        seq![' '] + ws.last()));
        crate::text::lemma_split_concat(seq![' '] + join_with(d, ", "@), seq![' '] + ws.last(), ',');
        lemma_no_char_concat(seq![' '], ws.last(), ',');
        crate::text::lemma_split_single(seq![' '] + ws.last(), ',');
        assert(ws.map_values(|w: Seq<char>| seq![' '] + w) =~= d.map_values(
            |w: Seq<char>| seq![' '] + w,
        ) + seq![seq![' '] + ws.last()]);
    }
}

/// The names read back from the pieces: trimmed, none dropped.
proof fn lemma_names_back(ws: Seq<Seq<char>>)
    requires
        forall|i: int| 0 <= i < ws.len() ==> plain_rule_name(#[trigger] ws[i]),
    ensures
        nonempty(ws.map_values(|w: Seq<char>| seq![' '] + w).map_values(|p: Seq<char>| trim(p)))
            == ws,
    decreases ws.len(),
{
    let ps = ws.map_values(|w: Seq<char>| seq![' '] + w).map_values(|p: Seq<char>| trim(p));
    if ws.len() > 0 {
        let d = ws.drop_last();
        lemma_names_back(d);
        assert(ps.drop_last() =~= d.map_values(|w: Seq<char>| seq![' '] + w).map_values(
            |p: Seq<char>| trim(p),
        ));
        let w = ws.last();
        assert(plain_rule_name(ws[ws.len() - 1]));
        assert((seq![' '] + w).drop_first() =~= w);
        assert(crate::text::is_ws(' '));
        assert(trim_start(seq![' '] + w) == trim_start(w));
        assert(ps.last() == trim(w));
        assert(nonempty(ps) =~= ws);
    } else {
        assert(ps =~= Seq::<Seq<char>>::empty());
    }
}

/// Four one-line texts, each followed by a line break, are the first four
/// lines of whatever follows them.
proof fn lemma_four_lines(
    h1: Seq<char>,
    h2: Seq<char>,
    cl: Seq<char>,
    rl: Seq<char>,
    z: Seq<char>,
)
    requires
        !has_char(h1, '\n'),
        !has_char(h2, '\n'),
        !has_char(cl, '\n'),
        !has_char(rl, '\n'),
    ensures
        ({
            let ls = lines(h1 + seq!['\n'] + (h2 + seq!['\n'] + (cl + seq!['\n'] + (rl + seq![
                '\n',
            ] + z))));
            &&& ls.len() >= 4
            &&& ls[0] == crate::text::strip_cr(h1)
            &&& ls[1] == crate::text::strip_cr(h2)
            &&& ls[2] == crate::text::strip_cr(cl)
            &&& ls[3] == crate::text::strip_cr(rl)
        }),
{
    let e = h1 + seq!['\n'] + (h2 + seq!['\n'] + (cl + seq!['\n'] + (rl + seq!['\n'] + z)));
    crate::text::lemma_split_single(h1, '\n');
    crate::text::lemma_split_single(h2, '\n');
    crate::text::lemma_split_single(cl, '\n');
    crate::text::lemma_split_single(rl, '\n');
    crate::text::lemma_split_concat(rl, z, '\n');
    crate::text::lemma_split_concat(cl, rl + seq!['\n'] + z, '\n');
    crate::text::lemma_split_concat(h2, cl + seq!['\n'] + (rl + seq!['\n'] + z), '\n');
    crate::text::lemma_split_concat(
        h1,
        h2 + seq!['\n'] + (cl + seq!['\n'] + (rl + seq!['\n'] + z)),
        '\n',
    );
    crate::text::lemma_split_on_nonempty_len(z, '\n');
    let parts = split_on(e, '\n');
    assert(parts =~= seq![h1, h2, cl, rl] + split_on(z, '\n'));
    assert(e.len() > 0);
}

/// The text after the rules line in emitted code.
pub open spec fn emit_tail(
    t: crate::term::Term,
    name: Seq<char>,
    c: crate::harness::Certificate,
    lits: Seq<Seq<char>>,
) -> Seq<char> {
    let arity = crate::term::clamp_usize(t.spec_arity());
    let scalars = arity <= crate::emit::SCALAR_PARAM_MAX;
    crate::emit::env_line(&c) + "#[allow(unused_parens, clippy::all)]\n"@ + crate::emit::signature(
        name,
        arity,
        crate::term::clamp_usize(t.spec_seq_count()),
    ) + crate::emit::lets_text(t, lits, scalars, t.nodes@.len() as int) + "    "@
        + crate::emit::expr_text(t, lits, scalars, t.root as int, true) + "\n"@ + "}\n"@
}

/// Emitted code with rules starts with the two banner lines, the claim
/// line and the rules line.
#[verifier::rlimit(60)]
proof fn lemma_emit_head(
    t: crate::term::Term,
    name: Seq<char>,
    c: crate::harness::Certificate,
    lits: Seq<Seq<char>>,
)
    requires
        c.rule_trace@.len() > 0,
    ensures
        crate::emit::emit_text(t, name, Some(&c), lits) == "// AUTO-GENERATED by dge emit \u{2014} do not hand-edit."@
            + seq!['\n'] + ("// Re-run the pipeline instead; hand edits VOID the certificate."@ + seq![
            '\n',
        ] + (("/// CERTIFIED: "@ + c.claim_text@) + seq!['\n'] + (("/// rules applied: "@
            + join_with(crate::emit::lits_view(c.rule_trace@), ", "@)) + seq!['\n'] + emit_tail(
            t,
            name,
            c,
            lits,
        )))),
{
    reveal_strlit("// AUTO-GENERATED by dge emit \u{2014} do not hand-edit.\n");
    reveal_strlit("// AUTO-GENERATED by dge emit \u{2014} do not hand-edit.");
    reveal_strlit("// Re-run the pipeline instead; hand edits VOID the certificate.\n");
    reveal_strlit("// Re-run the pipeline instead; hand edits VOID the certificate.");
    reveal_strlit("\n");
    let e = crate::emit::emit_text(t, name, Some(&c), lits);
    assert(e =~= "// AUTO-GENERATED by dge emit \u{2014} do not hand-edit."@ + seq!['\n'] + (
    "// Re-run the pipeline instead; hand edits VOID the certificate."@ + seq!['\n'] + ((
    "/// CERTIFIED: "@ + c.claim_text@) + seq!['\n'] + (("/// rules applied: "@ + join_with(
        crate::emit::lits_view(c.rule_trace@),
        ", "@,
    )) + seq!['\n'] + emit_tail(t, name, c, lits)))));
}

/// The rewriter reads back what the emitter certified: the rule names that
/// `cert_rules` finds in emitted code are the certificate's rule trace (for
/// a one-line claim and plain rule names).
#[verifier::rlimit(60)]
#[verifier::spinoff_prover]
pub proof fn lemma_rules_read_back(
    t: crate::term::Term,
    name: Seq<char>,
    c: crate::harness::Certificate,
    lits: Seq<Seq<char>>,
)
    requires
        c.rule_trace@.len() > 0,
        !has_char(c.claim_text@, '\n'),
        forall|i: int|
            0 <= i < c.rule_trace@.len() ==> plain_rule_name(#[trigger] c.rule_trace@[i]@),
    ensures
        rules_of(lines(crate::emit::emit_text(t, name, Some(&c), lits))) == crate::emit::lits_view(
            c.rule_trace@,
        ),
{
    let ws = crate::emit::lits_view(c.rule_trace@);
    assert forall|i: int| 0 <= i < ws.len() implies plain_rule_name(#[trigger] ws[i]) by {
        assert(ws[i] == c.rule_trace@[i]@);
    }
    let h1 = "// AUTO-GENERATED by dge emit \u{2014} do not hand-edit."@;
    let h2 = "// Re-run the pipeline instead; hand edits VOID the certificate."@;
    let cl = "/// CERTIFIED: "@ + c.claim_text@;
    let rl = "/// rules applied: "@ + join_with(ws, ", "@);
    lemma_emit_head(t, name, c, lits);
    reveal_strlit("// AUTO-GENERATED by dge emit \u{2014} do not hand-edit.");
    reveal_strlit("// Re-run the pipeline instead; hand edits VOID the certificate.");
    reveal_strlit("/// CERTIFIED: ");
    reveal_strlit("/// rules applied: ");
    reveal_strlit("/// rules applied:");
    reveal_strlit(", ");
    // no line breaks inside the four leading lines
    lemma_no_char_concat("/// CERTIFIED: "@, c.claim_text@, '\n');
    assert forall|i: int| 0 <= i < ws.len() implies !has_char(#[trigger] ws[i], '\n') by {
        assert(plain_rule_name(ws[i]));
    }
    lemma_join_no_char(ws, ", "@, '\n');
    lemma_no_char_concat("/// rules applied: "@, join_with(ws, ", "@), '\n');
    lemma_four_lines(h1, h2, cl, rl, emit_tail(t, name, c, lits));
    let ls = lines(crate::emit::emit_text(t, name, Some(&c), lits));
    // the first three lines are not the rules line
    assert(!starts_with(trim_start(ls[0]), "/// rules applied:"@)) by {
        assert(ls[0][2] != "/// rules applied:"@[2]);
    }
    assert(!starts_with(trim_start(ls[1]), "/// rules applied:"@)) by {
        assert(ls[1][2] != "/// rules applied:"@[2]);
    }
    assert(!starts_with(trim_start(ls[2]), "/// rules applied:"@)) by {
        assert(ls[2].len() >= 14);
        assert(ls[2][4] != "/// rules applied:"@[4]);
    }
    // the fourth is, and it carries the names
    let last = ws.last();
    assert(plain_rule_name(ws[ws.len() - 1]));
    assert(join_with(ws, ", "@).len() > 0 && join_with(ws, ", "@).last() == last.last()) by {
        if ws.len() > 1 {
            assert(join_with(ws, ", "@) == join_with(ws.drop_last(), ", "@) + ", "@ + last);
        }
    }
    lemma_trimmed_last(last);
    assert(ls[3] == rl);
    assert(rl.skip(18) =~= seq![' '] + join_with(ws, ", "@));
    let l3 = ls.drop_first().drop_first().drop_first();
    assert(l3[0] == rl);
    assert(trim_start(rl) == rl);
    assert(rl.subrange(0, 18) =~= "/// rules applied:"@);
    assert(starts_with(trim_start(l3[0]), "/// rules applied:"@));
    assert(rules_of(ls) == rules_of(ls.drop_first()));
    assert(rules_of(ls.drop_first()) == rules_of(ls.drop_first().drop_first()));
    assert(rules_of(ls.drop_first().drop_first()) == rules_of(l3));
    assert(rules_of(l3) == rule_names(seq![' '] + join_with(ws, ", "@)));
    lemma_split_joined(ws);
    lemma_names_back(ws);
}

proof fn lemma_trim_end_le(s: Seq<char>)
    ensures
        trim_end(s).len() <= s.len(),
    decreases s.len(),
{
    if s.len() > 0 && crate::text::is_ws(s.last()) {
        lemma_trim_end_le(s.drop_last());
    }
}

/// A non-empty text that is its own trim ends in a non-blank.
proof fn lemma_trimmed_last(s: Seq<char>)
    requires
        s.len() > 0,
        trim(s) == s,
    ensures
        !crate::text::is_ws(s.last()),
{
    if crate::text::is_ws(s[0]) {
        crate::text::lemma_trim_start_len(s.drop_first());
        lemma_trim_end_le(trim_start(s));
        assert(false);
    }
    assert(trim_start(s) == s);
    if crate::text::is_ws(s.last()) {
        lemma_trim_end_le(s.drop_last());
        assert(false);
    }
}

} // verus!
