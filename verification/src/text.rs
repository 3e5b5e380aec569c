//! Character-sequence utilities: the `str` operations the IR reader and the
//! source editor need, over `Vec<char>` with their meaning stated on
//! `Seq<char>`.
use vstd::prelude::*;
use vstd::string::StringExecFns;

verus! {

// ------------------------------------------------------------ whitespace --

/// Unicode White_Space, the set `char::is_whitespace` tests.
pub open spec fn is_ws(c: char) -> bool {
    let u = c as u32;
    ||| 0x09 <= u <= 0x0d
    ||| u == 0x20
    ||| u == 0x85
    ||| u == 0xa0
    ||| u == 0x1680
    ||| 0x2000 <= u <= 0x200a
    ||| u == 0x2028
    ||| u == 0x2029
    ||| u == 0x202f
    ||| u == 0x205f
    ||| u == 0x3000
}

pub fn is_ws_exec(c: char) -> (r: bool)
    ensures
        r == is_ws(c),
{
    let u = c as u32;
    (0x09 <= u && u <= 0x0d) || u == 0x20 || u == 0x85 || u == 0xa0 || u == 0x1680 || (0x2000
        <= u && u <= 0x200a) || u == 0x2028 || u == 0x2029 || u == 0x202f || u == 0x205f || u
        == 0x3000
}

pub open spec fn trim_start(s: Seq<char>) -> Seq<char>
    decreases s.len(),
{
    if s.len() > 0 && is_ws(s[0]) {
        trim_start(s.drop_first())
    } else {
        s
    }
}

pub open spec fn trim_end(s: Seq<char>) -> Seq<char>
    decreases s.len(),
{
    if s.len() > 0 && is_ws(s.last()) {
        trim_end(s.drop_last())
    } else {
        s
    }
}

pub open spec fn trim(s: Seq<char>) -> Seq<char> {
    trim_end(trim_start(s))
}

pub open spec fn has_ws(s: Seq<char>) -> bool {
    exists|i: int| 0 <= i < s.len() && is_ws(#[trigger] s[i])
}

// ------------------------------------------------------------- prefixes --

pub open spec fn starts_with(s: Seq<char>, p: Seq<char>) -> bool {
    p.len() <= s.len() && s.subrange(0, p.len() as int) == p
}

pub open spec fn ends_with(s: Seq<char>, p: Seq<char>) -> bool {
    p.len() <= s.len() && s.subrange(s.len() - p.len(), s.len() as int) == p
}

/// `p` occurs in `s` at index `i`.
pub open spec fn occurs_at(s: Seq<char>, p: Seq<char>, i: int) -> bool {
    0 <= i && i + p.len() <= s.len() && s.subrange(i, i + p.len()) == p
}

pub open spec fn contains(s: Seq<char>, p: Seq<char>) -> bool {
    exists|i: int| occurs_at(s, p, i)
}

/// Index of the first occurrence of `p` in `s`.
pub open spec fn first_occurrence(s: Seq<char>, p: Seq<char>, i: int) -> bool {
    occurs_at(s, p, i) && forall|j: int| 0 <= j < i ==> !occurs_at(s, p, j)
}

pub open spec fn first_char_at(s: Seq<char>, c: char, i: int) -> bool {
    0 <= i < s.len() && s[i] == c && forall|j: int| 0 <= j < i ==> s[j] != c
}

pub open spec fn last_char_at(s: Seq<char>, c: char, i: int) -> bool {
    0 <= i < s.len() && s[i] == c && forall|j: int| i < j < s.len() ==> s[j] != c
}

pub open spec fn has_char(s: Seq<char>, c: char) -> bool {
    exists|i: int| 0 <= i < s.len() && s[i] == c
}

// ---------------------------------------------------------------- pieces --

/// The pieces of `s` between occurrences of `c` (all of them, including
/// empty ones), as `str::split(c)` yields them.
pub open spec fn split_on(s: Seq<char>, c: char) -> Seq<Seq<char>>
    decreases s.len(),
{
    if s.len() == 0 {
        seq![Seq::<char>::empty()]
    } else {
        let rest = split_on(s.drop_last(), c);
        if s.last() == c {
            rest.push(Seq::<char>::empty())
        } else {
            rest.update(rest.len() - 1, rest.last().push(s.last()))
        }
    }
}

/// `split_on` never yields nothing.
pub proof fn lemma_split_on_nonempty_len(s: Seq<char>, c: char)
    ensures
        split_on(s, c).len() >= 1,
    decreases s.len(),
{
    if s.len() > 0 {
        lemma_split_on_nonempty_len(s.drop_last(), c);
    }
}

/// A text without the separator is a single piece.
pub proof fn lemma_split_single(p: Seq<char>, c: char)
    requires
        !has_char(p, c),
    ensures
        split_on(p, c) == seq![p],
    decreases p.len(),
{
    if p.len() == 0 {
        assert(p =~= Seq::<char>::empty());
    } else {
        let t = p.drop_last();
        assert(!has_char(t, c)) by {
            if has_char(t, c) {
                let i = choose|i: int| 0 <= i < t.len() && t[i] == c;
                assert(p[i] == c);
            }
        }
        lemma_split_single(t, c);
        assert(p.last() != c);
        assert(t.push(p.last()) =~= p);
        assert(seq![t].update(0, t.push(p.last())) =~= seq![p]);
    }
}

/// Splitting at a separator splits the two sides independently.
pub proof fn lemma_split_concat(a: Seq<char>, b: Seq<char>, c: char)
    ensures
        split_on(a + seq![c] + b, c) == split_on(a, c) + split_on(b, c),
    decreases b.len(),
{
    let w = a + seq![c] + b;
    if b.len() == 0 {
        assert(w.drop_last() =~= a);
        assert(b =~= Seq::<char>::empty());
        assert(split_on(a, c).push(Seq::<char>::empty()) =~= split_on(a, c) + seq![
            Seq::<char>::empty(),
        ]);
    } else {
        assert(w.drop_last() =~= a + seq![c] + b.drop_last());
        lemma_split_concat(a, b.drop_last(), c);
        lemma_split_on_nonempty_len(b.drop_last(), c);
        let ra = split_on(a, c);
        let rb = split_on(b.drop_last(), c);
        if b.last() == c {
            assert((ra + rb).push(Seq::<char>::empty()) =~= ra + rb.push(Seq::<char>::empty()));
        } else {
            assert((ra + rb).update((ra + rb).len() - 1, (ra + rb).last().push(b.last())) =~= ra
                + rb.update(rb.len() - 1, rb.last().push(b.last())));
        }
    }
}

/// The whitespace-separated words of `s`, as `str::split_whitespace`
/// yields them.
pub open spec fn words(s: Seq<char>) -> Seq<Seq<char>>
    decreases s.len(),
{
    if s.len() == 0 {
        Seq::empty()
    } else {
        let rest = words(s.drop_last());
        if is_ws(s.last()) {
            rest
        } else if s.len() >= 2 && !is_ws(s[s.len() - 2]) {
            rest.update(rest.len() - 1, rest.last().push(s.last()))
        } else {
            rest.push(seq![s.last()])
        }
    }
}

/// One line with its `\r` terminator part removed, as `str::lines` does.
pub open spec fn strip_cr(l: Seq<char>) -> Seq<char> {
    if l.len() > 0 && l.last() == '\r' {
        l.drop_last()
    } else {
        l
    }
}

/// The lines of `s`, as `str::lines` yields them: split at `\n`, a trailing
/// `\r` dropped from each line, no final empty line after a last `\n`.
pub open spec fn lines(s: Seq<char>) -> Seq<Seq<char>> {
    let parts = split_on(s, '\n');
    let kept = if s.len() > 0 && s.last() == '\n' {
        parts.drop_last()
    } else if s.len() == 0 {
        Seq::empty()
    } else {
        parts
    };
    kept.map_values(|l: Seq<char>| strip_cr(l))
}

// ------------------------------------------------------------------ exec --

/// A copy of `s[a..b]`.
pub fn copy_range(s: &[char], a: usize, b: usize) -> (r: Vec<char>)
    requires
        a <= b <= s@.len(),
    ensures
        r@ == s@.subrange(a as int, b as int),
{
    let mut r: Vec<char> = Vec::new();
    let mut i = a;
    while i < b
        invariant
            a <= i <= b,
            b <= s@.len(),
            r@ == s@.subrange(a as int, i as int),
        decreases b - i,
    {
        r.push(s[i]);
        i += 1;
        assert(r@ =~= s@.subrange(a as int, i as int));
    }
    r
}

/// The characters of a string slice.
pub fn chars_of(s: &str) -> (r: Vec<char>)
    ensures
        r@ == s@,
{
    let mut r: Vec<char> = Vec::new();
    for c in it: s.chars()
        invariant
            r@ == it.seq().take(it.index() as int),
    {
        r.push(c);
    }
    assert(r@ =~= s@);
    r
}

/// A `String` holding exactly `cs`.
#[verifier::external_body]
pub fn string_of(cs: &[char]) -> (r: String)
    ensures
        r@ == cs@,
{
    cs.iter().collect()
}

pub fn eq(s: &[char], t: &[char]) -> (r: bool)
    ensures
        r == (s@ == t@),
{
    if s.len() != t.len() {
        assert(s@.len() != t@.len());
        return false;
    }
    let mut i: usize = 0;
    while i < s.len()
        invariant
            i <= s@.len(),
            s@.len() == t@.len(),
            forall|j: int| 0 <= j < i ==> s@[j] == t@[j],
        decreases s@.len() - i,
    {
        if s[i] != t[i] {
            assert(s@[i as int] != t@[i as int]);
            return false;
        }
        i += 1;
    }
    assert(s@ =~= t@);
    true
}

/// `s` is exactly the literal `l`.
pub fn lit_is(s: &[char], l: &str) -> (r: bool)
    ensures
        r == (s@ == l@),
{
    let lc = chars_of(l);
    eq(s, &lc)
}

proof fn lemma_trim_start_skip(s: Seq<char>, i: int)
    requires
        0 <= i <= s.len(),
        forall|j: int| 0 <= j < i ==> is_ws(#[trigger] s[j]),
    ensures
        trim_start(s) == trim_start(s.skip(i)),
    decreases i,
{
    if i > 0 {
        assert(s.len() > 0 && is_ws(s[0]));
        assert forall|j: int| 0 <= j < i - 1 implies is_ws(#[trigger] s.drop_first()[j]) by {
            assert(s.drop_first()[j] == s[j + 1]);
        }
        lemma_trim_start_skip(s.drop_first(), i - 1);
        assert(s.drop_first().skip(i - 1) =~= s.skip(i));
    } else {
        assert(s.skip(0) =~= s);
    }
}

proof fn lemma_trim_end_take(s: Seq<char>, i: int)
    requires
        0 <= i <= s.len(),
        forall|j: int| i <= j < s.len() ==> is_ws(#[trigger] s[j]),
    ensures
        trim_end(s) == trim_end(s.take(i)),
    decreases s.len() - i,
{
    if i < s.len() {
        assert(is_ws(s.last()));
        assert forall|j: int| i <= j < s.drop_last().len() implies is_ws(
            #[trigger] s.drop_last()[j],
        ) by {
            assert(s.drop_last()[j] == s[j]);
        }
        lemma_trim_end_take(s.drop_last(), i);
        assert(s.drop_last().take(i) =~= s.take(i));
    } else {
        assert(s.take(i) =~= s);
    }
}

/// Number of leading whitespace characters.
pub fn lead_ws(s: &[char]) -> (r: usize)
    ensures
        r <= s@.len(),
        trim_start(s@) == s@.skip(r as int),
        forall|j: int| 0 <= j < r ==> is_ws(#[trigger] s@[j]),
        r < s@.len() ==> !is_ws(s@[r as int]),
{
    let mut i: usize = 0;
    while i < s.len() && is_ws_exec(s[i])
        invariant
            i <= s@.len(),
            forall|j: int| 0 <= j < i ==> is_ws(#[trigger] s@[j]),
        decreases s@.len() - i,
    {
        i += 1;
    }
    proof {
        lemma_trim_start_skip(s@, i as int);
        let t = s@.skip(i as int);
        if t.len() > 0 {
            assert(t[0] == s@[i as int]);
        }
    }
    i
}

/// Index just past the last non-whitespace character.
pub fn trail_ws_end(s: &[char]) -> (r: usize)
    ensures
        r <= s@.len(),
        trim_end(s@) == s@.take(r as int),
        forall|j: int| r <= j < s@.len() ==> is_ws(#[trigger] s@[j]),
        r > 0 ==> !is_ws(s@[r - 1]),
{
    let mut i: usize = s.len();
    while i > 0 && is_ws_exec(s[i - 1])
        invariant
            i <= s@.len(),
            forall|j: int| i <= j < s@.len() ==> is_ws(#[trigger] s@[j]),
        decreases i,
    {
        i -= 1;
    }
    proof {
        lemma_trim_end_take(s@, i as int);
        let t = s@.take(i as int);
        if t.len() > 0 {
            assert(t.last() == s@[i - 1]);
        }
    }
    i
}

pub fn trim_start_exec(s: &[char]) -> (r: Vec<char>)
    ensures
        r@ == trim_start(s@),
{
    let a = lead_ws(s);
    copy_range(s, a, s.len())
}

pub fn trim_end_exec(s: &[char]) -> (r: Vec<char>)
    ensures
        r@ == trim_end(s@),
{
    let b = trail_ws_end(s);
    copy_range(s, 0, b)
}

pub fn trim_exec(s: &[char]) -> (r: Vec<char>)
    ensures
        r@ == trim(s@),
{
    let t = trim_start_exec(s);
    trim_end_exec(&t)
}

pub fn has_ws_exec(s: &[char]) -> (r: bool)
    ensures
        r == has_ws(s@),
{
    let mut i: usize = 0;
    while i < s.len()
        invariant
            i <= s@.len(),
            forall|j: int| 0 <= j < i ==> !is_ws(#[trigger] s@[j]),
        decreases s@.len() - i,
    {
        if is_ws_exec(s[i]) {
            return true;
        }
        i += 1;
    }
    false
}

pub fn starts_with_exec(s: &[char], p: &[char]) -> (r: bool)
    ensures
        r == starts_with(s@, p@),
{
    if p.len() > s.len() {
        return false;
    }
    let mut i: usize = 0;
    while i < p.len()
        invariant
            i <= p@.len() <= s@.len(),
            forall|j: int| 0 <= j < i ==> s@[j] == p@[j],
        decreases p@.len() - i,
    {
        if s[i] != p[i] {
            assert(s@.subrange(0, p@.len() as int)[i as int] != p@[i as int]);
            return false;
        }
        i += 1;
    }
    assert(s@.subrange(0, p@.len() as int) =~= p@);
    true
}

pub fn ends_with_exec(s: &[char], p: &[char]) -> (r: bool)
    ensures
        r == ends_with(s@, p@),
{
    if p.len() > s.len() {
        return false;
    }
    let n = s.len();
    let off = n - p.len();
    let mut i: usize = 0;
    while i < p.len()
        invariant
            n == s@.len(),
            i <= p@.len() <= s@.len(),
            off == s@.len() - p@.len(),
            forall|j: int| 0 <= j < i ==> s@[off + j] == p@[j],
        decreases p@.len() - i,
    {
        if s[off + i] != p[i] {
            assert(s@.subrange(off as int, s@.len() as int)[i as int] != p@[i as int]);
            return false;
        }
        i += 1;
    }
    assert(s@.subrange(off as int, s@.len() as int) =~= p@);
    true
}

/// `s` starts with the literal `l`.
pub fn starts(s: &[char], l: &str) -> (r: bool)
    ensures
        r == starts_with(s@, l@),
{
    let lc = chars_of(l);
    starts_with_exec(s, &lc)
}

pub fn ends(s: &[char], l: &str) -> (r: bool)
    ensures
        r == ends_with(s@, l@),
{
    let lc = chars_of(l);
    ends_with_exec(s, &lc)
}

/// `s` with the literal prefix `l` removed, if it has it.
pub fn strip_prefix(s: &[char], l: &str) -> (r: Option<Vec<char>>)
    ensures
        r is Some <==> starts_with(s@, l@),
        r matches Some(t) ==> t@ == s@.skip(l@.len() as int),
{
    let lc = chars_of(l);
    if starts_with_exec(s, &lc) {
        Some(copy_range(s, lc.len(), s.len()))
    } else {
        None
    }
}

pub fn strip_suffix(s: &[char], l: &str) -> (r: Option<Vec<char>>)
    ensures
        r is Some <==> ends_with(s@, l@),
        r matches Some(t) ==> t@ == s@.take(s@.len() - l@.len()),
{
    let lc = chars_of(l);
    if ends_with_exec(s, &lc) {
        Some(copy_range(s, 0, s.len() - lc.len()))
    } else {
        None
    }
}

/// `s` with one leading character `c` removed, if it starts with it.
pub fn strip_prefix_char(s: &[char], c: char) -> (r: Option<Vec<char>>)
    ensures
        r is Some <==> (s@.len() > 0 && s@[0] == c),
        r matches Some(t) ==> t@ == s@.skip(1),
{
    if s.len() > 0 && s[0] == c {
        Some(copy_range(s, 1, s.len()))
    } else {
        None
    }
}

pub fn occurs_at_exec(s: &[char], p: &[char], i: usize) -> (r: bool)
    ensures
        r == occurs_at(s@, p@, i as int),
{
    let n = s.len();
    if i > n || p.len() > n - i {
        return false;
    }
    let mut k: usize = 0;
    while k < p.len()
        invariant
            n == s@.len(),
            k <= p@.len(),
            i + p@.len() <= s@.len(),
            forall|j: int| 0 <= j < k ==> s@[i + j] == p@[j],
        decreases p@.len() - k,
    {
        if s[i + k] != p[k] {
            assert(s@.subrange(i as int, i + p@.len())[k as int] != p@[k as int]);
            return false;
        }
        k += 1;
    }
    assert(s@.subrange(i as int, i + p@.len()) =~= p@);
    true
}

/// Index of the first occurrence of `p` in `s`.
pub fn find(s: &[char], p: &[char]) -> (r: Option<usize>)
    ensures
        r is Some <==> contains(s@, p@),
        r matches Some(i) ==> first_occurrence(s@, p@, i as int),
{
    let mut i: usize = 0;
    loop
        invariant
            i <= s@.len(),
            forall|j: int| 0 <= j < i ==> !occurs_at(s@, p@, j),
        decreases s@.len() - i,
    {
        if occurs_at_exec(s, p, i) {
            return Some(i);
        }
        if i == s.len() {
            assert forall|j: int| !occurs_at(s@, p@, j) by {
                if j > i {
                    assert(j + p@.len() > s@.len());
                }
            }
            return None;
        }
        i += 1;
    }
}

/// `s` contains the literal `l`.
pub fn has(s: &[char], l: &str) -> (r: bool)
    ensures
        r == contains(s@, l@),
{
    let lc = chars_of(l);
    find(s, &lc).is_some()
}

pub fn find_char(s: &[char], c: char) -> (r: Option<usize>)
    ensures
        r is Some <==> has_char(s@, c),
        r matches Some(i) ==> first_char_at(s@, c, i as int),
{
    let mut i: usize = 0;
    while i < s.len()
        invariant
            i <= s@.len(),
            forall|j: int| 0 <= j < i ==> s@[j] != c,
        decreases s@.len() - i,
    {
        if s[i] == c {
            return Some(i);
        }
        i += 1;
    }
    None
}

pub fn rfind_char(s: &[char], c: char) -> (r: Option<usize>)
    ensures
        r is Some <==> has_char(s@, c),
        r matches Some(i) ==> last_char_at(s@, c, i as int),
{
    let mut i: usize = s.len();
    while i > 0
        invariant
            i <= s@.len(),
            forall|j: int| i <= j < s@.len() ==> s@[j] != c,
        decreases i,
    {
        if s[i - 1] == c {
            return Some(i - 1);
        }
        i -= 1;
    }
    None
}

/// `s` split at the first `c`: the text before it and the text after it.
pub fn split_once(s: &[char], c: char) -> (r: Option<(Vec<char>, Vec<char>)>)
    ensures
        r is Some <==> has_char(s@, c),
        r matches Some((x, y)) ==> exists|i: int|
            first_char_at(s@, c, i) && x@ == s@.take(i) && y@ == s@.skip(i + 1),
{
    let n = s.len();
    match find_char(s, c) {
        Some(i) => Some((copy_range(s, 0, i), copy_range(s, i + 1, n))),
        None => None,
    }
}

/// The pieces of `s` between occurrences of `c`.
pub fn split_char(s: &[char], c: char) -> (r: Vec<Vec<char>>)
    ensures
        r@.map_values(|v: Vec<char>| v@) == split_on(s@, c),
        r@.len() >= 1,
{
    let mut out: Vec<Vec<char>> = Vec::new();
    let mut cur: Vec<char> = Vec::new();
    let mut i: usize = 0;
    while i < s.len()
        invariant
            i <= s@.len(),
            out@.map_values(|v: Vec<char>| v@).push(cur@) == split_on(s@.take(i as int), c),
        decreases s@.len() - i,
    {
        proof {
            let t = s@.take(i + 1);
            assert(t.drop_last() =~= s@.take(i as int));
            lemma_split_on_nonempty_len(s@.take(i as int), c);
        }
        if s[i] == c {
            let ghost prev = out@.map_values(|v: Vec<char>| v@);
            out.push(cur);
            cur = Vec::new();
            assert(out@.map_values(|v: Vec<char>| v@) =~= prev.push(
                out@[out@.len() - 1]@,
            ));
            assert(out@.map_values(|v: Vec<char>| v@).push(cur@) =~= split_on(
                s@.take(i + 1),
                c,
            ));
        } else {
            let ghost prev = out@.map_values(|v: Vec<char>| v@);
            cur.push(s[i]);
            assert(out@.map_values(|v: Vec<char>| v@) == prev);
            assert(prev.push(cur@) =~= split_on(s@.take(i + 1), c));
        }
        i += 1;
    }
    assert(s@.take(s@.len() as int) =~= s@);
    let ghost prev = out@.map_values(|v: Vec<char>| v@);
    out.push(cur);
    assert(out@.map_values(|v: Vec<char>| v@) =~= prev.push(out@[out@.len() - 1]@));
    out
}

/// The whitespace-separated words of `s`.
pub fn words_exec(s: &[char]) -> (r: Vec<Vec<char>>)
    ensures
        r@.map_values(|v: Vec<char>| v@) == words(s@),
{
    let mut out: Vec<Vec<char>> = Vec::new();
    let mut i: usize = 0;
    while i < s.len()
        invariant
            i <= s@.len(),
            out@.map_values(|v: Vec<char>| v@) == words(s@.take(i as int)),
        decreases s@.len() - i,
    {
        let t = Ghost(s@.take(i + 1));
        assert(t@.drop_last() =~= s@.take(i as int));
        let c = s[i];
        if is_ws_exec(c) {
        } else if i >= 1 && !is_ws_exec(s[i - 1]) {
            let ghost prev = out@.map_values(|v: Vec<char>| v@);
            proof {
                lemma_words_last_nonempty(s@.take(i as int));
            }
            let last = out.len() - 1;
            let mut w = out.remove(last);
            w.push(c);
            out.push(w);
            assert(out@.map_values(|v: Vec<char>| v@) =~= prev.update(
                prev.len() - 1,
                prev.last().push(c),
            ));
        } else {
            let ghost prev = out@.map_values(|v: Vec<char>| v@);
            let mut w: Vec<char> = Vec::new();
            w.push(c);
            out.push(w);
            assert(out@.map_values(|v: Vec<char>| v@) =~= prev.push(seq![c]));
        }
        i += 1;
    }
    assert(s@.take(s@.len() as int) =~= s@);
    out
}

proof fn lemma_words_last_nonempty(s: Seq<char>)
    requires
        s.len() > 0,
        !is_ws(s.last()),
    ensures
        words(s).len() > 0,
    decreases s.len(),
{
    if s.len() >= 2 && !is_ws(s[s.len() - 2]) {
        let t = s.drop_last();
        assert(t.last() == s[s.len() - 2]);
        lemma_words_last_nonempty(t);
    }
}

/// The lines of `s` (as `str::lines`).
pub fn lines_exec(s: &[char]) -> (r: Vec<Vec<char>>)
    ensures
        r@.map_values(|v: Vec<char>| v@) == lines(s@),
{
    let parts = split_char(s, '\n');
    let ghost pv = parts@.map_values(|v: Vec<char>| v@);
    proof {
        lemma_split_on_nonempty_len(s@, '\n');
    }
    let n = if s.len() == 0 {
        0
    } else if s[s.len() - 1] == '\n' {
        parts.len() - 1
    } else {
        parts.len()
    };
    let mut out: Vec<Vec<char>> = Vec::new();
    let mut k: usize = 0;
    while k < n
        invariant
            k <= n <= parts@.len(),
            pv == parts@.map_values(|v: Vec<char>| v@),
            out@.map_values(|v: Vec<char>| v@) == pv.take(k as int).map_values(
                |l: Seq<char>| strip_cr(l),
            ),
        decreases n - k,
    {
        let p = &parts[k];
        let l = if p.len() > 0 && p[p.len() - 1] == '\r' {
            copy_range(p, 0, p.len() - 1)
        } else {
            copy_range(p, 0, p.len())
        };
        assert(l@ == strip_cr(pv[k as int]));
        let ghost prev = out@.map_values(|v: Vec<char>| v@);
        out.push(l);
        assert(out@.map_values(|v: Vec<char>| v@) =~= prev.push(l@));
        assert(pv.take(k + 1).map_values(|l: Seq<char>| strip_cr(l)) =~= pv.take(
            k as int,
        ).map_values(|l: Seq<char>| strip_cr(l)).push(strip_cr(pv[k as int])));
        k += 1;
    }
    proof {
        let kept = if s@.len() > 0 && s@.last() == '\n' {
            pv.drop_last()
        } else if s@.len() == 0 {
            Seq::<Seq<char>>::empty()
        } else {
            pv
        };
        assert(kept =~= pv.take(n as int));
    }
    out
}

// ------------------------------------------------------------ first word --

/// Length of the run of non-whitespace characters at the start of `t`.
pub open spec fn word_len(t: Seq<char>) -> nat
    decreases t.len(),
{
    if t.len() > 0 && !is_ws(t[0]) {
        1 + word_len(t.drop_first())
    } else {
        0
    }
}

/// The first whitespace-separated word of `s`, if any.
pub open spec fn first_word(s: Seq<char>) -> Option<Seq<char>> {
    let t = trim_start(s);
    if t.len() == 0 {
        None
    } else {
        Some(t.take(word_len(t) as int))
    }
}

/// What follows the first word of `s`.
pub open spec fn after_first_word(s: Seq<char>) -> Seq<char> {
    let t = trim_start(s);
    t.skip(word_len(t) as int)
}

proof fn lemma_word_len(t: Seq<char>, i: int)
    requires
        0 <= i <= t.len(),
        forall|j: int| 0 <= j < i ==> !is_ws(#[trigger] t[j]),
        i == t.len() || is_ws(t[i]),
    ensures
        word_len(t) == i,
    decreases i,
{
    if i > 0 {
        assert forall|j: int| 0 <= j < i - 1 implies !is_ws(#[trigger] t.drop_first()[j]) by {
            assert(t.drop_first()[j] == t[j + 1]);
        }
        if i - 1 < t.drop_first().len() {
            assert(t.drop_first()[i - 1] == t[i]);
        }
        lemma_word_len(t.drop_first(), i - 1);
    }
}

pub proof fn lemma_word_len_bound(t: Seq<char>)
    ensures
        word_len(t) <= t.len(),
    decreases t.len(),
{
    if t.len() > 0 && !is_ws(t[0]) {
        lemma_word_len_bound(t.drop_first());
    }
}

/// The first word of `s` and the text after it.
pub fn split_first_word(s: &[char]) -> (r: Option<(Vec<char>, Vec<char>)>)
    ensures
        r is Some <==> first_word(s@) is Some,
        r matches Some((w, rest)) ==> first_word(s@) == Some(w@) && rest@ == after_first_word(s@),
        r matches Some((w, rest)) ==> w@.len() > 0,
{
    let a = lead_ws(s);
    let n = s.len();
    if a == n {
        return None;
    }
    let mut e = a;
    while e < n && !is_ws_exec(s[e])
        invariant
            n == s@.len(),
            a <= e <= n,
            forall|j: int| a <= j < e ==> !is_ws(#[trigger] s@[j]),
        decreases n - e,
    {
        e += 1;
    }
    proof {
        let t = s@.skip(a as int);
        assert forall|j: int| 0 <= j < e - a implies !is_ws(#[trigger] t[j]) by {
            assert(t[j] == s@[a + j]);
        }
        if e < n {
            assert(t[e - a] == s@[e as int]);
        }
        lemma_word_len(t, e - a);
        assert(t[0] == s@[a as int]);
    }
    let w = copy_range(s, a, e);
    let rest = copy_range(s, e, n);
    assert(w@ =~= s@.skip(a as int).take(e - a));
    assert(rest@ =~= s@.skip(a as int).skip(e - a));
    Some((w, rest))
}

// ------------------------------------------------------ repeated strips --

/// `s` with every leading `c` removed (`trim_start_matches(c)`).
pub open spec fn drop_leading(s: Seq<char>, c: char) -> Seq<char>
    decreases s.len(),
{
    if s.len() > 0 && s[0] == c {
        drop_leading(s.drop_first(), c)
    } else {
        s
    }
}

pub fn drop_leading_exec(s: &[char], c: char) -> (r: Vec<char>)
    ensures
        r@ == drop_leading(s@, c),
{
    let n = s.len();
    let mut a: usize = 0;
    assert(s@.skip(0) =~= s@);
    while a < n && s[a] == c
        invariant
            n == s@.len(),
            a <= n,
            drop_leading(s@.skip(a as int), c) == drop_leading(s@, c),
        decreases n - a,
    {
        assert(s@.skip(a as int).drop_first() =~= s@.skip(a + 1));
        a += 1;
    }
    let r = copy_range(s, a, n);
    assert(r@ =~= s@.skip(a as int));
    r
}

/// `s` with every leading copy of the literal `l` removed.
pub open spec fn drop_leading_lit(s: Seq<char>, l: Seq<char>) -> Seq<char>
    decreases s.len(),
{
    if l.len() > 0 && starts_with(s, l) {
        drop_leading_lit(s.skip(l.len() as int), l)
    } else {
        s
    }
}

pub fn drop_leading_lit_exec(s: &[char], l: &str) -> (r: Vec<char>)
    ensures
        r@ == drop_leading_lit(s@, l@),
{
    let lc = chars_of(l);
    let mut cur = copy_range(s, 0, s.len());
    assert(cur@ =~= s@);
    if lc.len() == 0 {
        return cur;
    }
    while starts_with_exec(&cur, &lc)
        invariant
            lc@ == l@,
            lc@.len() > 0,
            drop_leading_lit(cur@, l@) == drop_leading_lit(s@, l@),
        decreases cur@.len(),
    {
        cur = copy_range(&cur, lc.len(), cur.len());
    }
    cur
}

/// `s` with every leading and trailing `[`, `]` or space removed.
pub open spec fn is_bracket(c: char) -> bool {
    c == '[' || c == ']' || c == ' '
}

pub open spec fn trim_brackets(s: Seq<char>) -> Seq<char>
    decreases s.len(),
{
    if s.len() > 0 && is_bracket(s[0]) {
        trim_brackets(s.drop_first())
    } else if s.len() > 0 && is_bracket(s.last()) {
        trim_brackets(s.drop_last())
    } else {
        s
    }
}

pub fn trim_brackets_exec(s: &[char]) -> (r: Vec<char>)
    ensures
        r@ == trim_brackets(s@),
{
    let mut a: usize = 0;
    let mut b: usize = s.len();
    assert(s@.subrange(0, b as int) =~= s@);
    while a < b && (s[a] == '[' || s[a] == ']' || s[a] == ' ')
        invariant
            a <= b <= s@.len(),
            b == s@.len(),
            trim_brackets(s@.subrange(a as int, b as int)) == trim_brackets(s@),
        decreases b - a,
    {
        assert(s@.subrange(a as int, b as int).drop_first() =~= s@.subrange(a + 1, b as int));
        a += 1;
    }
    while a < b && (s[b - 1] == '[' || s[b - 1] == ']' || s[b - 1] == ' ')
        invariant
            a <= b <= s@.len(),
            trim_brackets(s@.subrange(a as int, b as int)) == trim_brackets(s@),
            a < b ==> !is_bracket(s@[a as int]),
        decreases b - a,
    {
        assert(s@.subrange(a as int, b as int).drop_last() =~= s@.subrange(a as int, b - 1));
        b -= 1;
    }
    copy_range(s, a, b)
}

/// The pieces of `s` between non-overlapping occurrences of `p`, matched
/// leftmost-first (`str::split` with a string pattern): scanning from `i`,
/// the current piece began at `start`.
pub open spec fn split_str_from(
    s: Seq<char>,
    p: Seq<char>,
    i: int,
    start: int,
    out: Seq<Seq<char>>,
) -> Seq<Seq<char>>
    decreases s.len() - i,
{
    if i >= s.len() || p.len() == 0 {
        out.push(s.subrange(start, s.len() as int))
    } else if occurs_at(s, p, i) {
        split_str_from(s, p, i + p.len(), i + p.len(), out.push(s.subrange(start, i)))
    } else {
        split_str_from(s, p, i + 1, start, out)
    }
}

pub open spec fn split_str(s: Seq<char>, p: Seq<char>) -> Seq<Seq<char>> {
    split_str_from(s, p, 0, 0, Seq::empty())
}

pub fn split_str_exec(s: &[char], l: &str) -> (r: Vec<Vec<char>>)
    requires
        l@.len() > 0,
    ensures
        r@.map_values(|v: Vec<char>| v@) == split_str(s@, l@),
{
    let lc = chars_of(l);
    let n = s.len();
    let mut out: Vec<Vec<char>> = Vec::new();
    let mut start: usize = 0;
    let mut i: usize = 0;
    assert(out@.map_values(|v: Vec<char>| v@) =~= Seq::<Seq<char>>::empty());
    while i < n
        invariant
            n == s@.len(),
            lc@ == l@,
            lc@.len() > 0,
            start <= i <= n,
            split_str_from(s@, l@, i as int, start as int, out@.map_values(|v: Vec<char>| v@))
                == split_str(s@, l@),
        decreases n - i,
    {
        if occurs_at_exec(s, &lc, i) {
            let ghost prev = out@.map_values(|v: Vec<char>| v@);
            out.push(copy_range(s, start, i));
            assert(out@.map_values(|v: Vec<char>| v@) =~= prev.push(
                s@.subrange(start as int, i as int),
            ));
            i = i + lc.len();
            start = i;
        } else {
            i += 1;
        }
    }
    let ghost prev = out@.map_values(|v: Vec<char>| v@);
    out.push(copy_range(s, start, n));
    assert(out@.map_values(|v: Vec<char>| v@) =~= prev.push(s@.subrange(start as int, n as int)));
    out
}

// ---------------------------------------------------------------- utf-8 --

/// Bytes of the UTF-8 encoding of `c`.
pub open spec fn utf8_width(c: char) -> nat {
    let u = c as u32;
    if u < 0x80 { 1 } else if u < 0x800 { 2 } else if u < 0x10000 { 3 } else { 4 }
}

/// Byte length of the UTF-8 encoding of `s` (what `str::len` returns).
pub open spec fn utf8_len(s: Seq<char>) -> nat
    decreases s.len(),
{
    if s.len() == 0 {
        0
    } else {
        utf8_len(s.drop_last()) + utf8_width(s.last())
    }
}

proof fn lemma_utf8_len_bound(s: Seq<char>)
    ensures
        utf8_len(s) <= 4 * s.len(),
    decreases s.len(),
{
    if s.len() > 0 {
        lemma_utf8_len_bound(s.drop_last());
    }
}

/// Byte length of the UTF-8 encoding of `s`, saturating at `usize::MAX`.
pub fn utf8_len_exec(s: &[char]) -> (r: usize)
    ensures
        utf8_len(s@) <= usize::MAX ==> r == utf8_len(s@),
        utf8_len(s@) > usize::MAX ==> r == usize::MAX,
{
    let mut n: usize = 0;
    let mut i: usize = 0;
    while i < s.len()
        invariant
            i <= s@.len(),
            utf8_len(s@.take(i as int)) <= usize::MAX ==> n == utf8_len(s@.take(i as int)),
            utf8_len(s@.take(i as int)) > usize::MAX ==> n == usize::MAX,
        decreases s@.len() - i,
    {
        assert(s@.take(i + 1).drop_last() =~= s@.take(i as int));
        let u = s[i] as u32;
        let w: usize = if u < 0x80 { 1 } else if u < 0x800 { 2 } else if u < 0x10000 { 3 } else { 4 };
        n = if n > usize::MAX - w { usize::MAX } else { n + w };
        i += 1;
    }
    assert(s@.take(s@.len() as int) =~= s@);
    n
}

pub proof fn lemma_trim_start_len(s: Seq<char>)
    ensures
        trim_start(s).len() <= s.len(),
    decreases s.len(),
{
    if s.len() > 0 && is_ws(s[0]) {
        lemma_trim_start_len(s.drop_first());
    }
}

// ------------------------------------------------------------- messages --

/// A `String` holding the literal `l`.
pub fn owned(l: &str) -> (r: String)
    ensures
        r@ == l@,
{
    l.to_owned()
}

/// Append the literal `l`.
pub fn push_lit(m: &mut String, l: &str)
    ensures
        final(m)@ == old(m)@ + l@,
{
    m.append(l);
}

/// Append the characters `cs`.
pub fn push_chars(m: &mut String, cs: &[char])
    ensures
        final(m)@ == old(m)@ + cs@,
{
    let t = string_of(cs);
    m.append(t.as_str());
}

/// Append the literal `l` to a character buffer.
pub fn put_lit(buf: &mut Vec<char>, l: &str)
    ensures
        final(buf)@ == old(buf)@ + l@,
{
    let mut c = chars_of(l);
    buf.append(&mut c);
}

/// Append the characters `cs` to a character buffer.
pub fn put(buf: &mut Vec<char>, cs: &[char])
    ensures
        final(buf)@ == old(buf)@ + cs@,
{
    let n = cs.len();
    let mut c = copy_range(cs, 0, n);
    assert(c@ =~= cs@);
    buf.append(&mut c);
}

/// Items joined by a separator.
pub open spec fn join_with(ws: Seq<Seq<char>>, sep: Seq<char>) -> Seq<char>
    decreases ws.len(),
{
    if ws.len() == 0 {
        Seq::empty()
    } else if ws.len() == 1 {
        ws[0]
    } else {
        join_with(ws.drop_last(), sep) + sep + ws.last()
    }
}

/// Append the items joined by `sep`.
pub fn put_join(buf: &mut Vec<char>, items: &Vec<Vec<char>>, sep: &str)
    ensures
        final(buf)@ == old(buf)@ + join_with(items@.map_values(|v: Vec<char>| v@), sep@),
{
    let ghost b0 = buf@;
    let ghost iv = items@.map_values(|v: Vec<char>| v@);
    let mut i: usize = 0;
    while i < items.len()
        invariant
            i <= items@.len(),
            iv == items@.map_values(|v: Vec<char>| v@),
            buf@ == b0 + join_with(iv.take(i as int), sep@),
        decreases items@.len() - i,
    {
        assert(iv.take(i + 1).drop_last() =~= iv.take(i as int));
        if i > 0 {
            put_lit(buf, sep);
        }
        put(buf, &items[i]);
        proof {
            if i == 0 {
                assert(iv.take(1) =~= seq![items@[0]@]);
            }
        }
        i += 1;
        assert(buf@ =~= b0 + join_with(iv.take(i as int), sep@));
    }
    assert(iv.take(i as int) =~= iv);
}

/// `a` followed by `cs` followed by `b`.
pub fn wrap(a: &str, cs: &[char], b: &str) -> (r: String)
    ensures
        r@ == a@ + cs@ + b@,
{
    let mut m = owned(a);
    push_chars(&mut m, cs);
    push_lit(&mut m, b);
    m
}

} // verus!
