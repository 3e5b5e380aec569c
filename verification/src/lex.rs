//! Lexical pieces of the LLVM IR subset: comments, top-level comma lists,
//! `define` symbols, and the two spellings of a double literal.
use vstd::prelude::*;
use crate::text::{copy_range, find_char, rfind_char, first_char_at, last_char_at, has_char};

verus! {

// ------------------------------------------------------------- comments --

/// The text before the first `;` (LLVM comments run to the end of line).
pub open spec fn spec_strip_comment(l: Seq<char>) -> Seq<char> {
    if has_char(l, ';') {
        l.take(choose|i: int| first_char_at(l, ';', i))
    } else {
        l
    }
}

pub proof fn lemma_first_char_unique(s: Seq<char>, c: char, i: int, j: int)
    requires
        first_char_at(s, c, i),
        first_char_at(s, c, j),
    ensures
        i == j,
{
}

pub proof fn lemma_last_char_unique(s: Seq<char>, c: char, i: int, j: int)
    requires
        last_char_at(s, c, i),
        last_char_at(s, c, j),
    ensures
        i == j,
{
}

pub fn strip_comment(l: &[char]) -> (r: Vec<char>)
    ensures
        r@ == spec_strip_comment(l@),
{
    match find_char(l, ';') {
        Some(i) => {
            proof {
                let k = choose|k: int| first_char_at(l@, ';', k);
                lemma_first_char_unique(l@, ';', i as int, k);
            }
            copy_range(l, 0, i)
        },
        None => copy_range(l, 0, l.len()),
    }
}

// ------------------------------------------------------------ split_top --

/// One step of the top-level comma splitter: `depth` counts open
/// parentheses (a stray `)` never takes it below zero), `start` is where the
/// current piece began.
pub open spec fn split_top_from(
    s: Seq<char>,
    i: int,
    depth: nat,
    start: int,
    out: Seq<Seq<char>>,
) -> Seq<Seq<char>>
    decreases s.len() - i,
{
    if i >= s.len() {
        if start < s.len() || out.len() == 0 {
            out.push(s.subrange(start, s.len() as int))
        } else {
            out
        }
    } else {
        let ch = s[i];
        if ch == '(' {
            split_top_from(s, i + 1, depth + 1, start, out)
        } else if ch == ')' {
            split_top_from(s, i + 1, if depth > 0 { (depth - 1) as nat } else { 0 }, start, out)
        } else if ch == ',' && depth == 0 {
            split_top_from(s, i + 1, depth, i + 1, out.push(s.subrange(start, i)))
        } else {
            split_top_from(s, i + 1, depth, start, out)
        }
    }
}

/// Pieces of `s` between the commas that sit outside every parenthesis.
pub open spec fn spec_split_top(s: Seq<char>) -> Seq<Seq<char>> {
    split_top_from(s, 0, 0, 0, Seq::empty())
}

pub open spec fn vecs_view(v: Seq<Vec<char>>) -> Seq<Seq<char>> {
    v.map_values(|x: Vec<char>| x@)
}

pub fn split_top(s: &[char]) -> (r: Vec<Vec<char>>)
    ensures
        vecs_view(r@) == spec_split_top(s@),
        r@.len() >= 1,
{
    let mut out: Vec<Vec<char>> = Vec::new();
    let mut depth: usize = 0;
    let mut start: usize = 0;
    let mut i: usize = 0;
    let n = s.len();
    assert(vecs_view(out@) =~= Seq::<Seq<char>>::empty());
    while i < n
        invariant
            n == s@.len(),
            i <= n,
            start <= i,
            depth <= i,
            split_top_from(s@, i as int, depth as nat, start as int, vecs_view(out@))
                == spec_split_top(s@),
        decreases n - i,
    {
        let ch = s[i];
        if ch == '(' {
            depth += 1;
        } else if ch == ')' {
            depth = if depth > 0 { depth - 1 } else { 0 };
        } else if ch == ',' && depth == 0 {
            let ghost prev = vecs_view(out@);
            let piece = copy_range(s, start, i);
            out.push(piece);
            assert(vecs_view(out@) =~= prev.push(s@.subrange(start as int, i as int)));
            start = i + 1;
        }
        i += 1;
    }
    if start < n || out.len() == 0 {
        let ghost prev = vecs_view(out@);
        let piece = copy_range(s, start, n);
        out.push(piece);
        assert(vecs_view(out@) =~= prev.push(s@.subrange(start as int, n as int)));
    } else {
        proof {
            assert(out@.len() > 0);
        }
    }
    out
}

// --------------------------------------------------------------- symbols --

/// `s` with every leading and trailing `"` removed (`trim_matches('"')`).
pub open spec fn trim_quotes(s: Seq<char>) -> Seq<char>
    decreases s.len(),
{
    if s.len() > 0 && s[0] == '"' {
        trim_quotes(s.drop_first())
    } else if s.len() > 0 && s.last() == '"' {
        trim_quotes(s.drop_last())
    } else {
        s
    }
}

pub fn trim_quotes_exec(s: &[char]) -> (r: Vec<char>)
    ensures
        r@ == trim_quotes(s@),
{
    let mut a: usize = 0;
    let mut b: usize = s.len();
    assert(s@.subrange(0, b as int) =~= s@);
    while a < b && s[a] == '"'
        invariant
            a <= b <= s@.len(),
            b == s@.len(),
            trim_quotes(s@.subrange(a as int, b as int)) == trim_quotes(s@),
        decreases b - a,
    {
        assert(s@.subrange(a as int, b as int).drop_first() =~= s@.subrange(a + 1, b as int));
        a += 1;
    }
    while a < b && s[b - 1] == '"'
        invariant
            a <= b <= s@.len(),
            trim_quotes(s@.subrange(a as int, b as int)) == trim_quotes(s@),
            a < b ==> s@[a as int] != '"',
        decreases b - a,
    {
        assert(s@.subrange(a as int, b as int).drop_last() =~= s@.subrange(a as int, b - 1));
        b -= 1;
    }
    copy_range(s, a, b)
}

/// The symbol of a `define` line: the text between the first `@` and the
/// next `(`, quotes trimmed.
pub open spec fn spec_symbol_of(l: Seq<char>) -> Option<Seq<char>> {
    if !has_char(l, '@') {
        None
    } else {
        let at = choose|i: int| first_char_at(l, '@', i);
        let rest = l.skip(at + 1);
        if !has_char(rest, '(') {
            None
        } else {
            let end = choose|i: int| first_char_at(rest, '(', i);
            Some(trim_quotes(rest.take(end)))
        }
    }
}

pub fn symbol_of(l: &[char]) -> (r: Option<Vec<char>>)
    ensures
        r is Some <==> spec_symbol_of(l@) is Some,
        r matches Some(v) ==> spec_symbol_of(l@) == Some(v@),
{
    let n = l.len();
    let at = match find_char(l, '@') {
        Some(at) => at,
        None => return None,
    };
    proof {
        let k = choose|i: int| first_char_at(l@, '@', i);
        lemma_first_char_unique(l@, '@', at as int, k);
    }
    let rest = copy_range(l, at + 1, n);
    assert(rest@ =~= l@.skip(at + 1));
    let end = match find_char(&rest, '(') {
        Some(e) => e,
        None => return None,
    };
    proof {
        let k = choose|i: int| first_char_at(rest@, '(', i);
        lemma_first_char_unique(rest@, '(', end as int, k);
    }
    let head = copy_range(&rest, 0, end);
    assert(head@ =~= rest@.take(end as int));
    Some(trim_quotes_exec(&head))
}

// --------------------------------------------------------------- doubles --

pub open spec fn is_digit(c: char) -> bool {
    '0' <= c <= '9'
}

pub open spec fn all_digits(s: Seq<char>) -> bool {
    forall|i: int| 0 <= i < s.len() ==> is_digit(#[trigger] s[i])
}

pub open spec fn hex_val(c: char) -> int {
    if '0' <= c <= '9' {
        c as int - '0' as int
    } else if 'a' <= c <= 'f' {
        c as int - 'a' as int + 10
    } else if 'A' <= c <= 'F' {
        c as int - 'A' as int + 10
    } else {
        -1
    }
}

pub open spec fn is_hex(c: char) -> bool {
    hex_val(c) >= 0
}

/// Value of a run of hex digits, most significant first.
pub open spec fn hex_number(s: Seq<char>) -> nat
    decreases s.len(),
{
    if s.len() == 0 {
        0
    } else {
        (hex_number(s.drop_last()) * 16 + hex_val(s.last())) as nat
    }
}

/// What `u64::from_str_radix(s, 16)` accepts for a 16-character `s`: an
/// optional `+` and then hex digits only.
pub open spec fn hex16_digits(s: Seq<char>) -> Option<Seq<char>> {
    if s.len() == 16 && hex_field(s).len() > 0 && all_hex(hex_field(s)) {
        Some(hex_field(s))
    } else {
        None
    }
}

pub open spec fn hex_field(s: Seq<char>) -> Seq<char> {
    if s.len() > 0 && s[0] == '+' { s.skip(1) } else { s }
}

pub open spec fn all_hex(d: Seq<char>) -> bool {
    forall|i: int| 0 <= i < d.len() ==> is_hex(#[trigger] d[i])
}

proof fn lemma_hex_number_bound(s: Seq<char>)
    requires
        forall|i: int| 0 <= i < s.len() ==> is_hex(#[trigger] s[i]),
    ensures
        hex_number(s) < pow16(s.len()),
    decreases s.len(),
{
    if s.len() > 0 {
        assert forall|i: int| 0 <= i < s.drop_last().len() implies is_hex(
            #[trigger] s.drop_last()[i],
        ) by {
            assert(s.drop_last()[i] == s[i]);
        }
        lemma_hex_number_bound(s.drop_last());
        assert(is_hex(s[s.len() - 1]));
        assert(hex_val(s.last()) < 16);
        assert(hex_number(s.drop_last()) + 1 <= pow16((s.len() - 1) as nat));
        assert((hex_number(s.drop_last()) + 1) * 16 <= pow16((s.len() - 1) as nat) * 16)
            by (nonlinear_arith)
            requires
                hex_number(s.drop_last()) + 1 <= pow16((s.len() - 1) as nat),
        ;
    }
}

pub open spec fn pow16(n: nat) -> nat
    decreases n,
{
    if n == 0 {
        1
    } else {
        16 * pow16((n - 1) as nat)
    }
}

fn hex_digit(c: char) -> (r: u64)
    requires
        is_hex(c),
    ensures
        r == hex_val(c),
{
    if '0' <= c && c <= '9' {
        (c as u64) - ('0' as u64)
    } else if 'a' <= c && c <= 'f' {
        (c as u64) - ('a' as u64) + 10
    } else {
        (c as u64) - ('A' as u64) + 10
    }
}

fn is_hex_exec(c: char) -> (r: bool)
    ensures
        r == is_hex(c),
{
    ('0' <= c && c <= '9') || ('a' <= c && c <= 'f') || ('A' <= c && c <= 'F')
}

/// The bits spelled by a 16-character hex field, if it is one.
pub fn parse_hex16(s: &[char]) -> (r: Option<u64>)
    ensures
        r is Some <==> hex16_digits(s@) is Some,
        r matches Some(v) ==> v == hex_number(hex16_digits(s@)->0),
{
    if s.len() != 16 {
        return None;
    }
    let start: usize = if s[0] == '+' { 1 } else { 0 };
    let ghost d = s@.skip(start as int);
    assert(s@.skip(0) =~= s@);
    assert(d == hex_field(s@));
    assert(d.take(0) =~= Seq::<char>::empty());
    let mut v: u64 = 0;
    let mut i = start;
    while i < 16
        invariant
            s@.len() == 16,
            start <= i <= 16,
            start <= 1,
            d == s@.skip(start as int),
            d == hex_field(s@),
            forall|j: int| 0 <= j < i - start ==> is_hex(#[trigger] d[j]),
            v == hex_number(d.take(i - start)),
        decreases 16 - i,
    {
        if !is_hex_exec(s[i]) {
            assert(!is_hex(d[i - start]));
            assert(hex16_digits(s@) is None) by {
                let k = i - start;
                assert(d[k] == s@[i as int]);
                assert(0 <= k < d.len() && !is_hex(d[k]));
                assert(!all_hex(d));
            }
            return None;
        }
        proof {
            assert(d.take(i - start + 1).drop_last() =~= d.take(i - start));
            assert forall|j: int| 0 <= j < d.take(i - start + 1).len() implies is_hex(
                #[trigger] d.take(i - start + 1)[j],
            ) by {
                assert(d.take(i - start + 1)[j] == d[j]);
            }
            lemma_hex_number_bound(d.take(i - start + 1));
            lemma_pow16_16();
            lemma_pow16_mono((i - start + 1) as nat, 16);
        }
        v = v * 16 + hex_digit(s[i]);
        i += 1;
    }
    assert(d.take(16 - start) =~= d);
    assert(all_hex(d));
    Some(v)
}

proof fn lemma_pow16_16()
    ensures
        pow16(16) == 0x1_0000_0000_0000_0000nat,
{
    reveal_with_fuel(pow16, 17);
}

proof fn lemma_pow16_mono(a: nat, b: nat)
    requires
        a <= b,
    ensures
        pow16(a) <= pow16(b),
    decreases b,
{
    if a < b {
        lemma_pow16_mono(a, (b - 1) as nat);
    }
}

pub open spec fn lower(c: char) -> char {
    if 'A' <= c <= 'Z' {
        ((c as u8) + 32) as char
    } else {
        c
    }
}

/// `s` equals the lowercase ASCII word `w` ignoring ASCII case.
pub open spec fn eq_nocase(s: Seq<char>, w: Seq<char>) -> bool {
    s.len() == w.len() && forall|i: int| 0 <= i < s.len() ==> lower(#[trigger] s[i]) == w[i]
}

/// Mantissa of a decimal literal: digits with at most one `.`, at least
/// one digit in all.
pub open spec fn is_mantissa(m: Seq<char>) -> bool {
    ||| (m.len() > 0 && all_digits(m))
    ||| exists|d: int|
        0 <= d < m.len() && m[d] == '.' && all_digits(m.take(d)) && all_digits(m.skip(d + 1))
            && m.len() >= 2
}

/// Exponent part: `e`/`E`, an optional sign, at least one digit.
pub open spec fn is_exponent(x: Seq<char>) -> bool {
    x.len() >= 2 && (x[0] == 'e' || x[0] == 'E') && {
        let y = x.skip(1);
        let z = if y[0] == '+' || y[0] == '-' { y.skip(1) } else { y };
        z.len() > 0 && all_digits(z)
    }
}

pub open spec fn is_e(c: char) -> bool {
    c == 'e' || c == 'E'
}

/// Split point between mantissa and exponent: the first `e`/`E`, or the end.
pub open spec fn exp_split(t: Seq<char>, i: int) -> bool {
    0 <= i <= t.len() && (i < t.len() ==> is_e(t[i])) && forall|j: int|
        0 <= j < i ==> !is_e(#[trigger] t[j])
}

pub open spec fn is_number(t: Seq<char>) -> bool {
    exists|i: int|
        exp_split(t, i) && is_mantissa(t.take(i)) && (i == t.len() || is_exponent(t.skip(i)))
}

/// The strings Rust's `f64::from_str` accepts (its documented grammar):
/// an optional sign, then `inf`, `infinity`, `nan` (any ASCII case) or a
/// decimal number with an optional exponent.
pub open spec fn is_float_literal(s: Seq<char>) -> bool {
    let t = if s.len() > 0 && (s[0] == '+' || s[0] == '-') { s.skip(1) } else { s };
    ||| eq_nocase(t, seq!['i', 'n', 'f'])
    ||| eq_nocase(t, seq!['i', 'n', 'f', 'i', 'n', 'i', 't', 'y'])
    ||| eq_nocase(t, seq!['n', 'a', 'n'])
    ||| is_number(t)
}

fn lower_exec(c: char) -> (r: char)
    ensures
        r == lower(c),
{
    if 'A' <= c && c <= 'Z' {
        ((c as u8) + 32) as char
    } else {
        c
    }
}

fn eq_nocase_exec(s: &[char], w: &[char]) -> (r: bool)
    ensures
        r == eq_nocase(s@, w@),
{
    if s.len() != w.len() {
        return false;
    }
    let mut i: usize = 0;
    while i < s.len()
        invariant
            i <= s@.len(),
            s@.len() == w@.len(),
            forall|j: int| 0 <= j < i ==> lower(#[trigger] s@[j]) == w@[j],
        decreases s@.len() - i,
    {
        if lower_exec(s[i]) != w[i] {
            return false;
        }
        i += 1;
    }
    true
}

fn all_digits_exec(s: &[char], a: usize, b: usize) -> (r: bool)
    requires
        a <= b <= s@.len(),
    ensures
        r == all_digits(s@.subrange(a as int, b as int)),
{
    let mut i = a;
    while i < b
        invariant
            a <= i <= b <= s@.len(),
            forall|j: int| a <= j < i ==> is_digit(#[trigger] s@[j]),
        decreases b - i,
    {
        if !('0' <= s[i] && s[i] <= '9') {
            assert(!is_digit(s@.subrange(a as int, b as int)[i - a]));
            return false;
        }
        i += 1;
    }
    assert forall|j: int| 0 <= j < b - a implies is_digit(
        #[trigger] s@.subrange(a as int, b as int)[j],
    ) by {
        assert(s@.subrange(a as int, b as int)[j] == s@[a + j]);
    }
    true
}

fn is_mantissa_exec(m: &[char]) -> (r: bool)
    ensures
        r == is_mantissa(m@),
{
    let n = m.len();
    let dot = find_char(m, '.');
    match dot {
        None => {
            assert(m@.subrange(0, n as int) =~= m@);
            let ad = all_digits_exec(m, 0, n);
            assert(ad == all_digits(m@));
            let r = n > 0 && ad;
            proof {
                if exists|d: int| 0 <= d < m@.len() && m@[d] == '.' {
                    let d = choose|d: int| 0 <= d < m@.len() && m@[d] == '.';
                    assert(has_char(m@, '.'));
                }
            }
            r
        },
        Some(d) => {
            let a = all_digits_exec(m, 0, d);
            let b = all_digits_exec(m, d + 1, n);
            assert(m@.subrange(0, d as int) =~= m@.take(d as int));
            assert(m@.subrange(d + 1, n as int) =~= m@.skip(d + 1));
            let r = a && b && n >= 2;
            proof {
                assert(!all_digits(m@)) by {
                    assert(!is_digit(m@[d as int]));
                }
                if r {
                    assert(0 <= d < m@.len() && m@[d as int] == '.' && all_digits(
                        m@.take(d as int),
                    ) && all_digits(m@.skip(d + 1)) && m@.len() >= 2);
                }
                if exists|e: int|
                    0 <= e < m@.len() && m@[e] == '.' && all_digits(m@.take(e)) && all_digits(
                        m@.skip(e + 1),
                    ) && m@.len() >= 2 {
                    let e = choose|e: int|
                        0 <= e < m@.len() && m@[e] == '.' && all_digits(m@.take(e)) && all_digits(
                            m@.skip(e + 1),
                        ) && m@.len() >= 2;
                    if e < d {
                        assert(m@.skip(e + 1)[d - e - 1] == '.');
                        assert(!is_digit(m@.skip(e + 1)[d - e - 1]));
                    } else if e > d {
                        assert(m@.take(e)[d as int] == '.');
                        assert(!is_digit(m@.take(e)[d as int]));
                    }
                    assert(e == d);
                }
            }
            r
        },
    }
}

fn is_exponent_exec(x: &[char]) -> (r: bool)
    ensures
        r == is_exponent(x@),
{
    let n = x.len();
    if n < 2 || !(x[0] == 'e' || x[0] == 'E') {
        return false;
    }
    let s: usize = if x[1] == '+' || x[1] == '-' { 2 } else { 1 };
    let r = s < n && all_digits_exec(x, s, n);
    proof {
        let y = x@.skip(1);
        let z = if y[0] == '+' || y[0] == '-' { y.skip(1) } else { y };
        assert(z =~= x@.subrange(s as int, n as int));
    }
    r
}

/// Whether `s` is a literal Rust's `f64::from_str` accepts.
pub fn float_literal(s: &[char]) -> (r: bool)
    ensures
        r == is_float_literal(s@),
{
    let n = s.len();
    let k: usize = if n > 0 && (s[0] == '+' || s[0] == '-') { 1 } else { 0 };
    let t = copy_range(s, k, n);
    assert(t@ =~= (if s@.len() > 0 && (s@[0] == '+' || s@[0] == '-') { s@.skip(1) } else { s@ }));
    let inf = ['i', 'n', 'f'];
    let infinity = ['i', 'n', 'f', 'i', 'n', 'i', 't', 'y'];
    let nan = ['n', 'a', 'n'];
    assert(inf@ =~= seq!['i', 'n', 'f']);
    assert(infinity@ =~= seq!['i', 'n', 'f', 'i', 'n', 'i', 't', 'y']);
    assert(nan@ =~= seq!['n', 'a', 'n']);
    if eq_nocase_exec(&t, &inf) || eq_nocase_exec(&t, &infinity) || eq_nocase_exec(&t, &nan) {
        return true;
    }
    // split at the first e/E
    let tn = t.len();
    let mut i: usize = 0;
    while i < tn && !(t[i] == 'e' || t[i] == 'E')
        invariant
            tn == t@.len(),
            i <= tn,
            forall|j: int| 0 <= j < i ==> !is_e(#[trigger] t@[j]),
        decreases tn - i,
    {
        i += 1;
    }
    assert(exp_split(t@, i as int));
    let m = copy_range(&t, 0, i);
    assert(m@ =~= t@.take(i as int));
    let mant = is_mantissa_exec(&m);
    let r = if i == tn {
        mant
    } else {
        let x = copy_range(&t, i, tn);
        assert(x@ =~= t@.skip(i as int));
        mant && is_exponent_exec(&x)
    };
    proof {
        if is_number(t@) {
            let j = choose|j: int|
                exp_split(t@, j) && is_mantissa(t@.take(j)) && (j == t@.len() || is_exponent(
                    t@.skip(j),
                ));
            if j < i {
                assert(is_e(t@[j]));
            }
            if j > i {
                assert(is_e(t@[i as int]));
            }
        }
    }
    r
}

} // verus!
