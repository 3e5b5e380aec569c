//! The e-graph's leaf tokens and rule-pattern translation. A constant is
//! carried as its raw bits (`c<16 hex digits>`), which keeps the bitwise
//! discipline (−0.0 ≠ +0.0, NaN payloads distinct) inside the graph; the
//! terminals carry their index (`e<k>`, `L<k>`, `v<k>`).
use vstd::prelude::*;
use crate::fmt::{decimal, decimal_exec, lemma_decimal_nonempty};
use crate::lex::{
    all_digits, float_literal, hex16_digits, hex_number, hex_val, is_digit, is_float_literal,
    parse_hex16,
};
use crate::text::{
    chars_of, copy_range, owned, put, put_lit, string_of, utf8_len, utf8_len_exec, words,
    words_exec,
};

verus! {

/// `ParseIntError` for a digit outside the radix.
pub open spec fn invalid_digit() -> Seq<char> {
    "invalid digit found in string"@
}

/// `ParseIntError` for a value above the type's maximum.
pub open spec fn too_large() -> Seq<char> {
    "number too large to fit in target type"@
}

// ----------------------------------------------------------------- hex --

pub open spec fn hex_char(d: nat) -> char {
    if d < 10 {
        (d + 48) as char
    } else {
        (d - 10 + 97) as char
    }
}

/// The low `k` hex digits of `v`, lowercase, most significant first.
pub open spec fn hex_digits(v: nat, k: nat) -> Seq<char>
    decreases k,
{
    if k == 0 {
        Seq::empty()
    } else {
        hex_digits(v / 16, (k - 1) as nat).push(hex_char(v % 16))
    }
}

pub open spec fn pow16n(k: nat) -> nat
    decreases k,
{
    if k == 0 {
        1
    } else {
        16 * pow16n((k - 1) as nat)
    }
}

proof fn lemma_hex_digits(v: nat, k: nat)
    ensures
        hex_digits(v, k).len() == k,
        hex_number(hex_digits(v, k)) == v % pow16n(k),
        forall|i: int| 0 <= i < k ==> hex_val(#[trigger] hex_digits(v, k)[i]) >= 0,
    decreases k,
{
    if k > 0 {
        let s = hex_digits(v, k);
        lemma_hex_digits(v / 16, (k - 1) as nat);
        assert(s.drop_last() =~= hex_digits(v / 16, (k - 1) as nat));
        let d = v % 16;
        assert(hex_val(hex_char(d)) == d);
        let p = pow16n((k - 1) as nat);
        assert(p > 0) by {
            lemma_pow16n_pos((k - 1) as nat);
        }
        vstd::arithmetic::div_mod::lemma_mod_breakdown(v as int, 16, p as int);
        assert(pow16n(k) == 16 * p);
        assert(v % (16 * p) == 16 * ((v / 16) % p) + v % 16);
        assert forall|i: int| 0 <= i < k implies hex_val(#[trigger] s[i]) >= 0 by {
            if i < k - 1 {
                assert(s[i] == hex_digits(v / 16, (k - 1) as nat)[i]);
            }
        }
    }
}

proof fn lemma_pow16n_pos(k: nat)
    ensures
        pow16n(k) > 0,
    decreases k,
{
    if k > 0 {
        lemma_pow16n_pos((k - 1) as nat);
    }
}

proof fn lemma_pow16n_16()
    ensures
        pow16n(16) == 0x1_0000_0000_0000_0000nat,
{
    reveal_with_fuel(pow16n, 17);
}

fn hex_char_exec(d: u64) -> (c: char)
    requires
        d < 16,
    ensures
        c == hex_char(d as nat),
{
    if d < 10 {
        ((d as u8) + 48) as char
    } else {
        ((d as u8) - 10 + 97) as char
    }
}

fn put_hex_digits(buf: &mut Vec<char>, v: u64, k: usize)
    ensures
        final(buf)@ == old(buf)@ + hex_digits(v as nat, k as nat),
    decreases k,
{
    if k > 0 {
        put_hex_digits(buf, v / 16, k - 1);
        buf.push(hex_char_exec(v % 16));
        assert(buf@ =~= old(buf)@ + hex_digits(v as nat, k as nat));
    }
}

/// The value of a run of decimal digits.
pub open spec fn dec_number(s: Seq<char>) -> nat
    decreases s.len(),
{
    if s.len() == 0 {
        0
    } else {
        dec_number(s.drop_last()) * 10 + (s.last() as nat - 48) as nat
    }
}

proof fn lemma_dec_decimal(n: nat)
    ensures
        dec_number(decimal(n)) == n,
        all_digits(decimal(n)),
        decimal(n).len() > 0,
    decreases n,
{
    lemma_decimal_nonempty(n);
    let s = decimal(n);
    let c = ((n % 10) + 48) as char;
    assert(c as nat == (n % 10) + 48);
    assert(s.last() == c);
    if n >= 10 {
        lemma_dec_decimal(n / 10);
        assert(s.drop_last() =~= decimal(n / 10));
        assert(dec_number(s) == dec_number(decimal(n / 10)) * 10 + n % 10);
        assert forall|i: int| 0 <= i < s.len() implies is_digit(#[trigger] s[i]) by {
            if i < s.len() - 1 {
                assert(s[i] == decimal(n / 10)[i]);
            }
        }
    } else {
        assert(s.len() == 1);
        assert(s.drop_last() =~= Seq::<char>::empty());
        assert(dec_number(s.drop_last()) == 0);
        assert(dec_number(s) == n % 10);
        assert(is_digit(s[0]));
    }
}

proof fn lemma_dec_prefix(s: Seq<char>, k: int)
    requires
        0 <= k <= s.len(),
        all_digits(s),
    ensures
        dec_number(s.take(k)) <= dec_number(s),
    decreases s.len() - k,
{
    if k < s.len() {
        lemma_dec_prefix(s, k + 1);
        assert(s.take(k + 1).drop_last() =~= s.take(k));
        assert(is_digit(s[k]));
        assert(s.take(k + 1).last() == s[k]);
    } else {
        assert(s.take(k) =~= s);
    }
}

/// Parse a non-empty run of ASCII digits into a `u32` (`str::parse`).
fn parse_u32_digits(d: &[char]) -> (r: Result<u32, String>)
    requires
        d@.len() > 0,
        all_digits(d@),
    ensures
        dec_number(d@) <= u32::MAX ==> r == Ok::<u32, String>(dec_number(d@) as u32),
        dec_number(d@) > u32::MAX ==> (r matches Err(e) && e@ == too_large()),
{
    let mut v: u64 = 0;
    let mut i: usize = 0;
    while i < d.len()
        invariant
            i <= d@.len(),
            all_digits(d@),
            v == dec_number(d@.take(i as int)),
            v <= u32::MAX,
        decreases d@.len() - i,
    {
        assert(d@.take(i + 1).drop_last() =~= d@.take(i as int));
        assert(is_digit(d@[i as int]));
        let nv = v * 10 + ((d[i] as u32) - 48) as u64;
        if nv > 0xffff_ffff {
            proof {
                lemma_dec_prefix(d@, i + 1);
            }
            return Err(owned("number too large to fit in target type"));
        }
        v = nv;
        i += 1;
    }
    assert(d@.take(i as int) =~= d@);
    Ok(v as u32)
}

fn all_digits_exec(d: &[char]) -> (r: bool)
    ensures
        r == all_digits(d@),
{
    let mut i: usize = 0;
    while i < d.len()
        invariant
            i <= d@.len(),
            forall|j: int| 0 <= j < i ==> is_digit(#[trigger] d@[j]),
        decreases d@.len() - i,
    {
        if !('0' <= d[i] && d[i] <= '9') {
            return false;
        }
        i += 1;
    }
    true
}

// -------------------------------------------------------------- tokens --

/// `s` with the leading character `c` removed, if it starts with it.
pub open spec fn after(s: Seq<char>, c: char) -> Option<Seq<char>> {
    if s.len() > 0 && s[0] == c {
        Some(s.skip(1))
    } else {
        None
    }
}

/// How a terminal token `<p><digits>` parses into an index.
pub open spec fn index_token(s: Seq<char>, p: char, missing: Seq<char>, bad: Seq<char>) -> Result<
    u32,
    Seq<char>,
> {
    match after(s, p) {
        None => Err(missing),
        Some(d) => if d.len() == 0 || !all_digits(d) {
            Err(bad)
        } else if dec_number(d) > u32::MAX {
            Err(too_large())
        } else {
            Ok(dec_number(d) as u32)
        },
    }
}

fn parse_index(s: &str, p: char, missing: &str, bad: &str) -> (r: Result<u32, String>)
    ensures
        r matches Ok(v) ==> index_token(s@, p, missing@, bad@) == Ok::<u32, Seq<char>>(v),
        r matches Err(e) ==> index_token(s@, p, missing@, bad@) == Err::<u32, Seq<char>>(e@),
{
    let sc = chars_of(s);
    if sc.len() == 0 || sc[0] != p {
        return Err(owned(missing));
    }
    let n = sc.len();
    let d = copy_range(&sc, 1, n);
    assert(d@ =~= s@.skip(1));
    if d.len() == 0 || !all_digits_exec(&d) {
        return Err(owned(bad));
    }
    parse_u32_digits(&d)
}

/// Token form of the constant: `c` and 16 lowercase hex digits.
pub open spec fn const_token(bits: u64) -> Seq<char> {
    seq!['c'] + hex_digits(bits as nat, 16)
}

/// How a constant token parses: `c`, then exactly 16 bytes that
/// `u64::from_str_radix(_, 16)` accepts.
pub open spec fn const_token_value(s: Seq<char>) -> Result<u64, Seq<char>> {
    match after(s, 'c') {
        None => Err("no c prefix"@),
        Some(h) => if utf8_len(h) != 16 {
            Err("need 16 hex digits"@)
        } else {
            match hex16_digits(h) {
                Some(d) => Ok(hex_number(d) as u64),
                None => Err(invalid_digit()),
            }
        },
    }
}

/// f64 constant carried as raw bits. Token form: `c<16 hex digits>`.
#[derive(Debug, Clone, Copy, PartialEq, Eq, Hash, PartialOrd, Ord)]
pub struct ConstBits(pub u64);

impl ConstBits {
    /// The token (what `Display` prints).
    pub fn to_token(&self) -> (r: String)
        ensures
            r@ == const_token(self.0),
    {
        let mut buf: Vec<char> = Vec::new();
        buf.push('c');
        put_hex_digits(&mut buf, self.0, 16);
        assert(buf@ =~= const_token(self.0));
        string_of(&buf)
    }

    pub fn parse(s: &str) -> (r: Result<ConstBits, String>)
        ensures
            r matches Ok(c) ==> const_token_value(s@) == Ok::<u64, Seq<char>>(c.0),
            r matches Err(e) ==> const_token_value(s@) == Err::<u64, Seq<char>>(e@),
    {
        let sc = chars_of(s);
        if sc.len() == 0 || sc[0] != 'c' {
            return Err(owned("no c prefix"));
        }
        let n = sc.len();
        let h = copy_range(&sc, 1, n);
        assert(h@ =~= s@.skip(1));
        if utf8_len_exec(&h) != 16 {
            return Err(owned("need 16 hex digits"));
        }
        match parse_hex16(&h) {
            Some(v) => Ok(ConstBits(v)),
            None => Err(owned("invalid digit found in string")),
        }
    }

    /// Printing a constant and parsing the token gives the constant back.
    pub proof fn lemma_round_trip(bits: u64)
        ensures
            const_token_value(const_token(bits)) == Ok::<u64, Seq<char>>(bits),
    {
        let t = const_token(bits);
        let h = hex_digits(bits as nat, 16);
        lemma_hex_digits(bits as nat, 16);
        lemma_pow16n_16();
        assert(t.skip(1) =~= h);
        assert(h[0] != '+') by {
            assert(hex_val(h[0]) >= 0);
        }
        assert(hex16_digits(h) == Some(h));
        lemma_ascii_utf8(h);
    }
}

/// A run of ASCII characters takes one byte each.
proof fn lemma_ascii_utf8(s: Seq<char>)
    requires
        forall|i: int| 0 <= i < s.len() ==> hex_val(#[trigger] s[i]) >= 0,
    ensures
        utf8_len(s) == s.len(),
    decreases s.len(),
{
    if s.len() > 0 {
        assert forall|i: int| 0 <= i < s.drop_last().len() implies hex_val(
            #[trigger] s.drop_last()[i],
        ) >= 0 by {
            assert(s.drop_last()[i] == s[i]);
        }
        lemma_ascii_utf8(s.drop_last());
        assert(hex_val(s[s.len() - 1]) >= 0);
    }
}

/// Printing an index terminal and parsing the token gives the index back.
pub proof fn lemma_index_round_trip(p: char, k: u32, missing: Seq<char>, bad: Seq<char>)
    ensures
        index_token(seq![p] + decimal(k as nat), p, missing, bad) == Ok::<u32, Seq<char>>(k),
{
    let t = seq![p] + decimal(k as nat);
    lemma_dec_decimal(k as nat);
    assert(t.skip(1) =~= decimal(k as nat));
}

fn index_to_token(p: char, k: u32) -> (r: String)
    ensures
        r@ == seq![p] + decimal(k as nat),
{
    let mut buf: Vec<char> = Vec::new();
    buf.push(p);
    put(&mut buf, &decimal_exec(k as usize));
    string_of(&buf)
}

/// Fold element terminal. Token form: `e<idx>`.
#[derive(Debug, Clone, Copy, PartialEq, Eq, Hash, PartialOrd, Ord)]
pub struct ElemIdx(pub u32);

impl ElemIdx {
    pub fn to_token(&self) -> (r: String)
        ensures
            r@ == seq!['e'] + decimal(self.0 as nat),
    {
        index_to_token('e', self.0)
    }

    pub fn parse(s: &str) -> (r: Result<ElemIdx, String>)
        ensures
            r matches Ok(e) ==> index_token(s@, 'e', "no e prefix"@, "not an elem index"@) == Ok::<
                u32,
                Seq<char>,
            >(e.0),
            r matches Err(m) ==> index_token(s@, 'e', "no e prefix"@, "not an elem index"@) == Err::<
                u32,
                Seq<char>,
            >(m@),
    {
        match parse_index(s, 'e', "no e prefix", "not an elem index") {
            Ok(k) => Ok(ElemIdx(k)),
            Err(m) => Err(m),
        }
    }
}

/// Sequence-length terminal. Token form: `L<idx>`.
#[derive(Debug, Clone, Copy, PartialEq, Eq, Hash, PartialOrd, Ord)]
pub struct LenIdx(pub u32);

impl LenIdx {
    pub fn to_token(&self) -> (r: String)
        ensures
            r@ == seq!['L'] + decimal(self.0 as nat),
    {
        index_to_token('L', self.0)
    }

    pub fn parse(s: &str) -> (r: Result<LenIdx, String>)
        ensures
            r matches Ok(e) ==> index_token(s@, 'L', "no L prefix"@, "not a len index"@) == Ok::<
                u32,
                Seq<char>,
            >(e.0),
            r matches Err(m) ==> index_token(s@, 'L', "no L prefix"@, "not a len index"@) == Err::<
                u32,
                Seq<char>,
            >(m@),
    {
        match parse_index(s, 'L', "no L prefix", "not a len index") {
            Ok(k) => Ok(LenIdx(k)),
            Err(m) => Err(m),
        }
    }
}

/// Variable terminal. Token form: `v<idx>`.
#[derive(Debug, Clone, Copy, PartialEq, Eq, Hash, PartialOrd, Ord)]
pub struct VarIdx(pub u32);

impl VarIdx {
    pub fn to_token(&self) -> (r: String)
        ensures
            r@ == seq!['v'] + decimal(self.0 as nat),
    {
        index_to_token('v', self.0)
    }

    pub fn parse(s: &str) -> (r: Result<VarIdx, String>)
        ensures
            r matches Ok(e) ==> index_token(s@, 'v', "no v prefix"@, "not a var index"@) == Ok::<
                u32,
                Seq<char>,
            >(e.0),
            r matches Err(m) ==> index_token(s@, 'v', "no v prefix"@, "not a var index"@) == Err::<
                u32,
                Seq<char>,
            >(m@),
    {
        match parse_index(s, 'v', "no v prefix", "not a var index") {
            Ok(k) => Ok(VarIdx(k)),
            Err(m) => Err(m),
        }
    }
}

impl std::str::FromStr for ConstBits {
    type Err = String;

    fn from_str(s: &str) -> (r: Result<ConstBits, String>)
        ensures
            r matches Ok(c) ==> const_token_value(s@) == Ok::<u64, Seq<char>>(c.0),
            r matches Err(e) ==> const_token_value(s@) == Err::<u64, Seq<char>>(e@),
    {
        ConstBits::parse(s)
    }
}

impl std::str::FromStr for ElemIdx {
    type Err = String;

    fn from_str(s: &str) -> (r: Result<ElemIdx, String>)
        ensures
            r matches Ok(e) ==> index_token(s@, 'e', "no e prefix"@, "not an elem index"@) == Ok::<u32, Seq<char>>(e.0),
            r matches Err(m) ==> index_token(s@, 'e', "no e prefix"@, "not an elem index"@) == Err::<u32, Seq<char>>(m@),
    {
        ElemIdx::parse(s)
    }
}

impl std::str::FromStr for LenIdx {
    type Err = String;

    fn from_str(s: &str) -> (r: Result<LenIdx, String>)
        ensures
            r matches Ok(e) ==> index_token(s@, 'L', "no L prefix"@, "not a len index"@) == Ok::<u32, Seq<char>>(e.0),
            r matches Err(m) ==> index_token(s@, 'L', "no L prefix"@, "not a len index"@) == Err::<u32, Seq<char>>(m@),
    {
        LenIdx::parse(s)
    }
}

impl std::str::FromStr for VarIdx {
    type Err = String;

    fn from_str(s: &str) -> (r: Result<VarIdx, String>)
        ensures
            r matches Ok(e) ==> index_token(s@, 'v', "no v prefix"@, "not a var index"@) == Ok::<u32, Seq<char>>(e.0),
            r matches Err(m) ==> index_token(s@, 'v', "no v prefix"@, "not a var index"@) == Err::<u32, Seq<char>>(m@),
    {
        VarIdx::parse(s)
    }
}

// ------------------------------------------------------- rule patterns --

/// Length of the run of `c` at the front of `t`.
pub open spec fn lead_count(t: Seq<char>, c: char) -> nat
    decreases t.len(),
{
    if t.len() > 0 && t[0] == c {
        1 + lead_count(t.skip(1), c)
    } else {
        0
    }
}

/// Length of the run of `c` at the end of `t`.
pub open spec fn trail_count(t: Seq<char>, c: char) -> nat
    decreases t.len(),
{
    if t.len() > 0 && t.last() == c {
        1 + trail_count(t.drop_last(), c)
    } else {
        0
    }
}

/// A word with its opening and closing parentheses peeled off.
pub open spec fn core_of(t: Seq<char>) -> Seq<char> {
    t.subrange(lead_count(t, '(') as int, t.len() - trail_count(t, ')'))
}

/// A core that is a float literal (not a pattern variable) becomes a
/// bitwise constant token.
pub open spec fn is_lit_core(c: Seq<char>) -> bool {
    c.len() > 0 && c[0] != '?' && is_float_literal(c)
}

/// The float-literal cores of `ws`, in order.
pub open spec fn literals(ws: Seq<Seq<char>>) -> Seq<Seq<char>>
    decreases ws.len(),
{
    if ws.len() == 0 {
        Seq::empty()
    } else if is_lit_core(core_of(ws.last())) {
        literals(ws.drop_last()).push(core_of(ws.last()))
    } else {
        literals(ws.drop_last())
    }
}

pub open spec fn parens(c: char, n: nat) -> Seq<char> {
    Seq::new(n, |i: int| c)
}

/// One translated word; `bits` is the binary64 value of its core when the
/// core is a literal.
pub open spec fn translate_word(t: Seq<char>, bits: u64) -> Seq<char> {
    let k = core_of(t);
    parens('(', lead_count(t, '(')) + (if is_lit_core(k) {
        const_token(bits)
    } else {
        k
    }) + parens(')', trail_count(t, ')'))
}

/// The translated words; the `j`-th literal core takes `bits[j]`.
pub open spec fn translate_words(ws: Seq<Seq<char>>, bits: Seq<u64>) -> Seq<Seq<char>>
    decreases ws.len(),
{
    if ws.len() == 0 {
        Seq::empty()
    } else {
        let j = literals(ws.drop_last()).len() as int;
        translate_words(ws.drop_last(), bits).push(translate_word(ws.last(), bits[j]))
    }
}

/// Words joined by single spaces.
pub open spec fn join_words(ws: Seq<Seq<char>>) -> Seq<char>
    decreases ws.len(),
{
    if ws.len() == 0 {
        Seq::empty()
    } else if ws.len() == 1 {
        ws[0]
    } else {
        join_words(ws.drop_last()) + seq![' '] + ws.last()
    }
}

proof fn lemma_lead_count(t: Seq<char>, c: char, i: int)
    requires
        0 <= i <= t.len(),
        forall|j: int| 0 <= j < i ==> t[j] == c,
        i == t.len() || t[i] != c,
    ensures
        lead_count(t, c) == i,
    decreases i,
{
    if i > 0 {
        let u = t.skip(1);
        assert forall|j: int| 0 <= j < i - 1 implies u[j] == c by {
            assert(u[j] == t[j + 1]);
        }
        if i - 1 < u.len() {
            assert(u[i - 1] == t[i]);
        }
        lemma_lead_count(u, c, i - 1);
    }
}

proof fn lemma_trail_count(t: Seq<char>, c: char, i: int)
    requires
        0 <= i <= t.len(),
        forall|j: int| t.len() - i <= j < t.len() ==> t[j] == c,
        i == t.len() || t[t.len() - 1 - i] != c,
    ensures
        trail_count(t, c) == i,
    decreases i,
{
    if i > 0 {
        let u = t.drop_last();
        assert forall|j: int| u.len() - (i - 1) <= j < u.len() implies u[j] == c by {
            assert(u[j] == t[j]);
        }
        if i - 1 < u.len() {
            assert(u[u.len() - 1 - (i - 1)] == t[t.len() - 1 - i]);
        }
        lemma_trail_count(u, c, i - 1);
    }
}

/// Peel one word: (opening count, core, closing count).
fn peel(t: &[char]) -> (r: (usize, Vec<char>, usize))
    ensures
        r.0 == lead_count(t@, '('),
        r.2 == trail_count(t@, ')'),
        r.1@ == core_of(t@),
{
    let n = t.len();
    let mut open: usize = 0;
    while open < n && t[open] == '('
        invariant
            open <= n,
            n == t@.len(),
            forall|j: int| 0 <= j < open ==> t@[j] == '(',
        decreases n - open,
    {
        open += 1;
    }
    proof {
        lemma_lead_count(t@, '(', open as int);
    }
    let mut close: usize = 0;
    while close < n - open && t[n - 1 - close] == ')'
        invariant
            open <= n,
            close <= n - open,
            n == t@.len(),
            forall|j: int| n - close <= j < n ==> t@[j] == ')',
        decreases n - open - close,
    {
        close += 1;
    }
    proof {
        lemma_trail_count(t@, ')', close as int);
    }
    let k = copy_range(t, open, n - close);
    (open, k, close)
}

fn is_lit_core_exec(k: &[char]) -> (r: bool)
    ensures
        r == is_lit_core(k@),
{
    k.len() > 0 && k[0] != '?' && float_literal(k)
}

/// The float literals a rule pattern holds, in order: the caller supplies
/// their binary64 values to `translate_pattern`.
pub fn pattern_literals(src: &str) -> (r: Vec<String>)
    ensures
        r@.map_values(|s: String| s@) == literals(words(src@)),
{
    let ws = words_exec(&chars_of(src));
    let ghost wv = ws@.map_values(|v: Vec<char>| v@);
    let mut out: Vec<String> = Vec::new();
    let mut i: usize = 0;
    while i < ws.len()
        invariant
            i <= ws@.len(),
            wv == ws@.map_values(|v: Vec<char>| v@),
            out@.map_values(|s: String| s@) == literals(wv.take(i as int)),
        decreases ws@.len() - i,
    {
        assert(wv.take(i + 1).drop_last() =~= wv.take(i as int));
        assert(wv.take(i + 1).last() == ws@[i as int]@);
        let (_, k, _) = peel(&ws[i]);
        if is_lit_core_exec(&k) {
            let ghost prev = out@.map_values(|s: String| s@);
            out.push(string_of(&k));
            assert(out@.map_values(|s: String| s@) =~= prev.push(k@));
        }
        i += 1;
    }
    assert(wv.take(i as int) =~= wv);
    out
}

fn put_parens(buf: &mut Vec<char>, c: char, n: usize)
    ensures
        final(buf)@ == old(buf)@ + parens(c, n as nat),
{
    let ghost b0 = buf@;
    let mut i: usize = 0;
    while i < n
        invariant
            i <= n,
            buf@ == b0 + parens(c, i as nat),
        decreases n - i,
    {
        buf.push(c);
        i += 1;
        assert(buf@ =~= b0 + parens(c, i as nat));
    }
}

/// Translate a rule-table pattern (human syntax with float literals, e.g.
/// "(* ?a 1.0)") into e-graph pattern syntax ("(* ?a c3ff0000000000000)").
/// `bits[j]` is the binary64 value of the `j`-th literal that
/// `pattern_literals` lists.
pub fn translate_pattern(src: &str, bits: &[u64]) -> (r: String)
    requires
        bits@.len() == literals(words(src@)).len(),
    ensures
        r@ == join_words(translate_words(words(src@), bits@)),
{
    let ws = words_exec(&chars_of(src));
    let ghost wv = ws@.map_values(|v: Vec<char>| v@);
    let mut buf: Vec<char> = Vec::new();
    let mut j: usize = 0;
    let mut i: usize = 0;
    while i < ws.len()
        invariant
            i <= ws@.len(),
            wv == ws@.map_values(|v: Vec<char>| v@),
            wv == words(src@),
            bits@.len() == literals(wv).len(),
            j == literals(wv.take(i as int)).len(),
            buf@ == join_words(translate_words(wv.take(i as int), bits@)),
        decreases ws@.len() - i,
    {
        let ghost pre = wv.take(i as int);
        let ghost nxt = wv.take(i + 1);
        assert(nxt.drop_last() =~= pre);
        assert(nxt.last() == ws@[i as int]@);
        proof {
            lemma_literals_prefix(wv, i + 1);
        }
        let (open, k, close) = peel(&ws[i]);
        if i > 0 {
            buf.push(' ');
        }
        put_parens(&mut buf, '(', open);
        let lit = is_lit_core_exec(&k);
        if lit {
            let tok = ConstBits(bits[j]).to_token();
            put(&mut buf, &chars_of(tok.as_str()));
            j += 1;
        } else {
            put(&mut buf, &k);
        }
        put_parens(&mut buf, ')', close);
        proof {
            let w = translate_word(wv[i as int], bits@[literals(pre).len() as int]);
            assert(translate_words(nxt, bits@) == translate_words(pre, bits@).push(w));
            assert(translate_words(nxt, bits@).drop_last() =~= translate_words(pre, bits@));
            lemma_translate_len(pre, bits@);
        }
        i += 1;
    }
    assert(wv.take(i as int) =~= wv);
    string_of(&buf)
}

proof fn lemma_translate_len(ws: Seq<Seq<char>>, bits: Seq<u64>)
    ensures
        translate_words(ws, bits).len() == ws.len(),
    decreases ws.len(),
{
    if ws.len() > 0 {
        lemma_translate_len(ws.drop_last(), bits);
    }
}

proof fn lemma_literals_prefix(ws: Seq<Seq<char>>, k: int)
    requires
        0 <= k <= ws.len(),
    ensures
        literals(ws.take(k)).len() <= literals(ws).len(),
    decreases ws.len() - k,
{
    if k < ws.len() {
        lemma_literals_prefix(ws, k + 1);
        assert(ws.take(k + 1).drop_last() =~= ws.take(k));
    } else {
        assert(ws.take(k) =~= ws);
    }
}

} // verus!
