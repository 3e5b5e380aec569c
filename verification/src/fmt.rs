//! Decimal and hexadecimal rendering of unsigned integers.
use vstd::prelude::*;
use crate::text::put;

verus! {

pub open spec fn digit_char(d: nat) -> char {
    ((d % 10) + 48) as char
}

/// The shortest decimal numeral of `n` (as `{}` prints it).
pub open spec fn decimal(n: nat) -> Seq<char>
    decreases n,
{
    if n < 10 {
        seq![digit_char(n)]
    } else {
        decimal(n / 10).push(digit_char(n % 10))
    }
}

pub proof fn lemma_decimal_nonempty(n: nat)
    ensures
        decimal(n).len() >= 1,
    decreases n,
{
    if n >= 10 {
        lemma_decimal_nonempty(n / 10);
    }
}

pub fn decimal_exec(n: usize) -> (r: Vec<char>)
    ensures
        r@ == decimal(n as nat),
    decreases n,
{
    if n < 10 {
        let mut v: Vec<char> = Vec::new();
        v.push(((n as u8) + 48) as char);
        proof {
            assert(v@ =~= seq![digit_char(n as nat)]);
        }
        v
    } else {
        let mut v = decimal_exec(n / 10);
        v.push((((n % 10) as u8) + 48) as char);
        v
    }
}

/// The value of a numeral of decimal digits.
pub open spec fn digits_value(s: Seq<char>) -> nat
    decreases s.len(),
{
    if s.len() == 0 {
        0
    } else {
        10 * digits_value(s.drop_last()) + ((s.last() as u32) - 48) as nat
    }
}

/// A longer numeral is worth no less than its prefix.
pub proof fn lemma_digits_value_mono(s: Seq<char>, m: int)
    requires
        0 <= m <= s.len(),
        forall|i: int| 0 <= i < s.len() ==> '0' <= #[trigger] s[i] <= '9',
    ensures
        digits_value(s.take(m)) <= digits_value(s),
    decreases s.len() - m,
{
    if m < s.len() {
        lemma_digits_value_mono(s, m + 1);
        assert(s.take(m + 1).drop_last() =~= s.take(m));
    } else {
        assert(s.take(m) =~= s);
    }
}

/// The value of the digits `s[a..b]` when it is below `limit`.
pub fn digits_below(s: &[char], a: usize, b: usize, limit: usize) -> (r: Option<usize>)
    requires
        a <= b <= s@.len(),
        forall|i: int| a <= i < b ==> '0' <= #[trigger] s@[i] <= '9',
    ensures
        r is Some <==> digits_value(s@.subrange(a as int, b as int)) < limit,
        r matches Some(k) ==> k == digits_value(s@.subrange(a as int, b as int)),
{
    let ghost d = s@.subrange(a as int, b as int);
    if limit == 0 {
        return None;
    }
    let mut acc: u128 = 0;
    let mut i: usize = a;
    assert(d.take(0) =~= Seq::<char>::empty());
    while i < b
        invariant
            a <= i <= b <= s@.len(),
            d == s@.subrange(a as int, b as int),
            forall|j: int| a <= j < b ==> '0' <= #[trigger] s@[j] <= '9',
            acc == digits_value(d.take(i - a)),
            acc < limit,
        decreases b - i,
    {
        assert(d.take(i - a + 1).drop_last() =~= d.take(i - a));
        let dig = (s[i] as u32 - 48) as u128;
        let next = acc * 10 + dig;
        if next >= limit as u128 {
            proof {
                lemma_digits_value_mono(d, i - a + 1);
            }
            return None;
        }
        acc = next;
        i += 1;
    }
    assert(d.take(i - a) =~= d);
    Some(acc as usize)
}

/// `n` spaces.
pub open spec fn spaces(n: nat) -> Seq<char> {
    Seq::new(n, |i: int| ' ')
}

/// `s` left-aligned in a field of width `w` (as `{:w}` prints a string).
pub open spec fn pad_right(s: Seq<char>, w: nat) -> Seq<char> {
    if s.len() >= w {
        s
    } else {
        s + spaces((w - s.len()) as nat)
    }
}

/// `s` right-aligned in a field of width `w` (as `{:w}` prints a number).
pub open spec fn pad_left(s: Seq<char>, w: nat) -> Seq<char> {
    if s.len() >= w {
        s
    } else {
        spaces((w - s.len()) as nat) + s
    }
}

fn put_spaces(buf: &mut Vec<char>, k: usize)
    ensures
        final(buf)@ == old(buf)@ + spaces(k as nat),
{
    let ghost b0 = buf@;
    let mut i: usize = 0;
    while i < k
        invariant
            i <= k,
            buf@ == b0 + spaces(i as nat),
        decreases k - i,
    {
        buf.push(' ');
        i += 1;
        assert(buf@ =~= b0 + spaces(i as nat));
    }
}

/// Append `s` padded on the right to width `w`.
pub fn put_pad_right(buf: &mut Vec<char>, s: &[char], w: usize)
    ensures
        final(buf)@ == old(buf)@ + pad_right(s@, w as nat),
{
    put(buf, s);
    if s.len() < w {
        put_spaces(buf, w - s.len());
    }
    assert(buf@ =~= old(buf)@ + pad_right(s@, w as nat));
}

/// Append `s` padded on the left to width `w`.
pub fn put_pad_left(buf: &mut Vec<char>, s: &[char], w: usize)
    ensures
        final(buf)@ == old(buf)@ + pad_left(s@, w as nat),
{
    if s.len() < w {
        put_spaces(buf, w - s.len());
    }
    put(buf, s);
    assert(buf@ =~= old(buf)@ + pad_left(s@, w as nat));
}


/// A lower-case hexadecimal digit.
pub open spec fn hex_char(d: nat) -> char {
    if d % 16 < 10 {
        ((d % 16) + 48) as char
    } else {
        ((d % 16) + 87) as char
    }
}

/// The last `w` hexadecimal digits of `n`, zero-padded (`{:0w$x}` for `n`
/// below `16^w`).
pub open spec fn hex_fixed(n: nat, w: nat) -> Seq<char>
    decreases w,
{
    if w == 0 {
        Seq::empty()
    } else {
        hex_fixed(n / 16, (w - 1) as nat).push(hex_char(n % 16))
    }
}

fn hex_digit(d: u64) -> (c: char)
    requires
        d < 16,
    ensures
        c == hex_char(d as nat),
{
    if d < 10 {
        ((d as u8) + 48) as char
    } else {
        ((d as u8) + 87) as char
    }
}

pub fn hex_fixed_exec(n: u64, w: usize) -> (r: Vec<char>)
    ensures
        r@ == hex_fixed(n as nat, w as nat),
    decreases w,
{
    if w == 0 {
        Vec::new()
    } else {
        let mut v = hex_fixed_exec(n / 16, w - 1);
        v.push(hex_digit(n % 16));
        v
    }
}

/// Whether the binary64 value with these bits is a NaN or an infinity: its
/// exponent field is all ones.
pub open spec fn nonfinite_bits(bits: u64) -> bool {
    (bits / 0x10_0000_0000_0000) % 0x800 == 0x7ff
}

/// How a NaN (payload included) or an infinity is written as Rust source:
/// by its exact bits. `None` for a finite value.
pub fn nonfinite_literal(bits: u64) -> (r: Option<String>)
    ensures
        nonfinite_bits(bits) ==> (r matches Some(s) && s@ == "f64::from_bits(0x"@ + hex_fixed(
            bits as nat,
            16,
        ) + ")"@),
        !nonfinite_bits(bits) ==> r is None,
{
    if (bits / 0x10_0000_0000_0000) % 0x800 != 0x7ff {
        return None;
    }
    let mut v = crate::text::chars_of("f64::from_bits(0x");
    let h = hex_fixed_exec(bits, 16);
    let ghost v0 = v@;
    let mut i: usize = 0;
    while i < h.len()
        invariant
            i <= h@.len(),
            v@ == v0 + h@.take(i as int),
        decreases h@.len() - i,
    {
        v.push(h[i]);
        assert(h@.take(i + 1) =~= h@.take(i as int).push(h@[i as int]));
        i += 1;
    }
    assert(h@.take(i as int) =~= h@);
    let close = crate::text::chars_of(")");
    let ghost v1 = v@;
    let mut j: usize = 0;
    while j < close.len()
        invariant
            j <= close@.len(),
            v@ == v1 + close@.take(j as int),
        decreases close@.len() - j,
    {
        v.push(close[j]);
        assert(close@.take(j + 1) =~= close@.take(j as int).push(close@[j as int]));
        j += 1;
    }
    assert(close@.take(j as int) =~= close@);
    Some(crate::text::string_of(&v))
}

} // verus!
