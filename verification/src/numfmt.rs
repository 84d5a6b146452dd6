use vstd::prelude::*;
use crate::text::{push_char, push_str};

verus! {

/// The digit character for `d` (below 16), in upper or lower case.
pub open spec fn digit_char(d: nat, upper: bool) -> char {
    if d < 10 {
        ((48 + d) as u8) as char
    } else if upper {
        ((65 + d - 10) as u8) as char
    } else {
        ((97 + d - 10) as u8) as char
    }
}

/// The digits of `n` in base `base`, most significant first, without leading zeros
/// ("0" for zero).
pub open spec fn radix_str(n: nat, base: nat, upper: bool) -> Seq<char>
    recommends
        2 <= base <= 16,
    decreases n,
{
    if base < 2 || n < base {
        seq![digit_char(n % 16, upper)]
    } else {
        proof { lemma_div_smaller(n, base); }
        radix_str(n / base, base, upper).push(digit_char(n % base, upper))
    }
}

pub proof fn lemma_div_smaller(n: nat, base: nat)
    requires
        2 <= base <= n,
    ensures
        n / base < n,
{
    assert(n / base < n) by (nonlinear_arith)
        requires 2 <= base <= n;
}

/// Decimal digits of `n`.
pub open spec fn dec_str(n: nat) -> Seq<char> {
    radix_str(n, 10, true)
}

/// Decimal text of a signed value: a minus sign, then the digits of its magnitude.
pub open spec fn signed_str(v: int) -> Seq<char> {
    if v < 0 { seq!['-'] + dec_str((-v) as nat) } else { dec_str(v as nat) }
}

/// `s` padded on the left with `c` to at least `width` characters.
pub open spec fn pad_left(s: Seq<char>, width: nat, c: char) -> Seq<char> {
    if s.len() >= width { s } else { Seq::new((width - s.len()) as nat, |i: int| c) + s }
}

/// Upper-case hex of `n`, zero-padded to `width` digits.
pub open spec fn hex_pad(n: nat, width: nat) -> Seq<char> {
    pad_left(radix_str(n, 16, true), width, '0')
}

/// Binary digits of `n`, zero-padded to `width` digits.
pub open spec fn bin_pad(n: nat, width: nat) -> Seq<char> {
    pad_left(radix_str(n, 2, true), width, '0')
}

fn digit(d: u64, upper: bool) -> (c: char)
    requires
        d < 16,
    ensures
        c == digit_char(d as nat, upper),
{
    if d < 10 {
        ((48u64 + d) as u8) as char
    } else if upper {
        ((65u64 + d - 10) as u8) as char
    } else {
        ((97u64 + d - 10) as u8) as char
    }
}

/// Appends the digits of `n` in base `base`.
pub fn push_radix(s: &mut String, n: u64, base: u64, upper: bool)
    requires
        2 <= base <= 16,
    ensures
        final(s)@ == old(s)@ + radix_str(n as nat, base as nat, upper),
    decreases n,
{
    if n < base {
        push_char(s, digit(n % 16, upper));
        assert(old(s)@.push(digit_char((n % 16) as nat, upper)) =~= old(s)@ + radix_str(n as nat, base as nat, upper));
    } else {
        proof { lemma_div_smaller(n as nat, base as nat); }
        push_radix(s, n / base, base, upper);
        push_char(s, digit(n % base, upper));
        assert(final(s)@ =~= old(s)@ + radix_str(n as nat, base as nat, upper));
    }
}

/// Appends `n` in base `base`, padded with zeros to `width` digits.
pub fn push_radix_padded(s: &mut String, n: u64, base: u64, upper: bool, width: usize)
    requires
        2 <= base <= 16,
    ensures
        final(s)@ == old(s)@ + pad_left(radix_str(n as nat, base as nat, upper), width as nat, '0'),
{
    let mut digits = String::new();
    push_radix(&mut digits, n, base, upper);
    let ghost ds = radix_str(n as nat, base as nat, upper);
    assert(digits@ =~= ds);
    let len = digits.as_str().unicode_len();
    let mut k: usize = len;
    let ghost o = s@;
    while k < width
        invariant
            len == ds.len(),
            len <= k <= width || (k == len && len >= width),
            s@ == o + Seq::new((k - len) as nat, |i: int| '0'),
        decreases width - k,
    {
        push_char(s, '0');
        assert(s@ =~= o + Seq::new((k + 1 - len) as nat, |i: int| '0'));
        k = k + 1;
    }
    push_str(s, digits.as_str());
    if len >= width {
        assert(s@ =~= o + pad_left(ds, width as nat, '0'));
    } else {
        assert(s@ =~= o + pad_left(ds, width as nat, '0'));
    }
}

/// Appends the decimal digits of `n`.
pub fn push_dec(s: &mut String, n: u64)
    ensures
        final(s)@ == old(s)@ + dec_str(n as nat),
{
    push_radix(s, n, 10, true);
}

/// Appends the decimal text of a signed value.
pub fn push_signed(s: &mut String, v: i64)
    ensures
        final(s)@ == old(s)@ + signed_str(v as int),
{
    if v < 0 {
        push_char(s, '-');
        let m: u64 = if v == i64::MIN { 9223372036854775808u64 } else { (-v) as u64 };
        push_dec(s, m);
        assert(final(s)@ =~= old(s)@ + signed_str(v as int));
    } else {
        push_dec(s, v as u64);
    }
}

/// Appends `n` as eight or more upper-case hex digits.
pub fn push_hex8(s: &mut String, n: u64)
    ensures
        final(s)@ == old(s)@ + hex_pad(n as nat, 8),
{
    push_radix_padded(s, n, 16, true, 8);
}

} // verus!
