use vstd::prelude::*;
use crate::text::{chars_of, push_str};
use crate::numfmt::{signed_str, push_signed};

verus! {

/// Why an integer did not parse, as `core::num::IntErrorKind` tells it.
#[derive(Debug, Clone, Copy, PartialEq, Eq, Structural)]
pub enum IntErrKind {
    Empty,
    InvalidDigit,
    PosOverflow,
    NegOverflow,
}

/// The text Rust prints for a `ParseIntError` of each kind.
pub open spec fn int_err_text(k: IntErrKind) -> Seq<char> {
    match k {
        IntErrKind::Empty => "cannot parse integer from empty string"@,
        IntErrKind::InvalidDigit => "invalid digit found in string"@,
        IntErrKind::PosOverflow => "number too large to fit in target type"@,
        IntErrKind::NegOverflow => "number too small to fit in target type"@,
    }
}

pub fn push_int_err(s: &mut String, k: IntErrKind)
    ensures
        final(s)@ == old(s)@ + int_err_text(k),
{
    match k {
        IntErrKind::Empty => push_str(s, "cannot parse integer from empty string"),
        IntErrKind::InvalidDigit => push_str(s, "invalid digit found in string"),
        IntErrKind::PosOverflow => push_str(s, "number too large to fit in target type"),
        IntErrKind::NegOverflow => push_str(s, "number too small to fit in target type"),
    }
}

/// The value of a digit character in `radix` (at most 36).
pub open spec fn digit_of(c: char, radix: nat) -> Option<nat> {
    let d: int = if '0' <= c && c <= '9' {
        c as int - '0' as int
    } else if 'a' <= c && c <= 'z' {
        c as int - 'a' as int + 10
    } else if 'A' <= c && c <= 'Z' {
        c as int - 'A' as int + 10
    } else {
        99
    };
    if d < radix { Some(d as nat) } else { None }
}

pub open spec fn in_i128(v: int) -> bool {
    i128::MIN <= v <= i128::MAX
}

/// The value of the first `n` digits, read left to right as `from_str_radix`
/// does: a bad digit, or a value leaving the range of `i128`, stops the reading.
pub open spec fn digits_acc(ds: Seq<char>, radix: nat, neg: bool, n: nat) -> Result<int, IntErrKind>
    decreases n,
{
    if n == 0 || n > ds.len() {
        Ok(0)
    } else {
        match digits_acc(ds, radix, neg, (n - 1) as nat) {
            Err(e) => Err(e),
            Ok(v) => match digit_of(ds[n - 1], radix) {
                None => Err(IntErrKind::InvalidDigit),
                Some(d) => {
                    let w = if neg { v * radix - d } else { v * radix + d };
                    if in_i128(w) {
                        Ok(w)
                    } else if neg {
                        Err(IntErrKind::NegOverflow)
                    } else {
                        Err(IntErrKind::PosOverflow)
                    }
                },
            },
        }
    }
}

/// `i128::from_str_radix`: an optional sign, then at least one digit.
pub open spec fn from_radix_spec(s: Seq<char>, radix: nat) -> Result<i128, IntErrKind> {
    if s.len() == 0 {
        Err(IntErrKind::Empty)
    } else {
        let neg = s[0] == '-';
        let ds = if s[0] == '+' || s[0] == '-' { s.drop_first() } else { s };
        if ds.len() == 0 {
            Err(IntErrKind::InvalidDigit)
        } else {
            match digits_acc(ds, radix, neg, ds.len()) {
                Ok(v) => Ok(v as i128),
                Err(e) => Err(e),
            }
        }
    }
}

/// Whether `char::is_whitespace` holds: the Unicode White_Space characters.
pub open spec fn is_ws(c: char) -> bool {
    ||| ('\u{9}' <= c && c <= '\u{d}')
    ||| c == ' '
    ||| c == '\u{85}'
    ||| c == '\u{a0}'
    ||| c == '\u{1680}'
    ||| ('\u{2000}' <= c && c <= '\u{200a}')
    ||| c == '\u{2028}'
    ||| c == '\u{2029}'
    ||| c == '\u{202f}'
    ||| c == '\u{205f}'
    ||| c == '\u{3000}'
}

pub fn is_ws_exec(c: char) -> (r: bool)
    ensures
        r == is_ws(c),
{
    ('\u{9}' <= c && c <= '\u{d}') || c == ' ' || c == '\u{85}' || c == '\u{a0}' || c == '\u{1680}'
        || ('\u{2000}' <= c && c <= '\u{200a}') || c == '\u{2028}' || c == '\u{2029}' || c == '\u{202f}'
        || c == '\u{205f}' || c == '\u{3000}'
}

/// Leading whitespace removed.
pub open spec fn trim_start(s: Seq<char>) -> Seq<char>
    decreases s.len(),
{
    if s.len() > 0 && is_ws(s[0]) { trim_start(s.drop_first()) } else { s }
}

/// Trailing whitespace removed.
pub open spec fn trim_end(s: Seq<char>) -> Seq<char>
    decreases s.len(),
{
    if s.len() > 0 && is_ws(s.last()) { trim_end(s.drop_last()) } else { s }
}

/// `str::trim`.
pub open spec fn trim(s: Seq<char>) -> Seq<char> {
    trim_end(trim_start(s))
}

/// `str::trim` on characters.
pub fn trim_chars(s: &[char]) -> (r: Vec<char>)
    ensures
        r@ == trim(s@),
{
    let mut a: usize = 0;
    assert(s@.subrange(0, s@.len() as int) =~= s@);
    while a < s.len() && is_ws_exec(s[a])
        invariant
            a <= s@.len(),
            trim_start(s@) == trim_start(s@.subrange(a as int, s@.len() as int)),
        decreases s@.len() - a,
    {
        assert(s@.subrange(a as int, s@.len() as int).drop_first() =~= s@.subrange(a + 1, s@.len() as int));
        a = a + 1;
    }
    assert(s@.subrange(0, s@.len() as int) =~= s@) by {
        assert(s@.subrange(0, s@.len() as int) =~= s@);
    }
    let ghost t = s@.subrange(a as int, s@.len() as int);
    assert(trim_start(s@) == t);
    let mut b: usize = s.len();
    assert(t.subrange(0, (b - a) as int) =~= t);
    while b > a && is_ws_exec(s[b - 1])
        invariant
            a <= b <= s@.len(),
            t == s@.subrange(a as int, s@.len() as int),
            trim_end(t) == trim_end(s@.subrange(a as int, b as int)),
        decreases b,
    {
        assert(s@.subrange(a as int, b as int).drop_last() =~= s@.subrange(a as int, b - 1));
        b = b - 1;
    }
    let mut out: Vec<char> = Vec::new();
    let mut i = a;
    while i < b
        invariant
            a <= i <= b,
            b <= s@.len(),
            out@ == s@.subrange(a as int, i as int),
        decreases b - i,
    {
        out.push(s[i]);
        assert(s@.subrange(a as int, i + 1) =~= s@.subrange(a as int, i as int).push(s@[i as int]));
        i = i + 1;
    }
    out
}

/// `i128::from_str_radix` on characters, for radix 10 or 16.
pub fn from_radix(s: &[char], radix: u32) -> (r: Result<i128, IntErrKind>)
    requires
        radix == 10 || radix == 16,
    ensures
        r == from_radix_spec(s@, radix as nat),
{
    if s.len() == 0 {
        return Err(IntErrKind::Empty);
    }
    let neg = s[0] == '-';
    let start: usize = if s[0] == '+' || s[0] == '-' { 1 } else { 0 };
    let ghost ds = if s@[0] == '+' || s@[0] == '-' { s@.drop_first() } else { s@ };
    assert(ds =~= s@.subrange(start as int, s@.len() as int));
    if start == s.len() {
        return Err(IntErrKind::InvalidDigit);
    }
    let limit: u128 = if neg { 170141183460469231731687303715884105728u128 } else { 170141183460469231731687303715884105727u128 };
    let mut m: u128 = 0;
    let mut i: usize = start;
    assert(ds.len() > 0);
    while i < s.len()
        invariant
            start <= i <= s@.len(),
            start == 0 || start == 1,
            s@.len() > 0,
            neg == (s@[0] == '-'),
            ds == (if s@[0] == '+' || s@[0] == '-' { s@.drop_first() } else { s@ }),
            ds.len() > 0,
            ds =~= s@.subrange(start as int, s@.len() as int),
            radix == 10 || radix == 16,
            limit == (if neg { 170141183460469231731687303715884105728u128 } else { 170141183460469231731687303715884105727u128 }),
            m <= limit,
            digits_acc(ds, radix as nat, neg, (i - start) as nat)
                == Ok::<int, IntErrKind>(if neg { -(m as int) } else { m as int }),
        decreases s@.len() - i,
    {
        let c = s[i];
        let d: u32 = if '0' <= c && c <= '9' {
            (c as u32) - ('0' as u32)
        } else if 'a' <= c && c <= 'z' {
            (c as u32) - ('a' as u32) + 10
        } else if 'A' <= c && c <= 'Z' {
            (c as u32) - ('A' as u32) + 10
        } else {
            99
        };
        assert(ds[(i - start) as int] == c);
        if d >= radix {
            assert(digits_acc(ds, radix as nat, neg, (i + 1 - start) as nat) == Err::<int, IntErrKind>(IntErrKind::InvalidDigit));
            proof { lemma_acc_err(ds, radix as nat, neg, (i + 1 - start) as nat, ds.len()); }
            return Err(IntErrKind::InvalidDigit);
        }
        let r = radix as u128;
        let dd = d as u128;
        let q: u128 = (limit - dd) / r;
        if m > q {
            assert(m * r + dd > limit) by (nonlinear_arith)
                requires m > q, q == (limit as int - dd as int) / (r as int), r > 0, dd <= limit;
            let e = if neg { IntErrKind::NegOverflow } else { IntErrKind::PosOverflow };
            assert(digits_acc(ds, radix as nat, neg, (i + 1 - start) as nat) == Err::<int, IntErrKind>(e));
            proof { lemma_acc_err(ds, radix as nat, neg, (i + 1 - start) as nat, ds.len()); }
            return Err(e);
        }
        assert(m * r + dd <= limit) by (nonlinear_arith)
            requires m <= q, q == (limit as int - dd as int) / (r as int), r > 0, dd <= limit;
        m = m * r + dd;
        assert(digits_acc(ds, radix as nat, neg, (i + 1 - start) as nat)
            == Ok::<int, IntErrKind>(if neg { -(m as int) } else { m as int }));
        i = i + 1;
    }
    assert(ds.len() == s@.len() - start);
    if neg {
        if m == 170141183460469231731687303715884105728u128 {
            Ok(i128::MIN)
        } else {
            Ok(-(m as i128))
        }
    } else {
        Ok(m as i128)
    }
}

proof fn lemma_acc_err(ds: Seq<char>, radix: nat, neg: bool, k: nat, n: nat)
    requires
        k <= n <= ds.len(),
        digits_acc(ds, radix, neg, k) is Err,
    ensures
        digits_acc(ds, radix, neg, n) == digits_acc(ds, radix, neg, k),
    decreases n - k,
{
    if k < n {
        lemma_acc_err(ds, radix, neg, k, (n - 1) as nat);
    }
}

/// Why a patch value did not read as an integer.
#[derive(Debug, Clone, Copy, PartialEq, Eq, Structural)]
pub enum IntValueError {
    Hex(IntErrKind),
    Dec(IntErrKind),
    OutOfRange { value: i128, min: i128, max: i128 },
}

/// A trimmed integer in hex (after "0x" or "0X") or decimal, within `[min, max]`.
pub open spec fn parse_int_spec(s: Seq<char>, min: i128, max: i128) -> Result<i128, IntValueError> {
    let t = trim(s);
    let parsed = if t.len() >= 2 && t[0] == '0' && (t[1] == 'x' || t[1] == 'X') {
        match from_radix_spec(t.subrange(2, t.len() as int), 16) {
            Ok(v) => Ok(v),
            Err(k) => Err(IntValueError::Hex(k)),
        }
    } else {
        match from_radix_spec(t, 10) {
            Ok(v) => Ok(v),
            Err(k) => Err(IntValueError::Dec(k)),
        }
    };
    match parsed {
        Err(e) => Err(e),
        Ok(v) => if v < min || v > max {
            Err(IntValueError::OutOfRange { value: v, min, max })
        } else {
            Ok(v)
        },
    }
}

pub open spec fn i128_text(v: i128) -> Seq<char> {
    signed_str(v as int)
}

/// The text of such an error.
pub open spec fn int_value_error_text(e: IntValueError) -> Seq<char> {
    match e {
        IntValueError::Hex(k) => "十六进制解析失败: "@ + int_err_text(k),
        IntValueError::Dec(k) => "十进制解析失败: "@ + int_err_text(k),
        IntValueError::OutOfRange { value, min, max } =>
            "值 "@ + i128_text(value) + " 超出范围 ["@ + i128_text(min) + ", "@ + i128_text(max) + "]"@,
    }
}

/// Reads an integer the way patch values are written.
pub fn parse_int(s: &str, min: i128, max: i128) -> (r: Result<i128, IntValueError>)
    ensures
        r == parse_int_spec(s@, min, max),
{
    let cs = chars_of(s);
    let t = trim_chars(cs.as_slice());
    let parsed = if t.len() >= 2 && t[0] == '0' && (t[1] == 'x' || t[1] == 'X') {
        let mut rest: Vec<char> = Vec::new();
        let mut i: usize = 2;
        while i < t.len()
            invariant
                2 <= i <= t@.len(),
                rest@ == t@.subrange(2, i as int),
            decreases t@.len() - i,
        {
            rest.push(t[i]);
            assert(t@.subrange(2, i + 1) =~= t@.subrange(2, i as int).push(t@[i as int]));
            i = i + 1;
        }
        match from_radix(rest.as_slice(), 16) {
            Ok(v) => Ok(v),
            Err(k) => Err(IntValueError::Hex(k)),
        }
    } else {
        match from_radix(t.as_slice(), 10) {
            Ok(v) => Ok(v),
            Err(k) => Err(IntValueError::Dec(k)),
        }
    };
    match parsed {
        Err(e) => Err(e),
        Ok(v) => if v < min || v > max {
            Err(IntValueError::OutOfRange { value: v, min, max })
        } else {
            Ok(v)
        },
    }
}

} // verus!
