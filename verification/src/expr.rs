use vstd::prelude::*;
use crate::text::{chars_of, string_from_chars, parse_usize, parse_usize_spec, str_eq};
use crate::numfmt::{signed_str, push_signed};

verus! {

// ---------------------------------------------------------------------
// Values known while parsing, and the expression evaluator.
// ---------------------------------------------------------------------

/// A value that expressions may refer to: an integer, or a float held by the
/// bits of its 64-bit IEEE encoding.
#[derive(Debug, Clone, Copy, PartialEq, Eq, Structural)]
pub enum CtxValue {
    Int(i64),
    Float(u64),
}

/// What evaluating an expression gives, as far as the parser tells results apart.
#[derive(Debug)]
pub enum EvalOutcome {
    Int(i64),
    /// A float, by the bits of its 64-bit encoding.
    Float(u64),
    Bool(bool),
    /// A string, tuple or empty value.
    Other,
    /// The evaluator's error, as text.
    Failed(String),
}

/// What `evalexpr::eval` gives for an expression.
pub uninterp spec fn evalexpr_result(expr: Seq<char>) -> EvalOutcome;

/// How `evalexpr` prints the float with these bits.
pub uninterp spec fn evalexpr_float_text(bits: u64) -> Seq<char>;

/// A character that `evalexpr` may read as part of a name: ASCII letters and
/// digits, `_`, `:` and `.`. Every character that ends a name in its tokenizer
/// (an operator, a bracket, a comma, a semicolon, a quote or white space) is
/// outside this set.
pub open spec fn name_char(c: char) -> bool {
    ('a' <= c && c <= 'z') || ('A' <= c && c <= 'Z') || ('0' <= c && c <= '9') || c == '_' || c == ':' || c == '.'
}

/// `w` stands in `s` as a whole name: no name character just before or after it.
pub open spec fn names_word(s: Seq<char>, w: Seq<char>) -> bool {
    exists|i: int| 0 <= i && i + w.len() <= s.len() && #[trigger] s.subrange(i, i + w.len()) == w
        && (i == 0 || !name_char(s[i - 1])) && (i + w.len() == s.len() || !name_char(s[i + w.len()]))
}

/// The text names a builtin function of `evalexpr` that panics on some
/// arguments: `shl` and `shr` shift an `i64` without a check, `math::abs`
/// negates `i64::MIN`, and `str::substring` slices a string at byte offsets
/// that need not fall on a character boundary. A call can only be written with
/// the function's name standing as a whole name, so text where none of them
/// does calls none of them.
pub open spec fn names_risky_builtin(e: Seq<char>) -> bool {
    names_word(e, "shl"@) || names_word(e, "shr"@) || names_word(e, "math::abs"@)
        || names_word(e, "str::substring"@)
}

fn name_char_exec(c: char) -> (r: bool)
    ensures
        r == name_char(c),
{
    ('a' <= c && c <= 'z') || ('A' <= c && c <= 'Z') || ('0' <= c && c <= '9') || c == '_' || c == ':' || c == '.'
}

/// Whether `w` stands in `s` as a whole name.
fn word_in(s: &Vec<char>, w: &Vec<char>) -> (r: bool)
    ensures
        r == names_word(s@, w@),
{
    if w.len() > s.len() {
        return false;
    }
    let n = s.len();
    let last = n - w.len();
    let mut i: usize = 0;
    loop
        invariant
            w@.len() <= s@.len(),
            n == s@.len(),
            last == s@.len() - w@.len(),
            i <= last,
            forall|k: int| 0 <= k < i ==> !(#[trigger] s@.subrange(k, k + w@.len()) == w@
                && (k == 0 || !name_char(s@[k - 1])) && (k + w@.len() == s@.len() || !name_char(s@[k + w@.len()]))),
        decreases last - i,
    {
        if starts_at(s, i, w) {
            let before_ok = i == 0 || !name_char_exec(s[i - 1]);
            let after_ok = if i < last {
                let j = i + w.len();
                !name_char_exec(s[j])
            } else {
                true
            };
            if before_ok && after_ok {
                return true;
            }
        }
        if i == last {
            assert forall|k: int| 0 <= k && k + w@.len() <= s@.len() implies !(#[trigger] s@.subrange(k, k + w@.len()) == w@
                && (k == 0 || !name_char(s@[k - 1])) && (k + w@.len() == s@.len() || !name_char(s@[k + w@.len()]))) by {
                if k >= i {
                    assert(k == i);
                }
            }
            return false;
        }
        i = i + 1;
    }
}

/// Whether the text names one of the builtins of `names_risky_builtin`.
pub fn risky_builtin(e: &str) -> (r: bool)
    ensures
        r == names_risky_builtin(e@),
{
    let ec = chars_of(e);
    let a = word_in(&ec, &chars_of("shl"));
    let b = word_in(&ec, &chars_of("shr"));
    let c = word_in(&ec, &chars_of("math::abs"));
    let d = word_in(&ec, &chars_of("str::substring"));
    a || b || c || d
}

/// The message for an expression refused because it names such a builtin.
pub open spec fn refused_text(e: Seq<char>) -> Seq<char> {
    "Expression uses a function that is not supported (shl, shr, math::abs, str::substring): "@ + e
}

pub fn refused_message(e: &str) -> (r: String)
    ensures
        r@ == refused_text(e@),
{
    let mut m = crate::text::owned("Expression uses a function that is not supported (shl, shr, math::abs, str::substring): ");
    crate::text::push_str(&mut m, e);
    m
}

/// Evaluates an expression with `evalexpr::eval` in an empty context. The
/// contract claims only that the outcome is the named result of the text; text
/// that names a builtin that can panic is left out.
#[verifier::external_body]
pub fn eval_text(expr: &str) -> (r: EvalOutcome)
    requires
        !names_risky_builtin(expr@),
    ensures
        r == evalexpr_result(expr@),
{
    match evalexpr::eval(expr) {
        Ok(evalexpr::Value::Int(i)) => EvalOutcome::Int(i),
        Ok(evalexpr::Value::Float(f)) => EvalOutcome::Float(f.to_bits()),
        Ok(evalexpr::Value::Boolean(b)) => EvalOutcome::Bool(b),
        Ok(_) => EvalOutcome::Other,
        Err(e) => EvalOutcome::Failed(e.to_string()),
    }
}

/// The text `evalexpr` prints for `Value::Float` of the float with these bits.
#[verifier::external_body]
pub fn float_text(bits: u64) -> (r: String)
    ensures
        r@ == evalexpr_float_text(bits),
{
    evalexpr::Value::Float(evalexpr::FloatType::from_bits(bits)).to_string()
}

// ---------------------------------------------------------------------
// Float bits.
// ---------------------------------------------------------------------

pub open spec fn two_pow(n: nat) -> nat
    decreases n,
{
    if n == 0 { 1 } else { 2 * two_pow((n - 1) as nat) }
}

/// The position of the highest set bit of a positive value.
pub open spec fn top_bit(m: nat) -> nat
    decreases m,
{
    if m < 2 { 0 } else { 1 + top_bit(m / 2) }
}

/// The 64-bit encoding of the value a 32-bit IEEE encoding holds; the
/// conversion is exact, subnormal values become normal ones.
pub open spec fn widen_bits(b: u32) -> u64 {
    let s: nat = b as nat / two_pow(31);
    let e: nat = (b as nat / two_pow(23)) % 256;
    let m: nat = b as nat % two_pow(23);
    let sign: nat = s * two_pow(63);
    if e == 255 {
        (sign + 2047 * two_pow(52) + m * two_pow(29)) as u64
    } else if e == 0 {
        if m == 0 {
            sign as u64
        } else {
            let h = top_bit(m);
            (sign + (h + 874) * two_pow(52) + (m - two_pow(h)) * two_pow((52 - h) as nat)) as u64
        }
    } else {
        (sign + (e + 896) * two_pow(52) + m * two_pow(29)) as u64
    }
}

/// Conversion of the float with these bits to `usize` as Rust's `as` does it:
/// toward zero, saturating, and zero for NaN.
pub open spec fn sat_usize(b: u64) -> usize {
    let s: nat = b as nat / two_pow(63);
    let e: nat = (b as nat / two_pow(52)) % 2048;
    let m: nat = b as nat % two_pow(52);
    if e == 2047 {
        if m != 0 || s == 1 { 0 } else { usize::MAX }
    } else if s == 1 || e < 1023 {
        0
    } else {
        let k: nat = (e - 1023) as nat;
        let mant: nat = m + two_pow(52);
        let v: nat = if k >= 52 { mant * two_pow((k - 52) as nat) } else { mant / two_pow((52 - k) as nat) };
        if v > usize::MAX { usize::MAX } else { v as usize }
    }
}

pub proof fn lemma_two_pow_values()
    ensures
        two_pow(8) == 256,
        two_pow(23) == 8388608,
        two_pow(29) == 536870912,
        two_pow(31) == 2147483648,
        two_pow(52) == 4503599627370496,
        two_pow(63) == 9223372036854775808,
        two_pow(64) == 18446744073709551616,
{
    reveal_with_fuel(two_pow, 9);
    assert(two_pow(4) == 16);
    assert(two_pow(6) == 64);
    assert(two_pow(7) == 128);
    assert(two_pow(8) == 256);
    lemma_two_pow_add(8, 8);
    assert(two_pow(16) == 65536);
    lemma_two_pow_add(16, 7);
    assert(two_pow(23) == 8388608);
    lemma_two_pow_add(23, 6);
    lemma_two_pow_add(23, 8);
    assert(two_pow(31) == 2147483648);
    lemma_two_pow_add(16, 16);
    assert(two_pow(32) == 4294967296);
    lemma_two_pow_add(32, 16);
    assert(two_pow(48) == 281474976710656);
    lemma_two_pow_add(48, 4);
    assert(two_pow(52) == 4503599627370496);
    lemma_two_pow_add(32, 31);
    assert(two_pow(63) == 9223372036854775808);
    lemma_two_pow_add(32, 32);
}

proof fn lemma_two_pow_pos(n: nat)
    ensures
        two_pow(n) >= 1,
    decreases n,
{
    if n > 0 {
        lemma_two_pow_pos((n - 1) as nat);
    }
}

proof fn lemma_two_pow_mono(a: nat, b: nat)
    requires
        a <= b,
    ensures
        two_pow(a) <= two_pow(b),
    decreases b,
{
    if a < b {
        lemma_two_pow_mono(a, (b - 1) as nat);
    }
}

proof fn lemma_two_pow_add(a: nat, b: nat)
    ensures
        two_pow(a) * two_pow(b) == two_pow(a + b),
    decreases a,
{
    if a > 0 {
        lemma_two_pow_add((a - 1) as nat, b);
        assert(two_pow(a + b) == 2 * two_pow((a - 1 + b) as nat));
        assert(two_pow(a) * two_pow(b) == 2 * (two_pow((a - 1) as nat) * two_pow(b))) by (nonlinear_arith)
            requires two_pow(a) == 2 * two_pow((a - 1) as nat);
    } else {
        assert(two_pow(0) == 1);
    }
}

proof fn lemma_top_bit(m: nat)
    requires
        m >= 1,
    ensures
        two_pow(top_bit(m)) <= m < 2 * two_pow(top_bit(m)),
    decreases m,
{
    if m >= 2 {
        lemma_top_bit(m / 2);
    }
}

/// The highest set bit of a positive value, with `2^h` beside it.
fn top_bit_exec(m: u32) -> (r: (u32, u32))
    requires
        m >= 1,
    ensures
        r.0 == top_bit(m as nat),
        r.1 == two_pow(r.0 as nat),
        r.0 < 32,
{
    let mut x = m;
    let mut h: u32 = 0;
    let mut p: u32 = 1;
    proof { lemma_top_bit(m as nat); }
    while x >= 2
        invariant
            x >= 1,
            h + top_bit(x as nat) == top_bit(m as nat),
            p == two_pow(h as nat),
            p as nat * x as nat <= m,
            h <= 31,
            two_pow(top_bit(m as nat)) <= m,
        decreases x,
    {
        assert(p as nat * 2 <= p as nat * x as nat) by (nonlinear_arith)
            requires x >= 2;
        assert(p * 2 <= m);
        proof {
            lemma_top_bit(x as nat);
            lemma_two_pow_values();
            lemma_two_pow_mono((h + 1) as nat, top_bit(m as nat));
        }
        assert((p as nat * 2) * (x as nat / 2) <= p as nat * x as nat) by (nonlinear_arith)
            requires x >= 2;
        x = x / 2;
        h = h + 1;
        p = p * 2;
        assert(h + top_bit(x as nat) == top_bit(m as nat));
        proof {
            if h > 31 {
                lemma_two_pow_mono(32, h as nat);
                reveal_with_fuel(two_pow, 33);
            }
        }
    }
    (h, p)
}

/// The 64-bit encoding of a 32-bit float, given by its bits.
pub fn widen_float_bits(b: u32) -> (r: u64)
    ensures
        r == widen_bits(b),
{
    proof { lemma_two_pow_values(); }
    let s: u64 = (b / 2147483648) as u64;
    let e: u64 = ((b / 8388608) % 256) as u64;
    let m: u32 = b % 8388608;
    let sign: u64 = s * 9223372036854775808;
    if e == 255 {
        sign + 2047 * 4503599627370496 + (m as u64) * 536870912
    } else if e == 0 {
        if m == 0 {
            sign
        } else {
            let (h, p) = top_bit_exec(m);
            proof {
                lemma_top_bit(m as nat);
                lemma_two_pow_mono((52 - h) as nat, 52);
            }
            assert(h < 23) by {
                if h >= 23 {
                    lemma_two_pow_mono(23, h as nat);
                }
            }
            assert(two_pow(0) == 1);
            let mut q: u64 = 1;
            let mut i: u32 = 0;
            while i < 52 - h
                invariant
                    i <= 52 - h,
                    h <= 22,
                    q == two_pow(i as nat),
                    two_pow((52 - h) as nat) <= 4503599627370496,
                decreases 52 - h - i,
            {
                proof { lemma_two_pow_mono((i + 1) as nat, (52 - h) as nat); }
                q = q * 2;
                i = i + 1;
            }
            proof { lemma_two_pow_add(h as nat, (52 - h) as nat); }
            assert((m - p) < p);
            let ghost dm: int = m - p;
            assert(dm * q <= p * q) by (nonlinear_arith)
                requires 0 <= dm < p, q >= 0;
            assert(p as nat * q as nat == 4503599627370496);
            sign + ((h as u64) + 874) * 4503599627370496 + ((m - p) as u64) * q
        }
    } else {
        sign + (e + 896) * 4503599627370496 + (m as u64) * 536870912
    }
}

/// The float with these bits converted to `usize` as Rust's `as` does it.
pub fn float_bits_to_usize(b: u64) -> (r: usize)
    ensures
        r == sat_usize(b),
{
    proof { lemma_two_pow_values(); }
    let s: u64 = b / 9223372036854775808;
    let e: u64 = (b / 4503599627370496) % 2048;
    let m: u64 = b % 4503599627370496;
    if e == 2047 {
        if m != 0 || s == 1 { 0 } else { usize::MAX }
    } else if s == 1 || e < 1023 {
        0
    } else {
        let k: u64 = e - 1023;
        let mant: u64 = m + 4503599627370496;
        if k >= 64 {
            proof {
                lemma_two_pow_mono(12, (k - 52) as nat);
                reveal_with_fuel(two_pow, 13);
                assert(mant as nat * two_pow((k - 52) as nat) >= 4503599627370496 * 4096) by (nonlinear_arith)
                    requires mant >= 4503599627370496, two_pow((k - 52) as nat) >= 4096;
            }
            usize::MAX
        } else if k >= 52 {
            let mut x: u128 = mant as u128;
            let mut i: u64 = 0;
            assert(two_pow(0) == 1);
            while i < k - 52
                invariant
                    i <= k - 52,
                    k < 64,
                    mant < 9007199254740992,
                    x == mant as nat * two_pow(i as nat),
                    two_pow(i as nat) <= 4096,
                decreases k - 52 - i,
            {
                proof {
                    lemma_two_pow_mono((i + 1) as nat, 12);
                    reveal_with_fuel(two_pow, 13);
                }
                assert(mant as nat * two_pow((i + 1) as nat) <= 4503599627370496 * 2 * 4096) by (nonlinear_arith)
                    requires mant < 4503599627370496 * 2, two_pow((i + 1) as nat) <= 4096;
                assert(x <= 9007199254740992 * 4096) by (nonlinear_arith)
                    requires x == mant as nat * two_pow(i as nat), mant < 9007199254740992, two_pow(i as nat) <= 4096;
                x = x * 2;
                assert(x == mant as nat * two_pow((i + 1) as nat)) by (nonlinear_arith)
                    requires x == 2 * (mant as nat * two_pow(i as nat)), two_pow((i + 1) as nat) == 2 * two_pow(i as nat);
                i = i + 1;
            }
            if x > usize::MAX as u128 { usize::MAX } else { x as usize }
        } else {
            let mut x: u64 = mant;
            let mut i: u64 = 0;
            assert(two_pow(0) == 1);
            while i < 52 - k
                invariant
                    i <= 52 - k,
                    x == mant as nat / two_pow(i as nat),
                decreases 52 - k - i,
            {
                proof {
                    lemma_two_pow_pos(i as nat);
                    vstd::arithmetic::div_mod::lemma_div_denominator(mant as int, two_pow(i as nat) as int, 2);
                    assert(two_pow(i as nat) * 2 == two_pow((i + 1) as nat));
                }
                x = x / 2;
                i = i + 1;
            }
            if x as u128 > usize::MAX as u128 { usize::MAX } else { x as usize }
        }
    }
}

// ---------------------------------------------------------------------
// Text replacement and substitution of known values.
// ---------------------------------------------------------------------

/// `r` before every character of `s` and after the last, as `str::replace`
/// does with an empty pattern.
pub open spec fn replace_empty(s: Seq<char>, r: Seq<char>) -> Seq<char>
    decreases s.len(),
{
    if s.len() == 0 { r } else { r + seq![s[0]] + replace_empty(s.drop_first(), r) }
}

/// Every non-overlapping occurrence of `p` in `s`, from the left, replaced by `r`
/// (what `str::replace` does).
pub open spec fn replace_all(s: Seq<char>, p: Seq<char>, r: Seq<char>) -> Seq<char>
    decreases s.len(),
{
    if p.len() == 0 {
        replace_empty(s, r)
    } else if s.len() < p.len() {
        s
    } else if s.subrange(0, p.len() as int) == p {
        r + replace_all(s.subrange(p.len() as int, s.len() as int), p, r)
    } else {
        seq![s[0]] + replace_all(s.drop_first(), p, r)
    }
}

/// The part of a path after its last dot (the whole path where it has none).
pub open spec fn short_key(k: Seq<char>) -> Seq<char>
    decreases k.len(),
{
    if k.len() == 0 {
        k
    } else if k.last() == '.' {
        Seq::empty()
    } else {
        short_key(k.drop_last()).push(k.last())
    }
}

/// The text a known value is written as inside an expression.
pub open spec fn ctx_text(v: CtxValue) -> Seq<char> {
    match v {
        CtxValue::Int(i) => signed_str(i as int),
        CtxValue::Float(b) => evalexpr_float_text(b),
    }
}

/// The expression with each known value put in, in the order the values were
/// first recorded: first every occurrence of the short name, then of the full path.
pub open spec fn substitute(expr: Seq<char>, ctx: Seq<(Seq<char>, CtxValue)>) -> Seq<char>
    decreases ctx.len(),
{
    if ctx.len() == 0 {
        expr
    } else {
        let e = substitute(expr, ctx.drop_last());
        let k = ctx.last().0;
        let t = ctx_text(ctx.last().1);
        replace_all(replace_all(e, short_key(k), t), k, t)
    }
}

/// What the evaluation of the expression `e` gives as an offset or length: an
/// integer as it is, a float saturated into `usize`, and else an error.
pub open spec fn usize_outcome(o: EvalOutcome, e: Seq<char>) -> Result<usize, Seq<char>> {
    match o {
        EvalOutcome::Failed(m) => Err(m@),
        EvalOutcome::Int(i) => Ok(i as usize),
        EvalOutcome::Float(b) => Ok(sat_usize(b)),
        _ => Err("Expression did not return a number: "@ + e),
    }
}

/// What the evaluation of the condition `e` gives: its boolean, or an error.
pub open spec fn cond_outcome(o: EvalOutcome, e: Seq<char>) -> Result<bool, Seq<char>> {
    match o {
        EvalOutcome::Failed(m) => Err(m@),
        EvalOutcome::Bool(b) => Ok(b),
        _ => Err("Condition did not return a boolean: "@ + e),
    }
}

/// The value of an offset or length expression: a plain `usize` literal, or else
/// the evaluated expression after substitution, as an integer or a float.
pub open spec fn eval_usize_spec(expr: Seq<char>, ctx: Seq<(Seq<char>, CtxValue)>) -> Result<usize, Seq<char>> {
    match parse_usize_spec(expr) {
        Some(n) => Ok(n as usize),
        None => {
            let e = substitute(expr, ctx);
            if names_risky_builtin(e) {
                Err(refused_text(e))
            } else {
            usize_outcome(evalexpr_result(e), e)
            }
        },
    }
}

/// The value of a condition after substitution.
pub open spec fn eval_cond_spec(expr: Seq<char>, ctx: Seq<(Seq<char>, CtxValue)>) -> Result<bool, Seq<char>> {
    let e = substitute(expr, ctx);
    if names_risky_builtin(e) {
        Err(refused_text(e))
    } else {
        cond_outcome(evalexpr_result(e), e)
    }
}

/// The view of a context.
pub open spec fn ctx_view(ctx: Seq<(String, CtxValue)>) -> Seq<(Seq<char>, CtxValue)> {
    ctx.map_values(|p: (String, CtxValue)| (p.0@, p.1))
}

pub fn starts_at(s: &Vec<char>, i: usize, p: &Vec<char>) -> (r: bool)
    requires
        i + p@.len() <= s@.len(),
    ensures
        r == (s@.subrange(i as int, i + p@.len()) == p@),
{
    let n = s.len();
    let mut k: usize = 0;
    while k < p.len()
        invariant
            k <= p@.len(),
            n == s@.len(),
            i + p@.len() <= s@.len(),
            forall|j: int| 0 <= j < k ==> s@[i + j] == p@[j],
        decreases p@.len() - k,
    {
        assert(i + k < s@.len());
        if s[i + k] != p[k] {
            assert(s@.subrange(i as int, i + p@.len())[k as int] != p@[k as int]);
            return false;
        }
        k = k + 1;
    }
    assert(s@.subrange(i as int, i + p@.len()) =~= p@);
    true
}

/// `t` occurs in `s`.
pub open spec fn contains_seq(s: Seq<char>, t: Seq<char>) -> bool {
    exists|i: int| 0 <= i && i + t.len() <= s.len() && #[trigger] s.subrange(i, i + t.len()) == t
}

pub(crate) fn contains_chars(s: &Vec<char>, t: &Vec<char>) -> (r: bool)
    ensures
        r == contains_seq(s@, t@),
{
    if t.len() > s.len() {
        return false;
    }
    let last = s.len() - t.len();
    let mut i: usize = 0;
    loop
        invariant
            t@.len() <= s@.len(),
            last == s@.len() - t@.len(),
            i <= last,
            forall|k: int| 0 <= k < i ==> #[trigger] s@.subrange(k, k + t@.len()) != t@,
        decreases last - i,
    {
        if starts_at(s, i, t) {
            return true;
        }
        if i == last {
            assert forall|k: int| 0 <= k && k + t@.len() <= s@.len() implies #[trigger] s@.subrange(k, k + t@.len()) != t@ by {
                if k < i {
                } else {
                    assert(k == i);
                }
            }
            return false;
        }
        i = i + 1;
    }
}


/// `str::replace` on characters.
pub fn replace_chars(s: &Vec<char>, p: &Vec<char>, r: &Vec<char>) -> (out: Vec<char>)
    ensures
        out@ == replace_all(s@, p@, r@),
{
    let mut out: Vec<char> = Vec::new();
    if p.len() == 0 {
        let mut i: usize = 0;
        assert(s@.subrange(0, s@.len() as int) =~= s@);
        assert(out@ + replace_empty(s@, r@) =~= replace_empty(s@, r@));
        while i < s.len()
            invariant
                i <= s@.len(),
                p@.len() == 0,
                out@ + replace_empty(s@.subrange(i as int, s@.len() as int), r@) == replace_all(s@, p@, r@),
            decreases s@.len() - i,
        {
            let ghost rest = s@.subrange(i as int, s@.len() as int);
            assert(rest.drop_first() =~= s@.subrange(i + 1, s@.len() as int));
            let mut k: usize = 0;
            let ghost o = out@;
            while k < r.len()
                invariant
                    k <= r@.len(),
                    out@ == o + r@.subrange(0, k as int),
                decreases r@.len() - k,
            {
                out.push(r[k]);
                assert(r@.subrange(0, k + 1) =~= r@.subrange(0, k as int).push(r@[k as int]));
                k = k + 1;
            }
            assert(r@.subrange(0, r@.len() as int) =~= r@);
            out.push(s[i]);
            assert(out@ + replace_empty(s@.subrange(i + 1, s@.len() as int), r@) =~= o + replace_empty(rest, r@));
            i = i + 1;
        }
        let ghost o = out@;
        let mut k: usize = 0;
        while k < r.len()
            invariant
                k <= r@.len(),
                out@ == o + r@.subrange(0, k as int),
            decreases r@.len() - k,
        {
            out.push(r[k]);
            assert(r@.subrange(0, k + 1) =~= r@.subrange(0, k as int).push(r@[k as int]));
            k = k + 1;
        }
        assert(r@.subrange(0, r@.len() as int) =~= r@);
        assert(s@.subrange(s@.len() as int, s@.len() as int) =~= Seq::<char>::empty());
        return out;
    }
    let mut i: usize = 0;
    assert(s@.subrange(0, s@.len() as int) =~= s@);
    while i < s.len()
        invariant
            i <= s@.len(),
            p@.len() > 0,
            out@ + replace_all(s@.subrange(i as int, s@.len() as int), p@, r@) == replace_all(s@, p@, r@),
        decreases s@.len() - i,
    {
        let ghost rest = s@.subrange(i as int, s@.len() as int);
        if s.len() - i < p.len() {
            assert(replace_all(rest, p@, r@) == rest);
            let mut j = i;
            let ghost o = out@;
            while j < s.len()
                invariant
                    i <= j <= s@.len(),
                    out@ == o + s@.subrange(i as int, j as int),
                decreases s@.len() - j,
            {
                out.push(s[j]);
                assert(s@.subrange(i as int, j + 1) =~= s@.subrange(i as int, j as int).push(s@[j as int]));
                j = j + 1;
            }
            assert(out@ =~= replace_all(s@, p@, r@));
            return out;
        }
        if starts_at(s, i, p) {
            assert(rest.subrange(0, p@.len() as int) =~= s@.subrange(i as int, i + p@.len()));
            assert(rest.subrange(p@.len() as int, rest.len() as int) =~= s@.subrange(i + p@.len(), s@.len() as int));
            let ghost o = out@;
            let mut k: usize = 0;
            while k < r.len()
                invariant
                    k <= r@.len(),
                    out@ == o + r@.subrange(0, k as int),
                decreases r@.len() - k,
            {
                out.push(r[k]);
                assert(r@.subrange(0, k + 1) =~= r@.subrange(0, k as int).push(r@[k as int]));
                k = k + 1;
            }
            assert(r@.subrange(0, r@.len() as int) =~= r@);
            assert(out@ + replace_all(s@.subrange(i + p@.len(), s@.len() as int), p@, r@) =~= o + replace_all(rest, p@, r@));
            i = i + p.len();
        } else {
            assert(rest.subrange(0, p@.len() as int) =~= s@.subrange(i as int, i + p@.len()));
            assert(rest.drop_first() =~= s@.subrange(i + 1, s@.len() as int));
            let ghost o = out@;
            out.push(s[i]);
            assert(out@ + replace_all(s@.subrange(i + 1, s@.len() as int), p@, r@) =~= o + replace_all(rest, p@, r@));
            i = i + 1;
        }
    }
    assert(s@.subrange(s@.len() as int, s@.len() as int) =~= Seq::<char>::empty());
    assert(out@ =~= replace_all(s@, p@, r@));
    out
}

/// The characters after the last dot of a path.
pub fn short_key_chars(k: &Vec<char>) -> (r: Vec<char>)
    ensures
        r@ == short_key(k@),
{
    let mut j: usize = k.len();
    let mut found = false;
    assert(k@.take(j as int) =~= k@);
    assert(k@.subrange(j as int, k@.len() as int) =~= Seq::<char>::empty());
    while j > 0 && !found
        invariant
            j <= k@.len(),
            short_key(k@) == short_key(k@.take(j as int)) + k@.subrange(j as int, k@.len() as int),
            found ==> short_key(k@.take(j as int)) =~= Seq::<char>::empty(),
        decreases j + (if found { 0int } else { 1int }),
    {
        if k[j - 1] == '.' {
            assert(k@.take(j as int).last() == '.');
            assert(short_key(k@.take(j as int)) =~= Seq::<char>::empty());
            found = true;
        } else {
            assert(k@.take(j as int).drop_last() =~= k@.take(j - 1));
            assert(short_key(k@.take(j - 1)) + k@.subrange(j - 1, k@.len() as int)
                =~= short_key(k@.take(j - 1)).push(k@[j - 1]) + k@.subrange(j as int, k@.len() as int));
            j = j - 1;
        }
    }
    if j == 0 {
        assert(k@.take(0) =~= Seq::<char>::empty());
    }
    let mut out: Vec<char> = Vec::new();
    let mut i = j;
    while i < k.len()
        invariant
            j <= i <= k@.len(),
            out@ == k@.subrange(j as int, i as int),
        decreases k@.len() - i,
    {
        out.push(k[i]);
        assert(k@.subrange(j as int, i + 1) =~= k@.subrange(j as int, i as int).push(k@[i as int]));
        i = i + 1;
    }
    assert(out@ =~= short_key(k@));
    out
}

/// The text a known value is written as.
pub fn ctx_text_exec(v: CtxValue) -> (r: Vec<char>)
    ensures
        r@ == ctx_text(v),
{
    match v {
        CtxValue::Int(i) => {
            let mut s = String::new();
            push_signed(&mut s, i);
            chars_of(s.as_str())
        },
        CtxValue::Float(b) => {
            let t = float_text(b);
            chars_of(t.as_str())
        },
    }
}

/// The expression with the known values put in.
pub fn substitute_exec(expr: &str, ctx: &Vec<(String, CtxValue)>) -> (r: Vec<char>)
    ensures
        r@ == substitute(expr@, ctx_view(ctx@)),
{
    let ghost cv = ctx_view(ctx@);
    let mut cur = chars_of(expr);
    let mut i: usize = 0;
    assert(cv.take(0) =~= Seq::<(Seq<char>, CtxValue)>::empty());
    while i < ctx.len()
        invariant
            i <= ctx@.len(),
            cv == ctx_view(ctx@),
            cur@ == substitute(expr@, cv.take(i as int)),
        decreases ctx@.len() - i,
    {
        let key = chars_of(ctx[i].0.as_str());
        let short = short_key_chars(&key);
        let text = ctx_text_exec(ctx[i].1);
        let a = replace_chars(&cur, &short, &text);
        cur = replace_chars(&a, &key, &text);
        proof {
            assert(cv.take(i + 1).drop_last() =~= cv.take(i as int));
            assert(cv.take(i + 1).last() == cv[i as int]);
        }
        i = i + 1;
    }
    assert(cv.take(ctx@.len() as int) =~= cv);
    cur
}

/// The value of an offset or length expression.
pub fn eval_usize(expr: &str, ctx: &Vec<(String, CtxValue)>) -> (r: Result<usize, String>)
    ensures
        match eval_usize_spec(expr@, ctx_view(ctx@)) {
            Ok(n) => r == Ok::<usize, String>(n),
            Err(m) => (r matches Err(x) && x@ == m),
        },
{
    let cs = chars_of(expr);
    match parse_usize(cs.as_slice()) {
        Some(n) => return Ok(n),
        None => {},
    }
    let e = substitute_exec(expr, ctx);
    let es = string_from_chars(e.as_slice());
    if risky_builtin(es.as_str()) {
        return Err(refused_message(es.as_str()));
    }
    let o = eval_text(es.as_str());
    usize_of_outcome(o, es.as_str())
}

/// The value an evaluation of the expression `e` gives as an offset or length.
pub fn usize_of_outcome(o: EvalOutcome, e: &str) -> (r: Result<usize, String>)
    ensures
        match usize_outcome(o, e@) {
            Ok(n) => r == Ok::<usize, String>(n),
            Err(m) => (r matches Err(x) && x@ == m),
        },
{
    match o {
        EvalOutcome::Failed(m) => Err(m),
        EvalOutcome::Int(i) => Ok(i as usize),
        EvalOutcome::Float(b) => Ok(float_bits_to_usize(b)),
        _ => {
            let mut msg = String::new();
            crate::text::push_str(&mut msg, "Expression did not return a number: ");
            crate::text::push_str(&mut msg, e);
            Err(msg)
        },
    }
}

/// The value an evaluation of the condition `e` gives.
pub fn cond_of_outcome(o: EvalOutcome, e: &str) -> (r: Result<bool, String>)
    ensures
        match cond_outcome(o, e@) {
            Ok(b) => r == Ok::<bool, String>(b),
            Err(m) => (r matches Err(x) && x@ == m),
        },
{
    match o {
        EvalOutcome::Failed(m) => Err(m),
        EvalOutcome::Bool(b) => Ok(b),
        _ => {
            let mut msg = String::new();
            crate::text::push_str(&mut msg, "Condition did not return a boolean: ");
            crate::text::push_str(&mut msg, e);
            Err(msg)
        },
    }
}

/// The value of a condition.
pub fn eval_condition(expr: &str, ctx: &Vec<(String, CtxValue)>) -> (r: Result<bool, String>)
    ensures
        match eval_cond_spec(expr@, ctx_view(ctx@)) {
            Ok(b) => r == Ok::<bool, String>(b),
            Err(m) => (r matches Err(x) && x@ == m),
        },
{
    let e = substitute_exec(expr, ctx);
    let es = string_from_chars(e.as_slice());
    if risky_builtin(es.as_str()) {
        return Err(refused_message(es.as_str()));
    }
    let o = eval_text(es.as_str());
    cond_of_outcome(o, es.as_str())
}

/// Records a known value, replacing an earlier one under the same path.
pub fn ctx_insert(ctx: &mut Vec<(String, CtxValue)>, key: &str, v: CtxValue)
    ensures
        ctx_view(final(ctx)@) == ctx_put(ctx_view(old(ctx)@), key@, v),
{
    let ghost cv = ctx_view(ctx@);
    let mut i: usize = 0;
    while i < ctx.len()
        invariant
            i <= ctx@.len(),
            cv == ctx_view(ctx@),
            cv == ctx_view(old(ctx)@),
            forall|j: int| 0 <= j < i ==> cv[j].0 != key@,
        decreases ctx@.len() - i,
    {
        if str_eq(ctx[i].0.as_str(), key) {
            proof { lemma_ctx_find(cv, key@, i as int); }
            ctx.set(i, (crate::text::owned(key), v));
            assert(ctx_view(ctx@) =~= cv.update(i as int, (key@, v)));
            return;
        }
        i = i + 1;
    }
    proof { lemma_ctx_absent(cv, key@); }
    ctx.push((crate::text::owned(key), v));
    assert(ctx_view(ctx@) =~= cv.push((key@, v)));
}

/// The position of the first entry with key `k`, or -1.
pub open spec fn ctx_find(c: Seq<(Seq<char>, CtxValue)>, k: Seq<char>) -> int
    decreases c.len(),
{
    if c.len() == 0 {
        -1
    } else if ctx_find(c.drop_last(), k) >= 0 {
        ctx_find(c.drop_last(), k)
    } else if c.last().0 == k {
        c.len() - 1
    } else {
        -1
    }
}

/// Recording a value: replaced in place where the key is known, else added at the end.
pub open spec fn ctx_put(c: Seq<(Seq<char>, CtxValue)>, k: Seq<char>, v: CtxValue) -> Seq<(Seq<char>, CtxValue)> {
    let i = ctx_find(c, k);
    if i < 0 { c.push((k, v)) } else { c.update(i, (k, v)) }
}

proof fn lemma_ctx_find(c: Seq<(Seq<char>, CtxValue)>, k: Seq<char>, i: int)
    requires
        0 <= i < c.len(),
        c[i].0 == k,
        forall|j: int| 0 <= j < i ==> c[j].0 != k,
    ensures
        ctx_find(c, k) == i,
    decreases c.len(),
{
    if i < c.len() - 1 {
        lemma_ctx_find(c.drop_last(), k, i);
    } else {
        lemma_ctx_absent(c.drop_last(), k);
    }
}

proof fn lemma_ctx_absent(c: Seq<(Seq<char>, CtxValue)>, k: Seq<char>)
    requires
        forall|j: int| 0 <= j < c.len() ==> c[j].0 != k,
    ensures
        ctx_find(c, k) == -1,
    decreases c.len(),
{
    if c.len() > 0 {
        lemma_ctx_absent(c.drop_last(), k);
    }
}

proof fn lemma_ctx_find_result(c: Seq<(Seq<char>, CtxValue)>, k: Seq<char>)
    ensures
        ctx_find(c, k) < 0 ==> forall|j: int| 0 <= j < c.len() ==> c[j].0 != k,
        ctx_find(c, k) >= 0 ==> ctx_find(c, k) < c.len() && c[ctx_find(c, k)].0 == k,
    decreases c.len(),
{
    if c.len() > 0 {
        lemma_ctx_find_result(c.drop_last(), k);
        assert forall|j: int| 0 <= j < c.len() - 1 implies c.drop_last()[j] == c[j] by {}
    }
}

/// No two known values share a path.
pub open spec fn ctx_keys_distinct(c: Seq<(Seq<char>, CtxValue)>) -> bool {
    forall|i: int, j: int| 0 <= i < j < c.len() ==> (#[trigger] c[i]).0 != (#[trigger] c[j]).0
}

/// Recording a value keeps each path once: it replaces the value known under
/// the path, or adds the path where it was not known; the other values stay.
pub proof fn lemma_ctx_put_distinct(c: Seq<(Seq<char>, CtxValue)>, k: Seq<char>, v: CtxValue)
    requires
        ctx_keys_distinct(c),
    ensures
        ctx_keys_distinct(ctx_put(c, k, v)),
        exists|i: int| 0 <= i < ctx_put(c, k, v).len() && #[trigger] ctx_put(c, k, v)[i] == (k, v),
        forall|i: int| 0 <= i < c.len() && c[i].0 != k ==> #[trigger] ctx_put(c, k, v)[i] == c[i],
{
    lemma_ctx_find_result(c, k);
    let r = ctx_put(c, k, v);
    if ctx_find(c, k) < 0 {
        assert(r[c.len() as int] == (k, v));
    } else {
        assert(r[ctx_find(c, k)] == (k, v));
    }
}

} // verus!
