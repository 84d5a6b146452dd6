//! Checks of a format definition that do not stop at the first problem: every
//! expression refers only to fields defined before it, every referenced struct
//! and enum exists, conditions have the accepted shape, and enum values fit
//! the type they are read as.

use vstd::prelude::*;
use crate::dsl::{DataType, Field, StructDefinition, EnumDefinition, FormatDefinition, TypeDesc, FieldDesc, StructDesc,
    EnumDesc, FormatDesc, type_desc, field_desc, fields_desc, struct_desc, enum_desc, format_desc, pairs_desc};
use crate::text::{owned, is_ascii_digit, all_digits, chars_of, chars_eq, push_str, push_char, string_from_chars, str_eq};
use crate::intparse::{trim, trim_chars};
use crate::numfmt::{signed_str, push_signed};

verus! {

// ---------------------------------------------------------------------
// Identifiers in an expression.
// ---------------------------------------------------------------------

/// Characters that make up an identifier: ASCII letters and digits, `_` and `.`.
pub open spec fn is_ident_char(c: char) -> bool {
    ('a' <= c && c <= 'z') || ('A' <= c && c <= 'Z') || is_ascii_digit(c) || c == '_' || c == '.'
}

fn is_ident_char_exec(c: char) -> (r: bool)
    ensures
        r == is_ident_char(c),
{
    ('a' <= c && c <= 'z') || ('A' <= c && c <= 'Z') || ('0' <= c && c <= '9') || c == '_' || c == '.'
}

/// A finished run kept as an identifier unless it is empty or all digits.
pub open spec fn flush(ids: Seq<Seq<char>>, cur: Seq<char>) -> Seq<Seq<char>> {
    if cur.len() > 0 && !all_digits(cur) { ids.push(cur) } else { ids }
}

/// The identifiers completed in the first `n` characters, and the run still open.
pub open spec fn ident_scan(s: Seq<char>, n: nat) -> (Seq<Seq<char>>, Seq<char>)
    decreases n,
{
    if n == 0 || n > s.len() {
        (Seq::empty(), Seq::empty())
    } else {
        let (ids, cur) = ident_scan(s, (n - 1) as nat);
        if is_ident_char(s[n - 1]) { (ids, cur.push(s[n - 1])) } else { (flush(ids, cur), Seq::empty()) }
    }
}

/// The maximal runs of identifier characters of `s`, in order, without those
/// made of digits only.
pub open spec fn identifiers(s: Seq<char>) -> Seq<Seq<char>> {
    let (ids, cur) = ident_scan(s, s.len());
    flush(ids, cur)
}

pub open spec fn chars_view(v: Seq<Vec<char>>) -> Seq<Seq<char>> {
    v.map_values(|x: Vec<char>| x@)
}

fn all_digits_exec(s: &Vec<char>) -> (r: bool)
    ensures
        r == all_digits(s@),
{
    let mut i: usize = 0;
    while i < s.len()
        invariant
            i <= s@.len(),
            forall|j: int| 0 <= j < i ==> is_ascii_digit(#[trigger] s@[j]),
        decreases s@.len() - i,
    {
        if !('0' <= s[i] && s[i] <= '9') {
            return false;
        }
        i = i + 1;
    }
    true
}

fn flush_exec(ids: &mut Vec<Vec<char>>, cur: Vec<char>)
    ensures
        chars_view(final(ids)@) == flush(chars_view(old(ids)@), cur@),
{
    if cur.len() > 0 && !all_digits_exec(&cur) {
        let ghost before = ids@;
        ids.push(cur);
        assert(chars_view(ids@) =~= chars_view(before).push(cur@));
    }
}

/// The identifiers an expression refers to.
pub fn extract_identifiers(expr: &[char]) -> (r: Vec<Vec<char>>)
    ensures
        chars_view(r@) == identifiers(expr@),
{
    let mut ids: Vec<Vec<char>> = Vec::new();
    let mut cur: Vec<char> = Vec::new();
    assert(chars_view(ids@) =~= Seq::<Seq<char>>::empty());
    let mut i: usize = 0;
    while i < expr.len()
        invariant
            i <= expr@.len(),
            ident_scan(expr@, i as nat) == (chars_view(ids@), cur@),
        decreases expr@.len() - i,
    {
        let c = expr[i];
        if is_ident_char_exec(c) {
            cur.push(c);
        } else {
            let done = cur;
            cur = Vec::new();
            flush_exec(&mut ids, done);
            assert(cur@ =~= Seq::<char>::empty());
        }
        i = i + 1;
    }
    flush_exec(&mut ids, cur);
    ids
}

// ---------------------------------------------------------------------
// Integer literals and condition syntax.
// ---------------------------------------------------------------------

pub open spec fn is_hex_digit(c: char) -> bool {
    is_ascii_digit(c) || ('a' <= c && c <= 'f') || ('A' <= c && c <= 'F')
}

pub open spec fn all_hex(s: Seq<char>) -> bool {
    forall|i: int| 0 <= i < s.len() ==> is_hex_digit(#[trigger] s[i])
}

/// Digits after an optional sign, or hex digits after `0x`, the text trimmed;
/// the empty text counts.
pub open spec fn is_integer_literal(s: Seq<char>) -> bool {
    let t = trim(s);
    if t.len() >= 2 && t[0] == '0' && (t[1] == 'x' || t[1] == 'X') {
        all_hex(t.skip(2))
    } else if t.len() >= 1 && (t[0] == '-' || t[0] == '+') {
        all_digits(t.skip(1))
    } else {
        all_digits(t)
    }
}

fn all_from(t: &Vec<char>, from: usize, hex: bool) -> (r: bool)
    requires
        from <= t@.len(),
    ensures
        r == (if hex { all_hex(t@.skip(from as int)) } else { all_digits(t@.skip(from as int)) }),
{
    let mut i = from;
    while i < t.len()
        invariant
            from <= i <= t@.len(),
            forall|j: int| from <= j < i ==> (if hex { is_hex_digit(#[trigger] t@[j]) } else { is_ascii_digit(t@[j]) }),
        decreases t@.len() - i,
    {
        let c = t[i];
        let ok = if hex {
            ('0' <= c && c <= '9') || ('a' <= c && c <= 'f') || ('A' <= c && c <= 'F')
        } else {
            '0' <= c && c <= '9'
        };
        if !ok {
            assert(t@.skip(from as int)[i - from] == c);
            return false;
        }
        i = i + 1;
    }
    assert forall|j: int| 0 <= j < t@.skip(from as int).len() implies
        (if hex { is_hex_digit(#[trigger] t@.skip(from as int)[j]) } else { is_ascii_digit(t@.skip(from as int)[j]) }) by {
        assert(t@.skip(from as int)[j] == t@[from + j]);
    }
    true
}

fn is_integer_literal_exec(s: &[char]) -> (r: bool)
    ensures
        r == is_integer_literal(s@),
{
    let t = trim_chars(s);
    if t.len() >= 2 && t[0] == '0' && (t[1] == 'x' || t[1] == 'X') {
        all_from(&t, 2, true)
    } else if t.len() >= 1 && (t[0] == '-' || t[0] == '+') {
        all_from(&t, 1, false)
    } else {
        assert(t@.skip(0) =~= t@);
        all_from(&t, 0, false)
    }
}

/// The first position from `i` on where `a` is directly followed by `b`.
pub open spec fn find_pair(t: Seq<char>, a: char, b: char, i: nat) -> Option<nat>
    decreases t.len() - i,
{
    if i + 1 >= t.len() {
        None
    } else if t[i as int] == a && t[(i + 1) as int] == b {
        Some(i)
    } else {
        find_pair(t, a, b, i + 1)
    }
}

fn find_pair_exec(t: &Vec<char>, a: char, b: char) -> (r: Option<usize>)
    ensures
        match find_pair(t@, a, b, 0) {
            Some(p) => (r matches Some(q) && q as nat == p),
            None => r is None,
        },
        r matches Some(p) ==> p + 1 < t@.len(),
{
    let mut i: usize = 0;
    while i < t.len() && i + 1 < t.len()
        invariant
            i <= t@.len(),
            find_pair(t@, a, b, 0) == find_pair(t@, a, b, i as nat),
        decreases t@.len() - i,
    {
        if t[i] == a && t[i + 1] == b {
            return Some(i);
        }
        i = i + 1;
    }
    None
}

/// `s` with every leading copy of the two characters `a b` removed.
pub open spec fn strip_pairs(s: Seq<char>, a: char, b: char) -> Seq<char>
    decreases s.len(),
{
    if s.len() >= 2 && s[0] == a && s[1] == b { strip_pairs(s.skip(2), a, b) } else { s }
}

/// The parts of `s` between dots; there is always one more part than dots.
pub open spec fn split_scan(s: Seq<char>, n: nat) -> (Seq<Seq<char>>, Seq<char>)
    decreases n,
{
    if n == 0 || n > s.len() {
        (Seq::empty(), Seq::empty())
    } else {
        let (parts, cur) = split_scan(s, (n - 1) as nat);
        if s[n - 1] == '.' { (parts.push(cur), Seq::empty()) } else { (parts, cur.push(s[n - 1])) }
    }
}

pub open spec fn split_dots(s: Seq<char>) -> Seq<Seq<char>> {
    let (parts, cur) = split_scan(s, s.len());
    parts.push(cur)
}

/// The last part that is not empty, or the empty text.
pub open spec fn last_nonempty(parts: Seq<Seq<char>>) -> Seq<char>
    decreases parts.len(),
{
    if parts.len() == 0 {
        Seq::empty()
    } else if parts.last().len() > 0 {
        parts.last()
    } else {
        last_nonempty(parts.drop_last())
    }
}

fn sub_chars(s: &Vec<char>, from: usize, to: usize) -> (r: Vec<char>)
    requires
        from <= to <= s@.len(),
    ensures
        r@ == s@.subrange(from as int, to as int),
{
    let mut out: Vec<char> = Vec::new();
    let mut i = from;
    while i < to
        invariant
            from <= i <= to <= s@.len(),
            out@ == s@.subrange(from as int, i as int),
        decreases to - i,
    {
        out.push(s[i]);
        assert(out@ =~= s@.subrange(from as int, i + 1));
        i = i + 1;
    }
    out
}

fn strip_pairs_exec(s: &Vec<char>, a: char, b: char) -> (r: Vec<char>)
    ensures
        r@ == strip_pairs(s@, a, b),
{
    let mut i: usize = 0;
    assert(s@.skip(0) =~= s@);
    while i < s.len() && s.len() - i >= 2 && s[i] == a && s[i + 1] == b
        invariant
            i <= s@.len(),
            strip_pairs(s@, a, b) == strip_pairs(s@.skip(i as int), a, b),
        decreases s@.len() - i,
    {
        assert(s@.skip(i as int).skip(2) =~= s@.skip(i + 2));
        i = i + 2;
    }
    let r = sub_chars(s, i, s.len());
    assert(r@ =~= s@.skip(i as int));
    r
}

fn split_dots_exec(s: &Vec<char>) -> (r: Vec<Vec<char>>)
    ensures
        chars_view(r@) == split_dots(s@),
{
    let mut parts: Vec<Vec<char>> = Vec::new();
    let mut cur: Vec<char> = Vec::new();
    assert(chars_view(parts@) =~= Seq::<Seq<char>>::empty());
    let mut i: usize = 0;
    while i < s.len()
        invariant
            i <= s@.len(),
            split_scan(s@, i as nat) == (chars_view(parts@), cur@),
        decreases s@.len() - i,
    {
        if s[i] == '.' {
            let done = cur;
            cur = Vec::new();
            let ghost before = parts@;
            parts.push(done);
            assert(chars_view(parts@) =~= chars_view(before).push(done@));
            assert(cur@ =~= Seq::<char>::empty());
        } else {
            cur.push(s[i]);
        }
        i = i + 1;
    }
    let ghost before = parts@;
    let ghost c = cur@;
    parts.push(cur);
    assert(chars_view(parts@) =~= chars_view(before).push(c));
    parts
}

fn last_nonempty_exec(parts: &Vec<Vec<char>>) -> (r: Vec<char>)
    ensures
        r@ == last_nonempty(chars_view(parts@)),
{
    let ghost ps = chars_view(parts@);
    let mut k = parts.len();
    assert(ps.take(k as int) =~= ps);
    while k > 0 && parts[k - 1].len() == 0
        invariant
            k <= parts@.len(),
            ps == chars_view(parts@),
            last_nonempty(ps) == last_nonempty(ps.take(k as int)),
        decreases k,
    {
        assert(ps.take(k as int).drop_last() =~= ps.take(k - 1));
        k = k - 1;
    }
    if k == 0 {
        Vec::new()
    } else {
        let mut out: Vec<char> = Vec::new();
        let mut i: usize = 0;
        let n = parts[k - 1].len();
        while i < n
            invariant
                0 < k <= parts@.len(),
                n == parts@[k - 1]@.len(),
                i <= n,
                out@ == parts@[k - 1]@.subrange(0, i as int),
            decreases n - i,
        {
            out.push(parts[k - 1][i]);
            assert(out@ =~= parts@[k - 1]@.subrange(0, i + 1));
            i = i + 1;
        }
        assert(out@ =~= parts@[k - 1]@);
        out
    }
}

// ---------------------------------------------------------------------
// Errors.
// ---------------------------------------------------------------------

/// A problem found in a definition: where, and why.
#[derive(Debug)]
pub struct ValidationError {
    pub location: String,
    pub reason: String,
}

pub open spec fn err_view(e: ValidationError) -> (Seq<char>, Seq<char>) {
    (e.location@, e.reason@)
}

pub open spec fn errs_view(v: Seq<ValidationError>) -> Seq<(Seq<char>, Seq<char>)> {
    v.map_values(|e: ValidationError| err_view(e))
}

fn push_err(errors: &mut Vec<ValidationError>, location: &str, reason: String)
    ensures
        errs_view(final(errors)@) == errs_view(old(errors)@).push((location@, reason@)),
{
    let ghost before = errors@;
    errors.push(ValidationError { location: location.to_string(), reason });
    assert(errs_view(errors@) =~= errs_view(before).push((location@, reason@)));
}

fn push_chars(s: &mut String, cs: &[char])
    ensures
        final(s)@ == old(s)@ + cs@,
{
    let t = string_from_chars(cs);
    push_str(s, t.as_str());
}

pub open spec fn is_integer_type(t: TypeDesc) -> bool {
    match t {
        TypeDesc::U8 | TypeDesc::U16 | TypeDesc::U32 | TypeDesc::U64
        | TypeDesc::I8 | TypeDesc::I16 | TypeDesc::I32 | TypeDesc::I64 => true,
        _ => false,
    }
}

fn is_integer_type_exec(dt: &DataType) -> (r: bool)
    ensures
        r == is_integer_type(type_desc(*dt)),
{
    match dt {
        DataType::U8 | DataType::U16 | DataType::U32 | DataType::U64
        | DataType::I8 | DataType::I16 | DataType::I32 | DataType::I64 => true,
        _ => false,
    }
}

/// The type of the first of the fields `j..k` named `name`.
pub open spec fn earlier_type(fs: Seq<FieldDesc>, k: nat, name: Seq<char>, j: nat) -> Option<TypeDesc>
    decreases k - j,
{
    if j >= k || j >= fs.len() {
        None
    } else if fs[j as int].name == name {
        Some(fs[j as int].data_type)
    } else {
        earlier_type(fs, k, name, j + 1)
    }
}

fn earlier_type_exec<'a>(fields: &'a Vec<Field>, k: usize, name: &[char]) -> (r: Option<&'a DataType>)
    ensures
        match earlier_type(fields_desc(fields@), k as nat, name@, 0) {
            Some(t) => (r matches Some(x) && type_desc(*x) == t),
            None => r is None,
        },
{
    let ghost fs = fields_desc(fields@);
    let mut j: usize = 0;
    while j < k && j < fields.len()
        invariant
            fs == fields_desc(fields@),
            earlier_type(fs, k as nat, name@, 0) == earlier_type(fs, k as nat, name@, j as nat),
        decreases k - j,
    {
        let fname = chars_of(fields[j].name.as_str());
        assert(fs[j as int] == field_desc(fields@[j as int]));
        if chars_eq(fname.as_slice(), name) {
            return Some(&fields[j].data_type);
        }
        j = j + 1;
    }
    None
}

pub open spec fn starts_with_digit(id: Seq<char>) -> bool {
    id.len() > 0 && is_ascii_digit(id[0])
}

pub open spec fn undefined_ref(what: Seq<char>, id: Seq<char>) -> Seq<char> {
    what + "引用了未定义或尚未定义的字段 '"@ + id + "'"@
}

/// Errors for the first `n` identifiers that name none of the first `k` fields.
pub open spec fn ref_errors(ids: Seq<Seq<char>>, fs: Seq<FieldDesc>, k: nat, loc: Seq<char>, what: Seq<char>, n: nat)
    -> Seq<(Seq<char>, Seq<char>)>
    decreases n,
{
    if n == 0 || n > ids.len() {
        Seq::empty()
    } else {
        let prev = ref_errors(ids, fs, k, loc, what, (n - 1) as nat);
        let id = ids[n - 1];
        if starts_with_digit(id) || earlier_type(fs, k, id, 0) is Some {
            prev
        } else {
            prev.push((loc, undefined_ref(what, id)))
        }
    }
}

/// Errors for the first `n` identifiers of an array length: each must name
/// one of the first `k` fields, of an integer type.
pub open spec fn array_ref_errors(ids: Seq<Seq<char>>, fs: Seq<FieldDesc>, k: nat, loc: Seq<char>, n: nat)
    -> Seq<(Seq<char>, Seq<char>)>
    decreases n,
{
    if n == 0 || n > ids.len() {
        Seq::empty()
    } else {
        let prev = array_ref_errors(ids, fs, k, loc, (n - 1) as nat);
        let id = ids[n - 1];
        if starts_with_digit(id) {
            prev
        } else {
            match earlier_type(fs, k, id, 0) {
                Some(t) => if is_integer_type(t) {
                    prev
                } else {
                    prev.push((loc, "数组长度表达式引用的字段 '"@ + id + "' 不是整数类型"@))
                },
                None => prev.push((loc, undefined_ref("数组长度表达式"@, id))),
            }
        }
    }
}

fn check_refs(expr: &str, fields: &Vec<Field>, k: usize, loc: &str, what: &str, errors: &mut Vec<ValidationError>)
    ensures
        errs_view(final(errors)@) == errs_view(old(errors)@)
            + ref_errors(identifiers(expr@), fields_desc(fields@), k as nat, loc@, what@, identifiers(expr@).len()),
{
    let ec = chars_of(expr);
    let ids = extract_identifiers(ec.as_slice());
    let ghost iv = chars_view(ids@);
    let ghost fs = fields_desc(fields@);
    let ghost o = errs_view(errors@);
    let mut i: usize = 0;
    while i < ids.len()
        invariant
            i <= ids@.len(),
            iv == chars_view(ids@),
            iv == identifiers(expr@),
            fs == fields_desc(fields@),
            errs_view(errors@) == o + ref_errors(iv, fs, k as nat, loc@, what@, i as nat),
        decreases ids@.len() - i,
    {
        let id = &ids[i];
        assert(iv[i as int] == id@);
        let digit = id.len() > 0 && '0' <= id[0] && id[0] <= '9';
        if !digit {
            match earlier_type_exec(fields, k, id.as_slice()) {
                Some(_) => {},
                None => {
                    let mut reason = String::new();
                    push_str(&mut reason, what);
                    push_str(&mut reason, "引用了未定义或尚未定义的字段 '");
                    push_chars(&mut reason, id.as_slice());
                    push_str(&mut reason, "'");
                    push_err(errors, loc, reason);
                },
            }
        }
        assert(errs_view(errors@) =~= o + ref_errors(iv, fs, k as nat, loc@, what@, (i + 1) as nat));
        i = i + 1;
    }
}

fn check_array_refs(expr: &str, fields: &Vec<Field>, k: usize, loc: &str, errors: &mut Vec<ValidationError>)
    ensures
        errs_view(final(errors)@) == errs_view(old(errors)@)
            + array_ref_errors(identifiers(expr@), fields_desc(fields@), k as nat, loc@, identifiers(expr@).len()),
{
    let ec = chars_of(expr);
    let ids = extract_identifiers(ec.as_slice());
    let ghost iv = chars_view(ids@);
    let ghost fs = fields_desc(fields@);
    let ghost o = errs_view(errors@);
    let mut i: usize = 0;
    while i < ids.len()
        invariant
            i <= ids@.len(),
            iv == chars_view(ids@),
            iv == identifiers(expr@),
            fs == fields_desc(fields@),
            errs_view(errors@) == o + array_ref_errors(iv, fs, k as nat, loc@, i as nat),
        decreases ids@.len() - i,
    {
        let id = &ids[i];
        assert(iv[i as int] == id@);
        let digit = id.len() > 0 && '0' <= id[0] && id[0] <= '9';
        if !digit {
            match earlier_type_exec(fields, k, id.as_slice()) {
                Some(t) => {
                    if !is_integer_type_exec(t) {
                        let mut reason = String::new();
                        push_str(&mut reason, "数组长度表达式引用的字段 '");
                        push_chars(&mut reason, id.as_slice());
                        push_str(&mut reason, "' 不是整数类型");
                        push_err(errors, loc, reason);
                    }
                },
                None => {
                    let mut reason = String::new();
                    push_str(&mut reason, "数组长度表达式");
                    push_str(&mut reason, "引用了未定义或尚未定义的字段 '");
                    push_chars(&mut reason, id.as_slice());
                    push_str(&mut reason, "'");
                    push_err(errors, loc, reason);
                },
            }
        }
        assert(errs_view(errors@) =~= o + array_ref_errors(iv, fs, k as nat, loc@, (i + 1) as nat));
        i = i + 1;
    }
}

/// Errors of a field's type: lengths refer to earlier fields (array lengths to
/// earlier integer fields), and named structs and enums exist.
pub open spec fn type_errors(t: TypeDesc, fs: Seq<FieldDesc>, k: nat, loc: Seq<char>,
    snames: Seq<Seq<char>>, enames: Seq<Seq<char>>) -> Seq<(Seq<char>, Seq<char>)>
    decreases t,
{
    match t {
        TypeDesc::Array(el, len) =>
            array_ref_errors(identifiers(len), fs, k, loc, identifiers(len).len())
                + type_errors(*el, fs, k, loc, snames, enames),
        TypeDesc::Struct(n) => if snames.contains(n) {
            Seq::empty()
        } else {
            seq![(loc, "引用的结构体 '"@ + n + "' 未定义"@)]
        },
        TypeDesc::Enum(n, u) =>
            (if enames.contains(n) { Seq::empty() } else { seq![(loc, "引用的枚举 '"@ + n + "' 未定义"@)] })
                + type_errors(*u, fs, k, loc, snames, enames),
        TypeDesc::Bytes(len) => ref_errors(identifiers(len), fs, k, loc, "长度表达式"@, identifiers(len).len()),
        TypeDesc::Str(len, _) => ref_errors(identifiers(len), fs, k, loc, "长度表达式"@, identifiers(len).len()),
        _ => Seq::empty(),
    }
}

pub open spec fn names_view(v: Seq<String>) -> Seq<Seq<char>> {
    v.map_values(|x: String| x@)
}

fn has_name(v: &Vec<String>, n: &str) -> (r: bool)
    ensures
        r == names_view(v@).contains(n@),
{
    let mut i: usize = 0;
    while i < v.len()
        invariant
            i <= v@.len(),
            forall|j: int| 0 <= j < i ==> names_view(v@)[j] != n@,
        decreases v@.len() - i,
    {
        if str_eq(v[i].as_str(), n) {
            assert(names_view(v@)[i as int] == n@);
            return true;
        }
        i = i + 1;
    }
    false
}

fn check_type(dt: &DataType, fields: &Vec<Field>, k: usize, loc: &str, snames: &Vec<String>, enames: &Vec<String>,
    errors: &mut Vec<ValidationError>)
    ensures
        errs_view(final(errors)@) == errs_view(old(errors)@)
            + type_errors(type_desc(*dt), fields_desc(fields@), k as nat, loc@, names_view(snames@), names_view(enames@)),
    decreases dt,
{
    let ghost o = errs_view(errors@);
    match dt {
        DataType::Array { element_type, length } => {
            check_array_refs(length.as_str(), fields, k, loc, errors);
            check_type(&**element_type, fields, k, loc, snames, enames, errors);
            assert(errs_view(errors@) =~= o + type_errors(type_desc(*dt), fields_desc(fields@), k as nat, loc@,
                names_view(snames@), names_view(enames@)));
        },
        DataType::Struct { name } => {
            if !has_name(snames, name.as_str()) {
                let mut reason = String::new();
                push_str(&mut reason, "引用的结构体 '");
                push_str(&mut reason, name.as_str());
                push_str(&mut reason, "' 未定义");
                push_err(errors, loc, reason);
            }
            assert(errs_view(errors@) =~= o + type_errors(type_desc(*dt), fields_desc(fields@), k as nat, loc@,
                names_view(snames@), names_view(enames@)));
        },
        DataType::Enum { name, underlying } => {
            if !has_name(enames, name.as_str()) {
                let mut reason = String::new();
                push_str(&mut reason, "引用的枚举 '");
                push_str(&mut reason, name.as_str());
                push_str(&mut reason, "' 未定义");
                push_err(errors, loc, reason);
            }
            check_type(&**underlying, fields, k, loc, snames, enames, errors);
            assert(errs_view(errors@) =~= o + type_errors(type_desc(*dt), fields_desc(fields@), k as nat, loc@,
                names_view(snames@), names_view(enames@)));
        },
        DataType::Bytes { length } => {
            check_refs(length.as_str(), fields, k, loc, "长度表达式", errors);
        },
        DataType::String { length, .. } => {
            check_refs(length.as_str(), fields, k, loc, "长度表达式", errors);
        },
        _ => {
            assert(errs_view(errors@) =~= o);
        },
    }
}

// ---------------------------------------------------------------------
// Conditions.
// ---------------------------------------------------------------------

/// Errors of a condition split at the operator `a=` found at `p`: the left side
/// must name an earlier field (or, for a dotted path, start with one), the
/// right side must be an integer literal.
pub open spec fn when_side_errors(t: Seq<char>, p: nat, a: char, fs: Seq<FieldDesc>, k: nat, loc: Seq<char>)
    -> Seq<(Seq<char>, Seq<char>)>
{
    let left = trim(t.take(p as int));
    let right = trim(strip_pairs(t.skip(p as int), a, '='));
    let parts = split_dots(left);
    let base = last_nonempty(parts);
    let e1 = if earlier_type(fs, k, base, 0) is Some {
        Seq::empty()
    } else if parts.len() > 1 {
        if earlier_type(fs, k, parts[0], 0) is Some {
            Seq::empty()
        } else {
            seq![(loc, "when表达式左侧 '"@ + left + "' 不是已定义的字段路径"@)]
        }
    } else {
        seq![(loc, "when表达式左侧 '"@ + left + "' 不是已定义的字段"@)]
    };
    let e2 = if is_integer_literal(right) {
        Seq::empty()
    } else {
        seq![(loc, "when表达式右侧 '"@ + right + "' 不是整数字面量"@)]
    };
    e1 + e2
}

/// Errors of a condition: it compares with `!=` (looked for first) or `==`.
pub open spec fn when_errors(expr: Seq<char>, fs: Seq<FieldDesc>, k: nat, loc: Seq<char>) -> Seq<(Seq<char>, Seq<char>)> {
    let t = trim(expr);
    match find_pair(t, '!', '=', 0) {
        Some(p) => when_side_errors(t, p, '!', fs, k, loc),
        None => match find_pair(t, '=', '=', 0) {
            Some(p) => when_side_errors(t, p, '=', fs, k, loc),
            None => seq![(loc, "when表达式语法错误: 只允许 == 和 != 两种比较操作符"@)],
        },
    }
}

fn check_when_sides(t: &Vec<char>, p: usize, a: char, fields: &Vec<Field>, k: usize, loc: &str,
    errors: &mut Vec<ValidationError>)
    requires
        p <= t@.len(),
    ensures
        errs_view(final(errors)@) == errs_view(old(errors)@) + when_side_errors(t@, p as nat, a, fields_desc(fields@), k as nat, loc@),
{
    let ghost o = errs_view(errors@);
    let lraw = sub_chars(t, 0, p);
    assert(lraw@ =~= t@.take(p as int));
    let left = trim_chars(lraw.as_slice());
    let rraw = sub_chars(t, p, t.len());
    assert(rraw@ =~= t@.skip(p as int));
    let rstrip = strip_pairs_exec(&rraw, a, '=');
    let right = trim_chars(rstrip.as_slice());
    let parts = split_dots_exec(&left);
    let base = last_nonempty_exec(&parts);
    let ghost e1: Seq<(Seq<char>, Seq<char>)>;
    match earlier_type_exec(fields, k, base.as_slice()) {
        Some(_) => {
            proof { e1 = Seq::empty(); }
        },
        None => {
            if parts.len() > 1 {
                assert(chars_view(parts@)[0] == parts@[0]@);
                match earlier_type_exec(fields, k, parts[0].as_slice()) {
                    Some(_) => {
                        proof { e1 = Seq::empty(); }
                    },
                    None => {
                        let mut reason = String::new();
                        push_str(&mut reason, "when表达式左侧 '");
                        push_chars(&mut reason, left.as_slice());
                        push_str(&mut reason, "' 不是已定义的字段路径");
                        push_err(errors, loc, reason);
                        proof { e1 = seq![(loc@, "when表达式左侧 '"@ + left@ + "' 不是已定义的字段路径"@)]; }
                    },
                }
            } else {
                let mut reason = String::new();
                push_str(&mut reason, "when表达式左侧 '");
                push_chars(&mut reason, left.as_slice());
                push_str(&mut reason, "' 不是已定义的字段");
                push_err(errors, loc, reason);
                proof { e1 = seq![(loc@, "when表达式左侧 '"@ + left@ + "' 不是已定义的字段"@)]; }
            }
        },
    }
    assert(errs_view(errors@) =~= o + e1);
    if !is_integer_literal_exec(right.as_slice()) {
        let mut reason = String::new();
        push_str(&mut reason, "when表达式右侧 '");
        push_chars(&mut reason, right.as_slice());
        push_str(&mut reason, "' 不是整数字面量");
        push_err(errors, loc, reason);
    }
    assert(errs_view(errors@) =~= o + when_side_errors(t@, p as nat, a, fields_desc(fields@), k as nat, loc@));
}

fn check_when(expr: &str, fields: &Vec<Field>, k: usize, loc: &str, errors: &mut Vec<ValidationError>)
    ensures
        errs_view(final(errors)@) == errs_view(old(errors)@) + when_errors(expr@, fields_desc(fields@), k as nat, loc@),
{
    let ec = chars_of(expr);
    let t = trim_chars(ec.as_slice());
    assert(t@ == trim(expr@));
    match find_pair_exec(&t, '!', '=') {
        Some(p) => {
            check_when_sides(&t, p, '!', fields, k, loc, errors);
        },
        None => match find_pair_exec(&t, '=', '=') {
            Some(p) => {
                check_when_sides(&t, p, '=', fields, k, loc, errors);
            },
            None => {
                let mut reason = String::new();
                push_str(&mut reason, "when表达式语法错误: 只允许 == 和 != 两种比较操作符");
                push_err(errors, loc, reason);
                assert(errs_view(errors@) =~= errs_view(old(errors)@) + when_errors(expr@, fields_desc(fields@), k as nat, loc@));
            },
        },
    }
}

// ---------------------------------------------------------------------
// Structs.
// ---------------------------------------------------------------------

/// Errors of field `k` of a struct, whose earlier fields are `fs[..k]`: its
/// offset (unless relative), its type, and its condition.
pub open spec fn field_errors(sname: Seq<char>, fs: Seq<FieldDesc>, k: nat, snames: Seq<Seq<char>>, enames: Seq<Seq<char>>)
    -> Seq<(Seq<char>, Seq<char>)>
{
    let f = fs[k as int];
    let loc = sname + "."@ + f.name;
    let e_off = match f.offset {
        Some(o) => if o == "relative"@ {
            Seq::empty()
        } else {
            ref_errors(identifiers(o), fs, k, loc, "offset表达式"@, identifiers(o).len())
        },
        None => Seq::empty(),
    };
    let e_when = match f.condition {
        Some(c) => when_errors(c, fs, k, loc),
        None => Seq::empty(),
    };
    e_off + type_errors(f.data_type, fs, k, loc, snames, enames) + e_when
}

/// Errors of the first `n` fields of a struct, in order.
pub open spec fn struct_errors(sd: StructDesc, n: nat, snames: Seq<Seq<char>>, enames: Seq<Seq<char>>)
    -> Seq<(Seq<char>, Seq<char>)>
    decreases n,
{
    if n == 0 || n > sd.fields.len() {
        Seq::empty()
    } else {
        struct_errors(sd, (n - 1) as nat, snames, enames) + field_errors(sd.name, sd.fields, (n - 1) as nat, snames, enames)
    }
}

pub open spec fn all_struct_errors(sd: StructDesc, snames: Seq<Seq<char>>, enames: Seq<Seq<char>>) -> Seq<(Seq<char>, Seq<char>)> {
    struct_errors(sd, sd.fields.len(), snames, enames)
}

fn check_struct(sd: &StructDefinition, snames: &Vec<String>, enames: &Vec<String>, errors: &mut Vec<ValidationError>)
    ensures
        errs_view(final(errors)@) == errs_view(old(errors)@)
            + all_struct_errors(struct_desc(*sd), names_view(snames@), names_view(enames@)),
{
    let ghost d = struct_desc(*sd);
    let ghost sn = names_view(snames@);
    let ghost en = names_view(enames@);
    let ghost o = errs_view(errors@);
    proof { reveal_strlit("relative"); }
    let mut k: usize = 0;
    while k < sd.fields.len()
        invariant
            k <= sd.fields@.len(),
            d == struct_desc(*sd),
            sn == names_view(snames@),
            en == names_view(enames@),
            errs_view(errors@) == o + struct_errors(d, k as nat, sn, en),
        decreases sd.fields@.len() - k,
    {
        let field = &sd.fields[k];
        assert(d.fields[k as int] == field_desc(*field));
        let mut loc = String::new();
        push_str(&mut loc, sd.name.as_str());
        push_str(&mut loc, ".");
        push_str(&mut loc, field.name.as_str());
        let ghost before = errs_view(errors@);
        match &field.offset {
            Some(off) => {
                if !str_eq(off.as_str(), "relative") {
                    check_refs(off.as_str(), &sd.fields, k, loc.as_str(), "offset表达式", errors);
                }
            },
            None => {},
        }
        let ghost after_off = errs_view(errors@);
        check_type(&field.data_type, &sd.fields, k, loc.as_str(), snames, enames, errors);
        let ghost after_ty = errs_view(errors@);
        match &field.condition {
            Some(c) => check_when(c.expression.as_str(), &sd.fields, k, loc.as_str(), errors),
            None => {},
        }
        assert(errs_view(errors@) =~= before + field_errors(d.name, d.fields, k as nat, sn, en));
        assert(errs_view(errors@) =~= o + struct_errors(d, (k + 1) as nat, sn, en));
        k = k + 1;
    }
}

// ---------------------------------------------------------------------
// Enums.
// ---------------------------------------------------------------------

/// The range of values a type can hold, as `i64`; (0, 255) for other types.
pub open spec fn type_range(t: TypeDesc) -> (i64, i64) {
    match t {
        TypeDesc::U8 => (0, 255),
        TypeDesc::U16 => (0, 65535),
        TypeDesc::U32 => (0, 4294967295),
        TypeDesc::U64 => (0, i64::MAX),
        TypeDesc::I8 => (-128i64, 127),
        TypeDesc::I16 => (-32768i64, 32767),
        TypeDesc::I32 => (-2147483648i64, 2147483647),
        TypeDesc::I64 => (i64::MIN, i64::MAX),
        _ => (0, 255),
    }
}

fn type_range_exec(dt: &DataType) -> (r: (i64, i64))
    ensures
        r == type_range(type_desc(*dt)),
{
    match dt {
        DataType::U8 => (0, 255),
        DataType::U16 => (0, 65535),
        DataType::U32 => (0, 4294967295),
        DataType::U64 => (0, i64::MAX),
        DataType::I8 => (-128, 127),
        DataType::I16 => (-32768, 32767),
        DataType::I32 => (-2147483648, 2147483647),
        DataType::I64 => (i64::MIN, i64::MAX),
        _ => (0, 255),
    }
}

/// The range of the enum's underlying type where this type reads the enum,
/// directly or as an array's element.
pub open spec fn type_enum_range(t: TypeDesc, ename: Seq<char>) -> Option<(i64, i64)> {
    match t {
        TypeDesc::Enum(n, u) => if n == ename { Some(type_range(*u)) } else { None },
        TypeDesc::Array(el, _) => match *el {
            TypeDesc::Enum(n, u) => if n == ename { Some(type_range(*u)) } else { None },
            _ => None,
        },
        _ => None,
    }
}

/// The first field from `i` on whose type reads the enum.
pub open spec fn fields_enum_range(fs: Seq<FieldDesc>, ename: Seq<char>, i: nat) -> Option<(i64, i64)>
    decreases fs.len() - i,
{
    if i >= fs.len() {
        None
    } else {
        match type_enum_range(fs[i as int].data_type, ename) {
            Some(r) => Some(r),
            None => fields_enum_range(fs, ename, i + 1),
        }
    }
}

/// The first struct from `i` on with such a field.
pub open spec fn structs_enum_range(ss: Seq<StructDesc>, ename: Seq<char>, i: nat) -> Option<(i64, i64)>
    decreases ss.len() - i,
{
    if i >= ss.len() {
        None
    } else {
        match fields_enum_range(ss[i as int].fields, ename, 0) {
            Some(r) => Some(r),
            None => structs_enum_range(ss, ename, i + 1),
        }
    }
}

/// The range an enum's values must lie in: that of the underlying type where
/// the enum is first used, the structs looked at before the root; (0, 255)
/// where it is not used.
pub open spec fn enum_range(fmt: FormatDesc, ename: Seq<char>) -> (i64, i64) {
    match structs_enum_range(fmt.structs, ename, 0) {
        Some(r) => r,
        None => match fields_enum_range(fmt.root.fields, ename, 0) {
            Some(r) => r,
            None => (0, 255),
        },
    }
}

fn type_enum_range_exec(dt: &DataType, ename: &str) -> (r: Option<(i64, i64)>)
    ensures
        r == type_enum_range(type_desc(*dt), ename@),
{
    proof { reveal_with_fuel(type_desc, 2); }
    match dt {
        DataType::Enum { name, underlying } => {
            assert(type_desc(*dt) == TypeDesc::Enum(name@, Box::new(type_desc(**underlying))));
            if str_eq(name.as_str(), ename) {
                let r = type_range_exec(&**underlying);
                assert(type_enum_range(type_desc(*dt), ename@) == Some(type_range(type_desc(**underlying))));
                Some(r)
            } else {
                assert(type_enum_range(type_desc(*dt), ename@) is None);
                None
            }
        },
        DataType::Array { element_type, .. } => match &**element_type {
            DataType::Enum { name, underlying } => {
                if str_eq(name.as_str(), ename) { Some(type_range_exec(&**underlying)) } else { None }
            },
            _ => None,
        },
        _ => None,
    }
}

fn fields_enum_range_exec(fields: &Vec<Field>, ename: &str) -> (r: Option<(i64, i64)>)
    ensures
        r == fields_enum_range(fields_desc(fields@), ename@, 0),
{
    let ghost fs = fields_desc(fields@);
    let mut i: usize = 0;
    while i < fields.len()
        invariant
            i <= fields@.len(),
            fs == fields_desc(fields@),
            fields_enum_range(fs, ename@, 0) == fields_enum_range(fs, ename@, i as nat),
        decreases fields@.len() - i,
    {
        assert(fs[i as int] == field_desc(fields@[i as int]));
        match type_enum_range_exec(&fields[i].data_type, ename) {
            Some(r) => return Some(r),
            None => {},
        }
        i = i + 1;
    }
    None
}

fn enum_range_exec(def: &FormatDefinition, ename: &str) -> (r: (i64, i64))
    ensures
        r == enum_range(format_desc(*def), ename@),
{
    let ghost ss = format_desc(*def).structs;
    let mut i: usize = 0;
    while i < def.structs.len()
        invariant
            i <= def.structs@.len(),
            ss == format_desc(*def).structs,
            structs_enum_range(ss, ename@, 0) == structs_enum_range(ss, ename@, i as nat),
        decreases def.structs@.len() - i,
    {
        assert(ss[i as int] == struct_desc(def.structs@[i as int]));
        match fields_enum_range_exec(&def.structs[i].fields, ename) {
            Some(r) => return r,
            None => {},
        }
        i = i + 1;
    }
    match fields_enum_range_exec(&def.root.fields, ename) {
        Some(r) => r,
        None => (0, 255),
    }
}

/// Errors for the first `n` values of an enum outside its range.
pub open spec fn enum_value_errors(e: EnumDesc, lo: i64, hi: i64, n: nat) -> Seq<(Seq<char>, Seq<char>)>
    decreases n,
{
    if n == 0 || n > e.values.len() {
        Seq::empty()
    } else {
        let prev = enum_value_errors(e, lo, hi, (n - 1) as nat);
        let (name, v) = e.values[n - 1];
        if v < lo || v > hi {
            prev.push((
                "枚举."@ + e.name + "."@ + name,
                "枚举值 "@ + signed_str(v as int) + " 超出underlying类型范围("@ + signed_str(lo as int) + "~"@
                    + signed_str(hi as int) + ")"@,
            ))
        } else {
            prev
        }
    }
}

pub open spec fn enum_errors(fmt: FormatDesc, e: EnumDesc) -> Seq<(Seq<char>, Seq<char>)> {
    let (lo, hi) = enum_range(fmt, e.name);
    enum_value_errors(e, lo, hi, e.values.len())
}

fn check_enum(ed: &EnumDefinition, def: &FormatDefinition, errors: &mut Vec<ValidationError>)
    ensures
        errs_view(final(errors)@) == errs_view(old(errors)@) + enum_errors(format_desc(*def), enum_desc(*ed)),
{
    let (lo, hi) = enum_range_exec(def, ed.name.as_str());
    let ghost e = enum_desc(*ed);
    let ghost o = errs_view(errors@);
    let mut i: usize = 0;
    while i < ed.values.len()
        invariant
            i <= ed.values@.len(),
            e == enum_desc(*ed),
            errs_view(errors@) == o + enum_value_errors(e, lo, hi, i as nat),
        decreases ed.values@.len() - i,
    {
        let (name, v) = &ed.values[i];
        assert(e.values[i as int] == (name@, *v));
        if *v < lo || *v > hi {
            let mut loc = String::new();
            push_str(&mut loc, "枚举.");
            push_str(&mut loc, ed.name.as_str());
            push_str(&mut loc, ".");
            push_str(&mut loc, name.as_str());
            let mut reason = String::new();
            push_str(&mut reason, "枚举值 ");
            push_signed(&mut reason, *v);
            push_str(&mut reason, " 超出underlying类型范围(");
            push_signed(&mut reason, lo);
            push_str(&mut reason, "~");
            push_signed(&mut reason, hi);
            push_str(&mut reason, ")");
            push_err(errors, loc.as_str(), reason);
        }
        assert(errs_view(errors@) =~= o + enum_value_errors(e, lo, hi, (i + 1) as nat));
        i = i + 1;
    }
}

// ---------------------------------------------------------------------
// The whole definition.
// ---------------------------------------------------------------------

/// The names a struct reference may use: the structs' and the root's.
pub open spec fn struct_names(fmt: FormatDesc) -> Seq<Seq<char>> {
    fmt.structs.map_values(|s: StructDesc| s.name).push(fmt.root.name)
}

pub open spec fn enum_names(fmt: FormatDesc) -> Seq<Seq<char>> {
    fmt.enums.map_values(|e: EnumDesc| e.name)
}

pub open spec fn structs_errors(fmt: FormatDesc, n: nat) -> Seq<(Seq<char>, Seq<char>)>
    decreases n,
{
    if n == 0 || n > fmt.structs.len() {
        Seq::empty()
    } else {
        structs_errors(fmt, (n - 1) as nat) + all_struct_errors(fmt.structs[n - 1], struct_names(fmt), enum_names(fmt))
    }
}

pub open spec fn enums_errors(fmt: FormatDesc, n: nat) -> Seq<(Seq<char>, Seq<char>)>
    decreases n,
{
    if n == 0 || n > fmt.enums.len() {
        Seq::empty()
    } else {
        enums_errors(fmt, (n - 1) as nat) + enum_errors(fmt, fmt.enums[n - 1])
    }
}

/// Every problem of a definition: the root's fields, then each struct's, then
/// each enum's values.
pub open spec fn validation_errors(fmt: FormatDesc) -> Seq<(Seq<char>, Seq<char>)> {
    all_struct_errors(fmt.root, struct_names(fmt), enum_names(fmt))
        + structs_errors(fmt, fmt.structs.len())
        + enums_errors(fmt, fmt.enums.len())
}

/// Checks a definition and lists every problem found, in order.
pub fn validate_format_definition(def: &FormatDefinition) -> (r: Vec<ValidationError>)
    ensures
        errs_view(r@) == validation_errors(format_desc(*def)),
{
    let ghost fmt = format_desc(*def);
    let mut snames: Vec<String> = Vec::new();
    let mut i: usize = 0;
    while i < def.structs.len()
        invariant
            i <= def.structs@.len(),
            fmt == format_desc(*def),
            snames@.len() == i,
            forall|j: int| 0 <= j < i ==> (#[trigger] snames@[j])@ == fmt.structs[j].name,
        decreases def.structs@.len() - i,
    {
        assert(fmt.structs[i as int] == struct_desc(def.structs@[i as int]));
        snames.push(owned(def.structs[i].name.as_str()));
        i = i + 1;
    }
    let ghost before = snames@;
    snames.push(owned(def.root.name.as_str()));
    assert(names_view(snames@) =~= struct_names(fmt));
    let mut enames: Vec<String> = Vec::new();
    let mut j: usize = 0;
    while j < def.enums.len()
        invariant
            j <= def.enums@.len(),
            fmt == format_desc(*def),
            enames@.len() == j,
            forall|q: int| 0 <= q < j ==> (#[trigger] enames@[q])@ == fmt.enums[q].name,
        decreases def.enums@.len() - j,
    {
        assert(fmt.enums[j as int] == enum_desc(def.enums@[j as int]));
        enames.push(owned(def.enums[j].name.as_str()));
        j = j + 1;
    }
    assert(names_view(enames@) =~= enum_names(fmt));
    let mut errors: Vec<ValidationError> = Vec::new();
    assert(errs_view(errors@) =~= Seq::<(Seq<char>, Seq<char>)>::empty());
    check_struct(&def.root, &snames, &enames, &mut errors);
    let ghost e0 = errs_view(errors@);
    let mut k: usize = 0;
    while k < def.structs.len()
        invariant
            k <= def.structs@.len(),
            fmt == format_desc(*def),
            names_view(snames@) == struct_names(fmt),
            names_view(enames@) == enum_names(fmt),
            errs_view(errors@) == e0 + structs_errors(fmt, k as nat),
        decreases def.structs@.len() - k,
    {
        assert(fmt.structs[k as int] == struct_desc(def.structs@[k as int]));
        check_struct(&def.structs[k], &snames, &enames, &mut errors);
        assert(errs_view(errors@) =~= e0 + structs_errors(fmt, (k + 1) as nat));
        k = k + 1;
    }
    let ghost e1 = errs_view(errors@);
    let mut m: usize = 0;
    while m < def.enums.len()
        invariant
            m <= def.enums@.len(),
            fmt == format_desc(*def),
            errs_view(errors@) == e1 + enums_errors(fmt, m as nat),
        decreases def.enums@.len() - m,
    {
        assert(fmt.enums[m as int] == enum_desc(def.enums@[m as int]));
        check_enum(&def.enums[m], def, &mut errors);
        assert(errs_view(errors@) =~= e1 + enums_errors(fmt, (m + 1) as nat));
        m = m + 1;
    }
    assert(errs_view(errors@) =~= validation_errors(fmt));
    errors
}

} // verus!
