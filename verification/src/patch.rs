use vstd::prelude::*;
use crate::dsl::{DataType, Endian, Field, StructDefinition, EnumDefinition, FormatDefinition};
use crate::parser::{ParsedValue, ParsedField, ParserError, ErrDesc, err_desc, parser_error_text, parse, parse_spec, format_bits_ok, ValueDesc, FieldOut, value_desc, field_out, utf8_lossy, lookup_enum, lookup_struct,
    lossy_text, lemma_children_out, fields_out, enum_display, enum_display_exec};
use crate::bytes::{u16_le, u32_le, u64_le, put_u16, put_u32, put_u64, bytes_nat, be_nat, le_nat, pow256, lemma_nat2, lemma_nat4, lemma_nat8};
use crate::intparse::{IntValueError, IntErrKind, parse_int, parse_int_spec, is_ws, is_ws_exec, trim, trim_chars,
    int_value_error_text, int_err_text, push_int_err, i128_text};
use crate::numfmt::{signed_str, push_signed, dec_str, push_dec};
use crate::text::{chars_of, owned, push_str, push_char, str_eq, string_from_chars};
use crate::display::{hex_bytes, TextPart, Piece, pieces, text, display_pieces};
use crate::expr::{starts_at, CtxValue, ctx_view, ctx_put, ctx_insert, short_key, short_key_chars, ctx_text, ctx_text_exec,
    replace_all, replace_chars, evalexpr_result, EvalOutcome, eval_text, sat_usize, float_bits_to_usize,
    contains_seq, contains_chars, names_risky_builtin, risky_builtin};
use crate::parser::{to_i64_spec, to_u64_spec, to_float_bits, wrapping_sum, copy_range, checksum_of, PState, parse_value_spec, lemma_fixed_read};
use crate::checksum::{crc32_of, adler32_of, byte_sum, crc32, adler32};
use crate::text::{parse_usize, parse_usize_spec};
use crate::dsl::first_named;

verus! {

// ---------------------------------------------------------------------
// Bytes of integers.
// ---------------------------------------------------------------------

pub open spec fn u16_be(v: u16) -> Seq<u8> {
    seq![(v / 256) as u8, (v % 256) as u8]
}

pub open spec fn u32_be(v: u32) -> Seq<u8> {
    seq![(v / 16777216) as u8, ((v / 65536) % 256) as u8, ((v / 256) % 256) as u8, (v % 256) as u8]
}

pub open spec fn u64_be(v: u64) -> Seq<u8> {
    u32_be((v / 4294967296) as u32) + u32_be((v % 4294967296) as u32)
}

/// The bytes of a 16-bit value in the given byte order.
pub open spec fn bytes16(v: u16, little: bool) -> Seq<u8> {
    if little { u16_le(v) } else { u16_be(v) }
}

pub open spec fn bytes32(v: u32, little: bool) -> Seq<u8> {
    if little { u32_le(v) } else { u32_be(v) }
}

pub open spec fn bytes64(v: u64, little: bool) -> Seq<u8> {
    if little { u64_le(v) } else { u64_be(v) }
}

fn put16(out: &mut Vec<u8>, v: u16, little: bool)
    ensures
        final(out)@ == old(out)@ + bytes16(v, little),
{
    if little {
        put_u16(out, v);
    } else {
        out.push((v / 256) as u8);
        out.push((v % 256) as u8);
        assert(final(out)@ =~= old(out)@ + u16_be(v));
    }
}

fn put32(out: &mut Vec<u8>, v: u32, little: bool)
    ensures
        final(out)@ == old(out)@ + bytes32(v, little),
{
    if little {
        put_u32(out, v);
    } else {
        out.push((v / 16777216) as u8);
        out.push(((v / 65536) % 256) as u8);
        out.push(((v / 256) % 256) as u8);
        out.push((v % 256) as u8);
        assert(final(out)@ =~= old(out)@ + u32_be(v));
    }
}

fn put64(out: &mut Vec<u8>, v: u64, little: bool)
    ensures
        final(out)@ == old(out)@ + bytes64(v, little),
{
    if little {
        put_u64(out, v);
    } else {
        put32(out, (v / 4294967296) as u32, false);
        put32(out, (v % 4294967296) as u32, false);
        assert(final(out)@ =~= old(out)@ + u64_be(v));
    }
}

// ---------------------------------------------------------------------
// Encoding new values.
// ---------------------------------------------------------------------

/// The integer types a value can be written as.
#[derive(Debug, Clone, Copy, PartialEq, Eq, Structural)]
pub enum IntKind {
    U8,
    U16,
    U32,
    U64,
    I8,
    I16,
    I32,
    I64,
}

pub open spec fn int_kind_name(k: IntKind) -> Seq<char> {
    match k {
        IntKind::U8 => "u8"@,
        IntKind::U16 => "u16"@,
        IntKind::U32 => "u32"@,
        IntKind::U64 => "u64"@,
        IntKind::I8 => "i8"@,
        IntKind::I16 => "i16"@,
        IntKind::I32 => "i32"@,
        IntKind::I64 => "i64"@,
    }
}

/// The range of values of an integer type.
pub open spec fn int_kind_min(k: IntKind) -> int {
    match k {
        IntKind::U8 | IntKind::U16 | IntKind::U32 | IntKind::U64 => 0,
        IntKind::I8 => i8::MIN as int,
        IntKind::I16 => i16::MIN as int,
        IntKind::I32 => i32::MIN as int,
        IntKind::I64 => i64::MIN as int,
    }
}

pub open spec fn int_kind_max(k: IntKind) -> int {
    match k {
        IntKind::U8 => u8::MAX as int,
        IntKind::U16 => u16::MAX as int,
        IntKind::U32 => u32::MAX as int,
        IntKind::U64 => u64::MAX as int,
        IntKind::I8 => i8::MAX as int,
        IntKind::I16 => i16::MAX as int,
        IntKind::I32 => i32::MAX as int,
        IntKind::I64 => i64::MAX as int,
    }
}

/// The bytes of an in-range value of an integer type, in the given order.
pub open spec fn int_bytes(k: IntKind, v: int, little: bool) -> Seq<u8> {
    match k {
        IntKind::U8 | IntKind::I8 => seq![(v as i64) as u8],
        IntKind::U16 | IntKind::I16 => bytes16((v as i64) as u16, little),
        IntKind::U32 | IntKind::I32 => bytes32((v as i64) as u32, little),
        IntKind::U64 | IntKind::I64 => bytes64((v as i128) as u64, little),
    }
}

/// The integer type of a data type, if it is one.
pub open spec fn int_kind_of(dt: DataType) -> Option<IntKind> {
    match dt {
        DataType::U8 => Some(IntKind::U8),
        DataType::U16 => Some(IntKind::U16),
        DataType::U32 => Some(IntKind::U32),
        DataType::U64 => Some(IntKind::U64),
        DataType::I8 => Some(IntKind::I8),
        DataType::I16 => Some(IntKind::I16),
        DataType::I32 => Some(IntKind::I32),
        DataType::I64 => Some(IntKind::I64),
        _ => None,
    }
}

/// Why a new value could not be encoded.
#[derive(Debug)]
pub enum EncodeError {
    /// The text did not read as a value of the field's integer type.
    Int { kind: IntKind, err: IntValueError },
    /// The text of a bytes field is not hex.
    BytesHex(HexError),
    BytesLength { expected: usize, actual: usize },
    EnumNotFound(String),
    /// The text is neither a value name nor an integer; the names are listed.
    EnumValue { err: IntValueError, names: Vec<String> },
    MissingEnumDefinition,
    /// A value outside the range of the enum's underlying type.
    OutOfRange { kind: IntKind, value: i64 },
    UnsupportedIntType,
    BitFieldUnsupported,
    ArrayUnsupported,
    StructUnsupported,
    /// A float field whose new text does not read as a float of its width:
    /// the parse error's message.
    FloatField { double: bool, message: String },
}

/// An error of `hex::FromHex`.
#[derive(Debug, Clone, Copy, PartialEq, Eq, Structural)]
pub enum HexError {
    InvalidHexCharacter { c: char, index: usize },
    OddLength,
    InvalidStringLength,
}

pub open spec fn hex_val(b: u8) -> Option<u8> {
    if 0x30 <= b <= 0x39 { Some((b - 0x30) as u8) }
    else if 0x41 <= b <= 0x46 { Some((b - 0x41 + 10) as u8) }
    else if 0x61 <= b <= 0x66 { Some((b - 0x61 + 10) as u8) }
    else { None }
}

/// The bytes of the first `n` digit pairs, or the first bad digit.
pub open spec fn hex_pairs(h: Seq<u8>, n: nat) -> Result<Seq<u8>, HexError>
    decreases n,
{
    if n == 0 || 2 * n > h.len() {
        Ok(Seq::empty())
    } else {
        match hex_pairs(h, (n - 1) as nat) {
            Err(e) => Err(e),
            Ok(bs) => {
                let i = 2 * (n - 1);
                match hex_val(h[i]) {
                    None => Err(HexError::InvalidHexCharacter { c: h[i] as char, index: i as usize }),
                    Some(hi) => match hex_val(h[i + 1]) {
                        None => Err(HexError::InvalidHexCharacter { c: h[i + 1] as char, index: (i + 1) as usize }),
                        Some(lo) => Ok(bs.push((hi * 16 + lo) as u8)),
                    },
                }
            },
        }
    }
}

/// What `Vec::<u8>::from_hex` gives for some bytes of text.
pub open spec fn hex_decode_spec(h: Seq<u8>) -> Result<Seq<u8>, HexError> {
    if h.len() % 2 != 0 { Err(HexError::OddLength) } else { hex_pairs(h, h.len() / 2) }
}

/// Decodes hex text with `hex::FromHex` for `Vec<u8>`: an odd length is refused,
/// else the first character that is not a hex digit, else two digits make a byte.
#[verifier::external_body]
pub(crate) fn hex_decode(s: &str) -> (r: Result<Vec<u8>, HexError>)
    ensures
        match hex_decode_spec(vstd::utf8::encode_utf8(s@)) {
            Ok(b) => (r matches Ok(v) && v@ == b),
            Err(e) => r == Err::<Vec<u8>, HexError>(e),
        },
{
    match <Vec<u8> as hex::FromHex>::from_hex(s) {
        Ok(v) => Ok(v),
        Err(hex::FromHexError::InvalidHexCharacter { c, index }) => Err(HexError::InvalidHexCharacter { c, index }),
        Err(hex::FromHexError::OddLength) => Err(HexError::OddLength),
        Err(hex::FromHexError::InvalidStringLength) => Err(HexError::InvalidStringLength),
    }
}

/// Writes an integer as a data type, checking its range for the narrower types.
pub open spec fn encode_int_spec(dt: DataType, v: i64, little: bool) -> Result<(Seq<u8>, Seq<char>), EncodeError> {
    match int_kind_of(dt) {
        None => Err(EncodeError::UnsupportedIntType),
        Some(k) => if (k != IntKind::U64 && k != IntKind::I64) && (v < int_kind_min(k) || v > int_kind_max(k)) {
            Err(EncodeError::OutOfRange { kind: k, value: v })
        } else {
            Ok((int_bytes(k, v as int, little), signed_str(v as int)))
        },
    }
}

pub fn encode_int_by_type(dt: &DataType, v: i64, endian: Endian) -> (r: Result<(Vec<u8>, String), EncodeError>)
    ensures
        match encode_int_spec(*dt, v, endian == Endian::Little) {
            Ok((b, t)) => (r matches Ok(x) && x.0@ == b && x.1@ == t),
            Err(e) => r == Err::<(Vec<u8>, String), EncodeError>(e),
        },
{
    let little = endian == Endian::Little;
    let kind = match dt {
        DataType::U8 => IntKind::U8,
        DataType::U16 => IntKind::U16,
        DataType::U32 => IntKind::U32,
        DataType::U64 => IntKind::U64,
        DataType::I8 => IntKind::I8,
        DataType::I16 => IntKind::I16,
        DataType::I32 => IntKind::I32,
        DataType::I64 => IntKind::I64,
        _ => return Err(EncodeError::UnsupportedIntType),
    };
    let (lo, hi): (i64, i64) = match kind {
        IntKind::U8 => (0, 255),
        IntKind::U16 => (0, 65535),
        IntKind::U32 => (0, 4294967295),
        IntKind::I8 => (-128, 127),
        IntKind::I16 => (-32768, 32767),
        IntKind::I32 => (-2147483648, 2147483647),
        _ => (i64::MIN, i64::MAX),
    };
    if v < lo || v > hi {
        return Err(EncodeError::OutOfRange { kind, value: v });
    }
    let mut out: Vec<u8> = Vec::new();
    match kind {
        IntKind::U8 | IntKind::I8 => out.push(v as u8),
        IntKind::U16 | IntKind::I16 => put16(&mut out, v as u16, little),
        IntKind::U32 | IntKind::I32 => put32(&mut out, v as u32, little),
        _ => put64(&mut out, v as u64, little),
    }
    assert(out@ =~= int_bytes(kind, v as int, little));
    let mut t = String::new();
    push_signed(&mut t, v);
    Ok((out, t))
}

/// An error of encoding, with texts as character sequences.
pub enum EncodeErrDesc {
    Int { kind: IntKind, err: IntValueError },
    BytesHex(HexError),
    BytesLength { expected: usize, actual: usize },
    EnumNotFound(Seq<char>),
    EnumValue { err: IntValueError, names: Seq<Seq<char>> },
    MissingEnumDefinition,
    OutOfRange { kind: IntKind, value: i64 },
    UnsupportedIntType,
    BitFieldUnsupported,
    ArrayUnsupported,
    StructUnsupported,
    FloatField { double: bool, message: Seq<char> },
}

pub open spec fn encode_err_desc(e: EncodeError) -> EncodeErrDesc {
    match e {
        EncodeError::Int { kind, err } => EncodeErrDesc::Int { kind, err },
        EncodeError::BytesHex(h) => EncodeErrDesc::BytesHex(h),
        EncodeError::BytesLength { expected, actual } => EncodeErrDesc::BytesLength { expected, actual },
        EncodeError::EnumNotFound(n) => EncodeErrDesc::EnumNotFound(n@),
        EncodeError::EnumValue { err, names } => EncodeErrDesc::EnumValue { err, names: names_view(names@) },
        EncodeError::MissingEnumDefinition => EncodeErrDesc::MissingEnumDefinition,
        EncodeError::OutOfRange { kind, value } => EncodeErrDesc::OutOfRange { kind, value },
        EncodeError::UnsupportedIntType => EncodeErrDesc::UnsupportedIntType,
        EncodeError::BitFieldUnsupported => EncodeErrDesc::BitFieldUnsupported,
        EncodeError::ArrayUnsupported => EncodeErrDesc::ArrayUnsupported,
        EncodeError::StructUnsupported => EncodeErrDesc::StructUnsupported,
        EncodeError::FloatField { double, message } => EncodeErrDesc::FloatField { double, message: message@ },
    }
}

pub open spec fn int_err_desc(e: EncodeErrDesc) -> EncodeErrDesc { e }

pub open spec fn names_view(v: Seq<String>) -> Seq<Seq<char>> {
    v.map_values(|n: String| n@)
}

pub open spec fn keys_view(vs: Seq<(String, i64)>) -> Seq<Seq<char>> {
    vs.map_values(|p: (String, i64)| p.0@)
}

/// The value of the first enum entry named `k`.
pub open spec fn key_value(vs: Seq<(String, i64)>, k: Seq<char>) -> Option<i64>
    decreases vs.len(),
{
    if vs.len() == 0 {
        None
    } else {
        match key_value(vs.drop_last(), k) {
            Some(v) => Some(v),
            None => if vs.last().0@ == k { Some(vs.last().1) } else { None },
        }
    }
}

/// Writing an enum value as the field's underlying type.
pub open spec fn encode_enum_spec(fd: Option<Field>, v: i64) -> Result<(Seq<u8>, Seq<char>), EncodeErrDesc> {
    match fd {
        Some(f) => match f.data_type {
            DataType::Enum { underlying, .. } => match encode_int_spec(*underlying, v, f.endian == Endian::Little) {
                Ok(x) => Ok(x),
                Err(e) => Err(encode_err_desc(e)),
            },
            _ => Err(EncodeErrDesc::MissingEnumDefinition),
        },
        None => Err(EncodeErrDesc::MissingEnumDefinition),
    }
}

/// The characters of `s` other than whitespace.
pub open spec fn strip_ws(s: Seq<char>) -> Seq<char>
    decreases s.len(),
{
    if s.len() == 0 { s } else if is_ws(s.last()) { strip_ws(s.drop_last()) } else { strip_ws(s.drop_last()).push(s.last()) }
}

/// The bytes of a string value: its UTF-8 bytes cut or padded with zeros to `len`.
pub open spec fn fit_bytes(u: Seq<u8>, len: nat) -> Seq<u8> {
    if u.len() < len { u + Seq::new((len - u.len()) as nat, |i: int| 0u8) } else { u.take(len as int) }
}

pub open spec fn int_kind_of_value(v: ValueDesc) -> Option<IntKind> {
    match v {
        ValueDesc::U8(_) => Some(IntKind::U8),
        ValueDesc::U16(_) => Some(IntKind::U16),
        ValueDesc::U32(_) => Some(IntKind::U32),
        ValueDesc::U64(_) => Some(IntKind::U64),
        ValueDesc::I8(_) => Some(IntKind::I8),
        ValueDesc::I16(_) => Some(IntKind::I16),
        ValueDesc::I32(_) => Some(IntKind::I32),
        ValueDesc::I64(_) => Some(IntKind::I64),
        _ => None,
    }
}

/// The byte length of an integer type.
pub open spec fn int_kind_size(k: IntKind) -> nat {
    match k {
        IntKind::U8 | IntKind::I8 => 1,
        IntKind::U16 | IntKind::I16 => 2,
        IntKind::U32 | IntKind::I32 => 4,
        IntKind::U64 | IntKind::I64 => 8,
    }
}

/// The number that stores `v` in `n` bytes: `v` itself, or its two's
/// complement where it is negative.
pub open spec fn stored_number(v: int, n: nat) -> int {
    if v < 0 { v + pow256(n) } else { v }
}

proof fn lemma_bytes16_nat(w: u16, little: bool)
    ensures
        bytes16(w, little).len() == 2,
        bytes_nat(bytes16(w, little), little) == w,
{
    lemma_nat2(bytes16(w, little));
    assert((w % 256) + 256 * (w / 256) == w) by (nonlinear_arith);
}

proof fn lemma_bytes32_nat(w: u32, little: bool)
    ensures
        bytes32(w, little).len() == 4,
        bytes_nat(bytes32(w, little), little) == w,
{
    lemma_nat4(bytes32(w, little));
    assert((w % 256) + 256 * ((w / 256) % 256) + 65536 * ((w / 65536) % 256) + 16777216 * (w / 16777216) == w) by (nonlinear_arith);
    assert(w / 16777216 < 256) by (nonlinear_arith);
}

proof fn lemma_bytes64_nat(w: u64, little: bool)
    ensures
        bytes64(w, little).len() == 8,
        bytes_nat(bytes64(w, little), little) == w,
{
    let b = bytes64(w, little);
    let lo = (w % 4294967296) as u32;
    let hi = (w / 4294967296) as u32;
    assert(w / 4294967296 < 4294967296) by (nonlinear_arith);
    lemma_bytes32_nat(lo, little);
    lemma_bytes32_nat(hi, little);
    lemma_nat8(b);
    lemma_nat4(b.subrange(0, 4));
    lemma_nat4(b.subrange(4, 8));
    if little {
        assert(b.subrange(0, 4) =~= bytes32(lo, true));
        assert(b.subrange(4, 8) =~= bytes32(hi, true));
    } else {
        assert(b.subrange(0, 4) =~= bytes32(hi, false));
        assert(b.subrange(4, 8) =~= bytes32(lo, false));
    }
    assert(lo + 4294967296 * hi == w) by (nonlinear_arith)
        requires lo == w % 4294967296, hi == w / 4294967296;
}

/// A new value for an integer field is written as the number it reads as,
/// in range for the field's type, stored in as many bytes as the type has and
/// in the field's declared byte order: most significant byte first for a
/// big-endian field, least significant first otherwise; a negative value as
/// its two's complement.
pub proof fn lemma_encode_int(field: FieldOut, fd: Option<Field>, s: Seq<char>, fl: FloatDesc, fmt: FormatDefinition,
    k: IntKind, b: Seq<u8>, t: Seq<char>)
    requires
        int_kind_of_value(field.value) == Some(k),
        encode_value_spec(field, fd, s, fl, fmt) == Ok::<(Seq<u8>, Seq<char>), EncodeErrDesc>((b, t)),
    ensures
        parse_int_spec(s, int_kind_min(k) as i128, int_kind_max(k) as i128) matches Ok(v) && {
            let big = fd matches Some(f) && f.endian == Endian::Big;
            &&& int_kind_min(k) <= v <= int_kind_max(k)
            &&& b.len() == int_kind_size(k)
            &&& (big ==> be_nat(b) == stored_number(v as int, int_kind_size(k)))
            &&& (!big ==> le_nat(b) == stored_number(v as int, int_kind_size(k)))
        },
{
    let little = match fd { Some(f) => f.endian == Endian::Little, None => true };
    let v = parse_int_spec(s, int_kind_min(k) as i128, int_kind_max(k) as i128).unwrap();
    let x = v as int;
    reveal_with_fuel(pow256, 9);
    assert(pow256(1) == 256 && pow256(2) == 65536 && pow256(4) == 4294967296);
    assert(pow256(8) == 18446744073709551616);
    match k {
        IntKind::U8 | IntKind::I8 => {
            let y = v as i64;
            assert(-128 <= y <= 255 ==> (y as u8) == (if y < 0 { y + 256 } else { y as int })) by (bit_vector);
            assert(b =~= seq![y as u8]);
            assert(le_nat(b.drop_first()) == 0);
            assert(be_nat(b.drop_last()) == 0);
        },
        IntKind::U16 | IntKind::I16 => {
            let y = v as i64;
            assert(-32768 <= y <= 65535 ==> (y as u16) == (if y < 0 { y + 65536 } else { y as int })) by (bit_vector);
            lemma_bytes16_nat(y as u16, little);
        },
        IntKind::U32 | IntKind::I32 => {
            let y = v as i64;
            assert(-2147483648 <= y <= 4294967295 ==> (y as u32) == (if y < 0 { y + 4294967296 } else { y as int })) by (bit_vector);
            lemma_bytes32_nat(y as u32, little);
        },
        IntKind::U64 | IntKind::I64 => {
            let y = v as i128;
            assert(-9223372036854775808 <= y <= 18446744073709551615 ==> (y as u64) == (if y < 0 { y + 18446744073709551616 } else { y as int })) by (bit_vector);
            lemma_bytes64_nat(y as u64, little);
        },
    }
}

/// A new value for a float field is written as the bits its text reads as, in
/// as many bytes as the float has and in the field's declared byte order: most
/// significant byte first for a big-endian field, least significant first
/// otherwise; it shows as the text the reading gave.
pub proof fn lemma_encode_float(field: FieldOut, fd: Option<Field>, s: Seq<char>, fl: FloatDesc, fmt: FormatDefinition,
    b: Seq<u8>, t: Seq<char>)
    requires
        encode_value_spec(field, fd, s, fl, fmt) == Ok::<(Seq<u8>, Seq<char>), EncodeErrDesc>((b, t)),
    ensures
        field.value is F32 ==> (fl.single matches Ok((bits, shown)) && t == shown && b.len() == 4
            && bytes_nat(b, !(fd matches Some(f) && f.endian == Endian::Big)) == bits),
        field.value is F64 ==> (fl.double matches Ok((bits, shown)) && t == shown && b.len() == 8
            && bytes_nat(b, !(fd matches Some(f) && f.endian == Endian::Big)) == bits),
{
    let little = match fd { Some(f) => f.endian == Endian::Little, None => true };
    if field.value is F32 {
        lemma_bytes32_nat(fl.single->Ok_0.0, little);
    }
    if field.value is F64 {
        lemma_bytes64_nat(fl.double->Ok_0.0, little);
    }
}

/// The integer type a data type reads as, if it is one.
pub open spec fn kind_type(k: IntKind) -> DataType {
    match k {
        IntKind::U8 => DataType::U8,
        IntKind::U16 => DataType::U16,
        IntKind::U32 => DataType::U32,
        IntKind::U64 => DataType::U64,
        IntKind::I8 => DataType::I8,
        IntKind::I16 => DataType::I16,
        IntKind::I32 => DataType::I32,
        IntKind::I64 => DataType::I64,
    }
}

/// The integer a read value holds, if it is an integer.
pub open spec fn int_of_value(v: ValueDesc) -> Option<int> {
    match v {
        ValueDesc::U8(x) => Some(x as int),
        ValueDesc::U16(x) => Some(x as int),
        ValueDesc::U32(x) => Some(x as int),
        ValueDesc::U64(x) => Some(x as int),
        ValueDesc::I8(x) => Some(x as int),
        ValueDesc::I16(x) => Some(x as int),
        ValueDesc::I32(x) => Some(x as int),
        ValueDesc::I64(x) => Some(x as int),
        _ => None,
    }
}

/// Writing then reading: the bytes a new value of an integer field is written
/// as, read back as the field's type in the field's declared byte order, give
/// the value its text reads as.
pub proof fn lemma_encode_then_read(field: FieldOut, f: Field, s: Seq<char>, fl: FloatDesc, fmt: FormatDefinition,
    k: IntKind, b: Seq<u8>, t: Seq<char>, st: PState, path: Seq<char>, fuel: nat)
    requires
        int_kind_of_value(field.value) == Some(k),
        f.data_type == kind_type(k),
        encode_value_spec(field, Some(f), s, fl, fmt) == Ok::<(Seq<u8>, Seq<char>), EncodeErrDesc>((b, t)),
    ensures
        parse_value_spec(b, fmt, st, f.data_type, f.endian == Endian::Little, 0, path, fuel).1 matches Ok((x, n))
            && n == b.len()
            && (parse_int_spec(s, int_kind_min(k) as i128, int_kind_max(k) as i128) matches Ok(v)
            && int_of_value(x) == Some(v as int)),
{
    lemma_encode_int(field, Some(f), s, fl, fmt, k, b, t);
    let little = f.endian == Endian::Little;
    lemma_fixed_read(b, fmt, st, f.data_type, little, 0, path, fuel);
    assert(b.subrange(0, b.len() as int) =~= b);
    reveal_with_fuel(pow256, 9);
    assert(pow256(1) == 256 && pow256(2) == 65536 && pow256(4) == 4294967296);
    assert(pow256(8) == 18446744073709551616);
    if k == IntKind::U8 || k == IntKind::I8 {
        assert(le_nat(b.drop_first()) == 0);
        assert(be_nat(b.drop_last()) == 0);
    }
}

/// What the text of a new value reads as when it is written to a float field.
/// Reading floats is left to the caller: for each width it hands over the bits
/// of the value and the text the value shows as, or the parse error's message.
#[derive(Debug)]
pub struct FloatReading {
    pub single: Result<(u32, String), String>,
    pub double: Result<(u64, String), String>,
}

pub struct FloatDesc {
    pub single: Result<(u32, Seq<char>), Seq<char>>,
    pub double: Result<(u64, Seq<char>), Seq<char>>,
}

pub open spec fn float_desc(f: FloatReading) -> FloatDesc {
    FloatDesc {
        single: match f.single { Ok((b, t)) => Ok((b, t@)), Err(m) => Err(m@) },
        double: match f.double { Ok((b, t)) => Ok((b, t@)), Err(m) => Err(m@) },
    }
}

/// The bytes and the display text of a new value for a field, or why it cannot
/// be written; `fl` is what the text reads as for a float field.
pub open spec fn encode_value_spec(field: FieldOut, fd: Option<Field>, s: Seq<char>, fl: FloatDesc, fmt: FormatDefinition)
    -> Result<(Seq<u8>, Seq<char>), EncodeErrDesc>
{
    let little = match fd { Some(f) => f.endian == Endian::Little, None => true };
    match int_kind_of_value(field.value) {
        Some(k) => match parse_int_spec(s, int_kind_min(k) as i128, int_kind_max(k) as i128) {
            Err(e) => Err(EncodeErrDesc::Int { kind: k, err: e }),
            Ok(v) => Ok((int_bytes(k, v as int, little), signed_str(v as int))),
        },
        None => match field.value {
            ValueDesc::F32(_) => match fl.single {
                Ok((bits, t)) => Ok((bytes32(bits, little), t)),
                Err(m) => Err(EncodeErrDesc::FloatField { double: false, message: m }),
            },
            ValueDesc::F64(_) => match fl.double {
                Ok((bits, t)) => Ok((bytes64(bits, little), t)),
                Err(m) => Err(EncodeErrDesc::FloatField { double: true, message: m }),
            },
            ValueDesc::Bytes(orig) => match hex_decode_spec(vstd::utf8::encode_utf8(strip_ws(s))) {
                Err(e) => Err(EncodeErrDesc::BytesHex(e)),
                Ok(b) => if b.len() != orig.len() {
                    Err(EncodeErrDesc::BytesLength { expected: orig.len() as usize, actual: b.len() as usize })
                } else {
                    Ok((b, "["@ + hex_bytes(b) + "]"@))
                },
            },
            ValueDesc::Text(_) => {
                let b = fit_bytes(vstd::utf8::encode_utf8(s), field.length as nat);
                Ok((b, utf8_lossy(b)))
            },
            ValueDesc::Enum(name, _, _) => match lookup_enum(fmt, name) {
                None => Err(EncodeErrDesc::EnumNotFound(name)),
                Some(ed) => {
                    let iv = match key_value(ed.values@, s) {
                        Some(v) => Ok(v),
                        None => match parse_int_spec(s, i64::MIN as i128, i64::MAX as i128) {
                            Ok(v) => Ok(v as i64),
                            Err(e) => Err(EncodeErrDesc::EnumValue { err: e, names: keys_view(ed.values@) }),
                        },
                    };
                    match iv {
                        Err(e) => Err(e),
                        Ok(v) => match encode_enum_spec(fd, v) {
                            Err(e) => Err(e),
                            Ok((b, _)) => Ok((b, enum_display(ed.values@, v))),
                        },
                    }
                },
            },
            ValueDesc::BitField(_) => Err(EncodeErrDesc::BitFieldUnsupported),
            ValueDesc::Array(_) => Err(EncodeErrDesc::ArrayUnsupported),
            _ => Err(EncodeErrDesc::StructUnsupported),
        },
    }
}

fn encode_enum_underlying(fd: Option<&Field>, v: i64) -> (r: Result<(Vec<u8>, String), EncodeError>)
    ensures
        match encode_enum_spec(match fd { Some(f) => Some(*f), None => None }, v) {
            Ok((b, t)) => (r matches Ok(x) && x.0@ == b && x.1@ == t),
            Err(e) => (r matches Err(x) && encode_err_desc(x) == e),
        },
{
    match fd {
        Some(f) => match &f.data_type {
            DataType::Enum { underlying, .. } => encode_int_by_type(underlying, v, f.endian),
            _ => Err(EncodeError::MissingEnumDefinition),
        },
        None => Err(EncodeError::MissingEnumDefinition),
    }
}

fn strip_ws_exec(s: &str) -> (r: String)
    ensures
        r@ == strip_ws(s@),
{
    let cs = chars_of(s);
    let mut out = String::new();
    let mut i: usize = 0;
    while i < cs.len()
        invariant
            i <= cs@.len(),
            cs@ == s@,
            out@ == strip_ws(cs@.take(i as int)),
        decreases cs@.len() - i,
    {
        assert(cs@.take(i + 1).drop_last() =~= cs@.take(i as int));
        if !is_ws_exec(cs[i]) {
            push_char(&mut out, cs[i]);
        }
        i = i + 1;
    }
    assert(cs@.take(cs@.len() as int) =~= cs@);
    out
}

fn fit_bytes_exec(s: &str, len: usize) -> (r: Vec<u8>)
    ensures
        r@ == fit_bytes(vstd::utf8::encode_utf8(s@), len as nat),
{
    let b = s.as_bytes();
    let mut out: Vec<u8> = Vec::new();
    let mut i: usize = 0;
    while i < len
        invariant
            i <= len,
            b@ == vstd::utf8::encode_utf8(s@),
            out@ == fit_bytes(b@, len as nat).take(i as int),
        decreases len - i,
    {
        let x: u8 = if i < b.len() { b[i] } else { 0 };
        assert(fit_bytes(b@, len as nat)[i as int] == x);
        out.push(x);
        assert(fit_bytes(b@, len as nat).take(i + 1) =~= fit_bytes(b@, len as nat).take(i as int).push(x));
        i = i + 1;
    }
    assert(fit_bytes(b@, len as nat).take(len as int) =~= fit_bytes(b@, len as nat));
    out
}

fn key_value_exec(vs: &Vec<(String, i64)>, k: &str) -> (r: Option<i64>)
    ensures
        r == key_value(vs@, k@),
{
    let mut i: usize = 0;
    while i < vs.len()
        invariant
            i <= vs@.len(),
            key_value(vs@.take(i as int), k@) is None,
        decreases vs@.len() - i,
    {
        assert(vs@.take(i + 1).drop_last() =~= vs@.take(i as int));
        if str_eq(vs[i].0.as_str(), k) {
            proof { lemma_key_value_prefix(vs@, i + 1, k@); }
            return Some(vs[i].1);
        }
        i = i + 1;
    }
    assert(vs@.take(vs@.len() as int) =~= vs@);
    None
}

proof fn lemma_key_value_prefix(vs: Seq<(String, i64)>, n: int, k: Seq<char>)
    requires
        0 < n <= vs.len(),
        key_value(vs.take(n), k) is Some,
    ensures
        key_value(vs, k) == key_value(vs.take(n), k),
    decreases vs.len() - n,
{
    if n < vs.len() {
        assert(vs.take(n + 1).drop_last() =~= vs.take(n));
        lemma_key_value_prefix(vs, n + 1, k);
    } else {
        assert(vs.take(n) =~= vs);
    }
}

fn enum_names(vs: &Vec<(String, i64)>) -> (r: Vec<String>)
    ensures
        names_view(r@) == keys_view(vs@),
{
    let mut out: Vec<String> = Vec::new();
    let mut i: usize = 0;
    while i < vs.len()
        invariant
            i <= vs@.len(),
            names_view(out@) == keys_view(vs@.take(i as int)),
        decreases vs@.len() - i,
    {
        let ghost before = out@;
        let name = vs[i].0.clone();
        assert(name@ == vs@[i as int].0@);
        out.push(name);
        assert(out@ == before.push(name));
        assert(names_view(before).len() == i);
        assert forall|j: int| 0 <= j < i + 1 implies #[trigger] names_view(out@)[j] == keys_view(vs@.take(i + 1))[j] by {
            if j < i {
                assert(names_view(before)[j] == keys_view(vs@.take(i as int))[j]);
                assert(out@[j] == before[j]);
            } else {
                assert(out@[j] == name);
            }
        }
        assert(names_view(out@) =~= keys_view(vs@.take(i + 1)));
        i = i + 1;
    }
    assert(vs@.take(vs@.len() as int) =~= vs@);
    out
}

fn int_kind_of_exec(v: &ParsedValue) -> (r: Option<IntKind>)
    ensures
        r == int_kind_of_value(value_desc(*v)),
{
    match v {
        ParsedValue::U8(_) => Some(IntKind::U8),
        ParsedValue::U16(_) => Some(IntKind::U16),
        ParsedValue::U32(_) => Some(IntKind::U32),
        ParsedValue::U64(_) => Some(IntKind::U64),
        ParsedValue::I8(_) => Some(IntKind::I8),
        ParsedValue::I16(_) => Some(IntKind::I16),
        ParsedValue::I32(_) => Some(IntKind::I32),
        ParsedValue::I64(_) => Some(IntKind::I64),
        _ => None,
    }
}

/// Encodes the text of a new value for a field; returns its bytes and how it shows.
pub fn encode_value(field: &ParsedField, field_def: Option<&Field>, new_value_str: &str, float_value: &FloatReading,
    format_def: &FormatDefinition) -> (r: Result<(Vec<u8>, String), EncodeError>)
    ensures
        match encode_value_spec(field_out(*field), match field_def { Some(f) => Some(*f), None => None }, new_value_str@,
            float_desc(*float_value), *format_def) {
            Ok((b, t)) => (r matches Ok(x) && x.0@ == b && x.1@ == t),
            Err(e) => (r matches Err(x) && encode_err_desc(x) == e),
        },
{
    let little = match field_def {
        Some(f) => f.endian == Endian::Little,
        None => true,
    };
    match int_kind_of_exec(&field.value) {
        Some(k) => {
            let (lo, hi): (i128, i128) = match k {
                IntKind::U8 => (0, 255),
                IntKind::U16 => (0, 65535),
                IntKind::U32 => (0, 4294967295),
                IntKind::U64 => (0, 18446744073709551615),
                IntKind::I8 => (-128, 127),
                IntKind::I16 => (-32768, 32767),
                IntKind::I32 => (-2147483648, 2147483647),
                IntKind::I64 => (-9223372036854775808, 9223372036854775807),
            };
            let v = match parse_int(new_value_str, lo, hi) {
                Ok(v) => v,
                Err(e) => return Err(EncodeError::Int { kind: k, err: e }),
            };
            let mut out: Vec<u8> = Vec::new();
            match k {
                IntKind::U8 | IntKind::I8 => out.push((v as i64) as u8),
                IntKind::U16 | IntKind::I16 => put16(&mut out, (v as i64) as u16, little),
                IntKind::U32 | IntKind::I32 => put32(&mut out, (v as i64) as u32, little),
                _ => put64(&mut out, v as u64, little),
            }
            assert(out@ =~= int_bytes(k, v as int, little));
            let mut t = String::new();
            push_i128(&mut t, v);
            return Ok((out, t));
        },
        None => {},
    }
    match &field.value {
        ParsedValue::F32(_) => match &float_value.single {
            Ok((bits, t)) => {
                let mut out: Vec<u8> = Vec::new();
                put32(&mut out, *bits, little);
                assert(out@ =~= bytes32(*bits, little));
                Ok((out, t.clone()))
            },
            Err(m) => Err(EncodeError::FloatField { double: false, message: m.clone() }),
        },
        ParsedValue::F64(_) => match &float_value.double {
            Ok((bits, t)) => {
                let mut out: Vec<u8> = Vec::new();
                put64(&mut out, *bits, little);
                assert(out@ =~= bytes64(*bits, little));
                Ok((out, t.clone()))
            },
            Err(m) => Err(EncodeError::FloatField { double: true, message: m.clone() }),
        },
        ParsedValue::Bytes(orig) => {
            let cleaned = strip_ws_exec(new_value_str);
            let bytes = match hex_decode(cleaned.as_str()) {
                Ok(b) => b,
                Err(e) => return Err(EncodeError::BytesHex(e)),
            };
            if bytes.len() != orig.len() {
                return Err(EncodeError::BytesLength { expected: orig.len(), actual: bytes.len() });
            }
            let mut t = String::new();
            push_str(&mut t, "[");
            push_hex_list(&mut t, bytes.as_slice());
            push_str(&mut t, "]");
            Ok((bytes, t))
        },
        ParsedValue::String(_) => {
            let b = fit_bytes_exec(new_value_str, field.length);
            let t = lossy_text(b.as_slice());
            Ok((b, t))
        },
        ParsedValue::Enum { name, .. } => {
            let ed = match format_def.get_enum(name.as_str()) {
                Some(ed) => ed,
                None => return Err(EncodeError::EnumNotFound(name.clone())),
            };
            let iv: i64 = match key_value_exec(&ed.values, new_value_str) {
                Some(v) => v,
                None => match parse_int(new_value_str, -9223372036854775808, 9223372036854775807) {
                    Ok(v) => v as i64,
                    Err(e) => return Err(EncodeError::EnumValue { err: e, names: enum_names(&ed.values) }),
                },
            };
            let display = enum_display_exec(&ed.values, iv);
            match encode_enum_underlying(field_def, iv) {
                Ok((b, _)) => Ok((b, display)),
                Err(e) => Err(e),
            }
        },
        ParsedValue::BitField(_) => Err(EncodeError::BitFieldUnsupported),
        ParsedValue::Array(_) => Err(EncodeError::ArrayUnsupported),
        _ => Err(EncodeError::StructUnsupported),
    }
}

/// Appends the decimal text of an `i128` that fits in 64 bits, signed or not.
fn push_i128(s: &mut String, v: i128)
    requires
        i64::MIN <= v <= u64::MAX,
    ensures
        final(s)@ == old(s)@ + signed_str(v as int),
{
    if v < 0 {
        push_signed(s, v as i64);
    } else {
        push_dec(s, v as u64);
    }
}

/// Appends two hex digits for each byte, separated by spaces.
pub fn push_hex_list(s: &mut String, b: &[u8])
    ensures
        final(s)@ == old(s)@ + hex_bytes(b@),
{
    let ghost o = s@;
    let mut i: usize = 0;
    while i < b.len()
        invariant
            i <= b@.len(),
            s@ == o + hex_bytes(b@.take(i as int)),
        decreases b@.len() - i,
    {
        if i > 0 {
            push_str(s, " ");
        }
        crate::numfmt::push_radix_padded(s, b[i] as u64, 16, true, 2);
        proof {
            assert(b@.take(i + 1).drop_last() =~= b@.take(i as int));
            if i == 0 {
                assert(b@.take(0) =~= Seq::<u8>::empty());
            }
        }
        assert(s@ =~= o + hex_bytes(b@.take(i + 1)));
        i = i + 1;
    }
    assert(b@.take(b@.len() as int) =~= b@);
}

// ---------------------------------------------------------------------
// Finding fields in a parsed tree.
// ---------------------------------------------------------------------

/// The first field, in document order, of the list `cs` or of the fields under
/// them, whose path is `p`.
pub open spec fn find_first(cs: Seq<FieldOut>, p: Seq<char>) -> Option<FieldOut>
    decreases cs,
{
    if cs.len() == 0 {
        None
    } else {
        match find_first(cs.subrange(0, cs.len() - 1), p) {
            Some(x) => Some(x),
            None => {
                let last = cs[cs.len() - 1];
                if last.path == p { Some(last) } else { find_first(last.children, p) }
            },
        }
    }
}

/// The first field of a tree, in document order, whose path is `p`.
pub open spec fn find_path(f: FieldOut, p: Seq<char>) -> Option<FieldOut> {
    if f.path == p { Some(f) } else { find_first(f.children, p) }
}

pub proof fn lemma_child_smaller(f: ParsedField, i: int)
    requires
        0 <= i < f.children@.len(),
    ensures
        decreases_to!(f => f.children@[i]),
{
    assert(decreases_to!(f => f.children));
    assert(decreases_to!(f.children => f.children@));
    assert(decreases_to!(f.children@ => f.children@[i]));
}

proof fn lemma_find_first_step(cs: Seq<FieldOut>, p: Seq<char>, i: int)
    requires
        0 <= i < cs.len(),
    ensures
        find_first(cs.take(i + 1), p) == match find_first(cs.take(i), p) {
            Some(x) => Some(x),
            None => if cs[i].path == p { Some(cs[i]) } else { find_first(cs[i].children, p) },
        },
{
    assert(cs.take(i + 1).subrange(0, i) =~= cs.take(i));
}

/// The first field of the tree, in document order, whose path is `path`.
pub fn find_field_by_path<'a>(root: &'a ParsedField, path: &str) -> (r: Option<&'a ParsedField>)
    ensures
        match find_path(field_out(*root), path@) {
            Some(x) => (r matches Some(f) && field_out(*f) == x),
            None => r is None,
        },
    decreases root,
{
    if str_eq(root.path.as_str(), path) {
        return Some(root);
    }
    proof { lemma_children_out(*root); }
    let ghost cs = fields_out(root.children@);
    let mut i: usize = 0;
    assert(cs.take(0) =~= Seq::<FieldOut>::empty());
    while i < root.children.len()
        invariant
            i <= root.children@.len(),
            cs == fields_out(root.children@),
            cs == field_out(*root).children,
            root.path@ != path@,
            find_first(cs.take(i as int), path@) is None,
        decreases root.children@.len() - i,
    {
        proof {
            lemma_find_first_step(cs, path@, i as int);
            lemma_child_smaller(*root, i as int);
        }
        let child = &root.children[i];
        assert(cs[i as int] == field_out(*child));
        match find_field_by_path(child, path) {
            Some(found) => {
                proof { lemma_find_first_prefix(cs, path@, i + 1); }
                return Some(found);
            },
            None => {},
        }
        i = i + 1;
    }
    assert(cs.take(cs.len() as int) =~= cs);
    None
}

proof fn lemma_find_first_prefix(cs: Seq<FieldOut>, p: Seq<char>, k: int)
    requires
        0 <= k <= cs.len(),
        find_first(cs.take(k), p) is Some,
    ensures
        find_first(cs, p) == find_first(cs.take(k), p),
    decreases cs.len() - k,
{
    if k < cs.len() {
        lemma_find_first_step(cs, p, k);
        lemma_find_first_prefix(cs, p, k + 1);
    } else {
        assert(cs.take(k) =~= cs);
    }
}

/// The paths of the leaves of the list `cs` and of the fields under them, in
/// document order; truncated and skipped leaves are left out.
pub open spec fn leaf_paths_list(cs: Seq<FieldOut>) -> Seq<Seq<char>>
    decreases cs,
{
    if cs.len() == 0 {
        Seq::empty()
    } else {
        let last = cs[cs.len() - 1];
        leaf_paths_list(cs.subrange(0, cs.len() - 1)) + own_leaf(last) + leaf_paths_list(last.children)
    }
}

pub open spec fn own_leaf(f: FieldOut) -> Seq<Seq<char>> {
    if f.children.len() == 0 && !f.truncated && !f.skipped { seq![f.path] } else { Seq::empty() }
}

/// The leaf paths of a tree.
pub open spec fn leaf_paths(f: FieldOut) -> Seq<Seq<char>> {
    own_leaf(f) + leaf_paths_list(f.children)
}

fn collect_paths_recursive(field: &ParsedField, paths: &mut Vec<String>)
    ensures
        names_view(final(paths)@) == names_view(old(paths)@) + leaf_paths(field_out(*field)),
    decreases field,
{
    let ghost o = names_view(paths@);
    proof { lemma_children_out(*field); }
    if field.children.len() == 0 && !field.truncated && !field.skipped {
        paths.push(field.path.clone());
    }
    assert(names_view(paths@) =~= o + own_leaf(field_out(*field)));
    let ghost cs = fields_out(field.children@);
    let ghost base = names_view(paths@);
    let mut i: usize = 0;
    assert(cs.take(0) =~= Seq::<FieldOut>::empty());
    assert(base + leaf_paths_list(cs.take(0)) =~= base);
    while i < field.children.len()
        invariant
            i <= field.children@.len(),
            cs == fields_out(field.children@),
            cs == field_out(*field).children,
            names_view(paths@) == base + leaf_paths_list(cs.take(i as int)),
        decreases field.children@.len() - i,
    {
        proof {
            lemma_child_smaller(*field, i as int);
            assert(cs.take(i + 1).subrange(0, i as int) =~= cs.take(i as int));
        }
        let child = &field.children[i];
        assert(cs[i as int] == field_out(*child));
        collect_paths_recursive(child, paths);
        assert(names_view(paths@) =~= base + leaf_paths_list(cs.take(i + 1)));
        i = i + 1;
    }
    assert(cs.take(cs.len() as int) =~= cs);
}

/// The paths of the tree's leaves that were read, in document order.
pub fn collect_all_field_paths(root: &ParsedField) -> (r: Vec<String>)
    ensures
        names_view(r@) == leaf_paths(field_out(*root)),
{
    let mut paths: Vec<String> = Vec::new();
    assert(names_view(paths@) =~= Seq::<Seq<char>>::empty());
    collect_paths_recursive(root, &mut paths);
    assert(names_view(paths@) =~= leaf_paths(field_out(*root)));
    paths
}

// ---------------------------------------------------------------------
// Finding a field's definition.
// ---------------------------------------------------------------------

/// The index of the first `c` in `s`.
pub open spec fn first_index(s: Seq<char>, c: char) -> Option<int>
    decreases s.len(),
{
    if s.len() == 0 {
        None
    } else {
        match first_index(s.drop_last(), c) {
            Some(i) => Some(i),
            None => if s.last() == c { Some(s.len() - 1) } else { None },
        }
    }
}

/// The path with its first bracketed index taken out.
pub open spec fn strip_index_spec(p: Seq<char>) -> Option<Seq<char>> {
    match (first_index(p, '['), first_index(p, ']')) {
        (Some(a), Some(b)) => if b > a { Some(p.subrange(0, a) + p.subrange(b + 1, p.len() as int)) } else { None },
        _ => None,
    }
}

fn first_index_exec(s: &Vec<char>, c: char) -> (r: Option<usize>)
    ensures
        match first_index(s@, c) {
            Some(i) => r == Some(i as usize),
            None => r is None,
        },
{
    let mut i: usize = 0;
    while i < s.len()
        invariant
            i <= s@.len(),
            first_index(s@.take(i as int), c) is None,
        decreases s@.len() - i,
    {
        assert(s@.take(i + 1).drop_last() =~= s@.take(i as int));
        if s[i] == c {
            proof { lemma_first_index_prefix(s@, c, i + 1); }
            return Some(i);
        }
        i = i + 1;
    }
    assert(s@.take(s@.len() as int) =~= s@);
    None
}

proof fn lemma_first_index_prefix(s: Seq<char>, c: char, k: int)
    requires
        0 < k <= s.len(),
        first_index(s.take(k), c) is Some,
    ensures
        first_index(s, c) == first_index(s.take(k), c),
    decreases s.len() - k,
{
    if k < s.len() {
        assert(s.take(k + 1).drop_last() =~= s.take(k));
        lemma_first_index_prefix(s, c, k + 1);
    } else {
        assert(s.take(k) =~= s);
    }
}

fn strip_array_index(path: &str) -> (r: Option<String>)
    ensures
        match strip_index_spec(path@) {
            Some(t) => (r matches Some(x) && x@ == t),
            None => r is None,
        },
{
    let cs = chars_of(path);
    let a = match first_index_exec(&cs, '[') {
        Some(a) => a,
        None => return None,
    };
    let b = match first_index_exec(&cs, ']') {
        Some(b) => b,
        None => return None,
    };
    proof {
        lemma_first_index_bounds(cs@, '[');
        lemma_first_index_bounds(cs@, ']');
    }
    if b > a {
        let mut out = String::new();
        let mut i: usize = 0;
        while i < a
            invariant
                i <= a,
                a < cs@.len(),
                out@ == cs@.subrange(0, i as int),
            decreases a - i,
        {
            push_char(&mut out, cs[i]);
            assert(cs@.subrange(0, i + 1) =~= cs@.subrange(0, i as int).push(cs@[i as int]));
            i = i + 1;
        }
        let mut j: usize = b + 1;
        let ghost mid = out@;
        while j < cs.len()
            invariant
                b + 1 <= j <= cs@.len(),
                out@ == mid + cs@.subrange(b + 1, j as int),
            decreases cs@.len() - j,
        {
            push_char(&mut out, cs[j]);
            assert(cs@.subrange(b + 1, j + 1) =~= cs@.subrange(b + 1, j as int).push(cs@[j as int]));
            j = j + 1;
        }
        Some(out)
    } else {
        None
    }
}

proof fn lemma_first_index_bounds(s: Seq<char>, c: char)
    ensures
        first_index(s, c) matches Some(i) ==> 0 <= i < s.len() && s[i] == c,
    decreases s.len(),
{
    if s.len() > 0 {
        lemma_first_index_bounds(s.drop_last(), c);
    }
}

/// The definition of the field at path `fp` under struct `sd`, whose own path
/// is under `parent`; `fuel` bounds how deep struct references are followed.
pub open spec fn def_find(fmt: FormatDefinition, sd: StructDefinition, fp: Seq<char>, parent: Seq<char>, fuel: nat) -> Option<Field>
    decreases fuel, 1nat, 0nat,
{
    let cur = if parent.len() == 0 { sd.name@ } else { parent + "."@ + sd.name@ };
    def_find_fields(fmt, sd.fields@, fp, cur, sd.fields@.len(), fuel)
}

/// The search through the first `n` fields.
pub open spec fn def_find_fields(fmt: FormatDefinition, fields: Seq<Field>, fp: Seq<char>, cur: Seq<char>, n: nat, fuel: nat) -> Option<Field>
    decreases fuel, 0nat, n,
{
    if n == 0 || n > fields.len() {
        None
    } else {
        match def_find_fields(fmt, fields, fp, cur, (n - 1) as nat, fuel) {
            Some(x) => Some(x),
            None => {
                let f = fields[n - 1];
                if cur + "."@ + f.name@ == fp {
                    Some(f)
                } else if fuel == 0 {
                    None
                } else {
                    match f.data_type {
                        DataType::Struct { name } => match lookup_struct(fmt, name@) {
                            Some(sd2) => def_find(fmt, sd2, fp, cur, (fuel - 1) as nat),
                            None => None,
                        },
                        DataType::Array { element_type, .. } => match *element_type {
                            DataType::Struct { name } => match lookup_struct(fmt, name@) {
                                Some(sd2) => match strip_index_spec(fp) {
                                    Some(sp) => def_find(fmt, sd2, sp, cur, (fuel - 1) as nat),
                                    None => None,
                                },
                                None => None,
                            },
                            _ => None,
                        },
                        _ => None,
                    }
                }
            },
        }
    }
}

/// The definition of the field at `field_path`, looked for under `struct_def`.
pub fn find_field_definition<'a>(format_def: &'a FormatDefinition, struct_def: &'a StructDefinition,
    field_path: &str, parent_path: &str) -> (r: Option<&'a Field>)
    requires
        format_def.structs@.len() < usize::MAX,
    ensures
        match def_find(*format_def, *struct_def, field_path@, parent_path@, format_def.structs@.len() + 1) {
            Some(f) => r == Some(&f),
            None => r is None,
        },
{
    find_def_fuel(format_def, struct_def, field_path, parent_path, format_def.structs.len() + 1)
}

fn find_def_fuel<'a>(format_def: &'a FormatDefinition, struct_def: &'a StructDefinition,
    field_path: &str, parent_path: &str, fuel: usize) -> (r: Option<&'a Field>)
    ensures
        match def_find(*format_def, *struct_def, field_path@, parent_path@, fuel as nat) {
            Some(f) => r == Some(&f),
            None => r is None,
        },
    decreases fuel, 1nat, 0nat,
{
    let cur = if parent_path.is_empty() {
        struct_def.name.clone()
    } else {
        let mut p = owned(parent_path);
        push_str(&mut p, ".");
        push_str(&mut p, struct_def.name.as_str());
        p
    };
    let ghost fields = struct_def.fields@;
    let mut i: usize = 0;
    while i < struct_def.fields.len()
        invariant
            i <= fields.len(),
            fields == struct_def.fields@,
            cur@ == (if parent_path@.len() == 0 { struct_def.name@ } else { parent_path@ + "."@ + struct_def.name@ }),
            def_find_fields(*format_def, fields, field_path@, cur@, i as nat, fuel as nat) is None,
        decreases fields.len() - i,
    {
        let f = &struct_def.fields[i];
        let mut fq = cur.clone();
        push_str(&mut fq, ".");
        push_str(&mut fq, f.name.as_str());
        if str_eq(fq.as_str(), field_path) {
            proof { lemma_def_fields_prefix(*format_def, fields, field_path@, cur@, (i + 1) as nat, fuel as nat); }
            return Some(f);
        }
        if fuel > 0 {
            let found = match &f.data_type {
                DataType::Struct { name } => match format_def.get_struct(name.as_str()) {
                    Some(sd) => find_def_fuel(format_def, sd, field_path, cur.as_str(), fuel - 1),
                    None => None,
                },
                DataType::Array { element_type, .. } => match &**element_type {
                    DataType::Struct { name } => match format_def.get_struct(name.as_str()) {
                        Some(sd) => match strip_array_index(field_path) {
                            Some(sp) => find_def_fuel(format_def, sd, sp.as_str(), cur.as_str(), fuel - 1),
                            None => None,
                        },
                        None => None,
                    },
                    _ => None,
                },
                _ => None,
            };
            match found {
                Some(x) => {
                    proof { lemma_def_fields_prefix(*format_def, fields, field_path@, cur@, (i + 1) as nat, fuel as nat); }
                    return Some(x);
                },
                None => {},
            }
        }
        i = i + 1;
    }
    None
}

proof fn lemma_def_fields_prefix(fmt: FormatDefinition, fields: Seq<Field>, fp: Seq<char>, cur: Seq<char>, k: nat, fuel: nat)
    requires
        0 < k <= fields.len(),
        def_find_fields(fmt, fields, fp, cur, k, fuel) is Some,
    ensures
        def_find_fields(fmt, fields, fp, cur, fields.len(), fuel) == def_find_fields(fmt, fields, fp, cur, k, fuel),
    decreases fields.len() - k,
{
    if k < fields.len() {
        lemma_def_fields_prefix(fmt, fields, fp, cur, k + 1, fuel);
    }
}

// ---------------------------------------------------------------------
// Suggesting a path.
// ---------------------------------------------------------------------

pub open spec fn min3(a: int, b: int, c: int) -> int {
    if a <= b && a <= c { a } else if b <= c { b } else { c }
}

/// The edit distance between two character sequences.
pub open spec fn lev(a: Seq<char>, b: Seq<char>) -> nat
    decreases a.len() + b.len(),
{
    if a.len() == 0 {
        b.len()
    } else if b.len() == 0 {
        a.len()
    } else {
        let cost: int = if a.last() == b.last() { 0 } else { 1 };
        min3(lev(a.drop_last(), b) + 1int, lev(a, b.drop_last()) + 1int, lev(a.drop_last(), b.drop_last()) + cost) as nat
    }
}

proof fn lemma_lev_bound(a: Seq<char>, b: Seq<char>)
    ensures
        lev(a, b) <= (if a.len() >= b.len() { a.len() } else { b.len() }),
    decreases a.len() + b.len(),
{
    if a.len() > 0 && b.len() > 0 {
        lemma_lev_bound(a.drop_last(), b.drop_last());
    }
}

/// The edit distance, by the table of distances between prefixes, one row at a time.
fn levenshtein_distance(a: &Vec<char>, b: &Vec<char>) -> (r: usize)
    ensures
        r == lev(a@, b@),
{
    let n = a.len();
    let m = b.len();
    if n == 0 {
        return m;
    }
    if m == 0 {
        return n;
    }
    let mut prev: Vec<u128> = Vec::new();
    let mut j: usize = 0;
    while j < m
        invariant
            j <= m,
            m == b@.len(),
            prev@.len() == j,
            forall|k: int| 0 <= k < j ==> prev@[k] == lev(a@.take(0), b@.take(k)),
        decreases m - j,
    {
        assert(a@.take(0).len() == 0);
        prev.push(j as u128);
        j = j + 1;
    }
    assert(a@.take(0).len() == 0);
    prev.push(m as u128);
    let mut ii: usize = 0;
    while ii < n
        invariant
            0 <= ii <= n,
            n == a@.len(),
            m == b@.len(),
            prev@.len() == m + 1,
            forall|k: int| 0 <= k <= m ==> prev@[k] == lev(a@.take(ii as int), b@.take(k)),
        decreases n - ii,
    {
        let i = ii + 1;
        let mut cur: Vec<u128> = Vec::new();
        assert(b@.take(0).len() == 0);
        cur.push(i as u128);
        let mut jj: usize = 0;
        while jj < m
            invariant
                1 <= i <= n,
                i == ii + 1,
                0 <= jj <= m,
                cur@.len() == jj + 1,
                n == a@.len(),
                m == b@.len(),
                prev@.len() == m + 1,
                forall|k: int| 0 <= k <= m ==> prev@[k] == lev(a@.take(i - 1), b@.take(k)),
                forall|k: int| 0 <= k <= jj ==> cur@[k] == lev(a@.take(i as int), b@.take(k)),
            decreases m - jj,
        {
            let j = jj + 1;
            let ghost ai = a@.take(i as int);
            let ghost bj = b@.take(j as int);
            assert(ai.drop_last() =~= a@.take(i - 1));
            assert(bj.drop_last() =~= b@.take(j - 1));
            assert(ai.last() == a@[i - 1]);
            assert(bj.last() == b@[j - 1]);
            proof {
                lemma_lev_bound(a@.take(i - 1), b@.take(j as int));
                lemma_lev_bound(a@.take(i as int), b@.take(j - 1));
                lemma_lev_bound(a@.take(i - 1), b@.take(j - 1));
            }
            let cost: u128 = if a[i - 1] == b[j - 1] { 0 } else { 1 };
            let x = prev[j] + 1;
            let y = cur[j - 1] + 1;
            let z = prev[j - 1] + cost;
            let best = if x <= y && x <= z { x } else if y <= z { y } else { z };
            cur.push(best);
            jj = jj + 1;
        }
        prev = cur;
        ii = ii + 1;
    }
    assert(a@.take(n as int) =~= a@);
    assert(b@.take(m as int) =~= b@);
    proof { lemma_lev_bound(a@, b@); }
    prev[m] as usize
}

/// What `str::to_lowercase` gives for a text.
pub uninterp spec fn lowercase(s: Seq<char>) -> Seq<char>;

/// `str::to_lowercase`; the contract names the result as a function of the text.
#[verifier::external_body]
pub(crate) fn to_lowercase(s: &str) -> (r: String)
    ensures
        r@ == lowercase(s@),
{
    s.to_lowercase()
}

/// The index of the path to suggest among the first `n`: the first with the
/// least edit distance among those that contain the target or that the target
/// contains (all compared in lower case).
pub open spec fn best_match(t: Seq<char>, ps: Seq<Seq<char>>, n: nat) -> Option<(nat, nat)>
    decreases n,
{
    if n == 0 || n > ps.len() {
        None
    } else {
        let prev = best_match(t, ps, (n - 1) as nat);
        let p = lowercase(ps[n - 1]);
        if contains_seq(p, t) || contains_seq(t, p) {
            let d = lev(t, p);
            match prev {
                Some((bd, bi)) => if d < bd { Some((d, (n - 1) as nat)) } else { prev },
                None => Some((d, (n - 1) as nat)),
            }
        } else {
            prev
        }
    }
}

/// The suggestion line for a path that was not found, or nothing.
pub open spec fn suggestion_text(target: Seq<char>, ps: Seq<Seq<char>>) -> Seq<char> {
    match best_match(lowercase(target), ps, ps.len()) {
        Some((_, i)) => "\n\n您可能是想找: "@ + ps[i as int],
        None => Seq::empty(),
    }
}

fn suggest_similar_path(target: &str, available: &Vec<String>) -> (r: String)
    ensures
        r@ == suggestion_text(target@, names_view(available@)),
{
    let ghost ps = names_view(available@);
    let tl = to_lowercase(target);
    let tc = chars_of(tl.as_str());
    let mut best: Option<(usize, usize)> = None;
    let mut i: usize = 0;
    while i < available.len()
        invariant
            i <= available@.len(),
            ps == names_view(available@),
            tc@ == lowercase(target@),
            match best_match(tc@, ps, i as nat) {
                Some((d, k)) => (best matches Some((bd, bk)) && bd == d && bk == k && k < i),
                None => best is None,
            },
        decreases available@.len() - i,
    {
        let pl = to_lowercase(available[i].as_str());
        let pc = chars_of(pl.as_str());
        assert(ps[i as int] == available@[i as int]@);
        if contains_chars(&pc, &tc) || contains_chars(&tc, &pc) {
            let d = levenshtein_distance(&tc, &pc);
            match best {
                Some((bd, _)) => {
                    if d < bd {
                        best = Some((d, i));
                    }
                },
                None => {
                    best = Some((d, i));
                },
            }
        }
        i = i + 1;
    }
    match best {
        Some((_, k)) => {
            let mut s = String::new();
            push_str(&mut s, "\n\n您可能是想找: ");
            push_str(&mut s, available[k].as_str());
            s
        },
        None => String::new(),
    }
}

// ---------------------------------------------------------------------
// Bytes of checksums and of parsed values.
// ---------------------------------------------------------------------

pub open spec fn little_of(fd: Option<Field>) -> bool {
    match fd { Some(f) => f.endian == Endian::Little, None => true }
}

pub open spec fn opt_field(fd: Option<&Field>) -> Option<Field> {
    match fd { Some(f) => Some(*f), None => None }
}

/// The bytes a recomputed checksum is written as, by the type of the field that holds it.
pub open spec fn checksum_bytes_spec(val: ValueDesc, fd: Option<Field>, v: u64) -> Result<(Seq<u8>, Seq<char>), EncodeErrDesc> {
    let little = little_of(fd);
    match val {
        ValueDesc::U32(_) => Ok((bytes32(v as u32, little), dec_str(v as nat))),
        ValueDesc::U16(_) => Ok((bytes16(v as u16, little), dec_str(v as nat))),
        ValueDesc::U8(_) => Ok((seq![v as u8], dec_str(v as nat))),
        ValueDesc::U64(_) => Ok((bytes64(v, little), dec_str(v as nat))),
        ValueDesc::Enum(_, _, _) => match fd {
            Some(f) => match f.data_type {
                DataType::Enum { underlying, .. } => match encode_int_spec(*underlying, v as i64, little) {
                    Ok(x) => Ok(x),
                    Err(e) => Err(encode_err_desc(e)),
                },
                _ => Ok((u32_be(v as u32), dec_str(v as nat))),
            },
            None => Ok((u32_be(v as u32), dec_str(v as nat))),
        },
        _ => Ok((u64_be(v), dec_str(v as nat))),
    }
}

fn encode_checksum_bytes(field: &ParsedField, field_def: Option<&Field>, value: u64) -> (r: Result<(Vec<u8>, String), EncodeError>)
    ensures
        match checksum_bytes_spec(value_desc(field.value), opt_field(field_def), value) {
            Ok((b, t)) => (r matches Ok(x) && x.0@ == b && x.1@ == t),
            Err(e) => (r matches Err(x) && encode_err_desc(x) == e),
        },
{
    let little = match field_def { Some(f) => f.endian == Endian::Little, None => true };
    match &field.value {
        ParsedValue::Enum { .. } => {
            match field_def {
                Some(f) => match &f.data_type {
                    DataType::Enum { underlying, .. } => return encode_int_by_type(underlying, value as i64, f.endian),
                    _ => {},
                },
                None => {},
            }
            Ok(plain_checksum_bytes(value, 0, false))
        },
        ParsedValue::U32(_) => Ok(plain_checksum_bytes(value, 1, little)),
        ParsedValue::U16(_) => Ok(plain_checksum_bytes(value, 2, little)),
        ParsedValue::U8(_) => Ok(plain_checksum_bytes(value, 3, little)),
        ParsedValue::U64(_) => Ok(plain_checksum_bytes(value, 4, little)),
        _ => Ok(plain_checksum_bytes(value, 4, false)),
    }
}

/// Checksum bytes by width: 0 and 1 for four bytes (0 big-endian), 2 for two,
/// 3 for one, 4 for eight.
fn plain_checksum_bytes(value: u64, width: u8, little: bool) -> (r: (Vec<u8>, String))
    requires
        width <= 4,
    ensures
        r.1@ == dec_str(value as nat),
        width == 0 ==> r.0@ == u32_be(value as u32),
        width == 1 ==> r.0@ == bytes32(value as u32, little),
        width == 2 ==> r.0@ == bytes16(value as u16, little),
        width == 3 ==> r.0@ == seq![value as u8],
        width == 4 ==> r.0@ == bytes64(value, little),
{
    let mut t = String::new();
    push_dec(&mut t, value);
    let mut out: Vec<u8> = Vec::new();
    if width == 0 {
        put32(&mut out, value as u32, false);
    } else if width == 1 {
        put32(&mut out, value as u32, little);
    } else if width == 2 {
        put16(&mut out, value as u16, little);
    } else if width == 3 {
        out.push(value as u8);
        assert(out@ =~= seq![value as u8]);
    } else {
        put64(&mut out, value, little);
    }
    (out, t)
}

/// `u` padded with zeros to `len`, where it is shorter.
pub open spec fn pad_bytes(u: Seq<u8>, len: nat) -> Seq<u8> {
    if u.len() < len { u + Seq::new((len - u.len()) as nat, |i: int| 0u8) } else { u }
}

/// The bytes that hold a parsed field's value, where they can be told.
pub open spec fn field_bytes_spec(val: ValueDesc, length: usize, fd: Option<Field>) -> Option<Seq<u8>> {
    let little = little_of(fd);
    match val {
        ValueDesc::U8(v) => Some(seq![v]),
        ValueDesc::U16(v) => Some(bytes16(v, little)),
        ValueDesc::U32(v) => Some(bytes32(v, little)),
        ValueDesc::U64(v) => Some(bytes64(v, little)),
        ValueDesc::I8(v) => Some(seq![v as u8]),
        ValueDesc::I16(v) => Some(bytes16(v as u16, little)),
        ValueDesc::I32(v) => Some(bytes32(v as u32, little)),
        ValueDesc::I64(v) => Some(bytes64(v as u64, little)),
        ValueDesc::F32(b) => Some(bytes32(b, little)),
        ValueDesc::F64(b) => Some(bytes64(b, little)),
        ValueDesc::Bytes(b) => Some(b),
        ValueDesc::Text(s) => Some(pad_bytes(vstd::utf8::encode_utf8(s), length as nat)),
        ValueDesc::Enum(_, v, _) => match fd {
            Some(f) => match f.data_type {
                DataType::Enum { underlying, .. } => match encode_int_spec(*underlying, v, little) {
                    Ok((b, _)) => Some(b),
                    Err(_) => None,
                },
                _ => None,
            },
            None => None,
        },
        _ => None,
    }
}

fn field_to_bytes(field: &ParsedField, field_def: Option<&Field>) -> (r: Option<Vec<u8>>)
    ensures
        match field_bytes_spec(value_desc(field.value), field.length, opt_field(field_def)) {
            Some(b) => (r matches Some(x) && x@ == b),
            None => r is None,
        },
{
    let little = match field_def { Some(f) => f.endian == Endian::Little, None => true };
    let mut out: Vec<u8> = Vec::new();
    match &field.value {
        ParsedValue::U8(v) => { out.push(*v); assert(out@ =~= seq![*v]); Some(out) },
        ParsedValue::U16(v) => { put16(&mut out, *v, little); Some(out) },
        ParsedValue::U32(v) => { put32(&mut out, *v, little); Some(out) },
        ParsedValue::U64(v) => { put64(&mut out, *v, little); Some(out) },
        ParsedValue::I8(v) => { out.push(*v as u8); assert(out@ =~= seq![*v as u8]); Some(out) },
        ParsedValue::I16(v) => { put16(&mut out, *v as u16, little); Some(out) },
        ParsedValue::I32(v) => { put32(&mut out, *v as u32, little); Some(out) },
        ParsedValue::I64(v) => { put64(&mut out, *v as u64, little); Some(out) },
        ParsedValue::F32(b) => { put32(&mut out, *b, little); Some(out) },
        ParsedValue::F64(b) => { put64(&mut out, *b, little); Some(out) },
        ParsedValue::Bytes(b) => {
            let c = b.clone();
            assert(c@ =~= b@);
            Some(c)
        },
        ParsedValue::String(t) => Some(padded_utf8(t.as_str(), field.length)),
        ParsedValue::Enum { value, .. } => {
            match field_def {
                Some(f) => match &f.data_type {
                    DataType::Enum { underlying, .. } => match encode_int_by_type(underlying, *value, f.endian) {
                        Ok((b, _)) => Some(b),
                        Err(_) => None,
                    },
                    _ => None,
                },
                None => None,
            }
        },
        _ => None,
    }
}

fn padded_utf8(t: &str, len: usize) -> (r: Vec<u8>)
    ensures
        r@ == pad_bytes(vstd::utf8::encode_utf8(t@), len as nat),
{
    let u = t.as_bytes();
    let mut out: Vec<u8> = Vec::new();
    let mut i: usize = 0;
    while i < u.len()
        invariant
            i <= u@.len(),
            out@ == u@.take(i as int),
        decreases u@.len() - i,
    {
        out.push(u[i]);
        assert(u@.take(i + 1) =~= u@.take(i as int).push(u@[i as int]));
        i = i + 1;
    }
    assert(u@.take(u@.len() as int) =~= u@);
    if out.len() >= len {
        return out;
    }
    let ghost base = out@;
    while out.len() < len
        invariant
            base == u@,
            base.len() < len,
            base.len() <= out@.len() <= len,
            out@ == base + Seq::new((out@.len() - base.len()) as nat, |k: int| 0u8),
        decreases len - out@.len(),
    {
        out.push(0u8);
        assert(out@ =~= base + Seq::new((out@.len() - base.len()) as nat, |k: int| 0u8));
    }
    out
}

fn bytes_eq(a: &[u8], b: &[u8]) -> (r: bool)
    ensures
        r == (a@ == b@),
{
    if a.len() != b.len() {
        return false;
    }
    let mut i: usize = 0;
    while i < a.len()
        invariant
            a@.len() == b@.len(),
            i <= a@.len(),
            forall|k: int| 0 <= k < i ==> a@[k] == b@[k],
        decreases a@.len() - i,
    {
        if a[i] != b[i] {
            return false;
        }
        i = i + 1;
    }
    assert(a@ =~= b@);
    true
}

/// Whether a parsed field holds exactly the given bytes.
fn values_match(new_bytes: &[u8], field: &ParsedField, field_def: Option<&Field>) -> (r: bool)
    ensures
        r == (field_bytes_spec(value_desc(field.value), field.length, opt_field(field_def)) == Some(new_bytes@)),
{
    match field_to_bytes(field, field_def) {
        Some(actual) => bytes_eq(actual.as_slice(), new_bytes),
        None => false,
    }
}

// ---------------------------------------------------------------------
// Values known after a parse, and checksum fields.
// ---------------------------------------------------------------------

/// Recording one field's value under its path and under its short name.
pub open spec fn record_field(ctx: Seq<(Seq<char>, CtxValue)>, f: FieldOut) -> Seq<(Seq<char>, CtxValue)> {
    if f.truncated || f.skipped {
        ctx
    } else {
        let c1 = match to_i64_spec(f.value) {
            Some(i) => ctx_put(ctx_put(ctx, f.path, CtxValue::Int(i)), short_key(f.path), CtxValue::Int(i)),
            None => ctx,
        };
        match to_float_bits(f.value) {
            Some(b) => ctx_put(ctx_put(c1, f.path, CtxValue::Float(b)), short_key(f.path), CtxValue::Float(b)),
            None => c1,
        }
    }
}

/// The known values of a list of fields and of the fields under them, in document order.
pub open spec fn ctx_of_list(ctx: Seq<(Seq<char>, CtxValue)>, cs: Seq<FieldOut>) -> Seq<(Seq<char>, CtxValue)>
    decreases cs,
{
    if cs.len() == 0 {
        ctx
    } else {
        let last = cs[cs.len() - 1];
        ctx_of_list(record_field(ctx_of_list(ctx, cs.subrange(0, cs.len() - 1)), last), last.children)
    }
}

/// The known values of a parsed tree.
pub open spec fn ctx_of_tree(f: FieldOut) -> Seq<(Seq<char>, CtxValue)> {
    ctx_of_list(record_field(Seq::empty(), f), f.children)
}

fn record_exec(ctx: &mut Vec<(String, CtxValue)>, f: &ParsedField)
    ensures
        ctx_view(final(ctx)@) == record_field(ctx_view(old(ctx)@), field_out(*f)),
{
    if f.truncated || f.skipped {
        return;
    }
    let sk = short_key_chars(&chars_of(f.path.as_str()));
    let short = string_from_chars(sk.as_slice());
    match f.value.to_i64() {
        Some(i) => {
            ctx_insert(ctx, f.path.as_str(), CtxValue::Int(i));
            ctx_insert(ctx, short.as_str(), CtxValue::Int(i));
        },
        None => {},
    }
    match f.value.float_bits() {
        Some(b) => {
            ctx_insert(ctx, f.path.as_str(), CtxValue::Float(b));
            ctx_insert(ctx, short.as_str(), CtxValue::Float(b));
        },
        None => {},
    }
}

fn build_context_recursive(f: &ParsedField, ctx: &mut Vec<(String, CtxValue)>)
    ensures
        ctx_view(final(ctx)@) == ctx_of_list(record_field(ctx_view(old(ctx)@), field_out(*f)), field_out(*f).children),
    decreases f,
{
    record_exec(ctx, f);
    proof { lemma_children_out(*f); }
    let ghost cs = fields_out(f.children@);
    let ghost base = ctx_view(ctx@);
    let mut i: usize = 0;
    assert(cs.take(0) =~= Seq::<FieldOut>::empty());
    while i < f.children.len()
        invariant
            i <= f.children@.len(),
            cs == fields_out(f.children@),
            cs == field_out(*f).children,
            ctx_view(ctx@) == ctx_of_list(base, cs.take(i as int)),
        decreases f.children@.len() - i,
    {
        proof {
            lemma_child_smaller(*f, i as int);
            assert(cs.take(i + 1).subrange(0, i as int) =~= cs.take(i as int));
        }
        let child = &f.children[i];
        assert(cs[i as int] == field_out(*child));
        build_context_recursive(child, ctx);
        i = i + 1;
    }
    assert(cs.take(cs.len() as int) =~= cs);
}

/// The values of a parsed tree, by path and by short name, for checksum ranges.
pub fn build_value_context(root: &ParsedField) -> (r: Vec<(String, CtxValue)>)
    ensures
        ctx_view(r@) == ctx_of_tree(field_out(*root)),
{
    let mut ctx: Vec<(String, CtxValue)> = Vec::new();
    assert(ctx_view(ctx@) =~= Seq::<(Seq<char>, CtxValue)>::empty());
    build_context_recursive(root, &mut ctx);
    ctx
}

/// Every key of the context replaced by its value's text, in order.
pub open spec fn subst_keys(e: Seq<char>, ctx: Seq<(Seq<char>, CtxValue)>) -> Seq<char>
    decreases ctx.len(),
{
    if ctx.len() == 0 {
        e
    } else {
        replace_all(subst_keys(e, ctx.drop_last()), ctx.last().0, ctx_text(ctx.last().1))
    }
}

/// The value of a checksum range bound, where it has one.
pub open spec fn eval_bound(expr: Seq<char>, ctx: Seq<(Seq<char>, CtxValue)>) -> Option<usize> {
    match parse_usize_spec(expr) {
        Some(n) => Some(n as usize),
        None => if names_risky_builtin(subst_keys(expr, ctx)) {
            None
        } else {
            bound_outcome(evalexpr_result(subst_keys(expr, ctx)))
        },
    }
}

fn eval_bound_exec(expr: &str, ctx: &Vec<(String, CtxValue)>) -> (r: Option<usize>)
    ensures
        r == eval_bound(expr@, ctx_view(ctx@)),
{
    let cs = chars_of(expr);
    match parse_usize(cs.as_slice()) {
        Some(n) => return Some(n),
        None => {},
    }
    let ghost cv = ctx_view(ctx@);
    let mut cur = cs;
    let mut i: usize = 0;
    assert(cv.take(0) =~= Seq::<(Seq<char>, CtxValue)>::empty());
    while i < ctx.len()
        invariant
            i <= ctx@.len(),
            cv == ctx_view(ctx@),
            cur@ == subst_keys(expr@, cv.take(i as int)),
        decreases ctx@.len() - i,
    {
        let key = chars_of(ctx[i].0.as_str());
        let text = ctx_text_exec(ctx[i].1);
        cur = replace_chars(&cur, &key, &text);
        proof {
            assert(cv.take(i + 1).drop_last() =~= cv.take(i as int));
            assert(cv.take(i + 1).last() == cv[i as int]);
        }
        i = i + 1;
    }
    assert(cv.take(ctx@.len() as int) =~= cv);
    let e = string_from_chars(cur.as_slice());
    if risky_builtin(e.as_str()) {
        return None;
    }
    let o = eval_text(e.as_str());
    bound_of_outcome(o)
}

/// What the evaluation of a checksum bound gives: an integer as it is, a
/// float saturated into `usize`, and else nothing.
pub open spec fn bound_outcome(o: EvalOutcome) -> Option<usize> {
    match o {
        EvalOutcome::Int(i) => Some(i as usize),
        EvalOutcome::Float(b) => Some(sat_usize(b)),
        _ => None,
    }
}

/// The checksum bound that an evaluation gives (see `bound_outcome`).
pub fn bound_of_outcome(o: EvalOutcome) -> (r: Option<usize>)
    ensures
        r == bound_outcome(o),
{
    match o {
        EvalOutcome::Int(i) => Some(i as usize),
        EvalOutcome::Float(b) => Some(float_bits_to_usize(b)),
        _ => None,
    }
}

/// The path of a struct under `parent`.
pub open spec fn cur_of(sd: StructDefinition, parent: Seq<char>) -> Seq<char> {
    if parent.len() == 0 { sd.name@ } else { parent + "."@ + sd.name@ }
}

/// A checksum field with the range its bounds give, where both have values.
pub open spec fn own_ck(c: FieldOut, fd: Field, ctx: Seq<(Seq<char>, CtxValue)>) -> Seq<(FieldOut, usize, usize, Field)> {
    match fd.checksum {
        Some(ck) => match (eval_bound(ck.start@, ctx), eval_bound(ck.end@, ctx)) {
            (Some(a), Some(b)) => seq![(c, a, b, fd)],
            _ => Seq::empty(),
        },
        None => Seq::empty(),
    }
}

/// The checksum fields among parsed fields paired with their definitions, in
/// document order, following struct fields into their structs.
pub open spec fn cks_list(cs: Seq<FieldOut>, fields: Seq<Field>, fmt: FormatDefinition, cur: Seq<char>,
    ctx: Seq<(Seq<char>, CtxValue)>) -> Seq<(FieldOut, usize, usize, Field)>
    decreases cs,
{
    let m = if cs.len() <= fields.len() { cs.len() } else { fields.len() };
    if m == 0 {
        Seq::empty()
    } else {
        let prev = cks_list(cs.subrange(0, m - 1), fields.subrange(0, m - 1), fmt, cur, ctx);
        let c = cs[m - 1];
        let fd = fields[m - 1];
        if c.path == cur + "."@ + fd.name@ {
            prev + own_ck(c, fd, ctx) + match fd.data_type {
                DataType::Struct { name } => match lookup_struct(fmt, name@) {
                    Some(sd2) => cks_list(c.children, sd2.fields@, fmt, cur_of(sd2, cur), ctx),
                    None => Seq::empty(),
                },
                _ => Seq::empty(),
            }
        } else {
            prev
        }
    }
}

pub open spec fn entries_view<'a>(v: Seq<(&'a ParsedField, usize, usize, &'a Field)>) -> Seq<(FieldOut, usize, usize, Field)> {
    v.map_values(|e: (&'a ParsedField, usize, usize, &'a Field)| (field_out(*e.0), e.1, e.2, *e.3))
}

proof fn lemma_cks_step(cs: Seq<FieldOut>, fields: Seq<Field>, fmt: FormatDefinition, cur: Seq<char>,
    ctx: Seq<(Seq<char>, CtxValue)>, i: int)
    requires
        0 <= i < cs.len(),
        i < fields.len(),
    ensures
        cks_list(cs.take(i + 1), fields.take(i + 1), fmt, cur, ctx) == {
            let prev = cks_list(cs.take(i), fields.take(i), fmt, cur, ctx);
            let c = cs[i];
            let fd = fields[i];
            if c.path == cur + "."@ + fd.name@ {
                prev + own_ck(c, fd, ctx) + match fd.data_type {
                    DataType::Struct { name } => match lookup_struct(fmt, name@) {
                        Some(sd2) => cks_list(c.children, sd2.fields@, fmt, cur_of(sd2, cur), ctx),
                        None => Seq::empty(),
                    },
                    _ => Seq::empty(),
                }
            } else {
                prev
            }
        },
{
    assert(cs.take(i + 1).subrange(0, i) =~= cs.take(i));
    assert(fields.take(i + 1).subrange(0, i) =~= fields.take(i));
}

fn collect_checksum_fields_recursive<'a>(pf: &'a ParsedField, fmt: &'a FormatDefinition, sd: &'a StructDefinition,
    parent: &str, ctx: &Vec<(String, CtxValue)>, results: &mut Vec<(&'a ParsedField, usize, usize, &'a Field)>)
    ensures
        entries_view(final(results)@) == entries_view(old(results)@)
            + cks_list(field_out(*pf).children, sd.fields@, *fmt, cur_of(*sd, parent@), ctx_view(ctx@)),
    decreases pf,
{
    let cur = if parent.is_empty() {
        sd.name.clone()
    } else {
        let mut p = owned(parent);
        push_str(&mut p, ".");
        push_str(&mut p, sd.name.as_str());
        p
    };
    proof { lemma_children_out(*pf); }
    let ghost cs = fields_out(pf.children@);
    let ghost fields = sd.fields@;
    let ghost cv = ctx_view(ctx@);
    let ghost base = entries_view(results@);
    let m = if pf.children.len() <= sd.fields.len() { pf.children.len() } else { sd.fields.len() };
    let mut i: usize = 0;
    assert(cs.take(0) =~= Seq::<FieldOut>::empty());
    assert(base + cks_list(cs.take(0), fields.take(0), *fmt, cur@, cv) =~= base);
    while i < m
        invariant
            i <= m,
            m == (if cs.len() <= fields.len() { cs.len() } else { fields.len() }),
            cs == fields_out(pf.children@),
            cs == field_out(*pf).children,
            fields == sd.fields@,
            cv == ctx_view(ctx@),
            cur@ == cur_of(*sd, parent@),
            entries_view(results@) == base + cks_list(cs.take(i as int), fields.take(i as int), *fmt, cur@, cv),
        decreases m - i,
    {
        proof {
            lemma_cks_step(cs, fields, *fmt, cur@, cv, i as int);
            lemma_child_smaller(*pf, i as int);
        }
        let child = &pf.children[i];
        let fd = &sd.fields[i];
        assert(cs[i as int] == field_out(*child));
        let mut fq = cur.clone();
        push_str(&mut fq, ".");
        push_str(&mut fq, fd.name.as_str());
        if str_eq(child.path.as_str(), fq.as_str()) {
            let ghost before = entries_view(results@);
            match &fd.checksum {
                Some(ck) => {
                    match eval_bound_exec(ck.start.as_str(), ctx) {
                        Some(a) => match eval_bound_exec(ck.end.as_str(), ctx) {
                            Some(b) => {
                                results.push((child, a, b, fd));
                            },
                            None => {},
                        },
                        None => {},
                    }
                },
                None => {},
            }
            assert(entries_view(results@) =~= before + own_ck(field_out(*child), *fd, cv));
            match &fd.data_type {
                DataType::Struct { name } => match fmt.get_struct(name.as_str()) {
                    Some(sd2) => {
                        collect_checksum_fields_recursive(child, fmt, sd2, cur.as_str(), ctx, results);
                    },
                    None => {},
                },
                _ => {},
            }
        }
        assert(entries_view(results@) =~= base + cks_list(cs.take(i + 1), fields.take(i + 1), *fmt, cur@, cv));
        i = i + 1;
    }
    assert(cs.take(m as int) =~= cs.subrange(0, m as int));
    proof {
        if cs.len() <= fields.len() {
            assert(cs.take(m as int) =~= cs);
        }
        lemma_cks_prefix(cs, fields, *fmt, cur@, cv, m as int);
    }
}

/// Only the first `min(|cs|, |fields|)` pairs matter.
proof fn lemma_cks_prefix(cs: Seq<FieldOut>, fields: Seq<Field>, fmt: FormatDefinition, cur: Seq<char>,
    ctx: Seq<(Seq<char>, CtxValue)>, m: int)
    requires
        m == (if cs.len() <= fields.len() { cs.len() } else { fields.len() }),
    ensures
        cks_list(cs.take(m), fields.take(m), fmt, cur, ctx) == cks_list(cs, fields, fmt, cur, ctx),
{
    if m > 0 {
        assert(cs.take(m).subrange(0, m - 1) =~= cs.subrange(0, m - 1));
        assert(fields.take(m).subrange(0, m - 1) =~= fields.subrange(0, m - 1));
    } else {
        assert(cs.take(m).len() == 0);
    }
}

/// The checksum fields of a parsed tree, with their ranges and definitions.
pub fn collect_checksum_fields<'a>(parsed: &'a ParsedField, fmt: &'a FormatDefinition, ctx: &Vec<(String, CtxValue)>)
    -> (r: Vec<(&'a ParsedField, usize, usize, &'a Field)>)
    ensures
        entries_view(r@) == cks_list(field_out(*parsed).children, fmt.root.fields@, *fmt, fmt.root.name@, ctx_view(ctx@)),
{
    let mut results: Vec<(&'a ParsedField, usize, usize, &'a Field)> = Vec::new();
    assert(entries_view(results@) =~= Seq::<(FieldOut, usize, usize, Field)>::empty());
    proof { reveal_strlit(""); }
    assert(""@ =~= Seq::<char>::empty());
    collect_checksum_fields_recursive(parsed, fmt, &fmt.root, "", ctx, &mut results);
    results
}

/// A checksum written anew.
#[derive(Debug)]
pub struct ChecksumRecalc {
    pub field_path: String,
    pub offset: usize,
    pub algorithm: String,
    pub start: usize,
    pub end: usize,
    pub original_value: u64,
    pub new_value: u64,
}

pub struct RecalcDesc {
    pub path: Seq<char>,
    pub offset: usize,
    pub algorithm: Seq<char>,
    pub start: usize,
    pub end: usize,
    pub original: u64,
    pub new: u64,
}

pub open spec fn recalc_desc(r: ChecksumRecalc) -> RecalcDesc {
    RecalcDesc {
        path: r.field_path@,
        offset: r.offset,
        algorithm: r.algorithm@,
        start: r.start,
        end: r.end,
        original: r.original_value,
        new: r.new_value,
    }
}

pub open spec fn recalcs_view(v: Seq<ChecksumRecalc>) -> Seq<RecalcDesc> {
    v.map_values(|r: ChecksumRecalc| recalc_desc(r))
}

/// Whether some modified range overlaps `[start, end)`.
pub open spec fn covers(ranges: Seq<(usize, usize)>, start: usize, end: usize) -> bool {
    exists|k: int| 0 <= k < ranges.len() && (#[trigger] ranges[k]).0 < end && ranges[k].1 > start
}

/// `b` written over `d` at `off`, where it fits.
pub open spec fn write_at(d: Seq<u8>, off: usize, b: Seq<u8>) -> Seq<u8> {
    if off + b.len() <= d.len() { d.subrange(0, off as int) + b + d.subrange(off + b.len(), d.len() as int) } else { d }
}

/// The state of recomputing checksums: the (offset, length) keys handled, the
/// data, and the checksums written.
pub struct RecalcState {
    pub processed: Seq<(usize, usize)>,
    pub data: Seq<u8>,
    pub out: Seq<RecalcDesc>,
}

/// One checksum field: skipped where its key was handled, where no modified
/// range overlaps its range, where the range does not fit the data or the
/// algorithm is unknown; else recomputed, and written where the new bytes have
/// the field's length (and this is not a dry run).
pub open spec fn recalc_step(st: RecalcState, e: (FieldOut, usize, usize, Field), ranges: Seq<(usize, usize)>, dry: bool)
    -> Result<RecalcState, EncodeErrDesc>
{
    let (c, start, end, fd) = e;
    let key = (c.offset, c.length);
    if st.processed.contains(key) || !covers(ranges, start, end) || start >= end || end > st.data.len() {
        Ok(st)
    } else {
        let alg = match fd.checksum { Some(ck) => ck.algorithm@, None => Seq::empty() };
        match checksum_of(alg, st.data.subrange(start as int, end as int)) {
            None => Ok(st),
            Some(newv) => {
                let orig = match to_u64_spec(c.value) { Some(x) => x, None => 0 };
                match checksum_bytes_spec(c.value, Some(fd), newv) {
                    Err(err) => Err(err),
                    Ok((b, _)) => if b.len() == c.length {
                        Ok(RecalcState {
                            processed: st.processed.push(key),
                            data: if dry { st.data } else { write_at(st.data, c.offset, b) },
                            out: st.out.push(RecalcDesc { path: c.path, offset: c.offset, algorithm: alg, start, end, original: orig, new: newv }),
                        })
                    } else {
                        Ok(RecalcState { processed: st.processed.push(key), ..st })
                    },
                }
            },
        }
    }
}

/// The first `n` checksum fields handled in order.
pub open spec fn recalc_fold(es: Seq<(FieldOut, usize, usize, Field)>, n: nat, ranges: Seq<(usize, usize)>, dry: bool,
    st: RecalcState) -> Result<RecalcState, EncodeErrDesc>
    decreases n,
{
    if n == 0 || n > es.len() {
        Ok(st)
    } else {
        match recalc_fold(es, (n - 1) as nat, ranges, dry, st) {
            Err(e) => Err(e),
            Ok(s1) => recalc_step(s1, es[n - 1], ranges, dry),
        }
    }
}

fn contains_key(v: &Vec<(usize, usize)>, k: (usize, usize)) -> (r: bool)
    ensures
        r == v@.contains(k),
{
    let mut i: usize = 0;
    while i < v.len()
        invariant
            i <= v@.len(),
            forall|j: int| 0 <= j < i ==> v@[j] != k,
        decreases v@.len() - i,
    {
        if v[i].0 == k.0 && v[i].1 == k.1 {
            assert(v@[i as int] == k);
            return true;
        }
        i = i + 1;
    }
    false
}

fn covers_exec(ranges: &Vec<(usize, usize)>, start: usize, end: usize) -> (r: bool)
    ensures
        r == covers(ranges@, start, end),
{
    let mut i: usize = 0;
    while i < ranges.len()
        invariant
            i <= ranges@.len(),
            forall|j: int| 0 <= j < i ==> !((#[trigger] ranges@[j]).0 < end && ranges@[j].1 > start),
        decreases ranges@.len() - i,
    {
        if ranges[i].0 < end && ranges[i].1 > start {
            return true;
        }
        i = i + 1;
    }
    false
}

fn write_at_exec(data: &mut Vec<u8>, off: usize, b: &Vec<u8>)
    ensures
        final(data)@ == write_at(old(data)@, off, b@),
{
    if off > data.len() || data.len() - off < b.len() {
        return;
    }
    let ghost o = data@;
    let n = data.len();
    let mut i: usize = 0;
    while i < b.len()
        invariant
            i <= b@.len(),
            n == o.len(),
            off + b@.len() <= o.len(),
            data@.len() == o.len(),
            data@ == o.subrange(0, off as int) + b@.subrange(0, i as int) + o.subrange(off + i, o.len() as int),
        decreases b@.len() - i,
    {
        data.set(off + i, b[i]);
        assert(data@ =~= o.subrange(0, off as int) + b@.subrange(0, i + 1) + o.subrange(off + i + 1, o.len() as int));
        i = i + 1;
    }
    assert(b@.subrange(0, b@.len() as int) =~= b@);
}

/// Recomputes the checksums whose ranges overlap a modified range, writing
/// them into `data` unless `dry_run`; returns what was recomputed.
pub fn recalc_checksums(entries: &Vec<(&ParsedField, usize, usize, &Field)>, ranges: &Vec<(usize, usize)>,
    data: &mut Vec<u8>, dry_run: bool) -> (r: Result<Vec<ChecksumRecalc>, EncodeError>)
    ensures
        match recalc_fold(entries_view(entries@), entries@.len(), ranges@, dry_run,
            RecalcState { processed: Seq::empty(), data: old(data)@, out: Seq::empty() }) {
            Ok(st) => (r matches Ok(v) && recalcs_view(v@) == st.out && final(data)@ == st.data),
            Err(e) => (r matches Err(x) && encode_err_desc(x) == e),
        },
{
    let ghost es = entries_view(entries@);
    let ghost st0 = RecalcState { processed: Seq::empty(), data: data@, out: Seq::empty() };
    let mut processed: Vec<(usize, usize)> = Vec::new();
    let mut out: Vec<ChecksumRecalc> = Vec::new();
    let mut i: usize = 0;
    assert(recalcs_view(out@) =~= Seq::<RecalcDesc>::empty());
    while i < entries.len()
        invariant
            i <= entries@.len(),
            es == entries_view(entries@),
            st0 == (RecalcState { processed: Seq::empty(), data: old(data)@, out: Seq::empty() }),
            recalc_fold(es, i as nat, ranges@, dry_run, st0)
                == Ok::<RecalcState, EncodeErrDesc>(RecalcState { processed: processed@, data: data@, out: recalcs_view(out@) }),
        decreases entries@.len() - i,
    {
        let (field, start, end, fd) = entries[i];
        assert(es[i as int] == (field_out(*field), start, end, *fd));
        match recalc_one(field, start, end, fd, ranges, &mut processed, &mut out, data, dry_run) {
            Ok(()) => {},
            Err(e) => {
                proof { lemma_recalc_err(es, (i + 1) as nat, entries@.len(), ranges@, dry_run, st0); }
                return Err(e);
            },
        }
        i = i + 1;
    }
    Ok(out)
}

pub proof fn lemma_field_out_parts(f: ParsedField)
    ensures
        field_out(f).value == value_desc(f.value),
        field_out(f).offset == f.offset,
        field_out(f).length == f.length,
        field_out(f).path == f.path@,
        field_out(f).truncated == f.truncated,
        field_out(f).skipped == f.skipped,
        field_out(f).display_format == f.display_format,
{
}

/// One checksum field of the recomputation.
fn recalc_one(field: &ParsedField, start: usize, end: usize, fd: &Field, ranges: &Vec<(usize, usize)>,
    processed: &mut Vec<(usize, usize)>, out: &mut Vec<ChecksumRecalc>, data: &mut Vec<u8>, dry_run: bool)
    -> (r: Result<(), EncodeError>)
    ensures
        match recalc_step(RecalcState { processed: old(processed)@, data: old(data)@, out: recalcs_view(old(out)@) },
            (field_out(*field), start, end, *fd), ranges@, dry_run) {
            Ok(st) => r is Ok && st == (RecalcState { processed: final(processed)@, data: final(data)@, out: recalcs_view(final(out)@) }),
            Err(e) => (r matches Err(x) && encode_err_desc(x) == e),
        },
{
    proof { lemma_field_out_parts(*field); }
    let key = (field.offset, field.length);
    if contains_key(processed, key) || !covers_exec(ranges, start, end) || start >= end || end > data.len() {
        return Ok(());
    }
    let alg: &str = match &fd.checksum {
        Some(ck) => ck.algorithm.as_str(),
        None => "",
    };
    proof { reveal_strlit(""); }
    assert(fd.checksum is None ==> alg@ =~= Seq::<char>::empty());
    let range = copy_range(data.as_slice(), start, end);
    let newv: u64 = if str_eq(alg, "crc32") {
        crc32(range.as_slice()) as u64
    } else if str_eq(alg, "adler32") {
        adler32(range.as_slice()) as u64
    } else if str_eq(alg, "sum") {
        wrapping_sum(range.as_slice()) as u64
    } else {
        return Ok(());
    };
    let orig = match field.value.to_u64() {
        Some(x) => x,
        None => 0,
    };
    let (b, _) = match encode_checksum_bytes(field, Some(fd), newv) {
        Ok(x) => x,
        Err(e) => return Err(e),
    };
    if b.len() == field.length {
        if !dry_run {
            write_at_exec(data, field.offset, &b);
        }
        let ghost before = out@;
        out.push(ChecksumRecalc {
            field_path: field.path.clone(),
            offset: field.offset,
            algorithm: owned(alg),
            start,
            end,
            original_value: orig,
            new_value: newv,
        });
        assert(recalcs_view(out@) =~= recalcs_view(before).push(recalc_desc(out@.last())));
    }
    processed.push(key);
    Ok(())
}

proof fn lemma_recalc_err(es: Seq<(FieldOut, usize, usize, Field)>, k: nat, n: nat, ranges: Seq<(usize, usize)>, dry: bool, st: RecalcState)
    requires
        k <= n <= es.len(),
        recalc_fold(es, k, ranges, dry, st) is Err,
    ensures
        recalc_fold(es, n, ranges, dry, st) == recalc_fold(es, k, ranges, dry, st),
    decreases n - k,
{
    if k < n {
        lemma_recalc_err(es, k, (n - 1) as nat, ranges, dry, st);
    }
}

// ---------------------------------------------------------------------
// Patch instructions.
// ---------------------------------------------------------------------

/// A field path and the text of its new value.
#[derive(Debug, Clone)]
pub struct PatchInstruction {
    pub field_path: String,
    pub new_value_str: String,
}

pub open spec fn instr_view(v: Seq<PatchInstruction>) -> Seq<(Seq<char>, Seq<char>)> {
    v.map_values(|x: PatchInstruction| (x.field_path@, x.new_value_str@))
}

/// The instructions with what each text reads as for a float field.
pub open spec fn patch_view(v: Seq<PatchInstruction>, fl: Seq<FloatReading>) -> Seq<(Seq<char>, Seq<char>, FloatDesc)> {
    Seq::new(v.len(), |i: int| (v[i].field_path@, v[i].new_value_str@, float_desc(fl[i])))
}

/// The position of the first pair with key `k`, or -1.
pub open spec fn pair_find(m: Seq<(Seq<char>, Seq<char>)>, k: Seq<char>) -> int
    decreases m.len(),
{
    if m.len() == 0 {
        -1
    } else if pair_find(m.drop_last(), k) >= 0 {
        pair_find(m.drop_last(), k)
    } else if m.last().0 == k {
        m.len() - 1
    } else {
        -1
    }
}

/// Setting a path's new value: a later setting replaces an earlier one in place.
pub open spec fn pair_put(m: Seq<(Seq<char>, Seq<char>)>, k: Seq<char>, v: Seq<char>) -> Seq<(Seq<char>, Seq<char>)> {
    let i = pair_find(m, k);
    if i < 0 { m.push((k, v)) } else { m.update(i, (k, v)) }
}

/// The text before and after the first '='.
pub open spec fn split_eq(s: Seq<char>) -> Option<(Seq<char>, Seq<char>)> {
    match first_index(s, '=') {
        Some(i) => Some((s.take(i), s.skip(i + 1))),
        None => None,
    }
}

/// The pieces of a text between newlines.
pub open spec fn split_lines(s: Seq<char>) -> Seq<Seq<char>>
    decreases s.len(),
{
    if s.len() == 0 {
        seq![Seq::empty()]
    } else {
        let rest = split_lines(s.drop_last());
        if s.last() == '\n' {
            rest.push(Seq::empty())
        } else {
            rest.update(rest.len() - 1, rest.last().push(s.last()))
        }
    }
}

proof fn lemma_split_lines_nonempty(s: Seq<char>)
    ensures
        split_lines(s).len() >= 1,
    decreases s.len(),
{
    if s.len() > 0 {
        lemma_split_lines_nonempty(s.drop_last());
    }
}

/// The settings of the first `n` lines of a patch file: blank lines and lines
/// starting with '#' are skipped, and so are lines without '='.
pub open spec fn file_settings(lines: Seq<Seq<char>>, n: nat, m: Seq<(Seq<char>, Seq<char>)>) -> Seq<(Seq<char>, Seq<char>)>
    decreases n,
{
    if n == 0 || n > lines.len() {
        m
    } else {
        let m1 = file_settings(lines, (n - 1) as nat, m);
        let t = trim(lines[n - 1]);
        if t.len() == 0 || t[0] == '#' {
            m1
        } else {
            match split_eq(t) {
                Some((p, v)) => pair_put(m1, trim(p), trim(v)),
                None => m1,
            }
        }
    }
}

/// The settings of the first `n` `--set` arguments, or the first one without '='.
pub open spec fn set_settings(sets: Seq<Seq<char>>, n: nat, m: Seq<(Seq<char>, Seq<char>)>) -> Result<Seq<(Seq<char>, Seq<char>)>, Seq<char>>
    decreases n,
{
    if n == 0 || n > sets.len() {
        Ok(m)
    } else {
        match set_settings(sets, (n - 1) as nat, m) {
            Err(e) => Err(e),
            Ok(m1) => match split_eq(sets[n - 1]) {
                Some((p, v)) => Ok(pair_put(m1, trim(p), trim(v))),
                None => Err(sets[n - 1]),
            },
        }
    }
}

/// The message for a `--set` argument without '='.
pub open spec fn bad_set_message(s: Seq<char>) -> Seq<char> {
    "无效的--set参数格式: "@ + s + "，应为\"字段路径=新值\""@
}

/// The instructions of a patch file's text and of `--set` arguments; a later
/// setting of a path replaces an earlier one, and paths keep the order in which
/// they were first set.
pub open spec fn instructions_spec(sets: Seq<Seq<char>>, file: Option<Seq<char>>) -> Result<Seq<(Seq<char>, Seq<char>)>, Seq<char>> {
    let m = match file {
        Some(t) => file_settings(split_lines(t), split_lines(t).len(), Seq::empty()),
        None => Seq::empty(),
    };
    match set_settings(sets, sets.len(), m) {
        Ok(r) => Ok(r),
        Err(bad) => Err(bad_message(bad)),
    }
}

pub open spec fn bad_message(s: Seq<char>) -> Seq<char> {
    bad_set_message(s)
}

fn split_eq_exec(s: &Vec<char>) -> (r: Option<(Vec<char>, Vec<char>)>)
    ensures
        match split_eq(s@) {
            Some((a, b)) => (r matches Some(x) && x.0@ == a && x.1@ == b),
            None => r is None,
        },
{
    let i = match first_index_exec(s, '=') {
        Some(i) => i,
        None => return None,
    };
    proof { lemma_first_index_bounds(s@, '='); }
    let n = s.len();
    assert(i < n);
    let mut a: Vec<char> = Vec::new();
    let mut k: usize = 0;
    while k < i
        invariant
            k <= i,
            i < s@.len(),
            a@ == s@.take(k as int),
        decreases i - k,
    {
        a.push(s[k]);
        assert(s@.take(k + 1) =~= s@.take(k as int).push(s@[k as int]));
        k = k + 1;
    }
    let mut b: Vec<char> = Vec::new();
    let mut j: usize = i + 1;
    while j < s.len()
        invariant
            i + 1 <= j <= s@.len(),
            b@ == s@.subrange(i + 1, j as int),
        decreases s@.len() - j,
    {
        b.push(s[j]);
        assert(s@.subrange(i + 1, j + 1) =~= s@.subrange(i + 1, j as int).push(s@[j as int]));
        j = j + 1;
    }
    assert(b@ =~= s@.skip(i + 1));
    Some((a, b))
}

fn put_instruction(m: &mut Vec<PatchInstruction>, k: Vec<char>, v: Vec<char>)
    ensures
        instr_view(final(m)@) == pair_put(instr_view(old(m)@), k@, v@),
{
    let ghost mv = instr_view(m@);
    let ks = string_from_chars(k.as_slice());
    let vs = string_from_chars(v.as_slice());
    let mut i: usize = 0;
    while i < m.len()
        invariant
            i <= m@.len(),
            mv == instr_view(m@),
            mv == instr_view(old(m)@),
            ks@ == k@,
            vs@ == v@,
            forall|j: int| 0 <= j < i ==> mv[j].0 != k@,
        decreases m@.len() - i,
    {
        assert(mv[i as int] == (m@[i as int].field_path@, m@[i as int].new_value_str@));
        if str_eq(m[i].field_path.as_str(), ks.as_str()) {
            proof { lemma_pair_find(mv, k@, i as int); }
            m.set(i, PatchInstruction { field_path: ks, new_value_str: vs });
            assert(instr_view(m@) =~= mv.update(i as int, (k@, v@)));
            return;
        }
        i = i + 1;
    }
    proof { lemma_pair_absent(mv, k@); }
    m.push(PatchInstruction { field_path: ks, new_value_str: vs });
    assert(instr_view(m@) =~= mv.push((k@, v@)));
}

proof fn lemma_pair_find(c: Seq<(Seq<char>, Seq<char>)>, k: Seq<char>, i: int)
    requires
        0 <= i < c.len(),
        c[i].0 == k,
        forall|j: int| 0 <= j < i ==> c[j].0 != k,
    ensures
        pair_find(c, k) == i,
    decreases c.len(),
{
    if i < c.len() - 1 {
        lemma_pair_find(c.drop_last(), k, i);
    } else {
        lemma_pair_absent(c.drop_last(), k);
    }
}

proof fn lemma_pair_absent(c: Seq<(Seq<char>, Seq<char>)>, k: Seq<char>)
    requires
        forall|j: int| 0 <= j < c.len() ==> c[j].0 != k,
    ensures
        pair_find(c, k) == -1,
    decreases c.len(),
{
    if c.len() > 0 {
        lemma_pair_absent(c.drop_last(), k);
    }
}

/// Handles one line of a patch file.
fn file_line(m: &mut Vec<PatchInstruction>, line: &Vec<char>)
    ensures
        instr_view(final(m)@) == ({
            let t = trim(line@);
            if t.len() == 0 || t[0] == '#' {
                instr_view(old(m)@)
            } else {
                match split_eq(t) {
                    Some((p, v)) => pair_put(instr_view(old(m)@), trim(p), trim(v)),
                    None => instr_view(old(m)@),
                }
            }
        }),
{
    let t = trim_chars(line.as_slice());
    if t.len() == 0 || t[0] == '#' {
        return;
    }
    match split_eq_exec(&t) {
        Some((p, v)) => {
            let pt = trim_chars(p.as_slice());
            let vt = trim_chars(v.as_slice());
            put_instruction(m, pt, vt);
        },
        None => {},
    }
}

/// Reads patch instructions from the text of a patch file, if there is one,
/// then from `--set` arguments of the form `path=value`.
pub fn parse_patch_instructions(sets: &Vec<String>, file_content: Option<&str>) -> (r: Result<Vec<PatchInstruction>, String>)
    ensures
        match instructions_spec(names_view(sets@), match file_content { Some(t) => Some(t@), None => None }) {
            Ok(v) => (r matches Ok(x) && instr_view(x@) == v),
            Err(e) => (r matches Err(x) && x@ == e),
        },
{
    let mut m: Vec<PatchInstruction> = Vec::new();
    assert(instr_view(m@) =~= Seq::<(Seq<char>, Seq<char>)>::empty());
    match file_content {
        Some(text) => {
            let cs = chars_of(text);
            let ghost lines = split_lines(cs@);
            let mut cur: Vec<char> = Vec::new();
            let mut i: usize = 0;
            let ghost mut done: nat = 0;
            assert(cs@.take(0) =~= Seq::<char>::empty());
            while i < cs.len()
                invariant
                    i <= cs@.len(),
                    cs@ == text@,
                    split_lines(cs@.take(i as int)).len() >= 1,
                    cur@ == split_lines(cs@.take(i as int)).last(),
                    instr_view(m@) == file_settings(split_lines(cs@.take(i as int)),
                        (split_lines(cs@.take(i as int)).len() - 1) as nat, Seq::empty()),
                decreases cs@.len() - i,
            {
                let ghost pre = split_lines(cs@.take(i as int));
                assert(cs@.take(i + 1).drop_last() =~= cs@.take(i as int));
                if cs[i] == '\n' {
                    file_line(&mut m, &cur);
                    proof { lemma_file_settings_prefix(pre.push(Seq::empty()), pre, (pre.len() - 1) as nat); }
                    cur = Vec::new();
                    assert(cur@ =~= Seq::<char>::empty());
                } else {
                    cur.push(cs[i]);
                    proof { lemma_file_settings_update(pre, (pre.len() - 1) as nat, cur@); }
                }
                proof { lemma_split_lines_nonempty(cs@.take(i + 1)); }
                i = i + 1;
            }
            assert(cs@.take(cs@.len() as int) =~= cs@);
            let ghost pre = split_lines(cs@);
            file_line(&mut m, &cur);
            assert(instr_view(m@) == file_settings(pre, pre.len(), Seq::empty()));
        },
        None => {},
    }
    let ghost base = instr_view(m@);
    assert(base == match file_content {
        Some(t) => file_settings(split_lines(t@), split_lines(t@).len(), Seq::empty()),
        None => Seq::<(Seq<char>, Seq<char>)>::empty(),
    });
    let mut i: usize = 0;
    while i < sets.len()
        invariant
            i <= sets@.len(),
            base == match file_content {
                Some(t) => file_settings(split_lines(t@), split_lines(t@).len(), Seq::empty()),
                None => Seq::<(Seq<char>, Seq<char>)>::empty(),
            },
            set_settings(names_view(sets@), i as nat, base) == Ok::<Seq<(Seq<char>, Seq<char>)>, Seq<char>>(instr_view(m@)),
        decreases sets@.len() - i,
    {
        let sc = chars_of(sets[i].as_str());
        assert(names_view(sets@)[i as int] == sets@[i as int]@);
        match split_eq_exec(&sc) {
            Some((p, v)) => {
                let pt = trim_chars(p.as_slice());
                let vt = trim_chars(v.as_slice());
                put_instruction(&mut m, pt, vt);
            },
            None => {
                proof { lemma_set_err(names_view(sets@), (i + 1) as nat, sets@.len(), base); }
                let mut msg = String::new();
                push_str(&mut msg, "无效的--set参数格式: ");
                push_str(&mut msg, sets[i].as_str());
                push_str(&mut msg, "，应为\"字段路径=新值\"");
                return Err(msg);
            },
        }
        i = i + 1;
    }
    Ok(m)
}

proof fn lemma_set_err(sets: Seq<Seq<char>>, k: nat, n: nat, m: Seq<(Seq<char>, Seq<char>)>)
    requires
        k <= n <= sets.len(),
        set_settings(sets, k, m) is Err,
    ensures
        set_settings(sets, n, m) == set_settings(sets, k, m),
    decreases n - k,
{
    if k < n {
        lemma_set_err(sets, k, (n - 1) as nat, m);
    }
}

proof fn lemma_file_settings_prefix(a: Seq<Seq<char>>, b: Seq<Seq<char>>, n: nat)
    requires
        n < b.len(),
        n < a.len(),
        forall|j: int| 0 <= j <= n ==> a[j] == b[j],
    ensures
        file_settings(a, n + 1, Seq::empty()) == file_settings(b, n + 1, Seq::empty()),
        file_settings(a, n, Seq::empty()) == file_settings(b, n, Seq::empty()),
    decreases n,
{
    assert(a[n as int] == b[n as int]);
    if n > 0 {
        lemma_file_settings_prefix(a, b, (n - 1) as nat);
    }
    let fa = file_settings(a, n, Seq::empty());
    let fb = file_settings(b, n, Seq::empty());
    assert(fa == fb);
    assert(file_settings(a, n + 1, Seq::empty()) == file_settings(b, n + 1, Seq::empty())) by {
        reveal_with_fuel(file_settings, 2);
    }
}

proof fn lemma_file_settings_update(a: Seq<Seq<char>>, n: nat, x: Seq<char>)
    requires
        n < a.len(),
    ensures
        file_settings(a.update(n as int, x), n, Seq::empty()) == file_settings(a, n, Seq::empty()),
    decreases n,
{
    if n > 0 {
        lemma_file_settings_update_below(a, n, x, (n - 1) as nat);
    }
}

proof fn lemma_file_settings_update_below(a: Seq<Seq<char>>, n: nat, x: Seq<char>, k: nat)
    requires
        k < n < a.len(),
    ensures
        file_settings(a.update(n as int, x), k + 1, Seq::empty()) == file_settings(a, k + 1, Seq::empty()),
    decreases k,
{
    assert(a.update(n as int, x)[k as int] == a[k as int]);
    if k > 0 {
        lemma_file_settings_update_below(a, n, x, (k - 1) as nat);
    }
    assert(file_settings(a.update(n as int, x), k, Seq::empty()) == file_settings(a, k, Seq::empty()));
    assert(file_settings(a.update(n as int, x), k + 1, Seq::empty()) == file_settings(a, k + 1, Seq::empty())) by {
        reveal_with_fuel(file_settings, 2);
    }
}

// ---------------------------------------------------------------------
// Messages.
// ---------------------------------------------------------------------

/// How Rust's `{:?}` shows a character of code below 256.
pub open spec fn char_debug(c: char) -> Seq<char> {
    let inner = if c == '\t' {
        "\\t"@
    } else if c == '\r' {
        "\\r"@
    } else if c == '\n' {
        "\\n"@
    } else if c == '\'' {
        "\\'"@
    } else if c == '\\' {
        "\\\\"@
    } else if c == '\0' {
        "\\0"@
    } else if c < ' ' || ('\u{7f}' <= c && c <= '\u{9f}') || c == '\u{ad}' {
        "\\u{"@ + crate::numfmt::radix_str(c as nat, 16, false) + "}"@
    } else {
        seq![c]
    };
    "'"@ + inner + "'"@
}

fn push_char_debug(s: &mut String, c: char)
    ensures
        final(s)@ == old(s)@ + char_debug(c),
{
    push_str(s, "'");
    if c == '\t' {
        push_str(s, "\\t");
    } else if c == '\r' {
        push_str(s, "\\r");
    } else if c == '\n' {
        push_str(s, "\\n");
    } else if c == '\'' {
        push_str(s, "\\'");
    } else if c == '\\' {
        push_str(s, "\\\\");
    } else if c == '\0' {
        push_str(s, "\\0");
    } else if c < ' ' || ('\u{7f}' <= c && c <= '\u{9f}') || c == '\u{ad}' {
        push_str(s, "\\u{");
        crate::numfmt::push_radix(s, c as u64, 16, false);
        push_str(s, "}");
    } else {
        push_char(s, c);
    }
    push_str(s, "'");
    assert(final(s)@ =~= old(s)@ + char_debug(c));
}

/// The text of a `hex::FromHexError`.
pub open spec fn hex_err_text(h: HexError) -> Seq<char> {
    match h {
        HexError::InvalidHexCharacter { c, index } => "Invalid character "@ + char_debug(c) + " at position "@ + dec_str(index as nat),
        HexError::OddLength => "Odd number of digits"@,
        HexError::InvalidStringLength => "Invalid string length"@,
    }
}

/// Names in quotes, separated by ", ", in brackets.
pub open spec fn names_debug(ns: Seq<Seq<char>>) -> Seq<char> {
    "["@ + quoted_list(ns, ns.len()) + "]"@
}

pub open spec fn quoted_list(ns: Seq<Seq<char>>, n: nat) -> Seq<char>
    decreases n,
{
    if n == 0 || n > ns.len() {
        Seq::empty()
    } else if n == 1 {
        "\""@ + ns[0] + "\""@
    } else {
        quoted_list(ns, (n - 1) as nat) + ", \""@ + ns[n - 1] + "\""@
    }
}

/// The text of an encoding error.
pub open spec fn encode_err_text(e: EncodeErrDesc) -> Seq<char> {
    match e {
        EncodeErrDesc::Int { kind, err } => int_kind_name(kind) + "值编码失败: "@ + int_value_error_text(err),
        EncodeErrDesc::BytesHex(h) => "bytes十六进制解析失败: "@ + hex_err_text(h),
        EncodeErrDesc::BytesLength { expected, actual } =>
            "bytes长度不匹配: 期望"@ + dec_str(expected as nat) + "字节，实际"@ + dec_str(actual as nat) + "字节"@,
        EncodeErrDesc::EnumNotFound(n) => "枚举定义未找到: "@ + n,
        EncodeErrDesc::EnumValue { err, names } => "枚举值解析失败: "@ + int_value_error_text(err) + ". 可用值: "@ + names_debug(names),
        EncodeErrDesc::MissingEnumDefinition => "缺少字段定义，无法编码枚举"@,
        EncodeErrDesc::OutOfRange { kind, value } => "值超出"@ + int_kind_name(kind) + "范围: "@ + signed_str(value as int),
        EncodeErrDesc::UnsupportedIntType => "不支持的整数类型"@,
        EncodeErrDesc::BitFieldUnsupported => "BitField类型暂不支持直接修改"@,
        EncodeErrDesc::ArrayUnsupported => "Array类型暂不支持直接修改，请修改具体的数组元素"@,
        EncodeErrDesc::StructUnsupported => "Struct类型不能直接修改，请修改具体的子字段"@,
        EncodeErrDesc::FloatField { double, message } => (if double { "f64"@ } else { "f32"@ }) + "值编码失败: "@ + message,
    }
}

fn push_kind(s: &mut String, k: IntKind)
    ensures
        final(s)@ == old(s)@ + int_kind_name(k),
{
    match k {
        IntKind::U8 => push_str(s, "u8"),
        IntKind::U16 => push_str(s, "u16"),
        IntKind::U32 => push_str(s, "u32"),
        IntKind::U64 => push_str(s, "u64"),
        IntKind::I8 => push_str(s, "i8"),
        IntKind::I16 => push_str(s, "i16"),
        IntKind::I32 => push_str(s, "i32"),
        IntKind::I64 => push_str(s, "i64"),
    }
}

fn push_int_value_error(s: &mut String, e: IntValueError)
    ensures
        final(s)@ == old(s)@ + int_value_error_text(e),
{
    match e {
        IntValueError::Hex(k) => { push_str(s, "十六进制解析失败: "); push_int_err(s, k); },
        IntValueError::Dec(k) => { push_str(s, "十进制解析失败: "); push_int_err(s, k); },
        IntValueError::OutOfRange { value, min, max } => {
            push_str(s, "值 ");
            push_i128_any(s, value);
            push_str(s, " 超出范围 [");
            push_i128_any(s, min);
            push_str(s, ", ");
            push_i128_any(s, max);
            push_str(s, "]");
        },
    }
    assert(final(s)@ =~= old(s)@ + int_value_error_text(e));
}

/// Appends the decimal text of any `i128`.
fn push_i128_any(s: &mut String, v: i128)
    ensures
        final(s)@ == old(s)@ + i128_text(v),
{
    if v < 0 {
        push_char(s, '-');
        let m: u128 = if v == i128::MIN { 170141183460469231731687303715884105728u128 } else { (-v) as u128 };
        push_u128(s, m);
        assert(final(s)@ =~= old(s)@ + i128_text(v));
    } else {
        push_u128(s, v as u128);
    }
}

fn push_u128(s: &mut String, n: u128)
    ensures
        final(s)@ == old(s)@ + dec_str(n as nat),
    decreases n,
{
    if n < 10 {
        push_dec(s, n as u64);
    } else {
        proof { crate::numfmt::lemma_div_smaller(n as nat, 10); }
        push_u128(s, n / 10);
        push_dec(s, (n % 10) as u64);
        assert(final(s)@ =~= old(s)@ + dec_str(n as nat));
    }
}

impl EncodeError {
    /// The error's text.
    pub fn message(&self) -> (r: String)
        ensures
            r@ == encode_err_text(encode_err_desc(*self)),
    {
        let mut s = String::new();
        match self {
            EncodeError::Int { kind, err } => {
                push_kind(&mut s, *kind);
                push_str(&mut s, "值编码失败: ");
                push_int_value_error(&mut s, *err);
            },
            EncodeError::BytesHex(h) => {
                push_str(&mut s, "bytes十六进制解析失败: ");
                match h {
                    HexError::InvalidHexCharacter { c, index } => {
                        push_str(&mut s, "Invalid character ");
                        push_char_debug(&mut s, *c);
                        push_str(&mut s, " at position ");
                        push_dec(&mut s, *index as u64);
                    },
                    HexError::OddLength => push_str(&mut s, "Odd number of digits"),
                    HexError::InvalidStringLength => push_str(&mut s, "Invalid string length"),
                }
            },
            EncodeError::BytesLength { expected, actual } => {
                push_str(&mut s, "bytes长度不匹配: 期望");
                push_dec(&mut s, *expected as u64);
                push_str(&mut s, "字节，实际");
                push_dec(&mut s, *actual as u64);
                push_str(&mut s, "字节");
            },
            EncodeError::EnumNotFound(n) => {
                push_str(&mut s, "枚举定义未找到: ");
                push_str(&mut s, n.as_str());
            },
            EncodeError::EnumValue { err, names } => {
                push_str(&mut s, "枚举值解析失败: ");
                push_int_value_error(&mut s, *err);
                push_str(&mut s, ". 可用值: ");
                push_str(&mut s, "[");
                let ghost ns = names_view(names@);
                let ghost o = s@;
                let mut i: usize = 0;
                while i < names.len()
                    invariant
                        i <= names@.len(),
                        ns == names_view(names@),
                        s@ == o + quoted_list(ns, i as nat),
                    decreases names@.len() - i,
                {
                    if i == 0 {
                        push_str(&mut s, "\"");
                    } else {
                        push_str(&mut s, ", \"");
                    }
                    push_str(&mut s, names[i].as_str());
                    push_str(&mut s, "\"");
                    assert(s@ =~= o + quoted_list(ns, (i + 1) as nat));
                    i = i + 1;
                }
                push_str(&mut s, "]");
            },
            EncodeError::MissingEnumDefinition => push_str(&mut s, "缺少字段定义，无法编码枚举"),
            EncodeError::OutOfRange { kind, value } => {
                push_str(&mut s, "值超出");
                push_kind(&mut s, *kind);
                push_str(&mut s, "范围: ");
                push_signed(&mut s, *value);
            },
            EncodeError::UnsupportedIntType => push_str(&mut s, "不支持的整数类型"),
            EncodeError::BitFieldUnsupported => push_str(&mut s, "BitField类型暂不支持直接修改"),
            EncodeError::ArrayUnsupported => push_str(&mut s, "Array类型暂不支持直接修改，请修改具体的数组元素"),
            EncodeError::StructUnsupported => push_str(&mut s, "Struct类型不能直接修改，请修改具体的子字段"),
            EncodeError::FloatField { double, message } => {
                if *double { push_str(&mut s, "f64"); } else { push_str(&mut s, "f32"); }
                push_str(&mut s, "值编码失败: ");
                push_str(&mut s, message.as_str());
            },
        }
        assert(s@ =~= encode_err_text(encode_err_desc(*self)));
        s
    }
}

// ---------------------------------------------------------------------
// Planning a patch.
// ---------------------------------------------------------------------

/// One field changed by a patch.
#[derive(Debug)]
pub struct FieldChange {
    pub field_path: String,
    pub offset: usize,
    pub length: usize,
    pub original_bytes: Vec<u8>,
    pub new_bytes: Vec<u8>,
    pub original_value_display: Vec<TextPart>,
    pub new_value_display: String,
}

pub struct ChangeDesc {
    pub path: Seq<char>,
    pub offset: usize,
    pub length: usize,
    pub original: Seq<u8>,
    pub new: Seq<u8>,
    pub original_display: Seq<Piece>,
    pub new_display: Seq<char>,
}

pub open spec fn change_desc(c: FieldChange) -> ChangeDesc {
    ChangeDesc {
        path: c.field_path@,
        offset: c.offset,
        length: c.length,
        original: c.original_bytes@,
        new: c.new_bytes@,
        original_display: pieces(c.original_value_display@),
        new_display: c.new_value_display@,
    }
}

pub open spec fn changes_view(v: Seq<FieldChange>) -> Seq<ChangeDesc> {
    v.map_values(|c: FieldChange| change_desc(c))
}

/// Why a patch could not be planned.
#[derive(Debug)]
pub enum PatchFailure {
    Parse(ParserError),
    FieldNotFound { path: String, available: Vec<String>, suggestion: String },
    NotModifiable(String),
    OutsideInput(String),
    Encoding { path: String, error: EncodeError },
    LengthMismatch { path: String, expected: usize, actual: usize },
    Checksum(EncodeError),
}

pub enum FailDesc {
    Parse(ErrDesc),
    NotFound { path: Seq<char>, available: Seq<Seq<char>>, suggestion: Seq<char> },
    NotModifiable(Seq<char>),
    OutsideInput(Seq<char>),
    Encoding { path: Seq<char>, error: EncodeErrDesc },
    LengthMismatch { path: Seq<char>, expected: usize, actual: usize },
    Checksum(EncodeErrDesc),
}

pub open spec fn fail_desc(f: PatchFailure) -> FailDesc {
    match f {
        PatchFailure::Parse(e) => FailDesc::Parse(err_desc(e)),
        PatchFailure::FieldNotFound { path, available, suggestion } =>
            FailDesc::NotFound { path: path@, available: names_view(available@), suggestion: suggestion@ },
        PatchFailure::NotModifiable(p) => FailDesc::NotModifiable(p@),
        PatchFailure::OutsideInput(p) => FailDesc::OutsideInput(p@),
        PatchFailure::Encoding { path, error } => FailDesc::Encoding { path: path@, error: encode_err_desc(error) },
        PatchFailure::LengthMismatch { path, expected, actual } => FailDesc::LengthMismatch { path: path@, expected, actual },
        PatchFailure::Checksum(e) => FailDesc::Checksum(encode_err_desc(e)),
    }
}

/// The changes so far, the byte ranges they wrote, and the data with them written.
pub struct PlanState {
    pub changes: Seq<ChangeDesc>,
    pub ranges: Seq<(usize, usize)>,
    pub data: Seq<u8>,
}

/// The definition of the field at a path, looked for from the root struct.
pub open spec fn root_def(fmt: FormatDefinition, path: Seq<char>) -> Option<Field> {
    def_find(fmt, fmt.root, path, Seq::empty(), fmt.structs@.len() + 1)
}

/// One instruction of a patch: the field at its path is found, must have been
/// read, its new value is encoded to exactly its length, and written.
#[verifier::opaque]
pub open spec fn plan_step(root: FieldOut, fmt: FormatDefinition, input: Seq<u8>, st: PlanState,
    ins: (Seq<char>, Seq<char>, FloatDesc)) -> Result<PlanState, FailDesc>
{
    let (path, val, fl) = ins;
    match find_path(root, path) {
        None => {
            let all = leaf_paths(root);
            Err(FailDesc::NotFound { path, available: all, suggestion: suggestion_text(path, all) })
        },
        Some(f) => if f.truncated || f.skipped {
            Err(FailDesc::NotModifiable(path))
        } else {
            match encode_value_spec(f, root_def(fmt, path), val, fl, fmt) {
                Err(e) => Err(FailDesc::Encoding { path, error: e }),
                Ok((b, t)) => if b.len() != f.length {
                    Err(FailDesc::LengthMismatch { path, expected: f.length, actual: b.len() as usize })
                } else if f.offset + f.length > input.len() {
                    Err(FailDesc::OutsideInput(path))
                } else {
                    Ok(PlanState {
                        changes: st.changes.push(ChangeDesc {
                            path,
                            offset: f.offset,
                            length: f.length,
                            original: input.subrange(f.offset as int, f.offset + f.length),
                            new: b,
                            original_display: display_pieces(f.value, f.display_format),
                            new_display: t,
                        }),
                        ranges: st.ranges.push((f.offset, (f.offset + f.length) as usize)),
                        data: write_at(st.data, f.offset, b),
                    })
                },
            }
        },
    }
}

/// The first `n` instructions applied in order, from the unchanged input.
pub open spec fn plan_fold(root: FieldOut, fmt: FormatDefinition, input: Seq<u8>, ins: Seq<(Seq<char>, Seq<char>, FloatDesc)>, n: nat)
    -> Result<PlanState, FailDesc>
    decreases n,
{
    if n == 0 || n > ins.len() {
        Ok(PlanState { changes: Seq::empty(), ranges: Seq::empty(), data: input })
    } else {
        match plan_fold(root, fmt, input, ins, (n - 1) as nat) {
            Err(e) => Err(e),
            Ok(st) => plan_step(root, fmt, input, st, ins[n - 1]),
        }
    }
}

/// The checksum fields of a parsed tree, with their ranges, as the patch sees them.
pub open spec fn tree_checksums(root: FieldOut, fmt: FormatDefinition) -> Seq<(FieldOut, usize, usize, Field)> {
    cks_list(root.children, fmt.root.fields@, fmt, fmt.root.name@, ctx_view_of(root))
}

pub open spec fn ctx_view_of(root: FieldOut) -> Seq<(Seq<char>, CtxValue)> {
    ctx_of_tree(root)
}

/// The changes, the recomputed checksums and the data of a planned patch.
#[derive(Debug)]
pub struct PatchPlan {
    pub changes: Vec<FieldChange>,
    pub checksum_recalcs: Vec<ChecksumRecalc>,
    pub data: Vec<u8>,
}

proof fn lemma_plan_err(root: FieldOut, fmt: FormatDefinition, input: Seq<u8>, ins: Seq<(Seq<char>, Seq<char>, FloatDesc)>, k: nat, n: nat)
    requires
        k <= n <= ins.len(),
        plan_fold(root, fmt, input, ins, k) is Err,
    ensures
        plan_fold(root, fmt, input, ins, n) == plan_fold(root, fmt, input, ins, k),
    decreases n - k,
{
    if k < n {
        lemma_plan_err(root, fmt, input, ins, k, (n - 1) as nat);
    }
}

/// Applies one instruction to the plan being built.
fn plan_one(parsed: &ParsedField, fmt: &FormatDefinition, input: &[u8], ins: &PatchInstruction, fl: &FloatReading,
    changes: &mut Vec<FieldChange>, ranges: &mut Vec<(usize, usize)>, data: &mut Vec<u8>)
    -> (r: Result<(), PatchFailure>)
    requires
        fmt.structs@.len() < usize::MAX,
        old(data)@.len() == input@.len(),
    ensures
        match plan_step(field_out(*parsed), *fmt, input@,
            PlanState { changes: changes_view(old(changes)@), ranges: old(ranges)@, data: old(data)@ },
            (ins.field_path@, ins.new_value_str@, float_desc(*fl))) {
            Ok(st) => r is Ok && st == (PlanState { changes: changes_view(final(changes)@), ranges: final(ranges)@, data: final(data)@ })
                && final(data)@.len() == input@.len(),
            Err(d) => (r matches Err(x) && fail_desc(x) == d),
        },
{
    reveal(plan_step);
    let path = ins.field_path.as_str();
    let field = match find_field_by_path(parsed, path) {
        Some(f) => f,
        None => {
            let all = collect_all_field_paths(parsed);
            let suggestion = suggest_similar_path(path, &all);
            return Err(PatchFailure::FieldNotFound { path: ins.field_path.clone(), available: all, suggestion });
        },
    };
    proof { lemma_field_out_parts(*field); }
    if field.truncated || field.skipped {
        return Err(PatchFailure::NotModifiable(ins.field_path.clone()));
    }
    proof { reveal_strlit(""); }
    assert(""@ =~= Seq::<char>::empty());
    let fd = find_field_definition(fmt, &fmt.root, path, "");
    assert(opt_field(fd) == root_def(*fmt, path@));
    let (new_bytes, new_display) = match encode_value(field, fd, ins.new_value_str.as_str(), fl, fmt) {
        Ok(x) => x,
        Err(e) => return Err(PatchFailure::Encoding { path: ins.field_path.clone(), error: e }),
    };
    if new_bytes.len() != field.length {
        return Err(PatchFailure::LengthMismatch { path: ins.field_path.clone(), expected: field.length, actual: new_bytes.len() });
    }
    if field.offset > input.len() || input.len() - field.offset < field.length {
        return Err(PatchFailure::OutsideInput(ins.field_path.clone()));
    }
    let original_bytes = copy_range(input, field.offset, field.offset + field.length);
    let original_display = field.value.display(field.display_format);
    write_at_exec(data, field.offset, &new_bytes);
    ranges.push((field.offset, field.offset + field.length));
    let ghost before = changes@;
    changes.push(FieldChange {
        field_path: ins.field_path.clone(),
        offset: field.offset,
        length: field.length,
        original_bytes,
        new_bytes,
        original_value_display: original_display,
        new_value_display: new_display,
    });
    assert(changes_view(changes@) =~= changes_view(before).push(change_desc(changes@.last())));
    Ok(())
}

/// Plans a patch of `input_data`: parses it, applies each instruction in
/// order, then recomputes the checksums whose ranges overlap a written field
/// (writing them into the data unless `dry_run`).
pub fn prepare_patch(input_data: &[u8], format_def: &FormatDefinition, instructions: &Vec<PatchInstruction>,
    floats: &Vec<FloatReading>, dry_run: bool) -> (r: Result<PatchPlan, PatchFailure>)
    requires
        floats@.len() == instructions@.len(),
        format_bits_ok(*format_def),
        format_def.structs@.len() < usize::MAX,
    ensures
        match parse_spec(input_data@, *format_def) {
            (_, Err(e)) => (r matches Err(x) && x is Parse && fail_desc(x) == FailDesc::Parse(e)),
            (_, Ok(root)) => match plan_fold(root, *format_def, input_data@, patch_view(instructions@, floats@), instructions@.len()) {
                Err(d) => (r matches Err(x) && fail_desc(x) == d),
                Ok(st) => match recalc_fold(tree_checksums(root, *format_def), tree_checksums(root, *format_def).len(),
                    st.ranges, dry_run, RecalcState { processed: Seq::empty(), data: st.data, out: Seq::empty() }) {
                    Err(e) => (r matches Err(x) && x is Checksum && fail_desc(x) == FailDesc::Checksum(e)),
                    Ok(rs) => (r matches Ok(p) && changes_view(p.changes@) == st.changes
                        && recalcs_view(p.checksum_recalcs@) == rs.out && p.data@ == rs.data),
                },
            },
        },
{
    let parsed = match parse(input_data, format_def) {
        Ok((p, _)) => p,
        Err(e) => return Err(PatchFailure::Parse(e)),
    };
    let ghost root = field_out(parsed);
    assert(parse_spec(input_data@, *format_def).1 == Ok::<FieldOut, ErrDesc>(root));
    let ghost ins = patch_view(instructions@, floats@);
    let ctx = build_value_context(&parsed);
    let mut changes: Vec<FieldChange> = Vec::new();
    let mut ranges: Vec<(usize, usize)> = Vec::new();
    let mut data: Vec<u8> = copy_range(input_data, 0, input_data.len());
    assert(input_data@.subrange(0, input_data@.len() as int) =~= input_data@);
    assert(changes_view(changes@) =~= Seq::<ChangeDesc>::empty());
    let mut i: usize = 0;
    while i < instructions.len()
        invariant
            i <= instructions@.len(),
            root == field_out(parsed),
            parse_spec(input_data@, *format_def).1 == Ok::<FieldOut, ErrDesc>(root),
            ins == patch_view(instructions@, floats@),
            floats@.len() == instructions@.len(),
            format_def.structs@.len() < usize::MAX,
            data@.len() == input_data@.len(),
            plan_fold(root, *format_def, input_data@, ins, i as nat)
                == Ok::<PlanState, FailDesc>(PlanState { changes: changes_view(changes@), ranges: ranges@, data: data@ }),
        decreases instructions@.len() - i,
    {
        assert(ins[i as int] == (instructions@[i as int].field_path@, instructions@[i as int].new_value_str@,
            float_desc(floats@[i as int])));
        match plan_one(&parsed, format_def, input_data, &instructions[i], &floats[i], &mut changes, &mut ranges, &mut data) {
            Ok(()) => {},
            Err(e) => {
                proof { lemma_plan_err(root, *format_def, input_data@, ins, (i + 1) as nat, instructions@.len()); }
                return Err(e);
            },
        }
        i = i + 1;
    }
    let entries = collect_checksum_fields(&parsed, format_def, &ctx);
    let checksum_recalcs = match recalc_checksums(&entries, &ranges, &mut data, dry_run) {
        Ok(v) => v,
        Err(e) => return Err(PatchFailure::Checksum(e)),
    };
    Ok(PatchPlan { changes, checksum_recalcs, data })
}

// ---------------------------------------------------------------------
// Checking what was written.
// ---------------------------------------------------------------------

pub open spec fn failure_view(f: (String, String, Vec<TextPart>)) -> (Seq<char>, Seq<char>, Seq<Piece>) {
    (f.0@, f.1@, pieces(f.2@))
}

pub open spec fn failures_view(v: Seq<(String, String, Vec<TextPart>)>) -> Seq<(Seq<char>, Seq<char>, Seq<Piece>)> {
    v.map_values(|f: (String, String, Vec<TextPart>)| failure_view(f))
}

/// How one change looks in the data read back: nothing where the field holds
/// the new bytes; else its path, the value meant, and what was found.
pub open spec fn written_check(root: FieldOut, fmt: FormatDefinition, c: ChangeDesc) -> Option<(Seq<char>, Seq<char>, Seq<Piece>)> {
    match find_path(root, c.path) {
        Some(a) => if field_bytes_spec(a.value, a.length, root_def(fmt, c.path)) == Some(c.new) {
            None
        } else {
            Some((c.path, c.new_display, display_pieces(a.value, a.display_format)))
        },
        None => Some((c.path, c.new_display, text("<字段未找到>"@))),
    }
}

/// The mismatches of the first `n` changes, in order.
pub open spec fn written_failures(root: FieldOut, fmt: FormatDefinition, cs: Seq<ChangeDesc>, n: nat)
    -> Seq<(Seq<char>, Seq<char>, Seq<Piece>)>
    decreases n,
{
    if n == 0 || n > cs.len() {
        Seq::empty()
    } else {
        let prev = written_failures(root, fmt, cs, (n - 1) as nat);
        match written_check(root, fmt, cs[n - 1]) {
            Some(f) => prev.push(f),
            None => prev,
        }
    }
}

/// Parses the data read back after a patch was written and lists the changes
/// whose fields do not hold the bytes written.
pub fn check_written(verify_data: &[u8], format_def: &FormatDefinition, changes: &Vec<FieldChange>)
    -> (r: Result<Vec<(String, String, Vec<TextPart>)>, ParserError>)
    requires
        format_bits_ok(*format_def),
        format_def.structs@.len() < usize::MAX,
    ensures
        match parse_spec(verify_data@, *format_def) {
            (_, Err(e)) => (r matches Err(x) && err_desc(x) == e),
            (_, Ok(root)) => (r matches Ok(v)
                && failures_view(v@) == written_failures(root, *format_def, changes_view(changes@), changes@.len())),
        },
{
    let reparsed = match parse(verify_data, format_def) {
        Ok((p, _)) => p,
        Err(e) => return Err(e),
    };
    let ghost root = field_out(reparsed);
    let ghost cs = changes_view(changes@);
    let mut out: Vec<(String, String, Vec<TextPart>)> = Vec::new();
    assert(failures_view(out@) =~= Seq::<(Seq<char>, Seq<char>, Seq<Piece>)>::empty());
    proof { reveal_strlit(""); }
    assert(""@ =~= Seq::<char>::empty());
    let mut i: usize = 0;
    while i < changes.len()
        invariant
            i <= changes@.len(),
            root == field_out(reparsed),
            cs == changes_view(changes@),
            format_def.structs@.len() < usize::MAX,
            ""@ == Seq::<char>::empty(),
            failures_view(out@) == written_failures(root, *format_def, cs, i as nat),
        decreases changes@.len() - i,
    {
        let change = &changes[i];
        assert(cs[i as int] == change_desc(*change));
        let fd = find_field_definition(format_def, &format_def.root, change.field_path.as_str(), "");
        assert(opt_field(fd) == root_def(*format_def, change.field_path@));
        let ghost before = out@;
        match find_field_by_path(&reparsed, change.field_path.as_str()) {
            Some(actual) => {
                proof { lemma_field_out_parts(*actual); }
                if !values_match(change.new_bytes.as_slice(), actual, fd) {
                    out.push((change.field_path.clone(), change.new_value_display.clone(), actual.value.display(actual.display_format)));
                }
            },
            None => {
                let mut t: Vec<TextPart> = Vec::new();
                t.push(TextPart::Text(owned("<字段未找到>")));
                assert(pieces(t@) =~= text("<字段未找到>"@));
                out.push((change.field_path.clone(), change.new_value_display.clone(), t));
            },
        }
        assert(failures_view(out@) =~= written_failures(root, *format_def, cs, (i + 1) as nat));
        i = i + 1;
    }
    Ok(out)
}

/// Exit codes of a patch run.
pub struct PatchError;

impl PatchError {
    pub const FIELD_NOT_FOUND: i32 = 2;
    pub const FORMAT_ERROR: i32 = 2;
    pub const VALUE_ENCODING_ERROR: i32 = 3;
    pub const VALIDATION_FAILURE: i32 = 1;
    pub const SUCCESS: i32 = 0;
}

/// What a patch changed, recomputed and found wrong afterwards.
#[derive(Debug)]
pub struct PatchResult {
    pub changes: Vec<FieldChange>,
    pub checksum_recalcs: Vec<ChecksumRecalc>,
    pub validation_failures: Vec<(String, String, Vec<TextPart>)>,
}

/// The exit code of a patch run: a validation failure where a written field
/// does not hold its new bytes, else success.
pub fn patch_exit_code(validation_failures: &Vec<(String, String, Vec<TextPart>)>) -> (r: i32)
    ensures
        r == (if validation_failures@.len() == 0 { 0i32 } else { 1i32 }),
{
    if validation_failures.len() == 0 { PatchError::SUCCESS } else { PatchError::VALIDATION_FAILURE }
}

// ---------------------------------------------------------------------
// Failure messages.
// ---------------------------------------------------------------------

/// The first `n` paths, one per line, indented.
pub open spec fn path_lines(ps: Seq<Seq<char>>, n: nat) -> Seq<char>
    decreases n,
{
    if n == 0 || n > ps.len() {
        Seq::empty()
    } else {
        path_lines(ps, (n - 1) as nat) + "  - "@ + ps[n - 1] + "\n"@
    }
}

/// The list of available paths: at most twenty, then how many more there are.
pub open spec fn available_text(ps: Seq<Seq<char>>) -> Seq<char> {
    if ps.len() > 20 {
        path_lines(ps, 20) + "  ... 还有"@ + dec_str((ps.len() - 20) as nat) + "个字段\n"@
    } else {
        path_lines(ps, ps.len())
    }
}

/// The text of a patch failure.
pub open spec fn failure_text(f: PatchFailure) -> Seq<char> {
    match f {
        PatchFailure::Parse(e) => parser_error_text(e),
        PatchFailure::FieldNotFound { path, available, suggestion } =>
            "字段路径不存在: "@ + path@ + "\n可用字段路径:\n"@ + available_text(names_view(available@)) + suggestion@,
        PatchFailure::NotModifiable(p) => "字段 "@ + p@ + " 被截断或跳过，无法修改"@,
        PatchFailure::OutsideInput(p) => "字段 "@ + p@ + " 超出输入数据范围，无法修改"@,
        PatchFailure::Encoding { path, error } => "字段 "@ + path@ + " 的值编码失败: "@ + encode_err_text(encode_err_desc(error)),
        PatchFailure::LengthMismatch { path, expected, actual } =>
            "编码后字节长度不匹配: 字段"@ + path@ + "期望"@ + dec_str(expected as nat) + "字节，实际得到"@
                + dec_str(actual as nat) + "字节"@,
        PatchFailure::Checksum(e) => encode_err_text(encode_err_desc(e)),
    }
}

fn push_available(s: &mut String, available: &Vec<String>)
    ensures
        final(s)@ == old(s)@ + available_text(names_view(available@)),
{
    let ghost ps = names_view(available@);
    let ghost o = s@;
    let n: usize = if available.len() > 20 { 20 } else { available.len() };
    let mut i: usize = 0;
    while i < n
        invariant
            i <= n <= available@.len(),
            n == (if available@.len() > 20 { 20 } else { available@.len() }),
            ps == names_view(available@),
            s@ == o + path_lines(ps, i as nat),
        decreases n - i,
    {
        push_str(s, "  - ");
        push_str(s, available[i].as_str());
        push_str(s, "\n");
        assert(s@ =~= o + path_lines(ps, (i + 1) as nat));
        i = i + 1;
    }
    if available.len() > 20 {
        push_str(s, "  ... 还有");
        push_dec(s, (available.len() - 20) as u64);
        push_str(s, "个字段\n");
    }
    assert(s@ =~= o + available_text(ps));
}

impl PatchFailure {
    /// The failure's text.
    pub fn message(&self) -> (r: String)
        ensures
            r@ == failure_text(*self),
    {
        let mut s = String::new();
        match self {
            PatchFailure::Parse(e) => {
                s = e.message();
            },
            PatchFailure::FieldNotFound { path, available, suggestion } => {
                push_str(&mut s, "字段路径不存在: ");
                push_str(&mut s, path.as_str());
                push_str(&mut s, "\n可用字段路径:\n");
                push_available(&mut s, available);
                push_str(&mut s, suggestion.as_str());
            },
            PatchFailure::NotModifiable(p) => {
                push_str(&mut s, "字段 ");
                push_str(&mut s, p.as_str());
                push_str(&mut s, " 被截断或跳过，无法修改");
            },
            PatchFailure::OutsideInput(p) => {
                push_str(&mut s, "字段 ");
                push_str(&mut s, p.as_str());
                push_str(&mut s, " 超出输入数据范围，无法修改");
            },
            PatchFailure::Encoding { path, error } => {
                push_str(&mut s, "字段 ");
                push_str(&mut s, path.as_str());
                push_str(&mut s, " 的值编码失败: ");
                let m = error.message();
                push_str(&mut s, m.as_str());
            },
            PatchFailure::LengthMismatch { path, expected, actual } => {
                push_str(&mut s, "编码后字节长度不匹配: 字段");
                push_str(&mut s, path.as_str());
                push_str(&mut s, "期望");
                push_dec(&mut s, *expected as u64);
                push_str(&mut s, "字节，实际得到");
                push_dec(&mut s, *actual as u64);
                push_str(&mut s, "字节");
            },
            PatchFailure::Checksum(e) => {
                s = e.message();
            },
        }
        assert(s@ =~= failure_text(*self));
        s
    }
}

} // verus!

verus! {

/// Whether byte `x` lies in none of the ranges.
pub open spec fn outside_ranges(ranges: Seq<(usize, usize)>, x: int) -> bool {
    forall|j: int| 0 <= j < ranges.len() ==> !((#[trigger] ranges[j]).0 <= x < ranges[j].1)
}

/// Applying the instructions of a patch keeps the data's length, leaves every
/// byte outside the changed ranges as it was in the input, records one change
/// and one range per instruction, and leaves the last change's bytes exactly
/// where it wrote them.
pub proof fn lemma_plan_writes(root: FieldOut, fmt: FormatDefinition, input: Seq<u8>,
    ins: Seq<(Seq<char>, Seq<char>, FloatDesc)>, n: nat)
    requires
        n <= ins.len(),
        input.len() <= usize::MAX,
    ensures
        plan_fold(root, fmt, input, ins, n) matches Ok(st) ==> {
            &&& st.data.len() == input.len()
            &&& st.changes.len() == n
            &&& st.ranges.len() == n
            &&& forall|j: int| 0 <= j < n ==> (#[trigger] st.ranges[j]).0 == st.changes[j].offset
                    && st.ranges[j].1 == st.changes[j].offset + st.changes[j].new.len()
                    && st.ranges[j].1 <= input.len()
            &&& forall|x: int| 0 <= x < input.len() && outside_ranges(st.ranges, x) ==> #[trigger] st.data[x] == input[x]
            &&& n > 0 ==> st.data.subrange(st.changes[n - 1].offset as int,
                    st.changes[n - 1].offset + st.changes[n - 1].new.len()) == st.changes[n - 1].new
        },
    decreases n,
{
    reveal(plan_step);
    if n > 0 {
        lemma_plan_writes(root, fmt, input, ins, (n - 1) as nat);
        if let Ok(prev) = plan_fold(root, fmt, input, ins, (n - 1) as nat) {
            if let Ok(st) = plan_step(root, fmt, input, prev, ins[n - 1]) {
                let c = st.changes[n - 1];
                let b = c.new;
                let off = c.offset;
                assert(st.data == write_at(prev.data, off, b));
                assert(off + b.len() <= prev.data.len());
                let d = st.data;
                assert(d.len() == input.len());
                assert forall|j: int| 0 <= j < n implies (#[trigger] st.ranges[j]).0 == st.changes[j].offset
                    && st.ranges[j].1 == st.changes[j].offset + st.changes[j].new.len()
                    && st.ranges[j].1 <= input.len() by {
                    if j < n - 1 {
                        assert(st.ranges[j] == prev.ranges[j]);
                        assert(st.changes[j] == prev.changes[j]);
                    }
                }
                assert forall|x: int| 0 <= x < input.len() && outside_ranges(st.ranges, x) implies #[trigger] d[x] == input[x] by {
                    assert(outside_ranges(prev.ranges, x)) by {
                        assert forall|j: int| 0 <= j < prev.ranges.len() implies !((#[trigger] prev.ranges[j]).0 <= x < prev.ranges[j].1) by {
                            assert(st.ranges[j] == prev.ranges[j]);
                        }
                    }
                    let last = st.ranges[n - 1];
                    assert(!(last.0 <= x < last.1));
                    assert(prev.data[x] == input[x]);
                    if x < off {
                        assert(d[x] == prev.data[x]);
                    } else {
                        assert(d[x] == prev.data[x]);
                    }
                }
                assert(d.subrange(off as int, off + b.len()) =~= b);
            }
        }
    }
}

} // verus!
