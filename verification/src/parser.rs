use vstd::prelude::*;
use crate::dsl::{
    DataType, Endian, DisplayFormat, Field, StructDefinition, EnumDefinition, FormatDefinition,
    first_named, lemma_first_named, first_enum, lemma_first_enum,
};
use crate::bytes::{bytes_nat, le_nat, be_nat, lemma_nat2, lemma_nat4, lemma_nat8, le_u16, le_u32, le_u64, be_u16, be_u32, be_u64, get_u16, get_u32, get_u64, get_be_u16, get_be_u32, get_be_u64};
use crate::checksum::{crc32_of, adler32_of, byte_sum, crc32, adler32};
use crate::numfmt::{dec_str, push_dec};
use crate::expr::{CtxValue, ctx_view, ctx_put, ctx_insert, eval_usize, eval_usize_spec, eval_condition, eval_cond_spec,
    widen_bits, widen_float_bits};
use crate::text::{owned, str_eq, push_str, push_char};
use crate::numfmt::{signed_str, push_signed};

verus! {

/// Errors that stop a parse.
#[derive(Debug)]
pub enum ParserError {
    Truncated { offset: usize, needed: usize, available: usize },
    DependsOnTruncated(String),
    ExpressionError(String),
    UndecidableCondition(String),
    InvalidValue(String),
    EnumValueNotFound { value: i64, enum_name: String },
    UnknownStruct(String),
    /// A checksum field names an algorithm the parser does not know.
    UnknownChecksumAlgorithm(String),
    /// Struct references nested deeper than the definition has structs, which
    /// only a reference cycle gives.
    NestingTooDeep(String),
}

/// A value read from the input. Floats are held by the bits of their encoding.
#[derive(Debug, PartialEq)]
pub enum ParsedValue {
    U8(u8),
    U16(u16),
    U32(u32),
    U64(u64),
    I8(i8),
    I16(i16),
    I32(i32),
    I64(i64),
    F32(u32),
    F64(u64),
    Bytes(Vec<u8>),
    String(String),
    BitField(u64),
    Enum { name: String, value: i64, display: String },
    Array(Vec<ParsedValue>),
    Struct(Vec<ParsedField>),
}

#[derive(Debug, Clone, Copy, PartialEq, Eq, Structural)]
pub enum ChecksumResult {
    Passed,
    Failed { expected: u64, actual: u64 },
}

/// A parsed field, with its place in the input and how it fared.
#[derive(Debug, PartialEq)]
pub struct ParsedField {
    pub name: String,
    pub path: String,
    pub offset: usize,
    pub length: usize,
    pub value: ParsedValue,
    pub display_format: DisplayFormat,
    pub truncated: bool,
    pub undecidable: bool,
    pub skipped: bool,
    pub checksum_result: Option<ChecksumResult>,
    pub children: Vec<ParsedField>,
}

// ---------------------------------------------------------------------
// Views of parsed values, with texts as character sequences.
// ---------------------------------------------------------------------

pub enum ValueDesc {
    U8(u8),
    U16(u16),
    U32(u32),
    U64(u64),
    I8(i8),
    I16(i16),
    I32(i32),
    I64(i64),
    F32(u32),
    F64(u64),
    Bytes(Seq<u8>),
    Text(Seq<char>),
    BitField(u64),
    Enum(Seq<char>, i64, Seq<char>),
    Array(Seq<ValueDesc>),
    Struct(Seq<FieldOut>),
}

pub struct FieldOut {
    pub name: Seq<char>,
    pub path: Seq<char>,
    pub offset: usize,
    pub length: usize,
    pub value: ValueDesc,
    pub display_format: DisplayFormat,
    pub truncated: bool,
    pub undecidable: bool,
    pub skipped: bool,
    pub checksum_result: Option<ChecksumResult>,
    pub children: Seq<FieldOut>,
}

pub enum ErrDesc {
    Truncated { offset: usize, needed: usize, available: usize },
    DependsOnTruncated(Seq<char>),
    ExpressionError(Seq<char>),
    UnknownStruct(Seq<char>),
    UnknownChecksumAlgorithm(Seq<char>),
    NestingTooDeep(Seq<char>),
    Other,
}

pub open spec fn err_desc(e: ParserError) -> ErrDesc {
    match e {
        ParserError::Truncated { offset, needed, available } => ErrDesc::Truncated { offset, needed, available },
        ParserError::DependsOnTruncated(s) => ErrDesc::DependsOnTruncated(s@),
        ParserError::ExpressionError(s) => ErrDesc::ExpressionError(s@),
        ParserError::UnknownStruct(s) => ErrDesc::UnknownStruct(s@),
        ParserError::UnknownChecksumAlgorithm(s) => ErrDesc::UnknownChecksumAlgorithm(s@),
        ParserError::NestingTooDeep(s) => ErrDesc::NestingTooDeep(s@),
        _ => ErrDesc::Other,
    }
}

/// A placeholder outside any sequence's range.
pub open spec fn no_field() -> FieldOut {
    FieldOut {
        name: Seq::empty(),
        path: Seq::empty(),
        offset: 0,
        length: 0,
        value: ValueDesc::U8(0),
        display_format: DisplayFormat::Hex,
        truncated: false,
        undecidable: false,
        skipped: false,
        checksum_result: None,
        children: Seq::empty(),
    }
}

pub open spec fn value_desc(v: ParsedValue) -> ValueDesc
    decreases v,
{
    match v {
        ParsedValue::U8(x) => ValueDesc::U8(x),
        ParsedValue::U16(x) => ValueDesc::U16(x),
        ParsedValue::U32(x) => ValueDesc::U32(x),
        ParsedValue::U64(x) => ValueDesc::U64(x),
        ParsedValue::I8(x) => ValueDesc::I8(x),
        ParsedValue::I16(x) => ValueDesc::I16(x),
        ParsedValue::I32(x) => ValueDesc::I32(x),
        ParsedValue::I64(x) => ValueDesc::I64(x),
        ParsedValue::F32(x) => ValueDesc::F32(x),
        ParsedValue::F64(x) => ValueDesc::F64(x),
        ParsedValue::Bytes(b) => ValueDesc::Bytes(b@),
        ParsedValue::String(s) => ValueDesc::Text(s@),
        ParsedValue::BitField(x) => ValueDesc::BitField(x),
        ParsedValue::Enum { name, value, display } => ValueDesc::Enum(name@, value, display@),
        ParsedValue::Array(items) => ValueDesc::Array(Seq::new(items@.len(), |i: int| {
            if 0 <= i < items@.len() {
                value_desc(items@[i])
            } else {
                ValueDesc::U8(0)
            }
        })),
        ParsedValue::Struct(fields) => ValueDesc::Struct(Seq::new(fields@.len(), |i: int| {
            if 0 <= i < fields@.len() { field_out(fields@[i]) } else { no_field() }
        })),
    }
}

pub open spec fn field_out(f: ParsedField) -> FieldOut
    decreases f,
{
    FieldOut {
        name: f.name@,
        path: f.path@,
        offset: f.offset,
        length: f.length,
        value: value_desc(f.value),
        display_format: f.display_format,
        truncated: f.truncated,
        undecidable: f.undecidable,
        skipped: f.skipped,
        checksum_result: f.checksum_result,
        children: Seq::new(f.children@.len(), |i: int| {
            if 0 <= i < f.children@.len() { field_out(f.children@[i]) } else { no_field() }
        }),
    }
}

// ---------------------------------------------------------------------
// What a parse gives.
// ---------------------------------------------------------------------

pub open spec fn to_i64_spec(v: ValueDesc) -> Option<i64> {
    match v {
        ValueDesc::U8(x) => Some(x as i64),
        ValueDesc::U16(x) => Some(x as i64),
        ValueDesc::U32(x) => Some(x as i64),
        ValueDesc::U64(x) => Some(x as i64),
        ValueDesc::I8(x) => Some(x as i64),
        ValueDesc::I16(x) => Some(x as i64),
        ValueDesc::I32(x) => Some(x as i64),
        ValueDesc::I64(x) => Some(x),
        ValueDesc::BitField(x) => Some(x as i64),
        ValueDesc::Enum(_, x, _) => Some(x),
        _ => None,
    }
}

pub open spec fn to_u64_spec(v: ValueDesc) -> Option<u64> {
    match v {
        ValueDesc::U8(x) => Some(x as u64),
        ValueDesc::U16(x) => Some(x as u64),
        ValueDesc::U32(x) => Some(x as u64),
        ValueDesc::U64(x) => Some(x),
        ValueDesc::BitField(x) => Some(x),
        ValueDesc::Enum(_, x, _) => Some(x as u64),
        _ => match to_i64_spec(v) {
            Some(i) => Some(i as u64),
            None => None,
        },
    }
}

/// The 64-bit float encoding of a float value.
pub open spec fn to_float_bits(v: ValueDesc) -> Option<u64> {
    match v {
        ValueDesc::F32(b) => Some(widen_bits(b)),
        ValueDesc::F64(b) => Some(b),
        _ => None,
    }
}

/// What a parse carries from field to field: the known values, whether a
/// checksum failed, and whether the input has run out.
pub struct PState {
    pub ctx: Seq<(Seq<char>, CtxValue)>,
    pub failed: bool,
    pub truncated: bool,
}

pub open spec fn lookup_struct(fmt: FormatDefinition, name: Seq<char>) -> Option<StructDefinition> {
    if fmt.root.name@ == name {
        Some(fmt.root)
    } else {
        match first_named(fmt@.structs, name) {
            Some(i) => Some(fmt.structs@[i]),
            None => None,
        }
    }
}

pub open spec fn lookup_enum(fmt: FormatDefinition, name: Seq<char>) -> Option<EnumDefinition> {
    match first_enum(fmt@.enums, name) {
        Some(i) => Some(fmt.enums@[i]),
        None => None,
    }
}

/// The name of the first enum value equal to `v`.
pub open spec fn value_name(vs: Seq<(String, i64)>, v: i64) -> Option<Seq<char>>
    decreases vs.len(),
{
    if vs.len() == 0 {
        None
    } else {
        match value_name(vs.drop_last(), v) {
            Some(k) => Some(k),
            None => if vs.last().1 == v { Some(vs.last().0@) } else { None },
        }
    }
}

/// How an enum value shows: "NAME (v)", or the number alone.
pub open spec fn enum_display(vs: Seq<(String, i64)>, v: i64) -> Seq<char> {
    match value_name(vs, v) {
        Some(k) => k + " ("@ + signed_str(v as int) + ")"@,
        None => signed_str(v as int),
    }
}

/// `a + b`, or `usize::MAX` where the sum does not fit.
pub open spec fn add_sat(a: usize, b: usize) -> usize {
    if a + b > usize::MAX { usize::MAX } else { (a + b) as usize }
}

/// `a - b`, or 0 where `b` is larger.
pub open spec fn sub_sat(a: usize, b: usize) -> usize {
    if a >= b { (a - b) as usize } else { 0 }
}

/// The error for `needed` bytes at `off` past the end of the input, if they are.
pub open spec fn shortfall(len: nat, off: usize, needed: usize) -> Option<ErrDesc> {
    if off + needed > len {
        Some(ErrDesc::Truncated { offset: off, needed, available: sub_sat(len as usize, off) })
    } else {
        None
    }
}

/// The part of a path before its last dot ("" where it has none).
pub open spec fn parent_path(k: Seq<char>) -> Seq<char>
    decreases k.len(),
{
    if k.len() == 0 {
        k
    } else if k.last() == '.' {
        k.drop_last()
    } else {
        parent_path(k.drop_last())
    }
}

/// Bit fields take their start and length below eight.
pub open spec fn bits_ok(dt: DataType) -> bool
    decreases dt,
{
    match dt {
        DataType::BitField { bit_start, bit_length } => bit_start < 8 && bit_length < 8,
        DataType::Array { element_type, .. } => bits_ok(*element_type),
        DataType::Enum { underlying, .. } => bits_ok(*underlying),
        _ => true,
    }
}

pub open spec fn struct_bits_ok(s: StructDefinition) -> bool {
    forall|k: int| 0 <= k < s.fields@.len() ==> bits_ok(#[trigger] s.fields@[k].data_type)
}

/// Every bit field of the definition has its start and length below eight.
pub open spec fn format_bits_ok(fmt: FormatDefinition) -> bool {
    &&& struct_bits_ok(fmt.root)
    &&& forall|i: int| 0 <= i < fmt.structs@.len() ==> struct_bits_ok(#[trigger] fmt.structs@[i])
}

/// Whether every bit field under `dt` has its start and length below eight.
pub fn type_bits_ok(dt: &DataType) -> (r: bool)
    ensures
        r == bits_ok(*dt),
    decreases dt,
{
    match dt {
        DataType::BitField { bit_start, bit_length } => *bit_start < 8 && *bit_length < 8,
        DataType::Array { element_type, .. } => type_bits_ok(element_type),
        DataType::Enum { underlying, .. } => type_bits_ok(underlying),
        _ => true,
    }
}

fn struct_bits_ok_exec(s: &StructDefinition) -> (r: bool)
    ensures
        r == struct_bits_ok(*s),
{
    let mut k: usize = 0;
    while k < s.fields.len()
        invariant
            k <= s.fields@.len(),
            forall|j: int| 0 <= j < k ==> bits_ok(#[trigger] s.fields@[j].data_type),
        decreases s.fields@.len() - k,
    {
        if !type_bits_ok(&s.fields[k].data_type) {
            return false;
        }
        k = k + 1;
    }
    true
}

/// Whether every bit field of the definition has its start and length below
/// eight, as `parse` requires.
pub fn check_format_bits(fmt: &FormatDefinition) -> (r: bool)
    ensures
        r == format_bits_ok(*fmt),
{
    if !struct_bits_ok_exec(&fmt.root) {
        return false;
    }
    let mut i: usize = 0;
    while i < fmt.structs.len()
        invariant
            i <= fmt.structs@.len(),
            forall|j: int| 0 <= j < i ==> struct_bits_ok(#[trigger] fmt.structs@[j]),
        decreases fmt.structs@.len() - i,
    {
        if !struct_bits_ok_exec(&fmt.structs[i]) {
            return false;
        }
        i = i + 1;
    }
    true
}

/// The value of a fixed-size type at `off`, which must be in the input.
pub open spec fn fixed_value(d: Seq<u8>, dt: DataType, little: bool, off: int) -> ValueDesc {
    match dt {
        DataType::U8 => ValueDesc::U8(d[off]),
        DataType::U16 => ValueDesc::U16(if little { le_u16(d.subrange(off, off + 2)) } else { be_u16(d.subrange(off, off + 2)) }),
        DataType::U32 => ValueDesc::U32(if little { le_u32(d.subrange(off, off + 4)) } else { be_u32(d.subrange(off, off + 4)) }),
        DataType::U64 => ValueDesc::U64(if little { le_u64(d.subrange(off, off + 8)) } else { be_u64(d.subrange(off, off + 8)) }),
        DataType::I8 => ValueDesc::I8(d[off] as i8),
        DataType::I16 => ValueDesc::I16((if little { le_u16(d.subrange(off, off + 2)) } else { be_u16(d.subrange(off, off + 2)) }) as i16),
        DataType::I32 => ValueDesc::I32((if little { le_u32(d.subrange(off, off + 4)) } else { be_u32(d.subrange(off, off + 4)) }) as i32),
        DataType::I64 => ValueDesc::I64((if little { le_u64(d.subrange(off, off + 8)) } else { be_u64(d.subrange(off, off + 8)) }) as i64),
        DataType::F32 => ValueDesc::F32(if little { le_u32(d.subrange(off, off + 4)) } else { be_u32(d.subrange(off, off + 4)) }),
        DataType::F64 => ValueDesc::F64(if little { le_u64(d.subrange(off, off + 8)) } else { be_u64(d.subrange(off, off + 8)) }),
        DataType::BitField { bit_start, bit_length } =>
            ValueDesc::BitField(((d[off] >> bit_start) & (((1u8 << bit_length) - 1) as u8)) as u64),
        _ => ValueDesc::U8(0),
    }
}

/// The number that the `n` bytes at `off` spell in the given byte order.
pub open spec fn num_at(d: Seq<u8>, off: int, n: int, little: bool) -> nat {
    bytes_nat(d.subrange(off, off + n), little)
}

proof fn lemma_signed_casts(a: u8, b: u16, c: u32, e: u64)
    ensures
        (a as i8) == (if a >= 128 { a - 256 } else { a as int }),
        (b as i16) == (if b >= 32768 { b - 65536 } else { b as int }),
        (c as i32) == (if c >= 2147483648 { c - 4294967296 } else { c as int }),
        (e as i64) == (if e >= 9223372036854775808 { e - 18446744073709551616 } else { e as int }),
{
    assert(a >= 128 ==> (a as i8) == a - 256) by (bit_vector);
    assert(a < 128 ==> (a as i8) == a) by (bit_vector);
    assert(b >= 32768 ==> (b as i16) == b - 65536) by (bit_vector);
    assert(b < 32768 ==> (b as i16) == b) by (bit_vector);
    assert(c >= 2147483648 ==> (c as i32) == c - 4294967296) by (bit_vector);
    assert(c < 2147483648 ==> (c as i32) == c) by (bit_vector);
    assert(e >= 9223372036854775808 ==> (e as i64) == e - 18446744073709551616) by (bit_vector);
    assert(e < 9223372036854775808 ==> (e as i64) == e) by (bit_vector);
}

/// The size of a fixed-size type.
pub open spec fn fixed_size(dt: DataType) -> Option<usize> {
    match dt {
        DataType::U8 | DataType::I8 | DataType::BitField { .. } => Some(1),
        DataType::U16 | DataType::I16 => Some(2),
        DataType::U32 | DataType::I32 | DataType::F32 => Some(4),
        DataType::U64 | DataType::I64 | DataType::F64 => Some(8),
        _ => None,
    }
}

/// The text `String::from_utf8_lossy` makes of some bytes.
pub uninterp spec fn utf8_lossy(b: Seq<u8>) -> Seq<char>;

/// Each byte as the character with its code.
pub open spec fn latin1(b: Seq<u8>) -> Seq<char> {
    Seq::new(b.len(), |i: int| b[i] as char)
}

/// A field that was not read: truncated, skipped or undecidable.
pub open spec fn blank(f: Field, path: Seq<char>, off: usize, truncated: bool, undecidable: bool, skipped: bool) -> FieldOut {
    FieldOut {
        name: f.name@,
        path,
        offset: off,
        length: 0,
        value: ValueDesc::U8(0),
        display_format: f.display_format,
        truncated,
        undecidable,
        skipped,
        checksum_result: None,
        children: Seq::empty(),
    }
}

pub open spec fn elem_path(path: Seq<char>, i: nat) -> Seq<char> {
    path + "["@ + dec_str(i) + "]"@
}

/// Reading a value of type `dt` at `off`: the state after, and the value with
/// its length or the error. `f` bounds how deep struct references nest.
pub open spec fn parse_value_spec(d: Seq<u8>, fmt: FormatDefinition, st: PState, dt: DataType, little: bool,
    off: usize, path: Seq<char>, f: nat) -> (PState, Result<(ValueDesc, usize), ErrDesc>)
    decreases f, 0int, dt, 0nat,
{
    match dt {
        DataType::Bytes { length } => match eval_usize_spec(length@, st.ctx) {
            Err(m) => (st, Err(ErrDesc::ExpressionError(m))),
            Ok(n) => match shortfall(d.len(), off, n) {
                Some(e) => (st, Err(e)),
                None => (st, Ok((ValueDesc::Bytes(d.subrange(off as int, off + n)), n))),
            },
        },
        DataType::String { length, encoding } => match eval_usize_spec(length@, st.ctx) {
            Err(m) => (st, Err(ErrDesc::ExpressionError(m))),
            Ok(n) => match shortfall(d.len(), off, n) {
                Some(e) => (st, Err(e)),
                None => {
                    let b = d.subrange(off as int, off + n);
                    let text = match encoding {
                        Some(enc) => if enc@ == "ascii"@ { latin1(b) } else { utf8_lossy(b) },
                        None => utf8_lossy(b),
                    };
                    (st, Ok((ValueDesc::Text(text), n)))
                },
            },
        },
        DataType::Struct { name } => match lookup_struct(fmt, name@) {
            None => (st, Err(ErrDesc::UnknownStruct(name@))),
            Some(sd) => if f == 0 {
                (st, Err(ErrDesc::NestingTooDeep(name@)))
            } else {
                match parse_struct_spec(d, fmt, st, sd, parent_path(path), off, (f - 1) as nat) {
                    (st2, Err(e)) => (st2, Err(e)),
                    (st2, Ok(fo)) => (st2, Ok((ValueDesc::Struct(fo.children), fo.length))),
                }
            },
        },
        DataType::Array { element_type, length } => match eval_usize_spec(length@, st.ctx) {
            Err(m) => (st, Err(ErrDesc::ExpressionError(m))),
            Ok(n) => match parse_elems_spec(d, fmt, st, *element_type, little, off, path, n as nat, f) {
                (st2, Err(e)) => (st2, Err(e)),
                (st2, Ok((items, cur))) => (st2, Ok((ValueDesc::Array(items), sub_sat(cur, off)))),
            },
        },
        DataType::Enum { underlying, .. } => parse_value_spec(d, fmt, st, *underlying, little, off, path, f),
        _ => {
            let size = fixed_size(dt).unwrap();
            match shortfall(d.len(), off, size) {
                Some(e) => (st, Err(e)),
                None => (st, Ok((fixed_value(d, dt, little, off as int), size))),
            }
        },
    }
}

/// Reading a number of fixed size takes the bytes at the offset, inside the
/// data, in the byte order asked for: most significant byte first where
/// big-endian, last where little-endian. A signed type holds the two's
/// complement of that number; a float holds the number as its bits.
pub proof fn lemma_fixed_read(d: Seq<u8>, fmt: FormatDefinition, st: PState, dt: DataType, little: bool,
    off: usize, path: Seq<char>, f: nat)
    ensures
        match parse_value_spec(d, fmt, st, dt, little, off, path, f).1 {
            Ok((v, n)) => match dt {
                DataType::U8 => n == 1 && off + 1 <= d.len() && (v matches ValueDesc::U8(x) && x == d[off as int]),
                DataType::I8 => n == 1 && off + 1 <= d.len()
                    && (v matches ValueDesc::I8(x) && x == (if d[off as int] >= 128 { d[off as int] - 256 } else { d[off as int] as int })),
                DataType::U16 => n == 2 && off + 2 <= d.len()
                    && (v matches ValueDesc::U16(x) && x == num_at(d, off as int, 2, little)),
                DataType::I16 => n == 2 && off + 2 <= d.len() && (v matches ValueDesc::I16(x) && {
                    let u = num_at(d, off as int, 2, little);
                    x == (if u >= 32768 { u - 65536 } else { u as int })
                }),
                DataType::U32 => n == 4 && off + 4 <= d.len()
                    && (v matches ValueDesc::U32(x) && x == num_at(d, off as int, 4, little)),
                DataType::I32 => n == 4 && off + 4 <= d.len() && (v matches ValueDesc::I32(x) && {
                    let u = num_at(d, off as int, 4, little);
                    x == (if u >= 2147483648 { u - 4294967296 } else { u as int })
                }),
                DataType::F32 => n == 4 && off + 4 <= d.len()
                    && (v matches ValueDesc::F32(x) && x == num_at(d, off as int, 4, little)),
                DataType::U64 => n == 8 && off + 8 <= d.len()
                    && (v matches ValueDesc::U64(x) && x == num_at(d, off as int, 8, little)),
                DataType::I64 => n == 8 && off + 8 <= d.len() && (v matches ValueDesc::I64(x) && {
                    let u = num_at(d, off as int, 8, little);
                    x == (if u >= 9223372036854775808 { u - 18446744073709551616 } else { u as int })
                }),
                DataType::F64 => n == 8 && off + 8 <= d.len()
                    && (v matches ValueDesc::F64(x) && x == num_at(d, off as int, 8, little)),
                _ => true,
            },
            Err(_) => true,
        },
{
    let r = parse_value_spec(d, fmt, st, dt, little, off, path, f).1;
    if r is Ok {
        let o = off as int;
        match dt {
            DataType::U16 | DataType::I16 => {
                lemma_nat2(d.subrange(o, o + 2));
                lemma_signed_casts(0, if little { le_u16(d.subrange(o, o + 2)) } else { be_u16(d.subrange(o, o + 2)) }, 0, 0);
            },
            DataType::U32 | DataType::I32 | DataType::F32 => {
                lemma_nat4(d.subrange(o, o + 4));
                lemma_signed_casts(0, 0, if little { le_u32(d.subrange(o, o + 4)) } else { be_u32(d.subrange(o, o + 4)) }, 0);
            },
            DataType::U64 | DataType::I64 | DataType::F64 => {
                lemma_nat8(d.subrange(o, o + 8));
                lemma_signed_casts(0, 0, 0, if little { le_u64(d.subrange(o, o + 8)) } else { be_u64(d.subrange(o, o + 8)) });
            },
            DataType::I8 => {
                lemma_signed_casts(d[o], 0, 0, 0);
            },
            _ => {},
        }
    }
}

/// The first `n` elements of an array of `et` from `off`: the values and the
/// offset after the last.
pub open spec fn parse_elems_spec(d: Seq<u8>, fmt: FormatDefinition, st: PState, et: DataType, little: bool,
    off: usize, path: Seq<char>, n: nat, f: nat) -> (PState, Result<(Seq<ValueDesc>, usize), ErrDesc>)
    decreases f, 0int, et, n + 1,
{
    if n == 0 {
        (st, Ok((Seq::empty(), off)))
    } else {
        match parse_elems_spec(d, fmt, st, et, little, off, path, (n - 1) as nat, f) {
            (st1, Err(e)) => (st1, Err(e)),
            (st1, Ok((items, cur))) => match parse_value_spec(d, fmt, st1, et, little, cur, elem_path(path, (n - 1) as nat), f) {
                (st2, Err(e)) => (st2, Err(e)),
                (st2, Ok((v, len))) => (st2, Ok((items.push(v), add_sat(cur, len)))),
            },
        }
    }
}

/// The checksum of `d[start..end]` by the named algorithm; `None` for an unknown name.
pub open spec fn checksum_of(alg: Seq<char>, b: Seq<u8>) -> Option<u64> {
    if alg == "crc32"@ {
        Some(crc32_of(b) as u64)
    } else if alg == "adler32"@ {
        Some(adler32_of(b) as u64)
    } else if alg == "sum"@ {
        Some((byte_sum(b) % 4294967296) as u64)
    } else {
        None
    }
}

/// Checking a field's checksum against the value read for it.
pub open spec fn checksum_spec(d: Seq<u8>, st: PState, fd: Field, value: ValueDesc)
    -> (PState, Result<Option<ChecksumResult>, ErrDesc>)
{
    match fd.checksum {
        None => (st, Ok(None)),
        Some(cs) => match eval_usize_spec(cs.start@, st.ctx) {
            Err(m) => (st, Err(ErrDesc::ExpressionError(m))),
            Ok(start) => match eval_usize_spec(cs.end@, st.ctx) {
                Err(m) => (st, Err(ErrDesc::ExpressionError(m))),
                Ok(end) => if start < end && end <= d.len() {
                    match checksum_of(cs.algorithm@, d.subrange(start as int, end as int)) {
                        None => (st, Err(ErrDesc::UnknownChecksumAlgorithm(cs.algorithm@))),
                        Some(actual) => {
                            let expected = match to_u64_spec(value) { Some(x) => x, None => 0 };
                            if actual == expected {
                                (st, Ok(Some(ChecksumResult::Passed)))
                            } else {
                                (PState { failed: true, ..st }, Ok(Some(ChecksumResult::Failed { expected, actual })))
                            }
                        },
                    }
                } else {
                    (st, Ok(None))
                },
            },
        },
    }
}

/// The value shown for a field: enum values get their names.
pub open spec fn shown_value(fmt: FormatDefinition, dt: DataType, v: ValueDesc) -> ValueDesc {
    match dt {
        DataType::Enum { name, .. } => match lookup_enum(fmt, name@) {
            Some(ed) => match to_i64_spec(v) {
                Some(iv) => ValueDesc::Enum(name@, iv, enum_display(ed.values@, iv)),
                None => v,
            },
            None => v,
        },
        _ => v,
    }
}

/// Reading one field at `off`.
pub open spec fn parse_field_spec(d: Seq<u8>, fmt: FormatDefinition, st: PState, fd: Field, path: Seq<char>,
    off: usize, f: nat) -> (PState, Result<FieldOut, ErrDesc>)
    decreases f, 1int, DataType::U8, 0nat,
{
    match parse_value_spec(d, fmt, st, fd.data_type, fd.endian == Endian::Little, off, path, f) {
        (st1, Err(e)) => (st1, Err(e)),
        (st1, Ok((value, length))) => match checksum_spec(d, st1, fd, value) {
            (st2, Err(e)) => (st2, Err(e)),
            (st2, Ok(c)) => (st2, Ok(FieldOut {
                name: fd.name@,
                path,
                offset: off,
                length,
                value: shown_value(fmt, fd.data_type, value),
                display_format: fd.display_format,
                truncated: false,
                undecidable: false,
                skipped: false,
                checksum_result: c,
                children: Seq::empty(),
            })),
        },
    }
}

/// A field of a fixed-size unsigned type, once read, holds the number its
/// bytes spell in the field's declared byte order: for a big-endian field the
/// byte at the field's offset is the most significant. The field starts at the
/// offset it was read at and is as long as its type.
pub proof fn lemma_field_read(d: Seq<u8>, fmt: FormatDefinition, st: PState, fd: Field, path: Seq<char>, off: usize, f: nat)
    ensures
        parse_field_spec(d, fmt, st, fd, path, off, f).1 matches Ok(fo) ==> {
            let o = off as int;
            let little = fd.endian == Endian::Little;
            &&& fo.offset == off
            &&& (fd.data_type == DataType::U16 ==> fo.length == 2 && (fo.value matches ValueDesc::U16(x)
                    && x == (if little { d[o] + 256 * d[o + 1] } else { 256 * d[o] + d[o + 1] })))
            &&& (fd.data_type == DataType::U32 ==> fo.length == 4 && (fo.value matches ValueDesc::U32(x)
                    && x == (if little { d[o] + 256 * d[o + 1] + 65536 * d[o + 2] + 16777216 * d[o + 3] }
                        else { 16777216 * d[o] + 65536 * d[o + 1] + 256 * d[o + 2] + d[o + 3] })))
            &&& (fd.data_type == DataType::U64 ==> fo.length == 8 && (fo.value matches ValueDesc::U64(x)
                    && x == num_at(d, o, 8, little)))
        },
{
    lemma_fixed_read(d, fmt, st, fd.data_type, fd.endian == Endian::Little, off, path, f);
    if parse_field_spec(d, fmt, st, fd, path, off, f).1 is Ok {
        let o = off as int;
        if fd.data_type == DataType::U16 {
            lemma_nat2(d.subrange(o, o + 2));
        }
        if fd.data_type == DataType::U32 {
            lemma_nat4(d.subrange(o, o + 4));
        }
    }
}

/// Recording a parsed field's value for later expressions.
pub open spec fn record(st: PState, key: Seq<char>, v: ValueDesc) -> PState {
    let c1 = match to_i64_spec(v) { Some(i) => ctx_put(st.ctx, key, CtxValue::Int(i)), None => st.ctx };
    let c2 = match to_float_bits(v) { Some(b) => ctx_put(c1, key, CtxValue::Float(b)), None => c1 };
    PState { ctx: c2, ..st }
}

/// One field of a struct read at `off`: the state after, and the field with the
/// offset the next relative field starts at.
pub open spec fn field_step_spec(d: Seq<u8>, fmt: FormatDefinition, st: PState, fd: Field, path: Seq<char>,
    off: usize, f: nat) -> (PState, Result<(FieldOut, usize), ErrDesc>)
    decreases f, 2int, DataType::U8, 0nat,
{
    let fpath = path + "."@ + fd.name@;
    if st.truncated {
        (st, Ok((blank(fd, fpath, off, true, false, false), off)))
    } else {
        let cond = match fd.condition {
            Some(c) => match eval_cond_spec(c.expression@, st.ctx) {
                Ok(true) => 0int,
                Ok(false) => 1int,
                Err(_) => 2int,
            },
            None => 0int,
        };
        if cond == 1 {
            (st, Ok((blank(fd, fpath, off, false, false, true), off)))
        } else if cond == 2 {
            (st, Ok((blank(fd, fpath, off, false, true, true), off)))
        } else {
            let fo: Result<usize, ErrDesc> = match fd.offset {
                Some(o) => if o@ == "relative"@ {
                    Ok(off)
                } else {
                    match eval_usize_spec(o@, st.ctx) {
                        Ok(v) => Ok(v),
                        Err(_) => Err(ErrDesc::DependsOnTruncated(fd.name@)),
                    }
                },
                None => Ok(off),
            };
            match fo {
                Err(e) => (st, Err(e)),
                Ok(at) => match parse_field_spec(d, fmt, st, fd, fpath, at, f) {
                    (st1, Ok(pf)) => (record(st1, fpath, pf.value), Ok((pf, add_sat(pf.offset, pf.length)))),
                    (st1, Err(e)) => if e is Truncated {
                        (PState { truncated: true, ..st1 }, Ok((blank(fd, fpath, at, true, false, false), at)))
                    } else {
                        (st1, Err(e))
                    },
                },
            }
        }
    }
}

/// The first `n` fields of a struct from `base`.
pub open spec fn parse_fields_spec(d: Seq<u8>, fmt: FormatDefinition, st: PState, fields: Seq<Field>, path: Seq<char>,
    base: usize, n: nat, f: nat) -> (PState, Result<(Seq<FieldOut>, usize), ErrDesc>)
    decreases f, 3int, DataType::U8, n,
{
    if n == 0 {
        (st, Ok((Seq::empty(), base)))
    } else {
        match parse_fields_spec(d, fmt, st, fields, path, base, (n - 1) as nat, f) {
            (st1, Err(e)) => (st1, Err(e)),
            (st1, Ok((outs, off))) => if n - 1 < fields.len() {
                match field_step_spec(d, fmt, st1, fields[n - 1], path, off, f) {
                    (st2, Err(e)) => (st2, Err(e)),
                    (st2, Ok((fo, next))) => (st2, Ok((outs.push(fo), next))),
                }
            } else {
                (st1, Ok((outs, off)))
            },
        }
    }
}

/// Reading a struct at `base`.
pub open spec fn parse_struct_spec(d: Seq<u8>, fmt: FormatDefinition, st: PState, sd: StructDefinition,
    parent: Seq<char>, base: usize, f: nat) -> (PState, Result<FieldOut, ErrDesc>)
    decreases f, 4int, DataType::U8, 0nat,
{
    let path = if parent.len() == 0 { sd.name@ } else { parent + "."@ + sd.name@ };
    match parse_fields_spec(d, fmt, st, sd.fields@, path, base, sd.fields@.len(), f) {
        (st1, Err(e)) => (st1, Err(e)),
        (st1, Ok((outs, _))) => {
            let total = if outs.len() == 0 {
                0usize
            } else {
                sub_sat(add_sat(outs.last().offset, outs.last().length), outs[0].offset)
            };
            (st1, Ok(FieldOut {
                name: sd.name@,
                path,
                offset: base,
                length: total,
                value: ValueDesc::Struct(outs),
                display_format: DisplayFormat::Hex,
                truncated: false,
                undecidable: false,
                skipped: false,
                checksum_result: None,
                children: outs,
            }))
        },
    }
}

/// The depth to which struct references may nest.
pub open spec fn nesting_fuel(fmt: FormatDefinition) -> nat {
    fmt.structs@.len() + 1
}

/// Parsing the whole input with the definition's root struct.
pub open spec fn parse_spec(d: Seq<u8>, fmt: FormatDefinition) -> (PState, Result<FieldOut, ErrDesc>) {
    parse_struct_spec(d, fmt, PState { ctx: Seq::empty(), failed: false, truncated: false }, fmt.root,
        Seq::empty(), 0, nesting_fuel(fmt))
}

// ---------------------------------------------------------------------
// Helpers.
// ---------------------------------------------------------------------

pub open spec fn values_desc(v: Seq<ParsedValue>) -> Seq<ValueDesc> {
    Seq::new(v.len(), |i: int| value_desc(v[i]))
}

pub open spec fn fields_out(v: Seq<ParsedField>) -> Seq<FieldOut> {
    Seq::new(v.len(), |i: int| field_out(v[i]))
}

pub proof fn lemma_array_desc(items: Vec<ParsedValue>)
    ensures
        value_desc(ParsedValue::Array(items)) == ValueDesc::Array(values_desc(items@)),
{
    let v = ParsedValue::Array(items);
    match value_desc(v) {
        ValueDesc::Array(s) => {
            assert forall|i: int| 0 <= i < s.len() implies s[i] == values_desc(items@)[i] by {}
            assert(s =~= values_desc(items@));
        },
        _ => {},
    }
}

pub proof fn lemma_struct_desc(fields: Vec<ParsedField>)
    ensures
        value_desc(ParsedValue::Struct(fields)) == ValueDesc::Struct(fields_out(fields@)),
{
    let v = ParsedValue::Struct(fields);
    match value_desc(v) {
        ValueDesc::Struct(s) => {
            assert forall|i: int| 0 <= i < s.len() implies s[i] == fields_out(fields@)[i] by {}
            assert(s =~= fields_out(fields@));
        },
        _ => {},
    }
}

pub proof fn lemma_children_out(f: ParsedField)
    ensures
        field_out(f).children == fields_out(f.children@),
{
    let s = field_out(f).children;
    assert forall|i: int| 0 <= i < s.len() implies s[i] == fields_out(f.children@)[i] by {}
    assert(s =~= fields_out(f.children@));
}

pub proof fn lemma_item_smaller(v: ParsedValue, items: Vec<ParsedValue>, i: int)
    requires
        v == ParsedValue::Array(items),
        0 <= i < items@.len(),
    ensures
        decreases_to!(v => items@[i]),
{
    assert(decreases_to!(v => v->Array_0));
    assert(decreases_to!(items => items@));
    assert(decreases_to!(items@ => items@[i]));
}

/// A deep copy of a value.
pub fn copy_value(v: &ParsedValue) -> (r: ParsedValue)
    ensures
        value_desc(r) == value_desc(*v),
    decreases v,
{
    match v {
        ParsedValue::U8(x) => ParsedValue::U8(*x),
        ParsedValue::U16(x) => ParsedValue::U16(*x),
        ParsedValue::U32(x) => ParsedValue::U32(*x),
        ParsedValue::U64(x) => ParsedValue::U64(*x),
        ParsedValue::I8(x) => ParsedValue::I8(*x),
        ParsedValue::I16(x) => ParsedValue::I16(*x),
        ParsedValue::I32(x) => ParsedValue::I32(*x),
        ParsedValue::I64(x) => ParsedValue::I64(*x),
        ParsedValue::F32(x) => ParsedValue::F32(*x),
        ParsedValue::F64(x) => ParsedValue::F64(*x),
        ParsedValue::Bytes(b) => ParsedValue::Bytes(b.clone()),
        ParsedValue::String(t) => ParsedValue::String(t.clone()),
        ParsedValue::BitField(x) => ParsedValue::BitField(*x),
        ParsedValue::Enum { name, value, display } =>
            ParsedValue::Enum { name: name.clone(), value: *value, display: display.clone() },
        ParsedValue::Array(items) => {
            let mut out: Vec<ParsedValue> = Vec::new();
            let mut i: usize = 0;
            while i < items.len()
                invariant
                    *v == ParsedValue::Array(*items),
                    i <= items@.len(),
                    out@.len() == i,
                    forall|j: int| 0 <= j < i ==> value_desc(#[trigger] out@[j]) == value_desc(items@[j]),
                decreases items@.len() - i,
            {
                proof { lemma_item_smaller(*v, *items, i as int); }
                let c = copy_value(&items[i]);
                out.push(c);
                i = i + 1;
            }
            proof {
                lemma_array_desc(out);
                lemma_array_desc(*items);
                assert(values_desc(out@) =~= values_desc(items@));
            }
            ParsedValue::Array(out)
        },
        ParsedValue::Struct(fields) => {
            let out = copy_fields(fields);
            proof {
                lemma_struct_desc(out);
                lemma_struct_desc(*fields);
            }
            ParsedValue::Struct(out)
        },
    }
}

/// A deep copy of a list of fields.
pub fn copy_fields(fields: &Vec<ParsedField>) -> (r: Vec<ParsedField>)
    ensures
        fields_out(r@) == fields_out(fields@),
    decreases fields,
{
    let mut out: Vec<ParsedField> = Vec::new();
    let mut i: usize = 0;
    while i < fields.len()
        invariant
            i <= fields@.len(),
            out@.len() == i,
            forall|j: int| 0 <= j < i ==> field_out(#[trigger] out@[j]) == field_out(fields@[j]),
        decreases fields@.len() - i,
    {
        let c = copy_field(&fields[i]);
        out.push(c);
        i = i + 1;
    }
    assert(fields_out(out@) =~= fields_out(fields@));
    out
}

/// A deep copy of a field.
pub fn copy_field(f: &ParsedField) -> (r: ParsedField)
    ensures
        field_out(r) == field_out(*f),
    decreases f,
{
    let children = copy_fields(&f.children);
    let r = ParsedField {
        name: f.name.clone(),
        path: f.path.clone(),
        offset: f.offset,
        length: f.length,
        value: copy_value(&f.value),
        display_format: f.display_format,
        truncated: f.truncated,
        undecidable: f.undecidable,
        skipped: f.skipped,
        checksum_result: f.checksum_result,
        children,
    };
    proof {
        lemma_children_out(r);
        lemma_children_out(*f);
    }
    r
}

impl ParsedValue {
    /// The value as a signed integer, where it is one.
    pub fn to_i64(&self) -> (r: Option<i64>)
        ensures
            r == to_i64_spec(value_desc(*self)),
    {
        match self {
            ParsedValue::U8(v) => Some(*v as i64),
            ParsedValue::U16(v) => Some(*v as i64),
            ParsedValue::U32(v) => Some(*v as i64),
            ParsedValue::U64(v) => Some(*v as i64),
            ParsedValue::I8(v) => Some(*v as i64),
            ParsedValue::I16(v) => Some(*v as i64),
            ParsedValue::I32(v) => Some(*v as i64),
            ParsedValue::I64(v) => Some(*v),
            ParsedValue::BitField(v) => Some(*v as i64),
            ParsedValue::Enum { value, .. } => Some(*value),
            _ => None,
        }
    }

    /// The value as an unsigned integer, where it is one.
    pub fn to_u64(&self) -> (r: Option<u64>)
        ensures
            r == to_u64_spec(value_desc(*self)),
    {
        match self {
            ParsedValue::U8(v) => Some(*v as u64),
            ParsedValue::U16(v) => Some(*v as u64),
            ParsedValue::U32(v) => Some(*v as u64),
            ParsedValue::U64(v) => Some(*v),
            ParsedValue::BitField(v) => Some(*v),
            ParsedValue::Enum { value, .. } => Some(*value as u64),
            _ => match self.to_i64() {
                Some(v) => Some(v as u64),
                None => None,
            },
        }
    }

    /// The 64-bit encoding of a float value.
    pub fn float_bits(&self) -> (r: Option<u64>)
        ensures
            r == to_float_bits(value_desc(*self)),
    {
        match self {
            ParsedValue::F32(b) => Some(widen_float_bits(*b)),
            ParsedValue::F64(b) => Some(*b),
            _ => None,
        }
    }
}

fn add_sat_exec(a: usize, b: usize) -> (r: usize)
    ensures
        r == add_sat(a, b),
{
    if a <= usize::MAX - b { a + b } else { usize::MAX }
}

fn sub_sat_exec(a: usize, b: usize) -> (r: usize)
    ensures
        r == sub_sat(a, b),
{
    if a >= b { a - b } else { 0 }
}

/// `String::from_utf8_lossy`; the contract names the text as a function of the bytes.
#[verifier::external_body]
pub fn lossy_text(b: &[u8]) -> (r: String)
    ensures
        r@ == utf8_lossy(b@),
{
    String::from_utf8_lossy(b).to_string()
}

fn latin1_text(b: &[u8]) -> (r: String)
    ensures
        r@ == latin1(b@),
{
    let mut s = String::new();
    let mut i: usize = 0;
    while i < b.len()
        invariant
            i <= b@.len(),
            s@ == latin1(b@.subrange(0, i as int)),
        decreases b@.len() - i,
    {
        push_char(&mut s, b[i] as char);
        assert(latin1(b@.subrange(0, i + 1)) =~= latin1(b@.subrange(0, i as int)).push(b@[i as int] as char));
        i = i + 1;
    }
    assert(b@.subrange(0, b@.len() as int) =~= b@);
    s
}

pub fn copy_range(b: &[u8], from: usize, to: usize) -> (r: Vec<u8>)
    requires
        from <= to <= b@.len(),
    ensures
        r@ == b@.subrange(from as int, to as int),
{
    let mut out: Vec<u8> = Vec::new();
    let mut i = from;
    while i < to
        invariant
            from <= i <= to,
            to <= b@.len(),
            out@ == b@.subrange(from as int, i as int),
        decreases to - i,
    {
        out.push(b[i]);
        assert(b@.subrange(from as int, i + 1) =~= b@.subrange(from as int, i as int).push(b@[i as int]));
        i = i + 1;
    }
    out
}

/// The byte sum, wrapping at 32 bits.
pub fn wrapping_sum(b: &[u8]) -> (r: u32)
    ensures
        r == byte_sum(b@) % 4294967296,
{
    let mut acc: u32 = 0;
    let mut i: usize = 0;
    while i < b.len()
        invariant
            i <= b@.len(),
            acc == byte_sum(b@.subrange(0, i as int)) % 4294967296,
        decreases b@.len() - i,
    {
        assert(b@.subrange(0, i + 1).drop_last() =~= b@.subrange(0, i as int));
        let x = b[i] as u32;
        let ghost prev = byte_sum(b@.subrange(0, i as int));
        acc = if acc <= u32::MAX - x { acc + x } else { x - (u32::MAX - acc) - 1 };
        assert(acc == (prev + x) % 4294967296) by (nonlinear_arith)
            requires
                acc == (if (prev % 4294967296) + x <= 4294967295 { (prev % 4294967296) + x } else { (prev % 4294967296) + x - 4294967296 }),
                x < 256, prev >= 0;
        i = i + 1;
    }
    assert(b@.subrange(0, b@.len() as int) =~= b@);
    acc
}

fn parent_path_exec(p: &str) -> (r: String)
    ensures
        r@ == parent_path(p@),
{
    let cs = crate::text::chars_of(p);
    let mut j: usize = cs.len();
    let mut found = false;
    assert(cs@.take(j as int) =~= cs@);
    while j > 0 && !found
        invariant
            j <= cs@.len(),
            cs@ == p@,
            parent_path(p@) == if found { cs@.take(j as int).drop_last() } else { parent_path(cs@.take(j as int)) },
            found ==> j > 0,
        decreases j + (if found { 0int } else { 1int }),
    {
        if cs[j - 1] == '.' {
            found = true;
        } else {
            assert(cs@.take(j as int).drop_last() =~= cs@.take(j - 1));
            j = j - 1;
        }
    }
    let mut out = String::new();
    let end: usize = if found { j - 1 } else { 0 };
    let mut i: usize = 0;
    while i < end
        invariant
            end <= cs@.len(),
            i <= end,
            out@ == cs@.subrange(0, i as int),
        decreases end - i,
    {
        push_char(&mut out, cs[i]);
        assert(cs@.subrange(0, i + 1) =~= cs@.subrange(0, i as int).push(cs@[i as int]));
        i = i + 1;
    }
    proof {
        if found {
            assert(cs@.take(j as int).drop_last() =~= cs@.subrange(0, end as int));
        } else {
            assert(cs@.take(0) =~= Seq::<char>::empty());
        }
    }
    out
}

/// The text of an enum value: "NAME (v)" for the first name with that value,
/// else the number.
pub fn enum_display_exec(values: &Vec<(String, i64)>, v: i64) -> (r: String)
    ensures
        r@ == enum_display(values@, v),
{
    let mut i: usize = 0;
    while i < values.len()
        invariant
            i <= values@.len(),
            value_name(values@.take(i as int), v) is None,
        decreases values@.len() - i,
    {
        assert(values@.take(i + 1).drop_last() =~= values@.take(i as int));
        if values[i].1 == v {
            proof { lemma_value_name_prefix(values@, i + 1, v); }
            let mut s = values[i].0.clone();
            push_str(&mut s, " (");
            push_signed(&mut s, v);
            push_str(&mut s, ")");
            return s;
        }
        i = i + 1;
    }
    assert(values@.take(values@.len() as int) =~= values@);
    let mut s = String::new();
    push_signed(&mut s, v);
    s
}

proof fn lemma_value_name_prefix(vs: Seq<(String, i64)>, k: int, v: i64)
    requires
        0 < k <= vs.len(),
        value_name(vs.take(k), v) is Some,
    ensures
        value_name(vs, v) == value_name(vs.take(k), v),
    decreases vs.len() - k,
{
    if k < vs.len() {
        assert(vs.take(k + 1).drop_last() =~= vs.take(k));
        lemma_value_name_prefix(vs, k + 1, v);
    } else {
        assert(vs.take(k) =~= vs);
    }
}

// ---------------------------------------------------------------------
// The parser.
// ---------------------------------------------------------------------

/// Reads an input according to a format definition.
pub struct Parser<'a> {
    data: &'a [u8],
    format: &'a FormatDefinition,
    context: Vec<(String, CtxValue)>,
    has_checksum_failure: bool,
    truncated_occurred: bool,
}

pub open spec fn struct_of_format(fmt: FormatDefinition, sd: StructDefinition) -> bool {
    sd == fmt.root || exists|i: int| 0 <= i < fmt.structs@.len() && fmt.structs@[i] == sd
}

impl<'a> Parser<'a> {
    /// What the parser carries from field to field.
    pub closed spec fn state(&self) -> PState {
        PState { ctx: ctx_view(self.context@), failed: self.has_checksum_failure, truncated: self.truncated_occurred }
    }

    pub closed spec fn input(&self) -> Seq<u8> {
        self.data@
    }

    pub closed spec fn definition(&self) -> FormatDefinition {
        *self.format
    }

    pub fn new(data: &'a [u8], format: &'a FormatDefinition) -> (r: Parser<'a>)
        ensures
            r.input() == data@,
            r.definition() == *format,
            r.state() == (PState { ctx: Seq::empty(), failed: false, truncated: false }),
    {
        let r = Parser { data, format, context: Vec::new(), has_checksum_failure: false, truncated_occurred: false };
        assert(ctx_view(r.context@) =~= Seq::<(Seq<char>, CtxValue)>::empty());
        r
    }

    /// Whether a checksum has failed so far.
    pub fn has_checksum_failure(&self) -> (r: bool)
        ensures
            r == self.state().failed,
    {
        self.has_checksum_failure
    }

    /// Parses the input with the root struct, starting at offset zero.
    pub fn parse(&mut self) -> (r: Result<ParsedField, ParserError>)
        requires
            format_bits_ok(old(self).definition()),
            old(self).definition().structs@.len() < usize::MAX,
        ensures
            final(self).input() == old(self).input(),
            final(self).definition() == old(self).definition(),
            ({
                let (st, res) = parse_struct_spec(old(self).input(), old(self).definition(), old(self).state(),
                    old(self).definition().root, Seq::empty(), 0, nesting_fuel(old(self).definition()));
                &&& final(self).state() == st
                &&& match res {
                    Ok(fo) => (r matches Ok(pf) && field_out(pf) == fo),
                    Err(e) => (r matches Err(x) && err_desc(x) == e),
                }
            }),
    {
        let fuel = self.format.structs.len() + 1;
        let root = &self.format.root;
        proof {
            reveal_strlit("");
            assert(format_bits_ok(*self.format));
        }
        assert(""@ =~= Seq::<char>::empty());
        self.parse_struct(root, "", 0, fuel)
    }

    /// Reads a struct at `base`.
    fn parse_struct(&mut self, sd: &StructDefinition, parent: &str, base: usize, fuel: usize) -> (r: Result<ParsedField, ParserError>)
        requires
            format_bits_ok(*old(self).format),
            struct_bits_ok(*sd),
        ensures
            final(self).data == old(self).data,
            final(self).format == old(self).format,
            ({
                let (st, res) = parse_struct_spec(old(self).data@, *old(self).format, old(self).state(), *sd, parent@, base, fuel as nat);
                &&& final(self).state() == st
                &&& match res {
                    Ok(fo) => (r matches Ok(pf) && field_out(pf) == fo),
                    Err(e) => (r matches Err(x) && err_desc(x) == e),
                }
            }),
        decreases fuel, 4int, DataType::U8, 0nat,
    {
        let path = if parent.is_empty() {
            sd.name.clone()
        } else {
            let mut p = owned(parent);
            push_str(&mut p, ".");
            push_str(&mut p, sd.name.as_str());
            p
        };
        let ghost d = self.data@;
        let ghost fmt = *self.format;
        let ghost st0 = self.state();
        let mut fields: Vec<ParsedField> = Vec::new();
        let mut off = base;
        let mut i: usize = 0;
        assert(fields_out(fields@) =~= Seq::<FieldOut>::empty());
        while i < sd.fields.len()
            invariant
                d == self.data@,
                fmt == *self.format,
                self.data == old(self).data,
                self.format == old(self).format,
                st0 == old(self).state(),
                path@ == (if parent@.len() == 0 { sd.name@ } else { parent@ + "."@ + sd.name@ }),
                format_bits_ok(*self.format),
                struct_bits_ok(*sd),
                i <= sd.fields@.len(),
                (self.state(), Ok::<(Seq<FieldOut>, usize), ErrDesc>((fields_out(fields@), off)))
                    == parse_fields_spec(d, fmt, st0, sd.fields@, path@, base, i as nat, fuel as nat),
            decreases sd.fields@.len() - i,
        {
            let ghost before = fields@;
            proof { assert(bits_ok(sd.fields@[i as int].data_type)); }
            match self.parse_one(&sd.fields[i], path.as_str(), off, fuel) {
                Ok((pf, next)) => {
                    fields.push(pf);
                    off = next;
                    assert(fields_out(fields@) =~= fields_out(before).push(field_out(pf)));
                },
                Err(e) => {
                    assert(parse_fields_spec(d, fmt, st0, sd.fields@, path@, base, (i + 1) as nat, fuel as nat)
                        == (self.state(), Err::<(Seq<FieldOut>, usize), ErrDesc>(err_desc(e))));
                    proof { lemma_fields_err(d, fmt, st0, sd.fields@, path@, base, (i + 1) as nat, sd.fields@.len(), fuel as nat); }
                    return Err(e);
                },
            }
            i = i + 1;
        }
        let total: usize = if fields.len() == 0 {
            0
        } else {
            let last = fields.len() - 1;
            sub_sat_exec(add_sat_exec(fields[last].offset, fields[last].length), fields[0].offset)
        };
        let copy = copy_fields(&fields);
        let r = ParsedField {
            name: sd.name.clone(),
            path,
            offset: base,
            length: total,
            value: ParsedValue::Struct(copy),
            display_format: DisplayFormat::Hex,
            truncated: false,
            undecidable: false,
            skipped: false,
            checksum_result: None,
            children: fields,
        };
        proof {
            lemma_struct_desc(copy);
            lemma_children_out(r);
            if fields@.len() > 0 {
                assert(fields_out(fields@).last() == field_out(fields@[fields@.len() - 1]));
            }
        }
        Ok(r)
    }

    /// One field of a struct, read at `off`; returns it with the offset the next
    /// relative field starts at.
    fn parse_one(&mut self, fd: &Field, path: &str, off: usize, fuel: usize) -> (r: Result<(ParsedField, usize), ParserError>)
        requires
            format_bits_ok(*old(self).format),
            bits_ok(fd.data_type),
        ensures
            final(self).data == old(self).data,
            final(self).format == old(self).format,
            ({
                let (st, res) = field_step_spec(old(self).data@, *old(self).format, old(self).state(), *fd, path@, off, fuel as nat);
                &&& final(self).state() == st
                &&& match res {
                    Ok((fo, next)) => (r matches Ok(x) && field_out(x.0) == fo && x.1 == next),
                    Err(e) => (r matches Err(x) && err_desc(x) == e),
                }
            }),
        decreases fuel, 2int, DataType::U8, 0nat,
    {
        let mut fpath = owned(path);
        push_str(&mut fpath, ".");
        push_str(&mut fpath, fd.name.as_str());
        if self.truncated_occurred {
            return Ok((blank_field(fd, fpath, off, true, false, false), off));
        }
        match &fd.condition {
            Some(c) => match eval_condition(c.expression.as_str(), &self.context) {
                Ok(true) => {},
                Ok(false) => return Ok((blank_field(fd, fpath, off, false, false, true), off)),
                Err(_) => return Ok((blank_field(fd, fpath, off, false, true, true), off)),
            },
            None => {},
        }
        let at = match &fd.offset {
            Some(o) => if str_eq(o.as_str(), "relative") {
                off
            } else {
                match eval_usize(o.as_str(), &self.context) {
                    Ok(v) => v,
                    Err(_) => return Err(ParserError::DependsOnTruncated(fd.name.clone())),
                }
            },
            None => off,
        };
        match self.parse_field(fd, fpath.as_str(), at, fuel) {
            Ok(pf) => {
                self.record(fpath.as_str(), &pf.value);
                let next = add_sat_exec(pf.offset, pf.length);
                Ok((pf, next))
            },
            Err(e) => match e {
                ParserError::Truncated { .. } => {
                    self.truncated_occurred = true;
                    Ok((blank_field(fd, fpath, at, true, false, false), at))
                },
                other => Err(other),
            },
        }
    }

    /// Records a parsed value for later expressions.
    fn record(&mut self, key: &str, v: &ParsedValue)
        ensures
            final(self).data == old(self).data,
            final(self).format == old(self).format,
            final(self).state() == record(old(self).state(), key@, value_desc(*v)),
    {
        match v.to_i64() {
            Some(i) => ctx_insert(&mut self.context, key, CtxValue::Int(i)),
            None => {},
        }
        match v.float_bits() {
            Some(b) => ctx_insert(&mut self.context, key, CtxValue::Float(b)),
            None => {},
        }
    }

    /// Reads one field at `off`.
    fn parse_field(&mut self, fd: &Field, path: &str, off: usize, fuel: usize) -> (r: Result<ParsedField, ParserError>)
        requires
            format_bits_ok(*old(self).format),
            bits_ok(fd.data_type),
        ensures
            final(self).data == old(self).data,
            final(self).format == old(self).format,
            ({
                let (st, res) = parse_field_spec(old(self).data@, *old(self).format, old(self).state(), *fd, path@, off, fuel as nat);
                &&& final(self).state() == st
                &&& match res {
                    Ok(fo) => (r matches Ok(x) && field_out(x) == fo),
                    Err(e) => (r matches Err(x) && err_desc(x) == e),
                }
            }),
        decreases fuel, 1int, DataType::U8, 0nat,
    {
        let little = fd.endian == Endian::Little;
        let (value, length) = match self.parse_value(&fd.data_type, little, off, path, fuel) {
            Ok(x) => x,
            Err(e) => return Err(e),
        };
        let checksum_result = match self.check_checksum(fd, &value) {
            Ok(c) => c,
            Err(e) => return Err(e),
        };
        let shown = self.shown_value(&fd.data_type, value);
        let r = ParsedField {
            name: fd.name.clone(),
            path: owned(path),
            offset: off,
            length,
            value: shown,
            display_format: fd.display_format,
            truncated: false,
            undecidable: false,
            skipped: false,
            checksum_result,
            children: Vec::new(),
        };
        proof { lemma_children_out(r); }
        assert(field_out(r).children =~= Seq::<FieldOut>::empty());
        Ok(r)
    }

    /// Checks a field's checksum against the value read for it.
    fn check_checksum(&mut self, fd: &Field, value: &ParsedValue) -> (r: Result<Option<ChecksumResult>, ParserError>)
        ensures
            final(self).data == old(self).data,
            final(self).format == old(self).format,
            ({
                let (st, res) = checksum_spec(old(self).data@, old(self).state(), *fd, value_desc(*value));
                &&& final(self).state() == st
                &&& match res {
                    Ok(c) => r == Ok::<Option<ChecksumResult>, ParserError>(c),
                    Err(e) => (r matches Err(x) && err_desc(x) == e),
                }
            }),
    {
        match &fd.checksum {
            None => Ok(None),
            Some(cs) => {
                let start = match eval_usize(cs.start.as_str(), &self.context) {
                    Ok(v) => v,
                    Err(m) => return Err(ParserError::ExpressionError(m)),
                };
                let end = match eval_usize(cs.end.as_str(), &self.context) {
                    Ok(v) => v,
                    Err(m) => return Err(ParserError::ExpressionError(m)),
                };
                if start < end && end <= self.data.len() {
                    let range = copy_range(self.data, start, end);
                    let actual: u64 = if str_eq(cs.algorithm.as_str(), "crc32") {
                        crc32(range.as_slice()) as u64
                    } else if str_eq(cs.algorithm.as_str(), "adler32") {
                        adler32(range.as_slice()) as u64
                    } else if str_eq(cs.algorithm.as_str(), "sum") {
                        wrapping_sum(range.as_slice()) as u64
                    } else {
                        return Err(ParserError::UnknownChecksumAlgorithm(cs.algorithm.clone()));
                    };
                    let expected = match value.to_u64() {
                        Some(x) => x,
                        None => 0,
                    };
                    if actual == expected {
                        Ok(Some(ChecksumResult::Passed))
                    } else {
                        self.has_checksum_failure = true;
                        Ok(Some(ChecksumResult::Failed { expected, actual }))
                    }
                } else {
                    Ok(None)
                }
            },
        }
    }

    /// The value shown for a field: enum values get their names.
    fn shown_value(&self, dt: &DataType, v: ParsedValue) -> (r: ParsedValue)
        ensures
            value_desc(r) == shown_value(*self.format, *dt, value_desc(v)),
    {
        match dt {
            DataType::Enum { name, .. } => match self.format.get_enum(name.as_str()) {
                Some(ed) => match v.to_i64() {
                    Some(iv) => {
                        let display = enum_display_exec(&ed.values, iv);
                        ParsedValue::Enum { name: name.clone(), value: iv, display }
                    },
                    None => v,
                },
                None => v,
            },
            _ => v,
        }
    }
}

fn blank_field(fd: &Field, path: String, off: usize, truncated: bool, undecidable: bool, skipped: bool) -> (r: ParsedField)
    ensures
        field_out(r) == blank(*fd, path@, off, truncated, undecidable, skipped),
{
    let r = ParsedField {
        name: fd.name.clone(),
        path,
        offset: off,
        length: 0,
        value: ParsedValue::U8(0),
        display_format: fd.display_format,
        truncated,
        undecidable,
        skipped,
        checksum_result: None,
        children: Vec::new(),
    };
    proof { lemma_children_out(r); }
    assert(field_out(r).children =~= Seq::<FieldOut>::empty());
    assert(value_desc(r.value) == ValueDesc::U8(0));
    assert(field_out(r) == blank(*fd, path@, off, truncated, undecidable, skipped));
    r
}

proof fn lemma_fields_err(d: Seq<u8>, fmt: FormatDefinition, st: PState, fields: Seq<Field>, path: Seq<char>,
    base: usize, k: nat, n: nat, f: nat)
    requires
        k <= n <= fields.len(),
        parse_fields_spec(d, fmt, st, fields, path, base, k, f).1 is Err,
    ensures
        parse_fields_spec(d, fmt, st, fields, path, base, n, f) == parse_fields_spec(d, fmt, st, fields, path, base, k, f),
    decreases n - k,
{
    if k < n {
        lemma_fields_err(d, fmt, st, fields, path, base, k, (n - 1) as nat, f);
    }
}

impl<'a> Parser<'a> {
    /// The error for `needed` bytes at `off`, where they are past the end of the input.
    fn check_available(&self, off: usize, needed: usize) -> (r: Result<(), ParserError>)
        ensures
            match shortfall(self.data@.len(), off, needed) {
                Some(e) => (r matches Err(x) && err_desc(x) == e),
                None => r is Ok,
            },
    {
        if off > self.data.len() || self.data.len() - off < needed {
            Err(ParserError::Truncated { offset: off, needed, available: sub_sat_exec(self.data.len(), off) })
        } else {
            Ok(())
        }
    }

    /// Reads a value of type `dt` at `off`.
    fn parse_value(&mut self, dt: &DataType, little: bool, off: usize, path: &str, fuel: usize)
        -> (r: Result<(ParsedValue, usize), ParserError>)
        requires
            format_bits_ok(*old(self).format),
            bits_ok(*dt),
        ensures
            final(self).data == old(self).data,
            final(self).format == old(self).format,
            ({
                let (st, res) = parse_value_spec(old(self).data@, *old(self).format, old(self).state(), *dt, little, off, path@, fuel as nat);
                &&& final(self).state() == st
                &&& match res {
                    Ok((v, len)) => (r matches Ok(x) && value_desc(x.0) == v && x.1 == len),
                    Err(e) => (r matches Err(x) && err_desc(x) == e),
                }
            }),
        decreases fuel, 0int, *dt, 0nat,
    {
        match dt {
            DataType::Bytes { .. } | DataType::String { .. } => self.parse_sized(dt, off),
            DataType::Struct { name } => {
                let sd = match self.format.get_struct(name.as_str()) {
                    Some(sd) => sd,
                    None => return Err(ParserError::UnknownStruct(name.clone())),
                };
                if fuel == 0 {
                    return Err(ParserError::NestingTooDeep(name.clone()));
                }
                proof {
                    lemma_first_named(self.format@.structs, name@);
                    if self.format.root.name@ != name@ {
                        let i = first_named(self.format@.structs, name@).unwrap();
                        assert(struct_bits_ok(self.format.structs@[i]));
                    }
                }
                let parent = parent_path_exec(path);
                let fo = match self.parse_struct(sd, parent.as_str(), off, fuel - 1) {
                    Ok(fo) => fo,
                    Err(e) => return Err(e),
                };
                let len = fo.length;
                proof {
                    lemma_children_out(fo);
                    lemma_struct_desc(fo.children);
                }
                Ok((ParsedValue::Struct(fo.children), len))
            },
            DataType::Array { element_type, length } => {
                let n = match eval_usize(length.as_str(), &self.context) {
                    Ok(n) => n,
                    Err(m) => return Err(ParserError::ExpressionError(m)),
                };
                match self.parse_elems(element_type, little, off, path, n, fuel) {
                    Ok((items, cur)) => {
                        proof { lemma_array_desc(items); }
                        Ok((ParsedValue::Array(items), sub_sat_exec(cur, off)))
                    },
                    Err(e) => Err(e),
                }
            },
            DataType::Enum { underlying, .. } => {
                self.parse_value(underlying, little, off, path, fuel)
            },
            _ => self.parse_fixed(dt, little, off),
        }
    }

    /// Reads `n` elements of type `et` from `off`; returns them with the offset after the last.
    fn parse_elems(&mut self, et: &DataType, little: bool, off: usize, path: &str, n: usize, fuel: usize)
        -> (r: Result<(Vec<ParsedValue>, usize), ParserError>)
        requires
            format_bits_ok(*old(self).format),
            bits_ok(*et),
        ensures
            final(self).data == old(self).data,
            final(self).format == old(self).format,
            ({
                let (st, res) = parse_elems_spec(old(self).data@, *old(self).format, old(self).state(), *et, little, off, path@, n as nat, fuel as nat);
                &&& final(self).state() == st
                &&& match res {
                    Ok((vs, cur)) => (r matches Ok(x) && values_desc(x.0@) == vs && x.1 == cur),
                    Err(e) => (r matches Err(x) && err_desc(x) == e),
                }
            }),
        decreases fuel, 0int, *et, 1nat,
    {
        let ghost d = self.data@;
        let ghost fmt = *self.format;
        let ghost st0 = self.state();
        let mut items: Vec<ParsedValue> = Vec::new();
        let mut cur = off;
        let mut i: usize = 0;
        assert(values_desc(items@) =~= Seq::<ValueDesc>::empty());
        while i < n
            invariant
                d == self.data@,
                fmt == *self.format,
                self.data == old(self).data,
                self.format == old(self).format,
                st0 == old(self).state(),
                format_bits_ok(*self.format),
                bits_ok(*et),
                i <= n,
                (self.state(), Ok::<(Seq<ValueDesc>, usize), ErrDesc>((values_desc(items@), cur)))
                    == parse_elems_spec(d, fmt, st0, *et, little, off, path@, i as nat, fuel as nat),
            decreases n - i,
        {
            let mut ep = owned(path);
            push_str(&mut ep, "[");
            push_dec(&mut ep, i as u64);
            push_str(&mut ep, "]");
            let ghost before = items@;
            match self.parse_value(et, little, cur, ep.as_str(), fuel) {
                Ok((v, len)) => {
                    items.push(v);
                    cur = add_sat_exec(cur, len);
                    assert(values_desc(items@) =~= values_desc(before).push(value_desc(v)));
                },
                Err(e) => {
                    assert(parse_elems_spec(d, fmt, st0, *et, little, off, path@, (i + 1) as nat, fuel as nat)
                        == (self.state(), Err::<(Seq<ValueDesc>, usize), ErrDesc>(err_desc(e))));
                    proof { lemma_elems_err(d, fmt, st0, *et, little, off, path@, (i + 1) as nat, n as nat, fuel as nat); }
                    return Err(e);
                },
            }
            i = i + 1;
        }
        Ok((items, cur))
    }

    /// Reads bytes or a string whose length an expression gives.
    fn parse_sized(&self, dt: &DataType, off: usize) -> (r: Result<(ParsedValue, usize), ParserError>)
        requires
            dt is Bytes || dt is String,
        ensures
            match parse_value_spec(self.data@, *self.format, self.state(), *dt, true, off, Seq::empty(), 0).1 {
                Ok((v, len)) => (r matches Ok(x) && value_desc(x.0) == v && x.1 == len),
                Err(e) => (r matches Err(x) && err_desc(x) == e),
            },
    {
        let length = match dt {
            DataType::Bytes { length } => length,
            DataType::String { length, .. } => length,
            _ => return Err(ParserError::InvalidValue(String::new())),
        };
        let n = match eval_usize(length.as_str(), &self.context) {
            Ok(n) => n,
            Err(m) => return Err(ParserError::ExpressionError(m)),
        };
        match self.check_available(off, n) {
            Ok(()) => {},
            Err(e) => return Err(e),
        }
        let total = self.data.len();
        assert(off + n <= total);
        let b = copy_range(self.data, off, off + n);
        match dt {
            DataType::String { encoding, .. } => {
                let ascii = match encoding {
                    Some(enc) => str_eq(enc.as_str(), "ascii"),
                    None => false,
                };
                let text = if ascii { latin1_text(b.as_slice()) } else { lossy_text(b.as_slice()) };
                Ok((ParsedValue::String(text), n))
            },
            _ => Ok((ParsedValue::Bytes(b), n)),
        }
    }

    /// Reads a value of fixed size.
    fn parse_fixed(&self, dt: &DataType, little: bool, off: usize) -> (r: Result<(ParsedValue, usize), ParserError>)
        requires
            fixed_size(*dt) is Some,
            bits_ok(*dt),
        ensures
            match shortfall(self.data@.len(), off, fixed_size(*dt).unwrap()) {
                Some(e) => (r matches Err(x) && err_desc(x) == e),
                None => (r matches Ok(x) && value_desc(x.0) == fixed_value(self.data@, *dt, little, off as int)
                    && x.1 == fixed_size(*dt).unwrap()),
            },
    {
        let size: usize = match dt {
            DataType::U8 | DataType::I8 | DataType::BitField { .. } => 1,
            DataType::U16 | DataType::I16 => 2,
            DataType::U32 | DataType::I32 | DataType::F32 => 4,
            _ => 8,
        };
        match self.check_available(off, size) {
            Ok(()) => {},
            Err(e) => return Err(e),
        }
        let total = self.data.len();
        assert(off + size <= total);
        match dt {
            DataType::U8 => Ok((ParsedValue::U8(self.data[off]), 1)),
            DataType::I8 => Ok((ParsedValue::I8(self.data[off] as i8), 1)),
            DataType::BitField { bit_start, bit_length } => {
                let byte = self.data[off];
                let bs = *bit_start;
                let bl = *bit_length;
                let one: u8 = 1u8 << bl;
                assert(one >= 1) by (bit_vector)
                    requires one == 1u8 << bl, bl < 8;
                let mask: u8 = one - 1;
                Ok((ParsedValue::BitField(((byte >> bs) & mask) as u64), 1))
            },
            DataType::U16 | DataType::I16 => {
                let v = if little { get_u16(self.data, off) } else { get_be_u16(self.data, off) };
                match dt {
                    DataType::U16 => Ok((ParsedValue::U16(v), 2)),
                    _ => Ok((ParsedValue::I16(v as i16), 2)),
                }
            },
            DataType::U32 | DataType::I32 | DataType::F32 => {
                let v = if little { get_u32(self.data, off) } else { get_be_u32(self.data, off) };
                match dt {
                    DataType::U32 => Ok((ParsedValue::U32(v), 4)),
                    DataType::I32 => Ok((ParsedValue::I32(v as i32), 4)),
                    _ => Ok((ParsedValue::F32(v), 4)),
                }
            },
            _ => {
                let v = if little { get_u64(self.data, off) } else { get_be_u64(self.data, off) };
                match dt {
                    DataType::U64 => Ok((ParsedValue::U64(v), 8)),
                    DataType::I64 => Ok((ParsedValue::I64(v as i64), 8)),
                    _ => Ok((ParsedValue::F64(v), 8)),
                }
            },
        }
    }
}

proof fn lemma_elems_err(d: Seq<u8>, fmt: FormatDefinition, st: PState, et: DataType, little: bool, off: usize,
    path: Seq<char>, k: nat, n: nat, f: nat)
    requires
        k <= n,
        parse_elems_spec(d, fmt, st, et, little, off, path, k, f).1 is Err,
    ensures
        parse_elems_spec(d, fmt, st, et, little, off, path, n, f) == parse_elems_spec(d, fmt, st, et, little, off, path, k, f),
    decreases n - k,
{
    if k < n {
        lemma_elems_err(d, fmt, st, et, little, off, path, k, (n - 1) as nat, f);
    }
}

/// Parses `data` with the definition's root struct; returns the root field and
/// whether some checksum failed.
pub fn parse(data: &[u8], format: &FormatDefinition) -> (r: Result<(ParsedField, bool), ParserError>)
    requires
        format_bits_ok(*format),
        format.structs@.len() < usize::MAX,
    ensures
        match parse_spec(data@, *format) {
            (st, Ok(fo)) => (r matches Ok(x) && field_out(x.0) == fo && x.1 == st.failed),
            (_, Err(e)) => (r matches Err(x) && err_desc(x) == e),
        },
{
    let mut parser = Parser::new(data, format);
    let result = match parser.parse() {
        Ok(f) => f,
        Err(e) => return Err(e),
    };
    Ok((result, parser.has_checksum_failure()))
}

/// The text of a parse error.
pub open spec fn parser_error_text(e: ParserError) -> Seq<char> {
    match e {
        ParserError::Truncated { offset, needed, available } =>
            "File truncated at offset "@ + dec_str(offset as nat) + ", needed "@ + dec_str(needed as nat)
                + " bytes but only "@ + dec_str(available as nat) + " available"@,
        ParserError::DependsOnTruncated(s) => "Field '"@ + s@ + "' depends on truncated field"@,
        ParserError::ExpressionError(s) => "Expression evaluation failed: "@ + s@,
        ParserError::UndecidableCondition(s) => "Condition undecidable for field '"@ + s@ + "'"@,
        ParserError::InvalidValue(s) => "Invalid value: "@ + s@,
        ParserError::EnumValueNotFound { value, enum_name } =>
            "Enum value "@ + signed_str(value as int) + " not found in enum '"@ + enum_name@ + "'"@,
        ParserError::UnknownStruct(s) => "Unknown struct: "@ + s@,
        ParserError::UnknownChecksumAlgorithm(s) => "Unknown checksum algorithm: "@ + s@,
        ParserError::NestingTooDeep(s) => "Struct nesting too deep at: "@ + s@,
    }
}

impl ParserError {
    /// The error's text.
    pub fn message(&self) -> (r: String)
        ensures
            r@ == parser_error_text(*self),
    {
        let mut s = String::new();
        match self {
            ParserError::Truncated { offset, needed, available } => {
                push_str(&mut s, "File truncated at offset ");
                push_dec(&mut s, *offset as u64);
                push_str(&mut s, ", needed ");
                push_dec(&mut s, *needed as u64);
                push_str(&mut s, " bytes but only ");
                push_dec(&mut s, *available as u64);
                push_str(&mut s, " available");
            },
            ParserError::DependsOnTruncated(n) => {
                push_str(&mut s, "Field '");
                push_str(&mut s, n.as_str());
                push_str(&mut s, "' depends on truncated field");
            },
            ParserError::ExpressionError(m) => {
                push_str(&mut s, "Expression evaluation failed: ");
                push_str(&mut s, m.as_str());
            },
            ParserError::UndecidableCondition(n) => {
                push_str(&mut s, "Condition undecidable for field '");
                push_str(&mut s, n.as_str());
                push_str(&mut s, "'");
            },
            ParserError::InvalidValue(m) => {
                push_str(&mut s, "Invalid value: ");
                push_str(&mut s, m.as_str());
            },
            ParserError::EnumValueNotFound { value, enum_name } => {
                push_str(&mut s, "Enum value ");
                push_signed(&mut s, *value);
                push_str(&mut s, " not found in enum '");
                push_str(&mut s, enum_name.as_str());
                push_str(&mut s, "'");
            },
            ParserError::UnknownStruct(n) => {
                push_str(&mut s, "Unknown struct: ");
                push_str(&mut s, n.as_str());
            },
            ParserError::UnknownChecksumAlgorithm(n) => {
                push_str(&mut s, "Unknown checksum algorithm: ");
                push_str(&mut s, n.as_str());
            },
            ParserError::NestingTooDeep(n) => {
                push_str(&mut s, "Struct nesting too deep at: ");
                push_str(&mut s, n.as_str());
            },
        }
        assert(s@ =~= parser_error_text(*self));
        s
    }
}

} // verus!
