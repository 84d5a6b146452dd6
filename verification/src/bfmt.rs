use vstd::prelude::*;
use crate::bytes::{
    u16_le, u32_le, u64_le, le_u16, le_u32, le_u64, put_u16, put_u32, put_u64, put_bytes,
    get_u16, get_u32, get_u64, lemma_u16_roundtrip, lemma_u32_roundtrip, lemma_u64_roundtrip,
};
use crate::dsl::{
    DataType, Endian, DisplayFormat, Field, Condition, ChecksumField, EnumDefinition,
    StructDefinition, FormatDefinition, EnumModel, StructModel, FormatModel, bytes_view,
};
use crate::text::{str_eq, push_str, owned, to_ascii_lower, ascii_lower_seq, chars_eq};
use crate::numfmt::{dec_str, hex_pad, push_dec, push_hex8};

verus! {

pub const MAGIC: [u8; 4] = [0x42, 0x46, 0x4D, 0x54];
pub const VERSION: u16 = 1;
pub const FLAG_DEBUG: u16 = 0x0001;
pub const INVALID_INDEX: u32 = 0xFFFFFFFF;

pub const TYPE_U8: u8 = 0;
pub const TYPE_U16: u8 = 1;
pub const TYPE_U32: u8 = 2;
pub const TYPE_U64: u8 = 3;
pub const TYPE_I8: u8 = 4;
pub const TYPE_I16: u8 = 5;
pub const TYPE_I32: u8 = 6;
pub const TYPE_I64: u8 = 7;
pub const TYPE_F32: u8 = 8;
pub const TYPE_F64: u8 = 9;
pub const TYPE_BYTES: u8 = 10;
pub const TYPE_STRING: u8 = 11;
pub const TYPE_BIT_FIELD: u8 = 12;
pub const TYPE_STRUCT: u8 = 13;
pub const TYPE_ARRAY: u8 = 14;
pub const TYPE_ENUM: u8 = 15;

pub const UNDERLYING_U8: u8 = 0;
pub const UNDERLYING_U16: u8 = 1;
pub const UNDERLYING_U32: u8 = 2;
pub const UNDERLYING_U64: u8 = 3;

pub const ENDIAN_LITTLE: u8 = 0;
pub const ENDIAN_BIG: u8 = 1;

pub const FMT_HEX: u8 = 0;
pub const FMT_DEC: u8 = 1;
pub const FMT_BIN: u8 = 2;
pub const FMT_ASCII: u8 = 3;
pub const FMT_UTF8: u8 = 4;

pub const CHECKSUM_NONE: u8 = 0xFF;

/// Errors from reading or writing the binary definition format.
#[derive(Debug)]
pub enum BfmtError {
    InvalidMagic { offset: usize, expected: [u8; 4], got: [u8; 4] },
    InvalidVersion { offset: usize, expected: u16, got: u16 },
    UnexpectedEof { offset: usize, needed: usize, available: usize },
    InvalidStringIndex { offset: usize, index: u32, table_size: usize },
    InvalidDataType { offset: usize, code: u8 },
    InvalidUnderlyingType { offset: usize, code: u8 },
    InvalidEndian { offset: usize, code: u8 },
    InvalidDisplayFormat { offset: usize, code: u8 },
    InvalidChecksumAlgorithm { offset: usize, code: u8 },
    /// Bytes of the string table that are not UTF-8: where the string starts,
    /// how many of its bytes are UTF-8, and the length of the bad sequence
    /// after them (`None` where the string ends inside a sequence).
    Utf8Error { offset: usize, valid_up_to: usize, error_len: Option<u8> },
    /// A string of length zero in the string table.
    InvalidStringTable { offset: usize },
}

/// Decimal values separated by ", ".
pub open spec fn dec_list(b: Seq<u8>) -> Seq<char>
    decreases b.len(),
{
    if b.len() == 0 {
        Seq::empty()
    } else if b.len() == 1 {
        dec_str(b[0] as nat)
    } else {
        dec_list(b.drop_last()) + ", "@ + dec_str(b.last() as nat)
    }
}

/// How an array of bytes prints for debugging: "[66, 70, 77, 84]".
pub open spec fn bytes_debug(b: Seq<u8>) -> Seq<char> {
    "["@ + dec_list(b) + "]"@
}

pub open spec fn at_offset(offset: usize) -> Seq<char> {
    " at offset 0x"@ + hex_pad(offset as nat, 8)
}

/// The text of an error.
pub open spec fn bfmt_message(e: BfmtError) -> Seq<char> {
    match e {
        BfmtError::InvalidMagic { offset, expected, got } =>
            "Invalid magic"@ + at_offset(offset) + ": expected "@ + bytes_debug(expected@) + ", got "@ + bytes_debug(got@),
        BfmtError::InvalidVersion { offset, expected, got } =>
            "Invalid version"@ + at_offset(offset) + ": expected "@ + dec_str(expected as nat) + ", got "@ + dec_str(got as nat),
        BfmtError::UnexpectedEof { offset, needed, available } =>
            "Unexpected EOF"@ + at_offset(offset) + ": needed "@ + dec_str(needed as nat) + " bytes, only "@
                + dec_str(available as nat) + " available"@,
        BfmtError::InvalidStringIndex { offset, index, table_size } =>
            "Invalid string index"@ + at_offset(offset) + ": index "@ + dec_str(index as nat)
                + " out of bounds (string table size "@ + dec_str(table_size as nat) + ")"@,
        BfmtError::InvalidDataType { offset, code } =>
            "Invalid data type code "@ + dec_str(code as nat) + at_offset(offset),
        BfmtError::InvalidUnderlyingType { offset, code } =>
            "Invalid underlying type "@ + dec_str(code as nat) + at_offset(offset),
        BfmtError::InvalidEndian { offset, code } =>
            "Invalid endian code "@ + dec_str(code as nat) + at_offset(offset),
        BfmtError::InvalidDisplayFormat { offset, code } =>
            "Invalid display format code "@ + dec_str(code as nat) + at_offset(offset),
        BfmtError::InvalidChecksumAlgorithm { offset, code } =>
            "Invalid checksum algorithm code "@ + dec_str(code as nat) + at_offset(offset),
        BfmtError::Utf8Error { offset, valid_up_to, error_len } =>
            "UTF-8 error"@ + at_offset(offset) + ": "@ + match error_len {
                Some(n) => "invalid utf-8 sequence of "@ + dec_str(n as nat) + " bytes from index "@ + dec_str(valid_up_to as nat),
                None => "incomplete utf-8 byte sequence from index "@ + dec_str(valid_up_to as nat),
            },
        BfmtError::InvalidStringTable { offset } =>
            "Invalid string table"@ + at_offset(offset) + ": zero-length string"@,
    }
}

fn push_bytes_debug(s: &mut String, b: &[u8; 4])
    ensures
        final(s)@ == old(s)@ + bytes_debug(b@),
{
    let ghost o = s@;
    push_str(s, "[");
    let mut i: usize = 0;
    while i < 4
        invariant
            i <= 4,
            b@.len() == 4,
            s@ == o + "["@ + dec_list(b@.take(i as int)),
        decreases 4 - i,
    {
        if i > 0 {
            push_str(s, ", ");
        }
        push_dec(s, b[i] as u64);
        proof {
            assert(b@.take(i + 1).drop_last() =~= b@.take(i as int));
            assert(b@.take(i + 1).last() == b@[i as int]);
            if i == 0 {
                assert(b@.take(0) =~= Seq::<u8>::empty());
            }
        }
        assert(s@ =~= o + "["@ + dec_list(b@.take(i + 1)));
        i = i + 1;
    }
    push_str(s, "]");
    assert(b@.take(4) =~= b@);
    assert(s@ =~= o + bytes_debug(b@));
}

fn push_at_offset(s: &mut String, offset: usize)
    ensures
        final(s)@ == old(s)@ + at_offset(offset),
{
    push_str(s, " at offset 0x");
    push_hex8(s, offset as u64);
    assert(final(s)@ =~= old(s)@ + at_offset(offset));
}

impl BfmtError {
    /// The error's text.
    pub fn message(&self) -> (r: String)
        ensures
            r@ == bfmt_message(*self),
    {
        let mut s = String::new();
        match self {
            BfmtError::InvalidMagic { offset, expected, got } => {
                push_str(&mut s, "Invalid magic");
                push_at_offset(&mut s, *offset);
                push_str(&mut s, ": expected ");
                push_bytes_debug(&mut s, expected);
                push_str(&mut s, ", got ");
                push_bytes_debug(&mut s, got);
            },
            BfmtError::InvalidVersion { offset, expected, got } => {
                push_str(&mut s, "Invalid version");
                push_at_offset(&mut s, *offset);
                push_str(&mut s, ": expected ");
                push_dec(&mut s, *expected as u64);
                push_str(&mut s, ", got ");
                push_dec(&mut s, *got as u64);
            },
            BfmtError::UnexpectedEof { offset, needed, available } => {
                push_str(&mut s, "Unexpected EOF");
                push_at_offset(&mut s, *offset);
                push_str(&mut s, ": needed ");
                push_dec(&mut s, *needed as u64);
                push_str(&mut s, " bytes, only ");
                push_dec(&mut s, *available as u64);
                push_str(&mut s, " available");
            },
            BfmtError::InvalidStringIndex { offset, index, table_size } => {
                push_str(&mut s, "Invalid string index");
                push_at_offset(&mut s, *offset);
                push_str(&mut s, ": index ");
                push_dec(&mut s, *index as u64);
                push_str(&mut s, " out of bounds (string table size ");
                push_dec(&mut s, *table_size as u64);
                push_str(&mut s, ")");
            },
            BfmtError::InvalidDataType { offset, code } => {
                push_str(&mut s, "Invalid data type code ");
                push_dec(&mut s, *code as u64);
                push_at_offset(&mut s, *offset);
            },
            BfmtError::InvalidUnderlyingType { offset, code } => {
                push_str(&mut s, "Invalid underlying type ");
                push_dec(&mut s, *code as u64);
                push_at_offset(&mut s, *offset);
            },
            BfmtError::InvalidEndian { offset, code } => {
                push_str(&mut s, "Invalid endian code ");
                push_dec(&mut s, *code as u64);
                push_at_offset(&mut s, *offset);
            },
            BfmtError::InvalidDisplayFormat { offset, code } => {
                push_str(&mut s, "Invalid display format code ");
                push_dec(&mut s, *code as u64);
                push_at_offset(&mut s, *offset);
            },
            BfmtError::InvalidChecksumAlgorithm { offset, code } => {
                push_str(&mut s, "Invalid checksum algorithm code ");
                push_dec(&mut s, *code as u64);
                push_at_offset(&mut s, *offset);
            },
            BfmtError::Utf8Error { offset, valid_up_to, error_len } => {
                push_str(&mut s, "UTF-8 error");
                push_at_offset(&mut s, *offset);
                push_str(&mut s, ": ");
                match error_len {
                    Some(n) => {
                        push_str(&mut s, "invalid utf-8 sequence of ");
                        push_dec(&mut s, *n as u64);
                        push_str(&mut s, " bytes from index ");
                        push_dec(&mut s, *valid_up_to as u64);
                    },
                    None => {
                        push_str(&mut s, "incomplete utf-8 byte sequence from index ");
                        push_dec(&mut s, *valid_up_to as u64);
                    },
                }
            },
            BfmtError::InvalidStringTable { offset } => {
                push_str(&mut s, "Invalid string table");
                push_at_offset(&mut s, *offset);
                push_str(&mut s, ": zero-length string");
            },
        }
        assert(s@ =~= bfmt_message(*self));
        s
    }
}

/// The number of fields of all structs, the root's included.
pub fn count_fields(def: &FormatDefinition) -> (r: usize)
    requires
        count_all_fields(def@.structs.push(def@.root)) <= usize::MAX,
    ensures
        r == count_all_fields(def@.structs.push(def@.root)),
{
    let ghost ss = def@.structs;
    let mut count: usize = 0;
    let mut i: usize = 0;
    assert(ss.push(def@.root).drop_last() =~= ss);
    while i < def.structs.len()
        invariant
            ss == def@.structs,
            i <= ss.len(),
            count == count_all_fields(ss.take(i as int)),
            count_all_fields(ss) <= usize::MAX,
        decreases ss.len() - i,
    {
        proof {
            assert(ss.take(i + 1).drop_last() =~= ss.take(i as int));
            assert(ss.take(i + 1).last() == def.structs@[i as int]@);
            lemma_count_fields_mono(ss, i + 1);
        }
        count = count + def.structs[i].fields.len();
        i = i + 1;
    }
    assert(ss.take(ss.len() as int) =~= ss);
    assert(ss.push(def@.root).drop_last() =~= ss);
    count + def.root.fields.len()
}

proof fn lemma_count_fields_mono(ss: Seq<StructModel>, k: int)
    requires
        0 <= k <= ss.len(),
    ensures
        count_all_fields(ss.take(k)) <= count_all_fields(ss),
    decreases ss.len() - k,
{
    if k < ss.len() {
        lemma_count_fields_mono(ss, k + 1);
        assert(ss.take(k + 1).drop_last() =~= ss.take(k));
    } else {
        assert(ss.take(k) =~= ss);
    }
}

// ---------------------------------------------------------------------
// The string table.
// ---------------------------------------------------------------------

/// Adds `s` to the table unless it is there already.
pub open spec fn table_insert(t: Seq<Seq<char>>, s: Seq<char>) -> Seq<Seq<char>> {
    if t.contains(s) { t } else { t.push(s) }
}

/// The table that inserting `items` in order builds.
pub open spec fn table_of(items: Seq<Seq<char>>) -> Seq<Seq<char>>
    decreases items.len(),
{
    if items.len() == 0 {
        Seq::empty()
    } else {
        table_insert(table_of(items.drop_last()), items.last())
    }
}

/// A table built by inserting strings holds no string twice, and holds each
/// string that was inserted.
pub proof fn lemma_table_distinct(items: Seq<Seq<char>>)
    ensures
        table_of(items).no_duplicates(),
        forall|i: int| 0 <= i < items.len() ==> table_of(items).contains(#[trigger] items[i]),
    decreases items.len(),
{
    if items.len() > 0 {
        let prev = items.drop_last();
        lemma_table_distinct(prev);
        let t = table_of(prev);
        assert forall|i: int| 0 <= i < items.len() implies table_of(items).contains(#[trigger] items[i]) by {
            if i < items.len() - 1 {
                assert(prev[i] == items[i]);
                assert(t.contains(prev[i]));
                if !t.contains(items.last()) {
                    let j = choose|j: int| 0 <= j < t.len() && t[j] == prev[i];
                    assert(t.push(items.last())[j] == items[i]);
                }
            } else if !t.contains(items.last()) {
                assert(t.push(items.last())[t.len() as int] == items[i]);
            }
        }
    }
}

/// The index of `s` in the table, or `default` where it is absent.
pub open spec fn index_or(t: Seq<Seq<char>>, s: Seq<char>, default: u32) -> u32 {
    match t.index_of_first(s) {
        Some(i) => i as u32,
        None => default,
    }
}

/// The strings a data type contributes to the table.
pub open spec fn data_type_strings(dt: DataType) -> Seq<Seq<char>>
    decreases dt,
{
    match dt {
        DataType::Bytes { length } => seq![length@],
        DataType::String { length, .. } => seq![length@],
        DataType::Struct { name } => seq![name@],
        DataType::Array { element_type, length } => data_type_strings(*element_type).push(length@),
        DataType::Enum { name, .. } => seq![name@],
        _ => Seq::empty(),
    }
}

pub open spec fn offset_strings(o: Option<String>) -> Seq<Seq<char>> {
    match o {
        Some(x) => if x@ != "relative"@ { seq![x@] } else { Seq::empty() },
        None => Seq::empty(),
    }
}

pub open spec fn condition_strings(c: Option<Condition>) -> Seq<Seq<char>> {
    match c {
        Some(x) => seq![x.expression@],
        None => Seq::empty(),
    }
}

pub open spec fn checksum_strings(c: Option<ChecksumField>) -> Seq<Seq<char>> {
    match c {
        Some(x) => seq![x.start@, x.end@],
        None => Seq::empty(),
    }
}

/// The strings a field contributes to the table.
pub open spec fn field_strings(f: Field) -> Seq<Seq<char>> {
    seq![f.name@] + offset_strings(f.offset) + data_type_strings(f.data_type)
        + condition_strings(f.condition) + checksum_strings(f.checksum)
}

pub open spec fn fields_strings(fs: Seq<Field>) -> Seq<Seq<char>>
    decreases fs.len(),
{
    if fs.len() == 0 { Seq::empty() } else { fields_strings(fs.drop_last()) + field_strings(fs.last()) }
}

pub open spec fn struct_strings(s: StructModel) -> Seq<Seq<char>> {
    seq![s.name@] + fields_strings(s.fields)
}

pub open spec fn structs_strings(ss: Seq<StructModel>) -> Seq<Seq<char>>
    decreases ss.len(),
{
    if ss.len() == 0 { Seq::empty() } else { structs_strings(ss.drop_last()) + struct_strings(ss.last()) }
}

pub open spec fn enum_strings(e: EnumModel) -> Seq<Seq<char>> {
    seq![e.name@] + e.values.map_values(|p: (String, i64)| p.0@)
}

pub open spec fn enums_strings(es: Seq<EnumModel>) -> Seq<Seq<char>>
    decreases es.len(),
{
    if es.len() == 0 { Seq::empty() } else { enums_strings(es.drop_last()) + enum_strings(es.last()) }
}

/// Every string that compiling `m` puts in the table, in insertion order.
pub open spec fn def_strings(m: FormatModel) -> Seq<Seq<char>> {
    seq![m.name@] + enums_strings(m.enums) + structs_strings(m.structs) + struct_strings(m.root)
}

/// The byte encoding of a string table: the count, then each string's
/// UTF-8 length and bytes.
pub open spec fn encode_table(t: Seq<Seq<char>>) -> Seq<u8> {
    u32_le(t.len() as u32) + table_entries(t)
}

pub open spec fn table_entry(s: Seq<char>) -> Seq<u8> {
    u16_le(vstd::utf8::encode_utf8(s).len() as u16) + vstd::utf8::encode_utf8(s)
}

pub open spec fn table_entries(t: Seq<Seq<char>>) -> Seq<u8>
    decreases t.len(),
{
    if t.len() == 0 { Seq::empty() } else { table_entries(t.drop_last()) + table_entry(t.last()) }
}

// ---------------------------------------------------------------------
// Encoding.
// ---------------------------------------------------------------------

pub open spec fn type_code(dt: DataType) -> u8 {
    match dt {
        DataType::U8 => TYPE_U8,
        DataType::U16 => TYPE_U16,
        DataType::U32 => TYPE_U32,
        DataType::U64 => TYPE_U64,
        DataType::I8 => TYPE_I8,
        DataType::I16 => TYPE_I16,
        DataType::I32 => TYPE_I32,
        DataType::I64 => TYPE_I64,
        DataType::F32 => TYPE_F32,
        DataType::F64 => TYPE_F64,
        DataType::Bytes { .. } => TYPE_BYTES,
        DataType::String { .. } => TYPE_STRING,
        DataType::BitField { .. } => TYPE_BIT_FIELD,
        DataType::Struct { .. } => TYPE_STRUCT,
        DataType::Array { .. } => TYPE_ARRAY,
        DataType::Enum { .. } => TYPE_ENUM,
    }
}

/// The code of an enum's underlying type; only the unsigned integers have one.
pub open spec fn underlying_code(dt: DataType) -> Option<u8> {
    match dt {
        DataType::U8 => Some(UNDERLYING_U8),
        DataType::U16 => Some(UNDERLYING_U16),
        DataType::U32 => Some(UNDERLYING_U32),
        DataType::U64 => Some(UNDERLYING_U64),
        _ => None,
    }
}

pub open spec fn endian_code(e: Endian) -> u8 {
    match e {
        Endian::Little => ENDIAN_LITTLE,
        Endian::Big => ENDIAN_BIG,
    }
}

pub open spec fn format_code(f: DisplayFormat) -> u8 {
    match f {
        DisplayFormat::Hex => FMT_HEX,
        DisplayFormat::Dec => FMT_DEC,
        DisplayFormat::Bin => FMT_BIN,
        DisplayFormat::Ascii => FMT_ASCII,
        DisplayFormat::Utf8 => FMT_UTF8,
    }
}

/// The code of a checksum algorithm, whose name is compared with ASCII capitals made small.
pub open spec fn algorithm_code(name: Seq<char>) -> Option<u8> {
    let l = ascii_lower_seq(name);
    if l == "crc32"@ { Some(0) } else if l == "crc16"@ { Some(1) } else if l == "adler32"@ { Some(2) } else { None }
}

/// The encoding of a data type written at byte `pos`.
pub open spec fn encode_data_type(dt: DataType, t: Seq<Seq<char>>, pos: nat) -> Result<Seq<u8>, BfmtError>
    decreases dt,
{
    let c = seq![type_code(dt)];
    match dt {
        DataType::Bytes { length } => Ok(c + u32_le(index_or(t, length@, INVALID_INDEX))),
        DataType::String { length, .. } => Ok(c + u32_le(index_or(t, length@, INVALID_INDEX))),
        DataType::BitField { bit_start, bit_length } => Ok(c + seq![bit_start, bit_length]),
        DataType::Struct { name } => Ok(c + u32_le(index_or(t, name@, INVALID_INDEX))),
        DataType::Array { element_type, length } => match encode_data_type(*element_type, t, pos + 1) {
            Ok(e) => Ok(c + e + u32_le(index_or(t, length@, INVALID_INDEX))),
            Err(x) => Err(x),
        },
        DataType::Enum { name, underlying } => match underlying_code(*underlying) {
            Some(u) => Ok(c + u32_le(index_or(t, name@, INVALID_INDEX)) + seq![u]),
            None => Err(BfmtError::InvalidUnderlyingType { offset: (pos + 5) as usize, code: 0 }),
        },
        _ => Ok(c),
    }
}

pub open spec fn offset_index(t: Seq<Seq<char>>, o: Option<String>) -> u32 {
    match o {
        Some(s) => if s@ == "relative"@ { INVALID_INDEX } else { index_or(t, s@, INVALID_INDEX) },
        None => INVALID_INDEX,
    }
}

pub open spec fn condition_index(t: Seq<Seq<char>>, c: Option<Condition>) -> u32 {
    match c {
        Some(x) => index_or(t, x.expression@, INVALID_INDEX),
        None => INVALID_INDEX,
    }
}

pub open spec fn encode_checksum(t: Seq<Seq<char>>, c: Option<ChecksumField>) -> Result<Seq<u8>, BfmtError> {
    match c {
        Some(cs) => match algorithm_code(cs.algorithm@) {
            Some(a) => Ok(seq![a] + u32_le(index_or(t, cs.start@, 0)) + u32_le(index_or(t, cs.end@, 0))),
            None => Err(BfmtError::InvalidChecksumAlgorithm { offset: 0, code: 0 }),
        },
        None => Ok(seq![CHECKSUM_NONE, 0u8, 0u8, 0u8, 0u8, 0u8, 0u8, 0u8, 0u8]),
    }
}

/// The encoding of a field written at byte `pos`.
pub open spec fn encode_field(f: Field, t: Seq<Seq<char>>, pos: nat) -> Result<Seq<u8>, BfmtError> {
    match encode_data_type(f.data_type, t, pos + 4) {
        Ok(d) => match encode_checksum(t, f.checksum) {
            Ok(c) => Ok(u32_le(index_or(t, f.name@, 0)) + d + seq![endian_code(f.endian), format_code(f.display_format)]
                + u32_le(offset_index(t, f.offset)) + u32_le(condition_index(t, f.condition)) + c),
            Err(x) => Err(x),
        },
        Err(x) => Err(x),
    }
}

/// The encoding of a run of fields written at byte `pos`.
pub open spec fn encode_fields(fs: Seq<Field>, t: Seq<Seq<char>>, pos: nat) -> Result<Seq<u8>, BfmtError>
    decreases fs.len(),
{
    if fs.len() == 0 {
        Ok(Seq::empty())
    } else {
        match encode_fields(fs.drop_last(), t, pos) {
            Ok(a) => match encode_field(fs.last(), t, pos + a.len()) {
                Ok(b) => Ok(a + b),
                Err(x) => Err(x),
            },
            Err(x) => Err(x),
        }
    }
}

pub open spec fn encode_struct(s: StructModel, t: Seq<Seq<char>>, pos: nat) -> Result<Seq<u8>, BfmtError> {
    match encode_fields(s.fields, t, pos + 6) {
        Ok(f) => Ok(u32_le(index_or(t, s.name@, 0)) + u16_le(s.fields.len() as u16) + f),
        Err(x) => Err(x),
    }
}

pub open spec fn encode_structs(ss: Seq<StructModel>, t: Seq<Seq<char>>, pos: nat) -> Result<Seq<u8>, BfmtError>
    decreases ss.len(),
{
    if ss.len() == 0 {
        Ok(Seq::empty())
    } else {
        match encode_structs(ss.drop_last(), t, pos) {
            Ok(a) => match encode_struct(ss.last(), t, pos + a.len()) {
                Ok(b) => Ok(a + b),
                Err(x) => Err(x),
            },
            Err(x) => Err(x),
        }
    }
}

pub open spec fn encode_values(vs: Seq<(String, i64)>, t: Seq<Seq<char>>) -> Seq<u8>
    decreases vs.len(),
{
    if vs.len() == 0 {
        Seq::empty()
    } else {
        encode_values(vs.drop_last(), t) + u32_le(index_or(t, vs.last().0@, 0)) + u64_le(vs.last().1 as u64)
    }
}

pub open spec fn encode_enum(e: EnumModel, t: Seq<Seq<char>>, code: u8) -> Seq<u8> {
    u32_le(index_or(t, e.name@, 0)) + seq![code] + u16_le(e.values.len() as u16) + encode_values(e.values, t)
}

/// The underlying code that the last enum-typed field naming `name` gives, in
/// the fields of `fs`; `current` where none gives one.
pub open spec fn underlying_in_fields(fs: Seq<Field>, name: Seq<char>, current: u8) -> u8
    decreases fs.len(),
{
    if fs.len() == 0 {
        current
    } else {
        let before = underlying_in_fields(fs.drop_last(), name, current);
        let dt = fs.last().data_type;
        let after_direct = match dt {
            DataType::Enum { name: n, underlying } => if n@ == name {
                match underlying_code(*underlying) { Some(c) => c, None => before }
            } else { before },
            _ => before,
        };
        match dt {
            DataType::Array { element_type, .. } => match *element_type {
                DataType::Enum { name: n, underlying } => if n@ == name {
                    match underlying_code(*underlying) { Some(c) => c, None => after_direct }
                } else { after_direct },
                _ => after_direct,
            },
            _ => after_direct,
        }
    }
}

pub open spec fn underlying_in_structs(ss: Seq<StructModel>, name: Seq<char>, current: u8) -> u8
    decreases ss.len(),
{
    if ss.len() == 0 {
        current
    } else {
        underlying_in_fields(ss.last().fields, name, underlying_in_structs(ss.drop_last(), name, current))
    }
}

/// The underlying code recorded for the enum `name`: that of the last field of
/// the structs (then the root) that uses it with an unsigned type; 32-bit otherwise.
pub open spec fn inferred_underlying(m: FormatModel, name: Seq<char>) -> u8 {
    underlying_in_structs(m.structs.push(m.root), name, UNDERLYING_U32)
}

pub open spec fn encode_enums(m: FormatModel, es: Seq<EnumModel>, t: Seq<Seq<char>>) -> Seq<u8>
    decreases es.len(),
{
    if es.len() == 0 {
        Seq::empty()
    } else {
        encode_enums(m, es.drop_last(), t) + encode_enum(es.last(), t, inferred_underlying(m, es.last().name@))
    }
}

pub open spec fn count_all_fields(ss: Seq<StructModel>) -> nat
    decreases ss.len(),
{
    if ss.len() == 0 { 0 } else { count_all_fields(ss.drop_last()) + ss.last().fields.len() }
}

pub open spec fn zeros(n: nat) -> Seq<u8> {
    Seq::new(n, |i: int| 0u8)
}

pub open spec fn encode_magic(magic: Option<Seq<u8>>) -> Seq<u8> {
    match magic {
        Some(mb) => seq![mb.len() as u8] + mb,
        None => seq![0u8],
    }
}

/// The header: magic, version, flags, struct count, enum count.
pub open spec fn magic_bytes() -> Seq<u8> {
    seq![0x42u8, 0x46u8, 0x4Du8, 0x54u8]
}

pub open spec fn encode_header(m: FormatModel, debug: bool) -> Seq<u8> {
    magic_bytes() + u16_le(VERSION) + u16_le(if debug { FLAG_DEBUG } else { 0 })
        + u32_le((m.structs.len() as u32 + 1) as u32) + u32_le(m.enums.len() as u32)
}

/// The whole compiled form of a definition, or the first error met.
pub open spec fn compile_spec(m: FormatModel, debug: bool) -> Result<Seq<u8>, BfmtError> {
    let t = table_of(def_strings(m));
    let pre = encode_header(m, debug) + encode_table(t) + encode_enums(m, m.enums, t);
    match encode_structs(m.structs, t, pre.len()) {
        Ok(sb) => match encode_struct(m.root, t, pre.len() + sb.len()) {
            Ok(rb) => Ok(pre + sb + rb + u32_le(index_or(t, m.root.name@, 0)) + u32_le(index_or(t, m.name@, 0))
                + encode_magic(m.magic) + (if debug { zeros(4 * count_all_fields(m.structs.push(m.root))) } else { Seq::empty() })),
            Err(x) => Err(x),
        },
        Err(x) => Err(x),
    }
}

/// Compiling with debug information differs from compiling without it only in
/// the flag word (bytes 6 and 7: 1 with it, 0 without) and in four zero bytes
/// per field appended at the end; the two compiles fail alike.
#[verifier::rlimit(60)]
pub proof fn lemma_debug_flag(m: FormatModel)
    ensures
        compile_spec(m, true) is Ok <==> compile_spec(m, false) is Ok,
        compile_spec(m, true) matches Err(e) ==> compile_spec(m, false) == Err::<Seq<u8>, BfmtError>(e),
        compile_spec(m, true) matches Ok(b1) ==> (compile_spec(m, false) matches Ok(b2) && {
            &&& b1.len() == b2.len() + 4 * count_all_fields(m.structs.push(m.root))
            &&& b2.len() >= 8
            &&& b1.subrange(0, 6) == b2.subrange(0, 6)
            &&& b1[6] == 1 && b1[7] == 0 && b2[6] == 0 && b2[7] == 0
            &&& b1.subrange(8, b2.len() as int) == b2.subrange(8, b2.len() as int)
            &&& forall|i: int| b2.len() <= i < b1.len() ==> b1[i] == 0
        }),
{
    let t = table_of(def_strings(m));
    let rest = u32_le((m.structs.len() as u32 + 1) as u32) + u32_le(m.enums.len() as u32);
    let h1 = encode_header(m, true);
    let h2 = encode_header(m, false);
    assert(h1 == magic_bytes() + u16_le(VERSION) + u16_le(FLAG_DEBUG) + rest);
    assert(h2 == magic_bytes() + u16_le(VERSION) + u16_le(0) + rest);
    assert(h1.len() == h2.len());
    let tail = encode_table(t) + encode_enums(m, m.enums, t);
    let p1 = h1 + tail;
    let p2 = h2 + tail;
    assert(p1.len() == p2.len());
    if let Ok(b1) = compile_spec(m, true) {
        let sb = encode_structs(m.structs, t, p1.len()).unwrap();
        let rb = encode_struct(m.root, t, p1.len() + sb.len()).unwrap();
        let mid = sb + rb + u32_le(index_or(t, m.root.name@, 0)) + u32_le(index_or(t, m.name@, 0)) + encode_magic(m.magic);
        let z = zeros(4 * count_all_fields(m.structs.push(m.root)));
        assert(b1 == p1 + mid + z);
        let b2 = compile_spec(m, false).unwrap();
        assert(b2 == p2 + mid + Seq::<u8>::empty());
        assert(b1.subrange(0, 6) =~= b2.subrange(0, 6));
        assert(b1.subrange(8, b2.len() as int) =~= b2.subrange(8, b2.len() as int));
    }
}

} // verus!

verus! {

/// The distinct strings of a compiled definition, in insertion order.
pub(crate) struct StringTable {
    strings: Vec<String>,
}

impl View for StringTable {
    type V = Seq<Seq<char>>;

    closed spec fn view(&self) -> Seq<Seq<char>> {
        self.strings@.map_values(|s: String| s@)
    }
}

impl StringTable {
    pub(crate) fn new() -> (r: StringTable)
        ensures
            r@ == Seq::<Seq<char>>::empty(),
    {
        let r = StringTable { strings: Vec::new() };
        assert(r@ =~= Seq::<Seq<char>>::empty());
        r
    }

    pub(crate) fn len(&self) -> (r: usize)
        ensures
            r == self@.len(),
    {
        self.strings.len()
    }

    /// The index of `s`, or `default` where it is absent.
    pub(crate) fn index_of(&self, s: &str, default: u32) -> (r: u32)
        ensures
            r == index_or(self@, s@, default),
    {
        let mut i: usize = 0;
        while i < self.strings.len()
            invariant
                i <= self.strings@.len(),
                forall|j: int| 0 <= j < i ==> self@[j] != s@,
            decreases self.strings@.len() - i,
        {
            if str_eq(self.strings[i].as_str(), s) {
                proof {
                    self@.index_of_first_ensures(s@);
                    assert(self@[i as int] == s@);
                }
                return i as u32;
            }
            i = i + 1;
        }
        proof { self@.index_of_first_ensures(s@); }
        default
    }

    /// Adds `s` unless it is there already; returns its index: the old one,
    /// or the table's old length where it was added.
    pub(crate) fn insert(&mut self, s: &str) -> (r: usize)
        ensures
            final(self)@ == table_insert(old(self)@, s@),
            (r as int) < final(self)@.len(),
            final(self)@[r as int] == s@,
            forall|j: int| 0 <= j < r ==> final(self)@[j] != s@,
            !old(self)@.contains(s@) ==> r == old(self)@.len(),
            old(self)@.no_duplicates() ==> final(self)@.no_duplicates(),
    {
        let mut k: usize = 0;
        while k < self.strings.len()
            invariant
                k <= self.strings@.len(),
                self@ == old(self)@,
                forall|j: int| 0 <= j < k ==> self@[j] != s@,
            decreases self.strings@.len() - k,
        {
            if str_eq(self.strings[k].as_str(), s) {
                assert(self@[k as int] == s@);
                return k;
            }
            k = k + 1;
        }
        let idx = self.strings.len();
        self.strings.push(owned(s));
        assert(self@ =~= old(self)@.push(s@));
        idx
    }

    /// The string at `index`; `offset` is where the index was read.
    pub(crate) fn get(&self, index: u32, offset: usize) -> (r: Result<&String, BfmtError>)
        ensures
            (index as int) < self@.len() ==> (r matches Ok(s) && s@ == self@[index as int]),
            (index as int) >= self@.len() ==> r == Err::<&String, BfmtError>(BfmtError::InvalidStringIndex {
                offset, index, table_size: self@.len() as usize }),
    {
        if (index as usize) < self.strings.len() {
            Ok(&self.strings[index as usize])
        } else {
            Err(BfmtError::InvalidStringIndex { offset, index, table_size: self.strings.len() })
        }
    }

    /// Appends the table's encoding.
    pub(crate) fn encode(&self, out: &mut Vec<u8>)
        ensures
            final(out)@ == old(out)@ + encode_table(self@),
    {
        put_u32(out, self.strings.len() as u32);
        let mut i: usize = 0;
        while i < self.strings.len()
            invariant
                i <= self.strings@.len(),
                out@ == old(out)@ + u32_le(self@.len() as u32) + table_entries(self@.take(i as int)),
            decreases self.strings@.len() - i,
        {
            let b = self.strings[i].as_str().as_bytes();
            put_u16(out, b.len() as u16);
            put_bytes(out, b);
            proof {
                assert(self@.take(i + 1).drop_last() =~= self@.take(i as int));
                assert(self@[i as int] == self.strings@[i as int]@);
            }
            assert(out@ =~= old(out)@ + u32_le(self@.len() as u32) + table_entries(self@.take(i + 1)));
            i = i + 1;
        }
        assert(self@.take(self@.len() as int) =~= self@);
    }
}

} // verus!

verus! {

/// Inserting `items` in order into the table `t`.
pub open spec fn insert_all(t: Seq<Seq<char>>, items: Seq<Seq<char>>) -> Seq<Seq<char>>
    decreases items.len(),
{
    if items.len() == 0 {
        t
    } else {
        table_insert(insert_all(t, items.drop_last()), items.last())
    }
}

pub proof fn lemma_insert_all_concat(t: Seq<Seq<char>>, a: Seq<Seq<char>>, b: Seq<Seq<char>>)
    ensures
        insert_all(t, a + b) == insert_all(insert_all(t, a), b),
    decreases b.len(),
{
    if b.len() == 0 {
        assert(a + b =~= a);
    } else {
        assert((a + b).drop_last() =~= a + b.drop_last());
        lemma_insert_all_concat(t, a, b.drop_last());
    }
}

pub proof fn lemma_table_of_is_insert_all(items: Seq<Seq<char>>)
    ensures
        table_of(items) == insert_all(Seq::empty(), items),
    decreases items.len(),
{
    if items.len() > 0 {
        lemma_table_of_is_insert_all(items.drop_last());
    }
}

/// Inserting one string is inserting a one-string sequence.
proof fn lemma_insert_one(t: Seq<Seq<char>>, s: Seq<char>)
    ensures
        insert_all(t, seq![s]) == table_insert(t, s),
{
    assert(seq![s].drop_last() =~= Seq::<Seq<char>>::empty());
    assert(insert_all(t, Seq::<Seq<char>>::empty()) == t);
    assert(seq![s].last() == s);
}

fn collect_strings_from_data_type(dt: &DataType, table: &mut StringTable)
    ensures
        final(table)@ == insert_all(old(table)@, data_type_strings(*dt)),
    decreases dt,
{
    match dt {
        DataType::Bytes { length } => {
            table.insert(length.as_str());
            proof { lemma_insert_one(old(table)@, length@); }
        },
        DataType::String { length, .. } => {
            table.insert(length.as_str());
            proof { lemma_insert_one(old(table)@, length@); }
        },
        DataType::Struct { name } => {
            table.insert(name.as_str());
            proof { lemma_insert_one(old(table)@, name@); }
        },
        DataType::Array { element_type, length } => {
            collect_strings_from_data_type(element_type, table);
            let ghost mid = table@;
            table.insert(length.as_str());
            proof {
                lemma_insert_one(mid, length@);
                lemma_insert_all_concat(old(table)@, data_type_strings(**element_type), seq![length@]);
                assert(data_type_strings(**element_type).push(length@) =~= data_type_strings(**element_type) + seq![length@]);
            }
        },
        DataType::Enum { name, .. } => {
            table.insert(name.as_str());
            proof { lemma_insert_one(old(table)@, name@); }
        },
        _ => {},
    }
}

fn collect_strings_from_field(field: &Field, table: &mut StringTable)
    ensures
        final(table)@ == insert_all(old(table)@, field_strings(*field)),
{
    let ghost t0 = table@;
    table.insert(field.name.as_str());
    proof { lemma_insert_one(t0, field.name@); }
    let ghost t1 = table@;
    let ghost off = offset_strings(field.offset);
    if let Some(offset) = &field.offset {
        if !str_eq(offset.as_str(), "relative") {
            table.insert(offset.as_str());
            proof { lemma_insert_one(t1, offset@); }
        }
    }
    let ghost t2 = table@;
    assert(t2 == insert_all(t1, off));
    collect_strings_from_data_type(&field.data_type, table);
    let ghost t3 = table@;
    let ghost cond = condition_strings(field.condition);
    if let Some(cond) = &field.condition {
        table.insert(cond.expression.as_str());
        proof { lemma_insert_one(t3, cond.expression@); }
    }
    let ghost t4 = table@;
    assert(t4 == insert_all(t3, cond));
    let ghost cs = checksum_strings(field.checksum);
    if let Some(c) = &field.checksum {
        table.insert(c.start.as_str());
        let ghost t5 = table@;
        table.insert(c.end.as_str());
        proof {
            lemma_insert_one(t4, c.start@);
            lemma_insert_one(t5, c.end@);
            lemma_insert_all_concat(t4, seq![c.start@], seq![c.end@]);
            assert(seq![c.start@] + seq![c.end@] =~= cs);
        }
    }
    proof {
        let n = seq![field.name@];
        let dts = data_type_strings(field.data_type);
        lemma_insert_all_concat(t0, n, off);
        lemma_insert_all_concat(t0, n + off, dts);
        lemma_insert_all_concat(t0, n + off + dts, cond);
        lemma_insert_all_concat(t0, n + off + dts + cond, cs);
    }
}

fn collect_strings_from_struct(s: &StructDefinition, table: &mut StringTable)
    ensures
        final(table)@ == insert_all(old(table)@, struct_strings(s@)),
{
    let ghost t0 = table@;
    table.insert(s.name.as_str());
    proof { lemma_insert_one(t0, s.name@); }
    let mut i: usize = 0;
    while i < s.fields.len()
        invariant
            i <= s.fields@.len(),
            table@ == insert_all(t0, seq![s.name@] + fields_strings(s.fields@.take(i as int))),
        decreases s.fields@.len() - i,
    {
        let ghost before = table@;
        collect_strings_from_field(&s.fields[i], table);
        proof {
            let fs = s.fields@.take(i + 1);
            assert(fs.drop_last() =~= s.fields@.take(i as int));
            lemma_insert_all_concat(t0, seq![s.name@] + fields_strings(s.fields@.take(i as int)), field_strings(s.fields@[i as int]));
            assert(seq![s.name@] + fields_strings(fs) =~= seq![s.name@] + fields_strings(s.fields@.take(i as int)) + field_strings(s.fields@[i as int]));
        }
        i = i + 1;
    }
    assert(s.fields@.take(s.fields@.len() as int) =~= s.fields@);
}

fn collect_strings_from_enum(e: &EnumDefinition, table: &mut StringTable)
    ensures
        final(table)@ == insert_all(old(table)@, enum_strings(e@)),
{
    let ghost t0 = table@;
    table.insert(e.name.as_str());
    proof { lemma_insert_one(t0, e.name@); }
    let ghost names = e.values@.map_values(|p: (String, i64)| p.0@);
    let mut i: usize = 0;
    while i < e.values.len()
        invariant
            i <= e.values@.len(),
            names == e.values@.map_values(|p: (String, i64)| p.0@),
            table@ == insert_all(t0, seq![e.name@] + names.take(i as int)),
        decreases e.values@.len() - i,
    {
        let ghost before = table@;
        table.insert(e.values[i].0.as_str());
        proof {
            lemma_insert_one(before, e.values@[i as int].0@);
            lemma_insert_all_concat(t0, seq![e.name@] + names.take(i as int), seq![names[i as int]]);
            assert(seq![e.name@] + names.take(i + 1) =~= seq![e.name@] + names.take(i as int) + seq![names[i as int]]);
        }
        i = i + 1;
    }
    assert(names.take(e.values@.len() as int) =~= names);
}

fn build_string_table(def: &FormatDefinition) -> (r: StringTable)
    ensures
        r@ == table_of(def_strings(def@)),
{
    let mut table = StringTable::new();
    table.insert(def.name.as_str());
    proof { lemma_insert_one(Seq::empty(), def.name@); }
    let ghost head = seq![def.name@];
    let mut i: usize = 0;
    while i < def.enums.len()
        invariant
            i <= def.enums@.len(),
            table@ == insert_all(Seq::empty(), head + enums_strings(def@.enums.take(i as int))),
        decreases def.enums@.len() - i,
    {
        collect_strings_from_enum(&def.enums[i], &mut table);
        proof {
            let es = def@.enums.take(i + 1);
            assert(es.drop_last() =~= def@.enums.take(i as int));
            assert(es.last() == def.enums@[i as int]@);
            lemma_insert_all_concat(Seq::empty(), head + enums_strings(def@.enums.take(i as int)), enum_strings(def.enums@[i as int]@));
            assert(head + enums_strings(es) =~= head + enums_strings(def@.enums.take(i as int)) + enum_strings(def.enums@[i as int]@));
        }
        i = i + 1;
    }
    assert(def@.enums.take(def.enums@.len() as int) =~= def@.enums);
    let ghost head2 = head + enums_strings(def@.enums);
    let mut j: usize = 0;
    while j < def.structs.len()
        invariant
            j <= def.structs@.len(),
            table@ == insert_all(Seq::empty(), head2 + structs_strings(def@.structs.take(j as int))),
        decreases def.structs@.len() - j,
    {
        collect_strings_from_struct(&def.structs[j], &mut table);
        proof {
            let ss = def@.structs.take(j + 1);
            assert(ss.drop_last() =~= def@.structs.take(j as int));
            assert(ss.last() == def.structs@[j as int]@);
            lemma_insert_all_concat(Seq::empty(), head2 + structs_strings(def@.structs.take(j as int)), struct_strings(def.structs@[j as int]@));
            assert(head2 + structs_strings(ss) =~= head2 + structs_strings(def@.structs.take(j as int)) + struct_strings(def.structs@[j as int]@));
        }
        j = j + 1;
    }
    assert(def@.structs.take(def.structs@.len() as int) =~= def@.structs);
    collect_strings_from_struct(&def.root, &mut table);
    proof {
        lemma_insert_all_concat(Seq::empty(), head2 + structs_strings(def@.structs), struct_strings(def@.root));
        assert(def_strings(def@) =~= head2 + structs_strings(def@.structs) + struct_strings(def@.root));
        lemma_table_of_is_insert_all(def_strings(def@));
    }
    table
}

} // verus!

verus! {

/// `b` begins with `a`.
pub open spec fn extends(a: Seq<u8>, b: Seq<u8>) -> bool {
    b.len() >= a.len() && b.subrange(0, a.len() as int) == a
}

proof fn lemma_extends_trans(a: Seq<u8>, b: Seq<u8>, c: Seq<u8>)
    requires
        extends(a, b),
        extends(b, c),
    ensures
        extends(a, c),
{
    assert(c.subrange(0, a.len() as int) =~= c.subrange(0, b.len() as int).subrange(0, a.len() as int));
}

proof fn lemma_extends_append(a: Seq<u8>, x: Seq<u8>)
    ensures
        extends(a, a + x),
{
    assert((a + x).subrange(0, a.len() as int) =~= a);
}

fn data_type_to_code(dt: &DataType) -> (r: u8)
    ensures
        r == type_code(*dt),
{
    match dt {
        DataType::U8 => TYPE_U8,
        DataType::U16 => TYPE_U16,
        DataType::U32 => TYPE_U32,
        DataType::U64 => TYPE_U64,
        DataType::I8 => TYPE_I8,
        DataType::I16 => TYPE_I16,
        DataType::I32 => TYPE_I32,
        DataType::I64 => TYPE_I64,
        DataType::F32 => TYPE_F32,
        DataType::F64 => TYPE_F64,
        DataType::Bytes { .. } => TYPE_BYTES,
        DataType::String { .. } => TYPE_STRING,
        DataType::BitField { .. } => TYPE_BIT_FIELD,
        DataType::Struct { .. } => TYPE_STRUCT,
        DataType::Array { .. } => TYPE_ARRAY,
        DataType::Enum { .. } => TYPE_ENUM,
    }
}

fn underlying_type_to_code(dt: &DataType, offset: usize) -> (r: Result<u8, BfmtError>)
    ensures
        match underlying_code(*dt) {
            Some(c) => r == Ok::<u8, BfmtError>(c),
            None => r == Err::<u8, BfmtError>(BfmtError::InvalidUnderlyingType { offset, code: 0 }),
        },
{
    match dt {
        DataType::U8 => Ok(UNDERLYING_U8),
        DataType::U16 => Ok(UNDERLYING_U16),
        DataType::U32 => Ok(UNDERLYING_U32),
        DataType::U64 => Ok(UNDERLYING_U64),
        _ => Err(BfmtError::InvalidUnderlyingType { offset, code: 0 }),
    }
}

fn endian_to_code(e: Endian) -> (r: u8)
    ensures
        r == endian_code(e),
{
    match e {
        Endian::Little => ENDIAN_LITTLE,
        Endian::Big => ENDIAN_BIG,
    }
}

fn display_format_to_code(df: DisplayFormat) -> (r: u8)
    ensures
        r == format_code(df),
{
    match df {
        DisplayFormat::Hex => FMT_HEX,
        DisplayFormat::Dec => FMT_DEC,
        DisplayFormat::Bin => FMT_BIN,
        DisplayFormat::Ascii => FMT_ASCII,
        DisplayFormat::Utf8 => FMT_UTF8,
    }
}

fn checksum_algorithm_to_code(algo: &str) -> (r: Result<u8, BfmtError>)
    ensures
        match algorithm_code(algo@) {
            Some(c) => r == Ok::<u8, BfmtError>(c),
            None => r == Err::<u8, BfmtError>(BfmtError::InvalidChecksumAlgorithm { offset: 0, code: 0 }),
        },
{
    let l = to_ascii_lower(algo);
    let a = crate::text::chars_of("crc32");
    let b = crate::text::chars_of("crc16");
    let c = crate::text::chars_of("adler32");
    if chars_eq(l.as_slice(), a.as_slice()) {
        Ok(0)
    } else if chars_eq(l.as_slice(), b.as_slice()) {
        Ok(1)
    } else if chars_eq(l.as_slice(), c.as_slice()) {
        Ok(2)
    } else {
        Err(BfmtError::InvalidChecksumAlgorithm { offset: 0, code: 0 })
    }
}

fn encode_data_type_exec(dt: &DataType, table: &StringTable, out: &mut Vec<u8>, start: usize) -> (r: Result<(), BfmtError>)
    requires
        start <= old(out)@.len(),
    ensures
        extends(old(out)@, final(out)@),
        match encode_data_type(*dt, table@, (old(out)@.len() - start) as nat) {
            Ok(b) => r is Ok && final(out)@ == old(out)@ + b,
            Err(e) => r == Err::<(), BfmtError>(e),
        },
    decreases dt,
{
    let ghost o = out@;
    let code = data_type_to_code(dt);
    out.push(code);
    match dt {
        DataType::Bytes { length } => {
            put_u32(out, table.index_of(length.as_str(), INVALID_INDEX));
        },
        DataType::String { length, .. } => {
            put_u32(out, table.index_of(length.as_str(), INVALID_INDEX));
        },
        DataType::BitField { bit_start, bit_length } => {
            out.push(*bit_start);
            out.push(*bit_length);
        },
        DataType::Struct { name } => {
            put_u32(out, table.index_of(name.as_str(), INVALID_INDEX));
        },
        DataType::Array { element_type, length } => {
            let ghost o1 = out@;
            match encode_data_type_exec(element_type, table, out, start) {
                Ok(()) => {},
                Err(e) => {
                    proof {
                        lemma_extends_append(o, seq![code]);
                        assert(o1 =~= o + seq![code]);
                        lemma_extends_trans(o, o1, out@);
                    }
                    return Err(e);
                },
            }
            put_u32(out, table.index_of(length.as_str(), INVALID_INDEX));
        },
        DataType::Enum { name, underlying } => {
            put_u32(out, table.index_of(name.as_str(), INVALID_INDEX));
            let pos = out.len() - start;
            match underlying_type_to_code(underlying, pos) {
                Ok(u) => out.push(u),
                Err(e) => {
                    proof { lemma_extends_append(o, out@.subrange(o.len() as int, out@.len() as int)); assert(o + out@.subrange(o.len() as int, out@.len() as int) =~= out@); }
                    return Err(e);
                },
            }
        },
        _ => {},
    }
    proof {
        lemma_extends_append(o, out@.subrange(o.len() as int, out@.len() as int));
        assert(o + out@.subrange(o.len() as int, out@.len() as int) =~= out@);
    }
    assert(out@ =~= o + out@.subrange(o.len() as int, out@.len() as int));
    Ok(())
}

} // verus!

verus! {

/// Endian code, display code, offset index, condition index.
fn field_middle(field: &Field, table: &StringTable) -> (r: Vec<u8>)
    ensures
        r@ == seq![endian_code(field.endian), format_code(field.display_format)]
            + u32_le(offset_index(table@, field.offset)) + u32_le(condition_index(table@, field.condition)),
{
    let mut out: Vec<u8> = Vec::new();
    out.push(endian_to_code(field.endian));
    out.push(display_format_to_code(field.display_format));
    let offset_idx = match &field.offset {
        Some(o) => if str_eq(o.as_str(), "relative") { INVALID_INDEX } else { table.index_of(o.as_str(), INVALID_INDEX) },
        None => INVALID_INDEX,
    };
    put_u32(&mut out, offset_idx);
    let cond_idx = match &field.condition {
        Some(c) => table.index_of(c.expression.as_str(), INVALID_INDEX),
        None => INVALID_INDEX,
    };
    put_u32(&mut out, cond_idx);
    assert(out@ =~= seq![endian_code(field.endian), format_code(field.display_format)]
        + u32_le(offset_index(table@, field.offset)) + u32_le(condition_index(table@, field.condition)));
    out
}

/// The checksum part of a field.
fn checksum_part(c: &Option<ChecksumField>, table: &StringTable) -> (r: Result<Vec<u8>, BfmtError>)
    ensures
        match encode_checksum(table@, *c) {
            Ok(b) => r is Ok && r.unwrap()@ == b,
            Err(e) => r == Err::<Vec<u8>, BfmtError>(e),
        },
{
    let mut out: Vec<u8> = Vec::new();
    match c {
        Some(cs) => {
            let code = match checksum_algorithm_to_code(cs.algorithm.as_str()) {
                Ok(x) => x,
                Err(e) => return Err(e),
            };
            out.push(code);
            put_u32(&mut out, table.index_of(cs.start.as_str(), 0));
            put_u32(&mut out, table.index_of(cs.end.as_str(), 0));
            assert(out@ =~= seq![code] + u32_le(index_or(table@, cs.start@, 0)) + u32_le(index_or(table@, cs.end@, 0)));
        },
        None => {
            out.push(CHECKSUM_NONE);
            let mut k: usize = 0;
            while k < 8
                invariant
                    k <= 8,
                    out@ == seq![CHECKSUM_NONE] + zeros(k as nat),
                decreases 8 - k,
            {
                out.push(0u8);
                assert(zeros((k + 1) as nat) =~= zeros(k as nat).push(0u8));
                assert(out@ =~= seq![CHECKSUM_NONE] + zeros((k + 1) as nat));
                k = k + 1;
            }
            assert(seq![CHECKSUM_NONE, 0u8, 0u8, 0u8, 0u8, 0u8, 0u8, 0u8, 0u8] =~= seq![CHECKSUM_NONE] + zeros(8));
        },
    }
    Ok(out)
}

#[verifier::rlimit(30)]
fn encode_field_exec(field: &Field, table: &StringTable, out: &mut Vec<u8>, start: usize) -> (r: Result<(), BfmtError>)
    requires
        start <= old(out)@.len(),
    ensures
        extends(old(out)@, final(out)@),
        match encode_field(*field, table@, (old(out)@.len() - start) as nat) {
            Ok(b) => r is Ok && final(out)@ == old(out)@ + b,
            Err(e) => r == Err::<(), BfmtError>(e),
        },
{
    let ghost o = out@;
    let ghost pos = (o.len() - start) as nat;
    let name_idx = table.index_of(field.name.as_str(), 0);
    put_u32(out, name_idx);
    let ghost o1 = out@;
    proof { lemma_extends_append(o, u32_le(name_idx)); }
    match encode_data_type_exec(&field.data_type, table, out, start) {
        Ok(()) => {},
        Err(e) => {
            proof { lemma_extends_trans(o, o1, out@); }
            return Err(e);
        },
    }
    let ghost o2 = out@;
    let mid = field_middle(field, table);
    let tail = match checksum_part(&field.checksum, table) {
        Ok(t) => t,
        Err(e) => {
            proof { lemma_extends_trans(o, o1, out@); }
            return Err(e);
        },
    };
    put_bytes(out, mid.as_slice());
    put_bytes(out, tail.as_slice());
    proof {
        let d = encode_data_type(field.data_type, table@, pos + 4).unwrap();
        assert(o2 == o1 + d);
        assert(out@ =~= o + (u32_le(name_idx) + d + mid@ + tail@));
        lemma_extends_append(o, u32_le(name_idx) + d + mid@ + tail@);
    }
    Ok(())
}

proof fn lemma_fields_err_prefix(fs: Seq<Field>, t: Seq<Seq<char>>, pos: nat, k: int)
    requires
        1 <= k <= fs.len(),
        encode_fields(fs.take(k), t, pos) is Err,
    ensures
        encode_fields(fs, t, pos) == encode_fields(fs.take(k), t, pos),
    decreases fs.len() - k,
{
    if k == fs.len() {
        assert(fs.take(k) =~= fs);
    } else {
        assert(fs.take(k + 1).drop_last() =~= fs.take(k));
        lemma_fields_err_prefix(fs, t, pos, k + 1);
    }
}

proof fn lemma_fields_step(fs: Seq<Field>, t: Seq<Seq<char>>, pos: nat, i: int, acc: Seq<u8>)
    requires
        0 <= i < fs.len(),
        encode_fields(fs.take(i), t, pos) == Ok::<Seq<u8>, BfmtError>(acc),
    ensures
        encode_fields(fs.take(i + 1), t, pos) == match encode_field(fs[i], t, pos + acc.len()) {
            Ok(b) => Ok::<Seq<u8>, BfmtError>(acc + b),
            Err(e) => Err(e),
        },
{
    assert(fs.take(i + 1).drop_last() =~= fs.take(i));
    assert(fs.take(i + 1).last() == fs[i]);
}

fn encode_struct_exec(s: &StructDefinition, table: &StringTable, out: &mut Vec<u8>, start: usize) -> (r: Result<(), BfmtError>)
    requires
        start <= old(out)@.len(),
    ensures
        extends(old(out)@, final(out)@),
        match encode_struct(s@, table@, (old(out)@.len() - start) as nat) {
            Ok(b) => r is Ok && final(out)@ == old(out)@ + b,
            Err(e) => r == Err::<(), BfmtError>(e),
        },
{
    let ghost o = out@;
    let ghost pos0 = (o.len() - start) as nat;
    let ghost t = table@;
    let ghost fs = s.fields@;
    let name_idx = table.index_of(s.name.as_str(), 0);
    put_u32(out, name_idx);
    put_u16(out, s.fields.len() as u16);
    let ghost head = u32_le(name_idx) + u16_le(s.fields@.len() as u16);
    assert(out@ =~= o + head);
    let ghost o1 = out@;
    let ghost mut acc: Seq<u8> = Seq::empty();
    assert(fs.take(0) =~= Seq::<Field>::empty());
    let mut i: usize = 0;
    while i < s.fields.len()
        invariant
            o == old(out)@,
            start <= o.len(),
            pos0 == o.len() - start,
            o1 == o + head,
            head == u32_le(index_or(t, s.name@, 0)) + u16_le(fs.len() as u16),
            head.len() == 6,
            fs == s.fields@,
            t == table@,
            i <= fs.len(),
            encode_fields(fs.take(i as int), t, pos0 + 6) == Ok::<Seq<u8>, BfmtError>(acc),
            out@ == o1 + acc,
        decreases fs.len() - i,
    {
        let ghost before = out@;
        proof { lemma_fields_step(fs, t, pos0 + 6, i as int, acc); }
        match encode_field_exec(&s.fields[i], table, out, start) {
            Ok(()) => {
                proof {
                    let b = encode_field(fs[i as int], t, pos0 + 6 + acc.len()).unwrap();
                    acc = acc + b;
                    assert(out@ =~= o1 + acc);
                }
            },
            Err(e) => {
                proof {
                    lemma_fields_err_prefix(fs, t, pos0 + 6, i as int + 1);
                    lemma_extends_append(o, head + acc);
                    assert(o + (head + acc) =~= before);
                    lemma_extends_trans(o, before, out@);
                }
                return Err(e);
            },
        }
        i = i + 1;
    }
    proof {
        assert(fs.take(fs.len() as int) =~= fs);
        lemma_extends_append(o, head + acc);
        assert(out@ =~= o + (head + acc));
    }
    Ok(())
}

} // verus!

verus! {

fn encode_enum_exec(e: &EnumDefinition, table: &StringTable, out: &mut Vec<u8>, code: u8)
    ensures
        final(out)@ == old(out)@ + encode_enum(e@, table@, code),
{
    let ghost o = out@;
    put_u32(out, table.index_of(e.name.as_str(), 0));
    out.push(code);
    put_u16(out, e.values.len() as u16);
    let ghost head = out@;
    let mut i: usize = 0;
    while i < e.values.len()
        invariant
            i <= e.values@.len(),
            out@ == head + encode_values(e.values@.take(i as int), table@),
        decreases e.values@.len() - i,
    {
        put_u32(out, table.index_of(e.values[i].0.as_str(), 0));
        put_u64(out, e.values[i].1 as u64);
        proof {
            let vs = e.values@.take(i + 1);
            assert(vs.drop_last() =~= e.values@.take(i as int));
            assert(vs.last() == e.values@[i as int]);
        }
        assert(out@ =~= head + encode_values(e.values@.take(i + 1), table@));
        i = i + 1;
    }
    assert(e.values@.take(e.values@.len() as int) =~= e.values@);
    assert(out@ =~= o + encode_enum(e@, table@, code));
}

fn underlying_in_fields_exec(fs: &Vec<Field>, name: &str, current: u8) -> (r: u8)
    ensures
        r == underlying_in_fields(fs@, name@, current),
{
    let mut u = current;
    let mut i: usize = 0;
    while i < fs.len()
        invariant
            i <= fs@.len(),
            u == underlying_in_fields(fs@.take(i as int), name@, current),
        decreases fs@.len() - i,
    {
        proof {
            assert(fs@.take(i + 1).drop_last() =~= fs@.take(i as int));
            assert(fs@.take(i + 1).last() == fs@[i as int]);
        }
        if let DataType::Enum { name: n, underlying } = &fs[i].data_type {
            if str_eq(n.as_str(), name) {
                if let Ok(c) = underlying_type_to_code(underlying, 0) {
                    u = c;
                }
            }
        }
        if let DataType::Array { element_type, .. } = &fs[i].data_type {
            if let DataType::Enum { name: n, underlying } = &**element_type {
                if str_eq(n.as_str(), name) {
                    if let Ok(c) = underlying_type_to_code(underlying, 0) {
                        u = c;
                    }
                }
            }
        }
        i = i + 1;
    }
    assert(fs@.take(fs@.len() as int) =~= fs@);
    u
}

fn infer_enum_underlying_type(def: &FormatDefinition, enum_name: &str) -> (r: u8)
    ensures
        r == inferred_underlying(def@, enum_name@),
{
    let ghost all = def@.structs.push(def@.root);
    let mut u = UNDERLYING_U32;
    let mut i: usize = 0;
    while i < def.structs.len()
        invariant
            i <= def.structs@.len(),
            all == def@.structs.push(def@.root),
            u == underlying_in_structs(all.take(i as int), enum_name@, UNDERLYING_U32),
        decreases def.structs@.len() - i,
    {
        proof {
            assert(all.take(i + 1).drop_last() =~= all.take(i as int));
            assert(all.take(i + 1).last() == def.structs@[i as int]@);
        }
        u = underlying_in_fields_exec(&def.structs[i].fields, enum_name, u);
        i = i + 1;
    }
    proof {
        let n = def.structs@.len() as int;
        assert(all.take(n + 1).drop_last() =~= all.take(n));
        assert(all.take(n + 1) =~= all);
    }
    underlying_in_fields_exec(&def.root.fields, enum_name, u)
}

} // verus!

verus! {

proof fn lemma_structs_step(ss: Seq<StructModel>, t: Seq<Seq<char>>, pos: nat, i: int, acc: Seq<u8>)
    requires
        0 <= i < ss.len(),
        encode_structs(ss.take(i), t, pos) == Ok::<Seq<u8>, BfmtError>(acc),
    ensures
        encode_structs(ss.take(i + 1), t, pos) == match encode_struct(ss[i], t, pos + acc.len()) {
            Ok(b) => Ok::<Seq<u8>, BfmtError>(acc + b),
            Err(e) => Err(e),
        },
{
    assert(ss.take(i + 1).drop_last() =~= ss.take(i));
    assert(ss.take(i + 1).last() == ss[i]);
}

proof fn lemma_structs_err_prefix(ss: Seq<StructModel>, t: Seq<Seq<char>>, pos: nat, k: int)
    requires
        1 <= k <= ss.len(),
        encode_structs(ss.take(k), t, pos) is Err,
    ensures
        encode_structs(ss, t, pos) == encode_structs(ss.take(k), t, pos),
    decreases ss.len() - k,
{
    if k == ss.len() {
        assert(ss.take(k) =~= ss);
    } else {
        assert(ss.take(k + 1).drop_last() =~= ss.take(k));
        lemma_structs_err_prefix(ss, t, pos, k + 1);
    }
}

/// Appends the header, string table and enums.
fn write_preamble(def: &FormatDefinition, table: &StringTable, out: &mut Vec<u8>, include_debug: bool)
    requires
        (def.structs@.len() as u32) < u32::MAX,
    ensures
        final(out)@ == old(out)@ + encode_header(def@, include_debug) + encode_table(table@)
            + encode_enums(def@, def@.enums, table@),
{
    let ghost o = out@;
    out.push(0x42u8);
    out.push(0x46u8);
    out.push(0x4Du8);
    out.push(0x54u8);
    put_u16(out, VERSION);
    let flags: u16 = if include_debug { FLAG_DEBUG } else { 0 };
    put_u16(out, flags);
    put_u32(out, (def.structs.len() as u32) + 1);
    put_u32(out, def.enums.len() as u32);
    assert(out@ =~= o + encode_header(def@, include_debug));
    table.encode(out);
    let ghost o2 = out@;
    let mut i: usize = 0;
    while i < def.enums.len()
        invariant
            i <= def.enums@.len(),
            out@ == o2 + encode_enums(def@, def@.enums.take(i as int), table@),
        decreases def.enums@.len() - i,
    {
        let code = infer_enum_underlying_type(def, def.enums[i].name.as_str());
        encode_enum_exec(&def.enums[i], table, out, code);
        proof {
            let es = def@.enums.take(i + 1);
            assert(es.drop_last() =~= def@.enums.take(i as int));
            assert(es.last() == def.enums@[i as int]@);
        }
        assert(out@ =~= o2 + encode_enums(def@, def@.enums.take(i + 1), table@));
        i = i + 1;
    }
    assert(def@.enums.take(def.enums@.len() as int) =~= def@.enums);
}

/// Appends the name indices, magic and, when asked for, the debug lines.
fn write_trailer(def: &FormatDefinition, table: &StringTable, out: &mut Vec<u8>, include_debug: bool)
    ensures
        final(out)@ == old(out)@ + u32_le(index_or(table@, def.root.name@, 0)) + u32_le(index_or(table@, def.name@, 0))
            + encode_magic(def@.magic)
            + (if include_debug { zeros(4 * count_all_fields(def@.structs.push(def@.root))) } else { Seq::empty() }),
{
    let ghost o = out@;
    put_u32(out, table.index_of(def.root.name.as_str(), 0));
    put_u32(out, table.index_of(def.name.as_str(), 0));
    match &def.magic {
        Some(magic) => {
            out.push(magic.len() as u8);
            put_bytes(out, magic.as_slice());
        },
        None => {
            out.push(0u8);
        },
    }
    let ghost o2 = out@;
    assert(o2 =~= o + u32_le(index_or(table@, def.root.name@, 0)) + u32_le(index_or(table@, def.name@, 0)) + encode_magic(def@.magic));
    if include_debug {
        let ghost ss = def@.structs;
        let mut i: usize = 0;
        while i < def.structs.len()
            invariant
                ss == def@.structs,
                i <= ss.len(),
                out@ == o2 + zeros(4 * count_all_fields(ss.take(i as int))),
            decreases ss.len() - i,
        {
            let ghost before = out@;
            write_zero_words(out, def.structs[i].fields.len());
            proof {
                assert(ss.take(i + 1).drop_last() =~= ss.take(i as int));
                assert(ss.take(i + 1).last() == def.structs@[i as int]@);
                assert(zeros(4 * count_all_fields(ss.take(i as int))) + zeros(4 * def.structs@[i as int].fields@.len())
                    =~= zeros(4 * count_all_fields(ss.take(i + 1))));
            }
            i = i + 1;
        }
        write_zero_words(out, def.root.fields.len());
        proof {
            assert(ss.take(ss.len() as int) =~= ss);
            assert(ss.push(def@.root).drop_last() =~= ss);
            assert(zeros(4 * count_all_fields(ss)) + zeros(4 * def.root.fields@.len())
                =~= zeros(4 * count_all_fields(ss.push(def@.root))));
        }
    } else {
        assert(out@ =~= o2 + Seq::<u8>::empty());
    }
}

/// Appends `n` zero words of four bytes each.
fn write_zero_words(out: &mut Vec<u8>, n: usize)
    ensures
        final(out)@ == old(out)@ + zeros(4 * n as nat),
{
    let ghost base = out@;
    let mut k: usize = 0;
    while k < n
        invariant
            k <= n,
            out@ == base + zeros(4 * k as nat),
        decreases n - k,
    {
        put_u32(out, 0);
        assert(u32_le(0) =~= zeros(4));
        assert(zeros(4 * k as nat) + zeros(4) =~= zeros(4 * (k + 1) as nat));
        k = k + 1;
    }
}

/// Appends every struct other than the root, stopping at the first error.
fn write_structs(def: &FormatDefinition, table: &StringTable, out: &mut Vec<u8>, start: usize) -> (r: Result<(), BfmtError>)
    requires
        start <= old(out)@.len(),
    ensures
        extends(old(out)@, final(out)@),
        match encode_structs(def@.structs, table@, (old(out)@.len() - start) as nat) {
            Ok(b) => r is Ok && final(out)@ == old(out)@ + b,
            Err(e) => r == Err::<(), BfmtError>(e),
        },
{
    let ghost o = out@;
    let ghost pos0 = (o.len() - start) as nat;
    let ghost t = table@;
    let ghost ss = def@.structs;
    let ghost mut acc: Seq<u8> = Seq::empty();
    assert(ss.take(0) =~= Seq::<StructModel>::empty());
    let mut i: usize = 0;
    while i < def.structs.len()
        invariant
            o == old(out)@,
            start <= o.len(),
            pos0 == o.len() - start,
            t == table@,
            ss == def@.structs,
            i <= ss.len(),
            encode_structs(ss.take(i as int), t, pos0) == Ok::<Seq<u8>, BfmtError>(acc),
            out@ == o + acc,
        decreases ss.len() - i,
    {
        let ghost before = out@;
        proof {
            lemma_structs_step(ss, t, pos0, i as int, acc);
            assert(def.structs@[i as int]@ == ss[i as int]);
        }
        match encode_struct_exec(&def.structs[i], table, out, start) {
            Ok(()) => {
                proof {
                    let b = encode_struct(ss[i as int], t, pos0 + acc.len()).unwrap();
                    acc = acc + b;
                    assert(out@ =~= o + acc);
                }
            },
            Err(e) => {
                proof {
                    lemma_structs_err_prefix(ss, t, pos0, i as int + 1);
                    lemma_extends_append(o, acc);
                    lemma_extends_trans(o, before, out@);
                }
                return Err(e);
            },
        }
        i = i + 1;
    }
    proof {
        assert(ss.take(ss.len() as int) =~= ss);
        lemma_extends_append(o, acc);
    }
    Ok(())
}

/// Compiles a definition into the binary definition format, appending to `writer`;
/// returns the number of bytes written.
#[verifier::rlimit(50)]
pub fn compile_to_bfmt(def: &FormatDefinition, writer: &mut Vec<u8>, include_debug: bool) -> (r: Result<usize, BfmtError>)
    requires
        (def.structs@.len() as u32) < u32::MAX,
    ensures
        extends(old(writer)@, final(writer)@),
        match compile_spec(def@, include_debug) {
            Ok(b) => r == Ok::<usize, BfmtError>(b.len() as usize) && final(writer)@ == old(writer)@ + b,
            Err(e) => r == Err::<usize, BfmtError>(e),
        },
{
    let ghost o = writer@;
    let start = writer.len();
    let table = build_string_table(def);
    let ghost t = table@;
    write_preamble(def, &table, writer, include_debug);
    let ghost pre = encode_header(def@, include_debug) + encode_table(t) + encode_enums(def@, def@.enums, t);
    assert(writer@ =~= o + pre);
    proof { lemma_extends_append(o, pre); }
    let ghost after_pre = writer@;
    match write_structs(def, &table, writer, start) {
        Ok(()) => {},
        Err(e) => {
            proof { lemma_extends_trans(o, after_pre, writer@); }
            return Err(e);
        },
    }
    let ghost sb = encode_structs(def@.structs, t, pre.len()).unwrap();
    let ghost before_root = writer@;
    assert(before_root =~= o + (pre + sb));
    proof { lemma_extends_append(o, pre + sb); }
    match encode_struct_exec(&def.root, &table, writer, start) {
        Ok(()) => {},
        Err(e) => {
            proof { lemma_extends_trans(o, before_root, writer@); }
            return Err(e);
        },
    }
    write_trailer(def, &table, writer, include_debug);
    let ghost all_bytes = compile_spec(def@, include_debug).unwrap();
    assert(writer@ =~= o + all_bytes);
    proof { lemma_extends_append(o, all_bytes); }
    Ok(writer.len() - start)
}

} // verus!
