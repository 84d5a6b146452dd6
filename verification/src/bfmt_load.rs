use vstd::prelude::*;
use crate::bytes::{le_u16, le_u32, le_u64, get_u16, get_u32, get_u64};
use crate::bfmt::{
    BfmtError, StringTable, table_insert, MAGIC, VERSION, INVALID_INDEX, CHECKSUM_NONE,
    TYPE_U8, TYPE_U16, TYPE_U32, TYPE_U64, TYPE_I8, TYPE_I16, TYPE_I32, TYPE_I64, TYPE_F32, TYPE_F64,
    TYPE_BYTES, TYPE_STRING, TYPE_BIT_FIELD, TYPE_STRUCT, TYPE_ARRAY, TYPE_ENUM,
};
use crate::dsl::{
    DataType, Endian, DisplayFormat, Field, Condition, ChecksumField, EnumDefinition,
    StructDefinition, FormatDefinition, TypeDesc, FieldDesc, StructDesc, EnumDesc, FormatDesc,
    type_desc, field_desc, struct_desc, enum_desc, format_desc, pairs_desc, fields_desc, structs_desc, enums_desc,
};
use crate::text::{owned, str_eq, string_from_utf8, utf8_error_parts};

verus! {

// ---------------------------------------------------------------------
// What a byte sequence decodes to.
// ---------------------------------------------------------------------

/// The error for `n` bytes wanted at `p` past the end of the input.
pub open spec fn eof(p: nat, n: nat) -> BfmtError {
    BfmtError::UnexpectedEof { offset: p as usize, needed: n as usize, available: 0 }
}

pub open spec fn rd_u8(d: Seq<u8>, p: nat) -> Result<u8, BfmtError> {
    if p + 1 <= d.len() { Ok(d[p as int]) } else { Err(eof(p, 1)) }
}

pub open spec fn rd_u16(d: Seq<u8>, p: nat) -> Result<u16, BfmtError> {
    if p + 2 <= d.len() { Ok(le_u16(d.subrange(p as int, (p + 2) as int))) } else { Err(eof(p, 2)) }
}

pub open spec fn rd_u32(d: Seq<u8>, p: nat) -> Result<u32, BfmtError> {
    if p + 4 <= d.len() { Ok(le_u32(d.subrange(p as int, (p + 4) as int))) } else { Err(eof(p, 4)) }
}

pub open spec fn rd_u64(d: Seq<u8>, p: nat) -> Result<u64, BfmtError> {
    if p + 8 <= d.len() { Ok(le_u64(d.subrange(p as int, (p + 8) as int))) } else { Err(eof(p, 8)) }
}

/// The table entry at `idx`; `off` is where the index was read.
pub open spec fn table_get(t: Seq<Seq<char>>, idx: u32, off: nat) -> Result<Seq<char>, BfmtError> {
    if (idx as int) < t.len() {
        Ok(t[idx as int])
    } else {
        Err(BfmtError::InvalidStringIndex { offset: off as usize, index: idx, table_size: t.len() as usize })
    }
}

/// A string named by the four-byte table index at `p`.
pub open spec fn rd_name(d: Seq<u8>, t: Seq<Seq<char>>, p: nat) -> Result<Seq<char>, BfmtError> {
    match rd_u32(d, p) {
        Ok(i) => table_get(t, i, p),
        Err(e) => Err(e),
    }
}

pub open spec fn underlying_of(code: u8) -> Option<TypeDesc> {
    if code == 0 { Some(TypeDesc::U8) }
    else if code == 1 { Some(TypeDesc::U16) }
    else if code == 2 { Some(TypeDesc::U32) }
    else if code == 3 { Some(TypeDesc::U64) }
    else { None }
}

pub open spec fn endian_of(code: u8) -> Option<Endian> {
    if code == 0 { Some(Endian::Little) } else if code == 1 { Some(Endian::Big) } else { None }
}

pub open spec fn format_of(code: u8) -> Option<DisplayFormat> {
    if code == 0 { Some(DisplayFormat::Hex) }
    else if code == 1 { Some(DisplayFormat::Dec) }
    else if code == 2 { Some(DisplayFormat::Bin) }
    else if code == 3 { Some(DisplayFormat::Ascii) }
    else if code == 4 { Some(DisplayFormat::Utf8) }
    else { None }
}

pub open spec fn algorithm_of(code: u8) -> Option<Seq<char>> {
    if code == 0 { Some("crc32"@) }
    else if code == 1 { Some("crc16"@) }
    else if code == 2 { Some("adler32"@) }
    else { None }
}

/// The type without payload that a code names.
pub open spec fn plain_type_of(code: u8) -> Option<TypeDesc> {
    if code == TYPE_U8 { Some(TypeDesc::U8) }
    else if code == TYPE_U16 { Some(TypeDesc::U16) }
    else if code == TYPE_U32 { Some(TypeDesc::U32) }
    else if code == TYPE_U64 { Some(TypeDesc::U64) }
    else if code == TYPE_I8 { Some(TypeDesc::I8) }
    else if code == TYPE_I16 { Some(TypeDesc::I16) }
    else if code == TYPE_I32 { Some(TypeDesc::I32) }
    else if code == TYPE_I64 { Some(TypeDesc::I64) }
    else if code == TYPE_F32 { Some(TypeDesc::F32) }
    else if code == TYPE_F64 { Some(TypeDesc::F64) }
    else { None }
}

/// A data type at `p`, and the position after it.
pub open spec fn dec_type(d: Seq<u8>, t: Seq<Seq<char>>, p: nat) -> Result<(TypeDesc, nat), BfmtError>
    decreases d.len() - p,
{
    if p + 1 > d.len() {
        Err(eof(p, 1))
    } else {
        let code = d[p as int];
        let q = p + 1;
        if plain_type_of(code) is Some {
            Ok((plain_type_of(code).unwrap(), q))
        } else if code == TYPE_BYTES {
            match rd_name(d, t, q) { Ok(s) => Ok((TypeDesc::Bytes(s), q + 4)), Err(e) => Err(e) }
        } else if code == TYPE_STRING {
            match rd_name(d, t, q) { Ok(s) => Ok((TypeDesc::Str(s, None), q + 4)), Err(e) => Err(e) }
        } else if code == TYPE_BIT_FIELD {
            if q + 2 <= d.len() {
                Ok((TypeDesc::BitField(d[q as int], d[(q + 1) as int]), q + 2))
            } else {
                Err(eof(q, 2))
            }
        } else if code == TYPE_STRUCT {
            match rd_name(d, t, q) { Ok(s) => Ok((TypeDesc::Struct(s), q + 4)), Err(e) => Err(e) }
        } else if code == TYPE_ARRAY {
            match dec_type(d, t, q) {
                Ok((el, r)) => match rd_name(d, t, r) {
                    Ok(len) => Ok((TypeDesc::Array(Box::new(el), len), r + 4)),
                    Err(e) => Err(e),
                },
                Err(e) => Err(e),
            }
        } else if code == TYPE_ENUM {
            match rd_name(d, t, q) {
                Ok(name) => match rd_u8(d, q + 4) {
                    Ok(u) => match underlying_of(u) {
                        Some(ut) => Ok((TypeDesc::Enum(name, Box::new(ut)), q + 5)),
                        None => Err(BfmtError::InvalidUnderlyingType { offset: (q + 4) as usize, code: u }),
                    },
                    Err(e) => Err(e),
                },
                Err(e) => Err(e),
            }
        } else {
            Err(BfmtError::InvalidDataType { offset: p as usize, code })
        }
    }
}

/// The offset text an offset index names: "relative" for the invalid index.
pub open spec fn offset_text(t: Seq<Seq<char>>, i: u32, off: nat) -> Result<Seq<char>, BfmtError> {
    if i == INVALID_INDEX { Ok("relative"@) } else { table_get(t, i, off) }
}

pub open spec fn condition_text(t: Seq<Seq<char>>, i: u32, off: nat) -> Result<Option<Seq<char>>, BfmtError> {
    if i == INVALID_INDEX {
        Ok(None)
    } else {
        match table_get(t, i, off) { Ok(c) => Ok(Some(c)), Err(e) => Err(e) }
    }
}

/// The checksum part of a field at `q`, which always takes nine bytes when it decodes.
pub open spec fn dec_checksum(d: Seq<u8>, t: Seq<Seq<char>>, q: nat)
    -> Result<Option<(Seq<char>, Seq<char>, Seq<char>)>, BfmtError>
{
    match rd_u8(d, q) {
        Err(e) => Err(e),
        Ok(a) => if a == CHECKSUM_NONE {
            if q + 9 <= d.len() { Ok(None) } else { Err(eof(q + 1, 8)) }
        } else {
            match algorithm_of(a) {
                None => Err(BfmtError::InvalidChecksumAlgorithm { offset: q as usize, code: a }),
                Some(an) => match rd_name(d, t, q + 1) {
                    Err(e) => Err(e),
                    Ok(st) => match rd_name(d, t, q + 5) {
                        Err(e) => Err(e),
                        Ok(en) => Ok(Some((an, st, en))),
                    },
                },
            }
        },
    }
}

/// The part of a field after its type, at `q`: endian, format, offset and condition.
pub open spec fn dec_field_tail(d: Seq<u8>, t: Seq<Seq<char>>, q: nat)
    -> Result<(Endian, DisplayFormat, Seq<char>, Option<Seq<char>>), BfmtError>
{
    match rd_u8(d, q) {
        Err(e) => Err(e),
        Ok(ec) => match endian_of(ec) {
            None => Err(BfmtError::InvalidEndian { offset: q as usize, code: ec }),
            Some(en) => match rd_u8(d, q + 1) {
                Err(e) => Err(e),
                Ok(fc) => match format_of(fc) {
                    None => Err(BfmtError::InvalidDisplayFormat { offset: (q + 1) as usize, code: fc }),
                    Some(fm) => match rd_u32(d, q + 2) {
                        Err(e) => Err(e),
                        Ok(oi) => match offset_text(t, oi, q + 2) {
                            Err(e) => Err(e),
                            Ok(off) => match rd_u32(d, q + 6) {
                                Err(e) => Err(e),
                                Ok(ci) => match condition_text(t, ci, q + 6) {
                                    Err(e) => Err(e),
                                    Ok(c) => Ok((en, fm, off, c)),
                                },
                            },
                        },
                    },
                },
            },
        },
    }
}

/// A field at `p`, and the position after it.
pub open spec fn dec_field(d: Seq<u8>, t: Seq<Seq<char>>, p: nat) -> Result<(FieldDesc, nat), BfmtError> {
    match rd_name(d, t, p) {
        Err(e) => Err(e),
        Ok(name) => match dec_type(d, t, p + 4) {
            Err(e) => Err(e),
            Ok((dt, q)) => match dec_field_tail(d, t, q) {
                Err(e) => Err(e),
                Ok((en, fm, off, c)) => match dec_checksum(d, t, q + 10) {
                    Err(e) => Err(e),
                    Ok(cs) => Ok((FieldDesc {
                        name,
                        offset: Some(off),
                        data_type: dt,
                        endian: en,
                        display_format: fm,
                        condition: c,
                        checksum: cs,
                        description: None,
                    }, q + 19)),
                },
            },
        },
    }
}

/// `n` fields from `p`.
pub open spec fn dec_fields(d: Seq<u8>, t: Seq<Seq<char>>, p: nat, n: nat) -> Result<(Seq<FieldDesc>, nat), BfmtError>
    decreases n,
{
    if n == 0 {
        Ok((Seq::empty(), p))
    } else {
        match dec_fields(d, t, p, (n - 1) as nat) {
            Err(e) => Err(e),
            Ok((fs, q)) => match dec_field(d, t, q) {
                Err(e) => Err(e),
                Ok((f, r)) => Ok((fs.push(f), r)),
            },
        }
    }
}

pub open spec fn dec_struct(d: Seq<u8>, t: Seq<Seq<char>>, p: nat) -> Result<(StructDesc, nat), BfmtError> {
    match rd_name(d, t, p) {
        Err(e) => Err(e),
        Ok(name) => match rd_u16(d, p + 4) {
            Err(e) => Err(e),
            Ok(n) => match dec_fields(d, t, p + 6, n as nat) {
                Err(e) => Err(e),
                Ok((fs, q)) => Ok((StructDesc { name, magic: None, fields: fs }, q)),
            },
        },
    }
}

pub open spec fn dec_structs(d: Seq<u8>, t: Seq<Seq<char>>, p: nat, n: nat) -> Result<(Seq<StructDesc>, nat), BfmtError>
    decreases n,
{
    if n == 0 {
        Ok((Seq::empty(), p))
    } else {
        match dec_structs(d, t, p, (n - 1) as nat) {
            Err(e) => Err(e),
            Ok((ss, q)) => match dec_struct(d, t, q) {
                Err(e) => Err(e),
                Ok((s, r)) => Ok((ss.push(s), r)),
            },
        }
    }
}

/// The position of the last pair with key `k`, or -1.
pub open spec fn key_pos(vs: Seq<(Seq<char>, i64)>, k: Seq<char>) -> int
    decreases vs.len(),
{
    if vs.len() == 0 {
        -1
    } else if vs.last().0 == k {
        vs.len() - 1
    } else {
        key_pos(vs.drop_last(), k)
    }
}

/// Sets the value of `k`, adding the pair at the end where `k` is new.
pub open spec fn values_put(vs: Seq<(Seq<char>, i64)>, k: Seq<char>, v: i64) -> Seq<(Seq<char>, i64)> {
    let i = key_pos(vs, k);
    if i < 0 { vs.push((k, v)) } else { vs.update(i, (k, v)) }
}

pub open spec fn dec_values(d: Seq<u8>, t: Seq<Seq<char>>, p: nat, n: nat)
    -> Result<(Seq<(Seq<char>, i64)>, nat), BfmtError>
    decreases n,
{
    if n == 0 {
        Ok((Seq::empty(), p))
    } else {
        match dec_values(d, t, p, (n - 1) as nat) {
            Err(e) => Err(e),
            Ok((vs, q)) => match rd_name(d, t, q) {
                Err(e) => Err(e),
                Ok(k) => match rd_u64(d, q + 4) {
                    Err(e) => Err(e),
                    Ok(v) => Ok((values_put(vs, k, v as i64), q + 12)),
                },
            },
        }
    }
}

pub open spec fn dec_enum(d: Seq<u8>, t: Seq<Seq<char>>, p: nat) -> Result<(EnumDesc, nat), BfmtError> {
    match rd_name(d, t, p) {
        Err(e) => Err(e),
        Ok(name) => match rd_u8(d, p + 4) {
            Err(e) => Err(e),
            Ok(_u) => match rd_u16(d, p + 5) {
                Err(e) => Err(e),
                Ok(n) => match dec_values(d, t, p + 7, n as nat) {
                    Err(e) => Err(e),
                    Ok((vs, q)) => Ok((EnumDesc { name, values: vs }, q)),
                },
            },
        },
    }
}

pub open spec fn dec_enums(d: Seq<u8>, t: Seq<Seq<char>>, p: nat, n: nat) -> Result<(Seq<EnumDesc>, nat), BfmtError>
    decreases n,
{
    if n == 0 {
        Ok((Seq::empty(), p))
    } else {
        match dec_enums(d, t, p, (n - 1) as nat) {
            Err(e) => Err(e),
            Ok((es, q)) => match dec_enum(d, t, q) {
                Err(e) => Err(e),
                Ok((e, r)) => Ok((es.push(e), r)),
            },
        }
    }
}

/// `n` entries of the string table from `p`, each inserted as it is read.
pub open spec fn dec_strings(d: Seq<u8>, p: nat, n: nat) -> Result<(Seq<Seq<char>>, nat), BfmtError>
    decreases n,
{
    if n == 0 {
        Ok((Seq::empty(), p))
    } else {
        match dec_strings(d, p, (n - 1) as nat) {
            Err(e) => Err(e),
            Ok((t, q)) => match rd_u16(d, q) {
                Err(e) => Err(e),
                Ok(len) => if len == 0 {
                    Err(BfmtError::InvalidStringTable { offset: q as usize })
                } else if q + 2 + len > d.len() {
                    Err(eof(q + 2, len as nat))
                } else {
                    let b = d.subrange((q + 2) as int, (q + 2 + len) as int);
                    if vstd::utf8::valid_utf8(b) {
                        Ok((table_insert(t, vstd::utf8::decode_utf8(b)), (q + 2 + len) as nat))
                    } else {
                        Err(BfmtError::Utf8Error { offset: (q + 2) as usize, valid_up_to: utf8_error_parts(b).0,
                            error_len: utf8_error_parts(b).1 })
                    }
                },
            },
        }
    }
}

/// The string table at `p`: a count, then that many entries.
pub open spec fn dec_table(d: Seq<u8>, p: nat) -> Result<(Seq<Seq<char>>, nat), BfmtError> {
    match rd_u32(d, p) {
        Err(e) => Err(e),
        Ok(n) => dec_strings(d, p + 4, n as nat),
    }
}

/// The magic bytes at the end of the trailer at `p`: a length byte, then that many bytes.
pub open spec fn dec_magic(d: Seq<u8>, p: nat) -> Result<Option<Seq<u8>>, BfmtError> {
    match rd_u8(d, p) {
        Err(e) => Err(e),
        Ok(ml) => if ml == 0 {
            Ok(None)
        } else if p + 1 + ml <= d.len() {
            Ok(Some(d.subrange((p + 1) as int, (p + 1 + ml) as int)))
        } else {
            Err(eof(p + 1, ml as nat))
        },
    }
}

/// Everything after the version: flags, counts, string table, enums, structs and trailer.
pub open spec fn dec_body(d: Seq<u8>) -> Result<FormatDesc, BfmtError> {
    match rd_u16(d, 6) {
        Err(e) => Err(e),
        Ok(_flags) => match rd_u32(d, 8) {
            Err(e) => Err(e),
            Ok(sc) => match rd_u32(d, 12) {
                Err(e) => Err(e),
                Ok(ec) => match dec_table(d, 16) {
                    Err(e) => Err(e),
                    Ok((t, p1)) => match dec_enums(d, t, p1, ec as nat) {
                        Err(e) => Err(e),
                        Ok((es, p2)) => if sc == 0 {
                            Err(eof(p2, 1))
                        } else {
                            dec_rest(d, t, es, p2, (sc - 1) as nat)
                        },
                    },
                },
            },
        },
    }
}

/// The structs, root and trailer from `p`, after the enums `es`.
pub open spec fn dec_rest(d: Seq<u8>, t: Seq<Seq<char>>, es: Seq<EnumDesc>, p: nat, n: nat) -> Result<FormatDesc, BfmtError> {
    match dec_structs(d, t, p, n) {
        Err(e) => Err(e),
        Ok((ss, p3)) => match dec_struct(d, t, p3) {
            Err(e) => Err(e),
            Ok((root, p4)) => match rd_u32(d, p4) {
                Err(e) => Err(e),
                Ok(_root_idx) => match rd_name(d, t, p4 + 4) {
                    Err(e) => Err(e),
                    Ok(name) => match dec_magic(d, p4 + 8) {
                        Err(e) => Err(e),
                        Ok(magic) => Ok(FormatDesc { name, magic, enums: es, structs: ss, root }),
                    },
                },
            },
        },
    }
}

// ---------------------------------------------------------------------
// Reading.
// ---------------------------------------------------------------------

fn read_u8(data: &[u8], pos: &mut usize) -> (r: Result<u8, BfmtError>)
    requires
        *old(pos) <= data@.len(),
    ensures
        *final(pos) <= data@.len(),
        match rd_u8(data@, *old(pos) as nat) {
            Ok(v) => r == Ok::<u8, BfmtError>(v) && *final(pos) == *old(pos) + 1,
            Err(e) => r == Err::<u8, BfmtError>(e),
        },
{
    if data.len() - *pos < 1 {
        return Err(BfmtError::UnexpectedEof { offset: *pos, needed: 1, available: 0 });
    }
    let v = data[*pos];
    *pos = *pos + 1;
    Ok(v)
}

fn read_u16(data: &[u8], pos: &mut usize) -> (r: Result<u16, BfmtError>)
    requires
        *old(pos) <= data@.len(),
    ensures
        *final(pos) <= data@.len(),
        match rd_u16(data@, *old(pos) as nat) {
            Ok(v) => r == Ok::<u16, BfmtError>(v) && *final(pos) == *old(pos) + 2,
            Err(e) => r == Err::<u16, BfmtError>(e),
        },
{
    if data.len() - *pos < 2 {
        return Err(BfmtError::UnexpectedEof { offset: *pos, needed: 2, available: 0 });
    }
    let v = get_u16(data, *pos);
    *pos = *pos + 2;
    Ok(v)
}

fn read_u32(data: &[u8], pos: &mut usize) -> (r: Result<u32, BfmtError>)
    requires
        *old(pos) <= data@.len(),
    ensures
        *final(pos) <= data@.len(),
        match rd_u32(data@, *old(pos) as nat) {
            Ok(v) => r == Ok::<u32, BfmtError>(v) && *final(pos) == *old(pos) + 4,
            Err(e) => r == Err::<u32, BfmtError>(e),
        },
{
    if data.len() - *pos < 4 {
        return Err(BfmtError::UnexpectedEof { offset: *pos, needed: 4, available: 0 });
    }
    let v = get_u32(data, *pos);
    *pos = *pos + 4;
    Ok(v)
}

fn read_u64(data: &[u8], pos: &mut usize) -> (r: Result<u64, BfmtError>)
    requires
        *old(pos) <= data@.len(),
    ensures
        *final(pos) <= data@.len(),
        match rd_u64(data@, *old(pos) as nat) {
            Ok(v) => r == Ok::<u64, BfmtError>(v) && *final(pos) == *old(pos) + 8,
            Err(e) => r == Err::<u64, BfmtError>(e),
        },
{
    if data.len() - *pos < 8 {
        return Err(BfmtError::UnexpectedEof { offset: *pos, needed: 8, available: 0 });
    }
    let v = get_u64(data, *pos);
    *pos = *pos + 8;
    Ok(v)
}

/// Reads a table index and returns a copy of the string it names.
fn read_name(data: &[u8], table: &StringTable, pos: &mut usize) -> (r: Result<String, BfmtError>)
    requires
        *old(pos) <= data@.len(),
    ensures
        *final(pos) <= data@.len(),
        match rd_name(data@, table@, *old(pos) as nat) {
            Ok(v) => (r matches Ok(s) && s@ == v && *final(pos) == *old(pos) + 4),
            Err(e) => r == Err::<String, BfmtError>(e),
        },
{
    let at = *pos;
    let i = match read_u32(data, pos) {
        Ok(i) => i,
        Err(e) => return Err(e),
    };
    match table.get(i, at) {
        Ok(s) => Ok(s.clone()),
        Err(e) => Err(e),
    }
}

/// Reads a data type.
fn decode_data_type(data: &[u8], table: &StringTable, pos: &mut usize) -> (r: Result<DataType, BfmtError>)
    requires
        *old(pos) <= data@.len(),
    ensures
        *final(pos) <= data@.len(),
        match dec_type(data@, table@, *old(pos) as nat) {
            Ok((v, q)) => (r matches Ok(dt) && type_desc(dt) == v && *final(pos) == q),
            Err(e) => r == Err::<DataType, BfmtError>(e),
        },
    decreases data@.len() - *old(pos),
{
    let at = *pos;
    let code = match read_u8(data, pos) {
        Ok(c) => c,
        Err(e) => return Err(e),
    };
    if code == TYPE_U8 {
        Ok(DataType::U8)
    } else if code == TYPE_U16 {
        Ok(DataType::U16)
    } else if code == TYPE_U32 {
        Ok(DataType::U32)
    } else if code == TYPE_U64 {
        Ok(DataType::U64)
    } else if code == TYPE_I8 {
        Ok(DataType::I8)
    } else if code == TYPE_I16 {
        Ok(DataType::I16)
    } else if code == TYPE_I32 {
        Ok(DataType::I32)
    } else if code == TYPE_I64 {
        Ok(DataType::I64)
    } else if code == TYPE_F32 {
        Ok(DataType::F32)
    } else if code == TYPE_F64 {
        Ok(DataType::F64)
    } else if code == TYPE_BYTES {
        match read_name(data, table, pos) {
            Ok(length) => Ok(DataType::Bytes { length }),
            Err(e) => Err(e),
        }
    } else if code == TYPE_STRING {
        match read_name(data, table, pos) {
            Ok(length) => Ok(DataType::String { length, encoding: None }),
            Err(e) => Err(e),
        }
    } else if code == TYPE_BIT_FIELD {
        if data.len() - *pos < 2 {
            return Err(BfmtError::UnexpectedEof { offset: *pos, needed: 2, available: 0 });
        }
        let bit_start = data[*pos];
        let bit_length = data[*pos + 1];
        *pos = *pos + 2;
        Ok(DataType::BitField { bit_start, bit_length })
    } else if code == TYPE_STRUCT {
        match read_name(data, table, pos) {
            Ok(name) => Ok(DataType::Struct { name }),
            Err(e) => Err(e),
        }
    } else if code == TYPE_ARRAY {
        let element = match decode_data_type(data, table, pos) {
            Ok(el) => el,
            Err(e) => return Err(e),
        };
        match read_name(data, table, pos) {
            Ok(length) => Ok(DataType::Array { element_type: Box::new(element), length }),
            Err(e) => Err(e),
        }
    } else if code == TYPE_ENUM {
        let name = match read_name(data, table, pos) {
            Ok(n) => n,
            Err(e) => return Err(e),
        };
        let uat = *pos;
        let u = match read_u8(data, pos) {
            Ok(u) => u,
            Err(e) => return Err(e),
        };
        let underlying = if u == 0 {
            DataType::U8
        } else if u == 1 {
            DataType::U16
        } else if u == 2 {
            DataType::U32
        } else if u == 3 {
            DataType::U64
        } else {
            return Err(BfmtError::InvalidUnderlyingType { offset: uat, code: u });
        };
        assert(type_desc(underlying) == underlying_of(u).unwrap());
        Ok(DataType::Enum { name, underlying: Box::new(underlying) })
    } else {
        Err(BfmtError::InvalidDataType { offset: at, code })
    }
}

/// Reads a field.
#[verifier::rlimit(30)]
fn decode_field(data: &[u8], table: &StringTable, pos: &mut usize) -> (r: Result<Field, BfmtError>)
    requires
        *old(pos) <= data@.len(),
    ensures
        *final(pos) <= data@.len(),
        match dec_field(data@, table@, *old(pos) as nat) {
            Ok((v, q)) => (r matches Ok(f) && field_desc(f) == v && *final(pos) == q),
            Err(e) => r == Err::<Field, BfmtError>(e),
        },
{
    let name = match read_name(data, table, pos) {
        Ok(n) => n,
        Err(e) => return Err(e),
    };
    let data_type = match decode_data_type(data, table, pos) {
        Ok(dt) => dt,
        Err(e) => return Err(e),
    };
    let eat = *pos;
    let ec = match read_u8(data, pos) {
        Ok(c) => c,
        Err(e) => return Err(e),
    };
    let endian = if ec == 0 {
        Endian::Little
    } else if ec == 1 {
        Endian::Big
    } else {
        return Err(BfmtError::InvalidEndian { offset: eat, code: ec });
    };
    let fat = *pos;
    let fc = match read_u8(data, pos) {
        Ok(c) => c,
        Err(e) => return Err(e),
    };
    let display_format = if fc == 0 {
        DisplayFormat::Hex
    } else if fc == 1 {
        DisplayFormat::Dec
    } else if fc == 2 {
        DisplayFormat::Bin
    } else if fc == 3 {
        DisplayFormat::Ascii
    } else if fc == 4 {
        DisplayFormat::Utf8
    } else {
        return Err(BfmtError::InvalidDisplayFormat { offset: fat, code: fc });
    };
    let oat = *pos;
    let oi = match read_u32(data, pos) {
        Ok(i) => i,
        Err(e) => return Err(e),
    };
    let offset = if oi == INVALID_INDEX {
        owned("relative")
    } else {
        match table.get(oi, oat) {
            Ok(t) => t.clone(),
            Err(e) => return Err(e),
        }
    };
    let cat = *pos;
    let ci = match read_u32(data, pos) {
        Ok(i) => i,
        Err(e) => return Err(e),
    };
    let condition = if ci == INVALID_INDEX {
        None
    } else {
        match table.get(ci, cat) {
            Ok(t) => Some(Condition { expression: t.clone() }),
            Err(e) => return Err(e),
        }
    };
    let checksum = match decode_checksum(data, table, pos) {
        Ok(c) => c,
        Err(e) => return Err(e),
    };
    Ok(Field {
        name,
        offset: Some(offset),
        data_type,
        endian,
        display_format,
        condition,
        checksum,
        description: None,
    })
}

/// Reads the checksum part of a field.
fn decode_checksum(data: &[u8], table: &StringTable, pos: &mut usize) -> (r: Result<Option<ChecksumField>, BfmtError>)
    requires
        *old(pos) <= data@.len(),
    ensures
        *final(pos) <= data@.len(),
        match dec_checksum(data@, table@, *old(pos) as nat) {
            Ok(v) => (r matches Ok(c) && *final(pos) == *old(pos) + 9 && v == match c {
                Some(x) => Some((x.algorithm@, x.start@, x.end@)),
                None => None::<(Seq<char>, Seq<char>, Seq<char>)>,
            }),
            Err(e) => r == Err::<Option<ChecksumField>, BfmtError>(e),
        },
{
    let aat = *pos;
    let a = match read_u8(data, pos) {
        Ok(c) => c,
        Err(e) => return Err(e),
    };
    if a == CHECKSUM_NONE {
        if data.len() - *pos < 8 {
            return Err(BfmtError::UnexpectedEof { offset: *pos, needed: 8, available: 0 });
        }
        *pos = *pos + 8;
        return Ok(None);
    }
    let algorithm = if a == 0 {
        owned("crc32")
    } else if a == 1 {
        owned("crc16")
    } else if a == 2 {
        owned("adler32")
    } else {
        return Err(BfmtError::InvalidChecksumAlgorithm { offset: aat, code: a });
    };
    let start = match read_name(data, table, pos) {
        Ok(n) => n,
        Err(e) => return Err(e),
    };
    let end = match read_name(data, table, pos) {
        Ok(n) => n,
        Err(e) => return Err(e),
    };
    Ok(Some(ChecksumField { algorithm, start, end }))
}

proof fn lemma_fields_err(d: Seq<u8>, t: Seq<Seq<char>>, p: nat, k: nat, n: nat)
    requires
        k <= n,
        dec_fields(d, t, p, k) is Err,
    ensures
        dec_fields(d, t, p, n) == dec_fields(d, t, p, k),
    decreases n - k,
{
    if k < n {
        lemma_fields_err(d, t, p, k, (n - 1) as nat);
    }
}

/// Reads a struct: its name, then its fields.
fn decode_struct(data: &[u8], table: &StringTable, pos: &mut usize) -> (r: Result<StructDefinition, BfmtError>)
    requires
        *old(pos) <= data@.len(),
    ensures
        *final(pos) <= data@.len(),
        match dec_struct(data@, table@, *old(pos) as nat) {
            Ok((v, q)) => (r matches Ok(s) && struct_desc(s) == v && *final(pos) == q),
            Err(e) => r == Err::<StructDefinition, BfmtError>(e),
        },
{
    let ghost d = data@;
    let ghost t = table@;
    let name = match read_name(data, table, pos) {
        Ok(n) => n,
        Err(e) => return Err(e),
    };
    let count = match read_u16(data, pos) {
        Ok(c) => c,
        Err(e) => return Err(e),
    };
    let ghost p0 = *pos as nat;
    let ghost whole = dec_struct(d, t, *old(pos) as nat);
    assert(whole == match dec_fields(d, t, p0, count as nat) {
        Err(e) => Err(e),
        Ok((fs, q)) => Ok::<(StructDesc, nat), BfmtError>((StructDesc { name: name@, magic: None, fields: fs }, q)),
    });
    let mut fields: Vec<Field> = Vec::new();
    assert(fields_desc(fields@) =~= Seq::<FieldDesc>::empty());
    let mut i: u16 = 0;
    while i < count
        invariant
            d == data@,
            t == table@,
            i <= count,
            *pos <= data@.len(),
            whole == dec_struct(d, t, *old(pos) as nat),
            whole == match dec_fields(d, t, p0, count as nat) {
                Err(e) => Err(e),
                Ok((fs, q)) => Ok::<(StructDesc, nat), BfmtError>((StructDesc { name: name@, magic: None, fields: fs }, q)),
            },
            dec_fields(d, t, p0, i as nat) == Ok::<(Seq<FieldDesc>, nat), BfmtError>(
                (fields_desc(fields@), *pos as nat)),
        decreases count - i,
    {
        let ghost q = *pos as nat;
        let f = match decode_field(data, table, pos) {
            Ok(f) => f,
            Err(e) => {
                assert(dec_field(d, t, q) == Err::<(FieldDesc, nat), BfmtError>(e));
                assert(dec_fields(d, t, p0, (i + 1) as nat) == Err::<(Seq<FieldDesc>, nat), BfmtError>(e));
                proof { lemma_fields_err(d, t, p0, (i + 1) as nat, count as nat); }
                return Err(e);
            },
        };
        let ghost before = fields@;
        fields.push(f);
        assert(fields_desc(fields@) =~= fields_desc(before).push(field_desc(f)));
        i = i + 1;
    }
    Ok(StructDefinition { name, magic: None, fields })
}

/// Sets the value of `k`, adding the pair at the end where `k` is new.
fn put_value(values: &mut Vec<(String, i64)>, k: String, v: i64)
    ensures
        pairs_desc(final(values)@) == values_put(pairs_desc(old(values)@), k@, v),
{
    let ghost vs = pairs_desc(values@);
    let mut j: usize = values.len();
    assert(vs.take(j as int) =~= vs);
    while j > 0
        invariant
            j <= values@.len(),
            vs == pairs_desc(values@),
            vs == pairs_desc(old(values)@),
            key_pos(vs, k@) == key_pos(vs.take(j as int), k@),
        decreases j,
    {
        assert(vs.take(j as int).last() == vs[j - 1]);
        if str_eq(values[j - 1].0.as_str(), k.as_str()) {
            assert(key_pos(vs.take(j as int), k@) == j - 1);
            values.set(j - 1, (k, v));
            assert(pairs_desc(values@) =~= vs.update(j - 1, (k@, v)));
            assert(values_put(vs, k@, v) == vs.update(j - 1, (k@, v)));
            return;
        }
        assert(vs.take(j as int).drop_last() =~= vs.take(j - 1));
        j = j - 1;
    }
    assert(vs.take(values@.len() as int) =~= vs);
    values.push((k, v));
    assert(pairs_desc(values@) =~= vs.push((k@, v)));
}

proof fn lemma_values_err(d: Seq<u8>, t: Seq<Seq<char>>, p: nat, k: nat, n: nat)
    requires
        k <= n,
        dec_values(d, t, p, k) is Err,
    ensures
        dec_values(d, t, p, n) == dec_values(d, t, p, k),
    decreases n - k,
{
    if k < n {
        lemma_values_err(d, t, p, k, (n - 1) as nat);
    }
}

/// Reads an enum: its name, the underlying code (which is not kept), then its values.
fn decode_enum(data: &[u8], table: &StringTable, pos: &mut usize) -> (r: Result<EnumDefinition, BfmtError>)
    requires
        *old(pos) <= data@.len(),
    ensures
        *final(pos) <= data@.len(),
        match dec_enum(data@, table@, *old(pos) as nat) {
            Ok((v, q)) => (r matches Ok(e) && enum_desc(e) == v && *final(pos) == q),
            Err(e) => r == Err::<EnumDefinition, BfmtError>(e),
        },
{
    let ghost d = data@;
    let ghost t = table@;
    let name = match read_name(data, table, pos) {
        Ok(n) => n,
        Err(e) => return Err(e),
    };
    match read_u8(data, pos) {
        Ok(_u) => {},
        Err(e) => return Err(e),
    }
    let count = match read_u16(data, pos) {
        Ok(c) => c,
        Err(e) => return Err(e),
    };
    let ghost p0 = *pos as nat;
    let ghost whole = dec_enum(d, t, *old(pos) as nat);
    assert(whole == match dec_values(d, t, p0, count as nat) {
        Err(e) => Err(e),
        Ok((vs, q)) => Ok::<(EnumDesc, nat), BfmtError>((EnumDesc { name: name@, values: vs }, q)),
    });
    let mut values: Vec<(String, i64)> = Vec::new();
    assert(pairs_desc(values@) =~= Seq::<(Seq<char>, i64)>::empty());
    let mut i: u16 = 0;
    while i < count
        invariant
            d == data@,
            t == table@,
            i <= count,
            *pos <= data@.len(),
            whole == dec_enum(d, t, *old(pos) as nat),
            whole == match dec_values(d, t, p0, count as nat) {
                Err(e) => Err(e),
                Ok((vs, q)) => Ok::<(EnumDesc, nat), BfmtError>((EnumDesc { name: name@, values: vs }, q)),
            },
            dec_values(d, t, p0, i as nat) == Ok::<(Seq<(Seq<char>, i64)>, nat), BfmtError>((pairs_desc(values@), *pos as nat)),
        decreases count - i,
    {
        let ghost q = *pos as nat;
        let k = match read_name(data, table, pos) {
            Ok(k) => k,
            Err(e) => {
                assert(dec_values(d, t, p0, (i + 1) as nat) == Err::<(Seq<(Seq<char>, i64)>, nat), BfmtError>(e));
                proof { lemma_values_err(d, t, p0, (i + 1) as nat, count as nat); }
                return Err(e);
            },
        };
        let v = match read_u64(data, pos) {
            Ok(v) => v,
            Err(e) => {
                assert(dec_values(d, t, p0, (i + 1) as nat) == Err::<(Seq<(Seq<char>, i64)>, nat), BfmtError>(e));
                proof { lemma_values_err(d, t, p0, (i + 1) as nat, count as nat); }
                return Err(e);
            },
        };
        put_value(&mut values, k, v as i64);
        i = i + 1;
    }
    Ok(EnumDefinition { name, values })
}

/// A copy of `data[from..to]`.
fn copy_bytes(data: &[u8], from: usize, to: usize) -> (r: Vec<u8>)
    requires
        from <= to <= data@.len(),
    ensures
        r@ == data@.subrange(from as int, to as int),
{
    let mut out: Vec<u8> = Vec::new();
    let mut i = from;
    while i < to
        invariant
            from <= i <= to,
            to <= data@.len(),
            out@ == data@.subrange(from as int, i as int),
        decreases to - i,
    {
        out.push(data[i]);
        assert(data@.subrange(from as int, i + 1) =~= data@.subrange(from as int, i as int).push(data@[i as int]));
        i = i + 1;
    }
    out
}

proof fn lemma_strings_err(d: Seq<u8>, p: nat, k: nat, n: nat)
    requires
        k <= n,
        dec_strings(d, p, k) is Err,
    ensures
        dec_strings(d, p, n) == dec_strings(d, p, k),
    decreases n - k,
{
    if k < n {
        lemma_strings_err(d, p, k, (n - 1) as nat);
    }
}

/// Reads the string table.
fn decode_string_table(data: &[u8], pos: &mut usize) -> (r: Result<StringTable, BfmtError>)
    requires
        *old(pos) <= data@.len(),
    ensures
        *final(pos) <= data@.len(),
        match dec_table(data@, *old(pos) as nat) {
            Ok((v, q)) => (r matches Ok(t) && t@ == v && *final(pos) == q),
            Err(e) => r == Err::<StringTable, BfmtError>(e),
        },
{
    let ghost d = data@;
    let count = match read_u32(data, pos) {
        Ok(c) => c,
        Err(e) => return Err(e),
    };
    let ghost p0 = *pos as nat;
    let mut table = StringTable::new();
    let mut i: u32 = 0;
    while i < count
        invariant
            d == data@,
            i <= count,
            *pos <= data@.len(),
            dec_table(d, *old(pos) as nat) == dec_strings(d, p0, count as nat),
            dec_strings(d, p0, i as nat) == Ok::<(Seq<Seq<char>>, nat), BfmtError>((table@, *pos as nat)),
        decreases count - i,
    {
        let ghost q = *pos as nat;
        let len = match read_u16(data, pos) {
            Ok(l) => l,
            Err(e) => {
                assert(dec_strings(d, p0, (i + 1) as nat) == Err::<(Seq<Seq<char>>, nat), BfmtError>(e));
                proof { lemma_strings_err(d, p0, (i + 1) as nat, count as nat); }
                return Err(e);
            },
        };
        if len == 0 {
            let e = BfmtError::InvalidStringTable { offset: *pos - 2 };
            assert(dec_strings(d, p0, (i + 1) as nat) == Err::<(Seq<Seq<char>>, nat), BfmtError>(e));
            proof { lemma_strings_err(d, p0, (i + 1) as nat, count as nat); }
            return Err(e);
        }
        let n = len as usize;
        if data.len() - *pos < n {
            let e = BfmtError::UnexpectedEof { offset: *pos, needed: n, available: 0 };
            assert(dec_strings(d, p0, (i + 1) as nat) == Err::<(Seq<Seq<char>>, nat), BfmtError>(e));
            proof { lemma_strings_err(d, p0, (i + 1) as nat, count as nat); }
            return Err(e);
        }
        let at = *pos;
        let bytes = copy_bytes(data, at, at + n);
        *pos = at + n;
        match string_from_utf8(bytes) {
            Ok(s) => {
                table.insert(s.as_str());
            },
            Err((valid_up_to, error_len)) => {
                let e = BfmtError::Utf8Error { offset: at, valid_up_to, error_len };
                assert(dec_strings(d, p0, (i + 1) as nat) == Err::<(Seq<Seq<char>>, nat), BfmtError>(e));
                proof { lemma_strings_err(d, p0, (i + 1) as nat, count as nat); }
                return Err(e);
            },
        }
        i = i + 1;
    }
    Ok(table)
}

proof fn lemma_enums_err(d: Seq<u8>, t: Seq<Seq<char>>, p: nat, k: nat, n: nat)
    requires
        k <= n,
        dec_enums(d, t, p, k) is Err,
    ensures
        dec_enums(d, t, p, n) == dec_enums(d, t, p, k),
    decreases n - k,
{
    if k < n {
        lemma_enums_err(d, t, p, k, (n - 1) as nat);
    }
}

proof fn lemma_structs_err(d: Seq<u8>, t: Seq<Seq<char>>, p: nat, k: nat, n: nat)
    requires
        k <= n,
        dec_structs(d, t, p, k) is Err,
    ensures
        dec_structs(d, t, p, n) == dec_structs(d, t, p, k),
    decreases n - k,
{
    if k < n {
        lemma_structs_err(d, t, p, k, (n - 1) as nat);
    }
}

/// Reads `count` enums.
fn decode_enums(data: &[u8], table: &StringTable, pos: &mut usize, count: u32) -> (r: Result<Vec<EnumDefinition>, BfmtError>)
    requires
        *old(pos) <= data@.len(),
    ensures
        *final(pos) <= data@.len(),
        match dec_enums(data@, table@, *old(pos) as nat, count as nat) {
            Ok((v, q)) => (r matches Ok(es) && enums_desc(es@) == v && *final(pos) == q),
            Err(e) => r == Err::<Vec<EnumDefinition>, BfmtError>(e),
        },
{
    let ghost d = data@;
    let ghost t = table@;
    let ghost p0 = *pos as nat;
    let mut enums: Vec<EnumDefinition> = Vec::new();
    assert(enums_desc(enums@) =~= Seq::<EnumDesc>::empty());
    let mut i: u32 = 0;
    while i < count
        invariant
            d == data@,
            t == table@,
            p0 == *old(pos),
            i <= count,
            *pos <= data@.len(),
            dec_enums(d, t, p0, i as nat) == Ok::<(Seq<EnumDesc>, nat), BfmtError>((enums_desc(enums@), *pos as nat)),
        decreases count - i,
    {
        let e = match decode_enum(data, table, pos) {
            Ok(e) => e,
            Err(e) => {
                assert(dec_enums(d, t, p0, (i + 1) as nat) == Err::<(Seq<EnumDesc>, nat), BfmtError>(e));
                proof { lemma_enums_err(d, t, p0, (i + 1) as nat, count as nat); }
                return Err(e);
            },
        };
        let ghost before = enums@;
        enums.push(e);
        assert(enums_desc(enums@) =~= enums_desc(before).push(enum_desc(e)));
        i = i + 1;
    }
    Ok(enums)
}

/// Reads `count` structs.
fn decode_structs(data: &[u8], table: &StringTable, pos: &mut usize, count: u32) -> (r: Result<Vec<StructDefinition>, BfmtError>)
    requires
        *old(pos) <= data@.len(),
    ensures
        *final(pos) <= data@.len(),
        match dec_structs(data@, table@, *old(pos) as nat, count as nat) {
            Ok((v, q)) => (r matches Ok(ss) && structs_desc(ss@) == v && *final(pos) == q),
            Err(e) => r == Err::<Vec<StructDefinition>, BfmtError>(e),
        },
{
    let ghost d = data@;
    let ghost t = table@;
    let ghost p0 = *pos as nat;
    let mut structs: Vec<StructDefinition> = Vec::new();
    assert(structs_desc(structs@) =~= Seq::<StructDesc>::empty());
    let mut i: u32 = 0;
    while i < count
        invariant
            d == data@,
            t == table@,
            p0 == *old(pos),
            i <= count,
            *pos <= data@.len(),
            dec_structs(d, t, p0, i as nat) == Ok::<(Seq<StructDesc>, nat), BfmtError>((structs_desc(structs@), *pos as nat)),
        decreases count - i,
    {
        let s = match decode_struct(data, table, pos) {
            Ok(s) => s,
            Err(e) => {
                assert(dec_structs(d, t, p0, (i + 1) as nat) == Err::<(Seq<StructDesc>, nat), BfmtError>(e));
                proof { lemma_structs_err(d, t, p0, (i + 1) as nat, count as nat); }
                return Err(e);
            },
        };
        let ghost before = structs@;
        structs.push(s);
        assert(structs_desc(structs@) =~= structs_desc(before).push(struct_desc(s)));
        i = i + 1;
    }
    Ok(structs)
}

/// What the bytes after a correct magic decode to: the version is checked first.
pub open spec fn after_magic(d: Seq<u8>) -> Result<FormatDesc, BfmtError> {
    match rd_u16(d, 4) {
        Err(e) => Err(e),
        Ok(v) => if v != VERSION {
            Err(BfmtError::InvalidVersion { offset: 4, expected: VERSION, got: v })
        } else {
            dec_body(d)
        },
    }
}

pub open spec fn bfmt_magic() -> Seq<u8> {
    seq![0x42u8, 0x46u8, 0x4Du8, 0x54u8]
}

/// Reads a definition from the binary definition format.
///
/// A struct count of zero is refused as input that ends early, at the position
/// where the first struct would start.
pub fn load_from_bfmt(data: &[u8]) -> (r: Result<FormatDefinition, BfmtError>)
    ensures
        data@.len() < 4 ==> r == Err::<FormatDefinition, BfmtError>(eof(0, 4)),
        data@.len() >= 4 && data@.subrange(0, 4) != bfmt_magic() ==> (r matches Err(BfmtError::InvalidMagic { offset, expected, got })
            && offset == 0 && expected@ == bfmt_magic() && got@ == data@.subrange(0, 4)),
        data@.len() >= 4 && data@.subrange(0, 4) == bfmt_magic() ==> match after_magic(data@) {
            Ok(v) => (r matches Ok(def) && format_desc(def) == v),
            Err(e) => r == Err::<FormatDefinition, BfmtError>(e),
        },
{
    let ghost d = data@;
    if data.len() < 4 {
        return Err(BfmtError::UnexpectedEof { offset: 0, needed: 4, available: 0 });
    }
    if !(data[0] == 0x42 && data[1] == 0x46 && data[2] == 0x4D && data[3] == 0x54) {
        let got: [u8; 4] = [data[0], data[1], data[2], data[3]];
        let expected: [u8; 4] = [0x42, 0x46, 0x4D, 0x54];
        assert(got@ =~= d.subrange(0, 4));
        assert(expected@ =~= bfmt_magic());
        return Err(BfmtError::InvalidMagic { offset: 0, expected, got });
    }
    assert(d.subrange(0, 4) =~= bfmt_magic());
    let mut pos: usize = 4;
    let version = match read_u16(data, &mut pos) {
        Ok(v) => v,
        Err(e) => return Err(e),
    };
    if version != VERSION {
        return Err(BfmtError::InvalidVersion { offset: 4, expected: VERSION, got: version });
    }
    match read_u16(data, &mut pos) {
        Ok(_flags) => {},
        Err(e) => return Err(e),
    }
    let struct_count = match read_u32(data, &mut pos) {
        Ok(c) => c,
        Err(e) => return Err(e),
    };
    let enum_count = match read_u32(data, &mut pos) {
        Ok(c) => c,
        Err(e) => return Err(e),
    };
    let table = match decode_string_table(data, &mut pos) {
        Ok(t) => t,
        Err(e) => return Err(e),
    };
    let enums = match decode_enums(data, &table, &mut pos, enum_count) {
        Ok(es) => es,
        Err(e) => return Err(e),
    };
    if struct_count == 0 {
        return Err(BfmtError::UnexpectedEof { offset: pos, needed: 1, available: 0 });
    }
    let structs = match decode_structs(data, &table, &mut pos, struct_count - 1) {
        Ok(ss) => ss,
        Err(e) => return Err(e),
    };
    let root = match decode_struct(data, &table, &mut pos) {
        Ok(s) => s,
        Err(e) => return Err(e),
    };
    match read_u32(data, &mut pos) {
        Ok(_root_idx) => {},
        Err(e) => return Err(e),
    }
    let name = match read_name(data, &table, &mut pos) {
        Ok(n) => n,
        Err(e) => return Err(e),
    };
    let ml = match read_u8(data, &mut pos) {
        Ok(m) => m,
        Err(e) => return Err(e),
    };
    let magic = if ml == 0 {
        None
    } else {
        let n = ml as usize;
        if data.len() - pos < n {
            return Err(BfmtError::UnexpectedEof { offset: pos, needed: n, available: 0 });
        }
        Some(copy_bytes(data, pos, pos + n))
    };
    Ok(FormatDefinition { name, magic, enums, structs, root })
}

} // verus!
