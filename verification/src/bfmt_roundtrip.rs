//! What reading back a compiled definition gives.

use vstd::prelude::*;
use crate::bytes::{u16_le, u32_le, u64_le, le_u16, le_u32, le_u64, lemma_u16_roundtrip, lemma_u32_roundtrip, lemma_u64_roundtrip};
use crate::bfmt::{
    table_insert, table_of, index_or, INVALID_INDEX, CHECKSUM_NONE, encode_data_type, data_type_strings, type_code,
    underlying_code, encode_field, encode_checksum, offset_index, condition_index, endian_code, format_code,
    algorithm_code, field_strings, offset_strings, condition_strings, checksum_strings,
    encode_fields, fields_strings, encode_struct, struct_strings, encode_structs, structs_strings,
    encode_values, encode_enum, encode_enums, enum_strings, enums_strings, inferred_underlying,
    encode_table, table_entries, table_entry, compile_spec, def_strings, encode_header, encode_magic, magic_bytes,
    zeros, count_all_fields, VERSION, FLAG_DEBUG,
};
use crate::bfmt_load::{
    rd_u8, rd_u16, rd_u32, rd_u64, rd_name, table_get, dec_type, plain_type_of, underlying_of, dec_field,
    dec_field_tail, dec_checksum, offset_text, condition_text, endian_of, format_of, algorithm_of,
    dec_fields, dec_struct, dec_structs, dec_values, dec_enum, dec_enums, key_pos, values_put,
    dec_strings, dec_table, dec_magic, dec_rest, dec_body, after_magic, bfmt_magic,
};
use crate::dsl::{
    DataType, TypeDesc, type_desc, Field, FieldDesc, Endian, DisplayFormat, StructModel, StructDesc,
    EnumModel, EnumDesc, FormatModel, FormatDesc, pairs_desc,
};
use crate::text::ascii_lower_seq;

verus! {

/// The bytes `e` stand in `d` from position `p`.
pub open spec fn at(d: Seq<u8>, p: nat, e: Seq<u8>) -> bool {
    p + e.len() <= d.len() && d.subrange(p as int, (p + e.len()) as int) == e
}

pub proof fn lemma_at_split(d: Seq<u8>, p: nat, a: Seq<u8>, b: Seq<u8>)
    requires
        at(d, p, a + b),
    ensures
        at(d, p, a),
        at(d, p + a.len(), b),
{
    let s = d.subrange(p as int, (p + a.len() + b.len()) as int);
    assert(d.subrange(p as int, (p + a.len()) as int) =~= s.subrange(0, a.len() as int));
    assert(d.subrange((p + a.len()) as int, (p + a.len() + b.len()) as int) =~= s.subrange(a.len() as int, (a.len() + b.len()) as int));
    assert((a + b).subrange(0, a.len() as int) =~= a);
    assert((a + b).subrange(a.len() as int, (a.len() + b.len()) as int) =~= b);
}

pub proof fn lemma_rd_u8(d: Seq<u8>, p: nat, v: u8)
    requires
        at(d, p, seq![v]),
    ensures
        rd_u8(d, p) == Ok::<u8, crate::bfmt::BfmtError>(v),
{
    assert(d.subrange(p as int, (p + 1) as int)[0] == d[p as int]);
}

pub proof fn lemma_rd_u16(d: Seq<u8>, p: nat, v: u16)
    requires
        at(d, p, u16_le(v)),
    ensures
        rd_u16(d, p) == Ok::<u16, crate::bfmt::BfmtError>(v),
{
    lemma_u16_roundtrip(v);
}

pub proof fn lemma_rd_u32(d: Seq<u8>, p: nat, v: u32)
    requires
        at(d, p, u32_le(v)),
    ensures
        rd_u32(d, p) == Ok::<u32, crate::bfmt::BfmtError>(v),
{
    lemma_u32_roundtrip(v);
}

pub proof fn lemma_rd_u64(d: Seq<u8>, p: nat, v: u64)
    requires
        at(d, p, u64_le(v)),
    ensures
        rd_u64(d, p) == Ok::<u64, crate::bfmt::BfmtError>(v),
{
    lemma_u64_roundtrip(v);
}

/// A table index written for a string of the table reads back as that string.
pub proof fn lemma_rd_name(d: Seq<u8>, t: Seq<Seq<char>>, p: nat, s: Seq<char>, dflt: u32)
    requires
        at(d, p, u32_le(index_or(t, s, dflt))),
        t.contains(s),
        t.len() <= u32::MAX,
    ensures
        rd_name(d, t, p) == Ok::<Seq<char>, crate::bfmt::BfmtError>(s),
        index_or(t, s, dflt) < t.len(),
{
    t.index_of_first_ensures(s);
    lemma_rd_u32(d, p, index_or(t, s, dflt));
}

/// Every string of `xs` is in the table.
pub open spec fn strs_in(xs: Seq<Seq<char>>, t: Seq<Seq<char>>) -> bool {
    forall|i: int| 0 <= i < xs.len() ==> t.contains(#[trigger] xs[i])
}

/// A data type as it reads back: a string type loses its encoding.
pub open spec fn loaded_type(dt: DataType) -> TypeDesc
    decreases dt,
{
    match dt {
        DataType::String { length, .. } => TypeDesc::Str(length@, None),
        DataType::Array { element_type, length } => TypeDesc::Array(Box::new(loaded_type(*element_type)), length@),
        _ => type_desc(dt),
    }
}

pub proof fn lemma_dec_type(d: Seq<u8>, t: Seq<Seq<char>>, p: nat, dt: DataType, pos: nat)
    requires
        encode_data_type(dt, t, pos) is Ok,
        at(d, p, encode_data_type(dt, t, pos)->Ok_0),
        strs_in(data_type_strings(dt), t),
        t.len() <= u32::MAX,
    ensures
        dec_type(d, t, p) == Ok::<(TypeDesc, nat), crate::bfmt::BfmtError>(
            (loaded_type(dt), p + encode_data_type(dt, t, pos)->Ok_0.len())),
    decreases dt,
{
    let e = encode_data_type(dt, t, pos)->Ok_0;
    let c = seq![type_code(dt)];
    assert(d.subrange(p as int, (p + e.len()) as int)[0] == d[p as int]);
    match dt {
        DataType::Bytes { length } => {
            assert(e == c + u32_le(index_or(t, length@, INVALID_INDEX)));
            lemma_at_split(d, p, c, u32_le(index_or(t, length@, INVALID_INDEX)));
            assert(data_type_strings(dt)[0] == length@);
            lemma_rd_name(d, t, p + 1, length@, INVALID_INDEX);
            assert(d[p as int] == crate::bfmt::TYPE_BYTES);
            assert(plain_type_of(d[p as int]) is None);
            assert(loaded_type(dt) == TypeDesc::Bytes(length@));
        },
        DataType::String { length, .. } => {
            assert(e == c + u32_le(index_or(t, length@, INVALID_INDEX)));
            lemma_at_split(d, p, c, u32_le(index_or(t, length@, INVALID_INDEX)));
            assert(data_type_strings(dt)[0] == length@);
            lemma_rd_name(d, t, p + 1, length@, INVALID_INDEX);
        },
        DataType::BitField { bit_start, bit_length } => {
            assert(d.subrange(p as int, (p + e.len()) as int)[1] == d[(p + 1) as int]);
            assert(d.subrange(p as int, (p + e.len()) as int)[2] == d[(p + 2) as int]);
        },
        DataType::Struct { name } => {
            assert(e == c + u32_le(index_or(t, name@, INVALID_INDEX)));
            lemma_at_split(d, p, c, u32_le(index_or(t, name@, INVALID_INDEX)));
            assert(data_type_strings(dt)[0] == name@);
            lemma_rd_name(d, t, p + 1, name@, INVALID_INDEX);
        },
        DataType::Array { element_type, length } => {
            let ee = encode_data_type(*element_type, t, pos + 1)->Ok_0;
            let li = u32_le(index_or(t, length@, INVALID_INDEX));
            assert(e == c + ee + li);
            assert(c + ee + li == c + (ee + li));
            lemma_at_split(d, p, c, ee + li);
            lemma_at_split(d, p + 1, ee, li);
            let inner = data_type_strings(*element_type);
            assert(data_type_strings(dt) == inner.push(length@));
            assert(strs_in(inner, t)) by {
                assert forall|i: int| 0 <= i < inner.len() implies t.contains(#[trigger] inner[i]) by {
                    assert(data_type_strings(dt)[i] == inner[i]);
                }
            }
            assert(data_type_strings(dt)[inner.len() as int] == length@);
            lemma_dec_type(d, t, p + 1, *element_type, pos + 1);
            lemma_rd_name(d, t, p + 1 + ee.len(), length@, INVALID_INDEX);
        },
        DataType::Enum { name, underlying } => {
            let u = underlying_code(*underlying)->Some_0;
            let ni = u32_le(index_or(t, name@, INVALID_INDEX));
            assert(e == c + ni + seq![u]);
            assert(c + ni + seq![u] == c + (ni + seq![u]));
            lemma_at_split(d, p, c, ni + seq![u]);
            lemma_at_split(d, p + 1, ni, seq![u]);
            assert(data_type_strings(dt)[0] == name@);
            lemma_rd_name(d, t, p + 1, name@, INVALID_INDEX);
            lemma_rd_u8(d, p + 5, u);
            assert(underlying_of(u) == Some(type_desc(*underlying))) by {
                match *underlying {
                    DataType::U8 => {},
                    DataType::U16 => {},
                    DataType::U32 => {},
                    DataType::U64 => {},
                    _ => {},
                }
            }
        },
        _ => {},
    }
}

/// A field as it reads back: an absent offset reads as "relative", the
/// algorithm name in small letters, and no description.
pub open spec fn loaded_field(f: Field) -> FieldDesc {
    FieldDesc {
        name: f.name@,
        offset: Some(match f.offset { Some(o) => o@, None => "relative"@ }),
        data_type: loaded_type(f.data_type),
        endian: f.endian,
        display_format: f.display_format,
        condition: match f.condition { Some(c) => Some(c.expression@), None => None },
        checksum: match f.checksum { Some(c) => Some((ascii_lower_seq(c.algorithm@), c.start@, c.end@)), None => None },
        description: None,
    }
}

proof fn lemma_strs_in_parts(a: Seq<Seq<char>>, b: Seq<Seq<char>>, t: Seq<Seq<char>>)
    requires
        strs_in(a + b, t),
    ensures
        strs_in(a, t),
        strs_in(b, t),
{
    assert forall|i: int| 0 <= i < a.len() implies t.contains(#[trigger] a[i]) by {
        assert((a + b)[i] == a[i]);
    }
    assert forall|i: int| 0 <= i < b.len() implies t.contains(#[trigger] b[i]) by {
        assert((a + b)[a.len() + i] == b[i]);
    }
}

proof fn lemma_dec_checksum(d: Seq<u8>, t: Seq<Seq<char>>, q: nat, f: Field)
    requires
        encode_checksum(t, f.checksum) is Ok,
        at(d, q, encode_checksum(t, f.checksum)->Ok_0),
        strs_in(checksum_strings(f.checksum), t),
        t.len() <= u32::MAX,
    ensures
        dec_checksum(d, t, q) == Ok::<Option<(Seq<char>, Seq<char>, Seq<char>)>, crate::bfmt::BfmtError>(loaded_field(f).checksum),
        encode_checksum(t, f.checksum)->Ok_0.len() == 9,
{
    let e = encode_checksum(t, f.checksum)->Ok_0;
    match f.checksum {
        Some(cs) => {
            let a = algorithm_code(cs.algorithm@)->Some_0;
            let s1 = u32_le(index_or(t, cs.start@, 0));
            let s2 = u32_le(index_or(t, cs.end@, 0));
            assert(e == seq![a] + s1 + s2);
            lemma_at_split(d, q, seq![a] + s1, s2);
            lemma_at_split(d, q, seq![a], s1);
            lemma_rd_u8(d, q, a);
            assert(checksum_strings(f.checksum)[0] == cs.start@);
            assert(checksum_strings(f.checksum)[1] == cs.end@);
            lemma_rd_name(d, t, q + 1, cs.start@, 0);
            lemma_rd_name(d, t, q + 5, cs.end@, 0);
            reveal_strlit("crc32");
            reveal_strlit("crc16");
            reveal_strlit("adler32");
            assert(algorithm_of(a) == Some(ascii_lower_seq(cs.algorithm@)));
        },
        None => {
            assert(e =~= seq![CHECKSUM_NONE] + e.subrange(1, 9));
            lemma_at_split(d, q, seq![CHECKSUM_NONE], e.subrange(1, 9));
            lemma_rd_u8(d, q, CHECKSUM_NONE);
        },
    }
}

proof fn lemma_dec_field_tail(d: Seq<u8>, t: Seq<Seq<char>>, q: nat, f: Field)
    requires
        at(d, q, seq![endian_code(f.endian), format_code(f.display_format)] + u32_le(offset_index(t, f.offset))
            + u32_le(condition_index(t, f.condition))),
        strs_in(offset_strings(f.offset), t),
        strs_in(condition_strings(f.condition), t),
        t.len() < INVALID_INDEX,
    ensures
        dec_field_tail(d, t, q) == Ok::<(Endian, DisplayFormat, Seq<char>, Option<Seq<char>>), crate::bfmt::BfmtError>(
            (f.endian, f.display_format, loaded_field(f).offset->Some_0, loaded_field(f).condition)),
{
    let ef = seq![endian_code(f.endian), format_code(f.display_format)];
    let oi = u32_le(offset_index(t, f.offset));
    let ci = u32_le(condition_index(t, f.condition));
    lemma_at_split(d, q, ef + oi, ci);
    lemma_at_split(d, q, ef, oi);
    assert(ef =~= seq![endian_code(f.endian)] + seq![format_code(f.display_format)]);
    lemma_at_split(d, q, seq![endian_code(f.endian)], seq![format_code(f.display_format)]);
    lemma_rd_u8(d, q, endian_code(f.endian));
    lemma_rd_u8(d, q + 1, format_code(f.display_format));
    assert(endian_of(endian_code(f.endian)) == Some(f.endian)) by {
        match f.endian { Endian::Little => {}, Endian::Big => {} }
    }
    assert(format_of(format_code(f.display_format)) == Some(f.display_format)) by {
        match f.display_format {
            DisplayFormat::Hex => {}, DisplayFormat::Dec => {}, DisplayFormat::Bin => {},
            DisplayFormat::Ascii => {}, DisplayFormat::Utf8 => {},
        }
    }
    lemma_rd_u32(d, q + 2, offset_index(t, f.offset));
    lemma_rd_u32(d, q + 6, condition_index(t, f.condition));
    match f.offset {
        Some(o) => {
            if o@ != "relative"@ {
                assert(offset_strings(f.offset)[0] == o@);
                t.index_of_first_ensures(o@);
            }
        },
        None => {},
    }
    match f.condition {
        Some(c) => {
            assert(condition_strings(f.condition)[0] == c.expression@);
            t.index_of_first_ensures(c.expression@);
        },
        None => {},
    }
}

/// A field written with the table reads back as `loaded_field` says, and the
/// reading ends where the writing did.
pub proof fn lemma_dec_field(d: Seq<u8>, t: Seq<Seq<char>>, p: nat, f: Field, pos: nat)
    requires
        encode_field(f, t, pos) is Ok,
        at(d, p, encode_field(f, t, pos)->Ok_0),
        strs_in(field_strings(f), t),
        t.len() < INVALID_INDEX,
    ensures
        dec_field(d, t, p) == Ok::<(FieldDesc, nat), crate::bfmt::BfmtError>(
            (loaded_field(f), p + encode_field(f, t, pos)->Ok_0.len())),
{
    let e = encode_field(f, t, pos)->Ok_0;
    let ni = u32_le(index_or(t, f.name@, 0));
    let dt = encode_data_type(f.data_type, t, pos + 4)->Ok_0;
    let ef = seq![endian_code(f.endian), format_code(f.display_format)];
    let oi = u32_le(offset_index(t, f.offset));
    let ci = u32_le(condition_index(t, f.condition));
    let ck = encode_checksum(t, f.checksum)->Ok_0;
    assert(e == ni + dt + ef + oi + ci + ck);
    let tail = ef + oi + ci;
    assert(ni + dt + ef + oi + ci + ck == ni + dt + tail + ck);
    lemma_at_split(d, p, ni + dt + tail, ck);
    lemma_at_split(d, p, ni + dt, tail);
    lemma_at_split(d, p, ni, dt);
    let fs = field_strings(f);
    assert(fs == seq![f.name@] + offset_strings(f.offset) + data_type_strings(f.data_type)
        + condition_strings(f.condition) + checksum_strings(f.checksum));
    lemma_strs_in_parts(seq![f.name@] + offset_strings(f.offset) + data_type_strings(f.data_type)
        + condition_strings(f.condition), checksum_strings(f.checksum), t);
    lemma_strs_in_parts(seq![f.name@] + offset_strings(f.offset) + data_type_strings(f.data_type),
        condition_strings(f.condition), t);
    lemma_strs_in_parts(seq![f.name@] + offset_strings(f.offset), data_type_strings(f.data_type), t);
    lemma_strs_in_parts(seq![f.name@], offset_strings(f.offset), t);
    assert(seq![f.name@][0] == f.name@);
    lemma_rd_name(d, t, p, f.name@, 0);
    lemma_dec_type(d, t, p + 4, f.data_type, pos + 4);
    let q = p + 4 + dt.len();
    lemma_dec_field_tail(d, t, q, f);
    lemma_dec_checksum(d, t, q + 10, f);
}

pub open spec fn loaded_fields(fs: Seq<Field>) -> Seq<FieldDesc> {
    fs.map_values(|f: Field| loaded_field(f))
}

/// A struct as it reads back: its fields as `loaded_field` says, and no magic.
pub open spec fn loaded_struct(s: StructModel) -> StructDesc {
    StructDesc { name: s.name@, magic: None, fields: loaded_fields(s.fields) }
}

pub proof fn lemma_dec_fields(d: Seq<u8>, t: Seq<Seq<char>>, p: nat, fs: Seq<Field>, pos: nat)
    requires
        encode_fields(fs, t, pos) is Ok,
        at(d, p, encode_fields(fs, t, pos)->Ok_0),
        strs_in(fields_strings(fs), t),
        t.len() < INVALID_INDEX,
    ensures
        dec_fields(d, t, p, fs.len()) == Ok::<(Seq<FieldDesc>, nat), crate::bfmt::BfmtError>(
            (loaded_fields(fs), p + encode_fields(fs, t, pos)->Ok_0.len())),
    decreases fs.len(),
{
    if fs.len() == 0 {
        assert(loaded_fields(fs) =~= Seq::<FieldDesc>::empty());
    } else {
        let pre = fs.drop_last();
        let a = encode_fields(pre, t, pos)->Ok_0;
        let b = encode_field(fs.last(), t, pos + a.len())->Ok_0;
        lemma_at_split(d, p, a, b);
        lemma_strs_in_parts(fields_strings(pre), field_strings(fs.last()), t);
        lemma_dec_fields(d, t, p, pre, pos);
        lemma_dec_field(d, t, p + a.len(), fs.last(), pos + a.len());
        assert(loaded_fields(pre).push(loaded_field(fs.last())) =~= loaded_fields(fs));
        assert((fs.len() - 1) as nat == pre.len());
    }
}

pub proof fn lemma_dec_struct(d: Seq<u8>, t: Seq<Seq<char>>, p: nat, s: StructModel, pos: nat)
    requires
        encode_struct(s, t, pos) is Ok,
        at(d, p, encode_struct(s, t, pos)->Ok_0),
        strs_in(struct_strings(s), t),
        t.len() < INVALID_INDEX,
        s.fields.len() <= u16::MAX,
    ensures
        dec_struct(d, t, p) == Ok::<(StructDesc, nat), crate::bfmt::BfmtError>(
            (loaded_struct(s), p + encode_struct(s, t, pos)->Ok_0.len())),
{
    let ni = u32_le(index_or(t, s.name@, 0));
    let cnt = u16_le(s.fields.len() as u16);
    let f = encode_fields(s.fields, t, pos + 6)->Ok_0;
    lemma_at_split(d, p, ni + cnt, f);
    lemma_at_split(d, p, ni, cnt);
    lemma_strs_in_parts(seq![s.name@], fields_strings(s.fields), t);
    assert(seq![s.name@][0] == s.name@);
    lemma_rd_name(d, t, p, s.name@, 0);
    lemma_rd_u16(d, p + 4, s.fields.len() as u16);
    lemma_dec_fields(d, t, p + 6, s.fields, pos + 6);
}

/// The structs' fields counts fit their two-byte slots.
pub open spec fn counts_fit(ss: Seq<StructModel>) -> bool {
    forall|i: int| 0 <= i < ss.len() ==> (#[trigger] ss[i]).fields.len() <= u16::MAX
}

pub proof fn lemma_dec_structs(d: Seq<u8>, t: Seq<Seq<char>>, p: nat, ss: Seq<StructModel>, pos: nat)
    requires
        encode_structs(ss, t, pos) is Ok,
        at(d, p, encode_structs(ss, t, pos)->Ok_0),
        strs_in(structs_strings(ss), t),
        t.len() < INVALID_INDEX,
        counts_fit(ss),
    ensures
        dec_structs(d, t, p, ss.len()) == Ok::<(Seq<StructDesc>, nat), crate::bfmt::BfmtError>(
            (ss.map_values(|s: StructModel| loaded_struct(s)), p + encode_structs(ss, t, pos)->Ok_0.len())),
    decreases ss.len(),
{
    if ss.len() == 0 {
        assert(ss.map_values(|s: StructModel| loaded_struct(s)) =~= Seq::<StructDesc>::empty());
    } else {
        let pre = ss.drop_last();
        let a = encode_structs(pre, t, pos)->Ok_0;
        let b = encode_struct(ss.last(), t, pos + a.len())->Ok_0;
        lemma_at_split(d, p, a, b);
        lemma_strs_in_parts(structs_strings(pre), struct_strings(ss.last()), t);
        assert(counts_fit(pre)) by {
            assert forall|i: int| 0 <= i < pre.len() implies (#[trigger] pre[i]).fields.len() <= u16::MAX by {
                assert(pre[i] == ss[i]);
            }
        }
        lemma_dec_structs(d, t, p, pre, pos);
        lemma_dec_struct(d, t, p + a.len(), ss.last(), pos + a.len());
        assert(pre.map_values(|s: StructModel| loaded_struct(s)).push(loaded_struct(ss.last()))
            =~= ss.map_values(|s: StructModel| loaded_struct(s)));
        assert((ss.len() - 1) as nat == pre.len());
    }
}

/// No two values of an enum have the same name.
pub open spec fn names_distinct(vs: Seq<(String, i64)>) -> bool {
    forall|i: int, j: int| 0 <= i < j < vs.len() ==> (#[trigger] vs[i]).0@ != (#[trigger] vs[j]).0@
}

/// The names of an enum's values.
pub open spec fn value_names(vs: Seq<(String, i64)>) -> Seq<Seq<char>> {
    vs.map_values(|q: (String, i64)| q.0@)
}

proof fn lemma_key_absent(vs: Seq<(Seq<char>, i64)>, k: Seq<char>)
    requires
        forall|i: int| 0 <= i < vs.len() ==> (#[trigger] vs[i]).0 != k,
    ensures
        key_pos(vs, k) == -1,
    decreases vs.len(),
{
    if vs.len() > 0 {
        assert(vs[vs.len() - 1].0 != k);
        lemma_key_absent(vs.drop_last(), k);
    }
}

proof fn lemma_dec_values(d: Seq<u8>, t: Seq<Seq<char>>, p: nat, vs: Seq<(String, i64)>)
    requires
        at(d, p, encode_values(vs, t)),
        strs_in(value_names(vs), t),
        names_distinct(vs),
        t.len() <= u32::MAX,
    ensures
        dec_values(d, t, p, vs.len()) == Ok::<(Seq<(Seq<char>, i64)>, nat), crate::bfmt::BfmtError>(
            (pairs_desc(vs), p + encode_values(vs, t).len())),
    decreases vs.len(),
{
    if vs.len() == 0 {
        assert(pairs_desc(vs) =~= Seq::<(Seq<char>, i64)>::empty());
    } else {
        let pre = vs.drop_last();
        let last = vs.last();
        let a = encode_values(pre, t);
        let ki = u32_le(index_or(t, last.0@, 0));
        let vb = u64_le(last.1 as u64);
        lemma_at_split(d, p, a + ki, vb);
        lemma_at_split(d, p, a, ki);
        assert(strs_in(value_names(pre), t)) by {
            assert forall|i: int| 0 <= i < pre.len() implies t.contains(#[trigger] value_names(pre)[i]) by {
                assert(value_names(pre)[i] == value_names(vs)[i]);
            }
        }
        assert(names_distinct(pre)) by {
            assert forall|i: int, j: int| 0 <= i < j < pre.len() implies (#[trigger] pre[i]).0@ != (#[trigger] pre[j]).0@ by {
                assert(pre[i] == vs[i] && pre[j] == vs[j]);
            }
        }
        lemma_dec_values(d, t, p, pre);
        assert(value_names(vs)[vs.len() - 1] == last.0@);
        lemma_rd_name(d, t, p + a.len(), last.0@, 0);
        lemma_rd_u64(d, p + a.len() + 4, last.1 as u64);
        let v = last.1;
        assert((v as u64) as i64 == v) by (bit_vector);
        let pd = pairs_desc(pre);
        assert forall|i: int| 0 <= i < pd.len() implies (#[trigger] pd[i]).0 != last.0@ by {
            assert(pd[i].0 == pre[i].0@);
            assert(pre[i] == vs[i]);
        }
        lemma_key_absent(pd, last.0@);
        assert(values_put(pd, last.0@, v) =~= pairs_desc(vs));
        assert((vs.len() - 1) as nat == pre.len());
    }
}

pub open spec fn loaded_enum(e: EnumModel) -> EnumDesc {
    EnumDesc { name: e.name@, values: pairs_desc(e.values) }
}

proof fn lemma_dec_enum(d: Seq<u8>, t: Seq<Seq<char>>, p: nat, e: EnumModel, code: u8)
    requires
        at(d, p, encode_enum(e, t, code)),
        strs_in(enum_strings(e), t),
        names_distinct(e.values),
        e.values.len() <= u16::MAX,
        t.len() <= u32::MAX,
    ensures
        dec_enum(d, t, p) == Ok::<(EnumDesc, nat), crate::bfmt::BfmtError>((loaded_enum(e), p + encode_enum(e, t, code).len())),
{
    let ni = u32_le(index_or(t, e.name@, 0));
    let cnt = u16_le(e.values.len() as u16);
    let vb = encode_values(e.values, t);
    lemma_at_split(d, p, ni + seq![code] + cnt, vb);
    lemma_at_split(d, p, ni + seq![code], cnt);
    lemma_at_split(d, p, ni, seq![code]);
    lemma_strs_in_parts(seq![e.name@], value_names(e.values), t);
    assert(seq![e.name@][0] == e.name@);
    lemma_rd_name(d, t, p, e.name@, 0);
    lemma_rd_u8(d, p + 4, code);
    lemma_rd_u16(d, p + 5, e.values.len() as u16);
    lemma_dec_values(d, t, p + 7, e.values);
}

/// Each enum's values have distinct names and fit the two-byte count.
pub open spec fn enums_fit(es: Seq<EnumModel>) -> bool {
    forall|i: int| 0 <= i < es.len() ==> names_distinct((#[trigger] es[i]).values) && es[i].values.len() <= u16::MAX
}

proof fn lemma_dec_enums(d: Seq<u8>, t: Seq<Seq<char>>, p: nat, m: FormatModel, es: Seq<EnumModel>)
    requires
        at(d, p, encode_enums(m, es, t)),
        strs_in(enums_strings(es), t),
        enums_fit(es),
        t.len() <= u32::MAX,
    ensures
        dec_enums(d, t, p, es.len()) == Ok::<(Seq<EnumDesc>, nat), crate::bfmt::BfmtError>(
            (es.map_values(|e: EnumModel| loaded_enum(e)), p + encode_enums(m, es, t).len())),
    decreases es.len(),
{
    if es.len() == 0 {
        assert(es.map_values(|e: EnumModel| loaded_enum(e)) =~= Seq::<EnumDesc>::empty());
    } else {
        let pre = es.drop_last();
        let a = encode_enums(m, pre, t);
        let b = encode_enum(es.last(), t, inferred_underlying(m, es.last().name@));
        lemma_at_split(d, p, a, b);
        lemma_strs_in_parts(enums_strings(pre), enum_strings(es.last()), t);
        assert(enums_fit(pre)) by {
            assert forall|i: int| 0 <= i < pre.len() implies names_distinct((#[trigger] pre[i]).values)
                && pre[i].values.len() <= u16::MAX by {
                assert(pre[i] == es[i]);
            }
        }
        assert(es[es.len() - 1] == es.last());
        lemma_dec_enums(d, t, p, m, pre);
        lemma_dec_enum(d, t, p + a.len(), es.last(), inferred_underlying(m, es.last().name@));
        assert(pre.map_values(|e: EnumModel| loaded_enum(e)).push(loaded_enum(es.last()))
            =~= es.map_values(|e: EnumModel| loaded_enum(e)));
        assert((es.len() - 1) as nat == pre.len());
    }
}

/// No string stands twice in the table.
pub open spec fn no_dups(t: Seq<Seq<char>>) -> bool {
    forall|i: int, j: int| 0 <= i < j < t.len() ==> #[trigger] t[i] != #[trigger] t[j]
}

/// Every string can be stored: it is not empty and its UTF-8 form fits a two-byte length.
pub open spec fn storable(xs: Seq<Seq<char>>) -> bool {
    forall|i: int| 0 <= i < xs.len() ==> (#[trigger] xs[i]).len() > 0
        && vstd::utf8::encode_utf8(xs[i]).len() <= u16::MAX
}

/// Building the table keeps each string once, keeps every string given, and
/// adds no other.
pub proof fn lemma_table_of(items: Seq<Seq<char>>)
    ensures
        no_dups(table_of(items)),
        forall|i: int| 0 <= i < items.len() ==> table_of(items).contains(#[trigger] items[i]),
        forall|x: Seq<char>| #[trigger] table_of(items).contains(x) ==> items.contains(x),
    decreases items.len(),
{
    if items.len() > 0 {
        let pre = items.drop_last();
        lemma_table_of(pre);
        let t0 = table_of(pre);
        let t = table_of(items);
        assert(t == table_insert(t0, items.last()));
        if !t0.contains(items.last()) {
            assert forall|i: int, j: int| 0 <= i < j < t.len() implies #[trigger] t[i] != #[trigger] t[j] by {
                if j == t.len() - 1 {
                    assert(t[i] == t0[i]);
                    assert(t0.contains(t0[i]));
                }
            }
        }
        assert forall|i: int| 0 <= i < items.len() implies t.contains(#[trigger] items[i]) by {
            if i < items.len() - 1 {
                assert(pre[i] == items[i]);
                assert(t0.contains(pre[i]));
                let k = choose|k: int| 0 <= k < t0.len() && t0[k] == pre[i];
                assert(t[k] == t0[k]);
            } else {
                if !t0.contains(items.last()) {
                    assert(t[t.len() - 1] == items.last());
                }
            }
        }
        assert forall|x: Seq<char>| t.contains(x) implies items.contains(x) by {
            let k = choose|k: int| 0 <= k < t.len() && t[k] == x;
            if k < t0.len() {
                assert(t[k] == t0[k]);
                assert(t0[k] == x);
                assert(table_of(pre).contains(x));
                let q = choose|q: int| 0 <= q < pre.len() && pre[q] == x;
                assert(items[q] == x);
            } else {
                assert(items[items.len() - 1] == x);
            }
        }
    }
}

proof fn lemma_utf8_nonempty(s: Seq<char>)
    requires
        s.len() > 0,
    ensures
        vstd::utf8::encode_utf8(s).len() > 0,
        vstd::utf8::valid_utf8(vstd::utf8::encode_utf8(s)),
        vstd::utf8::decode_utf8(vstd::utf8::encode_utf8(s)) == s,
{
    vstd::utf8::encode_utf8_valid_utf8(s);
    vstd::utf8::encode_utf8_decode_utf8(s);
    if vstd::utf8::encode_utf8(s).len() == 0 {
        assert(vstd::utf8::encode_utf8(s) =~= Seq::<u8>::empty());
        assert(vstd::utf8::decode_utf8(Seq::<u8>::empty()) =~= Seq::<char>::empty());
    }
}

proof fn lemma_dec_strings(d: Seq<u8>, p: nat, t: Seq<Seq<char>>, n: nat)
    requires
        n <= t.len(),
        no_dups(t),
        storable(t),
        at(d, p, table_entries(t.take(n as int))),
    ensures
        dec_strings(d, p, n) == Ok::<(Seq<Seq<char>>, nat), crate::bfmt::BfmtError>(
            (t.take(n as int), p + table_entries(t.take(n as int)).len())),
    decreases n,
{
    if n == 0 {
        assert(t.take(0) =~= Seq::<Seq<char>>::empty());
    } else {
        let tk = t.take(n as int);
        let pre = t.take(n - 1);
        assert(tk.drop_last() =~= pre);
        let x = t[n - 1];
        assert(tk.last() == x);
        let a = table_entries(pre);
        let enc = vstd::utf8::encode_utf8(x);
        assert(table_entries(tk) == a + table_entry(x));
        lemma_at_split(d, p, a, table_entry(x));
        lemma_dec_strings(d, p, t, (n - 1) as nat);
        let q = p + a.len();
        lemma_at_split(d, q, u16_le(enc.len() as u16), enc);
        lemma_rd_u16(d, q, enc.len() as u16);
        lemma_utf8_nonempty(x);
        assert(!pre.contains(x)) by {
            if pre.contains(x) {
                let k = choose|k: int| 0 <= k < pre.len() && pre[k] == x;
                assert(t[k] == x);
            }
        }
        assert(table_insert(pre, x) =~= tk);
        assert((n - 1) as nat + 1 == n);
    }
}

pub proof fn lemma_dec_table(d: Seq<u8>, p: nat, t: Seq<Seq<char>>)
    requires
        no_dups(t),
        storable(t),
        t.len() <= u32::MAX,
        at(d, p, encode_table(t)),
    ensures
        dec_table(d, p) == Ok::<(Seq<Seq<char>>, nat), crate::bfmt::BfmtError>((t, p + encode_table(t).len())),
{
    lemma_at_split(d, p, u32_le(t.len() as u32), table_entries(t));
    lemma_rd_u32(d, p, t.len() as u32);
    assert(t.take(t.len() as int) =~= t);
    lemma_dec_strings(d, p + 4, t, t.len());
}

/// A definition as it reads back from its compiled form: its structs and
/// fields as `loaded_struct` and `loaded_field` say.
pub open spec fn loaded_format(m: FormatModel) -> FormatDesc {
    FormatDesc {
        name: m.name@,
        magic: m.magic,
        enums: m.enums.map_values(|e: EnumModel| loaded_enum(e)),
        structs: m.structs.map_values(|s: StructModel| loaded_struct(s)),
        root: loaded_struct(m.root),
    }
}

/// What the compiled form can hold: every string of the table is non-empty
/// with a UTF-8 length that fits two bytes, the table's indexes stay below the
/// index that marks "none", every count fits its slot, the values of each enum
/// have distinct names, and a magic has between one and 255 bytes.
pub open spec fn fits_compiled_form(m: FormatModel) -> bool {
    &&& storable(def_strings(m))
    &&& table_of(def_strings(m)).len() < INVALID_INDEX
    &&& m.structs.len() + 1 <= u32::MAX
    &&& m.enums.len() <= u32::MAX
    &&& counts_fit(m.structs)
    &&& m.root.fields.len() <= u16::MAX
    &&& enums_fit(m.enums)
    &&& match m.magic { Some(mb) => 0 < mb.len() < 256, None => true }
}

proof fn lemma_dec_magic(d: Seq<u8>, p: nat, magic: Option<Seq<u8>>)
    requires
        at(d, p, encode_magic(magic)),
        match magic { Some(mb) => 0 < mb.len() < 256, None => true },
    ensures
        dec_magic(d, p) == Ok::<Option<Seq<u8>>, crate::bfmt::BfmtError>(magic),
{
    match magic {
        Some(mb) => {
            lemma_at_split(d, p, seq![mb.len() as u8], mb);
            lemma_rd_u8(d, p, mb.len() as u8);
        },
        None => {
            lemma_rd_u8(d, p, 0u8);
        },
    }
}

proof fn lemma_dec_tail(d: Seq<u8>, t: Seq<Seq<char>>, es: Seq<EnumDesc>, m: FormatModel, p: nat)
    requires
        encode_structs(m.structs, t, p) is Ok,
        encode_struct(m.root, t, p + encode_structs(m.structs, t, p)->Ok_0.len()) is Ok,
        at(d, p, encode_structs(m.structs, t, p)->Ok_0
            + encode_struct(m.root, t, p + encode_structs(m.structs, t, p)->Ok_0.len())->Ok_0
            + u32_le(index_or(t, m.root.name@, 0)) + u32_le(index_or(t, m.name@, 0)) + encode_magic(m.magic)),
        strs_in(structs_strings(m.structs), t),
        strs_in(struct_strings(m.root), t),
        t.contains(m.name@),
        t.len() < INVALID_INDEX,
        counts_fit(m.structs),
        m.root.fields.len() <= u16::MAX,
        match m.magic { Some(mb) => 0 < mb.len() < 256, None => true },
    ensures
        dec_rest(d, t, es, p, m.structs.len()) == Ok::<FormatDesc, crate::bfmt::BfmtError>(
            FormatDesc { enums: es, ..loaded_format(m) }),
{
    let sb = encode_structs(m.structs, t, p)->Ok_0;
    let rb = encode_struct(m.root, t, p + sb.len())->Ok_0;
    let ri = u32_le(index_or(t, m.root.name@, 0));
    let ni = u32_le(index_or(t, m.name@, 0));
    let mg = encode_magic(m.magic);
    lemma_at_split(d, p, sb + rb + ri + ni, mg);
    lemma_at_split(d, p, sb + rb + ri, ni);
    lemma_at_split(d, p, sb + rb, ri);
    lemma_at_split(d, p, sb, rb);
    lemma_dec_structs(d, t, p, m.structs, p);
    lemma_dec_struct(d, t, p + sb.len(), m.root, p + sb.len());
    let p4 = p + sb.len() + rb.len();
    lemma_rd_u32(d, p4, index_or(t, m.root.name@, 0));
    lemma_rd_name(d, t, p4 + 4, m.name@, 0);
    lemma_dec_magic(d, p4 + 8, m.magic);
}

proof fn lemma_table_facts(m: FormatModel)
    requires
        storable(def_strings(m)),
    ensures
        no_dups(table_of(def_strings(m))),
        storable(table_of(def_strings(m))),
        strs_in(enums_strings(m.enums), table_of(def_strings(m))),
        strs_in(structs_strings(m.structs), table_of(def_strings(m))),
        strs_in(struct_strings(m.root), table_of(def_strings(m))),
        table_of(def_strings(m)).contains(m.name@),
{
    let items = def_strings(m);
    let t = table_of(items);
    lemma_table_of(items);
    assert(storable(t)) by {
        assert forall|i: int| 0 <= i < t.len() implies (#[trigger] t[i]).len() > 0
            && vstd::utf8::encode_utf8(t[i]).len() <= u16::MAX by {
            assert(t.contains(t[i]));
            assert(items.contains(t[i]));
            let k = choose|k: int| 0 <= k < items.len() && items[k] == t[i];
            assert(items[k].len() > 0);
        }
    }
    assert(strs_in(items, t));
    assert(items == seq![m.name@] + enums_strings(m.enums) + structs_strings(m.structs) + struct_strings(m.root));
    lemma_strs_in_parts(seq![m.name@] + enums_strings(m.enums) + structs_strings(m.structs), struct_strings(m.root), t);
    lemma_strs_in_parts(seq![m.name@] + enums_strings(m.enums), structs_strings(m.structs), t);
    lemma_strs_in_parts(seq![m.name@], enums_strings(m.enums), t);
    assert(seq![m.name@][0] == m.name@);
}

proof fn lemma_dec_header(d: Seq<u8>, m: FormatModel, debug: bool)
    requires
        at(d, 0, encode_header(m, debug)),
        m.structs.len() + 1 <= u32::MAX,
        m.enums.len() <= u32::MAX,
    ensures
        d.len() >= 4,
        d.subrange(0, 4) == bfmt_magic(),
        rd_u16(d, 4) == Ok::<u16, crate::bfmt::BfmtError>(VERSION),
        rd_u16(d, 6) is Ok,
        rd_u32(d, 8) == Ok::<u32, crate::bfmt::BfmtError>((m.structs.len() + 1) as u32),
        rd_u32(d, 12) == Ok::<u32, crate::bfmt::BfmtError>(m.enums.len() as u32),
        encode_header(m, debug).len() == 16,
{
    let sc = (m.structs.len() as u32 + 1) as u32;
    let ec = m.enums.len() as u32;
    let fl = u16_le(if debug { FLAG_DEBUG } else { 0 });
    lemma_u16_roundtrip(VERSION);
    lemma_u32_roundtrip(sc);
    lemma_u32_roundtrip(ec);
    lemma_u16_roundtrip(if debug { FLAG_DEBUG } else { 0 });
    assert(encode_header(m, debug) == magic_bytes() + u16_le(VERSION) + fl + u32_le(sc) + u32_le(ec));
    lemma_at_split(d, 0, magic_bytes() + u16_le(VERSION) + fl + u32_le(sc), u32_le(ec));
    lemma_at_split(d, 0, magic_bytes() + u16_le(VERSION) + fl, u32_le(sc));
    lemma_at_split(d, 0, magic_bytes() + u16_le(VERSION), fl);
    lemma_at_split(d, 0, magic_bytes(), u16_le(VERSION));
    lemma_rd_u16(d, 4, VERSION);
    lemma_rd_u16(d, 6, if debug { FLAG_DEBUG } else { 0 });
    lemma_rd_u32(d, 8, sc);
    lemma_rd_u32(d, 12, ec);
}

/// The structs, root, trailer and magic that compiling writes after the enums at `p`.
pub open spec fn rest_bytes(m: FormatModel, t: Seq<Seq<char>>, p: nat) -> Seq<u8> {
    let sb = encode_structs(m.structs, t, p)->Ok_0;
    let rb = encode_struct(m.root, t, p + sb.len())->Ok_0;
    sb + rb + u32_le(index_or(t, m.root.name@, 0)) + u32_le(index_or(t, m.name@, 0)) + encode_magic(m.magic)
}

proof fn lemma_layout(m: FormatModel, debug: bool)
    requires
        compile_spec(m, debug) is Ok,
    ensures ({
        let b = compile_spec(m, debug)->Ok_0;
        let t = table_of(def_strings(m));
        let hdr = encode_header(m, debug);
        let tbl = encode_table(t);
        let ens = encode_enums(m, m.enums, t);
        let p = hdr.len() + tbl.len() + ens.len();
        &&& at(b, 0, hdr)
        &&& at(b, hdr.len(), tbl)
        &&& at(b, hdr.len() + tbl.len(), ens)
        &&& encode_structs(m.structs, t, p) is Ok
        &&& encode_struct(m.root, t, p + encode_structs(m.structs, t, p)->Ok_0.len()) is Ok
        &&& at(b, p, rest_bytes(m, t, p))
    }),
{
    let b = compile_spec(m, debug)->Ok_0;
    let t = table_of(def_strings(m));
    let hdr = encode_header(m, debug);
    let tbl = encode_table(t);
    let ens = encode_enums(m, m.enums, t);
    let pre = hdr + tbl + ens;
    let rest = rest_bytes(m, t, pre.len());
    let z: Seq<u8> = if debug { zeros(4 * count_all_fields(m.structs.push(m.root))) } else { Seq::empty() };
    assert(b =~= (pre + rest) + z);
    assert(at(b, 0, b)) by { assert(b.subrange(0, b.len() as int) =~= b); }
    lemma_at_split(b, 0, pre + rest, z);
    lemma_at_split(b, 0, pre, rest);
    lemma_at_split(b, 0, hdr + tbl, ens);
    lemma_at_split(b, 0, hdr, tbl);
}

proof fn lemma_after_magic_parts(b: Seq<u8>, t: Seq<Seq<char>>, es: Seq<EnumDesc>, sc: u32, ec: u32, p1: nat, p2: nat,
    x: FormatDesc)
    requires
        rd_u16(b, 4) == Ok::<u16, crate::bfmt::BfmtError>(VERSION),
        rd_u16(b, 6) is Ok,
        rd_u32(b, 8) == Ok::<u32, crate::bfmt::BfmtError>(sc),
        rd_u32(b, 12) == Ok::<u32, crate::bfmt::BfmtError>(ec),
        sc >= 1,
        dec_table(b, 16) == Ok::<(Seq<Seq<char>>, nat), crate::bfmt::BfmtError>((t, p1)),
        dec_enums(b, t, p1, ec as nat) == Ok::<(Seq<EnumDesc>, nat), crate::bfmt::BfmtError>((es, p2)),
        dec_rest(b, t, es, p2, (sc - 1) as nat) == Ok::<FormatDesc, crate::bfmt::BfmtError>(x),
    ensures
        after_magic(b) == Ok::<FormatDesc, crate::bfmt::BfmtError>(x),
{
}

/// Reading back a compiled definition gives the definition, as
/// `loaded_format` describes it, wherever the compiled form can hold it: the
/// bytes start with the format's magic and what follows the magic decodes to
/// `loaded_format(m)`.
pub proof fn lemma_compile_then_load(m: FormatModel, debug: bool)
    requires
        fits_compiled_form(m),
        compile_spec(m, debug) is Ok,
    ensures
        compile_spec(m, debug)->Ok_0.len() >= 4,
        compile_spec(m, debug)->Ok_0.subrange(0, 4) == bfmt_magic(),
        after_magic(compile_spec(m, debug)->Ok_0) == Ok::<FormatDesc, crate::bfmt::BfmtError>(loaded_format(m)),
{
    let b = compile_spec(m, debug)->Ok_0;
    let t = table_of(def_strings(m));
    let hdr = encode_header(m, debug);
    let tbl = encode_table(t);
    let ens = encode_enums(m, m.enums, t);
    let p = hdr.len() + tbl.len() + ens.len();
    lemma_layout(m, debug);
    lemma_table_facts(m);
    lemma_dec_header(b, m, debug);
    lemma_dec_table(b, 16, t);
    let es = m.enums.map_values(|e: EnumModel| loaded_enum(e));
    lemma_dec_enums(b, t, 16 + tbl.len(), m, m.enums);
    lemma_dec_tail(b, t, es, m, p);
    let sc = (m.structs.len() + 1) as u32;
    assert((sc - 1) as nat == m.structs.len());
    assert(FormatDesc { enums: es, ..loaded_format(m) } == loaded_format(m));
    lemma_after_magic_parts(b, t, es, sc, m.enums.len() as u32, 16 + tbl.len(), p, loaded_format(m));
}

} // verus!
