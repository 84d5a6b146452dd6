use vstd::prelude::*;
use crate::yaml::{
    parse_yaml, yaml_document,
    YamlValue, as_str, as_u64, as_mapping, map_get, lemma_lookup_smaller, lemma_find_key_bounds,
    find_key, yaml_as_str, yaml_as_u64, yaml_as_mapping, yaml_get,
};
use crate::text::{str_eq, parse_usize, parse_usize_spec, chars_of, contains_string, join_spec};

verus! {

/// Errors from reading and checking a format definition.
#[derive(Debug)]
pub enum DslError {
    YamlError(String),
    CircularReference(String),
    InvalidExpression(String),
    UnknownStruct(String),
    UnknownEnum(String),
    InvalidDataType(String),
}

/// The text an error reads as.
pub open spec fn dsl_error_text(e: DslError) -> Seq<char> {
    match e {
        DslError::YamlError(m) => "YAML parse error: "@ + m@,
        DslError::CircularReference(m) => "Circular reference detected: "@ + m@,
        DslError::InvalidExpression(m) => "Invalid expression: "@ + m@,
        DslError::UnknownStruct(m) => "Unknown struct: "@ + m@,
        DslError::UnknownEnum(m) => "Unknown enum: "@ + m@,
        DslError::InvalidDataType(m) => "Invalid data type: "@ + m@,
    }
}

impl DslError {
    /// The error's text.
    pub fn message(&self) -> (r: String)
        ensures
            r@ == dsl_error_text(*self),
    {
        let (head, m) = match self {
            DslError::YamlError(m) => ("YAML parse error: ", m),
            DslError::CircularReference(m) => ("Circular reference detected: ", m),
            DslError::InvalidExpression(m) => ("Invalid expression: ", m),
            DslError::UnknownStruct(m) => ("Unknown struct: ", m),
            DslError::UnknownEnum(m) => ("Unknown enum: ", m),
            DslError::InvalidDataType(m) => ("Invalid data type: ", m),
        };
        let mut s = crate::text::owned(head);
        crate::text::push_str(&mut s, m.as_str());
        s
    }
}

#[derive(Debug, Clone, Copy, PartialEq, Eq, Structural)]
pub enum Endian {
    Little,
    Big,
}

impl Default for Endian {
    fn default() -> (r: Self)
        ensures
            r == Endian::Little,
    {
        Endian::Little
    }
}

#[derive(Debug, Clone, Copy, PartialEq, Eq, Structural)]
pub enum DisplayFormat {
    Hex,
    Dec,
    Bin,
    Ascii,
    Utf8,
}

impl Default for DisplayFormat {
    fn default() -> (r: Self)
        ensures
            r == DisplayFormat::Hex,
    {
        DisplayFormat::Hex
    }
}

/// The type of a field.
#[derive(Debug, PartialEq, Eq)]
pub enum DataType {
    U8,
    U16,
    U32,
    U64,
    I8,
    I16,
    I32,
    I64,
    F32,
    F64,
    Bytes { length: String },
    String { length: String, encoding: Option<String> },
    BitField { bit_start: u8, bit_length: u8 },
    Struct { name: String },
    Array { element_type: Box<DataType>, length: String },
    Enum { name: String, underlying: Box<DataType> },
}

} // verus!

verus! {

/// The primitive type a type name denotes.
pub open spec fn primitive_type(s: Seq<char>) -> Option<DataType> {
    if s == "u8"@ { Some(DataType::U8) }
    else if s == "u16"@ { Some(DataType::U16) }
    else if s == "u32"@ { Some(DataType::U32) }
    else if s == "u64"@ { Some(DataType::U64) }
    else if s == "i8"@ { Some(DataType::I8) }
    else if s == "i16"@ { Some(DataType::I16) }
    else if s == "i32"@ { Some(DataType::I32) }
    else if s == "i64"@ { Some(DataType::I64) }
    else if s == "f32"@ { Some(DataType::F32) }
    else if s == "f64"@ { Some(DataType::F64) }
    else { None }
}

/// The string stored under `key` in a mapping node.
pub open spec fn str_at(m: Vec<(YamlValue, YamlValue)>, key: Seq<char>) -> Option<String> {
    match map_get(m@, key) {
        Some(x) => as_str(x),
        None => None,
    }
}

/// The mapping stored under `key` in a mapping node.
pub open spec fn mapping_at(m: Vec<(YamlValue, YamlValue)>, key: Seq<char>) -> Option<Vec<(YamlValue, YamlValue)>> {
    match map_get(m@, key) {
        Some(x) => as_mapping(x),
        None => None,
    }
}

/// The data type a YAML node describes: a type name, or a mapping with one of
/// the keys `bytes`, `string`, `bit_field`, `struct`, `array`, `enum`
/// (tried in that order). `None` where the node describes no type.
pub open spec fn data_type_of(v: YamlValue) -> Option<DataType>
    decreases v,
{
    match v {
        YamlValue::Str(s) => primitive_type(s@),
        YamlValue::Mapping(m) => {
            if map_get(m@, "bytes"@) is Some {
                match mapping_at(m, "bytes"@) {
                    Some(inner) => match str_at(inner, "length"@) {
                        Some(length) => Some(DataType::Bytes { length }),
                        None => None,
                    },
                    None => None,
                }
            } else if map_get(m@, "string"@) is Some {
                match mapping_at(m, "string"@) {
                    Some(inner) => match str_at(inner, "length"@) {
                        Some(length) => Some(DataType::String { length, encoding: str_at(inner, "encoding"@) }),
                        None => None,
                    },
                    None => None,
                }
            } else if map_get(m@, "bit_field"@) is Some {
                match mapping_at(m, "bit_field"@) {
                    Some(inner) => {
                        let bs = match map_get(inner@, "bit_start"@) { Some(x) => as_u64(x), None => None };
                        let bl = match map_get(inner@, "bit_length"@) { Some(x) => as_u64(x), None => None };
                        match (bs, bl) {
                            (Some(a), Some(b)) => Some(DataType::BitField { bit_start: a as u8, bit_length: b as u8 }),
                            _ => None,
                        }
                    },
                    None => None,
                }
            } else if map_get(m@, "struct"@) is Some {
                let sv = map_get(m@, "struct"@).unwrap();
                match as_str(sv) {
                    Some(name) => Some(DataType::Struct { name }),
                    None => match as_mapping(sv) {
                        Some(inner) => match str_at(inner, "name"@) {
                            Some(name) => Some(DataType::Struct { name }),
                            None => None,
                        },
                        None => None,
                    },
                }
            } else if map_get(m@, "array"@) is Some {
                match mapping_at(m, "array"@) {
                    Some(inner) => match map_get(inner@, "element_type"@) {
                        Some(et) => {
                            proof { lemma_two_step(v, "array"@, "element_type"@); }
                            match data_type_of(et) {
                                Some(element) => match str_at(inner, "length"@) {
                                    Some(length) => Some(DataType::Array { element_type: Box::new(element), length }),
                                    None => None,
                                },
                                None => None,
                            }
                        },
                        None => None,
                    },
                    None => None,
                }
            } else if map_get(m@, "enum"@) is Some {
                match mapping_at(m, "enum"@) {
                    Some(inner) => match str_at(inner, "name"@) {
                        Some(name) => match map_get(inner@, "underlying"@) {
                            Some(u) => {
                                proof { lemma_two_step(v, "enum"@, "underlying"@); }
                                match data_type_of(u) {
                                    Some(ut) => Some(DataType::Enum { name, underlying: Box::new(ut) }),
                                    None => None,
                                }
                            },
                            None => None,
                        },
                        None => None,
                    },
                    None => None,
                }
            } else {
                None
            }
        },
        _ => None,
    }
}

/// A node two lookups below a mapping node is smaller than it.
pub proof fn lemma_two_step(v: YamlValue, k1: Seq<char>, k2: Seq<char>)
    ensures
        v matches YamlValue::Mapping(m) ==> (mapping_at(m, k1) matches Some(inner) ==> (map_get(inner@, k2) matches Some(y) ==> decreases_to!(v => y))),
{
    lemma_lookup_smaller(v, k1);
    if let YamlValue::Mapping(m) = v {
        if let Some(x) = map_get(m@, k1) {
            lemma_lookup_smaller(x, k2);
        }
    }
}

} // verus!

verus! {

fn primitive_type_exec(s: &str) -> (r: Option<DataType>)
    ensures
        r == primitive_type(s@),
{
    if str_eq(s, "u8") { Some(DataType::U8) }
    else if str_eq(s, "u16") { Some(DataType::U16) }
    else if str_eq(s, "u32") { Some(DataType::U32) }
    else if str_eq(s, "u64") { Some(DataType::U64) }
    else if str_eq(s, "i8") { Some(DataType::I8) }
    else if str_eq(s, "i16") { Some(DataType::I16) }
    else if str_eq(s, "i32") { Some(DataType::I32) }
    else if str_eq(s, "i64") { Some(DataType::I64) }
    else if str_eq(s, "f32") { Some(DataType::F32) }
    else if str_eq(s, "f64") { Some(DataType::F64) }
    else { None }
}

fn str_at_exec(m: &Vec<(YamlValue, YamlValue)>, key: &str) -> (r: Option<String>)
    ensures
        r == str_at(*m, key@),
{
    match yaml_get(m, key) {
        Some(x) => match yaml_as_str(x) {
            Some(s) => Some(s.clone()),
            None => None,
        },
        None => None,
    }
}

fn mapping_at_exec<'a>(m: &'a Vec<(YamlValue, YamlValue)>, key: &str) -> (r: Option<&'a Vec<(YamlValue, YamlValue)>>)
    ensures
        match mapping_at(*m, key@) {
            Some(x) => r matches Some(y) && *y == x,
            None => r is None,
        },
{
    match yaml_get(m, key) {
        Some(x) => yaml_as_mapping(x),
        None => None,
    }
}

fn u64_at_exec(m: &Vec<(YamlValue, YamlValue)>, key: &str) -> (r: Option<u64>)
    ensures
        r == (match map_get(m@, key@) { Some(x) => as_u64(x), None => None }),
{
    match yaml_get(m, key) {
        Some(x) => yaml_as_u64(x),
        None => None,
    }
}

/// Why a YAML node describes no data type: the first thing found missing or
/// of the wrong kind, looked for in the order `data_type_of` reads the node.
pub open spec fn data_type_error(v: YamlValue) -> Seq<char>
    decreases v,
{
    match v {
        YamlValue::Str(s) => "Unknown data type: "@ + s@,
        YamlValue::Mapping(m) => {
            if map_get(m@, "bytes"@) is Some {
                if mapping_at(m, "bytes"@) is None { "bytes must be a mapping"@ } else { "Missing 'length' for bytes type"@ }
            } else if map_get(m@, "string"@) is Some {
                if mapping_at(m, "string"@) is None { "string must be a mapping"@ } else { "Missing 'length' for string type"@ }
            } else if map_get(m@, "bit_field"@) is Some {
                match mapping_at(m, "bit_field"@) {
                    None => "bit_field must be a mapping"@,
                    Some(inner) => if (match map_get(inner@, "bit_start"@) { Some(x) => as_u64(x), None => None }) is None {
                        "Missing 'bit_start' for bit_field type"@
                    } else {
                        "Missing 'bit_length' for bit_field type"@
                    },
                }
            } else if map_get(m@, "struct"@) is Some {
                if as_mapping(map_get(m@, "struct"@).unwrap()) is Some {
                    "Missing 'name' for struct type"@
                } else {
                    "struct value must be a string or mapping"@
                }
            } else if map_get(m@, "array"@) is Some {
                match mapping_at(m, "array"@) {
                    None => "array must be a mapping"@,
                    Some(inner) => match map_get(inner@, "element_type"@) {
                        None => "Missing 'element_type' for array type"@,
                        Some(et) => {
                            proof { lemma_two_step(v, "array"@, "element_type"@); }
                            if data_type_of(et) is None { data_type_error(et) } else { "Missing 'length' for array type"@ }
                        },
                    },
                }
            } else if map_get(m@, "enum"@) is Some {
                match mapping_at(m, "enum"@) {
                    None => "enum value must be a mapping"@,
                    Some(inner) => if str_at(inner, "name"@) is None {
                        "Missing 'name' for enum type"@
                    } else {
                        match map_get(inner@, "underlying"@) {
                            None => "Missing 'underlying' for enum type"@,
                            Some(u) => {
                                proof { lemma_two_step(v, "enum"@, "underlying"@); }
                                data_type_error(u)
                            },
                        }
                    },
                }
            } else {
                "Invalid data type format: expected type name or bytes/string/bit_field/struct/array/enum object"@
            }
        },
        _ => "Invalid data type format: expected string or object"@,
    }
}

impl DataType {
    /// Reads a data type from a YAML node; the message says what is missing.
    pub fn from_yaml_value(value: &YamlValue) -> (r: Result<DataType, String>)
        ensures
            match data_type_of(*value) {
                Some(t) => r == Ok::<DataType, String>(t),
                None => (r matches Err(m) && m@ == data_type_error(*value)),
            },
        decreases value,
    {
        match value {
            YamlValue::Str(s) => match primitive_type_exec(s.as_str()) {
                Some(t) => Ok(t),
                None => {
                    let mut msg = crate::text::owned("Unknown data type: ");
                    crate::text::push_str(&mut msg, s.as_str());
                    Err(msg)
                },
            },
            YamlValue::Mapping(m) => {
                if yaml_get(m, "bytes").is_some() {
                    let inner = match mapping_at_exec(m, "bytes") {
                        Some(x) => x,
                        None => return Err(crate::text::owned("bytes must be a mapping")),
                    };
                    match str_at_exec(inner, "length") {
                        Some(length) => Ok(DataType::Bytes { length }),
                        None => Err(crate::text::owned("Missing 'length' for bytes type")),
                    }
                } else if yaml_get(m, "string").is_some() {
                    let inner = match mapping_at_exec(m, "string") {
                        Some(x) => x,
                        None => return Err(crate::text::owned("string must be a mapping")),
                    };
                    match str_at_exec(inner, "length") {
                        Some(length) => Ok(DataType::String { length, encoding: str_at_exec(inner, "encoding") }),
                        None => Err(crate::text::owned("Missing 'length' for string type")),
                    }
                } else if yaml_get(m, "bit_field").is_some() {
                    let inner = match mapping_at_exec(m, "bit_field") {
                        Some(x) => x,
                        None => return Err(crate::text::owned("bit_field must be a mapping")),
                    };
                    let bs = match u64_at_exec(inner, "bit_start") {
                        Some(a) => a,
                        None => return Err(crate::text::owned("Missing 'bit_start' for bit_field type")),
                    };
                    let bl = match u64_at_exec(inner, "bit_length") {
                        Some(b) => b,
                        None => return Err(crate::text::owned("Missing 'bit_length' for bit_field type")),
                    };
                    Ok(DataType::BitField { bit_start: bs as u8, bit_length: bl as u8 })
                } else if yaml_get(m, "struct").is_some() {
                    let sv = yaml_get(m, "struct").unwrap();
                    match yaml_as_str(sv) {
                        Some(name) => Ok(DataType::Struct { name: name.clone() }),
                        None => match yaml_as_mapping(sv) {
                            Some(inner) => match str_at_exec(inner, "name") {
                                Some(name) => Ok(DataType::Struct { name }),
                                None => Err(crate::text::owned("Missing 'name' for struct type")),
                            },
                            None => Err(crate::text::owned("struct value must be a string or mapping")),
                        },
                    }
                } else if yaml_get(m, "array").is_some() {
                    let inner = match mapping_at_exec(m, "array") {
                        Some(x) => x,
                        None => return Err(crate::text::owned("array must be a mapping")),
                    };
                    let et = match yaml_get(inner, "element_type") {
                        Some(x) => x,
                        None => return Err(crate::text::owned("Missing 'element_type' for array type")),
                    };
                    proof { lemma_two_step(*value, "array"@, "element_type"@); }
                    let element = match DataType::from_yaml_value(et) {
                        Ok(t) => t,
                        Err(e) => return Err(e),
                    };
                    match str_at_exec(inner, "length") {
                        Some(length) => Ok(DataType::Array { element_type: Box::new(element), length }),
                        None => Err(crate::text::owned("Missing 'length' for array type")),
                    }
                } else if yaml_get(m, "enum").is_some() {
                    match mapping_at_exec(m, "enum") {
                        Some(inner) => {
                            let name = match str_at_exec(inner, "name") {
                                Some(n) => n,
                                None => return Err(crate::text::owned("Missing 'name' for enum type")),
                            };
                            let u = match yaml_get(inner, "underlying") {
                                Some(x) => x,
                                None => return Err(crate::text::owned("Missing 'underlying' for enum type")),
                            };
                            proof { lemma_two_step(*value, "enum"@, "underlying"@); }
                            match DataType::from_yaml_value(u) {
                                Ok(ut) => Ok(DataType::Enum { name, underlying: Box::new(ut) }),
                                Err(e) => Err(e),
                            }
                        },
                        None => Err(crate::text::owned("enum value must be a mapping")),
                    }
                } else {
                    Err(crate::text::owned("Invalid data type format: expected type name or bytes/string/bit_field/struct/array/enum object"))
                }
            },
            _ => Err(crate::text::owned("Invalid data type format: expected string or object")),
        }
    }
}

} // verus!

verus! {

#[derive(Debug, PartialEq, Eq)]
pub struct Condition {
    pub expression: String,
}

#[derive(Debug, PartialEq, Eq)]
pub struct ChecksumField {
    pub algorithm: String,
    pub start: String,
    pub end: String,
}

#[derive(Debug, PartialEq, Eq)]
pub struct Field {
    pub name: String,
    pub offset: Option<String>,
    pub data_type: DataType,
    pub endian: Endian,
    pub display_format: DisplayFormat,
    pub condition: Option<Condition>,
    pub checksum: Option<ChecksumField>,
    pub description: Option<String>,
}

/// A named set of values; the pairs keep the order of the definition.
#[derive(Debug, PartialEq, Eq)]
pub struct EnumDefinition {
    pub name: String,
    pub values: Vec<(String, i64)>,
}

#[derive(Debug, PartialEq, Eq)]
pub struct StructDefinition {
    pub name: String,
    pub magic: Option<Vec<u8>>,
    pub fields: Vec<Field>,
}

#[derive(Debug, PartialEq, Eq)]
pub struct FormatDefinition {
    pub name: String,
    pub magic: Option<Vec<u8>>,
    pub enums: Vec<EnumDefinition>,
    pub structs: Vec<StructDefinition>,
    pub root: StructDefinition,
}

pub struct EnumModel {
    pub name: String,
    pub values: Seq<(String, i64)>,
}

pub struct StructModel {
    pub name: String,
    pub magic: Option<Seq<u8>>,
    pub fields: Seq<Field>,
}

pub struct FormatModel {
    pub name: String,
    pub magic: Option<Seq<u8>>,
    pub enums: Seq<EnumModel>,
    pub structs: Seq<StructModel>,
    pub root: StructModel,
}

pub open spec fn bytes_view(m: Option<Vec<u8>>) -> Option<Seq<u8>> {
    match m {
        Some(v) => Some(v@),
        None => None,
    }
}

impl View for EnumDefinition {
    type V = EnumModel;

    open spec fn view(&self) -> EnumModel {
        EnumModel { name: self.name, values: self.values@ }
    }
}

impl View for StructDefinition {
    type V = StructModel;

    open spec fn view(&self) -> StructModel {
        StructModel { name: self.name, magic: bytes_view(self.magic), fields: self.fields@ }
    }
}

impl View for FormatDefinition {
    type V = FormatModel;

    open spec fn view(&self) -> FormatModel {
        FormatModel {
            name: self.name,
            magic: bytes_view(self.magic),
            enums: self.enums@.map_values(|e: EnumDefinition| e@),
            structs: self.structs@.map_values(|s: StructDefinition| s@),
            root: self.root@,
        }
    }
}

/// A data type with its names taken as text.
pub enum TypeDesc {
    U8,
    U16,
    U32,
    U64,
    I8,
    I16,
    I32,
    I64,
    F32,
    F64,
    Bytes(Seq<char>),
    Str(Seq<char>, Option<Seq<char>>),
    BitField(u8, u8),
    Struct(Seq<char>),
    Array(Box<TypeDesc>, Seq<char>),
    Enum(Seq<char>, Box<TypeDesc>),
}

/// A field with its names and expressions taken as text.
pub struct FieldDesc {
    pub name: Seq<char>,
    pub offset: Option<Seq<char>>,
    pub data_type: TypeDesc,
    pub endian: Endian,
    pub display_format: DisplayFormat,
    pub condition: Option<Seq<char>>,
    /// Algorithm, start and end.
    pub checksum: Option<(Seq<char>, Seq<char>, Seq<char>)>,
    pub description: Option<Seq<char>>,
}

pub struct StructDesc {
    pub name: Seq<char>,
    pub magic: Option<Seq<u8>>,
    pub fields: Seq<FieldDesc>,
}

pub struct EnumDesc {
    pub name: Seq<char>,
    pub values: Seq<(Seq<char>, i64)>,
}

pub struct FormatDesc {
    pub name: Seq<char>,
    pub magic: Option<Seq<u8>>,
    pub enums: Seq<EnumDesc>,
    pub structs: Seq<StructDesc>,
    pub root: StructDesc,
}

pub open spec fn opt_text(s: Option<String>) -> Option<Seq<char>> {
    match s {
        Some(t) => Some(t@),
        None => None,
    }
}

pub open spec fn type_desc(dt: DataType) -> TypeDesc
    decreases dt,
{
    match dt {
        DataType::U8 => TypeDesc::U8,
        DataType::U16 => TypeDesc::U16,
        DataType::U32 => TypeDesc::U32,
        DataType::U64 => TypeDesc::U64,
        DataType::I8 => TypeDesc::I8,
        DataType::I16 => TypeDesc::I16,
        DataType::I32 => TypeDesc::I32,
        DataType::I64 => TypeDesc::I64,
        DataType::F32 => TypeDesc::F32,
        DataType::F64 => TypeDesc::F64,
        DataType::Bytes { length } => TypeDesc::Bytes(length@),
        DataType::String { length, encoding } => TypeDesc::Str(length@, opt_text(encoding)),
        DataType::BitField { bit_start, bit_length } => TypeDesc::BitField(bit_start, bit_length),
        DataType::Struct { name } => TypeDesc::Struct(name@),
        DataType::Array { element_type, length } => TypeDesc::Array(Box::new(type_desc(*element_type)), length@),
        DataType::Enum { name, underlying } => TypeDesc::Enum(name@, Box::new(type_desc(*underlying))),
    }
}

pub open spec fn field_desc(f: Field) -> FieldDesc {
    FieldDesc {
        name: f.name@,
        offset: opt_text(f.offset),
        data_type: type_desc(f.data_type),
        endian: f.endian,
        display_format: f.display_format,
        condition: match f.condition { Some(c) => Some(c.expression@), None => None },
        checksum: match f.checksum { Some(c) => Some((c.algorithm@, c.start@, c.end@)), None => None },
        description: opt_text(f.description),
    }
}

pub open spec fn fields_desc(fs: Seq<Field>) -> Seq<FieldDesc> {
    fs.map_values(|f: Field| field_desc(f))
}

pub open spec fn struct_desc(s: StructDefinition) -> StructDesc {
    StructDesc { name: s.name@, magic: bytes_view(s.magic), fields: fields_desc(s.fields@) }
}

pub open spec fn structs_desc(ss: Seq<StructDefinition>) -> Seq<StructDesc> {
    ss.map_values(|s: StructDefinition| struct_desc(s))
}

pub open spec fn enums_desc(es: Seq<EnumDefinition>) -> Seq<EnumDesc> {
    es.map_values(|e: EnumDefinition| enum_desc(e))
}

pub open spec fn pairs_desc(vs: Seq<(String, i64)>) -> Seq<(Seq<char>, i64)> {
    vs.map_values(|p: (String, i64)| (p.0@, p.1))
}

pub open spec fn enum_desc(e: EnumDefinition) -> EnumDesc {
    EnumDesc { name: e.name@, values: pairs_desc(e.values@) }
}

pub open spec fn format_desc(d: FormatDefinition) -> FormatDesc {
    FormatDesc {
        name: d.name@,
        magic: bytes_view(d.magic),
        enums: enums_desc(d.enums@),
        structs: structs_desc(d.structs@),
        root: struct_desc(d.root),
    }
}

// ---------------------------------------------------------------------
// Reading a definition from a YAML tree.
// ---------------------------------------------------------------------

/// The text of a scalar, as a string-typed field reads it.
pub open spec fn text_of(v: YamlValue) -> Option<String> {
    match v {
        YamlValue::Str(s) => Some(s),
        YamlValue::Int(_, t) => Some(t),
        YamlValue::Float(t) => Some(t),
        _ => None,
    }
}

/// A required string field.
pub open spec fn req_text_at(m: Seq<(YamlValue, YamlValue)>, key: Seq<char>) -> Option<String> {
    match map_get(m, key) {
        Some(x) => text_of(x),
        None => None,
    }
}

/// An optional string field: `Some(None)` when absent or null.
pub open spec fn opt_text_at(m: Seq<(YamlValue, YamlValue)>, key: Seq<char>) -> Option<Option<String>> {
    match map_get(m, key) {
        None => Some(None),
        Some(YamlValue::Null) => Some(None),
        Some(x) => match text_of(x) {
            Some(t) => Some(Some(t)),
            None => None,
        },
    }
}

pub open spec fn endian_at(m: Seq<(YamlValue, YamlValue)>) -> Option<Endian> {
    match map_get(m, "endian"@) {
        None => Some(Endian::Little),
        Some(YamlValue::Str(s)) => if s@ == "little"@ {
            Some(Endian::Little)
        } else if s@ == "big"@ {
            Some(Endian::Big)
        } else {
            None
        },
        _ => None,
    }
}

pub open spec fn display_format_named(s: Seq<char>) -> Option<DisplayFormat> {
    if s == "hex"@ { Some(DisplayFormat::Hex) }
    else if s == "dec"@ { Some(DisplayFormat::Dec) }
    else if s == "bin"@ { Some(DisplayFormat::Bin) }
    else if s == "ascii"@ { Some(DisplayFormat::Ascii) }
    else if s == "utf8"@ { Some(DisplayFormat::Utf8) }
    else { None }
}

pub open spec fn display_format_at(m: Seq<(YamlValue, YamlValue)>) -> Option<DisplayFormat> {
    match map_get(m, "format"@) {
        None => Some(DisplayFormat::Hex),
        Some(YamlValue::Str(s)) => display_format_named(s@),
        _ => None,
    }
}

pub open spec fn condition_at(m: Seq<(YamlValue, YamlValue)>) -> Option<Option<Condition>> {
    match map_get(m, "condition"@) {
        None => Some(None),
        Some(YamlValue::Null) => Some(None),
        Some(YamlValue::Mapping(c)) => match req_text_at(c@, "when"@) {
            Some(expression) => Some(Some(Condition { expression })),
            None => None,
        },
        _ => None,
    }
}

pub open spec fn checksum_at(m: Seq<(YamlValue, YamlValue)>) -> Option<Option<ChecksumField>> {
    match map_get(m, "checksum"@) {
        None => Some(None),
        Some(YamlValue::Null) => Some(None),
        Some(YamlValue::Mapping(c)) => match (req_text_at(c@, "algorithm"@), req_text_at(c@, "start"@), req_text_at(c@, "end"@)) {
            (Some(algorithm), Some(start), Some(end)) => Some(Some(ChecksumField { algorithm, start, end })),
            _ => None,
        },
        _ => None,
    }
}

/// A field as the definition's YAML states it.
pub open spec fn field_of(v: YamlValue) -> Option<Field> {
    match v {
        YamlValue::Mapping(mv) => {
            let m = mv@;
            let dt = match map_get(m, "type"@) { Some(t) => data_type_of(t), None => None };
            match (req_text_at(m, "name"@), dt, opt_text_at(m, "offset"@), endian_at(m), display_format_at(m), condition_at(m), checksum_at(m), opt_text_at(m, "description"@)) {
                (Some(name), Some(data_type), Some(offset), Some(endian), Some(display_format), Some(condition), Some(checksum), Some(description)) =>
                    Some(Field { name, offset, data_type, endian, display_format, condition, checksum, description }),
                _ => None,
            }
        },
        _ => None,
    }
}

pub open spec fn byte_of(v: YamlValue) -> Option<u8> {
    match v {
        YamlValue::Int(i, _) => if 0 <= i <= 255 { Some(i as u8) } else { None },
        _ => None,
    }
}

pub open spec fn i64_of(v: YamlValue) -> Option<i64> {
    match v {
        YamlValue::Int(i, _) => if i64::MIN <= i <= i64::MAX { Some(i as i64) } else { None },
        _ => None,
    }
}

/// Each item read by `f`, or `None` if any item fails.
pub open spec fn list_of<T>(items: Seq<YamlValue>, f: spec_fn(YamlValue) -> Option<T>) -> Option<Seq<T>>
    decreases items.len(),
{
    if items.len() == 0 {
        Some(Seq::empty())
    } else {
        match (list_of(items.drop_last(), f), f(items.last())) {
            (Some(a), Some(x)) => Some(a.push(x)),
            _ => None,
        }
    }
}

pub open spec fn value_pair_of(kv: (YamlValue, YamlValue)) -> Option<(String, i64)> {
    match (text_of(kv.0), i64_of(kv.1)) {
        (Some(k), Some(x)) => Some((k, x)),
        _ => None,
    }
}

pub open spec fn pairs_of(items: Seq<(YamlValue, YamlValue)>) -> Option<Seq<(String, i64)>>
    decreases items.len(),
{
    if items.len() == 0 {
        Some(Seq::empty())
    } else {
        match (pairs_of(items.drop_last()), value_pair_of(items.last())) {
            (Some(a), Some(x)) => Some(a.push(x)),
            _ => None,
        }
    }
}

/// The optional `magic` byte list.
pub open spec fn magic_at(m: Seq<(YamlValue, YamlValue)>) -> Option<Option<Seq<u8>>> {
    match map_get(m, "magic"@) {
        None => Some(None),
        Some(YamlValue::Null) => Some(None),
        Some(YamlValue::List(items)) => match list_of(items@, |x: YamlValue| byte_of(x)) {
            Some(bs) => Some(Some(bs)),
            None => None,
        },
        _ => None,
    }
}

/// A list-valued key: empty when absent (`defaulted`), an error when absent otherwise.
pub open spec fn list_at<T>(m: Seq<(YamlValue, YamlValue)>, key: Seq<char>, defaulted: bool, f: spec_fn(YamlValue) -> Option<T>) -> Option<Seq<T>> {
    match map_get(m, key) {
        None => if defaulted { Some(Seq::empty()) } else { None },
        Some(YamlValue::List(items)) => list_of(items@, f),
        _ => None,
    }
}

pub open spec fn enum_of(v: YamlValue) -> Option<EnumModel> {
    match v {
        YamlValue::Mapping(mv) => match (req_text_at(mv@, "name"@), map_get(mv@, "values"@)) {
            (Some(name), Some(YamlValue::Mapping(vals))) => match pairs_of(vals@) {
                Some(values) => Some(EnumModel { name, values }),
                None => None,
            },
            _ => None,
        },
        _ => None,
    }
}

pub open spec fn struct_of(v: YamlValue) -> Option<StructModel> {
    match v {
        YamlValue::Mapping(mv) => match (req_text_at(mv@, "name"@), magic_at(mv@), list_at(mv@, "fields"@, false, |x: YamlValue| field_of(x))) {
            (Some(name), Some(magic), Some(fields)) => Some(StructModel { name, magic, fields }),
            _ => None,
        },
        _ => None,
    }
}

/// The format definition a YAML tree states, read as the definition's schema says.
pub open spec fn format_of(v: YamlValue) -> Option<FormatModel> {
    match v {
        YamlValue::Mapping(mv) => {
            let m = mv@;
            let root = match map_get(m, "root"@) { Some(r) => struct_of(r), None => None };
            match (req_text_at(m, "name"@), magic_at(m), list_at(m, "enums"@, true, |x: YamlValue| enum_of(x)),
                list_at(m, "structs"@, true, |x: YamlValue| struct_of(x)), root) {
                (Some(name), Some(magic), Some(enums), Some(structs), Some(root)) =>
                    Some(FormatModel { name, magic, enums, structs, root }),
                _ => None,
            }
        },
        _ => None,
    }
}

} // verus!

verus! {

impl DataType {
    /// A copy of the type.
    pub fn copy(&self) -> (r: DataType)
        ensures
            r == *self,
        decreases self,
    {
        match self {
            DataType::U8 => DataType::U8,
            DataType::U16 => DataType::U16,
            DataType::U32 => DataType::U32,
            DataType::U64 => DataType::U64,
            DataType::I8 => DataType::I8,
            DataType::I16 => DataType::I16,
            DataType::I32 => DataType::I32,
            DataType::I64 => DataType::I64,
            DataType::F32 => DataType::F32,
            DataType::F64 => DataType::F64,
            DataType::Bytes { length } => DataType::Bytes { length: length.clone() },
            DataType::String { length, encoding } => DataType::String { length: length.clone(), encoding: copy_opt_string(encoding) },
            DataType::BitField { bit_start, bit_length } => DataType::BitField { bit_start: *bit_start, bit_length: *bit_length },
            DataType::Struct { name } => DataType::Struct { name: name.clone() },
            DataType::Array { element_type, length } => DataType::Array { element_type: Box::new(element_type.copy()), length: length.clone() },
            DataType::Enum { name, underlying } => DataType::Enum { name: name.clone(), underlying: Box::new(underlying.copy()) },
        }
    }
}

pub fn copy_opt_string(s: &Option<String>) -> (r: Option<String>)
    ensures
        r == *s,
{
    match s {
        Some(x) => Some(x.clone()),
        None => None,
    }
}

pub(crate) fn text_of_exec(v: &YamlValue) -> (r: Option<String>)
    ensures
        r == text_of(*v),
{
    match v {
        YamlValue::Str(s) => Some(s.clone()),
        YamlValue::Int(_, t) => Some(t.clone()),
        YamlValue::Float(t) => Some(t.clone()),
        _ => None,
    }
}

pub(crate) fn missing(key: &str) -> (r: String)
    ensures
        r@ == "missing or invalid field `"@ + key@ + "`"@,
{
    let mut s = crate::text::owned("missing or invalid field `");
    crate::text::push_str(&mut s, key);
    crate::text::push_str(&mut s, "`");
    s
}

pub(crate) fn req_text_at_exec(m: &Vec<(YamlValue, YamlValue)>, key: &str) -> (r: Result<String, String>)
    ensures
        match req_text_at(m@, key@) {
            Some(t) => r == Ok::<String, String>(t),
            None => r is Err,
        },
{
    match yaml_get(m, key) {
        Some(x) => match text_of_exec(x) {
            Some(t) => Ok(t),
            None => Err(missing(key)),
        },
        None => Err(missing(key)),
    }
}

pub(crate) fn opt_text_at_exec(m: &Vec<(YamlValue, YamlValue)>, key: &str) -> (r: Result<Option<String>, String>)
    ensures
        match opt_text_at(m@, key@) {
            Some(t) => r == Ok::<Option<String>, String>(t),
            None => r is Err,
        },
{
    match yaml_get(m, key) {
        None => Ok(None),
        Some(YamlValue::Null) => Ok(None),
        Some(x) => match text_of_exec(x) {
            Some(t) => Ok(Some(t)),
            None => Err(missing(key)),
        },
    }
}

pub(crate) fn endian_at_exec(m: &Vec<(YamlValue, YamlValue)>) -> (r: Result<Endian, String>)
    ensures
        match endian_at(m@) {
            Some(e) => r == Ok::<Endian, String>(e),
            None => r is Err,
        },
{
    match yaml_get(m, "endian") {
        None => Ok(Endian::Little),
        Some(YamlValue::Str(s)) => if str_eq(s.as_str(), "little") {
            Ok(Endian::Little)
        } else if str_eq(s.as_str(), "big") {
            Ok(Endian::Big)
        } else {
            Err(missing("endian"))
        },
        _ => Err(missing("endian")),
    }
}

pub fn display_format_named_exec(s: &str) -> (r: Option<DisplayFormat>)
    ensures
        r == display_format_named(s@),
{
    if str_eq(s, "hex") { Some(DisplayFormat::Hex) }
    else if str_eq(s, "dec") { Some(DisplayFormat::Dec) }
    else if str_eq(s, "bin") { Some(DisplayFormat::Bin) }
    else if str_eq(s, "ascii") { Some(DisplayFormat::Ascii) }
    else if str_eq(s, "utf8") { Some(DisplayFormat::Utf8) }
    else { None }
}

pub(crate) fn display_format_at_exec(m: &Vec<(YamlValue, YamlValue)>) -> (r: Result<DisplayFormat, String>)
    ensures
        match display_format_at(m@) {
            Some(e) => r == Ok::<DisplayFormat, String>(e),
            None => r is Err,
        },
{
    match yaml_get(m, "format") {
        None => Ok(DisplayFormat::Hex),
        Some(YamlValue::Str(s)) => match display_format_named_exec(s.as_str()) {
            Some(f) => Ok(f),
            None => Err(missing("format")),
        },
        _ => Err(missing("format")),
    }
}

pub(crate) fn condition_at_exec(m: &Vec<(YamlValue, YamlValue)>) -> (r: Result<Option<Condition>, String>)
    ensures
        match condition_at(m@) {
            Some(c) => r == Ok::<Option<Condition>, String>(c),
            None => r is Err,
        },
{
    match yaml_get(m, "condition") {
        None => Ok(None),
        Some(YamlValue::Null) => Ok(None),
        Some(YamlValue::Mapping(c)) => match req_text_at_exec(c, "when") {
            Ok(expression) => Ok(Some(Condition { expression })),
            Err(e) => Err(e),
        },
        _ => Err(missing("condition")),
    }
}

pub(crate) fn checksum_at_exec(m: &Vec<(YamlValue, YamlValue)>) -> (r: Result<Option<ChecksumField>, String>)
    ensures
        match checksum_at(m@) {
            Some(c) => r == Ok::<Option<ChecksumField>, String>(c),
            None => r is Err,
        },
{
    match yaml_get(m, "checksum") {
        None => Ok(None),
        Some(YamlValue::Null) => Ok(None),
        Some(YamlValue::Mapping(c)) => {
            let algorithm = match req_text_at_exec(c, "algorithm") { Ok(x) => x, Err(e) => return Err(e) };
            let start = match req_text_at_exec(c, "start") { Ok(x) => x, Err(e) => return Err(e) };
            let end = match req_text_at_exec(c, "end") { Ok(x) => x, Err(e) => return Err(e) };
            Ok(Some(ChecksumField { algorithm, start, end }))
        },
        _ => Err(missing("checksum")),
    }
}

fn field_from_yaml(v: &YamlValue) -> (r: Result<Field, String>)
    ensures
        match field_of(*v) {
            Some(f) => r == Ok::<Field, String>(f),
            None => r is Err,
        },
{
    match v {
        YamlValue::Mapping(m) => {
            let name = match req_text_at_exec(m, "name") { Ok(x) => x, Err(e) => return Err(e) };
            let data_type = match yaml_get(m, "type") {
                Some(t) => match DataType::from_yaml_value(t) {
                    Ok(dt) => dt,
                    Err(e) => return Err(e),
                },
                None => return Err(missing("type")),
            };
            let offset = match opt_text_at_exec(m, "offset") { Ok(x) => x, Err(e) => return Err(e) };
            let endian = match endian_at_exec(m) { Ok(x) => x, Err(e) => return Err(e) };
            let display_format = match display_format_at_exec(m) { Ok(x) => x, Err(e) => return Err(e) };
            let condition = match condition_at_exec(m) { Ok(x) => x, Err(e) => return Err(e) };
            let checksum = match checksum_at_exec(m) { Ok(x) => x, Err(e) => return Err(e) };
            let description = match opt_text_at_exec(m, "description") { Ok(x) => x, Err(e) => return Err(e) };
            Ok(Field { name, offset, data_type, endian, display_format, condition, checksum, description })
        },
        _ => Err(crate::text::owned("a field must be a mapping")),
    }
}

fn bytes_from_yaml(items: &Vec<YamlValue>) -> (r: Result<Vec<u8>, String>)
    ensures
        match list_of(items@, |x: YamlValue| byte_of(x)) {
            Some(bs) => r is Ok && r.unwrap()@ == bs,
            None => r is Err,
        },
{
    let mut out: Vec<u8> = Vec::new();
    let mut i: usize = 0;
    while i < items.len()
        invariant
            i <= items@.len(),
            list_of(items@.take(i as int), |x: YamlValue| byte_of(x)) == Some(out@),
        decreases items@.len() - i,
    {
        assert(items@.take(i + 1).drop_last() =~= items@.take(i as int));
        match &items[i] {
            YamlValue::Int(v, _) => {
                if 0 <= *v && *v <= 255 {
                    out.push(*v as u8);
                } else {
                    proof { lemma_list_of_fails(items@, i as int, |x: YamlValue| byte_of(x)); }
                    return Err(crate::text::owned("invalid value: a magic byte must be an integer in 0..=255"));
                }
            },
            _ => {
                proof { lemma_list_of_fails(items@, i as int, |x: YamlValue| byte_of(x)); }
                return Err(crate::text::owned("invalid type: a magic byte must be an integer"));
            },
        }
        i = i + 1;
    }
    assert(items@.take(items@.len() as int) =~= items@);
    Ok(out)
}

/// A list read fails where one of its items fails.
pub proof fn lemma_list_of_fails<T>(items: Seq<YamlValue>, i: int, f: spec_fn(YamlValue) -> Option<T>)
    requires
        0 <= i < items.len(),
        f(items[i]) is None,
    ensures
        list_of(items, f) is None,
    decreases items.len(),
{
    if i < items.len() - 1 {
        lemma_list_of_fails(items.drop_last(), i, f);
    }
}

} // verus!

verus! {

pub(crate) fn magic_at_exec(m: &Vec<(YamlValue, YamlValue)>) -> (r: Result<Option<Vec<u8>>, String>)
    ensures
        match magic_at(m@) {
            Some(x) => r is Ok && bytes_view(r.unwrap()) == x,
            None => r is Err,
        },
{
    match yaml_get(m, "magic") {
        None => Ok(None),
        Some(YamlValue::Null) => Ok(None),
        Some(YamlValue::List(items)) => match bytes_from_yaml(items) {
            Ok(bs) => Ok(Some(bs)),
            Err(e) => Err(e),
        },
        _ => Err(missing("magic")),
    }
}

fn fields_from_yaml(items: &Vec<YamlValue>) -> (r: Result<Vec<Field>, String>)
    ensures
        match list_of(items@, |x: YamlValue| field_of(x)) {
            Some(fs) => r is Ok && r.unwrap()@ == fs,
            None => r is Err,
        },
{
    let mut out: Vec<Field> = Vec::new();
    let mut i: usize = 0;
    while i < items.len()
        invariant
            i <= items@.len(),
            list_of(items@.take(i as int), |x: YamlValue| field_of(x)) == Some(out@),
        decreases items@.len() - i,
    {
        assert(items@.take(i + 1).drop_last() =~= items@.take(i as int));
        match field_from_yaml(&items[i]) {
            Ok(f) => out.push(f),
            Err(e) => {
                proof { lemma_list_of_fails(items@, i as int, |x: YamlValue| field_of(x)); }
                return Err(e);
            },
        }
        i = i + 1;
    }
    assert(items@.take(items@.len() as int) =~= items@);
    Ok(out)
}

fn pairs_from_yaml(items: &Vec<(YamlValue, YamlValue)>) -> (r: Result<Vec<(String, i64)>, String>)
    ensures
        match pairs_of(items@) {
            Some(ps) => r is Ok && r.unwrap()@ == ps,
            None => r is Err,
        },
{
    let mut out: Vec<(String, i64)> = Vec::new();
    let mut i: usize = 0;
    while i < items.len()
        invariant
            i <= items@.len(),
            pairs_of(items@.take(i as int)) == Some(out@),
        decreases items@.len() - i,
    {
        assert(items@.take(i + 1).drop_last() =~= items@.take(i as int));
        let k = text_of_exec(&items[i].0);
        let x: Option<i64> = match &items[i].1 {
            YamlValue::Int(n, _) => if i64::MIN as i128 <= *n && *n <= i64::MAX as i128 { Some(*n as i64) } else { None },
            _ => None,
        };
        match (k, x) {
            (Some(k), Some(x)) => out.push((k, x)),
            _ => {
                proof { lemma_pairs_of_fails(items@, i as int); }
                return Err(crate::text::owned("invalid enum value: expected a name and an i64"));
            },
        }
        i = i + 1;
    }
    assert(items@.take(items@.len() as int) =~= items@);
    Ok(out)
}

proof fn lemma_pairs_of_fails(items: Seq<(YamlValue, YamlValue)>, i: int)
    requires
        0 <= i < items.len(),
        value_pair_of(items[i]) is None,
    ensures
        pairs_of(items) is None,
    decreases items.len(),
{
    if i < items.len() - 1 {
        lemma_pairs_of_fails(items.drop_last(), i);
    }
}

fn enum_from_yaml(v: &YamlValue) -> (r: Result<EnumDefinition, String>)
    ensures
        match enum_of(*v) {
            Some(e) => r is Ok && r.unwrap()@ == e,
            None => r is Err,
        },
{
    match v {
        YamlValue::Mapping(m) => {
            let name = match req_text_at_exec(m, "name") { Ok(x) => x, Err(e) => return Err(e) };
            match yaml_get(m, "values") {
                Some(YamlValue::Mapping(vals)) => match pairs_from_yaml(vals) {
                    Ok(values) => Ok(EnumDefinition { name, values }),
                    Err(e) => Err(e),
                },
                _ => Err(missing("values")),
            }
        },
        _ => Err(crate::text::owned("an enum must be a mapping")),
    }
}

fn struct_from_yaml(v: &YamlValue) -> (r: Result<StructDefinition, String>)
    ensures
        match struct_of(*v) {
            Some(s) => r is Ok && r.unwrap()@ == s,
            None => r is Err,
        },
{
    match v {
        YamlValue::Mapping(m) => {
            let name = match req_text_at_exec(m, "name") { Ok(x) => x, Err(e) => return Err(e) };
            let magic = match magic_at_exec(m) { Ok(x) => x, Err(e) => return Err(e) };
            let fields = match yaml_get(m, "fields") {
                Some(YamlValue::List(items)) => match fields_from_yaml(items) {
                    Ok(fs) => fs,
                    Err(e) => return Err(e),
                },
                _ => return Err(missing("fields")),
            };
            Ok(StructDefinition { name, magic, fields })
        },
        _ => Err(crate::text::owned("a struct must be a mapping")),
    }
}

pub(crate) fn enums_from_yaml(items: &Vec<YamlValue>) -> (r: Result<Vec<EnumDefinition>, String>)
    ensures
        match list_of(items@, |x: YamlValue| enum_of(x)) {
            Some(es) => r is Ok && r.unwrap()@.map_values(|e: EnumDefinition| e@) == es,
            None => r is Err,
        },
{
    let mut out: Vec<EnumDefinition> = Vec::new();
    let mut i: usize = 0;
    while i < items.len()
        invariant
            i <= items@.len(),
            list_of(items@.take(i as int), |x: YamlValue| enum_of(x)) == Some(out@.map_values(|e: EnumDefinition| e@)),
        decreases items@.len() - i,
    {
        assert(items@.take(i + 1).drop_last() =~= items@.take(i as int));
        match enum_from_yaml(&items[i]) {
            Ok(e) => {
                let ghost before = out@;
                out.push(e);
                assert(out@.map_values(|e: EnumDefinition| e@) =~= before.map_values(|e: EnumDefinition| e@).push(e@));
            },
            Err(e) => {
                proof { lemma_list_of_fails(items@, i as int, |x: YamlValue| enum_of(x)); }
                return Err(e);
            },
        }
        i = i + 1;
    }
    assert(items@.take(items@.len() as int) =~= items@);
    Ok(out)
}

fn structs_from_yaml(items: &Vec<YamlValue>) -> (r: Result<Vec<StructDefinition>, String>)
    ensures
        match list_of(items@, |x: YamlValue| struct_of(x)) {
            Some(ss) => r is Ok && r.unwrap()@.map_values(|s: StructDefinition| s@) == ss,
            None => r is Err,
        },
{
    let mut out: Vec<StructDefinition> = Vec::new();
    let mut i: usize = 0;
    while i < items.len()
        invariant
            i <= items@.len(),
            list_of(items@.take(i as int), |x: YamlValue| struct_of(x)) == Some(out@.map_values(|s: StructDefinition| s@)),
        decreases items@.len() - i,
    {
        assert(items@.take(i + 1).drop_last() =~= items@.take(i as int));
        match struct_from_yaml(&items[i]) {
            Ok(s) => {
                let ghost before = out@;
                out.push(s);
                assert(out@.map_values(|s: StructDefinition| s@) =~= before.map_values(|s: StructDefinition| s@).push(s@));
            },
            Err(e) => {
                proof { lemma_list_of_fails(items@, i as int, |x: YamlValue| struct_of(x)); }
                return Err(e);
            },
        }
        i = i + 1;
    }
    assert(items@.take(items@.len() as int) =~= items@);
    Ok(out)
}

impl FormatDefinition {
    /// Reads a definition from a YAML tree, as the definition's schema says.
    pub fn from_yaml_tree(v: &YamlValue) -> (r: Result<FormatDefinition, String>)
        ensures
            match format_of(*v) {
                Some(f) => r is Ok && r.unwrap()@ == f,
                None => r is Err,
            },
    {
        match v {
            YamlValue::Mapping(m) => {
                let name = match req_text_at_exec(m, "name") { Ok(x) => x, Err(e) => return Err(e) };
                let magic = match magic_at_exec(m) { Ok(x) => x, Err(e) => return Err(e) };
                let enums = match yaml_get(m, "enums") {
                    None => Vec::new(),
                    Some(YamlValue::List(items)) => match enums_from_yaml(items) {
                        Ok(es) => es,
                        Err(e) => return Err(e),
                    },
                    _ => return Err(missing("enums")),
                };
                let structs = match yaml_get(m, "structs") {
                    None => Vec::new(),
                    Some(YamlValue::List(items)) => match structs_from_yaml(items) {
                        Ok(ss) => ss,
                        Err(e) => return Err(e),
                    },
                    _ => return Err(missing("structs")),
                };
                let root = match yaml_get(m, "root") {
                    Some(r) => match struct_from_yaml(r) {
                        Ok(s) => s,
                        Err(e) => return Err(e),
                    },
                    None => return Err(missing("root")),
                };
                let r = FormatDefinition { name, magic, enums, structs, root };
                proof {
                    assert(r.enums@.map_values(|e: EnumDefinition| e@) =~= r@.enums);
                    assert(r.structs@.map_values(|s: StructDefinition| s@) =~= r@.structs);
                    if map_get(m@, "enums"@) is None {
                        assert(r@.enums =~= Seq::<EnumModel>::empty());
                    }
                    if map_get(m@, "structs"@) is None {
                        assert(r@.structs =~= Seq::<StructModel>::empty());
                    }
                }
                Ok(r)
            },
            _ => Err(crate::text::owned("a format definition must be a mapping")),
        }
    }
}

} // verus!

verus! {

/// The struct name a field refers to, directly or as an array's element type.
pub open spec fn struct_ref(f: Field) -> Option<String> {
    match f.data_type {
        DataType::Struct { name } => Some(name),
        DataType::Array { element_type, .. } => match *element_type {
            DataType::Struct { name } => Some(name),
            _ => None,
        },
        _ => None,
    }
}

/// The index of the first struct named `n`.
pub open spec fn first_named(all: Seq<StructModel>, n: Seq<char>) -> Option<int>
    decreases all.len(),
{
    if all.len() == 0 {
        None
    } else {
        match first_named(all.drop_last(), n) {
            Some(i) => Some(i),
            None => if all.last().name@ == n { Some(all.len() - 1) } else { None },
        }
    }
}

pub proof fn lemma_first_named(all: Seq<StructModel>, n: Seq<char>)
    ensures
        first_named(all, n) matches Some(i) ==> 0 <= i < all.len() && all[i].name@ == n
            && forall|j: int| 0 <= j < i ==> all[j].name@ != n,
        first_named(all, n) is None ==> forall|j: int| 0 <= j < all.len() ==> all[j].name@ != n,
    decreases all.len(),
{
    if all.len() > 0 {
        lemma_first_named(all.drop_last(), n);
        assert forall|j: int| 0 <= j < all.len() - 1 implies all.drop_last()[j] == all[j] by {}
    }
}

/// The structs a definition holds, the root last.
pub open spec fn all_structs(m: FormatModel) -> Seq<StructModel> {
    m.structs.push(m.root)
}

/// Field `k` refers to the struct named `b`.
pub open spec fn field_refers(fields: Seq<Field>, k: int, b: Seq<char>) -> bool {
    struct_ref(fields[k]) matches Some(n) && n@ == b
}

/// Some field of `fields` refers to the struct named `b`.
pub open spec fn fields_refer(fields: Seq<Field>, b: Seq<char>) -> bool {
    exists|k: int| 0 <= k < fields.len() && #[trigger] field_refers(fields, k, b)
}

/// `b` is the name of a struct that the first struct named `a` refers to.
pub open spec fn name_edge(all: Seq<StructModel>, a: Seq<char>, b: Seq<char>) -> bool {
    first_named(all, a) matches Some(i) && fields_refer(all[i].fields, b)
}

/// A walk that starts at struct `s`, follows references by name, and ends at a
/// name it has already passed: what the definition's cycle check rejects.
pub open spec fn is_cyclic_walk(all: Seq<StructModel>, s: int, w: Seq<Seq<char>>) -> bool {
    &&& 0 <= s < all.len()
    &&& w.len() >= 2
    &&& w[0] == all[s].name@
    &&& fields_refer(all[s].fields, w[1])
    &&& forall|j: int| 1 <= j < w.len() - 1 ==> #[trigger] name_edge(all, w[j], w[j + 1])
    &&& exists|j: int| 0 <= j < w.len() - 1 && w[j] == #[trigger] w.last()
}

/// Some struct of the definition starts a cyclic walk.
pub open spec fn has_cycle(m: FormatModel) -> bool {
    exists|s: int, w: Seq<Seq<char>>| is_cyclic_walk(all_structs(m), s, w)
}

/// `t` is the text of a cyclic walk of the definition: its names joined by " -> ".
pub open spec fn cycle_text(m: FormatModel, t: Seq<char>) -> bool {
    exists|s: int, w: Seq<Seq<char>>| #[trigger] is_cyclic_walk(all_structs(m), s, w) && t == join_spec(w, " -> "@)
}

/// The depth-first search for a cycle of struct references, as the check of a
/// definition runs it. From struct `node`, the end of the walk `path` of
/// names, with the names `vis` already searched, the fields from `k` on are
/// taken in order. A field that names a struct on the walk closes a cycle: the
/// walk with that name added is the result. A field that names a struct not
/// yet searched leads to that struct (the first of that name), at most `fuel`
/// levels deeper. Otherwise the result is the names searched by the end.
pub open spec fn search_fields(all: Seq<StructModel>, node: int, k: nat, path: Seq<Seq<char>>, vis: Set<Seq<char>>,
    fuel: nat) -> Result<Set<Seq<char>>, Seq<Seq<char>>>
    decreases fuel, all[node].fields.len() - k,
{
    if k >= all[node].fields.len() {
        Ok(vis)
    } else {
        match struct_ref(all[node].fields[k as int]) {
            None => search_fields(all, node, k + 1, path, vis, fuel),
            Some(n) => {
                let b = n@;
                if path.contains(b) {
                    Err(path.push(b))
                } else if vis.contains(b) || first_named(all, b) is None || fuel == 0 {
                    search_fields(all, node, k + 1, path, vis, fuel)
                } else {
                    match search_node(all, first_named(all, b).unwrap(), path.push(b), vis, (fuel - 1) as nat) {
                        Err(w) => Err(w),
                        Ok(v2) => search_fields(all, node, k + 1, path, v2, fuel),
                    }
                }
            },
        }
    }
}

/// The search from struct `node`: its name is searched, then its fields.
pub open spec fn search_node(all: Seq<StructModel>, node: int, path: Seq<Seq<char>>, vis: Set<Seq<char>>, fuel: nat)
    -> Result<Set<Seq<char>>, Seq<Seq<char>>>
    decreases fuel, all[node].fields.len() + 1,
{
    search_fields(all, node, 0, path, vis.insert(all[node].name@), fuel)
}

/// The first cycle that the searches from the first `c` structs meet, each
/// search starting afresh from its struct's name.
pub open spec fn first_cycle(all: Seq<StructModel>, fuel: nat, c: nat) -> Option<Seq<Seq<char>>>
    decreases c,
{
    if c == 0 {
        None
    } else {
        match first_cycle(all, fuel, (c - 1) as nat) {
            Some(w) => Some(w),
            None => match search_node(all, c - 1, seq![all[c - 1].name@], Set::empty(), fuel) {
                Err(w) => Some(w),
                Ok(_) => None,
            },
        }
    }
}

/// The message of the cycle that the check of the definition reports: the
/// walk the first search to meet a cycle followed, joined by " -> ".
pub open spec fn cycle_message(m: FormatModel) -> Option<Seq<char>> {
    match first_cycle(all_structs(m), m.structs.len(), all_structs(m).len()) {
        Some(w) => Some(join_spec(w, " -> "@)),
        None => None,
    }
}

proof fn lemma_first_cycle_stays(all: Seq<StructModel>, fuel: nat, c: nat, d: nat)
    requires
        c <= d,
        first_cycle(all, fuel, c) is Some,
    ensures
        first_cycle(all, fuel, d) == first_cycle(all, fuel, c),
    decreases d - c,
{
    if c < d {
        lemma_first_cycle_stays(all, fuel, c, (d - 1) as nat);
    }
}

/// The names of the strings of `v`.
pub open spec fn name_set(v: Seq<String>) -> Set<Seq<char>> {
    Set::new(|a: Seq<char>| holds_name(v, a))
}

/// A walk from struct `s` that comes back to the name of `s`.
pub open spec fn returns_to_start(all: Seq<StructModel>, s: int, w: Seq<Seq<char>>) -> bool {
    &&& 0 <= s < all.len()
    &&& w.len() >= 2
    &&& w[0] == all[s].name@
    &&& fields_refer(all[s].fields, w[1])
    &&& forall|j: int| 1 <= j < w.len() - 1 ==> #[trigger] name_edge(all, w[j], w[j + 1])
    &&& w.last() == w[0]
}

/// Some struct of the definition starts a walk that comes back to its name.
pub open spec fn has_return(all: Seq<StructModel>, s: int) -> bool {
    exists|w: Seq<Seq<char>>| returns_to_start(all, s, w)
}

/// A cyclic walk starts at some struct and comes back to its own name.
pub proof fn lemma_cycle_returns(all: Seq<StructModel>, s: int, w: Seq<Seq<char>>)
    requires
        is_cyclic_walk(all, s, w),
    ensures
        exists|s2: int| 0 <= s2 < all.len() && has_return(all, s2),
{
    let j = choose|j: int| 0 <= j < w.len() - 1 && w[j] == #[trigger] w.last();
    if j == 0 {
        assert(returns_to_start(all, s, w));
        assert(has_return(all, s));
    } else {
        assert(name_edge(all, w[j], w[j + 1]));
        let s2 = first_named(all, w[j]).unwrap();
        lemma_first_named(all, w[j]);
        let w2 = w.subrange(j, w.len() as int);
        assert forall|t: int| 1 <= t < w2.len() - 1 implies #[trigger] name_edge(all, w2[t], w2[t + 1]) by {
            assert(name_edge(all, w[j + t], w[j + t + 1]));
        }
        assert(returns_to_start(all, s2, w2));
        assert(has_return(all, s2));
    }
}

/// A walk back to the start can be cut at the first time it comes back.
proof fn lemma_shortest_return(all: Seq<StructModel>, s: int, w: Seq<Seq<char>>) -> (w2: Seq<Seq<char>>)
    requires
        returns_to_start(all, s, w),
    ensures
        returns_to_start(all, s, w2),
        forall|t: int| 1 <= t < w2.len() - 1 ==> #[trigger] w2[t] != w2[0],
    decreases w.len(),
{
    if exists|t: int| 1 <= t < w.len() - 1 && #[trigger] w[t] == w[0] {
        let t = choose|t: int| 1 <= t < w.len() - 1 && #[trigger] w[t] == w[0];
        let w1 = w.subrange(0, t + 1);
        assert forall|j: int| 1 <= j < w1.len() - 1 implies #[trigger] name_edge(all, w1[j], w1[j + 1]) by {
            assert(name_edge(all, w[j], w[j + 1]));
        }
        assert(returns_to_start(all, s, w1));
        lemma_shortest_return(all, s, w1)
    } else {
        w
    }
}

/// `a` is the text of one of the strings of `v`.
pub open spec fn holds_name(v: Seq<String>, a: Seq<char>) -> bool {
    exists|j: int| 0 <= j < v.len() && (#[trigger] v[j])@ == a
}

pub open spec fn names_of(v: Seq<String>) -> Seq<Seq<char>> {
    v.map_values(|x: String| x@)
}

/// The struct a name stands for while the walk from `start` is searched:
/// `start` itself for its own name, else the first struct of that name.
pub open spec fn node_of(all: Seq<StructModel>, start: int, a: Seq<char>) -> int {
    if a == all[start].name@ { start } else { first_named(all, a).unwrap() }
}

/// Every reference of the struct that `a` stands for was followed: none names
/// the start, and every one that names a struct is among `v`.
pub open spec fn name_done(all: Seq<StructModel>, start: int, v: Seq<String>, a: Seq<char>) -> bool {
    &&& (a == all[start].name@ || first_named(all, a) is Some)
    &&& forall|b: Seq<char>| #[trigger] fields_refer(all[node_of(all, start, a)].fields, b)
        ==> b != all[start].name@ && (first_named(all, b) is Some ==> holds_name(v, b))
}

/// Each name among `v` is on the current walk `p` or done.
pub open spec fn search_closed(all: Seq<StructModel>, start: int, v: Seq<String>, p: Seq<Seq<char>>) -> bool {
    forall|a: Seq<char>| #[trigger] holds_name(v, a) ==> p.contains(a) || name_done(all, start, v, a)
}

/// `p` is a walk from `start` along references whose names after the first
/// each name a struct and differ from the start's name.
pub open spec fn search_walk(all: Seq<StructModel>, start: int, p: Seq<Seq<char>>) -> bool {
    &&& 0 <= start < all.len()
    &&& p.len() >= 1
    &&& p[0] == all[start].name@
    &&& p.len() >= 2 ==> fields_refer(all[start].fields, p[1])
    &&& forall|j: int| 1 <= j < p.len() - 1 ==> #[trigger] name_edge(all, p[j], p[j + 1])
    &&& forall|j: int| 1 <= j < p.len() ==> #[trigger] p[j] != p[0] && first_named(all, p[j]) is Some
}

/// How many of the first `k` structs have a name not among `v`.
pub open spec fn unvisited(all: Seq<StructModel>, v: Seq<String>, k: int) -> nat
    decreases k,
{
    if k <= 0 {
        0
    } else {
        unvisited(all, v, k - 1) + if holds_name(v, all[k - 1].name@) { 0nat } else { 1nat }
    }
}

proof fn lemma_unvisited(all: Seq<StructModel>, v: Seq<String>, v2: Seq<String>, k: int, t0: int)
    requires
        0 <= k <= all.len(),
        forall|a: Seq<char>| #[trigger] holds_name(v, a) ==> holds_name(v2, a),
    ensures
        unvisited(all, v2, k) <= unvisited(all, v, k),
        unvisited(all, v, k) <= k,
        0 <= t0 < k && !holds_name(v, all[t0].name@) && holds_name(v2, all[t0].name@)
            ==> unvisited(all, v2, k) < unvisited(all, v, k),
        0 <= t0 < k && !holds_name(v2, all[t0].name@) ==> unvisited(all, v2, k) >= 1,
    decreases k,
{
    if k > 0 {
        lemma_unvisited(all, v, v2, k - 1, t0);
    }
}

/// No walk from `s` comes back to its name once the search from `s` closed.
proof fn lemma_closed_no_return(all: Seq<StructModel>, s: int, v: Seq<String>, w: Seq<Seq<char>>)
    requires
        search_closed(all, s, v, Seq::empty()),
        holds_name(v, all[s].name@),
        forall|t: int| 1 <= t < w.len() - 1 ==> #[trigger] w[t] != w[0],
    ensures
        !returns_to_start(all, s, w),
{
    if returns_to_start(all, s, w) {
        let last = w.len() - 1;
        assert(name_done(all, s, v, all[s].name@));
        if last == 1 {
            assert(fields_refer(all[node_of(all, s, all[s].name@)].fields, w[1]));
        } else {
            lemma_closed_walk(all, s, v, w, last - 1);
            let a = w[last - 1];
            assert(a != w[0]);
            assert(name_done(all, s, v, a));
            let j = last - 1;
            assert(name_edge(all, w[j], w[j + 1]));
            assert(fields_refer(all[node_of(all, s, a)].fields, w[last]));
        }
    }
}

proof fn lemma_closed_walk(all: Seq<StructModel>, s: int, v: Seq<String>, w: Seq<Seq<char>>, t: int)
    requires
        search_closed(all, s, v, Seq::empty()),
        holds_name(v, all[s].name@),
        returns_to_start(all, s, w),
        forall|u: int| 1 <= u < w.len() - 1 ==> #[trigger] w[u] != w[0],
        1 <= t <= w.len() - 2,
    ensures
        holds_name(v, w[t]),
    decreases t,
{
    assert(name_edge(all, w[t], w[t + 1]));
    if t == 1 {
        assert(name_done(all, s, v, all[s].name@));
        assert(fields_refer(all[node_of(all, s, all[s].name@)].fields, w[1]));
    } else {
        lemma_closed_walk(all, s, v, w, t - 1);
        let a = w[t - 1];
        assert(a != w[0]);
        assert(name_done(all, s, v, a));
        let j = t - 1;
        assert(name_edge(all, w[j], w[j + 1]));
        assert(fields_refer(all[node_of(all, s, a)].fields, w[t]));
    }
}

/// Every struct a field names exists, and every enum a field names exists.
pub open spec fn refs_resolved(m: FormatModel) -> bool {
    forall|i: int, k: int| 0 <= i < all_structs(m).len() && 0 <= k < all_structs(m)[i].fields.len()
        ==> field_resolved(m, #[trigger] all_structs(m)[i].fields[k])
}

pub open spec fn struct_known(m: FormatModel, n: Seq<char>) -> bool {
    exists|i: int| 0 <= i < all_structs(m).len() && (#[trigger] all_structs(m)[i]).name@ == n
}

pub open spec fn enum_known(m: FormatModel, n: Seq<char>) -> bool {
    exists|i: int| 0 <= i < m.enums.len() && (#[trigger] m.enums[i]).name@ == n
}

pub open spec fn field_resolved(m: FormatModel, f: Field) -> bool {
    match f.data_type {
        DataType::Struct { name } => struct_known(m, name@),
        DataType::Array { element_type, .. } => match *element_type {
            DataType::Struct { name } => struct_known(m, name@),
            _ => true,
        },
        DataType::Enum { name, .. } => enum_known(m, name@),
        _ => true,
    }
}

} // verus!

verus! {

/// The byte size of a type whose size is fixed by the definition alone.
pub open spec fn size_spec(t: DataType) -> Option<nat> {
    match t {
        DataType::U8 | DataType::I8 => Some(1),
        DataType::U16 | DataType::I16 => Some(2),
        DataType::U32 | DataType::I32 | DataType::F32 => Some(4),
        DataType::U64 | DataType::I64 | DataType::F64 => Some(8),
        DataType::BitField { .. } => Some(1),
        DataType::Bytes { length } => parse_usize_spec(length@),
        DataType::String { length, .. } => parse_usize_spec(length@),
        _ => None,
    }
}

/// The index of the first enum named `n`.
pub open spec fn first_enum(es: Seq<EnumModel>, n: Seq<char>) -> Option<int>
    decreases es.len(),
{
    if es.len() == 0 {
        None
    } else {
        match first_enum(es.drop_last(), n) {
            Some(i) => Some(i),
            None => if es.last().name@ == n { Some(es.len() - 1) } else { None },
        }
    }
}

pub proof fn lemma_first_enum(es: Seq<EnumModel>, n: Seq<char>)
    ensures
        first_enum(es, n) matches Some(i) ==> 0 <= i < es.len() && es[i].name@ == n
            && forall|j: int| 0 <= j < i ==> es[j].name@ != n,
        first_enum(es, n) is None ==> forall|j: int| 0 <= j < es.len() ==> es[j].name@ != n,
    decreases es.len(),
{
    if es.len() > 0 {
        lemma_first_enum(es.drop_last(), n);
        assert forall|j: int| 0 <= j < es.len() - 1 implies es.drop_last()[j] == es[j] by {}
    }
}

impl DataType {
    pub fn size(&self) -> (r: Option<usize>)
        ensures
            match size_spec(*self) {
                Some(n) => r == Some(n as usize),
                None => r is None,
            },
    {
        match self {
            DataType::U8 | DataType::I8 => Some(1),
            DataType::U16 | DataType::I16 => Some(2),
            DataType::U32 | DataType::I32 | DataType::F32 => Some(4),
            DataType::U64 | DataType::I64 | DataType::F64 => Some(8),
            DataType::BitField { .. } => Some(1),
            DataType::Bytes { length } => parse_usize(chars_of(length.as_str()).as_slice()),
            DataType::String { length, .. } => parse_usize(chars_of(length.as_str()).as_slice()),
            _ => None,
        }
    }
}

/// The struct name a field refers to.
pub fn struct_ref_exec(f: &Field) -> (r: Option<&String>)
    ensures
        match struct_ref(*f) {
            Some(n) => r matches Some(x) && *x == n,
            None => r is None,
        },
{
    match &f.data_type {
        DataType::Struct { name } => Some(name),
        DataType::Array { element_type, .. } => match &**element_type {
            DataType::Struct { name } => Some(name),
            _ => None,
        },
        _ => None,
    }
}

impl FormatDefinition {
    /// The struct named `name`: the root when it has that name, else the first such struct.
    pub fn get_struct(&self, name: &str) -> (r: Option<&StructDefinition>)
        ensures
            self.root.name@ == name@ ==> r == Some(&self.root),
            self.root.name@ != name@ ==> match first_named(self@.structs, name@) {
                Some(i) => r == Some(&self.structs@[i]),
                None => r is None,
            },
    {
        proof { lemma_first_named(self@.structs, name@); }
        if str_eq(self.root.name.as_str(), name) {
            return Some(&self.root);
        }
        let mut i: usize = 0;
        while i < self.structs.len()
            invariant
                i <= self.structs@.len(),
                self.root.name@ != name@,
                forall|j: int| 0 <= j < i ==> (#[trigger] self.structs@[j]).name@ != name@,
            decreases self.structs@.len() - i,
        {
            if str_eq(self.structs[i].name.as_str(), name) {
                proof {
                    lemma_first_named(self@.structs, name@);
                    assert(self@.structs[i as int] == self.structs@[i as int]@);
                    if let Some(k) = first_named(self@.structs, name@) {
                        assert(self@.structs[k] == self.structs@[k]@);
                        assert(k == i);
                    }
                }
                return Some(&self.structs[i]);
            }
            i = i + 1;
        }
        proof {
            if let Some(k) = first_named(self@.structs, name@) {
                assert(self@.structs[k] == self.structs@[k]@);
            }
        }
        None
    }

    /// The first enum named `name`.
    pub fn get_enum(&self, name: &str) -> (r: Option<&EnumDefinition>)
        ensures
            match first_enum(self@.enums, name@) {
                Some(i) => r == Some(&self.enums@[i]),
                None => r is None,
            },
    {
        proof { lemma_first_enum(self@.enums, name@); }
        let mut i: usize = 0;
        while i < self.enums.len()
            invariant
                i <= self.enums@.len(),
                forall|j: int| 0 <= j < i ==> (#[trigger] self.enums@[j]).name@ != name@,
            decreases self.enums@.len() - i,
        {
            if str_eq(self.enums[i].name.as_str(), name) {
                proof {
                    lemma_first_enum(self@.enums, name@);
                    assert(self@.enums[i as int] == self.enums@[i as int]@);
                    if let Some(k) = first_enum(self@.enums, name@) {
                        assert(self@.enums[k] == self.enums@[k]@);
                        assert(k == i);
                    }
                }
                return Some(&self.enums[i]);
            }
            i = i + 1;
        }
        proof {
            if let Some(k) = first_enum(self@.enums, name@) {
                assert(self@.enums[k] == self.enums@[k]@);
            }
        }
        None
    }
}

} // verus!

verus! {

impl FormatDefinition {
    /// The `i`-th of the structs followed by the root.
    fn struct_at(&self, i: usize) -> (r: &StructDefinition)
        requires
            i <= self.structs@.len(),
        ensures
            r@ == all_structs(self@)[i as int],
            *r == self.struct_at_spec(i as int),
    {
        if i < self.structs.len() {
            &self.structs[i]
        } else {
            &self.root
        }
    }

    /// The index, among the structs followed by the root, of the first struct named `name`.
    fn find_struct_index(&self, name: &str) -> (r: Option<usize>)
        ensures
            match first_named(all_structs(self@), name@) {
                Some(i) => r == Some(i as usize),
                None => r is None,
            },
            r matches Some(j) ==> j <= self.structs@.len(),
    {
        let ghost all = all_structs(self@);
        proof { lemma_first_named(all, name@); }
        let n = self.structs.len();
        let mut i: usize = 0;
        while i < n
            invariant
                n == self.structs@.len(),
                all == all_structs(self@),
                i <= n,
                forall|j: int| 0 <= j < i ==> (#[trigger] all[j]).name@ != name@,
            decreases n - i,
        {
            if str_eq(self.structs[i].name.as_str(), name) {
                proof {
                    lemma_first_named(all, name@);
                    assert(all[i as int] == self.structs@[i as int]@);
                    if let Some(k) = first_named(all, name@) {
                        assert(k == i);
                    }
                }
                return Some(i);
            }
            proof { assert(all[i as int] == self.structs@[i as int]@); }
            i = i + 1;
        }
        if str_eq(self.root.name.as_str(), name) {
            proof {
                lemma_first_named(all, name@);
                if let Some(k) = first_named(all, name@) {
                    assert(k == n);
                }
            }
            return Some(n);
        }
        proof { lemma_first_named(all, name@); }
        None
    }

    /// Searches the references from struct `index`, the end of the walk
    /// `path` from struct `start`: fails where a reference names a struct
    /// already on the walk, and otherwise follows each reference to a struct
    /// not yet in `visited`.
    fn dfs_circular_check(
        &self,
        index: usize,
        visited: &mut Vec<String>,
        path: &mut Vec<String>,
        fuel: usize,
        Ghost(start): Ghost<int>,
    ) -> (r: Result<(), DslError>)
        requires
            index <= self.structs@.len(),
            search_walk(all_structs(self@), start, names_of(old(path)@)),
            index == node_of(all_structs(self@), start, names_of(old(path)@).last()),
            !holds_name(old(visited)@, all_structs(self@)[index as int].name@),
            search_closed(all_structs(self@), start, old(visited)@, names_of(old(path)@)),
            fuel + 1 >= unvisited(all_structs(self@), old(visited)@, all_structs(self@).len() as int),
        ensures
            r matches Err(e) ==> e is CircularReference && has_cycle(self@),
            r matches Err(DslError::CircularReference(m)) ==> cycle_text(self@, m@),
            r is Ok ==> final(path)@ == old(path)@,
            r is Ok ==> forall|a: Seq<char>| #[trigger] holds_name(old(visited)@, a) ==> holds_name(final(visited)@, a),
            r is Ok ==> holds_name(final(visited)@, all_structs(self@)[index as int].name@),
            r is Ok ==> search_closed(all_structs(self@), start, final(visited)@, names_of(old(path)@).drop_last()),
            match search_node(all_structs(self@), index as int, names_of(old(path)@), name_set(old(visited)@), fuel as nat) {
                Err(w) => (r matches Err(DslError::CircularReference(m)) && m@ == join_spec(w, " -> "@)),
                Ok(vs) => r is Ok && name_set(final(visited)@) == vs,
            },
        decreases fuel,
    {
        let ghost all = all_structs(self@);
        let ghost p0 = names_of(path@);
        let ghost v0 = visited@;
        let n = self.structs.len();
        let s = self.struct_at(index);
        proof {
            lemma_first_named(all, p0.last());
            assert(all[index as int].name@ == p0.last());
        }
        visited.push(s.name.clone());
        proof {
            assert(visited@.last()@ == all[index as int].name@);
            assert(holds_name(visited@, all[index as int].name@));
            assert forall|a: Seq<char>| #[trigger] holds_name(v0, a) implies holds_name(visited@, a) by {
                let j = choose|j: int| 0 <= j < v0.len() && (#[trigger] v0[j])@ == a;
                assert(visited@[j] == v0[j]);
            }
            lemma_unvisited(all, v0, visited@, all.len() as int, index as int);
            assert forall|a: Seq<char>| #[trigger] holds_name(visited@, a) implies p0.contains(a) || name_done(all, start, visited@, a) by {
                let j = choose|j: int| 0 <= j < visited@.len() && (#[trigger] visited@[j])@ == a;
                if j < v0.len() {
                    assert(v0[j] == visited@[j]);
                    assert(holds_name(v0, a));
                    if !p0.contains(a) {
                        assert(name_done(all, start, v0, a));
                        assert forall|b: Seq<char>| holds_name(v0, b) implies holds_name(visited@, b) by {
                            assert(holds_name(v0, b));
                        }
                    }
                } else {
                    assert(p0[p0.len() - 1] == a);
                }
            }
            assert(name_set(visited@) =~= name_set(v0).insert(all[index as int].name@)) by {
                assert forall|a: Seq<char>| holds_name(visited@, a) implies holds_name(v0, a) || a == all[index as int].name@ by {
                    let j = choose|j: int| 0 <= j < visited@.len() && (#[trigger] visited@[j])@ == a;
                    if j < v0.len() {
                        assert(v0[j] == visited@[j]);
                    }
                }
            }
        }
        let mut k: usize = 0;
        assert(all[index as int].fields == s.fields@);
        while k < s.fields.len()
            invariant
                index <= self.structs@.len(),
                n == self.structs@.len(),
                all == all_structs(self@),
                s == self.struct_at_spec(index as int),
                s@ == all[index as int],
                k <= s.fields@.len(),
                path@ == old(path)@,
                p0 == names_of(old(path)@),
                v0 == old(visited)@,
                search_walk(all, start, p0),
                index == node_of(all, start, p0.last()),
                all[index as int].name@ == p0.last(),
                !holds_name(v0, all[index as int].name@),
                fuel + 1 >= unvisited(all, v0, all.len() as int),
                unvisited(all, visited@, all.len() as int) < unvisited(all, v0, all.len() as int),
                forall|a: Seq<char>| #[trigger] holds_name(v0, a) ==> holds_name(visited@, a),
                holds_name(visited@, all[index as int].name@),
                search_closed(all, start, visited@, p0),
                forall|j: int, b: Seq<char>| 0 <= j < k && #[trigger] field_refers(s.fields@, j, b)
                    ==> !p0.contains(b) && (first_named(all, b) is Some ==> holds_name(visited@, b)),
                search_fields(all, index as int, k as nat, p0, name_set(visited@), fuel as nat)
                    == search_node(all, index as int, p0, name_set(v0), fuel as nat),
            decreases s.fields@.len() - k,
        {
            if let Some(name) = struct_ref_exec(&s.fields[k]) {
                let ghost b = name@;
                proof { assert(field_refers(s.fields@, k as int, b)); }
                if contains_string(path, name.as_str()) {
                    proof {
                        let w = p0.push(b);
                        let t = choose|t: int| 0 <= t < path@.len() && (#[trigger] path@[t])@ == b;
                        assert(p0[t] == b);
                        assert(w[t] == w.last());
                        assert(fields_refer(all[start].fields, w[1]));
                        assert forall|j: int| 1 <= j < w.len() - 1 implies #[trigger] name_edge(all, w[j], w[j + 1]) by {
                            if j < p0.len() - 1 {
                                assert(name_edge(all, p0[j], p0[j + 1]));
                            } else {
                                lemma_first_named(all, p0.last());
                                assert(fields_refer(all[index as int].fields, b));
                            }
                        }
                        assert(is_cyclic_walk(all, start, w));
                    }
                    let ghost pre = path@;
                    path.push(name.clone());
                    let msg = crate::text::join(path, " -> ");
                    proof {
                        let w = p0.push(b);
                        assert(path@.map_values(|x: String| x@) =~= w) by {
                            assert(path@ == pre.push(*name));
                        }
                        assert(is_cyclic_walk(all, start, w));
                        assert(msg@ == join_spec(w, " -> "@));
                    }
                    return Err(DslError::CircularReference(msg));
                }
                proof {
                    assert(!p0.contains(b)) by {
                        if p0.contains(b) {
                            let t = choose|t: int| 0 <= t < p0.len() && p0[t] == b;
                            assert(path@[t]@ == b);
                        }
                    }
                }
                if !contains_string(visited, name.as_str()) {
                    if let Some(j) = self.find_struct_index(name.as_str()) {
                        let ghost vis = visited@;
                        proof {
                            lemma_first_named(all, b);
                            lemma_unvisited(all, v0, vis, all.len() as int, j as int);
                            lemma_unvisited(all, vis, vis, all.len() as int, j as int);
                            assert(first_named(all, b) == Some(j as int));
                            assert(all[j as int].name@ == b);
                            assert(fuel > 0);
                        }
                        if fuel > 0 {
                            let ghost pre = path@;
                            path.push(name.clone());
                            proof {
                                let p1 = names_of(path@);
                                assert(p1 =~= p0.push(b));
                                assert forall|jj: int| 1 <= jj < p1.len() - 1 implies #[trigger] name_edge(all, p1[jj], p1[jj + 1]) by {
                                    if jj < p0.len() - 1 {
                                        assert(name_edge(all, p0[jj], p0[jj + 1]));
                                    } else {
                                        lemma_first_named(all, p0.last());
                                        assert(fields_refer(all[index as int].fields, b));
                                    }
                                }
                                if p0.len() == 1 {
                                    assert(fields_refer(all[start].fields, b));
                                }
                                assert(search_walk(all, start, p1));
                                assert(node_of(all, start, p1.last()) == j);
                                assert forall|a: Seq<char>| #[trigger] holds_name(vis, a) implies p1.contains(a) || name_done(all, start, vis, a) by {
                                    if p0.contains(a) {
                                        let t = choose|t: int| 0 <= t < p0.len() && p0[t] == a;
                                        assert(p1[t] == a);
                                    }
                                }
                            }
                            match self.dfs_circular_check(j, visited, path, fuel - 1, Ghost(start)) {
                                Ok(()) => {},
                                Err(e) => return Err(e),
                            }
                            path.pop();
                            proof {
                                assert(names_of(pre.push(*name)).drop_last() =~= p0);
                                lemma_unvisited(all, vis, visited@, all.len() as int, j as int);
                            }
                        }
                    }
                }
            }
            k = k + 1;
        }
        proof {
            assert forall|b: Seq<char>| #[trigger] fields_refer(all[node_of(all, start, all[index as int].name@)].fields, b)
                implies b != all[start].name@ && (first_named(all, b) is Some ==> holds_name(visited@, b)) by {
                let j = choose|j: int| 0 <= j < all[index as int].fields.len() && #[trigger] field_refers(all[index as int].fields, j, b);
                assert(field_refers(s.fields@, j, b));
                assert(p0[0] == all[start].name@);
            }
            assert(name_done(all, start, visited@, all[index as int].name@));
            assert forall|a: Seq<char>| #[trigger] holds_name(visited@, a) implies p0.drop_last().contains(a) || name_done(all, start, visited@, a) by {
                if p0.contains(a) && !p0.drop_last().contains(a) {
                    let t = choose|t: int| 0 <= t < p0.len() && p0[t] == a;
                    if t < p0.len() - 1 {
                        assert(p0.drop_last()[t] == a);
                    }
                }
            }
        }
        Ok(())
    }

    pub open spec fn struct_at_spec(&self, i: int) -> StructDefinition {
        if i < self.structs@.len() { self.structs@[i] } else { self.root }
    }

    /// Searches the references reachable from struct `i`: fails only where
    /// the definition has a cycle, and always where a walk from `i` comes back
    /// to the name of `i`.
    fn check_circular_from(&self, i: usize) -> (r: Result<(), DslError>)
        requires
            i <= self.structs@.len(),
        ensures
            r matches Err(e) ==> e is CircularReference && has_cycle(self@),
            r matches Err(DslError::CircularReference(m)) ==> cycle_text(self@, m@),
            r is Ok ==> !has_return(all_structs(self@), i as int),
            match search_node(all_structs(self@), i as int, seq![all_structs(self@)[i as int].name@], Set::empty(),
                self.structs@.len()) {
                Err(w) => (r matches Err(DslError::CircularReference(m)) && m@ == join_spec(w, " -> "@)),
                Ok(_) => r is Ok,
            },
    {
        let ghost all = all_structs(self@);
        let mut visited: Vec<String> = Vec::new();
        assert(name_set(visited@) =~= Set::<Seq<char>>::empty());
        let mut path: Vec<String> = Vec::new();
        path.push(self.struct_at(i).name.clone());
        proof {
            let p = names_of(path@);
            assert(p =~= seq![all[i as int].name@]);
            assert(search_walk(all, i as int, p));
            lemma_unvisited(all, visited@, visited@, all.len() as int, 0);
        }
        let r = self.dfs_circular_check(i, &mut visited, &mut path, self.structs.len(), Ghost(i as int));
        proof {
            if r is Ok {
                assert(names_of(seq![path@[0]]).drop_last() =~= Seq::<Seq<char>>::empty());
                if has_return(all, i as int) {
                    let w = choose|w: Seq<Seq<char>>| returns_to_start(all, i as int, w);
                    let w2 = lemma_shortest_return(all, i as int, w);
                    lemma_closed_no_return(all, i as int, visited@, w2);
                }
            }
        }
        r
    }

    /// Fails, with the walk that closes the cycle, exactly where the
    /// definition's struct references have a cycle.
    fn check_circular_references(&self) -> (r: Result<(), DslError>)
        ensures
            r is Err <==> has_cycle(self@),
            r matches Err(e) ==> e is CircularReference,
            r matches Err(DslError::CircularReference(m)) ==> cycle_text(self@, m@),
            match cycle_message(self@) {
                Some(t) => (r matches Err(DslError::CircularReference(m)) && m@ == t),
                None => r is Ok,
            },
    {
        let ghost all = all_structs(self@);
        let n = self.structs.len();
        let mut i: usize = 0;
        while i < n
            invariant
                n == self.structs@.len(),
                all == all_structs(self@),
                i <= n,
                forall|t: int| 0 <= t < i ==> !has_return(all, t),
                first_cycle(all, n as nat, i as nat) is None,
            decreases n - i,
        {
            match self.check_circular_from(i) {
                Ok(()) => {},
                Err(e) => {
                    proof {
                        assert(first_cycle(all, n as nat, (i + 1) as nat) is Some);
                        lemma_first_cycle_stays(all, n as nat, (i + 1) as nat, all.len());
                    }
                    return Err(e);
                },
            }
            i = i + 1;
        }
        let r = self.check_circular_from(n);
        assert(first_cycle(all, n as nat, (n + 1) as nat) == first_cycle(all, n as nat, all.len()));
        proof {
            if r is Ok && has_cycle(self@) {
                let (s, w) = choose|s: int, w: Seq<Seq<char>>| is_cyclic_walk(all, s, w);
                lemma_cycle_returns(all, s, w);
            }
        }
        r
    }

    fn enum_exists(&self, name: &str) -> (r: bool)
        ensures
            r == enum_known(self@, name@),
    {
        let mut i: usize = 0;
        while i < self.enums.len()
            invariant
                i <= self.enums@.len(),
                forall|j: int| 0 <= j < i ==> (#[trigger] self.enums@[j]).name@ != name@,
            decreases self.enums@.len() - i,
        {
            if str_eq(self.enums[i].name.as_str(), name) {
                proof { assert(self@.enums[i as int] == self.enums@[i as int]@); }
                return true;
            }
            i = i + 1;
        }
        proof {
            assert forall|j: int| 0 <= j < self@.enums.len() implies (#[trigger] self@.enums[j]).name@ != name@ by {
                assert(self@.enums[j] == self.enums@[j]@);
            }
        }
        false
    }

    fn struct_exists(&self, name: &str) -> (r: bool)
        ensures
            r == struct_known(self@, name@),
    {
        let r = self.find_struct_index(name).is_some();
        proof {
            lemma_first_named(all_structs(self@), name@);
        }
        r
    }

    proof fn lemma_unresolved(&self, a: int, k: int)
        requires
            0 <= a <= self.structs@.len(),
            0 <= k < self.struct_at_spec(a).fields@.len(),
            !field_resolved(self@, self.struct_at_spec(a).fields@[k]),
        ensures
            !refs_resolved(self@),
    {
        assert(all_structs(self@)[a] == self.struct_at_spec(a)@);
        assert(all_structs(self@)[a].fields[k] == self.struct_at_spec(a).fields@[k]);
    }

    fn validate_fields(&self, index: usize, fuel: usize) -> (r: Result<(), DslError>)
        requires
            index <= self.structs@.len(),
        ensures
            r is Ok ==> forall|k: int| 0 <= k < self.struct_at_spec(index as int).fields@.len()
                ==> field_resolved(self@, #[trigger] self.struct_at_spec(index as int).fields@[k]),
            r matches Err(e) ==> (e matches DslError::UnknownStruct(n) && !struct_known(self@, n@))
                || (e matches DslError::UnknownEnum(n) && !enum_known(self@, n@)),
            r is Err ==> !refs_resolved(self@),
        decreases fuel,
    {
        let s = self.struct_at(index);
        let mut k: usize = 0;
        while k < s.fields.len()
            invariant
                index <= self.structs@.len(),
                s == self.struct_at_spec(index as int),
                k <= s.fields@.len(),
                forall|j: int| 0 <= j < k ==> field_resolved(self@, #[trigger] s.fields@[j]),
            decreases s.fields@.len() - k,
        {
            match &s.fields[k].data_type {
                DataType::Struct { name } => {
                    if !self.struct_exists(name.as_str()) {
                        proof { self.lemma_unresolved(index as int, k as int); }
                        return Err(DslError::UnknownStruct(name.clone()));
                    }
                    if let Some(j) = self.find_struct_index(name.as_str()) {
                        if j < self.structs.len() && fuel > 0 {
                            match self.validate_fields(j, fuel - 1) {
                                Ok(()) => {},
                                Err(e) => return Err(e),
                            }
                        }
                    }
                },
                DataType::Array { element_type, .. } => {
                    if let DataType::Struct { name } = &**element_type {
                        if !self.struct_exists(name.as_str()) {
                            proof { self.lemma_unresolved(index as int, k as int); }
                            return Err(DslError::UnknownStruct(name.clone()));
                        }
                    }
                },
                DataType::Enum { name, .. } => {
                    if !self.enum_exists(name.as_str()) {
                        proof { self.lemma_unresolved(index as int, k as int); }
                        return Err(DslError::UnknownEnum(name.clone()));
                    }
                },
                _ => {},
            }
            k = k + 1;
        }
        Ok(())
    }

    fn validate_struct_references(&self) -> (r: Result<(), DslError>)
        ensures
            r is Ok <==> refs_resolved(self@),
            r matches Err(e) ==> (e matches DslError::UnknownStruct(n) && !struct_known(self@, n@))
                || (e matches DslError::UnknownEnum(n) && !enum_known(self@, n@)),
    {
        let n = self.structs.len();
        match self.validate_fields(n, n) {
            Ok(()) => {},
            Err(e) => return Err(e),
        }
        let mut i: usize = 0;
        while i < n
            invariant
                n == self.structs@.len(),
                i <= n,
                forall|a: int, k: int| (a == n || 0 <= a < i) && 0 <= k < self.struct_at_spec(a).fields@.len()
                    ==> field_resolved(self@, #[trigger] self.struct_at_spec(a).fields@[k]),
            decreases n - i,
        {
            match self.validate_fields(i, n) {
                Ok(()) => {},
                Err(e) => return Err(e),
            }
            i = i + 1;
        }
        proof {
            assert forall|a: int, k: int| 0 <= a < all_structs(self@).len() && 0 <= k < all_structs(self@)[a].fields.len()
                implies field_resolved(self@, #[trigger] all_structs(self@)[a].fields[k]) by {
                assert(all_structs(self@)[a] == self.struct_at_spec(a)@);
            }
        }
        Ok(())
    }

    /// Checks that struct references form no cycle and that every struct and
    /// enum that a field names exists.
    pub fn validate(&self) -> (r: Result<(), DslError>)
        ensures
            r is Ok <==> !has_cycle(self@) && refs_resolved(self@),
            has_cycle(self@) ==> (r matches Err(e) && e is CircularReference),
            r matches Err(DslError::CircularReference(m)) ==> has_cycle(self@) && cycle_text(self@, m@)
                && cycle_message(self@) == Some(m@),
            cycle_message(self@) matches Some(t) ==> (r matches Err(DslError::CircularReference(m)) && m@ == t),
            r matches Err(e) ==> has_cycle(self@)
                || (e matches DslError::UnknownStruct(n) && !struct_known(self@, n@))
                || (e matches DslError::UnknownEnum(n) && !enum_known(self@, n@)),
    {
        match self.check_circular_references() {
            Ok(()) => {},
            Err(e) => return Err(e),
        }
        self.validate_struct_references()
    }

    /// Reads a definition from YAML text without checking its references.
    pub fn from_yaml_unvalidated(yaml_str: &str) -> (r: Result<FormatDefinition, DslError>)
        ensures
            match yaml_document(yaml_str@) {
                Ok(tree) => match format_of(tree) {
                    Some(m) => r is Ok && r.unwrap()@ == m,
                    None => r matches Err(DslError::YamlError(_)),
                },
                Err(_) => r matches Err(DslError::YamlError(_)),
            },
    {
        match parse_yaml(yaml_str) {
            Ok(tree) => match FormatDefinition::from_yaml_tree(&tree) {
                Ok(def) => Ok(def),
                Err(msg) => Err(DslError::YamlError(msg)),
            },
            Err(msg) => Err(DslError::YamlError(msg)),
        }
    }

    /// Reads a definition from YAML text and checks it with `validate`.
    pub fn from_yaml(yaml_str: &str) -> (r: Result<FormatDefinition, DslError>)
        ensures
            r matches Ok(d) ==> (yaml_document(yaml_str@) matches Ok(tree) && format_of(tree) == Some(d@)
                && refs_resolved(d@)),
            (yaml_document(yaml_str@) is Err || (yaml_document(yaml_str@) matches Ok(tree) && format_of(tree) is None))
                ==> r matches Err(DslError::YamlError(_)),
            match yaml_document(yaml_str@) {
                Ok(tree) => match format_of(tree) {
                    Some(f) => (r is Ok <==> !has_cycle(f) && refs_resolved(f))
                        && (has_cycle(f) ==> (r matches Err(e) && e is CircularReference))
                        && (r matches Err(DslError::CircularReference(m)) ==> cycle_text(f, m@) && cycle_message(f) == Some(m@))
                        && (cycle_message(f) matches Some(t) ==> (r matches Err(DslError::CircularReference(m)) && m@ == t)),
                    None => true,
                },
                Err(_) => true,
            },
    {
        let def = match FormatDefinition::from_yaml_unvalidated(yaml_str) {
            Ok(d) => d,
            Err(e) => return Err(e),
        };
        match def.validate() {
            Ok(()) => Ok(def),
            Err(e) => Err(e),
        }
    }
}

} // verus!
