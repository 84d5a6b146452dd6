use binparse_cli::bfmt::{compile_to_bfmt, count_fields, BfmtError};
use binparse_cli::bfmt_load::load_from_bfmt;
use binparse_cli::dsl::FormatDefinition;

fn create_test_format() -> FormatDefinition {
    let yaml = r#"
name: TestFormat
magic: [0xDE, 0xAD, 0xBE, 0xEF]
enums:
  - name: TestEnum
    values:
      VALUE_A: 0
      VALUE_B: 1
      VALUE_C: 2
structs:
  - name: SubStruct
    fields:
      - name: sub_field1
        type: u16
        offset: "0"
        endian: big
        format: hex
      - name: sub_field2
        type: u32
        offset: relative
        format: dec
root:
  name: RootStruct
  fields:
    - name: magic
      type:
        bytes:
          length: "4"
      offset: "0"
      format: hex
    - name: length
      type: u32
      offset: relative
      endian: little
      format: dec
    - name: type_code
      type:
        enum:
          name: TestEnum
          underlying: u8
      offset: relative
    - name: data
      type:
        struct: SubStruct
      offset: relative
      condition:
        when: type_code == 1
    - name: checksum
      type: u32
      offset: relative
      format: hex
      checksum:
        algorithm: crc32
        start: "4"
        end: "12"
"#;
    FormatDefinition::from_yaml(yaml).unwrap()
}

#[test]
fn test_roundtrip_compile_decompile() {
    let def = create_test_format();
    let mut buf = Vec::new();
    let size = compile_to_bfmt(&def, &mut buf, false).unwrap();
    assert!(size > 0);
    assert_eq!(buf.len(), size);
    let def2 = load_from_bfmt(buf.as_slice()).unwrap();
    assert_eq!(def.name, def2.name);
    assert_eq!(def.magic, def2.magic);
    assert_eq!(def.enums.len(), def2.enums.len());
    assert_eq!(def.structs.len(), def2.structs.len());
    assert_eq!(def.root.name, def2.root.name);
    assert_eq!(def.root.fields.len(), def2.root.fields.len());
}

#[test]
fn test_invalid_magic() {
    let invalid_data = b"INVALID";
    let result = load_from_bfmt(invalid_data.as_slice());
    assert!(result.is_err());
    assert!(result.err().unwrap().message().contains("Invalid magic"));
}

#[test]
fn test_truncated_header() {
    let invalid_data = b"BFMT";
    let result = load_from_bfmt(invalid_data.as_slice());
    assert!(result.is_err());
    assert!(result.err().unwrap().message().contains("Unexpected EOF"));
}

#[test]
fn test_invalid_version() {
    let mut data = Vec::new();
    data.extend_from_slice(b"BFMT");
    data.extend_from_slice(&9999u16.to_le_bytes());
    data.extend_from_slice(&0u16.to_le_bytes());
    data.extend_from_slice(&0u32.to_le_bytes());
    data.extend_from_slice(&0u32.to_le_bytes());
    let result = load_from_bfmt(data.as_slice());
    assert!(result.is_err());
    assert!(result.err().unwrap().message().contains("Invalid version"));
}

#[test]
fn test_debug_flag() {
    let def = create_test_format();
    let mut buf_debug = Vec::new();
    let size_debug = compile_to_bfmt(&def, &mut buf_debug, true).unwrap();
    let mut buf_normal = Vec::new();
    let size_normal = compile_to_bfmt(&def, &mut buf_normal, false).unwrap();
    assert!(size_debug > size_normal);
    let field_count = count_fields(&def);
    assert_eq!(size_debug - size_normal, field_count * 4);
}

#[test]
fn test_relative_offset_encodes_as_invalid_index() {
    let def = create_test_format();
    let mut buf = Vec::new();
    compile_to_bfmt(&def, &mut buf, false).unwrap();
    let relative_fields: Vec<_> = def.root.fields.iter()
        .filter(|f| f.offset.as_deref() == Some("relative"))
        .collect();
    assert!(!relative_fields.is_empty(), "test format should have relative offset fields");
    let def2 = load_from_bfmt(buf.as_slice()).unwrap();
    for orig in &relative_fields {
        let restored = def2.root.fields.iter().find(|f| f.name == orig.name).unwrap();
        assert_eq!(restored.offset.as_deref(), Some("relative"),
            "field '{}' should have offset=relative after roundtrip", orig.name);
    }
}

#[test]
fn test_bfmt_messages() {
    let e = BfmtError::UnexpectedEof { offset: 0x1A, needed: 4, available: 0 };
    assert_eq!(e.message(), "Unexpected EOF at offset 0x0000001A: needed 4 bytes, only 0 available");
    let e = BfmtError::InvalidMagic { offset: 0, expected: *b"BFMT", got: *b"INVA" };
    assert_eq!(e.message(), "Invalid magic at offset 0x00000000: expected [66, 70, 77, 84], got [73, 78, 86, 65]");
    let e = BfmtError::InvalidStringTable { offset: 20 };
    assert_eq!(e.message(), "Invalid string table at offset 0x00000014: zero-length string");
}

#[test]
fn test_load_zero_struct_count() {
    let mut data = Vec::new();
    data.extend_from_slice(b"BFMT");
    data.extend_from_slice(&1u16.to_le_bytes());
    data.extend_from_slice(&0u16.to_le_bytes());
    data.extend_from_slice(&0u32.to_le_bytes());
    data.extend_from_slice(&0u32.to_le_bytes());
    data.extend_from_slice(&0u32.to_le_bytes());
    match load_from_bfmt(data.as_slice()) {
        Err(BfmtError::UnexpectedEof { offset, needed, .. }) => {
            assert_eq!(offset, 20);
            assert_eq!(needed, 1);
        }
        _ => panic!("expected an early end"),
    }
}

#[test]
fn test_roundtrip_keeps_fields() {
    let def = create_test_format();
    let mut buf = Vec::new();
    compile_to_bfmt(&def, &mut buf, true).unwrap();
    let def2 = load_from_bfmt(buf.as_slice()).unwrap();
    assert_eq!(def2.structs[0].fields[0].name, "sub_field1");
    assert_eq!(def2.root.fields[4].checksum.as_ref().unwrap().algorithm, "crc32");
    assert_eq!(def2.root.fields[3].condition.as_ref().unwrap().expression, "type_code == 1");
    assert_eq!(def2.enums[0].values.len(), 3);
}

#[test]
fn roundtrip_keeps_fields_and_reads_absent_offsets_as_relative() {
    let def = create_test_format();
    let mut buf = Vec::new();
    compile_to_bfmt(&def, &mut buf, true).unwrap();
    let back = load_from_bfmt(buf.as_slice()).unwrap();
    assert_eq!(back.structs[0].fields[0].name, "sub_field1");
    assert_eq!(back.structs[0].fields[1].offset.as_deref(), Some("relative"));
    assert_eq!(back.enums[0].values, def.enums[0].values);
    for (a, b) in def.root.fields.iter().zip(back.root.fields.iter()) {
        assert_eq!(a.name, b.name);
        assert_eq!(a.data_type, b.data_type);
        assert_eq!(a.endian, b.endian);
        assert_eq!(a.display_format, b.display_format);
        assert_eq!(b.description, None);
    }
}

#[test]
fn utf8_error_message_matches_std() {
    for bytes in [vec![0x61u8, 0xFF, 0x62], vec![0xE2u8, 0x82]] {
        let err = String::from_utf8(bytes).unwrap_err().utf8_error();
        let e = BfmtError::Utf8Error { offset: 3, valid_up_to: err.valid_up_to(), error_len: err.error_len().map(|n| n as u8) };
        assert_eq!(e.message(), format!("UTF-8 error at offset 0x{:08X}: {}", 3, err));
    }
}
