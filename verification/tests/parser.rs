use binparse_cli::dsl::FormatDefinition;
use binparse_cli::parser::{parse, ParsedValue, ParserError};
use binparse_cli::display::TextPart;
use binparse_cli::dsl::DisplayFormat;

fn create_test_format() -> FormatDefinition {
    let yaml = r#"
name: test
enums:
  - name: TestEnum
    values:
      VALUE_A: 1
      VALUE_B: 2
root:
  name: root
  fields:
    - name: magic
      type: u32
      offset: "0"
      endian: big
      format: hex
    - name: length
      type: u16
      offset: relative
      endian: little
    - name: count
      type: u8
      offset: relative
    - name: items
      type:
        array:
          element_type: u8
          length: count
      offset: relative
    - name: enum_val
      type:
        enum:
          name: TestEnum
          underlying: u8
      offset: relative
"#;
    FormatDefinition::from_yaml(yaml).unwrap()
}

#[test]
fn test_parse_simple() {
    let format = create_test_format();
    let data: Vec<u8> = vec![
        0x12, 0x34, 0x56, 0x78,
        0x04, 0x00,
        0x03,
        0x10, 0x20, 0x30,
        0x02,
    ];

    let (result, has_failures) = parse(&data, &format).unwrap();
    assert!(!has_failures);

    if let ParsedValue::Struct(fields) = &result.value {
        assert_eq!(fields.len(), 5);
        assert_eq!(fields[0].name, "magic");
        assert_eq!(fields[0].value, ParsedValue::U32(0x12345678));
        assert_eq!(fields[1].value, ParsedValue::U16(4));
        assert_eq!(fields[2].value, ParsedValue::U8(3));

        if let ParsedValue::Array(items) = &fields[3].value {
            assert_eq!(items.len(), 3);
            assert_eq!(items[0], ParsedValue::U8(0x10));
            assert_eq!(items[1], ParsedValue::U8(0x20));
            assert_eq!(items[2], ParsedValue::U8(0x30));
        } else {
            panic!("Expected array");
        }

        if let ParsedValue::Enum { name, value, display } = &fields[4].value {
            assert_eq!(name, "TestEnum");
            assert_eq!(*value, 2);
            assert_eq!(display, "VALUE_B (2)");
        } else {
            panic!("Expected enum");
        }
    } else {
        panic!("Expected struct");
    }
}

#[test]
fn test_truncated_file() {
    let format = create_test_format();
    let data: Vec<u8> = vec![0x12, 0x34];

    let (result, _) = parse(&data, &format).unwrap();
    if let ParsedValue::Struct(fields) = &result.value {
        assert!(fields[0].truncated);
    }
}

#[test]
fn test_parse_paths_and_offsets() {
    let format = create_test_format();
    let data: Vec<u8> = vec![0x12, 0x34, 0x56, 0x78, 0x04, 0x00, 0x03, 0x10, 0x20, 0x30, 0x02];
    let (result, _) = parse(&data, &format).unwrap();
    assert_eq!(result.path, "root");
    assert_eq!(result.length, 11);
    assert_eq!(result.children[3].path, "root.items");
    assert_eq!(result.children[3].offset, 7);
    assert_eq!(result.children[3].length, 3);
    assert_eq!(result.children[4].offset, 10);
}

#[test]
fn test_truncation_marks_later_fields() {
    let format = create_test_format();
    let data: Vec<u8> = vec![0x12, 0x34, 0x56, 0x78, 0x04];
    let (result, _) = parse(&data, &format).unwrap();
    assert!(!result.children[0].truncated);
    assert!(result.children[1].truncated);
    assert!(result.children[2].truncated);
    assert_eq!(result.children[1].length, 0);
}

#[test]
fn test_checksum_detection() {
    let yaml = r#"
name: sums
root:
  name: root
  fields:
    - name: a
      type: u8
      offset: "0"
    - name: b
      type: u8
      offset: relative
    - name: total
      type: u32
      offset: relative
      endian: little
      checksum:
        algorithm: sum
        start: "0"
        end: "2"
"#;
    let format = FormatDefinition::from_yaml(yaml).unwrap();
    let good = vec![3u8, 4, 7, 0, 0, 0];
    let (_, failed) = parse(&good, &format).unwrap();
    assert!(!failed);
    let bad = vec![3u8, 4, 8, 0, 0, 0];
    let (_, failed) = parse(&bad, &format).unwrap();
    assert!(failed);
}

#[test]
fn test_condition_skips_field() {
    let yaml = r#"
name: cond
root:
  name: root
  fields:
    - name: kind
      type: u8
      offset: "0"
    - name: extra
      type: u8
      offset: relative
      condition:
        when: kind == 1
    - name: tail
      type: u8
      offset: relative
"#;
    let format = FormatDefinition::from_yaml(yaml).unwrap();
    let (result, _) = parse(&[0u8, 9, 9], &format).unwrap();
    assert!(result.children[1].skipped);
    assert!(!result.children[1].undecidable);
    assert_eq!(result.children[2].offset, 1);
    let (result, _) = parse(&[1u8, 9, 8], &format).unwrap();
    assert!(!result.children[1].skipped);
    assert_eq!(result.children[2].value, ParsedValue::U8(8));
}

#[test]
fn test_unknown_struct_error() {
    let yaml = r#"
name: bad
root:
  name: root
  fields:
    - name: inner
      type:
        struct: Missing
      offset: "0"
"#;
    let format = FormatDefinition::from_yaml_unvalidated(yaml).unwrap();
    match parse(&[0u8; 4], &format) {
        Err(ParserError::UnknownStruct(n)) => assert_eq!(n, "Missing"),
        other => panic!("unexpected: {:?}", other.is_ok()),
    }
}

#[test]
fn test_display_parts() {
    assert_eq!(ParsedValue::U16(0x1A).display(DisplayFormat::Hex), vec![TextPart::Text("0x001A".to_string())]);
    assert_eq!(ParsedValue::I8(-1).display(DisplayFormat::Hex), vec![TextPart::Text("0xFF".to_string())]);
    assert_eq!(ParsedValue::U8(5).display(DisplayFormat::Bin), vec![TextPart::Text("0b00000101".to_string())]);
    assert_eq!(ParsedValue::I32(-42).display(DisplayFormat::Dec), vec![TextPart::Text("-42".to_string())]);
    assert_eq!(ParsedValue::Bytes(vec![0x41, 0x00, 0x7A]).display(DisplayFormat::Ascii), vec![TextPart::Text("A.z".to_string())]);
    assert_eq!(ParsedValue::Bytes(vec![0xDE, 0xAD]).display(DisplayFormat::Hex), vec![TextPart::Text("[DE AD]".to_string())]);
    assert_eq!(ParsedValue::F64(0).display(DisplayFormat::Dec), vec![TextPart::Double(0)]);
}

#[test]
fn shift_in_an_offset_is_refused_not_evaluated() {
    let ctx: Vec<(String, binparse_cli::expr::CtxValue)> = Vec::new();
    let r = binparse_cli::expr::eval_usize("shl(1, 64)", &ctx);
    assert!(r.unwrap_err().contains("not supported"));
    assert_eq!(binparse_cli::expr::eval_usize("2 * 3", &ctx), Ok(6));
}

#[test]
fn absolute_value_and_substring_in_a_condition_are_refused() {
    let ctx: Vec<(String, binparse_cli::expr::CtxValue)> = Vec::new();
    let r = binparse_cli::expr::eval_condition("math::abs(-9223372036854775807 - 1) > 0", &ctx);
    assert!(r.unwrap_err().contains("not supported"));
    let r = binparse_cli::expr::eval_condition("str::substring(\"é\", 0, 1) == \"\"", &ctx);
    assert!(r.unwrap_err().contains("not supported"));
    assert_eq!(binparse_cli::expr::eval_condition("1 < 2", &ctx), Ok(true));
}

#[test]
fn only_whole_names_of_panicking_builtins_are_refused() {
    assert!(binparse_cli::expr::risky_builtin("shl(1, 2)"));
    assert!(binparse_cli::expr::risky_builtin("1 + shr(x,3)"));
    assert!(binparse_cli::expr::risky_builtin("math::abs(y) > 2"));
    assert!(binparse_cli::expr::risky_builtin("str::substring(s, 0, 1)"));
    assert!(!binparse_cli::expr::risky_builtin("shrink * 2"));
    assert!(!binparse_cli::expr::risky_builtin("a.shl + math::absolute"));
    let ctx: Vec<(String, binparse_cli::expr::CtxValue)> = vec![("shrink".to_string(), binparse_cli::expr::CtxValue::Int(3))];
    assert_eq!(binparse_cli::expr::eval_usize("shrink * 2", &ctx), Ok(6));
}
