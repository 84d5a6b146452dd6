use binparse_cli::dsl::FormatDefinition;
use binparse_cli::validate::validate_format_definition;

#[test]
fn test_validate_valid_format() {
    let yaml = r#"
name: test
root:
  name: root
  fields:
    - name: magic
      type: u32
      offset: "0"
    - name: length
      type: u16
      offset: relative
"#;
    let def = FormatDefinition::from_yaml_unvalidated(yaml).unwrap();
    let errors = validate_format_definition(&def);
    assert!(errors.is_empty(), "Expected no errors, got: {:?}", errors);
}

#[test]
fn test_validate_undefined_field_in_offset() {
    let yaml = r#"
name: test
root:
  name: root
  fields:
    - name: magic
      type: u32
      offset: "0"
    - name: data
      type: u16
      offset: "undefined_field + 4"
"#;
    let def = FormatDefinition::from_yaml_unvalidated(yaml).unwrap();
    let errors = validate_format_definition(&def);
    assert!(!errors.is_empty());
    assert!(errors.iter().any(|e| e.reason.contains("未定义")));
}

#[test]
fn test_validate_undefined_struct() {
    let yaml = r#"
name: test
root:
  name: root
  fields:
    - name: header
      type:
        struct: NonExistent
      offset: "0"
"#;
    let def = FormatDefinition::from_yaml_unvalidated(yaml).unwrap();
    let errors = validate_format_definition(&def);
    assert!(!errors.is_empty());
    assert!(errors.iter().any(|e| e.reason.contains("未定义")));
}

#[test]
fn test_validate_enum_value_out_of_range() {
    let yaml = r#"
name: test
enums:
  - name: TestEnum
    values:
      BIG_VAL: 300
root:
  name: root
  fields:
    - name: val
      type:
        enum:
          name: TestEnum
          underlying: u8
      offset: "0"
"#;
    let def = FormatDefinition::from_yaml_unvalidated(yaml).unwrap();
    let errors = validate_format_definition(&def);
    assert!(!errors.is_empty());
    assert!(errors.iter().any(|e| e.reason.contains("underlying类型范围")));
}

#[test]
fn test_validate_invalid_when_expression() {
    let yaml = r#"
name: test
root:
  name: root
  fields:
    - name: kind
      type: u8
      offset: "0"
    - name: data
      type: u32
      offset: relative
      condition:
        when: kind > 5
"#;
    let def = FormatDefinition::from_yaml_unvalidated(yaml).unwrap();
    let errors = validate_format_definition(&def);
    assert!(!errors.is_empty());
    assert!(errors.iter().any(|e| e.reason.contains("==") || e.reason.contains("!=")));
}

#[test]
fn test_validate_array_length_non_integer_ref() {
    let yaml = r#"
name: test
root:
  name: root
  fields:
    - name: name
      type:
        string:
          length: "10"
          encoding: ascii
      offset: "0"
    - name: items
      type:
        array:
          element_type: u8
          length: name
      offset: relative
"#;
    let def = FormatDefinition::from_yaml_unvalidated(yaml).unwrap();
    let errors = validate_format_definition(&def);
    assert!(!errors.is_empty());
    assert!(errors.iter().any(|e| e.reason.contains("不是整数类型")));
}

#[test]
fn test_validate_enum_u16_range() {
    let yaml = r#"
name: test
enums:
  - name: TestEnum
    values:
      BIG_VAL: 70000
root:
  name: root
  fields:
    - name: val
      type:
        enum:
          name: TestEnum
          underlying: u16
      offset: "0"
"#;
    let def = FormatDefinition::from_yaml_unvalidated(yaml).unwrap();
    let errors = validate_format_definition(&def);
    assert!(!errors.is_empty());
    assert!(errors.iter().any(|e| e.reason.contains("underlying类型范围")));
}

#[test]
fn validate_reports_exact_messages() {
    let yaml = r#"
name: test
enums:
  - name: E
    values:
      A: -1
root:
  name: root
  fields:
    - name: kind
      type: u8
      offset: "0"
    - name: data
      type: u32
      offset: "kind + later"
      condition:
        when: hdr.len == 0x1F
    - name: e
      type:
        enum:
          name: E
          underlying: u8
      offset: relative
    - name: t
      type:
        struct: root
      offset: relative
"#;
    let def = FormatDefinition::from_yaml_unvalidated(yaml).unwrap();
    let errors = validate_format_definition(&def);
    let got: Vec<(String, String)> = errors.iter().map(|e| (e.location.clone(), e.reason.clone())).collect();
    assert_eq!(
        got,
        vec![
            ("root.data".to_string(), "offset表达式引用了未定义或尚未定义的字段 'later'".to_string()),
            ("root.data".to_string(), "when表达式左侧 'hdr.len' 不是已定义的字段路径".to_string()),
            ("枚举.E.A".to_string(), "枚举值 -1 超出underlying类型范围(0~255)".to_string()),
        ]
    );
}

#[test]
fn validate_when_right_side_and_literals() {
    let yaml = r#"
name: test
root:
  name: root
  fields:
    - name: kind
      type: u8
      offset: "0"
    - name: a
      type: u8
      offset: relative
      condition:
        when: kind != abc
    - name: b
      type: u8
      offset: relative
      condition:
        when: "kind == -5"
"#;
    let def = FormatDefinition::from_yaml_unvalidated(yaml).unwrap();
    let errors = validate_format_definition(&def);
    assert_eq!(errors.len(), 1);
    assert_eq!(errors[0].location, "root.a");
    assert_eq!(errors[0].reason, "when表达式右侧 'abc' 不是整数字面量");
}
