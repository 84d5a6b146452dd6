use binparse_cli::template::{extract_param_refs_from_expr, extract_bare_identifiers};

#[test]
fn test_extract_param_refs() {
    let expr = "${header_size} + ${extra_offset}";
    let refs = extract_param_refs_from_expr(expr);
    assert_eq!(refs, vec!["header_size", "extra_offset"]);
}

#[test]
fn extract_param_refs_edge_cases() {
    assert_eq!(extract_param_refs_from_expr("${} + ${a"), Vec::<String>::new());
    assert_eq!(extract_param_refs_from_expr("x${a}${b}y"), vec!["a", "b"]);
    assert_eq!(extract_param_refs_from_expr("${a${b}"), vec!["a${b"]);
}

#[test]
fn extract_bare_identifiers_skips_literals() {
    assert_eq!(
        extract_bare_identifiers("has_crc == true and version >= 2 or 3abc"),
        vec!["has_crc", "version"]
    );
}

use binparse_cli::template::{merge_inheritance_chain, ParameterType, TemplateDefinition};
use binparse_cli::yaml::YamlValue;

fn int_value(n: i128) -> YamlValue {
    YamlValue::Int(n, n.to_string())
}

#[test]
fn test_template_validate() {
    let yaml = r#"
parameters:
  - name: header_size
    type: int
    default: 16
  - name: has_checksum
    type: bool
name: TestTemplate
root:
  name: Header
  fields:
    - name: magic
      type:
        bytes:
          length: "${header_size}"
      offset: "0"
    - name: checksum
      type: u32
      offset: relative
      template_when: "has_checksum == true"
    - name: bad_field
      type: u32
      offset: relative
      template_when: "${undeclared_param} == true"
"#;
    let template = TemplateDefinition::from_yaml(yaml).unwrap();
    let errors = template.validate_template();
    assert!(!errors.is_empty());
    assert!(errors.iter().any(|e| e.reason.contains("未声明的参数")));
}

#[test]
fn test_template_validate_repeat_not_int() {
    let yaml = r#"
parameters:
  - name: channel_count
    type: string
  - name: count_val
    type: int
name: TestTemplate
root:
  name: Header
  fields:
    - name: channel
      type: u8
      offset: "0"
      template_repeat: "channel_count"
    - name: other
      type: u8
      offset: relative
      template_repeat: "count_val"
"#;
    let template = TemplateDefinition::from_yaml(yaml).unwrap();
    let errors = template.validate_template();
    assert!(errors.iter().any(|e| e.reason.contains("不是int类型")));
}

#[test]
fn test_duplicate_param_name() {
    let yaml = r#"
parameters:
  - name: size
    type: int
  - name: size
    type: string
name: Test
root:
  name: Header
  fields:
    - name: magic
      type: u32
      offset: "0"
"#;
    let template = TemplateDefinition::from_yaml(yaml).unwrap();
    let errors = template.validate_template();
    assert!(errors.iter().any(|e| e.reason.contains("重复")));
}

#[test]
fn test_default_type_mismatch() {
    let yaml = r#"
parameters:
  - name: size
    type: int
    default: "not_int"
name: Test
root:
  name: Header
  fields:
    - name: magic
      type: u32
      offset: "0"
"#;
    let template = TemplateDefinition::from_yaml(yaml).unwrap();
    let errors = template.validate_template();
    assert!(errors.iter().any(|e| e.reason.contains("default值类型与声明类型不匹配")));
}

#[test]
fn test_extends_field_parsed() {
    let yaml = r#"
extends: parent.yaml
name: Child
root:
  name: Header
  fields:
    - name: magic
      type: u32
      offset: "0"
"#;
    let template = TemplateDefinition::from_yaml(yaml).unwrap();
    assert_eq!(template.extends, Some("parent.yaml".to_string()));
}

#[test]
fn test_override_field_parsed() {
    let yaml = r#"
name: Test
root:
  name: Header
  fields:
    - name: checksum
      type: u64
      offset: relative
      override_field: checksum
"#;
    let template = TemplateDefinition::from_yaml(yaml).unwrap();
    assert_eq!(template.root.fields[0].override_field, Some("checksum".to_string()));
}

const PARENT_WITH_PARAMS: &str = r#"
parameters:
  - name: header_size
    type: int
    default: 16
  - name: version
    type: int
    default: 1
name: Parent
root:
  name: Header
  fields:
    - name: magic
      type: u32
      offset: "0"
"#;

#[test]
fn test_merge_inheritance_chain_params_override() {
    let child_yaml = r#"
extends: parent.yaml
parameters:
  - name: version
    type: int
    default: 2
name: Child
root:
  name: Header
  fields:
    - name: extra
      type: u32
      offset: relative
"#;
    let parent = TemplateDefinition::from_yaml(PARENT_WITH_PARAMS).unwrap();
    let child = TemplateDefinition::from_yaml(child_yaml).unwrap();
    let merged = merge_inheritance_chain(vec![child, parent]);
    let params = merged.get_parameters();
    assert_eq!(params.len(), 2);
    let version_param = params.iter().find(|p| p.name == "version").unwrap();
    assert_eq!(version_param.default, Some(int_value(2)));
    let header_size_param = params.iter().find(|p| p.name == "header_size").unwrap();
    assert_eq!(header_size_param.default, Some(int_value(16)));
}

#[test]
fn test_merge_inheritance_chain_fields_append() {
    let parent_yaml = r#"
name: Parent
root:
  name: Header
  fields:
    - name: magic
      type: u32
      offset: "0"
    - name: version
      type: u16
      offset: relative
"#;
    let child_yaml = r#"
extends: parent.yaml
name: Child
root:
  name: Header
  fields:
    - name: extra
      type: u32
      offset: relative
"#;
    let parent = TemplateDefinition::from_yaml(parent_yaml).unwrap();
    let child = TemplateDefinition::from_yaml(child_yaml).unwrap();
    let merged = merge_inheritance_chain(vec![child, parent]);
    assert_eq!(merged.root.fields.len(), 3);
    assert_eq!(merged.root.fields[0].name, "magic");
    assert_eq!(merged.root.fields[1].name, "version");
    assert_eq!(merged.root.fields[2].name, "extra");
}

#[test]
fn test_merge_inheritance_chain_override_field() {
    let parent_yaml = r#"
name: Parent
root:
  name: Header
  fields:
    - name: magic
      type: u32
      offset: "0"
    - name: checksum
      type: u16
      offset: relative
"#;
    let child_yaml = r#"
extends: parent.yaml
name: Child
root:
  name: Header
  fields:
    - name: overridden_checksum
      type: u64
      offset: relative
      override_field: checksum
"#;
    let parent = TemplateDefinition::from_yaml(parent_yaml).unwrap();
    let child = TemplateDefinition::from_yaml(child_yaml).unwrap();
    let merged = merge_inheritance_chain(vec![child, parent]);
    assert_eq!(merged.root.fields.len(), 2);
    assert_eq!(merged.root.fields[0].name, "magic");
    assert_eq!(merged.root.fields[1].name, "checksum");
    assert_eq!(merged.root.fields[1].override_field, None);
    match &merged.root.fields[1].data_type {
        YamlValue::Str(s) => assert_eq!(s, "u64"),
        _ => {}
    }
}

#[test]
fn test_get_merged_params_override_marker() {
    let child_yaml = r#"
extends: test_parent_template.yaml
parameters:
  - name: version
    type: int
    default: 2
name: Child
root:
  name: Header
  fields: []
"#;
    let parent = TemplateDefinition::from_yaml(PARENT_WITH_PARAMS).unwrap();
    let child = TemplateDefinition::from_yaml(child_yaml).unwrap();
    let result = child.get_merged_params(vec![parent]);
    assert_eq!(result.len(), 2);
    let version_info = result.iter().find(|p| p.param.name == "version").unwrap();
    assert!(version_info.overridden);
    let header_info = result.iter().find(|p| p.param.name == "header_size").unwrap();
    assert!(!header_info.overridden);
}

#[test]
fn test_validate_template_with_inheritance_type_conflict() {
    let parent_yaml = r#"
parameters:
  - name: size
    type: int
    default: 16
name: Parent
root:
  name: Header
  fields:
    - name: magic
      type: u32
      offset: "0"
"#;
    let child_yaml = r#"
extends: test_validate_parent.yaml
parameters:
  - name: size
    type: string
name: Child
root:
  name: Header
  fields: []
"#;
    let parent = TemplateDefinition::from_yaml(parent_yaml).unwrap();
    let child = TemplateDefinition::from_yaml(child_yaml).unwrap();
    let errors = child.validate_template_with_inheritance(&vec![parent], Vec::new());
    assert!(errors.iter().any(|e| e.reason.contains("参数类型冲突")));
}

#[test]
fn test_validate_template_override_field_not_in_parent() {
    let parent_yaml = r#"
name: Parent
root:
  name: Header
  fields:
    - name: magic
      type: u32
      offset: "0"
"#;
    let child_yaml = r#"
extends: test_override_parent.yaml
name: Child
root:
  name: Header
  fields:
    - name: foo
      type: u64
      override_field: nonexistent_field
"#;
    let parent = TemplateDefinition::from_yaml(parent_yaml).unwrap();
    let child = TemplateDefinition::from_yaml(child_yaml).unwrap();
    let errors = child.validate_template_with_inheritance(&vec![parent], Vec::new());
    assert!(errors
        .iter()
        .any(|e| e.reason.contains("override_field引用的字段名") && e.reason.contains("在父模板中不存在")));
}

#[test]
fn test_merge_three_level_inheritance() {
    let grandparent_yaml = r#"
parameters:
  - name: base_size
    type: int
    default: 8
  - name: version
    type: int
    default: 1
name: GrandParent
root:
  name: Header
  fields:
    - name: magic
      type: u32
      offset: "0"
    - name: base_field
      type: u16
      offset: relative
"#;
    let parent_yaml = r#"
extends: grandparent.yaml
parameters:
  - name: version
    type: int
    default: 2
  - name: has_checksum
    type: bool
    default: true
name: Parent
root:
  name: Header
  fields:
    - name: parent_field
      type: u16
      offset: relative
"#;
    let child_yaml = r#"
extends: parent.yaml
parameters:
  - name: extra_param
    type: string
    default: "hello"
name: Child
root:
  name: Header
  fields:
    - name: child_field
      type: u32
      offset: relative
"#;
    let grandparent = TemplateDefinition::from_yaml(grandparent_yaml).unwrap();
    let parent = TemplateDefinition::from_yaml(parent_yaml).unwrap();
    let child = TemplateDefinition::from_yaml(child_yaml).unwrap();
    let merged = merge_inheritance_chain(vec![child, parent, grandparent]);
    assert_eq!(merged.root.fields.len(), 4);
    assert_eq!(merged.root.fields[0].name, "magic");
    assert_eq!(merged.root.fields[1].name, "base_field");
    assert_eq!(merged.root.fields[2].name, "parent_field");
    assert_eq!(merged.root.fields[3].name, "child_field");
    let params = merged.get_parameters();
    assert_eq!(params.len(), 4);
    let version_param = params.iter().find(|p| p.name == "version").unwrap();
    assert_eq!(version_param.default, Some(int_value(2)));
}

#[test]
fn test_no_extends_preserves_existing_behavior() {
    let yaml = r#"
parameters:
  - name: header_size
    type: int
    default: 16
name: Test
root:
  name: Header
  fields:
    - name: magic
      type: u32
      offset: "0"
"#;
    let template = TemplateDefinition::from_yaml(yaml).unwrap();
    assert!(template.extends.is_none());
}

#[test]
fn validate_template_messages_exact() {
    let yaml = r#"
parameters:
  - name: n
    type: string
name: T
root:
  name: H
  fields:
    - name: f
      type:
        bytes:
          length: "${missing}"
      offset: "${n} + ${other}"
      template_repeat: "n"
"#;
    let template = TemplateDefinition::from_yaml(yaml).unwrap();
    let errors = template.validate_template();
    let got: Vec<(String, String)> = errors.iter().map(|e| (e.location.clone(), e.reason.clone())).collect();
    assert_eq!(
        got,
        vec![
            ("H.f".to_string(), "type中${missing}占位符引用了未声明的参数 'missing'".to_string()),
            ("H.f".to_string(), "offset中${other}占位符引用了未声明的参数 'other'".to_string()),
            ("H.f".to_string(), "template_repeat引用的参数 'n' 不是int类型 (实际: string)".to_string()),
        ]
    );
    assert_eq!(ParameterType::Bool.name(), "bool");
}

#[test]
fn inheritance_depth_limit_reported() {
    let t = TemplateDefinition::from_yaml("extends: p.yaml\nname: C\nroot:\n  name: H\n  fields: []\n").unwrap();
    let p = || TemplateDefinition::from_yaml("name: P\nroot:\n  name: H\n  fields: []\n").unwrap();
    let errors = t.validate_template_with_inheritance(&vec![p(), p(), p()], Vec::new());
    assert_eq!(errors.len(), 1);
    assert_eq!(errors[0].location, "extends");
    assert_eq!(errors[0].reason, "继承链超过最大深度 (最多3层)");
}

#[test]
fn condition_operators_are_not_parameters() {
    let yaml = r#"
parameters:
  - name: a
    type: bool
  - name: b
    type: int
name: TestTemplate
root:
  name: Header
  fields:
    - name: f
      type: u8
      offset: "0"
      template_when: "a == true and b == 2 or not a"
"#;
    let template = TemplateDefinition::from_yaml(yaml).unwrap();
    assert!(template.validate_template().is_empty());
}
