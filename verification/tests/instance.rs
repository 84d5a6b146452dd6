use binparse_cli::instance::{
    evaluate_template_when, format_merged_params_table, format_params_table, resolve_repeat_count, substitute_string,
    validate_param_type, InstanceConfig,
};
use binparse_cli::template::{MergedParamInfo, ParameterType, TemplateDefinition, TemplateError, TemplateParameter};
use binparse_cli::yaml::YamlValue;
use binparse_cli::dsl::DataType;
use binparse_cli::instantiate::substitute_yaml_value;

fn yint(i: i128) -> YamlValue {
    YamlValue::Int(i, i.to_string())
}

fn string(s: &str) -> YamlValue {
    YamlValue::Str(s.to_string())
}

#[test]
fn test_substitute_string() {
    let size = yint(64);
    let name = string("test");
    let params = vec![("payload_size", &size), ("name", &name)];
    let result = substitute_string("${payload_size}", &params);
    assert_eq!(result, "64");
    let result2 = substitute_string("prefix_${name}_suffix", &params);
    assert_eq!(result2, "prefix_test_suffix");
}

#[test]
fn substitute_leaves_unknown_placeholders_and_prints_booleans() {
    let flag = YamlValue::Bool(false);
    let params = vec![("flag", &flag)];
    assert_eq!(substitute_string("${flag}/${other}/${flag}", &params), "false/${other}/false");
}

#[test]
fn substitute_prints_other_values_with_debug() {
    let nothing = YamlValue::Null;
    let params = vec![("x", &nothing)];
    assert_eq!(substitute_string("[${x}]", &params), "[Null]");
}

#[test]
fn test_evaluate_template_when() {
    let has = YamlValue::Bool(true);
    let version = yint(2);
    let params = vec![("has_checksum", &has), ("version", &version)];
    assert!(evaluate_template_when("has_checksum == true", &params).unwrap());
    assert!(evaluate_template_when("version == 2", &params).unwrap());
    assert!(!evaluate_template_when("version == 1", &params).unwrap());
    assert!(evaluate_template_when("has_checksum == true and version == 2", &params).unwrap());
    assert!(!evaluate_template_when("has_checksum == true and version == 1", &params).unwrap());
    assert!(evaluate_template_when("has_checksum == true or version == 1", &params).unwrap());
    assert!(evaluate_template_when("not has_checksum == false", &params).unwrap());
}

#[test]
fn when_quotes_strings_and_reports_non_booleans() {
    let mode = string("fast");
    let params = vec![("mode", &mode)];
    assert!(evaluate_template_when("${mode} == \"fast\"", &params).unwrap());
    match evaluate_template_when("1 + 2", &params) {
        Err(TemplateError::ExpressionError(m)) => assert_eq!(m, "表达式求值结果不是布尔类型: Int(3)"),
        other => panic!("unexpected {:?}", other),
    }
}

#[test]
fn test_resolve_repeat_count() {
    let count = yint(4);
    let params = vec![("channel_count", &count)];
    assert_eq!(resolve_repeat_count("channel_count", &params).unwrap(), 4);
    assert_eq!(resolve_repeat_count("${channel_count}", &params).unwrap(), 4);
}

#[test]
fn repeat_count_refuses_negative_and_non_integers() {
    let count = yint(4);
    let params = vec![("n", &count)];
    match resolve_repeat_count("0 - n", &params) {
        Err(TemplateError::ExpressionError(m)) => assert_eq!(m, "template_repeat求值结果为负数: -4"),
        other => panic!("unexpected {:?}", other),
    }
    match resolve_repeat_count("n == 4", &params) {
        Err(TemplateError::ExpressionError(m)) => assert_eq!(m, "template_repeat求值结果不是整数: Boolean(true)"),
        other => panic!("unexpected {:?}", other),
    }
}

#[test]
fn test_validate_param_type() {
    assert!(validate_param_type("test", &ParameterType::Int, &yint(42)).is_ok());
    assert!(validate_param_type("test", &ParameterType::Int, &string("not_int")).is_err());
    assert!(validate_param_type("test", &ParameterType::Bool, &YamlValue::Bool(true)).is_ok());
    assert!(validate_param_type("test", &ParameterType::String, &string("hello")).is_ok());
}

#[test]
fn param_type_error_names_the_parameter_and_value() {
    match validate_param_type("size", &ParameterType::Int, &string("x")) {
        Err(TemplateError::ParameterTypeError { name, expected, value }) => {
            assert_eq!(name, "size");
            assert_eq!(expected, "int");
            assert_eq!(value, "String(\"x\")");
        }
        other => panic!("unexpected {:?}", other),
    }
    assert!(validate_param_type("n", &ParameterType::Int, &string("-17")).is_ok());
    assert!(validate_param_type("b", &ParameterType::Bool, &string("false")).is_ok());
    assert!(validate_param_type("b", &ParameterType::Bool, &string("yes")).is_err());
}

fn param(name: &str, t: ParameterType, default: Option<YamlValue>) -> TemplateParameter {
    TemplateParameter { name: name.to_string(), param_type: t, default }
}

#[test]
fn params_table_lists_each_parameter() {
    let ps = vec![param("size", ParameterType::Int, Some(yint(16))), param("flag", ParameterType::Bool, None)];
    let table = format_params_table(&ps);
    let expected = format!(
        "{:<20} {:<10} {:<15} {:<10}\n{:<20} {:<10} {:<15} {:<10}\n{:<20} {:<10} {:<15} {:<10}\n{:<20} {:<10} {:<15} {:<10}\n",
        "名称", "类型", "默认值", "必填", "----", "----", "------", "----", "size", "int", "16", "否", "flag", "bool", "-", "是"
    );
    assert_eq!(table, expected);
}

#[test]
fn merged_table_marks_overridden_parameters() {
    let ms = vec![MergedParamInfo { param: param("mode", ParameterType::String, Some(string("a"))), overridden: true }];
    let table = format_merged_params_table(&ms);
    let expected = format!(
        "{:<20} {:<10} {:<15} {:<10} {:<6}\n{:<20} {:<10} {:<15} {:<10} {:<6}\n{:<20} {:<10} {:<15} {:<10}\n",
        "名称", "类型", "默认值", "必填", "来源", "----", "----", "------", "----", "----", "mode (覆盖)", "string", "a", "否"
    );
    assert_eq!(table, expected);
}

const TEMPLATE: &str = r#"
parameters:
  - name: header_size
    type: int
  - name: has_checksum
    type: bool
    default: true
name: Test
root:
  name: Header
  fields:
    - name: magic
      type: u32
      offset: "0"
"#;

#[test]
fn resolving_takes_given_values_then_defaults() {
    let t = TemplateDefinition::from_yaml(TEMPLATE).unwrap();
    let given = vec![("header_size".to_string(), yint(8))];
    let resolved = t.resolve_parameters(&given).unwrap();
    assert_eq!(resolved.len(), 2);
    assert_eq!(resolved[0].0, "header_size");
    assert_eq!(resolved[0].1, &yint(8));
    assert_eq!(resolved[1].0, "has_checksum");
    assert_eq!(resolved[1].1, &YamlValue::Bool(true));
}

#[test]
fn resolving_reports_missing_and_mistyped_values() {
    let t = TemplateDefinition::from_yaml(TEMPLATE).unwrap();
    let none: Vec<(String, YamlValue)> = Vec::new();
    assert!(matches!(t.resolve_parameters(&none), Err(TemplateError::MissingParameter(n)) if n == "header_size"));
    let bad = vec![("header_size".to_string(), string("not_a_number"))];
    assert!(matches!(t.resolve_parameters(&bad), Err(TemplateError::ParameterTypeError { .. })));
}

#[test]
fn instance_config_reads_path_and_values() {
    let c = InstanceConfig::from_yaml("template_path: base.yaml\nparameters:\n  size: 4\n  name: x\n").unwrap();
    assert_eq!(c.template_path, "base.yaml");
    assert_eq!(c.parameters.len(), 2);
    assert_eq!(c.parameters[0].0, "size");
    assert_eq!(c.parameters[0].1, yint(4));
    assert_eq!(c.parameters[1], ("name".to_string(), string("x")));
    assert!(InstanceConfig::from_yaml("parameters: {}\n").is_err());
}

#[test]
fn test_template_instantiate() {
    let yaml = r#"
parameters:
  - name: header_size
    type: int
    default: 16
  - name: has_checksum
    type: bool
    default: true
  - name: channel_count
    type: int
name: DeviceFirmware
root:
  name: Header
  fields:
    - name: magic
      type:
        bytes:
          length: "4"
      offset: "0"
      format: hex
    - name: header_data
      type:
        bytes:
          length: "${header_size}"
      offset: relative
    - name: checksum
      type: u32
      offset: relative
      template_when: "has_checksum == true"
    - name: channel
      type: u8
      offset: relative
      template_repeat: "channel_count"
"#;
    let template = TemplateDefinition::from_yaml(yaml).unwrap();
    let params = vec![("channel_count".to_string(), yint(3))];
    let result = template.instantiate(&params).unwrap();
    assert_eq!(result.name, "DeviceFirmware");
    assert_eq!(result.root.fields.len(), 6);

    let header_data_field = &result.root.fields[1];
    assert_eq!(header_data_field.name, "header_data");
    match &header_data_field.data_type {
        DataType::Bytes { length } => {
            assert_eq!(length, "16");
        }
        _ => panic!("Expected Bytes type"),
    }
}

#[test]
fn instantiate_names_copies_and_drops_false_conditions() {
    let yaml = r#"
parameters:
  - name: n
    type: int
    default: 2
  - name: crc
    type: bool
    default: false
name: T_${n}
root:
  name: R
  fields:
    - name: ch
      type: u8
      template_repeat: "n"
    - name: crc
      type: u32
      template_when: "crc == true"
"#;
    let template = TemplateDefinition::from_yaml(yaml).unwrap();
    let none: Vec<(String, YamlValue)> = Vec::new();
    let result = template.instantiate(&none).unwrap();
    assert_eq!(result.name, "T_2");
    let names: Vec<&str> = result.root.fields.iter().map(|f| f.name.as_str()).collect();
    assert_eq!(names, vec!["ch_0", "ch_1"]);
}

#[test]
fn test_missing_required_param() {
    let template = TemplateDefinition::from_yaml(TEMPLATE).unwrap();
    let params: Vec<(String, YamlValue)> = Vec::new();
    let result = template.instantiate(&params);
    assert!(matches!(result, Err(TemplateError::MissingParameter(_))));
}

#[test]
fn test_param_type_mismatch() {
    let yaml = r#"
parameters:
  - name: header_size
    type: int
name: Test
root:
  name: Header
  fields:
    - name: magic
      type: u32
      offset: "0"
"#;
    let template = TemplateDefinition::from_yaml(yaml).unwrap();
    let params = vec![("header_size".to_string(), string("not_a_number"))];
    let result = template.instantiate(&params);
    assert!(matches!(result, Err(TemplateError::ParameterTypeError { .. })));
}

#[test]
fn test_substitute_yaml_value_nested() {
    let size = yint(32);
    let params = vec![("header_size", &size)];
    let inner = YamlValue::Mapping(vec![(string("length"), string("${header_size}"))]);
    let yaml = YamlValue::Mapping(vec![(string("bytes"), inner)]);

    let result = substitute_yaml_value(&yaml, &params);

    match &result {
        YamlValue::Mapping(outer_map) => {
            let bytes_val = &outer_map.iter().find(|(k, _)| *k == string("bytes")).unwrap().1;
            match bytes_val {
                YamlValue::Mapping(inner_map) => {
                    let length_val = &inner_map.iter().find(|(k, _)| *k == string("length")).unwrap().1;
                    match length_val {
                        YamlValue::Str(s) => assert_eq!(s, "32"),
                        _ => panic!("length should be a string"),
                    }
                }
                _ => panic!("bytes value should be a mapping"),
            }
        }
        _ => panic!("result should be a mapping"),
    }

    let data_type = DataType::from_yaml_value(&result).unwrap();
    match data_type {
        DataType::Bytes { length } => assert_eq!(length, "32"),
        _ => panic!("Expected Bytes type"),
    }
}

#[test]
fn substitution_merges_keys_that_become_equal() {
    let k = string("a");
    let params = vec![("k", &k)];
    let yaml = YamlValue::Mapping(vec![(string("a"), yint(1)), (string("${k}"), yint(2))]);
    let result = substitute_yaml_value(&yaml, &params);
    assert_eq!(result, YamlValue::Mapping(vec![(string("a"), yint(2))]));
}

#[test]
fn yaml_infinity_is_a_float_in_conditions() {
    let inf = YamlValue::Float(".inf".to_string());
    let neg = YamlValue::Float("-.inf".to_string());
    let params: Vec<(&str, &YamlValue)> = vec![("big", &inf), ("small", &neg)];
    assert!(evaluate_template_when("big > 1.0 and small < 0.0", &params).unwrap());
}
