use binparse_cli::dsl::{DataType, DslError, Endian, FormatDefinition};

#[test]
fn test_parse_simple_format() {
    let yaml = r#"
name: test
root:
  name: root
  fields:
    - name: magic
      type: u32
      offset: "0"
      endian: big
    - name: length
      type: u16
      offset: relative
"#;
    let def = FormatDefinition::from_yaml(yaml).unwrap();
    assert_eq!(def.name, "test");
    assert_eq!(def.root.fields.len(), 2);
    assert_eq!(def.root.fields[0].name, "magic");
    assert_eq!(def.root.fields[0].data_type, DataType::U32);
    assert_eq!(def.root.fields[0].endian, Endian::Big);
}

#[test]
fn test_circular_reference_detection() {
    let yaml = r#"
name: test
structs:
  - name: A
    fields:
      - name: b
        type:
          struct: B
  - name: B
    fields:
      - name: a
        type:
          struct: A
root:
  name: root
  fields:
    - name: a
      type:
        struct: A
"#;
    let result = FormatDefinition::from_yaml(yaml);
    assert!(matches!(result, Err(DslError::CircularReference(_))));
}

#[test]
fn shared_struct_reference_is_no_cycle() {
    let yaml = r#"
name: test
structs:
  - name: Leaf
    fields:
      - name: v
        type: u8
  - name: Left
    fields:
      - name: leaf
        type:
          struct: Leaf
  - name: Right
    fields:
      - name: leaves
        type:
          array:
            element_type:
              struct: Leaf
            length: "2"
root:
  name: root
  fields:
    - name: l
      type:
        struct: Left
    - name: r
      type:
        struct: Right
"#;
    let def = FormatDefinition::from_yaml(yaml).unwrap();
    assert_eq!(def.structs.len(), 3);
}

#[test]
fn array_cycle_names_the_walk() {
    let yaml = r#"
name: test
structs:
  - name: Node
    fields:
      - name: children
        type:
          array:
            element_type:
              struct: Node
            length: "2"
root:
  name: root
  fields:
    - name: n
      type:
        struct: Node
"#;
    match FormatDefinition::from_yaml(yaml) {
        Err(DslError::CircularReference(msg)) => assert_eq!(msg, "Node -> Node"),
        other => panic!("expected a cycle, got {:?}", other),
    }
}

#[test]
fn cycle_message_names_the_walk() {
    let yaml = r#"
name: test
structs:
  - name: A
    fields:
      - name: b
        type:
          struct: B
  - name: B
    fields:
      - name: a
        type:
          struct: A
root:
  name: root
  fields:
    - name: a
      type:
        struct: A
"#;
    match FormatDefinition::from_yaml(yaml) {
        Err(DslError::CircularReference(p)) => assert_eq!(p, "A -> B -> A"),
        other => panic!("expected a cycle, got {:?}", other),
    }
}
