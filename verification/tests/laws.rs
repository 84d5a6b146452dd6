use binparse_cli::diff::{compare_fields, diff};
use binparse_cli::dsl::{DisplayFormat, FormatDefinition};
use binparse_cli::filter::{filter_parsed_field, has_matching_fields, matches_glob, simple_glob_match};
use binparse_cli::parser::{parse, ChecksumResult, ParsedField, ParsedValue};
use binparse_cli::patch::{prepare_patch, FloatReading, PatchInstruction};
use binparse_cli::stats::ParseStats;

fn leaf(name: &str, path: &str, offset: usize, value: ParsedValue, checksum: Option<ChecksumResult>) -> ParsedField {
    ParsedField {
        name: name.to_string(),
        path: path.to_string(),
        offset,
        length: 4,
        value,
        display_format: DisplayFormat::Dec,
        truncated: false,
        undecidable: false,
        skipped: false,
        checksum_result: checksum,
        children: Vec::new(),
    }
}

fn root() -> ParsedField {
    let kids = || {
        vec![
            leaf("a", "root.a", 0, ParsedValue::U32(1), Some(ChecksumResult::Passed)),
            leaf("b", "root.b", 4, ParsedValue::I8(-2), Some(ChecksumResult::Failed { expected: 1, actual: 2 })),
            leaf("c", "root.c", 8, ParsedValue::U32(3), None),
        ]
    };
    ParsedField { length: 12, value: ParsedValue::Struct(kids()), children: kids(), ..leaf("root", "root", 0, ParsedValue::U8(0), None) }
}

#[test]
fn star_matches_any_segment_and_plain_paths_match_themselves() {
    for t in ["", "x", "width", "a.b"] {
        assert!(simple_glob_match("*", t));
    }
    for p in ["root", "PNGFile.ihdr.width", "a..b"] {
        assert!(matches_glob(p, p));
    }
}

#[test]
fn matching_fields_exist_exactly_when_filtering_keeps_a_tree() {
    let r = root();
    for p in ["root.a", "*.c", "root.*", "nothing", "root", "x.*"] {
        assert_eq!(has_matching_fields(&r, p), filter_parsed_field(&r, p).is_some(), "pattern {}", p);
    }
}

#[test]
fn comparing_a_tree_with_itself_finds_no_difference() {
    let r = root();
    let d = compare_fields(&r, &r);
    assert!(!d.is_different);
    assert!(d.children.iter().all(|c| !c.is_different));
    let result = diff(&r, &r);
    assert_eq!(result.different_fields, 0);
    assert_eq!(result.total_fields, 3);
}

#[test]
fn statistics_add_up_to_the_leaf_count() {
    let s = ParseStats::from_parsed_field(&root(), 12);
    assert_eq!(s.checksum_passed + s.checksum_failed + s.checksum_none, s.total_leaf_fields);
    assert_eq!(s.type_counts.iter().map(|(_, n)| n).sum::<usize>(), s.total_leaf_fields);
    assert_eq!(s.total_leaf_fields, 3);
}

#[test]
fn patching_writes_only_the_changed_field() {
    let def = FormatDefinition::from_yaml(
        "name: T\nroot:\n  name: R\n  fields:\n    - name: a\n      type: u16\n      offset: \"0\"\n    - name: b\n      type: u16\n      offset: relative\n",
    )
    .unwrap();
    let input = vec![1u8, 0, 2, 0, 9];
    let ins = vec![PatchInstruction { field_path: "R.b".to_string(), new_value_str: "0x0304".to_string() }];
    let floats: Vec<FloatReading> = ins.iter().map(|i| reading(&i.new_value_str)).collect();
    let plan = prepare_patch(&input, &def, &ins, &floats, true).unwrap();
    assert_eq!(plan.data, vec![1u8, 0, 4, 3, 9]);
    assert_eq!(plan.changes.len(), 1);
    assert_eq!(plan.changes[0].offset, 2);
    let (reparsed, _) = parse(&plan.data, &def).unwrap();
    assert_eq!(reparsed.children[1].value.to_u64(), Some(0x0304));
}

fn reading(text: &str) -> FloatReading {
    FloatReading {
        single: text.parse::<f32>().map(|v| (v.to_bits(), v.to_string())).map_err(|e| e.to_string()),
        double: text.parse::<f64>().map(|v| (v.to_bits(), v.to_string())).map_err(|e| e.to_string()),
    }
}

#[test]
fn patching_a_float_field_writes_its_bits_in_field_order() {
    let def = FormatDefinition::from_yaml(
        "name: T\nroot:\n  name: R\n  fields:\n    - name: x\n      type: f32\n      offset: \"0\"\n      endian: big\n    - name: y\n      type: f64\n      offset: relative\n",
    )
    .unwrap();
    let input = vec![0u8; 12];
    let ins = vec![
        PatchInstruction { field_path: "R.x".to_string(), new_value_str: "1.5".to_string() },
        PatchInstruction { field_path: "R.y".to_string(), new_value_str: "-2".to_string() },
    ];
    let floats: Vec<FloatReading> = ins.iter().map(|i| reading(&i.new_value_str)).collect();
    let plan = prepare_patch(&input, &def, &ins, &floats, true).unwrap();
    let mut expected = 1.5f32.to_be_bytes().to_vec();
    expected.extend_from_slice(&(-2.0f64).to_le_bytes());
    assert_eq!(plan.data, expected);
    assert_eq!(plan.changes[0].new_value_display, "1.5");
    assert_eq!(plan.changes[1].new_value_display, "-2");
}

#[test]
fn patching_a_float_field_with_bad_text_fails_with_the_parse_message() {
    let def = FormatDefinition::from_yaml(
        "name: T\nroot:\n  name: R\n  fields:\n    - name: x\n      type: f32\n      offset: \"0\"\n",
    )
    .unwrap();
    let input = vec![0u8; 4];
    let ins = vec![PatchInstruction { field_path: "R.x".to_string(), new_value_str: "abc".to_string() }];
    let floats: Vec<FloatReading> = ins.iter().map(|i| reading(&i.new_value_str)).collect();
    let err = prepare_patch(&input, &def, &ins, &floats, true).err().unwrap();
    assert!(err.message().contains("f32值编码失败: invalid float literal"), "{}", err.message());
}
