use binparse_cli::diff::{compare_fields, diff, export_markdown_rows};
use binparse_cli::display::TextPart;
use binparse_cli::dsl::DisplayFormat;
use binparse_cli::export::{flatten_fields, to_markdown, to_terminal_summary, Style};
use binparse_cli::filter::{collect_leaf_fields, filter_parsed_field, has_matching_fields};
use binparse_cli::parser::{ChecksumResult, ParsedField, ParsedValue};
use binparse_cli::stats::ParseStats;

fn render(parts: &[TextPart]) -> String {
    let mut s = String::new();
    for p in parts {
        match p {
            TextPart::Text(t) => s.push_str(t),
            TextPart::Single(b) => s.push_str(&f32::from_bits(*b).to_string()),
            TextPart::Double(b) => s.push_str(&f64::from_bits(*b).to_string()),
        }
    }
    s
}

fn render_styled(parts: &[(Style, TextPart)]) -> String {
    let plain: Vec<TextPart> = parts
        .iter()
        .map(|(_, p)| match p {
            TextPart::Text(t) => TextPart::Text(t.clone()),
            TextPart::Single(b) => TextPart::Single(*b),
            TextPart::Double(b) => TextPart::Double(*b),
        })
        .collect();
    render(&plain)
}

fn leaf(name: &str, path: &str, offset: usize, value: ParsedValue, fmt: DisplayFormat, checksum: Option<ChecksumResult>) -> ParsedField {
    ParsedField {
        name: name.to_string(),
        path: path.to_string(),
        offset,
        length: 4,
        value,
        display_format: fmt,
        truncated: false,
        undecidable: false,
        skipped: false,
        checksum_result: checksum,
        children: Vec::new(),
    }
}

fn create_test_parsed_field() -> ParsedField {
    let kids = || {
        vec![
            leaf("magic", "root.magic", 0, ParsedValue::U32(0x12345678), DisplayFormat::Hex, None),
            leaf("length", "root.length", 4, ParsedValue::U32(100), DisplayFormat::Dec, Some(ChecksumResult::Passed)),
        ]
    };
    ParsedField {
        name: "root".to_string(),
        path: "root".to_string(),
        offset: 0,
        length: 8,
        value: ParsedValue::Struct(kids()),
        display_format: DisplayFormat::Hex,
        truncated: false,
        undecidable: false,
        skipped: false,
        checksum_result: None,
        children: kids(),
    }
}

#[test]
fn test_to_markdown() {
    let root = create_test_parsed_field();
    let md = render(&to_markdown(&root, "Test"));
    assert!(md.contains("# Test Binary Structure Report"));
    assert!(md.contains("| Field | Offset | Length | Value | Status |"));
    assert!(md.contains("magic"));
}

#[test]
fn markdown_rows_exact() {
    let root = create_test_parsed_field();
    let md = render(&to_markdown(&root, "Test"));
    assert!(md.contains("**Total Size:** 8 bytes (0x00000008)\n\n"));
    assert!(md.contains("|   magic | 0x00000000 | 4 | `0x12345678` | OK |\n"));
    assert!(md.contains("|   length | 0x00000004 | 4 | `100` | ✓ Checksum OK |\n"));
    assert!(!md.contains("| root |"));
}

#[test]
fn test_to_terminal_summary() {
    let root = create_test_parsed_field();
    let summary = render_styled(&to_terminal_summary(&root, "Test", false));
    assert!(summary.contains("Format: Test"));
    assert!(summary.contains("magic"));
    assert!(summary.contains("0x12345678"));
}

#[test]
fn terminal_summary_exact_lines() {
    let root = create_test_parsed_field();
    let summary = render_styled(&to_terminal_summary(&root, "Test", false));
    assert_eq!(
        summary,
        "Format: Test\nSize: 8 bytes (0x00000008)\n\nStructure:\n  root (2 fields):\n    magic@0x00000000[4] = 0x12345678\n    length@0x00000004[4] = 100 [✓]\n"
    );
    let colored = to_terminal_summary(&root, "Test", true);
    assert!(colored.iter().any(|(s, p)| *s == Style::Bold && matches!(p, TextPart::Text(t) if t == "magic")));
}

#[test]
fn flatten_skips_structs_with_fields() {
    let root = create_test_parsed_field();
    let flat = flatten_fields(&root);
    assert_eq!(flat.len(), 2);
    assert_eq!(flat[0].path, "root.magic");
    assert_eq!(render(&flat[0].value), "0x12345678");
    assert_eq!(flat[1].checksum, Some("PASSED".to_string()));
}

fn diff_leaf(name: &str, value: u32) -> ParsedField {
    leaf(name, &format!("root.{}", name), 0, ParsedValue::U32(value), DisplayFormat::Hex, None)
}

#[test]
fn test_compare_same_fields() {
    let f1 = diff_leaf("test", 0x1234);
    let f2 = diff_leaf("test", 0x1234);
    let d = compare_fields(&f1, &f2);
    assert!(!d.is_different);
    assert_eq!(d.value1, d.value2);
}

#[test]
fn test_compare_different_fields() {
    let f1 = diff_leaf("test", 0x1234);
    let f2 = diff_leaf("test", 0x5678);
    let d = compare_fields(&f1, &f2);
    assert!(d.is_different);
    assert_ne!(d.value1, d.value2);
}

fn diff_root(b: u32) -> ParsedField {
    let kids = || vec![diff_leaf("a", 0x0001), diff_leaf("b", b)];
    ParsedField {
        name: "root".to_string(),
        path: "root".to_string(),
        offset: 0,
        length: 8,
        value: ParsedValue::Struct(kids()),
        display_format: DisplayFormat::Hex,
        truncated: false,
        undecidable: false,
        skipped: false,
        checksum_result: None,
        children: kids(),
    }
}

#[test]
fn test_diff_stats() {
    let result = diff(&diff_root(0x0002), &diff_root(0xFFFF));
    assert_eq!(result.total_fields, 2);
    assert_eq!(result.different_fields, 1);
    assert_eq!(result.different_fields as f64 / result.total_fields as f64, 0.5);
}

#[test]
fn diff_markdown_rows_list_differences() {
    let result = diff(&diff_root(0x0002), &diff_root(0xFFFF));
    let mut md = Vec::new();
    export_markdown_rows(&result.fields, &mut md);
    assert_eq!(render(&md), "| root.b | 0x00000000 | 4 | `0x00000002` | `0x0000FFFF` | Different |\n");
}

#[test]
fn diff_missing_children_are_marked() {
    let mut r2 = diff_root(0x0002);
    r2.children.pop();
    let result = diff(&diff_root(0x0002), &r2);
    assert_eq!(result.fields.len(), 2);
    let b = result.fields.iter().find(|f| f.name == "b").unwrap();
    assert!(b.is_different);
    assert_eq!(render(&b.value2), "<missing>");
}

#[test]
fn test_stats_basic() {
    let root = ParsedField {
        name: "root".to_string(),
        path: "root".to_string(),
        offset: 0,
        length: 12,
        value: ParsedValue::Struct(vec![]),
        display_format: DisplayFormat::Hex,
        truncated: false,
        undecidable: false,
        skipped: false,
        checksum_result: None,
        children: vec![
            leaf("a", "root.a", 0, ParsedValue::U32(1), DisplayFormat::Hex, None),
            leaf("b", "root.b", 0, ParsedValue::U16(2), DisplayFormat::Hex, Some(ChecksumResult::Passed)),
            leaf("c", "root.c", 0, ParsedValue::U8(3), DisplayFormat::Hex, Some(ChecksumResult::Failed { expected: 10, actual: 20 })),
        ],
    };
    let stats = ParseStats::from_parsed_field(&root, 100);
    assert_eq!(stats.total_leaf_fields, 3);
    assert_eq!(stats.checksum_passed, 1);
    assert_eq!(stats.checksum_failed, 1);
    assert_eq!(stats.checksum_none, 1);
    assert_eq!(stats.parsed_bytes, 12);
    assert_eq!(
        stats.type_counts,
        vec![("u16".to_string(), 1), ("u32".to_string(), 1), ("u8".to_string(), 1)]
    );
    assert_eq!(
        stats.format_to_stderr("12.00"),
        "=== 解析统计摘要 ===\n总字段数(叶子): 3\n各类型字段计数: u16:1, u32:1, u8:1\n校验: 通过=1, 失败=1, 未校验=1\n文件覆盖率: 12.00% (12/100 字节)"
    );
}

fn two_leaf_root() -> ParsedField {
    ParsedField {
        name: "root".to_string(),
        path: "root".to_string(),
        offset: 0,
        length: 10,
        value: ParsedValue::U8(0),
        display_format: DisplayFormat::Hex,
        truncated: false,
        undecidable: false,
        skipped: false,
        checksum_result: None,
        children: vec![
            leaf("width", "root.width", 0, ParsedValue::U32(100), DisplayFormat::Dec, None),
            leaf("height", "root.height", 4, ParsedValue::U32(200), DisplayFormat::Dec, None),
        ],
    }
}

#[test]
fn test_has_matching_fields() {
    let root = two_leaf_root();
    assert!(has_matching_fields(&root, "*.width"));
    assert!(!has_matching_fields(&root, "*.depth"));
}

#[test]
fn filter_keeps_matching_leaves() {
    let root = two_leaf_root();
    let f = filter_parsed_field(&root, "*.height").unwrap();
    assert_eq!(f.children.len(), 1);
    assert_eq!(f.children[0].path, "root.height");
    assert!(filter_parsed_field(&root, "*.depth").is_none());
    let leaves = collect_leaf_fields(&root);
    assert_eq!(leaves.len(), 2);
    assert_eq!(leaves[1].name, "height");
}

#[test]
fn english_report_has_head_counts_and_rows() {
    let r = diff(&diff_root(1), &diff_root(2));
    let md = render(&binparse_cli::diff::export_markdown(&r, "a.bin", "b.bin", "50.00"));
    assert!(md.starts_with("# Binary Diff Report\n\n**File 1:** a.bin\n\n**File 2:** b.bin\n\n## Summary\n\n"));
    assert!(md.contains("| Total Fields | 2 |\n| Different Fields | 1 |\n| Diff Rate | 50.00% |\n\n"));
    assert!(md.contains("| Different |"));
}
