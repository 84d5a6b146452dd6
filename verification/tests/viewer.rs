use binparse_cli::dsl::DisplayFormat;
use binparse_cli::parser::{ParsedField, ParsedValue};
use binparse_cli::viewer::{AppState, CellMark, Key, Panel};

fn field(name: &str, path: &str, offset: usize, length: usize, value: ParsedValue, children: Vec<ParsedField>) -> ParsedField {
    ParsedField {
        name: name.to_string(),
        path: path.to_string(),
        offset,
        length,
        value,
        display_format: DisplayFormat::Hex,
        truncated: false,
        undecidable: false,
        skipped: false,
        checksum_result: None,
        children,
    }
}

fn tree() -> ParsedField {
    let inner = || {
        vec![
            field("width", "root.hdr.width", 0, 2, ParsedValue::U16(10), Vec::new()),
            field("height", "root.hdr.height", 2, 2, ParsedValue::U16(20), Vec::new()),
        ]
    };
    let hdr = field("hdr", "root.hdr", 0, 4, ParsedValue::Struct(inner()), inner());
    let tail = field("tail", "root.tail", 4, 4, ParsedValue::U32(7), Vec::new());
    let kids = || {
        vec![
            field("hdr", "root.hdr", 0, 4, ParsedValue::Struct(inner()), inner()),
            field("tail", "root.tail", 4, 4, ParsedValue::U32(7), Vec::new()),
        ]
    };
    let _ = (hdr, tail);
    field("root", "root", 0, 8, ParsedValue::Struct(kids()), kids())
}

fn state() -> AppState {
    AppState::new(vec![0x0A, 0, 0x14, 0, 7, 0, 0, 0], tree(), "Demo".to_string())
}

#[test]
fn rows_list_every_expanded_field_in_order() {
    let s = state();
    let paths: Vec<&str> = s.tree_items.iter().map(|t| t.path.as_str()).collect();
    assert_eq!(paths, vec!["root", "root.hdr", "root.hdr.width", "root.hdr.height", "root.tail"]);
    let depths: Vec<usize> = s.tree_items.iter().map(|t| t.depth).collect();
    assert_eq!(depths, vec![0, 1, 2, 2, 1]);
    assert_eq!(s.selected, Some(0));
}

#[test]
fn moving_the_cursor_selects_the_leaf_under_it() {
    let mut s = state();
    s.move_hex_cursor(3);
    assert_eq!(s.hex_cursor, 3);
    assert_eq!(s.selected, Some(3));
    s.move_hex_cursor(100);
    assert_eq!(s.hex_cursor, 3);
    assert_eq!(s.get_field_at_offset(5), Some(4));
}

#[test]
fn collapsing_hides_the_fields_under_a_struct() {
    let mut s = state();
    assert!(!s.handle_key(Key::Tab));
    assert_eq!(s.active_panel, Panel::Tree);
    s.handle_key(Key::Down);
    assert_eq!(s.selected, Some(1));
    s.handle_key(Key::Enter);
    let paths: Vec<&str> = s.tree_items.iter().map(|t| t.path.as_str()).collect();
    assert_eq!(paths, vec!["root", "root.hdr", "root.tail"]);
    assert!(s.tree_items[1].collapsed);
    s.handle_key(Key::Enter);
    assert_eq!(s.tree_items.len(), 5);
}

#[test]
fn search_finds_bytes_then_names() {
    let mut s = state();
    assert_eq!(s.search("0x14"), Some(2));
    assert_eq!(s.hex_cursor, 2);
    assert_eq!(s.selected, Some(3));
    assert_eq!(s.search("TAIL"), Some(4));
    assert_eq!(s.selected, Some(4));
    assert_eq!(s.search("nothing-here"), None);
    assert_eq!(s.search(""), None);
}

#[test]
fn typing_a_search_and_quitting() {
    let mut s = state();
    s.handle_key(Key::Char('/'));
    assert!(s.searching);
    s.handle_key(Key::Char('h'));
    s.handle_key(Key::Char('x'));
    s.handle_key(Key::Backspace);
    s.handle_key(Key::Char('e'));
    assert_eq!(s.search_query, "he");
    s.handle_key(Key::Enter);
    assert!(!s.searching);
    assert_eq!(s.search_query, "");
    assert_eq!(s.selected, Some(3));
    assert!(s.handle_key(Key::Char('q')));
}

#[test]
fn home_and_end_jump_to_the_ends() {
    let mut s = state();
    s.handle_key(Key::End);
    assert_eq!(s.hex_cursor, 7);
    assert_eq!(s.selected, Some(4));
    s.handle_key(Key::Home);
    assert_eq!(s.hex_cursor, 0);
    assert_eq!(s.selected, Some(0));
}

#[test]
fn hex_rows_mark_the_cursor_and_the_selected_range() {
    let mut s = state();
    s.move_hex_cursor(5);
    // the cursor is on byte 5, inside `root.tail` (bytes 4..8)
    let rows = s.hex_rows();
    assert_eq!(rows.len(), 1);
    assert_eq!(rows[0].offset, 0);
    assert_eq!(rows[0].cells.len(), 8);
    assert_eq!(rows[0].cells[0], (0x0A, CellMark::Plain));
    assert_eq!(rows[0].cells[4], (7, CellMark::Highlighted));
    assert_eq!(rows[0].cells[5], (0, CellMark::Cursor));
    assert_eq!(rows[0].cells[7], (0, CellMark::Highlighted));
}

#[test]
fn tab_only_switches_the_panel() {
    let mut s = state();
    s.move_hex_cursor(5);
    let (cur, sel, off) = (s.hex_cursor, s.selected, s.hex_offset);
    assert!(!s.handle_key(Key::Tab));
    assert_eq!(s.active_panel, Panel::Tree);
    assert_eq!((s.hex_cursor, s.selected, s.hex_offset), (cur, sel, off));
}
