//! Reports of a parsed tree: a flat list of fields, a Markdown table and a
//! terminal summary. Values are kept as text pieces, floats among them, which
//! the caller prints.

use vstd::prelude::*;
use crate::parser::{ParsedValue, ParsedField, FieldOut, ValueDesc, ChecksumResult, field_out, fields_out, lemma_children_out};
use crate::display::{TextPart, Piece, piece, pieces, text, display_pieces};
use crate::numfmt::{dec_str, hex_pad, push_dec, push_hex8};
use crate::text::{push_str, chars_of, string_from_chars};
use crate::expr::{replace_all, replace_chars};
use crate::patch::lemma_child_smaller;

verus! {

// ---------------------------------------------------------------------
// Pieces of text.
// ---------------------------------------------------------------------

/// `n` copies of two spaces.
pub open spec fn indent_text(n: nat) -> Seq<char>
    decreases n,
{
    if n == 0 { Seq::empty() } else { indent_text((n - 1) as nat) + "  "@ }
}

fn push_indent(s: &mut String, n: usize)
    ensures
        final(s)@ == old(s)@ + indent_text(n as nat),
{
    let ghost o = s@;
    let mut i: usize = 0;
    while i < n
        invariant
            i <= n,
            s@ == o + indent_text(i as nat),
        decreases n - i,
    {
        push_str(s, "  ");
        assert(s@ =~= o + indent_text((i + 1) as nat));
        i = i + 1;
    }
}

/// Text pieces with every `|` escaped as `\|`; floats are left as they are.
pub open spec fn escape_pipes(ps: Seq<Piece>) -> Seq<Piece> {
    ps.map_values(|p: Piece| match p {
        Piece::Text(s) => Piece::Text(replace_all(s, "|"@, "\\|"@)),
        _ => p,
    })
}

pub(crate) fn escape_pipes_exec(parts: Vec<TextPart>) -> (r: Vec<TextPart>)
    ensures
        pieces(r@) == escape_pipes(pieces(parts@)),
{
    let pat = chars_of("|");
    let rep = chars_of("\\|");
    let mut out: Vec<TextPart> = Vec::new();
    let mut i: usize = 0;
    while i < parts.len()
        invariant
            i <= parts@.len(),
            pat@ == "|"@,
            rep@ == "\\|"@,
            pieces(out@) == escape_pipes(pieces(parts@)).take(i as int),
        decreases parts@.len() - i,
    {
        let p = match &parts[i] {
            TextPart::Text(s) => {
                let cs = chars_of(s.as_str());
                let e = replace_chars(&cs, &pat, &rep);
                TextPart::Text(string_from_chars(e.as_slice()))
            },
            TextPart::Single(b) => TextPart::Single(*b),
            TextPart::Double(b) => TextPart::Double(*b),
        };
        let ghost before = out@;
        assert(escape_pipes(pieces(parts@))[i as int] == piece(p));
        out.push(p);
        assert(pieces(out@) =~= pieces(before).push(piece(p)));
        assert(escape_pipes(pieces(parts@)).take(i + 1) =~= escape_pipes(pieces(parts@)).take(i as int).push(piece(p)));
        assert(pieces(out@) =~= escape_pipes(pieces(parts@)).take(i + 1));
        i = i + 1;
    }
    assert(escape_pipes(pieces(parts@)).take(parts@.len() as int) =~= escape_pipes(pieces(parts@)));
    out
}

pub(crate) fn push_text(out: &mut Vec<TextPart>, s: String)
    ensures
        pieces(final(out)@) == pieces(old(out)@) + text(s@),
{
    let ghost o = out@;
    out.push(TextPart::Text(s));
    assert(pieces(out@) =~= pieces(o) + text(s@));
}

pub(crate) fn push_parts(out: &mut Vec<TextPart>, more: Vec<TextPart>)
    ensures
        pieces(final(out)@) == pieces(old(out)@) + pieces(more@),
{
    let mut more = more;
    let ghost m = more@;
    let ghost o = out@;
    out.append(&mut more);
    assert(pieces(out@) =~= pieces(o) + pieces(m));
}

/// The parts of a field's description that the reports read.
pub proof fn lemma_out_parts(f: ParsedField)
    ensures
        field_out(f).name == f.name@,
        field_out(f).path == f.path@,
        field_out(f).offset == f.offset,
        field_out(f).length == f.length,
        field_out(f).value == crate::parser::value_desc(f.value),
        field_out(f).display_format == f.display_format,
        field_out(f).truncated == f.truncated,
        field_out(f).undecidable == f.undecidable,
        field_out(f).skipped == f.skipped,
        field_out(f).checksum_result == f.checksum_result,
        field_out(f).children.len() == f.children@.len(),
        (crate::parser::value_desc(f.value) is Struct) == (f.value is Struct),
{
}

/// The number of levels of a list of fields and the fields under them.
pub open spec fn list_depth(cs: Seq<FieldOut>) -> nat
    decreases cs,
{
    if cs.len() == 0 {
        0
    } else {
        let last = cs[cs.len() - 1];
        let a = list_depth(cs.subrange(0, cs.len() - 1));
        let b = 1 + list_depth(last.children);
        if a >= b { a } else { b }
    }
}

/// The number of levels of a tree.
pub open spec fn tree_depth(f: FieldOut) -> nat {
    1 + list_depth(f.children)
}

pub proof fn lemma_child_depth(cs: Seq<FieldOut>, i: int)
    requires
        0 <= i < cs.len(),
    ensures
        tree_depth(cs[i]) <= list_depth(cs),
    decreases cs.len(),
{
    if i < cs.len() - 1 {
        lemma_child_depth(cs.subrange(0, cs.len() - 1), i);
        assert(cs.subrange(0, cs.len() - 1)[i] == cs[i]);
    }
}

pub open spec fn is_struct_value(v: ValueDesc) -> bool {
    v is Struct
}

/// Whether a field has a row of its own: all but structs with fields.
pub open spec fn has_row(f: FieldOut) -> bool {
    !is_struct_value(f.value) || f.children.len() == 0
}

// ---------------------------------------------------------------------
// The flat list of fields.
// ---------------------------------------------------------------------

/// One field of the flat list.
#[derive(Debug)]
pub struct FlatField {
    pub path: String,
    pub offset: usize,
    pub length: usize,
    pub value: Vec<TextPart>,
    pub truncated: bool,
    pub undecidable: bool,
    pub skipped: bool,
    pub checksum: Option<String>,
}

pub struct FlatDesc {
    pub path: Seq<char>,
    pub offset: usize,
    pub length: usize,
    pub value: Seq<Piece>,
    pub truncated: bool,
    pub undecidable: bool,
    pub skipped: bool,
    pub checksum: Option<Seq<char>>,
}

pub open spec fn flat_desc(f: FlatField) -> FlatDesc {
    FlatDesc {
        path: f.path@,
        offset: f.offset,
        length: f.length,
        value: pieces(f.value@),
        truncated: f.truncated,
        undecidable: f.undecidable,
        skipped: f.skipped,
        checksum: match f.checksum { Some(c) => Some(c@), None => None },
    }
}

pub open spec fn flats_view(v: Seq<FlatField>) -> Seq<FlatDesc> {
    v.map_values(|f: FlatField| flat_desc(f))
}

/// How a field's value shows in the flat list.
pub open spec fn flat_value(f: FieldOut) -> Seq<Piece> {
    if f.truncated {
        text("<truncated>"@)
    } else if f.undecidable {
        text("<undecidable>"@)
    } else if f.skipped {
        text("<skipped>"@)
    } else {
        display_pieces(f.value, f.display_format)
    }
}

pub open spec fn flat_checksum(c: Option<ChecksumResult>) -> Option<Seq<char>> {
    match c {
        Some(ChecksumResult::Passed) => Some("PASSED"@),
        Some(ChecksumResult::Failed { expected, actual }) =>
            Some("FAILED(expected=0x"@ + hex_pad(expected as nat, 8) + ", actual=0x"@ + hex_pad(actual as nat, 8) + ")"@),
        None => None,
    }
}

pub open spec fn own_flat(f: FieldOut) -> Seq<FlatDesc> {
    if has_row(f) {
        seq![FlatDesc {
            path: f.path,
            offset: f.offset,
            length: f.length,
            value: flat_value(f),
            truncated: f.truncated,
            undecidable: f.undecidable,
            skipped: f.skipped,
            checksum: flat_checksum(f.checksum_result),
        }]
    } else {
        Seq::empty()
    }
}

/// The rows of a list of fields and of the fields under them, in document order.
pub open spec fn flat_list(cs: Seq<FieldOut>) -> Seq<FlatDesc>
    decreases cs,
{
    if cs.len() == 0 {
        Seq::empty()
    } else {
        let last = cs[cs.len() - 1];
        flat_list(cs.subrange(0, cs.len() - 1)) + own_flat(last) + flat_list(last.children)
    }
}

/// The rows of a tree: every field but structs with fields, in document order.
pub open spec fn flat_tree(f: FieldOut) -> Seq<FlatDesc> {
    own_flat(f) + flat_list(f.children)
}

fn value_parts(field: &ParsedField, truncated_text: &str, undecidable_text: &str, skipped_text: &str) -> (r: Vec<TextPart>)
    ensures
        pieces(r@) == (if field.truncated {
            text(truncated_text@)
        } else if field.undecidable {
            text(undecidable_text@)
        } else if field.skipped {
            text(skipped_text@)
        } else {
            display_pieces(field_out(*field).value, field_out(*field).display_format)
        }),
{
    let mut out: Vec<TextPart> = Vec::new();
    assert(pieces(out@) =~= Seq::<Piece>::empty());
    if field.truncated {
        push_text(&mut out, truncated_text.to_string());
    } else if field.undecidable {
        push_text(&mut out, undecidable_text.to_string());
    } else if field.skipped {
        push_text(&mut out, skipped_text.to_string());
    } else {
        let d = field.value.display(field.display_format);
        push_parts(&mut out, d);
    }
    out
}

fn checksum_text(c: &Option<ChecksumResult>) -> (r: Option<String>)
    ensures
        match r { Some(s) => Some(s@), None => None } == flat_checksum(*c),
{
    match c {
        Some(ChecksumResult::Passed) => Some("PASSED".to_string()),
        Some(ChecksumResult::Failed { expected, actual }) => {
            let mut s = String::new();
            push_str(&mut s, "FAILED(expected=0x");
            push_hex8(&mut s, *expected);
            push_str(&mut s, ", actual=0x");
            push_hex8(&mut s, *actual);
            push_str(&mut s, ")");
            Some(s)
        },
        None => None,
    }
}

fn flatten_into(field: &ParsedField, out: &mut Vec<FlatField>)
    ensures
        flats_view(final(out)@) == flats_view(old(out)@) + flat_tree(field_out(*field)),
    decreases field,
{
    let ghost o = flats_view(out@);
    proof {
        lemma_children_out(*field);
        lemma_out_parts(*field);
    }
    let is_struct = match &field.value {
        ParsedValue::Struct(_) => true,
        _ => false,
    };
    if !is_struct || field.children.len() == 0 {
        let value = value_parts(field, "<truncated>", "<undecidable>", "<skipped>");
        let checksum = checksum_text(&field.checksum_result);
        let ghost before = out@;
        out.push(FlatField {
            path: field.path.clone(),
            offset: field.offset,
            length: field.length,
            value,
            truncated: field.truncated,
            undecidable: field.undecidable,
            skipped: field.skipped,
            checksum,
        });
        assert(flats_view(out@) =~= flats_view(before).push(flat_desc(out@.last())));
    }
    assert(flats_view(out@) =~= o + own_flat(field_out(*field)));
    let ghost cs = fields_out(field.children@);
    let ghost base = flats_view(out@);
    let mut i: usize = 0;
    assert(cs.take(0) =~= Seq::<FieldOut>::empty());
    assert(base + flat_list(cs.take(0)) =~= base);
    while i < field.children.len()
        invariant
            i <= field.children@.len(),
            cs == fields_out(field.children@),
            cs == field_out(*field).children,
            flats_view(out@) == base + flat_list(cs.take(i as int)),
        decreases field.children@.len() - i,
    {
        proof {
            lemma_child_smaller(*field, i as int);
            assert(cs.take(i + 1).subrange(0, i as int) =~= cs.take(i as int));
        }
        let child = &field.children[i];
        assert(cs[i as int] == field_out(*child));
        flatten_into(child, out);
        assert(flats_view(out@) =~= base + flat_list(cs.take(i + 1)));
        i = i + 1;
    }
    assert(cs.take(cs.len() as int) =~= cs);
}

/// The fields of a tree as a flat list: every field but structs with fields,
/// in document order, with how its value shows.
pub fn flatten_fields(root: &ParsedField) -> (r: Vec<FlatField>)
    ensures
        flats_view(r@) == flat_tree(field_out(*root)),
{
    let mut out: Vec<FlatField> = Vec::new();
    assert(flats_view(out@) =~= Seq::<FlatDesc>::empty());
    flatten_into(root, &mut out);
    assert(flats_view(out@) =~= flat_tree(field_out(*root)));
    out
}

// ---------------------------------------------------------------------
// Markdown.
// ---------------------------------------------------------------------

pub open spec fn md_value(f: FieldOut) -> Seq<Piece> {
    if f.truncated {
        text("*<truncated>*"@)
    } else if f.undecidable {
        text("*<undecidable>*"@)
    } else if f.skipped {
        text("*<skipped>*"@)
    } else {
        display_pieces(f.value, f.display_format)
    }
}

pub open spec fn md_status(f: FieldOut) -> Seq<char> {
    match f.checksum_result {
        Some(ChecksumResult::Passed) => "✓ Checksum OK"@,
        Some(ChecksumResult::Failed { expected, actual }) =>
            "✗ Checksum failed (expected=0x"@ + hex_pad(expected as nat, 8) + ", actual=0x"@ + hex_pad(actual as nat, 8) + ")"@,
        None => if f.truncated {
            "Truncated"@
        } else if f.undecidable {
            "Undecidable"@
        } else if f.skipped {
            "Skipped"@
        } else {
            "OK"@
        },
    }
}

/// A field's table row, its name indented by its depth.
pub open spec fn md_own(f: FieldOut, indent: nat) -> Seq<Piece> {
    if has_row(f) {
        text("| "@ + indent_text(indent) + f.name + " | 0x"@ + hex_pad(f.offset as nat, 8) + " | "@ + dec_str(f.length as nat) + " | `"@)
            + escape_pipes(md_value(f)) + text("` | "@ + md_status(f) + " |\n"@)
    } else {
        Seq::empty()
    }
}

pub open spec fn md_list(cs: Seq<FieldOut>, indent: nat) -> Seq<Piece>
    decreases cs,
{
    if cs.len() == 0 {
        Seq::empty()
    } else {
        let last = cs[cs.len() - 1];
        md_list(cs.subrange(0, cs.len() - 1), indent) + md_own(last, indent) + md_list(last.children, indent + 1)
    }
}

pub open spec fn md_tree(f: FieldOut, indent: nat) -> Seq<Piece> {
    md_own(f, indent) + md_list(f.children, indent + 1)
}

pub open spec fn md_header(name: Seq<char>, len: usize) -> Seq<char> {
    "# "@ + name + " Binary Structure Report\n\n"@ + "**Total Size:** "@ + dec_str(len as nat) + " bytes (0x"@ + hex_pad(len as nat, 8)
        + ")\n\n"@ + "## Structure\n\n"@ + "| Field | Offset | Length | Value | Status |\n"@
        + "|-------|--------|--------|-------|--------|\n"@
}

fn md_status_exec(field: &ParsedField) -> (r: String)
    ensures
        r@ == md_status(field_out(*field)),
{
    proof { lemma_out_parts(*field); }
    let mut s = String::new();
    match &field.checksum_result {
        Some(ChecksumResult::Passed) => push_str(&mut s, "✓ Checksum OK"),
        Some(ChecksumResult::Failed { expected, actual }) => {
            push_str(&mut s, "✗ Checksum failed (expected=0x");
            push_hex8(&mut s, *expected);
            push_str(&mut s, ", actual=0x");
            push_hex8(&mut s, *actual);
            push_str(&mut s, ")");
        },
        None => {
            if field.truncated {
                push_str(&mut s, "Truncated");
            } else if field.undecidable {
                push_str(&mut s, "Undecidable");
            } else if field.skipped {
                push_str(&mut s, "Skipped");
            } else {
                push_str(&mut s, "OK");
            }
        },
    }
    proof { reveal_strlit(""); }
    assert(s@ =~= md_status(field_out(*field)));
    s
}

fn markdown_rows(field: &ParsedField, md: &mut Vec<TextPart>, indent: usize)
    requires
        indent + tree_depth(field_out(*field)) < usize::MAX,
    ensures
        pieces(final(md)@) == pieces(old(md)@) + md_tree(field_out(*field), indent as nat),
    decreases field,
{
    let ghost o = pieces(md@);
    proof {
        lemma_children_out(*field);
        lemma_out_parts(*field);
    }
    let is_struct = match &field.value {
        ParsedValue::Struct(_) => true,
        _ => false,
    };
    if !is_struct || field.children.len() == 0 {
        let mut lead = String::new();
        push_str(&mut lead, "| ");
        push_indent(&mut lead, indent);
        push_str(&mut lead, field.name.as_str());
        push_str(&mut lead, " | 0x");
        push_hex8(&mut lead, field.offset as u64);
        push_str(&mut lead, " | ");
        push_dec(&mut lead, field.length as u64);
        push_str(&mut lead, " | `");
        push_text(md, lead);
        let value = value_parts(field, "*<truncated>*", "*<undecidable>*", "*<skipped>*");
        let escaped = escape_pipes_exec(value);
        push_parts(md, escaped);
        let mut trail = String::new();
        push_str(&mut trail, "` | ");
        let st = md_status_exec(field);
        push_str(&mut trail, st.as_str());
        push_str(&mut trail, " |\n");
        push_text(md, trail);
    }
    assert(pieces(md@) =~= o + md_own(field_out(*field), indent as nat));
    let ghost cs = fields_out(field.children@);
    let ghost base = pieces(md@);
    let mut i: usize = 0;
    assert(cs.take(0) =~= Seq::<FieldOut>::empty());
    assert(base + md_list(cs.take(0), (indent + 1) as nat) =~= base);
    while i < field.children.len()
        invariant
            i <= field.children@.len(),
            indent + tree_depth(field_out(*field)) < usize::MAX,
            cs == fields_out(field.children@),
            cs == field_out(*field).children,
            pieces(md@) == base + md_list(cs.take(i as int), (indent + 1) as nat),
        decreases field.children@.len() - i,
    {
        proof {
            lemma_child_smaller(*field, i as int);
            assert(cs.take(i + 1).subrange(0, i as int) =~= cs.take(i as int));
        }
        let child = &field.children[i];
        assert(cs[i as int] == field_out(*child));
        proof { lemma_child_depth(cs, i as int); }
        markdown_rows(child, md, indent + 1);
        assert(pieces(md@) =~= base + md_list(cs.take(i + 1), (indent + 1) as nat));
        i = i + 1;
    }
    assert(cs.take(cs.len() as int) =~= cs);
}

/// A Markdown report of a parsed tree: a title, the total size, and a table
/// with a row for every field but structs with fields, in document order.
pub fn to_markdown(root: &ParsedField, format_name: &str) -> (r: Vec<TextPart>)
    requires
        tree_depth(field_out(*root)) < usize::MAX,
    ensures
        pieces(r@) == text(md_header(format_name@, root.length)) + md_tree(field_out(*root), 0),
{
    let mut head = String::new();
    push_str(&mut head, "# ");
    push_str(&mut head, format_name);
    push_str(&mut head, " Binary Structure Report\n\n");
    push_str(&mut head, "**Total Size:** ");
    push_dec(&mut head, root.length as u64);
    push_str(&mut head, " bytes (0x");
    push_hex8(&mut head, root.length as u64);
    push_str(&mut head, ")\n\n");
    push_str(&mut head, "## Structure\n\n");
    push_str(&mut head, "| Field | Offset | Length | Value | Status |\n");
    push_str(&mut head, "|-------|--------|--------|-------|--------|\n");
    let mut md: Vec<TextPart> = Vec::new();
    assert(pieces(md@) =~= Seq::<Piece>::empty());
    push_text(&mut md, head);
    markdown_rows(root, &mut md, 0);
    md
}

// ---------------------------------------------------------------------
// Terminal summary.
// ---------------------------------------------------------------------

/// How a piece of the terminal summary is shown; the caller turns styles
/// into colours, or ignores them.
#[derive(Clone, Copy, Debug, PartialEq, Eq, Structural)]
pub enum Style {
    Plain,
    Bold,
    BoldCyan,
    Red,
    Yellow,
    Blue,
    Green,
}

pub open spec fn styled_view(v: Seq<(Style, TextPart)>) -> Seq<(Style, Piece)> {
    v.map_values(|p: (Style, TextPart)| (p.0, piece(p.1)))
}

/// Text in `style` where colours are used, plain otherwise.
pub open spec fn st(c: bool, style: Style, s: Seq<char>) -> Seq<(Style, Piece)> {
    seq![(if c { style } else { Style::Plain }, Piece::Text(s))]
}

pub open spec fn plain(ps: Seq<Piece>) -> Seq<(Style, Piece)> {
    ps.map_values(|p: Piece| (Style::Plain, p))
}

pub open spec fn term_value(f: FieldOut, c: bool) -> Seq<(Style, Piece)> {
    if f.truncated {
        st(c, Style::Red, "<truncated>"@)
    } else if f.undecidable {
        st(c, Style::Yellow, "<undecidable>"@)
    } else if f.skipped {
        st(c, Style::Blue, "<skipped>"@)
    } else {
        plain(display_pieces(f.value, f.display_format))
    }
}

pub open spec fn term_status(f: FieldOut, c: bool) -> Seq<(Style, Piece)> {
    match f.checksum_result {
        Some(ChecksumResult::Passed) => st(c, Style::Green, " [✓]"@),
        Some(ChecksumResult::Failed { expected, actual }) =>
            st(c, Style::Red, " [✗ expected=0x"@ + hex_pad(expected as nat, 8) + ", actual=0x"@ + hex_pad(actual as nat, 8) + "]"@),
        None => Seq::empty(),
    }
}

/// A field's line: `name@0xOFFSET[LENGTH] = value` and its checksum status,
/// or, for a struct with fields, its name and how many fields it has.
pub open spec fn term_own(f: FieldOut, indent: nat, c: bool) -> Seq<(Style, Piece)> {
    let lead = st(false, Style::Plain, indent_text(indent) + "  "@) + st(c, Style::Bold, f.name);
    if has_row(f) {
        lead + st(false, Style::Plain, "@0x"@ + hex_pad(f.offset as nat, 8) + "["@ + dec_str(f.length as nat) + "] = "@)
            + term_value(f, c) + term_status(f, c) + st(false, Style::Plain, "\n"@)
    } else {
        lead + st(false, Style::Plain, " ("@ + dec_str(f.children.len()) + " fields):\n"@)
    }
}

pub open spec fn term_list(cs: Seq<FieldOut>, indent: nat, c: bool) -> Seq<(Style, Piece)>
    decreases cs,
{
    if cs.len() == 0 {
        Seq::empty()
    } else {
        let last = cs[cs.len() - 1];
        term_list(cs.subrange(0, cs.len() - 1), indent, c) + term_own(last, indent, c) + term_list(last.children, indent + 1, c)
    }
}

pub open spec fn term_tree(f: FieldOut, indent: nat, c: bool) -> Seq<(Style, Piece)> {
    term_own(f, indent, c) + term_list(f.children, indent + 1, c)
}

pub open spec fn term_header(name: Seq<char>, len: usize, c: bool) -> Seq<(Style, Piece)> {
    st(c, Style::BoldCyan, "Format:"@) + st(false, Style::Plain, " "@) + st(c, Style::Bold, name) + st(false, Style::Plain, "\n"@)
        + st(c, Style::BoldCyan, "Size:"@)
        + st(false, Style::Plain, " "@ + dec_str(len as nat) + " bytes (0x"@ + hex_pad(len as nat, 8) + ")\n\n"@)
        + st(c, Style::BoldCyan, "Structure:"@) + st(false, Style::Plain, "\n"@)
}

fn push_st(out: &mut Vec<(Style, TextPart)>, c: bool, style: Style, s: String)
    ensures
        styled_view(final(out)@) == styled_view(old(out)@) + st(c, style, s@),
{
    let ghost o = out@;
    let sty = if c { style } else { Style::Plain };
    out.push((sty, TextPart::Text(s)));
    assert(styled_view(out@) =~= styled_view(o) + st(c, style, s@));
}

fn push_plain_parts(out: &mut Vec<(Style, TextPart)>, parts: Vec<TextPart>)
    ensures
        styled_view(final(out)@) == styled_view(old(out)@) + plain(pieces(parts@)),
{
    let ghost o = styled_view(out@);
    let ghost pv = pieces(parts@);
    let mut rest = parts;
    let total = rest.len();
    let ghost all = rest@;
    let mut k: usize = 0;
    assert(plain(pv).take(0) =~= Seq::<(Style, Piece)>::empty());
    while rest.len() > 0
        invariant
            total == all.len(),
            pv == pieces(all),
            k + rest@.len() == all.len(),
            rest@ == all.skip(k as int),
            styled_view(out@) == o + plain(pv).take(k as int),
        decreases rest@.len(),
    {
        let p = rest.remove(0);
        assert(p == all[k as int]);
        let ghost before = out@;
        out.push((Style::Plain, p));
        assert(plain(pv).take(k + 1) =~= plain(pv).take(k as int).push((Style::Plain, piece(p))));
        assert(styled_view(out@) =~= styled_view(before).push((Style::Plain, piece(p))));
        assert(rest@ =~= all.skip(k + 1));
        k = k + 1;
    }
    assert(plain(pv).take(all.len() as int) =~= plain(pv));
}

fn terminal_value(field: &ParsedField, out: &mut Vec<(Style, TextPart)>, use_color: bool)
    ensures
        styled_view(final(out)@) == styled_view(old(out)@) + term_value(field_out(*field), use_color)
            + term_status(field_out(*field), use_color),
{
    proof { lemma_out_parts(*field); }
    let ghost o = styled_view(out@);
    if field.truncated {
        push_st(out, use_color, Style::Red, "<truncated>".to_string());
    } else if field.undecidable {
        push_st(out, use_color, Style::Yellow, "<undecidable>".to_string());
    } else if field.skipped {
        push_st(out, use_color, Style::Blue, "<skipped>".to_string());
    } else {
        let d = field.value.display(field.display_format);
        push_plain_parts(out, d);
    }
    let ghost mid = styled_view(out@);
    assert(mid =~= o + term_value(field_out(*field), use_color));
    match &field.checksum_result {
        Some(ChecksumResult::Passed) => push_st(out, use_color, Style::Green, " [✓]".to_string()),
        Some(ChecksumResult::Failed { expected, actual }) => {
            let mut s = String::new();
            push_str(&mut s, " [✗ expected=0x");
            push_hex8(&mut s, *expected);
            push_str(&mut s, ", actual=0x");
            push_hex8(&mut s, *actual);
            push_str(&mut s, "]");
            push_st(out, use_color, Style::Red, s);
        },
        None => {},
    }
    assert(styled_view(out@) =~= mid + term_status(field_out(*field), use_color));
}

fn terminal_own(field: &ParsedField, out: &mut Vec<(Style, TextPart)>, indent: usize, use_color: bool)
    ensures
        styled_view(final(out)@) == styled_view(old(out)@) + term_own(field_out(*field), indent as nat, use_color),
{
    proof { lemma_out_parts(*field); }
    let ghost o = styled_view(out@);
    let ghost fo = field_out(*field);
    let mut lead = String::new();
    push_indent(&mut lead, indent);
    push_str(&mut lead, "  ");
    push_st(out, false, Style::Plain, lead);
    push_st(out, use_color, Style::Bold, field.name.clone());
    let ghost after_lead = styled_view(out@);
    assert(after_lead =~= o + (st(false, Style::Plain, indent_text(indent as nat) + "  "@) + st(use_color, Style::Bold, fo.name)));
    let is_struct = match &field.value {
        ParsedValue::Struct(_) => true,
        _ => false,
    };
    if !is_struct || field.children.len() == 0 {
        let mut mid = String::new();
        push_str(&mut mid, "@0x");
        push_hex8(&mut mid, field.offset as u64);
        push_str(&mut mid, "[");
        push_dec(&mut mid, field.length as u64);
        push_str(&mut mid, "] = ");
        push_st(out, false, Style::Plain, mid);
        terminal_value(field, out, use_color);
        push_st(out, false, Style::Plain, "\n".to_string());
    } else {
        let mut tail = String::new();
        push_str(&mut tail, " (");
        push_dec(&mut tail, field.children.len() as u64);
        push_str(&mut tail, " fields):\n");
        push_st(out, false, Style::Plain, tail);
    }
    assert(styled_view(out@) =~= o + term_own(fo, indent as nat, use_color));
}

fn terminal_rows(field: &ParsedField, out: &mut Vec<(Style, TextPart)>, indent: usize, use_color: bool)
    requires
        indent + tree_depth(field_out(*field)) < usize::MAX,
    ensures
        styled_view(final(out)@) == styled_view(old(out)@) + term_tree(field_out(*field), indent as nat, use_color),
    decreases field,
{
    let ghost o = styled_view(out@);
    proof {
        lemma_children_out(*field);
    }
    terminal_own(field, out, indent, use_color);
    assert(styled_view(out@) =~= o + term_own(field_out(*field), indent as nat, use_color));
    let ghost cs = fields_out(field.children@);
    let ghost base = styled_view(out@);
    let mut i: usize = 0;
    assert(cs.take(0) =~= Seq::<FieldOut>::empty());
    assert(base + term_list(cs.take(0), (indent + 1) as nat, use_color) =~= base);
    while i < field.children.len()
        invariant
            i <= field.children@.len(),
            indent + tree_depth(field_out(*field)) < usize::MAX,
            cs == fields_out(field.children@),
            cs == field_out(*field).children,
            styled_view(out@) == base + term_list(cs.take(i as int), (indent + 1) as nat, use_color),
        decreases field.children@.len() - i,
    {
        proof {
            lemma_child_smaller(*field, i as int);
            assert(cs.take(i + 1).subrange(0, i as int) =~= cs.take(i as int));
        }
        let child = &field.children[i];
        assert(cs[i as int] == field_out(*child));
        proof { lemma_child_depth(cs, i as int); }
        terminal_rows(child, out, indent + 1, use_color);
        assert(styled_view(out@) =~= base + term_list(cs.take(i + 1), (indent + 1) as nat, use_color));
        i = i + 1;
    }
    assert(cs.take(cs.len() as int) =~= cs);
}

/// A summary of a parsed tree for a terminal: the format, the size, and a
/// line for every field in document order, indented by depth; with colours,
/// names are bold and statuses coloured.
pub fn to_terminal_summary(root: &ParsedField, format_name: &str, use_color: bool) -> (r: Vec<(Style, TextPart)>)
    requires
        tree_depth(field_out(*root)) < usize::MAX,
    ensures
        styled_view(r@) == term_header(format_name@, root.length, use_color) + term_tree(field_out(*root), 0, use_color),
{
    let mut out: Vec<(Style, TextPart)> = Vec::new();
    assert(styled_view(out@) =~= Seq::<(Style, Piece)>::empty());
    push_st(&mut out, use_color, Style::BoldCyan, "Format:".to_string());
    push_st(&mut out, false, Style::Plain, " ".to_string());
    push_st(&mut out, use_color, Style::Bold, format_name.to_string());
    push_st(&mut out, false, Style::Plain, "\n".to_string());
    push_st(&mut out, use_color, Style::BoldCyan, "Size:".to_string());
    let mut size = String::new();
    push_str(&mut size, " ");
    push_dec(&mut size, root.length as u64);
    push_str(&mut size, " bytes (0x");
    push_hex8(&mut size, root.length as u64);
    push_str(&mut size, ")\n\n");
    push_st(&mut out, false, Style::Plain, size);
    push_st(&mut out, use_color, Style::BoldCyan, "Structure:".to_string());
    push_st(&mut out, false, Style::Plain, "\n".to_string());
    assert(styled_view(out@) =~= term_header(format_name@, root.length, use_color));
    terminal_rows(root, &mut out, 0, use_color);
    out
}

} // verus!
