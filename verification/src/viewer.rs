//! The state of the interactive viewer: the rows of the field tree, the hex
//! cursor, the selection, and what each key does to them.

use vstd::prelude::*;
use crate::parser::{ParsedField, ParsedValue, FieldOut, ValueDesc, field_out, fields_out, lemma_children_out, copy_field};
use crate::export::{lemma_out_parts, tree_depth, list_depth, lemma_child_depth};
use crate::patch::lemma_child_smaller;
use crate::text::{str_eq, chars_of, string_from_chars};
use crate::patch::{hex_decode, hex_decode_spec, to_lowercase, lowercase};
use crate::expr::{contains_chars, contains_seq};

verus! {

/// One row of the field tree: a field, how deep it sits, and whether it is a
/// struct and shown collapsed.
#[derive(Debug)]
pub struct TreeItem {
    pub field: ParsedField,
    pub depth: usize,
    pub is_struct: bool,
    pub children_count: usize,
    pub collapsed: bool,
    pub path: String,
}

pub struct RowDesc {
    pub field: FieldOut,
    pub depth: nat,
    pub is_struct: bool,
    pub children_count: nat,
    pub collapsed: bool,
    pub path: Seq<char>,
}

pub open spec fn row_desc(t: TreeItem) -> RowDesc {
    RowDesc {
        field: field_out(t.field),
        depth: t.depth as nat,
        is_struct: t.is_struct,
        children_count: t.children_count as nat,
        collapsed: t.collapsed,
        path: t.path@,
    }
}

pub open spec fn rows_view(v: Seq<TreeItem>) -> Seq<RowDesc> {
    v.map_values(|t: TreeItem| row_desc(t))
}

pub open spec fn marks_view(c: Seq<(String, bool)>) -> Seq<(Seq<char>, bool)> {
    c.map_values(|p: (String, bool)| (p.0@, p.1))
}

/// The index of the path's first mark.
pub open spec fn mark_index(c: Seq<(Seq<char>, bool)>, p: Seq<char>) -> Option<int>
    decreases c.len(),
{
    if c.len() == 0 {
        None
    } else {
        match mark_index(c.drop_last(), p) {
            Some(i) => Some(i),
            None => if c.last().0 == p { Some(c.len() - 1) } else { None },
        }
    }
}

/// Whether the path is marked collapsed: its first mark, false where it has none.
pub open spec fn collapsed_at(c: Seq<(Seq<char>, bool)>, p: Seq<char>) -> bool {
    match mark_index(c, p) {
        Some(i) => c[i].1,
        None => false,
    }
}

/// The marks with the path's first mark set to `v`, or a mark added at the end.
pub open spec fn mark_put(c: Seq<(Seq<char>, bool)>, p: Seq<char>, v: bool) -> Seq<(Seq<char>, bool)> {
    match mark_index(c, p) {
        Some(i) => c.update(i, (p, v)),
        None => c.push((p, v)),
    }
}

proof fn lemma_mark_index_bounds(c: Seq<(Seq<char>, bool)>, p: Seq<char>)
    ensures
        mark_index(c, p) matches Some(i) ==> 0 <= i < c.len() && c[i].0 == p,
    decreases c.len(),
{
    if c.len() > 0 {
        lemma_mark_index_bounds(c.drop_last(), p);
    }
}

proof fn lemma_mark_index_prefix(c: Seq<(Seq<char>, bool)>, k: int, p: Seq<char>)
    requires
        0 <= k <= c.len(),
        mark_index(c.take(k), p) is Some,
    ensures
        mark_index(c, p) == mark_index(c.take(k), p),
    decreases c.len(),
{
    if k < c.len() {
        assert(c.drop_last().take(k) =~= c.take(k));
        lemma_mark_index_prefix(c.drop_last(), k, p);
    } else {
        assert(c.take(k) =~= c);
    }
}

fn mark_index_exec(c: &Vec<(String, bool)>, p: &str) -> (r: Option<usize>)
    ensures
        match mark_index(marks_view(c@), p@) {
            Some(i) => (r matches Some(q) && q as int == i && 0 <= i < c@.len()),
            None => r is None,
        },
{
    let ghost cv = marks_view(c@);
    let mut i: usize = 0;
    while i < c.len()
        invariant
            i <= c@.len(),
            cv == marks_view(c@),
            mark_index(cv.take(i as int), p@) is None,
        decreases c@.len() - i,
    {
        assert(cv.take(i + 1).drop_last() =~= cv.take(i as int));
        assert(cv.take(i + 1).last() == cv[i as int]);
        if str_eq(c[i].0.as_str(), p) {
            assert(mark_index(cv.take(i + 1), p@) == Some(i as int));
            proof { lemma_mark_index_prefix(cv, i + 1, p@); }
            return Some(i);
        }
        i = i + 1;
    }
    assert(cv.take(cv.len() as int) =~= cv);
    None
}

fn collapsed_at_exec(c: &Vec<(String, bool)>, p: &str) -> (r: bool)
    ensures
        r == collapsed_at(marks_view(c@), p@),
{
    match mark_index_exec(c, p) {
        Some(i) => {
            assert(mark_index(marks_view(c@), p@) == Some(i as int));
            assert(marks_view(c@)[i as int] == (c@[i as int].0@, c@[i as int].1));
            c[i].1
        },
        None => false,
    }
}

pub open spec fn is_struct_value(v: ValueDesc) -> bool {
    v is Struct
}

/// The row of a field at a depth.
pub open spec fn row_of(f: FieldOut, depth: nat, c: Seq<(Seq<char>, bool)>) -> RowDesc {
    RowDesc {
        field: f,
        depth,
        is_struct: is_struct_value(f.value),
        children_count: f.children.len(),
        collapsed: collapsed_at(c, f.path),
        path: f.path,
    }
}

/// The rows of a field and, where it is a struct not marked collapsed, of the
/// fields under it, in order.
pub open spec fn tree_rows(f: FieldOut, depth: nat, c: Seq<(Seq<char>, bool)>) -> Seq<RowDesc>
    decreases f, 1int, 0int,
{
    let head = seq![row_of(f, depth, c)];
    if is_struct_value(f.value) && !collapsed_at(c, f.path) {
        head + child_rows(f, depth, c, f.children.len())
    } else {
        head
    }
}

/// The rows of the first `n` fields under `f`.
pub open spec fn child_rows(f: FieldOut, depth: nat, c: Seq<(Seq<char>, bool)>, n: nat) -> Seq<RowDesc>
    decreases f, 0int, n,
{
    if n == 0 || n > f.children.len() {
        Seq::empty()
    } else {
        child_rows(f, depth, c, (n - 1) as nat) + tree_rows(f.children[n - 1], depth + 1, c)
    }
}

/// Appends the rows of `field` at `depth`.
fn build_rows(field: &ParsedField, depth: usize, marks: &Vec<(String, bool)>, out: &mut Vec<TreeItem>)
    requires
        depth + tree_depth(field_out(*field)) <= usize::MAX,
    ensures
        rows_view(final(out)@) == rows_view(old(out)@) + tree_rows(field_out(*field), depth as nat, marks_view(marks@)),
    decreases field,
{
    proof {
        lemma_out_parts(*field);
        lemma_children_out(*field);
    }
    let ghost f = field_out(*field);
    let ghost c = marks_view(marks@);
    let is_struct = match &field.value { ParsedValue::Struct(_) => true, _ => false };
    assert(is_struct == is_struct_value(f.value));
    let collapsed = collapsed_at_exec(marks, field.path.as_str());
    let ghost start = rows_view(out@);
    let item = TreeItem {
        field: copy_field(field),
        depth,
        is_struct,
        children_count: field.children.len(),
        collapsed,
        path: field.path.clone(),
    };
    out.push(item);
    assert(rows_view(out@) =~= start + seq![row_of(f, depth as nat, c)]);
    if is_struct && !collapsed {
        let ghost head = rows_view(out@);
        let mut i: usize = 0;
        assert(child_rows(f, depth as nat, c, 0) =~= Seq::<RowDesc>::empty());
        while i < field.children.len()
            invariant
                i <= field.children@.len(),
                f == field_out(*field),
                c == marks_view(marks@),
                f.children == fields_out(field.children@),
                depth + tree_depth(f) <= usize::MAX,
                rows_view(out@) == head + child_rows(f, depth as nat, c, i as nat),
            decreases field.children@.len() - i,
        {
            proof {
                lemma_child_smaller(*field, i as int);
                lemma_child_depth(f.children, i as int);
            }
            let child = &field.children[i];
            assert(f.children[i as int] == field_out(*child));
            build_rows(child, depth + 1, marks, out);
            i = i + 1;
            assert(rows_view(out@) =~= head + child_rows(f, depth as nat, c, i as nat));
        }
        assert(rows_view(out@) =~= start + tree_rows(f, depth as nat, c));
    }
}

// ---------------------------------------------------------------------
// The viewer's state.
// ---------------------------------------------------------------------

/// The panel that keys act on.
#[derive(Debug, Clone, Copy, PartialEq, Eq, Structural)]
pub enum Panel {
    Hex,
    Tree,
}

/// The viewer: the data, its parsed tree and its rows, the hex cursor and the
/// first byte shown, the selected row, the collapsed marks, and the search
/// being typed.
pub struct AppState {
    pub data: Vec<u8>,
    pub root_field: ParsedField,
    pub format_name: String,
    pub hex_offset: usize,
    pub hex_cursor: usize,
    pub tree_items: Vec<TreeItem>,
    pub selected: Option<usize>,
    pub collapsed: Vec<(String, bool)>,
    pub active_panel: Panel,
    pub search_query: String,
    pub searching: bool,
    pub file_size: usize,
}

/// Whether a row holds the byte at `offset`: it covers the byte and is a
/// leaf, or a struct of some length with no fields under it.
pub open spec fn row_hits(r: RowDesc, offset: int) -> bool {
    &&& r.field.offset <= offset < r.field.offset + r.field.length
    &&& (!r.is_struct || (r.field.length > 0 && r.field.children.len() == 0))
}

/// The first row that holds the byte at `offset`.
pub open spec fn first_hit(rows: Seq<RowDesc>, offset: int) -> Option<int>
    decreases rows.len(),
{
    if rows.len() == 0 {
        None
    } else {
        match first_hit(rows.drop_last(), offset) {
            Some(i) => Some(i),
            None => if row_hits(rows.last(), offset) { Some(rows.len() - 1) } else { None },
        }
    }
}

/// The first byte shown once the cursor is in view: the cursor's line where
/// it is above the view, the line that puts it on the last of 20 lines where
/// it is below, the same otherwise.
pub open spec fn visible_offset(off: nat, cur: nat) -> nat {
    let row = cur / 16;
    if row < off / 16 {
        row * 16
    } else if row >= off / 16 + 20 {
        ((row - 19) * 16) as nat
    } else {
        off
    }
}

/// The selection once the hex cursor is at `offset`: the row that holds that
/// byte, if any, else the selection as it was.
pub open spec fn select_at(rows: Seq<RowDesc>, offset: int, sel: Option<usize>) -> Option<usize> {
    match first_hit(rows, offset) {
        Some(t) => Some(t as usize),
        None => sel,
    }
}

/// The cursor and the selection after moving the cursor by `delta` bytes:
/// only a move that stays inside the data happens, and it selects the row
/// that holds the new byte, if any.
pub open spec fn hex_step(rows: Seq<RowDesc>, size: nat, cur: usize, sel: Option<usize>, delta: int) -> (usize, Option<usize>) {
    let np = cur + delta;
    if 0 <= np < size { (np as usize, select_at(rows, np, sel)) } else { (cur, sel) }
}

/// A page of 16-byte lines, the height less two, forward or back.
pub open spec fn page_delta(forward: bool, height: nat) -> int {
    let page: int = if height >= 2 { (height - 2) * 16 } else { 0 };
    if forward { page } else { -page }
}

/// The selection, the cursor and the first byte shown after moving the
/// selection by `delta` rows: only a move that stays inside the rows happens,
/// and it puts the cursor on the new row's first byte, in view.
pub open spec fn tree_step(rows: Seq<RowDesc>, sel: Option<usize>, cur: usize, off: usize, delta: int)
    -> (Option<usize>, usize, usize)
{
    let from: int = match sel { Some(s) => s as int, None => 0 };
    let np = from + delta;
    if rows.len() > 0 && 0 <= np < rows.len() {
        (Some(np as usize), rows[np].field.offset, visible_offset(off as nat, rows[np].field.offset as nat) as usize)
    } else {
        (sel, cur, off)
    }
}

impl AppState {
    pub open spec fn rows(&self) -> Seq<RowDesc> {
        rows_view(self.tree_items@)
    }

    /// The rows are those of the parsed tree with the collapsed marks, and the
    /// size is that of the data.
    pub open spec fn wf(&self) -> bool {
        &&& self.file_size == self.data@.len()
        &&& tree_depth(field_out(self.root_field)) < usize::MAX
        &&& self.rows() == tree_rows(field_out(self.root_field), 0, marks_view(self.collapsed@))
    }

    /// Everything but the cursor, the first byte shown and the selection is as in `o`.
    pub open spec fn same_tree(&self, o: AppState) -> bool {
        &&& self.data@ == o.data@
        &&& field_out(self.root_field) == field_out(o.root_field)
        &&& self.format_name@ == o.format_name@
        &&& self.rows() == o.rows()
        &&& marks_view(self.collapsed@) == marks_view(o.collapsed@)
        &&& self.active_panel == o.active_panel
        &&& self.search_query@ == o.search_query@
        &&& self.searching == o.searching
        &&& self.file_size == o.file_size
    }

    /// A viewer on the data and its parsed tree, with every struct expanded,
    /// the first row selected, the cursor on the first byte.
    pub fn new(data: Vec<u8>, root_field: ParsedField, format_name: String) -> (r: AppState)
        requires
            tree_depth(field_out(root_field)) < usize::MAX,
        ensures
            r.wf(),
            r.data@ == data@,
            field_out(r.root_field) == field_out(root_field),
            r.format_name@ == format_name@,
            r.hex_offset == 0,
            r.hex_cursor == 0,
            r.collapsed@.len() == 0,
            r.active_panel == Panel::Hex,
            r.search_query@.len() == 0,
            !r.searching,
            r.selected == (if r.rows().len() > 0 { Some(0usize) } else { None }),
    {
        let file_size = data.len();
        let mut state = AppState {
            data,
            root_field,
            format_name,
            hex_offset: 0,
            hex_cursor: 0,
            tree_items: Vec::new(),
            selected: None,
            collapsed: Vec::new(),
            active_panel: Panel::Hex,
            search_query: String::new(),
            searching: false,
            file_size,
        };
        state.rebuild_tree();
        if state.tree_items.len() > 0 {
            state.selected = Some(0);
        }
        state
    }

    /// Rebuilds the rows from the parsed tree and the collapsed marks.
    pub fn rebuild_tree(&mut self)
        requires
            tree_depth(field_out(old(self).root_field)) < usize::MAX,
        ensures
            final(self).rows() == tree_rows(field_out(old(self).root_field), 0, marks_view(old(self).collapsed@)),
            final(self).data@ == old(self).data@,
            final(self).root_field == old(self).root_field,
            final(self).format_name == old(self).format_name,
            final(self).hex_offset == old(self).hex_offset,
            final(self).hex_cursor == old(self).hex_cursor,
            final(self).selected == old(self).selected,
            final(self).collapsed@ == old(self).collapsed@,
            final(self).active_panel == old(self).active_panel,
            final(self).search_query == old(self).search_query,
            final(self).searching == old(self).searching,
            final(self).file_size == old(self).file_size,
    {
        let mut items: Vec<TreeItem> = Vec::new();
        assert(rows_view(items@) =~= Seq::<RowDesc>::empty());
        build_rows(&self.root_field, 0, &self.collapsed, &mut items);
        assert(rows_view(items@) =~= tree_rows(field_out(self.root_field), 0, marks_view(self.collapsed@)));
        self.tree_items = items;
    }

    /// The index of the first row that holds the byte at `offset` (see `row_hits`).
    pub fn get_field_at_offset(&self, offset: usize) -> (r: Option<usize>)
        ensures
            match first_hit(self.rows(), offset as int) {
                Some(i) => (r matches Some(q) && q as int == i && 0 <= i < self.rows().len()),
                None => r is None,
            },
    {
        let ghost rows = self.rows();
        let mut i: usize = 0;
        while i < self.tree_items.len()
            invariant
                i <= self.tree_items@.len(),
                rows == self.rows(),
                first_hit(rows.take(i as int), offset as int) is None,
            decreases self.tree_items@.len() - i,
        {
            let item = &self.tree_items[i];
            proof { lemma_out_parts(item.field); }
            assert(rows[i as int] == row_desc(*item));
            assert(rows.take(i + 1).drop_last() =~= rows.take(i as int));
            assert(rows.take(i + 1).last() == rows[i as int]);
            let f = &item.field;
            let covers = f.offset <= offset && offset - f.offset < f.length;
            let leaf = !item.is_struct || (f.length > 0 && f.children.len() == 0);
            if covers && leaf {
                assert(first_hit(rows.take(i + 1), offset as int) == Some(i as int));
                proof { lemma_first_hit_prefix(rows, i + 1, offset as int); }
                return Some(i);
            }
            i = i + 1;
        }
        assert(rows.take(rows.len() as int) =~= rows);
        None
    }

    /// The byte range of the selected row.
    pub fn get_highlighted_range(&self) -> (r: Option<(usize, usize)>)
        requires
            self.selected matches Some(s) ==> s < self.rows().len()
                && self.rows()[s as int].field.offset + self.rows()[s as int].field.length <= usize::MAX,
        ensures
            match self.selected {
                Some(s) => r == Some((self.rows()[s as int].field.offset,
                    (self.rows()[s as int].field.offset + self.rows()[s as int].field.length) as usize)),
                None => r is None,
            },
    {
        match self.selected {
            Some(s) => {
                let item = &self.tree_items[s];
                proof { lemma_out_parts(item.field); }
                Some((item.field.offset, item.field.offset + item.field.length))
            },
            None => None,
        }
    }

    /// Brings the cursor into the 20 lines shown (see `visible_offset`).
    pub fn ensure_hex_visible(&mut self)
        ensures
            final(self).hex_offset == visible_offset(old(self).hex_offset as nat, old(self).hex_cursor as nat),
            final(self).same_tree(*old(self)),
            final(self).hex_cursor == old(self).hex_cursor,
            final(self).selected == old(self).selected,
            final(self).root_field == old(self).root_field,
            final(self).tree_items@ == old(self).tree_items@,
            final(self).collapsed@ == old(self).collapsed@,
    {
        let row = self.hex_cursor / 16;
        if row < self.hex_offset / 16 {
            self.hex_offset = row * 16;
        } else if row >= (self.hex_offset / 16) + 20 {
            self.hex_offset = (row - 20 + 1) * 16;
        }
    }

    /// Moves the cursor by `delta` bytes where that stays inside the data,
    /// then selects the row that holds the new byte, if any.
    pub fn move_hex_cursor(&mut self, delta: isize)
        ensures
            final(self).same_tree(*old(self)),
            final(self).root_field == old(self).root_field,
            final(self).tree_items@ == old(self).tree_items@,
            final(self).collapsed@ == old(self).collapsed@,
            final(self).hex_offset == old(self).hex_offset,
            (final(self).hex_cursor, final(self).selected)
                == hex_step(old(self).rows(), old(self).file_size as nat, old(self).hex_cursor, old(self).selected, delta as int),
    {
        let np: i128 = self.hex_cursor as i128 + delta as i128;
        if np >= 0 && np < self.file_size as i128 {
            self.hex_cursor = np as usize;
            match self.get_field_at_offset(self.hex_cursor) {
                Some(t) => { self.selected = Some(t); },
                None => {},
            }
        }
    }

    /// Moves the cursor a page of 16-byte lines: the height less two, forward or back.
    pub fn move_hex_page(&mut self, forward: bool, height: usize)
        requires
            (if height >= 2 { (height - 2) * 16 } else { 0 }) <= isize::MAX,
        ensures
            final(self).same_tree(*old(self)),
            final(self).root_field == old(self).root_field,
            final(self).tree_items@ == old(self).tree_items@,
            final(self).collapsed@ == old(self).collapsed@,
            final(self).hex_offset == old(self).hex_offset,
            (final(self).hex_cursor, final(self).selected)
                == hex_step(old(self).rows(), old(self).file_size as nat, old(self).hex_cursor, old(self).selected,
                    page_delta(forward, height as nat)),
    {
        let lines: usize = if height >= 2 { height - 2 } else { 0 };
        let bytes_per_page = lines * 16;
        let delta: isize = if forward { bytes_per_page as isize } else { -(bytes_per_page as isize) };
        self.move_hex_cursor(delta);
    }

    /// Moves the selection by `delta` rows where that stays inside the rows,
    /// puts the cursor on the new row's first byte and brings it into view.
    pub fn move_tree(&mut self, delta: isize)
        ensures
            final(self).same_tree(*old(self)),
            final(self).root_field == old(self).root_field,
            final(self).tree_items@ == old(self).tree_items@,
            final(self).collapsed@ == old(self).collapsed@,
            (final(self).selected, final(self).hex_cursor, final(self).hex_offset)
                == tree_step(old(self).rows(), old(self).selected, old(self).hex_cursor, old(self).hex_offset, delta as int),
    {
        if self.tree_items.len() == 0 {
            return;
        }
        let current: usize = match self.selected { Some(s) => s, None => 0 };
        let np: i128 = current as i128 + delta as i128;
        if np >= 0 && np < self.tree_items.len() as i128 {
            let idx = np as usize;
            self.selected = Some(idx);
            proof { lemma_out_parts(self.tree_items@[idx as int].field); }
            self.hex_cursor = self.tree_items[idx].field.offset;
            self.ensure_hex_visible();
        }
    }
}

proof fn lemma_first_hit_prefix(rows: Seq<RowDesc>, k: int, offset: int)
    requires
        0 <= k <= rows.len(),
        first_hit(rows.take(k), offset) is Some,
    ensures
        first_hit(rows, offset) == first_hit(rows.take(k), offset),
        first_hit(rows, offset) matches Some(i) ==> 0 <= i < k,
    decreases rows.len(),
{
    lemma_first_hit_bounds(rows.take(k), offset);
    if k < rows.len() {
        assert(rows.drop_last().take(k) =~= rows.take(k));
        lemma_first_hit_prefix(rows.drop_last(), k, offset);
    } else {
        assert(rows.take(k) =~= rows);
    }
}

proof fn lemma_first_hit_bounds(rows: Seq<RowDesc>, offset: int)
    ensures
        first_hit(rows, offset) matches Some(i) ==> 0 <= i < rows.len() && row_hits(rows[i], offset),
    decreases rows.len(),
{
    if rows.len() > 0 {
        lemma_first_hit_bounds(rows.drop_last(), offset);
    }
}

// ---------------------------------------------------------------------
// Collapsing, and searching.
// ---------------------------------------------------------------------

/// Whether a query is read as hex: it starts with `0x`, or every character is
/// a capital hex letter or a small letter.
pub open spec fn hex_like(q: Seq<char>) -> bool {
    (q.len() >= 2 && q[0] == '0' && q[1] == 'x')
        || forall|i: int| 0 <= i < q.len() ==> ('A' <= #[trigger] q[i] <= 'F' || 'a' <= q[i] <= 'z')
}

/// The query without every leading `0x`.
pub open spec fn trim_hex_prefix(q: Seq<char>) -> Seq<char>
    decreases q.len(),
{
    if q.len() >= 2 && q[0] == '0' && q[1] == 'x' { trim_hex_prefix(q.skip(2)) } else { q }
}

/// The bytes a query looks for: its hex digits decoded where it reads as hex
/// and decodes, its UTF-8 bytes otherwise.
pub open spec fn query_bytes(q: Seq<char>) -> Seq<u8> {
    if hex_like(q) {
        match hex_decode_spec(vstd::utf8::encode_utf8(trim_hex_prefix(q))) {
            Ok(b) => b,
            Err(_) => vstd::utf8::encode_utf8(q),
        }
    } else {
        vstd::utf8::encode_utf8(q)
    }
}

/// The first position before `n` where the bytes `b` stand in `d`.
pub open spec fn bytes_hit(d: Seq<u8>, b: Seq<u8>, n: nat) -> Option<int>
    decreases n,
{
    if n == 0 {
        None
    } else {
        match bytes_hit(d, b, (n - 1) as nat) {
            Some(i) => Some(i),
            None => {
                let i = n - 1;
                if i + b.len() <= d.len() && d.subrange(i, i + b.len()) == b { Some(i) } else { None }
            },
        }
    }
}

/// The first position where the query's bytes stand in the data, searched
/// before the data's length less the bytes' length.
pub open spec fn data_hit(d: Seq<u8>, b: Seq<u8>) -> Option<int> {
    bytes_hit(d, b, if d.len() >= b.len() { (d.len() - b.len()) as nat } else { 0 })
}

/// The first row whose name or path, in small letters, holds the query in small letters.
pub open spec fn name_hit(rows: Seq<RowDesc>, ql: Seq<char>) -> Option<int>
    decreases rows.len(),
{
    if rows.len() == 0 {
        None
    } else {
        match name_hit(rows.drop_last(), ql) {
            Some(i) => Some(i),
            None => {
                let r = rows.last();
                if contains_seq(lowercase(r.field.name), ql) || contains_seq(lowercase(r.path), ql) {
                    Some(rows.len() - 1)
                } else {
                    None
                }
            },
        }
    }
}

/// What a search gives, and the selection, cursor and first byte shown after
/// it: nothing for an empty query; the position of the query's bytes in the
/// data, with the cursor there; else the offset of the first row whose name
/// or path holds the query, selected, with the cursor on it.
pub open spec fn search_step(data: Seq<u8>, rows: Seq<RowDesc>, q: Seq<char>, sel: Option<usize>, cur: usize, off: usize)
    -> (Option<usize>, Option<usize>, usize, usize)
{
    if q.len() == 0 {
        (None, sel, cur, off)
    } else {
        match data_hit(data, query_bytes(q)) {
            Some(i) => (Some(i as usize), select_at(rows, i, sel), i as usize, visible_offset(off as nat, i as nat) as usize),
            None => match name_hit(rows, lowercase(q)) {
                Some(k) => (Some(rows[k].field.offset), Some(k as usize), rows[k].field.offset,
                    visible_offset(off as nat, rows[k].field.offset as nat) as usize),
                None => (None, sel, cur, off),
            },
        }
    }
}

fn hex_like_exec(q: &Vec<char>) -> (r: bool)
    ensures
        r == hex_like(q@),
{
    if q.len() >= 2 && q[0] == '0' && q[1] == 'x' {
        return true;
    }
    let mut i: usize = 0;
    while i < q.len()
        invariant
            i <= q@.len(),
            !(q@.len() >= 2 && q@[0] == '0' && q@[1] == 'x'),
            forall|j: int| 0 <= j < i ==> ('A' <= #[trigger] q@[j] <= 'F' || 'a' <= q@[j] <= 'z'),
        decreases q@.len() - i,
    {
        let c = q[i];
        if !(('A' <= c && c <= 'F') || ('a' <= c && c <= 'z')) {
            assert(q@[i as int] == c);
            return false;
        }
        i = i + 1;
    }
    true
}

fn hex_prefix_end(q: &Vec<char>) -> (r: usize)
    ensures
        r <= q@.len(),
        trim_hex_prefix(q@) == q@.skip(r as int),
{
    let mut i: usize = 0;
    assert(q@.skip(0) =~= q@);
    while q.len() - i >= 2 && q[i] == '0' && q[i + 1] == 'x'
        invariant
            i <= q@.len(),
            trim_hex_prefix(q@) == trim_hex_prefix(q@.skip(i as int)),
        decreases q@.len() - i,
    {
        let ghost t = q@.skip(i as int);
        assert(t[0] == q@[i as int] && t[1] == q@[i + 1]);
        assert(t.skip(2) =~= q@.skip(i + 2));
        i = i + 2;
    }
    let ghost t = q@.skip(i as int);
    assert(t.len() >= 2 ==> t[0] == q@[i as int] && t[1] == q@[i + 1]);
    i
}

fn trim_hex_prefix_exec(q: &Vec<char>) -> (r: Vec<char>)
    ensures
        r@ == trim_hex_prefix(q@),
{
    let start = hex_prefix_end(q);
    let mut r: Vec<char> = Vec::new();
    let mut i = start;
    while i < q.len()
        invariant
            start <= i <= q@.len(),
            r@ == q@.subrange(start as int, i as int),
        decreases q@.len() - i,
    {
        r.push(q[i]);
        i = i + 1;
        assert(r@ =~= q@.subrange(start as int, i as int));
    }
    assert(q@.skip(start as int) =~= r@);
    r
}

fn bytes_at(d: &Vec<u8>, i: usize, b: &Vec<u8>) -> (r: bool)
    requires
        i + b@.len() <= d@.len(),
    ensures
        r == (d@.subrange(i as int, i + b@.len()) == b@),
{
    let dl = d.len();
    let mut k: usize = 0;
    while k < b.len()
        invariant
            k <= b@.len(),
            dl == d@.len(),
            i + b@.len() <= d@.len(),
            d@.subrange(i as int, i + k) == b@.take(k as int),
        decreases b@.len() - k,
    {
        if d[i + k] != b[k] {
            assert(d@.subrange(i as int, i + b@.len())[k as int] != b@[k as int]);
            return false;
        }
        k = k + 1;
        assert(d@.subrange(i as int, i + k) =~= b@.take(k as int));
    }
    assert(b@.take(b@.len() as int) =~= b@);
    true
}

proof fn lemma_bytes_hit_prefix(d: Seq<u8>, b: Seq<u8>, k: nat, n: nat)
    requires
        k <= n,
        bytes_hit(d, b, k) is Some,
    ensures
        bytes_hit(d, b, n) == bytes_hit(d, b, k),
    decreases n,
{
    if n > k {
        lemma_bytes_hit_prefix(d, b, k, (n - 1) as nat);
    }
}

proof fn lemma_name_hit_prefix(rows: Seq<RowDesc>, k: int, ql: Seq<char>)
    requires
        0 <= k <= rows.len(),
        name_hit(rows.take(k), ql) is Some,
    ensures
        name_hit(rows, ql) == name_hit(rows.take(k), ql),
    decreases rows.len(),
{
    if k < rows.len() {
        assert(rows.drop_last().take(k) =~= rows.take(k));
        lemma_name_hit_prefix(rows.drop_last(), k, ql);
    } else {
        assert(rows.take(k) =~= rows);
    }
}

proof fn lemma_name_hit_bounds(rows: Seq<RowDesc>, ql: Seq<char>)
    ensures
        name_hit(rows, ql) matches Some(i) ==> 0 <= i < rows.len(),
    decreases rows.len(),
{
    if rows.len() > 0 {
        lemma_name_hit_bounds(rows.drop_last(), ql);
    }
}

fn data_search(d: &Vec<u8>, b: &Vec<u8>) -> (r: Option<usize>)
    ensures
        match data_hit(d@, b@) {
            Some(i) => (r matches Some(q) && q as int == i && i + b@.len() <= d@.len()),
            None => r is None,
        },
{
    let limit: usize = if d.len() >= b.len() { d.len() - b.len() } else { 0 };
    let mut i: usize = 0;
    while i < limit
        invariant
            i <= limit,
            limit == (if d@.len() >= b@.len() { d@.len() - b@.len() } else { 0 }),
            bytes_hit(d@, b@, i as nat) is None,
        decreases limit - i,
    {
        if bytes_at(d, i, b) {
            assert(bytes_hit(d@, b@, (i + 1) as nat) == Some(i as int));
            proof { lemma_bytes_hit_prefix(d@, b@, (i + 1) as nat, limit as nat); }
            return Some(i);
        }
        i = i + 1;
    }
    None
}

impl AppState {
    /// Flips the collapsed mark of the selected row where it is a struct, and
    /// rebuilds the rows; the selection stays on the same index.
    pub fn toggle_collapse(&mut self)
        requires
            old(self).wf(),
        ensures
            final(self).wf(),
            final(self).data@ == old(self).data@,
            final(self).root_field == old(self).root_field,
            final(self).hex_offset == old(self).hex_offset,
            final(self).hex_cursor == old(self).hex_cursor,
            final(self).selected == old(self).selected,
            final(self).active_panel == old(self).active_panel,
            final(self).search_query@ == old(self).search_query@,
            final(self).searching == old(self).searching,
            final(self).format_name@ == old(self).format_name@,
            match old(self).selected {
                Some(s) => if s < old(self).rows().len() && old(self).rows()[s as int].is_struct {
                    let p = old(self).rows()[s as int].path;
                    let c = marks_view(old(self).collapsed@);
                    marks_view(final(self).collapsed@) == mark_put(c, p, !collapsed_at(c, p))
                } else {
                    final(self).collapsed@ == old(self).collapsed@ && final(self).rows() == old(self).rows()
                },
                None => final(self).collapsed@ == old(self).collapsed@ && final(self).rows() == old(self).rows(),
            },
    {
        let s = match self.selected {
            Some(s) => s,
            None => return,
        };
        if s >= self.tree_items.len() || !self.tree_items[s].is_struct {
            return;
        }
        assert(self.rows()[s as int] == row_desc(self.tree_items@[s as int]));
        let path = self.tree_items[s].path.clone();
        let ghost c = marks_view(self.collapsed@);
        let now = collapsed_at_exec(&self.collapsed, path.as_str());
        proof { lemma_mark_index_bounds(c, path@); }
        match mark_index_exec(&self.collapsed, path.as_str()) {
            Some(i) => {
                self.collapsed.set(i, (path, !now));
            },
            None => {
                self.collapsed.push((path, !now));
            },
        }
        assert(marks_view(self.collapsed@) =~= mark_put(c, self.rows()[s as int].path, !now));
        self.rebuild_tree();
        self.selected = Some(s);
    }

    /// Looks for the query: first its bytes in the data (see `query_bytes`
    /// and `data_hit`), moving the cursor there; else a row whose name or path
    /// holds it, ignoring case (see `name_hit`), selecting that row. Gives the
    /// offset found.
    pub fn search(&mut self, query: &str) -> (r: Option<usize>)
        ensures
            final(self).same_tree(*old(self)),
            final(self).root_field == old(self).root_field,
            final(self).tree_items@ == old(self).tree_items@,
            final(self).collapsed@ == old(self).collapsed@,
            (r, final(self).selected, final(self).hex_cursor, final(self).hex_offset)
                == search_step(old(self).data@, old(self).rows(), query@, old(self).selected, old(self).hex_cursor,
                    old(self).hex_offset),
    {
        let q = chars_of(query);
        if q.len() == 0 {
            return None;
        }
        let bytes: Vec<u8> = if hex_like_exec(&q) {
            let t = trim_hex_prefix_exec(&q);
            let ts = string_from_chars(t.as_slice());
            match hex_decode(ts.as_str()) {
                Ok(b) => b,
                Err(_) => query.as_bytes_vec(),
            }
        } else {
            query.as_bytes_vec()
        };
        assert(bytes@ == query_bytes(query@));
        if let Some(i) = data_search(&self.data, &bytes) {
            self.hex_cursor = i;
            self.ensure_hex_visible();
            if let Some(t) = self.get_field_at_offset(i) {
                self.selected = Some(t);
            }
            return Some(i);
        }
        let ql = to_lowercase(query);
        let qc = chars_of(ql.as_str());
        let ghost rows = self.rows();
        let mut k: usize = 0;
        while k < self.tree_items.len()
            invariant
                k <= self.tree_items@.len(),
                *self == *old(self),
                rows == self.rows(),
                qc@ == lowercase(query@),
                query@.len() > 0,
                data_hit(old(self).data@, query_bytes(query@)) is None,
                name_hit(rows.take(k as int), qc@) is None,
            decreases self.tree_items@.len() - k,
        {
            let item = &self.tree_items[k];
            proof { lemma_out_parts(item.field); }
            assert(rows[k as int] == row_desc(*item));
            assert(rows.take(k + 1).drop_last() =~= rows.take(k as int));
            assert(rows.take(k + 1).last() == rows[k as int]);
            let nl = to_lowercase(item.field.name.as_str());
            let pl = to_lowercase(item.path.as_str());
            let nc = chars_of(nl.as_str());
            let pc = chars_of(pl.as_str());
            if contains_chars(&nc, &qc) || contains_chars(&pc, &qc) {
                assert(name_hit(rows.take(k + 1), qc@) == Some(k as int));
                proof { lemma_name_hit_prefix(rows, k + 1, qc@); }
                let off = self.tree_items[k].field.offset;
                self.selected = Some(k);
                self.hex_cursor = off;
                self.ensure_hex_visible();
                return Some(off);
            }
            k = k + 1;
        }
        assert(rows.take(rows.len() as int) =~= rows);
        None
    }
}

// ---------------------------------------------------------------------
// Keys.
// ---------------------------------------------------------------------

/// A key the viewer tells apart.
#[derive(Debug, Clone, Copy, PartialEq, Eq, Structural)]
pub enum Key {
    Enter,
    Esc,
    Backspace,
    Tab,
    Up,
    Down,
    Left,
    Right,
    PageUp,
    PageDown,
    Home,
    End,
    Char(char),
    Other,
}

/// The collapsed marks after toggling the selected row, where it is a struct.
pub open spec fn toggled_marks(rows: Seq<RowDesc>, c: Seq<(Seq<char>, bool)>, sel: Option<usize>) -> Seq<(Seq<char>, bool)> {
    match sel {
        Some(s) => if s < rows.len() && rows[s as int].is_struct {
            mark_put(c, rows[s as int].path, !collapsed_at(c, rows[s as int].path))
        } else {
            c
        },
        None => c,
    }
}

/// The line count a page key moves by in the hex panel.
pub const PAGE_HEIGHT: usize = 20;

impl AppState {
    /// What a key does. While a search is typed: Enter runs it and ends the
    /// typing, Esc ends it, Backspace takes off the last character, any other
    /// character is added. Otherwise: `q` or Esc quits, Tab switches panels,
    /// `/` starts a search, Enter toggles the selected struct in the tree
    /// panel, the arrows and page keys move the cursor (hex panel) or the
    /// selection (tree panel), Home and End go to the first and last byte and row.
    pub fn handle_key(&mut self, key: Key) -> (quit: bool)
        requires
            old(self).wf(),
        ensures
            final(self).wf(),
            final(self).data@ == old(self).data@,
            final(self).root_field == old(self).root_field,
            final(self).format_name@ == old(self).format_name@,
            final(self).file_size == old(self).file_size,
            !(key == Key::Enter && !old(self).searching && old(self).active_panel == Panel::Tree)
                ==> final(self).tree_items@ == old(self).tree_items@ && final(self).collapsed@ == old(self).collapsed@,
            final(self).active_panel == (if !old(self).searching && key == Key::Tab {
                if old(self).active_panel == Panel::Hex { Panel::Tree } else { Panel::Hex }
            } else {
                old(self).active_panel
            }),
            !old(self).searching && key != Key::Char('/')
                ==> !final(self).searching && final(self).search_query@ == old(self).search_query@,
            old(self).searching && key != Key::Enter ==> final(self).hex_cursor == old(self).hex_cursor
                && final(self).selected == old(self).selected && final(self).hex_offset == old(self).hex_offset,
            !old(self).searching ==> match key {
                Key::Up | Key::Down | Key::PageUp | Key::PageDown =>
                    old(self).active_panel == Panel::Hex ==> final(self).hex_offset == old(self).hex_offset,
                Key::Left | Key::Right => final(self).hex_offset == old(self).hex_offset,
                Key::Home | Key::End => true,
                _ => final(self).hex_cursor == old(self).hex_cursor && final(self).selected == old(self).selected
                    && final(self).hex_offset == old(self).hex_offset,
            },
            old(self).searching ==> !quit && match key {
                Key::Enter => {
                    let (_, sel, cur, off) = search_step(old(self).data@, old(self).rows(), old(self).search_query@,
                        old(self).selected, old(self).hex_cursor, old(self).hex_offset);
                    &&& !final(self).searching
                    &&& final(self).search_query@.len() == 0
                    &&& final(self).selected == sel && final(self).hex_cursor == cur && final(self).hex_offset == off
                    &&& final(self).collapsed@ == old(self).collapsed@
                },
                Key::Esc => !final(self).searching && final(self).search_query@.len() == 0
                    && final(self).selected == old(self).selected && final(self).hex_cursor == old(self).hex_cursor,
                Key::Backspace => final(self).searching
                    && final(self).search_query@ == (if old(self).search_query@.len() > 0 { old(self).search_query@.drop_last() }
                        else { old(self).search_query@ }),
                Key::Char(c) => final(self).searching && final(self).search_query@ == old(self).search_query@.push(c),
                _ => final(self).searching && final(self).search_query@ == old(self).search_query@
                    && final(self).selected == old(self).selected && final(self).hex_cursor == old(self).hex_cursor,
            },
            !old(self).searching ==> {
                let rows = old(self).rows();
                let hex = old(self).active_panel == Panel::Hex;
                let size = old(self).file_size as nat;
                let sel = old(self).selected;
                let cur = old(self).hex_cursor;
                let off = old(self).hex_offset;
                &&& quit == (key == Key::Esc || key == Key::Char('q'))
                &&& match key {
                    Key::Tab => final(self).active_panel == (if hex { Panel::Tree } else { Panel::Hex }),
                    Key::Char('/') => final(self).searching && final(self).search_query@.len() == 0,
                    Key::Enter => marks_view(final(self).collapsed@)
                        == (if hex { marks_view(old(self).collapsed@) } else { toggled_marks(rows, marks_view(old(self).collapsed@), sel) })
                        && final(self).selected == sel,
                    Key::Up => if hex { (final(self).hex_cursor, final(self).selected) == hex_step(rows, size, cur, sel, -16) }
                        else { (final(self).selected, final(self).hex_cursor, final(self).hex_offset) == tree_step(rows, sel, cur, off, -1) },
                    Key::Down => if hex { (final(self).hex_cursor, final(self).selected) == hex_step(rows, size, cur, sel, 16) }
                        else { (final(self).selected, final(self).hex_cursor, final(self).hex_offset) == tree_step(rows, sel, cur, off, 1) },
                    Key::Left => if hex { (final(self).hex_cursor, final(self).selected) == hex_step(rows, size, cur, sel, -1) }
                        else { final(self).hex_cursor == cur && final(self).selected == sel },
                    Key::Right => if hex { (final(self).hex_cursor, final(self).selected) == hex_step(rows, size, cur, sel, 1) }
                        else { final(self).hex_cursor == cur && final(self).selected == sel },
                    Key::PageUp => if hex { (final(self).hex_cursor, final(self).selected) == hex_step(rows, size, cur, sel, page_delta(false, PAGE_HEIGHT as nat)) }
                        else { (final(self).selected, final(self).hex_cursor, final(self).hex_offset) == tree_step(rows, sel, cur, off, -10) },
                    Key::PageDown => if hex { (final(self).hex_cursor, final(self).selected) == hex_step(rows, size, cur, sel, page_delta(true, PAGE_HEIGHT as nat)) }
                        else { (final(self).selected, final(self).hex_cursor, final(self).hex_offset) == tree_step(rows, sel, cur, off, 10) },
                    Key::Home => final(self).hex_cursor == 0 && final(self).hex_offset == 0
                        && final(self).selected == (if rows.len() > 0 { Some(0usize) } else { sel }),
                    Key::End => {
                        let last: usize = if size > 0 { (size - 1) as usize } else { 0 };
                        &&& final(self).hex_cursor == last
                        &&& final(self).hex_offset == visible_offset(off as nat, last as nat)
                        &&& final(self).selected == (if rows.len() > 0 { Some((rows.len() - 1) as usize) } else { sel })
                    },
                    _ => final(self).hex_cursor == cur && final(self).selected == sel,
                }
            },
    {
        if self.searching {
            match key {
                Key::Enter => {
                    let q = self.search_query.clone();
                    self.search(q.as_str());
                    self.searching = false;
                    self.search_query = String::new();
                },
                Key::Esc => {
                    self.searching = false;
                    self.search_query = String::new();
                },
                Key::Backspace => {
                    let mut cs = chars_of(self.search_query.as_str());
                    if cs.len() > 0 {
                        cs.pop();
                    }
                    self.search_query = string_from_chars(cs.as_slice());
                },
                Key::Char(c) => {
                    crate::text::push_char(&mut self.search_query, c);
                },
                _ => {},
            }
            return false;
        }
        match key {
            Key::Char('q') | Key::Esc => {
                return true;
            },
            Key::Tab => {
                self.active_panel = match self.active_panel {
                    Panel::Hex => Panel::Tree,
                    Panel::Tree => Panel::Hex,
                };
            },
            Key::Char('/') => {
                self.searching = true;
                self.search_query = String::new();
            },
            Key::Enter => {
                if self.active_panel == Panel::Tree {
                    self.toggle_collapse();
                }
            },
            Key::Up => match self.active_panel {
                Panel::Hex => self.move_hex_cursor(-16),
                Panel::Tree => self.move_tree(-1),
            },
            Key::Down => match self.active_panel {
                Panel::Hex => self.move_hex_cursor(16),
                Panel::Tree => self.move_tree(1),
            },
            Key::Left => {
                if self.active_panel == Panel::Hex {
                    self.move_hex_cursor(-1);
                }
            },
            Key::Right => {
                if self.active_panel == Panel::Hex {
                    self.move_hex_cursor(1);
                }
            },
            Key::PageUp => {
                if self.active_panel == Panel::Hex {
                    self.move_hex_page(false, PAGE_HEIGHT);
                } else {
                    self.move_tree(-10);
                }
            },
            Key::PageDown => {
                if self.active_panel == Panel::Hex {
                    self.move_hex_page(true, PAGE_HEIGHT);
                } else {
                    self.move_tree(10);
                }
            },
            Key::Home => {
                self.hex_cursor = 0;
                self.hex_offset = 0;
                if self.tree_items.len() > 0 {
                    self.selected = Some(0);
                }
            },
            Key::End => {
                self.hex_cursor = if self.file_size > 0 { self.file_size - 1 } else { 0 };
                self.ensure_hex_visible();
                if self.tree_items.len() > 0 {
                    self.selected = Some(self.tree_items.len() - 1);
                }
            },
            _ => {},
        }
        false
    }
}

// ---------------------------------------------------------------------
// The rows the hex panel shows.
// ---------------------------------------------------------------------

/// How a byte of the hex panel is marked: under the cursor, inside the
/// selected row's range, or neither.
#[derive(Debug, Clone, Copy, PartialEq, Eq, Structural)]
pub enum CellMark {
    Cursor,
    Highlighted,
    Plain,
}

/// One line of the hex panel: the offset of its first byte, and each byte of
/// the data on it with its mark (fewer than sixteen on the last line).
#[derive(Debug)]
pub struct HexRow {
    pub offset: usize,
    pub cells: Vec<(u8, CellMark)>,
}

/// The number of lines the hex panel shows.
pub const HEX_LINES: usize = 20;

/// The selected row's byte range, where the selection names a row whose end
/// fits in a `usize`.
pub open spec fn highlight_of(st: AppState) -> Option<(int, int)> {
    match st.selected {
        Some(s) => if s < st.rows().len() && st.rows()[s as int].field.offset + st.rows()[s as int].field.length <= usize::MAX {
            Some((st.rows()[s as int].field.offset as int, st.rows()[s as int].field.offset + st.rows()[s as int].field.length))
        } else {
            None
        },
        None => None,
    }
}

pub open spec fn mark_of(st: AppState, b: int) -> CellMark {
    if b == st.hex_cursor {
        CellMark::Cursor
    } else if highlight_of(st) matches Some((a, e)) && a <= b < e {
        CellMark::Highlighted
    } else {
        CellMark::Plain
    }
}

/// The line of the hex panel that starts at byte `off`.
pub open spec fn hex_line(st: AppState, off: int) -> (int, Seq<(u8, CellMark)>) {
    let n = if st.data@.len() - off < 16 { st.data@.len() - off } else { 16 };
    (off, Seq::new(n as nat, |j: int| (st.data@[off + j], mark_of(st, off + j))))
}

/// The first byte of the first line shown.
pub open spec fn first_line(st: AppState) -> int {
    (st.hex_offset as int / 16) * 16
}

/// How many lines the panel shows: up to twenty, while they start inside the data.
pub open spec fn line_count(st: AppState) -> nat {
    let start = first_line(st);
    if start >= st.data@.len() {
        0
    } else {
        let lines = (st.data@.len() - start + 15) / 16;
        if lines < HEX_LINES { lines as nat } else { HEX_LINES as nat }
    }
}

/// The lines of the hex panel, from the line that holds `hex_offset`.
pub open spec fn hex_lines(st: AppState) -> Seq<(int, Seq<(u8, CellMark)>)> {
    Seq::new(line_count(st), |k: int| hex_line(st, first_line(st) + 16 * k))
}

pub open spec fn hex_rows_view(v: Seq<HexRow>) -> Seq<(int, Seq<(u8, CellMark)>)> {
    v.map_values(|r: HexRow| (r.offset as int, r.cells@))
}

impl AppState {
    fn highlight_exec(&self) -> (r: Option<(usize, usize)>)
        ensures
            match highlight_of(*self) {
                Some((a, e)) => r matches Some((x, y)) && x == a && y == e,
                None => r is None,
            },
    {
        match self.selected {
            Some(s) => {
                if s < self.tree_items.len() {
                    let item = &self.tree_items[s];
                    proof { lemma_out_parts(item.field); }
                    if item.field.offset <= usize::MAX - item.field.length {
                        return Some((item.field.offset, item.field.offset + item.field.length));
                    }
                }
                None
            },
            None => None,
        }
    }

    /// The lines the hex panel shows (see `hex_lines`).
    pub fn hex_rows(&self) -> (r: Vec<HexRow>)
        requires
            self.wf(),
        ensures
            hex_rows_view(r@) == hex_lines(*self),
    {
        let ghost want = hex_lines(*self);
        let hl = self.highlight_exec();
        let size = self.data.len();
        let mut rows: Vec<HexRow> = Vec::new();
        let mut off: usize = (self.hex_offset / 16) * 16;
        let mut k: usize = 0;
        while k < HEX_LINES && off < size
            invariant
                self.wf(),
                size == self.data@.len(),
                k <= HEX_LINES,
                k < line_count(*self) ==> off == first_line(*self) + 16 * k,
                k == 0 ==> off == first_line(*self),
                k <= line_count(*self),
                k < line_count(*self) <==> (k < HEX_LINES && off < size),
                hex_rows_view(rows@) == want.take(k as int),
                want == hex_lines(*self),
                match highlight_of(*self) {
                    Some((a, e)) => hl matches Some((x, y)) && x == a && y == e,
                    None => hl is None,
                },
            decreases HEX_LINES - k,
        {
            let n: usize = if size - off < 16 { size - off } else { 16 };
            let mut cells: Vec<(u8, CellMark)> = Vec::new();
            let mut j: usize = 0;
            while j < n
                invariant
                    n <= 16,
                    off + n <= size,
                    size == self.data@.len(),
                    j <= n,
                    cells@.len() == j,
                    forall|t: int| 0 <= t < j ==> #[trigger] cells@[t] == (self.data@[off + t], mark_of(*self, off + t)),
                    match highlight_of(*self) {
                        Some((a, e)) => hl matches Some((x, y)) && x == a && y == e,
                        None => hl is None,
                    },
                decreases n - j,
            {
                let b = off + j;
                let mark = if b == self.hex_cursor {
                    CellMark::Cursor
                } else {
                    match hl {
                        Some((a, e)) => if a <= b && b < e { CellMark::Highlighted } else { CellMark::Plain },
                        None => CellMark::Plain,
                    }
                };
                cells.push((self.data[b], mark));
                j = j + 1;
            }
            proof {
                assert(cells@ =~= hex_line(*self, off as int).1);
                assert(want[k as int] == hex_line(*self, first_line(*self) + 16 * k));
            }
            let ghost before = rows@;
            rows.push(HexRow { offset: off, cells });
            proof {
                assert(hex_rows_view(rows@) =~= hex_rows_view(before).push((off as int, hex_line(*self, off as int).1)));
                assert(want.take(k + 1) =~= want.take(k as int).push(want[k as int]));
            }
            k = k + 1;
            if size - off <= 16 {
                off = size;
            } else {
                off = off + 16;
            }
        }
        assert(want.take(k as int) =~= want);
        rows
    }
}

} // verus!
