//! Field-by-field comparison of two parsed trees.

use vstd::prelude::*;
use crate::parser::{ParsedValue, ParsedField, FieldOut, ValueDesc, field_out, fields_out, lemma_children_out};
use crate::display::{TextPart, Piece, piece, pieces, text, display_pieces};
use crate::numfmt::{dec_str, hex_pad, push_dec, push_hex8};
use crate::text::{push_str, str_eq};
use crate::export::{lemma_out_parts, escape_pipes, list_depth, tree_depth, lemma_child_depth};
use crate::patch::lemma_child_smaller;

verus! {

// ---------------------------------------------------------------------
// Comparing displayed values.
// ---------------------------------------------------------------------

/// Whether 32-bit float bits encode a NaN.
pub open spec fn is_nan32(b: u32) -> bool {
    (b / 0x800000) % 0x100 == 0xFF && b % 0x800000 != 0
}

/// Whether 64-bit float bits encode a NaN.
pub open spec fn is_nan64(b: u64) -> bool {
    (b / 0x10000000000000) % 0x800 == 0x7FF && b % 0x10000000000000 != 0
}

/// Whether two pieces print the same: equal text, or floats with equal bits
/// or both NaN (every NaN prints as `NaN`).
pub open spec fn same_piece(a: Piece, b: Piece) -> bool {
    match (a, b) {
        (Piece::Text(x), Piece::Text(y)) => x == y,
        (Piece::Single(x), Piece::Single(y)) => x == y || (is_nan32(x) && is_nan32(y)),
        (Piece::Double(x), Piece::Double(y)) => x == y || (is_nan64(x) && is_nan64(y)),
        _ => false,
    }
}

pub open spec fn same_pieces(a: Seq<Piece>, b: Seq<Piece>) -> bool {
    a.len() == b.len() && forall|i: int| 0 <= i < a.len() ==> same_piece(#[trigger] a[i], b[i])
}

fn is_nan32_exec(b: u32) -> (r: bool)
    ensures
        r == is_nan32(b),
{
    (b / 0x800000) % 0x100 == 0xFF && b % 0x800000 != 0
}

fn is_nan64_exec(b: u64) -> (r: bool)
    ensures
        r == is_nan64(b),
{
    (b / 0x10000000000000) % 0x800 == 0x7FF && b % 0x10000000000000 != 0
}

fn same_parts(a: &Vec<TextPart>, b: &Vec<TextPart>) -> (r: bool)
    ensures
        r == same_pieces(pieces(a@), pieces(b@)),
{
    if a.len() != b.len() {
        return false;
    }
    let mut i: usize = 0;
    while i < a.len()
        invariant
            i <= a@.len(),
            a@.len() == b@.len(),
            forall|j: int| 0 <= j < i ==> same_piece(#[trigger] pieces(a@)[j], pieces(b@)[j]),
        decreases a@.len() - i,
    {
        let same = match (&a[i], &b[i]) {
            (TextPart::Text(x), TextPart::Text(y)) => str_eq(x.as_str(), y.as_str()),
            (TextPart::Single(x), TextPart::Single(y)) => *x == *y || (is_nan32_exec(*x) && is_nan32_exec(*y)),
            (TextPart::Double(x), TextPart::Double(y)) => *x == *y || (is_nan64_exec(*x) && is_nan64_exec(*y)),
            _ => false,
        };
        assert(pieces(a@)[i as int] == piece(a@[i as int]));
        assert(pieces(b@)[i as int] == piece(b@[i as int]));
        if !same {
            return false;
        }
        i = i + 1;
    }
    true
}

// ---------------------------------------------------------------------
// The comparison tree.
// ---------------------------------------------------------------------

/// One field of a comparison, with the fields under it.
#[derive(Debug)]
pub struct DiffField {
    pub path: String,
    pub name: String,
    pub offset: usize,
    pub length: usize,
    pub value1: Vec<TextPart>,
    pub value2: Vec<TextPart>,
    pub is_different: bool,
    pub truncated: bool,
    pub undecidable: bool,
    pub skipped: bool,
    pub children: Vec<DiffField>,
}

pub struct DiffDesc {
    pub path: Seq<char>,
    pub name: Seq<char>,
    pub offset: usize,
    pub length: usize,
    pub value1: Seq<Piece>,
    pub value2: Seq<Piece>,
    pub is_different: bool,
    pub truncated: bool,
    pub undecidable: bool,
    pub skipped: bool,
    pub children: Seq<DiffDesc>,
}

pub open spec fn diff_desc(d: DiffField) -> DiffDesc
    decreases d,
{
    DiffDesc {
        path: d.path@,
        name: d.name@,
        offset: d.offset,
        length: d.length,
        value1: pieces(d.value1@),
        value2: pieces(d.value2@),
        is_different: d.is_different,
        truncated: d.truncated,
        undecidable: d.undecidable,
        skipped: d.skipped,
        children: Seq::new(d.children@.len(), |i: int| if 0 <= i < d.children@.len() {
            diff_desc(d.children@[i])
        } else {
            no_diff()
        }),
    }
}

pub open spec fn no_diff() -> DiffDesc {
    DiffDesc {
        path: Seq::empty(), name: Seq::empty(), offset: 0, length: 0, value1: Seq::empty(), value2: Seq::empty(),
        is_different: false, truncated: false, undecidable: false, skipped: false, children: Seq::empty(),
    }
}

pub open spec fn diffs_view(v: Seq<DiffField>) -> Seq<DiffDesc> {
    v.map_values(|d: DiffField| diff_desc(d))
}

pub proof fn lemma_diff_children(d: DiffField)
    ensures
        diff_desc(d).children == diffs_view(d.children@),
{
    assert(diff_desc(d).children =~= diffs_view(d.children@));
}

/// How a field's value shows in a comparison.
pub open spec fn cmp_value(f: FieldOut) -> Seq<Piece> {
    if f.truncated {
        text("<truncated>"@)
    } else if f.undecidable {
        text("<undecidable>"@)
    } else if f.skipped {
        text("<skipped>"@)
    } else {
        display_pieces(f.value, f.display_format)
    }
}

/// The entry of a field that only one side has: its value shown, `<missing>`
/// for the other side, and its direct fields likewise, one level deep.
pub open spec fn missing_leaf(c: FieldOut, first: bool) -> DiffDesc {
    let shown = display_pieces(c.value, c.display_format);
    DiffDesc {
        path: c.path,
        name: c.name,
        offset: c.offset,
        length: c.length,
        value1: if first { shown } else { text("<missing>"@) },
        value2: if first { text("<missing>"@) } else { shown },
        is_different: true,
        truncated: c.truncated,
        undecidable: c.undecidable,
        skipped: c.skipped,
        children: Seq::empty(),
    }
}

pub open spec fn missing_entry(f: FieldOut, first: bool) -> DiffDesc {
    DiffDesc {
        children: f.children.map_values(|c: FieldOut| missing_leaf(c, first)),
        ..missing_leaf(f, first)
    }
}

/// The index of the last field named `n`.
pub open spec fn last_named(cs: Seq<FieldOut>, n: Seq<char>) -> Option<int>
    decreases cs.len(),
{
    if cs.len() == 0 {
        None
    } else if cs.last().name == n {
        Some(cs.len() - 1)
    } else {
        last_named(cs.drop_last(), n)
    }
}

/// The distinct names of `cs` (the first `n`) added to `acc`, in order of
/// first appearance.
pub open spec fn add_names(acc: Seq<Seq<char>>, cs: Seq<FieldOut>, n: nat) -> Seq<Seq<char>>
    decreases n,
{
    if n == 0 || n > cs.len() {
        acc
    } else {
        let a = add_names(acc, cs, (n - 1) as nat);
        if a.contains(cs[n - 1].name) { a } else { a.push(cs[n - 1].name) }
    }
}

/// The names of both lists, the first list's first.
pub open spec fn all_names(c1: Seq<FieldOut>, c2: Seq<FieldOut>) -> Seq<Seq<char>> {
    add_names(add_names(Seq::empty(), c1, c1.len()), c2, c2.len())
}

/// `x` placed after every entry whose offset is not greater than its own.
pub open spec fn insert_by_offset(acc: Seq<DiffDesc>, x: DiffDesc) -> Seq<DiffDesc>
    decreases acc.len(),
{
    if acc.len() == 0 || acc.last().offset <= x.offset {
        acc.push(x)
    } else {
        insert_by_offset(acc.drop_last(), x).push(acc.last())
    }
}

/// The first `n` entries sorted by offset, keeping the order of equal offsets.
pub open spec fn sort_by_offset(es: Seq<DiffDesc>, n: nat) -> Seq<DiffDesc>
    decreases n,
{
    if n == 0 || n > es.len() {
        Seq::empty()
    } else {
        insert_by_offset(sort_by_offset(es, (n - 1) as nat), es[n - 1])
    }
}

/// The comparison of two fields: each side's value shown, whether they
/// differ (in what shows or in being truncated, undecidable or skipped), and
/// the comparison of the fields under them.
pub open spec fn compare_spec(f1: FieldOut, f2: FieldOut) -> DiffDesc
    decreases f1, 3int,
{
    let v1 = cmp_value(f1);
    let v2 = cmp_value(f2);
    DiffDesc {
        path: f1.path,
        name: f1.name,
        offset: f1.offset,
        length: f1.length,
        value1: v1,
        value2: v2,
        is_different: !same_pieces(v1, v2) || f1.truncated != f2.truncated || f1.undecidable != f2.undecidable
            || f1.skipped != f2.skipped,
        truncated: f1.truncated || f2.truncated,
        undecidable: f1.undecidable || f2.undecidable,
        skipped: f1.skipped || f2.skipped,
        children: children_spec(f1, f2),
    }
}

/// The entry for one name: the last field of that name on each side.
pub open spec fn name_entry(f1: FieldOut, f2: FieldOut, n: Seq<char>) -> DiffDesc
    decreases f1, 0int,
{
    match (last_named(f1.children, n), last_named(f2.children, n)) {
        (Some(i), Some(j)) => if 0 <= i < f1.children.len() && 0 <= j < f2.children.len() {
            compare_spec(f1.children[i], f2.children[j])
        } else {
            no_diff()
        },
        (Some(i), None) => missing_entry(f1.children[i], true),
        (None, Some(j)) => missing_entry(f2.children[j], false),
        (None, None) => no_diff(),
    }
}

/// The comparison of the fields under two fields, matched by name and
/// ordered by offset.
pub open spec fn children_spec(f1: FieldOut, f2: FieldOut) -> Seq<DiffDesc>
    decreases f1, 2int,
{
    sort_by_offset(entries_spec(f1, f2), entries_spec(f1, f2).len())
}

/// One entry per name of either side, in order of first appearance.
pub open spec fn entries_spec(f1: FieldOut, f2: FieldOut) -> Seq<DiffDesc>
    decreases f1, 1int,
{
    let names = all_names(f1.children, f2.children);
    Seq::new(names.len(), |k: int| if 0 <= k < names.len() { name_entry(f1, f2, names[k]) } else { no_diff() })
}

// ---------------------------------------------------------------------
// Computing the comparison.
// ---------------------------------------------------------------------

fn text_part(s: &str) -> (r: Vec<TextPart>)
    ensures
        pieces(r@) == text(s@),
{
    let r = vec![TextPart::Text(s.to_string())];
    assert(pieces(r@) =~= text(s@));
    r
}

fn cmp_value_exec(f: &ParsedField) -> (r: Vec<TextPart>)
    ensures
        pieces(r@) == cmp_value(field_out(*f)),
{
    proof { lemma_out_parts(*f); }
    if f.truncated {
        text_part("<truncated>")
    } else if f.undecidable {
        text_part("<undecidable>")
    } else if f.skipped {
        text_part("<skipped>")
    } else {
        f.value.display(f.display_format)
    }
}

fn missing_leaf_exec(c: &ParsedField, first: bool) -> (r: DiffField)
    ensures
        diff_desc(r) == missing_leaf(field_out(*c), first),
{
    proof { lemma_out_parts(*c); }
    let shown = c.value.display(c.display_format);
    let (value1, value2) = if first { (shown, text_part("<missing>")) } else { (text_part("<missing>"), shown) };
    let r = DiffField {
        path: c.path.clone(),
        name: c.name.clone(),
        offset: c.offset,
        length: c.length,
        value1,
        value2,
        is_different: true,
        truncated: c.truncated,
        undecidable: c.undecidable,
        skipped: c.skipped,
        children: Vec::new(),
    };
    proof { lemma_diff_children(r); }
    assert(diff_desc(r).children =~= Seq::<DiffDesc>::empty());
    r
}

fn missing_entry_exec(f: &ParsedField, first: bool) -> (r: DiffField)
    ensures
        diff_desc(r) == missing_entry(field_out(*f), first),
{
    proof {
        lemma_out_parts(*f);
        lemma_children_out(*f);
    }
    let ghost cs = fields_out(f.children@);
    let mut children: Vec<DiffField> = Vec::new();
    let mut i: usize = 0;
    while i < f.children.len()
        invariant
            i <= f.children@.len(),
            cs == fields_out(f.children@),
            diffs_view(children@) == cs.take(i as int).map_values(|c: FieldOut| missing_leaf(c, first)),
        decreases f.children@.len() - i,
    {
        let d = missing_leaf_exec(&f.children[i], first);
        let ghost before = children@;
        let ghost dd = diff_desc(d);
        children.push(d);
        assert(cs[i as int] == field_out(f.children@[i as int]));
        assert(diffs_view(children@) =~= diffs_view(before).push(dd));
        assert(cs.take(i + 1) =~= cs.take(i as int).push(cs[i as int]));
        assert(diffs_view(children@) =~= cs.take(i + 1).map_values(|c: FieldOut| missing_leaf(c, first)));
        i = i + 1;
    }
    assert(cs.take(cs.len() as int) =~= cs);
    let head = missing_leaf_exec(f, first);
    let r = DiffField { children, ..head };
    proof {
        lemma_diff_children(r);
        lemma_diff_children(head);
    }
    assert(diff_desc(r) =~= missing_entry(field_out(*f), first));
    r
}

fn last_named_exec(cs: &Vec<ParsedField>, n: &str) -> (r: Option<usize>)
    ensures
        match last_named(fields_out(cs@), n@) {
            Some(i) => (r matches Some(q) && q as int == i && 0 <= i < cs@.len()),
            None => r is None,
        },
{
    let ghost fs = fields_out(cs@);
    let mut k = cs.len();
    assert(fs.take(k as int) =~= fs);
    while k > 0
        invariant
            k <= cs@.len(),
            fs == fields_out(cs@),
            last_named(fs, n@) == last_named(fs.take(k as int), n@),
        decreases k,
    {
        assert(fs.take(k as int).last() == fs[k - 1]);
        assert(fs[k - 1] == crate::parser::field_out(cs@[k - 1]));
        proof { lemma_out_parts(cs@[k - 1]); }
        if str_eq(cs[k - 1].name.as_str(), n) {
            return Some(k - 1);
        }
        assert(fs.take(k as int).drop_last() =~= fs.take(k - 1));
        k = k - 1;
    }
    None
}

pub open spec fn names_view(v: Seq<String>) -> Seq<Seq<char>> {
    v.map_values(|s: String| s@)
}

fn add_names_exec(acc: &mut Vec<String>, cs: &Vec<ParsedField>)
    ensures
        names_view(final(acc)@) == add_names(names_view(old(acc)@), fields_out(cs@), cs@.len()),
{
    let ghost fs = fields_out(cs@);
    let ghost a0 = names_view(acc@);
    let mut i: usize = 0;
    while i < cs.len()
        invariant
            i <= cs@.len(),
            fs == fields_out(cs@),
            names_view(acc@) == add_names(a0, fs, i as nat),
        decreases cs@.len() - i,
    {
        proof { lemma_out_parts(cs@[i as int]); }
        assert(fs[i as int].name == cs@[i as int].name@);
        let mut found = false;
        let mut j: usize = 0;
        while j < acc.len() && !found
            invariant
                i < cs@.len(),
                j <= acc@.len(),
                found ==> names_view(acc@).contains(cs@[i as int].name@),
                !found ==> forall|q: int| 0 <= q < j ==> names_view(acc@)[q] != cs@[i as int].name@,
            decreases acc@.len() - j + (if found { 0int } else { 1int }),
        {
            if str_eq(acc[j].as_str(), cs[i].name.as_str()) {
                assert(names_view(acc@)[j as int] == cs@[i as int].name@);
                found = true;
            } else {
                j = j + 1;
            }
        }
        if !found {
            let ghost before = names_view(acc@);
            acc.push(cs[i].name.clone());
            assert(names_view(acc@) =~= before.push(cs@[i as int].name@));
        }
        i = i + 1;
    }
}

proof fn lemma_insert_step(acc: Seq<DiffDesc>, x: DiffDesc, p: int)
    requires
        0 < p <= acc.len(),
        acc[p - 1].offset > x.offset,
    ensures
        insert_by_offset(acc.take(p), x) == insert_by_offset(acc.take(p - 1), x).push(acc[p - 1]),
{
    assert(acc.take(p).drop_last() =~= acc.take(p - 1));
}

/// Inserts `x` after the entries whose offset is not greater than its own.
fn insert_sorted(acc: &mut Vec<DiffField>, x: DiffField)
    ensures
        diffs_view(final(acc)@) == insert_by_offset(diffs_view(old(acc)@), diff_desc(x)),
{
    let ghost av = diffs_view(acc@);
    let ghost xv = diff_desc(x);
    let mut p = acc.len();
    assert(av.take(p as int) =~= av);
    assert(av.skip(p as int) =~= Seq::<DiffDesc>::empty());
    while p > 0 && acc[p - 1].offset > x.offset
        invariant
            p <= acc@.len(),
            av == diffs_view(acc@),
            xv == diff_desc(x),
            insert_by_offset(av, xv) == insert_by_offset(av.take(p as int), xv) + av.skip(p as int),
        decreases p,
    {
        assert(av[p - 1] == diff_desc(acc@[p - 1]));
        proof { lemma_insert_step(av, xv, p as int); }
        assert(insert_by_offset(av.take(p - 1), xv).push(av[p - 1]) + av.skip(p as int)
            =~= insert_by_offset(av.take(p - 1), xv) + av.skip(p - 1));
        p = p - 1;
    }
    if p > 0 {
        assert(av[p - 1] == diff_desc(acc@[p - 1]));
        assert(av.take(p as int).last() == av[p - 1]);
    }
    assert(insert_by_offset(av.take(p as int), xv) == av.take(p as int).push(xv));
    acc.insert(p, x);
    assert(diffs_view(acc@) =~= av.take(p as int).push(xv) + av.skip(p as int));
}

/// The comparison of two fields and of the fields under them.
pub fn compare_fields(field1: &ParsedField, field2: &ParsedField) -> (r: DiffField)
    ensures
        diff_desc(r) == compare_spec(field_out(*field1), field_out(*field2)),
    decreases field1, 3int,
{
    proof {
        lemma_out_parts(*field1);
        lemma_out_parts(*field2);
    }
    let value1 = cmp_value_exec(field1);
    let value2 = cmp_value_exec(field2);
    let is_different = !same_parts(&value1, &value2)
        || field1.truncated != field2.truncated
        || field1.undecidable != field2.undecidable
        || field1.skipped != field2.skipped;
    let children = compare_children(field1, field2);
    let r = DiffField {
        path: field1.path.clone(),
        name: field1.name.clone(),
        offset: field1.offset,
        length: field1.length,
        value1,
        value2,
        is_different,
        truncated: field1.truncated || field2.truncated,
        undecidable: field1.undecidable || field2.undecidable,
        skipped: field1.skipped || field2.skipped,
        children,
    };
    proof { lemma_diff_children(r); }
    assert(diff_desc(r) =~= compare_spec(field_out(*field1), field_out(*field2)));
    r
}

fn compare_children(field1: &ParsedField, field2: &ParsedField) -> (r: Vec<DiffField>)
    ensures
        diffs_view(r@) == children_spec(field_out(*field1), field_out(*field2)),
    decreases field1, 2int,
{
    proof {
        lemma_children_out(*field1);
        lemma_children_out(*field2);
    }
    let ghost f1 = field_out(*field1);
    let ghost f2 = field_out(*field2);
    let mut names: Vec<String> = Vec::new();
    assert(names_view(names@) =~= Seq::<Seq<char>>::empty());
    add_names_exec(&mut names, &field1.children);
    add_names_exec(&mut names, &field2.children);
    let ghost nv = names_view(names@);
    assert(nv == all_names(f1.children, f2.children));
    let ghost es = entries_spec(f1, f2);
    let mut sorted: Vec<DiffField> = Vec::new();
    assert(diffs_view(sorted@) =~= sort_by_offset(es, 0));
    let mut k: usize = 0;
    while k < names.len()
        invariant
            k <= names@.len(),
            f1 == field_out(*field1),
            f2 == field_out(*field2),
            f1.children == fields_out(field1.children@),
            f2.children == fields_out(field2.children@),
            nv == names_view(names@),
            nv == all_names(f1.children, f2.children),
            es == entries_spec(f1, f2),
            es.len() == nv.len(),
            diffs_view(sorted@) == sort_by_offset(es, k as nat),
        decreases names@.len() - k,
    {
        let name = names[k].as_str();
        assert(nv[k as int] == name@);
        assert(es[k as int] == name_entry(f1, f2, nv[k as int]));
        let i1 = last_named_exec(&field1.children, name);
        let i2 = last_named_exec(&field2.children, name);
        let entry = match (i1, i2) {
            (Some(a), Some(b)) => {
                proof { lemma_child_smaller(*field1, a as int); }
                assert(f1.children[a as int] == field_out(field1.children@[a as int]));
                assert(f2.children[b as int] == field_out(field2.children@[b as int]));
                compare_fields(&field1.children[a], &field2.children[b])
            },
            (Some(a), None) => {
                assert(f1.children[a as int] == field_out(field1.children@[a as int]));
                missing_entry_exec(&field1.children[a], true)
            },
            (None, Some(b)) => {
                assert(f2.children[b as int] == field_out(field2.children@[b as int]));
                missing_entry_exec(&field2.children[b], false)
            },
            (None, None) => {
                proof { lemma_name_present(f1.children, f2.children, nv[k as int]); }
                assert(false);
                missing_entry_exec(field1, true)
            },
        };
        assert(diff_desc(entry) == es[k as int]);
        insert_sorted(&mut sorted, entry);
        k = k + 1;
    }
    sorted
}

proof fn lemma_add_names_from(acc: Seq<Seq<char>>, cs: Seq<FieldOut>, n: nat, x: Seq<char>)
    requires
        add_names(acc, cs, n).contains(x),
        !acc.contains(x),
    ensures
        exists|i: int| 0 <= i < n && i < cs.len() && (#[trigger] cs[i]).name == x,
    decreases n,
{
    if n == 0 || n > cs.len() {
    } else {
        let a = add_names(acc, cs, (n - 1) as nat);
        if a.contains(x) {
            lemma_add_names_from(acc, cs, (n - 1) as nat, x);
        } else {
            assert(cs[n - 1].name == x);
        }
    }
}

proof fn lemma_last_named_some(cs: Seq<FieldOut>, x: Seq<char>, i: int)
    requires
        0 <= i < cs.len(),
        cs[i].name == x,
    ensures
        last_named(cs, x) is Some,
    decreases cs.len(),
{
    if cs.last().name != x {
        lemma_last_named_some(cs.drop_last(), x, i);
    }
}

proof fn lemma_name_present(c1: Seq<FieldOut>, c2: Seq<FieldOut>, x: Seq<char>)
    requires
        all_names(c1, c2).contains(x),
    ensures
        last_named(c1, x) is Some || last_named(c2, x) is Some,
{
    let a = add_names(Seq::empty(), c1, c1.len());
    if a.contains(x) {
        lemma_add_names_from(Seq::empty(), c1, c1.len(), x);
        let i = choose|i: int| 0 <= i < c1.len() && (#[trigger] c1[i]).name == x;
        lemma_last_named_some(c1, x, i);
    } else {
        lemma_add_names_from(a, c2, c2.len(), x);
        let i = choose|i: int| 0 <= i < c2.len() && (#[trigger] c2[i]).name == x;
        lemma_last_named_some(c2, x, i);
    }
}

// ---------------------------------------------------------------------
// Counts, and the whole comparison.
// ---------------------------------------------------------------------

/// The number of fields without fields under them, over a forest.
pub open spec fn leaf_count(ds: Seq<DiffDesc>) -> nat
    decreases ds,
{
    if ds.len() == 0 {
        0
    } else {
        let last = ds[ds.len() - 1];
        leaf_count(ds.subrange(0, ds.len() - 1)) + (if last.children.len() == 0 { 1nat } else { 0nat }) + leaf_count(last.children)
    }
}

/// The number of those that differ.
pub open spec fn different_count(ds: Seq<DiffDesc>) -> nat
    decreases ds,
{
    if ds.len() == 0 {
        0
    } else {
        let last = ds[ds.len() - 1];
        different_count(ds.subrange(0, ds.len() - 1)) + (if last.is_different && last.children.len() == 0 { 1nat } else { 0nat })
            + different_count(last.children)
    }
}

proof fn lemma_counts_prefix(ds: Seq<DiffDesc>, k: int)
    requires
        0 <= k <= ds.len(),
    ensures
        leaf_count(ds.take(k)) <= leaf_count(ds),
        different_count(ds.take(k)) <= different_count(ds),
    decreases ds.len(),
{
    if k < ds.len() {
        lemma_counts_prefix(ds.subrange(0, ds.len() - 1), k);
        assert(ds.subrange(0, ds.len() - 1).take(k) =~= ds.take(k));
    } else {
        assert(ds.take(k) =~= ds);
    }
}

/// Counts the fields without fields under them, over a forest.
pub fn count_fields(fields: &[DiffField]) -> (r: usize)
    requires
        leaf_count(diffs_view(fields@)) <= usize::MAX,
    ensures
        r == leaf_count(diffs_view(fields@)),
    decreases fields@,
{
    let ghost ds = diffs_view(fields@);
    let mut count: usize = 0;
    let mut i: usize = 0;
    assert(ds.take(0) =~= Seq::<DiffDesc>::empty());
    while i < fields.len()
        invariant
            i <= fields@.len(),
            ds == diffs_view(fields@),
            leaf_count(ds) <= usize::MAX,
            count == leaf_count(ds.take(i as int)),
        decreases fields@.len() - i,
    {
        let field = &fields[i];
        proof {
            lemma_diff_children(*field);
            assert(ds.take(i + 1).subrange(0, i as int) =~= ds.take(i as int));
            assert(ds[i as int] == diff_desc(*field));
            lemma_counts_prefix(ds, i + 1);
            assert(decreases_to!(fields@ => fields@[i as int]));
            lemma_diff_child_smaller_all(*field);
        }
        let own: usize = if field.children.len() == 0 { 1 } else { 0 };
        let sub = count_fields(field.children.as_slice());
        count = count + own + sub;
        i = i + 1;
    }
    assert(ds.take(ds.len() as int) =~= ds);
    count
}

proof fn lemma_diff_child_smaller_all(d: DiffField)
    ensures
        decreases_to!(d => d.children@),
{
    assert(decreases_to!(d => d.children));
    assert(decreases_to!(d.children => d.children@));
}

/// Counts the fields without fields under them that differ, over a forest.
pub fn count_different_fields(fields: &[DiffField]) -> (r: usize)
    requires
        different_count(diffs_view(fields@)) <= usize::MAX,
    ensures
        r == different_count(diffs_view(fields@)),
    decreases fields@,
{
    let ghost ds = diffs_view(fields@);
    let mut count: usize = 0;
    let mut i: usize = 0;
    assert(ds.take(0) =~= Seq::<DiffDesc>::empty());
    while i < fields.len()
        invariant
            i <= fields@.len(),
            ds == diffs_view(fields@),
            different_count(ds) <= usize::MAX,
            count == different_count(ds.take(i as int)),
        decreases fields@.len() - i,
    {
        let field = &fields[i];
        proof {
            lemma_diff_children(*field);
            assert(ds.take(i + 1).subrange(0, i as int) =~= ds.take(i as int));
            assert(ds[i as int] == diff_desc(*field));
            lemma_counts_prefix(ds, i + 1);
            assert(decreases_to!(fields@ => fields@[i as int]));
            lemma_diff_child_smaller_all(*field);
        }
        let own: usize = if field.is_different && field.children.len() == 0 { 1 } else { 0 };
        let sub = count_different_fields(field.children.as_slice());
        count = count + own + sub;
        i = i + 1;
    }
    assert(ds.take(ds.len() as int) =~= ds);
    count
}

/// A comparison of two parsed trees: the comparisons under the roots, and how
/// many fields there are and how many differ (the rate is the caller's to
/// compute).
#[derive(Debug)]
pub struct DiffResult {
    pub fields: Vec<DiffField>,
    pub total_fields: usize,
    pub different_fields: usize,
}

/// Compares two parsed trees.
pub fn diff(root1: &ParsedField, root2: &ParsedField) -> (r: DiffResult)
    requires
        leaf_count(seq![compare_spec(field_out(*root1), field_out(*root2))]) <= usize::MAX,
    ensures
        diffs_view(r.fields@) == compare_spec(field_out(*root1), field_out(*root2)).children,
        r.total_fields == leaf_count(seq![compare_spec(field_out(*root1), field_out(*root2))]),
        r.different_fields == different_count(seq![compare_spec(field_out(*root1), field_out(*root2))]),
{
    let root_diff = compare_fields(root1, root2);
    let ghost rd = diff_desc(root_diff);
    let one = vec![root_diff];
    assert(diffs_view(one@) =~= seq![rd]);
    proof { lemma_different_le_leaf(diffs_view(one@)); }
    let total_fields = count_fields(one.as_slice());
    let different_fields = count_different_fields(one.as_slice());
    let mut one = one;
    let root_diff = one.pop().unwrap();
    proof { lemma_diff_children(root_diff); }
    DiffResult { fields: root_diff.children, total_fields, different_fields }
}

pub proof fn lemma_different_le_leaf(ds: Seq<DiffDesc>)
    ensures
        different_count(ds) <= leaf_count(ds),
    decreases ds,
{
    if ds.len() > 0 {
        let last = ds[ds.len() - 1];
        lemma_different_le_leaf(ds.subrange(0, ds.len() - 1));
        lemma_different_le_leaf(last.children);
    }
}

// ---------------------------------------------------------------------
// Markdown rows of the differences.
// ---------------------------------------------------------------------

/// The words for a differing field's status: truncated, undecidable,
/// skipped, otherwise different.
pub struct StatusWords {
    pub truncated: Seq<char>,
    pub undecidable: Seq<char>,
    pub skipped: Seq<char>,
    pub different: Seq<char>,
}

pub open spec fn english_words() -> StatusWords {
    StatusWords { truncated: "Truncated"@, undecidable: "Undecidable"@, skipped: "Skipped"@, different: "Different"@ }
}

pub open spec fn chinese_words() -> StatusWords {
    StatusWords { truncated: "截断"@, undecidable: "不可判定"@, skipped: "跳过"@, different: "不同"@ }
}

pub open spec fn diff_status(d: DiffDesc, w: StatusWords) -> Seq<char> {
    if d.truncated { w.truncated } else if d.undecidable { w.undecidable } else if d.skipped { w.skipped } else { w.different }
}

/// A row for a field that differs.
pub open spec fn diff_row(d: DiffDesc, w: StatusWords) -> Seq<Piece> {
    if d.is_different {
        text("| "@ + d.path + " | 0x"@ + hex_pad(d.offset as nat, 8) + " | "@ + dec_str(d.length as nat) + " | `"@)
            + escape_pipes(d.value1) + text("` | `"@) + escape_pipes(d.value2)
            + text("` | "@ + diff_status(d, w) + " |\n"@)
    } else {
        Seq::empty()
    }
}

/// The rows of every differing field of a forest, each before those under it.
pub open spec fn diff_rows(ds: Seq<DiffDesc>, w: StatusWords) -> Seq<Piece>
    decreases ds,
{
    if ds.len() == 0 {
        Seq::empty()
    } else {
        let last = ds[ds.len() - 1];
        diff_rows(ds.subrange(0, ds.len() - 1), w) + diff_row(last, w) + diff_rows(last.children, w)
    }
}

fn rows_with(fields: &[DiffField], md: &mut Vec<TextPart>, truncated: &str, undecidable: &str, skipped: &str,
    different: &str)
    ensures
        pieces(final(md)@) == pieces(old(md)@) + diff_rows(diffs_view(fields@),
            StatusWords { truncated: truncated@, undecidable: undecidable@, skipped: skipped@, different: different@ }),
    decreases fields@,
{
    let ghost w = StatusWords { truncated: truncated@, undecidable: undecidable@, skipped: skipped@, different: different@ };
    let ghost ds = diffs_view(fields@);
    let ghost o = pieces(md@);
    let mut i: usize = 0;
    assert(ds.take(0) =~= Seq::<DiffDesc>::empty());
    while i < fields.len()
        invariant
            i <= fields@.len(),
            ds == diffs_view(fields@),
            w == (StatusWords { truncated: truncated@, undecidable: undecidable@, skipped: skipped@, different: different@ }),
            pieces(md@) == o + diff_rows(ds.take(i as int), w),
        decreases fields@.len() - i,
    {
        let field = &fields[i];
        proof {
            lemma_diff_children(*field);
            assert(ds.take(i + 1).subrange(0, i as int) =~= ds.take(i as int));
            assert(ds[i as int] == diff_desc(*field));
            assert(decreases_to!(fields@ => fields@[i as int]));
            lemma_diff_child_smaller_all(*field);
        }
        let ghost before = pieces(md@);
        if field.is_different {
            let mut lead = String::new();
            push_str(&mut lead, "| ");
            push_str(&mut lead, field.path.as_str());
            push_str(&mut lead, " | 0x");
            push_hex8(&mut lead, field.offset as u64);
            push_str(&mut lead, " | ");
            push_dec(&mut lead, field.length as u64);
            push_str(&mut lead, " | `");
            crate::export::push_text(md, lead);
            let v1 = copy_parts(&field.value1);
            crate::export::push_parts(md, crate::export::escape_pipes_exec(v1));
            crate::export::push_text(md, "` | `".to_string());
            let v2 = copy_parts(&field.value2);
            crate::export::push_parts(md, crate::export::escape_pipes_exec(v2));
            let mut trail = String::new();
            push_str(&mut trail, "` | ");
            if field.truncated {
                push_str(&mut trail, truncated);
            } else if field.undecidable {
                push_str(&mut trail, undecidable);
            } else if field.skipped {
                push_str(&mut trail, skipped);
            } else {
                push_str(&mut trail, different);
            }
            push_str(&mut trail, " |\n");
            crate::export::push_text(md, trail);
        }
        assert(pieces(md@) =~= before + diff_row(ds[i as int], w));
        rows_with(field.children.as_slice(), md, truncated, undecidable, skipped, different);
        assert(pieces(md@) =~= o + diff_rows(ds.take(i + 1), w));
        i = i + 1;
    }
    assert(ds.take(ds.len() as int) =~= ds);
}

fn copy_parts(v: &Vec<TextPart>) -> (r: Vec<TextPart>)
    ensures
        pieces(r@) == pieces(v@),
{
    let mut out: Vec<TextPart> = Vec::new();
    let mut i: usize = 0;
    while i < v.len()
        invariant
            i <= v@.len(),
            pieces(out@) == pieces(v@).take(i as int),
        decreases v@.len() - i,
    {
        let p = match &v[i] {
            TextPart::Text(s) => TextPart::Text(s.clone()),
            TextPart::Single(b) => TextPart::Single(*b),
            TextPart::Double(b) => TextPart::Double(*b),
        };
        let ghost before = out@;
        assert(piece(p) == pieces(v@)[i as int]);
        out.push(p);
        assert(pieces(out@) =~= pieces(before).push(piece(p)));
        assert(pieces(v@).take(i + 1) =~= pieces(v@).take(i as int).push(pieces(v@)[i as int]));
        assert(pieces(out@) =~= pieces(v@).take(i + 1));
        i = i + 1;
    }
    assert(pieces(v@).take(v@.len() as int) =~= pieces(v@));
    out
}

/// Appends a Markdown row for every field that differs, in document order.
pub fn export_markdown_rows(fields: &[DiffField], md: &mut Vec<TextPart>)
    ensures
        pieces(final(md)@) == pieces(old(md)@) + diff_rows(diffs_view(fields@), english_words()),
{
    rows_with(fields, md, "Truncated", "Undecidable", "Skipped", "Different");
}

/// The head of the English report: the files, and the counts with the
/// difference rate as `rate` gives it (a percentage with two decimals).
pub open spec fn report_head(file1: Seq<char>, file2: Seq<char>, total: usize, different: usize, rate: Seq<char>) -> Seq<char> {
    "# Binary Diff Report\n\n**File 1:** "@ + file1 + "\n\n**File 2:** "@ + file2 + "\n\n## Summary\n\n"@
        + "| Metric | Value |\n|--------|-------|\n| Total Fields | "@ + dec_str(total as nat)
        + " |\n| Different Fields | "@ + dec_str(different as nat) + " |\n| Diff Rate | "@ + rate + "% |\n\n"@
        + "## Detailed Differences\n\n| Field Path | Offset | Length | File 1 Value | File 2 Value | Status |\n"@
        + "|------------|--------|--------|--------------|--------------|--------|\n"@
}

/// The comparison as an English Markdown report; `rate` is the difference
/// rate as a percentage with two decimals, which the caller prints.
pub fn export_markdown(diff: &DiffResult, file1: &str, file2: &str, rate: &str) -> (r: Vec<TextPart>)
    ensures
        pieces(r@) == text(report_head(file1@, file2@, diff.total_fields, diff.different_fields, rate@))
            + diff_rows(diffs_view(diff.fields@), english_words()),
{
    let mut head = String::new();
    push_str(&mut head, "# Binary Diff Report\n\n**File 1:** ");
    push_str(&mut head, file1);
    push_str(&mut head, "\n\n**File 2:** ");
    push_str(&mut head, file2);
    push_str(&mut head, "\n\n## Summary\n\n");
    push_str(&mut head, "| Metric | Value |\n|--------|-------|\n| Total Fields | ");
    push_dec(&mut head, diff.total_fields as u64);
    push_str(&mut head, " |\n| Different Fields | ");
    push_dec(&mut head, diff.different_fields as u64);
    push_str(&mut head, " |\n| Diff Rate | ");
    push_str(&mut head, rate);
    push_str(&mut head, "% |\n\n");
    push_str(&mut head, "## Detailed Differences\n\n| Field Path | Offset | Length | File 1 Value | File 2 Value | Status |\n");
    push_str(&mut head, "|------------|--------|--------|--------------|--------------|--------|\n");
    let mut md: Vec<TextPart> = Vec::new();
    let ghost h = head@;
    md.push(TextPart::Text(head));
    assert(pieces(md@) =~= text(h));
    export_markdown_rows(diff.fields.as_slice(), &mut md);
    md
}

/// The same rows with the statuses in Chinese, as the command line prints them.
pub fn diff_detail_rows(fields: &[DiffField], md: &mut Vec<TextPart>)
    ensures
        pieces(final(md)@) == pieces(old(md)@) + diff_rows(diffs_view(fields@), chinese_words()),
{
    rows_with(fields, md, "截断", "不可判定", "跳过", "不同");
}

} // verus!

verus! {

// ---------------------------------------------------------------------
// Comparing a tree with itself.
// ---------------------------------------------------------------------

/// An entry and every entry under it are marked the same on both sides.
pub open spec fn all_same(d: DiffDesc) -> bool
    decreases d,
{
    !d.is_different && forall|i: int| 0 <= i < d.children.len() ==> all_same(#[trigger] d.children[i])
}

proof fn lemma_insert_members(acc: Seq<DiffDesc>, x: DiffDesc)
    ensures
        forall|j: int| 0 <= j < insert_by_offset(acc, x).len() ==>
            #[trigger] insert_by_offset(acc, x)[j] == x || acc.contains(insert_by_offset(acc, x)[j]),
        insert_by_offset(acc, x).len() == acc.len() + 1,
    decreases acc.len(),
{
    if acc.len() == 0 || acc.last().offset <= x.offset {
        assert forall|j: int| 0 <= j < insert_by_offset(acc, x).len() implies
            #[trigger] insert_by_offset(acc, x)[j] == x || acc.contains(insert_by_offset(acc, x)[j]) by {
            if j < acc.len() {
                assert(acc[j] == insert_by_offset(acc, x)[j]);
            }
        }
    } else {
        let d = acc.drop_last();
        lemma_insert_members(d, x);
        let r = insert_by_offset(acc, x);
        assert forall|j: int| 0 <= j < r.len() implies #[trigger] r[j] == x || acc.contains(r[j]) by {
            if j < r.len() - 1 {
                let y = insert_by_offset(d, x)[j];
                assert(r[j] == y);
                if y != x {
                    let q = choose|q: int| 0 <= q < d.len() && d[q] == y;
                    assert(acc[q] == y);
                }
            } else {
                assert(r[j] == acc[acc.len() - 1]);
            }
        }
    }
}

proof fn lemma_sort_members(es: Seq<DiffDesc>, n: nat)
    requires
        n <= es.len(),
    ensures
        forall|j: int| 0 <= j < sort_by_offset(es, n).len() ==> es.contains(#[trigger] sort_by_offset(es, n)[j]),
    decreases n,
{
    if n > 0 {
        let prev = sort_by_offset(es, (n - 1) as nat);
        lemma_sort_members(es, (n - 1) as nat);
        lemma_insert_members(prev, es[n - 1]);
        let r = sort_by_offset(es, n);
        assert forall|j: int| 0 <= j < r.len() implies es.contains(#[trigger] r[j]) by {
            if r[j] != es[n - 1] {
                let q = choose|q: int| 0 <= q < prev.len() && prev[q] == r[j];
                assert(es.contains(prev[q]));
            }
        }
    }
}

/// IEEE 754: single-precision bits encode a NaN where the exponent bits are
/// all ones and the fraction is not zero.
pub open spec fn f32_bits_nan(x: u32) -> bool {
    (x & 0x7F80_0000u32) == 0x7F80_0000u32 && (x & 0x007F_FFFFu32) != 0
}

/// IEEE 754: double-precision bits encode a NaN where the exponent bits are
/// all ones and the fraction is not zero.
pub open spec fn f64_bits_nan(x: u64) -> bool {
    (x & 0x7FF0_0000_0000_0000u64) == 0x7FF0_0000_0000_0000u64 && (x & 0x000F_FFFF_FFFF_FFFFu64) != 0
}

proof fn lemma_nan_bits(x: u32, y: u64)
    ensures
        is_nan32(x) == f32_bits_nan(x),
        is_nan64(y) == f64_bits_nan(y),
{
    assert(((x / 0x800000) % 0x100 == 0xFF && x % 0x800000 != 0)
        == ((x & 0x7F80_0000u32) == 0x7F80_0000u32 && (x & 0x007F_FFFFu32) != 0)) by (bit_vector);
    assert(((y / 0x10000000000000) % 0x800 == 0x7FF && y % 0x10000000000000 != 0)
        == ((y & 0x7FF0_0000_0000_0000u64) == 0x7FF0_0000_0000_0000u64 && (y & 0x000F_FFFF_FFFF_FFFFu64) != 0)) by (bit_vector);
}

/// Two read fields holding floats of the same precision are reported
/// different exactly where what they show differs: where their bits differ,
/// unless both are NaN (every NaN shows as `NaN`). Each float shows by its
/// value, whatever the display format.
pub proof fn lemma_float_fields_compared(f1: FieldOut, f2: FieldOut)
    requires
        !f1.truncated && !f1.undecidable && !f1.skipped,
        !f2.truncated && !f2.undecidable && !f2.skipped,
    ensures
        match (f1.value, f2.value) {
            (ValueDesc::F32(x), ValueDesc::F32(y)) =>
                compare_spec(f1, f2).is_different <==> x != y && !(f32_bits_nan(x) && f32_bits_nan(y)),
            (ValueDesc::F64(x), ValueDesc::F64(y)) =>
                compare_spec(f1, f2).is_different <==> x != y && !(f64_bits_nan(x) && f64_bits_nan(y)),
            _ => true,
        },
{
    let v1 = cmp_value(f1);
    let v2 = cmp_value(f2);
    if let (ValueDesc::F32(x), ValueDesc::F32(y)) = (f1.value, f2.value) {
        lemma_nan_bits(x, 0);
        lemma_nan_bits(y, 0);
        assert(v1 == seq![Piece::Single(x)]);
        assert(v2 == seq![Piece::Single(y)]);
        assert(same_pieces(v1, v2) <==> same_piece(v1[0], v2[0]));
    }
    if let (ValueDesc::F64(x), ValueDesc::F64(y)) = (f1.value, f2.value) {
        lemma_nan_bits(0, x);
        lemma_nan_bits(0, y);
        assert(v1 == seq![Piece::Double(x)]);
        assert(v2 == seq![Piece::Double(y)]);
        assert(same_pieces(v1, v2) <==> same_piece(v1[0], v2[0]));
    }
}

proof fn lemma_same_pieces_refl(v: Seq<Piece>)
    ensures
        same_pieces(v, v),
{
    assert forall|i: int| 0 <= i < v.len() implies same_piece(#[trigger] v[i], v[i]) by {
        match v[i] {
            Piece::Text(x) => {},
            Piece::Single(x) => {},
            Piece::Double(x) => {},
        }
    }
}

proof fn lemma_compare_self(f: FieldOut)
    ensures
        all_same(compare_spec(f, f)),
    decreases f,
{
    lemma_same_pieces_refl(cmp_value(f));
    let es = entries_spec(f, f);
    let names = all_names(f.children, f.children);
    assert forall|k: int| 0 <= k < es.len() implies all_same(#[trigger] es[k]) by {
        assert(es[k] == name_entry(f, f, names[k]));
        match last_named(f.children, names[k]) {
            Some(i) => {
                if 0 <= i < f.children.len() {
                    assert(decreases_to!(f => f.children[i]));
                    lemma_compare_self(f.children[i]);
                }
            },
            None => {},
        }
    }
    let sorted = children_spec(f, f);
    lemma_sort_members(es, es.len());
    assert forall|j: int| 0 <= j < sorted.len() implies all_same(#[trigger] sorted[j]) by {
        let q = choose|q: int| 0 <= q < es.len() && es[q] == sorted[j];
        assert(all_same(es[q]));
    }
}

proof fn lemma_all_same_counts(ds: Seq<DiffDesc>)
    requires
        forall|i: int| 0 <= i < ds.len() ==> all_same(#[trigger] ds[i]),
    ensures
        different_count(ds) == 0,
    decreases ds,
{
    if ds.len() > 0 {
        let last = ds[ds.len() - 1];
        assert(all_same(last));
        let pre = ds.subrange(0, ds.len() - 1);
        assert forall|i: int| 0 <= i < pre.len() implies all_same(#[trigger] pre[i]) by {
            assert(pre[i] == ds[i]);
        }
        lemma_all_same_counts(pre);
        lemma_all_same_counts(last.children);
    }
}

/// Comparing a tree with itself finds no difference: the root and every field
/// under it are the same on both sides, and none is counted as different.
pub proof fn lemma_compare_self_no_difference(f: FieldOut)
    ensures
        all_same(compare_spec(f, f)),
        different_count(seq![compare_spec(f, f)]) == 0,
{
    lemma_compare_self(f);
    lemma_all_same_counts(seq![compare_spec(f, f)]);
}

} // verus!
