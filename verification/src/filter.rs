use vstd::prelude::*;
use crate::parser::{ParsedField, FieldOut, field_out, fields_out, lemma_children_out, copy_value, copy_field};
use crate::export::lemma_out_parts;
use crate::patch::lemma_child_smaller;

verus! {

/// `s` cut at every `.`, as `str::split('.')` cuts it.
pub open spec fn split_dots(s: Seq<char>) -> Seq<Seq<char>>
    decreases s.len(),
{
    if s.len() == 0 {
        seq![Seq::<char>::empty()]
    } else {
        let r = split_dots(s.drop_last());
        if s.last() == '.' {
            r.push(Seq::<char>::empty())
        } else {
            r.update(r.len() - 1, r.last().push(s.last()))
        }
    }
}

pub proof fn lemma_split_dots_nonempty(s: Seq<char>)
    ensures
        split_dots(s).len() >= 1,
    decreases s.len(),
{
    if s.len() > 0 {
        lemma_split_dots_nonempty(s.drop_last());
    }
}

/// Wildcard matching of one path segment: `*` stands for any run of
/// characters, `?` for any one character, any other character for itself.
pub open spec fn wild_match(p: Seq<char>, t: Seq<char>) -> bool
    decreases p.len() + t.len(),
{
    if p.len() == 0 {
        t.len() == 0
    } else if p.last() == '*' {
        wild_match(p.drop_last(), t) || (t.len() > 0 && wild_match(p, t.drop_last()))
    } else {
        t.len() > 0 && (p.last() == '?' || p.last() == t.last()) && wild_match(p.drop_last(), t.drop_last())
    }
}

/// Matching of dotted paths by segments: a `*` segment stands for one or more
/// path segments, a `**` segment for any number of them, and any other segment
/// for one path segment that it matches as `wild_match` says.
pub open spec fn glob_segments(p: Seq<Seq<char>>, t: Seq<Seq<char>>) -> bool
    decreases p.len(), t.len(),
{
    if p.len() == 0 {
        t.len() == 0
    } else if p[0] == "*"@ {
        t.len() > 0 && (glob_segments(p.drop_first(), t.drop_first()) || glob_segments(p, t.drop_first()))
    } else if p[0] == "**"@ {
        glob_segments(p.drop_first(), t) || (t.len() > 0 && glob_segments(p, t.drop_first()))
    } else {
        t.len() > 0 && wild_match(p[0], t[0]) && glob_segments(p.drop_first(), t.drop_first())
    }
}

/// Whether the dotted `path` matches the dotted `pattern`.
pub open spec fn glob_spec(pattern: Seq<char>, path: Seq<char>) -> bool {
    glob_segments(split_dots(pattern), split_dots(path))
}

/// Text with neither `*` nor `?` in it.
pub open spec fn no_wildcards(s: Seq<char>) -> bool {
    forall|i: int| 0 <= i < s.len() ==> #[trigger] s[i] != '*' && s[i] != '?'
}

/// A lone `*` matches every segment.
pub proof fn lemma_star_matches_all(t: Seq<char>)
    ensures
        wild_match("*"@, t),
    decreases t.len(),
{
    reveal_strlit("*");
    let p = "*"@;
    assert(p.len() == 1 && p.last() == '*');
    assert(p.drop_last() =~= Seq::<char>::empty());
    assert(wild_match(p.drop_last(), t) == (t.len() == 0));
    if t.len() > 0 {
        lemma_star_matches_all(t.drop_last());
    }
    assert(wild_match(p, t) == (wild_match(p.drop_last(), t) || (t.len() > 0 && wild_match(p, t.drop_last()))));
}

/// A segment without wildcards matches itself.
pub proof fn lemma_plain_segment_matches_itself(t: Seq<char>)
    requires
        no_wildcards(t),
    ensures
        wild_match(t, t),
    decreases t.len(),
{
    if t.len() > 0 {
        assert(no_wildcards(t.drop_last()));
        lemma_plain_segment_matches_itself(t.drop_last());
    }
}

/// `p` has no `*`.
pub open spec fn no_star(p: Seq<char>) -> bool {
    forall|i: int| 0 <= i < p.len() ==> #[trigger] p[i] != '*'
}

/// Where a segment pattern has no `*`, it matches exactly the texts of its
/// own length that have, at each position where the pattern has no `?`, the
/// pattern's character: a `?` stands for any one character.
pub proof fn lemma_no_star_match(p: Seq<char>, t: Seq<char>)
    requires
        no_star(p),
    ensures
        wild_match(p, t) <==> (p.len() == t.len() && forall|i: int| 0 <= i < p.len() ==> #[trigger] p[i] == '?' || p[i] == t[i]),
    decreases p.len(),
{
    if p.len() > 0 {
        let pd = p.drop_last();
        assert(no_star(pd)) by {
            assert forall|i: int| 0 <= i < pd.len() implies #[trigger] pd[i] != '*' by {
                assert(pd[i] == p[i]);
            }
        }
        assert(p.last() != '*') by {
            assert(p[p.len() - 1] != '*');
        }
        if t.len() > 0 {
            let td = t.drop_last();
            lemma_no_star_match(pd, td);
            if p.len() == t.len() && forall|i: int| 0 <= i < p.len() ==> #[trigger] p[i] == '?' || p[i] == t[i] {
                assert forall|i: int| 0 <= i < pd.len() implies #[trigger] pd[i] == '?' || pd[i] == td[i] by {
                    assert(pd[i] == p[i] && td[i] == t[i]);
                    assert(p[i] == '?' || p[i] == t[i]);
                }
                assert(p[p.len() - 1] == '?' || p[p.len() - 1] == t[t.len() - 1]);
            }
            if wild_match(p, t) {
                assert forall|i: int| 0 <= i < p.len() implies #[trigger] p[i] == '?' || p[i] == t[i] by {
                    if i < p.len() - 1 {
                        assert(pd[i] == p[i] && td[i] == t[i]);
                        assert(pd[i] == '?' || pd[i] == td[i]);
                    }
                }
            }
        }
    }
}

/// A segment pattern with one `*`, at its end, matches exactly the texts that
/// start with a match of what comes before the `*`: the `*` stands for any
/// rest, empty or not.
pub proof fn lemma_trailing_star(a: Seq<char>, t: Seq<char>)
    requires
        no_star(a),
    ensures
        wild_match(a.push('*'), t) <==> (a.len() <= t.len()
            && forall|i: int| 0 <= i < a.len() ==> #[trigger] a[i] == '?' || a[i] == t[i]),
    decreases t.len(),
{
    let p = a.push('*');
    assert(p.drop_last() =~= a);
    lemma_no_star_match(a, t);
    if t.len() > 0 {
        lemma_trailing_star(a, t.drop_last());
        let td = t.drop_last();
        if a.len() <= td.len() {
            assert forall|i: int| 0 <= i < a.len() implies (#[trigger] a[i] == '?' || a[i] == td[i]) == (a[i] == '?' || a[i] == t[i]) by {
                assert(td[i] == t[i]);
            }
        }
        if a.len() == t.len() {
            assert(!(a.len() <= td.len()));
        }
    }
}

/// A pattern of the one segment `**` matches every path; of the one segment
/// `*`, every path of at least one segment.
pub proof fn lemma_star_segments(ts: Seq<Seq<char>>)
    ensures
        glob_segments(seq!["**"@], ts),
        glob_segments(seq!["*"@], ts) <==> ts.len() >= 1,
    decreases ts.len(),
{
    reveal_strlit("*");
    reveal_strlit("**");
    let ds = seq!["**"@];
    let ss = seq!["*"@];
    assert(ds.drop_first() =~= Seq::<Seq<char>>::empty());
    assert(ss.drop_first() =~= Seq::<Seq<char>>::empty());
    assert("**"@ != "*"@) by {
        assert("**"@.len() != "*"@.len());
    }
    assert(ds[0] == "**"@ && ss[0] == "*"@);
    assert(glob_segments(ds.drop_first(), Seq::<Seq<char>>::empty()));
    if ts.len() > 0 {
        lemma_star_segments(ts.drop_first());
        assert(glob_segments(ds, ts.drop_first()));
    } else {
        assert(glob_segments(Seq::<Seq<char>>::empty(), ts));
    }
}

/// A dotted pattern whose segments have no `*` matches a path of as many
/// segments where each pattern segment matches the path's segment in the
/// same place position by position, `?` standing for any one character.
pub proof fn lemma_glob_no_star(ps: Seq<Seq<char>>, ts: Seq<Seq<char>>)
    requires
        ps.len() == ts.len(),
        forall|i: int| 0 <= i < ps.len() ==> no_star(#[trigger] ps[i]) && ps[i].len() == ts[i].len()
            && forall|j: int| 0 <= j < ps[i].len() ==> #[trigger] ps[i][j] == '?' || ps[i][j] == ts[i][j],
    ensures
        glob_segments(ps, ts),
    decreases ps.len(),
{
    if ps.len() > 0 {
        reveal_strlit("*");
        reveal_strlit("**");
        let p0 = ps[0];
        assert(no_star(p0));
        assert(p0 != "*"@) by {
            if p0 == "*"@ {
                assert(p0[0] == '*');
            }
        }
        assert(p0 != "**"@) by {
            if p0 == "**"@ {
                assert(p0[0] == '*');
            }
        }
        lemma_no_star_match(p0, ts[0]);
        assert forall|i: int| 0 <= i < ps.drop_first().len() implies no_star(#[trigger] ps.drop_first()[i])
            && ps.drop_first()[i].len() == ts.drop_first()[i].len()
            && forall|j: int| 0 <= j < ps.drop_first()[i].len()
                ==> #[trigger] ps.drop_first()[i][j] == '?' || ps.drop_first()[i][j] == ts.drop_first()[i][j] by {
            assert(ps.drop_first()[i] == ps[i + 1]);
            assert(ts.drop_first()[i] == ts[i + 1]);
        }
        lemma_glob_no_star(ps.drop_first(), ts.drop_first());
    }
}

proof fn lemma_split_plain(s: Seq<char>)
    requires
        no_wildcards(s),
    ensures
        forall|j: int| 0 <= j < split_dots(s).len() ==> no_wildcards(#[trigger] split_dots(s)[j]),
    decreases s.len(),
{
    if s.len() > 0 {
        assert(no_wildcards(s.drop_last()));
        lemma_split_plain(s.drop_last());
        lemma_split_dots_nonempty(s.drop_last());
    }
}

proof fn lemma_plain_segments_match(ps: Seq<Seq<char>>)
    requires
        forall|j: int| 0 <= j < ps.len() ==> no_wildcards(#[trigger] ps[j]),
    ensures
        glob_segments(ps, ps),
    decreases ps.len(),
{
    reveal_strlit("*");
    reveal_strlit("**");
    if ps.len() > 0 {
        let p0 = ps[0];
        assert(no_wildcards(p0));
        if p0 == "*"@ {
            assert(p0[0] == '*');
        }
        if p0 == "**"@ {
            assert(p0[0] == '*');
        }
        lemma_plain_segment_matches_itself(p0);
        let rest = ps.drop_first();
        assert forall|j: int| 0 <= j < rest.len() implies no_wildcards(#[trigger] rest[j]) by {
            assert(rest[j] == ps[j + 1]);
        }
        lemma_plain_segments_match(rest);
    }
}

/// A dotted path without wildcards, taken as a pattern, matches itself.
pub proof fn lemma_plain_path_matches_itself(path: Seq<char>)
    requires
        no_wildcards(path),
    ensures
        glob_spec(path, path),
{
    lemma_split_plain(path);
    lemma_plain_segments_match(split_dots(path));
}

/// `str::split('.')`, each part as characters.
pub fn split_dots_exec(s: &str) -> (r: Vec<Vec<char>>)
    ensures
        r@.map_values(|v: Vec<char>| v@) == split_dots(s@),
{
    let cs = crate::text::chars_of(s);
    let mut parts: Vec<Vec<char>> = Vec::new();
    let mut current: Vec<char> = Vec::new();
    let mut i: usize = 0;
    while i < cs.len()
        invariant
            i <= cs@.len(),
            cs@ == s@,
            parts@.map_values(|v: Vec<char>| v@).push(current@) == split_dots(cs@.take(i as int)),
        decreases cs@.len() - i,
    {
        let c = cs[i];
        let ghost before = parts@.map_values(|v: Vec<char>| v@).push(current@);
        assert(cs@.take(i + 1).drop_last() =~= cs@.take(i as int));
        assert(cs@.take(i + 1).last() == c);
        if c == '.' {
            let done = current;
            parts.push(done);
            current = Vec::new();
            assert(parts@.map_values(|v: Vec<char>| v@).push(current@) =~= before.push(Seq::<char>::empty()));
        } else {
            current.push(c);
            assert(parts@.map_values(|v: Vec<char>| v@).push(current@) =~= before.update(before.len() - 1, before.last().push(c)));
        }
        i = i + 1;
    }
    assert(cs@.take(cs@.len() as int) =~= cs@);
    parts.push(current);
    parts
}

/// `wild_match` on character slices, by dynamic programming over prefixes, one row per pattern character.
fn wild_match_chars(pattern: &[char], text: &[char]) -> (r: bool)
    ensures
        r == wild_match(pattern@, text@),
{
    let m = pattern.len();
    let n = text.len();
    let mut prev: Vec<bool> = Vec::new();
    prev.push(true);
    assert(text@.take(0) =~= Seq::<char>::empty());
    let mut j: usize = 0;
    while j < n
        invariant
            n == text@.len(),
            j <= n,
            prev@.len() == j + 1,
            forall|k: int| 0 <= k <= j ==> prev@[k] == wild_match(Seq::<char>::empty(), #[trigger] text@.take(k)),
        decreases n - j,
    {
        prev.push(false);
        j = j + 1;
    }
    let mut i: usize = 0;
    while i < m
        invariant
            m == pattern@.len(),
            n == text@.len(),
            i <= m,
            prev@.len() == n + 1,
            forall|k: int| 0 <= k <= n ==> prev@[k] == wild_match(pattern@.take(i as int), #[trigger] text@.take(k)),
        decreases m - i,
    {
        let pc = pattern[i];
        let ghost pi = pattern@.take(i + 1);
        assert(pi.drop_last() =~= pattern@.take(i as int));
        assert(pi.last() == pc);
        let mut cur: Vec<bool> = Vec::new();
        let first = if pc == '*' { prev[0] } else { false };
        assert(text@.take(0) =~= Seq::<char>::empty());
        cur.push(first);
        let mut jj: usize = 0;
        while jj < n
            invariant
                m == pattern@.len(),
                n == text@.len(),
                i < m,
                jj <= n,
                pi == pattern@.take(i + 1),
                pi.drop_last() == pattern@.take(i as int),
                pi.last() == pc,
                prev@.len() == n + 1,
                forall|k: int| 0 <= k <= n ==> prev@[k] == wild_match(pattern@.take(i as int), #[trigger] text@.take(k)),
                cur@.len() == jj + 1,
                forall|k: int| 0 <= k <= jj ==> cur@[k] == wild_match(pi, #[trigger] text@.take(k)),
            decreases n - jj,
        {
            let ghost tk = text@.take(jj + 1);
            assert(tk.drop_last() =~= text@.take(jj as int));
            assert(tk.last() == text@[jj as int]);
            let v = if pc == '*' {
                proof {
                    if prev@[jj as int] {
                        lemma_star_absorbs(pi, text@.take(jj as int));
                    }
                }
                prev[jj + 1] || cur[jj] || prev[jj]
            } else if pc == '?' || pc == text[jj] {
                prev[jj]
            } else {
                false
            };
            cur.push(v);
            jj = jj + 1;
        }
        prev = cur;
        i = i + 1;
    }
    assert(pattern@.take(m as int) =~= pattern@);
    assert(text@.take(n as int) =~= text@);
    prev[n]
}

/// With a trailing `*`, whatever the shorter pattern matches stays matched.
proof fn lemma_star_absorbs(p: Seq<char>, t: Seq<char>)
    requires
        p.len() > 0,
        p.last() == '*',
        wild_match(p.drop_last(), t),
    ensures
        wild_match(p, t),
{
}

fn is_star(v: &Vec<char>) -> (r: bool)
    ensures
        r == (v@ == "*"@),
{
    proof { reveal_strlit("*"); }
    let r = v.len() == 1 && v[0] == '*';
    if r {
        assert(v@ =~= "*"@);
    }
    r
}

fn is_double_star(v: &Vec<char>) -> (r: bool)
    ensures
        r == (v@ == "**"@),
{
    proof { reveal_strlit("**"); }
    let r = v.len() == 2 && v[0] == '*' && v[1] == '*';
    if r {
        assert(v@ =~= "**"@);
    }
    r
}

pub open spec fn views(v: Seq<Vec<char>>) -> Seq<Seq<char>> {
    v.map_values(|x: Vec<char>| x@)
}

/// Segment matching from segment `pi` of the pattern and segment `ti` of the path.
fn glob_match_recursive(p: &Vec<Vec<char>>, pi: usize, t: &Vec<Vec<char>>, ti: usize) -> (r: bool)
    requires
        pi <= p@.len(),
        ti <= t@.len(),
    ensures
        r == glob_segments(views(p@).skip(pi as int), views(t@).skip(ti as int)),
    decreases p@.len() - pi, t@.len() - ti,
{
    let ghost ps = views(p@).skip(pi as int);
    let ghost ts = views(t@).skip(ti as int);
    if pi == p.len() {
        return ti == t.len();
    }
    assert(ps[0] == p@[pi as int]@);
    assert(ps.drop_first() =~= views(p@).skip(pi + 1));
    assert(ti < t@.len() ==> ts.drop_first() =~= views(t@).skip(ti + 1));
    assert(ti < t@.len() ==> ts[0] == t@[ti as int]@);
    if is_star(&p[pi]) {
        if ti == t.len() {
            return false;
        }
        glob_match_recursive(p, pi + 1, t, ti + 1) || glob_match_recursive(p, pi, t, ti + 1)
    } else if is_double_star(&p[pi]) {
        if glob_match_recursive(p, pi + 1, t, ti) {
            return true;
        }
        ti < t.len() && glob_match_recursive(p, pi, t, ti + 1)
    } else {
        ti < t.len() && wild_match_chars(p[pi].as_slice(), t[ti].as_slice())
            && glob_match_recursive(p, pi + 1, t, ti + 1)
    }
}

/// Whether the dotted `path` matches the dotted `pattern` (see `glob_segments`).
pub fn matches_glob(pattern: &str, path: &str) -> (r: bool)
    ensures
        r == glob_spec(pattern@, path@),
{
    let pat_parts = split_dots_exec(pattern);
    let path_parts = split_dots_exec(path);
    assert(views(pat_parts@).skip(0) =~= split_dots(pattern@));
    assert(views(path_parts@).skip(0) =~= split_dots(path@));
    glob_match_recursive(&pat_parts, 0, &path_parts, 0)
}

/// Wildcard matching of one segment (see `wild_match`).
pub fn simple_glob_match(pattern: &str, text: &str) -> (r: bool)
    ensures
        r == wild_match(pattern@, text@),
{
    let p = crate::text::chars_of(pattern);
    let t = crate::text::chars_of(text);
    wild_match_chars(p.as_slice(), t.as_slice())
}

// ---------------------------------------------------------------------
// Parsed trees.
// ---------------------------------------------------------------------

/// Whether the tree has a field, the root included, whose path matches.
pub open spec fn any_match(f: FieldOut, p: Seq<char>) -> bool {
    glob_spec(p, f.path) || any_match_list(f.children, p)
}

pub open spec fn any_match_list(cs: Seq<FieldOut>, p: Seq<char>) -> bool
    decreases cs,
{
    if cs.len() == 0 {
        false
    } else {
        let last = cs[cs.len() - 1];
        any_match_list(cs.subrange(0, cs.len() - 1), p) || glob_spec(p, last.path) || any_match_list(last.children, p)
    }
}

/// Whether some field of the tree, the root included, has a matching path.
pub fn has_matching_fields(root: &ParsedField, pattern: &str) -> (r: bool)
    ensures
        r == any_match(field_out(*root), pattern@),
    decreases root,
{
    proof {
        lemma_children_out(*root);
        lemma_out_parts(*root);
    }
    if matches_glob(pattern, root.path.as_str()) {
        return true;
    }
    let ghost cs = fields_out(root.children@);
    let mut i: usize = 0;
    assert(cs.take(0) =~= Seq::<FieldOut>::empty());
    while i < root.children.len()
        invariant
            i <= root.children@.len(),
            cs == fields_out(root.children@),
            cs == field_out(*root).children,
            !any_match_list(cs.take(i as int), pattern@),
        decreases root.children@.len() - i,
    {
        proof {
            lemma_child_smaller(*root, i as int);
            assert(cs.take(i + 1).subrange(0, i as int) =~= cs.take(i as int));
        }
        let child = &root.children[i];
        assert(cs[i as int] == field_out(*child));
        proof { lemma_out_parts(*child); }
        if has_matching_fields(child, pattern) {
            assert(any_match_list(cs.take(i + 1), pattern@));
            proof { lemma_any_match_prefix(cs, i + 1, pattern@); }
            return true;
        }
        i = i + 1;
    }
    assert(cs.take(cs.len() as int) =~= cs);
    false
}

proof fn lemma_any_match_prefix(cs: Seq<FieldOut>, k: int, p: Seq<char>)
    requires
        0 <= k <= cs.len(),
        any_match_list(cs.take(k), p),
    ensures
        any_match_list(cs, p),
    decreases cs.len(),
{
    if k < cs.len() {
        assert(cs.subrange(0, cs.len() - 1).take(k) =~= cs.take(k));
        lemma_any_match_prefix(cs.subrange(0, cs.len() - 1), k, p);
    } else {
        assert(cs.take(k) =~= cs);
    }
}

/// The tree with only the fields kept whose path matches or that keep
/// fields under them; a field's value is copied as it was.
pub open spec fn filter_tree(f: FieldOut, p: Seq<char>) -> FieldOut
    decreases f, 1int,
{
    FieldOut { children: filter_list(f, p), ..f }
}

/// The kept fields under `f`, filtered in turn, in order.
pub open spec fn filter_list(f: FieldOut, p: Seq<char>) -> Seq<FieldOut>
    decreases f, 0int,
{
    filter_upto(f, p, f.children.len())
}

pub open spec fn filter_upto(f: FieldOut, p: Seq<char>, n: nat) -> Seq<FieldOut>
    decreases f, 0int, n,
{
    if n == 0 || n > f.children.len() {
        Seq::empty()
    } else {
        let prev = filter_upto(f, p, (n - 1) as nat);
        let g = filter_tree(f.children[n - 1], p);
        if glob_spec(p, g.path) || g.children.len() > 0 { prev.push(g) } else { prev }
    }
}

fn filter_recursive(field: &ParsedField, pattern: &str) -> (r: ParsedField)
    ensures
        field_out(r) == filter_tree(field_out(*field), pattern@),
    decreases field,
{
    proof {
        lemma_children_out(*field);
        lemma_out_parts(*field);
    }
    let ghost fo = field_out(*field);
    let mut kept: Vec<ParsedField> = Vec::new();
    let mut i: usize = 0;
    assert(fields_out(kept@) =~= filter_upto(fo, pattern@, 0));
    while i < field.children.len()
        invariant
            i <= field.children@.len(),
            fo == field_out(*field),
            fo.children == fields_out(field.children@),
            fields_out(kept@) == filter_upto(fo, pattern@, i as nat),
        decreases field.children@.len() - i,
    {
        proof { lemma_child_smaller(*field, i as int); }
        let child = &field.children[i];
        assert(fo.children[i as int] == field_out(*child));
        let g = filter_recursive(child, pattern);
        proof {
            lemma_out_parts(g);
            lemma_children_out(g);
        }
        if matches_glob(pattern, g.path.as_str()) || g.children.len() > 0 {
            let ghost before = kept@;
            let ghost gv = field_out(g);
            kept.push(g);
            assert(fields_out(kept@) =~= fields_out(before).push(gv));
        }
        i = i + 1;
    }
    let r = ParsedField {
        name: field.name.clone(),
        path: field.path.clone(),
        offset: field.offset,
        length: field.length,
        value: copy_value(&field.value),
        display_format: field.display_format,
        truncated: field.truncated,
        undecidable: field.undecidable,
        skipped: field.skipped,
        checksum_result: field.checksum_result,
        children: kept,
    };
    proof {
        lemma_out_parts(r);
        lemma_children_out(r);
    }
    assert(field_out(r) =~= filter_tree(fo, pattern@));
    r
}

/// The tree restricted to the fields whose path matches the pattern and the
/// fields above them; none where nothing matches.
pub fn filter_parsed_field(root: &ParsedField, pattern: &str) -> (r: Option<ParsedField>)
    ensures
        match r {
            Some(t) => field_out(t) == filter_tree(field_out(*root), pattern@)
                && (filter_list(field_out(*root), pattern@).len() > 0 || glob_spec(pattern@, root.path@)),
            None => filter_list(field_out(*root), pattern@).len() == 0 && !glob_spec(pattern@, root.path@),
        },
{
    let filtered = filter_recursive(root, pattern);
    proof {
        lemma_out_parts(filtered);
        lemma_children_out(filtered);
    }
    if filtered.children.len() == 0 && !matches_glob(pattern, root.path.as_str()) {
        return None;
    }
    Some(filtered)
}

/// Filtering keeps the first `n` children of `f` that match or hold a match.
proof fn lemma_filter_upto_kept(f: FieldOut, p: Seq<char>, n: nat)
    requires
        n <= f.children.len(),
    ensures
        filter_upto(f, p, n).len() > 0 <==> any_match_list(f.children.take(n as int), p),
    decreases f, n,
{
    if n > 0 {
        let c = f.children[n - 1];
        assert(decreases_to!(f => c));
        lemma_filter_upto_kept(f, p, (n - 1) as nat);
        lemma_filter_upto_kept(c, p, c.children.len());
        assert(c.children.take(c.children.len() as int) =~= c.children);
        assert(f.children.take(n as int).subrange(0, n - 1) =~= f.children.take(n - 1));
        assert(f.children.take(n as int)[n - 1] == c);
        let g = filter_tree(c, p);
        assert(g.path == c.path);
        assert(g.children == filter_list(c, p));
        assert(filter_list(c, p) == filter_upto(c, p, c.children.len()));
        let prev = filter_upto(f, p, (n - 1) as nat);
        assert(filter_upto(f, p, n) == (if glob_spec(p, g.path) || g.children.len() > 0 { prev.push(g) } else { prev }));
        let cs = f.children.take(n as int);
        assert(any_match_list(cs, p) == (any_match_list(cs.subrange(0, cs.len() - 1), p) || glob_spec(p, c.path)
            || any_match_list(c.children, p)));
    } else {
        assert(f.children.take(0) =~= Seq::<FieldOut>::empty());
    }
}

/// A tree has a field whose path matches the pattern exactly when filtering
/// it by the pattern keeps something: `has_matching_fields` is true exactly
/// when `filter_parsed_field` returns a tree.
pub proof fn lemma_matching_iff_filtered(f: FieldOut, p: Seq<char>)
    ensures
        any_match(f, p) <==> (filter_list(f, p).len() > 0 || glob_spec(p, f.path)),
{
    lemma_filter_upto_kept(f, p, f.children.len());
    assert(f.children.take(f.children.len() as int) =~= f.children);
}

/// The leaves of a list of fields and of the fields under them, in order.
pub open spec fn leaves_list(cs: Seq<FieldOut>) -> Seq<FieldOut>
    decreases cs,
{
    if cs.len() == 0 {
        Seq::empty()
    } else {
        let last = cs[cs.len() - 1];
        leaves_list(cs.subrange(0, cs.len() - 1)) + (if last.children.len() == 0 { seq![last] } else { leaves_list(last.children) })
    }
}

/// The fields of a tree without fields under them, in document order.
pub open spec fn leaves(f: FieldOut) -> Seq<FieldOut> {
    if f.children.len() == 0 { seq![f] } else { leaves_list(f.children) }
}

pub open spec fn refs_out(v: Seq<&ParsedField>) -> Seq<FieldOut> {
    v.map_values(|f: &ParsedField| field_out(*f))
}

pub fn collect_leaves_into<'a>(field: &'a ParsedField, out: &mut Vec<&'a ParsedField>)
    ensures
        refs_out(final(out)@) == refs_out(old(out)@) + leaves(field_out(*field)),
    decreases field,
{
    proof {
        lemma_children_out(*field);
        lemma_out_parts(*field);
    }
    let ghost o = refs_out(out@);
    if field.children.len() == 0 {
        out.push(field);
        assert(refs_out(out@) =~= o + leaves(field_out(*field)));
        return;
    }
    let ghost cs = fields_out(field.children@);
    let mut i: usize = 0;
    assert(cs.take(0) =~= Seq::<FieldOut>::empty());
    assert(o + leaves_list(cs.take(0)) =~= o);
    while i < field.children.len()
        invariant
            i <= field.children@.len(),
            cs == fields_out(field.children@),
            cs == field_out(*field).children,
            refs_out(out@) == o + leaves_list(cs.take(i as int)),
        decreases field.children@.len() - i,
    {
        proof {
            lemma_child_smaller(*field, i as int);
            assert(cs.take(i + 1).subrange(0, i as int) =~= cs.take(i as int));
        }
        let child = &field.children[i];
        assert(cs[i as int] == field_out(*child));
        collect_leaves_into(child, out);
        assert(refs_out(out@) =~= o + leaves_list(cs.take(i + 1)));
        i = i + 1;
    }
    assert(cs.take(cs.len() as int) =~= cs);
}

/// The fields of a tree without fields under them, in document order.
pub fn collect_leaf_fields(field: &ParsedField) -> (r: Vec<&ParsedField>)
    ensures
        refs_out(r@) == leaves(field_out(*field)),
{
    let mut out: Vec<&ParsedField> = Vec::new();
    assert(refs_out(out@) =~= Seq::<FieldOut>::empty());
    collect_leaves_into(field, &mut out);
    assert(refs_out(out@) =~= leaves(field_out(*field)));
    out
}

/// Copies of the fields of a tree without fields under them, in document order.
pub fn collect_leaf_fields_owned(field: &ParsedField) -> (r: Vec<ParsedField>)
    ensures
        fields_out(r@) == leaves(field_out(*field)),
{
    let refs = collect_leaf_fields(field);
    let mut out: Vec<ParsedField> = Vec::new();
    let mut i: usize = 0;
    while i < refs.len()
        invariant
            i <= refs@.len(),
            refs_out(refs@) == leaves(field_out(*field)),
            fields_out(out@) == refs_out(refs@).take(i as int),
        decreases refs@.len() - i,
    {
        let c = copy_field(refs[i]);
        let ghost before = out@;
        let ghost cv = field_out(c);
        out.push(c);
        assert(fields_out(out@) =~= fields_out(before).push(cv));
        assert(refs_out(refs@).take(i + 1) =~= refs_out(refs@).take(i as int).push(refs_out(refs@)[i as int]));
        i = i + 1;
    }
    assert(refs_out(refs@).take(refs@.len() as int) =~= refs_out(refs@));
    out
}

} // verus!
