//! Turning a template and the values of its parameters into a format
//! definition: placeholders filled in, conditional fields kept or dropped,
//! repeated fields expanded.

use vstd::prelude::*;
use crate::yaml::{YamlValue, tags_nonempty, untag, as_str, as_u64, as_mapping, map_get, find_key, key_is, lemma_find_key_bounds};
use crate::dsl::{
    DataType, TypeDesc, type_desc, data_type_of, data_type_error, str_at, mapping_at, primitive_type, lemma_two_step, Field, FieldDesc,
    Condition, ChecksumField, StructDefinition, StructDesc, EnumDefinition, FormatDefinition, FormatDesc, bytes_view,
    field_desc, fields_desc, struct_desc, structs_desc, enums_desc, format_desc, pairs_desc,
};
use crate::expr::replace_all;
use crate::instance::{
    substitute_string, substitute_spec, params_view, values_printable, when_spec, repeat_spec, evaluate_template_when,
    resolve_repeat_count, resolve_spec, resolve_error_matches, instance_printable, ResolveFailure, resolve_one,
    given_index, lemma_given_bounds, defaults_printable, placeholder, value_text, substitute_with,
};
use crate::template::{TemplateField, TemplateStructDefinition, TemplateDefinition, TemplateError, params_of};
use crate::text::{str_eq, push_str, owned};
use crate::numfmt::{dec_str, push_dec};

verus! {

// ---------------------------------------------------------------------
// YAML nodes by what they hold.
// ---------------------------------------------------------------------

/// A YAML node with its text taken as characters.
pub enum YamlView {
    Null,
    Bool(bool),
    Int(i128, Seq<char>),
    Float(Seq<char>),
    Str(Seq<char>),
    List(Seq<YamlView>),
    Mapping(Seq<(YamlView, YamlView)>),
    Tagged(Seq<char>, Box<YamlView>),
}

pub open spec fn yview(v: YamlValue) -> YamlView
    decreases v,
{
    match v {
        YamlValue::Null => YamlView::Null,
        YamlValue::Bool(b) => YamlView::Bool(b),
        YamlValue::Int(i, t) => YamlView::Int(i, t@),
        YamlValue::Float(t) => YamlView::Float(t@),
        YamlValue::Str(s) => YamlView::Str(s@),
        YamlValue::List(items) => YamlView::List(Seq::new(items@.len(), |i: int|
            if 0 <= i < items@.len() { yview(items@[i]) } else { YamlView::Null })),
        YamlValue::Mapping(m) => YamlView::Mapping(Seq::new(m@.len(), |i: int|
            if 0 <= i < m@.len() { (yview(m@[i].0), yview(m@[i].1)) } else { (YamlView::Null, YamlView::Null) })),
        YamlValue::Tagged(t, inner) => YamlView::Tagged(t@, Box::new(yview(*inner))),
    }
}

pub open spec fn pairs_yview(m: Seq<(YamlValue, YamlValue)>) -> Seq<(YamlView, YamlView)> {
    Seq::new(m.len(), |i: int| (yview(m[i].0), yview(m[i].1)))
}

proof fn lemma_mapping_yview(m: Vec<(YamlValue, YamlValue)>)
    ensures
        yview(YamlValue::Mapping(m)) == YamlView::Mapping(pairs_yview(m@)),
{
    if let YamlView::Mapping(p) = yview(YamlValue::Mapping(m)) {
        assert(p =~= pairs_yview(m@));
    }
}

/// Nodes that hold the same: the same kind, text and parts.
pub open spec fn same_node(a: YamlValue, b: YamlValue) -> bool {
    yview(a) == yview(b)
}

proof fn lemma_same_untag(a: YamlValue, b: YamlValue)
    requires
        same_node(a, b),
    ensures
        same_node(untag(a), untag(b)),
    decreases a,
{
    if let YamlValue::Tagged(_, x) = a {
        if let YamlValue::Tagged(_, y) = b {
            lemma_same_untag(*x, *y);
        }
    }
}

proof fn lemma_same_scalars(a: YamlValue, b: YamlValue)
    requires
        same_node(a, b),
    ensures
        (as_str(a) is Some) == (as_str(b) is Some),
        as_str(a) matches Some(x) ==> x@ == as_str(b).unwrap()@,
        as_u64(a) == as_u64(b),
        (as_mapping(a) is Some) == (as_mapping(b) is Some),
        as_mapping(a) matches Some(x) ==> pairs_yview(x@) == pairs_yview(as_mapping(b).unwrap()@),
{
    lemma_same_untag(a, b);
    let (ua, ub) = (untag(a), untag(b));
    if let YamlValue::Mapping(x) = ua {
        if let YamlValue::Mapping(y) = ub {
            lemma_mapping_yview(x);
            lemma_mapping_yview(y);
        }
    }
    match ua {
        YamlValue::Null => { assert(ub is Null); },
        YamlValue::Bool(_) => { assert(ub is Bool); },
        YamlValue::Int(_, _) => { assert(ub is Int); },
        YamlValue::Float(_) => { assert(ub is Float); },
        YamlValue::Str(_) => { assert(ub is Str); },
        YamlValue::List(_) => { assert(ub is List); },
        YamlValue::Mapping(_) => { assert(ub is Mapping); },
        YamlValue::Tagged(_, _) => { assert(ub is Tagged); },
    }
}

proof fn lemma_same_find(m1: Seq<(YamlValue, YamlValue)>, m2: Seq<(YamlValue, YamlValue)>, key: Seq<char>)
    requires
        pairs_yview(m1) == pairs_yview(m2),
    ensures
        find_key(m1, key) == find_key(m2, key),
    decreases m1.len(),
{
    assert(m1.len() == pairs_yview(m1).len());
    assert(m2.len() == pairs_yview(m2).len());
    if m1.len() > 0 {
        assert(pairs_yview(m1.drop_last()) =~= pairs_yview(m1).drop_last());
        assert(pairs_yview(m2.drop_last()) =~= pairs_yview(m2).drop_last());
        lemma_same_find(m1.drop_last(), m2.drop_last(), key);
        let k1 = m1.last().0;
        let k2 = m2.last().0;
        assert(pairs_yview(m1)[m1.len() - 1].0 == yview(k1));
        assert(pairs_yview(m2)[m2.len() - 1].0 == yview(k2));
        assert(key_is(k1, key) == key_is(k2, key)) by {
            match k1 {
                YamlValue::Str(_) => { assert(k2 is Str); },
                _ => { assert(!(yview(k1) is Str)); },
            }
        }
    }
}

/// Under the same key, mappings that hold the same hold the same.
proof fn lemma_same_get(m1: Seq<(YamlValue, YamlValue)>, m2: Seq<(YamlValue, YamlValue)>, key: Seq<char>)
    requires
        pairs_yview(m1) == pairs_yview(m2),
    ensures
        (map_get(m1, key) is Some) == (map_get(m2, key) is Some),
        map_get(m1, key) matches Some(x) ==> same_node(x, map_get(m2, key).unwrap()),
{
    lemma_same_find(m1, m2, key);
    lemma_find_key_bounds(m1, key);
    lemma_find_key_bounds(m2, key);
    assert(m1.len() == pairs_yview(m1).len() && m2.len() == pairs_yview(m2).len());
    if let Some(i) = find_key(m1, key) {
        assert(pairs_yview(m1)[i].1 == yview(m1[i].1));
        assert(pairs_yview(m2)[i].1 == yview(m2[i].1));
    }
}

proof fn lemma_same_str_at(m1: Vec<(YamlValue, YamlValue)>, m2: Vec<(YamlValue, YamlValue)>, key: Seq<char>)
    requires
        pairs_yview(m1@) == pairs_yview(m2@),
    ensures
        (str_at(m1, key) is Some) == (str_at(m2, key) is Some),
        str_at(m1, key) matches Some(x) ==> x@ == str_at(m2, key).unwrap()@,
{
    lemma_same_get(m1@, m2@, key);
    if let Some(x) = map_get(m1@, key) {
        lemma_same_scalars(x, map_get(m2@, key).unwrap());
    }
}

proof fn lemma_same_mapping_at(m1: Vec<(YamlValue, YamlValue)>, m2: Vec<(YamlValue, YamlValue)>, key: Seq<char>)
    requires
        pairs_yview(m1@) == pairs_yview(m2@),
    ensures
        (mapping_at(m1, key) is Some) == (mapping_at(m2, key) is Some),
        mapping_at(m1, key) matches Some(x) ==> pairs_yview(x@) == pairs_yview(mapping_at(m2, key).unwrap()@),
{
    lemma_same_get(m1@, m2@, key);
    if let Some(x) = map_get(m1@, key) {
        lemma_same_scalars(x, map_get(m2@, key).unwrap());
    }
}

/// The type a node describes, as text.
pub open spec fn type_view(v: YamlValue) -> Option<TypeDesc> {
    match data_type_of(v) {
        Some(t) => Some(type_desc(t)),
        None => None,
    }
}

/// Nodes that hold the same describe the same type.
pub proof fn lemma_same_type(a: YamlValue, b: YamlValue)
    requires
        same_node(a, b),
    ensures
        type_view(a) == type_view(b),
    decreases a,
{
    match a {
        YamlValue::Str(s) => {
            assert(b is Str);
        },
        YamlValue::Mapping(m1) => {
            lemma_mapping_yview(m1);
            let m2 = b->Mapping_0;
            lemma_mapping_yview(m2);
            assert(pairs_yview(m1@) == pairs_yview(m2@));
            lemma_same_type_mapping(a, b, m1, m2);
        },
        _ => {
            assert(!(b is Str) && !(b is Mapping));
        },
    }
}

proof fn lemma_same_type_mapping(a: YamlValue, b: YamlValue, m1: Vec<(YamlValue, YamlValue)>, m2: Vec<(YamlValue, YamlValue)>)
    requires
        a == YamlValue::Mapping(m1),
        b == YamlValue::Mapping(m2),
        pairs_yview(m1@) == pairs_yview(m2@),
    ensures
        type_view(a) == type_view(b),
    decreases a, 0int,
{
    reveal_strlit("bytes");
    reveal_strlit("string");
    reveal_strlit("bit_field");
    reveal_strlit("struct");
    reveal_strlit("array");
    reveal_strlit("enum");
    lemma_same_get(m1@, m2@, "bytes"@);
    lemma_same_get(m1@, m2@, "string"@);
    lemma_same_get(m1@, m2@, "bit_field"@);
    lemma_same_get(m1@, m2@, "struct"@);
    lemma_same_get(m1@, m2@, "array"@);
    lemma_same_get(m1@, m2@, "enum"@);
    if map_get(m1@, "bytes"@) is Some {
        lemma_same_mapping_at(m1, m2, "bytes"@);
        if let Some(i1) = mapping_at(m1, "bytes"@) {
            lemma_same_str_at(i1, mapping_at(m2, "bytes"@).unwrap(), "length"@);
        }
    } else if map_get(m1@, "string"@) is Some {
        lemma_same_mapping_at(m1, m2, "string"@);
        if let Some(i1) = mapping_at(m1, "string"@) {
            let i2 = mapping_at(m2, "string"@).unwrap();
            lemma_same_str_at(i1, i2, "length"@);
            lemma_same_str_at(i1, i2, "encoding"@);
        }
    } else if map_get(m1@, "bit_field"@) is Some {
        lemma_same_mapping_at(m1, m2, "bit_field"@);
        if let Some(i1) = mapping_at(m1, "bit_field"@) {
            let i2 = mapping_at(m2, "bit_field"@).unwrap();
            lemma_same_get(i1@, i2@, "bit_start"@);
            lemma_same_get(i1@, i2@, "bit_length"@);
            if let Some(x) = map_get(i1@, "bit_start"@) { lemma_same_scalars(x, map_get(i2@, "bit_start"@).unwrap()); }
            if let Some(x) = map_get(i1@, "bit_length"@) { lemma_same_scalars(x, map_get(i2@, "bit_length"@).unwrap()); }
        }
    } else if map_get(m1@, "struct"@) is Some {
        let s1 = map_get(m1@, "struct"@).unwrap();
        let s2 = map_get(m2@, "struct"@).unwrap();
        lemma_same_scalars(s1, s2);
        if let Some(i1) = as_mapping(s1) {
            lemma_same_str_at(i1, as_mapping(s2).unwrap(), "name"@);
        }
    } else if map_get(m1@, "array"@) is Some {
        lemma_same_mapping_at(m1, m2, "array"@);
        if let Some(i1) = mapping_at(m1, "array"@) {
            let i2 = mapping_at(m2, "array"@).unwrap();
            lemma_same_get(i1@, i2@, "element_type"@);
            lemma_same_str_at(i1, i2, "length"@);
            if let Some(e1) = map_get(i1@, "element_type"@) {
                lemma_two_step(a, "array"@, "element_type"@);
                lemma_same_type(e1, map_get(i2@, "element_type"@).unwrap());
            }
        }
    } else if map_get(m1@, "enum"@) is Some {
        lemma_same_mapping_at(m1, m2, "enum"@);
        if let Some(i1) = mapping_at(m1, "enum"@) {
            let i2 = mapping_at(m2, "enum"@).unwrap();
            lemma_same_str_at(i1, i2, "name"@);
            lemma_same_get(i1@, i2@, "underlying"@);
            if let Some(u1) = map_get(i1@, "underlying"@) {
                lemma_two_step(a, "enum"@, "underlying"@);
                lemma_same_type(u1, map_get(i2@, "underlying"@).unwrap());
            }
        }
    }
}

/// Nodes that hold the same are refused with the same message.
pub proof fn lemma_same_type_error(a: YamlValue, b: YamlValue)
    requires
        same_node(a, b),
    ensures
        data_type_error(a) == data_type_error(b),
    decreases a,
{
    match a {
        YamlValue::Str(s) => {
            lemma_same_scalars(a, b);
            assert(b is Str);
        },
        YamlValue::Mapping(m1) => {
            lemma_mapping_yview(m1);
            let m2 = b->Mapping_0;
            lemma_mapping_yview(m2);
            assert(pairs_yview(m1@) == pairs_yview(m2@));
            lemma_same_error_mapping(a, b, m1, m2);
        },
        _ => {
            assert(!(b is Str) && !(b is Mapping));
        },
    }
}

proof fn lemma_same_error_mapping(a: YamlValue, b: YamlValue, m1: Vec<(YamlValue, YamlValue)>, m2: Vec<(YamlValue, YamlValue)>)
    requires
        a == YamlValue::Mapping(m1),
        b == YamlValue::Mapping(m2),
        pairs_yview(m1@) == pairs_yview(m2@),
    ensures
        data_type_error(a) == data_type_error(b),
    decreases a, 0int,
{
    reveal_strlit("bytes");
    reveal_strlit("string");
    reveal_strlit("bit_field");
    reveal_strlit("struct");
    reveal_strlit("array");
    reveal_strlit("enum");
    lemma_same_get(m1@, m2@, "bytes"@);
    lemma_same_get(m1@, m2@, "string"@);
    lemma_same_get(m1@, m2@, "bit_field"@);
    lemma_same_get(m1@, m2@, "struct"@);
    lemma_same_get(m1@, m2@, "array"@);
    lemma_same_get(m1@, m2@, "enum"@);
    if map_get(m1@, "bytes"@) is Some {
        lemma_same_mapping_at(m1, m2, "bytes"@);
    } else if map_get(m1@, "string"@) is Some {
        lemma_same_mapping_at(m1, m2, "string"@);
    } else if map_get(m1@, "bit_field"@) is Some {
        lemma_same_mapping_at(m1, m2, "bit_field"@);
        if let Some(i1) = mapping_at(m1, "bit_field"@) {
            let i2 = mapping_at(m2, "bit_field"@).unwrap();
            lemma_same_get(i1@, i2@, "bit_start"@);
            if let Some(x) = map_get(i1@, "bit_start"@) { lemma_same_scalars(x, map_get(i2@, "bit_start"@).unwrap()); }
        }
    } else if map_get(m1@, "struct"@) is Some {
        lemma_same_scalars(map_get(m1@, "struct"@).unwrap(), map_get(m2@, "struct"@).unwrap());
    } else if map_get(m1@, "array"@) is Some {
        lemma_same_mapping_at(m1, m2, "array"@);
        if let Some(i1) = mapping_at(m1, "array"@) {
            let i2 = mapping_at(m2, "array"@).unwrap();
            lemma_same_get(i1@, i2@, "element_type"@);
            if let Some(e1) = map_get(i1@, "element_type"@) {
                let e2 = map_get(i2@, "element_type"@).unwrap();
                lemma_two_step(a, "array"@, "element_type"@);
                lemma_same_type(e1, e2);
                lemma_same_type_error(e1, e2);
            }
        }
    } else if map_get(m1@, "enum"@) is Some {
        lemma_same_mapping_at(m1, m2, "enum"@);
        if let Some(i1) = mapping_at(m1, "enum"@) {
            let i2 = mapping_at(m2, "enum"@).unwrap();
            lemma_same_str_at(i1, i2, "name"@);
            lemma_same_get(i1@, i2@, "underlying"@);
            if let Some(u1) = map_get(i1@, "underlying"@) {
                lemma_two_step(a, "enum"@, "underlying"@);
                lemma_same_type_error(u1, map_get(i2@, "underlying"@).unwrap());
            }
        }
    }
}

// ---------------------------------------------------------------------
// Putting parameter values into a YAML node.
// ---------------------------------------------------------------------

/// The index of the first entry whose key holds the same as `k`.
pub open spec fn view_key_index(acc: Seq<(YamlView, YamlView)>, k: YamlView) -> Option<int>
    decreases acc.len(),
{
    if acc.len() == 0 {
        None
    } else {
        match view_key_index(acc.drop_last(), k) {
            Some(j) => Some(j),
            None => if acc.last().0 == k { Some(acc.len() - 1) } else { None },
        }
    }
}

/// The entries with `k` set to `v`: the value of the first entry with that
/// key replaced, or the pair added at the end, as a YAML mapping inserts.
pub open spec fn view_insert(acc: Seq<(YamlView, YamlView)>, k: YamlView, v: YamlView) -> Seq<(YamlView, YamlView)> {
    match view_key_index(acc, k) {
        Some(j) => acc.update(j, (k, v)),
        None => acc.push((k, v)),
    }
}

/// The node with every string in it, keys included, given the parameters'
/// values (see `substitute_spec`); a mapping is rebuilt entry by entry.
pub open spec fn subst_view(w: YamlView, ps: Seq<(Seq<char>, YamlValue)>) -> YamlView
    decreases w, 1int, 0nat,
{
    match w {
        YamlView::Str(s) => YamlView::Str(substitute_spec(s, ps)),
        YamlView::List(items) => YamlView::List(Seq::new(items.len(), |i: int|
            if 0 <= i < items.len() { subst_view(items[i], ps) } else { YamlView::Null })),
        YamlView::Mapping(m) => YamlView::Mapping(subst_pairs(w, ps, m.len())),
        YamlView::Tagged(t, x) => YamlView::Tagged(t, Box::new(subst_view(*x, ps))),
        _ => w,
    }
}

/// The first `n` entries of a mapping node, each key and value given the
/// values, inserted in order.
pub open spec fn subst_pairs(w: YamlView, ps: Seq<(Seq<char>, YamlValue)>, n: nat) -> Seq<(YamlView, YamlView)>
    decreases w, 0int, n,
{
    match w {
        YamlView::Mapping(m) => if n == 0 || n > m.len() {
            Seq::empty()
        } else {
            view_insert(subst_pairs(w, ps, (n - 1) as nat), subst_view(m[n - 1].0, ps), subst_view(m[n - 1].1, ps))
        },
        _ => Seq::empty(),
    }
}

/// Whether two nodes hold the same.
fn view_eq(a: &YamlValue, b: &YamlValue) -> (r: bool)
    ensures
        r == (yview(*a) == yview(*b)),
    decreases a,
{
    match (a, b) {
        (YamlValue::Null, YamlValue::Null) => true,
        (YamlValue::Bool(x), YamlValue::Bool(y)) => *x == *y,
        (YamlValue::Int(i, t), YamlValue::Int(j, u)) => *i == *j && str_eq(t.as_str(), u.as_str()),
        (YamlValue::Float(t), YamlValue::Float(u)) => str_eq(t.as_str(), u.as_str()),
        (YamlValue::Str(s), YamlValue::Str(t)) => str_eq(s.as_str(), t.as_str()),
        (YamlValue::List(x), YamlValue::List(y)) => {
            let ghost vx = yview(*a)->List_0;
            let ghost vy = yview(*b)->List_0;
            if x.len() != y.len() {
                assert(vx.len() != vy.len());
                return false;
            }
            let mut i: usize = 0;
            while i < x.len()
                invariant
                    i <= x@.len(),
                    x@.len() == y@.len(),
                    vx == yview(*a)->List_0,
                    vy == yview(*b)->List_0,
                    *a == YamlValue::List(*x),
                    *b == YamlValue::List(*y),
                    forall|k: int| 0 <= k < i ==> vx[k] == vy[k],
                decreases x@.len() - i,
            {
                assert(vx[i as int] == yview(x@[i as int]));
                assert(vy[i as int] == yview(y@[i as int]));
                if !view_eq(&x[i], &y[i]) {
                    return false;
                }
                i = i + 1;
            }
            assert(vx =~= vy);
            true
        },
        (YamlValue::Mapping(x), YamlValue::Mapping(y)) => {
            proof {
                lemma_mapping_yview(*x);
                lemma_mapping_yview(*y);
            }
            let ghost vx = pairs_yview(x@);
            let ghost vy = pairs_yview(y@);
            if x.len() != y.len() {
                assert(vx.len() != vy.len());
                return false;
            }
            let mut i: usize = 0;
            while i < x.len()
                invariant
                    i <= x@.len(),
                    x@.len() == y@.len(),
                    vx == pairs_yview(x@),
                    vy == pairs_yview(y@),
                    *a == YamlValue::Mapping(*x),
                    yview(*a) == YamlView::Mapping(vx),
                    yview(*b) == YamlView::Mapping(vy),
                    forall|k: int| 0 <= k < i ==> vx[k] == vy[k],
                decreases x@.len() - i,
            {
                proof {
                    assert(decreases_to!(*a => *x));
                    assert(decreases_to!(*x => x@));
                    assert(decreases_to!(x@ => x@[i as int]));
                    assert(decreases_to!(x@[i as int] => x@[i as int].0));
                    assert(decreases_to!(x@[i as int] => x@[i as int].1));
                }
                let same = view_eq(&x[i].0, &y[i].0) && view_eq(&x[i].1, &y[i].1);
                if !same {
                    assert(vx[i as int] != vy[i as int]);
                    return false;
                }
                i = i + 1;
            }
            assert(vx =~= vy);
            true
        },
        (YamlValue::Tagged(t, x), YamlValue::Tagged(u, y)) => str_eq(t.as_str(), u.as_str()) && view_eq(x, y),
        _ => false,
    }
}

fn view_key_index_exec(acc: &Vec<(YamlValue, YamlValue)>, k: &YamlValue) -> (r: Option<usize>)
    ensures
        match view_key_index(pairs_yview(acc@), yview(*k)) {
            Some(j) => (r matches Some(q) && q as int == j && 0 <= j < acc@.len()),
            None => r is None,
        },
{
    let ghost pv = pairs_yview(acc@);
    let mut i: usize = 0;
    while i < acc.len()
        invariant
            i <= acc@.len(),
            pv == pairs_yview(acc@),
            view_key_index(pv.take(i as int), yview(*k)) is None,
        decreases acc@.len() - i,
    {
        assert(pv.take(i + 1).drop_last() =~= pv.take(i as int));
        assert(pv.take(i + 1).last() == pv[i as int]);
        if view_eq(&acc[i].0, k) {
            assert(view_key_index(pv.take(i + 1), yview(*k)) == Some(i as int));
            proof { lemma_view_key_prefix(pv, i + 1, yview(*k)); }
            return Some(i);
        }
        i = i + 1;
    }
    assert(pv.take(pv.len() as int) =~= pv);
    None
}

proof fn lemma_view_key_bounds(acc: Seq<(YamlView, YamlView)>, key: YamlView)
    ensures
        view_key_index(acc, key) matches Some(j) ==> 0 <= j < acc.len() && acc[j].0 == key,
    decreases acc.len(),
{
    if acc.len() > 0 {
        lemma_view_key_bounds(acc.drop_last(), key);
    }
}

proof fn lemma_view_key_prefix(acc: Seq<(YamlView, YamlView)>, k: int, key: YamlView)
    requires
        0 <= k <= acc.len(),
        view_key_index(acc.take(k), key) is Some,
    ensures
        view_key_index(acc, key) == view_key_index(acc.take(k), key),
    decreases acc.len(),
{
    if k < acc.len() {
        assert(acc.drop_last().take(k) =~= acc.take(k));
        lemma_view_key_prefix(acc.drop_last(), k, key);
    } else {
        assert(acc.take(k) =~= acc);
    }
}

/// The node with the parameters' values put into every string in it (see `subst_view`).
pub fn substitute_yaml_value(value: &YamlValue, params: &Vec<(&str, &YamlValue)>) -> (r: YamlValue)
    requires
        values_printable(params_view(params@)),
    ensures
        yview(r) == subst_view(yview(*value), params_view(params@)),
    decreases value,
{
    let ghost ps = params_view(params@);
    match value {
        YamlValue::Null => YamlValue::Null,
        YamlValue::Bool(b) => YamlValue::Bool(*b),
        YamlValue::Int(i, t) => YamlValue::Int(*i, t.clone()),
        YamlValue::Float(t) => YamlValue::Float(t.clone()),
        YamlValue::Str(s) => YamlValue::Str(substitute_string(s.as_str(), params)),
        YamlValue::List(items) => {
            let ghost vi = yview(*value)->List_0;
            let mut out: Vec<YamlValue> = Vec::new();
            let mut i: usize = 0;
            while i < items.len()
                invariant
                    i <= items@.len(),
                    ps == params_view(params@),
                    values_printable(ps),
                    vi == yview(*value)->List_0,
                    *value == YamlValue::List(*items),
                    out@.len() == i,
                    forall|k: int| 0 <= k < i ==> yview(#[trigger] out@[k]) == subst_view(vi[k], ps),
                decreases items@.len() - i,
            {
                assert(vi[i as int] == yview(items@[i as int]));
                let x = substitute_yaml_value(&items[i], params);
                out.push(x);
                i = i + 1;
            }
            let r = YamlValue::List(out);
            assert(yview(r)->List_0 =~= subst_view(yview(*value), ps)->List_0);
            r
        },
        YamlValue::Mapping(m) => {
            proof { lemma_mapping_yview(*m); }
            let ghost w = yview(*value);
            let mut out: Vec<(YamlValue, YamlValue)> = Vec::new();
            let mut i: usize = 0;
            assert(pairs_yview(out@) =~= subst_pairs(w, ps, 0));
            while i < m.len()
                invariant
                    i <= m@.len(),
                    ps == params_view(params@),
                    values_printable(ps),
                    w == yview(*value),
                    w == YamlView::Mapping(pairs_yview(m@)),
                    *value == YamlValue::Mapping(*m),
                    pairs_yview(out@) == subst_pairs(w, ps, i as nat),
                decreases m@.len() - i,
            {
                proof {
                    assert(decreases_to!(*value => m@[i as int].0));
                    assert(decreases_to!(*value => m@[i as int].1));
                }
                let k = substitute_yaml_value(&m[i].0, params);
                let v = substitute_yaml_value(&m[i].1, params);
                let ghost before = pairs_yview(out@);
                assert(pairs_yview(m@)[i as int] == (yview(m@[i as int].0), yview(m@[i as int].1)));
                proof { lemma_view_key_bounds(before, yview(k)); }
                match view_key_index_exec(&out, &k) {
                    Some(j) => {
                        assert(before[j as int].0 == yview(out@[j as int].0));
                        let (ok, _old) = out.remove(j);
                        assert(yview(ok) == yview(k));
                        out.insert(j, (ok, v));
                        assert(pairs_yview(out@) =~= before.update(j as int, (yview(k), yview(v))));
                    },
                    None => {
                        out.push((k, v));
                        assert(pairs_yview(out@) =~= before.push((yview(k), yview(v))));
                    },
                }
                i = i + 1;
            }
            let r = YamlValue::Mapping(out);
            proof { lemma_mapping_yview(out); }
            r
        },
        YamlValue::Tagged(t, x) => {
            let inner = substitute_yaml_value(x, params);
            YamlValue::Tagged(t.clone(), Box::new(inner))
        },
    }
}

// ---------------------------------------------------------------------
// Instantiating fields, structs and the whole template.
// ---------------------------------------------------------------------

/// The type that a field's type node describes once the values are put in
/// (see `subst_view`; nodes that hold the same describe the same type).
pub open spec fn type_after(node: YamlValue, ps: Seq<(Seq<char>, YamlValue)>) -> Option<TypeDesc> {
    type_view(choose|n: YamlValue| yview(n) == subst_view(yview(node), ps))
}

/// Why a field's type node, once the values are put in, describes no type.
pub open spec fn type_error_after(node: YamlValue, ps: Seq<(Seq<char>, YamlValue)>) -> Seq<char> {
    data_type_error(choose|n: YamlValue| yview(n) == subst_view(yview(node), ps))
}

pub open spec fn opt_subst(s: Option<String>, ps: Seq<(Seq<char>, YamlValue)>) -> Option<Seq<char>> {
    match s {
        Some(t) => Some(substitute_spec(t@, ps)),
        None => None,
    }
}

/// Why a template could not be instantiated: a condition or count failed
/// with this message, or a field's type does not describe a type and the
/// template is refused with this message.
pub enum InstFailure {
    Expression(Seq<char>),
    DataType(Seq<char>),
}

/// The text that starts the message of a type that cannot be instantiated.
pub open spec fn type_failure_prefix() -> Seq<char> {
    "数据类型实例化失败: "@
}

pub open spec fn inst_error_matches(f: InstFailure, e: TemplateError) -> bool {
    match f {
        InstFailure::Expression(m) => (e matches TemplateError::ExpressionError(x) && x@ == m),
        InstFailure::DataType(m) => (e matches TemplateError::TemplateDefinitionError(x) && x@ == m),
    }
}

/// A field of the template under the name `name`, with the values put into
/// its name, offset, type and description.
pub open spec fn field_after(tf: TemplateField, name: Seq<char>, ps: Seq<(Seq<char>, YamlValue)>) -> Result<FieldDesc, InstFailure> {
    match type_after(tf.data_type, ps) {
        Some(t) => Ok(FieldDesc {
            name: substitute_spec(name, ps),
            offset: opt_subst(tf.offset, ps),
            data_type: t,
            endian: tf.endian,
            display_format: tf.display_format,
            condition: match tf.condition { Some(c) => Some(c.expression@), None => None },
            checksum: match tf.checksum { Some(c) => Some((c.algorithm@, c.start@, c.end@)), None => None },
            description: opt_subst(tf.description, ps),
        }),
        None => Err(InstFailure::DataType(type_failure_prefix() + type_error_after(tf.data_type, ps))),
    }
}

/// The name of the `i`-th copy of a repeated field.
pub open spec fn repeat_name(name: Seq<char>, i: nat) -> Seq<char> {
    name + "_"@ + dec_str(i)
}

/// The first `n` copies of a repeated field.
pub open spec fn copies_after(tf: TemplateField, ps: Seq<(Seq<char>, YamlValue)>, n: nat) -> Result<Seq<FieldDesc>, InstFailure>
    decreases n,
{
    if n == 0 {
        Ok(Seq::empty())
    } else {
        match copies_after(tf, ps, (n - 1) as nat) {
            Err(e) => Err(e),
            Ok(fs) => match field_after(tf, repeat_name(tf.name@, (n - 1) as nat), ps) {
                Ok(f) => Ok(fs.push(f)),
                Err(e) => Err(e),
            },
        }
    }
}

/// What one template field becomes: nothing where its condition is false,
/// its copies where it repeats, else itself.
pub open spec fn one_field_after(tf: TemplateField, ps: Seq<(Seq<char>, YamlValue)>) -> Result<Seq<FieldDesc>, InstFailure> {
    let kept = match tf.template_when {
        Some(e) => match when_spec(e@, ps) {
            Err(m) => Err(InstFailure::Expression(m)),
            Ok(b) => Ok(b),
        },
        None => Ok(true),
    };
    match kept {
        Err(x) => Err(x),
        Ok(false) => Ok(Seq::empty()),
        Ok(true) => match tf.template_repeat {
            Some(e) => match repeat_spec(e@, ps) {
                Err(m) => Err(InstFailure::Expression(m)),
                Ok(c) => copies_after(tf, ps, c as nat),
            },
            None => match field_after(tf, tf.name@, ps) {
                Ok(f) => Ok(seq![f]),
                Err(x) => Err(x),
            },
        },
    }
}

/// The fields that the first `n` template fields become, in order.
pub open spec fn fields_after(fs: Seq<TemplateField>, ps: Seq<(Seq<char>, YamlValue)>, n: nat) -> Result<Seq<FieldDesc>, InstFailure>
    decreases n,
{
    if n == 0 || n > fs.len() {
        Ok(Seq::empty())
    } else {
        match fields_after(fs, ps, (n - 1) as nat) {
            Err(e) => Err(e),
            Ok(done) => match one_field_after(fs[n - 1], ps) {
                Ok(more) => Ok(done + more),
                Err(e) => Err(e),
            },
        }
    }
}

/// The offset a template field's offset becomes: every placeholder of a
/// parameter replaced by the parameter's value.
pub open spec fn offset_matches(out: FieldDesc, tf: TemplateField, ps: Seq<(Seq<char>, YamlValue)>) -> bool {
    match tf.offset {
        Some(o) => out.offset == Some(substitute_spec(o@, ps)),
        None => out.offset is None,
    }
}

proof fn lemma_copies_offsets(tf: TemplateField, ps: Seq<(Seq<char>, YamlValue)>, n: nat)
    ensures
        copies_after(tf, ps, n) matches Ok(out) ==> forall|i: int| 0 <= i < out.len() ==> offset_matches(#[trigger] out[i], tf, ps),
    decreases n,
{
    if n > 0 {
        lemma_copies_offsets(tf, ps, (n - 1) as nat);
    }
}

/// Every field of an instantiated struct has the offset of a field of the
/// template struct, with the parameters' values put into it: an offset written
/// `${name}` reads, once instantiated, as the value of parameter `name`.
pub proof fn lemma_fields_offsets(fs: Seq<TemplateField>, ps: Seq<(Seq<char>, YamlValue)>, n: nat)
    ensures
        fields_after(fs, ps, n) matches Ok(out) ==> forall|i: int| 0 <= i < out.len()
            ==> exists|j: int| 0 <= j < fs.len() && offset_matches(#[trigger] out[i], fs[j], ps),
    decreases n,
{
    if n > 0 && n <= fs.len() {
        lemma_fields_offsets(fs, ps, (n - 1) as nat);
        let tf = fs[n - 1];
        if let Some(t) = tf.template_repeat {
            if let Ok(c) = repeat_spec(t@, ps) {
                lemma_copies_offsets(tf, ps, c as nat);
            }
        }
        if let Ok(out) = fields_after(fs, ps, n) {
            let done = fields_after(fs, ps, (n - 1) as nat)->Ok_0;
            let more = one_field_after(tf, ps)->Ok_0;
            assert(out == done + more);
            assert forall|i: int| 0 <= i < out.len() implies exists|j: int| 0 <= j < fs.len() && offset_matches(#[trigger] out[i], fs[j], ps) by {
                if i < done.len() {
                    assert(out[i] == done[i]);
                } else {
                    assert(out[i] == more[i - done.len()]);
                    assert(offset_matches(more[i - done.len()], tf, ps));
                }
            }
        }
    }
}

proof fn lemma_replace_whole(p: Seq<char>, r: Seq<char>)
    requires
        p.len() > 0,
    ensures
        replace_all(p, p, r) == r,
{
    assert(p.subrange(0, p.len() as int) =~= p);
    assert(p.subrange(p.len() as int, p.len() as int).len() == 0);
    assert(replace_all(p.subrange(p.len() as int, p.len() as int), p, r) == Seq::<char>::empty());
    assert(r + Seq::<char>::empty() =~= r);
}

/// A field whose offset is just the placeholder `${name}` of the one
/// parameter `name` is instantiated with that parameter's value as its offset.
pub proof fn lemma_placeholder_offset(tf: TemplateField, fname: Seq<char>, name: Seq<char>, v: YamlValue)
    requires
        tf.offset matches Some(o) && o@ == placeholder(name),
    ensures
        field_after(tf, fname, seq![(name, v)]) matches Ok(f) ==> f.offset == Some(value_text(v)),
{
    let ps = seq![(name, v)];
    lemma_replace_whole(placeholder(name), value_text(v));
    assert(ps.drop_last() =~= Seq::<(Seq<char>, YamlValue)>::empty());
    assert(ps.last() == (name, v));
    let o = tf.offset.unwrap();
    assert(substitute_with(o@, ps.drop_last(), |x: YamlValue| value_text(x)) == o@);
    assert(substitute_spec(o@, ps) == replace_all(o@, placeholder(name), value_text(v)));
}

/// A struct of the template with the values put in.
pub open spec fn struct_after(ts: TemplateStructDefinition, ps: Seq<(Seq<char>, YamlValue)>) -> Result<StructDesc, InstFailure> {
    match fields_after(ts.fields@, ps, ts.fields@.len()) {
        Ok(fs) => Ok(StructDesc { name: substitute_spec(ts.name@, ps), magic: bytes_view(ts.magic), fields: fs }),
        Err(e) => Err(e),
    }
}

/// The first `n` structs of the template with the values put in.
pub open spec fn structs_after(ss: Seq<TemplateStructDefinition>, ps: Seq<(Seq<char>, YamlValue)>, n: nat)
    -> Result<Seq<StructDesc>, InstFailure>
    decreases n,
{
    if n == 0 || n > ss.len() {
        Ok(Seq::empty())
    } else {
        match structs_after(ss, ps, (n - 1) as nat) {
            Err(e) => Err(e),
            Ok(done) => match struct_after(ss[n - 1], ps) {
                Ok(x) => Ok(done.push(x)),
                Err(e) => Err(e),
            },
        }
    }
}

/// Why instantiating failed: a parameter got no value, or the definition
/// could not be built.
pub enum InstantiateFailure {
    Resolve(ResolveFailure),
    Build(InstFailure),
}

/// The definition a template and the values given for its parameters make:
/// the root first, then the other structs, with the values put in; the magic
/// and enums as they are.
pub open spec fn instantiate_spec(t: TemplateDefinition, inst: Seq<(String, YamlValue)>) -> Result<FormatDesc, InstantiateFailure> {
    match resolve_spec(params_of(t), inst, params_of(t).len()) {
        Err(f) => Err(InstantiateFailure::Resolve(f)),
        Ok(ps) => match struct_after(t.root, ps) {
            Err(e) => Err(InstantiateFailure::Build(e)),
            Ok(root) => match structs_after(t.structs@, ps, t.structs@.len()) {
                Err(e) => Err(InstantiateFailure::Build(e)),
                Ok(ss) => Ok(FormatDesc {
                    name: substitute_spec(t.name@, ps),
                    magic: bytes_view(t.magic),
                    enums: enums_desc(t.enums@),
                    structs: ss,
                    root,
                }),
            },
        },
    }
}

/// Every field of the root of an instantiated template has the offset of a
/// root field of the template with the resolved parameters' values put in.
pub proof fn lemma_instantiated_offsets(t: TemplateDefinition, inst: Seq<(String, YamlValue)>)
    ensures
        instantiate_spec(t, inst) matches Ok(d) ==> (resolve_spec(params_of(t), inst, params_of(t).len()) matches Ok(ps)
            && forall|i: int| 0 <= i < d.root.fields.len() ==> exists|j: int| 0 <= j < t.root.fields@.len()
                && offset_matches(#[trigger] d.root.fields[i], t.root.fields@[j], ps)),
{
    if let Ok(ps) = resolve_spec(params_of(t), inst, params_of(t).len()) {
        lemma_fields_offsets(t.root.fields@, ps, t.root.fields@.len());
    }
}

/// The type a field's type node describes once the values are put in.
pub fn instantiate_data_type(yaml_value: &YamlValue, params: &Vec<(&str, &YamlValue)>) -> (r: Result<DataType, TemplateError>)
    requires
        values_printable(params_view(params@)),
    ensures
        match type_after(*yaml_value, params_view(params@)) {
            Some(t) => (r matches Ok(dt) && type_desc(dt) == t),
            None => (r matches Err(e) && inst_error_matches(
                InstFailure::DataType(type_failure_prefix() + type_error_after(*yaml_value, params_view(params@))), e)),
        },
{
    let ghost ps = params_view(params@);
    let substituted = substitute_yaml_value(yaml_value, params);
    proof {
        let c = choose|n: YamlValue| yview(n) == subst_view(yview(*yaml_value), ps);
        assert(yview(c) == subst_view(yview(*yaml_value), ps));
        lemma_same_type(substituted, c);
        lemma_same_type_error(substituted, c);
    }
    match DataType::from_yaml_value(&substituted) {
        Ok(dt) => Ok(dt),
        Err(e) => {
            let mut m = owned("数据类型实例化失败: ");
            push_str(&mut m, e.as_str());
            proof { reveal_strlit("数据类型实例化失败: "); }
            Err(TemplateError::TemplateDefinitionError(m))
        },
    }
}

fn copy_condition(c: &Option<Condition>) -> (r: Option<Condition>)
    ensures
        match *c { Some(x) => (r matches Some(y) && y.expression@ == x.expression@), None => r is None },
{
    match c {
        Some(x) => Some(Condition { expression: x.expression.clone() }),
        None => None,
    }
}

fn copy_checksum(c: &Option<ChecksumField>) -> (r: Option<ChecksumField>)
    ensures
        match *c {
            Some(x) => (r matches Some(y) && y.algorithm@ == x.algorithm@ && y.start@ == x.start@ && y.end@ == x.end@),
            None => r is None,
        },
{
    match c {
        Some(x) => Some(ChecksumField { algorithm: x.algorithm.clone(), start: x.start.clone(), end: x.end.clone() }),
        None => None,
    }
}

fn subst_opt(s: &Option<String>, params: &Vec<(&str, &YamlValue)>) -> (r: Option<String>)
    requires
        values_printable(params_view(params@)),
    ensures
        match r { Some(x) => Some(x@), None => None::<Seq<char>> } == opt_subst(*s, params_view(params@)),
{
    match s {
        Some(t) => Some(substitute_string(t.as_str(), params)),
        None => None,
    }
}

/// A template field under `name`, with the values put in.
fn instantiate_field(tf: &TemplateField, name: &str, params: &Vec<(&str, &YamlValue)>) -> (r: Result<Field, TemplateError>)
    requires
        values_printable(params_view(params@)),
    ensures
        match field_after(*tf, name@, params_view(params@)) {
            Ok(f) => (r matches Ok(x) && field_desc(x) == f),
            Err(e) => (r matches Err(x) && inst_error_matches(e, x)),
        },
{
    let data_type = match instantiate_data_type(&tf.data_type, params) {
        Ok(dt) => dt,
        Err(e) => return Err(e),
    };
    let f = Field {
        name: substitute_string(name, params),
        offset: subst_opt(&tf.offset, params),
        data_type,
        endian: tf.endian,
        display_format: tf.display_format,
        condition: copy_condition(&tf.condition),
        checksum: copy_checksum(&tf.checksum),
        description: subst_opt(&tf.description, params),
    };
    Ok(f)
}

proof fn lemma_fields_err(fs: Seq<TemplateField>, ps: Seq<(Seq<char>, YamlValue)>, k: nat, n: nat)
    requires
        k <= n <= fs.len(),
        fields_after(fs, ps, k) is Err,
    ensures
        fields_after(fs, ps, n) == fields_after(fs, ps, k),
    decreases n,
{
    if n > k {
        lemma_fields_err(fs, ps, k, (n - 1) as nat);
    }
}

proof fn lemma_copies_err(tf: TemplateField, ps: Seq<(Seq<char>, YamlValue)>, k: nat, n: nat)
    requires
        k <= n,
        copies_after(tf, ps, k) is Err,
    ensures
        copies_after(tf, ps, n) == copies_after(tf, ps, k),
    decreases n,
{
    if n > k {
        lemma_copies_err(tf, ps, k, (n - 1) as nat);
    }
}

proof fn lemma_structs_err(ss: Seq<TemplateStructDefinition>, ps: Seq<(Seq<char>, YamlValue)>, k: nat, n: nat)
    requires
        k <= n <= ss.len(),
        structs_after(ss, ps, k) is Err,
    ensures
        structs_after(ss, ps, n) == structs_after(ss, ps, k),
    decreases n,
{
    if n > k {
        lemma_structs_err(ss, ps, k, (n - 1) as nat);
    }
}

/// The copies of a repeated field, added to `out`.
fn push_copies(tf: &TemplateField, count: usize, params: &Vec<(&str, &YamlValue)>, out: &mut Vec<Field>)
    -> (r: Result<(), TemplateError>)
    requires
        values_printable(params_view(params@)),
    ensures
        match copies_after(*tf, params_view(params@), count as nat) {
            Ok(cs) => r is Ok && fields_desc(final(out)@) == fields_desc(old(out)@) + cs,
            Err(e) => (r matches Err(x) && inst_error_matches(e, x)),
        },
{
    let ghost ps = params_view(params@);
    let ghost base = fields_desc(out@);
    let mut j: usize = 0;
    assert(fields_desc(out@) =~= base + Seq::<FieldDesc>::empty());
    while j < count
        invariant
            j <= count,
            ps == params_view(params@),
            values_printable(ps),
            base == fields_desc(old(out)@),
            copies_after(*tf, ps, j as nat) matches Ok(cs) && fields_desc(out@) == base + cs,
        decreases count - j,
    {
        let mut name = tf.name.clone();
        push_str(&mut name, "_");
        push_dec(&mut name, j as u64);
        proof { reveal_strlit("_"); }
        assert(name@ =~= repeat_name(tf.name@, j as nat));
        let ghost before = fields_desc(out@);
        match instantiate_field(tf, name.as_str(), params) {
            Ok(f) => {
                out.push(f);
                assert(fields_desc(out@) =~= before.push(field_desc(f)));
            },
            Err(e) => {
                proof { lemma_copies_err(*tf, ps, (j + 1) as nat, count as nat); }
                return Err(e);
            },
        }
        j = j + 1;
    }
    Ok(())
}

/// A struct of the template with the values put in.
pub fn instantiate_struct(template_struct: &TemplateStructDefinition, params: &Vec<(&str, &YamlValue)>)
    -> (r: Result<StructDefinition, TemplateError>)
    requires
        values_printable(params_view(params@)),
    ensures
        match struct_after(*template_struct, params_view(params@)) {
            Ok(sd) => (r matches Ok(x) && struct_desc(x) == sd),
            Err(e) => (r matches Err(x) && inst_error_matches(e, x)),
        },
{
    let ghost ps = params_view(params@);
    let ghost tfs = template_struct.fields@;
    let mut fields: Vec<Field> = Vec::new();
    let mut i: usize = 0;
    assert(fields_desc(fields@) =~= Seq::<FieldDesc>::empty());
    while i < template_struct.fields.len()
        invariant
            i <= tfs.len(),
            tfs == template_struct.fields@,
            ps == params_view(params@),
            values_printable(ps),
            fields_after(tfs, ps, i as nat) == Ok::<Seq<FieldDesc>, InstFailure>(fields_desc(fields@)),
        decreases tfs.len() - i,
    {
        let tf = &template_struct.fields[i];
        assert(tfs[i as int] == *tf);
        let ghost before = fields_desc(fields@);
        let kept = match &tf.template_when {
            Some(e) => match evaluate_template_when(e.as_str(), params) {
                Ok(b) => b,
                Err(x) => {
                    proof { lemma_fields_err(tfs, ps, (i + 1) as nat, tfs.len()); }
                    return Err(x);
                },
            },
            None => true,
        };
        if kept {
            match &tf.template_repeat {
                Some(e) => {
                    let count = match resolve_repeat_count(e.as_str(), params) {
                        Ok(c) => c,
                        Err(x) => {
                            proof { lemma_fields_err(tfs, ps, (i + 1) as nat, tfs.len()); }
                            return Err(x);
                        },
                    };
                    match push_copies(tf, count, params, &mut fields) {
                        Ok(()) => {},
                        Err(x) => {
                            proof { lemma_fields_err(tfs, ps, (i + 1) as nat, tfs.len()); }
                            return Err(x);
                        },
                    }
                },
                None => {
                    match instantiate_field(tf, tf.name.as_str(), params) {
                        Ok(f) => {
                            fields.push(f);
                            assert(fields_desc(fields@) =~= before + seq![field_desc(f)]);
                        },
                        Err(x) => {
                            proof { lemma_fields_err(tfs, ps, (i + 1) as nat, tfs.len()); }
                            return Err(x);
                        },
                    }
                },
            }
        } else {
            assert(before + Seq::<FieldDesc>::empty() =~= before);
        }
        i = i + 1;
    }
    let name = substitute_string(template_struct.name.as_str(), params);
    let magic = copy_opt_bytes(&template_struct.magic);
    let r = StructDefinition { name, magic, fields };
    assert(struct_desc(r).fields == fields_desc(r.fields@));
    Ok(r)
}

fn copy_opt_bytes(m: &Option<Vec<u8>>) -> (r: Option<Vec<u8>>)
    ensures
        bytes_view(r) == bytes_view(*m),
{
    match m {
        Some(v) => {
            let mut out: Vec<u8> = Vec::new();
            let mut i: usize = 0;
            while i < v.len()
                invariant
                    i <= v@.len(),
                    out@ == v@.take(i as int),
                decreases v@.len() - i,
            {
                out.push(v[i]);
                i = i + 1;
                assert(out@ =~= v@.take(i as int));
            }
            assert(v@.take(v@.len() as int) =~= v@);
            Some(out)
        },
        None => None,
    }
}

fn copy_enums(es: &Vec<EnumDefinition>) -> (r: Vec<EnumDefinition>)
    ensures
        enums_desc(r@) == enums_desc(es@),
{
    let mut out: Vec<EnumDefinition> = Vec::new();
    let mut i: usize = 0;
    while i < es.len()
        invariant
            i <= es@.len(),
            enums_desc(out@) == enums_desc(es@.take(i as int)),
        decreases es@.len() - i,
    {
        let e = &es[i];
        let mut values: Vec<(String, i64)> = Vec::new();
        let mut k: usize = 0;
        while k < e.values.len()
            invariant
                k <= e.values@.len(),
                pairs_desc(values@) == pairs_desc(e.values@.take(k as int)),
            decreases e.values@.len() - k,
        {
            let ghost b = values@;
            let key = e.values[k].0.clone();
            values.push((key, e.values[k].1));
            assert(e.values@.take(k + 1) =~= e.values@.take(k as int).push(e.values@[k as int]));
            assert(pairs_desc(values@) =~= pairs_desc(b).push((key@, e.values@[k as int].1)));
            assert(pairs_desc(values@) =~= pairs_desc(e.values@.take(k + 1)));
            k = k + 1;
        }
        assert(e.values@.take(e.values@.len() as int) =~= e.values@);
        let ghost before = out@;
        let ed = EnumDefinition { name: e.name.clone(), values };
        assert(crate::dsl::enum_desc(ed) == crate::dsl::enum_desc(*e));
        out.push(ed);
        assert(es@.take(i + 1) =~= es@.take(i as int).push(es@[i as int]));
        assert(enums_desc(out@) =~= enums_desc(before).push(crate::dsl::enum_desc(ed)));
        assert(enums_desc(out@) =~= enums_desc(es@.take(i + 1)));
        i = i + 1;
    }
    assert(es@.take(es@.len() as int) =~= es@);
    out
}

proof fn lemma_resolved_printable(ps: Seq<crate::template::TemplateParameter>, inst: Seq<(String, YamlValue)>, n: nat)
    requires
        instance_printable(ps, inst),
        n <= ps.len(),
    ensures
        resolve_spec(ps, inst, n) matches Ok(vs) ==> values_printable(vs),
    decreases n,
{
    if n > 0 {
        lemma_resolved_printable(ps, inst, (n - 1) as nat);
        lemma_given_bounds(inst, ps[n - 1].name@);
        assert(match ps[n - 1].default { Some(v) => tags_nonempty(v), None => true });
    }
}

impl TemplateDefinition {
    /// The definition this template makes with the values given for its
    /// parameters (see `instantiate_spec`).
    pub fn instantiate(&self, instance_params: &Vec<(String, YamlValue)>) -> (r: Result<FormatDefinition, TemplateError>)
        requires
            instance_printable(params_of(*self), instance_params@),
        ensures
            match instantiate_spec(*self, instance_params@) {
                Ok(d) => (r matches Ok(x) && format_desc(x) == d),
                Err(InstantiateFailure::Resolve(f)) => (r matches Err(e) && resolve_error_matches(f, e)),
                Err(InstantiateFailure::Build(f)) => (r matches Err(e) && inst_error_matches(f, e)),
            },
    {
        proof { lemma_resolved_printable(params_of(*self), instance_params@, params_of(*self).len()); }
        let resolved = match self.resolve_parameters(instance_params) {
            Ok(v) => v,
            Err(e) => return Err(e),
        };
        let ghost ps = params_view(resolved@);
        let root = match instantiate_struct(&self.root, &resolved) {
            Ok(s) => s,
            Err(e) => return Err(e),
        };
        let ghost sts = self.structs@;
        let mut structs: Vec<StructDefinition> = Vec::new();
        let mut i: usize = 0;
        assert(structs_desc(structs@) =~= Seq::<StructDesc>::empty());
        while i < self.structs.len()
            invariant
                i <= sts.len(),
                sts == self.structs@,
                ps == params_view(resolved@),
                values_printable(ps),
                resolve_spec(params_of(*self), instance_params@, params_of(*self).len())
                    == Ok::<Seq<(Seq<char>, YamlValue)>, ResolveFailure>(ps),
                struct_after(self.root, ps) == Ok::<StructDesc, InstFailure>(struct_desc(root)),
                structs_after(sts, ps, i as nat) == Ok::<Seq<StructDesc>, InstFailure>(structs_desc(structs@)),
            decreases sts.len() - i,
        {
            assert(sts[i as int] == self.structs@[i as int]);
            match instantiate_struct(&self.structs[i], &resolved) {
                Ok(s) => {
                    let ghost before = structs@;
                    structs.push(s);
                    assert(structs_desc(structs@) =~= structs_desc(before).push(struct_desc(s)));
                },
                Err(e) => {
                    proof { lemma_structs_err(sts, ps, (i + 1) as nat, sts.len()); }
                    return Err(e);
                },
            }
            i = i + 1;
        }
        let name = substitute_string(self.name.as_str(), &resolved);
        let magic = copy_opt_bytes(&self.magic);
        let enums = copy_enums(&self.enums);
        Ok(FormatDefinition { name, magic, enums, structs, root })
    }
}

} // verus!
