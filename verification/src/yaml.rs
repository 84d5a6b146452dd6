use vstd::prelude::*;
use serde_yaml::Value;

verus! {

/// A YAML document tree, as plain values.
#[derive(Debug, PartialEq)]
pub enum YamlValue {
    Null,
    Bool(bool),
    /// An integer scalar, with the text `serde_yaml` prints for it.
    Int(i128, String),
    /// A number that is not an integer, with its text.
    Float(String),
    Str(String),
    List(Vec<YamlValue>),
    /// Key/value pairs in document order.
    Mapping(Vec<(YamlValue, YamlValue)>),
    /// A value carrying an explicit `!tag`.
    Tagged(String, Box<YamlValue>),
}

/// `serde_yaml`'s document tree, carried through opaquely.
#[verifier::external_type_specification]
#[verifier::external_body]
pub struct ExOutsideYamlValue(Value);

/// `serde_yaml`'s number, carried through opaquely.
#[verifier::external_type_specification]
#[verifier::external_body]
pub struct ExOutsideYamlNumber(serde_yaml::Number);

/// The tree that `serde_yaml` reads from `text`, or its error message.
pub uninterp spec fn yaml_document(text: Seq<char>) -> Result<YamlValue, String>;

/// Whether no tag in the node is empty (`serde_yaml` cannot hold an empty tag).
pub open spec fn tags_nonempty(v: YamlValue) -> bool
    decreases v,
{
    match v {
        YamlValue::List(items) => forall|i: int| 0 <= i < items@.len() ==> tags_nonempty(#[trigger] items@[i]),
        YamlValue::Mapping(m) => forall|i: int| 0 <= i < m@.len() ==> tags_nonempty((#[trigger] m@[i]).0) && tags_nonempty(m@[i].1),
        YamlValue::Tagged(t, inner) => t@.len() > 0 && tags_nonempty(*inner),
        _ => true,
    }
}

/// Parses `text` with `serde_yaml::from_str::<serde_yaml::Value>` and copies the
/// resulting tree into a `YamlValue`. The contract names the result: it is taken
/// to be a function of the text alone. Every tag of the tree is copied from the
/// `Display` of `serde_yaml::value::Tag`, which writes `!` before the name, so
/// no tag is empty.
#[verifier::external_body]
pub fn parse_yaml(text: &str) -> (r: Result<YamlValue, String>)
    ensures
        r == yaml_document(text@),
        r matches Ok(v) ==> tags_nonempty(v),
{
    match serde_yaml::from_str::<Value>(text) {
        Ok(v) => Ok(yaml_copy(&v)),
        Err(e) => Err(e.to_string()),
    }
}

/// Copies a `serde_yaml::Number`; used only by `yaml_copy`.
#[verifier::external_body]
fn number_copy(n: &serde_yaml::Number) -> YamlValue {
    match n.as_i64().map(i128::from).or(n.as_u64().map(i128::from)) {
        Some(i) => YamlValue::Int(i, n.to_string()),
        None => YamlValue::Float(n.to_string()),
    }
}

/// Copies a `serde_yaml::Value` node by node; used only by `parse_yaml`.
#[verifier::external_body]
fn yaml_copy(v: &Value) -> YamlValue {
    match v {
        Value::Null => YamlValue::Null,
        Value::Bool(b) => YamlValue::Bool(*b),
        Value::Number(n) => number_copy(n),
        Value::String(s) => YamlValue::Str(s.clone()),
        Value::Sequence(items) => YamlValue::List(items.iter().map(yaml_copy).collect()),
        Value::Mapping(m) => YamlValue::Mapping(m.iter().map(|(k, x)| (yaml_copy(k), yaml_copy(x))).collect()),
        Value::Tagged(t) => YamlValue::Tagged(t.tag.to_string(), Box::new(yaml_copy(&t.value))),
    }
}

} // verus!

verus! {

/// Whether no tag in the node is empty.
pub fn tags_ok(v: &YamlValue) -> (r: bool)
    ensures
        r == tags_nonempty(*v),
    decreases v,
{
    match v {
        YamlValue::List(items) => {
            let mut i: usize = 0;
            while i < items.len()
                invariant
                    *v == YamlValue::List(*items),
                    i <= items@.len(),
                    forall|j: int| 0 <= j < i ==> tags_nonempty(#[trigger] items@[j]),
                decreases items@.len() - i,
            {
                proof {
                    assert(*items == v->List_0);
                    assert(decreases_to!(*v => v->List_0));
                    assert(decreases_to!(*items => items@));
                    assert(decreases_to!(items@ => items@[i as int]));
                }
                if !tags_ok(&items[i]) {
                    assert(!tags_nonempty(items@[i as int]));
                    return false;
                }
                i = i + 1;
            }
            true
        },
        YamlValue::Mapping(m) => {
            let mut i: usize = 0;
            while i < m.len()
                invariant
                    *v == YamlValue::Mapping(*m),
                    i <= m@.len(),
                    forall|j: int| 0 <= j < i ==> tags_nonempty((#[trigger] m@[j]).0) && tags_nonempty(m@[j].1),
                decreases m@.len() - i,
            {
                proof {
                    assert(*m == v->Mapping_0);
                    assert(decreases_to!(*v => v->Mapping_0));
                    assert(decreases_to!(*m => m@));
                    assert(decreases_to!(m@ => m@[i as int]));
                    assert(decreases_to!(m@[i as int] => m@[i as int].0));
                    assert(decreases_to!(m@[i as int] => m@[i as int].1));
                }
                let ok = tags_ok(&m[i].0) && tags_ok(&m[i].1);
                if !ok {
                    assert(!(tags_nonempty(m@[i as int].0) && tags_nonempty(m@[i as int].1)));
                    return false;
                }
                i = i + 1;
            }
            true
        },
        YamlValue::Tagged(t, inner) => crate::text::chars_of(t.as_str()).len() > 0 && tags_ok(inner),
        _ => true,
    }
}

/// The node with any explicit tags removed.
pub open spec fn untag(v: YamlValue) -> YamlValue
    decreases v,
{
    match v {
        YamlValue::Tagged(_, inner) => untag(*inner),
        _ => v,
    }
}

pub open spec fn as_str(v: YamlValue) -> Option<String> {
    match untag(v) {
        YamlValue::Str(s) => Some(s),
        _ => None,
    }
}

pub open spec fn as_u64(v: YamlValue) -> Option<u64> {
    match untag(v) {
        YamlValue::Int(i, _) => if 0 <= i <= u64::MAX { Some(i as u64) } else { None },
        _ => None,
    }
}

pub open spec fn as_mapping(v: YamlValue) -> Option<Vec<(YamlValue, YamlValue)>> {
    match untag(v) {
        YamlValue::Mapping(m) => Some(m),
        _ => None,
    }
}

/// Whether a mapping key is the plain string `key`.
pub open spec fn key_is(k: YamlValue, key: Seq<char>) -> bool {
    k matches YamlValue::Str(s) && s@ == key
}

/// The index of the first entry whose key is the string `key`.
pub open spec fn find_key(m: Seq<(YamlValue, YamlValue)>, key: Seq<char>) -> Option<int>
    decreases m.len(),
{
    if m.len() == 0 {
        None
    } else {
        match find_key(m.drop_last(), key) {
            Some(i) => Some(i),
            None => if key_is(m.last().0, key) { Some(m.len() - 1) } else { None },
        }
    }
}

/// The value stored under the string key `key`.
pub open spec fn map_get(m: Seq<(YamlValue, YamlValue)>, key: Seq<char>) -> Option<YamlValue> {
    match find_key(m, key) {
        Some(i) => Some(m[i].1),
        None => None,
    }
}

pub proof fn lemma_find_key_bounds(m: Seq<(YamlValue, YamlValue)>, key: Seq<char>)
    ensures
        find_key(m, key) matches Some(i) ==> 0 <= i < m.len() && key_is(m[i].0, key),
        find_key(m, key) is None ==> forall|j: int| 0 <= j < m.len() ==> !key_is(#[trigger] m[j].0, key),
        find_key(m, key) matches Some(i) ==> forall|j: int| 0 <= j < i ==> !key_is(#[trigger] m[j].0, key),
    decreases m.len(),
{
    if m.len() > 0 {
        lemma_find_key_bounds(m.drop_last(), key);
        assert forall|j: int| 0 <= j < m.len() - 1 implies m.drop_last()[j] == m[j] by {}
    }
}

pub proof fn lemma_untag_smaller(v: YamlValue)
    ensures
        untag(v) == v || decreases_to!(v => untag(v)),
    decreases v,
{
    if let YamlValue::Tagged(t, inner) = v {
        lemma_untag_smaller(*inner);
    }
}

/// A value found under a key of a node's mapping is smaller than the node.
pub proof fn lemma_lookup_smaller(v: YamlValue, key: Seq<char>)
    ensures
        as_mapping(v) matches Some(m) ==> (map_get(m@, key) matches Some(x) ==> decreases_to!(v => x)),
{
    lemma_untag_smaller(v);
    if let Some(m) = as_mapping(v) {
        lemma_find_key_bounds(m@, key);
        if let Some(i) = find_key(m@, key) {
            assert(decreases_to!(m => m@));
            assert(decreases_to!(m@ => m@[i]));
            assert(decreases_to!(m@[i] => m@[i].1));
        }
    }
}

/// `untag`, on a reference.
pub fn untag_ref(v: &YamlValue) -> (r: &YamlValue)
    ensures
        *r == untag(*v),
    decreases v,
{
    match v {
        YamlValue::Tagged(_, inner) => untag_ref(inner),
        _ => v,
    }
}

pub fn yaml_as_str(v: &YamlValue) -> (r: Option<&String>)
    ensures
        match as_str(*v) {
            Some(s) => r matches Some(x) && *x == s,
            None => r is None,
        },
{
    match untag_ref(v) {
        YamlValue::Str(s) => Some(s),
        _ => None,
    }
}

pub fn yaml_as_u64(v: &YamlValue) -> (r: Option<u64>)
    ensures
        r == as_u64(*v),
{
    match untag_ref(v) {
        YamlValue::Int(i, _) => if 0 <= *i && *i <= u64::MAX as i128 { Some(*i as u64) } else { None },
        _ => None,
    }
}

pub fn yaml_as_mapping(v: &YamlValue) -> (r: Option<&Vec<(YamlValue, YamlValue)>>)
    ensures
        match as_mapping(*v) {
            Some(m) => r matches Some(x) && *x == m,
            None => r is None,
        },
{
    match untag_ref(v) {
        YamlValue::Mapping(m) => Some(m),
        _ => None,
    }
}

/// Looks a string key up in a mapping's entries.
pub fn yaml_get<'a>(m: &'a Vec<(YamlValue, YamlValue)>, key: &str) -> (r: Option<&'a YamlValue>)
    ensures
        match map_get(m@, key@) {
            Some(x) => r matches Some(y) && *y == x,
            None => r is None,
        },
{
    let mut i: usize = 0;
    proof { lemma_find_key_bounds(m@, key@); }
    while i < m.len()
        invariant
            i <= m@.len(),
            forall|j: int| 0 <= j < i ==> !key_is(#[trigger] m@[j].0, key@),
        decreases m@.len() - i,
    {
        let hit = match &m[i].0 {
            YamlValue::Str(s) => crate::text::str_eq(s.as_str(), key),
            _ => false,
        };
        if hit {
            proof {
                lemma_find_key_bounds(m@, key@);
                if let Some(k) = find_key(m@, key@) {
                    assert(k == i as int);
                }
            }
            return Some(&m[i].1);
        }
        i = i + 1;
    }
    None
}

} // verus!
