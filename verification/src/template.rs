//! Format templates: definitions with parameters, which a template may take
//! over from the templates it extends.

use vstd::prelude::*;
use crate::yaml::{parse_yaml, yaml_document, YamlValue, untag, as_str, untag_ref, yaml_as_str, yaml_get, map_get, find_key, key_is, lemma_find_key_bounds};
use crate::intparse::{from_radix, from_radix_spec};
use crate::dsl::{Endian, DisplayFormat, Condition, ChecksumField, EnumDefinition, EnumModel, bytes_view, req_text_at, opt_text_at,
    endian_at, display_format_at, condition_at, checksum_at, magic_at, list_at, list_of, enum_of, lemma_list_of_fails,
    req_text_at_exec, opt_text_at_exec, endian_at_exec, display_format_at_exec, condition_at_exec, checksum_at_exec,
    magic_at_exec, enums_from_yaml, missing};
use crate::text::{is_ascii_digit, chars_of, push_str, push_char, string_from_chars, str_eq, owned};
use crate::validate::find_pair;

verus! {

// ---------------------------------------------------------------------
// Types.
// ---------------------------------------------------------------------

/// The type a parameter's value must have.
#[derive(Clone, Copy, Debug, PartialEq, Eq, Structural)]
pub enum ParameterType {
    Int,
    String,
    Bool,
}

pub open spec fn param_type_name(t: ParameterType) -> Seq<char> {
    match t {
        ParameterType::Int => "int"@,
        ParameterType::String => "string"@,
        ParameterType::Bool => "bool"@,
    }
}

impl ParameterType {
    /// The type's name as templates write it.
    pub fn name(&self) -> (r: String)
        ensures
            r@ == param_type_name(*self),
    {
        match self {
            ParameterType::Int => owned("int"),
            ParameterType::String => owned("string"),
            ParameterType::Bool => owned("bool"),
        }
    }
}

/// A parameter a template declares, with its type and default value.
#[derive(Debug)]
pub struct TemplateParameter {
    pub name: String,
    pub param_type: ParameterType,
    pub default: Option<YamlValue>,
}

/// A field of a template: its type is a YAML node that may hold `${...}`
/// placeholders, and it may be kept only where a condition on the parameters
/// holds, repeated a number of times, or replace a field of the template it
/// extends.
#[derive(Debug)]
pub struct TemplateField {
    pub name: String,
    pub offset: Option<String>,
    pub data_type: YamlValue,
    pub endian: Endian,
    pub display_format: DisplayFormat,
    pub condition: Option<Condition>,
    pub checksum: Option<ChecksumField>,
    pub description: Option<String>,
    pub template_when: Option<String>,
    pub template_repeat: Option<String>,
    pub override_field: Option<String>,
}

#[derive(Debug)]
pub struct TemplateStructDefinition {
    pub name: String,
    pub magic: Option<Vec<u8>>,
    pub fields: Vec<TemplateField>,
}

#[derive(Debug)]
pub struct TemplateDefinition {
    pub extends: Option<String>,
    pub parameters: Option<Vec<TemplateParameter>>,
    pub name: String,
    pub magic: Option<Vec<u8>>,
    pub enums: Vec<EnumDefinition>,
    pub structs: Vec<TemplateStructDefinition>,
    pub root: TemplateStructDefinition,
}

/// A parameter of a template and its ancestors, and whether the template
/// replaced an ancestor's parameter of that name.
#[derive(Debug)]
pub struct MergedParamInfo {
    pub param: TemplateParameter,
    pub overridden: bool,
}

/// A problem found in a template: where, and why.
#[derive(Debug)]
pub struct TemplateValidationError {
    pub location: String,
    pub reason: String,
}

pub open spec fn terr_view(e: TemplateValidationError) -> (Seq<char>, Seq<char>) {
    (e.location@, e.reason@)
}

pub open spec fn terrs_view(v: Seq<TemplateValidationError>) -> Seq<(Seq<char>, Seq<char>)> {
    v.map_values(|e: TemplateValidationError| terr_view(e))
}

pub open spec fn strs_view(v: Seq<String>) -> Seq<Seq<char>> {
    v.map_values(|s: String| s@)
}

// ---------------------------------------------------------------------
// Parameter references in an expression.
// ---------------------------------------------------------------------

/// The first position from `i` on that holds `c`.
pub open spec fn find_char(s: Seq<char>, c: char, i: nat) -> Option<nat>
    decreases s.len() - i,
{
    if i >= s.len() {
        None
    } else if s[i as int] == c {
        Some(i)
    } else {
        find_char(s, c, i + 1)
    }
}

pub proof fn lemma_find_char_range(s: Seq<char>, c: char, i: nat)
    ensures
        find_char(s, c, i) matches Some(e) ==> i <= e < s.len() && s[e as int] == c,
    decreases s.len() - i,
{
    if i < s.len() && s[i as int] != c {
        lemma_find_char_range(s, c, i + 1);
    }
}

pub proof fn lemma_find_pair_range(s: Seq<char>, a: char, b: char, i: nat)
    ensures
        find_pair(s, a, b, i) matches Some(p) ==> i <= p && p + 1 < s.len() && s[p as int] == a && s[(p + 1) as int] == b,
    decreases s.len() - i,
{
    if i + 1 < s.len() && !(s[i as int] == a && s[(i + 1) as int] == b) {
        lemma_find_pair_range(s, a, b, i + 1);
    }
}

/// The names inside `${...}` from position `start` on, in order; an unclosed
/// `${` ends the search and empty names are left out.
pub open spec fn param_refs_from(s: Seq<char>, start: nat) -> Seq<Seq<char>>
    decreases s.len() - start,
{
    match find_pair(s, '$', '{', start) {
        None => Seq::empty(),
        Some(p) => match find_char(s, '}', p + 2) {
            None => Seq::empty(),
            Some(e) => {
                proof {
                    lemma_find_pair_range(s, '$', '{', start);
                    lemma_find_char_range(s, '}', p + 2);
                }
                let name = s.subrange((p + 2) as int, e as int);
                let rest = param_refs_from(s, e + 1);
                if name.len() > 0 { seq![name] + rest } else { rest }
            },
        },
    }
}

pub open spec fn param_refs(s: Seq<char>) -> Seq<Seq<char>> {
    param_refs_from(s, 0)
}

fn find_pair_from(s: &Vec<char>, a: char, b: char, start: usize) -> (r: Option<usize>)
    ensures
        match find_pair(s@, a, b, start as nat) {
            Some(p) => (r matches Some(q) && q as nat == p),
            None => r is None,
        },
{
    proof { lemma_find_pair_range(s@, a, b, start as nat); }
    let mut i = start;
    while i < s.len() && i + 1 < s.len()
        invariant
            start <= i,
            find_pair(s@, a, b, start as nat) == find_pair(s@, a, b, i as nat),
        decreases s@.len() - i,
    {
        if s[i] == a && s[i + 1] == b {
            return Some(i);
        }
        i = i + 1;
    }
    None
}

fn find_char_from(s: &Vec<char>, c: char, start: usize) -> (r: Option<usize>)
    ensures
        match find_char(s@, c, start as nat) {
            Some(p) => (r matches Some(q) && q as nat == p),
            None => r is None,
        },
{
    proof { lemma_find_char_range(s@, c, start as nat); }
    let mut i = start;
    while i < s.len()
        invariant
            start <= i,
            find_char(s@, c, start as nat) == find_char(s@, c, i as nat),
        decreases s@.len() - i,
    {
        if s[i] == c {
            return Some(i);
        }
        i = i + 1;
    }
    None
}

fn chars_between(s: &Vec<char>, from: usize, to: usize) -> (r: String)
    requires
        from <= to <= s@.len(),
    ensures
        r@ == s@.subrange(from as int, to as int),
{
    let mut out = String::new();
    let mut i = from;
    while i < to
        invariant
            from <= i <= to <= s@.len(),
            out@ == s@.subrange(from as int, i as int),
        decreases to - i,
    {
        push_char(&mut out, s[i]);
        assert(out@ =~= s@.subrange(from as int, i + 1));
        i = i + 1;
    }
    out
}

/// The names of the `${...}` placeholders of an expression, in order.
pub fn extract_param_refs_from_expr(expr: &str) -> (r: Vec<String>)
    ensures
        strs_view(r@) == param_refs(expr@),
{
    let s = chars_of(expr);
    let n = s.len();
    let ghost all = s@;
    let mut refs: Vec<String> = Vec::new();
    let mut start: usize = 0;
    let mut done = false;
    assert(strs_view(refs@) =~= Seq::<Seq<char>>::empty());
    while !done
        invariant
            all == s@,
            all == expr@,
            n == all.len(),
            start <= all.len() + 1,
            done ==> strs_view(refs@) == param_refs(all),
            !done ==> strs_view(refs@) + param_refs_from(all, start as nat) == param_refs(all),
        decreases all.len() + 1 - start + (if done { 0int } else { 1int }),
    {
        proof {
            lemma_find_pair_range(all, '$', '{', start as nat);
        }
        match find_pair_from(&s, '$', '{', start) {
            None => {
                assert(strs_view(refs@) + Seq::<Seq<char>>::empty() =~= strs_view(refs@));
                done = true;
            },
            Some(p) => {
                proof { lemma_find_char_range(all, '}', (p + 2) as nat); }
                match find_char_from(&s, '}', p + 2) {
                    None => {
                        assert(strs_view(refs@) + Seq::<Seq<char>>::empty() =~= strs_view(refs@));
                        done = true;
                    },
                    Some(e) => {
                        assert(find_char(all, '}', (p + 2) as nat) == Some(e as nat));
                        assert(e < all.len());
                        let ghost before = strs_view(refs@);
                        if e > p + 2 {
                            let name = chars_between(&s, p + 2, e);
                            refs.push(name);
                            assert(strs_view(refs@) =~= before.push(all.subrange(p + 2, e as int)));
                            assert(seq![all.subrange(p + 2, e as int)] + param_refs_from(all, (e + 1) as nat)
                                =~= param_refs_from(all, start as nat));
                            assert(strs_view(refs@) + param_refs_from(all, (e + 1) as nat)
                                =~= before + param_refs_from(all, start as nat));
                        }
                        start = e + 1;
                    },
                }
            },
        }
    }
    refs
}

/// Characters of a bare identifier: ASCII letters and digits, and `_`.
pub open spec fn is_word_char(c: char) -> bool {
    ('a' <= c && c <= 'z') || ('A' <= c && c <= 'Z') || is_ascii_digit(c) || c == '_'
}

/// A finished run kept unless it is empty, starts with a digit, or is `true` or `false`.
pub open spec fn keep_word(ids: Seq<Seq<char>>, cur: Seq<char>) -> Seq<Seq<char>> {
    if cur.len() > 0 && !is_ascii_digit(cur[0]) && cur != "true"@ && cur != "false"@
        && cur != "and"@ && cur != "or"@ && cur != "not"@ { ids.push(cur) } else { ids }
}

pub open spec fn word_scan(s: Seq<char>, n: nat) -> (Seq<Seq<char>>, Seq<char>)
    decreases n,
{
    if n == 0 || n > s.len() {
        (Seq::empty(), Seq::empty())
    } else {
        let (ids, cur) = word_scan(s, (n - 1) as nat);
        if is_word_char(s[n - 1]) { (ids, cur.push(s[n - 1])) } else { (keep_word(ids, cur), Seq::empty()) }
    }
}

/// The bare identifiers of an expression: maximal runs of word characters,
/// without those that start with a digit, the literals `true` and `false`,
/// and the words `and`, `or` and `not`, which a condition uses as operators.
pub open spec fn bare_identifiers(s: Seq<char>) -> Seq<Seq<char>> {
    let (ids, cur) = word_scan(s, s.len());
    keep_word(ids, cur)
}

fn keep_word_exec(ids: &mut Vec<String>, cur: &Vec<char>)
    ensures
        strs_view(final(ids)@) == keep_word(strs_view(old(ids)@), cur@),
{
    proof {
        reveal_strlit("true");
        reveal_strlit("false");
        reveal_strlit("and");
        reveal_strlit("or");
        reveal_strlit("not");
    }
    let w = string_from_chars(cur.as_slice());
    if cur.len() > 0 && !('0' <= cur[0] && cur[0] <= '9') && !str_eq(w.as_str(), "true") && !str_eq(w.as_str(), "false")
        && !str_eq(w.as_str(), "and") && !str_eq(w.as_str(), "or") && !str_eq(w.as_str(), "not") {
        let ghost before = strs_view(ids@);
        ids.push(w);
        assert(strs_view(ids@) =~= before.push(cur@));
    }
}

/// The bare identifiers an expression refers to.
pub fn extract_bare_identifiers(expr: &str) -> (r: Vec<String>)
    ensures
        strs_view(r@) == bare_identifiers(expr@),
{
    let s = chars_of(expr);
    let mut ids: Vec<String> = Vec::new();
    let mut cur: Vec<char> = Vec::new();
    assert(strs_view(ids@) =~= Seq::<Seq<char>>::empty());
    let mut i: usize = 0;
    while i < s.len()
        invariant
            i <= s@.len(),
            s@ == expr@,
            word_scan(s@, i as nat) == (strs_view(ids@), cur@),
        decreases s@.len() - i,
    {
        let c = s[i];
        if ('a' <= c && c <= 'z') || ('A' <= c && c <= 'Z') || ('0' <= c && c <= '9') || c == '_' {
            cur.push(c);
        } else {
            keep_word_exec(&mut ids, &cur);
            cur = Vec::new();
            assert(cur@ =~= Seq::<char>::empty());
        }
        i = i + 1;
    }
    keep_word_exec(&mut ids, &cur);
    ids
}

// ---------------------------------------------------------------------
// Merging a template with the templates it extends.
// ---------------------------------------------------------------------

pub open spec fn params_of(t: TemplateDefinition) -> Seq<TemplateParameter> {
    match t.parameters {
        Some(v) => v@,
        None => Seq::empty(),
    }
}

/// The first parameter from `i` on named `n`.
pub open spec fn param_index(ps: Seq<TemplateParameter>, n: Seq<char>, i: nat) -> Option<nat>
    decreases ps.len() - i,
{
    if i >= ps.len() { None } else if ps[i as int].name@ == n { Some(i) } else { param_index(ps, n, i + 1) }
}

/// `p` in place of the first parameter of its name, or added at the end.
pub open spec fn put_param(acc: Seq<TemplateParameter>, p: TemplateParameter) -> Seq<TemplateParameter> {
    match param_index(acc, p.name@, 0) {
        Some(i) => acc.update(i as int, p),
        None => acc.push(p),
    }
}

/// The first `n` parameters of `ps` put in order.
pub open spec fn put_params(acc: Seq<TemplateParameter>, ps: Seq<TemplateParameter>, n: nat) -> Seq<TemplateParameter>
    decreases n,
{
    if n == 0 || n > ps.len() { acc } else { put_param(put_params(acc, ps, (n - 1) as nat), ps[n - 1]) }
}

pub open spec fn field_index(fs: Seq<TemplateField>, n: Seq<char>, i: nat) -> Option<nat>
    decreases fs.len() - i,
{
    if i >= fs.len() { None } else if fs[i as int].name@ == n { Some(i) } else { field_index(fs, n, i + 1) }
}

pub open spec fn enum_index(es: Seq<EnumDefinition>, n: Seq<char>, i: nat) -> Option<nat>
    decreases es.len() - i,
{
    if i >= es.len() { None } else if es[i as int].name@ == n { Some(i) } else { enum_index(es, n, i + 1) }
}

pub open spec fn struct_index(ss: Seq<TemplateStructDefinition>, n: Seq<char>, i: nat) -> Option<nat>
    decreases ss.len() - i,
{
    if i >= ss.len() { None } else if ss[i as int].name@ == n { Some(i) } else { struct_index(ss, n, i + 1) }
}

/// The `m`-th ancestor, counting from the farthest (`m` from 1).
pub open spec fn ancestor(chain: Seq<TemplateDefinition>, m: nat) -> TemplateDefinition {
    chain[chain.len() - m]
}

/// What the first `m` ancestors, the farthest first, have merged into.
pub struct AncestorState {
    pub params: Seq<TemplateParameter>,
    pub fields: Seq<TemplateField>,
    pub enums: Seq<EnumDefinition>,
    pub structs: Seq<TemplateStructDefinition>,
    pub magic: Option<Vec<u8>>,
    pub root_magic: Option<Vec<u8>>,
}

pub open spec fn add_enums(acc: Seq<EnumDefinition>, es: Seq<EnumDefinition>, n: nat) -> Seq<EnumDefinition>
    decreases n,
{
    if n == 0 || n > es.len() {
        acc
    } else {
        let a = add_enums(acc, es, (n - 1) as nat);
        if enum_index(a, es[n - 1].name@, 0) is Some { a } else { a.push(es[n - 1]) }
    }
}

pub open spec fn put_enums(acc: Seq<EnumDefinition>, es: Seq<EnumDefinition>, n: nat) -> Seq<EnumDefinition>
    decreases n,
{
    if n == 0 || n > es.len() {
        acc
    } else {
        let a = put_enums(acc, es, (n - 1) as nat);
        match enum_index(a, es[n - 1].name@, 0) {
            Some(i) => a.update(i as int, es[n - 1]),
            None => a.push(es[n - 1]),
        }
    }
}

pub open spec fn add_structs(acc: Seq<TemplateStructDefinition>, ss: Seq<TemplateStructDefinition>, n: nat)
    -> Seq<TemplateStructDefinition>
    decreases n,
{
    if n == 0 || n > ss.len() {
        acc
    } else {
        let a = add_structs(acc, ss, (n - 1) as nat);
        if struct_index(a, ss[n - 1].name@, 0) is Some { a } else { a.push(ss[n - 1]) }
    }
}

pub open spec fn put_structs(acc: Seq<TemplateStructDefinition>, ss: Seq<TemplateStructDefinition>, n: nat)
    -> Seq<TemplateStructDefinition>
    decreases n,
{
    if n == 0 || n > ss.len() {
        acc
    } else {
        let a = put_structs(acc, ss, (n - 1) as nat);
        match struct_index(a, ss[n - 1].name@, 0) {
            Some(i) => a.update(i as int, ss[n - 1]),
            None => a.push(ss[n - 1]),
        }
    }
}

pub open spec fn ancestors_merged(chain: Seq<TemplateDefinition>, m: nat) -> AncestorState
    decreases m,
{
    if m == 0 || m >= chain.len() {
        AncestorState { params: Seq::empty(), fields: Seq::empty(), enums: Seq::empty(), structs: Seq::empty(),
            magic: None, root_magic: None }
    } else {
        let st = ancestors_merged(chain, (m - 1) as nat);
        let a = ancestor(chain, m);
        AncestorState {
            params: put_params(st.params, params_of(a), params_of(a).len()),
            fields: st.fields + a.root.fields@,
            enums: add_enums(st.enums, a.enums@, a.enums@.len()),
            structs: add_structs(st.structs, a.structs@, a.structs@.len()),
            magic: if st.magic is Some { st.magic } else { a.magic },
            root_magic: if st.root_magic is Some { st.root_magic } else { a.root.magic },
        }
    }
}

/// The fields after the first `n` of the child's fields that replace an
/// ancestor field have done so: each takes the place (and the name) of the
/// first field named as it says, where there is one.
pub open spec fn apply_overrides(acc: Seq<TemplateField>, cf: Seq<TemplateField>, n: nat) -> Seq<TemplateField>
    decreases n,
{
    if n == 0 || n > cf.len() {
        acc
    } else {
        let a = apply_overrides(acc, cf, (n - 1) as nat);
        let f = cf[n - 1];
        match f.override_field {
            Some(t) => match field_index(a, t@, 0) {
                Some(i) => a.update(i as int, TemplateField { name: t, override_field: None, ..f }),
                None => a,
            },
            None => a,
        }
    }
}

/// The first `n` of the child's fields that replace nothing, in order.
pub open spec fn plain_fields(cf: Seq<TemplateField>, n: nat) -> Seq<TemplateField>
    decreases n,
{
    if n == 0 || n > cf.len() {
        Seq::empty()
    } else {
        let a = plain_fields(cf, (n - 1) as nat);
        if cf[n - 1].override_field is None { a.push(cf[n - 1]) } else { a }
    }
}

/// The parts of a template merged with its ancestors (`chain[0]` is the
/// template, `chain[k + 1]` the template `chain[k]` extends).
pub open spec fn merged_params(chain: Seq<TemplateDefinition>) -> Seq<TemplateParameter> {
    let st = ancestors_merged(chain, (chain.len() - 1) as nat);
    put_params(st.params, params_of(chain[0]), params_of(chain[0]).len())
}

pub open spec fn merged_fields(chain: Seq<TemplateDefinition>) -> Seq<TemplateField> {
    let st = ancestors_merged(chain, (chain.len() - 1) as nat);
    let cf = chain[0].root.fields@;
    apply_overrides(st.fields, cf, cf.len()) + plain_fields(cf, cf.len())
}

pub open spec fn merged_enums(chain: Seq<TemplateDefinition>) -> Seq<EnumDefinition> {
    let st = ancestors_merged(chain, (chain.len() - 1) as nat);
    put_enums(st.enums, chain[0].enums@, chain[0].enums@.len())
}

pub open spec fn merged_structs(chain: Seq<TemplateDefinition>) -> Seq<TemplateStructDefinition> {
    let st = ancestors_merged(chain, (chain.len() - 1) as nat);
    put_structs(st.structs, chain[0].structs@, chain[0].structs@.len())
}

fn take_vec<T>(v: Option<Vec<T>>) -> (r: Vec<T>)
    ensures
        r@ == (match v { Some(x) => x@, None => Seq::<T>::empty() }),
{
    match v {
        Some(x) => x,
        None => Vec::new(),
    }
}

fn param_index_exec(ps: &Vec<TemplateParameter>, n: &str) -> (r: Option<usize>)
    ensures
        match param_index(ps@, n@, 0) {
            Some(i) => (r matches Some(q) && q as nat == i && i < ps@.len()),
            None => r is None,
        },
{
    let mut i: usize = 0;
    while i < ps.len()
        invariant
            i <= ps@.len(),
            param_index(ps@, n@, 0) == param_index(ps@, n@, i as nat),
        decreases ps@.len() - i,
    {
        if str_eq(ps[i].name.as_str(), n) {
            return Some(i);
        }
        i = i + 1;
    }
    None
}

fn put_params_exec(acc: &mut Vec<TemplateParameter>, ps: Vec<TemplateParameter>)
    ensures
        final(acc)@ == put_params(old(acc)@, ps@, ps@.len()),
{
    let ghost all = ps@;
    let ghost a0 = acc@;
    let mut rest = ps;
    let total = rest.len();
    let mut k: usize = 0;
    while rest.len() > 0
        invariant
            total == all.len(),
            k + rest@.len() == all.len(),
            rest@ == all.skip(k as int),
            acc@ == put_params(a0, all, k as nat),
        decreases rest@.len(),
    {
        let p = rest.remove(0);
        assert(p == all[k as int]);
        match param_index_exec(acc, p.name.as_str()) {
            Some(i) => acc.set(i, p),
            None => acc.push(p),
        }
        assert(rest@ =~= all.skip(k + 1));
        k = k + 1;
    }
}

fn enum_index_exec(es: &Vec<EnumDefinition>, n: &str) -> (r: Option<usize>)
    ensures
        match enum_index(es@, n@, 0) {
            Some(i) => (r matches Some(q) && q as nat == i && i < es@.len()),
            None => r is None,
        },
{
    let mut i: usize = 0;
    while i < es.len()
        invariant
            i <= es@.len(),
            enum_index(es@, n@, 0) == enum_index(es@, n@, i as nat),
        decreases es@.len() - i,
    {
        if str_eq(es[i].name.as_str(), n) {
            return Some(i);
        }
        i = i + 1;
    }
    None
}

fn add_enums_exec(acc: &mut Vec<EnumDefinition>, xs: Vec<EnumDefinition>)
    ensures
        final(acc)@ == add_enums(old(acc)@, xs@, xs@.len()),
{
    let ghost all = xs@;
    let ghost a0 = acc@;
    let mut rest = xs;
    let total = rest.len();
    let mut k: usize = 0;
    while rest.len() > 0
        invariant
            total == all.len(),
            k + rest@.len() == all.len(),
            rest@ == all.skip(k as int),
            acc@ == add_enums(a0, all, k as nat),
        decreases rest@.len(),
    {
        let x = rest.remove(0);
        assert(x == all[k as int]);
        match enum_index_exec(acc, x.name.as_str()) {
            Some(i) => {},
            None => acc.push(x),
        }
        assert(rest@ =~= all.skip(k + 1));
        k = k + 1;
    }
}

fn put_enums_exec(acc: &mut Vec<EnumDefinition>, xs: Vec<EnumDefinition>)
    ensures
        final(acc)@ == put_enums(old(acc)@, xs@, xs@.len()),
{
    let ghost all = xs@;
    let ghost a0 = acc@;
    let mut rest = xs;
    let total = rest.len();
    let mut k: usize = 0;
    while rest.len() > 0
        invariant
            total == all.len(),
            k + rest@.len() == all.len(),
            rest@ == all.skip(k as int),
            acc@ == put_enums(a0, all, k as nat),
        decreases rest@.len(),
    {
        let x = rest.remove(0);
        assert(x == all[k as int]);
        match enum_index_exec(acc, x.name.as_str()) {
            Some(i) => acc.set(i, x),
            None => acc.push(x),
        }
        assert(rest@ =~= all.skip(k + 1));
        k = k + 1;
    }
}

fn struct_index_exec(ss: &Vec<TemplateStructDefinition>, n: &str) -> (r: Option<usize>)
    ensures
        match struct_index(ss@, n@, 0) {
            Some(i) => (r matches Some(q) && q as nat == i && i < ss@.len()),
            None => r is None,
        },
{
    let mut i: usize = 0;
    while i < ss.len()
        invariant
            i <= ss@.len(),
            struct_index(ss@, n@, 0) == struct_index(ss@, n@, i as nat),
        decreases ss@.len() - i,
    {
        if str_eq(ss[i].name.as_str(), n) {
            return Some(i);
        }
        i = i + 1;
    }
    None
}

fn add_structs_exec(acc: &mut Vec<TemplateStructDefinition>, xs: Vec<TemplateStructDefinition>)
    ensures
        final(acc)@ == add_structs(old(acc)@, xs@, xs@.len()),
{
    let ghost all = xs@;
    let ghost a0 = acc@;
    let mut rest = xs;
    let total = rest.len();
    let mut k: usize = 0;
    while rest.len() > 0
        invariant
            total == all.len(),
            k + rest@.len() == all.len(),
            rest@ == all.skip(k as int),
            acc@ == add_structs(a0, all, k as nat),
        decreases rest@.len(),
    {
        let x = rest.remove(0);
        assert(x == all[k as int]);
        match struct_index_exec(acc, x.name.as_str()) {
            Some(i) => {},
            None => acc.push(x),
        }
        assert(rest@ =~= all.skip(k + 1));
        k = k + 1;
    }
}

fn put_structs_exec(acc: &mut Vec<TemplateStructDefinition>, xs: Vec<TemplateStructDefinition>)
    ensures
        final(acc)@ == put_structs(old(acc)@, xs@, xs@.len()),
{
    let ghost all = xs@;
    let ghost a0 = acc@;
    let mut rest = xs;
    let total = rest.len();
    let mut k: usize = 0;
    while rest.len() > 0
        invariant
            total == all.len(),
            k + rest@.len() == all.len(),
            rest@ == all.skip(k as int),
            acc@ == put_structs(a0, all, k as nat),
        decreases rest@.len(),
    {
        let x = rest.remove(0);
        assert(x == all[k as int]);
        match struct_index_exec(acc, x.name.as_str()) {
            Some(i) => acc.set(i, x),
            None => acc.push(x),
        }
        assert(rest@ =~= all.skip(k + 1));
        k = k + 1;
    }
}

fn field_index_exec(fs: &Vec<TemplateField>, n: &str) -> (r: Option<usize>)
    ensures
        match field_index(fs@, n@, 0) {
            Some(i) => (r matches Some(q) && q as nat == i && i < fs@.len()),
            None => r is None,
        },
{
    let mut i: usize = 0;
    while i < fs.len()
        invariant
            i <= fs@.len(),
            field_index(fs@, n@, 0) == field_index(fs@, n@, i as nat),
        decreases fs@.len() - i,
    {
        if str_eq(fs[i].name.as_str(), n) {
            return Some(i);
        }
        i = i + 1;
    }
    None
}

/// Applies the child's root fields: those that replace an ancestor field do
/// so, the others are returned in order.
fn child_fields_exec(acc: &mut Vec<TemplateField>, cf: Vec<TemplateField>) -> (r: Vec<TemplateField>)
    ensures
        final(acc)@ == apply_overrides(old(acc)@, cf@, cf@.len()),
        r@ == plain_fields(cf@, cf@.len()),
{
    let ghost all = cf@;
    let ghost a0 = acc@;
    let mut rest = cf;
    let total = rest.len();
    let mut plain: Vec<TemplateField> = Vec::new();
    let mut k: usize = 0;
    while rest.len() > 0
        invariant
            total == all.len(),
            k + rest@.len() == all.len(),
            rest@ == all.skip(k as int),
            acc@ == apply_overrides(a0, all, k as nat),
            plain@ == plain_fields(all, k as nat),
        decreases rest@.len(),
    {
        let f = rest.remove(0);
        assert(f == all[k as int]);
        let ghost f0 = f;
        let TemplateField { name, offset, data_type, endian, display_format, condition, checksum, description,
            template_when, template_repeat, override_field } = f;
        match override_field {
            Some(t) => {
                match field_index_exec(acc, t.as_str()) {
                    Some(i) => {
                        let g = TemplateField { name: t, offset, data_type, endian, display_format, condition, checksum,
                            description, template_when, template_repeat, override_field: None };
                        assert(g == (TemplateField { name: f0.override_field.unwrap(), override_field: None, ..f0 }));
                        acc.set(i, g);
                    },
                    None => {},
                }
            },
            None => {
                let g = TemplateField { name, offset, data_type, endian, display_format, condition, checksum,
                    description, template_when, template_repeat, override_field: None };
                assert(g == f0);
                plain.push(g);
            },
        }
        assert(rest@ =~= all.skip(k + 1));
        k = k + 1;
    }
    plain
}

/// Merges a template (`chain[0]`) with the templates it extends
/// (`chain[k + 1]` is the template `chain[k]` extends). Parameters, root
/// fields, enums and structs of the farthest ancestor come first; a nearer
/// template's parameter, enum or struct replaces one of the same name, while
/// an ancestor's enum or struct is kept over a farther one's. The template's
/// own root fields either replace the ancestor field they name or are added
/// at the end. The magic bytes are the template's own, or the first an
/// ancestor has, looking from the farthest.
pub fn merge_inheritance_chain(chain: Vec<TemplateDefinition>) -> (r: TemplateDefinition)
    requires
        chain@.len() >= 1,
    ensures
        chain@.len() == 1 ==> r == chain@[0],
        chain@.len() > 1 ==> {
            let st = ancestors_merged(chain@, (chain@.len() - 1) as nat);
            let c = chain@[0];
            &&& r.extends is None
            &&& (merged_params(chain@).len() == 0 ==> r.parameters is None)
            &&& (merged_params(chain@).len() > 0 ==> (r.parameters matches Some(v) && v@ == merged_params(chain@)))
            &&& r.name == c.name
            &&& r.magic == (if c.magic is Some { c.magic } else { st.magic })
            &&& r.enums@ == merged_enums(chain@)
            &&& r.structs@ == merged_structs(chain@)
            &&& r.root.name == c.root.name
            &&& r.root.magic == (if c.root.magic is Some { c.root.magic } else { st.root_magic })
            &&& r.root.fields@ == merged_fields(chain@)
        },
{
    let ghost all = chain@;
    let n = chain.len();
    let mut rest = chain;
    if n == 1 {
        let r = rest.pop();
        return match r {
            Some(t) => t,
            None => {
                assert(false);
                rest.pop().unwrap()
            },
        };
    }
    let mut params: Vec<TemplateParameter> = Vec::new();
    let mut fields: Vec<TemplateField> = Vec::new();
    let mut enums: Vec<EnumDefinition> = Vec::new();
    let mut structs: Vec<TemplateStructDefinition> = Vec::new();
    let mut magic: Option<Vec<u8>> = None;
    let mut root_magic: Option<Vec<u8>> = None;
    let mut m: usize = 0;
    while rest.len() > 1
        invariant
            n == all.len(),
            n > 1,
            rest@.len() + m == n,
            rest@.len() >= 1,
            rest@ == all.take(rest@.len() as int),
            ancestors_merged(all, m as nat) == (AncestorState {
                params: params@, fields: fields@, enums: enums@, structs: structs@, magic, root_magic }),
        decreases rest@.len(),
    {
        let a = match rest.pop() {
            Some(t) => t,
            None => {
                assert(false);
                return rest.pop().unwrap();
            },
        };
        assert(a == ancestor(all, (m + 1) as nat));
        assert(rest@ =~= all.take(rest@.len() as int));
        let TemplateDefinition { extends: _, parameters, name: _, magic: amagic, enums: aenums, structs: astructs, root: aroot } = a;
        put_params_exec(&mut params, take_vec(parameters));
        let TemplateStructDefinition { name: _, magic: armagic, fields: afields } = aroot;
        let mut af = afields;
        fields.append(&mut af);
        add_enums_exec(&mut enums, aenums);
        add_structs_exec(&mut structs, astructs);
        if magic.is_none() {
            magic = amagic;
        }
        if root_magic.is_none() {
            root_magic = armagic;
        }
        m = m + 1;
    }
    let child = match rest.pop() {
        Some(t) => t,
        None => {
            assert(false);
            return rest.pop().unwrap();
        },
    };
    assert(child == all[0]);
    let TemplateDefinition { extends: _, parameters, name, magic: cmagic, enums: cenums, structs: cstructs, root: croot } = child;
    put_params_exec(&mut params, take_vec(parameters));
    let TemplateStructDefinition { name: rname, magic: crmagic, fields: cfields } = croot;
    let mut plain = child_fields_exec(&mut fields, cfields);
    fields.append(&mut plain);
    put_enums_exec(&mut enums, cenums);
    put_structs_exec(&mut structs, cstructs);
    let final_magic = if cmagic.is_some() { cmagic } else { magic };
    let final_root_magic = if crmagic.is_some() { crmagic } else { root_magic };
    let parameters = if params.len() == 0 { None } else { Some(params) };
    TemplateDefinition {
        extends: None,
        parameters,
        name,
        magic: final_magic,
        enums,
        structs,
        root: TemplateStructDefinition { name: rname, magic: final_root_magic, fields },
    }
}

// ---------------------------------------------------------------------
// Checking a template.
// ---------------------------------------------------------------------

/// Whether `i64::from_str` accepts the text.
pub open spec fn parses_as_i64(s: Seq<char>) -> bool {
    from_radix_spec(s, 10) matches Ok(v) && i64::MIN <= v <= i64::MAX
}

/// Whether a value has the declared type: a number, or a string `i64` parses,
/// for `int`; a boolean, or the string `true` or `false`, for `bool`; anything
/// for `string`. Tags are looked through.
pub open spec fn value_has_type(t: ParameterType, v: YamlValue) -> bool {
    match t {
        ParameterType::Int => (untag(v) is Int || untag(v) is Float)
            || (as_str(v) matches Some(s) && parses_as_i64(s@)),
        ParameterType::Bool => untag(v) is Bool || (as_str(v) matches Some(s) && (s@ == "true"@ || s@ == "false"@)),
        ParameterType::String => true,
    }
}

pub(crate) fn value_has_type_exec(t: ParameterType, v: &YamlValue) -> (r: bool)
    ensures
        r == value_has_type(t, *v),
{
    proof {
        reveal_strlit("true");
        reveal_strlit("false");
    }
    match t {
        ParameterType::Int => {
            match untag_ref(v) {
                YamlValue::Int(_, _) | YamlValue::Float(_) => true,
                _ => match yaml_as_str(v) {
                    Some(s) => {
                        let cs = chars_of(s.as_str());
                        match from_radix(cs.as_slice(), 10) {
                            Ok(x) => i64::MIN as i128 <= x && x <= i64::MAX as i128,
                            Err(_) => false,
                        }
                    },
                    None => false,
                },
            }
        },
        ParameterType::Bool => {
            match untag_ref(v) {
                YamlValue::Bool(_) => true,
                _ => match yaml_as_str(v) {
                    Some(s) => str_eq(s.as_str(), "true") || str_eq(s.as_str(), "false"),
                    None => false,
                },
            }
        },
        ParameterType::String => true,
    }
}

/// Whether some parameter is named `n`.
pub open spec fn declared(ps: Seq<TemplateParameter>, n: Seq<char>) -> bool {
    exists|i: int| 0 <= i < ps.len() && (#[trigger] ps[i]).name@ == n
}

/// The last parameter named `n`: the one a map from names keeps.
pub open spec fn last_param(ps: Seq<TemplateParameter>, n: Seq<char>) -> Option<TemplateParameter>
    decreases ps.len(),
{
    if ps.len() == 0 {
        None
    } else if ps.last().name@ == n {
        Some(ps.last())
    } else {
        last_param(ps.drop_last(), n)
    }
}

fn last_param_exec<'a>(ps: &'a Vec<TemplateParameter>, n: &str) -> (r: Option<&'a TemplateParameter>)
    ensures
        match last_param(ps@, n@) {
            Some(p) => (r matches Some(x) && *x == p),
            None => r is None,
        },
        r is None <==> !declared(ps@, n@),
{
    let mut k = ps.len();
    assert(ps@.take(k as int) =~= ps@);
    while k > 0
        invariant
            k <= ps@.len(),
            last_param(ps@, n@) == last_param(ps@.take(k as int), n@),
            forall|j: int| k <= j < ps@.len() ==> (#[trigger] ps@[j]).name@ != n@,
        decreases k,
    {
        if str_eq(ps[k - 1].name.as_str(), n) {
            assert(ps@.take(k as int).last() == ps@[k - 1]);
            return Some(&ps[k - 1]);
        }
        assert(ps@.take(k as int).drop_last() =~= ps@.take(k - 1));
        k = k - 1;
    }
    None
}

/// The error for the `i`-th placeholder name, where it is not declared.
pub open spec fn ref_error_at(refs: Seq<Seq<char>>, what: Seq<char>, ps: Seq<TemplateParameter>, loc: Seq<char>, i: int)
    -> Seq<(Seq<char>, Seq<char>)>
{
    if declared(ps, refs[i]) {
        Seq::empty()
    } else {
        seq![(loc, what + "中${"@ + refs[i] + "}占位符引用了未声明的参数 '"@ + refs[i] + "'"@)]
    }
}

/// The errors of the first `n` placeholder names, in order.
pub open spec fn ref_errors_upto(refs: Seq<Seq<char>>, what: Seq<char>, ps: Seq<TemplateParameter>, loc: Seq<char>, n: nat)
    -> Seq<(Seq<char>, Seq<char>)>
{
    Seq::new(n, |i: int| ref_error_at(refs, what, ps, loc, i)).flatten_alt()
}

proof fn lemma_ref_errors_step(refs: Seq<Seq<char>>, what: Seq<char>, ps: Seq<TemplateParameter>, loc: Seq<char>, n: nat)
    ensures
        ref_errors_upto(refs, what, ps, loc, n + 1) == ref_errors_upto(refs, what, ps, loc, n) + ref_error_at(refs, what, ps, loc, n as int),
{
    let a = Seq::new(n + 1, |i: int| ref_error_at(refs, what, ps, loc, i));
    let b = Seq::new(n, |i: int| ref_error_at(refs, what, ps, loc, i));
    assert(a.drop_last() =~= b);
}

/// Errors for the `${...}` placeholders of `s` whose names are not declared.
pub open spec fn ref_errors_in(s: Seq<char>, what: Seq<char>, ps: Seq<TemplateParameter>, loc: Seq<char>)
    -> Seq<(Seq<char>, Seq<char>)>
{
    ref_errors_upto(param_refs(s), what, ps, loc, param_refs(s).len())
}

pub open spec fn str_ref_errors(v: YamlValue, ps: Seq<TemplateParameter>, loc: Seq<char>) -> Seq<(Seq<char>, Seq<char>)> {
    match v {
        YamlValue::Str(s) => ref_errors_in(s@, "type"@, ps, loc),
        _ => Seq::empty(),
    }
}

/// Errors for the placeholders of a field's type node: in its strings, in the
/// keys and string values of a mapping, in the strings one level further in,
/// and in every item of a list.
pub open spec fn yaml_ref_errors(v: YamlValue, ps: Seq<TemplateParameter>, loc: Seq<char>) -> Seq<(Seq<char>, Seq<char>)>
    decreases v, 1int,
{
    match v {
        YamlValue::Str(s) => ref_errors_in(s@, "type"@, ps, loc),
        YamlValue::Mapping(_) => entries_errors(v, ps, loc).flatten_alt(),
        YamlValue::List(_) => items_errors(v, ps, loc).flatten_alt(),
        _ => Seq::empty(),
    }
}

/// The errors of each item of a list node.
pub open spec fn items_errors(v: YamlValue, ps: Seq<TemplateParameter>, loc: Seq<char>) -> Seq<Seq<(Seq<char>, Seq<char>)>>
    decreases v, 0int,
{
    match v {
        YamlValue::List(items) => Seq::new(items@.len(), |j: int| if 0 <= j < items@.len() {
            yaml_ref_errors(items@[j], ps, loc)
        } else {
            Seq::empty()
        }),
        _ => Seq::empty(),
    }
}

/// The errors of each entry of a mapping node: its key if a string, then its value.
pub open spec fn entries_errors(v: YamlValue, ps: Seq<TemplateParameter>, loc: Seq<char>) -> Seq<Seq<(Seq<char>, Seq<char>)>>
    decreases v, 0int,
{
    match v {
        YamlValue::Mapping(m) => Seq::new(m@.len(), |i: int| if 0 <= i < m@.len() {
            str_ref_errors(m@[i].0, ps, loc) + value_errors(m@[i].1, ps, loc)
        } else {
            Seq::empty()
        }),
        _ => Seq::empty(),
    }
}

/// The errors of a mapping entry's value: a string, the string keys and values
/// of a nested mapping, or each item of a list.
pub open spec fn value_errors(w: YamlValue, ps: Seq<TemplateParameter>, loc: Seq<char>) -> Seq<(Seq<char>, Seq<char>)>
    decreases w, 1int,
{
    match w {
        YamlValue::Str(x) => ref_errors_in(x@, "type"@, ps, loc),
        YamlValue::Mapping(inner) => inner_errors(inner@, ps, loc).flatten_alt(),
        YamlValue::List(_) => items_errors(w, ps, loc).flatten_alt(),
        _ => Seq::empty(),
    }
}

pub open spec fn inner_errors(inner: Seq<(YamlValue, YamlValue)>, ps: Seq<TemplateParameter>, loc: Seq<char>)
    -> Seq<Seq<(Seq<char>, Seq<char>)>>
{
    Seq::new(inner.len(), |j: int| str_ref_errors(inner[j].0, ps, loc) + str_ref_errors(inner[j].1, ps, loc))
}

fn push_terr(errors: &mut Vec<TemplateValidationError>, location: &str, reason: String)
    ensures
        terrs_view(final(errors)@) == terrs_view(old(errors)@).push((location@, reason@)),
{
    let ghost before = errors@;
    errors.push(TemplateValidationError { location: location.to_string(), reason });
    assert(terrs_view(errors@) =~= terrs_view(before).push((location@, reason@)));
}

fn is_declared(ps: &Vec<TemplateParameter>, n: &str) -> (r: bool)
    ensures
        r == declared(ps@, n@),
{
    match last_param_exec(ps, n) {
        Some(_) => true,
        None => false,
    }
}

fn check_refs_in(s: &str, what: &str, ps: &Vec<TemplateParameter>, loc: &str, errors: &mut Vec<TemplateValidationError>)
    ensures
        terrs_view(final(errors)@) == terrs_view(old(errors)@) + ref_errors_in(s@, what@, ps@, loc@),
{
    let refs = extract_param_refs_from_expr(s);
    let ghost rv = strs_view(refs@);
    let ghost o = terrs_view(errors@);
    let mut i: usize = 0;
    assert(ref_errors_upto(rv, what@, ps@, loc@, 0) =~= Seq::<(Seq<char>, Seq<char>)>::empty());
    while i < refs.len()
        invariant
            i <= refs@.len(),
            rv == strs_view(refs@),
            rv == param_refs(s@),
            terrs_view(errors@) == o + ref_errors_upto(rv, what@, ps@, loc@, i as nat),
        decreases refs@.len() - i,
    {
        let r = &refs[i];
        assert(rv[i as int] == r@);
        let ghost before = terrs_view(errors@);
        proof { lemma_ref_errors_step(rv, what@, ps@, loc@, i as nat); }
        if !is_declared(ps, r.as_str()) {
            let mut reason = String::new();
            push_str(&mut reason, what);
            push_str(&mut reason, "中${");
            push_str(&mut reason, r.as_str());
            push_str(&mut reason, "}占位符引用了未声明的参数 '");
            push_str(&mut reason, r.as_str());
            push_str(&mut reason, "'");
            push_terr(errors, loc, reason);
        }
        assert(terrs_view(errors@) =~= o + ref_errors_upto(rv, what@, ps@, loc@, (i + 1) as nat));
        i = i + 1;
    }
}

/// Flattening one more part adds that part's errors at the end.
proof fn lemma_flatten_take_step<A>(parts: Seq<Seq<A>>, n: int)
    requires
        0 <= n < parts.len(),
    ensures
        parts.take(n + 1).flatten_alt() == parts.take(n).flatten_alt() + parts[n],
{
    assert(parts.take(n + 1).drop_last() =~= parts.take(n));
}

proof fn lemma_list_item_smaller(v: YamlValue, items: Vec<YamlValue>, i: int)
    requires
        v == YamlValue::List(items),
        0 <= i < items@.len(),
    ensures
        decreases_to!(v => items@[i]),
{
    assert(decreases_to!(v => v->List_0));
    assert(decreases_to!(items => items@));
    assert(decreases_to!(items@ => items@[i]));
}

fn check_str_refs(v: &YamlValue, ps: &Vec<TemplateParameter>, loc: &str, errors: &mut Vec<TemplateValidationError>)
    ensures
        terrs_view(final(errors)@) == terrs_view(old(errors)@) + str_ref_errors(*v, ps@, loc@),
{
    match v {
        YamlValue::Str(s) => check_refs_in(s.as_str(), "type", ps, loc, errors),
        _ => {
            assert(terrs_view(errors@) =~= terrs_view(errors@) + Seq::<(Seq<char>, Seq<char>)>::empty());
        },
    }
}

/// Checks the placeholders of a field's type node.
fn check_yaml_refs(v: &YamlValue, ps: &Vec<TemplateParameter>, loc: &str, errors: &mut Vec<TemplateValidationError>)
    ensures
        terrs_view(final(errors)@) == terrs_view(old(errors)@) + yaml_ref_errors(*v, ps@, loc@),
    decreases v, 1int,
{
    let ghost o = terrs_view(errors@);
    match v {
        YamlValue::Str(s) => check_refs_in(s.as_str(), "type", ps, loc, errors),
        YamlValue::List(items) => {
            check_items(v, items, ps, loc, errors);
        },
        YamlValue::Mapping(m) => {
            let ghost parts = entries_errors(*v, ps@, loc@);
            let mut i: usize = 0;
            assert(parts.take(0) =~= Seq::<Seq<(Seq<char>, Seq<char>)>>::empty());
            while i < m.len()
                invariant
                    *v == YamlValue::Mapping(*m),
                    parts == entries_errors(*v, ps@, loc@),
                    parts.len() == m@.len(),
                    i <= m@.len(),
                    terrs_view(errors@) == o + parts.take(i as int).flatten_alt(),
                decreases m@.len() - i,
            {
                proof { lemma_flatten_take_step(parts, i as int); }
                let ghost before = terrs_view(errors@);
                let (key, val) = &m[i];
                check_str_refs(key, ps, loc, errors);
                let ghost mid = terrs_view(errors@);
                match val {
                    YamlValue::Str(x) => check_refs_in(x.as_str(), "type", ps, loc, errors),
                    YamlValue::Mapping(inner) => {
                        let ghost ip = inner_errors(inner@, ps@, loc@);
                        let mut j: usize = 0;
                        assert(ip.take(0) =~= Seq::<Seq<(Seq<char>, Seq<char>)>>::empty());
                        while j < inner.len()
                            invariant
                                ip == inner_errors(inner@, ps@, loc@),
                                ip.len() == inner@.len(),
                                j <= inner@.len(),
                                terrs_view(errors@) == mid + ip.take(j as int).flatten_alt(),
                            decreases inner@.len() - j,
                        {
                            proof { lemma_flatten_take_step(ip, j as int); }
                            check_str_refs(&inner[j].0, ps, loc, errors);
                            check_str_refs(&inner[j].1, ps, loc, errors);
                            assert(terrs_view(errors@) =~= mid + ip.take(j + 1).flatten_alt());
                            j = j + 1;
                        }
                        assert(ip.take(ip.len() as int) =~= ip);
                    },
                    YamlValue::List(items) => {
                        proof {
                            assert(decreases_to!(*v => v->Mapping_0));
                            assert(decreases_to!(*m => m@));
                            assert(decreases_to!(m@ => m@[i as int]));
                            assert(decreases_to!(m@[i as int] => m@[i as int].1));
                        }
                        check_items(val, items, ps, loc, errors);
                    },
                    _ => {},
                }
                assert(terrs_view(errors@) =~= before + parts[i as int]);
                assert(terrs_view(errors@) =~= o + parts.take(i + 1).flatten_alt());
                i = i + 1;
            }
            assert(parts.take(parts.len() as int) =~= parts);
        },
        _ => {},
    }
}

/// Checks each item of a list node.
fn check_items(v: &YamlValue, items: &Vec<YamlValue>, ps: &Vec<TemplateParameter>, loc: &str, errors: &mut Vec<TemplateValidationError>)
    requires
        *v == YamlValue::List(*items),
    ensures
        terrs_view(final(errors)@) == terrs_view(old(errors)@) + items_errors(*v, ps@, loc@).flatten_alt(),
    decreases v, 0int,
{
    let ghost o = terrs_view(errors@);
    let ghost parts = items_errors(*v, ps@, loc@);
    let mut i: usize = 0;
    assert(parts.take(0) =~= Seq::<Seq<(Seq<char>, Seq<char>)>>::empty());
    while i < items.len()
        invariant
            *v == YamlValue::List(*items),
            parts == items_errors(*v, ps@, loc@),
            parts.len() == items@.len(),
            i <= items@.len(),
            terrs_view(errors@) == o + parts.take(i as int).flatten_alt(),
        decreases items@.len() - i,
    {
        proof {
            lemma_flatten_take_step(parts, i as int);
            lemma_list_item_smaller(*v, *items, i as int);
        }
        check_yaml_refs(&items[i], ps, loc, errors);
        assert(terrs_view(errors@) =~= o + parts.take(i + 1).flatten_alt());
        i = i + 1;
    }
    assert(parts.take(parts.len() as int) =~= parts);
}

/// `acc` with each of the first `n` names of `xs` not yet in it added, in order.
pub open spec fn add_missing(acc: Seq<Seq<char>>, xs: Seq<Seq<char>>, n: nat) -> Seq<Seq<char>>
    decreases n,
{
    if n == 0 || n > xs.len() {
        acc
    } else {
        let a = add_missing(acc, xs, (n - 1) as nat);
        if a.contains(xs[n - 1]) { a } else { a.push(xs[n - 1]) }
    }
}

/// The parameters an expression refers to: its placeholders, then its bare
/// identifiers not already listed.
pub open spec fn referenced(e: Seq<char>) -> Seq<Seq<char>> {
    add_missing(param_refs(e), bare_identifiers(e), bare_identifiers(e).len())
}

pub open spec fn when_ref_errors(names: Seq<Seq<char>>, ps: Seq<TemplateParameter>, loc: Seq<char>, n: nat)
    -> Seq<(Seq<char>, Seq<char>)>
    decreases n,
{
    if n == 0 || n > names.len() {
        Seq::empty()
    } else {
        let prev = when_ref_errors(names, ps, loc, (n - 1) as nat);
        let r = names[n - 1];
        if declared(ps, r) { prev } else { prev.push((loc, "template_when表达式引用了未声明的参数 '"@ + r + "'"@)) }
    }
}

pub open spec fn repeat_ref_errors(names: Seq<Seq<char>>, ps: Seq<TemplateParameter>, loc: Seq<char>, n: nat)
    -> Seq<(Seq<char>, Seq<char>)>
    decreases n,
{
    if n == 0 || n > names.len() {
        Seq::empty()
    } else {
        let prev = repeat_ref_errors(names, ps, loc, (n - 1) as nat);
        let r = names[n - 1];
        match last_param(ps, r) {
            Some(p) => if p.param_type != ParameterType::Int {
                prev.push((loc, "template_repeat引用的参数 '"@ + r + "' 不是int类型 (实际: "@ + param_type_name(p.param_type) + ")"@))
            } else {
                prev
            },
            None => prev.push((loc, "template_repeat引用了未声明的参数 '"@ + r + "'"@)),
        }
    }
}

/// Errors of one field of a template struct: parameters its condition, type,
/// offset and repeat count refer to must be declared, and a repeat count's
/// parameters must be `int`.
pub open spec fn field_template_errors(sname: Seq<char>, f: TemplateField, ps: Seq<TemplateParameter>) -> Seq<(Seq<char>, Seq<char>)> {
    let loc = sname + "."@ + f.name@;
    let e_when = match f.template_when {
        Some(w) => when_ref_errors(referenced(w@), ps, loc, referenced(w@).len()),
        None => Seq::empty(),
    };
    let e_off = match f.offset {
        Some(o) => ref_errors_in(o@, "offset"@, ps, loc),
        None => Seq::empty(),
    };
    let e_rep = match f.template_repeat {
        Some(x) => repeat_ref_errors(referenced(x@), ps, loc, referenced(x@).len()),
        None => Seq::empty(),
    };
    e_when + yaml_ref_errors(f.data_type, ps, loc) + e_off + e_rep
}

pub open spec fn struct_template_errors(st: TemplateStructDefinition, ps: Seq<TemplateParameter>, n: nat)
    -> Seq<(Seq<char>, Seq<char>)>
    decreases n,
{
    if n == 0 || n > st.fields@.len() {
        Seq::empty()
    } else {
        struct_template_errors(st, ps, (n - 1) as nat) + field_template_errors(st.name@, st.fields@[n - 1], ps)
    }
}

/// Errors of the `k`-th parameter: a name used before, and a default value of
/// another type.
pub open spec fn param_errors_at(ps: Seq<TemplateParameter>, k: int) -> Seq<(Seq<char>, Seq<char>)> {
    let p = ps[k];
    let loc = "parameters."@ + p.name@;
    let dup = exists|j: int| 0 <= j < k && (#[trigger] ps[j]).name@ == p.name@;
    (if dup { seq![(loc, "参数名 '"@ + p.name@ + "' 重复"@)] } else { Seq::empty() })
        + match p.default {
            Some(d) => if value_has_type(p.param_type, d) {
                Seq::empty()
            } else {
                seq![(loc, "参数 '"@ + p.name@ + "' 的default值类型与声明类型不匹配 (期望: "@ + param_type_name(p.param_type) + ")"@)]
            },
            None => Seq::empty(),
        }
}

pub open spec fn params_errors(ps: Seq<TemplateParameter>, n: nat) -> Seq<(Seq<char>, Seq<char>)>
    decreases n,
{
    if n == 0 || n > ps.len() { Seq::empty() } else { params_errors(ps, (n - 1) as nat) + param_errors_at(ps, n - 1) }
}

pub open spec fn structs_template_errors(t: TemplateDefinition, n: nat) -> Seq<(Seq<char>, Seq<char>)>
    decreases n,
{
    if n == 0 || n > t.structs@.len() {
        Seq::empty()
    } else {
        let st = t.structs@[n - 1];
        structs_template_errors(t, (n - 1) as nat) + struct_template_errors(st, params_of(t), st.fields@.len())
    }
}

/// Every problem of a template: its parameters, then the root's fields, then
/// each struct's fields.
pub open spec fn template_errors(t: TemplateDefinition) -> Seq<(Seq<char>, Seq<char>)> {
    let ps = params_of(t);
    params_errors(ps, ps.len()) + struct_template_errors(t.root, ps, t.root.fields@.len())
        + structs_template_errors(t, t.structs@.len())
}

fn contains_name(v: &Vec<String>, n: &str) -> (r: bool)
    ensures
        r == strs_view(v@).contains(n@),
{
    let mut i: usize = 0;
    while i < v.len()
        invariant
            i <= v@.len(),
            forall|j: int| 0 <= j < i ==> strs_view(v@)[j] != n@,
        decreases v@.len() - i,
    {
        if str_eq(v[i].as_str(), n) {
            assert(strs_view(v@)[i as int] == n@);
            return true;
        }
        i = i + 1;
    }
    false
}

fn referenced_exec(e: &str) -> (r: Vec<String>)
    ensures
        strs_view(r@) == referenced(e@),
{
    let mut refs = extract_param_refs_from_expr(e);
    let bare = extract_bare_identifiers(e);
    let ghost bv = strs_view(bare@);
    let ghost r0 = strs_view(refs@);
    let mut i: usize = 0;
    while i < bare.len()
        invariant
            i <= bare@.len(),
            bv == strs_view(bare@),
            bv == bare_identifiers(e@),
            r0 == param_refs(e@),
            strs_view(refs@) == add_missing(r0, bv, i as nat),
        decreases bare@.len() - i,
    {
        assert(bv[i as int] == bare@[i as int]@);
        if !contains_name(&refs, bare[i].as_str()) {
            let ghost before = strs_view(refs@);
            refs.push(owned(bare[i].as_str()));
            assert(strs_view(refs@) =~= before.push(bv[i as int]));
        }
        i = i + 1;
    }
    refs
}

fn check_when_refs(names: &Vec<String>, ps: &Vec<TemplateParameter>, loc: &str, errors: &mut Vec<TemplateValidationError>)
    ensures
        terrs_view(final(errors)@) == terrs_view(old(errors)@) + when_ref_errors(strs_view(names@), ps@, loc@, names@.len()),
{
    let ghost nv = strs_view(names@);
    let ghost o = terrs_view(errors@);
    let mut i: usize = 0;
    while i < names.len()
        invariant
            i <= names@.len(),
            nv == strs_view(names@),
            terrs_view(errors@) == o + when_ref_errors(nv, ps@, loc@, i as nat),
        decreases names@.len() - i,
    {
        assert(nv[i as int] == names@[i as int]@);
        if !is_declared(ps, names[i].as_str()) {
            let mut reason = String::new();
            push_str(&mut reason, "template_when表达式引用了未声明的参数 '");
            push_str(&mut reason, names[i].as_str());
            push_str(&mut reason, "'");
            push_terr(errors, loc, reason);
        }
        assert(terrs_view(errors@) =~= o + when_ref_errors(nv, ps@, loc@, (i + 1) as nat));
        i = i + 1;
    }
}

fn check_repeat_refs(names: &Vec<String>, ps: &Vec<TemplateParameter>, loc: &str, errors: &mut Vec<TemplateValidationError>)
    ensures
        terrs_view(final(errors)@) == terrs_view(old(errors)@) + repeat_ref_errors(strs_view(names@), ps@, loc@, names@.len()),
{
    let ghost nv = strs_view(names@);
    let ghost o = terrs_view(errors@);
    let mut i: usize = 0;
    while i < names.len()
        invariant
            i <= names@.len(),
            nv == strs_view(names@),
            terrs_view(errors@) == o + repeat_ref_errors(nv, ps@, loc@, i as nat),
        decreases names@.len() - i,
    {
        assert(nv[i as int] == names@[i as int]@);
        match last_param_exec(ps, names[i].as_str()) {
            Some(p) => {
                if p.param_type != ParameterType::Int {
                    let mut reason = String::new();
                    push_str(&mut reason, "template_repeat引用的参数 '");
                    push_str(&mut reason, names[i].as_str());
                    push_str(&mut reason, "' 不是int类型 (实际: ");
                    let tn = p.param_type.name();
                    push_str(&mut reason, tn.as_str());
                    push_str(&mut reason, ")");
                    push_terr(errors, loc, reason);
                }
            },
            None => {
                let mut reason = String::new();
                push_str(&mut reason, "template_repeat引用了未声明的参数 '");
                push_str(&mut reason, names[i].as_str());
                push_str(&mut reason, "'");
                push_terr(errors, loc, reason);
            },
        }
        assert(terrs_view(errors@) =~= o + repeat_ref_errors(nv, ps@, loc@, (i + 1) as nat));
        i = i + 1;
    }
}

fn check_struct_template(st: &TemplateStructDefinition, ps: &Vec<TemplateParameter>, errors: &mut Vec<TemplateValidationError>)
    ensures
        terrs_view(final(errors)@) == terrs_view(old(errors)@) + struct_template_errors(*st, ps@, st.fields@.len()),
{
    let ghost o = terrs_view(errors@);
    let mut k: usize = 0;
    while k < st.fields.len()
        invariant
            k <= st.fields@.len(),
            terrs_view(errors@) == o + struct_template_errors(*st, ps@, k as nat),
        decreases st.fields@.len() - k,
    {
        let field = &st.fields[k];
        let mut loc = String::new();
        push_str(&mut loc, st.name.as_str());
        push_str(&mut loc, ".");
        push_str(&mut loc, field.name.as_str());
        let ghost before = terrs_view(errors@);
        match &field.template_when {
            Some(w) => {
                let names = referenced_exec(w.as_str());
                check_when_refs(&names, ps, loc.as_str(), errors);
            },
            None => {},
        }
        check_yaml_refs(&field.data_type, ps, loc.as_str(), errors);
        match &field.offset {
            Some(off) => check_refs_in(off.as_str(), "offset", ps, loc.as_str(), errors),
            None => {},
        }
        match &field.template_repeat {
            Some(x) => {
                let names = referenced_exec(x.as_str());
                check_repeat_refs(&names, ps, loc.as_str(), errors);
            },
            None => {},
        }
        assert(terrs_view(errors@) =~= before + field_template_errors(st.name@, *field, ps@));
        assert(terrs_view(errors@) =~= o + struct_template_errors(*st, ps@, (k + 1) as nat));
        k = k + 1;
    }
}

impl TemplateDefinition {
    /// The template's parameters; none where it declares none.
    pub fn get_parameters(&self) -> (r: &[TemplateParameter])
        ensures
            r@ == params_of(*self),
    {
        match &self.parameters {
            Some(v) => v.as_slice(),
            None => &[],
        }
    }

    /// Checks that the template's parameters are declared once with defaults of
    /// their type, and that its fields refer only to declared parameters.
    pub fn validate_template(&self) -> (r: Vec<TemplateValidationError>)
        ensures
            terrs_view(r@) == template_errors(*self),
    {
        let empty: Vec<TemplateParameter> = Vec::new();
        let ps: &Vec<TemplateParameter> = match &self.parameters {
            Some(v) => v,
            None => &empty,
        };
        assert(ps@ == params_of(*self));
        let mut errors: Vec<TemplateValidationError> = Vec::new();
        assert(terrs_view(errors@) =~= Seq::<(Seq<char>, Seq<char>)>::empty());
        let mut k: usize = 0;
        while k < ps.len()
            invariant
                k <= ps@.len(),
                terrs_view(errors@) == params_errors(ps@, k as nat),
            decreases ps@.len() - k,
        {
            let p = &ps[k];
            let mut loc = String::new();
            push_str(&mut loc, "parameters.");
            push_str(&mut loc, p.name.as_str());
            let ghost before = terrs_view(errors@);
            let mut j: usize = 0;
            let mut dup = false;
            while j < k && !dup
                invariant
                    j <= k < ps@.len(),
                    p == ps@[k as int],
                    dup ==> exists|q: int| 0 <= q < k && (#[trigger] ps@[q]).name@ == p.name@,
                    !dup ==> forall|q: int| 0 <= q < j ==> (#[trigger] ps@[q]).name@ != p.name@,
                decreases k - j + (if dup { 0int } else { 1int }),
            {
                if str_eq(ps[j].name.as_str(), p.name.as_str()) {
                    dup = true;
                } else {
                    j = j + 1;
                }
            }
            if dup {
                let mut reason = String::new();
                push_str(&mut reason, "参数名 '");
                push_str(&mut reason, p.name.as_str());
                push_str(&mut reason, "' 重复");
                push_terr(&mut errors, loc.as_str(), reason);
            }
            match &p.default {
                Some(d) => {
                    if !value_has_type_exec(p.param_type, d) {
                        let mut reason = String::new();
                        push_str(&mut reason, "参数 '");
                        push_str(&mut reason, p.name.as_str());
                        push_str(&mut reason, "' 的default值类型与声明类型不匹配 (期望: ");
                        let tn = p.param_type.name();
                        push_str(&mut reason, tn.as_str());
                        push_str(&mut reason, ")");
                        push_terr(&mut errors, loc.as_str(), reason);
                    }
                },
                None => {},
            }
            assert(terrs_view(errors@) =~= before + param_errors_at(ps@, k as int));
            assert(terrs_view(errors@) =~= params_errors(ps@, (k + 1) as nat));
            k = k + 1;
        }
        check_struct_template(&self.root, ps, &mut errors);
        let ghost e1 = terrs_view(errors@);
        let mut m: usize = 0;
        while m < self.structs.len()
            invariant
                m <= self.structs@.len(),
                ps@ == params_of(*self),
                terrs_view(errors@) == e1 + structs_template_errors(*self, m as nat),
            decreases self.structs@.len() - m,
        {
            check_struct_template(&self.structs[m], ps, &mut errors);
            assert(terrs_view(errors@) =~= e1 + structs_template_errors(*self, (m + 1) as nat));
            m = m + 1;
        }
        assert(terrs_view(errors@) =~= template_errors(*self));
        errors
    }
}

// ---------------------------------------------------------------------
// Checks that involve the templates a template extends.
// ---------------------------------------------------------------------

/// Errors for the first `n` root fields that name a field to replace which
/// the parent's root does not have.
pub open spec fn override_errors(t: TemplateDefinition, parent: TemplateDefinition, n: nat) -> Seq<(Seq<char>, Seq<char>)>
    decreases n,
{
    if n == 0 || n > t.root.fields@.len() {
        Seq::empty()
    } else {
        let prev = override_errors(t, parent, (n - 1) as nat);
        let f = t.root.fields@[n - 1];
        match f.override_field {
            Some(target) => if field_index(parent.root.fields@, target@, 0) is Some {
                prev
            } else {
                prev.push((t.root.name@ + "."@ + f.name@, "override_field引用的字段名 '"@ + target@ + "' 在父模板中不存在"@))
            },
            None => prev,
        }
    }
}

/// Errors for the first `n` parameters whose type differs from the parent's
/// first parameter of that name.
pub open spec fn conflict_errors(cps: Seq<TemplateParameter>, pps: Seq<TemplateParameter>, n: nat) -> Seq<(Seq<char>, Seq<char>)>
    decreases n,
{
    if n == 0 || n > cps.len() {
        Seq::empty()
    } else {
        let prev = conflict_errors(cps, pps, (n - 1) as nat);
        let cp = cps[n - 1];
        match param_index(pps, cp.name@, 0) {
            Some(i) => if pps[i as int].param_type != cp.param_type {
                prev.push(("parameters."@ + cp.name@, "与父模板参数类型冲突: 父模板类型为 "@ + param_type_name(pps[i as int].param_type)
                    + ", 子模板类型为 "@ + param_type_name(cp.param_type)))
            } else {
                prev
            },
            None => prev,
        }
    }
}

/// Every problem of a template that extends others, given the errors met
/// while loading its ancestors and the ancestors loaded (`ancestors[0]` its
/// parent): the loading errors, a chain deeper than three templates, root
/// fields that replace no field of the parent, parameters whose type differs
/// from the parent's, then the template's own problems.
pub open spec fn inheritance_errors(t: TemplateDefinition, ancestors: Seq<TemplateDefinition>,
    load: Seq<(Seq<char>, Seq<char>)>) -> Seq<(Seq<char>, Seq<char>)>
{
    if t.extends is None {
        template_errors(t)
    } else {
        let depth = if ancestors.len() + 1 > 3 {
            seq![("extends"@, "继承链超过最大深度 (最多3层)"@)]
        } else {
            Seq::empty()
        };
        let parent_errs = if ancestors.len() >= 1 {
            override_errors(t, ancestors[0], t.root.fields@.len())
                + conflict_errors(params_of(t), params_of(ancestors[0]), params_of(t).len())
        } else {
            Seq::empty()
        };
        load + depth + parent_errs + template_errors(t)
    }
}

impl TemplateDefinition {
    /// Checks a template together with the templates it extends. The caller
    /// loads the ancestors (`ancestors[0]` the parent) and hands over the
    /// errors it met doing so.
    pub fn validate_template_with_inheritance(&self, ancestors: &Vec<TemplateDefinition>,
        load_errors: Vec<TemplateValidationError>) -> (r: Vec<TemplateValidationError>)
        ensures
            terrs_view(r@) == inheritance_errors(*self, ancestors@, terrs_view(load_errors@)),
    {
        if self.extends.is_none() {
            return self.validate_template();
        }
        let mut errors = load_errors;
        let ghost o = terrs_view(errors@);
        if ancestors.len() > 2 {
            let mut reason = String::new();
            push_str(&mut reason, "继承链超过最大深度 (最多3层)");
            push_terr(&mut errors, "extends", reason);
        }
        let ghost o2 = terrs_view(errors@);
        if ancestors.len() >= 1 {
            let parent = &ancestors[0];
            let mut k: usize = 0;
            while k < self.root.fields.len()
                invariant
                    k <= self.root.fields@.len(),
                    ancestors@.len() >= 1,
                    *parent == ancestors@[0],
                    terrs_view(errors@) == o2 + override_errors(*self, *parent, k as nat),
                decreases self.root.fields@.len() - k,
            {
                let field = &self.root.fields[k];
                match &field.override_field {
                    Some(target) => {
                        match field_index_exec(&parent.root.fields, target.as_str()) {
                            Some(_) => {},
                            None => {
                                let mut loc = String::new();
                                push_str(&mut loc, self.root.name.as_str());
                                push_str(&mut loc, ".");
                                push_str(&mut loc, field.name.as_str());
                                let mut reason = String::new();
                                push_str(&mut reason, "override_field引用的字段名 '");
                                push_str(&mut reason, target.as_str());
                                push_str(&mut reason, "' 在父模板中不存在");
                                push_terr(&mut errors, loc.as_str(), reason);
                            },
                        }
                    },
                    None => {},
                }
                assert(terrs_view(errors@) =~= o2 + override_errors(*self, *parent, (k + 1) as nat));
                k = k + 1;
            }
            let ghost o3 = terrs_view(errors@);
            let empty1: Vec<TemplateParameter> = Vec::new();
            let empty2: Vec<TemplateParameter> = Vec::new();
            let cps: &Vec<TemplateParameter> = match &self.parameters { Some(v) => v, None => &empty1 };
            let pps: &Vec<TemplateParameter> = match &parent.parameters { Some(v) => v, None => &empty2 };
            let mut j: usize = 0;
            while j < cps.len()
                invariant
                    j <= cps@.len(),
                    terrs_view(errors@) == o3 + conflict_errors(cps@, pps@, j as nat),
                decreases cps@.len() - j,
            {
                let cp = &cps[j];
                match param_index_exec(pps, cp.name.as_str()) {
                    Some(i) => {
                        if pps[i].param_type != cp.param_type {
                            let mut loc = String::new();
                            push_str(&mut loc, "parameters.");
                            push_str(&mut loc, cp.name.as_str());
                            let mut reason = String::new();
                            push_str(&mut reason, "与父模板参数类型冲突: 父模板类型为 ");
                            let pn = pps[i].param_type.name();
                            push_str(&mut reason, pn.as_str());
                            push_str(&mut reason, ", 子模板类型为 ");
                            let cn = cp.param_type.name();
                            push_str(&mut reason, cn.as_str());
                            push_terr(&mut errors, loc.as_str(), reason);
                        }
                    },
                    None => {},
                }
                assert(terrs_view(errors@) =~= o3 + conflict_errors(cps@, pps@, (j + 1) as nat));
                j = j + 1;
            }
        }
        let mut own = self.validate_template();
        let ghost e4 = terrs_view(errors@);
        let ghost ov = terrs_view(own@);
        errors.append(&mut own);
        assert(terrs_view(errors@) =~= e4 + ov);
        assert(terrs_view(errors@) =~= inheritance_errors(*self, ancestors@, o));
        errors
    }
}

// ---------------------------------------------------------------------
// Parameters merged over the chain, for display.
// ---------------------------------------------------------------------

pub open spec fn info_index(v: Seq<MergedParamInfo>, n: Seq<char>, i: nat) -> Option<nat>
    decreases v.len() - i,
{
    if i >= v.len() { None } else if v[i as int].param.name@ == n { Some(i) } else { info_index(v, n, i + 1) }
}

/// The ancestors' parameters, the farthest ancestor's first, none marked.
pub open spec fn ancestor_infos(anc: Seq<TemplateDefinition>, m: nat) -> Seq<MergedParamInfo>
    decreases m,
{
    if m == 0 || m > anc.len() {
        Seq::empty()
    } else {
        ancestor_infos(anc, (m - 1) as nat)
            + params_of(anc[anc.len() - m]).map_values(|p: TemplateParameter| MergedParamInfo { param: p, overridden: false })
    }
}

/// The first `n` of the template's parameters put in: each replaces the first
/// entry of its name, marked as overriding, or is added unmarked.
pub open spec fn put_infos(acc: Seq<MergedParamInfo>, cps: Seq<TemplateParameter>, n: nat) -> Seq<MergedParamInfo>
    decreases n,
{
    if n == 0 || n > cps.len() {
        acc
    } else {
        let a = put_infos(acc, cps, (n - 1) as nat);
        let cp = cps[n - 1];
        match info_index(a, cp.name@, 0) {
            Some(i) => a.update(i as int, MergedParamInfo { param: cp, overridden: true }),
            None => a.push(MergedParamInfo { param: cp, overridden: false }),
        }
    }
}

pub open spec fn merged_param_infos(t: TemplateDefinition, anc: Seq<TemplateDefinition>) -> Seq<MergedParamInfo> {
    if t.extends is None {
        params_of(t).map_values(|p: TemplateParameter| MergedParamInfo { param: p, overridden: false })
    } else {
        put_infos(ancestor_infos(anc, anc.len()), params_of(t), params_of(t).len())
    }
}

fn info_index_exec(v: &Vec<MergedParamInfo>, n: &str) -> (r: Option<usize>)
    ensures
        match info_index(v@, n@, 0) {
            Some(i) => (r matches Some(q) && q as nat == i && i < v@.len()),
            None => r is None,
        },
{
    let mut i: usize = 0;
    while i < v.len()
        invariant
            i <= v@.len(),
            info_index(v@, n@, 0) == info_index(v@, n@, i as nat),
        decreases v@.len() - i,
    {
        if str_eq(v[i].param.name.as_str(), n) {
            return Some(i);
        }
        i = i + 1;
    }
    None
}

fn push_infos(out: &mut Vec<MergedParamInfo>, ps: Vec<TemplateParameter>)
    ensures
        final(out)@ == old(out)@ + ps@.map_values(|p: TemplateParameter| MergedParamInfo { param: p, overridden: false }),
{
    let ghost all = ps@;
    let ghost o = out@;
    let mut rest = ps;
    let total = rest.len();
    let mut k: usize = 0;
    while rest.len() > 0
        invariant
            total == all.len(),
            k + rest@.len() == all.len(),
            rest@ == all.skip(k as int),
            out@ == o + all.take(k as int).map_values(|p: TemplateParameter| MergedParamInfo { param: p, overridden: false }),
        decreases rest@.len(),
    {
        let p = rest.remove(0);
        assert(p == all[k as int]);
        out.push(MergedParamInfo { param: p, overridden: false });
        assert(rest@ =~= all.skip(k + 1));
        assert(out@ =~= o + all.take(k + 1).map_values(|p: TemplateParameter| MergedParamInfo { param: p, overridden: false }));
        k = k + 1;
    }
    assert(all.take(all.len() as int) =~= all);
}

impl TemplateDefinition {
    /// The parameters of the template and of the templates it extends, as one
    /// list: the ancestors' first, the farthest first; a parameter of the
    /// template itself replaces the first of its name and is marked as
    /// overriding it. The caller loads the ancestors (`ancestors[0]` the parent).
    pub fn get_merged_params(self, ancestors: Vec<TemplateDefinition>) -> (r: Vec<MergedParamInfo>)
        ensures
            r@ == merged_param_infos(self, ancestors@),
    {
        let ghost t = self;
        let ghost anc = ancestors@;
        let mut out: Vec<MergedParamInfo> = Vec::new();
        if self.extends.is_none() {
            push_infos(&mut out, take_vec(self.parameters));
            assert(out@ =~= merged_param_infos(t, anc));
            return out;
        }
        let mut rest = ancestors;
        let total_anc = rest.len();
        let mut m: usize = 0;
        assert(out@ =~= ancestor_infos(anc, 0));
        while rest.len() > 0
            invariant
                total_anc == anc.len(),
                rest@.len() + m == anc.len(),
                rest@ == anc.take(rest@.len() as int),
                out@ == ancestor_infos(anc, m as nat),
            decreases rest@.len(),
        {
            let a = match rest.pop() {
                Some(x) => x,
                None => {
                    assert(false);
                    return out;
                },
            };
            assert(a == anc[anc.len() - (m + 1)]);
            assert(rest@ =~= anc.take(rest@.len() as int));
            push_infos(&mut out, take_vec(a.parameters));
            m = m + 1;
        }
        let cps = take_vec(self.parameters);
        let ghost call = cps@;
        let ghost a0 = out@;
        let mut crest = cps;
        let total = crest.len();
        let mut k: usize = 0;
        while crest.len() > 0
            invariant
                total == call.len(),
                k + crest@.len() == call.len(),
                crest@ == call.skip(k as int),
                out@ == put_infos(a0, call, k as nat),
            decreases crest@.len(),
        {
            let cp = crest.remove(0);
            assert(cp == call[k as int]);
            match info_index_exec(&out, cp.name.as_str()) {
                Some(i) => out.set(i, MergedParamInfo { param: cp, overridden: true }),
                None => out.push(MergedParamInfo { param: cp, overridden: false }),
            }
            assert(crest@ =~= call.skip(k + 1));
            k = k + 1;
        }
        out
    }
}

// ---------------------------------------------------------------------
// Reading a template from a YAML tree.
// ---------------------------------------------------------------------

pub struct TStructModel {
    pub name: String,
    pub magic: Option<Seq<u8>>,
    pub fields: Seq<TemplateField>,
}

pub struct TemplateModel {
    pub extends: Option<String>,
    pub parameters: Option<Seq<TemplateParameter>>,
    pub name: String,
    pub magic: Option<Seq<u8>>,
    pub enums: Seq<EnumModel>,
    pub structs: Seq<TStructModel>,
    pub root: TStructModel,
}

impl View for TemplateStructDefinition {
    type V = TStructModel;

    open spec fn view(&self) -> TStructModel {
        TStructModel { name: self.name, magic: bytes_view(self.magic), fields: self.fields@ }
    }
}

impl View for TemplateDefinition {
    type V = TemplateModel;

    open spec fn view(&self) -> TemplateModel {
        TemplateModel {
            extends: self.extends,
            parameters: match self.parameters { Some(v) => Some(v@), None => None },
            name: self.name,
            magic: bytes_view(self.magic),
            enums: self.enums@.map_values(|e: EnumDefinition| e@),
            structs: self.structs@.map_values(|st: TemplateStructDefinition| st@),
            root: self.root@,
        }
    }
}

pub open spec fn param_type_named(s: Seq<char>) -> Option<ParameterType> {
    if s == "int"@ {
        Some(ParameterType::Int)
    } else if s == "string"@ {
        Some(ParameterType::String)
    } else if s == "bool"@ {
        Some(ParameterType::Bool)
    } else {
        None
    }
}

/// An optional node: absent or null reads as none.
pub open spec fn opt_node(x: Option<YamlValue>) -> Option<YamlValue> {
    match x {
        Some(YamlValue::Null) => None,
        _ => x,
    }
}

pub open spec fn template_param_of(v: YamlValue) -> Option<TemplateParameter> {
    match v {
        YamlValue::Mapping(mv) => {
            let m = mv@;
            let t = match map_get(m, "type"@) {
                Some(YamlValue::Str(s)) => param_type_named(s@),
                _ => None,
            };
            match (req_text_at(m, "name"@), t) {
                (Some(name), Some(param_type)) => Some(TemplateParameter { name, param_type, default: opt_node(map_get(m, "default"@)) }),
                _ => None,
            }
        },
        _ => None,
    }
}

/// A template field as the YAML states it; its `type` node is kept as it is.
pub open spec fn template_field_of(v: YamlValue) -> Option<TemplateField> {
    match v {
        YamlValue::Mapping(mv) => {
            let m = mv@;
            match (req_text_at(m, "name"@), opt_text_at(m, "offset"@), map_get(m, "type"@), endian_at(m),
                display_format_at(m), condition_at(m), checksum_at(m), opt_text_at(m, "description"@),
                opt_text_at(m, "template_when"@), opt_text_at(m, "template_repeat"@), opt_text_at(m, "override_field"@)) {
                (Some(name), Some(offset), Some(data_type), Some(endian), Some(display_format), Some(condition),
                    Some(checksum), Some(description), Some(template_when), Some(template_repeat), Some(override_field)) =>
                    Some(TemplateField { name, offset, data_type, endian, display_format, condition, checksum, description,
                        template_when, template_repeat, override_field }),
                _ => None,
            }
        },
        _ => None,
    }
}

pub open spec fn tstruct_of(v: YamlValue) -> Option<TStructModel> {
    match v {
        YamlValue::Mapping(mv) => match (req_text_at(mv@, "name"@), magic_at(mv@),
            list_at(mv@, "fields"@, false, |x: YamlValue| template_field_of(x))) {
            (Some(name), Some(magic), Some(fields)) => Some(TStructModel { name, magic, fields }),
            _ => None,
        },
        _ => None,
    }
}

pub open spec fn params_at(m: Seq<(YamlValue, YamlValue)>) -> Option<Option<Seq<TemplateParameter>>> {
    match map_get(m, "parameters"@) {
        None => Some(None),
        Some(YamlValue::Null) => Some(None),
        Some(YamlValue::List(items)) => match list_of(items@, |x: YamlValue| template_param_of(x)) {
            Some(ps) => Some(Some(ps)),
            None => None,
        },
        _ => None,
    }
}

/// The template a YAML tree states.
pub open spec fn template_of(v: YamlValue) -> Option<TemplateModel> {
    match v {
        YamlValue::Mapping(mv) => {
            let m = mv@;
            let root = match map_get(m, "root"@) { Some(r) => tstruct_of(r), None => None };
            match (opt_text_at(m, "extends"@), params_at(m), req_text_at(m, "name"@), magic_at(m),
                list_at(m, "enums"@, true, |x: YamlValue| enum_of(x)), list_at(m, "structs"@, true, |x: YamlValue| tstruct_of(x)), root) {
                (Some(extends), Some(parameters), Some(name), Some(magic), Some(enums), Some(structs), Some(root)) =>
                    Some(TemplateModel { extends, parameters, name, magic, enums, structs, root }),
                _ => None,
            }
        },
        _ => None,
    }
}

proof fn lemma_find_key_same_keys(a: Seq<(YamlValue, YamlValue)>, b: Seq<(YamlValue, YamlValue)>, key: Seq<char>)
    requires
        a.len() == b.len(),
        forall|j: int| 0 <= j < a.len() ==> (#[trigger] a[j]).0 == b[j].0,
    ensures
        find_key(a, key) == find_key(b, key),
    decreases a.len(),
{
    if a.len() > 0 {
        lemma_find_key_same_keys(a.drop_last(), b.drop_last(), key);
    }
}

/// Moves the value stored under `key` out of a mapping, leaving null in its place.
pub(crate) fn take_node(m: &mut Vec<(YamlValue, YamlValue)>, key: &str) -> (r: Option<YamlValue>)
    ensures
        r == map_get(old(m)@, key@),
        forall|k: Seq<char>| k != key@ ==> map_get(final(m)@, k) == #[trigger] map_get(old(m)@, k),
{
    let ghost o = m@;
    proof { lemma_find_key_bounds(o, key@); }
    let mut i: usize = 0;
    while i < m.len()
        invariant
            i <= m@.len(),
            m@ == o,
            o == old(m)@,
            forall|j: int| 0 <= j < i ==> !key_is(#[trigger] o[j].0, key@),
        decreases m@.len() - i,
    {
        let is_key = match &m[i].0 {
            YamlValue::Str(s) => str_eq(s.as_str(), key),
            _ => false,
        };
        if is_key {
            proof { lemma_find_key_bounds(o, key@); }
            assert(key_is(o[i as int].0, key@));
            assert(find_key(o, key@) == Some(i as int)) by {
                match find_key(o, key@) {
                    Some(q) => {
                        if q < i { assert(!key_is(o[q].0, key@)); }
                    },
                    None => {
                        assert(!key_is(o[i as int].0, key@));
                    },
                }
            }
            let (k, val) = m.remove(i);
            m.insert(i, (k, YamlValue::Null));
            assert(m@ =~= o.update(i as int, (o[i as int].0, YamlValue::Null)));
            assert forall|k2: Seq<char>| k2 != key@ implies map_get(m@, k2) == #[trigger] map_get(o, k2) by {
                lemma_find_key_same_keys(m@, o, k2);
                lemma_find_key_bounds(o, k2);
                match find_key(o, k2) {
                    Some(q) => {
                        if q == i {
                            assert(key_is(o[q].0, k2));
                        }
                    },
                    None => {},
                }
            }
            return Some(val);
        }
        i = i + 1;
    }
    proof { lemma_find_key_bounds(o, key@); }
    assert(find_key(o, key@) is None) by {
        match find_key(o, key@) {
            Some(q) => {
                assert(key_is(o[q].0, key@));
            },
            None => {},
        }
    }
    None
}

pub open spec fn param_type_at(m: Seq<(YamlValue, YamlValue)>) -> Option<ParameterType> {
    match map_get(m, "type"@) {
        Some(YamlValue::Str(s)) => param_type_named(s@),
        _ => None,
    }
}

fn param_type_at_exec(m: &Vec<(YamlValue, YamlValue)>) -> (r: Option<ParameterType>)
    ensures
        r == param_type_at(m@),
{
    match yaml_get(m, "type") {
        Some(YamlValue::Str(s)) => {
            if str_eq(s.as_str(), "int") {
                Some(ParameterType::Int)
            } else if str_eq(s.as_str(), "string") {
                Some(ParameterType::String)
            } else if str_eq(s.as_str(), "bool") {
                Some(ParameterType::Bool)
            } else {
                None
            }
        },
        _ => None,
    }
}

fn template_param_from(v: YamlValue) -> (r: Result<TemplateParameter, String>)
    ensures
        match template_param_of(v) {
            Some(p) => r == Ok::<TemplateParameter, String>(p),
            None => r is Err,
        },
{
    match v {
        YamlValue::Mapping(mv) => {
            let mut m = mv;
            let ghost m0 = m@;
            let name = match req_text_at_exec(&m, "name") { Ok(x) => x, Err(e) => return Err(e) };
            let param_type = match param_type_at_exec(&m) {
                Some(t) => t,
                None => return Err(missing("type")),
            };
            assert(param_type_at(m0) == Some(param_type));
            let d = take_node(&mut m, "default");
            let default = match d {
                Some(YamlValue::Null) => None,
                other => other,
            };
            Ok(TemplateParameter { name, param_type, default })
        },
        _ => Err(owned("a parameter must be a mapping")),
    }
}

fn template_field_from(v: YamlValue) -> (r: Result<TemplateField, String>)
    ensures
        match template_field_of(v) {
            Some(f) => r == Ok::<TemplateField, String>(f),
            None => r is Err,
        },
{
    match v {
        YamlValue::Mapping(mv) => {
            let mut m = mv;
            let name = match req_text_at_exec(&m, "name") { Ok(x) => x, Err(e) => return Err(e) };
            let offset = match opt_text_at_exec(&m, "offset") { Ok(x) => x, Err(e) => return Err(e) };
            let endian = match endian_at_exec(&m) { Ok(x) => x, Err(e) => return Err(e) };
            let display_format = match display_format_at_exec(&m) { Ok(x) => x, Err(e) => return Err(e) };
            let condition = match condition_at_exec(&m) { Ok(x) => x, Err(e) => return Err(e) };
            let checksum = match checksum_at_exec(&m) { Ok(x) => x, Err(e) => return Err(e) };
            let description = match opt_text_at_exec(&m, "description") { Ok(x) => x, Err(e) => return Err(e) };
            let template_when = match opt_text_at_exec(&m, "template_when") { Ok(x) => x, Err(e) => return Err(e) };
            let template_repeat = match opt_text_at_exec(&m, "template_repeat") { Ok(x) => x, Err(e) => return Err(e) };
            let override_field = match opt_text_at_exec(&m, "override_field") { Ok(x) => x, Err(e) => return Err(e) };
            let data_type = match take_node(&mut m, "type") {
                Some(t) => t,
                None => return Err(missing("type")),
            };
            Ok(TemplateField { name, offset, data_type, endian, display_format, condition, checksum, description,
                template_when, template_repeat, override_field })
        },
        _ => Err(owned("a field must be a mapping")),
    }
}

fn template_params_from(items: Vec<YamlValue>) -> (r: Result<Vec<TemplateParameter>, String>)
    ensures
        match list_of(items@, |x: YamlValue| template_param_of(x)) {
            Some(ps) => r is Ok && r.unwrap()@ == ps,
            None => r is Err,
        },
{
    let ghost all = items@;
    let mut rest = items;
    let total = rest.len();
    let mut out: Vec<TemplateParameter> = Vec::new();
    let mut k: usize = 0;
    assert(all.take(0) =~= Seq::<YamlValue>::empty());
    while rest.len() > 0
        invariant
            all == items@,
            total == all.len(),
            k + rest@.len() == all.len(),
            rest@ == all.skip(k as int),
            list_of(all.take(k as int), |x: YamlValue| template_param_of(x)) == Some(out@),
        decreases rest@.len(),
    {
        let x = rest.remove(0);
        assert(x == all[k as int]);
        assert(all.take(k + 1).drop_last() =~= all.take(k as int));
        match template_param_from(x) {
            Ok(p) => out.push(p),
            Err(e) => {
                assert(template_param_of(all[k as int]) is None);
                proof { lemma_list_of_fails(all, k as int, |x: YamlValue| template_param_of(x)); }
                assert(list_of(all, |x: YamlValue| template_param_of(x)) is None);
                return Err(e);
            },
        }
        assert(rest@ =~= all.skip(k + 1));
        k = k + 1;
    }
    assert(all.take(all.len() as int) =~= all);
    Ok(out)
}

fn template_fields_from(items: Vec<YamlValue>) -> (r: Result<Vec<TemplateField>, String>)
    ensures
        match list_of(items@, |x: YamlValue| template_field_of(x)) {
            Some(fs) => r is Ok && r.unwrap()@ == fs,
            None => r is Err,
        },
{
    let ghost all = items@;
    let mut rest = items;
    let total = rest.len();
    let mut out: Vec<TemplateField> = Vec::new();
    let mut k: usize = 0;
    assert(all.take(0) =~= Seq::<YamlValue>::empty());
    while rest.len() > 0
        invariant
            all == items@,
            total == all.len(),
            k + rest@.len() == all.len(),
            rest@ == all.skip(k as int),
            list_of(all.take(k as int), |x: YamlValue| template_field_of(x)) == Some(out@),
        decreases rest@.len(),
    {
        let x = rest.remove(0);
        assert(x == all[k as int]);
        assert(all.take(k + 1).drop_last() =~= all.take(k as int));
        match template_field_from(x) {
            Ok(p) => out.push(p),
            Err(e) => {
                assert(template_field_of(all[k as int]) is None);
                proof { lemma_list_of_fails(all, k as int, |x: YamlValue| template_field_of(x)); }
                assert(list_of(all, |x: YamlValue| template_field_of(x)) is None);
                return Err(e);
            },
        }
        assert(rest@ =~= all.skip(k + 1));
        k = k + 1;
    }
    assert(all.take(all.len() as int) =~= all);
    Ok(out)
}

fn tstruct_from(v: YamlValue) -> (r: Result<TemplateStructDefinition, String>)
    ensures
        match tstruct_of(v) {
            Some(st) => r is Ok && r.unwrap()@ == st,
            None => r is Err,
        },
{
    match v {
        YamlValue::Mapping(mv) => {
            let mut m = mv;
            let ghost m0 = m@;
            let name = match req_text_at_exec(&m, "name") { Ok(x) => x, Err(e) => return Err(e) };
            let magic = match magic_at_exec(&m) { Ok(x) => x, Err(e) => return Err(e) };
            let fields = match take_node(&mut m, "fields") {
                Some(YamlValue::List(items)) => match template_fields_from(items) {
                    Ok(fs) => fs,
                    Err(e) => return Err(e),
                },
                _ => return Err(missing("fields")),
            };
            Ok(TemplateStructDefinition { name, magic, fields })
        },
        _ => Err(owned("a struct must be a mapping")),
    }
}

fn tstructs_from(items: Vec<YamlValue>) -> (r: Result<Vec<TemplateStructDefinition>, String>)
    ensures
        match list_of(items@, |x: YamlValue| tstruct_of(x)) {
            Some(ss) => r is Ok && r.unwrap()@.map_values(|st: TemplateStructDefinition| st@) == ss,
            None => r is Err,
        },
{
    let ghost all = items@;
    let mut rest = items;
    let total = rest.len();
    let mut out: Vec<TemplateStructDefinition> = Vec::new();
    let mut k: usize = 0;
    assert(all.take(0) =~= Seq::<YamlValue>::empty());
    assert(out@.map_values(|st: TemplateStructDefinition| st@) =~= Seq::<TStructModel>::empty());
    while rest.len() > 0
        invariant
            all == items@,
            total == all.len(),
            k + rest@.len() == all.len(),
            rest@ == all.skip(k as int),
            list_of(all.take(k as int), |x: YamlValue| tstruct_of(x)) == Some(out@.map_values(|st: TemplateStructDefinition| st@)),
        decreases rest@.len(),
    {
        let x = rest.remove(0);
        assert(x == all[k as int]);
        assert(all.take(k + 1).drop_last() =~= all.take(k as int));
        match tstruct_from(x) {
            Ok(st) => {
                let ghost before = out@;
                out.push(st);
                assert(out@.map_values(|st: TemplateStructDefinition| st@)
                    =~= before.map_values(|st: TemplateStructDefinition| st@).push(st@));
            },
            Err(e) => {
                assert(tstruct_of(all[k as int]) is None);
                proof { lemma_list_of_fails(all, k as int, |x: YamlValue| tstruct_of(x)); }
                assert(list_of(all, |x: YamlValue| tstruct_of(x)) is None);
                return Err(e);
            },
        }
        assert(rest@ =~= all.skip(k + 1));
        k = k + 1;
    }
    assert(all.take(all.len() as int) =~= all);
    Ok(out)
}

/// Reads a template from a YAML tree, as the template's schema says.
pub fn template_from_tree(v: YamlValue) -> (r: Result<TemplateDefinition, String>)
    ensures
        match template_of(v) {
            Some(t) => r is Ok && r.unwrap()@ == t,
            None => r is Err,
        },
{
    match v {
        YamlValue::Mapping(mv) => {
            let mut m = mv;
            let ghost m0 = m@;
            proof {
                reveal_strlit("parameters");
                reveal_strlit("structs");
                reveal_strlit("root");
            }
            let extends = match opt_text_at_exec(&m, "extends") { Ok(x) => x, Err(e) => return Err(e) };
            let name = match req_text_at_exec(&m, "name") { Ok(x) => x, Err(e) => return Err(e) };
            let magic = match magic_at_exec(&m) { Ok(x) => x, Err(e) => return Err(e) };
            let enums = match yaml_get(&m, "enums") {
                None => Vec::new(),
                Some(YamlValue::List(items)) => match enums_from_yaml(items) {
                    Ok(es) => es,
                    Err(e) => return Err(e),
                },
                _ => return Err(missing("enums")),
            };
            assert(enums@.map_values(|e: EnumDefinition| e@) =~= list_at(m0, "enums"@, true, |x: YamlValue| enum_of(x)).unwrap());
            let parameters = match take_node(&mut m, "parameters") {
                None => None,
                Some(YamlValue::Null) => None,
                Some(YamlValue::List(items)) => match template_params_from(items) {
                    Ok(ps) => Some(ps),
                    Err(e) => return Err(e),
                },
                _ => return Err(missing("parameters")),
            };
            let ghost m1 = m@;
            assert("structs"@.len() == 7 && "parameters"@.len() == 10 && "root"@.len() == 4);
            assert("structs"@ != "parameters"@);
            assert("root"@ != "parameters"@);
            assert(map_get(m1, "structs"@) == map_get(m0, "structs"@));
            assert(map_get(m1, "root"@) == map_get(m0, "root"@));
            let structs = match take_node(&mut m, "structs") {
                None => Vec::new(),
                Some(YamlValue::List(items)) => match tstructs_from(items) {
                    Ok(ss) => ss,
                    Err(e) => return Err(e),
                },
                _ => return Err(missing("structs")),
            };
            assert(structs@.map_values(|st: TemplateStructDefinition| st@)
                =~= list_at(m0, "structs"@, true, |x: YamlValue| tstruct_of(x)).unwrap());
            let ghost m2 = m@;
            assert(map_get(m2, "root"@) == map_get(m1, "root"@));
            let root = match take_node(&mut m, "root") {
                Some(rv) => match tstruct_from(rv) {
                    Ok(st) => st,
                    Err(e) => return Err(e),
                },
                None => return Err(missing("root")),
            };
            Ok(TemplateDefinition { extends, parameters, name, magic, enums, structs, root })
        },
        _ => Err(owned("a template must be a mapping")),
    }
}

// ---------------------------------------------------------------------
// Errors, and reading a template from YAML text.
// ---------------------------------------------------------------------

/// Why a template could not be read or used.
#[derive(Debug)]
pub enum TemplateError {
    ParameterTypeError { name: String, expected: String, value: String },
    MissingParameter(String),
    TemplateDefinitionError(String),
    YamlError(String),
    IoError(String),
    ExpressionError(String),
    MaxInheritanceDepthExceeded,
    InheritanceError(String),
}

pub open spec fn template_error_text(e: TemplateError) -> Seq<char> {
    match e {
        TemplateError::ParameterTypeError { name, expected, value } =>
            "参数类型错误: 参数 '"@ + name@ + "' 期望类型为 "@ + expected@ + ", 实际值为 '"@ + value@ + "'"@,
        TemplateError::MissingParameter(n) => "缺少必填参数: '"@ + n@ + "'"@,
        TemplateError::TemplateDefinitionError(m) => "模板定义错误: "@ + m@,
        TemplateError::YamlError(m) => "YAML解析错误: "@ + m@,
        TemplateError::IoError(m) => "IO错误: "@ + m@,
        TemplateError::ExpressionError(m) => "条件表达式求值错误: "@ + m@,
        TemplateError::MaxInheritanceDepthExceeded => "超过最大继承深度 (最多3层)"@,
        TemplateError::InheritanceError(m) => "模板继承错误: "@ + m@,
    }
}

impl TemplateError {
    /// The error's text.
    pub fn message(&self) -> (r: String)
        ensures
            r@ == template_error_text(*self),
    {
        let mut s = String::new();
        match self {
            TemplateError::ParameterTypeError { name, expected, value } => {
                push_str(&mut s, "参数类型错误: 参数 '");
                push_str(&mut s, name.as_str());
                push_str(&mut s, "' 期望类型为 ");
                push_str(&mut s, expected.as_str());
                push_str(&mut s, ", 实际值为 '");
                push_str(&mut s, value.as_str());
                push_str(&mut s, "'");
            },
            TemplateError::MissingParameter(n) => {
                push_str(&mut s, "缺少必填参数: '");
                push_str(&mut s, n.as_str());
                push_str(&mut s, "'");
            },
            TemplateError::TemplateDefinitionError(m) => {
                push_str(&mut s, "模板定义错误: ");
                push_str(&mut s, m.as_str());
            },
            TemplateError::YamlError(m) => {
                push_str(&mut s, "YAML解析错误: ");
                push_str(&mut s, m.as_str());
            },
            TemplateError::IoError(m) => {
                push_str(&mut s, "IO错误: ");
                push_str(&mut s, m.as_str());
            },
            TemplateError::ExpressionError(m) => {
                push_str(&mut s, "条件表达式求值错误: ");
                push_str(&mut s, m.as_str());
            },
            TemplateError::MaxInheritanceDepthExceeded => {
                push_str(&mut s, "超过最大继承深度 (最多3层)");
            },
            TemplateError::InheritanceError(m) => {
                push_str(&mut s, "模板继承错误: ");
                push_str(&mut s, m.as_str());
            },
        }
        assert(s@ =~= template_error_text(*self));
        s
    }
}

/// The most templates a chain of inheritance may hold, the template itself included.
pub const MAX_INHERITANCE_DEPTH: usize = 3;

/// Refuses a chain of inheritance longer than `MAX_INHERITANCE_DEPTH`.
pub fn check_inheritance_depth(chain_len: usize) -> (r: Result<(), TemplateError>)
    ensures
        chain_len <= MAX_INHERITANCE_DEPTH ==> r is Ok,
        chain_len > MAX_INHERITANCE_DEPTH ==> r matches Err(TemplateError::MaxInheritanceDepthExceeded),
{
    if chain_len > MAX_INHERITANCE_DEPTH {
        Err(TemplateError::MaxInheritanceDepthExceeded)
    } else {
        Ok(())
    }
}

/// What loading a chain of inheritance does next.
#[derive(Debug, PartialEq, Eq)]
pub enum InheritanceStep {
    /// Load the template at this `extends` path and add it to the chain.
    Load(String),
    /// The last template extends none: the chain is complete.
    Done,
    /// The chain holds more than `MAX_INHERITANCE_DEPTH` templates.
    TooDeep,
}

/// The next step of loading a chain that holds `chain_len` templates, the last
/// of which extends `extends`: too deep first, then the parent to load, if any.
pub fn inheritance_step(chain_len: usize, extends: &Option<String>) -> (r: InheritanceStep)
    ensures
        chain_len > MAX_INHERITANCE_DEPTH ==> r == InheritanceStep::TooDeep,
        chain_len <= MAX_INHERITANCE_DEPTH ==> match extends {
            Some(p) => (r matches InheritanceStep::Load(q) && q@ == p@),
            None => r == InheritanceStep::Done,
        },
{
    if chain_len > MAX_INHERITANCE_DEPTH {
        InheritanceStep::TooDeep
    } else {
        match extends {
            Some(p) => InheritanceStep::Load(p.clone()),
            None => InheritanceStep::Done,
        }
    }
}

impl TemplateDefinition {
    /// Reads a template from YAML text.
    pub fn from_yaml(yaml_str: &str) -> (r: Result<TemplateDefinition, TemplateError>)
        ensures
            match yaml_document(yaml_str@) {
                Ok(tree) => match template_of(tree) {
                    Some(t) => r is Ok && r.unwrap()@ == t,
                    None => r matches Err(TemplateError::YamlError(_)),
                },
                Err(_) => r matches Err(TemplateError::YamlError(_)),
            },
    {
        match parse_yaml(yaml_str) {
            Ok(tree) => match template_from_tree(tree) {
                Ok(t) => Ok(t),
                Err(m) => Err(TemplateError::YamlError(m)),
            },
            Err(m) => Err(TemplateError::YamlError(m)),
        }
    }
}

} // verus!
