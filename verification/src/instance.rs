//! Parameter values: how they print, how they are checked against their
//! declared types, and the tables that list a template's parameters.

use vstd::prelude::*;
use serde_yaml::Value;
use evalexpr::ContextWithMutableVariables;
use crate::yaml::{YamlValue, untag, as_str, untag_ref, parse_yaml, yaml_document, map_get, tags_nonempty, tags_ok};
use crate::dsl::{req_text_at, req_text_at_exec};
use crate::template::{
    ParameterType, TemplateParameter, MergedParamInfo, TemplateError, TemplateDefinition, param_type_name, value_has_type,
    value_has_type_exec, params_of, take_node,
};
use crate::text::{push_str, push_char, owned, chars_of, string_from_chars, str_eq};
use crate::expr::{replace_all, replace_chars, names_risky_builtin, risky_builtin, refused_text, refused_message};
use crate::numfmt::{signed_str, push_signed};

verus! {

// ---------------------------------------------------------------------
// How a YAML value prints.
// ---------------------------------------------------------------------


/// What `format!("{:?}", value)` prints for the node as a `serde_yaml::Value`.
pub uninterp spec fn yaml_debug(v: YamlValue) -> Seq<char>;

/// An integer as a `serde_yaml` number; used only by `yaml_back`.
#[verifier::external_body]
fn int_back(i: i128) -> Value {
    match i64::try_from(i) {
        Ok(x) => Value::Number(x.into()),
        Err(_) => Value::Number(u64::try_from(i).unwrap_or(u64::MAX).into()),
    }
}

/// A tagged node as a `serde_yaml` value; used only by `yaml_back`.
/// `serde_yaml::value::Tag::new` panics on an empty tag, which is left out.
#[verifier::external_body]
fn tagged_back(t: &String, inner: &YamlValue) -> Value
    requires
        t@.len() > 0,
        tags_nonempty(*inner),
{
    let tag = serde_yaml::value::Tag::new(t.clone());
    Value::Tagged(Box::new(serde_yaml::value::TaggedValue { tag, value: yaml_back(inner) }))
}

/// The node as a `serde_yaml::Value`; used only by `yaml_debug_text`. A node
/// with an empty tag is left out, as `tagged_back` needs.
#[verifier::external_body]
fn yaml_back(v: &YamlValue) -> Value
    requires
        tags_nonempty(*v),
{
    match v {
        YamlValue::Null => Value::Null,
        YamlValue::Bool(b) => Value::Bool(*b),
        YamlValue::Int(i, _) => int_back(*i),
        YamlValue::Float(t) => serde_yaml::from_str::<Value>(t).unwrap_or(Value::Null),
        YamlValue::Str(s) => Value::String(s.clone()),
        YamlValue::List(items) => Value::Sequence(items.iter().map(yaml_back).collect()),
        YamlValue::Mapping(m) => Value::Mapping(m.iter().map(|(k, x)| (yaml_back(k), yaml_back(x))).collect()),
        YamlValue::Tagged(t, inner) => tagged_back(t, inner),
    }
}

/// Prints the node with `serde_yaml::Value`'s `Debug`. The contract names the
/// text: it is taken to be a function of the node alone.
#[verifier::external_body]
pub fn yaml_debug_text(v: &YamlValue) -> (r: String)
    requires
        tags_nonempty(*v),
    ensures
        r@ == yaml_debug(*v),
{
    format!("{:?}", yaml_back(v))
}

pub open spec fn bool_text(b: bool) -> Seq<char> {
    if b { "true"@ } else { "false"@ }
}

/// How a value prints where it replaces a `${name}` placeholder: a number or
/// a boolean as written, a string as it is, anything else as its `Debug`.
pub open spec fn value_text(v: YamlValue) -> Seq<char> {
    match v {
        YamlValue::Int(_, t) => t@,
        YamlValue::Float(t) => t@,
        YamlValue::Bool(b) => bool_text(b),
        YamlValue::Str(s) => s@,
        _ => yaml_debug(v),
    }
}

pub fn value_text_exec(v: &YamlValue) -> (r: String)
    requires
        tags_nonempty(*v),
    ensures
        r@ == value_text(*v),
{
    match v {
        YamlValue::Int(_, t) => t.clone(),
        YamlValue::Float(t) => t.clone(),
        YamlValue::Bool(b) => if *b { owned("true") } else { owned("false") },
        YamlValue::Str(s) => s.clone(),
        _ => yaml_debug_text(v),
    }
}

// ---------------------------------------------------------------------
// Tables of parameters.
// ---------------------------------------------------------------------

/// `s` padded on the right with spaces to at least `width` characters.
pub open spec fn pad_right(s: Seq<char>, width: nat) -> Seq<char> {
    if s.len() >= width { s } else { s + Seq::new((width - s.len()) as nat, |i: int| ' ') }
}

fn push_padded(out: &mut String, s: &str, width: usize)
    ensures
        final(out)@ == old(out)@ + pad_right(s@, width as nat),
{
    push_str(out, s);
    let ghost base = old(out)@ + s@;
    let n = crate::text::chars_of(s).len();
    let mut k = n;
    while k < width
        invariant
            n == s@.len(),
            n <= k <= width || (n >= width && k == n),
            out@ == base + Seq::new((k - n) as nat, |i: int| ' '),
            base == old(out)@ + s@,
        decreases width - k,
    {
        push_char(out, ' ');
        k = k + 1;
        assert(out@ =~= base + Seq::new((k - n) as nat, |i: int| ' '));
    }
    assert(out@ =~= old(out)@ + pad_right(s@, width as nat));
}

/// The default as the tables print it: `-` where there is none.
pub open spec fn default_text(d: Option<YamlValue>) -> Seq<char> {
    match d {
        Some(v) => value_text(v),
        None => "-"@,
    }
}

/// Whether a parameter must be given: 是 where it has no default, 否 otherwise.
pub open spec fn required_text(d: Option<YamlValue>) -> Seq<char> {
    if d is Some { "否"@ } else { "是"@ }
}

pub open spec fn row4(a: Seq<char>, b: Seq<char>, c: Seq<char>, d: Seq<char>) -> Seq<char> {
    pad_right(a, 20) + " "@ + pad_right(b, 10) + " "@ + pad_right(c, 15) + " "@ + pad_right(d, 10) + "\n"@
}

pub open spec fn param_row(p: TemplateParameter) -> Seq<char> {
    row4(p.name@, param_type_name(p.param_type), default_text(p.default), required_text(p.default))
}

pub open spec fn param_rows(ps: Seq<TemplateParameter>) -> Seq<char>
    decreases ps.len(),
{
    if ps.len() == 0 { Seq::empty() } else { param_rows(ps.drop_last()) + param_row(ps.last()) }
}

/// The parameters' table: a header, a rule, and one row per parameter with its
/// name, type, default and whether it must be given.
pub open spec fn params_table(ps: Seq<TemplateParameter>) -> Seq<char> {
    row4("名称"@, "类型"@, "默认值"@, "必填"@) + row4("----"@, "----"@, "------"@, "----"@) + param_rows(ps)
}

/// Every default of the parameters can be printed.
pub open spec fn defaults_printable(ps: Seq<TemplateParameter>) -> bool {
    forall|i: int| 0 <= i < ps.len() ==> match (#[trigger] ps[i]).default { Some(v) => tags_nonempty(v), None => true }
}

fn push_row4(out: &mut String, a: &str, b: &str, c: &str, d: &str)
    ensures
        final(out)@ == old(out)@ + row4(a@, b@, c@, d@),
{
    push_padded(out, a, 20);
    push_str(out, " ");
    push_padded(out, b, 10);
    push_str(out, " ");
    push_padded(out, c, 15);
    push_str(out, " ");
    push_padded(out, d, 10);
    push_str(out, "\n");
    proof {
        reveal_strlit(" ");
        reveal_strlit("\n");
    }
    assert(out@ =~= old(out)@ + row4(a@, b@, c@, d@));
}

fn default_text_exec(d: &Option<YamlValue>) -> (r: String)
    requires
        match *d { Some(v) => tags_nonempty(v), None => true },
    ensures
        r@ == default_text(*d),
{
    match d {
        Some(v) => value_text_exec(v),
        None => owned("-"),
    }
}

fn push_param_row(out: &mut String, p: &TemplateParameter, name: &str)
    requires
        match p.default { Some(v) => tags_nonempty(v), None => true },
    ensures
        final(out)@ == old(out)@ + row4(name@, param_type_name(p.param_type), default_text(p.default), required_text(p.default)),
{
    let ty = p.param_type.name();
    let dflt = default_text_exec(&p.default);
    let req = if p.default.is_some() { "否" } else { "是" };
    push_row4(out, name, ty.as_str(), dflt.as_str(), req);
}

/// The table of a template's parameters.
pub fn format_params_table(params: &[TemplateParameter]) -> (r: String)
    requires
        defaults_printable(params@),
    ensures
        r@ == params_table(params@),
{
    let mut table = String::new();
    push_row4(&mut table, "名称", "类型", "默认值", "必填");
    push_row4(&mut table, "----", "----", "------", "----");
    let ghost head = table@;
    let mut i: usize = 0;
    while i < params.len()
        invariant
            i <= params@.len(),
            defaults_printable(params@),
            head == row4("名称"@, "类型"@, "默认值"@, "必填"@) + row4("----"@, "----"@, "------"@, "----"@),
            table@ == head + param_rows(params@.take(i as int)),
        decreases params@.len() - i,
    {
        let p = &params[i];
        assert(match params@[i as int].default { Some(v) => tags_nonempty(v), None => true });
        push_param_row(&mut table, p, p.name.as_str());
        assert(params@.take(i + 1).drop_last() =~= params@.take(i as int));
        i = i + 1;
    }
    assert(params@.take(params@.len() as int) =~= params@);
    table
}

/// The name as the merged table prints it: marked where the parameter replaces one of an ancestor.
pub open spec fn merged_name(info: MergedParamInfo) -> Seq<char> {
    if info.overridden { info.param.name@ + " (覆盖)"@ } else { info.param.name@ }
}

pub open spec fn merged_rows(ms: Seq<MergedParamInfo>) -> Seq<char>
    decreases ms.len(),
{
    if ms.len() == 0 {
        Seq::empty()
    } else {
        let m = ms.last();
        merged_rows(ms.drop_last()) + row4(merged_name(m), param_type_name(m.param.param_type),
            default_text(m.param.default), required_text(m.param.default))
    }
}

pub open spec fn row5(a: Seq<char>, b: Seq<char>, c: Seq<char>, d: Seq<char>, e: Seq<char>) -> Seq<char> {
    pad_right(a, 20) + " "@ + pad_right(b, 10) + " "@ + pad_right(c, 15) + " "@ + pad_right(d, 10) + " "@
        + pad_right(e, 6) + "\n"@
}

/// The merged parameters' table: a header and a rule with a column for where
/// each parameter comes from, then one row per parameter with its name
/// (marked where it replaces an ancestor's), type, default and whether it
/// must be given.
pub open spec fn merged_params_table(ms: Seq<MergedParamInfo>) -> Seq<char> {
    row5("名称"@, "类型"@, "默认值"@, "必填"@, "来源"@) + row5("----"@, "----"@, "------"@, "----"@, "----"@) + merged_rows(ms)
}

pub open spec fn merged_printable(ms: Seq<MergedParamInfo>) -> bool {
    forall|i: int| 0 <= i < ms.len() ==> match (#[trigger] ms[i]).param.default { Some(v) => tags_nonempty(v), None => true }
}

fn push_row5(out: &mut String, a: &str, b: &str, c: &str, d: &str, e: &str)
    ensures
        final(out)@ == old(out)@ + row5(a@, b@, c@, d@, e@),
{
    push_padded(out, a, 20);
    push_str(out, " ");
    push_padded(out, b, 10);
    push_str(out, " ");
    push_padded(out, c, 15);
    push_str(out, " ");
    push_padded(out, d, 10);
    push_str(out, " ");
    push_padded(out, e, 6);
    push_str(out, "\n");
    proof {
        reveal_strlit(" ");
        reveal_strlit("\n");
    }
    assert(out@ =~= old(out)@ + row5(a@, b@, c@, d@, e@));
}

/// The table of a template's parameters merged with its ancestors'.
pub fn format_merged_params_table(params: &[MergedParamInfo]) -> (r: String)
    requires
        merged_printable(params@),
    ensures
        r@ == merged_params_table(params@),
{
    let mut table = String::new();
    push_row5(&mut table, "名称", "类型", "默认值", "必填", "来源");
    push_row5(&mut table, "----", "----", "------", "----", "----");
    let ghost head = table@;
    let mut i: usize = 0;
    while i < params.len()
        invariant
            i <= params@.len(),
            merged_printable(params@),
            head == row5("名称"@, "类型"@, "默认值"@, "必填"@, "来源"@) + row5("----"@, "----"@, "------"@, "----"@, "----"@),
            table@ == head + merged_rows(params@.take(i as int)),
        decreases params@.len() - i,
    {
        let info = &params[i];
        assert(match params@[i as int].param.default { Some(v) => tags_nonempty(v), None => true });
        let mut name = info.param.name.clone();
        if info.overridden {
            push_str(&mut name, " (覆盖)");
        }
        push_param_row(&mut table, &info.param, name.as_str());
        assert(params@.take(i + 1).drop_last() =~= params@.take(i as int));
        i = i + 1;
    }
    assert(params@.take(params@.len() as int) =~= params@);
    table
}

// ---------------------------------------------------------------------
// Checking a value against its declared type.
// ---------------------------------------------------------------------

/// Checks a parameter's value against its declared type (see `value_has_type`).
pub fn validate_param_type(name: &str, expected_type: &ParameterType, value: &YamlValue) -> (r: Result<(), TemplateError>)
    requires
        tags_nonempty(*value),
    ensures
        value_has_type(*expected_type, *value) ==> r is Ok,
        !value_has_type(*expected_type, *value) ==> (r matches Err(TemplateError::ParameterTypeError { name: n, expected, value: v })
            && n@ == name@ && expected@ == param_type_name(*expected_type) && v@ == yaml_debug(*value)),
{
    if value_has_type_exec(*expected_type, value) {
        Ok(())
    } else {
        Err(TemplateError::ParameterTypeError {
            name: owned(name),
            expected: expected_type.name(),
            value: yaml_debug_text(value),
        })
    }
}

// ---------------------------------------------------------------------
// Putting parameter values into text.
// ---------------------------------------------------------------------

/// The placeholder that stands for a parameter: `${name}`.
pub open spec fn placeholder(name: Seq<char>) -> Seq<char> {
    seq!['$', '{'] + name + seq!['}']
}

fn placeholder_exec(name: &str) -> (r: Vec<char>)
    ensures
        r@ == placeholder(name@),
{
    let mut r = vec!['$', '{'];
    let cs = chars_of(name);
    let mut i: usize = 0;
    while i < cs.len()
        invariant
            i <= cs@.len(),
            cs@ == name@,
            r@ == seq!['$', '{'] + cs@.take(i as int),
        decreases cs@.len() - i,
    {
        r.push(cs[i]);
        i = i + 1;
        assert(r@ =~= seq!['$', '{'] + cs@.take(i as int));
    }
    r.push('}');
    assert(cs@.take(cs@.len() as int) =~= cs@);
    assert(r@ =~= placeholder(name@));
    r
}

/// The values' names and nodes, as pairs of text and node.
pub open spec fn params_view(ps: Seq<(&str, &YamlValue)>) -> Seq<(Seq<char>, YamlValue)> {
    ps.map_values(|p: (&str, &YamlValue)| (p.0@, *p.1))
}

/// Every value can be printed.
pub open spec fn values_printable(ps: Seq<(Seq<char>, YamlValue)>) -> bool {
    forall|i: int| 0 <= i < ps.len() ==> tags_nonempty((#[trigger] ps[i]).1)
}

/// `s` with the placeholder of each parameter, in turn, replaced by the text
/// that `text` gives for its value.
pub open spec fn substitute_with(s: Seq<char>, ps: Seq<(Seq<char>, YamlValue)>, text: spec_fn(YamlValue) -> Seq<char>) -> Seq<char>
    decreases ps.len(),
{
    if ps.len() == 0 {
        s
    } else {
        replace_all(substitute_with(s, ps.drop_last(), text), placeholder(ps.last().0), text(ps.last().1))
    }
}

/// `s` with every `${name}` of a parameter replaced by its value's text.
pub open spec fn substitute_spec(s: Seq<char>, ps: Seq<(Seq<char>, YamlValue)>) -> Seq<char> {
    substitute_with(s, ps, |v: YamlValue| value_text(v))
}

/// Puts the parameters' values into `s`: each `${name}` becomes the value's
/// text (see `value_text`), parameter by parameter in the given order.
pub fn substitute_string(s: &str, params: &Vec<(&str, &YamlValue)>) -> (r: String)
    requires
        values_printable(params_view(params@)),
    ensures
        r@ == substitute_spec(s@, params_view(params@)),
{
    let ghost pv = params_view(params@);
    let mut cur = chars_of(s);
    let mut i: usize = 0;
    while i < params.len()
        invariant
            i <= params@.len(),
            pv == params_view(params@),
            values_printable(pv),
            cur@ == substitute_spec(s@, pv.take(i as int)),
        decreases params@.len() - i,
    {
        let (name, value) = params[i];
        assert(pv[i as int] == (name@, *value));
        let ph = placeholder_exec(name);
        let t = value_text_exec(value);
        let tc = chars_of(t.as_str());
        cur = replace_chars(&cur, &ph, &tc);
        assert(pv.take(i + 1).drop_last() =~= pv.take(i as int));
        i = i + 1;
    }
    assert(pv.take(pv.len() as int) =~= pv);
    string_from_chars(cur.as_slice())
}

// ---------------------------------------------------------------------
// Evaluating expressions over parameters.
// ---------------------------------------------------------------------

/// A parameter's value as an expression sees it.
#[derive(Debug)]
pub enum ParamCtx {
    Int(i64),
    /// A float, by text that Rust's `f64` parsing reads (see `float_ctx_text`).
    Float(String),
    Bool(bool),
    Str(String),
}

pub enum ParamCtxDesc {
    Int(i64),
    Float(Seq<char>),
    Bool(bool),
    Str(Seq<char>),
}

pub open spec fn pctx_desc(p: ParamCtx) -> ParamCtxDesc {
    match p {
        ParamCtx::Int(i) => ParamCtxDesc::Int(i),
        ParamCtx::Float(t) => ParamCtxDesc::Float(t@),
        ParamCtx::Bool(b) => ParamCtxDesc::Bool(b),
        ParamCtx::Str(s) => ParamCtxDesc::Str(s@),
    }
}

pub open spec fn pctx_view(c: Seq<(String, ParamCtx)>) -> Seq<(Seq<char>, ParamCtxDesc)> {
    c.map_values(|p: (String, ParamCtx)| (p.0@, pctx_desc(p.1)))
}

/// What evaluating an expression with named values gives: a boolean or an
/// integer with its `Debug` text, the `Debug` text of any other value, or the
/// evaluator's error message.
#[derive(Debug)]
pub enum CtxEval {
    Bool { value: bool, debug: String },
    Int { value: i64, debug: String },
    Other(String),
    Failed(String),
}

pub enum CtxEvalDesc {
    Bool { value: bool, debug: Seq<char> },
    Int { value: i64, debug: Seq<char> },
    Other(Seq<char>),
    Failed(Seq<char>),
}

pub open spec fn ctx_eval_desc(e: CtxEval) -> CtxEvalDesc {
    match e {
        CtxEval::Bool { value, debug } => CtxEvalDesc::Bool { value, debug: debug@ },
        CtxEval::Int { value, debug } => CtxEvalDesc::Int { value, debug: debug@ },
        CtxEval::Other(d) => CtxEvalDesc::Other(d@),
        CtxEval::Failed(m) => CtxEvalDesc::Failed(m@),
    }
}

/// What `evalexpr::eval_with_context` gives for the expression, in a context
/// that holds the named values.
pub uninterp spec fn evalexpr_with_values(expr: Seq<char>, ctx: Seq<(Seq<char>, ParamCtxDesc)>) -> CtxEvalDesc;

/// `evalexpr`'s value, carried through opaquely.
#[verifier::external_type_specification]
#[verifier::external_body]
pub struct ExOutsideEvalValue(evalexpr::Value);

/// The value as `evalexpr` holds it; used only by `eval_with_values`.
#[verifier::external_body]
fn param_value(p: &ParamCtx) -> evalexpr::Value {
    match p {
        ParamCtx::Int(i) => evalexpr::Value::Int(*i),
        ParamCtx::Float(t) => evalexpr::Value::Float(t.parse().unwrap_or_default()),
        ParamCtx::Bool(b) => evalexpr::Value::Boolean(*b),
        ParamCtx::Str(s) => evalexpr::Value::String(s.clone()),
    }
}

/// `evalexpr`'s context of named values, carried through opaquely.
#[verifier::external_type_specification]
#[verifier::external_body]
pub struct ExOutsideEvalContext(evalexpr::HashMapContext);

/// A context holding the named values; used only by `eval_with_values`.
#[verifier::external_body]
fn values_context(ctx: &Vec<(String, ParamCtx)>) -> evalexpr::HashMapContext {
    let mut context = evalexpr::HashMapContext::new();
    for (k, v) in ctx.iter() {
        let _ = context.set_value(k.clone(), param_value(v));
    }
    context
}

/// Evaluates `expr` with `evalexpr::eval_with_context` in a `HashMapContext`
/// that holds the named values. The contract names the outcome: it is taken
/// to be a function of the text and the values. Text that names a builtin
/// that can panic (see `names_risky_builtin`) is left out.
#[verifier::external_body]
pub fn eval_with_values(expr: &str, ctx: &Vec<(String, ParamCtx)>) -> (r: CtxEval)
    requires
        !names_risky_builtin(expr@),
    ensures
        ctx_eval_desc(r) == evalexpr_with_values(expr@, pctx_view(ctx@)),
{
    match evalexpr::eval_with_context(expr, &values_context(ctx)) {
        Ok(evalexpr::Value::Boolean(b)) => CtxEval::Bool { value: b, debug: format!("{:?}", evalexpr::Value::Boolean(b)) },
        Ok(evalexpr::Value::Int(i)) => CtxEval::Int { value: i, debug: format!("{:?}", evalexpr::Value::Int(i)) },
        Ok(other) => CtxEval::Other(format!("{:?}", other)),
        Err(e) => CtxEval::Failed(e.to_string()),
    }
}

/// How a value stands in a `template_when` condition: a string in double quotes.
pub open spec fn when_text(v: YamlValue) -> Seq<char> {
    match v {
        YamlValue::Int(_, t) => t@,
        YamlValue::Float(t) => t@,
        YamlValue::Bool(b) => bool_text(b),
        YamlValue::Str(s) => seq!['"'] + s@ + seq!['"'],
        _ => yaml_debug(v),
    }
}

/// How a value stands in a `template_repeat` count: a number as written,
/// anything else as its `Debug`.
pub open spec fn repeat_text(v: YamlValue) -> Seq<char> {
    match v {
        YamlValue::Int(_, t) => t@,
        YamlValue::Float(t) => t@,
        _ => yaml_debug(v),
    }
}

/// The value a condition's context holds for a parameter: an integer that
/// fits `i64`, any other number as a float, a boolean or a string.
pub open spec fn when_value(v: YamlValue) -> Option<ParamCtxDesc> {
    match v {
        YamlValue::Int(i, t) => if i64::MIN <= i <= i64::MAX { Some(ParamCtxDesc::Int(i as i64)) } else { Some(ParamCtxDesc::Float(t@)) },
        YamlValue::Float(t) => Some(ParamCtxDesc::Float(float_ctx_text(t@))),
        YamlValue::Bool(b) => Some(ParamCtxDesc::Bool(b)),
        YamlValue::Str(s) => Some(ParamCtxDesc::Str(s@)),
        _ => None,
    }
}

/// The value a count's context holds for a parameter: only integers that fit `i64`.
pub open spec fn repeat_value(v: YamlValue) -> Option<ParamCtxDesc> {
    match v {
        YamlValue::Int(i, _) => if i64::MIN <= i <= i64::MAX { Some(ParamCtxDesc::Int(i as i64)) } else { None },
        _ => None,
    }
}

/// The context that `value` builds: each parameter with a value, in order.
pub open spec fn values_ctx(ps: Seq<(Seq<char>, YamlValue)>, value: spec_fn(YamlValue) -> Option<ParamCtxDesc>)
    -> Seq<(Seq<char>, ParamCtxDesc)>
    decreases ps.len(),
{
    if ps.len() == 0 {
        Seq::empty()
    } else {
        let pre = values_ctx(ps.drop_last(), value);
        match value(ps.last().1) {
            Some(c) => pre.push((ps.last().0, c)),
            None => pre,
        }
    }
}

fn when_text_exec(v: &YamlValue) -> (r: String)
    requires
        tags_nonempty(*v),
    ensures
        r@ == when_text(*v),
{
    match v {
        YamlValue::Str(s) => {
            let mut t = String::new();
            push_char(&mut t, '"');
            push_str(&mut t, s.as_str());
            push_char(&mut t, '"');
            assert(t@ =~= seq!['"'] + s@ + seq!['"']);
            t
        },
        _ => value_text_exec(v),
    }
}

fn repeat_text_exec(v: &YamlValue) -> (r: String)
    requires
        tags_nonempty(*v),
    ensures
        r@ == repeat_text(*v),
{
    match v {
        YamlValue::Int(_, t) => t.clone(),
        YamlValue::Float(t) => t.clone(),
        _ => yaml_debug_text(v),
    }
}

/// A YAML float's text as Rust's `f64` parsing reads it: YAML writes infinity
/// and not-a-number as `.inf`, `-.inf` and `.nan`, Rust as `inf`, `-inf` and `NaN`.
pub open spec fn float_ctx_text(t: Seq<char>) -> Seq<char> {
    if t == ".inf"@ { "inf"@ } else if t == "-.inf"@ { "-inf"@ } else if t == ".nan"@ { "NaN"@ } else { t }
}

pub fn float_ctx_text_exec(t: &str) -> (r: String)
    ensures
        r@ == float_ctx_text(t@),
{
    if str_eq(t, ".inf") {
        owned("inf")
    } else if str_eq(t, "-.inf") {
        owned("-inf")
    } else if str_eq(t, ".nan") {
        owned("NaN")
    } else {
        owned(t)
    }
}

fn when_value_exec(v: &YamlValue) -> (r: Option<ParamCtx>)
    ensures
        match when_value(*v) {
            Some(c) => r matches Some(x) && pctx_desc(x) == c,
            None => r is None,
        },
{
    match v {
        YamlValue::Int(i, t) => if i64::MIN as i128 <= *i && *i <= i64::MAX as i128 {
            Some(ParamCtx::Int(*i as i64))
        } else {
            Some(ParamCtx::Float(t.clone()))
        },
        YamlValue::Float(t) => Some(ParamCtx::Float(float_ctx_text_exec(t.as_str()))),
        YamlValue::Bool(b) => Some(ParamCtx::Bool(*b)),
        YamlValue::Str(s) => Some(ParamCtx::Str(s.clone())),
        _ => None,
    }
}

fn repeat_value_exec(v: &YamlValue) -> (r: Option<ParamCtx>)
    ensures
        match repeat_value(*v) {
            Some(c) => r matches Some(x) && pctx_desc(x) == c,
            None => r is None,
        },
{
    match v {
        YamlValue::Int(i, _) => if i64::MIN as i128 <= *i && *i <= i64::MAX as i128 {
            Some(ParamCtx::Int(*i as i64))
        } else {
            None
        },
        _ => None,
    }
}

fn str_replace(s: &Vec<char>, p: &str, r: &str) -> (out: Vec<char>)
    ensures
        out@ == replace_all(s@, p@, r@),
{
    let pc = chars_of(p);
    let rc = chars_of(r);
    replace_chars(s, &pc, &rc)
}

/// A condition as it is evaluated: values put in as `when_text` says, then
/// ` and `, ` or ` and `not ` written as `evalexpr` operators.
pub open spec fn when_expr(expr: Seq<char>, ps: Seq<(Seq<char>, YamlValue)>) -> Seq<char> {
    let e = substitute_with(expr, ps, |v: YamlValue| when_text(v));
    replace_all(replace_all(replace_all(e, " and "@, " && "@), " or "@, " || "@), "not "@, "!"@)
}

/// What evaluating a `template_when` condition gives: its boolean, or the
/// message of an `ExpressionError`.
pub open spec fn when_spec(expr: Seq<char>, ps: Seq<(Seq<char>, YamlValue)>) -> Result<bool, Seq<char>> {
    if names_risky_builtin(when_expr(expr, ps)) {
        Err("表达式求值失败 '"@ + expr + "': "@ + refused_text(when_expr(expr, ps)))
    } else {
        when_outcome(evalexpr_with_values(when_expr(expr, ps), values_ctx(ps, |v: YamlValue| when_value(v))), expr)
    }
}

/// What the evaluation of the `template_when` condition `expr` gives: its
/// boolean, or the message of an `ExpressionError`.
pub open spec fn when_outcome(d: CtxEvalDesc, expr: Seq<char>) -> Result<bool, Seq<char>> {
    match d {
        CtxEvalDesc::Bool { value, .. } => Ok(value),
        CtxEvalDesc::Int { debug, .. } => Err("表达式求值结果不是布尔类型: "@ + debug),
        CtxEvalDesc::Other(debug) => Err("表达式求值结果不是布尔类型: "@ + debug),
        CtxEvalDesc::Failed(m) => Err("表达式求值失败 '"@ + expr + "': "@ + m),
    }
}

/// The result of a `template_when` condition from its evaluation (see `when_outcome`).
pub fn when_of_outcome(o: CtxEval, expr: &str) -> (r: Result<bool, TemplateError>)
    ensures
        match when_outcome(ctx_eval_desc(o), expr@) {
            Ok(b) => r == Ok::<bool, TemplateError>(b),
            Err(m) => (r matches Err(TemplateError::ExpressionError(x)) && x@ == m),
        },
{
    match o {
        CtxEval::Bool { value, .. } => Ok(value),
        CtxEval::Int { debug, .. } => {
            let mut m = owned("表达式求值结果不是布尔类型: ");
            push_str(&mut m, debug.as_str());
            Err(TemplateError::ExpressionError(m))
        },
        CtxEval::Other(debug) => {
            let mut m = owned("表达式求值结果不是布尔类型: ");
            push_str(&mut m, debug.as_str());
            Err(TemplateError::ExpressionError(m))
        },
        CtxEval::Failed(msg) => {
            let mut m = owned("表达式求值失败 '");
            push_str(&mut m, expr);
            push_str(&mut m, "': ");
            push_str(&mut m, msg.as_str());
            Err(TemplateError::ExpressionError(m))
        },
    }
}

/// Builds the text with values put in, and the context, that evaluation sees.
fn eval_inputs(expr: &str, params: &Vec<(&str, &YamlValue)>, for_when: bool) -> (r: (Vec<char>, Vec<(String, ParamCtx)>))
    requires
        values_printable(params_view(params@)),
    ensures
        for_when ==> r.0@ == substitute_with(expr@, params_view(params@), |v: YamlValue| when_text(v)),
        for_when ==> pctx_view(r.1@) == values_ctx(params_view(params@), |v: YamlValue| when_value(v)),
        !for_when ==> r.0@ == substitute_with(expr@, params_view(params@), |v: YamlValue| repeat_text(v)),
        !for_when ==> pctx_view(r.1@) == values_ctx(params_view(params@), |v: YamlValue| repeat_value(v)),
{
    let ghost pv = params_view(params@);
    let mut cur = chars_of(expr);
    let mut ctx: Vec<(String, ParamCtx)> = Vec::new();
    let mut i: usize = 0;
    while i < params.len()
        invariant
            i <= params@.len(),
            pv == params_view(params@),
            values_printable(pv),
            for_when ==> cur@ == substitute_with(expr@, pv.take(i as int), |v: YamlValue| when_text(v)),
            for_when ==> pctx_view(ctx@) == values_ctx(pv.take(i as int), |v: YamlValue| when_value(v)),
            !for_when ==> cur@ == substitute_with(expr@, pv.take(i as int), |v: YamlValue| repeat_text(v)),
            !for_when ==> pctx_view(ctx@) == values_ctx(pv.take(i as int), |v: YamlValue| repeat_value(v)),
        decreases params@.len() - i,
    {
        let (name, value) = params[i];
        assert(pv[i as int] == (name@, *value));
        assert(pv.take(i + 1).drop_last() =~= pv.take(i as int));
        assert(pv.take(i + 1).last() == pv[i as int]);
        let ph = placeholder_exec(name);
        let t = if for_when { when_text_exec(value) } else { repeat_text_exec(value) };
        let tc = chars_of(t.as_str());
        cur = replace_chars(&cur, &ph, &tc);
        let c = if for_when { when_value_exec(value) } else { repeat_value_exec(value) };
        match c {
            Some(x) => {
                let ghost before = ctx@;
                ctx.push((owned(name), x));
                assert(pctx_view(ctx@) =~= pctx_view(before).push((name@, pctx_desc(x))));
            },
            None => {},
        }
        i = i + 1;
    }
    assert(pv.take(pv.len() as int) =~= pv);
    (cur, ctx)
}

/// Evaluates a `template_when` condition over the parameters' values.
pub fn evaluate_template_when(expr: &str, params: &Vec<(&str, &YamlValue)>) -> (r: Result<bool, TemplateError>)
    requires
        values_printable(params_view(params@)),
    ensures
        match when_spec(expr@, params_view(params@)) {
            Ok(b) => r == Ok::<bool, TemplateError>(b),
            Err(m) => (r matches Err(TemplateError::ExpressionError(x)) && x@ == m),
        },
{
    let (e, ctx) = eval_inputs(expr, params, true);
    let e = str_replace(&e, " and ", " && ");
    let e = str_replace(&e, " or ", " || ");
    let e = str_replace(&e, "not ", "!");
    let text = string_from_chars(e.as_slice());
    if risky_builtin(text.as_str()) {
        let mut m = owned("表达式求值失败 '");
        push_str(&mut m, expr);
        push_str(&mut m, "': ");
        let refused = refused_message(text.as_str());
        push_str(&mut m, refused.as_str());
        return Err(TemplateError::ExpressionError(m));
    }
    let o = eval_with_values(text.as_str(), &ctx);
    when_of_outcome(o, expr)
}

/// What evaluating a `template_repeat` count gives: a count, or the message
/// of an `ExpressionError`.
pub open spec fn repeat_spec(expr: Seq<char>, ps: Seq<(Seq<char>, YamlValue)>) -> Result<usize, Seq<char>> {
    let e = substitute_with(expr, ps, |v: YamlValue| repeat_text(v));
    if names_risky_builtin(e) {
        Err("template_repeat表达式求值失败 '"@ + expr + "': "@ + refused_text(e))
    } else {
        repeat_outcome(evalexpr_with_values(e, values_ctx(ps, |v: YamlValue| repeat_value(v))), expr)
    }
}

/// What the evaluation of the `template_repeat` count `expr` gives: a count,
/// or the message of an `ExpressionError`.
pub open spec fn repeat_outcome(d: CtxEvalDesc, expr: Seq<char>) -> Result<usize, Seq<char>> {
    match d {
        CtxEvalDesc::Int { value, .. } => if value < 0 {
            Err("template_repeat求值结果为负数: "@ + signed_str(value as int))
        } else {
            Ok(value as usize)
        },
        CtxEvalDesc::Bool { debug, .. } => Err("template_repeat求值结果不是整数: "@ + debug),
        CtxEvalDesc::Other(debug) => Err("template_repeat求值结果不是整数: "@ + debug),
        CtxEvalDesc::Failed(m) => Err("template_repeat表达式求值失败 '"@ + expr + "': "@ + m),
    }
}

/// Evaluates a `template_repeat` count over the parameters' values.
pub fn resolve_repeat_count(expr: &str, params: &Vec<(&str, &YamlValue)>) -> (r: Result<usize, TemplateError>)
    requires
        values_printable(params_view(params@)),
    ensures
        match repeat_spec(expr@, params_view(params@)) {
            Ok(n) => r == Ok::<usize, TemplateError>(n),
            Err(m) => (r matches Err(TemplateError::ExpressionError(x)) && x@ == m),
        },
{
    let (e, ctx) = eval_inputs(expr, params, false);
    let text = string_from_chars(e.as_slice());
    if risky_builtin(text.as_str()) {
        let mut m = owned("template_repeat表达式求值失败 '");
        push_str(&mut m, expr);
        push_str(&mut m, "': ");
        let refused = refused_message(text.as_str());
        push_str(&mut m, refused.as_str());
        return Err(TemplateError::ExpressionError(m));
    }
    let o = eval_with_values(text.as_str(), &ctx);
    repeat_of_outcome(o, expr)
}

/// The count of a `template_repeat` from its evaluation (see `repeat_outcome`).
pub fn repeat_of_outcome(o: CtxEval, expr: &str) -> (r: Result<usize, TemplateError>)
    ensures
        match repeat_outcome(ctx_eval_desc(o), expr@) {
            Ok(n) => r == Ok::<usize, TemplateError>(n),
            Err(m) => (r matches Err(TemplateError::ExpressionError(x)) && x@ == m),
        },
{
    match o {
        CtxEval::Int { value, .. } => {
            if value < 0 {
                let mut m = owned("template_repeat求值结果为负数: ");
                push_signed(&mut m, value);
                Err(TemplateError::ExpressionError(m))
            } else {
                Ok(value as usize)
            }
        },
        CtxEval::Bool { debug, .. } => {
            let mut m = owned("template_repeat求值结果不是整数: ");
            push_str(&mut m, debug.as_str());
            Err(TemplateError::ExpressionError(m))
        },
        CtxEval::Other(debug) => {
            let mut m = owned("template_repeat求值结果不是整数: ");
            push_str(&mut m, debug.as_str());
            Err(TemplateError::ExpressionError(m))
        },
        CtxEval::Failed(msg) => {
            let mut m = owned("template_repeat表达式求值失败 '");
            push_str(&mut m, expr);
            push_str(&mut m, "': ");
            push_str(&mut m, msg.as_str());
            Err(TemplateError::ExpressionError(m))
        },
    }
}

// ---------------------------------------------------------------------
// The values an instance gives the parameters.
// ---------------------------------------------------------------------

/// The index of the first value given for `name`.
pub open spec fn given_index(inst: Seq<(String, YamlValue)>, name: Seq<char>) -> Option<int>
    decreases inst.len(),
{
    if inst.len() == 0 {
        None
    } else {
        match given_index(inst.drop_last(), name) {
            Some(i) => Some(i),
            None => if inst.last().0@ == name { Some(inst.len() - 1) } else { None },
        }
    }
}

/// Why a parameter got no value: the value has another type, or none was given and there is no default.
pub enum ResolveFailure {
    Type { name: Seq<char>, expected: ParameterType, value: YamlValue },
    Missing(Seq<char>),
}

/// The value of one parameter: the one given for it, else its default; it must have the declared type.
pub open spec fn resolve_one(p: TemplateParameter, inst: Seq<(String, YamlValue)>) -> Result<YamlValue, ResolveFailure> {
    let v = match given_index(inst, p.name@) {
        Some(i) => Some(inst[i].1),
        None => p.default,
    };
    match v {
        Some(x) => if value_has_type(p.param_type, x) {
            Ok(x)
        } else {
            Err(ResolveFailure::Type { name: p.name@, expected: p.param_type, value: x })
        },
        None => Err(ResolveFailure::Missing(p.name@)),
    }
}

/// The values of the first `n` parameters, in order, or the first failure.
pub open spec fn resolve_spec(ps: Seq<TemplateParameter>, inst: Seq<(String, YamlValue)>, n: nat)
    -> Result<Seq<(Seq<char>, YamlValue)>, ResolveFailure>
    decreases n,
{
    if n == 0 || n > ps.len() {
        Ok(Seq::empty())
    } else {
        match resolve_spec(ps, inst, (n - 1) as nat) {
            Err(e) => Err(e),
            Ok(vs) => match resolve_one(ps[n - 1], inst) {
                Ok(x) => Ok(vs.push((ps[n - 1].name@, x))),
                Err(e) => Err(e),
            },
        }
    }
}

/// The error a failure is reported as.
pub open spec fn resolve_error_matches(f: ResolveFailure, e: TemplateError) -> bool {
    match f {
        ResolveFailure::Type { name, expected, value } => (e matches TemplateError::ParameterTypeError { name: n, expected: x, value: v }
            && n@ == name && x@ == param_type_name(expected) && v@ == yaml_debug(value)),
        ResolveFailure::Missing(name) => (e matches TemplateError::MissingParameter(n) && n@ == name),
    }
}

/// Every given value and every default can be printed.
pub open spec fn instance_printable(ps: Seq<TemplateParameter>, inst: Seq<(String, YamlValue)>) -> bool {
    &&& defaults_printable(ps)
    &&& forall|i: int| 0 <= i < inst.len() ==> tags_nonempty((#[trigger] inst[i]).1)
}

impl TemplateDefinition {
    /// Whether every given value and every default of the parameters can be
    /// printed, as `instantiate` and `resolve_parameters` require.
    pub fn printable_with(&self, instance_params: &Vec<(String, YamlValue)>) -> (r: bool)
        ensures
            r == instance_printable(params_of(*self), instance_params@),
    {
        let ghost ps = params_of(*self);
        match &self.parameters {
            Some(v) => {
                let mut i: usize = 0;
                while i < v.len()
                    invariant
                        i <= v@.len(),
                        ps == v@,
                        ps == params_of(*self),
                        forall|j: int| 0 <= j < i ==> match (#[trigger] ps[j]).default { Some(x) => tags_nonempty(x), None => true },
                    decreases v@.len() - i,
                {
                    match &v[i].default {
                        Some(x) => {
                            if !tags_ok(x) {
                                assert(!match ps[i as int].default { Some(y) => tags_nonempty(y), None => true });
                                assert(!defaults_printable(ps));
                                return false;
                            }
                        },
                        None => {},
                    }
                    i = i + 1;
                }
            },
            None => {},
        }
        let mut k: usize = 0;
        while k < instance_params.len()
            invariant
                k <= instance_params@.len(),
                defaults_printable(ps),
                ps == params_of(*self),
                forall|j: int| 0 <= j < k ==> tags_nonempty((#[trigger] instance_params@[j]).1),
            decreases instance_params@.len() - k,
        {
            if !tags_ok(&instance_params[k].1) {
                assert(!tags_nonempty(instance_params@[k as int].1));
                return false;
            }
            k = k + 1;
        }
        true
    }
}

fn given_value<'a>(inst: &'a Vec<(String, YamlValue)>, name: &str) -> (r: Option<&'a YamlValue>)
    ensures
        match given_index(inst@, name@) {
            Some(i) => r matches Some(v) && *v == inst@[i].1,
            None => r is None,
        },
{
    let mut i: usize = 0;
    while i < inst.len()
        invariant
            i <= inst@.len(),
            given_index(inst@.take(i as int), name@) is None,
        decreases inst@.len() - i,
    {
        assert(inst@.take(i + 1).drop_last() =~= inst@.take(i as int));
        if crate::text::str_eq(inst[i].0.as_str(), name) {
            assert(given_index(inst@.take(i + 1), name@) == Some(i as int));
            proof { lemma_given_prefix(inst@, i + 1, name@); }
            return Some(&inst[i].1);
        }
        i = i + 1;
    }
    assert(inst@.take(inst@.len() as int) =~= inst@);
    None
}

proof fn lemma_given_prefix(inst: Seq<(String, YamlValue)>, k: int, name: Seq<char>)
    requires
        0 <= k <= inst.len(),
        given_index(inst.take(k), name) is Some,
    ensures
        given_index(inst, name) == given_index(inst.take(k), name),
    decreases inst.len(),
{
    if k < inst.len() {
        assert(inst.drop_last().take(k) =~= inst.take(k));
        lemma_given_prefix(inst.drop_last(), k, name);
    } else {
        assert(inst.take(k) =~= inst);
    }
}

impl TemplateDefinition {
    /// The value of each parameter, in the order declared: the one the instance
    /// gives, else the default, checked against the declared type.
    pub fn resolve_parameters<'a>(&'a self, instance_params: &'a Vec<(String, YamlValue)>)
        -> (r: Result<Vec<(&'a str, &'a YamlValue)>, TemplateError>)
        requires
            instance_printable(params_of(*self), instance_params@),
        ensures
            match resolve_spec(params_of(*self), instance_params@, params_of(*self).len()) {
                Ok(vs) => (r matches Ok(v) && params_view(v@) == vs),
                Err(f) => (r matches Err(e) && resolve_error_matches(f, e)),
            },
    {
        let ps = self.get_parameters();
        let ghost pv = params_of(*self);
        let mut out: Vec<(&'a str, &'a YamlValue)> = Vec::new();
        assert(params_view(out@) =~= Seq::<(Seq<char>, YamlValue)>::empty());
        let mut i: usize = 0;
        while i < ps.len()
            invariant
                i <= ps@.len(),
                ps@ == pv,
                pv == params_of(*self),
                instance_printable(pv, instance_params@),
                resolve_spec(pv, instance_params@, i as nat) == Ok::<Seq<(Seq<char>, YamlValue)>, ResolveFailure>(params_view(out@)),
            decreases ps@.len() - i,
        {
            let p = &ps[i];
            assert(pv[i as int] == *p);
            proof { lemma_given_bounds(instance_params@, p.name@); }
            let v: &'a YamlValue = match given_value(instance_params, p.name.as_str()) {
                Some(v) => v,
                None => match &p.default {
                    Some(d) => d,
                    None => {
                        assert(resolve_one(pv[i as int], instance_params@) == Err::<YamlValue, ResolveFailure>(ResolveFailure::Missing(p.name@)));
                        assert(resolve_spec(pv, instance_params@, (i + 1) as nat)
                            == Err::<Seq<(Seq<char>, YamlValue)>, ResolveFailure>(ResolveFailure::Missing(p.name@)));
                        proof { lemma_resolve_err(pv, instance_params@, (i + 1) as nat, pv.len()); }
                        return Err(TemplateError::MissingParameter(p.name.clone()));
                    },
                },
            };
            assert(tags_nonempty(*v)) by {
                match given_index(instance_params@, p.name@) {
                    Some(k) => { assert(tags_nonempty(instance_params@[k].1)); },
                    None => {},
                }
            }
            assert(resolve_one(pv[i as int], instance_params@) == (if value_has_type(p.param_type, *v) { Ok::<YamlValue, ResolveFailure>(*v) }
                else { Err(ResolveFailure::Type { name: p.name@, expected: p.param_type, value: *v }) }));
            if !value_has_type_exec(p.param_type, v) {
                assert(resolve_spec(pv, instance_params@, (i + 1) as nat) == Err::<Seq<(Seq<char>, YamlValue)>, ResolveFailure>(
                    ResolveFailure::Type { name: p.name@, expected: p.param_type, value: *v }));
                proof { lemma_resolve_err(pv, instance_params@, (i + 1) as nat, pv.len()); }
                return Err(TemplateError::ParameterTypeError {
                    name: p.name.clone(),
                    expected: p.param_type.name(),
                    value: yaml_debug_text(v),
                });
            }
            let ghost before = out@;
            out.push((p.name.as_str(), v));
            assert(params_view(out@) =~= params_view(before).push((p.name@, *v)));
            i = i + 1;
        }
        Ok(out)
    }
}

pub proof fn lemma_given_bounds(inst: Seq<(String, YamlValue)>, name: Seq<char>)
    ensures
        given_index(inst, name) matches Some(i) ==> 0 <= i < inst.len() && inst[i].0@ == name,
    decreases inst.len(),
{
    if inst.len() > 0 {
        lemma_given_bounds(inst.drop_last(), name);
    }
}

proof fn lemma_resolve_err(ps: Seq<TemplateParameter>, inst: Seq<(String, YamlValue)>, k: nat, n: nat)
    requires
        k <= n <= ps.len(),
        resolve_spec(ps, inst, k) is Err,
    ensures
        resolve_spec(ps, inst, n) == resolve_spec(ps, inst, k),
    decreases n,
{
    if n > k {
        lemma_resolve_err(ps, inst, k, (n - 1) as nat);
    }
}

// ---------------------------------------------------------------------
// Instance files.
// ---------------------------------------------------------------------

/// An instance of a template: where the template is, and the values it gives
/// the parameters, in the order written.
#[derive(Debug)]
pub struct InstanceConfig {
    pub template_path: String,
    pub parameters: Vec<(String, YamlValue)>,
}

pub open spec fn given_view(ps: Seq<(String, YamlValue)>) -> Seq<(Seq<char>, YamlValue)> {
    ps.map_values(|p: (String, YamlValue)| (p.0@, p.1))
}

/// The entries of a parameters mapping, each key a string.
pub open spec fn param_entries(m: Seq<(YamlValue, YamlValue)>) -> Option<Seq<(Seq<char>, YamlValue)>>
    decreases m.len(),
{
    if m.len() == 0 {
        Some(Seq::empty())
    } else {
        match (param_entries(m.drop_last()), m.last().0) {
            (Some(es), YamlValue::Str(k)) => Some(es.push((k@, m.last().1))),
            _ => None,
        }
    }
}

/// What an instance file's tree describes: a mapping with the string
/// `template_path` and the mapping `parameters` from names to values.
pub open spec fn instance_of(v: YamlValue) -> Option<(Seq<char>, Seq<(Seq<char>, YamlValue)>)> {
    match v {
        YamlValue::Mapping(m) => match (req_text_at(m@, "template_path"@), map_get(m@, "parameters"@)) {
            (Some(p), Some(YamlValue::Mapping(pm))) => match param_entries(pm@) {
                Some(es) => Some((p@, es)),
                None => None,
            },
            _ => None,
        },
        _ => None,
    }
}

fn entries_from(pm: Vec<(YamlValue, YamlValue)>) -> (r: Option<Vec<(String, YamlValue)>>)
    ensures
        match param_entries(pm@) {
            Some(es) => (r matches Some(v) && given_view(v@) == es),
            None => r is None,
        },
{
    let ghost all = pm@;
    let n = pm.len();
    let mut rest = pm;
    let mut out: Vec<(String, YamlValue)> = Vec::new();
    let mut i: usize = 0;
    assert(given_view(out@) =~= Seq::<(Seq<char>, YamlValue)>::empty());
    while rest.len() > 0
        invariant
            i <= all.len(),
            all == pm@,
            n == all.len(),
            rest@ == all.skip(i as int),
            param_entries(all.take(i as int)) == Some(given_view(out@)),
        decreases rest@.len(),
    {
        let (k, v) = rest.remove(0);
        assert(all.take(i + 1).drop_last() =~= all.take(i as int));
        assert(all[i as int] == (k, v));
        assert(all.take(i + 1).last() == all[i as int]);
        match k {
            YamlValue::Str(name) => {
                let ghost before = out@;
                out.push((name, v));
                assert(given_view(out@) =~= given_view(before).push((name@, v)));
            },
            _ => {
                assert(param_entries(all.take(i + 1)) is None);
                proof { lemma_entries_fail(all, i + 1, all.len() as int); }
                assert(all.take(all.len() as int) =~= all);
                return None;
            },
        }
        i = i + 1;
        assert(all.skip(i as int) =~= all.skip(i - 1).drop_first());
    }
    assert(all.take(i as int) =~= all);
    Some(out)
}

proof fn lemma_entries_fail(m: Seq<(YamlValue, YamlValue)>, k: int, n: int)
    requires
        0 <= k <= n <= m.len(),
        param_entries(m.take(k)) is None,
    ensures
        param_entries(m.take(n)) is None,
    decreases n - k,
{
    if n > k {
        lemma_entries_fail(m, k, n - 1);
        assert(m.take(n).drop_last() =~= m.take(n - 1));
    }
}

impl InstanceConfig {
    /// Reads an instance from YAML text; the message of a refusal is not stated.
    pub fn from_yaml(yaml_str: &str) -> (r: Result<InstanceConfig, TemplateError>)
        ensures
            match yaml_document(yaml_str@) {
                Ok(tree) => match instance_of(tree) {
                    Some((p, es)) => (r matches Ok(c) && c.template_path@ == p && given_view(c.parameters@) == es),
                    None => r matches Err(TemplateError::YamlError(_)),
                },
                Err(_) => r matches Err(TemplateError::YamlError(_)),
            },
    {
        proof {
            reveal_strlit("template_path");
            reveal_strlit("parameters");
        }
        let tree = match parse_yaml(yaml_str) {
            Ok(t) => t,
            Err(m) => return Err(TemplateError::YamlError(m)),
        };
        match tree {
            YamlValue::Mapping(mv) => {
                let mut m = mv;
                let ghost m0 = m@;
                let path = match req_text_at_exec(&m, "template_path") {
                    Ok(p) => p,
                    Err(e) => return Err(TemplateError::YamlError(e)),
                };
                match take_node(&mut m, "parameters") {
                    Some(YamlValue::Mapping(pm)) => match entries_from(pm) {
                        Some(ps) => Ok(InstanceConfig { template_path: path, parameters: ps }),
                        None => Err(TemplateError::YamlError(owned("parameter names must be strings"))),
                    },
                    _ => Err(TemplateError::YamlError(owned("missing field `parameters`"))),
                }
            },
            _ => Err(TemplateError::YamlError(owned("an instance must be a mapping"))),
        }
    }
}

} // verus!
