//! Statistics of a parse: leaf fields, their types, checksum outcomes and
//! how much of the input the fields cover.

use vstd::prelude::*;
use crate::parser::{ParsedValue, ParsedField, FieldOut, ValueDesc, ChecksumResult, field_out, fields_out, lemma_children_out,
    value_desc};
use crate::numfmt::{dec_str, push_dec};
use crate::text::{push_str, chars_of, owned};
use crate::export::lemma_out_parts;
use crate::patch::lemma_child_smaller;
use crate::filter::{leaves, leaves_list, refs_out};

verus! {

/// The name of a value's type; an array is named after its first item.
pub open spec fn value_kind_name(v: ValueDesc) -> Seq<char>
    decreases v,
{
    match v {
        ValueDesc::U8(_) => "u8"@,
        ValueDesc::U16(_) => "u16"@,
        ValueDesc::U32(_) => "u32"@,
        ValueDesc::U64(_) => "u64"@,
        ValueDesc::I8(_) => "i8"@,
        ValueDesc::I16(_) => "i16"@,
        ValueDesc::I32(_) => "i32"@,
        ValueDesc::I64(_) => "i64"@,
        ValueDesc::F32(_) => "f32"@,
        ValueDesc::F64(_) => "f64"@,
        ValueDesc::Bytes(_) => "bytes"@,
        ValueDesc::Text(_) => "string"@,
        ValueDesc::BitField(_) => "bitfield"@,
        ValueDesc::Enum(_, _, _) => "enum"@,
        ValueDesc::Array(items) => if items.len() > 0 { "array<"@ + value_kind_name(items[0]) + ">"@ } else { "array"@ },
        ValueDesc::Struct(_) => "struct"@,
    }
}

fn value_type_name(v: &ParsedValue) -> (r: String)
    ensures
        r@ == value_kind_name(value_desc(*v)),
    decreases v,
{
    match v {
        ParsedValue::U8(_) => owned("u8"),
        ParsedValue::U16(_) => owned("u16"),
        ParsedValue::U32(_) => owned("u32"),
        ParsedValue::U64(_) => owned("u64"),
        ParsedValue::I8(_) => owned("i8"),
        ParsedValue::I16(_) => owned("i16"),
        ParsedValue::I32(_) => owned("i32"),
        ParsedValue::I64(_) => owned("i64"),
        ParsedValue::F32(_) => owned("f32"),
        ParsedValue::F64(_) => owned("f64"),
        ParsedValue::Bytes(_) => owned("bytes"),
        ParsedValue::String(_) => owned("string"),
        ParsedValue::BitField(_) => owned("bitfield"),
        ParsedValue::Enum { .. } => owned("enum"),
        ParsedValue::Array(items) => {
            proof { crate::parser::lemma_array_desc(*items); }
            if items.len() > 0 {
                proof { crate::parser::lemma_item_smaller(*v, *items, 0); }
                let inner = value_type_name(&items[0]);
                assert(crate::parser::values_desc(items@)[0] == value_desc(items@[0]));
                let mut s = owned("array<");
                push_str(&mut s, inner.as_str());
                push_str(&mut s, ">");
                s
            } else {
                owned("array")
            }
        },
        ParsedValue::Struct(_) => owned("struct"),
    }
}

/// Text ordered as `String` orders it: character by character.
pub open spec fn text_lt(a: Seq<char>, b: Seq<char>) -> bool
    decreases a.len(),
{
    if a.len() == 0 {
        b.len() > 0
    } else if b.len() == 0 {
        false
    } else if a[0] != b[0] {
        a[0] < b[0]
    } else {
        text_lt(a.drop_first(), b.drop_first())
    }
}

fn text_lt_exec(a: &Vec<char>, b: &Vec<char>) -> (r: bool)
    ensures
        r == text_lt(a@, b@),
{
    let mut i: usize = 0;
    assert(a@.skip(0) =~= a@);
    assert(b@.skip(0) =~= b@);
    while i < a.len() && i < b.len() && a[i] == b[i]
        invariant
            i <= a@.len(),
            i <= b@.len(),
            text_lt(a@, b@) == text_lt(a@.skip(i as int), b@.skip(i as int)),
        decreases a@.len() - i,
    {
        assert(a@.skip(i as int).drop_first() =~= a@.skip(i + 1));
        assert(b@.skip(i as int).drop_first() =~= b@.skip(i + 1));
        i = i + 1;
    }
    if i == a.len() {
        i < b.len()
    } else if i == b.len() {
        false
    } else {
        assert(a@.skip(i as int)[0] == a@[i as int]);
        assert(b@.skip(i as int)[0] == b@[i as int]);
        a[i] < b[i]
    }
}

/// One more field of the named type, the counts kept in order of name.
pub open spec fn bump(acc: Seq<(Seq<char>, nat)>, k: Seq<char>) -> Seq<(Seq<char>, nat)>
    decreases acc.len(),
{
    if acc.len() == 0 {
        seq![(k, 1nat)]
    } else if acc.last().0 == k {
        acc.drop_last().push((k, acc.last().1 + 1))
    } else if text_lt(acc.last().0, k) {
        acc.push((k, 1nat))
    } else {
        bump(acc.drop_last(), k).push(acc.last())
    }
}

/// What statistics hold: counts as numbers, type counts as name/count pairs
/// in order of name.
pub struct StatsDesc {
    pub total: nat,
    pub types: Seq<(Seq<char>, nat)>,
    pub passed: nat,
    pub failed: nat,
    pub none: nat,
    pub bytes: nat,
}

/// The statistics of the first `n` leaves.
pub open spec fn stats_of(ls: Seq<FieldOut>, n: nat) -> StatsDesc
    decreases n,
{
    if n == 0 || n > ls.len() {
        StatsDesc { total: 0, types: Seq::empty(), passed: 0, failed: 0, none: 0, bytes: 0 }
    } else {
        let s = stats_of(ls, (n - 1) as nat);
        let f = ls[n - 1];
        StatsDesc {
            total: s.total + 1,
            types: bump(s.types, value_kind_name(f.value)),
            passed: s.passed + (if f.checksum_result matches Some(ChecksumResult::Passed) { 1nat } else { 0nat }),
            failed: s.failed + (if f.checksum_result matches Some(ChecksumResult::Failed { .. }) { 1nat } else { 0nat }),
            none: s.none + (if f.checksum_result is None { 1nat } else { 0nat }),
            bytes: s.bytes + (if !f.truncated && !f.skipped { f.length as nat } else { 0nat }),
        }
    }
}

pub open spec fn tree_stats(f: FieldOut) -> StatsDesc {
    stats_of(leaves(f), leaves(f).len())
}

/// Statistics of a parse.
#[derive(Debug)]
pub struct ParseStats {
    pub total_leaf_fields: usize,
    /// Leaf counts by type name, in order of name.
    pub type_counts: Vec<(String, usize)>,
    pub checksum_passed: usize,
    pub checksum_failed: usize,
    pub checksum_none: usize,
    pub parsed_bytes: usize,
    pub file_size: usize,
}

pub open spec fn counts_view(v: Seq<(String, usize)>) -> Seq<(Seq<char>, nat)> {
    v.map_values(|p: (String, usize)| (p.0@, p.1 as nat))
}

impl ParseStats {
    pub open spec fn desc(&self) -> StatsDesc {
        StatsDesc {
            total: self.total_leaf_fields as nat,
            types: counts_view(self.type_counts@),
            passed: self.checksum_passed as nat,
            failed: self.checksum_failed as nat,
            none: self.checksum_none as nat,
            bytes: self.parsed_bytes as nat,
        }
    }
}

proof fn lemma_stats_mono(ls: Seq<FieldOut>, k: nat, n: nat)
    requires
        k <= n <= ls.len(),
    ensures
        stats_of(ls, k).total <= stats_of(ls, n).total,
        stats_of(ls, k).bytes <= stats_of(ls, n).bytes,
        stats_of(ls, k).passed + stats_of(ls, k).failed + stats_of(ls, k).none == stats_of(ls, k).total,
        stats_of(ls, n).passed + stats_of(ls, n).failed + stats_of(ls, n).none == stats_of(ls, n).total,
        forall|i: int| 0 <= i < stats_of(ls, k).types.len() ==> (#[trigger] stats_of(ls, k).types[i]).1 <= stats_of(ls, k).total,
    decreases n,
{
    if k < n {
        lemma_stats_mono(ls, k, (n - 1) as nat);
    }
    if n > 0 {
        lemma_stats_mono(ls, (n - 1) as nat, (n - 1) as nat);
    }
    lemma_types_bounded(ls, k);
}

proof fn lemma_bump_bounded(acc: Seq<(Seq<char>, nat)>, k: Seq<char>, t: nat)
    requires
        forall|i: int| 0 <= i < acc.len() ==> (#[trigger] acc[i]).1 <= t,
    ensures
        forall|i: int| 0 <= i < bump(acc, k).len() ==> (#[trigger] bump(acc, k)[i]).1 <= t + 1,
    decreases acc.len(),
{
    if acc.len() > 0 && acc.last().0 != k && !text_lt(acc.last().0, k) {
        lemma_bump_bounded(acc.drop_last(), k, t);
        let b = bump(acc.drop_last(), k);
        assert forall|i: int| 0 <= i < bump(acc, k).len() implies (#[trigger] bump(acc, k)[i]).1 <= t + 1 by {
            if i < b.len() {
                assert(bump(acc, k)[i] == b[i]);
            }
        }
    }
}

proof fn lemma_types_bounded(ls: Seq<FieldOut>, k: nat)
    requires
        k <= ls.len(),
    ensures
        forall|i: int| 0 <= i < stats_of(ls, k).types.len() ==> (#[trigger] stats_of(ls, k).types[i]).1 <= stats_of(ls, k).total,
    decreases k,
{
    if k > 0 {
        lemma_types_bounded(ls, (k - 1) as nat);
        let s = stats_of(ls, (k - 1) as nat);
        lemma_bump_bounded(s.types, value_kind_name(ls[k - 1].value), s.total);
    }
}

/// Adds one to the count of `k`, keeping the counts in order of name.
fn bump_exec(counts: &mut Vec<(String, usize)>, k: String, bound: Ghost<nat>)
    requires
        forall|i: int| 0 <= i < old(counts)@.len() ==> (#[trigger] old(counts)@[i]).1 < bound@,
        bound@ <= usize::MAX,
    ensures
        counts_view(final(counts)@) == bump(counts_view(old(counts)@), k@),
{
    let ghost cv = counts_view(counts@);
    let kc = chars_of(k.as_str());
    let mut p = counts.len();
    assert(cv.take(p as int) =~= cv);
    assert(cv.skip(p as int) =~= Seq::<(Seq<char>, nat)>::empty());
    loop
        invariant
            p <= counts@.len(),
            cv == counts_view(counts@),
            counts@ == old(counts)@,
            kc@ == k@,
            forall|i: int| 0 <= i < counts@.len() ==> (#[trigger] counts@[i]).1 < bound@,
            bound@ <= usize::MAX,
            bump(cv, k@) == bump(cv.take(p as int), k@) + cv.skip(p as int),
        decreases p,
    {
        if p == 0 {
            assert(bump(cv.take(0), k@) == seq![(k@, 1nat)]);
            counts.insert(0, (k, 1));
            assert(counts_view(counts@) =~= seq![(kc@, 1nat)] + cv.skip(0));
            return;
        }
        let ghost last = cv.take(p as int).last();
        assert(last == cv[p - 1]);
        assert(cv.take(p as int).drop_last() =~= cv.take(p - 1));
        let name = chars_of(counts[p - 1].0.as_str());
        if crate::text::chars_eq(name.as_slice(), kc.as_slice()) {
            let n = counts[p - 1].1;
            let (key, _) = counts.remove(p - 1);
            counts.insert(p - 1, (key, n + 1));
            assert(counts_view(counts@) =~= cv.take(p - 1).push((k@, (n + 1) as nat)) + cv.skip(p as int));
            return;
        }
        if text_lt_exec(&name, &kc) {
            counts.insert(p, (k, 1));
            assert(counts_view(counts@) =~= cv.take(p as int).push((kc@, 1nat)) + cv.skip(p as int));
            return;
        }
        assert(bump(cv.take(p - 1), k@).push(cv[p - 1]) + cv.skip(p as int) =~= bump(cv.take(p - 1), k@) + cv.skip(p - 1));
        p = p - 1;
    }
}

impl ParseStats {
    /// The statistics of a parsed tree over its leaves, with the input's size.
    pub fn from_parsed_field(root: &ParsedField, file_size: usize) -> (r: ParseStats)
        requires
            tree_stats(field_out(*root)).total <= usize::MAX,
            tree_stats(field_out(*root)).bytes <= usize::MAX,
        ensures
            r.desc() == tree_stats(field_out(*root)),
            r.file_size == file_size,
            names_ascending(r.desc().types),
    {
        proof { lemma_stats_types_ascending(field_out(*root)); }
        let mut ls: Vec<&ParsedField> = Vec::new();
        assert(refs_out(ls@) =~= Seq::<FieldOut>::empty());
        crate::filter::collect_leaves_into(root, &mut ls);
        let ghost lv = refs_out(ls@);
        assert(lv =~= leaves(field_out(*root)));
        let mut stats = ParseStats {
            total_leaf_fields: 0,
            type_counts: Vec::new(),
            checksum_passed: 0,
            checksum_failed: 0,
            checksum_none: 0,
            parsed_bytes: 0,
            file_size,
        };
        assert(counts_view(stats.type_counts@) =~= Seq::<(Seq<char>, nat)>::empty());
        let mut i: usize = 0;
        while i < ls.len()
            invariant
                i <= ls@.len(),
                lv == refs_out(ls@),
                stats_of(lv, lv.len()).total <= usize::MAX,
                stats_of(lv, lv.len()).bytes <= usize::MAX,
                stats.desc() == stats_of(lv, i as nat),
                stats.file_size == file_size,
            decreases ls@.len() - i,
        {
            let f = ls[i];
            assert(lv[i as int] == field_out(*f));
            proof {
                lemma_out_parts(*f);
                lemma_stats_mono(lv, (i + 1) as nat, lv.len());
                lemma_stats_mono(lv, i as nat, (i + 1) as nat);
            }
            let name = value_type_name(&f.value);
            assert forall|j: int| 0 <= j < stats.type_counts@.len() implies
                (#[trigger] stats.type_counts@[j]).1 < (stats.total_leaf_fields + 1) as nat by {
                assert(counts_view(stats.type_counts@)[j] == (stats.type_counts@[j].0@, stats.type_counts@[j].1 as nat));
                assert(stats_of(lv, i as nat).types[j].1 <= stats_of(lv, i as nat).total);
            }
            bump_exec(&mut stats.type_counts, name, Ghost((stats.total_leaf_fields + 1) as nat));
            stats.total_leaf_fields = stats.total_leaf_fields + 1;
            if !f.truncated && !f.skipped {
                stats.parsed_bytes = stats.parsed_bytes + f.length;
            }
            match &f.checksum_result {
                Some(ChecksumResult::Passed) => stats.checksum_passed = stats.checksum_passed + 1,
                Some(ChecksumResult::Failed { .. }) => stats.checksum_failed = stats.checksum_failed + 1,
                None => stats.checksum_none = stats.checksum_none + 1,
            }
            i = i + 1;
        }
        stats
    }
}

/// The first `n` type counts as `name:count`, separated by ", ".
pub open spec fn types_text(ts: Seq<(Seq<char>, nat)>, n: nat) -> Seq<char>
    decreases n,
{
    if n == 0 || n > ts.len() {
        Seq::empty()
    } else if n == 1 {
        ts[0].0 + ":"@ + dec_str(ts[0].1)
    } else {
        types_text(ts, (n - 1) as nat) + ", "@ + ts[n - 1].0 + ":"@ + dec_str(ts[n - 1].1)
    }
}

/// The summary's lines; the coverage percentage comes already printed.
pub open spec fn stats_text(s: StatsDesc, file_size: usize, coverage: Seq<char>) -> Seq<char> {
    "=== 解析统计摘要 ==="@ + "\n"@
        + "总字段数(叶子): "@ + dec_str(s.total) + "\n"@
        + "各类型字段计数: "@ + types_text(s.types, s.types.len()) + "\n"@
        + "校验: 通过="@ + dec_str(s.passed) + ", 失败="@ + dec_str(s.failed) + ", 未校验="@ + dec_str(s.none) + "\n"@
        + "文件覆盖率: "@ + coverage + "% ("@ + dec_str(s.bytes) + "/"@ + dec_str(file_size as nat) + " 字节)"@
}

impl ParseStats {
    /// The summary printed after a parse. The coverage percentage, a float,
    /// is printed by the caller (two decimals) and handed in.
    pub fn format_to_stderr(&self, coverage: &str) -> (r: String)
        ensures
            r@ == stats_text(self.desc(), self.file_size, coverage@),
    {
        let mut out = String::new();
        push_str(&mut out, "=== 解析统计摘要 ===");
        push_str(&mut out, "\n");
        push_str(&mut out, "总字段数(叶子): ");
        push_dec(&mut out, self.total_leaf_fields as u64);
        push_str(&mut out, "\n");
        push_str(&mut out, "各类型字段计数: ");
        let ghost o = out@;
        let ghost tv = counts_view(self.type_counts@);
        let mut i: usize = 0;
        while i < self.type_counts.len()
            invariant
                i <= self.type_counts@.len(),
                tv == counts_view(self.type_counts@),
                out@ == o + types_text(tv, i as nat),
            decreases self.type_counts@.len() - i,
        {
            if i > 0 {
                push_str(&mut out, ", ");
            }
            let (k, v) = &self.type_counts[i];
            assert(tv[i as int] == (k@, *v as nat));
            push_str(&mut out, k.as_str());
            push_str(&mut out, ":");
            push_dec(&mut out, *v as u64);
            assert(out@ =~= o + types_text(tv, (i + 1) as nat));
            i = i + 1;
        }
        push_str(&mut out, "\n");
        push_str(&mut out, "校验: 通过=");
        push_dec(&mut out, self.checksum_passed as u64);
        push_str(&mut out, ", 失败=");
        push_dec(&mut out, self.checksum_failed as u64);
        push_str(&mut out, ", 未校验=");
        push_dec(&mut out, self.checksum_none as u64);
        push_str(&mut out, "\n");
        push_str(&mut out, "文件覆盖率: ");
        push_str(&mut out, coverage);
        push_str(&mut out, "% (");
        push_dec(&mut out, self.parsed_bytes as u64);
        push_str(&mut out, "/");
        push_dec(&mut out, self.file_size as u64);
        push_str(&mut out, " 字节)");
        assert(out@ =~= stats_text(self.desc(), self.file_size, coverage@));
        out
    }
}

} // verus!

verus! {

/// The sum of the counts.
pub open spec fn count_sum(ts: Seq<(Seq<char>, nat)>) -> nat
    decreases ts.len(),
{
    if ts.len() == 0 { 0 } else { count_sum(ts.drop_last()) + ts.last().1 }
}

proof fn lemma_bump_sum(acc: Seq<(Seq<char>, nat)>, k: Seq<char>)
    ensures
        count_sum(bump(acc, k)) == count_sum(acc) + 1,
    decreases acc.len(),
{
    let b = bump(acc, k);
    if acc.len() == 0 {
        assert(b.drop_last() =~= Seq::<(Seq<char>, nat)>::empty());
        assert(count_sum(b) == count_sum(b.drop_last()) + b.last().1);
    } else if acc.last().0 == k {
        assert(b.drop_last() =~= acc.drop_last());
        assert(count_sum(b) == count_sum(b.drop_last()) + b.last().1);
        assert(count_sum(acc) == count_sum(acc.drop_last()) + acc.last().1);
    } else if text_lt(acc.last().0, k) {
        assert(b.drop_last() =~= acc);
        assert(count_sum(b) == count_sum(b.drop_last()) + b.last().1);
    } else {
        lemma_bump_sum(acc.drop_last(), k);
        assert(b.drop_last() =~= bump(acc.drop_last(), k));
        assert(count_sum(b) == count_sum(b.drop_last()) + b.last().1);
        assert(count_sum(acc) == count_sum(acc.drop_last()) + acc.last().1);
    }
}

proof fn lemma_stats_sums(ls: Seq<FieldOut>, n: nat)
    requires
        n <= ls.len(),
    ensures
        stats_of(ls, n).passed + stats_of(ls, n).failed + stats_of(ls, n).none == stats_of(ls, n).total,
        count_sum(stats_of(ls, n).types) == stats_of(ls, n).total,
    decreases n,
{
    if n > 0 {
        lemma_stats_sums(ls, (n - 1) as nat);
        lemma_bump_sum(stats_of(ls, (n - 1) as nat).types, value_kind_name(ls[n - 1].value));
    }
}

/// Every leaf is counted once by checksum outcome and once by type: the
/// passed, failed and unchecked counts add up to the number of leaves, and
/// so do the counts by type.
pub proof fn lemma_stats_add_up(f: FieldOut)
    ensures
        tree_stats(f).passed + tree_stats(f).failed + tree_stats(f).none == tree_stats(f).total,
        count_sum(tree_stats(f).types) == tree_stats(f).total,
        tree_stats(f).total == leaves(f).len(),
{
    lemma_stats_sums(leaves(f), leaves(f).len());
    lemma_stats_total(leaves(f), leaves(f).len());
}

proof fn lemma_stats_total(ls: Seq<FieldOut>, n: nat)
    requires
        n <= ls.len(),
    ensures
        stats_of(ls, n).total == n,
    decreases n,
{
    if n > 0 {
        lemma_stats_total(ls, (n - 1) as nat);
    }
}

/// The names of `acc` strictly ascend: each appears once, in order.
pub open spec fn names_ascending(acc: Seq<(Seq<char>, nat)>) -> bool {
    forall|i: int, j: int| 0 <= i < j < acc.len() ==> text_lt(#[trigger] acc[i].0, #[trigger] acc[j].0)
}

proof fn lemma_text_lt_trans(a: Seq<char>, b: Seq<char>, c: Seq<char>)
    requires
        text_lt(a, b),
        text_lt(b, c),
    ensures
        text_lt(a, c),
    decreases a.len(),
{
    if a.len() > 0 && b.len() > 0 && c.len() > 0 && a[0] == b[0] && b[0] == c[0] {
        lemma_text_lt_trans(a.drop_first(), b.drop_first(), c.drop_first());
    }
}

proof fn lemma_text_lt_total(a: Seq<char>, b: Seq<char>)
    ensures
        a != b ==> text_lt(a, b) || text_lt(b, a),
        !(text_lt(a, b) && text_lt(b, a)),
        !text_lt(a, a),
    decreases a.len(),
{
    if a.len() > 0 && b.len() > 0 && a[0] == b[0] {
        lemma_text_lt_total(a.drop_first(), b.drop_first());
        if a != b {
            assert(a.drop_first() != b.drop_first()) by {
                if a.drop_first() == b.drop_first() {
                    assert(a =~= seq![a[0]] + a.drop_first());
                    assert(b =~= seq![b[0]] + b.drop_first());
                }
            }
        }
    } else if a.len() > 0 {
        lemma_text_lt_total(a.drop_first(), a.drop_first());
    }
    if a.len() == 0 && b.len() == 0 {
        assert(a =~= b);
    }
}

/// Counting one more name keeps the names ascending, and every name it holds
/// is the counted one or was there before.
proof fn lemma_bump_ascending(acc: Seq<(Seq<char>, nat)>, k: Seq<char>)
    requires
        names_ascending(acc),
    ensures
        names_ascending(bump(acc, k)),
        forall|i: int| 0 <= i < bump(acc, k).len() ==> #[trigger] bump(acc, k)[i].0 == k
            || exists|j: int| 0 <= j < acc.len() && acc[j].0 == bump(acc, k)[i].0,
    decreases acc.len(),
{
    let b = bump(acc, k);
    if acc.len() == 0 {
    } else if acc.last().0 == k {
        assert forall|i: int| 0 <= i < b.len() implies #[trigger] b[i].0 == k
            || exists|j: int| 0 <= j < acc.len() && acc[j].0 == b[i].0 by {
            if i < acc.len() - 1 {
                assert(acc[i].0 == b[i].0);
            }
        }
        assert forall|i: int, j: int| 0 <= i < j < b.len() implies text_lt(#[trigger] b[i].0, #[trigger] b[j].0) by {
            assert(text_lt(acc[i].0, acc[j].0));
        }
    } else if text_lt(acc.last().0, k) {
        assert forall|i: int, j: int| 0 <= i < j < b.len() implies text_lt(#[trigger] b[i].0, #[trigger] b[j].0) by {
            if j < acc.len() {
                assert(text_lt(acc[i].0, acc[j].0));
            } else if i < acc.len() - 1 {
                assert(text_lt(acc[i].0, acc[acc.len() - 1].0));
                lemma_text_lt_trans(acc[i].0, acc.last().0, k);
            }
        }
        assert forall|i: int| 0 <= i < b.len() implies #[trigger] b[i].0 == k
            || exists|j: int| 0 <= j < acc.len() && acc[j].0 == b[i].0 by {
            if i < acc.len() {
                assert(acc[i].0 == b[i].0);
            }
        }
    } else {
        let dl = acc.drop_last();
        let last = acc.last();
        assert(names_ascending(dl)) by {
            assert forall|i: int, j: int| 0 <= i < j < dl.len() implies text_lt(#[trigger] dl[i].0, #[trigger] dl[j].0) by {
                assert(text_lt(acc[i].0, acc[j].0));
            }
        }
        lemma_bump_ascending(dl, k);
        lemma_text_lt_total(last.0, k);
        let bd = bump(dl, k);
        assert(b == bd.push(last));
        assert forall|i: int| 0 <= i < bd.len() implies text_lt(#[trigger] bd[i].0, last.0) by {
            if bd[i].0 != k {
                let j = choose|j: int| 0 <= j < dl.len() && dl[j].0 == bd[i].0;
                assert(text_lt(acc[j].0, acc[acc.len() - 1].0));
            }
        }
        assert forall|i: int, j: int| 0 <= i < j < b.len() implies text_lt(#[trigger] b[i].0, #[trigger] b[j].0) by {
            if j < bd.len() {
                assert(text_lt(bd[i].0, bd[j].0));
            } else {
                assert(text_lt(bd[i].0, last.0));
            }
        }
        assert forall|i: int| 0 <= i < b.len() implies #[trigger] b[i].0 == k
            || exists|j: int| 0 <= j < acc.len() && acc[j].0 == b[i].0 by {
            if i < bd.len() {
                if bd[i].0 != k {
                    let j = choose|j: int| 0 <= j < dl.len() && dl[j].0 == bd[i].0;
                    assert(acc[j].0 == b[i].0);
                }
            } else {
                assert(acc[acc.len() - 1].0 == b[i].0);
            }
        }
    }
}

proof fn lemma_stats_ascending(ls: Seq<FieldOut>, n: nat)
    requires
        n <= ls.len(),
    ensures
        names_ascending(stats_of(ls, n).types),
    decreases n,
{
    if n > 0 {
        lemma_stats_ascending(ls, (n - 1) as nat);
        lemma_bump_ascending(stats_of(ls, (n - 1) as nat).types, value_kind_name(ls[n - 1].value));
    }
}

/// The counts by type hold each type name once, in ascending order of the names.
pub proof fn lemma_stats_types_ascending(f: FieldOut)
    ensures
        names_ascending(tree_stats(f).types),
{
    lemma_stats_ascending(leaves(f), leaves(f).len());
}

} // verus!
