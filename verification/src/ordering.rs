//! The order of the process table: stable sorting by one column, ascending
//! or descending, as `slice::sort_by` does it with that column's comparator.
use vstd::prelude::*;
use crate::process::{cpu_total, memory_total, processes_wf, ProcessInfo};
use crate::text::chars_of;

verus! {

/// Which process column drives the sort order.
#[derive(Clone, Copy, Debug, PartialEq, Eq, Structural)]
pub enum SortKey {
    Cpu,
    Memory,
    Pid,
    Name,
}

/// Inserts `x` into `sorted` in front of the first element that `x` must
/// precede, and after everything else.
pub open spec fn insert_in_order<T>(sorted: Seq<T>, x: T, before: spec_fn(T, T) -> bool) -> Seq<T>
    decreases sorted.len(),
{
    if sorted.len() == 0 {
        seq![x]
    } else if before(x, sorted[0]) {
        seq![x] + sorted
    } else {
        seq![sorted[0]] + insert_in_order(sorted.drop_first(), x, before)
    }
}

/// The stable sort of `s` by the strict precedence `before`: elements that
/// neither precedes keep their relative order.
pub open spec fn stable_sort<T>(s: Seq<T>, before: spec_fn(T, T) -> bool) -> Seq<T>
    decreases s.len(),
{
    if s.len() == 0 {
        s
    } else {
        insert_in_order(stable_sort(s.drop_last(), before), s.last(), before)
    }
}

/// Inserting in order puts `x` at the first position whose element `x`
/// precedes.
pub proof fn lemma_insert_at<T>(sorted: Seq<T>, x: T, before: spec_fn(T, T) -> bool, pos: int)
    requires
        0 <= pos <= sorted.len(),
        forall|k: int| 0 <= k < pos ==> !before(x, #[trigger] sorted[k]),
        pos < sorted.len() ==> before(x, sorted[pos]),
    ensures
        insert_in_order(sorted, x, before) == sorted.take(pos).push(x) + sorted.skip(pos),
    decreases pos,
{
    if pos == 0 {
        assert(sorted.take(0).push(x) + sorted.skip(0) =~= seq![x] + sorted);
    } else {
        let rest = sorted.drop_first();
        assert forall|k: int| 0 <= k < pos - 1 implies !before(x, #[trigger] rest[k]) by {
            assert(rest[k] == sorted[k + 1]);
        }
        lemma_insert_at(rest, x, before, pos - 1);
        assert(!before(x, sorted[0]));
        assert(seq![sorted[0]] + (rest.take(pos - 1).push(x) + rest.skip(pos - 1))
            =~= sorted.take(pos).push(x) + sorted.skip(pos));
    }
}

/// Strict lexicographic order on names, by code point (the order of
/// `String`'s `Ord`, since UTF-8 preserves code point order).
pub open spec fn name_before(a: Seq<char>, b: Seq<char>) -> bool
    decreases a.len(),
{
    if a.len() == 0 {
        b.len() > 0
    } else if b.len() == 0 {
        false
    } else if a[0] != b[0] {
        (a[0] as u32) < (b[0] as u32)
    } else {
        name_before(a.drop_first(), b.drop_first())
    }
}

/// `a` is strictly smaller than `b` in the column `key`.
pub open spec fn key_less(key: SortKey, a: ProcessInfo, b: ProcessInfo) -> bool {
    match key {
        SortKey::Cpu => a.cpu_usage < b.cpu_usage,
        SortKey::Memory => a.memory < b.memory,
        SortKey::Pid => a.pid < b.pid,
        SortKey::Name => name_before(a.name@, b.name@),
    }
}

/// The precedence of the table's sort: ascending by `key`, or descending
/// when `desc` holds.
pub open spec fn sort_order(key: SortKey, desc: bool) -> spec_fn(ProcessInfo, ProcessInfo) -> bool {
    |a: ProcessInfo, b: ProcessInfo| if desc { key_less(key, b, a) } else { key_less(key, a, b) }
}

fn name_less(a: &Vec<char>, b: &Vec<char>) -> (res: bool)
    ensures
        res == name_before(a@, b@),
{
    let mut i: usize = 0;
    assert(a@.skip(0) =~= a@);
    assert(b@.skip(0) =~= b@);
    loop
        invariant
            i <= a.len(),
            i <= b.len(),
            name_before(a@, b@) == name_before(a@.skip(i as int), b@.skip(i as int)),
        decreases a.len() - i,
    {
        if i == a.len() {
            return i < b.len();
        }
        if i == b.len() {
            return false;
        }
        if a[i] != b[i] {
            return (a[i] as u32) < (b[i] as u32);
        }
        assert(a@.skip(i as int).drop_first() =~= a@.skip(i + 1));
        assert(b@.skip(i as int).drop_first() =~= b@.skip(i + 1));
        i = i + 1;
    }
}

fn key_less_exec(key: SortKey, a: &ProcessInfo, b: &ProcessInfo) -> (res: bool)
    ensures
        res == key_less(key, *a, *b),
{
    match key {
        SortKey::Cpu => a.cpu_usage < b.cpu_usage,
        SortKey::Memory => a.memory < b.memory,
        SortKey::Pid => a.pid < b.pid,
        SortKey::Name => name_less(&chars_of(a.name.as_str()), &chars_of(b.name.as_str())),
    }
}

/// Whether `a` goes strictly before `b` in the table's order.
pub fn goes_before(key: SortKey, desc: bool, a: &ProcessInfo, b: &ProcessInfo) -> (res: bool)
    ensures
        res == sort_order(key, desc)(*a, *b),
{
    if desc {
        key_less_exec(key, b, a)
    } else {
        key_less_exec(key, a, b)
    }
}

fn insert_process(v: &mut Vec<ProcessInfo>, x: ProcessInfo, key: SortKey, desc: bool)
    ensures
        final(v)@ == insert_in_order(old(v)@, x, sort_order(key, desc)),
{
    let mut pos: usize = 0;
    while pos < v.len()
        invariant
            pos <= v.len(),
            v@ == old(v)@,
            forall|k: int| 0 <= k < pos ==> !sort_order(key, desc)(x, #[trigger] v@[k]),
        ensures
            pos <= v.len(),
            v@ == old(v)@,
            forall|k: int| 0 <= k < pos ==> !sort_order(key, desc)(x, #[trigger] v@[k]),
            pos < v.len() ==> sort_order(key, desc)(x, v@[pos as int]),
        decreases v.len() - pos,
    {
        if goes_before(key, desc, &x, &v[pos]) {
            break;
        }
        pos = pos + 1;
    }
    proof {
        lemma_insert_at(v@, x, sort_order(key, desc), pos as int);
    }
    let ghost before_insert = v@;
    v.insert(pos, x);
    assert(v@ =~= before_insert.take(pos as int).push(x) + before_insert.skip(pos as int));
}

/// Sorts processes stably by `key`, descending when `desc` holds, as the
/// process table orders them.
pub fn sort_processes(v: Vec<ProcessInfo>, key: SortKey, desc: bool) -> (res: Vec<ProcessInfo>)
    ensures
        res@ == stable_sort(v@, sort_order(key, desc)),
{
    let ghost input = v@;
    let mut rest = v;
    let mut res: Vec<ProcessInfo> = Vec::new();
    let ghost mut k: int = 0;
    assert(input.take(0) =~= Seq::<ProcessInfo>::empty());
    while rest.len() > 0
        invariant
            0 <= k <= input.len(),
            rest@ == input.skip(k),
            res@ == stable_sort(input.take(k), sort_order(key, desc)),
        decreases rest.len(),
    {
        let x = rest.remove(0);
        proof {
            assert(input.take(k + 1).drop_last() =~= input.take(k));
            assert(input.take(k + 1).last() == x);
            assert(input.skip(k).drop_first() =~= input.skip(k + 1));
        }
        insert_process(&mut res, x, key, desc);
        proof {
            k = k + 1;
        }
    }
    assert(input.take(k) =~= input);
    res
}

proof fn lemma_totals_concat(a: Seq<ProcessInfo>, b: Seq<ProcessInfo>)
    ensures
        memory_total(a + b) == memory_total(a) + memory_total(b),
        cpu_total(a + b) == cpu_total(a) + cpu_total(b),
    decreases b.len(),
{
    if b.len() == 0 {
        assert(a + b =~= a);
    } else {
        lemma_totals_concat(a, b.drop_last());
        assert((a + b).drop_last() =~= a + b.drop_last());
    }
}

proof fn lemma_totals_single(x: ProcessInfo)
    ensures
        memory_total(seq![x]) == x.memory,
        cpu_total(seq![x]) == x.cpu_usage,
{
    assert(seq![x].drop_last() =~= Seq::<ProcessInfo>::empty());
    assert(memory_total(Seq::<ProcessInfo>::empty()) == 0);
    assert(cpu_total(Seq::<ProcessInfo>::empty()) == 0);
    assert(seq![x].last() == x);
}

proof fn lemma_totals_insert(sorted: Seq<ProcessInfo>, x: ProcessInfo, before: spec_fn(ProcessInfo, ProcessInfo) -> bool)
    ensures
        memory_total(insert_in_order(sorted, x, before)) == memory_total(sorted) + x.memory,
        cpu_total(insert_in_order(sorted, x, before)) == cpu_total(sorted) + x.cpu_usage,
    decreases sorted.len(),
{
    lemma_totals_single(x);
    if sorted.len() == 0 {
    } else {
        let rest = sorted.drop_first();
        assert(sorted =~= seq![sorted[0]] + rest);
        lemma_totals_concat(seq![sorted[0]], rest);
        lemma_totals_single(sorted[0]);
        if before(x, sorted[0]) {
            lemma_totals_concat(seq![x], sorted);
        } else {
            lemma_totals_insert(rest, x, before);
            lemma_totals_concat(seq![sorted[0]], insert_in_order(rest, x, before));
        }
    }
}

/// Sorting keeps the totals of memory and CPU, and so the bound that the
/// grouped view relies on.
pub proof fn lemma_sort_keeps_totals(s: Seq<ProcessInfo>, before: spec_fn(ProcessInfo, ProcessInfo) -> bool)
    ensures
        memory_total(stable_sort(s, before)) == memory_total(s),
        cpu_total(stable_sort(s, before)) == cpu_total(s),
        processes_wf(s) ==> processes_wf(stable_sort(s, before)),
    decreases s.len(),
{
    if s.len() > 0 {
        lemma_sort_keeps_totals(s.drop_last(), before);
        lemma_totals_insert(stable_sort(s.drop_last(), before), s.last(), before);
    }
}

/// `before` is a strict order: no element precedes one that precedes it,
/// and precedence chains.
pub open spec fn strict_order<T>(before: spec_fn(T, T) -> bool) -> bool {
    &&& forall|a: T, b: T| #[trigger] before(a, b) ==> !before(b, a)
    &&& forall|a: T, b: T, c: T| #[trigger] before(a, b) && #[trigger] before(b, c) ==> before(a, c)
}

/// No element of `s` is preceded by an element that comes after it.
pub open spec fn sorted_by<T>(s: Seq<T>, before: spec_fn(T, T) -> bool) -> bool {
    forall|i: int, j: int| 0 <= i < j < s.len() ==> !before(#[trigger] s[j], #[trigger] s[i])
}

proof fn lemma_insert_position<T>(sorted: Seq<T>, x: T, before: spec_fn(T, T) -> bool) -> (pos: int)
    ensures
        0 <= pos <= sorted.len(),
        forall|k: int| 0 <= k < pos ==> !before(x, #[trigger] sorted[k]),
        pos < sorted.len() ==> before(x, sorted[pos]),
        insert_in_order(sorted, x, before) == sorted.insert(pos, x),
    decreases sorted.len(),
{
    if sorted.len() == 0 {
        assert(seq![x] =~= sorted.insert(0, x));
        0
    } else if before(x, sorted[0]) {
        assert(seq![x] + sorted =~= sorted.insert(0, x));
        0
    } else {
        let rest = sorted.drop_first();
        let p = lemma_insert_position(rest, x, before);
        assert forall|k: int| 0 <= k < p + 1 implies !before(x, #[trigger] sorted[k]) by {
            if k > 0 {
                assert(sorted[k] == rest[k - 1]);
            }
        }
        assert(seq![sorted[0]] + rest.insert(p, x) =~= sorted.insert(p + 1, x));
        p + 1
    }
}

proof fn lemma_insert_sorted<T>(sorted: Seq<T>, x: T, before: spec_fn(T, T) -> bool)
    requires
        strict_order(before),
        sorted_by(sorted, before),
    ensures
        sorted_by(insert_in_order(sorted, x, before), before),
        insert_in_order(sorted, x, before).to_multiset() == sorted.to_multiset().insert(x),
{
    broadcast use vstd::seq_lib::group_to_multiset_ensures;
    let pos = lemma_insert_position(sorted, x, before);
    let r = sorted.insert(pos, x);
    assert forall|i: int, j: int| 0 <= i < j < r.len() implies !before(#[trigger] r[j], #[trigger] r[i]) by {
        if j < pos {
            assert(r[i] == sorted[i] && r[j] == sorted[j]);
        } else if j == pos {
            assert(r[i] == sorted[i]);
            assert(!before(x, sorted[i]));
        } else if i > pos {
            assert(r[i] == sorted[i - 1] && r[j] == sorted[j - 1]);
        } else if i == pos {
            assert(r[j] == sorted[j - 1]);
            assert(before(x, sorted[pos]));
            if j - 1 > pos {
                assert(!before(sorted[j - 1], sorted[pos]));
            }
        } else {
            assert(r[i] == sorted[i] && r[j] == sorted[j - 1]);
        }
    }
}

/// The stable sort by a strict order puts its elements in order, and
/// rearranges them without losing or adding any.
pub proof fn lemma_stable_sort_orders<T>(s: Seq<T>, before: spec_fn(T, T) -> bool)
    requires
        strict_order(before),
    ensures
        sorted_by(stable_sort(s, before), before),
        stable_sort(s, before).to_multiset() == s.to_multiset(),
    decreases s.len(),
{
    broadcast use vstd::seq_lib::group_to_multiset_ensures;
    if s.len() == 0 {
    } else {
        lemma_stable_sort_orders(s.drop_last(), before);
        lemma_insert_sorted(stable_sort(s.drop_last(), before), s.last(), before);
        assert(s =~= s.drop_last().push(s.last()));
    }
}

proof fn lemma_name_before_asymmetric(a: Seq<char>, b: Seq<char>)
    ensures
        name_before(a, b) ==> !name_before(b, a),
    decreases a.len(),
{
    if a.len() > 0 && b.len() > 0 && a[0] == b[0] {
        lemma_name_before_asymmetric(a.drop_first(), b.drop_first());
    }
}

proof fn lemma_name_before_transitive(a: Seq<char>, b: Seq<char>, c: Seq<char>)
    ensures
        name_before(a, b) && name_before(b, c) ==> name_before(a, c),
    decreases a.len(),
{
    if a.len() > 0 && b.len() > 0 && c.len() > 0 && a[0] == b[0] && b[0] == c[0] {
        lemma_name_before_transitive(a.drop_first(), b.drop_first(), c.drop_first());
    }
}

/// The table's precedence, ascending or descending by any column, is a
/// strict order.
pub proof fn lemma_sort_order_strict(key: SortKey, desc: bool)
    ensures
        strict_order(sort_order(key, desc)),
{
    let before = sort_order(key, desc);
    assert forall|a: ProcessInfo, b: ProcessInfo| #[trigger] before(a, b) implies !before(b, a) by {
        lemma_name_before_asymmetric(a.name@, b.name@);
    }
    assert forall|a: ProcessInfo, b: ProcessInfo, c: ProcessInfo|
        #[trigger] before(a, b) && #[trigger] before(b, c) implies before(a, c) by {
        lemma_name_before_transitive(a.name@, b.name@, c.name@);
        lemma_name_before_transitive(c.name@, b.name@, a.name@);
    }
}

/// Sorting the process table by a column puts no process after one that
/// it precedes in that column, and keeps every process exactly once.
pub proof fn lemma_table_sorted(s: Seq<ProcessInfo>, key: SortKey, desc: bool)
    ensures
        sorted_by(stable_sort(s, sort_order(key, desc)), sort_order(key, desc)),
        stable_sort(s, sort_order(key, desc)).to_multiset() == s.to_multiset(),
{
    lemma_sort_order_strict(key, desc);
    lemma_stable_sort_orders(s, sort_order(key, desc));
}

/// Sorting by a column orders the processes by that column's values:
/// CPU usage, memory (as full 64-bit byte counts) and pid numerically, names
/// by code point; largest first when descending, smallest first otherwise.
pub proof fn lemma_table_in_column_order(s: Seq<ProcessInfo>, key: SortKey, desc: bool)
    ensures
        forall|i: int, j: int| 0 <= i < j < stable_sort(s, sort_order(key, desc)).len() ==> {
            let a = #[trigger] stable_sort(s, sort_order(key, desc))[i];
            let b = #[trigger] stable_sort(s, sort_order(key, desc))[j];
            &&& (key == SortKey::Cpu && desc ==> b.cpu_usage <= a.cpu_usage)
            &&& (key == SortKey::Cpu && !desc ==> a.cpu_usage <= b.cpu_usage)
            &&& (key == SortKey::Memory && desc ==> b.memory <= a.memory)
            &&& (key == SortKey::Memory && !desc ==> a.memory <= b.memory)
            &&& (key == SortKey::Pid && desc ==> b.pid <= a.pid)
            &&& (key == SortKey::Pid && !desc ==> a.pid <= b.pid)
            &&& (key == SortKey::Name && desc ==> !name_before(a.name@, b.name@))
            &&& (key == SortKey::Name && !desc ==> !name_before(b.name@, a.name@))
        },
{
    lemma_table_sorted(s, key, desc);
    let r = stable_sort(s, sort_order(key, desc));
    assert forall|i: int, j: int| 0 <= i < j < r.len() implies {
        let a = #[trigger] r[i];
        let b = #[trigger] r[j];
        &&& (key == SortKey::Cpu && desc ==> b.cpu_usage <= a.cpu_usage)
        &&& (key == SortKey::Cpu && !desc ==> a.cpu_usage <= b.cpu_usage)
        &&& (key == SortKey::Memory && desc ==> b.memory <= a.memory)
        &&& (key == SortKey::Memory && !desc ==> a.memory <= b.memory)
        &&& (key == SortKey::Pid && desc ==> b.pid <= a.pid)
        &&& (key == SortKey::Pid && !desc ==> a.pid <= b.pid)
        &&& (key == SortKey::Name && desc ==> !name_before(a.name@, b.name@))
        &&& (key == SortKey::Name && !desc ==> !name_before(b.name@, a.name@))
    } by {
        assert(!sort_order(key, desc)(r[j], r[i]));
    }
}

} // verus!
