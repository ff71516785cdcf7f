//! The rows of the process table in its three layouts: flat, a parent/child
//! tree, and groups by cgroup/systemd unit.
use vstd::prelude::*;
use crate::ordering::{lemma_insert_at, lemma_stable_sort_orders, sorted_by, stable_sort, strict_order};
use crate::process::{cpu_total, lemma_prefix_totals_grow, memory_total, pids_unique, processes_wf, ProcessInfo};
use crate::text::{chars_equal, chars_of, string_from_chars};

verus! {

/// One row of the process table.
#[derive(Debug)]
pub enum ProcessRow {
    /// A non-selectable group header in `Grouped` view. `total_cpu` is in
    /// hundredths of a percent, `total_mem` in bytes.
    Header { label: String, count: usize, total_cpu: u64, total_mem: u64 },
    /// A process, by its index in the snapshot's process list, plus its
    /// position in the (optional) tree or group.
    Process { index: usize, depth: usize, has_children: bool },
}

/// The mathematical content of a row.
pub enum RowView {
    Header { label: Seq<char>, count: nat, total_cpu: nat, total_mem: nat },
    Process { index: int, depth: nat, has_children: bool },
}

impl View for ProcessRow {
    type V = RowView;

    open spec fn view(&self) -> RowView {
        match self {
            ProcessRow::Header { label, count, total_cpu, total_mem } => RowView::Header {
                label: label@,
                count: *count as nat,
                total_cpu: *total_cpu as nat,
                total_mem: *total_mem as nat,
            },
            ProcessRow::Process { index, depth, has_children } => RowView::Process {
                index: *index as int,
                depth: *depth as nat,
                has_children: *has_children,
            },
        }
    }
}

/// The views of a sequence of rows.
pub open spec fn views(rows: Seq<ProcessRow>) -> Seq<RowView> {
    rows.map_values(|r: ProcessRow| r@)
}

pub proof fn lemma_views_push(rows: Seq<ProcessRow>, r: ProcessRow)
    ensures
        views(rows.push(r)) == views(rows).push(r@),
{
    assert(views(rows.push(r)) =~= views(rows).push(r@));
}

/// The indices `j < n` for which `pred(j)` holds, in increasing order.
pub open spec fn indices_where(n: nat, pred: spec_fn(usize) -> bool) -> Seq<usize>
    decreases n,
{
    if n == 0 {
        seq![]
    } else {
        let j = (n - 1) as usize;
        indices_where((n - 1) as nat, pred) + (if pred(j) { seq![j] } else { seq![] })
    }
}

pub proof fn lemma_indices_below(n: nat, pred: spec_fn(usize) -> bool)
    requires
        n <= usize::MAX + 1,
    ensures
        forall|t: int| 0 <= t < indices_where(n, pred).len() ==> #[trigger] indices_where(n, pred)[t] < n,
    decreases n,
{
    if n > 0 {
        let m = (n - 1) as nat;
        lemma_indices_below(m, pred);
        let prev = indices_where(m, pred);
        let tail = if pred((n - 1) as usize) { seq![(n - 1) as usize] } else { Seq::<usize>::empty() };
        assert(indices_where(n, pred) == prev + tail);
        assert forall|t: int| 0 <= t < indices_where(n, pred).len() implies #[trigger] indices_where(n, pred)[t] < n by {
            if t < prev.len() {
                assert(indices_where(n, pred)[t] == prev[t]);
            } else {
                assert(indices_where(n, pred)[t] == tail[t - prev.len()]);
            }
        }
    }
}

/// Some process in `ps` has the pid `pid`.
pub open spec fn pid_present(ps: Seq<ProcessInfo>, pid: u32) -> bool {
    exists|j: int| 0 <= j < ps.len() && ps[j].pid == pid
}

/// A process is a root of the tree when it has no parent, or when its
/// parent is not in the list.
pub open spec fn is_root(ps: Seq<ProcessInfo>, p: ProcessInfo) -> bool {
    match p.ppid {
        Some(pp) => !pid_present(ps, pp),
        None => true,
    }
}

pub open spec fn root_pred(ps: Seq<ProcessInfo>) -> spec_fn(usize) -> bool {
    |j: usize| is_root(ps, ps[j as int])
}

pub open spec fn child_pred(ps: Seq<ProcessInfo>, pid: u32) -> spec_fn(usize) -> bool {
    |j: usize| ps[j as int].ppid == Some(pid)
}

/// Indices of the roots, in list order.
pub open spec fn roots(ps: Seq<ProcessInfo>) -> Seq<usize> {
    indices_where(ps.len(), root_pred(ps))
}

/// Indices of the children of the process with pid `pid`, in list order.
pub open spec fn children(ps: Seq<ProcessInfo>, pid: u32) -> Seq<usize> {
    indices_where(ps.len(), child_pred(ps, pid))
}

/// The position of the last process with pid `pid`, or -1 when there is
/// none: the process a lookup by pid finds when pids repeat.
pub open spec fn last_with_pid(ps: Seq<ProcessInfo>, pid: u32) -> int
    decreases ps.len(),
{
    if ps.len() == 0 {
        -1
    } else if ps.last().pid == pid {
        ps.len() - 1
    } else {
        last_with_pid(ps.drop_last(), pid)
    }
}

/// The last process with a pid lies at or after any process with it.
pub proof fn lemma_last_with_pid(ps: Seq<ProcessInfo>, i: int)
    requires
        0 <= i < ps.len(),
    ensures
        i <= last_with_pid(ps, ps[i].pid) < ps.len(),
        ps[last_with_pid(ps, ps[i].pid)].pid == ps[i].pid,
        pids_unique(ps) ==> last_with_pid(ps, ps[i].pid) == i,
    decreases ps.len(),
{
    if ps.last().pid != ps[i].pid {
        assert(i < ps.len() - 1);
        lemma_last_with_pid(ps.drop_last(), i);
        assert(ps.drop_last()[i] == ps[i]);
        let l = last_with_pid(ps.drop_last(), ps[i].pid);
        assert(ps.drop_last()[l] == ps[l]);
    }
}

/// The pre-order rows of the subtree of the pid of `ps[i]` at `depth`: the
/// row of the process with that pid (the last one, when pids repeat), then,
/// unless the pid is folded, the subtrees of its children.
/// `fuel` bounds the depth of the walk (see `lemma_tree_walk_complete`).
pub open spec fn subtree(ps: Seq<ProcessInfo>, collapsed: Seq<u32>, i: usize, depth: nat, fuel: nat) -> Seq<RowView>
    decreases fuel, 0nat,
{
    let kids = children(ps, ps[i as int].pid);
    let row = RowView::Process { index: last_with_pid(ps, ps[i as int].pid), depth, has_children: kids.len() > 0 };
    if fuel == 0 || collapsed.contains(ps[i as int].pid) {
        seq![row]
    } else {
        seq![row] + forest(ps, collapsed, kids, depth + 1, (fuel - 1) as nat)
    }
}

/// The subtrees of the processes at `ks`, one after the other.
pub open spec fn forest(ps: Seq<ProcessInfo>, collapsed: Seq<u32>, ks: Seq<usize>, depth: nat, fuel: nat) -> Seq<RowView>
    decreases fuel, ks.len() + 1,
{
    if ks.len() == 0 {
        seq![]
    } else {
        forest(ps, collapsed, ks.drop_last(), depth, fuel) + subtree(ps, collapsed, ks.last(), depth, fuel)
    }
}

/// The rows of the tree view: every root's subtree, in list order.
pub open spec fn tree_spec(ps: Seq<ProcessInfo>, collapsed: Seq<u32>) -> Seq<RowView> {
    forest(ps, collapsed, roots(ps), 0, ps.len())
}

/// Whether some process of `ps` has the pid `pid`.
pub(crate) fn pid_present_exec(ps: &Vec<ProcessInfo>, pid: u32) -> (res: bool)
    ensures
        res == pid_present(ps@, pid),
{
    let mut j: usize = 0;
    while j < ps.len()
        invariant
            j <= ps.len(),
            forall|k: int| 0 <= k < j ==> ps@[k].pid != pid,
        decreases ps.len() - j,
    {
        if ps[j].pid == pid {
            return true;
        }
        j = j + 1;
    }
    false
}

fn collect_roots(ps: &Vec<ProcessInfo>) -> (res: Vec<usize>)
    ensures
        res@ == roots(ps@),
{
    let mut res: Vec<usize> = Vec::new();
    let mut j: usize = 0;
    while j < ps.len()
        invariant
            j <= ps.len(),
            res@ == indices_where(j as nat, root_pred(ps@)),
        decreases ps.len() - j,
    {
        let root = match ps[j].ppid {
            Some(pp) => !pid_present_exec(ps, pp),
            None => true,
        };
        if root {
            res.push(j);
        }
        assert(res@ =~= indices_where((j + 1) as nat, root_pred(ps@)));
        j = j + 1;
    }
    res
}

fn collect_children(ps: &Vec<ProcessInfo>, pid: u32) -> (res: Vec<usize>)
    ensures
        res@ == children(ps@, pid),
{
    let mut res: Vec<usize> = Vec::new();
    let mut j: usize = 0;
    while j < ps.len()
        invariant
            j <= ps.len(),
            res@ == indices_where(j as nat, child_pred(ps@, pid)),
        decreases ps.len() - j,
    {
        if ps[j].ppid == Some(pid) {
            res.push(j);
        }
        assert(res@ =~= indices_where((j + 1) as nat, child_pred(ps@, pid)));
        j = j + 1;
    }
    res
}

/// Whether `x` occurs in `v`.
pub fn contains_u32(v: &Vec<u32>, x: u32) -> (res: bool)
    ensures
        res == v@.contains(x),
{
    let mut j: usize = 0;
    while j < v.len()
        invariant
            j <= v.len(),
            forall|k: int| 0 <= k < j ==> v@[k] != x,
        decreases v.len() - j,
    {
        if v[j] == x {
            assert(v@[j as int] == x);
            return true;
        }
        j = j + 1;
    }
    false
}

fn last_index_of_pid(ps: &Vec<ProcessInfo>, i: usize) -> (res: usize)
    requires
        i < ps.len(),
    ensures
        res as int == last_with_pid(ps@, ps@[i as int].pid),
{
    let pid = ps[i].pid;
    let mut j: usize = ps.len();
    proof {
        lemma_last_with_pid(ps@, i as int);
        assert(ps@.take(j as int) =~= ps@);
    }
    while j > 0
        invariant
            j <= ps.len(),
            i < ps.len(),
            pid == ps@[i as int].pid,
            last_with_pid(ps@, pid) == last_with_pid(ps@.take(j as int), pid),
            i <= last_with_pid(ps@, pid) < ps.len(),
        decreases j,
    {
        let ghost t = ps@.take(j as int);
        assert(t.last() == ps@[j - 1]);
        if ps[j - 1].pid == pid {
            return j - 1;
        }
        assert(t.drop_last() =~= ps@.take(j - 1));
        j = j - 1;
    }
    assert(last_with_pid(ps@.take(0), pid) == -1);
    i
}

fn push_subtree(
    ps: &Vec<ProcessInfo>,
    collapsed: &Vec<u32>,
    i: usize,
    depth: usize,
    fuel: usize,
    rows: &mut Vec<ProcessRow>,
)
    requires
        i < ps.len(),
        depth + fuel <= ps.len(),
    ensures
        views(final(rows)@) == views(old(rows)@) + subtree(ps@, collapsed@, i, depth as nat, fuel as nat),
    decreases fuel,
{
    let pid = ps[i].pid;
    let kids = collect_children(ps, pid);
    let row = ProcessRow::Process { index: last_index_of_pid(ps, i), depth, has_children: kids.len() > 0 };
    proof {
        lemma_views_push(rows@, row);
    }
    rows.push(row);
    if fuel == 0 || contains_u32(collapsed, pid) {
        return;
    }
    let ghost base = views(rows@);
    proof {
        lemma_indices_below(ps@.len(), child_pred(ps@, pid));
        assert(kids@.take(0) =~= Seq::<usize>::empty());
    }
    let mut k: usize = 0;
    while k < kids.len()
        invariant
            k <= kids.len(),
            kids@ == children(ps@, pid),
            forall|t: int| 0 <= t < kids@.len() ==> #[trigger] kids@[t] < ps@.len(),
            depth + fuel <= ps.len(),
            fuel > 0,
            views(rows@) == base + forest(ps@, collapsed@, kids@.take(k as int), (depth + 1) as nat, (fuel - 1) as nat),
        decreases kids.len() - k,
    {
        push_subtree(ps, collapsed, kids[k], depth + 1, fuel - 1, rows);
        proof {
            assert(kids@.take(k + 1).drop_last() =~= kids@.take(k as int));
            assert(kids@.take(k + 1).last() == kids@[k as int]);
        }
        k = k + 1;
    }
    assert(kids@.take(kids@.len() as int) =~= kids@);
}

/// The rows of the tree view of `ps`, with the subtrees of the pids in
/// `collapsed` folded. The walk goes by pid: a row lists the last process
/// with its pid, and the children of a pid are all processes whose parent
/// is that pid. Where pids repeat, the same process may so be listed more
/// than once; where they form a cycle, the walk stops at a depth of as many
/// levels as there are processes.
pub fn tree_rows(ps: &Vec<ProcessInfo>, collapsed: &Vec<u32>) -> (res: Vec<ProcessRow>)
    ensures
        views(res@) == tree_spec(ps@, collapsed@),
{
    let rts = collect_roots(ps);
    let mut rows: Vec<ProcessRow> = Vec::new();
    assert(ps@.len() == ps.len());
    proof {
        lemma_indices_below(ps@.len(), root_pred(ps@));
        assert(rts@.take(0) =~= Seq::<usize>::empty());
        assert(views(rows@) =~= Seq::<RowView>::empty());
    }
    let mut k: usize = 0;
    while k < rts.len()
        invariant
            k <= rts.len(),
            rts@ == roots(ps@),
            forall|t: int| 0 <= t < rts@.len() ==> #[trigger] rts@[t] < ps@.len(),
            views(rows@) == forest(ps@, collapsed@, rts@.take(k as int), 0, ps@.len()),
        decreases rts.len() - k,
    {
        push_subtree(ps, collapsed, rts[k], 0, ps.len(), &mut rows);
        proof {
            assert(rts@.take(k + 1).drop_last() =~= rts@.take(k as int));
            assert(rts@.take(k + 1).last() == rts@[k as int]);
        }
        k = k + 1;
    }
    assert(rts@.take(rts@.len() as int) =~= rts@);
    rows
}

/// The label under which processes without a cgroup label are grouped, so
/// that every process stays visible somewhere.
pub open spec fn ungrouped_label() -> Seq<char> {
    "(ungrouped)"@
}

/// The group a process is listed under.
pub open spec fn label_of(p: ProcessInfo) -> Seq<char> {
    match p.group {
        Some(g) => g@,
        None => ungrouped_label(),
    }
}

/// The labels of `ps`, each once, in order of first appearance.
pub open spec fn distinct_labels(ps: Seq<ProcessInfo>) -> Seq<Seq<char>>
    decreases ps.len(),
{
    if ps.len() == 0 {
        seq![]
    } else {
        let prev = distinct_labels(ps.drop_last());
        let l = label_of(ps.last());
        if prev.contains(l) {
            prev
        } else {
            prev.push(l)
        }
    }
}

pub open spec fn member_pred(ps: Seq<ProcessInfo>, label: Seq<char>) -> spec_fn(usize) -> bool {
    |j: usize| label_of(ps[j as int]) == label
}

/// Indices of the members of the group `label`, in list order.
pub open spec fn members(ps: Seq<ProcessInfo>, label: Seq<char>) -> Seq<usize> {
    indices_where(ps.len(), member_pred(ps, label))
}

/// Total CPU usage of the processes at `idx`.
pub open spec fn cpu_of(ps: Seq<ProcessInfo>, idx: Seq<usize>) -> nat
    decreases idx.len(),
{
    if idx.len() == 0 {
        0
    } else {
        cpu_of(ps, idx.drop_last()) + ps[idx.last() as int].cpu_usage as nat
    }
}

/// Total memory of the processes at `idx`.
pub open spec fn mem_of(ps: Seq<ProcessInfo>, idx: Seq<usize>) -> nat
    decreases idx.len(),
{
    if idx.len() == 0 {
        0
    } else {
        mem_of(ps, idx.drop_last()) + ps[idx.last() as int].memory as nat
    }
}

/// Groups go before groups with a smaller total CPU usage.
pub open spec fn group_order(ps: Seq<ProcessInfo>) -> spec_fn(Seq<char>, Seq<char>) -> bool {
    |a: Seq<char>, b: Seq<char>| cpu_of(ps, members(ps, b)) < cpu_of(ps, members(ps, a))
}

/// The groups in display order: by total CPU, descending; groups with equal
/// totals in order of first appearance.
pub open spec fn ordered_labels(ps: Seq<ProcessInfo>) -> Seq<Seq<char>> {
    stable_sort(distinct_labels(ps), group_order(ps))
}

pub open spec fn member_row(j: usize) -> RowView {
    RowView::Process { index: j as int, depth: 1, has_children: false }
}

/// A group's header followed by its members, at depth one.
pub open spec fn group_block(ps: Seq<ProcessInfo>, label: Seq<char>) -> Seq<RowView> {
    let m = members(ps, label);
    seq![RowView::Header {
        label,
        count: m.len(),
        total_cpu: cpu_of(ps, m),
        total_mem: mem_of(ps, m),
    }] + m.map_values(|j: usize| member_row(j))
}

/// The blocks of the groups `labels`, one after the other.
pub open spec fn groups_rows(ps: Seq<ProcessInfo>, labels: Seq<Seq<char>>) -> Seq<RowView>
    decreases labels.len(),
{
    if labels.len() == 0 {
        seq![]
    } else {
        groups_rows(ps, labels.drop_last()) + group_block(ps, labels.last())
    }
}

/// The rows of the grouped view.
pub open spec fn grouped_spec(ps: Seq<ProcessInfo>) -> Seq<RowView> {
    groups_rows(ps, ordered_labels(ps))
}

proof fn lemma_cpu_of_push(ps: Seq<ProcessInfo>, idx: Seq<usize>, j: usize)
    ensures
        cpu_of(ps, idx.push(j)) == cpu_of(ps, idx) + ps[j as int].cpu_usage,
        mem_of(ps, idx.push(j)) == mem_of(ps, idx) + ps[j as int].memory,
{
    assert(idx.push(j).drop_last() =~= idx);
}

proof fn lemma_member_sums_bounded(ps: Seq<ProcessInfo>, label: Seq<char>, n: nat)
    requires
        n <= ps.len(),
        n <= usize::MAX,
    ensures
        cpu_of(ps, indices_where(n, member_pred(ps, label))) <= cpu_total(ps.take(n as int)),
        mem_of(ps, indices_where(n, member_pred(ps, label))) <= memory_total(ps.take(n as int)),
    decreases n,
{
    if n > 0 {
        let m = (n - 1) as nat;
        let prev = indices_where(m, member_pred(ps, label));
        lemma_member_sums_bounded(ps, label, m);
        assert(ps.take(n as int).drop_last() =~= ps.take(m as int));
        if member_pred(ps, label)((n - 1) as usize) {
            assert(indices_where(n, member_pred(ps, label)) == prev.push((n - 1) as usize));
            lemma_cpu_of_push(ps, prev, (n - 1) as usize);
        } else {
            assert(indices_where(n, member_pred(ps, label)) =~= prev);
        }
    }
}

/// The character sequences held by a vector of labels.
pub open spec fn label_views(v: Seq<Vec<char>>) -> Seq<Seq<char>> {
    v.map_values(|x: Vec<char>| x@)
}

fn label_chars(p: &ProcessInfo) -> (res: Vec<char>)
    ensures
        res@ == label_of(*p),
{
    match &p.group {
        Some(g) => chars_of(g.as_str()),
        None => chars_of("(ungrouped)"),
    }
}

fn labels_contain(labels: &Vec<Vec<char>>, l: &Vec<char>) -> (res: bool)
    ensures
        res == label_views(labels@).contains(l@),
{
    let mut i: usize = 0;
    while i < labels.len()
        invariant
            i <= labels.len(),
            forall|k: int| 0 <= k < i ==> label_views(labels@)[k] != l@,
        decreases labels.len() - i,
    {
        if chars_equal(&labels[i], l) {
            assert(label_views(labels@)[i as int] == l@);
            return true;
        }
        i = i + 1;
    }
    false
}

fn collect_labels(ps: &Vec<ProcessInfo>) -> (res: Vec<Vec<char>>)
    ensures
        label_views(res@) == distinct_labels(ps@),
{
    let mut labels: Vec<Vec<char>> = Vec::new();
    let mut j: usize = 0;
    assert(ps@.take(0) =~= Seq::<ProcessInfo>::empty());
    assert(label_views(labels@) =~= Seq::<Seq<char>>::empty());
    while j < ps.len()
        invariant
            j <= ps.len(),
            label_views(labels@) == distinct_labels(ps@.take(j as int)),
        decreases ps.len() - j,
    {
        let l = label_chars(&ps[j]);
        assert(ps@.take(j + 1).drop_last() =~= ps@.take(j as int));
        assert(ps@.take(j + 1).last() == ps@[j as int]);
        if !labels_contain(&labels, &l) {
            let ghost old_view = label_views(labels@);
            labels.push(l);
            assert(label_views(labels@) =~= old_view.push(l@));
        }
        j = j + 1;
    }
    assert(ps@.take(ps@.len() as int) =~= ps@);
    labels
}

fn group_members(ps: &Vec<ProcessInfo>, label: &Vec<char>) -> (res: (Vec<usize>, u64, u64))
    requires
        processes_wf(ps@),
    ensures
        res.0@ == members(ps@, label@),
        res.1 == cpu_of(ps@, members(ps@, label@)),
        res.2 == mem_of(ps@, members(ps@, label@)),
{
    let mut idx: Vec<usize> = Vec::new();
    let mut cpu: u64 = 0;
    let mut mem: u64 = 0;
    let mut j: usize = 0;
    while j < ps.len()
        invariant
            j <= ps.len(),
            processes_wf(ps@),
            idx@ == indices_where(j as nat, member_pred(ps@, label@)),
            cpu == cpu_of(ps@, idx@),
            mem == mem_of(ps@, idx@),
        decreases ps.len() - j,
    {
        let l = label_chars(&ps[j]);
        if chars_equal(&l, label) {
            proof {
                lemma_member_sums_bounded(ps@, label@, (j + 1) as nat);
                lemma_prefix_totals_grow(ps@, (j + 1) as nat, ps@.len());
                assert(ps@.take(ps@.len() as int) =~= ps@);
                lemma_cpu_of_push(ps@, idx@, j);
                assert(indices_where((j + 1) as nat, member_pred(ps@, label@)) == idx@.push(j));
            }
            cpu = cpu + ps[j].cpu_usage as u64;
            mem = mem + ps[j].memory;
            idx.push(j);
        } else {
            assert(indices_where((j + 1) as nat, member_pred(ps@, label@)) =~= idx@);
        }
        j = j + 1;
    }
    (idx, cpu, mem)
}

fn order_labels(ps: &Vec<ProcessInfo>, labels: Vec<Vec<char>>) -> (res: Vec<Vec<char>>)
    requires
        processes_wf(ps@),
    ensures
        label_views(res@) == stable_sort(label_views(labels@), group_order(ps@)),
{
    let ghost input = label_views(labels@);
    let mut rest = labels;
    let mut sorted: Vec<Vec<char>> = Vec::new();
    let mut totals: Vec<u64> = Vec::new();
    let ghost mut k: int = 0;
    assert(input.take(0) =~= Seq::<Seq<char>>::empty());
    assert(label_views(sorted@) =~= Seq::<Seq<char>>::empty());
    while rest.len() > 0
        invariant
            processes_wf(ps@),
            0 <= k <= input.len(),
            label_views(rest@) == input.skip(k),
            label_views(sorted@) == stable_sort(input.take(k), group_order(ps@)),
            totals@.len() == sorted@.len(),
            forall|t: int| 0 <= t < totals@.len() ==>
                #[trigger] totals@[t] == cpu_of(ps@, members(ps@, label_views(sorted@)[t])),
        decreases rest.len(),
    {
        let ghost rest_view = label_views(rest@);
        let x = rest.remove(0);
        proof {
            assert(label_views(rest@) =~= rest_view.drop_first());
            assert(rest_view[0] == x@);
            assert(input.take(k + 1).drop_last() =~= input.take(k));
            assert(input.take(k + 1).last() == x@);
            assert(input.skip(k).drop_first() =~= input.skip(k + 1));
        }
        let (_, tx, _) = group_members(ps, &x);
        let ghost order = group_order(ps@);
        let mut pos: usize = 0;
        while pos < sorted.len()
            invariant
                pos <= sorted.len(),
                totals@.len() == sorted@.len(),
                forall|t: int| 0 <= t < totals@.len() ==>
                    #[trigger] totals@[t] == cpu_of(ps@, members(ps@, label_views(sorted@)[t])),
                tx == cpu_of(ps@, members(ps@, x@)),
                order == group_order(ps@),
                forall|t: int| 0 <= t < pos ==> !order(x@, #[trigger] label_views(sorted@)[t]),
            ensures
                pos <= sorted.len(),
                forall|t: int| 0 <= t < pos ==> !order(x@, #[trigger] label_views(sorted@)[t]),
                pos < sorted.len() ==> order(x@, label_views(sorted@)[pos as int]),
            decreases sorted.len() - pos,
        {
            assert(totals@[pos as int] == cpu_of(ps@, members(ps@, label_views(sorted@)[pos as int])));
            assert(order(x@, label_views(sorted@)[pos as int]) == (totals@[pos as int] < tx));
            if totals[pos] < tx {
                break;
            }
            pos = pos + 1;
        }
        let ghost before_view = label_views(sorted@);
        proof {
            lemma_insert_at(before_view, x@, order, pos as int);
        }
        let ghost totals_before = totals@;
        sorted.insert(pos, x);
        totals.insert(pos, tx);
        assert(label_views(sorted@) =~= before_view.take(pos as int).push(x@) + before_view.skip(pos as int));
        assert forall|t: int| 0 <= t < totals@.len() implies
            #[trigger] totals@[t] == cpu_of(ps@, members(ps@, label_views(sorted@)[t])) by {
            if t < pos {
                assert(totals@[t] == totals_before[t]);
                assert(label_views(sorted@)[t] == before_view[t]);
            } else if t > pos {
                assert(totals@[t] == totals_before[t - 1]);
                assert(label_views(sorted@)[t] == before_view[t - 1]);
            }
        }
        proof {
            k = k + 1;
        }
    }
    assert(input.take(k) =~= input);
    sorted
}

/// The rows of the grouped view of `ps`: a header per group, then the
/// group's members in list order.
pub fn grouped_rows(ps: &Vec<ProcessInfo>) -> (res: Vec<ProcessRow>)
    requires
        processes_wf(ps@),
    ensures
        views(res@) == grouped_spec(ps@),
{
    let ordered = order_labels(ps, collect_labels(ps));
    let mut rows: Vec<ProcessRow> = Vec::new();
    let mut k: usize = 0;
    assert(label_views(ordered@).take(0) =~= Seq::<Seq<char>>::empty());
    assert(views(rows@) =~= Seq::<RowView>::empty());
    while k < ordered.len()
        invariant
            processes_wf(ps@),
            k <= ordered.len(),
            label_views(ordered@) == ordered_labels(ps@),
            views(rows@) == groups_rows(ps@, label_views(ordered@).take(k as int)),
        decreases ordered.len() - k,
    {
        let label = &ordered[k];
        let (idx, cpu, mem) = group_members(ps, label);
        proof {
            assert(ps@.len() == ps.len());
            lemma_indices_below(ps@.len(), member_pred(ps@, label@));
        }
        let header = ProcessRow::Header {
            label: string_from_chars(label),
            count: idx.len(),
            total_cpu: cpu,
            total_mem: mem,
        };
        let ghost base = views(rows@);
        proof {
            lemma_views_push(rows@, header);
        }
        rows.push(header);
        let mut m: usize = 0;
        assert(idx@.take(0).map_values(|j: usize| member_row(j)) =~= Seq::<RowView>::empty());
        while m < idx.len()
            invariant
                m <= idx.len(),
                views(rows@) == base.push(header@) + idx@.take(m as int).map_values(|j: usize| member_row(j)),
            decreases idx.len() - m,
        {
            let row = ProcessRow::Process { index: idx[m], depth: 1, has_children: false };
            proof {
                lemma_views_push(rows@, row);
                assert(idx@.take(m + 1).map_values(|j: usize| member_row(j))
                    =~= idx@.take(m as int).map_values(|j: usize| member_row(j)).push(member_row(idx@[m as int])));
            }
            rows.push(row);
            m = m + 1;
        }
        proof {
            assert(idx@.take(idx@.len() as int) =~= idx@);
            assert(label_views(ordered@).take(k + 1).drop_last() =~= label_views(ordered@).take(k as int));
            assert(label_views(ordered@).take(k + 1).last() == label@);
            assert(base.push(header@) + idx@.map_values(|j: usize| member_row(j))
                =~= base + group_block(ps@, label@));
        }
        k = k + 1;
    }
    assert(label_views(ordered@).take(label_views(ordered@).len() as int) =~= label_views(ordered@));
    rows
}

/// All rows refer to processes of `ps`.
pub open spec fn rows_in_range(rows: Seq<RowView>, ps: Seq<ProcessInfo>) -> bool {
    forall|t: int| 0 <= t < rows.len() ==> match #[trigger] rows[t] {
        RowView::Process { index, .. } => 0 <= index < ps.len(),
        RowView::Header { .. } => true,
    }
}

proof fn lemma_in_range_concat(a: Seq<RowView>, b: Seq<RowView>, ps: Seq<ProcessInfo>)
    requires
        rows_in_range(a, ps),
        rows_in_range(b, ps),
    ensures
        rows_in_range(a + b, ps),
{
    assert forall|t: int| 0 <= t < (a + b).len() implies match #[trigger] (a + b)[t] {
        RowView::Process { index, .. } => 0 <= index < ps.len(),
        RowView::Header { .. } => true,
    } by {
        if t < a.len() {
            assert((a + b)[t] == a[t]);
        } else {
            assert((a + b)[t] == b[t - a.len()]);
        }
    }
}

proof fn lemma_subtree_in_range(ps: Seq<ProcessInfo>, c: Seq<u32>, i: usize, depth: nat, fuel: nat)
    requires
        i < ps.len(),
        ps.len() <= usize::MAX,
    ensures
        rows_in_range(subtree(ps, c, i, depth, fuel), ps),
    decreases fuel, 0nat,
{
    let kids = children(ps, ps[i as int].pid);
    let row = RowView::Process { index: last_with_pid(ps, ps[i as int].pid), depth, has_children: kids.len() > 0 };
    lemma_last_with_pid(ps, i as int);
    assert(rows_in_range(seq![row], ps));
    if !(fuel == 0 || c.contains(ps[i as int].pid)) {
        lemma_indices_below(ps.len(), child_pred(ps, ps[i as int].pid));
        lemma_forest_in_range(ps, c, kids, depth + 1, (fuel - 1) as nat);
        lemma_in_range_concat(seq![row], forest(ps, c, kids, depth + 1, (fuel - 1) as nat), ps);
    }
}

proof fn lemma_forest_in_range(ps: Seq<ProcessInfo>, c: Seq<u32>, ks: Seq<usize>, depth: nat, fuel: nat)
    requires
        forall|t: int| 0 <= t < ks.len() ==> #[trigger] ks[t] < ps.len(),
        ps.len() <= usize::MAX,
    ensures
        rows_in_range(forest(ps, c, ks, depth, fuel), ps),
    decreases fuel, ks.len() + 1,
{
    if ks.len() > 0 {
        assert(ks.last() == ks[ks.len() - 1]);
        lemma_forest_in_range(ps, c, ks.drop_last(), depth, fuel);
        lemma_subtree_in_range(ps, c, ks.last(), depth, fuel);
        lemma_in_range_concat(forest(ps, c, ks.drop_last(), depth, fuel), subtree(ps, c, ks.last(), depth, fuel), ps);
    }
}

/// Every row of the tree view refers to a process of the list.
pub proof fn lemma_tree_in_range(ps: Seq<ProcessInfo>, c: Seq<u32>)
    requires
        ps.len() <= usize::MAX,
    ensures
        rows_in_range(tree_spec(ps, c), ps),
{
    lemma_indices_below(ps.len(), root_pred(ps));
    lemma_forest_in_range(ps, c, roots(ps), 0, ps.len());
}

proof fn lemma_groups_in_range(ps: Seq<ProcessInfo>, labels: Seq<Seq<char>>)
    requires
        ps.len() <= usize::MAX,
    ensures
        rows_in_range(groups_rows(ps, labels), ps),
    decreases labels.len(),
{
    if labels.len() > 0 {
        let l = labels.last();
        lemma_groups_in_range(ps, labels.drop_last());
        lemma_indices_below(ps.len(), member_pred(ps, l));
        let m = members(ps, l);
        let block = group_block(ps, l);
        assert forall|t: int| 0 <= t < block.len() implies match #[trigger] block[t] {
            RowView::Process { index, .. } => 0 <= index < ps.len(),
            RowView::Header { .. } => true,
        } by {
            if t > 0 {
                assert(block[t] == member_row(m[t - 1]));
            }
        }
        lemma_in_range_concat(groups_rows(ps, labels.drop_last()), block, ps);
    }
}

/// Every process row of the grouped view refers to a process of the list.
pub proof fn lemma_grouped_in_range(ps: Seq<ProcessInfo>)
    requires
        ps.len() <= usize::MAX,
    ensures
        rows_in_range(grouped_spec(ps), ps),
{
    lemma_groups_in_range(ps, ordered_labels(ps));
}

/// Groups are listed by total CPU usage, descending, each group once: the
/// display order is a rearrangement of the distinct labels in which no
/// group follows one with a smaller total.
pub proof fn lemma_groups_by_cpu_descending(ps: Seq<ProcessInfo>)
    ensures
        sorted_by(ordered_labels(ps), group_order(ps)),
        ordered_labels(ps).to_multiset() == distinct_labels(ps).to_multiset(),
        forall|i: int, j: int| 0 <= i < j < ordered_labels(ps).len()
            ==> cpu_of(ps, members(ps, #[trigger] ordered_labels(ps)[j]))
                <= cpu_of(ps, members(ps, #[trigger] ordered_labels(ps)[i])),
{
    let before = group_order(ps);
    assert(strict_order(before));
    lemma_stable_sort_orders(distinct_labels(ps), before);
    let o = ordered_labels(ps);
    assert forall|i: int, j: int| 0 <= i < j < o.len()
        implies cpu_of(ps, members(ps, #[trigger] o[j])) <= cpu_of(ps, members(ps, #[trigger] o[i])) by {
        assert(!before(o[j], o[i]));
    }
}

proof fn lemma_distinct_labels_cover(ps: Seq<ProcessInfo>, j: int)
    requires
        0 <= j < ps.len(),
    ensures
        distinct_labels(ps).contains(label_of(ps[j])),
    decreases ps.len(),
{
    let prev = distinct_labels(ps.drop_last());
    let l = label_of(ps.last());
    if j < ps.len() - 1 {
        lemma_distinct_labels_cover(ps.drop_last(), j);
        assert(ps.drop_last()[j] == ps[j]);
        if !prev.contains(l) {
            let k = choose|k: int| 0 <= k < prev.len() && prev[k] == label_of(ps[j]);
            assert(prev.push(l)[k] == label_of(ps[j]));
        }
    } else {
        if !prev.contains(l) {
            assert(prev.push(l)[prev.len() as int] == l);
        }
    }
}

proof fn lemma_indices_where_has(n: nat, pred: spec_fn(usize) -> bool, j: usize)
    requires
        j < n,
        pred(j),
    ensures
        indices_where(n, pred).contains(j),
    decreases n,
{
    let m = (n - 1) as nat;
    let prev = indices_where(m, pred);
    if (j as nat) < m {
        lemma_indices_where_has(m, pred, j);
        let k = choose|k: int| 0 <= k < prev.len() && prev[k] == j;
        assert(indices_where(n, pred)[k] == j);
    } else {
        assert(indices_where(n, pred) == prev + seq![j]);
        assert(indices_where(n, pred)[prev.len() as int] == j);
    }
}

proof fn lemma_groups_rows_has(ps: Seq<ProcessInfo>, labels: Seq<Seq<char>>, l: Seq<char>, r: RowView)
    requires
        labels.contains(l),
        group_block(ps, l).contains(r),
    ensures
        groups_rows(ps, labels).contains(r),
    decreases labels.len(),
{
    let front = groups_rows(ps, labels.drop_last());
    let block = group_block(ps, labels.last());
    let whole = groups_rows(ps, labels);
    assert(whole == front + block);
    if labels.last() == l {
        let t = choose|t: int| 0 <= t < block.len() && block[t] == r;
        assert(whole[front.len() + t] == r);
    } else {
        let k = choose|k: int| 0 <= k < labels.len() && labels[k] == l;
        assert(k < labels.len() - 1);
        assert(labels.drop_last()[k] == l);
        lemma_groups_rows_has(ps, labels.drop_last(), l, r);
        let t = choose|t: int| 0 <= t < front.len() && front[t] == r;
        assert(whole[t] == r);
    }
}

/// Every process is listed in the grouped view: processes without a group
/// label go under the ungrouped label rather than being dropped.
pub proof fn lemma_grouped_shows_every_process(ps: Seq<ProcessInfo>, j: usize)
    requires
        j < ps.len(),
    ensures
        grouped_spec(ps).contains(member_row(j)),
{
    broadcast use vstd::seq_lib::group_to_multiset_ensures;
    let l = label_of(ps[j as int]);
    lemma_distinct_labels_cover(ps, j as int);
    lemma_groups_by_cpu_descending(ps);
    assert(distinct_labels(ps).to_multiset().count(l) > 0);
    assert(ordered_labels(ps).contains(l));
    lemma_indices_where_has(ps.len(), member_pred(ps, l), j);
    let m = members(ps, l);
    let k = choose|k: int| 0 <= k < m.len() && m[k] == j;
    let block = group_block(ps, l);
    assert(block[k + 1] == member_row(j));
    lemma_groups_rows_has(ps, ordered_labels(ps), l, member_row(j));
}

proof fn lemma_concat_contains<T>(a: Seq<T>, b: Seq<T>, x: T)
    ensures
        (a + b).contains(x) <==> a.contains(x) || b.contains(x),
{
    if (a + b).contains(x) {
        let t = choose|t: int| 0 <= t < (a + b).len() && (a + b)[t] == x;
        if t < a.len() {
            assert(a[t] == x);
        } else {
            assert(b[t - a.len()] == x);
        }
    }
    if a.contains(x) {
        let t = choose|t: int| 0 <= t < a.len() && a[t] == x;
        assert((a + b)[t] == x);
    }
    if b.contains(x) {
        let t = choose|t: int| 0 <= t < b.len() && b[t] == x;
        assert((a + b)[a.len() + t] == x);
    }
}

proof fn lemma_subtree_unfold(ps: Seq<ProcessInfo>, c1: Seq<u32>, c2: Seq<u32>, i: usize, depth: nat, fuel: nat)
    requires
        forall|x: u32| c2.contains(x) ==> c1.contains(x),
    ensures
        forall|r: RowView| subtree(ps, c1, i, depth, fuel).contains(r) ==> subtree(ps, c2, i, depth, fuel).contains(r),
    decreases fuel, 0nat,
{
    let kids = children(ps, ps[i as int].pid);
    let row = RowView::Process { index: last_with_pid(ps, ps[i as int].pid), depth, has_children: kids.len() > 0 };
    let s1 = subtree(ps, c1, i, depth, fuel);
    let s2 = subtree(ps, c2, i, depth, fuel);
    assert(s2[0] == row);
    if !(fuel == 0 || c1.contains(ps[i as int].pid)) {
        let f1 = forest(ps, c1, kids, depth + 1, (fuel - 1) as nat);
        let f2 = forest(ps, c2, kids, depth + 1, (fuel - 1) as nat);
        lemma_forest_unfold(ps, c1, c2, kids, depth + 1, (fuel - 1) as nat);
        assert forall|r: RowView| s1.contains(r) implies s2.contains(r) by {
            lemma_concat_contains(seq![row], f1, r);
            lemma_concat_contains(seq![row], f2, r);
            if r != row {
                assert(seq![row].contains(r) ==> r == row);
            }
        }
    } else {
        assert forall|r: RowView| s1.contains(r) implies s2.contains(r) by {
            assert(s1 == seq![row]);
        }
    }
}

proof fn lemma_forest_unfold(ps: Seq<ProcessInfo>, c1: Seq<u32>, c2: Seq<u32>, ks: Seq<usize>, depth: nat, fuel: nat)
    requires
        forall|x: u32| c2.contains(x) ==> c1.contains(x),
    ensures
        forall|r: RowView| forest(ps, c1, ks, depth, fuel).contains(r) ==> forest(ps, c2, ks, depth, fuel).contains(r),
    decreases fuel, ks.len() + 1,
{
    if ks.len() > 0 {
        lemma_forest_unfold(ps, c1, c2, ks.drop_last(), depth, fuel);
        lemma_subtree_unfold(ps, c1, c2, ks.last(), depth, fuel);
        assert forall|r: RowView| forest(ps, c1, ks, depth, fuel).contains(r) implies forest(ps, c2, ks, depth, fuel).contains(r) by {
            lemma_concat_contains(forest(ps, c1, ks.drop_last(), depth, fuel), subtree(ps, c1, ks.last(), depth, fuel), r);
            lemma_concat_contains(forest(ps, c2, ks.drop_last(), depth, fuel), subtree(ps, c2, ks.last(), depth, fuel), r);
        }
    }
}

/// Unfolding never hides a row: with fewer folded pids, every row of the
/// tree view is still there.
pub proof fn lemma_unfold_keeps_rows(ps: Seq<ProcessInfo>, c1: Seq<u32>, c2: Seq<u32>)
    requires
        forall|x: u32| c2.contains(x) ==> c1.contains(x),
    ensures
        forall|r: RowView| tree_spec(ps, c1).contains(r) ==> tree_spec(ps, c2).contains(r),
{
    lemma_forest_unfold(ps, c1, c2, roots(ps), 0, ps.len());
}

/// The row lists a process with pid `p`.
pub open spec fn row_has_pid(r: RowView, ps: Seq<ProcessInfo>, p: u32) -> bool {
    match r {
        RowView::Process { index, .. } => ps[index].pid == p,
        RowView::Header { .. } => false,
    }
}

/// Some row of `rows` lists a process with pid `p`.
pub open spec fn shows_pid(rows: Seq<RowView>, ps: Seq<ProcessInfo>, p: u32) -> bool {
    exists|t: int| 0 <= t < rows.len() && row_has_pid(#[trigger] rows[t], ps, p)
}

proof fn lemma_concat_shows_pid(a: Seq<RowView>, b: Seq<RowView>, ps: Seq<ProcessInfo>, p: u32)
    ensures
        shows_pid(a + b, ps, p) <==> shows_pid(a, ps, p) || shows_pid(b, ps, p),
{
    if shows_pid(a + b, ps, p) {
        let t = choose|t: int| 0 <= t < (a + b).len() && row_has_pid(#[trigger] (a + b)[t], ps, p);
        if t < a.len() {
            assert(a[t] == (a + b)[t]);
        } else {
            assert(b[t - a.len()] == (a + b)[t]);
        }
    }
    if shows_pid(a, ps, p) {
        let t = choose|t: int| 0 <= t < a.len() && row_has_pid(#[trigger] a[t], ps, p);
        assert((a + b)[t] == a[t]);
    }
    if shows_pid(b, ps, p) {
        let t = choose|t: int| 0 <= t < b.len() && row_has_pid(#[trigger] b[t], ps, p);
        assert((a + b)[a.len() + t] == b[t]);
    }
}

proof fn lemma_subtree_fold(ps: Seq<ProcessInfo>, c: Seq<u32>, p: u32, i: usize, depth: nat, fuel: nat)
    requires
        i < ps.len(),
        ps.len() <= usize::MAX,
    ensures
        shows_pid(subtree(ps, c, i, depth, fuel), ps, p) ==> shows_pid(subtree(ps, c.push(p), i, depth, fuel), ps, p),
    decreases fuel, 0nat,
{
    let c2 = c.push(p);
    let pid = ps[i as int].pid;
    let kids = children(ps, pid);
    let row = RowView::Process { index: last_with_pid(ps, pid), depth, has_children: kids.len() > 0 };
    let s1 = subtree(ps, c, i, depth, fuel);
    let s2 = subtree(ps, c2, i, depth, fuel);
    lemma_last_with_pid(ps, i as int);
    assert(s2[0] == row);
    if pid == p {
        assert(row_has_pid(s2[0], ps, p));
    } else {
        assert(c2.contains(pid) == c.contains(pid)) by {
            if c2.contains(pid) {
                let t = choose|t: int| 0 <= t < c2.len() && c2[t] == pid;
                assert(t < c.len());
                assert(c[t] == pid);
            }
            if c.contains(pid) {
                let t = choose|t: int| 0 <= t < c.len() && c[t] == pid;
                assert(c2[t] == pid);
            }
        }
        if fuel == 0 || c.contains(pid) {
            if shows_pid(s1, ps, p) {
                let t = choose|t: int| 0 <= t < s1.len() && row_has_pid(#[trigger] s1[t], ps, p);
                assert(s1 == seq![row]);
            }
        } else {
            let f1 = forest(ps, c, kids, depth + 1, (fuel - 1) as nat);
            let f2 = forest(ps, c2, kids, depth + 1, (fuel - 1) as nat);
            lemma_indices_below(ps.len(), child_pred(ps, pid));
            lemma_forest_fold(ps, c, p, kids, depth + 1, (fuel - 1) as nat);
            lemma_concat_shows_pid(seq![row], f1, ps, p);
            lemma_concat_shows_pid(seq![row], f2, ps, p);
            if shows_pid(seq![row], ps, p) {
                let t = choose|t: int| 0 <= t < 1 && row_has_pid(#[trigger] seq![row][t], ps, p);
                assert(seq![row][t] == row);
            }
        }
    }
}

proof fn lemma_forest_fold(ps: Seq<ProcessInfo>, c: Seq<u32>, p: u32, ks: Seq<usize>, depth: nat, fuel: nat)
    requires
        ps.len() <= usize::MAX,
        forall|t: int| 0 <= t < ks.len() ==> #[trigger] ks[t] < ps.len(),
    ensures
        shows_pid(forest(ps, c, ks, depth, fuel), ps, p) ==> shows_pid(forest(ps, c.push(p), ks, depth, fuel), ps, p),
    decreases fuel, ks.len() + 1,
{
    if ks.len() > 0 {
        let c2 = c.push(p);
        assert(ks.last() == ks[ks.len() - 1]);
        lemma_forest_fold(ps, c, p, ks.drop_last(), depth, fuel);
        lemma_subtree_fold(ps, c, p, ks.last(), depth, fuel);
        lemma_concat_shows_pid(forest(ps, c, ks.drop_last(), depth, fuel), subtree(ps, c, ks.last(), depth, fuel), ps, p);
        lemma_concat_shows_pid(forest(ps, c2, ks.drop_last(), depth, fuel), subtree(ps, c2, ks.last(), depth, fuel), ps, p);
    }
}

/// Folding a process hides its descendants, never the process itself: a
/// pid listed in the tree view is still listed once it is folded.
pub proof fn lemma_fold_keeps_process(ps: Seq<ProcessInfo>, c: Seq<u32>, p: u32)
    requires
        ps.len() <= usize::MAX,
    ensures
        shows_pid(tree_spec(ps, c), ps, p) ==> shows_pid(tree_spec(ps, c.push(p)), ps, p),
{
    lemma_indices_below(ps.len(), root_pred(ps));
    lemma_forest_fold(ps, c, p, roots(ps), 0, ps.len());
}

/// `a` is a parent chain in `ps`: the parent of each process in it is the
/// next one, and the last one is a root.
pub open spec fn parent_chain(ps: Seq<ProcessInfo>, a: Seq<int>) -> bool {
    &&& a.len() > 0
    &&& forall|k: int| 0 <= k < a.len() ==> 0 <= #[trigger] a[k] < ps.len()
    &&& is_root(ps, ps[a.last()])
    &&& forall|k: int| 0 <= k < a.len() - 1 ==> #[trigger] ps[a[k]].ppid == Some(ps[a[k + 1]].pid)
}

proof fn lemma_chain_shift(ps: Seq<ProcessInfo>, a: Seq<int>, x: int, y: int, j: int)
    requires
        pids_unique(ps),
        parent_chain(ps, a),
        0 <= x < y < a.len(),
        a[x] == a[y],
        0 <= j <= a.len() - 1 - y,
    ensures
        a[x + j] == a[y + j],
    decreases j,
{
    if j > 0 {
        lemma_chain_shift(ps, a, x, y, j - 1);
        let u = x + j - 1;
        let v = y + j - 1;
        assert(ps[a[u]].ppid == Some(ps[a[u + 1]].pid));
        assert(ps[a[v]].ppid == Some(ps[a[v + 1]].pid));
        assert(0 <= a[u + 1] < ps.len() && 0 <= a[v + 1] < ps.len());
    }
}

proof fn lemma_chain_short(ps: Seq<ProcessInfo>, a: Seq<int>)
    requires
        pids_unique(ps),
        parent_chain(ps, a),
    ensures
        a.len() <= ps.len(),
{
    let last = a.len() - 1;
    assert forall|x: int, y: int| 0 <= x < a.len() && 0 <= y < a.len() && x != y implies a[x] != a[y] by {
        if a[x] == a[y] {
            let (lo, hi) = if x < y { (x, y) } else { (y, x) };
            let j = last - hi;
            lemma_chain_shift(ps, a, lo, hi, j);
            let u = lo + j;
            assert(u < last);
            assert(ps[a[u]].ppid == Some(ps[a[u + 1]].pid));
            assert(0 <= a[u + 1] < ps.len());
            assert(pid_present(ps, ps[a[u + 1]].pid));
            assert(a[u] == a.last());
        }
    }
    lemma_distinct_short(a, ps.len());
}

/// Distinct positions below `n` number at most `n`.
proof fn lemma_distinct_short(a: Seq<int>, n: nat)
    requires
        a.no_duplicates(),
        forall|k: int| 0 <= k < a.len() ==> 0 <= #[trigger] a[k] < n,
    ensures
        a.len() <= n,
{
    a.unique_seq_to_set();
    vstd::set_lib::lemma_int_range(0, n as int);
    assert(a.to_set().subset_of(vstd::set_lib::set_int_range(0, n as int))) by {
        assert forall|v: int| a.to_set().contains(v) implies vstd::set_lib::set_int_range(0, n as int).contains(v) by {
            assert(a.contains(v));
        }
    }
    vstd::set_lib::lemma_len_subset(a.to_set(), vstd::set_lib::set_int_range(0, n as int));
}

/// A parent chain with a repeated process can be cut short: some chain from
/// the same process, through part of the same ancestors, has at most one
/// entry per process.
proof fn lemma_shorten_chain(ps: Seq<ProcessInfo>, c: Seq<u32>, a: Seq<int>) -> (b: Seq<int>)
    requires
        parent_chain(ps, a),
        forall|k: int| 1 <= k < a.len() ==> !c.contains(#[trigger] ps[a[k]].pid),
    ensures
        parent_chain(ps, b),
        b[0] == a[0],
        b.len() <= ps.len(),
        forall|k: int| 1 <= k < b.len() ==> !c.contains(#[trigger] ps[b[k]].pid),
    decreases a.len(),
{
    if a.no_duplicates() {
        lemma_distinct_short(a, ps.len());
        a
    } else {
        let (x0, y0) = choose|x: int, y: int| 0 <= x < a.len() && 0 <= y < a.len() && x != y && a[x] == a[y];
        let (x, y) = if x0 < y0 { (x0, y0) } else { (y0, x0) };
        let b0 = a.subrange(0, x) + a.subrange(y, a.len() as int);
        assert forall|k: int| 0 <= k < b0.len() implies 0 <= #[trigger] b0[k] < ps.len() by {
            if k < x {
                assert(b0[k] == a[k]);
            } else {
                assert(b0[k] == a[k - x + y]);
            }
        }
        assert(b0.last() == a.last()) by {
            assert(b0[b0.len() - 1] == a[b0.len() - 1 - x + y]);
        }
        assert forall|k: int| 0 <= k < b0.len() - 1 implies #[trigger] ps[b0[k]].ppid == Some(ps[b0[k + 1]].pid) by {
            if k < x - 1 {
                assert(b0[k] == a[k] && b0[k + 1] == a[k + 1]);
                assert(ps[a[k]].ppid == Some(ps[a[k + 1]].pid));
            } else if k == x - 1 {
                assert(b0[k] == a[k] && b0[k + 1] == a[y]);
                assert(ps[a[k]].ppid == Some(ps[a[k + 1]].pid));
            } else {
                assert(b0[k] == a[k - x + y] && b0[k + 1] == a[k + 1 - x + y]);
                assert(ps[a[k - x + y]].ppid == Some(ps[a[k - x + y + 1]].pid));
            }
        }
        assert forall|k: int| 1 <= k < b0.len() implies !c.contains(#[trigger] ps[b0[k]].pid) by {
            if k < x {
                assert(b0[k] == a[k]);
            } else {
                assert(b0[k] == a[k - x + y]);
            }
        }
        assert(b0[0] == a[0]) by {
            if x == 0 {
                assert(b0[0] == a[y]);
            } else {
                assert(b0[0] == a[0]);
            }
        }
        lemma_shorten_chain(ps, c, b0)
    }
}

proof fn lemma_subtree_fuel(ps: Seq<ProcessInfo>, c: Seq<u32>, a: Seq<int>, depth: nat, f1: nat, f2: nat)
    requires
        pids_unique(ps),
        ps.len() <= usize::MAX,
        parent_chain(ps, a),
        a.len() == depth + 1,
        ps.len() <= f1 + depth,
        ps.len() <= f2 + depth,
    ensures
        subtree(ps, c, a[0] as usize, depth, f1) == subtree(ps, c, a[0] as usize, depth, f2),
    decreases f1, 0nat,
{
    lemma_chain_short(ps, a);
    let i = a[0] as usize;
    let pid = ps[i as int].pid;
    if !c.contains(pid) {
        let kids = children(ps, pid);
        lemma_indices_below(ps.len(), child_pred(ps, pid));
        assert forall|t: int| 0 <= t < kids.len() implies parent_chain(ps, #[trigger] seq![kids[t] as int] + a) by {
            let b = seq![kids[t] as int] + a;
            lemma_indices_in(ps.len(), child_pred(ps, pid), t);
            assert(b.last() == a.last());
            assert forall|k: int| 0 <= k < b.len() implies 0 <= #[trigger] b[k] < ps.len() by {
                if k > 0 {
                    assert(b[k] == a[k - 1]);
                }
            }
            assert forall|k: int| 0 <= k < b.len() - 1 implies #[trigger] ps[b[k]].ppid == Some(ps[b[k + 1]].pid) by {
                if k > 0 {
                    assert(b[k] == a[k - 1]);
                    assert(b[k + 1] == a[k]);
                } else {
                    assert(b[1] == a[0]);
                }
            }
        }
        lemma_forest_fuel(ps, c, kids, a, depth + 1, (f1 - 1) as nat, (f2 - 1) as nat);
    }
}

/// Every index that a predicate picks satisfies it.
pub proof fn lemma_indices_in(n: nat, pred: spec_fn(usize) -> bool, t: int)
    requires
        n <= usize::MAX + 1,
        0 <= t < indices_where(n, pred).len(),
    ensures
        pred(indices_where(n, pred)[t]),
    decreases n,
{
    let m = (n - 1) as nat;
    let prev = indices_where(m, pred);
    if t < prev.len() {
        lemma_indices_in(m, pred, t);
        assert(indices_where(n, pred)[t] == prev[t]);
    } else {
        assert(indices_where(n, pred)[t] == (n - 1) as usize);
    }
}

proof fn lemma_forest_fuel(ps: Seq<ProcessInfo>, c: Seq<u32>, ks: Seq<usize>, a: Seq<int>, depth: nat, f1: nat, f2: nat)
    requires
        pids_unique(ps),
        ps.len() <= usize::MAX,
        a.len() == depth,
        forall|t: int| 0 <= t < ks.len() ==> parent_chain(ps, #[trigger] seq![ks[t] as int] + a),
        ps.len() <= f1 + depth,
        ps.len() <= f2 + depth,
    ensures
        forest(ps, c, ks, depth, f1) == forest(ps, c, ks, depth, f2),
    decreases f1, ks.len() + 1,
{
    if ks.len() > 0 {
        let last = ks.len() - 1;
        assert forall|t: int| 0 <= t < ks.drop_last().len() implies parent_chain(ps, #[trigger] seq![ks.drop_last()[t] as int] + a) by {
            assert(ks.drop_last()[t] == ks[t]);
        }
        lemma_forest_fuel(ps, c, ks.drop_last(), a, depth, f1, f2);
        let b = seq![ks[last] as int] + a;
        assert(parent_chain(ps, b));
        assert(b[0] == ks[last] as int);
        assert(ks.last() == ks[last]);
        lemma_subtree_fuel(ps, c, b, depth, f1, f2);
    }
}

/// With unique pids a parent chain never comes back to a process, so the
/// depth bound of the tree walk never cuts a branch: walking with any
/// larger bound gives the same rows.
pub proof fn lemma_tree_walk_complete(ps: Seq<ProcessInfo>, c: Seq<u32>, bound: nat)
    requires
        pids_unique(ps),
        ps.len() <= usize::MAX,
        ps.len() <= bound,
    ensures
        forest(ps, c, roots(ps), 0, bound) == tree_spec(ps, c),
{
    let rs = roots(ps);
    lemma_indices_below(ps.len(), root_pred(ps));
    assert forall|t: int| 0 <= t < rs.len() implies parent_chain(ps, #[trigger] seq![rs[t] as int] + Seq::<int>::empty()) by {
        lemma_indices_in(ps.len(), root_pred(ps), t);
        assert(seq![rs[t] as int] + Seq::<int>::empty() =~= seq![rs[t] as int]);
    }
    lemma_forest_fuel(ps, c, rs, Seq::<int>::empty(), 0, bound, ps.len());
}

proof fn lemma_forest_shows(ps: Seq<ProcessInfo>, c: Seq<u32>, ks: Seq<usize>, k: usize, depth: nat, fuel: nat, p: u32)
    requires
        ks.contains(k),
        shows_pid(subtree(ps, c, k, depth, fuel), ps, p),
    ensures
        shows_pid(forest(ps, c, ks, depth, fuel), ps, p),
    decreases ks.len(),
{
    let front = forest(ps, c, ks.drop_last(), depth, fuel);
    let back = subtree(ps, c, ks.last(), depth, fuel);
    lemma_concat_shows_pid(front, back, ps, p);
    if ks.last() != k {
        let t = choose|t: int| 0 <= t < ks.len() && ks[t] == k;
        assert(t < ks.len() - 1);
        assert(ks.drop_last()[t] == k);
        lemma_forest_shows(ps, c, ks.drop_last(), k, depth, fuel, p);
    }
}

/// The subtree walked from `b[0]` lists the pid of `b.last()` when each
/// process of the path `b` is a child of the one before and none but the
/// last is folded.
proof fn lemma_path_shown(ps: Seq<ProcessInfo>, c: Seq<u32>, b: Seq<int>, depth: nat, fuel: nat)
    requires
        ps.len() <= usize::MAX,
        b.len() > 0,
        forall|t: int| 0 <= t < b.len() ==> 0 <= #[trigger] b[t] < ps.len(),
        forall|t: int| 0 <= t < b.len() - 1 ==> ps[#[trigger] b[t + 1]].ppid == Some(ps[b[t]].pid),
        forall|t: int| 0 <= t < b.len() - 1 ==> !c.contains(#[trigger] ps[b[t]].pid),
        b.len() - 1 <= fuel,
    ensures
        shows_pid(subtree(ps, c, b[0] as usize, depth, fuel), ps, ps[b.last()].pid),
    decreases b.len(),
{
    let i = b[0] as usize;
    let s = subtree(ps, c, i, depth, fuel);
    lemma_last_with_pid(ps, i as int);
    if b.len() == 1 {
        assert(row_has_pid(s[0], ps, ps[b.last()].pid));
    } else {
        let pid = ps[i as int].pid;
        assert(!c.contains(ps[b[0]].pid));
        let kids = children(ps, pid);
        let rest = b.drop_first();
        assert forall|t: int| 0 <= t < rest.len() - 1 implies ps[#[trigger] rest[t + 1]].ppid == Some(ps[rest[t]].pid) by {
            assert(rest[t + 1] == b[t + 2] && rest[t] == b[t + 1]);
        }
        assert forall|t: int| 0 <= t < rest.len() - 1 implies !c.contains(#[trigger] ps[rest[t]].pid) by {
            assert(rest[t] == b[t + 1]);
        }
        assert forall|t: int| 0 <= t < rest.len() implies 0 <= #[trigger] rest[t] < ps.len() by {
            assert(rest[t] == b[t + 1]);
        }
        lemma_path_shown(ps, c, rest, depth + 1, (fuel - 1) as nat);
        assert(rest.last() == b.last());
        assert(ps[b[1]].ppid == Some(ps[b[0]].pid));
        lemma_indices_where_has(ps.len(), child_pred(ps, pid), b[1] as usize);
        lemma_forest_shows(ps, c, kids, b[1] as usize, depth + 1, (fuel - 1) as nat, ps[b.last()].pid);
        let f = forest(ps, c, kids, depth + 1, (fuel - 1) as nat);
        lemma_concat_shows_pid(seq![s[0]], f, ps, ps[b.last()].pid);
        assert(s == seq![s[0]] + f);
    }
}

/// A process is listed in the tree view, by its pid, when its chain of
/// parents leads to a root and none of its ancestors is folded: a new
/// process needs no bookkeeping to be visible.
pub proof fn lemma_unfolded_process_shown(ps: Seq<ProcessInfo>, c: Seq<u32>, chain: Seq<int>)
    requires
        ps.len() <= usize::MAX,
        parent_chain(ps, chain),
        forall|k: int| 1 <= k < chain.len() ==> !c.contains(#[trigger] ps[chain[k]].pid),
    ensures
        shows_pid(tree_spec(ps, c), ps, ps[chain[0]].pid),
{
    let a = lemma_shorten_chain(ps, c, chain);
    let b = a.reverse();
    let root = a.last();
    assert forall|t: int| 0 <= t < b.len() implies 0 <= #[trigger] b[t] < ps.len() by {
        assert(b[t] == a[a.len() - 1 - t]);
    }
    assert forall|t: int| 0 <= t < b.len() - 1 implies ps[#[trigger] b[t + 1]].ppid == Some(ps[b[t]].pid) by {
        let k = a.len() - 2 - t;
        assert(b[t + 1] == a[k] && b[t] == a[k + 1]);
        assert(ps[a[k]].ppid == Some(ps[a[k + 1]].pid));
    }
    assert forall|t: int| 0 <= t < b.len() - 1 implies !c.contains(#[trigger] ps[b[t]].pid) by {
        assert(b[t] == a[a.len() - 1 - t]);
    }
    assert(b[0] == root);
    assert(b.last() == a[0]);
    lemma_path_shown(ps, c, b, 0, ps.len());
    lemma_indices_where_has(ps.len(), root_pred(ps), root as usize);
    lemma_forest_shows(ps, c, roots(ps), root as usize, 0, ps.len(), ps[chain[0]].pid);
}

/// The indices picked by a predicate come in increasing order.
pub proof fn lemma_indices_increasing(n: nat, pred: spec_fn(usize) -> bool)
    requires
        n <= usize::MAX + 1,
    ensures
        forall|i: int, j: int| 0 <= i < j < indices_where(n, pred).len()
            ==> #[trigger] indices_where(n, pred)[i] < #[trigger] indices_where(n, pred)[j],
    decreases n,
{
    if n > 0 {
        let m = (n - 1) as nat;
        let prev = indices_where(m, pred);
        lemma_indices_increasing(m, pred);
        lemma_indices_below(m, pred);
        let all = indices_where(n, pred);
        assert forall|i: int, j: int| 0 <= i < j < all.len() implies #[trigger] all[i] < #[trigger] all[j] by {
            assert(all[i] == prev[i]);
            if j < prev.len() {
                assert(all[j] == prev[j]);
            } else {
                assert(all[j] == m as usize);
            }
        }
    }
}

/// Members within a group keep the table's order.
pub proof fn lemma_members_in_table_order(ps: Seq<ProcessInfo>, label: Seq<char>)
    requires
        ps.len() <= usize::MAX,
    ensures
        forall|i: int, j: int| 0 <= i < j < members(ps, label).len()
            ==> #[trigger] members(ps, label)[i] < #[trigger] members(ps, label)[j],
{
    lemma_indices_increasing(ps.len(), member_pred(ps, label));
}

} // verus!
