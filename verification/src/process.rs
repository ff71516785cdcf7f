//! Per-process statistics as the collector reports them, the snapshot that
//! one refresh produces, and the filter that the process table applies.
use vstd::prelude::*;
use crate::text::{chars_of, contains_chars, contains_seq, decimal, decimal_chars, lowercase, occurs_at, to_lowercase};

verus! {

/// A single process's stats for one refresh cycle.
#[derive(Clone, Debug)]
pub struct ProcessInfo {
    pub pid: u32,
    pub name: String,
    /// CPU usage in hundredths of a percent of one core (`1250` is 12.5 %).
    pub cpu_usage: u32,
    /// Resident memory in bytes.
    pub memory: u64,
    pub nice: Option<i32>,
    /// The parent's pid, if the process has one.
    pub ppid: Option<u32>,
    /// The cgroup or systemd unit the process belongs to, if any.
    pub group: Option<String>,
}

/// A snapshot of system metrics for one refresh cycle.
pub struct Snapshot {
    /// Per-core CPU usage, in hundredths of a percent.
    pub cpu_usage_per_core: Vec<u32>,
    pub memory_used: u64,
    pub memory_total: u64,
    pub processes: Vec<ProcessInfo>,
}

/// Total memory of the processes in `s`.
pub open spec fn memory_total(s: Seq<ProcessInfo>) -> nat
    decreases s.len(),
{
    if s.len() == 0 {
        0
    } else {
        memory_total(s.drop_last()) + s.last().memory as nat
    }
}

/// Total CPU usage of the processes in `s`.
pub open spec fn cpu_total(s: Seq<ProcessInfo>) -> nat
    decreases s.len(),
{
    if s.len() == 0 {
        0
    } else {
        cpu_total(s.drop_last()) + s.last().cpu_usage as nat
    }
}

/// No two processes share a pid.
pub open spec fn pids_unique(ps: Seq<ProcessInfo>) -> bool {
    forall|i: int, j: int| 0 <= i < ps.len() && 0 <= j < ps.len() && i != j ==> ps[i].pid != ps[j].pid
}

/// The totals of memory and CPU of a process list fit the 64-bit counters
/// that group headers sum them in.
pub open spec fn processes_wf(ps: Seq<ProcessInfo>) -> bool {
    &&& memory_total(ps) <= u64::MAX
    &&& cpu_total(ps) <= u64::MAX
}

/// The totals of a prefix never exceed those of a longer prefix.
pub proof fn lemma_prefix_totals_grow(ps: Seq<ProcessInfo>, j: nat, n: nat)
    requires
        j <= n <= ps.len(),
    ensures
        cpu_total(ps.take(j as int)) <= cpu_total(ps.take(n as int)),
        memory_total(ps.take(j as int)) <= memory_total(ps.take(n as int)),
    decreases n,
{
    if j < n {
        lemma_prefix_totals_grow(ps, j, (n - 1) as nat);
        assert(ps.take(n as int).drop_last() =~= ps.take(n - 1));
    }
}

impl Snapshot {
    pub open spec fn wf(&self) -> bool {
        processes_wf(self.processes@)
    }

    /// Whether the memory and CPU totals of the processes fit the 64-bit
    /// counters of the group headers.
    pub fn totals_fit(&self) -> (res: bool)
        ensures
            res == self.wf(),
    {
        let ps = &self.processes;
        let mut mem: u64 = 0;
        let mut cpu: u64 = 0;
        let mut j: usize = 0;
        while j < ps.len()
            invariant
                j <= ps.len(),
                ps@ == self.processes@,
                mem == memory_total(ps@.take(j as int)),
                cpu == cpu_total(ps@.take(j as int)),
            decreases ps.len() - j,
        {
            assert(ps@.take(j + 1).drop_last() =~= ps@.take(j as int));
            assert(ps@.take(j + 1).last() == ps@[j as int]);
            proof {
                lemma_prefix_totals_grow(ps@, (j + 1) as nat, ps@.len());
                assert(ps@.take(ps@.len() as int) =~= ps@);
            }
            match mem.checked_add(ps[j].memory) {
                Some(m) => mem = m,
                None => return false,
            }
            match cpu.checked_add(ps[j].cpu_usage as u64) {
                Some(c) => cpu = c,
                None => return false,
            }
            j = j + 1;
        }
        assert(ps@.take(ps@.len() as int) =~= ps@);
        true
    }

    /// The snapshot shown before the first refresh: no cores, no memory,
    /// no processes.
    pub fn empty() -> (res: Snapshot)
        ensures
            res.cpu_usage_per_core@.len() == 0,
            res.memory_used == 0,
            res.memory_total == 0,
            res.processes@.len() == 0,
            res.wf(),
    {
        Snapshot {
            cpu_usage_per_core: Vec::new(),
            memory_used: 0,
            memory_total: 0,
            processes: Vec::new(),
        }
    }
}

/// The filter rule on lowercased forms: an empty filter matches
/// everything; otherwise the lowercased name must contain the lowercased
/// filter, or the decimal pid must contain the filter as it was typed.
pub open spec fn matches_lowered(name_lower: Seq<char>, filter_lower: Seq<char>, pid: u32, filter: Seq<char>) -> bool {
    ||| filter.len() == 0
    ||| contains_seq(name_lower, filter_lower)
    ||| contains_seq(decimal(pid as nat), filter)
}

/// The filter rule applied to a process.
pub open spec fn matches_filter(p: ProcessInfo, filter: Seq<char>) -> bool {
    matches_lowered(lowercase(p.name@), lowercase(filter), p.pid, filter)
}

/// Case-insensitive substring match on name, or substring match on pid.
pub fn process_matches(process: &ProcessInfo, filter: &str) -> (res: bool)
    ensures
        res == matches_filter(*process, filter@),
{
    let name_lower = to_lowercase(process.name.as_str());
    let filter_lower = to_lowercase(filter);
    lowered_matches(name_lower.as_str(), filter_lower.as_str(), process.pid, filter)
}

/// The filter rule, given the lowercased name and filter.
pub fn lowered_matches(name_lower: &str, filter_lower: &str, pid: u32, filter: &str) -> (res: bool)
    ensures
        res == matches_lowered(name_lower@, filter_lower@, pid, filter@),
{
    let filter_chars = chars_of(filter);
    if filter_chars.len() == 0 {
        return true;
    }
    if contains_chars(&chars_of(name_lower), &chars_of(filter_lower)) {
        return true;
    }
    contains_chars(&decimal_chars(pid as u64), &filter_chars)
}

/// The filter is a substring match: a non-empty filter matches a process
/// exactly when the lowercased filter occurs at some position of the
/// lowercased name, or the filter as typed occurs at some position of the
/// decimal pid; an empty filter matches every process.
pub proof fn lemma_filter_is_substring_match(name_lower: Seq<char>, filter_lower: Seq<char>, pid: u32, filter: Seq<char>)
    ensures
        filter.len() == 0 ==> matches_lowered(name_lower, filter_lower, pid, filter),
        forall|i: int| 0 <= i && i + filter_lower.len() <= name_lower.len()
            && #[trigger] name_lower.subrange(i, i + filter_lower.len()) == filter_lower
            ==> matches_lowered(name_lower, filter_lower, pid, filter),
        forall|i: int| 0 <= i && i + filter.len() <= decimal(pid as nat).len()
            && #[trigger] decimal(pid as nat).subrange(i, i + filter.len()) == filter
            ==> matches_lowered(name_lower, filter_lower, pid, filter),
        matches_lowered(name_lower, filter_lower, pid, filter) ==> {
            ||| filter.len() == 0
            ||| exists|i: int| 0 <= i && i + filter_lower.len() <= name_lower.len()
                && #[trigger] name_lower.subrange(i, i + filter_lower.len()) == filter_lower
            ||| exists|i: int| 0 <= i && i + filter.len() <= decimal(pid as nat).len()
                && #[trigger] decimal(pid as nat).subrange(i, i + filter.len()) == filter
        },
{
    assert forall|i: int| 0 <= i && i + filter_lower.len() <= name_lower.len()
        && #[trigger] name_lower.subrange(i, i + filter_lower.len()) == filter_lower
        implies matches_lowered(name_lower, filter_lower, pid, filter) by {
        assert(occurs_at(name_lower, filter_lower, i));
    }
    assert forall|i: int| 0 <= i && i + filter.len() <= decimal(pid as nat).len()
        && #[trigger] decimal(pid as nat).subrange(i, i + filter.len()) == filter
        implies matches_lowered(name_lower, filter_lower, pid, filter) by {
        assert(occurs_at(decimal(pid as nat), filter, i));
    }
}

/// A process whose lowercased name holds the lowercased filter anywhere is
/// listed, wherever in the name the filter occurs.
pub proof fn lemma_name_substring_listed(p: ProcessInfo, filter: Seq<char>, i: int)
    requires
        0 <= i,
        i + lowercase(filter).len() <= lowercase(p.name@).len(),
        lowercase(p.name@).subrange(i, i + lowercase(filter).len()) == lowercase(filter),
    ensures
        matches_filter(p, filter),
{
    lemma_filter_is_substring_match(lowercase(p.name@), lowercase(filter), p.pid, filter);
}

} // verus!
