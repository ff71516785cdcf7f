use tokimono::ordering::{goes_before, sort_processes, SortKey};
use tokimono::process::{ProcessInfo, Snapshot};

fn p(pid: u32, name: &str, cpu_usage: u32, memory: u64) -> ProcessInfo {
    ProcessInfo {
        pid,
        name: name.to_string(),
        cpu_usage,
        memory,
        nice: None,
        ppid: None,
        group: None,
    }
}

fn pids(v: &[ProcessInfo]) -> Vec<u32> {
    v.iter().map(|x| x.pid).collect()
}

#[test]
fn sorts_by_each_column_in_both_directions() {
    let v = vec![p(3, "b", 10, 300), p(1, "c", 30, 100), p(2, "a", 20, 200)];
    assert_eq!(pids(&sort_processes(v.clone(), SortKey::Cpu, true)), vec![1, 2, 3]);
    assert_eq!(pids(&sort_processes(v.clone(), SortKey::Cpu, false)), vec![3, 2, 1]);
    assert_eq!(pids(&sort_processes(v.clone(), SortKey::Memory, true)), vec![3, 2, 1]);
    assert_eq!(pids(&sort_processes(v.clone(), SortKey::Pid, false)), vec![1, 2, 3]);
    assert_eq!(pids(&sort_processes(v.clone(), SortKey::Name, false)), vec![2, 3, 1]);
    assert_eq!(pids(&sort_processes(v, SortKey::Name, true)), vec![1, 3, 2]);
}

#[test]
fn equal_keys_keep_their_order_in_both_directions() {
    let v = vec![p(1, "x", 5, 0), p(2, "x", 5, 0), p(3, "x", 1, 0), p(4, "x", 5, 0)];
    assert_eq!(pids(&sort_processes(v.clone(), SortKey::Cpu, true)), vec![1, 2, 4, 3]);
    assert_eq!(pids(&sort_processes(v.clone(), SortKey::Cpu, false)), vec![3, 1, 2, 4]);
    assert_eq!(pids(&sort_processes(v, SortKey::Name, false)), vec![1, 2, 3, 4]);
}

#[test]
fn names_compare_by_code_point_and_prefix() {
    let v = vec![p(1, "ab", 0, 0), p(2, "a", 0, 0), p(3, "B", 0, 0), p(4, "", 0, 0), p(5, "é", 0, 0)];
    assert_eq!(pids(&sort_processes(v, SortKey::Name, false)), vec![4, 3, 2, 1, 5]);
}

#[test]
fn precedence_is_strict() {
    let a = p(1, "a", 5, 0);
    let b = p(2, "b", 5, 0);
    assert!(!goes_before(SortKey::Cpu, true, &a, &b));
    assert!(!goes_before(SortKey::Cpu, true, &b, &a));
    assert!(goes_before(SortKey::Pid, false, &a, &b));
    assert!(!goes_before(SortKey::Pid, false, &b, &a));
    assert!(goes_before(SortKey::Pid, true, &b, &a));
    assert!(goes_before(SortKey::Name, false, &a, &b));
    assert!(!goes_before(SortKey::Name, false, &a, &a));
}

#[test]
fn sorting_empty_and_single_lists() {
    assert!(sort_processes(vec![], SortKey::Cpu, true).is_empty());
    assert_eq!(pids(&sort_processes(vec![p(9, "z", 0, 0)], SortKey::Name, true)), vec![9]);
}

#[test]
fn snapshot_totals_fit_check() {
    let ok = Snapshot {
        cpu_usage_per_core: vec![],
        memory_used: 0,
        memory_total: 0,
        processes: vec![p(1, "a", 10, u64::MAX - 1), p(2, "b", 10, 1)],
    };
    assert!(ok.totals_fit());
    let too_big = Snapshot {
        cpu_usage_per_core: vec![],
        memory_used: 0,
        memory_total: 0,
        processes: vec![p(1, "a", 10, u64::MAX), p(2, "b", 10, 1)],
    };
    assert!(!too_big.totals_fit());
    assert!(Snapshot::empty().totals_fit());
}
