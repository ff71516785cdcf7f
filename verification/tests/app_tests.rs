use tokimono::app::{App, Command, Key, ProcessView, HISTORY_CAP};
use tokimono::config::Config;
use tokimono::ordering::SortKey;
use tokimono::process::{lowered_matches, process_matches, ProcessInfo, Snapshot};
use tokimono::table::ProcessRow;

fn process(pid: u32, name: &str) -> ProcessInfo {
    ProcessInfo {
        pid,
        name: name.to_string(),
        cpu_usage: 0,
        memory: 0,
        nice: None,
        ppid: None,
        group: None,
    }
}

fn child(pid: u32, name: &str, ppid: u32) -> ProcessInfo {
    ProcessInfo {
        ppid: Some(ppid),
        ..process(pid, name)
    }
}

/// `cpu_usage` in hundredths of a percent.
fn grouped(pid: u32, name: &str, group: &str, cpu_usage: u32) -> ProcessInfo {
    ProcessInfo {
        cpu_usage,
        group: Some(group.to_string()),
        ..process(pid, name)
    }
}

fn app_with_processes(processes: Vec<ProcessInfo>) -> App {
    let mut app = App::new(Config::default());
    app.latest.processes = processes;
    app
}

/// Pulls `(pid, depth, has_children)` out of the `Process` rows only,
/// panicking if a `Header` row shows up unexpectedly.
fn process_rows(app: &App, rows: &[ProcessRow]) -> Vec<(u32, usize, bool)> {
    rows.iter()
        .map(|r| match r {
            ProcessRow::Process {
                index,
                depth,
                has_children,
            } => (app.latest.processes[*index].pid, *depth, *has_children),
            ProcessRow::Header { .. } => panic!("unexpected header row"),
        })
        .collect()
}

fn snapshot(processes: Vec<ProcessInfo>, cores: Vec<u32>) -> Snapshot {
    Snapshot {
        cpu_usage_per_core: cores,
        memory_used: 0,
        memory_total: 0,
        processes,
    }
}

#[test]
fn empty_filter_matches_everything() {
    assert!(process_matches(&process(1, "firefox"), ""));
}

#[test]
fn name_match_is_case_insensitive_substring() {
    assert!(process_matches(&process(1, "Firefox"), "fire"));
    assert!(process_matches(&process(1, "Firefox"), "FIRE"));
    assert!(!process_matches(&process(1, "Firefox"), "chrome"));
}

#[test]
fn pid_match_is_substring() {
    assert!(process_matches(&process(12345, "sh"), "234"));
    assert!(!process_matches(&process(12345, "sh"), "999"));
}

#[test]
fn flat_mode_ignores_tree_structure() {
    let app = app_with_processes(vec![process(1, "root"), child(2, "child", 1)]);
    let rows = process_rows(&app, &app.visible_processes());
    assert_eq!(rows, vec![(1, 0, false), (2, 0, false)]);
}

#[test]
fn tree_mode_orders_depth_first_with_correct_depths() {
    let mut app = app_with_processes(vec![
        process(1, "root"),
        child(2, "mid", 1),
        child(3, "leaf", 2),
        process(4, "other-root"),
    ]);
    app.view = ProcessView::Tree;
    let rows = process_rows(&app, &app.visible_processes());
    assert_eq!(
        rows,
        vec![
            (1, 0, true),  // root has mid
            (2, 1, true),  // mid has leaf
            (3, 2, false), // leaf
            (4, 0, false), // other-root
        ]
    );
}

#[test]
fn tree_mode_treats_missing_parent_as_root() {
    let mut app = app_with_processes(vec![child(5, "orphan", 999)]);
    app.view = ProcessView::Tree;
    let rows = process_rows(&app, &app.visible_processes());
    assert_eq!(rows, vec![(5, 0, false)]);
}

#[test]
fn tree_mode_filter_falls_back_to_flat() {
    let mut app = app_with_processes(vec![process(1, "root"), child(2, "child", 1)]);
    app.view = ProcessView::Tree;
    app.filter = "child".to_string();
    let rows = process_rows(&app, &app.visible_processes());
    assert_eq!(rows, vec![(2, 0, false)]);
}

#[test]
fn collapsing_hides_descendants_but_not_self() {
    let mut app = app_with_processes(vec![
        process(1, "root"),
        child(2, "mid", 1),
        child(3, "leaf", 2),
    ]);
    app.view = ProcessView::Tree;
    app.selected_pid = Some(1);
    app.collapse_selected();
    let rows = process_rows(&app, &app.visible_processes());
    assert_eq!(rows, vec![(1, 0, true)]);

    app.expand_selected();
    let pids: Vec<u32> = process_rows(&app, &app.visible_processes())
        .into_iter()
        .map(|(pid, ..)| pid)
        .collect();
    assert_eq!(pids, vec![1, 2, 3]);
}

#[test]
fn grouped_mode_orders_groups_by_total_cpu_descending() {
    let mut app = app_with_processes(vec![
        grouped(1, "a", "low.service", 100),
        grouped(2, "b", "high.service", 1000),
        grouped(3, "c", "high.service", 500),
    ]);
    app.view = ProcessView::Grouped;
    let rows = app.visible_processes();
    let labels: Vec<String> = rows
        .iter()
        .filter_map(|r| match r {
            ProcessRow::Header { label, .. } => Some(label.clone()),
            ProcessRow::Process { .. } => None,
        })
        .collect();
    assert_eq!(labels, vec!["high.service", "low.service"]);

    let high_header = rows
        .iter()
        .find_map(|r| match r {
            ProcessRow::Header {
                label,
                count,
                total_cpu,
                ..
            } if label == "high.service" => Some((*count, *total_cpu)),
            _ => None,
        })
        .unwrap();
    assert_eq!(high_header, (2, 1500));
}

#[test]
fn grouped_mode_buckets_ungrouped_processes_together() {
    let mut app = app_with_processes(vec![process(1, "kworker"), process(2, "kthreadd")]);
    app.view = ProcessView::Grouped;
    let rows = app.visible_processes();
    assert_eq!(rows.len(), 3); // 1 header + 2 members
    assert!(matches!(
        &rows[0],
        ProcessRow::Header { label, count: 2, .. } if label == "(ungrouped)"
    ));
}

#[test]
fn grouped_mode_selection_never_lands_on_a_header() {
    let mut app = app_with_processes(vec![grouped(1, "a", "svc.service", 0)]);
    app.view = ProcessView::Grouped;
    app.reconcile_selection();
    assert_eq!(app.selected_pid, Some(1));
}

#[test]
fn grouped_mode_filter_falls_back_to_flat() {
    let mut app = app_with_processes(vec![grouped(1, "a", "svc.service", 0)]);
    app.view = ProcessView::Grouped;
    app.filter = "a".to_string();
    let rows = app.visible_processes();
    assert!(matches!(rows.as_slice(), [ProcessRow::Process { .. }]));
}

#[test]
fn new_app_starts_flat_sorted_by_cpu_descending() {
    let app = App::new(Config::default());
    assert!(app.is_running());
    assert_eq!(app.view, ProcessView::Flat);
    assert_eq!(app.sort_key, SortKey::Cpu);
    assert!(app.sort_desc);
    assert_eq!(app.selected_pid, None);
    assert_eq!(app.tick_rate_ms(), 250);
    assert!(app.visible_processes().is_empty());
}

#[test]
fn view_cycles_back_after_three_presses() {
    let mut app = app_with_processes(vec![process(1, "a")]);
    assert_eq!(app.on_key(Key::Char('t')), Command::Nothing);
    assert_eq!(app.view, ProcessView::Tree);
    app.on_key(Key::Char('t'));
    assert_eq!(app.view, ProcessView::Grouped);
    app.on_key(Key::Char('t'));
    assert_eq!(app.view, ProcessView::Flat);
    assert_eq!(ProcessView::Flat.next().next().next(), ProcessView::Flat);
}

#[test]
fn quit_keys_stop_the_app() {
    let mut app = app_with_processes(vec![]);
    app.on_key(Key::Char('q'));
    assert!(!app.is_running());
    let mut app = app_with_processes(vec![]);
    app.on_key(Key::Esc);
    assert!(!app.is_running());
}

#[test]
fn kill_needs_confirmation() {
    let mut app = app_with_processes(vec![process(7, "victim")]);
    app.reconcile_selection();
    assert_eq!(app.on_key(Key::Char('x')), Command::Nothing);
    assert_eq!(app.confirm_kill, Some(7));
    assert_eq!(app.on_key(Key::Char('y')), Command::Kill { pid: 7 });
    assert_eq!(app.confirm_kill, None);

    app.on_key(Key::Char('x'));
    assert_eq!(app.on_key(Key::Char('n')), Command::Nothing);
    assert_eq!(app.confirm_kill, None);

    app.on_key(Key::Char('x'));
    assert_eq!(app.on_key(Key::Char('Y')), Command::Kill { pid: 7 });
}

#[test]
fn kill_without_selection_asks_nothing() {
    let mut app = app_with_processes(vec![]);
    assert_eq!(app.on_key(Key::Char('x')), Command::Nothing);
    assert_eq!(app.confirm_kill, None);
}

#[test]
fn renice_applies_to_selected_process() {
    let mut app = app_with_processes(vec![process(9, "nicely")]);
    assert_eq!(app.on_key(Key::Char('[')), Command::Nothing);
    app.reconcile_selection();
    assert_eq!(app.on_key(Key::Char('[')), Command::Renice { pid: 9, delta: -1 });
    assert_eq!(app.on_key(Key::Char(']')), Command::Renice { pid: 9, delta: 1 });
}

#[test]
fn filter_editing_applies_on_enter_and_cancels_on_esc() {
    let mut app = app_with_processes(vec![process(1, "alpha"), process(2, "beta")]);
    app.on_key(Key::Char('/'));
    assert_eq!(app.filter_input.as_deref(), Some(""));
    app.on_key(Key::Char('b'));
    app.on_key(Key::Char('x'));
    assert_eq!(app.filter_input.as_deref(), Some("bx"));
    app.on_key(Key::Backspace);
    assert_eq!(app.filter_input.as_deref(), Some("b"));
    app.on_key(Key::Enter);
    assert_eq!(app.filter, "b");
    assert_eq!(app.filter_input, None);
    assert_eq!(app.selected_pid, Some(2));

    app.on_key(Key::Char('/'));
    assert_eq!(app.filter_input.as_deref(), Some("b"));
    app.on_key(Key::Char('z'));
    app.on_key(Key::Esc);
    assert_eq!(app.filter, "b");
    assert_eq!(app.filter_input, None);
    assert!(app.is_running());
}

#[test]
fn backspace_on_empty_filter_input_is_harmless() {
    let mut app = app_with_processes(vec![]);
    app.on_key(Key::Char('/'));
    app.on_key(Key::Backspace);
    assert_eq!(app.filter_input.as_deref(), Some(""));
}

#[test]
fn sort_keys_toggle_direction_and_pick_defaults() {
    let mut app = app_with_processes(vec![process(3, "c"), process(1, "a"), process(2, "b")]);
    app.on_key(Key::Char('p'));
    assert_eq!(app.sort_key, SortKey::Pid);
    assert!(!app.sort_desc);
    let pids: Vec<u32> = app.latest.processes.iter().map(|p| p.pid).collect();
    assert_eq!(pids, vec![1, 2, 3]);
    app.on_key(Key::Char('p'));
    assert!(app.sort_desc);
    let pids: Vec<u32> = app.latest.processes.iter().map(|p| p.pid).collect();
    assert_eq!(pids, vec![3, 2, 1]);
    app.on_key(Key::Char('m'));
    assert_eq!(app.sort_key, SortKey::Memory);
    assert!(app.sort_desc);
    app.on_key(Key::Char('n'));
    assert_eq!(app.sort_key, SortKey::Name);
    assert!(!app.sort_desc);
    let names: Vec<&str> = app.latest.processes.iter().map(|p| p.name.as_str()).collect();
    assert_eq!(names, vec!["a", "b", "c"]);
}

#[test]
fn cpu_sort_is_stable_for_equal_usage() {
    let mut app = app_with_processes(vec![]);
    let procs = vec![
        grouped(10, "x", "g", 500),
        grouped(11, "y", "g", 900),
        grouped(12, "z", "g", 500),
        grouped(13, "w", "g", 900),
    ];
    app.on_tick(snapshot(procs, vec![]));
    let pids: Vec<u32> = app.latest.processes.iter().map(|p| p.pid).collect();
    assert_eq!(pids, vec![11, 13, 10, 12]);
}

#[test]
fn moving_selection_stops_at_both_ends() {
    let mut app = app_with_processes(vec![process(1, "a"), process(2, "b"), process(3, "c")]);
    app.on_key(Key::Down);
    assert_eq!(app.selected_pid, Some(2));
    app.on_key(Key::Char('j'));
    app.on_key(Key::Char('j'));
    assert_eq!(app.selected_pid, Some(3));
    app.on_key(Key::Up);
    assert_eq!(app.selected_pid, Some(2));
    app.on_key(Key::Char('k'));
    app.on_key(Key::Char('k'));
    assert_eq!(app.selected_pid, Some(1));
}

#[test]
fn moving_in_an_empty_table_keeps_no_selection() {
    let mut app = app_with_processes(vec![]);
    app.on_key(Key::Down);
    assert_eq!(app.selected_pid, None);
}

#[test]
fn tick_sorts_reconciles_and_records_history() {
    let mut app = App::new(Config::default());
    app.on_tick(snapshot(
        vec![grouped(1, "low", "g", 100), grouped(2, "high", "g", 9000)],
        vec![1000, 2000],
    ));
    assert_eq!(app.latest.processes[0].pid, 2);
    assert_eq!(app.selected_pid, Some(2));
    assert_eq!(app.cpu_history, vec![vec![1000, 2000]]);

    // The selected process vanishes: the selection falls back to the top row.
    app.on_tick(snapshot(vec![grouped(1, "low", "g", 100)], vec![500]));
    assert_eq!(app.selected_pid, Some(1));
    assert_eq!(app.cpu_history.len(), 2);
    assert_eq!(app.cpu_history[1], vec![500]);
}

#[test]
fn history_never_grows_beyond_its_cap() {
    let mut app = App::new(Config::default());
    for k in 0..(HISTORY_CAP as u32 + 10) {
        app.on_tick(snapshot(vec![], vec![k]));
    }
    assert_eq!(app.cpu_history.len(), HISTORY_CAP);
    assert_eq!(app.cpu_history[0], vec![10]);
    assert_eq!(app.cpu_history[HISTORY_CAP - 1], vec![HISTORY_CAP as u32 + 9]);
}

#[test]
fn tick_forgets_folds_of_vanished_processes() {
    let mut app = app_with_processes(vec![process(1, "root"), child(2, "kid", 1)]);
    app.view = ProcessView::Tree;
    app.selected_pid = Some(1);
    app.collapse_selected();
    assert!(app.is_collapsed(1));
    app.on_tick(snapshot(vec![process(1, "root"), child(2, "kid", 1)], vec![]));
    assert!(app.is_collapsed(1));
    app.on_tick(snapshot(vec![process(3, "other")], vec![]));
    assert!(!app.is_collapsed(1));
    // A new process reusing the pid starts unfolded.
    app.on_tick(snapshot(vec![process(1, "root"), child(2, "kid", 1)], vec![]));
    assert!(!app.is_collapsed(1));
}

#[test]
fn fold_keys_collapse_and_expand_the_selection() {
    let mut app = app_with_processes(vec![process(1, "root"), child(2, "kid", 1)]);
    app.view = ProcessView::Tree;
    app.reconcile_selection();
    assert_eq!(app.selected_pid, Some(1));
    app.on_key(Key::Left);
    assert!(app.is_collapsed(1));
    assert_eq!(app.selectable_pids(), vec![1]);
    app.on_key(Key::Char('l'));
    assert!(!app.is_collapsed(1));
    assert_eq!(app.selectable_pids(), vec![1, 2]);
    app.on_key(Key::Char('h'));
    app.on_key(Key::Char('h'));
    app.on_key(Key::Right);
    assert!(!app.is_collapsed(1));
}

#[test]
fn collapsing_a_child_keeps_it_selectable() {
    let mut app = app_with_processes(vec![
        process(1, "root"),
        child(2, "mid", 1),
        child(3, "leaf", 2),
    ]);
    app.view = ProcessView::Tree;
    app.selected_pid = Some(2);
    app.collapse_selected();
    assert_eq!(app.selectable_pids(), vec![1, 2]);
    assert!(app.selectable_pids().contains(&2));
}

#[test]
fn filtered_processes_follow_table_order() {
    let app = app_with_processes(vec![process(1, "bash"), process(2, "zsh"), process(3, "bashful")]);
    let all: Vec<u32> = app.filtered_processes().iter().map(|p| p.pid).collect();
    assert_eq!(all, vec![1, 2, 3]);
    let mut app = app;
    app.filter = "BASH".to_string();
    let some: Vec<u32> = app.filtered_processes().iter().map(|p| p.pid).collect();
    assert_eq!(some, vec![1, 3]);
}

#[test]
fn grouped_view_lists_every_process_once() {
    let mut app = app_with_processes(vec![
        grouped(1, "a", "x.service", 100),
        process(2, "b"),
        grouped(3, "c", "y.service", 300),
        grouped(4, "d", "x.service", 100),
    ]);
    app.view = ProcessView::Grouped;
    let rows = app.visible_processes();
    let mut pids: Vec<u32> = rows
        .iter()
        .filter_map(|r| match r {
            ProcessRow::Process { index, depth, .. } => {
                assert_eq!(*depth, 1);
                Some(app.latest.processes[*index].pid)
            }
            ProcessRow::Header { .. } => None,
        })
        .collect();
    pids.sort();
    assert_eq!(pids, vec![1, 2, 3, 4]);
    let headers: Vec<(String, usize, u64)> = rows
        .iter()
        .filter_map(|r| match r {
            ProcessRow::Header { label, count, total_cpu, .. } => Some((label.clone(), *count, *total_cpu)),
            ProcessRow::Process { .. } => None,
        })
        .collect();
    assert_eq!(
        headers,
        vec![
            ("y.service".to_string(), 1, 300),
            ("x.service".to_string(), 2, 200),
            ("(ungrouped)".to_string(), 1, 0),
        ]
    );
}

#[test]
fn grouped_header_sums_memory() {
    let mut a = grouped(1, "a", "m.service", 0);
    a.memory = 1024;
    let mut b = grouped(2, "b", "m.service", 0);
    b.memory = 2048;
    let mut app = app_with_processes(vec![a, b]);
    app.view = ProcessView::Grouped;
    let rows = app.visible_processes();
    assert!(matches!(&rows[0], ProcessRow::Header { total_mem: 3072, count: 2, .. }));
}

#[test]
fn equal_group_totals_keep_first_appearance_order() {
    let mut app = app_with_processes(vec![
        grouped(1, "a", "first", 100),
        grouped(2, "b", "second", 100),
    ]);
    app.view = ProcessView::Grouped;
    let labels: Vec<String> = app
        .visible_processes()
        .iter()
        .filter_map(|r| match r {
            ProcessRow::Header { label, .. } => Some(label.clone()),
            ProcessRow::Process { .. } => None,
        })
        .collect();
    assert_eq!(labels, vec!["first", "second"]);
}

#[test]
fn tree_walk_reaches_deep_chains() {
    let mut procs = vec![process(1, "p1")];
    for pid in 2..=20u32 {
        procs.push(child(pid, "p", pid - 1));
    }
    let mut app = app_with_processes(procs);
    app.view = ProcessView::Tree;
    let rows = process_rows(&app, &app.visible_processes());
    assert_eq!(rows.len(), 20);
    assert_eq!(rows[19], (20, 19, false));
}

#[test]
fn tree_siblings_keep_table_order() {
    let mut app = app_with_processes(vec![
        process(1, "root"),
        child(5, "b", 1),
        child(4, "a", 1),
    ]);
    app.view = ProcessView::Tree;
    let rows = process_rows(&app, &app.visible_processes());
    assert_eq!(rows, vec![(1, 0, true), (5, 1, false), (4, 1, false)]);
}

#[test]
fn switching_view_reconciles_selection() {
    let mut app = app_with_processes(vec![grouped(1, "a", "svc", 0)]);
    assert_eq!(app.selected_pid, None);
    app.on_key(Key::Char('t'));
    assert_eq!(app.view, ProcessView::Tree);
    assert_eq!(app.selected_pid, Some(1));
}

#[test]
fn pending_kill_swallows_other_keys() {
    let mut app = app_with_processes(vec![process(4, "p")]);
    app.reconcile_selection();
    app.on_key(Key::Char('x'));
    assert_eq!(app.on_key(Key::Char('q')), Command::Nothing);
    assert!(app.is_running());
    assert_eq!(app.confirm_kill, None);
}

#[test]
fn other_keys_do_nothing() {
    let mut app = app_with_processes(vec![process(4, "p")]);
    assert_eq!(app.on_key(Key::Other), Command::Nothing);
    assert_eq!(app.on_key(Key::Char('?')), Command::Nothing);
    assert!(app.is_running());
    assert_eq!(app.view, ProcessView::Flat);
}

#[test]
fn lowered_matching_compares_the_given_forms() {
    assert!(lowered_matches("firefox", "fire", 1, "FIRE"));
    assert!(!lowered_matches("Firefox", "fire", 1, "fire"));
    assert!(lowered_matches("sh", "zz", 12345, "234"));
    assert!(!lowered_matches("sh", "234", 12345, "2x"));
    assert!(lowered_matches("sh", "anything", 1, ""));
}

#[test]
fn group_members_keep_table_order() {
    let mut app = app_with_processes(vec![
        grouped(4, "d", "x.service", 300),
        grouped(2, "b", "y.service", 100),
        grouped(1, "a", "x.service", 200),
    ]);
    app.view = ProcessView::Grouped;
    let rows = app.visible_processes();
    let order: Vec<Option<u32>> = rows
        .iter()
        .map(|r| match r {
            ProcessRow::Process { index, .. } => Some(app.latest.processes[*index].pid),
            ProcessRow::Header { .. } => None,
        })
        .collect();
    assert_eq!(order, vec![None, Some(4), Some(1), None, Some(2)]);
}

#[test]
fn tree_lists_a_repeated_pid_by_its_last_process() {
    let mut app = app_with_processes(vec![process(1, "a"), process(1, "b")]);
    app.view = ProcessView::Tree;
    let rows = app.visible_processes();
    let names: Vec<(&str, usize, bool)> = rows
        .iter()
        .map(|r| match r {
            ProcessRow::Process { index, depth, has_children } => {
                (app.latest.processes[*index].name.as_str(), *depth, *has_children)
            }
            ProcessRow::Header { .. } => panic!("unexpected header row"),
        })
        .collect();
    assert_eq!(names, vec![("b", 0, false), ("b", 0, false)]);
}

#[test]
fn getters_follow_the_state() {
    let mut app = app_with_processes(vec![process(1, "a"), process(2, "b")]);
    app.reconcile_selection();
    assert_eq!(app.selected_pid(), Some(1));
    assert_eq!(app.layout(), ProcessView::Flat);
    app.on_key(Key::Char('t'));
    assert_eq!(app.layout(), ProcessView::Tree);
    app.on_key(Key::Char('p'));
    assert_eq!(app.sort_key(), SortKey::Pid);
    assert!(!app.sort_desc());
    app.on_key(Key::Char('x'));
    assert_eq!(app.confirm_kill(), Some(1));
    app.on_key(Key::Esc);
    app.on_key(Key::Char('/'));
    assert_eq!(app.filter_input().as_deref(), Some(""));
    app.on_key(Key::Char('b'));
    app.on_key(Key::Enter);
    assert_eq!(app.filter(), "b");
    assert_eq!(app.latest().processes.len(), 2);
    app.on_tick(snapshot(vec![process(3, "c")], vec![700]));
    assert_eq!(app.cpu_history(), &vec![vec![700]]);
    assert_eq!(app.latest().processes[0].pid, 3);
    assert_eq!(app.theme(), Config::default().theme);
}
