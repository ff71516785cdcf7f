//! The application state and its state machine: what a refresh, a key
//! press or a change of layout does to the process table and the selection.
use vstd::prelude::*;
use crate::config::{Config, Theme};
use crate::ordering::{lemma_sort_keeps_totals, lemma_table_in_column_order, lemma_table_sorted, sort_order, sort_processes, stable_sort, SortKey};
use crate::process::{matches_filter, process_matches, processes_wf, ProcessInfo, Snapshot};
use crate::text::{pop_char, push_char};
use crate::table::{
    grouped_rows, grouped_spec, indices_where, lemma_fold_keeps_process, lemma_grouped_in_range,
    lemma_indices_below, lemma_indices_in, lemma_indices_increasing, lemma_tree_in_range, pid_present_exec, lemma_unfold_keeps_rows, lemma_views_push, pid_present,
    row_has_pid, rows_in_range, tree_rows, tree_spec, views, ProcessRow, RowView, contains_u32,
};

verus! {

/// How many refreshes of per-core CPU usage the sparklines remember.
pub const HISTORY_CAP: usize = 240;

/// Which layout the process table renders: flat, a parent/child tree, or
/// grouped by cgroup/systemd unit. Cycled with `t`.
#[derive(Clone, Copy, Debug, PartialEq, Eq, Structural)]
pub enum ProcessView {
    Flat,
    Tree,
    Grouped,
}

pub open spec fn next_view(v: ProcessView) -> ProcessView {
    match v {
        ProcessView::Flat => ProcessView::Tree,
        ProcessView::Tree => ProcessView::Grouped,
        ProcessView::Grouped => ProcessView::Flat,
    }
}

impl ProcessView {
    /// The layout that `t` switches to.
    pub fn next(self) -> (res: Self)
        ensures
            res == next_view(self),
    {
        match self {
            ProcessView::Flat => ProcessView::Tree,
            ProcessView::Tree => ProcessView::Grouped,
            ProcessView::Grouped => ProcessView::Flat,
        }
    }
}

/// A key press, as far as the application tells keys apart.
#[derive(Clone, Copy, Debug, PartialEq, Eq, Structural)]
pub enum Key {
    Char(char),
    Enter,
    Esc,
    Backspace,
    Up,
    Down,
    Left,
    Right,
    Other,
}

/// What the caller must do after a key press: the library decides, the
/// caller talks to the operating system.
#[derive(Clone, Copy, Debug, PartialEq, Eq, Structural)]
pub enum Command {
    Nothing,
    /// Send SIGTERM to `pid`.
    Kill { pid: u32 },
    /// Change the nice value of `pid` by `delta`.
    Renice { pid: u32, delta: i32 },
}

pub struct App {
    running: bool,
    pub latest: Snapshot,
    /// Per-core CPU usage of the most recent refreshes, oldest first.
    pub cpu_history: Vec<Vec<u32>>,
    pub sort_key: SortKey,
    pub sort_desc: bool,
    pub selected_pid: Option<u32>,
    pub confirm_kill: Option<u32>,
    /// Committed/active process filter. Empty means no filter.
    pub filter: String,
    /// `Some(buf)` while the filter text box is being edited.
    pub filter_input: Option<String>,
    pub view: ProcessView,
    /// Pids with their children folded in tree view. Presence = folded;
    /// absence = expanded, so a newly-spawned child defaults to visible.
    collapsed: Vec<u32>,
    pub theme: Theme,
    tick_rate_ms: u64,
}

/// The mathematical state of the application.
#[verifier::ext_equal]
pub struct AppView {
    pub running: bool,
    pub processes: Seq<ProcessInfo>,
    pub cores: Seq<u32>,
    pub memory_used: u64,
    pub memory_total: u64,
    pub history: Seq<Seq<u32>>,
    pub sort_key: SortKey,
    pub sort_desc: bool,
    pub selected: Option<u32>,
    pub confirm_kill: Option<u32>,
    pub filter: Seq<char>,
    pub filter_input: Option<Seq<char>>,
    pub view: ProcessView,
    pub collapsed: Seq<u32>,
    pub theme: Theme,
    pub tick_rate_ms: u64,
}

pub open spec fn history_view(h: Seq<Vec<u32>>) -> Seq<Seq<u32>> {
    h.map_values(|v: Vec<u32>| v@)
}

pub open spec fn input_view(b: Option<String>) -> Option<Seq<char>> {
    match b {
        Some(s) => Some(s@),
        None => None,
    }
}

impl View for App {
    type V = AppView;

    closed spec fn view(&self) -> AppView {
        AppView {
            running: self.running,
            processes: self.latest.processes@,
            cores: self.latest.cpu_usage_per_core@,
            memory_used: self.latest.memory_used,
            memory_total: self.latest.memory_total,
            history: history_view(self.cpu_history@),
            sort_key: self.sort_key,
            sort_desc: self.sort_desc,
            selected: self.selected_pid,
            confirm_kill: self.confirm_kill,
            filter: self.filter@,
            filter_input: input_view(self.filter_input),
            view: self.view,
            collapsed: self.collapsed@,
            theme: self.theme,
            tick_rate_ms: self.tick_rate_ms,
        }
    }
}

pub open spec fn flat_pred(ps: Seq<ProcessInfo>, filter: Seq<char>) -> spec_fn(usize) -> bool {
    |j: usize| matches_filter(ps[j as int], filter)
}

/// Indices of the processes that match `filter`, in list order.
pub open spec fn filtered_indices(ps: Seq<ProcessInfo>, filter: Seq<char>) -> Seq<usize> {
    indices_where(ps.len(), flat_pred(ps, filter))
}

pub open spec fn flat_row(j: usize) -> RowView {
    RowView::Process { index: j as int, depth: 0, has_children: false }
}

/// The rows of the flat view: the matching processes, in list order.
pub open spec fn flat_spec(ps: Seq<ProcessInfo>, filter: Seq<char>) -> Seq<RowView> {
    filtered_indices(ps, filter).map_values(|j: usize| flat_row(j))
}

/// The rows to navigate and render. Tree and Grouped only apply when no
/// filter is active; under a filter both fall back to the flat list.
pub open spec fn rows_of(s: AppView) -> Seq<RowView> {
    if s.view == ProcessView::Flat || s.filter.len() > 0 {
        flat_spec(s.processes, s.filter)
    } else if s.view == ProcessView::Tree {
        tree_spec(s.processes, s.collapsed)
    } else {
        grouped_spec(s.processes)
    }
}

/// The pids of the process rows among `rows`, in order; headers are skipped.
pub open spec fn row_pids(rows: Seq<RowView>, ps: Seq<ProcessInfo>) -> Seq<u32>
    decreases rows.len(),
{
    if rows.len() == 0 {
        seq![]
    } else {
        let prev = row_pids(rows.drop_last(), ps);
        match rows.last() {
            RowView::Process { index, .. } => prev.push(ps[index].pid),
            RowView::Header { .. } => prev,
        }
    }
}

/// The pids that the selection may rest on, in row order.
pub open spec fn selectable_of(s: AppView) -> Seq<u32> {
    row_pids(rows_of(s), s.processes)
}

/// The selection kept on a currently selectable process: unchanged while it
/// stays selectable, otherwise the top row (or none when nothing is
/// selectable).
pub open spec fn reconciled(s: AppView) -> AppView {
    let sel = selectable_of(s);
    if s.selected is Some && sel.contains(s.selected->0) {
        s
    } else {
        AppView { selected: if sel.len() > 0 { Some(sel[0]) } else { None }, ..s }
    }
}

/// The first position of `x` in `s` (meaningful when `s` contains `x`).
pub open spec fn first_index(s: Seq<u32>, x: u32) -> int {
    choose|i: int| 0 <= i < s.len() && s[i] == x && forall|j: int| 0 <= j < i ==> s[j] != x
}

pub open spec fn clamp(v: int, lo: int, hi: int) -> int {
    if v < lo {
        lo
    } else if v > hi {
        hi
    } else {
        v
    }
}

/// The selection moved by `delta` rows among the selectable ones, stopping
/// at the first and the last; from the top row when the current selection
/// is not selectable.
pub open spec fn moved(s: AppView, delta: int) -> AppView {
    let sel = selectable_of(s);
    if sel.len() == 0 {
        s
    } else {
        let cur = if s.selected is Some && sel.contains(s.selected->0) {
            first_index(sel, s.selected->0)
        } else {
            0
        };
        AppView { selected: Some(sel[clamp(cur + delta, 0, sel.len() - 1)]), ..s }
    }
}

/// The processes put in the order of the current sort column and direction.
pub open spec fn resorted(s: AppView) -> AppView {
    AppView { processes: stable_sort(s.processes, sort_order(s.sort_key, s.sort_desc)), ..s }
}

/// Choosing the column already sorted by flips the direction; choosing
/// another sorts by it, descending for CPU and memory and ascending for
/// pid and name.
pub open spec fn with_sort(s: AppView, key: SortKey) -> AppView {
    let s1 = if s.sort_key == key {
        AppView { sort_desc: !s.sort_desc, ..s }
    } else {
        AppView { sort_key: key, sort_desc: key == SortKey::Cpu || key == SortKey::Memory, ..s }
    };
    resorted(s1)
}

/// The selected process's children folded.
pub open spec fn collapsed_selected(s: AppView) -> AppView {
    match s.selected {
        Some(p) => if s.collapsed.contains(p) {
            s
        } else {
            AppView { collapsed: s.collapsed.push(p), ..s }
        },
        None => s,
    }
}

pub open spec fn other_pid(p: u32) -> spec_fn(u32) -> bool {
    |q: u32| q != p
}

/// The selected process's children unfolded.
pub open spec fn expanded_selected(s: AppView) -> AppView {
    match s.selected {
        Some(p) => AppView { collapsed: s.collapsed.filter(other_pid(p)), ..s },
        None => s,
    }
}

/// Renicing applies to the selected process, if any.
pub open spec fn renice_command(s: AppView, delta: i32) -> Command {
    match s.selected {
        Some(pid) => Command::Renice { pid, delta },
        None => Command::Nothing,
    }
}

/// The effect of a key press: the new state and what the caller must do.
/// A pending kill confirmation takes the next key (only `y`/`Y` confirm);
/// while the filter is being edited keys edit it; otherwise keys navigate,
/// sort, filter, kill, renice, switch layout and fold.
pub open spec fn key_step(s: AppView, key: Key) -> (AppView, Command) {
    if s.confirm_kill is Some {
        let cmd = if key == Key::Char('y') || key == Key::Char('Y') {
            Command::Kill { pid: s.confirm_kill->0 }
        } else {
            Command::Nothing
        };
        (AppView { confirm_kill: None, ..s }, cmd)
    } else if s.filter_input is Some {
        let buf = s.filter_input->0;
        let next = match key {
            Key::Enter => reconciled(AppView { filter: buf, filter_input: None, ..s }),
            Key::Esc => AppView { filter_input: None, ..s },
            Key::Backspace => AppView {
                filter_input: Some(if buf.len() > 0 { buf.drop_last() } else { buf }),
                ..s
            },
            Key::Char(c) => AppView { filter_input: Some(buf.push(c)), ..s },
            _ => s,
        };
        (next, Command::Nothing)
    } else {
        match key {
            Key::Char('q') | Key::Esc => (AppView { running: false, ..s }, Command::Nothing),
            Key::Up | Key::Char('k') => (moved(s, -1), Command::Nothing),
            Key::Down | Key::Char('j') => (moved(s, 1), Command::Nothing),
            Key::Char('c') => (with_sort(s, SortKey::Cpu), Command::Nothing),
            Key::Char('m') => (with_sort(s, SortKey::Memory), Command::Nothing),
            Key::Char('p') => (with_sort(s, SortKey::Pid), Command::Nothing),
            Key::Char('n') => (with_sort(s, SortKey::Name), Command::Nothing),
            Key::Char('x') => (AppView { confirm_kill: s.selected, ..s }, Command::Nothing),
            Key::Char('/') => (AppView { filter_input: Some(s.filter), ..s }, Command::Nothing),
            Key::Char('[') => (s, renice_command(s, -1i32)),
            Key::Char(']') => (s, renice_command(s, 1i32)),
            Key::Char('t') => (reconciled(AppView { view: next_view(s.view), ..s }), Command::Nothing),
            Key::Left | Key::Char('h') => (collapsed_selected(s), Command::Nothing),
            Key::Right | Key::Char('l') => (expanded_selected(s), Command::Nothing),
            _ => (s, Command::Nothing),
        }
    }
}

pub open spec fn live_pred(ps: Seq<ProcessInfo>) -> spec_fn(u32) -> bool {
    |q: u32| pid_present(ps, q)
}

/// The history with one more sample, forgetting the oldest beyond the cap.
pub open spec fn history_pushed(h: Seq<Seq<u32>>, cores: Seq<u32>) -> Seq<Seq<u32>> {
    let h2 = h.push(cores);
    if h2.len() > HISTORY_CAP {
        h2.drop_first()
    } else {
        h2
    }
}

/// The effect of a refresh: the new snapshot, sorted; folds of processes
/// that are gone forgotten; the selection reconciled; the per-core usage
/// appended to the history.
pub open spec fn tick_step(s: AppView, procs: Seq<ProcessInfo>, cores: Seq<u32>, memory_used: u64, memory_total: u64) -> AppView {
    let s1 = resorted(AppView { processes: procs, cores, memory_used, memory_total, ..s });
    let s2 = AppView { collapsed: s1.collapsed.filter(live_pred(s1.processes)), ..s1 };
    let s3 = reconciled(s2);
    AppView { history: history_pushed(s3.history, cores), ..s3 }
}

fn copy_u32s(v: &Vec<u32>) -> (res: Vec<u32>)
    ensures
        res@ == v@,
{
    let mut res: Vec<u32> = Vec::new();
    let mut j: usize = 0;
    while j < v.len()
        invariant
            j <= v.len(),
            res@ == v@.take(j as int),
        decreases v.len() - j,
    {
        res.push(v[j]);
        assert(res@ =~= v@.take(j + 1));
        j = j + 1;
    }
    assert(v@.take(v@.len() as int) =~= v@);
    res
}

/// Every process row refers to a process of the snapshot.
pub proof fn lemma_rows_of_in_range(s: AppView)
    requires
        s.processes.len() <= usize::MAX,
    ensures
        rows_in_range(rows_of(s), s.processes),
{
    if s.view == ProcessView::Flat || s.filter.len() > 0 {
        lemma_indices_below(s.processes.len(), flat_pred(s.processes, s.filter));
        let idx = filtered_indices(s.processes, s.filter);
        assert forall|t: int| 0 <= t < flat_spec(s.processes, s.filter).len() implies
            match #[trigger] flat_spec(s.processes, s.filter)[t] {
                RowView::Process { index, .. } => 0 <= index < s.processes.len(),
                RowView::Header { .. } => true,
            } by {
            assert(flat_spec(s.processes, s.filter)[t] == flat_row(idx[t]));
        }
    } else if s.view == ProcessView::Tree {
        lemma_tree_in_range(s.processes, s.collapsed);
    } else {
        lemma_grouped_in_range(s.processes);
    }
}

impl App {
    /// A fresh application in flat view, sorted by CPU descending, with no
    /// processes yet, using the configured theme and refresh rate.
    pub fn new(config: Config) -> (res: App)
        ensures
            res@.running,
            res@.processes.len() == 0,
            res@.cores.len() == 0,
            res@.memory_used == 0,
            res@.memory_total == 0,
            res@.history.len() == 0,
            res@.sort_key == SortKey::Cpu,
            res@.sort_desc,
            res@.selected is None,
            res@.confirm_kill is None,
            res@.filter.len() == 0,
            res@.filter_input is None,
            res@.view == ProcessView::Flat,
            res@.collapsed.len() == 0,
            res@.theme == config.theme,
            res@.tick_rate_ms == config.tick_rate_ms,
    {
        let res = App {
            running: true,
            latest: Snapshot::empty(),
            cpu_history: Vec::new(),
            sort_key: SortKey::Cpu,
            sort_desc: true,
            selected_pid: None,
            confirm_kill: None,
            filter: String::new(),
            filter_input: None,
            view: ProcessView::Flat,
            collapsed: Vec::new(),
            theme: config.theme,
            tick_rate_ms: config.tick_rate_ms,
        };
        assert(history_view(res.cpu_history@) =~= Seq::<Seq<u32>>::empty());
        res
    }

    /// Whether the application keeps running (it stops on `q` or Esc).
    pub fn is_running(&self) -> (res: bool)
        ensures
            res == self@.running,
    {
        self.running
    }

    /// The refresh interval, in milliseconds.
    pub fn tick_rate_ms(&self) -> (res: u64)
        ensures
            res == self@.tick_rate_ms,
    {
        self.tick_rate_ms
    }

    /// The snapshot of the latest refresh, its processes in table order.
    pub fn latest(&self) -> (res: &Snapshot)
        ensures
            res.processes@ == self@.processes,
            res.cpu_usage_per_core@ == self@.cores,
            res.memory_used == self@.memory_used,
            res.memory_total == self@.memory_total,
    {
        &self.latest
    }

    /// Per-core CPU usage of the most recent refreshes, oldest first.
    pub fn cpu_history(&self) -> (res: &Vec<Vec<u32>>)
        ensures
            history_view(res@) == self@.history,
    {
        &self.cpu_history
    }

    /// The column the table is sorted by.
    pub fn sort_key(&self) -> (res: SortKey)
        ensures
            res == self@.sort_key,
    {
        self.sort_key
    }

    /// Whether the table is sorted descending.
    pub fn sort_desc(&self) -> (res: bool)
        ensures
            res == self@.sort_desc,
    {
        self.sort_desc
    }

    /// The pid of the selected process, if any.
    pub fn selected_pid(&self) -> (res: Option<u32>)
        ensures
            res == self@.selected,
    {
        self.selected_pid
    }

    /// The pid awaiting a kill confirmation, if any.
    pub fn confirm_kill(&self) -> (res: Option<u32>)
        ensures
            res == self@.confirm_kill,
    {
        self.confirm_kill
    }

    /// The active filter; empty means no filter.
    pub fn filter(&self) -> (res: &String)
        ensures
            res@ == self@.filter,
    {
        &self.filter
    }

    /// The filter being edited, if the filter box is open.
    pub fn filter_input(&self) -> (res: &Option<String>)
        ensures
            input_view(*res) == self@.filter_input,
    {
        &self.filter_input
    }

    /// The layout of the process table.
    pub fn layout(&self) -> (res: ProcessView)
        ensures
            res == self@.view,
    {
        self.view
    }

    /// The colors the interface is drawn with.
    pub fn theme(&self) -> (res: Theme)
        ensures
            res == self@.theme,
    {
        self.theme
    }

    /// Whether the children of `pid` are folded in tree view.
    pub fn is_collapsed(&self, pid: u32) -> (res: bool)
        ensures
            res == self@.collapsed.contains(pid),
    {
        crate::table::contains_u32(&self.collapsed, pid)
    }

    fn filtered_indices_exec(&self) -> (res: Vec<usize>)
        ensures
            res@ == filtered_indices(self@.processes, self@.filter),
    {
        let ps = &self.latest.processes;
        let mut res: Vec<usize> = Vec::new();
        let mut j: usize = 0;
        while j < ps.len()
            invariant
                j <= ps.len(),
                ps@ == self@.processes,
                res@ == indices_where(j as nat, flat_pred(self@.processes, self@.filter)),
            decreases ps.len() - j,
        {
            if process_matches(&ps[j], self.filter.as_str()) {
                res.push(j);
            }
            assert(res@ =~= indices_where((j + 1) as nat, flat_pred(self@.processes, self@.filter)));
            j = j + 1;
        }
        res
    }

    /// Processes matching the active filter, in current sort order. Empty
    /// filter matches everything.
    pub fn filtered_processes(&self) -> (res: Vec<&ProcessInfo>)
        ensures
            res@.len() == filtered_indices(self@.processes, self@.filter).len(),
            forall|k: int| 0 <= k < res@.len() ==>
                *#[trigger] res@[k] == self@.processes[filtered_indices(self@.processes, self@.filter)[k] as int],
    {
        let idx = self.filtered_indices_exec();
        proof {
            assert(self@.processes == self.latest.processes@);
            assert(self@.processes.len() == self.latest.processes.len());
            lemma_indices_below(self@.processes.len(), flat_pred(self@.processes, self@.filter));
        }
        let mut res: Vec<&ProcessInfo> = Vec::new();
        let mut k: usize = 0;
        while k < idx.len()
            invariant
                k <= idx.len(),
                idx@ == filtered_indices(self@.processes, self@.filter),
                forall|t: int| 0 <= t < idx@.len() ==> #[trigger] idx@[t] < self@.processes.len(),
                res@.len() == k,
                forall|t: int| 0 <= t < k ==> *#[trigger] res@[t] == self@.processes[idx@[t] as int],
            decreases idx.len() - k,
        {
            assert(idx@[k as int] < self@.processes.len());
            res.push(&self.latest.processes[idx[k]]);
            k = k + 1;
        }
        res
    }

    /// Rows to navigate/render. Flat lists the filtered processes as-is;
    /// Tree/Grouped only apply when no filter is active.
    pub fn visible_processes(&self) -> (res: Vec<ProcessRow>)
        requires
            processes_wf(self@.processes),
        ensures
            views(res@) == rows_of(self@),
    {
        if self.view == ProcessView::Flat || !self.filter.as_str().is_empty() {
            let idx = self.filtered_indices_exec();
            let mut rows: Vec<ProcessRow> = Vec::new();
            let mut k: usize = 0;
            assert(views(rows@) =~= idx@.take(0).map_values(|j: usize| flat_row(j)));
            while k < idx.len()
                invariant
                    k <= idx.len(),
                    views(rows@) == idx@.take(k as int).map_values(|j: usize| flat_row(j)),
                decreases idx.len() - k,
            {
                let row = ProcessRow::Process { index: idx[k], depth: 0, has_children: false };
                proof {
                    lemma_views_push(rows@, row);
                    assert(idx@.take(k + 1).map_values(|j: usize| flat_row(j))
                        =~= idx@.take(k as int).map_values(|j: usize| flat_row(j)).push(flat_row(idx@[k as int])));
                }
                rows.push(row);
                k = k + 1;
            }
            assert(idx@.take(idx@.len() as int) =~= idx@);
            rows
        } else if self.view == ProcessView::Tree {
            tree_rows(&self.latest.processes, &self.collapsed)
        } else {
            grouped_rows(&self.latest.processes)
        }
    }

    /// Pids of just the selectable (`Process`) rows in `visible_processes()`
    /// order, skipping `Header` rows: selection can never land on a header.
    pub fn selectable_pids(&self) -> (res: Vec<u32>)
        requires
            processes_wf(self@.processes),
        ensures
            res@ == selectable_of(self@),
    {
        let rows = self.visible_processes();
        proof {
            assert(self@.processes == self.latest.processes@);
            assert(self@.processes.len() == self.latest.processes.len());
            lemma_rows_of_in_range(self@);
        }
        let mut res: Vec<u32> = Vec::new();
        let mut k: usize = 0;
        assert(views(rows@).take(0) =~= Seq::<RowView>::empty());
        while k < rows.len()
            invariant
                k <= rows.len(),
                views(rows@) == rows_of(self@),
                rows_in_range(rows_of(self@), self@.processes),
                self@.processes == self.latest.processes@,
                res@ == row_pids(views(rows@).take(k as int), self@.processes),
            decreases rows.len() - k,
        {
            proof {
                assert(views(rows@).take(k + 1).drop_last() =~= views(rows@).take(k as int));
                assert(views(rows@).take(k + 1).last() == rows@[k as int]@);
                assert(rows_of(self@)[k as int] == rows@[k as int]@);
            }
            match &rows[k] {
                ProcessRow::Process { index, .. } => {
                    res.push(self.latest.processes[*index].pid);
                },
                ProcessRow::Header { .. } => {},
            }
            k = k + 1;
        }
        assert(views(rows@).take(rows@.len() as int) =~= views(rows@));
        res
    }
}

/// Pressing `t` three times comes back to the layout one started from.
pub proof fn lemma_view_cycle(v: ProcessView)
    ensures
        next_view(next_view(next_view(v))) == v,
        next_view(v) != v,
{
}

/// After reconciling, the selection rests on a selectable process (never on
/// a group header), and there is a selection whenever anything is
/// selectable.
pub proof fn lemma_reconciled_selection_valid(s: AppView)
    ensures
        reconciled(s).selected is Some <==> selectable_of(s).len() > 0,
        reconciled(s).selected matches Some(p) ==> selectable_of(s).contains(p),
        selectable_of(reconciled(s)) == selectable_of(s),
{
    let r = reconciled(s);
    assert(rows_of(r) == rows_of(s));
    if s.selected is Some && selectable_of(s).contains(s.selected->0) {
    } else if selectable_of(s).len() > 0 {
        assert(selectable_of(s).contains(selectable_of(s)[0]));
    }
}

/// Moving the selection keeps it on a selectable process whenever anything
/// is selectable; with nothing selectable the selection is left as it was.
pub proof fn lemma_moved_selection_valid(s: AppView, delta: int)
    ensures
        moved(s, delta).selected matches Some(p) ==> (selectable_of(s).contains(p) || s.selected == Some(p)),
        selectable_of(s).len() > 0 ==> moved(s, delta).selected is Some && selectable_of(s).contains(moved(s, delta).selected->0),
{
    let sel = selectable_of(s);
    if sel.len() > 0 {
        let cur = if s.selected is Some && sel.contains(s.selected->0) {
            first_index(sel, s.selected->0)
        } else {
            0
        };
        if s.selected is Some && sel.contains(s.selected->0) {
            let p = s.selected->0;
            let i = choose|i: int| 0 <= i < sel.len() && sel[i] == p;
            assert(0 <= i < sel.len() && sel[i] == p);
            assert(exists|c: int| 0 <= c < sel.len() && sel[c] == p && forall|j: int| 0 <= j < c ==> sel[j] != p) by {
                lemma_first_occurrence(sel, p, i);
            }
        }
        let k = clamp(cur + delta, 0, sel.len() - 1);
        assert(sel.contains(sel[k]));
    }
}

proof fn lemma_first_occurrence(s: Seq<u32>, x: u32, i: int)
    requires
        0 <= i < s.len(),
        s[i] == x,
    ensures
        exists|c: int| 0 <= c < s.len() && s[c] == x && forall|j: int| 0 <= j < c ==> s[j] != x,
    decreases i,
{
    if exists|j: int| 0 <= j < i && s[j] == x {
        let j = choose|j: int| 0 <= j < i && s[j] == x;
        lemma_first_occurrence(s, x, j);
    } else {
        assert(0 <= i < s.len() && s[i] == x && forall|j: int| 0 <= j < i ==> s[j] != x);
    }
}

/// Under an active filter the tree and grouped layouts suspend themselves:
/// the rows are the matching processes, flat, in table order.
pub proof fn lemma_filter_falls_back_to_flat(s: AppView)
    requires
        s.filter.len() > 0,
    ensures
        rows_of(s) == flat_spec(s.processes, s.filter),
{
}

/// The flat layout lists the matching processes in table order.
pub proof fn lemma_flat_keeps_table_order(ps: Seq<ProcessInfo>, filter: Seq<char>)
    requires
        ps.len() <= usize::MAX,
    ensures
        forall|i: int, j: int| 0 <= i < j < filtered_indices(ps, filter).len()
            ==> #[trigger] filtered_indices(ps, filter)[i] < #[trigger] filtered_indices(ps, filter)[j],
        forall|t: int| 0 <= t < filtered_indices(ps, filter).len()
            ==> matches_filter(ps[#[trigger] filtered_indices(ps, filter)[t] as int], filter),
{
    lemma_indices_increasing(ps.len(), flat_pred(ps, filter));
    assert forall|t: int| 0 <= t < filtered_indices(ps, filter).len()
        implies matches_filter(ps[#[trigger] filtered_indices(ps, filter)[t] as int], filter) by {
        lemma_indices_in(ps.len(), flat_pred(ps, filter), t);
    }
}

/// With no filter, the flat layout lists every process, in table order.
pub proof fn lemma_empty_filter_lists_all(ps: Seq<ProcessInfo>)
    requires
        ps.len() <= usize::MAX,
    ensures
        filtered_indices(ps, Seq::empty()) == Seq::new(ps.len(), |j: int| j as usize),
{
    lemma_all_indices(ps, ps.len());
}

proof fn lemma_all_indices(ps: Seq<ProcessInfo>, n: nat)
    requires
        n <= ps.len(),
        ps.len() <= usize::MAX,
    ensures
        indices_where(n, flat_pred(ps, Seq::empty())) == Seq::new(n, |j: int| j as usize),
    decreases n,
{
    if n > 0 {
        lemma_all_indices(ps, (n - 1) as nat);
        assert(flat_pred(ps, Seq::empty())((n - 1) as usize));
        assert(indices_where(n, flat_pred(ps, Seq::empty())) =~= Seq::new(n, |j: int| j as usize));
    } else {
        assert(indices_where(0, flat_pred(ps, Seq::empty())) =~= Seq::new(0, |j: int| j as usize));
    }
}

/// The CPU history never grows beyond its cap.
pub proof fn lemma_history_capped(s: AppView, procs: Seq<ProcessInfo>, cores: Seq<u32>, memory_used: u64, memory_total: u64)
    requires
        s.history.len() <= HISTORY_CAP,
    ensures
        tick_step(s, procs, cores, memory_used, memory_total).history.len() <= HISTORY_CAP,
        tick_step(s, procs, cores, memory_used, memory_total).history.last() == cores,
{
    let s1 = resorted(AppView { processes: procs, cores, memory_used, memory_total, ..s });
    let s2 = AppView { collapsed: s1.collapsed.filter(live_pred(s1.processes)), ..s1 };
    let s3 = reconciled(s2);
    assert(s3.history == s.history);
}

/// Killing takes two keys: `x` asks to kill the selected process and only
/// `y` or `Y` confirms; any other key cancels, and nothing is killed.
pub proof fn lemma_kill_needs_confirmation(s: AppView, key: Key)
    requires
        s.confirm_kill is None,
        s.filter_input is None,
        s.selected is Some,
    ensures
        key_step(s, Key::Char('x')).1 == Command::Nothing,
        key_step(s, Key::Char('x')).0.confirm_kill == s.selected,
        key_step(key_step(s, Key::Char('x')).0, key).1 == (if key == Key::Char('y') || key == Key::Char('Y') {
            Command::Kill { pid: s.selected->0 }
        } else {
            Command::Nothing
        }),
        key_step(key_step(s, Key::Char('x')).0, key).0.confirm_kill is None,
{
}

/// Opening the filter box starts from the active filter, so opening and
/// applying it at once keeps the filter, and cancelling leaves it untouched.
pub proof fn lemma_filter_edit_round_trip(s: AppView)
    requires
        s.confirm_kill is None,
        s.filter_input is None,
    ensures
        key_step(key_step(s, Key::Char('/')).0, Key::Enter).0.filter == s.filter,
        key_step(key_step(s, Key::Char('/')).0, Key::Enter).0.filter_input is None,
        key_step(key_step(s, Key::Char('/')).0, Key::Esc).0 == s,
{
    let s1 = key_step(s, Key::Char('/')).0;
    assert(s1.filter_input == Some(s.filter));
    assert(key_step(s1, Key::Esc).0 =~= s);
}

proof fn lemma_row_pids_contains(rows: Seq<RowView>, ps: Seq<ProcessInfo>, p: u32)
    ensures
        row_pids(rows, ps).contains(p) <==> exists|t: int| 0 <= t < rows.len() && row_has_pid(#[trigger] rows[t], ps, p),
    decreases rows.len(),
{
    if rows.len() > 0 {
        let front = rows.drop_last();
        let prev = row_pids(front, ps);
        let last = rows.len() - 1;
        lemma_row_pids_contains(front, ps, p);
        if row_pids(rows, ps).contains(p) {
            let k = choose|k: int| 0 <= k < row_pids(rows, ps).len() && row_pids(rows, ps)[k] == p;
            if k < prev.len() {
                match rows.last() {
                    RowView::Process { index, .. } => assert(prev.push(ps[index].pid)[k] == prev[k]),
                    RowView::Header { .. } => {},
                }
                assert(prev.contains(p));
                let t = choose|t: int| 0 <= t < front.len() && row_has_pid(#[trigger] front[t], ps, p);
                assert(rows[t] == front[t]);
            } else {
                assert(rows[last] == rows.last());
                assert(row_has_pid(rows[last], ps, p));
            }
        }
        if exists|t: int| 0 <= t < rows.len() && row_has_pid(#[trigger] rows[t], ps, p) {
            let t = choose|t: int| 0 <= t < rows.len() && row_has_pid(#[trigger] rows[t], ps, p);
            if t < last {
                assert(front[t] == rows[t]);
                assert(prev.contains(p));
                let k = choose|k: int| 0 <= k < prev.len() && prev[k] == p;
                match rows.last() {
                    RowView::Process { index, .. } => assert(prev.push(ps[index].pid)[k] == p),
                    RowView::Header { .. } => {},
                }
            } else {
                assert(rows[t] == rows.last());
                match rows.last() {
                    RowView::Process { index, .. } => assert(prev.push(ps[index].pid)[prev.len() as int] == p),
                    RowView::Header { .. } => {},
                }
            }
        }
    }
}

/// Folding the selected process never takes the selection away: whatever
/// the layout, a selectable selection stays selectable.
pub proof fn lemma_collapse_keeps_selection(s: AppView)
    requires
        s.processes.len() <= usize::MAX,
        s.selected matches Some(p) && selectable_of(s).contains(p),
    ensures
        selectable_of(collapsed_selected(s)).contains(s.selected->0),
{
    let p = s.selected->0;
    let s2 = collapsed_selected(s);
    if s.view == ProcessView::Tree && s.filter.len() == 0 && !s.collapsed.contains(p) {
        let ps = s.processes;
        let rows1 = tree_spec(ps, s.collapsed);
        let rows2 = tree_spec(ps, s.collapsed.push(p));
        assert(rows_of(s) == rows1);
        assert(rows_of(s2) == rows2);
        lemma_row_pids_contains(rows1, ps, p);
        lemma_row_pids_contains(rows2, ps, p);
        lemma_fold_keeps_process(ps, s.collapsed, p);
    } else {
        assert(rows_of(s2) == rows_of(s));
    }
}

/// Unfolding the selected process never hides a selectable process.
pub proof fn lemma_expand_keeps_selectable(s: AppView, p: u32)
    requires
        selectable_of(s).contains(p),
    ensures
        selectable_of(expanded_selected(s)).contains(p),
{
    let s2 = expanded_selected(s);
    if s.view == ProcessView::Tree && s.filter.len() == 0 && s.selected is Some {
        let ps = s.processes;
        let c2 = s.collapsed.filter(other_pid(s.selected->0));
        assert forall|x: u32| c2.contains(x) implies s.collapsed.contains(x) by {
            s.collapsed.lemma_filter_contains_rev(other_pid(s.selected->0), x);
        }
        let rows1 = tree_spec(ps, s.collapsed);
        let rows2 = tree_spec(ps, c2);
        assert(rows_of(s) == rows1);
        assert(rows_of(s2) == rows2);
        lemma_unfold_keeps_rows(ps, s.collapsed, c2);
        lemma_row_pids_contains(rows1, ps, p);
        lemma_row_pids_contains(rows2, ps, p);
        let t = choose|t: int| 0 <= t < rows1.len() && row_has_pid(#[trigger] rows1[t], ps, p);
        assert(rows1.contains(rows1[t]));
        assert(rows2.contains(rows1[t]));
        let t2 = choose|t2: int| 0 <= t2 < rows2.len() && rows2[t2] == rows1[t];
        assert(row_has_pid(rows2[t2], ps, p));
    } else {
        assert(rows_of(s2) == rows_of(s));
    }
}

proof fn lemma_filter_keeps_all(c: Seq<u32>, pred: spec_fn(u32) -> bool)
    requires
        forall|i: int| 0 <= i < c.len() ==> pred(#[trigger] c[i]),
    ensures
        c.filter(pred) == c,
    decreases c.len(),
{
    reveal_with_fuel(Seq::filter, 1);
    if c.len() > 0 {
        let front = c.drop_last();
        assert forall|i: int| 0 <= i < front.len() implies pred(#[trigger] front[i]) by {
            assert(front[i] == c[i]);
        }
        lemma_filter_keeps_all(front, pred);
        assert(pred(c[c.len() - 1]));
        assert(c.filter(pred) =~= front.filter(pred).push(c.last()));
        assert(front.push(c.last()) =~= c);
    } else {
        assert(c.filter(pred) =~= c);
    }
}

/// Unfolding right after folding undoes the fold: the state is as before,
/// unless the selected process was folded already.
pub proof fn lemma_expand_undoes_collapse(s: AppView)
    requires
        s.selected matches Some(p) ==> !s.collapsed.contains(p),
    ensures
        expanded_selected(collapsed_selected(s)) == s,
{
    if s.selected is Some {
        let p = s.selected->0;
        let c = s.collapsed;
        let pred = other_pid(p);
        assert forall|i: int| 0 <= i < c.len() implies pred(#[trigger] c[i]) by {
            assert(c.contains(c[i]));
        }
        lemma_filter_keeps_all(c, pred);
        assert(c.push(p).filter(pred) =~= c.filter(pred)) by {
            reveal_with_fuel(Seq::filter, 1);
            assert(c.push(p).drop_last() =~= c);
        }
        assert(expanded_selected(collapsed_selected(s)) =~= s);
    }
}

proof fn lemma_filter_distinct(c: Seq<u32>, pred: spec_fn(u32) -> bool)
    requires
        c.no_duplicates(),
    ensures
        c.filter(pred).no_duplicates(),
    decreases c.len(),
{
    reveal_with_fuel(Seq::filter, 1);
    if c.len() > 0 {
        let front = c.drop_last();
        let x = c.last();
        assert forall|i: int, j: int| 0 <= i < front.len() && 0 <= j < front.len() && i != j implies front[i] != front[j] by {
            assert(front[i] == c[i] && front[j] == c[j]);
        }
        lemma_filter_distinct(front, pred);
        let f = front.filter(pred);
        if pred(x) {
            assert(c.filter(pred) =~= f.push(x));
            if f.contains(x) {
                front.lemma_filter_contains_rev(pred, x);
                let k = choose|k: int| 0 <= k < front.len() && front[k] == x;
                assert(c[k] == c[c.len() - 1]);
            }
            assert forall|i: int, j: int| 0 <= i < f.push(x).len() && 0 <= j < f.push(x).len() && i != j
                implies f.push(x)[i] != f.push(x)[j] by {
                if i < f.len() && j < f.len() {
                } else if i < f.len() {
                    assert(f.contains(f[i]));
                } else if j < f.len() {
                    assert(f.contains(f[j]));
                }
            }
        } else {
            assert(c.filter(pred) =~= f);
        }
    } else {
        assert(c.filter(pred) =~= c);
    }
}

/// The folded pids hold each pid at most once, as a set does: no key press
/// and no refresh ever folds a pid twice.
pub proof fn lemma_folds_stay_distinct(s: AppView, key: Key, procs: Seq<ProcessInfo>, cores: Seq<u32>, memory_used: u64, memory_total: u64)
    requires
        s.collapsed.no_duplicates(),
    ensures
        key_step(s, key).0.collapsed.no_duplicates(),
        tick_step(s, procs, cores, memory_used, memory_total).collapsed.no_duplicates(),
{
    if let Some(p) = s.selected {
        if !s.collapsed.contains(p) {
            let c2 = s.collapsed.push(p);
            assert forall|i: int, j: int| 0 <= i < c2.len() && 0 <= j < c2.len() && i != j implies c2[i] != c2[j] by {
                if i < s.collapsed.len() && j < s.collapsed.len() {
                } else if i < s.collapsed.len() {
                    assert(s.collapsed.contains(c2[i]));
                } else if j < s.collapsed.len() {
                    assert(s.collapsed.contains(c2[j]));
                }
            }
        }
        lemma_filter_distinct(s.collapsed, other_pid(p));
    }
    let s1 = resorted(AppView { processes: procs, cores, memory_used, memory_total, ..s });
    lemma_filter_distinct(s1.collapsed, live_pred(s1.processes));
}

/// A refresh forgets the folds of processes that are gone, leaves the
/// selection on a selectable process of the new list, and keeps the table
/// in its sort order.
pub proof fn lemma_tick_keeps_state_valid(s: AppView, procs: Seq<ProcessInfo>, cores: Seq<u32>, memory_used: u64, memory_total: u64)
    ensures
        forall|q: u32| #[trigger] tick_step(s, procs, cores, memory_used, memory_total).collapsed.contains(q)
            ==> pid_present(tick_step(s, procs, cores, memory_used, memory_total).processes, q),
        tick_step(s, procs, cores, memory_used, memory_total).selected matches Some(p)
            ==> selectable_of(tick_step(s, procs, cores, memory_used, memory_total)).contains(p),
        tick_step(s, procs, cores, memory_used, memory_total).processes
            == stable_sort(procs, sort_order(s.sort_key, s.sort_desc)),
{
    let s1 = resorted(AppView { processes: procs, cores, memory_used, memory_total, ..s });
    let s2 = AppView { collapsed: s1.collapsed.filter(live_pred(s1.processes)), ..s1 };
    let s3 = reconciled(s2);
    let t = tick_step(s, procs, cores, memory_used, memory_total);
    s1.collapsed.filter_lemma(live_pred(s1.processes));
    assert forall|q: u32| #[trigger] t.collapsed.contains(q) implies pid_present(t.processes, q) by {
        let k = choose|k: int| 0 <= k < s2.collapsed.len() && s2.collapsed[k] == q;
        assert(live_pred(s1.processes)(s2.collapsed[k]));
    }
    lemma_reconciled_selection_valid(s2);
    assert(rows_of(t) == rows_of(s3));
}

/// The sort keys choose their columns: after `c` the table is ordered by
/// CPU usage, after `m` by memory, after `p` by pid and after `n` by name,
/// in the direction the key left it, with the same processes as before.
pub proof fn lemma_sort_keys_pick_columns(s: AppView)
    requires
        s.confirm_kill is None,
        s.filter_input is None,
    ensures
        key_step(s, Key::Char('c')).0.sort_key == SortKey::Cpu,
        key_step(s, Key::Char('m')).0.sort_key == SortKey::Memory,
        key_step(s, Key::Char('p')).0.sort_key == SortKey::Pid,
        key_step(s, Key::Char('n')).0.sort_key == SortKey::Name,
        key_step(s, Key::Char('c')).0.processes.to_multiset() == s.processes.to_multiset(),
        key_step(s, Key::Char('m')).0.processes.to_multiset() == s.processes.to_multiset(),
        key_step(s, Key::Char('p')).0.processes.to_multiset() == s.processes.to_multiset(),
        key_step(s, Key::Char('n')).0.processes.to_multiset() == s.processes.to_multiset(),
        forall|i: int, j: int| 0 <= i < j < key_step(s, Key::Char('c')).0.processes.len() ==>
            if key_step(s, Key::Char('c')).0.sort_desc {
                #[trigger] key_step(s, Key::Char('c')).0.processes[j].cpu_usage <= #[trigger] key_step(s, Key::Char('c')).0.processes[i].cpu_usage
            } else {
                key_step(s, Key::Char('c')).0.processes[i].cpu_usage <= key_step(s, Key::Char('c')).0.processes[j].cpu_usage
            },
        forall|i: int, j: int| 0 <= i < j < key_step(s, Key::Char('m')).0.processes.len() ==>
            if key_step(s, Key::Char('m')).0.sort_desc {
                #[trigger] key_step(s, Key::Char('m')).0.processes[j].memory <= #[trigger] key_step(s, Key::Char('m')).0.processes[i].memory
            } else {
                key_step(s, Key::Char('m')).0.processes[i].memory <= key_step(s, Key::Char('m')).0.processes[j].memory
            },
        forall|i: int, j: int| 0 <= i < j < key_step(s, Key::Char('p')).0.processes.len() ==>
            if key_step(s, Key::Char('p')).0.sort_desc {
                #[trigger] key_step(s, Key::Char('p')).0.processes[j].pid <= #[trigger] key_step(s, Key::Char('p')).0.processes[i].pid
            } else {
                key_step(s, Key::Char('p')).0.processes[i].pid <= key_step(s, Key::Char('p')).0.processes[j].pid
            },
{
    let rc = key_step(s, Key::Char('c')).0;
    let rm = key_step(s, Key::Char('m')).0;
    let rp = key_step(s, Key::Char('p')).0;
    let rn = key_step(s, Key::Char('n')).0;
    lemma_table_sorted(s.processes, SortKey::Cpu, rc.sort_desc);
    lemma_table_sorted(s.processes, SortKey::Memory, rm.sort_desc);
    lemma_table_sorted(s.processes, SortKey::Pid, rp.sort_desc);
    lemma_table_sorted(s.processes, SortKey::Name, rn.sort_desc);
    lemma_table_in_column_order(s.processes, SortKey::Cpu, rc.sort_desc);
    lemma_table_in_column_order(s.processes, SortKey::Memory, rm.sort_desc);
    lemma_table_in_column_order(s.processes, SortKey::Pid, rp.sort_desc);
    assert forall|i: int, j: int| 0 <= i < j < rc.processes.len() implies (
        if rc.sort_desc {
            #[trigger] rc.processes[j].cpu_usage <= #[trigger] rc.processes[i].cpu_usage
        } else {
            rc.processes[i].cpu_usage <= rc.processes[j].cpu_usage
        })
    by {
        let r = stable_sort(s.processes, sort_order(SortKey::Cpu, rc.sort_desc));
        assert(r[i] == rc.processes[i] && r[j] == rc.processes[j]);
    }
    assert forall|i: int, j: int| 0 <= i < j < rm.processes.len() implies (
        if rm.sort_desc {
            #[trigger] rm.processes[j].memory <= #[trigger] rm.processes[i].memory
        } else {
            rm.processes[i].memory <= rm.processes[j].memory
        })
    by {
        let r = stable_sort(s.processes, sort_order(SortKey::Memory, rm.sort_desc));
        assert(r[i] == rm.processes[i] && r[j] == rm.processes[j]);
    }
    assert forall|i: int, j: int| 0 <= i < j < rp.processes.len() implies (
        if rp.sort_desc {
            #[trigger] rp.processes[j].pid <= #[trigger] rp.processes[i].pid
        } else {
            rp.processes[i].pid <= rp.processes[j].pid
        })
    by {
        let r = stable_sort(s.processes, sort_order(SortKey::Pid, rp.sort_desc));
        assert(r[i] == rp.processes[i] && r[j] == rp.processes[j]);
    }
}

/// A refresh keeps the selection on its process whenever that pid is still
/// selectable among the new rows; only a selection that is gone moves to
/// the top row.
pub proof fn lemma_tick_keeps_selection(s: AppView, procs: Seq<ProcessInfo>, cores: Seq<u32>, memory_used: u64, memory_total: u64)
    ensures
        s.selected matches Some(p) && selectable_of(tick_step(s, procs, cores, memory_used, memory_total)).contains(p)
            ==> tick_step(s, procs, cores, memory_used, memory_total).selected == s.selected,
        selectable_of(tick_step(s, procs, cores, memory_used, memory_total)).len() > 0
            && !(s.selected matches Some(p) && selectable_of(tick_step(s, procs, cores, memory_used, memory_total)).contains(p))
            ==> tick_step(s, procs, cores, memory_used, memory_total).selected
                == Some(selectable_of(tick_step(s, procs, cores, memory_used, memory_total))[0]),
{
    let s1 = resorted(AppView { processes: procs, cores, memory_used, memory_total, ..s });
    let s2 = AppView { collapsed: s1.collapsed.filter(live_pred(s1.processes)), ..s1 };
    let s3 = reconciled(s2);
    let t = tick_step(s, procs, cores, memory_used, memory_total);
    assert(rows_of(t) == rows_of(s2));
    assert(rows_of(s3) == rows_of(s2));
    assert(t.processes == s2.processes);
}

/// Choosing the sort column that is already active twice restores the
/// direction; choosing a new column sorts CPU and memory descending, pid
/// and name ascending.
pub proof fn lemma_sort_toggle(s: AppView, key: SortKey)
    ensures
        s.sort_key == key ==> with_sort(with_sort(s, key), key).sort_desc == s.sort_desc,
        with_sort(s, key).sort_key == key,
        s.sort_key != key ==> with_sort(s, key).sort_desc == (key == SortKey::Cpu || key == SortKey::Memory),
{
}

impl App {
    /// Keeps the selection on a valid, currently-visible process, defaulting
    /// to the top row once the previous selection disappears (killed, or
    /// filtered out).
    pub fn reconcile_selection(&mut self)
        requires
            processes_wf(old(self)@.processes),
        ensures
            final(self)@ == reconciled(old(self)@),
    {
        let selectable = self.selectable_pids();
        let still_present = match self.selected_pid {
            Some(pid) => contains_u32(&selectable, pid),
            None => false,
        };
        if !still_present {
            self.selected_pid = if selectable.len() > 0 {
                Some(selectable[0])
            } else {
                None
            };
        }
        assert(self@ =~= reconciled(old(self)@));
    }

    fn move_selection(&mut self, delta: i32)
        requires
            processes_wf(old(self)@.processes),
        ensures
            final(self)@ == moved(old(self)@, delta as int),
    {
        let selectable = self.selectable_pids();
        if selectable.len() == 0 {
            return;
        }
        let ghost sel = selectable@;
        let mut current: usize = 0;
        if let Some(pid) = self.selected_pid {
            let mut pos: usize = 0;
            while pos < selectable.len()
                invariant
                    pos <= selectable.len(),
                    selectable@ == sel,
                    forall|j: int| 0 <= j < pos ==> sel[j] != pid,
                ensures
                    pos <= selectable.len(),
                    forall|j: int| 0 <= j < pos ==> sel[j] != pid,
                    pos < selectable.len() ==> sel[pos as int] == pid,
                decreases selectable.len() - pos,
            {
                if selectable[pos] == pid {
                    break;
                }
                pos = pos + 1;
            }
            if pos < selectable.len() {
                proof {
                    assert(sel.contains(pid));
                    let c = first_index(sel, pid);
                    assert(0 <= pos < sel.len() && sel[pos as int] == pid && forall|j: int| 0 <= j < pos ==> sel[j] != pid);
                    if c < pos {
                        assert(sel[c] != pid);
                    } else if c > pos {
                        assert(sel[pos as int] != pid);
                    }
                }
                current = pos;
            } else {
                assert(!sel.contains(pid));
            }
        }
        let last = selectable.len() - 1;
        let next: usize = if delta < 0 {
            let d: u64 = (0 - (delta as i64)) as u64;
            if d > current as u64 {
                0
            } else {
                current - d as usize
            }
        } else {
            let d: u64 = delta as u64;
            if d > (last - current) as u64 {
                last
            } else {
                current + d as usize
            }
        };
        assert(next as int == clamp(current + delta, 0, sel.len() - 1));
        self.selected_pid = Some(selectable[next]);
        assert(self@ =~= moved(old(self)@, delta as int));
    }

    fn resort_processes(&mut self)
        ensures
            final(self)@ == resorted(old(self)@),
            processes_wf(old(self)@.processes) ==> processes_wf(final(self)@.processes),
    {
        let mut procs: Vec<ProcessInfo> = Vec::new();
        std::mem::swap(&mut procs, &mut self.latest.processes);
        self.latest.processes = sort_processes(procs, self.sort_key, self.sort_desc);
        proof {
            lemma_sort_keeps_totals(old(self)@.processes, sort_order(old(self)@.sort_key, old(self)@.sort_desc));
        }
        assert(self@ =~= resorted(old(self)@));
    }

    fn set_sort(&mut self, key: SortKey)
        ensures
            final(self)@ == with_sort(old(self)@, key),
            processes_wf(old(self)@.processes) ==> processes_wf(final(self)@.processes),
    {
        if self.sort_key == key {
            self.sort_desc = !self.sort_desc;
        } else {
            self.sort_key = key;
            self.sort_desc = key == SortKey::Cpu || key == SortKey::Memory;
        }
        self.resort_processes();
    }

    fn cycle_view(&mut self)
        requires
            processes_wf(old(self)@.processes),
        ensures
            final(self)@ == reconciled(AppView { view: next_view(old(self)@.view), ..old(self)@ }),
    {
        self.view = self.view.next();
        self.reconcile_selection();
    }

    /// Folds the children of the selected process in tree view.
    pub fn collapse_selected(&mut self)
        ensures
            final(self)@ == collapsed_selected(old(self)@),
    {
        if let Some(pid) = self.selected_pid {
            if !contains_u32(&self.collapsed, pid) {
                self.collapsed.push(pid);
            }
        }
        assert(self@ =~= collapsed_selected(old(self)@));
    }

    /// Unfolds the children of the selected process in tree view.
    pub fn expand_selected(&mut self)
        ensures
            final(self)@ == expanded_selected(old(self)@),
    {
        if let Some(pid) = self.selected_pid {
            let mut kept: Vec<u32> = Vec::new();
            let mut j: usize = 0;
            while j < self.collapsed.len()
                invariant
                    j <= self.collapsed.len(),
                    self.collapsed@ == old(self).collapsed@,
                    kept@ == self.collapsed@.take(j as int).filter(other_pid(pid)),
                decreases self.collapsed.len() - j,
            {
                proof {
                    let t = self.collapsed@.take(j + 1);
                    assert(t.drop_last() =~= self.collapsed@.take(j as int));
                    assert(t.filter(other_pid(pid)) == t.drop_last().filter(other_pid(pid)) + (if other_pid(pid)(t.last()) { seq![t.last()] } else { Seq::<u32>::empty() })) by {
                        reveal_with_fuel(Seq::filter, 1);
                        assert(t.filter(other_pid(pid)) =~= t.drop_last().filter(other_pid(pid)) + (if other_pid(pid)(t.last()) { seq![t.last()] } else { Seq::<u32>::empty() }));
                    }
                }
                if self.collapsed[j] != pid {
                    kept.push(self.collapsed[j]);
                }
                assert(kept@ =~= self.collapsed@.take(j + 1).filter(other_pid(pid)));
                j = j + 1;
            }
            assert(self.collapsed@.take(self.collapsed@.len() as int) =~= self.collapsed@);
            self.collapsed = kept;
        }
        assert(self@ =~= expanded_selected(old(self)@));
    }

    /// Handles one key press. The returned command names what the caller
    /// must do (kill or renice a process); everything else is applied here.
    pub fn on_key(&mut self, key: Key) -> (res: Command)
        requires
            processes_wf(old(self)@.processes),
        ensures
            (final(self)@, res) == key_step(old(self)@, key),
            processes_wf(final(self)@.processes),
    {
        if let Some(pid) = self.confirm_kill {
            let cmd = if key == Key::Char('y') || key == Key::Char('Y') {
                Command::Kill { pid }
            } else {
                Command::Nothing
            };
            self.confirm_kill = None;
            assert(self@ =~= key_step(old(self)@, key).0);
            return cmd;
        }
        if self.filter_input.is_some() {
            match key {
                Key::Enter => {
                    let buf = match self.filter_input.take() {
                        Some(b) => b,
                        None => String::new(),
                    };
                    self.filter = buf;
                    assert(self@ =~= AppView { filter: old(self)@.filter_input->0, filter_input: None, ..old(self)@ });
                    self.reconcile_selection();
                },
                Key::Esc => {
                    self.filter_input = None;
                },
                Key::Backspace => {
                    let mut buf = match self.filter_input.take() {
                        Some(b) => b,
                        None => String::new(),
                    };
                    pop_char(&mut buf);
                    self.filter_input = Some(buf);
                },
                Key::Char(c) => {
                    let mut buf = match self.filter_input.take() {
                        Some(b) => b,
                        None => String::new(),
                    };
                    push_char(&mut buf, c);
                    self.filter_input = Some(buf);
                },
                _ => {},
            }
            assert(self@ =~= key_step(old(self)@, key).0);
            return Command::Nothing;
        }
        let cmd = match key {
            Key::Char('q') | Key::Esc => {
                self.running = false;
                Command::Nothing
            },
            Key::Up | Key::Char('k') => {
                self.move_selection(-1);
                Command::Nothing
            },
            Key::Down | Key::Char('j') => {
                self.move_selection(1);
                Command::Nothing
            },
            Key::Char('c') => {
                self.set_sort(SortKey::Cpu);
                Command::Nothing
            },
            Key::Char('m') => {
                self.set_sort(SortKey::Memory);
                Command::Nothing
            },
            Key::Char('p') => {
                self.set_sort(SortKey::Pid);
                Command::Nothing
            },
            Key::Char('n') => {
                self.set_sort(SortKey::Name);
                Command::Nothing
            },
            Key::Char('x') => {
                self.confirm_kill = self.selected_pid;
                Command::Nothing
            },
            Key::Char('/') => {
                self.filter_input = Some(self.filter.clone());
                Command::Nothing
            },
            Key::Char('[') => self.renice_selected(-1),
            Key::Char(']') => self.renice_selected(1),
            Key::Char('t') => {
                self.cycle_view();
                Command::Nothing
            },
            Key::Left | Key::Char('h') => {
                self.collapse_selected();
                Command::Nothing
            },
            Key::Right | Key::Char('l') => {
                self.expand_selected();
                Command::Nothing
            },
            _ => Command::Nothing,
        };
        assert(self@ =~= key_step(old(self)@, key).0);
        cmd
    }

    /// Applies a refresh: the snapshot replaces the previous one and is put
    /// in table order, folds of vanished processes are dropped, the
    /// selection is reconciled and the per-core usage joins the history.
    pub fn on_tick(&mut self, snapshot: Snapshot)
        requires
            snapshot.wf(),
        ensures
            final(self)@ == tick_step(
                old(self)@,
                snapshot.processes@,
                snapshot.cpu_usage_per_core@,
                snapshot.memory_used,
                snapshot.memory_total,
            ),
            processes_wf(final(self)@.processes),
    {
        let cores = copy_u32s(&snapshot.cpu_usage_per_core);
        self.latest = snapshot;
        assert(self@ =~= AppView {
            processes: snapshot.processes@,
            cores: snapshot.cpu_usage_per_core@,
            memory_used: snapshot.memory_used,
            memory_total: snapshot.memory_total,
            ..old(self)@
        });
        self.resort_processes();
        let ghost s1 = self@;
        let mut kept: Vec<u32> = Vec::new();
        let mut j: usize = 0;
        while j < self.collapsed.len()
            invariant
                j <= self.collapsed.len(),
                self@ == s1,
                kept@ == self.collapsed@.take(j as int).filter(live_pred(self.latest.processes@)),
            decreases self.collapsed.len() - j,
        {
            proof {
                let t = self.collapsed@.take(j + 1);
                assert(t.drop_last() =~= self.collapsed@.take(j as int));
                let pred = live_pred(self.latest.processes@);
                assert(t.filter(pred) == t.drop_last().filter(pred) + (if pred(t.last()) { seq![t.last()] } else { Seq::<u32>::empty() })) by {
                    reveal_with_fuel(Seq::filter, 1);
                    assert(t.filter(pred) =~= t.drop_last().filter(pred) + (if pred(t.last()) { seq![t.last()] } else { Seq::<u32>::empty() }));
                }
            }
            if pid_present_exec(&self.latest.processes, self.collapsed[j]) {
                kept.push(self.collapsed[j]);
            }
            assert(kept@ =~= self.collapsed@.take(j + 1).filter(live_pred(self.latest.processes@)));
            j = j + 1;
        }
        assert(self.collapsed@.take(self.collapsed@.len() as int) =~= self.collapsed@);
        self.collapsed = kept;
        assert(self@ =~= AppView { collapsed: s1.collapsed.filter(live_pred(s1.processes)), ..s1 });
        self.reconcile_selection();
        let ghost s3 = self@;
        let ghost cores_view = cores@;
        self.cpu_history.push(cores);
        assert(history_view(self.cpu_history@) =~= s3.history.push(cores_view));
        if self.cpu_history.len() > HISTORY_CAP {
            let ghost before = self.cpu_history@;
            self.cpu_history.remove(0);
            assert(history_view(self.cpu_history@) =~= history_view(before).drop_first());
        }
        assert(self@ =~= tick_step(
            old(self)@,
            snapshot.processes@,
            snapshot.cpu_usage_per_core@,
            snapshot.memory_used,
            snapshot.memory_total,
        ));
    }

    fn renice_selected(&self, delta: i32) -> (res: Command)
        ensures
            res == renice_command(self@, delta),
    {
        match self.selected_pid {
            Some(pid) => Command::Renice { pid, delta },
            None => Command::Nothing,
        }
    }
}

} // verus!
