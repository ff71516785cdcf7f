//! What the terminal user interface computes before it draws: how many
//! rows of a panel are shown, which part of the process table is scrolled
//! into view, the colors of load levels, and the texts of titles, cells
//! and the footer.
use vstd::prelude::*;
use crate::app::ProcessView;
use crate::config::{Color, Theme};
use crate::ordering::SortKey;
use crate::process::ProcessInfo;
use crate::table::{ProcessRow, RowView};
use crate::text::{decimal, decimal_chars, push_str, string_from_chars};

verus! {

/// Caps a list of `total` items to fit within `available_rows`, reserving
/// one row for a truncation notice ("+N more") when not everything fits.
/// Returns how many items to show and whether the notice is needed.
pub fn fit_rows(total: usize, available_rows: usize) -> (res: (usize, bool))
    ensures
        res.1 == (total > available_rows),
        res.1 ==> res.0 == (if available_rows > 0 { available_rows - 1 } else { 0 }),
        !res.1 ==> res.0 == total,
{
    if total > available_rows {
        (available_rows.saturating_sub(1), true)
    } else {
        (if total < available_rows { total } else { available_rows }, false)
    }
}

pub open spec fn sort_label_text(key: SortKey) -> Seq<char> {
    match key {
        SortKey::Cpu => "CPU%"@,
        SortKey::Memory => "MEM"@,
        SortKey::Pid => "PID"@,
        SortKey::Name => "NAME"@,
    }
}

/// The column name shown in the process table's title.
pub fn sort_label(key: SortKey) -> (res: &'static str)
    ensures
        res@ == sort_label_text(key),
{
    match key {
        SortKey::Cpu => "CPU%",
        SortKey::Memory => "MEM",
        SortKey::Pid => "PID",
        SortKey::Name => "NAME",
    }
}

/// The color of a CPU load of `pct` hundredths of a percent: low below
/// 50 %, middle below 80 %, high from there on.
pub fn load_color(theme: &Theme, pct: u32) -> (res: Color)
    ensures
        pct < 5000 ==> res == theme.cpu_low,
        5000 <= pct < 8000 ==> res == theme.cpu_mid,
        8000 <= pct ==> res == theme.cpu_high,
{
    if pct < 5000 {
        theme.cpu_low
    } else if pct < 8000 {
        theme.cpu_mid
    } else {
        theme.cpu_high
    }
}

/// The slice `start..end` of `len` table rows shown in `rows_available`
/// lines, scrolled just far enough that row `selected_idx` is visible.
pub fn viewport(selected_idx: usize, rows_available: usize, len: usize) -> (res: (usize, usize))
    requires
        selected_idx < usize::MAX,
    ensures
        res.0 == (if selected_idx >= rows_available { selected_idx + 1 - rows_available } else { 0 }),
        res.1 == (if res.0 + rows_available < len { res.0 + rows_available } else { len as int }),
{
    let start = if selected_idx >= rows_available {
        selected_idx + 1 - rows_available
    } else {
        0
    };
    let end = if start + rows_available < len {
        start + rows_available
    } else {
        len
    };
    (start, end)
}

/// Row `k` shows the process with pid `pid`.
pub open spec fn row_shows(rows: Seq<RowView>, ps: Seq<ProcessInfo>, k: int, pid: u32) -> bool {
    match rows[k] {
        RowView::Process { index, .. } => ps[index].pid == pid,
        RowView::Header { .. } => false,
    }
}

/// The first row showing the selected process; 0 when there is no
/// selection or no row shows it.
pub open spec fn selected_row(rows: Seq<RowView>, ps: Seq<ProcessInfo>, selected: Option<u32>) -> int {
    match selected {
        Some(pid) => if exists|k: int| 0 <= k < rows.len() && row_shows(rows, ps, k, pid) {
            choose|k: int| 0 <= k < rows.len() && row_shows(rows, ps, k, pid)
                && forall|j: int| 0 <= j < k ==> !row_shows(rows, ps, j, pid)
        } else {
            0
        },
        None => 0,
    }
}

/// The index of the row that shows the selected process.
pub fn selected_row_index(rows: &Vec<ProcessRow>, ps: &Vec<ProcessInfo>, selected: Option<u32>) -> (res: usize)
    requires
        crate::table::rows_in_range(crate::table::views(rows@), ps@),
    ensures
        res == selected_row(crate::table::views(rows@), ps@, selected),
{
    let ghost rv = crate::table::views(rows@);
    match selected {
        None => 0,
        Some(pid) => {
            let mut k: usize = 0;
            while k < rows.len()
                invariant
                    k <= rows.len(),
                    rv == crate::table::views(rows@),
                    selected == Some(pid),
                    crate::table::rows_in_range(rv, ps@),
                    forall|j: int| 0 <= j < k ==> !row_shows(rv, ps@, j, pid),
                decreases rows.len() - k,
            {
                assert(rv[k as int] == rows@[k as int]@);
                let hit = match &rows[k] {
                    ProcessRow::Process { index, .. } => ps[*index].pid == pid,
                    ProcessRow::Header { .. } => false,
                };
                if hit {
                    proof {
                        assert(row_shows(rv, ps@, k as int, pid));
                        assert(exists|k2: int| 0 <= k2 < rv.len() && row_shows(rv, ps@, k2, pid));
                        assert(exists|c2: int| 0 <= c2 < rv.len() && row_shows(rv, ps@, c2, pid)
                            && forall|j: int| 0 <= j < c2 ==> !row_shows(rv, ps@, j, pid)) by {
                            assert(0 <= k < rv.len() && row_shows(rv, ps@, k as int, pid)
                                && forall|j: int| 0 <= j < k ==> !row_shows(rv, ps@, j, pid));
                        }
                        let c = selected_row(rv, ps@, selected);
                        assert(0 <= c < rv.len() && row_shows(rv, ps@, c, pid)
                            && forall|j: int| 0 <= j < c ==> !row_shows(rv, ps@, j, pid));
                        if c < k {
                            assert(!row_shows(rv, ps@, c, pid));
                        } else if c > k {
                            assert(!row_shows(rv, ps@, k as int, pid));
                        }
                    }
                    return k;
                }
                k = k + 1;
            }
            0
        },
    }
}

fn push_decimal(out: &mut Vec<char>, n: u64)
    ensures
        final(out)@ == old(out)@ + decimal(n as nat),
{
    let mut tail = decimal_chars(n);
    out.append(&mut tail);
}

/// The footer: the kill confirmation prompt, the filter being edited, or
/// the key help.
pub open spec fn footer_spec(confirm_kill: Option<u32>, filter_input: Option<Seq<char>>) -> Seq<char> {
    match confirm_kill {
        Some(pid) => "Kill PID "@ + decimal(pid as nat) + "? y = confirm, any other key = cancel"@,
        None => match filter_input {
            Some(buf) => "Filter: "@ + buf + "█  Enter: apply  Esc: cancel"@,
            None => "q: quit  j/k: select  c/m/p/n: sort  /: filter  x: kill  [ ]: nice  t: tree  h/l: fold"@,
        },
    }
}

/// The footer line for the given kill confirmation and filter input.
pub fn footer_text(confirm_kill: Option<u32>, filter_input: &Option<String>) -> (res: String)
    ensures
        res@ == footer_spec(confirm_kill, crate::app::input_view(*filter_input)),
{
    let mut out: Vec<char> = Vec::new();
    match confirm_kill {
        Some(pid) => {
            push_str(&mut out, "Kill PID ");
            push_decimal(&mut out, pid as u64);
            push_str(&mut out, "? y = confirm, any other key = cancel");
        },
        None => match filter_input {
            Some(buf) => {
                push_str(&mut out, "Filter: ");
                push_str(&mut out, buf.as_str());
                push_str(&mut out, "█  Enter: apply  Esc: cancel");
            },
            None => {
                push_str(&mut out, "q: quit  j/k: select  c/m/p/n: sort  /: filter  x: kill  [ ]: nice  t: tree  h/l: fold");
            },
        },
    }
    assert(out@ =~= footer_spec(confirm_kill, crate::app::input_view(*filter_input)));
    string_from_chars(&out)
}

pub open spec fn direction_text(desc: bool) -> Seq<char> {
    if desc { "↓"@ } else { "↑"@ }
}

pub open spec fn layout_suffix(view: ProcessView, filter: Seq<char>) -> Seq<char> {
    if filter.len() > 0 {
        seq![]
    } else {
        match view {
            ProcessView::Flat => seq![],
            ProcessView::Tree => " · tree"@,
            ProcessView::Grouped => " · grouped"@,
        }
    }
}

/// The title of the process table: sort column and direction, the number
/// of rows shown (and, under a filter, of all processes and the filter),
/// and the layout when it is not flat.
pub open spec fn title_spec(key: SortKey, desc: bool, shown: nat, total: nat, filter: Seq<char>, view: ProcessView) -> Seq<char> {
    let head = "Processes ("@ + sort_label_text(key) + " "@ + direction_text(desc);
    let counts = if filter.len() == 0 {
        ", "@ + decimal(shown) + " total)"@
    } else {
        ", "@ + decimal(shown) + "/"@ + decimal(total) + " matching \""@ + filter + "\")"@
    };
    head + counts + layout_suffix(view, filter)
}

/// The title line of the process table.
pub fn table_title(key: SortKey, desc: bool, shown: usize, total: usize, filter: &str, view: ProcessView) -> (res: String)
    ensures
        res@ == title_spec(key, desc, shown as nat, total as nat, filter@, view),
{
    let mut out: Vec<char> = Vec::new();
    push_str(&mut out, "Processes (");
    push_str(&mut out, sort_label(key));
    push_str(&mut out, " ");
    if desc {
        push_str(&mut out, "↓");
    } else {
        push_str(&mut out, "↑");
    }
    let filter_empty = filter.is_empty();
    if filter_empty {
        push_str(&mut out, ", ");
        push_decimal(&mut out, shown as u64);
        push_str(&mut out, " total)");
    } else {
        push_str(&mut out, ", ");
        push_decimal(&mut out, shown as u64);
        push_str(&mut out, "/");
        push_decimal(&mut out, total as u64);
        push_str(&mut out, " matching \"");
        push_str(&mut out, filter);
        push_str(&mut out, "\")");
    }
    if filter_empty {
        match view {
            ProcessView::Flat => {},
            ProcessView::Tree => push_str(&mut out, " · tree"),
            ProcessView::Grouped => push_str(&mut out, " · grouped"),
        }
    }
    assert(out@ =~= title_spec(key, desc, shown as nat, total as nat, filter@, view));
    string_from_chars(&out)
}

pub open spec fn fold_marker(has_children: bool, collapsed: bool) -> Seq<char> {
    if !has_children {
        "  "@
    } else if collapsed {
        "▸ "@
    } else {
        "▾ "@
    }
}

/// The name cell of a process in tree or grouped layout: two spaces per
/// level of depth, a fold marker, then the name.
pub open spec fn tree_cell_spec(depth: nat, has_children: bool, collapsed: bool, name: Seq<char>) -> Seq<char> {
    Seq::new(2 * depth, |i: int| ' ') + fold_marker(has_children, collapsed) + name
}

/// The name cell of a process row in tree or grouped layout.
pub fn tree_cell(depth: usize, has_children: bool, collapsed: bool, name: &str) -> (res: String)
    ensures
        res@ == tree_cell_spec(depth as nat, has_children, collapsed, name@),
{
    let mut out: Vec<char> = Vec::new();
    let mut i: usize = 0;
    while i < depth
        invariant
            i <= depth,
            out@ =~= Seq::new(2 * i as nat, |k: int| ' '),
        decreases depth - i,
    {
        out.push(' ');
        out.push(' ');
        i = i + 1;
    }
    if !has_children {
        push_str(&mut out, "  ");
    } else if collapsed {
        push_str(&mut out, "▸ ");
    } else {
        push_str(&mut out, "▾ ");
    }
    push_str(&mut out, name);
    assert(out@ =~= tree_cell_spec(depth as nat, has_children, collapsed, name@));
    string_from_chars(&out)
}

/// Sample `idx` of a history entry; 0 when the entry has fewer cores.
pub open spec fn core_sample(entry: Seq<u32>, idx: int) -> u32 {
    if 0 <= idx < entry.len() { entry[idx] } else { 0 }
}

/// The last `samples_needed` history entries (or all of them), reduced to
/// core `idx`.
pub open spec fn core_samples_spec(history: Seq<Seq<u32>>, idx: int, samples_needed: nat) -> Seq<u32> {
    let start = if history.len() > samples_needed { history.len() - samples_needed } else { 0 };
    Seq::new((history.len() - start) as nat, |k: int| core_sample(history[start + k], idx))
}

/// The samples of core `idx` that a sparkline of `samples_needed` samples
/// shows, oldest first.
pub fn core_samples(history: &Vec<Vec<u32>>, idx: usize, samples_needed: usize) -> (res: Vec<u32>)
    ensures
        res@ == core_samples_spec(crate::app::history_view(history@), idx as int, samples_needed as nat),
{
    let start = history.len().saturating_sub(samples_needed);
    let mut res: Vec<u32> = Vec::new();
    let mut k: usize = start;
    while k < history.len()
        invariant
            start <= k <= history.len(),
            start == (if history@.len() > samples_needed { history@.len() - samples_needed } else { 0 }),
            res@.len() == k - start,
            forall|t: int| 0 <= t < res@.len() ==>
                #[trigger] res@[t] == core_sample(history@[start + t]@, idx as int),
        decreases history.len() - k,
    {
        let entry = &history[k];
        let v = if idx < entry.len() { entry[idx] } else { 0 };
        res.push(v);
        k = k + 1;
    }
    assert(res@ =~= core_samples_spec(crate::app::history_view(history@), idx as int, samples_needed as nat));
    res
}

pub open spec fn capped(n: nat, cap: nat) -> nat {
    if n < cap { n } else { cap }
}

/// Heights of the left column's overview, GPU and network panels: the
/// overview shows up to 8 cores plus two summary rows, the GPU panel up to
/// 4 GPUs plus a header (one status row when only an error is known, none
/// at all otherwise), the network panel up to 6 interfaces plus a header;
/// each panel with a border above and below.
pub fn left_panel_heights(n_cores: usize, n_gpus: usize, gpu_error: bool, n_networks: usize) -> (res: (u16, u16, u16))
    ensures
        res.0 == capped(n_cores as nat, 8) + 4,
        res.1 == (if n_gpus > 0 { capped(n_gpus as nat, 4) + 3 } else if gpu_error { 3 } else { 0 }),
        res.2 == capped(n_networks as nat, 6) + 3,
{
    let cores: u16 = if n_cores < 8 { n_cores as u16 } else { 8 };
    let gpus: u16 = if n_gpus > 0 {
        (if n_gpus < 4 { n_gpus as u16 } else { 4 }) + 3
    } else if gpu_error {
        3
    } else {
        0
    };
    let nets: u16 = if n_networks < 6 { n_networks as u16 } else { 6 };
    (cores + 4, gpus, nets + 3)
}

} // verus!
