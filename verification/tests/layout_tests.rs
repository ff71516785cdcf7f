use tokimono::app::ProcessView;
use tokimono::config::{Color, Theme};
use tokimono::layout::{
    core_samples, fit_rows, footer_text, left_panel_heights, load_color, selected_row_index, sort_label,
    table_title, tree_cell, viewport,
};
use tokimono::ordering::SortKey;
use tokimono::process::ProcessInfo;
use tokimono::table::ProcessRow;

#[test]
fn fit_rows_reserves_a_truncation_row_when_over_capacity() {
    assert_eq!(fit_rows(10, 4), (3, true));
}

#[test]
fn fit_rows_uses_full_list_when_it_fits() {
    assert_eq!(fit_rows(3, 4), (3, false));
    assert_eq!(fit_rows(4, 4), (4, false));
}

#[test]
fn fit_rows_with_no_room() {
    assert_eq!(fit_rows(0, 0), (0, false));
    assert_eq!(fit_rows(5, 0), (0, true));
    assert_eq!(fit_rows(2, 1), (0, true));
}

#[test]
fn sort_labels_name_the_columns() {
    assert_eq!(sort_label(SortKey::Cpu), "CPU%");
    assert_eq!(sort_label(SortKey::Memory), "MEM");
    assert_eq!(sort_label(SortKey::Pid), "PID");
    assert_eq!(sort_label(SortKey::Name), "NAME");
}

#[test]
fn load_color_thresholds() {
    let t = Theme::default();
    assert_eq!(load_color(&t, 0), Color::Green);
    assert_eq!(load_color(&t, 4999), Color::Green);
    assert_eq!(load_color(&t, 5000), Color::Yellow);
    assert_eq!(load_color(&t, 7999), Color::Yellow);
    assert_eq!(load_color(&t, 8000), Color::Red);
    assert_eq!(load_color(&t, 10000), Color::Red);
}

#[test]
fn viewport_scrolls_just_enough() {
    assert_eq!(viewport(0, 5, 20), (0, 5));
    assert_eq!(viewport(4, 5, 20), (0, 5));
    assert_eq!(viewport(5, 5, 20), (1, 6));
    assert_eq!(viewport(19, 5, 20), (15, 20));
    assert_eq!(viewport(0, 5, 3), (0, 3));
    assert_eq!(viewport(0, 0, 3), (1, 1));
}

fn process(pid: u32) -> ProcessInfo {
    ProcessInfo {
        pid,
        name: "p".to_string(),
        cpu_usage: 0,
        memory: 0,
        nice: None,
        ppid: None,
        group: None,
    }
}

#[test]
fn selected_row_skips_headers() {
    let ps = vec![process(10), process(20)];
    let rows = vec![
        ProcessRow::Header { label: "g".to_string(), count: 2, total_cpu: 0, total_mem: 0 },
        ProcessRow::Process { index: 1, depth: 1, has_children: false },
        ProcessRow::Process { index: 0, depth: 1, has_children: false },
    ];
    assert_eq!(selected_row_index(&rows, &ps, Some(10)), 2);
    assert_eq!(selected_row_index(&rows, &ps, Some(20)), 1);
    assert_eq!(selected_row_index(&rows, &ps, Some(30)), 0);
    assert_eq!(selected_row_index(&rows, &ps, None), 0);
}

#[test]
fn footer_shows_prompt_filter_or_help() {
    assert_eq!(
        footer_text(Some(42), &None),
        "Kill PID 42? y = confirm, any other key = cancel"
    );
    assert_eq!(
        footer_text(None, &Some("fire".to_string())),
        "Filter: fire█  Enter: apply  Esc: cancel"
    );
    assert_eq!(
        footer_text(None, &None),
        "q: quit  j/k: select  c/m/p/n: sort  /: filter  x: kill  [ ]: nice  t: tree  h/l: fold"
    );
    assert_eq!(
        footer_text(Some(0), &Some("x".to_string())),
        "Kill PID 0? y = confirm, any other key = cancel"
    );
}

#[test]
fn table_title_texts() {
    assert_eq!(
        table_title(SortKey::Cpu, true, 12, 12, "", ProcessView::Flat),
        "Processes (CPU% ↓, 12 total)"
    );
    assert_eq!(
        table_title(SortKey::Name, false, 2, 130, "fire", ProcessView::Tree),
        "Processes (NAME ↑, 2/130 matching \"fire\")"
    );
    assert_eq!(
        table_title(SortKey::Pid, false, 7, 7, "", ProcessView::Tree),
        "Processes (PID ↑, 7 total) · tree"
    );
    assert_eq!(
        table_title(SortKey::Memory, true, 9, 7, "", ProcessView::Grouped),
        "Processes (MEM ↓, 9 total) · grouped"
    );
}

#[test]
fn tree_cells_indent_and_mark_folds() {
    assert_eq!(tree_cell(0, false, false, "init"), "  init");
    assert_eq!(tree_cell(1, true, false, "sshd"), "  ▾ sshd");
    assert_eq!(tree_cell(2, true, true, "bash"), "    ▸ bash");
    assert_eq!(tree_cell(0, false, true, ""), "  ");
}

#[test]
fn core_samples_take_the_latest_entries() {
    let history = vec![vec![1, 2], vec![3], vec![5, 6], vec![7, 8]];
    assert_eq!(core_samples(&history, 0, 2), vec![5, 7]);
    assert_eq!(core_samples(&history, 1, 3), vec![0, 6, 8]);
    assert_eq!(core_samples(&history, 0, 10), vec![1, 3, 5, 7]);
    assert_eq!(core_samples(&history, 0, 0), Vec::<u32>::new());
    assert_eq!(core_samples(&history, 5, 1), vec![0]);
}

#[test]
fn left_panels_are_capped() {
    assert_eq!(left_panel_heights(4, 0, false, 2), (8, 0, 5));
    assert_eq!(left_panel_heights(64, 9, false, 20), (12, 7, 9));
    assert_eq!(left_panel_heights(0, 0, true, 0), (4, 3, 3));
    assert_eq!(left_panel_heights(8, 1, true, 6), (12, 4, 9));
}
