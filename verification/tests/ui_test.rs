use ftop::process_controller::ProcessError;
use ftop::ui::{
    bottom_text, clamp_view, filter_processes, match_rows, handle_key, help_text, limit_rows, on_kill_done,
    on_refresh, on_resume_check, on_signal_done, on_suspend_check, pending_lines, popup_rect,
    process_header, scan_args, selected_pid, too_small, top_panel_height, AppState, Command,
    Key, KeyPress, PendingAction, Step,
};
use ftop::tree::ProcLink;
use ftop::SortKey;

fn rows(pids: &[i32]) -> Vec<ProcLink> {
    pids.iter().map(|&pid| ProcLink { pid, parent_pid: None }).collect()
}

fn press(key: Key) -> KeyPress {
    KeyPress { key, ctrl: false, alt: false }
}

fn ch(c: char) -> KeyPress {
    press(Key::Char(c))
}

fn nothing() -> Step {
    Step { command: Command::Nothing, status_ms: None }
}

#[test]
fn new_state_starts_flat_by_cpu_with_a_refresh_due() {
    let s = AppState::default();
    assert_eq!(s.sort_key, SortKey::Cpu);
    assert!(!s.tree_view);
    assert!(!s.search_mode);
    assert!(s.force_refresh);
    assert!(s.locked_pid.is_none());
    assert!(s.pending_action.is_none());
    assert_eq!(s.selected_index, 0);
}

#[test]
fn typing_a_search_and_entering_it_sets_the_trimmed_filter() {
    let mut s = AppState::default();
    let pids = rows(&[1, 2, 3]);
    s.force_refresh = false;
    s.selected_index = 2;
    assert_eq!(handle_key(&mut s, ch('/'), &pids), nothing());
    assert!(s.search_mode);
    for c in [' ', 'f', 'o', 'x', 'x'] {
        handle_key(&mut s, ch(c), &pids);
    }
    handle_key(&mut s, press(Key::Backspace), &pids);
    handle_key(&mut s, ch(' '), &pids);
    assert_eq!(s.search_input, " fox ");
    // Keys with Ctrl or Alt type nothing; 'q' is just a letter here.
    handle_key(&mut s, KeyPress { key: Key::Char('z'), ctrl: true, alt: false }, &pids);
    handle_key(&mut s, KeyPress { key: Key::Char('z'), ctrl: false, alt: true }, &pids);
    assert_eq!(s.search_input, " fox ");
    assert_eq!(handle_key(&mut s, press(Key::Enter), &pids), nothing());
    assert_eq!(s.search_query, "fox");
    assert!(!s.search_mode);
    assert_eq!(s.search_input, "");
    assert_eq!(s.selected_index, 0);
    assert!(s.force_refresh);
}

#[test]
fn esc_leaves_search_and_ctrl_u_clears_the_input() {
    let mut s = AppState::default();
    let pids = rows(&[]);
    s.search_query = "old".to_string();
    handle_key(&mut s, ch('/'), &pids);
    assert_eq!(s.search_input, "old");
    handle_key(&mut s, KeyPress { key: Key::Char('u'), ctrl: true, alt: false }, &pids);
    assert_eq!(s.search_input, "");
    handle_key(&mut s, ch('n'), &pids);
    handle_key(&mut s, press(Key::Esc), &pids);
    assert!(!s.search_mode);
    assert_eq!(s.search_query, "old");
    assert_eq!(s.search_input, "");
}

#[test]
fn q_quits_and_sort_keys_reset_the_scroll() {
    let mut s = AppState::default();
    let pids = rows(&[5]);
    assert_eq!(handle_key(&mut s, ch('Q'), &pids).command, Command::Quit);
    s.scroll_offset = 4;
    s.force_refresh = false;
    handle_key(&mut s, ch('m'), &pids);
    assert_eq!(s.sort_key, SortKey::Mem);
    assert_eq!(s.scroll_offset, 0);
    assert!(s.force_refresh);
    handle_key(&mut s, ch('P'), &pids);
    assert_eq!(s.sort_key, SortKey::Power);
    handle_key(&mut s, ch('c'), &pids);
    assert_eq!(s.sort_key, SortKey::Cpu);
    s.force_refresh = false;
    handle_key(&mut s, ch('r'), &pids);
    assert!(s.force_refresh);
}

#[test]
fn t_toggles_the_tree_and_starts_from_the_top() {
    let mut s = AppState::default();
    s.selected_index = 3;
    s.scroll_offset = 2;
    handle_key(&mut s, ch('t'), &rows(&[1, 2, 3, 4]));
    assert!(s.tree_view);
    assert_eq!((s.selected_index, s.scroll_offset), (0, 0));
    handle_key(&mut s, ch('T'), &rows(&[1, 2, 3, 4]));
    assert!(!s.tree_view);
}

#[test]
fn moving_keys_saturate() {
    let mut s = AppState::default();
    let pids = rows(&[1, 2]);
    handle_key(&mut s, press(Key::Up), &pids);
    assert_eq!(s.selected_index, 0);
    handle_key(&mut s, press(Key::PageDown), &pids);
    assert_eq!(s.selected_index, 20);
    handle_key(&mut s, ch('k'), &pids);
    assert_eq!(s.selected_index, 19);
    handle_key(&mut s, press(Key::PageUp), &pids);
    assert_eq!(s.selected_index, 0);
    handle_key(&mut s, press(Key::End), &pids);
    assert_eq!(s.selected_index, usize::MAX / 2);
    handle_key(&mut s, press(Key::Home), &pids);
    assert_eq!(s.selected_index, 0);
    s.selected_index = usize::MAX;
    handle_key(&mut s, press(Key::Down), &pids);
    assert_eq!(s.selected_index, usize::MAX);
}

#[test]
fn enter_locks_and_unlocks_the_selected_process() {
    let mut s = AppState::default();
    let pids = rows(&[10, 20, 30]);
    s.selected_index = 7;
    let step = handle_key(&mut s, press(Key::Enter), &pids);
    assert_eq!(step, Step { command: Command::Nothing, status_ms: Some(2000) });
    assert_eq!(s.selected_index, 2);
    assert_eq!(s.locked_pid, Some(30));
    assert_eq!(s.status_message, "Locked on PID 30");
    // Moving keys do nothing while locked.
    handle_key(&mut s, press(Key::Up), &pids);
    handle_key(&mut s, ch('j'), &pids);
    assert_eq!(s.selected_index, 2);
    handle_key(&mut s, press(Key::Enter), &pids);
    assert_eq!(s.locked_pid, None);
    assert_eq!(s.status_message, "Selection unlocked");
    let mut e = AppState::default();
    handle_key(&mut e, press(Key::Enter), &rows(&[]));
    assert_eq!(e.status_message, "No process to lock");
}

#[test]
fn kill_waits_for_confirmation() {
    let mut s = AppState::default();
    let pids = rows(&[41, 42]);
    s.selected_index = 1;
    let step = handle_key(&mut s, ch('x'), &pids);
    assert_eq!(step, Step { command: Command::Nothing, status_ms: Some(8000) });
    let warning = "This will terminate PID 42 and its children using SIGKILL. Press Enter to confirm, Esc to cancel";
    assert_eq!(s.status_message, format!("Confirm: {}", warning));
    match &s.pending_action {
        Some(PendingAction::Kill { pid, msg }) => {
            assert_eq!(*pid, 42);
            assert_eq!(msg, warning);
        }
        _ => panic!("expected a pending kill"),
    }
    let (title, msg) = pending_lines(&s).unwrap();
    assert_eq!(title, "Confirm kill PID 42");
    assert_eq!(msg, warning);
    // Other keys do nothing while the action waits.
    assert_eq!(handle_key(&mut s, ch('q'), &pids), nothing());
    assert_eq!(
        handle_key(&mut s, press(Key::Enter), &pids),
        Step { command: Command::Kill(42), status_ms: None }
    );
    assert!(s.pending_action.is_none());
    assert!(pending_lines(&s).is_none());
}

#[test]
fn killing_a_child_process_warns_that_it_is_a_child() {
    let mut s = AppState::default();
    let shown = vec![
        ProcLink { pid: 1, parent_pid: None },
        ProcLink { pid: 42, parent_pid: Some(7) },
        ProcLink { pid: 43, parent_pid: Some(0) },
    ];
    s.selected_index = 1;
    handle_key(&mut s, ch('x'), &shown);
    let warning = "This will terminate PID 42 and its children using SIGKILL; this is a child process do u want to kill it. Press Enter to confirm, Esc to cancel";
    assert_eq!(s.status_message, format!("Confirm: {}", warning));
    match &s.pending_action {
        Some(PendingAction::Kill { pid, msg }) => {
            assert_eq!(*pid, 42);
            assert!(msg.contains("this is a child process do u want to kill it"));
        }
        _ => panic!("expected a pending kill"),
    }
    // A parent pid of zero is no parent.
    let mut t = AppState::default();
    t.selected_index = 2;
    handle_key(&mut t, ch('x'), &shown);
    assert!(!t.status_message.contains("child process"));
}

#[test]
fn esc_cancels_a_pending_action() {
    let mut s = AppState::default();
    let pids = rows(&[7]);
    handle_key(&mut s, ch('X'), &pids);
    let step = handle_key(&mut s, press(Key::Esc), &pids);
    assert_eq!(step, Step { command: Command::Nothing, status_ms: Some(1000) });
    assert!(s.pending_action.is_none());
    assert_eq!(s.status_message, "Action cancelled");
}

#[test]
fn actions_without_rows_report_no_selection() {
    let mut s = AppState::default();
    for c in ['x', 's', 'w'] {
        let step = handle_key(&mut s, ch(c), &rows(&[]));
        assert_eq!(step, Step { command: Command::Nothing, status_ms: Some(2000) });
        assert_eq!(s.status_message, "No process selected");
    }
}

#[test]
fn suspend_checks_for_conflicts_first() {
    let mut s = AppState::default();
    let pids = rows(&[3, 4]);
    s.selected_index = 9;
    assert_eq!(handle_key(&mut s, ch('s'), &pids).command, Command::CheckSuspend(4));
    assert_eq!(s.selected_index, 1);
    // No conflict: go ahead.
    assert_eq!(on_suspend_check(&mut s, 4, None).command, Command::Suspend(4));
    // A conflict: ask first.
    let step = on_suspend_check(&mut s, 4, Some("PID 4 has parent PID 1".to_string()));
    assert_eq!(step, Step { command: Command::Nothing, status_ms: Some(8000) });
    assert_eq!(
        s.status_message,
        "Confirm: PID 4 has parent PID 1. Press Enter to proceed, Esc to cancel"
    );
    assert_eq!(pending_lines(&s).unwrap().0, "Confirm suspend PID 4");
    assert_eq!(handle_key(&mut s, press(Key::Enter), &pids).command, Command::Suspend(4));
}

#[test]
fn resume_checks_for_conflicts_first() {
    let mut s = AppState::default();
    let pids = rows(&[3, 4]);
    assert_eq!(handle_key(&mut s, ch('W'), &pids).command, Command::CheckResume(3));
    assert_eq!(on_resume_check(&mut s, 3, None).command, Command::Resume(3));
    on_resume_check(&mut s, 3, Some("ancestor PID 2 is stopped".to_string()));
    assert_eq!(pending_lines(&s).unwrap().0, "Confirm resume PID 3");
    assert_eq!(handle_key(&mut s, press(Key::Enter), &pids).command, Command::Resume(3));
}

#[test]
fn signal_answers_become_status_messages() {
    let mut s = AppState::default();
    s.force_refresh = false;
    assert_eq!(on_signal_done(&mut s, false, 12, &Ok(())), 2000);
    assert_eq!(s.status_message, "Suspended PID 12");
    assert!(s.force_refresh);
    assert_eq!(on_signal_done(&mut s, true, 12, &Ok(())), 2000);
    assert_eq!(s.status_message, "Resumed PID 12");
    s.force_refresh = false;
    assert_eq!(on_signal_done(&mut s, false, 12, &Err(ProcessError::PermissionDenied(12))), 2800);
    assert_eq!(s.status_message, "Failed to suspend: Permission denied for PID 12");
    assert!(!s.force_refresh);
    on_signal_done(&mut s, true, 13, &Err(ProcessError::ProcessNotFound(13)));
    assert_eq!(s.status_message, "Failed to resume: Process 13 not found");
}

#[test]
fn kill_answers_become_status_messages() {
    let mut s = AppState::default();
    s.force_refresh = false;
    assert_eq!(on_kill_done(&mut s, true, "Killed PID 5 (and 0 child proc(s))".to_string()), 2000);
    assert_eq!(s.status_message, "Killed PID 5 (and 0 child proc(s))");
    assert!(s.force_refresh);
    assert_eq!(on_kill_done(&mut s, false, "Permission denied for PID 5".to_string()), 2800);
}

#[test]
fn a_locked_selection_follows_its_process() {
    let mut s = AppState::default();
    s.locked_pid = Some(30);
    s.selected_index = 0;
    assert_eq!(on_refresh(&mut s, &vec![10, 30, 20]), None);
    assert_eq!(s.selected_index, 1);
    assert!(!s.force_refresh);
    assert_eq!(on_refresh(&mut s, &vec![10, 20]), Some(2000));
    assert_eq!(s.locked_pid, None);
    assert_eq!(s.status_message, "Locked PID 30 exited");
}

#[test]
fn clamping_keeps_the_selection_on_screen() {
    let mut s = AppState::default();
    s.selected_index = 50;
    s.scroll_offset = 0;
    clamp_view(&mut s, 30, 10);
    assert_eq!((s.selected_index, s.scroll_offset), (29, 20));
    s.selected_index = 5;
    clamp_view(&mut s, 30, 10);
    assert_eq!((s.selected_index, s.scroll_offset), (5, 5));
    s.selected_index = 3;
    s.scroll_offset = 100;
    clamp_view(&mut s, 8, 10);
    assert_eq!((s.selected_index, s.scroll_offset), (3, 0));
    clamp_view(&mut s, 0, 10);
    assert_eq!((s.selected_index, s.scroll_offset), (0, 0));
}

#[test]
fn process_header_lists_counts_filter_lock_and_selection() {
    let mut s = AppState::default();
    assert_eq!(
        process_header(&s, 120, 40, None),
        "Processes: 120 total | Showing 40 by CPU | FLAT"
    );
    s.tree_view = true;
    s.sort_key = SortKey::Power;
    s.search_query = "fox".to_string();
    s.locked_pid = Some(7);
    assert_eq!(
        process_header(&s, 3, 1, Some((7, Some(true)))),
        "Processes: 3 total | Showing 1 by PWR* | TREE | /fox | LOCK PID 7 | SELECTED: 7 (STOPPED)"
    );
    s.sort_key = SortKey::Mem;
    assert_eq!(
        process_header(&s, 3, 1, Some((7, None))),
        "Processes: 3 total | Showing 1 by MEM | TREE | /fox | LOCK PID 7 | SELECTED: 7 (?)"
    );
    let t = AppState::default();
    assert_eq!(
        process_header(&t, 1, 1, Some((9, Some(false)))),
        "Processes: 1 total | Showing 1 by CPU | FLAT | SELECTED: 9 (RUNNING)"
    );
}

#[test]
fn selected_pid_is_the_row_under_the_selection() {
    let mut s = AppState::default();
    s.selected_index = 1;
    assert_eq!(selected_pid(&s, &vec![4, 5]), Some(5));
    s.selected_index = 2;
    assert_eq!(selected_pid(&s, &vec![4, 5]), None);
}

#[test]
fn bottom_bar_shows_search_filter_or_status() {
    let mut s = AppState::default();
    assert_eq!(bottom_text(&s, true), "");
    s.status_message = "Suspended PID 3".to_string();
    assert_eq!(bottom_text(&s, true), "Status   : Suspended PID 3");
    assert_eq!(bottom_text(&s, false), "");
    s.search_query = "fox".to_string();
    assert_eq!(
        bottom_text(&s, true),
        "Filter   : fox  (press '/' to edit, Enter on empty to clear)"
    );
    s.search_mode = true;
    s.search_input = "fo".to_string();
    assert_eq!(bottom_text(&s, true), "Search   : fo");
}

#[test]
fn help_line_shows_the_range_when_the_list_scrolls() {
    let keys = "q:quit  /:search  t:tree  s:sleep  w:wake  Enter:lock/unlock  ↑/↓ or j/k:move  PgUp/PgDn:page  Home/End  x:kill  c/m/p:sort  r:refresh";
    assert_eq!(help_text(5, 0, 10), keys);
    assert_eq!(help_text(30, 20, 10), format!("{}  [21-30/30]", keys));
    assert_eq!(help_text(30, 0, 10), format!("{}  [1-10/30]", keys));
}

#[test]
fn layout_figures() {
    assert!(too_small(39, 30));
    assert!(too_small(100, 7));
    assert!(!too_small(40, 8));
    assert!(!too_small(72, 18));
    assert_eq!(top_panel_height(120, 8), 8);
    assert_eq!(top_panel_height(120, 32), 15);
    assert_eq!(top_panel_height(80, 0), 8);
    assert_eq!(popup_rect(0, 0, 100, 40), (25, 16, 50, 7));
    assert_eq!(popup_rect(0, 0, 2000, 5), (672, 0, 655, 7));
}

#[test]
fn command_line_options() {
    let args: Vec<String> = ["ftop", "-r", "0.5", "--top", "20", "-n", "x", "--refresh", "2", "extra", "-n"]
        .iter()
        .map(|s| s.to_string())
        .collect();
    let scan = scan_args(&args);
    assert_eq!(scan.refresh, vec!["0.5".to_string(), "2".to_string()]);
    assert_eq!(scan.top, 20);
    let none = scan_args(&vec!["ftop".to_string()]);
    assert!(none.refresh.is_empty());
    assert_eq!(none.top, 0);
}

#[test]
fn search_matches_pid_or_name_ignoring_case() {
    let pids = vec![101, 202, 303];
    let names = vec!["Firefox".to_string(), "bash".to_string(), "FIRE-2".to_string()];
    assert_eq!(filter_processes(&pids, &names, "  FIRE "), vec![0, 2]);
    assert_eq!(filter_processes(&pids, &names, "02"), vec![1]);
    assert_eq!(filter_processes(&pids, &names, "   "), vec![0, 1, 2]);
    assert_eq!(filter_processes(&pids, &names, "zsh"), Vec::<usize>::new());
}

#[test]
fn top_limits_the_rows_shown() {
    assert_eq!(limit_rows(50, 0), 50);
    assert_eq!(limit_rows(50, 20), 20);
    assert_eq!(limit_rows(5, 20), 5);
}

#[test]
fn match_rows_compares_lowercased_names_and_pids() {
    let pids = vec![101, 202, 303];
    let lnames = vec!["firefox".to_string(), "bash".to_string(), "fire-2".to_string()];
    assert_eq!(match_rows(&pids, &lnames, "fire"), vec![0, 2]);
    assert_eq!(match_rows(&pids, &lnames, "FIRE"), Vec::<usize>::new());
    assert_eq!(match_rows(&pids, &lnames, "02"), vec![1]);
    assert_eq!(match_rows(&pids, &lnames, ""), vec![0, 1, 2]);
}
