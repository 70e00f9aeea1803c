use ftop::process_controller::{
    parse_parent_pid_from_stat, read_ppid_map_with, ProcessController, ProcessError,
};
use ftop::system_interface::{MockSystem, SystemError};
use ftop::system_interface::SignalKind;

#[test]
fn parse_process_status_parses_stopped_and_running() {
    let stopped = "Name:\ttest\nState:\tT (stopped)\n";
    let running = "Name:\ttest\nState:\tR (running)\n";

    assert!(ProcessController::parse_process_status(stopped).unwrap());
    assert!(!ProcessController::parse_process_status(running).unwrap());
}

#[test]
fn parse_process_status_handles_invalid_input() {
    let bad = "Name: foo\n";
    match ProcessController::parse_process_status(bad) {
        Err(ProcessError::InvalidStatus(_)) => {}
        other => panic!("expected InvalidStatus, got {:?}", other),
    }
}

#[test]
fn parse_parent_pid_from_stat_handles_various_inputs() {
    let stat = "1234 (bash) S 42 1 1 1 1 0 0 0 0 0 0 0 0 0 20 0 1 0";
    assert_eq!(parse_parent_pid_from_stat(stat), Some(42));
    assert_eq!(parse_parent_pid_from_stat(""), None);
    assert_eq!(parse_parent_pid_from_stat("1 (x)"), None);
}

#[test]
fn mock_status_and_file_not_found_are_deterministic() {
    // Prevents flaky tests by avoiding live /proc reads.
    let system = MockSystem::new()
        .with_file("/proc/10/status", "Name:\ttest\nState:\tT (stopped)\n")
        .with_file_error(
            "/proc/11/status",
            SystemError::NotFound("/proc/11/status".to_string()),
        )
        .with_file_error(
            "/proc/12/status",
            SystemError::InvalidData("corrupted status payload".to_string()),
        );

    assert_eq!(ProcessController::get_process_status_with(&system, 10).unwrap(), true);
    assert!(matches!(
        ProcessController::get_process_status_with(&system, 11),
        Err(ProcessError::ProcessNotFound(11))
    ));
    assert!(matches!(
        ProcessController::get_process_status_with(&system, 12),
        Err(ProcessError::InvalidStatus(_))
    ));
}

#[test]
fn mock_send_signal_reports_permission_denied() {
    // Prevents silently treating EPERM as success when the caller lacks privileges.
    let system = MockSystem::new()
        .with_dir("/proc", vec!["21".to_string()])
        .with_file("/proc/21/stat", "21 (worker) S 1 1 1 1 1 0 0 0 0 0 0 0 0 0 20 0 1 0")
        .with_signal_result(
            21,
            SignalKind::Kill,
            Err(SystemError::PermissionDenied("pid 21".to_string())),
        );

    let result = ProcessController::send_signal_tree_with(&system, 21, SignalKind::Kill);
    assert!(matches!(result, Err(ProcessError::PermissionDenied(21))));
}

#[test]
fn mock_ppid_map_skips_missing_stat_files() {
    // Prevents a disappearing process from crashing tree construction.
    let system = MockSystem::new()
        .with_dir("/proc", vec!["100".to_string(), "101".to_string()])
        .with_file("/proc/100/stat", "100 (parent) S 1 1 1 1 1 0 0 0 0 0 0 0 0 0 20 0 1 0")
        .with_file_error(
            "/proc/101/stat",
            SystemError::NotFound("/proc/101/stat".to_string()),
        );

    let map = read_ppid_map_with(&system);
    assert_eq!(map.get(&1).unwrap(), &vec![100]);
    assert!(!map.values().any(|children| children.contains(&101)));
}
