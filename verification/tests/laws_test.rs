use ftop::parsers::parse_meminfo;
use ftop::process_controller::{kill_outcome, signal_tree_outcome, ProcessController, ProcessError};
use ftop::system_interface::{MockSystem, SystemError, SystemInterface};
use ftop::system_interface::SignalKind;

#[test]
fn test_invalid_pid_error() {
    // A system without a /proc entry for the pid.
    let system = MockSystem::new();
    let result = ProcessController::get_process_status_with(&system, -1);
    assert!(result.is_err());
}

#[test]
fn test_nonexistent_pid() {
    let system = MockSystem::new();
    let result = ProcessController::get_process_status_with(&system, 999999);
    assert!(matches!(result, Err(ProcessError::ProcessNotFound(_))));
}

#[test]
fn mock_reads_back_the_last_setup_of_a_path() {
    let system = MockSystem::new()
        .with_file("/a", "first")
        .with_file("/b", "other")
        .with_file("/a", "second");
    assert_eq!(system.read_file("/a").unwrap(), "second");
    assert_eq!(system.read_file("/b").unwrap(), "other");
    assert!(matches!(system.read_file("/c"), Err(SystemError::NotFound(p)) if p == "/c"));
    let dirs = MockSystem::new()
        .with_dir("/proc", vec!["1".to_string()])
        .with_dir_error("/proc", SystemError::Io("gone".to_string()));
    assert!(matches!(dirs.read_dir("/proc"), Err(SystemError::Io(m)) if m == "gone"));
    assert!(matches!(dirs.read_dir("/sys"), Err(SystemError::NotFound(_))));
}

#[test]
fn mock_signals_match_pid_and_signal() {
    let system = MockSystem::new().with_signal_result(
        5,
        SignalKind::Stop,
        Err(SystemError::PermissionDenied("pid 5".to_string())),
    );
    assert!(system.send_signal(5, SignalKind::Stop).is_err());
    assert!(system.send_signal(5, SignalKind::Cont).is_ok());
    assert!(system.send_signal(6, SignalKind::Stop).is_ok());
    let killing = MockSystem::new().with_signal_result(
        8,
        SignalKind::Kill,
        Err(SystemError::NotFound("pid 8".to_string())),
    );
    assert!(matches!(killing.kill_process(8), Err(SystemError::NotFound(_))));
    assert!(killing.kill_process(9).is_ok());
}

#[test]
fn suspend_and_resume_send_stop_and_continue() {
    let system = MockSystem::new()
        .with_dir("/proc", vec!["30".to_string()])
        .with_file("/proc/30/stat", "30 (x) S 1 1 1 1 1 0 0 0 0 0 0 0 0 0 20 0 1 0")
        .with_signal_result(30, SignalKind::Cont, Err(SystemError::PermissionDenied("pid 30".to_string())));
    assert!(ProcessController::suspend_process_with(&system, 30).is_ok());
    assert!(matches!(
        ProcessController::resume_process_with(&system, 30),
        Err(ProcessError::PermissionDenied(30))
    ));
}

fn denied() -> Result<(), SystemError> {
    Err(SystemError::PermissionDenied("x".to_string()))
}

fn gone() -> Result<(), SystemError> {
    Err(SystemError::NotFound("x".to_string()))
}

#[test]
fn signalling_a_tree_succeeds_only_without_refusals() {
    assert!(signal_tree_outcome(5, &vec![Ok(()), gone()]).is_ok());
    assert!(matches!(
        signal_tree_outcome(5, &vec![denied(), Ok(())]),
        Err(ProcessError::PermissionDenied(5))
    ));
    assert!(matches!(
        signal_tree_outcome(5, &vec![gone()]),
        Err(ProcessError::ProcessNotFound(5))
    ));
    assert!(matches!(
        signal_tree_outcome(5, &vec![]),
        Err(ProcessError::ProcessNotFound(5))
    ));
    assert!(matches!(
        signal_tree_outcome(5, &vec![Ok(()), Err(SystemError::Io("boom".to_string())), denied()]),
        Err(ProcessError::StatusReadError(m)) if m == "boom"
    ));
    assert!(matches!(
        signal_tree_outcome(5, &vec![Err(SystemError::InvalidData("bad".to_string()))]),
        Err(ProcessError::InvalidStatus(m)) if m == "bad"
    ));
}

#[test]
fn killing_a_tree_succeeds_only_without_refusals() {
    assert_eq!(
        kill_outcome(5, &vec![Ok(()), Ok(())]),
        (true, "Killed PID 5 (and 1 child proc(s))".to_string())
    );
    assert_eq!(
        kill_outcome(5, &vec![denied()]),
        (false, "Permission denied for PID 5".to_string())
    );
    assert_eq!(kill_outcome(5, &vec![]), (true, "PID 5 no longer exists".to_string()));
    assert_eq!(kill_outcome(5, &vec![gone()]), (true, "PID 5 no longer exists".to_string()));
    assert_eq!(
        kill_outcome(5, &vec![Ok(()), denied()]),
        (false, "Killed 1 proc(s), denied 1 for PID 5".to_string())
    );
}

#[test]
fn meminfo_ignores_lines_that_set_no_figure() {
    let base = "MemTotal: 1000 kB\nMemFree: 200 kB\n";
    let with_extra = "Foo: 7 kB\nMemTotal: 1000 kB\ngarbage\nMemFree: 200 kB\nHugePages: x\n";
    let a = parse_meminfo(base).unwrap();
    let b = parse_meminfo(with_extra).unwrap();
    assert_eq!((a.total, a.free), (1_024_000, 204_800));
    assert_eq!(
        (a.total, a.free, a.buffers, a.cached, a.sreclaimable, a.shmem, a.available),
        (b.total, b.free, b.buffers, b.cached, b.sreclaimable, b.shmem, b.available)
    );
}

#[test]
fn meminfo_ignores_appended_and_carriage_return_lines() {
    let content = "MemTotal: 1000 kB\r\nMemFree: 200 kB";
    let a = parse_meminfo(content).unwrap();
    let b = parse_meminfo(&format!("{}\n{}", content, "Bogus: 9 kB\r")).unwrap();
    let c = parse_meminfo(&format!("{}\n{}", "junk line\r", content)).unwrap();
    for m in [&b, &c] {
        assert_eq!(
            (a.total, a.free, a.buffers, a.cached, a.sreclaimable, a.shmem, a.available),
            (m.total, m.free, m.buffers, m.cached, m.sreclaimable, m.shmem, m.available)
        );
    }
    assert_eq!((a.total, a.free), (1_024_000, 204_800));
}
