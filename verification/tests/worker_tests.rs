use retomar_ambiente::desktop::executable_from_exec;
use retomar_ambiente::interface::desktop_quote;
use retomar_ambiente::restore::{restore_needed, RestoreState, WorkerStep, RESTORE_PASSES};
use retomar_ambiente::session::{timestamp_or_zero, SessionSnapshot, WindowSnapshot};

fn window(desktop_id: &str) -> WindowSnapshot {
    WindowSnapshot { desktop_id: desktop_id.to_string(), ..WindowSnapshot::default() }
}

#[test]
fn timestamp_is_the_reading_or_zero() {
    assert_eq!(timestamp_or_zero(Some(1_700_000_000)), 1_700_000_000);
    assert_eq!(timestamp_or_zero(Some(0)), 0);
    assert_eq!(timestamp_or_zero(None), 0);
}

#[test]
fn restore_is_needed_only_with_windows() {
    assert!(!restore_needed(&None));
    assert!(!restore_needed(&Some(SessionSnapshot::default())));
    let s = SessionSnapshot { session_id: "s".into(), saved_at: 1, windows: vec![window("a.desktop")] };
    assert!(restore_needed(&Some(s)));
}

#[test]
fn worker_stops_when_done_or_after_the_last_pass() {
    let mut s = RestoreState::new_restore(vec![], vec![window("a.desktop")]);
    assert_eq!(s.after_pass(0), WorkerStep::Wait);
    assert_eq!(s.after_pass(RESTORE_PASSES - 2), WorkerStep::Wait);
    assert_eq!(s.after_pass(RESTORE_PASSES - 1), WorkerStep::Stop);
    s.restore_targets[0].assigned = true;
    assert_eq!(s.after_pass(0), WorkerStep::Stop);
    let empty = RestoreState::new_restore(vec![], vec![]);
    assert_eq!(empty.after_pass(3), WorkerStep::Wait);
    assert_eq!(RESTORE_PASSES, 100);
}

#[test]
fn quoted_path_reads_back_as_its_file_name() {
    for (path, name) in [
        ("/home/u/.local/bin/retomar-ambiente", Some("retomar-ambiente")),
        ("/opt/my apps/\"odd\"\\bin", Some("\"odd\"\\bin")),
        ("/usr/bin/..", None),
        ("", None),
    ] {
        let exec = format!("{} --autostart", desktop_quote(path));
        assert_eq!(executable_from_exec(&exec).as_deref(), name, "{exec}");
    }
}
