use retomar_ambiente::agent::{persist_snapshot, OutputMemory, OutputRecord, ToplevelRecord};
use retomar_ambiente::config::Config;
use retomar_ambiente::desktop::{parse_desktop_file, DesktopApp};
use retomar_ambiente::session::{
    load_restore_snapshot, needs_rotation, parse_u32_array, parse_u32_array_in, session_id_from, unix_timestamp,
    SessionSnapshot, WindowSnapshot,
};

fn window(desktop_id: &str, title: &str) -> WindowSnapshot {
    WindowSnapshot {
        desktop_id: desktop_id.to_string(),
        app_id: desktop_id.trim_end_matches(".desktop").to_string(),
        title: title.to_string(),
        output: None,
        output_description: None,
        output_make: None,
        output_model: None,
        maximized: false,
        minimized: false,
        fullscreen: false,
    }
}

fn config(selected: &[&str]) -> Config {
    Config { selected_apps: selected.iter().map(|s| s.to_string()).collect(), ask_on_login: true }
}

fn snapshot(session: &str, windows: Vec<WindowSnapshot>) -> SessionSnapshot {
    SessionSnapshot { session_id: session.to_string(), saved_at: 10, windows }
}

#[test]
fn restorable_ids_follow_the_selection_order() {
    let snap = snapshot("s1", vec![window("code.desktop", "a"), window("firefox.desktop", "b"), window("other.desktop", "c")]);
    let cfg = config(&["firefox.desktop", "google-chrome.desktop", "code.desktop"]);
    assert_eq!(snap.restorable_desktop_ids(&cfg), vec!["firefox.desktop".to_string(), "code.desktop".to_string()]);
}

#[test]
fn filtering_keeps_only_selected_windows_in_order() {
    let snap = snapshot("s1", vec![window("code.desktop", "a"), window("other.desktop", "x"), window("code.desktop", "b")]);
    let filtered = snap.filtered_for_config(&config(&["code.desktop"]));
    assert_eq!(filtered.session_id, "s1");
    assert_eq!(filtered.saved_at, 10);
    let titles: Vec<&str> = filtered.windows.iter().map(|w| w.title.as_str()).collect();
    assert_eq!(titles, vec!["a", "b"]);
    let again = filtered.filtered_for_config(&config(&["code.desktop"]));
    assert_eq!(again.windows.len(), 2);
}

#[test]
fn current_snapshot_of_another_session_is_offered() {
    let cfg = config(&["code.desktop"]);
    let current = snapshot("old-session", vec![window("code.desktop", "cur"), window("x.desktop", "x")]);
    let previous = snapshot("older", vec![window("code.desktop", "prev")]);
    let r = load_restore_snapshot(&cfg, &"new-session".to_string(), Some(current), Some(previous)).unwrap();
    assert_eq!(r.session_id, "old-session");
    assert_eq!(r.windows.len(), 1);
    assert_eq!(r.windows[0].title, "cur");
}

#[test]
fn current_snapshot_of_this_session_falls_back_to_previous() {
    let cfg = config(&["code.desktop"]);
    let current = snapshot("this", vec![window("code.desktop", "cur")]);
    let previous = snapshot("older", vec![window("code.desktop", "prev")]);
    let r = load_restore_snapshot(&cfg, &"this".to_string(), Some(current), Some(previous)).unwrap();
    assert_eq!(r.windows[0].title, "prev");
    let none = load_restore_snapshot(&cfg, &"this".to_string(), Some(snapshot("this", vec![])), None);
    assert!(none.is_none());
    let only_prev = load_restore_snapshot(&cfg, &"this".to_string(), None, Some(snapshot("p", vec![])));
    assert_eq!(only_prev.unwrap().session_id, "p");
}

#[test]
fn rotation_only_for_snapshots_of_other_sessions() {
    assert!(needs_rotation(&Some(snapshot("a", vec![])), &"b".to_string()));
    assert!(!needs_rotation(&Some(snapshot("b", vec![])), &"b".to_string()));
    assert!(!needs_rotation(&None, &"b".to_string()));
}

#[test]
fn session_identity_prefers_the_socket() {
    assert_eq!(session_id_from(Some((2049, 1234, -5)), Some("3".into()), None, 9), "wayland-2049-1234--5");
    assert_eq!(session_id_from(Some((0, 7, 1700000000)), None, None, 9), "wayland-0-7-1700000000");
    assert_eq!(session_id_from(None, Some("3".into()), Some("wayland-1".into()), 9), "3");
    assert_eq!(session_id_from(None, None, Some("wayland-1".into()), 9), "wayland-1");
    assert_eq!(session_id_from(None, None, None, 77), "process-77");
}

#[test]
fn u32_arrays_are_read_in_machine_order() {
    let r = parse_u32_array(&[1, 0, 0, 0, 2, 0, 0, 0, 9]);
    assert_eq!(r, vec![u32::from_ne_bytes([1, 0, 0, 0]), u32::from_ne_bytes([2, 0, 0, 0])]);
    assert!(r == vec![1, 2] || r == vec![16777216, 33554432]);
    assert!(parse_u32_array(&[1, 2, 3]).is_empty());
}

#[test]
fn u32_arrays_are_read_in_either_byte_order() {
    let bytes = [0, 0, 0, 1, 2, 1, 0, 0, 7];
    assert_eq!(parse_u32_array_in(&bytes, true), vec![16777216, 258]);
    assert_eq!(parse_u32_array_in(&bytes, false), vec![1, 33619968]);
    assert_eq!(parse_u32_array_in(&[255, 255, 255, 255], true), vec![u32::MAX]);
    assert!(parse_u32_array_in(&[], false).is_empty());
}

#[test]
fn timestamp_is_after_2020() {
    assert!(unix_timestamp() > 1_577_836_800);
}

#[test]
fn memory_keeps_last_monitor_until_window_or_monitor_goes() {
    let mut m = OutputMemory::new();
    m.remember_current_output("w1".into(), Some(5), Some(6));
    m.remember_current_output("w2".into(), None, Some(6));
    m.remember_current_output("w3".into(), None, None);
    assert_eq!(m.last_output(&"w1".into()), Some(5));
    assert_eq!(m.last_output(&"w2".into()), Some(6));
    assert_eq!(m.last_output(&"w3".into()), None);
    m.remember_current_output("w1".into(), Some(6), None);
    assert_eq!(m.last_output(&"w1".into()), Some(6));
    m.output_destroyed(6);
    assert_eq!(m.last_output(&"w1".into()), None);
    assert_eq!(m.last_output(&"w2".into()), None);
    m.remember_current_output("w4".into(), Some(1), None);
    m.remember_current_output("w5".into(), Some(2), None);
    m.forget_window(&"w4".into());
    assert_eq!(m.last_output(&"w4".into()), None);
    assert_eq!(m.last_output(&"w5".into()), Some(2));
    m.retain_active(&["w9".to_string()]);
    assert_eq!(m.last_output(&"w5".into()), None);
}

fn app(id: &str, name: &str, exec: &str) -> DesktopApp {
    let content = format!("[Desktop Entry]\nName={name}\nExec={exec}\n");
    parse_desktop_file(id.to_string(), vec![], &content).unwrap()
}

fn toplevel(identifier: &str, app_id: &str, title: &str, geometry: Option<u64>, states: Vec<u32>) -> ToplevelRecord {
    ToplevelRecord {
        identifier: identifier.into(),
        app_id: app_id.into(),
        title: title.into(),
        geometry_output: geometry,
        entered_output: None,
        states,
    }
}

#[test]
fn snapshot_records_eligible_windows_sorted_with_monitor_and_states() {
    let apps = vec![app("firefox.desktop", "Firefox", "firefox"), app("code.desktop", "Code", "code"), app("gimp.desktop", "GIMP", "gimp")];
    let eligible = vec!["firefox.desktop".to_string(), "code.desktop".to_string()];
    let outputs = vec![OutputRecord {
        handle: 5,
        name: Some("DP-1".into()),
        description: Some("Dell U2720Q".into()),
        make: "  Dell Inc. ".into(),
        model: "   ".into(),
    }];
    let mut memory = OutputMemory::new();
    memory.remember_current_output("t2".into(), Some(5), None);
    memory.remember_current_output("gone".into(), Some(5), None);
    let toplevels = vec![
        toplevel("t1", " firefox ", "Zeta", Some(5), vec![0, 3]),
        toplevel("t2", "code", "Project", None, vec![1]),
        toplevel("t3", "gimp", "Image", Some(5), vec![]),
        toplevel("t4", "", "Nothing", None, vec![]),
        toplevel("t5", "firefox", "Alpha", Some(9), vec![]),
    ];
    let snap = persist_snapshot(&mut memory, &"s".to_string(), 42, &apps, &eligible, &toplevels, &outputs);
    assert_eq!(snap.session_id, "s");
    assert_eq!(snap.saved_at, 42);
    let keys: Vec<(&str, &str)> = snap.windows.iter().map(|w| (w.desktop_id.as_str(), w.title.as_str())).collect();
    assert_eq!(keys, vec![("code.desktop", "Project"), ("firefox.desktop", "Alpha"), ("firefox.desktop", "Zeta")]);
    let code = &snap.windows[0];
    assert_eq!(code.output.as_deref(), Some("DP-1"));
    assert!(code.minimized && !code.maximized && !code.fullscreen);
    let zeta = &snap.windows[2];
    assert_eq!(zeta.app_id, "firefox");
    assert_eq!(zeta.output_description.as_deref(), Some("Dell U2720Q"));
    assert_eq!(zeta.output_make.as_deref(), Some("Dell Inc."));
    assert_eq!(zeta.output_model, None);
    assert!(zeta.maximized && zeta.fullscreen && !zeta.minimized);
    let alpha = &snap.windows[1];
    assert_eq!(alpha.output, None);
    assert_eq!(memory.last_output(&"gone".into()), None);
    assert_eq!(memory.last_output(&"t2".into()), Some(5));
}
