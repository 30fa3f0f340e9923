use retomar_ambiente::desktop::{parse_desktop_file, DesktopApp};
use retomar_ambiente::restore::{
    OutputEvent, RestoreRequest, RestoreState, ToplevelEvent, WorkspaceEvent, WorkspaceGroupEvent,
};
use retomar_ambiente::session::WindowSnapshot;

fn app(id: &str, name: &str, exec: &str) -> DesktopApp {
    let content = format!("[Desktop Entry]\nName={name}\nExec={exec}\n");
    parse_desktop_file(id.to_string(), vec![], &content).unwrap()
}

fn window(desktop_id: &str, title: &str) -> WindowSnapshot {
    WindowSnapshot {
        desktop_id: desktop_id.to_string(),
        app_id: String::new(),
        title: title.to_string(),
        output: None,
        output_description: None,
        output_make: None,
        output_model: None,
        maximized: false,
        minimized: false,
        fullscreen: false,
    }
}

fn apps() -> Vec<DesktopApp> {
    vec![app("firefox.desktop", "Firefox", "firefox"), app("code.desktop", "Code", "code")]
}

fn ready_toplevel(state: &mut RestoreState, handle: u64, app_id: &str, title: &str) {
    state.add_toplevel(handle);
    state.toplevel_event(handle, ToplevelEvent::AppId(app_id.into()));
    state.toplevel_event(handle, ToplevelEvent::Title(title.into()));
    state.toplevel_event(handle, ToplevelEvent::Done);
}

#[test]
fn new_restore_waits_for_every_window() {
    let s = RestoreState::new_restore(apps(), vec![window("firefox.desktop", "a"), window("code.desktop", "b")]);
    assert_eq!(s.eligible, vec!["firefox.desktop".to_string(), "code.desktop".to_string()]);
    assert_eq!(s.restore_targets.len(), 2);
    assert!(s.restore_targets.iter().all(|t| !t.assigned));
    assert!(!s.restore_finished());
    let empty = RestoreState::new_restore(apps(), vec![]);
    assert!(!empty.restore_finished());
}

#[test]
fn targets_with_the_same_title_are_preferred() {
    let s = RestoreState::new_restore(apps(), vec![window("firefox.desktop", "Mail"), window("firefox.desktop", "News"), window("firefox.desktop", "")]);
    assert_eq!(s.find_restore_target(&"firefox.desktop".into(), &"News".into()), Some(1));
    assert_eq!(s.find_restore_target(&"firefox.desktop".into(), &"Other".into()), Some(0));
    assert_eq!(s.find_restore_target(&"firefox.desktop".into(), &"".into()), Some(0));
    assert_eq!(s.find_restore_target(&"code.desktop".into(), &"Mail".into()), None);
}

#[test]
fn monitor_is_found_by_identity_then_name_then_description() {
    let mut s = RestoreState::new_restore(apps(), vec![]);
    s.add_output(1);
    s.add_output(2);
    s.output_event(1, OutputEvent::Name("DP-1".into()));
    s.output_event(1, OutputEvent::Description("Left".into()));
    s.output_event(2, OutputEvent::Geometry { make: " Dell ".into(), model: "U27".into() });
    s.output_event(2, OutputEvent::Name("DP-2".into()));
    assert_eq!(s.outputs[1].make.as_deref(), Some("Dell"));
    let mut w = window("firefox.desktop", "a");
    w.output = Some("DP-1".into());
    w.output_make = Some("Dell".into());
    w.output_model = Some("U27".into());
    assert_eq!(s.output_for_snapshot(&w), Some(2));
    w.output_make = Some("Unknown".into());
    assert_eq!(s.output_for_snapshot(&w), Some(1));
    w.output = Some("HDMI-1".into());
    w.output_description = Some("Left".into());
    assert_eq!(s.output_for_snapshot(&w), Some(1));
    w.output_description = None;
    assert_eq!(s.output_for_snapshot(&w), None);
}

#[test]
fn workspace_is_the_active_one_of_the_monitor_group() {
    let mut s = RestoreState::new_restore(apps(), vec![]);
    s.add_workspace_group(10);
    s.add_workspace(100);
    s.add_workspace(101);
    s.workspace_group_event(10, WorkspaceGroupEvent::OutputEnter(1));
    s.workspace_group_event(10, WorkspaceGroupEvent::OutputEnter(1));
    s.workspace_group_event(10, WorkspaceGroupEvent::WorkspaceEnter(100));
    s.workspace_group_event(10, WorkspaceGroupEvent::WorkspaceEnter(101));
    assert_eq!(s.workspace_groups[0].outputs, vec![1]);
    assert_eq!(s.workspace_for_output(1), Some(100));
    s.workspace_event(101, WorkspaceEvent::State(1));
    assert_eq!(s.workspace_for_output(1), Some(101));
    assert_eq!(s.workspace_for_output(2), None);
    s.workspace_event(101, WorkspaceEvent::Removed);
    assert_eq!(s.workspace_groups[0].workspaces, vec![100]);
    assert_eq!(s.workspaces.len(), 1);
    s.workspace_group_event(10, WorkspaceGroupEvent::OutputLeave(1));
    assert_eq!(s.workspace_for_output(1), None);
    s.workspace_group_event(10, WorkspaceGroupEvent::Removed);
    assert!(s.workspace_groups.is_empty());
}

#[test]
fn restore_pass_moves_new_windows_and_ignores_old_ones() {
    let mut target = window("firefox.desktop", "Mail");
    target.output = Some("DP-1".into());
    target.maximized = true;
    target.minimized = true;
    let mut full = window("code.desktop", "Project");
    full.output = Some("DP-1".into());
    full.fullscreen = true;
    let mut s = RestoreState::new_restore(apps(), vec![target, full, window("firefox.desktop", "Extra")]);
    s.add_output(1);
    s.output_event(1, OutputEvent::Name("DP-1".into()));
    s.add_workspace_group(10);
    s.add_workspace(100);
    s.workspace_group_event(10, WorkspaceGroupEvent::OutputEnter(1));
    s.workspace_group_event(10, WorkspaceGroupEvent::WorkspaceEnter(100));

    ready_toplevel(&mut s, 7, "firefox", "Old window");
    s.ignore_existing_toplevels();
    assert!(s.apply_restore_requests(true).is_empty());
    assert!(s.restore_targets.iter().all(|t| !t.assigned));

    ready_toplevel(&mut s, 8, "org.mozilla.firefox", "Mail");
    ready_toplevel(&mut s, 9, "code", "Project");
    s.add_toplevel(11);
    s.toplevel_event(11, ToplevelEvent::AppId("firefox".into()));
    assert!(s.apply_restore_requests(false).is_empty());
    let requests = s.apply_restore_requests(true);
    assert_eq!(
        requests,
        vec![
            RestoreRequest::MoveToWorkspace { toplevel: 8, workspace: 100, output: 1 },
            RestoreRequest::SetMaximized { toplevel: 8 },
            RestoreRequest::SetMinimized { toplevel: 8 },
            RestoreRequest::MoveToWorkspace { toplevel: 9, workspace: 100, output: 1 },
            RestoreRequest::SetFullscreen { toplevel: 9, output: 1 },
        ]
    );
    assert!(s.restore_targets[0].assigned && s.restore_targets[1].assigned && !s.restore_targets[2].assigned);
    assert!(!s.toplevels[3].restore_assigned);
    assert!(!s.restore_finished());
    s.toplevel_event(11, ToplevelEvent::Done);
    assert!(s.apply_restore_requests(true).is_empty());
    assert!(s.restore_finished());
    assert!(s.apply_restore_requests(true).is_empty());
}

#[test]
fn unmatched_windows_are_left_alone() {
    let mut s = RestoreState::new_restore(apps(), vec![window("firefox.desktop", "a")]);
    ready_toplevel(&mut s, 1, "firefox", "a");
    ready_toplevel(&mut s, 2, "firefox", "b");
    ready_toplevel(&mut s, 3, "thunderbird", "c");
    let requests = s.apply_restore_requests(true);
    assert!(requests.is_empty());
    assert!(s.toplevels[0].restore_assigned);
    assert!(s.toplevels[1].restore_assigned);
    assert!(!s.toplevels[2].restore_assigned);
    assert!(s.restore_finished());
}

#[test]
fn toplevel_events_update_the_window() {
    let mut s = RestoreState::new_restore(apps(), vec![]);
    s.add_toplevel(1);
    s.add_toplevel(2);
    s.toplevel_event(1, ToplevelEvent::OutputEnter(5));
    s.toplevel_event(1, ToplevelEvent::OutputEnter(6));
    s.toplevel_event(1, ToplevelEvent::OutputEnter(5));
    assert_eq!(s.toplevels[0].outputs, vec![5, 6]);
    s.toplevel_event(1, ToplevelEvent::OutputLeave(5));
    assert_eq!(s.toplevels[0].outputs, vec![6]);
    let bytes: Vec<u8> = [0u32, 3].iter().flat_map(|v| v.to_ne_bytes()).collect();
    s.toplevel_event(1, ToplevelEvent::State(bytes));
    assert_eq!(s.toplevels[0].states, vec![0, 3]);
    s.toplevel_event(9, ToplevelEvent::Done);
    assert!(!s.toplevels[0].ready && !s.toplevels[1].ready);
    s.toplevel_event(1, ToplevelEvent::Closed);
    assert_eq!(s.toplevels.len(), 1);
    assert_eq!(s.toplevels[0].handle, 2);
}
