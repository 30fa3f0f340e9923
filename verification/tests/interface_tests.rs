use retomar_ambiente::config::{Config, APPLICATION_ID};
use retomar_ambiente::desktop::{parse_desktop_file, DesktopApp};
use retomar_ambiente::interface::{
    autostart_entry, desktop_quote, AppState, Effect, LaunchItem, Message, Screen, StartupMode,
};
use retomar_ambiente::session::{SessionSnapshot, WindowSnapshot};

fn app(id: &str, name: &str) -> DesktopApp {
    let content = format!("[Desktop Entry]\nName={name}\nExec=x\n");
    parse_desktop_file(id.to_string(), format!("/apps/{id}").into_bytes(), &content).unwrap()
}

fn window(desktop_id: &str) -> WindowSnapshot {
    WindowSnapshot {
        desktop_id: desktop_id.to_string(),
        app_id: String::new(),
        title: String::new(),
        output: None,
        output_description: None,
        output_make: None,
        output_model: None,
        maximized: false,
        minimized: false,
        fullscreen: false,
    }
}

fn config(selected: &[&str]) -> Config {
    Config { selected_apps: selected.iter().map(|s| s.to_string()).collect(), ask_on_login: true }
}

#[test]
fn default_preferences_select_five_apps_and_ask_at_login() {
    let c = Config::default();
    assert_eq!(
        c.selected_apps,
        vec![
            "firefox.desktop",
            "google-chrome.desktop",
            "com.system76.CosmicTerm.desktop",
            "com.system76.CosmicFiles.desktop",
            "code.desktop"
        ]
    );
    assert!(c.ask_on_login);
    assert_eq!(APPLICATION_ID, "io.github.ullissescastro.RetomarAmbiente");
}

#[test]
fn toggling_adds_once_and_removes_every_copy() {
    let mut c = config(&["a.desktop", "b.desktop", "a.desktop"]);
    c.set_app_selected("c.desktop".into(), true);
    c.set_app_selected("c.desktop".into(), true);
    assert_eq!(c.selected_apps, vec!["a.desktop", "b.desktop", "a.desktop", "c.desktop"]);
    c.set_app_selected("a.desktop".into(), false);
    assert_eq!(c.selected_apps, vec!["b.desktop", "c.desktop"]);
    assert!(c.is_selected(&"b.desktop".into()));
    assert!(!c.is_selected(&"a.desktop".into()));
}

fn state() -> AppState {
    let apps = vec![app("firefox.desktop", "Firefox"), app("code.desktop", "Visual Studio Code"), app("gimp.desktop", "GIMP")];
    let snapshot = SessionSnapshot { session_id: "s".into(), saved_at: 1, windows: vec![window("code.desktop"), window("missing.desktop"), window("firefox.desktop")] };
    AppState::new(StartupMode::Prompt, apps, config(&["firefox.desktop", "missing.desktop", "code.desktop"]), Some(snapshot))
}

#[test]
fn offered_apps_are_selected_and_were_open() {
    let s = state();
    assert_eq!(s.restorable_app_ids(), vec!["firefox.desktop", "missing.desktop", "code.desktop"]);
    assert_eq!(s.restorable_app_names(), vec!["Firefox", "Visual Studio Code"]);
    assert_eq!(s.selected_app_names(), vec!["Firefox", "Visual Studio Code"]);
    let plan = s.launch_plan();
    assert_eq!(plan.len(), 3);
    assert!(matches!(&plan[0], LaunchItem::Launch { path, name } if path == b"/apps/firefox.desktop" && name == "Firefox"));
    assert!(matches!(&plan[1], LaunchItem::Missing(id) if id == "missing.desktop"));
    let summary = s.prompt_summary();
    assert_eq!(summary.shown, vec!["Firefox", "Visual Studio Code"]);
    assert_eq!(summary.more, 0);
    assert!(summary.can_restore);
}

#[test]
fn prompt_lists_six_names_and_counts_the_rest() {
    let ids: Vec<String> = (0..8).map(|i| format!("app{i}.desktop")).collect();
    let apps: Vec<DesktopApp> = ids.iter().enumerate().map(|(i, id)| app(id, &format!("App {i}"))).collect();
    let windows = ids.iter().map(|id| window(id)).collect();
    let cfg = Config { selected_apps: ids.clone(), ask_on_login: true };
    let s = AppState::new(StartupMode::Prompt, apps, cfg, Some(SessionSnapshot { session_id: "s".into(), saved_at: 0, windows }));
    let summary = s.prompt_summary();
    assert_eq!(summary.shown.len(), 6);
    assert_eq!(summary.shown[5], "App 5");
    assert_eq!(summary.more, 2);
    let empty = AppState::new(StartupMode::Manage, vec![], config(&[]), None);
    assert_eq!(empty.screen, Screen::Manage);
    let summary = empty.prompt_summary();
    assert!(summary.shown.is_empty() && summary.more == 0 && !summary.can_restore);
    assert!(empty.launch_plan().is_empty());
}

#[test]
fn manager_lists_selected_first_then_by_lowercase_name() {
    let mut s = state();
    assert_eq!(s.manager_apps(), vec![0, 1, 2]);
    s.config.set_app_selected("firefox.desktop".into(), false);
    assert_eq!(s.manager_apps(), vec![1, 0, 2]);
    assert_eq!(s.update(Message::SearchChanged("  STUDIO ".into())), Effect::Nothing);
    assert_eq!(s.manager_apps(), vec![1]);
    s.update(Message::SearchChanged("gimp.DESKTOP".into()));
    assert_eq!(s.manager_apps(), vec![2]);
    s.update(Message::SearchChanged("zzz".into()));
    assert!(s.manager_apps().is_empty());
}

#[test]
fn messages_change_screen_and_preferences() {
    let mut s = state();
    assert_eq!(s.update(Message::OpenManager), Effect::UpdateTitle);
    assert_eq!(s.screen, Screen::Manage);
    assert_eq!(s.update(Message::Back), Effect::UpdateTitle);
    assert_eq!(s.screen, Screen::Prompt);
    assert_eq!(s.update(Message::ToggleApp("gimp.desktop".into(), true)), Effect::PersistAndReload);
    assert!(s.is_selected(&"gimp.desktop".into()));
    assert_eq!(s.update(Message::ToggleAutostart(false)), Effect::SetAutostart(false));
    assert!(s.config.ask_on_login);
    s.autostart_changed(false);
    assert!(!s.config.ask_on_login);
    assert_eq!(s.update(Message::UpdateConfig(config(&[]))), Effect::Reload);
    assert!(s.config.selected_apps.is_empty());
    s.set_restore_snapshot(None);
    assert!(s.restorable_app_ids().is_empty());
    assert_eq!(s.update(Message::Restore), Effect::LaunchAndExit);
    assert_eq!(s.update(Message::StartClean), Effect::Exit);
}

#[test]
fn launcher_command_is_quoted_and_escaped() {
    assert_eq!(desktop_quote("/home/u/.local/bin/retomar-ambiente"), "\"/home/u/.local/bin/retomar-ambiente\"");
    assert_eq!(desktop_quote("/a \"b\"\\c"), "\"/a \\\"b\\\"\\\\c\"");
    let entry = autostart_entry("\"/bin/x\"");
    assert_eq!(
        entry,
        "[Desktop Entry]\nType=Application\nName=Retomar Ambiente\nComment=Pergunta se o ambiente de trabalho deve ser restaurado\nExec=\"/bin/x\" --autostart\nTerminal=false\nStartupNotify=false\nX-GNOME-Autostart-enabled=true\n"
    );
}
