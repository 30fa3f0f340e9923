use retomar_ambiente::desktop::{
    collect_desktop_apps, executable_from_exec, find_desktop_id_for_app_id, has_desktop_extension,
    parse_desktop_file, DesktopApp, LauncherFile,
};

fn sorted_aliases(app: &DesktopApp) -> Vec<String> {
    let mut v = app.aliases().clone();
    v.sort();
    v
}

fn app(id: &str, name: &str, exec: &str) -> DesktopApp {
    let content = format!("[Desktop Entry]\nType=Application\nName={name}\nExec={exec}\n");
    parse_desktop_file(id.to_string(), format!("/apps/{id}").into_bytes(), &content).unwrap()
}

#[test]
fn firefox_entry_prefers_brazilian_name_and_adds_known_alias() {
    let content = "# comment\n\n[Desktop Entry]\nType=Application\nName=Firefox\nName[pt]=Navegador PT\nName[pt_BR]=  Navegador Firefox  \nExec=firefox %u\nStartupWMClass=firefox\n\n[Desktop Action new-window]\nName=Nova janela\nExec=firefox --new-window\n";
    let app = parse_desktop_file("firefox.desktop".to_string(), b"/usr/share/applications/firefox.desktop".to_vec(), content).unwrap();
    assert_eq!(app.id(), "firefox.desktop");
    assert_eq!(app.name(), "Navegador Firefox");
    assert_eq!(app.path(), &b"/usr/share/applications/firefox.desktop".to_vec());
    assert_eq!(sorted_aliases(&app), vec!["firefox".to_string(), "orgmozillafirefox".to_string()]);
}

#[test]
fn portuguese_name_then_plain_name() {
    let a = parse_desktop_file("a.desktop".into(), vec![], "[Desktop Entry]\nName=Files\nName[pt]=Arquivos\nExec=nautilus\n").unwrap();
    assert_eq!(a.name(), "Arquivos");
    let b = parse_desktop_file("b.desktop".into(), vec![], "[Desktop Entry]\nName=Files\nExec=nautilus\n").unwrap();
    assert_eq!(b.name(), "Files");
}

#[test]
fn chrome_and_code_get_their_extra_aliases() {
    let chrome = app("google-chrome.desktop", "Google Chrome", "/usr/bin/google-chrome-stable %U");
    assert_eq!(sorted_aliases(&chrome), vec!["googlechrome".to_string(), "googlechromestable".to_string()]);
    let code = app("code.desktop", "Visual Studio Code", "\"/usr/share/code/code\" --unity-launch %F");
    assert_eq!(sorted_aliases(&code), vec!["code".to_string(), "visualstudiocode".to_string()]);
}

#[test]
fn hidden_nodisplay_and_other_types_are_skipped() {
    let base = "[Desktop Entry]\nName=X\nExec=x\n";
    assert!(parse_desktop_file("x.desktop".into(), vec![], &format!("{base}Hidden=true\n")).is_none());
    assert!(parse_desktop_file("x.desktop".into(), vec![], &format!("{base}NoDisplay=TRUE\n")).is_none());
    assert!(parse_desktop_file("x.desktop".into(), vec![], &format!("{base}Type=Link\n")).is_none());
    assert!(parse_desktop_file("x.desktop".into(), vec![], &format!("{base}Hidden=false\n")).is_some());
    assert!(parse_desktop_file("x.desktop".into(), vec![], "[Desktop Entry]\nName=X\n").is_none());
    assert!(parse_desktop_file("x.desktop".into(), vec![], "[Desktop Entry]\nName=X\nExec=\n").is_none());
    assert!(parse_desktop_file("x.desktop".into(), vec![], "[Desktop Entry]\nExec=x\n").is_none());
    assert!(parse_desktop_file("x.desktop".into(), vec![], "[Desktop Entry]\nName=   \nExec=x\n").is_none());
    assert!(parse_desktop_file("x.desktop".into(), vec![], "Name=X\nExec=x\n").is_none());
}

#[test]
fn first_value_of_a_key_wins_and_crlf_is_accepted() {
    let app = parse_desktop_file("x.desktop".into(), vec![], "[Desktop Entry]\r\nName=First\r\nName=Second\r\nExec=x\r\n").unwrap();
    assert_eq!(app.name(), "First");
    let other = parse_desktop_file("y.desktop".into(), vec![], "[Other]\nName=Wrong\n[Desktop Entry]\nExec=y\nName=Right\n").unwrap();
    assert_eq!(other.name(), "Right");
}

#[test]
fn id_suffix_is_stripped_repeatedly() {
    let a = app("org.gnome.Weird.desktop.desktop", "W", "weird");
    assert_eq!(sorted_aliases(&a), vec!["orggnomeweird".to_string(), "weird".to_string()]);
}

#[test]
fn executable_is_the_file_name_of_the_first_word() {
    assert_eq!(executable_from_exec("firefox %u"), Some("firefox".to_string()));
    assert_eq!(executable_from_exec("  \"/opt/My App/bin/app\" --flag"), Some("app".to_string()));
    assert_eq!(executable_from_exec("foo\\ bar baz"), Some("foo bar".to_string()));
    assert_eq!(executable_from_exec("env FOO=1 app"), Some("env".to_string()));
    assert_eq!(executable_from_exec("/usr/bin/"), Some("bin".to_string()));
    assert_eq!(executable_from_exec("/usr/bin/."), Some("bin".to_string()));
    assert_eq!(executable_from_exec("a/.."), None);
    assert_eq!(executable_from_exec("/"), None);
    assert_eq!(executable_from_exec("\"\""), None);
    assert_eq!(executable_from_exec("   "), None);
}

#[test]
fn window_ids_match_by_alias_or_long_suffix() {
    let chrome = app("google-chrome.desktop", "Google Chrome", "/usr/bin/google-chrome-stable %U");
    assert!(chrome.matches_app_id("Google-chrome"));
    assert!(chrome.matches_app_id("com.google.Chrome"));
    assert!(chrome.matches_app_id("chrome"));
    assert!(!chrome.matches_app_id("rome"));
    assert!(!chrome.matches_app_id("---"));
    let term = app("com.system76.CosmicTerm.desktop", "Terminal", "cosmic-term");
    assert!(term.matches_app_id("com.system76.CosmicTerm"));
    assert!(term.matches_app_id("cosmic-term"));
    assert!(!term.matches_app_id("term"));
}

#[test]
fn desktop_id_comes_from_first_eligible_match() {
    let apps = vec![
        app("a.desktop", "A", "firefox"),
        app("b.desktop", "B", "firefox"),
    ];
    let all = vec!["a.desktop".to_string(), "b.desktop".to_string()];
    let only_b = vec!["b.desktop".to_string()];
    assert_eq!(find_desktop_id_for_app_id("firefox", &apps, &all), Some("a.desktop"));
    assert_eq!(find_desktop_id_for_app_id("firefox", &apps, &only_b), Some("b.desktop"));
    assert_eq!(find_desktop_id_for_app_id("firefox", &apps, &[]), None);
    assert_eq!(find_desktop_id_for_app_id("thunderbird", &apps, &all), None);
}

fn launcher(dir: &str, name: &str, canonical: &str, content: Option<&str>) -> LauncherFile {
    let f = LauncherFile::new(
        format!("{dir}/{name}").into_bytes(),
        canonical.as_bytes().to_vec(),
        content.map(str::to_string),
    )
    .unwrap();
    assert_eq!(f.file_name, name.as_bytes());
    f
}

#[test]
fn launcher_name_is_the_last_path_component() {
    let name = |p: &str| LauncherFile::new(p.as_bytes().to_vec(), vec![], None).map(|f| f.file_name);
    assert_eq!(name("/usr/share/applications/a.desktop"), Some(b"a.desktop".to_vec()));
    assert_eq!(name("dir/b.desktop/"), Some(b"b.desktop".to_vec()));
    assert_eq!(name("dir/c.desktop/."), Some(b"c.desktop".to_vec()));
    assert_eq!(name("dir/.."), None);
    assert_eq!(name("/"), None);
    assert_eq!(name(""), None);
}

#[test]
fn discovery_takes_first_of_each_id_and_sorts_by_lowercase_name() {
    let files = vec![
        launcher("/home/u/.local/share/applications", "zed.desktop", "/c/zed", Some("[Desktop Entry]\nName=zed editor\nExec=zed\n")),
        launcher("/home/u/.local/share/applications", "firefox.desktop", "/c/ff-local", Some("[Desktop Entry]\nName=Firefox Local\nExec=firefox\n")),
        launcher("/usr/share/applications", "firefox.desktop", "/c/ff", Some("[Desktop Entry]\nName=Firefox\nExec=firefox\n")),
        launcher("/usr/share/applications", "hidden.desktop", "/c/hidden", Some("[Desktop Entry]\nName=Hidden\nExec=h\nNoDisplay=true\n")),
        launcher("/usr/share/applications", "hidden.desktop", "/c/hidden2", Some("[Desktop Entry]\nName=Shown\nExec=h\n")),
        launcher("/usr/share/applications", "io.github.ullissescastro.RetomarAmbiente.desktop", "/c/own", Some("[Desktop Entry]\nName=Own\nExec=own\n")),
        launcher("/usr/share/applications", "notes.txt", "/c/notes", Some("[Desktop Entry]\nName=Notes\nExec=n\n")),
        launcher("/var/lib/flatpak", "alias.desktop", "/c/zed", Some("[Desktop Entry]\nName=Alias\nExec=a\n")),
        launcher("/var/lib/flatpak", ".desktop", "/c/dot", Some("[Desktop Entry]\nName=Dot\nExec=d\n")),
        launcher("/var/lib/flatpak", "Beta.desktop", "/c/beta", Some("[Desktop Entry]\nName=beta\nExec=b\n")),
        launcher("/var/lib/flatpak", "alpha.desktop", "/c/alpha", Some("[Desktop Entry]\nName=Beta\nExec=b\n")),
        launcher("/var/lib/flatpak", "unreadable.desktop", "/c/unreadable", None),
    ];
    let apps = collect_desktop_apps(&files);
    let ids: Vec<&str> = apps.iter().map(|a| a.id().as_str()).collect();
    assert_eq!(ids, vec!["Beta.desktop", "alpha.desktop", "firefox.desktop", "hidden.desktop", "zed.desktop"]);
    assert_eq!(apps[2].name(), "Firefox Local");
    assert_eq!(apps[3].name(), "Shown");
}

#[test]
fn non_utf8_file_names_are_skipped() {
    let mut path = b"/d/".to_vec();
    path.extend_from_slice(&[0xff, b'.', b'd', b'e', b's', b'k', b't', b'o', b'p']);
    let f = LauncherFile::new(path, b"/c/x".to_vec(), Some("[Desktop Entry]\nName=X\nExec=x\n".to_string()))
        .unwrap();
    assert_eq!(f.file_name, vec![0xff, b'.', b'd', b'e', b's', b'k', b't', b'o', b'p']);
    assert!(collect_desktop_apps(&vec![f]).is_empty());
}

#[test]
fn desktop_extension_is_recognised() {
    assert!(has_desktop_extension(&b"a.desktop".to_vec()));
    assert!(has_desktop_extension(&b"a.b.desktop".to_vec()));
    assert!(!has_desktop_extension(&b".desktop".to_vec()));
    assert!(!has_desktop_extension(&b"a.desktops".to_vec()));
    assert!(!has_desktop_extension(&b"desktop".to_vec()));
    assert!(!has_desktop_extension(&b"..".to_vec()));
}

#[test]
fn listed_launchers_are_named_by_their_id() {
    let f = LauncherFile::new(
        b"/usr/share/applications/firefox.desktop".to_vec(),
        b"/c/ff".to_vec(),
        Some("[Desktop Entry]\nName=Firefox\nExec=firefox\n".to_string()),
    )
    .unwrap();
    let apps = collect_desktop_apps(&vec![f]);
    assert_eq!(apps.len(), 1);
    assert_eq!(apps[0].id(), "firefox.desktop");
    assert_eq!(apps[0].path(), &b"/usr/share/applications/firefox.desktop".to_vec());
}
