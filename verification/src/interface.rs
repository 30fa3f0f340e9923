//! The dialog and the application manager: what they show and how they
//! react to the user.
use vstd::prelude::*;
use vstd::string::StringExecFns;
use crate::config::{toggled, Config};
use crate::desktop::{string_views, DesktopApp, DesktopAppView};
use crate::order::{
    key_of, keyed, lemma_stable_sorted_map, map_items, stable_sort_by_key, stable_sorted, Key,
    SortKey,
};
use crate::session::{has_window_of, SessionSnapshot};
use crate::text::{chars_of, contains, has_infix, push_char, to_lowercase, trim, trimmed, unicode_lowercase};

verus! {

broadcast use vstd::string::group_string_axioms;

/// How the program was started.
#[derive(Clone, Copy, Debug, PartialEq, Eq, Structural)]
pub enum StartupMode {
    Prompt,
    Manage,
}

/// The screen shown.
#[derive(Clone, Copy, Debug, PartialEq, Eq, Structural)]
pub enum Screen {
    Prompt,
    Manage,
}

/// What the user did.
pub enum Message {
    Restore,
    StartClean,
    OpenManager,
    Back,
    SearchChanged(String),
    ToggleApp(String, bool),
    ToggleAutostart(bool),
    UpdateConfig(Config),
}

/// What the program does after a message, besides the state change.
#[derive(Clone, Copy, Debug, PartialEq, Eq, Structural)]
pub enum Effect {
    /// Nothing more.
    Nothing,
    /// Quit.
    Exit,
    /// Launch the restorable applications, then quit.
    LaunchAndExit,
    /// Show the title of the new screen.
    UpdateTitle,
    /// Save the preferences and read the snapshot to offer again.
    PersistAndReload,
    /// Read the snapshot to offer again.
    Reload,
    /// Create or remove the login launcher; on success call
    /// `autostart_changed`.
    SetAutostart(bool),
}

/// The state of the dialog.
pub struct AppState {
    pub screen: Screen,
    pub apps: Vec<DesktopApp>,
    pub config: Config,
    pub restore_snapshot: Option<SessionSnapshot>,
    pub search: String,
}

/// The index of the last application with desktop id `id` (the one a map
/// built from the list keeps).
pub open spec fn app_index(apps: Seq<DesktopApp>, id: Seq<char>) -> Option<int>
    decreases apps.len(),
{
    if apps.len() == 0 {
        None
    } else if apps.last()@.id == id {
        Some(apps.len() - 1)
    } else {
        app_index(apps.drop_last(), id)
    }
}

/// The names of the applications with the given ids, skipping unknown ids.
pub open spec fn names_of(apps: Seq<DesktopApp>, ids: Seq<Seq<char>>) -> Seq<Seq<char>>
    decreases ids.len(),
{
    if ids.len() == 0 {
        Seq::empty()
    } else {
        let prev = names_of(apps, ids.drop_last());
        match app_index(apps, ids.last()) {
            Some(i) => prev.push(apps[i]@.name),
            None => prev,
        }
    }
}

/// The applications the dialog offers to resume: the selected ones with a
/// window in the snapshot, none without a snapshot.
pub open spec fn spec_restorable_ids(s: AppState) -> Seq<Seq<char>> {
    match s.restore_snapshot {
        Some(snap) => string_views(s.config.selected_apps@).filter(
            |id: Seq<char>| has_window_of(snap.windows@, id),
        ),
        None => Seq::empty(),
    }
}

/// The number of names the dialog lists.
pub const PROMPT_NAME_LIMIT: usize = 6;

/// What the dialog shows: the first names, how many more there are, and
/// whether restoring is possible.
pub struct PromptSummary {
    pub shown: Vec<String>,
    pub more: usize,
    pub can_restore: bool,
}

/// One step of launching the restorable applications.
pub enum LaunchItem {
    /// Launch the launcher at `path`; `name` is for messages.
    Launch { path: Vec<u8>, name: String },
    /// No installed application has this desktop id.
    Missing(String),
}

/// The launch steps for the given ids, in order.
pub open spec fn launch_ok(apps: Seq<DesktopApp>, ids: Seq<Seq<char>>, items: Seq<LaunchItem>) -> bool {
    &&& items.len() == ids.len()
    &&& forall|k: int|
        0 <= k < ids.len() ==> match #[trigger] items[k] {
            LaunchItem::Launch { path, name } => app_index(apps, ids[k]) matches Some(i) && path@
                == apps[i]@.path && name@ == apps[i]@.name,
            LaunchItem::Missing(id) => app_index(apps, ids[k]) is None && id@ == ids[k],
        }
}

fn find_app_index(apps: &Vec<DesktopApp>, id: &String) -> (r: Option<usize>)
    ensures
        match r {
            Some(j) => app_index(apps@, id@) == Some(j as int) && j < apps.len(),
            None => app_index(apps@, id@) is None,
        },
{
    let mut i = apps.len();
    assert(apps@.take(i as int) =~= apps@);
    while i > 0
        invariant
            i <= apps.len(),
            app_index(apps@, id@) == app_index(apps@.take(i as int), id@),
        decreases i,
    {
        assert(apps@.take(i as int).drop_last() =~= apps@.take(i - 1));
        if *apps[i - 1].id() == *id {
            return Some(i - 1);
        }
        i = i - 1;
    }
    None
}

fn names_for(apps: &Vec<DesktopApp>, ids: &Vec<String>) -> (r: Vec<String>)
    ensures
        string_views(r@) == names_of(apps@, string_views(ids@)),
{
    let ghost iv = string_views(ids@);
    let mut r: Vec<String> = Vec::new();
    let mut k: usize = 0;
    while k < ids.len()
        invariant
            k <= ids.len(),
            iv == string_views(ids@),
            string_views(r@) == names_of(apps@, iv.take(k as int)),
        decreases ids.len() - k,
    {
        assert(iv.take(k + 1).drop_last() =~= iv.take(k as int));
        match find_app_index(apps, &ids[k]) {
            Some(i) => {
                let name = apps[i].name().clone();
                proof {
                    r@.lemma_push_map_commute(|x: String| x@, name);
                }
                r.push(name);
            },
            None => {},
        }
        k = k + 1;
    }
    assert(iv.take(iv.len() as int) =~= iv);
    r
}

/// Whether an application shows in the manager for a lower-cased search:
/// every application for an empty search, else those whose lower-cased
/// name or id contains it.
pub open spec fn app_visible(app: DesktopAppView, query: Seq<char>) -> bool {
    query.len() == 0 || has_infix(unicode_lowercase(app.name), query) || has_infix(
        unicode_lowercase(app.id),
        query,
    )
}

/// The indices of the applications shown for a search, in list order.
pub open spec fn visible_indices(apps: Seq<DesktopApp>, query: Seq<char>, n: nat) -> Seq<int>
    decreases n,
{
    if n == 0 {
        Seq::empty()
    } else {
        let prev = visible_indices(apps, query, (n - 1) as nat);
        if app_visible(apps[n - 1]@, query) {
            prev.push(n - 1)
        } else {
            prev
        }
    }
}

/// The manager's order: selected applications first, then by lower-cased
/// name (a selected application gets `0`, another `1`).
pub open spec fn manager_key(apps: Seq<DesktopApp>, selected: Seq<Seq<char>>, i: int) -> Key {
    (
        if selected.contains(apps[i]@.id) {
            seq!['0']
        } else {
            seq!['1']
        },
        unicode_lowercase(apps[i]@.name),
    )
}

/// The indices of the applications the manager lists, in the order shown.
pub open spec fn manager_order(apps: Seq<DesktopApp>, selected: Seq<Seq<char>>, search: Seq<char>) -> Seq<int> {
    let query = unicode_lowercase(trimmed(search));
    stable_sorted(
        visible_indices(apps, query, apps.len()).map_values(
            |i: int| (manager_key(apps, selected, i), i),
        ),
    ).map_values(|p: (Key, int)| p.1)
}

/// The autostart launcher's file name.
pub const AUTOSTART_FILE: &'static str = "io.github.ullissescastro.RetomarAmbiente.desktop";

/// `s` with backslashes and double quotes escaped by a backslash.
pub open spec fn escaped(s: Seq<char>) -> Seq<char>
    decreases s.len(),
{
    if s.len() == 0 {
        Seq::empty()
    } else {
        let prev = escaped(s.drop_last());
        if s.last() == '\\' || s.last() == '"' {
            prev.push('\\').push(s.last())
        } else {
            prev.push(s.last())
        }
    }
}

/// A path quoted for the `Exec` line of a launcher.
pub fn desktop_quote(path: &str) -> (r: String)
    ensures
        r@ == seq!['"'] + escaped(path@) + seq!['"'],
{
    let v = chars_of(path);
    let mut r = String::new();
    push_char(&mut r, '"');
    let mut i: usize = 0;
    while i < v.len()
        invariant
            i <= v.len(),
            v@ == path@,
            r@ == seq!['"'] + escaped(v@.take(i as int)),
        decreases v.len() - i,
    {
        let c = v[i];
        assert(v@.take(i + 1).drop_last() =~= v@.take(i as int));
        if c == '\\' || c == '"' {
            push_char(&mut r, '\\');
        }
        push_char(&mut r, c);
        i = i + 1;
        assert(r@ =~= seq!['"'] + escaped(v@.take(i as int)));
    }
    assert(v@.take(v.len() as int) =~= v@);
    push_char(&mut r, '"');
    r
}

/// The text of the login launcher that starts `exec` with `--autostart`.
pub open spec fn autostart_entry_text(exec: Seq<char>) -> Seq<char> {
    "[Desktop Entry]\nType=Application\nName=Retomar Ambiente\nComment=Pergunta se o ambiente de trabalho deve ser restaurado\nExec="@
        + exec + " --autostart\nTerminal=false\nStartupNotify=false\nX-GNOME-Autostart-enabled=true\n"@
}

/// Writes the login launcher for the quoted command `exec`.
pub fn autostart_entry(exec: &str) -> (r: String)
    ensures
        r@ == autostart_entry_text(exec@),
{
    let mut r = String::new();
    r.append(
        "[Desktop Entry]\nType=Application\nName=Retomar Ambiente\nComment=Pergunta se o ambiente de trabalho deve ser restaurado\nExec=",
    );
    r.append(exec);
    r.append(
        " --autostart\nTerminal=false\nStartupNotify=false\nX-GNOME-Autostart-enabled=true\n",
    );
    r
}

impl AppState {
    /// The state at start: the prompt or the manager, per `mode`.
    pub fn new(
        mode: StartupMode,
        apps: Vec<DesktopApp>,
        config: Config,
        restore_snapshot: Option<SessionSnapshot>,
    ) -> (s: Self)
        ensures
            s.screen == (match mode {
                StartupMode::Prompt => Screen::Prompt,
                StartupMode::Manage => Screen::Manage,
            }),
            s.apps == apps,
            s.config == config,
            s.restore_snapshot == restore_snapshot,
            s.search@.len() == 0,
    {
        AppState {
            screen: match mode {
                StartupMode::Prompt => Screen::Prompt,
                StartupMode::Manage => Screen::Manage,
            },
            apps,
            config,
            restore_snapshot,
            search: String::new(),
        }
    }

    /// Whether application `id` is selected.
    pub fn is_selected(&self, id: &String) -> (b: bool)
        ensures
            b == string_views(self.config.selected_apps@).contains(id@),
    {
        self.config.is_selected(id)
    }

    /// The names of the selected applications that are installed.
    pub fn selected_app_names(&self) -> (r: Vec<String>)
        ensures
            string_views(r@) == names_of(self.apps@, string_views(self.config.selected_apps@)),
    {
        names_for(&self.apps, &self.config.selected_apps)
    }

    /// The applications offered to resume (see `spec_restorable_ids`).
    pub fn restorable_app_ids(&self) -> (r: Vec<String>)
        ensures
            string_views(r@) == spec_restorable_ids(*self),
    {
        match &self.restore_snapshot {
            Some(snapshot) => snapshot.restorable_desktop_ids(&self.config),
            None => {
                let r: Vec<String> = Vec::new();
                assert(string_views(r@) =~= Seq::<Seq<char>>::empty());
                r
            },
        }
    }

    /// The names of the applications offered to resume.
    pub fn restorable_app_names(&self) -> (r: Vec<String>)
        ensures
            string_views(r@) == names_of(self.apps@, spec_restorable_ids(*self)),
    {
        let ids = self.restorable_app_ids();
        names_for(&self.apps, &ids)
    }

    /// What the dialog shows: up to six names of applications offered to
    /// resume, the count of the others, and whether restoring is possible.
    pub fn prompt_summary(&self) -> (r: PromptSummary)
        ensures
            ({
                let names = names_of(self.apps@, spec_restorable_ids(*self));
                &&& string_views(r.shown@) == names.take(
                    if names.len() < 6 {
                        names.len() as int
                    } else {
                        6
                    },
                )
                &&& r.more == if names.len() > 6 {
                    names.len() - 6
                } else {
                    0
                }
                &&& r.can_restore == (names.len() > 0)
            }),
    {
        let names = self.restorable_app_names();
        let ghost nv = string_views(names@);
        let count = names.len();
        let limit = if count < PROMPT_NAME_LIMIT {
            count
        } else {
            PROMPT_NAME_LIMIT
        };
        let mut shown: Vec<String> = Vec::new();
        let mut k: usize = 0;
        while k < limit
            invariant
                k <= limit <= names.len(),
                nv == string_views(names@),
                string_views(shown@) == nv.take(k as int),
            decreases limit - k,
        {
            let name = names[k].clone();
            proof {
                shown@.lemma_push_map_commute(|x: String| x@, name);
                assert(nv.take(k + 1) =~= nv.take(k as int).push(nv[k as int]));
            }
            shown.push(name);
            k = k + 1;
        }
        PromptSummary {
            shown,
            more: if count > PROMPT_NAME_LIMIT {
                count - PROMPT_NAME_LIMIT
            } else {
                0
            },
            can_restore: count > 0,
        }
    }

    /// The launch steps for the applications offered to resume.
    pub fn launch_plan(&self) -> (r: Vec<LaunchItem>)
        ensures
            launch_ok(self.apps@, spec_restorable_ids(*self), r@),
    {
        let ids = self.restorable_app_ids();
        let ghost iv = string_views(ids@);
        let mut r: Vec<LaunchItem> = Vec::new();
        let mut k: usize = 0;
        while k < ids.len()
            invariant
                k <= ids.len(),
                iv == string_views(ids@),
                r.len() == k,
                forall|m: int|
                    0 <= m < k ==> match #[trigger] r@[m] {
                        LaunchItem::Launch { path, name } => app_index(self.apps@, iv[m]) matches Some(i)
                            && path@ == self.apps@[i]@.path && name@ == self.apps@[i]@.name,
                        LaunchItem::Missing(id) => app_index(self.apps@, iv[m]) is None && id@ == iv[m],
                    },
            decreases ids.len() - k,
        {
            let item = match find_app_index(&self.apps, &ids[k]) {
                Some(i) => {
                    let app = &self.apps[i];
                    let mut path: Vec<u8> = Vec::new();
                    let mut j: usize = 0;
                    while j < app.path().len()
                        invariant
                            j <= app@.path.len(),
                            path@ == app@.path.take(j as int),
                        decreases app@.path.len() - j,
                    {
                        path.push(app.path()[j]);
                        j = j + 1;
                        assert(path@ =~= app@.path.take(j as int));
                    }
                    assert(app@.path.take(app@.path.len() as int) =~= app@.path);
                    LaunchItem::Launch { path, name: app.name().clone() }
                },
                None => LaunchItem::Missing(ids[k].clone()),
            };
            r.push(item);
            k = k + 1;
        }
        r
    }

    /// The indices of the applications the manager lists, in order (see
    /// `manager_order`).
    pub fn manager_apps(&self) -> (r: Vec<usize>)
        ensures
            r@.map_values(|i: usize| i as int) == manager_order(
                self.apps@,
                string_views(self.config.selected_apps@),
                self.search@,
            ),
    {
        let ghost selected = string_views(self.config.selected_apps@);
        let trimmed_search = trim(self.search.as_str());
        let query_string = to_lowercase(trimmed_search.as_str());
        let query = chars_of(query_string.as_str());
        let ghost q = query@;
        let zero = chars_of("0");
        let one = chars_of("1");
        proof {
            reveal_strlit("0");
            reveal_strlit("1");
        }
        assert(zero@ =~= seq!['0']);
        assert(one@ =~= seq!['1']);
        let mut items: Vec<(SortKey, usize)> = Vec::new();
        let mut i: usize = 0;
        while i < self.apps.len()
            invariant
                i <= self.apps.len(),
                q == query@,
                zero@ == seq!['0'],
                one@ == seq!['1'],
                selected == string_views(self.config.selected_apps@),
                map_items(keyed(items@), |x: usize| x as int) == visible_indices(self.apps@, q, i as nat).map_values(
                    |k: int| (manager_key(self.apps@, selected, k), k),
                ),
            decreases self.apps.len() - i,
        {
            let app = &self.apps[i];
            let name_lower = to_lowercase(app.name().as_str());
            let id_lower = to_lowercase(app.id().as_str());
            let name_chars = chars_of(name_lower.as_str());
            let id_chars = chars_of(id_lower.as_str());
            if query.len() == 0 || contains(&name_chars, &query) || contains(&id_chars, &query) {
                let major = if self.config.is_selected(app.id()) {
                    zero.clone()
                } else {
                    one.clone()
                };
                let key = SortKey { major, minor: name_chars };
                let ghost before = items@;
                items.push((key, i));
                proof {
                    let f = |x: usize| x as int;
                    let g = |k: int| (manager_key(self.apps@, selected, k), k);
                    let prev = visible_indices(self.apps@, q, i as nat);
                    assert(map_items(keyed(items@), f) =~= map_items(keyed(before), f).push(
                        (key_of(key), i as int),
                    ));
                    prev.lemma_push_map_commute(g, i as int);
                }
            }
            i = i + 1;
        }
        let ghost unsorted = items@;
        let sorted = stable_sort_by_key(items);
        let mut r: Vec<usize> = Vec::new();
        let mut k: usize = 0;
        while k < sorted.len()
            invariant
                k <= sorted.len(),
                r.len() == k,
                forall|m: int| 0 <= m < k ==> #[trigger] r@[m] == sorted@[m].1,
            decreases sorted.len() - k,
        {
            r.push(sorted[k].1);
            k = k + 1;
        }
        proof {
            let f = |x: usize| x as int;
            lemma_stable_sorted_map(keyed(unsorted), f);
            assert(trimmed_search@ == trimmed(self.search@));
            assert(r@.map_values(|i: usize| i as int) =~= map_items(keyed(sorted@), f).map_values(
                |p: (Key, int)| p.1,
            ));
        }
        r
    }

    /// Reacts to a message: changes the state and says what else to do.
    pub fn update(&mut self, message: Message) -> (e: Effect)
        ensures
            match message {
                Message::Restore => e == Effect::LaunchAndExit && *final(self) == *old(self),
                Message::StartClean => e == Effect::Exit && *final(self) == *old(self),
                Message::OpenManager => e == Effect::UpdateTitle && *final(self) == (AppState {
                    screen: Screen::Manage,
                    ..*old(self)
                }),
                Message::Back => e == Effect::UpdateTitle && *final(self) == (AppState {
                    screen: Screen::Prompt,
                    ..*old(self)
                }),
                Message::SearchChanged(v) => e == Effect::Nothing && *final(self) == (AppState {
                    search: v,
                    ..*old(self)
                }),
                Message::ToggleApp(id, enabled) => e == Effect::PersistAndReload && string_views(
                    final(self).config.selected_apps@,
                ) == toggled(string_views(old(self).config.selected_apps@), id@, enabled)
                    && final(self).config.ask_on_login == old(self).config.ask_on_login
                    && final(self).screen == old(self).screen && final(self).apps == old(self).apps
                    && final(self).restore_snapshot == old(self).restore_snapshot
                    && final(self).search == old(self).search,
                Message::ToggleAutostart(enabled) => e == Effect::SetAutostart(enabled)
                    && *final(self) == *old(self),
                Message::UpdateConfig(c) => e == Effect::Reload && *final(self) == (AppState {
                    config: c,
                    ..*old(self)
                }),
            },
    {
        match message {
            Message::Restore => Effect::LaunchAndExit,
            Message::StartClean => Effect::Exit,
            Message::OpenManager => {
                self.screen = Screen::Manage;
                Effect::UpdateTitle
            },
            Message::Back => {
                self.screen = Screen::Prompt;
                Effect::UpdateTitle
            },
            Message::SearchChanged(value) => {
                self.search = value;
                Effect::Nothing
            },
            Message::ToggleApp(id, enabled) => {
                self.config.set_app_selected(id, enabled);
                Effect::PersistAndReload
            },
            Message::ToggleAutostart(enabled) => Effect::SetAutostart(enabled),
            Message::UpdateConfig(config) => {
                self.config = config;
                Effect::Reload
            },
        }
    }

    /// The login launcher was created or removed: the preference follows.
    pub fn autostart_changed(&mut self, enabled: bool)
        ensures
            *final(self) == (AppState {
                config: Config { ask_on_login: enabled, ..old(self).config },
                ..*old(self)
            }),
    {
        self.config.ask_on_login = enabled;
    }

    /// The snapshot offered was read again.
    pub fn set_restore_snapshot(&mut self, snapshot: Option<SessionSnapshot>)
        ensures
            *final(self) == (AppState { restore_snapshot: snapshot, ..*old(self) }),
    {
        self.restore_snapshot = snapshot;
    }
}

} // verus!
