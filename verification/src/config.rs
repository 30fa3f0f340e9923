//! The persistent preferences: which applications may be resumed, and
//! whether to ask at login.
use vstd::prelude::*;
use crate::desktop::{contains_string, string_views};

verus! {

broadcast use vstd::string::group_string_axioms;

/// The identifier under which the preferences are stored.
pub const APPLICATION_ID: &'static str = "io.github.ullissescastro.RetomarAmbiente";

/// Persistent preferences.
#[derive(Debug, Clone, PartialEq, Eq)]
pub struct Config {
    /// Desktop ids of the applications that may be resumed.
    pub selected_apps: Vec<String>,
    /// Whether the resume dialog is shown when the session starts.
    pub ask_on_login: bool,
}

/// The desktop ids selected by default: Firefox, Google Chrome, the COSMIC
/// terminal and file manager, and Visual Studio Code.
pub open spec fn default_selected_apps() -> Seq<Seq<char>> {
    seq![
        "firefox.desktop"@,
        "google-chrome.desktop"@,
        "com.system76.CosmicTerm.desktop"@,
        "com.system76.CosmicFiles.desktop"@,
        "code.desktop"@,
    ]
}

impl Default for Config {
    fn default() -> (c: Self)
        ensures
            string_views(c.selected_apps@) == default_selected_apps(),
            c.ask_on_login,
    {
        let selected_apps = vec![
            "firefox.desktop".to_owned(),
            "google-chrome.desktop".to_owned(),
            "com.system76.CosmicTerm.desktop".to_owned(),
            "com.system76.CosmicFiles.desktop".to_owned(),
            "code.desktop".to_owned(),
        ];
        assert(string_views(selected_apps@) =~= default_selected_apps());
        Config { selected_apps, ask_on_login: true }
    }
}

/// Whether a desktop id differs from `id`.
pub open spec fn differs(id: Seq<char>) -> spec_fn(Seq<char>) -> bool {
    |s: Seq<char>| s != id
}

/// The selection after switching `id` on or off: switching on appends it
/// unless it is already there; switching off removes every copy of it.
pub open spec fn toggled(selected: Seq<Seq<char>>, id: Seq<char>, enabled: bool) -> Seq<
    Seq<char>,
> {
    if enabled {
        if selected.contains(id) {
            selected
        } else {
            selected.push(id)
        }
    } else {
        selected.filter(differs(id))
    }
}

impl Config {
    /// Whether the application with desktop id `id` may be resumed.
    pub fn is_selected(&self, id: &String) -> (b: bool)
        ensures
            b == string_views(self.selected_apps@).contains(id@),
    {
        contains_string(self.selected_apps.as_slice(), id)
    }

    /// Switches one application on or off in the selection.
    pub fn set_app_selected(&mut self, id: String, enabled: bool)
        ensures
            string_views(final(self).selected_apps@) == toggled(
                string_views(old(self).selected_apps@),
                id@,
                enabled,
            ),
            final(self).ask_on_login == old(self).ask_on_login,
    {
        if enabled {
            if !contains_string(self.selected_apps.as_slice(), &id) {
                proof {
                    self.selected_apps@.lemma_push_map_commute(|x: String| x@, id);
                }
                self.selected_apps.push(id);
            }
        } else {
            let ghost old_views = string_views(self.selected_apps@);
            let mut kept: Vec<String> = Vec::new();
            let mut i: usize = 0;
            while i < self.selected_apps.len()
                invariant
                    i <= self.selected_apps.len(),
                    old_views == string_views(self.selected_apps@),
                    string_views(kept@) == old_views.take(i as int).filter(differs(id@)),
                decreases self.selected_apps.len() - i,
            {
                let item = self.selected_apps[i].clone();
                proof {
                    old_views.take(i as int).lemma_filter_push(old_views[i as int], differs(id@));
                    assert(old_views.take(i + 1) =~= old_views.take(i as int).push(
                        old_views[i as int],
                    ));
                }
                if item != id {
                    proof {
                        kept@.lemma_push_map_commute(|x: String| x@, item);
                    }
                    kept.push(item);
                }
                i = i + 1;
            }
            assert(old_views.take(old_views.len() as int) =~= old_views);
            self.selected_apps = kept;
        }
    }
}

} // verus!
