//! The session agent: it remembers the last monitor of every open window and
//! turns the windows it observes into the snapshot of the current session.
use vstd::prelude::*;
use crate::desktop::{
    contains_string, find_desktop_id_for_app_id, spec_find_desktop_id, string_views, DesktopApp,
};
use crate::order::{
    key_of, keyed, lemma_stable_sorted_map, map_items, stable_sort_by_key, stable_sorted, Key,
    SortKey,
};
use crate::session::{opt_view, window_views, SessionSnapshot, WindowSnapshot, WindowView};
use crate::text::{chars_of, non_empty_string, spec_non_empty, trim, trimmed};

verus! {

broadcast use vstd::string::group_string_axioms;

// ---------------------------------------------------------------------
// The last monitor of each window
// ---------------------------------------------------------------------

/// The map that a list of (window identifier, monitor) entries describes;
/// a later entry for an identifier replaces an earlier one.
pub open spec fn entries_map(e: Seq<(String, u64)>) -> Map<Seq<char>, u64>
    decreases e.len(),
{
    if e.len() == 0 {
        Map::empty()
    } else {
        entries_map(e.drop_last()).insert(e.last().0@, e.last().1)
    }
}

/// No identifier occurs twice.
pub open spec fn identifiers_distinct(e: Seq<(String, u64)>) -> bool {
    forall|i: int, j: int| 0 <= i < e.len() && 0 <= j < e.len() && i != j ==> e[i].0@ != e[j].0@
}

/// The last monitor on which each open window was seen. A window on another
/// workspace may leave every monitor for a while; its last monitor is kept
/// until the window closes or the monitor goes away.
pub struct OutputMemory {
    entries: Vec<(String, u64)>,
}

impl View for OutputMemory {
    type V = Map<Seq<char>, u64>;

    closed spec fn view(&self) -> Map<Seq<char>, u64> {
        entries_map(self.entries@)
    }
}

proof fn lemma_entries_map_push(s: Seq<(String, u64)>, x: (String, u64))
    ensures
        entries_map(s.push(x)) == entries_map(s).insert(x.0@, x.1),
{
    assert(s.push(x).drop_last() =~= s);
}

proof fn lemma_entries_map_dom(e: Seq<(String, u64)>, k: Seq<char>)
    ensures
        entries_map(e).contains_key(k) <==> exists|i: int| 0 <= i < e.len() && (#[trigger] e[i]).0@ == k,
    decreases e.len(),
{
    if e.len() > 0 {
        lemma_entries_map_dom(e.drop_last(), k);
        if entries_map(e.drop_last()).contains_key(k) {
            let i = choose|i: int| 0 <= i < e.drop_last().len() && (#[trigger] e.drop_last()[i]).0@ == k;
            assert(e[i] == e.drop_last()[i]);
        }
        if exists|i: int| 0 <= i < e.len() && (#[trigger] e[i]).0@ == k {
            let i = choose|i: int| 0 <= i < e.len() && (#[trigger] e[i]).0@ == k;
            if i < e.len() - 1 {
                assert(e.drop_last()[i] == e[i]);
            }
        }
    }
}

/// Keeping the entries whose identifier satisfies `p` restricts the map.
proof fn lemma_entries_map_filter_keys(e: Seq<(String, u64)>, p: spec_fn(Seq<char>) -> bool)
    ensures
        entries_map(e.filter(|x: (String, u64)| p(x.0@))) == Map::new(
            |k: Seq<char>| entries_map(e).contains_key(k) && p(k),
            |k: Seq<char>| entries_map(e)[k],
        ),
    decreases e.len(),
{
    let pred = |x: (String, u64)| p(x.0@);
    if e.len() == 0 {
        assert(e.filter(pred) =~= Seq::<(String, u64)>::empty());
        assert(Map::new(
            |k: Seq<char>| entries_map(e).contains_key(k) && p(k),
            |k: Seq<char>| entries_map(e)[k],
        ) =~= Map::empty());
    } else {
        let t = e.drop_last();
        lemma_entries_map_filter_keys(t, p);
        t.lemma_filter_push(e.last(), pred);
        assert(e =~= t.push(e.last()));
        lemma_entries_map_push(t, e.last());
        lemma_entries_map_push(t.filter(pred), e.last());
        assert(entries_map(e.filter(pred)) =~= Map::new(
            |k: Seq<char>| entries_map(e).contains_key(k) && p(k),
            |k: Seq<char>| entries_map(e)[k],
        ));
    }
}

/// With distinct identifiers, keeping the entries whose monitor is not `o`
/// drops exactly the windows last seen on `o`.
proof fn lemma_entries_map_filter_values(e: Seq<(String, u64)>, o: u64)
    requires
        identifiers_distinct(e),
    ensures
        entries_map(e.filter(|x: (String, u64)| x.1 != o)) == Map::new(
            |k: Seq<char>| entries_map(e).contains_key(k) && entries_map(e)[k] != o,
            |k: Seq<char>| entries_map(e)[k],
        ),
    decreases e.len(),
{
    let pred = |x: (String, u64)| x.1 != o;
    if e.len() == 0 {
        assert(e.filter(pred) =~= Seq::<(String, u64)>::empty());
        assert(Map::new(
            |k: Seq<char>| entries_map(e).contains_key(k) && entries_map(e)[k] != o,
            |k: Seq<char>| entries_map(e)[k],
        ) =~= Map::empty());
    } else {
        let t = e.drop_last();
        assert(identifiers_distinct(t)) by {
            assert forall|i: int, j: int|
                0 <= i < t.len() && 0 <= j < t.len() && i != j implies t[i].0@ != t[j].0@ by {
                assert(t[i] == e[i] && t[j] == e[j]);
            }
        }
        lemma_entries_map_filter_values(t, o);
        t.lemma_filter_push(e.last(), pred);
        assert(e =~= t.push(e.last()));
        lemma_entries_map_dom(t, e.last().0@);
        assert(!entries_map(t).contains_key(e.last().0@)) by {
            if entries_map(t).contains_key(e.last().0@) {
                let i = choose|i: int| 0 <= i < t.len() && (#[trigger] t[i]).0@ == e.last().0@;
                assert(t[i] == e[i]);
            }
        }
        lemma_entries_map_push(t, e.last());
        lemma_entries_map_push(t.filter(pred), e.last());
        assert(entries_map(e.filter(pred)) =~= Map::new(
            |k: Seq<char>| entries_map(e).contains_key(k) && entries_map(e)[k] != o,
            |k: Seq<char>| entries_map(e)[k],
        ));
    }
}

proof fn lemma_filter_keeps_distinct(e: Seq<(String, u64)>, pred: spec_fn((String, u64)) -> bool)
    requires
        identifiers_distinct(e),
    ensures
        identifiers_distinct(e.filter(pred)),
    decreases e.len(),
{
    if e.len() > 0 {
        let t = e.drop_last();
        assert(identifiers_distinct(t)) by {
            assert forall|i: int, j: int|
                0 <= i < t.len() && 0 <= j < t.len() && i != j implies t[i].0@ != t[j].0@ by {
                assert(t[i] == e[i] && t[j] == e[j]);
            }
        }
        lemma_filter_keeps_distinct(t, pred);
        t.lemma_filter_push(e.last(), pred);
        assert(e =~= t.push(e.last()));
        let ft = t.filter(pred);
        if pred(e.last()) {
            let f = ft.push(e.last());
            assert forall|i: int| 0 <= i < ft.len() implies (#[trigger] ft[i]).0@ != e.last().0@ by {
                assert(ft.contains(ft[i]));
                t.lemma_filter_contains_rev(pred, ft[i]);
                let m = choose|m: int| 0 <= m < t.len() && t[m] == ft[i];
                assert(e[m] == t[m]);
            }
            assert forall|i: int, j: int|
                0 <= i < f.len() && 0 <= j < f.len() && i != j implies f[i].0@ != f[j].0@ by {
                if i < ft.len() && j < ft.len() {
                    assert(f[i] == ft[i] && f[j] == ft[j]);
                } else if i < ft.len() {
                    assert(f[i] == ft[i]);
                } else {
                    assert(f[j] == ft[j]);
                }
            }
        }
    }
}

impl OutputMemory {
    #[verifier::type_invariant]
    closed spec fn well_formed(self) -> bool {
        identifiers_distinct(self.entries@)
    }

    /// No window remembered.
    pub fn new() -> (m: Self)
        ensures
            m@ == Map::<Seq<char>, u64>::empty(),
    {
        let m = OutputMemory { entries: Vec::new() };
        assert(m@ =~= Map::<Seq<char>, u64>::empty());
        m
    }

    /// Keeps the entries that satisfy `pred`, an identifier predicate.
    fn keep_identifiers(&mut self, p: Ghost<spec_fn(Seq<char>) -> bool>, active: &[String], drop: Option<&String>)
        requires
            drop matches Some(d) ==> forall|k: Seq<char>| #[trigger] p@(k) == (k != d@),
            drop is None ==> forall|k: Seq<char>| #[trigger] p@(k) == string_views(active@).contains(k),
        ensures
            final(self)@ == Map::new(
                |k: Seq<char>| old(self)@.contains_key(k) && p@(k),
                |k: Seq<char>| old(self)@[k],
            ),
    {
        proof {
            use_type_invariant(&*self);
        }
        let ghost e = self.entries@;
        let ghost pred = |x: (String, u64)| p@(x.0@);
        let mut kept: Vec<(String, u64)> = Vec::new();
        let mut i: usize = 0;
        while i < self.entries.len()
            invariant
                i <= self.entries.len(),
                e == self.entries@,
                identifiers_distinct(e),
                pred == |x: (String, u64)| p@(x.0@),
                drop matches Some(d) ==> forall|k: Seq<char>| #[trigger] p@(k) == (k != d@),
                drop is None ==> forall|k: Seq<char>| #[trigger] p@(k) == string_views(active@).contains(k),
                kept@ == e.take(i as int).filter(pred),
            decreases self.entries.len() - i,
        {
            proof {
                e.take(i as int).lemma_filter_push(e[i as int], pred);
                assert(e.take(i + 1) =~= e.take(i as int).push(e[i as int]));
            }
            let keep = match drop {
                Some(d) => self.entries[i].0 != *d,
                None => contains_string(active, &self.entries[i].0),
            };
            if keep {
                let entry = (self.entries[i].0.clone(), self.entries[i].1);
                assert(entry == e[i as int]);
                kept.push(entry);
            }
            i = i + 1;
        }
        assert(e.take(e.len() as int) =~= e);
        proof {
            lemma_entries_map_filter_keys(e, p@);
            lemma_filter_keeps_distinct(e, pred);
        }
        self.entries = kept;
    }

    /// The monitor on which window `identifier` was last seen.
    pub fn last_output(&self, identifier: &String) -> (r: Option<u64>)
        ensures
            r == if self@.contains_key(identifier@) {
                Some(self@[identifier@])
            } else {
                None
            },
    {
        proof {
            use_type_invariant(self);
        }
        let ghost e = self.entries@;
        let mut i: usize = self.entries.len();
        assert(e.take(i as int) =~= e);
        while i > 0
            invariant
                i <= e.len(),
                e == self.entries@,
                forall|k: int| i <= k < e.len() ==> (#[trigger] e[k]).0@ != identifier@,
                entries_map(e).contains_key(identifier@) == entries_map(e.take(i as int)).contains_key(identifier@),
                entries_map(e).contains_key(identifier@) ==> entries_map(e)[identifier@]
                    == entries_map(e.take(i as int))[identifier@],
            decreases i,
        {
            assert(e.take(i as int).drop_last() =~= e.take(i - 1));
            if self.entries[i - 1].0 == *identifier {
                return Some(self.entries[i - 1].1);
            }
            i = i - 1;
        }
        None
    }

    /// Remembers the monitor a window is on: the first monitor its geometry
    /// names, else the first it has entered; nothing changes when it is on
    /// none.
    pub fn remember_current_output(
        &mut self,
        identifier: String,
        geometry_output: Option<u64>,
        entered_output: Option<u64>,
    )
        ensures
            final(self)@ == match (geometry_output, entered_output) {
                (Some(o), _) => old(self)@.insert(identifier@, o),
                (None, Some(o)) => old(self)@.insert(identifier@, o),
                (None, None) => old(self)@,
            },
    {
        let output = match geometry_output {
            Some(o) => Some(o),
            None => entered_output,
        };
        if let Some(o) = output {
            self.forget_window(&identifier);
            proof {
                use_type_invariant(&*self);
            }
            let ghost e = self.entries@;
            proof {
                lemma_entries_map_dom(e, identifier@);
            }
            let mut entries: Vec<(String, u64)> = Vec::new();
            std::mem::swap(&mut entries, &mut self.entries);
            entries.push((identifier, o));
            proof {
                assert(entries@.drop_last() =~= e);
                assert forall|i: int, j: int|
                    0 <= i < entries@.len() && 0 <= j < entries@.len() && i
                        != j implies entries@[i].0@ != entries@[j].0@ by {
                    if i < e.len() && j < e.len() {
                        assert(entries@[i] == e[i] && entries@[j] == e[j]);
                    } else if i < e.len() {
                        assert(entries@[i] == e[i]);
                    } else {
                        assert(entries@[j] == e[j]);
                    }
                }
            }
            self.entries = entries;
            assert(self@ =~= old(self)@.insert(identifier@, o));
        }
    }

    /// Forgets a window that closed.
    pub fn forget_window(&mut self, identifier: &String)
        ensures
            final(self)@ == old(self)@.remove(identifier@),
    {
        let ghost p = |k: Seq<char>| k != identifier@;
        self.keep_identifiers(Ghost(p), &[], Some(identifier));
        assert(self@ =~= old(self)@.remove(identifier@));
    }

    /// Forgets every window whose last monitor went away.
    pub fn output_destroyed(&mut self, output: u64)
        ensures
            final(self)@ == Map::new(
                |k: Seq<char>| old(self)@.contains_key(k) && old(self)@[k] != output,
                |k: Seq<char>| old(self)@[k],
            ),
    {
        proof {
            use_type_invariant(&*self);
        }
        let ghost e = self.entries@;
        let ghost pred = |x: (String, u64)| x.1 != output;
        let mut kept: Vec<(String, u64)> = Vec::new();
        let mut i: usize = 0;
        while i < self.entries.len()
            invariant
                i <= self.entries.len(),
                e == self.entries@,
                identifiers_distinct(e),
                pred == |x: (String, u64)| x.1 != output,
                kept@ == e.take(i as int).filter(pred),
            decreases self.entries.len() - i,
        {
            proof {
                e.take(i as int).lemma_filter_push(e[i as int], pred);
                assert(e.take(i + 1) =~= e.take(i as int).push(e[i as int]));
            }
            if self.entries[i].1 != output {
                let entry = (self.entries[i].0.clone(), self.entries[i].1);
                assert(entry == e[i as int]);
                kept.push(entry);
            }
            i = i + 1;
        }
        assert(e.take(e.len() as int) =~= e);
        proof {
            lemma_entries_map_filter_values(e, output);
            lemma_filter_keeps_distinct(e, pred);
        }
        self.entries = kept;
    }

    /// Forgets every window that is no longer open.
    pub fn retain_active(&mut self, active: &[String])
        ensures
            final(self)@ == Map::new(
                |k: Seq<char>| old(self)@.contains_key(k) && string_views(active@).contains(k),
                |k: Seq<char>| old(self)@[k],
            ),
    {
        let ghost p = |k: Seq<char>| string_views(active@).contains(k);
        self.keep_identifiers(Ghost(p), active, None);
    }
}

// ---------------------------------------------------------------------
// Recording the open windows
// ---------------------------------------------------------------------

/// An open window as the compositor describes it.
pub struct ToplevelRecord {
    /// The compositor's identifier of the window.
    pub identifier: String,
    /// The application identifier the window carries.
    pub app_id: String,
    pub title: String,
    /// The first monitor its geometry is reported on.
    pub geometry_output: Option<u64>,
    /// The first monitor it has entered.
    pub entered_output: Option<u64>,
    /// Its state values (maximized 0, minimized 1, activated 2, fullscreen 3).
    pub states: Vec<u32>,
}

/// A monitor as the compositor describes it.
pub struct OutputRecord {
    pub handle: u64,
    pub name: Option<String>,
    pub description: Option<String>,
    pub make: String,
    pub model: String,
}

/// The state value of a maximized window.
pub const STATE_MAXIMIZED: u32 = 0;

/// The state value of a minimized window.
pub const STATE_MINIMIZED: u32 = 1;

/// The state value of a fullscreen window.
pub const STATE_FULLSCREEN: u32 = 3;

/// The first description of monitor `h`.
pub open spec fn output_record(outputs: Seq<OutputRecord>, h: u64) -> Option<OutputRecord>
    decreases outputs.len(),
{
    if outputs.len() == 0 {
        None
    } else if outputs[0].handle == h {
        Some(outputs[0])
    } else {
        output_record(outputs.drop_first(), h)
    }
}

/// The monitor a window is recorded on: the one its geometry names, else
/// the first it entered, else the one it was last seen on.
pub open spec fn window_output(t: ToplevelRecord, memory: Map<Seq<char>, u64>) -> Option<u64> {
    if t.geometry_output is Some {
        t.geometry_output
    } else if t.entered_output is Some {
        t.entered_output
    } else if memory.contains_key(t.identifier@) {
        Some(memory[t.identifier@])
    } else {
        None
    }
}

/// What is recorded of one window: nothing for a window without an
/// application identifier or of no eligible application; otherwise its
/// desktop id, trimmed application id, title, monitor and states.
pub open spec fn recorded_window(
    apps: Seq<DesktopApp>,
    eligible: Seq<Seq<char>>,
    t: ToplevelRecord,
    memory: Map<Seq<char>, u64>,
    outputs: Seq<OutputRecord>,
) -> Option<WindowView> {
    let app_id = trimmed(t.app_id@);
    if app_id.len() == 0 {
        None
    } else {
        match spec_find_desktop_id(apps, eligible, app_id) {
            None => None,
            Some(desktop_id) => {
                let info = match window_output(t, memory) {
                    Some(h) => output_record(outputs, h),
                    None => None,
                };
                Some(
                    WindowView {
                        desktop_id,
                        app_id,
                        title: t.title@,
                        output: match info {
                            Some(o) => opt_view(o.name),
                            None => None,
                        },
                        output_description: match info {
                            Some(o) => opt_view(o.description),
                            None => None,
                        },
                        output_make: match info {
                            Some(o) => spec_non_empty(o.make@),
                            None => None,
                        },
                        output_model: match info {
                            Some(o) => spec_non_empty(o.model@),
                            None => None,
                        },
                        maximized: t.states@.contains(STATE_MAXIMIZED),
                        minimized: t.states@.contains(STATE_MINIMIZED),
                        fullscreen: t.states@.contains(STATE_FULLSCREEN),
                    },
                )
            },
        }
    }
}

/// What is recorded of the windows, in the order they are listed.
pub open spec fn recorded_windows(
    apps: Seq<DesktopApp>,
    eligible: Seq<Seq<char>>,
    ts: Seq<ToplevelRecord>,
    memory: Map<Seq<char>, u64>,
    outputs: Seq<OutputRecord>,
) -> Seq<WindowView>
    decreases ts.len(),
{
    if ts.len() == 0 {
        Seq::empty()
    } else {
        let prev = recorded_windows(apps, eligible, ts.drop_last(), memory, outputs);
        match recorded_window(apps, eligible, ts.last(), memory, outputs) {
            Some(w) => prev.push(w),
            None => prev,
        }
    }
}

/// The sort key of a recorded window: desktop id, then title.
pub open spec fn window_key(w: WindowView) -> Key {
    (w.desktop_id, w.title)
}

/// Recorded windows ordered by desktop id and then title, windows with the
/// same desktop id and title keeping their order.
pub open spec fn sorted_windows(ws: Seq<WindowView>) -> Seq<WindowView> {
    stable_sorted(ws.map_values(|w: WindowView| (window_key(w), w))).map_values(
        |p: (Key, WindowView)| p.1,
    )
}

fn find_output<'a>(outputs: &'a Vec<OutputRecord>, h: u64) -> (r: Option<&'a OutputRecord>)
    ensures
        match output_record(outputs@, h) {
            None => r is None,
            Some(o) => r matches Some(x) && *x == o,
        },
{
    let mut i: usize = 0;
    assert(outputs@.skip(0) =~= outputs@);
    while i < outputs.len()
        invariant
            i <= outputs.len(),
            output_record(outputs@, h) == output_record(outputs@.skip(i as int), h),
        decreases outputs.len() - i,
    {
        if outputs[i].handle == h {
            return Some(&outputs[i]);
        }
        assert(outputs@.skip(i as int).drop_first() =~= outputs@.skip(i + 1));
        i = i + 1;
    }
    None
}

fn clone_opt(o: &Option<String>) -> (r: Option<String>)
    ensures
        opt_view(r) == opt_view(*o),
{
    match o {
        Some(s) => Some(s.clone()),
        None => None,
    }
}

fn has_state(states: &Vec<u32>, v: u32) -> (b: bool)
    ensures
        b == states@.contains(v),
{
    let mut i: usize = 0;
    while i < states.len()
        invariant
            i <= states.len(),
            forall|k: int| 0 <= k < i ==> states@[k] != v,
        decreases states.len() - i,
    {
        if states[i] == v {
            assert(states@[i as int] == v);
            return true;
        }
        i = i + 1;
    }
    false
}

fn record_window(
    apps: &[DesktopApp],
    eligible: &[String],
    t: &ToplevelRecord,
    memory: &OutputMemory,
    outputs: &Vec<OutputRecord>,
) -> (r: Option<WindowSnapshot>)
    ensures
        match recorded_window(apps@, string_views(eligible@), *t, memory@, outputs@) {
            None => r is None,
            Some(w) => r matches Some(x) && x@ == w,
        },
{
    let app_id = trim(t.app_id.as_str());
    if app_id.as_str().is_empty() {
        return None;
    }
    let desktop_id = match find_desktop_id_for_app_id(app_id.as_str(), apps, eligible) {
        Some(d) => d.to_owned(),
        None => {
            return None;
        },
    };
    let output = match t.geometry_output {
        Some(o) => Some(o),
        None => match t.entered_output {
            Some(o) => Some(o),
            None => memory.last_output(&t.identifier),
        },
    };
    let info = match output {
        Some(h) => find_output(outputs, h),
        None => None,
    };
    let (name, description, make, model) = match info {
        Some(o) => (
            clone_opt(&o.name),
            clone_opt(&o.description),
            non_empty_string(o.make.as_str()),
            non_empty_string(o.model.as_str()),
        ),
        None => (None, None, None, None),
    };
    Some(
        WindowSnapshot {
            desktop_id,
            app_id,
            title: t.title.clone(),
            output: name,
            output_description: description,
            output_make: make,
            output_model: model,
            maximized: has_state(&t.states, STATE_MAXIMIZED),
            minimized: has_state(&t.states, STATE_MINIMIZED),
            fullscreen: has_state(&t.states, STATE_FULLSCREEN),
        },
    )
}

/// The snapshot of the current session: first the windows that closed are
/// forgotten, then every window of an eligible application is recorded, and
/// the windows are ordered by desktop id and title.
pub fn persist_snapshot(
    memory: &mut OutputMemory,
    session_id: &String,
    saved_at: u64,
    apps: &[DesktopApp],
    eligible: &[String],
    toplevels: &Vec<ToplevelRecord>,
    outputs: &Vec<OutputRecord>,
) -> (r: SessionSnapshot)
    ensures
        final(memory)@ == Map::new(
            |k: Seq<char>|
                old(memory)@.contains_key(k) && exists|i: int|
                    0 <= i < toplevels.len() && (#[trigger] toplevels@[i]).identifier@ == k,
            |k: Seq<char>| old(memory)@[k],
        ),
        r.session_id@ == session_id@,
        r.saved_at == saved_at,
        window_views(r.windows@) == sorted_windows(
            recorded_windows(apps@, string_views(eligible@), toplevels@, final(memory)@, outputs@),
        ),
{
    let mut active: Vec<String> = Vec::new();
    let mut i: usize = 0;
    while i < toplevels.len()
        invariant
            i <= toplevels.len(),
            string_views(active@) == Seq::new(i as nat, |k: int| toplevels@[k].identifier@),
        decreases toplevels.len() - i,
    {
        let id = toplevels[i].identifier.clone();
        proof {
            active@.lemma_push_map_commute(|x: String| x@, id);
        }
        active.push(id);
        i = i + 1;
        assert(string_views(active@) =~= Seq::new(i as nat, |k: int| toplevels@[k].identifier@));
    }
    memory.retain_active(active.as_slice());
    proof {
        let a = string_views(active@);
        assert forall|k: Seq<char>| a.contains(k) == (exists|i: int|
            0 <= i < toplevels.len() && (#[trigger] toplevels@[i]).identifier@ == k) by {
            if a.contains(k) {
                let j = choose|j: int| 0 <= j < a.len() && a[j] == k;
                assert(toplevels@[j].identifier@ == k);
            }
            if exists|i: int| 0 <= i < toplevels.len() && (#[trigger] toplevels@[i]).identifier@ == k {
                let i = choose|i: int| 0 <= i < toplevels.len() && (#[trigger] toplevels@[i]).identifier@ == k;
                assert(a[i] == k);
            }
        }
        assert(memory@ =~= Map::new(
            |k: Seq<char>|
                old(memory)@.contains_key(k) && exists|i: int|
                    0 <= i < toplevels.len() && (#[trigger] toplevels@[i]).identifier@ == k,
            |k: Seq<char>| old(memory)@[k],
        ));
    }
    let ghost ev = string_views(eligible@);
    let ghost mem = memory@;
    let mut keyed_windows: Vec<(SortKey, WindowSnapshot)> = Vec::new();
    let mut j: usize = 0;
    while j < toplevels.len()
        invariant
            j <= toplevels.len(),
            ev == string_views(eligible@),
            mem == memory@,
            keyed(keyed_windows@).map_values(|p: (Key, WindowSnapshot)| (p.0, p.1@))
                == recorded_windows(apps@, ev, toplevels@.take(j as int), mem, outputs@).map_values(
                |w: WindowView| (window_key(w), w),
            ),
        decreases toplevels.len() - j,
    {
        let ghost before = keyed_windows@;
        assert(toplevels@.take(j + 1).drop_last() =~= toplevels@.take(j as int));
        assert(toplevels@.take(j + 1).last() == toplevels@[j as int]);
        match record_window(apps, eligible, &toplevels[j], memory, outputs) {
            Some(w) => {
                let key = SortKey {
                    major: chars_of(w.desktop_id.as_str()),
                    minor: chars_of(w.title.as_str()),
                };
                keyed_windows.push((key, w));
                proof {
                    let f = |p: (Key, WindowSnapshot)| (p.0, p.1@);
                    let g = |w: WindowView| (window_key(w), w);
                    let prev = recorded_windows(apps@, ev, toplevels@.take(j as int), mem, outputs@);
                    assert(keyed(keyed_windows@) =~= keyed(before).push(
                        (key_of(keyed_windows@.last().0), keyed_windows@.last().1),
                    ));
                    keyed(before).lemma_push_map_commute(
                        f,
                        (key_of(keyed_windows@.last().0), keyed_windows@.last().1),
                    );
                    prev.lemma_push_map_commute(g, w@);
                }
            },
            None => {},
        }
        j = j + 1;
    }
    assert(toplevels@.take(toplevels.len() as int) =~= toplevels@);
    let ghost unsorted = keyed_windows@;
    let sorted = stable_sort_by_key(keyed_windows);
    let ghost all = sorted@;
    let n = sorted.len();
    let mut rest = sorted;
    let mut windows: Vec<WindowSnapshot> = Vec::new();
    let mut k: usize = 0;
    while rest.len() > 0
        invariant
            k + rest.len() == all.len(),
            all.len() == n,
            rest@ == all.skip(k as int),
            windows.len() == k,
            forall|m: int| 0 <= m < k ==> #[trigger] windows@[m] == all[m].1,
        decreases rest.len(),
    {
        let (_, w) = rest.remove(0);
        windows.push(w);
        k = k + 1;
        assert(rest@ =~= all.skip(k as int));
    }
    proof {
        let f = |w: WindowSnapshot| w@;
        let ws = recorded_windows(apps@, ev, toplevels@, mem, outputs@);
        lemma_stable_sorted_map(keyed(unsorted), f);
        assert(map_items(keyed(unsorted), f) =~= keyed(unsorted).map_values(
            |p: (Key, WindowSnapshot)| (p.0, p.1@),
        ));
        assert(map_items(keyed(all), f) =~= keyed(all).map_values(
            |p: (Key, WindowSnapshot)| (p.0, p.1@),
        ));
        assert(window_views(windows@) =~= sorted_windows(ws));
    }
    SessionSnapshot { session_id: session_id.clone(), saved_at, windows }
}

} // verus!
