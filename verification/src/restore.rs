//! Putting windows back: the restore worker watches windows appear, pairs
//! each new window with a recorded one, and asks the compositor to move it
//! to its former monitor and state.
use vstd::prelude::*;
use crate::desktop::{find_desktop_id_for_app_id, spec_find_desktop_id, string_views, DesktopApp};
use crate::order::{first_match, lemma_first_match, lemma_first_match_at, lemma_first_match_none};
use crate::session::{
    as_ints, opt_view, parse_u32_array, u32_values, SessionSnapshot, WindowSnapshot, WindowView,
};
use crate::text::{is_meaningful_identity, meaningful_identity, non_empty_string, spec_non_empty};

verus! {

broadcast use vstd::string::group_string_axioms;

/// A monitor, identified by its handle.
pub struct OutputInfo {
    pub handle: u64,
    pub name: Option<String>,
    pub description: Option<String>,
    pub make: Option<String>,
    pub model: Option<String>,
}

/// A window, identified by its handle.
pub struct ToplevelInfo {
    pub handle: u64,
    pub title: Option<String>,
    pub app_id: Option<String>,
    /// The monitors it is on.
    pub outputs: Vec<u64>,
    /// Its state values.
    pub states: Vec<u32>,
    /// Whether the compositor has described it completely.
    pub ready: bool,
    /// Whether it has been dealt with (or must be left alone).
    pub restore_assigned: bool,
}

/// A group of workspaces shown on some monitors.
pub struct WorkspaceGroupInfo {
    pub handle: u64,
    pub outputs: Vec<u64>,
    pub workspaces: Vec<u64>,
}

/// A workspace and its state bits.
pub struct WorkspaceInfo {
    pub handle: u64,
    pub states: u32,
}

/// A recorded window waiting for a new window to take its place.
pub struct RestoreTarget {
    pub snapshot: WindowSnapshot,
    pub assigned: bool,
}

/// The state bit of an active workspace.
pub const WORKSPACE_ACTIVE: u32 = 1;

/// What the restore worker knows.
pub struct RestoreState {
    pub apps: Vec<DesktopApp>,
    /// Desktop ids of the recorded windows.
    pub eligible: Vec<String>,
    pub outputs: Vec<OutputInfo>,
    pub toplevels: Vec<ToplevelInfo>,
    pub workspace_groups: Vec<WorkspaceGroupInfo>,
    pub workspaces: Vec<WorkspaceInfo>,
    pub restore_targets: Vec<RestoreTarget>,
}

/// A request to the compositor's window manager.
#[derive(Debug, Clone, Copy, PartialEq, Eq, Structural)]
pub enum RestoreRequest {
    MoveToWorkspace { toplevel: u64, workspace: u64, output: u64 },
    SetFullscreen { toplevel: u64, output: u64 },
    SetMaximized { toplevel: u64 },
    SetMinimized { toplevel: u64 },
}

/// The assigned flags of the targets.
pub open spec fn target_flags(ts: Seq<RestoreTarget>) -> Seq<bool> {
    ts.map_values(|t: RestoreTarget| t.assigned)
}

/// The dealt-with flags of the windows.
pub open spec fn toplevel_flags(ts: Seq<ToplevelInfo>) -> Seq<bool> {
    ts.map_values(|t: ToplevelInfo| t.restore_assigned)
}

/// The recorded windows of the targets.
pub open spec fn target_snapshots(ts: Seq<RestoreTarget>) -> Seq<WindowSnapshot> {
    ts.map_values(|t: RestoreTarget| t.snapshot)
}

/// Whether a free target for window `w` has desktop id `desktop_id` and the
/// same non-empty title.
pub open spec fn fits_with_title(
    w: WindowSnapshot,
    assigned: bool,
    desktop_id: Seq<char>,
    title: Seq<char>,
) -> bool {
    !assigned && w.desktop_id@ == desktop_id && w.title@.len() > 0 && w.title@ == title
}

/// Whether a free target for window `w` has desktop id `desktop_id`.
pub open spec fn fits(w: WindowSnapshot, assigned: bool, desktop_id: Seq<char>) -> bool {
    !assigned && w.desktop_id@ == desktop_id
}

/// The targets' windows paired with their flags.
pub open spec fn flagged(ws: Seq<WindowSnapshot>, flags: Seq<bool>) -> Seq<(WindowSnapshot, bool)> {
    Seq::new(ws.len(), |i: int| (ws[i], flags[i]))
}

/// The target a new window takes: for a window with a title, the first free
/// target of its application with the same title; else the first free
/// target of its application.
pub open spec fn spec_find_target(
    ts: Seq<WindowSnapshot>,
    flags: Seq<bool>,
    desktop_id: Seq<char>,
    title: Seq<char>,
) -> Option<int> {
    let with_title = first_match(
        flagged(ts, flags),
        |p: (WindowSnapshot, bool)| fits_with_title(p.0, p.1, desktop_id, title),
    );
    if title.len() > 0 && with_title is Some {
        with_title
    } else {
        first_match(flagged(ts, flags), |p: (WindowSnapshot, bool)| fits(p.0, p.1, desktop_id))
    }
}

/// The monitor a recorded window goes back to: the monitor with the same
/// make and model when both were recorded and say something, else the one
/// with the same connector name, else the one with the same description.
pub open spec fn spec_output_for(outputs: Seq<OutputInfo>, w: WindowView) -> Option<u64> {
    let by_identity = match (w.output_make, w.output_model) {
        (Some(make), Some(model)) => if is_meaningful_identity(make) && is_meaningful_identity(
            model,
        ) {
            first_match(
                outputs,
                |o: OutputInfo| opt_view(o.make) == Some(make) && opt_view(o.model) == Some(model),
            )
        } else {
            None
        },
        _ => None,
    };
    let by_name = match w.output {
        Some(n) => first_match(outputs, |o: OutputInfo| opt_view(o.name) == Some(n)),
        None => None,
    };
    let by_description = match w.output_description {
        Some(d) => first_match(outputs, |o: OutputInfo| opt_view(o.description) == Some(d)),
        None => None,
    };
    if by_identity is Some {
        Some(outputs[by_identity->0].handle)
    } else if by_name is Some {
        Some(outputs[by_name->0].handle)
    } else if by_description is Some {
        Some(outputs[by_description->0].handle)
    } else {
        None
    }
}

/// Whether the first workspace record with handle `w` says it is active.
pub open spec fn workspace_active(workspaces: Seq<WorkspaceInfo>, w: u64) -> bool {
    match first_match(workspaces, |info: WorkspaceInfo| info.handle == w) {
        Some(i) => workspaces[i].states & WORKSPACE_ACTIVE != 0,
        None => false,
    }
}

/// The workspace a window goes to on monitor `output`: in the first group
/// shown on that monitor, its first active workspace, else its first one.
pub open spec fn spec_workspace_for(
    groups: Seq<WorkspaceGroupInfo>,
    workspaces: Seq<WorkspaceInfo>,
    output: u64,
) -> Option<u64> {
    match first_match(groups, |g: WorkspaceGroupInfo| g.outputs@.contains(output)) {
        None => None,
        Some(gi) => {
            let ws = groups[gi].workspaces@;
            match first_match(ws, |w: u64| workspace_active(workspaces, w)) {
                Some(k) => Some(ws[k]),
                None => if ws.len() > 0 {
                    Some(ws[0])
                } else {
                    None
                },
            }
        },
    }
}

fn clone_opt(o: &Option<String>) -> (r: Option<String>)
    ensures
        opt_view(r) == opt_view(*o),
{
    match o {
        Some(s) => Some(s.clone()),
        None => None,
    }
}

fn clone_window(w: &WindowSnapshot) -> (r: WindowSnapshot)
    ensures
        r@ == w@,
{
    WindowSnapshot {
        desktop_id: w.desktop_id.clone(),
        app_id: w.app_id.clone(),
        title: w.title.clone(),
        output: clone_opt(&w.output),
        output_description: clone_opt(&w.output_description),
        output_make: clone_opt(&w.output_make),
        output_model: clone_opt(&w.output_model),
        maximized: w.maximized,
        minimized: w.minimized,
        fullscreen: w.fullscreen,
    }
}

fn opt_eq(a: &Option<String>, b: &String) -> (r: bool)
    ensures
        r == (opt_view(*a) == Some(b@)),
{
    match a {
        Some(x) => *x == *b,
        None => false,
    }
}

impl RestoreState {
    /// The state before any window or monitor is known: the recorded windows
    /// are all waiting.
    pub fn new_restore(apps: Vec<DesktopApp>, windows: Vec<WindowSnapshot>) -> (s: Self)
        ensures
            s.apps@ == apps@,
            string_views(s.eligible@) == window_views_ids(windows@),
            s.outputs@.len() == 0,
            s.toplevels@.len() == 0,
            s.workspace_groups@.len() == 0,
            s.workspaces@.len() == 0,
            s.restore_targets@.len() == windows@.len(),
            forall|i: int|
                0 <= i < windows@.len() ==> (#[trigger] s.restore_targets@[i]).snapshot == windows@[i]
                    && !s.restore_targets@[i].assigned,
    {
        let ghost ws = windows@;
        let mut eligible: Vec<String> = Vec::new();
        let mut targets: Vec<RestoreTarget> = Vec::new();
        let mut rest = windows;
        let mut i: usize = 0;
        let n = rest.len();
        assert(ws.skip(0) =~= ws);
        while rest.len() > 0
            invariant
                i + rest.len() == ws.len(),
                ws.len() == n,
                rest@ == ws.skip(i as int),
                string_views(eligible@) == window_views_ids(ws.take(i as int)),
                targets.len() == i,
                forall|k: int|
                    0 <= k < i ==> (#[trigger] targets@[k]).snapshot == ws[k] && !targets@[k].assigned,
            decreases rest.len(),
        {
            let w = rest.remove(0);
            let id = w.desktop_id.clone();
            proof {
                eligible@.lemma_push_map_commute(|x: String| x@, id);
                assert(ws.take(i + 1) =~= ws.take(i as int).push(ws[i as int]));
                ws.take(i as int).lemma_push_map_commute(|w: WindowSnapshot| w.desktop_id@, ws[i as int]);
            }
            eligible.push(id);
            targets.push(RestoreTarget { snapshot: w, assigned: false });
            i = i + 1;
            assert(rest@ =~= ws.skip(i as int));
        }
        assert(ws.take(ws.len() as int) =~= ws);
        RestoreState {
            apps,
            eligible,
            outputs: Vec::new(),
            toplevels: Vec::new(),
            workspace_groups: Vec::new(),
            workspaces: Vec::new(),
            restore_targets: targets,
        }
    }

    /// Marks every window known so far as dealt with: windows that were open
    /// before the restore began do not take recorded windows' places.
    pub fn ignore_existing_toplevels(&mut self)
        ensures
            final(self).toplevels@.len() == old(self).toplevels@.len(),
            forall|i: int|
                0 <= i < old(self).toplevels@.len() ==> #[trigger] final(self).toplevels@[i]
                    == (ToplevelInfo { restore_assigned: true, ..old(self).toplevels@[i] }),
            final(self).apps == old(self).apps,
            final(self).eligible == old(self).eligible,
            final(self).outputs == old(self).outputs,
            final(self).workspace_groups == old(self).workspace_groups,
            final(self).workspaces == old(self).workspaces,
            final(self).restore_targets == old(self).restore_targets,
    {
        let ghost before = self.toplevels@;
        let mut i: usize = 0;
        while i < self.toplevels.len()
            invariant
                i <= self.toplevels.len(),
                self.toplevels@.len() == before.len(),
                forall|k: int|
                    0 <= k < i ==> #[trigger] self.toplevels@[k] == (ToplevelInfo {
                        restore_assigned: true,
                        ..before[k]
                    }),
                forall|k: int| i <= k < before.len() ==> #[trigger] self.toplevels@[k] == before[k],
                self.apps == old(self).apps,
                self.eligible == old(self).eligible,
                self.outputs == old(self).outputs,
                self.workspace_groups == old(self).workspace_groups,
                self.workspaces == old(self).workspaces,
                self.restore_targets == old(self).restore_targets,
            decreases self.toplevels.len() - i,
        {
            let mut t = self.toplevels.remove(i);
            t.restore_assigned = true;
            self.toplevels.insert(i, t);
            i = i + 1;
        }
    }

    /// Whether every recorded window has been given a place (and there was
    /// at least one).
    pub fn restore_finished(&self) -> (b: bool)
        ensures
            b == restore_done(self.restore_targets@),
    {
        if self.restore_targets.len() == 0 {
            return false;
        }
        let mut i: usize = 0;
        while i < self.restore_targets.len()
            invariant
                i <= self.restore_targets.len(),
                forall|k: int| 0 <= k < i ==> (#[trigger] self.restore_targets@[k]).assigned,
            decreases self.restore_targets.len() - i,
        {
            if !self.restore_targets[i].assigned {
                return false;
            }
            i = i + 1;
        }
        true
    }

    /// The target a new window of application `desktop_id` titled `title`
    /// takes (see `spec_find_target`).
    pub fn find_restore_target(&self, desktop_id: &String, title: &String) -> (r: Option<usize>)
        ensures
            spec_find_target(
                target_snapshots(self.restore_targets@),
                target_flags(self.restore_targets@),
                desktop_id@,
                title@,
            ) == match r {
                Some(k) => Some(k as int),
                None => None::<int>,
            },
            r matches Some(k) ==> k < self.restore_targets.len(),
    {
        let ghost ts = self.restore_targets@;
        let ghost fl = flagged(target_snapshots(ts), target_flags(ts));
        let ghost p_title = |p: (WindowSnapshot, bool)| fits_with_title(p.0, p.1, desktop_id@, title@);
        let ghost p_any = |p: (WindowSnapshot, bool)| fits(p.0, p.1, desktop_id@);
        if !title.as_str().is_empty() {
            let mut i: usize = 0;
            while i < self.restore_targets.len()
                invariant
                    i <= self.restore_targets.len(),
                    ts == self.restore_targets@,
                    fl == flagged(target_snapshots(ts), target_flags(ts)),
                    p_title == |p: (WindowSnapshot, bool)| fits_with_title(p.0, p.1, desktop_id@, title@),
                    forall|k: int| 0 <= k < i ==> !p_title(#[trigger] fl[k]),
                decreases self.restore_targets.len() - i,
            {
                let t = &self.restore_targets[i];
                if !t.assigned && t.snapshot.desktop_id == *desktop_id && !t.snapshot.title.as_str().is_empty()
                    && t.snapshot.title == *title {
                    proof {
                        assert(p_title(fl[i as int]));
                        lemma_first_match_at(fl, p_title, i as int);
                    }
                    return Some(i);
                }
                i = i + 1;
            }
            proof {
                lemma_first_match_none(fl, p_title);
            }
        }
        let mut j: usize = 0;
        while j < self.restore_targets.len()
            invariant
                j <= self.restore_targets.len(),
                ts == self.restore_targets@,
                fl == flagged(target_snapshots(ts), target_flags(ts)),
                p_any == |p: (WindowSnapshot, bool)| fits(p.0, p.1, desktop_id@),
                p_title == |p: (WindowSnapshot, bool)| fits_with_title(p.0, p.1, desktop_id@, title@),
                title@.len() > 0 ==> first_match(fl, p_title) is None,
                forall|k: int| 0 <= k < j ==> !p_any(#[trigger] fl[k]),
            decreases self.restore_targets.len() - j,
        {
            let t = &self.restore_targets[j];
            if !t.assigned && t.snapshot.desktop_id == *desktop_id {
                proof {
                    assert(p_any(fl[j as int]));
                    lemma_first_match_at(fl, p_any, j as int);
                }
                return Some(j);
            }
            j = j + 1;
        }
        proof {
            lemma_first_match_none(fl, p_any);
        }
        None
    }
}

fn find_output_by_identity(outputs: &Vec<OutputInfo>, make: &String, model: &String) -> (r: Option<u64>)
    ensures
        r == match first_match(
            outputs@,
            |o: OutputInfo| opt_view(o.make) == Some(make@) && opt_view(o.model) == Some(model@),
        ) {
            Some(i) => Some(outputs@[i].handle),
            None => None,
        },
{
    let ghost p = |o: OutputInfo| opt_view(o.make) == Some(make@) && opt_view(o.model) == Some(model@);
    let mut i: usize = 0;
    while i < outputs.len()
        invariant
            i <= outputs.len(),
            p == |o: OutputInfo| opt_view(o.make) == Some(make@) && opt_view(o.model) == Some(model@),
            forall|k: int| 0 <= k < i ==> !p(#[trigger] outputs@[k]),
        decreases outputs.len() - i,
    {
        if opt_eq(&outputs[i].make, make) && opt_eq(&outputs[i].model, model) {
            proof {
                lemma_first_match_at(outputs@, p, i as int);
            }
            return Some(outputs[i].handle);
        }
        i = i + 1;
    }
    proof {
        lemma_first_match_none(outputs@, p);
    }
    None
}

/// Which optional text of a monitor to compare.
enum OutputField {
    Name,
    Description,
}

spec fn field_of(o: OutputInfo, f: OutputField) -> Option<Seq<char>> {
    match f {
        OutputField::Name => opt_view(o.name),
        OutputField::Description => opt_view(o.description),
    }
}

fn find_output_by_field(outputs: &Vec<OutputInfo>, f: OutputField, v: &String) -> (r: Option<u64>)
    ensures
        r == match first_match(outputs@, |o: OutputInfo| field_of(o, f) == Some(v@)) {
            Some(i) => Some(outputs@[i].handle),
            None => None,
        },
{
    let ghost p = |o: OutputInfo| field_of(o, f) == Some(v@);
    let mut i: usize = 0;
    while i < outputs.len()
        invariant
            i <= outputs.len(),
            p == |o: OutputInfo| field_of(o, f) == Some(v@),
            forall|k: int| 0 <= k < i ==> !p(#[trigger] outputs@[k]),
        decreases outputs.len() - i,
    {
        let hit = match f {
            OutputField::Name => opt_eq(&outputs[i].name, v),
            OutputField::Description => opt_eq(&outputs[i].description, v),
        };
        if hit {
            proof {
                lemma_first_match_at(outputs@, p, i as int);
            }
            return Some(outputs[i].handle);
        }
        i = i + 1;
    }
    proof {
        lemma_first_match_none(outputs@, p);
    }
    None
}

fn is_active_workspace(workspaces: &Vec<WorkspaceInfo>, w: u64) -> (b: bool)
    ensures
        b == workspace_active(workspaces@, w),
{
    let ghost p = |info: WorkspaceInfo| info.handle == w;
    let mut i: usize = 0;
    while i < workspaces.len()
        invariant
            i <= workspaces.len(),
            p == |info: WorkspaceInfo| info.handle == w,
            forall|k: int| 0 <= k < i ==> !p(#[trigger] workspaces@[k]),
        decreases workspaces.len() - i,
    {
        if workspaces[i].handle == w {
            proof {
                lemma_first_match_at(workspaces@, p, i as int);
            }
            return workspaces[i].states & WORKSPACE_ACTIVE != 0;
        }
        i = i + 1;
    }
    proof {
        lemma_first_match_none(workspaces@, p);
    }
    false
}

impl RestoreState {
    /// The monitor a recorded window goes back to (see `spec_output_for`).
    pub fn output_for_snapshot(&self, snapshot: &WindowSnapshot) -> (r: Option<u64>)
        ensures
            r == spec_output_for(self.outputs@, snapshot@),
    {
        let ghost w = snapshot@;
        let ghost outputs = self.outputs@;
        let mut by_identity: Option<u64> = None;
        if let (Some(make), Some(model)) = (&snapshot.output_make, &snapshot.output_model) {
            if meaningful_identity(make.as_str()) && meaningful_identity(model.as_str()) {
                by_identity = find_output_by_identity(&self.outputs, make, model);
            }
        }
        proof {
            let p = |o: OutputInfo| opt_view(o.make) == Some(w.output_make->0) && opt_view(o.model)
                == Some(w.output_model->0);
            lemma_first_match(outputs, p);
        }
        if by_identity.is_some() {
            return by_identity;
        }
        if let Some(name) = &snapshot.output {
            let found = find_output_by_field(&self.outputs, OutputField::Name, name);
            proof {
                lemma_first_match(outputs, |o: OutputInfo| field_of(o, OutputField::Name) == Some(name@));
                assert((|o: OutputInfo| field_of(o, OutputField::Name) == Some(name@)) =~= (|o: OutputInfo| opt_view(o.name) == Some(name@)));
            }
            if found.is_some() {
                return found;
            }
        }
        proof {
            if let Some(n) = w.output {
                assert((|o: OutputInfo| field_of(o, OutputField::Name) == Some(n)) =~= (|o: OutputInfo| opt_view(o.name) == Some(n)));
            }
        }
        match &snapshot.output_description {
            Some(d) => {
                let found = find_output_by_field(&self.outputs, OutputField::Description, d);
                proof {
                    assert((|o: OutputInfo| field_of(o, OutputField::Description) == Some(d@)) =~= (|o: OutputInfo| opt_view(o.description) == Some(d@)));
                }
                found
            },
            None => None,
        }
    }

    /// The workspace a window goes to on monitor `output` (see
    /// `spec_workspace_for`).
    pub fn workspace_for_output(&self, output: u64) -> (r: Option<u64>)
        ensures
            r == spec_workspace_for(self.workspace_groups@, self.workspaces@, output),
    {
        let ghost groups = self.workspace_groups@;
        let ghost pg = |g: WorkspaceGroupInfo| g.outputs@.contains(output);
        let mut gi: usize = 0;
        while gi < self.workspace_groups.len()
            invariant
                gi <= self.workspace_groups.len(),
                groups == self.workspace_groups@,
                pg == |g: WorkspaceGroupInfo| g.outputs@.contains(output),
                forall|k: int| 0 <= k < gi ==> !pg(#[trigger] groups[k]),
            decreases self.workspace_groups.len() - gi,
        {
            let g = &self.workspace_groups[gi];
            let mut m: usize = 0;
            let mut on = false;
            while m < g.outputs.len()
                invariant
                    m <= g.outputs.len(),
                    on == exists|k: int| 0 <= k < m && g.outputs@[k] == output,
                decreases g.outputs.len() - m,
            {
                if g.outputs[m] == output {
                    on = true;
                }
                m = m + 1;
            }
            if on {
                proof {
                    lemma_first_match_at(groups, pg, gi as int);
                }
                let ghost ws = g.workspaces@;
                let ghost pw = |w: u64| workspace_active(self.workspaces@, w);
                let mut k: usize = 0;
                while k < g.workspaces.len()
                    invariant
                        k <= g.workspaces.len(),
                        ws == g.workspaces@,
                        gi < groups.len(),
                        groups == self.workspace_groups@,
                        groups[gi as int] == *g,
                        pg == |g: WorkspaceGroupInfo| g.outputs@.contains(output),
                        first_match(groups, pg) == Some(gi as int),
                        pw == |w: u64| workspace_active(self.workspaces@, w),
                        forall|j: int| 0 <= j < k ==> !pw(#[trigger] ws[j]),
                    decreases g.workspaces.len() - k,
                {
                    if is_active_workspace(&self.workspaces, g.workspaces[k]) {
                        proof {
                            lemma_first_match_at(ws, pw, k as int);
                        }
                        return Some(g.workspaces[k]);
                    }
                    k = k + 1;
                }
                proof {
                    lemma_first_match_none(ws, pw);
                }
                if g.workspaces.len() > 0 {
                    return Some(g.workspaces[0]);
                } else {
                    return None;
                }
            }
            assert(!g.outputs@.contains(output));
            gi = gi + 1;
        }
        proof {
            lemma_first_match_none(groups, pg);
        }
        None
    }
}

/// The requests that put a new window `h` where recorded window `w` was: on
/// its monitor (in that monitor's workspace, full screen there or
/// maximized), or just maximized when its monitor is gone; and minimized
/// if it was.
pub open spec fn requests_for(
    outputs: Seq<OutputInfo>,
    groups: Seq<WorkspaceGroupInfo>,
    workspaces: Seq<WorkspaceInfo>,
    w: WindowView,
    h: u64,
) -> Seq<RestoreRequest> {
    let placed = match spec_output_for(outputs, w) {
        Some(o) => {
            let moved = match spec_workspace_for(groups, workspaces, o) {
                Some(ws) => seq![
                    RestoreRequest::MoveToWorkspace { toplevel: h, workspace: ws, output: o },
                ],
                None => Seq::empty(),
            };
            let state = if w.fullscreen {
                seq![RestoreRequest::SetFullscreen { toplevel: h, output: o }]
            } else if w.maximized {
                seq![RestoreRequest::SetMaximized { toplevel: h }]
            } else {
                Seq::empty()
            };
            moved + state
        },
        None => if w.maximized {
            seq![RestoreRequest::SetMaximized { toplevel: h }]
        } else {
            Seq::empty()
        },
    };
    placed + if w.minimized {
        seq![RestoreRequest::SetMinimized { toplevel: h }]
    } else {
        Seq::empty()
    }
}

/// The title of a window, empty when it has none.
pub open spec fn title_of(t: ToplevelInfo) -> Seq<char> {
    match t.title {
        Some(x) => x@,
        None => Seq::empty(),
    }
}

/// What happens to one window in a restore pass.
pub enum StepOutcome {
    /// Not ready, already dealt with, or of no recorded application.
    Skip,
    /// Of a recorded application with no free target: it is left alone.
    Unmatched,
    /// It takes target `k`.
    Matched(int),
}

/// What happens to window `i` when the targets' flags are `tg` and its own
/// flag is `flag`.
pub open spec fn step_outcome(s: RestoreState, tg: Seq<bool>, flag: bool, i: int) -> StepOutcome {
    let t = s.toplevels@[i];
    if !t.ready || flag {
        StepOutcome::Skip
    } else {
        match t.app_id {
            None => StepOutcome::Skip,
            Some(a) => match spec_find_desktop_id(s.apps@, string_views(s.eligible@), a@) {
                None => StepOutcome::Skip,
                Some(d) => match spec_find_target(
                    target_snapshots(s.restore_targets@),
                    tg,
                    d,
                    title_of(t),
                ) {
                    None => StepOutcome::Unmatched,
                    Some(k) => StepOutcome::Matched(k),
                },
            },
        }
    }
}

/// A restore pass over the first `n` windows: the windows' flags, the
/// targets' flags, and the requests made, in order.
pub open spec fn restore_run(s: RestoreState, n: nat) -> (Seq<bool>, Seq<bool>, Seq<RestoreRequest>)
    decreases n,
{
    if n == 0 {
        (toplevel_flags(s.toplevels@), target_flags(s.restore_targets@), Seq::empty())
    } else {
        let prev = restore_run(s, (n - 1) as nat);
        let i = n - 1;
        match step_outcome(s, prev.1, toplevel_flags(s.toplevels@)[i], i) {
            StepOutcome::Skip => prev,
            StepOutcome::Unmatched => (prev.0.update(i, true), prev.1, prev.2),
            StepOutcome::Matched(k) => (
                prev.0.update(i, true),
                prev.1.update(k, true),
                prev.2 + requests_for(
                    s.outputs@,
                    s.workspace_groups@,
                    s.workspaces@,
                    s.restore_targets@[k].snapshot@,
                    s.toplevels@[i].handle,
                ),
            ),
        }
    }
}

/// The windows with the given flags.
pub open spec fn with_toplevel_flags(ts: Seq<ToplevelInfo>, flags: Seq<bool>) -> Seq<ToplevelInfo> {
    Seq::new(ts.len(), |i: int| ToplevelInfo { restore_assigned: flags[i], ..ts[i] })
}

/// The targets with the given flags.
pub open spec fn with_target_flags(ts: Seq<RestoreTarget>, flags: Seq<bool>) -> Seq<RestoreTarget> {
    Seq::new(ts.len(), |i: int| RestoreTarget { assigned: flags[i], ..ts[i] })
}

proof fn lemma_restore_run_shape(s: RestoreState, n: nat)
    requires
        n <= s.toplevels@.len(),
    ensures
        restore_run(s, n).0.len() == s.toplevels@.len(),
        restore_run(s, n).1.len() == s.restore_targets@.len(),
        forall|j: int|
            n <= j < s.toplevels@.len() ==> #[trigger] restore_run(s, n).0[j] == s.toplevels@[j].restore_assigned,
    decreases n,
{
    if n > 0 {
        lemma_restore_run_shape(s, (n - 1) as nat);
        let prev = restore_run(s, (n - 1) as nat);
        let i = n - 1;
        match step_outcome(s, prev.1, toplevel_flags(s.toplevels@)[i], i) {
            StepOutcome::Matched(k) => {
                let snaps = target_snapshots(s.restore_targets@);
                let d = spec_find_desktop_id(s.apps@, string_views(s.eligible@), s.toplevels@[i].app_id->0@)->0;
                let title = title_of(s.toplevels@[i]);
                let fl = flagged(snaps, prev.1);
                lemma_first_match(fl, |p: (WindowSnapshot, bool)| fits_with_title(p.0, p.1, d, title));
                lemma_first_match(fl, |p: (WindowSnapshot, bool)| fits(p.0, p.1, d));
            },
            _ => {},
        }
    }
}

impl RestoreState {
    fn mark_toplevel(&mut self, i: usize)
        requires
            i < old(self).toplevels.len(),
        ensures
            final(self).toplevels@ == old(self).toplevels@.update(
                i as int,
                ToplevelInfo { restore_assigned: true, ..old(self).toplevels@[i as int] },
            ),
            final(self).apps == old(self).apps,
            final(self).eligible == old(self).eligible,
            final(self).outputs == old(self).outputs,
            final(self).workspace_groups == old(self).workspace_groups,
            final(self).workspaces == old(self).workspaces,
            final(self).restore_targets == old(self).restore_targets,
    {
        let mut t = self.toplevels.remove(i);
        t.restore_assigned = true;
        self.toplevels.insert(i, t);
        assert(self.toplevels@ =~= old(self).toplevels@.update(
            i as int,
            ToplevelInfo { restore_assigned: true, ..old(self).toplevels@[i as int] },
        ));
    }

    fn mark_target(&mut self, k: usize)
        requires
            k < old(self).restore_targets.len(),
        ensures
            final(self).restore_targets@ == old(self).restore_targets@.update(
                k as int,
                RestoreTarget { assigned: true, ..old(self).restore_targets@[k as int] },
            ),
            final(self).apps == old(self).apps,
            final(self).eligible == old(self).eligible,
            final(self).outputs == old(self).outputs,
            final(self).workspace_groups == old(self).workspace_groups,
            final(self).workspaces == old(self).workspaces,
            final(self).toplevels == old(self).toplevels,
    {
        let mut t = self.restore_targets.remove(k);
        t.assigned = true;
        self.restore_targets.insert(k, t);
        assert(self.restore_targets@ =~= old(self).restore_targets@.update(
            k as int,
            RestoreTarget { assigned: true, ..old(self).restore_targets@[k as int] },
        ));
    }

    fn requests_for_window(&self, target: &WindowSnapshot, h: u64) -> (r: Vec<RestoreRequest>)
        ensures
            r@ == requests_for(self.outputs@, self.workspace_groups@, self.workspaces@, target@, h),
    {
        let mut r: Vec<RestoreRequest> = Vec::new();
        match self.output_for_snapshot(target) {
            Some(o) => {
                if let Some(ws) = self.workspace_for_output(o) {
                    r.push(RestoreRequest::MoveToWorkspace { toplevel: h, workspace: ws, output: o });
                }
                if target.fullscreen {
                    r.push(RestoreRequest::SetFullscreen { toplevel: h, output: o });
                } else if target.maximized {
                    r.push(RestoreRequest::SetMaximized { toplevel: h });
                }
            },
            None => {
                if target.maximized {
                    r.push(RestoreRequest::SetMaximized { toplevel: h });
                }
            },
        }
        if target.minimized {
            r.push(RestoreRequest::SetMinimized { toplevel: h });
        }
        assert(r@ =~= requests_for(self.outputs@, self.workspace_groups@, self.workspaces@, target@, h));
        r
    }

    /// Deals with window `i` in a restore pass that began in state `s0`.
    #[verifier::rlimit(60)]
    fn restore_step(&mut self, i: usize, requests: &mut Vec<RestoreRequest>, Ghost(s0): Ghost<RestoreState>)
        requires
            i < s0.toplevels@.len(),
            old(self).toplevels@ == with_toplevel_flags(s0.toplevels@, restore_run(s0, i as nat).0),
            old(self).restore_targets@ == with_target_flags(
                s0.restore_targets@,
                restore_run(s0, i as nat).1,
            ),
            old(requests)@ == restore_run(s0, i as nat).2,
            old(self).apps == s0.apps,
            old(self).eligible == s0.eligible,
            old(self).outputs == s0.outputs,
            old(self).workspace_groups == s0.workspace_groups,
            old(self).workspaces == s0.workspaces,
        ensures
            final(self).toplevels@ == with_toplevel_flags(s0.toplevels@, restore_run(s0, (i + 1) as nat).0),
            final(self).restore_targets@ == with_target_flags(
                s0.restore_targets@,
                restore_run(s0, (i + 1) as nat).1,
            ),
            final(requests)@ == restore_run(s0, (i + 1) as nat).2,
            final(self).apps == s0.apps,
            final(self).eligible == s0.eligible,
            final(self).outputs == s0.outputs,
            final(self).workspace_groups == s0.workspace_groups,
            final(self).workspaces == s0.workspaces,
    {
        proof {
            lemma_restore_run_shape(s0, i as nat);
            lemma_restore_run_shape(s0, (i + 1) as nat);
        }
        let ghost prev = restore_run(s0, i as nat);
        let ghost next = restore_run(s0, (i + 1) as nat);
        let ghost t0 = s0.toplevels@[i as int];
        assert(self.toplevels@[i as int] == ToplevelInfo { restore_assigned: prev.0[i as int], ..t0 });
        assert(toplevel_flags(s0.toplevels@)[i as int] == t0.restore_assigned);
        assert(target_snapshots(self.restore_targets@) =~= target_snapshots(s0.restore_targets@));
        assert(target_flags(self.restore_targets@) =~= prev.1);
        if !self.toplevels[i].ready || self.toplevels[i].restore_assigned {
            assert(next == prev);
            return ;
        }
        let app_id = match &self.toplevels[i].app_id {
            Some(a) => a.clone(),
            None => {
                assert(next == prev);
                return ;
            },
        };
        let ghost a = t0.app_id->0;
        assert(app_id@ == a@);
        let desktop_id = match find_desktop_id_for_app_id(
            app_id.as_str(),
            self.apps.as_slice(),
            self.eligible.as_slice(),
        ) {
            Some(d) => d.to_owned(),
            None => {
                assert(next == prev);
                return ;
            },
        };
        assert(spec_find_desktop_id(s0.apps@, string_views(s0.eligible@), a@) == Some(desktop_id@));
        let title = match &self.toplevels[i].title {
            Some(x) => x.clone(),
            None => String::new(),
        };
        assert(title@ == title_of(t0));
        let found = self.find_restore_target(&desktop_id, &title);
        assert(spec_find_target(target_snapshots(s0.restore_targets@), prev.1, desktop_id@, title_of(t0)) == match found {
            Some(k) => Some(k as int),
            None => None::<int>,
        });
        match found {
            None => {
                assert(step_outcome(s0, prev.1, t0.restore_assigned, i as int) == StepOutcome::Unmatched);
                self.mark_toplevel(i);
                proof {
                    assert(self.toplevels@ =~= with_toplevel_flags(s0.toplevels@, next.0));
                }
            },
            Some(k) => {
                assert(step_outcome(s0, prev.1, t0.restore_assigned, i as int) == StepOutcome::Matched(k as int));
                let target = clone_window(&self.restore_targets[k].snapshot);
                let h = self.toplevels[i].handle;
                let more = self.requests_for_window(&target, h);
                proof {
                    assert(self.restore_targets@[k as int].snapshot == s0.restore_targets@[k as int].snapshot);
                    assert(next.2 == prev.2 + more@);
                    assert(next.1 == prev.1.update(k as int, true));
                }
                let mut m: usize = 0;
                let ghost base = requests@;
                while m < more.len()
                    invariant
                        m <= more.len(),
                        requests@ == base + more@.take(m as int),
                    decreases more.len() - m,
                {
                    requests.push(more[m]);
                    m = m + 1;
                    assert(requests@ =~= base + more@.take(m as int));
                }
                assert(more@.take(more.len() as int) =~= more@);
                self.mark_target(k);
                self.mark_toplevel(i);
                proof {
                    assert(self.toplevels@ =~= with_toplevel_flags(s0.toplevels@, next.0));
                    assert(self.restore_targets@ =~= with_target_flags(s0.restore_targets@, next.1));
                }
            },
        }
    }

    /// One restore pass: every ready window not yet dealt with that belongs
    /// to a recorded application takes a free target (see `restore_run`) and
    /// the requests that put it in place are returned. Without a window
    /// manager to send requests to, nothing happens.
    pub fn apply_restore_requests(&mut self, manager_bound: bool) -> (r: Vec<RestoreRequest>)
        ensures
            !manager_bound ==> *final(self) == *old(self) && r@.len() == 0,
            manager_bound ==> {
                let run = restore_run(*old(self), old(self).toplevels@.len());
                &&& final(self).toplevels@ == with_toplevel_flags(old(self).toplevels@, run.0)
                &&& final(self).restore_targets@ == with_target_flags(
                    old(self).restore_targets@,
                    run.1,
                )
                &&& r@ == run.2
                &&& final(self).apps == old(self).apps
                &&& final(self).eligible == old(self).eligible
                &&& final(self).outputs == old(self).outputs
                &&& final(self).workspace_groups == old(self).workspace_groups
                &&& final(self).workspaces == old(self).workspaces
            },
    {
        let mut requests: Vec<RestoreRequest> = Vec::new();
        if !manager_bound {
            return requests;
        }
        let ghost s0 = *self;
        let n = self.toplevels.len();
        proof {
            lemma_restore_run_shape(s0, 0);
            assert(self.toplevels@ =~= with_toplevel_flags(s0.toplevels@, restore_run(s0, 0).0));
            assert(self.restore_targets@ =~= with_target_flags(s0.restore_targets@, restore_run(s0, 0).1));
        }
        let mut i: usize = 0;
        while i < n
            invariant
                i <= n == s0.toplevels@.len(),
                self.toplevels@ == with_toplevel_flags(s0.toplevels@, restore_run(s0, i as nat).0),
                self.restore_targets@ == with_target_flags(
                    s0.restore_targets@,
                    restore_run(s0, i as nat).1,
                ),
                requests@ == restore_run(s0, i as nat).2,
                self.apps == s0.apps,
                self.eligible == s0.eligible,
                self.outputs == s0.outputs,
                self.workspace_groups == s0.workspace_groups,
                self.workspaces == s0.workspaces,
            decreases n - i,
        {
            self.restore_step(i, &mut requests, Ghost(s0));
            i = i + 1;
        }
        requests
    }
}

// ---------------------------------------------------------------------
// What the compositor reports
// ---------------------------------------------------------------------

/// A change the compositor reports about a window.
pub enum ToplevelEvent {
    Title(String),
    AppId(String),
    OutputEnter(u64),
    OutputLeave(u64),
    /// The raw protocol array of its state values.
    State(Vec<u8>),
    /// The description is complete.
    Done,
    Closed,
}

/// A change the compositor reports about a monitor.
pub enum OutputEvent {
    Geometry { make: String, model: String },
    Name(String),
    Description(String),
}

/// A change the compositor reports about a workspace group.
pub enum WorkspaceGroupEvent {
    OutputEnter(u64),
    OutputLeave(u64),
    WorkspaceEnter(u64),
    WorkspaceLeave(u64),
    Removed,
}

/// A change the compositor reports about a workspace.
pub enum WorkspaceEvent {
    /// The workspace's state bits.
    State(u32),
    Removed,
}

/// `v` with `x` added at the end unless already present.
pub open spec fn with_added(v: Seq<u64>, x: u64) -> Seq<u64> {
    if v.contains(x) {
        v
    } else {
        v.push(x)
    }
}

/// Whether a handle differs from `x`.
pub open spec fn differs_from(x: u64) -> spec_fn(u64) -> bool {
    |y: u64| y != x
}

/// `v` without any copy of `x`.
pub open spec fn without(v: Seq<u64>, x: u64) -> Seq<u64> {
    v.filter(differs_from(x))
}

/// Whether `n` is window `o` after event `ev` (other than `Closed`).
pub open spec fn toplevel_updated(o: ToplevelInfo, n: ToplevelInfo, ev: ToplevelEvent) -> bool {
    match ev {
        ToplevelEvent::Title(t) => n == ToplevelInfo { title: Some(t), ..o },
        ToplevelEvent::AppId(a) => n == ToplevelInfo { app_id: Some(a), ..o },
        ToplevelEvent::OutputEnter(x) => n == ToplevelInfo { outputs: n.outputs, ..o }
            && n.outputs@ == with_added(o.outputs@, x),
        ToplevelEvent::OutputLeave(x) => n == ToplevelInfo { outputs: n.outputs, ..o }
            && n.outputs@ == without(o.outputs@, x),
        ToplevelEvent::State(bytes) => n == ToplevelInfo { states: n.states, ..o } && (as_ints(
            n.states@,
        ) == u32_values(bytes@, true) || as_ints(n.states@) == u32_values(bytes@, false)),
        ToplevelEvent::Done => n == ToplevelInfo { ready: true, ..o },
        ToplevelEvent::Closed => true,
    }
}

/// Whether `n` is monitor `o` after event `ev`.
pub open spec fn output_updated(o: OutputInfo, n: OutputInfo, ev: OutputEvent) -> bool {
    match ev {
        OutputEvent::Geometry { make, model } => n == OutputInfo { make: n.make, model: n.model, ..o }
            && opt_view(n.make) == spec_non_empty(make@) && opt_view(n.model) == spec_non_empty(
            model@,
        ),
        OutputEvent::Name(x) => n == OutputInfo { name: Some(x), ..o },
        OutputEvent::Description(x) => n == OutputInfo { description: Some(x), ..o },
    }
}

/// Whether `n` is group `o` after event `ev` (other than `Removed`).
pub open spec fn group_updated(
    o: WorkspaceGroupInfo,
    n: WorkspaceGroupInfo,
    ev: WorkspaceGroupEvent,
) -> bool {
    match ev {
        WorkspaceGroupEvent::OutputEnter(x) => n.handle == o.handle && n.workspaces
            == o.workspaces && n.outputs@ == with_added(o.outputs@, x),
        WorkspaceGroupEvent::OutputLeave(x) => n.handle == o.handle && n.workspaces
            == o.workspaces && n.outputs@ == without(o.outputs@, x),
        WorkspaceGroupEvent::WorkspaceEnter(x) => n.handle == o.handle && n.outputs == o.outputs
            && n.workspaces@ == with_added(o.workspaces@, x),
        WorkspaceGroupEvent::WorkspaceLeave(x) => n.handle == o.handle && n.outputs == o.outputs
            && n.workspaces@ == without(o.workspaces@, x),
        WorkspaceGroupEvent::Removed => true,
    }
}

/// Whether `new` is `old` with element `i` (the first one with the given
/// handle, if any) changed as `changed` says and every other unchanged.
pub open spec fn changed_first<T>(
    old: Seq<T>,
    new: Seq<T>,
    found: Option<int>,
    changed: spec_fn(T, T) -> bool,
) -> bool {
    match found {
        None => new == old,
        Some(i) => new.len() == old.len() && changed(old[i], new[i]) && forall|j: int|
            0 <= j < old.len() && j != i ==> new[j] == old[j],
    }
}

fn add_unique(v: &mut Vec<u64>, x: u64)
    ensures
        final(v)@ == with_added(old(v)@, x),
{
    let mut i: usize = 0;
    while i < v.len()
        invariant
            i <= v.len(),
            v@ == old(v)@,
            forall|k: int| 0 <= k < i ==> v@[k] != x,
        decreases v.len() - i,
    {
        if v[i] == x {
            assert(v@[i as int] == x);
            return ;
        }
        i = i + 1;
    }
    v.push(x);
}

fn remove_all(v: &mut Vec<u64>, x: u64)
    ensures
        final(v)@ == without(old(v)@, x),
{
    let ghost o = v@;
    let mut kept: Vec<u64> = Vec::new();
    let mut i: usize = 0;
    while i < v.len()
        invariant
            i <= v.len(),
            v@ == o,
            kept@ == without(o.take(i as int), x),
        decreases v.len() - i,
    {
        proof {
            o.take(i as int).lemma_filter_push(o[i as int], differs_from(x));
            assert(o.take(i + 1) =~= o.take(i as int).push(o[i as int]));
        }
        if v[i] != x {
            kept.push(v[i]);
        }
        i = i + 1;
    }
    assert(o.take(o.len() as int) =~= o);
    *v = kept;
}

impl RestoreState {
    /// A monitor appeared; nothing is known of it yet.
    pub fn add_output(&mut self, handle: u64)
        ensures
            final(self).outputs@ == old(self).outputs@.push(
                OutputInfo { handle, name: None, description: None, make: None, model: None },
            ),
            final(self).toplevels == old(self).toplevels,
            final(self).workspace_groups == old(self).workspace_groups,
            final(self).workspaces == old(self).workspaces,
            final(self).restore_targets == old(self).restore_targets,
            final(self).apps == old(self).apps,
            final(self).eligible == old(self).eligible,
    {
        self.outputs.push(OutputInfo { handle, name: None, description: None, make: None, model: None });
    }

    /// A window appeared; nothing is known of it yet.
    pub fn add_toplevel(&mut self, handle: u64)
        ensures
            final(self).toplevels@.len() == old(self).toplevels@.len() + 1,
            final(self).toplevels@.drop_last() == old(self).toplevels@,
            final(self).toplevels@.last().handle == handle,
            final(self).toplevels@.last().title is None,
            final(self).toplevels@.last().app_id is None,
            final(self).toplevels@.last().outputs@.len() == 0,
            final(self).toplevels@.last().states@.len() == 0,
            !final(self).toplevels@.last().ready,
            !final(self).toplevels@.last().restore_assigned,
            final(self).outputs == old(self).outputs,
            final(self).workspace_groups == old(self).workspace_groups,
            final(self).workspaces == old(self).workspaces,
            final(self).restore_targets == old(self).restore_targets,
            final(self).apps == old(self).apps,
            final(self).eligible == old(self).eligible,
    {
        self.toplevels.push(
            ToplevelInfo {
                handle,
                title: None,
                app_id: None,
                outputs: Vec::new(),
                states: Vec::new(),
                ready: false,
                restore_assigned: false,
            },
        );
        assert(self.toplevels@.drop_last() =~= old(self).toplevels@);
    }

    /// A workspace group appeared.
    pub fn add_workspace_group(&mut self, handle: u64)
        ensures
            final(self).workspace_groups@.len() == old(self).workspace_groups@.len() + 1,
            final(self).workspace_groups@.drop_last() == old(self).workspace_groups@,
            final(self).workspace_groups@.last().handle == handle,
            final(self).workspace_groups@.last().outputs@.len() == 0,
            final(self).workspace_groups@.last().workspaces@.len() == 0,
            final(self).outputs == old(self).outputs,
            final(self).toplevels == old(self).toplevels,
            final(self).workspaces == old(self).workspaces,
            final(self).restore_targets == old(self).restore_targets,
            final(self).apps == old(self).apps,
            final(self).eligible == old(self).eligible,
    {
        self.workspace_groups.push(
            WorkspaceGroupInfo { handle, outputs: Vec::new(), workspaces: Vec::new() },
        );
        assert(self.workspace_groups@.drop_last() =~= old(self).workspace_groups@);
    }

    /// A workspace appeared, with no state yet.
    pub fn add_workspace(&mut self, handle: u64)
        ensures
            final(self).workspaces@ == old(self).workspaces@.push(
                WorkspaceInfo { handle, states: 0 },
            ),
            final(self).outputs == old(self).outputs,
            final(self).toplevels == old(self).toplevels,
            final(self).workspace_groups == old(self).workspace_groups,
            final(self).restore_targets == old(self).restore_targets,
            final(self).apps == old(self).apps,
            final(self).eligible == old(self).eligible,
    {
        self.workspaces.push(WorkspaceInfo { handle, states: 0 });
    }

    /// Applies what the compositor reports about window `handle` to the
    /// first window with that handle; a closed window is removed (every
    /// window with that handle).
    pub fn toplevel_event(&mut self, handle: u64, event: ToplevelEvent)
        ensures
            event is Closed ==> final(self).toplevels@ == old(self).toplevels@.filter(
                |t: ToplevelInfo| t.handle != handle,
            ),
            !(event is Closed) ==> changed_first(
                old(self).toplevels@,
                final(self).toplevels@,
                first_match(old(self).toplevels@, |t: ToplevelInfo| t.handle == handle),
                |o: ToplevelInfo, n: ToplevelInfo| toplevel_updated(o, n, event),
            ),
            final(self).outputs == old(self).outputs,
            final(self).workspace_groups == old(self).workspace_groups,
            final(self).workspaces == old(self).workspaces,
            final(self).restore_targets == old(self).restore_targets,
            final(self).apps == old(self).apps,
            final(self).eligible == old(self).eligible,
    {
        let ghost o = self.toplevels@;
        if let ToplevelEvent::Closed = event {
            let ghost pred = |t: ToplevelInfo| t.handle != handle;
            let mut rest: Vec<ToplevelInfo> = Vec::new();
            std::mem::swap(&mut rest, &mut self.toplevels);
            let mut kept: Vec<ToplevelInfo> = Vec::new();
            let mut i: usize = 0;
            let n = rest.len();
            assert(o.skip(0) =~= o);
            while rest.len() > 0
                invariant
                    i + rest.len() == o.len(),
                    o.len() == n,
                    rest@ == o.skip(i as int),
                    pred == |t: ToplevelInfo| t.handle != handle,
                    kept@ == o.take(i as int).filter(pred),
                decreases rest.len(),
            {
                let t = rest.remove(0);
                proof {
                    o.take(i as int).lemma_filter_push(o[i as int], pred);
                    assert(o.take(i + 1) =~= o.take(i as int).push(o[i as int]));
                }
                if t.handle != handle {
                    kept.push(t);
                }
                i = i + 1;
                assert(rest@ =~= o.skip(i as int));
            }
            assert(o.take(o.len() as int) =~= o);
            self.toplevels = kept;
            return ;
        }
        let ghost p = |t: ToplevelInfo| t.handle == handle;
        let mut i: usize = 0;
        while i < self.toplevels.len()
            invariant
                i <= self.toplevels.len(),
                o == self.toplevels@,
                p == |t: ToplevelInfo| t.handle == handle,
                forall|k: int| 0 <= k < i ==> !p(#[trigger] o[k]),
            ensures
                i <= self.toplevels.len(),
                o == self.toplevels@,
                forall|k: int| 0 <= k < i ==> !p(#[trigger] o[k]),
                i < self.toplevels.len() ==> o[i as int].handle == handle,
            decreases self.toplevels.len() - i,
        {
            if self.toplevels[i].handle == handle {
                break;
            }
            i = i + 1;
        }
        if i == self.toplevels.len() {
            proof {
                lemma_first_match_none(o, p);
            }
            return ;
        }
        proof {
            lemma_first_match_at(o, p, i as int);
        }
        let mut t = self.toplevels.remove(i);
        let ghost before = t;
        match event {
            ToplevelEvent::Title(title) => {
                t.title = Some(title);
            },
            ToplevelEvent::AppId(app_id) => {
                t.app_id = Some(app_id);
            },
            ToplevelEvent::OutputEnter(x) => {
                add_unique(&mut t.outputs, x);
            },
            ToplevelEvent::OutputLeave(x) => {
                remove_all(&mut t.outputs, x);
            },
            ToplevelEvent::State(bytes) => {
                t.states = parse_u32_array(bytes.as_slice());
            },
            ToplevelEvent::Done => {
                t.ready = true;
            },
            ToplevelEvent::Closed => {},
        }
        self.toplevels.insert(i, t);
        proof {
            assert(self.toplevels@[i as int] == t);
            assert forall|j: int| 0 <= j < o.len() && j != i implies self.toplevels@[j] == o[j] by {}
        }
    }

    /// Applies what the compositor reports about monitor `handle` to the
    /// first monitor with that handle.
    pub fn output_event(&mut self, handle: u64, event: OutputEvent)
        ensures
            changed_first(
                old(self).outputs@,
                final(self).outputs@,
                first_match(old(self).outputs@, |o: OutputInfo| o.handle == handle),
                |o: OutputInfo, n: OutputInfo| output_updated(o, n, event),
            ),
            final(self).toplevels == old(self).toplevels,
            final(self).workspace_groups == old(self).workspace_groups,
            final(self).workspaces == old(self).workspaces,
            final(self).restore_targets == old(self).restore_targets,
            final(self).apps == old(self).apps,
            final(self).eligible == old(self).eligible,
    {
        let ghost o = self.outputs@;
        let ghost p = |x: OutputInfo| x.handle == handle;
        let mut i: usize = 0;
        while i < self.outputs.len()
            invariant
                i <= self.outputs.len(),
                o == self.outputs@,
                p == |x: OutputInfo| x.handle == handle,
                forall|k: int| 0 <= k < i ==> !p(#[trigger] o[k]),
            ensures
                i <= self.outputs.len(),
                o == self.outputs@,
                forall|k: int| 0 <= k < i ==> !p(#[trigger] o[k]),
                i < self.outputs.len() ==> o[i as int].handle == handle,
            decreases self.outputs.len() - i,
        {
            if self.outputs[i].handle == handle {
                break;
            }
            i = i + 1;
        }
        if i == self.outputs.len() {
            proof {
                lemma_first_match_none(o, p);
            }
            return ;
        }
        proof {
            lemma_first_match_at(o, p, i as int);
        }
        let mut info = self.outputs.remove(i);
        match event {
            OutputEvent::Geometry { make, model } => {
                info.make = non_empty_string(make.as_str());
                info.model = non_empty_string(model.as_str());
            },
            OutputEvent::Name(name) => {
                info.name = Some(name);
            },
            OutputEvent::Description(description) => {
                info.description = Some(description);
            },
        }
        self.outputs.insert(i, info);
        proof {
            assert(self.outputs@[i as int] == info);
            assert forall|j: int| 0 <= j < o.len() && j != i implies self.outputs@[j] == o[j] by {}
        }
    }

    /// Applies what the compositor reports about workspace group `handle`:
    /// a removed group is dropped (every group with that handle), other
    /// changes go to the first group with that handle.
    pub fn workspace_group_event(&mut self, handle: u64, event: WorkspaceGroupEvent)
        ensures
            event is Removed ==> final(self).workspace_groups@ == old(self).workspace_groups@.filter(
                |g: WorkspaceGroupInfo| g.handle != handle,
            ),
            !(event is Removed) ==> changed_first(
                old(self).workspace_groups@,
                final(self).workspace_groups@,
                first_match(old(self).workspace_groups@, |g: WorkspaceGroupInfo| g.handle == handle),
                |o: WorkspaceGroupInfo, n: WorkspaceGroupInfo| group_updated(o, n, event),
            ),
            final(self).outputs == old(self).outputs,
            final(self).toplevels == old(self).toplevels,
            final(self).workspaces == old(self).workspaces,
            final(self).restore_targets == old(self).restore_targets,
            final(self).apps == old(self).apps,
            final(self).eligible == old(self).eligible,
    {
        let ghost o = self.workspace_groups@;
        if let WorkspaceGroupEvent::Removed = event {
            let ghost pred = |g: WorkspaceGroupInfo| g.handle != handle;
            let mut rest: Vec<WorkspaceGroupInfo> = Vec::new();
            std::mem::swap(&mut rest, &mut self.workspace_groups);
            let mut kept: Vec<WorkspaceGroupInfo> = Vec::new();
            let mut i: usize = 0;
            let n = rest.len();
            assert(o.skip(0) =~= o);
            while rest.len() > 0
                invariant
                    i + rest.len() == o.len(),
                    o.len() == n,
                    rest@ == o.skip(i as int),
                    pred == |g: WorkspaceGroupInfo| g.handle != handle,
                    kept@ == o.take(i as int).filter(pred),
                decreases rest.len(),
            {
                let g = rest.remove(0);
                proof {
                    o.take(i as int).lemma_filter_push(o[i as int], pred);
                    assert(o.take(i + 1) =~= o.take(i as int).push(o[i as int]));
                }
                if g.handle != handle {
                    kept.push(g);
                }
                i = i + 1;
                assert(rest@ =~= o.skip(i as int));
            }
            assert(o.take(o.len() as int) =~= o);
            self.workspace_groups = kept;
            return ;
        }
        let ghost p = |g: WorkspaceGroupInfo| g.handle == handle;
        let mut i: usize = 0;
        while i < self.workspace_groups.len()
            invariant
                i <= self.workspace_groups.len(),
                o == self.workspace_groups@,
                p == |g: WorkspaceGroupInfo| g.handle == handle,
                forall|k: int| 0 <= k < i ==> !p(#[trigger] o[k]),
            ensures
                i <= self.workspace_groups.len(),
                o == self.workspace_groups@,
                forall|k: int| 0 <= k < i ==> !p(#[trigger] o[k]),
                i < self.workspace_groups.len() ==> o[i as int].handle == handle,
            decreases self.workspace_groups.len() - i,
        {
            if self.workspace_groups[i].handle == handle {
                break;
            }
            i = i + 1;
        }
        if i == self.workspace_groups.len() {
            proof {
                lemma_first_match_none(o, p);
            }
            return ;
        }
        proof {
            lemma_first_match_at(o, p, i as int);
        }
        let mut g = self.workspace_groups.remove(i);
        match event {
            WorkspaceGroupEvent::OutputEnter(x) => add_unique(&mut g.outputs, x),
            WorkspaceGroupEvent::OutputLeave(x) => remove_all(&mut g.outputs, x),
            WorkspaceGroupEvent::WorkspaceEnter(x) => add_unique(&mut g.workspaces, x),
            WorkspaceGroupEvent::WorkspaceLeave(x) => remove_all(&mut g.workspaces, x),
            WorkspaceGroupEvent::Removed => {},
        }
        self.workspace_groups.insert(i, g);
        proof {
            assert(self.workspace_groups@[i as int] == g);
            assert forall|j: int| 0 <= j < o.len() && j != i implies self.workspace_groups@[j] == o[j] by {}
        }
    }

    /// Applies what the compositor reports about workspace `handle`: a
    /// removed workspace leaves the list and every group; a new state goes
    /// to the first workspace with that handle.
    pub fn workspace_event(&mut self, handle: u64, event: WorkspaceEvent)
        ensures
            event is Removed ==> {
                &&& final(self).workspaces@ == old(self).workspaces@.filter(
                    |w: WorkspaceInfo| w.handle != handle,
                )
                &&& final(self).workspace_groups@.len() == old(self).workspace_groups@.len()
                &&& forall|j: int|
                    0 <= j < old(self).workspace_groups@.len() ==> {
                        let og = old(self).workspace_groups@[j];
                        let ng = #[trigger] final(self).workspace_groups@[j];
                        ng.handle == og.handle && ng.outputs == og.outputs && ng.workspaces@
                            == without(og.workspaces@, handle)
                    }
            },
            event matches WorkspaceEvent::State(bits) ==> {
                &&& changed_first(
                    old(self).workspaces@,
                    final(self).workspaces@,
                    first_match(old(self).workspaces@, |w: WorkspaceInfo| w.handle == handle),
                    |o: WorkspaceInfo, n: WorkspaceInfo| n == WorkspaceInfo { states: bits, ..o },
                )
                &&& final(self).workspace_groups == old(self).workspace_groups
            },
            final(self).outputs == old(self).outputs,
            final(self).toplevels == old(self).toplevels,
            final(self).restore_targets == old(self).restore_targets,
            final(self).apps == old(self).apps,
            final(self).eligible == old(self).eligible,
    {
        let ghost o = self.workspaces@;
        match event {
            WorkspaceEvent::Removed => {
                let ghost pred = |w: WorkspaceInfo| w.handle != handle;
                let mut kept: Vec<WorkspaceInfo> = Vec::new();
                let mut i: usize = 0;
                while i < self.workspaces.len()
                    invariant
                        i <= self.workspaces.len(),
                        o == self.workspaces@,
                        pred == |w: WorkspaceInfo| w.handle != handle,
                        kept@ == o.take(i as int).filter(pred),
                    decreases self.workspaces.len() - i,
                {
                    proof {
                        o.take(i as int).lemma_filter_push(o[i as int], pred);
                        assert(o.take(i + 1) =~= o.take(i as int).push(o[i as int]));
                    }
                    if self.workspaces[i].handle != handle {
                        kept.push(WorkspaceInfo { handle: self.workspaces[i].handle, states: self.workspaces[i].states });
                    }
                    i = i + 1;
                }
                assert(o.take(o.len() as int) =~= o);
                self.workspaces = kept;
                let ghost og = self.workspace_groups@;
                let mut j: usize = 0;
                while j < self.workspace_groups.len()
                    invariant
                        j <= self.workspace_groups.len(),
                        self.workspace_groups@.len() == og.len(),
                        forall|k: int|
                            0 <= k < j ==> {
                                let ng = #[trigger] self.workspace_groups@[k];
                                ng.handle == og[k].handle && ng.outputs == og[k].outputs
                                    && ng.workspaces@ == without(og[k].workspaces@, handle)
                            },
                        forall|k: int| j <= k < og.len() ==> #[trigger] self.workspace_groups@[k] == og[k],
                        self.outputs == old(self).outputs,
                        self.toplevels == old(self).toplevels,
                        self.restore_targets == old(self).restore_targets,
                        self.apps == old(self).apps,
                        self.eligible == old(self).eligible,
                        self.workspaces@ == o.filter(pred),
                    decreases self.workspace_groups.len() - j,
                {
                    let mut g = self.workspace_groups.remove(j);
                    remove_all(&mut g.workspaces, handle);
                    self.workspace_groups.insert(j, g);
                    j = j + 1;
                }
            },
            WorkspaceEvent::State(bits) => {
                let ghost p = |w: WorkspaceInfo| w.handle == handle;
                let mut i: usize = 0;
                while i < self.workspaces.len()
                    invariant
                        i <= self.workspaces.len(),
                        o == self.workspaces@,
                        p == |w: WorkspaceInfo| w.handle == handle,
                        forall|k: int| 0 <= k < i ==> !p(#[trigger] o[k]),
                    ensures
                        i <= self.workspaces.len(),
                        o == self.workspaces@,
                        forall|k: int| 0 <= k < i ==> !p(#[trigger] o[k]),
                        i < self.workspaces.len() ==> o[i as int].handle == handle,
                    decreases self.workspaces.len() - i,
                {
                    if self.workspaces[i].handle == handle {
                        break;
                    }
                    i = i + 1;
                }
                if i == self.workspaces.len() {
                    proof {
                        lemma_first_match_none(o, p);
                    }
                    return ;
                }
                proof {
                    lemma_first_match_at(o, p, i as int);
                }
                let w = WorkspaceInfo { handle: self.workspaces[i].handle, states: bits };
                self.workspaces.set(i, w);
            },
        }
    }
}

// ---------------------------------------------------------------------
// The worker's passes
// ---------------------------------------------------------------------

/// The most restore passes the worker makes.
pub const RESTORE_PASSES: u32 = 100;

/// Whether every recorded window has been given a place (and there was at
/// least one).
pub open spec fn restore_done(ts: Seq<RestoreTarget>) -> bool {
    ts.len() > 0 && forall|i: int| 0 <= i < ts.len() ==> (#[trigger] ts[i]).assigned
}

/// What the worker does after a pass.
#[derive(Debug, Clone, Copy, PartialEq, Eq, Structural)]
pub enum WorkerStep {
    /// It is done.
    Stop,
    /// It waits a moment and makes another pass.
    Wait,
}

/// Whether there is anything to restore: a snapshot with at least one window.
pub fn restore_needed(snapshot: &Option<SessionSnapshot>) -> (r: bool)
    ensures
        r == (snapshot matches Some(s) && s.windows@.len() > 0),
{
    match snapshot {
        Some(s) => s.windows.len() > 0,
        None => false,
    }
}

impl RestoreState {
    /// What follows pass number `pass` (counted from zero): the worker stops
    /// once every recorded window has its place or after the last pass.
    pub fn after_pass(&self, pass: u32) -> (r: WorkerStep)
        ensures
            r == if restore_done(self.restore_targets@) || pass + 1 >= RESTORE_PASSES {
                WorkerStep::Stop
            } else {
                WorkerStep::Wait
            },
    {
        if self.restore_finished() || pass >= RESTORE_PASSES - 1 {
            WorkerStep::Stop
        } else {
            WorkerStep::Wait
        }
    }
}

/// The desktop ids of recorded windows.
pub open spec fn window_views_ids(ws: Seq<WindowSnapshot>) -> Seq<Seq<char>> {
    ws.map_values(|w: WindowSnapshot| w.desktop_id@)
}

} // verus!
