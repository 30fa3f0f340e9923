//! Properties that hold across the library's operations.
use vstd::prelude::*;
use crate::agent::{
    recorded_windows, sorted_windows, window_key, window_output, OutputRecord, ToplevelRecord,
};
use crate::config::{differs, toggled};
use crate::desktop::{
    candidate_aliases, claims, desktop_aliases, exec_word, extra_aliases, file_name,
    spec_executable, spec_find_desktop_id, DesktopApp, EntryValues,
};
use crate::interface::escaped;
use crate::order::{
    key_lt, lemma_first_match, lemma_same_elements, lemma_stable_sorted_props, stable_sorted,
};
use crate::restore::{
    fits, fits_with_title, flagged, requests_for, restore_run, spec_find_target, spec_output_for,
    step_outcome, target_flags, target_snapshots, toplevel_flags, OutputInfo, RestoreRequest,
    RestoreState, StepOutcome, ToplevelEvent, ToplevelInfo, WorkspaceGroupInfo, WorkspaceInfo,
};
use crate::session::{has_window_of, window_selected, WindowSnapshot, WindowView};
use crate::text::{ascii_lower, is_ascii_alnum, is_normal_identifier, lemma_normalized_is_normal, normalized};

verus! {

/// A normalised identifier normalises to itself.
proof fn lemma_normal_fixed(s: Seq<char>)
    requires
        is_normal_identifier(s),
    ensures
        normalized(s) == s,
    decreases s.len(),
{
    if s.len() > 0 {
        let t = s.drop_last();
        assert(is_normal_identifier(t)) by {
            assert forall|i: int| 0 <= i < t.len() implies is_ascii_alnum(#[trigger] t[i]) && ascii_lower(t[i]) == t[i] by {
                assert(t[i] == s[i]);
            }
        }
        lemma_normal_fixed(t);
        assert(is_ascii_alnum(s[s.len() - 1]));
        assert(s =~= t.push(s.last()));
    }
}

/// Normalising an identifier twice gives what normalising it once gives.
pub proof fn law_normalize_idempotent(s: Seq<char>)
    ensures
        normalized(normalized(s)) == normalized(s),
{
    lemma_normalized_is_normal(s);
    lemma_normal_fixed(normalized(s));
}

/// Every identifier derived from a launcher is non-empty and made of
/// lower-case ASCII letters and digits.
pub proof fn law_aliases_normal(id: Seq<char>, values: EntryValues)
    ensures
        forall|a: Seq<char>|
            #[trigger] desktop_aliases(id, values).contains(a) ==> a.len() > 0
                && is_normal_identifier(a),
{
    assert forall|a: Seq<char>| #[trigger] desktop_aliases(id, values).contains(a) implies a.len() > 0
        && is_normal_identifier(a) by {
        assert(candidate_aliases(id, values).contains(a));
        lemma_normalized_is_normal(crate::desktop::strip_suffix_all(id, ".desktop"@));
        if let Some(w) = crate::desktop::lookup(values, "StartupWMClass"@) {
            lemma_normalized_is_normal(w);
        }
        if let Some(e) = crate::desktop::lookup(values, "Exec"@) {
            if let Some(x) = crate::desktop::spec_executable(e) {
                lemma_normalized_is_normal(x);
                lemma_normalized_is_normal("google-chrome"@);
                lemma_normalized_is_normal("Google-chrome"@);
                lemma_normalized_is_normal("org.mozilla.firefox"@);
                lemma_normalized_is_normal("visual-studio-code"@);
                assert(extra_aliases(x).contains(a) ==> is_normal_identifier(a));
            }
        }
    }
}

/// The application a window is recorded under is eligible.
proof fn lemma_found_id_eligible(apps: Seq<DesktopApp>, eligible: Seq<Seq<char>>, app_id: Seq<char>)
    ensures
        spec_find_desktop_id(apps, eligible, app_id) matches Some(d) ==> eligible.contains(d),
{
    if exists|k: int| 0 <= k < apps.len() && claims(apps, eligible, app_id, k) {
        let k0 = choose|k: int| 0 <= k < apps.len() && claims(apps, eligible, app_id, k);
        lemma_least_claim(apps, eligible, app_id, k0);
    }
}

proof fn lemma_least_claim(apps: Seq<DesktopApp>, eligible: Seq<Seq<char>>, app_id: Seq<char>, k0: int)
    requires
        0 <= k0 < apps.len(),
        claims(apps, eligible, app_id, k0),
    ensures
        exists|k: int|
            0 <= k < apps.len() && claims(apps, eligible, app_id, k) && forall|j: int|
                0 <= j < k ==> !claims(apps, eligible, app_id, j),
    decreases k0,
{
    if exists|j: int| 0 <= j < k0 && claims(apps, eligible, app_id, j) {
        let j = choose|j: int| 0 <= j < k0 && claims(apps, eligible, app_id, j);
        lemma_least_claim(apps, eligible, app_id, j);
    } else {
        assert(forall|j: int| 0 <= j < k0 ==> !claims(apps, eligible, app_id, j));
    }
}

proof fn lemma_recorded_eligible(
    apps: Seq<DesktopApp>,
    eligible: Seq<Seq<char>>,
    ts: Seq<ToplevelRecord>,
    memory: Map<Seq<char>, u64>,
    outputs: Seq<OutputRecord>,
)
    ensures
        forall|i: int|
            0 <= i < recorded_windows(apps, eligible, ts, memory, outputs).len() ==> eligible.contains(
                (#[trigger] recorded_windows(apps, eligible, ts, memory, outputs)[i]).desktop_id,
            ),
    decreases ts.len(),
{
    if ts.len() > 0 {
        lemma_recorded_eligible(apps, eligible, ts.drop_last(), memory, outputs);
        let t = ts.last();
        lemma_found_id_eligible(apps, eligible, crate::text::trimmed(t.app_id@));
    }
}

/// Only windows of eligible applications are recorded, and a snapshot holds
/// as many windows as were recorded.
pub proof fn law_only_eligible_windows_recorded(
    apps: Seq<DesktopApp>,
    eligible: Seq<Seq<char>>,
    ts: Seq<ToplevelRecord>,
    memory: Map<Seq<char>, u64>,
    outputs: Seq<OutputRecord>,
)
    ensures
        ({
            let ws = recorded_windows(apps, eligible, ts, memory, outputs);
            &&& sorted_windows(ws).len() == ws.len()
            &&& forall|i: int|
                0 <= i < sorted_windows(ws).len() ==> eligible.contains(
                    (#[trigger] sorted_windows(ws)[i]).desktop_id,
                )
        }),
{
    let ws = recorded_windows(apps, eligible, ts, memory, outputs);
    lemma_recorded_eligible(apps, eligible, ts, memory, outputs);
    let keyed = ws.map_values(|w: WindowView| (window_key(w), w));
    lemma_stable_sorted_props(keyed);
    let sorted = stable_sorted(keyed);
    assert forall|i: int| 0 <= i < sorted_windows(ws).len() implies eligible.contains(
        (#[trigger] sorted_windows(ws)[i]).desktop_id,
    ) by {
        lemma_same_elements(sorted, keyed, i);
        let m = choose|m: int| 0 <= m < keyed.len() && keyed[m] == sorted[i];
        assert(keyed[m].1 == ws[m]);
    }
}

/// The windows of a snapshot are ordered by desktop id and then by title.
pub proof fn law_snapshot_windows_sorted(ws: Seq<WindowView>)
    ensures
        forall|i: int, j: int|
            0 <= i < j < sorted_windows(ws).len() ==> !key_lt(
                window_key(sorted_windows(ws)[j]),
                window_key(sorted_windows(ws)[i]),
            ),
{
    let keyed = ws.map_values(|w: WindowView| (window_key(w), w));
    lemma_stable_sorted_props(keyed);
    let sorted = stable_sorted(keyed);
    assert forall|i: int, j: int| 0 <= i < j < sorted_windows(ws).len() implies !key_lt(
        window_key(sorted_windows(ws)[j]),
        window_key(sorted_windows(ws)[i]),
    ) by {
        lemma_same_elements(sorted, keyed, i);
        lemma_same_elements(sorted, keyed, j);
        let mi = choose|m: int| 0 <= m < keyed.len() && keyed[m] == sorted[i];
        let mj = choose|m: int| 0 <= m < keyed.len() && keyed[m] == sorted[j];
        assert(sorted[i].0 == window_key(sorted[i].1));
        assert(sorted[j].0 == window_key(sorted[j].1));
    }
}

/// The applications offered at login are selected ones that had a window
/// open when the snapshot was taken.
pub proof fn law_restorable_were_open(
    selected: Seq<Seq<char>>,
    windows: Seq<WindowSnapshot>,
    id: Seq<char>,
)
    requires
        selected.filter(|x: Seq<char>| has_window_of(windows, x)).contains(id),
    ensures
        selected.contains(id),
        has_window_of(windows, id),
{
    let p = |x: Seq<char>| has_window_of(windows, x);
    selected.lemma_filter_contains_rev(p, id);
    let f = selected.filter(p);
    let i = choose|i: int| 0 <= i < f.len() && f[i] == id;
    selected.lemma_filter_pred(p, i);
}

/// Every selected application with a window open is offered at login.
pub proof fn law_open_selected_offered(
    selected: Seq<Seq<char>>,
    windows: Seq<WindowSnapshot>,
    id: Seq<char>,
)
    requires
        selected.contains(id),
        has_window_of(windows, id),
    ensures
        selected.filter(|x: Seq<char>| has_window_of(windows, x)).contains(id),
{
    let i = choose|i: int| 0 <= i < selected.len() && selected[i] == id;
    selected.lemma_filter_contains(|x: Seq<char>| has_window_of(windows, x), i);
}

proof fn lemma_filter_idempotent<A>(s: Seq<A>, p: spec_fn(A) -> bool)
    ensures
        s.filter(p).filter(p) == s.filter(p),
    decreases s.len(),
{
    if s.len() > 0 {
        let t = s.drop_last();
        lemma_filter_idempotent(t, p);
        t.lemma_filter_push(s.last(), p);
        assert(s =~= t.push(s.last()));
        if p(s.last()) {
            t.filter(p).lemma_filter_push(s.last(), p);
        }
    } else {
        assert(s.filter(p) =~= s);
        assert(s.filter(p).filter(p) =~= s);
    }
}

/// A snapshot restricted to the selection holds only selected windows, and
/// restricting it again changes nothing.
pub proof fn law_restriction_idempotent(windows: Seq<WindowSnapshot>, selected: Seq<Seq<char>>)
    ensures
        ({
            let p = |w: WindowSnapshot| window_selected(selected, w);
            &&& windows.filter(p).filter(p) == windows.filter(p)
            &&& forall|i: int|
                0 <= i < windows.filter(p).len() ==> selected.contains(
                    (#[trigger] windows.filter(p)[i]).desktop_id@,
                )
        }),
{
    let p = |w: WindowSnapshot| window_selected(selected, w);
    lemma_filter_idempotent(windows, p);
    assert forall|i: int| 0 <= i < windows.filter(p).len() implies selected.contains(
        (#[trigger] windows.filter(p)[i]).desktop_id@,
    ) by {
        windows.lemma_filter_pred(p, i);
    }
}

/// Switching an application on selects it, and switching it on again
/// changes nothing.
pub proof fn law_toggle_on(selected: Seq<Seq<char>>, id: Seq<char>)
    ensures
        toggled(selected, id, true).contains(id),
        toggled(toggled(selected, id, true), id, true) == toggled(selected, id, true),
        forall|x: Seq<char>| #[trigger] selected.contains(x) ==> toggled(selected, id, true).contains(x),
{
    if !selected.contains(id) {
        assert(selected.push(id)[selected.len() as int] == id);
        assert forall|x: Seq<char>| #[trigger] selected.contains(x) implies selected.push(id).contains(x) by {
            let i = choose|i: int| 0 <= i < selected.len() && selected[i] == x;
            assert(selected.push(id)[i] == x);
        }
    }
}

/// Switching an application off deselects it and leaves every other
/// selected application selected.
pub proof fn law_toggle_off(selected: Seq<Seq<char>>, id: Seq<char>)
    ensures
        !toggled(selected, id, false).contains(id),
        forall|x: Seq<char>|
            x != id ==> (#[trigger] toggled(selected, id, false).contains(x) <==> selected.contains(x)),
{
    let p = differs(id);
    let f = selected.filter(p);
    if f.contains(id) {
        let i = choose|i: int| 0 <= i < f.len() && f[i] == id;
        selected.lemma_filter_pred(p, i);
    }
    assert forall|x: Seq<char>| x != id implies (#[trigger] toggled(selected, id, false).contains(x)
        <==> selected.contains(x)) by {
        if f.contains(x) {
            selected.lemma_filter_contains_rev(p, x);
        }
        if selected.contains(x) {
            let i = choose|i: int| 0 <= i < selected.len() && selected[i] == x;
            selected.lemma_filter_contains(p, i);
        }
    }
}

/// The target a new window takes is free and recorded for its application.
pub proof fn law_target_is_free(
    snaps: Seq<WindowSnapshot>,
    flags: Seq<bool>,
    desktop_id: Seq<char>,
    title: Seq<char>,
)
    requires
        flags.len() == snaps.len(),
    ensures
        spec_find_target(snaps, flags, desktop_id, title) matches Some(k) ==> 0 <= k < snaps.len()
            && !flags[k] && snaps[k].desktop_id@ == desktop_id,
{
    let fl = flagged(snaps, flags);
    lemma_first_match(fl, |p: (WindowSnapshot, bool)| fits_with_title(p.0, p.1, desktop_id, title));
    lemma_first_match(fl, |p: (WindowSnapshot, bool)| fits(p.0, p.1, desktop_id));
}

/// A restore pass never frees a target, never takes back that a window was
/// dealt with, and keeps the number of flags.
pub proof fn law_restore_run_monotone(s: RestoreState, n: nat)
    requires
        n <= s.toplevels@.len(),
    ensures
        ({
            let run = restore_run(s, n);
            &&& run.0.len() == s.toplevels@.len()
            &&& run.1.len() == s.restore_targets@.len()
            &&& forall|i: int|
                0 <= i < s.toplevels@.len() && toplevel_flags(s.toplevels@)[i] ==> #[trigger] run.0[i]
            &&& forall|k: int|
                0 <= k < s.restore_targets@.len() && target_flags(s.restore_targets@)[k]
                    ==> #[trigger] run.1[k]
        }),
    decreases n,
{
    if n > 0 {
        law_restore_run_monotone(s, (n - 1) as nat);
        let prev = restore_run(s, (n - 1) as nat);
        let i = n - 1;
        if let StepOutcome::Matched(k) = step_outcome(s, prev.1, toplevel_flags(s.toplevels@)[i], i) {
            let d = spec_find_desktop_id(
                s.apps@,
                crate::desktop::string_views(s.eligible@),
                s.toplevels@[i].app_id->0@,
            )->0;
            law_target_is_free(
                target_snapshots(s.restore_targets@),
                prev.1,
                d,
                crate::restore::title_of(s.toplevels@[i]),
            );
        }
    }
}

/// Once a restore pass has taken a target, the target stays taken for the
/// rest of the pass.
proof fn lemma_taken_stays_taken(s: RestoreState, m1: nat, m2: nat, k: int)
    requires
        m1 <= m2 <= s.toplevels@.len(),
        0 <= k < s.restore_targets@.len(),
        restore_run(s, m1).1[k],
    ensures
        restore_run(s, m2).1[k],
    decreases m2,
{
    if m2 > m1 {
        lemma_taken_stays_taken(s, m1, (m2 - 1) as nat, k);
        law_restore_run_monotone(s, (m2 - 1) as nat);
        let prev = restore_run(s, (m2 - 1) as nat);
        let i = m2 - 1;
        let t = s.toplevels@[i];
        if let StepOutcome::Matched(k2) = step_outcome(s, prev.1, toplevel_flags(s.toplevels@)[i], i) {
            let d = spec_find_desktop_id(
                s.apps@,
                crate::desktop::string_views(s.eligible@),
                t.app_id->0@,
            )->0;
            law_target_is_free(
                target_snapshots(s.restore_targets@),
                prev.1,
                d,
                crate::restore::title_of(t),
            );
        }
    }
}

/// In a restore pass no two windows take the same recorded window: a
/// window that takes target `k` leaves it to no later window.
pub proof fn law_target_taken_once(s: RestoreState, i: int, j: int, k: int)
    requires
        0 <= i < j < s.toplevels@.len(),
        step_outcome(s, restore_run(s, i as nat).1, toplevel_flags(s.toplevels@)[i], i)
            == StepOutcome::Matched(k),
    ensures
        step_outcome(s, restore_run(s, j as nat).1, toplevel_flags(s.toplevels@)[j], j)
            != StepOutcome::Matched(k),
{
    law_restore_run_monotone(s, i as nat);
    law_restore_run_monotone(s, (i + 1) as nat);
    let prev = restore_run(s, i as nat);
    let t = s.toplevels@[i];
    let d = spec_find_desktop_id(s.apps@, crate::desktop::string_views(s.eligible@), t.app_id->0@)->0;
    law_target_is_free(target_snapshots(s.restore_targets@), prev.1, d, crate::restore::title_of(t));
    assert(restore_run(s, (i + 1) as nat).1[k]);
    lemma_taken_stays_taken(s, (i + 1) as nat, j as nat, k);
    law_restore_run_monotone(s, j as nat);
    let later = restore_run(s, j as nat);
    let u = s.toplevels@[j];
    if step_outcome(s, later.1, toplevel_flags(s.toplevels@)[j], j) == StepOutcome::Matched(k) {
        let dj = spec_find_desktop_id(s.apps@, crate::desktop::string_views(s.eligible@), u.app_id->0@)->0;
        law_target_is_free(target_snapshots(s.restore_targets@), later.1, dj, crate::restore::title_of(u));
    }
}

/// When every window has already been dealt with (as after
/// `ignore_existing_toplevels`), a restore pass takes no target and asks
/// nothing.
pub proof fn law_existing_windows_take_nothing(s: RestoreState, n: nat)
    requires
        n <= s.toplevels@.len(),
        forall|i: int| 0 <= i < s.toplevels@.len() ==> (#[trigger] s.toplevels@[i]).restore_assigned,
    ensures
        restore_run(s, n) == (toplevel_flags(s.toplevels@), target_flags(s.restore_targets@), Seq::<crate::restore::RestoreRequest>::empty()),
    decreases n,
{
    if n > 0 {
        law_existing_windows_take_nothing(s, (n - 1) as nat);
        assert(toplevel_flags(s.toplevels@)[n - 1] == s.toplevels@[n - 1].restore_assigned);
    }
}

/// A window that is on no monitor for the moment (as on another workspace)
/// is recorded on the monitor it was last seen on, for as long as it stays
/// open: `remembered` is the memory after `remember_current_output` saw it on
/// `o`, and `kept` what `persist_snapshot` keeps of it while `t` is open.
pub proof fn law_hidden_window_keeps_monitor(
    memory: Map<Seq<char>, u64>,
    t: ToplevelRecord,
    o: u64,
    open: Seq<ToplevelRecord>,
)
    requires
        t.geometry_output is None,
        t.entered_output is None,
        open.contains(t),
    ensures
        ({
            let remembered = memory.insert(t.identifier@, o);
            let kept = Map::new(
                |k: Seq<char>|
                    remembered.contains_key(k) && exists|i: int|
                        0 <= i < open.len() && (#[trigger] open[i]).identifier@ == k,
                |k: Seq<char>| remembered[k],
            );
            window_output(t, kept) == Some(o)
        }),
{
    let i = choose|i: int| 0 <= i < open.len() && open[i] == t;
    assert(open[i].identifier@ == t.identifier@);
}

/// Escaping a concatenation escapes each part.
proof fn lemma_escaped_append(a: Seq<char>, b: Seq<char>)
    ensures
        escaped(a + b) == escaped(a) + escaped(b),
    decreases b.len(),
{
    if b.len() == 0 {
        assert(a + b =~= a);
        assert(escaped(a) + escaped(b) =~= escaped(a));
    } else {
        let c = b.last();
        lemma_escaped_append(a, b.drop_last());
        assert((a + b).drop_last() =~= a + b.drop_last());
        assert((a + b).last() == c);
        if c == '\\' || c == '"' {
            assert(escaped(a + b) =~= escaped(a) + escaped(b));
        } else {
            assert(escaped(a + b) =~= escaped(a) + escaped(b));
        }
    }
}

/// Inside double quotes, the first word of an escaped text is the text.
proof fn lemma_exec_word_escaped(p: Seq<char>, rest: Seq<char>)
    ensures
        exec_word(escaped(p) + rest, true, false) == p + exec_word(rest, true, false),
    decreases p.len(),
{
    if p.len() == 0 {
        assert(escaped(p) + rest =~= rest);
        assert(p + exec_word(rest, true, false) =~= exec_word(rest, true, false));
    } else {
        let c = p[0];
        let q = p.drop_first();
        assert(p =~= seq![c] + q);
        lemma_escaped_append(seq![c], q);
        assert(seq![c].drop_last() =~= Seq::<char>::empty());
        assert(escaped(Seq::<char>::empty()) =~= Seq::<char>::empty());
        assert(seq![c].last() == c);
        assert(escaped(seq![c]) == escaped(seq![c].drop_last()) + if c == '\\' || c == '"' {
            seq!['\\', c]
        } else {
            seq![c]
        }) by {
            assert(escaped(Seq::<char>::empty()).push('\\').push(c) =~= seq!['\\', c]);
            assert(escaped(Seq::<char>::empty()).push(c) =~= seq![c]);
        }
        lemma_exec_word_escaped(q, rest);
        let tail = escaped(q) + rest;
        if c == '\\' || c == '"' {
            assert(escaped(seq![c]) =~= seq!['\\', c]);
            let s = escaped(p) + rest;
            assert(s =~= seq!['\\', c] + tail);
            assert(s.drop_first() =~= seq![c] + tail);
            assert((seq![c] + tail).drop_first() =~= tail);
            assert(exec_word(s, true, false) == exec_word(seq![c] + tail, true, true));
            assert(exec_word(seq![c] + tail, true, true) == seq![c] + exec_word(tail, true, false));
        } else {
            assert(escaped(seq![c]) =~= seq![c]);
            let s = escaped(p) + rest;
            assert(s =~= seq![c] + tail);
            assert(s.drop_first() =~= tail);
            assert(exec_word(s, true, false) == seq![c] + exec_word(tail, true, false));
        }
        assert(p + exec_word(rest, true, false) =~= seq![c] + (q + exec_word(rest, true, false)));
    }
}

/// A path quoted for a launcher's `Exec` line, followed by the autostart
/// option, names as its program the path's file name: reading back what
/// `desktop_quote` wrote gives `executable_from_exec` the path itself.
pub proof fn law_quoted_path_round_trip(p: Seq<char>)
    ensures
        spec_executable(seq!['"'] + escaped(p) + seq!['"'] + " --autostart"@) == file_name(p),
{
    reveal_strlit(" --autostart");
    let opt = " --autostart"@;
    let s = seq!['"'] + escaped(p) + seq!['"'] + opt;
    assert(s[0] == '"');
    assert(s.last() == 't');
    assert(crate::text::trim_start(s) == s);
    assert(crate::text::trim_end(s) == s);
    let rest = seq!['"'] + opt;
    assert(s.drop_first() =~= escaped(p) + rest);
    lemma_exec_word_escaped(p, rest);
    assert(rest.drop_first() =~= opt);
    assert(exec_word(rest, true, false) == exec_word(opt, false, false));
    assert(exec_word(opt, false, false) == Seq::<char>::empty());
    assert(p + Seq::<char>::empty() =~= p);
    assert(exec_word(s, false, false) == p);
}

/// During a restore pass a window's flag is its own until its turn, and
/// afterwards what its turn made it.
proof fn lemma_window_flag_after(s: RestoreState, i: int, m: nat)
    requires
        0 <= i < s.toplevels@.len(),
        m <= s.toplevels@.len(),
    ensures
        m <= i ==> restore_run(s, m).0[i] == toplevel_flags(s.toplevels@)[i],
        m > i ==> restore_run(s, m).0[i] == restore_run(s, (i + 1) as nat).0[i],
    decreases m,
{
    if m > 0 {
        lemma_window_flag_after(s, i, (m - 1) as nat);
        law_restore_run_monotone(s, (m - 1) as nat);
        law_restore_run_monotone(s, 0);
    } else {
        law_restore_run_monotone(s, 0);
    }
}

/// What window `i`'s turn in a pass is, given the pass so far.
pub open spec fn turn(s: RestoreState, i: int) -> StepOutcome {
    step_outcome(s, restore_run(s, i as nat).1, toplevel_flags(s.toplevels@)[i], i)
}

/// A target taken during the first `m` turns was taken by one of them.
proof fn lemma_taken_by_a_turn(s: RestoreState, m: nat, k: int)
    requires
        m <= s.toplevels@.len(),
        0 <= k < s.restore_targets@.len(),
        !target_flags(s.restore_targets@)[k],
        restore_run(s, m).1[k],
    ensures
        exists|i: int| 0 <= i < m && #[trigger] turn(s, i) == StepOutcome::Matched(k),
    decreases m,
{
    if m == 0 {
        assert(restore_run(s, 0).1 == target_flags(s.restore_targets@));
    } else {
        let i = m - 1;
        law_restore_run_monotone(s, i as nat);
        let prev = restore_run(s, i as nat);
        if prev.1[k] {
            lemma_taken_by_a_turn(s, i as nat, k);
            let j = choose|j: int| 0 <= j < i && #[trigger] turn(s, j) == StepOutcome::Matched(k);
            assert(turn(s, j) == StepOutcome::Matched(k));
        } else {
            let t = s.toplevels@[i];
            if let StepOutcome::Matched(k2) = turn(s, i) {
                let d = spec_find_desktop_id(
                    s.apps@,
                    crate::desktop::string_views(s.eligible@),
                    t.app_id->0@,
                )->0;
                law_target_is_free(
                    target_snapshots(s.restore_targets@),
                    prev.1,
                    d,
                    crate::restore::title_of(t),
                );
                assert(k2 == k);
            }
            assert(turn(s, i) == StepOutcome::Matched(k));
        }
    }
}

/// A restore pass leaves alone every window that is not ready or already
/// dealt with (its flag stays, and no request is made for it); every ready
/// window of a recorded application ends dealt with; and every target it
/// newly takes was taken by a window that was not dealt with before and is
/// afterwards. (No two windows take the same target: `law_target_taken_once`.)
pub proof fn law_restore_pass(s: RestoreState)
    ensures
        ({
            let n = s.toplevels@.len();
            let run = restore_run(s, n);
            let flags = toplevel_flags(s.toplevels@);
            &&& run.0.len() == n
            &&& run.1.len() == s.restore_targets@.len()
            &&& forall|i: int|
                0 <= i < n && (!s.toplevels@[i].ready || s.toplevels@[i].restore_assigned) ==> {
                    &&& #[trigger] run.0[i] == s.toplevels@[i].restore_assigned
                    &&& turn(s, i) == StepOutcome::Skip
                }
            &&& forall|i: int|
                0 <= i < n && s.toplevels@[i].ready && (s.toplevels@[i].app_id matches Some(a)
                    && spec_find_desktop_id(s.apps@, crate::desktop::string_views(s.eligible@), a@)
                    is Some) ==> #[trigger] run.0[i]
            &&& forall|k: int|
                0 <= k < s.restore_targets@.len() && !target_flags(s.restore_targets@)[k]
                    && #[trigger] run.1[k] ==> exists|i: int|
                    0 <= i < n && !flags[i] && run.0[i] && #[trigger] turn(s, i)
                        == StepOutcome::Matched(k)
        }),
{
    let n = s.toplevels@.len();
    let run = restore_run(s, n);
    let flags = toplevel_flags(s.toplevels@);
    law_restore_run_monotone(s, n);
    assert forall|i: int|
        0 <= i < n && (!s.toplevels@[i].ready || s.toplevels@[i].restore_assigned) implies {
        &&& #[trigger] run.0[i] == s.toplevels@[i].restore_assigned
        &&& turn(s, i) == StepOutcome::Skip
    } by {
        lemma_window_turn(s, i);
    }
    assert forall|i: int|
        0 <= i < n && s.toplevels@[i].ready && (s.toplevels@[i].app_id matches Some(a)
            && spec_find_desktop_id(s.apps@, crate::desktop::string_views(s.eligible@), a@)
            is Some) implies #[trigger] run.0[i] by {
        lemma_window_turn(s, i);
    }
    assert forall|k: int|
        0 <= k < s.restore_targets@.len() && !target_flags(s.restore_targets@)[k]
            && #[trigger] run.1[k] implies exists|i: int|
        0 <= i < n && !flags[i] && run.0[i] && #[trigger] turn(s, i) == StepOutcome::Matched(k) by {
        lemma_taken_by_a_turn(s, n, k);
        let i = choose|i: int| 0 <= i < n && #[trigger] turn(s, i) == StepOutcome::Matched(k);
        lemma_window_turn(s, i);
    }
}

/// What a pass does to window `i`, by the kind of its turn.
proof fn lemma_window_turn(s: RestoreState, i: int)
    requires
        0 <= i < s.toplevels@.len(),
    ensures
        ({
            let t = s.toplevels@[i];
            let last = restore_run(s, s.toplevels@.len()).0[i];
            &&& toplevel_flags(s.toplevels@)[i] == t.restore_assigned
            &&& last == (t.restore_assigned || turn(s, i) != StepOutcome::Skip)
            &&& (!t.ready || t.restore_assigned) ==> turn(s, i) == StepOutcome::Skip
            &&& (t.ready && !t.restore_assigned && (t.app_id matches Some(a) && spec_find_desktop_id(
                s.apps@,
                crate::desktop::string_views(s.eligible@),
                a@,
            ) is Some)) ==> turn(s, i) != StepOutcome::Skip
        }),
{
    let n = s.toplevels@.len();
    lemma_window_flag_after(s, i, i as nat);
    lemma_window_flag_after(s, i, n);
    law_restore_run_monotone(s, i as nat);
    assert(toplevel_flags(s.toplevels@)[i] == s.toplevels@[i].restore_assigned);
}

// ---------------------------------------------------------------------
// What restoring asks of the compositor
// ---------------------------------------------------------------------

/// The window a request is for.
pub open spec fn request_window(r: RestoreRequest) -> u64 {
    match r {
        RestoreRequest::MoveToWorkspace { toplevel, workspace: _, output: _ } => toplevel,
        RestoreRequest::SetFullscreen { toplevel, output: _ } => toplevel,
        RestoreRequest::SetMaximized { toplevel } => toplevel,
        RestoreRequest::SetMinimized { toplevel } => toplevel,
    }
}

/// The request that maximizes window `h`.
pub open spec fn maximize(h: u64) -> RestoreRequest {
    RestoreRequest::SetMaximized { toplevel: h }
}

/// The request that minimizes window `h`.
pub open spec fn minimize(h: u64) -> RestoreRequest {
    RestoreRequest::SetMinimized { toplevel: h }
}

/// The request that puts window `h` full screen on monitor `o`.
pub open spec fn fullscreen_on(h: u64, o: u64) -> RestoreRequest {
    RestoreRequest::SetFullscreen { toplevel: h, output: o }
}

/// Restoring brings back a window's states: a maximized window is maximized
/// again unless it goes full screen on its monitor; when its monitor is
/// gone (none connected, or none that matches) it is just maximized; a
/// full-screen window whose monitor is found goes full screen there; and a
/// minimized window is minimized, as the last request. Every request is for
/// the new window `h`.
pub proof fn law_window_states_restored(
    outputs: Seq<OutputInfo>,
    groups: Seq<WorkspaceGroupInfo>,
    workspaces: Seq<WorkspaceInfo>,
    w: WindowView,
    h: u64,
)
    ensures
        w.maximized && !(w.fullscreen && spec_output_for(outputs, w) is Some) ==> requests_for(
            outputs,
            groups,
            workspaces,
            w,
            h,
        ).contains(maximize(h)),
        w.fullscreen && spec_output_for(outputs, w) is Some ==> requests_for(
            outputs,
            groups,
            workspaces,
            w,
            h,
        ).contains(fullscreen_on(h, spec_output_for(outputs, w)->0)),
        w.minimized ==> requests_for(outputs, groups, workspaces, w, h).len() > 0 && requests_for(
            outputs,
            groups,
            workspaces,
            w,
            h,
        ).last() == minimize(h),
        !w.minimized ==> !requests_for(outputs, groups, workspaces, w, h).contains(minimize(h)),
        spec_output_for(outputs, w) is None ==> requests_for(outputs, groups, workspaces, w, h) == (
        if w.maximized {
            seq![maximize(h)]
        } else {
            Seq::<RestoreRequest>::empty()
        }) + (if w.minimized {
            seq![minimize(h)]
        } else {
            Seq::<RestoreRequest>::empty()
        }),
        outputs.len() == 0 ==> spec_output_for(outputs, w) is None,
        forall|i: int|
            0 <= i < requests_for(outputs, groups, workspaces, w, h).len() ==> request_window(
                #[trigger] requests_for(outputs, groups, workspaces, w, h)[i],
            ) == h,
{
    let r = requests_for(outputs, groups, workspaces, w, h);
    let found = spec_output_for(outputs, w);
    match found {
        Some(o) => {
            let moved: Seq<RestoreRequest> = match crate::restore::spec_workspace_for(
                groups,
                workspaces,
                o,
            ) {
                Some(ws) => seq![
                    RestoreRequest::MoveToWorkspace { toplevel: h, workspace: ws, output: o },
                ],
                None => Seq::empty(),
            };
            if w.fullscreen {
                assert(r[moved.len() as int] == RestoreRequest::SetFullscreen { toplevel: h, output: o });
            } else if w.maximized {
                assert(r[moved.len() as int] == RestoreRequest::SetMaximized { toplevel: h });
            }
        },
        None => {
            if w.maximized {
                assert(r[0] == RestoreRequest::SetMaximized { toplevel: h });
            }
        },
    }
    if !w.minimized {
        if r.contains(RestoreRequest::SetMinimized { toplevel: h }) {
            let i = choose|i: int| 0 <= i < r.len() && r[i] == RestoreRequest::SetMinimized { toplevel: h };
            assert(false);
        }
    }
    if outputs.len() == 0 {
        let by_identity = match (w.output_make, w.output_model) {
            (Some(make), Some(model)) => if crate::text::is_meaningful_identity(make)
                && crate::text::is_meaningful_identity(model) {
                crate::order::first_match(
                    outputs,
                    |o: OutputInfo| crate::session::opt_view(o.make) == Some(make)
                        && crate::session::opt_view(o.model) == Some(model),
                )
            } else {
                None
            },
            _ => None,
        };
        assert(by_identity is None);
    }
}

// ---------------------------------------------------------------------
// Which windows belong to a launcher
// ---------------------------------------------------------------------

/// A launcher's aliases include, whenever they are not empty, the
/// normalised desktop id without `.desktop`, the normalised
/// `StartupWMClass`, and the normalised name of the program `Exec` starts.
pub proof fn law_aliases_from_entry(id: Seq<char>, values: EntryValues)
    ensures
        normalized(crate::desktop::strip_suffix_all(id, ".desktop"@)).len() > 0 ==> desktop_aliases(
            id,
            values,
        ).contains(normalized(crate::desktop::strip_suffix_all(id, ".desktop"@))),
        forall|w: Seq<char>|
            crate::desktop::lookup(values, "StartupWMClass"@) == Some(w) && (normalized(w).len()
                > 0) ==> #[trigger] desktop_aliases(id, values).contains(normalized(w)),
        forall|x: Seq<char>|
            crate::desktop::lookup(values, "Exec"@) is Some && spec_executable(
                crate::desktop::lookup(values, "Exec"@)->0,
            ) == Some(x) && (normalized(x).len() > 0) ==> #[trigger] desktop_aliases(
                id,
                values,
            ).contains(normalized(x)),
{
    let c = candidate_aliases(id, values);
    let stem = normalized(crate::desktop::strip_suffix_all(id, ".desktop"@));
    assert(c.contains(stem));
    if let Some(w) = crate::desktop::lookup(values, "StartupWMClass"@) {
        assert(c.contains(normalized(w)));
    }
    if let Some(e) = crate::desktop::lookup(values, "Exec"@) {
        if let Some(x) = spec_executable(e) {
            assert(c.contains(normalized(x)));
        }
    }
}

/// An application read from a launcher owns every window whose application
/// identifier is the launcher's `StartupWMClass` (when that says something).
pub proof fn law_wm_class_windows_match(
    app: crate::desktop::DesktopAppView,
    id: Seq<char>,
    values: EntryValues,
    w: Seq<char>,
)
    requires
        app.aliases.to_set() == desktop_aliases(id, values),
        crate::desktop::lookup(values, "StartupWMClass"@) == Some(w),
        normalized(w).len() > 0,
    ensures
        crate::desktop::app_matches(app, w),
{
    law_aliases_from_entry(id, values);
    assert(app.aliases.to_set().contains(normalized(w)));
    let k = choose|k: int| 0 <= k < app.aliases.len() && app.aliases[k] == normalized(w);
    assert(crate::desktop::alias_matches(normalized(w), app.aliases[k]));
}

// ---------------------------------------------------------------------
// The monitor a window is recorded on
// ---------------------------------------------------------------------

proof fn lemma_output_record_first(outputs: Seq<OutputRecord>, i: int)
    requires
        0 <= i < outputs.len(),
        forall|j: int| 0 <= j < i ==> (#[trigger] outputs[j]).handle != outputs[i].handle,
    ensures
        crate::agent::output_record(outputs, outputs[i].handle) == Some(outputs[i]),
    decreases i,
{
    if i > 0 {
        let rest = outputs.drop_first();
        assert forall|j: int| 0 <= j < i - 1 implies (#[trigger] rest[j]).handle != rest[i - 1].handle by {
            assert(rest[j] == outputs[j + 1]);
        }
        assert(outputs[0].handle != outputs[i].handle);
        lemma_output_record_first(rest, i - 1);
        assert(rest[i - 1] == outputs[i]);
    }
}

/// A window is recorded on the monitor its geometry names, else on the
/// first monitor it has entered (whatever is remembered of it), and its
/// record carries that monitor's connector name, description, make and
/// model, as the first description of that monitor gives them.
pub proof fn law_window_recorded_on_its_monitor(
    apps: Seq<DesktopApp>,
    eligible: Seq<Seq<char>>,
    t: ToplevelRecord,
    memory: Map<Seq<char>, u64>,
    outputs: Seq<OutputRecord>,
    i: int,
)
    requires
        0 <= i < outputs.len(),
        forall|j: int| 0 <= j < i ==> (#[trigger] outputs[j]).handle != outputs[i].handle,
        t.geometry_output == Some(outputs[i].handle) || (t.geometry_output is None
            && t.entered_output == Some(outputs[i].handle)),
    ensures
        window_output(t, memory) == Some(outputs[i].handle),
        crate::agent::recorded_window(apps, eligible, t, memory, outputs) is Some <==> (
        crate::text::trimmed(t.app_id@).len() > 0 && spec_find_desktop_id(
            apps,
            eligible,
            crate::text::trimmed(t.app_id@),
        ) is Some),
        crate::agent::recorded_window(apps, eligible, t, memory, outputs) matches Some(w) ==> {
            &&& w.output == crate::session::opt_view(outputs[i].name)
            &&& w.output_description == crate::session::opt_view(outputs[i].description)
            &&& w.output_make == crate::text::spec_non_empty(outputs[i].make@)
            &&& w.output_model == crate::text::spec_non_empty(outputs[i].model@)
        },
{
    lemma_output_record_first(outputs, i);
}

// ---------------------------------------------------------------------
// What the compositor's reports change
// ---------------------------------------------------------------------

/// A report about a window changes exactly what it reports: a title or an
/// application identifier replaces the old one, entering a monitor adds it
/// (once), leaving one removes it, new states replace the old ones, and the
/// end of a description makes the window ready; nothing else changes.
pub proof fn law_window_report_effects(
    o: ToplevelInfo,
    n: ToplevelInfo,
    ev: ToplevelEvent,
)
    requires
        !(ev is Closed),
        crate::restore::toplevel_updated(o, n, ev),
    ensures
        n.handle == o.handle,
        n.restore_assigned == o.restore_assigned,
        ev matches ToplevelEvent::Title(x) ==> n.title == Some(x) && n.app_id
            == o.app_id && n.outputs == o.outputs && n.states == o.states && n.ready == o.ready,
        ev matches ToplevelEvent::AppId(x) ==> n.app_id == Some(x) && n.title
            == o.title && n.outputs == o.outputs && n.states == o.states && n.ready == o.ready,
        ev matches ToplevelEvent::OutputEnter(x) ==> {
            &&& n.outputs@.contains(x)
            &&& forall|y: u64| #[trigger] n.outputs@.contains(y) <==> (y == x || o.outputs@.contains(y))
            &&& n.title == o.title && n.app_id == o.app_id && n.states == o.states && n.ready == o.ready
        },
        ev matches ToplevelEvent::OutputLeave(x) ==> {
            &&& !n.outputs@.contains(x)
            &&& forall|y: u64| y != x ==> (#[trigger] n.outputs@.contains(y) <==> o.outputs@.contains(y))
            &&& n.title == o.title && n.app_id == o.app_id && n.states == o.states && n.ready == o.ready
        },
        ev matches ToplevelEvent::State(bytes) ==> n.states@.len() == bytes@.len() / 4
            && n.title == o.title && n.app_id == o.app_id && n.outputs == o.outputs && n.ready == o.ready,
        ev is Done ==> n.ready && n.title == o.title && n.app_id == o.app_id && n.outputs == o.outputs
            && n.states == o.states,
{
    match ev {
        ToplevelEvent::OutputEnter(x) => {
            let v = o.outputs@;
            if !v.contains(x) {
                assert(v.push(x)[v.len() as int] == x);
                assert forall|y: u64| #[trigger] v.push(x).contains(y) <==> (y == x || v.contains(y)) by {
                    if v.contains(y) {
                        let k = choose|k: int| 0 <= k < v.len() && v[k] == y;
                        assert(v.push(x)[k] == y);
                    }
                    if v.push(x).contains(y) && y != x {
                        let k = choose|k: int| 0 <= k < v.push(x).len() && v.push(x)[k] == y;
                        assert(v[k] == y);
                    }
                }
            }
        },
        ToplevelEvent::OutputLeave(x) => {
            let v = o.outputs@;
            let p = crate::restore::differs_from(x);
            if v.filter(p).contains(x) {
                v.lemma_filter_contains_rev(p, x);
                let k = choose|k: int| 0 <= k < v.filter(p).len() && v.filter(p)[k] == x;
                v.lemma_filter_pred(p, k);
            }
            assert forall|y: u64| y != x implies (#[trigger] v.filter(p).contains(y) <==> v.contains(y)) by {
                if v.filter(p).contains(y) {
                    v.lemma_filter_contains_rev(p, y);
                }
                if v.contains(y) {
                    let k = choose|k: int| 0 <= k < v.len() && v[k] == y;
                    v.lemma_filter_contains(p, k);
                }
            }
        },
        ToplevelEvent::State(bytes) => {
            assert(crate::session::as_ints(n.states@).len() == n.states@.len());
        },
        _ => {},
    }
}

} // verus!
