//! Session snapshots: what is recorded of the open windows, which snapshot is
//! offered at login, and which applications it lets the user resume.
use vstd::prelude::*;
use vstd::string::StringExecFns;
use crate::config::Config;
use crate::desktop::{contains_string, string_views};
use crate::text::{decimal, i64_to_decimal, signed_decimal, u64_to_decimal};

verus! {

broadcast use vstd::string::group_string_axioms;

/// The text of an optional string.
pub open spec fn opt_view(o: Option<String>) -> Option<Seq<char>> {
    match o {
        Some(s) => Some(s@),
        None => None,
    }
}

/// One window recorded in a snapshot.
#[derive(Clone, Debug, Default)]
pub struct WindowSnapshot {
    pub desktop_id: String,
    pub app_id: String,
    pub title: String,
    pub output: Option<String>,
    pub output_description: Option<String>,
    pub output_make: Option<String>,
    pub output_model: Option<String>,
    pub maximized: bool,
    pub minimized: bool,
    pub fullscreen: bool,
}

/// What a recorded window holds.
pub struct WindowView {
    pub desktop_id: Seq<char>,
    pub app_id: Seq<char>,
    pub title: Seq<char>,
    pub output: Option<Seq<char>>,
    pub output_description: Option<Seq<char>>,
    pub output_make: Option<Seq<char>>,
    pub output_model: Option<Seq<char>>,
    pub maximized: bool,
    pub minimized: bool,
    pub fullscreen: bool,
}

impl View for WindowSnapshot {
    type V = WindowView;

    open spec fn view(&self) -> WindowView {
        WindowView {
            desktop_id: self.desktop_id@,
            app_id: self.app_id@,
            title: self.title@,
            output: opt_view(self.output),
            output_description: opt_view(self.output_description),
            output_make: opt_view(self.output_make),
            output_model: opt_view(self.output_model),
            maximized: self.maximized,
            minimized: self.minimized,
            fullscreen: self.fullscreen,
        }
    }
}

/// The views of recorded windows.
pub open spec fn window_views(ws: Seq<WindowSnapshot>) -> Seq<WindowView> {
    ws.map_values(|w: WindowSnapshot| w@)
}

/// The windows open in one session, as last recorded.
#[derive(Clone, Debug, Default)]
pub struct SessionSnapshot {
    pub session_id: String,
    pub saved_at: u64,
    pub windows: Vec<WindowSnapshot>,
}

/// Whether some recorded window belongs to the application `id`.
pub open spec fn has_window_of(windows: Seq<WindowSnapshot>, id: Seq<char>) -> bool {
    exists|k: int| 0 <= k < windows.len() && (#[trigger] windows[k]).desktop_id@ == id
}

/// Whether a recorded window belongs to a selected application.
pub open spec fn window_selected(selected: Seq<Seq<char>>, w: WindowSnapshot) -> bool {
    selected.contains(w.desktop_id@)
}

/// Whether `r` is snapshot `s` with only the windows of selected applications.
pub open spec fn restricted_to(r: SessionSnapshot, s: SessionSnapshot, selected: Seq<Seq<char>>) -> bool {
    &&& r.session_id == s.session_id
    &&& r.saved_at == s.saved_at
    &&& r.windows@ == s.windows@.filter(|w: WindowSnapshot| window_selected(selected, w))
}

fn has_window_for(windows: &Vec<WindowSnapshot>, id: &String) -> (b: bool)
    ensures
        b == has_window_of(windows@, id@),
{
    let mut i: usize = 0;
    while i < windows.len()
        invariant
            i <= windows.len(),
            forall|k: int| 0 <= k < i ==> (#[trigger] windows@[k]).desktop_id@ != id@,
        decreases windows.len() - i,
    {
        if windows[i].desktop_id == *id {
            return true;
        }
        i = i + 1;
    }
    false
}

impl SessionSnapshot {
    /// The selected applications, in the order of the selection, that have
    /// a window in this snapshot.
    pub fn restorable_desktop_ids(&self, config: &Config) -> (r: Vec<String>)
        ensures
            string_views(r@) == string_views(config.selected_apps@).filter(
                |id: Seq<char>| has_window_of(self.windows@, id),
            ),
    {
        let ghost selected = string_views(config.selected_apps@);
        let mut r: Vec<String> = Vec::new();
        let mut i: usize = 0;
        while i < config.selected_apps.len()
            invariant
                i <= config.selected_apps.len(),
                selected == string_views(config.selected_apps@),
                string_views(r@) == selected.take(i as int).filter(
                    |id: Seq<char>| has_window_of(self.windows@, id),
                ),
            decreases config.selected_apps.len() - i,
        {
            let id = &config.selected_apps[i];
            proof {
                selected.take(i as int).lemma_filter_push(
                    selected[i as int],
                    |id: Seq<char>| has_window_of(self.windows@, id),
                );
                assert(selected.take(i + 1) =~= selected.take(i as int).push(selected[i as int]));
            }
            if has_window_for(&self.windows, id) {
                let copy = id.clone();
                proof {
                    r@.lemma_push_map_commute(|x: String| x@, copy);
                }
                r.push(copy);
            }
            i = i + 1;
        }
        assert(selected.take(selected.len() as int) =~= selected);
        r
    }

    /// This snapshot with only the windows of the selected applications.
    pub fn filtered_for_config(self, config: &Config) -> (r: Self)
        ensures
            restricted_to(r, self, string_views(config.selected_apps@)),
    {
        let ghost selected = string_views(config.selected_apps@);
        let ghost all = self.windows@;
        let SessionSnapshot { session_id, saved_at, windows } = self;
        let mut rest = windows;
        let mut kept: Vec<WindowSnapshot> = Vec::new();
        let mut i: usize = 0;
        let n = rest.len();
        assert(all.skip(0) =~= all);
        while rest.len() > 0
            invariant
                i + rest.len() == all.len(),
                all.len() == n,
                rest@ == all.skip(i as int),
                selected == string_views(config.selected_apps@),
                kept@ == all.take(i as int).filter(
                    |w: WindowSnapshot| window_selected(selected, w),
                ),
            decreases rest.len(),
        {
            let w = rest.remove(0);
            proof {
                all.take(i as int).lemma_filter_push(
                    all[i as int],
                    |w: WindowSnapshot| window_selected(selected, w),
                );
                assert(all.take(i + 1) =~= all.take(i as int).push(all[i as int]));
            }
            if contains_string(config.selected_apps.as_slice(), &w.desktop_id) {
                kept.push(w);
            }
            i = i + 1;
            assert(rest@ =~= all.skip(i as int));
        }
        assert(all.take(all.len() as int) =~= all);
        SessionSnapshot { session_id, saved_at, windows: kept }
    }
}

/// The snapshot offered at login, read from the `current` and `previous`
/// snapshot files: the current one when it belongs to another session (the
/// agent of this session has not replaced it yet), else the previous one;
/// either way restricted to the selected applications.
pub fn load_restore_snapshot(
    config: &Config,
    session_id: &String,
    current: Option<SessionSnapshot>,
    previous: Option<SessionSnapshot>,
) -> (r: Option<SessionSnapshot>)
    ensures
        match current {
            Some(c) if c.session_id@ != session_id@ => r matches Some(s) && restricted_to(
                s,
                c,
                string_views(config.selected_apps@),
            ),
            _ => match previous {
                Some(p) => r matches Some(s) && restricted_to(
                    s,
                    p,
                    string_views(config.selected_apps@),
                ),
                None => r is None,
            },
        },
{
    if let Some(c) = current {
        if c.session_id != *session_id {
            return Some(c.filtered_for_config(config));
        }
    }
    match previous {
        Some(p) => Some(p.filtered_for_config(config)),
        None => None,
    }
}

/// Whether the current snapshot must become the previous one before this
/// session starts recording: it exists and belongs to another session.
pub fn needs_rotation(current: &Option<SessionSnapshot>, session_id: &String) -> (b: bool)
    ensures
        b == (current matches Some(c) && c.session_id@ != session_id@),
{
    match current {
        Some(c) => c.session_id != *session_id,
        None => false,
    }
}

// ---------------------------------------------------------------------
// Session identity
// ---------------------------------------------------------------------

/// The identity of the graphical session. `socket` is the device, inode and
/// change time of the Wayland socket when it can be examined; otherwise the
/// login session id, else the display name, else the process id is used.
pub open spec fn spec_session_id(
    socket: Option<(u64, u64, i64)>,
    xdg_session_id: Option<Seq<char>>,
    wayland_display: Option<Seq<char>>,
    pid: u32,
) -> Seq<char> {
    match socket {
        Some((dev, ino, ctime)) => "wayland-"@ + decimal(dev as nat) + "-"@ + decimal(ino as nat)
            + "-"@ + signed_decimal(ctime as int),
        None => match xdg_session_id {
            Some(s) => s,
            None => match wayland_display {
                Some(d) => d,
                None => "process-"@ + decimal(pid as nat),
            },
        },
    }
}

/// Composes the session identity (see `spec_session_id`).
pub fn session_id_from(
    socket: Option<(u64, u64, i64)>,
    xdg_session_id: Option<String>,
    wayland_display: Option<String>,
    pid: u32,
) -> (r: String)
    ensures
        r@ == spec_session_id(socket, opt_view(xdg_session_id), opt_view(wayland_display), pid),
{
    match socket {
        Some((dev, ino, ctime)) => {
            let mut s = String::new();
            s.append("wayland-");
            s.append(u64_to_decimal(dev).as_str());
            s.append("-");
            s.append(u64_to_decimal(ino).as_str());
            s.append("-");
            s.append(i64_to_decimal(ctime).as_str());
            assert(s@ =~= spec_session_id(socket, opt_view(xdg_session_id), opt_view(wayland_display), pid));
            s
        },
        None => match xdg_session_id {
            Some(x) => x,
            None => match wayland_display {
                Some(d) => d,
                None => {
                    let mut s = String::new();
                    s.append("process-");
                    s.append(u64_to_decimal(pid as u64).as_str());
                    s
                },
            },
        },
    }
}

// ---------------------------------------------------------------------
// Clock
// ---------------------------------------------------------------------

#[verifier::external_type_specification]
#[verifier::external_body]
pub struct ExSystemTime(std::time::SystemTime);

#[verifier::external_type_specification]
#[verifier::external_body]
pub struct ExSystemTimeError(std::time::SystemTimeError);

/// `SystemTime::now`; nothing is claimed of the time it reads.
#[verifier::external_body]
fn system_now() -> std::time::SystemTime {
    std::time::SystemTime::now()
}

/// `SystemTime::duration_since(UNIX_EPOCH)`; nothing is claimed of the
/// outcome, which depends on the time read.
#[verifier::external_body]
fn since_unix_epoch(t: &std::time::SystemTime) -> Result<
    core::time::Duration,
    std::time::SystemTimeError,
> {
    t.duration_since(std::time::UNIX_EPOCH)
}

/// `Duration::as_secs`; nothing is claimed of the whole seconds it gives.
#[verifier::external_body]
fn whole_seconds(d: &core::time::Duration) -> u64 {
    d.as_secs()
}

/// The timestamp for a clock reading: its whole seconds since the Unix
/// epoch, or zero for a reading before the epoch (`None`).
pub fn timestamp_or_zero(secs: Option<u64>) -> (r: u64)
    ensures
        r == match secs {
            Some(s) => s,
            None => 0,
        },
{
    match secs {
        Some(s) => s,
        None => 0,
    }
}

/// Seconds since the Unix epoch by the system clock; zero when the clock
/// reads an earlier time. Nothing is stated of the value: it is whatever the
/// clock reads (see `timestamp_or_zero` for what is made of the reading).
pub fn unix_timestamp() -> u64 {
    let now = system_now();
    let secs = match since_unix_epoch(&now) {
        Ok(d) => Some(whole_seconds(&d)),
        Err(_) => None,
    };
    timestamp_or_zero(secs)
}

// ---------------------------------------------------------------------
// Protocol arrays
// ---------------------------------------------------------------------

/// The value of four bytes read least significant first.
pub open spec fn le_value(b: Seq<u8>) -> int {
    b[0] as int + 256 * (b[1] as int) + 65536 * (b[2] as int) + 16777216 * (b[3] as int)
}

/// The value of four bytes read most significant first.
pub open spec fn be_value(b: Seq<u8>) -> int {
    b[3] as int + 256 * (b[2] as int) + 65536 * (b[1] as int) + 16777216 * (b[0] as int)
}

/// The value of four bytes in the given order: least significant first when
/// `little`, most significant first otherwise.
pub open spec fn chunk_value(b: Seq<u8>, little: bool) -> int {
    if little {
        le_value(b)
    } else {
        be_value(b)
    }
}

/// The 32-bit values of a protocol array read in the given byte order;
/// trailing bytes that do not make up a whole value are ignored.
pub open spec fn u32_values(bytes: Seq<u8>, little: bool) -> Seq<int> {
    Seq::new(bytes.len() / 4, |k: int| chunk_value(bytes.subrange(4 * k, 4 * k + 4), little))
}

/// The values of an array of 32-bit values, as integers.
pub open spec fn as_ints(v: Seq<u32>) -> Seq<int> {
    v.map_values(|x: u32| x as int)
}

/// `u32::from_ne_bytes`: the bytes read in the machine's byte order, which
/// is one of the two orders; which one is not stated.
#[verifier::external_body]
fn u32_from_ne_bytes(b: [u8; 4]) -> (r: u32)
    ensures
        r as int == le_value(b@) || r as int == be_value(b@),
{
    u32::from_ne_bytes(b)
}

/// Whether the machine stores the least significant byte first: reads a
/// probe in the machine's byte order.
fn native_little_endian() -> bool {
    u32_from_ne_bytes([1u8, 0u8, 0u8, 0u8]) == 1
}

/// The value of one four-byte chunk in the given byte order.
fn chunk_u32(b0: u8, b1: u8, b2: u8, b3: u8, little: bool) -> (r: u32)
    ensures
        r as int == chunk_value(seq![b0, b1, b2, b3], little),
{
    if little {
        (b0 as u32) + 256 * (b1 as u32) + 65536 * (b2 as u32) + 16777216 * (b3 as u32)
    } else {
        (b3 as u32) + 256 * (b2 as u32) + 65536 * (b1 as u32) + 16777216 * (b0 as u32)
    }
}

/// Reads a protocol array of 32-bit values in the given byte order.
pub fn parse_u32_array_in(values: &[u8], little: bool) -> (r: Vec<u32>)
    ensures
        as_ints(r@) == u32_values(values@, little),
{
    let mut r: Vec<u32> = Vec::new();
    let mut i: usize = 0;
    while 4 <= values.len() - i
        invariant
            i == 4 * r.len(),
            i <= values.len(),
            forall|k: int|
                0 <= k < r.len() ==> (#[trigger] r@[k]) as int == chunk_value(
                    values@.subrange(4 * k, 4 * k + 4),
                    little,
                ),
        decreases values.len() - i,
    {
        let v = chunk_u32(values[i], values[i + 1], values[i + 2], values[i + 3], little);
        proof {
            assert(seq![values@[i as int], values@[i + 1], values@[i + 2], values@[i + 3]]
                =~= values@.subrange(i as int, i + 4));
        }
        r.push(v);
        i = i + 4;
    }
    assert(as_ints(r@) =~= u32_values(values@, little));
    r
}

/// Reads a protocol array of 32-bit values in the machine's byte order
/// (either order, the same for every value); trailing bytes that do not make
/// up a whole value are ignored.
pub fn parse_u32_array(values: &[u8]) -> (r: Vec<u32>)
    ensures
        as_ints(r@) == u32_values(values@, true) || as_ints(r@) == u32_values(values@, false),
{
    parse_u32_array_in(values, native_little_endian())
}

} // verus!
