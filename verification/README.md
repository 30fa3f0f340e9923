# Retomar Ambiente

A COSMIC desktop utility that asks, when a session starts, whether the
applications that were really open at the end of the previous session should
be opened again, and puts their windows back on their former monitors.

## Layout

- `src/` is the verified library (Verus). Its functions carry contracts
  that Verus proves, with two kinds of exception: the few wrappers around
  std calls (string building, lower-casing, UTF-8 decoding, byte order, the
  clock) are trusted, their contracts believed as std documents them; and
  `unix_timestamp` states nothing of its value, which is whatever the clock
  reads (`timestamp_or_zero` states what is made of that reading):
  - `text`: character-level helpers (trimming, identifier normalisation,
    ASCII case folding, lexicographic order, decimal rendering);
  - `order`: a stable sort by a two-part textual key;
  - `desktop`: reading `.desktop` launchers, the identifiers under which an
    application's windows appear, matching windows to applications, and the
    list of installed applications;
  - `config`: the preferences and the selection of applications;
  - `session`: session snapshots, which snapshot is offered at login, the
    session identity and protocol arrays;
  - `agent`: the last monitor of every window and the snapshot of the
    current session;
  - `restore`: the restore worker's state, how it reacts to what the
    compositor reports, and the requests it makes;
  - `interface`: the dialog and the application manager as a state machine;
  - `laws`: properties that span several operations, proved once for all
    inputs.
- `tests/` runs the library on concrete values.
- `app/` is the program around the library: the COSMIC user interface, the
  Wayland connections, the configuration store, the snapshot files and the
  launching of applications.
