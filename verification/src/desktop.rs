//! Desktop entries: parsing `.desktop` files, deriving the identifiers under
//! which an application's windows appear, and matching windows to entries.
use vstd::prelude::*;
use vstd::utf8::{decode_utf8, valid_utf8};
use crate::order::{
    key_lt, key_of, keyed, keys_distinct, lemma_key_lt_irreflexive, lemma_same_elements,
    lemma_sorted_distinct_strict, lemma_stable_sorted_distinct, lemma_stable_sorted_props,
    stable_sort_by_key, SortKey,
};
use crate::text::{
    chars_eq, chars_of, ends_with, eq_ignore_ascii_case, has_suffix,
    is_normal_identifier, is_white_space, is_whitespace, lemma_normalized_is_normal,
    normalize_identifier, normalized, spec_parse_bool, string_from_chars, sub_chars, to_lowercase,
    trim_chars, trimmed, unicode_lowercase,
};

verus! {

broadcast use vstd::string::group_string_axioms;

/// Key/value pairs of a `[Desktop Entry]` group, in the order first seen.
pub type EntryValues = Seq<(Seq<char>, Seq<char>)>;

/// The value stored under `key`, if any.
pub open spec fn lookup(values: EntryValues, key: Seq<char>) -> Option<Seq<char>>
    decreases values.len(),
{
    if values.len() == 0 {
        None
    } else if values[0].0 == key {
        Some(values[0].1)
    } else {
        lookup(values.drop_first(), key)
    }
}

/// The index of the first occurrence of `c` in `s`.
pub open spec fn find_char(s: Seq<char>, c: char) -> Option<int>
    decreases s.len(),
{
    if s.len() == 0 {
        None
    } else if s[0] == c {
        Some(0)
    } else {
        match find_char(s.drop_first(), c) {
            Some(i) => Some(i + 1),
            None => None,
        }
    }
}

/// One line of a desktop file, applied to the parser state (whether the
/// current group is `[Desktop Entry]`, and the values read so far). Blank
/// lines and comments are skipped, a group header switches groups, and a
/// `key=value` line of the entry group is kept unless the key was seen before.
pub open spec fn step_line(in_entry: bool, values: EntryValues, raw: Seq<char>) -> (bool, EntryValues) {
    let line = trimmed(raw);
    if line.len() == 0 || line[0] == '#' {
        (in_entry, values)
    } else if line[0] == '[' && line.last() == ']' {
        (line == "[Desktop Entry]"@, values)
    } else if !in_entry {
        (in_entry, values)
    } else {
        match find_char(line, '=') {
            None => (in_entry, values),
            Some(i) => {
                let key = line.take(i);
                if lookup(values, key) is Some {
                    (in_entry, values)
                } else {
                    (in_entry, values.push((key, line.skip(i + 1))))
                }
            },
        }
    }
}

/// The parser state after reading `content` character by character: the
/// group flag, the values, and the line read since the last line break.
pub open spec fn scan_entry(content: Seq<char>) -> (bool, EntryValues, Seq<char>)
    decreases content.len(),
{
    if content.len() == 0 {
        (false, Seq::empty(), Seq::empty())
    } else {
        let prev = scan_entry(content.drop_last());
        if content.last() == '\n' {
            let next = step_line(prev.0, prev.1, prev.2);
            (next.0, next.1, Seq::empty())
        } else {
            (prev.0, prev.1, prev.2.push(content.last()))
        }
    }
}

/// The values of the `[Desktop Entry]` group of a desktop file.
pub open spec fn entry_values(content: Seq<char>) -> EntryValues {
    let s = scan_entry(content);
    step_line(s.0, s.1, s.2).1
}

/// The view of stored key/value character vectors.
pub open spec fn pairs_view(v: Seq<(Vec<char>, Vec<char>)>) -> EntryValues {
    Seq::new(v.len(), |i: int| (v[i].0@, v[i].1@))
}

fn lookup_index(values: &Vec<(Vec<char>, Vec<char>)>, key: &Vec<char>) -> (r: Option<usize>)
    ensures
        match lookup(pairs_view(values@), key@) {
            None => r is None,
            Some(v) => r matches Some(i) && i < values.len() && values@[i as int].1@ == v,
        },
{
    let ghost pv = pairs_view(values@);
    let mut i: usize = 0;
    assert(pv.skip(0) =~= pv);
    while i < values.len()
        invariant
            i <= values.len(),
            pv == pairs_view(values@),
            lookup(pv, key@) == lookup(pv.skip(i as int), key@),
        decreases values.len() - i,
    {
        if chars_eq(&values[i].0, key) {
            return Some(i);
        }
        assert(pv.skip(i as int).drop_first() =~= pv.skip(i + 1));
        i = i + 1;
    }
    None
}

/// Where `find_char` finds a character, it is the first occurrence.
pub proof fn lemma_find_char(s: Seq<char>, c: char)
    ensures
        find_char(s, c) matches Some(j) ==> 0 <= j < s.len() && s[j] == c && forall|k: int|
            0 <= k < j ==> s[k] != c,
        find_char(s, c) is None ==> forall|k: int| 0 <= k < s.len() ==> s[k] != c,
    decreases s.len(),
{
    if s.len() > 0 {
        lemma_find_char(s.drop_first(), c);
        if s[0] != c {
            assert forall|k: int| 1 <= k < s.len() implies s[k] == s.drop_first()[k - 1] by {}
        }
    }
}

fn find_char_index(s: &Vec<char>, c: char) -> (r: Option<usize>)
    ensures
        match find_char(s@, c) {
            None => r is None,
            Some(j) => r == Some(j as usize) && j < s.len(),
        },
{
    let mut i: usize = 0;
    assert(s@.skip(0) =~= s@);
    while i < s.len()
        invariant
            i <= s.len(),
            find_char(s@, c) == match find_char(s@.skip(i as int), c) {
                Some(j) => Some(j + i),
                None => None,
            },
        decreases s.len() - i,
    {
        if s[i] == c {
            proof {
                lemma_find_char(s@, c);
            }
            return Some(i);
        }
        assert(s@.skip(i as int).drop_first() =~= s@.skip(i + 1));
        i = i + 1;
    }
    None
}

/// Applies one line to the parser state.
fn process_line(in_entry: &mut bool, values: &mut Vec<(Vec<char>, Vec<char>)>, raw: &Vec<char>)
    ensures
        (*final(in_entry), pairs_view(final(values)@)) == step_line(
            *old(in_entry),
            pairs_view(old(values)@),
            raw@,
        ),
{
    let line = trim_chars(raw);
    proof {
        lemma_find_char(line@, '=');
    }
    if line.len() == 0 || line[0] == '#' {
        return ;
    }
    if line[0] == '[' && line[line.len() - 1] == ']' {
        let header = chars_of("[Desktop Entry]");
        *in_entry = chars_eq(&line, &header);
        return ;
    }
    if !*in_entry {
        return ;
    }
    match find_char_index(&line, '=') {
        None => {},
        Some(i) => {
            let key = sub_chars(&line, 0, i);
            assert(key@ == line@.take(i as int));
            match lookup_index(values, &key) {
                Some(_) => {},
                None => {
                    let value = sub_chars(&line, i + 1, line.len());
                    assert(value@ == line@.skip(i + 1));
                    let ghost before = values@;
                    values.push((key, value));
                    assert(pairs_view(values@) =~= pairs_view(before).push((key@, value@)));
                },
            }
        },
    }
}

/// Reads the `[Desktop Entry]` values of a desktop file.
pub fn read_entry_values(content: &str) -> (r: Vec<(Vec<char>, Vec<char>)>)
    ensures
        pairs_view(r@) == entry_values(content@),
{
    let chars = chars_of(content);
    let mut in_entry = false;
    let mut values: Vec<(Vec<char>, Vec<char>)> = Vec::new();
    let mut line: Vec<char> = Vec::new();
    let mut i: usize = 0;
    assert(pairs_view(values@) =~= Seq::<(Seq<char>, Seq<char>)>::empty());
    while i < chars.len()
        invariant
            i <= chars.len(),
            chars@ == content@,
            scan_entry(chars@.take(i as int)) == (in_entry, pairs_view(values@), line@),
        decreases chars.len() - i,
    {
        let c = chars[i];
        assert(chars@.take(i + 1).drop_last() =~= chars@.take(i as int));
        if c == '\n' {
            process_line(&mut in_entry, &mut values, &line);
            line = Vec::new();
            assert(line@ =~= Seq::<char>::empty());
        } else {
            line.push(c);
        }
        i = i + 1;
    }
    assert(chars@.take(chars.len() as int) =~= chars@);
    process_line(&mut in_entry, &mut values, &line);
    values
}

// ---------------------------------------------------------------------
// The program named by an `Exec` line
// ---------------------------------------------------------------------

/// The first word of an `Exec` value, read from `s` in the given quoting and
/// escaping state: a backslash takes the next character literally, double
/// quotes toggle quoting and are dropped, and white space outside quotes ends
/// the word.
pub open spec fn exec_word(s: Seq<char>, quoted: bool, escaped: bool) -> Seq<char>
    decreases s.len(),
{
    if s.len() == 0 {
        Seq::empty()
    } else {
        let c = s[0];
        let rest = s.drop_first();
        if escaped {
            seq![c] + exec_word(rest, quoted, false)
        } else if c == '\\' {
            exec_word(rest, quoted, true)
        } else if c == '"' {
            exec_word(rest, !quoted, false)
        } else if is_white_space(c) && !quoted {
            Seq::empty()
        } else {
            seq![c] + exec_word(rest, quoted, false)
        }
    }
}

/// Whether a path component names something: not empty and not `.`.
pub open spec fn is_named_component(c: Seq<char>) -> bool {
    c.len() > 0 && c != seq!['.']
}

/// Reading a path left to right: the last complete named component, and the
/// component read since the last `/`.
pub open spec fn scan_components(p: Seq<char>) -> (Option<Seq<char>>, Seq<char>)
    decreases p.len(),
{
    if p.len() == 0 {
        (None, Seq::empty())
    } else {
        let prev = scan_components(p.drop_last());
        if p.last() == '/' {
            (if is_named_component(prev.1) { Some(prev.1) } else { prev.0 }, Seq::empty())
        } else {
            (prev.0, prev.1.push(p.last()))
        }
    }
}

/// The final component of a path, as `Path::file_name` gives it: `None` for
/// a path with no named component or one that ends in `..`.
pub open spec fn file_name(p: Seq<char>) -> Option<Seq<char>> {
    let s = scan_components(p);
    let last = if is_named_component(s.1) { Some(s.1) } else { s.0 };
    match last {
        Some(c) => if c == seq!['.', '.'] { None } else { Some(c) },
        None => None,
    }
}

/// The file name of the program that an `Exec` value starts.
pub open spec fn spec_executable(exec: Seq<char>) -> Option<Seq<char>> {
    let word = exec_word(trimmed(exec), false, false);
    if word.len() == 0 {
        None
    } else {
        file_name(word)
    }
}

fn path_file_name(p: &Vec<char>) -> (r: Option<Vec<char>>)
    ensures
        match file_name(p@) {
            None => r is None,
            Some(n) => r matches Some(v) && v@ == n,
        },
{
    let mut last: Option<Vec<char>> = None;
    let mut cur: Vec<char> = Vec::new();
    let mut i: usize = 0;
    while i < p.len()
        invariant
            i <= p.len(),
            scan_components(p@.take(i as int)) == (
                match last {
                    Some(v) => Some(v@),
                    None => None,
                },
                cur@,
            ),
        decreases p.len() - i,
    {
        assert(p@.take(i + 1).drop_last() =~= p@.take(i as int));
        if p[i] == '/' {
            if cur.len() > 0 && !(cur.len() == 1 && cur[0] == '.') {
                assert(cur@ != seq!['.']);
                last = Some(cur);
            } else {
                assert(cur@.len() == 1 ==> cur@ =~= seq![cur@[0]]);
            }
            cur = Vec::new();
            assert(cur@ =~= Seq::<char>::empty());
        } else {
            cur.push(p[i]);
        }
        i = i + 1;
    }
    assert(p@.take(p.len() as int) =~= p@);
    let named = cur.len() > 0 && !(cur.len() == 1 && cur[0] == '.');
    proof {
        if cur@.len() == 1 {
            assert(cur@ =~= seq![cur@[0]]);
        }
    }
    let result = if named {
        Some(cur)
    } else {
        last
    };
    match result {
        Some(v) => {
            if v.len() == 2 && v[0] == '.' && v[1] == '.' {
                assert(v@ =~= seq!['.', '.']);
                None
            } else {
                assert(v@.len() == 2 ==> v@ =~= seq![v@[0], v@[1]]);
                Some(v)
            }
        },
        None => None,
    }
}

/// The file name of the program that an `Exec` value starts, if there is one.
pub fn executable_from_exec(exec: &str) -> (r: Option<String>)
    ensures
        match spec_executable(exec@) {
            None => r is None,
            Some(n) => r matches Some(s) && s@ == n,
        },
{
    let all = chars_of(exec);
    let t = trim_chars(&all);
    let mut token: Vec<char> = Vec::new();
    let mut quoted = false;
    let mut escaped = false;
    let mut i: usize = 0;
    assert(t@.skip(0) =~= t@);
    assert(token@ + exec_word(t@, false, false) =~= exec_word(t@, false, false));
    loop
        invariant
            i <= t.len(),
            t@ == trimmed(exec@),
            token@ + exec_word(t@.skip(i as int), quoted, escaped) == exec_word(t@, false, false),
        ensures
            token@ == exec_word(t@, false, false),
        decreases t.len() - i,
    {
        if i == t.len() {
            assert(t@.skip(i as int).len() == 0);
            assert(token@ + Seq::<char>::empty() =~= token@);
            break;
        }
        let c = t[i];
        let ghost rest = t@.skip(i + 1);
        assert(t@.skip(i as int).drop_first() =~= rest);
        assert(t@.skip(i as int)[0] == c);
        if escaped {
            token.push(c);
            escaped = false;
            assert(token@ + exec_word(rest, quoted, false) =~= (token@.drop_last() + seq![c])
                + exec_word(rest, quoted, false));
        } else if c == '\\' {
            escaped = true;
        } else if c == '"' {
            quoted = !quoted;
        } else if is_whitespace(c) && !quoted {
            assert(token@ + Seq::<char>::empty() =~= token@);
            break;
        } else {
            token.push(c);
            assert(token@ + exec_word(rest, quoted, false) =~= (token@.drop_last() + seq![c])
                + exec_word(rest, quoted, false));
        }
        i = i + 1;
    }
    if token.len() == 0 {
        return None;
    }
    match path_file_name(&token) {
        Some(v) => Some(string_from_chars(&v)),
        None => None,
    }
}

// ---------------------------------------------------------------------
// Desktop applications
// ---------------------------------------------------------------------

/// An installed application that has a launcher.
#[derive(Debug)]
pub struct DesktopApp {
    id: String,
    name: String,
    path: Vec<u8>,
    aliases: Vec<String>,
}

/// What a `DesktopApp` holds: its desktop id, its display name, the path
/// of its launcher (as bytes) and the identifiers its windows may carry.
pub struct DesktopAppView {
    pub id: Seq<char>,
    pub name: Seq<char>,
    pub path: Seq<u8>,
    pub aliases: Seq<Seq<char>>,
}

/// The views of a sequence of strings.
pub open spec fn string_views(s: Seq<String>) -> Seq<Seq<char>> {
    s.map_values(|x: String| x@)
}

impl View for DesktopApp {
    type V = DesktopAppView;

    closed spec fn view(&self) -> DesktopAppView {
        DesktopAppView {
            id: self.id@,
            name: self.name@,
            path: self.path@,
            aliases: string_views(self.aliases@),
        }
    }
}

/// Every alias is a normalised identifier, so its length in characters is
/// also its length in bytes.
pub open spec fn aliases_well_formed(aliases: Seq<Seq<char>>) -> bool {
    forall|i: int| 0 <= i < aliases.len() ==> is_normal_identifier(#[trigger] aliases[i])
}

impl DesktopApp {
    #[verifier::type_invariant]
    closed spec fn well_formed(self) -> bool {
        aliases_well_formed(string_views(self.aliases@))
    }

    /// The desktop id (the launcher's file name).
    pub fn id(&self) -> (r: &String)
        ensures
            r@ == self@.id,
    {
        &self.id
    }

    /// The display name.
    pub fn name(&self) -> (r: &String)
        ensures
            r@ == self@.name,
    {
        &self.name
    }

    /// The launcher's path, as bytes.
    pub fn path(&self) -> (r: &Vec<u8>)
        ensures
            r@ == self@.path,
    {
        &self.path
    }

    /// The identifiers under which this application's windows may appear.
    pub fn aliases(&self) -> (r: &Vec<String>)
        ensures
            string_views(r@) == self@.aliases,
            aliases_well_formed(self@.aliases),
    {
        proof {
            use_type_invariant(self);
        }
        &self.aliases
    }
}

fn clone_bytes(v: &Vec<u8>) -> (r: Vec<u8>)
    ensures
        r@ == v@,
{
    let mut r: Vec<u8> = Vec::new();
    let mut i: usize = 0;
    while i < v.len()
        invariant
            i <= v.len(),
            r@ == v@.take(i as int),
        decreases v.len() - i,
    {
        r.push(v[i]);
        i = i + 1;
        assert(r@ =~= v@.take(i as int));
    }
    assert(v@.take(v.len() as int) =~= v@);
    r
}

fn clone_strings(v: &Vec<String>) -> (r: Vec<String>)
    ensures
        string_views(r@) == string_views(v@),
{
    let mut r: Vec<String> = Vec::new();
    let mut i: usize = 0;
    while i < v.len()
        invariant
            i <= v.len(),
            string_views(r@) == string_views(v@.take(i as int)),
        decreases v.len() - i,
    {
        let c = v[i].clone();
        proof {
            r@.lemma_push_map_commute(|x: String| x@, c);
            v@.take(i as int).lemma_push_map_commute(|x: String| x@, v@[i as int]);
            assert(v@.take(i + 1) =~= v@.take(i as int).push(v@[i as int]));
        }
        r.push(c);
        i = i + 1;
    }
    assert(v@.take(v.len() as int) =~= v@);
    r
}

impl Clone for DesktopApp {
    fn clone(&self) -> (r: Self)
        ensures
            r@ == self@,
    {
        proof {
            use_type_invariant(self);
        }
        DesktopApp {
            id: self.id.clone(),
            name: self.name.clone(),
            path: clone_bytes(&self.path),
            aliases: clone_strings(&self.aliases),
        }
    }
}

// ---------------------------------------------------------------------
// Reading a launcher
// ---------------------------------------------------------------------

/// `s` with every trailing `suffix` removed (what `str::trim_end_matches`
/// does for a non-empty pattern).
pub open spec fn strip_suffix_all(s: Seq<char>, suffix: Seq<char>) -> Seq<char>
    decreases s.len(),
{
    if suffix.len() > 0 && has_suffix(s, suffix) {
        strip_suffix_all(s.take(s.len() - suffix.len()), suffix)
    } else {
        s
    }
}

/// Whether the entry describes an application that can be launched and is
/// shown: its `Type`, if given, is `Application`, it is neither `Hidden` nor
/// `NoDisplay`, and it has a non-empty `Exec`.
pub open spec fn is_launchable(values: EntryValues) -> bool {
    &&& !(lookup(values, "Type"@) matches Some(t) && t != "Application"@)
    &&& !spec_parse_bool(lookup(values, "Hidden"@))
    &&& !spec_parse_bool(lookup(values, "NoDisplay"@))
    &&& lookup(values, "Exec"@) matches Some(e) && e.len() > 0
}

/// The name shown for an entry: the Brazilian Portuguese name, else the
/// Portuguese one, else the plain `Name`, trimmed; none when it is blank.
pub open spec fn entry_name(values: EntryValues) -> Option<Seq<char>> {
    let raw = if lookup(values, "Name[pt_BR]"@) is Some {
        lookup(values, "Name[pt_BR]"@)
    } else if lookup(values, "Name[pt]"@) is Some {
        lookup(values, "Name[pt]"@)
    } else {
        lookup(values, "Name"@)
    };
    match raw {
        Some(n) => if trimmed(n).len() > 0 { Some(trimmed(n)) } else { None },
        None => None,
    }
}

/// Further window identifiers known for some programs.
pub open spec fn extra_aliases(exe: Seq<char>) -> Set<Seq<char>> {
    if exe == "google-chrome-stable"@ {
        set![normalized("google-chrome"@), normalized("Google-chrome"@)]
    } else if exe == "firefox"@ {
        set![normalized("org.mozilla.firefox"@)]
    } else if exe == "code"@ {
        set![normalized("visual-studio-code"@)]
    } else {
        Set::empty()
    }
}

/// The identifiers derived from an entry before empty ones are dropped:
/// the desktop id without `.desktop`, the `StartupWMClass`, and the program
/// that `Exec` starts (with its extra names), all normalised.
pub open spec fn candidate_aliases(id: Seq<char>, values: EntryValues) -> Set<Seq<char>> {
    let base = set![normalized(strip_suffix_all(id, ".desktop"@))];
    let wm_class = match lookup(values, "StartupWMClass"@) {
        Some(w) => set![normalized(w)],
        None => Set::empty(),
    };
    let program = match lookup(values, "Exec"@) {
        Some(e) => match spec_executable(e) {
            Some(x) => set![normalized(x)] + extra_aliases(x),
            None => Set::empty(),
        },
        None => Set::empty(),
    };
    base + wm_class + program
}

/// The non-empty identifiers derived from an entry.
pub open spec fn desktop_aliases(id: Seq<char>, values: EntryValues) -> Set<Seq<char>> {
    candidate_aliases(id, values).filter(|a: Seq<char>| a.len() > 0)
}

fn lookup_value<'a>(values: &'a Vec<(Vec<char>, Vec<char>)>, key: &str) -> (r: Option<&'a Vec<char>>)
    ensures
        match lookup(pairs_view(values@), key@) {
            None => r is None,
            Some(v) => r matches Some(x) && x@ == v,
        },
{
    let k = chars_of(key);
    match lookup_index(values, &k) {
        Some(i) => Some(&values[i].1),
        None => None,
    }
}

fn is_true_value(v: Option<&Vec<char>>) -> (b: bool)
    ensures
        b == spec_parse_bool(
            match v {
                Some(x) => Some(x@),
                None => None,
            },
        ),
{
    match v {
        Some(x) => {
            let t = chars_of("true");
            eq_ignore_ascii_case(x, &t)
        },
        None => false,
    }
}

fn strip_desktop_suffix(id: &Vec<char>) -> (r: Vec<char>)
    ensures
        r@ == strip_suffix_all(id@, ".desktop"@),
{
    let suffix = chars_of(".desktop");
    let mut cur = sub_chars(id, 0, id.len());
    assert(id@.subrange(0, id@.len() as int) =~= id@);
    while suffix.len() > 0 && ends_with(&cur, &suffix)
        invariant
            suffix@ == ".desktop"@,
            strip_suffix_all(id@, ".desktop"@) == strip_suffix_all(cur@, ".desktop"@),
        decreases cur.len(),
    {
        cur = sub_chars(&cur, 0, cur.len() - suffix.len());
    }
    cur
}

/// Adds `alias` unless it is empty or already present.
fn add_alias(aliases: &mut Vec<String>, alias: String)
    requires
        aliases_well_formed(string_views(old(aliases)@)),
        string_views(old(aliases)@).no_duplicates(),
        is_normal_identifier(alias@),
    ensures
        aliases_well_formed(string_views(final(aliases)@)),
        string_views(final(aliases)@).no_duplicates(),
        string_views(final(aliases)@).to_set() == if alias@.len() > 0 {
            string_views(old(aliases)@).to_set().insert(alias@)
        } else {
            string_views(old(aliases)@).to_set()
        },
{
    let ghost before = string_views(aliases@);
    if alias.as_str().is_empty() {
        return ;
    }
    let mut i: usize = 0;
    while i < aliases.len()
        invariant
            i <= aliases.len(),
            before == string_views(aliases@),
            aliases_well_formed(before),
            before.no_duplicates(),
            forall|k: int| 0 <= k < i ==> before[k] != alias@,
        decreases aliases.len() - i,
    {
        if aliases[i] == alias {
            assert(before[i as int] == alias@);
            assert(before.to_set().insert(alias@) =~= before.to_set());
            return ;
        }
        i = i + 1;
    }
    proof {
        aliases@.lemma_push_map_commute(|x: String| x@, alias);
        before.lemma_push_to_set_commute(alias@);
    }
    aliases.push(alias);
}

/// Reads a launcher: `id` is its file name, `path` where it lies and
/// `content` its text. Gives the application when the entry is launchable
/// and has a name.
pub fn parse_desktop_file(id: String, path: Vec<u8>, content: &str) -> (r: Option<DesktopApp>)
    ensures
        r is Some <==> is_launchable(entry_values(content@)) && entry_name(entry_values(content@)) is Some,
        r matches Some(app) ==> {
            &&& app@.id == id@
            &&& app@.name == entry_name(entry_values(content@))->0
            &&& app@.path == path@
            &&& app@.aliases.no_duplicates()
            &&& app@.aliases.to_set() == desktop_aliases(id@, entry_values(content@))
        },
{
    let values = read_entry_values(content);
    let ghost vals = entry_values(content@);
    let type_value = lookup_value(&values, "Type");
    if let Some(t) = type_value {
        let application = chars_of("Application");
        if !chars_eq(t, &application) {
            return None;
        }
    }
    if is_true_value(lookup_value(&values, "Hidden")) || is_true_value(
        lookup_value(&values, "NoDisplay"),
    ) {
        return None;
    }
    let exec = match lookup_value(&values, "Exec") {
        Some(e) => e,
        None => {
            return None;
        },
    };
    if exec.len() == 0 {
        return None;
    }
    let raw_name = match lookup_value(&values, "Name[pt_BR]") {
        Some(n) => n,
        None => match lookup_value(&values, "Name[pt]") {
            Some(n) => n,
            None => match lookup_value(&values, "Name") {
                Some(n) => n,
                None => {
                    return None;
                },
            },
        },
    };
    let name_chars = trim_chars(raw_name);
    if name_chars.len() == 0 {
        return None;
    }
    let name = string_from_chars(&name_chars);

    let mut aliases: Vec<String> = Vec::new();
    let ghost mut candidates: Set<Seq<char>> = Set::empty();
    assert(string_views(aliases@) =~= Seq::<Seq<char>>::empty());
    assert(string_views(aliases@).to_set() =~= Set::<Seq<char>>::empty());

    let id_chars = chars_of(id.as_str());
    let stem = strip_desktop_suffix(&id_chars);
    let stem_string = string_from_chars(&stem);
    let base = normalize_identifier(stem_string.as_str());
    proof {
        lemma_normalized_is_normal(stem@);
        candidates = candidates.insert(base@);
    }
    add_alias(&mut aliases, base);

    let wm_class = lookup_value(&values, "StartupWMClass");
    if let Some(w) = wm_class {
        let w_string = string_from_chars(w);
        let alias = normalize_identifier(w_string.as_str());
        proof {
            lemma_normalized_is_normal(w@);
            candidates = candidates.insert(alias@);
        }
        add_alias(&mut aliases, alias);
    }
    let exec_string = string_from_chars(exec);
    if let Some(executable) = executable_from_exec(exec_string.as_str()) {
        let alias = normalize_identifier(executable.as_str());
        proof {
            lemma_normalized_is_normal(executable@);
            candidates = candidates.insert(alias@);
        }
        add_alias(&mut aliases, alias);
        let exe = chars_of(executable.as_str());
        let chrome = chars_of("google-chrome-stable");
        let firefox = chars_of("firefox");
        let code = chars_of("code");
        if chars_eq(&exe, &chrome) {
            let a1 = normalize_identifier("google-chrome");
            let a2 = normalize_identifier("Google-chrome");
            proof {
                lemma_normalized_is_normal("google-chrome"@);
                lemma_normalized_is_normal("Google-chrome"@);
                candidates = candidates.insert(a1@).insert(a2@);
            }
            add_alias(&mut aliases, a1);
            add_alias(&mut aliases, a2);
        } else if chars_eq(&exe, &firefox) {
            let a = normalize_identifier("org.mozilla.firefox");
            proof {
                lemma_normalized_is_normal("org.mozilla.firefox"@);
                candidates = candidates.insert(a@);
            }
            add_alias(&mut aliases, a);
        } else if chars_eq(&exe, &code) {
            let a = normalize_identifier("visual-studio-code");
            proof {
                lemma_normalized_is_normal("visual-studio-code"@);
                candidates = candidates.insert(a@);
            }
            add_alias(&mut aliases, a);
        }
    }
    assert(candidates =~= candidate_aliases(id@, vals));
    assert(string_views(aliases@).to_set() =~= desktop_aliases(id@, vals));
    Some(DesktopApp { id, name, path, aliases })
}

// ---------------------------------------------------------------------
// Matching windows to applications
// ---------------------------------------------------------------------

/// Whether a normalised window identifier matches one alias: they are equal,
/// or both have at least five characters and one ends with the other.
pub open spec fn alias_matches(candidate: Seq<char>, alias: Seq<char>) -> bool {
    ||| candidate == alias
    ||| candidate.len() >= 5 && alias.len() >= 5 && (has_suffix(candidate, alias) || has_suffix(
        alias,
        candidate,
    ))
}

/// Whether a window's application identifier belongs to an application.
pub open spec fn app_matches(app: DesktopAppView, app_id: Seq<char>) -> bool {
    let candidate = normalized(app_id);
    candidate.len() > 0 && exists|k: int|
        0 <= k < app.aliases.len() && alias_matches(candidate, #[trigger] app.aliases[k])
}

impl DesktopApp {
    /// Whether a window with application identifier `app_id` belongs to this
    /// application.
    pub fn matches_app_id(&self, app_id: &str) -> (b: bool)
        ensures
            b == app_matches(self@, app_id@),
    {
        proof {
            use_type_invariant(self);
        }
        let normal = normalize_identifier(app_id);
        let candidate = chars_of(normal.as_str());
        if candidate.len() == 0 {
            return false;
        }
        let ghost aliases = self@.aliases;
        let mut i: usize = 0;
        while i < self.aliases.len()
            invariant
                i <= self.aliases.len(),
                aliases == string_views(self.aliases@),
                candidate@ == normalized(app_id@),
                candidate@.len() > 0,
                aliases == self@.aliases,
                forall|k: int| 0 <= k < i ==> !alias_matches(candidate@, #[trigger] aliases[k]),
            decreases self.aliases.len() - i,
        {
            let alias = chars_of(self.aliases[i].as_str());
            assert(alias@ == aliases[i as int]);
            if chars_eq(&candidate, &alias) || (candidate.len() >= 5 && alias.len() >= 5 && (
            ends_with(&candidate, &alias) || ends_with(&alias, &candidate))) {
                assert(alias_matches(candidate@, aliases[i as int]));
                return true;
            }
            i = i + 1;
        }
        false
    }
}

/// Whether the `k`-th application is eligible and claims `app_id`.
pub open spec fn claims(
    apps: Seq<DesktopApp>,
    eligible: Seq<Seq<char>>,
    app_id: Seq<char>,
    k: int,
) -> bool {
    eligible.contains(apps[k]@.id) && app_matches(apps[k]@, app_id)
}

/// The desktop id of the first eligible application that claims a window:
/// `None` when none does.
pub open spec fn spec_find_desktop_id(
    apps: Seq<DesktopApp>,
    eligible: Seq<Seq<char>>,
    app_id: Seq<char>,
) -> Option<Seq<char>> {
    if exists|k: int| 0 <= k < apps.len() && claims(apps, eligible, app_id, k) {
        let k = choose|k: int|
            0 <= k < apps.len() && claims(apps, eligible, app_id, k) && forall|j: int|
                0 <= j < k ==> !claims(apps, eligible, app_id, j);
        Some(apps[k]@.id)
    } else {
        None
    }
}

/// Whether `v` is among the strings of `set`.
pub fn contains_string(set: &[String], v: &String) -> (b: bool)
    ensures
        b == string_views(set@).contains(v@),
{
    let ghost views = string_views(set@);
    let mut i: usize = 0;
    while i < set.len()
        invariant
            i <= set.len(),
            views == string_views(set@),
            forall|k: int| 0 <= k < i ==> views[k] != v@,
        decreases set.len() - i,
    {
        if set[i] == *v {
            assert(views[i as int] == v@);
            return true;
        }
        i = i + 1;
    }
    false
}

/// The desktop id under which a window is recorded: that of the first
/// application in `apps` that is `eligible` and claims the window's
/// application identifier.
pub fn find_desktop_id_for_app_id<'a>(
    app_id: &str,
    apps: &'a [DesktopApp],
    eligible: &[String],
) -> (r: Option<&'a str>)
    ensures
        match spec_find_desktop_id(apps@, string_views(eligible@), app_id@) {
            None => r is None,
            Some(id) => r matches Some(s) && s@ == id,
        },
{
    let ghost ev = string_views(eligible@);
    let mut i: usize = 0;
    while i < apps.len()
        invariant
            i <= apps.len(),
            ev == string_views(eligible@),
            forall|j: int| 0 <= j < i ==> !claims(apps@, ev, app_id@, j),
        decreases apps.len() - i,
    {
        let app = &apps[i];
        if contains_string(eligible, &app.id) && app.matches_app_id(app_id) {
            proof {
                assert(claims(apps@, ev, app_id@, i as int));
                let k = choose|k: int|
                    0 <= k < apps.len() && claims(apps@, ev, app_id@, k) && forall|j: int|
                        0 <= j < k ==> !claims(apps@, ev, app_id@, j);
                if k < i {
                } else if k > i {
                }
                assert(k == i);
            }
            return Some(app.id.as_str());
        }
        i = i + 1;
    }
    None
}

// ---------------------------------------------------------------------
// The installed applications
// ---------------------------------------------------------------------

/// The desktop id of this program's own launcher, which is never offered.
pub const DESKTOP_ID: &'static str = "io.github.ullissescastro.RetomarAmbiente.desktop";

/// A file found in an application directory.
pub struct LauncherFile {
    /// The path of the file, as bytes.
    pub path: Vec<u8>,
    /// The file's canonical path (its path where that cannot be resolved).
    pub canonical: Vec<u8>,
    /// The file's name, as bytes.
    pub file_name: Vec<u8>,
    /// The file's text, or `None` when it cannot be read as text.
    pub content: Option<String>,
}

/// Reading a path's bytes left to right: the last complete named component,
/// and the component read since the last `/` (the byte form of
/// `scan_components`).
pub open spec fn scan_byte_components(p: Seq<u8>) -> (Option<Seq<u8>>, Seq<u8>)
    decreases p.len(),
{
    if p.len() == 0 {
        (None, Seq::empty())
    } else {
        let prev = scan_byte_components(p.drop_last());
        if p.last() == 47u8 {
            (if is_named_byte_component(prev.1) { Some(prev.1) } else { prev.0 }, Seq::empty())
        } else {
            (prev.0, prev.1.push(p.last()))
        }
    }
}

/// Whether a path component names something: not empty and not `.`.
pub open spec fn is_named_byte_component(c: Seq<u8>) -> bool {
    c.len() > 0 && c != seq![46u8]
}

/// The final component of a path given as bytes, as `Path::file_name` gives
/// it: `None` for a path with no named component or one that ends in `..`.
pub open spec fn byte_file_name(p: Seq<u8>) -> Option<Seq<u8>> {
    let s = scan_byte_components(p);
    let last = if is_named_byte_component(s.1) { Some(s.1) } else { s.0 };
    match last {
        Some(c) => if c == seq![46u8, 46u8] { None } else { Some(c) },
        None => None,
    }
}

fn file_name_bytes(p: &Vec<u8>) -> (r: Option<Vec<u8>>)
    ensures
        match byte_file_name(p@) {
            None => r is None,
            Some(n) => r matches Some(v) && v@ == n,
        },
{
    let mut last: Option<Vec<u8>> = None;
    let mut cur: Vec<u8> = Vec::new();
    let mut i: usize = 0;
    while i < p.len()
        invariant
            i <= p.len(),
            scan_byte_components(p@.take(i as int)) == (
                match last {
                    Some(v) => Some(v@),
                    None => None,
                },
                cur@,
            ),
        decreases p.len() - i,
    {
        assert(p@.take(i + 1).drop_last() =~= p@.take(i as int));
        if p[i] == 47u8 {
            if cur.len() > 0 && !(cur.len() == 1 && cur[0] == 46u8) {
                assert(cur@ != seq![46u8]);
                last = Some(cur);
            } else {
                assert(cur@.len() == 1 ==> cur@ =~= seq![cur@[0]]);
            }
            cur = Vec::new();
            assert(cur@ =~= Seq::<u8>::empty());
        } else {
            cur.push(p[i]);
        }
        i = i + 1;
    }
    assert(p@.take(p.len() as int) =~= p@);
    let named = cur.len() > 0 && !(cur.len() == 1 && cur[0] == 46u8);
    proof {
        if cur@.len() == 1 {
            assert(cur@ =~= seq![cur@[0]]);
        }
    }
    let result = if named {
        Some(cur)
    } else {
        last
    };
    match result {
        Some(v) => {
            if v.len() == 2 && v[0] == 46u8 && v[1] == 46u8 {
                assert(v@ =~= seq![46u8, 46u8]);
                None
            } else {
                assert(v@.len() == 2 ==> v@ =~= seq![v@[0], v@[1]]);
                Some(v)
            }
        },
        None => None,
    }
}

impl LauncherFile {
    /// The file at `path` (as bytes), with its canonical path and its text;
    /// its name is the final component of `path`. `None` when the path has
    /// no file name.
    pub fn new(path: Vec<u8>, canonical: Vec<u8>, content: Option<String>) -> (r: Option<
        LauncherFile,
    >)
        ensures
            match byte_file_name(path@) {
                None => r is None,
                Some(n) => r matches Some(f) && f.path@ == path@ && f.canonical@ == canonical@
                    && f.file_name@ == n && f.content == content,
            },
    {
        match file_name_bytes(&path) {
            Some(file_name) => Some(LauncherFile { path, canonical, file_name, content }),
            None => None,
        }
    }
}

/// The bytes of `desktop`.
pub open spec fn desktop_extension() -> Seq<u8> {
    seq![100u8, 101u8, 115u8, 107u8, 116u8, 111u8, 112u8]
}

/// The index of the last `.` in a file name.
pub open spec fn last_dot(name: Seq<u8>) -> Option<int>
    decreases name.len(),
{
    if name.len() == 0 {
        None
    } else if name.last() == 46u8 {
        Some(name.len() - 1)
    } else {
        last_dot(name.drop_last())
    }
}

/// The extension of a file name, as `Path::extension` gives it: what follows
/// the last `.`, unless that dot begins the name or the name is `..`.
pub open spec fn file_extension(name: Seq<u8>) -> Option<Seq<u8>> {
    if name == seq![46u8, 46u8] {
        None
    } else {
        match last_dot(name) {
            Some(i) => if i == 0 { None } else { Some(name.skip(i + 1)) },
            None => None,
        }
    }
}

/// The desktop id a file name gives, when it is valid UTF-8.
pub open spec fn launcher_id(name: Seq<u8>) -> Option<Seq<char>> {
    if valid_utf8(name) {
        Some(decode_utf8(name))
    } else {
        None
    }
}

/// Whether a launcher's text describes a launchable, named application.
pub open spec fn describes_app(content: Option<String>) -> bool {
    content matches Some(c) && is_launchable(entry_values(c@)) && entry_name(entry_values(c@))
        is Some
}

/// Reading the files in order: the canonical paths already seen, and, for
/// each desktop id taken, the index of the file it was taken from. A file
/// counts only with the `desktop` extension and a path not seen before; its
/// id is taken unless it is this program's own, already taken, or the file
/// does not describe an application.
pub open spec fn scan_launchers(files: Seq<LauncherFile>) -> (Set<Seq<u8>>, Map<Seq<char>, int>)
    decreases files.len(),
{
    if files.len() == 0 {
        (Set::empty(), Map::empty())
    } else {
        let prev = scan_launchers(files.drop_last());
        let f = files.last();
        if file_extension(f.file_name@) != Some(desktop_extension()) {
            prev
        } else if prev.0.contains(f.canonical@) {
            prev
        } else {
            let seen = prev.0.insert(f.canonical@);
            match launcher_id(f.file_name@) {
                None => (seen, prev.1),
                Some(id) => if id == DESKTOP_ID@ || prev.1.contains_key(id) || !describes_app(
                    f.content,
                ) {
                    (seen, prev.1)
                } else {
                    (seen, prev.1.insert(id, files.len() - 1))
                },
            }
        }
    }
}

/// Whether `app` is what `parse_desktop_file` gives for file `f` under `id`.
pub open spec fn read_from(app: DesktopAppView, f: LauncherFile, id: Seq<char>) -> bool {
    let values = entry_values(f.content->0@);
    &&& app.id == id
    &&& app.name == entry_name(values)->0
    &&& app.path == f.path@
    &&& app.aliases.no_duplicates()
    &&& app.aliases.to_set() == desktop_aliases(id, values)
}

/// The order of the application list: by lower-cased name, then by id.
pub open spec fn app_order_key(app: DesktopAppView) -> (Seq<char>, Seq<char>) {
    (unicode_lowercase(app.name), app.id)
}

/// `String::from_utf8`: the string that valid UTF-8 bytes encode.
#[verifier::external_body]
fn utf8_string(bytes: Vec<u8>) -> (r: Option<String>)
    ensures
        r is Some <==> valid_utf8(bytes@),
        r matches Some(s) ==> s@ == decode_utf8(bytes@),
{
    String::from_utf8(bytes).ok()
}

proof fn lemma_extension_at(name: Seq<u8>, i: int)
    requires
        0 < i <= name.len(),
        last_dot(name) == Some(i - 1),
        name != seq![46u8, 46u8],
    ensures
        file_extension(name) == if i == 1 {
            None
        } else {
            Some(name.skip(i))
        },
{
}

proof fn lemma_no_extension(name: Seq<u8>)
    requires
        last_dot(name) is None,
    ensures
        file_extension(name) is None,
{
}

/// Whether a file name has the `desktop` extension (see `file_extension`).
pub fn has_desktop_extension(name: &Vec<u8>) -> (b: bool)
    ensures
        b == (file_extension(name@) == Some(desktop_extension())),
{
    if name.len() == 2 && name[0] == 46u8 && name[1] == 46u8 {
        assert(name@ =~= seq![46u8, 46u8]);
        return false;
    }
    assert(name@ != seq![46u8, 46u8]) by {
        if name@ == seq![46u8, 46u8] {
            assert(name@[0] == 46u8 && name@[1] == 46u8);
        }
    }
    let mut i = name.len();
    assert(name@.take(i as int) =~= name@);
    while i > 0 && name[i - 1] != 46u8
        invariant
            i <= name.len(),
            last_dot(name@) == last_dot(name@.take(i as int)),
        decreases i,
    {
        assert(name@.take(i as int).drop_last() =~= name@.take(i - 1));
        i = i - 1;
    }
    if i == 0 {
        proof {
            lemma_no_extension(name@);
        }
        return false;
    }
    assert(name@.take(i as int).last() == 46u8);
    proof {
        lemma_extension_at(name@, i as int);
    }
    if i == 1 {
        return false;
    }
    if name.len() - i != 7 {
        assert(name@.skip(i as int).len() != desktop_extension().len());
        return false;
    }
    let ext: [u8; 7] = [100u8, 101u8, 115u8, 107u8, 116u8, 111u8, 112u8];
    assert(ext@ =~= desktop_extension());
    let mut k: usize = 0;
    while k < 7
        invariant
            k <= 7,
            i + 7 == name.len(),
            ext@ == desktop_extension(),
            file_extension(name@) == Some(name@.skip(i as int)),
            forall|m: int| 0 <= m < k ==> name@[i + m] == ext@[m],
        decreases 7 - k,
    {
        if name[i + k] != ext[k] {
            assert(name@.skip(i as int)[k as int] != desktop_extension()[k as int]);
            return false;
        }
        k = k + 1;
    }
    assert(name@.skip(i as int) =~= desktop_extension());
    true
}

fn contains_bytes(set: &Vec<Vec<u8>>, v: &Vec<u8>) -> (b: bool)
    ensures
        b == exists|k: int| 0 <= k < set.len() && (#[trigger] set@[k])@ == v@,
{
    let mut i: usize = 0;
    while i < set.len()
        invariant
            i <= set.len(),
            forall|k: int| 0 <= k < i ==> (#[trigger] set@[k])@ != v@,
        decreases set.len() - i,
    {
        let w = &set[i];
        if w.len() == v.len() {
            let mut j: usize = 0;
            let mut same = true;
            while j < w.len()
                invariant
                    j <= w.len() == v.len(),
                    same == forall|m: int| 0 <= m < j ==> w@[m] == v@[m],
                decreases w.len() - j,
            {
                if w[j] != v[j] {
                    same = false;
                }
                j = j + 1;
            }
            if same {
                assert(w@ =~= v@);
                return true;
            }
        }
        i = i + 1;
    }
    false
}

fn found_index(found: &Vec<(SortKey, DesktopApp)>, id: &String) -> (r: bool)
    ensures
        r == exists|k: int| 0 <= k < found.len() && (#[trigger] found@[k]).1@.id == id@,
{
    let mut i: usize = 0;
    while i < found.len()
        invariant
            i <= found.len(),
            forall|k: int| 0 <= k < i ==> (#[trigger] found@[k]).1@.id != id@,
        decreases found.len() - i,
    {
        if found[i].1.id == *id {
            return true;
        }
        i = i + 1;
    }
    false
}

/// Invariant of the collection: the applications taken so far, each with
/// its order key, correspond one to one to the ids taken by the scan.
pub open spec fn collected(
    files: Seq<LauncherFile>,
    found: Seq<(SortKey, DesktopApp)>,
    taken: Map<Seq<char>, int>,
) -> bool {
    &&& forall|k: int|
        0 <= k < found.len() ==> {
            let app = (#[trigger] found[k]).1@;
            &&& taken.contains_key(app.id)
            &&& 0 <= taken[app.id] < files.len()
            &&& read_from(app, files[taken[app.id]], app.id)
            &&& key_of(found[k].0) == app_order_key(app)
        }
    &&& forall|id: Seq<char>|
        #[trigger] taken.contains_key(id) ==> exists|k: int|
            0 <= k < found.len() && (#[trigger] found[k]).1@.id == id
    &&& keys_distinct(keyed(found))
}

/// The applications that the files describe, as the list of installed
/// applications shows them: one per desktop id, ordered by lower-cased name
/// and then by id; never this program itself.
pub fn collect_desktop_apps(files: &Vec<LauncherFile>) -> (r: Vec<DesktopApp>)
    ensures
        forall|k: int|
            0 <= k < r.len() ==> {
                let taken = scan_launchers(files@).1;
                let app = (#[trigger] r@[k])@;
                &&& taken.contains_key(app.id)
                &&& read_from(app, files@[taken[app.id]], app.id)
            },
        forall|id: Seq<char>|
            #[trigger] scan_launchers(files@).1.contains_key(id) ==> exists|k: int|
                0 <= k < r.len() && (#[trigger] r@[k])@.id == id,
        forall|i: int, j: int|
            0 <= i < j < r.len() ==> key_lt(app_order_key(r@[i]@), app_order_key(r@[j]@)),
        forall|i: int, j: int| 0 <= i < j < r.len() ==> r@[i]@.id != r@[j]@.id,
        forall|k: int| 0 <= k < r.len() ==> (#[trigger] r@[k])@.id != DESKTOP_ID@,
        (forall|j: int|
            0 <= j < files.len() ==> byte_file_name((#[trigger] files@[j]).path@) == Some(
                files@[j].file_name@,
            )) ==> forall|k: int|
            0 <= k < r.len() ==> (byte_file_name((#[trigger] r@[k])@.path) matches Some(n)
                && launcher_id(n) == Some(r@[k]@.id) && file_extension(n) == Some(
                desktop_extension(),
            )),
{
    let mut seen: Vec<Vec<u8>> = Vec::new();
    let mut found: Vec<(SortKey, DesktopApp)> = Vec::new();
    let own = chars_of(DESKTOP_ID);
    let mut i: usize = 0;
    while i < files.len()
        invariant
            i <= files.len(),
            own@ == DESKTOP_ID@,
            scan_launchers(files@.take(i as int)).0 == Set::new(
                |b: Seq<u8>| exists|k: int| 0 <= k < seen.len() && (#[trigger] seen@[k])@ == b,
            ),
            collected(files@, found@, scan_launchers(files@.take(i as int)).1),
            forall|id: Seq<char>| #[trigger]
                scan_launchers(files@.take(i as int)).1.contains_key(id) ==> scan_launchers(
                    files@.take(i as int),
                ).1[id] < i,
        decreases files.len() - i,
    {
        let ghost prefix = files@.take(i as int);
        let ghost prev = scan_launchers(prefix);
        assert(files@.take(i + 1).drop_last() =~= prefix);
        assert(files@.take(i + 1).last() == files@[i as int]);
        let f = &files[i];
        if has_desktop_extension(&f.file_name) && !contains_bytes(&seen, &f.canonical) {
            let ghost seen_before = seen@;
            seen.push(clone_bytes(&f.canonical));
            assert(prev.0.insert(f.canonical@) =~= Set::new(
                |b: Seq<u8>| exists|k: int| 0 <= k < seen.len() && (#[trigger] seen@[k])@ == b,
            )) by {
                assert forall|b: Seq<u8>| prev.0.insert(f.canonical@).contains(b) implies exists|
                    k: int,
                | 0 <= k < seen.len() && (#[trigger] seen@[k])@ == b by {
                    if b == f.canonical@ {
                        assert(seen@[seen.len() - 1]@ == b);
                    } else {
                        let k = choose|k: int|
                            0 <= k < seen_before.len() && (#[trigger] seen_before[k])@ == b;
                        assert(seen@[k] == seen_before[k]);
                    }
                }
                assert forall|b: Seq<u8>|
                    (exists|k: int| 0 <= k < seen.len() && (#[trigger] seen@[k])@ == b) implies prev.0.insert(
                    f.canonical@,
                ).contains(b) by {
                    let k = choose|k: int| 0 <= k < seen.len() && (#[trigger] seen@[k])@ == b;
                    if k < seen_before.len() {
                        assert(seen@[k] == seen_before[k]);
                    }
                }
            }
            let name_bytes = clone_bytes(&f.file_name);
            if let Some(id) = utf8_string(name_bytes) {
                let id_chars = chars_of(id.as_str());
                if !chars_eq(&id_chars, &own) && !found_index(&found, &id) {
                    if let Some(content) = &f.content {
                        match parse_desktop_file(id.clone(), clone_bytes(&f.path), content.as_str()) {
                            Some(app) => {
                                let lower = to_lowercase(app.name().as_str());
                                let key = SortKey {
                                    major: chars_of(lower.as_str()),
                                    minor: chars_of(app.id().as_str()),
                                };
                                let ghost taken = prev.1.insert(id@, i as int);
                                let ghost before = found@;
                                found.push((key, app));
                                proof {
                                    assert forall|k: int| 0 <= k < found.len() implies {
                                        let a = (#[trigger] found@[k]).1@;
                                        &&& taken.contains_key(a.id)
                                        &&& 0 <= taken[a.id] < files@.len()
                                        &&& read_from(a, files@[taken[a.id]], a.id)
                                        &&& key_of(found@[k].0) == app_order_key(a)
                                    } by {
                                        if k < before.len() {
                                            assert(found@[k] == before[k]);
                                            assert(before[k].1@.id != id@);
                                        }
                                    }
                                    assert forall|x: Seq<char>| #[trigger]
                                        taken.contains_key(x) implies exists|k: int|
                                        0 <= k < found.len() && (#[trigger] found@[k]).1@.id
                                            == x by {
                                        if x == id@ {
                                            assert(found@[found.len() - 1].1@.id == x);
                                        } else {
                                            let k = choose|k: int|
                                                0 <= k < before.len() && (#[trigger] before[k]).1@.id
                                                    == x;
                                            assert(found@[k] == before[k]);
                                        }
                                    }
                                    assert forall|a: int, b: int|
                                        0 <= a < found.len() && 0 <= b < found.len() && a
                                            != b implies keyed(found@)[a].0 != keyed(
                                        found@,
                                    )[b].0 by {
                                        if a < before.len() && b < before.len() {
                                            assert(found@[a] == before[a]
                                                && found@[b] == before[b]);
                                            assert(keyed(before)[a].0 != keyed(before)[b].0);
                                        } else if a < before.len() {
                                            assert(found@[a] == before[a]);
                                            assert(before[a].1@.id != id@);
                                        } else {
                                            assert(found@[b] == before[b]);
                                            assert(before[b].1@.id != id@);
                                        }
                                    }
                                }
                            },
                            None => {},
                        }
                    }
                }
            }
        }
        i = i + 1;
    }
    assert(files@.take(files.len() as int) =~= files@);
    let ghost taken = scan_launchers(files@).1;
    let ghost unsorted = found@;
    let sorted = stable_sort_by_key(found);
    proof {
        lemma_stable_sorted_props(keyed(unsorted));
        lemma_stable_sorted_distinct(keyed(unsorted));
        lemma_sorted_distinct_strict(keyed(sorted@));
    }
    let mut r: Vec<DesktopApp> = Vec::new();
    let mut sorted = sorted;
    let ghost all = sorted@;
    let n = sorted.len();
    let mut j: usize = 0;
    while sorted.len() > 0
        invariant
            j + sorted.len() == all.len(),
            all.len() == n,
            sorted@ == all.skip(j as int),
            r.len() == j,
            forall|k: int| 0 <= k < j ==> (#[trigger] r@[k])@ == all[k].1@,
        decreases sorted.len(),
    {
        let (_, app) = sorted.remove(0);
        r.push(app);
        j = j + 1;
        assert(sorted@ =~= all.skip(j as int));
    }
    proof {
        assert forall|k: int| 0 <= k < r.len() implies {
            let app = (#[trigger] r@[k])@;
            &&& taken.contains_key(app.id)
            &&& read_from(app, files@[taken[app.id]], app.id)
        } by {
            lemma_same_elements(keyed(all), keyed(unsorted), k);
            let m = choose|m: int|
                0 <= m < unsorted.len() && keyed(unsorted)[m] == keyed(all)[k];
            assert(unsorted[m].1 == all[k].1);
        }
        assert forall|id: Seq<char>| #[trigger] taken.contains_key(id) implies exists|k: int|
            0 <= k < r.len() && (#[trigger] r@[k])@.id == id by {
            let m = choose|m: int| 0 <= m < unsorted.len() && (#[trigger] unsorted[m]).1@.id == id;
            let ku = keyed(unsorted);
            let ka = keyed(all);
            assert(ku.contains(ku[m]));
            vstd::seq_lib::to_multiset_contains(ku, ku[m]);
            vstd::seq_lib::to_multiset_contains(ka, ku[m]);
            let k = choose|k: int| 0 <= k < ka.len() && ka[k] == ku[m];
            assert(all[k].1 == unsorted[m].1);
            assert(r@[k]@.id == id);
        }
        assert forall|a: int, b: int| 0 <= a < b < r.len() implies key_lt(
            app_order_key(r@[a]@),
            app_order_key(r@[b]@),
        ) by {
            lemma_same_elements(keyed(all), keyed(unsorted), a);
            lemma_same_elements(keyed(all), keyed(unsorted), b);
            let ma = choose|m: int|
                0 <= m < unsorted.len() && keyed(unsorted)[m] == keyed(all)[a];
            let mb = choose|m: int|
                0 <= m < unsorted.len() && keyed(unsorted)[m] == keyed(all)[b];
            assert(keyed(all)[a].0 == app_order_key(all[a].1@));
            assert(keyed(all)[b].0 == app_order_key(all[b].1@));
        }
        assert forall|a: int, b: int| 0 <= a < b < r.len() implies r@[a]@.id != r@[b]@.id by {
            if r@[a]@.id == r@[b]@.id {
                let ra = r@[a]@;
                let rb = r@[b]@;
                assert(taken.contains_key(ra.id) && read_from(ra, files@[taken[ra.id]], ra.id));
                assert(taken.contains_key(rb.id) && read_from(rb, files@[taken[rb.id]], rb.id));
                assert(key_lt(app_order_key(ra), app_order_key(rb)));
                assert(app_order_key(ra) == app_order_key(rb));
                lemma_key_lt_irreflexive(app_order_key(ra));
            }
        }
        lemma_scan_excludes_own(files@);
        if forall|j: int|
            0 <= j < files.len() ==> byte_file_name((#[trigger] files@[j]).path@) == Some(
                files@[j].file_name@,
            ) {
            assert forall|k: int| 0 <= k < r.len() implies (byte_file_name(
                (#[trigger] r@[k])@.path,
            ) matches Some(n) && launcher_id(n) == Some(r@[k]@.id) && file_extension(n) == Some(
                desktop_extension(),
            )) by {
                let app = r@[k]@;
                lemma_scan_taken(files@, app.id);
                let f = files@[taken[app.id]];
                assert(read_from(app, f, app.id));
                assert(app.path == f.path@);
                assert(byte_file_name(f.path@) == Some(f.file_name@));
            }
        }
    }
    r
}

/// A file the scan takes an id from is a `.desktop` file named by that id.
proof fn lemma_scan_taken(files: Seq<LauncherFile>, id: Seq<char>)
    requires
        scan_launchers(files).1.contains_key(id),
    ensures
        0 <= scan_launchers(files).1[id] < files.len(),
        launcher_id(files[scan_launchers(files).1[id]].file_name@) == Some(id),
        file_extension(files[scan_launchers(files).1[id]].file_name@) == Some(desktop_extension()),
    decreases files.len(),
{
    let prev = scan_launchers(files.drop_last());
    if prev.1.contains_key(id) {
        lemma_scan_taken(files.drop_last(), id);
        let j = prev.1[id];
        assert(files.drop_last()[j] == files[j]);
    }
}

/// The scan never takes this program's own launcher.
proof fn lemma_scan_excludes_own(files: Seq<LauncherFile>)
    ensures
        !scan_launchers(files).1.contains_key(DESKTOP_ID@),
    decreases files.len(),
{
    if files.len() > 0 {
        lemma_scan_excludes_own(files.drop_last());
    }
}

} // verus!
