//! The EverQuest side of log watching: which files are logs, whose log a
//! file is, what a folder probe reports, and how appended bytes become lines.
use vstd::prelude::*;

use crate::command::opt_view;
use crate::text::{
    chars_of, eq_ci, eq_ignore_case_str, ends_with, find, find_str, has_prefix, has_suffix, lower,
    lower_of, match_at, matches_at, slice_of, starts_with, string_of, strip_prefix, trim,
    trim_by, trim_by_of, trim_of, trim_start, trim_start_of, CharSet,
};

verus! {

// ----------------------------------------------------------------- flavour

/// The path flavour of this build: the separator `std::path` writes, `\\`
/// on Windows and `/` elsewhere. Only `of_build` makes one, so every flavour
/// a program holds is its own build's; what `std::path` does with a path
/// depends on it.
#[derive(Debug)]
pub struct PathFlavour {
    sep: char,
}

impl View for PathFlavour {
    type V = char;

    closed spec fn view(&self) -> char {
        self.sep
    }
}

impl PathFlavour {
    /// `std::path::MAIN_SEPARATOR`. Which one it is depends on the build, so
    /// nothing is promised of it.
    #[verifier::external_body]
    pub fn of_build() -> PathFlavour {
        PathFlavour { sep: std::path::MAIN_SEPARATOR }
    }
}

// ------------------------------------------------------------------ status

/// What the watcher is doing, as the settings page shows it.
#[derive(Debug)]
pub struct WatchStatus {
    pub eq_directory: Option<String>,
    pub logs_path: Option<String>,
    pub logs_canonical: Option<String>,
    pub active_log: Option<String>,
    pub character: Option<String>,
    pub backend: String,
    pub last_error: Option<String>,
}

impl WatchStatus {
    /// Nothing watched, only the reason if there is one.
    pub fn idle(error: Option<String>) -> (s: WatchStatus)
        ensures
            s.eq_directory is None,
            s.logs_path is None,
            s.logs_canonical is None,
            s.active_log is None,
            s.character is None,
            s.backend@ == "idle"@,
            s.last_error == error,
    {
        WatchStatus {
            eq_directory: None,
            logs_path: None,
            logs_canonical: None,
            active_log: None,
            character: None,
            backend: crate::text::string_of(&chars_of("idle")),
            last_error: error,
        }
    }
}

/// What checking a folder found.
#[derive(Debug)]
pub struct EqDirectoryProbe {
    pub ok: bool,
    pub path: String,
    pub logs_path: Option<String>,
    pub active_log: Option<String>,
    pub character: Option<String>,
    pub error: Option<String>,
}

/// What the watcher reports.
#[derive(Debug)]
pub enum WatchEvent {
    Status(WatchStatus),
    Lines { character: Option<String>, lines: Vec<String> },
}

// ------------------------------------------------------------------- names

/// `eqlog_*.txt`, in any case.
pub open spec fn spec_is_eq_log_name(name: Seq<char>) -> bool {
    starts_with(lower(name), "eqlog_"@) && ends_with(lower(name), ".txt"@)
}

pub fn is_eq_log_name(name: &str) -> (b: bool)
    ensures
        b == spec_is_eq_log_name(name@),
{
    let v = chars_of(name);
    let low = lower_of(&v);
    let prefix = chars_of("eqlog_");
    let suffix = chars_of(".txt");
    has_prefix(&low, &prefix) && has_suffix(&low, &suffix)
}

/// A folder called `Logs`, in any case.
pub fn is_logs_name(name: &str) -> (b: bool)
    ensures
        b == eq_ci(name@, "logs"@),
{
    let v = chars_of(name);
    eq_ignore_case_str(&v, "logs")
}

/// What `Path::file_stem` gives for a path written as text on a build whose
/// separator is `sep`: its last part without the extension, or nothing when
/// the path has no file name.
pub uninterp spec fn file_stem_of(sep: char, path: Seq<char>) -> Option<Seq<char>>;

/// `Path::file_stem` on `path`, as text, on this build (whose flavour
/// `flavour` is, since only `PathFlavour::of_build` makes one). The stem of a `&str` path is always
/// valid text, so `to_str` never fails here.
#[verifier::external_body]
fn file_stem(flavour: &PathFlavour, path: &str) -> (r: Option<String>)
    ensures
        opt_view(r) == file_stem_of(flavour@, path@),
{
    std::path::Path::new(path).file_stem().and_then(|s| s.to_str()).map(|s| s.to_string())
}

/// Where `c` last occurs in `s`, if it does.
pub open spec fn last_index_of(s: Seq<char>, c: char) -> Option<int>
    decreases s.len(),
{
    if s.len() == 0 {
        None
    } else if s.last() == c {
        Some(s.len() - 1)
    } else {
        last_index_of(s.drop_last(), c)
    }
}

/// The character a log stem names: after `eqlog_` (found in any case),
/// up to the last underscore, which comes before the server.
pub open spec fn spec_character_from_stem(stem: Seq<char>) -> Option<Seq<char>> {
    let rest = if starts_with(stem, "eqlog_"@) {
        Some(stem.skip("eqlog_"@.len() as int))
    } else {
        match find(lower(stem), "eqlog_"@) {
            Some(i) => Some(stem.skip(i + "eqlog_"@.len())),
            None => None,
        }
    };
    match rest {
        None => None,
        Some(r) => match last_index_of(r, '_') {
            None => None,
            Some(k) => if k == 0 {
                None
            } else {
                Some(r.take(k))
            },
        },
    }
}

proof fn lemma_last_index_bounds(s: Seq<char>, c: char)
    ensures
        last_index_of(s, c) matches Some(k) ==> 0 <= k < s.len() && s[k] == c,
        last_index_of(s, c) is None ==> forall|j: int| 0 <= j < s.len() ==> s[j] != c,
    decreases s.len(),
{
    if s.len() > 0 && s.last() != c {
        lemma_last_index_bounds(s.drop_last(), c);
        assert forall|j: int| 0 <= j < s.len() - 1 implies s.drop_last()[j] == s[j] by {}
    }
}

fn last_underscore(v: &Vec<char>) -> (r: Option<usize>)
    ensures
        r matches Some(k) ==> last_index_of(v@, '_') == Some(k as int),
        r is None ==> last_index_of(v@, '_') is None,
{
    let mut i = v.len();
    assert(v@.take(i as int) == v@);
    while i > 0
        invariant
            i <= v@.len(),
            last_index_of(v@, '_') == last_index_of(v@.take(i as int), '_'),
        decreases i,
    {
        assert(v@.take(i as int).last() == v@[i - 1]);
        assert(v@.take(i as int).drop_last() == v@.take(i - 1));
        if v[i - 1] == '_' {
            return Some(i - 1);
        }
        i -= 1;
    }
    assert(v@.take(0) == Seq::<char>::empty());
    None
}

pub fn character_from_stem(stem: &str) -> (r: Option<String>)
    ensures
        opt_view(r) == spec_character_from_stem(stem@),
{
    let v = chars_of(stem);
    let rest = match strip_prefix(&v, "eqlog_") {
        Some(r) => r,
        None => {
            let low = lower_of(&v);
            match find_str(&low, "eqlog_") {
                Some(i) => {
                    proof {
                        crate::text::lemma_find_from_bounds(lower(v@), "eqlog_"@, 0);
                    }
                    let p = chars_of("eqlog_");
                    assert(lower(v@).len() == v@.len());
                    assert(matches_at(lower(v@), p@, i as int));
                    let n = v.len();
                    let plen = p.len();
                    assert(i + plen <= n);
                    slice_of(&v, i + plen, n)
                },
                None => {
                    return None;
                },
            }
        },
    };
    match last_underscore(&rest) {
        None => None,
        Some(k) => {
            if k == 0 {
                None
            } else {
                proof {
                    lemma_last_index_bounds(rest@, '_');
                }
                Some(string_of(&slice_of(&rest, 0, k)))
            }
        },
    }
}

/// The character whose log this is: `eqlog_Name_Server.txt` gives `Name`.
pub fn character_from_log(flavour: &PathFlavour, path: &str) -> (r: Option<String>)
    ensures
        opt_view(r) == match file_stem_of(flavour@, path@) {
            Some(stem) => spec_character_from_stem(stem),
            None => None,
        },
{
    match file_stem(flavour, path) {
        Some(stem) => character_from_stem(stem.as_str()),
        None => None,
    }
}

// ------------------------------------------------------------------ paths

/// What `Path::join` makes of a base and a part, written back as text, on a
/// build whose separator is `sep`.
pub uninterp spec fn joined_path(sep: char, base: Seq<char>, part: Seq<char>) -> Seq<char>;

/// `Path::new(base).join(part)`, as text, on this build (whose flavour
/// `flavour` is). Both are text already, so the
/// conversion back loses nothing.
#[verifier::external_body]
pub(crate) fn join_path(flavour: &PathFlavour, base: &str, part: &str) -> (r: String)
    ensures
        r@ == joined_path(flavour@, base@, part@),
{
    std::path::Path::new(base).join(part).to_string_lossy().into_owned()
}

/// `dirs::home_dir`, as text. Where home is depends on the machine, so
/// nothing is promised of the answer.
#[verifier::external_body]
fn home_dir() -> Option<String> {
    dirs::home_dir().map(|p| p.to_string_lossy().into_owned())
}

/// Where EverQuest tends to be installed under a search base.
pub open spec fn eq_relative_path_table() -> Seq<Seq<Seq<char>>> {
    seq![
        seq!["EverQuest"@],
        seq!["EQ"@],
        seq!["P99"@],
        seq!["Project1999"@],
        seq!["Project 1999"@],
        seq!["Games"@, "EverQuest"@],
        seq!["Games"@, "EQ"@],
        seq!["Games"@, "P99"@],
        seq!["Games"@, "Project1999"@],
        seq!["Games"@, "Project 1999"@],
        seq!["Program Files (x86)"@, "Sony"@, "EverQuest"@],
        seq!["Program Files (x86)"@, "Sony Online Entertainment"@, "Installed Games"@, "EverQuest"@],
        seq!["Program Files (x86)"@, "Daybreak Game Company"@, "Installed Games"@, "EverQuest"@],
        seq!["Program Files (x86)"@, "Steam"@, "steamapps"@, "common"@, "EverQuest"@],
        seq!["Program Files"@, "EverQuest"@],
        seq!["Program Files"@, "Steam"@, "steamapps"@, "common"@, "EverQuest"@],
        seq!["Users"@, "Public"@, "Daybreak Game Company"@, "Installed Games"@, "EverQuest"@],
        seq!["Sony"@, "EverQuest"@],
        seq!["Library"@, "Application Support"@, "Steam"@, "steamapps"@, "common"@, "EverQuest"@],
        seq![".steam"@, "steam"@, "steamapps"@, "common"@, "EverQuest"@],
        seq![".local"@, "share"@, "Steam"@, "steamapps"@, "common"@, "EverQuest"@],
    ]
}

pub fn eq_relative_paths() -> (paths: Vec<Vec<&'static str>>)
    ensures
        paths@.len() == eq_relative_path_table().len(),
        forall|i: int| 0 <= i < paths@.len() ==> (#[trigger] paths@[i])@.len() == eq_relative_path_table()[i].len(),
        forall|i: int, j: int|
            0 <= i < paths@.len() && 0 <= j < paths@[i]@.len() ==> (#[trigger] paths@[i]@[j])@
                == eq_relative_path_table()[i][j],
{
    let paths: Vec<Vec<&'static str>> = vec![
        vec!["EverQuest"],
        vec!["EQ"],
        vec!["P99"],
        vec!["Project1999"],
        vec!["Project 1999"],
        vec!["Games", "EverQuest"],
        vec!["Games", "EQ"],
        vec!["Games", "P99"],
        vec!["Games", "Project1999"],
        vec!["Games", "Project 1999"],
        vec!["Program Files (x86)", "Sony", "EverQuest"],
        vec!["Program Files (x86)", "Sony Online Entertainment", "Installed Games", "EverQuest"],
        vec!["Program Files (x86)", "Daybreak Game Company", "Installed Games", "EverQuest"],
        vec!["Program Files (x86)", "Steam", "steamapps", "common", "EverQuest"],
        vec!["Program Files", "EverQuest"],
        vec!["Program Files", "Steam", "steamapps", "common", "EverQuest"],
        vec!["Users", "Public", "Daybreak Game Company", "Installed Games", "EverQuest"],
        vec!["Sony", "EverQuest"],
        vec!["Library", "Application Support", "Steam", "steamapps", "common", "EverQuest"],
        vec![".steam", "steam", "steamapps", "common", "EverQuest"],
        vec![".local", "share", "Steam", "steamapps", "common", "EverQuest"],
    ];
    paths
}

/// `s` with every `pat`, left to right, swapped for `with`.
pub open spec fn replace_from(s: Seq<char>, pat: Seq<char>, with: Seq<char>, i: int) -> Seq<char>
    decreases s.len() - i,
{
    if i < 0 || i >= s.len() || pat.len() == 0 {
        if 0 <= i <= s.len() {
            s.skip(i)
        } else {
            Seq::empty()
        }
    } else if matches_at(s, pat, i) {
        with + replace_from(s, pat, with, i + pat.len())
    } else {
        seq![s[i]] + replace_from(s, pat, with, i + 1)
    }
}

/// A `file:` URL as a path: slashes after the scheme dropped, `localhost/`
/// dropped, and a leading `/` put back unless it starts with a drive letter.
pub open spec fn spec_unfile(s: Seq<char>) -> Seq<char> {
    if starts_with(s, "file:"@) {
        let after = trim_start(s.skip("file:"@.len() as int), CharSet::One('/'));
        let rest = if starts_with(after, "localhost/"@) {
            after.skip("localhost/"@.len() as int)
        } else {
            after
        };
        if rest.len() >= 2 && (rest[0] as u32) < 128 && rest[1] == ':' {
            rest
        } else {
            seq!['/'] + rest
        }
    } else {
        s
    }
}

/// A folder path as pasted or dropped: trimmed, unquoted, `%20` read as a
/// space, `file:` URLs made into paths, and `~/` put under `home` when
/// there is one.
pub open spec fn spec_normalize_eq_path(sep: char, raw: Seq<char>, home: Option<Seq<char>>) -> Seq<char> {
    let unquoted = trim(trim_by(trim(raw), CharSet::Quotes));
    let s = spec_unfile(replace_from(unquoted, "%20"@, " "@, 0));
    if starts_with(s, "~/"@) && home is Some {
        joined_path(sep, home->0, s.skip("~/"@.len() as int))
    } else {
        s
    }
}

fn replace_all(s: &Vec<char>, pat: &str, with: &str) -> (r: Vec<char>)
    requires
        pat@.len() > 0,
    ensures
        r@ == replace_from(s@, pat@, with@, 0),
{
    let p = chars_of(pat);
    let w = chars_of(with);
    let mut out: Vec<char> = Vec::new();
    let mut i: usize = 0;
    let n = s.len();
    while i < n
        invariant
            n == s@.len(),
            i <= n,
            p@ == pat@,
            w@ == with@,
            p@.len() > 0,
            out@ + replace_from(s@, p@, w@, i as int) == replace_from(s@, p@, w@, 0),
        decreases n - i,
    {
        if match_at(s, &p, i) {
            crate::text::append_chars(&mut out, &w);
            assert(out@ + replace_from(s@, p@, w@, i + p@.len()) == replace_from(s@, p@, w@, 0)) by {
                assert(replace_from(s@, p@, w@, i as int) == w@ + replace_from(s@, p@, w@, i + p@.len()));
            }
            i = i + p.len();
        } else {
            out.push(s[i]);
            assert(out@ + replace_from(s@, p@, w@, i + 1) == replace_from(s@, p@, w@, 0)) by {
                assert(replace_from(s@, p@, w@, i as int) == seq![s@[i as int]] + replace_from(s@, p@, w@, i + 1));
            }
            i = i + 1;
        }
    }
    assert(replace_from(s@, p@, w@, n as int) =~= Seq::<char>::empty());
    out
}

fn unfile(s: Vec<char>) -> (r: Vec<char>)
    ensures
        r@ == spec_unfile(s@),
{
    match strip_prefix(&s, "file:") {
        None => s,
        Some(after_scheme) => {
            let after = trim_start_of(&after_scheme, CharSet::One('/'));
            let rest = match strip_prefix(&after, "localhost/") {
                Some(r) => r,
                None => after,
            };
            if rest.len() >= 2 && (rest[0] as u32) < 128 && rest[1] == ':' {
                rest
            } else {
                let mut r: Vec<char> = Vec::new();
                r.push('/');
                crate::text::append_chars(&mut r, &rest);
                r
            }
        },
    }
}

/// A pasted folder path cleaned up, with `~/` put under `home` if given.
pub fn normalize_eq_path_with(flavour: &PathFlavour, raw: &str, home: Option<&str>) -> (r: String)
    ensures
        r@ == spec_normalize_eq_path(flavour@, raw@, match home {
            Some(h) => Some(h@),
            None => None,
        }),
{
    proof {
        reveal_strlit("%20");
    }
    let v = chars_of(raw);
    let a = trim_of(&v);
    let b = trim_by_of(&a, CharSet::Quotes);
    let c = trim_of(&b);
    let d = replace_all(&c, "%20", " ");
    let s = unfile(d);
    match strip_prefix(&s, "~/") {
        Some(rest) => match home {
            Some(h) => {
                let rest_text = string_of(&rest);
                join_path(flavour, h, rest_text.as_str())
            },
            None => string_of(&s),
        },
        None => string_of(&s),
    }
}

/// A pasted folder path cleaned up, with `~/` under this user's home folder.
pub fn normalize_eq_path(flavour: &PathFlavour, raw: &str) -> (r: String)
    ensures
        exists|home: Option<Seq<char>>| r@ == spec_normalize_eq_path(flavour@, raw@, home),
{
    let home = home_dir();
    match home {
        Some(h) => normalize_eq_path_with(flavour, raw, Some(h.as_str())),
        None => normalize_eq_path_with(flavour, raw, None),
    }
}

// ------------------------------------------------------------------ probes

/// The Logs folder found under a folder being checked.
#[derive(Debug)]
pub struct FoundLogs {
    /// The Logs folder as the user would write it.
    pub user_path: String,
    /// The newest `eqlog_*.txt` in it, if there is one.
    pub newest_log: Option<String>,
}

/// What the disk says about a folder being checked.
#[derive(Debug)]
pub struct DirFacts {
    pub exists: bool,
    pub is_dir: bool,
    /// Its Logs folder, or why there is none.
    pub logs: Result<FoundLogs, String>,
    /// It holds `eqgame.exe` or another file only an EverQuest folder has.
    pub looks_like_root: bool,
}

pub struct ProbeView {
    pub ok: bool,
    pub path: Seq<char>,
    pub logs_path: Option<Seq<char>>,
    pub active_log: Option<Seq<char>>,
    pub character: Option<Seq<char>>,
    pub error: Option<Seq<char>>,
}

impl View for EqDirectoryProbe {
    type V = ProbeView;

    open spec fn view(&self) -> ProbeView {
        ProbeView {
            ok: self.ok,
            path: self.path@,
            logs_path: opt_view(self.logs_path),
            active_log: opt_view(self.active_log),
            character: opt_view(self.character),
            error: opt_view(self.error),
        }
    }
}

pub open spec fn failed_probe(path: Seq<char>, error: Seq<char>) -> ProbeView {
    ProbeView { ok: false, path, logs_path: None, active_log: None, character: None, error: Some(error) }
}

/// The character of a log path, if it names one.
pub open spec fn log_character(sep: char, path: Option<Seq<char>>) -> Option<Seq<char>> {
    match path {
        Some(p) => match file_stem_of(sep, p) {
            Some(stem) => spec_character_from_stem(stem),
            None => None,
        },
        None => None,
    }
}

/// What checking a folder reports, from what the disk said about it.
pub open spec fn spec_probe(sep: char, path: Seq<char>, facts: DirFacts) -> ProbeView {
    if path.len() == 0 {
        failed_probe(path, "Paste or browse to your EverQuest folder."@)
    } else if !facts.exists {
        failed_probe(path, "That path does not exist."@)
    } else if !facts.is_dir {
        failed_probe(path, "That path is not a folder."@)
    } else {
        match facts.logs {
            Ok(found) => ProbeView {
                ok: true,
                path,
                logs_path: Some(found.user_path@),
                active_log: opt_view(found.newest_log),
                character: log_character(sep, opt_view(found.newest_log)),
                error: None,
            },
            Err(err) => failed_probe(
                path,
                if facts.looks_like_root {
                    err@ + " Turn on /log in game if you have not yet."@
                } else {
                    "Not an EverQuest folder. Pick the EQ root (the folder with eqgame.exe or a Logs directory)."@
                },
            ),
        }
    }
}

fn text(s: &str) -> (r: String)
    ensures
        r@ == s@,
{
    string_of(&chars_of(s))
}

/// Checks a folder someone pasted or picked: `path` as normalised, and what
/// the disk said about it.
pub fn inspect_eq_directory(flavour: &PathFlavour, path: String, facts: DirFacts) -> (probe: EqDirectoryProbe)
    ensures
        probe@ == spec_probe(flavour@, path@, facts),
{
    let ghost f = facts;
    let empty = chars_of(path.as_str()).len() == 0;
    if empty {
        return EqDirectoryProbe {
            ok: false,
            path,
            logs_path: None,
            active_log: None,
            character: None,
            error: Some(text("Paste or browse to your EverQuest folder.")),
        };
    }
    if !facts.exists {
        return EqDirectoryProbe {
            ok: false,
            path,
            logs_path: None,
            active_log: None,
            character: None,
            error: Some(text("That path does not exist.")),
        };
    }
    if !facts.is_dir {
        return EqDirectoryProbe {
            ok: false,
            path,
            logs_path: None,
            active_log: None,
            character: None,
            error: Some(text("That path is not a folder.")),
        };
    }
    match facts.logs {
        Ok(found) => {
            let character = match &found.newest_log {
                Some(p) => character_from_log(flavour, p.as_str()),
                None => None,
            };
            EqDirectoryProbe {
                ok: true,
                path,
                logs_path: Some(found.user_path),
                active_log: found.newest_log,
                character,
                error: None,
            }
        },
        Err(err) => {
            let hint = if facts.looks_like_root {
                let mut v = chars_of(err.as_str());
                crate::text::append_str(&mut v, " Turn on /log in game if you have not yet.");
                string_of(&v)
            } else {
                text(
                    "Not an EverQuest folder. Pick the EQ root (the folder with eqgame.exe or a Logs directory).",
                )
            };
            EqDirectoryProbe {
                ok: false,
                path,
                logs_path: None,
                active_log: None,
                character: None,
                error: Some(hint),
            }
        },
    }
}

/// How good a found folder is: any working folder beats none, one with a
/// character log beats one without, and a more recently written log wins
/// after that.
pub fn probe_score(has_character: bool, log_modified_secs: Option<u64>) -> (score: u64)
    requires
        log_modified_secs matches Some(t) ==> t <= u64::MAX - 2_000_000,
    ensures
        score == 1_000_000 + (if has_character { 1_000_000int } else { 0int }) + match log_modified_secs {
            Some(t) => t as int,
            None => 0int,
        },
{
    let mut score: u64 = 1_000_000;
    if has_character {
        score += 1_000_000;
    }
    match log_modified_secs {
        Some(t) => score + t,
        None => score,
    }
}

/// Which of the scored candidates wins: the best score, and of equal best
/// scores the first one found.
pub fn best_index(scores: &Vec<u64>) -> (r: Option<usize>)
    ensures
        r is None <==> scores@.len() == 0,
        r matches Some(i) ==> {
            &&& i < scores@.len()
            &&& forall|j: int| 0 <= j < scores@.len() ==> scores@[j] <= scores@[i as int]
            &&& forall|j: int| 0 <= j < i ==> scores@[j] < scores@[i as int]
        },
{
    let mut best: Option<usize> = None;
    for k in 0..scores.len()
        invariant
            best is None <==> k == 0,
            best matches Some(i) ==> {
                &&& i < k
                &&& forall|j: int| 0 <= j < k ==> scores@[j] <= scores@[i as int]
                &&& forall|j: int| 0 <= j < i ==> scores@[j] < scores@[i as int]
            },
    {
        match best {
            None => {
                best = Some(k);
            },
            Some(i) => {
                if scores[k] > scores[i] {
                    best = Some(k);
                }
            },
        }
    }
    best
}

/// Whether a log file written at `modified` with `len` bytes is newer than
/// the best so far: written later, or as late and longer.
pub fn is_newer_log(modified: i128, len: u64, best: Option<(i128, u64)>) -> (b: bool)
    ensures
        b == match best {
            None => true,
            Some((t, size)) => modified > t || (modified == t && len > size),
        },
{
    match best {
        None => true,
        Some((t, size)) => modified > t || (modified == t && len > size),
    }
}

/// Where to look for logs under a folder: the folder itself when it is a
/// Logs folder, else its `Logs` subfolder.
pub fn logs_candidate(flavour: &PathFlavour, eq_directory: &str, is_logs_dir: bool) -> (r: String)
    ensures
        r@ == if is_logs_dir { eq_directory@ } else { joined_path(flavour@, eq_directory@, "Logs"@) },
{
    if is_logs_dir {
        text(eq_directory)
    } else {
        join_path(flavour, eq_directory, "Logs")
    }
}

/// The status the watcher reports while it follows `active_log`.
pub fn watch_status(
    flavour: &PathFlavour,
    eq_directory: String,
    logs_path: Option<String>,
    logs_canonical: Option<String>,
    active_log: Option<String>,
    backend: String,
    last_error: Option<String>,
) -> (s: WatchStatus)
    ensures
        s.eq_directory == Some(eq_directory),
        s.logs_path == logs_path,
        s.logs_canonical == logs_canonical,
        s.active_log == active_log,
        opt_view(s.character) == log_character(flavour@, opt_view(active_log)),
        s.backend == backend,
        s.last_error == last_error,
{
    let character = match &active_log {
        Some(p) => character_from_log(flavour, p.as_str()),
        None => None,
    };
    WatchStatus {
        eq_directory: Some(eq_directory),
        logs_path,
        logs_canonical,
        active_log,
        character,
        backend,
        last_error,
    }
}

// ------------------------------------------------------------------ lines

/// The text `String::from_utf8_lossy` makes of some bytes.
pub uninterp spec fn utf8_lossy(bytes: Seq<u8>) -> Seq<char>;

/// `String::from_utf8_lossy`: the bytes as text, with anything that is not
/// UTF-8 replaced.
#[verifier::external_body]
fn lossy_text(bytes: &[u8]) -> (r: String)
    ensures
        r@ == utf8_lossy(bytes@),
{
    String::from_utf8_lossy(bytes).to_string()
}

/// The lines in `data` from byte `i` on, a line starting at `start`, and
/// where the unfinished tail starts: each line ends at a newline, loses a
/// carriage return before it, and is dropped when it reads as nothing.
pub open spec fn scan_lines(data: Seq<u8>, i: int, start: int) -> (Seq<Seq<char>>, int)
    decreases data.len() - i,
{
    if i < 0 || i >= data.len() {
        (Seq::empty(), start)
    } else if data[i] == 10 {
        let end = if i > start && data[i - 1] == 13 { i - 1 } else { i };
        let line = utf8_lossy(data.subrange(start, end));
        let (rest, tail) = scan_lines(data, i + 1, i + 1);
        (if line.len() > 0 { seq![line] + rest } else { rest }, tail)
    } else {
        scan_lines(data, i + 1, start)
    }
}

pub open spec fn texts_view(v: Seq<String>) -> Seq<Seq<char>> {
    v.map_values(|s: String| s@)
}

proof fn lemma_scan_start(data: Seq<u8>, i: int, start: int)
    requires
        0 <= start <= i <= data.len(),
    ensures
        start <= scan_lines(data, i, start).1 <= data.len(),
    decreases data.len() - i,
{
    if i < data.len() {
        if data[i] == 10 {
            lemma_scan_start(data, i + 1, i + 1);
        } else {
            lemma_scan_start(data, i + 1, start);
        }
    }
}

/// Splits what was held back from last time plus the newly read bytes into
/// complete lines, and what is left after the last newline.
pub fn split_lines(leftover: &Vec<u8>, buf: &Vec<u8>) -> (r: (Vec<String>, Vec<u8>))
    requires
        leftover@.len() + buf@.len() <= usize::MAX,
    ensures
        texts_view(r.0@) == scan_lines(leftover@ + buf@, 0, 0).0,
        r.1@ == (leftover@ + buf@).skip(scan_lines(leftover@ + buf@, 0, 0).1),
{
    let mut data: Vec<u8> = Vec::new();
    for k in 0..leftover.len()
        invariant
            data@ == leftover@.take(k as int),
    {
        data.push(leftover[k]);
    }
    assert(leftover@.take(leftover@.len() as int) == leftover@);
    for k in 0..buf.len()
        invariant
            data@ == leftover@ + buf@.take(k as int),
    {
        data.push(buf[k]);
    }
    assert(buf@.take(buf@.len() as int) == buf@);
    let ghost all = data@;
    let mut lines: Vec<String> = Vec::new();
    let mut start: usize = 0;
    let n = data.len();
    for i in 0..n
        invariant
            n == data@.len(),
            data@ == all,
            start <= i,
            texts_view(lines@) + scan_lines(all, i as int, start as int).0 == scan_lines(all, 0, 0).0,
            scan_lines(all, i as int, start as int).1 == scan_lines(all, 0, 0).1,
    {
        if data[i] == 10 {
            let end = if i > start && data[i - 1] == 13 { i - 1 } else { i };
            let line = lossy_text(slice_bytes(&data, start, end).as_slice());
            let shown = chars_of(line.as_str()).len() > 0;
            let ghost before = lines@;
            if shown {
                lines.push(line);
                assert(texts_view(lines@) =~= texts_view(before).push(utf8_lossy(all.subrange(start as int, end as int))));
            }
            start = i + 1;
        }
    }
    proof {
        lemma_scan_start(all, 0, 0);
        assert(scan_lines(all, n as int, start as int).0 =~= Seq::<Seq<char>>::empty());
    }
    let rest = slice_bytes(&data, start, n);
    (lines, rest)
}

fn slice_bytes(v: &Vec<u8>, a: usize, b: usize) -> (r: Vec<u8>)
    requires
        a <= b <= v@.len(),
    ensures
        r@ == v@.subrange(a as int, b as int),
{
    let mut r: Vec<u8> = Vec::new();
    let mut i = a;
    while i < b
        invariant
            a <= i <= b <= v@.len(),
            r@ == v@.subrange(a as int, i as int),
        decreases b - i,
    {
        r.push(v[i]);
        i += 1;
        assert(v@.subrange(a as int, i as int) == v@.subrange(a as int, i - 1).push(v@[i - 1]));
    }
    r
}

// ------------------------------------------------------------- watch loop

/// Whether two paths, written as text, name the same path as `Path`
/// compares them on a build whose separator is `sep`: part by part, so
/// `a/b` and `a//b/` are the same.
pub uninterp spec fn same_path(sep: char, a: Seq<char>, b: Seq<char>) -> bool;

/// `Path::new(a) == Path::new(b)` on this build (whose flavour `flavour`
/// is).
#[verifier::external_body]
fn paths_equal(flavour: &PathFlavour, a: &str, b: &str) -> (r: bool)
    ensures
        r == same_path(flavour@, a@, b@),
{
    std::path::Path::new(a) == std::path::Path::new(b)
}

pub open spec fn same_opt_path(sep: char, a: Option<Seq<char>>, b: Option<Seq<char>>) -> bool {
    match (a, b) {
        (None, None) => true,
        (Some(x), Some(y)) => same_path(sep, x, y),
        _ => false,
    }
}

fn opt_paths_equal(flavour: &PathFlavour, a: &Option<String>, b: &Option<String>) -> (r: bool)
    ensures
        r == same_opt_path(flavour@, opt_view(*a), opt_view(*b)),
{
    match (a, b) {
        (None, None) => true,
        (Some(x), Some(y)) => paths_equal(flavour, x.as_str(), y.as_str()),
        _ => false,
    }
}

fn copy_opt(a: &Option<String>) -> (r: Option<String>)
    ensures
        opt_view(r) == opt_view(*a),
{
    match a {
        Some(s) => Some(s.clone()),
        None => None,
    }
}

/// How the watcher hears about changes: file-system events, or polling.
#[derive(Debug, Clone, Copy, PartialEq, Eq, Structural)]
pub enum Backend {
    Events,
    Polling,
}

pub open spec fn backend_name(b: Backend) -> Seq<char> {
    match b {
        Backend::Events => "events"@,
        Backend::Polling => "polling"@,
    }
}

fn backend_text(b: Backend) -> (r: String)
    ensures
        r@ == backend_name(b),
{
    match b {
        Backend::Events => text("events"),
        Backend::Polling => text("polling"),
    }
}

/// A Logs folder as found: as the user would write it, and where it really
/// is when that could be worked out.
#[derive(Debug)]
pub struct ResolvedLogs {
    pub user_path: String,
    pub canonical: Option<String>,
}

/// What the file-system watcher said while the loop waited.
#[derive(Debug)]
pub enum LoopEvent {
    /// Something in the folder changed.
    Changed,
    /// The watcher reported an error.
    Failed(String),
    /// Nothing arrived in time.
    Quiet,
    /// The watcher is gone.
    Closed,
}

/// What the watcher loop keeps between rounds.
#[derive(Debug)]
pub struct WatchLoop {
    pub eq_directory: String,
    /// A native file-system watcher exists.
    pub native: bool,
    pub backend: Backend,
    /// The folder being watched now.
    pub watched: Option<String>,
    /// Where the Logs folder really was when it was last watched.
    pub last_canon: Option<String>,
    /// The log being tailed.
    pub tail: Option<String>,
    pub last_error: Option<String>,
    /// The build's path flavour, by which paths are compared and named.
    pub flavour: PathFlavour,
}

/// The status the loop reports for a Logs folder.
pub open spec fn loop_status_ok(w: &WatchLoop, logs: &ResolvedLogs, s: &WatchStatus) -> bool {
    &&& opt_view(s.eq_directory) == Some(w.eq_directory@)
    &&& opt_view(s.logs_path) == Some(logs.user_path@)
    &&& opt_view(s.logs_canonical) == opt_view(logs.canonical)
    &&& opt_view(s.active_log) == opt_view(w.tail)
    &&& opt_view(s.character) == log_character(w.flavour@, opt_view(w.tail))
    &&& s.backend@ == backend_name(w.backend)
    &&& opt_view(s.last_error) == opt_view(w.last_error)
}

impl WatchLoop {
    /// A loop for `eq_directory`; `native` says whether a native watcher
    /// could be made, which decides how changes are heard.
    pub fn new(eq_directory: String, native: bool, flavour: PathFlavour) -> (w: WatchLoop)
        ensures
            w.flavour@ == flavour@,
            w.eq_directory == eq_directory,
            w.native == native,
            w.backend == if native { Backend::Events } else { Backend::Polling },
            w.watched is None,
            w.last_canon is None,
            w.tail is None,
            w.last_error is None,
    {
        WatchLoop {
            eq_directory,
            native,
            backend: if native { Backend::Events } else { Backend::Polling },
            watched: None,
            last_canon: None,
            tail: None,
            last_error: None,
            flavour,
        }
    }

    /// The status for a Logs folder as things stand.
    pub fn status(&self, logs: &ResolvedLogs) -> (s: WatchStatus)
        ensures
            loop_status_ok(self, logs, &s),
    {
        watch_status(
            &self.flavour,
            text(self.eq_directory.as_str()),
            Some(text(logs.user_path.as_str())),
            copy_opt(&logs.canonical),
            copy_opt(&self.tail),
            backend_text(self.backend),
            copy_opt(&self.last_error),
        )
    }

    /// The status when the Logs folder cannot be found: only the folder,
    /// the backend and the error.
    pub fn lost_status(&self) -> (s: WatchStatus)
        ensures
            opt_view(s.eq_directory) == Some(self.eq_directory@),
            s.logs_path is None,
            s.logs_canonical is None,
            s.active_log is None,
            s.character is None,
            s.backend@ == backend_name(self.backend),
            opt_view(s.last_error) == opt_view(self.last_error),
    {
        WatchStatus {
            eq_directory: Some(text(self.eq_directory.as_str())),
            logs_path: None,
            logs_canonical: None,
            active_log: None,
            character: None,
            backend: backend_text(self.backend),
            last_error: copy_opt(&self.last_error),
        }
    }

    /// The Logs folder was looked up again. When it moved, or is not the
    /// folder being watched, the old one (if any) is handed back to be let
    /// go and the new one to be watched. When it cannot be found, the
    /// error is kept and the status to report is handed back.
    pub fn resolved(&mut self, logs: &Result<ResolvedLogs, String>) -> (step: (Option<(Option<String>, String)>, Option<WatchStatus>))
        ensures
            final(self).eq_directory == old(self).eq_directory,
            final(self).flavour@ == old(self).flavour@,
            final(self).native == old(self).native,
            final(self).backend == old(self).backend,
            final(self).last_canon == old(self).last_canon,
            final(self).tail == old(self).tail,
            match logs {
                Ok(found) => {
                    let target = match found.canonical {
                        Some(c) => c@,
                        None => found.user_path@,
                    };
                    let moved = !same_opt_path(old(self).flavour@, opt_view(found.canonical), opt_view(old(self).last_canon));
                    let elsewhere = !same_opt_path(old(self).flavour@, opt_view(old(self).watched), Some(target));
                    &&& final(self).last_error == old(self).last_error
                    &&& step.1 is None
                    &&& if moved || elsewhere {
                        &&& step.0 matches Some((unwatch, t)) && opt_view(unwatch) == opt_view(old(self).watched) && t@ == target
                        &&& final(self).watched is None
                    } else {
                        &&& step.0 is None
                        &&& final(self).watched == old(self).watched
                    }
                },
                Err(e) => {
                    &&& step.0 is None
                    &&& final(self).watched == old(self).watched
                    &&& opt_view(final(self).last_error) == Some(e@)
                    &&& step.1 matches Some(s) && opt_view(s.eq_directory) == Some(old(self).eq_directory@)
                        && s.logs_path is None && s.active_log is None && s.backend@ == backend_name(old(self).backend)
                        && opt_view(s.last_error) == Some(e@)
                },
            },
    {
        match logs {
            Ok(found) => {
                let moved = !opt_paths_equal(&self.flavour, &found.canonical, &self.last_canon);
                let target = match &found.canonical {
                    Some(c) => c.clone(),
                    None => found.user_path.clone(),
                };
                let elsewhere = match &self.watched {
                    Some(w) => !paths_equal(&self.flavour, w.as_str(), target.as_str()),
                    None => true,
                };
                if moved || elsewhere {
                    let unwatch = self.watched.take();
                    (Some((unwatch, target)), None)
                } else {
                    (None, None)
                }
            },
            Err(e) => {
                self.last_error = Some(e.clone());
                let s = self.lost_status();
                (None, Some(s))
            },
        }
    }

    /// The new folder was handed to the watcher: a failure is kept and the
    /// loop falls back to polling; either way the folder counts as watched
    /// and the status is reported.
    pub fn watching(&mut self, logs: &ResolvedLogs, target: String, result: Result<(), String>) -> (s: WatchStatus)
        ensures
            final(self).eq_directory == old(self).eq_directory,
            final(self).flavour@ == old(self).flavour@,
            final(self).native == old(self).native,
            final(self).tail == old(self).tail,
            final(self).watched == Some(target),
            opt_view(final(self).last_canon) == opt_view(logs.canonical),
            match result {
                Err(e) => {
                    &&& opt_view(final(self).last_error) == Some("watch failed: "@ + e@)
                    &&& final(self).backend == Backend::Polling
                },
                Ok(_) => {
                    &&& final(self).last_error == old(self).last_error
                    &&& final(self).backend == if old(self).native { Backend::Events } else { Backend::Polling }
                },
            },
            loop_status_ok(final(self), logs, &s),
    {
        match result {
            Err(e) => {
                let mut v = chars_of("watch failed: ");
                crate::text::append_str(&mut v, e.as_str());
                self.last_error = Some(string_of(&v));
                self.backend = Backend::Polling;
            },
            Ok(_) => {
                self.backend = if self.native { Backend::Events } else { Backend::Polling };
            },
        }
        self.watched = Some(target);
        self.last_canon = copy_opt(&logs.canonical);
        self.status(logs)
    }

    /// What the wait brought: whether to look for the newest log again
    /// (`due` when the last look is old enough), or `None` when the
    /// watcher is gone and the loop ends.
    pub fn heard(&mut self, event: LoopEvent, due: bool) -> (rescan: Option<bool>)
        ensures
            final(self).eq_directory == old(self).eq_directory,
            final(self).flavour@ == old(self).flavour@,
            final(self).native == old(self).native,
            final(self).backend == old(self).backend,
            final(self).watched == old(self).watched,
            final(self).last_canon == old(self).last_canon,
            final(self).tail == old(self).tail,
            match event {
                LoopEvent::Changed => rescan == Some(true) && final(self).last_error == old(self).last_error,
                LoopEvent::Failed(e) => rescan == Some(due) && opt_view(final(self).last_error) == Some(e@),
                LoopEvent::Quiet => rescan == Some(due) && final(self).last_error == old(self).last_error,
                LoopEvent::Closed => rescan is None && final(self).last_error == old(self).last_error,
            },
    {
        match event {
            LoopEvent::Changed => Some(true),
            LoopEvent::Failed(e) => {
                self.last_error = Some(e);
                Some(due)
            },
            LoopEvent::Quiet => Some(due),
            LoopEvent::Closed => None,
        }
    }

    /// The newest log in the folder was looked up: a different one is to
    /// be opened (handed back); none left means the tail stops and the
    /// status is reported; a failure is kept.
    pub fn newest(&mut self, logs: &ResolvedLogs, newest: Result<Option<String>, String>) -> (step: (Option<String>, Option<WatchStatus>))
        ensures
            final(self).eq_directory == old(self).eq_directory,
            final(self).flavour@ == old(self).flavour@,
            final(self).native == old(self).native,
            final(self).backend == old(self).backend,
            final(self).watched == old(self).watched,
            final(self).last_canon == old(self).last_canon,
            match newest {
                Ok(Some(path)) => {
                    &&& final(self).tail == old(self).tail
                    &&& final(self).last_error == old(self).last_error
                    &&& step.1 is None
                    &&& if same_opt_path(old(self).flavour@, opt_view(old(self).tail), Some(path@)) {
                        step.0 is None
                    } else {
                        step.0 matches Some(p) && p@ == path@
                    }
                },
                Ok(None) => {
                    &&& final(self).tail is None
                    &&& final(self).last_error == old(self).last_error
                    &&& step.0 is None
                    &&& (old(self).tail is Some <==> step.1 is Some)
                    &&& (step.1 matches Some(s) ==> loop_status_ok(final(self), logs, &s))
                },
                Err(e) => {
                    &&& final(self).tail == old(self).tail
                    &&& opt_view(final(self).last_error) == Some(e@)
                    &&& step.0 is None
                    &&& step.1 is None
                },
            },
    {
        match newest {
            Ok(Some(path)) => {
                let same = match &self.tail {
                    Some(t) => paths_equal(&self.flavour, t.as_str(), path.as_str()),
                    None => false,
                };
                if same {
                    (None, None)
                } else {
                    (Some(path), None)
                }
            },
            Ok(None) => {
                if self.tail.is_some() {
                    self.tail = None;
                    let s = self.status(logs);
                    (None, Some(s))
                } else {
                    (None, None)
                }
            },
            Err(e) => {
                self.last_error = Some(e);
                (None, None)
            },
        }
    }

    /// A log was opened to tail, or failed to open.
    pub fn opened(&mut self, logs: &ResolvedLogs, path: String, result: Result<(), String>) -> (s: Option<WatchStatus>)
        ensures
            final(self).eq_directory == old(self).eq_directory,
            final(self).flavour@ == old(self).flavour@,
            final(self).native == old(self).native,
            final(self).backend == old(self).backend,
            final(self).watched == old(self).watched,
            final(self).last_canon == old(self).last_canon,
            match result {
                Ok(_) => {
                    &&& final(self).tail == Some(path)
                    &&& final(self).last_error is None
                    &&& s matches Some(st) && loop_status_ok(final(self), logs, &st)
                },
                Err(e) => {
                    &&& final(self).tail == old(self).tail
                    &&& opt_view(final(self).last_error) == Some("open log: "@ + e@)
                    &&& s is None
                },
            },
    {
        match result {
            Ok(_) => {
                self.tail = Some(path);
                self.last_error = None;
                Some(self.status(logs))
            },
            Err(e) => {
                let mut v = chars_of("open log: ");
                crate::text::append_str(&mut v, e.as_str());
                self.last_error = Some(string_of(&v));
                None
            },
        }
    }

    /// New lines were read from the tailed log, or reading failed.
    pub fn read(&mut self, lines: Result<Vec<String>, String>) -> (event: Option<WatchEvent>)
        ensures
            final(self).eq_directory == old(self).eq_directory,
            final(self).flavour@ == old(self).flavour@,
            final(self).native == old(self).native,
            final(self).backend == old(self).backend,
            final(self).watched == old(self).watched,
            final(self).last_canon == old(self).last_canon,
            final(self).tail == old(self).tail,
            match lines {
                Ok(ls) => {
                    &&& final(self).last_error == old(self).last_error
                    &&& if ls@.len() == 0 {
                        event is None
                    } else {
                        event matches Some(WatchEvent::Lines { character, lines: got }) && got == ls
                            && opt_view(character) == log_character(old(self).flavour@, opt_view(old(self).tail))
                    }
                },
                Err(e) => event is None && opt_view(final(self).last_error) == Some(e@),
            },
    {
        match lines {
            Ok(ls) => {
                if ls.len() == 0 {
                    None
                } else {
                    let character = match &self.tail {
                        Some(p) => character_from_log(&self.flavour, p.as_str()),
                        None => None,
                    };
                    Some(WatchEvent::Lines { character, lines: ls })
                }
            },
            Err(e) => {
                self.last_error = Some(e);
                None
            },
        }
    }
}

} // verus!
