//! The settings file: the `config.ini` line grammar and the values that
//! need no floating point to read.
use vstd::prelude::*;
use crate::command::opt_view;

use crate::text::{
    chars_of, find, find_str, is_alpha, is_ascii_alpha, lower, lower_of, parse_u64, parse_u64_of,
    pieces, seq_eq_str, slice_of, split_by, string_of, trim, trim_of, upper, upper_of, words_view,
    CharSet,
};

verus! {

/// The guild tag with everything but ASCII letters dropped, cut to four
/// letters and upper-cased.
pub open spec fn tag_letters(raw: Seq<char>) -> Seq<char> {
    let f = trim(raw).filter(|c: char| is_alpha(c));
    upper(if f.len() > 4 { f.take(4) } else { f })
}

/// The chain tag that macros must start with: the letters of `raw`, or `GG`
/// when it has none.
pub open spec fn spec_chain_tag(raw: Seq<char>) -> Seq<char> {
    let t = tag_letters(raw);
    if t.len() >= 1 {
        t
    } else {
        "GG"@
    }
}

/// A tag already clean: one to four upper-case ASCII letters.
pub open spec fn clean_tag(t: Seq<char>) -> bool {
    1 <= t.len() <= 4 && forall|i: int| 0 <= i < t.len() ==> crate::text::is_upper(#[trigger] t[i])
}

proof fn lemma_filter_keeps_all(t: Seq<char>)
    requires
        forall|i: int| 0 <= i < t.len() ==> is_alpha(#[trigger] t[i]),
    ensures
        t.filter(|c: char| is_alpha(c)) == t,
    decreases t.len(),
{
    reveal(Seq::filter);
    if t.len() > 0 {
        let pre = t.drop_last();
        assert forall|i: int| 0 <= i < pre.len() implies is_alpha(#[trigger] pre[i]) by {
            assert(pre[i] == t[i]);
        }
        lemma_filter_keeps_all(pre);
        assert(is_alpha(t.last()));
        assert(pre.push(t.last()) =~= t);
    }
}

/// A clean tag reads back as itself.
proof fn lemma_clean_tag_fixed(t: Seq<char>)
    requires
        clean_tag(t),
    ensures
        spec_chain_tag(t) == t,
{
    crate::text::lemma_lead_len(t, CharSet::Space, 0);
    let a = crate::text::trim_start(t, CharSet::Space);
    assert(a =~= t);
    crate::text::lemma_trail_len(t, CharSet::Space, 0);
    assert(trim(t) =~= t);
    lemma_filter_keeps_all(t);
    assert(upper(t) =~= t);
}

/// The tag letters of anything are upper-case ASCII letters, at most four.
proof fn lemma_tag_letters_clean(raw: Seq<char>)
    ensures
        tag_letters(raw).len() <= 4,
        forall|i: int| 0 <= i < tag_letters(raw).len() ==> crate::text::is_upper(#[trigger] tag_letters(raw)[i]),
{
    let f = trim(raw).filter(|c: char| is_alpha(c));
    let g = if f.len() > 4 { f.take(4) } else { f };
    assert forall|i: int| 0 <= i < g.len() implies is_alpha(#[trigger] g[i]) by {
        trim(raw).lemma_filter_pred(|c: char| is_alpha(c), i);
        assert(g[i] == f[i]);
    }
}

/// Cleaning a tag twice gives what cleaning it once gave.
pub proof fn lemma_chain_tag_idempotent(raw: Seq<char>)
    ensures
        spec_chain_tag(spec_chain_tag(raw)) == spec_chain_tag(raw),
{
    lemma_tag_letters_clean(raw);
    let t = spec_chain_tag(raw);
    if tag_letters(raw).len() < 1 {
        reveal_strlit("GG");
    }
    assert(clean_tag(t));
    lemma_clean_tag_fixed(t);
}

/// Cleans a configured guild tag: `  ca ` gives `CA`, `goodguys` gives
/// `GOOD`, and text without letters gives `GG`.
pub fn normalize_chain_tag(raw: &str) -> (r: String)
    ensures
        r@ == spec_chain_tag(raw@),
{
    let v = chars_of(raw);
    let t = trim_of(&v);
    let mut f: Vec<char> = Vec::new();
    let n = t.len();
    for i in 0..n
        invariant
            n == t@.len(),
            f@ == t@.take(i as int).filter(|c: char| is_alpha(c)),
            f@.len() <= i,
    {
        let c = t[i];
        proof {
            reveal_with_fuel(Seq::<char>::filter, 1);
            assert(t@.take(i + 1).drop_last() == t@.take(i as int));
            t@.take(i as int).filter_lemma(|c: char| is_alpha(c));
        }
        if is_ascii_alpha(c) {
            f.push(c);
        }
    }
    assert(t@.take(n as int) == t@);
    let mut kept: Vec<char> = Vec::new();
    let k = if f.len() > 4 { 4 } else { f.len() };
    for i in 0..k
        invariant
            k <= f@.len(),
            kept@ == f@.take(i as int),
    {
        kept.push(f[i]);
        assert(f@.take(i + 1) == f@.take(i as int).push(f@[i as int]));
    }
    assert(kept@ == (if f@.len() > 4 { f@.take(4) } else { f@ }));
    let u = upper_of(&kept);
    if u.len() >= 1 {
        string_of(&u)
    } else {
        let gg = chars_of("GG");
        string_of(&gg)
    }
}

/// `1`, `true`, `yes` and `on`, in any case, are true; anything else is false.
pub open spec fn spec_bool(value: Seq<char>) -> bool {
    let l = lower(value);
    l == "1"@ || l == "true"@ || l == "yes"@ || l == "on"@
}

pub fn parse_bool(value: &str) -> (b: bool)
    ensures
        b == spec_bool(value@),
{
    let v = chars_of(value);
    let l = lower_of(&v);
    seq_eq_str(&l, "1") || seq_eq_str(&l, "true") || seq_eq_str(&l, "yes") || seq_eq_str(
        &l,
        "on",
    )
}

/// A value in matching single or double quotes loses them.
pub open spec fn spec_unquote(value: Seq<char>) -> Seq<char> {
    if value.len() >= 2 && ((value[0] == '"' && value.last() == '"') || (value[0] == '\''
        && value.last() == '\'')) {
        value.subrange(1, value.len() - 1)
    } else {
        value
    }
}

pub fn unquote(value: &str) -> (r: String)
    ensures
        r@ == spec_unquote(value@),
{
    let v = chars_of(value);
    let r = unquote_chars(&v);
    string_of(&r)
}

pub fn unquote_chars(v: &Vec<char>) -> (r: Vec<char>)
    ensures
        r@ == spec_unquote(v@),
{
    let n = v.len();
    if n >= 2 && ((v[0] == '"' && v[n - 1] == '"') || (v[0] == '\'' && v[n - 1] == '\'')) {
        crate::text::slice_of(v, 1, n - 1)
    } else {
        crate::text::slice_of(v, 0, n)
    }
}

// ------------------------------------------------------------- window rects

/// A rectangle in physical pixels.
#[derive(Debug, Clone, Copy)]
pub struct Rect {
    pub x: i32,
    pub y: i32,
    pub w: i32,
    pub h: i32,
}

pub open spec fn min_int(a: int, b: int) -> int {
    if a < b { a } else { b }
}

pub open spec fn max_int(a: int, b: int) -> int {
    if a > b { a } else { b }
}

/// Whether two rectangles share at least `min` pixels across and down.
pub open spec fn spec_overlap_at_least(a: Rect, b: Rect, min: i32) -> bool {
    let w = min_int(a.x + a.w, b.x + b.w) - max_int(a.x as int, b.x as int);
    let h = min_int(a.y + a.h, b.y + b.h) - max_int(a.y as int, b.y as int);
    w >= min && h >= min
}

/// Whether a rectangle's corners and spans are sums that fit in `i32`.
pub open spec fn fits_i32(r: Rect) -> bool {
    i32::MIN <= r.x + r.w <= i32::MAX && i32::MIN <= r.y + r.h <= i32::MAX
}

pub fn overlap_at_least(a: Rect, b: Rect, min: i32) -> (r: bool)
    requires
        fits_i32(a),
        fits_i32(b),
        i32::MIN <= min_int(a.x + a.w, b.x + b.w) - max_int(a.x as int, b.x as int) <= i32::MAX,
        i32::MIN <= min_int(a.y + a.h, b.y + b.h) - max_int(a.y as int, b.y as int) <= i32::MAX,
    ensures
        r == spec_overlap_at_least(a, b, min),
{
    let right = if a.x + a.w < b.x + b.w { a.x + a.w } else { b.x + b.w };
    let left = if a.x > b.x { a.x } else { b.x };
    let bottom = if a.y + a.h < b.y + b.h { a.y + a.h } else { b.y + b.h };
    let top = if a.y > b.y { a.y } else { b.y };
    let w = right - left;
    let h = bottom - top;
    w >= min && h >= min
}

// ------------------------------------------------------------- config file

/// `config.ini` in Alfred's folder under the OS config directory:
/// `Alfred` on macOS and Windows, `alfred` elsewhere.
pub open spec fn config_folder_name(os: Seq<char>) -> Seq<char> {
    if os == "macos"@ || os == "windows"@ {
        "Alfred"@
    } else {
        "alfred"@
    }
}

/// `dirs::config_dir`, as text. Where it is depends on the machine, so
/// nothing is promised of the answer.
#[verifier::external_body]
fn os_config_dir() -> Option<String> {
    dirs::config_dir().map(|p| p.to_string_lossy().into_owned())
}

/// Where the settings file lives under `base`, the system's config folder,
/// or under `.` when there is none: `{base}/{Alfred|alfred}/config.ini`.
pub open spec fn spec_config_path(sep: char, base: Option<Seq<char>>, os: Seq<char>) -> Seq<char> {
    let b = match base {
        Some(x) => x,
        None => "."@,
    };
    crate::watch::joined_path(sep, crate::watch::joined_path(sep, b, config_folder_name(os)), "config.ini"@)
}

/// The settings file's path under `base` (the system's config folder, if it
/// has one); `os` is the name Rust gives the operating system
/// (`std::env::consts::OS`).
pub fn config_path_in(flavour: &crate::watch::PathFlavour, base: Option<String>, os: &str) -> (path: String)
    ensures
        path@ == spec_config_path(flavour@, opt_view(base), os@),
{
    let b = match base {
        Some(b) => b,
        None => string_of(&chars_of(".")),
    };
    let folder = if seq_eq_str(&chars_of(os), "macos") || seq_eq_str(&chars_of(os), "windows") {
        "Alfred"
    } else {
        "alfred"
    };
    assert(folder@ == config_folder_name(os@));
    let dir = crate::watch::join_path(flavour, b.as_str(), folder);
    crate::watch::join_path(flavour, dir.as_str(), "config.ini")
}

/// Where the settings file lives on this machine: under the system's config
/// folder, as `dirs` finds it, or under `.` when there is none.
pub fn config_file_path(flavour: &crate::watch::PathFlavour, os: &str) -> (path: String)
    ensures
        exists|base: Option<Seq<char>>| path@ == spec_config_path(flavour@, base, os@),
{
    let base = os_config_dir();
    config_path_in(flavour, base, os)
}

/// The settings that hold numbers with a fraction. Alfred reads those
/// outside this module; here they are only collected, as written.
#[derive(Debug, Clone, Copy, PartialEq, Eq, Structural)]
pub enum NumberSetting {
    /// `[general] sound_lead_seconds`: kept only when it reads as a number.
    SoundLead,
    /// `[chain] interval_seconds`: kept only when it reads as a number.
    Interval,
    /// `[chain] cast_time_seconds`: kept only when it reads as a number.
    CastTime,
    /// `[window] x`: set to the number, or cleared when it is not a finite one.
    WindowX,
    /// `[window] y`, as `WindowX`.
    WindowY,
    /// `[window] width`, as `WindowX`.
    WindowWidth,
    /// `[window] height`, as `WindowX`.
    WindowHeight,
    /// `[general] alert_dismiss_seconds`: kept only when it reads as a number.
    AlertDismiss,
    /// `[overlay] opacity`: kept only when it reads as a number.
    OverlayOpacity,
}

/// What `config.ini` says, apart from the numbers with a fraction, which are
/// listed in file order for the caller to read.
#[derive(Debug)]
pub struct IniSettings {
    pub eq_directory: String,
    pub always_on_top: bool,
    pub sound_enabled: bool,
    pub metronome_enabled: bool,
    pub tail_poll_ms: u64,
    pub setup_complete: bool,
    pub chain_tag: String,
    pub alert_slot_taken: bool,
    pub alert_wrong_target: bool,
    pub alert_auto_take_sound: bool,
    pub alert_start_chain_sound: bool,
    pub overlay_clickthrough: bool,
    pub numbers: Vec<(NumberSetting, String)>,
}

pub struct IniView {
    pub eq_directory: Seq<char>,
    pub always_on_top: bool,
    pub sound_enabled: bool,
    pub metronome_enabled: bool,
    pub tail_poll_ms: u64,
    pub setup_complete: bool,
    pub chain_tag: Seq<char>,
    pub alert_slot_taken: bool,
    pub alert_wrong_target: bool,
    pub alert_auto_take_sound: bool,
    pub alert_start_chain_sound: bool,
    pub overlay_clickthrough: bool,
    pub numbers: Seq<(NumberSetting, Seq<char>)>,
}

pub open spec fn numbers_view(v: Seq<(NumberSetting, String)>) -> Seq<(NumberSetting, Seq<char>)> {
    v.map_values(|e: (NumberSetting, String)| (e.0, e.1@))
}

impl View for IniSettings {
    type V = IniView;

    open spec fn view(&self) -> IniView {
        IniView {
            eq_directory: self.eq_directory@,
            always_on_top: self.always_on_top,
            sound_enabled: self.sound_enabled,
            metronome_enabled: self.metronome_enabled,
            tail_poll_ms: self.tail_poll_ms,
            setup_complete: self.setup_complete,
            chain_tag: self.chain_tag@,
            alert_slot_taken: self.alert_slot_taken,
            alert_wrong_target: self.alert_wrong_target,
            alert_auto_take_sound: self.alert_auto_take_sound,
            alert_start_chain_sound: self.alert_start_chain_sound,
            overlay_clickthrough: self.overlay_clickthrough,
            numbers: numbers_view(self.numbers@),
        }
    }
}

/// Where reading starts: the defaults, except that a file written before the
/// first-launch walkthrough counts as set up.
pub open spec fn ini_start() -> IniView {
    IniView {
        eq_directory: Seq::empty(),
        always_on_top: false,
        sound_enabled: true,
        metronome_enabled: false,
        tail_poll_ms: 150,
        setup_complete: true,
        chain_tag: "GG"@,
        alert_slot_taken: true,
        alert_wrong_target: true,
        alert_auto_take_sound: true,
        alert_start_chain_sound: true,
        overlay_clickthrough: false,
        numbers: Seq::empty(),
    }
}

/// A key under `[general]`; anything unknown changes nothing.
pub open spec fn ini_general(c: IniView, key: Seq<char>, value: Seq<char>) -> IniView {
    if key == "eq_directory"@ {
        IniView { eq_directory: value, ..c }
    } else if key == "always_on_top"@ {
        IniView { always_on_top: spec_bool(value), ..c }
    } else if key == "sound_enabled"@ {
        IniView { sound_enabled: spec_bool(value), ..c }
    } else if key == "metronome_enabled"@ {
        IniView { metronome_enabled: spec_bool(value), ..c }
    } else if key == "sound_lead_seconds"@ {
        IniView { numbers: c.numbers.push((NumberSetting::SoundLead, value)), ..c }
    } else if key == "tail_poll_ms"@ {
        match parse_u64(value) {
            Some(v) => IniView { tail_poll_ms: v, ..c },
            None => c,
        }
    } else if key == "setup_complete"@ {
        IniView { setup_complete: spec_bool(value), ..c }
    } else if key == "alert_slot_taken"@ {
        IniView { alert_slot_taken: spec_bool(value), ..c }
    } else if key == "alert_wrong_target"@ {
        IniView { alert_wrong_target: spec_bool(value), ..c }
    } else if key == "alert_auto_take_sound"@ {
        IniView { alert_auto_take_sound: spec_bool(value), ..c }
    } else if key == "alert_start_chain_sound"@ {
        IniView { alert_start_chain_sound: spec_bool(value), ..c }
    } else if key == "alert_dismiss_seconds"@ {
        IniView { numbers: c.numbers.push((NumberSetting::AlertDismiss, value)), ..c }
    } else {
        c
    }
}

/// A key under `[chain]`.
pub open spec fn ini_chain(c: IniView, key: Seq<char>, value: Seq<char>) -> IniView {
    if key == "interval_seconds"@ {
        IniView { numbers: c.numbers.push((NumberSetting::Interval, value)), ..c }
    } else if key == "cast_time_seconds"@ {
        IniView { numbers: c.numbers.push((NumberSetting::CastTime, value)), ..c }
    } else if key == "tag"@ || key == "chain_tag"@ {
        IniView { chain_tag: spec_chain_tag(value), ..c }
    } else {
        c
    }
}

/// A key under `[window]`.
pub open spec fn ini_window(c: IniView, key: Seq<char>, value: Seq<char>) -> IniView {
    if key == "x"@ {
        IniView { numbers: c.numbers.push((NumberSetting::WindowX, value)), ..c }
    } else if key == "y"@ {
        IniView { numbers: c.numbers.push((NumberSetting::WindowY, value)), ..c }
    } else if key == "width"@ {
        IniView { numbers: c.numbers.push((NumberSetting::WindowWidth, value)), ..c }
    } else if key == "height"@ {
        IniView { numbers: c.numbers.push((NumberSetting::WindowHeight, value)), ..c }
    } else {
        c
    }
}

/// A key under `[overlay]`.
pub open spec fn ini_overlay(c: IniView, key: Seq<char>, value: Seq<char>) -> IniView {
    if key == "opacity"@ {
        IniView { numbers: c.numbers.push((NumberSetting::OverlayOpacity, value)), ..c }
    } else if key == "clickthrough"@ {
        IniView { overlay_clickthrough: spec_bool(value), ..c }
    } else {
        c
    }
}

/// One `key = value` under a `[section]`; anything unknown changes nothing.
pub open spec fn ini_apply(c: IniView, section: Seq<char>, key: Seq<char>, value: Seq<char>) -> IniView {
    if section == "general"@ {
        ini_general(c, key, value)
    } else if section == "chain"@ {
        ini_chain(c, key, value)
    } else if section == "window"@ {
        ini_window(c, key, value)
    } else if section == "overlay"@ {
        ini_overlay(c, key, value)
    } else {
        c
    }
}

/// One line of the file, read under the current section: blank lines and
/// `#` or `;` comments are skipped, `[name]` starts a section, and
/// `key = value` (split at the first `=`) sets a value.
pub open spec fn ini_line(st: (IniView, Seq<char>), raw: Seq<char>) -> (IniView, Seq<char>) {
    let (c, section) = st;
    let line = trim(raw);
    if line.len() == 0 || line[0] == '#' || line[0] == ';' {
        st
    } else if line.len() >= 2 && line[0] == '[' && line.last() == ']' {
        (c, lower(trim(line.subrange(1, line.len() - 1))))
    } else {
        match find(line, "="@) {
            None => st,
            Some(k) => (
                ini_apply(c, section, lower(trim(line.take(k))), spec_unquote(trim(line.skip(k + 1)))),
                section,
            ),
        }
    }
}

/// The first `n` lines read in order.
pub open spec fn ini_lines(lines: Seq<Seq<char>>, n: int) -> (IniView, Seq<char>)
    decreases n,
{
    if n <= 0 || n > lines.len() {
        (ini_start(), Seq::empty())
    } else {
        ini_line(ini_lines(lines, n - 1), lines[n - 1])
    }
}

/// What a whole `config.ini` says. Lines are the runs between newlines;
/// empty ones are skipped by `ini_line` anyway, and a carriage return at
/// the end of a line is trimmed with the rest of the white space. With the
/// metronome on, the next-up sound is off.
pub open spec fn spec_parse_ini(text: Seq<char>) -> IniView {
    let lines = pieces(text, CharSet::One('\n'));
    let c = ini_lines(lines, lines.len() as int).0;
    if c.metronome_enabled {
        IniView { sound_enabled: false, ..c }
    } else {
        c
    }
}

fn push_number(numbers: &mut Vec<(NumberSetting, String)>, which: NumberSetting, value: &Vec<char>)
    ensures
        numbers_view(final(numbers)@) == numbers_view(old(numbers)@).push((which, value@)),
{
    let ghost before = numbers@;
    numbers.push((which, string_of(value)));
    assert(numbers_view(numbers@) =~= numbers_view(before).push((which, value@)));
}

impl IniSettings {
    fn start() -> (c: IniSettings)
        ensures
            c@ == ini_start(),
    {
        let c = IniSettings {
            eq_directory: String::new(),
            always_on_top: false,
            sound_enabled: true,
            metronome_enabled: false,
            tail_poll_ms: 150,
            setup_complete: true,
            chain_tag: string_of(&chars_of("GG")),
            alert_slot_taken: true,
            alert_wrong_target: true,
            alert_auto_take_sound: true,
            alert_start_chain_sound: true,
            overlay_clickthrough: false,
            numbers: Vec::new(),
        };
        assert(c@.numbers =~= Seq::<(NumberSetting, Seq<char>)>::empty());
        assert(c@.eq_directory =~= Seq::<char>::empty());
        c
    }

    #[verifier::spinoff_prover]
    #[verifier::rlimit(60)]
    fn apply_general(&mut self, key: &Vec<char>, value: &Vec<char>)
        ensures
            final(self)@ == ini_general(old(self)@, key@, value@),
    {
        if seq_eq_str(key, "eq_directory") {
            self.eq_directory = string_of(value);
        } else if seq_eq_str(key, "always_on_top") {
            self.always_on_top = parse_bool(string_of(value).as_str());
        } else if seq_eq_str(key, "sound_enabled") {
            self.sound_enabled = parse_bool(string_of(value).as_str());
        } else if seq_eq_str(key, "metronome_enabled") {
            self.metronome_enabled = parse_bool(string_of(value).as_str());
        } else if seq_eq_str(key, "sound_lead_seconds") {
            push_number(&mut self.numbers, NumberSetting::SoundLead, value);
        } else if seq_eq_str(key, "tail_poll_ms") {
            match parse_u64_of(value) {
                Some(v) => {
                    self.tail_poll_ms = v;
                },
                None => {},
            }
        } else if seq_eq_str(key, "setup_complete") {
            self.setup_complete = parse_bool(string_of(value).as_str());
        } else if seq_eq_str(key, "alert_slot_taken") {
            self.alert_slot_taken = parse_bool(string_of(value).as_str());
        } else if seq_eq_str(key, "alert_wrong_target") {
            self.alert_wrong_target = parse_bool(string_of(value).as_str());
        } else if seq_eq_str(key, "alert_auto_take_sound") {
            self.alert_auto_take_sound = parse_bool(string_of(value).as_str());
        } else if seq_eq_str(key, "alert_start_chain_sound") {
            self.alert_start_chain_sound = parse_bool(string_of(value).as_str());
        } else if seq_eq_str(key, "alert_dismiss_seconds") {
            push_number(&mut self.numbers, NumberSetting::AlertDismiss, value);
        }
    }

    fn apply_chain(&mut self, key: &Vec<char>, value: &Vec<char>)
        ensures
            final(self)@ == ini_chain(old(self)@, key@, value@),
    {
        if seq_eq_str(key, "interval_seconds") {
            push_number(&mut self.numbers, NumberSetting::Interval, value);
        } else if seq_eq_str(key, "cast_time_seconds") {
            push_number(&mut self.numbers, NumberSetting::CastTime, value);
        } else if seq_eq_str(key, "tag") || seq_eq_str(key, "chain_tag") {
            self.chain_tag = normalize_chain_tag(string_of(value).as_str());
        }
    }

    fn apply_window(&mut self, key: &Vec<char>, value: &Vec<char>)
        ensures
            final(self)@ == ini_window(old(self)@, key@, value@),
    {
        if seq_eq_str(key, "x") {
            push_number(&mut self.numbers, NumberSetting::WindowX, value);
        } else if seq_eq_str(key, "y") {
            push_number(&mut self.numbers, NumberSetting::WindowY, value);
        } else if seq_eq_str(key, "width") {
            push_number(&mut self.numbers, NumberSetting::WindowWidth, value);
        } else if seq_eq_str(key, "height") {
            push_number(&mut self.numbers, NumberSetting::WindowHeight, value);
        }
    }

    fn apply_overlay(&mut self, key: &Vec<char>, value: &Vec<char>)
        ensures
            final(self)@ == ini_overlay(old(self)@, key@, value@),
    {
        if seq_eq_str(key, "opacity") {
            push_number(&mut self.numbers, NumberSetting::OverlayOpacity, value);
        } else if seq_eq_str(key, "clickthrough") {
            self.overlay_clickthrough = parse_bool(string_of(value).as_str());
        }
    }

    fn apply(&mut self, section: &Vec<char>, key: &Vec<char>, value: &Vec<char>)
        ensures
            final(self)@ == ini_apply(old(self)@, section@, key@, value@),
    {
        if seq_eq_str(section, "general") {
            self.apply_general(key, value);
        } else if seq_eq_str(section, "chain") {
            self.apply_chain(key, value);
        } else if seq_eq_str(section, "window") {
            self.apply_window(key, value);
        } else if seq_eq_str(section, "overlay") {
            self.apply_overlay(key, value);
        }
    }
}

proof fn lemma_ini_lines_tag(lines: Seq<Seq<char>>, n: int)
    ensures
        spec_chain_tag(ini_lines(lines, n).0.chain_tag) == ini_lines(lines, n).0.chain_tag,
    decreases n,
{
    if n <= 0 || n > lines.len() {
        reveal_strlit("GG");
        assert(clean_tag("GG"@));
        lemma_clean_tag_fixed("GG"@);
    } else {
        lemma_ini_lines_tag(lines, n - 1);
        let st = ini_lines(lines, n - 1);
        let line = trim(lines[n - 1]);
        if let Some(k) = find(line, "="@) {
            lemma_chain_tag_idempotent(spec_unquote(trim(line.skip(k + 1))));
        }
    }
}

/// Whatever the settings file holds, the beep and the metronome are not both
/// on, and the tag read is already clean.
pub proof fn lemma_parse_ini_settled(text: Seq<char>)
    ensures
        !(spec_parse_ini(text).sound_enabled && spec_parse_ini(text).metronome_enabled),
        spec_chain_tag(spec_parse_ini(text).chain_tag) == spec_parse_ini(text).chain_tag,
{
    let lines = pieces(text, CharSet::One('\n'));
    lemma_ini_lines_tag(lines, lines.len() as int);
}

/// Reads `config.ini`: sections, keys in any case, quoted values, yes/no
/// words, the guild tag, and the poll interval; numbers with a fraction are
/// handed back as written, in order.
pub fn parse_ini(text: &str) -> (c: IniSettings)
    ensures
        c@ == spec_parse_ini(text@),
{
    let v = chars_of(text);
    let lines = split_by(&v, CharSet::One('\n'));
    let ghost ls = pieces(v@, CharSet::One('\n'));
    let mut c = IniSettings::start();
    let mut section: Vec<char> = Vec::new();
    let n = lines.len();
    for i in 0..n
        invariant
            n == lines@.len(),
            words_view(lines@) == ls,
            (c@, section@) == ini_lines(ls, i as int),
    {
        assert(ls[i as int] == lines@[i as int]@);
        let line = trim_of(&lines[i]);
        let len = line.len();
        if len == 0 || line[0] == '#' || line[0] == ';' {
        } else if len >= 2 && line[0] == '[' && line[len - 1] == ']' {
            let inner = slice_of(&line, 1, len - 1);
            let name = trim_of(&inner);
            section = lower_of(&name);
        } else {
            match find_str(&line, "=") {
                None => {},
                Some(k) => {
                    proof {
                        crate::text::lemma_find_from_bounds(line@, "="@, 0);
                        reveal_strlit("=");
                    }
                    let key_part = slice_of(&line, 0, k);
                    let key_trim = trim_of(&key_part);
                    let key = lower_of(&key_trim);
                    let value_part = slice_of(&line, k + 1, len);
                    let value_trim = trim_of(&value_part);
                    let value = unquote_chars(&value_trim);
                    assert(value_part@ == line@.skip(k + 1));
                    assert(key_part@ == line@.take(k as int));
                    c.apply(&section, &key, &value);
                },
            }
        }
    }
    if c.metronome_enabled {
        c.sound_enabled = false;
    }
    c
}


// ------------------------------------------------------------ changing settings

/// A change to the settings from the settings page: each field that is set
/// replaces the one held. The numbers with a fraction are not part of it;
/// they are clamped and kept by the caller.
pub struct SettingsPatch {
    /// Already cleaned the way a typed path is.
    pub eq_directory: Option<String>,
    pub always_on_top: Option<bool>,
    pub sound_enabled: Option<bool>,
    pub metronome_enabled: Option<bool>,
    pub tail_poll_ms: Option<u64>,
    pub setup_complete: Option<bool>,
    pub chain_tag: Option<String>,
    pub alert_slot_taken: Option<bool>,
    pub alert_wrong_target: Option<bool>,
    pub alert_auto_take_sound: Option<bool>,
    pub alert_start_chain_sound: Option<bool>,
    pub overlay_clickthrough: Option<bool>,
}

pub struct PatchView {
    pub eq_directory: Option<Seq<char>>,
    pub always_on_top: Option<bool>,
    pub sound_enabled: Option<bool>,
    pub metronome_enabled: Option<bool>,
    pub tail_poll_ms: Option<u64>,
    pub setup_complete: Option<bool>,
    pub chain_tag: Option<Seq<char>>,
    pub alert_slot_taken: Option<bool>,
    pub alert_wrong_target: Option<bool>,
    pub alert_auto_take_sound: Option<bool>,
    pub alert_start_chain_sound: Option<bool>,
    pub overlay_clickthrough: Option<bool>,
}

impl View for SettingsPatch {
    type V = PatchView;

    open spec fn view(&self) -> PatchView {
        PatchView {
            eq_directory: opt_view(self.eq_directory),
            always_on_top: self.always_on_top,
            sound_enabled: self.sound_enabled,
            metronome_enabled: self.metronome_enabled,
            tail_poll_ms: self.tail_poll_ms,
            setup_complete: self.setup_complete,
            chain_tag: opt_view(self.chain_tag),
            alert_slot_taken: self.alert_slot_taken,
            alert_wrong_target: self.alert_wrong_target,
            alert_auto_take_sound: self.alert_auto_take_sound,
            alert_start_chain_sound: self.alert_start_chain_sound,
            overlay_clickthrough: self.overlay_clickthrough,
        }
    }
}

/// The value asked for, or the one held.
pub open spec fn or_held<T>(asked: Option<T>, held: T) -> T {
    match asked {
        Some(v) => v,
        None => held,
    }
}

/// The two sound cues after a change: asking for the metronome turns the
/// beep off, asking for the beep alone turns the metronome off, and naming
/// either without turning it on turns both off, so never both are on. A
/// change that names neither keeps both. The result is `(sound, metronome)`.
pub open spec fn spec_cues(sound: Option<bool>, metronome: Option<bool>, held: (bool, bool)) -> (bool, bool) {
    if sound is None && metronome is None {
        held
    } else {
        let m = or_held(metronome, false);
        (!m && or_held(sound, false), m)
    }
}

/// The log is polled no more often than every 50 ms.
pub open spec fn spec_tail_poll(ms: u64) -> u64 {
    if ms < 50 {
        50
    } else {
        ms
    }
}

/// A change that names either cue never leaves both on.
pub proof fn lemma_cues_exclusive(sound: Option<bool>, metronome: Option<bool>, held: (bool, bool))
    requires
        sound is Some || metronome is Some,
    ensures
        !(spec_cues(sound, metronome, held).0 && spec_cues(sound, metronome, held).1),
{
}

/// The settings after a change.
pub open spec fn spec_apply_patch(c: IniView, p: PatchView) -> IniView {
    let cues = spec_cues(p.sound_enabled, p.metronome_enabled, (c.sound_enabled, c.metronome_enabled));
    IniView {
        eq_directory: or_held(p.eq_directory, c.eq_directory),
        always_on_top: or_held(p.always_on_top, c.always_on_top),
        sound_enabled: cues.0,
        metronome_enabled: cues.1,
        tail_poll_ms: match p.tail_poll_ms {
            Some(v) => spec_tail_poll(v),
            None => c.tail_poll_ms,
        },
        setup_complete: or_held(p.setup_complete, c.setup_complete),
        chain_tag: match p.chain_tag {
            Some(t) => spec_chain_tag(t),
            None => c.chain_tag,
        },
        alert_slot_taken: or_held(p.alert_slot_taken, c.alert_slot_taken),
        alert_wrong_target: or_held(p.alert_wrong_target, c.alert_wrong_target),
        alert_auto_take_sound: or_held(p.alert_auto_take_sound, c.alert_auto_take_sound),
        alert_start_chain_sound: or_held(p.alert_start_chain_sound, c.alert_start_chain_sound),
        overlay_clickthrough: or_held(p.overlay_clickthrough, c.overlay_clickthrough),
        numbers: c.numbers,
    }
}

/// The log watcher restarts when the folder changes or the poll is set.
pub open spec fn spec_restart(c: IniView, p: PatchView) -> bool {
    (p.eq_directory matches Some(d) && d != c.eq_directory) || p.tail_poll_ms is Some
}

/// The change is refused when it names a folder that the probe found is no
/// EverQuest folder; the probe's message is the answer.
pub open spec fn spec_patch_refused(p: PatchView, probe: Option<Result<(), Seq<char>>>) -> Option<Seq<char>> {
    match p.eq_directory {
        Some(d) => if d.len() > 0 {
            match probe {
                Some(Err(e)) => Some(e),
                _ => None,
            }
        } else {
            None
        },
        None => None,
    }
}

pub open spec fn probe_view(probe: Option<Result<(), String>>) -> Option<Result<(), Seq<char>>> {
    match probe {
        Some(Ok(())) => Some(Ok(())),
        Some(Err(e)) => Some(Err(e@)),
        None => None,
    }
}

fn copy_text(s: &String) -> (r: String)
    ensures
        r@ == s@,
{
    string_of(&chars_of(s.as_str()))
}

fn copy_numbers(v: &Vec<(NumberSetting, String)>) -> (r: Vec<(NumberSetting, String)>)
    ensures
        numbers_view(r@) == numbers_view(v@),
{
    let mut r: Vec<(NumberSetting, String)> = Vec::new();
    for i in 0..v.len()
        invariant
            r@.len() == i,
            forall|k: int| 0 <= k < i ==> (#[trigger] r@[k]).0 == v@[k].0 && r@[k].1@ == v@[k].1@,
    {
        let which = v[i].0;
        r.push((which, copy_text(&v[i].1)));
    }
    assert(numbers_view(r@) =~= numbers_view(v@));
    r
}

fn pick(asked: Option<bool>, held: bool) -> (r: bool)
    ensures
        r == or_held(asked, held),
{
    match asked {
        Some(v) => v,
        None => held,
    }
}

/// Applies a change from the settings page. `probe` is what looking in the
/// named folder found; a folder that is no EverQuest folder refuses the
/// change with the probe's message. Otherwise the new settings come back
/// with whether the log watcher must restart.
pub fn apply_settings_patch(config: &IniSettings, patch: &SettingsPatch, probe: Option<Result<(), String>>) -> (r: Result<(IniSettings, bool), String>)
    ensures
        match r {
            Err(e) => spec_patch_refused(patch@, probe_view(probe)) == Some(e@),
            Ok((c, restart)) => {
                &&& spec_patch_refused(patch@, probe_view(probe)) is None
                &&& c@ == spec_apply_patch(config@, patch@)
                &&& restart == spec_restart(config@, patch@)
            },
        },
{
    let mut restart = false;
    let eq_directory = match &patch.eq_directory {
        Some(dir) => {
            let asked = chars_of(dir.as_str());
            if asked.len() > 0 {
                match &probe {
                    Some(Err(e)) => {
                        return Err(copy_text(e));
                    },
                    _ => {},
                }
            }
            let held = chars_of(config.eq_directory.as_str());
            if !crate::text::seq_eq(&held, &asked) {
                restart = true;
            }
            copy_text(dir)
        },
        None => copy_text(&config.eq_directory),
    };
    let (sound_enabled, metronome_enabled) = if patch.sound_enabled.is_some() || patch.metronome_enabled.is_some() {
        let metronome = pick(patch.metronome_enabled, false);
        let sound = pick(patch.sound_enabled, false);
        if metronome {
            (false, true)
        } else if sound {
            (true, false)
        } else {
            (false, false)
        }
    } else {
        (config.sound_enabled, config.metronome_enabled)
    };
    let tail_poll_ms = match patch.tail_poll_ms {
        Some(v) => {
            restart = true;
            if v < 50 {
                50
            } else {
                v
            }
        },
        None => config.tail_poll_ms,
    };
    let chain_tag = match &patch.chain_tag {
        Some(t) => normalize_chain_tag(t.as_str()),
        None => copy_text(&config.chain_tag),
    };
    let c = IniSettings {
        eq_directory,
        always_on_top: pick(patch.always_on_top, config.always_on_top),
        sound_enabled,
        metronome_enabled,
        tail_poll_ms,
        setup_complete: pick(patch.setup_complete, config.setup_complete),
        chain_tag,
        alert_slot_taken: pick(patch.alert_slot_taken, config.alert_slot_taken),
        alert_wrong_target: pick(patch.alert_wrong_target, config.alert_wrong_target),
        alert_auto_take_sound: pick(patch.alert_auto_take_sound, config.alert_auto_take_sound),
        alert_start_chain_sound: pick(patch.alert_start_chain_sound, config.alert_start_chain_sound),
        overlay_clickthrough: pick(patch.overlay_clickthrough, config.overlay_clickthrough),
        numbers: copy_numbers(&config.numbers),
    };
    Ok((c, restart))
}
} // verus!
