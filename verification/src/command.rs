//! Chain commands typed in chat (`!mt`, `!take 001`, `!chain 2.5`, ...) and
//! the slot names they carry: numbers 001-999 for CH, letters AAA-ZZZ for
//! rampage.
use vstd::prelude::*;

use crate::text::{
    all_digits, chars_of, digit_val, digits_value, eq_ci, eq_ignore_case_str, find, find_str,
    is_alpha, is_ascii_alpha, matches_at, is_ascii_digit, is_digit, lemma_find_from_bounds, lower, lower_of,
    parse_u32, parse_u32_of, seq_eq_str, slice_of, split_words, string_of, trim, trim_by,
    trim_by_of, trim_of, unsigned_part, upper, upper_of, words, words_view, CharSet,
};

verus! {

/// Which rotation a command or heal belongs to.
#[derive(Debug, Clone, Copy, PartialEq, Eq, Structural)]
pub enum ChainKind {
    Cleric,
    Rampage,
    Both,
}

/// A chain command. `ChainInterval` carries the pace in milliseconds.
#[derive(Debug, Clone, PartialEq, Eq)]
pub enum ChainCommand {
    MainTank { tank: String },
    OffTank { tank: String },
    Split { number: u32 },
    TankRange { tank: String, from: u32, to: u32 },
    Untank { tank: String },
    Skip { number: Option<u32> },
    Back { number: Option<u32> },
    ResetChain,
    Take { number: u32, player: Option<String> },
    TakeNext { player: Option<String> },
    Move { from: u32, to: u32 },
    ChainInterval { millis: u64, tank: Option<String> },
    StartChain { tank: Option<String> },
    EndChain { tank: Option<String> },
}

/// A chain command with its text as character sequences.
pub enum CommandView {
    MainTank { tank: Seq<char> },
    OffTank { tank: Seq<char> },
    Split { number: u32 },
    TankRange { tank: Seq<char>, from: u32, to: u32 },
    Untank { tank: Seq<char> },
    Skip { number: Option<u32> },
    Back { number: Option<u32> },
    ResetChain,
    Take { number: u32, player: Option<Seq<char>> },
    TakeNext { player: Option<Seq<char>> },
    Move { from: u32, to: u32 },
    ChainInterval { millis: u64, tank: Option<Seq<char>> },
    StartChain { tank: Option<Seq<char>> },
    EndChain { tank: Option<Seq<char>> },
}

pub open spec fn opt_view(o: Option<String>) -> Option<Seq<char>> {
    match o {
        Some(s) => Some(s@),
        None => None,
    }
}

impl View for ChainCommand {
    type V = CommandView;

    open spec fn view(&self) -> CommandView {
        match self {
            ChainCommand::MainTank { tank } => CommandView::MainTank { tank: tank@ },
            ChainCommand::OffTank { tank } => CommandView::OffTank { tank: tank@ },
            ChainCommand::Split { number } => CommandView::Split { number: *number },
            ChainCommand::TankRange { tank, from, to } => CommandView::TankRange {
                tank: tank@,
                from: *from,
                to: *to,
            },
            ChainCommand::Untank { tank } => CommandView::Untank { tank: tank@ },
            ChainCommand::Skip { number } => CommandView::Skip { number: *number },
            ChainCommand::Back { number } => CommandView::Back { number: *number },
            ChainCommand::ResetChain => CommandView::ResetChain,
            ChainCommand::Take { number, player } => CommandView::Take {
                number: *number,
                player: opt_view(*player),
            },
            ChainCommand::TakeNext { player } => CommandView::TakeNext { player: opt_view(*player) },
            ChainCommand::Move { from, to } => CommandView::Move { from: *from, to: *to },
            ChainCommand::ChainInterval { millis, tank } => CommandView::ChainInterval {
                millis: *millis,
                tank: opt_view(*tank),
            },
            ChainCommand::StartChain { tank } => CommandView::StartChain { tank: opt_view(*tank) },
            ChainCommand::EndChain { tank } => CommandView::EndChain { tank: opt_view(*tank) },
        }
    }
}

pub open spec fn cmd_result_view(r: Option<(ChainCommand, ChainKind)>) -> Option<(CommandView, ChainKind)> {
    match r {
        Some((c, k)) => Some((c@, k)),
        None => None,
    }
}

// ---------------------------------------------------------------- slots

/// A CH slot: a number from 1 to 999.
pub open spec fn spec_parse_slot(raw: Seq<char>) -> Option<u32> {
    match parse_u32(raw) {
        Some(n) => if 1 <= n <= 999 { Some(n) } else { None },
        None => None,
    }
}

/// A rampage letter slot: one to three copies of the same letter, `A` = 1 ...
/// `Z` = 26, in either case. `GG` and `CC` read as guild tags, not slots.
pub open spec fn spec_letter_slot(raw: Seq<char>) -> Option<u32> {
    let t = trim(raw);
    let u = upper(t);
    if t.len() == 0 || t.len() > 3 {
        None
    } else if !is_alpha(u[0]) {
        None
    } else if !(forall|k: int| 0 <= k < u.len() ==> #[trigger] u[k] == u[0]) {
        None
    } else if u == "GG"@ || u == "CC"@ {
        None
    } else {
        Some(((u[0] as u32) - 64) as u32)
    }
}

/// A rampage slot given either as letters or as a number from 1 to 26.
pub open spec fn spec_rampage_slot(raw: Seq<char>) -> Option<u32> {
    match spec_letter_slot(raw) {
        Some(n) => Some(n),
        None => match spec_parse_slot(raw) {
            Some(n) => if 1 <= n <= 26 { Some(n) } else { None },
            None => None,
        },
    }
}

/// A slot of either chain: a number is CH, letters are rampage.
pub open spec fn spec_typed_slot(raw: Seq<char>) -> Option<(u32, ChainKind)> {
    match spec_parse_slot(raw) {
        Some(n) => Some((n, ChainKind::Cleric)),
        None => match spec_letter_slot(raw) {
            Some(n) => Some((n, ChainKind::Rampage)),
            None => None,
        },
    }
}

pub open spec fn spec_optional_rampage_slot(raw: Option<Seq<char>>) -> Option<Option<u32>> {
    match raw {
        None => Some(None),
        Some(r) => match spec_rampage_slot(r) {
            Some(n) => Some(Some(n)),
            None => None,
        },
    }
}

pub open spec fn spec_optional_player(raw: Option<Seq<char>>) -> Option<Seq<char>> {
    match raw {
        None => None,
        Some(r) => {
            let name = trim(r);
            if name.len() == 0 || name[0] == '!' {
                None
            } else {
                Some(name)
            }
        },
    }
}

pub fn parse_slot(raw: &Vec<char>) -> (r: Option<u32>)
    ensures
        r == spec_parse_slot(raw@),
{
    match parse_u32_of(raw) {
        Some(n) => if 1 <= n && n <= 999 { Some(n) } else { None },
        None => None,
    }
}

/// Reads a rampage letter slot such as `AAA` or `c`.
pub fn parse_letter_slot(raw: &str) -> (r: Option<u32>)
    ensures
        r == spec_letter_slot(raw@),
{
    let v = chars_of(raw);
    letter_slot_of(&v)
}

pub fn letter_slot_of(raw: &Vec<char>) -> (r: Option<u32>)
    ensures
        r == spec_letter_slot(raw@),
{
    let t = trim_of(raw);
    let u = upper_of(&t);
    if t.len() == 0 || t.len() > 3 {
        return None;
    }
    let first = u[0];
    if !is_ascii_alpha(first) {
        return None;
    }
    let n = u.len();
    let mut k: usize = 0;
    while k < n
        invariant
            n == u@.len(),
            first == u@[0],
            k <= n,
            t@ == trim(raw@),
            u@ == upper(t@),
            1 <= t@.len() <= 3,
            is_alpha(u@[0]),
            forall|j: int| 0 <= j < k ==> #[trigger] u@[j] == u@[0],
        decreases n - k,
    {
        if u[k] != first {
            assert(u@[k as int] != u@[0]);
            return None;
        }
        k += 1;
    }
    if seq_eq_str(&u, "GG") || seq_eq_str(&u, "CC") {
        return None;
    }
    Some(first as u32 - 64)
}

pub fn rampage_slot(raw: &Vec<char>) -> (r: Option<u32>)
    ensures
        r == spec_rampage_slot(raw@),
{
    match letter_slot_of(raw) {
        Some(n) => Some(n),
        None => match parse_slot(raw) {
            Some(n) => if 1 <= n && n <= 26 { Some(n) } else { None },
            None => None,
        },
    }
}

pub fn typed_slot(raw: &Vec<char>) -> (r: Option<(u32, ChainKind)>)
    ensures
        r == spec_typed_slot(raw@),
{
    match parse_slot(raw) {
        Some(n) => Some((n, ChainKind::Cleric)),
        None => match letter_slot_of(raw) {
            Some(n) => Some((n, ChainKind::Rampage)),
            None => None,
        },
    }
}

pub open spec fn arg(w: Seq<Seq<char>>, i: int) -> Option<Seq<char>> {
    if 0 <= i < w.len() {
        Some(w[i])
    } else {
        None
    }
}

fn arg_of(w: &Vec<Vec<char>>, i: usize) -> (r: Option<Vec<char>>)
    ensures
        opt_chars(r) == arg(words_view(w@), i as int),
{
    if i < w.len() {
        Some(w[i].clone())
    } else {
        None
    }
}

pub open spec fn opt_chars(o: Option<Vec<char>>) -> Option<Seq<char>> {
    match o {
        Some(v) => Some(v@),
        None => None,
    }
}

fn optional_player(raw: &Option<Vec<char>>) -> (r: Option<String>)
    ensures
        opt_view(r) == spec_optional_player(opt_chars(*raw)),
{
    match raw {
        None => None,
        Some(r) => {
            let name = trim_of(r);
            if name.len() == 0 || name[0] == '!' {
                None
            } else {
                Some(string_of(&name))
            }
        },
    }
}

fn optional_rampage_slot(raw: &Option<Vec<char>>) -> (r: Option<Option<u32>>)
    ensures
        r == spec_optional_rampage_slot(opt_chars(*raw)),
{
    match raw {
        None => Some(None),
        Some(r) => match rampage_slot(r) {
            Some(n) => Some(Some(n)),
            None => None,
        },
    }
}

// ---------------------------------------------------------------- pace

/// The most milliseconds a pace can hold.
pub const MAX_MILLIS: u64 = 1_000_000_000_000;

/// The whole-number and fractional digits of a pace such as `2.5`, after an
/// optional `+`.
pub open spec fn pace_parts(s: Seq<char>) -> (Seq<char>, Seq<char>) {
    let d = unsigned_part(s);
    match find(d, seq!['.']) {
        Some(k) => (d.take(k), d.skip(k + 1)),
        None => (d, Seq::empty()),
    }
}

/// Whether text reads as a non-negative decimal number of seconds.
pub open spec fn is_pace(s: Seq<char>) -> bool {
    let (whole, frac) = pace_parts(s);
    &&& all_digits(whole)
    &&& all_digits(frac)
    &&& whole.len() + frac.len() > 0
}

/// The first three fractional digits as milliseconds, padded with zeros.
pub open spec fn frac_millis(frac: Seq<char>) -> nat {
    if frac.len() >= 3 {
        digits_value(frac.take(3))
    } else if frac.len() == 2 {
        digits_value(frac) * 10
    } else if frac.len() == 1 {
        digits_value(frac) * 100
    } else {
        0
    }
}

/// A pace in milliseconds, rounded half up, before clamping.
pub open spec fn pace_millis_raw(s: Seq<char>) -> nat {
    let (whole, frac) = pace_parts(s);
    let up: nat = if frac.len() > 3 && digit_val(frac[3]) >= 5 { 1 } else { 0 };
    digits_value(whole) * 1000 + frac_millis(frac) + up
}

/// Whether some digit of the number is not zero.
pub open spec fn pace_positive(s: Seq<char>) -> bool {
    let (whole, frac) = pace_parts(s);
    digits_value(whole) > 0 || digits_value(frac) > 0
}

/// `!chain` pace: a positive decimal number of seconds, held in milliseconds,
/// at least one and at most `MAX_MILLIS`.
pub open spec fn spec_pace(s: Seq<char>) -> Option<u64> {
    if is_pace(s) && pace_positive(s) {
        let m = pace_millis_raw(s);
        Some(if m < 1 { 1 } else if m > MAX_MILLIS { MAX_MILLIS } else { m as u64 })
    } else {
        None
    }
}

/// The value of a run of digits, held at `cap` once it gets there.
fn capped_value(v: &Vec<char>, a: usize, b: usize, cap: u64) -> (r: u64)
    requires
        a <= b <= v@.len(),
        all_digits(v@.subrange(a as int, b as int)),
        cap <= MAX_MILLIS,
    ensures
        r == if digits_value(v@.subrange(a as int, b as int)) > cap {
            cap as nat
        } else {
            digits_value(v@.subrange(a as int, b as int))
        },
{
    let ghost s = v@.subrange(a as int, b as int);
    let mut acc: u64 = 0;
    let mut i = a;
    while i < b
        invariant
            a <= i <= b <= v@.len(),
            s == v@.subrange(a as int, b as int),
            all_digits(s),
            cap <= MAX_MILLIS,
            acc == if digits_value(s.take(i - a)) > cap {
                cap as nat
            } else {
                digits_value(s.take(i - a))
            },
        decreases b - i,
    {
        let c = v[i];
        assert(s[i - a] == c);
        let dv = (c as u32 - 48) as u64;
        let ghost before = s.take(i - a);
        assert(s.take(i + 1 - a).drop_last() == before);
        assert(s.take(i + 1 - a).last() == c);
        let next = acc * 10 + dv;
        acc = if next > cap { cap } else { next };
        i += 1;
    }
    assert(s.take(b - a) == s);
    acc
}

/// Where the whole and fractional digits of a pace lie: `d[..wb]` and
/// `d[fa..]`.
fn pace_split(d: &Vec<char>) -> (r: (usize, usize))
    ensures
        r.0 <= r.1 <= d@.len(),
        ({
            let (whole, frac) = match find(d@, seq!['.']) {
                Some(k) => (d@.take(k), d@.skip(k + 1)),
                None => (d@, Seq::empty()),
            };
            whole == d@.subrange(0, r.0 as int) && frac == d@.subrange(r.1 as int, d@.len() as int)
        }),
{
    let dot = find_str(d, ".");
    proof {
        reveal_strlit(".");
        assert("."@ == seq!['.']);
    }
    match dot {
        Some(k) => {
            proof {
                assert(find(d@, seq!['.']) == Some(k as int));
                lemma_find_from_bounds(d@, seq!['.'], 0);
                assert(matches_at(d@, seq!['.'], k as int));
                assert(seq!['.'].len() == 1);
                assert(k + 1 <= d.len());
            }
            (k, k + 1)
        },
        None => (d.len(), d.len()),
    }
}

/// Milliseconds for whole digits `d[..wb]` and fractional digits `d[fa..]`.
fn pace_value(d: &Vec<char>, wb: usize, fa: usize) -> (m: u64)
    requires
        wb <= fa <= d@.len(),
        all_digits(d@.subrange(0, wb as int)),
        all_digits(d@.subrange(fa as int, d@.len() as int)),
    ensures
        ({
            let whole = d@.subrange(0, wb as int);
            let frac = d@.subrange(fa as int, d@.len() as int);
            let up: nat = if frac.len() > 3 && digit_val(frac[3]) >= 5 { 1 } else { 0 };
            let raw = digits_value(whole) * 1000 + frac_millis(frac) + up;
            m == if raw < 1 { 1 } else if raw > MAX_MILLIS { MAX_MILLIS as nat } else { raw }
        }),
{
    let ghost whole = d@.subrange(0, wb as int);
    let ghost frac = d@.subrange(fa as int, d@.len() as int);
    let fb = d.len();
    let w = capped_value(d, 0, wb, 1_000_000_000);
    let flen = fb - fa;
    let f3 = if flen >= 3 {
        proof {
            assert(d@.subrange(fa as int, fa + 3) == frac.take(3));
            assert forall|k: int| 0 <= k < frac.take(3).len() implies is_digit(
                #[trigger] frac.take(3)[k],
            ) by {
                assert(frac.take(3)[k] == frac[k]);
            }
            lemma_three_digits(frac.take(3));
        }
        capped_value(d, fa, fa + 3, 1000)
    } else {
        proof {
            lemma_short_digits(frac);
        }
        capped_value(d, fa, fb, 1000)
    };
    let fm = if flen >= 3 {
        f3
    } else if flen == 2 {
        f3 * 10
    } else if flen == 1 {
        f3 * 100
    } else {
        0
    };
    assert(fm == frac_millis(frac));
    let up: u64 = if flen > 3 && (d[fa + 3] as u32) >= 53 { 1 } else { 0 };
    proof {
        if flen > 3 {
            assert(frac[3] == d@[fa + 3]);
        }
    }
    let total = w * 1000 + fm + up;
    if total < 1 {
        1
    } else if total > MAX_MILLIS {
        MAX_MILLIS
    } else {
        total
    }
}

/// Reads a `!chain` pace in milliseconds.
pub fn parse_pace(raw: &Vec<char>) -> (r: Option<u64>)
    ensures
        r == spec_pace(raw@),
{
    let start: usize = if raw.len() > 0 && raw[0] == '+' { 1 } else { 0 };
    let d = slice_of(raw, start, raw.len());
    assert(d@ == unsigned_part(raw@));
    let (wb, fa) = pace_split(&d);
    let fb = d.len();
    assert(pace_parts(raw@).0 == d@.subrange(0, wb as int));
    assert(pace_parts(raw@).1 == d@.subrange(fa as int, fb as int));
    if wb + (fb - fa) == 0 {
        return None;
    }
    if !digits_between(&d, 0, wb) || !digits_between(&d, fa, fb) {
        return None;
    }
    let positive = has_nonzero(&d, 0, wb) || has_nonzero(&d, fa, fb);
    if !positive {
        return None;
    }
    Some(pace_value(&d, wb, fa))
}

/// A run of `n` digits is worth less than `10^n`.
proof fn lemma_digits_bound(s: Seq<char>)
    requires
        all_digits(s),
    ensures
        s.len() == 0 ==> digits_value(s) == 0,
        s.len() <= 1 ==> digits_value(s) < 10,
        s.len() <= 2 ==> digits_value(s) < 100,
        s.len() <= 3 ==> digits_value(s) < 1000,
    decreases s.len(),
{
    if s.len() > 0 {
        let t = s.drop_last();
        assert forall|k: int| 0 <= k < t.len() implies is_digit(#[trigger] t[k]) by {
            assert(t[k] == s[k]);
        }
        lemma_digits_bound(t);
        assert(is_digit(s[s.len() - 1]));
        let d = digit_val(s.last());
        assert(d < 10);
        let v = digits_value(t);
        assert(digits_value(s) == v * 10 + d);
        if s.len() <= 3 {
            assert(v < 100 ==> v * 10 + d < 1000) by (nonlinear_arith)
                requires
                    d < 10,
            ;
        }
        if s.len() <= 2 {
            assert(v < 10 ==> v * 10 + d < 100) by (nonlinear_arith)
                requires
                    d < 10,
            ;
        }
        if s.len() <= 1 {
            assert(v == 0 ==> v * 10 + d < 10) by (nonlinear_arith)
                requires
                    d < 10,
            ;
        }
    }
}

proof fn lemma_three_digits(s: Seq<char>)
    requires
        s.len() == 3,
        all_digits(s),
    ensures
        digits_value(s) < 1000,
{
    lemma_digits_bound(s);
}

proof fn lemma_short_digits(s: Seq<char>)
    requires
        s.len() < 3,
        all_digits(s),
    ensures
        s.len() == 2 ==> digits_value(s) < 100,
        s.len() == 1 ==> digits_value(s) < 10,
        s.len() == 0 ==> digits_value(s) == 0,
{
    lemma_digits_bound(s);
}

/// A run of digits has a non-zero value exactly when one digit is not zero.
proof fn lemma_nonzero_value(s: Seq<char>)
    requires
        all_digits(s),
    ensures
        digits_value(s) > 0 <==> exists|k: int| 0 <= k < s.len() && #[trigger] digit_val(s[k]) != 0,
    decreases s.len(),
{
    if s.len() > 0 {
        let t = s.drop_last();
        assert forall|k: int| 0 <= k < t.len() implies is_digit(#[trigger] t[k]) by {
            assert(t[k] == s[k]);
        }
        lemma_nonzero_value(t);
        assert(is_digit(s[s.len() - 1]));
        assert(digits_value(s) == digits_value(t) * 10 + digit_val(s.last()));
        assert(digits_value(s) > 0 <==> (digits_value(t) > 0 || digit_val(s.last()) > 0)) by (nonlinear_arith)
            requires
                digits_value(s) == digits_value(t) * 10 + digit_val(s.last()),
        ;
        if exists|k: int| 0 <= k < t.len() && #[trigger] digit_val(t[k]) != 0 {
            let k = choose|k: int| 0 <= k < t.len() && #[trigger] digit_val(t[k]) != 0;
            assert(s[k] == t[k]);
        }
        if exists|k: int| 0 <= k < s.len() && #[trigger] digit_val(s[k]) != 0 {
            let k = choose|k: int| 0 <= k < s.len() && #[trigger] digit_val(s[k]) != 0;
            if k < t.len() {
                assert(t[k] == s[k]);
            }
        }
    }
}

fn digits_between(v: &Vec<char>, a: usize, b: usize) -> (r: bool)
    requires
        a <= b <= v@.len(),
    ensures
        r == all_digits(v@.subrange(a as int, b as int)),
{
    let mut i = a;
    while i < b
        invariant
            a <= i <= b <= v@.len(),
            forall|k: int| a <= k < i ==> is_digit(#[trigger] v@[k]),
        decreases b - i,
    {
        if !is_ascii_digit(v[i]) {
            assert(v@.subrange(a as int, b as int)[i - a] == v@[i as int]);
            return false;
        }
        i += 1;
    }
    assert forall|k: int| 0 <= k < b - a implies is_digit(
        #[trigger] v@.subrange(a as int, b as int)[k],
    ) by {
        assert(v@.subrange(a as int, b as int)[k] == v@[a + k]);
    }
    true
}

fn has_nonzero(v: &Vec<char>, a: usize, b: usize) -> (r: bool)
    requires
        a <= b <= v@.len(),
        all_digits(v@.subrange(a as int, b as int)),
    ensures
        r == (digits_value(v@.subrange(a as int, b as int)) > 0),
{
    let ghost s = v@.subrange(a as int, b as int);
    proof {
        lemma_nonzero_value(s);
    }
    let mut i = a;
    while i < b
        invariant
            a <= i <= b <= v@.len(),
            s == v@.subrange(a as int, b as int),
            all_digits(s),
            forall|k: int| 0 <= k < i - a ==> #[trigger] digit_val(s[k]) == 0,
        decreases b - i,
    {
        assert(s[i - a] == v@[i as int]);
        assert(is_digit(s[i - a]));
        let c = v[i];
        if (c as u32) != 48 {
            assert(digit_val(s[i - a]) != 0);
            assert(exists|k: int| 0 <= k < s.len() && #[trigger] digit_val(s[k]) != 0);
            proof {
                lemma_nonzero_value(s);
            }
            return true;
        }
        i += 1;
    }
    false
}

// ---------------------------------------------------------------- commands

/// The message with surrounding whitespace and quotes taken off.
pub open spec fn command_text(message: Seq<char>) -> Seq<char> {
    trim(trim_by(trim_by(trim(message), CharSet::One('"')), CharSet::One('\'')))
}

pub open spec fn spec_tank_range(w: Seq<Seq<char>>, kind: ChainKind) -> Option<(CommandView, ChainKind)> {
    match (arg(w, 1), arg(w, 2), arg(w, 3)) {
        (Some(tank), Some(a), Some(b)) => match (spec_parse_slot(a), spec_parse_slot(b)) {
            (Some(from), Some(to)) => Some((CommandView::TankRange { tank, from, to }, kind)),
            _ => None,
        },
        _ => None,
    }
}

pub open spec fn spec_interval(w: Seq<Seq<char>>, kind: ChainKind) -> Option<(CommandView, ChainKind)> {
    match arg(w, 1) {
        Some(raw) => match spec_pace(raw) {
            Some(millis) => Some((CommandView::ChainInterval { millis, tank: arg(w, 2) }, kind)),
            None => None,
        },
        None => None,
    }
}

pub open spec fn spec_typed_move(w: Seq<Seq<char>>) -> Option<(CommandView, ChainKind)> {
    match (arg(w, 1), arg(w, 2)) {
        (Some(a), Some(b)) => match (spec_typed_slot(a), spec_typed_slot(b)) {
            (Some((from, ka)), Some((to, kb))) => if ka == kb {
                Some((CommandView::Move { from, to }, ka))
            } else {
                None
            },
            _ => None,
        },
        _ => None,
    }
}

pub open spec fn spec_rampage_move(w: Seq<Seq<char>>) -> Option<(CommandView, ChainKind)> {
    match (arg(w, 1), arg(w, 2)) {
        (Some(a), Some(b)) => match (spec_rampage_slot(a), spec_rampage_slot(b)) {
            (Some(from), Some(to)) => Some((CommandView::Move { from, to }, ChainKind::Rampage)),
            _ => None,
        },
        _ => None,
    }
}

/// `!start Mluian` and `!start chain Mluian` both name Mluian.
pub open spec fn spec_named_tank(w: Seq<Seq<char>>) -> Option<Seq<char>> {
    match arg(w, 1) {
        None => None,
        Some(next) => if eq_ci(next, "chain"@) {
            arg(w, 2)
        } else {
            Some(next)
        },
    }
}

pub open spec fn spec_take(w: Seq<Seq<char>>) -> Option<(CommandView, ChainKind)> {
    match arg(w, 1) {
        None => Some((CommandView::TakeNext { player: None }, ChainKind::Cleric)),
        Some(raw) => match spec_typed_slot(raw) {
            Some((number, kind)) => Some(
                (CommandView::Take { number, player: spec_optional_player(arg(w, 2)) }, kind),
            ),
            None => if all_digits(raw) {
                None
            } else {
                Some(
                    (
                        CommandView::TakeNext { player: spec_optional_player(Some(raw)) },
                        ChainKind::Cleric,
                    ),
                )
            },
        },
    }
}

pub open spec fn spec_rtake(w: Seq<Seq<char>>) -> Option<(CommandView, ChainKind)> {
    match arg(w, 1) {
        None => Some((CommandView::TakeNext { player: None }, ChainKind::Rampage)),
        Some(raw) => match spec_rampage_slot(raw) {
            Some(number) => Some(
                (
                    CommandView::Take { number, player: spec_optional_player(arg(w, 2)) },
                    ChainKind::Rampage,
                ),
            ),
            None => None,
        },
    }
}

pub open spec fn spec_skip_back(w: Seq<Seq<char>>, back: bool) -> Option<(CommandView, ChainKind)> {
    match arg(w, 1) {
        None => Some(
            (
                if back {
                    CommandView::Back { number: None }
                } else {
                    CommandView::Skip { number: None }
                },
                ChainKind::Both,
            ),
        ),
        Some(raw) => match spec_typed_slot(raw) {
            Some((n, kind)) => Some(
                (
                    if back {
                        CommandView::Back { number: Some(n) }
                    } else {
                        CommandView::Skip { number: Some(n) }
                    },
                    kind,
                ),
            ),
            None => None,
        },
    }
}

pub open spec fn spec_rskip_back(w: Seq<Seq<char>>, back: bool) -> Option<(CommandView, ChainKind)> {
    match spec_optional_rampage_slot(arg(w, 1)) {
        Some(number) => Some(
            (
                if back {
                    CommandView::Back { number }
                } else {
                    CommandView::Skip { number }
                },
                ChainKind::Rampage,
            ),
        ),
        None => None,
    }
}

pub open spec fn spec_one_tank(w: Seq<Seq<char>>, which: nat, kind: ChainKind) -> Option<(CommandView, ChainKind)> {
    match arg(w, 1) {
        Some(tank) => Some(
            (
                if which == 0 {
                    CommandView::MainTank { tank }
                } else if which == 1 {
                    CommandView::OffTank { tank }
                } else {
                    CommandView::Untank { tank }
                },
                kind,
            ),
        ),
        None => None,
    }
}

/// What a chat message means as a chain command, if anything. The first word,
/// in any case, names the command; the words after it are its arguments.
pub open spec fn spec_chain_command(message: Seq<char>) -> Option<(CommandView, ChainKind)> {
    let w = words(command_text(message));
    if w.len() == 0 {
        None
    } else {
        let cmd = lower(w[0]);
        if cmd == "!mt"@ {
            spec_one_tank(w, 0, ChainKind::Cleric)
        } else if cmd == "!rt"@ {
            spec_one_tank(w, 0, ChainKind::Rampage)
        } else if cmd == "!ot"@ {
            spec_one_tank(w, 1, ChainKind::Cleric)
        } else if cmd == "!split"@ {
            match arg(w, 1) {
                Some(raw) => match spec_parse_slot(raw) {
                    Some(number) => Some((CommandView::Split { number }, ChainKind::Cleric)),
                    None => None,
                },
                None => None,
            }
        } else if cmd == "!tank"@ {
            spec_tank_range(w, ChainKind::Cleric)
        } else if cmd == "!untank"@ {
            spec_one_tank(w, 2, ChainKind::Cleric)
        } else if cmd == "!skip"@ {
            spec_skip_back(w, false)
        } else if cmd == "!rskip"@ {
            spec_rskip_back(w, false)
        } else if cmd == "!back"@ {
            spec_skip_back(w, true)
        } else if cmd == "!rback"@ {
            spec_rskip_back(w, true)
        } else if cmd == "!reset-chain"@ || cmd == "!resetchain"@ {
            Some((CommandView::ResetChain, ChainKind::Cleric))
        } else if cmd == "!take"@ {
            spec_take(w)
        } else if cmd == "!rtake"@ {
            spec_rtake(w)
        } else if cmd == "!move"@ {
            spec_typed_move(w)
        } else if cmd == "!rmove"@ {
            spec_rampage_move(w)
        } else if cmd == "!chain"@ {
            spec_interval(w, ChainKind::Cleric)
        } else if cmd == "!rchain"@ {
            spec_interval(w, ChainKind::Rampage)
        } else if cmd == "!startchain"@ || cmd == "!start-chain"@ {
            Some((CommandView::StartChain { tank: arg(w, 1) }, ChainKind::Both))
        } else if cmd == "!rstartchain"@ || cmd == "!rstart-chain"@ {
            Some((CommandView::StartChain { tank: arg(w, 1) }, ChainKind::Rampage))
        } else if cmd == "!stopchain"@ || cmd == "!stop-chain"@ || cmd == "!endchain"@ || cmd
            == "!end-chain"@ {
            Some((CommandView::EndChain { tank: arg(w, 1) }, ChainKind::Both))
        } else if cmd == "!rstopchain"@ || cmd == "!rstop-chain"@ || cmd == "!rendchain"@ || cmd
            == "!rend-chain"@ {
            Some((CommandView::EndChain { tank: arg(w, 1) }, ChainKind::Rampage))
        } else if cmd == "!start"@ {
            Some((CommandView::StartChain { tank: spec_named_tank(w) }, ChainKind::Both))
        } else if cmd == "!rstart"@ {
            Some((CommandView::StartChain { tank: spec_named_tank(w) }, ChainKind::Rampage))
        } else if cmd == "!stop"@ || cmd == "!end"@ {
            Some((CommandView::EndChain { tank: spec_named_tank(w) }, ChainKind::Both))
        } else if cmd == "!rstop"@ || cmd == "!rend"@ {
            Some((CommandView::EndChain { tank: spec_named_tank(w) }, ChainKind::Rampage))
        } else {
            None
        }
    }
}

fn opt_string(o: &Option<Vec<char>>) -> (r: Option<String>)
    ensures
        opt_view(r) == opt_chars(*o),
{
    match o {
        Some(v) => Some(string_of(v)),
        None => None,
    }
}

fn one_tank(w: &Vec<Vec<char>>, which: u8, kind: ChainKind) -> (r: Option<(ChainCommand, ChainKind)>)
    ensures
        cmd_result_view(r) == spec_one_tank(words_view(w@), which as nat, kind),
{
    match arg_of(w, 1) {
        Some(t) => {
            let tank = string_of(&t);
            Some(
                (
                    if which == 0 {
                        ChainCommand::MainTank { tank }
                    } else if which == 1 {
                        ChainCommand::OffTank { tank }
                    } else {
                        ChainCommand::Untank { tank }
                    },
                    kind,
                ),
            )
        },
        None => None,
    }
}

fn tank_range(w: &Vec<Vec<char>>, kind: ChainKind) -> (r: Option<(ChainCommand, ChainKind)>)
    ensures
        cmd_result_view(r) == spec_tank_range(words_view(w@), kind),
{
    match (arg_of(w, 1), arg_of(w, 2), arg_of(w, 3)) {
        (Some(tank), Some(a), Some(b)) => match (parse_slot(&a), parse_slot(&b)) {
            (Some(from), Some(to)) => Some(
                (ChainCommand::TankRange { tank: string_of(&tank), from, to }, kind),
            ),
            _ => None,
        },
        _ => None,
    }
}

fn interval_cmd(w: &Vec<Vec<char>>, kind: ChainKind) -> (r: Option<(ChainCommand, ChainKind)>)
    ensures
        cmd_result_view(r) == spec_interval(words_view(w@), kind),
{
    match arg_of(w, 1) {
        Some(raw) => match parse_pace(&raw) {
            Some(millis) => {
                let tank = opt_string(&arg_of(w, 2));
                Some((ChainCommand::ChainInterval { millis, tank }, kind))
            },
            None => None,
        },
        None => None,
    }
}

fn typed_move(w: &Vec<Vec<char>>) -> (r: Option<(ChainCommand, ChainKind)>)
    ensures
        cmd_result_view(r) == spec_typed_move(words_view(w@)),
{
    match (arg_of(w, 1), arg_of(w, 2)) {
        (Some(a), Some(b)) => match (typed_slot(&a), typed_slot(&b)) {
            (Some((from, ka)), Some((to, kb))) => if ka == kb {
                Some((ChainCommand::Move { from, to }, ka))
            } else {
                None
            },
            _ => None,
        },
        _ => None,
    }
}

fn rampage_move(w: &Vec<Vec<char>>) -> (r: Option<(ChainCommand, ChainKind)>)
    ensures
        cmd_result_view(r) == spec_rampage_move(words_view(w@)),
{
    match (arg_of(w, 1), arg_of(w, 2)) {
        (Some(a), Some(b)) => match (rampage_slot(&a), rampage_slot(&b)) {
            (Some(from), Some(to)) => Some((ChainCommand::Move { from, to }, ChainKind::Rampage)),
            _ => None,
        },
        _ => None,
    }
}

fn optional_named_tank(w: &Vec<Vec<char>>) -> (r: Option<String>)
    ensures
        opt_view(r) == spec_named_tank(words_view(w@)),
{
    match arg_of(w, 1) {
        None => None,
        Some(next) => if eq_ignore_case_str(&next, "chain") {
            opt_string(&arg_of(w, 2))
        } else {
            Some(string_of(&next))
        },
    }
}

fn take_cmd(w: &Vec<Vec<char>>) -> (r: Option<(ChainCommand, ChainKind)>)
    ensures
        cmd_result_view(r) == spec_take(words_view(w@)),
{
    match arg_of(w, 1) {
        None => Some((ChainCommand::TakeNext { player: None }, ChainKind::Cleric)),
        Some(raw) => match typed_slot(&raw) {
            Some((number, kind)) => Some(
                (ChainCommand::Take { number, player: optional_player(&arg_of(w, 2)) }, kind),
            ),
            None => if digits_between(&raw, 0, raw.len()) {
                assert(raw@.subrange(0, raw@.len() as int) == raw@);
                None
            } else {
                assert(raw@.subrange(0, raw@.len() as int) == raw@);
                Some(
                    (
                        ChainCommand::TakeNext { player: optional_player(&Some(raw)) },
                        ChainKind::Cleric,
                    ),
                )
            },
        },
    }
}

fn rtake_cmd(w: &Vec<Vec<char>>) -> (r: Option<(ChainCommand, ChainKind)>)
    ensures
        cmd_result_view(r) == spec_rtake(words_view(w@)),
{
    match arg_of(w, 1) {
        None => Some((ChainCommand::TakeNext { player: None }, ChainKind::Rampage)),
        Some(raw) => match rampage_slot(&raw) {
            Some(number) => Some(
                (
                    ChainCommand::Take { number, player: optional_player(&arg_of(w, 2)) },
                    ChainKind::Rampage,
                ),
            ),
            None => None,
        },
    }
}

fn skip_back(w: &Vec<Vec<char>>, back: bool) -> (r: Option<(ChainCommand, ChainKind)>)
    ensures
        cmd_result_view(r) == spec_skip_back(words_view(w@), back),
{
    match arg_of(w, 1) {
        None => Some(
            (
                if back {
                    ChainCommand::Back { number: None }
                } else {
                    ChainCommand::Skip { number: None }
                },
                ChainKind::Both,
            ),
        ),
        Some(raw) => match typed_slot(&raw) {
            Some((n, kind)) => Some(
                (
                    if back {
                        ChainCommand::Back { number: Some(n) }
                    } else {
                        ChainCommand::Skip { number: Some(n) }
                    },
                    kind,
                ),
            ),
            None => None,
        },
    }
}

fn rskip_back(w: &Vec<Vec<char>>, back: bool) -> (r: Option<(ChainCommand, ChainKind)>)
    ensures
        cmd_result_view(r) == spec_rskip_back(words_view(w@), back),
{
    match optional_rampage_slot(&arg_of(w, 1)) {
        Some(number) => Some(
            (
                if back {
                    ChainCommand::Back { number }
                } else {
                    ChainCommand::Skip { number }
                },
                ChainKind::Rampage,
            ),
        ),
        None => None,
    }
}

/// Reads a chat message as a chain command, with the chain it applies to.
pub fn parse_chain_command(message: &str) -> (r: Option<(ChainCommand, ChainKind)>)
    ensures
        cmd_result_view(r) == spec_chain_command(message@),
{
    let m = chars_of(message);
    command_of(&m)
}

pub fn command_of(message: &Vec<char>) -> (r: Option<(ChainCommand, ChainKind)>)
    ensures
        cmd_result_view(r) == spec_chain_command(message@),
{
    let t0 = trim_of(message);
    let t1 = trim_by_of(&t0, CharSet::One('"'));
    let t2 = trim_by_of(&t1, CharSet::One('\''));
    let text = trim_of(&t2);
    let w = split_words(&text);
    if w.len() == 0 {
        return None;
    }
    let cmd = lower_of(&w[0]);
    let ghost ws = words_view(w@);
    assert(ws[0] == w@[0]@);
    if seq_eq_str(&cmd, "!mt") {
        one_tank(&w, 0, ChainKind::Cleric)
    } else if seq_eq_str(&cmd, "!rt") {
        one_tank(&w, 0, ChainKind::Rampage)
    } else if seq_eq_str(&cmd, "!ot") {
        one_tank(&w, 1, ChainKind::Cleric)
    } else if seq_eq_str(&cmd, "!split") {
        match arg_of(&w, 1) {
            Some(raw) => match parse_slot(&raw) {
                Some(number) => Some((ChainCommand::Split { number }, ChainKind::Cleric)),
                None => None,
            },
            None => None,
        }
    } else if seq_eq_str(&cmd, "!tank") {
        tank_range(&w, ChainKind::Cleric)
    } else if seq_eq_str(&cmd, "!untank") {
        one_tank(&w, 2, ChainKind::Cleric)
    } else if seq_eq_str(&cmd, "!skip") {
        skip_back(&w, false)
    } else if seq_eq_str(&cmd, "!rskip") {
        rskip_back(&w, false)
    } else if seq_eq_str(&cmd, "!back") {
        skip_back(&w, true)
    } else if seq_eq_str(&cmd, "!rback") {
        rskip_back(&w, true)
    } else if seq_eq_str(&cmd, "!reset-chain") || seq_eq_str(&cmd, "!resetchain") {
        Some((ChainCommand::ResetChain, ChainKind::Cleric))
    } else if seq_eq_str(&cmd, "!take") {
        take_cmd(&w)
    } else if seq_eq_str(&cmd, "!rtake") {
        rtake_cmd(&w)
    } else if seq_eq_str(&cmd, "!move") {
        typed_move(&w)
    } else if seq_eq_str(&cmd, "!rmove") {
        rampage_move(&w)
    } else if seq_eq_str(&cmd, "!chain") {
        interval_cmd(&w, ChainKind::Cleric)
    } else if seq_eq_str(&cmd, "!rchain") {
        interval_cmd(&w, ChainKind::Rampage)
    } else if seq_eq_str(&cmd, "!startchain") || seq_eq_str(&cmd, "!start-chain") {
        Some((ChainCommand::StartChain { tank: opt_string(&arg_of(&w, 1)) }, ChainKind::Both))
    } else if seq_eq_str(&cmd, "!rstartchain") || seq_eq_str(&cmd, "!rstart-chain") {
        Some((ChainCommand::StartChain { tank: opt_string(&arg_of(&w, 1)) }, ChainKind::Rampage))
    } else if seq_eq_str(&cmd, "!stopchain") || seq_eq_str(&cmd, "!stop-chain") || seq_eq_str(
        &cmd,
        "!endchain",
    ) || seq_eq_str(&cmd, "!end-chain") {
        Some((ChainCommand::EndChain { tank: opt_string(&arg_of(&w, 1)) }, ChainKind::Both))
    } else if seq_eq_str(&cmd, "!rstopchain") || seq_eq_str(&cmd, "!rstop-chain") || seq_eq_str(
        &cmd,
        "!rendchain",
    ) || seq_eq_str(&cmd, "!rend-chain") {
        Some((ChainCommand::EndChain { tank: opt_string(&arg_of(&w, 1)) }, ChainKind::Rampage))
    } else if seq_eq_str(&cmd, "!start") {
        Some((ChainCommand::StartChain { tank: optional_named_tank(&w) }, ChainKind::Both))
    } else if seq_eq_str(&cmd, "!rstart") {
        Some((ChainCommand::StartChain { tank: optional_named_tank(&w) }, ChainKind::Rampage))
    } else if seq_eq_str(&cmd, "!stop") || seq_eq_str(&cmd, "!end") {
        Some((ChainCommand::EndChain { tank: optional_named_tank(&w) }, ChainKind::Both))
    } else if seq_eq_str(&cmd, "!rstop") || seq_eq_str(&cmd, "!rend") {
        Some((ChainCommand::EndChain { tank: optional_named_tank(&w) }, ChainKind::Rampage))
    } else {
        None
    }
}


/// A slot in range for its chain: 1 to 999 on the CH chain, 1 to 26 on the
/// rampage chain.
pub open spec fn slot_fits(n: u32, kind: ChainKind) -> bool {
    match kind {
        ChainKind::Rampage => 1 <= n <= 26,
        _ => 1 <= n <= 999,
    }
}

/// Every slot a command names is in range for its chain, and a pace is at
/// least a millisecond.
pub open spec fn command_fits(cmd: CommandView, kind: ChainKind) -> bool {
    match cmd {
        CommandView::Split { number } => slot_fits(number, kind),
        CommandView::TankRange { from, to, .. } => slot_fits(from, kind) && slot_fits(to, kind),
        CommandView::Skip { number: Some(n) } => slot_fits(n, kind),
        CommandView::Back { number: Some(n) } => slot_fits(n, kind),
        CommandView::Take { number, .. } => slot_fits(number, kind),
        CommandView::Move { from, to } => slot_fits(from, kind) && slot_fits(to, kind),
        CommandView::ChainInterval { millis, .. } => millis >= 1,
        _ => true,
    }
}

proof fn lemma_letter_slot_range(raw: Seq<char>)
    ensures
        spec_letter_slot(raw) matches Some(n) ==> 1 <= n <= 26,
{
    let t = trim(raw);
    let u = upper(t);
    if t.len() > 0 {
        assert(u[0] == crate::text::to_upper(t[0]));
    }
}

proof fn lemma_slots_range(raw: Seq<char>)
    ensures
        spec_parse_slot(raw) matches Some(n) ==> 1 <= n <= 999,
        spec_letter_slot(raw) matches Some(n) ==> 1 <= n <= 26,
        spec_rampage_slot(raw) matches Some(n) ==> 1 <= n <= 26,
        spec_typed_slot(raw) matches Some((n, k)) ==> slot_fits(n, k) && k != ChainKind::Both,
{
    lemma_letter_slot_range(raw);
}

spec fn arg_fits(r: Seq<char>) -> bool {
    &&& (spec_parse_slot(r) matches Some(n) ==> 1 <= n <= 999)
    &&& (spec_rampage_slot(r) matches Some(n) ==> 1 <= n <= 26)
    &&& (spec_typed_slot(r) matches Some((n, k)) ==> slot_fits(n, k) && k != ChainKind::Both)
}

proof fn lemma_args_fit(w: Seq<Seq<char>>)
    ensures
        forall|i: int| #[trigger] arg(w, i) is Some ==> arg_fits(arg(w, i)->0),
{
    assert forall|i: int| #[trigger] arg(w, i) is Some implies arg_fits(arg(w, i)->0) by {
        lemma_slots_range(arg(w, i)->0);
    }
}

proof fn lemma_helpers_fit(w: Seq<Seq<char>>)
    ensures
        spec_take(w) matches Some((c, k)) ==> command_fits(c, k),
        spec_rtake(w) matches Some((c, k)) ==> command_fits(c, k),
        spec_typed_move(w) matches Some((c, k)) ==> command_fits(c, k),
        spec_rampage_move(w) matches Some((c, k)) ==> command_fits(c, k),
        spec_skip_back(w, true) matches Some((c, k)) ==> command_fits(c, k),
        spec_skip_back(w, false) matches Some((c, k)) ==> command_fits(c, k),
        spec_rskip_back(w, true) matches Some((c, k)) ==> command_fits(c, k),
        spec_rskip_back(w, false) matches Some((c, k)) ==> command_fits(c, k),
        spec_tank_range(w, ChainKind::Cleric) matches Some((c, k)) ==> command_fits(c, k),
        spec_interval(w, ChainKind::Cleric) matches Some((c, k)) ==> command_fits(c, k),
        spec_interval(w, ChainKind::Rampage) matches Some((c, k)) ==> command_fits(c, k),
        forall|which: nat, kind: ChainKind| #[trigger] spec_one_tank(w, which, kind) matches Some((c, k)) ==> command_fits(c, k),
        arg(w, 1) matches Some(raw) ==> (spec_parse_slot(raw) matches Some(n) ==> command_fits(CommandView::Split { number: n }, ChainKind::Cleric)),
{
    lemma_args_fit(w);
    assert(arg(w, 1) == arg(w, 1));
    assert(arg(w, 2) == arg(w, 2));
    assert(arg(w, 3) == arg(w, 3));
}

/// Whatever chain command a line reads as, the slots it names are in range
/// for its chain and its pace is at least a millisecond.
#[verifier::rlimit(40)]
pub proof fn lemma_command_fits(message: Seq<char>)
    ensures
        spec_chain_command(message) matches Some((cmd, kind)) ==> command_fits(cmd, kind),
{
    let w = words(command_text(message));
    lemma_helpers_fit(w);
}

proof fn lemma_slot_command_names_differ()
    ensures
        "!skip"@ != "!mt"@,
        "!skip"@ != "!rt"@,
        "!skip"@ != "!ot"@,
        "!skip"@ != "!split"@,
        "!skip"@ != "!tank"@,
        "!skip"@ != "!untank"@,
        "!rskip"@ != "!mt"@,
        "!rskip"@ != "!rt"@,
        "!rskip"@ != "!ot"@,
        "!rskip"@ != "!split"@,
        "!rskip"@ != "!tank"@,
        "!rskip"@ != "!untank"@,
        "!rskip"@ != "!skip"@,
        "!back"@ != "!mt"@,
        "!back"@ != "!rt"@,
        "!back"@ != "!ot"@,
        "!back"@ != "!split"@,
        "!back"@ != "!tank"@,
        "!back"@ != "!untank"@,
        "!back"@ != "!skip"@,
        "!back"@ != "!rskip"@,
        "!rback"@ != "!mt"@,
        "!rback"@ != "!rt"@,
        "!rback"@ != "!ot"@,
        "!rback"@ != "!split"@,
        "!rback"@ != "!tank"@,
        "!rback"@ != "!untank"@,
        "!rback"@ != "!skip"@,
        "!rback"@ != "!rskip"@,
        "!rback"@ != "!back"@,
{
    reveal_strlit("!mt");
    reveal_strlit("!rt");
    reveal_strlit("!ot");
    reveal_strlit("!split");
    reveal_strlit("!tank");
    reveal_strlit("!untank");
    reveal_strlit("!skip");
    reveal_strlit("!rskip");
    reveal_strlit("!back");
    reveal_strlit("!rback");
    assert("!skip"@.len() != "!mt"@.len());
    assert("!skip"@.len() != "!rt"@.len());
    assert("!skip"@.len() != "!ot"@.len());
    assert("!skip"@.len() != "!split"@.len());
    assert("!skip"@[1] != "!tank"@[1]);
    assert("!skip"@.len() != "!untank"@.len());
    assert("!rskip"@.len() != "!mt"@.len());
    assert("!rskip"@.len() != "!rt"@.len());
    assert("!rskip"@.len() != "!ot"@.len());
    assert("!rskip"@[1] != "!split"@[1]);
    assert("!rskip"@.len() != "!tank"@.len());
    assert("!rskip"@.len() != "!untank"@.len());
    assert("!rskip"@.len() != "!skip"@.len());
    assert("!back"@.len() != "!mt"@.len());
    assert("!back"@.len() != "!rt"@.len());
    assert("!back"@.len() != "!ot"@.len());
    assert("!back"@.len() != "!split"@.len());
    assert("!back"@[1] != "!tank"@[1]);
    assert("!back"@.len() != "!untank"@.len());
    assert("!back"@[1] != "!skip"@[1]);
    assert("!back"@.len() != "!rskip"@.len());
    assert("!rback"@.len() != "!mt"@.len());
    assert("!rback"@.len() != "!rt"@.len());
    assert("!rback"@.len() != "!ot"@.len());
    assert("!rback"@[1] != "!split"@[1]);
    assert("!rback"@.len() != "!tank"@.len());
    assert("!rback"@.len() != "!untank"@.len());
    assert("!rback"@.len() != "!skip"@.len());
    assert("!rback"@[2] != "!rskip"@[2]);
    assert("!rback"@.len() != "!back"@.len());
}

/// `!back` and `!rback` put a slot back in and `!skip` and `!rskip` skip
/// one, whatever the case of the command word. The rampage forms read their
/// argument as a rampage slot and, with none, name no slot; the plain forms
/// take a slot of either chain and, with none, act on both.
pub proof fn lemma_back_and_skip_commands(message: Seq<char>)
    requires
        words(command_text(message)).len() > 0,
    ensures
        ({
            let w = words(command_text(message));
            let cmd = lower(w[0]);
            &&& cmd == "!rback"@ ==> spec_chain_command(message) == (match spec_optional_rampage_slot(arg(w, 1)) {
                Some(number) => Some((CommandView::Back { number }, ChainKind::Rampage)),
                None => None,
            })
            &&& cmd == "!rskip"@ ==> spec_chain_command(message) == (match spec_optional_rampage_slot(arg(w, 1)) {
                Some(number) => Some((CommandView::Skip { number }, ChainKind::Rampage)),
                None => None,
            })
            &&& cmd == "!back"@ ==> spec_chain_command(message) == (match arg(w, 1) {
                None => Some((CommandView::Back { number: None }, ChainKind::Both)),
                Some(raw) => match spec_typed_slot(raw) {
                    Some((n, kind)) => Some((CommandView::Back { number: Some(n) }, kind)),
                    None => None,
                },
            })
            &&& cmd == "!skip"@ ==> spec_chain_command(message) == (match arg(w, 1) {
                None => Some((CommandView::Skip { number: None }, ChainKind::Both)),
                Some(raw) => match spec_typed_slot(raw) {
                    Some((n, kind)) => Some((CommandView::Skip { number: Some(n) }, kind)),
                    None => None,
                },
            })
        }),
{
    lemma_slot_command_names_differ();
}

} // verus!
