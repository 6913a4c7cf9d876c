//! Reading EverQuest chat lines: who said what on which channel, and whether
//! it is a CH macro, a rampage macro, a chain command or nothing to us.
use vstd::prelude::*;

use crate::command::{command_of, spec_chain_command, cmd_result_view, ChainCommand, ChainKind, CommandView, opt_view};
use crate::config::{normalize_chain_tag, spec_chain_tag};
use crate::text::{
    all_digits, chars_of, eq_ci, eq_ignore_case, eq_ignore_case_str, find, find_str,
    is_alpha, is_ascii_alpha, lower, lower_of, parse_u32, parse_u32_of, pieces, seq_eq, seq_eq_str,
    slice_of, split_by, split_words, starts_with, string_of, strip_prefix, trim, trim_by, trim_by_of,
    trim_end, trim_end_of, trim_of, upper, upper_of, words, words_view, CharSet, append_chars,
    append_str, lemma_find_from_bounds, matches_at,
};

verus! {

#[derive(Debug, Clone, Copy, PartialEq, Eq, Structural)]
pub enum Channel {
    Shout,
    Ooc,
    Group,
    Guild,
    Auction,
    Raid,
    Say,
    Tell,
}

/// One line of chat: the speaker, whether it was you, the channel, and what
/// was said without its quotes.
#[derive(Debug, Clone, PartialEq, Eq)]
pub struct ChatLine {
    pub speaker: String,
    pub is_you: bool,
    pub channel: Channel,
    pub message: String,
}

pub struct ChatLineView {
    pub speaker: Seq<char>,
    pub is_you: bool,
    pub channel: Channel,
    pub message: Seq<char>,
}

impl View for ChatLine {
    type V = ChatLineView;

    open spec fn view(&self) -> ChatLineView {
        ChatLineView {
            speaker: self.speaker@,
            is_you: self.is_you,
            channel: self.channel,
            message: self.message@,
        }
    }
}

/// A CH or RCH macro: who cast, on which slot, at whom.
#[derive(Debug, Clone, PartialEq, Eq)]
pub struct CompleteHealCall {
    pub speaker: String,
    pub is_you: bool,
    pub number: u32,
    pub target: String,
    pub tag: Option<String>,
    pub raw: String,
}

pub struct CallView {
    pub speaker: Seq<char>,
    pub is_you: bool,
    pub number: u32,
    pub target: Seq<char>,
    pub tag: Option<Seq<char>>,
    pub raw: Seq<char>,
}

impl View for CompleteHealCall {
    type V = CallView;

    open spec fn view(&self) -> CallView {
        CallView {
            speaker: self.speaker@,
            is_you: self.is_you,
            number: self.number,
            target: self.target@,
            tag: opt_view(self.tag),
            raw: self.raw@,
        }
    }
}

/// What a log line means to the chain.
#[derive(Debug, Clone, PartialEq, Eq)]
pub enum ParseResult {
    CompleteHeal(CompleteHealCall),
    RampageHeal(CompleteHealCall),
    Command(ChainCommand, String, bool, ChainKind),
    MalformedHeal { speaker: String, message: String, rampage: bool },
    Ignored,
}

pub enum ResultView {
    CompleteHeal(CallView),
    RampageHeal(CallView),
    Command(CommandView, Seq<char>, bool, ChainKind),
    MalformedHeal { speaker: Seq<char>, message: Seq<char>, rampage: bool },
    Ignored,
}

impl View for ParseResult {
    type V = ResultView;

    open spec fn view(&self) -> ResultView {
        match self {
            ParseResult::CompleteHeal(c) => ResultView::CompleteHeal(c@),
            ParseResult::RampageHeal(c) => ResultView::RampageHeal(c@),
            ParseResult::Command(c, s, y, k) => ResultView::Command(c@, s@, *y, *k),
            ParseResult::MalformedHeal { speaker, message, rampage } => ResultView::MalformedHeal {
                speaker: speaker@,
                message: message@,
                rampage: *rampage,
            },
            ParseResult::Ignored => ResultView::Ignored,
        }
    }
}

// ---------------------------------------------------------------- speech

/// The line with a leading `[timestamp]` and surrounding whitespace removed.
pub open spec fn spec_strip_timestamp(line: Seq<char>) -> Option<Seq<char>> {
    let l = trim(line);
    if l.len() > 0 && l[0] == '[' {
        let rest = l.drop_first();
        match find(rest, "]"@) {
            Some(e) => Some(trim(rest.skip(e + 1))),
            None => None,
        }
    } else {
        Some(l)
    }
}

pub open spec fn is_quote_pair(a: char, b: char) -> bool {
    (a == '\'' && b == '\'') || (a == '"' && b == '"') || (a == '`' && b == '`')
}

/// Speech with its trailing dots and matching quotes removed. Text under two
/// bytes long is not speech.
pub open spec fn spec_unquote_speech(text: Seq<char>) -> Option<Seq<char>> {
    let t = trim(trim_end(trim(text), CharSet::One('.')));
    if t.len() == 0 || (t.len() == 1 && (t[0] as u32) < 128) {
        None
    } else if t.len() >= 2 && is_quote_pair(t[0], t.last()) {
        Some(trim(t.subrange(1, t.len() - 1)))
    } else {
        Some(t)
    }
}

/// The prefixes of what you yourself say, and their channels.
pub open spec fn you_table() -> Seq<(Seq<char>, Channel)> {
    seq![
        ("You shout,"@, Channel::Shout),
        ("You say out of character,"@, Channel::Ooc),
        ("You tell the group,"@, Channel::Group),
        ("You tell your party,"@, Channel::Group),
        ("You tell your group,"@, Channel::Group),
        ("You tell the guild,"@, Channel::Guild),
        ("You tell your guild,"@, Channel::Guild),
        ("You say to your guild,"@, Channel::Guild),
        ("You say to the guild,"@, Channel::Guild),
        ("You auction,"@, Channel::Auction),
        ("You tell the raid,"@, Channel::Raid),
        ("You tell your raid,"@, Channel::Raid),
        ("You say to your raid,"@, Channel::Raid),
        ("You say to the raid,"@, Channel::Raid),
    ]
}

/// The markers between another speaker's name and what they say.
pub open spec fn named_table() -> Seq<(Seq<char>, Channel)> {
    seq![
        (" shouts, "@, Channel::Shout),
        (" says out of character, "@, Channel::Ooc),
        (" tells the group, "@, Channel::Group),
        (" tells the party, "@, Channel::Group),
        (" tells the guild, "@, Channel::Guild),
        (" auctions, "@, Channel::Auction),
        (" tells the raid, "@, Channel::Raid),
        (" tells your raid, "@, Channel::Raid),
    ]
}

pub open spec fn spec_extract_you(rest: Seq<char>, prefix: Seq<char>) -> Option<Seq<char>> {
    if starts_with(rest, prefix) {
        spec_unquote_speech(trim(rest.skip(prefix.len() as int)))
    } else {
        None
    }
}

pub open spec fn spec_extract_named(rest: Seq<char>, marker: Seq<char>) -> Option<(Seq<char>, Seq<char>)> {
    match find(rest, marker) {
        None => None,
        Some(idx) => {
            let speaker = trim(rest.take(idx));
            if speaker.len() == 0 || speaker.contains(' ') {
                None
            } else {
                match spec_unquote_speech(trim(rest.skip(idx + marker.len()))) {
                    Some(message) => Some((speaker, message)),
                    None => None,
                }
            }
        },
    }
}

pub open spec fn you_name(your_name: Option<Seq<char>>) -> Seq<char> {
    match your_name {
        Some(n) => n,
        None => "You"@,
    }
}

pub open spec fn names_you(your_name: Option<Seq<char>>, speaker: Seq<char>) -> bool {
    match your_name {
        Some(n) => eq_ci(n, speaker),
        None => false,
    }
}

pub open spec fn you_scan(rest: Seq<char>, your_name: Option<Seq<char>>, i: int) -> Option<ChatLineView>
    decreases you_table().len() - i,
{
    if i < 0 || i >= you_table().len() {
        None
    } else {
        match spec_extract_you(rest, you_table()[i].0) {
            Some(message) => Some(
                ChatLineView {
                    speaker: you_name(your_name),
                    is_you: true,
                    channel: you_table()[i].1,
                    message,
                },
            ),
            None => you_scan(rest, your_name, i + 1),
        }
    }
}

pub open spec fn named_scan(rest: Seq<char>, your_name: Option<Seq<char>>, i: int) -> Option<ChatLineView>
    decreases named_table().len() - i,
{
    if i < 0 || i >= named_table().len() {
        None
    } else {
        match spec_extract_named(rest, named_table()[i].0) {
            Some((speaker, message)) => Some(
                ChatLineView {
                    speaker,
                    is_you: names_you(your_name, speaker),
                    channel: named_table()[i].1,
                    message,
                },
            ),
            None => named_scan(rest, your_name, i + 1),
        }
    }
}

/// The channel named by the words between a speaker and the comma.
pub open spec fn spec_channel_from_verbs(verbs: Seq<char>) -> Channel {
    let l = lower(verbs);
    if find(l, "out of character"@) is Some {
        Channel::Ooc
    } else if find(l, "shout"@) is Some {
        Channel::Shout
    } else if find(l, "auction"@) is Some {
        Channel::Auction
    } else if find(l, "guild"@) is Some {
        Channel::Guild
    } else if find(l, "group"@) is Some || find(l, "party"@) is Some {
        Channel::Group
    } else if find(l, "raid"@) is Some {
        Channel::Raid
    } else if find(l, "tell"@) is Some {
        Channel::Tell
    } else {
        Channel::Say
    }
}

/// Any other `Name verbs, 'speech'` line, such as `Hanbox says, '...'` or
/// `Hanbox tells you, '...'`. Speakers starting `a`, `an` or `the` are mobs.
pub open spec fn spec_generic_speech(rest: Seq<char>, your_name: Option<Seq<char>>) -> Option<ChatLineView> {
    let comma = match find(rest, ", '"@) {
        Some(c) => Some(c),
        None => find(rest, ", \""@),
    };
    match comma {
        None => None,
        Some(c) => {
            let head = trim(rest.take(c));
            match spec_unquote_speech(trim(rest.skip(c + 2))) {
                None => None,
                Some(message) => if starts_with(head, "You "@) {
                    Some(
                        ChatLineView {
                            speaker: you_name(your_name),
                            is_you: true,
                            channel: spec_channel_from_verbs(head.skip(4)),
                            message,
                        },
                    )
                } else {
                    let w = words(head);
                    if w.len() == 0 {
                        None
                    } else {
                        let speaker = w[0];
                        let l = lower(speaker);
                        if speaker.len() == 0 || !is_alpha(speaker[0]) {
                            None
                        } else if l == "a"@ || l == "an"@ || l == "the"@ {
                            None
                        } else {
                            let verbs = if speaker.len() <= head.len() {
                                trim(head.skip(speaker.len() as int))
                            } else {
                                Seq::empty()
                            };
                            Some(
                                ChatLineView {
                                    speaker,
                                    is_you: names_you(your_name, speaker),
                                    channel: spec_channel_from_verbs(verbs),
                                    message,
                                },
                            )
                        }
                    }
                },
            }
        },
    }
}

/// A log line read as chat: your own lines first, then the named channels,
/// then any other quoted speech.
pub open spec fn spec_chat_line(line: Seq<char>, your_name: Option<Seq<char>>) -> Option<ChatLineView> {
    match spec_strip_timestamp(line) {
        None => None,
        Some(rest) => match you_scan(rest, your_name, 0) {
            Some(c) => Some(c),
            None => match named_scan(rest, your_name, 0) {
                Some(c) => Some(c),
                None => spec_generic_speech(rest, your_name),
            },
        },
    }
}

fn strip_timestamp(line: &Vec<char>) -> (r: Option<Vec<char>>)
    ensures
        opt_seq(r) == spec_strip_timestamp(line@),
{
    let l = trim_of(line);
    if l.len() > 0 && l[0] == '[' {
        let rest = slice_of(&l, 1, l.len());
        assert(rest@ == l@.drop_first());
        match find_str(&rest, "]") {
            Some(e) => {
                proof {
                    lemma_find_from_bounds(rest@, "]"@, 0);
                    reveal_strlit("]");
                    assert(e + 1 <= rest.len());
                }
                let after = slice_of(&rest, e + 1, rest.len());
                Some(trim_of(&after))
            },
            None => None,
        }
    } else {
        Some(l)
    }
}

pub open spec fn opt_seq(o: Option<Vec<char>>) -> Option<Seq<char>> {
    match o {
        Some(v) => Some(v@),
        None => None,
    }
}

fn unquote_speech(text: &Vec<char>) -> (r: Option<Vec<char>>)
    ensures
        opt_seq(r) == spec_unquote_speech(text@),
{
    let a = trim_of(text);
    let b = trim_end_of(&a, CharSet::One('.'));
    let t = trim_of(&b);
    let n = t.len();
    if n == 0 || (n == 1 && (t[0] as u32) < 128) {
        None
    } else if n >= 2 && ((t[0] == '\'' && t[n - 1] == '\'') || (t[0] == '"' && t[n - 1] == '"') || (
    t[0] == '`' && t[n - 1] == '`')) {
        let inner = slice_of(&t, 1, n - 1);
        Some(trim_of(&inner))
    } else {
        Some(t)
    }
}

fn extract_you(rest: &Vec<char>, prefix: &str) -> (r: Option<Vec<char>>)
    ensures
        opt_seq(r) == spec_extract_you(rest@, prefix@),
{
    match strip_prefix(rest, prefix) {
        Some(after) => {
            let t = trim_of(&after);
            unquote_speech(&t)
        },
        None => None,
    }
}

fn extract_named(rest: &Vec<char>, marker: &str) -> (r: Option<(Vec<char>, Vec<char>)>)
    ensures
        match r {
            Some((s, m)) => spec_extract_named(rest@, marker@) == Some((s@, m@)),
            None => spec_extract_named(rest@, marker@) is None,
        },
{
    let mv = chars_of(marker);
    match find_str(rest, marker) {
        None => None,
        Some(idx) => {
            proof {
                lemma_find_from_bounds(rest@, marker@, 0);
                assert(idx + mv@.len() <= rest.len());
            }
            let head = slice_of(rest, 0, idx);
            assert(head@ == rest@.take(idx as int));
            let speaker = trim_of(&head);
            if speaker.len() == 0 || has_space(&speaker) {
                None
            } else {
                let tail = slice_of(rest, idx + mv.len(), rest.len());
                assert(tail@ == rest@.skip(idx + marker@.len()));
                let t = trim_of(&tail);
                match unquote_speech(&t) {
                    Some(message) => Some((speaker, message)),
                    None => None,
                }
            }
        },
    }
}

fn has_space(v: &Vec<char>) -> (b: bool)
    ensures
        b == v@.contains(' '),
{
    let n = v.len();
    for i in 0..n
        invariant
            n == v@.len(),
            forall|k: int| 0 <= k < i ==> v@[k] != ' ',
    {
        if v[i] == ' ' {
            assert(v@[i as int] == ' ');
            return true;
        }
    }
    false
}

fn you_prefix(i: usize) -> (r: (&'static str, Channel))
    requires
        i < 14,
    ensures
        r.0@ == you_table()[i as int].0,
        r.1 == you_table()[i as int].1,
{
    match i {
        0 => ("You shout,", Channel::Shout),
        1 => ("You say out of character,", Channel::Ooc),
        2 => ("You tell the group,", Channel::Group),
        3 => ("You tell your party,", Channel::Group),
        4 => ("You tell your group,", Channel::Group),
        5 => ("You tell the guild,", Channel::Guild),
        6 => ("You tell your guild,", Channel::Guild),
        7 => ("You say to your guild,", Channel::Guild),
        8 => ("You say to the guild,", Channel::Guild),
        9 => ("You auction,", Channel::Auction),
        10 => ("You tell the raid,", Channel::Raid),
        11 => ("You tell your raid,", Channel::Raid),
        12 => ("You say to your raid,", Channel::Raid),
        _ => ("You say to the raid,", Channel::Raid),
    }
}

fn named_marker(i: usize) -> (r: (&'static str, Channel))
    requires
        i < 8,
    ensures
        r.0@ == named_table()[i as int].0,
        r.1 == named_table()[i as int].1,
{
    match i {
        0 => (" shouts, ", Channel::Shout),
        1 => (" says out of character, ", Channel::Ooc),
        2 => (" tells the group, ", Channel::Group),
        3 => (" tells the party, ", Channel::Group),
        4 => (" tells the guild, ", Channel::Guild),
        5 => (" auctions, ", Channel::Auction),
        6 => (" tells the raid, ", Channel::Raid),
        _ => (" tells your raid, ", Channel::Raid),
    }
}

pub open spec fn opt_line(o: Option<ChatLine>) -> Option<ChatLineView> {
    match o {
        Some(c) => Some(c@),
        None => None,
    }
}

pub open spec fn opt_str(o: Option<&str>) -> Option<Seq<char>> {
    match o {
        Some(s) => Some(s@),
        None => None,
    }
}

fn your_speaker(your_name: Option<&str>) -> (r: String)
    ensures
        r@ == you_name(opt_str(your_name)),
{
    match your_name {
        Some(n) => {
            let v = chars_of(n);
            string_of(&v)
        },
        None => {
            let v = chars_of("You");
            string_of(&v)
        },
    }
}

fn is_named_you(your_name: Option<&str>, speaker: &Vec<char>) -> (b: bool)
    ensures
        b == names_you(opt_str(your_name), speaker@),
{
    match your_name {
        Some(n) => {
            let v = chars_of(n);
            eq_ignore_case(&v, speaker)
        },
        None => false,
    }
}

fn channel_from_verbs(verbs: &Vec<char>) -> (c: Channel)
    ensures
        c == spec_channel_from_verbs(verbs@),
{
    let l = lower_of(verbs);
    if find_str(&l, "out of character").is_some() {
        Channel::Ooc
    } else if find_str(&l, "shout").is_some() {
        Channel::Shout
    } else if find_str(&l, "auction").is_some() {
        Channel::Auction
    } else if find_str(&l, "guild").is_some() {
        Channel::Guild
    } else if find_str(&l, "group").is_some() || find_str(&l, "party").is_some() {
        Channel::Group
    } else if find_str(&l, "raid").is_some() {
        Channel::Raid
    } else if find_str(&l, "tell").is_some() {
        Channel::Tell
    } else {
        Channel::Say
    }
}

fn generic_speech(rest: &Vec<char>, your_name: Option<&str>) -> (r: Option<ChatLine>)
    ensures
        opt_line(r) == spec_generic_speech(rest@, opt_str(your_name)),
{
    let comma = match find_str(rest, ", '") {
        Some(c) => Some(c),
        None => find_str(rest, ", \""),
    };
    let c = match comma {
        None => {
            return None;
        },
        Some(c) => c,
    };
    proof {
        lemma_find_from_bounds(rest@, ", '"@, 0);
        lemma_find_from_bounds(rest@, ", \""@, 0);
        reveal_strlit(", '");
        reveal_strlit(", \"");
        assert(c + 2 <= rest.len());
    }
    let h = slice_of(rest, 0, c);
    assert(h@ == rest@.take(c as int));
    let head = trim_of(&h);
    let tl = slice_of(rest, c + 2, rest.len());
    assert(tl@ == rest@.skip(c + 2));
    let t = trim_of(&tl);
    let message = match unquote_speech(&t) {
        None => {
            return None;
        },
        Some(m) => m,
    };
    match strip_prefix(&head, "You ") {
        Some(verbs) => {
            proof {
                reveal_strlit("You ");
            }
            return Some(
                ChatLine {
                    speaker: your_speaker(your_name),
                    is_you: true,
                    channel: channel_from_verbs(&verbs),
                    message: string_of(&message),
                },
            );
        },
        None => {},
    }
    let w = split_words(&head);
    if w.len() == 0 {
        return None;
    }
    let speaker = w[0].clone();
    assert(speaker@ == words_view(w@)[0]);
    let l = lower_of(&speaker);
    if speaker.len() == 0 || !is_ascii_alpha(speaker[0]) {
        return None;
    }
    if seq_eq_str(&l, "a") || seq_eq_str(&l, "an") || seq_eq_str(&l, "the") {
        return None;
    }
    let verbs = if speaker.len() <= head.len() {
        let v = slice_of(&head, speaker.len(), head.len());
        trim_of(&v)
    } else {
        Vec::new()
    };
    let is_you = is_named_you(your_name, &speaker);
    let channel = channel_from_verbs(&verbs);
    Some(ChatLine { speaker: string_of(&speaker), is_you, channel, message: string_of(&message) })
}

/// Reads a log line as chat, if it is chat.
pub fn parse_chat_line(line: &str, your_name: Option<&str>) -> (r: Option<ChatLine>)
    ensures
        opt_line(r) == spec_chat_line(line@, opt_str(your_name)),
{
    let v = chars_of(line);
    let rest = match strip_timestamp(&v) {
        None => {
            return None;
        },
        Some(r) => r,
    };
    let mut i: usize = 0;
    while i < 14
        invariant
            i <= 14,
            you_table().len() == 14,
            v@ == line@,
            spec_strip_timestamp(v@) == Some(rest@),
            you_scan(rest@, opt_str(your_name), 0) == you_scan(rest@, opt_str(your_name), i as int),
        decreases 14 - i,
    {
        let (prefix, channel) = you_prefix(i);
        match extract_you(&rest, prefix) {
            Some(message) => {
                return Some(
                    ChatLine {
                        speaker: your_speaker(your_name),
                        is_you: true,
                        channel,
                        message: string_of(&message),
                    },
                );
            },
            None => {},
        }
        i += 1;
    }
    let mut j: usize = 0;
    while j < 8
        invariant
            j <= 8,
            named_table().len() == 8,
            v@ == line@,
            spec_strip_timestamp(v@) == Some(rest@),
            you_scan(rest@, opt_str(your_name), 0) is None,
            named_scan(rest@, opt_str(your_name), 0) == named_scan(rest@, opt_str(your_name), j as int),
        decreases 8 - j,
    {
        let (marker, channel) = named_marker(j);
        match extract_named(&rest, marker) {
            Some((speaker, message)) => {
                let is_you = is_named_you(your_name, &speaker);
                return Some(
                    ChatLine {
                        speaker: string_of(&speaker),
                        is_you,
                        channel,
                        message: string_of(&message),
                    },
                );
            },
            None => {},
        }
        j += 1;
    }
    generic_speech(&rest, your_name)
}

// ---------------------------------------------------------------- macros

/// The guild tag a message opens with: a first word of two to four ASCII
/// letters, upper-cased, unless it is `CH` or `RCH` itself.
pub open spec fn spec_detect_tag(message: Seq<char>) -> Option<Seq<char>> {
    let w = words(message);
    if w.len() == 0 {
        None
    } else {
        let f = w[0];
        if 2 <= f.len() <= 4 && (forall|k: int| 0 <= k < f.len() ==> #[trigger] is_alpha(f[k])) {
            let u = upper(f);
            if u != "CH"@ && u != "RCH"@ {
                Some(u)
            } else {
                None
            }
        } else {
            None
        }
    }
}

pub fn detect_tag(message: &Vec<char>) -> (r: Option<Vec<char>>)
    ensures
        opt_seq(r) == spec_detect_tag(message@),
{
    let w = split_words(message);
    if w.len() == 0 {
        return None;
    }
    let f = w[0].clone();
    assert(f@ == words_view(w@)[0]);
    if f.len() < 2 || f.len() > 4 {
        return None;
    }
    let n = f.len();
    let mut k: usize = 0;
    while k < n
        invariant
            n == f@.len(),
            k <= n,
            2 <= n <= 4,
            words(message@).len() > 0,
            f@ == words(message@)[0],
            forall|j: int| 0 <= j < k ==> #[trigger] is_alpha(f@[j]),
        decreases n - k,
    {
        if !is_ascii_alpha(f[k]) {
            assert(!is_alpha(f@[k as int]));
            return None;
        }
        k += 1;
    }
    let u = upper_of(&f);
    if !seq_eq_str(&u, "CH") && !seq_eq_str(&u, "RCH") {
        Some(u)
    } else {
        None
    }
}

/// A message that opens with a guild tag of two to four ASCII letters and a
/// space is read as that tag, upper-cased, whatever follows, unless the tag
/// is `CH` or `RCH` itself. Four-letter tags such as `GOOD` are read too.
pub proof fn lemma_opening_tag_is_read(tag: Seq<char>, rest: Seq<char>)
    requires
        2 <= tag.len() <= 4,
        forall|k: int| 0 <= k < tag.len() ==> #[trigger] is_alpha(tag[k]),
        upper(tag) != "CH"@,
        upper(tag) != "RCH"@,
    ensures
        spec_detect_tag(tag.push(' ') + rest) == Some(upper(tag)),
{
    assert forall|k: int| 0 <= k < tag.len() implies !CharSet::Space.has(#[trigger] tag[k]) by {
        assert(is_alpha(tag[k]));
    }
    crate::text::lemma_first_piece(tag, ' ', rest, CharSet::Space);
}

/// An opening word that is not two to four ASCII letters is no guild tag:
/// a message that opens with one letter, five or more, or anything but
/// letters carries no tag, whatever follows.
pub proof fn lemma_other_opening_is_no_tag(first: Seq<char>, rest: Seq<char>)
    requires
        first.len() > 0,
        forall|k: int| 0 <= k < first.len() ==> !CharSet::Space.has(#[trigger] first[k]),
        first.len() < 2 || first.len() > 4 || exists|k: int| 0 <= k < first.len() && !is_alpha(#[trigger] first[k]),
    ensures
        spec_detect_tag(first.push(' ') + rest) is None,
{
    crate::text::lemma_first_piece(first, ' ', rest, CharSet::Space);
}

/// Every chain tag the settings can hold, from two letters up, is read back
/// from a macro that opens with it: `GOOD 014 CH -- Tank` carries `GOOD`.
pub proof fn lemma_clean_tag_is_read(tag: Seq<char>, rest: Seq<char>)
    requires
        crate::config::clean_tag(tag),
        2 <= tag.len(),
        tag != "CH"@,
        tag != "RCH"@,
    ensures
        spec_detect_tag(tag.push(' ') + rest) == Some(tag),
{
    assert(upper(tag) =~= tag) by {
        assert forall|k: int| 0 <= k < tag.len() implies #[trigger] upper(tag)[k] == tag[k] by {
            assert(crate::text::is_upper(tag[k]));
        }
    }
    assert forall|k: int| 0 <= k < tag.len() implies #[trigger] is_alpha(tag[k]) by {
        assert(crate::text::is_upper(tag[k]));
    }
    lemma_opening_tag_is_read(tag, rest);
}

/// The first word of `w` from `i` on that holds an ASCII letter.
pub open spec fn first_alpha_word(w: Seq<Seq<char>>, i: int) -> Seq<char>
    decreases w.len() - i,
{
    if i < 0 || i >= w.len() {
        Seq::empty()
    } else if exists|k: int| 0 <= k < w[i].len() && #[trigger] is_alpha(w[i][k]) {
        w[i]
    } else {
        first_alpha_word(w, i + 1)
    }
}

/// The heal target: the first word with a letter in it, stripped of dashes,
/// quotes and other punctuation.
pub open spec fn spec_sanitize_target(raw: Seq<char>) -> Seq<char> {
    trim_by(first_alpha_word(words(trim_by(trim(raw), CharSet::Punct)), 0), CharSet::NonAlnum)
}

fn has_alpha(v: &Vec<char>) -> (b: bool)
    ensures
        b == exists|k: int| 0 <= k < v@.len() && #[trigger] is_alpha(v@[k]),
{
    let n = v.len();
    for i in 0..n
        invariant
            n == v@.len(),
            forall|k: int| 0 <= k < i ==> !is_alpha(#[trigger] v@[k]),
    {
        if is_ascii_alpha(v[i]) {
            assert(is_alpha(v@[i as int]));
            return true;
        }
    }
    false
}

pub fn sanitize_target(raw: &Vec<char>) -> (r: Vec<char>)
    ensures
        r@ == spec_sanitize_target(raw@),
{
    let a = trim_of(raw);
    let cleaned = trim_by_of(&a, CharSet::Punct);
    let w = split_words(&cleaned);
    let ghost ws = words_view(w@);
    let mut i: usize = 0;
    while i < w.len()
        invariant
            i <= w@.len(),
            ws == words_view(w@),
            ws == words(trim_by(trim(raw@), CharSet::Punct)),
            first_alpha_word(ws, 0) == first_alpha_word(ws, i as int),
        decreases w@.len() - i,
    {
        assert(w@[i as int]@ == ws[i as int]);
        if has_alpha(&w[i]) {
            return trim_by_of(&w[i], CharSet::NonAlnum);
        }
        i += 1;
    }
    let empty: Vec<char> = Vec::new();
    let r = trim_by_of(&empty, CharSet::NonAlnum);
    r
}

/// Whether a message carrying our tag has `word` among its letter runs, in
/// any case: a macro that looks like ours even though it did not parse.
pub open spec fn spec_looks_like(message: Seq<char>, chain_tag: Seq<char>, word: Seq<char>) -> bool {
    &&& spec_detect_tag(message) == Some(chain_tag)
    &&& pieces(upper(message), CharSet::NonAlpha).contains(word)
}

fn looks_like(message: &Vec<char>, chain_tag: &Vec<char>, word: &str) -> (b: bool)
    ensures
        b == spec_looks_like(message@, chain_tag@, word@),
{
    match detect_tag(message) {
        None => {
            return false;
        },
        Some(t) => {
            if !seq_eq(&t, chain_tag) {
                return false;
            }
        },
    }
    let u = upper_of(message);
    let p = split_by(&u, CharSet::NonAlpha);
    let wv = chars_of(word);
    let ghost ps = words_view(p@);
    let n = p.len();
    for i in 0..n
        invariant
            n == p@.len(),
            ps == words_view(p@),
            ps == pieces(upper(message@), CharSet::NonAlpha),
            wv@ == word@,
            spec_detect_tag(message@) == Some(chain_tag@),
            forall|k: int| 0 <= k < i ==> ps[k] != wv@,
    {
        assert(p@[i as int]@ == ps[i as int]);
        if seq_eq(&p[i], &wv) {
            assert(ps[i as int] == word@);
            return true;
        }
    }
    assert(!ps.contains(word@)) by {
        if ps.contains(word@) {
            let k = choose|k: int| 0 <= k < ps.len() && ps[k] == word@;
            assert(ps[k] != wv@);
        }
    }
    false
}

/// A message with our tag and a separate `RCH` in it.
pub fn looks_like_rch_macro(message: &str, chain_tag: &str) -> (b: bool)
    ensures
        b == spec_looks_like(message@, chain_tag@, "RCH"@),
{
    let m = chars_of(message);
    let t = chars_of(chain_tag);
    looks_like(&m, &t, "RCH")
}

/// A message with our tag and a separate `CH` in it.
pub fn looks_like_ch_macro(message: &str, chain_tag: &str) -> (b: bool)
    ensures
        b == spec_looks_like(message@, chain_tag@, "CH"@),
{
    let m = chars_of(message);
    let t = chars_of(chain_tag);
    looks_like(&m, &t, "CH")
}

// ---------------------------------------------------------------- regex

/// What the regex crate captures in `text` for `pattern`: groups 1 and 2 of
/// the leftmost match, or `None` when nothing matches.
pub uninterp spec fn regex_groups(pattern: Seq<char>, text: Seq<char>) -> Option<(Option<Seq<char>>, Option<Seq<char>>)>;

pub open spec fn groups_view(r: Option<(Option<String>, Option<String>)>) -> Option<(Option<Seq<char>>, Option<Seq<char>>)> {
    match r {
        Some((a, b)) => Some((opt_view(a), opt_view(b))),
        None => None,
    }
}

/// `regex::Regex::new(pattern)` and then `Regex::captures(text)`: the text of
/// capture groups 1 and 2. Its result is named `regex_groups`; a pattern the
/// crate refuses captures nothing. Nothing else is claimed of it.
#[verifier::external_body]
fn regex_captures(pattern: &str, text: &str) -> (r: Option<(Option<String>, Option<String>)>)
    ensures
        groups_view(r) == regex_groups(pattern@, text@),
{
    let re = match regex::Regex::new(pattern) {
        Ok(re) => re,
        Err(_) => return None,
    };
    match re.captures(text) {
        Some(caps) => Some((
            caps.get(1).map(|m| m.as_str().to_string()),
            caps.get(2).map(|m| m.as_str().to_string()),
        )),
        None => None,
    }
}

/// The CH macro shapes: an optional tag, then `001 CH` or `CH 001`, then the
/// target after an optional separator.
pub open spec fn ch_pattern(i: int) -> Seq<char> {
    if i == 0 {
        r"(?i)^\s*(?:[A-Za-z]{2,4}\s+)?(\d{1,3})\s+CH\b\s*(?:--+|—|-|:)?\s*(.*?)\s*$"@
    } else {
        r"(?i)^\s*(?:[A-Za-z]{2,4}\s+)?CH\s+(\d{1,3})\s*(?:--+|—|-|:)?\s*(.*?)\s*$"@
    }
}

/// The rampage macro shapes: letters with `RCH`, letters with `CH`, or
/// letters dashed onto `CH`.
pub open spec fn rch_pattern(i: int) -> Seq<char> {
    if i == 0 {
        r"(?i)^\s*(?:[A-Za-z]{2,4}\s+)?([A-Za-z]{1,3})\s+RCH\b\s*(?:--+|—|-|:)?\s*(.*?)\s*$"@
    } else if i == 1 {
        r"(?i)^\s*(?:[A-Za-z]{2,4}\s+)?RCH\s+([A-Za-z]{1,3})\s*(?:--+|—|-|:)?\s*(.*?)\s*$"@
    } else if i == 2 {
        r"(?i)^\s*(?:[A-Za-z]{2,4}\s+)?([A-Za-z]{1,3})\s+CH\b\s*(?:--+|—|-|:)?\s*(.*?)\s*$"@
    } else {
        r"(?i)^\s*([A-Za-z]{1,3})\s*-+\s*CH\b\s*-+\s*(.*?)\s*$"@
    }
}

fn ch_pattern_str(i: usize) -> (r: &'static str)
    ensures
        r@ == ch_pattern(i as int),
{
    if i == 0 {
        r"(?i)^\s*(?:[A-Za-z]{2,4}\s+)?(\d{1,3})\s+CH\b\s*(?:--+|—|-|:)?\s*(.*?)\s*$"
    } else {
        r"(?i)^\s*(?:[A-Za-z]{2,4}\s+)?CH\s+(\d{1,3})\s*(?:--+|—|-|:)?\s*(.*?)\s*$"
    }
}

fn rch_pattern_str(i: usize) -> (r: &'static str)
    ensures
        r@ == rch_pattern(i as int),
{
    if i == 0 {
        r"(?i)^\s*(?:[A-Za-z]{2,4}\s+)?([A-Za-z]{1,3})\s+RCH\b\s*(?:--+|—|-|:)?\s*(.*?)\s*$"
    } else if i == 1 {
        r"(?i)^\s*(?:[A-Za-z]{2,4}\s+)?RCH\s+([A-Za-z]{1,3})\s*(?:--+|—|-|:)?\s*(.*?)\s*$"
    } else if i == 2 {
        r"(?i)^\s*(?:[A-Za-z]{2,4}\s+)?([A-Za-z]{1,3})\s+CH\b\s*(?:--+|—|-|:)?\s*(.*?)\s*$"
    } else {
        r"(?i)^\s*([A-Za-z]{1,3})\s*-+\s*CH\b\s*-+\s*(.*?)\s*$"
    }
}

pub open spec fn heal_call(
    message: Seq<char>,
    speaker: Seq<char>,
    is_you: bool,
    number: u32,
    target: Option<Seq<char>>,
) -> CallView {
    CallView {
        speaker,
        is_you,
        number,
        target: match target {
            Some(t) => spec_sanitize_target(t),
            None => Seq::empty(),
        },
        tag: spec_detect_tag(message),
        raw: message,
    }
}

/// What a CH shape's groups say: `None` to try the next shape, else the
/// answer. A line without our tag, or with no number, or one that does not
/// read, is no heal; a number outside 1-999 tries the next shape; else it is
/// the heal on that number, with the target the second group holds.
pub open spec fn ch_groups_say(tag: Seq<char>, message: Seq<char>, speaker: Seq<char>, is_you: bool, g1: Option<Seq<char>>, g2: Option<Seq<char>>) -> Option<Option<CallView>> {
    if spec_detect_tag(message) != Some(tag) {
        Some(None)
    } else {
        match g1 {
            None => Some(None),
            Some(n) => match parse_u32(n) {
                None => Some(None),
                Some(number) => if !(1 <= number <= 999) {
                    None
                } else {
                    Some(Some(heal_call(message, speaker, is_you, number, g2)))
                },
            },
        }
    }
}

/// What an RCH shape's groups say, as `ch_groups_say`, with a letter slot:
/// letters that name no slot try the next shape.
pub open spec fn rch_groups_say(tag: Seq<char>, message: Seq<char>, speaker: Seq<char>, is_you: bool, g1: Option<Seq<char>>, g2: Option<Seq<char>>) -> Option<Option<CallView>> {
    if spec_detect_tag(message) != Some(tag) {
        Some(None)
    } else {
        match g1 {
            None => Some(None),
            Some(l) => match crate::command::spec_letter_slot(l) {
                None => None,
                Some(number) => Some(Some(heal_call(message, speaker, is_you, number, g2))),
            },
        }
    }
}

pub open spec fn verdict_view(v: Option<Option<CompleteHealCall>>) -> Option<Option<CallView>> {
    match v {
        None => None,
        Some(c) => Some(opt_call(c)),
    }
}

/// Tries the CH shapes from the `i`th on. A match without our tag ends the
/// search; a number outside 1-999 moves on to the next shape.
pub open spec fn ch_scan(tag: Seq<char>, message: Seq<char>, speaker: Seq<char>, is_you: bool, i: int) -> Option<CallView>
    decreases 2 - i,
{
    if i < 0 || i >= 2 {
        None
    } else {
        match regex_groups(ch_pattern(i), trim(message)) {
            None => ch_scan(tag, message, speaker, is_you, i + 1),
            Some((g1, g2)) => if spec_detect_tag(message) != Some(tag) {
                None
            } else {
                match g1 {
                    None => None,
                    Some(n) => match parse_u32(n) {
                        None => None,
                        Some(number) => if !(1 <= number <= 999) {
                            ch_scan(tag, message, speaker, is_you, i + 1)
                        } else {
                            Some(heal_call(message, speaker, is_you, number, g2))
                        },
                    },
                }
            },
        }
    }
}

/// Tries the rampage shapes from the `i`th on, as `ch_scan` does, with
/// letter slots.
pub open spec fn rch_scan(tag: Seq<char>, message: Seq<char>, speaker: Seq<char>, is_you: bool, i: int) -> Option<CallView>
    decreases 4 - i,
{
    if i < 0 || i >= 4 {
        None
    } else {
        match regex_groups(rch_pattern(i), trim(message)) {
            None => rch_scan(tag, message, speaker, is_you, i + 1),
            Some((g1, g2)) => if spec_detect_tag(message) != Some(tag) {
                None
            } else {
                match g1 {
                    None => None,
                    Some(l) => match crate::command::spec_letter_slot(l) {
                        None => rch_scan(tag, message, speaker, is_you, i + 1),
                        Some(number) => Some(heal_call(message, speaker, is_you, number, g2)),
                    },
                }
            },
        }
    }
}

pub open spec fn opt_call(o: Option<CompleteHealCall>) -> Option<CallView> {
    match o {
        Some(c) => Some(c@),
        None => None,
    }
}

/// Turns regex groups into a heal call for a slot already read.
fn make_call(message: &Vec<char>, speaker: &Vec<char>, is_you: bool, number: u32, g2: &Option<String>) -> (c: CompleteHealCall)
    ensures
        c@ == heal_call(message@, speaker@, is_you, number, opt_view(*g2)),
{
    let target = match g2 {
        Some(t) => {
            let tv = chars_of(t.as_str());
            let s = sanitize_target(&tv);
            string_of(&s)
        },
        None => String::new(),
    };
    let tag = match detect_tag(message) {
        Some(t) => Some(string_of(&t)),
        None => None,
    };
    CompleteHealCall {
        speaker: string_of(speaker),
        is_you,
        number,
        target,
        tag,
        raw: string_of(message),
    }
}

/// Reads the groups a CH shape captured: `None` to try the next shape, else
/// the answer for the line.
pub fn ch_groups(tag: &Vec<char>, message: &Vec<char>, speaker: &Vec<char>, is_you: bool, g1: &Option<String>, g2: &Option<String>) -> (r: Option<Option<CompleteHealCall>>)
    ensures
        verdict_view(r) == ch_groups_say(tag@, message@, speaker@, is_you, opt_view(*g1), opt_view(*g2)),
{
    let accepted = match detect_tag(message) {
        Some(t) => seq_eq(&t, tag),
        None => false,
    };
    if !accepted {
        return Some(None);
    }
    let n = match g1 {
        None => {
            return Some(None);
        },
        Some(n) => n,
    };
    let nv = chars_of(n.as_str());
    match parse_u32_of(&nv) {
        None => Some(None),
        Some(number) => {
            if 1 <= number && number <= 999 {
                Some(Some(make_call(message, speaker, is_you, number, g2)))
            } else {
                None
            }
        },
    }
}

/// Reads the groups an RCH shape captured, as `ch_groups` does.
pub fn rch_groups(tag: &Vec<char>, message: &Vec<char>, speaker: &Vec<char>, is_you: bool, g1: &Option<String>, g2: &Option<String>) -> (r: Option<Option<CompleteHealCall>>)
    ensures
        verdict_view(r) == rch_groups_say(tag@, message@, speaker@, is_you, opt_view(*g1), opt_view(*g2)),
{
    let accepted = match detect_tag(message) {
        Some(t) => seq_eq(&t, tag),
        None => false,
    };
    if !accepted {
        return Some(None);
    }
    let l = match g1 {
        None => {
            return Some(None);
        },
        Some(l) => l,
    };
    let lv = chars_of(l.as_str());
    match crate::command::letter_slot_of(&lv) {
        None => None,
        Some(number) => Some(Some(make_call(message, speaker, is_you, number, g2))),
    }
}

fn ch_message(tag: &Vec<char>, message: &Vec<char>, speaker: &Vec<char>, is_you: bool) -> (r: Option<CompleteHealCall>)
    ensures
        opt_call(r) == ch_scan(tag@, message@, speaker@, is_you, 0),
{
    let trimmed = trim_of(message);
    let text = string_of(&trimmed);
    let mut i: usize = 0;
    while i < 2
        invariant
            i <= 2,
            text@ == trim(message@),
            ch_scan(tag@, message@, speaker@, is_you, 0) == ch_scan(tag@, message@, speaker@, is_you, i as int),
        decreases 2 - i,
    {
        match regex_captures(ch_pattern_str(i), text.as_str()) {
            None => {},
            Some((g1, g2)) => {
                match ch_groups(tag, message, speaker, is_you, &g1, &g2) {
                    Some(answer) => {
                        return answer;
                    },
                    None => {},
                }
            },
        }
        i += 1;
    }
    None
}

fn rch_message(tag: &Vec<char>, message: &Vec<char>, speaker: &Vec<char>, is_you: bool) -> (r: Option<CompleteHealCall>)
    ensures
        opt_call(r) == rch_scan(tag@, message@, speaker@, is_you, 0),
{
    let trimmed = trim_of(message);
    let text = string_of(&trimmed);
    let mut i: usize = 0;
    while i < 4
        invariant
            i <= 4,
            text@ == trim(message@),
            rch_scan(tag@, message@, speaker@, is_you, 0) == rch_scan(tag@, message@, speaker@, is_you, i as int),
        decreases 4 - i,
    {
        match regex_captures(rch_pattern_str(i), text.as_str()) {
            None => {},
            Some((g1, g2)) => {
                match rch_groups(tag, message, speaker, is_you, &g1, &g2) {
                    Some(answer) => {
                        return answer;
                    },
                    None => {},
                }
            },
        }
        i += 1;
    }
    None
}

// ---------------------------------------------------------------- parser

/// What a log line means, for a chain that uses tag `tag`: a chain command,
/// else a rampage macro, else a CH macro, else a macro that looks like ours
/// but did not read, else nothing.
pub open spec fn spec_parse_line(tag: Seq<char>, line: Seq<char>, your_name: Option<Seq<char>>) -> ResultView {
    match spec_chat_line(line, your_name) {
        None => ResultView::Ignored,
        Some(chat) => match spec_chain_command(chat.message) {
            Some((cmd, kind)) => ResultView::Command(cmd, chat.speaker, chat.is_you, kind),
            None => match rch_scan(tag, chat.message, chat.speaker, chat.is_you, 0) {
                Some(call) => ResultView::RampageHeal(call),
                None => match ch_scan(tag, chat.message, chat.speaker, chat.is_you, 0) {
                    Some(call) => ResultView::CompleteHeal(call),
                    None => if spec_looks_like(chat.message, tag, "RCH"@) {
                        ResultView::MalformedHeal {
                            speaker: chat.speaker,
                            message: chat.message,
                            rampage: true,
                        }
                    } else if spec_looks_like(chat.message, tag, "CH"@) {
                        ResultView::MalformedHeal {
                            speaker: chat.speaker,
                            message: chat.message,
                            rampage: false,
                        }
                    } else {
                        ResultView::Ignored
                    },
                },
            },
        },
    }
}

/// Reads log lines for one guild tag.
pub struct Parser {
    chain_tag: String,
}

impl Parser {
    /// The tag that macros must carry.
    pub closed spec fn tag(&self) -> Seq<char> {
        self.chain_tag@
    }

    /// A parser for the default `GG` tag.
    pub fn new() -> (p: Self)
        ensures
            p.tag() == spec_chain_tag("GG"@),
    {
        Self::with_chain_tag("GG")
    }

    pub fn with_chain_tag(tag: &str) -> (p: Self)
        ensures
            p.tag() == spec_chain_tag(tag@),
    {
        Parser { chain_tag: normalize_chain_tag(tag) }
    }

    pub fn set_chain_tag(&mut self, tag: &str)
        ensures
            final(self).tag() == spec_chain_tag(tag@),
    {
        self.chain_tag = normalize_chain_tag(tag);
    }

    pub fn chain_tag(&self) -> (r: &str)
        ensures
            r@ == self.tag(),
    {
        self.chain_tag.as_str()
    }

    /// Reads one log line. `your_name` is the character whose log it is.
    pub fn parse_line(&self, line: &str, your_name: Option<&str>) -> (r: ParseResult)
        ensures
            r@ == spec_parse_line(self.tag(), line@, opt_str(your_name)),
    {
        let chat = match parse_chat_line(line, your_name) {
            None => {
                return ParseResult::Ignored;
            },
            Some(c) => c,
        };
        let message = chars_of(chat.message.as_str());
        match command_of(&message) {
            Some((cmd, kind)) => {
                return ParseResult::Command(cmd, chat.speaker, chat.is_you, kind);
            },
            None => {},
        }
        let tag = chars_of(self.chain_tag.as_str());
        let speaker = chars_of(chat.speaker.as_str());
        match rch_message(&tag, &message, &speaker, chat.is_you) {
            Some(call) => {
                return ParseResult::RampageHeal(call);
            },
            None => {},
        }
        match ch_message(&tag, &message, &speaker, chat.is_you) {
            Some(call) => {
                return ParseResult::CompleteHeal(call);
            },
            None => {},
        }
        if looks_like(&message, &tag, "RCH") {
            ParseResult::MalformedHeal { speaker: chat.speaker, message: chat.message, rampage: true }
        } else if looks_like(&message, &tag, "CH") {
            ParseResult::MalformedHeal { speaker: chat.speaker, message: chat.message, rampage: false }
        } else {
            ParseResult::Ignored
        }
    }
}

// ---------------------------------------------------------------- test lines

/// The channels offered when typing a line by hand.
#[derive(Debug, Clone, Copy, PartialEq, Eq, Structural)]
pub enum TestChannel {
    Shout,
    Ooc,
    Group,
    Guild,
    Auction,
    Raid,
    Say,
}

/// How you say something on a channel, up to the speech.
pub open spec fn you_verb(channel: TestChannel) -> Seq<char> {
    match channel {
        TestChannel::Shout => "You shout, "@,
        TestChannel::Ooc => "You say out of character, "@,
        TestChannel::Group => "You tell the group, "@,
        TestChannel::Guild => "You tell the guild, "@,
        TestChannel::Auction => "You auction, "@,
        TestChannel::Raid => "You tell the raid, "@,
        TestChannel::Say => "You say, "@,
    }
}

/// How someone else says something on a channel, after their name.
pub open spec fn named_verb(channel: TestChannel) -> Seq<char> {
    match channel {
        TestChannel::Shout => " shouts, "@,
        TestChannel::Ooc => " says out of character, "@,
        TestChannel::Group => " tells the group, "@,
        TestChannel::Guild => " tells the guild, "@,
        TestChannel::Auction => " auctions, "@,
        TestChannel::Raid => " tells the raid, "@,
        TestChannel::Say => " says, "@,
    }
}

fn you_verb_str(channel: TestChannel) -> (r: &'static str)
    ensures
        r@ == you_verb(channel),
{
    match channel {
        TestChannel::Shout => "You shout, ",
        TestChannel::Ooc => "You say out of character, ",
        TestChannel::Group => "You tell the group, ",
        TestChannel::Guild => "You tell the guild, ",
        TestChannel::Auction => "You auction, ",
        TestChannel::Raid => "You tell the raid, ",
        TestChannel::Say => "You say, ",
    }
}

fn named_verb_str(channel: TestChannel) -> (r: &'static str)
    ensures
        r@ == named_verb(channel),
{
    match channel {
        TestChannel::Shout => " shouts, ",
        TestChannel::Ooc => " says out of character, ",
        TestChannel::Group => " tells the group, ",
        TestChannel::Guild => " tells the guild, ",
        TestChannel::Auction => " auctions, ",
        TestChannel::Raid => " tells the raid, ",
        TestChannel::Say => " says, ",
    }
}

/// The time stamp put on lines typed by hand.
pub open spec fn test_stamp() -> Seq<char> {
    "[Fri Sep 18 16:27:00 2026] "@
}

/// The speech in single quotes unless it already sits in matching single or
/// double quotes.
pub open spec fn quoted_speech(m: Seq<char>) -> Seq<char> {
    if (m.len() > 0 && m[0] == '\'' && m.last() == '\'') || (m.len() > 0 && m[0] == '"'
        && m.last() == '"') {
        m
    } else {
        seq!['\''] + m + seq!['\'']
    }
}

/// A log line as EverQuest would write it for `speaker` (or `YOU`) saying
/// `message` on `channel`.
pub open spec fn spec_format_test_line(speaker: Seq<char>, channel: TestChannel, message: Seq<char>) -> Result<Seq<char>, Seq<char>> {
    let m = trim(message);
    let sp = trim(speaker);
    let as_you = sp.len() == 0 || eq_ci(sp, "you"@);
    let w = words(sp);
    let name = if w.len() > 0 { w[0] } else { Seq::empty() };
    if m.len() == 0 {
        Err("Type a chat message or command."@)
    } else if !as_you && name.len() == 0 {
        Err("Use YOU or a single character name."@)
    } else if as_you {
        Ok(test_stamp() + you_verb(channel) + quoted_speech(m))
    } else {
        Ok(test_stamp() + name + named_verb(channel) + quoted_speech(m))
    }
}

pub open spec fn result_view(r: Result<String, String>) -> Result<Seq<char>, Seq<char>> {
    match r {
        Ok(s) => Ok(s@),
        Err(e) => Err(e@),
    }
}

fn str_string(s: &str) -> (r: String)
    ensures
        r@ == s@,
{
    let v = chars_of(s);
    string_of(&v)
}

/// Builds a log line for the tester window.
pub fn format_test_log_line(speaker: &str, channel: TestChannel, message: &str) -> (r: Result<String, String>)
    ensures
        result_view(r) == spec_format_test_line(speaker@, channel, message@),
{
    let mv = chars_of(message);
    let m = trim_of(&mv);
    let sv = chars_of(speaker);
    let sp = trim_of(&sv);
    let as_you = sp.len() == 0 || eq_ignore_case_str(&sp, "you");
    let w = split_words(&sp);
    let name: Vec<char> = if w.len() > 0 {
        w[0].clone()
    } else {
        Vec::new()
    };
    assert(name@ == (if words(sp@).len() > 0 { words(sp@)[0] } else { Seq::empty() }));
    if m.len() == 0 {
        return Err(str_string("Type a chat message or command."));
    }
    if !as_you && name.len() == 0 {
        return Err(str_string("Use YOU or a single character name."));
    }
    let n = m.len();
    let mut q: Vec<char> = Vec::new();
    if (m[0] == '\'' && m[n - 1] == '\'') || (m[0] == '"' && m[n - 1] == '"') {
        append_chars(&mut q, &m);
    } else {
        q.push('\'');
        append_chars(&mut q, &m);
        q.push('\'');
    }
    assert(q@ == quoted_speech(m@));
    let mut line = chars_of("[Fri Sep 18 16:27:00 2026] ");
    if as_you {
        append_str(&mut line, you_verb_str(channel));
    } else {
        append_chars(&mut line, &name);
        append_str(&mut line, named_verb_str(channel));
    }
    append_chars(&mut line, &q);
    Ok(string_of(&line))
}

} // verus!
