//! Scripted demo raids: log lines that Alfred feeds to itself, with the
//! delay before each one.
use vstd::prelude::*;

use crate::parser::TestChannel;
use crate::text::{append_chars, append_str, chars_of, dec, dec_of, pad3, pad3_of, seq_eq, string_of};

verus! {

/// A complete heal takes this long to cast, in milliseconds.
pub const CAST_MS: u64 = 10_000;

pub const MAX_CLERICS: usize = 24;

pub const MAX_MINUTES: u32 = 30;

/// How the raid scenario paces the things that happen mid-chain.
pub const JOIN_LEAD_MS: u64 = 8_000;

const SKIP_FIRST_MS: u64 = 25_000;

const SKIP_EVERY_MS: u64 = 35_000;

const BACK_AFTER_MS: u64 = 18_000;

/// The latest moment a script line may be asked for.
pub const LATEST_MS: u64 = 0x100_0000_0000;

/// A scripted line that Alfred feeds to itself as if it came from the game log.
#[derive(Debug, Clone)]
pub struct DemoStep {
    pub delay_ms: u64,
    pub note: String,
    pub speaker: String,
    pub channel: TestChannel,
    pub message: String,
}

/// Roster and length for the scenarios that take them.
#[derive(Debug, Clone, Copy)]
pub struct DemoOptions {
    /// On the chain when the pull starts.
    pub clerics: usize,
    /// Where the roster ends up once the latecomers have taken numbers.
    pub max_clerics: usize,
    /// How long the CH chain itself runs, not counting taking numbers.
    pub minutes: u32,
}

impl Default for DemoOptions {
    fn default() -> (o: Self)
        ensures
            o.clerics == 8,
            o.max_clerics == 20,
            o.minutes == 4,
    {
        DemoOptions { clerics: 8, max_clerics: 20, minutes: 4 }
    }
}

pub open spec fn clamp(v: int, lo: int, hi: int) -> int {
    if v < lo {
        lo
    } else if v > hi {
        hi
    } else {
        v
    }
}

impl DemoOptions {
    /// Options that a raid can run with: one to 24 clerics at the pull, a
    /// roster at least that big and at most 24, one to 30 minutes.
    pub open spec fn is_normal(self) -> bool {
        &&& 1 <= self.clerics <= MAX_CLERICS
        &&& self.clerics <= self.max_clerics <= MAX_CLERICS
        &&& 1 <= self.minutes <= MAX_MINUTES
    }

    pub fn normalized(self) -> (o: Self)
        ensures
            o.clerics == clamp(self.clerics as int, 1, MAX_CLERICS as int),
            o.max_clerics == clamp(self.max_clerics as int, o.clerics as int, MAX_CLERICS as int),
            o.minutes == clamp(self.minutes as int, 1, MAX_MINUTES as int),
            o.is_normal(),
    {
        let clerics = if self.clerics < 1 {
            1
        } else if self.clerics > MAX_CLERICS {
            MAX_CLERICS
        } else {
            self.clerics
        };
        let max_clerics = if self.max_clerics < clerics {
            clerics
        } else if self.max_clerics > MAX_CLERICS {
            MAX_CLERICS
        } else {
            self.max_clerics
        };
        let minutes = if self.minutes < 1 {
            1
        } else if self.minutes > MAX_MINUTES {
            MAX_MINUTES
        } else {
            self.minutes
        };
        DemoOptions { clerics, max_clerics, minutes }
    }
}

/// The tightest pace, in tenths of a second, that a chain of this many
/// clerics can hold: the cast split between them, rounded up to a tenth,
/// never under a second. No clerics means the whole cast time.
pub open spec fn spec_tenths(clerics: nat) -> nat {
    if clerics == 0 {
        100
    } else {
        let t = (99 + clerics) / clerics;
        if t < 10 {
            10
        } else {
            t
        }
    }
}

pub fn interval_tenths(clerics: usize) -> (t: u64)
    ensures
        t == spec_tenths(clerics as nat),
        10 <= t <= 100,
{
    if clerics == 0 {
        return 100;
    }
    let c = clerics as u64;
    let t = if c >= 100 { 1 } else { (100 + c - 1) / c };
    proof {
        if c >= 100 {
            assert((100 + c - 1) / (c as int) == 1) by (nonlinear_arith)
                requires
                    c >= 100,
            ;
        } else {
            assert((100 + c - 1) / (c as int) <= 100) by (nonlinear_arith)
                requires
                    1 <= c < 100,
            ;
        }
    }
    if t < 10 {
        10
    } else {
        t
    }
}

/// A chain paced this way never asks a cleric back before the cast lands.
pub proof fn lemma_pace_covers_the_cast(clerics: nat)
    requires
        clerics >= 1,
    ensures
        spec_tenths(clerics) * 100 * clerics >= CAST_MS,
{
    let x = (99 + clerics) as int;
    let d = clerics as int;
    let q = x / d;
    vstd::arithmetic::div_mod::lemma_fundamental_div_mod(x, d);
    vstd::arithmetic::div_mod::lemma_mod_pos_bound(x, d);
    assert(q * d >= 100) by (nonlinear_arith)
        requires
            x == d * q + x % d,
            0 <= x % d < d,
            x == 99 + d,
    ;
    let t = spec_tenths(clerics) as int;
    assert(t >= q);
    assert(t * 100 * d >= 10000) by (nonlinear_arith)
        requires
            t >= q,
            q * d >= 100,
            d >= 1,
    ;
}

fn interval_ms(clerics: usize) -> (ms: u64)
    ensures
        ms == spec_tenths(clerics as nat) * 100,
        1000 <= ms <= 10_000,
{
    interval_tenths(clerics) * 100
}

fn cycle_ms(clerics: usize) -> (ms: u64)
    requires
        clerics <= MAX_CLERICS,
    ensures
        ms == spec_tenths(clerics as nat) * 100 * clerics,
        ms <= 240_000,
{
    let i = interval_ms(clerics);
    assert(i * clerics <= 240_000) by (nonlinear_arith)
        requires
            i <= 10_000,
            clerics <= 24,
    ;
    i * clerics as u64
}

/// A pace in tenths written as `f64` prints it: `2.5`, `10`, `3.4`.
pub open spec fn tenths_text(t: nat) -> Seq<char> {
    if t % 10 == 0 {
        dec(t / 10)
    } else {
        dec(t / 10) + seq!['.'] + dec(t % 10)
    }
}

fn tenths_chars(t: u64) -> (r: Vec<char>)
    ensures
        r@ == tenths_text(t as nat),
{
    let mut r = dec_of(t / 10);
    if t % 10 != 0 {
        r.push('.');
        let d = dec_of(t % 10);
        append_chars(&mut r, &d);
    }
    r
}

/// A growing line of text.
struct Text {
    chars: Vec<char>,
}

impl Text {
    fn new() -> (t: Text)
        ensures
            t.chars@ == Seq::<char>::empty(),
    {
        Text { chars: Vec::new() }
    }

    fn s(&mut self, s: &str)
        ensures
            final(self).chars@ == old(self).chars@ + s@,
    {
        append_str(&mut self.chars, s);
    }

    fn n(&mut self, n: u64)
        ensures
            final(self).chars@ == old(self).chars@ + dec(n as nat),
    {
        let d = dec_of(n);
        append_chars(&mut self.chars, &d);
    }

    fn slot(&mut self, n: u32)
        ensures
            final(self).chars@ == old(self).chars@ + pad3(n as nat),
    {
        let d = pad3_of(n as u64);
        append_chars(&mut self.chars, &d);
    }

    fn letters(&mut self, n: u32)
        ensures
            final(self).chars@ == old(self).chars@ + rch_slot_text(n as nat),
    {
        let d = rch_slot_chars(n);
        append_chars(&mut self.chars, &d);
    }

    fn pace(&mut self, clerics: usize)
        ensures
            final(self).chars@ == old(self).chars@ + tenths_text(spec_tenths(clerics as nat)),
    {
        let d = tenths_chars(interval_tenths(clerics));
        append_chars(&mut self.chars, &d);
    }

    fn done(self) -> (s: String)
        ensures
            s@ == self.chars@,
    {
        string_of(&self.chars)
    }
}

fn str_string(s: &str) -> (r: String)
    ensures
        r@ == s@,
{
    let v = chars_of(s);
    string_of(&v)
}

/// The note for a chain of this many clerics: `12 clerics on a 10s CH, so
/// 1s apart`.
pub open spec fn pace_note_text(clerics: nat) -> Seq<char> {
    dec(clerics) + " clerics on a 10s CH, so "@ + tenths_text(spec_tenths(clerics)) + "s apart"@
}

/// `12 clerics on a 10s CH, so 1s apart`.
fn pace_note(clerics: usize) -> (r: String)
    ensures
        r@ == pace_note_text(clerics as nat),
{
    let mut t = Text::new();
    t.n(clerics as u64);
    t.s(" clerics on a 10s CH, so ");
    t.pace(clerics);
    t.s("s apart");
    t.done()
}

/// The rampage letters for a slot: `AAA` for 1 up to `ZZZ` for 26; anything
/// past 26 is `ZZZ` and 0 is `AAA`.
pub open spec fn rch_slot_text(number: nat) -> Seq<char> {
    let idx: nat = if number == 0 { 0 } else if number - 1 > 25 { 25 } else { (number - 1) as nat };
    let c = (65 + idx) as char;
    seq![c, c, c]
}

fn rch_slot_chars(number: u32) -> (r: Vec<char>)
    ensures
        r@ == rch_slot_text(number as nat),
{
    let idx: u32 = if number == 0 { 0 } else if number - 1 > 25 { 25 } else { number - 1 };
    let c = ((65 + idx) as u8) as char;
    let mut r: Vec<char> = Vec::new();
    r.push(c);
    r.push(c);
    r.push(c);
    r
}

/// `001`, `014`, `123`: a CH slot as macros write it.
pub fn ch_slot(number: u32) -> (s: String)
    ensures
        s@ == pad3(number as nat),
{
    let d = pad3_of(number as u64);
    string_of(&d)
}

pub fn rch_slot(number: u32) -> (s: String)
    ensures
        s@ == rch_slot_text(number as nat),
{
    let d = rch_slot_chars(number);
    string_of(&d)
}

/// Only the raid takes a roster and a length.
pub fn is_configurable(id: &str) -> (b: bool)
    ensures
        b == (id@ == "raid"@),
{
    let v = chars_of(id);
    crate::text::seq_eq_str(&v, "raid")
}

// ---------------------------------------------------------------- script

/// The line every scenario opens with, so it can be replayed any time.
pub open spec fn is_reset_step(step: DemoStep) -> bool {
    &&& step.delay_ms == 400
    &&& step.speaker@ == "Alfredbot"@
    &&& step.channel == TestChannel::Guild
    &&& step.message@ == "!reset-chain"@
}

/// How long after the start the first `n` steps have all gone out.
pub open spec fn elapsed(steps: Seq<DemoStep>, n: int) -> int
    decreases n,
{
    if n <= 0 || n > steps.len() {
        0
    } else {
        elapsed(steps, n - 1) + steps[n - 1].delay_ms
    }
}

/// When step `k` goes out, counted from the start of the scenario.
pub open spec fn step_time(steps: Seq<DemoStep>, k: int) -> int {
    elapsed(steps, k + 1)
}

/// Shouted lines are the heals: a CH or RCH macro, readable or not.
pub open spec fn is_shout(step: DemoStep) -> bool {
    step.channel == TestChannel::Shout
}

/// Nobody shouts a heal again before the last one they shouted has landed.
pub open spec fn heals_land(steps: Seq<DemoStep>) -> bool {
    forall|i: int, j: int|
        #![trigger step_time(steps, i), step_time(steps, j)]
        0 <= i < j < steps.len() && is_shout(steps[i]) && is_shout(steps[j]) && steps[i].speaker@
            == steps[j].speaker@ ==> step_time(steps, j) >= step_time(steps, i) + CAST_MS
}

/// The line `m` opens with `p`.
pub open spec fn opens_with(m: Seq<char>, p: Seq<char>) -> bool {
    p.is_prefix_of(m)
}

/// What the chain pull walks through, in this order: the opening takes: you on 001, two clerics on the next free numbers, 004 by hand, then the start.
pub open spec fn shows_chain(steps: Seq<DemoStep>) -> bool {
    exists|i0: int, i1: int, i2: int, i3: int, i4: int| 0 <= i0 < i1 < i2 < i3 < i4 < steps.len() && #[trigger] says(steps[i0], "YOU"@, "!take 001"@) && #[trigger] says(steps[i1], "Portlia"@, "!take"@) && #[trigger] says(steps[i2], "Bellamere"@, "!take"@) && #[trigger] says(steps[i3], "Curaja"@, "!take 004"@) && #[trigger] says(steps[i4], "Raidlead"@, "!startchain"@)
}

/// What the laggy pull walks through, in this order: a cleric who missed turns is pulled out and the chain re-paced for three, then he is back, the chain re-paced for four, and he heals on the beat.
pub open spec fn shows_laggy(steps: Seq<DemoStep>) -> bool {
    exists|i0: int, i1: int, i2: int, i3: int, i4: int| 0 <= i0 < i1 < i2 < i3 < i4 < steps.len() && #[trigger] says(steps[i0], "Raidlead"@, "!skip 003"@) && #[trigger] says(steps[i1], "Raidlead"@, "!chain "@ + tenths_text(spec_tenths(3))) && #[trigger] says(steps[i2], "Dunkin"@, "!back 003"@) && #[trigger] says(steps[i3], "Raidlead"@, "!chain "@ + tenths_text(spec_tenths(4))) && #[trigger] says(steps[i4], "Dunkin"@, heal_line("003"@, "CH"@, "Mluian"@))
}

/// What the wrongtank pull walks through, in this order: an off tank is named and 003 and up split to it, both chains are paced at two, armed, and the off tank called again.
pub open spec fn shows_wrongtank(steps: Seq<DemoStep>) -> bool {
    exists|i0: int, i1: int, i2: int, i3: int, i4: int| 0 <= i0 < i1 < i2 < i3 < i4 < steps.len() && #[trigger] says(steps[i0], "Raidlead"@, "!ot Beefwich"@) && #[trigger] says(steps[i1], "Raidlead"@, "!split 003"@) && #[trigger] says(steps[i2], "Raidlead"@, "!chain "@ + tenths_text(spec_tenths(2))) && #[trigger] says(steps[i3], "Raidlead"@, "!startchain"@) && #[trigger] says(steps[i4], "Raidlead"@, "!ot Beefwich"@)
}

/// What the tankswap pull walks through, in this order: the chain starts on Mluian and the lead then makes Beefwich the main tank.
pub open spec fn shows_tankswap(steps: Seq<DemoStep>) -> bool {
    exists|i0: int, i1: int| 0 <= i0 < i1 < steps.len() && #[trigger] says(steps[i0], "Raidlead"@, "!startchain"@) && #[trigger] says(steps[i1], "Raidlead"@, "!mt Beefwich"@)
}

/// What the offtank pull walks through, in this order: a running chain gets an off tank, 003 and up split to it and both halves are paced at two; the add dies, the off tank goes and the chain is paced at four again.
pub open spec fn shows_offtank(steps: Seq<DemoStep>) -> bool {
    exists|i0: int, i1: int, i2: int, i3: int, i4: int, i5: int| 0 <= i0 < i1 < i2 < i3 < i4 < i5 < steps.len() && #[trigger] says(steps[i0], "Raidlead"@, "!startchain"@) && #[trigger] says(steps[i1], "Raidlead"@, "!ot Beefwich"@) && #[trigger] says(steps[i2], "Raidlead"@, "!split 003"@) && #[trigger] says(steps[i3], "Raidlead"@, "!chain "@ + tenths_text(spec_tenths(2))) && #[trigger] says(steps[i4], "Raidlead"@, "!untank Beefwich"@) && #[trigger] says(steps[i5], "Raidlead"@, "!chain "@ + tenths_text(spec_tenths(4)))
}

/// What the split pull walks through, in this order: an off tank is named and 005 and up split to it, you and Portlia take 001 and 002, Bellamere and Curaja 005 and 006, the chain is paced at two and armed.
pub open spec fn shows_split(steps: Seq<DemoStep>) -> bool {
    exists|i0: int, i1: int, i2: int, i3: int, i4: int, i5: int, i6: int, i7: int| 0 <= i0 < i1 < i2 < i3 < i4 < i5 < i6 < i7 < steps.len() && #[trigger] says(steps[i0], "Raidlead"@, "!ot Beefwich"@) && #[trigger] says(steps[i1], "Raidlead"@, "!split 005"@) && #[trigger] says(steps[i2], "YOU"@, "!take 001"@) && #[trigger] says(steps[i3], "Portlia"@, "!take 002"@) && #[trigger] says(steps[i4], "Bellamere"@, "!take 005"@) && #[trigger] says(steps[i5], "Curaja"@, "!take 006"@) && #[trigger] says(steps[i6], "Raidlead"@, "!chain "@ + tenths_text(spec_tenths(2))) && #[trigger] says(steps[i7], "Raidlead"@, "!startchain"@)
}

/// What the rampage pull walks through, in this order: a rampage tank, the rampage chain paced for three, letters AAA to CCC taken, then the start.
pub open spec fn shows_rampage(steps: Seq<DemoStep>) -> bool {
    exists|i0: int, i1: int, i2: int, i3: int, i4: int, i5: int| 0 <= i0 < i1 < i2 < i3 < i4 < i5 < steps.len() && #[trigger] says(steps[i0], "Raidlead"@, "!rt Mluian"@) && #[trigger] says(steps[i1], "Raidlead"@, "!rchain "@ + tenths_text(spec_tenths(3))) && #[trigger] says(steps[i2], "YOU"@, "!take AAA"@) && #[trigger] says(steps[i3], "Portlia"@, "!take BBB"@) && #[trigger] says(steps[i4], "Bellamere"@, "!take CCC"@) && #[trigger] says(steps[i5], "Raidlead"@, "!startchain"@)
}

/// What the rampagetank pull walks through, in this order: a main and a rampage tank, both chains paced for three, then the start.
pub open spec fn shows_rampagetank(steps: Seq<DemoStep>) -> bool {
    exists|i0: int, i1: int, i2: int, i3: int, i4: int| 0 <= i0 < i1 < i2 < i3 < i4 < steps.len() && #[trigger] says(steps[i0], "Raidlead"@, "!mt Mluian"@) && #[trigger] says(steps[i1], "Raidlead"@, "!rt Grendel"@) && #[trigger] says(steps[i2], "Raidlead"@, "!chain "@ + tenths_text(spec_tenths(3))) && #[trigger] says(steps[i3], "Raidlead"@, "!rchain "@ + tenths_text(spec_tenths(3))) && #[trigger] says(steps[i4], "Raidlead"@, "!startchain"@)
}

/// What the collision pull walks through, in this order: numbers collide: Portlia asks for your 001, then takes the next free one, Bellamere asks for 002 and settles on 003, the lead signs Curaja up for 004; once running, Bellamere shouts your number before you cast your own.
pub open spec fn shows_collision(steps: Seq<DemoStep>) -> bool {
    exists|i0: int, i1: int, i2: int, i3: int, i4: int, i5: int, i6: int, i7: int, i8: int| 0 <= i0 < i1 < i2 < i3 < i4 < i5 < i6 < i7 < i8 < steps.len() && #[trigger] says(steps[i0], "YOU"@, "!take 001"@) && #[trigger] says(steps[i1], "Portlia"@, "!take 001"@) && #[trigger] says(steps[i2], "Portlia"@, "!take"@) && #[trigger] says(steps[i3], "Bellamere"@, "!take 002"@) && #[trigger] says(steps[i4], "Bellamere"@, "!take 003"@) && #[trigger] says(steps[i5], "Raidlead"@, "!take 004 Curaja"@) && #[trigger] says(steps[i6], "Raidlead"@, "!startchain"@) && #[trigger] says(steps[i7], "Bellamere"@, heal_line("001"@, "CH"@, "Mluian"@)) && #[trigger] says(steps[i8], "YOU"@, heal_line("001"@, "CH"@, "Mluian"@))
}

/// What the latejoin pull walks through, in this order: you take 001 mid-pull and heal behind the shouters before any pace is called; the lead then paces four, starts, and you open the fresh clock.
pub open spec fn shows_latejoin(steps: Seq<DemoStep>) -> bool {
    exists|i0: int, i1: int, i2: int, i3: int, i4: int| 0 <= i0 < i1 < i2 < i3 < i4 < steps.len() && #[trigger] says(steps[i0], "YOU"@, "!take 001"@) && #[trigger] says(steps[i1], "YOU"@, heal_line("001"@, "CH"@, "Mluian"@)) && #[trigger] says(steps[i2], "Raidlead"@, "!chain "@ + tenths_text(spec_tenths(4))) && #[trigger] says(steps[i3], "Raidlead"@, "!startchain"@) && #[trigger] says(steps[i4], "YOU"@, heal_line("001"@, "CH"@, "Mluian"@))
}

/// What the thin pull walks through, in this order: two clerics start; one goes down and the chain is paced for one; a third runs in, the fallen one is back, and the chain is paced for three.
pub open spec fn shows_thin(steps: Seq<DemoStep>) -> bool {
    exists|i0: int, i1: int, i2: int, i3: int, i4: int, i5: int, i6: int, i7: int| 0 <= i0 < i1 < i2 < i3 < i4 < i5 < i6 < i7 < steps.len() && #[trigger] says(steps[i0], "YOU"@, "!take 001"@) && #[trigger] says(steps[i1], "Portlia"@, "!take 002"@) && #[trigger] says(steps[i2], "Raidlead"@, "!startchain"@) && #[trigger] says(steps[i3], "Portlia"@, "!skip 002"@) && #[trigger] says(steps[i4], "Raidlead"@, "!chain "@ + tenths_text(spec_tenths(1))) && #[trigger] says(steps[i5], "Bellamere"@, "!take 003"@) && #[trigger] says(steps[i6], "Portlia"@, "!back 002"@) && #[trigger] says(steps[i7], "Raidlead"@, "!chain "@ + tenths_text(spec_tenths(3)))
}

/// What the collapse pull walks through, in this order: five clerics are paced and started, and the lead calls the chain off once too few are left.
pub open spec fn shows_collapse(steps: Seq<DemoStep>) -> bool {
    exists|i0: int, i1: int, i2: int| 0 <= i0 < i1 < i2 < steps.len() && #[trigger] says(steps[i0], "Raidlead"@, "!chain "@ + tenths_text(spec_tenths(5))) && #[trigger] says(steps[i1], "Raidlead"@, "!startchain"@) && #[trigger] says(steps[i2], "Raidlead"@, "!stopchain"@)
}

/// What the macros pull walks through, in this order: after a clean heal of yours three macros Alfred cannot read go out, a CH with no number, a CH with the number after the spell and an RCH with no letter; then you and Portlia heal cleanly again.
pub open spec fn shows_macros(steps: Seq<DemoStep>) -> bool {
    exists|i0: int, i1: int, i2: int, i3: int, i4: int, i5: int| 0 <= i0 < i1 < i2 < i3 < i4 < i5 < steps.len() && #[trigger] says(steps[i0], "YOU"@, heal_line("001"@, "CH"@, "Mluian"@)) && #[trigger] says(steps[i1], "Portlia"@, "GG CH -- Mluian"@) && #[trigger] says(steps[i2], "Bellamere"@, "GG CH 003 -- Mluian"@) && #[trigger] says(steps[i3], "Curaja"@, "GG RCH -- Grendel"@) && #[trigger] says(steps[i4], "YOU"@, heal_line("001"@, "CH"@, "Mluian"@)) && #[trigger] says(steps[i5], "Portlia"@, heal_line("002"@, "CH"@, "Mluian"@))
}

/// A heal as the clerics shout it: `GG {slot} {macro} -- {target}`.
pub open spec fn heal_line(slot: Seq<char>, macro_name: Seq<char>, target: Seq<char>) -> Seq<char> {
    "GG "@ + slot + " "@ + macro_name + " -- "@ + target
}

/// `step` is `speaker` saying `message`.
pub open spec fn says(step: DemoStep, speaker: Seq<char>, message: Seq<char>) -> bool {
    step.speaker@ == speaker && step.message@ == message
}

/// The slips the mistakes pull walks through: a cleric asks for a number
/// someone already took, you heal the wrong target, and a heal goes out in a
/// macro Alfred cannot read; then 002 sits out, the lead re-paces the two
/// left, 002 comes back and the lead re-paces the three.
pub open spec fn shows_mistakes(steps: Seq<DemoStep>) -> bool {
    &&& exists|i: int, j: int|
        0 <= i < j < steps.len() && #[trigger] says(steps[i], "YOU"@, "!take 001"@) && #[trigger] says(
            steps[j],
            "Dunkin"@,
            "!take 001"@,
        )
    &&& exists|k: int|
        0 <= k < steps.len() && is_shout(steps[k]) && #[trigger] says(
            steps[k],
            "YOU"@,
            heal_line("001"@, "CH"@, "Beefwich"@),
        )
    &&& exists|k: int|
        0 <= k < steps.len() && is_shout(steps[k]) && #[trigger] says(steps[k], "Dunkin"@, "GG CH -- Mluian"@)
    &&& exists|a: int, b: int, c: int, d: int|
        0 <= a < b < c < d < steps.len() && #[trigger] says(steps[a], "Portlia"@, "!skip 002"@) && #[trigger] says(
            steps[b],
            "Raidlead"@,
            "!chain "@ + tenths_text(spec_tenths(2)),
        ) && #[trigger] says(steps[c], "Portlia"@, "!back 002"@) && #[trigger] says(
            steps[d],
            "Raidlead"@,
            "!chain "@ + tenths_text(spec_tenths(3)),
        )
}

/// What the shuffle pull walks through: once the chain runs the lead swaps
/// you with 004, sits 003 out for a heal and brings them back, and you then
/// heal from 004; then the board is wiped and the chain started afresh.
pub open spec fn shows_shuffle(steps: Seq<DemoStep>) -> bool {
    &&& exists|a: int, b: int, c: int, d: int|
        0 <= a < b < c < d < steps.len() && #[trigger] is_start_call(steps[a]) && #[trigger] says(
            steps[b],
            "Raidlead"@,
            "!move 001 004"@,
        ) && #[trigger] says(steps[c], "Raidlead"@, "!skip 003"@) && #[trigger] says(
            steps[d],
            "Bellamere"@,
            "!back 003"@,
        )
    &&& exists|k: int|
        0 <= k < steps.len() && is_shout(steps[k]) && #[trigger] says(
            steps[k],
            "YOU"@,
            heal_line("004"@, "CH"@, "Mluian"@),
        )
    &&& exists|r: int, t: int|
        0 < r < t < steps.len() && #[trigger] says(steps[r], "Raidlead"@, "!reset-chain"@)
            && #[trigger] is_start_call(steps[t])
}

proof fn lemma_start_line(step: DemoStep)
    requires
        step.message@ == "!startchain"@,
    ensures
        is_start_call(step),
{
    let m = step.message@;
    assert(m =~= m.subrange(0, m.len() as int));
}

/// `m` calls a pace of `t` tenths of a second: `!chain {pace}` or
/// `!rchain {pace}`, perhaps followed by a space and a tank.
pub open spec fn calls_pace(m: Seq<char>, t: nat) -> bool {
    exists|head: Seq<char>, rest: Seq<char>|
        (head == "!chain "@ || head == "!rchain "@) && #[trigger] (head + tenths_text(t) + rest) == m && (rest.len()
            == 0 || rest[0] == ' ')
}

/// `m` calls a pace of a second or slower.
pub open spec fn pace_ok(m: Seq<char>) -> bool {
    exists|t: nat| t >= 10 && #[trigger] calls_pace(m, t)
}

/// A line that does not open with `!c` or `!rc` cannot call a pace.
pub open spec fn plainly_not_pace(m: Seq<char>) -> bool {
    m.len() >= 3 && (m[0] != '!' || (m[1] != 'c' && m[1] != 'r') || (m[1] == 'r' && m[2] != 'c'))
}

/// A line the script may hold: no pace, or a pace of a second or slower.
pub open spec fn line_ok(m: Seq<char>) -> bool {
    plainly_not_pace(m) || pace_ok(m)
}

/// No pace the lead calls is under a second.
pub open spec fn paces_hold(steps: Seq<DemoStep>) -> bool {
    forall|k: int| 0 <= k < steps.len() && #[trigger] is_pace_call(steps[k]) ==> pace_ok(steps[k].message@)
}

proof fn lemma_not_pace(m: Seq<char>)
    requires
        plainly_not_pace(m),
    ensures
        !opens_with(m, "!chain"@),
        !opens_with(m, "!rchain"@),
{
    reveal_strlit("!chain");
    reveal_strlit("!rchain");
    if m[0] != '!' {
        lemma_differs(m, "!chain"@, 0);
        lemma_differs(m, "!rchain"@, 0);
    } else if m[1] != 'c' && m[1] != 'r' {
        lemma_differs(m, "!chain"@, 1);
        lemma_differs(m, "!rchain"@, 1);
    } else {
        lemma_differs(m, "!chain"@, 1);
        lemma_differs(m, "!rchain"@, 2);
    }
}

proof fn lemma_paces_push(s: Seq<DemoStep>, x: DemoStep)
    requires
        paces_hold(s),
        line_ok(x.message@),
    ensures
        paces_hold(s.push(x)),
{
    if plainly_not_pace(x.message@) {
        lemma_not_pace(x.message@);
    }
    let t = s.push(x);
    assert forall|k: int| 0 <= k < t.len() && #[trigger] is_pace_call(t[k]) implies pace_ok(t[k].message@) by {
        if k < s.len() {
            assert(t[k] == s[k]);
        }
    }
}

/// `!rchain {pace}` calls a pace of a second or slower.
proof fn lemma_rchain_pace(m: Seq<char>, clerics: nat)
    requires
        m == "!rchain "@ + tenths_text(spec_tenths(clerics)),
    ensures
        pace_ok(m),
{
    let t = spec_tenths(clerics);
    let e = Seq::<char>::empty();
    assert("!rchain "@ + tenths_text(t) + e == m);
    assert(calls_pace(m, t));
}

/// A cleric takes a number.
pub open spec fn is_take_call(step: DemoStep) -> bool {
    opens_with(step.message@, "!take"@)
}

/// How many of `steps` take a number.
pub open spec fn count_takes(steps: Seq<DemoStep>) -> nat
    decreases steps.len(),
{
    if steps.len() == 0 {
        0
    } else {
        count_takes(steps.drop_last()) + if is_take_call(steps.last()) {
            1nat
        } else {
            0nat
        }
    }
}

/// The numbers taken, in the order they were taken.
pub open spec fn take_lines(steps: Seq<DemoStep>) -> Seq<Seq<char>>
    decreases steps.len(),
{
    if steps.len() == 0 {
        Seq::empty()
    } else if is_take_call(steps.last()) {
        take_lines(steps.drop_last()).push(steps.last().message@)
    } else {
        take_lines(steps.drop_last())
    }
}

/// `!take 001` up to `!take {n}`, in order.
pub open spec fn take_roll(n: nat) -> Seq<Seq<char>> {
    Seq::new(n, |k: int| "!take "@ + pad3((k + 1) as nat))
}

/// A line that does not open with `!t` takes no number.
pub open spec fn plainly_not_take(m: Seq<char>) -> bool {
    m.len() >= 2 && (m[0] != '!' || m[1] != 't')
}

/// Another line keeps the roll of numbers taken, or adds the next one.
proof fn lemma_roll(s0: Seq<DemoStep>, s: Seq<DemoStep>, n: nat)
    requires
        take_lines(s0) == take_roll(n),
        s == s0.push(s.last()),
        plainly_not_take(s.last().message@) || s.last().message@ == "!take "@ + pad3(n + 1),
    ensures
        plainly_not_take(s.last().message@) ==> take_lines(s) == take_roll(n),
        !plainly_not_take(s.last().message@) ==> take_lines(s) == take_roll(n + 1),
        s.last().message@ == "!take "@ + pad3(n + 1) ==> take_lines(s) == take_roll(n + 1),
{
    let m = s.last().message@;
    reveal_strlit("!take ");
    if m == "!take "@ + pad3(n + 1) {
        assert(m[0] == '!' && m[1] == 't');
    }
    assert(s.drop_last() =~= s0);
    if plainly_not_take(m) {
        reveal_strlit("!take");
        lemma_differs(m, "!take"@, if m[0] != '!' { 0 } else { 1 });
    } else {
        lemma_take_line(pad3(n + 1));
        assert(take_roll(n + 1) =~= take_roll(n).push(m));
    }
}

/// `001` is written for no other number below a hundred.
proof fn lemma_pad3_one(n: nat)
    requires
        2 <= n < 100,
    ensures
        pad3(n) != pad3(1),
{
    let one = pad3(1);
    assert(crate::text::dec(1) == seq![crate::text::digit_char(1)]);
    assert(one[2] == crate::text::digit_char(1));
    if n < 10 {
        assert(pad3(n)[2] == crate::text::digit_char(n));
        assert((crate::text::digit_char(n) as u32) != (crate::text::digit_char(1) as u32));
    } else {
        let d = crate::text::dec(n);
        assert(crate::text::dec(n / 10) == seq![crate::text::digit_char(n / 10)]);
        assert(d.len() == 2);
        assert(pad3(n)[1] == crate::text::digit_char(n / 10));
        assert(one[1] == '0');
        assert((crate::text::digit_char(n / 10) as u32) != ('0' as u32));
    }
}

/// In a roll of numbers taken, only the first is `!take 001`.
pub proof fn lemma_roll_takes_one_once(n: nat)
    requires
        1 <= n < 99,
    ensures
        take_roll(n)[0] == "!take "@ + "001"@,
        forall|k: int| 1 <= k < n ==> #[trigger] take_roll(n)[k] != "!take "@ + "001"@,
{
    reveal_strlit("001");
    reveal_strlit("!take ");
    assert(crate::text::dec(1) == seq![crate::text::digit_char(1)]);
    assert(pad3(1) =~= "001"@);
    assert forall|k: int| 1 <= k < n implies #[trigger] take_roll(n)[k] != "!take "@ + "001"@ by {
        lemma_pad3_one((k + 1) as nat);
        let a = "!take "@ + pad3((k + 1) as nat);
        let b = "!take "@ + pad3(1);
        if a == b {
            assert(a.subrange(6, a.len() as int) =~= pad3((k + 1) as nat));
            assert(b.subrange(6, b.len() as int) =~= pad3(1));
        }
    }
}

/// A cleric joins, sits out or comes back: a `!take`, `!skip` or `!back`.
pub open spec fn is_seat_change(step: DemoStep) -> bool {
    opens_with(step.message@, "!take"@) || opens_with(step.message@, "!skip"@) || opens_with(step.message@, "!back"@)
}

/// From step `from` on, every change to who is on the chain is followed at
/// once by the lead calling a new pace.
pub open spec fn repaced_after(steps: Seq<DemoStep>, from: int) -> bool {
    forall|k: int|
        from <= k < steps.len() && #[trigger] is_seat_change(steps[k]) ==> k + 1 < steps.len() && is_pace_call(
            steps[k + 1],
        )
}

/// A line that opens with neither `!t`, `!sk` nor `!b` changes no seat.
pub open spec fn plainly_no_change(m: Seq<char>) -> bool {
    m.len() >= 3 && (m[0] != '!' || (m[1] != 't' && m[1] != 's' && m[1] != 'b') || (m[1] == 's' && m[2] != 'k'))
}

proof fn lemma_no_change(step: DemoStep)
    requires
        plainly_no_change(step.message@),
    ensures
        !is_seat_change(step),
{
    let m = step.message@;
    reveal_strlit("!take");
    reveal_strlit("!skip");
    reveal_strlit("!back");
    if m[0] != '!' {
        lemma_differs(m, "!take"@, 0);
        lemma_differs(m, "!skip"@, 0);
        lemma_differs(m, "!back"@, 0);
    } else if m[1] != 't' && m[1] != 's' && m[1] != 'b' {
        lemma_differs(m, "!take"@, 1);
        lemma_differs(m, "!skip"@, 1);
        lemma_differs(m, "!back"@, 1);
    } else {
        lemma_differs(m, "!take"@, 1);
        lemma_differs(m, "!skip"@, 2);
        lemma_differs(m, "!back"@, 1);
    }
}

/// A line that changes no seat keeps every change re-paced.
proof fn lemma_repaced_keeps(s0: Seq<DemoStep>, s: Seq<DemoStep>, from: int)
    requires
        0 <= from,
        repaced_after(s0, from),
        s == s0.push(s.last()),
        plainly_no_change(s.last().message@),
    ensures
        repaced_after(s, from),
{
    lemma_no_change(s.last());
    let x = s.last();
    assert forall|k: int| from <= k < s.len() && #[trigger] is_seat_change(s[k]) implies k + 1 < s.len()
        && is_pace_call(s[k + 1]) by {
        assert(k < s0.len());
        assert(s0.push(x)[k] == s0[k]);
        if k + 1 < s0.len() {
            assert(s0.push(x)[k + 1] == s0[k + 1]);
        }
    }
}

/// A change followed at once by a new pace keeps every change re-paced.
proof fn lemma_repaced_pair(s0: Seq<DemoStep>, s1: Seq<DemoStep>, s: Seq<DemoStep>, from: int)
    requires
        0 <= from,
        repaced_after(s0, from),
        s1 == s0.push(s1.last()),
        s == s1.push(s.last()),
        is_pace_call(s.last()),
        plainly_no_change(s.last().message@),
    ensures
        repaced_after(s, from),
{
    lemma_no_change(s.last());
    let x = s1.last();
    let y = s.last();
    assert forall|k: int| from <= k < s.len() && #[trigger] is_seat_change(s[k]) implies k + 1 < s.len()
        && is_pace_call(s[k + 1]) by {
        if k < s0.len() {
            assert(s0.push(x).push(y)[k] == s0[k]);
            if k + 1 < s0.len() {
                assert(s0.push(x).push(y)[k + 1] == s0[k + 1]);
            }
        }
    }
}

/// The longest a raid round runs: a full rotation, at most 24 s, plus a
/// second each for a latecomer and for a skip or return.
pub const ROUND_MS: u64 = 26_000;

/// How far apart the raid's latecomers are due: the first 70% of the pull,
/// less the lead-in, shared out between them, and never under four seconds.
pub open spec fn spec_join_every(o: DemoOptions) -> int {
    let budget = o.minutes * 60_000int;
    let joiners = o.max_clerics - o.clerics;
    let spread = if budget * 7 / 10 > JOIN_LEAD_MS { budget * 7 / 10 - JOIN_LEAD_MS } else { 0 };
    let each = spread / joiners;
    if each > 4_000 { each } else { 4_000 }
}

/// The gap a latecomer can fall behind the one before: the schedule's, or a
/// round when rounds run longer.
pub open spec fn join_gap(o: DemoOptions) -> int {
    if spec_join_every(o) > ROUND_MS { spec_join_every(o) } else { ROUND_MS as int }
}

/// The pull is long enough for every latecomer: the last one is in, a round
/// after his turn at the latest, before the pull's time runs out.
pub open spec fn all_join(o: DemoOptions) -> bool {
    let joiners = o.max_clerics - o.clerics;
    joiners == 0 || JOIN_LEAD_MS + (joiners - 1) * join_gap(o) + ROUND_MS < o.minutes * 60_000int
}

/// A full rotation of `c` clerics at their pace lasts at most 24 s.
proof fn lemma_rotation_bound(c: nat)
    requires
        1 <= c <= 24,
    ensures
        spec_tenths(c) * 100 * c <= 24_000,
{
    let t = (99 + c) / c;
    assert(t * c <= 99 + c) by (nonlinear_arith)
        requires
            t == (99 + c) / c,
            c >= 1,
    ;
    if t < 10 {
        assert(10 * c <= 240);
    } else {
        assert(c <= 11) by (nonlinear_arith)
            requires
                t == (99 + c) / c,
                t >= 10,
                c >= 1,
        ;
    }
    assert(spec_tenths(c) * c <= 240);
    assert(spec_tenths(c) * 100 * c <= 24_000) by (nonlinear_arith)
        requires
            spec_tenths(c) * c <= 240,
    ;
}

/// How the raid opens: the reset, the tank, the pace, then the `n` clerics on
/// the chain at the pull take 001 up to `n` in roster order, and the chain is
/// first started right after, so exactly `n` takes come before it.
pub open spec fn raid_opening(steps: Seq<DemoStep>, n: int, you_at: int) -> bool {
    &&& 3 + n < steps.len()
    &&& forall|k: int|
        0 <= k < n ==> #[trigger] says(steps[3 + k], roster_name(k, you_at), "!take "@ + pad3((k + 1) as nat))
    &&& is_start_call(steps[3 + n])
    &&& forall|q: int| 0 <= q < 3 + n ==> !#[trigger] is_start_call(steps[q])
    &&& count_takes(steps.take(3 + n)) == n
}

proof fn lemma_count_push(s: Seq<DemoStep>, x: DemoStep)
    ensures
        count_takes(s.push(x)) == count_takes(s) + if is_take_call(x) {
            1nat
        } else {
            0nat
        },
{
    assert(s.push(x).drop_last() =~= s);
}

proof fn lemma_take_line(slot: Seq<char>)
    ensures
        opens_with("!take "@ + slot, "!take"@),
{
    reveal_strlit("!take ");
    reveal_strlit("!take");
    assert("!take"@ =~= ("!take "@ + slot).subrange(0, 5));
}

/// The reset, the tank call and the pace take no number and start nothing.
proof fn lemma_raid_head(s: Seq<DemoStep>)
    requires
        s.len() == 3,
        is_reset_step(s[0]),
        s[1].message@ == "!mt Mluian"@,
        is_pace_call(s[2]),
        !is_start_call(s[2]),
    ensures
        count_takes(s) == 0,
        take_lines(s) == take_roll(0),
        forall|q: int| 0 <= q < 3 ==> !#[trigger] is_start_call(s[q]),
{
    reveal_strlit("!take");
    reveal_strlit("!reset-chain");
    reveal_strlit("!mt Mluian");
    reveal_strlit("!chain");
    reveal_strlit("!rchain");
    lemma_reset_not_start(s[0]);
    lemma_tank_line(s[1].message@);
    lemma_differs(s[0].message@, "!take"@, 1);
    lemma_differs(s[1].message@, "!take"@, 1);
    let m = s[2].message@;
    if opens_with(m, "!chain"@) {
        assert(m[1] == m.subrange(0, 6)[1]);
    } else {
        assert(m[1] == m.subrange(0, 7)[1]);
    }
    lemma_differs(m, "!take"@, 1);
    let e = Seq::<DemoStep>::empty();
    assert(s =~= e.push(s[0]).push(s[1]).push(s[2]));
    assert(count_takes(e) == 0);
    lemma_count_push(e, s[0]);
    lemma_count_push(e.push(s[0]), s[1]);
    lemma_count_push(e.push(s[0]).push(s[1]), s[2]);
    assert(take_lines(e) =~= take_roll(0));
    assert(plainly_not_take(s[0].message@));
    assert(plainly_not_take(s[1].message@));
    assert(plainly_not_take(s[2].message@));
    lemma_roll(e, e.push(s[0]), 0);
    lemma_roll(e.push(s[0]), e.push(s[0]).push(s[1]), 0);
    lemma_roll(e.push(s[0]).push(s[1]), s, 0);
}

/// The lead names a main or rampage tank.
pub open spec fn is_tank_call(step: DemoStep) -> bool {
    opens_with(step.message@, "!mt"@) || opens_with(step.message@, "!rt"@)
}

/// The lead calls a pace for a CH or RCH chain.
pub open spec fn is_pace_call(step: DemoStep) -> bool {
    opens_with(step.message@, "!chain"@) || opens_with(step.message@, "!rchain"@)
}

pub open spec fn is_start_call(step: DemoStep) -> bool {
    opens_with(step.message@, "!startchain"@)
}

pub open spec fn is_stop_call(step: DemoStep) -> bool {
    opens_with(step.message@, "!stopchain"@)
}

/// A tank is named, and a pace is called before the chain is first started.
pub open spec fn opened(steps: Seq<DemoStep>) -> bool {
    &&& exists|k: int| 0 <= k < steps.len() && #[trigger] is_tank_call(steps[k])
    &&& exists|p: int|
        0 <= p < steps.len() && #[trigger] is_pace_call(steps[p]) && forall|q: int|
            0 <= q < p ==> !#[trigger] is_start_call(steps[q])
}

/// A pull the lead runs properly: it names a tank, paces the chain before
/// starting it, and stops the chain.
pub open spec fn framed(steps: Seq<DemoStep>) -> bool {
    &&& opened(steps)
    &&& exists|k: int| 0 <= k < steps.len() && #[trigger] is_stop_call(steps[k])
}

/// What every scenario hands back: it opens by clearing the panels, the lead
/// names a tank, paces the chain before starting it and stops it, no pace is
/// under a second, and each cleric's heals sit a full cast apart.
pub open spec fn is_scenario(steps: Seq<DemoStep>) -> bool {
    &&& steps.len() >= 1
    &&& is_reset_step(steps[0])
    &&& framed(steps)
    &&& paces_hold(steps)
    &&& heals_land(steps)
}

proof fn lemma_opened_push(s: Seq<DemoStep>, x: DemoStep)
    requires
        opened(s),
    ensures
        opened(s.push(x)),
{
    let t = s.push(x);
    let k = choose|k: int| 0 <= k < s.len() && #[trigger] is_tank_call(s[k]);
    assert(t[k] == s[k]);
    let p = choose|p: int|
        0 <= p < s.len() && #[trigger] is_pace_call(s[p]) && forall|q: int| 0 <= q < p ==> !#[trigger] is_start_call(s[q]);
    assert(t[p] == s[p]);
    assert forall|q: int| 0 <= q < p implies !#[trigger] is_start_call(t[q]) by {
        assert(t[q] == s[q]);
    }
}

/// `m` does not open with `p` where they differ at `i`.
proof fn lemma_differs(m: Seq<char>, p: Seq<char>, i: int)
    requires
        0 <= i < p.len(),
        i < m.len(),
        m[i] != p[i],
    ensures
        !opens_with(m, p),
{
    if opens_with(m, p) {
        assert(m.subrange(0, p.len() as int)[i] == m[i]);
    }
}

/// A line that does not open with `!st` cannot start the chain.
pub open spec fn plainly_not_start(m: Seq<char>) -> bool {
    m.len() >= 3 && (m[0] != '!' || m[1] != 's' || m[2] != 't')
}

proof fn lemma_not_start(m: Seq<char>)
    requires
        plainly_not_start(m),
    ensures
        !opens_with(m, "!startchain"@),
{
    reveal_strlit("!startchain");
    if m[0] != '!' {
        lemma_differs(m, "!startchain"@, 0);
    } else if m[1] != 's' {
        lemma_differs(m, "!startchain"@, 1);
    } else {
        lemma_differs(m, "!startchain"@, 2);
    }
}

/// Nothing has started the chain yet, and a tank has been named.
pub open spec fn prelude(steps: Seq<DemoStep>) -> bool {
    &&& forall|q: int| 0 <= q < steps.len() ==> !#[trigger] is_start_call(steps[q])
    &&& exists|k: int| 0 <= k < steps.len() && #[trigger] is_tank_call(steps[k])
}

/// Another line that does not start the chain keeps the prelude going.
proof fn lemma_quiet(s0: Seq<DemoStep>, s: Seq<DemoStep>)
    requires
        prelude(s0),
        s == s0.push(s.last()),
        !is_start_call(s.last()) || plainly_not_start(s.last().message@),
    ensures
        prelude(s),
{
    if !is_start_call(s.last()) {
    } else {
        lemma_not_start(s.last().message@);
    }
    let k = choose|k: int| 0 <= k < s0.len() && #[trigger] is_tank_call(s0[k]);
    assert(s[k] == s0[k]);
    assert forall|q: int| 0 <= q < s.len() implies !#[trigger] is_start_call(s[q]) by {
        if q < s0.len() {
            assert(s[q] == s0[q]);
        }
    }
}

/// A pace called during the prelude opens the pull.
proof fn lemma_opens(s0: Seq<DemoStep>, s: Seq<DemoStep>)
    requires
        prelude(s0),
        s == s0.push(s.last()),
        is_pace_call(s.last()),
    ensures
        opened(s),
{
    let k = choose|k: int| 0 <= k < s0.len() && #[trigger] is_tank_call(s0[k]);
    assert(s[k] == s0[k]);
    let p = s0.len() as int;
    assert(is_pace_call(s[p]));
    assert forall|q: int| 0 <= q < p implies !#[trigger] is_start_call(s[q]) by {
        assert(s[q] == s0[q]);
    }
}

proof fn lemma_rchain_line(step: DemoStep, x: Seq<char>)
    requires
        step.message@ == "!rchain "@ + x,
    ensures
        is_pace_call(step),
        plainly_not_start(step.message@),
{
    reveal_strlit("!rchain ");
    reveal_strlit("!rchain");
    assert("!rchain"@ =~= step.message@.subrange(0, 7));
}

/// The tank calls the scenarios make name a tank and do not start the chain.
proof fn lemma_tank_line(m: Seq<char>)
    requires
        m == "!mt Mluian"@ || m == "!mt Beefwich"@ || m == "!rt Mluian"@ || m == "!rt Grendel"@,
    ensures
        opens_with(m, "!mt"@) || opens_with(m, "!rt"@),
        !opens_with(m, "!startchain"@),
{
    reveal_strlit("!mt Mluian");
    reveal_strlit("!mt Beefwich");
    reveal_strlit("!rt Mluian");
    reveal_strlit("!rt Grendel");
    reveal_strlit("!mt");
    reveal_strlit("!rt");
    if m[1] == 'm' {
        assert("!mt"@ =~= m.subrange(0, 3));
    } else {
        assert("!rt"@ =~= m.subrange(0, 3));
    }
    lemma_not_start(m);
}

proof fn lemma_reset_not_start(step: DemoStep)
    requires
        is_reset_step(step),
    ensures
        !is_start_call(step),
{
    reveal_strlit("!reset-chain");
    lemma_not_start(step.message@);
}

/// The reset and a tank call.
proof fn lemma_prelude(s: Seq<DemoStep>)
    requires
        s.len() == 2,
        is_reset_step(s[0]),
        s[1].message@ == "!mt Mluian"@ || s[1].message@ == "!rt Mluian"@,
    ensures
        prelude(s),
{
    lemma_reset_not_start(s[0]);
    lemma_tank_line(s[1].message@);
    assert(is_tank_call(s[1]));
    assert forall|q: int| 0 <= q < 2 implies !#[trigger] is_start_call(s[q]) by {}
}

/// The usual opening: the reset, a tank call, then the pace.
proof fn lemma_opening(s: Seq<DemoStep>)
    requires
        s.len() == 3,
        is_reset_step(s[0]),
        s[1].message@ == "!mt Mluian"@,
        is_pace_call(s[2]),
    ensures
        opened(s),
{
    lemma_reset_not_start(s[0]);
    lemma_tank_line(s[1].message@);
    assert(is_tank_call(s[1]));
    assert forall|q: int| 0 <= q < 2 implies !#[trigger] is_start_call(s[q]) by {}
}

/// A pull that was opened and ends on `!stopchain` is framed.
proof fn lemma_stopped(s: Seq<DemoStep>)
    requires
        s.len() >= 1,
        opened(s),
        s.last().message@ == "!stopchain"@,
    ensures
        framed(s),
{
    let m = s.last().message@;
    assert(m =~= m.subrange(0, m.len() as int));
    assert(is_stop_call(s[s.len() - 1]));
}


proof fn lemma_elapsed_push(s: Seq<DemoStep>, x: DemoStep, n: int)
    requires
        0 <= n <= s.len(),
    ensures
        elapsed(s.push(x), n) == elapsed(s, n),
    decreases n,
{
    if n > 0 {
        lemma_elapsed_push(s, x, n - 1);
    }
}

proof fn lemma_elapsed_last(s: Seq<DemoStep>, x: DemoStep)
    ensures
        elapsed(s.push(x), s.len() + 1int) == elapsed(s, s.len() as int) + x.delay_ms,
{
    lemma_elapsed_push(s, x, s.len() as int);
}

/// The longest a single line may run ahead of the script clock.
const STEP_MS: u64 = 0x10_0000;

/// The most lines a script holds.
const MAX_STEPS: usize = 0x10_0000;

/// The heal a cleric was last seen casting at this time or later.
spec fn cast_logged(last: Seq<(Vec<char>, u64)>, name: Seq<char>, t: int) -> bool {
    exists|e: int| 0 <= e < last.len() && (#[trigger] last[e]).0@ == name && t <= last[e].1
}

/// `after` keeps every cleric `before` had, each with the same or a later time.
spec fn log_grows(before: Seq<(Vec<char>, u64)>, after: Seq<(Vec<char>, u64)>) -> bool {
    &&& after.len() >= before.len()
    &&& forall|e: int|
        0 <= e < before.len() ==> (#[trigger] after[e]).0@ == before[e].0@ && after[e].1 >= before[e].1
}

proof fn lemma_logged_grows(before: Seq<(Vec<char>, u64)>, after: Seq<(Vec<char>, u64)>, name: Seq<char>, t: int)
    requires
        log_grows(before, after),
        cast_logged(before, name, t),
    ensures
        cast_logged(after, name, t),
{
    let e = choose|e: int| 0 <= e < before.len() && (#[trigger] before[e]).0@ == name && t <= before[e].1;
    assert(after[e].0@ == name);
}

/// Builds a scenario on an absolute clock and turns it into per-step delays.
/// Shouts are held back until the caster's last complete heal has finished.
struct Script {
    now_ms: u64,
    last_cast: Vec<(Vec<char>, u64)>,
    steps: Vec<DemoStep>,
}

impl Script {
    spec fn wf(&self) -> bool {
        let s = self.steps@;
        let last = self.last_cast@;
        &&& s.len() >= 1
        &&& is_reset_step(s[0])
        &&& s.len() <= MAX_STEPS
        &&& elapsed(s, s.len() as int) == self.now_ms
        &&& self.now_ms <= LATEST_MS + s.len() * STEP_MS
        &&& forall|e: int| 0 <= e < last.len() ==> (#[trigger] last[e]).1 <= self.now_ms
        &&& forall|k: int|
            0 <= k < s.len() && is_shout(s[k]) ==> #[trigger] cast_logged(last, s[k].speaker@, step_time(s, k))
        &&& heals_land(s)
        &&& paces_hold(s)
    }

    /// Room for another line at this time.
    spec fn fits(&self, at_ms: u64) -> bool {
        &&& self.steps@.len() < MAX_STEPS
        &&& (at_ms <= LATEST_MS || at_ms <= self.now_ms + STEP_MS)
    }

    fn new() -> (s: Script)
        ensures
            s.wf(),
            s.now_ms == 400,
            s.steps@.len() == 1,
    {
        let step = DemoStep {
            delay_ms: 400,
            note: str_string("Clearing whatever was on the panels"),
            speaker: str_string("Alfredbot"),
            channel: TestChannel::Guild,
            message: str_string("!reset-chain"),
        };
        let mut steps: Vec<DemoStep> = Vec::new();
        steps.push(step);
        let s = Script { now_ms: 400, last_cast: Vec::new(), steps };
        assert(elapsed(s.steps@, 1) == 400) by {
            assert(elapsed(s.steps@, 0) == 0);
        }
        proof {
            reveal_strlit("!reset-chain");
            lemma_not_pace(s.steps@[0].message@);
        }
        s
    }

    /// Appends a line at `at_ms`, or right behind the line ahead of it.
    fn push_line(&mut self, at_ms: u64, step: DemoStep)
        requires
            old(self).wf(),
            old(self).steps@.len() < MAX_STEPS,
            at_ms >= old(self).now_ms,
            at_ms <= LATEST_MS + (old(self).steps@.len() + 1) * STEP_MS,
            step.delay_ms == at_ms - old(self).now_ms,
            !is_shout(step),
            line_ok(step.message@),
        ensures
            final(self).wf(),
            final(self).now_ms == at_ms,
            final(self).steps@ == old(self).steps@.push(step),
            final(self).last_cast == old(self).last_cast,
            opened(old(self).steps@) ==> opened(final(self).steps@),
    {
        let ghost s0 = self.steps@;
        self.steps.push(step);
        self.now_ms = at_ms;
        proof {
            let s = self.steps@;
            if opened(s0) {
                lemma_opened_push(s0, step);
            }
            lemma_paces_push(s0, step);
            lemma_elapsed_last(s0, step);
            assert forall|k: int| 0 <= k < s.len() && is_shout(s[k]) implies #[trigger] cast_logged(
                self.last_cast@,
                s[k].speaker@,
                step_time(s, k),
            ) by {
                lemma_elapsed_push(s0, step, k + 1);
                assert(s[k] == s0[k]);
                assert(step_time(s0, k) == step_time(s, k));
            }
            assert forall|i: int, j: int|
                #![trigger step_time(s, i), step_time(s, j)]
                0 <= i < j < s.len() && is_shout(s[i]) && is_shout(s[j]) && s[i].speaker@
                    == s[j].speaker@ implies step_time(s, j) >= step_time(s, i) + CAST_MS by {
                lemma_elapsed_push(s0, step, i + 1);
                lemma_elapsed_push(s0, step, j + 1);
                assert(s[i] == s0[i] && s[j] == s0[j]);
                assert(step_time(s0, i) == step_time(s, i));
                assert(step_time(s0, j) == step_time(s, j));
            }
        }
    }

    /// Returns when the line actually goes out, which is never before the line
    /// ahead of it.
    fn say_string(&mut self, at_ms: u64, note: String, speaker: String, channel: TestChannel, message: String) -> (r: u64)
        requires
            old(self).wf(),
            old(self).fits(at_ms),
            channel != TestChannel::Shout,
            line_ok(message@),
        ensures
            final(self).wf(),
            r == if at_ms > old(self).now_ms { at_ms } else { old(self).now_ms },
            final(self).now_ms == r,
            final(self).steps@.len() == old(self).steps@.len() + 1,
            final(self).steps@ == old(self).steps@.push(final(self).steps@.last()),
            final(self).steps@.last().message@ == message@,
            final(self).steps@.last().speaker@ == speaker@,
            opened(old(self).steps@) ==> opened(final(self).steps@),
    {
        let at = if at_ms > self.now_ms { at_ms } else { self.now_ms };
        let step = DemoStep { delay_ms: at - self.now_ms, note, speaker, channel, message };
        self.push_line(at, step);
        at
    }

    fn say(&mut self, at_ms: u64, note: &str, speaker: &str, channel: TestChannel, message: String) -> (r: u64)
        requires
            old(self).wf(),
            old(self).fits(at_ms),
            channel != TestChannel::Shout,
            line_ok(message@),
        ensures
            final(self).wf(),
            r == if at_ms > old(self).now_ms { at_ms } else { old(self).now_ms },
            final(self).now_ms == r,
            final(self).steps@.len() == old(self).steps@.len() + 1,
            final(self).steps@ == old(self).steps@.push(final(self).steps@.last()),
            final(self).steps@.last().message@ == message@,
            final(self).steps@.last().speaker@ == speaker@,
            opened(old(self).steps@) ==> opened(final(self).steps@),
    {
        self.say_string(at_ms, str_string(note), str_string(speaker), channel, message)
    }

    fn command(&mut self, at_ms: u64, note: &str, speaker: &str, message: &str)
        requires
            old(self).wf(),
            old(self).fits(at_ms),
            plainly_not_pace(message@),
        ensures
            final(self).wf(),
            final(self).now_ms == if at_ms > old(self).now_ms { at_ms } else { old(self).now_ms },
            final(self).steps@.len() == old(self).steps@.len() + 1,
            final(self).steps@ == old(self).steps@.push(final(self).steps@.last()),
            final(self).steps@.last().message@ == message@,
            final(self).steps@.last().speaker@ == speaker@,
            opened(old(self).steps@) ==> opened(final(self).steps@),
    {
        self.say(at_ms, note, speaker, TestChannel::Guild, str_string(message));
    }

    fn command_text(&mut self, at_ms: u64, note: String, speaker: &str, message: String)
        requires
            old(self).wf(),
            old(self).fits(at_ms),
            plainly_not_pace(message@),
        ensures
            final(self).wf(),
            final(self).now_ms == if at_ms > old(self).now_ms { at_ms } else { old(self).now_ms },
            final(self).steps@.len() == old(self).steps@.len() + 1,
            final(self).steps@ == old(self).steps@.push(final(self).steps@.last()),
            final(self).steps@.last().message@ == message@,
            final(self).steps@.last().speaker@ == speaker@,
            opened(old(self).steps@) ==> opened(final(self).steps@),
    {
        self.say_string(at_ms, note, str_string(speaker), TestChannel::Guild, message);
    }

    /// The lead calls the pace for this many clerics, optionally for one tank.
    fn pace(&mut self, at_ms: u64, clerics: usize, tank: Option<&str>)
        requires
            old(self).wf(),
            old(self).fits(at_ms),
        ensures
            final(self).wf(),
            final(self).now_ms == if at_ms > old(self).now_ms { at_ms } else { old(self).now_ms },
            final(self).steps@.len() == old(self).steps@.len() + 1,
            final(self).steps@ == old(self).steps@.push(final(self).steps@.last()),
            is_pace_call(final(self).steps@.last()),
            !is_start_call(final(self).steps@.last()),
            final(self).steps@.last().speaker@ == "Raidlead"@,
            tank is None ==> final(self).steps@.last().message@ == "!chain "@ + tenths_text(spec_tenths(clerics as nat)),
            plainly_not_take(final(self).steps@.last().message@),
            plainly_no_change(final(self).steps@.last().message@),
            opened(old(self).steps@) ==> opened(final(self).steps@),
    {
        let mut m = Text::new();
        m.s("!chain ");
        proof {
            reveal_strlit("!chain ");
            reveal_strlit("!chain");
        }
        let ghost head = m.chars@;
        m.pace(clerics);
        let ghost paced = m.chars@;
        let mut note = Text::new();
        match tank {
            Some(t) => {
                m.s(" ");
                m.s(t);
                note.s(t);
                note.s(": ");
            },
            None => {},
        }
        let pn = pace_note(clerics);
        note.s(pn.as_str());
        let message = m.done();
        proof {
            let mm = message@;
            assert(mm.subrange(0, head.len() as int) =~= head);
            assert("!chain"@ =~= mm.subrange(0, 6));
            assert(mm[1] == 'c');
            assert(mm.len() >= 3);
            reveal_strlit(" ");
            let t = spec_tenths(clerics as nat);
            let rest = mm.subrange(paced.len() as int, mm.len() as int);
            assert(head + tenths_text(t) + rest =~= mm);
            assert(rest.len() == 0 || rest[0] == ' ');
            assert(calls_pace(mm, t));
            if tank is None {
                assert(mm =~= "!chain "@ + tenths_text(t));
            }
        }
        self.say_string(at_ms, note.done(), str_string("Raidlead"), TestChannel::Guild, message);
        proof {
            lemma_not_start(self.steps@.last().message@);
        }
    }

    /// When this cleric's last heal lands: no earlier than a full cast after
    /// any time they were seen casting; 0 if they never were.
    fn ready_at(&self, speaker: &Vec<char>) -> (r: u64)
        requires
            self.wf(),
        ensures
            r <= self.now_ms + CAST_MS,
            forall|e: int|
                0 <= e < self.last_cast@.len() && (#[trigger] self.last_cast@[e]).0@ == speaker@ ==> r
                    >= self.last_cast@[e].1 + CAST_MS,
    {
        let n = self.last_cast.len();
        let mut r: u64 = 0;
        for i in 0..n
            invariant
                n == self.last_cast@.len(),
                self.wf(),
                r <= self.now_ms + CAST_MS,
                forall|e: int|
                    0 <= e < i && (#[trigger] self.last_cast@[e]).0@ == speaker@ ==> r >= self.last_cast@[e].1
                        + CAST_MS,
        {
            if seq_eq(&self.last_cast[i].0, speaker) {
                let t = self.last_cast[i].1 + CAST_MS;
                if t > r {
                    r = t;
                }
            }
        }
        r
    }

    fn note_cast(&mut self, speaker: Vec<char>, at: u64)
        requires
            forall|e: int| 0 <= e < old(self).last_cast@.len() ==> (#[trigger] old(self).last_cast@[e]).1 <= at,
        ensures
            final(self).now_ms == old(self).now_ms,
            final(self).steps == old(self).steps,
            forall|e: int| 0 <= e < final(self).last_cast@.len() ==> (#[trigger] final(self).last_cast@[e]).1 <= at,
            log_grows(old(self).last_cast@, final(self).last_cast@),
            cast_logged(final(self).last_cast@, speaker@, at as int),
    {
        let n = self.last_cast.len();
        let mut i: usize = 0;
        while i < n
            invariant
                n == self.last_cast@.len(),
                i <= n,
                self.now_ms == old(self).now_ms,
                self.steps == old(self).steps,
                self.last_cast == old(self).last_cast,
                forall|e: int|
                    0 <= e < old(self).last_cast@.len() ==> (#[trigger] old(self).last_cast@[e]).1 <= at,
            decreases n - i,
        {
            if seq_eq(&self.last_cast[i].0, &speaker) {
                let name = self.last_cast[i].0.clone();
                proof {
                    assert(name@ == speaker@);
                }
                self.last_cast.set(i, (name, at));
                proof {
                    assert(self.last_cast@[i as int].0@ == speaker@);
                    assert forall|e: int| 0 <= e < old(self).last_cast@.len() implies (
                    #[trigger] self.last_cast@[e]).0@ == old(self).last_cast@[e].0@ && self.last_cast@[e].1
                        >= old(self).last_cast@[e].1 by {
                        if e == i {
                            assert(old(self).last_cast@[e].1 <= at);
                        }
                    }
                    assert forall|e: int| 0 <= e < self.last_cast@.len() implies (
                    #[trigger] self.last_cast@[e]).1 <= at by {
                        if e != i {
                            assert(self.last_cast@[e] == old(self).last_cast@[e]);
                        }
                    }
                }
                return;
            }
            i += 1;
        }
        self.last_cast.push((speaker, at));
        assert(self.last_cast@[n as int].0@ == speaker@);
    }

    /// A shouted heal, held back until the caster's previous heal has landed.
    fn shout(&mut self, at_ms: u64, note: String, speaker: &str, message: String) -> (r: u64)
        requires
            old(self).wf(),
            old(self).fits(at_ms),
            plainly_not_pace(message@),
        ensures
            final(self).wf(),
            r >= at_ms,
            r >= old(self).now_ms,
            r <= (if at_ms > old(self).now_ms { at_ms } else { old(self).now_ms }) + CAST_MS,
            final(self).now_ms == r,
            final(self).steps@.len() == old(self).steps@.len() + 1,
            final(self).steps@ == old(self).steps@.push(final(self).steps@.last()),
            final(self).steps@.last().message@ == message@,
            final(self).steps@.last().speaker@ == speaker@,
            final(self).steps@.last().channel == TestChannel::Shout,
            opened(old(self).steps@) ==> opened(final(self).steps@),
    {
        let who = chars_of(speaker);
        let ready = self.ready_at(&who);
        let want = if at_ms > ready { at_ms } else { ready };
        let at = if want > self.now_ms { want } else { self.now_ms };
        let step = DemoStep {
            delay_ms: at - self.now_ms,
            note,
            speaker: str_string(speaker),
            channel: TestChannel::Shout,
            message,
        };
        let ghost s0 = self.steps@;
        let ghost last0 = self.last_cast@;
        self.steps.push(step);
        self.now_ms = at;
        self.note_cast(who, at);
        proof {
            let s = self.steps@;
            let last = self.last_cast@;
            let n = s0.len() as int;
            if opened(s0) {
                lemma_opened_push(s0, step);
            }
            lemma_paces_push(s0, step);
            lemma_elapsed_last(s0, step);
            assert(step_time(s, n) == at);
            assert forall|k: int| 0 <= k < s.len() && is_shout(s[k]) implies #[trigger] cast_logged(
                last,
                s[k].speaker@,
                step_time(s, k),
            ) by {
                if k < n {
                    lemma_elapsed_push(s0, step, k + 1);
                    assert(s[k] == s0[k]);
                    assert(cast_logged(last0, s0[k].speaker@, step_time(s0, k)));
                    lemma_logged_grows(last0, last, s[k].speaker@, step_time(s, k));
                } else {
                    assert(s[k].speaker@ == who@);
                }
            }
            assert forall|i: int, j: int|
                #![trigger step_time(s, i), step_time(s, j)]
                0 <= i < j < s.len() && is_shout(s[i]) && is_shout(s[j]) && s[i].speaker@
                    == s[j].speaker@ implies step_time(s, j) >= step_time(s, i) + CAST_MS by {
                lemma_elapsed_push(s0, step, i + 1);
                assert(s[i] == s0[i]);
                assert(step_time(s0, i) == step_time(s, i));
                if j < n {
                    lemma_elapsed_push(s0, step, j + 1);
                    assert(s[j] == s0[j]);
                    assert(step_time(s0, j) == step_time(s, j));
                } else {
                    assert(cast_logged(last0, s0[i].speaker@, step_time(s0, i)));
                    let e = choose|e: int|
                        0 <= e < last0.len() && (#[trigger] last0[e]).0@ == s0[i].speaker@ && step_time(s0, i)
                            <= last0[e].1;
                    assert(last0[e].0@ == who@);
                }
            }
        }
        at
    }

    /// A CH or RCH shout, `GG {slot} {macro} -- {target}`.
    fn cast(&mut self, at_ms: u64, note: String, speaker: &str, slot: &str, macro_name: &str, target: &str) -> (r: u64)
        requires
            old(self).wf(),
            old(self).fits(at_ms),
        ensures
            final(self).wf(),
            r >= at_ms,
            r >= old(self).now_ms,
            r <= (if at_ms > old(self).now_ms { at_ms } else { old(self).now_ms }) + CAST_MS,
            final(self).now_ms == r,
            final(self).steps@.len() == old(self).steps@.len() + 1,
            final(self).steps@ == old(self).steps@.push(final(self).steps@.last()),
            final(self).steps@.last().message@ == heal_line(slot@, macro_name@, target@),
            final(self).steps@.last().channel == TestChannel::Shout,
            plainly_not_take(final(self).steps@.last().message@),
            plainly_no_change(final(self).steps@.last().message@),
            final(self).steps@.last().speaker@ == speaker@,
            !is_start_call(final(self).steps@.last()),
            opened(old(self).steps@) ==> opened(final(self).steps@),
    {
        let mut m = Text::new();
        m.s("GG ");
        m.s(slot);
        m.s(" ");
        m.s(macro_name);
        m.s(" -- ");
        m.s(target);
        let message = m.done();
        proof {
            reveal_strlit("GG ");
            assert(message@[0] == 'G');
        }
        let r = self.shout(at_ms, note, speaker, message);
        proof {
            reveal_strlit("GG ");
            let mm = self.steps@.last().message@;
            assert(mm[0] == 'G');
            assert(mm.len() >= 3);
            lemma_not_start(mm);
        }
        r
    }

    /// A heal whose macro Alfred cannot read. The cleric still cast, so it
    /// waits on the cast time like any other heal.
    fn misfire(&mut self, at_ms: u64, note: &str, speaker: &str, message: &str) -> (r: u64)
        requires
            old(self).wf(),
            old(self).fits(at_ms),
            plainly_not_pace(message@),
        ensures
            final(self).wf(),
            r >= at_ms,
            r >= old(self).now_ms,
            r <= (if at_ms > old(self).now_ms { at_ms } else { old(self).now_ms }) + CAST_MS,
            final(self).now_ms == r,
            final(self).steps@.len() == old(self).steps@.len() + 1,
            final(self).steps@ == old(self).steps@.push(final(self).steps@.last()),
            final(self).steps@.last().message@ == message@,
            final(self).steps@.last().speaker@ == speaker@,
            final(self).steps@.last().channel == TestChannel::Shout,
            opened(old(self).steps@) ==> opened(final(self).steps@),
    {
        self.shout(at_ms, str_string(note), speaker, str_string(message))
    }

    fn finish(self) -> (steps: Vec<DemoStep>)
        requires
            self.wf(),
            framed(self.steps@),
        ensures
            is_scenario(steps@),
            steps@ == self.steps@,
    {
        self.steps
    }
}


// ------------------------------------------------------------- scenarios

fn take_note(player: &str, slot: &str) -> (r: String)
    ensures
        r@ == player@ + " takes "@ + slot@,
{
    let mut t = Text::new();
    t.s(player);
    t.s(" takes ");
    t.s(slot);
    t.done()
}

fn take_message(slot: &str) -> (r: String)
    ensures
        r@ == "!take "@ + slot@,
        plainly_not_start(r@),
        plainly_not_pace(r@),
{
    let mut t = Text::new();
    t.s("!take ");
    t.s(slot);
    proof {
        reveal_strlit("!take ");
        assert(t.chars@[1] == 't');
    }
    t.done()
}

/// `{player}{middle}{slot} on round {round}`.
fn round_note(player: &str, middle: &str, slot: &str, round: u64) -> (r: String)
    ensures
        r@ == player@ + middle@ + slot@ + " on round "@ + dec(round as nat),
{
    let mut t = Text::new();
    t.s(player);
    t.s(middle);
    t.s(slot);
    t.s(" on round ");
    t.n(round);
    t.done()
}

/// `{a}{b}{c}`.
fn note3(a: &str, b: &str, c: &str) -> (r: String)
    ensures
        r@ == a@ + b@ + c@,
{
    let mut t = Text::new();
    t.s(a);
    t.s(b);
    t.s(c);
    t.done()
}

/// `{a}{b}{c}{d}`.
fn note4(a: &str, b: &str, c: &str, d: &str) -> (r: String)
    ensures
        r@ == a@ + b@ + c@ + d@,
{
    let mut t = Text::new();
    t.s(a);
    t.s(b);
    t.s(c);
    t.s(d);
    t.done()
}

/// A length in tenths of a second with one decimal, as `{:.1}` prints it.
fn one_decimal(tenths: u64) -> (r: String)
    ensures
        r@ == dec((tenths / 10) as nat) + "."@ + dec((tenths % 10) as nat),
{
    let mut t = Text::new();
    t.n(tenths / 10);
    t.s(".");
    t.n(tenths % 10);
    t.done()
}

/// `!rchain {pace}` for a rampage chain of this many clerics.
fn rchain_message(clerics: usize) -> (r: String)
    ensures
        r@ == "!rchain "@ + tenths_text(spec_tenths(clerics as nat)),
        pace_ok(r@),
{
    let mut t = Text::new();
    t.s("!rchain ");
    t.pace(clerics);
    let r = t.done();
    proof {
        lemma_rchain_pace(r@, clerics as nat);
    }
    r
}

/// `Rampage: ` and the pace note.
fn rampage_pace_note(clerics: usize) -> (r: String)
    ensures
        r@ == "Rampage: "@ + pace_note_text(clerics as nat),
{
    let mut t = Text::new();
    t.s("Rampage: ");
    let pn = pace_note(clerics);
    t.s(pn.as_str());
    t.done()
}

fn chain_steps() -> (steps: Vec<DemoStep>)
    ensures
        is_scenario(steps@),
        shows_chain(steps@),
{
    let roster: Vec<(&str, u32)> = vec![("YOU", 1u32), ("Portlia", 2), ("Bellamere", 3), ("Curaja", 4)];
    let interval = interval_ms(4);
    let cycle = cycle_ms(4);
    assert(interval == 2500 && cycle == 10_000);
    let mut script = Script::new();

    proof {
        reveal_strlit("!mt Mluian");
    }
    script.command(600, "The raid lead names the main tank", "Raidlead", "!mt Mluian");
    script.pace(1_200, 4, None);
    proof {
        lemma_opening(script.steps@);
    }
    proof {
        reveal_strlit("!take 001");
    }
    script.command(2_000, "You take the first number", "YOU", "!take 001");
    let ghost shown0 = script.steps@.len() - 1;
    proof {
        reveal_strlit("!take");
    }
    script.command(2_600, "Portlia takes the next free number", "Portlia", "!take");
    let ghost shown1 = script.steps@.len() - 1;
    proof {
        reveal_strlit("!take");
    }
    script.command(3_200, "Bellamere takes the next free number", "Bellamere", "!take");
    let ghost shown2 = script.steps@.len() - 1;
    proof {
        reveal_strlit("!take 004");
    }
    script.command(3_800, "Curaja takes 004 by hand", "Curaja", "!take 004");
    let ghost shown3 = script.steps@.len() - 1;
    proof {
        reveal_strlit("!startchain");
    }
    script.command(4_600, "The chain arms and waits for the first CH", "Raidlead", "!startchain");
    let ghost shown4 = script.steps@.len() - 1;

    let first: u64 = 6_000;
    let mut last: u64 = first;
    let ghost kept1 = script.steps@;
    for round in 0..3u64
        invariant
            script.wf(),
            kept1.len() <= script.steps@.len(),
            forall|q: int| 0 <= q < kept1.len() ==> #[trigger] script.steps@[q] == kept1[q],
            opened(script.steps@),
            interval == 2500,
            cycle == 10_000,
            roster@.len() == 4,
            first == 6_000,
            script.steps@.len() == 8 + round * 4,
            round > 0 ==> last <= script.now_ms,
    {
        for index in 0..4usize
            invariant
                script.wf(),
                kept1.len() <= script.steps@.len(),
                forall|q: int| 0 <= q < kept1.len() ==> #[trigger] script.steps@[q] == kept1[q],
                opened(script.steps@),
                interval == 2500,
                cycle == 10_000,
                first == 6_000,
                roster@.len() == 4,
                round < 3,
                script.steps@.len() == 8 + round * 4 + index,
                round > 0 || index > 0 ==> last <= script.now_ms,
        {
            let (player, number) = roster[index];
            // Bellamere runs a little behind on the second round.
            let slack: u64 = if round == 1 && index == 2 { 900 } else { 0 };
            let slot = ch_slot(number);
            let note = if slack > 0 {
                note3(player, " is 0.9s late on ", slot.as_str())
            } else {
                round_note(player, " casts ", slot.as_str(), round + 1)
            };
            last = script.cast(
                first + round * cycle + index as u64 * interval + slack,
                note,
                player,
                slot.as_str(),
                "CH",
                "Mluian",
            );
        }
    }
    proof {
        reveal_strlit("!stopchain");
    }
    script.command(last + 1_500, "The mob is down", "Raidlead", "!stopchain");
    proof {
        lemma_stopped(script.steps@);
        assert(says(script.steps@[shown0], "YOU"@, "!take 001"@));
        assert(says(script.steps@[shown1], "Portlia"@, "!take"@));
        assert(says(script.steps@[shown2], "Bellamere"@, "!take"@));
        assert(says(script.steps@[shown3], "Curaja"@, "!take 004"@));
        assert(says(script.steps@[shown4], "Raidlead"@, "!startchain"@));
    }
    script.finish()
}

#[verifier::spinoff_prover]
#[verifier::rlimit(50)]
fn mistakes_steps() -> (steps: Vec<DemoStep>)
    ensures
        is_scenario(steps@),
        shows_mistakes(steps@),
{
    let interval = interval_ms(3);
    let cycle = cycle_ms(3);
    assert(interval == 3400 && cycle == 10_200);
    let mut script = Script::new();

    proof {
        reveal_strlit("!mt Mluian");
    }
    script.command(600, "Main tank again for a fresh pull", "Raidlead", "!mt Mluian");
    script.pace(1_200, 3, None);
    proof {
        lemma_opening(script.steps@);
    }
    proof {
        reveal_strlit("!take 001");
    }
    script.command(2_000, "You take 001", "YOU", "!take 001");
    let ghost taken = script.steps@.len() - 1;
    proof {
        reveal_strlit("!take 002");
    }
    script.command(2_600, "Portlia takes 002", "Portlia", "!take 002");
    proof {
        reveal_strlit("!take 001");
    }
    script.command(3_400, "Dunkin grabs a number that is already yours — watch the alert", "Dunkin", "!take 001");
    let ghost grabbed = script.steps@.len() - 1;
    proof {
        reveal_strlit("!take 003");
    }
    script.command(4_800, "Dunkin moves to a free number", "Dunkin", "!take 003");
    proof {
        reveal_strlit("!startchain");
    }
    script.command(5_600, "The chain arms", "Raidlead", "!startchain");

    let first: u64 = 7_000;
    script.cast(first, str_string("You open the chain"), "YOU", "001", "CH", "Mluian");
    script.cast(first + interval, str_string("Portlia follows"), "Portlia", "002", "CH", "Mluian");
    script.cast(first + 2 * interval, str_string("Dunkin follows"), "Dunkin", "003", "CH", "Mluian");
    script.cast(
        first + cycle,
        str_string("You CH the wrong target — Alfred calls it out"),
        "YOU",
        "001",
        "CH",
        "Beefwich",
    );
    let ghost wrong = script.steps@.len() - 1;
    script.cast(first + cycle + interval, str_string("Portlia stays on the beat"), "Portlia", "002", "CH", "Mluian");
    proof {
        reveal_strlit("GG CH -- Mluian");
    }
    script.misfire(
        first + cycle + 2 * interval,
        "Dunkin sends a macro Alfred cannot read, so his turn is missed",
        "Dunkin",
        "GG CH -- Mluian",
    );
    let ghost unread = script.steps@.len() - 1;
    script.cast(first + 2 * cycle, str_string("You keep going"), "YOU", "001", "CH", "Mluian");
    script.cast(first + 2 * cycle + interval, str_string("Portlia keeps going"), "Portlia", "002", "CH", "Mluian");
    script.cast(
        first + 2 * cycle + 2 * interval,
        str_string("Dunkin fixes his macro and rejoins"),
        "Dunkin",
        "003",
        "CH",
        "Mluian",
    );

    let short = first + 2 * cycle + 2 * interval + 1_000;
    proof {
        reveal_strlit("!skip 002");
    }
    script.command(short, "Portlia steps out to med", "Portlia", "!skip 002");
    let ghost rests = script.steps@.len() - 1;
    script.pace(short + 700, 2, None);
    let ghost two = script.steps@.len() - 1;

    // Two clerics left, so the survivors stretch to five seconds apart.
    let pair = interval_ms(2);
    let resume = short + 2_400;
    script.cast(resume, str_string("You cover the gap"), "YOU", "001", "CH", "Mluian");
    script.cast(resume + pair, str_string("Dunkin covers the gap"), "Dunkin", "003", "CH", "Mluian");
    let back = script.cast(resume + 2 * pair, str_string("Back to you"), "YOU", "001", "CH", "Mluian");

    proof {
        reveal_strlit("!back 002");
    }
    script.command(back + 900, "Portlia is back", "Portlia", "!back 002");
    let ghost rejoined = script.steps@.len() - 1;
    script.pace(back + 1_600, 3, None);
    let ghost three = script.steps@.len() - 1;
    proof {
        reveal_strlit("!move 001 003");
    }
    script.command(back + 2_400, "The lead swaps two numbers", "Raidlead", "!move 001 003");
    proof {
        reveal_strlit("!stopchain");
    }
    script.command(back + 3_600, "Pull is over", "Raidlead", "!stopchain");
    proof {
        lemma_stopped(script.steps@);
        let s = script.steps@;
        assert(says(s[taken], "YOU"@, "!take 001"@));
        assert(says(s[grabbed], "Dunkin"@, "!take 001"@));
        assert(says(s[wrong], "YOU"@, heal_line("001"@, "CH"@, "Beefwich"@)));
        assert(is_shout(s[wrong]));
        assert(says(s[unread], "Dunkin"@, "GG CH -- Mluian"@));
        assert(is_shout(s[unread]));
        assert(says(s[rests], "Portlia"@, "!skip 002"@));
        assert(says(s[two], "Raidlead"@, "!chain "@ + tenths_text(spec_tenths(2))));
        assert(says(s[rejoined], "Portlia"@, "!back 002"@));
        assert(says(s[three], "Raidlead"@, "!chain "@ + tenths_text(spec_tenths(3))));
    }
    script.finish()
}

fn rampage_steps() -> (steps: Vec<DemoStep>)
    ensures
        is_scenario(steps@),
        shows_rampage(steps@),
{
    let roster: Vec<(&str, u32)> = vec![("YOU", 1u32), ("Portlia", 2), ("Bellamere", 3)];
    let interval = interval_ms(3);
    let cycle = cycle_ms(3);
    assert(interval == 3400 && cycle == 10_200);
    let mut script = Script::new();

    proof {
        reveal_strlit("!rt Mluian");
    }
    script.command(600, "Rampage tank", "Raidlead", "!rt Mluian");
    let ghost shown0 = script.steps@.len() - 1;
    proof {
        lemma_prelude(script.steps@);
    }
    let ghost s0 = script.steps@;
    script.say_string(
        1_200,
        rampage_pace_note(3),
        str_string("Raidlead"),
        TestChannel::Guild,
        rchain_message(3),
    );
    let ghost shown1 = script.steps@.len() - 1;
    proof {
        lemma_rchain_line(script.steps@.last(), tenths_text(spec_tenths(3)));
        lemma_opens(s0, script.steps@);
    }
    proof {
        reveal_strlit("!take AAA");
    }
    script.command(2_000, "You take the first letter", "YOU", "!take AAA");
    let ghost shown2 = script.steps@.len() - 1;
    proof {
        reveal_strlit("!take BBB");
    }
    script.command(2_600, "Portlia takes BBB", "Portlia", "!take BBB");
    let ghost shown3 = script.steps@.len() - 1;
    proof {
        reveal_strlit("!take CCC");
    }
    script.command(3_200, "Bellamere takes CCC", "Bellamere", "!take CCC");
    let ghost shown4 = script.steps@.len() - 1;
    proof {
        reveal_strlit("!startchain");
    }
    script.command(4_000, "Arm both chains", "Raidlead", "!startchain");
    let ghost shown5 = script.steps@.len() - 1;

    let first: u64 = 5_400;
    let mut last: u64 = first;
    let ghost kept1 = script.steps@;
    for round in 0..2u64
        invariant
            script.wf(),
            kept1.len() <= script.steps@.len(),
            forall|q: int| 0 <= q < kept1.len() ==> #[trigger] script.steps@[q] == kept1[q],
            opened(script.steps@),
            interval == 3400,
            cycle == 10_200,
            roster@.len() == 3,
            first == 5_400,
            script.steps@.len() == 7 + round * 3,
            round > 0 ==> last <= script.now_ms,
    {
        for index in 0..3usize
            invariant
                script.wf(),
                kept1.len() <= script.steps@.len(),
                forall|q: int| 0 <= q < kept1.len() ==> #[trigger] script.steps@[q] == kept1[q],
                opened(script.steps@),
                interval == 3400,
                cycle == 10_200,
                first == 5_400,
                roster@.len() == 3,
                round < 2,
                script.steps@.len() == 7 + round * 3 + index,
                round > 0 || index > 0 ==> last <= script.now_ms,
        {
            let (player, number) = roster[index];
            let slot = rch_slot(number);
            last = script.cast(
                first + round * cycle + index as u64 * interval,
                round_note(player, " casts ", slot.as_str(), round + 1),
                player,
                slot.as_str(),
                "RCH",
                "Mluian",
            );
        }
    }
    proof {
        reveal_strlit("!stopchain");
    }
    script.command(last + 1_500, "Rampage is off", "Raidlead", "!stopchain");
    proof {
        lemma_stopped(script.steps@);
        assert(says(script.steps@[shown0], "Raidlead"@, "!rt Mluian"@));
        assert(says(script.steps@[shown1], "Raidlead"@, "!rchain "@ + tenths_text(spec_tenths(3))));
        assert(says(script.steps@[shown2], "YOU"@, "!take AAA"@));
        assert(says(script.steps@[shown3], "Portlia"@, "!take BBB"@));
        assert(says(script.steps@[shown4], "Bellamere"@, "!take CCC"@));
        assert(says(script.steps@[shown5], "Raidlead"@, "!startchain"@));
    }
    script.finish()
}

fn split_steps() -> (steps: Vec<DemoStep>)
    ensures
        is_scenario(steps@),
        shows_split(steps@),
{
    let main: Vec<(&str, u32)> = vec![("YOU", 1u32), ("Portlia", 2)];
    let off: Vec<(&str, u32)> = vec![("Bellamere", 5u32), ("Curaja", 6)];
    let interval = interval_ms(2);
    let cycle = cycle_ms(2);
    assert(interval == 5000 && cycle == 10_000);
    let mut script = Script::new();

    proof {
        reveal_strlit("!mt Mluian");
    }
    script.command(600, "Main tank", "Raidlead", "!mt Mluian");
    proof {
        lemma_prelude(script.steps@);
    }
    let ghost s0 = script.steps@;
    proof {
        reveal_strlit("!ot Beefwich");
    }
    script.command(1_200, "Off tank", "Raidlead", "!ot Beefwich");
    let ghost shown0 = script.steps@.len() - 1;
    proof {
        reveal_strlit("!ot Beefwich");
        lemma_quiet(s0, script.steps@);
    }
    let ghost s0 = script.steps@;
    proof {
        reveal_strlit("!split 005");
    }
    script.command(1_900, "Numbers from 005 up heal the off tank", "Raidlead", "!split 005");
    let ghost shown1 = script.steps@.len() - 1;
    proof {
        reveal_strlit("!split 005");
        lemma_quiet(s0, script.steps@);
    }
    let ghost s0 = script.steps@;
    proof {
        reveal_strlit("!take 001");
    }
    script.command(2_600, "You stay on the main tank", "YOU", "!take 001");
    let ghost shown2 = script.steps@.len() - 1;
    proof {
        reveal_strlit("!take 001");
        lemma_quiet(s0, script.steps@);
    }
    let ghost s0 = script.steps@;
    proof {
        reveal_strlit("!take 002");
    }
    script.command(3_200, "Portlia is on the main tank", "Portlia", "!take 002");
    let ghost shown3 = script.steps@.len() - 1;
    proof {
        reveal_strlit("!take 002");
        lemma_quiet(s0, script.steps@);
    }
    let ghost s0 = script.steps@;
    proof {
        reveal_strlit("!take 005");
    }
    script.command(3_800, "Bellamere covers the off tank", "Bellamere", "!take 005");
    let ghost shown4 = script.steps@.len() - 1;
    proof {
        reveal_strlit("!take 005");
        lemma_quiet(s0, script.steps@);
    }
    let ghost s0 = script.steps@;
    proof {
        reveal_strlit("!take 006");
    }
    script.command(4_400, "Curaja covers the off tank", "Curaja", "!take 006");
    let ghost shown5 = script.steps@.len() - 1;
    proof {
        reveal_strlit("!take 006");
        lemma_quiet(s0, script.steps@);
    }
    let ghost s0 = script.steps@;
    script.pace(5_200, 2, None);
    let ghost shown6 = script.steps@.len() - 1;
    proof {
        lemma_opens(s0, script.steps@);
    }
    script.pace(5_900, 2, Some("ot"));
    proof {
        reveal_strlit("!startchain");
    }
    script.command(6_600, "Arm both tanks", "Raidlead", "!startchain");
    let ghost shown7 = script.steps@.len() - 1;

    // Each tank keeps its own clock, so the two pairs interleave.
    let first: u64 = 8_000;
    let stagger: u64 = 900;
    let mut last: u64 = first;
    let ghost kept1 = script.steps@;
    for round in 0..2u64
        invariant
            script.wf(),
            kept1.len() <= script.steps@.len(),
            forall|q: int| 0 <= q < kept1.len() ==> #[trigger] script.steps@[q] == kept1[q],
            opened(script.steps@),
            interval == 5000,
            cycle == 10_000,
            stagger == 900,
            main@.len() == 2,
            off@.len() == 2,
            first == 8_000,
            script.steps@.len() == 11 + round * 4,
            round > 0 ==> last <= script.now_ms,
    {
        for index in 0..2usize
            invariant
                script.wf(),
                kept1.len() <= script.steps@.len(),
                forall|q: int| 0 <= q < kept1.len() ==> #[trigger] script.steps@[q] == kept1[q],
                opened(script.steps@),
                interval == 5000,
                cycle == 10_000,
                stagger == 900,
                main@.len() == 2,
                off@.len() == 2,
                round < 2,
                first == 8_000,
                script.steps@.len() == 11 + round * 4 + index * 2,
                round > 0 || index > 0 ==> last <= script.now_ms,
        {
            let (player, number) = main[index];
            let at = first + round * cycle + index as u64 * interval;
            let slot = ch_slot(number);
            script.cast(at, round_note(player, " heals Mluian", "", round + 1), player, slot.as_str(), "CH", "Mluian");
            let (off_player, off_number) = off[index];
            let wrong = round == 1 && index == 0;
            let target = if wrong { "Mluian" } else { "Beefwich" };
            let note = if wrong {
                note3(off_player, " CHes the main tank by mistake", "")
            } else {
                round_note(off_player, " heals Beefwich", "", round + 1)
            };
            let off_slot = ch_slot(off_number);
            last = script.cast(at + stagger, note, off_player, off_slot.as_str(), "CH", target);
        }
    }
    proof {
        reveal_strlit("!stopchain");
    }
    script.command(last + 1_800, "Both tanks are safe", "Raidlead", "!stopchain");
    proof {
        lemma_stopped(script.steps@);
        assert(says(script.steps@[shown0], "Raidlead"@, "!ot Beefwich"@));
        assert(says(script.steps@[shown1], "Raidlead"@, "!split 005"@));
        assert(says(script.steps@[shown2], "YOU"@, "!take 001"@));
        assert(says(script.steps@[shown3], "Portlia"@, "!take 002"@));
        assert(says(script.steps@[shown4], "Bellamere"@, "!take 005"@));
        assert(says(script.steps@[shown5], "Curaja"@, "!take 006"@));
        assert(says(script.steps@[shown6], "Raidlead"@, "!chain "@ + tenths_text(spec_tenths(2))));
        assert(says(script.steps@[shown7], "Raidlead"@, "!startchain"@));
    }
    script.finish()
}

/// One cleric who is always a little later than the last time, until he is
/// late enough to lose his turn entirely.
fn laggy_steps() -> (steps: Vec<DemoStep>)
    ensures
        is_scenario(steps@),
        shows_laggy(steps@),
{
    let roster: Vec<(&str, u32)> = vec![("YOU", 1u32), ("Portlia", 2), ("Dunkin", 3), ("Curaja", 4)];
    let interval = interval_ms(4);
    let cycle = cycle_ms(4);
    assert(interval == 2500 && cycle == 10_000);
    let mut script = Script::new();

    proof {
        reveal_strlit("!mt Mluian");
    }
    script.command(600, "The raid lead names the main tank", "Raidlead", "!mt Mluian");
    script.pace(1_200, 4, None);
    proof {
        lemma_opening(script.steps@);
    }
    let ghost kept1 = script.steps@;
    for index in 0..4usize
        invariant
            script.wf(),
            kept1.len() <= script.steps@.len(),
            forall|q: int| 0 <= q < kept1.len() ==> #[trigger] script.steps@[q] == kept1[q],
            opened(script.steps@),
            roster@.len() == 4,
            script.steps@.len() == 3 + index,
            script.now_ms <= 3_800,
    {
        let (player, number) = roster[index];
        let slot = ch_slot(number);
        script.command_text(
            2_000 + index as u64 * 600,
            take_note(player, slot.as_str()),
            player,
            take_message(slot.as_str()),
        );
    }
    proof {
        reveal_strlit("!startchain");
    }
    script.command(4_800, "The chain arms", "Raidlead", "!startchain");

    let first: u64 = 6_200;
    // Dunkin's lag grows every round: on the beat, then late, then very late.
    let drift: Vec<u64> = vec![0u64, 1_200, 2_600, 3_900];
    let mut last: u64 = first;
    let ghost mut casts: int = 0;
    let ghost kept2 = script.steps@;
    for round in 0..4u64
        invariant
            script.wf(),
            kept2.len() <= script.steps@.len(),
            forall|q: int| 0 <= q < kept2.len() ==> #[trigger] script.steps@[q] == kept2[q],
            opened(script.steps@),
            interval == 2500,
            cycle == 10_000,
            roster@.len() == 4,
            drift@ == seq![0u64, 1_200, 2_600, 3_900],
            first == 6_200,
            script.steps@.len() <= 8 + round * 4,
            round > 0 ==> last <= script.now_ms,
    {
        for index in 0..4usize
            invariant
                script.wf(),
                kept2.len() <= script.steps@.len(),
                forall|q: int| 0 <= q < kept2.len() ==> #[trigger] script.steps@[q] == kept2[q],
                opened(script.steps@),
                interval == 2500,
                cycle == 10_000,
                roster@.len() == 4,
                drift@ == seq![0u64, 1_200, 2_600, 3_900],
                round < 4,
                first == 6_200,
                script.steps@.len() <= 8 + round * 4 + index,
                round > 0 || index > 0 ==> last <= script.now_ms,
        {
            let (player, number) = roster[index];
            let laggy = index == 2;
            // The fourth round is the one he misses outright.
            if !(laggy && round == 3) {
                let slack = if laggy { drift[round as usize] } else { 0 };
                let slot = ch_slot(number);
                let note = if laggy && slack > 0 {
                    let mut t = Text::new();
                    t.s("Dunkin is ");
                    let secs = one_decimal(slack / 100);
                    t.s(secs.as_str());
                    t.s("s late on ");
                    t.s(slot.as_str());
                    t.done()
                } else {
                    round_note(player, " casts ", slot.as_str(), round + 1)
                };
                last = script.cast(
                    first + round * cycle + index as u64 * interval + slack,
                    note,
                    player,
                    slot.as_str(),
                    "CH",
                    "Mluian",
                );
            }
        }
    }

    proof {
        reveal_strlit("!skip 003");
    }
    script.command(last + 1_200, "Dunkin missed his turn, so the lead pulls him out", "Raidlead", "!skip 003");
    let ghost shown0 = script.steps@.len() - 1;
    script.pace(last + 1_900, 3, None);
    let ghost shown1 = script.steps@.len() - 1;

    // Three left, so the survivors stretch out to 3.4s apart.
    let thinner = interval_ms(3);
    assert(thinner == 3400);
    let resume = last + 3_400;
    let short: Vec<(&str, u32)> = vec![("YOU", 1u32), ("Portlia", 2), ("Curaja", 4)];
    let mut last = resume;
    assert(resume <= script.now_ms + 1_500);
    let ghost base = script.now_ms;
    let ghost kept3 = script.steps@;
    for round in 0..2u64
        invariant
            script.wf(),
            kept3.len() <= script.steps@.len(),
            forall|q: int| 0 <= q < kept3.len() ==> #[trigger] script.steps@[q] == kept3[q],
            opened(script.steps@),
            thinner == 3400,
            short@.len() == 3,
            script.steps@.len() <= 26 + round * 3,
            resume <= base + 1_500,
            base <= script.now_ms,
            round > 0 ==> last <= script.now_ms,
    {
        for index in 0..3usize
            invariant
                script.wf(),
                kept3.len() <= script.steps@.len(),
                forall|q: int| 0 <= q < kept3.len() ==> #[trigger] script.steps@[q] == kept3[q],
                opened(script.steps@),
                thinner == 3400,
                short@.len() == 3,
                round < 2,
                script.steps@.len() <= 26 + round * 3 + index,
                resume <= base + 1_500,
                base <= script.now_ms,
                round > 0 || index > 0 ==> last <= script.now_ms,
        {
            let (player, number) = short[index];
            let slot = ch_slot(number);
            last = script.cast(
                resume + round * (thinner * 3) + index as u64 * thinner,
                note3(player, " covers the gap on ", slot.as_str()),
                player,
                slot.as_str(),
                "CH",
                "Mluian",
            );
        }
    }

    proof {
        reveal_strlit("!back 003");
    }
    script.command(last + 1_000, "Dunkin says he is ready again", "Dunkin", "!back 003");
    let ghost shown2 = script.steps@.len() - 1;
    script.pace(last + 1_700, 4, None);
    let ghost shown3 = script.steps@.len() - 1;
    script.cast(last + 3_000, str_string("Dunkin is back on the beat"), "Dunkin", "003", "CH", "Mluian");
    let ghost shown4 = script.steps@.len() - 1;
    proof {
        reveal_strlit("!stopchain");
    }
    script.command(last + 4_600, "The mob is down", "Raidlead", "!stopchain");
    proof {
        lemma_stopped(script.steps@);
        assert(says(script.steps@[shown0], "Raidlead"@, "!skip 003"@));
        assert(says(script.steps@[shown1], "Raidlead"@, "!chain "@ + tenths_text(spec_tenths(3))));
        assert(says(script.steps@[shown2], "Dunkin"@, "!back 003"@));
        assert(says(script.steps@[shown3], "Raidlead"@, "!chain "@ + tenths_text(spec_tenths(4))));
        assert(says(script.steps@[shown4], "Dunkin"@, heal_line("003"@, "CH"@, "Mluian"@)));
    }
    script.finish()
}

/// A split chain where clerics keep healing across the split.
fn wrongtank_steps() -> (steps: Vec<DemoStep>)
    ensures
        is_scenario(steps@),
        shows_wrongtank(steps@),
{
    let main: Vec<(&str, u32)> = vec![("YOU", 1u32), ("Portlia", 2)];
    let off: Vec<(&str, u32)> = vec![("Bellamere", 3u32), ("Curaja", 4)];
    let interval = interval_ms(2);
    let cycle = cycle_ms(2);
    assert(interval == 5000 && cycle == 10_000);
    let mut script = Script::new();

    proof {
        reveal_strlit("!mt Mluian");
    }
    script.command(600, "Main tank", "Raidlead", "!mt Mluian");
    proof {
        lemma_prelude(script.steps@);
    }
    let ghost s0 = script.steps@;
    proof {
        reveal_strlit("!ot Beefwich");
    }
    script.command(1_200, "Off tank", "Raidlead", "!ot Beefwich");
    let ghost shown0 = script.steps@.len() - 1;
    proof {
        reveal_strlit("!ot Beefwich");
        lemma_quiet(s0, script.steps@);
    }
    let ghost s0 = script.steps@;
    proof {
        reveal_strlit("!split 003");
    }
    script.command(1_800, "003 and up are on the off tank", "Raidlead", "!split 003");
    let ghost shown1 = script.steps@.len() - 1;
    proof {
        reveal_strlit("!split 003");
        lemma_quiet(s0, script.steps@);
    }
    let ghost kept1 = script.steps@;
    for index in 0..4usize
        invariant
            script.wf(),
            kept1.len() <= script.steps@.len(),
            forall|q: int| 0 <= q < kept1.len() ==> #[trigger] script.steps@[q] == kept1[q],
            prelude(script.steps@),
            main@.len() == 2,
            off@.len() == 2,
            script.steps@.len() == 4 + index,
            script.now_ms <= 4_200,
    {
        let (player, number) = if index < 2 { main[index] } else { off[index - 2] };
        let slot = ch_slot(number);
        let ghost s0 = script.steps@;
        script.command_text(
            2_400 + index as u64 * 600,
            take_note(player, slot.as_str()),
            player,
            take_message(slot.as_str()),
        );
        proof {
            lemma_quiet(s0, script.steps@);
        }
    }
    let ghost s0 = script.steps@;
    script.pace(5_000, 2, None);
    let ghost shown2 = script.steps@.len() - 1;
    proof {
        lemma_opens(s0, script.steps@);
    }
    script.pace(5_600, 2, Some("ot"));
    proof {
        reveal_strlit("!startchain");
    }
    script.command(6_200, "Arm both tanks", "Raidlead", "!startchain");
    let ghost shown3 = script.steps@.len() - 1;

    let first: u64 = 7_600;
    let ghost kept2 = script.steps@;
    for round in 0..3u64
        invariant
            script.wf(),
            kept2.len() <= script.steps@.len(),
            forall|q: int| 0 <= q < kept2.len() ==> #[trigger] script.steps@[q] == kept2[q],
            opened(script.steps@),
            interval == 5000,
            cycle == 10_000,
            first == 7_600,
            main@.len() == 2,
            off@.len() == 2,
            script.steps@.len() == 11 + round * 4,
    {
        let base = first + round * cycle;
        // Round two is where both sides heal the wrong side of the split.
        let swap = round == 1;
        for index in 0..2usize
            invariant
                script.wf(),
                kept2.len() <= script.steps@.len(),
                forall|q: int| 0 <= q < kept2.len() ==> #[trigger] script.steps@[q] == kept2[q],
                opened(script.steps@),
                interval == 5000,
                base <= 27_600,
                round < 3,
                main@.len() == 2,
                script.steps@.len() == 11 + round * 4 + index,
        {
            let (player, number) = main[index];
            let wrong = swap && index == 0;
            let target = if wrong { "Beefwich" } else { "Mluian" };
            let note = if wrong {
                note3(player, " CHes the off tank from a main tank number", "")
            } else {
                round_note(player, " heals Mluian", "", round + 1)
            };
            let slot = ch_slot(number);
            script.cast(base + index as u64 * interval, note, player, slot.as_str(), "CH", target);
        }
        for index in 0..2usize
            invariant
                script.wf(),
                kept2.len() <= script.steps@.len(),
                forall|q: int| 0 <= q < kept2.len() ==> #[trigger] script.steps@[q] == kept2[q],
                opened(script.steps@),
                interval == 5000,
                base <= 27_600,
                round < 3,
                off@.len() == 2,
                script.steps@.len() == 13 + round * 4 + index,
        {
            let (player, number) = off[index];
            let wrong = swap && index == 1;
            let target = if wrong { "Mluian" } else { "Beefwich" };
            let note = if wrong {
                note3(player, " CHes the main tank from an off tank number", "")
            } else {
                round_note(player, " heals Beefwich", "", round + 1)
            };
            let slot = ch_slot(number);
            script.cast(base + index as u64 * interval + 900, note, player, slot.as_str(), "CH", target);
        }
    }
    proof {
        reveal_strlit("!ot Beefwich");
    }
    script.command(first + 3 * cycle, "The lead calls the tanks out again", "Raidlead", "!ot Beefwich");
    let ghost shown4 = script.steps@.len() - 1;
    proof {
        reveal_strlit("!stopchain");
    }
    script.command(first + 3 * cycle + 1_500, "Both tanks live", "Raidlead", "!stopchain");
    proof {
        lemma_stopped(script.steps@);
        assert(says(script.steps@[shown0], "Raidlead"@, "!ot Beefwich"@));
        assert(says(script.steps@[shown1], "Raidlead"@, "!split 003"@));
        assert(says(script.steps@[shown2], "Raidlead"@, "!chain "@ + tenths_text(spec_tenths(2))));
        assert(says(script.steps@[shown3], "Raidlead"@, "!startchain"@));
        assert(says(script.steps@[shown4], "Raidlead"@, "!ot Beefwich"@));
    }
    script.finish()
}

/// The tank dies and the chain has to follow a new one.
fn tankswap_steps() -> (steps: Vec<DemoStep>)
    ensures
        is_scenario(steps@),
        shows_tankswap(steps@),
{
    let roster: Vec<(&str, u32)> = vec![("YOU", 1u32), ("Portlia", 2), ("Bellamere", 3)];
    let interval = interval_ms(3);
    let cycle = cycle_ms(3);
    assert(interval == 3400 && cycle == 10_200);
    let mut script = Script::new();

    proof {
        reveal_strlit("!mt Mluian");
    }
    script.command(600, "Mluian takes the mob", "Raidlead", "!mt Mluian");
    script.pace(1_200, 3, None);
    proof {
        lemma_opening(script.steps@);
    }
    let ghost kept1 = script.steps@;
    for index in 0..3usize
        invariant
            script.wf(),
            kept1.len() <= script.steps@.len(),
            forall|q: int| 0 <= q < kept1.len() ==> #[trigger] script.steps@[q] == kept1[q],
            opened(script.steps@),
            roster@.len() == 3,
            script.steps@.len() == 3 + index,
            script.now_ms <= 3_200,
    {
        let (player, number) = roster[index];
        let slot = ch_slot(number);
        script.command_text(
            2_000 + index as u64 * 600,
            take_note(player, slot.as_str()),
            player,
            take_message(slot.as_str()),
        );
    }
    proof {
        reveal_strlit("!startchain");
    }
    script.command(4_200, "The chain arms", "Raidlead", "!startchain");
    let ghost shown0 = script.steps@.len() - 1;

    let first: u64 = 5_600;
    let ghost kept2 = script.steps@;
    for index in 0..3usize
        invariant
            script.wf(),
            kept2.len() <= script.steps@.len(),
            forall|q: int| 0 <= q < kept2.len() ==> #[trigger] script.steps@[q] == kept2[q],
            opened(script.steps@),
            interval == 3400,
            first == 5_600,
            roster@.len() == 3,
            script.steps@.len() == 7 + index,
    {
        let (player, number) = roster[index];
        let slot = ch_slot(number);
        script.cast(
            first + index as u64 * interval,
            note3(player, " heals Mluian", ""),
            player,
            slot.as_str(),
            "CH",
            "Mluian",
        );
    }

    let swap = first + cycle - 1_200;
    proof {
        reveal_strlit("!mt Beefwich");
    }
    script.command(swap, "Mluian goes down, so Beefwich is the new main tank", "Raidlead", "!mt Beefwich");
    let ghost shown1 = script.steps@.len() - 1;

    let after = first + cycle;
    let ghost kept3 = script.steps@;
    for round in 0..2u64
        invariant
            script.wf(),
            kept3.len() <= script.steps@.len(),
            forall|q: int| 0 <= q < kept3.len() ==> #[trigger] script.steps@[q] == kept3[q],
            opened(script.steps@),
            interval == 3400,
            cycle == 10_200,
            after == 15_800,
            roster@.len() == 3,
            script.steps@.len() == 11 + round * 3,
    {
        for index in 0..3usize
            invariant
                script.wf(),
                kept3.len() <= script.steps@.len(),
                forall|q: int| 0 <= q < kept3.len() ==> #[trigger] script.steps@[q] == kept3[q],
                opened(script.steps@),
                interval == 3400,
                cycle == 10_200,
                after == 15_800,
                roster@.len() == 3,
                round < 2,
                script.steps@.len() == 11 + round * 3 + index,
        {
            let (player, number) = roster[index];
            let slot = ch_slot(number);
            // Bellamere's macro still points at the tank that died.
            let stale = index == 2 && round == 0;
            let target = if stale { "Mluian" } else { "Beefwich" };
            let note = if stale {
                note3(player, " is still healing the old tank on ", slot.as_str())
            } else {
                note3(player, " heals Beefwich on ", slot.as_str())
            };
            script.cast(after + round * cycle + index as u64 * interval, note, player, slot.as_str(), "CH", target);
        }
    }
    proof {
        reveal_strlit("!stopchain");
    }
    script.command(after + 2 * cycle, "Beefwich holds it to the end", "Raidlead", "!stopchain");
    proof {
        lemma_stopped(script.steps@);
        assert(says(script.steps@[shown0], "Raidlead"@, "!startchain"@));
        assert(says(script.steps@[shown1], "Raidlead"@, "!mt Beefwich"@));
    }
    script.finish()
}

/// One rotation becomes two in the middle of a pull, then goes back to one.
fn offtank_steps() -> (steps: Vec<DemoStep>)
    ensures
        is_scenario(steps@),
        shows_offtank(steps@),
{
    let roster: Vec<(&str, u32)> = vec![("YOU", 1u32), ("Portlia", 2), ("Bellamere", 3), ("Curaja", 4)];
    let interval = interval_ms(4);
    let cycle = cycle_ms(4);
    assert(interval == 2500 && cycle == 10_000);
    let mut script = Script::new();

    proof {
        reveal_strlit("!mt Mluian");
    }
    script.command(600, "Everyone is on the main tank", "Raidlead", "!mt Mluian");
    script.pace(1_200, 4, None);
    proof {
        lemma_opening(script.steps@);
    }
    let ghost kept1 = script.steps@;
    for index in 0..4usize
        invariant
            script.wf(),
            kept1.len() <= script.steps@.len(),
            forall|q: int| 0 <= q < kept1.len() ==> #[trigger] script.steps@[q] == kept1[q],
            opened(script.steps@),
            roster@.len() == 4,
            script.steps@.len() == 3 + index,
            script.now_ms <= 3_500,
    {
        let (player, number) = roster[index];
        let slot = ch_slot(number);
        script.command_text(
            2_000 + index as u64 * 500,
            take_note(player, slot.as_str()),
            player,
            take_message(slot.as_str()),
        );
    }
    proof {
        reveal_strlit("!startchain");
    }
    script.command(4_400, "The chain arms", "Raidlead", "!startchain");
    let ghost shown0 = script.steps@.len() - 1;

    let first: u64 = 5_800;
    let ghost kept2 = script.steps@;
    for index in 0..4usize
        invariant
            script.wf(),
            kept2.len() <= script.steps@.len(),
            forall|q: int| 0 <= q < kept2.len() ==> #[trigger] script.steps@[q] == kept2[q],
            opened(script.steps@),
            interval == 2500,
            first == 5_800,
            roster@.len() == 4,
            script.steps@.len() == 8 + index,
    {
        let (player, number) = roster[index];
        let slot = ch_slot(number);
        script.cast(
            first + index as u64 * interval,
            note3(player, " heals Mluian on round 1", ""),
            player,
            slot.as_str(),
            "CH",
            "Mluian",
        );
    }

    let split_at = first + cycle - 1_400;
    proof {
        reveal_strlit("!ot Beefwich");
    }
    script.command(split_at, "An add lands on Beefwich", "Raidlead", "!ot Beefwich");
    let ghost shown1 = script.steps@.len() - 1;
    proof {
        reveal_strlit("!split 003");
    }
    script.command(split_at + 600, "003 and 004 move over to the off tank", "Raidlead", "!split 003");
    let ghost shown2 = script.steps@.len() - 1;
    script.pace(split_at + 1_200, 2, None);
    let ghost shown3 = script.steps@.len() - 1;
    script.pace(split_at + 1_800, 2, Some("ot"));

    // Two clerics a side, so both rotations run 5s apart on their own clocks.
    let pair = interval_ms(2);
    let pair_cycle = cycle_ms(2);
    assert(pair == 5000 && pair_cycle == 10_000);
    let after = first + cycle + 1_000;
    let ghost kept3 = script.steps@;
    for round in 0..2u64
        invariant
            script.wf(),
            kept3.len() <= script.steps@.len(),
            forall|q: int| 0 <= q < kept3.len() ==> #[trigger] script.steps@[q] == kept3[q],
            opened(script.steps@),
            pair == 5000,
            pair_cycle == 10_000,
            after == 16_800,
            script.steps@.len() == 16 + round * 4,
    {
        let base = after + round * pair_cycle;
        script.cast(base, str_string("You hold the main tank"), "YOU", "001", "CH", "Mluian");
        script.cast(base + 400, str_string("Bellamere picks up the off tank"), "Bellamere", "003", "CH", "Beefwich");
        script.cast(base + pair, str_string("Portlia holds the main tank"), "Portlia", "002", "CH", "Mluian");
        script.cast(base + pair + 400, str_string("Curaja holds the off tank"), "Curaja", "004", "CH", "Beefwich");
    }

    let fold = after + 2 * pair_cycle;
    proof {
        reveal_strlit("!untank Beefwich");
    }
    script.command(fold, "The add is dead", "Raidlead", "!untank Beefwich");
    let ghost shown4 = script.steps@.len() - 1;
    script.pace(fold + 700, 4, None);
    let ghost shown5 = script.steps@.len() - 1;
    proof {
        reveal_strlit("!stopchain");
    }
    script.command(fold + 2_000, "One tank again, then done", "Raidlead", "!stopchain");
    proof {
        lemma_stopped(script.steps@);
        assert(says(script.steps@[shown0], "Raidlead"@, "!startchain"@));
        assert(says(script.steps@[shown1], "Raidlead"@, "!ot Beefwich"@));
        assert(says(script.steps@[shown2], "Raidlead"@, "!split 003"@));
        assert(says(script.steps@[shown3], "Raidlead"@, "!chain "@ + tenths_text(spec_tenths(2))));
        assert(says(script.steps@[shown4], "Raidlead"@, "!untank Beefwich"@));
        assert(says(script.steps@[shown5], "Raidlead"@, "!chain "@ + tenths_text(spec_tenths(4))));
    }
    script.finish()
}

/// A CH chain and a rampage chain running side by side.
fn rampagetank_steps() -> (steps: Vec<DemoStep>)
    ensures
        is_scenario(steps@),
        shows_rampagetank(steps@),
{
    let heals: Vec<(&str, u32)> = vec![("YOU", 1u32), ("Portlia", 2), ("Bellamere", 3)];
    let rampage: Vec<(&str, u32)> = vec![("Curaja", 1u32), ("Dunkin", 2), ("Hanbox", 3)];
    let interval = interval_ms(3);
    let cycle = cycle_ms(3);
    assert(interval == 3400 && cycle == 10_200);
    let mut script = Script::new();

    proof {
        reveal_strlit("!mt Mluian");
    }
    script.command(600, "Main tank on the boss", "Raidlead", "!mt Mluian");
    let ghost shown0 = script.steps@.len() - 1;
    proof {
        lemma_prelude(script.steps@);
    }
    let ghost s0 = script.steps@;
    proof {
        reveal_strlit("!rt Grendel");
    }
    script.command(1_200, "Rampage tank on the adds", "Raidlead", "!rt Grendel");
    let ghost shown1 = script.steps@.len() - 1;
    proof {
        lemma_tank_line(script.steps@.last().message@);
        lemma_quiet(s0, script.steps@);
    }
    let ghost s0 = script.steps@;
    script.pace(1_800, 3, None);
    let ghost shown2 = script.steps@.len() - 1;
    proof {
        lemma_opens(s0, script.steps@);
    }
    script.say_string(2_400, rampage_pace_note(3), str_string("Raidlead"), TestChannel::Guild, rchain_message(3));
    let ghost shown3 = script.steps@.len() - 1;
    let ghost kept1 = script.steps@;
    for index in 0..3usize
        invariant
            script.wf(),
            kept1.len() <= script.steps@.len(),
            forall|q: int| 0 <= q < kept1.len() ==> #[trigger] script.steps@[q] == kept1[q],
            opened(script.steps@),
            heals@.len() == 3,
            script.steps@.len() == 5 + index,
            script.now_ms <= 4_000,
    {
        let (player, number) = heals[index];
        let slot = ch_slot(number);
        script.command_text(
            3_000 + index as u64 * 500,
            note4(player, " takes ", slot.as_str(), " on the boss"),
            player,
            take_message(slot.as_str()),
        );
    }
    let ghost kept2 = script.steps@;
    for index in 0..3usize
        invariant
            script.wf(),
            kept2.len() <= script.steps@.len(),
            forall|q: int| 0 <= q < kept2.len() ==> #[trigger] script.steps@[q] == kept2[q],
            opened(script.steps@),
            rampage@.len() == 3,
            script.steps@.len() == 8 + index,
            script.now_ms <= 5_600,
    {
        let (player, number) = rampage[index];
        let slot = rch_slot(number);
        let mut note = Text::new();
        note.s(player);
        note.s(" takes ");
        note.s(slot.as_str());
        note.s(" on rampage");
        script.command_text(4_600 + index as u64 * 500, note.done(), player, take_message(slot.as_str()));
    }
    proof {
        reveal_strlit("!startchain");
    }
    script.command(6_400, "Arm both chains", "Raidlead", "!startchain");
    let ghost shown4 = script.steps@.len() - 1;

    let first: u64 = 7_800;
    let mut last: u64 = first;
    let ghost kept3 = script.steps@;
    for round in 0..2u64
        invariant
            script.wf(),
            kept3.len() <= script.steps@.len(),
            forall|q: int| 0 <= q < kept3.len() ==> #[trigger] script.steps@[q] == kept3[q],
            opened(script.steps@),
            interval == 3400,
            cycle == 10_200,
            first == 7_800,
            heals@.len() == 3,
            rampage@.len() == 3,
            script.steps@.len() == 12 + round * 6,
            round > 0 ==> last <= script.now_ms,
    {
        for index in 0..3usize
            invariant
                script.wf(),
                kept3.len() <= script.steps@.len(),
                forall|q: int| 0 <= q < kept3.len() ==> #[trigger] script.steps@[q] == kept3[q],
                opened(script.steps@),
                interval == 3400,
                cycle == 10_200,
                first == 7_800,
                heals@.len() == 3,
                round < 2,
                script.steps@.len() == 12 + round * 6 + index,
                round > 0 ==> last <= script.now_ms,
        {
            let (player, number) = heals[index];
            let slot = ch_slot(number);
            script.cast(
                first + round * cycle + index as u64 * interval,
                round_note(player, " CHes the boss tank", "", round + 1),
                player,
                slot.as_str(),
                "CH",
                "Mluian",
            );
        }
        for index in 0..3usize
            invariant
                script.wf(),
                kept3.len() <= script.steps@.len(),
                forall|q: int| 0 <= q < kept3.len() ==> #[trigger] script.steps@[q] == kept3[q],
                opened(script.steps@),
                interval == 3400,
                cycle == 10_200,
                first == 7_800,
                rampage@.len() == 3,
                round < 2,
                script.steps@.len() == 15 + round * 6 + index,
                round > 0 || index > 0 ==> last <= script.now_ms,
        {
            let (player, number) = rampage[index];
            let slot = rch_slot(number);
            // One rampage heal lands on the boss tank instead of the rampage tank.
            let wrong = round == 1 && index == 2;
            let target = if wrong { "Mluian" } else { "Grendel" };
            let note = if wrong {
                note3(player, " RCHes the boss tank by mistake", "")
            } else {
                round_note(player, " RCHes Grendel", "", round + 1)
            };
            last = script.cast(
                first + round * cycle + index as u64 * interval + 700,
                note,
                player,
                slot.as_str(),
                "RCH",
                target,
            );
        }
    }
    proof {
        reveal_strlit("!stopchain");
    }
    script.command(last + 1_600, "Adds and boss are done", "Raidlead", "!stopchain");
    proof {
        lemma_stopped(script.steps@);
        assert(says(script.steps@[shown0], "Raidlead"@, "!mt Mluian"@));
        assert(says(script.steps@[shown1], "Raidlead"@, "!rt Grendel"@));
        assert(says(script.steps@[shown2], "Raidlead"@, "!chain "@ + tenths_text(spec_tenths(3))));
        assert(says(script.steps@[shown3], "Raidlead"@, "!rchain "@ + tenths_text(spec_tenths(3))));
        assert(says(script.steps@[shown4], "Raidlead"@, "!startchain"@));
    }
    script.finish()
}

/// Everyone wants the same numbers.
fn collision_steps() -> (steps: Vec<DemoStep>)
    ensures
        is_scenario(steps@),
        shows_collision(steps@),
{
    let mut script = Script::new();

    proof {
        reveal_strlit("!mt Mluian");
    }
    script.command(600, "Main tank", "Raidlead", "!mt Mluian");
    script.pace(1_200, 4, None);
    proof {
        lemma_opening(script.steps@);
    }
    proof {
        reveal_strlit("!take 001");
    }
    script.command(2_000, "You take 001", "YOU", "!take 001");
    let ghost shown0 = script.steps@.len() - 1;
    proof {
        reveal_strlit("!take 001");
    }
    script.command(2_700, "Portlia asks for 001 as well — watch the alert", "Portlia", "!take 001");
    let ghost shown1 = script.steps@.len() - 1;
    proof {
        reveal_strlit("!take");
    }
    script.command(3_600, "Portlia takes whatever is free instead", "Portlia", "!take");
    let ghost shown2 = script.steps@.len() - 1;
    proof {
        reveal_strlit("!take 002");
    }
    script.command(4_400, "Bellamere asks for 002, which Portlia just took", "Bellamere", "!take 002");
    let ghost shown3 = script.steps@.len() - 1;
    proof {
        reveal_strlit("!take 003");
    }
    script.command(5_200, "Bellamere settles on 003", "Bellamere", "!take 003");
    let ghost shown4 = script.steps@.len() - 1;
    proof {
        reveal_strlit("!take 004 Curaja");
    }
    script.command(6_000, "The lead signs Curaja up for 004 himself", "Raidlead", "!take 004 Curaja");
    let ghost shown5 = script.steps@.len() - 1;
    proof {
        reveal_strlit("!startchain");
    }
    script.command(6_800, "The chain arms", "Raidlead", "!startchain");
    let ghost shown6 = script.steps@.len() - 1;

    let interval = interval_ms(4);
    let cycle = cycle_ms(4);
    assert(interval == 2500 && cycle == 10_000);
    let first: u64 = 8_200;
    let roster: Vec<(&str, u32)> = vec![("YOU", 1u32), ("Portlia", 2), ("Bellamere", 3), ("Curaja", 4)];
    let ghost kept1 = script.steps@;
    for index in 0..4usize
        invariant
            script.wf(),
            kept1.len() <= script.steps@.len(),
            forall|q: int| 0 <= q < kept1.len() ==> #[trigger] script.steps@[q] == kept1[q],
            opened(script.steps@),
            interval == 2500,
            first == 8_200,
            roster@.len() == 4,
            script.steps@.len() == 10 + index,
    {
        let (player, number) = roster[index];
        let slot = ch_slot(number);
        script.cast(
            first + index as u64 * interval,
            note3(player, " casts ", slot.as_str()),
            player,
            slot.as_str(),
            "CH",
            "Mluian",
        );
    }

    let second = first + cycle;
    script.cast(second, str_string("Bellamere shouts your number instead of his own"), "Bellamere", "001", "CH", "Mluian");
    let ghost shown7 = script.steps@.len() - 1;
    script.cast(second + interval, str_string("You cast your own number"), "YOU", "001", "CH", "Mluian");
    let ghost shown8 = script.steps@.len() - 1;
    script.cast(second + 2 * interval, str_string("Portlia carries on"), "Portlia", "002", "CH", "Mluian");
    script.cast(second + 3 * interval, str_string("Curaja carries on"), "Curaja", "004", "CH", "Mluian");
    proof {
        reveal_strlit("!stopchain");
    }
    script.command(second + cycle, "Sorted out, mob is down", "Raidlead", "!stopchain");
    proof {
        lemma_stopped(script.steps@);
        assert(says(script.steps@[shown0], "YOU"@, "!take 001"@));
        assert(says(script.steps@[shown1], "Portlia"@, "!take 001"@));
        assert(says(script.steps@[shown2], "Portlia"@, "!take"@));
        assert(says(script.steps@[shown3], "Bellamere"@, "!take 002"@));
        assert(says(script.steps@[shown4], "Bellamere"@, "!take 003"@));
        assert(says(script.steps@[shown5], "Raidlead"@, "!take 004 Curaja"@));
        assert(says(script.steps@[shown6], "Raidlead"@, "!startchain"@));
        assert(says(script.steps@[shown7], "Bellamere"@, heal_line("001"@, "CH"@, "Mluian"@)));
        assert(says(script.steps@[shown8], "YOU"@, heal_line("001"@, "CH"@, "Mluian"@)));
    }
    script.finish()
}

/// The pull is already going when you get there, so Alfred has to work the
/// pace out from the shouts it can hear.
fn latejoin_steps() -> (steps: Vec<DemoStep>)
    ensures
        is_scenario(steps@),
        shows_latejoin(steps@),
{
    let interval = interval_ms(3);
    assert(interval == 3400);
    let mut script = Script::new();

    proof {
        reveal_strlit("!mt Mluian");
    }
    script.command(800, "You load in mid-pull and all Alfred knows is who the tank is", "Raidlead", "!mt Mluian");
    proof {
        lemma_prelude(script.steps@);
    }

    // Two rounds of shouts with no !chain and no !startchain to go on.
    let first: u64 = 2_000;
    let heard: Vec<(&str, u32)> = vec![("Portlia", 2u32), ("Bellamere", 3), ("Curaja", 4)];
    let ghost kept1 = script.steps@;
    for round in 0..2u64
        invariant
            script.wf(),
            kept1.len() <= script.steps@.len(),
            forall|q: int| 0 <= q < kept1.len() ==> #[trigger] script.steps@[q] == kept1[q],
            prelude(script.steps@),
            interval == 3400,
            first == 2_000,
            heard@.len() == 3,
            script.steps@.len() == 2 + round * 3,
    {
        for index in 0..3usize
            invariant
                script.wf(),
                kept1.len() <= script.steps@.len(),
                forall|q: int| 0 <= q < kept1.len() ==> #[trigger] script.steps@[q] == kept1[q],
                prelude(script.steps@),
                interval == 3400,
                first == 2_000,
                heard@.len() == 3,
                round < 2,
                script.steps@.len() == 2 + round * 3 + index,
        {
            let (player, number) = heard[index];
            let slot = ch_slot(number);
            let ghost s0 = script.steps@;
            script.cast(
                first + round * (interval * 3) + index as u64 * interval,
                note4(player, " shouts ", slot.as_str(), " — Alfred measures the gap"),
                player,
                slot.as_str(),
                "CH",
                "Mluian",
            );
            proof {
                lemma_quiet(s0, script.steps@);
            }
        }
    }

    let join = first + 2 * interval * 3;
    let ghost s0 = script.steps@;
    proof {
        reveal_strlit("!take 001");
    }
    script.command(join, "You take the open number", "YOU", "!take 001");
    let ghost shown0 = script.steps@.len() - 1;
    proof {
        reveal_strlit("!take 001");
        lemma_quiet(s0, script.steps@);
    }
    let ghost s0 = script.steps@;
    script.cast(join + 1_200, str_string("Your first CH syncs you behind the last shouter"), "YOU", "001", "CH", "Mluian");
    let ghost shown1 = script.steps@.len() - 1;
    proof {
        lemma_quiet(s0, script.steps@);
    }

    let settled = join + 2_000;
    let ghost kept2 = script.steps@;
    for index in 0..3usize
        invariant
            script.wf(),
            kept2.len() <= script.steps@.len(),
            forall|q: int| 0 <= q < kept2.len() ==> #[trigger] script.steps@[q] == kept2[q],
            prelude(script.steps@),
            interval == 3400,
            settled == 24_400,
            heard@.len() == 3,
            script.steps@.len() == 10 + index,
    {
        let (player, number) = heard[index];
        let slot = ch_slot(number);
        let ghost s0 = script.steps@;
        script.cast(
            settled + index as u64 * interval,
            note3(player, " keeps the rotation going", ""),
            player,
            slot.as_str(),
            "CH",
            "Mluian",
        );
        proof {
            lemma_quiet(s0, script.steps@);
        }
    }

    let formal = settled + 4 * interval;
    let ghost s0 = script.steps@;
    script.pace(formal, 4, None);
    let ghost shown2 = script.steps@.len() - 1;
    proof {
        lemma_opens(s0, script.steps@);
    }
    proof {
        reveal_strlit("!startchain");
    }
    script.command(formal + 700, "The lead finally calls the start, which re-anchors everyone", "Raidlead", "!startchain");
    let ghost shown3 = script.steps@.len() - 1;
    script.cast(formal + 2_000, str_string("You open the fresh clock"), "YOU", "001", "CH", "Mluian");
    let ghost shown4 = script.steps@.len() - 1;
    proof {
        reveal_strlit("!stopchain");
    }
    script.command(formal + 4_000, "Mob is down", "Raidlead", "!stopchain");
    proof {
        lemma_stopped(script.steps@);
        assert(says(script.steps@[shown0], "YOU"@, "!take 001"@));
        assert(says(script.steps@[shown1], "YOU"@, heal_line("001"@, "CH"@, "Mluian"@)));
        assert(says(script.steps@[shown2], "Raidlead"@, "!chain "@ + tenths_text(spec_tenths(4))));
        assert(says(script.steps@[shown3], "Raidlead"@, "!startchain"@));
        assert(says(script.steps@[shown4], "YOU"@, heal_line("001"@, "CH"@, "Mluian"@)));
    }
    script.finish()
}

/// Not enough clerics for a comfortable chain.
fn thin_steps() -> (steps: Vec<DemoStep>)
    ensures
        is_scenario(steps@),
        shows_thin(steps@),
{
    let mut script = Script::new();
    let pair = interval_ms(2);
    assert(pair == 5000);

    proof {
        reveal_strlit("!mt Mluian");
    }
    script.command(600, "Main tank", "Raidlead", "!mt Mluian");
    script.pace(1_200, 2, None);
    proof {
        lemma_opening(script.steps@);
    }
    proof {
        reveal_strlit("!take 001");
    }
    script.command(1_900, "You take 001", "YOU", "!take 001");
    let ghost shown0 = script.steps@.len() - 1;
    proof {
        reveal_strlit("!take 002");
    }
    script.command(2_500, "Portlia takes 002", "Portlia", "!take 002");
    let ghost shown1 = script.steps@.len() - 1;
    proof {
        reveal_strlit("!startchain");
    }
    script.command(3_200, "Two clerics, 5s apart", "Raidlead", "!startchain");
    let ghost shown2 = script.steps@.len() - 1;

    let first: u64 = 4_400;
    let ghost kept1 = script.steps@;
    for round in 0..2u64
        invariant
            script.wf(),
            kept1.len() <= script.steps@.len(),
            forall|q: int| 0 <= q < kept1.len() ==> #[trigger] script.steps@[q] == kept1[q],
            opened(script.steps@),
            pair == 5000,
            first == 4_400,
            script.steps@.len() == 6 + round * 2,
    {
        script.cast(first + round * pair * 2, str_string("You cast on the 5s beat"), "YOU", "001", "CH", "Mluian");
        script.cast(
            first + round * pair * 2 + pair,
            str_string("Portlia answers"),
            "Portlia",
            "002",
            "CH",
            "Mluian",
        );
    }

    let alone = first + 2 * pair * 2;
    proof {
        reveal_strlit("!skip 002");
    }
    script.command(alone, "Portlia goes down", "Portlia", "!skip 002");
    let ghost shown3 = script.steps@.len() - 1;
    script.pace(alone + 700, 1, None);
    let ghost shown4 = script.steps@.len() - 1;
    // A solo chain can only go as fast as the spell, so the bar runs on cast time.
    let ghost kept2 = script.steps@;
    for round in 0..2u64
        invariant
            script.wf(),
            kept2.len() <= script.steps@.len(),
            forall|q: int| 0 <= q < kept2.len() ==> #[trigger] script.steps@[q] == kept2[q],
            opened(script.steps@),
            alone == 24_400,
            script.steps@.len() == 12 + round,
    {
        script.cast(
            alone + 2_000 + round * CAST_MS,
            str_string("You are the whole chain now"),
            "YOU",
            "001",
            "CH",
            "Mluian",
        );
    }

    let help = alone + 2_000 + 2 * CAST_MS;
    proof {
        reveal_strlit("!take 003");
    }
    script.command(help, "Bellamere runs in", "Bellamere", "!take 003");
    let ghost shown5 = script.steps@.len() - 1;
    proof {
        reveal_strlit("!back 002");
    }
    script.command(help + 700, "Portlia is back up", "Portlia", "!back 002");
    let ghost shown6 = script.steps@.len() - 1;
    script.pace(help + 1_400, 3, None);
    let ghost shown7 = script.steps@.len() - 1;

    let three = interval_ms(3);
    assert(three == 3400);
    script.cast(help + 2_600, str_string("You lead the new rotation"), "YOU", "001", "CH", "Mluian");
    script.cast(help + 2_600 + three, str_string("Portlia follows"), "Portlia", "002", "CH", "Mluian");
    script.cast(help + 2_600 + 2 * three, str_string("Bellamere closes the round"), "Bellamere", "003", "CH", "Mluian");
    proof {
        reveal_strlit("!stopchain");
    }
    script.command(help + 2_600 + 4 * three, "It holds, mob down", "Raidlead", "!stopchain");
    proof {
        lemma_stopped(script.steps@);
        assert(says(script.steps@[shown0], "YOU"@, "!take 001"@));
        assert(says(script.steps@[shown1], "Portlia"@, "!take 002"@));
        assert(says(script.steps@[shown2], "Raidlead"@, "!startchain"@));
        assert(says(script.steps@[shown3], "Portlia"@, "!skip 002"@));
        assert(says(script.steps@[shown4], "Raidlead"@, "!chain "@ + tenths_text(spec_tenths(1))));
        assert(says(script.steps@[shown5], "Bellamere"@, "!take 003"@));
        assert(says(script.steps@[shown6], "Portlia"@, "!back 002"@));
        assert(says(script.steps@[shown7], "Raidlead"@, "!chain "@ + tenths_text(spec_tenths(3))));
    }
    script.finish()
}

/// Whether two names are spelled the same.
fn same_name(a: &str, b: &str) -> (r: bool)
    ensures
        r == (a@ == b@),
{
    let v = chars_of(a);
    crate::text::seq_eq_str(&v, b)
}

/// Clerics drop out until there is nothing left to pace.
fn collapse_steps() -> (steps: Vec<DemoStep>)
    ensures
        is_scenario(steps@),
        shows_collapse(steps@),
{
    let roster: Vec<(&str, u32)> = vec![
        ("YOU", 1u32),
        ("Portlia", 2),
        ("Bellamere", 3),
        ("Curaja", 4),
        ("Dunkin", 5),
    ];
    let interval = interval_ms(5);
    assert(interval == 2000);
    let mut script = Script::new();

    proof {
        reveal_strlit("!mt Mluian");
    }
    script.command(600, "Main tank", "Raidlead", "!mt Mluian");
    script.pace(1_200, 5, None);
    let ghost shown0 = script.steps@.len() - 1;
    proof {
        lemma_opening(script.steps@);
    }
    let ghost kept1 = script.steps@;
    for index in 0..5usize
        invariant
            script.wf(),
            kept1.len() <= script.steps@.len(),
            forall|q: int| 0 <= q < kept1.len() ==> #[trigger] script.steps@[q] == kept1[q],
            opened(script.steps@),
            roster@.len() == 5,
            script.steps@.len() == 3 + index,
            script.now_ms <= 3_900,
    {
        let (player, number) = roster[index];
        let slot = ch_slot(number);
        script.command_text(
            1_900 + index as u64 * 500,
            take_note(player, slot.as_str()),
            player,
            take_message(slot.as_str()),
        );
    }
    proof {
        reveal_strlit("!startchain");
    }
    script.command(4_600, "Five clerics, 2s apart", "Raidlead", "!startchain");
    let ghost shown1 = script.steps@.len() - 1;

    let first: u64 = 5_800;
    let ghost kept2 = script.steps@;
    for index in 0..5usize
        invariant
            script.wf(),
            kept2.len() <= script.steps@.len(),
            forall|q: int| 0 <= q < kept2.len() ==> #[trigger] script.steps@[q] == kept2[q],
            opened(script.steps@),
            interval == 2000,
            first == 5_800,
            roster@.len() == 5,
            script.steps@.len() == 9 + index,
    {
        let (player, number) = roster[index];
        let slot = ch_slot(number);
        script.cast(
            first + index as u64 * interval,
            note4(player, " casts ", slot.as_str(), " on the full chain"),
            player,
            slot.as_str(),
            "CH",
            "Mluian",
        );
    }

    // Each loss stretches the interval for whoever is left.
    let mut at = first + cycle_ms(5);
    let mut alive: Vec<(&str, u32)> = roster.clone();
    let losses: Vec<&str> = vec!["Dunkin", "Curaja", "Bellamere"];
    let ghost kept3 = script.steps@;
    for loss in 0..3usize
        invariant
            script.wf(),
            kept3.len() <= script.steps@.len(),
            forall|q: int| 0 <= q < kept3.len() ==> #[trigger] script.steps@[q] == kept3[q],
            opened(script.steps@),
            losses@.len() == 3,
            alive@.len() <= 5,
            at <= 16_000 + loss * 250_000,
            script.steps@.len() <= 14 + loss * 7,
    {
        let gone = losses[loss];
        let mut number: u32 = 0;
        let mut found = false;
        let mut rest: Vec<(&str, u32)> = Vec::new();
        for k in 0..alive.len()
            invariant
                rest@.len() <= k,
                alive@.len() <= 5,
        {
            let (player, n) = alive[k];
            if same_name(player, gone) {
                if !found {
                    number = n;
                    found = true;
                }
            } else {
                rest.push((player, n));
            }
        }
        alive = rest;
        let slot = ch_slot(number);
        proof {
            reveal_strlit("!skip ");
        }
        script.command_text(at, note3(gone, " goes down", ""), gone, note3("!skip ", slot.as_str(), ""));
        script.pace(at + 600, alive.len(), None);
        let n = alive.len();
        let spacing = interval_ms(n);
        for index in 0..n
            invariant
                script.wf(),
                kept3.len() <= script.steps@.len(),
                forall|q: int| 0 <= q < kept3.len() ==> #[trigger] script.steps@[q] == kept3[q],
                opened(script.steps@),
                n == alive@.len(),
                n <= 5,
                1000 <= spacing <= 10_000,
                at <= 16_000 + loss * 250_000,
                loss < 3,
                script.steps@.len() <= 16 + loss * 7 + index,
        {
            let (player, number) = alive[index];
            let slot = ch_slot(number);
            let mut note = Text::new();
            note.s(player);
            note.s(" holds ");
            note.s(slot.as_str());
            note.s(" with ");
            note.n(n as u64);
            note.s(" left");
            assert(index * spacing <= 50_000) by (nonlinear_arith)
                requires
                    index < 5,
                    spacing <= 10_000,
            ;
            script.cast(at + 1_800 + index as u64 * spacing, note.done(), player, slot.as_str(), "CH", "Mluian");
        }
        at = at + 1_800 + cycle_ms(n);
    }

    proof {
        reveal_strlit("!stopchain");
    }
    script.command(at, "Two clerics cannot hold it, so the lead calls the chain off", "Raidlead", "!stopchain");
    let ghost shown2 = script.steps@.len() - 1;
    proof {
        lemma_stopped(script.steps@);
        assert(says(script.steps@[shown0], "Raidlead"@, "!chain "@ + tenths_text(spec_tenths(5))));
        assert(says(script.steps@[shown1], "Raidlead"@, "!startchain"@));
        assert(says(script.steps@[shown2], "Raidlead"@, "!stopchain"@));
    }
    script.finish()
}

/// Macros Alfred cannot make sense of. Every one of these is deliberate.
fn macros_steps() -> (steps: Vec<DemoStep>)
    ensures
        is_scenario(steps@),
        shows_macros(steps@),
{
    let roster: Vec<(&str, u32)> = vec![("YOU", 1u32), ("Portlia", 2), ("Bellamere", 3)];
    let interval = interval_ms(3);
    let cycle = cycle_ms(3);
    assert(interval == 3400 && cycle == 10_200);
    let mut script = Script::new();

    proof {
        reveal_strlit("!mt Mluian");
    }
    script.command(600, "Main tank", "Raidlead", "!mt Mluian");
    proof {
        lemma_prelude(script.steps@);
    }
    let ghost s0 = script.steps@;
    proof {
        reveal_strlit("!rt Grendel");
    }
    script.command(1_100, "Rampage tank too", "Raidlead", "!rt Grendel");
    proof {
        lemma_tank_line(script.steps@.last().message@);
        lemma_quiet(s0, script.steps@);
    }
    let ghost s0 = script.steps@;
    script.pace(1_700, 3, None);
    proof {
        lemma_opens(s0, script.steps@);
    }
    let ghost kept1 = script.steps@;
    for index in 0..3usize
        invariant
            script.wf(),
            kept1.len() <= script.steps@.len(),
            forall|q: int| 0 <= q < kept1.len() ==> #[trigger] script.steps@[q] == kept1[q],
            opened(script.steps@),
            roster@.len() == 3,
            script.steps@.len() == 4 + index,
            script.now_ms <= 3_600,
    {
        let (player, number) = roster[index];
        let slot = ch_slot(number);
        script.command_text(
            2_400 + index as u64 * 600,
            take_note(player, slot.as_str()),
            player,
            take_message(slot.as_str()),
        );
    }
    proof {
        reveal_strlit("!startchain");
    }
    script.command(4_600, "The chain arms", "Raidlead", "!startchain");

    let first: u64 = 6_000;
    let ghost kept2 = script.steps@;
    for index in 0..3usize
        invariant
            script.wf(),
            kept2.len() <= script.steps@.len(),
            forall|q: int| 0 <= q < kept2.len() ==> #[trigger] script.steps@[q] == kept2[q],
            opened(script.steps@),
            interval == 3400,
            first == 6_000,
            roster@.len() == 3,
            script.steps@.len() == 8 + index,
    {
        let (player, number) = roster[index];
        let slot = ch_slot(number);
        script.cast(
            first + index as u64 * interval,
            note4(player, " casts ", slot.as_str(), " cleanly"),
            player,
            slot.as_str(),
            "CH",
            "Mluian",
        );
    }

    // The second round comes around and two of the three macros are wrong.
    // Each of these clerics really did cast, so the lines still sit a full
    // cast apart from their last one.
    let broken = first + cycle;
    script.cast(broken, str_string("You cast normally"), "YOU", "001", "CH", "Mluian");
    let ghost shown0 = script.steps@.len() - 1;
    proof {
        reveal_strlit("GG CH -- Mluian");
    }
    script.misfire(
        broken + interval,
        "Portlia's macro has no number, so Alfred cannot read it",
        "Portlia",
        "GG CH -- Mluian",
    );
    let ghost shown1 = script.steps@.len() - 1;
    proof {
        reveal_strlit("GG CH 003 -- Mluian");
    }
    script.misfire(
        broken + 2 * interval,
        "Bellamere put the number after the spell, so Alfred cannot read it",
        "Bellamere",
        "GG CH 003 -- Mluian",
    );
    let ghost shown2 = script.steps@.len() - 1;
    proof {
        reveal_strlit("GG RCH -- Grendel");
    }
    script.misfire(
        broken + 2 * interval + 900,
        "Curaja sends a rampage macro with no letter, so Alfred cannot read it",
        "Curaja",
        "GG RCH -- Grendel",
    );
    let ghost shown3 = script.steps@.len() - 1;

    let fixed = broken + cycle;
    script.cast(fixed, str_string("You keep the chain alive"), "YOU", "001", "CH", "Mluian");
    let ghost shown4 = script.steps@.len() - 1;
    script.cast(fixed + interval, str_string("Portlia fixes her macro"), "Portlia", "002", "CH", "Mluian");
    let ghost shown5 = script.steps@.len() - 1;
    script.cast(fixed + 2 * interval, str_string("Bellamere fixes his macro"), "Bellamere", "003", "CH", "Mluian");
    proof {
        reveal_strlit("!stopchain");
    }
    script.command(fixed + cycle, "Mob is down", "Raidlead", "!stopchain");
    proof {
        lemma_stopped(script.steps@);
        assert(says(script.steps@[shown0], "YOU"@, heal_line("001"@, "CH"@, "Mluian"@)));
        assert(says(script.steps@[shown1], "Portlia"@, "GG CH -- Mluian"@));
        assert(says(script.steps@[shown2], "Bellamere"@, "GG CH 003 -- Mluian"@));
        assert(says(script.steps@[shown3], "Curaja"@, "GG RCH -- Grendel"@));
        assert(says(script.steps@[shown4], "YOU"@, heal_line("001"@, "CH"@, "Mluian"@)));
        assert(says(script.steps@[shown5], "Portlia"@, heal_line("002"@, "CH"@, "Mluian"@)));
    }
    script.finish()
}

/// The lead rearranges the chain while it is running, then starts over.
#[verifier::spinoff_prover]
#[verifier::rlimit(50)]
fn shuffle_steps() -> (steps: Vec<DemoStep>)
    ensures
        is_scenario(steps@),
        shows_shuffle(steps@),
{
    let roster: Vec<(&str, u32)> = vec![("YOU", 1u32), ("Portlia", 2), ("Bellamere", 3), ("Curaja", 4)];
    let interval = interval_ms(4);
    let cycle = cycle_ms(4);
    assert(interval == 2500 && cycle == 10_000);
    let mut script = Script::new();

    proof {
        reveal_strlit("!mt Mluian");
    }
    script.command(600, "Main tank", "Raidlead", "!mt Mluian");
    script.pace(1_200, 4, None);
    proof {
        lemma_opening(script.steps@);
    }
    for index in 0..4usize
        invariant
            script.wf(),
            opened(script.steps@),
            roster@.len() == 4,
            script.steps@.len() == 3 + index,
            script.now_ms <= 3_400,
    {
        let (player, number) = roster[index];
        let slot = ch_slot(number);
        script.command_text(
            1_900 + index as u64 * 500,
            take_note(player, slot.as_str()),
            player,
            take_message(slot.as_str()),
        );
    }
    proof {
        reveal_strlit("!startchain");
    }
    script.command(4_200, "The chain arms", "Raidlead", "!startchain");
    let ghost armed = script.steps@.len() - 1;
    proof {
        lemma_start_line(script.steps@[armed]);
    }

    let first: u64 = 5_600;
    for index in 0..4usize
        invariant
            script.wf(),
            opened(script.steps@),
            interval == 2500,
            first == 5_600,
            roster@.len() == 4,
            script.steps@.len() == 8 + index,
            is_start_call(script.steps@[armed]),
            armed == 7,
    {
        let (player, number) = roster[index];
        let slot = ch_slot(number);
        script.cast(
            first + index as u64 * interval,
            note3(player, " casts ", slot.as_str()),
            player,
            slot.as_str(),
            "CH",
            "Mluian",
        );
    }

    let moved = first + cycle;
    proof {
        reveal_strlit("!move 001 004");
    }
    script.command(moved, "The lead swaps you with Curaja", "Raidlead", "!move 001 004");
    let ghost swapped = script.steps@.len() - 1;
    proof {
        reveal_strlit("!skip 003");
    }
    script.command(moved + 800, "Bellamere is asked to sit out for a heal", "Raidlead", "!skip 003");
    let ghost sat = script.steps@.len() - 1;
    script.pace(moved + 1_500, 3, None);

    let three = interval_ms(3);
    assert(three == 3400);
    let after = moved + 2_800;
    script.cast(after, str_string("Curaja now leads on 001"), "Curaja", "001", "CH", "Mluian");
    script.cast(after + three, str_string("Portlia keeps 002"), "Portlia", "002", "CH", "Mluian");
    script.cast(after + 2 * three, str_string("You cast from 004 now"), "YOU", "004", "CH", "Mluian");
    let ghost cast4 = script.steps@.len() - 1;

    let back = after + 3 * three;
    proof {
        reveal_strlit("!back 003");
    }
    script.command(back, "Bellamere comes back", "Bellamere", "!back 003");
    let ghost returned = script.steps@.len() - 1;
    script.pace(back + 700, 4, None);
    proof {
        reveal_strlit("!reset-chain");
    }
    script.command(back + 2_000, "The lead wipes the board and starts the next pull clean", "Raidlead", "!reset-chain");
    let ghost wiped = script.steps@.len() - 1;
    script.pace(back + 3_000, 2, None);
    proof {
        reveal_strlit("!take 001");
    }
    script.command(back + 3_600, "You take 001 again", "YOU", "!take 001");
    proof {
        reveal_strlit("!take 002");
    }
    script.command(back + 4_200, "Portlia takes 002 again", "Portlia", "!take 002");
    proof {
        reveal_strlit("!startchain");
    }
    script.command(back + 4_800, "Fresh start", "Raidlead", "!startchain");
    let ghost restarted = script.steps@.len() - 1;
    proof {
        lemma_start_line(script.steps@[restarted]);
    }
    let pair = interval_ms(2);
    assert(pair == 5000);
    script.cast(back + 6_000, str_string("You open the new chain"), "YOU", "001", "CH", "Mluian");
    script.cast(back + 6_000 + pair, str_string("Portlia answers"), "Portlia", "002", "CH", "Mluian");
    proof {
        reveal_strlit("!stopchain");
    }
    script.command(back + 6_000 + 3 * pair, "Done", "Raidlead", "!stopchain");
    proof {
        lemma_stopped(script.steps@);
        let s = script.steps@;
        assert(is_start_call(s[armed]));
        assert(says(s[swapped], "Raidlead"@, "!move 001 004"@));
        assert(says(s[sat], "Raidlead"@, "!skip 003"@));
        assert(says(s[returned], "Bellamere"@, "!back 003"@));
        assert(says(s[cast4], "YOU"@, heal_line("004"@, "CH"@, "Mluian"@)) && is_shout(s[cast4]));
        assert(says(s[wiped], "Raidlead"@, "!reset-chain"@));
        assert(is_start_call(s[restarted]));
    }
    script.finish()
}

// ------------------------------------------------------------------ raid

/// How many names the raid roster cycles through.
pub const CLERIC_NAME_COUNT: usize = 23;

/// Enough names for a full raid roster. You are always on the chain too.
pub open spec fn cleric_names() -> Seq<Seq<char>> {
    seq![
        "Portlia"@,
        "Bellamere"@,
        "Curaja"@,
        "Dunkin"@,
        "Hanbox"@,
        "Mirelda"@,
        "Oswynne"@,
        "Faldric"@,
        "Genevive"@,
        "Tobrin"@,
        "Marisol"@,
        "Ellowyn"@,
        "Brannoc"@,
        "Sisterwin"@,
        "Alderic"@,
        "Quillon"@,
        "Verath"@,
        "Lumenna"@,
        "Corwyn"@,
        "Perrin"@,
        "Sableen"@,
        "Rhoswen"@,
        "Wendric"@,
    ]
}

pub fn cleric_name(k: usize) -> (name: &'static str)
    requires
        k < CLERIC_NAME_COUNT,
    ensures
        name@ == cleric_names()[k as int],
{
    match k {
        0 => "Portlia",
        1 => "Bellamere",
        2 => "Curaja",
        3 => "Dunkin",
        4 => "Hanbox",
        5 => "Mirelda",
        6 => "Oswynne",
        7 => "Faldric",
        8 => "Genevive",
        9 => "Tobrin",
        10 => "Marisol",
        11 => "Ellowyn",
        12 => "Brannoc",
        13 => "Sisterwin",
        14 => "Alderic",
        15 => "Quillon",
        16 => "Verath",
        17 => "Lumenna",
        18 => "Corwyn",
        19 => "Perrin",
        20 => "Sableen",
        21 => "Rhoswen",
        _ => "Wendric",
    }
}

/// No cleric on the roster is called `YOU`.
pub proof fn lemma_no_cleric_is_you(k: int)
    requires
        0 <= k < CLERIC_NAME_COUNT,
    ensures
        cleric_names()[k] != "YOU"@,
{
    reveal_strlit("YOU");
    reveal_strlit("Portlia");
    reveal_strlit("Bellamere");
    reveal_strlit("Curaja");
    reveal_strlit("Dunkin");
    reveal_strlit("Hanbox");
    reveal_strlit("Mirelda");
    reveal_strlit("Oswynne");
    reveal_strlit("Faldric");
    reveal_strlit("Genevive");
    reveal_strlit("Tobrin");
    reveal_strlit("Marisol");
    reveal_strlit("Ellowyn");
    reveal_strlit("Brannoc");
    reveal_strlit("Sisterwin");
    reveal_strlit("Alderic");
    reveal_strlit("Quillon");
    reveal_strlit("Verath");
    reveal_strlit("Lumenna");
    reveal_strlit("Corwyn");
    reveal_strlit("Perrin");
    reveal_strlit("Sableen");
    reveal_strlit("Rhoswen");
    reveal_strlit("Wendric");
    assert(cleric_names()[k].len() != 3);
}

/// Who sits in seat `i` when you sit in seat `you_at`: the names go round in
/// order, skipping your seat.
pub open spec fn roster_name(i: int, you_at: int) -> Seq<char> {
    if i == you_at {
        "YOU"@
    } else {
        cleric_names()[(if i > you_at { i - 1 } else { i }) % (CLERIC_NAME_COUNT as int)]
    }
}

/// You take a number in the middle of the pack so the "Cast in" countdown has
/// somewhere to run. `you_at` is a seat in the starting group, so you are never
/// one of the clerics who wanders in halfway through the pull.
pub fn raid_roster(clerics: usize, you_at: usize) -> (names: Vec<String>)
    ensures
        names@.len() == clerics,
        forall|i: int| 0 <= i < clerics ==> (#[trigger] names@[i])@ == roster_name(i, you_at as int),
        forall|i: int| 0 <= i < clerics ==> ((#[trigger] names@[i])@ == "YOU"@ <==> i == you_at),
{
    let mut names: Vec<String> = Vec::new();
    let mut pool: usize = 0;
    for index in 0..clerics
        invariant
            names@.len() == index,
            pool == (if index > you_at { index - 1 } else { index as int }),
            forall|i: int| 0 <= i < index ==> (#[trigger] names@[i])@ == roster_name(i, you_at as int),
    {
        if index == you_at {
            names.push(str_string("YOU"));
        } else {
            names.push(str_string(cleric_name(pool % CLERIC_NAME_COUNT)));
            pool += 1;
        }
    }
    proof {
        assert forall|i: int| 0 <= i < clerics implies ((#[trigger] names@[i])@ == "YOU"@ <==> i == you_at) by {
            if i != you_at {
                let k = (if i > you_at { i - 1 } else { i }) % (CLERIC_NAME_COUNT as int);
                lemma_no_cleric_is_you(k);
            }
        }
    }
    names
}

pub open spec fn spec_you_seat(clerics: int) -> int {
    let last = if clerics == 0 { 0 } else { clerics - 1 };
    if clerics / 3 < last {
        clerics / 3
    } else {
        last
    }
}

/// A third of the way into the starting group, and inside it.
pub fn you_seat(clerics: usize) -> (seat: usize)
    ensures
        seat == spec_you_seat(clerics as int),
        clerics >= 1 ==> seat < clerics,
{
    let last = if clerics == 0 { 0 } else { clerics - 1 };
    if clerics / 3 < last {
        clerics / 3
    } else {
        last
    }
}

/// A seat that can be sent off to med: on the chain, and not you.
pub open spec fn can_rest(roster: Seq<String>, active: Seq<bool>, seat: int) -> bool {
    active[seat] && roster[seat]@ != "YOU"@
}

/// Nobody in the first `steps` seats from `start`, going round, can be sent off.
pub open spec fn none_can_rest(roster: Seq<String>, active: Seq<bool>, start: int, steps: int) -> bool {
    forall|t: int| 0 <= t < steps ==> !#[trigger] can_rest(roster, active, (start + t) % (roster.len() as int))
}

/// The next cleric to send off to med: anyone on the chain except you, so the
/// panels keep counting down to your own turn. The search starts at `cursor`
/// and wraps around; the cursor moves past whoever is picked.
pub fn next_skip_seat(roster: &Vec<String>, active: &Vec<bool>, cursor: &mut usize) -> (r: Option<usize>)
    requires
        roster@.len() == active@.len(),
        *old(cursor) + roster@.len() <= usize::MAX,
    ensures
        match r {
            Some(seat) => {
                &&& seat < roster@.len()
                &&& can_rest(roster@, active@, seat as int)
                &&& *final(cursor) == seat + 1
                &&& exists|step: int|
                    0 <= step < roster@.len() && seat == (*old(cursor) + step) % (roster@.len() as int)
                        && #[trigger] none_can_rest(roster@, active@, *old(cursor) as int, step)
            },
            None => {
                &&& *final(cursor) == *old(cursor)
                &&& none_can_rest(roster@, active@, *old(cursor) as int, roster@.len() as int)
            },
        },
{
    let n = roster.len();
    let start = *cursor;
    for step in 0..n
        invariant
            n == roster@.len(),
            n == active@.len(),
            start == *old(cursor),
            *cursor == start,
            start + n <= usize::MAX,
            none_can_rest(roster@, active@, start as int, step as int),
    {
        let seat = (start + step) % n;
        let name = chars_of(roster[seat].as_str());
        if active[seat] && !crate::text::seq_eq_str(&name, "YOU") {
            *cursor = seat + 1;
            assert(can_rest(roster@, active@, (start + step) % (n as int)));
            assert(none_can_rest(roster@, active@, start as int, step as int));
            return Some(seat);
        }
        assert(!can_rest(roster@, active@, (start + step) % (n as int)));
    }
    None
}

/// Small deterministic wobble so the offsets on the report are not all zero.
pub fn jitter_ms(round: u64, index: usize) -> (ms: i64)
    requires
        round * 31 + index * 17 <= u64::MAX,
    ensures
        ms == ((round * 31 + index * 17) % 7) * 45 - 135,
{
    (((round * 31 + index as u64 * 17) % 7) as i64) * 45 - 135
}

/// `!skip {slot}`, `!back {slot}`.
fn seat_message(command: &str, seat: usize) -> (r: String)
    requires
        seat < 100,
    ensures
        r@ == command@ + pad3(seat as nat + 1),
{
    let slot = ch_slot(seat as u32 + 1);
    let r = note3(command, slot.as_str(), "");
    proof {
        reveal_strlit("");
        assert(r@ =~= command@ + pad3(seat as nat + 1));
    }
    r
}

fn is_you(name: &str) -> (r: bool)
    ensures
        r == (name@ == "YOU"@),
{
    same_name(name, "YOU")
}

/// A long pull that starts short-handed and fills up: latecomers take numbers
/// and the lead re-paces, clerics skip out and come back, one drifts late, one
/// misses turns, and one heals the wrong tank.
fn raid_steps(options: DemoOptions) -> (steps: Vec<DemoStep>)
    requires
        options.is_normal(),
    ensures
        is_scenario(steps@),
        raid_opening(steps@, options.clerics as int, spec_you_seat(options.clerics as int)),
        exists|n: nat| options.clerics <= n <= options.max_clerics && #[trigger] take_roll(n) == take_lines(steps@),
        all_join(options) ==> take_lines(steps@) == take_roll(options.max_clerics as nat),
        repaced_after(steps@, 4 + options.clerics),
        exists|k: int|
            0 <= k < steps@.len() && is_shout(steps@[k]) && #[trigger] says(
                steps@[k],
                "YOU"@,
                heal_line(pad3((spec_you_seat(options.clerics as int) + 1) as nat), "CH"@, "Mluian"@),
            ),
{
    let start = options.clerics;
    let max = options.max_clerics;
    let you_at = you_seat(start);
    let roster = raid_roster(max, you_at);
    let budget = options.minutes as u64 * 60_000;
    let mut script = Script::new();

    // Roles only make sense once the roster is big enough to spare them.
    let quirks = max >= 6;
    let slow = 4 % max;
    let flaky = 7 % max;
    let sloppy = 11 % max;

    proof {
        reveal_strlit("!mt Mluian");
    }
    script.command(600, "The raid lead names the main tank", "Raidlead", "!mt Mluian");
    script.pace(1_200, start, None);
    proof {
        lemma_opening(script.steps@);
        lemma_raid_head(script.steps@);
    }

    let mut at: u64 = 2_000;
    for seat in 0..start
        invariant
            script.wf(),
            opened(script.steps@),
            start <= MAX_CLERICS,
            roster@.len() == max,
            start <= max,
            at == 2_000 + seat * 350,
            script.steps@.len() == 3 + seat,
            forall|i: int| 0 <= i < max ==> (#[trigger] roster@[i])@ == roster_name(i, you_at as int),
            forall|k: int|
                0 <= k < seat ==> #[trigger] says(
                    script.steps@[3 + k],
                    roster_name(k, you_at as int),
                    "!take "@ + pad3((k + 1) as nat),
                ),
            forall|q: int| 0 <= q < script.steps@.len() ==> !#[trigger] is_start_call(script.steps@[q]),
            count_takes(script.steps@) == seat,
            take_lines(script.steps@) == take_roll(seat as nat),
    {
        let player = roster[seat].as_str();
        let slot = ch_slot(seat as u32 + 1);
        let note = if is_you(player) {
            note3("You take ", slot.as_str(), "")
        } else {
            take_note(player, slot.as_str())
        };
        let ghost s0 = script.steps@;
        script.command_text(at, note, player, take_message(slot.as_str()));
        proof {
            let s = script.steps@;
            lemma_take_line(slot@);
            lemma_count_push(s0, s.last());
            lemma_roll(s0, s, seat as nat);
            lemma_not_start(s.last().message@);
            assert forall|q: int| 0 <= q < s.len() implies !#[trigger] is_start_call(s[q]) by {
                if q < s0.len() {
                    assert(s[q] == s0[q]);
                }
            }
            assert forall|k: int| 0 <= k <= seat implies #[trigger] says(
                s[3 + k],
                roster_name(k, you_at as int),
                "!take "@ + pad3((k + 1) as nat),
            ) by {
                if k < seat {
                    assert(s[3 + k] == s0[3 + k]);
                }
            }
        }
        at += 350;
    }

    let ghost pre = script.steps@;
    proof {
        reveal_strlit("!startchain");
    }
    script.command(at + 600, "The chain arms", "Raidlead", "!startchain");
    let ghost open = script.steps@;
    proof {
        lemma_start_line(open.last());
        lemma_roll(pre, open, start as nat);
        assert(open.take(3 + start) =~= pre);
        assert forall|k: int| 0 <= k < start implies #[trigger] says(
            open[3 + k],
            roster_name(k, you_at as int),
            "!take "@ + pad3((k + 1) as nat),
        ) by {
            assert(open[3 + k] == pre[3 + k]);
        }
        assert forall|q: int| 0 <= q < 3 + start implies !#[trigger] is_start_call(open[q]) by {
            assert(open[q] == pre[q]);
        }
        assert(raid_opening(open, start as int, you_at as int));
    }

    let first = at + 2_000;
    let mut active: Vec<bool> = Vec::new();
    for seat in 0..max
        invariant
            active@.len() == seat,
            forall|k: int| 0 <= k < seat ==> active@[k] == (k < start),
    {
        active.push(seat < start);
    }
    let mut live = start;
    let joiners = max - start;
    // Spread the latecomers over the first part of the pull so the last one in
    // still gets turns on a full chain.
    let join_every: u64 = if joiners == 0 {
        u64::MAX
    } else {
        let spread = if budget * 7 / 10 > JOIN_LEAD_MS { budget * 7 / 10 - JOIN_LEAD_MS } else { 0 };
        let each = spread / joiners as u64;
        if each > 4_000 { each } else { 4_000 }
    };
    let mut next_join = start;
    let mut join_at = first + JOIN_LEAD_MS;
    let mut skip_at = first + SKIP_FIRST_MS;
    let mut back_at = u64::MAX;
    let mut resting: Option<usize> = None;
    let mut skip_cursor: usize = 0;

    let mut round: u64 = 0;
    let mut clock = first;
    let mut last = first;
    let ghost mut sched: int = 0;
    let ghost gap: int = if join_every > ROUND_MS { join_every as int } else { ROUND_MS as int };
    let ghost mut lag: int = 0;
    assert(joiners > 0 ==> join_every == spec_join_every(options));
    let ghost mut you_ch: bool = false;
    let ghost mut yk: int = 0;
    while clock - first < budget
        invariant_except_break
            script.steps@.len() <= 40 + round * 30,
        invariant
            budget >= 60_000,
            you_at < start <= max,
            forall|i: int| 0 <= i < max ==> ((#[trigger] roster@[i])@ == "YOU"@ <==> i == you_at),
            round == 0 ==> clock == first && join_at == first + JOIN_LEAD_MS && skip_at == first + SKIP_FIRST_MS
                && resting is None && forall|k: int| 0 <= k < max ==> #[trigger] active@[k] == (k < start),
            you_ch ==> 0 <= yk < script.steps@.len() && is_shout(script.steps@[yk]) && says(script.steps@[yk], "YOU"@, heal_line(pad3((you_at + 1) as nat), "CH"@, "Mluian"@)),
            round > 0 ==> you_ch,
            take_lines(script.steps@) == take_roll(next_join as nat),
            active@[you_at as int],
            joiners == max - start,
            joiners > 0 ==> join_every == spec_join_every(options) && 4_000 <= join_every <= 1_800_000,
            sched == (next_join - start) * join_every,
            next_join < max ==> join_at == first + JOIN_LEAD_MS + sched,
            gap >= join_every && gap >= ROUND_MS,
            joiners > 0 ==> gap == join_gap(options),
            lag == (next_join - start) * gap,
            sched <= lag,
            next_join < max ==> clock - first <= JOIN_LEAD_MS + lag + ROUND_MS,
            script.wf(),
            opened(script.steps@),
            roster@.len() == max,
            active@.len() == max,
            1 <= max <= MAX_CLERICS,
            start <= next_join <= max,
            slow < max,
            flaky < max,
            sloppy < max,
            budget <= 1_800_000,
            first <= 14_000,
            first <= clock,
            round * 1_000 <= clock - first,
            round <= 1_801,
            clock <= first + budget + 242_000,
            script.steps@.len() <= 44 + round * 30,
            skip_cursor <= max,
            live + (if resting is Some { 1int } else { 0int }) <= next_join,
            resting matches Some(s) ==> s < max,
            last <= script.now_ms || last <= 14_000,
            open.len() <= script.steps@.len(),
            forall|q: int| 0 <= q < open.len() ==> #[trigger] script.steps@[q] == open[q],
            repaced_after(script.steps@, open.len() as int),
        ensures
            round > 0,
            next_join < max ==> clock - first >= budget,
            start <= next_join <= max,
            sched == (next_join - start) * join_every,
            lag == (next_join - start) * gap,
            next_join < max ==> clock - first <= JOIN_LEAD_MS + lag + ROUND_MS,
            take_lines(script.steps@) == take_roll(next_join as nat),
            repaced_after(script.steps@, open.len() as int),
        decreases first + budget + 243_000 - clock,
    {
        let ghost c0 = clock;
        let ghost n0 = next_join;
        let ghost due = join_at;
        let ghost sched0 = sched;
        if next_join < max && clock >= join_at {
            let number = next_join as u32 + 1;
            let player = roster[next_join].as_str();
            let slot = ch_slot(number);
            let ghost s0 = script.steps@;
            script.command_text(
                clock,
                note4(player, " shows up late and takes ", slot.as_str(), ""),
                player,
                take_message(slot.as_str()),
            );
            proof {
                lemma_roll(s0, script.steps@, next_join as nat);
            }
            active.set(next_join, true);
            live += 1;
            proof {
                sched = sched + join_every;
                lag = lag + gap;
                assert(sched == (next_join + 1 - start) * join_every) by (nonlinear_arith)
                    requires
                        sched == (next_join - start) * join_every + join_every,
                ;
                assert(lag == (next_join + 1 - start) * gap) by (nonlinear_arith)
                    requires
                        lag == (next_join - start) * gap + gap,
                ;
            }
            next_join += 1;
            // Absolute schedule, so a slow round does not push the rest back.
            proof {
                assert((next_join - 1 - start) * join_every <= 24 * 1_800_000) by (nonlinear_arith)
                    requires
                        0 <= next_join - 1 - start < 24,
                        join_every <= 1_800_000,
                ;
            }
            join_at = join_at.saturating_add(join_every);
            let ghost s1 = script.steps@;
            script.pace(clock + 500, live, None);
            proof {
                lemma_roll(s1, script.steps@, next_join as nat);
                lemma_repaced_pair(s0, s1, script.steps@, open.len() as int);
            }
            clock += 1_000;
        }
        match resting {
            Some(seat) => {
                if clock >= back_at {
                    let player = roster[seat].as_str();
                    proof {
                        reveal_strlit("!back ");
                    }
                    let ghost s0 = script.steps@;
                    script.command_text(
                        clock,
                        note3(player, " is back on the chain", ""),
                        player,
                        seat_message("!back ", seat),
                    );
                    proof {
                        lemma_roll(s0, script.steps@, next_join as nat);
                    }
                    active.set(seat, true);
                    live += 1;
                    resting = None;
                    let ghost s1 = script.steps@;
                    script.pace(clock + 500, live, None);
                    proof {
                        lemma_roll(s1, script.steps@, next_join as nat);
                lemma_repaced_pair(s0, s1, script.steps@, open.len() as int);
                    }
                    clock += 1_000;
                    skip_at = clock + SKIP_EVERY_MS;
                }
            },
            None => {
                // Nobody sits out unless the pull lasts long enough for them to come back.
                if clock >= skip_at && live > 2 && clock + BACK_AFTER_MS < first + budget {
                    match next_skip_seat(&roster, &active, &mut skip_cursor) {
                        Some(seat) => {
                            let player = roster[seat].as_str();
                            proof {
                                reveal_strlit("!skip ");
                            }
                            let ghost s0 = script.steps@;
                            script.command_text(
                                clock,
                                note3(player, " drops out to med", ""),
                                player,
                                seat_message("!skip ", seat),
                            );
                            proof {
                                lemma_roll(s0, script.steps@, next_join as nat);
                            }
                            active.set(seat, false);
                            live -= 1;
                            resting = Some(seat);
                            back_at = clock + BACK_AFTER_MS;
                            let ghost s1 = script.steps@;
                            script.pace(clock + 500, live, None);
                            proof {
                                lemma_roll(s1, script.steps@, next_join as nat);
                lemma_repaced_pair(s0, s1, script.steps@, open.len() as int);
                            }
                            clock += 1_000;
                        },
                        None => {},
                    }
                }
            },
        }

        let mut seats: Vec<usize> = Vec::new();
        for seat in 0..max
            invariant
                active@.len() == max,
                seats@.len() <= seat,
                forall|k: int| 0 <= k < seats@.len() ==> #[trigger] seats@[k] < seat,
                forall|j: int| 0 <= j < seat && #[trigger] active@[j] ==> seats@.contains(j as usize),
        {
            if active[seat] {
                let ghost before = seats@;
                seats.push(seat);
                proof {
                    assert forall|j: int| 0 <= j <= seat && #[trigger] active@[j] implies seats@.contains(j as usize) by {
                        if j < seat {
                            let w = choose|w: int| 0 <= w < before.len() && before[w] == j as usize;
                            assert(seats@[w] == before[w]);
                        } else {
                            assert(seats@[before.len() as int] == seat);
                        }
                    }
                }
            }
        }
        proof {
            assert(active@[you_at as int]);
            assert(seats@.contains(you_at));
        }
        if seats.len() == 0 {
            break;
        }
        let count = seats.len();
        let interval = interval_ms(count);
        let ghost before = script.steps@.len();
        for position in 0..count
            invariant
                script.wf(),
                opened(script.steps@),
                count == seats@.len(),
                1 <= count <= MAX_CLERICS,
                roster@.len() == max,
                max <= MAX_CLERICS,
                forall|k: int| 0 <= k < seats@.len() ==> #[trigger] seats@[k] < max,
                1000 <= interval <= 10_000,
                clock <= first + budget + 242_000,
                budget <= 1_800_000,
                first <= 14_000,
                round <= 1_801,
                script.steps@.len() <= before + position,
                before <= 44 + round * 30,
                last <= script.now_ms || last <= 14_000,
                open.len() <= script.steps@.len(),
                forall|q: int| 0 <= q < open.len() ==> #[trigger] script.steps@[q] == open[q],
                you_at < max,
                forall|i: int| 0 <= i < max ==> ((#[trigger] roster@[i])@ == "YOU"@ <==> i == you_at),
                you_ch ==> 0 <= yk < script.steps@.len() && is_shout(script.steps@[yk]) && says(script.steps@[yk], "YOU"@, heal_line(pad3((you_at + 1) as nat), "CH"@, "Mluian"@)),
                round > 0 ==> you_ch,
                round == 0 && (exists|w: int| 0 <= w < position && #[trigger] seats@[w] == you_at) ==> you_ch,
                take_lines(script.steps@) == take_roll(next_join as nat),
                repaced_after(script.steps@, open.len() as int),
        {
            let seat = seats[position];
            let player = roster[seat].as_str();
            let slot = ch_slot(seat as u32 + 1);
            if !(quirks && seat == flaky && round % 5 == 4) {
                let late: i64 = if quirks && seat == slow { 600 } else { 0 };
                let wobble = jitter_ms(round, seat) + late;
                assert(position * interval <= 240_000) by (nonlinear_arith)
                    requires
                        position < 24,
                        interval <= 10_000,
                ;
                let beat = clock + position as u64 * interval;
                let shifted = beat as i64 + wobble;
                let at = if shifted > 0 { shifted as u64 } else { 0 };
                let wrong = quirks && seat == sloppy && round % 7 == 3;
                let target = if wrong { "Beefwich" } else { "Mluian" };
                let note = if wrong {
                    note3(player, " CHes the wrong tank on ", slot.as_str())
                } else if late > 0 {
                    note3(player, " is late again on ", slot.as_str())
                } else {
                    round_note(player, " casts ", slot.as_str(), round + 1)
                };
                let ghost s0 = script.steps@;
                last = script.cast(at, note, player, slot.as_str(), "CH", target);
                proof {
                    lemma_roll(s0, script.steps@, next_join as nat);
                    lemma_repaced_keeps(s0, script.steps@, open.len() as int);
                    if round == 0 && seat == you_at {
                        reveal_strlit("Mluian");
                        reveal_strlit("Beefwich");
                        you_ch = true;
                        yk = script.steps@.len() - 1;
                    }
                }
            }
            proof {
                if round == 0 && (exists|w: int| 0 <= w < position + 1 && #[trigger] seats@[w] == you_at) {
                    if seats@[position as int] != you_at {
                        let w = choose|w: int| 0 <= w < position + 1 && #[trigger] seats@[w] == you_at;
                        assert(w < position);
                    }
                }
            }
        }
        assert(interval * count >= 1_000 && interval * count <= 240_000) by (nonlinear_arith)
            requires
                1000 <= interval <= 10_000,
                1 <= count <= 24,
        ;
        proof {
            if round == 0 {
                let w = choose|w: int| 0 <= w < seats@.len() && seats@[w] == you_at;
                assert(seats@[w] == you_at);
            }
        }
        proof {
            lemma_rotation_bound(count as nat);
            assert(clock <= c0 + 2_000);
        }
        clock += interval * count as u64;
        round += 1;
        proof {
            if next_join < max {
                if next_join == n0 {
                    assert(c0 < due);
                }
            }
        }
    }
    proof {
        if all_join(options) && next_join < max {
            assert((next_join - start) * gap <= (joiners - 1) * gap) by (nonlinear_arith)
                requires
                    next_join - start <= joiners - 1,
                    gap >= 0,
            ;
            assert(false);
        }
        reveal_strlit("!stopchain");
    }
    let ghost s0 = script.steps@;
    script.command(last + 2_000, "The mob is down", "Raidlead", "!stopchain");
    proof {
        lemma_roll(s0, script.steps@, next_join as nat);
        lemma_repaced_keeps(s0, script.steps@, open.len() as int);
        assert(open.len() == 4 + start);
        assert(take_roll(next_join as nat) == take_lines(script.steps@));
        lemma_stopped(script.steps@);
        let s = script.steps@;
        assert(s.take(3 + start) =~= open.take(3 + start));
        assert forall|k: int| 0 <= k < start implies #[trigger] says(
            s[3 + k],
            roster_name(k, you_at as int),
            "!take "@ + pad3((k + 1) as nat),
        ) by {
            assert(s[3 + k] == open[3 + k]);
        }
        assert forall|q: int| 0 <= q < 3 + start implies !#[trigger] is_start_call(s[q]) by {
            assert(s[q] == open[q]);
        }
        assert(s[3 + start] == open[3 + start]);
        assert(s[yk] == script.steps@[yk]);
        assert(is_shout(s[yk]) && says(s[yk], "YOU"@, heal_line(pad3((you_at + 1) as nat), "CH"@, "Mluian"@)));
    }
    script.finish()
}

/// `b` is `a` held back for a breather: four seconds later, its note
/// telling the next pull has begun.
pub open spec fn paused(a: DemoStep, b: DemoStep) -> bool {
    &&& b.delay_ms == a.delay_ms + 4_000
    &&& b.note@ == "Next pull. "@ + a.note@
    &&& b.speaker@ == a.speaker@
    &&& b.channel == a.channel
    &&& b.message@ == a.message@
}

/// `steps` is the pulls of `parts` back to back, each after the first
/// opening with a breather.
pub open spec fn joins(parts: Seq<Seq<DemoStep>>, steps: Seq<DemoStep>) -> bool
    decreases parts.len(),
{
    if parts.len() == 0 {
        steps.len() == 0
    } else if parts.len() == 1 {
        steps == parts[0]
    } else {
        let last = parts.last();
        let n = steps.len() - last.len();
        &&& last.len() >= 1
        &&& n >= 0
        &&& joins(parts.drop_last(), steps.take(n))
        &&& paused(last[0], steps[n])
        &&& forall|k: int| 1 <= k < last.len() ==> #[trigger] steps[n + k] == last[k]
    }
}

proof fn lemma_framed_extends(a: Seq<DemoStep>, b: Seq<DemoStep>)
    requires
        framed(a),
        a.len() <= b.len(),
        forall|i: int| 0 <= i < a.len() ==> #[trigger] b[i] == a[i],
    ensures
        framed(b),
{
    let k = choose|k: int| 0 <= k < a.len() && #[trigger] is_tank_call(a[k]);
    assert(b[k] == a[k]);
    let p = choose|p: int|
        0 <= p < a.len() && #[trigger] is_pace_call(a[p]) && forall|q: int| 0 <= q < p ==> !#[trigger] is_start_call(a[q]);
    assert(b[p] == a[p]);
    assert forall|q: int| 0 <= q < p implies !#[trigger] is_start_call(b[q]) by {
        assert(b[q] == a[q]);
    }
    let j = choose|j: int| 0 <= j < a.len() && #[trigger] is_stop_call(a[j]);
    assert(b[j] == a[j]);
}

/// Back to back scenarios need a pause between them, or the clerics from the
/// last pull would be asked to cast again before their heal landed.
fn breather(steps: Vec<DemoStep>) -> (r: Vec<DemoStep>)
    requires
        steps@.len() >= 1 ==> steps@[0].delay_ms <= u64::MAX - 4_000,
    ensures
        r@.len() == steps@.len(),
        steps@.len() >= 1 ==> {
            &&& r@[0].delay_ms == steps@[0].delay_ms + 4_000
            &&& r@[0].note@ == "Next pull. "@ + steps@[0].note@
            &&& r@[0].speaker@ == steps@[0].speaker@
            &&& r@[0].channel == steps@[0].channel
            &&& r@[0].message@ == steps@[0].message@
        },
        forall|k: int| 1 <= k < steps@.len() ==> r@[k] == steps@[k],
{
    let mut steps = steps;
    if steps.len() == 0 {
        return steps;
    }
    let first = steps.remove(0);
    let mut note = Text::new();
    note.s("Next pull. ");
    note.s(first.note.as_str());
    let step = DemoStep {
        delay_ms: first.delay_ms + 4_000,
        note: note.done(),
        speaker: first.speaker,
        channel: first.channel,
        message: first.message,
    };
    steps.insert(0, step);
    steps
}

// ------------------------------------------------------------- catalogue

/// The scenarios on the demo page, in order.
pub open spec fn scenario_id_list() -> Seq<Seq<char>> {
    seq![
        "chain"@,
        "mistakes"@,
        "laggy"@,
        "wrongtank"@,
        "tankswap"@,
        "offtank"@,
        "split"@,
        "rampage"@,
        "rampagetank"@,
        "collision"@,
        "latejoin"@,
        "thin"@,
        "collapse"@,
        "macros"@,
        "shuffle"@,
        "raid"@,
        "full"@,
    ]
}

/// The scripted pulls, in the order "Everything" replays them. The raid
/// scenario is left out: it is configurable and runs as long as you ask.
pub open spec fn short_id_list() -> Seq<Seq<char>> {
    seq![
        "chain"@,
        "mistakes"@,
        "laggy"@,
        "wrongtank"@,
        "tankswap"@,
        "offtank"@,
        "split"@,
        "rampage"@,
        "rampagetank"@,
        "collision"@,
        "latejoin"@,
        "thin"@,
        "collapse"@,
        "macros"@,
        "shuffle"@,
    ]
}

pub open spec fn is_short_id(id: Seq<char>) -> bool {
    id == "chain"@
        || id == "mistakes"@
        || id == "laggy"@
        || id == "wrongtank"@
        || id == "tankswap"@
        || id == "offtank"@
        || id == "split"@
        || id == "rampage"@
        || id == "rampagetank"@
        || id == "collision"@
        || id == "latejoin"@
        || id == "thin"@
        || id == "collapse"@
        || id == "macros"@
        || id == "shuffle"@
}

/// `full` and `raid` are not among the scripted pulls, and differ.
proof fn lemma_full_is_its_own()
    ensures
        !is_short_id("full"@),
        !is_short_id("raid"@),
        "full"@ != "raid"@,
{
    reveal_strlit("full");
    reveal_strlit("raid");
    reveal_strlit("chain");
    reveal_strlit("mistakes");
    reveal_strlit("laggy");
    reveal_strlit("wrongtank");
    reveal_strlit("tankswap");
    reveal_strlit("offtank");
    reveal_strlit("split");
    reveal_strlit("rampage");
    reveal_strlit("rampagetank");
    reveal_strlit("collision");
    reveal_strlit("latejoin");
    reveal_strlit("thin");
    reveal_strlit("collapse");
    reveal_strlit("macros");
    reveal_strlit("shuffle");
    assert("full"@[0] != "thin"@[0]);
    assert("raid"@[0] != "thin"@[0]);
    assert("raid"@ != "thin"@);
    assert("chain"@ != "raid"@);
    assert("mistakes"@ != "raid"@);
    assert("laggy"@ != "raid"@);
    assert("wrongtank"@ != "raid"@);
    assert("tankswap"@ != "raid"@);
    assert("offtank"@ != "raid"@);
    assert("split"@ != "raid"@);
    assert("rampage"@[2] != "raid"@[2]);
    assert("rampage"@ != "raid"@);
    assert("rampagetank"@[2] != "raid"@[2]);
    assert("rampagetank"@ != "raid"@);
    assert("collision"@ != "raid"@);
    assert("latejoin"@ != "raid"@);
    assert("thin"@ != "raid"@);
    assert("collapse"@ != "raid"@);
    assert("macros"@ != "raid"@);
    assert("shuffle"@ != "raid"@);
    assert("full"@[0] != "raid"@[0]);
}

pub fn scenario_ids() -> (ids: Vec<&'static str>)
    ensures
        ids@.len() == scenario_id_list().len(),
        forall|k: int| 0 <= k < ids@.len() ==> (#[trigger] ids@[k])@ == scenario_id_list()[k],
{
    let ids: Vec<&'static str> = vec!["chain", "mistakes", "laggy", "wrongtank", "tankswap", "offtank", "split", "rampage", "rampagetank", "collision", "latejoin", "thin", "collapse", "macros", "shuffle", "raid", "full"];
    assert(ids@.len() == scenario_id_list().len());
    ids
}

pub fn short_ids() -> (ids: Vec<&'static str>)
    ensures
        ids@.len() == short_id_list().len(),
        forall|k: int| 0 <= k < ids@.len() ==> (#[trigger] ids@[k])@ == short_id_list()[k],
        forall|k: int| 0 <= k < ids@.len() ==> is_short_id((#[trigger] ids@[k])@),
{
    let ids: Vec<&'static str> = vec!["chain", "mistakes", "laggy", "wrongtank", "tankswap", "offtank", "split", "rampage", "rampagetank", "collision", "latejoin", "thin", "collapse", "macros", "shuffle"];
    ids
}

pub open spec fn scenario_name_of(id: Seq<char>) -> Seq<char> {
    if id == "chain"@ {
        "Cleric chain"@
    } else if id == "mistakes"@ {
        "Mistakes and alerts"@
    } else if id == "laggy"@ {
        "Laggy cleric"@
    } else if id == "wrongtank"@ {
        "Wrong tank"@
    } else if id == "tankswap"@ {
        "Main tank goes down"@
    } else if id == "offtank"@ {
        "Off tank joins mid-pull"@
    } else if id == "split"@ {
        "Two-tank split"@
    } else if id == "rampage"@ {
        "Rampage chain"@
    } else if id == "rampagetank"@ {
        "CH and rampage together"@
    } else if id == "collision"@ {
        "Number collisions"@
    } else if id == "latejoin"@ {
        "Joining a chain in progress"@
    } else if id == "thin"@ {
        "Short-handed chain"@
    } else if id == "collapse"@ {
        "Chain falls apart"@
    } else if id == "macros"@ {
        "Broken macros"@
    } else if id == "shuffle"@ {
        "Slot shuffle"@
    } else if id == "raid"@ {
        "Full raid chain"@
    } else {
        "Everything"@
    }
}

pub fn scenario_name(id: &str) -> (name: &'static str)
    ensures
        name@ == scenario_name_of(id@),
{
    if same_name(id, "chain") {
        "Cleric chain"
    } else if same_name(id, "mistakes") {
        "Mistakes and alerts"
    } else if same_name(id, "laggy") {
        "Laggy cleric"
    } else if same_name(id, "wrongtank") {
        "Wrong tank"
    } else if same_name(id, "tankswap") {
        "Main tank goes down"
    } else if same_name(id, "offtank") {
        "Off tank joins mid-pull"
    } else if same_name(id, "split") {
        "Two-tank split"
    } else if same_name(id, "rampage") {
        "Rampage chain"
    } else if same_name(id, "rampagetank") {
        "CH and rampage together"
    } else if same_name(id, "collision") {
        "Number collisions"
    } else if same_name(id, "latejoin") {
        "Joining a chain in progress"
    } else if same_name(id, "thin") {
        "Short-handed chain"
    } else if same_name(id, "collapse") {
        "Chain falls apart"
    } else if same_name(id, "macros") {
        "Broken macros"
    } else if same_name(id, "shuffle") {
        "Slot shuffle"
    } else if same_name(id, "raid") {
        "Full raid chain"
    } else {
        "Everything"
    }
}

pub open spec fn scenario_description_of(id: Seq<char>) -> Seq<char> {
    if id == "chain"@ {
        "Four clerics 2.5s apart, the chain starts, and the rotation runs clean."@
    } else if id == "mistakes"@ {
        "A taken number, a wrong target, a macro Alfred cannot read, and a skip that re-paces the chain."@
    } else if id == "laggy"@ {
        "One cleric drifts later every round until he misses his turn, gets skipped, and comes back on the beat."@
    } else if id == "wrongtank"@ {
        "A split chain where clerics keep CHing the tank they are not assigned to, on both sides of the split."@
    } else if id == "tankswap"@ {
        "The main tank dies mid-pull and the lead names a new one. One cleric keeps healing the old tank."@
    } else if id == "offtank"@ {
        "A single rotation splits in two mid-pull when the off tank picks up a add, then folds back together."@
    } else if id == "split"@ {
        "Main tank and off tank on separate rotations, two clerics on each."@
    } else if id == "rampage"@ {
        "Three clerics on rampage letters, 3.4s apart."@
    } else if id == "rampagetank"@ {
        "A CH chain on the main tank and a rampage chain on another mob at the same time, with one rampage heal on the wrong target."@
    } else if id == "collision"@ {
        "Four clerics fight over the same numbers: taken slots, auto-takes, a number taken for someone else, and a CH on a slot that is not yours."@
    } else if id == "latejoin"@ {
        "You arrive after the pull started. Alfred infers the interval from the shouts it can hear and syncs you behind the last cleric."@
    } else if id == "thin"@ {
        "Two clerics 5s apart, one drops to a solo chain on the cast time, then a third arrives and the lead tightens the pace."@
    } else if id == "collapse"@ {
        "Five clerics thin out one at a time, with the lead re-pacing after every loss until the chain cannot hold."@
    } else if id == "macros"@ {
        "Macros Alfred cannot read: no number, the number in the wrong place, and a rampage macro with no letter."@
    } else if id == "shuffle"@ {
        "The lead rearranges a running chain with moves, skips, and backs, then resets it and starts over."@
    } else if id == "raid"@ {
        "A long pull that starts short-handed and fills up. Set the starting roster, the roster to build to, and how long the chain runs. Latecomers take numbers mid-pull and the lead re-paces, clerics skip out and come back, one drifts late, one misses turns, and one CHes the wrong tank."@
    } else {
        "Every scenario back to back, from an empty chain to a full raid."@
    }
}

pub fn scenario_description(id: &str) -> (text: &'static str)
    ensures
        text@ == scenario_description_of(id@),
{
    if same_name(id, "chain") {
        "Four clerics 2.5s apart, the chain starts, and the rotation runs clean."
    } else if same_name(id, "mistakes") {
        "A taken number, a wrong target, a macro Alfred cannot read, and a skip that re-paces the chain."
    } else if same_name(id, "laggy") {
        "One cleric drifts later every round until he misses his turn, gets skipped, and comes back on the beat."
    } else if same_name(id, "wrongtank") {
        "A split chain where clerics keep CHing the tank they are not assigned to, on both sides of the split."
    } else if same_name(id, "tankswap") {
        "The main tank dies mid-pull and the lead names a new one. One cleric keeps healing the old tank."
    } else if same_name(id, "offtank") {
        "A single rotation splits in two mid-pull when the off tank picks up a add, then folds back together."
    } else if same_name(id, "split") {
        "Main tank and off tank on separate rotations, two clerics on each."
    } else if same_name(id, "rampage") {
        "Three clerics on rampage letters, 3.4s apart."
    } else if same_name(id, "rampagetank") {
        "A CH chain on the main tank and a rampage chain on another mob at the same time, with one rampage heal on the wrong target."
    } else if same_name(id, "collision") {
        "Four clerics fight over the same numbers: taken slots, auto-takes, a number taken for someone else, and a CH on a slot that is not yours."
    } else if same_name(id, "latejoin") {
        "You arrive after the pull started. Alfred infers the interval from the shouts it can hear and syncs you behind the last cleric."
    } else if same_name(id, "thin") {
        "Two clerics 5s apart, one drops to a solo chain on the cast time, then a third arrives and the lead tightens the pace."
    } else if same_name(id, "collapse") {
        "Five clerics thin out one at a time, with the lead re-pacing after every loss until the chain cannot hold."
    } else if same_name(id, "macros") {
        "Macros Alfred cannot read: no number, the number in the wrong place, and a rampage macro with no letter."
    } else if same_name(id, "shuffle") {
        "The lead rearranges a running chain with moves, skips, and backs, then resets it and starts over."
    } else if same_name(id, "raid") {
        "A long pull that starts short-handed and fills up. Set the starting roster, the roster to build to, and how long the chain runs. Latecomers take numbers mid-pull and the lead re-paces, clerics skip out and come back, one drifts late, one misses turns, and one CHes the wrong tank."
    } else {
        "Every scenario back to back, from an empty chain to a full raid."
    }
}

/// The scripted pulls have different names.
proof fn lemma_pull_names_differ()
    ensures
        "mistakes"@ != "chain"@,
        "laggy"@ != "chain"@,
        "laggy"@ != "mistakes"@,
        "wrongtank"@ != "chain"@,
        "wrongtank"@ != "mistakes"@,
        "wrongtank"@ != "laggy"@,
        "tankswap"@ != "chain"@,
        "tankswap"@ != "mistakes"@,
        "tankswap"@ != "laggy"@,
        "tankswap"@ != "wrongtank"@,
        "offtank"@ != "chain"@,
        "offtank"@ != "mistakes"@,
        "offtank"@ != "laggy"@,
        "offtank"@ != "wrongtank"@,
        "offtank"@ != "tankswap"@,
        "split"@ != "chain"@,
        "split"@ != "mistakes"@,
        "split"@ != "laggy"@,
        "split"@ != "wrongtank"@,
        "split"@ != "tankswap"@,
        "split"@ != "offtank"@,
        "rampage"@ != "chain"@,
        "rampage"@ != "mistakes"@,
        "rampage"@ != "laggy"@,
        "rampage"@ != "wrongtank"@,
        "rampage"@ != "tankswap"@,
        "rampage"@ != "offtank"@,
        "rampage"@ != "split"@,
        "rampagetank"@ != "chain"@,
        "rampagetank"@ != "mistakes"@,
        "rampagetank"@ != "laggy"@,
        "rampagetank"@ != "wrongtank"@,
        "rampagetank"@ != "tankswap"@,
        "rampagetank"@ != "offtank"@,
        "rampagetank"@ != "split"@,
        "rampagetank"@ != "rampage"@,
        "collision"@ != "chain"@,
        "collision"@ != "mistakes"@,
        "collision"@ != "laggy"@,
        "collision"@ != "wrongtank"@,
        "collision"@ != "tankswap"@,
        "collision"@ != "offtank"@,
        "collision"@ != "split"@,
        "collision"@ != "rampage"@,
        "collision"@ != "rampagetank"@,
        "latejoin"@ != "chain"@,
        "latejoin"@ != "mistakes"@,
        "latejoin"@ != "laggy"@,
        "latejoin"@ != "wrongtank"@,
        "latejoin"@ != "tankswap"@,
        "latejoin"@ != "offtank"@,
        "latejoin"@ != "split"@,
        "latejoin"@ != "rampage"@,
        "latejoin"@ != "rampagetank"@,
        "latejoin"@ != "collision"@,
        "thin"@ != "chain"@,
        "thin"@ != "mistakes"@,
        "thin"@ != "laggy"@,
        "thin"@ != "wrongtank"@,
        "thin"@ != "tankswap"@,
        "thin"@ != "offtank"@,
        "thin"@ != "split"@,
        "thin"@ != "rampage"@,
        "thin"@ != "rampagetank"@,
        "thin"@ != "collision"@,
        "thin"@ != "latejoin"@,
        "collapse"@ != "chain"@,
        "collapse"@ != "mistakes"@,
        "collapse"@ != "laggy"@,
        "collapse"@ != "wrongtank"@,
        "collapse"@ != "tankswap"@,
        "collapse"@ != "offtank"@,
        "collapse"@ != "split"@,
        "collapse"@ != "rampage"@,
        "collapse"@ != "rampagetank"@,
        "collapse"@ != "collision"@,
        "collapse"@ != "latejoin"@,
        "collapse"@ != "thin"@,
        "macros"@ != "chain"@,
        "macros"@ != "mistakes"@,
        "macros"@ != "laggy"@,
        "macros"@ != "wrongtank"@,
        "macros"@ != "tankswap"@,
        "macros"@ != "offtank"@,
        "macros"@ != "split"@,
        "macros"@ != "rampage"@,
        "macros"@ != "rampagetank"@,
        "macros"@ != "collision"@,
        "macros"@ != "latejoin"@,
        "macros"@ != "thin"@,
        "macros"@ != "collapse"@,
        "shuffle"@ != "chain"@,
        "shuffle"@ != "mistakes"@,
        "shuffle"@ != "laggy"@,
        "shuffle"@ != "wrongtank"@,
        "shuffle"@ != "tankswap"@,
        "shuffle"@ != "offtank"@,
        "shuffle"@ != "split"@,
        "shuffle"@ != "rampage"@,
        "shuffle"@ != "rampagetank"@,
        "shuffle"@ != "collision"@,
        "shuffle"@ != "latejoin"@,
        "shuffle"@ != "thin"@,
        "shuffle"@ != "collapse"@,
        "shuffle"@ != "macros"@,
{
    reveal_strlit("chain");
    reveal_strlit("mistakes");
    reveal_strlit("laggy");
    reveal_strlit("wrongtank");
    reveal_strlit("tankswap");
    reveal_strlit("offtank");
    reveal_strlit("split");
    reveal_strlit("rampage");
    reveal_strlit("rampagetank");
    reveal_strlit("collision");
    reveal_strlit("latejoin");
    reveal_strlit("thin");
    reveal_strlit("collapse");
    reveal_strlit("macros");
    reveal_strlit("shuffle");
    assert("mistakes"@[0] != "chain"@[0]);
    assert("laggy"@[0] != "chain"@[0]);
    assert("laggy"@[0] != "mistakes"@[0]);
    assert("wrongtank"@[0] != "chain"@[0]);
    assert("wrongtank"@[0] != "mistakes"@[0]);
    assert("wrongtank"@[0] != "laggy"@[0]);
    assert("tankswap"@[0] != "chain"@[0]);
    assert("tankswap"@[0] != "mistakes"@[0]);
    assert("tankswap"@[0] != "laggy"@[0]);
    assert("tankswap"@[0] != "wrongtank"@[0]);
    assert("offtank"@[0] != "chain"@[0]);
    assert("offtank"@[0] != "mistakes"@[0]);
    assert("offtank"@[0] != "laggy"@[0]);
    assert("offtank"@[0] != "wrongtank"@[0]);
    assert("offtank"@[0] != "tankswap"@[0]);
    assert("split"@[0] != "chain"@[0]);
    assert("split"@[0] != "mistakes"@[0]);
    assert("split"@[0] != "laggy"@[0]);
    assert("split"@[0] != "wrongtank"@[0]);
    assert("split"@[0] != "tankswap"@[0]);
    assert("split"@[0] != "offtank"@[0]);
    assert("rampage"@[0] != "chain"@[0]);
    assert("rampage"@[0] != "mistakes"@[0]);
    assert("rampage"@[0] != "laggy"@[0]);
    assert("rampage"@[0] != "wrongtank"@[0]);
    assert("rampage"@[0] != "tankswap"@[0]);
    assert("rampage"@[0] != "offtank"@[0]);
    assert("rampage"@[0] != "split"@[0]);
    assert("rampagetank"@[0] != "chain"@[0]);
    assert("rampagetank"@[0] != "mistakes"@[0]);
    assert("rampagetank"@[0] != "laggy"@[0]);
    assert("rampagetank"@[0] != "wrongtank"@[0]);
    assert("rampagetank"@[0] != "tankswap"@[0]);
    assert("rampagetank"@[0] != "offtank"@[0]);
    assert("rampagetank"@[0] != "split"@[0]);
    assert("rampagetank"@.len() != "rampage"@.len());
    assert("collision"@[1] != "chain"@[1]);
    assert("collision"@[0] != "mistakes"@[0]);
    assert("collision"@[0] != "laggy"@[0]);
    assert("collision"@[0] != "wrongtank"@[0]);
    assert("collision"@[0] != "tankswap"@[0]);
    assert("collision"@[0] != "offtank"@[0]);
    assert("collision"@[0] != "split"@[0]);
    assert("collision"@[0] != "rampage"@[0]);
    assert("collision"@[0] != "rampagetank"@[0]);
    assert("latejoin"@[0] != "chain"@[0]);
    assert("latejoin"@[0] != "mistakes"@[0]);
    assert("latejoin"@[2] != "laggy"@[2]);
    assert("latejoin"@[0] != "wrongtank"@[0]);
    assert("latejoin"@[0] != "tankswap"@[0]);
    assert("latejoin"@[0] != "offtank"@[0]);
    assert("latejoin"@[0] != "split"@[0]);
    assert("latejoin"@[0] != "rampage"@[0]);
    assert("latejoin"@[0] != "rampagetank"@[0]);
    assert("latejoin"@[0] != "collision"@[0]);
    assert("thin"@[0] != "chain"@[0]);
    assert("thin"@[0] != "mistakes"@[0]);
    assert("thin"@[0] != "laggy"@[0]);
    assert("thin"@[0] != "wrongtank"@[0]);
    assert("thin"@[1] != "tankswap"@[1]);
    assert("thin"@[0] != "offtank"@[0]);
    assert("thin"@[0] != "split"@[0]);
    assert("thin"@[0] != "rampage"@[0]);
    assert("thin"@[0] != "rampagetank"@[0]);
    assert("thin"@[0] != "collision"@[0]);
    assert("thin"@[0] != "latejoin"@[0]);
    assert("collapse"@[1] != "chain"@[1]);
    assert("collapse"@[0] != "mistakes"@[0]);
    assert("collapse"@[0] != "laggy"@[0]);
    assert("collapse"@[0] != "wrongtank"@[0]);
    assert("collapse"@[0] != "tankswap"@[0]);
    assert("collapse"@[0] != "offtank"@[0]);
    assert("collapse"@[0] != "split"@[0]);
    assert("collapse"@[0] != "rampage"@[0]);
    assert("collapse"@[0] != "rampagetank"@[0]);
    assert("collapse"@[4] != "collision"@[4]);
    assert("collapse"@[0] != "latejoin"@[0]);
    assert("collapse"@[0] != "thin"@[0]);
    assert("macros"@[0] != "chain"@[0]);
    assert("macros"@[1] != "mistakes"@[1]);
    assert("macros"@[0] != "laggy"@[0]);
    assert("macros"@[0] != "wrongtank"@[0]);
    assert("macros"@[0] != "tankswap"@[0]);
    assert("macros"@[0] != "offtank"@[0]);
    assert("macros"@[0] != "split"@[0]);
    assert("macros"@[0] != "rampage"@[0]);
    assert("macros"@[0] != "rampagetank"@[0]);
    assert("macros"@[0] != "collision"@[0]);
    assert("macros"@[0] != "latejoin"@[0]);
    assert("macros"@[0] != "thin"@[0]);
    assert("macros"@[0] != "collapse"@[0]);
    assert("shuffle"@[0] != "chain"@[0]);
    assert("shuffle"@[0] != "mistakes"@[0]);
    assert("shuffle"@[0] != "laggy"@[0]);
    assert("shuffle"@[0] != "wrongtank"@[0]);
    assert("shuffle"@[0] != "tankswap"@[0]);
    assert("shuffle"@[0] != "offtank"@[0]);
    assert("shuffle"@[1] != "split"@[1]);
    assert("shuffle"@[0] != "rampage"@[0]);
    assert("shuffle"@[0] != "rampagetank"@[0]);
    assert("shuffle"@[0] != "collision"@[0]);
    assert("shuffle"@[0] != "latejoin"@[0]);
    assert("shuffle"@[0] != "thin"@[0]);
    assert("shuffle"@[0] != "collapse"@[0]);
    assert("shuffle"@[0] != "macros"@[0]);
}

/// What the scripted pull named `id` walks through.
pub open spec fn scenario_shows(id: Seq<char>, steps: Seq<DemoStep>) -> bool {
    if id == "chain"@ {
        shows_chain(steps)
    } else if id == "mistakes"@ {
        shows_mistakes(steps)
    } else if id == "laggy"@ {
        shows_laggy(steps)
    } else if id == "wrongtank"@ {
        shows_wrongtank(steps)
    } else if id == "tankswap"@ {
        shows_tankswap(steps)
    } else if id == "offtank"@ {
        shows_offtank(steps)
    } else if id == "split"@ {
        shows_split(steps)
    } else if id == "rampage"@ {
        shows_rampage(steps)
    } else if id == "rampagetank"@ {
        shows_rampagetank(steps)
    } else if id == "collision"@ {
        shows_collision(steps)
    } else if id == "latejoin"@ {
        shows_latejoin(steps)
    } else if id == "thin"@ {
        shows_thin(steps)
    } else if id == "collapse"@ {
        shows_collapse(steps)
    } else if id == "macros"@ {
        shows_macros(steps)
    } else if id == "shuffle"@ {
        shows_shuffle(steps)
    } else {
        true
    }
}

/// One of the fixed scripted pulls; nothing for any other name.
fn short_scenario(id: &str) -> (steps: Vec<DemoStep>)
    ensures
        is_short_id(id@) ==> is_scenario(steps@),
        !is_short_id(id@) ==> steps@.len() == 0,
        is_short_id(id@) ==> scenario_shows(id@, steps@),
{
    proof {
        lemma_pull_names_differ();
    }
    if same_name(id, "chain") {
        chain_steps()
    } else if same_name(id, "mistakes") {
        mistakes_steps()
    } else if same_name(id, "laggy") {
        laggy_steps()
    } else if same_name(id, "wrongtank") {
        wrongtank_steps()
    } else if same_name(id, "tankswap") {
        tankswap_steps()
    } else if same_name(id, "offtank") {
        offtank_steps()
    } else if same_name(id, "split") {
        split_steps()
    } else if same_name(id, "rampage") {
        rampage_steps()
    } else if same_name(id, "rampagetank") {
        rampagetank_steps()
    } else if same_name(id, "collision") {
        collision_steps()
    } else if same_name(id, "latejoin") {
        latejoin_steps()
    } else if same_name(id, "thin") {
        thin_steps()
    } else if same_name(id, "collapse") {
        collapse_steps()
    } else if same_name(id, "macros") {
        macros_steps()
    } else if same_name(id, "shuffle") {
        shuffle_steps()
    } else {
        Vec::new()
    }
}

/// The steps of a scenario: one of the scripted pulls, the raid built from
/// `options` (put in range first), or `full`, every scripted pull back to
/// back with a pause between them. An unknown name has no steps.
pub fn scenario_steps_with(id: &str, options: DemoOptions) -> (steps: Vec<DemoStep>)
    ensures
        is_short_id(id@) || id@ == "raid"@ ==> is_scenario(steps@),
        id@ == "raid"@ ==> {
            let n = clamp(options.clerics as int, 1, MAX_CLERICS as int);
            &&& raid_opening(steps@, n, spec_you_seat(n))
            &&& repaced_after(steps@, 4 + n)
            &&& all_join(DemoOptions {
                clerics: n as usize,
                max_clerics: clamp(options.max_clerics as int, n, MAX_CLERICS as int) as usize,
                minutes: clamp(options.minutes as int, 1, MAX_MINUTES as int) as u32,
            }) ==> take_lines(steps@) == take_roll(clamp(options.max_clerics as int, n, MAX_CLERICS as int) as nat)
            &&& exists|t: nat|
                n <= t <= clamp(options.max_clerics as int, n, MAX_CLERICS as int) && #[trigger] take_roll(t) == take_lines(steps@)
            &&& exists|k: int|
                0 <= k < steps@.len() && is_shout(steps@[k]) && #[trigger] says(
                    steps@[k],
                    "YOU"@,
                    heal_line(pad3((spec_you_seat(n) + 1) as nat), "CH"@, "Mluian"@),
                )
        },
        is_short_id(id@) ==> scenario_shows(id@, steps@),
        id@ == "full"@ ==> steps@.len() >= 1 && is_reset_step(steps@[0]) && framed(steps@) && paces_hold(steps@),
        id@ == "full"@ ==> exists|parts: Seq<Seq<DemoStep>>|
            parts.len() == short_id_list().len() && (forall|i: int|
                0 <= i < parts.len() ==> is_scenario(#[trigger] parts[i]) && scenario_shows(short_id_list()[i], parts[i]))
                && joins(parts, steps@),
        !is_short_id(id@) && id@ != "raid"@ && id@ != "full"@ ==> steps@.len() == 0,
{
    proof {
        lemma_full_is_its_own();
    }
    let options = options.normalized();
    if is_short(id) {
        short_scenario(id)
    } else if same_name(id, "raid") {
        raid_steps(options)
    } else if same_name(id, "full") {
        let ids = short_ids();
        let mut steps: Vec<DemoStep> = Vec::new();
        let ghost mut parts: Seq<Seq<DemoStep>> = Seq::empty();
        for k in 0..ids.len()
            invariant
                ids@.len() == short_id_list().len(),
                forall|j: int| 0 <= j < ids@.len() ==> is_short_id((#[trigger] ids@[j])@),
                forall|j: int| 0 <= j < ids@.len() ==> (#[trigger] ids@[j])@ == short_id_list()[j],
                k == 0 ==> steps@.len() == 0,
                k > 0 ==> steps@.len() >= 1 && is_reset_step(steps@[0]) && framed(steps@) && paces_hold(steps@),
                parts.len() == k,
                forall|i: int| 0 <= i < parts.len() ==> is_scenario(#[trigger] parts[i]) && scenario_shows(short_id_list()[i], parts[i]),
                joins(parts, steps@),
        {
            let id = ids[k];
            assert(is_short_id(ids@[k as int]@));
            let next = short_scenario(id);
            let ghost part = next@;
            if steps.len() == 0 {
                steps = next;
                proof {
                    assert(parts.push(part).len() == 1);
                }
            } else {
                let mut more = breather(next);
                let ghost before = steps@;
                let ghost added = more@;
                steps.append(&mut more);
                proof {
                    assert(steps@ == before + added);
                    assert(steps@[0] == before[0]);
                    lemma_framed_extends(before, steps@);
                    let np = parts.push(part);
                    assert(np.drop_last() =~= parts);
                    assert(np.last() == part);
                    let n = before.len() as int;
                    assert(steps@.take(n) =~= before);
                    assert(steps@[n] == added[0]);
                    assert forall|j: int| 1 <= j < part.len() implies #[trigger] steps@[n + j] == part[j] by {
                        assert(steps@[n + j] == added[j]);
                    }
                    let all = steps@;
                    assert forall|j: int| 0 <= j < all.len() && #[trigger] is_pace_call(all[j]) implies pace_ok(
                        all[j].message@,
                    ) by {
                        if j < n {
                            assert(all[j] == before[j]);
                        } else if j == n {
                            assert(all[j].message@ == part[0].message@);
                            assert(is_pace_call(part[0]));
                        } else {
                            assert(all[j] == part[j - n]);
                        }
                    }
                }
            }
            proof {
                parts = parts.push(part);
            }
        }
        assert(parts.len() == short_id_list().len() && (forall|i: int| 0 <= i < parts.len() ==> is_scenario(
            #[trigger] parts[i],
        ) && scenario_shows(short_id_list()[i], parts[i])) && joins(parts, steps@));
        steps
    } else {
        Vec::new()
    }
}

fn is_short(id: &str) -> (r: bool)
    ensures
        r == is_short_id(id@),
{
    let ids = short_ids();
    let mut k: usize = 0;
    while k < ids.len()
        invariant
            ids@.len() == short_id_list().len(),
            forall|j: int| 0 <= j < ids@.len() ==> (#[trigger] ids@[j])@ == short_id_list()[j],
            forall|j: int| 0 <= j < k ==> short_id_list()[j] != id@,
        decreases ids.len() - k,
    {
        if same_name(id, ids[k]) {
            return true;
        }
        k += 1;
    }
    assert(!is_short_id(id@)) by {
        assert forall|j: int| 0 <= j < short_id_list().len() implies short_id_list()[j] != id@ by {}
        assert(short_id_list()[0] != id@);
        assert(short_id_list()[14] != id@);
    }
    false
}

/// The steps of a scenario with the default raid options.
pub fn scenario_steps(id: &str) -> (steps: Vec<DemoStep>)
    ensures
        is_short_id(id@) || id@ == "raid"@ ==> is_scenario(steps@),
        id@ == "raid"@ ==> raid_opening(steps@, 8, spec_you_seat(8)) && repaced_after(steps@, 12),
        id@ == "raid"@ ==> exists|t: nat| 8 <= t <= 20 && #[trigger] take_roll(t) == take_lines(steps@),
        id@ == "raid"@ ==> exists|k: int|
            0 <= k < steps@.len() && is_shout(steps@[k]) && #[trigger] says(
                steps@[k],
                "YOU"@,
                heal_line(pad3((spec_you_seat(8) + 1) as nat), "CH"@, "Mluian"@),
            ),
        is_short_id(id@) ==> scenario_shows(id@, steps@),
        id@ == "full"@ ==> steps@.len() >= 1 && is_reset_step(steps@[0]) && framed(steps@) && paces_hold(steps@),
        id@ == "full"@ ==> exists|parts: Seq<Seq<DemoStep>>|
            parts.len() == short_id_list().len() && (forall|i: int|
                0 <= i < parts.len() ==> is_scenario(#[trigger] parts[i]) && scenario_shows(short_id_list()[i], parts[i]))
                && joins(parts, steps@),
        !is_short_id(id@) && id@ != "raid"@ && id@ != "full"@ ==> steps@.len() == 0,
{
    scenario_steps_with(id, DemoOptions::default())
}

} // verus!
