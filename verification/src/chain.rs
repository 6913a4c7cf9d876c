//! The integer side of a running chain: how slots are written, whose turn
//! follows whose, and the clocks a cast is counted from.
use vstd::prelude::*;

use crate::demo::{ch_slot, rch_slot, rch_slot_text};
use crate::text::{append_chars, append_str, chars_of, dec, dec_of, eq_ci, eq_ignore_case, pad3, seq_eq, seq_eq_str, string_of};

verus! {

/// How a chain writes its slots: `001` for CH, `AAA` for rampage.
#[derive(Debug, Clone, Copy, PartialEq, Eq, Structural)]
pub enum SlotFormat {
    Number,
    Letter,
}

/// What a chain warning is about.
#[derive(Debug, Clone, Copy, PartialEq, Eq, Structural)]
pub enum WarningKind {
    Other,
    SlotTaken,
    WrongTarget,
    AutoTake,
    PaceChange,
}

impl Default for WarningKind {
    fn default() -> (k: Self)
        ensures
            k == WarningKind::Other,
    {
        WarningKind::Other
    }
}

pub open spec fn slot_text(format: SlotFormat, number: nat) -> Seq<char> {
    match format {
        SlotFormat::Number => pad3(number),
        SlotFormat::Letter => rch_slot_text(number),
    }
}

/// A slot as the chain writes it: `014` or `NNN`.
pub fn fmt_slot(format: SlotFormat, number: u32) -> (s: String)
    ensures
        s@ == slot_text(format, number as nat),
{
    match format {
        SlotFormat::Number => ch_slot(number),
        SlotFormat::Letter => rch_slot(number),
    }
}

/// The highest slot a chain hands out: 999 numbers, 26 letters.
pub fn max_slot(format: SlotFormat) -> (n: u32)
    ensures
        n == match format {
            SlotFormat::Number => 999u32,
            SlotFormat::Letter => 26u32,
        },
{
    match format {
        SlotFormat::Number => 999,
        SlotFormat::Letter => 26,
    }
}

/// The latest of the times a cast could be counted from: the slot's last
/// shout, its last heal, and the start of the clock.
pub open spec fn spec_countdown_origin(last_shout_ms: Option<u64>, last_actual_ms: Option<u64>, start: u64) -> u64 {
    let a = match last_shout_ms {
        Some(t) => if t > start { t } else { start },
        None => start,
    };
    match last_actual_ms {
        Some(t) => if t > a { t } else { a },
        None => a,
    }
}

pub fn countdown_origin(last_shout_ms: Option<u64>, last_actual_ms: Option<u64>, start: u64) -> (t: u64)
    ensures
        t == spec_countdown_origin(last_shout_ms, last_actual_ms, start),
        t >= start,
        last_shout_ms matches Some(s) ==> t >= s,
        last_actual_ms matches Some(a) ==> t >= a,
{
    let a = match last_shout_ms {
        Some(t) => if t > start { t } else { start },
        None => start,
    };
    match last_actual_ms {
        Some(t) => if t > a { t } else { a },
        None => a,
    }
}

/// When a slot's cleric last started a cast: the later of the shout and
/// the heal, whichever are known.
pub fn cast_started_ms(last_shout_ms: Option<u64>, last_actual_ms: Option<u64>) -> (t: Option<u64>)
    ensures
        t == match (last_shout_ms, last_actual_ms) {
            (Some(s), Some(a)) => Some(if s > a { s } else { a }),
            (Some(s), None) => Some(s),
            (None, Some(a)) => Some(a),
            (None, None) => None,
        },
{
    match (last_shout_ms, last_actual_ms) {
        (Some(s), Some(a)) => Some(if s > a { s } else { a }),
        (Some(s), None) => Some(s),
        (None, Some(a)) => Some(a),
        (None, None) => None,
    }
}

/// Whose turn follows `current` in an ascending rotation: the first slot
/// after it, or round to the first slot.
pub open spec fn spec_next_in_rotation(rotation: Seq<u32>, current: u32) -> Option<u32> {
    if rotation.len() == 0 {
        None
    } else {
        match first_above(rotation, current, 0) {
            Some(i) => Some(rotation[i]),
            None => Some(rotation[0]),
        }
    }
}

/// The first index at `i` or later whose slot comes after `current`.
pub open spec fn first_above(rotation: Seq<u32>, current: u32, i: int) -> Option<int>
    decreases rotation.len() - i,
{
    if i < 0 || i >= rotation.len() {
        None
    } else if rotation[i] > current {
        Some(i)
    } else {
        first_above(rotation, current, i + 1)
    }
}

proof fn lemma_first_above(rotation: Seq<u32>, current: u32, i: int)
    requires
        0 <= i <= rotation.len(),
    ensures
        first_above(rotation, current, i) matches Some(k) ==> i <= k < rotation.len(),
    decreases rotation.len() - i,
{
    if i < rotation.len() && rotation[i] <= current {
        lemma_first_above(rotation, current, i + 1);
    }
}

pub fn next_in_rotation(rotation: &Vec<u32>, current: u32) -> (r: Option<u32>)
    ensures
        r == spec_next_in_rotation(rotation@, current),
{
    if rotation.len() == 0 {
        return None;
    }
    let mut i: usize = 0;
    while i < rotation.len()
        invariant
            i <= rotation@.len(),
            rotation@.len() > 0,
            first_above(rotation@, current, 0) == first_above(rotation@, current, i as int),
        decreases rotation@.len() - i,
    {
        if rotation[i] > current {
            return Some(rotation[i]);
        }
        i += 1;
    }
    Some(rotation[0])
}

/// Where a beat falls for seat position `index` in a rotation of `n`
/// seats: the next time its turn comes round after tick `ticks` of a clock
/// started at `start` beating every `interval_ms`, and the turn before it.
/// The heal is measured against whichever of the two it is nearer, the
/// later one when it is as near, and never against one before the start.
/// Sums past `u64::MAX` are held there.
pub open spec fn spec_nearest_expected(index: u64, n: u64, ticks: u64, start: u64, interval_ms: u64, actual: u64) -> u64 {
    let current_idx = ticks % n;
    let steps_forward = ((index + n - current_idx) % (n as int)) as u64;
    let next = sat_add(start, sat_mul(sat_add(ticks, steps_forward), interval_ms));
    let prev = sat_sub(next, sat_mul(n, interval_ms));
    let d_prev: int = if actual >= prev { actual - prev } else { prev - actual };
    let d_next: int = if actual >= next { actual - next } else { next - actual };
    if prev >= start && d_prev < d_next {
        prev
    } else {
        next
    }
}

pub fn nearest_expected(index: u64, n: u64, ticks: u64, start: u64, interval_ms: u64, actual: u64) -> (t: u64)
    requires
        index < n,
    ensures
        t == spec_nearest_expected(index, n, ticks, start, interval_ms, actual),
{
    let current_idx = ticks % n;
    let steps_forward = if index >= current_idx {
        let x = index - current_idx;
        proof {
            vstd::arithmetic::div_mod::lemma_fundamental_div_mod_converse((x + n) as int, n as int, 1, x as int);
        }
        x
    } else {
        let x = index + (n - current_idx);
        proof {
            vstd::arithmetic::div_mod::lemma_small_mod(x as nat, n as nat);
        }
        x
    };
    let next = start.saturating_add(mul_sat(ticks.saturating_add(steps_forward), interval_ms));
    let prev = next.saturating_sub(mul_sat(n, interval_ms));
    let d_prev = if actual >= prev { actual - prev } else { prev - actual };
    let d_next = if actual >= next { actual - next } else { next - actual };
    if prev >= start && d_prev < d_next {
        prev
    } else {
        next
    }
}


// ------------------------------------------------------------ chain state

/// One cleric's seat on a chain. Times are milliseconds; `last_offset_ms` is
/// how far the last heal fell from its beat, late positive.
#[derive(Debug)]
pub struct ClericSlot {
    pub number: u32,
    pub player: String,
    pub target: Option<String>,
    pub last_shout_ms: Option<u64>,
    pub last_actual_ms: Option<u64>,
    pub last_offset_ms: Option<i64>,
    pub skipped: bool,
}

/// A tank with a range of numbers of its own and a clock of its own.
#[derive(Debug)]
pub struct TankAssignment {
    pub name: String,
    pub from: u32,
    pub to: u32,
    pub interval_ms: Option<u64>,
    pub running: bool,
    pub started_at_ms: Option<u64>,
    pub current_number: Option<u32>,
    pub is_off: bool,
    pub shout_sync: bool,
    pub armed: bool,
}

/// Which rotation a number belongs to: the main tank's, or a named tank's.
pub enum TankKey {
    Main,
    Named(String),
}

impl View for TankKey {
    type V = Option<Seq<char>>;

    open spec fn view(&self) -> Option<Seq<char>> {
        match self {
            TankKey::Main => None,
            TankKey::Named(n) => Some(n@),
        }
    }
}

/// The clock of one rotation at a moment: whose beat it is, whose comes
/// next, how many beats have passed since the start, and the rotation.
pub struct Beat {
    pub current: u32,
    pub next: u32,
    pub ticks: u64,
    pub rotation: Vec<u32>,
    pub interval_ms: u64,
    pub start: u64,
}

/// A cleric chain: seats by number, the tanks that own ranges of them, and a
/// clock per rotation.
#[derive(Debug)]
pub struct ChainState {
    pub tank: Option<String>,
    pub off_tank: Option<String>,
    pub interval_ms: u64,
    pub cast_time_ms: u64,
    pub your_name: Option<String>,
    pub slots: Vec<ClericSlot>,
    pub current_number: Option<u32>,
    pub running: bool,
    pub started_at_ms: Option<u64>,
    pub tanks: Vec<TankAssignment>,
    pub warning: Option<String>,
    pub warning_at_ms: Option<u64>,
    pub warning_urgent: bool,
    pub warning_kind: WarningKind,
    pub warning_speech: Option<String>,
    pub slot_format: SlotFormat,
    pub shout_sync: bool,
    pub armed: bool,
}

/// The first tank at `i` or later with this name, in any case.
pub open spec fn named_from(tanks: Seq<TankAssignment>, name: Seq<char>, i: int) -> Option<int>
    decreases tanks.len() - i,
{
    if i < 0 || i >= tanks.len() {
        None
    } else if eq_ci(tanks[i].name@, name) {
        Some(i)
    } else {
        named_from(tanks, name, i + 1)
    }
}

pub open spec fn named(tanks: Seq<TankAssignment>, name: Seq<char>) -> Option<int> {
    named_from(tanks, name, 0)
}

/// The first tank at `i` or later whose range holds `number`.
pub open spec fn owner_from(tanks: Seq<TankAssignment>, number: u32, i: int) -> Option<int>
    decreases tanks.len() - i,
{
    if i < 0 || i >= tanks.len() {
        None
    } else if tanks[i].from <= number && number <= tanks[i].to {
        Some(i)
    } else {
        owner_from(tanks, number, i + 1)
    }
}

/// The rotation a number belongs to: the first tank whose range holds it,
/// else the main tank's.
pub open spec fn key_of(tanks: Seq<TankAssignment>, number: u32) -> Option<Seq<char>> {
    match owner_from(tanks, number, 0) {
        Some(i) => Some(tanks[i].name@),
        None => None,
    }
}

/// The first seat at `i` or later with this number.
pub open spec fn slot_from(slots: Seq<ClericSlot>, number: u32, i: int) -> Option<int>
    decreases slots.len() - i,
{
    if i < 0 || i >= slots.len() {
        None
    } else if slots[i].number == number {
        Some(i)
    } else {
        slot_from(slots, number, i + 1)
    }
}

/// The numbers on `key`'s rotation, in seat order: every seat that is not
/// skipped and whose number the key owns.
pub open spec fn rot(slots: Seq<ClericSlot>, tanks: Seq<TankAssignment>, key: Option<Seq<char>>) -> Seq<u32>
    decreases slots.len(),
{
    if slots.len() == 0 {
        Seq::empty()
    } else {
        let r = rot(slots.drop_last(), tanks, key);
        let s = slots.last();
        if !s.skipped && key_of(tanks, s.number) == key {
            r.push(s.number)
        } else {
            r
        }
    }
}

proof fn lemma_named_from(tanks: Seq<TankAssignment>, name: Seq<char>, i: int)
    requires
        0 <= i <= tanks.len(),
    ensures
        named_from(tanks, name, i) matches Some(k) ==> i <= k < tanks.len() && eq_ci(tanks[k].name@, name),
        named_from(tanks, name, i) is None ==> forall|k: int| i <= k < tanks.len() ==> !eq_ci(#[trigger] tanks[k].name@, name),
    decreases tanks.len() - i,
{
    if i < tanks.len() && !eq_ci(tanks[i].name@, name) {
        lemma_named_from(tanks, name, i + 1);
    }
}

proof fn lemma_owner_from(tanks: Seq<TankAssignment>, number: u32, i: int)
    requires
        0 <= i <= tanks.len(),
    ensures
        owner_from(tanks, number, i) matches Some(k) ==> i <= k < tanks.len() && tanks[k].from <= number <= tanks[k].to,
    decreases tanks.len() - i,
{
    if i < tanks.len() && !(tanks[i].from <= number && number <= tanks[i].to) {
        lemma_owner_from(tanks, number, i + 1);
    }
}

proof fn lemma_owner_is_first_holder(tanks: Seq<TankAssignment>, number: u32, k: int, i: int)
    requires
        0 <= k <= i < tanks.len(),
        tanks[i].from <= number <= tanks[i].to,
        forall|j: int| #![trigger tanks[j]] k <= j < i ==> !(tanks[j].from <= number <= tanks[j].to),
    ensures
        owner_from(tanks, number, k) == Some(i),
    decreases i - k,
{
    if k < i {
        lemma_owner_is_first_holder(tanks, number, k + 1, i);
    }
}

proof fn lemma_owner_none(tanks: Seq<TankAssignment>, number: u32, k: int)
    requires
        0 <= k <= tanks.len(),
        forall|j: int| #![trigger tanks[j]] k <= j < tanks.len() ==> !(tanks[j].from <= number <= tanks[j].to),
    ensures
        owner_from(tanks, number, k) is None,
    decreases tanks.len() - k,
{
    if k < tanks.len() {
        lemma_owner_none(tanks, number, k + 1);
    }
}

proof fn lemma_slot_from(slots: Seq<ClericSlot>, number: u32, i: int)
    requires
        0 <= i <= slots.len(),
    ensures
        slot_from(slots, number, i) matches Some(k) ==> i <= k < slots.len() && slots[k].number == number,
        slot_from(slots, number, i) is None ==> forall|k: int| i <= k < slots.len() ==> #[trigger] slots[k].number != number,
    decreases slots.len() - i,
{
    if i < slots.len() && slots[i].number != number {
        lemma_slot_from(slots, number, i + 1);
    }
}

/// A string read as the exact text `t`.
fn text_is(a: &String, t: &str) -> (e: bool)
    ensures
        e == (a@ == t@),
{
    let v = chars_of(a.as_str());
    seq_eq_str(&v, t)
}

/// Two names equal in any case.
fn same_name(a: &String, b: &String) -> (e: bool)
    ensures
        e == eq_ci(a@, b@),
{
    let va = chars_of(a.as_str());
    let vb = chars_of(b.as_str());
    eq_ignore_case(&va, &vb)
}

/// Two names equal letter for letter.
fn exact_name(a: &String, b: &String) -> (e: bool)
    ensures
        e == (a@ == b@),
{
    let va = chars_of(a.as_str());
    let vb = chars_of(b.as_str());
    seq_eq(&va, &vb)
}

fn same_key(a: &TankKey, b: &TankKey) -> (e: bool)
    ensures
        e == (a@ == b@),
{
    match (a, b) {
        (TankKey::Main, TankKey::Main) => true,
        (TankKey::Named(x), TankKey::Named(y)) => exact_name(x, y),
        _ => false,
    }
}

/// `You`, or the character named `your`, in any case.
pub open spec fn you_in(your: Option<String>, p: Seq<char>) -> bool {
    p == "You"@ || match your {
        Some(n) => eq_ci(n@, p),
        None => false,
    }
}

/// Two names for one player: equal in any case, or both you.
pub open spec fn same_in(your: Option<String>, a: Seq<char>, b: Seq<char>) -> bool {
    eq_ci(a, b) || (you_in(your, a) && you_in(your, b))
}

impl ClericSlot {
    fn new(number: u32, player: String) -> (s: Self)
        ensures
            s.number == number,
            s.player@ == player@,
            s.target is None,
            s.last_shout_ms is None,
            s.last_actual_ms is None,
            s.last_offset_ms is None,
            !s.skipped,
    {
        ClericSlot {
            number,
            player,
            target: None,
            last_shout_ms: None,
            last_actual_ms: None,
            last_offset_ms: None,
            skipped: false,
        }
    }
}

impl ChainState {
    /// Seats are kept in ascending order of their numbers, one per number.
    pub open spec fn wf(&self) -> bool {
        forall|i: int, j: int| 0 <= i < j < self.slots@.len() ==> self.slots@[i].number < self.slots@[j].number
    }

    pub open spec fn slot_index(&self, number: u32) -> Option<int> {
        slot_from(self.slots@, number, 0)
    }

    pub open spec fn has_slot(&self, number: u32) -> bool {
        self.slot_index(number) is Some
    }

    pub open spec fn key_for(&self, number: u32) -> Option<Seq<char>> {
        key_of(self.tanks@, number)
    }

    pub open spec fn rotation(&self, key: Option<Seq<char>>) -> Seq<u32> {
        rot(self.slots@, self.tanks@, key)
    }

    /// The tank entry a key reads its clock from, if any.
    pub open spec fn tank_of(&self, key: Option<Seq<char>>) -> Option<int> {
        match key {
            None => None,
            Some(n) => named(self.tanks@, n),
        }
    }

    pub open spec fn interval_of(&self, key: Option<Seq<char>>) -> u64 {
        match self.tank_of(key) {
            Some(i) => match self.tanks@[i].interval_ms {
                Some(m) => m,
                None => self.interval_ms,
            },
            None => self.interval_ms,
        }
    }

    pub open spec fn running_of(&self, key: Option<Seq<char>>) -> bool {
        match key {
            None => self.running,
            Some(_) => match self.tank_of(key) {
                Some(i) => self.tanks@[i].running,
                None => false,
            },
        }
    }

    pub open spec fn started_of(&self, key: Option<Seq<char>>) -> Option<u64> {
        match key {
            None => self.started_at_ms,
            Some(_) => match self.tank_of(key) {
                Some(i) => self.tanks@[i].started_at_ms,
                None => None,
            },
        }
    }

    pub open spec fn current_of(&self, key: Option<Seq<char>>) -> Option<u32> {
        match key {
            None => self.current_number,
            Some(_) => match self.tank_of(key) {
                Some(i) => self.tanks@[i].current_number,
                None => None,
            },
        }
    }

    pub open spec fn armed_of(&self, key: Option<Seq<char>>) -> bool {
        match self.tank_of(key) {
            Some(i) => self.tanks@[i].armed,
            None => self.armed,
        }
    }

    pub open spec fn sync_of(&self, key: Option<Seq<char>>) -> bool {
        match self.tank_of(key) {
            Some(i) => self.tanks@[i].shout_sync,
            None => self.shout_sync,
        }
    }

    /// `You`, or the character this Alfred reads the log of.
    pub open spec fn is_you_name(&self, p: Seq<char>) -> bool {
        you_in(self.your_name, p)
    }

    pub open spec fn same_person(&self, a: Seq<char>, b: Seq<char>) -> bool {
        same_in(self.your_name, a, b)
    }

    fn find_tank(&self, name: &String) -> (r: Option<usize>)
        ensures
            match r {
                Some(i) => named(self.tanks@, name@) == Some(i as int) && i < self.tanks@.len(),
                None => named(self.tanks@, name@) is None,
            },
    {
        let mut i: usize = 0;
        while i < self.tanks.len()
            invariant
                i <= self.tanks@.len(),
                named(self.tanks@, name@) == named_from(self.tanks@, name@, i as int),
            decreases self.tanks@.len() - i,
        {
            if same_name(&self.tanks[i].name, name) {
                return Some(i);
            }
            i += 1;
        }
        None
    }

    fn tank_index(&self, key: &TankKey) -> (r: Option<usize>)
        ensures
            match r {
                Some(i) => self.tank_of(key@) == Some(i as int) && i < self.tanks@.len(),
                None => self.tank_of(key@) is None,
            },
    {
        match key {
            TankKey::Main => None,
            TankKey::Named(name) => self.find_tank(name),
        }
    }

    fn tank_key_for(&self, number: u32) -> (k: TankKey)
        ensures
            k@ == self.key_for(number),
    {
        let mut i: usize = 0;
        while i < self.tanks.len()
            invariant
                i <= self.tanks@.len(),
                owner_from(self.tanks@, number, 0) == owner_from(self.tanks@, number, i as int),
            decreases self.tanks@.len() - i,
        {
            if self.tanks[i].from <= number && number <= self.tanks[i].to {
                return TankKey::Named(self.tanks[i].name.clone());
            }
            i += 1;
        }
        TankKey::Main
    }

    fn find_slot(&self, number: u32) -> (r: Option<usize>)
        ensures
            match r {
                Some(i) => self.slot_index(number) == Some(i as int),
                None => self.slot_index(number) is None,
            },
    {
        let mut i: usize = 0;
        while i < self.slots.len()
            invariant
                i <= self.slots@.len(),
                slot_from(self.slots@, number, 0) == slot_from(self.slots@, number, i as int),
            decreases self.slots@.len() - i,
        {
            if self.slots[i].number == number {
                return Some(i);
            }
            i += 1;
        }
        None
    }

    fn is_you(&self, player: &String) -> (b: bool)
        ensures
            b == self.is_you_name(player@),
    {
        if text_is(player, "You") {
            return true;
        }
        match &self.your_name {
            Some(n) => same_name(n, player),
            None => false,
        }
    }

    fn same_player(&self, a: &String, b: &String) -> (e: bool)
        ensures
            e == self.same_person(a@, b@),
    {
        same_name(a, b) || (self.is_you(a) && self.is_you(b))
    }

    fn rotation_for(&self, key: &TankKey) -> (r: Vec<u32>)
        ensures
            r@ == self.rotation(key@),
    {
        let mut r: Vec<u32> = Vec::new();
        let mut i: usize = 0;
        while i < self.slots.len()
            invariant
                i <= self.slots@.len(),
                r@ == rot(self.slots@.take(i as int), self.tanks@, key@),
            decreases self.slots@.len() - i,
        {
            let k = self.tank_key_for(self.slots[i].number);
            if !self.slots[i].skipped && same_key(&k, key) {
                r.push(self.slots[i].number);
            }
            proof {
                assert(self.slots@.take(i + 1).drop_last() =~= self.slots@.take(i as int));
            }
            i += 1;
        }
        proof {
            assert(self.slots@.take(i as int) =~= self.slots@);
        }
        r
    }
}

/// A number inside a tank's range is on that tank's rotation. `!tank` and
/// `!split` ranges hold both their ends, so the first tank whose range runs
/// from at most `number` to at least `number` owns it, its top number too.
pub proof fn lemma_range_holds_its_numbers(s: ChainState, number: u32, i: int)
    requires
        0 <= i < s.tanks@.len(),
        s.tanks@[i].from <= number <= s.tanks@[i].to,
        forall|j: int| #![trigger s.tanks@[j]] 0 <= j < i ==> !(s.tanks@[j].from <= number <= s.tanks@[j].to),
    ensures
        s.key_for(number) == Some(s.tanks@[i].name@),
{
    lemma_owner_is_first_holder(s.tanks@, number, 0, i);
}

/// A number that no tank's range holds stays on the main tank's rotation.
pub proof fn lemma_unranged_number_is_main(s: ChainState, number: u32)
    requires
        forall|j: int| #![trigger s.tanks@[j]] 0 <= j < s.tanks@.len() ==> !(s.tanks@[j].from <= number <= s.tanks@[j].to),
    ensures
        s.key_for(number) is None,
{
    lemma_owner_none(s.tanks@, number, 0);
}

/// The position of `x` in `r` at `i` or later.
pub open spec fn pos_from(r: Seq<u32>, x: u32, i: int) -> Option<int>
    decreases r.len() - i,
{
    if i < 0 || i >= r.len() {
        None
    } else if r[i] == x {
        Some(i)
    } else {
        pos_from(r, x, i + 1)
    }
}

proof fn lemma_pos_from(r: Seq<u32>, x: u32, i: int)
    requires
        0 <= i <= r.len(),
    ensures
        pos_from(r, x, i) matches Some(k) ==> i <= k < r.len() && r[k] == x,
        pos_from(r, x, i) is None ==> forall|k: int| i <= k < r.len() ==> #[trigger] r[k] != x,
    decreases r.len() - i,
{
    if i < r.len() && r[i] != x {
        lemma_pos_from(r, x, i + 1);
    }
}

fn position(r: &Vec<u32>, x: u32) -> (p: Option<usize>)
    ensures
        match p {
            Some(i) => pos_from(r@, x, 0) == Some(i as int),
            None => pos_from(r@, x, 0) is None,
        },
{
    let mut i: usize = 0;
    while i < r.len()
        invariant
            i <= r@.len(),
            pos_from(r@, x, 0) == pos_from(r@, x, i as int),
        decreases r@.len() - i,
    {
        if r[i] == x {
            return Some(i);
        }
        i += 1;
    }
    None
}

fn has_u32(r: &Vec<u32>, x: u32) -> (b: bool)
    ensures
        b == r@.contains(x),
{
    let mut i: usize = 0;
    while i < r.len()
        invariant
            i <= r@.len(),
            forall|k: int| 0 <= k < i ==> r@[k] != x,
        decreases r@.len() - i,
    {
        if r[i] == x {
            return true;
        }
        i += 1;
    }
    false
}

/// `a * b`, held at `u64::MAX`.
pub open spec fn sat_mul(a: u64, b: u64) -> u64 {
    if a * b > u64::MAX { u64::MAX } else { (a * b) as u64 }
}

pub open spec fn sat_add(a: u64, b: u64) -> u64 {
    if a + b > u64::MAX { u64::MAX } else { (a + b) as u64 }
}

pub open spec fn sat_sub(a: u64, b: u64) -> u64 {
    if a >= b { (a - b) as u64 } else { 0 }
}

fn mul_sat(a: u64, b: u64) -> (r: u64)
    ensures
        r == sat_mul(a, b),
{
    match a.checked_mul(b) {
        Some(m) => m,
        None => u64::MAX,
    }
}

/// A clock's beat length: its interval, never under a millisecond.
pub open spec fn beat_len(interval_ms: u64) -> u64 {
    if interval_ms < 1 { 1 } else { interval_ms }
}

/// Where a clock starts so that `now` lies `phase` into the beat of the
/// `idx`-th seat: the phase is held under one beat.
pub open spec fn anchor_start(now: u64, phase: u64, idx: u64, iv: u64) -> u64 {
    let p = if phase < iv { phase } else { (iv - 1) as u64 };
    sat_sub(now, sat_add(p, sat_mul(idx, iv)))
}

/// The clock of one rotation at `now`, as plain numbers.
pub struct BeatView {
    pub current: u32,
    pub next: u32,
    pub ticks: u64,
    pub interval_ms: u64,
    pub start: u64,
}

impl Beat {
    pub open spec fn parts(&self) -> BeatView {
        BeatView {
            current: self.current,
            next: self.next,
            ticks: self.ticks,
            interval_ms: self.interval_ms,
            start: self.start,
        }
    }
}

/// Everything that says who sits where and which tank owns which numbers
/// is the same in `a` and `b`.
pub open spec fn seats_same(a: ChainState, b: ChainState) -> bool {
    &&& a.slots@ == b.slots@
    &&& tanks_laid_same(a.tanks@, b.tanks@)
}

pub open spec fn tanks_laid_same(a: Seq<TankAssignment>, b: Seq<TankAssignment>) -> bool {
    &&& a.len() == b.len()
    &&& forall|i: int| 0 <= i < a.len() ==> {
        &&& #[trigger] a[i].name@ == b[i].name@
        &&& a[i].from == b[i].from
        &&& a[i].to == b[i].to
    }
}

proof fn lemma_named_laid_same(a: Seq<TankAssignment>, b: Seq<TankAssignment>, name: Seq<char>, i: int)
    requires
        tanks_laid_same(a, b),
        0 <= i <= a.len(),
    ensures
        named_from(a, name, i) == named_from(b, name, i),
    decreases a.len() - i,
{
    if i < a.len() {
        assert(a[i].name@ == b[i].name@);
        lemma_named_laid_same(a, b, name, i + 1);
    }
}

proof fn lemma_owner_laid_same(a: Seq<TankAssignment>, b: Seq<TankAssignment>, n: u32, i: int)
    requires
        tanks_laid_same(a, b),
        0 <= i <= a.len(),
    ensures
        owner_from(a, n, i) == owner_from(b, n, i),
    decreases a.len() - i,
{
    if i < a.len() {
        assert(a[i].name@ == b[i].name@);
        lemma_owner_laid_same(a, b, n, i + 1);
    }
}

proof fn lemma_tanks_laid_same(a: Seq<TankAssignment>, b: Seq<TankAssignment>)
    requires
        tanks_laid_same(a, b),
    ensures
        forall|name: Seq<char>| #[trigger] named(a, name) == named(b, name),
        forall|n: u32| #[trigger] key_of(a, n) == key_of(b, n),
{
    assert forall|name: Seq<char>| #[trigger] named(a, name) == named(b, name) by {
        lemma_named_laid_same(a, b, name, 0);
    }
    assert forall|n: u32| #[trigger] key_of(a, n) == key_of(b, n) by {
        lemma_owner_laid_same(a, b, n, 0);
        lemma_owner_from(a, n, 0);
        if let Some(k) = owner_from(a, n, 0) {
            assert(a[k].name@ == b[k].name@);
        }
    }
}

proof fn lemma_rot_laid_same(slots: Seq<ClericSlot>, a: Seq<TankAssignment>, b: Seq<TankAssignment>, key: Option<Seq<char>>)
    requires
        tanks_laid_same(a, b),
    ensures
        rot(slots, a, key) == rot(slots, b, key),
    decreases slots.len(),
{
    lemma_tanks_laid_same(a, b);
    if slots.len() > 0 {
        lemma_rot_laid_same(slots.drop_last(), a, b, key);
        assert(key_of(a, slots.last().number) == key_of(b, slots.last().number));
    }
}

proof fn lemma_seats_same(a: ChainState, b: ChainState)
    requires
        seats_same(a, b),
    ensures
        forall|k: Option<Seq<char>>| #[trigger] a.rotation(k) == b.rotation(k),
        forall|k: Option<Seq<char>>| #[trigger] a.tank_of(k) == b.tank_of(k),
        forall|n: u32| #[trigger] a.key_for(n) == b.key_for(n),
        forall|n: u32| #[trigger] a.slot_index(n) == b.slot_index(n),
{
    lemma_tanks_laid_same(a.tanks@, b.tanks@);
    assert forall|k: Option<Seq<char>>| #[trigger] a.rotation(k) == b.rotation(k) by {
        lemma_rot_laid_same(a.slots@, a.tanks@, b.tanks@, k);
    }
}

impl ChainState {
    /// The clock of `key`'s rotation at `now`: no clock unless it runs, has
    /// a start, a seat and a non-zero interval; else the beat `now` falls in.
    pub open spec fn beat_at(&self, key: Option<Seq<char>>, now: u64) -> Option<BeatView> {
        let r = self.rotation(key);
        let iv = self.interval_of(key);
        if !self.running_of(key) || r.len() == 0 || iv == 0 {
            None
        } else {
            match self.started_of(key) {
                None => None,
                Some(start) => {
                    let ticks = sat_sub(now, start) / iv;
                    let idx: int = (ticks as int) % (r.len() as int);
                    Some(BeatView {
                        current: r[idx],
                        next: r[(idx + 1) % (r.len() as int)],
                        ticks: ticks,
                        interval_ms: iv,
                        start: start,
                    })
                },
            }
        }
    }

    /// Whose turn it is on `key`: the beat's, or the last seat that went.
    pub open spec fn current_at(&self, key: Option<Seq<char>>, now: u64) -> Option<u32> {
        match self.beat_at(key, now) {
            Some(b) => Some(b.current),
            None => self.current_of(key),
        }
    }

    /// How far into its beat a running clock is at `now`.
    pub open spec fn phase_at(&self, key: Option<Seq<char>>, now: u64) -> u64 {
        let iv = beat_len(self.interval_of(key));
        match self.started_of(key) {
            Some(start) => if self.running_of(key) { (sat_sub(now, start) % iv) as u64 } else { 0 },
            None => 0,
        }
    }

    fn interval_for(&self, key: &TankKey) -> (m: u64)
        ensures
            m == self.interval_of(key@),
    {
        match self.tank_index(key) {
            Some(i) => match self.tanks[i].interval_ms {
                Some(m) => m,
                None => self.interval_ms,
            },
            None => self.interval_ms,
        }
    }

    fn clock_running(&self, key: &TankKey) -> (b: bool)
        ensures
            b == self.running_of(key@),
    {
        match key {
            TankKey::Main => self.running,
            TankKey::Named(_) => match self.tank_index(key) {
                Some(i) => self.tanks[i].running,
                None => false,
            },
        }
    }

    fn clock_started(&self, key: &TankKey) -> (t: Option<u64>)
        ensures
            t == self.started_of(key@),
    {
        match key {
            TankKey::Main => self.started_at_ms,
            TankKey::Named(_) => match self.tank_index(key) {
                Some(i) => self.tanks[i].started_at_ms,
                None => None,
            },
        }
    }

    fn clock_current(&self, key: &TankKey) -> (c: Option<u32>)
        ensures
            c == self.current_of(key@),
    {
        match key {
            TankKey::Main => self.current_number,
            TankKey::Named(_) => match self.tank_index(key) {
                Some(i) => self.tanks[i].current_number,
                None => None,
            },
        }
    }

    fn clock_armed(&self, key: &TankKey) -> (b: bool)
        ensures
            b == self.armed_of(key@),
    {
        match self.tank_index(key) {
            Some(i) => self.tanks[i].armed,
            None => self.armed,
        }
    }

    fn clock_sync(&self, key: &TankKey) -> (b: bool)
        ensures
            b == self.sync_of(key@),
    {
        match self.tank_index(key) {
            Some(i) => self.tanks[i].shout_sync,
            None => self.shout_sync,
        }
    }

    fn next_after_in(&self, key: &TankKey, current: u32) -> (r: Option<u32>)
        ensures
            r == spec_next_in_rotation(self.rotation(key@), current),
    {
        let nums = self.rotation_for(key);
        next_in_rotation(&nums, current)
    }

    fn beat_for(&self, key: &TankKey, now: u64) -> (b: Option<Beat>)
        ensures
            match b {
                Some(x) => self.beat_at(key@, now) == Some(x.parts()) && x.rotation@ == self.rotation(key@),
                None => self.beat_at(key@, now) is None,
            },
    {
        if !self.clock_running(key) {
            return None;
        }
        let start = match self.clock_started(key) {
            Some(s) => s,
            None => return None,
        };
        let rotation = self.rotation_for(key);
        let interval = self.interval_for(key);
        if rotation.len() == 0 || interval == 0 {
            return None;
        }
        let elapsed = now.saturating_sub(start);
        let ticks = elapsed / interval;
        let n = rotation.len() as u64;
        let idx = ticks % n;
        let current = rotation[idx as usize];
        let next = rotation[((idx + 1) % n) as usize];
        Some(Beat { current, next, ticks, rotation, interval_ms: interval, start })
    }

    fn running_current(&self, key: &TankKey, now: u64) -> (c: Option<u32>)
        ensures
            c == self.current_at(key@, now),
    {
        match self.beat_for(key, now) {
            Some(b) => Some(b.current),
            None => self.clock_current(key),
        }
    }

    fn current_phase_ms(&self, key: &TankKey, now: u64) -> (p: u64)
        ensures
            p == self.phase_at(key@, now),
    {
        let raw = self.interval_for(key);
        let interval = if raw < 1 { 1 } else { raw };
        match self.clock_started(key) {
            Some(start) => if self.clock_running(key) { now.saturating_sub(start) % interval } else { 0 },
            None => 0,
        }
    }
}

/// `new` is `old` with `key`'s clock set to run or not from `start`, on
/// seat `current`. A named key no tank answers to writes nothing.
pub open spec fn clock_written(
    old: ChainState,
    new: ChainState,
    key: Option<Seq<char>>,
    running: bool,
    start: Option<u64>,
    current: Option<u32>,
) -> bool {
    match key {
        None => new == ChainState { running: running, started_at_ms: start, current_number: current, ..old },
        Some(_) => match old.tank_of(key) {
            Some(i) => {
                &&& new.tanks@ == old.tanks@.update(
                    i,
                    TankAssignment { running: running, started_at_ms: start, current_number: current, ..old.tanks@[i] },
                )
                &&& new == ChainState { tanks: new.tanks, ..old }
            },
            None => new == old,
        },
    }
}

/// Seat `n` sits on `key`'s rotation and is not skipped.
pub open spec fn seat_live(s: ChainState, n: u32, key: Option<Seq<char>>) -> bool {
    match s.slot_index(n) {
        Some(i) => !s.slots@[i].skipped && s.key_for(n) == key,
        None => false,
    }
}

/// The seat a re-anchored clock keeps: `current` while it still sits on
/// this rotation, else the seat after it, else the first seat.
pub open spec fn keep_for(s: ChainState, key: Option<Seq<char>>, current: Option<u32>) -> Option<u32> {
    let r = s.rotation(key);
    let first = if r.len() > 0 { Some(r[0]) } else { None };
    match current {
        Some(n) => if seat_live(s, n, key) {
            Some(n)
        } else {
            match spec_next_in_rotation(r, n) {
                Some(x) => Some(x),
                None => first,
            }
        },
        None => first,
    }
}

/// `new` is `old` with `key`'s clock started so that `now` falls `phase`
/// into the beat of seat `current`; an empty rotation is left alone.
pub open spec fn reanchored(old: ChainState, new: ChainState, key: Option<Seq<char>>, current: u32, now: u64, phase: u64) -> bool {
    let r = old.rotation(key);
    if r.len() == 0 {
        new == old
    } else {
        let idx: u64 = match pos_from(r, current, 0) {
            Some(k) => k as u64,
            None => 0,
        };
        let iv = beat_len(old.interval_of(key));
        clock_written(old, new, key, true, Some(anchor_start(now, phase, idx, iv)), Some(current))
    }
}

/// The main clock, or a named key some tank answers to.
pub open spec fn key_resolves(s: ChainState, key: Option<Seq<char>>) -> bool {
    key is None || s.tank_of(key) is Some
}

proof fn lemma_clock_written_seats(old: ChainState, new: ChainState, key: Option<Seq<char>>, running: bool, start: Option<u64>, current: Option<u32>)
    requires
        clock_written(old, new, key, running, start, current),
    ensures
        seats_same(old, new),
        new.rotation(key) == old.rotation(key),
        new.tank_of(key) == old.tank_of(key),
        new.interval_of(key) == old.interval_of(key),
        key_resolves(old, key) ==> new.running_of(key) == running && new.started_of(key) == start && new.current_of(key) == current,
{
    if let Some(_) = key {
        lemma_named_from(old.tanks@, key->0, 0);
        if let Some(i) = old.tank_of(key) {
            assert(tanks_laid_same(old.tanks@, new.tanks@)) by {
                assert forall|k: int| 0 <= k < old.tanks@.len() implies {
                    &&& #[trigger] old.tanks@[k].name@ == new.tanks@[k].name@
                    &&& old.tanks@[k].from == new.tanks@[k].from
                    &&& old.tanks@[k].to == new.tanks@[k].to
                } by {
                    if k == i {
                    }
                }
            }
        }
    }
    lemma_seats_same(old, new);
}

/// A clock anchored with room to spare puts the anchoring seat on the beat:
/// if `now` is at least the phase plus the seat's place times the interval,
/// the beat at `now` is that seat's, the beat count is its place in the
/// rotation, and the clock is `phase` into that beat.
pub proof fn lemma_anchor_puts_seat_on_beat(old: ChainState, new: ChainState, key: Option<Seq<char>>, current: u32, now: u64, phase: u64)
    requires
        reanchored(old, new, key, current, now, phase),
        key_resolves(old, key),
        old.rotation(key).contains(current),
        old.interval_of(key) > 0,
        phase < old.interval_of(key),
        ({
            let k = pos_from(old.rotation(key), current, 0);
            k is Some && phase + k->0 * old.interval_of(key) <= now
        }),
    ensures
        new.running_of(key),
        new.beat_at(key, now) matches Some(b) && b.current == current
            && b.ticks == pos_from(old.rotation(key), current, 0)->0,
        new.phase_at(key, now) == phase,
{
    let r = old.rotation(key);
    let iv = old.interval_of(key);
    lemma_pos_from(r, current, 0);
    let k = pos_from(r, current, 0)->0;
    assert(k <= k * iv) by (nonlinear_arith)
        requires
            iv >= 1,
            k >= 0,
    ;
    assert(k as u64 == k);
    let start = anchor_start(now, phase, k as u64, iv);
    lemma_clock_written_seats(old, new, key, true, Some(start), Some(current));
    assert(k * iv <= now);
    assert(sat_mul(k as u64, iv) == k * iv);
    assert(sat_add(phase, sat_mul(k as u64, iv)) == phase + k * iv);
    assert(start == now - (phase + k * iv));
    let elapsed = sat_sub(now, start);
    assert(elapsed == phase + k * iv);
    vstd::arithmetic::div_mod::lemma_fundamental_div_mod_converse(elapsed as int, iv as int, k, phase as int);
    assert(elapsed / iv == k);
    assert(elapsed % iv == phase);
    vstd::arithmetic::div_mod::lemma_small_mod(k as nat, r.len());
}

/// `b` is `a` with at most `key`'s clock changed: every other tank is as it
/// was, and so is the main clock when `key` names a tank; no tank's name,
/// range or off-tank mark changes, and nothing but clocks changes.
pub open spec fn one_clock(a: ChainState, b: ChainState, key: Option<Seq<char>>) -> bool {
    &&& b.tanks@.len() == a.tanks@.len()
    &&& forall|i: int| 0 <= i < a.tanks@.len() && a.tank_of(key) != Some(i) ==> #[trigger] b.tanks@[i] == a.tanks@[i]
    &&& forall|i: int| 0 <= i < a.tanks@.len() ==> {
        &&& (#[trigger] b.tanks@[i]).name == a.tanks@[i].name
        &&& b.tanks@[i].from == a.tanks@[i].from
        &&& b.tanks@[i].to == a.tanks@[i].to
        &&& b.tanks@[i].is_off == a.tanks@[i].is_off
    }
    &&& (a.tank_of(key) is Some ==> {
        &&& b.running == a.running && b.started_at_ms == a.started_at_ms && b.current_number == a.current_number
        &&& b.armed == a.armed && b.shout_sync == a.shout_sync && b.interval_ms == a.interval_ms
    })
    &&& b == (ChainState {
        running: b.running,
        started_at_ms: b.started_at_ms,
        current_number: b.current_number,
        armed: b.armed,
        shout_sync: b.shout_sync,
        interval_ms: b.interval_ms,
        tanks: b.tanks,
        ..a
    })
}

/// A clock's run, start, arming and sync are the same in both; its seat
/// may differ.
pub open spec fn beat_same(a: ChainState, b: ChainState, k: Option<Seq<char>>) -> bool {
    &&& b.running_of(k) == a.running_of(k)
    &&& b.started_of(k) == a.started_of(k)
    &&& b.armed_of(k) == a.armed_of(k)
    &&& b.sync_of(k) == a.sync_of(k)
}

/// A named tank with no pace of its own, which goes at the main pace.
pub open spec fn follows_main(a: ChainState, k: Option<Seq<char>>) -> bool {
    a.tank_of(k) matches Some(j) && a.tanks@[j].interval_ms is None
}

/// Every clock other than `key`'s runs, starts, is armed and synced as it
/// was, at the same pace, but for one that follows a main pace that
/// changed.
pub open spec fn other_beats_kept(a: ChainState, b: ChainState, key: Option<Seq<char>>) -> bool {
    forall|k: Option<Seq<char>>| #![trigger beat_same(a, b, k)]
        key_resolves(a, k) && !same_clock(a, k, key) ==> beat_same(a, b, k) && kept_pace(a, b, key, k)
}

/// `k`'s pace in `b`: the main pace for a tank that follows it when `key`
/// is the main clock, else as in `a`.
pub open spec fn kept_pace(a: ChainState, b: ChainState, key: Option<Seq<char>>, k: Option<Seq<char>>) -> bool {
    b.interval_of(k) == if key is None && follows_main(a, k) { b.interval_of(None) } else { a.interval_of(k) }
}

proof fn lemma_one_clock_laid(a: ChainState, b: ChainState, key: Option<Seq<char>>)
    requires
        one_clock(a, b, key),
    ensures
        tanks_laid_same(a.tanks@, b.tanks@),
        only_clocks(a, b),
        forall|k: Option<Seq<char>>| #[trigger] b.tank_of(k) == a.tank_of(k),
{
    assert(tanks_laid_same(a.tanks@, b.tanks@)) by {
        assert forall|i: int| 0 <= i < a.tanks@.len() implies {
            &&& #[trigger] a.tanks@[i].name@ == b.tanks@[i].name@
            &&& a.tanks@[i].from == b.tanks@[i].from
            &&& a.tanks@[i].to == b.tanks@[i].to
        } by {
            assert(b.tanks@[i].name == a.tanks@[i].name);
        }
    }
    lemma_tanks_laid_same(a.tanks@, b.tanks@);
}

proof fn lemma_one_clock_trans(a: ChainState, b: ChainState, c: ChainState, key: Option<Seq<char>>)
    requires
        one_clock(a, b, key),
        one_clock(b, c, key),
    ensures
        one_clock(a, c, key),
{
    lemma_one_clock_laid(a, b, key);
    assert forall|i: int| 0 <= i < a.tanks@.len() && a.tank_of(key) != Some(i) implies #[trigger] c.tanks@[i] == a.tanks@[i] by {
        assert(b.tanks@[i] == a.tanks@[i]);
    }
    assert forall|i: int| 0 <= i < a.tanks@.len() implies {
        &&& (#[trigger] c.tanks@[i]).name == a.tanks@[i].name
        &&& c.tanks@[i].from == a.tanks@[i].from
        &&& c.tanks@[i].to == a.tanks@[i].to
        &&& c.tanks@[i].is_off == a.tanks@[i].is_off
    } by {
        assert(b.tanks@[i].name == a.tanks@[i].name);
    }
}

proof fn lemma_one_clock_others(a: ChainState, b: ChainState, key: Option<Seq<char>>)
    requires
        one_clock(a, b, key),
        key_resolves(a, key),
    ensures
        other_beats_kept(a, b, key),
{
    lemma_one_clock_laid(a, b, key);
    assert forall|k: Option<Seq<char>>| #![trigger beat_same(a, b, k)]
        key_resolves(a, k) && !same_clock(a, k, key) implies beat_same(a, b, k) && kept_pace(a, b, key, k) by {
        assert(b.tank_of(k) == a.tank_of(k));
        if let Some(name) = k {
            lemma_named_from(a.tanks@, name, 0);
            let j = a.tank_of(k)->0;
            assert(0 <= j < a.tanks@.len());
            assert(a.tank_of(key) != Some(j));
            assert(b.tanks@[j] == a.tanks@[j]);
            assert(b.running_of(k) == a.running_of(k));
            assert(b.started_of(k) == a.started_of(k));
            assert(b.current_of(k) == a.current_of(k));
            assert(b.armed_of(k) == a.armed_of(k));
            assert(b.sync_of(k) == a.sync_of(k));
        } else {
            assert(key is Some);
            assert(a.tank_of(key) is Some);
            assert(b.tank_of(k) is None);
        }
    }
}

/// Clocks as they were but for the seats they stand on.
pub open spec fn clocks_but_current(a: ChainState, b: ChainState) -> bool {
    &&& b.tanks@.len() == a.tanks@.len()
    &&& forall|i: int| 0 <= i < a.tanks@.len() ==> #[trigger] b.tanks@[i] == (TankAssignment {
        current_number: b.tanks@[i].current_number,
        ..a.tanks@[i]
    })
    &&& b.running == a.running && b.started_at_ms == a.started_at_ms && b.armed == a.armed
    &&& b.shout_sync == a.shout_sync && b.interval_ms == a.interval_ms
}

proof fn lemma_key_for_resolves(s: ChainState, n: u32)
    ensures
        key_resolves(s, s.key_for(n)),
{
    lemma_owner_from(s.tanks@, n, 0);
    if let Some(i) = owner_from(s.tanks@, n, 0) {
        let name = s.tanks@[i].name@;
        lemma_named_from(s.tanks@, name, 0);
        assert(eq_ci(s.tanks@[i].name@, name));
    }
}

/// Clocks kept but for seats, then only `key`'s clock changed: every other
/// clock is as `other_beats_kept` says.
proof fn lemma_other_beats(s: ChainState, m: ChainState, b: ChainState, key: Option<Seq<char>>)
    requires
        clocks_but_current(s, m),
        one_clock(m, b, key),
        key_resolves(s, key),
    ensures
        other_beats_kept(s, b, key),
{
    assert(tanks_laid_same(s.tanks@, m.tanks@)) by {
        assert forall|i: int| 0 <= i < s.tanks@.len() implies {
            &&& #[trigger] s.tanks@[i].name@ == m.tanks@[i].name@
            &&& s.tanks@[i].from == m.tanks@[i].from
            &&& s.tanks@[i].to == m.tanks@[i].to
        } by {
            assert(m.tanks@[i] == (TankAssignment { current_number: m.tanks@[i].current_number, ..s.tanks@[i] }));
        }
    }
    lemma_tanks_laid_same(s.tanks@, m.tanks@);
    assert(m.tank_of(key) == s.tank_of(key));
    lemma_one_clock_others(m, b, key);
    lemma_one_clock_laid(m, b, key);
    assert forall|k: Option<Seq<char>>| #![trigger beat_same(s, b, k)]
        key_resolves(s, k) && !same_clock(s, k, key) implies beat_same(s, b, k) && kept_pace(s, b, key, k) by {
        assert(m.tank_of(k) == s.tank_of(k));
        assert(key_resolves(m, k));
        assert(!same_clock(m, k, key));
        assert(other_beats_kept(m, b, key));
        assert(beat_same(m, b, k));
        assert(kept_pace(m, b, key, k));
        if let Some(name) = k {
            lemma_named_from(s.tanks@, name, 0);
            let j = s.tank_of(k)->0;
            assert(m.tanks@[j] == (TankAssignment { current_number: m.tanks@[j].current_number, ..s.tanks@[j] }));
        }
    }
}

impl ChainState {
    fn set_armed(&mut self, key: &TankKey, value: bool)
        ensures
            one_clock(*old(self), *final(self), key@),
            match old(self).tank_of(key@) {
                Some(i) => {
                    &&& final(self).tanks@ == old(self).tanks@.update(i, TankAssignment { armed: value, ..old(self).tanks@[i] })
                    &&& *final(self) == (ChainState { tanks: final(self).tanks, ..*old(self) })
                },
                None => *final(self) == (ChainState { armed: value, ..*old(self) }),
            },
    {
        match self.tank_index(key) {
            Some(i) => {
                let mut t = self.tanks.remove(i);
                t.armed = value;
                self.tanks.insert(i, t);
                proof {
                    assert(self.tanks@ =~= old(self).tanks@.update(i as int, TankAssignment { armed: value, ..old(self).tanks@[i as int] }));
                }
            },
            None => {
                self.armed = value;
            },
        }
    }

    fn set_shout_sync(&mut self, key: &TankKey, value: bool)
        ensures
            one_clock(*old(self), *final(self), key@),
            match old(self).tank_of(key@) {
                Some(i) => {
                    &&& final(self).tanks@ == old(self).tanks@.update(i, TankAssignment { shout_sync: value, ..old(self).tanks@[i] })
                    &&& *final(self) == (ChainState { tanks: final(self).tanks, ..*old(self) })
                },
                None => *final(self) == (ChainState { shout_sync: value, ..*old(self) }),
            },
    {
        match self.tank_index(key) {
            Some(i) => {
                let mut t = self.tanks.remove(i);
                t.shout_sync = value;
                self.tanks.insert(i, t);
                proof {
                    assert(self.tanks@ =~= old(self).tanks@.update(i as int, TankAssignment { shout_sync: value, ..old(self).tanks@[i as int] }));
                }
            },
            None => {
                self.shout_sync = value;
            },
        }
    }

    /// The interval a rotation was heard to run at: the main tank's, or the
    /// named tank's own.
    fn apply_inferred_interval(&mut self, key: &TankKey, ms: u64)
        ensures
            one_clock(*old(self), *final(self), key@),
            match old(self).tank_of(key@) {
                Some(i) => {
                    &&& final(self).tanks@ == old(self).tanks@.update(i, TankAssignment { interval_ms: Some(ms), ..old(self).tanks@[i] })
                    &&& *final(self) == (ChainState { tanks: final(self).tanks, ..*old(self) })
                },
                None => *final(self) == (ChainState { interval_ms: ms, ..*old(self) }),
            },
    {
        match self.tank_index(key) {
            Some(i) => {
                let mut t = self.tanks.remove(i);
                t.interval_ms = Some(ms);
                self.tanks.insert(i, t);
                proof {
                    assert(self.tanks@ =~= old(self).tanks@.update(i as int, TankAssignment { interval_ms: Some(ms), ..old(self).tanks@[i as int] }));
                }
            },
            None => {
                self.interval_ms = ms;
            },
        }
    }

    fn write_clock(&mut self, key: &TankKey, running: bool, start: Option<u64>, current: Option<u32>)
        ensures
            one_clock(*old(self), *final(self), key@),
            clock_written(*old(self), *final(self), key@, running, start, current),
    {
        match key {
            TankKey::Main => {
                self.running = running;
                self.started_at_ms = start;
                self.current_number = current;
            },
            TankKey::Named(_) => {
                match self.tank_index(key) {
                    Some(i) => {
                        let mut t = self.tanks.remove(i);
                        t.running = running;
                        t.started_at_ms = start;
                        t.current_number = current;
                        self.tanks.insert(i, t);
                        proof {
                            assert(self.tanks@ =~= old(self).tanks@.update(
                                i as int,
                                TankAssignment { running: running, started_at_ms: start, current_number: current, ..old(self).tanks@[i as int] },
                            ));
                        }
                    },
                    None => {},
                }
            },
        }
    }

    /// Only the seat a clock stands on: the main clock's, or a named tank's.
    fn set_clock_current(&mut self, key: &TankKey, number: Option<u32>)
        ensures
            one_clock(*old(self), *final(self), key@),
            clock_written(*old(self), *final(self), key@, old(self).running_of(key@), old(self).started_of(key@), number),
    {
        let running = self.clock_running(key);
        let start = self.clock_started(key);
        self.write_clock(key, running, start, number);
    }

    fn reanchor(&mut self, key: &TankKey, current: u32, now: u64, phase_ms: u64)
        ensures
            one_clock(*old(self), *final(self), key@),
            reanchored(*old(self), *final(self), key@, current, now, phase_ms),
    {
        let rotation = self.rotation_for(key);
        if rotation.len() == 0 {
            return;
        }
        let idx: u64 = match position(&rotation, current) {
            Some(k) => k as u64,
            None => 0,
        };
        let raw = self.interval_for(key);
        let interval = if raw < 1 { 1 } else { raw };
        let phase = if phase_ms < interval { phase_ms } else { interval - 1 };
        let back = phase.saturating_add(mul_sat(idx, interval));
        let start = now.saturating_sub(back);
        self.write_clock(key, true, Some(start), Some(current));
    }

    fn preserve_beat(&mut self, key: &TankKey, now: u64, current: Option<u32>)
        ensures
            one_clock(*old(self), *final(self), key@),
            !old(self).running_of(key@) ==> *final(self) == *old(self),
            old(self).running_of(key@) ==> match keep_for(*old(self), key@, current) {
                None => *final(self) == *old(self),
                Some(k) => reanchored(*old(self), *final(self), key@, k, now, old(self).phase_at(key@, now)),
            },
    {
        if !self.clock_running(key) {
            return;
        }
        let phase = self.current_phase_ms(key, now);
        let mut keep: Option<u32> = None;
        if let Some(n) = current {
            if let Some(i) = self.find_slot(n) {
                proof {
                    lemma_slot_from(self.slots@, n, 0);
                }
                let k = self.tank_key_for(n);
                if !self.slots[i].skipped && same_key(&k, key) {
                    keep = Some(n);
                }
            }
            if keep.is_none() {
                keep = self.next_after_in(key, n);
            }
        }
        if keep.is_none() {
            let r = self.rotation_for(key);
            if r.len() > 0 {
                keep = Some(r[0]);
            }
        }
        match keep {
            Some(k) => self.reanchor(key, k, now, phase),
            None => {},
        }
    }
}

/// A warning older than this is no longer shown and is cleared by the next
/// heal or command.
pub const WARNING_STALE_MS: u64 = 20_000;

/// `s` with its warning cleared once it is stale at `now`.
pub open spec fn fresh(s: ChainState, now: u64) -> ChainState {
    match s.warning_at_ms {
        Some(at) => if sat_sub(now, at) > WARNING_STALE_MS {
            ChainState {
                warning: None,
                warning_at_ms: None,
                warning_urgent: false,
                warning_kind: WarningKind::Other,
                warning_speech: None,
                ..s
            }
        } else {
            s
        },
        None => s,
    }
}

/// The first seat at `i` or later held by player `p`.
pub open spec fn holder_from(slots: Seq<ClericSlot>, your: Option<String>, p: Seq<char>, i: int) -> Option<int>
    decreases slots.len() - i,
{
    if i < 0 || i >= slots.len() {
        None
    } else if same_in(your, slots[i].player@, p) {
        Some(i)
    } else {
        holder_from(slots, your, p, i + 1)
    }
}

/// The number player `p` holds, the lowest if more than one.
pub open spec fn held_by(s: ChainState, p: Seq<char>) -> Option<u32> {
    match holder_from(s.slots@, s.your_name, p, 0) {
        Some(i) => Some(s.slots@[i].number),
        None => None,
    }
}

/// Seat `number` is set and held by someone other than `p`.
pub open spec fn occupied_by_other(s: ChainState, number: u32, p: Seq<char>) -> bool {
    match s.slot_index(number) {
        Some(i) => !s.same_person(s.slots@[i].player@, p),
        None => false,
    }
}

/// The banner for a claim on a seat someone else holds.
pub open spec fn taken_text(f: SlotFormat, number: u32, speaker: Seq<char>, you: bool) -> Seq<char> {
    if you {
        slot_text(f, number as nat) + " is already taken."@
    } else {
        speaker + ": "@ + slot_text(f, number as nat) + " is already taken."@
    }
}

/// The seats left when player `p` moves to `keep`: every seat but theirs,
/// and theirs at `keep`.
pub open spec fn kept(slots: Seq<ClericSlot>, your: Option<String>, p: Seq<char>, keep: u32) -> Seq<ClericSlot>
    decreases slots.len(),
{
    if slots.len() == 0 {
        Seq::empty()
    } else {
        let r = kept(slots.drop_last(), your, p, keep);
        let x = slots.last();
        if same_in(your, x.player@, p) && x.number != keep {
            r
        } else {
            r.push(x)
        }
    }
}

/// A number `p` gives up when moving to `keep`.
pub open spec fn vacated_number(slots: Seq<ClericSlot>, your: Option<String>, p: Seq<char>, keep: u32, n: u32) -> bool {
    exists|i: int| 0 <= i < slots.len() && #[trigger] slots[i].number == n && same_in(your, slots[i].player@, p) && n != keep
}

/// A clock's seat, cleared when it was given up.
pub open spec fn cleared(c: Option<u32>, slots: Seq<ClericSlot>, your: Option<String>, p: Seq<char>, keep: u32) -> Option<u32> {
    match c {
        Some(n) => if vacated_number(slots, your, p, keep, n) { None } else { c },
        None => None,
    }
}

/// A clock's seat, dropped when it is one of `gone`.
pub open spec fn drop_if_in(c: Option<u32>, gone: Seq<u32>) -> Option<u32> {
    match c {
        Some(n) => if gone.contains(n) { None } else { c },
        None => None,
    }
}

/// What a player's old seat carried: its number and its timings.
#[derive(Debug, Clone, Copy)]
pub struct VacatedSlot {
    pub old_number: Option<u32>,
    pub last_shout_ms: Option<u64>,
    pub last_actual_ms: Option<u64>,
    pub last_offset_ms: Option<i64>,
}

/// The highest seat `p` held, as a vacated seat; nothing if none.
pub open spec fn vacated_of(slots: Seq<ClericSlot>, your: Option<String>, p: Seq<char>) -> VacatedSlot
    decreases slots.len(),
{
    if slots.len() == 0 {
        VacatedSlot { old_number: None, last_shout_ms: None, last_actual_ms: None, last_offset_ms: None }
    } else {
        let x = slots.last();
        if same_in(your, x.player@, p) {
            VacatedSlot {
                old_number: Some(x.number),
                last_shout_ms: x.last_shout_ms,
                last_actual_ms: x.last_actual_ms,
                last_offset_ms: x.last_offset_ms,
            }
        } else {
            vacated_of(slots.drop_last(), your, p)
        }
    }
}

pub open spec fn ascending_seats(slots: Seq<ClericSlot>) -> bool {
    forall|i: int, j: int| 0 <= i < j < slots.len() ==> slots[i].number < slots[j].number
}

pub open spec fn gives_up(your: Option<String>, p: Seq<char>, keep: u32, x: ClericSlot) -> bool {
    same_in(your, x.player@, p) && x.number != keep
}

#[verifier::spinoff_prover]
#[verifier::rlimit(50)]
proof fn lemma_kept_from(slots: Seq<ClericSlot>, your: Option<String>, p: Seq<char>, keep: u32)
    ensures
        forall|k: int| 0 <= k < kept(slots, your, p, keep).len() ==> exists|j: int| 0 <= j < slots.len() && #[trigger] kept(slots, your, p, keep)[k] == slots[j]
            && !gives_up(your, p, keep, slots[j]),
        forall|j: int| 0 <= j < slots.len() && !gives_up(your, p, keep, #[trigger] slots[j]) ==> exists|k: int| 0 <= k < kept(slots, your, p, keep).len()
            && kept(slots, your, p, keep)[k] == slots[j],
        ascending_seats(slots) ==> ascending_seats(kept(slots, your, p, keep)),
    decreases slots.len(),
{
    if slots.len() > 0 {
        let t = slots.drop_last();
        lemma_kept_from(t, your, p, keep);
        let r = kept(t, your, p, keep);
        assert forall|k: int| 0 <= k < kept(slots, your, p, keep).len() implies exists|j: int| 0 <= j < slots.len() && #[trigger] kept(slots, your, p, keep)[k] == slots[j]
            && !gives_up(your, p, keep, slots[j]) by {
            if k < r.len() {
                let j = choose|j: int| 0 <= j < t.len() && #[trigger] r[k] == t[j] && !gives_up(your, p, keep, t[j]);
                assert(kept(slots, your, p, keep)[k] == slots[j]);
            } else {
                assert(kept(slots, your, p, keep)[k] == slots[slots.len() - 1]);
            }
        }
        assert forall|j: int| 0 <= j < slots.len() && !gives_up(your, p, keep, #[trigger] slots[j]) implies exists|k: int| 0 <= k < kept(slots, your, p, keep).len()
            && kept(slots, your, p, keep)[k] == slots[j] by {
            if j < t.len() {
                assert(t[j] == slots[j]);
                let k = choose|k: int| 0 <= k < r.len() && r[k] == t[j];
                assert(kept(slots, your, p, keep)[k] == slots[j]);
            } else {
                assert(kept(slots, your, p, keep)[r.len() as int] == slots[j]);
            }
        }
        if ascending_seats(slots) {
            assert(ascending_seats(t));
            assert forall|i: int, j: int| 0 <= i < j < kept(slots, your, p, keep).len() implies
                kept(slots, your, p, keep)[i].number < kept(slots, your, p, keep)[j].number by {
                if j >= r.len() {
                    let a = choose|a: int| 0 <= a < t.len() && #[trigger] r[i] == t[a] && !gives_up(your, p, keep, t[a]);
                    assert(slots[a] == t[a]);
                }
            }
        }
    }
}

impl ChainState {
    fn clear_warning(&mut self)
        ensures
            *final(self) == (ChainState {
                warning: None,
                warning_at_ms: None,
                warning_urgent: false,
                warning_kind: WarningKind::Other,
                warning_speech: None,
                ..*old(self)
            }),
    {
        self.warning = None;
        self.warning_at_ms = None;
        self.warning_urgent = false;
        self.warning_kind = WarningKind::Other;
        self.warning_speech = None;
    }

    fn clear_stale_warning_at(&mut self, now: u64)
        ensures
            *final(self) == fresh(*old(self), now),
    {
        if let Some(at) = self.warning_at_ms {
            if now.saturating_sub(at) > WARNING_STALE_MS {
                self.clear_warning();
            }
        }
    }

    fn slot_number_for_player(&self, speaker: &String) -> (r: Option<u32>)
        ensures
            r == held_by(*self, speaker@),
    {
        let mut i: usize = 0;
        while i < self.slots.len()
            invariant
                i <= self.slots@.len(),
                holder_from(self.slots@, self.your_name, speaker@, 0) == holder_from(self.slots@, self.your_name, speaker@, i as int),
            decreases self.slots@.len() - i,
        {
            if self.same_player(&self.slots[i].player, speaker) {
                return Some(self.slots[i].number);
            }
            i += 1;
        }
        None
    }

    fn occupied_by_other(&self, number: u32, speaker: &String) -> (b: bool)
        ensures
            b == occupied_by_other(*self, number, speaker@),
    {
        match self.find_slot(number) {
            Some(i) => {
                proof {
                    lemma_slot_from(self.slots@, number, 0);
                }
                !self.same_player(&self.slots[i].player, speaker)
            },
            None => false,
        }
    }

    fn slot_taken_message(&self, number: u32, speaker: &String, is_you: bool) -> (m: String)
        ensures
            m@ == taken_text(self.slot_format, number, speaker@, is_you),
    {
        let slot = fmt_slot(self.slot_format, number);
        let sc = chars_of(slot.as_str());
        let mut v: Vec<char> = Vec::new();
        if !is_you {
            let sp = chars_of(speaker.as_str());
            append_chars(&mut v, &sp);
            append_str(&mut v, ": ");
        }
        append_chars(&mut v, &sc);
        append_str(&mut v, " is already taken.");
        proof {
            assert(v@ =~= taken_text(self.slot_format, number, speaker@, is_you));
        }
        string_of(&v)
    }

    /// Clears any clock standing on a seat the player gave up.
    fn clear_given_up(&mut self, removed: &Vec<u32>)
        ensures
            final(self).current_number == drop_if_in(old(self).current_number, removed@),
            final(self).tanks@.len() == old(self).tanks@.len(),
            forall|i: int| 0 <= i < old(self).tanks@.len() ==> #[trigger] final(self).tanks@[i] == (TankAssignment {
                current_number: drop_if_in(old(self).tanks@[i].current_number, removed@),
                ..old(self).tanks@[i]
            }),
            *final(self) == (ChainState { current_number: final(self).current_number, tanks: final(self).tanks, ..*old(self) }),
    {
        if let Some(n) = self.current_number {
            if has_u32(removed, n) {
                self.current_number = None;
            }
        }
        let mut i: usize = 0;
        while i < self.tanks.len()
            invariant
                i <= self.tanks@.len(),
                self.tanks@.len() == old(self).tanks@.len(),
                self.current_number == drop_if_in(old(self).current_number, removed@),
                forall|k: int| 0 <= k < i ==> #[trigger] self.tanks@[k] == (TankAssignment {
                    current_number: drop_if_in(old(self).tanks@[k].current_number, removed@),
                    ..old(self).tanks@[k]
                }),
                forall|k: int| i <= k < self.tanks@.len() ==> #[trigger] self.tanks@[k] == old(self).tanks@[k],
                *self == (ChainState { current_number: self.current_number, tanks: self.tanks, ..*old(self) }),
            decreases self.tanks@.len() - i,
        {
            if let Some(n) = self.tanks[i].current_number {
                if has_u32(removed, n) {
                    let mut t = self.tanks.remove(i);
                    t.current_number = None;
                    self.tanks.insert(i, t);
                }
            }
            i += 1;
        }
    }

    #[verifier::spinoff_prover]
    #[verifier::rlimit(50)]
    fn vacate_player(&mut self, speaker: &String, keep: u32) -> (v: VacatedSlot)
        requires
            old(self).wf(),
        ensures
            final(self).wf(),
            final(self).slots@ == kept(old(self).slots@, old(self).your_name, speaker@, keep),
            v == vacated_of(old(self).slots@, old(self).your_name, speaker@),
            final(self).current_number == cleared(old(self).current_number, old(self).slots@, old(self).your_name, speaker@, keep),
            final(self).tanks@.len() == old(self).tanks@.len(),
            forall|i: int| 0 <= i < old(self).tanks@.len() ==> #[trigger] final(self).tanks@[i] == (TankAssignment {
                current_number: cleared(old(self).tanks@[i].current_number, old(self).slots@, old(self).your_name, speaker@, keep),
                ..old(self).tanks@[i]
            }),
            *final(self) == (ChainState {
                slots: final(self).slots,
                current_number: final(self).current_number,
                tanks: final(self).tanks,
                ..*old(self)
            }),
    {
        let ghost orig = self.slots@;
        let ghost your = self.your_name;
        let total = self.slots.len();
        let mut rest: Vec<ClericSlot> = Vec::new();
        std::mem::swap(&mut rest, &mut self.slots);
        let mut removed: Vec<u32> = Vec::new();
        let mut v = VacatedSlot { old_number: None, last_shout_ms: None, last_actual_ms: None, last_offset_ms: None };
        let mut j: usize = 0;
        while rest.len() > 0
            invariant
                total == orig.len(),
                j <= orig.len(),
                rest@ == orig.skip(j as int),
                self.slots@ == kept(orig.take(j as int), your, speaker@, keep),
                v == vacated_of(orig.take(j as int), your, speaker@),
                forall|n: u32| removed@.contains(n) <==> vacated_number(orig.take(j as int), your, speaker@, keep, n),
                self.your_name == your,
                *self == (ChainState { slots: self.slots, ..*old(self) }),
            decreases rest@.len(),
        {
            let x = rest.remove(0);
            proof {
                assert(orig.take(j + 1).drop_last() =~= orig.take(j as int));
                assert(orig.take(j + 1).last() == x);
                assert(rest@ =~= orig.skip(j + 1));
            }
            let held = self.same_player(&x.player, speaker);
            if held {
                v = VacatedSlot {
                    old_number: Some(x.number),
                    last_shout_ms: x.last_shout_ms,
                    last_actual_ms: x.last_actual_ms,
                    last_offset_ms: x.last_offset_ms,
                };
            }
            let ghost xn = x.number;
            let ghost before = removed@;
            let ghost pre = orig.take(j as int);
            if held && x.number != keep {
                removed.push(x.number);
            } else {
                self.slots.push(x);
            }
            proof {
                let t = orig.take(j + 1);
                assert(t[j as int].number == xn);
                if held && xn != keep {
                    assert(removed@[removed@.len() - 1] == xn);
                }
                assert forall|n: u32| removed@.contains(n) <==> vacated_number(t, your, speaker@, keep, n) by {
                    assert(removed@.contains(n) <==> (before.contains(n) || (held && xn != keep && n == xn))) by {
                        if held && xn != keep {
                            assert(removed@ == before.push(xn));
                            if removed@.contains(n) {
                                let q = choose|q: int| 0 <= q < removed@.len() && removed@[q] == n;
                                if q < before.len() {
                                    assert(before[q] == n);
                                }
                            }
                            if before.contains(n) {
                                let q = choose|q: int| 0 <= q < before.len() && before[q] == n;
                                assert(removed@[q] == n);
                            }
                        }
                    }
                    if vacated_number(pre, your, speaker@, keep, n) {
                        let i = choose|i: int| 0 <= i < pre.len() && #[trigger] pre[i].number == n
                            && same_in(your, pre[i].player@, speaker@) && n != keep;
                        assert(t[i] == pre[i]);
                    }
                    if vacated_number(t, your, speaker@, keep, n) {
                        let i = choose|i: int| 0 <= i < t.len() && #[trigger] t[i].number == n
                            && same_in(your, t[i].player@, speaker@) && n != keep;
                        if i < j {
                            assert(t[i] == pre[i]);
                            assert(vacated_number(pre, your, speaker@, keep, n));
                        }
                    }
                    if held && xn != keep && n == xn {
                        assert(vacated_number(t, your, speaker@, keep, n));
                    }
                }
            }
            j += 1;
        }
        proof {
            assert(orig.take(j as int) =~= orig);
            lemma_kept_from(orig, your, speaker@, keep);
        }
        self.clear_given_up(&removed);
        proof {
            assert forall|c: Option<u32>| drop_if_in(c, removed@) == cleared(c, orig, your, speaker@, keep) by {}
        }
        v
    }
}

/// The seat with number `n`, if any.
pub open spec fn seat_of(slots: Seq<ClericSlot>, n: u32) -> Option<ClericSlot> {
    match slot_from(slots, n, 0) {
        Some(i) => Some(slots[i]),
        None => None,
    }
}

proof fn lemma_seat_index(s: Seq<ClericSlot>, i: int, k: int)
    requires
        ascending_seats(s),
        0 <= k <= i < s.len(),
    ensures
        slot_from(s, s[i].number, k) == Some(i),
    decreases i - k,
{
    if k < i {
        lemma_seat_index(s, i, k + 1);
    }
}

/// In ascending seats, the seat at `i` is the one its number finds.
proof fn lemma_seat_at(s: Seq<ClericSlot>, i: int)
    requires
        ascending_seats(s),
        0 <= i < s.len(),
    ensures
        seat_of(s, s[i].number) == Some(s[i]),
        slot_from(s, s[i].number, 0) == Some(i),
{
    lemma_seat_index(s, i, 0);
}

proof fn lemma_no_seat(s: Seq<ClericSlot>, n: u32)
    requires
        forall|i: int| 0 <= i < s.len() ==> #[trigger] s[i].number != n,
    ensures
        seat_of(s, n) is None,
{
    lemma_slot_from(s, n, 0);
}

/// A player moving to `keep` gives up every other seat they held, and
/// nothing else changes.
proof fn lemma_seat_of_kept(slots: Seq<ClericSlot>, your: Option<String>, p: Seq<char>, keep: u32, n: u32)
    requires
        ascending_seats(slots),
    ensures
        seat_of(kept(slots, your, p, keep), n) == if vacated_number(slots, your, p, keep, n) { None } else { seat_of(slots, n) },
{
    lemma_kept_from(slots, your, p, keep);
    let r = kept(slots, your, p, keep);
    lemma_slot_from(slots, n, 0);
    match slot_from(slots, n, 0) {
        Some(j) => {
            lemma_seat_at(slots, j);
            if gives_up(your, p, keep, slots[j]) {
                assert(vacated_number(slots, your, p, keep, n));
                assert forall|k: int| 0 <= k < r.len() implies #[trigger] r[k].number != n by {
                    let a = choose|a: int| 0 <= a < slots.len() && #[trigger] r[k] == slots[a] && !gives_up(your, p, keep, slots[a]);
                    if slots[a].number == n {
                        lemma_seat_at(slots, a);
                    }
                }
                lemma_no_seat(r, n);
            } else {
                let k = choose|k: int| 0 <= k < r.len() && r[k] == slots[j];
                lemma_seat_at(r, k);
                if vacated_number(slots, your, p, keep, n) {
                    let i = choose|i: int| 0 <= i < slots.len() && #[trigger] slots[i].number == n
                        && same_in(your, slots[i].player@, p) && n != keep;
                    lemma_seat_at(slots, i);
                }
            }
        },
        None => {
            assert forall|k: int| 0 <= k < r.len() implies #[trigger] r[k].number != n by {
                let a = choose|a: int| 0 <= a < slots.len() && #[trigger] r[k] == slots[a] && !gives_up(your, p, keep, slots[a]);
            }
            lemma_no_seat(r, n);
        },
    }
}

impl ChainState {
    pub open spec fn seat(&self, n: u32) -> Option<ClericSlot> {
        seat_of(self.slots@, n)
    }

    /// Puts a seat in its place by number, in place of any seat there.
    #[verifier::spinoff_prover]
    #[verifier::rlimit(60)]
    fn insert_seat(&mut self, x: ClericSlot)
        requires
            old(self).wf(),
        ensures
            final(self).wf(),
            forall|n: u32| #[trigger] final(self).seat(n) == if n == x.number { Some(x) } else { old(self).seat(n) },
            *final(self) == (ChainState { slots: final(self).slots, ..*old(self) }),
    {
        let ghost o = self.slots@;
        let ghost xv = x;
        let mut p: usize = 0;
        while p < self.slots.len() && self.slots[p].number < x.number
            invariant
                p <= self.slots@.len(),
                self.slots@ == o,
                forall|k: int| 0 <= k < p ==> #[trigger] o[k].number < x.number,
            decreases self.slots@.len() - p,
        {
            p += 1;
        }
        let replace = p < self.slots.len() && self.slots[p].number == x.number;
        if replace {
            self.slots.remove(p);
        }
        let ghost mid = self.slots@;
        self.slots.insert(p, x);
        let ghost r = self.slots@;
        proof {
            assert(ascending_seats(o));
            assert forall|k: int| p <= k < mid.len() implies #[trigger] mid[k].number > xv.number by {
                if replace {
                    assert(mid[k] == o[k + 1]);
                } else {
                    assert(mid[k] == o[k]);
                    assert(o[p as int].number >= xv.number);
                }
            }
            assert forall|k: int| 0 <= k < p implies #[trigger] mid[k] == o[k] by {}
            assert(ascending_seats(r)) by {
                assert forall|i: int, j: int| 0 <= i < j < r.len() implies r[i].number < r[j].number by {
                    if replace {
                        if j > p && i > p {
                            assert(r[i] == o[i]);
                            assert(r[j] == o[j]);
                        }
                        if i < p && j > p {
                            assert(r[j] == o[j]);
                        }
                    } else {
                        if j > p && i > p {
                            assert(r[i] == o[i - 1]);
                            assert(r[j] == o[j - 1]);
                        }
                        if i < p && j > p {
                            assert(r[j] == o[j - 1]);
                        }
                    }
                }
            }
            assert(r[p as int] == xv);
            lemma_seat_at(r, p as int);
            assert forall|n: u32| #[trigger] seat_of(r, n) == if n == xv.number { Some(xv) } else { seat_of(o, n) } by {
                if n != xv.number {
                    lemma_slot_from(o, n, 0);
                    match slot_from(o, n, 0) {
                        Some(j) => {
                            lemma_seat_at(o, j);
                            if j < p {
                                assert(r[j] == o[j]);
                                lemma_seat_at(r, j);
                            } else {
                                if replace {
                                    assert(j != p);
                                    assert(r[j] == o[j]);
                                    lemma_seat_at(r, j);
                                } else {
                                    assert(r[j + 1] == o[j]);
                                    lemma_seat_at(r, j + 1);
                                }
                            }
                        },
                        None => {
                            assert forall|k: int| 0 <= k < r.len() implies #[trigger] r[k].number != n by {
                                if k < p {
                                    assert(r[k] == o[k]);
                                } else if k > p {
                                    if replace {
                                        assert(r[k] == o[k]);
                                    } else {
                                        assert(r[k] == o[k - 1]);
                                    }
                                }
                            }
                            lemma_no_seat(r, n);
                        },
                    }
                }
            }
        }
    }
}

/// The beat a heal on seat `number` at `actual` is measured against: the
/// nearer of its turns before and after `actual` on a running clock.
pub open spec fn expected_at(s: ChainState, number: u32, actual: u64) -> Option<u64> {
    let key = s.key_for(number);
    let r = s.rotation(key);
    match s.beat_at(key, actual) {
        Some(b) => match pos_from(r, number, 0) {
            Some(i) => Some(spec_nearest_expected(i as u64, r.len() as u64, b.ticks, b.start, b.interval_ms, actual)),
            None => None,
        },
        None => None,
    }
}

/// The same seats, in order, with the same players, skip marks and shouts:
/// only heal timings may differ.
pub open spec fn same_marks(a: Seq<ClericSlot>, b: Seq<ClericSlot>) -> bool {
    &&& a.len() == b.len()
    &&& forall|i: int| 0 <= i < a.len() ==> {
        &&& (#[trigger] a[i]).number == b[i].number
        &&& a[i].skipped == b[i].skipped
        &&& a[i].player == b[i].player
        &&& a[i].last_shout_ms == b[i].last_shout_ms
    }
}

proof fn lemma_same_marks(a: Seq<ClericSlot>, b: Seq<ClericSlot>, tanks: Seq<TankAssignment>, key: Option<Seq<char>>)
    requires
        same_marks(a, b),
    ensures
        rot(a, tanks, key) == rot(b, tanks, key),
        shout_times(a, tanks, key) == shout_times(b, tanks, key),
    decreases a.len(),
{
    if a.len() > 0 {
        assert(same_marks(a.drop_last(), b.drop_last())) by {
            assert forall|i: int| 0 <= i < a.drop_last().len() implies {
                &&& (#[trigger] a.drop_last()[i]).number == b.drop_last()[i].number
                &&& a.drop_last()[i].skipped == b.drop_last()[i].skipped
                &&& a.drop_last()[i].player == b.drop_last()[i].player
                &&& a.drop_last()[i].last_shout_ms == b.drop_last()[i].last_shout_ms
            } by {
                assert(a[i] == a.drop_last()[i]);
            }
        }
        lemma_same_marks(a.drop_last(), b.drop_last(), tanks, key);
        assert(a.last() == a[a.len() - 1]);
    }
}

/// How far `actual` fell from `expected`, late positive, held within `i64`.
pub open spec fn offset_of(expected: u64, actual: u64) -> i64 {
    if actual >= expected {
        if actual - expected > i64::MAX { i64::MAX } else { (actual - expected) as i64 }
    } else {
        if expected - actual > i64::MAX { -i64::MAX as i64 } else { -(expected - actual) as i64 }
    }
}

fn offset_ms(expected: u64, actual: u64) -> (o: i64)
    ensures
        o == offset_of(expected, actual),
{
    if actual >= expected {
        let d = actual - expected;
        if d > 9_223_372_036_854_775_807u64 { i64::MAX } else { d as i64 }
    } else {
        let d = expected - actual;
        if d > 9_223_372_036_854_775_807u64 { -i64::MAX } else { -(d as i64) }
    }
}

/// The last shout of every seat on `key`'s rotation, skipped seats too, in
/// seat order.
pub open spec fn shout_times(slots: Seq<ClericSlot>, tanks: Seq<TankAssignment>, key: Option<Seq<char>>) -> Seq<u64>
    decreases slots.len(),
{
    if slots.len() == 0 {
        Seq::empty()
    } else {
        let r = shout_times(slots.drop_last(), tanks, key);
        let x = slots.last();
        if key_of(tanks, x.number) == key && x.last_shout_ms is Some {
            r.push(x.last_shout_ms->0)
        } else {
            r
        }
    }
}

/// An ascending sequence with repeats dropped.
pub open spec fn distinct(a: Seq<u64>) -> Seq<u64>
    decreases a.len(),
{
    if a.len() == 0 {
        Seq::empty()
    } else {
        let r = distinct(a.drop_last());
        if r.len() > 0 && r.last() == a.last() {
            r
        } else {
            r.push(a.last())
        }
    }
}

/// The steps between neighbours.
pub open spec fn steps(a: Seq<u64>) -> Seq<u64> {
    Seq::new((a.len() - 1) as nat, |i: int| sat_sub(a[i + 1], a[i]))
}

/// Gaps between shouts that look like a timed chain: half a second to twelve.
pub open spec fn in_band(g: Seq<u64>) -> Seq<u64>
    decreases g.len(),
{
    if g.len() == 0 {
        Seq::empty()
    } else {
        let r = in_band(g.drop_last());
        if 500 <= g.last() <= 12_000 {
            r.push(g.last())
        } else {
            r
        }
    }
}

/// A gap rounded to the nearest whole second, half up, and at least one.
pub open spec fn whole_second(g: u64) -> u64 {
    let r = (g + 500) / 1000 * 1000;
    if r < 1000 { 1000 } else { r as u64 }
}

/// The pace heard in a rotation's shouts: the median of the in-band gaps
/// between its distinct shout times, to the nearest second.
pub open spec fn inferred_interval(times: Seq<u64>) -> Option<u64> {
    let ts = distinct(crate::report::ascending(times));
    if ts.len() < 2 {
        None
    } else {
        let g = in_band(steps(ts));
        if g.len() == 0 {
            None
        } else {
            Some(whole_second(crate::report::ascending(g)[(g.len() / 2) as int]))
        }
    }
}

/// The gaps a rotation's shouts show: between neighbouring distinct shout
/// times, those of half a second to twelve, in the order heard.
pub open spec fn gaps_heard(times: Seq<u64>) -> Seq<u64> {
    let ts = distinct(crate::report::ascending(times));
    if ts.len() < 2 {
        Seq::empty()
    } else {
        in_band(steps(ts))
    }
}

pub open spec fn shorter_than(m: u64) -> spec_fn(u64) -> bool {
    |x: u64| x < m
}

pub open spec fn no_longer_than(m: u64) -> spec_fn(u64) -> bool {
    |x: u64| x <= m
}

proof fn lemma_filter_len_is_multiset(s: Seq<u64>, p: spec_fn(u64) -> bool)
    ensures
        s.filter(p).len() == s.to_multiset().filter(p).len(),
    decreases s.len(),
{
    broadcast use vstd::multiset::group_multiset_axioms;
    broadcast use vstd::seq_lib::group_to_multiset_ensures;

    reveal(Seq::filter);
    if s.len() == 0 {
        vstd::multiset::lemma_multiset_empty_len(s.to_multiset());
        assert(s.to_multiset().filter(p) =~= vstd::multiset::Multiset::<u64>::empty());
    } else {
        let d = s.drop_last();
        let x = s.last();
        lemma_filter_len_is_multiset(d, p);
        assert(d.push(x) =~= s);
        let md = d.to_multiset();
        assert(s.to_multiset() == md.insert(x));
        if p(x) {
            assert(md.insert(x).filter(p) =~= md.filter(p).insert(x));
        } else {
            assert(md.insert(x).filter(p) =~= md.filter(p));
        }
    }
}

proof fn lemma_filter_all(s: Seq<u64>, p: spec_fn(u64) -> bool)
    requires
        forall|i: int| 0 <= i < s.len() ==> p(#[trigger] s[i]),
    ensures
        s.filter(p).len() == s.len(),
    decreases s.len(),
{
    reveal(Seq::filter);
    if s.len() > 0 {
        lemma_filter_all(s.drop_last(), p);
        assert(p(s[s.len() - 1]));
    }
}

proof fn lemma_filter_none(s: Seq<u64>, p: spec_fn(u64) -> bool)
    requires
        forall|i: int| 0 <= i < s.len() ==> !p(#[trigger] s[i]),
    ensures
        s.filter(p).len() == 0,
    decreases s.len(),
{
    reveal(Seq::filter);
    if s.len() > 0 {
        lemma_filter_none(s.drop_last(), p);
        assert(!p(s[s.len() - 1]));
    }
}

proof fn lemma_filter_grows(s: Seq<u64>, p: spec_fn(u64) -> bool)
    requires
        s.len() > 0,
    ensures
        s.drop_last().filter(p).len() <= s.filter(p).len(),
        p(s.last()) ==> s.filter(p).len() == s.drop_last().filter(p).len() + 1,
        !p(s.last()) ==> s.filter(p).len() == s.drop_last().filter(p).len(),
{
    reveal(Seq::filter);
}

/// In ascending `a`, fewer than `k + 1` entries lie below `a[k]` and at
/// least `k + 1` are no more than it.
proof fn lemma_order_statistic(a: Seq<u64>, k: int)
    requires
        crate::report::is_ascending(a),
        0 <= k < a.len(),
    ensures
        a.filter(shorter_than(a[k])).len() <= k,
        a.filter(no_longer_than(a[k])).len() >= k + 1,
    decreases a.len(),
{
    let d = a.drop_last();
    let m = a[k];
    lemma_filter_grows(a, shorter_than(m));
    lemma_filter_grows(a, no_longer_than(m));
    d.lemma_filter_len(shorter_than(m));
    assert(a.last() >= m);
    if k == a.len() - 1 {
        assert forall|i: int| 0 <= i < d.len() implies #[trigger] no_longer_than(m)(d[i]) by {
            assert(d[i] == a[i]);
        }
        lemma_filter_all(d, no_longer_than(m));
    } else {
        assert(d[k] == m);
        lemma_order_statistic(d, k);
    }
}

proof fn lemma_same_multiset_same_count(a: Seq<u64>, b: Seq<u64>, p: spec_fn(u64) -> bool)
    requires
        a.to_multiset() == b.to_multiset(),
    ensures
        a.filter(p).len() == b.filter(p).len(),
{
    lemma_filter_len_is_multiset(a, p);
    lemma_filter_len_is_multiset(b, p);
}

/// The pace heard is the median gap. With no gap heard there is no pace;
/// otherwise the inferred interval is a gap `m` that was heard, to the
/// nearest second, with at most half the gaps shorter than `m` and more
/// than half no longer. One late cleric's long gap does not set the pace.
pub proof fn lemma_pace_is_median_gap(times: Seq<u64>)
    ensures
        (inferred_interval(times) is None) == (gaps_heard(times).len() == 0),
        inferred_interval(times) matches Some(v) ==> exists|m: u64|
            #![trigger gaps_heard(times).filter(shorter_than(m))]
            gaps_heard(times).contains(m) && v == whole_second(m)
                && gaps_heard(times).filter(shorter_than(m)).len() <= gaps_heard(times).len() / 2
                && gaps_heard(times).filter(no_longer_than(m)).len() > gaps_heard(times).len() / 2,
{
    broadcast use vstd::seq_lib::group_to_multiset_ensures;

    let ts = distinct(crate::report::ascending(times));
    if ts.len() >= 2 {
        let g = in_band(steps(ts));
        assert(gaps_heard(times) == g);
        if g.len() > 0 {
            let a = crate::report::ascending(g);
            crate::report::lemma_ascending_sorts(g);
            let k: int = (g.len() / 2) as int;
            let m = a[k];
            lemma_order_statistic(a, k);
            lemma_same_multiset_same_count(a, g, shorter_than(m));
            lemma_same_multiset_same_count(a, g, no_longer_than(m));
            assert(a.contains(m));
            assert(a.to_multiset().count(m) > 0);
            assert(g.contains(m));
            assert(inferred_interval(times) == Some(whole_second(m)));
        }
    }
}

proof fn lemma_filter_all_but_one(s: Seq<u64>, p: spec_fn(u64) -> bool, j: int)
    requires
        0 <= j < s.len(),
        forall|i: int| 0 <= i < s.len() && i != j ==> p(#[trigger] s[i]),
    ensures
        s.filter(p).len() + 1 >= s.len(),
    decreases s.len(),
{
    let d = s.drop_last();
    lemma_filter_grows(s, p);
    if j == s.len() - 1 {
        assert forall|i: int| 0 <= i < d.len() implies p(#[trigger] d[i]) by {
            assert(d[i] == s[i]);
        }
        lemma_filter_all(d, p);
    } else {
        assert(p(s[s.len() - 1]));
        assert forall|i: int| 0 <= i < d.len() && i != j implies p(#[trigger] d[i]) by {
            assert(d[i] == s[i]);
        }
        lemma_filter_all_but_one(d, p, j);
    }
}

proof fn lemma_filter_only_one(s: Seq<u64>, p: spec_fn(u64) -> bool, j: int)
    requires
        0 <= j < s.len(),
        forall|i: int| 0 <= i < s.len() && i != j ==> !p(#[trigger] s[i]),
    ensures
        s.filter(p).len() <= 1,
    decreases s.len(),
{
    let d = s.drop_last();
    lemma_filter_grows(s, p);
    if j == s.len() - 1 {
        assert forall|i: int| 0 <= i < d.len() implies !p(#[trigger] d[i]) by {
            assert(d[i] == s[i]);
        }
        lemma_filter_none(d, p);
    } else {
        assert(!p(s[s.len() - 1]));
        assert forall|i: int| 0 <= i < d.len() && i != j implies !p(#[trigger] d[i]) by {
            assert(d[i] == s[i]);
        }
        lemma_filter_only_one(d, p, j);
    }
}

/// One late or early cleric does not move the pace: when three or more gaps
/// were heard and all but one are the same length `d`, the pace is `d` to
/// the nearest second, however long or short the odd gap is.
pub proof fn lemma_one_odd_gap_keeps_pace(times: Seq<u64>, d: u64, j: int)
    requires
        gaps_heard(times).len() >= 3,
        0 <= j < gaps_heard(times).len(),
        forall|i: int| 0 <= i < gaps_heard(times).len() && i != j ==> #[trigger] gaps_heard(times)[i] == d,
    ensures
        inferred_interval(times) == Some(whole_second(d)),
{
    lemma_pace_is_median_gap(times);
    let g = gaps_heard(times);
    let v = inferred_interval(times)->0;
    let m = choose|m: u64|
        #![trigger gaps_heard(times).filter(shorter_than(m))]
        gaps_heard(times).contains(m) && v == whole_second(m)
            && gaps_heard(times).filter(shorter_than(m)).len() <= gaps_heard(times).len() / 2
            && gaps_heard(times).filter(no_longer_than(m)).len() > gaps_heard(times).len() / 2;
    if m < d {
        assert forall|i: int| 0 <= i < g.len() && i != j implies !no_longer_than(m)(#[trigger] g[i]) by {}
        lemma_filter_only_one(g, no_longer_than(m), j);
    } else if m > d {
        assert forall|i: int| 0 <= i < g.len() && i != j implies shorter_than(m)(#[trigger] g[i]) by {}
        lemma_filter_all_but_one(g, shorter_than(m), j);
    }
}

/// A named key as typed: the main tank by `mt` or by its name, or a tank
/// with that name in any case.
pub open spec fn plain_key(s: ChainState, name: Seq<char>) -> Option<Option<Seq<char>>> {
    if s.tank matches Some(t) && eq_ci(t@, name) {
        Some(None)
    } else if named(s.tanks@, name) is Some {
        Some(Some(name))
    } else {
        None
    }
}

/// The rotation a tank name in a command means: `mt`, `ot` for the off
/// tank, the main tank's name, or a named tank. An off tank itself called
/// `ot` names no rotation.
pub open spec fn parsed_key(s: ChainState, name: Seq<char>) -> Option<Option<Seq<char>>> {
    if eq_ci(name, "mt"@) {
        Some(None)
    } else if eq_ci(name, "ot"@) {
        match s.off_tank {
            None => None,
            Some(ot) => if eq_ci(ot@, "mt"@) {
                Some(None)
            } else if eq_ci(ot@, "ot"@) {
                None
            } else {
                plain_key(s, ot@)
            },
        }
    } else {
        plain_key(s, name)
    }
}

/// What a rotation is called on the panel: the main tank's name, `MT` while
/// none is set, or the named tank.
pub open spec fn display_of(s: ChainState, key: Option<Seq<char>>) -> Seq<char> {
    match key {
        None => match s.tank {
            Some(t) => t@,
            None => "MT"@,
        },
        Some(n) => n,
    }
}

/// The banner for a heal on the wrong tank: a target was named, the seat's
/// tank is known, and the target is neither that tank nor a name for it.
pub open spec fn mismatch_text(s: ChainState, number: u32, target: Seq<char>, you: bool) -> Option<Seq<char>> {
    let key = s.key_for(number);
    let expected: Option<Seq<char>> = match key {
        None => match s.tank {
            Some(t) => Some(t@),
            None => None,
        },
        Some(n) => Some(n),
    };
    if target.len() == 0 {
        None
    } else {
        match expected {
            None => None,
            Some(e) => if eq_ci(target, e) {
                None
            } else if parsed_key(s, target) == Some(key) {
                None
            } else {
                let who = if you {
                    "You"@
                } else {
                    match s.seat(number) {
                        Some(x) => x.player@,
                        None => "They"@,
                    }
                };
                Some(who + " CHed "@ + target + " instead of "@ + display_of(s, key) + "."@)
            },
        }
    }
}

impl ChainState {
    fn nearest_expected_for(&self, number: u32, actual: u64) -> (e: Option<u64>)
        ensures
            e == expected_at(*self, number, actual),
    {
        let key = self.tank_key_for(number);
        let beat = match self.beat_for(&key, actual) {
            Some(b) => b,
            None => return None,
        };
        let idx = match position(&beat.rotation, number) {
            Some(i) => i,
            None => return None,
        };
        proof {
            lemma_pos_from(beat.rotation@, number, 0);
        }
        let n = beat.rotation.len() as u64;
        Some(nearest_expected(idx as u64, n, beat.ticks, beat.start, beat.interval_ms, actual))
    }

    /// Notes when seat `number` last healed and how far off its beat.
    fn record_actual(&mut self, number: u32, actual: u64)
        requires
            old(self).wf(),
        ensures
            final(self).wf(),
            forall|n: u32| #[trigger] final(self).seat(n) == if n == number {
                match old(self).seat(n) {
                    Some(x) => Some(ClericSlot {
                        last_actual_ms: Some(actual),
                        last_offset_ms: match expected_at(*old(self), number, actual) {
                            Some(e) => Some(offset_of(e, actual)),
                            None => x.last_offset_ms,
                        },
                        ..x
                    }),
                    None => None,
                }
            } else {
                old(self).seat(n)
            },
            *final(self) == (ChainState { slots: final(self).slots, ..*old(self) }),
            same_marks(old(self).slots@, final(self).slots@),
    {
        let expected = self.nearest_expected_for(number, actual);
        match self.find_slot(number) {
            Some(i) => {
                proof {
                    lemma_slot_from(self.slots@, number, 0);
                }
                let mut x = self.slots.remove(i);
                self.slots.insert(i, ClericSlot {
                    number: 0,
                    player: String::new(),
                    target: None,
                    last_shout_ms: None,
                    last_actual_ms: None,
                    last_offset_ms: None,
                    skipped: false,
                });
                x.last_actual_ms = Some(actual);
                if let Some(e) = expected {
                    x.last_offset_ms = Some(offset_ms(e, actual));
                }
                let ghost placeholder = self.slots@;
                self.slots.remove(i);
                proof {
                    assert(self.slots@ =~= old(self).slots@.remove(i as int));
                }
                self.slots.insert(i, x);
                proof {
                    assert(self.slots@ =~= old(self).slots@.update(i as int, x));
                    let o = old(self).slots@;
                    assert(same_marks(o, self.slots@)) by {
                        assert forall|k: int| 0 <= k < o.len() implies {
                            &&& (#[trigger] o[k]).number == self.slots@[k].number
                            &&& o[k].skipped == self.slots@[k].skipped
                            &&& o[k].player == self.slots@[k].player
                            &&& o[k].last_shout_ms == self.slots@[k].last_shout_ms
                        } by {}
                    }
                    let r = self.slots@;
                    assert(ascending_seats(o));
                    assert(ascending_seats(r));
                    lemma_seat_at(r, i as int);
                    lemma_seat_at(o, i as int);
                    assert forall|n: u32| #[trigger] seat_of(r, n) == if n == number { Some(x) } else { seat_of(o, n) } by {
                        if n != number {
                            lemma_slot_from(o, n, 0);
                            match slot_from(o, n, 0) {
                                Some(j) => {
                                    lemma_seat_at(o, j);
                                    lemma_seat_at(r, j);
                                },
                                None => {
                                    assert forall|k: int| 0 <= k < r.len() implies #[trigger] r[k].number != n by {}
                                    lemma_no_seat(r, n);
                                },
                            }
                        }
                    }
                }
            },
            None => {
                proof {
                    lemma_slot_from(self.slots@, number, 0);
                    assert(same_marks(self.slots@, self.slots@));
                }
            },
        }
    }

    fn infer_interval_for(&self, key: &TankKey) -> (r: Option<u64>)
        ensures
            r == inferred_interval(shout_times(self.slots@, self.tanks@, key@)),
    {
        let mut times: Vec<u64> = Vec::new();
        let mut i: usize = 0;
        while i < self.slots.len()
            invariant
                i <= self.slots@.len(),
                times@ == shout_times(self.slots@.take(i as int), self.tanks@, key@),
            decreases self.slots@.len() - i,
        {
            let k = self.tank_key_for(self.slots[i].number);
            if same_key(&k, key) {
                if let Some(t) = self.slots[i].last_shout_ms {
                    times.push(t);
                }
            }
            proof {
                assert(self.slots@.take(i + 1).drop_last() =~= self.slots@.take(i as int));
            }
            i += 1;
        }
        proof {
            assert(self.slots@.take(i as int) =~= self.slots@);
        }
        let sorted = crate::report::sort_ascending(&times);
        let mut ts: Vec<u64> = Vec::new();
        let mut j: usize = 0;
        while j < sorted.len()
            invariant
                j <= sorted@.len(),
                ts@ == distinct(sorted@.take(j as int)),
            decreases sorted@.len() - j,
        {
            proof {
                assert(sorted@.take(j + 1).drop_last() =~= sorted@.take(j as int));
            }
            let x = sorted[j];
            if ts.len() == 0 || ts[ts.len() - 1] != x {
                ts.push(x);
            }
            j += 1;
        }
        proof {
            assert(sorted@.take(j as int) =~= sorted@);
        }
        if ts.len() < 2 {
            return None;
        }
        let mut gaps: Vec<u64> = Vec::new();
        let mut k: usize = 1;
        while k < ts.len()
            invariant
                1 <= k <= ts@.len(),
                ts@.len() >= 2,
                gaps@ == in_band(steps(ts@).take(k - 1)),
            decreases ts@.len() - k,
        {
            let g = ts[k].saturating_sub(ts[k - 1]);
            proof {
                assert(steps(ts@).take(k as int).drop_last() =~= steps(ts@).take(k - 1));
                assert(steps(ts@).take(k as int).last() == g);
            }
            if 500 <= g && g <= 12_000 {
                gaps.push(g);
            }
            k += 1;
        }
        proof {
            assert(steps(ts@).take(k - 1) =~= steps(ts@));
        }
        if gaps.len() == 0 {
            return None;
        }
        let sg = crate::report::sort_ascending(&gaps);
        let m = sg[sg.len() / 2];
        proof {
            let g = gaps@;
            lemma_in_band_bounds(steps(ts@));
            let leq = |x: u64, y: u64| x <= y;
            g.lemma_sort_by_ensures(leq);
            assert(sg@[(sg@.len() / 2) as int] == m);
            assert(sg@.contains(m));
            assert(g.contains(m));
            let q = choose|q: int| 0 <= q < g.len() && g[q] == m;
            assert(m <= 12_000);
        }
        let r = (m + 500) / 1000 * 1000;
        Some(if r < 1000 { 1000 } else { r })
    }
}

proof fn lemma_in_band_bounds(g: Seq<u64>)
    ensures
        forall|q: int| 0 <= q < in_band(g).len() ==> 500 <= #[trigger] in_band(g)[q] <= 12_000,
    decreases g.len(),
{
    if g.len() > 0 {
        lemma_in_band_bounds(g.drop_last());
        let r = in_band(g.drop_last());
        assert forall|q: int| 0 <= q < in_band(g).len() implies 500 <= #[trigger] in_band(g)[q] <= 12_000 by {
            if q < r.len() {
                assert(in_band(g)[q] == r[q]);
            }
        }
    }
}

pub open spec fn opt_key(k: Option<TankKey>) -> Option<Option<Seq<char>>> {
    match k {
        Some(x) => Some(x@),
        None => None,
    }
}

pub open spec fn keys_view(v: Seq<TankKey>) -> Seq<Option<Seq<char>>> {
    Seq::new(v.len(), |i: int| v[i]@)
}

/// The rotations a command with an optional tank name reaches: every
/// rotation when no tank is named, else the one the name means.
pub open spec fn keys_for(s: ChainState, name: Option<Seq<char>>) -> Result<Seq<Option<Seq<char>>>, Seq<char>> {
    match name {
        None => Ok(seq![None] + Seq::new(s.tanks@.len(), |i: int| Some(s.tanks@[i].name@))),
        Some(n) => match parsed_key(s, n) {
            Some(k) => Ok(seq![k]),
            None => Err("Unknown tank "@ + n + "."@),
        },
    }
}

/// Two keys that read and write the same clock.
pub open spec fn same_clock(s: ChainState, a: Option<Seq<char>>, b: Option<Seq<char>>) -> bool {
    (a is None && b is None) || (s.tank_of(a) is Some && s.tank_of(a) == s.tank_of(b))
}

/// Everything a clock holds is the same for `key` in both states.
pub open spec fn clock_kept(a: ChainState, b: ChainState, key: Option<Seq<char>>) -> bool {
    &&& a.running_of(key) == b.running_of(key)
    &&& a.started_of(key) == b.started_of(key)
    &&& a.current_of(key) == b.current_of(key)
    &&& a.armed_of(key) == b.armed_of(key)
    &&& a.sync_of(key) == b.sync_of(key)
    &&& a.interval_of(key) == b.interval_of(key)
}

/// A clock reset: not running, no start, no seat, no shout sync, and armed
/// or not as given.
pub open spec fn clock_reset(s: ChainState, key: Option<Seq<char>>, armed: bool) -> bool {
    &&& s.armed_of(key) == armed
    &&& !s.running_of(key)
    &&& s.started_of(key) is None
    &&& s.current_of(key) is None
    &&& !s.sync_of(key)
}

/// The first tank at `i` or later, other than `name`, whose range meets
/// `from..=to`.
pub open spec fn overlap_from(tanks: Seq<TankAssignment>, name: Seq<char>, from: u32, to: u32, i: int) -> Option<int>
    decreases tanks.len() - i,
{
    if i < 0 || i >= tanks.len() {
        None
    } else if !eq_ci(tanks[i].name@, name) && from <= tanks[i].to && to >= tanks[i].from {
        Some(i)
    } else {
        overlap_from(tanks, name, from, to, i + 1)
    }
}

/// The tanks left once every tank called `name`, in any case, is removed.
pub open spec fn without_tank(tanks: Seq<TankAssignment>, name: Seq<char>) -> Seq<TankAssignment>
    decreases tanks.len(),
{
    if tanks.len() == 0 {
        Seq::empty()
    } else {
        let r = without_tank(tanks.drop_last(), name);
        if eq_ci(tanks.last().name@, name) {
            r
        } else {
            r.push(tanks.last())
        }
    }
}

/// The first tank at `i` or later marked as the off tank.
pub open spec fn off_from(tanks: Seq<TankAssignment>, i: int) -> Option<int>
    decreases tanks.len() - i,
{
    if i < 0 || i >= tanks.len() {
        None
    } else if tanks[i].is_off {
        Some(i)
    } else {
        off_from(tanks, i + 1)
    }
}

/// A tank other than the off tank is set.
pub open spec fn other_tank_set(tanks: Seq<TankAssignment>, ot: Seq<char>) -> bool {
    exists|i: int| 0 <= i < tanks.len() && !(#[trigger] tanks[i]).is_off && !eq_ci(tanks[i].name@, ot)
}

pub open spec fn range_text(f: SlotFormat, from: u32, to: u32, other: TankAssignment) -> Seq<char> {
    "Range "@ + slot_text(f, from as nat) + "-"@ + slot_text(f, to as nat) + " overlaps "@ + other.name@ + " ("@
        + slot_text(f, other.from as nat) + "-"@ + slot_text(f, other.to as nat) + ")."@
}

/// What `!tank name from to` answers, `None` when the range is taken.
pub open spec fn range_refusal(s: ChainState, name: Seq<char>, from: u32, to: u32) -> Option<Seq<char>> {
    if from > to {
        Some("Tank range needs the lower number first."@)
    } else if s.tank matches Some(t) && eq_ci(t@, name) {
        Some(name + " is the main tank. Use !ot or a different name."@)
    } else {
        match overlap_from(s.tanks@, name, from, to, 0) {
            Some(i) => Some(range_text(s.slot_format, from, to, s.tanks@[i])),
            None => None,
        }
    }
}

fn chars_of_string(s: &String) -> (v: Vec<char>)
    ensures
        v@ == s@,
{
    chars_of(s.as_str())
}

fn is_word(s: &String, w: &str) -> (b: bool)
    ensures
        b == eq_ci(s@, w@),
{
    let v = chars_of_string(s);
    crate::text::eq_ignore_case_str(&v, w)
}

impl ChainState {
    fn plain_key(&self, name: &String) -> (k: Option<TankKey>)
        ensures
            opt_key(k) == plain_key(*self, name@),
    {
        if let Some(t) = &self.tank {
            if same_name(t, name) {
                return Some(TankKey::Main);
            }
        }
        if self.find_tank(name).is_some() {
            Some(TankKey::Named(name.clone()))
        } else {
            None
        }
    }

    fn parse_tank_key(&self, name: &String) -> (k: Option<TankKey>)
        ensures
            opt_key(k) == parsed_key(*self, name@),
    {
        if is_word(name, "mt") {
            return Some(TankKey::Main);
        }
        if is_word(name, "ot") {
            return match &self.off_tank {
                None => None,
                Some(ot) => if is_word(ot, "mt") {
                    Some(TankKey::Main)
                } else if is_word(ot, "ot") {
                    None
                } else {
                    self.plain_key(ot)
                },
            };
        }
        self.plain_key(name)
    }

    fn display_name(&self, key: &TankKey) -> (r: String)
        ensures
            r@ == display_of(*self, key@),
    {
        match key {
            TankKey::Main => match &self.tank {
                Some(t) => t.clone(),
                None => String::from_str("MT"),
            },
            TankKey::Named(n) => n.clone(),
        }
    }

    fn target_mismatch(&self, number: u32, target: &String, is_you: bool) -> (m: Option<String>)
        ensures
            crate::command::opt_view(m) == mismatch_text(*self, number, target@, is_you),
    {
        let tc = chars_of_string(target);
        if tc.len() == 0 {
            return None;
        }
        let key = self.tank_key_for(number);
        let expected: String = match &key {
            TankKey::Main => match &self.tank {
                Some(t) => t.clone(),
                None => return None,
            },
            TankKey::Named(n) => n.clone(),
        };
        if same_name(target, &expected) {
            return None;
        }
        match self.parse_tank_key(target) {
            Some(k) => if same_key(&k, &key) {
                return None;
            },
            None => {},
        }
        let tank = self.display_name(&key);
        let mut v: Vec<char> = Vec::new();
        if is_you {
            append_str(&mut v, "You");
        } else {
            match self.find_slot(number) {
                Some(i) => {
                    proof {
                        lemma_slot_from(self.slots@, number, 0);
                    }
                    let p = chars_of_string(&self.slots[i].player);
                    append_chars(&mut v, &p);
                },
                None => append_str(&mut v, "They"),
            }
        }
        append_str(&mut v, " CHed ");
        append_chars(&mut v, &tc);
        append_str(&mut v, " instead of ");
        let dc = chars_of_string(&tank);
        append_chars(&mut v, &dc);
        append_str(&mut v, ".");
        proof {
            let who = if is_you {
                "You"@
            } else {
                match self.seat(number) {
                    Some(x) => x.player@,
                    None => "They"@,
                }
            };
            assert(v@ =~= who + " CHed "@ + target@ + " instead of "@ + display_of(*self, key@) + "."@);
        }
        Some(string_of(&v))
    }

    fn resolve_tank_keys(&self, name: &Option<String>) -> (r: Result<Vec<TankKey>, String>)
        ensures
            match (r, keys_for(*self, crate::command::opt_view(*name))) {
                (Ok(v), Ok(k)) => keys_view(v@) == k,
                (Err(e), Err(t)) => e@ == t,
                _ => false,
            },
    {
        match name {
            None => {
                let mut keys: Vec<TankKey> = Vec::new();
                keys.push(TankKey::Main);
                let mut i: usize = 0;
                while i < self.tanks.len()
                    invariant
                        i <= self.tanks@.len(),
                        keys_view(keys@) =~= seq![None] + Seq::new(i as nat, |j: int| Some(self.tanks@[j].name@)),
                    decreases self.tanks@.len() - i,
                {
                    let ghost pre = keys@;
                    keys.push(TankKey::Named(self.tanks[i].name.clone()));
                    proof {
                        let f = |j: int| Some(self.tanks@[j].name@);
                        assert(keys_view(keys@) =~= keys_view(pre).push(Some(self.tanks@[i as int].name@)));
                        assert(seq![None] + Seq::new((i + 1) as nat, f) =~= (seq![None] + Seq::new(i as nat, f)).push(f(i as int)));
                    }
                    i += 1;
                }
                Ok(keys)
            },
            Some(n) => match self.parse_tank_key(n) {
                Some(k) => {
                    let mut keys: Vec<TankKey> = Vec::new();
                    keys.push(k);
                    proof {
                        assert(keys_view(keys@) =~= seq![k@]);
                    }
                    Ok(keys)
                },
                None => {
                    let mut v: Vec<char> = Vec::new();
                    append_str(&mut v, "Unknown tank ");
                    let nc = chars_of_string(n);
                    append_chars(&mut v, &nc);
                    append_str(&mut v, ".");
                    Err(string_of(&v))
                },
            },
        }
    }

    /// Resets one rotation's clock: stopped, no start, no seat, no shout
    /// sync, armed or not.
    fn reset_clock(&mut self, key: &TankKey, armed: bool)
        requires
            key_resolves(*old(self), key@),
        ensures
            seats_same(*old(self), *final(self)),
            clock_reset(*final(self), key@, armed),
            forall|k: Option<Seq<char>>| key_resolves(*old(self), k) && same_clock(*old(self), k, key@) ==> #[trigger] clock_reset(*final(self), k, armed),
            forall|k: Option<Seq<char>>| key_resolves(*old(self), k) && !same_clock(*old(self), k, key@) ==> #[trigger] clock_kept(*old(self), *final(self), k),
            forall|k: Option<Seq<char>>| #[trigger] final(self).interval_of(k) == old(self).interval_of(k),
            final(self).tank == old(self).tank,
            final(self).off_tank == old(self).off_tank,
            final(self).your_name == old(self).your_name,
            final(self).slot_format == old(self).slot_format,
            final(self).cast_time_ms == old(self).cast_time_ms,
            final(self).warning == old(self).warning,
            final(self).warning_at_ms == old(self).warning_at_ms,
            final(self).warning_urgent == old(self).warning_urgent,
            final(self).warning_kind == old(self).warning_kind,
            final(self).warning_speech == old(self).warning_speech,
            forall|i: int| 0 <= i < old(self).tanks@.len() ==> (#[trigger] final(self).tanks@[i]).is_off == old(self).tanks@[i].is_off,
    {
        let ghost s0 = *self;
        match self.tank_index(key) {
            Some(i) => {
                let mut t = self.tanks.remove(i);
                t.shout_sync = false;
                t.armed = armed;
                t.running = false;
                t.started_at_ms = None;
                t.current_number = None;
                self.tanks.insert(i, t);
                proof {
                    lemma_named_from(s0.tanks@, key@->0, 0);
                    assert(self.tanks@ =~= s0.tanks@.update(i as int, t));
                    assert(tanks_laid_same(s0.tanks@, self.tanks@)) by {
                        assert forall|k: int| 0 <= k < s0.tanks@.len() implies {
                            &&& #[trigger] s0.tanks@[k].name@ == self.tanks@[k].name@
                            &&& s0.tanks@[k].from == self.tanks@[k].from
                            &&& s0.tanks@[k].to == self.tanks@[k].to
                        } by {}
                    }
                    lemma_seats_same(s0, *self);
                    assert forall|k: Option<Seq<char>>| #[trigger] self.interval_of(k) == s0.interval_of(k) by {
                        assert(self.tank_of(k) == s0.tank_of(k));
                        if let Some(n) = k {
                            lemma_named_from(s0.tanks@, n, 0);
                        }
                    }
                    assert forall|k: Option<Seq<char>>| key_resolves(s0, k) && !same_clock(s0, k, key@) implies #[trigger] clock_kept(s0, *self, k) by {
                        assert(self.tank_of(k) == s0.tank_of(k));
                        if let Some(n) = k {
                            lemma_named_from(s0.tanks@, n, 0);
                        }
                    }
                    assert forall|k: Option<Seq<char>>| key_resolves(s0, k) && same_clock(s0, k, key@) implies #[trigger] clock_reset(*self, k, armed) by {
                        assert(self.tank_of(k) == s0.tank_of(k));
                    }
                }
            },
            None => {
                self.shout_sync = false;
                self.armed = armed;
                self.running = false;
                self.started_at_ms = None;
                self.current_number = None;
                proof {
                    assert(tanks_laid_same(s0.tanks@, self.tanks@));
                    lemma_seats_same(s0, *self);
                    assert forall|k: Option<Seq<char>>| #[trigger] self.interval_of(k) == s0.interval_of(k) by {
                        assert(self.tank_of(k) == s0.tank_of(k));
                    }
                    assert forall|k: Option<Seq<char>>| key_resolves(s0, k) && !same_clock(s0, k, key@) implies #[trigger] clock_kept(s0, *self, k) by {
                        assert(self.tank_of(k) == s0.tank_of(k));
                    }
                    assert forall|k: Option<Seq<char>>| key_resolves(s0, k) && same_clock(s0, k, key@) implies #[trigger] clock_reset(*self, k, armed) by {
                        assert(self.tank_of(k) == s0.tank_of(k));
                    }
                }
            },
        }
    }

    fn start_chains(&mut self, tank: &Option<String>, now: u64) -> (r: Option<String>)
        requires
            old(self).wf(),
        ensures
            final(self).wf(),
            start_done(*old(self), *final(self), crate::command::opt_view(*tank), now, crate::command::opt_view(r)),
    {
        let keys = match self.resolve_tank_keys(tank) {
            Ok(k) => k,
            Err(w) => return Some(w),
        };
        let ghost s0 = *self;
        let ghost ks = keys_view(keys@);
        proof {
            lemma_keys_resolve(s0, crate::command::opt_view(*tank));
        }
        let mut started: usize = 0;
        let mut i: usize = 0;
        while i < keys.len()
            invariant
                i <= keys@.len(),
                ks == keys_view(keys@),
                keys_for(s0, crate::command::opt_view(*tank)) == Ok::<Seq<Option<Seq<char>>>, Seq<char>>(ks),
                forall|j: int| 0 <= j < ks.len() ==> key_resolves(s0, #[trigger] ks[j]),
                seats_same(s0, *self),
                self.wf(),
                forall|j: int| 0 <= j < i && s0.rotation(ks[j]).len() > 0 ==> clock_reset(*self, #[trigger] ks[j], true),
                (started > 0) <==> exists|j: int| 0 <= j < i && (#[trigger] s0.rotation(ks[j])).len() > 0,
                started <= i,
                forall|k: Option<Seq<char>>|
                    key_resolves(s0, k) && (forall|j: int| 0 <= j < i && s0.rotation(ks[j]).len() > 0 ==> !same_clock(s0, k, #[trigger] ks[j]))
                    ==> #[trigger] clock_kept(s0, *self, k),
                run_state_only(s0, *self),
                same_warning(s0, *self),
            decreases keys@.len() - i,
        {
            let ghost before = *self;
            let ghost k = ks[i as int];
            proof {
                lemma_seats_same(s0, before);
                assert(keys@[i as int]@ == k);
            }
            let r = self.rotation_for(&keys[i]);
            proof {
                assert(r@ == s0.rotation(k));
            }
            if r.len() > 0 {
                proof {
                    assert(key_resolves(before, k));
                }
                self.reset_clock(&keys[i], true);
                proof {
                    lemma_seats_same(before, *self);
                    assert forall|j: int| 0 <= j <= i && s0.rotation(ks[j]).len() > 0 implies clock_reset(*self, #[trigger] ks[j], true) by {
                        if j < i {
                            assert(key_resolves(before, ks[j]));
                            if same_clock(before, ks[j], k) {
                            } else {
                                assert(clock_kept(before, *self, ks[j]));
                            }
                        }
                    }
                    assert forall|m: Option<Seq<char>>|
                        key_resolves(s0, m) && (forall|j: int| 0 <= j < i + 1 && s0.rotation(ks[j]).len() > 0 ==> !same_clock(s0, m, #[trigger] ks[j]))
                        implies #[trigger] clock_kept(s0, *self, m) by {
                        assert(!same_clock(s0, m, ks[i as int]));
                        assert(forall|j: int| 0 <= j < i && s0.rotation(ks[j]).len() > 0 ==> !same_clock(s0, m, #[trigger] ks[j]));
                        assert(clock_kept(s0, before, m));
                        assert(key_resolves(before, m));
                        assert(!same_clock(before, m, k));
                        assert(clock_kept(before, *self, m));
                    }
                    assert forall|m: Option<Seq<char>>| #[trigger] self.interval_of(m) == s0.interval_of(m) by {
                        assert(self.interval_of(m) == before.interval_of(m));
                    }
                    assert forall|t: int| 0 <= t < s0.tanks@.len() implies (#[trigger] self.tanks@[t]).is_off == s0.tanks@[t].is_off by {
                        assert(before.tanks@[t].is_off == s0.tanks@[t].is_off);
                    }
                    assert(run_state_only(s0, *self));
                }
                started += 1;
                proof {
                    assert(s0.rotation(ks[i as int]).len() > 0);
                }
            } else {
                proof {
                    assert(s0.rotation(ks[i as int]).len() == 0);
                    assert forall|j: int| 0 <= j < i + 1 && (#[trigger] s0.rotation(ks[j])).len() > 0 implies j < i by {}
                    assert forall|m: Option<Seq<char>>|
                        key_resolves(s0, m) && (forall|j: int| 0 <= j < i + 1 && s0.rotation(ks[j]).len() > 0 ==> !same_clock(s0, m, #[trigger] ks[j]))
                        implies #[trigger] clock_kept(s0, *self, m) by {
                        assert(forall|j: int| 0 <= j < i && s0.rotation(ks[j]).len() > 0 ==> !same_clock(s0, m, #[trigger] ks[j]));
                    }
                }
            }
            i += 1;
        }
        if started == 0 {
            Some(String::from_str("Cannot start an empty chain. Take or shout numbers first."))
        } else {
            let ghost armed_state = *self;
            self.warning = Some(String::from_str("Chain is starting."));
            self.warning_at_ms = Some(now);
            self.warning_urgent = false;
            self.warning_kind = WarningKind::Other;
            self.warning_speech = Some(String::from_str("Chain is starting"));
            proof {
                assert(tanks_laid_same(armed_state.tanks@, self.tanks@));
                lemma_seats_same(armed_state, *self);
                assert forall|j: int| 0 <= j < ks.len() && s0.rotation(ks[j]).len() > 0 implies clock_reset(*self, #[trigger] ks[j], true) by {
                    assert(clock_reset(armed_state, ks[j], true));
                    assert(self.tank_of(ks[j]) == armed_state.tank_of(ks[j]));
                }
                assert forall|m: Option<Seq<char>>|
                    key_resolves(s0, m) && (forall|j: int| 0 <= j < ks.len() && s0.rotation(ks[j]).len() > 0 ==> !same_clock(s0, m, #[trigger] ks[j]))
                    implies #[trigger] clock_kept(s0, *self, m) by {
                    assert(clock_kept(s0, armed_state, m));
                }
                assert forall|m: Option<Seq<char>>| #[trigger] self.interval_of(m) == s0.interval_of(m) by {
                    assert(self.interval_of(m) == armed_state.interval_of(m));
                }
                assert(run_state_only(s0, *self));
            }
            None
        }
    }
}

/// Only clocks and, maybe, the warning differ between `a` and `b`: every
/// pace, name, range and off-tank mark stays.
pub open spec fn run_state_only(a: ChainState, b: ChainState) -> bool {
    &&& forall|k: Option<Seq<char>>| #[trigger] b.interval_of(k) == a.interval_of(k)
    &&& b.tank == a.tank && b.off_tank == a.off_tank && b.your_name == a.your_name
    &&& b.slot_format == a.slot_format && b.cast_time_ms == a.cast_time_ms
    &&& forall|i: int| 0 <= i < a.tanks@.len() ==> (#[trigger] b.tanks@[i]).is_off == a.tanks@[i].is_off
}

/// The same warning in both.
pub open spec fn same_warning(a: ChainState, b: ChainState) -> bool {
    &&& b.warning == a.warning && b.warning_at_ms == a.warning_at_ms && b.warning_urgent == a.warning_urgent
    &&& b.warning_kind == a.warning_kind && b.warning_speech == a.warning_speech
}

/// `!startchain [tank]`: every rotation it names that has a seat is armed,
/// waiting for its first heal; with none to arm it says so.
pub open spec fn start_done(a: ChainState, b: ChainState, tank: Option<Seq<char>>, now: u64, r: Option<Seq<char>>) -> bool {
    &&& seats_same(a, b)
    &&& match keys_for(a, tank) {
        Err(t) => r == Some(t) && b == a,
        Ok(ks) => {
            &&& (forall|i: int| 0 <= i < ks.len() && a.rotation(ks[i]).len() > 0 ==> clock_reset(b, #[trigger] ks[i], true))
            &&& (forall|k: Option<Seq<char>>|
                key_resolves(a, k) && (forall|j: int| 0 <= j < ks.len() && a.rotation(ks[j]).len() > 0 ==> !same_clock(a, k, #[trigger] ks[j]))
                ==> #[trigger] clock_kept(a, b, k))
            &&& run_state_only(a, b)
            &&& (r is Some ==> same_warning(a, b))
            &&& (r is None <==> exists|i: int| 0 <= i < ks.len() && (#[trigger] a.rotation(ks[i])).len() > 0)
            &&& (r matches Some(w) ==> w == "Cannot start an empty chain. Take or shout numbers first."@)
            &&& (r is None ==> {
                &&& b.warning matches Some(w) && w@ == "Chain is starting."@
                &&& b.warning_at_ms == Some(now) && !b.warning_urgent && b.warning_kind == WarningKind::Other
                &&& crate::command::opt_view(b.warning_speech) == Some("Chain is starting"@)
            })
        },
    }
}

/// `!startchain` with no tank named: when the main rotation has a seat to
/// go, nothing refuses it and the main clock is left armed and stopped, with
/// no start and no turn, waiting for the first heal; when no rotation has a
/// seat to go, it is refused as an empty chain and the chain is left as it
/// was.
pub proof fn lemma_start_all(a: ChainState, b: ChainState, now: u64, r: Option<Seq<char>>)
    requires
        start_done(a, b, None, now, r),
    ensures
        a.rotation(None).len() > 0 ==> r is None && clock_reset(b, None, true),
        (forall|k: Option<Seq<char>>| #[trigger] a.rotation(k).len() == 0) ==> r == Some(
            "Cannot start an empty chain. Take or shout numbers first."@,
        ) && seats_same(a, b),
{
    let ks = keys_for(a, None)->Ok_0;
    assert(ks[0] == None::<Seq<char>>);
    if a.rotation(None).len() > 0 {
        assert(a.rotation(ks[0]).len() > 0);
    }
    if forall|k: Option<Seq<char>>| #[trigger] a.rotation(k).len() == 0 {
        assert forall|i: int| 0 <= i < ks.len() implies (#[trigger] a.rotation(ks[i])).len() == 0 by {}
    }
}

proof fn lemma_keys_resolve(s: ChainState, name: Option<Seq<char>>)
    ensures
        keys_for(s, name) matches Ok(ks) ==> forall|j: int| 0 <= j < ks.len() ==> key_resolves(s, #[trigger] ks[j]),
{
    match keys_for(s, name) {
        Ok(ks) => {
            assert forall|j: int| 0 <= j < ks.len() implies key_resolves(s, #[trigger] ks[j]) by {
                match name {
                    None => {
                        if j > 0 {
                            let t = s.tanks@[j - 1];
                            assert(ks[j] == Some(t.name@));
                            lemma_named_from(s.tanks@, t.name@, 0);
                            assert(eq_ci(t.name@, t.name@));
                        }
                    },
                    Some(n) => {
                        lemma_named_from(s.tanks@, n, 0);
                        if let Some(ot) = s.off_tank {
                            lemma_named_from(s.tanks@, ot@, 0);
                        }
                    },
                }
            }
        },
        Err(_) => {},
    }
}

/// `t` with a new name, range and off-tank mark, its clock kept.
pub open spec fn ranged(t: TankAssignment, name: String, from: u32, to: u32, is_off: bool) -> TankAssignment {
    TankAssignment { name: name, from: from, to: to, is_off: is_off, ..t }
}

/// A tank just given a range: no clock of its own yet.
pub open spec fn new_tank(name: String, from: u32, to: u32, is_off: bool) -> TankAssignment {
    TankAssignment {
        name: name,
        from: from,
        to: to,
        interval_ms: None,
        running: false,
        started_at_ms: None,
        current_number: None,
        is_off: is_off,
        shout_sync: false,
        armed: false,
    }
}

/// The banner when a seat command names no number and the speaker has none.
pub open spec fn not_in_chain_text(verb: Seq<char>, speaker: Seq<char>) -> Seq<char> {
    "Cannot "@ + verb + ": "@ + speaker + " is not in the chain."@
}

/// The seat a command means: the number given, or the speaker's own.
pub open spec fn seat_meant(s: ChainState, number: Option<u32>, speaker: Seq<char>) -> Option<u32> {
    match number {
        Some(n) => Some(n),
        None => held_by(s, speaker),
    }
}

proof fn lemma_tanks_laid_update(t: Seq<TankAssignment>, i: int, x: TankAssignment)
    requires
        0 <= i < t.len(),
        x.name@ == t[i].name@,
        x.from == t[i].from,
        x.to == t[i].to,
    ensures
        tanks_laid_same(t, t.update(i, x)),
{
    assert forall|k: int| 0 <= k < t.len() implies {
        &&& #[trigger] t[k].name@ == t.update(i, x)[k].name@
        &&& t[k].from == t.update(i, x)[k].from
        &&& t[k].to == t.update(i, x)[k].to
    } by {}
}

/// `!stopchain [tank]`: every rotation it names is stopped and disarmed;
/// the seats stay.
pub open spec fn stop_done(a: ChainState, b: ChainState, tank: Option<Seq<char>>, r: Option<Seq<char>>) -> bool {
    &&& seats_same(a, b)
    &&& match keys_for(a, tank) {
        Err(t) => r == Some(t) && b == a,
        Ok(ks) => {
            &&& r is None
            &&& forall|i: int| 0 <= i < ks.len() ==> clock_reset(b, #[trigger] ks[i], false)
            &&& (forall|k: Option<Seq<char>>|
                key_resolves(a, k) && (forall|j: int| 0 <= j < ks.len() ==> !same_clock(a, k, #[trigger] ks[j]))
                ==> #[trigger] clock_kept(a, b, k))
            &&& run_state_only(a, b)
            &&& same_warning(a, b)
        },
    }
}

/// A pace in seconds to one decimal, rounded half up: `2.5` for 2500 ms,
/// `5.0` for 5000.
pub open spec fn pace_text(ms: u64) -> Seq<char> {
    let t: nat = (ms / 100 + if ms % 100 >= 50 { 1nat } else { 0nat }) as nat;
    dec(t / 10) + seq!['.'] + dec(t % 10)
}

/// The banner for a pace that changed: the main chain's, or a named tank's.
pub open spec fn pace_banner(who: Option<Seq<char>>, ms: u64, was: u64) -> Seq<char> {
    let lead = match who {
        Some(n) => n,
        None => "The chain"@,
    };
    lead + " is now "@ + pace_text(ms) + "s, was "@ + pace_text(was) + "s."@
}

/// The warning after a pace is set: none new when the pace is the one it
/// was; else the quiet pace banner, not spoken.
pub open spec fn pace_warning(a: ChainState, b: ChainState, who: Option<Seq<char>>, ms: u64, was: u64, now: u64) -> bool {
    if ms == was {
        same_warning(a, b)
    } else {
        &&& b.warning matches Some(w) && w@ == pace_banner(who, ms, was)
        &&& b.warning_at_ms == Some(now)
        &&& !b.warning_urgent
        &&& b.warning_kind == WarningKind::PaceChange
        &&& b.warning_speech is None
    }
}

/// `b` is `a` with its warning, and maybe more, rewritten.
pub open spec fn rewarned(a: ChainState, b: ChainState) -> ChainState {
    ChainState {
        warning: b.warning,
        warning_at_ms: b.warning_at_ms,
        warning_urgent: b.warning_urgent,
        warning_kind: b.warning_kind,
        warning_speech: b.warning_speech,
        ..a
    }
}

/// `!chain <pace> [tank]`: the pace of the main rotation, or of the named
/// tank's own; a change of pace is announced.
pub open spec fn interval_done(a: ChainState, b: ChainState, ms: u64, tank: Option<Seq<char>>, now: u64, r: Option<Seq<char>>) -> bool {
    let main = {
        &&& r is None
        &&& pace_warning(a, b, None, ms, a.interval_ms, now)
        &&& b == rewarned(ChainState { interval_ms: ms, ..a }, b)
    };
    match tank {
        None => main,
        Some(n) => match parsed_key(a, n) {
            Some(None) => main,
            Some(Some(found)) => r is None && match named(a.tanks@, found) {
                Some(i) => {
                    &&& b.tanks@ == a.tanks@.update(i, TankAssignment { interval_ms: Some(ms), ..a.tanks@[i] })
                    &&& pace_warning(a, b, Some(a.tanks@[i].name@), ms, a.interval_of(Some(found)), now)
                    &&& b == rewarned(ChainState { tanks: b.tanks, ..a }, b)
                },
                None => b == a,
            },
            None => r == Some("Unknown tank "@ + n + "."@) && b == a,
        },
    }
}

fn pace_chars(ms: u64) -> (r: Vec<char>)
    ensures
        r@ == pace_text(ms),
{
    let t: u64 = ms / 100 + if ms % 100 >= 50 { 1 } else { 0 };
    let mut r = dec_of(t / 10);
    r.push('.');
    let ghost head = r@;
    proof {
        assert(head =~= dec((t / 10) as nat) + seq!['.']);
    }
    let d = dec_of(t % 10);
    append_chars(&mut r, &d);
    r
}

/// `!ot <tank>`: the off tank is named; the tank marked off takes the
/// name, else a tank of that name is marked off.
pub open spec fn off_tank_done(a: ChainState, b: ChainState, tank: Seq<char>, r: Option<Seq<char>>) -> bool {
    if a.tank matches Some(t) && eq_ci(t@, tank) {
        r == Some(tank + " is already the main tank."@) && b == a
    } else {
        &&& r is None
        &&& b.off_tank matches Some(o) && o@ == tank
        &&& b.tanks@.len() == a.tanks@.len()
        &&& match off_from(a.tanks@, 0) {
            Some(i) => b.tanks@[i].name@ == tank
                && b.tanks@ == a.tanks@.update(i, TankAssignment { name: b.tanks@[i].name, ..a.tanks@[i] }),
            None => match named(a.tanks@, tank) {
                Some(i) => b.tanks@ == a.tanks@.update(i, TankAssignment { is_off: true, ..a.tanks@[i] }),
                None => b.tanks@ == a.tanks@,
            },
        }
        &&& b == (ChainState { off_tank: b.off_tank, tanks: b.tanks, ..a })
    }
}

/// `!tank <name> <from> <to>`: the named tank owns the range, unless it is
/// backwards, names the main tank, or meets another tank's range.
pub open spec fn range_done(a: ChainState, b: ChainState, name: Seq<char>, from: u32, to: u32, r: Option<Seq<char>>) -> bool {
    &&& r == range_refusal(a, name, from, to)
    &&& (r is Some ==> b == a)
    &&& (r is None ==> {
        let is_off = a.off_tank matches Some(o) && eq_ci(o@, name);
        &&& match named(a.tanks@, name) {
            Some(i) => {
                &&& b.tanks@.len() == a.tanks@.len()
                &&& b.tanks@[i].name@ == name
                &&& b.tanks@ == a.tanks@.update(i, ranged(a.tanks@[i], b.tanks@[i].name, from, to, a.tanks@[i].is_off || is_off))
            },
            None => {
                &&& b.tanks@.len() == a.tanks@.len() + 1
                &&& b.tanks@.last().name@ == name
                &&& b.tanks@ == a.tanks@.push(new_tank(b.tanks@.last().name, from, to, is_off))
            },
        }
        &&& b == (ChainState { tanks: b.tanks, ..a })
    })
}

/// `!untank <tank>`: every tank of that name is removed, its numbers fall
/// back to the main tank, and it is no longer the off tank.
pub open spec fn untank_done(a: ChainState, b: ChainState, name: Seq<char>, r: Option<Seq<char>>) -> bool {
    &&& b.tanks@ == without_tank(a.tanks@, name)
    &&& (without_tank(a.tanks@, name).len() == a.tanks@.len() ==> {
        &&& r == Some("No tank named "@ + name + "."@)
        &&& b == (ChainState { tanks: b.tanks, ..a })
    })
    &&& (without_tank(a.tanks@, name).len() != a.tanks@.len() ==> {
        &&& r is None
        &&& b.off_tank == if a.off_tank matches Some(o) && eq_ci(o@, name) { None } else { a.off_tank }
        &&& b == (ChainState { tanks: b.tanks, off_tank: b.off_tank, ..a })
    })
}

impl ChainState {
    #[verifier::spinoff_prover]
    #[verifier::rlimit(40)]
    fn stop_chains(&mut self, tank: &Option<String>) -> (r: Option<String>)
        requires
            old(self).wf(),
        ensures
            final(self).wf(),
            stop_done(*old(self), *final(self), crate::command::opt_view(*tank), crate::command::opt_view(r)),
    {
        let keys = match self.resolve_tank_keys(tank) {
            Ok(k) => k,
            Err(w) => return Some(w),
        };
        let ghost s0 = *self;
        let ghost ks = keys_view(keys@);
        proof {
            lemma_keys_resolve(s0, crate::command::opt_view(*tank));
        }
        let mut i: usize = 0;
        while i < keys.len()
            invariant
                i <= keys@.len(),
                ks == keys_view(keys@),
                forall|j: int| 0 <= j < ks.len() ==> key_resolves(s0, #[trigger] ks[j]),
                seats_same(s0, *self),
                self.wf(),
                forall|j: int| 0 <= j < i ==> clock_reset(*self, #[trigger] ks[j], false),
                forall|k: Option<Seq<char>>|
                    key_resolves(s0, k) && (forall|j: int| 0 <= j < i ==> !same_clock(s0, k, #[trigger] ks[j]))
                    ==> #[trigger] clock_kept(s0, *self, k),
                run_state_only(s0, *self),
                same_warning(s0, *self),
            decreases keys@.len() - i,
        {
            let ghost before = *self;
            let ghost k = ks[i as int];
            proof {
                lemma_seats_same(s0, before);
                assert(keys@[i as int]@ == k);
                assert(key_resolves(before, k));
            }
            self.reset_clock(&keys[i], false);
            proof {
                lemma_seats_same(before, *self);
                assert forall|j: int| 0 <= j <= i implies clock_reset(*self, #[trigger] ks[j], false) by {
                    if j < i {
                        assert(key_resolves(before, ks[j]));
                        if !same_clock(before, ks[j], k) {
                            assert(clock_kept(before, *self, ks[j]));
                        }
                    }
                }
                assert forall|m: Option<Seq<char>>|
                    key_resolves(s0, m) && (forall|j: int| 0 <= j < i + 1 ==> !same_clock(s0, m, #[trigger] ks[j]))
                    implies #[trigger] clock_kept(s0, *self, m) by {
                    assert(!same_clock(s0, m, ks[i as int]));
                    assert(forall|j: int| 0 <= j < i ==> !same_clock(s0, m, #[trigger] ks[j]));
                    assert(clock_kept(s0, before, m));
                    assert(key_resolves(before, m));
                    assert(!same_clock(before, m, k));
                    assert(clock_kept(before, *self, m));
                }
                assert forall|m: Option<Seq<char>>| #[trigger] self.interval_of(m) == s0.interval_of(m) by {
                    assert(self.interval_of(m) == before.interval_of(m));
                }
                assert forall|t: int| 0 <= t < s0.tanks@.len() implies (#[trigger] self.tanks@[t]).is_off == s0.tanks@[t].is_off by {
                    assert(before.tanks@[t].is_off == s0.tanks@[t].is_off);
                }
                assert(run_state_only(s0, *self));
                assert(tanks_laid_same(s0.tanks@, self.tanks@)) by {
                    assert forall|t: int| 0 <= t < s0.tanks@.len() implies {
                        &&& #[trigger] s0.tanks@[t].name@ == self.tanks@[t].name@
                        &&& s0.tanks@[t].from == self.tanks@[t].from
                        &&& s0.tanks@[t].to == self.tanks@[t].to
                    } by {
                        assert(before.tanks@[t].name@ == s0.tanks@[t].name@);
                    }
                }
                assert(seats_same(s0, *self));
            }
            i += 1;
        }
        None
    }

    /// Shows the pace banner when the pace changed.
    fn announce_pace(&mut self, who: &Option<String>, ms: u64, was: u64, now: u64)
        ensures
            *final(self) == rewarned(*old(self), *final(self)),
            pace_warning(*old(self), *final(self), crate::command::opt_view(*who), ms, was, now),
    {
        if ms == was {
            return;
        }
        let mut v: Vec<char> = Vec::new();
        match who {
            Some(n) => append_chars(&mut v, &chars_of_string(n)),
            None => append_str(&mut v, "The chain"),
        }
        append_str(&mut v, " is now ");
        append_chars(&mut v, &pace_chars(ms));
        append_str(&mut v, "s, was ");
        append_chars(&mut v, &pace_chars(was));
        append_str(&mut v, "s.");
        self.warning = Some(string_of(&v));
        self.warning_at_ms = Some(now);
        self.warning_urgent = false;
        self.warning_kind = WarningKind::PaceChange;
        self.warning_speech = None;
    }

    fn set_main_pace(&mut self, ms: u64, now: u64)
        ensures
            pace_warning(*old(self), *final(self), None, ms, old(self).interval_ms, now),
            *final(self) == rewarned(ChainState { interval_ms: ms, ..*old(self) }, *final(self)),
    {
        let was = self.interval_ms;
        self.interval_ms = ms;
        self.announce_pace(&None, ms, was, now);
    }

    fn set_interval(&mut self, ms: u64, tank: &Option<String>, now: u64) -> (r: Option<String>)
        ensures
            interval_done(*old(self), *final(self), ms, crate::command::opt_view(*tank), now, crate::command::opt_view(r)),
    {
        let name = match tank {
            None => {
                self.set_main_pace(ms, now);
                return None;
            },
            Some(n) => n,
        };
        match self.parse_tank_key(name) {
            Some(TankKey::Main) => {
                self.set_main_pace(ms, now);
                None
            },
            Some(TankKey::Named(found)) => {
                if let Some(i) = self.find_tank(&found) {
                    let was = match self.tanks[i].interval_ms {
                        Some(m) => m,
                        None => self.interval_ms,
                    };
                    let who = Some(self.tanks[i].name.clone());
                    let mut t = self.tanks.remove(i);
                    t.interval_ms = Some(ms);
                    self.tanks.insert(i, t);
                    proof {
                        assert(self.tanks@ =~= old(self).tanks@.update(i as int, TankAssignment { interval_ms: Some(ms), ..old(self).tanks@[i as int] }));
                    }
                    self.announce_pace(&who, ms, was, now);
                }
                None
            },
            None => {
                let mut v: Vec<char> = Vec::new();
                append_str(&mut v, "Unknown tank ");
                let nc = chars_of_string(name);
                append_chars(&mut v, &nc);
                append_str(&mut v, ".");
                Some(string_of(&v))
            },
        }
    }

    fn set_off_tank(&mut self, tank: String) -> (r: Option<String>)
        ensures
            off_tank_done(*old(self), *final(self), tank@, crate::command::opt_view(r)),
    {
        if let Some(mt) = &self.tank {
            if same_name(mt, &tank) {
                let mut v = chars_of_string(&tank);
                append_str(&mut v, " is already the main tank.");
                return Some(string_of(&v));
            }
        }
        let off = self.first_off();
        match off {
            Some(i) => {
                let mut t = self.tanks.remove(i);
                t.name = tank.clone();
                self.tanks.insert(i, t);
                proof {
                    assert(self.tanks@ =~= old(self).tanks@.update(i as int, TankAssignment { name: self.tanks@[i as int].name, ..old(self).tanks@[i as int] }));
                }
            },
            None => {
                if let Some(i) = self.find_tank(&tank) {
                    let mut t = self.tanks.remove(i);
                    t.is_off = true;
                    self.tanks.insert(i, t);
                    proof {
                        assert(self.tanks@ =~= old(self).tanks@.update(i as int, TankAssignment { is_off: true, ..old(self).tanks@[i as int] }));
                    }
                }
            },
        }
        self.off_tank = Some(tank);
        None
    }

    fn first_off(&self) -> (r: Option<usize>)
        ensures
            match r {
                Some(i) => off_from(self.tanks@, 0) == Some(i as int) && i < self.tanks@.len(),
                None => off_from(self.tanks@, 0) is None,
            },
    {
        let mut i: usize = 0;
        while i < self.tanks.len()
            invariant
                i <= self.tanks@.len(),
                off_from(self.tanks@, 0) == off_from(self.tanks@, i as int),
            decreases self.tanks@.len() - i,
        {
            if self.tanks[i].is_off {
                return Some(i);
            }
            i += 1;
        }
        None
    }

    fn range_message(&self, from: u32, to: u32, i: usize) -> (m: String)
        requires
            i < self.tanks@.len(),
        ensures
            m@ == range_text(self.slot_format, from, to, self.tanks@[i as int]),
    {
        let mut v: Vec<char> = Vec::new();
        append_str(&mut v, "Range ");
        let a = fmt_slot(self.slot_format, from);
        append_chars(&mut v, &chars_of_string(&a));
        append_str(&mut v, "-");
        let b = fmt_slot(self.slot_format, to);
        append_chars(&mut v, &chars_of_string(&b));
        append_str(&mut v, " overlaps ");
        append_chars(&mut v, &chars_of_string(&self.tanks[i].name));
        append_str(&mut v, " (");
        let c = fmt_slot(self.slot_format, self.tanks[i].from);
        append_chars(&mut v, &chars_of_string(&c));
        append_str(&mut v, "-");
        let d = fmt_slot(self.slot_format, self.tanks[i].to);
        append_chars(&mut v, &chars_of_string(&d));
        append_str(&mut v, ").");
        proof {
            assert(v@ =~= range_text(self.slot_format, from, to, self.tanks@[i as int]));
        }
        string_of(&v)
    }

    #[verifier::spinoff_prover]
    #[verifier::rlimit(60)]
    fn assign_range(&mut self, name: String, from: u32, to: u32) -> (r: Option<String>)
        ensures
            range_done(*old(self), *final(self), name@, from, to, crate::command::opt_view(r)),
    {
        if from > to {
            return Some(String::from_str("Tank range needs the lower number first."));
        }
        if let Some(mt) = &self.tank {
            if same_name(mt, &name) {
                let mut v = chars_of_string(&name);
                append_str(&mut v, " is the main tank. Use !ot or a different name.");
                return Some(string_of(&v));
            }
        }
        let mut i: usize = 0;
        while i < self.tanks.len()
            invariant
                i <= self.tanks@.len(),
                from <= to,
                *self == *old(self),
                !(self.tank matches Some(t) && eq_ci(t@, name@)),
                overlap_from(self.tanks@, name@, from, to, 0) == overlap_from(self.tanks@, name@, from, to, i as int),
            decreases self.tanks@.len() - i,
        {
            if !same_name(&self.tanks[i].name, &name) && from <= self.tanks[i].to && to >= self.tanks[i].from {
                proof {
                    assert(overlap_from(self.tanks@, name@, from, to, i as int) == Some(i as int));
                }
                let m = self.range_message(from, to, i);
                proof {
                    assert(*old(self) == *self);
                    assert(overlap_from(old(self).tanks@, name@, from, to, 0) == Some(i as int));
                    assert(!(old(self).tank matches Some(t) && eq_ci(t@, name@)));
                    assert(range_refusal(*old(self), name@, from, to) == Some(m@));
                }
                return Some(m);
            }
            i += 1;
        }
        let is_off = match &self.off_tank {
            Some(ot) => same_name(ot, &name),
            None => false,
        };
        match self.find_tank(&name) {
            Some(k) => {
                let mut t = self.tanks.remove(k);
                let ghost t0 = t;
                t.name = name;
                t.from = from;
                t.to = to;
                t.is_off = t.is_off || is_off;
                self.tanks.insert(k, t);
                proof {
                    assert(self.tanks@ =~= old(self).tanks@.update(k as int, ranged(t0, self.tanks@[k as int].name, from, to, t0.is_off || is_off)));
                }
            },
            None => {
                self.tanks.push(TankAssignment {
                    name,
                    from,
                    to,
                    interval_ms: None,
                    running: false,
                    started_at_ms: None,
                    current_number: None,
                    is_off,
                    shout_sync: false,
                    armed: false,
                });
            },
        }
        None
    }

    fn remove_tank(&mut self, name: &String) -> (r: Option<String>)
        ensures
            untank_done(*old(self), *final(self), name@, crate::command::opt_view(r)),
    {
        let before = self.tanks.len();
        let ghost orig = self.tanks@;
        let mut rest: Vec<TankAssignment> = Vec::new();
        std::mem::swap(&mut rest, &mut self.tanks);
        let mut j: usize = 0;
        while rest.len() > 0
            invariant
                before == orig.len(),
                j <= orig.len(),
                rest@ == orig.skip(j as int),
                self.tanks@ == without_tank(orig.take(j as int), name@),
                *self == (ChainState { tanks: self.tanks, ..*old(self) }),
            decreases rest@.len(),
        {
            let t = rest.remove(0);
            proof {
                assert(orig.take(j + 1).drop_last() =~= orig.take(j as int));
                assert(orig.take(j + 1).last() == t);
                assert(rest@ =~= orig.skip(j + 1));
            }
            if !same_name(&t.name, name) {
                self.tanks.push(t);
            }
            j += 1;
        }
        proof {
            assert(orig.take(j as int) =~= orig);
        }
        if self.tanks.len() == before {
            let mut v: Vec<char> = Vec::new();
            append_str(&mut v, "No tank named ");
            append_chars(&mut v, &chars_of_string(name));
            append_str(&mut v, ".");
            return Some(string_of(&v));
        }
        let clear = match &self.off_tank {
            Some(ot) => same_name(ot, name),
            None => false,
        };
        if clear {
            self.off_tank = None;
        }
        None
    }

    fn resolve_slot_number(&self, number: Option<u32>, speaker: &String, verb: &str) -> (r: Result<u32, String>)
        ensures
            match seat_meant(*self, number, speaker@) {
                Some(n) => r == Ok::<u32, String>(n),
                None => r matches Err(w) && w@ == not_in_chain_text(verb@, speaker@),
            },
    {
        match number {
            Some(n) => Ok(n),
            None => match self.slot_number_for_player(speaker) {
                Some(n) => Ok(n),
                None => {
                    let mut v: Vec<char> = Vec::new();
                    append_str(&mut v, "Cannot ");
                    append_str(&mut v, verb);
                    append_str(&mut v, ": ");
                    append_chars(&mut v, &chars_of_string(speaker));
                    append_str(&mut v, " is not in the chain.");
                    Err(string_of(&v))
                },
            },
        }
    }

    /// Marks seat `number` skipped or back in; a missing seat is left alone.
    fn set_skip(&mut self, number: u32, skipped: bool)
        requires
            old(self).wf(),
        ensures
            final(self).wf(),
            forall|n: u32| #[trigger] final(self).seat(n) == if n == number {
                match old(self).seat(n) {
                    Some(x) => Some(ClericSlot { skipped: skipped, ..x }),
                    None => None,
                }
            } else {
                old(self).seat(n)
            },
            *final(self) == (ChainState { slots: final(self).slots, ..*old(self) }),
            final(self).slots@.len() == old(self).slots@.len(),
            forall|i: int| 0 <= i < old(self).slots@.len() ==> (#[trigger] final(self).slots@[i]).number == old(self).slots@[i].number
                && final(self).slots@[i].player == old(self).slots@[i].player,
    {
        match self.find_slot(number) {
            Some(i) => {
                proof {
                    lemma_slot_from(self.slots@, number, 0);
                    lemma_seat_at(self.slots@, i as int);
                }
                let mut x = self.slots.remove(i);
                let ghost mid = self.slots@;
                self.slots.insert(i, ClericSlot {
                    number: x.number,
                    player: String::new(),
                    target: None,
                    last_shout_ms: None,
                    last_actual_ms: None,
                    last_offset_ms: None,
                    skipped: false,
                });
                self.slots.remove(i);
                proof {
                    assert(self.slots@ =~= mid);
                }
                x.skipped = skipped;
                self.slots.insert(i, x);
                proof {
                    let o = old(self).slots@;
                    let r = self.slots@;
                    assert(r =~= o.update(i as int, x));
                    assert(ascending_seats(o));
                    assert(ascending_seats(r));
                    lemma_seat_at(r, i as int);
                    assert forall|n: u32| #[trigger] seat_of(r, n) == if n == number { Some(x) } else { seat_of(o, n) } by {
                        if n != number {
                            lemma_slot_from(o, n, 0);
                            match slot_from(o, n, 0) {
                                Some(j) => {
                                    lemma_seat_at(o, j);
                                    lemma_seat_at(r, j);
                                },
                                None => {
                                    assert forall|k: int| 0 <= k < r.len() implies #[trigger] r[k].number != n by {}
                                    lemma_no_seat(r, n);
                                },
                            }
                        }
                    }
                }
            },
            None => {
                proof {
                    lemma_slot_from(self.slots@, number, 0);
                }
            },
        }
    }
}

/// Room for a clock anchored on seat `n` at `now`: the seat is on the
/// rotation, the interval is set, and `now` is past the seat's place times
/// the interval.
pub open spec fn anchor_fits(s: ChainState, key: Option<Seq<char>>, n: u32, now: u64) -> bool {
    let r = s.rotation(key);
    &&& r.contains(n)
    &&& s.interval_of(key) > 0
    &&& pos_from(r, n, 0) is Some
    &&& pos_from(r, n, 0)->0 * s.interval_of(key) <= now
}

/// `key`'s clock is as it was in `a`: running or not, its start, its pace,
/// whether it follows the shouts and whether it is armed.
pub open spec fn pace_kept(a: ChainState, b: ChainState, key: Option<Seq<char>>) -> bool {
    &&& b.running_of(key) == a.running_of(key)
    &&& b.started_of(key) == a.started_of(key)
    &&& b.interval_of(key) == a.interval_of(key)
    &&& b.sync_of(key) == a.sync_of(key)
    &&& b.armed_of(key) == a.armed_of(key)
}

/// Only clocks changed between `a` and `b`.
pub open spec fn only_clocks(a: ChainState, b: ChainState) -> bool {
    &&& tanks_laid_same(a.tanks@, b.tanks@)
    &&& b == (ChainState {
        running: b.running,
        started_at_ms: b.started_at_ms,
        current_number: b.current_number,
        armed: b.armed,
        shout_sync: b.shout_sync,
        interval_ms: b.interval_ms,
        tanks: b.tanks,
        ..a
    })
}

proof fn lemma_only_clocks_seats(a: ChainState, b: ChainState)
    requires
        only_clocks(a, b),
    ensures
        seats_same(a, b),
        forall|k: Option<Seq<char>>| #[trigger] b.rotation(k) == a.rotation(k),
        forall|k: Option<Seq<char>>| #[trigger] b.tank_of(k) == a.tank_of(k),
        forall|n: u32| #[trigger] b.key_for(n) == a.key_for(n),
        forall|n: u32| #[trigger] b.seat(n) == a.seat(n),
{
    lemma_seats_same(a, b);
}

#[verifier::spinoff_prover]
proof fn lemma_only_clocks_trans(a: ChainState, b: ChainState, c: ChainState)
    requires
        only_clocks(a, b),
        only_clocks(b, c),
    ensures
        only_clocks(a, c),
{
    assert(c.tank == a.tank && c.off_tank == a.off_tank && c.cast_time_ms == a.cast_time_ms);
    assert(c.your_name == a.your_name && c.slots == a.slots && c.warning == a.warning);
    assert(c.warning_at_ms == a.warning_at_ms && c.warning_urgent == a.warning_urgent);
    assert(c.warning_kind == a.warning_kind && c.warning_speech == a.warning_speech && c.slot_format == a.slot_format);
    assert(a.tanks@.len() == c.tanks@.len());
    assert forall|i: int| 0 <= i < a.tanks@.len() implies {
        &&& #[trigger] a.tanks@[i].name@ == c.tanks@[i].name@
        &&& a.tanks@[i].from == c.tanks@[i].from
        &&& a.tanks@[i].to == c.tanks@[i].to
    } by {
        assert(a.tanks@[i].name@ == b.tanks@[i].name@);
        assert(b.tanks@[i].name@ == c.tanks@[i].name@);
    }
    assert(tanks_laid_same(a.tanks@, c.tanks@));
    assert(c == (ChainState {
        running: c.running,
        started_at_ms: c.started_at_ms,
        current_number: c.current_number,
        armed: c.armed,
        shout_sync: c.shout_sync,
        interval_ms: c.interval_ms,
        tanks: c.tanks,
        ..a
    }));
}

proof fn lemma_tank_update_clocks(a: ChainState, b: ChainState, i: int, t: TankAssignment)
    requires
        0 <= i < a.tanks@.len(),
        b.tanks@ == a.tanks@.update(i, t),
        t.name@ == a.tanks@[i].name@,
        t.from == a.tanks@[i].from,
        t.to == a.tanks@[i].to,
        b == (ChainState { tanks: b.tanks, ..a }),
    ensures
        only_clocks(a, b),
{
    lemma_tanks_laid_update(a.tanks@, i, t);
}

/// A clock that was running and not armed, after a heal at `number`: with
/// one seat or none it re-anchors on the healer; a shout-synced chain takes
/// the pace heard and re-anchors on the healer; a new seat on an unsynced
/// chain keeps the seat whose turn it was, at its phase; else it is left.
#[verifier::opaque]
spec fn running_settled(old: ChainState, new: ChainState, key: Option<Seq<char>>, number: u32, now: u64, was_new: bool, prev: Option<u32>) -> bool {
    if old.rotation(key).len() <= 1 {
        reanchored(old, new, key, number, now, 0)
    } else if old.sync_of(key) {
        &&& new.interval_of(key) == match inferred_interval(shout_times(old.slots@, old.tanks@, key)) {
            Some(ms) => ms,
            None => old.interval_of(key),
        }
        &&& new.running_of(key)
        &&& new.sync_of(key)
        &&& (anchor_fits(new, key, number, now) ==> (new.beat_at(key, now) matches Some(b) && b.current == number))
    } else if was_new {
        match keep_for(old, key, prev) {
            None => new == old,
            Some(k) => reanchored(old, new, key, k, now, old.phase_at(key, now)),
        }
    } else {
        new == old
    }
}

impl ChainState {
    /// After a heal has taken its seat: arm a waiting clock from it, keep a
    /// running clock in step, or start a local clock from the shouts heard.
    #[verifier::spinoff_prover]
    #[verifier::rlimit(60)]
    fn settle_clock(&mut self, key: &TankKey, number: u32, now: u64, was_running: bool, was_new: bool, prev: Option<u32>)
        requires
            was_running == old(self).running_of(key@),
        ensures
            only_clocks(*old(self), *final(self)),
            one_clock(*old(self), *final(self), key@),
            key_resolves(*old(self), key@) && old(self).armed_of(key@) ==> !final(self).armed_of(key@)
                && final(self).interval_of(key@) == old(self).interval_of(key@),
            key_resolves(*old(self), key@) && old(self).armed_of(key@) && anchor_fits(*old(self), key@, number, now)
                ==> on_beat(*final(self), key@, number, now, 0),
            key_resolves(*old(self), key@) && !old(self).armed_of(key@) && !was_running ==> match inferred_interval(shout_times(old(self).slots@, old(self).tanks@, key@)) {
                None => final(self).current_of(key@) == Some(number) && pace_kept(*old(self), *final(self), key@),
                Some(ms) => final(self).interval_of(key@) == ms && final(self).sync_of(key@)
                    && (old(self).rotation(key@).len() > 0 ==> final(self).running_of(key@))
                    && (anchor_fits(*final(self), key@, number, now) ==> on_beat(*final(self), key@, number, now, 0)),
            },
            key_resolves(*old(self), key@) && !old(self).armed_of(key@) && was_running
                ==> running_settled(*old(self), *final(self), key@, number, now, was_new, prev),
    {
        proof {
            reveal(running_settled);
        }
        let ghost s0 = *self;
        if self.clock_armed(key) {
            self.set_armed(key, false);
            let ghost s1 = *self;
            proof {
                match s0.tank_of(key@) {
                    Some(i) => {
                        lemma_named_from(s0.tanks@, key@->0, 0);
                        lemma_tank_update_clocks(s0, s1, i, TankAssignment { armed: false, ..s0.tanks@[i] });
                    },
                    None => {
                        assert(tanks_laid_same(s0.tanks@, s1.tanks@));
                    },
                }
                lemma_only_clocks_seats(s0, s1);
                assert(s1.interval_of(key@) == s0.interval_of(key@));
            }
            self.reanchor(key, number, now, 0);
            proof {
                let s2 = *self;
                if s0.rotation(key@).len() > 0 {
                    let r = s1.rotation(key@);
                    let idx: u64 = match pos_from(r, number, 0) { Some(k) => k as u64, None => 0 };
                    lemma_clock_written_seats(s1, s2, key@, true, Some(anchor_start(now, 0, idx, beat_len(s1.interval_of(key@)))), Some(number));
                    if s0.tank_of(key@) is Some {
                        lemma_named_from(s0.tanks@, key@->0, 0);
                        let i = s0.tank_of(key@)->0;
                        lemma_tank_update_clocks(s1, s2, i, TankAssignment {
                            running: true,
                            started_at_ms: Some(anchor_start(now, 0, idx, beat_len(s1.interval_of(key@)))),
                            current_number: Some(number),
                            ..s1.tanks@[i]
                        });
                    } else {
                        assert(tanks_laid_same(s1.tanks@, s2.tanks@));
                    }
                    if key_resolves(s0, key@) && anchor_fits(s0, key@, number, now) {
                        lemma_anchor_puts_seat_on_beat(s1, s2, key@, number, now, 0);
                    }
                    if key_resolves(s0, key@) {
                        lemma_clock_written_seats(s1, s2, key@, true, Some(anchor_start(now, 0, idx, beat_len(s1.interval_of(key@)))), Some(number));
                    }
                } else {
                    assert(tanks_laid_same(s1.tanks@, s2.tanks@));
                }
                lemma_only_clocks_trans(s0, s1, s2);
                lemma_one_clock_trans(s0, s1, s2, key@);
            }
            return;
        }
        let r = self.rotation_for(key);
        if was_running && r.len() <= 1 {
            self.reanchor(key, number, now, 0);
            proof {
                self.lemma_reanchored_only_clocks(s0, key@, number, now, 0);
            }
        } else if was_running && self.clock_sync(key) {
            if let Some(ms) = self.infer_interval_for(key) {
                self.apply_inferred_interval(key, ms);
                proof {
                    let s1 = *self;
                    match s0.tank_of(key@) {
                        Some(i) => {
                            lemma_named_from(s0.tanks@, key@->0, 0);
                            lemma_tank_update_clocks(s0, s1, i, TankAssignment { interval_ms: Some(ms), ..s0.tanks@[i] });
                        },
                        None => {
                            assert(tanks_laid_same(s0.tanks@, s1.tanks@));
                        },
                    }
                }
            }
            let ghost s1 = *self;
            proof {
                lemma_only_clocks_seats(s0, s1);
                assert(one_clock(s0, s1, key@));
            }
            self.reanchor(key, number, now, 0);
            proof {
                let s2 = *self;
                self.lemma_reanchored_only_clocks(s1, key@, number, now, 0);
                lemma_only_clocks_trans(s0, s1, s2);
                lemma_one_clock_trans(s0, s1, s2, key@);
                lemma_only_clocks_seats(s1, s2);
                if key_resolves(s0, key@) && !s0.armed_of(key@) {
                    let r1 = s1.rotation(key@);
                    let idx: u64 = match pos_from(r1, number, 0) { Some(k) => k as u64, None => 0 };
                    lemma_clock_written_seats(s1, s2, key@, true, Some(anchor_start(now, 0, idx, beat_len(s1.interval_of(key@)))), Some(number));
                    if key@ is Some {
                        lemma_named_from(s1.tanks@, key@->0, 0);
                    }
                    if anchor_fits(s2, key@, number, now) {
                        lemma_anchor_puts_seat_on_beat(s1, s2, key@, number, now, 0);
                    }
                }
            }
        } else if !was_running {
            match self.infer_interval_for(key) {
                Some(ms) => {
                    self.apply_inferred_interval(key, ms);
                    let ghost s1 = *self;
                    proof {
                        match s0.tank_of(key@) {
                            Some(i) => {
                                lemma_named_from(s0.tanks@, key@->0, 0);
                                lemma_tank_update_clocks(s0, s1, i, TankAssignment { interval_ms: Some(ms), ..s0.tanks@[i] });
                            },
                            None => {
                                assert(tanks_laid_same(s0.tanks@, s1.tanks@));
                            },
                        }
                        lemma_only_clocks_seats(s0, s1);
                    }
                    self.reanchor(key, number, now, 0);
                    let ghost s2 = *self;
                    proof {
                        self.lemma_reanchored_only_clocks(s1, key@, number, now, 0);
                        lemma_only_clocks_seats(s1, s2);
                        if key_resolves(s0, key@) && s0.rotation(key@).len() > 0 {
                            let r1 = s1.rotation(key@);
                            let idx: u64 = match pos_from(r1, number, 0) { Some(k) => k as u64, None => 0 };
                            lemma_clock_written_seats(s1, s2, key@, true, Some(anchor_start(now, 0, idx, beat_len(s1.interval_of(key@)))), Some(number));
                            if anchor_fits(s2, key@, number, now) {
                                lemma_anchor_puts_seat_on_beat(s1, s2, key@, number, now, 0);
                            }
                        }
                    }
                    self.set_shout_sync(key, true);
                    proof {
                        let s3 = *self;
                        match s2.tank_of(key@) {
                            Some(i) => {
                                lemma_named_from(s2.tanks@, key@->0, 0);
                                lemma_tank_update_clocks(s2, s3, i, TankAssignment { shout_sync: true, ..s2.tanks@[i] });
                            },
                            None => {
                                assert(tanks_laid_same(s2.tanks@, s3.tanks@));
                            },
                        }
                        lemma_only_clocks_trans(s0, s1, s2);
                        lemma_only_clocks_trans(s0, s2, s3);
                        lemma_only_clocks_seats(s2, s3);
                        lemma_one_clock_trans(s0, s1, s2, key@);
                        lemma_one_clock_trans(s0, s2, s3, key@);
                    }
                },
                None => {
                    self.set_clock_current(key, Some(number));
                    proof {
                        let s1 = *self;
                        if s0.tank_of(key@) is Some && key@ is Some {
                            lemma_named_from(s0.tanks@, key@->0, 0);
                            let i = s0.tank_of(key@)->0;
                            lemma_tank_update_clocks(s0, s1, i, TankAssignment {
                                running: s0.running_of(key@),
                                started_at_ms: s0.started_of(key@),
                                current_number: Some(number),
                                ..s0.tanks@[i]
                            });
                        } else {
                            assert(tanks_laid_same(s0.tanks@, s1.tanks@));
                        }
                        lemma_clock_written_seats(s0, s1, key@, s0.running_of(key@), s0.started_of(key@), Some(number));
                    }
                },
            }
        } else if was_new {
            self.preserve_beat(key, now, prev);
            proof {
                if s0.running_of(key@) {
                    match keep_for(s0, key@, prev) {
                        Some(k) => {
                            self.lemma_reanchored_only_clocks(s0, key@, k, now, s0.phase_at(key@, now));
                        },
                        None => {
                            assert(tanks_laid_same(s0.tanks@, self.tanks@));
                        },
                    }
                } else {
                    assert(tanks_laid_same(s0.tanks@, self.tanks@));
                }
            }
        } else {
            proof {
                assert(tanks_laid_same(s0.tanks@, self.tanks@));
                assert(one_clock(s0, *self, key@));
            }
        }
    }

    /// A re-anchoring changes clocks only.
    proof fn lemma_reanchored_only_clocks(&self, old: ChainState, key: Option<Seq<char>>, current: u32, now: u64, phase: u64)
        requires
            reanchored(old, *self, key, current, now, phase),
        ensures
            only_clocks(old, *self),
    {
        if old.rotation(key).len() > 0 {
            let r = old.rotation(key);
            let idx: u64 = match pos_from(r, current, 0) { Some(k) => k as u64, None => 0 };
            let st = Some(anchor_start(now, phase, idx, beat_len(old.interval_of(key))));
            lemma_clock_written_seats(old, *self, key, true, st, Some(current));
            if key is Some && old.tank_of(key) is Some {
                lemma_named_from(old.tanks@, key->0, 0);
                let i = old.tank_of(key)->0;
                lemma_tank_update_clocks(old, *self, i, TankAssignment {
                    running: true,
                    started_at_ms: st,
                    current_number: Some(current),
                    ..old.tanks@[i]
                });
            } else {
                assert(tanks_laid_same(old.tanks@, self.tanks@));
            }
        } else {
            assert(tanks_laid_same(old.tanks@, self.tanks@));
        }
    }
}

/// The target a heal names, none when it named none.
pub open spec fn target_of(t: Seq<char>) -> Option<Seq<char>> {
    if t.len() == 0 { None } else { Some(t) }
}

/// Who a heal is from, as the chain counts them: the call says so, or the
/// speaker is you.
pub open spec fn heal_by_you(s: ChainState, call: crate::parser::CallView) -> bool {
    call.is_you || s.is_you_name(call.speaker)
}

/// The seats after `p` sits at `n`: their other seats are given up, and
/// every other seat is as it was.
pub open spec fn seats_after_sitting(old: ChainState, new: ChainState, p: Seq<char>, n: u32) -> bool {
    forall|m: u32| m != n ==> #[trigger] new.seat(m) == if vacated_number(old.slots@, old.your_name, p, n, m) { None } else { old.seat(m) }
}

/// What a heal leaves: the seat, the warning, and the clock.
pub open spec fn heal_done(old: ChainState, new: ChainState, call: crate::parser::CallView, now: u64) -> bool {
    let s = fresh(old, now);
    let p = call.speaker;
    let n = call.number;
    let you = heal_by_you(s, call);
    if occupied_by_other(s, n, p) {
        &&& new.warning matches Some(w) && w@ == taken_text(s.slot_format, n, p, you)
        &&& new == (ChainState {
            warning: new.warning,
            warning_at_ms: Some(now),
            warning_urgent: you,
            warning_kind: WarningKind::SlotTaken,
            warning_speech: None,
            ..s
        })
    } else {
        &&& heal_seated(s, new, call, now)
        &&& heal_clock(s, new, call, now)
        &&& heal_warned(s, new, call, now)
    }
}

/// The heal's seat: the speaker sits at the number with this heal's target
/// and times, their other seats are given up, and nothing else moves.
pub open spec fn heal_seated(s: ChainState, new: ChainState, call: crate::parser::CallView, now: u64) -> bool {
    let p = call.speaker;
    let n = call.number;
    &&& new.wf()
    &&& new.seat(n) matches Some(x) && {
        &&& x.player@ == p
        &&& crate::command::opt_view(x.target) == target_of(call.target)
        &&& x.last_shout_ms == Some(now)
        &&& x.last_actual_ms == Some(now)
        &&& x.last_offset_ms == match expected_at(new, n, now) {
            Some(e) => Some(offset_of(e, now)),
            None => None,
        }
        &&& x.skipped == (s.seat(n) matches Some(y) && y.skipped)
    }
    &&& seats_after_sitting(s, new, p, n)
    &&& tanks_laid_same(s.tanks@, new.tanks@)
    &&& new.tank == s.tank && new.off_tank == s.off_tank && new.your_name == s.your_name
    &&& new.slot_format == s.slot_format && new.cast_time_ms == s.cast_time_ms
}

/// The heal's clock: an armed clock starts from this heal, its beat opening
/// on the shout where the seat's place leaves room; with no clock running
/// and no pace heard yet only the turn follows the heal and the clock stays
/// as it was, else a clock is started at the pace heard in the shouts with
/// the healer's beat opening on the shout; every other clock is kept.
pub open spec fn heal_clock(s: ChainState, new: ChainState, call: crate::parser::CallView, now: u64) -> bool {
    let n = call.number;
    let key = s.key_for(n);
    let was_running = s.running_of(key);
    &&& (key_resolves(s, key) && s.armed_of(key) ==> !new.armed_of(key) && new.interval_of(key) == s.interval_of(key))
    &&& (key_resolves(s, key) && s.armed_of(key) && anchor_fits(new, key, n, now) ==> on_beat(new, key, n, now, 0))
    &&& (key_resolves(s, key) && !s.armed_of(key) && !was_running ==> match inferred_interval(shout_times(new.slots@, new.tanks@, key)) {
        None => new.current_of(key) == Some(n) && pace_kept(s, new, key),
        Some(ms) => {
            &&& new.interval_of(key) == ms
            &&& new.sync_of(key)
            &&& (new.rotation(key).len() > 0 ==> new.running_of(key))
            &&& (anchor_fits(new, key, n, now) ==> on_beat(new, key, n, now, 0))
        },
    })
    &&& (key_resolves(s, key) && !s.armed_of(key) && was_running ==> heal_clock_running(s, new, call, now))
    &&& other_beats_kept(s, new, key)
}

/// Room for a clock anchored on seat `k` at `now`, `phase` into its beat:
/// the seat is on the rotation, the interval is set and longer than the
/// phase, and `now` is at least the phase plus the seat's place times the
/// interval.
pub open spec fn anchor_room(s: ChainState, key: Option<Seq<char>>, k: u32, now: u64, phase: u64) -> bool {
    let r = s.rotation(key);
    &&& r.contains(k)
    &&& s.interval_of(key) > 0
    &&& phase < s.interval_of(key)
    &&& pos_from(r, k, 0) is Some
    &&& phase + pos_from(r, k, 0)->0 * s.interval_of(key) <= now
}

/// `key`'s clock runs and, at `now`, is `phase` into seat `k`'s beat.
pub open spec fn on_beat(s: ChainState, key: Option<Seq<char>>, k: u32, now: u64, phase: u64) -> bool {
    &&& s.running_of(key)
    &&& s.beat_at(key, now) matches Some(b) && b.current == k
    &&& s.phase_at(key, now) == phase
}

/// A heal on a clock that was already running and not armed: with one seat
/// or none on the rotation it re-anchors on the healer; a shout-synced chain
/// takes the pace heard and re-anchors on the healer; a new seat on an
/// unsynced chain keeps whoever's turn it was, at the same phase; else the
/// clock goes on from the same start.
#[verifier::opaque]
pub open spec fn heal_clock_running(s: ChainState, new: ChainState, call: crate::parser::CallView, now: u64) -> bool {
    let n = call.number;
    let key = s.key_for(n);
    if new.rotation(key).len() <= 1 {
        &&& new.running_of(key)
        &&& new.interval_of(key) == s.interval_of(key)
        &&& (anchor_fits(new, key, n, now) ==> (new.beat_at(key, now) matches Some(b) && b.current == n))
    } else if s.sync_of(key) {
        &&& new.interval_of(key) == match inferred_interval(shout_times(new.slots@, new.tanks@, key)) {
            Some(ms) => ms,
            None => s.interval_of(key),
        }
        &&& new.running_of(key)
        &&& new.sync_of(key)
        &&& (anchor_fits(new, key, n, now) ==> (new.beat_at(key, now) matches Some(b) && b.current == n))
    } else {
        &&& new.running_of(key)
        &&& new.interval_of(key) == s.interval_of(key)
        &&& match (s.seat(n), keep_for(new, key, s.current_at(key, now))) {
            (None, Some(k)) => anchor_room(new, key, k, now, s.phase_at(key, now)) ==> on_beat(new, key, k, now, s.phase_at(key, now)),
            _ => new.started_of(key) == s.started_of(key),
        }
    }
}

/// Setting or clearing the banner after a heal keeps its seat and its clock.
proof fn lemma_heal_rewarned(s: ChainState, a: ChainState, b: ChainState, call: crate::parser::CallView, now: u64)
    requires
        heal_seated(s, a, call, now),
        heal_clock(s, a, call, now),
        b == (ChainState {
            warning: b.warning,
            warning_at_ms: b.warning_at_ms,
            warning_urgent: b.warning_urgent,
            warning_kind: b.warning_kind,
            warning_speech: b.warning_speech,
            ..a
        }),
    ensures
        heal_seated(s, b, call, now),
        heal_clock(s, b, call, now),
        expected_at(b, call.number, now) == expected_at(a, call.number, now),
        forall|you: bool| #[trigger] mismatch_text(b, call.number, call.target, you) == mismatch_text(a, call.number, call.target, you),
{
    let key = s.key_for(call.number);
    assert forall|m: u32| #[trigger] b.seat(m) == a.seat(m) by {}
    assert(expected_at(b, call.number, now) == expected_at(a, call.number, now));
    assert(heal_seated(s, b, call, now));
    if key_resolves(s, key) && !s.armed_of(key) && s.running_of(key) {
        lemma_heal_running_carry(s, a, b, call, now);
    }
    lemma_other_beats_carry(s, a, b, key);
    assert forall|you: bool| #[trigger] mismatch_text(b, call.number, call.target, you) == mismatch_text(a, call.number, call.target, you) by {}
}

proof fn lemma_heal_running_carry(s: ChainState, a: ChainState, b: ChainState, call: crate::parser::CallView, now: u64)
    requires
        heal_clock_running(s, a, call, now),
        b == (ChainState {
            warning: b.warning,
            warning_at_ms: b.warning_at_ms,
            warning_urgent: b.warning_urgent,
            warning_kind: b.warning_kind,
            warning_speech: b.warning_speech,
            ..a
        }),
    ensures
        heal_clock_running(s, b, call, now),
{
    reveal(heal_clock_running);
}

proof fn lemma_slot_from_marks(a: Seq<ClericSlot>, b: Seq<ClericSlot>, n: u32, i: int)
    requires
        same_marks(a, b),
        0 <= i,
    ensures
        slot_from(a, n, i) == slot_from(b, n, i),
    decreases a.len() - i,
{
    if i < a.len() {
        assert(a[i].number == b[i].number);
        lemma_slot_from_marks(a, b, n, i + 1);
    }
}

proof fn lemma_keep_for_marks(a: ChainState, b: ChainState, key: Option<Seq<char>>, c: Option<u32>)
    requires
        same_marks(a.slots@, b.slots@),
        a.tanks@ == b.tanks@,
    ensures
        keep_for(a, key, c) == keep_for(b, key, c),
{
    lemma_same_marks(a.slots@, b.slots@, a.tanks@, key);
    if let Some(n) = c {
        lemma_slot_from_marks(a.slots@, b.slots@, n, 0);
        lemma_slot_from(a.slots@, n, 0);
        assert(seat_live(a, n, key) == seat_live(b, n, key));
    }
}

proof fn lemma_clock_but_current(s: ChainState, s1: ChainState, key: Option<Seq<char>>)
    requires
        s1.tanks@.len() == s.tanks@.len(),
        forall|i: int| 0 <= i < s.tanks@.len() ==> #[trigger] s1.tanks@[i] == (TankAssignment {
            current_number: s1.tanks@[i].current_number,
            ..s.tanks@[i]
        }),
        s1 == (ChainState { slots: s1.slots, current_number: s1.current_number, tanks: s1.tanks, ..s }),
    ensures
        s1.tank_of(key) == s.tank_of(key),
        s1.running_of(key) == s.running_of(key),
        s1.started_of(key) == s.started_of(key),
        s1.interval_of(key) == s.interval_of(key),
        s1.sync_of(key) == s.sync_of(key),
        s1.armed_of(key) == s.armed_of(key),
{
    assert(tanks_laid_same(s.tanks@, s1.tanks@)) by {
        assert forall|k: int| 0 <= k < s.tanks@.len() implies {
            &&& #[trigger] s.tanks@[k].name@ == s1.tanks@[k].name@
            &&& s.tanks@[k].from == s1.tanks@[k].from
            &&& s.tanks@[k].to == s1.tanks@[k].to
        } by {
            assert(s1.tanks@[k] == (TankAssignment { current_number: s1.tanks@[k].current_number, ..s.tanks@[k] }));
        }
    }
    lemma_tanks_laid_same(s.tanks@, s1.tanks@);
    if let Some(i) = s.tank_of(key) {
        lemma_named_from(s.tanks@, key->0, 0);
        assert(s1.tanks@[i] == (TankAssignment { current_number: s1.tanks@[i].current_number, ..s.tanks@[i] }));
    }
}

/// The heal's warning: a wrong target from someone already on a running
/// chain, else none.
pub open spec fn heal_warned(s: ChainState, new: ChainState, call: crate::parser::CallView, now: u64) -> bool {
    let n = call.number;
    let you = heal_by_you(s, call);
    let key = s.key_for(n);
    let was_running = s.running_of(key);
    let already_on = held_by(s, call.speaker) is Some;
    match mismatch_text(new, n, call.target, you) {
        Some(t) => if already_on && was_running {
            &&& new.warning matches Some(w) && w@ == t
            &&& new.warning_at_ms == Some(now)
            &&& new.warning_urgent == you
            &&& new.warning_kind == WarningKind::WrongTarget
            &&& new.warning_speech is None
        } else {
            no_warning(new)
        },
        None => no_warning(new),
    }
}

proof fn lemma_heal_clock(s: ChainState, s2: ChainState, s3: ChainState, s4: ChainState, call: crate::parser::CallView, now: u64)
    requires
        ({
            let key = s.key_for(call.number);
            &&& tanks_laid_same(s.tanks@, s2.tanks@)
            &&& s2.tank_of(key) == s.tank_of(key)
            &&& s2.armed_of(key) == s.armed_of(key)
            &&& s2.running_of(key) == s.running_of(key)
            &&& s2.key_for(call.number) == key
            &&& only_clocks(s2, s3)
            &&& (key_resolves(s2, key) && s2.armed_of(key) ==> !s3.armed_of(key) && s3.interval_of(key) == s2.interval_of(key))
            &&& (key_resolves(s2, key) && s2.armed_of(key) && anchor_fits(s2, key, call.number, now) ==> on_beat(s3, key, call.number, now, 0))
            &&& (key_resolves(s2, key) && !s2.armed_of(key) && !s2.running_of(key) ==> match inferred_interval(shout_times(s2.slots@, s2.tanks@, key)) {
                None => s3.current_of(key) == Some(call.number) && pace_kept(s2, s3, key),
                Some(ms) => s3.interval_of(key) == ms && s3.sync_of(key) && (s2.rotation(key).len() > 0 ==> s3.running_of(key))
                    && (anchor_fits(s3, key, call.number, now) ==> on_beat(s3, key, call.number, now, 0)),
            })
            &&& same_marks(s3.slots@, s4.slots@)
            &&& s4 == (ChainState { slots: s4.slots, ..s3 })
            &&& s2.started_of(key) == s.started_of(key)
            &&& s2.interval_of(key) == s.interval_of(key)
            &&& s2.sync_of(key) == s.sync_of(key)
            &&& (key_resolves(s2, key) && !s2.armed_of(key) && s2.running_of(key)
                ==> running_settled(s2, s3, key, call.number, now, s.seat(call.number) is None, s.current_at(key, now)))
            &&& clocks_but_current(s, s2)
            &&& one_clock(s2, s3, key)
        }),
    ensures
        heal_clock(s, s4, call, now),
        expected_at(s4, call.number, now) == expected_at(s3, call.number, now),
{
    let key = s.key_for(call.number);
    lemma_only_clocks_seats(s2, s3);
    lemma_same_marks(s3.slots@, s4.slots@, s4.tanks@, key);
    lemma_same_marks(s2.slots@, s3.slots@, s3.tanks@, key);
    assert(s4.tank_of(key) == s3.tank_of(key));
    assert(s4.rotation(key) == s3.rotation(key));
    assert(s3.rotation(key) == s2.rotation(key));
    assert(s4.beat_at(key, now) == s3.beat_at(key, now));
    lemma_tanks_laid_same(s2.tanks@, s3.tanks@);
    assert(shout_times(s4.slots@, s4.tanks@, key) == shout_times(s2.slots@, s2.tanks@, key)) by {
        lemma_same_marks(s3.slots@, s4.slots@, s4.tanks@, key);
        assert(s2.slots@ == s3.slots@);
        lemma_shout_times_laid(s2.slots@, s2.tanks@, s3.tanks@, key);
    }
    assert(s4.key_for(call.number) == s3.key_for(call.number));
    if key_resolves(s, key) && !s.armed_of(key) && s.running_of(key) {
        lemma_heal_running(s, s2, s3, s4, call, now);
    }
    lemma_key_for_resolves(s, call.number);
    lemma_other_beats(s, s2, s3, key);
    lemma_other_beats_carry(s, s3, s4, key);
}

proof fn lemma_other_beats_carry(s: ChainState, a: ChainState, b: ChainState, key: Option<Seq<char>>)
    requires
        other_beats_kept(s, a, key),
        b.tanks == a.tanks,
        b.running == a.running && b.started_at_ms == a.started_at_ms && b.current_number == a.current_number,
        b.armed == a.armed && b.shout_sync == a.shout_sync && b.interval_ms == a.interval_ms,
    ensures
        other_beats_kept(s, b, key),
{
    assert forall|k: Option<Seq<char>>| #![trigger beat_same(s, b, k)]
        key_resolves(s, k) && !same_clock(s, k, key) implies beat_same(s, b, k) && kept_pace(s, b, key, k) by {
        assert(beat_same(s, a, k));
    }
}

#[verifier::spinoff_prover]
#[verifier::rlimit(40)]
proof fn lemma_heal_running(s: ChainState, s2: ChainState, s3: ChainState, s4: ChainState, call: crate::parser::CallView, now: u64)
    requires
        ({
            let key = s.key_for(call.number);
            &&& s2.tank_of(key) == s.tank_of(key)
            &&& s2.key_for(call.number) == key
            &&& key_resolves(s2, key)
            &&& !s2.armed_of(key)
            &&& s2.running_of(key) && s.running_of(key)
            &&& s2.started_of(key) == s.started_of(key)
            &&& s2.interval_of(key) == s.interval_of(key)
            &&& s2.sync_of(key) == s.sync_of(key)
            &&& only_clocks(s2, s3)
            &&& same_marks(s3.slots@, s4.slots@)
            &&& s4 == (ChainState { slots: s4.slots, ..s3 })
            &&& s4.rotation(key) == s2.rotation(key)
            &&& s4.beat_at(key, now) == s3.beat_at(key, now)
            &&& shout_times(s4.slots@, s4.tanks@, key) == shout_times(s2.slots@, s2.tanks@, key)
            &&& running_settled(s2, s3, key, call.number, now, s.seat(call.number) is None, s.current_at(key, now))
        }),
    ensures
        heal_clock_running(s, s4, call, now),
{
    reveal(running_settled);
    reveal(heal_clock_running);
    let key = s.key_for(call.number);
    let n = call.number;
    let r = s2.rotation(key);
    lemma_only_clocks_seats(s2, s3);
    assert(s4.tank_of(key) == s3.tank_of(key));
    if key is Some {
        lemma_named_from(s2.tanks@, key->0, 0);
    }
    if r.len() <= 1 {
        if r.len() > 0 {
            let idx: u64 = match pos_from(r, n, 0) { Some(k) => k as u64, None => 0 };
            lemma_clock_written_seats(s2, s3, key, true, Some(anchor_start(now, 0, idx, beat_len(s2.interval_of(key)))), Some(n));
        }
        if anchor_fits(s4, key, n, now) {
            lemma_anchor_puts_seat_on_beat(s2, s3, key, n, now, 0);
        }
    } else if s2.sync_of(key) {
    } else {
        let prev = s.current_at(key, now);
        let phase = s2.phase_at(key, now);
        assert(phase == s.phase_at(key, now));
        assert(keep_for(s3, key, prev) == keep_for(s2, key, prev)) by {
            assert(seats_same(s2, s3));
            lemma_seats_same(s2, s3);
            if let Some(c) = prev {
                assert(seat_live(s3, c, key) == seat_live(s2, c, key));
            }
        }
        lemma_keep_for_marks(s3, s4, key, prev);
        if s.seat(n) is None {
            match keep_for(s2, key, prev) {
                Some(k) => {
                    let idx: u64 = match pos_from(r, k, 0) { Some(j) => j as u64, None => 0 };
                    lemma_clock_written_seats(s2, s3, key, true, Some(anchor_start(now, phase, idx, beat_len(s2.interval_of(key)))), Some(k));
                    if anchor_room(s4, key, k, now, phase) {
                        lemma_anchor_puts_seat_on_beat(s2, s3, key, k, now, phase);
                    }
                },
                None => {},
            }
        }
    }
}

proof fn lemma_shout_times_laid(slots: Seq<ClericSlot>, a: Seq<TankAssignment>, b: Seq<TankAssignment>, key: Option<Seq<char>>)
    requires
        tanks_laid_same(a, b),
    ensures
        shout_times(slots, a, key) == shout_times(slots, b, key),
    decreases slots.len(),
{
    lemma_tanks_laid_same(a, b);
    if slots.len() > 0 {
        lemma_shout_times_laid(slots.drop_last(), a, b, key);
        assert(key_of(a, slots.last().number) == key_of(b, slots.last().number));
    }
}

pub open spec fn no_warning(s: ChainState) -> bool {
    &&& s.warning is None
    &&& s.warning_at_ms is None
    &&& !s.warning_urgent
    &&& s.warning_kind == WarningKind::Other
    &&& s.warning_speech is None
}

impl ChainState {
    /// The heal takes its seat and the clock follows it; the warning is
    /// left as it was.
    #[verifier::spinoff_prover]
    #[verifier::rlimit(100)]
    fn seat_heal(&mut self, call: crate::parser::CompleteHealCall, now: u64)
        requires
            old(self).wf(),
            !occupied_by_other(*old(self), call.number, call@.speaker),
        ensures
            heal_seated(*old(self), *final(self), call@, now),
            heal_clock(*old(self), *final(self), call@, now),
            *final(self) == (ChainState {
                slots: final(self).slots,
                running: final(self).running,
                started_at_ms: final(self).started_at_ms,
                current_number: final(self).current_number,
                armed: final(self).armed,
                shout_sync: final(self).shout_sync,
                interval_ms: final(self).interval_ms,
                tanks: final(self).tanks,
                ..*old(self)
            }),
    {
        let ghost s = *self;
        let ghost cv = call@;
        let player = call.speaker;
        let number = call.number;
        let key = self.tank_key_for(number);
        let was_new = self.find_slot(number).is_none();
        let was_running = self.clock_running(&key);
        let prev_current = self.running_current(&key, now);
        let ghost p = player@;
        self.vacate_player(&player, number);
        let ghost s1 = *self;
        proof {
            lemma_clock_but_current(s, s1, key@);
            lemma_seat_of_kept(s.slots@, s.your_name, p, number, number);
            assert forall|m: u32| #[trigger] s1.seat(m) == if vacated_number(s.slots@, s.your_name, p, number, m) { None } else { s.seat(m) } by {
                lemma_seat_of_kept(s.slots@, s.your_name, p, number, m);
            }
            assert(!vacated_number(s.slots@, s.your_name, p, number, number));
            assert(tanks_laid_same(s.tanks@, s1.tanks@)) by {
                assert forall|k: int| 0 <= k < s.tanks@.len() implies {
                    &&& #[trigger] s.tanks@[k].name@ == s1.tanks@[k].name@
                    &&& s.tanks@[k].from == s1.tanks@[k].from
                    &&& s.tanks@[k].to == s1.tanks@[k].to
                } by {}
            }
        }
        let keep_skip = match self.find_slot(number) {
            Some(i) => {
                proof {
                    lemma_slot_from(self.slots@, number, 0);
                }
                self.slots[i].skipped
            },
            None => false,
        };
        let tcs = chars_of_string(&call.target);
        let target = if tcs.len() == 0 { None } else { Some(call.target) };
        proof {
            if tcs@.len() == 0 {
                assert(cv.target =~= Seq::<char>::empty());
            }
        }
        let seat = ClericSlot {
            number,
            player,
            target,
            last_shout_ms: Some(now),
            last_actual_ms: None,
            last_offset_ms: None,
            skipped: keep_skip,
        };
        let ghost xseat = seat;
        self.insert_seat(seat);
        let ghost s2 = *self;
        proof {
            assert(tanks_laid_same(s1.tanks@, s2.tanks@));
            assert(tanks_laid_same(s.tanks@, s2.tanks@)) by {
                assert forall|k: int| 0 <= k < s.tanks@.len() implies {
                    &&& #[trigger] s.tanks@[k].name@ == s2.tanks@[k].name@
                    &&& s.tanks@[k].from == s2.tanks@[k].from
                    &&& s.tanks@[k].to == s2.tanks@[k].to
                } by {
                    assert(s1.tanks@[k].name@ == s.tanks@[k].name@);
                }
            }
            lemma_tanks_laid_same(s.tanks@, s2.tanks@);
            assert(s2.tank_of(key@) == s.tank_of(key@));
            if let Some(i) = s.tank_of(key@) {
                lemma_named_from(s.tanks@, key@->0, 0);
                assert(s1.tanks@[i].running == s.tanks@[i].running);
            }
            assert(s2.running_of(key@) == s.running_of(key@));
            assert(s2.started_of(key@) == s.started_of(key@));
            assert(s2.interval_of(key@) == s.interval_of(key@));
            assert(s2.sync_of(key@) == s.sync_of(key@));
            assert(was_new == (s.seat(number) is None));
            assert(prev_current == s.current_at(key@, now));
        }
        self.settle_clock(&key, number, now, was_running, was_new, prev_current);
        let ghost s3 = *self;
        proof {
            lemma_only_clocks_seats(s2, s3);
        }
        self.record_actual(number, now);
        let ghost s4 = *self;
        proof {
            assert(tanks_laid_same(s3.tanks@, s4.tanks@));
            assert(tanks_laid_same(s.tanks@, s4.tanks@)) by {
                assert forall|k: int| 0 <= k < s.tanks@.len() implies {
                    &&& #[trigger] s.tanks@[k].name@ == s4.tanks@[k].name@
                    &&& s.tanks@[k].from == s4.tanks@[k].from
                    &&& s.tanks@[k].to == s4.tanks@[k].to
                } by {
                    assert(s2.tanks@[k].name@ == s.tanks@[k].name@);
                    assert(s3.tanks@[k].name@ == s2.tanks@[k].name@);
                }
            }
            lemma_tanks_laid_same(s.tanks@, s2.tanks@);
            assert(s2.armed_of(key@) == s.armed_of(key@)) by {
                if let Some(i) = s.tank_of(key@) {
                    lemma_named_from(s.tanks@, key@->0, 0);
                    assert(s1.tanks@[i].armed == s.tanks@[i].armed);
                }
            }
            assert(clocks_but_current(s, s2));
            lemma_heal_clock(s, s2, s3, s4, cv, now);
            assert(s3.seat(number) == Some(xseat));
            assert(s4.seat(number) matches Some(x) && {
                &&& x.player@ == p
                &&& crate::command::opt_view(x.target) == target_of(cv.target)
                &&& x.last_shout_ms == Some(now)
                &&& x.last_actual_ms == Some(now)
                &&& x.last_offset_ms == match expected_at(s4, number, now) {
                    Some(e) => Some(offset_of(e, now)),
                    None => None,
                }
                &&& x.skipped == (s.seat(number) matches Some(y) && y.skipped)
            });
            assert forall|m: u32| m != number implies #[trigger] s4.seat(m) == if vacated_number(s.slots@, s.your_name, p, number, m) { None } else { s.seat(m) } by {
                assert(s4.seat(m) == s3.seat(m));
                assert(s3.seat(m) == s2.seat(m));
                assert(s2.seat(m) == s1.seat(m));
            }
            assert(heal_seated(s, s4, cv, now));
        }
    }

    #[verifier::spinoff_prover]
    #[verifier::rlimit(60)]
    pub fn apply_heal_at(&mut self, call: crate::parser::CompleteHealCall, now: u64)
        requires
            old(self).wf(),
        ensures
            final(self).wf(),
            heal_done(*old(self), *final(self), call@, now),
    {
        self.clear_stale_warning_at(now);
        let ghost s = *self;
        let ghost cv = call@;
        let is_you = call.is_you || self.is_you(&call.speaker);
        if self.occupied_by_other(call.number, &call.speaker) {
            let msg = self.slot_taken_message(call.number, &call.speaker, is_you);
            self.set_warning_at(msg, now, is_you, WarningKind::SlotTaken);
            return;
        }
        let number = call.number;
        let already_on = self.slot_number_for_player(&call.speaker).is_some();
        let key = self.tank_key_for(number);
        let was_running = self.clock_running(&key);
        let target_name = call.target.clone();
        proof {
            assert(held_by(s, cv.speaker) is Some == already_on);
        }
        self.seat_heal(call, now);
        let ghost s4 = *self;
        if already_on && was_running {
            if let Some(msg) = self.target_mismatch(number, &target_name, is_you) {
                self.set_warning_at(msg, now, is_you, WarningKind::WrongTarget);
                proof {
                    lemma_heal_rewarned(s, s4, *self, cv, now);
                    assert(mismatch_text(*self, number, cv.target, is_you) == mismatch_text(s4, number, cv.target, is_you));
                    assert(heal_warned(s, *self, cv, now));
                }
                return;
            }
        }
        self.clear_warning();
        proof {
            lemma_heal_rewarned(s, s4, *self, cv, now);
            assert(mismatch_text(*self, number, cv.target, is_you) == mismatch_text(s4, number, cv.target, is_you));
            assert(heal_warned(s, *self, cv, now));
        }
    }

}

/// A slot as it is spoken: the number for CH, the letters for rampage.
pub open spec fn spoken_text(f: SlotFormat, n: u32) -> Seq<char> {
    match f {
        SlotFormat::Number => crate::text::dec(n as nat),
        SlotFormat::Letter => slot_text(f, n as nat),
    }
}

/// The banner for a seat handed out by `!take` with no number.
pub open spec fn auto_banner(f: SlotFormat, n: u32, p: Seq<char>, you: bool, already: bool) -> Seq<char> {
    let slot = slot_text(f, n as nat);
    if already {
        if you { "You already have "@ + slot + "."@ } else { p + " already has "@ + slot + "."@ }
    } else {
        if you { "You got "@ + slot + "."@ } else { p + " got "@ + slot + "."@ }
    }
}

/// What is spoken with it: only to the one who got the seat.
pub open spec fn auto_speech(f: SlotFormat, n: u32, you: bool, already: bool) -> Option<Seq<char>> {
    if !you {
        None
    } else if already {
        Some("You already have "@ + spoken_text(f, n))
    } else {
        Some("You got "@ + spoken_text(f, n))
    }
}

/// The lowest free seat from `i` up to `max`.
pub open spec fn free_from(s: ChainState, i: int, left: nat) -> Option<u32>
    decreases left,
{
    if left == 0 || i < 1 || i > u32::MAX {
        None
    } else if !s.has_slot(i as u32) {
        Some(i as u32)
    } else {
        free_from(s, i + 1, (left - 1) as nat)
    }
}

pub open spec fn max_of(f: SlotFormat) -> int {
    match f {
        SlotFormat::Number => 999,
        SlotFormat::Letter => 26,
    }
}

pub open spec fn no_free_text(f: SlotFormat) -> Seq<char> {
    match f {
        SlotFormat::Letter => "No free rampage letters left."@,
        SlotFormat::Number => "No free numbers left."@,
    }
}

/// `b` is `a` with only a new warning.
pub open spec fn warned(a: ChainState, b: ChainState, text: Seq<char>, now: u64, urgent: bool, kind: WarningKind, speech: Option<Seq<char>>) -> bool {
    &&& b.warning matches Some(w) && w@ == text
    &&& crate::command::opt_view(b.warning_speech) == speech
    &&& b == (ChainState {
        warning: b.warning,
        warning_at_ms: Some(now),
        warning_urgent: urgent,
        warning_kind: kind,
        warning_speech: b.warning_speech,
        ..a
    })
}

/// Player `p` sits at `n`: their other seats are given up and their last
/// heal timings come along; a seat they already held at `n` keeps its shout.
pub open spec fn took_seat(a: ChainState, b: ChainState, n: u32, p: Seq<char>) -> bool {
    let v = vacated_of(a.slots@, a.your_name, p);
    &&& b.wf()
    &&& b.seat(n) matches Some(x) && {
        &&& x.player@ == p
        &&& x.target is None
        &&& x.last_shout_ms == (if v.old_number == Some(n) { v.last_shout_ms } else { None })
        &&& x.last_actual_ms == v.last_actual_ms
        &&& x.last_offset_ms == v.last_offset_ms
        &&& x.skipped == (a.seat(n) matches Some(y) && y.skipped)
    }
    &&& seats_after_sitting(a, b, p, n)
    &&& tanks_laid_same(a.tanks@, b.tanks@)
    &&& b.tank == a.tank && b.off_tank == a.off_tank && b.your_name == a.your_name
    &&& b.slot_format == a.slot_format && b.cast_time_ms == a.cast_time_ms
}

/// `key`'s clock after seats change: it runs or not as before, at the same
/// interval; a running clock keeps seat `keep` (or the seat after it, or
/// the first, if that one is off the rotation) at the same phase, where
/// there is room; else it keeps its start. Every other clock is kept.
#[verifier::opaque]
pub open spec fn beat_kept_on(a: ChainState, b: ChainState, key: Option<Seq<char>>, keep: Option<u32>, now: u64) -> bool {
    let phase = a.phase_at(key, now);
    &&& b.running_of(key) == a.running_of(key)
    &&& b.interval_of(key) == a.interval_of(key)
    &&& match (a.running_of(key), keep_for(b, key, keep)) {
        (true, Some(k)) => anchor_room(b, key, k, now, phase) ==> on_beat(b, key, k, now, phase),
        _ => b.started_of(key) == a.started_of(key),
    }
    &&& other_beats_kept(a, b, key)
}

/// The clock of `n`'s rotation after a seat is taken at `n`: it keeps whose
/// turn it was, as `beat_kept_on` says.
pub open spec fn beat_kept(a: ChainState, b: ChainState, n: u32, now: u64) -> bool {
    beat_kept_on(a, b, a.key_for(n), a.current_at(a.key_for(n), now), now)
}

proof fn lemma_beat_kept_on(s: ChainState, s2: ChainState, s3: ChainState, key: Option<Seq<char>>, keep: Option<u32>, now: u64)
    requires
        clocks_but_current(s, s2),
        one_clock(s2, s3, key),
        key_resolves(s, key),
        s2.tank_of(key) == s.tank_of(key),
        s2.running_of(key) == s.running_of(key),
        s2.started_of(key) == s.started_of(key),
        s2.interval_of(key) == s.interval_of(key),
        !s2.running_of(key) ==> s3 == s2,
        s2.running_of(key) ==> match keep_for(s2, key, keep) {
            None => s3 == s2,
            Some(k) => reanchored(s2, s3, key, k, now, s2.phase_at(key, now)),
        },
    ensures
        beat_kept_on(s, s3, key, keep, now),
{
    reveal(beat_kept_on);
    lemma_other_beats(s, s2, s3, key);
    let phase = s2.phase_at(key, now);
    if key is Some {
        lemma_named_from(s2.tanks@, key->0, 0);
    }
    if s2.running_of(key) {
        if let Some(k) = keep_for(s2, key, keep) {
            let r = s2.rotation(key);
            if r.len() > 0 {
                let idx: u64 = match pos_from(r, k, 0) { Some(j) => j as u64, None => 0 };
                lemma_clock_written_seats(s2, s3, key, true, Some(anchor_start(now, phase, idx, beat_len(s2.interval_of(key)))), Some(k));
                assert(keep_for(s3, key, keep) == keep_for(s2, key, keep)) by {
                    lemma_seats_same(s2, s3);
                    if let Some(c) = keep {
                        assert(seat_live(s3, c, key) == seat_live(s2, c, key));
                    }
                }
                if anchor_room(s3, key, k, now, phase) {
                    lemma_anchor_puts_seat_on_beat(s2, s3, key, k, now, phase);
                }
            }
        }
    }
}

proof fn lemma_beat_kept_carry(s: ChainState, a: ChainState, b: ChainState, key: Option<Seq<char>>, keep: Option<u32>, now: u64)
    requires
        beat_kept_on(s, a, key, keep, now),
        b == (ChainState {
            warning: b.warning,
            warning_at_ms: b.warning_at_ms,
            warning_urgent: b.warning_urgent,
            warning_kind: b.warning_kind,
            warning_speech: b.warning_speech,
            ..a
        }),
    ensures
        beat_kept_on(s, b, key, keep, now),
{
    reveal(beat_kept_on);
    assert forall|k: Option<Seq<char>>| #![trigger beat_same(s, b, k)]
        key_resolves(s, k) && !same_clock(s, k, key) implies beat_same(s, b, k) && kept_pace(s, b, key, k) by {
        assert(beat_same(s, a, k));
    }
}

/// `!take [slot] [name]`: the seat is taken unless someone else holds it;
/// with no number, the player's own seat is announced or the lowest free
/// seat is handed out and announced.
pub open spec fn take_done(a: ChainState, b: ChainState, number: Option<u32>, player: Option<Seq<char>>, speaker: Seq<char>, now: u64) -> bool {
    let p = match player {
        Some(x) => x,
        None => speaker,
    };
    let you = a.is_you_name(p);
    let f = a.slot_format;
    match number {
        None => match held_by(a, p) {
            Some(e) => warned(a, b, auto_banner(f, e, p, you, true), now, you, WarningKind::AutoTake, auto_speech(f, e, you, true)),
            None => match free_from(a, 1, max_of(f) as nat) {
                None => warned(a, b, no_free_text(f), now, you, WarningKind::AutoTake, None),
                Some(n) => if occupied_by_other(a, n, p) {
                    warned(a, b, taken_text(f, n, p, you), now, you, WarningKind::SlotTaken, None)
                } else {
                    &&& took_seat(a, b, n, p)
                    &&& beat_kept(a, b, n, now)
                    &&& b.warning matches Some(w) && w@ == auto_banner(f, n, p, you, false)
                    &&& b.warning_at_ms == Some(now) && b.warning_urgent == you && b.warning_kind == WarningKind::AutoTake
                    &&& crate::command::opt_view(b.warning_speech) == auto_speech(f, n, you, false)
                },
            },
        },
        Some(n) => if occupied_by_other(a, n, p) {
            warned(a, b, taken_text(f, n, p, you), now, you, WarningKind::SlotTaken, None)
        } else {
            took_seat(a, b, n, p) && beat_kept(a, b, n, now) && no_warning(b)
        },
    }
}

impl ChainState {
    fn next_free_slot(&self) -> (r: Option<u32>)
        ensures
            r == free_from(*self, 1, max_of(self.slot_format) as nat),
    {
        let max = max_slot(self.slot_format);
        let mut n: u32 = 1;
        while n <= max
            invariant
                1 <= n <= max + 1,
                max as int == max_of(self.slot_format),
                free_from(*self, 1, max as nat) == free_from(*self, n as int, (max + 1 - n) as nat),
            decreases max + 1 - n,
        {
            if self.find_slot(n).is_none() {
                return Some(n);
            }
            n += 1;
        }
        None
    }

    fn announce_auto_take(&mut self, number: u32, player: &String, is_you: bool, now: u64, already: bool)
        ensures
            warned(*old(self), *final(self), auto_banner(old(self).slot_format, number, player@, is_you, already), now, is_you,
                WarningKind::AutoTake, auto_speech(old(self).slot_format, number, is_you, already)),
    {
        let slot = fmt_slot(self.slot_format, number);
        let sc = chars_of_string(&slot);
        let mut v: Vec<char> = Vec::new();
        if is_you {
            if already {
                append_str(&mut v, "You already have ");
            } else {
                append_str(&mut v, "You got ");
            }
        } else {
            append_chars(&mut v, &chars_of_string(player));
            if already {
                append_str(&mut v, " already has ");
            } else {
                append_str(&mut v, " got ");
            }
        }
        append_chars(&mut v, &sc);
        append_str(&mut v, ".");
        proof {
            assert(v@ =~= auto_banner(self.slot_format, number, player@, is_you, already));
        }
        self.set_warning_at(string_of(&v), now, is_you, WarningKind::AutoTake);
        if is_you {
            let spoken: Vec<char> = match self.slot_format {
                SlotFormat::Number => crate::text::dec_of(number as u64),
                SlotFormat::Letter => sc,
            };
            let mut w: Vec<char> = Vec::new();
            if already {
                append_str(&mut w, "You already have ");
            } else {
                append_str(&mut w, "You got ");
            }
            append_chars(&mut w, &spoken);
            proof {
                assert(w@ =~= auto_speech(self.slot_format, number, is_you, already)->0);
            }
            self.warning_speech = Some(string_of(&w));
        }
    }

    #[verifier::spinoff_prover]
    #[verifier::rlimit(100)]
    fn take_slot(&mut self, number: Option<u32>, player: Option<String>, speaker: String, now: u64)
        requires
            old(self).wf(),
        ensures
            final(self).wf(),
            take_done(*old(self), *final(self), number, crate::command::opt_view(player), speaker@, now),
    {
        let ghost s = *self;
        let player: String = match player {
            Some(p) => p,
            None => speaker,
        };
        let is_you = self.is_you(&player);
        let auto = number.is_none();
        let number: u32 = match number {
            Some(n) => n,
            None => {
                if let Some(existing) = self.slot_number_for_player(&player) {
                    self.announce_auto_take(existing, &player, is_you, now, true);
                    return;
                }
                match self.next_free_slot() {
                    Some(n) => n,
                    None => {
                        let msg = match self.slot_format {
                            SlotFormat::Letter => String::from_str("No free rampage letters left."),
                            SlotFormat::Number => String::from_str("No free numbers left."),
                        };
                        self.set_warning_at(msg, now, is_you, WarningKind::AutoTake);
                        return;
                    },
                }
            },
        };
        if self.occupied_by_other(number, &player) {
            let msg = self.slot_taken_message(number, &player, is_you);
            self.set_warning_at(msg, now, is_you, WarningKind::SlotTaken);
            return;
        }
        let key = self.tank_key_for(number);
        let was_running = self.clock_running(&key);
        let prev = self.running_current(&key, now);
        let ghost p = player@;
        let vacated = self.vacate_player(&player, number);
        let ghost s1 = *self;
        proof {
            lemma_clock_but_current(s, s1, key@);
            assert forall|m: u32| #[trigger] s1.seat(m) == if vacated_number(s.slots@, s.your_name, p, number, m) { None } else { s.seat(m) } by {
                lemma_seat_of_kept(s.slots@, s.your_name, p, number, m);
            }
            assert(!vacated_number(s.slots@, s.your_name, p, number, number));
            assert(tanks_laid_same(s.tanks@, s1.tanks@)) by {
                assert forall|k: int| 0 <= k < s.tanks@.len() implies {
                    &&& #[trigger] s.tanks@[k].name@ == s1.tanks@[k].name@
                    &&& s.tanks@[k].from == s1.tanks@[k].from
                    &&& s.tanks@[k].to == s1.tanks@[k].to
                } by {}
            }
        }
        let keep_skip = match self.find_slot(number) {
            Some(i) => {
                proof {
                    lemma_slot_from(self.slots@, number, 0);
                }
                self.slots[i].skipped
            },
            None => false,
        };
        let shout = if vacated.old_number == Some(number) { vacated.last_shout_ms } else { None };
        let seat = ClericSlot {
            number,
            player: player.clone(),
            target: None,
            last_shout_ms: shout,
            last_actual_ms: vacated.last_actual_ms,
            last_offset_ms: vacated.last_offset_ms,
            skipped: keep_skip,
        };
        self.insert_seat(seat);
        let ghost s2 = *self;
        proof {
            assert(tanks_laid_same(s.tanks@, s2.tanks@)) by {
                assert forall|k: int| 0 <= k < s.tanks@.len() implies {
                    &&& #[trigger] s.tanks@[k].name@ == s2.tanks@[k].name@
                    &&& s.tanks@[k].from == s2.tanks@[k].from
                    &&& s.tanks@[k].to == s2.tanks@[k].to
                } by {
                    assert(s1.tanks@[k].name@ == s.tanks@[k].name@);
                }
            }
        }
        if was_running {
            self.preserve_beat(&key, now, prev);
            proof {
                if s2.running_of(key@) {
                    match keep_for(s2, key@, prev) {
                        Some(k) => {
                            self.lemma_reanchored_only_clocks(s2, key@, k, now, s2.phase_at(key@, now));
                        },
                        None => {
                            assert(tanks_laid_same(s2.tanks@, self.tanks@));
                        },
                    }
                } else {
                    assert(tanks_laid_same(s2.tanks@, self.tanks@));
                }
            }
        } else {
            proof {
                assert(tanks_laid_same(s2.tanks@, self.tanks@));
            }
        }
        let ghost s3 = *self;
        proof {
            lemma_only_clocks_seats(s2, s3);
            assert(tanks_laid_same(s.tanks@, s3.tanks@)) by {
                assert forall|k: int| 0 <= k < s.tanks@.len() implies {
                    &&& #[trigger] s.tanks@[k].name@ == s3.tanks@[k].name@
                    &&& s.tanks@[k].from == s3.tanks@[k].from
                    &&& s.tanks@[k].to == s3.tanks@[k].to
                } by {
                    assert(s2.tanks@[k].name@ == s.tanks@[k].name@);
                    assert(s3.tanks@[k].name@ == s2.tanks@[k].name@);
                }
            }
            assert forall|m: u32| m != number implies #[trigger] s3.seat(m) == if vacated_number(s.slots@, s.your_name, p, number, m) { None } else { s.seat(m) } by {
                assert(s3.seat(m) == s2.seat(m));
                assert(s2.seat(m) == s1.seat(m));
            }
            assert(took_seat(s, s3, number, p));
            lemma_tanks_laid_same(s.tanks@, s2.tanks@);
            assert(prev == s.current_at(key@, now));
            assert(clocks_but_current(s, s2));
            assert(one_clock(s2, s3, key@));
            lemma_key_for_resolves(s, number);
            lemma_beat_kept_on(s, s2, s3, key@, prev, now);
        }
        if auto {
            self.announce_auto_take(number, &player, is_you, now, false);
        } else {
            self.clear_warning();
        }
        proof {
            assert forall|m: u32| #[trigger] self.seat(m) == s3.seat(m) by {}
            assert(took_seat(s, *self, number, p));
            lemma_beat_kept_carry(s, s3, *self, key@, prev, now);
        }
    }
}

/// `b` differs from `a` in its seats and clocks only, and the tanks keep
/// their names and ranges.
pub open spec fn only_seats_clocks(a: ChainState, b: ChainState) -> bool {
    &&& tanks_laid_same(a.tanks@, b.tanks@)
    &&& b == (ChainState {
        slots: b.slots,
        running: b.running,
        started_at_ms: b.started_at_ms,
        current_number: b.current_number,
        armed: b.armed,
        shout_sync: b.shout_sync,
        interval_ms: b.interval_ms,
        tanks: b.tanks,
        ..a
    })
}

/// Seat `n` marked skipped or back in, every other seat as it was.
pub open spec fn marked(a: ChainState, b: ChainState, n: u32, skipped: bool) -> bool {
    &&& b.wf()
    &&& forall|m: u32| #[trigger] b.seat(m) == if m == n {
        match a.seat(m) {
            Some(x) => Some(ClericSlot { skipped: skipped, ..x }),
            None => None,
        }
    } else {
        a.seat(m)
    }
    &&& only_seats_clocks(a, b)
}

/// The seat a skip at `n` keeps the clock on: the one after `n` if it was
/// `n`'s turn, else whoever's turn it was.
pub open spec fn skip_keep(a: ChainState, b: ChainState, n: u32, now: u64) -> Option<u32> {
    let key = a.key_for(n);
    if a.current_at(key, now) == Some(n) {
        spec_next_in_rotation(b.rotation(key), n)
    } else {
        a.current_at(key, now)
    }
}

/// `!skip [slot]`: the seat sits out; a running clock keeps its beat.
pub open spec fn skip_done(a: ChainState, b: ChainState, number: Option<u32>, speaker: Seq<char>, now: u64, r: Option<Seq<char>>) -> bool {
    match seat_meant(a, number, speaker) {
        None => r == Some(not_in_chain_text("skip"@, speaker)) && b == a,
        Some(n) => if a.has_slot(n) {
            &&& r is None
            &&& marked(a, b, n, true)
            &&& beat_kept_on(a, b, a.key_for(n), skip_keep(a, b, n, now), now)
        } else {
            r == Some("Cannot skip "@ + slot_text(a.slot_format, n as nat) + ": that slot is not set."@) && b == a
        },
    }
}

/// `!back [slot]`: the seat is back in; a running clock keeps its beat.
pub open spec fn back_done(a: ChainState, b: ChainState, number: Option<u32>, speaker: Seq<char>, now: u64, r: Option<Seq<char>>) -> bool {
    match seat_meant(a, number, speaker) {
        None => r == Some(not_in_chain_text("back"@, speaker)) && b == a,
        Some(n) => r is None && marked(a, b, n, false) && beat_kept_on(a, b, a.key_for(n), a.current_at(a.key_for(n), now), now),
    }
}

/// A clock's seat after two seats swap numbers.
pub open spec fn swapped(c: Option<u32>, from: u32, to: u32) -> Option<u32> {
    if c == Some(from) {
        Some(to)
    } else if c == Some(to) {
        Some(from)
    } else {
        c
    }
}

/// `!move from to`: the two seats swap numbers, skip marks and all.
pub open spec fn move_done(a: ChainState, b: ChainState, from: u32, to: u32, now: u64, r: Option<Seq<char>>) -> bool {
    if from == to {
        r == Some("Move needs two different numbers."@) && b == a
    } else if !a.has_slot(from) {
        r == Some("Cannot move "@ + slot_text(a.slot_format, from as nat) + ": that slot is not set."@) && b == a
    } else if !a.has_slot(to) {
        r == Some("Cannot move to "@ + slot_text(a.slot_format, to as nat) + ": that slot is not set."@) && b == a
    } else {
        &&& r is None
        &&& b.wf()
        &&& b.seat(from) == Some(ClericSlot { number: from, ..a.seat(to)->0 })
        &&& b.seat(to) == Some(ClericSlot { number: to, ..a.seat(from)->0 })
        &&& forall|m: u32| m != from && m != to ==> #[trigger] b.seat(m) == a.seat(m)
        &&& only_seats_clocks(a, b)
        &&& beat_kept_on(a, b, a.key_for(from), swapped(a.current_at(a.key_for(from), now), from, to), now)
        &&& moved_turns(a, b, from, to)
    }
}

/// After two seats swap: every clock that stood on one of them now stands on
/// the other, but for a running clock of the moved seat's rotation, which
/// keeps its beat; no clock is armed or synced otherwise than before.
pub open spec fn moved_turns(a: ChainState, b: ChainState, from: u32, to: u32) -> bool {
    &&& forall|k: Option<Seq<char>>|
        key_resolves(a, k) && (!same_clock(a, k, a.key_for(from)) || !a.running_of(k))
        ==> #[trigger] b.current_of(k) == swapped(a.current_of(k), from, to)
    &&& forall|k: Option<Seq<char>>| #[trigger] b.armed_of(k) == a.armed_of(k) && b.sync_of(k) == a.sync_of(k)
}

proof fn lemma_move_clocks(s0: ChainState, s2: ChainState, s3: ChainState, key: Option<Seq<char>>, from: u32, to: u32, now: u64, keep: Option<u32>)
    requires
        s2.tanks@.len() == s0.tanks@.len(),
        forall|i: int| 0 <= i < s0.tanks@.len() ==> #[trigger] s2.tanks@[i] == (TankAssignment {
            current_number: swapped(s0.tanks@[i].current_number, from, to),
            ..s0.tanks@[i]
        }),
        s2 == (ChainState { slots: s2.slots, current_number: swapped(s0.current_number, from, to), tanks: s2.tanks, ..s0 }),
        key_resolves(s0, key),
        key == s0.key_for(from),
        !s2.running_of(key) ==> s3 == s2,
        s2.running_of(key) ==> match keep_for(s2, key, keep) {
            None => s3 == s2,
            Some(k) => reanchored(s2, s3, key, k, now, s2.phase_at(key, now)),
        },
    ensures
        moved_turns(s0, s3, from, to),
{
    assert(tanks_laid_same(s0.tanks@, s2.tanks@)) by {
        assert forall|i: int| 0 <= i < s0.tanks@.len() implies {
            &&& #[trigger] s0.tanks@[i].name@ == s2.tanks@[i].name@
            &&& s0.tanks@[i].from == s2.tanks@[i].from
            &&& s0.tanks@[i].to == s2.tanks@[i].to
        } by {
            assert(s2.tanks@[i] == (TankAssignment { current_number: swapped(s0.tanks@[i].current_number, from, to), ..s0.tanks@[i] }));
        }
    }
    lemma_tanks_laid_same(s0.tanks@, s2.tanks@);
    if key is Some {
        lemma_named_from(s0.tanks@, key->0, 0);
    }
    if s2.running_of(key) {
        if let Some(kk) = keep_for(s2, key, keep) {
            let r = s2.rotation(key);
            if r.len() > 0 {
                let idx: u64 = match pos_from(r, kk, 0) { Some(j) => j as u64, None => 0 };
                lemma_clock_written_others(s2, s3, key, true, Some(anchor_start(now, s2.phase_at(key, now), idx, beat_len(s2.interval_of(key)))), Some(kk));
            }
        }
    }
    assert forall|k: Option<Seq<char>>|
        key_resolves(s0, k) && (!same_clock(s0, k, key) || !s0.running_of(k))
        implies #[trigger] s3.current_of(k) == swapped(s0.current_of(k), from, to) by {
        assert(s2.tank_of(k) == s0.tank_of(k));
        if let Some(name) = k {
            lemma_named_from(s0.tanks@, name, 0);
            let j = s0.tank_of(k)->0;
            assert(s2.tanks@[j] == (TankAssignment { current_number: swapped(s0.tanks@[j].current_number, from, to), ..s0.tanks@[j] }));
        }
        assert(s2.current_of(k) == swapped(s0.current_of(k), from, to));
        assert(s2.running_of(k) == s0.running_of(k));
        assert(key_resolves(s2, k));
        if same_clock(s2, k, key) {
            assert(!s2.running_of(k));
            assert(!s2.running_of(key));
            assert(s3 == s2);
        } else {
            assert(!same_clock(s2, k, key));
        }
    }
    assert forall|k: Option<Seq<char>>| #[trigger] s3.armed_of(k) == s0.armed_of(k) && s3.sync_of(k) == s0.sync_of(k) by {
        assert(s2.tank_of(k) == s0.tank_of(k));
        if let Some(j) = s0.tank_of(k) {
            if let Some(name) = k {
                lemma_named_from(s0.tanks@, name, 0);
            }
            assert(s2.tanks@[j] == (TankAssignment { current_number: swapped(s0.tanks@[j].current_number, from, to), ..s0.tanks@[j] }));
        }
        assert(s2.armed_of(k) == s0.armed_of(k) && s2.sync_of(k) == s0.sync_of(k));
        assert(s3.armed_of(k) == s2.armed_of(k) && s3.sync_of(k) == s2.sync_of(k));
    }
}

/// Writing `key`'s clock arms and syncs nothing, and moves no other clock's
/// seat.
proof fn lemma_clock_written_others(old: ChainState, new: ChainState, key: Option<Seq<char>>, running: bool, start: Option<u64>, current: Option<u32>)
    requires
        clock_written(old, new, key, running, start, current),
    ensures
        forall|k: Option<Seq<char>>| #[trigger] new.armed_of(k) == old.armed_of(k) && new.sync_of(k) == old.sync_of(k),
        forall|k: Option<Seq<char>>| key_resolves(old, k) && !same_clock(old, k, key) ==> #[trigger] new.current_of(k) == old.current_of(k),
        forall|k: Option<Seq<char>>| #[trigger] new.tank_of(k) == old.tank_of(k),
{
    lemma_clock_written_seats(old, new, key, running, start, current);
    lemma_seats_same(old, new);
    assert forall|k: Option<Seq<char>>| #[trigger] new.armed_of(k) == old.armed_of(k) && new.sync_of(k) == old.sync_of(k) by {
        if let Some(j) = old.tank_of(k) {
            if let Some(name) = k {
                lemma_named_from(old.tanks@, name, 0);
            }
            if key is Some && old.tank_of(key) is Some {
                lemma_named_from(old.tanks@, key->0, 0);
                let i = old.tank_of(key)->0;
                let t = TankAssignment { running: running, started_at_ms: start, current_number: current, ..old.tanks@[i] };
                assert(new.tanks@ == old.tanks@.update(i, t));
                if i == j {
                } else {
                    assert(new.tanks@[j] == old.tanks@[j]);
                }
            }
        }
    }
    assert forall|k: Option<Seq<char>>| key_resolves(old, k) && !same_clock(old, k, key) implies #[trigger] new.current_of(k) == old.current_of(k) by {
        if let Some(name) = k {
            lemma_named_from(old.tanks@, name, 0);
            let j = old.tank_of(k)->0;
            if key is Some && old.tank_of(key) is Some {
                lemma_named_from(old.tanks@, key->0, 0);
                let i = old.tank_of(key)->0;
                let t = TankAssignment { running: running, started_at_ms: start, current_number: current, ..old.tanks@[i] };
                assert(new.tanks@ == old.tanks@.update(i, t));
                assert(i != j);
                assert(new.tanks@[j] == old.tanks@[j]);
            }
        }
    }
}
/// `!reset-chain`: no seats, every clock stopped and disarmed, no warning.
pub open spec fn reset_done(a: ChainState, b: ChainState) -> bool {
    &&& b.slots@.len() == 0
    &&& b.current_number is None && !b.running && !b.armed && b.started_at_ms is None && !b.shout_sync
    &&& b.tanks@.len() == a.tanks@.len()
    &&& forall|i: int| 0 <= i < a.tanks@.len() ==> #[trigger] b.tanks@[i] == (TankAssignment {
        running: false,
        armed: false,
        started_at_ms: None,
        current_number: None,
        shout_sync: false,
        ..a.tanks@[i]
    })
    &&& no_warning(b)
    &&& b == (ChainState {
        slots: b.slots,
        current_number: None,
        running: false,
        armed: false,
        started_at_ms: None,
        shout_sync: false,
        tanks: b.tanks,
        warning: None,
        warning_at_ms: None,
        warning_urgent: false,
        warning_kind: WarningKind::Other,
        warning_speech: None,
        ..a
    })
}

/// `!split number`: the off tank takes `number` and up.
pub open spec fn split_done(a: ChainState, b: ChainState, number: u32, r: Option<Seq<char>>) -> bool {
    match a.off_tank {
        None => r == Some("Set the off tank first with !ot <tank>."@) && b == a,
        Some(ot) => if other_tank_set(a.tanks@, ot@) {
            r == Some("Split is for two tanks. Use !tank <name> <from> <to> for more."@) && b == a
        } else {
            exists|mid: ChainState| {
                &&& #[trigger] range_done(a, mid, ot@, number, 999, r)
                &&& match named(mid.tanks@, ot@) {
                    Some(i) => {
                        &&& b.tanks@ == mid.tanks@.update(i, TankAssignment { is_off: true, ..mid.tanks@[i] })
                        &&& b == (ChainState { tanks: b.tanks, ..mid })
                    },
                    None => b == mid,
                }
            }
        },
    }
}

/// What a chain command does, on the chain as it stands once a stale
/// warning has been cleared.
pub open spec fn command_done(old: ChainState, b: ChainState, cmd: crate::command::CommandView, speaker: Seq<char>, now: u64, r: Option<Seq<char>>) -> bool {
    let a = fresh(old, now);
    match cmd {
        crate::command::CommandView::MainTank { tank } => {
            &&& r is None
            &&& (b.tank matches Some(t) && t@ == tank)
            &&& b == (ChainState { tank: b.tank, ..a })
        },
        crate::command::CommandView::OffTank { tank } => off_tank_done(a, b, tank, r),
        crate::command::CommandView::Split { number } => split_done(a, b, number, r),
        crate::command::CommandView::TankRange { tank, from, to } => range_done(a, b, tank, from, to, r),
        crate::command::CommandView::Untank { tank } => untank_done(a, b, tank, r),
        crate::command::CommandView::Skip { number } => skip_done(a, b, number, speaker, now, r),
        crate::command::CommandView::Back { number } => back_done(a, b, number, speaker, now, r),
        crate::command::CommandView::ResetChain => r is None && reset_done(a, b),
        crate::command::CommandView::Take { number, player } => r is None && take_done(a, b, Some(number), player, speaker, now),
        crate::command::CommandView::TakeNext { player } => r is None && take_done(a, b, None, player, speaker, now),
        crate::command::CommandView::Move { from, to } => move_done(a, b, from, to, now, r),
        crate::command::CommandView::ChainInterval { millis, tank } => interval_done(a, b, millis, tank, now, r),
        crate::command::CommandView::StartChain { tank } => start_done(a, b, tank, now, r),
        crate::command::CommandView::EndChain { tank } => stop_done(a, b, tank, r),
    }
}

proof fn lemma_marked_clocks(a: ChainState, m: ChainState, b: ChainState, n: u32, skipped: bool)
    requires
        marked(a, m, n, skipped),
        only_clocks(m, b),
    ensures
        marked(a, b, n, skipped),
{
    lemma_only_clocks_seats(m, b);
    assert forall|k: int| 0 <= k < a.tanks@.len() implies {
        &&& #[trigger] a.tanks@[k].name@ == b.tanks@[k].name@
        &&& a.tanks@[k].from == b.tanks@[k].from
        &&& a.tanks@[k].to == b.tanks@[k].to
    } by {
        assert(a.tanks@[k].name@ == m.tanks@[k].name@);
    }
    assert forall|x: u32| #[trigger] b.seat(x) == m.seat(x) by {}
    assert(b.tank == a.tank && b.off_tank == a.off_tank && b.cast_time_ms == a.cast_time_ms);
    assert(b.your_name == a.your_name && b.warning == a.warning && b.slot_format == a.slot_format);
    assert(b.warning_at_ms == a.warning_at_ms && b.warning_urgent == a.warning_urgent);
    assert(b.warning_kind == a.warning_kind && b.warning_speech == a.warning_speech);
    assert(b.slots == m.slots);
    assert(b.wf());
    assert(a.tanks@.len() == b.tanks@.len());
    assert(tanks_laid_same(a.tanks@, b.tanks@));
    assert(b == (ChainState {
        slots: b.slots,
        running: b.running,
        started_at_ms: b.started_at_ms,
        current_number: b.current_number,
        armed: b.armed,
        shout_sync: b.shout_sync,
        interval_ms: b.interval_ms,
        tanks: b.tanks,
        ..a
    }));
    assert forall|x: u32| #[trigger] b.seat(x) == if x == n {
        match a.seat(x) {
            Some(y) => Some(ClericSlot { skipped: skipped, ..y }),
            None => None,
        }
    } else {
        a.seat(x)
    } by {
        assert(b.seat(x) == m.seat(x));
    }
}

impl ChainState {
    /// Re-anchors `key`'s running clock on `keep`, keeping its phase.
    fn keep_beat(&mut self, key: &TankKey, now: u64, keep: Option<u32>)
        ensures
            only_clocks(*old(self), *final(self)),
            one_clock(*old(self), *final(self), key@),
            !old(self).running_of(key@) ==> *final(self) == *old(self),
            old(self).running_of(key@) ==> match keep_for(*old(self), key@, keep) {
                None => *final(self) == *old(self),
                Some(k) => reanchored(*old(self), *final(self), key@, k, now, old(self).phase_at(key@, now)),
            },
    {
        let ghost s0 = *self;
        self.preserve_beat(key, now, keep);
        proof {
            if s0.running_of(key@) {
                match keep_for(s0, key@, keep) {
                    Some(k) => {
                        self.lemma_reanchored_only_clocks(s0, key@, k, now, s0.phase_at(key@, now));
                    },
                    None => {
                        assert(tanks_laid_same(s0.tanks@, self.tanks@));
                    },
                }
            } else {
                assert(tanks_laid_same(s0.tanks@, self.tanks@));
            }
        }
    }

    fn not_set_message(&self, lead: &str, number: u32) -> (m: String)
        ensures
            m@ == lead@ + slot_text(self.slot_format, number as nat) + ": that slot is not set."@,
    {
        let mut v: Vec<char> = Vec::new();
        append_str(&mut v, lead);
        let f = fmt_slot(self.slot_format, number);
        append_chars(&mut v, &chars_of_string(&f));
        append_str(&mut v, ": that slot is not set.");
        string_of(&v)
    }

    fn skip_cmd(&mut self, number: Option<u32>, speaker: &String, now: u64) -> (r: Option<String>)
        requires
            old(self).wf(),
        ensures
            final(self).wf(),
            skip_done(*old(self), *final(self), number, speaker@, now, crate::command::opt_view(r)),
    {
        match self.resolve_slot_number(number, speaker, "skip") {
            Ok(n) => {
                if self.find_slot(n).is_some() {
                    let key = self.tank_key_for(n);
                    let prev = self.running_current(&key, now);
                    let ghost s0 = *self;
                    self.set_skip(n, true);
                    let ghost s1 = *self;
                    proof {
                        assert(tanks_laid_same(s0.tanks@, s1.tanks@));
                        assert(marked(s0, s1, n, true));
                    }
                    if self.clock_running(&key) {
                        let keep = if prev == Some(n) { self.next_after_in(&key, n) } else { prev };
                        self.keep_beat(&key, now, keep);
                        proof {
                            lemma_marked_clocks(s0, s1, *self, n, true);
                            lemma_only_clocks_seats(s1, *self);
                            assert(keep == skip_keep(s0, *self, n, now));
                            assert(clocks_but_current(s0, s1));
                            lemma_key_for_resolves(s0, n);
                            lemma_beat_kept_on(s0, s1, *self, key@, keep, now);
                        }
                    } else {
                        proof {
                            assert(clocks_but_current(s0, s1));
                            assert(one_clock(s1, s1, key@));
                            lemma_key_for_resolves(s0, n);
                            lemma_beat_kept_on(s0, s1, s1, key@, skip_keep(s0, s1, n, now), now);
                        }
                    }
                    None
                } else {
                    Some(self.not_set_message("Cannot skip ", n))
                }
            },
            Err(w) => Some(w),
        }
    }

    fn back_cmd(&mut self, number: Option<u32>, speaker: &String, now: u64) -> (r: Option<String>)
        requires
            old(self).wf(),
        ensures
            final(self).wf(),
            back_done(*old(self), *final(self), number, speaker@, now, crate::command::opt_view(r)),
    {
        match self.resolve_slot_number(number, speaker, "back") {
            Ok(n) => {
                let key = self.tank_key_for(n);
                let prev = self.running_current(&key, now);
                let ghost s0 = *self;
                self.set_skip(n, false);
                let ghost s1 = *self;
                proof {
                    assert(tanks_laid_same(s0.tanks@, s1.tanks@));
                    assert(marked(s0, s1, n, false));
                }
                if self.clock_running(&key) {
                    self.keep_beat(&key, now, prev);
                    proof {
                        lemma_marked_clocks(s0, s1, *self, n, false);
                    }
                } else {
                    proof {
                        assert(one_clock(s1, *self, key@));
                    }
                }
                proof {
                    assert(clocks_but_current(s0, s1));
                    lemma_key_for_resolves(s0, n);
                    lemma_beat_kept_on(s0, s1, *self, key@, prev, now);
                }
                None
            },
            Err(w) => Some(w),
        }
    }

    /// Swaps the seats at `i` and `j` but for their numbers.
    #[verifier::spinoff_prover]
    #[verifier::rlimit(60)]
    fn swap_seats(&mut self, i: usize, j: usize)
        requires
            old(self).wf(),
            i < old(self).slots@.len(),
            j < old(self).slots@.len(),
            i != j,
        ensures
            final(self).wf(),
            final(self).slots@ == old(self).slots@
                .update(i as int, ClericSlot { number: old(self).slots@[i as int].number, ..old(self).slots@[j as int] })
                .update(j as int, ClericSlot { number: old(self).slots@[j as int].number, ..old(self).slots@[i as int] }),
            *final(self) == (ChainState { slots: final(self).slots, ..*old(self) }),
    {
        let ghost o = self.slots@;
        let lo = if i < j { i } else { j };
        let hi = if i < j { j } else { i };
        let mut top = self.slots.remove(hi);
        let mut bottom = self.slots.remove(lo);
        let lo_number = bottom.number;
        let hi_number = top.number;
        top.number = lo_number;
        bottom.number = hi_number;
        self.slots.insert(lo, top);
        self.slots.insert(hi, bottom);
        proof {
            let r = self.slots@;
            let want = o.update(i as int, ClericSlot { number: o[i as int].number, ..o[j as int] })
                .update(j as int, ClericSlot { number: o[j as int].number, ..o[i as int] });
            assert(r =~= want);
            assert(ascending_seats(o));
            assert forall|a: int, b: int| 0 <= a < b < r.len() implies r[a].number < r[b].number by {
                assert(r[a].number == o[a].number);
                assert(r[b].number == o[b].number);
            }
        }
    }

    fn remap_current(&mut self, from: u32, to: u32)
        ensures
            final(self).current_number == swapped(old(self).current_number, from, to),
            final(self).tanks@.len() == old(self).tanks@.len(),
            forall|i: int| 0 <= i < old(self).tanks@.len() ==> #[trigger] final(self).tanks@[i] == (TankAssignment {
                current_number: swapped(old(self).tanks@[i].current_number, from, to),
                ..old(self).tanks@[i]
            }),
            *final(self) == (ChainState { current_number: final(self).current_number, tanks: final(self).tanks, ..*old(self) }),
    {
        self.current_number = if self.current_number == Some(from) {
            Some(to)
        } else if self.current_number == Some(to) {
            Some(from)
        } else {
            self.current_number
        };
        let mut i: usize = 0;
        while i < self.tanks.len()
            invariant
                i <= self.tanks@.len(),
                self.tanks@.len() == old(self).tanks@.len(),
                self.current_number == swapped(old(self).current_number, from, to),
                forall|k: int| 0 <= k < i ==> #[trigger] self.tanks@[k] == (TankAssignment {
                    current_number: swapped(old(self).tanks@[k].current_number, from, to),
                    ..old(self).tanks@[k]
                }),
                forall|k: int| i <= k < self.tanks@.len() ==> #[trigger] self.tanks@[k] == old(self).tanks@[k],
                *self == (ChainState { current_number: self.current_number, tanks: self.tanks, ..*old(self) }),
            decreases self.tanks@.len() - i,
        {
            let mut t = self.tanks.remove(i);
            t.current_number = if t.current_number == Some(from) {
                Some(to)
            } else if t.current_number == Some(to) {
                Some(from)
            } else {
                t.current_number
            };
            self.tanks.insert(i, t);
            i += 1;
        }
    }

    #[verifier::spinoff_prover]
    #[verifier::rlimit(80)]
    fn move_cmd(&mut self, from: u32, to: u32, now: u64) -> (r: Option<String>)
        requires
            old(self).wf(),
        ensures
            final(self).wf(),
            move_done(*old(self), *final(self), from, to, now, crate::command::opt_view(r)),
    {
        if from == to {
            return Some(String::from_str("Move needs two different numbers."));
        }
        let key = self.tank_key_for(from);
        let prev = self.running_current(&key, now);
        let fi = match self.find_slot(from) {
            Some(i) => i,
            None => return Some(self.not_set_message("Cannot move ", from)),
        };
        let ti = match self.find_slot(to) {
            Some(i) => i,
            None => return Some(self.not_set_message("Cannot move to ", to)),
        };
        let ghost s0 = *self;
        proof {
            lemma_slot_from(s0.slots@, from, 0);
            lemma_slot_from(s0.slots@, to, 0);
        }
        self.swap_seats(fi, ti);
        let ghost s1 = *self;
        proof {
            let o = s0.slots@;
            let r = s1.slots@;
            assert(ascending_seats(r));
            lemma_seat_at(r, fi as int);
            lemma_seat_at(r, ti as int);
            lemma_seat_at(o, fi as int);
            lemma_seat_at(o, ti as int);
            assert forall|m: u32| m != from && m != to implies #[trigger] s1.seat(m) == s0.seat(m) by {
                lemma_slot_from(o, m, 0);
                match slot_from(o, m, 0) {
                    Some(k) => {
                        lemma_seat_at(o, k);
                        lemma_seat_at(r, k);
                    },
                    None => {
                        assert forall|k: int| 0 <= k < r.len() implies #[trigger] r[k].number != m by {}
                        lemma_no_seat(r, m);
                    },
                }
            }
        }
        self.remap_current(from, to);
        let ghost s2 = *self;
        proof {
            assert(tanks_laid_same(s1.tanks@, s2.tanks@)) by {
                assert forall|k: int| 0 <= k < s1.tanks@.len() implies {
                    &&& #[trigger] s1.tanks@[k].name@ == s2.tanks@[k].name@
                    &&& s1.tanks@[k].from == s2.tanks@[k].from
                    &&& s1.tanks@[k].to == s2.tanks@[k].to
                } by {}
            }
            assert(tanks_laid_same(s0.tanks@, s2.tanks@));
        }
        if self.clock_running(&key) {
            let keep = match prev {
                Some(n) => if n == from { Some(to) } else if n == to { Some(from) } else { Some(n) },
                None => None,
            };
            self.keep_beat(&key, now, keep);
        }
        proof {
            let s3 = *self;
            assert(only_seats_clocks(s0, s2));
            lemma_only_clocks_seats(s2, s3);
            lemma_clock_but_current(s0, s2, key@);
            assert(clocks_but_current(s0, s2));
            assert(one_clock(s2, s3, key@));
            lemma_key_for_resolves(s0, from);
            lemma_beat_kept_on(s0, s2, s3, key@, swapped(prev, from, to), now);
            lemma_move_clocks(s0, s2, s3, key@, from, to, now, swapped(prev, from, to));
            assert(beat_kept_on(s0, s3, s0.key_for(from), swapped(s0.current_at(s0.key_for(from), now), from, to), now));
            assert forall|k: int| 0 <= k < s0.tanks@.len() implies {
                &&& #[trigger] s0.tanks@[k].name@ == s3.tanks@[k].name@
                &&& s0.tanks@[k].from == s3.tanks@[k].from
                &&& s0.tanks@[k].to == s3.tanks@[k].to
            } by {
                assert(s0.tanks@[k].name@ == s2.tanks@[k].name@);
            }
            assert forall|m: u32| #[trigger] s3.seat(m) == s1.seat(m) by {}
            assert(tanks_laid_same(s0.tanks@, s3.tanks@));
            assert(only_seats_clocks(s0, s3));
            assert(s3.seat(from) == Some(ClericSlot { number: from, ..s0.seat(to)->0 }));
            assert(s3.seat(to) == Some(ClericSlot { number: to, ..s0.seat(from)->0 }));
            assert(move_done(s0, s3, from, to, now, None));
        }
        None
    }

    fn reset_all(&mut self)
        ensures
            reset_done(*old(self), *final(self)),
    {
        self.slots = Vec::new();
        self.current_number = None;
        self.running = false;
        self.armed = false;
        self.started_at_ms = None;
        self.shout_sync = false;
        let mut i: usize = 0;
        while i < self.tanks.len()
            invariant
                i <= self.tanks@.len(),
                self.tanks@.len() == old(self).tanks@.len(),
                forall|k: int| 0 <= k < i ==> #[trigger] self.tanks@[k] == (TankAssignment {
                    running: false,
                    armed: false,
                    started_at_ms: None,
                    current_number: None,
                    shout_sync: false,
                    ..old(self).tanks@[k]
                }),
                forall|k: int| i <= k < self.tanks@.len() ==> #[trigger] self.tanks@[k] == old(self).tanks@[k],
                self.slots@.len() == 0,
                *self == (ChainState {
                    slots: self.slots,
                    current_number: None,
                    running: false,
                    armed: false,
                    started_at_ms: None,
                    shout_sync: false,
                    tanks: self.tanks,
                    ..*old(self)
                }),
            decreases self.tanks@.len() - i,
        {
            let mut t = self.tanks.remove(i);
            t.running = false;
            t.armed = false;
            t.started_at_ms = None;
            t.current_number = None;
            t.shout_sync = false;
            self.tanks.insert(i, t);
            i += 1;
        }
        self.clear_warning();
    }

    fn split_at(&mut self, number: u32) -> (r: Option<String>)
        ensures
            split_done(*old(self), *final(self), number, crate::command::opt_view(r)),
    {
        let ot: String = match &self.off_tank {
            Some(name) => name.clone(),
            None => return Some(String::from_str("Set the off tank first with !ot <tank>.")),
        };
        let mut i: usize = 0;
        while i < self.tanks.len()
            invariant
                i <= self.tanks@.len(),
                *self == *old(self),
                self.off_tank matches Some(o) && o@ == ot@,
                forall|k: int| 0 <= k < i ==> #[trigger] self.tanks@[k].is_off || eq_ci(self.tanks@[k].name@, ot@),
            decreases self.tanks@.len() - i,
        {
            if !self.tanks[i].is_off && !same_name(&self.tanks[i].name, &ot) {
                proof {
                    assert(other_tank_set(self.tanks@, ot@));
                }
                return Some(String::from_str("Split is for two tanks. Use !tank <name> <from> <to> for more."));
            }
            i += 1;
        }
        let ghost s0 = *self;
        let warning = self.assign_range(ot.clone(), number, 999);
        let ghost mid = *self;
        if let Some(k) = self.find_tank(&ot) {
            let mut t = self.tanks.remove(k);
            t.is_off = true;
            self.tanks.insert(k, t);
            proof {
                assert(self.tanks@ =~= mid.tanks@.update(k as int, TankAssignment { is_off: true, ..mid.tanks@[k as int] }));
            }
        }
        proof {
            assert(range_done(s0, mid, ot@, number, 999, crate::command::opt_view(warning)));
        }
        warning
    }

    /// Applies a chain command heard at `now`, after clearing a stale
    /// warning; a refusal comes back as text.
    #[verifier::spinoff_prover]
    #[verifier::rlimit(80)]
    pub fn apply_command_at(&mut self, cmd: crate::command::ChainCommand, speaker: String, now: u64) -> (r: Option<String>)
        requires
            old(self).wf(),
        ensures
            final(self).wf(),
            command_done(*old(self), *final(self), cmd@, speaker@, now, crate::command::opt_view(r)),
    {
        self.clear_stale_warning_at(now);
        match cmd {
            crate::command::ChainCommand::MainTank { tank } => {
                self.tank = Some(tank);
                None
            },
            crate::command::ChainCommand::OffTank { tank } => self.set_off_tank(tank),
            crate::command::ChainCommand::Split { number } => {
                self.split_at(number)
            },
            crate::command::ChainCommand::TankRange { tank, from, to } => self.assign_range(tank, from, to),
            crate::command::ChainCommand::Untank { tank } => self.remove_tank(&tank),
            crate::command::ChainCommand::Skip { number } => self.skip_cmd(number, &speaker, now),
            crate::command::ChainCommand::Back { number } => self.back_cmd(number, &speaker, now),
            crate::command::ChainCommand::ResetChain => {
                self.reset_all();
                None
            },
            crate::command::ChainCommand::Take { number, player } => {
                self.take_slot(Some(number), player, speaker, now);
                None
            },
            crate::command::ChainCommand::TakeNext { player } => {
                self.take_slot(None, player, speaker, now);
                None
            },
            crate::command::ChainCommand::Move { from, to } => self.move_cmd(from, to, now),
            crate::command::ChainCommand::ChainInterval { millis, tank } => self.set_interval(millis, &tank, now),
            crate::command::ChainCommand::StartChain { tank } => self.start_chains(&tank, now),
            crate::command::ChainCommand::EndChain { tank } => self.stop_chains(&tank),
        }
    }
}

/// One seat as the panel shows it. Times are milliseconds; a bar's fill is
/// `remaining_ms` over `span_ms` (none when the span is zero), and the cast
/// bar's is `cast_remaining_ms` over the chain's cast time.
#[derive(Debug)]
pub struct SlotSnapshot {
    pub number: u32,
    pub player: String,
    pub target: Option<String>,
    pub skipped: bool,
    pub is_you: bool,
    pub is_current: bool,
    pub is_next: bool,
    pub remaining_ms: u64,
    pub span_ms: u64,
    pub last_shout_ms: Option<u64>,
    pub last_cast_ms: Option<u64>,
    pub cast_remaining_ms: u64,
    pub offset_ms: Option<i64>,
    pub tank: Option<String>,
}

/// One rotation's clock as the panel shows it.
#[derive(Debug)]
pub struct TankSnapshot {
    pub name: String,
    pub from: Option<u32>,
    pub to: Option<u32>,
    pub interval_ms: u64,
    pub running: bool,
    pub started_at_ms: Option<u64>,
    pub current_number: Option<u32>,
    pub next_number: Option<u32>,
    pub beat_tick: Option<u64>,
    pub is_you: bool,
    pub armed: bool,
}

/// The whole chain as the panel shows it at `now_ms`.
#[derive(Debug)]
pub struct ChainSnapshot {
    pub tank: Option<String>,
    pub your_tank: Option<String>,
    pub interval_ms: u64,
    pub cast_time_ms: u64,
    pub your_name: Option<String>,
    pub current_number: Option<u32>,
    pub next_number: Option<u32>,
    pub you_are_next_in_ms: Option<u64>,
    pub you_cast_in_ms: Option<u64>,
    pub you_last_offset_ms: Option<i64>,
    pub running: bool,
    pub armed: bool,
    pub started_at_ms: Option<u64>,
    pub beat_tick: Option<u64>,
    pub warning: Option<String>,
    pub warning_urgent: bool,
    pub warning_kind: WarningKind,
    pub warning_speech: Option<String>,
    pub tanks: Vec<TankSnapshot>,
    pub slots: Vec<SlotSnapshot>,
    pub slot_format: SlotFormat,
    pub now_ms: u64,
}

/// What is left of a cast started at `at`, none when no cast started.
pub open spec fn cast_left(at: Option<u64>, cast_ms: u64, now: u64) -> u64 {
    match at {
        Some(t) => sat_sub(cast_ms, sat_sub(now, t)),
        None => 0,
    }
}

/// Time until seat `number`'s next turn on a running clock, and the span of
/// one full round; nothing when the seat is not on the rotation.
pub open spec fn until_turn(r: Seq<u32>, b: BeatView, number: u32, now: u64) -> (u64, u64) {
    match pos_from(r, number, 0) {
        None => (0, 0),
        Some(idx) => {
            let n = r.len() as u64;
            let current_idx = b.ticks % n;
            let raw = ((idx + n - current_idx) % (n as int)) as u64;
            let steps: u64 = if raw == 0 { n } else { raw };
            let next_beat = sat_add(b.start, sat_mul(sat_add(b.ticks, steps), b.interval_ms));
            (sat_sub(next_beat, now), sat_mul(b.interval_ms, n))
        },
    }
}

/// The number of the seat you hold.
pub open spec fn your_seat(s: ChainState) -> Option<u32> {
    held_by(s, "You"@)
}

/// The rotation the panel follows: yours, else the main tank's.
pub open spec fn view_key(s: ChainState) -> Option<Seq<char>> {
    match your_seat(s) {
        Some(n) => s.key_for(n),
        None => None,
    }
}

/// The seat whose turn it is on `key`, and the one after.
pub open spec fn turn_of(s: ChainState, key: Option<Seq<char>>, now: u64) -> (Option<u32>, Option<u32>) {
    match s.beat_at(key, now) {
        Some(b) => (Some(b.current), Some(b.next)),
        None => {
            let cur = s.current_of(key);
            (cur, match cur {
                Some(c) => spec_next_in_rotation(s.rotation(key), c),
                None => None,
            })
        },
    }
}

/// Time until you cast: on a solo clock the cast time from your last cast
/// or the start, on a running rotation the time to your next turn, and with
/// no clock the rest of the interval since the seat before yours shouted.
pub open spec fn you_cast_in(s: ChainState, now: u64) -> Option<u64> {
    match your_seat(s) {
        None => None,
        Some(number) => {
            let key = s.key_for(number);
            let me = s.seat(number)->0;
            if me.skipped {
                None
            } else {
                match s.beat_at(view_key(s), now) {
                    Some(b) => {
                        let r = s.rotation(view_key(s));
                        if r.len() <= 1 {
                            Some(cast_left(Some(spec_countdown_origin(me.last_shout_ms, me.last_actual_ms, b.start)), s.cast_time_ms, now))
                        } else if !r.contains(number) {
                            None
                        } else {
                            Some(until_turn(r, b, number, now).0)
                        }
                    },
                    None => match s.current_of(key) {
                        None => None,
                        Some(c) => match spec_next_in_rotation(s.rotation(key), c) {
                            None => None,
                            Some(nx) => if nx != number {
                                None
                            } else {
                                match s.seat(c) {
                                    None => None,
                                    Some(cs) => match cs.last_shout_ms {
                                        None => None,
                                        Some(t) => Some(sat_sub(s.interval_of(key), sat_sub(now, t))),
                                    },
                                }
                            },
                        },
                    },
                }
            }
        },
    }
}

/// How a seat shows: its bar, whose turn, its cast bar.
pub open spec fn slot_shown(s: ChainState, x: ClericSlot, now: u64, out: SlotSnapshot) -> bool {
    let key = s.key_for(x.number);
    let b = s.beat_at(key, now);
    let r = s.rotation(key);
    let bar: (u64, u64) = if x.skipped {
        (0, 0)
    } else {
        match b {
            Some(bv) => if r.len() <= 1 {
                (cast_left(Some(spec_countdown_origin(x.last_shout_ms, x.last_actual_ms, bv.start)), s.cast_time_ms, now), s.cast_time_ms)
            } else {
                until_turn(r, bv, x.number, now)
            },
            None => (cast_left(x.last_shout_ms, s.cast_time_ms, now), s.cast_time_ms),
        }
    };
    let (cur, nx) = turn_of(s, key, now);
    let cast_at = match (x.last_shout_ms, x.last_actual_ms) {
        (Some(a), Some(c)) => Some(if a > c { a } else { c }),
        (Some(a), None) => Some(a),
        (None, Some(c)) => Some(c),
        (None, None) => None,
    };
    &&& out.number == x.number
    &&& out.player@ == x.player@
    &&& crate::command::opt_view(out.target) == crate::command::opt_view(x.target)
    &&& out.skipped == x.skipped
    &&& out.is_you == s.is_you_name(x.player@)
    &&& out.is_current == (cur == Some(x.number))
    &&& out.is_next == (nx == Some(x.number) && cur != Some(x.number))
    &&& out.remaining_ms == bar.0
    &&& out.span_ms == bar.1
    &&& out.last_shout_ms == x.last_shout_ms
    &&& out.last_cast_ms == cast_at
    &&& out.cast_remaining_ms == cast_left(cast_at, s.cast_time_ms, now)
    &&& out.offset_ms == x.last_offset_ms
    &&& crate::command::opt_view(out.tank) == Some(display_of(s, key))
}

/// The seats the panel lists: those of your rotation when you hold a seat,
/// else all of them.
pub open spec fn shown(s: ChainState, slots: Seq<ClericSlot>) -> Seq<ClericSlot>
    decreases slots.len(),
{
    if slots.len() == 0 {
        Seq::empty()
    } else {
        let r = shown(s, slots.drop_last());
        let x = slots.last();
        if your_seat(s) is None || s.key_for(x.number) == view_key(s) {
            r.push(x)
        } else {
            r
        }
    }
}

/// How a rotation's clock shows.
pub open spec fn tank_shown(s: ChainState, key: Option<Seq<char>>, now: u64, out: TankSnapshot) -> bool {
    let (cur, nx) = turn_of(s, key, now);
    let range: (Option<u32>, Option<u32>) = match key {
        None => (None, None),
        Some(_) => match s.tank_of(key) {
            Some(i) => (Some(s.tanks@[i].from), Some(s.tanks@[i].to)),
            None => (None, None),
        },
    };
    &&& out.name@ == display_of(s, key)
    &&& out.from == range.0
    &&& out.to == range.1
    &&& out.interval_ms == s.interval_of(key)
    &&& out.running == s.running_of(key)
    &&& out.armed == s.armed_of(key)
    &&& out.started_at_ms == s.started_of(key)
    &&& out.current_number == cur
    &&& out.next_number == nx
    &&& out.beat_tick == match s.beat_at(key, now) {
        Some(b) => Some(b.ticks),
        None => None,
    }
    &&& out.is_you == (your_seat(s) is Some && view_key(s) == key)
}

/// The rotations the panel lists: the main tank's, then each tank's.
pub open spec fn all_keys(s: ChainState) -> Seq<Option<Seq<char>>> {
    seq![None] + Seq::new(s.tanks@.len(), |i: int| Some(s.tanks@[i].name@))
}

/// A warning still showing at `now`.
pub open spec fn live_warning(s: ChainState, now: u64) -> bool {
    s.warning is Some && !(sat_sub(now, match s.warning_at_ms { Some(t) => t, None => now }) > WARNING_STALE_MS)
}

/// The whole snapshot.
pub open spec fn snapshot_shows(s: ChainState, now: u64, out: ChainSnapshot) -> bool {
    let view = view_key(s);
    let (cur, nx) = turn_of(s, view, now);
    let cast_in = you_cast_in(s, now);
    let live = live_warning(s, now);
    let list = shown(s, s.slots@);
    &&& crate::command::opt_view(out.tank) == Some(display_of(s, view))
    &&& crate::command::opt_view(out.your_tank) == match your_seat(s) {
        Some(_) => Some(display_of(s, view)),
        None => None,
    }
    &&& out.interval_ms == s.interval_of(view)
    &&& out.cast_time_ms == s.cast_time_ms
    &&& crate::command::opt_view(out.your_name) == crate::command::opt_view(s.your_name)
    &&& out.current_number == cur
    &&& out.next_number == nx
    &&& out.you_cast_in_ms == cast_in
    &&& out.you_are_next_in_ms == match nx {
        Some(n) => match s.seat(n) {
            Some(x) => if s.is_you_name(x.player@) { cast_in } else { None },
            None => None,
        },
        None => None,
    }
    &&& out.you_last_offset_ms == match your_seat(s) {
        Some(n) => match s.seat(n) {
            Some(x) => x.last_offset_ms,
            None => None,
        },
        None => None,
    }
    &&& out.running == s.running_of(view)
    &&& out.armed == s.armed_of(view)
    &&& out.started_at_ms == s.started_of(view)
    &&& out.beat_tick == match s.beat_at(view, now) {
        Some(b) => Some(b.ticks),
        None => None,
    }
    &&& crate::command::opt_view(out.warning) == if live { crate::command::opt_view(s.warning) } else { None }
    &&& out.warning_urgent == (live && s.warning_urgent)
    &&& out.warning_kind == if live { s.warning_kind } else { WarningKind::Other }
    &&& crate::command::opt_view(out.warning_speech) == if live { crate::command::opt_view(s.warning_speech) } else { None }
    &&& out.slot_format == s.slot_format
    &&& out.now_ms == now
    &&& out.slots@.len() == list.len()
    &&& forall|i: int| 0 <= i < list.len() ==> slot_shown(s, #[trigger] list[i], now, out.slots@[i])
    &&& out.tanks@.len() == all_keys(s).len()
    &&& forall|i: int| 0 <= i < all_keys(s).len() ==> tank_shown(s, #[trigger] all_keys(s)[i], now, out.tanks@[i])
}

/// What is left of a cast started at `at`, in milliseconds.
pub fn remaining_cast(at: Option<u64>, cast_ms: u64, now: u64) -> (r: u64)
    ensures
        r == cast_left(at, cast_ms, now),
{
    match at {
        Some(t) => cast_ms.saturating_sub(now.saturating_sub(t)),
        None => 0,
    }
}

fn until_turn_ms(beat: &Beat, number: u32, now: u64) -> (r: (u64, u64))
    ensures
        r == until_turn(beat.rotation@, beat.parts(), number, now),
{
    let idx = match position(&beat.rotation, number) {
        Some(i) => i,
        None => return (0, 0),
    };
    proof {
        lemma_pos_from(beat.rotation@, number, 0);
    }
    let n = beat.rotation.len() as u64;
    let current_idx = beat.ticks % n;
    let idx64 = idx as u64;
    let raw = if idx64 >= current_idx {
        let x = idx64 - current_idx;
        proof {
            vstd::arithmetic::div_mod::lemma_fundamental_div_mod_converse((x + n) as int, n as int, 1, x as int);
        }
        x
    } else {
        let x = idx64 + (n - current_idx);
        proof {
            vstd::arithmetic::div_mod::lemma_small_mod(x as nat, n as nat);
        }
        x
    };
    let steps = if raw == 0 { n } else { raw };
    let next_beat = beat.start.saturating_add(mul_sat(beat.ticks.saturating_add(steps), beat.interval_ms));
    (next_beat.saturating_sub(now), mul_sat(beat.interval_ms, n))
}

impl ChainState {
    fn turn_for(&self, key: &TankKey, now: u64) -> (r: (Option<u32>, Option<u32>))
        ensures
            r == turn_of(*self, key@, now),
    {
        match self.beat_for(key, now) {
            Some(b) => (Some(b.current), Some(b.next)),
            None => {
                let cur = self.clock_current(key);
                let nx = match cur {
                    Some(c) => self.next_after_in(key, c),
                    None => None,
                };
                (cur, nx)
            },
        }
    }

    fn your_slot_number(&self) -> (r: Option<u32>)
        ensures
            r == your_seat(*self),
    {
        let you = String::from_str("You");
        self.slot_number_for_player(&you)
    }

    fn view_key(&self) -> (k: TankKey)
        ensures
            k@ == view_key(*self),
    {
        match self.your_slot_number() {
            Some(n) => self.tank_key_for(n),
            None => TankKey::Main,
        }
    }

    fn seat_ref(&self, n: u32) -> (r: Option<usize>)
        ensures
            match r {
                Some(i) => i < self.slots@.len() && self.seat(n) == Some(self.slots@[i as int]),
                None => self.seat(n) is None,
            },
    {
        let r = self.find_slot(n);
        proof {
            lemma_slot_from(self.slots@, n, 0);
        }
        r
    }

    fn you_cast_in(&self, now: u64) -> (r: Option<u64>)
        ensures
            r == you_cast_in(*self, now),
    {
        let number = match self.your_slot_number() {
            Some(n) => n,
            None => return None,
        };
        let mi = match self.seat_ref(number) {
            Some(i) => i,
            None => {
                proof {
                    lemma_holder_seat(*self, "You"@);
                }
                return None;
            },
        };
        if self.slots[mi].skipped {
            return None;
        }
        let key = self.tank_key_for(number);
        let view = self.view_key();
        match self.beat_for(&view, now) {
            Some(b) => {
                if b.rotation.len() <= 1 {
                    let origin = countdown_origin(self.slots[mi].last_shout_ms, self.slots[mi].last_actual_ms, b.start);
                    return Some(remaining_cast(Some(origin), self.cast_time_ms, now));
                }
                if !has_u32(&b.rotation, number) {
                    return None;
                }
                let (rem, _span) = until_turn_ms(&b, number, now);
                Some(rem)
            },
            None => {
                let current = match self.clock_current(&key) {
                    Some(c) => c,
                    None => return None,
                };
                let next = match self.next_after_in(&key, current) {
                    Some(x) => x,
                    None => return None,
                };
                if next != number {
                    return None;
                }
                let ci = match self.seat_ref(current) {
                    Some(i) => i,
                    None => return None,
                };
                let shouted = match self.slots[ci].last_shout_ms {
                    Some(t) => t,
                    None => return None,
                };
                Some(self.interval_for(&key).saturating_sub(now.saturating_sub(shouted)))
            },
        }
    }

    fn slot_snapshot(&self, i: usize, now: u64) -> (out: SlotSnapshot)
        requires
            i < self.slots@.len(),
        ensures
            slot_shown(*self, self.slots@[i as int], now, out),
    {
        let number = self.slots[i].number;
        let key = self.tank_key_for(number);
        let skipped = self.slots[i].skipped;
        let beat = self.beat_for(&key, now);
        let (remaining, span) = if skipped {
            (0, 0)
        } else {
            match &beat {
                Some(b) => if b.rotation.len() <= 1 {
                    let origin = countdown_origin(self.slots[i].last_shout_ms, self.slots[i].last_actual_ms, b.start);
                    (remaining_cast(Some(origin), self.cast_time_ms, now), self.cast_time_ms)
                } else {
                    until_turn_ms(b, number, now)
                },
                None => (remaining_cast(self.slots[i].last_shout_ms, self.cast_time_ms, now), self.cast_time_ms),
            }
        };
        let (cur, nx) = self.turn_for(&key, now);
        let cast_at = cast_started_ms(self.slots[i].last_shout_ms, self.slots[i].last_actual_ms);
        let cast_remaining = remaining_cast(cast_at, self.cast_time_ms, now);
        let target = match &self.slots[i].target {
            Some(t) => Some(t.clone()),
            None => None,
        };
        SlotSnapshot {
            number,
            player: self.slots[i].player.clone(),
            target,
            skipped,
            is_you: self.is_you(&self.slots[i].player),
            is_current: cur == Some(number),
            is_next: nx == Some(number) && cur != Some(number),
            remaining_ms: remaining,
            span_ms: span,
            last_shout_ms: self.slots[i].last_shout_ms,
            last_cast_ms: cast_at,
            cast_remaining_ms: cast_remaining,
            offset_ms: self.slots[i].last_offset_ms,
            tank: Some(self.display_name(&key)),
        }
    }

    fn tank_snapshot(&self, key: &TankKey, now: u64) -> (out: TankSnapshot)
        ensures
            tank_shown(*self, key@, now, out),
    {
        let (cur, nx) = self.turn_for(key, now);
        let (from, to) = match key {
            TankKey::Main => (None, None),
            TankKey::Named(_) => match self.tank_index(key) {
                Some(i) => (Some(self.tanks[i].from), Some(self.tanks[i].to)),
                None => (None, None),
            },
        };
        let beat_tick = match self.beat_for(key, now) {
            Some(b) => Some(b.ticks),
            None => None,
        };
        let mine = match self.your_slot_number() {
            Some(_) => {
                let v = self.view_key();
                same_key(&v, key)
            },
            None => false,
        };
        TankSnapshot {
            name: self.display_name(key),
            from,
            to,
            interval_ms: self.interval_for(key),
            running: self.clock_running(key),
            started_at_ms: self.clock_started(key),
            current_number: cur,
            next_number: nx,
            beat_tick,
            is_you: mine,
            armed: self.clock_armed(key),
        }
    }

    /// The chain as the panel shows it at `now`.
    pub fn snapshot_at(&self, now: u64) -> (out: ChainSnapshot)
        ensures
            snapshot_shows(*self, now, out),
    {
        let view = self.view_key();
        let focused = self.your_slot_number().is_some();
        let (cur, nx) = self.turn_for(&view, now);
        let beat_tick = match self.beat_for(&view, now) {
            Some(b) => Some(b.ticks),
            None => None,
        };
        let cast_in = self.you_cast_in(now);
        let next_in = match nx {
            Some(n) => match self.seat_ref(n) {
                Some(k) => if self.is_you(&self.slots[k].player) { cast_in } else { None },
                None => None,
            },
            None => None,
        };
        let last_offset = match self.your_slot_number() {
            Some(n) => match self.seat_ref(n) {
                Some(k) => self.slots[k].last_offset_ms,
                None => None,
            },
            None => None,
        };
        let mut slots: Vec<SlotSnapshot> = Vec::new();
        let ghost listed: Seq<ClericSlot> = Seq::empty();
        let mut i: usize = 0;
        while i < self.slots.len()
            invariant
                i <= self.slots@.len(),
                focused == (your_seat(*self) is Some),
                view@ == view_key(*self),
                slots@.len() == shown(*self, self.slots@.take(i as int)).len(),
                forall|k: int| 0 <= k < slots@.len() ==> slot_shown(*self, #[trigger] shown(*self, self.slots@.take(i as int))[k], now, slots@[k]),
            decreases self.slots@.len() - i,
        {
            let k = self.tank_key_for(self.slots[i].number);
            let ghost pre = shown(*self, self.slots@.take(i as int));
            proof {
                assert(self.slots@.take(i + 1).drop_last() =~= self.slots@.take(i as int));
                assert(self.slots@.take(i + 1).last() == self.slots@[i as int]);
            }
            if !focused || same_key(&k, &view) {
                let snap = self.slot_snapshot(i, now);
                slots.push(snap);
                proof {
                    assert(shown(*self, self.slots@.take(i + 1)) == pre.push(self.slots@[i as int]));
                    assert forall|q: int| 0 <= q < slots@.len() implies slot_shown(*self, #[trigger] shown(*self, self.slots@.take(i + 1))[q], now, slots@[q]) by {
                        if q < pre.len() {
                            assert(shown(*self, self.slots@.take(i + 1))[q] == pre[q]);
                        }
                    }
                }
            } else {
                proof {
                    assert(shown(*self, self.slots@.take(i + 1)) == pre);
                }
            }
            i += 1;
        }
        proof {
            assert(self.slots@.take(i as int) =~= self.slots@);
        }
        let mut tanks: Vec<TankSnapshot> = Vec::new();
        let main = TankKey::Main;
        tanks.push(self.tank_snapshot(&main, now));
        let mut j: usize = 0;
        while j < self.tanks.len()
            invariant
                j <= self.tanks@.len(),
                tanks@.len() == j + 1,
                forall|q: int| 0 <= q < tanks@.len() ==> tank_shown(*self, #[trigger] all_keys(*self)[q], now, tanks@[q]),
            decreases self.tanks@.len() - j,
        {
            let key = TankKey::Named(self.tanks[j].name.clone());
            let snap = self.tank_snapshot(&key, now);
            tanks.push(snap);
            proof {
                assert(all_keys(*self)[j + 1] == key@);
            }
            j += 1;
        }
        let live = match &self.warning {
            Some(_) => {
                let at = match self.warning_at_ms {
                    Some(t) => t,
                    None => now,
                };
                !(now.saturating_sub(at) > WARNING_STALE_MS)
            },
            None => false,
        };
        let warning = if live { copy_opt(&self.warning) } else { None };
        let speech = if live { copy_opt(&self.warning_speech) } else { None };
        let your_tank = match self.your_slot_number() {
            Some(_) => Some(self.display_name(&view)),
            None => None,
        };
        ChainSnapshot {
            tank: Some(self.display_name(&view)),
            your_tank,
            interval_ms: self.interval_for(&view),
            cast_time_ms: self.cast_time_ms,
            your_name: copy_opt(&self.your_name),
            current_number: cur,
            next_number: nx,
            you_are_next_in_ms: next_in,
            you_cast_in_ms: cast_in,
            you_last_offset_ms: last_offset,
            running: self.clock_running(&view),
            armed: self.clock_armed(&view),
            started_at_ms: self.clock_started(&view),
            beat_tick,
            warning,
            warning_urgent: live && self.warning_urgent,
            warning_kind: if live { self.warning_kind } else { WarningKind::Other },
            warning_speech: speech,
            tanks,
            slots,
            slot_format: self.slot_format,
            now_ms: now,
        }
    }
}

fn copy_opt(a: &Option<String>) -> (r: Option<String>)
    ensures
        crate::command::opt_view(r) == crate::command::opt_view(*a),
{
    match a {
        Some(s) => Some(s.clone()),
        None => None,
    }
}

proof fn lemma_holder_seat(s: ChainState, p: Seq<char>)
    ensures
        held_by(s, p) matches Some(n) ==> s.seat(n) is Some,
{
    lemma_holder_from(s.slots@, s.your_name, p, 0);
    if let Some(i) = holder_from(s.slots@, s.your_name, p, 0) {
        let n = s.slots@[i].number;
        lemma_slot_from(s.slots@, n, 0);
    }
}

proof fn lemma_holder_from(slots: Seq<ClericSlot>, your: Option<String>, p: Seq<char>, i: int)
    requires
        0 <= i <= slots.len(),
    ensures
        holder_from(slots, your, p, i) matches Some(k) ==> i <= k < slots.len(),
    decreases slots.len() - i,
{
    if i < slots.len() && !same_in(your, slots[i].player@, p) {
        lemma_holder_from(slots, your, p, i + 1);
    }
}


// ------------------------------------------------------------ what is listed

/// Whether the panel lists seat `x`: with a seat of yours, those of your
/// rotation; else every seat.
#[verifier::opaque]
pub open spec fn listed(s: ChainState, x: ClericSlot) -> bool {
    your_seat(s) is None || s.key_for(x.number) == view_key(s)
}

proof fn lemma_shown_filter(s: ChainState, slots: Seq<ClericSlot>)
    ensures
        shown(s, slots) == slots.filter(|x: ClericSlot| listed(s, x)),
    decreases slots.len(),
{
    reveal(listed);
    reveal_with_fuel(Seq::<ClericSlot>::filter, 1);
    if slots.len() > 0 {
        lemma_shown_filter(s, slots.drop_last());
    }
}

proof fn lemma_holder_first(slots: Seq<ClericSlot>, your: Option<String>, p: Seq<char>, i: int)
    requires
        0 <= i,
    ensures
        holder_from(slots, your, p, i) matches Some(k) ==> {
            &&& i <= k < slots.len()
            &&& same_in(your, slots[k].player@, p)
            &&& forall|j: int| i <= j < k ==> !same_in(your, #[trigger] slots[j].player@, p)
        },
        holder_from(slots, your, p, i) is None ==> forall|j: int|
            i <= j < slots.len() ==> !same_in(your, #[trigger] slots[j].player@, p),
    decreases slots.len() - i,
{
    if i < slots.len() && !same_in(your, slots[i].player@, p) {
        lemma_holder_first(slots, your, p, i + 1);
    }
}

/// A snapshot lists seats of the chain in ascending order: with a seat of
/// yours, exactly the seats on the rotation of the lowest seat you hold, with
/// that rotation's tank shown as yours; with none, every seat and no tank of
/// your own.
#[verifier::rlimit(40)]
pub proof fn lemma_snapshot_lists(s: ChainState, now: u64, out: ChainSnapshot)
    requires
        s.wf(),
        snapshot_shows(s, now, out),
    ensures
        forall|i: int, j: int| 0 <= i < j < out.slots@.len() ==> out.slots@[i].number < out.slots@[j].number,
        forall|i: int|
            0 <= i < out.slots@.len() ==> exists|j: int|
                #![trigger s.slots@[j]]
                0 <= j < s.slots@.len() && s.slots@[j].number == #[trigger] out.slots@[i].number && listed(
                    s,
                    s.slots@[j],
                ),
        forall|j: int|
            0 <= j < s.slots@.len() && listed(s, #[trigger] s.slots@[j]) ==> exists|i: int|
                0 <= i < out.slots@.len() && out.slots@[i].number == s.slots@[j].number,
        your_seat(s) matches Some(y) ==> forall|j: int|
            0 <= j < s.slots@.len() && same_in(s.your_name, #[trigger] s.slots@[j].player@, "You"@) ==> y
                <= s.slots@[j].number,
        your_seat(s) matches Some(y) ==> view_key(s) == s.key_for(y) && crate::command::opt_view(out.your_tank)
            == Some(display_of(s, s.key_for(y))),
        your_seat(s) is None ==> out.your_tank is None,
        your_seat(s) matches Some(y) ==> forall|i: int|
            0 <= i < out.slots@.len() ==> crate::command::opt_view(#[trigger] out.slots@[i].tank) == Some(
                display_of(s, s.key_for(y)),
            ),
{
    let list = shown(s, s.slots@);
    let keep = |x: ClericSlot| listed(s, x);
    let key = |x: ClericSlot| x.number as int;
    lemma_shown_filter(s, s.slots@);
    assert(list == s.slots@.filter(keep));
    crate::text::lemma_filter_ascending(s.slots@, key, keep);
    lemma_holder_first(s.slots@, s.your_name, "You"@, 0);
    assert forall|i: int| 0 <= i < out.slots@.len() implies #[trigger] out.slots@[i].number == list[i].number by {
        assert(slot_shown(s, list[i], now, out.slots@[i]));
    }
    assert forall|i: int, j: int| 0 <= i < j < out.slots@.len() implies out.slots@[i].number
        < out.slots@[j].number by {
        assert(out.slots@[i].number == list[i].number);
        assert(out.slots@[j].number == list[j].number);
        assert(key(list[i]) < key(list[j]));
    }
    assert forall|j: int| 0 <= j < s.slots@.len() && listed(s, #[trigger] s.slots@[j]) implies exists|i: int|
        0 <= i < out.slots@.len() && out.slots@[i].number == s.slots@[j].number by {
        assert(keep(s.slots@[j]));
        s.slots@.lemma_filter_contains(keep, j);
        let k = choose|k: int| 0 <= k < list.len() && list[k] == s.slots@[j];
        assert(out.slots@[k].number == list[k].number);
    }
    if let Some(y) = your_seat(s) {
        assert forall|i: int| 0 <= i < out.slots@.len() implies crate::command::opt_view(#[trigger] out.slots@[i].tank)
            == Some(display_of(s, s.key_for(y))) by {
            assert(slot_shown(s, list[i], now, out.slots@[i]));
            s.slots@.lemma_filter_pred(keep, i);
            reveal(listed);
        }
        let k = holder_from(s.slots@, s.your_name, "You"@, 0)->0;
        assert forall|j: int| 0 <= j < s.slots@.len() && same_in(s.your_name, #[trigger] s.slots@[j].player@, "You"@)
            implies y <= s.slots@[j].number by {
            if j < k {
                assert(!same_in(s.your_name, s.slots@[j].player@, "You"@));
            } else if j > k {
                assert(s.slots@[k].number < s.slots@[j].number);
            }
        }
    }
    assert forall|i: int| 0 <= i < out.slots@.len() implies exists|j: int|
        #![trigger s.slots@[j]]
        0 <= j < s.slots@.len() && s.slots@[j].number == #[trigger] out.slots@[i].number && listed(s, s.slots@[j]) by {
        assert(out.slots@[i].number == list[i].number);
        assert(list.contains(list[i]));
        s.slots@.lemma_filter_contains_rev(keep, list[i]);
        s.slots@.lemma_filter_pred(keep, i);
        let j = choose|j: int| 0 <= j < s.slots@.len() && s.slots@[j] == list[i];
    }
}

/// The wall clock in milliseconds since the Unix epoch, zero if the clock
/// reads before it. `SystemTime::now` read through `duration_since`; the
/// time is the machine's, so nothing is promised of the value.
#[verifier::external_body]
fn now_ms() -> (t: u64) {
    std::time::SystemTime::now()
        .duration_since(std::time::UNIX_EPOCH)
        .map(|d| d.as_millis() as u64)
        .unwrap_or(0)
}

/// A player's name after you become `name`: `You` and your old name are
/// now `name`.
pub open spec fn renamed(old_your: Option<String>, name: Seq<char>, player: Seq<char>) -> Seq<char> {
    if player == "You"@ || (old_your matches Some(o) && eq_ci(o@, player)) {
        name
    } else {
        player
    }
}

/// `b` is `a` once you are named `name`: nothing changes if you already
/// were; else seats held by `You` or by your old name pass to `name`.
pub open spec fn named_you(a: ChainState, b: ChainState, name: Seq<char>) -> bool {
    if a.your_name matches Some(n) && n@ == name {
        b == a
    } else {
        &&& b.your_name matches Some(n) && n@ == name
        &&& b.slots@.len() == a.slots@.len()
        &&& forall|i: int| 0 <= i < a.slots@.len() ==> {
            &&& (#[trigger] b.slots@[i]).player@ == renamed(a.your_name, name, a.slots@[i].player@)
            &&& b.slots@[i] == (ClericSlot { player: b.slots@[i].player, ..a.slots@[i] })
        }
        &&& b == (ChainState { your_name: b.your_name, slots: b.slots, ..a })
    }
}

impl ChainState {
    /// An empty chain with no tanks, no seats and no clock.
    pub fn new(interval_ms: u64, cast_time_ms: u64) -> (s: Self)
        ensures
            s.wf(),
            s.slots@.len() == 0,
            s.tanks@.len() == 0,
            s.tank is None && s.off_tank is None && s.your_name is None,
            s.interval_ms == interval_ms,
            s.cast_time_ms == cast_time_ms,
            s.current_number is None && !s.running && s.started_at_ms is None,
            no_warning(s),
            s.slot_format == SlotFormat::Number,
            !s.shout_sync && !s.armed,
    {
        ChainState {
            tank: None,
            off_tank: None,
            interval_ms,
            cast_time_ms,
            your_name: None,
            slots: Vec::new(),
            current_number: None,
            running: false,
            started_at_ms: None,
            tanks: Vec::new(),
            warning: None,
            warning_at_ms: None,
            warning_urgent: false,
            warning_kind: WarningKind::Other,
            warning_speech: None,
            slot_format: SlotFormat::Number,
            shout_sync: false,
            armed: false,
        }
    }

    /// An empty rampage chain: the same, with letter slots.
    pub fn new_rampage(interval_ms: u64, cast_time_ms: u64) -> (s: Self)
        ensures
            s.wf(),
            s.slots@.len() == 0,
            s.tanks@.len() == 0,
            s.tank is None && s.off_tank is None && s.your_name is None,
            s.interval_ms == interval_ms,
            s.cast_time_ms == cast_time_ms,
            s.current_number is None && !s.running && s.started_at_ms is None,
            no_warning(s),
            s.slot_format == SlotFormat::Letter,
            !s.shout_sync && !s.armed,
    {
        let mut chain = Self::new(interval_ms, cast_time_ms);
        chain.slot_format = SlotFormat::Letter;
        chain
    }

    /// Names the character this Alfred reads: seats held by `You` or by the
    /// old name pass to the new one.
    pub fn set_your_name(&mut self, name: String)
        requires
            old(self).wf(),
        ensures
            final(self).wf(),
            named_you(*old(self), *final(self), name@),
    {
        if let Some(n) = &self.your_name {
            if exact_name(n, &name) {
                return;
            }
        }
        let prev: Option<String> = copy_opt(&self.your_name);
        let ghost old_your = self.your_name;
        let mut i: usize = 0;
        while i < self.slots.len()
            invariant
                i <= self.slots@.len(),
                self.slots@.len() == old(self).slots@.len(),
                crate::command::opt_view(prev) == crate::command::opt_view(old_your),
                old_your == old(self).your_name,
                forall|k: int| 0 <= k < i ==> {
                    &&& (#[trigger] self.slots@[k]).player@ == renamed(old_your, name@, old(self).slots@[k].player@)
                    &&& self.slots@[k] == (ClericSlot { player: self.slots@[k].player, ..old(self).slots@[k] })
                },
                forall|k: int| i <= k < self.slots@.len() ==> #[trigger] self.slots@[k] == old(self).slots@[k],
                *self == (ChainState { slots: self.slots, ..*old(self) }),
            decreases self.slots@.len() - i,
        {
            let rename = text_is(&self.slots[i].player, "You") || match &prev {
                Some(o) => same_name(o, &self.slots[i].player),
                None => false,
            };
            proof {
                assert(rename == (old(self).slots@[i as int].player@ == "You"@ || (old_your matches Some(o) && eq_ci(o@, old(self).slots@[i as int].player@))));
            }
            if rename {
                let mut x = self.slots.remove(i);
                x.player = name.clone();
                self.slots.insert(i, x);
            }
            i += 1;
        }
        self.your_name = Some(name);
        proof {
            assert(ascending_seats(old(self).slots@));
            assert forall|a: int, b: int| 0 <= a < b < self.slots@.len() implies self.slots@[a].number < self.slots@[b].number by {
                assert(self.slots@[a].number == old(self).slots@[a].number);
                assert(self.slots@[b].number == old(self).slots@[b].number);
            }
        }
    }

    /// Whose turn follows `current` on its rotation.
    pub fn next_after(&self, current: u32) -> (r: Option<u32>)
        ensures
            r == spec_next_in_rotation(self.rotation(self.key_for(current)), current),
    {
        let key = self.tank_key_for(current);
        self.next_after_in(&key, current)
    }

    /// The seat `number`, if set.
    pub fn slot(&self, number: u32) -> (r: Option<&ClericSlot>)
        ensures
            match r {
                Some(x) => self.seat(number) == Some(*x),
                None => self.seat(number) is None,
            },
    {
        match self.seat_ref(number) {
            Some(i) => Some(&self.slots[i]),
            None => None,
        }
    }

    /// Seat `number` is set and sitting out.
    pub fn is_skipped(&self, number: u32) -> (b: bool)
        ensures
            b == (self.seat(number) matches Some(x) && x.skipped),
    {
        match self.seat_ref(number) {
            Some(i) => self.slots[i].skipped,
            None => false,
        }
    }

    /// Shows a warning from now on.
    pub fn set_warning_at(&mut self, warning: String, now: u64, urgent: bool, kind: WarningKind)
        ensures
            warned(*old(self), *final(self), warning@, now, urgent, kind, None),
    {
        self.warning = Some(warning);
        self.warning_at_ms = Some(now);
        self.warning_urgent = urgent;
        self.warning_kind = kind;
        self.warning_speech = None;
    }

    /// Shows a warning, quietly, from the wall clock's now.
    pub fn set_warning(&mut self, warning: String)
        ensures
            exists|t: u64| warned(*old(self), *final(self), warning@, t, false, WarningKind::Other, None),
    {
        let now = now_ms();
        self.set_warning_at(warning, now, false, WarningKind::Other);
    }

    /// A heal heard at the wall clock's now.
    pub fn apply_heal(&mut self, call: crate::parser::CompleteHealCall)
        requires
            old(self).wf(),
        ensures
            final(self).wf(),
            exists|t: u64| heal_done(*old(self), *final(self), call@, t),
    {
        let now = now_ms();
        self.apply_heal_at(call, now);
    }

    /// A command heard at the wall clock's now.
    pub fn apply_command(&mut self, cmd: crate::command::ChainCommand, speaker: String) -> (r: Option<String>)
        requires
            old(self).wf(),
        ensures
            final(self).wf(),
            exists|t: u64| command_done(*old(self), *final(self), cmd@, speaker@, t, crate::command::opt_view(r)),
    {
        let now = now_ms();
        self.apply_command_at(cmd, speaker, now)
    }

    /// The chain as the panel shows it at the wall clock's now.
    pub fn snapshot(&self) -> (out: ChainSnapshot)
        ensures
            exists|t: u64| snapshot_shows(*self, t, out),
    {
        let now = now_ms();
        self.snapshot_at(now)
    }
}

/// `!skip` then `!back` on a set seat leaves it as it was, back in the
/// rotation, and every other seat untouched.
pub proof fn lemma_skip_then_back(a: ChainState, b: ChainState, c: ChainState, n: u32, speaker: Seq<char>, t1: u64, t2: u64)
    requires
        skip_done(a, b, Some(n), speaker, t1, None),
        back_done(b, c, Some(n), speaker, t2, None),
    ensures
        forall|m: u32| #[trigger] c.seat(m) == if m == n {
            Some(ClericSlot { skipped: false, ..a.seat(n)->0 })
        } else {
            a.seat(m)
        },
        a.seat(n) matches Some(x) && !x.skipped ==> forall|m: u32| #[trigger] c.seat(m) == a.seat(m),
{
    assert(a.has_slot(n));
    assert(a.seat(n) is Some);
    assert forall|m: u32| #[trigger] c.seat(m) == if m == n {
        Some(ClericSlot { skipped: false, ..a.seat(n)->0 })
    } else {
        a.seat(m)
    } by {
        assert(c.seat(m) == if m == n {
            match b.seat(m) {
                Some(x) => Some(ClericSlot { skipped: false, ..x }),
                None => None,
            }
        } else {
            b.seat(m)
        });
        assert(b.seat(m) == if m == n {
            match a.seat(m) {
                Some(x) => Some(ClericSlot { skipped: true, ..x }),
                None => None,
            }
        } else {
            a.seat(m)
        });
    }
    if a.seat(n) matches Some(x) && !x.skipped {
        assert forall|m: u32| #[trigger] c.seat(m) == a.seat(m) by {
            if m == n {
                assert(c.seat(m) == Some(ClericSlot { skipped: false, ..a.seat(n)->0 }));
            }
        }
    }
}

/// Swapping two seats twice puts every seat back.
pub proof fn lemma_move_twice(a: ChainState, b: ChainState, c: ChainState, from: u32, to: u32, t1: u64, t2: u64)
    requires
        move_done(a, b, from, to, t1, None),
        move_done(b, c, from, to, t2, None),
    ensures
        forall|m: u32| #[trigger] c.seat(m) == a.seat(m),
{
    assert(from != to);
    assert forall|m: u32| #[trigger] c.seat(m) == a.seat(m) by {
        if m == from {
            assert(c.seat(from) == Some(ClericSlot { number: from, ..b.seat(to)->0 }));
            assert(b.seat(to) == Some(ClericSlot { number: to, ..a.seat(from)->0 }));
            lemma_seat_number(a, from);
        } else if m == to {
            assert(c.seat(to) == Some(ClericSlot { number: to, ..b.seat(from)->0 }));
            assert(b.seat(from) == Some(ClericSlot { number: from, ..a.seat(to)->0 }));
            lemma_seat_number(a, to);
        } else {
            assert(c.seat(m) == b.seat(m));
        }
    }
}

/// A seat found by its number carries that number.
pub proof fn lemma_seat_number(s: ChainState, n: u32)
    ensures
        s.seat(n) matches Some(x) ==> x.number == n,
{
    lemma_slot_from(s.slots@, n, 0);
}

/// `!take` with no number hands out the lowest free seat: every seat
/// below it is taken; with none free, every seat is taken.
pub proof fn lemma_free_is_lowest(s: ChainState, i: int, left: nat)
    requires
        1 <= i,
        i + left - 1 <= u32::MAX,
    ensures
        free_from(s, i, left) matches Some(n) ==> i <= n < i + left && !s.has_slot(n)
            && forall|k: u32| i <= k < n ==> #[trigger] s.has_slot(k),
        free_from(s, i, left) is None ==> forall|k: u32| i <= k < i + left ==> #[trigger] s.has_slot(k),
    decreases left,
{
    if left > 0 && s.has_slot(i as u32) {
        lemma_free_is_lowest(s, i + 1, (left - 1) as nat);
        assert forall|k: u32| i <= k < i + left && (free_from(s, i, left) is None || k < free_from(s, i, left)->0) implies #[trigger] s.has_slot(k) by {
            if k == i {
            }
        }
    }
}

/// A rotation lists, in ascending order, exactly the seats that sit on it
/// and are not skipped.
pub proof fn lemma_rotation_members(s: ChainState, key: Option<Seq<char>>)
    requires
        s.wf(),
    ensures
        forall|i: int, j: int| 0 <= i < j < s.rotation(key).len() ==> s.rotation(key)[i] < s.rotation(key)[j],
        forall|x: u32| s.rotation(key).contains(x) <==> (s.seat(x) matches Some(y) && !y.skipped && s.key_for(x) == key),
{
    lemma_rot_members(s.slots@, s.tanks@, key);
    assert forall|x: u32| s.rotation(key).contains(x) <==> (s.seat(x) matches Some(y) && !y.skipped && s.key_for(x) == key) by {
        lemma_slot_from(s.slots@, x, 0);
        if s.rotation(key).contains(x) {
            let j = choose|j: int| 0 <= j < s.slots@.len() && s.slots@[j].number == x && !s.slots@[j].skipped && key_of(s.tanks@, x) == key;
            lemma_seat_at(s.slots@, j);
        }
        if s.seat(x) matches Some(y) && !y.skipped && s.key_for(x) == key {
            let j = slot_from(s.slots@, x, 0)->0;
            assert(s.slots@[j].number == x);
        }
    }
}

proof fn lemma_rot_members(slots: Seq<ClericSlot>, tanks: Seq<TankAssignment>, key: Option<Seq<char>>)
    ensures
        ascending_seats(slots) ==> forall|i: int, j: int| 0 <= i < j < rot(slots, tanks, key).len() ==> rot(slots, tanks, key)[i] < rot(slots, tanks, key)[j],
        forall|x: u32| rot(slots, tanks, key).contains(x) <==> exists|j: int| 0 <= j < slots.len() && #[trigger] slots[j].number == x && !slots[j].skipped && key_of(tanks, x) == key,
    decreases slots.len(),
{
    if slots.len() > 0 {
        let t = slots.drop_last();
        lemma_rot_members(t, tanks, key);
        let r = rot(t, tanks, key);
        let x = slots.last();
        assert forall|y: u32| rot(slots, tanks, key).contains(y) <==> exists|j: int| 0 <= j < slots.len() && #[trigger] slots[j].number == y && !slots[j].skipped && key_of(tanks, y) == key by {
            if rot(slots, tanks, key).contains(y) {
                let q = choose|q: int| 0 <= q < rot(slots, tanks, key).len() && rot(slots, tanks, key)[q] == y;
                if q < r.len() {
                    assert(r[q] == y);
                    assert(r.contains(y));
                    let j = choose|j: int| 0 <= j < t.len() && #[trigger] t[j].number == y && !t[j].skipped && key_of(tanks, y) == key;
                    assert(slots[j] == t[j]);
                } else {
                    assert(slots[slots.len() - 1].number == y);
                }
            }
            if exists|j: int| 0 <= j < slots.len() && #[trigger] slots[j].number == y && !slots[j].skipped && key_of(tanks, y) == key {
                let j = choose|j: int| 0 <= j < slots.len() && #[trigger] slots[j].number == y && !slots[j].skipped && key_of(tanks, y) == key;
                if j < t.len() {
                    assert(t[j] == slots[j]);
                    assert(r.contains(y));
                    let q = choose|q: int| 0 <= q < r.len() && r[q] == y;
                    assert(rot(slots, tanks, key)[q] == y);
                } else {
                    assert(rot(slots, tanks, key).last() == y);
                }
            }
        }
        if ascending_seats(slots) {
            assert(ascending_seats(t));
            assert forall|i: int, j: int| 0 <= i < j < rot(slots, tanks, key).len() implies rot(slots, tanks, key)[i] < rot(slots, tanks, key)[j] by {
                if j >= r.len() {
                    assert(r.contains(r[i]));
                    let a = choose|a: int| 0 <= a < t.len() && #[trigger] t[a].number == r[i] && !t[a].skipped && key_of(tanks, r[i]) == key;
                    assert(slots[a] == t[a]);
                }
            }
        }
    }
}

/// Whose turn follows `current`: a seat on the rotation, the first after
/// `current` if there is one, else the first of all.
pub proof fn lemma_next_in_rotation(r: Seq<u32>, current: u32)
    requires
        forall|i: int, j: int| 0 <= i < j < r.len() ==> r[i] < r[j],
    ensures
        r.len() == 0 <==> spec_next_in_rotation(r, current) is None,
        spec_next_in_rotation(r, current) matches Some(x) ==> r.contains(x),
        spec_next_in_rotation(r, current) matches Some(x) ==> (exists|k: int| 0 <= k < r.len() && r[k] > current) ==>
            x > current && forall|k: int| 0 <= k < r.len() && r[k] > current ==> x <= r[k],
        spec_next_in_rotation(r, current) matches Some(x) ==> !(exists|k: int| 0 <= k < r.len() && r[k] > current) ==> x == r[0],
{
    if r.len() > 0 {
        lemma_first_above_props(r, current, 0);
    }
}

proof fn lemma_first_above_props(r: Seq<u32>, current: u32, i: int)
    requires
        0 <= i <= r.len(),
        forall|a: int, b: int| 0 <= a < b < r.len() ==> r[a] < r[b],
        forall|k: int| 0 <= k < i ==> r[k] <= current,
    ensures
        first_above(r, current, i) matches Some(k) ==> i <= k < r.len() && r[k] > current
            && forall|q: int| 0 <= q < r.len() && r[q] > current ==> k <= q,
        first_above(r, current, i) is None ==> forall|q: int| 0 <= q < r.len() ==> r[q] <= current,
    decreases r.len() - i,
{
    if i < r.len() && r[i] <= current {
        lemma_first_above_props(r, current, i + 1);
    }
}

/// A claim on a seat someone else holds leaves every seat as it was; only
/// the claimer's warning changes.
pub proof fn lemma_taken_claim_keeps_seats(old: ChainState, new: ChainState, call: crate::parser::CallView, now: u64)
    requires
        heal_done(old, new, call, now),
        occupied_by_other(fresh(old, now), call.number, call.speaker),
    ensures
        new.slots@ == old.slots@,
        new.tanks@ == old.tanks@,
        new.warning_kind == WarningKind::SlotTaken,
{
}

} // verus!
