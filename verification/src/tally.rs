//! What one session says of each cleric: the seats they held, when they
//! healed, how far off the beat, and their wrong targets and skips; and how
//! many warnings the session raised.
use vstd::prelude::*;

use crate::command::opt_view;
use crate::report::{events_view, ChainEvent, ChainEventKind, EventView, ON_TIME_MS};
use crate::text::{chars_of, seq_eq};

verus! {

/// One cleric's tally over a session.
#[derive(Debug)]
pub struct ClericTally {
    pub player: String,
    /// The seats they healed from or claimed, in the order first seen.
    pub slots: Vec<u32>,
    /// When each of their heals landed.
    pub heal_times: Vec<u64>,
    /// How far each timed heal landed from its beat, late positive.
    pub offsets_ms: Vec<i64>,
    pub on_time: u32,
    pub early: u32,
    pub late: u32,
    pub wrong_target: u32,
    pub skips: u32,
    pub is_you: bool,
}

pub struct TallyView {
    pub player: Seq<char>,
    pub slots: Seq<u32>,
    pub heal_times: Seq<u64>,
    pub offsets_ms: Seq<i64>,
    pub on_time: nat,
    pub early: nat,
    pub late: nat,
    pub wrong_target: nat,
    pub skips: nat,
    pub is_you: bool,
}

impl View for ClericTally {
    type V = TallyView;

    open spec fn view(&self) -> TallyView {
        TallyView {
            player: self.player@,
            slots: self.slots@,
            heal_times: self.heal_times@,
            offsets_ms: self.offsets_ms@,
            on_time: self.on_time as nat,
            early: self.early as nat,
            late: self.late as nat,
            wrong_target: self.wrong_target as nat,
            skips: self.skips as nat,
            is_you: self.is_you,
        }
    }
}

pub open spec fn tallies_view(ts: Seq<ClericTally>) -> Seq<TallyView> {
    ts.map_values(|t: ClericTally| t@)
}

/// A cleric nothing has been counted for yet.
pub open spec fn new_tally(p: Seq<char>) -> TallyView {
    TallyView {
        player: p,
        slots: Seq::empty(),
        heal_times: Seq::empty(),
        offsets_ms: Seq::empty(),
        on_time: 0,
        early: 0,
        late: 0,
        wrong_target: 0,
        skips: 0,
        is_you: false,
    }
}

/// The seats with `n` added, if it is a seat not yet among them.
pub open spec fn with_slot(slots: Seq<u32>, n: Option<u32>) -> Seq<u32> {
    match n {
        Some(x) => if slots.contains(x) { slots } else { slots.push(x) },
        None => slots,
    }
}

/// A timed heal: on time within `ON_TIME_MS` of its beat either way, else
/// early or late.
pub open spec fn timed(t: TallyView, o: i64) -> TallyView {
    TallyView {
        offsets_ms: t.offsets_ms.push(o),
        late: if o > ON_TIME_MS { t.late + 1 } else { t.late },
        early: if o < -ON_TIME_MS { t.early + 1 } else { t.early },
        on_time: if -ON_TIME_MS <= o <= ON_TIME_MS { t.on_time + 1 } else { t.on_time },
        ..t
    }
}

/// One event counted on its cleric's tally.
pub open spec fn tally_event(t: TallyView, e: EventView) -> TallyView {
    let t1 = if e.is_you { TallyView { is_you: true, ..t } } else { t };
    match e.kind {
        ChainEventKind::Heal => {
            let t2 = TallyView { slots: with_slot(t1.slots, e.number), heal_times: t1.heal_times.push(e.at_ms), ..t1 };
            match e.offset_ms {
                Some(o) => timed(t2, o),
                None => t2,
            }
        },
        ChainEventKind::WrongTarget => TallyView { wrong_target: t1.wrong_target + 1, ..t1 },
        ChainEventKind::Skip => TallyView { skips: t1.skips + 1, ..t1 },
        ChainEventKind::Claim => TallyView { slots: with_slot(t1.slots, e.number), ..t1 },
        _ => t1,
    }
}

/// Who an event is about, the empty name when nobody.
pub open spec fn player_of(e: EventView) -> Seq<char> {
    match e.player {
        Some(p) => p,
        None => Seq::empty(),
    }
}

/// Whether an event counts on its cleric's tally: a heal, claim, skip or
/// wrong target, or anything of yours.
pub open spec fn counts_for(e: EventView) -> bool {
    ||| e.is_you
    ||| e.kind == ChainEventKind::Heal
    ||| e.kind == ChainEventKind::WrongTarget
    ||| e.kind == ChainEventKind::Skip
    ||| e.kind == ChainEventKind::Claim
}

/// The first tally at `i` or later for player `p`.
pub open spec fn tally_of(ts: Seq<TallyView>, p: Seq<char>, i: int) -> Option<int>
    decreases ts.len() - i,
{
    if i < 0 || i >= ts.len() {
        None
    } else if ts[i].player == p {
        Some(i)
    } else {
        tally_of(ts, p, i + 1)
    }
}

/// The tallies after one more event: its cleric's tally counts it, and a
/// cleric first seen gets a tally at the end; an event about nobody counts
/// on no tally.
pub open spec fn tally_step(ts: Seq<TallyView>, e: EventView) -> Seq<TallyView> {
    let p = player_of(e);
    if p.len() == 0 || !counts_for(e) {
        ts
    } else {
        match tally_of(ts, p, 0) {
            Some(i) => ts.update(i, tally_event(ts[i], e)),
            None => ts.push(tally_event(new_tally(p), e)),
        }
    }
}

/// The tallies over the first `n` events.
pub open spec fn tallies_upto(es: Seq<EventView>, n: int) -> Seq<TallyView>
    decreases n,
{
    if n <= 0 || n > es.len() {
        Seq::empty()
    } else {
        tally_step(tallies_upto(es, n - 1), es[n - 1])
    }
}

/// Every cleric a session's events name, in the order first seen, with
/// what the events say of them.
pub open spec fn spec_tallies(es: Seq<EventView>) -> Seq<TallyView> {
    tallies_upto(es, es.len() as int)
}

/// The warnings over the first `n` events: wrong targets and other warnings.
pub open spec fn warnings_upto(es: Seq<EventView>, n: int) -> nat
    decreases n,
{
    if n <= 0 || n > es.len() {
        0
    } else {
        warnings_upto(es, n - 1) + if es[n - 1].kind == ChainEventKind::WrongTarget || es[n - 1].kind
            == ChainEventKind::Warning {
            1nat
        } else {
            0nat
        }
    }
}

/// How many warnings a session raised.
pub open spec fn spec_warning_count(es: Seq<EventView>) -> nat {
    warnings_upto(es, es.len() as int)
}

/// No count on any tally exceeds `n`.
pub open spec fn counts_within(ts: Seq<TallyView>, n: nat) -> bool {
    forall|j: int| 0 <= j < ts.len() ==> {
        &&& (#[trigger] ts[j]).on_time <= n
        &&& ts[j].early <= n
        &&& ts[j].late <= n
        &&& ts[j].wrong_target <= n
        &&& ts[j].skips <= n
    }
}

fn has_slot(slots: &Vec<u32>, x: u32) -> (b: bool)
    ensures
        b == slots@.contains(x),
{
    let mut i: usize = 0;
    while i < slots.len()
        invariant
            i <= slots@.len(),
            forall|k: int| 0 <= k < i ==> slots@[k] != x,
        decreases slots@.len() - i,
    {
        if slots[i] == x {
            assert(slots@[i as int] == x);
            return true;
        }
        i += 1;
    }
    false
}

fn add_slot(slots: &mut Vec<u32>, n: Option<u32>)
    ensures
        final(slots)@ == with_slot(old(slots)@, n),
{
    if let Some(x) = n {
        if !has_slot(slots, x) {
            slots.push(x);
        }
    }
}

fn count_event(t: &mut ClericTally, e: &ChainEvent)
    requires
        old(t).on_time < u32::MAX,
        old(t).early < u32::MAX,
        old(t).late < u32::MAX,
        old(t).wrong_target < u32::MAX,
        old(t).skips < u32::MAX,
    ensures
        final(t)@ == tally_event(old(t)@, e@),
{
    if e.is_you {
        t.is_you = true;
    }
    match e.kind {
        ChainEventKind::Heal => {
            add_slot(&mut t.slots, e.number);
            t.heal_times.push(e.at_ms);
            if let Some(o) = e.offset_ms {
                t.offsets_ms.push(o);
                if o > ON_TIME_MS {
                    t.late = t.late + 1;
                } else if o < -ON_TIME_MS {
                    t.early = t.early + 1;
                } else {
                    t.on_time = t.on_time + 1;
                }
            }
        },
        ChainEventKind::WrongTarget => {
            t.wrong_target = t.wrong_target + 1;
        },
        ChainEventKind::Skip => {
            t.skips = t.skips + 1;
        },
        ChainEventKind::Claim => {
            add_slot(&mut t.slots, e.number);
        },
        _ => {},
    }
}

fn find_tally(ts: &Vec<ClericTally>, p: &Vec<char>) -> (r: Option<usize>)
    ensures
        match r {
            Some(i) => i < ts@.len() && tally_of(tallies_view(ts@), p@, 0) == Some(i as int),
            None => tally_of(tallies_view(ts@), p@, 0) is None,
        },
{
    let ghost v = tallies_view(ts@);
    let mut i: usize = 0;
    while i < ts.len()
        invariant
            i <= ts@.len(),
            v == tallies_view(ts@),
            tally_of(v, p@, 0) == tally_of(v, p@, i as int),
        decreases ts@.len() - i,
    {
        let name = chars_of(ts[i].player.as_str());
        assert(v[i as int].player == ts@[i as int].player@);
        if seq_eq(&name, p) {
            return Some(i);
        }
        i += 1;
    }
    None
}

fn new_cleric(player: Vec<char>) -> (t: ClericTally)
    ensures
        t@ == new_tally(player@),
{
    let t = ClericTally {
        player: crate::text::string_of(&player),
        slots: Vec::new(),
        heal_times: Vec::new(),
        offsets_ms: Vec::new(),
        on_time: 0,
        early: 0,
        late: 0,
        wrong_target: 0,
        skips: 0,
        is_you: false,
    };
    assert(t@.slots =~= Seq::<u32>::empty());
    assert(t@.heal_times =~= Seq::<u64>::empty());
    assert(t@.offsets_ms =~= Seq::<i64>::empty());
    t
}

proof fn lemma_tally_of(ts: Seq<TallyView>, p: Seq<char>, i: int)
    requires
        0 <= i,
    ensures
        tally_of(ts, p, i) matches Some(k) ==> i <= k < ts.len() && ts[k].player == p,
    decreases ts.len() - i,
{
    if i < ts.len() && ts[i].player != p {
        lemma_tally_of(ts, p, i + 1);
    }
}

proof fn lemma_counts_step(ts: Seq<TallyView>, e: EventView, n: nat)
    requires
        counts_within(ts, n),
    ensures
        counts_within(tally_step(ts, e), n + 1),
{
    let p = player_of(e);
    if p.len() != 0 && counts_for(e) {
        lemma_tally_of(ts, p, 0);
        let r = tally_step(ts, e);
        assert forall|j: int| 0 <= j < r.len() implies {
            &&& (#[trigger] r[j]).on_time <= n + 1
            &&& r[j].early <= n + 1
            &&& r[j].late <= n + 1
            &&& r[j].wrong_target <= n + 1
            &&& r[j].skips <= n + 1
        } by {
            if j < ts.len() {
                assert(ts[j].on_time <= n);
            }
        }
    }
}

/// The heals the tallies hold between them.
pub open spec fn heals_counted(ts: Seq<TallyView>) -> int
    decreases ts.len(),
{
    if ts.len() == 0 {
        0
    } else {
        heals_counted(ts.drop_last()) + ts.last().heal_times.len()
    }
}

/// The heals among the first `n` events that name a cleric.
pub open spec fn named_heals(es: Seq<EventView>, n: int) -> int
    decreases n,
{
    if n <= 0 || n > es.len() {
        0
    } else {
        named_heals(es, n - 1) + if es[n - 1].kind == ChainEventKind::Heal && player_of(es[n - 1]).len() > 0 {
            1int
        } else {
            0int
        }
    }
}

proof fn lemma_heals_counted_push(ts: Seq<TallyView>, t: TallyView)
    ensures
        heals_counted(ts.push(t)) == heals_counted(ts) + t.heal_times.len(),
{
    assert(ts.push(t).drop_last() =~= ts);
}

proof fn lemma_heals_counted_update(ts: Seq<TallyView>, i: int, t: TallyView)
    requires
        0 <= i < ts.len(),
    ensures
        heals_counted(ts.update(i, t)) == heals_counted(ts) - ts[i].heal_times.len() + t.heal_times.len(),
    decreases ts.len(),
{
    let u = ts.update(i, t);
    if i == ts.len() - 1 {
        assert(u.drop_last() =~= ts.drop_last());
    } else {
        lemma_heals_counted_update(ts.drop_last(), i, t);
        assert(u.drop_last() =~= ts.drop_last().update(i, t));
    }
}

proof fn lemma_tally_event_heals(t: TallyView, e: EventView)
    ensures
        tally_event(t, e).heal_times.len() == t.heal_times.len() + if e.kind == ChainEventKind::Heal {
            1int
        } else {
            0int
        },
        tally_event(t, e).player == t.player,
{
}

/// The tallies hold exactly the heals of the events that name a cleric, and
/// no tally is for nobody.
pub proof fn lemma_tallies_hold_named_heals(es: Seq<EventView>, n: int)
    requires
        0 <= n <= es.len(),
    ensures
        heals_counted(tallies_upto(es, n)) == named_heals(es, n),
        forall|i: int| 0 <= i < tallies_upto(es, n).len() ==> (#[trigger] tallies_upto(es, n)[i]).player.len() > 0,
    decreases n,
{
    if n > 0 {
        lemma_tallies_hold_named_heals(es, n - 1);
        let ts = tallies_upto(es, n - 1);
        let e = es[n - 1];
        let p = player_of(e);
        if p.len() != 0 && counts_for(e) {
            lemma_tally_of(ts, p, 0);
            match tally_of(ts, p, 0) {
                Some(i) => {
                    lemma_tally_event_heals(ts[i], e);
                    lemma_heals_counted_update(ts, i, tally_event(ts[i], e));
                },
                None => {
                    lemma_tally_event_heals(new_tally(p), e);
                    lemma_heals_counted_push(ts, tally_event(new_tally(p), e));
                },
            }
        }
    } else {
        assert(heals_counted(Seq::<TallyView>::empty()) == 0);
    }
}

/// The sum of some counts.
pub open spec fn total(v: Seq<u32>) -> int
    decreases v.len(),
{
    if v.len() == 0 {
        0
    } else {
        total(v.drop_last()) + v.last()
    }
}

/// A session's total of some per-cleric count, when it fits in a `u32`.
pub fn total_of(v: &Vec<u32>) -> (r: Option<u32>)
    ensures
        r == if total(v@) <= u32::MAX { Some(total(v@) as u32) } else { None::<u32> },
{
    let mut sum: u64 = 0;
    let mut i: usize = 0;
    while i < v.len()
        invariant
            i <= v@.len(),
            sum == total(v@.take(i as int)),
            sum <= u32::MAX,
        decreases v@.len() - i,
    {
        assert(v@.take(i as int + 1).drop_last() =~= v@.take(i as int));
        sum = sum + v[i] as u64;
        if sum > 0xFFFF_FFFF {
            proof {
                lemma_total_grows(v@, i as int + 1);
            }
            return None;
        }
        i += 1;
    }
    assert(v@.take(i as int) =~= v@);
    Some(sum as u32)
}

proof fn lemma_total_grows(v: Seq<u32>, n: int)
    requires
        0 <= n <= v.len(),
    ensures
        total(v) >= total(v.take(n)),
    decreases v.len(),
{
    if n < v.len() {
        assert(v.drop_last().take(n) =~= v.take(n));
        lemma_total_grows(v.drop_last(), n);
    } else {
        assert(v.take(n) =~= v);
    }
}

/// Each cleric's tally and the warning count of a session's events.
pub fn tally_session(events: &Vec<ChainEvent>) -> (t: (Vec<ClericTally>, u32))
    requires
        events@.len() < u32::MAX,
    ensures
        tallies_view(t.0@) == spec_tallies(events_view(events@)),
        t.1 == spec_warning_count(events_view(events@)),
{
    let ghost es = events_view(events@);
    let mut ts: Vec<ClericTally> = Vec::new();
    let mut warnings: u32 = 0;
    let mut i: usize = 0;
    assert(tallies_view(ts@) =~= Seq::<TallyView>::empty());
    while i < events.len()
        invariant
            i <= events@.len(),
            events@.len() < u32::MAX,
            es == events_view(events@),
            tallies_view(ts@) == tallies_upto(es, i as int),
            warnings == warnings_upto(es, i as int),
            warnings <= i,
            counts_within(tallies_view(ts@), i as nat),
        decreases events@.len() - i,
    {
        let e = &events[i];
        let ghost before = tallies_view(ts@);
        assert(es[i as int] == e@);
        if matches!(e.kind, ChainEventKind::WrongTarget) || matches!(e.kind, ChainEventKind::Warning) {
            warnings = warnings + 1;
        }
        let name: Vec<char> = match &e.player {
            Some(p) => chars_of(p.as_str()),
            None => Vec::new(),
        };
        assert(name@ == player_of(e@)) by {
            if e.player is None {
                assert(name@ =~= Seq::<char>::empty());
            }
        }
        let counts = e.is_you || matches!(e.kind, ChainEventKind::Heal) || matches!(e.kind, ChainEventKind::WrongTarget)
            || matches!(e.kind, ChainEventKind::Skip) || matches!(e.kind, ChainEventKind::Claim);
        if name.len() > 0 && counts {
            match find_tally(&ts, &name) {
                Some(k) => {
                    assert(before[k as int] == ts@[k as int]@);
                    let mut t = ts.remove(k);
                    count_event(&mut t, e);
                    ts.insert(k, t);
                    proof {
                        assert(tallies_view(ts@) =~= before.update(k as int, tally_event(before[k as int], e@)));
                    }
                },
                None => {
                    let mut t = new_cleric(name);
                    count_event(&mut t, e);
                    ts.push(t);
                    proof {
                        assert(tallies_view(ts@) =~= before.push(tally_event(new_tally(player_of(e@)), e@)));
                    }
                },
            }
        }
        proof {
            assert(tallies_view(ts@) == tally_step(before, es[i as int]));
            lemma_counts_step(before, es[i as int], i as nat);
        }
        i += 1;
    }
    (ts, warnings)
}

} // verus!
