//! Session reports: every chain Alfred watched, filed as a session that opens
//! when the chain starts and closes when it stops or goes quiet.
use vstd::prelude::*;

use vstd::relations::sorted_by;

use crate::command::opt_view;

verus! {

broadcast use vstd::seq_lib::group_to_multiset_ensures;

/// A chain that goes quiet for this long is treated as finished.
pub const IDLE_CLOSE_MS: u64 = 180_000;

/// A heal this far from its beat, either way, still counts as on time.
pub const ON_TIME_MS: i64 = 250;

/// How many sessions are kept, newest last.
pub const MAX_SESSIONS: usize = 25;

/// How many events one session keeps, newest last.
pub const MAX_EVENTS: usize = 600;

// ------------------------------------------------------------- missed turns

/// `a` in ascending order.
pub open spec fn ascending(a: Seq<u64>) -> Seq<u64> {
    a.sort_by(|x: u64, y: u64| x <= y)
}

pub open spec fn is_ascending(a: Seq<u64>) -> bool {
    forall|i: int, j: int| 0 <= i < j < a.len() ==> a[i] <= a[j]
}

/// The gaps between neighbours of `a`.
pub open spec fn gaps_of(a: Seq<u64>) -> Seq<u64> {
    Seq::new((a.len() - 1) as nat, |i: int| (a[i + 1] - a[i]) as u64)
}

/// The turns one gap stands for beyond the cleric's own: a gap under 1.75 of
/// the usual cycle is no turn missed; a longer one is the cycles it spans,
/// rounded half up, less the turn that was taken.
pub open spec fn missed_in_gap(gap: u64, cycle: u64) -> nat {
    if 4 * gap < 7 * cycle {
        0
    } else {
        let rounded = (2 * gap + cycle) / (2 * cycle);
        let capped: int = if rounded > u32::MAX { u32::MAX as int } else { rounded };
        (capped - 1) as nat
    }
}

/// The missed turns over the first `n` gaps.
pub open spec fn missed_in_gaps(gaps: Seq<u64>, cycle: u64, n: int) -> nat
    decreases n,
{
    if n <= 0 || n > gaps.len() {
        0
    } else {
        missed_in_gaps(gaps, cycle, n - 1) + missed_in_gap(gaps[n - 1], cycle)
    }
}

/// Turns a cleric skipped, read from their own cast times: the usual cycle is
/// the median gap between casts, and each gap near two or more cycles long
/// stands for the turns that came and went unhealed. Fewer than three casts,
/// or a median gap of zero, give no rhythm to compare against.
pub open spec fn spec_missed_turns(times: Seq<u64>) -> nat {
    if times.len() < 3 {
        0
    } else {
        let gaps = gaps_of(ascending(times));
        let cycle = ascending(gaps)[(gaps.len() / 2) as int];
        if cycle == 0 {
            0
        } else {
            missed_in_gaps(gaps, cycle, gaps.len() as int)
        }
    }
}

proof fn lemma_missed_in_gaps_grows(gaps: Seq<u64>, cycle: u64, a: int, b: int)
    requires
        0 <= a <= b <= gaps.len(),
    ensures
        missed_in_gaps(gaps, cycle, a) <= missed_in_gaps(gaps, cycle, b),
    decreases b - a,
{
    if a < b {
        lemma_missed_in_gaps_grows(gaps, cycle, a, b - 1);
    }
}

proof fn lemma_ascending_is(a: Seq<u64>, r: Seq<u64>)
    requires
        is_ascending(r),
        r.to_multiset() == a.to_multiset(),
    ensures
        r == ascending(a),
{
    let leq = |x: u64, y: u64| x <= y;
    assert(sorted_by(r, leq)) by {
        assert forall|i: int, j: int| 0 <= i < j < r.len() implies #[trigger] leq(r[i], r[j]) by {}
    }
    a.lemma_sort_by_ensures(leq);
    vstd::seq_lib::lemma_sorted_unique(r, a.sort_by(leq), leq);
}

/// `ascending(a)` holds what `a` holds, in order.
pub(crate) proof fn lemma_ascending_sorts(a: Seq<u64>)
    ensures
        is_ascending(ascending(a)),
        ascending(a).to_multiset() == a.to_multiset(),
        ascending(a).len() == a.len(),
{
    let leq = |x: u64, y: u64| x <= y;
    a.lemma_sort_by_ensures(leq);
    let r = ascending(a);
    assert(is_ascending(r)) by {
        assert forall|i: int, j: int| 0 <= i < j < r.len() implies r[i] <= r[j] by {
            assert(leq(r[i], r[j]));
        }
    }
    assert(r.len() == r.to_multiset().len());
    assert(a.len() == a.to_multiset().len());
}

/// The turns counted missing depend only on which cast times there are, not
/// on the order they come in.
pub proof fn lemma_missed_turns_ignore_order(a: Seq<u64>, b: Seq<u64>)
    requires
        a.to_multiset() == b.to_multiset(),
    ensures
        spec_missed_turns(a) == spec_missed_turns(b),
{
    let leq = |x: u64, y: u64| x <= y;
    a.lemma_sort_by_ensures(leq);
    let r = ascending(a);
    assert(is_ascending(r)) by {
        assert forall|i: int, j: int| 0 <= i < j < r.len() implies r[i] <= r[j] by {
            assert(leq(r[i], r[j]));
        }
    }
    lemma_ascending_is(b, r);
    assert(a.len() == a.to_multiset().len());
    assert(b.len() == b.to_multiset().len());
}

/// `v` in ascending order.
pub(crate) fn sort_ascending(v: &Vec<u64>) -> (r: Vec<u64>)
    ensures
        r@ == ascending(v@),
        r@.len() == v@.len(),
        is_ascending(r@),
{
    let mut r: Vec<u64> = Vec::new();
    let n = v.len();
    for i in 0..n
        invariant
            n == v@.len(),
            is_ascending(r@),
            r@.to_multiset() == v@.take(i as int).to_multiset(),
    {
        let x = v[i];
        let mut p: usize = 0;
        while p < r.len() && r[p] <= x
            invariant
                p <= r@.len(),
                forall|k: int| 0 <= k < p ==> r@[k] <= x,
            decreases r@.len() - p,
        {
            p += 1;
        }
        let ghost before = r@;
        assert(p < before.len() ==> before[p as int] > x);
        r.insert(p, x);
        proof {
            assert(v@.take(i + 1) == v@.take(i as int).push(x));
            assert(r@.to_multiset() == before.to_multiset().insert(x));
            assert forall|a: int, b: int| 0 <= a < b < r@.len() implies r@[a] <= r@[b] by {
                if b < p {
                    assert(r@[a] == before[a] && r@[b] == before[b]);
                } else if b == p {
                    assert(r@[a] == before[a]);
                } else if a == p {
                    assert(r@[b] == before[b - 1]);
                    assert(before[p as int] <= before[b - 1]);
                } else if a < p {
                    assert(r@[a] == before[a] && r@[b] == before[b - 1]);
                } else {
                    assert(r@[a] == before[a - 1] && r@[b] == before[b - 1]);
                }
            }
        }
    }
    proof {
        assert(v@.take(n as int) == v@);
        lemma_ascending_is(v@, r@);
        assert(r@.len() == r@.to_multiset().len());
    }
    r
}

/// The missed turns of `spec_missed_turns`, counted without a cap.
fn missed_total(times: &[u64]) -> (total: u128)
    ensures
        total == spec_missed_turns(times@),
{
    if times.len() < 3 {
        return 0;
    }
    let mut all: Vec<u64> = Vec::new();
    for i in 0..times.len()
        invariant
            all@ == times@.take(i as int),
    {
        all.push(times[i]);
    }
    assert(all@ == times@);
    let sorted = sort_ascending(&all);
    let mut gaps: Vec<u64> = Vec::new();
    let m = sorted.len() - 1;
    for i in 0..m
        invariant
            m == sorted@.len() - 1,
            is_ascending(sorted@),
            gaps@.len() == i,
            forall|k: int| 0 <= k < i ==> gaps@[k] == (sorted@[k + 1] - sorted@[k]) as u64,
    {
        assert(sorted@[i as int] <= sorted@[i + 1]);
        gaps.push(sorted[i + 1] - sorted[i]);
    }
    assert(gaps@ == gaps_of(sorted@));
    let ordered = sort_ascending(&gaps);
    let cycle = ordered[ordered.len() / 2];
    if cycle == 0 {
        return 0;
    }
    let mut total: u128 = 0;
    for i in 0..m
        invariant
            m == gaps@.len(),
            times@.len() >= 3,
            cycle > 0,
            gaps@ == gaps_of(ascending(times@)),
            cycle == ascending(gaps@)[(gaps@.len() / 2) as int],
            total == missed_in_gaps(gaps@, cycle, i as int),
            total <= i * 0xFFFF_FFFFu128,
    {
        let gap = gaps[i];
        let big_gap = gap as u128;
        let big_cycle = cycle as u128;
        if !(4 * big_gap < 7 * big_cycle) {
            let rounded = (2 * big_gap + big_cycle) / (2 * big_cycle);
            let capped: u128 = if rounded > 0xFFFF_FFFF { 0xFFFF_FFFF } else { rounded };
            assert(capped >= 1) by (nonlinear_arith)
                requires
                    4 * big_gap >= 7 * big_cycle,
                    big_cycle > 0,
                    rounded == (2 * big_gap + big_cycle) / (2 * big_cycle),
                    capped == if rounded > 0xFFFF_FFFF { 0xFFFF_FFFF } else { rounded },
            ;
            total = total + (capped - 1);
        }
    }
    total
}

/// Turns a cleric skipped are inferred from gaps in their own cast times: a
/// gap near twice their usual spacing means one turn came and went unhealed.
pub fn missed_turns(times: &[u64]) -> (missed: u32)
    requires
        spec_missed_turns(times@) <= u32::MAX,
    ensures
        missed == spec_missed_turns(times@),
{
    missed_total(times) as u32
}

/// Whether the missed turns of these cast times can be counted in a `u32`.
pub fn missed_turns_fit(times: &[u64]) -> (fits: bool)
    ensures
        fits == (spec_missed_turns(times@) <= u32::MAX),
{
    missed_total(times) <= 0xFFFF_FFFF
}

// ---------------------------------------------------------------- events

/// Which of the two chains a session follows.
#[derive(Debug, Clone, Copy, PartialEq, Eq, Structural)]
pub enum SessionKind {
    Ch,
    Rampage,
}

/// What happened on a chain.
#[derive(Debug, Clone, Copy, PartialEq, Eq, Structural)]
pub enum ChainEventKind {
    Heal,
    Claim,
    Skip,
    Start,
    Stop,
    Reset,
    Tank,
    WrongTarget,
    Warning,
}

/// One thing that happened on a chain, as the chain reported it.
#[derive(Debug)]
pub struct ChainEvent {
    pub at_ms: u64,
    pub kind: ChainEventKind,
    pub player: Option<String>,
    pub is_you: bool,
    pub number: Option<u32>,
    pub target: Option<String>,
    pub tank: Option<String>,
    /// How far the heal landed from its beat, late positive, in milliseconds.
    pub offset_ms: Option<i64>,
    pub text: String,
}

pub struct EventView {
    pub at_ms: u64,
    pub kind: ChainEventKind,
    pub player: Option<Seq<char>>,
    pub is_you: bool,
    pub number: Option<u32>,
    pub target: Option<Seq<char>>,
    pub tank: Option<Seq<char>>,
    pub offset_ms: Option<i64>,
    pub text: Seq<char>,
}

impl View for ChainEvent {
    type V = EventView;

    open spec fn view(&self) -> EventView {
        EventView {
            at_ms: self.at_ms,
            kind: self.kind,
            player: opt_view(self.player),
            is_you: self.is_you,
            number: self.number,
            target: opt_view(self.target),
            tank: opt_view(self.tank),
            offset_ms: self.offset_ms,
            text: self.text@,
        }
    }
}

pub open spec fn events_view(events: Seq<ChainEvent>) -> Seq<EventView> {
    events.map_values(|e: ChainEvent| e@)
}

fn copy_text(s: &Option<String>) -> (r: Option<String>)
    ensures
        opt_view(r) == opt_view(*s),
{
    match s {
        Some(t) => Some(t.clone()),
        None => None,
    }
}

impl ChainEvent {
    /// A copy with the same contents.
    pub fn copy(&self) -> (e: ChainEvent)
        ensures
            e@ == self@,
    {
        ChainEvent {
            at_ms: self.at_ms,
            kind: self.kind,
            player: copy_text(&self.player),
            is_you: self.is_you,
            number: self.number,
            target: copy_text(&self.target),
            tank: copy_text(&self.tank),
            offset_ms: self.offset_ms,
            text: self.text.clone(),
        }
    }
}

/// Heals, claims and `!startchain` open a session; anything else only lands
/// in one that is already open.
pub open spec fn spec_starts_a_session(kind: ChainEventKind) -> bool {
    kind == ChainEventKind::Heal || kind == ChainEventKind::Start || kind == ChainEventKind::Claim
}

pub fn starts_a_session(kind: ChainEventKind) -> (b: bool)
    ensures
        b == spec_starts_a_session(kind),
{
    match kind {
        ChainEventKind::Heal | ChainEventKind::Start | ChainEventKind::Claim => true,
        _ => false,
    }
}

/// `!stopchain` and `!reset-chain` end a session.
pub open spec fn ends_a_session(kind: ChainEventKind) -> bool {
    kind == ChainEventKind::Stop || kind == ChainEventKind::Reset
}

/// How many of the events are heals.
pub open spec fn heals_in(events: Seq<EventView>) -> nat
    decreases events.len(),
{
    if events.len() == 0 {
        0
    } else {
        heals_in(events.drop_last()) + if events.last().kind == ChainEventKind::Heal { 1nat } else { 0nat }
    }
}

// -------------------------------------------------------------- sessions

/// One chain from start to stop.
#[derive(Debug)]
pub struct Session {
    pub id: u64,
    pub kind: SessionKind,
    pub started_at_ms: u64,
    pub ended_at_ms: Option<u64>,
    pub last_event_ms: u64,
    pub tank: Option<String>,
    pub events: Vec<ChainEvent>,
}

pub struct SessionView {
    pub id: u64,
    pub kind: SessionKind,
    pub started_at_ms: u64,
    pub ended_at_ms: Option<u64>,
    pub last_event_ms: u64,
    pub tank: Option<Seq<char>>,
    pub events: Seq<EventView>,
}

impl View for Session {
    type V = SessionView;

    open spec fn view(&self) -> SessionView {
        SessionView {
            id: self.id,
            kind: self.kind,
            started_at_ms: self.started_at_ms,
            ended_at_ms: self.ended_at_ms,
            last_event_ms: self.last_event_ms,
            tank: opt_view(self.tank),
            events: events_view(self.events@),
        }
    }
}

pub open spec fn sessions_view(sessions: Seq<Session>) -> Seq<SessionView> {
    sessions.map_values(|s: Session| s@)
}

pub open spec fn new_session(id: u64, kind: SessionKind, at_ms: u64) -> SessionView {
    SessionView {
        id,
        kind,
        started_at_ms: at_ms,
        ended_at_ms: None,
        last_event_ms: at_ms,
        tank: None,
        events: Seq::empty(),
    }
}

/// When a session ends: its last event, and never before it started.
pub open spec fn spec_session_end(s: SessionView) -> u64 {
    if s.last_event_ms > s.started_at_ms {
        s.last_event_ms
    } else {
        s.started_at_ms
    }
}

impl Session {
    fn new(id: u64, kind: SessionKind, at_ms: u64) -> (s: Session)
        ensures
            s@ == new_session(id, kind, at_ms),
    {
        let s = Session {
            id,
            kind,
            started_at_ms: at_ms,
            ended_at_ms: None,
            last_event_ms: at_ms,
            tank: None,
            events: Vec::new(),
        };
        assert(s@.events == Seq::<EventView>::empty());
        s
    }

    /// How many heals the session holds.
    pub fn heal_count(&self) -> (n: usize)
        ensures
            n == heals_in(self@.events),
    {
        let mut n: usize = 0;
        for i in 0..self.events.len()
            invariant
                n == heals_in(events_view(self.events@).take(i as int)),
                n <= i,
        {
            proof {
                let es = events_view(self.events@);
                assert(es.take(i + 1).drop_last() == es.take(i as int));
            }
            if self.events[i].kind == ChainEventKind::Heal {
                n += 1;
            }
        }
        assert(events_view(self.events@).take(self.events@.len() as int) == events_view(self.events@));
        n
    }

    /// A copy with the same contents.
    pub fn copy(&self) -> (s: Session)
        ensures
            s@ == self@,
    {
        let mut events: Vec<ChainEvent> = Vec::new();
        for i in 0..self.events.len()
            invariant
                events@.len() == i,
                events_view(events@) == events_view(self.events@).take(i as int),
        {
            let ghost before = events@;
            events.push(self.events[i].copy());
            proof {
                assert forall|k: int| 0 <= k < i + 1 implies events_view(events@)[k] == events_view(
                    self.events@,
                ).take(i + 1)[k] by {
                    if k < i {
                        assert(events@[k] == before[k]);
                        assert(events_view(before)[k] == events_view(self.events@).take(i as int)[k]);
                    }
                }
                assert(events_view(events@) =~= events_view(self.events@).take(i + 1));
            }
        }
        assert(events_view(self.events@).take(self.events@.len() as int) == events_view(self.events@));
        Session {
            id: self.id,
            kind: self.kind,
            started_at_ms: self.started_at_ms,
            ended_at_ms: self.ended_at_ms,
            last_event_ms: self.last_event_ms,
            tank: copy_text(&self.tank),
            events,
        }
    }
}

pub fn session_end_ms(session: &Session) -> (end: u64)
    ensures
        end == spec_session_end(session@),
{
    if session.last_event_ms > session.started_at_ms {
        session.last_event_ms
    } else {
        session.started_at_ms
    }
}

// -------------------------------------------------------------- recorder

/// What a recorder holds: its sessions, oldest first, the id the next
/// session gets, and whether finished sessions changed since the last save.
pub struct RecorderView {
    pub sessions: Seq<SessionView>,
    pub next_id: u64,
    pub needs_save: bool,
}

/// Files chain events into sessions as chains start, run and stop.
#[derive(Debug)]
pub struct Recorder {
    sessions: Vec<Session>,
    next_id: u64,
    needs_save: bool,
}

impl View for Recorder {
    type V = RecorderView;

    closed spec fn view(&self) -> RecorderView {
        RecorderView {
            sessions: sessions_view(self.sessions@),
            next_id: self.next_id,
            needs_save: self.needs_save,
        }
    }
}

/// The finished sessions, in order.
pub open spec fn finished_of(ss: Seq<SessionView>) -> Seq<SessionView>
    decreases ss.len(),
{
    if ss.len() == 0 {
        ss
    } else if ss.last().ended_at_ms is Some {
        finished_of(ss.drop_last()).push(ss.last())
    } else {
        finished_of(ss.drop_last())
    }
}

/// A chain that sent nothing for `IDLE_CLOSE_MS` while still open.
pub open spec fn is_stale(s: SessionView, now: u64) -> bool {
    s.ended_at_ms is None && now >= s.last_event_ms + IDLE_CLOSE_MS
}

/// What closing a stale session leaves: nothing if nobody healed on it,
/// else the session ended at its last event.
pub open spec fn settle(s: SessionView, now: u64) -> Seq<SessionView> {
    if is_stale(s, now) {
        if heals_in(s.events) == 0 {
            Seq::empty()
        } else {
            seq![SessionView { ended_at_ms: Some(spec_session_end(s)), ..s }]
        }
    } else {
        seq![s]
    }
}

pub open spec fn settle_all(ss: Seq<SessionView>, now: u64) -> Seq<SessionView>
    decreases ss.len(),
{
    if ss.len() == 0 {
        Seq::empty()
    } else {
        settle(ss[0], now) + settle_all(ss.drop_first(), now)
    }
}

pub open spec fn any_stale(ss: Seq<SessionView>, now: u64) -> bool {
    exists|i: int| 0 <= i < ss.len() && #[trigger] is_stale(ss[i], now)
}

/// Every chain that went quiet by `now` closed.
pub open spec fn close_idle(r: RecorderView, now: u64) -> RecorderView {
    RecorderView {
        sessions: settle_all(r.sessions, now),
        next_id: r.next_id,
        needs_save: r.needs_save || any_stale(r.sessions, now),
    }
}

/// The first open session of this kind at `i` or later.
pub open spec fn open_from(ss: Seq<SessionView>, kind: SessionKind, i: int) -> Option<int>
    decreases ss.len() - i,
{
    if i < 0 || i >= ss.len() {
        None
    } else if ss[i].kind == kind && ss[i].ended_at_ms is None {
        Some(i)
    } else {
        open_from(ss, kind, i + 1)
    }
}

pub open spec fn open_index_of(ss: Seq<SessionView>, kind: SessionKind) -> Option<int> {
    open_from(ss, kind, 0)
}

/// The newest `MAX_SESSIONS` sessions.
pub open spec fn keep_newest(ss: Seq<SessionView>) -> Seq<SessionView> {
    if ss.len() > MAX_SESSIONS {
        ss.skip(ss.len() - MAX_SESSIONS)
    } else {
        ss
    }
}

/// A session with one more event: the newest `MAX_EVENTS` are kept, the
/// clock moves forward, and the first tank named sticks.
pub open spec fn file_event(s: SessionView, e: EventView) -> SessionView {
    SessionView {
        last_event_ms: if e.at_ms > s.last_event_ms { e.at_ms } else { s.last_event_ms },
        tank: if s.tank is None { e.tank } else { s.tank },
        events: (if s.events.len() >= MAX_EVENTS { s.events.drop_first() } else { s.events }).push(e),
        ..s
    }
}

/// Closing session `index` at `at`: dropped if nobody healed on it.
pub open spec fn close_in(ss: Seq<SessionView>, index: int, at: u64) -> Seq<SessionView> {
    if heals_in(ss[index].events) == 0 {
        ss.remove(index)
    } else {
        ss.update(index, SessionView { ended_at_ms: Some(at), ..ss[index] })
    }
}

/// One event filed: quiet chains close first; a heal, claim or start with no
/// open session of its kind opens one; the event lands in the open session,
/// and a stop or reset closes it. The flag says whether anything changed.
pub open spec fn record_one(r: RecorderView, kind: SessionKind, e: EventView) -> (RecorderView, bool) {
    let r1 = close_idle(r, e.at_ms);
    let stale = any_stale(r.sessions, e.at_ms);
    let opens = open_index_of(r1.sessions, kind) is None && spec_starts_a_session(e.kind);
    let r2 = if opens {
        RecorderView {
            sessions: keep_newest(r1.sessions.push(new_session(r1.next_id, kind, e.at_ms))),
            next_id: (r1.next_id + 1) as u64,
            needs_save: r1.needs_save,
        }
    } else {
        r1
    };
    match open_index_of(r2.sessions, kind) {
        None => (r2, stale),
        Some(index) => {
            let s = file_event(r2.sessions[index], e);
            let ss = r2.sessions.update(index, s);
            if ends_a_session(e.kind) {
                (RecorderView { sessions: close_in(ss, index, spec_session_end(s)), next_id: r2.next_id, needs_save: true }, true)
            } else {
                (RecorderView { sessions: ss, next_id: r2.next_id, needs_save: r2.needs_save }, true)
            }
        },
    }
}

/// The first `n` events filed one after another.
pub open spec fn record_all(r: RecorderView, kind: SessionKind, es: Seq<EventView>, n: int) -> (RecorderView, bool)
    decreases n,
{
    if n <= 0 {
        (r, false)
    } else {
        let (a, c) = record_all(r, kind, es, n - 1);
        let (b, d) = record_one(a, kind, es[n - 1]);
        (b, c || d)
    }
}

proof fn lemma_settle_all_step(ss: Seq<SessionView>, now: u64, i: int)
    requires
        1 <= i <= ss.len(),
    ensures
        settle_all(ss.skip(i - 1), now) == settle(ss[i - 1], now) + settle_all(ss.skip(i), now),
        any_stale(ss.skip(i - 1), now) == (is_stale(ss[i - 1], now) || any_stale(ss.skip(i), now)),
{
    assert(ss.skip(i - 1).drop_first() =~= ss.skip(i));
    assert(ss.skip(i - 1)[0] == ss[i - 1]);
    if any_stale(ss.skip(i - 1), now) {
        let k = choose|k: int| 0 <= k < ss.skip(i - 1).len() && #[trigger] is_stale(ss.skip(i - 1)[k], now);
        if k > 0 {
            assert(ss.skip(i)[k - 1] == ss.skip(i - 1)[k]);
        }
    }
    if any_stale(ss.skip(i), now) {
        let k = choose|k: int| 0 <= k < ss.skip(i).len() && #[trigger] is_stale(ss.skip(i)[k], now);
        assert(ss.skip(i - 1)[k + 1] == ss.skip(i)[k]);
    }
}

proof fn lemma_open_from_after(ss: Seq<SessionView>, kind: SessionKind, i: int, j: int)
    requires
        0 <= i <= j <= ss.len(),
        forall|k: int| i <= k < j ==> !(ss[k].kind == kind && ss[k].ended_at_ms is None),
    ensures
        open_from(ss, kind, i) == open_from(ss, kind, j),
    decreases j - i,
{
    if i < j {
        lemma_open_from_after(ss, kind, i + 1, j);
    }
}

proof fn lemma_events_remove(s: Seq<ChainEvent>, i: int)
    requires
        0 <= i < s.len(),
    ensures
        events_view(s.remove(i)) =~= events_view(s).remove(i),
{
    assert forall|j: int| 0 <= j < s.len() - 1 implies events_view(s.remove(i))[j] == events_view(s).remove(i)[j] by {
        if j < i {
            assert(s.remove(i)[j] == s[j]);
        } else {
            assert(s.remove(i)[j] == s[j + 1]);
        }
    }
}

proof fn lemma_sessions_remove(s: Seq<Session>, i: int)
    requires
        0 <= i < s.len(),
    ensures
        sessions_view(s.remove(i)) =~= sessions_view(s).remove(i),
{
    assert forall|j: int| 0 <= j < s.len() - 1 implies sessions_view(s.remove(i))[j] == sessions_view(s).remove(i)[j] by {
        if j < i {
            assert(s.remove(i)[j] == s[j]);
        } else {
            assert(s.remove(i)[j] == s[j + 1]);
        }
    }
}

proof fn lemma_sessions_insert(s: Seq<Session>, i: int, x: Session)
    requires
        0 <= i <= s.len(),
    ensures
        sessions_view(s.insert(i, x)) =~= sessions_view(s).insert(i, x@),
{
    assert forall|j: int| 0 <= j < s.len() + 1 implies sessions_view(s.insert(i, x))[j] == sessions_view(s).insert(i, x@)[j] by {
        if j < i {
            assert(s.insert(i, x)[j] == s[j]);
        } else if j > i {
            assert(s.insert(i, x)[j] == s[j - 1]);
        }
    }
}

impl Recorder {
    pub fn new() -> (r: Recorder)
        ensures
            r@.sessions.len() == 0,
            r@.next_id == 0,
            !r@.needs_save,
            recorder_ok(r@),
    {
        let r = Recorder { sessions: Vec::new(), next_id: 0, needs_save: false };
        assert(r@.sessions =~= Seq::<SessionView>::empty());
        r
    }

    /// The sessions, oldest first.
    pub fn sessions(&self) -> (s: &Vec<Session>)
        ensures
            sessions_view(s@) == self@.sessions,
    {
        &self.sessions
    }

    /// Forgets every session.
    pub fn clear(&mut self)
        ensures
            final(self)@.sessions.len() == 0,
            final(self)@.next_id == old(self)@.next_id,
            final(self)@.needs_save,
            recorder_ok(final(self)@),
    {
        self.sessions.clear();
        self.needs_save = true;
        assert(self@.sessions =~= Seq::<SessionView>::empty());
    }

    /// Where the open session of this kind is, if one is open.
    fn open_index(&self, kind: SessionKind) -> (r: Option<usize>)
        ensures
            match r {
                Some(i) => {
                    &&& open_index_of(self@.sessions, kind) == Some(i as int)
                    &&& i < self@.sessions.len()
                },
                None => open_index_of(self@.sessions, kind) is None,
            },
    {
        let n = self.sessions.len();
        let mut i: usize = 0;
        while i < n
            invariant
                n == self.sessions@.len(),
                i <= n,
                open_index_of(self@.sessions, kind) == open_from(self@.sessions, kind, i as int),
            decreases n - i,
        {
            if self.sessions[i].kind == kind && self.sessions[i].ended_at_ms.is_none() {
                assert(self@.sessions[i as int] == self.sessions@[i as int]@);
                assert(self@.sessions.len() == self.sessions@.len());
                return Some(i);
            }
            assert(self@.sessions[i as int] == self.sessions@[i as int]@);
            i += 1;
        }
        None
    }

    /// Sessions where nobody ever cast are dropped instead of kept as clutter.
    fn close(&mut self, index: usize, at_ms: u64)
        requires
            index < old(self)@.sessions.len(),
        ensures
            final(self)@ == (RecorderView {
                sessions: close_in(old(self)@.sessions, index as int, at_ms),
                next_id: old(self)@.next_id,
                needs_save: true,
            }),
    {
        self.needs_save = true;
        let ghost before = self.sessions@;
        assert(sessions_view(before)[index as int] == before[index as int]@);
        if self.sessions[index].heal_count() == 0 {
            self.sessions.remove(index);
            assert(sessions_view(self.sessions@) =~= sessions_view(before).remove(index as int));
            return;
        }
        let mut session = self.sessions.remove(index);
        session.ended_at_ms = Some(at_ms);
        self.sessions.insert(index, session);
        assert(sessions_view(self.sessions@) =~= sessions_view(before).update(
            index as int,
            SessionView { ended_at_ms: Some(at_ms), ..sessions_view(before)[index as int] },
        ));
    }

    /// Closes chains that stopped sending events without a `!stopchain`.
    pub fn close_idle_at(&mut self, now: u64) -> (changed: bool)
        ensures
            final(self)@ == close_idle(old(self)@, now),
            changed == any_stale(old(self)@.sessions, now),
            recorder_ok(old(self)@) ==> recorder_ok(final(self)@),
    {
        proof {
            if recorder_ok(self@) {
                lemma_close_idle_keeps_shape(self@, now);
            }
        }
        let ghost orig = self@.sessions;
        let mut changed = false;
        let mut i = self.sessions.len();
        assert(orig.skip(i as int) =~= Seq::<SessionView>::empty());
        assert(orig.take(i as int) =~= orig);
        while i > 0
            invariant
                i <= orig.len(),
                self@.sessions == orig.take(i as int) + settle_all(orig.skip(i as int), now),
                self@.next_id == old(self)@.next_id,
                self@.needs_save == (old(self)@.needs_save || any_stale(orig.skip(i as int), now)),
                changed == any_stale(orig.skip(i as int), now),
                orig == old(self)@.sessions,
            decreases i,
        {
            proof {
                lemma_settle_all_step(orig, now, i as int);
            }
            let index = i - 1;
            assert(self@.sessions.len() >= i);
            assert(self.sessions@.len() == self@.sessions.len());
            assert(self.sessions@[index as int]@ == self@.sessions[index as int]);
            assert(self@.sessions[index as int] == orig[index as int]);
            let session = &self.sessions[index];
            let stale = session.ended_at_ms.is_none() && now >= session.last_event_ms && now
                - session.last_event_ms >= IDLE_CLOSE_MS;
            if stale {
                let end = session_end_ms(&self.sessions[index]);
                let ghost rest = settle_all(orig.skip(i as int), now);
                self.close(index, end);
                changed = true;
                proof {
                    let s = orig[index as int];
                    if heals_in(s.events) == 0 {
                        assert(self@.sessions =~= orig.take(index as int) + settle_all(orig.skip(index as int), now));
                    } else {
                        assert(self@.sessions =~= orig.take(index as int) + settle_all(orig.skip(index as int), now));
                    }
                }
            } else {
                assert(self@.sessions =~= orig.take(index as int) + settle_all(orig.skip(index as int), now));
            }
            i = index;
        }
        assert(orig.skip(0) =~= orig);
        assert(self@.sessions =~= settle_all(orig, now));
        changed
    }

    /// Opens a session of this kind for an event that can start one, unless
    /// one is open already; then says where the open session is.
    fn open_for(&mut self, kind: SessionKind, event_kind: ChainEventKind, at_ms: u64) -> (open: Option<usize>)
        requires
            old(self)@.next_id < u64::MAX,
        ensures
            ({
                let r1 = old(self)@;
                let opens = open_index_of(r1.sessions, kind) is None && spec_starts_a_session(event_kind);
                &&& final(self)@ == if opens {
                    RecorderView {
                        sessions: keep_newest(r1.sessions.push(new_session(r1.next_id, kind, at_ms))),
                        next_id: (r1.next_id + 1) as u64,
                        needs_save: r1.needs_save,
                    }
                } else {
                    r1
                }
            }),
            match open {
                Some(i) => {
                    &&& open_index_of(final(self)@.sessions, kind) == Some(i as int)
                    &&& i < final(self)@.sessions.len()
                },
                None => open_index_of(final(self)@.sessions, kind) is None,
            },
    {
        let open = self.open_index(kind);
        if open.is_some() || !starts_a_session(event_kind) {
            return open;
        }
        let ghost r1 = self@;
        let id = self.next_id;
        self.next_id += 1;
        let ghost pushed = r1.sessions.push(new_session(r1.next_id, kind, at_ms));
        self.sessions.push(Session::new(id, kind, at_ms));
        assert(sessions_view(self.sessions@) =~= pushed);
        assert(self.sessions.len() == pushed.len());
        let mut dropped: usize = 0;
        while self.sessions.len() > MAX_SESSIONS
            invariant
                sessions_view(self.sessions@) == pushed.skip(dropped as int),
                dropped <= pushed.len(),
                self.sessions@.len() == pushed.len() - dropped,
                pushed.len() <= usize::MAX,
                pushed.len() > MAX_SESSIONS ==> dropped <= pushed.len() - MAX_SESSIONS,
                pushed.len() <= MAX_SESSIONS ==> dropped == 0,
                self.next_id == r1.next_id + 1,
                self.needs_save == r1.needs_save,
            decreases self.sessions@.len(),
        {
            let ghost b = self.sessions@;
            self.sessions.remove(0);
            proof {
                lemma_sessions_remove(b, 0);
                assert(pushed.skip(dropped as int).remove(0) =~= pushed.skip(dropped + 1));
            }
            dropped += 1;
        }
        assert(self@.sessions =~= keep_newest(pushed));
        self.open_index(kind)
    }

    /// Files one event into session `index`.
    fn file_into(&mut self, index: usize, event: ChainEvent)
        requires
            index < old(self)@.sessions.len(),
        ensures
            final(self)@ == (RecorderView {
                sessions: old(self)@.sessions.update(index as int, file_event(old(self)@.sessions[index as int], event@)),
                ..old(self)@
            }),
    {
        let ghost r2 = self@;
        let ghost e1 = event@;
        let ghost before = self.sessions@;
        assert(sessions_view(before)[index as int] == before[index as int]@);
        let mut session = self.sessions.remove(index);
        let ghost s0 = session@;
        proof {
            lemma_sessions_remove(before, index as int);
        }
        if event.at_ms > session.last_event_ms {
            session.last_event_ms = event.at_ms;
        }
        if session.tank.is_none() {
            session.tank = copy_text(&event.tank);
        }
        let ghost ev0 = session.events@;
        if session.events.len() >= MAX_EVENTS {
            session.events.remove(0);
            proof {
                lemma_events_remove(ev0, 0);
            }
            assert(events_view(session.events@) =~= events_view(ev0).drop_first());
        }
        let ghost ev1 = session.events@;
        session.events.push(event);
        assert(events_view(session.events@) =~= events_view(ev1).push(e1));
        assert(session@ == file_event(s0, e1));
        let ghost mid = self.sessions@;
        let ghost placed = session;
        self.sessions.insert(index, session);
        proof {
            lemma_sessions_insert(mid, index as int, placed);
        }
        assert(self@.sessions =~= r2.sessions.update(index as int, file_event(s0, e1)));
    }

    /// Files one event, as `record_one` says.
    fn record_event(&mut self, kind: SessionKind, event: ChainEvent) -> (changed: bool)
        requires
            old(self)@.next_id < u64::MAX,
        ensures
            (final(self)@, changed) == record_one(old(self)@, kind, event@),
    {
        let ghost e = event@;
        let stale = self.close_idle_at(event.at_ms);
        let open = self.open_for(kind, event.kind, event.at_ms);
        match open {
            None => stale,
            Some(index) => {
                let ends = event.kind == ChainEventKind::Stop || event.kind == ChainEventKind::Reset;
                self.file_into(index, event);
                if ends {
                    assert(self@.sessions.len() == self.sessions@.len());
                    let end = session_end_ms(&self.sessions[index]);
                    assert(self.sessions@[index as int]@ == self@.sessions[index as int]);
                    self.close(index, end);
                }
                true
            },
        }
    }

    /// Files a batch of chain events into the open session for that chain,
    /// opening and closing sessions as the chain starts and stops. Says
    /// whether anything changed.
    pub fn record(&mut self, kind: SessionKind, events: Vec<ChainEvent>) -> (changed: bool)
        requires
            old(self)@.next_id + events@.len() <= u64::MAX,
        ensures
            (final(self)@, changed) == record_all(old(self)@, kind, events_view(events@), events@.len() as int),
            recorder_ok(old(self)@) ==> recorder_ok(final(self)@),
    {
        let ghost all = events_view(events@);
        let n = events.len();
        let mut events = events;
        let mut changed = false;
        let mut k: usize = 0;
        assert(events_view(events@) =~= all.skip(0));
        while k < n
            invariant
                k <= n,
                n == all.len(),
                events_view(events@) == all.skip(k as int),
                events@.len() == n - k,
                (self@, changed) == record_all(old(self)@, kind, all, k as int),
                self@.next_id <= old(self)@.next_id + k,
                old(self)@.next_id + n <= u64::MAX,
            decreases n - k,
        {
            let ghost pending = events@;
            let event = events.remove(0);
            proof {
                assert(event@ == all[k as int]) by {
                    assert(all.skip(k as int)[0] == all[k as int]);
                    assert(events_view(pending)[0] == pending[0]@);
                }
                lemma_events_remove(pending, 0);
                assert(events_view(events@) =~= all.skip(k + 1));
            }
            let ghost r0 = self@;
            let one = self.record_event(kind, event);
            changed = changed || one;
            proof {
                lemma_record_one_next_id(r0, kind, all[k as int]);
            }
            k += 1;
        }
        proof {
            if recorder_ok(old(self)@) {
                lemma_record_keeps_shape(old(self)@, kind, all, n as int);
            }
        }
        changed
    }

    /// The finished sessions, once after every change to them; nothing when
    /// nothing changed since the last time.
    pub fn sessions_to_save(&mut self) -> (r: Option<Vec<Session>>)
        ensures
            final(self)@.sessions == old(self)@.sessions,
            final(self)@.next_id == old(self)@.next_id,
            !final(self)@.needs_save,
            match r {
                None => !old(self)@.needs_save,
                Some(v) => old(self)@.needs_save && sessions_view(v@) == finished_of(old(self)@.sessions),
            },
    {
        if !self.needs_save {
            return None;
        }
        self.needs_save = false;
        let ghost all = self@.sessions;
        let mut finished: Vec<Session> = Vec::new();
        for i in 0..self.sessions.len()
            invariant
                all == sessions_view(self.sessions@),
                sessions_view(finished@) == finished_of(all.take(i as int)),
        {
            proof {
                assert(all.take(i + 1).drop_last() == all.take(i as int));
                assert(all[i as int] == self.sessions@[i as int]@);
            }
            if self.sessions[i].ended_at_ms.is_some() {
                let ghost before = finished@;
                let c = self.sessions[i].copy();
                finished.push(c);
                assert(sessions_view(finished@) =~= sessions_view(before).push(c@));
            }
        }
        assert(all.take(self.sessions@.len() as int) == all);
        Some(finished)
    }

    /// A recorder holding sessions read back from disk; new sessions get ids
    /// after the highest one there.
    pub fn from_sessions(sessions: Vec<Session>) -> (r: Recorder)
        requires
            forall|i: int| 0 <= i < sessions@.len() ==> (#[trigger] sessions@[i]).id < u64::MAX,
        ensures
            r@.sessions == sessions_view(sessions@),
            !r@.needs_save,
            forall|i: int| 0 <= i < sessions@.len() ==> (#[trigger] sessions@[i]).id < r@.next_id,
            sessions@.len() == 0 ==> r@.next_id == 1,
            sessions@.len() > 0 ==> exists|i: int| 0 <= i < sessions@.len() && r@.next_id == (#[trigger] sessions@[i]).id + 1,
    {
        let mut highest: u64 = 0;
        let mut at: usize = 0;
        for i in 0..sessions.len()
            invariant
                forall|k: int| 0 <= k < sessions@.len() ==> (#[trigger] sessions@[k]).id < u64::MAX,
                forall|k: int| 0 <= k < i ==> (#[trigger] sessions@[k]).id <= highest,
                i > 0 ==> at < i && sessions@[at as int].id == highest,
                i == 0 ==> highest == 0,
        {
            if i == 0 || sessions[i].id > highest {
                highest = sessions[i].id;
                at = i;
            }
        }
        Recorder { sessions, next_id: highest + 1, needs_save: false }
    }
}

proof fn lemma_record_one_next_id(r: RecorderView, kind: SessionKind, e: EventView)
    requires
        r.next_id < u64::MAX,
    ensures
        record_one(r, kind, e).0.next_id <= r.next_id + 1,
{
}

// ----------------------------------------------------------------- laws

pub open spec fn is_open(s: SessionView) -> bool {
    s.ended_at_ms is None
}

/// A session as the recorder keeps it: no more than `MAX_EVENTS` events, and
/// closed only if somebody healed on it.
pub open spec fn session_ok(s: SessionView) -> bool {
    &&& s.events.len() <= MAX_EVENTS
    &&& (s.ended_at_ms is Some ==> heals_in(s.events) > 0)
}

pub open spec fn all_ok(ss: Seq<SessionView>) -> bool {
    forall|i: int| 0 <= i < ss.len() ==> #[trigger] session_ok(ss[i])
}

/// No two open sessions follow the same chain.
pub open spec fn one_open_per_kind(ss: Seq<SessionView>) -> bool {
    forall|i: int, j: int|
        0 <= i < j < ss.len() && #[trigger] is_open(ss[i]) && #[trigger] is_open(ss[j]) ==> ss[i].kind != ss[j].kind
}

/// What the recorder always holds: at most `MAX_SESSIONS` sessions, each
/// kept as `session_ok` says, and at most one open session per chain.
pub open spec fn recorder_ok(r: RecorderView) -> bool {
    &&& r.sessions.len() <= MAX_SESSIONS
    &&& all_ok(r.sessions)
    &&& one_open_per_kind(r.sessions)
}

/// Every open session left after settling was there, untouched, before.
pub open spec fn opens_from(after: Seq<SessionView>, before: Seq<SessionView>) -> bool {
    forall|i: int|
        0 <= i < after.len() && #[trigger] is_open(after[i]) ==> exists|k: int|
            0 <= k < before.len() && #[trigger] before[k] == after[i]
}

proof fn lemma_settle_all_shape(ss: Seq<SessionView>, now: u64)
    requires
        all_ok(ss),
        one_open_per_kind(ss),
    ensures
        settle_all(ss, now).len() <= ss.len(),
        all_ok(settle_all(ss, now)),
        one_open_per_kind(settle_all(ss, now)),
        opens_from(settle_all(ss, now), ss),
    decreases ss.len(),
{
    if ss.len() > 0 {
        let rest = ss.drop_first();
        assert forall|i: int| 0 <= i < rest.len() implies #[trigger] session_ok(rest[i]) by {
            assert(rest[i] == ss[i + 1]);
        }
        assert forall|i: int, j: int|
            0 <= i < j < rest.len() && #[trigger] is_open(rest[i]) && #[trigger] is_open(rest[j]) implies rest[i].kind
            != rest[j].kind by {
            assert(rest[i] == ss[i + 1] && rest[j] == ss[j + 1]);
        }
        lemma_settle_all_shape(rest, now);
        let head = settle(ss[0], now);
        let tail = settle_all(rest, now);
        let all = head + tail;
        assert(session_ok(ss[0]));
        assert(all == settle_all(ss, now));
        assert forall|i: int| 0 <= i < all.len() implies #[trigger] session_ok(all[i]) by {
            if i >= head.len() {
                assert(all[i] == tail[i - head.len()]);
            }
        }
        assert forall|i: int| 0 <= i < all.len() && #[trigger] is_open(all[i]) implies exists|k: int|
            0 <= k < ss.len() && #[trigger] ss[k] == all[i] by {
            if i < head.len() {
                assert(all[i] == ss[0]);
            } else {
                assert(all[i] == tail[i - head.len()]);
                assert(is_open(tail[i - head.len()]));
                let k = choose|k: int| 0 <= k < rest.len() && #[trigger] rest[k] == tail[i - head.len()];
                assert(ss[k + 1] == rest[k]);
            }
        }
        assert forall|i: int, j: int|
            0 <= i < j < all.len() && #[trigger] is_open(all[i]) && #[trigger] is_open(all[j]) implies all[i].kind
            != all[j].kind by {
            if j < head.len() {
            } else if i < head.len() {
                assert(all[i] == ss[0]);
                assert(all[j] == tail[j - head.len()]);
                assert(is_open(tail[j - head.len()]));
                let k = choose|k: int| 0 <= k < rest.len() && #[trigger] rest[k] == tail[j - head.len()];
                assert(ss[k + 1] == rest[k]);
                assert(is_open(ss[0]) && is_open(ss[k + 1]));
            } else {
                assert(all[i] == tail[i - head.len()]);
                assert(all[j] == tail[j - head.len()]);
            }
        }
    } else {
        assert(settle_all(ss, now) =~= Seq::<SessionView>::empty());
    }
}

proof fn lemma_open_from_none(ss: Seq<SessionView>, kind: SessionKind, i: int)
    requires
        0 <= i <= ss.len(),
        open_from(ss, kind, i) is None,
    ensures
        forall|k: int| i <= k < ss.len() ==> !(#[trigger] is_open(ss[k]) && ss[k].kind == kind),
    decreases ss.len() - i,
{
    if i < ss.len() {
        lemma_open_from_none(ss, kind, i + 1);
    }
}

proof fn lemma_open_from_some(ss: Seq<SessionView>, kind: SessionKind, i: int)
    requires
        0 <= i <= ss.len(),
        open_from(ss, kind, i) is Some,
    ensures
        ({
            let k = open_from(ss, kind, i)->0;
            i <= k < ss.len() && is_open(ss[k]) && ss[k].kind == kind
        }),
    decreases ss.len() - i,
{
    if i < ss.len() && !(ss[i].kind == kind && ss[i].ended_at_ms is None) {
        lemma_open_from_some(ss, kind, i + 1);
    }
}

proof fn lemma_skip_keeps(ss: Seq<SessionView>, n: int)
    requires
        0 <= n <= ss.len(),
        all_ok(ss),
        one_open_per_kind(ss),
    ensures
        all_ok(ss.skip(n)),
        one_open_per_kind(ss.skip(n)),
{
    let t = ss.skip(n);
    assert forall|i: int| 0 <= i < t.len() implies #[trigger] session_ok(t[i]) by {
        assert(t[i] == ss[i + n]);
    }
    assert forall|i: int, j: int|
        0 <= i < j < t.len() && #[trigger] is_open(t[i]) && #[trigger] is_open(t[j]) implies t[i].kind != t[j].kind by {
        assert(t[i] == ss[i + n] && t[j] == ss[j + n]);
    }
}

/// Closing quiet chains keeps the recorder in shape.
pub proof fn lemma_close_idle_keeps_shape(r: RecorderView, now: u64)
    requires
        recorder_ok(r),
    ensures
        recorder_ok(close_idle(r, now)),
{
    lemma_settle_all_shape(r.sessions, now);
}

/// Filing an event keeps the recorder in shape: it never holds more than
/// `MAX_SESSIONS` sessions or a session with more than `MAX_EVENTS` events,
/// never keeps a closed session nobody healed on, and never has two open
/// sessions on the same chain.
#[verifier::rlimit(40)]
#[verifier::spinoff_prover]
pub proof fn lemma_record_one_keeps_shape(r: RecorderView, kind: SessionKind, e: EventView)
    requires
        recorder_ok(r),
    ensures
        recorder_ok(record_one(r, kind, e).0),
{
    let r1 = close_idle(r, e.at_ms);
    lemma_close_idle_keeps_shape(r, e.at_ms);
    let opens = open_index_of(r1.sessions, kind) is None && spec_starts_a_session(e.kind);
    let pushed = r1.sessions.push(new_session(r1.next_id, kind, e.at_ms));
    let r2 = if opens {
        RecorderView { sessions: keep_newest(pushed), next_id: (r1.next_id + 1) as u64, needs_save: r1.needs_save }
    } else {
        r1
    };
    if opens {
        lemma_open_from_none(r1.sessions, kind, 0);
        assert forall|i: int| 0 <= i < pushed.len() implies #[trigger] session_ok(pushed[i]) by {
            if i < r1.sessions.len() {
                assert(pushed[i] == r1.sessions[i]);
            }
        }
        assert forall|i: int, j: int|
            0 <= i < j < pushed.len() && #[trigger] is_open(pushed[i]) && #[trigger] is_open(pushed[j]) implies pushed[i].kind
            != pushed[j].kind by {
            assert(pushed[i] == r1.sessions[i]);
            if j < r1.sessions.len() {
                assert(pushed[j] == r1.sessions[j]);
            }
        }
        if pushed.len() > MAX_SESSIONS {
            lemma_skip_keeps(pushed, pushed.len() - MAX_SESSIONS);
        }
    }
    assert(recorder_ok(r2));
    match open_index_of(r2.sessions, kind) {
        None => {},
        Some(index) => {
            lemma_open_from_some(r2.sessions, kind, 0);
            let s = file_event(r2.sessions[index], e);
            let ss = r2.sessions.update(index, s);
            assert(session_ok(r2.sessions[index]));
            assert(session_ok(s));
            assert forall|i: int| 0 <= i < ss.len() implies #[trigger] session_ok(ss[i]) by {
                if i != index {
                    assert(ss[i] == r2.sessions[i]);
                }
            }
            assert forall|i: int, j: int|
                0 <= i < j < ss.len() && #[trigger] is_open(ss[i]) && #[trigger] is_open(ss[j]) implies ss[i].kind
                != ss[j].kind by {
                assert(is_open(r2.sessions[i]) && is_open(r2.sessions[j]));
            }
            if ends_a_session(e.kind) {
                let closed = close_in(ss, index, spec_session_end(s));
                if heals_in(ss[index].events) == 0 {
                    assert forall|i: int| 0 <= i < closed.len() implies #[trigger] session_ok(closed[i]) by {
                        if i < index {
                            assert(closed[i] == ss[i]);
                        } else {
                            assert(closed[i] == ss[i + 1]);
                        }
                    }
                    assert forall|i: int, j: int|
                        0 <= i < j < closed.len() && #[trigger] is_open(closed[i]) && #[trigger] is_open(closed[j]) implies closed[i].kind
                        != closed[j].kind by {
                        let a = if i < index { i } else { i + 1 };
                        let b = if j < index { j } else { j + 1 };
                        assert(closed[i] == ss[a] && closed[j] == ss[b]);
                    }
                } else {
                    assert forall|i: int| 0 <= i < closed.len() implies #[trigger] session_ok(closed[i]) by {
                        if i != index {
                            assert(closed[i] == ss[i]);
                        }
                    }
                    assert forall|i: int, j: int|
                        0 <= i < j < closed.len() && #[trigger] is_open(closed[i]) && #[trigger] is_open(closed[j]) implies closed[i].kind
                        != closed[j].kind by {
                        assert(closed[i] == ss[i] && closed[j] == ss[j]);
                    }
                }
            }
        },
    }
}

/// Filing any batch of events keeps the recorder in shape.
pub proof fn lemma_record_keeps_shape(r: RecorderView, kind: SessionKind, es: Seq<EventView>, n: int)
    requires
        recorder_ok(r),
        0 <= n <= es.len(),
    ensures
        recorder_ok(record_all(r, kind, es, n).0),
    decreases n,
{
    if n > 0 {
        lemma_record_keeps_shape(r, kind, es, n - 1);
        lemma_record_one_keeps_shape(record_all(r, kind, es, n - 1).0, kind, es[n - 1]);
    }
}

/// `!stopchain` and `!reset-chain` close the chain they stop: once either
/// is filed, no session of that chain is left open. The session it landed in
/// ends at its last event, or is dropped if nobody healed on it.
pub proof fn lemma_stop_or_reset_closes(r: RecorderView, kind: SessionKind, e: EventView)
    requires
        recorder_ok(r),
        e.kind == ChainEventKind::Stop || e.kind == ChainEventKind::Reset,
    ensures
        forall|i: int|
            0 <= i < record_one(r, kind, e).0.sessions.len() ==> !(#[trigger] is_open(
                record_one(r, kind, e).0.sessions[i],
            ) && record_one(r, kind, e).0.sessions[i].kind == kind),
{
    let r1 = close_idle(r, e.at_ms);
    lemma_close_idle_keeps_shape(r, e.at_ms);
    assert(!spec_starts_a_session(e.kind));
    let out = record_one(r, kind, e).0.sessions;
    match open_index_of(r1.sessions, kind) {
        None => {
            lemma_open_from_none(r1.sessions, kind, 0);
            assert(out == r1.sessions);
        },
        Some(index) => {
            lemma_open_from_some(r1.sessions, kind, 0);
            let s = file_event(r1.sessions[index], e);
            let ss = r1.sessions.update(index, s);
            assert(out == close_in(ss, index, spec_session_end(s)));
            assert forall|i: int| 0 <= i < out.len() implies !(#[trigger] is_open(out[i]) && out[i].kind == kind) by {
                if heals_in(ss[index].events) == 0 {
                    let a = if i < index { i } else { i + 1 };
                    assert(out[i] == ss[a]);
                    assert(ss[a] == r1.sessions[a]);
                    if is_open(out[i]) && out[i].kind == kind {
                        if a < index {
                            assert(is_open(r1.sessions[a]) && is_open(r1.sessions[index]));
                        } else {
                            assert(is_open(r1.sessions[index]) && is_open(r1.sessions[a]));
                        }
                    }
                } else if i != index {
                    assert(out[i] == r1.sessions[i]);
                    if is_open(out[i]) && out[i].kind == kind {
                        if i < index {
                            assert(is_open(r1.sessions[i]) && is_open(r1.sessions[index]));
                        } else {
                            assert(is_open(r1.sessions[index]) && is_open(r1.sessions[i]));
                        }
                    }
                }
            }
        },
    }
}

/// Whatever came before, a batch whose last event is `!stopchain` or
/// `!reset-chain` leaves no session of that chain open.
pub proof fn lemma_batch_ending_in_reset_closes(r: RecorderView, kind: SessionKind, es: Seq<EventView>, n: int)
    requires
        recorder_ok(r),
        1 <= n <= es.len(),
        es[n - 1].kind == ChainEventKind::Stop || es[n - 1].kind == ChainEventKind::Reset,
    ensures
        forall|i: int|
            0 <= i < record_all(r, kind, es, n).0.sessions.len() ==> !(#[trigger] is_open(
                record_all(r, kind, es, n).0.sessions[i],
            ) && record_all(r, kind, es, n).0.sessions[i].kind == kind),
{
    lemma_record_keeps_shape(r, kind, es, n - 1);
    lemma_stop_or_reset_closes(record_all(r, kind, es, n - 1).0, kind, es[n - 1]);
}

} // verus!
