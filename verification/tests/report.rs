use alfred::report::{
    missed_turns, session_end_ms, starts_a_session, ChainEvent, ChainEventKind, Recorder,
    SessionKind, IDLE_CLOSE_MS, MAX_SESSIONS,
};

fn heal(player: &str, number: u32, at_ms: u64, offset_ms: Option<i64>) -> ChainEvent {
    ChainEvent {
        at_ms,
        kind: ChainEventKind::Heal,
        player: Some(player.into()),
        is_you: player == "You",
        number: Some(number),
        target: Some("Mluian".into()),
        tank: Some("Mluian".into()),
        offset_ms,
        text: format!("{player} cast {number:03}"),
    }
}

fn plain(kind: ChainEventKind, at_ms: u64) -> ChainEvent {
    ChainEvent {
        at_ms,
        kind,
        player: Some("Lead".into()),
        is_you: false,
        number: None,
        target: None,
        tank: Some("Mluian".into()),
        offset_ms: None,
        text: "command".into(),
    }
}

#[test]
fn a_session_opens_on_start_and_closes_on_stop() {
    let mut recorder = Recorder::new();
    assert!(!recorder.record(SessionKind::Ch, vec![plain(ChainEventKind::Tank, 1_000)]));
    assert!(recorder.sessions().is_empty());

    recorder.record(
        SessionKind::Ch,
        vec![
            plain(ChainEventKind::Start, 2_000),
            heal("One", 1, 2_000, Some(0)),
            heal("Two", 2, 4_000, Some(100)),
            plain(ChainEventKind::Stop, 6_000),
        ],
    );
    let sessions = recorder.sessions();
    assert_eq!(sessions.len(), 1);
    assert_eq!(sessions[0].ended_at_ms, Some(6_000));
    assert_eq!(sessions[0].heal_count(), 2);
    assert_eq!(session_end_ms(&sessions[0]) - sessions[0].started_at_ms, 4_000);
    assert_eq!(sessions[0].tank.as_deref(), Some("Mluian"));
}

#[test]
fn a_session_without_a_heal_is_dropped() {
    let mut recorder = Recorder::new();
    recorder.record(
        SessionKind::Ch,
        vec![
            plain(ChainEventKind::Start, 1_000),
            plain(ChainEventKind::Stop, 2_000),
        ],
    );
    assert!(recorder.sessions().is_empty());
}

#[test]
fn a_quiet_chain_closes_itself_before_the_next_one_opens() {
    let mut recorder = Recorder::new();
    recorder.record(
        SessionKind::Ch,
        vec![
            plain(ChainEventKind::Start, 1_000),
            heal("One", 1, 2_000, Some(0)),
        ],
    );
    assert!(recorder.sessions()[0].ended_at_ms.is_none());
    recorder.record(
        SessionKind::Ch,
        vec![heal("One", 1, 2_000 + IDLE_CLOSE_MS, Some(0))],
    );
    let sessions = recorder.sessions();
    assert_eq!(sessions.len(), 2);
    assert_eq!(sessions[0].ended_at_ms, Some(2_000));
    assert!(sessions[1].ended_at_ms.is_none());
}

#[test]
fn ch_and_rampage_sessions_run_side_by_side() {
    let mut recorder = Recorder::new();
    recorder.record(SessionKind::Ch, vec![heal("One", 1, 1_000, Some(0))]);
    recorder.record(SessionKind::Rampage, vec![heal("Two", 1, 1_100, Some(0))]);
    let sessions = recorder.sessions();
    assert_eq!(sessions.len(), 2);
    assert!(sessions.iter().any(|s| s.kind == SessionKind::Rampage));
    assert!(sessions.iter().any(|s| s.kind == SessionKind::Ch));
}

#[test]
fn missed_turns_needs_a_rhythm_to_compare_against() {
    assert_eq!(missed_turns(&[]), 0);
    assert_eq!(missed_turns(&[1_000, 7_000]), 0);
    assert_eq!(missed_turns(&[0, 6_000, 12_000, 18_000]), 0);
    assert_eq!(missed_turns(&[0, 6_000, 18_000, 24_000]), 1);
    assert_eq!(missed_turns(&[0, 6_000, 24_000, 30_000]), 2);
    assert_eq!(missed_turns(&[5, 5, 5, 5]), 0);
}

#[test]
fn missed_turns_reads_cast_times_in_any_order() {
    assert_eq!(missed_turns(&[24_000, 0, 18_000, 6_000]), 1);
    // A gap of 1.75 cycles counts as one missed turn; just under it does not.
    assert_eq!(missed_turns(&[0, 4_000, 8_000, 15_000]), 1);
    assert_eq!(missed_turns(&[0, 4_000, 8_000, 14_999]), 0);
    // Two and a half cycles round up to three, so two turns went by.
    assert_eq!(missed_turns(&[0, 4_000, 8_000, 18_000]), 2);
}

#[test]
fn only_the_newest_sessions_are_kept() {
    let mut recorder = Recorder::new();
    for round in 0..(MAX_SESSIONS as u64 + 5) {
        let at = round * 10_000;
        recorder.record(
            SessionKind::Ch,
            vec![
                plain(ChainEventKind::Start, at),
                heal("One", 1, at, Some(0)),
                plain(ChainEventKind::Stop, at + 1_000),
            ],
        );
    }
    assert_eq!(recorder.sessions().len(), MAX_SESSIONS);
    assert_eq!(recorder.sessions()[0].started_at_ms, 50_000);
}

#[test]
fn clearing_drops_every_session() {
    let mut recorder = Recorder::new();
    recorder.record(SessionKind::Ch, vec![heal("One", 1, 1_000, Some(0))]);
    recorder.clear();
    assert!(recorder.sessions().is_empty());
}

#[test]
fn only_finished_sessions_are_saved_and_only_once() {
    let mut recorder = Recorder::new();
    assert!(recorder.sessions_to_save().is_none());
    recorder.record(SessionKind::Ch, vec![heal("One", 1, 1_000, Some(0))]);
    assert!(recorder.sessions_to_save().is_none());
    recorder.record(SessionKind::Ch, vec![plain(ChainEventKind::Stop, 2_000)]);
    recorder.record(SessionKind::Rampage, vec![heal("Two", 1, 2_500, Some(0))]);
    let saved = recorder.sessions_to_save().expect("a finished session");
    assert_eq!(saved.len(), 1);
    assert_eq!(saved[0].kind, SessionKind::Ch);
    assert!(recorder.sessions_to_save().is_none());

    let loaded = Recorder::from_sessions(saved);
    assert_eq!(loaded.sessions().len(), 1);
}

#[test]
fn events_that_can_open_a_session() {
    assert!(starts_a_session(ChainEventKind::Heal));
    assert!(starts_a_session(ChainEventKind::Start));
    assert!(starts_a_session(ChainEventKind::Claim));
    assert!(!starts_a_session(ChainEventKind::Stop));
    assert!(!starts_a_session(ChainEventKind::Tank));
}

#[test]
fn close_idle_at_reports_whether_anything_closed() {
    let mut recorder = Recorder::new();
    recorder.record(SessionKind::Ch, vec![heal("One", 1, 1_000, Some(0))]);
    assert!(!recorder.close_idle_at(1_000 + IDLE_CLOSE_MS - 1));
    assert!(recorder.close_idle_at(1_000 + IDLE_CLOSE_MS));
    assert_eq!(recorder.sessions()[0].ended_at_ms, Some(1_000));
}

#[test]
fn missed_turns_do_not_depend_on_the_order_of_the_casts() {
    let in_order = [0u64, 10_000, 20_000, 40_000, 50_000];
    let shuffled = [40_000u64, 0, 50_000, 20_000, 10_000];
    assert_eq!(missed_turns(&in_order), 1);
    assert_eq!(missed_turns(&shuffled), missed_turns(&in_order));
}
