use alfred::report::{ChainEvent, ChainEventKind};
use alfred::tally::tally_session;

fn event(kind: ChainEventKind, player: Option<&str>, number: Option<u32>, offset_ms: Option<i64>) -> ChainEvent {
    ChainEvent {
        at_ms: 1_000,
        kind,
        player: player.map(|p| p.to_string()),
        is_you: player == Some("You"),
        number,
        target: Some("Mluian".into()),
        tank: Some("Mluian".into()),
        offset_ms,
        text: "line".into(),
    }
}

#[test]
fn heals_are_sorted_into_on_time_early_and_late_by_a_quarter_second() {
    let mut events = Vec::new();
    for (i, offset) in [300i64, -300, 100, 250, -250, 251].iter().enumerate() {
        let mut e = event(ChainEventKind::Heal, Some("Two"), Some(2), Some(*offset));
        e.at_ms = 10_000 * (i as u64 + 1);
        events.push(e);
    }
    events.push(event(ChainEventKind::Heal, Some("Two"), Some(2), None));
    let (tallies, warnings) = tally_session(&events);
    assert_eq!(warnings, 0);
    assert_eq!(tallies.len(), 1);
    let two = &tallies[0];
    assert_eq!(two.player, "Two");
    assert_eq!(two.late, 2);
    assert_eq!(two.early, 1);
    assert_eq!(two.on_time, 3);
    assert_eq!(two.offsets_ms, vec![300, -300, 100, 250, -250, 251]);
    assert_eq!(two.heal_times.len(), 7);
    assert_eq!(two.slots, vec![2]);
}

#[test]
fn wrong_targets_skips_claims_and_warnings_are_counted_per_cleric() {
    let events = vec![
        event(ChainEventKind::Claim, Some("One"), Some(1), None),
        event(ChainEventKind::Claim, Some("One"), Some(3), None),
        event(ChainEventKind::Heal, Some("One"), Some(1), Some(0)),
        event(ChainEventKind::WrongTarget, Some("One"), Some(1), None),
        event(ChainEventKind::Skip, Some("Two"), Some(2), None),
        event(ChainEventKind::Warning, Some("Lead"), None, None),
        event(ChainEventKind::Heal, Some("You"), Some(4), Some(-10)),
    ];
    let (tallies, warnings) = tally_session(&events);
    assert_eq!(warnings, 2);
    assert_eq!(tallies.len(), 3);
    assert_eq!(tallies[0].player, "One");
    assert_eq!(tallies[0].slots, vec![1, 3]);
    assert_eq!(tallies[0].wrong_target, 1);
    assert_eq!(tallies[0].on_time, 1);
    assert!(!tallies[0].is_you);
    assert_eq!(tallies[1].player, "Two");
    assert_eq!(tallies[1].skips, 1);
    assert!(tallies[1].slots.is_empty());
    assert_eq!(tallies[2].player, "You");
    assert!(tallies[2].is_you);
    assert_eq!(tallies[2].slots, vec![4]);
}

#[test]
fn a_heal_with_no_player_is_not_tallied() {
    let events = vec![
        event(ChainEventKind::Heal, None, Some(1), Some(500)),
        event(ChainEventKind::Heal, Some(""), Some(1), Some(500)),
        event(ChainEventKind::WrongTarget, None, Some(1), None),
    ];
    let (tallies, warnings) = tally_session(&events);
    assert!(tallies.is_empty());
    assert_eq!(warnings, 1);
}

#[test]
fn totals_add_up_and_refuse_to_overflow() {
    assert_eq!(alfred::tally::total_of(&vec![3, 4, 5]), Some(12));
    assert_eq!(alfred::tally::total_of(&vec![]), Some(0));
    assert_eq!(alfred::tally::total_of(&vec![u32::MAX, 1]), None);
}

#[test]
fn the_tallies_hold_every_named_heal() {
    let events = vec![
        event(ChainEventKind::Heal, Some("One"), Some(1), Some(0)),
        event(ChainEventKind::Heal, Some("Two"), Some(2), None),
        event(ChainEventKind::Heal, None, Some(3), Some(0)),
        event(ChainEventKind::Heal, Some("One"), Some(1), Some(400)),
    ];
    let (tallies, _) = tally_session(&events);
    let held: usize = tallies.iter().map(|t| t.heal_times.len()).sum();
    assert_eq!(held, 3);
    assert!(tallies.iter().all(|t| !t.player.is_empty()));
}
