use alfred::chain::{remaining_cast, ChainState, SlotFormat, SlotSnapshot, WarningKind};
use alfred::command::ChainCommand;
use alfred::parser::CompleteHealCall;

fn call(speaker: &str, number: u32, you: bool) -> CompleteHealCall {
    CompleteHealCall {
        speaker: speaker.into(),
        is_you: you,
        number,
        target: "Mluian".into(),
        tag: Some("GG".into()),
        raw: format!("GG {number:03} CH -- Mluian"),
    }
}

fn heal_on(speaker: &str, number: u32, you: bool, target: &str) -> CompleteHealCall {
    CompleteHealCall {
        speaker: speaker.into(),
        is_you: you,
        number,
        target: target.into(),
        tag: Some("GG".into()),
        raw: format!("GG {number:03} CH -- {target}"),
    }
}

fn take(number: u32) -> ChainCommand {
    ChainCommand::Take { player: None, number }
}

fn filled() -> ChainState {
    let mut chain = ChainState::new(2000, 10_000);
    chain.set_your_name("Clericone".into());
    chain.apply_command(take(1), "Clericone".into());
    chain.apply_command(take(2), "Two".into());
    chain.apply_command(take(3), "Three".into());
    chain
}

fn progress(slot: &SlotSnapshot) -> f64 {
    if slot.span_ms == 0 {
        0.0
    } else {
        (slot.remaining_ms as f64 / slot.span_ms as f64).min(1.0)
    }
}

fn near(a: u64, b: u64, tolerance: u64) -> bool {
    a.abs_diff(b) < tolerance
}

#[test]
fn take_skip_move_and_next() {
    let mut chain = filled();
    chain.apply_heal(call("Clericone", 1, true));
    assert_eq!(chain.next_after(1), Some(2));
    chain.apply_command(ChainCommand::Skip { number: Some(2) }, "Lead".into());
    assert_eq!(chain.next_after(1), Some(3));
    chain.apply_command(ChainCommand::Back { number: Some(2) }, "Lead".into());
    chain.apply_command(ChainCommand::Move { from: 1, to: 2 }, "Lead".into());
    assert_eq!(chain.slot(2).unwrap().player, "Clericone");
    assert_eq!(chain.slot(1).unwrap().player, "Two");
    chain.apply_command(ChainCommand::ResetChain, "Lead".into());
    assert!(chain.slots.is_empty());
    assert_eq!(chain.current_number, None);
    assert!(!chain.running);
}

#[test]
fn take_moves_the_player_off_their_old_number() {
    let mut chain = filled();
    chain.apply_command(ChainCommand::Skip { number: Some(1) }, "Lead".into());
    chain.apply_command(take(8), "You".into());
    assert!(chain.slot(1).is_none());
    assert!(!chain.is_skipped(1));
    assert_eq!(chain.slot(8).unwrap().player, "You");
    assert!(chain.slot(8).unwrap().last_shout_ms.is_none());
    assert!(!chain.running);
    assert_eq!(chain.current_number, None);
}

#[test]
fn take_does_not_start_a_timer() {
    let mut chain = ChainState::new(2000, 10_000);
    chain.set_your_name("Clericone".into());
    chain.apply_command_at(take(1), "You".into(), 1_000);
    let snap = chain.snapshot_at(1_500);
    assert!(!snap.running);
    assert_eq!(snap.current_number, None);
    assert_eq!(snap.you_are_next_in_ms, None);
    assert_eq!(snap.you_cast_in_ms, None);
    let slot = snap.slots.iter().find(|s| s.number == 1).unwrap();
    assert_eq!(slot.last_shout_ms, None);
    assert_eq!(slot.remaining_ms, 0);
    assert!(!slot.is_current);
}

#[test]
fn retaking_the_same_number_does_not_clear_its_skip() {
    let mut chain = filled();
    chain.apply_command(ChainCommand::Skip { number: Some(1) }, "Lead".into());
    chain.apply_command(take(1), "You".into());
    assert!(chain.is_skipped(1));
    assert_eq!(chain.slot(1).unwrap().player, "You");
}

#[test]
fn take_can_assign_another_player_by_name() {
    let mut chain = filled();
    chain.apply_command(ChainCommand::Take { number: 8, player: Some("Portlia".into()) }, "Clericone".into());
    assert_eq!(chain.slot(8).unwrap().player, "Portlia");
    assert_eq!(chain.slot(1).unwrap().player, "Clericone");
    chain.apply_command(ChainCommand::Take { number: 9, player: Some("Two".into()) }, "Lead".into());
    assert!(chain.slot(2).is_none());
    assert_eq!(chain.slot(9).unwrap().player, "Two");
}

#[test]
fn take_occupied_does_not_replace_the_occupant() {
    let mut chain = filled();
    chain.apply_command(take(2), "Clericone".into());
    assert_eq!(chain.slot(2).unwrap().player, "Two");
    assert_eq!(chain.slot(1).unwrap().player, "Clericone");
    assert_eq!(chain.warning.as_deref(), Some("002 is already taken."));
    assert!(chain.warning_urgent);
    assert_eq!(chain.warning_kind, WarningKind::SlotTaken);
}

#[test]
fn chain_take_without_a_number_assigns_the_next_free_slot() {
    let mut chain = ChainState::new(2000, 10_000);
    chain.set_your_name("Clericone".into());
    chain.apply_command(ChainCommand::TakeNext { player: None }, "Clericone".into());
    assert_eq!(chain.slot(1).unwrap().player, "Clericone");
    assert_eq!(chain.warning.as_deref(), Some("You got 001."));
    assert_eq!(chain.warning_speech.as_deref(), Some("You got 1"));
    assert_eq!(chain.warning_kind, WarningKind::AutoTake);
    assert!(chain.warning_urgent);

    chain.apply_command(ChainCommand::TakeNext { player: None }, "Two".into());
    assert_eq!(chain.slot(2).unwrap().player, "Two");
    assert_eq!(chain.warning.as_deref(), Some("Two got 002."));
    assert_eq!(chain.warning_speech, None);
    assert!(!chain.warning_urgent);

    chain.apply_command(take(4), "Three".into());
    chain.apply_command(ChainCommand::TakeNext { player: None }, "Four".into());
    assert_eq!(chain.slot(3).unwrap().player, "Four");
    assert_eq!(chain.warning.as_deref(), Some("Four got 003."));

    chain.apply_command(ChainCommand::TakeNext { player: None }, "Clericone".into());
    assert_eq!(chain.slot(1).unwrap().player, "Clericone");
    assert_eq!(chain.warning.as_deref(), Some("You already have 001."));
    assert_eq!(chain.warning_speech.as_deref(), Some("You already have 1"));
}

#[test]
fn rampage_take_without_a_letter_assigns_the_next_free_slot() {
    let mut chain = ChainState::new_rampage(2000, 10_000);
    chain.set_your_name("Clericone".into());
    chain.apply_command(ChainCommand::TakeNext { player: None }, "Clericone".into());
    chain.apply_command(ChainCommand::TakeNext { player: None }, "Two".into());
    assert_eq!(chain.slot(1).unwrap().player, "Clericone");
    assert_eq!(chain.slot(2).unwrap().player, "Two");
    assert_eq!(chain.warning.as_deref(), Some("Two got BBB."));
    assert_eq!(chain.warning_speech, None);
}

#[test]
fn claiming_an_occupied_number_warns_and_does_not_add_the_taker() {
    let mut yours = filled();
    yours.apply_heal(call("Clericone", 1, true));
    assert!(yours.warning.is_none());

    yours.apply_heal(call("Two", 1, false));
    assert_eq!(yours.slot(1).unwrap().player, "Clericone");
    assert_eq!(yours.slot(2).unwrap().player, "Two");
    assert_eq!(yours.warning.as_deref(), Some("Two: 001 is already taken."));
    assert!(!yours.warning_urgent);
    assert_eq!(yours.warning_kind, WarningKind::SlotTaken);

    let mut yours_take = filled();
    yours_take.apply_heal(call("Clericone", 2, true));
    assert_eq!(yours_take.slot(2).unwrap().player, "Two");
    assert_eq!(yours_take.slot(1).unwrap().player, "Clericone");
    assert_eq!(yours_take.warning.as_deref(), Some("002 is already taken."));
    assert!(yours_take.warning_urgent);

    let mut others = filled();
    others.apply_heal(call("Three", 2, false));
    assert_eq!(others.slot(2).unwrap().player, "Two");
    assert_eq!(others.slot(3).unwrap().player, "Three");
    assert_eq!(others.warning.as_deref(), Some("Three: 002 is already taken."));
    assert!(!others.warning_urgent);
}

#[test]
fn skip_unset_number_warns_and_back_is_idempotent() {
    let mut chain = ChainState::new(2000, 10_000);
    let warning = chain.apply_command(ChainCommand::Skip { number: Some(4) }, "Lead".into());
    assert!(warning.unwrap().contains("004"));
    assert!(chain.apply_command(ChainCommand::Back { number: Some(4) }, "Lead".into()).is_none());
}

#[test]
fn skip_and_back_without_number_use_the_speaker_slot() {
    let mut chain = filled();
    assert!(chain.apply_command(ChainCommand::Skip { number: None }, "Two".into()).is_none());
    assert!(chain.is_skipped(2));
    assert!(!chain.is_skipped(1));

    assert!(chain.apply_command(ChainCommand::Back { number: None }, "two".into()).is_none());
    assert!(!chain.is_skipped(2));

    assert!(chain.apply_command(ChainCommand::Skip { number: None }, "You".into()).is_none());
    assert!(chain.is_skipped(1));

    let warning = chain.apply_command(ChainCommand::Skip { number: None }, "Lead".into()).unwrap();
    assert!(warning.contains("Lead"));
}

#[test]
fn move_requires_two_different_set_numbers() {
    let mut chain = filled();
    assert_eq!(
        chain.apply_command(ChainCommand::Move { from: 1, to: 1 }, "Lead".into()),
        Some("Move needs two different numbers.".into())
    );
    assert!(chain.apply_command(ChainCommand::Move { from: 9, to: 1 }, "Lead".into()).unwrap().contains("009"));
    assert_eq!(chain.slot(1).unwrap().player, "Clericone");
    assert!(chain.apply_command(ChainCommand::Move { from: 1, to: 9 }, "Lead".into()).unwrap().contains("009"));
    assert_eq!(chain.slot(1).unwrap().player, "Clericone");
}

#[test]
fn move_swaps_skip_flags_and_current() {
    let mut chain = filled();
    chain.apply_heal(call("Clericone", 1, true));
    chain.apply_command(ChainCommand::Skip { number: Some(1) }, "Lead".into());
    chain.apply_command(ChainCommand::Move { from: 1, to: 2 }, "Lead".into());
    assert!(chain.is_skipped(2));
    assert!(!chain.is_skipped(1));
    assert_eq!(chain.current_number, Some(2));
    assert_eq!(chain.slot(2).unwrap().player, "Clericone");
    assert_eq!(chain.slot(1).unwrap().player, "Two");
}

#[test]
fn next_wraps_around_and_skips_gaps() {
    let mut chain = ChainState::new(2000, 10_000);
    chain.apply_command(take(1), "A".into());
    chain.apply_command(take(5), "B".into());
    chain.apply_command(take(9), "C".into());
    assert_eq!(chain.next_after(5), Some(9));
    assert_eq!(chain.next_after(9), Some(1));
    chain.apply_command(ChainCommand::Skip { number: Some(1) }, "Lead".into());
    assert_eq!(chain.next_after(9), Some(5));
}

#[test]
fn empty_or_all_skipped_has_no_next() {
    let mut chain = ChainState::new(2000, 10_000);
    assert_eq!(chain.next_after(1), None);
    chain.apply_command(take(1), "A".into());
    chain.apply_command(ChainCommand::Skip { number: Some(1) }, "Lead".into());
    assert_eq!(chain.next_after(1), None);
}

#[test]
fn snapshot_marks_current_next_you_and_progress() {
    let mut chain = filled();
    chain.apply_heal_at(call("Two", 2, false), 1_000);
    let snap = chain.snapshot_at(3_500);
    assert_eq!(snap.current_number, Some(2));
    assert_eq!(snap.next_number, Some(3));
    assert!(snap.you_are_next_in_ms.is_none());
    let current = snap.slots.iter().find(|s| s.number == 2).unwrap();
    assert!(current.is_current);
    assert!(near(current.remaining_ms, 7_500, 50));
    assert!((progress(current) - 0.75).abs() < 0.05);
    let you = snap.slots.iter().find(|s| s.number == 1).unwrap();
    assert!(you.is_you);
    assert!(!you.is_next);
    let next = snap.slots.iter().find(|s| s.number == 3).unwrap();
    assert!(next.is_next);
}

#[test]
fn single_cleric_chain_counts_down_to_the_next_beat() {
    let mut chain = ChainState::new(2000, 10_000);
    chain.set_your_name("Clericone".into());
    chain.apply_command(take(1), "Clericone".into());
    chain.apply_command_at(ChainCommand::StartChain { tank: None }, "Lead".into(), 10_000);
    let waiting = chain.snapshot_at(10_000);
    assert!(waiting.armed);
    assert!(!waiting.running);

    chain.apply_heal_at(call("Clericone", 1, true), 10_000);
    let start = chain.snapshot_at(10_000);
    assert!(start.running);
    assert!(!start.armed);
    assert_eq!(start.current_number, Some(1));
    let you = start.slots.iter().find(|s| s.number == 1).unwrap();
    assert!(you.is_current);
    assert!(!you.is_next);
    assert!(near(you.remaining_ms, 10_000, 50));
    assert!(near(start.you_cast_in_ms.unwrap(), 10_000, 50));

    let mid = chain.snapshot_at(11_000);
    let you = mid.slots.iter().find(|s| s.number == 1).unwrap();
    assert!(you.is_current);
    assert!(near(you.remaining_ms, 9_000, 50));
    assert!(near(mid.you_cast_in_ms.unwrap(), 9_000, 50));

    chain.apply_heal_at(call("Clericone", 1, true), 12_000);
    let after_shout = chain.snapshot_at(14_000);
    let you = after_shout.slots.iter().find(|s| s.number == 1).unwrap();
    assert!(near(you.remaining_ms, 8_000, 50));
    assert!(near(after_shout.you_cast_in_ms.unwrap(), 8_000, 50));
    assert_eq!(after_shout.started_at_ms, Some(12_000));
}

#[test]
fn solo_chain_ignores_a_stale_shout_when_starting() {
    let mut chain = ChainState::new(2000, 10_000);
    chain.set_your_name("Clericone".into());
    chain.apply_command(take(1), "Clericone".into());
    chain.apply_heal_at(call("Clericone", 1, true), 1_000);
    chain.apply_command_at(ChainCommand::StartChain { tank: None }, "Lead".into(), 20_000);
    let start = chain.snapshot_at(21_000);
    assert!(start.armed);
    assert!(!start.running);
    let you = start.slots.iter().find(|s| s.number == 1).unwrap();
    assert_eq!(you.remaining_ms, 0);
    assert_eq!(start.you_cast_in_ms, None);
}

#[test]
fn solo_chain_refills_the_bar_after_a_late_ch() {
    let mut chain = ChainState::new(2000, 10_000);
    chain.set_your_name("Clericone".into());
    chain.apply_command(take(1), "Clericone".into());
    chain.apply_command_at(ChainCommand::StartChain { tank: None }, "Lead".into(), 10_000);
    let empty = chain.snapshot_at(21_000);
    let you = empty.slots.iter().find(|s| s.number == 1).unwrap();
    assert_eq!(you.remaining_ms, 0);

    chain.apply_heal_at(call("Clericone", 1, true), 21_000);
    let reset = chain.snapshot_at(21_000);
    let you = reset.slots.iter().find(|s| s.number == 1).unwrap();
    assert!(near(you.remaining_ms, 10_000, 50));
    assert!((progress(you) - 1.0).abs() < 0.05);
    assert!(near(reset.you_cast_in_ms.unwrap(), 10_000, 50));
    assert_eq!(reset.started_at_ms, Some(21_000));

    let later = chain.snapshot_at(23_000);
    let you = later.slots.iter().find(|s| s.number == 1).unwrap();
    assert!(near(you.remaining_ms, 8_000, 50));
}

#[test]
fn running_chain_keeps_ch_cast_progress() {
    let mut chain = filled();
    chain.apply_command_at(ChainCommand::StartChain { tank: None }, "Lead".into(), 10_000);
    chain.apply_heal_at(call("Two", 2, false), 12_000);
    let snap = chain.snapshot_at(14_000);
    let two = snap.slots.iter().find(|s| s.number == 2).unwrap();
    assert_eq!(two.last_cast_ms, Some(12_000));
    assert!(near(two.cast_remaining_ms, 8_000, 50));
    let cast_progress = two.cast_remaining_ms as f64 / snap.cast_time_ms as f64;
    assert!((cast_progress - 0.8).abs() < 0.05);
    assert!(two.remaining_ms.abs_diff(two.cast_remaining_ms) > 500);
}

#[test]
fn you_are_next_counts_down_from_the_last_shout() {
    let mut chain = filled();
    chain.apply_heal_at(call("Three", 3, false), 1_000);
    let snap = chain.snapshot_at(1_500);
    assert_eq!(snap.next_number, Some(1));
    let eta = snap.you_are_next_in_ms.expect("you are next");
    assert!(near(eta, 1_500, 50));
    let later = chain.snapshot_at(6_000);
    assert_eq!(later.you_are_next_in_ms, Some(0));
}

#[test]
fn empty_heal_target_is_stored_as_none() {
    let mut chain = ChainState::new(2000, 10_000);
    chain.apply_heal(CompleteHealCall {
        speaker: "Two".into(),
        is_you: false,
        number: 2,
        target: String::new(),
        tag: Some("GG".into()),
        raw: "GG 002 CH".into(),
    });
    assert_eq!(chain.slot(2).unwrap().target, None);
}

#[test]
fn set_your_name_rewrites_you_and_previous_name() {
    let mut chain = ChainState::new(2000, 10_000);
    chain.apply_command(take(1), "You".into());
    chain.set_your_name("Clericone".into());
    assert_eq!(chain.slot(1).unwrap().player, "Clericone");
    chain.set_your_name("Clericone".into());
    chain.set_your_name("Newname".into());
    assert_eq!(chain.slot(1).unwrap().player, "Newname");
}

#[test]
fn remaining_cast_clamps_and_handles_missing_shout() {
    assert_eq!(remaining_cast(None, 10_000, 1000), 0);
    assert_eq!(remaining_cast(Some(1000), 10_000, 1000), 10_000);
    assert_eq!(remaining_cast(Some(1000), 10_000, 14_000), 0);
    assert_eq!(remaining_cast(Some(1000), 10_000, 3500), 7_500);
}

#[test]
fn stale_warning_is_hidden_in_snapshot() {
    let mut chain = ChainState::new(2000, 10_000);
    chain.warning = Some("old".into());
    chain.warning_at_ms = Some(1_000);
    let snap = chain.snapshot_at(22_000);
    assert_eq!(snap.warning, None);
    let fresh = chain.snapshot_at(5_000);
    assert_eq!(fresh.warning.as_deref(), Some("old"));
}

#[test]
fn interval_and_tank_commands() {
    let mut chain = ChainState::new(2000, 10_000);
    chain.apply_command(ChainCommand::MainTank { tank: "Mluian".into() }, "Lead".into());
    chain.apply_command(ChainCommand::ChainInterval { millis: 3000, tank: None }, "Lead".into());
    assert_eq!(chain.tank.as_deref(), Some("Mluian"));
    assert_eq!(chain.interval_ms, 3000);
}

#[test]
fn start_and_end_iterate_on_interval_and_update_on_skip() {
    let mut chain = filled();
    assert!(chain.apply_command_at(ChainCommand::StartChain { tank: None }, "Lead".into(), 10_000).is_none());
    let waiting = chain.snapshot_at(10_000);
    assert!(waiting.armed);
    assert!(!waiting.running);
    chain.apply_heal_at(call("Clericone", 1, true), 10_000);
    let start = chain.snapshot_at(10_100);
    assert!(start.running);
    assert_eq!(start.current_number, Some(1));
    assert_eq!(start.next_number, Some(2));
    let you_now = start.you_cast_in_ms.expect("you next cycle");
    assert!(near(you_now, 5_900, 150));
    let current = start.slots.iter().find(|s| s.number == 1).unwrap();
    assert!(near(current.remaining_ms, 5_900, 150));
    assert!((progress(current) - (5.9 / 6.0)).abs() < 0.05);

    let second = chain.snapshot_at(12_100);
    assert_eq!(second.current_number, Some(2));
    assert_eq!(second.next_number, Some(3));
    let you_eta = second.you_cast_in_ms.expect("you next cycle");
    assert!(near(you_eta, 3_900, 150));

    chain.apply_command_at(ChainCommand::Skip { number: Some(2) }, "Lead".into(), 12_200);
    let skipped = chain.snapshot_at(12_200);
    assert_eq!(skipped.current_number, Some(3));
    assert_eq!(skipped.next_number, Some(1));

    chain.apply_command_at(ChainCommand::Back { number: Some(2) }, "Lead".into(), 12_300);
    chain.apply_command_at(ChainCommand::EndChain { tank: None }, "Lead".into(), 12_400);
    assert!(!chain.running);
    assert_eq!(chain.slots.len(), 3);
}

#[test]
fn cannot_start_empty_chain() {
    let mut chain = ChainState::new(2000, 10_000);
    assert!(chain.apply_command(ChainCommand::StartChain { tank: None }, "Lead".into()).unwrap().contains("empty"));
}

#[test]
fn timing_offset_from_expected_beat() {
    let mut chain = filled();
    chain.apply_command_at(ChainCommand::StartChain { tank: None }, "Lead".into(), 10_000);
    chain.apply_heal_at(call("Clericone", 1, true), 10_000);
    chain.apply_heal_at(call("Two", 2, false), 12_250);
    let snap = chain.snapshot_at(12_250);
    let two = snap.slots.iter().find(|s| s.number == 2).unwrap();
    assert!((two.offset_ms.unwrap() - 250).abs() < 50);
    let offset = chain.slot(2).unwrap().last_offset_ms.unwrap();
    assert!((offset - 250).abs() < 50);

    chain.apply_heal_at(call("Clericone", 1, true), 10_400);
    let you = chain.slot(1).unwrap().last_offset_ms.unwrap();
    assert!((you - 400).abs() < 50);
    let you_snap = chain.snapshot_at(10_400);
    assert!((you_snap.you_last_offset_ms.unwrap() - 400).abs() < 50);
}

#[test]
fn startchain_waits_for_the_first_cleric_to_go() {
    let mut chain = filled();
    chain.apply_command_at(ChainCommand::StartChain { tank: None }, "Lead".into(), 10_000);
    let waiting = chain.snapshot_at(10_100);
    assert!(waiting.armed);
    assert!(!waiting.running);
    assert_eq!(waiting.current_number, None);
    assert_eq!(waiting.started_at_ms, None);

    chain.apply_heal_at(call("Two", 2, false), 12_000);
    let started = chain.snapshot_at(12_000);
    assert!(started.running);
    assert!(!started.armed);
    assert_eq!(started.current_number, Some(2));
    assert_eq!(started.next_number, Some(3));
    assert_eq!(started.slots.iter().map(|s| s.number).collect::<Vec<_>>(), vec![1, 2, 3]);
    let two = started.slots.iter().find(|s| s.number == 2).unwrap();
    assert!(two.is_current);
    let three = started.slots.iter().find(|s| s.number == 3).unwrap();
    assert!(three.is_next);

    let later = chain.snapshot_at(14_100);
    assert_eq!(later.current_number, Some(3));
    assert_eq!(later.next_number, Some(1));
}

#[test]
fn rampage_startchain_starts_from_the_first_letter_to_go() {
    let mut chain = ChainState::new_rampage(2000, 10_000);
    chain.set_your_name("Clericone".into());
    chain.apply_command(take(1), "Clericone".into());
    chain.apply_command(take(2), "Two".into());
    chain.apply_command(take(3), "Three".into());
    chain.apply_command_at(ChainCommand::StartChain { tank: None }, "Lead".into(), 10_000);
    let waiting = chain.snapshot_at(10_000);
    assert!(waiting.armed);
    assert!(!waiting.running);

    chain.apply_heal_at(call("Two", 2, false), 12_000);
    let started = chain.snapshot_at(12_000);
    assert!(started.running);
    assert_eq!(started.current_number, Some(2));
    assert_eq!(started.next_number, Some(3));
    assert_eq!(started.slot_format, SlotFormat::Letter);
}

#[test]
fn startchain_mid_fight_waits_for_the_next_ch() {
    let mut chain = filled();
    chain.apply_command_at(ChainCommand::StartChain { tank: None }, "Lead".into(), 10_000);
    chain.apply_heal_at(call("Clericone", 1, true), 10_000);
    assert!(chain.snapshot_at(10_100).running);
    chain.apply_command_at(ChainCommand::StartChain { tank: None }, "Lead".into(), 15_000);
    let waiting = chain.snapshot_at(15_100);
    assert!(waiting.armed);
    assert!(!waiting.running);
    assert_eq!(waiting.started_at_ms, None);
    chain.apply_heal_at(call("Three", 3, false), 16_000);
    let snap = chain.snapshot_at(16_000);
    assert!(snap.running);
    assert_eq!(snap.current_number, Some(3));
    assert_eq!(snap.next_number, Some(1));
}

#[test]
fn split_and_tank_ranges_are_independent_rotations() {
    let mut chain = filled();
    chain.apply_command(ChainCommand::MainTank { tank: "Mluian".into() }, "Lead".into());
    chain.apply_command(ChainCommand::OffTank { tank: "Beefwich".into() }, "Lead".into());
    assert!(chain.apply_command(ChainCommand::Split { number: 3 }, "Lead".into()).is_none());
    assert_eq!(chain.next_after(1), Some(2));
    assert_eq!(chain.next_after(2), Some(1));
    assert_eq!(chain.next_after(3), Some(3));

    chain.apply_command_at(ChainCommand::StartChain { tank: None }, "Lead".into(), 10_000);
    chain.apply_heal_at(call("Clericone", 1, true), 10_000);
    chain.apply_heal_at(call("Three", 3, false), 10_000);
    let you = chain.snapshot_at(10_100);
    assert_eq!(you.your_tank.as_deref(), Some("Mluian"));
    assert!(you.running);
    assert_eq!(you.current_number, Some(1));
    assert!(you.slots.iter().all(|slot| slot.number < 3));
    assert!(you.slots.iter().all(|slot| slot.tank.as_deref() == Some("Mluian")));

    let ot_running = chain.tanks.iter().find(|tank| tank.name == "Beefwich").unwrap().running;
    assert!(ot_running);

    chain.apply_command_at(ChainCommand::EndChain { tank: Some("Beefwich".into()) }, "Lead".into(), 10_200);
    assert!(!chain.tanks.iter().find(|t| t.name == "Beefwich").unwrap().running);
    assert!(chain.running);

    chain.apply_command(ChainCommand::ChainInterval { millis: 3000, tank: Some("ot".into()) }, "Lead".into());
    assert_eq!(chain.tanks[0].interval_ms, Some(3000));
    assert_eq!(chain.interval_ms, 2000);
}

#[test]
fn tank_range_command_hides_the_other_chain_from_you() {
    let mut chain = filled();
    chain.apply_command(ChainCommand::TankRange { tank: "Beefwich".into(), from: 3, to: 8 }, "Lead".into());
    chain.apply_command(take(4), "You".into());
    let snap = chain.snapshot_at(1_000);
    assert_eq!(snap.your_tank.as_deref(), Some("Beefwich"));
    assert!(snap.slots.iter().all(|slot| slot.number >= 3));
    assert!(snap.slots.iter().all(|slot| slot.tank.as_deref() == Some("Beefwich")));
}

#[test]
fn shouting_the_wrong_tank_warns() {
    let mut chain = filled();
    chain.apply_command(ChainCommand::MainTank { tank: "Mluian".into() }, "Lead".into());
    chain.apply_command(ChainCommand::OffTank { tank: "Beefwich".into() }, "Lead".into());
    chain.apply_command(ChainCommand::Split { number: 3 }, "Lead".into());
    chain.apply_heal(call("Three", 3, false));
    chain.apply_command(ChainCommand::StartChain { tank: None }, "Lead".into());
    chain.apply_heal(call("Two", 2, false));
    chain.apply_heal(heal_on("Clericone", 1, true, "Beefwich"));
    assert_eq!(chain.warning.as_deref(), Some("You CHed Beefwich instead of Mluian."));
    assert!(chain.warning_urgent);
    assert_eq!(chain.warning_kind, WarningKind::WrongTarget);
    assert_eq!(chain.slot(1).unwrap().player, "Clericone");
}

#[test]
fn shouting_a_target_that_is_not_the_set_tank_warns() {
    let mut chain = filled();
    chain.apply_command(ChainCommand::MainTank { tank: "Mluian".into() }, "Lead".into());
    chain.apply_command(ChainCommand::StartChain { tank: None }, "Lead".into());
    chain.apply_heal(call("Clericone", 1, true));
    chain.apply_heal(heal_on("Clericone", 1, true, "a goblin"));
    assert_eq!(chain.warning.as_deref(), Some("You CHed a goblin instead of Mluian."));
    assert!(chain.warning_urgent);
    assert_eq!(chain.warning_kind, WarningKind::WrongTarget);
    chain.apply_heal(call("Clericone", 1, true));
    assert_eq!(chain.warning, None);
}

#[test]
fn other_clerics_wrong_target_warns_without_urgency() {
    let mut chain = filled();
    chain.apply_command(ChainCommand::MainTank { tank: "Mluian".into() }, "Lead".into());
    chain.apply_command(ChainCommand::StartChain { tank: None }, "Lead".into());
    chain.apply_heal(call("Clericone", 1, true));
    chain.apply_heal(heal_on("Two", 2, false, "an orc"));
    assert_eq!(chain.warning.as_deref(), Some("Two CHed an orc instead of Mluian."));
    assert!(!chain.warning_urgent);
    assert_eq!(chain.warning_kind, WarningKind::WrongTarget);
    assert_eq!(chain.slot(2).unwrap().player, "Two");
}

#[test]
fn wrong_target_does_not_warn_before_the_chain_starts() {
    let mut chain = filled();
    chain.apply_command(ChainCommand::MainTank { tank: "Mluian".into() }, "Lead".into());
    chain.apply_heal(heal_on("Clericone", 1, true, "a goblin"));
    assert_eq!(chain.warning, None);
    assert_eq!(chain.slot(1).unwrap().player, "Clericone");
}

#[test]
fn first_join_wrong_target_does_not_warn() {
    let mut chain = ChainState::new(2000, 10_000);
    chain.set_your_name("Clericone".into());
    chain.apply_command(ChainCommand::MainTank { tank: "Mluian".into() }, "Lead".into());
    chain.apply_heal(heal_on("Clericone", 1, true, "a goblin"));
    assert_eq!(chain.warning, None);
    assert_eq!(chain.slot(1).unwrap().player, "Clericone");
}

#[test]
fn no_warning_when_tank_is_not_set() {
    let mut chain = filled();
    chain.apply_heal(heal_on("Clericone", 1, true, "a goblin"));
    assert_eq!(chain.warning, None);
}

#[test]
fn rampage_wrong_target_warns() {
    let mut chain = ChainState::new_rampage(2000, 10_000);
    chain.set_your_name("Clericone".into());
    chain.apply_command(ChainCommand::MainTank { tank: "Mluian".into() }, "Lead".into());
    chain.apply_heal(call("Clericone", 1, true));
    chain.apply_command(ChainCommand::StartChain { tank: None }, "Lead".into());
    chain.apply_heal(call("Clericone", 1, true));
    chain.apply_heal(CompleteHealCall {
        speaker: "Clericone".into(),
        is_you: true,
        number: 1,
        target: "Beefwich".into(),
        tag: Some("GG".into()),
        raw: "GG AAA RCH -- Beefwich".into(),
    });
    assert_eq!(chain.warning.as_deref(), Some("You CHed Beefwich instead of Mluian."));
    assert!(chain.warning_urgent);
    assert_eq!(chain.warning_kind, WarningKind::WrongTarget);
}

#[test]
fn rampage_chain_formats_slots_as_letters() {
    let mut chain = ChainState::new_rampage(2000, 10_000);
    chain.set_your_name("Clericone".into());
    chain.apply_heal(call("Clericone", 1, true));
    chain.apply_heal(call("Two", 1, false));
    assert_eq!(chain.slot(1).unwrap().player, "Clericone");
    assert!(chain.warning.as_deref().unwrap().contains("AAA is already taken"));
    let snap = chain.snapshot_at(1_000);
    assert_eq!(snap.slot_format, SlotFormat::Letter);
    assert_eq!(snap.slots[0].number, 1);
    assert_eq!(snap.warning_kind, WarningKind::SlotTaken);
}

#[test]
fn late_join_infers_interval_and_syncs_you_after_the_live_shout() {
    let mut chain = ChainState::new(3000, 10_000);
    chain.set_your_name("Clericone".into());
    chain.apply_heal_at(call("Two", 2, false), 10_000);
    chain.apply_heal_at(call("Three", 3, false), 12_100);
    assert!(chain.running);
    assert_eq!(chain.interval_ms, 2000);
    chain.apply_command_at(take(4), "You".into(), 12_400);
    let snap = chain.snapshot_at(12_400);
    assert_eq!(snap.current_number, Some(3));
    assert_eq!(snap.next_number, Some(4));
    let eta = snap.you_cast_in_ms.expect("you are next");
    assert!(near(eta, 1_700, 200));
}

#[test]
fn late_join_rounds_shout_gaps_to_the_nearest_second() {
    let mut chain = ChainState::new(2000, 10_000);
    chain.apply_heal_at(call("Two", 2, false), 10_000);
    chain.apply_heal_at(call("Three", 3, false), 12_600);
    assert_eq!(chain.interval_ms, 3000);
}

#[test]
fn adding_a_late_take_does_not_jump_a_started_chain() {
    let mut chain = filled();
    chain.apply_command_at(ChainCommand::StartChain { tank: None }, "Lead".into(), 10_000);
    chain.apply_heal_at(call("Clericone", 1, true), 10_000);
    assert_eq!(chain.snapshot_at(12_100).current_number, Some(2));
    chain.apply_command_at(take(9), "Four".into(), 12_100);
    let snap = chain.snapshot_at(12_100);
    assert_eq!(snap.current_number, Some(2));
    assert_eq!(snap.next_number, Some(3));
    assert!(snap.slots.iter().any(|slot| slot.number == 9));
}

#[test]
fn late_join_syncs_only_the_tank_you_took() {
    let mut chain = ChainState::new(2000, 10_000);
    chain.set_your_name("Clericone".into());
    chain.apply_command(ChainCommand::MainTank { tank: "Mluian".into() }, "Lead".into());
    chain.apply_command(ChainCommand::OffTank { tank: "Beefwich".into() }, "Lead".into());
    chain.apply_command(ChainCommand::Split { number: 9 }, "Lead".into());
    chain.apply_heal_at(call("A", 1, false), 10_000);
    chain.apply_heal_at(call("B", 2, false), 12_000);
    chain.apply_command_at(take(9), "You".into(), 12_500);
    assert!(chain.running);
    assert!(!chain.tanks.iter().find(|tank| tank.name == "Beefwich").unwrap().running);
    chain.apply_heal_at(call("C", 10, false), 13_000);
    chain.apply_heal_at(call("D", 11, false), 15_000);
    assert!(chain.tanks.iter().find(|tank| tank.name == "Beefwich").unwrap().running);
    let snap = chain.snapshot_at(15_000);
    assert_eq!(snap.your_tank.as_deref(), Some("Beefwich"));
    assert_eq!(snap.current_number, Some(11));
    assert_eq!(snap.next_number, Some(9));
}

#[test]
fn the_laws_on_concrete_seats() {
    // Skip then back restores the seat; two moves put seats back.
    let mut chain = filled();
    chain.apply_command_at(ChainCommand::Skip { number: Some(2) }, "Lead".into(), 1_000);
    assert!(chain.is_skipped(2));
    chain.apply_command_at(ChainCommand::Back { number: Some(2) }, "Lead".into(), 1_100);
    assert!(!chain.is_skipped(2));
    assert_eq!(chain.slot(2).unwrap().player, "Two");
    chain.apply_command_at(ChainCommand::Move { from: 1, to: 3 }, "Lead".into(), 1_200);
    assert_eq!(chain.slot(3).unwrap().player, "Clericone");
    chain.apply_command_at(ChainCommand::Move { from: 1, to: 3 }, "Lead".into(), 1_300);
    assert_eq!(chain.slot(1).unwrap().player, "Clericone");
    assert_eq!(chain.slot(3).unwrap().player, "Three");
}

#[test]
fn refusals_name_what_went_wrong() {
    let mut chain = filled();
    assert_eq!(
        chain.apply_command(ChainCommand::Split { number: 5 }, "Lead".into()).as_deref(),
        Some("Set the off tank first with !ot <tank>.")
    );
    assert_eq!(
        chain.apply_command(ChainCommand::TankRange { tank: "Beef".into(), from: 8, to: 3 }, "Lead".into()).as_deref(),
        Some("Tank range needs the lower number first.")
    );
    chain.apply_command(ChainCommand::TankRange { tank: "Beef".into(), from: 3, to: 8 }, "Lead".into());
    assert_eq!(
        chain.apply_command(ChainCommand::TankRange { tank: "Other".into(), from: 5, to: 9 }, "Lead".into()).as_deref(),
        Some("Range 005-009 overlaps Beef (003-008).")
    );
    assert_eq!(
        chain.apply_command(ChainCommand::Untank { tank: "Nobody".into() }, "Lead".into()).as_deref(),
        Some("No tank named Nobody.")
    );
    assert_eq!(
        chain.apply_command(ChainCommand::ChainInterval { millis: 2500, tank: Some("Nobody".into()) }, "Lead".into()).as_deref(),
        Some("Unknown tank Nobody.")
    );
    chain.apply_command(ChainCommand::MainTank { tank: "Mluian".into() }, "Lead".into());
    assert_eq!(
        chain.apply_command(ChainCommand::OffTank { tank: "mluian".into() }, "Lead".into()).as_deref(),
        Some("mluian is already the main tank.")
    );
    assert!(chain.apply_command(ChainCommand::Untank { tank: "beef".into() }, "Lead".into()).is_none());
    assert!(chain.tanks.is_empty());
}

#[test]
fn starting_the_chain_says_so() {
    let mut chain = filled();
    chain.apply_command_at(ChainCommand::StartChain { tank: None }, "Lead".into(), 5_000);
    assert_eq!(chain.warning.as_deref(), Some("Chain is starting."));
    assert_eq!(chain.warning_speech.as_deref(), Some("Chain is starting"));
}

#[test]
fn a_change_of_pace_is_announced_quietly() {
    let mut chain = ChainState::new(2000, 10_000);
    chain.apply_command_at(ChainCommand::ChainInterval { millis: 2500, tank: None }, "Lead".into(), 1_000);
    assert_eq!(chain.interval_ms, 2500);
    assert_eq!(chain.warning.as_deref(), Some("The chain is now 2.5s, was 2.0s."));
    assert_eq!(chain.warning_kind, WarningKind::PaceChange);
    assert!(!chain.warning_urgent);
    assert_eq!(chain.warning_speech, None);
    assert_eq!(chain.warning_at_ms, Some(1_000));
}

#[test]
fn resending_the_same_pace_says_nothing() {
    let mut chain = ChainState::new(2000, 10_000);
    chain.apply_command_at(ChainCommand::ChainInterval { millis: 2000, tank: None }, "Lead".into(), 1_000);
    assert_eq!(chain.interval_ms, 2000);
    assert_eq!(chain.warning, None);
}

#[test]
fn a_tank_on_its_own_clock_is_named_in_the_pace_banner() {
    let mut chain = ChainState::new(2500, 10_000);
    chain.apply_command_at(ChainCommand::TankRange { tank: "Beefwich".into(), from: 9, to: 16 }, "Lead".into(), 500);
    chain.apply_command_at(ChainCommand::ChainInterval { millis: 5000, tank: Some("beefwich".into()) }, "Lead".into(), 1_000);
    assert_eq!(chain.tanks[0].interval_ms, Some(5000));
    assert_eq!(chain.interval_ms, 2500);
    assert_eq!(chain.warning.as_deref(), Some("Beefwich is now 5.0s, was 2.5s."));
    chain.apply_command_at(ChainCommand::ChainInterval { millis: 3450, tank: None }, "Lead".into(), 2_000);
    assert_eq!(chain.warning.as_deref(), Some("The chain is now 3.5s, was 2.5s."));
}

#[test]
fn a_heal_on_one_tank_leaves_the_other_tanks_clock_alone() {
    let mut chain = ChainState::new(2000, 10_000);
    chain.apply_command_at(ChainCommand::MainTank { tank: "Mluian".into() }, "Lead".into(), 100);
    chain.apply_command_at(ChainCommand::OffTank { tank: "Beefwich".into() }, "Lead".into(), 100);
    chain.apply_command_at(ChainCommand::Split { number: 3 }, "Lead".into(), 100);
    chain.apply_command_at(take(1), "One".into(), 200);
    chain.apply_command_at(take(2), "Two".into(), 200);
    chain.apply_command_at(take(3), "Three".into(), 200);
    chain.apply_command_at(take(4), "Four".into(), 200);
    chain.apply_command_at(ChainCommand::StartChain { tank: None }, "Lead".into(), 1_000);
    chain.apply_heal_at(heal_on("Three", 3, false, "Beefwich"), 2_000);
    let off = chain.tanks.iter().find(|t| t.name == "Beefwich").unwrap();
    let (running, started, armed, interval) = (off.running, off.started_at_ms, off.armed, off.interval_ms);
    assert!(running);
    assert_eq!(started, Some(2_000));
    assert!(!chain.running);
    chain.apply_heal_at(call("One", 1, false), 3_000);
    assert!(chain.running);
    assert_eq!(chain.started_at_ms, Some(3_000));
    let after = chain.tanks.iter().find(|t| t.name == "Beefwich").unwrap();
    assert_eq!(after.running, running);
    assert_eq!(after.started_at_ms, started);
    assert_eq!(after.armed, armed);
    assert_eq!(after.interval_ms, interval);
}

#[test]
fn a_skip_on_a_running_chain_keeps_whose_turn_it_is() {
    let mut chain = filled();
    chain.apply_command_at(ChainCommand::StartChain { tank: None }, "Lead".into(), 1_000);
    chain.apply_heal_at(call("Clericone", 1, true), 10_000);
    let before = chain.snapshot_at(10_500);
    assert_eq!(before.current_number, Some(1));
    chain.apply_command_at(ChainCommand::Skip { number: Some(3) }, "Lead".into(), 10_500);
    let after = chain.snapshot_at(10_500);
    assert_eq!(after.current_number, Some(1));
    assert_eq!(after.next_number, Some(2));
    assert!(after.running);
}
