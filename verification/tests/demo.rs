use alfred::demo::{
    interval_tenths, is_configurable, raid_roster, scenario_description, scenario_ids,
    scenario_name, scenario_steps, scenario_steps_with, short_ids, you_seat, DemoOptions,
    DemoStep, CAST_MS, MAX_CLERICS, MAX_MINUTES,
};
use alfred::parser::{format_test_log_line, ParseResult, Parser};
use std::collections::BTreeMap;

fn seconds(steps: &[DemoStep]) -> f64 {
    steps.iter().map(|step| step.delay_ms).sum::<u64>() as f64 / 1000.0
}

#[test]
fn the_interval_is_the_cast_time_split_between_the_clerics() {
    assert_eq!(interval_tenths(1), 100);
    assert_eq!(interval_tenths(2), 50);
    assert_eq!(interval_tenths(3), 34);
    assert_eq!(interval_tenths(4), 25);
    assert_eq!(interval_tenths(6), 17);
    assert_eq!(interval_tenths(0), CAST_MS / 100);
    // Rounding up keeps a full cast between two turns of the same cleric.
    for clerics in 1..=10usize {
        assert!(
            interval_tenths(clerics) * 100 * clerics as u64 >= CAST_MS,
            "{clerics} clerics chain faster than a CH takes"
        );
    }
}

#[test]
fn no_cleric_is_asked_to_cast_before_their_heal_lands() {
    for id in scenario_ids() {
        let mut at = 0u64;
        let mut last_cast: BTreeMap<String, u64> = BTreeMap::new();
        for step in scenario_steps(id) {
            at += step.delay_ms;
            if !step.message.contains(" CH ") && !step.message.contains(" RCH ") {
                continue;
            }
            if let Some(previous) = last_cast.insert(step.speaker.clone(), at) {
                let gap = at - previous;
                assert!(
                    gap >= CAST_MS,
                    "{id}: {} casts again after {gap}ms",
                    step.speaker
                );
            }
        }
    }
}

#[test]
fn demo_options_are_clamped_to_something_runnable() {
    let wild = DemoOptions {
        clerics: 400,
        max_clerics: 400,
        minutes: 9_000,
    }
    .normalized();
    assert_eq!(wild.clerics, MAX_CLERICS);
    assert_eq!(wild.max_clerics, MAX_CLERICS);
    assert_eq!(wild.minutes, MAX_MINUTES);

    let tiny = DemoOptions {
        clerics: 0,
        max_clerics: 0,
        minutes: 0,
    }
    .normalized();
    assert_eq!(tiny.clerics, 1);
    assert_eq!(tiny.max_clerics, 1);
    assert_eq!(tiny.minutes, 1);

    // A roster cannot shrink below the clerics who are already standing there.
    let backwards = DemoOptions {
        clerics: 12,
        max_clerics: 4,
        minutes: 2,
    }
    .normalized();
    assert_eq!(backwards.clerics, 12);
    assert_eq!(backwards.max_clerics, 12);
}

#[test]
fn the_raid_scenario_follows_the_roster_and_length_you_ask_for() {
    let options = DemoOptions {
        clerics: 8,
        max_clerics: 20,
        minutes: 4,
    };
    let steps = scenario_steps_with("raid", options);
    let takes = steps
        .iter()
        .filter(|s| s.message.starts_with("!take"))
        .count();
    assert_eq!(takes, 20, "everyone takes a number eventually");
    assert_eq!(steps.iter().filter(|s| s.message == "!take 001").count(), 1);
    // Eight take numbers at the pull; the rest wander in after it starts.
    let started = steps
        .iter()
        .position(|s| s.message == "!startchain")
        .expect("the chain arms");
    let early = steps[..started]
        .iter()
        .filter(|s| s.message.starts_with("!take"))
        .count();
    assert_eq!(early, 8);

    let yours: Vec<&DemoStep> = steps.iter().filter(|s| s.speaker == "YOU").collect();
    assert!(!yours.is_empty(), "you are on the chain");
    assert!(
        yours.iter().any(|s| s.message.contains(" CH ")),
        "you cast during the pull"
    );

    assert!(is_configurable("raid"));
    // Twenty clerics would split the 10s cast to half a second, but a demo
    // chain never beats faster than a second.
    assert_eq!(interval_tenths(options.normalized().max_clerics), 10);
    // Four minutes of chain, plus taking numbers and the kill.
    let total = seconds(&steps);
    assert!(total > 240.0, "{} seconds", total);
    assert!(total < 300.0, "{} seconds", total);

    let short = scenario_steps_with(
        "raid",
        DemoOptions {
            minutes: 1,
            ..options
        },
    );
    assert!(seconds(&short) < total);
    assert!(!is_configurable("chain"));
}

#[test]
fn clerics_join_and_the_lead_re_paces_the_chain_as_they_do() {
    let steps = scenario_steps_with(
        "raid",
        DemoOptions {
            clerics: 4,
            max_clerics: 12,
            minutes: 5,
        },
    );
    let started = steps
        .iter()
        .position(|s| s.message == "!startchain")
        .expect("the chain arms");
    let late_takes = steps[started..]
        .iter()
        .filter(|s| s.message.starts_with("!take"))
        .count();
    assert_eq!(late_takes, 8, "the other eight join mid-pull");
    // Each roster change is re-called, so the interval tightens as they arrive.
    let paces: Vec<&String> = steps
        .iter()
        .filter(|s| s.message.starts_with("!chain "))
        .map(|s| &s.message)
        .collect();
    assert!(paces.len() > 8, "{} pace calls", paces.len());
    assert_eq!(paces[0], "!chain 2.5", "four clerics start 2.5s apart");
    assert!(
        paces.iter().any(|m| *m == "!chain 1"),
        "twelve clerics hold the 1s floor: {paces:?}"
    );
}

#[test]
fn a_crowded_chain_stops_tightening_at_a_second() {
    assert_eq!(interval_tenths(10), 10);
    // Past ten clerics the cast would split finer than a second, and does not.
    assert_eq!(interval_tenths(11), 10);
    assert_eq!(interval_tenths(MAX_CLERICS), 10);
    // A thinner chain still paces off the cast time.
    assert_eq!(interval_tenths(4), 25);
    assert_eq!(interval_tenths(1), 100);

    // No scenario, configurable or scripted, calls a pace under a second.
    let mut ids: Vec<&str> = scenario_ids();
    ids.push("raid");
    for id in ids {
        let steps = scenario_steps_with(
            id,
            DemoOptions {
                clerics: 24,
                max_clerics: 24,
                minutes: 1,
            },
        );
        for step in steps {
            let Some(rest) = step
                .message
                .strip_prefix("!chain ")
                .or_else(|| step.message.strip_prefix("!rchain "))
            else {
                continue;
            };
            let seconds: f64 = rest
                .split_whitespace()
                .next()
                .and_then(|s| s.parse().ok())
                .unwrap_or_else(|| panic!("{id}: cannot read pace from {}", step.message));
            assert!(seconds >= 1.0, "{id} calls {seconds}s, under the floor");
        }
    }
}

#[test]
fn clerics_skip_out_and_come_back_during_the_pull() {
    let steps = scenario_steps_with(
        "raid",
        DemoOptions {
            clerics: 12,
            max_clerics: 12,
            minutes: 5,
        },
    );
    let skips: Vec<&DemoStep> = steps
        .iter()
        .filter(|s| s.message.starts_with("!skip"))
        .collect();
    let backs: Vec<&DemoStep> = steps
        .iter()
        .filter(|s| s.message.starts_with("!back"))
        .collect();
    assert!(skips.len() >= 3, "{} skips in five minutes", skips.len());
    assert_eq!(skips.len(), backs.len(), "everyone who sits out comes back");
    // Different clerics take the breaks, and never you.
    let who: BTreeMap<&str, ()> = skips.iter().map(|s| (s.speaker.as_str(), ())).collect();
    assert!(who.len() > 1, "the same cleric skipped every time");
    assert!(!who.contains_key("YOU"), "you were skipped out");
}

#[test]
fn a_small_raid_roster_still_runs() {
    for clerics in 1..=6 {
        let steps = scenario_steps_with(
            "raid",
            DemoOptions {
                clerics,
                max_clerics: clerics,
                minutes: 1,
            },
        );
        assert!(
            steps.iter().any(|s| s.message.contains(" CH ")),
            "{clerics} clerics never cast"
        );
        let roster = raid_roster(clerics, you_seat(clerics));
        assert_eq!(roster.len(), clerics);
        assert_eq!(roster.iter().filter(|name| *name == "YOU").count(), 1);
    }
}

#[test]
fn you_are_never_one_of_the_latecomers() {
    for clerics in 1..=6 {
        let roster = raid_roster(20, you_seat(clerics));
        let seat = roster.iter().position(|name| name == "YOU").expect("you");
        assert!(seat < clerics, "{clerics} starting: you are seat {seat}");
    }
}

#[test]
fn every_scenario_paces_the_chain_before_it_starts() {
    for id in scenario_ids() {
        let steps = scenario_steps(id);
        let paced = steps
            .iter()
            .position(|step| {
                step.message.starts_with("!chain") || step.message.starts_with("!rchain")
            })
            .unwrap_or_else(|| panic!("{id} never sets an interval"));
        let started = steps
            .iter()
            .position(|step| step.message.starts_with("!startchain"))
            .unwrap_or_else(|| panic!("{id} never starts the chain"));
        assert!(paced < started, "{id} starts before it sets an interval");
    }
}

#[test]
fn every_scenario_names_a_tank_and_cleans_up_after_itself() {
    for id in scenario_ids() {
        let steps = scenario_steps(id);
        assert_eq!(
            steps.first().map(|step| step.message.as_str()),
            Some("!reset-chain"),
            "{id} does not start from a clean chain"
        );
        assert!(
            steps
                .iter()
                .any(|step| step.message.starts_with("!mt") || step.message.starts_with("!rt")),
            "{id} never names a tank"
        );
        assert!(
            steps
                .iter()
                .any(|step| step.message.starts_with("!stopchain")),
            "{id} leaves the chain running"
        );
    }
}

#[test]
fn the_scenarios_between_them_cover_the_things_that_go_wrong() {
    let all: Vec<DemoStep> = short_ids().iter().flat_map(|id| scenario_steps(id)).collect();
    let has = |needle: &str| all.iter().any(|step| step.message.starts_with(needle));
    assert!(has("!ot"), "no off tank anywhere");
    assert!(has("!rt"), "no rampage tank anywhere");
    assert!(has("!split"), "nothing splits the chain");
    assert!(has("!untank"), "a split is never folded back");
    assert!(has("!move"), "numbers are never moved");
    assert!(has("!skip") && has("!back"), "nobody sits out and returns");
    assert!(
        all.iter().any(|step| step.message.contains(" RCH ")),
        "nobody casts a rampage heal"
    );
    assert!(
        all.iter().any(|step| step.note.contains("wrong tank")
            || step.note.contains("off tank from")
            || step.note.contains("main tank from")),
        "nobody heals the wrong tank"
    );
    assert!(
        all.iter().any(|step| step.note.contains("late")),
        "nobody is ever late"
    );
    assert!(
        all.iter().any(|step| step.note.contains("cannot read")),
        "no broken macros"
    );
}

#[test]
fn every_scenario_has_steps_and_a_runtime() {
    for id in scenario_ids() {
        let steps = scenario_steps_with(id, DemoOptions::default());
        assert!(!scenario_name(id).is_empty(), "{id} has no name");
        assert!(!scenario_description(id).is_empty(), "{id} has no description");
        assert!(!steps.is_empty(), "{id} has no steps");
        assert!(seconds(&steps) > 1.0, "{id} is too short");
    }
    assert!(scenario_steps("nope").is_empty());
}

/// The short pulls are meant to be watched start to finish, so none of them
/// should turn into a long sit.
#[test]
fn the_short_scenarios_stay_short() {
    for id in short_ids() {
        let total = seconds(&scenario_steps_with(id, DemoOptions::default()));
        assert!(total > 15.0, "{id} is only {:.0}s", total);
        assert!(total < 120.0, "{id} runs {:.0}s", total);
        assert!(!is_configurable(id), "{id} should not take options");
    }
}

#[test]
fn everything_is_the_other_scenarios_end_to_end() {
    let parts: usize = short_ids().iter().map(|id| scenario_steps(id).len()).sum();
    assert_eq!(scenario_steps("full").len(), parts);
    assert!(!short_ids().contains(&"raid"), "the raid runs on its own");
    assert!(!short_ids().contains(&"full"));
    for id in short_ids() {
        assert!(scenario_ids().contains(&id), "{id} is not on the demo page");
    }
}

#[test]
fn every_step_parses_as_a_log_line() {
    let parser = Parser::new();
    for id in scenario_ids() {
        for step in scenario_steps(id) {
            assert!(!step.note.is_empty(), "{id} has a step without a note");
            let line = format_test_log_line(&step.speaker, step.channel, &step.message)
                .unwrap_or_else(|err| panic!("{id}: {err}"));
            let parsed = parser.parse_line(&line, Some("Clericone"));
            assert!(
                !matches!(parsed, ParseResult::Ignored),
                "{id}: Alfred ignores {line}"
            );
            // Unreadable macros are in the scripts on purpose, and the note
            // next to them has to say so.
            if matches!(parsed, ParseResult::MalformedHeal { .. }) {
                assert!(
                    step.note.contains("cannot read"),
                    "{id}: {line} is unreadable but the note does not say so"
                );
            }
        }
    }
}

#[test]
fn the_names_and_descriptions_match_the_demo_page() {
    assert_eq!(scenario_name("chain"), "Cleric chain");
    assert_eq!(scenario_name("raid"), "Full raid chain");
    assert_eq!(scenario_name("anything else"), "Everything");
    assert_eq!(
        scenario_description("split"),
        "Main tank and off tank on separate rotations, two clerics on each."
    );
}

#[test]
fn the_full_run_pauses_between_pulls() {
    let chain = scenario_steps("chain");
    let full = scenario_steps("full");
    let second = &full[chain.len()];
    assert_eq!(second.delay_ms, 400 + 4_000);
    assert_eq!(second.note, "Next pull. Clearing whatever was on the panels");
    assert_eq!(second.message, "!reset-chain");
}

#[test]
fn pace_notes_and_laggy_notes_read_like_the_raid_lead() {
    let steps = scenario_steps("laggy");
    assert!(steps.iter().any(|s| s.note == "4 clerics on a 10s CH, so 2.5s apart"));
    assert!(steps.iter().any(|s| s.note == "Dunkin is 1.2s late on 003"));
    assert!(steps.iter().any(|s| s.note == "Dunkin is 2.6s late on 003"));
    let rampage = scenario_steps("rampage");
    assert!(rampage.iter().any(|s| s.message == "!rchain 3.4"));
    assert!(rampage.iter().any(|s| s.message == "GG AAA RCH -- Mluian"));
}

#[test]
fn the_mistakes_pull_shows_a_stolen_number_a_wrong_target_and_an_unreadable_macro() {
    let steps = scenario_steps("mistakes");
    let yours = steps.iter().position(|s| s.speaker == "YOU" && s.message == "!take 001").expect("you take 001");
    let stolen = steps.iter().position(|s| s.speaker == "Dunkin" && s.message == "!take 001").expect("Dunkin asks for it");
    assert!(yours < stolen);
    assert!(steps.iter().any(|s| s.speaker == "YOU" && s.message == "GG 001 CH -- Beefwich"));
    assert!(steps.iter().any(|s| s.speaker == "Dunkin" && s.message == "GG CH -- Mluian"));
}

#[test]
fn the_shuffle_pull_moves_seats_on_a_running_chain_then_starts_afresh() {
    let steps = scenario_steps("shuffle");
    let first_start = steps.iter().position(|s| s.message.starts_with("!startchain")).expect("a start");
    let moved = steps.iter().position(|s| s.message == "!move 001 004").expect("a move");
    assert!(first_start < moved);
    let wiped = steps.iter().rposition(|s| s.message == "!reset-chain").expect("a wipe");
    assert!(wiped > 0);
    assert!(steps[wiped..].iter().any(|s| s.message.starts_with("!startchain")));
    assert!(steps.iter().any(|s| s.speaker == "YOU" && s.message == "GG 004 CH -- Mluian"));
}

#[test]
fn the_laggy_pull_pulls_the_late_cleric_out_and_brings_him_back() {
    let steps = scenario_steps("laggy");
    let at = |m: &str| steps.iter().position(|s| s.message == m).unwrap_or_else(|| panic!("no {m}"));
    let skip = at("!skip 003");
    let three = at("!chain 3.4");
    let back = at("!back 003");
    let four = steps.iter().rposition(|s| s.message == "!chain 2.5").expect("a pace for four");
    assert!(skip < three && three < back && back < four);
    assert!(steps[four..].iter().any(|s| s.speaker == "Dunkin" && s.message == "GG 003 CH -- Mluian"));
}

#[test]
fn the_raid_takes_the_roster_in_order_and_001_once() {
    let steps = scenario_steps_with("raid", DemoOptions { clerics: 8, max_clerics: 20, minutes: 4 });
    let takes: Vec<&String> = steps.iter().filter(|s| s.message.starts_with("!take")).map(|s| &s.message).collect();
    let roll: Vec<String> = (1..=takes.len()).map(|n| format!("!take {n:03}")).collect();
    assert_eq!(takes.iter().map(|s| s.as_str()).collect::<Vec<_>>(), roll.iter().map(|s| s.as_str()).collect::<Vec<_>>());
    assert_eq!(takes.iter().filter(|m| m.as_str() == "!take 001").count(), 1);
}

#[test]
fn a_long_enough_raid_fills_the_roster_and_re_paces_on_every_change() {
    let steps = scenario_steps_with("raid", DemoOptions { clerics: 8, max_clerics: 12, minutes: 10 });
    let takes = steps.iter().filter(|s| s.message.starts_with("!take")).count();
    assert_eq!(takes, 12);
    let start = steps.iter().position(|s| s.message.starts_with("!startchain")).expect("a start");
    for (k, step) in steps.iter().enumerate().skip(start + 1) {
        let m = &step.message;
        if m.starts_with("!take") || m.starts_with("!skip") || m.starts_with("!back") {
            assert!(steps[k + 1].message.starts_with("!chain"), "{m} is not re-paced");
        }
    }
}
