use alfred::command::{parse_chain_command, parse_letter_slot, ChainCommand, ChainKind};
use alfred::parser::{
    format_test_log_line, looks_like_ch_macro, looks_like_rch_macro, CompleteHealCall,
    ParseResult, Parser, TestChannel,
};


fn parser() -> Parser {
    Parser::new()
}

fn line(s: &str) -> ParseResult {
    parser().parse_line(s, Some("Clericone"))
}

fn line_as(s: &str, you: Option<&str>) -> ParseResult {
    parser().parse_line(s, you)
}

fn shout(message: &str) -> ParseResult {
    line(&format!(
        "[Fri Sep 18 16:27:00 2026] Hanbox shouts, '{message}'"
    ))
}

fn heal(s: &str) -> CompleteHealCall {
    match line(s) {
        ParseResult::CompleteHeal(call) => call,
        other => panic!("expected CH, got {other:?} in {s}"),
    }
}

#[test]
fn parse_gg_shout() {
    let call = heal(r#"[Fri Sep 18 16:27:00 2026] Curaja shouts, 'GG 014 CH -- Wreckognize'"#);
    assert_eq!(call.speaker, "Curaja");
    assert!(!call.is_you);
    assert_eq!(call.number, 14);
    assert_eq!(call.target, "Wreckognize");
    assert_eq!(call.tag.as_deref(), Some("GG"));
}

#[test]
fn parse_you_shout_uses_character_name() {
    let call = heal(r#"[Fri Sep 18 16:27:00 2026] You shout, 'GG 001 CH -- Mluian'"#);
    assert_eq!(call.speaker, "Clericone");
    assert!(call.is_you);
    assert_eq!(call.number, 1);
    assert_eq!(call.target, "Mluian");
}

#[test]
fn parse_you_shout_without_character_name() {
    let ParseResult::CompleteHeal(call) = line_as(
        r#"[Fri Sep 18 16:27:00 2026] You shout, 'GG 001 CH -- Mluian'"#,
        None,
    ) else {
        panic!("expected CH");
    };
    assert_eq!(call.speaker, "You");
    assert!(call.is_you);
}

#[test]
fn named_shout_is_you_when_names_match_ignoring_case() {
    let call = heal(r#"[Fri Sep 18 16:27:00 2026] clericone shouts, 'GG 003 CH -- Mluian'"#);
    assert_eq!(call.speaker, "clericone");
    assert!(call.is_you);
    assert_eq!(call.number, 3);
}

#[test]
fn parse_ch_in_every_allowed_channel() {
    let samples = [
        "Hanbox shouts, 'GG 001 CH -- Beefwich'",
        "Hanbox says out of character, 'GG 001 CH -- Beefwich'",
        "Hanbox tells the group, 'GG 001 CH -- Beefwich'",
        "Hanbox tells the guild, 'GG 001 CH -- Beefwich'",
        "Hanbox auctions, 'GG 001 CH -- Beefwich'",
        "Hanbox tells the raid, 'GG 001 CH -- Beefwich'",
        "Hanbox says, 'GG 001 CH -- Beefwich'",
        "Hanbox tells you, 'GG 001 CH -- Beefwich'",
        "You say out of character, 'GG 001 CH -- Beefwich'",
        "You tell the group, 'GG 001 CH -- Beefwich'",
        "You auction, 'GG 001 CH -- Beefwich'",
        "You tell the raid, 'GG 001 CH -- Beefwich'",
        "You say, 'GG 001 CH -- Beefwich'",
    ];
    for sample in samples {
        let line = format!("[Fri Sep 18 16:27:00 2026] {sample}");
        let ParseResult::CompleteHeal(call) = parser().parse_line(&line, Some("Clericone"))
        else {
            panic!("failed on {sample}");
        };
        assert_eq!(call.number, 1, "{sample}");
        assert_eq!(call.target, "Beefwich", "{sample}");
    }
}

#[test]
fn say_and_tell_channels_are_accepted() {
    let ParseResult::CompleteHeal(call) = line(
        "[Fri Sep 18 16:27:00 2026] Hanbox says, 'GG 001 CH -- Beefwich'",
    ) else {
        panic!("named say");
    };
    assert_eq!(call.number, 1);
    assert_eq!(call.speaker, "Hanbox");
    assert!(matches!(
        line("[Fri Sep 18 16:27:00 2026] You say, '!startchain'"),
        ParseResult::Command(ChainCommand::StartChain { tank: None }, _, true, ChainKind::Both)
    ));
    assert!(matches!(
        line("[Fri Sep 18 16:27:00 2026] Two tells you, '!take 002'"),
        ParseResult::Command(
            ChainCommand::Take {
                number: 2,
                player: None
            },
            _,
            false,
            ChainKind::Cleric
        )
    ));
}

#[test]
fn parse_ch_message_variations() {
    let samples = [
        "GG CH 001 -- Beefwich",
        "GG 001 CH --Beefwich",
        "gg 1 ch - Beefwich",
        "GG 001 CH : Beefwich",
        "GG 001 CH Beefwich",
        "GG 001 CH --Beefwich 001",
        "  GG   001   CH  --  Beefwich  ",
    ];
    for message in samples {
        let ParseResult::CompleteHeal(call) = shout(message) else {
            panic!("failed on {message}");
        };
        assert_eq!(call.number, 1, "{message}");
        assert_eq!(call.target, "Beefwich", "{message}");
    }
}

#[test]
fn parse_real_p99_log_ch_and_rch_lines() {
    let call = heal(
        "[Fri Sep 18 19:15:24 2026] You say out of character, 'GG 001 CH -- Portlia'",
    );
    assert!(call.is_you);
    assert_eq!(call.number, 1);
    assert_eq!(call.target, "Portlia");
    assert_eq!(call.tag.as_deref(), Some("GG"));

    let call = heal("[Fri Sep 18 15:02:34 2026] You shout, 'GG 008 CH -- Moonglade'");
    assert_eq!(call.number, 8);
    assert_eq!(call.target, "Moonglade");

    let call = heal("[Fri Sep 18 14:54:00 2026] Nickopol shouts, 'GG  006 CH  -- Braillard'");
    assert_eq!(call.number, 6);
    assert_eq!(call.target, "Braillard");

    assert!(matches!(
        shout("CA 015 CH -- Tennesseee"),
        ParseResult::Ignored
    ));
    assert!(matches!(shout("ST 002 CH -- Gratton"), ParseResult::Ignored));
    assert!(matches!(shout("SS 001 CH -- Tank"), ParseResult::Ignored));
    assert!(matches!(shout("001 CH -- Beefwich"), ParseResult::Ignored));

    let ParseResult::RampageHeal(call) = line(
        "[Fri Sep 18 16:27:00 2026] Curaja shouts, 'GG RCH AAA -- Beefwich'",
    ) else {
        panic!("gg rch");
    };
    assert_eq!(call.number, 1);
    assert_eq!(call.target, "Beefwich");

    assert!(matches!(shout("CA RCH AAA -- Mcganahan"), ParseResult::Ignored));
    assert!(matches!(shout("LT AAA RCH -- Stilgard"), ParseResult::Ignored));
    assert!(matches!(shout("ST HHH CH -- Kaido"), ParseResult::Ignored));
    assert!(matches!(shout("QQQ - CH - Shinko"), ParseResult::Ignored));

    let other = Parser::with_chain_tag("CA");
    let ParseResult::CompleteHeal(call) = other.parse_line(
        "[Fri Sep 18 16:27:00 2026] Hanbox shouts, 'CA 015 CH -- Tennesseee'",
        Some("Clericone"),
    ) else {
        panic!("configured CA tag");
    };
    assert_eq!(call.number, 15);
    assert_eq!(call.tag.as_deref(), Some("CA"));
    assert!(matches!(
        other.parse_line(
            "[Fri Sep 18 16:27:00 2026] Hanbox shouts, 'GG 001 CH -- Portlia'",
            Some("Clericone"),
        ),
        ParseResult::Ignored
    ));
}

#[test]
fn parse_double_quoted_shout() {
    let call = heal(r#"[Fri Sep 18 16:27:00 2026] Hanbox shouts, "GG 002 CH -- Beefwich""#);
    assert_eq!(call.number, 2);
    assert_eq!(call.tag.as_deref(), Some("GG"));
}

#[test]
fn parse_shout_without_timestamp() {
    let call = heal(r#"Hanbox shouts, 'GG 007 CH -- Mluian'"#);
    assert_eq!(call.number, 7);
}

#[test]
fn numbers_outside_1_to_999_are_not_heals() {
    assert!(matches!(shout("GG 000 CH -- Mluian"), ParseResult::MalformedHeal { .. }));
    assert!(matches!(shout("GG 1000 CH -- Mluian"), ParseResult::MalformedHeal { .. }));
}

#[test]
fn malformed_macro_warns() {
    for message in [
        "GG CH -- Wreckognize",
        "GG CH Wreckognize",
    ] {
        let ParseResult::MalformedHeal { speaker, message: raw, .. } = shout(message) else {
            panic!("expected warning for {message}");
        };
        assert_eq!(speaker, "Hanbox");
        assert_eq!(raw, message);
    }
}

#[test]
fn ordinary_chat_is_ignored() {
    assert!(matches!(
        line("[Fri Sep 18 16:27:00 2026] You hit a goblin for 12 points of damage."),
        ParseResult::Ignored
    ));
    assert!(matches!(shout("inc on me"), ParseResult::Ignored));
    assert!(matches!(
        shout("I like to CH in my spare time"),
        ParseResult::Ignored
    ));
    assert!(matches!(shout("GG 001 -- Wreckognize"), ParseResult::Ignored));
}

#[test]
fn commands_from_group_ooc_and_auction() {
    assert!(matches!(
        line("[Fri Sep 18 16:27:00 2026] Leadcleric tells the group, '!startchain'"),
        ParseResult::Command(ChainCommand::StartChain { .. }, ..)
    ));
    assert!(matches!(
        line("[Fri Sep 18 16:27:00 2026] You say out of character, '!stopchain'"),
        ParseResult::Command(ChainCommand::EndChain { .. }, ..)
    ));
    assert!(matches!(
        line("[Fri Sep 18 16:27:00 2026] Leadcleric auctions, '!skip 001'"),
        ParseResult::Command(ChainCommand::Skip { number: Some(1) }, ..)
    ));
    assert!(matches!(
        line("[Fri Sep 18 16:27:00 2026] You shout, '!skip'"),
        ParseResult::Command(ChainCommand::Skip { number: None }, ..)
    ));
    assert!(matches!(
        line("[Fri Sep 18 16:27:00 2026] Two tells the group, '!back'"),
        ParseResult::Command(ChainCommand::Back { number: None }, ..)
    ));
    assert!(matches!(
        line("[Fri Sep 18 16:27:00 2026] You shout, '!start-chain'"),
        ParseResult::Command(ChainCommand::StartChain { .. }, ..)
    ));
    assert!(matches!(
        line("[Fri Sep 18 16:27:00 2026] Leadcleric tells the raid, '!start'"),
        ParseResult::Command(ChainCommand::StartChain { .. }, ..)
    ));
    assert!(matches!(
        line("[Fri Sep 18 16:27:00 2026] You tell your raid, '!stop'"),
        ParseResult::Command(ChainCommand::EndChain { .. }, ..)
    ));
    assert!(matches!(
        line("[Fri Sep 18 16:27:00 2026] Two tells the raid, '!start chain'"),
        ParseResult::Command(ChainCommand::StartChain { .. }, ..)
    ));
    assert!(matches!(
        line("[Fri Sep 18 16:27:00 2026] You say to the raid, '!stop chain'"),
        ParseResult::Command(ChainCommand::EndChain { .. }, ..)
    ));
}

#[test]
fn you_begin_casting_complete_heal_is_ignored() {
    assert!(matches!(
        line("[Fri Sep 18 16:27:00 2026] You begin casting Complete Heal."),
        ParseResult::Ignored
    ));
    assert!(matches!(
        line("[Fri Sep 18 16:27:00 2026] You begin to cast Complete Heal."),
        ParseResult::Ignored
    ));
    assert!(matches!(
        line("[Fri Sep 18 16:27:00 2026] You begin casting Complete Healing."),
        ParseResult::Ignored
    ));
    assert!(matches!(
        line("[Fri Sep 18 16:27:00 2026] You begin casting Greater Healing."),
        ParseResult::Ignored
    ));
}

#[test]
fn guild_commands() {
    let ParseResult::Command(ChainCommand::MainTank { tank }, speaker, is_you, _) = line(
        r#"[Fri Sep 18 16:27:00 2026] Leadcleric tells the guild, '!mt Mluian'"#,
    ) else {
        panic!("mt");
    };
    assert_eq!(tank, "Mluian");
    assert_eq!(speaker, "Leadcleric");
    assert!(!is_you);

    let ParseResult::Command(ChainCommand::Take { number, player, .. }, speaker, is_you, _) = line(
        r#"[Fri Sep 18 16:27:00 2026] You tell the guild, '!take 001'"#,
    ) else {
        panic!("take");
    };
    assert_eq!(number, 1);
    assert_eq!(player, None);
    assert_eq!(speaker, "Clericone");
    assert!(is_you);

    let ParseResult::Command(ChainCommand::Take { number, player, .. }, speaker, ..) = line(
        r#"[Fri Sep 18 16:27:00 2026] You tell the guild, '!take 005 Portlia'"#,
    ) else {
        panic!("take named");
    };
    assert_eq!(number, 5);
    assert_eq!(player.as_deref(), Some("Portlia"));
    assert_eq!(speaker, "Clericone");

    let ParseResult::Command(ChainCommand::Move { from, to }, ..) = line(
        r#"[Fri Sep 18 16:27:00 2026] You tell your guild, '!move 001 002'"#,
    ) else {
        panic!("move");
    };
    assert_eq!((from, to), (1, 2));

    let ParseResult::Command(ChainCommand::ChainInterval { millis, tank }, ..) = line(
        r#"[Fri Sep 18 16:27:00 2026] Leadcleric tells the guild, '!chain 2.5'"#,
    ) else {
        panic!("chain");
    };
    assert_eq!(millis, 2500);
    assert_eq!(tank, None);

    assert!(matches!(
        line(r#"[Fri Sep 18 16:27:00 2026] Leadcleric tells the guild, '!reset-chain'"#),
        ParseResult::Command(ChainCommand::ResetChain, ..)
    ));
    assert!(matches!(
        line(r#"[Fri Sep 18 16:27:00 2026] You say to your guild, '!resetchain'"#),
        ParseResult::Command(ChainCommand::ResetChain, ..)
    ));
    assert!(matches!(
        line(r#"[Fri Sep 18 16:27:00 2026] Leadcleric tells the guild, '!skip 001'"#),
        ParseResult::Command(ChainCommand::Skip { number: Some(1) }, ..)
    ));
    assert!(matches!(
        line(r#"[Fri Sep 18 16:27:00 2026] Leadcleric tells the guild, '!back 001'"#),
        ParseResult::Command(ChainCommand::Back { number: Some(1) }, ..)
    ));
    assert!(matches!(
        line(r#"[Fri Sep 18 16:27:00 2026] You say to the guild, '!TAKE 8'"#),
        ParseResult::Command(ChainCommand::Take { number: 8, player: None }, ..)
    ));
}

#[test]
fn chain_command_parser_rejects_bad_args() {
    assert_eq!(parse_chain_command("!mt"), None);
    assert_eq!(
        parse_chain_command("!skip"),
        Some((ChainCommand::Skip { number: None }, ChainKind::Both))
    );
    assert_eq!(
        parse_chain_command("!back"),
        Some((ChainCommand::Back { number: None }, ChainKind::Both))
    );
    assert_eq!(parse_chain_command("!skip 0"), None);
    assert_eq!(parse_chain_command("!skip 1000"), None);
    assert_eq!(parse_chain_command("!take 0"), None);
    assert_eq!(parse_chain_command("!take 1000"), None);
    assert_eq!(
        parse_chain_command("!take"),
        Some((ChainCommand::TakeNext { player: None }, ChainKind::Cleric))
    );
    assert_eq!(
        parse_chain_command("!take Portlia"),
        Some((
            ChainCommand::TakeNext {
                player: Some("Portlia".into())
            },
            ChainKind::Cleric
        ))
    );
    assert_eq!(
        parse_chain_command("!rtake"),
        Some((ChainCommand::TakeNext { player: None }, ChainKind::Rampage))
    );
    assert_eq!(parse_chain_command("!move 001"), None);
    assert_eq!(parse_chain_command("!chain"), None);
    assert_eq!(parse_chain_command("!chain 0"), None);
    assert_eq!(parse_chain_command("!chain -1"), None);
    assert_eq!(parse_chain_command("hello"), None);
    assert_eq!(
        parse_chain_command("  !mt   Mluian extra"),
        Some((
            ChainCommand::MainTank {
                tank: "Mluian".into(),
            },
            ChainKind::Cleric,
        ))
    );
    assert_eq!(
        parse_chain_command("!startchain"),
        Some((ChainCommand::StartChain { tank: None }, ChainKind::Both))
    );
    assert_eq!(
        parse_chain_command("!start"),
        Some((ChainCommand::StartChain { tank: None }, ChainKind::Both))
    );
    assert_eq!(
        parse_chain_command("!start chain"),
        Some((ChainCommand::StartChain { tank: None }, ChainKind::Both))
    );
    assert_eq!(
        parse_chain_command("!stop"),
        Some((ChainCommand::EndChain { tank: None }, ChainKind::Both))
    );
    assert_eq!(
        parse_chain_command("!stop chain"),
        Some((ChainCommand::EndChain { tank: None }, ChainKind::Both))
    );
    assert_eq!(
        parse_chain_command("!stop-chain"),
        Some((ChainCommand::EndChain { tank: None }, ChainKind::Both))
    );
    assert_eq!(
        parse_chain_command("!stopchain"),
        Some((ChainCommand::EndChain { tank: None }, ChainKind::Both))
    );
    assert_eq!(
        parse_chain_command("!endchain"),
        Some((ChainCommand::EndChain { tank: None }, ChainKind::Both))
    );
    assert_eq!(
        parse_chain_command("!startchain Mluian"),
        Some((
            ChainCommand::StartChain {
                tank: Some("Mluian".into())
            },
            ChainKind::Both
        ))
    );
    assert_eq!(
        parse_chain_command("!ot Beefwich"),
        Some((
            ChainCommand::OffTank {
                tank: "Beefwich".into()
            },
            ChainKind::Cleric
        ))
    );
    assert_eq!(
        parse_chain_command("!split 9"),
        Some((ChainCommand::Split { number: 9 }, ChainKind::Cleric))
    );
    assert_eq!(
        parse_chain_command("!tank Beefwich 9 16"),
        Some((
            ChainCommand::TankRange {
                tank: "Beefwich".into(),
                from: 9,
                to: 16
            },
            ChainKind::Cleric
        ))
    );
    assert_eq!(
        parse_chain_command("!untank Beefwich"),
        Some((
            ChainCommand::Untank {
                tank: "Beefwich".into()
            },
            ChainKind::Cleric
        ))
    );
    assert_eq!(
        parse_chain_command("!chain 3 Beefwich"),
        Some((
            ChainCommand::ChainInterval {
                millis: 3000,
                tank: Some("Beefwich".into())
            },
            ChainKind::Cleric
        ))
    );
    assert_eq!(
        parse_chain_command("!take AAA"),
        Some((ChainCommand::Take { number: 1, player: None }, ChainKind::Rampage))
    );
    assert_eq!(
        parse_chain_command("!rtake BBB"),
        Some((ChainCommand::Take { number: 2, player: None }, ChainKind::Rampage))
    );
    assert_eq!(
        parse_chain_command("!take 001 Portlia"),
        Some((
            ChainCommand::Take {
                number: 1,
                player: Some("Portlia".into())
            },
            ChainKind::Cleric
        ))
    );
    assert_eq!(
        parse_chain_command("!rtake CCC Curaja"),
        Some((
            ChainCommand::Take {
                number: 3,
                player: Some("Curaja".into())
            },
            ChainKind::Rampage
        ))
    );
    assert_eq!(
        parse_chain_command("!take AAA Hanbox"),
        Some((
            ChainCommand::Take {
                number: 1,
                player: Some("Hanbox".into())
            },
            ChainKind::Rampage
        ))
    );
    assert_eq!(
        parse_chain_command("!rstartchain"),
        Some((ChainCommand::StartChain { tank: None }, ChainKind::Rampage))
    );
    assert_eq!(
        parse_chain_command("!rt Mluian"),
        Some((
            ChainCommand::MainTank {
                tank: "Mluian".into()
            },
            ChainKind::Rampage
        ))
    );
    assert_eq!(parse_chain_command("!rt"), None);
    assert_eq!(parse_chain_command("!rot Beefwich"), None);
    assert_eq!(parse_chain_command("!rsplit CCC"), None);
    assert_eq!(parse_chain_command("!rtank Beefwich AAA FFF"), None);
    assert_eq!(parse_chain_command("!runtank Beefwich"), None);
    assert_eq!(parse_chain_command("!rmt Mluian"), None);
    assert_eq!(parse_chain_command("!rreset-chain"), None);
    assert_eq!(parse_chain_command("!rresetchain"), None);
    assert_eq!(parse_chain_command("!rreset"), None);
    assert_eq!(parse_letter_slot("AAA"), Some(1));
    assert_eq!(parse_letter_slot("c"), Some(3));
    assert_eq!(parse_letter_slot("ABC"), None);
    assert_eq!(parse_letter_slot("GG"), None);
    assert_eq!(parse_letter_slot("CC"), None);
    assert_eq!(parse_letter_slot("CCC"), Some(3));
}

#[test]
fn built_in_patterns_compile_and_match_gg_and_cc() {
    let parser = Parser::new();
    let ParseResult::CompleteHeal(call) = parser.parse_line(
        "[Fri Sep 18 16:27:00 2026] You shout, 'GG 004 CH -- Mluian'",
        Some("Clericone"),
    ) else {
        panic!("built-in GG pattern");
    };
    assert_eq!(call.number, 4);
    assert_eq!(call.target, "Mluian");
    assert!(matches!(
        parser.parse_line(
            "[Fri Sep 18 16:27:00 2026] You shout, 'HEAL 4 on Mluian'",
            Some("Clericone"),
        ),
        ParseResult::Ignored
    ));
}

#[test]
fn parse_rch_letter_slots() {
    let ParseResult::RampageHeal(call) = line(
        "[Fri Sep 18 16:27:00 2026] Curaja shouts, 'GG AAA RCH -- Mluian'",
    ) else {
        panic!("rch");
    };
    assert_eq!(call.number, 1);
    assert_eq!(call.target, "Mluian");
    let ParseResult::RampageHeal(call) = line(
        "[Fri Sep 18 16:27:00 2026] You shout, 'GG RCH CCC -- Beefwich'",
    ) else {
        panic!("rch you");
    };
    assert_eq!(call.number, 3);
    assert!(call.is_you);
    assert!(matches!(
        shout("GG RCH -- Mluian"),
        ParseResult::MalformedHeal { rampage: true, .. }
    ));
    assert!(matches!(
        line("[Fri Sep 18 16:27:00 2026] Two tells the guild, '!rskip'"),
        ParseResult::Command(ChainCommand::Skip { number: None }, _, _, ChainKind::Rampage)
    ));
    assert!(matches!(
        shout("GG 001 CH -- Mluian"),
        ParseResult::CompleteHeal(_)
    ));
    assert!(matches!(
        parse_chain_command("!skip AAA"),
        Some((ChainCommand::Skip { number: Some(1) }, ChainKind::Rampage))
    ));
    assert!(matches!(
        parse_chain_command("!back BBB"),
        Some((ChainCommand::Back { number: Some(2) }, ChainKind::Rampage))
    ));
    assert!(matches!(
        parse_chain_command("!skip 001"),
        Some((ChainCommand::Skip { number: Some(1) }, ChainKind::Cleric))
    ));
}

#[test]
fn format_test_log_line_matches_eq_speech() {
    assert_eq!(
        format_test_log_line("YOU", TestChannel::Shout, "!take 001").unwrap(),
        "[Fri Sep 18 16:27:00 2026] You shout, '!take 001'"
    );
    assert_eq!(
        format_test_log_line("Hanbox", TestChannel::Ooc, "GG 001 CH -- Beefwich").unwrap(),
        "[Fri Sep 18 16:27:00 2026] Hanbox says out of character, 'GG 001 CH -- Beefwich'"
    );
    assert_eq!(
        format_test_log_line("Portlia", TestChannel::Group, "!skip").unwrap(),
        "[Fri Sep 18 16:27:00 2026] Portlia tells the group, '!skip'"
    );
    assert_eq!(
        format_test_log_line("Curaja", TestChannel::Guild, "GG 014 CH -- Wreckognize").unwrap(),
        "[Fri Sep 18 16:27:00 2026] Curaja tells the guild, 'GG 014 CH -- Wreckognize'"
    );
    assert_eq!(
        format_test_log_line("you", TestChannel::Auction, "!take AAA").unwrap(),
        "[Fri Sep 18 16:27:00 2026] You auction, '!take AAA'"
    );
    assert_eq!(
        format_test_log_line("Two", TestChannel::Raid, "!startchain").unwrap(),
        "[Fri Sep 18 16:27:00 2026] Two tells the raid, '!startchain'"
    );
    assert_eq!(
        format_test_log_line("YOU", TestChannel::Say, "!take 001").unwrap(),
        "[Fri Sep 18 16:27:00 2026] You say, '!take 001'"
    );
    assert!(format_test_log_line("YOU", TestChannel::Shout, "  ").is_err());
}

#[test]
fn format_test_log_line_parses_like_a_real_log() {
    let you_take = format_test_log_line("YOU", TestChannel::Shout, "!take 001").unwrap();
    assert!(matches!(
        parser().parse_line(&you_take, Some("Portlia")),
        ParseResult::Command(
            ChainCommand::Take {
                number: 1,
                player: None
            },
            _,
            true,
            ChainKind::Cleric
        )
    ));
    let named = format_test_log_line("Hanbox", TestChannel::Guild, "GG 001 CH -- Beefwich")
        .unwrap();
    let ParseResult::CompleteHeal(call) = parser().parse_line(&named, Some("Portlia")) else {
        panic!("expected CH");
    };
    assert_eq!(call.speaker, "Hanbox");
    assert!(!call.is_you);
    assert_eq!(call.number, 1);
    for channel in [
        TestChannel::Shout,
        TestChannel::Ooc,
        TestChannel::Group,
        TestChannel::Guild,
        TestChannel::Auction,
        TestChannel::Raid,
        TestChannel::Say,
    ] {
        let line = format_test_log_line("YOU", channel, "!take 002").unwrap();
        assert!(
            matches!(
                parser().parse_line(&line, Some("Portlia")),
                ParseResult::Command(ChainCommand::Take { number: 2, .. }, _, true, _)
            ),
            "channel {channel:?} should parse"
        );
    }
}

#[test]
fn looks_like_ch_macro_requires_more_than_the_word_ch() {
    assert!(!looks_like_ch_macro("I like to CH in my spare time", "GG"));
    assert!(looks_like_ch_macro("GG CH -- Tank", "GG"));
    assert!(!looks_like_ch_macro("CH 12", "GG"));
    assert!(!looks_like_ch_macro("CA 015 CH -- Tank", "GG"));
    assert!(looks_like_ch_macro("CA 015 CH -- Tank", "CA"));
    assert!(!looks_like_ch_macro("complete CH --", "GG"));
    assert!(!looks_like_ch_macro("GG AAA RCH -- Tank", "GG"));
    assert!(looks_like_rch_macro("GG AAA RCH -- Tank", "GG"));
    assert!(!looks_like_rch_macro("ST HHH CH -- Kaido", "GG"));
    assert!(!looks_like_rch_macro("GG 001 CH -- Tank", "GG"));
}

fn chars(s: &str) -> Vec<char> {
    s.chars().collect()
}

#[test]
fn the_groups_of_a_ch_shape_read_as_a_heal_the_next_shape_or_nothing() {
    let tag = chars("GG");
    let speaker = chars("Portlia");
    let message = chars("GG 005 CH -- Mluian");
    let heal = alfred::parser::ch_groups(&tag, &message, &speaker, false, &Some("005".into()), &Some("Mluian".into()));
    let call = heal.expect("an answer").expect("a heal");
    assert_eq!(call.number, 5);
    assert_eq!(call.target, "Mluian");
    assert_eq!(call.speaker, "Portlia");
    let too_far = alfred::parser::ch_groups(&tag, &chars("GG 1000 CH -- Mluian"), &speaker, false, &Some("1000".into()), &None);
    assert!(too_far.is_none());
    let other_tag = alfred::parser::ch_groups(&chars("CA"), &message, &speaker, false, &Some("005".into()), &None);
    assert!(matches!(other_tag, Some(None)));
}

#[test]
fn the_groups_of_an_rch_shape_read_letters() {
    let tag = chars("GG");
    let message = chars("GG BBB RCH -- Grendel");
    let heal = alfred::parser::rch_groups(&tag, &message, &chars("Curaja"), false, &Some("BBB".into()), &Some("Grendel".into()));
    assert_eq!(heal.expect("an answer").expect("a heal").number, 2);
    let unread = alfred::parser::rch_groups(&tag, &message, &chars("Curaja"), false, &Some("B1B".into()), &None);
    assert!(unread.is_none());
}

#[test]
fn commands_name_only_slots_in_range_for_their_chain() {
    assert!(parse_chain_command("!take 999").is_some());
    assert!(parse_chain_command("!take 1000").is_none());
    assert!(parse_chain_command("!rtake 26").is_some());
    assert!(parse_chain_command("!rtake 27").is_none());
    assert!(parse_chain_command("!move 001 1000").is_none());
    assert!(parse_chain_command("!chain 0").is_none());
}
