use alfred::watch::PathFlavour;
use alfred::config::{
    config_file_path, config_path_in, normalize_chain_tag, overlap_at_least, parse_bool, parse_ini, unquote,
    NumberSetting, Rect,
};

#[test]
fn existing_ini_without_setup_complete_is_already_done() {
    let parsed = parse_ini(
        r#"
[general]
eq_directory = /games/eq
sound_enabled = true
"#,
    );
    assert!(parsed.setup_complete);
    let unfinished = parse_ini(
        r#"
[general]
setup_complete = false
"#,
    );
    assert!(!unfinished.setup_complete);
    assert_eq!(parsed.chain_tag, "GG");
    assert!(parsed.alert_slot_taken);
    assert!(parsed.alert_wrong_target);
    assert!(parsed.alert_auto_take_sound);
    let alerts_off = parse_ini(
        r#"
[general]
alert_slot_taken = false
alert_wrong_target = false
alert_auto_take_sound = false
"#,
    );
    assert!(!alerts_off.alert_slot_taken);
    assert!(!alerts_off.alert_wrong_target);
    assert!(!alerts_off.alert_auto_take_sound);
}

#[test]
fn chain_tag_normalizes_and_defaults_to_gg() {
    assert_eq!(normalize_chain_tag("gg"), "GG");
    assert_eq!(normalize_chain_tag("  ca "), "CA");
    assert_eq!(normalize_chain_tag(""), "GG");
    assert_eq!(normalize_chain_tag("12"), "GG");
    assert_eq!(normalize_chain_tag("goodguys"), "GOOD");
    let parsed = parse_ini(
        r#"
[chain]
tag = ss
"#,
    );
    assert_eq!(parsed.chain_tag, "SS");
}

#[test]
fn comments_blank_lines_and_unknown_keys_are_ignored() {
    let parsed = parse_ini(
        r#"
# heading
; also a comment

[general]
eq_directory = /games/eq
unknown = nope
[other]
interval_seconds = 9
[chain]
interval_seconds = 3
"#,
    );
    assert_eq!(parsed.eq_directory, "/games/eq");
    assert_eq!(parsed.numbers, vec![(NumberSetting::Interval, "3".to_string())]);
}

#[test]
fn boolean_and_quoted_values() {
    let parsed = parse_ini(
        r#"
[general]
eq_directory = "/Users/Me/EverQuest Folder"
always_on_top = YES
sound_enabled = Off
"#,
    );
    assert_eq!(parsed.eq_directory, "/Users/Me/EverQuest Folder");
    assert!(parsed.always_on_top);
    assert!(!parsed.sound_enabled);
    assert!(parse_bool("true"));
    assert!(parse_bool("1"));
    assert!(parse_bool("on"));
    assert!(!parse_bool("false"));
    assert!(!parse_bool("maybe"));
    assert_eq!(unquote(r#"'C:\EQ'"#), r"C:\EQ");
}

#[test]
fn invalid_numbers_keep_defaults() {
    let parsed = parse_ini(
        r#"
[general]
sound_lead_seconds = nope
tail_poll_ms = xyz
[chain]
interval_seconds = abc
cast_time_seconds =
"#,
    );
    assert_eq!(parsed.tail_poll_ms, 150);
    assert_eq!(
        parsed.numbers,
        vec![
            (NumberSetting::SoundLead, "nope".to_string()),
            (NumberSetting::Interval, "abc".to_string()),
            (NumberSetting::CastTime, String::new()),
        ]
    );
    let fast = parse_ini("[general]\r\ntail_poll_ms = +80\r\n");
    assert_eq!(fast.tail_poll_ms, 80);
}

#[test]
fn metronome_and_next_up_sound_are_exclusive() {
    let parsed = parse_ini(
        r#"
[general]
sound_enabled = true
metronome_enabled = true
"#,
    );
    assert!(parsed.metronome_enabled);
    assert!(!parsed.sound_enabled);

    let none = parse_ini(
        r#"
[general]
sound_enabled = false
metronome_enabled = false
"#,
    );
    assert!(!none.sound_enabled);
    assert!(!none.metronome_enabled);
}

#[test]
fn leftover_pattern_section_is_ignored() {
    let parsed = parse_ini(
        r#"
[general]
eq_directory = /games/eq
[patterns]
ch_1 = this should not be loaded
ch_2 = (?i)HEAL (\d+) on (\S+)
"#,
    );
    assert_eq!(parsed.eq_directory, "/games/eq");
    assert!(parsed.numbers.is_empty());
}

#[test]
fn window_numbers_are_listed_in_file_order() {
    let parsed = parse_ini(
        r#"
[WINDOW]
x = 40
Y = -120
width = 480
height = 900
"#,
    );
    assert_eq!(
        parsed.numbers,
        vec![
            (NumberSetting::WindowX, "40".to_string()),
            (NumberSetting::WindowY, "-120".to_string()),
            (NumberSetting::WindowWidth, "480".to_string()),
            (NumberSetting::WindowHeight, "900".to_string()),
        ]
    );
}

#[test]
fn windows_that_barely_touch_a_monitor_do_not_count() {
    let main = Rect {
        x: 0,
        y: 0,
        w: 1920,
        h: 1080,
    };
    let on = Rect {
        x: 100,
        y: 80,
        w: 460,
        h: 800,
    };
    let off = Rect {
        x: 8000,
        y: 8000,
        w: 460,
        h: 800,
    };
    let edge = Rect {
        x: 1850,
        y: 0,
        w: 460,
        h: 800,
    };
    assert!(overlap_at_least(on, main, 80));
    assert!(!overlap_at_least(off, main, 80));
    assert!(!overlap_at_least(edge, main, 80));
    assert!(overlap_at_least(edge, main, 70));
}

#[test]
fn config_path_uses_os_specific_folder() {
    let path = config_file_path(&PathFlavour::of_build(), "linux");
    assert!(path.ends_with("config.ini"));
    assert!(path.ends_with("alfred/config.ini"));
    assert!(config_file_path(&PathFlavour::of_build(), "macos").ends_with("Alfred/config.ini"));
}

#[test]
fn the_documented_alert_and_overlay_settings_are_read() {
    let defaults = parse_ini("[general]\neq_directory = /eq\n");
    assert!(defaults.alert_start_chain_sound);
    assert!(!defaults.overlay_clickthrough);
    let parsed = parse_ini(
        "[general]\nalert_start_chain_sound = false\nalert_dismiss_seconds = 0\n\n[overlay]\nopacity = 0.5\nclickthrough = true\n",
    );
    assert!(!parsed.alert_start_chain_sound);
    assert!(parsed.overlay_clickthrough);
    assert_eq!(
        parsed.numbers,
        vec![
            (NumberSetting::AlertDismiss, "0".to_string()),
            (NumberSetting::OverlayOpacity, "0.5".to_string()),
        ]
    );
}

#[test]
fn the_settings_path_sits_under_the_config_folder_or_the_current_one() {
    let flavour = PathFlavour::of_build();
    assert_eq!(config_path_in(&flavour, Some("/home/me/.config".into()), "linux"), "/home/me/.config/alfred/config.ini");
    assert_eq!(config_path_in(&flavour, None, "macos"), "./Alfred/config.ini");
}

#[test]
fn a_cleaned_tag_cleans_to_itself() {
    for raw in ["  ca ", "goodguys", "12 !", "", "gG", "x-y-z-w-v"] {
        let once = normalize_chain_tag(raw);
        assert_eq!(normalize_chain_tag(&once), once, "{raw:?}");
    }
}

fn blank_patch() -> alfred::config::SettingsPatch {
    alfred::config::SettingsPatch {
        eq_directory: None,
        always_on_top: None,
        sound_enabled: None,
        metronome_enabled: None,
        tail_poll_ms: None,
        setup_complete: None,
        chain_tag: None,
        alert_slot_taken: None,
        alert_wrong_target: None,
        alert_auto_take_sound: None,
        alert_start_chain_sound: None,
        overlay_clickthrough: None,
    }
}

#[test]
fn a_settings_change_keeps_sound_and_metronome_apart() {
    let held = parse_ini("[general]\nsound_enabled = true\n");
    let mut patch = blank_patch();
    patch.metronome_enabled = Some(true);
    patch.sound_enabled = Some(true);
    let (next, restart) = alfred::config::apply_settings_patch(&held, &patch, None).unwrap();
    assert!(next.metronome_enabled && !next.sound_enabled);
    assert!(!restart);
    let mut patch = blank_patch();
    patch.sound_enabled = Some(false);
    let (next, _) = alfred::config::apply_settings_patch(&held, &patch, None).unwrap();
    assert!(!next.metronome_enabled && !next.sound_enabled);
}

#[test]
fn a_settings_change_floors_the_poll_cleans_the_tag_and_checks_the_folder() {
    let held = parse_ini("");
    let mut patch = blank_patch();
    patch.tail_poll_ms = Some(10);
    patch.chain_tag = Some("  goodguys ".to_string());
    let (next, restart) = alfred::config::apply_settings_patch(&held, &patch, None).unwrap();
    assert_eq!(next.tail_poll_ms, 50);
    assert_eq!(next.chain_tag, "GOOD");
    assert!(restart);
    let mut patch = blank_patch();
    patch.eq_directory = Some("/games/eq".to_string());
    let refused = alfred::config::apply_settings_patch(&held, &patch, Some(Err("No Logs folder".to_string())));
    assert_eq!(refused.err(), Some("No Logs folder".to_string()));
    let (next, restart) = alfred::config::apply_settings_patch(&held, &patch, Some(Ok(()))).unwrap();
    assert_eq!(next.eq_directory, "/games/eq");
    assert!(restart);
}
