use alfred::watch::{
    best_index, character_from_log, character_from_stem, eq_relative_paths, inspect_eq_directory,
    is_eq_log_name, is_logs_name, is_newer_log, logs_candidate, normalize_eq_path,
    normalize_eq_path_with, probe_score, PathFlavour, split_lines, watch_status, DirFacts, FoundLogs,
    WatchStatus,
};
use alfred::watch::{Backend, LoopEvent, ResolvedLogs, WatchEvent, WatchLoop};

#[test]
fn parse_character_name_from_common_servers() {
    assert_eq!(
        character_from_log(&PathFlavour::of_build(), "/eq/Logs/eqlog_Clericone_P1999Green.txt").as_deref(),
        Some("Clericone")
    );
    assert_eq!(
        character_from_log(&PathFlavour::of_build(), r"C:\EQ\Logs\eqlog_Tank_P1999PVP.txt").as_deref(),
        Some("Tank")
    );
    assert_eq!(
        character_from_log(&PathFlavour::of_build(), "eqlog_Foo_project1999.txt").as_deref(),
        Some("Foo")
    );
    assert_eq!(character_from_log(&PathFlavour::of_build(), "notes.txt"), None);
    assert_eq!(character_from_log(&PathFlavour::of_build(), "eqlog_.txt"), None);
    assert_eq!(character_from_log(&PathFlavour::of_build(), "eqlog_only.txt"), None);
}

#[test]
fn normalize_eq_path_strips_quotes_and_file_urls() {
    assert_eq!(normalize_eq_path(&PathFlavour::of_build(), "  /games/eq  "), "/games/eq");
    assert_eq!(normalize_eq_path(&PathFlavour::of_build(), r#""/games/EverQuest""#), "/games/EverQuest");
    assert_eq!(
        normalize_eq_path(&PathFlavour::of_build(), "file:///Users/me/EverQuest"),
        "/Users/me/EverQuest"
    );
    assert_eq!(normalize_eq_path(&PathFlavour::of_build(), "file:///C:/Games/EQ"), "C:/Games/EQ");
}

#[test]
fn normalize_eq_path_reads_spaces_and_home() {
    assert_eq!(
        normalize_eq_path_with(&PathFlavour::of_build(), "'/games/Project%201999'", None),
        "/games/Project 1999"
    );
    assert_eq!(
        normalize_eq_path_with(&PathFlavour::of_build(), "file://localhost/srv/eq", None),
        "/srv/eq"
    );
    assert_eq!(
        normalize_eq_path_with(&PathFlavour::of_build(), "~/EverQuest", Some("/home/me")),
        "/home/me/EverQuest"
    );
    assert_eq!(normalize_eq_path_with(&PathFlavour::of_build(), "~/EverQuest", None), "~/EverQuest");
}

#[test]
fn eq_log_name_is_case_insensitive() {
    assert!(is_eq_log_name("eqlog_A_P1999Green.txt"));
    assert!(is_eq_log_name("EQLOG_A_P1999GREEN.TXT"));
    assert!(!is_eq_log_name("dbg.txt"));
    assert!(!is_eq_log_name("eqlog_A_P1999Green.log"));
    assert!(!is_eq_log_name("log_A_P1999Green.txt"));
}

#[test]
fn idle_status_carries_error() {
    let status = WatchStatus::idle(Some("missing".into()));
    assert_eq!(status.backend, "idle");
    assert_eq!(status.last_error.as_deref(), Some("missing"));
    assert!(status.active_log.is_none());
}

#[test]
fn a_logs_folder_is_named_logs_in_any_case() {
    assert!(is_logs_name("Logs"));
    assert!(is_logs_name("LOGS"));
    assert!(!is_logs_name("Log"));
    assert_eq!(logs_candidate(&PathFlavour::of_build(), "/eq/Logs", true), "/eq/Logs");
    assert_eq!(logs_candidate(&PathFlavour::of_build(), "/eq", false), "/eq/Logs");
}

fn facts(exists: bool, is_dir: bool, logs: Result<FoundLogs, String>, root: bool) -> DirFacts {
    DirFacts {
        exists,
        is_dir,
        logs,
        looks_like_root: root,
    }
}

#[test]
fn inspect_eq_directory_validates_and_reads_character() {
    let empty = inspect_eq_directory(&PathFlavour::of_build(), String::new(), facts(false, false, Err(String::new()), false));
    assert!(!empty.ok);
    assert!(empty.error.unwrap().contains("Paste or browse"));

    let missing = inspect_eq_directory(&PathFlavour::of_build(), "/no/such/eq/folder".into(),
        facts(false, false, Err("x".into()), false),
    );
    assert!(!missing.ok);
    assert!(missing.error.unwrap().contains("does not exist"));

    let file = inspect_eq_directory(&PathFlavour::of_build(), "/eq/file".into(), facts(true, false, Err("x".into()), false));
    assert!(file.error.unwrap().contains("not a folder"));

    let random = inspect_eq_directory(&PathFlavour::of_build(), "/tmp/random".into(),
        facts(true, true, Err("Logs folder not found: /tmp/random/Logs".into()), false),
    );
    assert!(!random.ok);
    assert!(random.error.unwrap().contains("Not an EverQuest folder"));

    let no_logs = inspect_eq_directory(&PathFlavour::of_build(), "/tmp/eq".into(),
        facts(true, true, Err("Logs folder not found: /tmp/eq/Logs".into()), true),
    );
    assert!(!no_logs.ok);
    assert_eq!(
        no_logs.error.as_deref(),
        Some("Logs folder not found: /tmp/eq/Logs Turn on /log in game if you have not yet.")
    );

    let ok = inspect_eq_directory(&PathFlavour::of_build(), "/tmp/eq".into(),
        facts(
            true,
            true,
            Ok(FoundLogs {
                user_path: "/tmp/eq/Logs".into(),
                newest_log: Some("/tmp/eq/Logs/eqlog_Clericone_P1999Green.txt".into()),
            }),
            true,
        ),
    );
    assert!(ok.ok);
    assert_eq!(ok.character.as_deref(), Some("Clericone"));
    assert!(ok.active_log.unwrap().contains("eqlog_Clericone_P1999Green.txt"));
    assert_eq!(ok.logs_path.as_deref(), Some("/tmp/eq/Logs"));
}

#[test]
fn the_best_folder_has_a_character_and_the_newest_log() {
    assert_eq!(probe_score(false, None), 1_000_000);
    assert_eq!(probe_score(true, Some(5)), 2_000_005);
    assert_eq!(best_index(&vec![]), None);
    assert_eq!(best_index(&vec![3, 9, 9, 1]), Some(1));
    assert_eq!(best_index(&vec![4]), Some(0));
    assert!(is_newer_log(5, 0, None));
    assert!(is_newer_log(6, 0, Some((5, 100))));
    assert!(is_newer_log(5, 101, Some((5, 100))));
    assert!(!is_newer_log(5, 100, Some((5, 100))));
    assert!(!is_newer_log(4, 900, Some((5, 100))));
}

#[test]
fn tail_handles_crlf_partial_lines_and_truncation() {
    let (lines, rest) = split_lines(&Vec::new(), &b"first\r\npartial".to_vec());
    assert_eq!(lines, vec!["first"]);
    assert_eq!(rest, b"partial".to_vec());
    let (lines, rest) = split_lines(&rest, &b" line\n\nsecond\n".to_vec());
    assert_eq!(lines, vec!["partial line", "second"]);
    assert!(rest.is_empty());
    let (lines, rest) = split_lines(&Vec::new(), &b"rewound\n".to_vec());
    assert_eq!(lines, vec!["rewound"]);
    assert!(rest.is_empty());
}

#[test]
fn bytes_that_are_not_text_are_replaced() {
    let (lines, _) = split_lines(&Vec::new(), &vec![b'a', 0xff, b'b', b'\n']);
    assert_eq!(lines, vec!["a\u{fffd}b"]);
}

#[test]
fn the_status_names_the_character_of_the_active_log() {
    let status = watch_status(&PathFlavour::of_build(), "/eq".into(),
        Some("/eq/Logs".into()),
        None,
        Some("/eq/Logs/eqlog_Second_P1999Green.txt".into()),
        "events".into(),
        None,
    );
    assert_eq!(status.character.as_deref(), Some("Second"));
    assert_eq!(status.eq_directory.as_deref(), Some("/eq"));
    assert_eq!(status.backend, "events");
}

#[test]
fn the_install_locations_cover_steam_and_daybreak() {
    let paths = eq_relative_paths();
    assert_eq!(paths.len(), 21);
    assert_eq!(paths[0], vec!["EverQuest"]);
    assert!(paths.iter().any(|p| p.contains(&"Daybreak Game Company")));
    assert!(paths.iter().any(|p| p.contains(&"steamapps")));
    assert_eq!(character_from_stem("eqlog_Foo_P1999Green").as_deref(), Some("Foo"));
}

#[test]
fn the_watch_loop_follows_the_folder_and_the_newest_log() {
    let mut state = WatchLoop::new("/eq".into(), true, PathFlavour::of_build());
    assert_eq!(state.backend, Backend::Events);
    let logs = ResolvedLogs {
        user_path: "/eq/Logs".into(),
        canonical: Some("/real/Logs".into()),
    };
    let (rewatch, report) = state.resolved(&Ok(ResolvedLogs {
        user_path: "/eq/Logs".into(),
        canonical: Some("/real/Logs".into()),
    }));
    assert!(report.is_none());
    let (unwatch, target) = rewatch.expect("a folder to watch");
    assert!(unwatch.is_none());
    assert_eq!(target, "/real/Logs");
    let status = state.watching(&logs, target, Ok(()));
    assert_eq!(status.backend, "events");
    assert_eq!(status.logs_canonical.as_deref(), Some("/real/Logs"));

    // The same folder again, written with a trailing slash: nothing to do.
    let (again, _) = state.resolved(&Ok(ResolvedLogs {
        user_path: "/eq/Logs".into(),
        canonical: Some("/real/Logs/".into()),
    }));
    assert!(again.is_none());

    assert_eq!(state.heard(LoopEvent::Quiet, false), Some(false));
    assert_eq!(state.heard(LoopEvent::Changed, false), Some(true));
    assert_eq!(state.heard(LoopEvent::Closed, true), None);

    let (open, _) = state.newest(&logs, Ok(Some("/real/Logs/eqlog_Second_P1999Green.txt".into())));
    let path = open.expect("a log to open");
    let status = state.opened(&logs, path, Ok(())).expect("a status");
    assert_eq!(status.character.as_deref(), Some("Second"));
    let (same, _) = state.newest(&logs, Ok(Some("/real/Logs/eqlog_Second_P1999Green.txt".into())));
    assert!(same.is_none());

    match state.read(Ok(vec!["GG 002 CH -- Mluian".into()])) {
        Some(WatchEvent::Lines { character, lines }) => {
            assert_eq!(character.as_deref(), Some("Second"));
            assert_eq!(lines.len(), 1);
        }
        _ => panic!("expected lines"),
    }
    assert!(state.read(Ok(Vec::new())).is_none());

    let failed = state.watching(&logs, "/real/Logs".into(), Err("denied".into()));
    assert_eq!(failed.backend, "polling");
    assert_eq!(failed.last_error.as_deref(), Some("watch failed: denied"));

    let (_, lost) = state.resolved(&Err("Logs folder not found: /eq/Logs".into()));
    let lost = lost.expect("a status");
    assert!(lost.logs_path.is_none());
    assert_eq!(lost.last_error.as_deref(), Some("Logs folder not found: /eq/Logs"));

    let (_, gone) = state.newest(&logs, Ok(None));
    assert!(gone.expect("the tail stopped").active_log.is_none());
}
