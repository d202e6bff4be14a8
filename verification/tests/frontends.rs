use rusty_fclone::action::{plan, ActionKind, ApplyReport};
use rusty_fclone::cli::{
    after_handling, on_event, EventAction, RunState, action_outcomes, action_word, confirm, folder_match_pairs, folder_match_roots, group_fully_covered_by,
    group_totals, Action, KeepRule,
};
use rusty_fclone::folder_dedup::FolderMatch;
use rusty_fclone::model::{DuplicateGroup, FileError, FileIdentity, ScanEvent, ScanOptions, ScanProgress, ScanSummary};
use rusty_fclone::paths::{parse_path, FsPath};
use rusty_fclone::payload::{
    normalize_path_input, parse_action_kind, parse_keep_rule, ActionPlanPayload, FolderMatchPayload, GroupPayload,
    ScanEventPayload, ScanOptionsPayload, ScanProfilePayload,
};
use rusty_fclone::preview::{base64_encode, check_preview_size, data_url, decimal_string, mime_for_extension};
use rusty_fclone::profiles::{profiles_path, remove, upsert};
use rusty_fclone::select::Rule;

fn p(s: &str) -> FsPath {
    parse_path(s)
}

#[test]
fn confirm_accepts_y_and_yes_case_insensitively() {
    assert!(confirm(Some("y\n")));
    assert!(confirm(Some("Y\n")));
    assert!(confirm(Some("yes\n")));
    assert!(confirm(Some("YES\n")));
}

#[test]
fn confirm_rejects_anything_else() {
    assert!(!confirm(Some("n\n")));
    assert!(!confirm(Some("\n")));
    assert!(!confirm(Some("")));
    assert!(!confirm(Some("maybe\n")));
    assert!(!confirm(None));
}

#[test]
fn cli_actions_map_to_action_kinds() {
    assert_eq!(Action::Report.as_core_kind(None), Ok(None));
    assert_eq!(Action::Delete.as_core_kind(None), Ok(Some(ActionKind::Delete)));
    assert_eq!(Action::Move.as_core_kind(Some(&p("/arc"))), Ok(Some(ActionKind::Move(p("/arc")))));
    assert_eq!(
        Action::Move.as_core_kind(None),
        Err("--action move requires --archive-dir <PATH>".to_string())
    );
    assert_eq!(
        Action::Copy.as_core_kind(None),
        Err("--action copy requires --archive-dir <PATH>".to_string())
    );
    assert_eq!(KeepRule::default().as_core_rule(), Rule::AlphabeticallyFirst);
    assert_eq!(KeepRule::Newest.as_core_rule(), Rule::Newest);
    assert_eq!(action_word(&ActionKind::Copy(p("/x"))), "copy");
}

#[test]
fn folder_match_roots_and_coverage() {
    let matches = vec![
        FolderMatch::Exact { folders: vec![p("/t/a"), p("/t/b")], file_count: 2, bytes: 6 },
        FolderMatch::Contained { subset: p("/t/s"), superset: p("/t/big"), file_count: 1, bytes: 3 },
    ];
    let roots = folder_match_roots(&matches);
    assert_eq!(roots, vec![p("/t/a"), p("/t/b"), p("/t/s"), p("/t/big")]);
    let covered = DuplicateGroup { size: 3, paths: vec![p("/t/a/1.txt"), p("/t/b/1.txt")] };
    let loose = DuplicateGroup { size: 3, paths: vec![p("/t/a/1.txt"), p("/t/other/1.txt")] };
    assert!(group_fully_covered_by(&covered, &roots));
    assert!(!group_fully_covered_by(&loose, &roots));
}

#[test]
fn folder_match_pairs_keep_the_superset_or_the_first_exact_folder() {
    let contained = FolderMatch::Contained { subset: p("/t/s"), superset: p("/t/big"), file_count: 1, bytes: 3 };
    assert_eq!(folder_match_pairs(&contained), vec![(p("/t/s"), p("/t/big"))]);
    let exact = FolderMatch::Exact { folders: vec![p("/t/b"), p("/t/a"), p("/t/c")], file_count: 1, bytes: 3 };
    assert_eq!(folder_match_pairs(&exact), vec![(p("/t/b"), p("/t/a")), (p("/t/c"), p("/t/a"))]);
}

#[test]
fn action_outcomes_follow_the_report() {
    let entries = vec![(p("/d/b"), 3), (p("/d/c"), 3)];
    let succeeded = vec![p("/d/b")];
    let failed = vec![FileError { path: p("/d/c"), message: "denied".to_string() }];
    let outcomes = action_outcomes(&entries, &succeeded, &failed);
    assert_eq!(outcomes.len(), 2);
    assert!(outcomes[0].succeeded);
    assert_eq!(outcomes[0].error, None);
    assert!(!outcomes[1].succeeded);
    assert_eq!(outcomes[1].error, Some("denied".to_string()));
    assert_eq!(outcomes[1].bytes, 3);
}

#[test]
fn group_totals_count_a_dry_run_and_an_applied_run() {
    let group = DuplicateGroup { size: 3, paths: vec![p("/d/a"), p("/d/b"), p("/d/c")] };
    let ids: Vec<Option<FileIdentity>> = (1..=3).map(|n| Some(FileIdentity::Inode { device_id: 1, inode_number: n })).collect();
    let plan = plan(&group, ActionKind::Delete, &vec![], &ids);
    assert_eq!(group_totals(&plan, None), (6, 2, false));
    let report = ApplyReport::from_outcomes(&plan, vec![None, Some("denied".to_string())]);
    assert_eq!(group_totals(&plan, Some(&report)), (3, 1, true));
}

#[test]
fn normalize_path_input_strips_windows_copy_as_path_quoting() {
    assert_eq!(normalize_path_input("\"C:\\Users\\me\\Downloads\""), "C:\\Users\\me\\Downloads");
}

#[test]
fn normalize_path_input_strips_surrounding_single_quotes_too() {
    assert_eq!(normalize_path_input("'/home/me/photos'"), "/home/me/photos");
}

#[test]
fn normalize_path_input_trims_whitespace_around_and_inside_the_quotes() {
    assert_eq!(normalize_path_input("  \"  /home/me/photos  \"  "), "/home/me/photos");
}

#[test]
fn normalize_path_input_leaves_an_unquoted_path_unchanged() {
    assert_eq!(normalize_path_input("/home/me/photos"), "/home/me/photos");
}

#[test]
fn normalize_path_input_does_not_strip_a_lone_leading_or_trailing_quote() {
    assert_eq!(normalize_path_input("\"/home/me/photos"), "\"/home/me/photos");
    assert_eq!(normalize_path_input("/home/me/photos\""), "/home/me/photos\"");
}

#[test]
fn normalize_path_input_strips_only_one_layer_of_mismatched_quotes() {
    assert_eq!(normalize_path_input("\"/x'"), "\"/x'");
    assert_eq!(normalize_path_input("\"\""), "");
    assert_eq!(normalize_path_input("\""), "\"");
}

#[test]
fn scan_options_payload_applies_defaults_for_omitted_fields() {
    let payload = ScanOptionsPayload {
        follow_symlinks: true,
        cross_filesystems: false,
        verify_matches: false,
        small_file_threshold: None,
        partial_hash_sample_size: None,
        io_threads: Some(4),
        cache_path: Some("cache.redb".into()),
        fclones_import_path: None,
        min_size: None,
        max_size: None,
        include_extensions: None,
        exclude_extensions: None,
        exclude_paths: Vec::new(),
    };
    let options: ScanOptions = payload.into();
    let defaults = ScanOptions::default();
    assert!(options.follow_symlinks);
    assert_eq!(options.small_file_threshold, defaults.small_file_threshold);
    assert_eq!(options.partial_hash_sample_size, defaults.partial_hash_sample_size);
    assert_eq!(options.io_threads, Some(4));
    assert_eq!(options.cache_path, Some(p("cache.redb")));
    assert_eq!(options.fclones_import_path, None);
}

#[test]
fn scan_options_payload_normalizes_pasted_quoted_paths_too() {
    let payload = ScanOptionsPayload {
        follow_symlinks: false,
        cross_filesystems: false,
        verify_matches: false,
        small_file_threshold: None,
        partial_hash_sample_size: None,
        io_threads: None,
        cache_path: Some("\"C:\\cache\\hashes.redb\"".into()),
        fclones_import_path: Some("\"C:\\Users\\me\\.cache\\fclones\"".into()),
        min_size: None,
        max_size: None,
        include_extensions: None,
        exclude_extensions: None,
        exclude_paths: Vec::new(),
    };
    let options: ScanOptions = payload.into();
    assert_eq!(options.cache_path, Some(p("C:\\cache\\hashes.redb")));
    assert_eq!(options.fclones_import_path, Some(p("C:\\Users\\me\\.cache\\fclones")));
}

#[test]
fn scan_options_payload_passes_through_filters_and_normalizes_exclude_paths() {
    let payload = ScanOptionsPayload {
        follow_symlinks: false,
        cross_filesystems: false,
        verify_matches: false,
        small_file_threshold: None,
        partial_hash_sample_size: None,
        io_threads: None,
        cache_path: None,
        fclones_import_path: None,
        min_size: Some(1024),
        max_size: Some(1_000_000),
        include_extensions: Some(vec!["jpg".to_string(), "png".to_string()]),
        exclude_extensions: Some(vec!["tmp".to_string()]),
        exclude_paths: vec!["\"/home/me/node_modules\"".to_string()],
    };
    let options: ScanOptions = payload.into();
    assert_eq!(options.min_size, Some(1024));
    assert_eq!(options.max_size, Some(1_000_000));
    assert_eq!(options.include_extensions, Some(vec!["jpg".to_string(), "png".to_string()]));
    assert_eq!(options.exclude_extensions, Some(vec!["tmp".to_string()]));
    assert_eq!(options.exclude_paths, vec![p("/home/me/node_modules")]);
}

#[test]
fn scan_options_defaults_match_the_documented_thresholds() {
    let defaults = ScanOptions::default();
    assert_eq!(defaults.small_file_threshold, 128 * 1024);
    assert_eq!(defaults.partial_hash_sample_size, 16 * 1024);
    assert!(!defaults.follow_symlinks);
    assert!(defaults.exclude_paths.is_empty());
}

#[test]
fn parse_action_kind_accepts_the_four_known_words_and_rejects_others() {
    assert_eq!(parse_action_kind("delete", None), Ok(ActionKind::Delete));
    assert_eq!(parse_action_kind("trash", None), Ok(ActionKind::Trash));
    assert_eq!(parse_action_kind("hardlink", None), Ok(ActionKind::Hardlink));
    assert_eq!(parse_action_kind("reflink", None), Ok(ActionKind::Reflink));
    assert!(parse_action_kind("frobnicate", None).is_err());
    assert_eq!(parse_action_kind("frobnicate", None), Err("unknown action kind: frobnicate".to_string()));
}

#[test]
fn parse_action_kind_move_and_copy_require_an_archive_directory() {
    let archive = p("/archive");
    assert_eq!(parse_action_kind("move", Some(&archive)), Ok(ActionKind::Move(archive.clone())));
    assert_eq!(parse_action_kind("copy", Some(&archive)), Ok(ActionKind::Copy(archive.clone())));
    assert!(parse_action_kind("move", None).is_err());
    assert!(parse_action_kind("copy", None).is_err());
}

#[test]
fn parse_keep_rule_accepts_the_five_known_words_and_rejects_others() {
    assert_eq!(parse_keep_rule("alphabetical"), Ok(Rule::AlphabeticallyFirst));
    assert_eq!(parse_keep_rule("newest"), Ok(Rule::Newest));
    assert_eq!(parse_keep_rule("oldest"), Ok(Rule::Oldest));
    assert_eq!(parse_keep_rule("shortest_path"), Ok(Rule::ShortestPath));
    assert_eq!(parse_keep_rule("longest_path"), Ok(Rule::LongestPath));
    assert!(parse_keep_rule("frobnicate").is_err());
    assert_eq!(parse_keep_rule("Newest"), Err("unknown keep rule: Newest".to_string()));
}

#[test]
fn group_payload_round_trips_into_a_duplicate_group() {
    let group: DuplicateGroup = GroupPayload { size: 42, paths: vec!["/a".into(), "/b".into()] }.into();
    assert_eq!(group.size, 42);
    assert_eq!(group.paths.len(), 2);
    assert_eq!(group.paths[0], p("/a"));
    assert_eq!(group.paths[1], p("/b"));
}

#[test]
fn duplicate_group_converts_to_a_scan_event_payload_with_display_paths() {
    let group = DuplicateGroup { size: 7, paths: vec![p("/x/a"), p("/x/b")] };
    let payload = ScanEventPayload::from(&group);
    match payload {
        ScanEventPayload::DuplicateGroup { size, paths } => {
            assert_eq!(size, 7);
            assert_eq!(paths, vec!["/x/a".to_string(), "/x/b".to_string()]);
        }
        other => panic!("expected DuplicateGroup, got {other:?}"),
    }
}

#[test]
fn other_scan_events_convert_field_for_field() {
    let e = ScanEventPayload::from(&FileError { path: p("/x/y"), message: "boom".to_string() });
    assert_eq!(e, ScanEventPayload::Error { path: "/x/y".to_string(), message: "boom".to_string() });
    let e = ScanEventPayload::from(ScanProgress { files_scanned: 4, bytes_scanned: 9 });
    assert_eq!(e, ScanEventPayload::Progress { files_scanned: 4, bytes_scanned: 9 });
    let e = ScanEventPayload::from(ScanSummary {
        files_scanned: 1,
        bytes_scanned: 2,
        duplicate_groups: 3,
        duplicate_files: 4,
    });
    match e {
        ScanEventPayload::Finished(s) => {
            assert_eq!((s.files_scanned, s.bytes_scanned, s.duplicate_groups, s.duplicate_files), (1, 2, 3, 4))
        }
        other => panic!("expected Finished, got {other:?}"),
    }
}

#[test]
fn folder_matches_convert_with_display_paths() {
    let m = FolderMatch::Contained { subset: p("/t/s"), superset: p("/t/big"), file_count: 1, bytes: 3 };
    assert_eq!(
        FolderMatchPayload::from(&m),
        FolderMatchPayload::Contained {
            subset: "/t/s".to_string(),
            superset: "/t/big".to_string(),
            file_count: 1,
            bytes: 3
        }
    );
}

#[test]
fn action_plan_payload_lists_the_planned_paths() {
    let group = DuplicateGroup { size: 3, paths: vec![p("/d/a"), p("/d/b")] };
    let ids = vec![
        Some(FileIdentity::Inode { device_id: 1, inode_number: 1 }),
        Some(FileIdentity::Inode { device_id: 1, inode_number: 2 }),
    ];
    let plan = plan(&group, ActionKind::Delete, &vec![], &ids);
    let payload = ActionPlanPayload::from((&plan, "alphabetically first"));
    assert_eq!(payload.kept, "/d/a");
    assert_eq!(payload.keep_reason, "alphabetically first");
    assert_eq!(payload.planned, vec!["/d/b".to_string()]);
    assert_eq!(payload.bytes_reclaimed, 3);
}

#[test]
fn base64_encode_matches_known_vectors() {
    assert_eq!(base64_encode(&b"".to_vec()), "");
    assert_eq!(base64_encode(&b"f".to_vec()), "Zg==");
    assert_eq!(base64_encode(&b"fo".to_vec()), "Zm8=");
    assert_eq!(base64_encode(&b"foo".to_vec()), "Zm9v");
    assert_eq!(base64_encode(&b"foob".to_vec()), "Zm9vYg==");
    assert_eq!(base64_encode(&b"fooba".to_vec()), "Zm9vYmE=");
    assert_eq!(base64_encode(&b"foobar".to_vec()), "Zm9vYmFy");
}

#[test]
fn base64_encode_uses_the_standard_alphabet_for_high_bytes() {
    assert_eq!(base64_encode(&vec![0xfb, 0xff, 0xbf]), "+/+/");
}

#[test]
fn mime_for_extension_recognizes_supported_image_and_audio_formats() {
    assert_eq!(mime_for_extension(&p("a.jpg")), Some("image/jpeg"));
    assert_eq!(mime_for_extension(&p("a.JPEG")), Some("image/jpeg"));
    assert_eq!(mime_for_extension(&p("a.png")), Some("image/png"));
    assert_eq!(mime_for_extension(&p("a.mp3")), Some("audio/mpeg"));
    assert_eq!(mime_for_extension(&p("a.flac")), Some("audio/flac"));
}

#[test]
fn mime_for_extension_rejects_heic_tiff_video_and_unknown_extensions() {
    assert_eq!(mime_for_extension(&p("a.heic")), None);
    assert_eq!(mime_for_extension(&p("a.tiff")), None);
    assert_eq!(mime_for_extension(&p("a.mp4")), None);
    assert_eq!(mime_for_extension(&p("a.txt")), None);
    assert_eq!(mime_for_extension(&p("noextension")), None);
}

#[test]
fn check_preview_size_enforces_the_limit_with_a_readable_message() {
    assert_eq!(check_preview_size("image/png", 25 * 1024 * 1024), Ok(()));
    assert_eq!(
        check_preview_size("image/png", 25 * 1024 * 1024 + 1),
        Err("file too large to preview (26214401 bytes, limit 26214400 bytes)".to_string())
    );
    assert!(check_preview_size("audio/mpeg", 30 * 1024 * 1024).is_err());
}

#[test]
fn data_url_has_the_mime_and_base64_body() {
    assert_eq!(data_url("image/png", &b"foo".to_vec()), "data:image/png;base64,Zm9v");
    assert_eq!(decimal_string(0), "0");
    assert_eq!(decimal_string(1_234_567), "1234567");
}

fn profile(name: &str, root: &str) -> ScanProfilePayload {
    ScanProfilePayload { name: name.to_string(), root: root.to_string(), options: ScanOptionsPayload::default() }
}

#[test]
fn upsert_inserts_a_new_profile() {
    let profiles = upsert(vec![], profile("Downloads", "/home/me/Downloads"));
    assert_eq!(profiles.len(), 1);
    assert_eq!(profiles[0].name, "Downloads");
    assert_eq!(profiles[0].root, "/home/me/Downloads");
}

#[test]
fn upsert_overwrites_an_existing_profile_with_the_same_name() {
    let profiles = upsert(vec![profile("Downloads", "/home/me/Downloads")], profile("Downloads", "/home/me/Downloads2"));
    assert_eq!(profiles.len(), 1);
    assert_eq!(profiles[0].root, "/home/me/Downloads2");
}

#[test]
fn upsert_preserves_other_saved_profiles() {
    let profiles = upsert(vec![profile("A", "/a")], profile("B", "/b"));
    assert_eq!(profiles.len(), 2);
    assert!(profiles.iter().any(|p| p.name == "A" && p.root == "/a"));
    assert!(profiles.iter().any(|p| p.name == "B" && p.root == "/b"));
}

#[test]
fn remove_deletes_the_named_profile() {
    let profiles = remove(vec![profile("A", "/a"), profile("B", "/b")], "A");
    assert_eq!(profiles.len(), 1);
    assert_eq!(profiles[0].name, "B");
}

#[test]
fn remove_a_name_that_does_not_exist_is_a_no_op() {
    let profiles = remove(vec![profile("A", "/a")], "does-not-exist");
    assert_eq!(profiles.len(), 1);
    assert_eq!(profiles[0].name, "A");
}

#[test]
fn profiles_live_in_one_json_file_of_the_folder() {
    assert_eq!(profiles_path(&p("/home/me/.config/rusty-fclone")), p("/home/me/.config/rusty-fclone/scan_profiles.json"));
}

#[test]
fn the_scan_loop_defers_groups_for_the_folder_pass_and_remembers_failures() {
    let start = RunState::new();
    assert!(!start.had_errors);
    let group = ScanEvent::DuplicateGroup(DuplicateGroup { size: 1, paths: vec![p("/a"), p("/b")] });
    assert_eq!(on_event(start, &group, true).1, EventAction::DeferGroup);
    assert_eq!(on_event(start, &group, false).1, EventAction::HandleGroup);
    let err = ScanEvent::Error(FileError { path: p("/a"), message: "denied".to_string() });
    let (after_error, step) = on_event(start, &err, false);
    assert_eq!(step, EventAction::ReportError);
    assert!(after_error.had_errors);
    let summary = ScanSummary { files_scanned: 2, bytes_scanned: 2, duplicate_groups: 1, duplicate_files: 2 };
    let (done, step) = on_event(after_error, &ScanEvent::Finished(summary), false);
    assert_eq!(step, EventAction::ReportFinished);
    assert_eq!(done.summary, summary);
    assert!(done.had_errors);
    assert!(after_handling(start, true).had_errors);
    assert!(!after_handling(start, false).had_errors);
}
