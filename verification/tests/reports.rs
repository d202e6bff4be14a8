use rusty_fclone::action::{plan, ActionKind, ApplyReport};
use rusty_fclone::commands::{
    action_result, choose_keep, folder_action_result, list_directory, preview_type, profile_name,
    save_scan_profile, shown_in_browser,
};
use rusty_fclone::folder_action::{plan_folder, FolderApplyReport};
use rusty_fclone::folder_dedup::FolderMatch;
use rusty_fclone::model::{
    DuplicateGroup, FileError, FileIdentity, FolderActionError, ListedFile, ScanError, ScanProgress, ScanSummary,
    TreeListing,
};
use rusty_fclone::paths::{parse_path, FsPath};
use rusty_fclone::payload::{DirEntryPayload, GroupPayload, ScanOptionsPayload, ScanProfilePayload};
use rusty_fclone::report::{
    action_summary_text, confirm_prompt, finished_text, folder_match_text, folder_pair_outcome, folder_pair_totals,
    group_text, history_scan_text, history_stats_text, progress_text, signed_decimal_string, HistoryStats, ScanRow,
};

fn p(s: &str) -> FsPath {
    parse_path(s)
}

fn ids(n: u64) -> Vec<Option<FileIdentity>> {
    (1..=n).map(|i| Some(FileIdentity::Inode { device_id: 1, inode_number: i })).collect()
}

#[test]
fn group_text_lists_the_paths_and_the_plan() {
    let group = DuplicateGroup { size: 3, paths: vec![p("/d/a"), p("/d/b"), p("/d/c")] };
    assert_eq!(group_text(&group, None), vec!["--- 3 bytes, 3 copies ---", "/d/a", "/d/b", "/d/c"]);
    let kind = ActionKind::Trash;
    let plan = plan(&group, kind.clone(), &vec![], &ids(3));
    assert_eq!(
        group_text(&group, Some((&kind, &plan, "alphabetically first"))),
        vec![
            "--- 3 bytes, 3 copies ---",
            "/d/a",
            "/d/b",
            "/d/c",
            "  keep: /d/a (alphabetically first)",
            "  trash: /d/b",
            "  trash: /d/c",
        ]
    );
}

fn small_big_plan(kind: ActionKind) -> rusty_fclone::folder_action::FolderActionPlan {
    let listing = TreeListing { is_dir: true, files: vec![ListedFile { path: p("/t/small/1.txt"), size: 3 }], unreadable: vec![] };
    let groups = vec![DuplicateGroup { size: 3, paths: vec![p("/t/big/1.txt"), p("/t/small/1.txt")] }];
    plan_folder(&p("/t/small"), &p("/t/big"), &groups, &listing, kind, &vec![]).unwrap()
}

#[test]
fn folder_match_text_describes_the_match_and_each_pair() {
    let exact = FolderMatch::Exact { folders: vec![p("/t/a"), p("/t/b")], file_count: 2, bytes: 6 };
    assert_eq!(folder_match_text(&exact, &vec![]), vec!["--- duplicate folders: 6 bytes, 2 files ---", "/t/a", "/t/b"]);

    let contained = FolderMatch::Contained { subset: p("/t/small"), superset: p("/t/big"), file_count: 1, bytes: 3 };
    let plan = small_big_plan(ActionKind::Delete);
    let preview = folder_pair_outcome(&plan, None);
    assert_eq!(
        folder_match_text(&contained, &vec![preview]),
        vec![
            "--- folder contained in another: 3 bytes, 1 files ---",
            "  subset:   /t/small",
            "  superset: /t/big",
            "  keep folder: /t/big",
            "  delete folder: /t/small (1 files, 3 bytes) (preview -- pass --apply to actually do this)",
        ]
    );

    let mut report = FolderApplyReport::from_outcomes(&plan, &vec![None]);
    report.directory_removed = true;
    let done = folder_pair_outcome(&plan, Some(&report));
    assert_eq!(
        folder_match_text(&contained, &vec![done])[4],
        "  delete folder: /t/small (1 files, 3 bytes) -- folder removed"
    );

    let failed = FolderApplyReport::from_outcomes(&plan, &vec![Some("denied".to_string())]);
    let outcome = folder_pair_outcome(&plan, Some(&failed));
    assert_eq!(outcome.failed, 1);
    assert_eq!(
        folder_match_text(&contained, &vec![outcome])[4],
        "  delete folder: /t/small (1 files, 3 bytes) -- 1 file(s) failed"
    );
    assert_eq!(folder_pair_totals(&plan, Some(&failed)), (0, 0, true));
    assert_eq!(folder_pair_totals(&plan, None), (3, 1, false));
}

#[test]
fn summaries_progress_and_prompt_read_as_sentences() {
    let s = ScanSummary { files_scanned: 10, bytes_scanned: 2048, duplicate_groups: 2, duplicate_files: 5 };
    assert_eq!(finished_text(&s), "scanned 10 files (2048 bytes), found 2 duplicate groups (5 files)");
    assert_eq!(action_summary_text(&ActionKind::Delete, true, 30, 3), "delete: reclaimed 30 bytes across 3 files");
    assert_eq!(
        action_summary_text(&ActionKind::Hardlink, false, 30, 3),
        "dry run (hardlink): would reclaim 30 bytes across 3 files -- pass --apply to actually do this"
    );
    assert_eq!(
        progress_text(&ScanProgress { files_scanned: 7, bytes_scanned: 70 }),
        "scanning... 7 files, 70 bytes"
    );
    assert_eq!(
        confirm_prompt(&p("/home/me"), &ActionKind::Trash, false),
        "This will scan /home/me and trash redundant files as duplicates are found. Proceed? [y/N] "
    );
    assert_eq!(
        confirm_prompt(&p("/home/me"), &ActionKind::Delete, true),
        "This will scan /home/me and delete redundant files, including whole duplicate folders, as duplicates are found. Proceed? [y/N] "
    );
}

#[test]
fn error_texts_name_the_paths() {
    assert_eq!(
        ScanError::InvalidRoot(p("/nope")).text(),
        "root path does not exist or is not a directory: /nope"
    );
    assert_eq!(FileError { path: p("/x/y"), message: "denied".to_string() }.text(), "/x/y: denied");
    assert_eq!(FolderActionError::NotADirectory(p("/gone")).text(), "/gone is not a directory");
    assert_eq!(
        FolderActionError::NoConfirmedDuplicate { path: p("/s/2.txt"), expected_partner: p("/b/2.txt") }.text(),
        "/s/2.txt has no confirmed duplicate at /b/2.txt"
    );
}

#[test]
fn save_scan_profile_rejects_an_empty_name() {
    assert_eq!(
        save_scan_profile(vec![], "", "/data", ScanOptionsPayload::default()),
        Err("a scan profile needs a name".to_string())
    );
}

#[test]
fn save_scan_profile_rejects_a_whitespace_only_name() {
    assert!(save_scan_profile(vec![], "   \t ", "/data", ScanOptionsPayload::default()).is_err());
    assert_eq!(profile_name("  x  "), Ok("x".to_string()));
}

#[test]
fn save_scan_profile_trims_the_name_and_normalizes_the_root() {
    let saved = save_scan_profile(vec![], "  Photos ", " \"/home/me/photos\" ", ScanOptionsPayload::default()).unwrap();
    assert_eq!(
        saved,
        vec![ScanProfilePayload {
            name: "Photos".to_string(),
            root: "/home/me/photos".to_string(),
            options: ScanOptionsPayload::default()
        }]
    );
}

#[test]
fn choose_keep_resolves_the_newest_file_without_touching_the_filesystem() {
    let group = GroupPayload { size: 3, paths: vec!["/d/a.txt".to_string(), "/d/b.txt".to_string()] };
    let chosen = choose_keep(group, "newest", &vec![], &vec![Some(1), Some(2)]).unwrap();
    assert_eq!(chosen.keep, "/d/b.txt");
    assert_eq!(chosen.reason, "most recent modification time");
}

#[test]
fn choose_keep_rejects_an_unknown_rule() {
    let group = GroupPayload { size: 3, paths: vec!["/d/a.txt".to_string()] };
    assert_eq!(
        choose_keep(group, "frobnicate", &vec![], &vec![None]).map(|c| c.keep),
        Err("unknown keep rule: frobnicate".to_string())
    );
}

#[test]
fn choose_keep_honors_a_quoted_reference_folder() {
    let group = GroupPayload { size: 3, paths: vec!["/d/a.txt".to_string(), "/d/ref/b.txt".to_string()] };
    let chosen = choose_keep(group, "alphabetical", &vec!["\"/d/ref\"".to_string()], &vec![None, None]).unwrap();
    assert_eq!(chosen.keep, "/d/ref/b.txt");
    assert_eq!(chosen.reason, "in a protected/reference folder");
}

#[test]
fn run_action_keep_reason_defaults_to_a_placeholder_when_omitted() {
    let group = DuplicateGroup { size: 3, paths: vec![p("/d/a"), p("/d/b")] };
    let plan = plan(&group, ActionKind::Delete, &vec![], &ids(2));
    let result = action_result(&plan, None, None);
    assert_eq!(result.plan.keep_reason, "your choice");
    assert_eq!(result.plan.planned, vec!["/d/b".to_string()]);
    assert!(result.applied.is_none());
}

#[test]
fn run_action_passes_through_an_explicit_keep_reason() {
    let group = DuplicateGroup { size: 3, paths: vec![p("/d/a"), p("/d/b")] };
    let plan = plan(&group, ActionKind::Delete, &vec![], &ids(2));
    let report = ApplyReport::from_outcomes(&plan, vec![None]);
    let result = action_result(&plan, Some("newest"), Some(&report));
    assert_eq!(result.plan.keep_reason, "newest");
    let applied = result.applied.unwrap();
    assert_eq!(applied.succeeded, vec!["/d/b".to_string()]);
    assert_eq!(applied.bytes_reclaimed, 3);
}

#[test]
fn folder_action_result_reports_the_plan_and_outcome() {
    let plan = small_big_plan(ActionKind::Delete);
    let result = folder_action_result(&plan, None);
    assert_eq!(result.plan.kept, "/t/big");
    assert_eq!(result.plan.removed, "/t/small");
    assert_eq!(result.plan.file_count, 1);
    assert_eq!(result.plan.bytes_reclaimed, 3);
    assert!(result.applied.is_none());
}

#[test]
fn read_preview_rejects_an_unsupported_extension() {
    assert_eq!(preview_type(&p("/x/notes.txt")), Err("unsupported file type for preview".to_string()));
    assert_eq!(preview_type(&p("/x/pic.PNG")), Ok("image/png"));
}

fn entry(name: &str) -> DirEntryPayload {
    DirEntryPayload { name: name.to_string(), path: format!("/r/{name}"), has_children: false }
}

#[test]
fn list_directory_lists_only_real_subdirectories_sorted_case_insensitively() {
    let found = vec![
        (entry("zeta"), true),
        (entry(".hidden"), true),
        (entry("Alpha"), true),
        (entry("file.txt"), false),
        (entry("beta"), true),
        (entry("Gamma"), true),
    ];
    let names: Vec<String> = list_directory(found).into_iter().map(|e| e.name).collect();
    assert_eq!(names, vec!["Alpha", "beta", "Gamma", "zeta"]);
    assert!(!shown_in_browser(".git", true));
    assert!(!shown_in_browser("docs", false));
    assert!(shown_in_browser("docs", true));
}

#[test]
fn history_lines_show_every_recorded_field() {
    let row = ScanRow {
        id: 1,
        root: "/data".to_string(),
        started_at: 1_700_000_000,
        files_scanned: 10,
        bytes_scanned: 1024,
        duplicate_groups: 1,
        duplicate_files: 2,
        action_kind: None,
        action_applied: None,
        bytes_reclaimed: None,
        files_acted_on: None,
    };
    assert_eq!(
        history_scan_text(&row),
        "/data @ 1700000000  files=10 bytes=1024 dup_groups=1 dup_files=2  action=none applied=- reclaimed=- acted_on=-"
    );
    let acted = ScanRow {
        action_kind: Some("delete".to_string()),
        action_applied: Some(true),
        bytes_reclaimed: Some(3),
        files_acted_on: Some(1),
        ..row
    };
    assert!(history_scan_text(&acted).ends_with("action=delete applied=true reclaimed=3 acted_on=1"));
    let stats = HistoryStats {
        scans: 2,
        files_scanned: 20,
        bytes_scanned: 2048,
        duplicate_groups: 3,
        duplicate_files: 6,
        bytes_reclaimed: 9,
        files_acted_on: 3,
    };
    assert_eq!(
        history_stats_text(&stats),
        "2 scans, 20 files scanned (2048 bytes), 3 duplicate groups (6 files), 9 bytes reclaimed across 3 files"
    );
    assert_eq!(signed_decimal_string(-42), "-42");
    assert_eq!(signed_decimal_string(i64::MIN), "-9223372036854775808");
}
