use rusty_fclone::action::{archive_destination, plan, plan_with_keep, tmp_sibling, ActionKind, ApplyReport};
use rusty_fclone::model::{DuplicateGroup, FileIdentity};
use rusty_fclone::paths::{parse_path, path_string, FsPath};
use rusty_fclone::select::{by_depth, by_modified, choose_keep, is_protected, protected_member, Rule};

fn p(s: &str) -> FsPath {
    parse_path(s)
}

fn group(size: u64, paths: &[&str]) -> DuplicateGroup {
    DuplicateGroup { size, paths: paths.iter().map(|s| p(s)).collect() }
}

fn ino(n: u64) -> Option<FileIdentity> {
    Some(FileIdentity::Inode { device_id: 1, inode_number: n })
}

fn planned(plan: &rusty_fclone::action::ActionPlan) -> Vec<String> {
    plan.actions.iter().map(|a| path_string(&a.path)).collect()
}

#[test]
fn newest_falls_back_to_alphabetically_first_when_no_metadata_is_readable() {
    let g = group(3, &["/definitely/does/not/exist/a.txt", "/definitely/does/not/exist/b.txt"]);
    let (keep, reason) = choose_keep(&g, Rule::Newest, &vec![], &vec![None, None]);
    assert_eq!(keep, p("/definitely/does/not/exist/a.txt"));
    assert!(reason.contains("alphabetically first"));
}

#[test]
fn alphabetically_first_always_picks_paths_zero() {
    let g = group(3, &["/d/a.txt", "/d/b.txt"]);
    let (keep, reason) = choose_keep(&g, Rule::AlphabeticallyFirst, &vec![], &vec![Some(2), Some(1)]);
    assert_eq!(keep, p("/d/a.txt"));
    assert_eq!(reason, "alphabetically first");
}

#[test]
fn newest_and_oldest_follow_the_modification_times() {
    let g = group(3, &["/d/a.txt", "/d/b.txt"]);
    let times = vec![Some(1_000), Some(2_000)];
    let (keep, reason) = choose_keep(&g, Rule::Newest, &vec![], &times);
    assert_eq!(keep, p("/d/b.txt"));
    assert_eq!(reason, "most recent modification time");
    let (keep, reason) = choose_keep(&g, Rule::Oldest, &vec![], &times);
    assert_eq!(keep, p("/d/a.txt"));
    assert_eq!(reason, "oldest modification time");
}

#[test]
fn an_unreadable_time_never_wins_over_a_readable_one() {
    let times = vec![None, Some(5), None];
    assert_eq!(by_modified(&times, true), Some(1));
    assert_eq!(by_modified(&times, false), Some(1));
    assert_eq!(by_modified(&vec![None, None], true), None);
}

#[test]
fn shortest_and_longest_path_follow_the_depth() {
    let g = group(3, &["/d/a/b/c/deep.txt", "/d/shallow.txt"]);
    let (keep, reason) = choose_keep(&g, Rule::ShortestPath, &vec![], &vec![None, None]);
    assert_eq!(keep, p("/d/shallow.txt"));
    assert_eq!(reason, "shortest path");
    let (keep, reason) = choose_keep(&g, Rule::LongestPath, &vec![], &vec![None, None]);
    assert_eq!(keep, p("/d/a/b/c/deep.txt"));
    assert_eq!(reason, "longest path");
    assert_eq!(by_depth(&g, true), 1);
    assert_eq!(by_depth(&g, false), 0);
}

#[test]
fn ties_break_toward_the_alphabetically_first_path() {
    let g = group(3, &["/d/a.txt", "/d/b.txt"]);
    for rule in [Rule::Newest, Rule::Oldest, Rule::ShortestPath, Rule::LongestPath] {
        let (keep, _) = choose_keep(&g, rule, &vec![], &vec![Some(7), Some(7)]);
        assert_eq!(keep, p("/d/a.txt"), "rule {rule:?}");
    }
}

#[test]
fn a_protected_path_always_wins_over_the_rule() {
    let g = group(3, &["/d/a_first_alphabetically.txt", "/d/reference/z_last_alphabetically.txt"]);
    let refs = vec![p("/d/reference")];
    for rule in [Rule::AlphabeticallyFirst, Rule::Newest, Rule::Oldest, Rule::ShortestPath, Rule::LongestPath] {
        let (keep, reason) = choose_keep(&g, rule, &refs, &vec![Some(9), Some(1)]);
        assert_eq!(keep, p("/d/reference/z_last_alphabetically.txt"), "rule {rule:?}");
        assert_eq!(reason, "in a protected/reference folder");
    }
}

#[test]
fn is_protected_matches_a_literal_path_prefix() {
    let reference = p("/home/me/originals");
    assert!(is_protected(&p("/home/me/originals/photo.jpg"), &vec![reference.clone()]));
    assert!(!is_protected(&p("/home/me/other/photo.jpg"), &vec![reference]));
}

#[test]
fn is_protected_does_not_match_a_sibling_with_a_longer_name() {
    assert!(!is_protected(&p("/home/me/originals2/photo.jpg"), &vec![p("/home/me/originals")]));
}

#[test]
fn protected_member_returns_none_when_no_reference_paths_are_configured() {
    let g = group(3, &["/d/a.txt", "/d/b.txt"]);
    assert_eq!(protected_member(&g, &vec![]), None);
    assert_eq!(protected_member(&g, &vec![p("/d/b.txt")]), Some(1));
}

#[test]
fn plans_every_non_kept_path() {
    let g = group(3, &["/d/a.txt", "/d/b.txt", "/d/c.txt"]);
    let plan = plan(&g, ActionKind::Delete, &vec![], &vec![ino(1), ino(2), ino(3)]);
    assert_eq!(plan.kept, p("/d/a.txt"));
    assert_eq!(planned(&plan), vec!["/d/b.txt", "/d/c.txt"]);
    assert_eq!(plan.bytes_reclaimed, 6);
    assert!(plan.actions.iter().all(|a| a.kind == ActionKind::Delete));
}

#[test]
fn plan_with_keep_honors_an_explicit_non_default_kept_path() {
    let g = group(3, &["/d/a.txt", "/d/b.txt", "/d/c.txt"]);
    let plan = plan_with_keep(&g, &p("/d/b.txt"), ActionKind::Delete, &vec![], &vec![ino(1), ino(2), ino(3)], ino(2));
    assert_eq!(plan.kept, p("/d/b.txt"));
    assert_eq!(planned(&plan), vec!["/d/a.txt", "/d/c.txt"]);
    assert_eq!(plan.bytes_reclaimed, 6);
}

#[test]
fn plan_skips_existing_hardlink_aliases_of_kept() {
    let g = group(3, &["/d/a.txt", "/d/alias.txt", "/d/c.txt"]);
    let plan = plan(&g, ActionKind::Hardlink, &vec![], &vec![ino(1), ino(1), ino(3)]);
    assert_eq!(planned(&plan), vec!["/d/c.txt"]);
    assert_eq!(plan.bytes_reclaimed, 3);
}

#[test]
fn plan_with_only_hardlink_aliases_of_kept_has_no_actions() {
    let g = group(3, &["/d/a.txt", "/d/alias.txt"]);
    let plan = plan(&g, ActionKind::Delete, &vec![], &vec![ino(1), ino(1)]);
    assert!(plan.actions.is_empty());
    assert_eq!(plan.bytes_reclaimed, 0);
}

#[test]
fn a_path_whose_identity_is_unreadable_is_still_planned() {
    let g = group(3, &["/d/a.txt", "/d/gone.txt"]);
    let plan = plan(&g, ActionKind::Delete, &vec![], &vec![ino(1), None]);
    assert_eq!(planned(&plan), vec!["/d/gone.txt"]);
}

#[test]
fn plan_overrides_an_explicit_keep_when_a_different_path_is_protected() {
    let g = group(3, &["/d/a.txt", "/d/b.txt", "/d/reference/original.txt"]);
    let plan = plan_with_keep(
        &g,
        &p("/d/a.txt"),
        ActionKind::Delete,
        &vec![p("/d/reference")],
        &vec![ino(1), ino(2), ino(3)],
        ino(1),
    );
    assert_eq!(plan.kept, p("/d/reference/original.txt"));
    assert_eq!(planned(&plan), vec!["/d/a.txt", "/d/b.txt"]);
    assert_eq!(plan.bytes_reclaimed, 6);
}

#[test]
fn plan_never_includes_a_protected_path_in_actions_even_when_it_is_not_kept() {
    let g = group(3, &["/d/reference-one/a.txt", "/d/reference-two/b.txt"]);
    let plan = plan(
        &g,
        ActionKind::Delete,
        &vec![p("/d/reference-one"), p("/d/reference-two")],
        &vec![ino(1), ino(2)],
    );
    assert_eq!(plan.kept, p("/d/reference-one/a.txt"));
    assert!(plan.actions.is_empty());
    assert_eq!(plan.bytes_reclaimed, 0);
}

#[test]
fn apply_report_counts_only_successes() {
    let g = group(3, &["/d/a.txt", "/d/b.txt", "/d/missing.txt"]);
    let plan = plan(&g, ActionKind::Delete, &vec![], &vec![ino(1), ino(2), None]);
    let report = ApplyReport::from_outcomes(&plan, vec![None, Some("No such file or directory".to_string())]);
    assert_eq!(report.succeeded, vec![p("/d/b.txt")]);
    assert_eq!(report.failed.len(), 1);
    assert_eq!(report.failed[0].path, p("/d/missing.txt"));
    assert_eq!(report.failed[0].message, "No such file or directory");
    assert_eq!(report.bytes_reclaimed, 3);
}

#[test]
fn tmp_sibling_lives_next_to_the_file() {
    let t = tmp_sibling(&p("/d/sub/file.txt"), 255);
    assert_eq!(t.len(), 4);
    assert_eq!(&t[..3], &p("/d/sub")[..]);
    assert_eq!(t[3], ".rusty-fclone-tmp-file.txt-255");
    assert_ne!(t, p("/d/sub/file.txt"));
    assert_ne!(tmp_sibling(&p("/d/f"), 1), tmp_sibling(&p("/d/f"), 2));
}

#[test]
fn archive_destination_mirrors_the_absolute_path_under_the_archive() {
    assert_eq!(path_string(&archive_destination(&p("/archive"), &p("/home/me/a.txt"))), "/archive/home/me/a.txt");
    assert_eq!(path_string(&archive_destination(&p("/archive"), &p("rel/a.txt"))), "/archive/rel/a.txt");
}
