use rusty_fclone::action::ActionKind;
use rusty_fclone::folder_action::{plan_folder, prunes_directory, FolderApplyReport};
use rusty_fclone::folder_dedup::{find_folder_duplicates, FolderMatch};
use rusty_fclone::model::{DuplicateGroup, FolderActionError, ListedFile, ScanError, TreeListing};
use rusty_fclone::paths::{parse_path, path_string, FsPath};

fn p(s: &str) -> FsPath {
    parse_path(s)
}

fn group(size: u64, paths: &[&str]) -> DuplicateGroup {
    let mut paths: Vec<FsPath> = paths.iter().map(|s| p(s)).collect();
    paths.sort_by_key(|x| path_string(x));
    DuplicateGroup { size, paths }
}

fn listing(files: &[(&str, u64)]) -> TreeListing {
    TreeListing {
        is_dir: true,
        files: files.iter().map(|(s, n)| ListedFile { path: p(s), size: *n }).collect(),
        unreadable: vec![],
    }
}

fn sorted_strings(ps: &[FsPath]) -> Vec<String> {
    let mut v: Vec<String> = ps.iter().map(path_string).collect();
    v.sort();
    v
}

#[test]
fn two_identical_folders_are_an_exact_match() {
    let tree = listing(&[("/t/a/1.txt", 3), ("/t/b/1.txt", 3), ("/t/a/2.txt", 3), ("/t/b/2.txt", 3)]);
    let groups = vec![group(3, &["/t/a/1.txt", "/t/b/1.txt"]), group(3, &["/t/a/2.txt", "/t/b/2.txt"])];
    let matches = find_folder_duplicates(&p("/t"), &groups, &tree).unwrap();
    assert_eq!(matches.len(), 1);
    match &matches[0] {
        FolderMatch::Exact { folders, file_count, bytes } => {
            assert_eq!(sorted_strings(folders), vec!["/t/a", "/t/b"]);
            assert_eq!(*file_count, 2);
            assert_eq!(*bytes, 6);
        }
        other => panic!("expected Exact, got {other:?}"),
    }
}

#[test]
fn a_folder_with_one_unmatched_file_can_never_be_a_subset_or_exact_side() {
    let tree = listing(&[("/t/a/1.txt", 3), ("/t/b/1.txt", 3), ("/t/a/only.txt", 6)]);
    let groups = vec![group(3, &["/t/a/1.txt", "/t/b/1.txt"])];
    let matches = find_folder_duplicates(&p("/t"), &groups, &tree).unwrap();
    for m in &matches {
        match m {
            FolderMatch::Exact { folders, .. } => assert!(!folders.contains(&p("/t/a"))),
            FolderMatch::Contained { subset, .. } => assert_ne!(subset, &p("/t/a")),
        }
    }
    assert_eq!(matches.len(), 1);
    match &matches[0] {
        FolderMatch::Contained { subset, superset, file_count, bytes } => {
            assert_eq!(subset, &p("/t/b"));
            assert_eq!(superset, &p("/t/a"));
            assert_eq!(*file_count, 1);
            assert_eq!(*bytes, 3);
        }
        other => panic!("expected Contained, got {other:?}"),
    }
}

#[test]
fn a_smaller_folder_fully_contained_in_a_bigger_one_is_reported_as_contained() {
    let tree = listing(&[("/t/small/1.txt", 3), ("/t/big/1.txt", 3), ("/t/big/extra.txt", 19)]);
    let groups = vec![group(3, &["/t/small/1.txt", "/t/big/1.txt"])];
    let matches = find_folder_duplicates(&p("/t"), &groups, &tree).unwrap();
    assert_eq!(matches.len(), 1);
    match &matches[0] {
        FolderMatch::Contained { subset, superset, file_count, bytes } => {
            assert_eq!(subset, &p("/t/small"));
            assert_eq!(superset, &p("/t/big"));
            assert_eq!(*file_count, 1);
            assert_eq!(*bytes, 3);
        }
        other => panic!("expected Contained, got {other:?}"),
    }
}

#[test]
fn nested_subdirectory_matches_are_not_redundantly_reported() {
    let tree = listing(&[
        ("/t/a/top.txt", 3),
        ("/t/b/top.txt", 3),
        ("/t/a/sub/nested.txt", 6),
        ("/t/b/sub/nested.txt", 6),
    ]);
    let groups = vec![
        group(3, &["/t/a/top.txt", "/t/b/top.txt"]),
        group(6, &["/t/a/sub/nested.txt", "/t/b/sub/nested.txt"]),
    ];
    let matches = find_folder_duplicates(&p("/t"), &groups, &tree).unwrap();
    assert_eq!(matches.len(), 1, "{matches:?}");
    match &matches[0] {
        FolderMatch::Exact { folders, file_count, bytes } => {
            assert_eq!(sorted_strings(folders), vec!["/t/a", "/t/b"]);
            assert_eq!(*file_count, 2);
            assert_eq!(*bytes, 9);
        }
        other => panic!("expected Exact, got {other:?}"),
    }
}

#[test]
fn an_independent_match_nested_inside_an_unmatched_directory_is_still_found() {
    let tree = listing(&[("/t/outer/unique.txt", 9), ("/t/outer/sub/dup.txt", 3), ("/t/elsewhere/dup.txt", 3)]);
    let groups = vec![group(3, &["/t/outer/sub/dup.txt", "/t/elsewhere/dup.txt"])];
    let matches = find_folder_duplicates(&p("/t"), &groups, &tree).unwrap();
    assert_eq!(matches.len(), 1);
    match &matches[0] {
        FolderMatch::Exact { folders, .. } => {
            assert_eq!(sorted_strings(folders), vec!["/t/elsewhere", "/t/outer/sub"]);
        }
        other => panic!("expected Exact, got {other:?}"),
    }
}

#[test]
fn no_duplicate_groups_means_no_folder_matches() {
    let tree = listing(&[("/t/a/1.txt", 3)]);
    let matches = find_folder_duplicates(&p("/t"), &vec![], &tree).unwrap();
    assert!(matches.is_empty());
}

#[test]
fn rejects_a_nonexistent_root() {
    let missing = TreeListing { is_dir: false, files: vec![], unreadable: vec![] };
    let err = find_folder_duplicates(&p("/does/not/exist"), &vec![], &missing)
        .expect_err("a nonexistent root must be rejected");
    assert_eq!(err, ScanError::InvalidRoot(p("/does/not/exist")));
}

#[test]
fn plan_folder_pairs_every_file_with_its_kept_side_partner() {
    let small = listing(&[("/t/small/1.txt", 3), ("/t/small/2.txt", 3)]);
    let groups = vec![group(3, &["/t/small/1.txt", "/t/big/1.txt"]), group(3, &["/t/small/2.txt", "/t/big/2.txt"])];
    let plan = plan_folder(&p("/t/small"), &p("/t/big"), &groups, &small, ActionKind::Delete, &vec![])
        .expect("every file in small has a confirmed partner in big");
    assert_eq!(plan.pairs.len(), 2);
    assert_eq!(plan.bytes_reclaimed, 6);
    let mut pairs = plan.pairs.clone();
    pairs.sort_by_key(|x| path_string(&x.remove));
    assert_eq!(pairs[0].remove, p("/t/small/1.txt"));
    assert_eq!(pairs[0].keep, p("/t/big/1.txt"));
    assert_eq!(pairs[1].remove, p("/t/small/2.txt"));
    assert_eq!(pairs[1].keep, p("/t/big/2.txt"));
    assert_eq!(plan.protected_files_skipped, 0);
}

#[test]
fn plan_folder_rejects_a_file_with_no_confirmed_partner() {
    let small = listing(&[("/t/small/1.txt", 3), ("/t/small/2.txt", 3)]);
    let groups = vec![group(3, &["/t/small/1.txt", "/t/big/1.txt"])];
    let err = plan_folder(&p("/t/small"), &p("/t/big"), &groups, &small, ActionKind::Delete, &vec![])
        .expect_err("2.txt has no confirmed partner");
    assert_eq!(
        err,
        FolderActionError::NoConfirmedDuplicate { path: p("/t/small/2.txt"), expected_partner: p("/t/big/2.txt") }
    );
}

#[test]
fn plan_folder_rejects_a_stale_size() {
    let small = listing(&[("/t/small/1.txt", 18)]);
    let groups = vec![group(3, &["/t/small/1.txt", "/t/big/1.txt"])];
    let err = plan_folder(&p("/t/small"), &p("/t/big"), &groups, &small, ActionKind::Delete, &vec![])
        .expect_err("the size no longer matches");
    assert!(matches!(err, FolderActionError::NoConfirmedDuplicate { .. }));
}

#[test]
fn plan_folder_rejects_a_nonexistent_removed_folder() {
    let missing = TreeListing { is_dir: false, files: vec![], unreadable: vec![] };
    let err = plan_folder(
        &p("/does/not/exist"),
        &p("/also/does/not/exist"),
        &vec![],
        &missing,
        ActionKind::Delete,
        &vec![],
    )
    .expect_err("a nonexistent removed folder must be rejected");
    assert!(matches!(err, FolderActionError::NotADirectory(_)));
}

#[test]
fn plan_folder_excludes_a_protected_file_from_pairs_and_counts_it_skipped() {
    let small = listing(&[("/t/small/1.txt", 3), ("/t/small/2.txt", 3)]);
    let groups = vec![group(3, &["/t/small/1.txt", "/t/big/1.txt"]), group(3, &["/t/small/2.txt", "/t/big/2.txt"])];
    let plan =
        plan_folder(&p("/t/small"), &p("/t/big"), &groups, &small, ActionKind::Delete, &vec![p("/t/small/1.txt")])
            .unwrap();
    assert_eq!(plan.pairs.len(), 1);
    assert_eq!(plan.pairs[0].remove, p("/t/small/2.txt"));
    assert_eq!(plan.protected_files_skipped, 1);
    assert_eq!(plan.bytes_reclaimed, 3);
}

#[test]
fn plan_folder_rejects_an_entry_it_could_not_read() {
    let mut small = listing(&[("/t/small/1.txt", 3)]);
    small.unreadable.push(p("/t/small/secret.bin"));
    let groups = vec![group(3, &["/t/small/1.txt", "/t/big/1.txt"])];
    let err = plan_folder(&p("/t/small"), &p("/t/big"), &groups, &small, ActionKind::Delete, &vec![])
        .expect_err("an unreadable file has no confirmed partner");
    assert_eq!(
        err,
        FolderActionError::NoConfirmedDuplicate {
            path: p("/t/small/secret.bin"),
            expected_partner: p("/t/big/secret.bin")
        }
    );
}

#[test]
fn plan_folder_counts_a_protected_unreadable_entry_as_skipped() {
    let mut small = listing(&[("/t/small/1.txt", 3)]);
    small.unreadable.push(p("/t/small/keep/link"));
    let groups = vec![group(3, &["/t/small/1.txt", "/t/big/1.txt"])];
    let plan =
        plan_folder(&p("/t/small"), &p("/t/big"), &groups, &small, ActionKind::Delete, &vec![p("/t/small/keep")])
            .unwrap();
    assert_eq!(plan.pairs.len(), 1);
    assert_eq!(plan.protected_files_skipped, 1);
    assert!(!prunes_directory(&plan, &FolderApplyReport::from_outcomes(&plan, &vec![None])));
}

#[test]
fn folder_report_and_prune_decision_follow_the_outcomes() {
    let small = listing(&[("/t/small/1.txt", 3), ("/t/small/2.txt", 4)]);
    let groups = vec![group(3, &["/t/small/1.txt", "/t/big/1.txt"]), group(4, &["/t/small/2.txt", "/t/big/2.txt"])];
    let plan = plan_folder(&p("/t/small"), &p("/t/big"), &groups, &small, ActionKind::Delete, &vec![]).unwrap();

    let all_ok = FolderApplyReport::from_outcomes(&plan, &vec![None, None]);
    assert_eq!(all_ok.bytes_reclaimed, 7);
    assert!(all_ok.failed.is_empty());
    assert!(!all_ok.directory_removed);
    assert!(prunes_directory(&plan, &all_ok));

    let one_failed = FolderApplyReport::from_outcomes(&plan, &vec![None, Some("denied".to_string())]);
    assert_eq!(one_failed.succeeded.len(), 1);
    assert_eq!(one_failed.failed.len(), 1);
    assert_eq!(one_failed.failed[0].message, "denied");
    assert!(!prunes_directory(&plan, &one_failed));
}

#[test]
fn hardlinked_folders_are_never_pruned() {
    let small = listing(&[("/t/small/1.txt", 3)]);
    let groups = vec![group(3, &["/t/small/1.txt", "/t/big/1.txt"])];
    let plan = plan_folder(&p("/t/small"), &p("/t/big"), &groups, &small, ActionKind::Hardlink, &vec![]).unwrap();
    let report = FolderApplyReport::from_outcomes(&plan, &vec![None]);
    assert!(!prunes_directory(&plan, &report));
}

#[test]
fn a_protected_file_left_behind_blocks_the_prune() {
    let small = listing(&[("/t/small/1.txt", 3), ("/t/small/2.txt", 3)]);
    let groups = vec![group(3, &["/t/small/1.txt", "/t/big/1.txt"]), group(3, &["/t/small/2.txt", "/t/big/2.txt"])];
    let plan =
        plan_folder(&p("/t/small"), &p("/t/big"), &groups, &small, ActionKind::Delete, &vec![p("/t/small/1.txt")])
            .unwrap();
    let report = FolderApplyReport::from_outcomes(&plan, &vec![None]);
    assert!(!prunes_directory(&plan, &report));
}
