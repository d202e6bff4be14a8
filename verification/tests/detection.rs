use rusty_fclone::cache::{cached_hash, split_mtime, CacheEntry};
use rusty_fclone::device::{io_threads_for, mount_device_id, parse_rotational};
use rusty_fclone::fclones_import::{candidate_chunk_lens, decode_le_hash, fresh_full_hash, to_millis};
use rusty_fclone::hash::{hash_chunks, sample_ranges};
use rusty_fclone::model::{FileIdentity, ScanOptions};
use rusty_fclone::paths::{parse_path, path_le_exec, path_string, FsPath};
use rusty_fclone::traversal::{
    device_component, extension_allowed, file_extension, is_excluded_by_filesystem_boundary,
    is_excluded_path, size_allowed,
};

fn p(s: &str) -> FsPath {
    parse_path(s)
}

#[test]
fn cache_entry_round_trips_through_encoding() {
    let entry = CacheEntry {
        size: 12345,
        mtime_secs: 1_700_000_000,
        mtime_nanos: 123_456_789,
        hash: 0xdead_beef_cafe_babe_1234_5678_9abc_def0,
    };
    let decoded = CacheEntry::decode(entry.encode());
    assert_eq!(decoded.size, entry.size);
    assert_eq!(decoded.mtime_secs, entry.mtime_secs);
    assert_eq!(decoded.mtime_nanos, entry.mtime_nanos);
    assert_eq!(decoded.hash, entry.hash);
}

#[test]
fn cache_entry_encoding_is_little_endian_field_by_field() {
    let entry = CacheEntry { size: 0x0102, mtime_secs: 3, mtime_nanos: 0x0405, hash: 0x06 };
    let bytes = entry.encode();
    assert_eq!(bytes.len(), 36);
    assert_eq!(&bytes[0..8], &[0x02, 0x01, 0, 0, 0, 0, 0, 0]);
    assert_eq!(&bytes[8..16], &[3, 0, 0, 0, 0, 0, 0, 0]);
    assert_eq!(&bytes[16..20], &[0x05, 0x04, 0, 0]);
    assert_eq!(bytes[20], 0x06);
    assert!(bytes[21..36].iter().all(|b| *b == 0));
}

#[test]
fn cached_hash_hits_only_when_size_and_mtime_match() {
    let entry = CacheEntry { size: 10, mtime_secs: 20, mtime_nanos: 30, hash: 99 };
    assert_eq!(cached_hash(&entry, 10, 20, 30), Some(99));
    assert_eq!(cached_hash(&entry, 11, 20, 30), None);
    assert_eq!(cached_hash(&entry, 10, 21, 30), None);
    assert_eq!(cached_hash(&entry, 10, 20, 31), None);
}

#[test]
fn split_mtime_keeps_times_after_the_epoch_as_they_are() {
    assert_eq!(split_mtime(Ok((5, 6))), (5, 6));
    assert_eq!(split_mtime(Ok((0, 0))), (0, 0));
}

#[test]
fn split_mtime_gives_times_before_the_epoch_distinct_signed_values() {
    // One second before the epoch: -1 s.
    assert_eq!(split_mtime(Err((1, 0))), (u64::MAX, 0));
    // 0.25 s before the epoch: -1 s + 0.75 s.
    assert_eq!(split_mtime(Err((0, 250_000_000))), (u64::MAX, 750_000_000));
    // 1.5 s before the epoch: -2 s + 0.5 s.
    assert_eq!(split_mtime(Err((1, 500_000_000))), (u64::MAX - 1, 500_000_000));
    assert_ne!(split_mtime(Err((3, 0))), split_mtime(Err((2, 0))));
    assert_ne!(split_mtime(Err((3, 0))), split_mtime(Ok((0, 0))));
    let before = split_mtime(Err((100, 7)));
    let entry = CacheEntry { size: 10, mtime_secs: before.0, mtime_nanos: before.1, hash: 99 };
    assert_eq!(cached_hash(&entry, 10, before.0, before.1), Some(99));
    let changed = split_mtime(Err((100, 8)));
    assert_eq!(cached_hash(&entry, 10, changed.0, changed.1), None);
}

#[test]
fn mount_device_id_picks_the_longest_matching_prefix() {
    let mountinfo = "36 35 8:1 / / rw,relatime - ext4 /dev/sda1 rw\n\
                      37 36 0:30 / /mnt/data rw,relatime - ext4 /dev/sdb1 rw\n";
    assert_eq!(mount_device_id(mountinfo, "/mnt/data/some/file"), Some("0:30".to_string()));
    assert_eq!(mount_device_id(mountinfo, "/home/user/file"), Some("8:1".to_string()));
}

#[test]
fn mount_device_id_returns_none_for_malformed_input() {
    assert_eq!(mount_device_id("not mountinfo at all", "/"), None);
    assert_eq!(mount_device_id("", "/"), None);
}

#[test]
fn parse_rotational_reads_the_flag() {
    assert_eq!(parse_rotational("1\n"), Some(true));
    assert_eq!(parse_rotational("0\n"), Some(false));
    assert_eq!(parse_rotational("garbage\n"), None);
}

#[test]
fn io_threads_for_spinning_disks_queues_more_reads_up_to_a_cap() {
    assert_eq!(io_threads_for(8, Some(true)), 32);
    assert_eq!(io_threads_for(32, Some(true)), 64);
    assert_eq!(io_threads_for(8, Some(false)), 8);
    assert_eq!(io_threads_for(8, None), 8);
}

#[test]
fn decode_le_hash_matches_a_real_fclones_report_value() {
    let hash = decode_le_hash("db8881b16c4f743a75c09b4fec87d411".get(0..32).unwrap());
    assert_eq!(hash, Some(23700399710133407773276464628843514075u128));
}

#[test]
fn decode_le_hash_rejects_wrong_lengths_and_non_hex() {
    assert_eq!(decode_le_hash(""), None);
    assert_eq!(decode_le_hash("db8881b16c4f743a75c09b4fec87d4"), None);
    assert_eq!(decode_le_hash("zz8881b16c4f743a75c09b4fec87d411"), None);
    assert_eq!(decode_le_hash("01000000000000000000000000000000"), Some(1));
}

#[test]
fn to_millis_matches_expected_duration_since_epoch() {
    let d = std::time::Duration::from_millis(1_700_000_000_123);
    assert_eq!(to_millis(Some((d.as_secs(), d.subsec_nanos()))), 1_700_000_000_123);
    assert_eq!(to_millis(None), 0);
}

#[test]
fn fresh_full_hash_requires_matching_size_and_mtime() {
    let hex = "01000000000000000000000000000000";
    assert_eq!(fresh_full_hash(10, 20, hex, 10, 20), Some(1));
    assert_eq!(fresh_full_hash(10, 20, hex, 11, 20), None);
    assert_eq!(fresh_full_hash(10, 20, hex, 10, 21), None);
}

#[test]
fn candidate_chunk_lens_start_with_the_size_then_covering_prefix_lengths() {
    assert_eq!(candidate_chunk_lens(100), vec![100, 4096, 16384]);
    assert_eq!(candidate_chunk_lens(4096), vec![4096, 16384]);
    assert_eq!(candidate_chunk_lens(10000), vec![10000, 16384]);
    assert_eq!(candidate_chunk_lens(1 << 20), vec![1 << 20]);
}

#[test]
fn hash_chunks_is_order_sensitive_and_deterministic() {
    let a = hash_chunks(&vec![b"hello".to_vec(), b"world".to_vec()]);
    let b = hash_chunks(&vec![b"hello".to_vec(), b"world".to_vec()]);
    let c = hash_chunks(&vec![b"world".to_vec(), b"hello".to_vec()]);
    assert_eq!(a, b);
    assert_ne!(a, c);
}

#[test]
fn hash_chunks_hashes_the_concatenation() {
    let split = hash_chunks(&vec![b"hel".to_vec(), b"lo".to_vec()]);
    let whole = hash_chunks(&vec![b"hello".to_vec()]);
    assert_eq!(split, whole);
    assert_eq!(whole, xxhash_rust::xxh3::xxh3_128(b"hello"));
}

#[test]
fn sample_ranges_cover_head_middle_tail() {
    let ranges = sample_ranges(1_000_000, 1024);
    assert_eq!(ranges.len(), 3);
    assert_eq!(ranges[0], (0, 1024));
    assert_eq!(ranges[2], (1_000_000 - 1024, 1024));
}

#[test]
fn sample_ranges_clamp_to_small_files() {
    let ranges = sample_ranges(10, 1024);
    for (_, len) in ranges {
        assert!(len <= 10);
    }
}

#[test]
fn sample_ranges_middle_is_centered() {
    let ranges = sample_ranges(1_000_000, 1024);
    assert_eq!(ranges[1], (500_000 - 512, 1024));
}

#[test]
fn filesystem_boundary_is_not_enforced_when_cross_filesystems_is_set() {
    assert!(!is_excluded_by_filesystem_boundary(true, Some(1), Some(2)));
}

#[test]
fn filesystem_boundary_excludes_a_different_device() {
    assert!(is_excluded_by_filesystem_boundary(false, Some(1), Some(2)));
}

#[test]
fn filesystem_boundary_allows_the_same_device() {
    assert!(!is_excluded_by_filesystem_boundary(false, Some(1), Some(1)));
}

#[test]
fn filesystem_boundary_is_not_enforced_when_a_device_is_unknown() {
    assert!(!is_excluded_by_filesystem_boundary(false, None, Some(2)));
    assert!(!is_excluded_by_filesystem_boundary(false, Some(1), None));
    assert!(!is_excluded_by_filesystem_boundary(false, None, None));
}

#[test]
fn device_component_reads_the_device_id_on_unix() {
    let id = FileIdentity::Inode { device_id: 42, inode_number: 7 };
    assert_eq!(device_component(&id), Some(42));
}

#[test]
fn device_component_reads_the_volume_serial_number_on_windows() {
    let low = FileIdentity::LowRes { volume_serial_number: 9, file_index: 1 };
    assert_eq!(device_component(&low), Some(9));
    let high = FileIdentity::HighRes { volume_serial_number: 11, file_id: 1 };
    assert_eq!(device_component(&high), Some(11));
}

#[test]
fn size_allowed_enforces_both_bounds_inclusively() {
    let options = ScanOptions { min_size: Some(10), max_size: Some(20), ..ScanOptions::default() };
    assert!(!size_allowed(9, &options));
    assert!(size_allowed(10, &options));
    assert!(size_allowed(20, &options));
    assert!(!size_allowed(21, &options));
}

#[test]
fn size_allowed_with_no_bounds_allows_everything() {
    let options = ScanOptions::default();
    assert!(size_allowed(0, &options));
    assert!(size_allowed(u64::MAX, &options));
}

#[test]
fn extension_allowed_include_list_is_case_insensitive_and_excludes_no_extension() {
    let options = ScanOptions {
        include_extensions: Some(vec!["JPG".to_string(), "png".to_string()]),
        ..ScanOptions::default()
    };
    assert!(extension_allowed(&p("a.jpg"), &options));
    assert!(extension_allowed(&p("a.PNG"), &options));
    assert!(!extension_allowed(&p("a.txt"), &options));
    assert!(!extension_allowed(&p("no_extension"), &options));
}

#[test]
fn extension_allowed_exclude_list_never_excludes_a_missing_extension() {
    let options = ScanOptions { exclude_extensions: Some(vec!["tmp".to_string()]), ..ScanOptions::default() };
    assert!(!extension_allowed(&p("a.tmp"), &options));
    assert!(!extension_allowed(&p("a.TMP"), &options));
    assert!(extension_allowed(&p("no_extension"), &options));
    assert!(extension_allowed(&p("a.txt"), &options));
}

#[test]
fn extension_allowed_exclude_wins_even_if_include_would_allow_it() {
    let options = ScanOptions {
        include_extensions: Some(vec!["txt".to_string()]),
        exclude_extensions: Some(vec!["txt".to_string()]),
        ..ScanOptions::default()
    };
    assert!(!extension_allowed(&p("a.txt"), &options));
}

#[test]
fn file_extension_follows_the_last_dot_of_the_file_name() {
    assert_eq!(file_extension(&p("/x/archive.tar.gz")), Some("gz".to_string()));
    assert_eq!(file_extension(&p("/x/.bashrc")), None);
    assert_eq!(file_extension(&p("/x/noext")), None);
    assert_eq!(file_extension(&p("/x/trailing.")), Some(String::new()));
}

#[test]
fn is_excluded_path_matches_whole_components_only() {
    let excluded = vec![p("/home/me/node_modules")];
    assert!(is_excluded_path(&p("/home/me/node_modules"), &excluded));
    assert!(is_excluded_path(&p("/home/me/node_modules/x/y.js"), &excluded));
    assert!(!is_excluded_path(&p("/home/me/node_modules_old/y.js"), &excluded));
}

#[test]
fn parse_path_and_path_string_normalize_separators() {
    assert_eq!(p("/a//b/./c/"), vec!["/".to_string(), "a".into(), "b".into(), "c".into()]);
    assert_eq!(path_string(&p("/a//b/./c/")), "/a/b/c");
    assert_eq!(path_string(&p("rel/x")), "rel/x");
    assert_eq!(path_string(&p("./rel")), "./rel");
    assert_eq!(path_string(&p("/")), "/");
}

#[test]
fn paths_order_the_root_and_dot_components_before_names() {
    let cases = [("/b", "-a"), ("../x", "-x"), ("./x", "..x"), ("/", "."), (".", ".."), ("a/../b", "a/-b")];
    for (lo, hi) in cases {
        assert!(path_le_exec(&parse_path(lo), &parse_path(hi)), "{lo} before {hi}");
        assert!(!path_le_exec(&parse_path(hi), &parse_path(lo)), "{hi} after {lo}");
        assert!(std::path::Path::new(lo) < std::path::Path::new(hi));
    }
    assert!(path_le_exec(&parse_path("/a/b"), &parse_path("/a/c")));
    assert!(path_le_exec(&parse_path("/a"), &parse_path("/a/b")));
}
