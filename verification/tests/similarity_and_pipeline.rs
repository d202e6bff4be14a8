use image::{ImageBuffer, Rgb};
use rusty_fclone::model::{DuplicateGroup, FileIdentity, ScanError, ScanOptions};
use rusty_fclone::paths::{parse_path, FsPath};
use rusty_fclone::perceptual::{
    cluster, dhash_of_grid, find_similar_images, image_hash, hamming_distance, image_extensions, image_scan_options,
    PerceptualOptions,
};
use rusty_fclone::pipeline::{
    collapse_hardlinks, duplicate_group, hash_groups, needs_partial_hash, partial_survivors, scan_summary,
    size_groups, verify_representatives, Candidate, FileGroup,
};

fn p(s: &str) -> FsPath {
    parse_path(s)
}

fn gradient(width: u32, height: u32) -> ImageBuffer<Rgb<u8>, Vec<u8>> {
    ImageBuffer::from_fn(width, height, |x, y| {
        let v = ((x * 255 / width.max(1)) + (y * 255 / height.max(1))) as u8;
        Rgb([v, v, v])
    })
}

fn checkerboard(width: u32, height: u32) -> ImageBuffer<Rgb<u8>, Vec<u8>> {
    ImageBuffer::from_fn(width, height, |x, y| {
        if (x / 4 + y / 4) % 2 == 0 {
            Rgb([255, 255, 255])
        } else {
            Rgb([0, 0, 0])
        }
    })
}

fn png_bytes(buf: &ImageBuffer<Rgb<u8>, Vec<u8>>) -> Vec<u8> {
    let mut bytes: Vec<u8> = Vec::new();
    image::DynamicImage::ImageRgb8(buf.clone())
        .write_to(&mut std::io::Cursor::new(&mut bytes), image::ImageFormat::Png)
        .unwrap();
    bytes
}

fn dhash_of(buf: &ImageBuffer<Rgb<u8>, Vec<u8>>) -> u64 {
    image_hash(&png_bytes(buf), "png").unwrap()
}

#[test]
fn identical_images_hash_identically() {
    let a = gradient(64, 64);
    let b = gradient(64, 64);
    assert_eq!(hamming_distance(dhash_of(&a), dhash_of(&b)), 0);
}

#[test]
fn very_different_images_hash_far_apart() {
    let a = gradient(64, 64);
    let b = checkerboard(64, 64);
    assert!(hamming_distance(dhash_of(&a), dhash_of(&b)) > PerceptualOptions::default().max_hamming_distance);
}

#[test]
fn a_lightly_perturbed_copy_stays_within_the_default_threshold() {
    let a = gradient(64, 64);
    let mut b = a.clone();
    for pixel in b.pixels_mut() {
        pixel.0[0] = pixel.0[0].saturating_add(5);
        pixel.0[1] = pixel.0[1].saturating_add(5);
        pixel.0[2] = pixel.0[2].saturating_add(5);
    }
    assert!(hamming_distance(dhash_of(&a), dhash_of(&b)) <= PerceptualOptions::default().max_hamming_distance);
}

#[test]
fn a_solid_image_hashes_to_zero() {
    let solid: ImageBuffer<Rgb<u8>, Vec<u8>> = ImageBuffer::from_fn(30, 20, |_, _| Rgb([90, 90, 90]));
    assert_eq!(dhash_of(&solid), 0);
}

#[test]
fn dhash_of_grid_sets_a_bit_where_the_left_pixel_is_brighter() {
    let mut grid = vec![0u8; 72];
    grid[0] = 10;
    assert_eq!(dhash_of_grid(&grid), 1);
    let mut grid = vec![0u8; 72];
    grid[71 - 1] = 5;
    assert_eq!(dhash_of_grid(&grid), 1 << 63);
    let rising: Vec<u8> = (0..72).map(|i| (i % 9) as u8).collect();
    assert_eq!(dhash_of_grid(&rising), 0);
}

#[test]
fn hamming_distance_counts_differing_bits() {
    assert_eq!(hamming_distance(0, 0), 0);
    assert_eq!(hamming_distance(0, u64::MAX), 64);
    assert_eq!(hamming_distance(0b1010, 0b1000), 1);
}

#[test]
fn cluster_groups_only_pairs_within_the_threshold() {
    let hashed = vec![(p("/a"), 0b0000), (p("/b"), 0b0001), (p("/c"), 0b1111)];
    let groups = cluster(&hashed, 1);
    assert_eq!(groups.len(), 1);
    assert_eq!(groups[0].paths, vec![p("/a"), p("/b")]);
    assert_eq!(groups[0].max_distance, 1);
}

#[test]
fn cluster_never_reports_a_singleton() {
    let hashed = vec![(p("/a"), 0), (p("/b"), u64::MAX)];
    let groups = cluster(&hashed, 5);
    assert!(groups.is_empty());
}

#[test]
fn cluster_keeps_every_pair_of_a_group_within_the_threshold() {
    // /b is within 1 bit of both /c and /a, but /c and /a are 2 bits apart:
    // /c leads, /a cannot join it, /b joins /c's group first.
    let hashed = vec![(p("/c"), 0b11), (p("/a"), 0b00), (p("/b"), 0b01), (p("/z"), u64::MAX)];
    let groups = cluster(&hashed, 1);
    assert_eq!(groups.len(), 1);
    assert_eq!(groups[0].paths, vec![p("/b"), p("/c")]);
    assert_eq!(groups[0].max_distance, 1);
}

#[test]
fn cluster_gives_an_image_to_the_first_group_it_fits() {
    let hashed = vec![(p("/a"), 0b000), (p("/b"), 0b111), (p("/c"), 0b001), (p("/d"), 0b110)];
    let groups = cluster(&hashed, 1);
    assert_eq!(groups.len(), 2);
    assert_eq!(groups[0].paths, vec![p("/a"), p("/c")]);
    assert_eq!(groups[1].paths, vec![p("/b"), p("/d")]);
    assert_eq!(groups[1].max_distance, 1);
}

#[test]
fn cluster_orders_groups_by_their_paths() {
    let hashed = vec![(p("/y"), 7), (p("/x"), 7), (p("/b"), 0), (p("/a"), 0)];
    let groups = cluster(&hashed, 0);
    assert_eq!(groups.len(), 2);
    assert_eq!(groups[0].paths, vec![p("/a"), p("/b")]);
    assert_eq!(groups[1].paths, vec![p("/x"), p("/y")]);
    assert_eq!(groups[0].max_distance, 0);
}

#[test]
fn perceptual_find_similar_images_rejects_a_nonexistent_root() {
    let err = find_similar_images(&p("/does/not/exist/at/all"), false, &vec![], &PerceptualOptions::default())
        .expect_err("a nonexistent root must be rejected");
    assert!(matches!(err, ScanError::InvalidRoot(_)));
}

#[test]
fn find_similar_images_groups_a_real_near_identical_pair_on_disk() {
    let a = gradient(64, 64);
    let mut b = a.clone();
    for pixel in b.pixels_mut() {
        pixel.0[0] = pixel.0[0].saturating_add(5);
    }
    let images = vec![(p("/r/a.png"), png_bytes(&a)), (p("/r/b.png"), png_bytes(&b))];
    let groups = find_similar_images(&p("/r"), true, &images, &PerceptualOptions::default()).unwrap();
    assert_eq!(groups.len(), 1);
    assert_eq!(groups[0].paths.len(), 2);
}

#[test]
fn find_similar_images_does_not_group_unrelated_images() {
    let images = vec![
        (p("/r/gradient.png"), png_bytes(&gradient(64, 64))),
        (p("/r/checkerboard.png"), png_bytes(&checkerboard(64, 64))),
    ];
    let groups = find_similar_images(&p("/r"), true, &images, &PerceptualOptions::default()).unwrap();
    assert!(groups.is_empty());
}

#[test]
fn find_similar_images_ignores_non_image_files_without_erroring() {
    let images = vec![(p("/r/notes.txt"), b"not an image".to_vec())];
    let groups = find_similar_images(&p("/r"), true, &images, &PerceptualOptions::default()).unwrap();
    assert!(groups.is_empty());
}

#[test]
fn find_similar_images_skips_a_file_with_an_image_extension_but_bogus_content() {
    let images = vec![
        (p("/r/fake.png"), b"this is not really a png".to_vec()),
        (p("/r/real.png"), png_bytes(&gradient(64, 64))),
    ];
    let groups = find_similar_images(&p("/r"), true, &images, &PerceptualOptions::default()).unwrap();
    assert!(groups.is_empty());
}

#[test]
fn find_similar_images_decodes_by_extension_in_any_case() {
    let a = png_bytes(&gradient(64, 64));
    let images = vec![(p("/r/A.PNG"), a.clone()), (p("/r/b.png"), a.clone()), (p("/r/c"), a)];
    let groups = find_similar_images(&p("/r"), true, &images, &PerceptualOptions::default()).unwrap();
    assert_eq!(groups.len(), 1);
    assert_eq!(groups[0].paths, vec![p("/r/A.PNG"), p("/r/b.png")]);
    assert_eq!(groups[0].max_distance, 0);
}

#[test]
fn image_hash_rejects_bytes_that_do_not_decode() {
    assert_eq!(image_hash(&b"this is not really a png".to_vec(), "png"), None);
    assert_eq!(image_hash(&png_bytes(&gradient(8, 8)), "txt"), None);
    assert_ne!(image_hash(&png_bytes(&gradient(64, 64)), "png"), Some(0));
}

#[test]
fn image_scan_options_only_include_image_extensions() {
    let mut options = ScanOptions::default();
    options.exclude_extensions = Some(vec!["png".to_string()]);
    options.min_size = Some(5);
    let image_options = image_scan_options(&options);
    assert_eq!(image_options.include_extensions, Some(image_extensions()));
    assert_eq!(image_options.exclude_extensions, None);
    assert_eq!(image_options.min_size, Some(5));
    assert_eq!(image_extensions(), vec!["jpg", "jpeg", "png", "gif", "bmp"]);
}

fn cand(path: &str, size: u64, inode: u64) -> Candidate {
    Candidate { path: p(path), size, identity: FileIdentity::Inode { device_id: 1, inode_number: inode } }
}

fn fg(paths: &[&str]) -> FileGroup {
    FileGroup { representative: p(paths[0]), aliases: paths.iter().map(|s| p(s)).collect() }
}

#[test]
fn hardlink_aliases_collapse_into_one_file() {
    let cands = vec![cand("/d/b", 3, 1), cand("/d/c", 5, 2), cand("/d/a", 3, 1)];
    let files = collapse_hardlinks(&cands);
    assert_eq!(files.len(), 2);
    assert_eq!(files[0].0, 3);
    assert_eq!(files[0].1.representative, p("/d/a"));
    assert_eq!(files[0].1.aliases, vec![p("/d/a"), p("/d/b")]);
    assert_eq!(files[1].1.aliases, vec![p("/d/c")]);
}

#[test]
fn size_groups_keep_only_shared_sizes() {
    let files = vec![(3, fg(&["/d/a"])), (5, fg(&["/d/b"])), (3, fg(&["/d/c"]))];
    let groups = size_groups(&files);
    assert_eq!(groups.len(), 1);
    assert_eq!(groups[0].0, 3);
    assert_eq!(groups[0].1, vec![fg(&["/d/a"]), fg(&["/d/c"])]);
}

#[test]
fn hash_groups_drop_unique_and_missing_hashes() {
    let members = vec![fg(&["/d/a"]), fg(&["/d/b"]), fg(&["/d/c"]), fg(&["/d/d"]), fg(&["/d/e"])];
    let hashes = vec![Some(1), Some(2), Some(1), None, None];
    let groups = hash_groups(&members, &hashes);
    assert_eq!(groups, vec![vec![fg(&["/d/a"]), fg(&["/d/c"])]]);
    assert_eq!(partial_survivors(&members, &hashes), vec![fg(&["/d/a"]), fg(&["/d/c"])]);
}

#[test]
fn only_files_above_the_small_file_threshold_get_a_partial_hash() {
    assert!(!needs_partial_hash(100, 100));
    assert!(needs_partial_hash(101, 100));
}

#[test]
fn verification_drops_files_whose_bytes_differ() {
    let group = vec![fg(&["/d/a"]), fg(&["/d/b"]), fg(&["/d/c"]), fg(&["/d/d"])];
    let contents = vec![None, Some(b"same".to_vec()), Some(b"diff".to_vec()), Some(b"same".to_vec())];
    assert_eq!(verify_representatives(&group, &contents), vec![fg(&["/d/b"]), fg(&["/d/d"])]);
    let one_readable = vec![Some(b"x".to_vec()), None, None, None];
    assert!(verify_representatives(&group, &one_readable).is_empty());
}

#[test]
fn duplicate_group_lists_every_alias_sorted() {
    let group = vec![fg(&["/d/c"]), fg(&["/d/a", "/d/b"])];
    let d = duplicate_group(4, &group).unwrap();
    assert_eq!(d, DuplicateGroup { size: 4, paths: vec![p("/d/a"), p("/d/b"), p("/d/c")] });
    assert_eq!(duplicate_group(4, &vec![fg(&["/d/a", "/d/b"])]), None);
}

#[test]
fn scan_summary_counts_files_bytes_and_groups() {
    let cands = vec![cand("/d/a", 3, 1), cand("/d/b", 3, 2), cand("/d/c", 10, 3)];
    let groups = vec![DuplicateGroup { size: 3, paths: vec![p("/d/a"), p("/d/b")] }];
    let s = scan_summary(&cands, &groups);
    assert_eq!(s.files_scanned, 3);
    assert_eq!(s.bytes_scanned, 16);
    assert_eq!(s.duplicate_groups, 1);
    assert_eq!(s.duplicate_files, 2);
}

#[test]
fn cluster_sorts_paths_as_std_paths_sort() {
    let hashed = vec![(p("-a"), 5), (p("/b"), 5), (p("../c"), 5)];
    let groups = cluster(&hashed, 0);
    assert_eq!(groups.len(), 1);
    assert_eq!(groups[0].paths, vec![p("/b"), p("../c"), p("-a")]);
}
