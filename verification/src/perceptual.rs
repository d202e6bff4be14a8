//! Opt-in perceptual image similarity: a best-effort "these look alike" pass,
//! separate from byte-identical duplicate detection. Each image gets a 64-bit
//! difference hash, and images are grouped so that every two images of a
//! group have hashes within a Hamming distance of one another; every group of
//! two or more images is reported.

use vstd::prelude::*;
use vstd::relations::*;
use vstd::arithmetic::power2::{pow2, lemma2_to64, lemma_pow2_unfold, lemma_pow2_strictly_increases};
use crate::traversal::{extension, file_extension};
use crate::model::{ScanError, ScanOptions};
use crate::folder_dedup::PathV;
use crate::order::{path_le, path_list_le, lemma_path_list_total};
use crate::paths::{FsPath, pview, pviews, clone_path, clone_paths, path_list_le_exec};
use crate::sort::{SortByView, views, view_order, sort_by_view, lemma_sorted_unique, indices, lemma_filter_increasing, as_ints};

verus! {

/// Tunables for the perceptual pass.
#[derive(Debug, Clone, Copy, PartialEq, Eq)]
pub struct PerceptualOptions {
    /// Largest Hamming distance (0 to 64) between two images' difference
    /// hashes for them to count as similar; 0 asks for identical hashes.
    pub max_hamming_distance: u32,
}

impl Default for PerceptualOptions {
    /// 10 of 64 bits: near-identical images (a resave, a light crop or
    /// resize, a small watermark) count as similar, unrelated ones do not.
    fn default() -> (r: Self)
        ensures
            r.max_hamming_distance == 10,
    {
        PerceptualOptions { max_hamming_distance: 10 }
    }
}

/// Two or more images considered visually similar; not byte-identical.
/// Every two of its images have hashes within the distance threshold that
/// produced it.
#[derive(Debug, Clone, PartialEq, Eq)]
pub struct SimilarGroup {
    /// Sorted.
    pub paths: Vec<FsPath>,
    /// The largest pairwise Hamming distance within the group.
    pub max_distance: u32,
}

/// The image formats decoded for perceptual hashing.
pub fn image_extensions() -> (r: Vec<String>)
    ensures
        r@.len() == 5,
        r@[0]@ == "jpg"@,
        r@[1]@ == "jpeg"@,
        r@[2]@ == "png"@,
        r@[3]@ == "gif"@,
        r@[4]@ == "bmp"@,
{
    let mut v: Vec<String> = Vec::new();
    v.push(String::from_str("jpg"));
    v.push(String::from_str("jpeg"));
    v.push(String::from_str("png"));
    v.push(String::from_str("gif"));
    v.push(String::from_str("bmp"));
    v
}

/// The traversal options of the perceptual pass: the caller's, except that
/// only image extensions are included and no extension is excluded.
pub fn image_scan_options(options: &ScanOptions) -> (r: ScanOptions)
    ensures
        r.follow_symlinks == options.follow_symlinks,
        r.cross_filesystems == options.cross_filesystems,
        r.verify_matches == options.verify_matches,
        r.small_file_threshold == options.small_file_threshold,
        r.partial_hash_sample_size == options.partial_hash_sample_size,
        r.io_threads == options.io_threads,
        r.min_size == options.min_size,
        r.max_size == options.max_size,
        pviews(r.exclude_paths@) == pviews(options.exclude_paths@),
        r.include_extensions matches Some(v) && v@.len() == 5 && v@[0]@ == "jpg"@ && v@[1]@ == "jpeg"@
            && v@[2]@ == "png"@ && v@[3]@ == "gif"@ && v@[4]@ == "bmp"@,
        r.exclude_extensions is None,
        match (r.cache_path, options.cache_path) {
            (Some(a), Some(b)) => pview(a) == pview(b),
            (None, None) => true,
            _ => false,
        },
        match (r.fclones_import_path, options.fclones_import_path) {
            (Some(a), Some(b)) => pview(a) == pview(b),
            (None, None) => true,
            _ => false,
        },
{
    ScanOptions {
        follow_symlinks: options.follow_symlinks,
        cross_filesystems: options.cross_filesystems,
        verify_matches: options.verify_matches,
        small_file_threshold: options.small_file_threshold,
        partial_hash_sample_size: options.partial_hash_sample_size,
        io_threads: options.io_threads,
        cache_path: match &options.cache_path {
            Some(p) => Some(clone_path(p)),
            None => None,
        },
        fclones_import_path: match &options.fclones_import_path {
            Some(p) => Some(clone_path(p)),
            None => None,
        },
        min_size: options.min_size,
        max_size: options.max_size,
        include_extensions: Some(image_extensions()),
        exclude_extensions: None,
        exclude_paths: clone_paths(&options.exclude_paths),
    }
}

/// The number of one bits of `x`.
pub open spec fn popcount(x: nat) -> nat
    decreases x,
{
    if x == 0 {
        0
    } else {
        x % 2 + popcount(x / 2)
    }
}

/// The number of bits in which `a` and `b` differ.
pub open spec fn hamming(a: u64, b: u64) -> nat {
    popcount((a ^ b) as nat)
}

proof fn lemma_popcount_bound(x: nat, k: nat)
    requires
        x < pow2(k),
    ensures
        popcount(x) <= k,
    decreases k,
{
    if k == 0 {
        lemma2_to64();
    } else {
        lemma_pow2_unfold(k);
        lemma_popcount_bound(x / 2, (k - 1) as nat);
    }
}

/// The Hamming distance between two 64-bit hashes.
pub fn hamming_distance(a: u64, b: u64) -> (r: u32)
    ensures
        r == hamming(a, b),
        r <= 64,
{
    let x0 = a ^ b;
    proof {
        lemma2_to64();
        lemma_popcount_bound(x0 as nat, 64);
    }
    let mut x = x0;
    let mut count: u32 = 0;
    while x > 0
        invariant
            count + popcount(x as nat) == popcount(x0 as nat),
            popcount(x0 as nat) <= 64,
        decreases x,
    {
        if x % 2 == 1 {
            count = count + 1;
        }
        x = x / 2;
    }
    count
}

/// Bit `t` of the difference hash of a 9-wide, 8-high luma grid stored row
/// by row: in row `t / 8`, pixel `t % 8` is brighter than its right neighbour.
pub open spec fn grid_bit(grid: Seq<u8>, t: int) -> bool {
    grid[(t / 8) * 9 + t % 8] > grid[(t / 8) * 9 + t % 8 + 1]
}

/// The first `k` bits of the difference hash, bit `t` weighing `2^t`.
pub open spec fn dhash_upto(grid: Seq<u8>, k: nat) -> nat
    decreases k,
{
    if k == 0 {
        0
    } else {
        dhash_upto(grid, (k - 1) as nat) + if grid_bit(grid, k - 1) {
            pow2((k - 1) as nat)
        } else {
            0
        }
    }
}

/// The difference hash of a 9x8 luma grid stored row by row: for every row,
/// whether each of the first eight pixels is brighter than its right neighbour.
pub fn dhash_of_grid(grid: &Vec<u8>) -> (r: u64)
    requires
        grid@.len() == 72,
    ensures
        r == dhash_upto(grid@, 64),
{
    let mut hash: u64 = 0;
    let mut pow: u64 = 1;
    let mut t: u32 = 0;
    proof {
        lemma2_to64();
    }
    while t < 64
        invariant
            grid@.len() == 72,
            t <= 64,
            hash == dhash_upto(grid@, t as nat),
            hash < pow2(t as nat),
            t < 64 ==> pow == pow2(t as nat),
            pow2(64) == 0x1_0000_0000_0000_0000,
        decreases 64 - t,
    {
        let row = (t / 8) as usize;
        let col = (t % 8) as usize;
        let idx = row * 9 + col;
        proof {
            lemma_pow2_unfold((t + 1) as nat);
            if t + 1 < 64 {
                lemma_pow2_strictly_increases((t + 1) as nat, 64);
            }
        }
        if grid[idx] > grid[idx + 1] {
            hash = hash + pow;
        }
        if t < 63 {
            pow = pow * 2;
        }
        t = t + 1;
    }
    hash
}

/// The 9-wide, 8-high luma grid, row by row, of the image held in `bytes`
/// when decoded in the format that the file extension `ext` names and
/// shrunk with a triangle filter; `None` when it does not decode.
pub uninterp spec fn luma_grid(bytes: Seq<u8>, ext: Seq<char>) -> Option<Seq<u8>>;

/// Decodes `bytes` with the `image` crate in the format that
/// `image::ImageFormat::from_extension(ext)` picks (as `image::open` does from
/// a path's extension when no decoding hook is registered, and none is
/// here), with the reader's default limits, shrinks it with `DynamicImage::resize_exact(9, 8,
/// Triangle)` and takes `to_luma8().into_raw()`. The result is claimed to be
/// `luma_grid` of the arguments, and a grid to hold 72 values (`resize`
/// always returns an image of the requested size). `None` when the extension
/// names no known format or decoding fails.
#[verifier::external_body]
fn decode_luma_grid(bytes: &Vec<u8>, ext: &str) -> (r: Option<Vec<u8>>)
    ensures
        match r {
            Some(g) => luma_grid(bytes@, ext@) == Some(g@) && g@.len() == 72,
            None => luma_grid(bytes@, ext@) is None,
        },
{
    let format = image::ImageFormat::from_extension(ext)?;
    let reader = image::ImageReader::with_format(std::io::Cursor::new(bytes.as_slice()), format);
    let img = reader.decode().ok()?;
    Some(img.resize_exact(9, 8, image::imageops::FilterType::Triangle).to_luma8().into_raw())
}

/// The difference hash of the image file content `bytes` whose extension is
/// `ext`; `None` when it does not decode as an image.
pub fn image_hash(bytes: &Vec<u8>, ext: &str) -> (r: Option<u64>)
    ensures
        r == match luma_grid(bytes@, ext@) {
            Some(g) => Some(dhash_upto(g, 64) as u64),
            None => None,
        },
{
    match decode_luma_grid(bytes, ext) {
        Some(grid) => Some(dhash_of_grid(&grid)),
        None => None,
    }
}

/// Each image's path, by its view, with its hash.
pub open spec fn hash_views(hashed: Seq<(FsPath, u64)>) -> Seq<(PathV, u64)> {
    hashed.map_values(|e: (FsPath, u64)| (pview(e.0), e.1))
}

/// The hash of every image.
pub open spec fn hashes(hv: Seq<(PathV, u64)>) -> Seq<u64> {
    hv.map_values(|e: (PathV, u64)| e.1)
}

/// The images among `images` (each a path and its content) that decode,
/// with their difference hashes, in order. A path without an extension
/// names no format and does not decode.
pub open spec fn image_hashes(images: Seq<(FsPath, Vec<u8>)>) -> Seq<(PathV, u64)>
    decreases images.len(),
{
    if images.len() == 0 {
        Seq::empty()
    } else {
        let rest = image_hashes(images.drop_last());
        let p = images.last().0;
        match extension(pview(p)) {
            Some(e) => match luma_grid(images.last().1@, e) {
                Some(g) => rest.push((pview(p), dhash_upto(g, 64) as u64)),
                None => rest,
            },
            None => rest,
        }
    }
}


/// Image `i` may join the group led by `l` among the images labelled `ls`
/// so far: `l` leads a group, and `i`'s hash is within `max` bits of every
/// member's.
pub open spec fn fits(h: Seq<u64>, max: u32, ls: Seq<int>, l: int, i: int) -> bool {
    &&& 0 <= l < ls.len()
    &&& ls[l] == l
    &&& forall|j: int| 0 <= j < ls.len() && #[trigger] ls[j] == l ==> hamming(h[j], h[i]) <= max
}

/// The first group, from leader `l` on, that image `i` fits; `i` leads a
/// group of its own when none does.
pub open spec fn first_fit(h: Seq<u64>, max: u32, ls: Seq<int>, i: int, l: int) -> int
    decreases ls.len() - l,
{
    if l < 0 || l >= ls.len() {
        i
    } else if fits(h, max, ls, l, i) {
        l
    } else {
        first_fit(h, max, ls, i, l + 1)
    }
}

/// The group leader of each of the first `n` images: each image, in input
/// order, joins the first earlier group whose every member lies within `max`
/// bits of it, or starts a group of its own.
pub open spec fn greedy_labels(h: Seq<u64>, max: u32, n: nat) -> Seq<int>
    decreases n,
{
    if n == 0 {
        Seq::empty()
    } else {
        let ls = greedy_labels(h, max, (n - 1) as nat);
        ls.push(first_fit(h, max, ls, n - 1, 0))
    }
}

/// The group leader of every image.
pub open spec fn labels_of(hv: Seq<(PathV, u64)>, max: u32) -> Seq<int> {
    greedy_labels(hashes(hv), max, hv.len())
}

/// Whether an image belongs to the group led by `l`.
pub open spec fn in_group(hv: Seq<(PathV, u64)>, max: u32, l: int) -> spec_fn(int) -> bool {
    |j: int| labels_of(hv, max)[j] == l
}

/// The images of the group led by `l`, in input order.
pub open spec fn members(hv: Seq<(PathV, u64)>, max: u32, l: int) -> Seq<int> {
    indices(hv.len()).filter(in_group(hv, max, l))
}

proof fn lemma_hamming_symmetric(a: u64, b: u64)
    ensures
        hamming(a, b) == hamming(b, a),
{
    assert(a ^ b == b ^ a) by (bit_vector);
}

/// `first_fit` gives either `i` itself or a leader that `i` fits.
proof fn lemma_first_fit(h: Seq<u64>, max: u32, ls: Seq<int>, i: int, l: int)
    requires
        0 <= l,
    ensures
        first_fit(h, max, ls, i, l) == i || (l <= first_fit(h, max, ls, i, l) < ls.len() && fits(
            h,
            max,
            ls,
            first_fit(h, max, ls, i, l),
            i,
        )),
    decreases ls.len() - l,
{
    if l < ls.len() && !fits(h, max, ls, l, i) {
        lemma_first_fit(h, max, ls, i, l + 1);
    }
}

/// What the labelling keeps: each image's leader comes at or before it and
/// leads its own group, and any two images of one group are within `max`
/// bits of each other.
proof fn lemma_greedy_labels(h: Seq<u64>, max: u32, n: nat)
    requires
        n <= h.len(),
    ensures
        greedy_labels(h, max, n).len() == n,
        forall|j: int|
            0 <= j < n ==> 0 <= #[trigger] greedy_labels(h, max, n)[j] <= j && greedy_labels(h, max, n)[greedy_labels(
                h,
                max,
                n,
            )[j]] == greedy_labels(h, max, n)[j],
        forall|j: int, k: int|
            0 <= j < n && 0 <= k < n && j != k && #[trigger] greedy_labels(h, max, n)[j] == #[trigger] greedy_labels(
                h,
                max,
                n,
            )[k] ==> hamming(h[j], h[k]) <= max,
    decreases n,
{
    if n > 0 {
        let m = (n - 1) as nat;
        lemma_greedy_labels(h, max, m);
        let ls = greedy_labels(h, max, m);
        let i = m as int;
        let f = first_fit(h, max, ls, i, 0);
        lemma_first_fit(h, max, ls, i, 0);
        let nl = greedy_labels(h, max, n);
        assert(nl == ls.push(f));
        assert forall|j: int| 0 <= j < n implies 0 <= #[trigger] nl[j] <= j && nl[nl[j]] == nl[j] by {
            if j < i {
                assert(nl[j] == ls[j]);
                assert(nl[ls[j]] == ls[ls[j]]);
            }
        }
        assert forall|j: int, k: int|
            0 <= j < n && 0 <= k < n && j != k && #[trigger] nl[j] == #[trigger] nl[k] implies hamming(h[j], h[k])
            <= max by {
            if j < i && k < i {
                assert(nl[j] == ls[j] && nl[k] == ls[k]);
            } else if j == i {
                assert(nl[k] == ls[k]);
                assert(ls[k] <= k);
                assert(f != i);
                assert(fits(h, max, ls, f, i));
                assert(ls[k] == f);
                lemma_hamming_symmetric(h[k], h[j]);
            } else {
                assert(nl[j] == ls[j]);
                assert(ls[j] <= j);
                assert(f != i);
                assert(fits(h, max, ls, f, i));
                assert(ls[j] == f);
            }
        }
    }
}

/// Every pair of images in the group led by `l` lies within `max` bits.
proof fn lemma_members_within(hv: Seq<(PathV, u64)>, max: u32, l: int)
    ensures
        forall|a: int, b: int|
            0 <= a < members(hv, max, l).len() && 0 <= b < members(hv, max, l).len() && a != b ==> hamming(
                hashes(hv)[#[trigger] members(hv, max, l)[a]],
                hashes(hv)[#[trigger] members(hv, max, l)[b]],
            ) <= max,
        forall|a: int| 0 <= a < members(hv, max, l).len() ==> 0 <= #[trigger] members(hv, max, l)[a] < hv.len(),
{
    let h = hashes(hv);
    let n = hv.len();
    lemma_greedy_labels(h, max, n);
    let p = in_group(hv, max, l);
    let m = members(hv, max, l);
    indices(n).filter_lemma(p);
    lemma_filter_increasing(n, p);
    assert forall|a: int| 0 <= a < m.len() implies 0 <= #[trigger] m[a] < n by {
        assert(m.contains(m[a]));
        indices(n).lemma_filter_contains_rev(p, m[a]);
    }
    assert forall|a: int, b: int| 0 <= a < m.len() && 0 <= b < m.len() && a != b implies hamming(
        h[#[trigger] m[a]],
        h[#[trigger] m[b]],
    ) <= max by {
        assert(m.contains(m[a]) && m.contains(m[b]));
        indices(n).lemma_filter_contains_rev(p, m[a]);
        indices(n).lemma_filter_contains_rev(p, m[b]);
        assert(p(m[a]) && p(m[b]));
        if a < b {
            assert(m[a] < m[b]);
        } else {
            assert(m[b] < m[a]);
        }
    }
}

/// The largest distance to `x` is within `max` when every distance is.
proof fn lemma_max_to_bound(h: Seq<u64>, m: Seq<int>, x: int, k: int, max: u32)
    requires
        forall|q: int| 0 <= q < k ==> hamming(h[#[trigger] m[q]], h[x]) <= max,
    ensures
        max_to(h, m, x, k) <= max,
    decreases k,
{
    if k > 0 {
        lemma_max_to_bound(h, m, x, k - 1, max);
    }
}

/// The largest pairwise distance is within `max` when every pair is.
proof fn lemma_max_pair_bound(h: Seq<u64>, m: Seq<int>, max: u32)
    requires
        forall|a: int, b: int| 0 <= a < m.len() && 0 <= b < m.len() && a != b ==> hamming(h[#[trigger] m[a]], h[#[trigger] m[b]]) <= max,
    ensures
        max_pair(h, m) <= max,
    decreases m.len(),
{
    if m.len() > 0 {
        let d = m.drop_last();
        assert forall|a: int, b: int| 0 <= a < d.len() && 0 <= b < d.len() && a != b implies hamming(
            h[#[trigger] d[a]],
            h[#[trigger] d[b]],
        ) <= max by {
            assert(d[a] == m[a] && d[b] == m[b]);
        }
        lemma_max_pair_bound(h, d, max);
        assert forall|q: int| 0 <= q < m.len() - 1 implies hamming(h[#[trigger] m[q]], h[m.last()]) <= max by {
            assert(m.last() == m[m.len() - 1]);
        }
        lemma_max_to_bound(h, m, m.last(), m.len() - 1, max);
    }
}
/// The largest distance between `x`'s hash and the hashes of `m[0..k]`.
pub open spec fn max_to(h: Seq<u64>, m: Seq<int>, x: int, k: int) -> nat
    decreases k,
{
    if k <= 0 {
        0
    } else {
        let d = hamming(h[m[k - 1]], h[x]);
        let rest = max_to(h, m, x, k - 1);
        if d > rest {
            d
        } else {
            rest
        }
    }
}

/// The largest Hamming distance between two of the images `m`.
pub open spec fn max_pair(h: Seq<u64>, m: Seq<int>) -> nat
    decreases m.len(),
{
    if m.len() == 0 {
        0
    } else {
        let a = max_pair(h, m.drop_last());
        let b = max_to(h, m, m.last(), m.len() - 1);
        if a > b {
            a
        } else {
            b
        }
    }
}
/// `max_to` is the largest distance from `x` to the first `k` images of
/// `m`: no distance exceeds it, and for `k >= 1` one of them equals it.
pub proof fn lemma_max_to_is_largest(h: Seq<u64>, m: Seq<int>, x: int, k: int)
    ensures
        forall|q: int| 0 <= q < k ==> hamming(h[#[trigger] m[q]], h[x]) <= max_to(h, m, x, k),
        k >= 1 ==> exists|q: int| 0 <= q < k && max_to(h, m, x, k) == hamming(h[#[trigger] m[q]], h[x]),
        k <= 0 ==> max_to(h, m, x, k) == 0,
    decreases k,
{
    if k > 0 {
        lemma_max_to_is_largest(h, m, x, k - 1);
        if k >= 2 && max_to(h, m, x, k) != hamming(h[m[k - 1]], h[x]) {
            let q = choose|q: int| 0 <= q < k - 1 && max_to(h, m, x, k - 1) == hamming(h[#[trigger] m[q]], h[x]);
            assert(max_to(h, m, x, k) == hamming(h[m[q]], h[x]));
        } else {
            assert(max_to(h, m, x, k) == hamming(h[m[k - 1]], h[x]));
            assert(0 <= k - 1 < k);
        }
    }
}

/// Group distance law: `max_pair` of a list of images is the largest
/// Hamming distance between two of its distinct entries. No pair lies
/// farther apart, and with two or more entries some pair lies exactly that
/// far apart; with fewer it is 0.
pub proof fn lemma_max_pair_is_largest(h: Seq<u64>, m: Seq<int>)
    ensures
        forall|a: int, b: int|
            0 <= a < m.len() && 0 <= b < m.len() && a != b ==> hamming(h[#[trigger] m[a]], h[#[trigger] m[b]])
                <= max_pair(h, m),
        m.len() >= 2 ==> exists|a: int, b: int|
            0 <= a < m.len() && 0 <= b < m.len() && a != b && max_pair(h, m) == hamming(
                h[#[trigger] m[a]],
                h[#[trigger] m[b]],
            ),
        m.len() < 2 ==> max_pair(h, m) == 0,
    decreases m.len(),
{
    if m.len() > 0 {
        let d = m.drop_last();
        let last = m.len() - 1;
        lemma_max_pair_is_largest(h, d);
        lemma_max_to_is_largest(h, m, m.last(), last);
        assert(m.last() == m[last]);
        assert forall|a: int, b: int|
            0 <= a < m.len() && 0 <= b < m.len() && a != b implies hamming(h[#[trigger] m[a]], h[#[trigger] m[b]])
            <= max_pair(h, m) by {
            if a < last && b < last {
                assert(d[a] == m[a] && d[b] == m[b]);
                assert(hamming(h[d[a]], h[d[b]]) <= max_pair(h, d));
            } else if b == last {
                assert(hamming(h[m[a]], h[m[last]]) <= max_to(h, m, m.last(), last));
            } else {
                assert(hamming(h[m[b]], h[m[last]]) <= max_to(h, m, m.last(), last));
                lemma_hamming_symmetric(h[m[a]], h[m[b]]);
            }
        }
        if m.len() >= 2 {
            if max_pair(h, m) == max_to(h, m, m.last(), last) {
                let q = choose|q: int| 0 <= q < last && max_to(h, m, m.last(), last) == hamming(h[#[trigger] m[q]], h[m.last()]);
                assert(max_pair(h, m) == hamming(h[m[q]], h[m[last]]));
            } else {
                let (a, b) = choose|a: int, b: int|
                    0 <= a < d.len() && 0 <= b < d.len() && a != b && max_pair(h, d) == hamming(
                        h[#[trigger] d[a]],
                        h[#[trigger] d[b]],
                    );
                assert(d[a] == m[a] && d[b] == m[b]);
                assert(max_pair(h, m) == hamming(h[m[a]], h[m[b]]));
            }
        }
    }
}

/// Reported distance law: the `k`-th group reported for a threshold is the
/// group led by some image, with that group's sorted paths, and its
/// distance is the largest Hamming distance between two of its images: at
/// least the distance of any two of them, and equal to the distance of one
/// pair.
pub proof fn lemma_similar_group_distance(hv: Seq<(PathV, u64)>, max: u32, k: int)
    requires
        0 <= k < similar_clusters(hv, max).len(),
    ensures
        exists|l: int|
            #[trigger] roots_cluster(hv, max, l) && similar_clusters(hv, max)[k].0 == sorted_paths(
                member_paths(hv, members(hv, max, l)),
            ) && (forall|a: int, b: int|
                0 <= a < members(hv, max, l).len() && 0 <= b < members(hv, max, l).len() && a != b ==> hamming(
                    hashes(hv)[#[trigger] members(hv, max, l)[a]],
                    hashes(hv)[#[trigger] members(hv, max, l)[b]],
                ) <= similar_clusters(hv, max)[k].1) && exists|a: int, b: int|
                0 <= a < members(hv, max, l).len() && 0 <= b < members(hv, max, l).len() && a != b
                    && similar_clusters(hv, max)[k].1 == hamming(
                    hashes(hv)[#[trigger] members(hv, max, l)[a]],
                    hashes(hv)[#[trigger] members(hv, max, l)[b]],
                ),
{
    let ids = indices(hv.len());
    let pred = |l: int| roots_cluster(hv, max, l);
    ids.filter_lemma(pred);
    let l = ids.filter(pred)[k];
    assert(pred(l));
    let m = members(hv, max, l);
    lemma_max_pair_is_largest(hashes(hv), m);
    assert(similar_clusters(hv, max)[k] == cluster_view(hv, max, l));
    let g = similar_clusters(hv, max)[k];
    assert(g.1 == max_pair(hashes(hv), m));
    assert(m.len() >= 2);
    let (a, b) = choose|a: int, b: int|
        0 <= a < m.len() && 0 <= b < m.len() && a != b && max_pair(hashes(hv), m) == hamming(
            hashes(hv)[#[trigger] m[a]],
            hashes(hv)[#[trigger] m[b]],
        );
    assert(0 <= a < m.len() && 0 <= b < m.len() && a != b && g.1 == hamming(hashes(hv)[m[a]], hashes(hv)[m[b]]));
    assert(roots_cluster(hv, max, l));
}

/// `ps`, sorted.
pub open spec fn sorted_paths(ps: Seq<PathV>) -> Seq<PathV> {
    ps.sort_by(|a: PathV, b: PathV| path_le(a, b))
}

/// The paths of the images `m`.
pub open spec fn member_paths(hv: Seq<(PathV, u64)>, m: Seq<int>) -> Seq<PathV> {
    m.map_values(|j: int| hv[j].0)
}

/// The group led by `l`: its sorted paths and its largest pairwise distance.
pub open spec fn cluster_view(hv: Seq<(PathV, u64)>, max: u32, l: int) -> (Seq<PathV>, nat) {
    let m = members(hv, max, l);
    (sorted_paths(member_paths(hv, m)), max_pair(hashes(hv), m))
}

/// `l` leads a group of two or more images.
pub open spec fn roots_cluster(hv: Seq<(PathV, u64)>, max: u32, l: int) -> bool {
    &&& 0 <= l < hv.len()
    &&& labels_of(hv, max)[l] == l
    &&& members(hv, max, l).len() >= 2
}

/// Every group of two or more images, in the order of their leaders.
pub open spec fn similar_clusters(hv: Seq<(PathV, u64)>, max: u32) -> Seq<(Seq<PathV>, nat)> {
    indices(hv.len()).filter(|l: int| roots_cluster(hv, max, l)).map_values(
        |l: int| cluster_view(hv, max, l),
    )
}

/// Clusters ordered by their sorted paths, then by distance.
pub open spec fn similar_le(a: (Seq<PathV>, nat), b: (Seq<PathV>, nat)) -> bool {
    if a.0 == b.0 {
        a.1 <= b.1
    } else {
        path_list_le(a.0, b.0)
    }
}

pub proof fn lemma_similar_le_total()
    ensures
        total_ordering(|a: (Seq<PathV>, nat), b: (Seq<PathV>, nat)| similar_le(a, b)),
{
    lemma_path_list_total();
    let p = |x: Seq<PathV>, y: Seq<PathV>| path_list_le(x, y);
    let r = |a: (Seq<PathV>, nat), b: (Seq<PathV>, nat)| similar_le(a, b);
    assert forall|a: (Seq<PathV>, nat)| #[trigger] r(a, a) by {}
    assert forall|a: (Seq<PathV>, nat), b: (Seq<PathV>, nat)| #[trigger] r(a, b) && #[trigger] r(b, a) implies a
        == b by {
        if a.0 != b.0 {
            assert(p(a.0, b.0) && p(b.0, a.0));
        }
    }
    assert forall|a: (Seq<PathV>, nat), b: (Seq<PathV>, nat), c: (Seq<PathV>, nat)| #[trigger] r(a, b)
        && #[trigger] r(b, c) implies r(a, c) by {
        if a.0 != b.0 && b.0 != c.0 {
            assert(p(a.0, b.0) && p(b.0, c.0));
            if a.0 == c.0 {
                assert(p(c.0, b.0));
            }
        }
    }
    assert forall|a: (Seq<PathV>, nat), b: (Seq<PathV>, nat)| #[trigger] r(a, b) || #[trigger] r(b, a) by {
        if a.0 != b.0 {
            assert(p(a.0, b.0) || p(b.0, a.0));
        }
    }
}

impl SortByView for SimilarGroup {
    type V = (Seq<PathV>, nat);

    open spec fn sort_view(&self) -> (Seq<PathV>, nat) {
        (pviews(self.paths@), self.max_distance as nat)
    }

    open spec fn view_le(a: (Seq<PathV>, nat), b: (Seq<PathV>, nat)) -> bool {
        similar_le(a, b)
    }

    proof fn lemma_view_le_total() {
        lemma_similar_le_total();
        assert((|a: (Seq<PathV>, nat), b: (Seq<PathV>, nat)| Self::view_le(a, b)) =~= (|
            a: (Seq<PathV>, nat),
            b: (Seq<PathV>, nat),
        | similar_le(a, b)));
    }

    fn le_exec(&self, other: &Self) -> (r: bool) {
        if crate::paths::paths_eq(&self.paths, &other.paths) {
            self.max_distance <= other.max_distance
        } else {
            path_list_le_exec(&self.paths, &other.paths)
        }
    }
}


/// Each image's group leader: image by image, the first earlier group that
/// it fits, or itself.
fn greedy_labels_exec(hashed: &Vec<(FsPath, u64)>, max: u32) -> (label: Vec<usize>)
    ensures
        as_ints(label@) == labels_of(hash_views(hashed@), max),
{
    let ghost h = hashes(hash_views(hashed@));
    let n = hashed.len();
    let mut label: Vec<usize> = Vec::new();
    let mut i: usize = 0;
    assert(as_ints(label@) =~= greedy_labels(h, max, 0));
    while i < n
        invariant
            h == hashes(hash_views(hashed@)),
            n == hashed@.len(),
            h.len() == n,
            i <= n,
            as_ints(label@) == greedy_labels(h, max, i as nat),
        decreases n - i,
    {
        let ghost ls = as_ints(label@);
        proof {
            lemma_greedy_labels(h, max, i as nat);
        }
        // `bad[l]`: some image of the group led by `l` lies more than `max`
        // bits from image `i`.
        let mut bad: Vec<bool> = Vec::new();
        let mut k: usize = 0;
        while k < i
            invariant
                k <= i,
                bad@.len() == k,
                forall|q: int| 0 <= q < k ==> !#[trigger] bad@[q],
            decreases i - k,
        {
            bad.push(false);
            k = k + 1;
        }
        let mut j: usize = 0;
        while j < i
            invariant
                h == hashes(hash_views(hashed@)),
                n == hashed@.len(),
                h.len() == n,
                i < n,
                ls == as_ints(label@),
                ls.len() == i,
                forall|q: int| 0 <= q < i ==> 0 <= #[trigger] ls[q] <= q,
                bad@.len() == i,
                j <= i,
                forall|l: int|
                    0 <= l < i ==> (#[trigger] bad@[l] == exists|q: int|
                        0 <= q < j && #[trigger] ls[q] == l && hamming(h[q], h[i as int]) > max),
            decreases i - j,
        {
            let lj = label[j];
            assert(ls[j as int] == lj as int);
            assert(h[j as int] == hashed@[j as int].1 && h[i as int] == hashed@[i as int].1);
            let far = hamming_distance(hashed[j].1, hashed[i].1) > max;
            let ghost before = bad@;
            if far {
                bad.set(lj, true);
            }
            proof {
                assert forall|l: int| 0 <= l < i implies (#[trigger] bad@[l] == exists|q: int|
                    0 <= q < j + 1 && #[trigger] ls[q] == l && hamming(h[q], h[i as int]) > max) by {
                    if l == lj && far {
                        assert(ls[j as int] == l);
                    } else if exists|q: int| 0 <= q < j + 1 && #[trigger] ls[q] == l && hamming(h[q], h[i as int]) > max {
                        let q = choose|q: int| 0 <= q < j + 1 && #[trigger] ls[q] == l && hamming(h[q], h[i as int]) > max;
                        assert(q < j);
                        assert(before[l]);
                    }
                }
            }
            j = j + 1;
        }
        let mut l: usize = 0;
        let mut chosen: usize = i;
        while l < i
            invariant
                h == hashes(hash_views(hashed@)),
                n == hashed@.len(),
                i < n,
                ls == as_ints(label@),
                ls.len() == i,
                bad@.len() == i,
                forall|q: int|
                    0 <= q < i ==> (#[trigger] bad@[q] == exists|x: int|
                        0 <= x < i && #[trigger] ls[x] == q && hamming(h[x], h[i as int]) > max),
                l <= i,
                chosen == i ==> first_fit(h, max, ls, i as int, 0) == first_fit(h, max, ls, i as int, l as int),
                chosen != i ==> chosen < i && first_fit(h, max, ls, i as int, 0) == chosen,
            decreases i - l,
        {
            if chosen == i && label[l] == l && !bad[l] {
                proof {
                    assert(fits(h, max, ls, l as int, i as int));
                }
                chosen = l;
            } else if chosen == i {
                proof {
                    if fits(h, max, ls, l as int, i as int) {
                        assert(ls[l as int] == l);
                        if bad@[l as int] {
                            let x = choose|x: int| 0 <= x < i && #[trigger] ls[x] == l && hamming(h[x], h[i as int]) > max;
                            assert(hamming(h[x], h[i as int]) <= max);
                        }
                    }
                }
            }
            l = l + 1;
        }
        let ghost before = label@;
        label.push(chosen);
        proof {
            assert(as_ints(label@) =~= ls.push(chosen as int));
            assert(greedy_labels(h, max, (i + 1) as nat) == ls.push(first_fit(h, max, ls, i as int, 0)));
        }
        i = i + 1;
    }
    proof {
        assert(h.len() == hash_views(hashed@).len());
    }
    label
}

/// The images labelled `l`, in index order.
fn labelled(label: &Vec<usize>, l: usize) -> (r: Vec<usize>)
    ensures
        as_ints(r@) == indices(label@.len()).filter(|j: int| as_ints(label@)[j] == l as int),
        forall|k: int| 0 <= k < r@.len() ==> #[trigger] r@[k] < label@.len(),
{
    let ghost ids = indices(label@.len());
    let ghost pred = |j: int| as_ints(label@)[j] == l as int;
    let mut out: Vec<usize> = Vec::new();
    let mut j: usize = 0;
    assert(ids.take(0).filter(pred) =~= Seq::<int>::empty()) by {
        reveal(Seq::filter);
    }
    assert(as_ints(out@) =~= Seq::<int>::empty());
    while j < label.len()
        invariant
            ids == indices(label@.len()),
            pred == (|j: int| as_ints(label@)[j] == l as int),
            j <= label@.len(),
            as_ints(out@) == ids.take(j as int).filter(pred),
            forall|k: int| 0 <= k < out@.len() ==> #[trigger] out@[k] < label@.len(),
        decreases label@.len() - j,
    {
        proof {
            assert(ids.take(j + 1) =~= ids.take(j as int).push(j as int));
            ids.take(j as int).lemma_filter_push(j as int, pred);
        }
        if label[j] == l {
            let ghost before = as_ints(out@);
            out.push(j);
            assert(as_ints(out@) =~= before.push(j as int));
        }
        j = j + 1;
    }
    assert(ids.take(label@.len() as int) =~= ids);
    out
}

/// The largest Hamming distance between two of the images `members`.
fn max_pair_distance(hashed: &Vec<(FsPath, u64)>, members: &Vec<usize>) -> (r: u32)
    requires
        forall|k: int| 0 <= k < members@.len() ==> #[trigger] members@[k] < hashed@.len(),
    ensures
        r == max_pair(hashes(hash_views(hashed@)), as_ints(members@)),
{
    let ghost h = hashes(hash_views(hashed@));
    let ghost m = as_ints(members@);
    let mut best: u32 = 0;
    let mut b: usize = 0;
    assert(m.take(0) =~= Seq::<int>::empty());
    while b < members.len()
        invariant
            h == hashes(hash_views(hashed@)),
            m == as_ints(members@),
            forall|k: int| 0 <= k < members@.len() ==> #[trigger] members@[k] < hashed@.len(),
            b <= members@.len(),
            best == max_pair(h, m.take(b as int)),
            best <= 64,
        decreases members@.len() - b,
    {
        let ghost mb = m.take(b + 1);
        let x = members[b];
        let mut inner: u32 = 0;
        let mut a: usize = 0;
        while a < b
            invariant
                h == hashes(hash_views(hashed@)),
                m == as_ints(members@),
                mb == m.take(b + 1),
                forall|k: int| 0 <= k < members@.len() ==> #[trigger] members@[k] < hashed@.len(),
                b < members@.len(),
                x == members@[b as int],
                a <= b,
                inner == max_to(h, mb, x as int, a as int),
                inner <= 64,
            decreases b - a,
        {
            let y = members[a];
            assert(mb[a as int] == y as int);
            assert(h[y as int] == hashed@[y as int].1);
            assert(h[x as int] == hashed@[x as int].1);
            let d = hamming_distance(hashed[y].1, hashed[x].1);
            if d > inner {
                inner = d;
            }
            a = a + 1;
        }
        assert(mb.drop_last() =~= m.take(b as int));
        assert(mb.last() == x as int);
        if inner > best {
            best = inner;
        }
        b = b + 1;
    }
    assert(m.take(members@.len() as int) =~= m);
    best
}

/// Groups images whose hashes lie within `max_distance` bits of one another:
/// each image, in input order, joins the first earlier group whose every
/// member lies within `max_distance` bits of it, or starts a group of its
/// own. Every group of two or more images is reported once, its paths
/// sorted, with its largest pairwise distance (so at most `max_distance`);
/// groups come sorted by path.
pub fn cluster(hashed: &Vec<(FsPath, u64)>, max_distance: u32) -> (r: Vec<SimilarGroup>)
    ensures
        views(r@).to_multiset() == similar_clusters(hash_views(hashed@), max_distance).to_multiset(),
        sorted_by(views(r@), |a: (Seq<PathV>, nat), b: (Seq<PathV>, nat)| similar_le(a, b)),
        forall|k: int| 0 <= k < r@.len() ==> sorted_by(pviews(#[trigger] r@[k].paths@), |a: PathV, b: PathV| path_le(a, b)),
        forall|k: int| 0 <= k < r@.len() ==> #[trigger] r@[k].max_distance <= max_distance,
{
    let ghost hv = hash_views(hashed@);
    let ghost h = hashes(hv);
    let ghost max = max_distance;
    let label = greedy_labels_exec(hashed, max_distance);
    let n = hashed.len();
    let ghost ids = indices(n as nat);
    let ghost pred = |l: int| roots_cluster(hv, max, l);
    let ghost f = |l: int| cluster_view(hv, max, l);
    let mut groups: Vec<SimilarGroup> = Vec::new();
    let mut l: usize = 0;
    proof {
        lemma_greedy_labels(h, max, n as nat);
        crate::order::lemma_path_total();
    }
    assert(ids.take(0).filter(pred) =~= Seq::<int>::empty()) by {
        reveal(Seq::filter);
    }
    assert(views(groups@) =~= Seq::<(Seq<PathV>, nat)>::empty());
    while l < n
        invariant
            hv == hash_views(hashed@),
            h == hashes(hv),
            max == max_distance,
            n == hashed@.len(),
            hv.len() == n,
            h.len() == n,
            label@.len() == n,
            as_ints(label@) == labels_of(hv, max),
            ids == indices(n as nat),
            pred == (|l: int| roots_cluster(hv, max, l)),
            f == (|l: int| cluster_view(hv, max, l)),
            total_ordering(|a: PathV, b: PathV| path_le(a, b)),
            l <= n,
            views(groups@) == ids.take(l as int).filter(pred).map_values(f),
            forall|k: int| 0 <= k < groups@.len() ==> sorted_by(pviews(#[trigger] groups@[k].paths@), |a: PathV, b: PathV| path_le(a, b)),
            forall|k: int| 0 <= k < groups@.len() ==> #[trigger] groups@[k].max_distance <= max,
        decreases n - l,
    {
        proof {
            assert(ids.take(l + 1) =~= ids.take(l as int).push(l as int));
            ids.take(l as int).lemma_filter_push(l as int, pred);
        }
        if label[l] == l {
            let mem = labelled(&label, l);
            let ghost m = members(hv, max, l as int);
            proof {
                let p1 = |j: int| as_ints(label@)[j] == l as int;
                let p2 = in_group(hv, max, l as int);
                assert(p1 =~= p2);
                assert(indices(label@.len()) == ids);
                assert(m == ids.filter(p2));
                assert(as_ints(mem@) == ids.filter(p1));
            }
            if mem.len() >= 2 {
                let d = max_pair_distance(hashed, &mem);
                proof {
                    lemma_members_within(hv, max, l as int);
                    lemma_max_pair_bound(h, m, max);
                }
                let mut paths: Vec<FsPath> = Vec::new();
                let mut k: usize = 0;
                while k < mem.len()
                    invariant
                        hv == hash_views(hashed@),
                        forall|q: int| 0 <= q < mem@.len() ==> #[trigger] mem@[q] < hashed@.len(),
                        k <= mem@.len(),
                        pviews(paths@) == member_paths(hv, as_ints(mem@)).take(k as int),
                    decreases mem@.len() - k,
                {
                    let ghost before = pviews(paths@);
                    paths.push(clone_path(&hashed[mem[k]].0));
                    assert(pviews(paths@) =~= before.push(member_paths(hv, as_ints(mem@))[k as int]));
                    assert(member_paths(hv, as_ints(mem@)).take(k + 1) =~= member_paths(
                        hv,
                        as_ints(mem@),
                    ).take(k as int).push(member_paths(hv, as_ints(mem@))[k as int]));
                    k = k + 1;
                }
                assert(member_paths(hv, as_ints(mem@)).take(mem@.len() as int) =~= member_paths(
                    hv,
                    as_ints(mem@),
                ));
                let sorted = sort_by_view(paths);
                proof {
                    let le = |a: PathV, b: PathV| path_le(a, b);
                    assert(views(sorted@) =~= pviews(sorted@));
                    assert(views(paths@) =~= pviews(paths@));
                    assert(view_order::<FsPath>() =~= le);
                    let ps = member_paths(hv, m);
                    ps.lemma_sort_by_ensures(le);
                    lemma_sorted_unique(pviews(sorted@), sorted_paths(ps), le);
                }
                let ghost before = views(groups@);
                groups.push(SimilarGroup { paths: sorted, max_distance: d });
                assert(views(groups@) =~= before.push(f(l as int)));
            }
        }
        l = l + 1;
    }
    assert(ids.take(n as int) =~= ids);
    let out = sort_by_view(groups);
    proof {
        assert(view_order::<SimilarGroup>() =~= (|a: (Seq<PathV>, nat), b: (Seq<PathV>, nat)| similar_le(a, b)));
        broadcast use vstd::seq_lib::group_to_multiset_ensures;
        assert forall|k: int| 0 <= k < out@.len() implies sorted_by(pviews(#[trigger] out@[k].paths@), |a: PathV, b: PathV| path_le(a, b))
            && out@[k].max_distance <= max by {
            assert(out@.to_multiset().count(out@[k]) > 0);
            assert(groups@.contains(out@[k]));
        }
        assert forall|k: int| 0 <= k < out@.len() implies #[trigger] out@[k].max_distance <= max by {
            assert(sorted_by(pviews(out@[k].paths@), |a: PathV, b: PathV| path_le(a, b)));
        }
    }
    out
}

/// Finds groups of visually similar images under `root`. `images` holds
/// every file that a traversal of `root` (with `image_scan_options`) found,
/// with its content, in traversal order; a file that could not be read is
/// simply absent. Each is hashed with `image_hash` by its path's extension;
/// one that does not decode is left out. A root that is not a directory is
/// rejected.
pub fn find_similar_images(
    root: &FsPath,
    root_is_dir: bool,
    images: &Vec<(FsPath, Vec<u8>)>,
    perceptual_options: &PerceptualOptions,
) -> (r: Result<Vec<SimilarGroup>, ScanError>)
    ensures
        !root_is_dir ==> (r matches Err(ScanError::InvalidRoot(p)) && pview(p) == pview(*root)),
        root_is_dir ==> (r matches Ok(gs) && views(gs@).to_multiset() == similar_clusters(
            image_hashes(images@),
            perceptual_options.max_hamming_distance,
        ).to_multiset() && sorted_by(views(gs@), |a: (Seq<PathV>, nat), b: (Seq<PathV>, nat)| similar_le(a, b))
            && (forall|k: int| 0 <= k < gs@.len() ==> sorted_by(pviews(#[trigger] gs@[k].paths@), |a: PathV, b: PathV| path_le(a, b)))
            && forall|k: int| 0 <= k < gs@.len() ==> #[trigger] gs@[k].max_distance <= perceptual_options.max_hamming_distance),
{
    if !root_is_dir {
        return Err(ScanError::InvalidRoot(clone_path(root)));
    }
    let mut hashed: Vec<(FsPath, u64)> = Vec::new();
    let mut k: usize = 0;
    assert(hash_views(hashed@) =~= image_hashes(images@.take(0)));
    while k < images.len()
        invariant
            k <= images@.len(),
            hash_views(hashed@) == image_hashes(images@.take(k as int)),
        decreases images@.len() - k,
    {
        let ghost before = hashed@;
        let path = &images[k].0;
        let bytes = &images[k].1;
        proof {
            assert(images@.take(k + 1).drop_last() =~= images@.take(k as int));
            assert(images@.take(k + 1).last() == images@[k as int]);
        }
        match file_extension(path) {
            Some(e) => {
                match image_hash(bytes, e.as_str()) {
                    Some(hsh) => {
                        hashed.push((clone_path(path), hsh));
                        assert(hash_views(hashed@) =~= hash_views(before).push((pview(*path), hsh)));
                    },
                    None => {},
                }
            },
            None => {},
        }
        k = k + 1;
    }
    assert(images@.take(images@.len() as int) =~= images@);
    Ok(cluster(&hashed, perceptual_options.max_hamming_distance))
}

/// Group laws: no group is a single image; every two images of a group lie
/// within the distance threshold of each other, so a group's largest
/// distance is at most the threshold; and no image lies in two groups.
pub proof fn lemma_cluster_laws(hv: Seq<(PathV, u64)>, max: u32)
    ensures
        forall|k: int| 0 <= k < similar_clusters(hv, max).len() ==> (#[trigger] similar_clusters(hv, max)[k]).0.len() >= 2
            && similar_clusters(hv, max)[k].1 <= max,
        forall|l: int, a: int, b: int|
            roots_cluster(hv, max, l) && 0 <= a < members(hv, max, l).len() && 0 <= b < members(hv, max, l).len() && a
                != b ==> hamming(hashes(hv)[#[trigger] members(hv, max, l)[a]], hashes(hv)[#[trigger] members(hv, max, l)[b]])
                <= max,
        forall|l1: int, l2: int, j: int|
            #[trigger] members(hv, max, l1).contains(j) && #[trigger] members(hv, max, l2).contains(j) ==> l1 == l2,
{
    let h = hashes(hv);
    let ids = indices(hv.len());
    let pred = |l: int| roots_cluster(hv, max, l);
    crate::order::lemma_path_total();
    assert forall|k: int| 0 <= k < similar_clusters(hv, max).len() implies (#[trigger] similar_clusters(
        hv,
        max,
    )[k]).0.len() >= 2 && similar_clusters(hv, max)[k].1 <= max by {
        ids.filter_lemma(pred);
        let l = ids.filter(pred)[k];
        assert(pred(l));
        let m = members(hv, max, l);
        let ps = member_paths(hv, m);
        ps.lemma_sort_by_ensures(|a: PathV, b: PathV| path_le(a, b));
        broadcast use vstd::seq_lib::group_to_multiset_ensures;
        assert(sorted_paths(ps).to_multiset().len() == ps.to_multiset().len());
        lemma_members_within(hv, max, l);
        lemma_max_pair_bound(h, m, max);
    }
    assert forall|l: int, a: int, b: int|
        roots_cluster(hv, max, l) && 0 <= a < members(hv, max, l).len() && 0 <= b < members(hv, max, l).len() && a
            != b implies hamming(h[#[trigger] members(hv, max, l)[a]], h[#[trigger] members(hv, max, l)[b]]) <= max by {
        lemma_members_within(hv, max, l);
    }
    assert forall|l1: int, l2: int, j: int|
        #[trigger] members(hv, max, l1).contains(j) && #[trigger] members(hv, max, l2).contains(j) implies l1 == l2 by {
        let p1 = in_group(hv, max, l1);
        let p2 = in_group(hv, max, l2);
        ids.lemma_filter_contains_rev(p1, j);
        ids.lemma_filter_contains_rev(p2, j);
    }
}


} // verus!
