//! Folder-level duplicate detection: given the duplicate groups of a completed
//! scan and the full file listing of the tree, find directories whose entire
//! recursive content duplicates, or is contained in, another directory's.

use vstd::prelude::*;
use vstd::relations::*;
use vstd::multiset::Multiset;
use crate::model::{DuplicateGroup, ListedFile, ScanError, TreeListing};
use crate::order::{path_le, lemma_path_total};
use crate::paths::{FsPath, pview, pviews, starts_with, path_eq, path_le_exec, path_starts_with,
    clone_path, clone_paths, path_prefix, path_suffix, path_concat, paths_contain, path_ends_with};
use crate::sort::{SortByView, views, view_order, sort_by_view, sorted_distinct,
    lemma_sorted_unique, lemma_sorted_distinct_unique};

verus! {

/// A folder-level duplicate relationship.
#[derive(Debug, Clone, PartialEq, Eq)]
pub enum FolderMatch {
    /// Two or more directories whose entire recursive content is pairwise
    /// identical: same relative paths, same content, nothing extra.
    Exact { folders: Vec<FsPath>, file_count: u64, bytes: u64 },
    /// `subset`'s entire recursive content exists, path for path, inside
    /// `superset`, which may hold more.
    Contained { subset: FsPath, superset: FsPath, file_count: u64, bytes: u64 },
}

/// A folder match by its components.
pub enum FolderMatchView {
    Exact { folders: Seq<Seq<Seq<char>>>, file_count: nat, bytes: nat },
    Contained { subset: Seq<Seq<char>>, superset: Seq<Seq<char>>, file_count: nat, bytes: nat },
}

impl FolderMatch {
    pub open spec fn mview(&self) -> FolderMatchView {
        match self {
            FolderMatch::Exact { folders, file_count, bytes } => FolderMatchView::Exact {
                folders: pviews(folders@),
                file_count: *file_count as nat,
                bytes: *bytes as nat,
            },
            FolderMatch::Contained { subset, superset, file_count, bytes } => FolderMatchView::Contained {
                subset: pview(*subset),
                superset: pview(*superset),
                file_count: *file_count as nat,
                bytes: *bytes as nat,
            },
        }
    }
}

pub type PathV = Seq<Seq<char>>;

/// A listed file by its components and size.
pub open spec fn file_views(files: Seq<ListedFile>) -> Seq<(PathV, u64)> {
    files.map_values(|f: ListedFile| (pview(f.path), f.size))
}

/// The paths of every group, by their components.
pub open spec fn group_views(groups: Seq<DuplicateGroup>) -> Seq<Seq<PathV>> {
    groups.map_values(|g: DuplicateGroup| g.path_views())
}

/// The last of the first `n` groups that lists `p`.
pub open spec fn group_of(groups: Seq<Seq<PathV>>, p: PathV, n: int) -> Option<int>
    decreases n,
{
    if n <= 0 {
        None
    } else if groups[n - 1].contains(p) {
        Some(n - 1)
    } else {
        group_of(groups, p, n - 1)
    }
}

/// `p` lies strictly below `d`.
pub open spec fn strictly_under(p: PathV, d: PathV) -> bool {
    starts_with(p, d) && p.len() > d.len()
}

/// How many of the first `n` files lie strictly below `d`.
pub open spec fn count_under(files: Seq<(PathV, u64)>, d: PathV, n: int) -> nat
    decreases n,
{
    if n <= 0 {
        0
    } else if strictly_under(files[n - 1].0, d) {
        count_under(files, d, n - 1) + 1
    } else {
        count_under(files, d, n - 1)
    }
}

/// The total size of the first `n` files that lie strictly below `d`.
pub open spec fn bytes_under(files: Seq<(PathV, u64)>, d: PathV, n: int) -> nat
    decreases n,
{
    if n <= 0 {
        0
    } else if strictly_under(files[n - 1].0, d) {
        bytes_under(files, d, n - 1) + files[n - 1].1 as nat
    } else {
        bytes_under(files, d, n - 1)
    }
}

/// The total size of the first `n` files.
pub open spec fn total_bytes(files: Seq<(PathV, u64)>, n: int) -> nat
    decreases n,
{
    if n <= 0 {
        0
    } else {
        total_bytes(files, n - 1) + files[n - 1].1 as nat
    }
}

/// Every one of the first `n` files strictly below `d` belongs to a group.
pub open spec fn all_grouped(files: Seq<(PathV, u64)>, groups: Seq<Seq<PathV>>, d: PathV, n: int) -> bool
    decreases n,
{
    if n <= 0 {
        true
    } else {
        all_grouped(files, groups, d, n - 1) && (strictly_under(files[n - 1].0, d) ==> group_of(
            groups,
            files[n - 1].0,
            groups.len() as int,
        ) is Some)
    }
}

/// The first `n` files strictly below `d`, each as its path relative to `d`
/// and the group establishing its content.
pub open spec fn entries_under(
    files: Seq<(PathV, u64)>,
    groups: Seq<Seq<PathV>>,
    d: PathV,
    n: int,
) -> Seq<(PathV, int)>
    decreases n,
{
    if n <= 0 {
        Seq::empty()
    } else if strictly_under(files[n - 1].0, d) {
        entries_under(files, groups, d, n - 1).push(
            (
                files[n - 1].0.skip(d.len() as int),
                match group_of(groups, files[n - 1].0, groups.len() as int) {
                    Some(g) => g,
                    None => -1,
                },
            ),
        )
    } else {
        entries_under(files, groups, d, n - 1)
    }
}

/// `d` is `root` or a directory holding one of `files` somewhere below it.
pub open spec fn is_tree_dir(root: PathV, files: Seq<(PathV, u64)>, d: PathV) -> bool {
    ||| d == root
    ||| exists|i: int| 0 <= i < files.len() && root.len() <= d.len() && strictly_under(#[trigger] files[i].0, d)
}

/// What a folder-level comparison sees of the tree.
pub struct Tree {
    pub root: PathV,
    pub files: Seq<(PathV, u64)>,
    pub groups: Seq<Seq<PathV>>,
}

impl Tree {
    /// `d` is a directory of the tree: the root, or a directory holding a
    /// listed file somewhere below it.
    pub open spec fn is_dir(self, d: PathV) -> bool {
        is_tree_dir(self.root, self.files, d)
    }

    pub open spec fn count(self, d: PathV) -> nat {
        count_under(self.files, d, self.files.len() as int)
    }

    pub open spec fn bytes(self, d: PathV) -> nat {
        bytes_under(self.files, d, self.files.len() as int)
    }

    /// The content signature of `d`: relative path and group of every file below it.
    pub open spec fn signature(self, d: PathV) -> Multiset<(PathV, int)> {
        entries_under(self.files, self.groups, d, self.files.len() as int).to_multiset()
    }

    /// Every file below `d` has a duplicate somewhere, and there is at least one.
    pub open spec fn fully_duplicated(self, d: PathV) -> bool {
        &&& self.is_dir(d)
        &&& all_grouped(self.files, self.groups, d, self.files.len() as int)
        &&& self.count(d) > 0
    }

    /// `b` holds, for each file below `d`, a file of the same group at the
    /// same relative path.
    pub open spec fn is_superset_of(self, d: PathV, b: PathV) -> bool {
        &&& b.len() >= 1
        &&& b != d
        &&& forall|k: int|
            0 <= k < entries_under(self.files, self.groups, d, self.files.len() as int).len() ==> {
                let e = #[trigger] entries_under(self.files, self.groups, d, self.files.len() as int)[k];
                0 <= e.1 < self.groups.len() && self.groups[e.1].contains(b + e.0)
            }
    }
}

/// Directories ordered by depth, then by path.
pub open spec fn dir_le(a: PathV, b: PathV) -> bool {
    if a.len() != b.len() {
        a.len() < b.len()
    } else {
        path_le(a, b)
    }
}

pub proof fn lemma_dir_le_total()
    ensures
        total_ordering(|a: PathV, b: PathV| dir_le(a, b)),
{
    lemma_path_total();
    let p = |x: PathV, y: PathV| path_le(x, y);
    let r = |a: PathV, b: PathV| dir_le(a, b);
    assert forall|a: PathV| #[trigger] r(a, a) by {
        assert(p(a, a));
    }
    assert forall|a: PathV, b: PathV| #[trigger] r(a, b) && #[trigger] r(b, a) implies a == b by {
        assert(p(a, b) && p(b, a));
    }
    assert forall|a: PathV, b: PathV, c: PathV| #[trigger] r(a, b) && #[trigger] r(b, c) implies r(a, c) by {
        if a.len() == b.len() && b.len() == c.len() {
            assert(p(a, b) && p(b, c));
        }
    }
    assert forall|a: PathV, b: PathV| #[trigger] r(a, b) || #[trigger] r(b, a) by {
        if a.len() == b.len() {
            assert(p(a, b) || p(b, a));
        }
    }
}

/// Signature entries ordered by relative path, then by group.
pub open spec fn entry_le(a: (PathV, int), b: (PathV, int)) -> bool {
    if a.0 == b.0 {
        a.1 <= b.1
    } else {
        path_le(a.0, b.0)
    }
}

pub proof fn lemma_entry_le_total()
    ensures
        total_ordering(|a: (PathV, int), b: (PathV, int)| entry_le(a, b)),
{
    lemma_path_total();
    let p = |x: PathV, y: PathV| path_le(x, y);
    let r = |a: (PathV, int), b: (PathV, int)| entry_le(a, b);
    assert forall|a: (PathV, int)| #[trigger] r(a, a) by {}
    assert forall|a: (PathV, int), b: (PathV, int)| #[trigger] r(a, b) && #[trigger] r(b, a) implies a == b by {
        if a.0 != b.0 {
            assert(p(a.0, b.0) && p(b.0, a.0));
        }
    }
    assert forall|a: (PathV, int), b: (PathV, int), c: (PathV, int)| #[trigger] r(a, b) && #[trigger] r(
        b,
        c,
    ) implies r(a, c) by {
        if a.0 != b.0 && b.0 != c.0 {
            assert(p(a.0, b.0) && p(b.0, c.0));
            if a.0 == c.0 {
                assert(p(c.0, b.0));
            }
        }
    }
    assert forall|a: (PathV, int), b: (PathV, int)| #[trigger] r(a, b) || #[trigger] r(b, a) by {
        if a.0 != b.0 {
            assert(p(a.0, b.0) || p(b.0, a.0));
        }
    }
}

/// The state of the folder-level pass after some directories were processed.
pub struct DedupState {
    /// Directories already reported; nothing at or below them is reported again.
    pub claimed: Seq<PathV>,
    /// Signatures whose exact-duplicate cluster was already handled.
    pub handled: Seq<Multiset<(PathV, int)>>,
    pub matches: Seq<FolderMatchView>,
}

/// `d` is, or lies below, a claimed directory.
pub open spec fn covered(claimed: Seq<PathV>, d: PathV) -> bool {
    exists|i: int| 0 <= i < claimed.len() && claimed[i].len() >= 1 && starts_with(d, #[trigger] claimed[i])
}

impl Tree {
    /// The directories with the same signature as `d`, in processing order.
    pub open spec fn cluster(self, order: Seq<PathV>, d: PathV) -> Seq<PathV> {
        order.filter(|e: PathV| self.signature(e) == self.signature(d))
    }

    /// The uncovered directories with the same signature as `d`.
    pub open spec fn uncovered_cluster(self, order: Seq<PathV>, claimed: Seq<PathV>, d: PathV) -> Seq<PathV> {
        order.filter(|e: PathV| self.signature(e) == self.signature(d) && !covered(claimed, e))
    }

    /// `s` lists, sorted and without repetition, the supersets of `d`.
    pub open spec fn is_superset_listing(self, d: PathV, s: Seq<PathV>) -> bool {
        &&& s.no_duplicates()
        &&& sorted_by(s, |a: PathV, b: PathV| path_le(a, b))
        &&& forall|b: PathV| #[trigger] s.contains(b) <==> self.is_superset_of(d, b)
    }

    /// Every directory holding all of `d`'s content at the same relative paths, sorted.
    pub open spec fn supersets(self, d: PathV) -> Seq<PathV> {
        choose|s: Seq<PathV>| #[trigger] self.is_superset_listing(d, s)
    }

    /// Processing one directory.
    pub open spec fn step(self, order: Seq<PathV>, st: DedupState, d: PathV) -> DedupState {
        if covered(st.claimed, d) {
            st
        } else if self.cluster(order, d).len() >= 2 {
            if st.handled.contains(self.signature(d)) {
                st
            } else {
                let members = self.uncovered_cluster(order, st.claimed, d);
                let handled = st.handled.push(self.signature(d));
                if members.len() >= 2 {
                    DedupState {
                        claimed: st.claimed + members,
                        handled,
                        matches: st.matches.push(
                            FolderMatchView::Exact { folders: members, file_count: self.count(d), bytes: self.bytes(d) },
                        ),
                    }
                } else {
                    DedupState { claimed: st.claimed, handled, matches: st.matches }
                }
            }
        } else {
            let sup = self.supersets(d);
            if sup.len() > 0 {
                DedupState {
                    claimed: st.claimed.push(d),
                    handled: st.handled,
                    matches: st.matches + sup.map_values(
                        |b: PathV|
                            FolderMatchView::Contained {
                                subset: d,
                                superset: b,
                                file_count: self.count(d),
                                bytes: self.bytes(d),
                            },
                    ),
                }
            } else {
                st
            }
        }
    }

    /// The state after processing the first `n` directories of `order`.
    pub open spec fn run(self, order: Seq<PathV>, n: int) -> DedupState
        decreases n,
    {
        if n <= 0 {
            DedupState { claimed: Seq::empty(), handled: Seq::empty(), matches: Seq::empty() }
        } else {
            self.step(order, self.run(order, n - 1), order[n - 1])
        }
    }

    /// The fully duplicated directories, shallowest first, then by path.
    pub open spec fn is_processing_order(self, order: Seq<PathV>) -> bool {
        &&& order.no_duplicates()
        &&& sorted_by(order, |a: PathV, b: PathV| dir_le(a, b))
        &&& forall|d: PathV| #[trigger] order.contains(d) <==> self.fully_duplicated(d)
    }

    pub open spec fn processing_order(self) -> Seq<PathV> {
        choose|o: Seq<PathV>| #[trigger] self.is_processing_order(o)
    }

    /// `m` is a genuine folder match of the tree: exact folders are fully
    /// duplicated with one content signature; a contained subset is fully
    /// duplicated and its content lies, path for path, inside the superset.
    pub open spec fn is_genuine(self, m: FolderMatchView) -> bool {
        match m {
            FolderMatchView::Exact { folders, file_count, bytes } => self.exact_genuine(folders, file_count, bytes),
            FolderMatchView::Contained { subset, superset, file_count, bytes } => {
                &&& self.fully_duplicated(subset)
                &&& self.is_superset_of(subset, superset)
                &&& file_count == self.count(subset)
                &&& bytes == self.bytes(subset)
            },
        }
    }

    /// Two or more fully duplicated folders with one signature, counted as one of them.
    pub open spec fn exact_genuine(self, folders: Seq<PathV>, file_count: nat, bytes: nat) -> bool {
        &&& folders.len() >= 2
        &&& forall|k: int|
            0 <= k < folders.len() ==> self.fully_duplicated(#[trigger] folders[k]) && self.signature(folders[k])
                == self.signature(folders[0])
        &&& exists|k: int| 0 <= k < folders.len() && file_count == self.count(#[trigger] folders[k]) && bytes == self.bytes(folders[k])
    }

    /// Every folder-level match of the tree.
    pub open spec fn folder_matches(self) -> Seq<FolderMatchView> {
        self.run(self.processing_order(), self.processing_order().len() as int).matches
    }
}

/// The tree seen through `root`, a listing and the duplicate groups.
pub open spec fn tree_of(root: FsPath, files: Seq<ListedFile>, groups: Seq<DuplicateGroup>) -> Tree {
    Tree { root: pview(root), files: file_views(files), groups: group_views(groups) }
}

/// The last group listing `p`.
pub(crate) fn group_index_of(groups: &Vec<DuplicateGroup>, p: &FsPath) -> (r: Option<usize>)
    ensures
        match r {
            Some(g) => Some(g as int) == group_of(group_views(groups@), pview(*p), groups@.len() as int)
                && g < groups@.len(),
            None => group_of(group_views(groups@), pview(*p), groups@.len() as int) is None,
        },
{
    let ghost gv = group_views(groups@);
    let mut found: Option<usize> = None;
    let mut g: usize = 0;
    while g < groups.len()
        invariant
            gv == group_views(groups@),
            g <= groups@.len(),
            match found {
                Some(k) => Some(k as int) == group_of(gv, pview(*p), g as int) && k < g,
                None => group_of(gv, pview(*p), g as int) is None,
            },
        decreases groups@.len() - g,
    {
        if crate::paths::paths_contain(&groups[g].paths, p) {
            found = Some(g);
        }
        assert(gv[g as int] == groups@[g as int].path_views());
        g = g + 1;
    }
    found
}

/// Every file lies strictly below the root.
pub open spec fn listed_under_root(root: PathV, files: Seq<(PathV, u64)>) -> bool {
    forall|i: int| 0 <= i < files.len() ==> strictly_under(#[trigger] files[i].0, root)
}

/// The directories of the tree, without repetition.
fn collect_dirs(root: &FsPath, files: &Vec<ListedFile>) -> (r: Vec<FsPath>)
    requires
        listed_under_root(pview(*root), file_views(files@)),
    ensures
        pviews(r@).no_duplicates(),
        forall|d: PathV| #[trigger] pviews(r@).contains(d) <==> is_tree_dir(pview(*root), file_views(files@), d),
{
    let ghost fv = file_views(files@);
    let ghost rv = pview(*root);
    let ghost t = tree_of(*root, files@, Seq::empty());
    let mut dirs: Vec<FsPath> = Vec::new();
    dirs.push(clone_path(root));
    assert(pviews(dirs@) =~= seq![rv]);
    assert forall|d: PathV| #[trigger] pviews(dirs@).contains(d) <==> d == rv by {
        if d == rv {
            assert(pviews(dirs@)[0] == d);
        }
    }
    let mut i: usize = 0;
    while i < files.len()
        invariant
            fv == file_views(files@),
            rv == pview(*root),
            listed_under_root(rv, fv),
            i <= files@.len(),
            pviews(dirs@).no_duplicates(),
            forall|d: PathV| #[trigger] pviews(dirs@).contains(d) <==> (d == rv || exists|j: int|
                0 <= j < i && rv.len() <= d.len() && strictly_under(#[trigger] fv[j].0, d)),
        decreases files@.len() - i,
    {
        let path = &files[i].path;
        assert(fv[i as int].0 == pview(*path));
        assert(strictly_under(fv[i as int].0, rv));
        let mut k: usize = root.len();
        while k < path.len()
            invariant
                fv == file_views(files@),
                rv == pview(*root),
                i < files@.len(),
                fv[i as int].0 == pview(*path),
                strictly_under(fv[i as int].0, rv),
                rv.len() <= k <= pview(*path).len(),
                pviews(dirs@).no_duplicates(),
                forall|d: PathV| #[trigger] pviews(dirs@).contains(d) <==> (d == rv || (exists|j: int|
                    0 <= j < i && rv.len() <= d.len() && strictly_under(#[trigger] fv[j].0, d)) || (
                rv.len() <= d.len() < k && d == pview(*path).take(d.len() as int))),
            decreases path@.len() - k,
        {
            let prefix = path_prefix(path, k);
            let ghost pv = pview(prefix);
            let ghost old_dirs = pviews(dirs@);
            let found = paths_contain(&dirs, &prefix);
            if !found {
                dirs.push(prefix);
                assert(pviews(dirs@) =~= old_dirs.push(pv));
                assert(pviews(dirs@)[old_dirs.len() as int] == pv);
            }
            assert forall|d: PathV| #[trigger] pviews(dirs@).contains(d) <==> (d == rv || (exists|j: int|
                0 <= j < i && rv.len() <= d.len() && strictly_under(#[trigger] fv[j].0, d)) || (rv.len()
                <= d.len() < k + 1 && d == pview(*path).take(d.len() as int))) by {
                if pviews(dirs@).contains(d) && !old_dirs.contains(d) {
                    assert(d == pv);
                }
                if d == pv {
                    if found {
                        assert(pviews(dirs@) == old_dirs);
                    } else {
                        assert(pviews(dirs@)[old_dirs.len() as int] == d);
                    }
                }
                if old_dirs.contains(d) {
                    let j = choose|j: int| 0 <= j < old_dirs.len() && old_dirs[j] == d;
                    assert(pviews(dirs@)[j] == d);
                }
            }
            k = k + 1;
        }
        assert forall|d: PathV| #[trigger] pviews(dirs@).contains(d) <==> (d == rv || exists|j: int|
            0 <= j < i + 1 && rv.len() <= d.len() && strictly_under(#[trigger] fv[j].0, d)) by {
            if rv.len() <= d.len() && strictly_under(fv[i as int].0, d) {
                assert(d == pview(*path).take(d.len() as int));
            }
            if rv.len() <= d.len() < pview(*path).len() && d == pview(*path).take(d.len() as int) {
                assert(strictly_under(fv[i as int].0, d));
            }
        }
        i = i + 1;
    }
    assert(t.root == rv && t.files == fv);
    assert forall|d: PathV| #[trigger] pviews(dirs@).contains(d) <==> t.is_dir(d) by {
        if t.is_dir(d) && d != rv {
            let j = choose|j: int|
                0 <= j < t.files.len() && t.root.len() <= d.len() && strictly_under(#[trigger] t.files[j].0, d);
            assert(strictly_under(fv[j].0, d));
        }
        if pviews(dirs@).contains(d) && d != rv {
            let j = choose|j: int| 0 <= j < files@.len() && rv.len() <= d.len() && strictly_under(#[trigger] fv[j].0, d);
            assert(strictly_under(t.files[j].0, d));
        }
    }
    dirs
}

impl SortByView for (Vec<String>, usize) {
    type V = (PathV, int);

    open spec fn sort_view(&self) -> (PathV, int) {
        (pview(self.0), self.1 as int)
    }

    open spec fn view_le(a: (PathV, int), b: (PathV, int)) -> bool {
        entry_le(a, b)
    }

    proof fn lemma_view_le_total() {
        lemma_entry_le_total();
        assert((|a: (PathV, int), b: (PathV, int)| Self::view_le(a, b)) =~= (|a: (PathV, int), b: (PathV, int)|
            entry_le(a, b)));
    }

    fn le_exec(&self, other: &Self) -> (r: bool) {
        if path_eq(&self.0, &other.0) {
            self.1 <= other.1
        } else {
            path_le_exec(&self.0, &other.0)
        }
    }
}

/// What the pass needs of one directory.
struct DirInfo {
    path: FsPath,
    /// The signature, sorted by `entry_le`.
    entries: Vec<(FsPath, usize)>,
    count: u64,
    bytes: u64,
}

impl SortByView for DirInfo {
    type V = PathV;

    closed spec fn sort_view(&self) -> PathV {
        pview(self.path)
    }

    open spec fn view_le(a: PathV, b: PathV) -> bool {
        dir_le(a, b)
    }

    proof fn lemma_view_le_total() {
        lemma_dir_le_total();
        assert((|a: PathV, b: PathV| Self::view_le(a, b)) =~= (|a: PathV, b: PathV| dir_le(a, b)));
    }

    fn le_exec(&self, other: &Self) -> (r: bool) {
        if self.path.len() != other.path.len() {
            self.path.len() < other.path.len()
        } else {
            path_le_exec(&self.path, &other.path)
        }
    }
}

/// The byte total of the first `i` files is at most that of the first `n`.
pub proof fn lemma_total_bytes_monotone(files: Seq<(PathV, u64)>, i: int, n: int)
    requires
        0 <= i <= n,
    ensures
        total_bytes(files, i) <= total_bytes(files, n),
    decreases n - i,
{
    if i < n {
        lemma_total_bytes_monotone(files, i, n - 1);
    }
}

proof fn lemma_bytes_under_bounded(files: Seq<(PathV, u64)>, d: PathV, n: int)
    requires
        0 <= n,
    ensures
        bytes_under(files, d, n) <= total_bytes(files, n),
        count_under(files, d, n) <= n,
    decreases n,
{
    if n > 0 {
        lemma_bytes_under_bounded(files, d, n - 1);
    }
}

impl DirInfo {
    /// `self` describes `d` in `t`, its entries sorted.
    spec fn describes(self, t: Tree, d: PathV) -> bool {
        &&& pview(self.path) == d
        &&& self.count == t.count(d)
        &&& self.bytes == t.bytes(d)
        &&& views(self.entries@).to_multiset() == t.signature(d)
        &&& sorted_by(views(self.entries@), view_order::<(Vec<String>, usize)>())
        &&& forall|k: int| 0 <= k < self.entries@.len() ==> (#[trigger] self.entries@[k]).1 < t.groups.len()
    }
}

/// The group of every listed file.
fn file_groups(files: &Vec<ListedFile>, groups: &Vec<DuplicateGroup>) -> (r: Vec<Option<usize>>)
    ensures
        r@.len() == files@.len(),
        forall|i: int|
            0 <= i < files@.len() ==> match #[trigger] r@[i] {
                Some(g) => g < groups@.len() && Some(g as int) == group_of(
                    group_views(groups@),
                    pview(files@[i].path),
                    groups@.len() as int,
                ),
                None => group_of(group_views(groups@), pview(files@[i].path), groups@.len() as int) is None,
            },
{
    let mut out: Vec<Option<usize>> = Vec::new();
    let mut i: usize = 0;
    while i < files.len()
        invariant
            i <= files@.len(),
            out@.len() == i,
            forall|k: int|
                0 <= k < i ==> match #[trigger] out@[k] {
                    Some(g) => g < groups@.len() && Some(g as int) == group_of(
                        group_views(groups@),
                        pview(files@[k].path),
                        groups@.len() as int,
                    ),
                    None => group_of(group_views(groups@), pview(files@[k].path), groups@.len() as int) is None,
                },
        decreases files@.len() - i,
    {
        out.push(group_index_of(groups, &files[i].path));
        i = i + 1;
    }
    out
}

/// Describes directory `d`, or returns `None` when some file below it has no group.
fn describe_dir(
    d: &FsPath,
    files: &Vec<ListedFile>,
    groups: &Vec<DuplicateGroup>,
    gids: &Vec<Option<usize>>,
    root: &FsPath,
) -> (r: Option<DirInfo>)
    requires
        gids@.len() == files@.len(),
        forall|i: int|
            0 <= i < files@.len() ==> match #[trigger] gids@[i] {
                Some(g) => g < groups@.len() && Some(g as int) == group_of(
                    group_views(groups@),
                    pview(files@[i].path),
                    groups@.len() as int,
                ),
                None => group_of(group_views(groups@), pview(files@[i].path), groups@.len() as int) is None,
            },
        total_bytes(file_views(files@), files@.len() as int) <= u64::MAX,
    ensures
        match r {
            Some(info) => all_grouped(file_views(files@), group_views(groups@), pview(*d), files@.len() as int)
                && info.describes(tree_of(*root, files@, groups@), pview(*d)),
            None => !all_grouped(file_views(files@), group_views(groups@), pview(*d), files@.len() as int),
        },
{
    let ghost t = tree_of(*root, files@, groups@);
    let ghost fv = file_views(files@);
    let ghost gv = group_views(groups@);
    let ghost dv = pview(*d);
    let mut entries: Vec<(FsPath, usize)> = Vec::new();
    let mut count: u64 = 0;
    let mut bytes: u64 = 0;
    let mut i: usize = 0;
    proof {
        lemma_total_bytes_monotone(fv, 0, fv.len() as int);
    }
    while i < files.len()
        invariant
            t == tree_of(*root, files@, groups@),
            fv == file_views(files@),
            gv == group_views(groups@),
            dv == pview(*d),
            gids@.len() == files@.len(),
            forall|k: int|
                0 <= k < files@.len() ==> match #[trigger] gids@[k] {
                    Some(g) => g < groups@.len() && Some(g as int) == group_of(
                        group_views(groups@),
                        pview(files@[k].path),
                        groups@.len() as int,
                    ),
                    None => group_of(group_views(groups@), pview(files@[k].path), groups@.len() as int) is None,
                },
            total_bytes(fv, fv.len() as int) <= u64::MAX,
            i <= files@.len(),
            all_grouped(fv, gv, dv, i as int),
            count == count_under(fv, dv, i as int),
            bytes == bytes_under(fv, dv, i as int),
            views(entries@) == entries_under(fv, gv, dv, i as int),
            gv.len() == groups@.len(),
            forall|k: int| 0 <= k < entries@.len() ==> (#[trigger] entries@[k]).1 < groups@.len(),
        decreases files@.len() - i,
    {
        let path = &files[i].path;
        assert(fv[i as int].0 == pview(*path));
        assert(fv[i as int].1 == files@[i as int].size);
        if path.len() > d.len() && path_starts_with(path, d) {
            match gids[i] {
                Some(g) => {
                    proof {
                        lemma_bytes_under_bounded(fv, dv, i + 1);
                        lemma_total_bytes_monotone(fv, i + 1, fv.len() as int);
                    }
                    count = count + 1;
                    bytes = bytes + files[i].size;
                    let rel = path_suffix(path, d.len());
                    let ghost before = entries@;
                    entries.push((rel, g));
                    assert(views(entries@) =~= views(before).push((pview(rel), g as int)));
                },
                None => {
                    assert(!all_grouped(fv, gv, dv, i + 1));
                    proof {
                        lemma_not_grouped_stays(fv, gv, dv, i + 1, fv.len() as int);
                    }
                    return None;
                },
            }
        }
        i = i + 1;
    }
    let ghost unsorted = entries@;
    let sorted = sort_by_view(entries);
    proof {
        assert forall|k: int| 0 <= k < sorted@.len() implies (#[trigger] sorted@[k]).1 < groups@.len() by {
            broadcast use vstd::seq_lib::group_to_multiset_ensures;
            assert(sorted@.to_multiset().count(sorted@[k]) > 0);
            assert(unsorted.contains(sorted@[k]));
        }
    }
    Some(DirInfo { path: clone_path(d), entries: sorted, count, bytes })
}

proof fn lemma_entries_len(files: Seq<(PathV, u64)>, groups: Seq<Seq<PathV>>, d: PathV, n: int)
    ensures
        entries_under(files, groups, d, n).len() == count_under(files, d, n),
    decreases n,
{
    if n > 0 {
        lemma_entries_len(files, groups, d, n - 1);
    }
}

proof fn lemma_not_grouped_stays(files: Seq<(PathV, u64)>, groups: Seq<Seq<PathV>>, d: PathV, i: int, n: int)
    requires
        0 <= i <= n,
        !all_grouped(files, groups, d, i),
    ensures
        !all_grouped(files, groups, d, n),
    decreases n - i,
{
    if i < n {
        lemma_not_grouped_stays(files, groups, d, i, n - 1);
    }
}

/// The fully duplicated directories, described, in processing order.
fn processing_order(
    root: &FsPath,
    files: &Vec<ListedFile>,
    groups: &Vec<DuplicateGroup>,
) -> (r: Vec<DirInfo>)
    requires
        listed_under_root(pview(*root), file_views(files@)),
        total_bytes(file_views(files@), files@.len() as int) <= u64::MAX,
    ensures
        tree_of(*root, files@, groups@).is_processing_order(views(r@)),
        forall|k: int| 0 <= k < r@.len() ==> (#[trigger] r@[k]).describes(tree_of(*root, files@, groups@), views(r@)[k]),
{
    let ghost t = tree_of(*root, files@, groups@);
    let gids = file_groups(files, groups);
    let dirs = collect_dirs(root, files);
    let mut cands: Vec<DirInfo> = Vec::new();
    let mut i: usize = 0;
    while i < dirs.len()
        invariant
            t == tree_of(*root, files@, groups@),
            gids@.len() == files@.len(),
            forall|k: int|
                0 <= k < files@.len() ==> match #[trigger] gids@[k] {
                    Some(g) => g < groups@.len() && Some(g as int) == group_of(
                        group_views(groups@),
                        pview(files@[k].path),
                        groups@.len() as int,
                    ),
                    None => group_of(group_views(groups@), pview(files@[k].path), groups@.len() as int) is None,
                },
            total_bytes(file_views(files@), files@.len() as int) <= u64::MAX,
            pviews(dirs@).no_duplicates(),
            forall|d: PathV| #[trigger] pviews(dirs@).contains(d) <==> is_tree_dir(pview(*root), file_views(files@), d),
            i <= dirs@.len(),
            views(cands@).no_duplicates(),
            forall|d: PathV| #[trigger] views(cands@).contains(d) <==> (pviews(dirs@).take(i as int).contains(d)
                && t.fully_duplicated(d)),
            forall|k: int| 0 <= k < cands@.len() ==> (#[trigger] cands@[k]).describes(t, views(cands@)[k]),
        decreases dirs@.len() - i,
    {
        let ghost dv = pview(dirs@[i as int]);
        let ghost old = views(cands@);
        assert(pviews(dirs@)[i as int] == dv);
        assert(pviews(dirs@).contains(dv));
        proof {
            assert(!old.contains(dv)) by {
                if old.contains(dv) {
                    assert(pviews(dirs@).take(i as int).contains(dv));
                    let j = choose|j: int| 0 <= j < i && #[trigger] pviews(dirs@).take(i as int)[j] == dv;
                    assert(pviews(dirs@)[j] == pviews(dirs@)[i as int]);
                }
            }
        }
        let info = describe_dir(&dirs[i], files, groups, &gids, root);
        let mut added = false;
        match info {
            Some(info) => {
                if info.count > 0 {
                    cands.push(info);
                    added = true;
                    assert(views(cands@) =~= old.push(dv));
                }
            },
            None => {},
        }
        assert(added == t.fully_duplicated(dv));
        proof {
            assert(pviews(dirs@).take(i + 1) =~= pviews(dirs@).take(i as int).push(dv));
            assert forall|d: PathV| #[trigger] views(cands@).contains(d) <==> (old.contains(d) || (added && d
                == dv)) by {
                if added {
                    if views(cands@).contains(d) && !old.contains(d) {
                        let j = choose|j: int| 0 <= j < views(cands@).len() && views(cands@)[j] == d;
                        assert(j == old.len());
                    }
                    if old.contains(d) {
                        let j = choose|j: int| 0 <= j < old.len() && old[j] == d;
                        assert(views(cands@)[j] == d);
                    }
                    if d == dv {
                        assert(views(cands@)[old.len() as int] == d);
                    }
                }
            }
            assert forall|d: PathV| pviews(dirs@).take(i + 1).contains(d) <==> (pviews(dirs@).take(
                i as int,
            ).contains(d) || d == dv) by {
                if pviews(dirs@).take(i + 1).contains(d) && d != dv {
                    let j = choose|j: int| 0 <= j < i + 1 && #[trigger] pviews(dirs@).take(i + 1)[j] == d;
                    assert(j < i);
                    assert(pviews(dirs@).take(i as int)[j] == d);
                }
                if pviews(dirs@).take(i as int).contains(d) {
                    let j = choose|j: int| 0 <= j < i && #[trigger] pviews(dirs@).take(i as int)[j] == d;
                    assert(pviews(dirs@).take(i + 1)[j] == d);
                }
                if d == dv {
                    assert(pviews(dirs@).take(i + 1)[i as int] == d);
                }
            }
            if added {
                assert(views(cands@).no_duplicates());
            }
        }
        i = i + 1;
    }
    let ghost before = cands@;
    let order = sort_by_view(cands);
    proof {
        assert(view_order::<DirInfo>() =~= (|a: PathV, b: PathV| dir_le(a, b)));
        crate::sort::lemma_same_multiset_distinct(views(before), views(order@));
        assert(pviews(dirs@).take(dirs@.len() as int) =~= pviews(dirs@));
        assert forall|d: PathV| #[trigger] views(order@).contains(d) <==> t.fully_duplicated(d) by {
            assert(views(before).contains(d) <==> views(order@).contains(d));
        }
        assert forall|k: int| 0 <= k < order@.len() implies (#[trigger] order@[k]).describes(t, views(order@)[k]) by {
            broadcast use vstd::seq_lib::group_to_multiset_ensures;
            assert(order@.to_multiset().count(order@[k]) > 0);
            assert(before.contains(order@[k]));
            let j = choose|j: int| 0 <= j < before.len() && before[j] == order@[k];
            assert(before[j].describes(t, views(before)[j]));
        }
    }
    order
}

/// Whether two signatures are equal entry by entry.
fn entries_eq(a: &Vec<(FsPath, usize)>, b: &Vec<(FsPath, usize)>) -> (r: bool)
    ensures
        r == (views(a@) == views(b@)),
{
    if a.len() != b.len() {
        assert(views(a@).len() != views(b@).len());
        return false;
    }
    let mut i: usize = 0;
    while i < a.len()
        invariant
            a@.len() == b@.len(),
            i <= a@.len(),
            forall|k: int| 0 <= k < i ==> views(a@)[k] == views(b@)[k],
        decreases a@.len() - i,
    {
        if !(path_eq(&a[i].0, &b[i].0) && a[i].1 == b[i].1) {
            assert(views(a@)[i as int] != views(b@)[i as int]);
            return false;
        }
        i = i + 1;
    }
    assert(views(a@) =~= views(b@));
    true
}

/// Sorted signatures are equal exactly when the signatures are.
proof fn lemma_signature_eq(t: Tree, x: DirInfo, dx: PathV, y: DirInfo, dy: PathV)
    requires
        x.describes(t, dx),
        y.describes(t, dy),
    ensures
        (views(x.entries@) == views(y.entries@)) == (t.signature(dx) == t.signature(dy)),
{
    if t.signature(dx) == t.signature(dy) {
        <(Vec<String>, usize) as SortByView>::lemma_view_le_total();
        lemma_sorted_unique(views(x.entries@), views(y.entries@), view_order::<(Vec<String>, usize)>());
    }
}

/// Whether `d` is, or lies below, one of `claimed`.
fn is_covered(claimed: &Vec<FsPath>, d: &FsPath) -> (r: bool)
    ensures
        r == covered(pviews(claimed@), pview(*d)),
{
    let mut i: usize = 0;
    while i < claimed.len()
        invariant
            i <= claimed@.len(),
            forall|k: int| 0 <= k < i ==> !(pviews(claimed@)[k].len() >= 1 && starts_with(pview(*d), #[trigger] pviews(claimed@)[k])),
        decreases claimed@.len() - i,
    {
        if claimed[i].len() >= 1 && path_starts_with(d, &claimed[i]) {
            assert(pviews(claimed@)[i as int] == pview(claimed@[i as int]));
            return true;
        }
        i = i + 1;
    }
    false
}

/// Every directory holding all of `info`'s content at the same relative paths, sorted.
fn find_supersets(info: &DirInfo, groups: &Vec<DuplicateGroup>, Ghost(t): Ghost<Tree>, Ghost(d): Ghost<PathV>) -> (r: Vec<FsPath>)
    requires
        info.describes(t, d),
        t.groups == group_views(groups@),
        info.entries@.len() > 0,
    ensures
        t.is_superset_listing(d, pviews(r@)),
{
    let ghost ents = entries_under(t.files, t.groups, d, t.files.len() as int);
    let rel0 = &info.entries[0].0;
    let g0 = info.entries[0].1;
    let ghost gpaths = groups@[g0 as int].path_views();
    assert(t.groups[g0 as int] == gpaths);
    let mut cands: Vec<FsPath> = Vec::new();
    let mut j: usize = 0;
    while j < groups[g0].paths.len()
        invariant
            info.describes(t, d),
            t.groups == group_views(groups@),
            g0 < groups@.len(),
            gpaths == groups@[g0 as int].path_views(),
            pview(*rel0) == views(info.entries@)[0].0,
            j <= gpaths.len(),
            forall|b: PathV| pviews(cands@).contains(b) <==> (exists|k: int|
                0 <= k < j && b.len() >= 1 && b != d && #[trigger] gpaths[k] == b + pview(*rel0)),
        decreases gpaths.len() - j,
    {
        let p = &groups[g0].paths[j];
        assert(gpaths[j as int] == pview(*p));
        let ghost old = pviews(cands@);
        if p.len() > rel0.len() && path_ends_with(p, rel0) {
            let b = path_prefix(p, p.len() - rel0.len());
            assert(pview(*p) =~= pview(b) + pview(*rel0));
            if !path_eq(&b, &info.path) {
                cands.push(b);
                assert(pviews(cands@) =~= old.push(pview(b)));
            }
        }
        proof {
            assert forall|b: PathV| pviews(cands@).contains(b) <==> (exists|k: int|
                0 <= k < j + 1 && b.len() >= 1 && b != d && #[trigger] gpaths[k] == b + pview(*rel0)) by {
                if pviews(cands@).contains(b) && !old.contains(b) {
                    let m = choose|m: int| 0 <= m < pviews(cands@).len() && pviews(cands@)[m] == b;
                    assert(m == old.len());
                    assert(gpaths[j as int] == b + pview(*rel0));
                }
                if old.contains(b) {
                    let m = choose|m: int| 0 <= m < old.len() && old[m] == b;
                    assert(pviews(cands@)[m] == b);
                }
                if exists|k: int| 0 <= k < j + 1 && b.len() >= 1 && b != d && #[trigger] gpaths[k] == b + pview(*rel0) {
                    let k = choose|k: int| 0 <= k < j + 1 && b.len() >= 1 && b != d && #[trigger] gpaths[k] == b + pview(*rel0);
                    if k == j {
                        assert(pview(*p) == b + pview(*rel0));
                        assert(pview(*p).skip(pview(*p).len() - pview(*rel0).len()) =~= pview(*rel0));
                        assert(pview(*p).take(pview(*p).len() - pview(*rel0).len()) =~= b);
                        assert(pviews(cands@)[old.len() as int] == b);
                    }
                }
            }
        }
        j = j + 1;
    }
    // Keep the candidates that hold every other file at its relative path too.
    let mut kept: Vec<FsPath> = Vec::new();
    let mut c: usize = 0;
    while c < cands.len()
        invariant
            info.describes(t, d),
            t.groups == group_views(groups@),
            c <= cands@.len(),
            forall|b: PathV| pviews(kept@).contains(b) <==> (exists|m: int|
                0 <= m < c && #[trigger] pviews(cands@)[m] == b && forall|k: int|
                    0 <= k < info.entries@.len() ==> t.groups[(#[trigger] views(info.entries@)[k]).1].contains(
                        b + views(info.entries@)[k].0,
                    )),
        decreases cands@.len() - c,
    {
        let b = &cands[c];
        let mut all = true;
        let mut k: usize = 0;
        while k < info.entries.len()
            invariant
                info.describes(t, d),
                t.groups == group_views(groups@),
                k <= info.entries@.len(),
                all == forall|m: int|
                    0 <= m < k ==> t.groups[(#[trigger] views(info.entries@)[m]).1].contains(
                        pview(*b) + views(info.entries@)[m].0,
                    ),
            decreases info.entries@.len() - k,
        {
            let g = info.entries[k].1;
            let full = path_concat(b, &info.entries[k].0);
            let present = paths_contain(&groups[g].paths, &full);
            assert(t.groups[g as int] == groups@[g as int].path_views());
            assert(views(info.entries@)[k as int] == (pview(info.entries@[k as int].0), g as int));
            if !present {
                all = false;
            }
            k = k + 1;
        }
        let ghost old = pviews(kept@);
        if all {
            kept.push(clone_path(b));
            assert(pviews(kept@) =~= old.push(pviews(cands@)[c as int]));
        }
        proof {
            assert forall|x: PathV| pviews(kept@).contains(x) <==> (exists|m: int|
                0 <= m < c + 1 && #[trigger] pviews(cands@)[m] == x && forall|k: int|
                    0 <= k < info.entries@.len() ==> t.groups[(#[trigger] views(info.entries@)[k]).1].contains(
                        x + views(info.entries@)[k].0,
                    )) by {
                if pviews(kept@).contains(x) && !old.contains(x) {
                    let m = choose|m: int| 0 <= m < pviews(kept@).len() && pviews(kept@)[m] == x;
                    assert(m == old.len());
                    assert(pviews(cands@)[c as int] == x);
                }
                if old.contains(x) {
                    let m = choose|m: int| 0 <= m < old.len() && old[m] == x;
                    assert(pviews(kept@)[m] == x);
                }
                if pviews(cands@)[c as int] == x && all {
                    assert(pviews(kept@)[old.len() as int] == x);
                }
            }
        }
        c = c + 1;
    }
    let r = sorted_distinct(kept);
    proof {
        // The entries of the listing and of the sorted signature are the same elements.
        assert forall|e: (PathV, int)| #[trigger] ents.contains(e) <==> views(info.entries@).contains(e) by {
            broadcast use vstd::seq_lib::group_to_multiset_ensures;
            assert(ents.to_multiset() == views(info.entries@).to_multiset());
            assert(ents.contains(e) <==> ents.to_multiset().count(e) > 0);
            assert(views(info.entries@).contains(e) <==> views(info.entries@).to_multiset().count(e) > 0);
        }
        assert(views(r@) == pviews(r@));
        assert(views(kept@) == pviews(kept@));
        assert(view_order::<Vec<String>>() =~= (|a: PathV, b: PathV| path_le(a, b)));
        assert forall|b: PathV| #[trigger] pviews(r@).contains(b) <==> t.is_superset_of(d, b) by {
            assert(pviews(r@).contains(b) <==> pviews(kept@).contains(b));
            if t.is_superset_of(d, b) {
                let e0 = views(info.entries@)[0];
                assert(ents.contains(e0));
                let k0 = choose|k0: int| 0 <= k0 < ents.len() && ents[k0] == e0;
                assert(t.groups[e0.1].contains(b + e0.0));
                let jj = choose|jj: int| 0 <= jj < gpaths.len() && gpaths[jj] == b + e0.0;
                assert(pviews(cands@).contains(b));
                let m = choose|m: int| 0 <= m < pviews(cands@).len() && pviews(cands@)[m] == b;
                assert forall|k: int| 0 <= k < info.entries@.len() implies t.groups[(#[trigger] views(
                    info.entries@,
                )[k]).1].contains(b + views(info.entries@)[k].0) by {
                    assert(views(info.entries@).contains(views(info.entries@)[k]));
                    assert(ents.contains(views(info.entries@)[k]));
                    let q = choose|q: int| 0 <= q < ents.len() && ents[q] == views(info.entries@)[k];
                }
                assert(pviews(kept@).contains(b));
            }
            if pviews(kept@).contains(b) {
                let m = choose|m: int|
                    0 <= m < cands@.len() && #[trigger] pviews(cands@)[m] == b && forall|k: int|
                        0 <= k < info.entries@.len() ==> t.groups[(#[trigger] views(info.entries@)[k]).1].contains(
                            b + views(info.entries@)[k].0,
                        );
                assert(pviews(cands@).contains(b));
                assert forall|q: int| 0 <= q < ents.len() implies {
                    let e = #[trigger] ents[q];
                    0 <= e.1 < t.groups.len() && t.groups[e.1].contains(b + e.0)
                } by {
                    assert(ents.contains(ents[q]));
                    assert(views(info.entries@).contains(ents[q]));
                    let k = choose|k: int| 0 <= k < views(info.entries@).len() && views(info.entries@)[k] == ents[q];
                    assert(info.entries@[k].1 < t.groups.len());
                }
            }
        }
    }
    r
}

/// An exact cluster formed while processing `dv` is genuine.
proof fn lemma_exact_genuine(t: Tree, ov: Seq<PathV>, claimed: Seq<PathV>, dv: PathV)
    requires
        t.is_processing_order(ov),
        ov.contains(dv),
        !covered(claimed, dv),
        t.uncovered_cluster(ov, claimed, dv).len() >= 2,
    ensures
        t.is_genuine(
            FolderMatchView::Exact {
                folders: t.uncovered_cluster(ov, claimed, dv),
                file_count: t.count(dv),
                bytes: t.bytes(dv),
            },
        ),
{
    let pred2 = |e: PathV| t.signature(e) == t.signature(dv) && !covered(claimed, e);
    let mv = ov.filter(pred2);
    assert(mv == t.uncovered_cluster(ov, claimed, dv));
    ov.filter_lemma(pred2);
    assert forall|q: int| 0 <= q < mv.len() implies t.fully_duplicated(#[trigger] mv[q]) && t.signature(mv[q])
        == t.signature(mv[0]) by {
        assert(mv.contains(mv[q]));
        ov.lemma_filter_contains_rev(pred2, mv[q]);
        assert(pred2(mv[0]));
        assert(pred2(mv[q]));
    }
    let i = choose|i: int| 0 <= i < ov.len() && ov[i] == dv;
    assert(pred2(ov[i]));
    ov.lemma_filter_contains(pred2, i);
    assert(mv.contains(dv));
    let q = choose|q: int| 0 <= q < mv.len() && mv[q] == dv;
    assert(t.count(mv[q]) == t.count(dv) && t.bytes(mv[q]) == t.bytes(dv));
    assert(mv.len() >= 2);
    assert(exists|k: int| 0 <= k < mv.len() && t.count(dv) == t.count(#[trigger] mv[k]) && t.bytes(dv) == t.bytes(mv[k]));
    assert(forall|k: int| 0 <= k < mv.len() ==> t.fully_duplicated(#[trigger] mv[k]) && t.signature(mv[k]) == t.signature(mv[0]));
    assert(t.exact_genuine(mv, t.count(dv), t.bytes(dv)));
}

/// A match's components.
pub open spec fn match_views(ms: Seq<FolderMatch>) -> Seq<FolderMatchView> {
    ms.map_values(|m: FolderMatch| m.mview())
}

/// Finds folder-level duplicates in the tree rooted at `root`, using the
/// duplicate groups an earlier scan of the same root produced and the
/// complete stat-only listing of that root (including files with no duplicate
/// anywhere, as the scan's filters let through; its unreadable entries play
/// no part). Directories are considered shallowest first; a directory at or
/// below one already reported is not reported again.
pub fn find_folder_duplicates(
    root: &FsPath,
    groups: &Vec<DuplicateGroup>,
    listing: &TreeListing,
) -> (r: Result<Vec<FolderMatch>, ScanError>)
    requires
        listed_under_root(pview(*root), file_views(listing.files@)),
        total_bytes(file_views(listing.files@), listing.files@.len() as int) <= u64::MAX,
    ensures
        !listing.is_dir ==> (r matches Err(ScanError::InvalidRoot(p)) && pview(p) == pview(*root)),
        listing.is_dir ==> (r matches Ok(ms) && match_views(ms@) == tree_of(
            *root,
            listing.files@,
            groups@,
        ).folder_matches()),
        listing.is_dir ==> (r matches Ok(ms) && forall|j: int|
            0 <= j < ms@.len() ==> tree_of(*root, listing.files@, groups@).is_genuine(
                #[trigger] match_views(ms@)[j],
            )),
{
    if !listing.is_dir {
        return Err(ScanError::InvalidRoot(clone_path(root)));
    }
    let files = &listing.files;
    let ghost t = tree_of(*root, files@, groups@);
    let order = processing_order(root, files, groups);
    let ghost ov = views(order@);
    let n = order.len();
    let mut claimed: Vec<FsPath> = Vec::new();
    let mut handled: Vec<usize> = Vec::new();
    let mut matches: Vec<FolderMatch> = Vec::new();
    let mut i: usize = 0;
    assert(pviews(claimed@) =~= Seq::<PathV>::empty());
    assert(handled@.map_values(|h: usize| t.signature(ov[h as int])) =~= Seq::<Multiset<(PathV, int)>>::empty());
    assert(match_views(matches@) =~= Seq::<FolderMatchView>::empty());
    while i < n
        invariant
            t == tree_of(*root, files@, groups@),
            t.is_processing_order(ov),
            ov == views(order@),
            n == order@.len(),
            forall|k: int| 0 <= k < order@.len() ==> (#[trigger] order@[k]).describes(t, ov[k]),
            i <= n,
            pviews(claimed@) == t.run(ov, i as int).claimed,
            handled@.map_values(|h: usize| t.signature(ov[h as int])) == t.run(ov, i as int).handled,
            forall|k: int| 0 <= k < handled@.len() ==> #[trigger] handled@[k] < n,
            match_views(matches@) == t.run(ov, i as int).matches,
            forall|j: int| 0 <= j < matches@.len() ==> t.is_genuine(#[trigger] match_views(matches@)[j]),
        decreases n - i,
    {
        let ghost st = t.run(ov, i as int);
        let ghost dv = ov[i as int];
        assert(t.run(ov, i + 1) == t.step(ov, st, dv));
        let d = &order[i];
        assert(d.describes(t, dv));
        if is_covered(&claimed, &d.path) {
        } else {
            let ghost pred1 = |e: PathV| t.signature(e) == t.signature(dv);
            let ghost pred2 = |e: PathV| t.signature(e) == t.signature(dv) && !covered(st.claimed, e);
            let mut cluster_len: usize = 0;
            let mut members: Vec<FsPath> = Vec::new();
            let mut k: usize = 0;
            assert(ov.take(0).filter(pred1) =~= Seq::<PathV>::empty()) by {
                reveal(Seq::filter);
            }
            assert(ov.take(0).filter(pred2) =~= Seq::<PathV>::empty()) by {
                reveal(Seq::filter);
            }
            while k < n
                invariant
                    t == tree_of(*root, files@, groups@),
                    ov == views(order@),
                    n == order@.len(),
                    forall|q: int| 0 <= q < order@.len() ==> (#[trigger] order@[q]).describes(t, ov[q]),
                    i < n,
                    dv == ov[i as int],
                    pviews(claimed@) == st.claimed,
                    pred1 == (|e: PathV| t.signature(e) == t.signature(dv)),
                    pred2 == (|e: PathV| t.signature(e) == t.signature(dv) && !covered(st.claimed, e)),
                    k <= n,
                    cluster_len == ov.take(k as int).filter(pred1).len(),
                    pviews(members@) == ov.take(k as int).filter(pred2),
                    cluster_len <= k,
                decreases n - k,
            {
                let e = &order[k];
                assert(e.describes(t, ov[k as int]));
                proof {
                    lemma_signature_eq(t, *e, ov[k as int], order@[i as int], dv);
                    assert(ov.take(k + 1) =~= ov.take(k as int).push(ov[k as int]));
                    ov.take(k as int).lemma_filter_push(ov[k as int], pred1);
                    ov.take(k as int).lemma_filter_push(ov[k as int], pred2);
                }
                if entries_eq(&e.entries, &order[i].entries) {
                    cluster_len = cluster_len + 1;
                    if !is_covered(&claimed, &e.path) {
                        let ghost old = pviews(members@);
                        members.push(clone_path(&e.path));
                        assert(pviews(members@) =~= old.push(ov[k as int]));
                    }
                }
                k = k + 1;
            }
            assert(ov.take(n as int) =~= ov);
            assert(t.cluster(ov, dv) == ov.filter(pred1));
            assert(t.uncovered_cluster(ov, st.claimed, dv) == ov.filter(pred2));
            if cluster_len >= 2 {
                // Was this signature's cluster handled already?
                let mut seen = false;
                let mut h: usize = 0;
                while h < handled.len()
                    invariant
                        t == tree_of(*root, files@, groups@),
                        ov == views(order@),
                        n == order@.len(),
                        forall|q: int| 0 <= q < order@.len() ==> (#[trigger] order@[q]).describes(t, ov[q]),
                        forall|q: int| 0 <= q < handled@.len() ==> #[trigger] handled@[q] < n,
                        i < n,
                        dv == ov[i as int],
                        h <= handled@.len(),
                        seen == exists|q: int|
                            0 <= q < h && t.signature(ov[#[trigger] handled@[q] as int]) == t.signature(dv),
                    decreases handled@.len() - h,
                {
                    let hk = handled[h];
                    proof {
                        lemma_signature_eq(t, order@[hk as int], ov[hk as int], order@[i as int], dv);
                    }
                    if entries_eq(&order[hk].entries, &order[i].entries) {
                        seen = true;
                    }
                    h = h + 1;
                }
                proof {
                    let hv = handled@.map_values(|x: usize| t.signature(ov[x as int]));
                    if seen {
                        let q = choose|q: int|
                            0 <= q < handled@.len() && t.signature(ov[#[trigger] handled@[q] as int]) == t.signature(dv);
                        assert(hv[q] == t.signature(dv));
                    }
                    if hv.contains(t.signature(dv)) {
                        let q = choose|q: int| 0 <= q < hv.len() && hv[q] == t.signature(dv);
                        assert(t.signature(ov[handled@[q] as int]) == t.signature(dv));
                    }
                }
                if !seen {
                    let ghost oldh = handled@;
                    handled.push(i);
                    assert(handled@.map_values(|x: usize| t.signature(ov[x as int])) =~= oldh.map_values(
                        |x: usize| t.signature(ov[x as int]),
                    ).push(t.signature(dv)));
                    if members.len() >= 2 {
                        let ghost oldc = pviews(claimed@);
                        let mut m: usize = 0;
                        while m < members.len()
                            invariant
                                m <= members@.len(),
                                pviews(claimed@) == oldc + pviews(members@).take(m as int),
                            decreases members@.len() - m,
                        {
                            let ghost before = pviews(claimed@);
                            claimed.push(clone_path(&members[m]));
                            assert(pviews(claimed@) =~= before.push(pviews(members@)[m as int]));
                            assert(pviews(members@).take(m + 1) =~= pviews(members@).take(m as int).push(
                                pviews(members@)[m as int],
                            ));
                            m = m + 1;
                        }
                        assert(pviews(members@).take(members@.len() as int) =~= pviews(members@));
                        proof {
                            lemma_exact_genuine(t, ov, st.claimed, dv);
                        }
                        let ghost oldm = match_views(matches@);
                        matches.push(FolderMatch::Exact { folders: members, file_count: d.count, bytes: d.bytes });
                        let ghost em = FolderMatchView::Exact {
                            folders: t.uncovered_cluster(ov, st.claimed, dv),
                            file_count: t.count(dv),
                            bytes: t.bytes(dv),
                        };
                        assert(match_views(matches@) =~= oldm.push(em));
                        assert forall|j: int| 0 <= j < matches@.len() implies t.is_genuine(
                            #[trigger] match_views(matches@)[j],
                        ) by {
                            if j < oldm.len() {
                                assert(match_views(matches@)[j] == oldm[j]);
                            }
                        }
                    }
                }
            } else {
                proof {
                    assert(ov.contains(dv)) by {
                        assert(ov[i as int] == dv);
                    }
                    lemma_entries_len(t.files, t.groups, dv, t.files.len() as int);
                    broadcast use vstd::seq_lib::group_to_multiset_ensures;
                    assert(views(d.entries@).to_multiset().len() == views(d.entries@).len());
                }
                let sup = find_supersets(d, groups, Ghost(t), Ghost(dv));
                proof {
                    crate::paths::lemma_path_total_exported();
                    lemma_sorted_distinct_unique(
                        pviews(sup@),
                        t.supersets(dv),
                        |a: PathV, b: PathV| path_le(a, b),
                    );
                }
                if sup.len() > 0 {
                    let ghost oldc = pviews(claimed@);
                    claimed.push(clone_path(&d.path));
                    assert(pviews(claimed@) =~= oldc.push(dv));
                    let ghost oldm = match_views(matches@);
                    let ghost mk = |b: PathV|
                        FolderMatchView::Contained {
                            subset: dv,
                            superset: b,
                            file_count: t.count(dv),
                            bytes: t.bytes(dv),
                        };
                    let mut s: usize = 0;
                    while s < sup.len()
                        invariant
                            s <= sup@.len(),
                            match_views(matches@) == oldm + pviews(sup@).take(s as int).map_values(mk),
                            mk == (|b: PathV|
                                FolderMatchView::Contained {
                                    subset: dv,
                                    superset: b,
                                    file_count: t.count(dv),
                                    bytes: t.bytes(dv),
                                }),
                            d.describes(t, dv),
                            t.is_superset_listing(dv, pviews(sup@)),
                            t.fully_duplicated(dv),
                            forall|j: int| 0 <= j < matches@.len() ==> t.is_genuine(#[trigger] match_views(matches@)[j]),
                        decreases sup@.len() - s,
                    {
                        let ghost before = match_views(matches@);
                        let sub = clone_path(&d.path);
                        let sp = clone_path(&sup[s]);
                        let ghost m = FolderMatch::Contained { subset: sub, superset: sp, file_count: d.count, bytes: d.bytes };
                        assert(m.mview() == mk(pviews(sup@)[s as int]));
                        assert(pviews(sup@).contains(pviews(sup@)[s as int]));
                        matches.push(
                            FolderMatch::Contained {
                                subset: sub,
                                superset: sp,
                                file_count: d.count,
                                bytes: d.bytes,
                            },
                        );
                        assert(match_views(matches@) =~= before.push(m.mview()));
                        assert(pviews(sup@).take(s + 1) =~= pviews(sup@).take(s as int).push(pviews(sup@)[s as int]));
                        assert(pviews(sup@).take(s + 1).map_values(mk) =~= pviews(sup@).take(s as int).map_values(mk).push(
                            mk(pviews(sup@)[s as int]),
                        ));
                        s = s + 1;
                    }
                    assert(pviews(sup@).take(sup@.len() as int) =~= pviews(sup@));
                }
            }
        }
        i = i + 1;
    }
    proof {
        lemma_dir_le_total();
        assert(t.is_processing_order(t.processing_order()));
        lemma_sorted_distinct_unique(ov, t.processing_order(), |a: PathV, b: PathV| dir_le(a, b));
    }
    Ok(matches)
}

/// The folders a match reports as redundant: every folder of an exact
/// cluster, the subset of a containment.
pub open spec fn reported_folders(m: FolderMatchView) -> Seq<PathV> {
    match m {
        FolderMatchView::Exact { folders, .. } => folders,
        FolderMatchView::Contained { subset, .. } => seq![subset],
    }
}

/// No reported folder lies at or below a folder an earlier match reported;
/// the one repetition is a subset contained in several supersets, reported
/// once per superset.
pub open spec fn reported_once(ms: Seq<FolderMatchView>) -> bool {
    forall|j: int, k: int, x: int, y: int|
        0 <= j < k < ms.len() && 0 <= x < reported_folders(ms[k]).len() && 0 <= y < reported_folders(ms[j]).len()
            && (#[trigger] reported_folders(ms[j])[y]).len() >= 1 && starts_with(
            #[trigger] reported_folders(ms[k])[x],
            reported_folders(ms[j])[y],
        ) ==> reported_folders(ms[k])[x] == reported_folders(ms[j])[y] && ms[j] is Contained && ms[k] is Contained
}

/// Every folder reported so far is claimed, and none is reported again.
proof fn lemma_run_reports_once(t: Tree, order: Seq<PathV>, n: int)
    requires
        0 <= n <= order.len(),
    ensures
        reported_once(t.run(order, n).matches),
        forall|j: int, x: int|
            0 <= j < t.run(order, n).matches.len() && 0 <= x < reported_folders(t.run(order, n).matches[j]).len()
                ==> t.run(order, n).claimed.contains(#[trigger] reported_folders(t.run(order, n).matches[j])[x]),
    decreases n,
{
    if n > 0 {
        lemma_run_reports_once(t, order, n - 1);
        let st = t.run(order, n - 1);
        let d = order[n - 1];
        let next = t.run(order, n);
        assert(next == t.step(order, st, d));
        let old_len = st.matches.len();
        if covered(st.claimed, d) {
        } else if t.cluster(order, d).len() >= 2 {
            if st.handled.contains(t.signature(d)) {
            } else {
                let members = t.uncovered_cluster(order, st.claimed, d);
                let pred = |e: PathV| t.signature(e) == t.signature(d) && !covered(st.claimed, e);
                order.filter_lemma(pred);
                assert(members == order.filter(pred));
                if members.len() >= 2 {
                    assert(next.matches == st.matches.push(
                        FolderMatchView::Exact { folders: members, file_count: t.count(d), bytes: t.bytes(d) },
                    ));
                    assert(next.claimed == st.claimed + members);
                    assert forall|j: int, x: int|
                        0 <= j < next.matches.len() && 0 <= x < reported_folders(next.matches[j]).len() implies next.claimed.contains(
                        #[trigger] reported_folders(next.matches[j])[x],
                    ) by {
                        if j < old_len {
                            assert(next.matches[j] == st.matches[j]);
                            let w = st.claimed.index_of(reported_folders(st.matches[j])[x]);
                            assert(next.claimed[w] == st.claimed[w]);
                        } else {
                            assert(reported_folders(next.matches[j]) == members);
                            assert(next.claimed[st.claimed.len() + x] == members[x]);
                        }
                    }
                    assert forall|j: int, k: int, x: int, y: int|
                        0 <= j < k < next.matches.len() && 0 <= x < reported_folders(next.matches[k]).len() && 0 <= y
                            < reported_folders(next.matches[j]).len() && (#[trigger] reported_folders(
                            next.matches[j],
                        )[y]).len() >= 1 && starts_with(
                            #[trigger] reported_folders(next.matches[k])[x],
                            reported_folders(next.matches[j])[y],
                        ) implies reported_folders(next.matches[k])[x] == reported_folders(next.matches[j])[y]
                        && next.matches[j] is Contained && next.matches[k] is Contained by {
                        assert(next.matches[j] == st.matches[j]);
                        if k < old_len {
                            assert(next.matches[k] == st.matches[k]);
                        } else {
                            let a = members[x];
                            assert(reported_folders(next.matches[k])[x] == a);
                            assert(!covered(st.claimed, a));
                            let b = reported_folders(st.matches[j])[y];
                            assert(st.claimed.contains(b));
                            let w = st.claimed.index_of(b);
                            assert(st.claimed[w] == b);
                            assert(false);
                        }
                    }
                } else {
                    assert(next.matches == st.matches);
                    assert(next.claimed == st.claimed);
                }
            }
        } else {
            let sup = t.supersets(d);
            if sup.len() > 0 {
                let added = sup.map_values(
                    |b: PathV|
                        FolderMatchView::Contained {
                            subset: d,
                            superset: b,
                            file_count: t.count(d),
                            bytes: t.bytes(d),
                        },
                );
                assert(next.matches == st.matches + added);
                assert(next.claimed == st.claimed.push(d));
                assert forall|k: int| old_len <= k < next.matches.len() implies reported_folders(
                    #[trigger] next.matches[k],
                ) == seq![d] && next.matches[k] is Contained by {
                    assert(next.matches[k] == added[k - old_len]);
                }
                assert forall|j: int, x: int|
                    0 <= j < next.matches.len() && 0 <= x < reported_folders(next.matches[j]).len() implies next.claimed.contains(
                    #[trigger] reported_folders(next.matches[j])[x],
                ) by {
                    if j < old_len {
                        assert(next.matches[j] == st.matches[j]);
                        let w = st.claimed.index_of(reported_folders(st.matches[j])[x]);
                        assert(next.claimed[w] == st.claimed[w]);
                    } else {
                        assert(reported_folders(next.matches[j])[x] == d);
                        assert(next.claimed[st.claimed.len() as int] == d);
                    }
                }
                assert forall|j: int, k: int, x: int, y: int|
                    0 <= j < k < next.matches.len() && 0 <= x < reported_folders(next.matches[k]).len() && 0 <= y
                        < reported_folders(next.matches[j]).len() && (#[trigger] reported_folders(
                        next.matches[j],
                    )[y]).len() >= 1 && starts_with(
                        #[trigger] reported_folders(next.matches[k])[x],
                        reported_folders(next.matches[j])[y],
                    ) implies reported_folders(next.matches[k])[x] == reported_folders(next.matches[j])[y]
                    && next.matches[j] is Contained && next.matches[k] is Contained by {
                    if k < old_len {
                        assert(next.matches[k] == st.matches[k]);
                        assert(next.matches[j] == st.matches[j]);
                    } else if j >= old_len {
                    } else {
                        assert(next.matches[j] == st.matches[j]);
                        assert(reported_folders(next.matches[k])[x] == d);
                        let b = reported_folders(st.matches[j])[y];
                        assert(st.claimed.contains(b));
                        let w = st.claimed.index_of(b);
                        assert(st.claimed[w] == b);
                        assert(false);
                    }
                }
            }
        }
    }
}

/// Folder-report law: once a folder has been reported, nothing at or below
/// it is reported by a later match; only a subset contained in several
/// supersets appears once per superset.
pub proof fn lemma_folders_reported_once(t: Tree)
    ensures
        reported_once(t.folder_matches()),
{
    let order = t.processing_order();
    lemma_run_reports_once(t, order, order.len() as int);
}

} // verus!
