//! Choosing which copy in a duplicate group to keep, by a named rule, with
//! reference (protected) folders overriding any rule.

use vstd::prelude::*;
use crate::model::DuplicateGroup;
use crate::paths::{FsPath, pview, pviews, starts_with, path_starts_with, clone_path};

verus! {

/// A named rule for choosing which path in a group to keep.
#[derive(Debug, Clone, Copy, PartialEq, Eq, Structural)]
pub enum Rule {
    /// Keep the alphabetically-first path.
    AlphabeticallyFirst,
    /// Keep the most recently modified copy.
    Newest,
    /// Keep the least recently modified copy.
    Oldest,
    /// Keep the copy with the fewest path components.
    ShortestPath,
    /// Keep the copy with the most path components.
    LongestPath,
}

impl Default for Rule {
    fn default() -> (r: Self)
        ensures
            r == Rule::AlphabeticallyFirst,
    {
        Rule::AlphabeticallyFirst
    }
}

/// `path` lies at or under one of `refs`.
pub open spec fn protected_by(path: Seq<Seq<char>>, refs: Seq<Seq<Seq<char>>>) -> bool {
    exists|i: int| 0 <= i < refs.len() && starts_with(path, #[trigger] refs[i])
}

/// The first protected path's index, scanning from `i`.
pub open spec fn first_protected_from(
    paths: Seq<Seq<Seq<char>>>,
    refs: Seq<Seq<Seq<char>>>,
    i: int,
) -> Option<int>
    decreases paths.len() - i,
{
    if i < 0 || i >= paths.len() {
        None
    } else if protected_by(paths[i], refs) {
        Some(i)
    } else {
        first_protected_from(paths, refs, i + 1)
    }
}

/// The first protected path in `paths`, if any.
pub open spec fn protected_index(paths: Seq<Seq<Seq<char>>>, refs: Seq<Seq<Seq<char>>>) -> Option<int> {
    first_protected_from(paths, refs, 0)
}

pub proof fn lemma_first_protected_from(paths: Seq<Seq<Seq<char>>>, refs: Seq<Seq<Seq<char>>>, i: int)
    requires
        0 <= i <= paths.len(),
    ensures
        match first_protected_from(paths, refs, i) {
            Some(k) => i <= k < paths.len() && protected_by(paths[k], refs) && forall|j: int|
                i <= j < k ==> !protected_by(#[trigger] paths[j], refs),
            None => forall|j: int| i <= j < paths.len() ==> !protected_by(#[trigger] paths[j], refs),
        },
    decreases paths.len() - i,
{
    if i < paths.len() && !protected_by(paths[i], refs) {
        lemma_first_protected_from(paths, refs, i + 1);
    }
}

/// `Path::starts_with` against any of `reference_paths`.
pub fn is_protected(path: &FsPath, reference_paths: &Vec<FsPath>) -> (r: bool)
    ensures
        r == protected_by(pview(*path), pviews(reference_paths@)),
{
    let mut i: usize = 0;
    while i < reference_paths.len()
        invariant
            i <= reference_paths@.len(),
            forall|k: int| 0 <= k < i ==> !starts_with(pview(*path), #[trigger] pviews(reference_paths@)[k]),
        decreases reference_paths@.len() - i,
    {
        if path_starts_with(path, &reference_paths[i]) {
            assert(starts_with(pview(*path), pviews(reference_paths@)[i as int]));
            return true;
        }
        i = i + 1;
    }
    false
}

/// The first path in `group` that is protected by `reference_paths`, if any.
pub fn protected_member(group: &DuplicateGroup, reference_paths: &Vec<FsPath>) -> (r: Option<usize>)
    ensures
        match r {
            Some(k) => k < group.paths@.len() && Some(k as int) == protected_index(
                group.path_views(),
                pviews(reference_paths@),
            ),
            None => protected_index(group.path_views(), pviews(reference_paths@)) is None,
        },
{
    let ghost paths = group.path_views();
    let ghost refs = pviews(reference_paths@);
    proof {
        lemma_first_protected_from(paths, refs, 0);
    }
    if reference_paths.len() == 0 {
        assert forall|j: int| 0 <= j < paths.len() implies !protected_by(#[trigger] paths[j], refs) by {}
        proof {
            lemma_first_protected_from(paths, refs, 0);
        }
        return None;
    }
    let mut i: usize = 0;
    while i < group.paths.len()
        invariant
            paths == group.path_views(),
            refs == pviews(reference_paths@),
            i <= paths.len(),
            first_protected_from(paths, refs, 0) == first_protected_from(paths, refs, i as int),
        decreases paths.len() - i,
    {
        if is_protected(&group.paths[i], reference_paths) {
            return Some(i);
        }
        i = i + 1;
    }
    None
}

/// The first index among `0..n` with the fewest (or most) components.
pub open spec fn is_depth_choice(paths: Seq<Seq<Seq<char>>>, shortest: bool, k: int) -> bool {
    &&& 0 <= k < paths.len()
    &&& forall|j: int|
        0 <= j < paths.len() ==> if shortest {
            paths[k].len() <= #[trigger] paths[j].len()
        } else {
            paths[k].len() >= #[trigger] paths[j].len()
        }
    &&& forall|j: int| 0 <= j < k ==> #[trigger] paths[j].len() != paths[k].len()
}

/// Among the readable modification times, the first newest (or oldest) one.
pub open spec fn is_time_choice(modified: Seq<Option<i128>>, newest: bool, k: int) -> bool {
    &&& 0 <= k < modified.len()
    &&& modified[k] is Some
    &&& forall|j: int|
        0 <= j < modified.len() && #[trigger] modified[j] is Some ==> if newest {
            modified[j]->0 <= modified[k]->0
        } else {
            modified[j]->0 >= modified[k]->0
        }
    &&& forall|j: int| 0 <= j < k && #[trigger] modified[j] is Some ==> modified[j]->0 != modified[k]->0
}

/// Picks the path with the fewest (or most) components; the first wins a tie.
pub fn by_depth(group: &DuplicateGroup, shortest: bool) -> (r: usize)
    requires
        group.paths@.len() > 0,
    ensures
        is_depth_choice(group.path_views(), shortest, r as int),
{
    let ghost paths = group.path_views();
    let mut best_index: usize = 0;
    let mut best_depth: usize = group.paths[0].len();
    let mut index: usize = 1;
    while index < group.paths.len()
        invariant
            paths == group.path_views(),
            1 <= index <= paths.len(),
            best_index < index,
            best_depth == paths[best_index as int].len(),
            forall|j: int|
                0 <= j < index ==> if shortest {
                    best_depth <= #[trigger] paths[j].len()
                } else {
                    best_depth >= #[trigger] paths[j].len()
                },
            forall|j: int| 0 <= j < best_index ==> #[trigger] paths[j].len() != best_depth,
        decreases paths.len() - index,
    {
        let depth = group.paths[index].len();
        let is_better = if shortest {
            depth < best_depth
        } else {
            depth > best_depth
        };
        if is_better {
            best_index = index;
            best_depth = depth;
        }
        index = index + 1;
    }
    best_index
}

/// Picks the newest (or oldest) readable modification time; the first wins a
/// tie, and `None` means no time was readable.
pub fn by_modified(modified: &Vec<Option<i128>>, newest: bool) -> (r: Option<usize>)
    ensures
        match r {
            Some(k) => is_time_choice(modified@, newest, k as int),
            None => forall|j: int| 0 <= j < modified@.len() ==> #[trigger] modified@[j] is None,
        },
{
    let mut best: Option<usize> = None;
    let mut index: usize = 0;
    while index < modified.len()
        invariant
            index <= modified@.len(),
            match best {
                Some(k) => k < index && modified@[k as int] is Some && (forall|j: int|
                    0 <= j < index && #[trigger] modified@[j] is Some ==> if newest {
                        modified@[j]->0 <= modified@[k as int]->0
                    } else {
                        modified@[j]->0 >= modified@[k as int]->0
                    }) && (forall|j: int|
                    0 <= j < k && #[trigger] modified@[j] is Some ==> modified@[j]->0
                        != modified@[k as int]->0),
                None => forall|j: int| 0 <= j < index ==> #[trigger] modified@[j] is None,
            },
        decreases modified@.len() - index,
    {
        if let Some(m) = modified[index] {
            let is_better = match best {
                None => true,
                Some(b) => {
                    let current = modified[b].unwrap();
                    if newest {
                        m > current
                    } else {
                        m < current
                    }
                },
            };
            if is_better {
                best = Some(index);
            }
        }
        index = index + 1;
    }
    best
}

/// The index `choose_keep` picks, and the text of its reason.
pub open spec fn keep_choice(
    paths: Seq<Seq<Seq<char>>>,
    rule: Rule,
    refs: Seq<Seq<Seq<char>>>,
    modified: Seq<Option<i128>>,
    k: int,
    reason: Seq<char>,
) -> bool {
    match protected_index(paths, refs) {
        Some(p) => k == p && reason == "in a protected/reference folder"@,
        None => match rule {
            Rule::AlphabeticallyFirst => k == 0 && reason == "alphabetically first"@,
            Rule::Newest => if exists|j: int| 0 <= j < modified.len() && #[trigger] modified[j] is Some {
                is_time_choice(modified, true, k) && reason == "most recent modification time"@
            } else {
                k == 0 && reason == "alphabetically first (no file's modification time was readable)"@
            },
            Rule::Oldest => if exists|j: int| 0 <= j < modified.len() && #[trigger] modified[j] is Some {
                is_time_choice(modified, false, k) && reason == "oldest modification time"@
            } else {
                k == 0 && reason == "alphabetically first (no file's modification time was readable)"@
            },
            Rule::ShortestPath => is_depth_choice(paths, true, k) && reason == "shortest path"@,
            Rule::LongestPath => is_depth_choice(paths, false, k) && reason == "longest path"@,
        },
    }
}

/// Chooses which path of `group` to keep under `rule`, with a one-line reason.
/// `modified[i]` is the modification time of `group.paths[i]` in nanoseconds
/// since the Unix epoch, or `None` where it could not be read. A path under one
/// of `reference_paths` always wins, whatever the rule.
pub fn choose_keep(
    group: &DuplicateGroup,
    rule: Rule,
    reference_paths: &Vec<FsPath>,
    modified: &Vec<Option<i128>>,
) -> (r: (FsPath, String))
    requires
        group.paths@.len() > 0,
        modified@.len() == group.paths@.len(),
    ensures
        exists|k: int|
            0 <= k < group.paths@.len() && pview(r.0) == group.path_views()[k] && keep_choice(
                group.path_views(),
                rule,
                pviews(reference_paths@),
                modified@,
                k,
                r.1@,
            ),
{
    let (k, reason) = choose_keep_index(group, rule, reference_paths, modified);
    let kept = clone_path(&group.paths[k]);
    assert(pview(kept) == group.path_views()[k as int]);
    (kept, reason)
}

/// The index of the path `choose_keep` keeps, with its reason.
pub fn choose_keep_index(
    group: &DuplicateGroup,
    rule: Rule,
    reference_paths: &Vec<FsPath>,
    modified: &Vec<Option<i128>>,
) -> (r: (usize, String))
    requires
        group.paths@.len() > 0,
        modified@.len() == group.paths@.len(),
    ensures
        r.0 < group.paths@.len(),
        keep_choice(group.path_views(), rule, pviews(reference_paths@), modified@, r.0 as int, r.1@),
{
    if let Some(p) = protected_member(group, reference_paths) {
        proof {
            lemma_first_protected_from(group.path_views(), pviews(reference_paths@), 0);
        }
        return (p, String::from_str("in a protected/reference folder"));
    }
    match rule {
        Rule::AlphabeticallyFirst => (0, String::from_str("alphabetically first")),
        Rule::Newest | Rule::Oldest => {
            let newest = match rule {
                Rule::Newest => true,
                _ => false,
            };
            match by_modified(modified, newest) {
                Some(k) => {
                    assert(modified@[k as int] is Some);
                    let reason = if newest {
                        String::from_str("most recent modification time")
                    } else {
                        String::from_str("oldest modification time")
                    };
                    (k, reason)
                },
                None => (0, String::from_str("alphabetically first (no file's modification time was readable)")),
            }
        },
        Rule::ShortestPath => (by_depth(group, true), String::from_str("shortest path")),
        Rule::LongestPath => (by_depth(group, false), String::from_str("longest path")),
    }
}

} // verus!
