//! Planning what to do with the redundant copies of a confirmed duplicate group,
//! and summarising what happened once the plan was carried out.

use vstd::prelude::*;
use crate::model::{DuplicateGroup, FileError, FileIdentity};
use crate::paths::{FsPath, pview, pviews, path_eq, clone_path, starts_with};
use crate::select::{protected_by, protected_index, protected_member, is_protected,
    lemma_first_protected_from};

verus! {

/// What to do with every redundant copy in a group.
#[derive(Debug, Clone, PartialEq, Eq)]
pub enum ActionKind {
    /// Remove the redundant copy permanently.
    Delete,
    /// Move the redundant copy to the operating system's trash.
    Trash,
    /// Replace the redundant copy with a hardlink to the kept file.
    Hardlink,
    /// Replace the redundant copy with a copy-on-write clone of the kept file.
    Reflink,
    /// Relocate the redundant copy under this archive folder, mirroring its path.
    Move(FsPath),
    /// Copy the redundant copy under this archive folder, leaving it in place.
    Copy(FsPath),
}

/// The action kinds, with an archive folder taken by its components.
pub enum ActionKindView {
    Delete,
    Trash,
    Hardlink,
    Reflink,
    Move(Seq<Seq<char>>),
    Copy(Seq<Seq<char>>),
}

impl ActionKind {
    pub open spec fn kview(&self) -> ActionKindView {
        match self {
            ActionKind::Delete => ActionKindView::Delete,
            ActionKind::Trash => ActionKindView::Trash,
            ActionKind::Hardlink => ActionKindView::Hardlink,
            ActionKind::Reflink => ActionKindView::Reflink,
            ActionKind::Move(d) => ActionKindView::Move(pview(*d)),
            ActionKind::Copy(d) => ActionKindView::Copy(pview(*d)),
        }
    }

    /// A copy of this kind.
    pub fn duplicate(&self) -> (r: ActionKind)
        ensures
            r.kview() == self.kview(),
    {
        match self {
            ActionKind::Delete => ActionKind::Delete,
            ActionKind::Trash => ActionKind::Trash,
            ActionKind::Hardlink => ActionKind::Hardlink,
            ActionKind::Reflink => ActionKind::Reflink,
            ActionKind::Move(d) => ActionKind::Move(clone_path(d)),
            ActionKind::Copy(d) => ActionKind::Copy(clone_path(d)),
        }
    }
}

/// One redundant copy and what will happen to it.
#[derive(Debug, Clone, PartialEq, Eq)]
pub struct FileAction {
    pub path: FsPath,
    pub kind: ActionKind,
}

/// What running an action kind over a group would do, computed without
/// touching the filesystem.
#[derive(Debug, Clone, PartialEq, Eq)]
pub struct ActionPlan {
    /// Size of one copy.
    pub size: u64,
    /// The path kept as-is.
    pub kept: FsPath,
    /// Redundant copies that would be acted on.
    pub actions: Vec<FileAction>,
    /// Bytes this plan would free: `size * actions.len()`.
    pub bytes_reclaimed: u64,
}

impl ActionPlan {
    /// The components of every path the plan acts on.
    pub open spec fn action_paths(&self) -> Seq<Seq<Seq<char>>> {
        self.actions@.map_values(|a: FileAction| pview(a.path))
    }
}

/// The outcome of actually running a plan.
#[derive(Debug, Clone, PartialEq, Eq)]
pub struct ApplyReport {
    pub succeeded: Vec<FsPath>,
    pub failed: Vec<FileError>,
    /// Bytes actually freed: `size * succeeded.len()`.
    pub bytes_reclaimed: u64,
}

/// The path actually kept: a protected member of the group wins over `keep`.
pub open spec fn effective_keep(
    paths: Seq<Seq<Seq<char>>>,
    keep: Seq<Seq<char>>,
    refs: Seq<Seq<Seq<char>>>,
) -> Seq<Seq<char>> {
    match protected_index(paths, refs) {
        Some(p) => paths[p],
        None => keep,
    }
}

/// The identity of the path actually kept.
pub open spec fn effective_keep_identity(
    paths: Seq<Seq<Seq<char>>>,
    ids: Seq<Option<FileIdentity>>,
    keep_id: Option<FileIdentity>,
    refs: Seq<Seq<Seq<char>>>,
) -> Option<FileIdentity> {
    match protected_index(paths, refs) {
        Some(p) => ids[p],
        None => keep_id,
    }
}

/// Whether the path at `i` is acted on: it is not the kept path, not
/// protected, and not already the same file (a hardlink) as the kept path.
pub open spec fn is_acted_on(
    path: Seq<Seq<char>>,
    id: Option<FileIdentity>,
    kept: Seq<Seq<char>>,
    kept_id: Option<FileIdentity>,
    refs: Seq<Seq<Seq<char>>>,
) -> bool {
    &&& path != kept
    &&& !protected_by(path, refs)
    &&& !(kept_id is Some && id == kept_id)
}

/// The paths among the first `n` that are acted on, in group order.
pub open spec fn planned_paths(
    paths: Seq<Seq<Seq<char>>>,
    ids: Seq<Option<FileIdentity>>,
    kept: Seq<Seq<char>>,
    kept_id: Option<FileIdentity>,
    refs: Seq<Seq<Seq<char>>>,
    n: int,
) -> Seq<Seq<Seq<char>>>
    decreases n,
{
    if n <= 0 {
        Seq::empty()
    } else {
        let prev = planned_paths(paths, ids, kept, kept_id, refs, n - 1);
        if is_acted_on(paths[n - 1], ids[n - 1], kept, kept_id, refs) {
            prev.push(paths[n - 1])
        } else {
            prev
        }
    }
}

/// Everything a plan for `group` keeping `keep` is, by its components.
pub open spec fn plan_matches(
    plan: ActionPlan,
    group: DuplicateGroup,
    keep: Seq<Seq<char>>,
    kind: ActionKindView,
    refs: Seq<Seq<Seq<char>>>,
    ids: Seq<Option<FileIdentity>>,
    keep_id: Option<FileIdentity>,
) -> bool {
    let paths = group.path_views();
    let kept = effective_keep(paths, keep, refs);
    let kept_id = effective_keep_identity(paths, ids, keep_id, refs);
    &&& plan.size == group.size
    &&& pview(plan.kept) == kept
    &&& plan.action_paths() == planned_paths(paths, ids, kept, kept_id, refs, paths.len() as int)
    &&& forall|i: int| 0 <= i < plan.actions@.len() ==> (#[trigger] plan.actions@[i]).kind.kview() == kind
    &&& plan.bytes_reclaimed == plan.size * plan.actions@.len()
}

/// Plans are determined by their inputs: two plans made for the same group,
/// kept path, action, reference paths and identities keep the same path and
/// act, in the same order and with the same action, on the same paths, for
/// the same bytes.
pub proof fn lemma_plan_deterministic(
    p1: ActionPlan,
    p2: ActionPlan,
    group: DuplicateGroup,
    keep: Seq<Seq<char>>,
    kind: ActionKindView,
    refs: Seq<Seq<Seq<char>>>,
    ids: Seq<Option<FileIdentity>>,
    keep_id: Option<FileIdentity>,
)
    requires
        plan_matches(p1, group, keep, kind, refs, ids, keep_id),
        plan_matches(p2, group, keep, kind, refs, ids, keep_id),
    ensures
        p1.size == p2.size,
        pview(p1.kept) == pview(p2.kept),
        p1.action_paths() == p2.action_paths(),
        p1.actions@.len() == p2.actions@.len(),
        forall|i: int| 0 <= i < p1.actions@.len() ==> (#[trigger] p1.actions@[i]).kind.kview() == p2.actions@[i].kind.kview(),
        p1.bytes_reclaimed == p2.bytes_reclaimed,
{
    assert(p1.action_paths().len() == p1.actions@.len());
    assert(p2.action_paths().len() == p2.actions@.len());
}

/// How many paths a plan for `group` keeping `keep` acts on.
pub open spec fn planned_count(
    group: DuplicateGroup,
    keep: Seq<Seq<char>>,
    refs: Seq<Seq<Seq<char>>>,
    ids: Seq<Option<FileIdentity>>,
    keep_id: Option<FileIdentity>,
) -> nat {
    let paths = group.path_views();
    planned_paths(
        paths,
        ids,
        effective_keep(paths, keep, refs),
        effective_keep_identity(paths, ids, keep_id, refs),
        refs,
        paths.len() as int,
    ).len()
}

proof fn lemma_planned_len(
    paths: Seq<Seq<Seq<char>>>,
    ids: Seq<Option<FileIdentity>>,
    kept: Seq<Seq<char>>,
    kept_id: Option<FileIdentity>,
    refs: Seq<Seq<Seq<char>>>,
    n: int,
)
    requires
        0 <= n,
    ensures
        planned_paths(paths, ids, kept, kept_id, refs, n).len() <= n,
    decreases n,
{
    if n > 0 {
        lemma_planned_len(paths, ids, kept, kept_id, refs, n - 1);
    }
}

/// Like `plan`, but the caller proposes which path to keep. A path of the
/// group under one of `reference_paths` is kept instead whenever there is
/// one, and no protected path is ever acted on. `identities[i]` is the file
/// identity of `group.paths[i]` and `keep_identity` that of `keep` (`None`
/// where it could not be read); a path sharing the kept path's identity is
/// already a hardlink of it and is left out.
pub fn plan_with_keep(
    group: &DuplicateGroup,
    keep: &FsPath,
    kind: ActionKind,
    reference_paths: &Vec<FsPath>,
    identities: &Vec<Option<FileIdentity>>,
    keep_identity: Option<FileIdentity>,
) -> (r: ActionPlan)
    requires
        identities@.len() == group.paths@.len(),
        group.size * planned_count(*group, pview(*keep), pviews(reference_paths@), identities@, keep_identity)
            <= u64::MAX,
    ensures
        plan_matches(r, *group, pview(*keep), kind.kview(), pviews(reference_paths@), identities@, keep_identity),
{
    let ghost paths = group.path_views();
    let ghost refs = pviews(reference_paths@);
    let protected = protected_member(group, reference_paths);
    let (kept, kept_id) = match protected {
        Some(p) => (clone_path(&group.paths[p]), identities[p]),
        None => (clone_path(keep), keep_identity),
    };
    let ghost kv = pview(kept);
    assert(kv == effective_keep(paths, pview(*keep), refs));
    assert(kept_id == effective_keep_identity(paths, identities@, keep_identity, refs));
    let mut actions: Vec<FileAction> = Vec::new();
    let mut i: usize = 0;
    while i < group.paths.len()
        invariant
            paths == group.path_views(),
            refs == pviews(reference_paths@),
            kv == pview(kept),
            identities@.len() == paths.len(),
            i <= paths.len(),
            actions@.map_values(|a: FileAction| pview(a.path)) == planned_paths(
                paths,
                identities@,
                kv,
                kept_id,
                refs,
                i as int,
            ),
            forall|j: int| 0 <= j < actions@.len() ==> (#[trigger] actions@[j]).kind.kview() == kind.kview(),
        decreases paths.len() - i,
    {
        let path = &group.paths[i];
        let same_file = match kept_id {
            Some(k) => match identities[i] {
                Some(id) => id == k,
                None => false,
            },
            None => false,
        };
        let acted = !path_eq(path, &kept) && !is_protected(path, reference_paths) && !same_file;
        let ghost before = actions@;
        if acted {
            actions.push(FileAction { path: clone_path(path), kind: kind.duplicate() });
            assert(actions@.map_values(|a: FileAction| pview(a.path)) =~= before.map_values(
                |a: FileAction| pview(a.path),
            ).push(paths[i as int]));
        }
        i = i + 1;
    }
    proof {
        lemma_planned_len(paths, identities@, kv, kept_id, refs, paths.len() as int);
        vstd::arithmetic::mul::lemma_mul_upper_bound(
            group.size as int,
            group.size as int,
            actions@.len() as int,
            actions@.len() as int,
        );
    }
    let bytes_reclaimed = group.size * (actions.len() as u64);
    ActionPlan { size: group.size, kept, actions, bytes_reclaimed }
}

/// Plans `kind` for every redundant copy in `group`, keeping its first
/// (alphabetically-first) path unless a protected path overrides it.
pub fn plan(
    group: &DuplicateGroup,
    kind: ActionKind,
    reference_paths: &Vec<FsPath>,
    identities: &Vec<Option<FileIdentity>>,
) -> (r: ActionPlan)
    requires
        group.paths@.len() > 0,
        identities@.len() == group.paths@.len(),
        group.size * planned_count(
            *group,
            group.path_views()[0],
            pviews(reference_paths@),
            identities@,
            identities@[0],
        ) <= u64::MAX,
    ensures
        plan_matches(
            r,
            *group,
            group.path_views()[0],
            kind.kview(),
            pviews(reference_paths@),
            identities@,
            identities@[0],
        ),
{
    plan_with_keep(group, &group.paths[0], kind, reference_paths, identities, identities[0])
}

proof fn lemma_planned_members(
    paths: Seq<Seq<Seq<char>>>,
    ids: Seq<Option<FileIdentity>>,
    kept: Seq<Seq<char>>,
    kept_id: Option<FileIdentity>,
    refs: Seq<Seq<Seq<char>>>,
    n: int,
)
    requires
        0 <= n <= paths.len(),
    ensures
        forall|i: int|
            0 <= i < planned_paths(paths, ids, kept, kept_id, refs, n).len() ==> {
                let p = #[trigger] planned_paths(paths, ids, kept, kept_id, refs, n)[i];
                &&& p != kept
                &&& !protected_by(p, refs)
                &&& paths.contains(p)
            },
    decreases n,
{
    if n > 0 {
        lemma_planned_members(paths, ids, kept, kept_id, refs, n - 1);
        let prev = planned_paths(paths, ids, kept, kept_id, refs, n - 1);
        let cur = planned_paths(paths, ids, kept, kept_id, refs, n);
        assert forall|i: int| 0 <= i < cur.len() implies {
            let p = #[trigger] cur[i];
            &&& p != kept
            &&& !protected_by(p, refs)
            &&& paths.contains(p)
        } by {
            if i < prev.len() {
                assert(cur[i] == prev[i]);
            } else {
                assert(cur[i] == paths[n - 1]);
            }
        }
    }
}

/// A plan never acts on the path it keeps, never acts on a protected path,
/// acts only on paths of the group, and whenever the group holds a protected
/// path the kept path is a protected member of the group, whatever `keep` was
/// proposed.
pub proof fn lemma_plan_guardrail(
    plan: ActionPlan,
    group: DuplicateGroup,
    keep: Seq<Seq<char>>,
    kind: ActionKindView,
    refs: Seq<Seq<Seq<char>>>,
    ids: Seq<Option<FileIdentity>>,
    keep_id: Option<FileIdentity>,
)
    requires
        plan_matches(plan, group, keep, kind, refs, ids, keep_id),
    ensures
        forall|i: int|
            0 <= i < plan.actions@.len() ==> {
                let p = #[trigger] plan.action_paths()[i];
                &&& p != pview(plan.kept)
                &&& !protected_by(p, refs)
                &&& group.path_views().contains(p)
            },
        (exists|j: int| 0 <= j < group.paths@.len() && protected_by(#[trigger] group.path_views()[j], refs))
            ==> protected_by(pview(plan.kept), refs) && group.path_views().contains(pview(plan.kept)),
{
    let paths = group.path_views();
    let kept = effective_keep(paths, keep, refs);
    let kept_id = effective_keep_identity(paths, ids, keep_id, refs);
    lemma_planned_members(paths, ids, kept, kept_id, refs, paths.len() as int);
    lemma_first_protected_from(paths, refs, 0);
    assert forall|i: int| 0 <= i < plan.actions@.len() implies {
        let p = #[trigger] plan.action_paths()[i];
        &&& p != pview(plan.kept)
        &&& !protected_by(p, refs)
        &&& group.path_views().contains(p)
    } by {
        assert(plan.action_paths()[i] == planned_paths(paths, ids, kept, kept_id, refs, paths.len() as int)[i]);
    }
    if exists|j: int| 0 <= j < group.paths@.len() && protected_by(#[trigger] group.path_views()[j], refs) {
        let j = choose|j: int| 0 <= j < group.paths@.len() && protected_by(#[trigger] group.path_views()[j], refs);
        let p = protected_index(paths, refs)->0;
        assert(paths[p] == pview(plan.kept));
    }
}

/// The paths among the first `n` actions whose outcome is a success.
pub open spec fn succeeded_paths(
    paths: Seq<Seq<Seq<char>>>,
    outcomes: Seq<Option<String>>,
    n: int,
) -> Seq<Seq<Seq<char>>>
    decreases n,
{
    if n <= 0 {
        Seq::empty()
    } else if outcomes[n - 1] is None {
        succeeded_paths(paths, outcomes, n - 1).push(paths[n - 1])
    } else {
        succeeded_paths(paths, outcomes, n - 1)
    }
}

/// The failures among the first `n` actions, each path with its message.
pub open spec fn failed_entries(
    paths: Seq<Seq<Seq<char>>>,
    outcomes: Seq<Option<String>>,
    n: int,
) -> Seq<(Seq<Seq<char>>, Seq<char>)>
    decreases n,
{
    if n <= 0 {
        Seq::empty()
    } else if outcomes[n - 1] is Some {
        failed_entries(paths, outcomes, n - 1).push((paths[n - 1], outcomes[n - 1]->0@))
    } else {
        failed_entries(paths, outcomes, n - 1)
    }
}

/// Each of the first `n` outcomes is counted once: as a success or as a failure.
pub proof fn lemma_outcome_counts(paths: Seq<Seq<Seq<char>>>, outcomes: Seq<Option<String>>, n: int)
    requires
        0 <= n,
    ensures
        succeeded_paths(paths, outcomes, n).len() + failed_entries(paths, outcomes, n).len() == n,
    decreases n,
{
    if n > 0 {
        lemma_outcome_counts(paths, outcomes, n - 1);
    }
}

impl ApplyReport {
    /// The report for `plan` once its actions were carried out: `outcomes[i]`
    /// is `None` where `plan.actions[i]` succeeded and the error message where
    /// it failed. Every success frees one copy's size.
    pub fn from_outcomes(plan: &ActionPlan, outcomes: Vec<Option<String>>) -> (r: ApplyReport)
        requires
            outcomes@.len() == plan.actions@.len(),
            plan.size * plan.actions@.len() <= u64::MAX,
        ensures
            pviews(r.succeeded@) == succeeded_paths(plan.action_paths(), outcomes@, outcomes@.len() as int),
            r.failed@.map_values(|e: FileError| (pview(e.path), e.message@)) == failed_entries(
                plan.action_paths(),
                outcomes@,
                outcomes@.len() as int,
            ),
            r.bytes_reclaimed == plan.size * r.succeeded@.len(),
            r.succeeded@.len() + r.failed@.len() == plan.actions@.len(),
    {
        let ghost paths = plan.action_paths();
        proof {
            lemma_outcome_counts(paths, outcomes@, outcomes@.len() as int);
        }
        let ghost all = outcomes@;
        let mut outcomes = outcomes;
        let mut rest: Vec<Option<String>> = Vec::new();
        // Take the outcomes off the back, then walk them front to back.
        while outcomes.len() > 0
            invariant
                all == outcomes@ + rest@.reverse(),
            decreases outcomes@.len(),
        {
            let ghost before = outcomes@;
            let o = outcomes.pop().unwrap();
            proof {
                assert(before =~= outcomes@.push(o));
            }
            rest.push(o);
            assert(rest@.reverse() =~= seq![o] + (rest@.drop_last()).reverse());
            assert(all =~= outcomes@ + rest@.reverse());
        }
        assert(rest@.reverse() =~= all);
        let mut succeeded: Vec<FsPath> = Vec::new();
        let mut failed: Vec<FileError> = Vec::new();
        let mut bytes_reclaimed: u64 = 0;
        let mut i: usize = 0;
        let n = plan.actions.len();
        while rest.len() > 0
            invariant
                n == all.len(),
                paths == plan.action_paths(),
                all.len() == plan.actions@.len(),
                plan.size * plan.actions@.len() <= u64::MAX,
                i + rest@.len() == all.len(),
                rest@.reverse() == all.skip(i as int),
                pviews(succeeded@) == succeeded_paths(paths, all, i as int),
                failed@.map_values(|e: FileError| (pview(e.path), e.message@)) == failed_entries(
                    paths,
                    all,
                    i as int,
                ),
                bytes_reclaimed == plan.size * succeeded@.len(),
                succeeded@.len() <= i,
            decreases rest@.len(),
        {
            let ghost before = rest@;
            let o = rest.pop().unwrap();
            proof {
                assert(before.reverse()[0] == o);
                assert(all.skip(i as int)[0] == all[i as int]);
                assert(rest@.reverse() =~= before.reverse().drop_first());
                assert(all.skip(i + 1) =~= all.skip(i as int).drop_first());
            }
            let path = clone_path(&plan.actions[i].path);
            let ghost sv = succeeded@;
            let ghost fv = failed@;
            match o {
                None => {
                    proof {
                        vstd::arithmetic::mul::lemma_mul_upper_bound(
                            plan.size as int,
                            plan.size as int,
                            (sv.len() + 1) as int,
                            plan.actions@.len() as int,
                        );
                        vstd::arithmetic::mul::lemma_mul_is_distributive_add(plan.size as int, sv.len() as int, 1);
                    }
                    succeeded.push(path);
                    bytes_reclaimed = bytes_reclaimed + plan.size;
                    assert(pviews(succeeded@) =~= pviews(sv).push(paths[i as int]));
                },
                Some(message) => {
                    failed.push(FileError { path, message });
                    assert(failed@.map_values(|e: FileError| (pview(e.path), e.message@)) =~= fv.map_values(
                        |e: FileError| (pview(e.path), e.message@),
                    ).push((paths[i as int], all[i as int]->0@)));
                },
            }
            i = i + 1;
        }
        ApplyReport { succeeded, failed, bytes_reclaimed }
    }
}

/// The temporary name next to `path` that a replacement is first written
/// to before being renamed over `path`: `.rusty-fclone-tmp-<name>-<unique>`
/// in `path`'s folder (or inside `path` when it has no file name).
pub open spec fn tmp_sibling_of(p: Seq<Seq<char>>, unique: u128) -> Seq<Seq<char>> {
    let name = match crate::traversal::file_name(p) {
        Some(n) => n,
        None => Seq::empty(),
    };
    let tmp = ".rusty-fclone-tmp-"@ + name + "-"@ + crate::preview::decimal(unique as nat);
    match crate::traversal::file_name(p) {
        Some(_) => p.drop_last().push(tmp),
        None => p.push(tmp),
    }
}

/// The temporary sibling of `path` for a replacement, `unique` keeping it
/// apart from any other.
pub fn tmp_sibling(path: &FsPath, unique: u128) -> (r: FsPath)
    ensures
        pview(r) == tmp_sibling_of(pview(*path), unique),
{
    let n = path.len();
    let slash = "/";
    let dot = ".";
    let dotdot = "..";
    proof {
        reveal_strlit("/");
        reveal_strlit(".");
        reveal_strlit("..");
    }
    let has_name = n > 0 && !(crate::text::text_eq(path[n - 1].as_str(), slash) || crate::text::text_eq(
        path[n - 1].as_str(),
        dot,
    ) || crate::text::text_eq(path[n - 1].as_str(), dotdot));
    assert(n > 0 ==> pview(*path).last() == path@[n - 1]@);
    assert(has_name == (crate::traversal::file_name(pview(*path)) is Some));
    let mut tmp = String::from_str(".rusty-fclone-tmp-");
    if has_name {
        tmp.append(path[n - 1].as_str());
    }
    tmp.append("-");
    let u = crate::preview::decimal_string(unique);
    tmp.append(u.as_str());
    let mut out: FsPath = Vec::new();
    let keep = if has_name { n - 1 } else { n };
    let mut i: usize = 0;
    while i < keep
        invariant
            keep <= n,
            n == path@.len(),
            i <= keep,
            pview(out) == pview(*path).take(i as int),
        decreases keep - i,
    {
        let ghost before = pview(out);
        out.push(path[i].clone());
        assert(pview(out) =~= before.push(path@[i as int]@));
        assert(pview(*path).take(i + 1) =~= pview(*path).take(i as int).push(path@[i as int]@));
        i = i + 1;
    }
    if has_name {
        assert(pview(*path).take(keep as int) =~= pview(*path).drop_last());
    } else {
        assert(pview(*path).take(keep as int) =~= pview(*path));
    }
    out.push(tmp);
    assert(pview(out) =~= tmp_sibling_of(pview(*path), unique));
    out
}

/// Where a moved or copied redundant copy goes: its own path, less the
/// root, underneath the archive folder, so equal names from different
/// folders never collide.
pub open spec fn archive_target(archive: Seq<Seq<char>>, p: Seq<Seq<char>>) -> Seq<Seq<char>> {
    if p.len() > 0 && p[0] == "/"@ {
        archive + p.skip(1)
    } else {
        archive + p
    }
}

/// The archive path of `path` under `archive_dir`.
pub fn archive_destination(archive_dir: &FsPath, path: &FsPath) -> (r: FsPath)
    ensures
        pview(r) == archive_target(pview(*archive_dir), pview(*path)),
{
    proof {
        reveal_strlit("/");
    }
    let rooted = path.len() > 0 && crate::text::text_eq(path[0].as_str(), "/");
    assert(path@.len() > 0 ==> pview(*path)[0] == path@[0]@);
    let start: usize = if rooted { 1 } else { 0 };
    let rest = crate::paths::path_suffix(path, start);
    assert(pview(*path).skip(0) =~= pview(*path));
    crate::paths::path_concat(archive_dir, &rest)
}

} // verus!
