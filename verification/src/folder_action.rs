//! Turning a folder-level match into disk-space savings: every file of the
//! "removed" folder is paired with the partner at the same relative path in
//! the "kept" folder, and each pair is then acted on like a one-copy group.

use vstd::prelude::*;
use crate::action::{ActionKind, ActionKindView, succeeded_paths, failed_entries};
use crate::folder_dedup::{PathV, file_views, group_views, group_of, strictly_under, total_bytes, group_index_of,
    lemma_total_bytes_monotone};
use crate::model::{DuplicateGroup, FileError, FolderActionError, ListedFile, TreeListing};
use crate::paths::{FsPath, pview, pviews, clone_path, path_suffix, path_concat, paths_contain};
use crate::select::{protected_by, is_protected};

verus! {

/// One file of a folder match's removed side, paired with the partner path
/// under the kept side that holds identical content.
#[derive(Debug, Clone, PartialEq, Eq)]
pub struct FolderFilePair {
    pub remove: FsPath,
    pub keep: FsPath,
    pub size: u64,
}

/// What running an action over every file of `removed`, against its partner
/// in `kept`, would do; computed without touching the filesystem.
#[derive(Debug, Clone, PartialEq, Eq)]
pub struct FolderActionPlan {
    pub kind: ActionKind,
    pub kept: FsPath,
    pub removed: FsPath,
    pub pairs: Vec<FolderFilePair>,
    pub bytes_reclaimed: u64,
    /// Files under `removed` left out of `pairs` because a reference path
    /// protects them; while nonzero, `removed` is never pruned.
    pub protected_files_skipped: u64,
}

/// The outcome of running a folder plan.
#[derive(Debug, Clone, PartialEq, Eq)]
pub struct FolderApplyReport {
    pub succeeded: Vec<FsPath>,
    pub failed: Vec<FileError>,
    pub bytes_reclaimed: u64,
    /// Every planned file was removed and the emptied `removed` tree pruned.
    pub directory_removed: bool,
}

/// A planned pair by its components: removed path, partner, size.
pub open spec fn pair_views(pairs: Seq<FolderFilePair>) -> Seq<(PathV, PathV, u64)> {
    pairs.map_values(|p: FolderFilePair| (pview(p.remove), pview(p.keep), p.size))
}

/// The size recorded for every group.
pub open spec fn group_sizes(groups: Seq<DuplicateGroup>) -> Seq<u64> {
    groups.map_values(|g: DuplicateGroup| g.size)
}

/// The path under `kept` at the relative position `p` has under `removed`.
pub open spec fn partner_of(removed: PathV, kept: PathV, p: PathV) -> PathV {
    kept + p.skip(removed.len() as int)
}

/// A folder plan, or the first file without a confirmed partner.
pub enum FolderPlanView {
    Planned { pairs: Seq<(PathV, PathV, u64)>, bytes: nat, skipped: nat },
    Mismatch { path: PathV, partner: PathV },
}

/// `p` (of size `size`) belongs to a group of that size that also lists `partner`.
pub open spec fn confirmed(gsizes: Seq<u64>, gpaths: Seq<Seq<PathV>>, p: PathV, size: u64, partner: PathV) -> bool {
    match group_of(gpaths, p, gpaths.len() as int) {
        Some(g) => gsizes[g] == size && gpaths[g].contains(partner),
        None => false,
    }
}

/// Planning over the first `n` listed files of `removed`: a protected file is
/// skipped and counted; any other file must be confirmed against its partner,
/// and the first one that is not ends the plan.
pub open spec fn folder_plan_upto(
    removed: PathV,
    kept: PathV,
    files: Seq<(PathV, u64)>,
    gsizes: Seq<u64>,
    gpaths: Seq<Seq<PathV>>,
    refs: Seq<PathV>,
    n: int,
) -> FolderPlanView
    decreases n,
{
    if n <= 0 {
        FolderPlanView::Planned { pairs: Seq::empty(), bytes: 0, skipped: 0 }
    } else {
        let prev = folder_plan_upto(removed, kept, files, gsizes, gpaths, refs, n - 1);
        let f = files[n - 1];
        match prev {
            FolderPlanView::Mismatch { .. } => prev,
            FolderPlanView::Planned { pairs, bytes, skipped } => {
                if protected_by(f.0, refs) {
                    FolderPlanView::Planned { pairs, bytes, skipped: skipped + 1 }
                } else if confirmed(gsizes, gpaths, f.0, f.1, partner_of(removed, kept, f.0)) {
                    FolderPlanView::Planned {
                        pairs: pairs.push((f.0, partner_of(removed, kept, f.0), f.1)),
                        bytes: bytes + f.1 as nat,
                        skipped,
                    }
                } else {
                    FolderPlanView::Mismatch { path: f.0, partner: partner_of(removed, kept, f.0) }
                }
            },
        }
    }
}

/// After the listed files, the entries of `removed` that could not be
/// confirmed at all (`unread`, the first `n`): a protected one is counted as
/// skipped, any other ends the plan.
pub open spec fn unreadable_plan_upto(
    removed: PathV,
    kept: PathV,
    unread: Seq<PathV>,
    refs: Seq<PathV>,
    listed: FolderPlanView,
    n: int,
) -> FolderPlanView
    decreases n,
{
    if n <= 0 {
        listed
    } else {
        let prev = unreadable_plan_upto(removed, kept, unread, refs, listed, n - 1);
        match prev {
            FolderPlanView::Mismatch { .. } => prev,
            FolderPlanView::Planned { pairs, bytes, skipped } => {
                if protected_by(unread[n - 1], refs) {
                    FolderPlanView::Planned { pairs, bytes, skipped: skipped + 1 }
                } else {
                    FolderPlanView::Mismatch { path: unread[n - 1], partner: partner_of(removed, kept, unread[n - 1]) }
                }
            },
        }
    }
}

/// The plan over a whole listing of `removed`: its regular files in order,
/// then the entries it could not read.
pub open spec fn folder_plan(
    removed: FsPath,
    kept: FsPath,
    files: Seq<ListedFile>,
    unreadable: Seq<FsPath>,
    groups: Seq<DuplicateGroup>,
    refs: Seq<FsPath>,
) -> FolderPlanView {
    unreadable_plan_upto(
        pview(removed),
        pview(kept),
        pviews(unreadable),
        pviews(refs),
        folder_plan_upto(
            pview(removed),
            pview(kept),
            file_views(files),
            group_sizes(groups),
            group_views(groups),
            pviews(refs),
            files.len() as int,
        ),
        unreadable.len() as int,
    )
}

proof fn lemma_unreadable_plan(
    removed: PathV,
    kept: PathV,
    unread: Seq<PathV>,
    refs: Seq<PathV>,
    listed: FolderPlanView,
    n: int,
)
    requires
        0 <= n <= unread.len(),
    ensures
        unreadable_plan_upto(removed, kept, unread, refs, listed, n) matches FolderPlanView::Planned {
            pairs,
            bytes,
            skipped,
        } ==> (listed matches FolderPlanView::Planned { pairs: p0, bytes: b0, skipped: s0 } && pairs == p0
            && bytes == b0 && skipped == s0 + n && forall|k: int| 0 <= k < n ==> protected_by(
            #[trigger] unread[k],
            refs,
        )),
        listed is Mismatch ==> unreadable_plan_upto(removed, kept, unread, refs, listed, n) == listed,
    decreases n,
{
    if n > 0 {
        lemma_unreadable_plan(removed, kept, unread, refs, listed, n - 1);
    }
}

proof fn lemma_unreadable_mismatch_stays(
    removed: PathV,
    kept: PathV,
    unread: Seq<PathV>,
    refs: Seq<PathV>,
    listed: FolderPlanView,
    i: int,
    n: int,
)
    requires
        0 <= i <= n,
        unreadable_plan_upto(removed, kept, unread, refs, listed, i) is Mismatch,
    ensures
        unreadable_plan_upto(removed, kept, unread, refs, listed, n) == unreadable_plan_upto(
            removed,
            kept,
            unread,
            refs,
            listed,
            i,
        ),
    decreases n - i,
{
    if i < n {
        lemma_unreadable_mismatch_stays(removed, kept, unread, refs, listed, i, n - 1);
    }
}

proof fn lemma_plan_bytes_bounded(
    removed: PathV,
    kept: PathV,
    files: Seq<(PathV, u64)>,
    gsizes: Seq<u64>,
    gpaths: Seq<Seq<PathV>>,
    refs: Seq<PathV>,
    n: int,
)
    requires
        0 <= n <= files.len(),
    ensures
        folder_plan_upto(removed, kept, files, gsizes, gpaths, refs, n) matches FolderPlanView::Planned {
            pairs,
            bytes,
            skipped,
        } ==> bytes <= total_bytes(files, n) && skipped <= n && pairs.len() + skipped == n,
    decreases n,
{
    if n > 0 {
        lemma_plan_bytes_bounded(removed, kept, files, gsizes, gpaths, refs, n - 1);
    }
}

proof fn lemma_mismatch_stays(
    removed: PathV,
    kept: PathV,
    files: Seq<(PathV, u64)>,
    gsizes: Seq<u64>,
    gpaths: Seq<Seq<PathV>>,
    refs: Seq<PathV>,
    i: int,
    n: int,
)
    requires
        0 <= i <= n,
        folder_plan_upto(removed, kept, files, gsizes, gpaths, refs, i) is Mismatch,
    ensures
        folder_plan_upto(removed, kept, files, gsizes, gpaths, refs, n) == folder_plan_upto(
            removed,
            kept,
            files,
            gsizes,
            gpaths,
            refs,
            i,
        ),
    decreases n - i,
{
    if i < n {
        lemma_mismatch_stays(removed, kept, files, gsizes, gpaths, refs, i, n - 1);
    }
}

/// The total size of `pairs`.
pub open spec fn pair_bytes(pairs: Seq<(PathV, PathV, u64)>) -> nat
    decreases pairs.len(),
{
    if pairs.len() == 0 {
        0
    } else {
        pair_bytes(pairs.drop_last()) + pairs.last().2 as nat
    }
}

proof fn lemma_plan_upto_sound(
    removed: PathV,
    kept: PathV,
    files: Seq<(PathV, u64)>,
    gsizes: Seq<u64>,
    gpaths: Seq<Seq<PathV>>,
    refs: Seq<PathV>,
    n: int,
)
    requires
        0 <= n <= files.len(),
    ensures
        folder_plan_upto(removed, kept, files, gsizes, gpaths, refs, n) matches FolderPlanView::Planned {
            pairs,
            bytes,
            skipped,
        } ==> {
            &&& pairs.len() + skipped == n
            &&& bytes == pair_bytes(pairs)
            &&& forall|k: int|
                0 <= k < pairs.len() ==> {
                    let q = #[trigger] pairs[k];
                    &&& !protected_by(q.0, refs)
                    &&& q.1 == partner_of(removed, kept, q.0)
                    &&& confirmed(gsizes, gpaths, q.0, q.2, q.1)
                    &&& exists|j: int| 0 <= j < n && files[j] == (q.0, q.2)
                }
        },
    decreases n,
{
    if n > 0 {
        lemma_plan_upto_sound(removed, kept, files, gsizes, gpaths, refs, n - 1);
        let cur = folder_plan_upto(removed, kept, files, gsizes, gpaths, refs, n);
        let prev = folder_plan_upto(removed, kept, files, gsizes, gpaths, refs, n - 1);
        if let FolderPlanView::Planned { pairs, bytes, skipped } = cur {
            if let FolderPlanView::Planned { pairs: pp, bytes: pb, skipped: ps } = prev {
                if pairs.len() > pp.len() {
                    assert(pairs.drop_last() =~= pp);
                    assert forall|k: int| 0 <= k < pairs.len() implies {
                        let q = #[trigger] pairs[k];
                        exists|j: int| 0 <= j < n && files[j] == (q.0, q.2)
                    } by {
                        if k < pp.len() {
                            assert(pairs[k] == pp[k]);
                            let j = choose|j: int| 0 <= j < n - 1 && files[j] == (pp[k].0, pp[k].2);
                            assert(files[j] == (pairs[k].0, pairs[k].2));
                        } else {
                            assert(files[n - 1] == (pairs[k].0, pairs[k].2));
                        }
                    }
                }
            }
        }
    }
}

/// Folder-plan guardrail: every entry of the listing is either paired or
/// counted as protected, so a plan exists only when every entry that could
/// not be read is protected; no paired file is protected; each is paired
/// with the partner at its relative position under `kept`, confirmed by
/// the group that lists it at its size; and the bytes reclaimed are the sum
/// of the paired sizes.
pub proof fn lemma_folder_plan_guardrail(
    removed: FsPath,
    kept: FsPath,
    files: Seq<ListedFile>,
    unreadable: Seq<FsPath>,
    groups: Seq<DuplicateGroup>,
    refs: Seq<FsPath>,
)
    ensures
        folder_plan(removed, kept, files, unreadable, groups, refs) matches FolderPlanView::Planned {
            pairs,
            bytes,
            skipped,
        } ==> {
            &&& pairs.len() + skipped == files.len() + unreadable.len()
            &&& bytes == pair_bytes(pairs)
            &&& forall|k: int| 0 <= k < unreadable.len() ==> protected_by(pview(#[trigger] unreadable[k]), pviews(refs))
            &&& forall|k: int|
                0 <= k < pairs.len() ==> {
                    let q = #[trigger] pairs[k];
                    &&& !protected_by(q.0, pviews(refs))
                    &&& q.1 == partner_of(pview(removed), pview(kept), q.0)
                    &&& confirmed(group_sizes(groups), group_views(groups), q.0, q.2, q.1)
                    &&& exists|j: int| 0 <= j < files.len() && (pview(files[j].path), files[j].size) == (q.0, q.2)
                }
        },
{
    let fv = file_views(files);
    let listed = folder_plan_upto(
        pview(removed),
        pview(kept),
        fv,
        group_sizes(groups),
        group_views(groups),
        pviews(refs),
        files.len() as int,
    );
    lemma_plan_upto_sound(
        pview(removed),
        pview(kept),
        fv,
        group_sizes(groups),
        group_views(groups),
        pviews(refs),
        files.len() as int,
    );
    lemma_unreadable_plan(pview(removed), pview(kept), pviews(unreadable), pviews(refs), listed, unreadable.len() as int);
    if let FolderPlanView::Planned { pairs, bytes, skipped } = folder_plan(removed, kept, files, unreadable, groups, refs) {
        assert forall|k: int| 0 <= k < unreadable.len() implies protected_by(pview(#[trigger] unreadable[k]), pviews(refs)) by {
            assert(pviews(unreadable)[k] == pview(unreadable[k]));
        }
        assert forall|k: int| 0 <= k < pairs.len() implies {
            let q = #[trigger] pairs[k];
            exists|j: int| 0 <= j < files.len() && (pview(files[j].path), files[j].size) == (q.0, q.2)
        } by {
            let q = pairs[k];
            let j = choose|j: int| 0 <= j < files.len() && fv[j] == (q.0, q.2);
            assert(fv[j] == (pview(files[j].path), files[j].size));
        }
    }
}

/// Plans `kind` for every file under `removed`, pairing each with the path
/// at the same relative position under `kept`. `listing` is a stat-only
/// traversal of `removed` with no filters: every regular file below it in
/// `files`, and every other entry below it that is not a directory (one
/// that could not be read, a symlink, a special file) in `unreadable`. The
/// pairing trusts `groups` from the scan that produced the folder match: a
/// file counts as confirmed when its last group has the file's current size
/// and also lists the partner; an unreadable entry is never confirmed.
/// Fails closed: the first unconfirmed file, in listing order and then the
/// unreadable entries, yields `NoConfirmedDuplicate` and no plan at all.
/// Entries protected by `reference_paths` are never paired; they are counted
/// in `protected_files_skipped`.
pub fn plan_folder(
    removed: &FsPath,
    kept: &FsPath,
    groups: &Vec<DuplicateGroup>,
    listing: &TreeListing,
    kind: ActionKind,
    reference_paths: &Vec<FsPath>,
) -> (r: Result<FolderActionPlan, FolderActionError>)
    requires
        forall|i: int|
            0 <= i < listing.files@.len() ==> strictly_under(
                pview(#[trigger] listing.files@[i].path),
                pview(*removed),
            ),
        forall|i: int|
            0 <= i < listing.unreadable@.len() ==> strictly_under(pview(#[trigger] listing.unreadable@[i]), pview(*removed)),
        listing.files@.len() + listing.unreadable@.len() <= u64::MAX,
        total_bytes(file_views(listing.files@), listing.files@.len() as int) <= u64::MAX,
    ensures
        !listing.is_dir ==> (r matches Err(FolderActionError::NotADirectory(p)) && pview(p) == pview(*removed)),
        listing.is_dir ==> match folder_plan(*removed, *kept, listing.files@, listing.unreadable@, groups@, reference_paths@) {
            FolderPlanView::Planned { pairs, bytes, skipped } => r matches Ok(plan) && plan.kind.kview()
                == kind.kview() && pview(plan.kept) == pview(*kept) && pview(plan.removed) == pview(*removed)
                && pair_views(plan.pairs@) == pairs && plan.bytes_reclaimed == bytes
                && plan.protected_files_skipped == skipped,
            FolderPlanView::Mismatch { path, partner } => r matches Err(
                FolderActionError::NoConfirmedDuplicate { path: p, expected_partner: q },
            ) && pview(p) == path && pview(q) == partner,
        },
{
    if !listing.is_dir {
        return Err(FolderActionError::NotADirectory(clone_path(removed)));
    }
    let files = &listing.files;
    let ghost rv = pview(*removed);
    let ghost kv = pview(*kept);
    let ghost fv = file_views(files@);
    let ghost gs = group_sizes(groups@);
    let ghost gv = group_views(groups@);
    let ghost refs = pviews(reference_paths@);
    let mut pairs: Vec<FolderFilePair> = Vec::new();
    let mut bytes: u64 = 0;
    let mut skipped: u64 = 0;
    let mut i: usize = 0;
    assert(pair_views(pairs@) =~= Seq::<(PathV, PathV, u64)>::empty());
    while i < files.len()
        invariant
            listing.is_dir,
            files@ == listing.files@,
            rv == pview(*removed),
            kv == pview(*kept),
            fv == file_views(files@),
            gs == group_sizes(groups@),
            gv == group_views(groups@),
            refs == pviews(reference_paths@),
            forall|k: int| 0 <= k < files@.len() ==> strictly_under(pview(#[trigger] files@[k].path), rv),
            total_bytes(fv, fv.len() as int) <= u64::MAX,
            i <= files@.len(),
            folder_plan_upto(rv, kv, fv, gs, gv, refs, i as int) == (FolderPlanView::Planned {
                pairs: pair_views(pairs@),
                bytes: bytes as nat,
                skipped: skipped as nat,
            }),
        decreases files@.len() - i,
    {
        let f = &files[i];
        assert(fv[i as int] == (pview(f.path), f.size));
        proof {
            lemma_plan_bytes_bounded(rv, kv, fv, gs, gv, refs, i + 1);
            lemma_total_bytes_monotone(fv, i + 1, fv.len() as int);
        }
        if is_protected(&f.path, reference_paths) {
            skipped = skipped + 1;
        } else {
            let rel = path_suffix(&f.path, removed.len());
            let partner = path_concat(kept, &rel);
            assert(pview(partner) == partner_of(rv, kv, fv[i as int].0));
            let ok = match group_index_of(groups, &f.path) {
                Some(g) => {
                    assert(gs[g as int] == groups@[g as int].size);
                    assert(gv[g as int] == groups@[g as int].path_views());
                    groups[g].size == f.size && paths_contain(&groups[g].paths, &partner)
                },
                None => false,
            };
            assert(ok == confirmed(gs, gv, fv[i as int].0, fv[i as int].1, partner_of(rv, kv, fv[i as int].0)));
            if !ok {
                proof {
                    assert(folder_plan_upto(rv, kv, fv, gs, gv, refs, i + 1) == (FolderPlanView::Mismatch {
                        path: pview(f.path),
                        partner: pview(partner),
                    }));
                    lemma_mismatch_stays(rv, kv, fv, gs, gv, refs, i + 1, fv.len() as int);
                    assert(fv.len() == listing.files@.len());
                    lemma_unreadable_plan(
                        rv,
                        kv,
                        pviews(listing.unreadable@),
                        refs,
                        folder_plan_upto(rv, kv, fv, gs, gv, refs, fv.len() as int),
                        listing.unreadable@.len() as int,
                    );
                }
                let path = clone_path(&f.path);
                return Err(FolderActionError::NoConfirmedDuplicate { path, expected_partner: partner });
            }
            let ghost before = pair_views(pairs@);
            bytes = bytes + f.size;
            pairs.push(FolderFilePair { remove: clone_path(&f.path), keep: partner, size: f.size });
            assert(pair_views(pairs@) =~= before.push((fv[i as int].0, partner_of(rv, kv, fv[i as int].0), f.size)));
        }
        i = i + 1;
    }
    let ghost listed = folder_plan_upto(rv, kv, fv, gs, gv, refs, fv.len() as int);
    let ghost uv = pviews(listing.unreadable@);
    proof {
        lemma_plan_bytes_bounded(rv, kv, fv, gs, gv, refs, fv.len() as int);
    }
    let unreadable = &listing.unreadable;
    let mut u: usize = 0;
    while u < unreadable.len()
        invariant
            listing.is_dir,
            unreadable@ == listing.unreadable@,
            rv == pview(*removed),
            kv == pview(*kept),
            refs == pviews(reference_paths@),
            uv == pviews(unreadable@),
            listed == folder_plan_upto(
                rv,
                kv,
                file_views(listing.files@),
                group_sizes(groups@),
                group_views(groups@),
                refs,
                listing.files@.len() as int,
            ),
            forall|k: int| 0 <= k < unreadable@.len() ==> strictly_under(pview(#[trigger] unreadable@[k]), rv),
            listing.files@.len() + unreadable@.len() <= u64::MAX,
            u <= unreadable@.len(),
            skipped <= listing.files@.len() + u,
            unreadable_plan_upto(rv, kv, uv, refs, listed, u as int) == (FolderPlanView::Planned {
                pairs: pair_views(pairs@),
                bytes: bytes as nat,
                skipped: skipped as nat,
            }),
        decreases unreadable@.len() - u,
    {
        let q = &unreadable[u];
        assert(uv[u as int] == pview(*q));
        if is_protected(q, reference_paths) {
            skipped = skipped + 1;
        } else {
            let rel = path_suffix(q, removed.len());
            let partner = path_concat(kept, &rel);
            assert(pview(partner) == partner_of(rv, kv, uv[u as int]));
            proof {
                assert(unreadable_plan_upto(rv, kv, uv, refs, listed, u + 1) == (FolderPlanView::Mismatch {
                    path: pview(*q),
                    partner: pview(partner),
                }));
                lemma_unreadable_mismatch_stays(rv, kv, uv, refs, listed, u + 1, uv.len() as int);
            }
            let path = clone_path(q);
            return Err(FolderActionError::NoConfirmedDuplicate { path, expected_partner: partner });
        }
        u = u + 1;
    }
    Ok(
        FolderActionPlan {
            kind,
            kept: clone_path(kept),
            removed: clone_path(removed),
            pairs,
            bytes_reclaimed: bytes,
            protected_files_skipped: skipped,
        },
    )
}

/// The removed side of every pair.
pub open spec fn removed_views(pairs: Seq<FolderFilePair>) -> Seq<PathV> {
    pairs.map_values(|p: FolderFilePair| pview(p.remove))
}

/// The total size of the first `n` pairs whose outcome is a success.
pub open spec fn succeeded_bytes(pairs: Seq<FolderFilePair>, outcomes: Seq<Option<String>>, n: int) -> nat
    decreases n,
{
    if n <= 0 {
        0
    } else if outcomes[n - 1] is None {
        succeeded_bytes(pairs, outcomes, n - 1) + pairs[n - 1].size as nat
    } else {
        succeeded_bytes(pairs, outcomes, n - 1)
    }
}

proof fn lemma_succeeded_bytes_bounded(pairs: Seq<FolderFilePair>, outcomes: Seq<Option<String>>, n: int)
    requires
        0 <= n <= pairs.len(),
    ensures
        succeeded_bytes(pairs, outcomes, n) <= pair_bytes(pair_views(pairs.take(n))),
    decreases n,
{
    if n > 0 {
        lemma_succeeded_bytes_bounded(pairs, outcomes, n - 1);
        assert(pair_views(pairs.take(n)).drop_last() =~= pair_views(pairs.take(n - 1)));
    }
}

proof fn lemma_pair_bytes_prefix(pairs: Seq<FolderFilePair>, i: int, n: int)
    requires
        0 <= i <= n <= pairs.len(),
    ensures
        pair_bytes(pair_views(pairs.take(i))) <= pair_bytes(pair_views(pairs.take(n))),
    decreases n - i,
{
    if i < n {
        lemma_pair_bytes_prefix(pairs, i, n - 1);
        assert(pair_views(pairs.take(n)).drop_last() =~= pair_views(pairs.take(n - 1)));
    }
}

impl FolderApplyReport {
    /// The report for `plan` once each pair was acted on: `outcomes[i]` is
    /// `None` where the action on `plan.pairs[i]` succeeded and the error
    /// message where it failed. Every success frees its pair's size. Whether
    /// the folder itself was pruned is decided afterwards (see
    /// `prunes_directory`), so `directory_removed` starts out false.
    pub fn from_outcomes(plan: &FolderActionPlan, outcomes: &Vec<Option<String>>) -> (r: FolderApplyReport)
        requires
            outcomes@.len() == plan.pairs@.len(),
            pair_bytes(pair_views(plan.pairs@)) <= u64::MAX,
        ensures
            pviews(r.succeeded@) == succeeded_paths(removed_views(plan.pairs@), outcomes@, outcomes@.len() as int),
            r.failed@.map_values(|e: FileError| (pview(e.path), e.message@)) == failed_entries(
                removed_views(plan.pairs@),
                outcomes@,
                outcomes@.len() as int,
            ),
            r.bytes_reclaimed == succeeded_bytes(plan.pairs@, outcomes@, outcomes@.len() as int),
            !r.directory_removed,
            r.succeeded@.len() + r.failed@.len() == plan.pairs@.len(),
    {
        proof {
            crate::action::lemma_outcome_counts(removed_views(plan.pairs@), outcomes@, outcomes@.len() as int);
        }
        let ghost paths = removed_views(plan.pairs@);
        let mut succeeded: Vec<FsPath> = Vec::new();
        let mut failed: Vec<FileError> = Vec::new();
        let mut bytes: u64 = 0;
        let mut i: usize = 0;
        assert(pviews(succeeded@) =~= Seq::<PathV>::empty());
        assert(failed@.map_values(|e: FileError| (pview(e.path), e.message@)) =~= Seq::<(PathV, Seq<char>)>::empty());
        while i < outcomes.len()
            invariant
                paths == removed_views(plan.pairs@),
                outcomes@.len() == plan.pairs@.len(),
                pair_bytes(pair_views(plan.pairs@)) <= u64::MAX,
                i <= outcomes@.len(),
                pviews(succeeded@) == succeeded_paths(paths, outcomes@, i as int),
                failed@.map_values(|e: FileError| (pview(e.path), e.message@)) == failed_entries(
                    paths,
                    outcomes@,
                    i as int,
                ),
                bytes == succeeded_bytes(plan.pairs@, outcomes@, i as int),
            decreases outcomes@.len() - i,
        {
            let path = clone_path(&plan.pairs[i].remove);
            assert(paths[i as int] == pview(plan.pairs@[i as int].remove));
            let ghost sv = succeeded@;
            let ghost fv = failed@;
            match &outcomes[i] {
                None => {
                    proof {
                        lemma_succeeded_bytes_bounded(plan.pairs@, outcomes@, i + 1);
                        lemma_pair_bytes_prefix(plan.pairs@, i + 1, plan.pairs@.len() as int);
                        assert(plan.pairs@.take(plan.pairs@.len() as int) =~= plan.pairs@);
                    }
                    bytes = bytes + plan.pairs[i].size;
                    succeeded.push(path);
                    assert(pviews(succeeded@) =~= pviews(sv).push(paths[i as int]));
                },
                Some(message) => {
                    failed.push(FileError { path, message: message.clone() });
                    assert(failed@.map_values(|e: FileError| (pview(e.path), e.message@)) =~= fv.map_values(
                        |e: FileError| (pview(e.path), e.message@),
                    ).push((paths[i as int], outcomes@[i as int]->0@)));
                },
            }
            i = i + 1;
        }
        FolderApplyReport { succeeded, failed, bytes_reclaimed: bytes, directory_removed: false }
    }
}

/// Whether the emptied `removed` folder may be pruned after carrying out
/// `plan`: only for delete or trash, only when no protected file was left in
/// it, and only when every planned file action succeeded.
pub fn prunes_directory(plan: &FolderActionPlan, report: &FolderApplyReport) -> (r: bool)
    ensures
        r == ((plan.kind.kview() is Delete || plan.kind.kview() is Trash) && plan.protected_files_skipped == 0
            && report.failed@.len() == 0),
{
    let removes = match plan.kind {
        ActionKind::Delete => true,
        ActionKind::Trash => true,
        _ => false,
    };
    removes && plan.protected_files_skipped == 0 && report.failed.len() == 0
}

} // verus!
