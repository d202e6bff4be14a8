//! The decisions of the command-line front end: which action a flag names,
//! what counts as a yes at the confirmation prompt, which duplicate groups a
//! folder match already covers, which folder of a match is kept, and how a
//! run's outcomes are tallied and recorded.

use vstd::prelude::*;
use crate::action::{ActionKind, ActionKindView, ActionPlan, ApplyReport};
use crate::folder_dedup::{FolderMatch, PathV};
use crate::model::{DuplicateGroup, FileError, ScanEvent, ScanSummary};
use crate::order::{path_le, lemma_path_total};
use crate::paths::{FsPath, pview, pviews, starts_with, path_starts_with, clone_path, path_eq, path_le_exec,
    path_concat, path_suffix};
use crate::select::Rule;
use crate::text::{trim, trim_text, eq_ignore_ascii_case, eq_ignore_ascii_case_exec};
use crate::traversal::file_name;

verus! {

/// What to do with redundant copies: report only, or one of the actions.
#[derive(Debug, Clone, Copy, PartialEq, Eq, Structural)]
pub enum Action {
    Report,
    Delete,
    Trash,
    Hardlink,
    Reflink,
    Move,
    Copy,
}

impl Action {
    /// The action kind to run, `None` for a report. `move` and `copy` need
    /// the archive folder and fail without it, naming the action.
    pub fn as_core_kind(self, archive_dir: Option<&FsPath>) -> (r: Result<Option<ActionKind>, String>)
        ensures
            self == Action::Report ==> r == Ok::<Option<ActionKind>, String>(None),
            self == Action::Delete ==> r == Ok::<Option<ActionKind>, String>(Some(ActionKind::Delete)),
            self == Action::Trash ==> r == Ok::<Option<ActionKind>, String>(Some(ActionKind::Trash)),
            self == Action::Hardlink ==> r == Ok::<Option<ActionKind>, String>(Some(ActionKind::Hardlink)),
            self == Action::Reflink ==> r == Ok::<Option<ActionKind>, String>(Some(ActionKind::Reflink)),
            self == Action::Move ==> match archive_dir {
                Some(d) => r matches Ok(Some(k)) && k.kview() == ActionKindView::Move(pview(*d)),
                None => r matches Err(e) && e@ == "--action move requires --archive-dir <PATH>"@,
            },
            self == Action::Copy ==> match archive_dir {
                Some(d) => r matches Ok(Some(k)) && k.kview() == ActionKindView::Copy(pview(*d)),
                None => r matches Err(e) && e@ == "--action copy requires --archive-dir <PATH>"@,
            },
    {
        match self {
            Action::Report => Ok(None),
            Action::Delete => Ok(Some(ActionKind::Delete)),
            Action::Trash => Ok(Some(ActionKind::Trash)),
            Action::Hardlink => Ok(Some(ActionKind::Hardlink)),
            Action::Reflink => Ok(Some(ActionKind::Reflink)),
            Action::Move => match archive_dir {
                Some(d) => Ok(Some(ActionKind::Move(clone_path(d)))),
                None => Err(String::from_str("--action move requires --archive-dir <PATH>")),
            },
            Action::Copy => match archive_dir {
                Some(d) => Ok(Some(ActionKind::Copy(clone_path(d)))),
                None => Err(String::from_str("--action copy requires --archive-dir <PATH>")),
            },
        }
    }
}

/// Which copy to keep in each group.
#[derive(Debug, Clone, Copy, PartialEq, Eq, Structural)]
pub enum KeepRule {
    Alphabetical,
    Newest,
    Oldest,
    ShortestPath,
    LongestPath,
}

impl Default for KeepRule {
    fn default() -> (r: Self)
        ensures
            r == KeepRule::Alphabetical,
    {
        KeepRule::Alphabetical
    }
}

impl KeepRule {
    /// The selection rule this names.
    pub fn as_core_rule(self) -> (r: Rule)
        ensures
            r == match self {
                KeepRule::Alphabetical => Rule::AlphabeticallyFirst,
                KeepRule::Newest => Rule::Newest,
                KeepRule::Oldest => Rule::Oldest,
                KeepRule::ShortestPath => Rule::ShortestPath,
                KeepRule::LongestPath => Rule::LongestPath,
            },
    {
        match self {
            KeepRule::Alphabetical => Rule::AlphabeticallyFirst,
            KeepRule::Newest => Rule::Newest,
            KeepRule::Oldest => Rule::Oldest,
            KeepRule::ShortestPath => Rule::ShortestPath,
            KeepRule::LongestPath => Rule::LongestPath,
        }
    }
}

/// The word naming an action kind in output and history.
pub open spec fn kind_word(k: ActionKindView) -> Seq<char> {
    match k {
        ActionKindView::Delete => "delete"@,
        ActionKindView::Trash => "trash"@,
        ActionKindView::Hardlink => "hardlink"@,
        ActionKindView::Reflink => "reflink"@,
        ActionKindView::Move(_) => "move"@,
        ActionKindView::Copy(_) => "copy"@,
    }
}

/// The word naming `kind`.
pub fn action_word(kind: &ActionKind) -> (r: &'static str)
    ensures
        r@ == kind_word(kind.kview()),
{
    match kind {
        ActionKind::Delete => "delete",
        ActionKind::Trash => "trash",
        ActionKind::Hardlink => "hardlink",
        ActionKind::Reflink => "reflink",
        ActionKind::Move(_) => "move",
        ActionKind::Copy(_) => "copy",
    }
}

/// The answer to the confirmation prompt: a line that, trimmed, is `y` or
/// `yes` in any ASCII case; nothing read counts as no.
pub open spec fn affirmative(line: Option<Seq<char>>) -> bool {
    match line {
        Some(l) => eq_ignore_ascii_case(trim(l), "y"@) || eq_ignore_ascii_case(trim(l), "yes"@),
        None => false,
    }
}

/// Decides the confirmation prompt from the line read, `None` when reading failed.
pub fn confirm(line: Option<&str>) -> (r: bool)
    ensures
        r == affirmative(match line {
            Some(l) => Some(l@),
            None => None,
        }),
{
    match line {
        Some(l) => {
            let t = trim_text(l);
            eq_ignore_ascii_case_exec(t.as_str(), "y") || eq_ignore_ascii_case_exec(t.as_str(), "yes")
        },
        None => false,
    }
}

/// The run asks at the terminal before acting: an action was asked for
/// with `--apply` but without `--yes`.
pub open spec fn asks_first(action_requested: bool, apply: bool, yes: bool) -> bool {
    action_requested && apply && !yes
}

/// The run carries its planned actions out: an action was asked for with
/// `--apply`, and either `--yes` was given or the prompt was answered yes.
/// In every other case each plan is only previewed.
pub open spec fn carries_out(action_requested: bool, apply: bool, yes: bool, confirmed: bool) -> bool {
    action_requested && apply && (yes || confirmed)
}

/// Whether the run must ask before acting.
pub fn must_confirm(action_requested: bool, apply: bool, yes: bool) -> (r: bool)
    ensures
        r == asks_first(action_requested, apply, yes),
{
    action_requested && apply && !yes
}

/// Whether the run acts on its plans rather than previewing them;
/// `confirmed` is the prompt's answer, where one was asked.
pub fn applies(action_requested: bool, apply: bool, yes: bool, confirmed: bool) -> (r: bool)
    ensures
        r == carries_out(action_requested, apply, yes, confirmed),
{
    action_requested && apply && (yes || confirmed)
}

/// Dry run by default: without `--apply` nothing is carried out, whatever
/// else was given; and where the run asks first, only a yes lets it act.
pub proof fn lemma_dry_run_by_default(action_requested: bool, apply: bool, yes: bool, confirmed: bool)
    ensures
        !apply ==> !carries_out(action_requested, apply, yes, confirmed),
        !action_requested ==> !carries_out(action_requested, apply, yes, confirmed),
        asks_first(action_requested, apply, yes) ==> (carries_out(action_requested, apply, yes, confirmed)
            == confirmed),
{
}

/// Every folder involved in a match: all folders of an exact cluster, both
/// sides of a containment.
pub open spec fn match_roots(ms: Seq<FolderMatch>) -> Seq<PathV>
    decreases ms.len(),
{
    if ms.len() == 0 {
        Seq::empty()
    } else {
        match_roots(ms.drop_last()) + match ms.last() {
            FolderMatch::Exact { folders, .. } => pviews(folders@),
            FolderMatch::Contained { subset, superset, .. } => seq![pview(subset), pview(superset)],
        }
    }
}

/// The folders involved in the matches, in order.
pub fn folder_match_roots(matches: &Vec<FolderMatch>) -> (r: Vec<FsPath>)
    ensures
        pviews(r@) == match_roots(matches@),
{
    let mut out: Vec<FsPath> = Vec::new();
    let mut i: usize = 0;
    assert(pviews(out@) =~= Seq::<PathV>::empty());
    while i < matches.len()
        invariant
            i <= matches@.len(),
            pviews(out@) == match_roots(matches@.take(i as int)),
        decreases matches@.len() - i,
    {
        assert(matches@.take(i + 1).drop_last() =~= matches@.take(i as int));
        assert(matches@.take(i + 1).last() == matches@[i as int]);
        match &matches[i] {
            FolderMatch::Exact { folders, .. } => {
                let mut k: usize = 0;
                let ghost start = pviews(out@);
                while k < folders.len()
                    invariant
                        k <= folders@.len(),
                        pviews(out@) == start + pviews(folders@).take(k as int),
                    decreases folders@.len() - k,
                {
                    let ghost before = pviews(out@);
                    out.push(clone_path(&folders[k]));
                    assert(pviews(out@) =~= before.push(pview(folders@[k as int])));
                    assert(pviews(folders@).take(k + 1) =~= pviews(folders@).take(k as int).push(
                        pview(folders@[k as int]),
                    ));
                    k = k + 1;
                }
                assert(pviews(folders@).take(folders@.len() as int) =~= pviews(folders@));
            },
            FolderMatch::Contained { subset, superset, .. } => {
                let ghost before = pviews(out@);
                out.push(clone_path(subset));
                out.push(clone_path(superset));
                assert(pviews(out@) =~= before + seq![pview(*subset), pview(*superset)]);
            },
        }
        i = i + 1;
    }
    assert(matches@.take(matches@.len() as int) =~= matches@);
    out
}

/// Every path of the group lies at or under one of `roots`, so the folder
/// matches already account for the whole group.
pub open spec fn fully_covered(paths: Seq<PathV>, roots: Seq<PathV>) -> bool {
    forall|i: int| 0 <= i < paths.len() ==> #[trigger] under_some(paths[i], roots)
}

/// `p` lies at or under one of `roots`.
pub open spec fn under_some(p: PathV, roots: Seq<PathV>) -> bool {
    exists|k: int| 0 <= k < roots.len() && starts_with(p, #[trigger] roots[k])
}

/// Whether the folder matches already cover `group` entirely.
pub fn group_fully_covered_by(group: &DuplicateGroup, roots: &Vec<FsPath>) -> (r: bool)
    ensures
        r == fully_covered(group.path_views(), pviews(roots@)),
{
    let mut i: usize = 0;
    while i < group.paths.len()
        invariant
            i <= group.paths@.len(),
            forall|q: int| 0 <= q < i ==> #[trigger] under_some(group.path_views()[q], pviews(roots@)),
        decreases group.paths@.len() - i,
    {
        let mut found = false;
        let mut k: usize = 0;
        while k < roots.len()
            invariant
                k <= roots@.len(),
                i < group.paths@.len(),
                found == exists|q: int| 0 <= q < k && starts_with(group.path_views()[i as int], #[trigger] pviews(roots@)[q]),
            decreases roots@.len() - k,
        {
            if path_starts_with(&group.paths[i], &roots[k]) {
                assert(starts_with(group.path_views()[i as int], pviews(roots@)[k as int]));
                found = true;
            }
            k = k + 1;
        }
        if !found {
            assert(!under_some(group.path_views()[i as int], pviews(roots@)));
            return false;
        }
        assert(under_some(group.path_views()[i as int], pviews(roots@)));
        i = i + 1;
    }
    true
}

/// The first smallest of `s` by path order.
pub open spec fn min_path(s: Seq<PathV>) -> PathV
    decreases s.len(),
{
    if s.len() <= 1 {
        s[0]
    } else {
        let m = min_path(s.drop_last());
        if path_le(m, s.last()) {
            m
        } else {
            s.last()
        }
    }
}

/// The folder pairs `(removed, kept)` a match is acted on as: a contained
/// subset against its superset; every folder of an exact cluster against
/// the cluster's first folder in path order.
pub open spec fn match_pairs(m: FolderMatch) -> Seq<(PathV, PathV)> {
    match m {
        FolderMatch::Contained { subset, superset, .. } => seq![(pview(subset), pview(superset))],
        FolderMatch::Exact { folders, .. } => {
            let kept = min_path(pviews(folders@));
            pviews(folders@).filter(|f: PathV| f != kept).map_values(|f: PathV| (f, kept))
        },
    }
}

/// The `(removed, kept)` folder pairs of a match.
pub fn folder_match_pairs(m: &FolderMatch) -> (r: Vec<(FsPath, FsPath)>)
    requires
        m matches FolderMatch::Exact { folders, .. } ==> folders@.len() >= 1,
    ensures
        r@.map_values(|e: (FsPath, FsPath)| (pview(e.0), pview(e.1))) == match_pairs(*m),
{
    match m {
        FolderMatch::Contained { subset, superset, .. } => {
            let mut out: Vec<(FsPath, FsPath)> = Vec::new();
            out.push((clone_path(subset), clone_path(superset)));
            assert(out@.map_values(|e: (FsPath, FsPath)| (pview(e.0), pview(e.1))) =~= match_pairs(*m));
            out
        },
        FolderMatch::Exact { folders, .. } => {
            let ghost fv = pviews(folders@);
            let mut best: usize = 0;
            let mut k: usize = 1;
            assert(fv.take(1) =~= seq![fv[0]]);
            while k < folders.len()
                invariant
                    fv == pviews(folders@),
                    1 <= k <= folders@.len(),
                    best < folders@.len(),
                    fv[best as int] == min_path(fv.take(k as int)),
                decreases folders@.len() - k,
            {
                assert(fv.take(k + 1).drop_last() =~= fv.take(k as int));
                assert(fv.take(k + 1).last() == fv[k as int]);
                if !path_le_exec(&folders[best], &folders[k]) {
                    best = k;
                }
                k = k + 1;
            }
            assert(fv.take(folders@.len() as int) =~= fv);
            let ghost kept = fv[best as int];
            let ghost keep = |f: PathV| f != kept;
            let ghost pair = |f: PathV| (f, kept);
            let mut out: Vec<(FsPath, FsPath)> = Vec::new();
            let mut i: usize = 0;
            assert(fv.take(0).filter(keep) =~= Seq::<PathV>::empty()) by {
                reveal(Seq::filter);
            }
            assert(out@.map_values(|e: (FsPath, FsPath)| (pview(e.0), pview(e.1))) =~= Seq::<(PathV, PathV)>::empty());
            while i < folders.len()
                invariant
                    fv == pviews(folders@),
                    best < folders@.len(),
                    kept == fv[best as int],
                    keep == (|f: PathV| f != kept),
                    pair == (|f: PathV| (f, kept)),
                    i <= folders@.len(),
                    out@.map_values(|e: (FsPath, FsPath)| (pview(e.0), pview(e.1))) == fv.take(i as int).filter(
                        keep,
                    ).map_values(pair),
                decreases folders@.len() - i,
            {
                proof {
                    assert(fv.take(i + 1) =~= fv.take(i as int).push(fv[i as int]));
                    fv.take(i as int).lemma_filter_push(fv[i as int], keep);
                }
                if !path_eq(&folders[i], &folders[best]) {
                    let ghost before = out@.map_values(|e: (FsPath, FsPath)| (pview(e.0), pview(e.1)));
                    out.push((clone_path(&folders[i]), clone_path(&folders[best])));
                    assert(out@.map_values(|e: (FsPath, FsPath)| (pview(e.0), pview(e.1))) =~= before.push(
                        pair(fv[i as int]),
                    ));
                }
                i = i + 1;
            }
            assert(fv.take(folders@.len() as int) =~= fv);
            out
        },
    }
}

/// What happened to one acted-on path, for the history record.
#[derive(Debug, Clone, PartialEq, Eq)]
pub struct ActionOutcome {
    pub path: FsPath,
    pub bytes: u64,
    pub succeeded: bool,
    /// The failure's message, when the path failed.
    pub error: Option<String>,
}

/// The message of the first failure recorded for `p`.
pub open spec fn first_failure(failed: Seq<FileError>, p: PathV) -> Option<Seq<char>>
    decreases failed.len(),
{
    if failed.len() == 0 {
        None
    } else if pview(failed[0].path) == p {
        Some(failed[0].message@)
    } else {
        first_failure(failed.drop_first(), p)
    }
}

fn first_failure_exec(failed: &Vec<FileError>, p: &FsPath) -> (r: Option<String>)
    ensures
        match first_failure(failed@, pview(*p)) {
            Some(m) => r matches Some(s) && s@ == m,
            None => r is None,
        },
{
    let mut i: usize = 0;
    assert(failed@.skip(0) =~= failed@);
    while i < failed.len()
        invariant
            i <= failed@.len(),
            first_failure(failed@, pview(*p)) == first_failure(failed@.skip(i as int), pview(*p)),
        decreases failed@.len() - i,
    {
        assert(failed@.skip(i as int)[0] == failed@[i as int]);
        assert(failed@.skip(i as int).drop_first() =~= failed@.skip(i + 1));
        if path_eq(&failed[i].path, p) {
            return Some(failed[i].message.clone());
        }
        i = i + 1;
    }
    assert(failed@.skip(i as int) =~= Seq::<FileError>::empty());
    None
}

/// Correlates every planned `(path, bytes)` entry with its real outcome: it
/// succeeded when the report lists it as succeeded, and carries the message
/// of the first failure recorded for it, if any.
pub fn action_outcomes(entries: &Vec<(FsPath, u64)>, succeeded: &Vec<FsPath>, failed: &Vec<FileError>) -> (r: Vec<
    ActionOutcome,
>)
    ensures
        r@.len() == entries@.len(),
        forall|k: int|
            0 <= k < r@.len() ==> {
                let o = #[trigger] r@[k];
                &&& pview(o.path) == pview(entries@[k].0)
                &&& o.bytes == entries@[k].1
                &&& o.succeeded == pviews(succeeded@).contains(pview(entries@[k].0))
                &&& match first_failure(failed@, pview(entries@[k].0)) {
                    Some(m) => o.error matches Some(s) && s@ == m,
                    None => o.error is None,
                }
            },
{
    let mut out: Vec<ActionOutcome> = Vec::new();
    let mut i: usize = 0;
    while i < entries.len()
        invariant
            i <= entries@.len(),
            out@.len() == i,
            forall|k: int|
                0 <= k < i ==> {
                    let o = #[trigger] out@[k];
                    &&& pview(o.path) == pview(entries@[k].0)
                    &&& o.bytes == entries@[k].1
                    &&& o.succeeded == pviews(succeeded@).contains(pview(entries@[k].0))
                    &&& match first_failure(failed@, pview(entries@[k].0)) {
                        Some(m) => o.error matches Some(s) && s@ == m,
                        None => o.error is None,
                    }
                },
        decreases entries@.len() - i,
    {
        let p = &entries[i].0;
        let ok = crate::paths::paths_contain(succeeded, p);
        let error = first_failure_exec(failed, p);
        out.push(ActionOutcome { path: clone_path(p), bytes: entries[i].1, succeeded: ok, error });
        i = i + 1;
    }
    out
}

/// What one group's action added to the run's totals: the bytes and files
/// it reclaimed (or, in a dry run, would reclaim), and whether any file failed.
pub fn group_totals(plan: &ActionPlan, report: Option<&ApplyReport>) -> (r: (u64, u64, bool))
    ensures
        match report {
            Some(rep) => r == (rep.bytes_reclaimed, rep.succeeded@.len() as u64, rep.failed@.len() > 0),
            None => r == (plan.bytes_reclaimed, plan.actions@.len() as u64, false),
        },
{
    match report {
        Some(rep) => (rep.bytes_reclaimed, rep.succeeded.len() as u64, rep.failed.len() > 0),
        None => (plan.bytes_reclaimed, plan.actions.len() as u64, false),
    }
}

/// What the scan loop has seen so far: whether anything failed, and the
/// scan's closing summary once it has arrived.
#[derive(Debug, Clone, Copy, PartialEq, Eq)]
pub struct RunState {
    pub had_errors: bool,
    pub summary: ScanSummary,
}

/// What the scan loop does with one event.
#[derive(Debug, Clone, Copy, PartialEq, Eq, Structural)]
pub enum EventAction {
    /// Keep the group until the folder pass has run.
    DeferGroup,
    /// Report the group now, acting on it if asked to.
    HandleGroup,
    ReportError,
    ReportProgress,
    ReportFinished,
}

impl RunState {
    /// Nothing seen yet.
    pub fn new() -> (r: RunState)
        ensures
            !r.had_errors,
            r.summary == (ScanSummary { files_scanned: 0, bytes_scanned: 0, duplicate_groups: 0, duplicate_files: 0 }),
    {
        RunState {
            had_errors: false,
            summary: ScanSummary { files_scanned: 0, bytes_scanned: 0, duplicate_groups: 0, duplicate_files: 0 },
        }
    }
}

/// One step of the scan loop: a duplicate group is kept for later when the
/// folder pass runs and handled at once otherwise; a per-file error marks
/// the run as failed; the closing summary is remembered.
pub fn on_event(state: RunState, event: &ScanEvent, folder_pass: bool) -> (r: (RunState, EventAction))
    ensures
        match event {
            ScanEvent::DuplicateGroup(_) => r == (state, if folder_pass {
                EventAction::DeferGroup
            } else {
                EventAction::HandleGroup
            }),
            ScanEvent::Error(_) => r == (RunState { had_errors: true, summary: state.summary }, EventAction::ReportError),
            ScanEvent::Progress(_) => r == (state, EventAction::ReportProgress),
            ScanEvent::Finished(s) => r == (RunState { had_errors: state.had_errors, summary: *s }, EventAction::ReportFinished),
        },
{
    match event {
        ScanEvent::DuplicateGroup(_) => {
            if folder_pass {
                (state, EventAction::DeferGroup)
            } else {
                (state, EventAction::HandleGroup)
            }
        },
        ScanEvent::Error(_) => (RunState { had_errors: true, summary: state.summary }, EventAction::ReportError),
        ScanEvent::Progress(_) => (state, EventAction::ReportProgress),
        ScanEvent::Finished(s) => (RunState { had_errors: state.had_errors, summary: *s }, EventAction::ReportFinished),
    }
}

/// The run after handling one group or folder match, `failed` when any of
/// its file actions failed.
pub fn after_handling(state: RunState, failed: bool) -> (r: RunState)
    ensures
        r.had_errors == (state.had_errors || failed),
        r.summary == state.summary,
{
    RunState { had_errors: state.had_errors || failed, summary: state.summary }
}

} // verus!
