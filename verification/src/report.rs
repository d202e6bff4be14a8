//! What the command line prints in text mode: a duplicate group with its
//! plan, a folder match with the outcome of each folder pair acted on, the
//! scan and action summaries, the live progress line and the confirmation
//! prompt. Each line is built here; printing it is the caller's business.

use vstd::prelude::*;
use crate::action::{ActionKind, ActionPlan, FileAction};
use crate::cli::{kind_word, action_word};
use crate::folder_action::{FolderActionPlan, FolderApplyReport};
use crate::folder_dedup::{FolderMatch, PathV};
use crate::model::{DuplicateGroup, ScanProgress, ScanSummary};
use crate::paths::{FsPath, pview, pviews, path_string, path_text, clone_path};
use crate::payload::string_views;
use crate::preview::{decimal, decimal_string};

verus! {

/// `prefix` followed by each path, written out.
pub open spec fn prefixed(prefix: Seq<char>, ps: Seq<PathV>) -> Seq<Seq<char>> {
    ps.map_values(|p: PathV| prefix + path_text(p))
}

/// One line per path: `prefix`, then the path.
fn prefixed_lines(prefix: &str, ps: &Vec<FsPath>) -> (r: Vec<String>)
    ensures
        string_views(r@) == prefixed(prefix@, pviews(ps@)),
{
    let ghost want = prefixed(prefix@, pviews(ps@));
    let mut out: Vec<String> = Vec::new();
    let mut i: usize = 0;
    while i < ps.len()
        invariant
            want == prefixed(prefix@, pviews(ps@)),
            i <= ps@.len(),
            string_views(out@) == want.take(i as int),
        decreases ps@.len() - i,
    {
        let mut line = String::from_str(prefix);
        let p = path_string(&ps[i]);
        line.append(p.as_str());
        let ghost before = string_views(out@);
        out.push(line);
        assert(string_views(out@) =~= before.push(want[i as int]));
        assert(want.take(i + 1) =~= want.take(i as int).push(want[i as int]));
        i = i + 1;
    }
    assert(want.take(ps@.len() as int) =~= want);
    out
}

/// The heading of a duplicate group.
pub open spec fn group_heading(size: nat, copies: nat) -> Seq<char> {
    "--- "@ + decimal(size) + " bytes, "@ + decimal(copies) + " copies ---"@
}

/// The lines of a group's plan: the kept path with the reason, then one
/// line per path acted on, naming the action.
pub open spec fn plan_lines(word: Seq<char>, plan: ActionPlan, reason: Seq<char>) -> Seq<Seq<char>> {
    seq!["  keep: "@ + path_text(pview(plan.kept)) + " ("@ + reason + ")"@] + prefixed(
        "  "@ + word + ": "@,
        plan.action_paths(),
    )
}

/// A duplicate group in text: its heading and paths, then, when an action
/// was planned, the plan.
pub open spec fn group_lines(group: DuplicateGroup, plan: Option<(Seq<char>, ActionPlan, Seq<char>)>) -> Seq<
    Seq<char>,
> {
    seq![group_heading(group.size as nat, group.paths@.len())] + prefixed(""@, group.path_views()) + match plan {
        Some((word, p, reason)) => plan_lines(word, p, reason),
        None => Seq::empty(),
    }
}

/// The text lines of `group`, with the plan of `kind` and the reason the
/// kept path was chosen when an action was planned.
pub fn group_text(group: &DuplicateGroup, planned: Option<(&ActionKind, &ActionPlan, &str)>) -> (r: Vec<String>)
    ensures
        string_views(r@) == group_lines(
            *group,
            match planned {
                Some((k, p, reason)) => Some((kind_word(k.kview()), *p, reason@)),
                None => None,
            },
        ),
{
    let ghost want = group_lines(
        *group,
        match planned {
            Some((k, p, reason)) => Some((kind_word(k.kview()), *p, reason@)),
            None => None,
        },
    );
    let mut heading = String::from_str("--- ");
    let size = decimal_string(group.size as u128);
    heading.append(size.as_str());
    heading.append(" bytes, ");
    let copies = decimal_string(group.paths.len() as u128);
    heading.append(copies.as_str());
    heading.append(" copies ---");
    let mut out: Vec<String> = Vec::new();
    out.push(heading);
    let paths = prefixed_lines("", &group.paths);
    let mut i: usize = 0;
    assert(string_views(out@) =~= seq![group_heading(group.size as nat, group.paths@.len())]);
    while i < paths.len()
        invariant
            string_views(out@) == seq![group_heading(group.size as nat, group.paths@.len())] + string_views(
                paths@,
            ).take(i as int),
            i <= paths@.len(),
        decreases paths@.len() - i,
    {
        let ghost before = string_views(out@);
        out.push(paths[i].clone());
        assert(string_views(out@) =~= before.push(string_views(paths@)[i as int]));
        assert(string_views(paths@).take(i + 1) =~= string_views(paths@).take(i as int).push(
            string_views(paths@)[i as int],
        ));
        i = i + 1;
    }
    assert(string_views(paths@).take(paths@.len() as int) =~= string_views(paths@));
    match planned {
        None => {
            assert(string_views(out@) =~= want);
            out
        },
        Some((kind, plan, reason)) => {
            let mut keep = String::from_str("  keep: ");
            let kept = path_string(&plan.kept);
            keep.append(kept.as_str());
            keep.append(" (");
            keep.append(reason);
            keep.append(")");
            let ghost head = string_views(out@);
            out.push(keep);
            let mut prefix = String::from_str("  ");
            prefix.append(action_word(kind));
            prefix.append(": ");
            let acted = action_path_list(&plan.actions);
            let lines = prefixed_lines(prefix.as_str(), &acted);
            let ghost mid = string_views(out@);
            let mut k: usize = 0;
            assert(string_views(lines@).take(0) =~= Seq::<Seq<char>>::empty());
            while k < lines.len()
                invariant
                    k <= lines@.len(),
                    string_views(out@) == mid + string_views(lines@).take(k as int),
                decreases lines@.len() - k,
            {
                let ghost before = string_views(out@);
                out.push(lines[k].clone());
                assert(string_views(out@) =~= before.push(string_views(lines@)[k as int]));
                assert(string_views(lines@).take(k + 1) =~= string_views(lines@).take(k as int).push(
                    string_views(lines@)[k as int],
                ));
                k = k + 1;
            }
            assert(string_views(lines@).take(lines@.len() as int) =~= string_views(lines@));
            assert(string_views(out@) =~= want);
            out
        },
    }
}

/// The paths of a plan's actions.
fn action_path_list(actions: &Vec<FileAction>) -> (r: Vec<FsPath>)
    ensures
        pviews(r@) == actions@.map_values(|a: FileAction| pview(a.path)),
{
    let ghost want = actions@.map_values(|a: FileAction| pview(a.path));
    let mut out: Vec<FsPath> = Vec::new();
    let mut i: usize = 0;
    while i < actions.len()
        invariant
            want == actions@.map_values(|a: FileAction| pview(a.path)),
            i <= actions@.len(),
            pviews(out@) == want.take(i as int),
        decreases actions@.len() - i,
    {
        let ghost before = pviews(out@);
        out.push(clone_path(&actions[i].path));
        assert(pviews(out@) =~= before.push(want[i as int]));
        assert(want.take(i + 1) =~= want.take(i as int).push(want[i as int]));
        i = i + 1;
    }
    assert(want.take(actions@.len() as int) =~= want);
    out
}

/// What planning, and maybe carrying out, an action on one folder pair
/// came to, as the folder report shows it.
#[derive(Debug, Clone, PartialEq, Eq)]
pub struct FolderPairOutcome {
    pub kind: ActionKind,
    pub removed: FsPath,
    pub kept: FsPath,
    /// Files planned.
    pub file_count: u64,
    /// Bytes the plan reclaims.
    pub bytes: u64,
    /// Whether the plan was carried out.
    pub applied: bool,
    /// Whether the emptied folder was removed.
    pub directory_removed: bool,
    /// How many file actions failed.
    pub failed: u64,
}

/// The outcome of a folder pair: the plan's counts, and, when it was carried
/// out, whether the folder was removed and how many files failed.
pub fn folder_pair_outcome(plan: &FolderActionPlan, report: Option<&FolderApplyReport>) -> (r: FolderPairOutcome)
    ensures
        r.kind.kview() == plan.kind.kview(),
        pview(r.removed) == pview(plan.removed),
        pview(r.kept) == pview(plan.kept),
        r.file_count == plan.pairs@.len(),
        r.bytes == plan.bytes_reclaimed,
        r.applied == report is Some,
        match report {
            Some(rep) => r.directory_removed == rep.directory_removed && r.failed == rep.failed@.len(),
            None => !r.directory_removed && r.failed == 0,
        },
{
    let (directory_removed, failed) = match report {
        Some(rep) => (rep.directory_removed, rep.failed.len() as u64),
        None => (false, 0),
    };
    FolderPairOutcome {
        kind: plan.kind.duplicate(),
        removed: clone_path(&plan.removed),
        kept: clone_path(&plan.kept),
        file_count: plan.pairs.len() as u64,
        bytes: plan.bytes_reclaimed,
        applied: report.is_some(),
        directory_removed,
        failed,
    }
}

/// What one folder pair added to the run's totals: the bytes and files it
/// reclaimed (or, in a dry run, would reclaim), and whether any file failed.
pub fn folder_pair_totals(plan: &FolderActionPlan, report: Option<&FolderApplyReport>) -> (r: (u64, u64, bool))
    ensures
        match report {
            Some(rep) => r == (rep.bytes_reclaimed, rep.succeeded@.len() as u64, rep.failed@.len() > 0),
            None => r == (plan.bytes_reclaimed, plan.pairs@.len() as u64, false),
        },
{
    match report {
        Some(rep) => (rep.bytes_reclaimed, rep.succeeded.len() as u64, rep.failed.len() > 0),
        None => (plan.bytes_reclaimed, plan.pairs.len() as u64, false),
    }
}

/// What follows a folder pair's line: whether the folder went and how many
/// files failed, or, in a dry run, how to carry it out.
pub open spec fn pair_suffix(o: FolderPairOutcome) -> Seq<char> {
    if o.applied {
        (if o.directory_removed {
            " -- folder removed"@
        } else {
            Seq::empty()
        }) + (if o.failed > 0 {
            " -- "@ + decimal(o.failed as nat) + " file(s) failed"@
        } else {
            Seq::empty()
        })
    } else {
        " (preview -- pass --apply to actually do this)"@
    }
}

/// The two lines of a folder pair: the folder kept, then the folder acted on.
pub open spec fn pair_lines(o: FolderPairOutcome) -> Seq<Seq<char>> {
    seq![
        "  keep folder: "@ + path_text(pview(o.kept)),
        "  "@ + kind_word(o.kind.kview()) + " folder: "@ + path_text(pview(o.removed)) + " ("@ + decimal(
            o.file_count as nat,
        ) + " files, "@ + decimal(o.bytes as nat) + " bytes)"@ + pair_suffix(o),
    ]
}

/// The lines of every folder pair, in order.
pub open spec fn outcome_lines(os: Seq<FolderPairOutcome>) -> Seq<Seq<char>>
    decreases os.len(),
{
    if os.len() == 0 {
        Seq::empty()
    } else {
        outcome_lines(os.drop_last()) + pair_lines(os.last())
    }
}

/// The lines describing a folder match itself.
pub open spec fn match_heading_lines(m: FolderMatch) -> Seq<Seq<char>> {
    match m {
        FolderMatch::Exact { folders, file_count, bytes } => seq![
            "--- duplicate folders: "@ + decimal(bytes as nat) + " bytes, "@ + decimal(file_count as nat)
                + " files ---"@,
        ] + prefixed(""@, pviews(folders@)),
        FolderMatch::Contained { subset, superset, file_count, bytes } => seq![
            "--- folder contained in another: "@ + decimal(bytes as nat) + " bytes, "@ + decimal(
                file_count as nat,
            ) + " files ---"@,
            "  subset:   "@ + path_text(pview(subset)),
            "  superset: "@ + path_text(pview(superset)),
        ],
    }
}

/// Appends `s` and then decimal `n` to `out`.
fn push_number(out: &mut String, s: &str, n: u64)
    ensures
        final(out)@ == old(out)@ + s@ + decimal(n as nat),
{
    out.append(s);
    let d = decimal_string(n as u128);
    out.append(d.as_str());
}

/// The line of a folder pair acted on.
fn pair_action_line(o: &FolderPairOutcome) -> (r: String)
    ensures
        r@ == pair_lines(*o)[1],
{
    let mut line = String::from_str("  ");
    line.append(action_word(&o.kind));
    line.append(" folder: ");
    let removed = path_string(&o.removed);
    line.append(removed.as_str());
    push_number(&mut line, " (", o.file_count);
    push_number(&mut line, " files, ", o.bytes);
    line.append(" bytes)");
    let ghost base = line@;
    if o.applied {
        if o.directory_removed {
            line.append(" -- folder removed");
        }
        if o.failed > 0 {
            push_number(&mut line, " -- ", o.failed);
            line.append(" file(s) failed");
        }
        assert(line@ =~= base + pair_suffix(*o));
    } else {
        line.append(" (preview -- pass --apply to actually do this)");
    }
    line
}

/// The text lines of a folder match, then of each folder pair acted on.
pub fn folder_match_text(m: &FolderMatch, outcomes: &Vec<FolderPairOutcome>) -> (r: Vec<String>)
    ensures
        string_views(r@) == match_heading_lines(*m) + outcome_lines(outcomes@),
{
    let mut out: Vec<String> = Vec::new();
    match m {
        FolderMatch::Exact { folders, file_count, bytes } => {
            let mut heading = String::new();
            push_number(&mut heading, "--- duplicate folders: ", *bytes);
            push_number(&mut heading, " bytes, ", *file_count);
            heading.append(" files ---");
            out.push(heading);
            let lines = prefixed_lines("", folders);
            let ghost head = string_views(out@);
            let mut k: usize = 0;
            while k < lines.len()
                invariant
                    k <= lines@.len(),
                    string_views(out@) == head + string_views(lines@).take(k as int),
                decreases lines@.len() - k,
            {
                let ghost before = string_views(out@);
                out.push(lines[k].clone());
                assert(string_views(out@) =~= before.push(string_views(lines@)[k as int]));
                assert(string_views(lines@).take(k + 1) =~= string_views(lines@).take(k as int).push(
                    string_views(lines@)[k as int],
                ));
                k = k + 1;
            }
            assert(string_views(lines@).take(lines@.len() as int) =~= string_views(lines@));
        },
        FolderMatch::Contained { subset, superset, file_count, bytes } => {
            let mut heading = String::new();
            push_number(&mut heading, "--- folder contained in another: ", *bytes);
            push_number(&mut heading, " bytes, ", *file_count);
            heading.append(" files ---");
            out.push(heading);
            let mut sub = String::from_str("  subset:   ");
            let s = path_string(subset);
            sub.append(s.as_str());
            out.push(sub);
            let mut sup = String::from_str("  superset: ");
            let t = path_string(superset);
            sup.append(t.as_str());
            out.push(sup);
        },
    }
    let ghost head = string_views(out@);
    assert(head =~= match_heading_lines(*m));
    let mut i: usize = 0;
    while i < outcomes.len()
        invariant
            i <= outcomes@.len(),
            head == match_heading_lines(*m),
            string_views(out@) == head + outcome_lines(outcomes@.take(i as int)),
        decreases outcomes@.len() - i,
    {
        let o = &outcomes[i];
        let mut keep = String::from_str("  keep folder: ");
        let kept = path_string(&o.kept);
        keep.append(kept.as_str());
        let action = pair_action_line(o);
        let ghost before = string_views(out@);
        out.push(keep);
        out.push(action);
        assert(outcomes@.take(i + 1).drop_last() =~= outcomes@.take(i as int));
        assert(outcomes@.take(i + 1).last() == outcomes@[i as int]);
        assert(string_views(out@) =~= before + pair_lines(outcomes@[i as int]));
        i = i + 1;
    }
    assert(outcomes@.take(outcomes@.len() as int) =~= outcomes@);
    out
}

/// The closing line of a scan.
pub open spec fn finished_line(s: ScanSummary) -> Seq<char> {
    "scanned "@ + decimal(s.files_scanned as nat) + " files ("@ + decimal(s.bytes_scanned as nat)
        + " bytes), found "@ + decimal(s.duplicate_groups as nat) + " duplicate groups ("@ + decimal(
        s.duplicate_files as nat,
    ) + " files)"@
}

/// The closing line of a scan: what was scanned and found.
pub fn finished_text(s: &ScanSummary) -> (r: String)
    ensures
        r@ == finished_line(*s),
{
    let mut out = String::new();
    push_number(&mut out, "scanned ", s.files_scanned);
    push_number(&mut out, " files (", s.bytes_scanned);
    push_number(&mut out, " bytes), found ", s.duplicate_groups);
    push_number(&mut out, " duplicate groups (", s.duplicate_files);
    out.append(" files)");
    out
}

/// The run's action total: what was reclaimed, or in a dry run what would be.
pub open spec fn action_summary_line(word: Seq<char>, applied: bool, bytes: u64, files: u64) -> Seq<char> {
    if applied {
        word + ": reclaimed "@ + decimal(bytes as nat) + " bytes across "@ + decimal(files as nat) + " files"@
    } else {
        "dry run ("@ + word + "): would reclaim "@ + decimal(bytes as nat) + " bytes across "@ + decimal(
            files as nat,
        ) + " files -- pass --apply to actually do this"@
    }
}

/// The run's action total, for `kind`.
pub fn action_summary_text(kind: &ActionKind, applied: bool, bytes: u64, files: u64) -> (r: String)
    ensures
        r@ == action_summary_line(kind_word(kind.kview()), applied, bytes, files),
{
    let word = action_word(kind);
    let mut out = String::new();
    if applied {
        out.append(word);
        push_number(&mut out, ": reclaimed ", bytes);
        push_number(&mut out, " bytes across ", files);
        out.append(" files");
    } else {
        out.append("dry run (");
        out.append(word);
        push_number(&mut out, "): would reclaim ", bytes);
        push_number(&mut out, " bytes across ", files);
        out.append(" files -- pass --apply to actually do this");
    }
    out
}

/// The live progress line.
pub open spec fn progress_line(p: ScanProgress) -> Seq<char> {
    "scanning... "@ + decimal(p.files_scanned as nat) + " files, "@ + decimal(p.bytes_scanned as nat) + " bytes"@
}

/// The live progress line for `p`.
pub fn progress_text(p: &ScanProgress) -> (r: String)
    ensures
        r@ == progress_line(*p),
{
    let mut out = String::new();
    push_number(&mut out, "scanning... ", p.files_scanned);
    push_number(&mut out, " files, ", p.bytes_scanned);
    out.append(" bytes");
    out
}

/// The question asked before `--apply` acts on anything.
pub open spec fn confirm_prompt_line(root: PathV, word: Seq<char>, folders: bool) -> Seq<char> {
    "This will scan "@ + path_text(root) + " and "@ + word + " redundant files"@ + (if folders {
        ", including whole duplicate folders,"@
    } else {
        Seq::empty()
    }) + " as duplicates are found. Proceed? [y/N] "@
}

/// The confirmation question for acting with `kind` on the scan of `root`,
/// mentioning whole folders when the folder pass runs too.
pub fn confirm_prompt(root: &FsPath, kind: &ActionKind, folders: bool) -> (r: String)
    ensures
        r@ == confirm_prompt_line(pview(*root), kind_word(kind.kview()), folders),
{
    let mut out = String::from_str("This will scan ");
    let r = path_string(root);
    out.append(r.as_str());
    out.append(" and ");
    out.append(action_word(kind));
    out.append(" redundant files");
    let ghost base = out@;
    if folders {
        out.append(", including whole duplicate folders,");
    }
    let ghost note = if folders { ", including whole duplicate folders,"@ } else { Seq::<char>::empty() };
    assert(out@ =~= base + note);
    out.append(" as duplicates are found. Proceed? [y/N] ");
    out
}

/// `n` in decimal, with a minus sign when negative.
pub open spec fn signed_decimal(n: int) -> Seq<char> {
    if n < 0 {
        "-"@ + decimal((-n) as nat)
    } else {
        decimal(n as nat)
    }
}

/// `n` written in decimal, with a minus sign when negative.
pub fn signed_decimal_string(n: i64) -> (r: String)
    ensures
        r@ == signed_decimal(n as int),
{
    if n < 0 {
        let mut out = String::from_str("-");
        let magnitude = (0i128 - n as i128) as u128;
        let d = decimal_string(magnitude);
        out.append(d.as_str());
        out
    } else {
        decimal_string(n as u128)
    }
}

/// An optional count in a history line: the number, or `-` when absent.
pub open spec fn optional_count(v: Option<u64>) -> Seq<char> {
    match v {
        Some(n) => decimal(n as nat),
        None => "-"@,
    }
}

/// An optional flag in a history line: `true` or `false`, or `-` when absent.
pub open spec fn optional_flag(v: Option<bool>) -> Seq<char> {
    match v {
        Some(true) => "true"@,
        Some(false) => "false"@,
        None => "-"@,
    }
}

fn optional_count_string(v: Option<u64>) -> (r: String)
    ensures
        r@ == optional_count(v),
{
    match v {
        Some(n) => decimal_string(n as u128),
        None => String::from_str("-"),
    }
}

fn optional_flag_string(v: Option<bool>) -> (r: String)
    ensures
        r@ == optional_flag(v),
{
    match v {
        Some(true) => String::from_str("true"),
        Some(false) => String::from_str("false"),
        None => String::from_str("-"),
    }
}

/// One recorded scan, as read back from the history database.
#[derive(Debug, Clone, PartialEq, Eq)]
pub struct ScanRow {
    pub id: i64,
    pub root: String,
    /// Unix seconds when the scan started.
    pub started_at: i64,
    pub files_scanned: u64,
    pub bytes_scanned: u64,
    pub duplicate_groups: u64,
    pub duplicate_files: u64,
    /// `None` when no action was requested.
    pub action_kind: Option<String>,
    pub action_applied: Option<bool>,
    pub bytes_reclaimed: Option<u64>,
    pub files_acted_on: Option<u64>,
}

/// A recorded scan in text: where and when, its counts, and its action.
pub open spec fn history_scan_line(row: ScanRow) -> Seq<char> {
    row.root@ + " @ "@ + signed_decimal(row.started_at as int) + "  files="@ + decimal(row.files_scanned as nat)
        + " bytes="@ + decimal(row.bytes_scanned as nat) + " dup_groups="@ + decimal(row.duplicate_groups as nat)
        + " dup_files="@ + decimal(row.duplicate_files as nat) + "  action="@ + (match row.action_kind {
        Some(k) => k@,
        None => "none"@,
    }) + " applied="@ + optional_flag(row.action_applied) + " reclaimed="@ + optional_count(row.bytes_reclaimed)
        + " acted_on="@ + optional_count(row.files_acted_on)
}

/// The text line of a recorded scan.
pub fn history_scan_text(row: &ScanRow) -> (r: String)
    ensures
        r@ == history_scan_line(*row),
{
    let mut out = row.root.clone();
    out.append(" @ ");
    let t = signed_decimal_string(row.started_at);
    out.append(t.as_str());
    push_number(&mut out, "  files=", row.files_scanned);
    push_number(&mut out, " bytes=", row.bytes_scanned);
    push_number(&mut out, " dup_groups=", row.duplicate_groups);
    push_number(&mut out, " dup_files=", row.duplicate_files);
    out.append("  action=");
    match &row.action_kind {
        Some(k) => out.append(k.as_str()),
        None => out.append("none"),
    }
    out.append(" applied=");
    let a = optional_flag_string(row.action_applied);
    out.append(a.as_str());
    out.append(" reclaimed=");
    let b = optional_count_string(row.bytes_reclaimed);
    out.append(b.as_str());
    out.append(" acted_on=");
    let c = optional_count_string(row.files_acted_on);
    out.append(c.as_str());
    out
}

/// Totals over the recorded scans of a period.
#[derive(Debug, Default, Clone, Copy, PartialEq, Eq)]
pub struct HistoryStats {
    pub scans: u64,
    pub files_scanned: u64,
    pub bytes_scanned: u64,
    pub duplicate_groups: u64,
    pub duplicate_files: u64,
    pub bytes_reclaimed: u64,
    pub files_acted_on: u64,
}

/// The totals of a period in text.
pub open spec fn history_stats_line(s: HistoryStats) -> Seq<char> {
    decimal(s.scans as nat) + " scans, "@ + decimal(s.files_scanned as nat) + " files scanned ("@ + decimal(
        s.bytes_scanned as nat,
    ) + " bytes), "@ + decimal(s.duplicate_groups as nat) + " duplicate groups ("@ + decimal(
        s.duplicate_files as nat,
    ) + " files), "@ + decimal(s.bytes_reclaimed as nat) + " bytes reclaimed across "@ + decimal(
        s.files_acted_on as nat,
    ) + " files"@
}

/// The text line of a period's totals.
pub fn history_stats_text(s: &HistoryStats) -> (r: String)
    ensures
        r@ == history_stats_line(*s),
{
    let mut out = decimal_string(s.scans as u128);
    push_number(&mut out, " scans, ", s.files_scanned);
    push_number(&mut out, " files scanned (", s.bytes_scanned);
    push_number(&mut out, " bytes), ", s.duplicate_groups);
    push_number(&mut out, " duplicate groups (", s.duplicate_files);
    push_number(&mut out, " files), ", s.bytes_reclaimed);
    push_number(&mut out, " bytes reclaimed across ", s.files_acted_on);
    out.append(" files");
    out
}

} // verus!
