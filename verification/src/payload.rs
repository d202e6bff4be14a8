//! The shapes exchanged with a front end: paths written as text, action and
//! rule names, and results flattened into plain fields. The conversions
//! between these and the library's own types live here.

use vstd::prelude::*;
use crate::action::{ActionKind, ActionPlan, ApplyReport, FileAction};
use crate::folder_action::{FolderActionPlan, FolderApplyReport};
use crate::folder_dedup::{FolderMatch, PathV};
use crate::model::{DuplicateGroup, FileError, ScanOptions, ScanProgress, ScanSummary};
use crate::paths::{FsPath, pview, pviews, parse_path, parse_components, path_string, path_text, clone_path};
use crate::select::Rule;
use crate::text::{trim, trim_text, text_eq};

verus! {

/// The text of every path in `ps`.
pub open spec fn path_texts(ps: Seq<FsPath>) -> Seq<Seq<char>> {
    ps.map_values(|p: FsPath| path_text(pview(p)))
}

/// The characters of every string in `ss`.
pub open spec fn string_views(ss: Seq<String>) -> Seq<Seq<char>> {
    ss.map_values(|s: String| s@)
}

/// Every path of `ps`, written out.
pub fn path_strings(ps: &Vec<FsPath>) -> (r: Vec<String>)
    ensures
        string_views(r@) == path_texts(ps@),
{
    let mut out: Vec<String> = Vec::new();
    let mut i: usize = 0;
    while i < ps.len()
        invariant
            i <= ps@.len(),
            string_views(out@) == path_texts(ps@).take(i as int),
        decreases ps@.len() - i,
    {
        let s = path_string(&ps[i]);
        let ghost before = string_views(out@);
        out.push(s);
        assert(string_views(out@) =~= before.push(path_texts(ps@)[i as int]));
        assert(path_texts(ps@).take(i + 1) =~= path_texts(ps@).take(i as int).push(path_texts(ps@)[i as int]));
        i = i + 1;
    }
    assert(path_texts(ps@).take(ps@.len() as int) =~= path_texts(ps@));
    out
}

/// A duplicate group as sent back by a front end for an action.
#[derive(Debug, Clone, PartialEq, Eq)]
pub struct GroupPayload {
    pub size: u64,
    pub paths: Vec<String>,
}

/// The components of every text in `ss`.
pub open spec fn parsed_views(ss: Seq<String>) -> Seq<PathV> {
    ss.map_values(|s: String| parse_components(s@))
}

/// Every text of `ss`, read as a path.
pub fn parse_paths(ss: &Vec<String>) -> (r: Vec<FsPath>)
    ensures
        pviews(r@) == parsed_views(ss@),
{
    let mut out: Vec<FsPath> = Vec::new();
    let mut i: usize = 0;
    while i < ss.len()
        invariant
            i <= ss@.len(),
            pviews(out@) == parsed_views(ss@).take(i as int),
        decreases ss@.len() - i,
    {
        let p = parse_path(ss[i].as_str());
        let ghost before = pviews(out@);
        out.push(p);
        assert(pviews(out@) =~= before.push(parsed_views(ss@)[i as int]));
        assert(parsed_views(ss@).take(i + 1) =~= parsed_views(ss@).take(i as int).push(parsed_views(ss@)[i as int]));
        i = i + 1;
    }
    assert(parsed_views(ss@).take(ss@.len() as int) =~= parsed_views(ss@));
    out
}

impl From<GroupPayload> for DuplicateGroup {
    /// The group, each path read from its text.
    fn from(p: GroupPayload) -> (r: DuplicateGroup)
        ensures
            r.size == p.size,
            r.path_views() == parsed_views(p.paths@),
    {
        DuplicateGroup { size: p.size, paths: parse_paths(&p.paths) }
    }
}

impl vstd::std_specs::convert::FromSpecImpl<GroupPayload> for DuplicateGroup {
    open spec fn obeys_from_spec() -> bool {
        false
    }

    /// Not used: `from` states its result over views instead.
    open spec fn from_spec(p: GroupPayload) -> DuplicateGroup {
        vstd::pervasive::arbitrary()
    }
}


/// A user-typed path with surrounding white space and one layer of
/// matching surrounding quotes (double, else single) removed, then trimmed
/// again.
pub open spec fn normalized_input(s: Seq<char>) -> Seq<char> {
    let t = trim(s);
    let unquoted = if t.len() >= 2 && t[0] == '"' && t.last() == '"' {
        t.subrange(1, t.len() - 1)
    } else if t.len() >= 2 && t[0] == '\'' && t.last() == '\'' {
        t.subrange(1, t.len() - 1)
    } else {
        t
    };
    trim(unquoted)
}

/// Strips white space and one layer of matching surrounding quotes from a
/// typed or pasted path (a "Copy as path" from a file manager arrives
/// quoted). A lone leading or trailing quote is left alone.
pub fn normalize_path_input(s: &str) -> (r: String)
    ensures
        r@ == normalized_input(s@),
{
    let t = trim_text(s);
    let n = t.as_str().unicode_len();
    let ts = t.as_str();
    if n >= 2 {
        let first = ts.get_char(0);
        let last = ts.get_char(n - 1);
        if (first == '"' && last == '"') || (first == '\'' && last == '\'') {
            return trim_text(ts.substring_char(1, n - 1));
        }
    }
    trim_text(ts)
}

/// Every typed path of `paths`, normalized and read as a path.
pub fn normalize_path_list(paths: &Vec<String>) -> (r: Vec<FsPath>)
    ensures
        pviews(r@) == paths@.map_values(|s: String| parse_components(normalized_input(s@))),
{
    let ghost want = paths@.map_values(|s: String| parse_components(normalized_input(s@)));
    let mut out: Vec<FsPath> = Vec::new();
    let mut i: usize = 0;
    while i < paths.len()
        invariant
            i <= paths@.len(),
            want == paths@.map_values(|s: String| parse_components(normalized_input(s@))),
            pviews(out@) == want.take(i as int),
        decreases paths@.len() - i,
    {
        let t = normalize_path_input(paths[i].as_str());
        let p = parse_path(t.as_str());
        let ghost before = pviews(out@);
        out.push(p);
        assert(pviews(out@) =~= before.push(want[i as int]));
        assert(want.take(i + 1) =~= want.take(i as int).push(want[i as int]));
        i = i + 1;
    }
    assert(want.take(paths@.len() as int) =~= want);
    out
}

/// A typed path, normalized, read as a path.
pub open spec fn typed_path(s: String) -> PathV {
    parse_components(normalized_input(s@))
}

/// Scan tunables from a front end; what is left out takes its default.
#[derive(Debug, Clone, PartialEq, Eq)]
pub struct ScanOptionsPayload {
    pub follow_symlinks: bool,
    pub cross_filesystems: bool,
    pub verify_matches: bool,
    pub small_file_threshold: Option<u64>,
    pub partial_hash_sample_size: Option<u64>,
    pub io_threads: Option<usize>,
    pub cache_path: Option<String>,
    pub fclones_import_path: Option<String>,
    pub min_size: Option<u64>,
    pub max_size: Option<u64>,
    pub include_extensions: Option<Vec<String>>,
    pub exclude_extensions: Option<Vec<String>>,
    pub exclude_paths: Vec<String>,
}

fn typed_option(s: &Option<String>) -> (r: Option<FsPath>)
    ensures
        match *s {
            Some(t) => r matches Some(p) && pview(p) == typed_path(t),
            None => r is None,
        },
{
    match s {
        Some(t) => {
            let n = normalize_path_input(t.as_str());
            Some(parse_path(n.as_str()))
        },
        None => None,
    }
}

fn clone_strings(v: &Vec<String>) -> (r: Vec<String>)
    ensures
        string_views(r@) == string_views(v@),
{
    let mut out: Vec<String> = Vec::new();
    let mut i: usize = 0;
    while i < v.len()
        invariant
            i <= v@.len(),
            string_views(out@) == string_views(v@).take(i as int),
        decreases v@.len() - i,
    {
        let ghost before = string_views(out@);
        out.push(v[i].clone());
        assert(string_views(out@) =~= before.push(v@[i as int]@));
        assert(string_views(v@).take(i + 1) =~= string_views(v@).take(i as int).push(v@[i as int]@));
        i = i + 1;
    }
    assert(string_views(v@).take(v@.len() as int) =~= string_views(v@));
    out
}

fn clone_string_list(v: &Option<Vec<String>>) -> (r: Option<Vec<String>>)
    ensures
        match *v {
            Some(l) => r matches Some(m) && string_views(m@) == string_views(l@),
            None => r is None,
        },
{
    match v {
        Some(l) => Some(clone_strings(l)),
        None => None,
    }
}

impl From<ScanOptionsPayload> for ScanOptions {
    /// The options: flags and filters as given, thresholds defaulted when
    /// left out, typed paths normalized and read as paths.
    fn from(p: ScanOptionsPayload) -> (r: ScanOptions)
        ensures
            r.follow_symlinks == p.follow_symlinks,
            r.cross_filesystems == p.cross_filesystems,
            r.verify_matches == p.verify_matches,
            r.small_file_threshold == match p.small_file_threshold {
                Some(v) => v,
                None => crate::model::DEFAULT_SMALL_FILE_THRESHOLD,
            },
            r.partial_hash_sample_size == match p.partial_hash_sample_size {
                Some(v) => v,
                None => crate::model::DEFAULT_PARTIAL_HASH_SAMPLE_SIZE,
            },
            r.io_threads == p.io_threads,
            match p.cache_path {
                Some(t) => r.cache_path matches Some(q) && pview(q) == typed_path(t),
                None => r.cache_path is None,
            },
            match p.fclones_import_path {
                Some(t) => r.fclones_import_path matches Some(q) && pview(q) == typed_path(t),
                None => r.fclones_import_path is None,
            },
            r.min_size == p.min_size,
            r.max_size == p.max_size,
            match p.include_extensions {
                Some(l) => r.include_extensions matches Some(m) && string_views(m@) == string_views(l@),
                None => r.include_extensions is None,
            },
            match p.exclude_extensions {
                Some(l) => r.exclude_extensions matches Some(m) && string_views(m@) == string_views(l@),
                None => r.exclude_extensions is None,
            },
            pviews(r.exclude_paths@) == p.exclude_paths@.map_values(|s: String| typed_path(s)),
    {
        let exclude_paths = normalize_path_list(&p.exclude_paths);
        assert(p.exclude_paths@.map_values(|s: String| typed_path(s)) =~= p.exclude_paths@.map_values(
            |s: String| parse_components(normalized_input(s@)),
        ));
        ScanOptions {
            follow_symlinks: p.follow_symlinks,
            cross_filesystems: p.cross_filesystems,
            verify_matches: p.verify_matches,
            small_file_threshold: match p.small_file_threshold {
                Some(v) => v,
                None => crate::model::DEFAULT_SMALL_FILE_THRESHOLD,
            },
            partial_hash_sample_size: match p.partial_hash_sample_size {
                Some(v) => v,
                None => crate::model::DEFAULT_PARTIAL_HASH_SAMPLE_SIZE,
            },
            io_threads: p.io_threads,
            cache_path: typed_option(&p.cache_path),
            fclones_import_path: typed_option(&p.fclones_import_path),
            min_size: p.min_size,
            max_size: p.max_size,
            include_extensions: clone_string_list(&p.include_extensions),
            exclude_extensions: clone_string_list(&p.exclude_extensions),
            exclude_paths,
        }
    }
}

impl vstd::std_specs::convert::FromSpecImpl<ScanOptionsPayload> for ScanOptions {
    open spec fn obeys_from_spec() -> bool {
        false
    }

    /// Not used: `from` states its result over views instead.
    open spec fn from_spec(p: ScanOptionsPayload) -> ScanOptions {
        vstd::pervasive::arbitrary()
    }
}

/// The error for an action name that is not one of the known ones.
pub open spec fn unknown_kind_message(kind: Seq<char>) -> Seq<char> {
    "unknown action kind: "@ + kind
}

/// Reads an action name: `delete`, `trash`, `hardlink` and `reflink` stand
/// alone; `move` and `copy` need the archive folder and fail without it.
pub fn parse_action_kind(kind: &str, archive_dir: Option<&FsPath>) -> (r: Result<ActionKind, String>)
    ensures
        kind@ == "delete"@ ==> r == Ok::<ActionKind, String>(ActionKind::Delete),
        kind@ == "trash"@ ==> r == Ok::<ActionKind, String>(ActionKind::Trash),
        kind@ == "hardlink"@ ==> r == Ok::<ActionKind, String>(ActionKind::Hardlink),
        kind@ == "reflink"@ ==> r == Ok::<ActionKind, String>(ActionKind::Reflink),
        kind@ == "move"@ ==> match archive_dir {
            Some(d) => r matches Ok(k) && k.kview() == crate::action::ActionKindView::Move(pview(*d)),
            None => r matches Err(e) && e@ == "action kind \"move\" requires an archive directory"@,
        },
        kind@ == "copy"@ ==> match archive_dir {
            Some(d) => r matches Ok(k) && k.kview() == crate::action::ActionKindView::Copy(pview(*d)),
            None => r matches Err(e) && e@ == "action kind \"copy\" requires an archive directory"@,
        },
        !(kind@ == "delete"@ || kind@ == "trash"@ || kind@ == "hardlink"@ || kind@ == "reflink"@ || kind@
            == "move"@ || kind@ == "copy"@) ==> (r matches Err(e) && e@ == unknown_kind_message(kind@)),
{
    let delete = "delete";
    let trash = "trash";
    let hardlink = "hardlink";
    let reflink = "reflink";
    let mv = "move";
    let cp = "copy";
    let move_err = "action kind \"move\" requires an archive directory";
    let copy_err = "action kind \"copy\" requires an archive directory";
    let unknown = "unknown action kind: ";
    proof {
        reveal_strlit("delete");
        reveal_strlit("trash");
        reveal_strlit("hardlink");
        reveal_strlit("reflink");
        reveal_strlit("move");
        reveal_strlit("copy");
        assert("delete"@.len() == 6 && "trash"@.len() == 5 && "hardlink"@.len() == 8 && "reflink"@.len() == 7);
        assert("move"@.len() == 4 && "copy"@.len() == 4 && "move"@[0] == 'm' && "copy"@[0] == 'c');
    }
    if text_eq(kind, delete) {
        Ok(ActionKind::Delete)
    } else if text_eq(kind, trash) {
        Ok(ActionKind::Trash)
    } else if text_eq(kind, hardlink) {
        Ok(ActionKind::Hardlink)
    } else if text_eq(kind, reflink) {
        Ok(ActionKind::Reflink)
    } else if text_eq(kind, mv) {
        match archive_dir {
            Some(d) => Ok(ActionKind::Move(clone_path(d))),
            None => Err(String::from_str(move_err)),
        }
    } else if text_eq(kind, cp) {
        match archive_dir {
            Some(d) => Ok(ActionKind::Copy(clone_path(d))),
            None => Err(String::from_str(copy_err)),
        }
    } else {
        let mut e = String::from_str(unknown);
        e.append(kind);
        Err(e)
    }
}

/// The error for a rule name that is not one of the known ones.
pub open spec fn unknown_rule_message(rule: Seq<char>) -> Seq<char> {
    "unknown keep rule: "@ + rule
}

/// The rule a name stands for, if it is one of the five known names.
pub open spec fn rule_named(name: Seq<char>) -> Option<Rule> {
    if name == "alphabetical"@ {
        Some(Rule::AlphabeticallyFirst)
    } else if name == "newest"@ {
        Some(Rule::Newest)
    } else if name == "oldest"@ {
        Some(Rule::Oldest)
    } else if name == "shortest_path"@ {
        Some(Rule::ShortestPath)
    } else if name == "longest_path"@ {
        Some(Rule::LongestPath)
    } else {
        None
    }
}

/// Reads a keep-rule name.
pub fn parse_keep_rule(rule: &str) -> (r: Result<Rule, String>)
    ensures
        rule@ == "alphabetical"@ ==> r == Ok::<Rule, String>(Rule::AlphabeticallyFirst),
        rule@ == "newest"@ ==> r == Ok::<Rule, String>(Rule::Newest),
        rule@ == "oldest"@ ==> r == Ok::<Rule, String>(Rule::Oldest),
        rule@ == "shortest_path"@ ==> r == Ok::<Rule, String>(Rule::ShortestPath),
        rule@ == "longest_path"@ ==> r == Ok::<Rule, String>(Rule::LongestPath),
        !(rule@ == "alphabetical"@ || rule@ == "newest"@ || rule@ == "oldest"@ || rule@ == "shortest_path"@
            || rule@ == "longest_path"@) ==> (r matches Err(e) && e@ == unknown_rule_message(rule@)),
        match rule_named(rule@) {
            Some(x) => r == Ok::<Rule, String>(x),
            None => r matches Err(e) && e@ == unknown_rule_message(rule@),
        },
{
    let alphabetical = "alphabetical";
    let newest = "newest";
    let oldest = "oldest";
    let shortest = "shortest_path";
    let longest = "longest_path";
    let unknown = "unknown keep rule: ";
    proof {
        reveal_strlit("alphabetical");
        reveal_strlit("newest");
        reveal_strlit("oldest");
        reveal_strlit("shortest_path");
        reveal_strlit("longest_path");
        assert("alphabetical"@.len() == 12 && "newest"@.len() == 6 && "oldest"@.len() == 6);
        assert("shortest_path"@.len() == 13 && "longest_path"@.len() == 12);
        assert("alphabetical"@[0] == 'a' && "longest_path"@[0] == 'l' && "newest"@[0] == 'n' && "oldest"@[0] == 'o');
    }
    if text_eq(rule, alphabetical) {
        Ok(Rule::AlphabeticallyFirst)
    } else if text_eq(rule, newest) {
        Ok(Rule::Newest)
    } else if text_eq(rule, oldest) {
        Ok(Rule::Oldest)
    } else if text_eq(rule, shortest) {
        Ok(Rule::ShortestPath)
    } else if text_eq(rule, longest) {
        Ok(Rule::LongestPath)
    } else {
        let mut e = String::from_str(unknown);
        e.append(rule);
        Err(e)
    }
}

/// Scan counters, for a front end.
#[derive(Debug, Clone, Copy, PartialEq, Eq)]
pub struct ScanSummaryPayload {
    pub files_scanned: u64,
    pub bytes_scanned: u64,
    pub duplicate_groups: u64,
    pub duplicate_files: u64,
}

/// One scan event, for a front end: paths written out as text.
#[derive(Debug, Clone, PartialEq, Eq)]
pub enum ScanEventPayload {
    DuplicateGroup { size: u64, paths: Vec<String> },
    Error { path: String, message: String },
    Progress { files_scanned: u64, bytes_scanned: u64 },
    Finished(ScanSummaryPayload),
}

impl From<&DuplicateGroup> for ScanEventPayload {
    /// The group's size and its paths written out.
    fn from(group: &DuplicateGroup) -> (r: ScanEventPayload)
        ensures
            r matches ScanEventPayload::DuplicateGroup { size, paths } && size == group.size && string_views(paths@)
                == path_texts(group.paths@),
    {
        ScanEventPayload::DuplicateGroup { size: group.size, paths: path_strings(&group.paths) }
    }
}

impl vstd::std_specs::convert::FromSpecImpl<&DuplicateGroup> for ScanEventPayload {
    open spec fn obeys_from_spec() -> bool {
        false
    }

    /// Not used: `from` states its result over views instead.
    open spec fn from_spec(group: &DuplicateGroup) -> ScanEventPayload {
        vstd::pervasive::arbitrary()
    }
}

impl From<&FileError> for ScanEventPayload {
    /// The failing path written out, with its message.
    fn from(err: &FileError) -> (r: ScanEventPayload)
        ensures
            r matches ScanEventPayload::Error { path, message } && path@ == path_text(pview(err.path)) && message@
                == err.message@,
    {
        ScanEventPayload::Error { path: path_string(&err.path), message: err.message.clone() }
    }
}

impl vstd::std_specs::convert::FromSpecImpl<&FileError> for ScanEventPayload {
    open spec fn obeys_from_spec() -> bool {
        false
    }

    /// Not used: `from` states its result over views instead.
    open spec fn from_spec(err: &FileError) -> ScanEventPayload {
        vstd::pervasive::arbitrary()
    }
}

impl From<ScanProgress> for ScanEventPayload {
    fn from(p: ScanProgress) -> (r: ScanEventPayload) {
        ScanEventPayload::Progress { files_scanned: p.files_scanned, bytes_scanned: p.bytes_scanned }
    }
}

impl vstd::std_specs::convert::FromSpecImpl<ScanProgress> for ScanEventPayload {
    open spec fn obeys_from_spec() -> bool {
        true
    }

    open spec fn from_spec(p: ScanProgress) -> ScanEventPayload {
        ScanEventPayload::Progress { files_scanned: p.files_scanned, bytes_scanned: p.bytes_scanned }
    }
}

impl From<ScanSummary> for ScanEventPayload {
    fn from(s: ScanSummary) -> (r: ScanEventPayload) {
        ScanEventPayload::Finished(
            ScanSummaryPayload {
                files_scanned: s.files_scanned,
                bytes_scanned: s.bytes_scanned,
                duplicate_groups: s.duplicate_groups,
                duplicate_files: s.duplicate_files,
            },
        )
    }
}

impl vstd::std_specs::convert::FromSpecImpl<ScanSummary> for ScanEventPayload {
    open spec fn obeys_from_spec() -> bool {
        true
    }

    open spec fn from_spec(s: ScanSummary) -> ScanEventPayload {
        ScanEventPayload::Finished(
            ScanSummaryPayload {
                files_scanned: s.files_scanned,
                bytes_scanned: s.bytes_scanned,
                duplicate_groups: s.duplicate_groups,
                duplicate_files: s.duplicate_files,
            },
        )
    }
}

/// One folder match, for a front end: folders written out as text.
#[derive(Debug, Clone, PartialEq, Eq)]
pub enum FolderMatchPayload {
    Exact { folders: Vec<String>, file_count: u64, bytes: u64 },
    Contained { subset: String, superset: String, file_count: u64, bytes: u64 },
}

impl From<&FolderMatch> for FolderMatchPayload {
    /// The same match with its folders written out.
    fn from(m: &FolderMatch) -> (r: FolderMatchPayload)
        ensures
            match *m {
                FolderMatch::Exact { folders, file_count, bytes } => r matches FolderMatchPayload::Exact {
                    folders: f,
                    file_count: c,
                    bytes: b,
                } && string_views(f@) == path_texts(folders@) && c == file_count && b == bytes,
                FolderMatch::Contained { subset, superset, file_count, bytes } => r matches FolderMatchPayload::Contained {
                    subset: s,
                    superset: t,
                    file_count: c,
                    bytes: b,
                } && s@ == path_text(pview(subset)) && t@ == path_text(pview(superset)) && c == file_count && b
                    == bytes,
            },
    {
        match m {
            FolderMatch::Exact { folders, file_count, bytes } => FolderMatchPayload::Exact {
                folders: path_strings(folders),
                file_count: *file_count,
                bytes: *bytes,
            },
            FolderMatch::Contained { subset, superset, file_count, bytes } => FolderMatchPayload::Contained {
                subset: path_string(subset),
                superset: path_string(superset),
                file_count: *file_count,
                bytes: *bytes,
            },
        }
    }
}

impl vstd::std_specs::convert::FromSpecImpl<&FolderMatch> for FolderMatchPayload {
    open spec fn obeys_from_spec() -> bool {
        false
    }

    /// Not used: `from` states its result over views instead.
    open spec fn from_spec(m: &FolderMatch) -> FolderMatchPayload {
        vstd::pervasive::arbitrary()
    }
}

/// A planned action, for a front end.
#[derive(Debug, Clone, PartialEq, Eq)]
pub struct ActionPlanPayload {
    pub kept: String,
    pub keep_reason: String,
    pub planned: Vec<String>,
    pub bytes_reclaimed: u64,
}

/// The copy a rule would keep and why, for a front end.
#[derive(Debug, Clone, PartialEq, Eq)]
pub struct ChooseKeepPayload {
    pub keep: String,
    pub reason: String,
}

/// The paths `plan` acts on, written out.
pub open spec fn planned_texts(plan: ActionPlan) -> Seq<Seq<char>> {
    plan.actions@.map_values(|a: FileAction| path_text(pview(a.path)))
}

impl From<(&ActionPlan, &str)> for ActionPlanPayload {
    /// The plan with its paths written out and the reason the kept path was kept.
    fn from(pr: (&ActionPlan, &str)) -> (r: ActionPlanPayload)
        ensures
            r.kept@ == path_text(pview(pr.0.kept)),
            r.keep_reason@ == pr.1@,
            string_views(r.planned@) == planned_texts(*pr.0),
            r.bytes_reclaimed == pr.0.bytes_reclaimed,
    {
        let (plan, keep_reason) = pr;
        let mut planned: Vec<String> = Vec::new();
        let mut i: usize = 0;
        while i < plan.actions.len()
            invariant
                i <= plan.actions@.len(),
                string_views(planned@) == planned_texts(*plan).take(i as int),
            decreases plan.actions@.len() - i,
        {
            let s = path_string(&plan.actions[i].path);
            let ghost before = string_views(planned@);
            planned.push(s);
            assert(string_views(planned@) =~= before.push(planned_texts(*plan)[i as int]));
            assert(planned_texts(*plan).take(i + 1) =~= planned_texts(*plan).take(i as int).push(
                planned_texts(*plan)[i as int],
            ));
            i = i + 1;
        }
        assert(planned_texts(*plan).take(plan.actions@.len() as int) =~= planned_texts(*plan));
        ActionPlanPayload {
            kept: path_string(&plan.kept),
            keep_reason: keep_reason.to_owned(),
            planned,
            bytes_reclaimed: plan.bytes_reclaimed,
        }
    }
}

impl vstd::std_specs::convert::FromSpecImpl<(&ActionPlan, &str)> for ActionPlanPayload {
    open spec fn obeys_from_spec() -> bool {
        false
    }

    /// Not used: `from` states its result over views instead.
    open spec fn from_spec(pr: (&ActionPlan, &str)) -> ActionPlanPayload {
        vstd::pervasive::arbitrary()
    }
}

/// What an applied action did, for a front end.
#[derive(Debug, Clone, PartialEq, Eq)]
pub struct ApplyReportPayload {
    pub succeeded: Vec<String>,
    pub failed: Vec<String>,
    pub bytes_reclaimed: u64,
}

/// The failing paths of `errs`, written out.
pub open spec fn failed_texts(errs: Seq<FileError>) -> Seq<Seq<char>> {
    errs.map_values(|e: FileError| path_text(pview(e.path)))
}

fn failed_strings(errs: &Vec<FileError>) -> (r: Vec<String>)
    ensures
        string_views(r@) == failed_texts(errs@),
{
    let mut out: Vec<String> = Vec::new();
    let mut i: usize = 0;
    while i < errs.len()
        invariant
            i <= errs@.len(),
            string_views(out@) == failed_texts(errs@).take(i as int),
        decreases errs@.len() - i,
    {
        let s = path_string(&errs[i].path);
        let ghost before = string_views(out@);
        out.push(s);
        assert(string_views(out@) =~= before.push(failed_texts(errs@)[i as int]));
        assert(failed_texts(errs@).take(i + 1) =~= failed_texts(errs@).take(i as int).push(failed_texts(errs@)[i as int]));
        i = i + 1;
    }
    assert(failed_texts(errs@).take(errs@.len() as int) =~= failed_texts(errs@));
    out
}

impl From<&ApplyReport> for ApplyReportPayload {
    /// The report with its paths written out.
    fn from(report: &ApplyReport) -> (r: ApplyReportPayload)
        ensures
            string_views(r.succeeded@) == path_texts(report.succeeded@),
            string_views(r.failed@) == failed_texts(report.failed@),
            r.bytes_reclaimed == report.bytes_reclaimed,
    {
        ApplyReportPayload {
            succeeded: path_strings(&report.succeeded),
            failed: failed_strings(&report.failed),
            bytes_reclaimed: report.bytes_reclaimed,
        }
    }
}

impl vstd::std_specs::convert::FromSpecImpl<&ApplyReport> for ApplyReportPayload {
    open spec fn obeys_from_spec() -> bool {
        false
    }

    /// Not used: `from` states its result over views instead.
    open spec fn from_spec(report: &ApplyReport) -> ApplyReportPayload {
        vstd::pervasive::arbitrary()
    }
}

/// A planned action and, once applied, what it did.
#[derive(Debug, Clone, PartialEq, Eq)]
pub struct ActionResultPayload {
    pub plan: ActionPlanPayload,
    pub applied: Option<ApplyReportPayload>,
}

/// A planned folder action, for a front end.
#[derive(Debug, Clone, PartialEq, Eq)]
pub struct FolderActionPlanPayload {
    pub kept: String,
    pub removed: String,
    pub file_count: u64,
    pub bytes_reclaimed: u64,
}

impl From<&FolderActionPlan> for FolderActionPlanPayload {
    /// Both folders written out, with the number of planned pairs.
    fn from(plan: &FolderActionPlan) -> (r: FolderActionPlanPayload)
        ensures
            r.kept@ == path_text(pview(plan.kept)),
            r.removed@ == path_text(pview(plan.removed)),
            r.file_count == plan.pairs@.len(),
            r.bytes_reclaimed == plan.bytes_reclaimed,
    {
        FolderActionPlanPayload {
            kept: path_string(&plan.kept),
            removed: path_string(&plan.removed),
            file_count: plan.pairs.len() as u64,
            bytes_reclaimed: plan.bytes_reclaimed,
        }
    }
}

impl vstd::std_specs::convert::FromSpecImpl<&FolderActionPlan> for FolderActionPlanPayload {
    open spec fn obeys_from_spec() -> bool {
        false
    }

    /// Not used: `from` states its result over views instead.
    open spec fn from_spec(plan: &FolderActionPlan) -> FolderActionPlanPayload {
        vstd::pervasive::arbitrary()
    }
}

/// What an applied folder action did, for a front end.
#[derive(Debug, Clone, PartialEq, Eq)]
pub struct FolderApplyReportPayload {
    pub succeeded: Vec<String>,
    pub failed: Vec<String>,
    pub bytes_reclaimed: u64,
    pub directory_removed: bool,
}

impl From<&FolderApplyReport> for FolderApplyReportPayload {
    /// The report with its paths written out.
    fn from(report: &FolderApplyReport) -> (r: FolderApplyReportPayload)
        ensures
            string_views(r.succeeded@) == path_texts(report.succeeded@),
            string_views(r.failed@) == failed_texts(report.failed@),
            r.bytes_reclaimed == report.bytes_reclaimed,
            r.directory_removed == report.directory_removed,
    {
        FolderApplyReportPayload {
            succeeded: path_strings(&report.succeeded),
            failed: failed_strings(&report.failed),
            bytes_reclaimed: report.bytes_reclaimed,
            directory_removed: report.directory_removed,
        }
    }
}

impl vstd::std_specs::convert::FromSpecImpl<&FolderApplyReport> for FolderApplyReportPayload {
    open spec fn obeys_from_spec() -> bool {
        false
    }

    /// Not used: `from` states its result over views instead.
    open spec fn from_spec(report: &FolderApplyReport) -> FolderApplyReportPayload {
        vstd::pervasive::arbitrary()
    }
}

/// A planned folder action and, once applied, what it did.
#[derive(Debug, Clone, PartialEq, Eq)]
pub struct FolderActionResultPayload {
    pub plan: FolderActionPlanPayload,
    pub applied: Option<FolderApplyReportPayload>,
}

impl Default for ScanOptionsPayload {
    /// Nothing set: every flag off, every option left out.
    fn default() -> (r: Self)
        ensures
            !r.follow_symlinks && !r.cross_filesystems && !r.verify_matches,
            r.small_file_threshold is None && r.partial_hash_sample_size is None && r.io_threads is None,
            r.cache_path is None && r.fclones_import_path is None,
            r.min_size is None && r.max_size is None,
            r.include_extensions is None && r.exclude_extensions is None,
            r.exclude_paths@.len() == 0,
    {
        ScanOptionsPayload {
            follow_symlinks: false,
            cross_filesystems: false,
            verify_matches: false,
            small_file_threshold: None,
            partial_hash_sample_size: None,
            io_threads: None,
            cache_path: None,
            fclones_import_path: None,
            min_size: None,
            max_size: None,
            include_extensions: None,
            exclude_extensions: None,
            exclude_paths: Vec::new(),
        }
    }
}

/// A named scan preset: a root to scan and the options to scan it with.
#[derive(Debug, Clone, PartialEq, Eq)]
pub struct ScanProfilePayload {
    pub name: String,
    pub root: String,
    pub options: ScanOptionsPayload,
}

/// One folder of a folder listing, for a front end's folder picker.
#[derive(Debug, Clone, PartialEq, Eq)]
pub struct DirEntryPayload {
    pub name: String,
    pub path: String,
    /// Whether the folder has a visible subfolder of its own.
    pub has_children: bool,
}

/// A file previewed inline, as a `data:` URI.
#[derive(Debug, Clone, PartialEq, Eq)]
pub struct PreviewPayload {
    pub data_url: String,
}

} // verus!
