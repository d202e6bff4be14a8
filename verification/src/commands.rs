//! The decisions behind the front end's commands. Each takes what the
//! command read from disk (modification times, the saved presets, the
//! outcome of carrying out a plan) as arguments and returns what the
//! command answers with; reading and writing stay with the caller.

use vstd::prelude::*;
use crate::action::{ActionPlan, ApplyReport};
use crate::folder_action::{FolderActionPlan, FolderApplyReport};
use crate::folder_dedup::PathV;
use crate::model::DuplicateGroup;
use crate::paths::{FsPath, pview, path_string, path_text, parse_components};
use crate::payload::{
    GroupPayload, ChooseKeepPayload, ScanProfilePayload, ScanOptionsPayload, ActionPlanPayload,
    ApplyReportPayload, ActionResultPayload, FolderActionPlanPayload, FolderApplyReportPayload,
    FolderActionResultPayload, parse_keep_rule, rule_named, unknown_rule_message, parsed_views,
    normalize_path_list, normalize_path_input, normalized_input, string_views, path_texts, planned_texts,
    failed_texts,
};
use crate::preview::{mime_of, mime_for_extension};
use crate::profiles::{upsert, upserted};
use crate::select::keep_choice;
use crate::text::{trim, trim_text};
use crate::traversal::extension;
use crate::payload::DirEntryPayload;
use crate::sort::{SortByView, views, view_order, sort_by_view};
use crate::order::{text_le, lemma_text_total};
use crate::text::text_le_exec;
use vstd::relations::sorted_by;

verus! {

/// The error for a preset saved without a name.
pub open spec fn missing_name_message() -> Seq<char> {
    "a scan profile needs a name"@
}

/// A preset's name as typed, trimmed; a name that is empty once trimmed is refused.
pub fn profile_name(name: &str) -> (r: Result<String, String>)
    ensures
        trim(name@).len() == 0 ==> (r matches Err(e) && e@ == missing_name_message()),
        trim(name@).len() > 0 ==> (r matches Ok(n) && n@ == trim(name@)),
{
    let t = trim_text(name);
    if t.as_str().unicode_len() == 0 {
        Err(String::from_str("a scan profile needs a name"))
    } else {
        Ok(t)
    }
}

/// Saves the preset `name` for `root` and `options` into `profiles`, the
/// presets saved so far: the name is trimmed and must not be empty, the
/// root is normalized as a typed path, and a preset of the same name is
/// replaced. Answers with the whole updated list.
pub fn save_scan_profile(
    profiles: Vec<ScanProfilePayload>,
    name: &str,
    root: &str,
    options: ScanOptionsPayload,
) -> (r: Result<Vec<ScanProfilePayload>, String>)
    ensures
        trim(name@).len() == 0 ==> (r matches Err(e) && e@ == missing_name_message()),
        trim(name@).len() > 0 ==> (r matches Ok(v) && exists|p: ScanProfilePayload|
            p.name@ == trim(name@) && p.root@ == normalized_input(root@) && p.options == options && v@
                == upserted(profiles@, p)),
{
    match profile_name(name) {
        Err(e) => Err(e),
        Ok(n) => {
            let profile = ScanProfilePayload { name: n, root: normalize_path_input(root), options };
            let v = upsert(profiles, profile);
            assert(v@ == upserted(profiles@, profile));
            Ok(v)
        },
    }
}

/// The reference folders typed by a user, each normalized and read as a path.
pub open spec fn typed_paths(ss: Seq<String>) -> Seq<PathV> {
    ss.map_values(|s: String| parse_components(normalized_input(s@)))
}

/// Which copy of `group` the rule named `rule` keeps, and why, without
/// planning anything. `modified[i]` is the modification time read for
/// `group.paths[i]`, `None` where it could not be read. An unknown rule
/// name is refused.
pub fn choose_keep(
    group: GroupPayload,
    rule: &str,
    reference_paths: &Vec<String>,
    modified: &Vec<Option<i128>>,
) -> (r: Result<ChooseKeepPayload, String>)
    requires
        group.paths@.len() > 0,
        modified@.len() == group.paths@.len(),
    ensures
        match rule_named(rule@) {
            None => r matches Err(e) && e@ == unknown_rule_message(rule@),
            Some(x) => r matches Ok(c) && exists|k: int|
                0 <= k < group.paths@.len() && c.keep@ == path_text(parsed_views(group.paths@)[k]) && keep_choice(
                    parsed_views(group.paths@),
                    x,
                    typed_paths(reference_paths@),
                    modified@,
                    k,
                    c.reason@,
                ),
        },
{
    let x = match parse_keep_rule(rule) {
        Ok(x) => x,
        Err(e) => {
            return Err(e);
        },
    };
    let ghost paths = group.paths@;
    let g = DuplicateGroup { size: group.size, paths: crate::payload::parse_paths(&group.paths) };
    assert(crate::paths::pviews(g.paths@).len() == g.paths@.len());
    assert(parsed_views(paths).len() == paths.len());
    let refs = normalize_path_list(reference_paths);
    let (k, reason) = crate::select::choose_keep_index(&g, x, &refs, modified);
    let shown = path_string(&g.paths[k]);
    assert(g.path_views() == parsed_views(paths));
    assert(crate::paths::pviews(refs@) == typed_paths(reference_paths@));
    let ghost shown_view = shown@;
    let ghost reason_view = reason@;
    let r: Result<ChooseKeepPayload, String> = Ok(ChooseKeepPayload { keep: shown, reason });
    assert(r->Ok_0.keep@ == shown_view && r->Ok_0.reason@ == reason_view);
    assert(keep_choice(parsed_views(paths), x, typed_paths(reference_paths@), modified@, k as int, reason_view));
    r
}

/// The reason shown for the kept copy when the front end gave none.
pub open spec fn shown_reason(keep_reason: Option<Seq<char>>) -> Seq<char> {
    match keep_reason {
        Some(s) => s,
        None => "your choice"@,
    }
}

/// The answer to an action request: the plan, with the reason the kept copy
/// was kept ("your choice" when none was given), and, when the plan was
/// carried out, its report.
pub fn action_result(plan: &ActionPlan, keep_reason: Option<&str>, report: Option<&ApplyReport>) -> (r:
    ActionResultPayload)
    ensures
        r.plan.kept@ == path_text(pview(plan.kept)),
        r.plan.keep_reason@ == shown_reason(
            match keep_reason {
                Some(s) => Some(s@),
                None => None,
            },
        ),
        string_views(r.plan.planned@) == planned_texts(*plan),
        r.plan.bytes_reclaimed == plan.bytes_reclaimed,
        match report {
            None => r.applied is None,
            Some(rep) => r.applied matches Some(a) && string_views(a.succeeded@) == path_texts(rep.succeeded@)
                && string_views(a.failed@) == failed_texts(rep.failed@) && a.bytes_reclaimed == rep.bytes_reclaimed,
        },
{
    let reason = match keep_reason {
        Some(s) => s,
        None => "your choice",
    };
    let shown = ActionPlanPayload::from((plan, reason));
    let applied = match report {
        Some(rep) => Some(ApplyReportPayload::from(rep)),
        None => None,
    };
    ActionResultPayload { plan: shown, applied }
}

/// The answer to a folder action request: the plan and, when it was carried
/// out, its report.
pub fn folder_action_result(plan: &FolderActionPlan, report: Option<&FolderApplyReport>) -> (r:
    FolderActionResultPayload)
    ensures
        r.plan.kept@ == path_text(pview(plan.kept)),
        r.plan.removed@ == path_text(pview(plan.removed)),
        r.plan.file_count == plan.pairs@.len(),
        r.plan.bytes_reclaimed == plan.bytes_reclaimed,
        match report {
            None => r.applied is None,
            Some(rep) => r.applied matches Some(a) && string_views(a.succeeded@) == path_texts(rep.succeeded@)
                && string_views(a.failed@) == failed_texts(rep.failed@) && a.bytes_reclaimed == rep.bytes_reclaimed
                && a.directory_removed == rep.directory_removed,
        },
{
    let shown = FolderActionPlanPayload::from(plan);
    let applied = match report {
        Some(rep) => Some(FolderApplyReportPayload::from(rep)),
        None => None,
    };
    FolderActionResultPayload { plan: shown, applied }
}

/// The refusal of a file that cannot be previewed.
pub open spec fn unsupported_preview_message() -> Seq<char> {
    "unsupported file type for preview"@
}

/// The MIME type a preview of `path` is sent as, or the refusal when its
/// extension is not one a preview is made for.
pub fn preview_type(path: &FsPath) -> (r: Result<&'static str, String>)
    ensures
        match extension(pview(*path)) {
            Some(e) => match mime_of(e) {
                Some(m) => r matches Ok(s) && s@ == m,
                None => r matches Err(msg) && msg@ == unsupported_preview_message(),
            },
            None => r matches Err(msg) && msg@ == unsupported_preview_message(),
        },
{
    match mime_for_extension(path) {
        Some(m) => Ok(m),
        None => Err(String::from_str("unsupported file type for preview")),
    }
}

/// What `str::to_lowercase` gives for a text: its full Unicode lowercase mapping.
pub uninterp spec fn lowercase(s: Seq<char>) -> Seq<char>;

/// `str::to_lowercase`; its result is named `lowercase` of the text.
#[verifier::external_body]
fn to_lowercase(s: &str) -> (r: String)
    ensures
        r@ == lowercase(s@),
{
    s.to_lowercase()
}

impl SortByView for DirEntryPayload {
    type V = Seq<char>;

    open spec fn sort_view(&self) -> Seq<char> {
        lowercase(self.name@)
    }

    open spec fn view_le(a: Seq<char>, b: Seq<char>) -> bool {
        text_le(a, b)
    }

    proof fn lemma_view_le_total() {
        lemma_text_total();
        assert((|a: Seq<char>, b: Seq<char>| Self::view_le(a, b)) =~= (|a: Seq<char>, b: Seq<char>| text_le(a, b)));
    }

    fn le_exec(&self, other: &Self) -> (r: bool) {
        let a = to_lowercase(self.name.as_str());
        let b = to_lowercase(other.name.as_str());
        text_le_exec(a.as_str(), b.as_str())
    }
}

/// A name the folder picker hides: one starting with a dot.
pub open spec fn hidden(name: Seq<char>) -> bool {
    name.len() > 0 && name[0] == '.'
}

/// Whether an entry of a folder is shown by the folder picker: only
/// folders, and none whose name starts with a dot.
pub fn shown_in_browser(name: &str, is_dir: bool) -> (r: bool)
    ensures
        r == (is_dir && !hidden(name@)),
{
    is_dir && !(name.unicode_len() > 0 && name.get_char(0) == '.')
}

/// The entries of a folder listing that are shown, each with whether it is a folder.
pub open spec fn shown_entries(found: Seq<(DirEntryPayload, bool)>) -> Seq<DirEntryPayload> {
    found.filter(|e: (DirEntryPayload, bool)| e.1 && !hidden(e.0.name@)).map_values(
        |e: (DirEntryPayload, bool)| e.0,
    )
}

/// A folder listing for the folder picker: of the entries found (each with
/// whether it is a folder), the visible folders, ordered by their
/// lowercased names.
pub fn list_directory(found: Vec<(DirEntryPayload, bool)>) -> (r: Vec<DirEntryPayload>)
    ensures
        r@.to_multiset() == shown_entries(found@).to_multiset(),
        sorted_by(views(r@), view_order::<DirEntryPayload>()),
{
    let ghost all = found@;
    let ghost keep = |e: (DirEntryPayload, bool)| e.1 && !hidden(e.0.name@);
    let ghost first = |e: (DirEntryPayload, bool)| e.0;
    let mut shown: Vec<DirEntryPayload> = Vec::new();
    let mut rest = found;
    let mut taken: usize = 0;
    let n = rest.len();
    let mut stack: Vec<(DirEntryPayload, bool)> = Vec::new();
    while rest.len() > 0
        invariant
            all == rest@ + stack@.reverse(),
            all.len() == n,
        decreases rest@.len(),
    {
        let ghost before = rest@;
        let e = rest.pop().unwrap();
        let ghost s0 = stack@;
        stack.push(e);
        proof {
            assert(before =~= rest@.push(e));
            assert(stack@.reverse() =~= seq![e] + s0.reverse());
            assert(all =~= rest@ + stack@.reverse());
        }
    }
    assert(all =~= stack@.reverse());
    while stack.len() > 0
        invariant
            all == all.take(taken as int) + stack@.reverse(),
            taken <= all.len(),
            all.len() == n,
            shown@ == all.take(taken as int).filter(keep).map_values(first),
            keep == (|e: (DirEntryPayload, bool)| e.1 && !hidden(e.0.name@)),
            first == (|e: (DirEntryPayload, bool)| e.0),
        decreases stack@.len(),
    {
        let ghost s0 = stack@;
        let e = stack.pop().unwrap();
        proof {
            assert(s0 =~= stack@.push(e));
            assert(s0.reverse() =~= seq![e] + stack@.reverse());
            assert(all[taken as int] == e);
            assert(all.take(taken + 1) =~= all.take(taken as int).push(e));
            all.take(taken as int).lemma_filter_push(e, keep);
        }
        let show = shown_in_browser(e.0.name.as_str(), e.1);
        if show {
            let ghost before = shown@;
            shown.push(e.0);
            assert(shown@ =~= before.push(first(e)));
        }
        taken = taken + 1;
        proof {
            assert(all =~= all.take(taken as int) + stack@.reverse());
        }
    }
    assert(all.take(taken as int) =~= all);
    sort_by_view(shown)
}

} // verus!
