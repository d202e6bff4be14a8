//! The decisions a traversal makes about each entry it meets: excluded
//! subtrees, the size and extension filters, and the filesystem boundary.

use vstd::prelude::*;
use crate::model::{FileIdentity, ScanOptions};
use crate::paths::{FsPath, pview, pviews, starts_with, path_starts_with};
use crate::text::{eq_ignore_ascii_case, eq_ignore_ascii_case_exec};

verus! {

/// Which filesystem or volume a file lives on.
pub open spec fn device_of(id: FileIdentity) -> Option<u64> {
    match id {
        FileIdentity::Inode { device_id, .. } => Some(device_id),
        FileIdentity::LowRes { volume_serial_number, .. } => Some(volume_serial_number as u64),
        FileIdentity::HighRes { volume_serial_number, .. } => Some(volume_serial_number),
    }
}

/// The device or volume component of a file identity, whatever the platform.
pub fn device_component(id: &FileIdentity) -> (r: Option<u64>)
    ensures
        r == device_of(*id),
{
    match id {
        FileIdentity::Inode { device_id, .. } => Some(*device_id),
        FileIdentity::LowRes { volume_serial_number, .. } => Some(*volume_serial_number as u64),
        FileIdentity::HighRes { volume_serial_number, .. } => Some(*volume_serial_number),
    }
}

/// A file is skipped for lying on another filesystem than the root, unless
/// crossing is allowed or either device is unknown.
pub fn is_excluded_by_filesystem_boundary(
    cross_filesystems: bool,
    root_device: Option<u64>,
    entry_device: Option<u64>,
) -> (r: bool)
    ensures
        r == (!cross_filesystems && root_device is Some && entry_device is Some && root_device != entry_device),
{
    if cross_filesystems {
        return false;
    }
    match (root_device, entry_device) {
        (Some(root), Some(entry)) => root != entry,
        _ => false,
    }
}

/// `size` passes the inclusive `min_size` / `max_size` bounds that are set.
pub open spec fn size_ok(size: u64, options: ScanOptions) -> bool {
    &&& (options.min_size matches Some(min) ==> size >= min)
    &&& (options.max_size matches Some(max) ==> size <= max)
}

/// Whether a file's size passes the size filters.
pub fn size_allowed(size: u64, options: &ScanOptions) -> (r: bool)
    ensures
        r == size_ok(size, *options),
{
    if let Some(min) = options.min_size {
        if size < min {
            return false;
        }
    }
    if let Some(max) = options.max_size {
        if size > max {
            return false;
        }
    }
    true
}

/// The position of the last `.` in `name`.
pub open spec fn last_dot(name: Seq<char>) -> Option<int>
    decreases name.len(),
{
    if name.len() == 0 {
        None
    } else if name.last() == '.' {
        Some(name.len() - 1)
    } else {
        last_dot(name.drop_last())
    }
}

/// The file name of a path: its last component, unless that is the root,
/// `.` or `..`.
pub open spec fn file_name(p: Seq<Seq<char>>) -> Option<Seq<char>> {
    if p.len() == 0 || p.last() == "/"@ || p.last() == "."@ || p.last() == ".."@ {
        None
    } else {
        Some(p.last())
    }
}

/// `Path::extension`: what follows the last `.` of the file name, unless
/// there is no `.`, or the only `.` starts the name.
pub open spec fn extension(p: Seq<Seq<char>>) -> Option<Seq<char>> {
    match file_name(p) {
        Some(n) => match last_dot(n) {
            Some(d) => if d > 0 {
                Some(n.skip(d + 1))
            } else {
                None
            },
            None => None,
        },
        None => None,
    }
}

proof fn lemma_last_dot_bounds(name: Seq<char>)
    ensures
        last_dot(name) matches Some(d) ==> 0 <= d < name.len() && name[d] == '.' && forall|k: int|
            d < k < name.len() ==> name[k] != '.',
        last_dot(name) is None ==> forall|k: int| 0 <= k < name.len() ==> name[k] != '.',
    decreases name.len(),
{
    if name.len() > 0 {
        let rest = name.drop_last();
        lemma_last_dot_bounds(rest);
        assert forall|k: int| 0 <= k < rest.len() implies rest[k] == name[k] by {}
        if name.last() != '.' {
            match last_dot(rest) {
                Some(d) => {
                    assert forall|k: int| d < k < name.len() implies name[k] != '.' by {
                        if k < rest.len() {
                            assert(rest[k] == name[k]);
                        }
                    }
                },
                None => {
                    assert forall|k: int| 0 <= k < name.len() implies name[k] != '.' by {
                        if k < rest.len() {
                            assert(rest[k] == name[k]);
                        }
                    }
                },
            }
        }
    }
}

/// The extension of `path`, as `Path::extension` gives it.
pub fn file_extension(path: &FsPath) -> (r: Option<String>)
    ensures
        match extension(pview(*path)) {
            Some(e) => r matches Some(s) && s@ == e,
            None => r is None,
        },
{
    let n = path.len();
    if n == 0 {
        return None;
    }
    let last = path[n - 1].as_str();
    assert(pview(*path).last() == last@);
    let slash = "/";
    let dot = ".";
    let dotdot = "..";
    proof {
        reveal_strlit("/");
        reveal_strlit(".");
        reveal_strlit("..");
    }
    if crate::text::text_eq(last, slash) || crate::text::text_eq(last, dot) || crate::text::text_eq(last, dotdot) {
        return None;
    }
    let len = last.unicode_len();
    let mut k: usize = len;
    while k > 0 && last.get_char(k - 1) != '.'
        invariant
            len == last@.len(),
            k <= len,
            forall|q: int| k <= q < len ==> last@[q] != '.',
        decreases k,
    {
        k = k - 1;
    }
    proof {
        lemma_last_dot_bounds(last@);
        match last_dot(last@) {
            Some(d) => {
                if k > 0 {
                    assert(d == k - 1);
                } else {
                    assert(last@[d] == '.');
                }
            },
            None => {
                if k > 0 {
                    assert(last@[k - 1] == '.');
                }
            },
        }
    }
    if k <= 1 {
        return None;
    }
    Some(last.substring_char(k, len).to_owned())
}

/// Whether some entry of `list` equals `e` ignoring ASCII case.
pub open spec fn listed_ignoring_case(list: Seq<String>, e: Seq<char>) -> bool {
    exists|k: int| 0 <= k < list.len() && eq_ignore_ascii_case(#[trigger] list[k]@, e)
}

fn listed_ignoring_case_exec(list: &Vec<String>, e: &str) -> (r: bool)
    ensures
        r == listed_ignoring_case(list@, e@),
{
    let mut k: usize = 0;
    while k < list.len()
        invariant
            k <= list@.len(),
            forall|q: int| 0 <= q < k ==> !eq_ignore_ascii_case(#[trigger] list@[q]@, e@),
        decreases list@.len() - k,
    {
        if eq_ignore_ascii_case_exec(list[k].as_str(), e) {
            return true;
        }
        k = k + 1;
    }
    false
}

/// The extension filters: a non-empty include list admits only files whose
/// extension it lists (so never a file without one); the exclude list
/// rejects files whose extension it lists, and always wins. Comparison
/// ignores ASCII case.
pub open spec fn extension_ok(p: Seq<Seq<char>>, options: ScanOptions) -> bool {
    let ext = extension(p);
    let included = match options.include_extensions {
        Some(wanted) => wanted@.len() == 0 || (ext is Some && listed_ignoring_case(wanted@, ext->0)),
        None => true,
    };
    let excluded = match options.exclude_extensions {
        Some(unwanted) => ext is Some && listed_ignoring_case(unwanted@, ext->0),
        None => false,
    };
    included && !excluded
}

/// Whether a file's extension passes the extension filters.
pub fn extension_allowed(path: &FsPath, options: &ScanOptions) -> (r: bool)
    ensures
        r == extension_ok(pview(*path), *options),
{
    let ext = file_extension(path);
    if let Some(wanted) = &options.include_extensions {
        if wanted.len() > 0 {
            match &ext {
                Some(e) => {
                    if !listed_ignoring_case_exec(wanted, e.as_str()) {
                        return false;
                    }
                },
                None => {
                    return false;
                },
            }
        }
    }
    if let Some(exclude) = &options.exclude_extensions {
        if let Some(e) = &ext {
            if listed_ignoring_case_exec(exclude, e.as_str()) {
                return false;
            }
        }
    }
    true
}

/// Whether `path` is one of `exclude_paths` or lies beneath one; such an
/// entry is pruned from the walk together with everything below it.
pub fn is_excluded_path(path: &FsPath, exclude_paths: &Vec<FsPath>) -> (r: bool)
    ensures
        r == exists|k: int| 0 <= k < exclude_paths@.len() && starts_with(pview(*path), #[trigger] pviews(exclude_paths@)[k]),
{
    let mut k: usize = 0;
    while k < exclude_paths.len()
        invariant
            k <= exclude_paths@.len(),
            forall|q: int| 0 <= q < k ==> !starts_with(pview(*path), #[trigger] pviews(exclude_paths@)[q]),
        decreases exclude_paths@.len() - k,
    {
        if path_starts_with(path, &exclude_paths[k]) {
            assert(pviews(exclude_paths@)[k as int] == pview(exclude_paths@[k as int]));
            return true;
        }
        k = k + 1;
    }
    false
}

} // verus!
