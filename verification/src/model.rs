//! The data a scan produces and the options it runs under.

use vstd::prelude::*;
use crate::paths::{FsPath, pview, pviews, path_string, path_text};

verus! {

/// Tunables for a scan.
#[derive(Debug, Clone, PartialEq, Eq)]
pub struct ScanOptions {
    /// Follow symbolic links during traversal.
    pub follow_symlinks: bool,
    /// Cross filesystem/mount-point boundaries during traversal.
    pub cross_filesystems: bool,
    /// Byte-compare hash-matched files before reporting them as duplicates.
    pub verify_matches: bool,
    /// Files at or below this size skip the partial-hash stage.
    pub small_file_threshold: u64,
    /// Bytes sampled at the head, middle and tail during the partial-hash stage.
    pub partial_hash_sample_size: u64,
    /// Worker threads in the read pool; `None` picks one from the device.
    pub io_threads: Option<usize>,
    /// Full-file-hash cache location, if caching is wanted.
    pub cache_path: Option<FsPath>,
    /// An existing fclones cache to import full-file hashes from.
    pub fclones_import_path: Option<FsPath>,
    /// Skip files smaller than this many bytes.
    pub min_size: Option<u64>,
    /// Skip files larger than this many bytes.
    pub max_size: Option<u64>,
    /// Only scan files with one of these extensions (case-insensitive).
    pub include_extensions: Option<Vec<String>>,
    /// Skip files with one of these extensions (case-insensitive).
    pub exclude_extensions: Option<Vec<String>>,
    /// Skip these paths and everything beneath them.
    pub exclude_paths: Vec<FsPath>,
}

/// Default partial-hash threshold: 128 KiB.
pub const DEFAULT_SMALL_FILE_THRESHOLD: u64 = 131072;
/// Default partial-hash sample size: 16 KiB.
pub const DEFAULT_PARTIAL_HASH_SAMPLE_SIZE: u64 = 16384;

impl Default for ScanOptions {
    fn default() -> (r: Self)
        ensures
            !r.follow_symlinks,
            !r.cross_filesystems,
            !r.verify_matches,
            r.small_file_threshold == DEFAULT_SMALL_FILE_THRESHOLD,
            r.partial_hash_sample_size == DEFAULT_PARTIAL_HASH_SAMPLE_SIZE,
            r.io_threads is None,
            r.cache_path is None,
            r.fclones_import_path is None,
            r.min_size is None,
            r.max_size is None,
            r.include_extensions is None,
            r.exclude_extensions is None,
            r.exclude_paths@.len() == 0,
    {
        ScanOptions {
            follow_symlinks: false,
            cross_filesystems: false,
            verify_matches: false,
            small_file_threshold: DEFAULT_SMALL_FILE_THRESHOLD,
            partial_hash_sample_size: DEFAULT_PARTIAL_HASH_SAMPLE_SIZE,
            io_threads: None,
            cache_path: None,
            fclones_import_path: None,
            min_size: None,
            max_size: None,
            include_extensions: None,
            exclude_extensions: None,
            exclude_paths: Vec::new(),
        }
    }
}

/// A set of files confirmed to have identical content.
#[derive(Debug, Clone, PartialEq, Eq)]
pub struct DuplicateGroup {
    /// Size in bytes shared by every file in the group.
    pub size: u64,
    /// Every path with this content, hardlink aliases included, sorted.
    pub paths: Vec<FsPath>,
}

impl DuplicateGroup {
    /// The components of every path in the group.
    pub open spec fn path_views(&self) -> Seq<Seq<Seq<char>>> {
        pviews(self.paths@)
    }
}

/// One regular file found by a traversal: its path and size.
#[derive(Debug, Clone, PartialEq, Eq)]
pub struct ListedFile {
    pub path: FsPath,
    pub size: u64,
}

/// What a stat-only traversal of a directory found: whether the directory
/// exists as one, every regular file below it that it could stat, and every
/// other entry below it that is not a directory (one it could not read, a
/// symlink, a special file).
#[derive(Debug, Clone, PartialEq, Eq)]
pub struct TreeListing {
    pub is_dir: bool,
    pub files: Vec<ListedFile>,
    pub unreadable: Vec<FsPath>,
}

/// A failure that prevents a scan from starting at all.
#[derive(Debug, Clone, PartialEq, Eq)]
pub enum ScanError {
    /// The root path does not exist or is not a directory.
    InvalidRoot(FsPath),
}

/// A failure reading or stat-ing one file; the scan goes on without it.
#[derive(Debug, Clone, PartialEq, Eq)]
pub struct FileError {
    pub path: FsPath,
    pub message: String,
}

/// Why a folder action could not be planned at all.
#[derive(Debug, Clone, PartialEq, Eq)]
pub enum FolderActionError {
    /// The folder to act on is not a directory.
    NotADirectory(FsPath),
    /// `path` has no confirmed duplicate at `expected_partner`.
    NoConfirmedDuplicate { path: FsPath, expected_partner: FsPath },
}

/// A traversal progress checkpoint; counts are cumulative.
#[derive(Debug, Default, Clone, Copy, PartialEq, Eq)]
pub struct ScanProgress {
    pub files_scanned: u64,
    pub bytes_scanned: u64,
}

/// Aggregate counters reported once a scan completes.
#[derive(Debug, Default, Clone, Copy, PartialEq, Eq)]
pub struct ScanSummary {
    pub files_scanned: u64,
    pub bytes_scanned: u64,
    pub duplicate_groups: u64,
    pub duplicate_files: u64,
}

/// One item of a streaming scan result.
#[derive(Debug, Clone, PartialEq, Eq)]
pub enum ScanEvent {
    DuplicateGroup(DuplicateGroup),
    Error(FileError),
    Progress(ScanProgress),
    Finished(ScanSummary),
}

/// A file's platform identity: device plus inode on Unix, volume plus index on Windows.
#[derive(Debug, Clone, Copy, PartialEq, Eq, Structural)]
pub enum FileIdentity {
    Inode { device_id: u64, inode_number: u64 },
    LowRes { volume_serial_number: u32, file_index: u64 },
    HighRes { volume_serial_number: u64, file_id: u128 },
}

impl ScanError {
    /// The message shown for this error.
    pub fn text(&self) -> (r: String)
        ensures
            match self {
                ScanError::InvalidRoot(p) => r@ == "root path does not exist or is not a directory: "@ + path_text(
                    pview(*p),
                ),
            },
    {
        match self {
            ScanError::InvalidRoot(p) => {
                let mut out = String::from_str("root path does not exist or is not a directory: ");
                let s = path_string(p);
                out.append(s.as_str());
                out
            },
        }
    }
}

impl FileError {
    /// The message shown for this error: the path, then what went wrong.
    pub fn text(&self) -> (r: String)
        ensures
            r@ == path_text(pview(self.path)) + ": "@ + self.message@,
    {
        let mut out = path_string(&self.path);
        out.append(": ");
        out.append(self.message.as_str());
        out
    }
}

impl FolderActionError {
    /// The message shown for this error.
    pub fn text(&self) -> (r: String)
        ensures
            match self {
                FolderActionError::NotADirectory(p) => r@ == path_text(pview(*p)) + " is not a directory"@,
                FolderActionError::NoConfirmedDuplicate { path, expected_partner } => r@ == path_text(pview(*path))
                    + " has no confirmed duplicate at "@ + path_text(pview(*expected_partner)),
            },
    {
        match self {
            FolderActionError::NotADirectory(p) => {
                let mut out = path_string(p);
                out.append(" is not a directory");
                out
            },
            FolderActionError::NoConfirmedDuplicate { path, expected_partner } => {
                let mut out = path_string(path);
                out.append(" has no confirmed duplicate at ");
                let q = path_string(expected_partner);
                out.append(q.as_str());
                out
            },
        }
    }
}

} // verus!
