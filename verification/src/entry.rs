//! Classification of directory children.
//!
//! A directory listing hands back one child at a time: a path together with
//! its metadata (whether it is a directory, and its byte length).  The
//! classifier turns that into an `Entry`: either a terminal `FileEntry`,
//! carrying the size to report, or a `DirEntry`, to be walked in turn.

use vstd::prelude::*;

verus! {

/// A regular file discovered during a scan: its path and its size in bytes.
///
/// Produced once when the file's metadata is read, then handed to the
/// consumer by move; it is never mutated afterwards.
#[derive(Debug, Clone, PartialEq, Eq)]
pub struct FileEntry {
    pub path: String,
    pub size: u64,
}

impl View for FileEntry {
    type V = (Seq<char>, u64);

    open spec fn view(&self) -> (Seq<char>, u64) {
        (self.path@, self.size)
    }
}

/// A directory discovered during a scan but not yet walked.
///
/// It is consumed exactly once by starting a walk of that directory and is
/// never retained afterwards.
#[derive(Debug, Clone, PartialEq, Eq)]
pub struct DirEntry {
    pub path: String,
}

impl View for DirEntry {
    type V = Seq<char>;

    open spec fn view(&self) -> Seq<char> {
        self.path@
    }
}

/// The classification of one directory child: a regular-file-like object,
/// or a directory to recurse into.
#[derive(Debug, Clone, PartialEq, Eq)]
pub enum Entry {
    File(FileEntry),
    Dir(DirEntry),
}

/// The path an entry was classified at, whichever variant it is.
pub open spec fn entry_path(e: Entry) -> Seq<char> {
    match e {
        Entry::File(f) => f.path@,
        Entry::Dir(d) => d.path@,
    }
}

/// The records of a sequence of file entries, in emission order.
pub open spec fn entry_views(s: Seq<FileEntry>) -> Seq<(Seq<char>, u64)> {
    s.map_values(|e: FileEntry| e@)
}

/// Why a scan stopped early.
#[derive(Debug, Clone, Copy, PartialEq, Eq, Structural)]
pub enum ScanError {
    /// A listing failed because the path is not a directory.
    NotADirectory,
    /// A listing failed because the directory cannot be read.
    PermissionDenied,
    /// A child's metadata could not be read.
    Metadata,
    /// Any other fault reported while listing or reading metadata.
    Other,
}

/// Classifies one directory child from its metadata: a directory becomes a
/// `DirEntry` to recurse into; anything else becomes a `FileEntry` whose size
/// is whatever the metadata reported.
pub fn classify_entry(path: String, is_dir: bool, size: u64) -> (e: Entry)
    ensures
        is_dir ==> (e matches Entry::Dir(d) && d.path@ == path@),
        !is_dir ==> (e matches Entry::File(f) && f.path@ == path@ && f.size == size),
{
    if is_dir {
        Entry::Dir(DirEntry { path })
    } else {
        Entry::File(FileEntry { path, size })
    }
}

} // verus!
