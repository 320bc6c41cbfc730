//! Metadata snapshots: an immutable, point-in-time record of a filesystem
//! entry's kind, size and timestamps.  The query itself is an OS call made
//! outside this library; what is verified here is the snapshot value, the
//! file-type decision chain, and the encoding of instants as signed whole
//! seconds with an extremal sentinel.

use vstd::prelude::*;

verus! {

/// The kind of a filesystem entry, as a snapshot reports it.
#[allow(non_camel_case_types)]
#[derive(Clone, Copy, PartialEq, Eq, Structural, Debug)]
pub enum MetaFileType {
    FT_File,
    FT_Dir,
    FT_SymLink,
    FT_Other,
}

/// The decision chain of the file-type report: a symbolic link wins, then
/// a regular file, then a directory; anything else is Other.
pub open spec fn classify(is_symlink: bool, is_file: bool, is_dir: bool) -> MetaFileType {
    if is_symlink {
        MetaFileType::FT_SymLink
    } else if is_file {
        MetaFileType::FT_File
    } else if is_dir {
        MetaFileType::FT_Dir
    } else {
        MetaFileType::FT_Other
    }
}

/// Decides the file type from the three flags of one metadata reading.
pub fn path_meta_classify(is_symlink: bool, is_file: bool, is_dir: bool) -> (r: MetaFileType)
    ensures
        r == classify(is_symlink, is_file, is_dir),
{
    if is_symlink {
        MetaFileType::FT_SymLink
    } else if is_file {
        MetaFileType::FT_File
    } else if is_dir {
        MetaFileType::FT_Dir
    } else {
        MetaFileType::FT_Other
    }
}

/// The encoding of an instant: whole seconds relative to the reference
/// epoch, negative before it; the minimum representable value is the
/// sentinel for an unavailable or unrepresentable instant and never a
/// valid timestamp.
pub open spec fn encode_time(available: bool, before_epoch: bool, secs: u64) -> int {
    if !available {
        i64::MIN as int
    } else if secs > i64::MAX as u64 {
        i64::MIN as int
    } else if before_epoch {
        -(secs as int)
    } else {
        secs as int
    }
}

/// Encodes an instant, given whether a reading was available, on which
/// side of the epoch it lies, and its whole-second distance from it.
pub fn map_time(available: bool, before_epoch: bool, secs: u64) -> (r: i64)
    ensures
        r as int == encode_time(available, before_epoch, secs),
{
    if !available {
        i64::MIN
    } else if secs > i64::MAX as u64 {
        i64::MIN
    } else if before_epoch {
        -(secs as i64)
    } else {
        secs as i64
    }
}

/// A point-in-time record of one filesystem entry.  It has no live link
/// to the entry: reading it after the entry changes simply yields the
/// captured, stale values.
pub struct MetaSnapshot {
    kind: MetaFileType,
    size: u64,
    modified: i64,
    accessed: i64,
    created: i64,
}

impl MetaSnapshot {
    pub closed spec fn kind_of(self) -> MetaFileType {
        self.kind
    }

    pub closed spec fn size_of(self) -> u64 {
        self.size
    }

    pub closed spec fn modified_of(self) -> i64 {
        self.modified
    }

    pub closed spec fn accessed_of(self) -> i64 {
        self.accessed
    }

    pub closed spec fn created_of(self) -> i64 {
        self.created
    }
}

/// Captures one metadata reading, handed in as plain values.
pub fn meta_snapshot_new(
    is_symlink: bool,
    is_file: bool,
    is_dir: bool,
    size: u64,
    modified: i64,
    accessed: i64,
    created: i64,
) -> (r: MetaSnapshot)
    ensures
        r.kind_of() == classify(is_symlink, is_file, is_dir),
        r.size_of() == size,
        r.modified_of() == modified,
        r.accessed_of() == accessed,
        r.created_of() == created,
{
    let kind = path_meta_classify(is_symlink, is_file, is_dir);
    MetaSnapshot { kind: kind, size: size, modified: modified, accessed: accessed, created: created }
}

/// The captured file type.
pub fn path_meta_file_type(m: &MetaSnapshot) -> (r: MetaFileType)
    ensures
        r == m.kind_of(),
{
    m.kind
}

/// Whether the captured entry was a regular file.
pub fn path_meta_is_file(m: &MetaSnapshot) -> (r: bool)
    ensures
        r == (m.kind_of() == MetaFileType::FT_File),
{
    m.kind == MetaFileType::FT_File
}

/// Whether the captured entry was a directory.
pub fn path_meta_is_dir(m: &MetaSnapshot) -> (r: bool)
    ensures
        r == (m.kind_of() == MetaFileType::FT_Dir),
{
    m.kind == MetaFileType::FT_Dir
}

/// The captured size in bytes.
pub fn path_meta_file_size(m: &MetaSnapshot) -> (r: u64)
    ensures
        r == m.size_of(),
{
    m.size
}

/// The captured modification instant, in the encoding of `encode_time`.
pub fn path_meta_modified(m: &MetaSnapshot) -> (r: i64)
    ensures
        r == m.modified_of(),
{
    m.modified
}

/// The captured access instant, in the encoding of `encode_time`.
pub fn path_meta_accessed(m: &MetaSnapshot) -> (r: i64)
    ensures
        r == m.accessed_of(),
{
    m.accessed
}

/// The captured creation instant, in the encoding of `encode_time`.
pub fn path_meta_created(m: &MetaSnapshot) -> (r: i64)
    ensures
        r == m.created_of(),
{
    m.created
}

} // verus!
