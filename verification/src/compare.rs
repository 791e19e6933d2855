//! Deciding whether a path on the system and its canonical copy in the
//! files store are already equal. The filesystem reads happen outside; this
//! module holds every decision taken on what was read: which difference to
//! report, in which order the checks run, and when the verdict is reached.

use vstd::prelude::*;

use crate::bytes::eq_bytes;

verus! {

/// What kind of filesystem object a path is.
#[derive(Clone, Copy, Debug, PartialEq, Eq, Structural)]
pub enum FileKind {
    File,
    Dir,
    Symlink,
    Other,
}

/// The metadata of one path, as plain values.
#[derive(Clone, Copy, Debug, PartialEq, Eq, Structural)]
pub struct MetaInfo {
    pub kind: FileKind,
    /// The object's size in bytes.
    pub len: u64,
    /// The permission bits.
    pub mode: u32,
}

/// In what respect the two paths differ.
#[derive(Clone, Copy, Debug, PartialEq, Eq, Structural)]
pub enum PathDiff {
    FileType,
    Length,
    Permissions,
    SymlinkTarget,
    ContentLength,
    Content,
}

/// What to do next after comparing metadata.
#[derive(Clone, Copy, Debug, PartialEq, Eq, Structural)]
pub enum CompareStep {
    /// The paths differ; no further reads are needed.
    Differs(PathDiff),
    /// Both are symlinks: read both targets and compare them.
    CheckSymlinkTargets,
    /// Both are plain files: read both contents chunk by chunk.
    CheckContents,
    /// The paths are equal as far as metadata can tell.
    Equal,
}

/// The verdict on one pair of chunks read from the two files.
#[derive(Clone, Copy, Debug, PartialEq, Eq, Structural)]
pub enum ChunkStep {
    /// The files differ; stop reading.
    Differs(PathDiff),
    /// Both reads hit the end together: the files are equal.
    Done,
    /// The chunks agree; keep reading.
    More,
}

/// The decision that two paths' metadata dictates: the first difference
/// among file type, length and permissions wins; equal symlinks still need
/// their targets read, equal plain files their contents.
pub open spec fn spec_compare_metadata(system: MetaInfo, config: MetaInfo) -> CompareStep {
    if system.kind != config.kind {
        CompareStep::Differs(PathDiff::FileType)
    } else if system.len != config.len {
        CompareStep::Differs(PathDiff::Length)
    } else if system.mode != config.mode {
        CompareStep::Differs(PathDiff::Permissions)
    } else if system.kind == FileKind::Symlink {
        CompareStep::CheckSymlinkTargets
    } else if system.kind == FileKind::File {
        CompareStep::CheckContents
    } else {
        CompareStep::Equal
    }
}

/// Compares the metadata of the system path and the config path.
pub fn compare_metadata(system: &MetaInfo, config: &MetaInfo) -> (r: CompareStep)
    ensures
        r == spec_compare_metadata(*system, *config),
{
    if system.kind != config.kind {
        CompareStep::Differs(PathDiff::FileType)
    } else if system.len != config.len {
        CompareStep::Differs(PathDiff::Length)
    } else if system.mode != config.mode {
        CompareStep::Differs(PathDiff::Permissions)
    } else if system.kind == FileKind::Symlink {
        CompareStep::CheckSymlinkTargets
    } else if system.kind == FileKind::File {
        CompareStep::CheckContents
    } else {
        CompareStep::Equal
    }
}

/// Compares the targets of two symlinks: equal targets mean equal paths,
/// different targets are the one remaining difference a symlink can have.
pub fn compare_link_targets(system_target: &Vec<u8>, config_target: &Vec<u8>) -> (r: Option<
    PathDiff,
>)
    ensures
        r is None <==> system_target@ == config_target@,
        r matches Some(d) ==> d == PathDiff::SymlinkTarget,
{
    if eq_bytes(system_target, config_target) {
        None
    } else {
        Some(PathDiff::SymlinkTarget)
    }
}

/// The verdict on one pair of chunks: reads of different length mean the
/// contents diverge; two empty reads mean both files ended equal; equal
/// chunks mean the comparison goes on.
pub open spec fn spec_compare_chunk(system_chunk: Seq<u8>, config_chunk: Seq<u8>) -> ChunkStep {
    if system_chunk.len() != config_chunk.len() {
        ChunkStep::Differs(PathDiff::ContentLength)
    } else if system_chunk.len() == 0 {
        ChunkStep::Done
    } else if system_chunk != config_chunk {
        ChunkStep::Differs(PathDiff::Content)
    } else {
        ChunkStep::More
    }
}

/// Compares one pair of chunks read from the two files.
pub fn compare_chunk(system_chunk: &Vec<u8>, config_chunk: &Vec<u8>) -> (r: ChunkStep)
    ensures
        r == spec_compare_chunk(system_chunk@, config_chunk@),
{
    if system_chunk.len() != config_chunk.len() {
        ChunkStep::Differs(PathDiff::ContentLength)
    } else if system_chunk.len() == 0 {
        ChunkStep::Done
    } else if !eq_bytes(system_chunk, config_chunk) {
        ChunkStep::Differs(PathDiff::Content)
    } else {
        ChunkStep::More
    }
}

} // verus!
