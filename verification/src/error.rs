use vstd::prelude::*;

verus! {

/// Everything that can go wrong while packing or unpacking an archive.
///
/// The decoder produces `BadMagic`, `VersionMismatch`, `TruncatedArchive`,
/// `InvalidPathEncoding`, `PathEscapesRoot` and `SizeMismatch`; the two
/// remaining variants are reported by callers that do the filesystem work
/// around the codec: `PathOutsideRoot` when a file chosen for packing is not
/// a descendant of the packing root, and `IoError` when the underlying
/// storage fails.
#[derive(Clone, Copy, Debug, PartialEq, Eq, Structural)]
pub enum ZapError {
    BadMagic,
    VersionMismatch,
    TruncatedArchive,
    InvalidPathEncoding,
    PathEscapesRoot,
    PathOutsideRoot,
    IoError,
    SizeMismatch,
}

} // verus!
