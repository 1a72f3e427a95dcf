//! The error kinds that the archive operations report.
use vstd::prelude::*;

verus! {

/// Why an archive operation failed.
#[derive(Debug, Clone, Copy, PartialEq, Eq, Structural)]
pub enum ArchiveError {
    /// A missing source, a wrong magic number, or a footer whose sizes do not fit together.
    InvalidInput,
    /// Truncated or inconsistent archive data.
    InvalidData,
    /// No entry with the requested hash or name.
    NotFound,
    /// The destination exists and overwriting was not asked for.
    Exists,
    /// The underlying byte source or sink failed.
    Io,
    /// The compression codec failed or broke its size contract.
    Codec,
    /// The operation is not offered in this mode.
    Unsupported,
}

} // verus!
