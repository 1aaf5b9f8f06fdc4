//! The errors of the library.

use vstd::prelude::*;

verus! {

/// Structural faults found while decoding or building an archive.
#[derive(Debug, Clone, Copy, PartialEq, Eq, Structural)]
pub enum FormatError {
    /// The first header field is not the archive signature; holds the value found.
    BadSignature(u32),
    /// The header names a format version other than 1 or 2; holds the value found.
    UnsupportedVersion(u32),
    /// A metadata record does not end in the reserved suffix; holds the value found.
    BadMetadataSuffix(u16),
    /// A file name has no `.`-delimited extension.
    MissingExtension,
    /// The input ends before a complete field could be read.
    TruncatedRead,
}

/// Every way an operation of this library can fail.
#[derive(Debug, Clone, Copy, PartialEq, Eq, Structural)]
pub enum VpkError {
    /// The bytes do not follow the archive layout.
    Format(FormatError),
    /// A name, or content requested as text, is not valid UTF-8.
    Encoding,
    /// The archive holds no entry under the requested path.
    NotFound,
    /// The operation needs a saved backing file, and the archive has none.
    State,
    /// A seek would place the cursor before the start of the entry.
    InvalidArgument,
    /// A length or offset does not fit the 32-bit fields of the format.
    LimitExceeded,
}

} // verus!
