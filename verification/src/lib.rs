//! Reading and writing of VPK (Valve Pak) container archives.
//!
//! An archive bundles a directory tree into one file: a fixed header, a
//! nested index ("tree") that groups entries by extension and directory,
//! the entries' payload, and for version 2 a trailer of three digests.
//! Everything here works on bytes held in memory; the caller moves them
//! to and from storage.

pub mod checksum;
pub mod codec;
pub mod error;
pub mod file;
pub mod round_trip;
pub mod text;
pub mod tree;
pub mod utils;
pub mod vpk;

pub use error::{FormatError, VpkError};
pub use file::{FileMetadata, SeekFrom, VPKFile};
pub use vpk::{ScannedFile, VPKVersion, VPK};

use vpk::{opened, scan_views, scanned};
use vstd::prelude::*;

verus! {

/// Decodes the archive that was read from the file `path` as the bytes `data`.
pub fn open(path: String, data: &[u8]) -> (r: Result<VPK, VpkError>)
    ensures
        match opened(path@, data@) {
            Ok(v) => r matches Ok(a) && a@ == v,
            Err(e) => r matches Err(x) && x == e,
        },
{
    VPK::open(path, data)
}

/// Builds an archive from the files that a walk of a directory found.
pub fn from_directory(files: Vec<ScannedFile>) -> (r: Result<VPK, VpkError>)
    ensures
        match scanned(scan_views(files@)) {
            Ok(v) => r matches Ok(a) && a@ == v,
            Err(e) => r matches Err(x) && x == e,
        },
{
    VPK::from_directory(files)
}

} // verus!
