//! The values that a run works on.

use std::path::{Path, PathBuf};
use vstd::prelude::*;

verus! {

/// Room that a pack document takes for the header and trailer of one file.
pub const PER_FILE_OVERHEAD: u64 = 256;

/// Room that a pack document takes before its first file.
pub const PACK_BASE_OVERHEAD: u64 = 512;

/// `std::path::PathBuf` is carried through; nothing is claimed of it.
#[verifier::external_type_specification]
#[verifier::external_body]
pub struct ExPathBuf(PathBuf);

/// `std::path::Path` is carried through; nothing is claimed of it.
#[verifier::external_type_specification]
#[verifier::external_body]
pub struct ExPath(Path);

/// A file of the vault that goes into a pack.
pub struct MdFile {
    /// Where the file is read from.
    pub abs: PathBuf,
    /// Its path below the vault root, with `/` between components.
    pub rel_unix: String,
    /// Its size in bytes.
    pub size: u64,
    /// Its last modification, in seconds after the Unix epoch.
    pub mtime: i64,
}

/// Says that a file went into a pack.
#[derive(Debug, Clone, Copy)]
pub struct ManifestEntry {
    /// Index of the file among the files of the run.
    pub file_idx: usize,
    /// Number of the pack.
    pub pack_num: usize,
}

/// The packs of a run: each holds the files from the first index up to, and
/// without, the second.
#[derive(Debug)]
pub struct PackPlan {
    pub boundaries: Vec<(usize, usize)>,
}

/// How packs are written.
pub struct PackOptions<'a> {
    pub vault_name: &'a str,
    pub out_dir: &'a Path,
    pub resume: bool,
    pub write_manifest: bool,
    pub available_bytes: u64,
    pub quiet: bool,
}

} // verus!
