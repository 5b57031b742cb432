//! The interface through which the cache reaches stored assets.
use vstd::prelude::*;

use crate::error::SourceError;

verus! {

/// Bytes of stored files and listings of stored directories.
///
/// Implementations decide where the content lives: a directory of the file
/// system, a table built into the binary, an archive.
pub trait Source {
    /// The bytes of the file `id` with extension `ext`.
    fn read(&self, id: &str, ext: &str) -> Result<Vec<u8>, SourceError>;

    /// The leaf ids of the members of directory `id` whose extension is one
    /// of `exts`.
    fn read_dir(&self, id: &str, exts: &[&str]) -> Result<Vec<String>, SourceError>;
}

} // verus!
