//! The reload decision of a file-backed cache.
//!
//! A cached artifact is keyed by the file name and modification time it
//! was loaded from; the artifact itself, and the I/O that stats and loads
//! the file, live with the caller. The decision recorded here is the
//! cache's whole logic: reload exactly when the key changed.

use vstd::prelude::*;
use crate::util::bytes_eq;

verus! {

/// The key of the artifact a file cache currently holds, if any.
#[derive(Debug)]
pub struct FileCache {
    pub filename: Option<Vec<u8>>,
    pub modification_time: Option<u64>,
}

impl FileCache {
    /// A cache holding nothing.
    pub fn new() -> (c: FileCache)
        ensures
            c.filename is None,
            c.modification_time is None,
    {
        FileCache { filename: None, modification_time: None }
    }

    /// Whether the artifact for this file name and modification time must
    /// be reloaded; the new key is recorded either way. A reload is due
    /// exactly when no artifact is held, or the name or the modification
    /// time changed.
    pub fn needs_reload(&mut self, filename: &Vec<u8>, modification_time: u64) -> (r: bool)
        ensures
            r == !(old(self).filename matches Some(f) && f@ == filename@
                && old(self).modification_time == Some(modification_time)),
            final(self).filename matches Some(f) && f@ == filename@,
            final(self).modification_time == Some(modification_time),
    {
        let same = match (&self.filename, &self.modification_time) {
            (Some(f), Some(mt)) => bytes_eq(f, filename) && *mt == modification_time,
            _ => false,
        };
        self.filename = Some(crate::util::copy_bytes(filename));
        self.modification_time = Some(modification_time);
        !same
    }
}

} // verus!
