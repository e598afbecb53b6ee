//! The plain values that flow through the pipeline.

use vstd::prelude::*;

verus! {

/// A regular file found under the root: its path and its length in bytes.
#[derive(Debug, PartialEq, Eq)]
pub struct FileEntry {
    pub path: String,
    pub length: u64,
}

impl FileEntry {
    pub fn new(path: String, length: u64) -> (entry: FileEntry)
        ensures
            entry.path == path,
            entry.length == length,
    {
        FileEntry { path, length }
    }

    /// An equal entry that owns its own copy of the path.
    pub fn duplicate(&self) -> (entry: FileEntry)
        ensures
            entry == *self,
    {
        FileEntry { path: self.path.clone(), length: self.length }
    }
}

/// The storage object behind a path: two paths with the same identity are
/// hard links to the same data.
#[derive(Clone, Copy, Debug, PartialEq, Eq, Structural)]
pub struct FileIdentity {
    pub device: u64,
    pub inode: u64,
}

/// Running totals of one scan. `duplicate_count` counts duplicate files: the
/// sum of the sizes of all reported groups.
#[derive(Clone, Copy, Debug, PartialEq, Eq, Structural)]
pub struct Stats {
    pub file_count: u64,
    pub total_size: u64,
    pub duplicate_count: u64,
}

impl Stats {
    /// The totals of a scan that has seen nothing yet.
    pub fn new() -> (stats: Stats)
        ensures
            stats.file_count == 0,
            stats.total_size == 0,
            stats.duplicate_count == 0,
    {
        Stats { file_count: 0, total_size: 0, duplicate_count: 0 }
    }

    /// Counts one more scanned file of `length` bytes.
    pub fn record_file(&mut self, length: u64)
        requires
            old(self).file_count < u64::MAX,
            old(self).total_size + length <= u64::MAX,
        ensures
            final(self).file_count == old(self).file_count + 1,
            final(self).total_size == old(self).total_size + length,
            final(self).duplicate_count == old(self).duplicate_count,
    {
        self.file_count = self.file_count + 1;
        self.total_size = self.total_size + length;
    }
}

impl Default for Stats {
    fn default() -> (stats: Stats)
        ensures
            stats.file_count == 0,
            stats.total_size == 0,
            stats.duplicate_count == 0,
    {
        Stats::new()
    }
}

} // verus!
