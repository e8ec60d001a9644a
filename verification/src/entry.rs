//! The record of one scanned file.

use vstd::prelude::*;
use crate::options::FileOrdering;

verus! {

/// What a scan has learnt of one file. The library never reads the file
/// system; the caller fills a record in from the directory entry and its
/// metadata.
#[derive(Debug, Clone)]
pub struct FileEntry {
    /// The caller's handle for the entry, by which it finds the file again.
    pub id: usize,
    /// The path as it is shown to the user.
    pub path: String,
    /// The bytes of the file name, as the platform orders names.
    pub name: Vec<u8>,
    /// Length of the content in bytes.
    pub size: u64,
    /// Time of the last modification in nanoseconds since the Unix epoch,
    /// where the platform could tell it.
    pub modified: Option<i128>,
    /// Time of creation in nanoseconds since the Unix epoch, where the
    /// platform could tell it.
    pub created: Option<i128>,
}

impl FileEntry {
    /// Whether the entry carries what ordering by `order` reads: the
    /// timestamp in question, or nothing beyond the name.
    pub open spec fn has_key(&self, order: FileOrdering) -> bool {
        match order {
            FileOrdering::Modified => self.modified.is_some(),
            FileOrdering::Created => self.created.is_some(),
            FileOrdering::Name => true,
        }
    }

    pub fn has_key_for(&self, order: FileOrdering) -> (b: bool)
        ensures
            b == self.has_key(order),
    {
        match order {
            FileOrdering::Modified => self.modified.is_some(),
            FileOrdering::Created => self.created.is_some(),
            FileOrdering::Name => true,
        }
    }
}

} // verus!
