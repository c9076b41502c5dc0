//! The listing of a directory tree: what the file system reported of every
//! entry, as plain values.

use crate::entry::RawEntry;
use vstd::prelude::*;

verus! {

/// What the file system answers when asked for the contents of a path.
#[derive(Debug)]
pub enum Listing {
    /// Nothing exists at the path.
    Missing,
    /// The path exists and is no directory.
    NotDirectory,
    /// The directory could not be opened for listing; the text says why.
    Unreadable(String),
    /// The path's own metadata or one of its entries could not be read; the
    /// text says why.
    MetadataUnreadable(String),
    /// The entries of the directory, each with what lies beneath it.
    Entries(Vec<FsNode>),
}

/// One listed entry together with the answer for its own path.
#[derive(Debug)]
pub struct FsNode {
    pub entry: RawEntry,
    pub listing: Listing,
}

} // verus!
