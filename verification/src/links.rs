//! Hard link accounting: the difference between "how big is this" and "how much
//! would deleting it give me back".
//!
//! A link count above one is not enough to conclude anything. A file may have
//! several links that all lie inside the directory being deleted, and then every
//! byte of it comes back. It may also have one in a shared store elsewhere, and
//! then nothing does. The question is whether all links are inside.
use vstd::prelude::*;

verus! {

/// Identifies the physical file behind a path, so that two links to the same data
/// are seen to be one file: device and inode, or volume and file index.
pub type FileId = (u64, u64);

/// What decides whether deleting one file frees anything.
#[derive(Debug, Clone, Copy, PartialEq, Eq)]
pub struct Facts {
    /// Total hard links to this data, anywhere on the volume.
    pub links: u32,
    pub id: FileId,
}

/// Would deleting a directory free a file's bytes? Only if every link to it is
/// inside: `seen_inside` is how many paths in the directory lead to the file.
pub fn frees_bytes(links: u32, seen_inside: u32) -> (r: bool)
    ensures
        r == (links <= seen_inside),
{
    links <= seen_inside
}

} // verus!
