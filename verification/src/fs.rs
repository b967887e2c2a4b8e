//! Directory entries as the rest of the library sees them.
//!
//! Paths are held as strings in normal form (the form `Path::components`
//! collects back into), so that string equality is path equality. A
//! timestamp is the signed number of nanoseconds since the UNIX epoch.
use vstd::prelude::*;

verus! {

/// What a directory entry is, without following a final symlink.
#[derive(Debug, Clone, Copy, PartialEq, Eq, Structural)]
pub enum EntryKind {
    Dir,
    File,
    Symlink,
}

/// The metadata of an entry that listing and sorting read.
#[derive(Debug)]
pub struct Meta {
    pub size: u64,
    pub modified: Option<i128>,
    pub readonly: bool,
}

/// One entry of a directory listing.
#[derive(Debug)]
pub struct Entry {
    pub name: String,
    pub path: String,
    pub kind: EntryKind,
    pub meta: Meta,
}

impl Clone for Meta {
    fn clone(&self) -> (r: Self)
        ensures
            r == *self,
    {
        Meta { size: self.size, modified: self.modified, readonly: self.readonly }
    }
}

impl Clone for Entry {
    fn clone(&self) -> (r: Self)
        ensures
            r == *self,
    {
        Entry {
            name: self.name.clone(),
            path: self.path.clone(),
            kind: self.kind,
            meta: self.meta.clone(),
        }
    }
}

/// Why a directory could not be listed. The I/O error is carried as its
/// message.
#[derive(Debug)]
pub enum FsError {
    Read { path: String, message: String },
    Entry { path: String, message: String },
    Cancelled,
}

/// The kind of an entry from its file type, which does not follow a final
/// symlink: a symlink is a symlink whatever it points to.
pub fn kind_of(is_symlink: bool, is_dir: bool) -> (k: EntryKind)
    ensures
        k == (if is_symlink {
            EntryKind::Symlink
        } else if is_dir {
            EntryKind::Dir
        } else {
            EntryKind::File
        }),
{
    if is_symlink {
        EntryKind::Symlink
    } else if is_dir {
        EntryKind::Dir
    } else {
        EntryKind::File
    }
}

} // verus!
