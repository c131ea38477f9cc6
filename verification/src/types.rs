//! Entry kinds and typed directory entries.

use vstd::prelude::*;

verus! {

/// The kind of a filesystem entry, as the entry classifier reports it.
#[derive(Clone, Copy, PartialEq, Eq, Structural, Debug)]
pub enum EntryKind {
    Unknown,
    File,
    Directory,
    Symlink,
    BlockDevice,
    CharDevice,
    Fifo,
    Socket,
}

/// The numeric identifier stored in a [`Dirent`] for each kind.
pub open spec fn kind_id(k: EntryKind) -> u8 {
    match k {
        EntryKind::Unknown => 0,
        EntryKind::File => 1,
        EntryKind::Directory => 2,
        EntryKind::Symlink => 3,
        EntryKind::BlockDevice => 4,
        EntryKind::CharDevice => 5,
        EntryKind::Fifo => 6,
        EntryKind::Socket => 7,
    }
}

/// Classifies an entry from the flags of its file type, exactly one of which
/// may be set; the earliest set flag in the order file, directory, symlink,
/// block device, character device, fifo, socket decides, and an entry with no
/// flag set is `Unknown`.
pub open spec fn classify(
    is_file: bool,
    is_dir: bool,
    is_symlink: bool,
    is_block: bool,
    is_char: bool,
    is_fifo: bool,
    is_socket: bool,
) -> EntryKind {
    if is_file {
        EntryKind::File
    } else if is_dir {
        EntryKind::Directory
    } else if is_symlink {
        EntryKind::Symlink
    } else if is_block {
        EntryKind::BlockDevice
    } else if is_char {
        EntryKind::CharDevice
    } else if is_fifo {
        EntryKind::Fifo
    } else if is_socket {
        EntryKind::Socket
    } else {
        EntryKind::Unknown
    }
}

/// Maps the flags of an OS file type to the numeric kind identifier.
pub fn get_file_type_id(
    is_file: bool,
    is_dir: bool,
    is_symlink: bool,
    is_block: bool,
    is_char: bool,
    is_fifo: bool,
    is_socket: bool,
) -> (id: u8)
    ensures
        id == kind_id(classify(is_file, is_dir, is_symlink, is_block, is_char, is_fifo, is_socket)),
{
    if is_file {
        1
    } else if is_dir {
        2
    } else if is_symlink {
        3
    } else if is_block {
        4
    } else if is_char {
        5
    } else if is_fifo {
        6
    } else if is_socket {
        7
    } else {
        0
    }
}

/// A typed directory entry: a name, the path of the directory that holds it,
/// and the numeric identifier of its kind.
#[derive(Clone, Debug)]
pub struct Dirent {
    pub name: String,
    pub parent_path: String,
    pub file_type: u8,
}

impl Dirent {
    pub fn is_file(&self) -> (r: bool)
        ensures
            r == (self.file_type == kind_id(EntryKind::File)),
    {
        self.file_type == 1
    }

    pub fn is_directory(&self) -> (r: bool)
        ensures
            r == (self.file_type == kind_id(EntryKind::Directory)),
    {
        self.file_type == 2
    }

    pub fn is_symbolic_link(&self) -> (r: bool)
        ensures
            r == (self.file_type == kind_id(EntryKind::Symlink)),
    {
        self.file_type == 3
    }

    pub fn is_block_device(&self) -> (r: bool)
        ensures
            r == (self.file_type == kind_id(EntryKind::BlockDevice)),
    {
        self.file_type == 4
    }

    pub fn is_character_device(&self) -> (r: bool)
        ensures
            r == (self.file_type == kind_id(EntryKind::CharDevice)),
    {
        self.file_type == 5
    }

    pub fn is_fifo(&self) -> (r: bool)
        ensures
            r == (self.file_type == kind_id(EntryKind::Fifo)),
    {
        self.file_type == 6
    }

    pub fn is_socket(&self) -> (r: bool)
        ensures
            r == (self.file_type == kind_id(EntryKind::Socket)),
    {
        self.file_type == 7
    }

    /// The path of the directory that holds the entry.
    pub fn path(&self) -> (r: String)
        ensures
            r@ == self.parent_path@,
    {
        self.parent_path.clone()
    }
}

} // verus!
