//! Core data model: file kinds, attribute records, directory entries,
//! operations, replies and the error taxonomy.

use vstd::prelude::*;

verus! {

/// The inode number reserved for the filesystem root, which is always a
/// directory and always exists.
pub const ROOT_INO: u64 = 1;

/// Type bits of a mode word for a directory.
pub const MODE_KIND_DIRECTORY: u32 = 0o040000;

/// Type bits of a mode word for a regular file.
pub const MODE_KIND_REGULAR: u32 = 0o100000;

/// Mask selecting the type bits of a mode word.
pub const MODE_KIND_MASK: u32 = 0o170000;

/// Whether a filesystem object is a directory or a regular file.
#[derive(Clone, Copy, Debug, PartialEq, Eq, Structural)]
pub enum FileKind {
    Directory,
    RegularFile,
}

impl FileKind {
    /// The type bits that a mode word of this kind must carry.
    pub open spec fn mode_kind_bits(self) -> u32 {
        match self {
            FileKind::Directory => MODE_KIND_DIRECTORY,
            FileKind::RegularFile => MODE_KIND_REGULAR,
        }
    }
}

/// An immutable attribute record for one inode: a pure function of inode
/// identity plus the ownership captured when the table was built.
#[derive(Clone, Copy, Debug, PartialEq, Eq, Structural)]
pub struct FileAttr {
    pub ino: u64,
    pub kind: FileKind,
    pub mode: u32,
    pub nlink: u32,
    pub size: u64,
    pub uid: u32,
    pub gid: u32,
}

impl FileAttr {
    /// The kind agrees with the mode's type bits, and directories report a
    /// byte size of zero.
    pub open spec fn wf(self) -> bool {
        &&& self.mode & MODE_KIND_MASK == self.kind.mode_kind_bits()
        &&& self.kind == FileKind::Directory ==> self.size == 0
    }
}

/// One named child of a directory: its name, inode, kind, and the 1-based
/// sequence position that serves as the opaque resumption cursor (`off` is
/// the next offset a caller requests to continue after this entry).
pub struct DirEntry {
    pub name: Vec<u8>,
    pub ino: u64,
    pub kind: FileKind,
    pub off: u64,
}

/// The mathematical content of a `DirEntry`.
#[verifier::ext_equal]
pub ghost struct EntV {
    pub name: Seq<u8>,
    pub ino: u64,
    pub kind: FileKind,
    pub off: u64,
}

impl View for DirEntry {
    type V = EntV;

    open spec fn view(&self) -> EntV {
        EntV { name: self.name@, ino: self.ino, kind: self.kind, off: self.off }
    }
}

/// The views of a sequence of directory entries.
pub open spec fn ent_views(s: Seq<DirEntry>) -> Seq<EntV> {
    s.map_values(|e: DirEntry| e@)
}

/// Error classes surfaced to the kernel, one per failure condition.
#[derive(Clone, Copy, Debug, PartialEq, Eq, Structural)]
pub enum FsError {
    /// The referenced inode or name does not exist in the static table.
    NotFound,
    /// A directory-only operation was invoked on a non-directory inode.
    NotADirectory,
    /// A file-only operation was invoked on a directory inode.
    IsADirectory,
    /// The operation kind is not implemented by this filesystem.
    Unsupported,
}

/// One decoded filesystem operation, created by the transport per kernel
/// request and consumed exactly once by the dispatcher.
pub enum Operation {
    Lookup { parent: u64, name: Vec<u8> },
    GetAttr { ino: u64 },
    ReadDir { ino: u64, offset: u64, max_size: u32 },
    Read { ino: u64, offset: u64, max_len: u32 },
    /// Any operation kind this filesystem does not implement.
    Other,
}

/// The successful payload of one operation, handed back to the transport.
pub enum Reply {
    /// A lookup result: the attribute of the resolved inode.
    Entry(FileAttr),
    /// A getattr result.
    Attr(FileAttr),
    /// An encoded, size-bounded directory listing buffer.
    Dir(Vec<u8>),
    /// Bytes read from a regular file.
    Data(Vec<u8>),
}

} // verus!
