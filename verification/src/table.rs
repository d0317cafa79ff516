//! The static directory table: one root directory (inode 1) holding a fixed
//! set of regular files, built once and never mutated.  The table owns the
//! canonical entry list and the attribute definitions; ownership bits are
//! captured at construction time.

use vstd::prelude::*;
use vstd::slice::{slice_subrange, slice_to_vec};

use crate::dirent::ent_wf;
use crate::types::{DirEntry, EntV, FileAttr, FileKind, FsError, ROOT_INO, ent_views};

verus! {

/// The byte `.` appears in the two synthetic listing entries.
pub const DOT: u8 = 46;

/// One regular file of the static table.
pub struct FileNode {
    pub ino: u64,
    pub name: Vec<u8>,
    pub content: Vec<u8>,
}

/// The mathematical content of a `FileNode`.
#[verifier::ext_equal]
pub ghost struct FileV {
    pub ino: u64,
    pub name: Seq<u8>,
    pub content: Seq<u8>,
}

impl View for FileNode {
    type V = FileV;

    open spec fn view(&self) -> FileV {
        FileV { ino: self.ino, name: self.name@, content: self.content@ }
    }
}

/// The static filesystem: ownership captured at construction, plus the
/// fixed file table under the root directory.
pub struct StaticFs {
    pub uid: u32,
    pub gid: u32,
    pub files: Vec<FileNode>,
}

/// The mathematical content of a `StaticFs`.
#[verifier::ext_equal]
pub ghost struct FsV {
    pub uid: u32,
    pub gid: u32,
    pub files: Seq<FileV>,
}

impl View for StaticFs {
    type V = FsV;

    open spec fn view(&self) -> FsV {
        FsV { uid: self.uid, gid: self.gid, files: self.files@.map_values(|f: FileNode| f@) }
    }
}

/// A single file entry is acceptable: an inode other than the root's,
/// and a non-empty name without NUL bytes that is neither `.` nor `..`
/// and fits the wire format's 32-bit name-length field.
pub open spec fn file_wf(f: FileV) -> bool {
    &&& f.ino >= 2
    &&& f.name.len() >= 1
    &&& f.name.len() + 31 <= u32::MAX
    &&& forall|k: int| 0 <= k < f.name.len() ==> f.name[k] != 0
    &&& f.name != seq![DOT]
    &&& f.name != seq![DOT, DOT]
}

/// The whole table is acceptable: every entry well formed, inodes and names
/// unique, and few enough entries that every sequence position fits the
/// 64-bit cursor.
pub open spec fn table_wf(fs: FsV) -> bool {
    &&& fs.files.len() + 2 <= u64::MAX
    &&& forall|i: int| 0 <= i < fs.files.len() ==> file_wf(#[trigger] fs.files[i])
    &&& forall|i: int, j: int|
        0 <= i < j < fs.files.len() ==> (#[trigger] fs.files[i]).ino != (#[trigger] fs.files[j]).ino
    &&& forall|i: int, j: int|
        0 <= i < j < fs.files.len() ==> (#[trigger] fs.files[i]).name != (
        #[trigger] fs.files[j]).name
}

/// Some file of the table carries inode `ino`.
pub open spec fn has_ino(fs: FsV, ino: u64) -> bool {
    exists|i: int| 0 <= i < fs.files.len() && (#[trigger] fs.files[i]).ino == ino
}

/// The index of the file carrying inode `ino`.
pub open spec fn ino_idx(fs: FsV, ino: u64) -> int {
    choose|i: int| 0 <= i < fs.files.len() && (#[trigger] fs.files[i]).ino == ino
}

/// Some file of the table carries `name`.
pub open spec fn has_name(fs: FsV, name: Seq<u8>) -> bool {
    exists|i: int| 0 <= i < fs.files.len() && (#[trigger] fs.files[i]).name == name
}

/// The index of the file carrying `name`.
pub open spec fn name_idx(fs: FsV, name: Seq<u8>) -> int {
    choose|i: int| 0 <= i < fs.files.len() && (#[trigger] fs.files[i]).name == name
}

/// The inode is the root or one of the table's files.
pub open spec fn known(fs: FsV, ino: u64) -> bool {
    ino == ROOT_INO || has_ino(fs, ino)
}

/// The root directory's attribute: mode `dr-xr-xr-x`, two links, size zero.
pub open spec fn root_attr(fs: FsV) -> FileAttr {
    FileAttr {
        ino: ROOT_INO,
        kind: FileKind::Directory,
        mode: 0o040555,
        nlink: 2,
        size: 0,
        uid: fs.uid,
        gid: fs.gid,
    }
}

/// A regular file's attribute: mode `-r--r--r--`, one link, size equal to
/// its content length.
pub open spec fn file_attr(fs: FsV, f: FileV) -> FileAttr {
    FileAttr {
        ino: f.ino,
        kind: FileKind::RegularFile,
        mode: 0o100444,
        nlink: 1,
        size: f.content.len() as u64,
        uid: fs.uid,
        gid: fs.gid,
    }
}

/// The attribute of a known inode: a pure function of inode identity.
pub open spec fn attr_of(fs: FsV, ino: u64) -> FileAttr {
    if ino == ROOT_INO {
        root_attr(fs)
    } else {
        file_attr(fs, fs.files[ino_idx(fs, ino)])
    }
}

/// What getattr must return: the attribute for a known inode, `NotFound`
/// otherwise.
pub open spec fn getattr_result(fs: FsV, ino: u64) -> Result<FileAttr, FsError> {
    if known(fs, ino) {
        Ok(attr_of(fs, ino))
    } else {
        Err(FsError::NotFound)
    }
}

/// What resolving `name` under `parent` must return: under the root, `.`
/// and `..` name the root itself and file names their inodes; a file used
/// as a parent is `NotADirectory`; anything else is `NotFound`.
pub open spec fn resolve_result(fs: FsV, parent: u64, name: Seq<u8>) -> Result<u64, FsError> {
    if parent == ROOT_INO {
        if name == seq![DOT] || name == seq![DOT, DOT] {
            Ok(ROOT_INO)
        } else if has_name(fs, name) {
            Ok(fs.files[name_idx(fs, name)].ino)
        } else {
            Err(FsError::NotFound)
        }
    } else if has_ino(fs, parent) {
        Err(FsError::NotADirectory)
    } else {
        Err(FsError::NotFound)
    }
}

/// What lookup must return: the attribute of the resolved inode.
pub open spec fn lookup_result(fs: FsV, parent: u64, name: Seq<u8>) -> Result<FileAttr, FsError> {
    match resolve_result(fs, parent, name) {
        Ok(ino) => Ok(attr_of(fs, ino)),
        Err(e) => Err(e),
    }
}

/// The root's ordered listing: synthetic `.` and `..` (both the root), then
/// the files in construction order, with 1-based sequence positions.
pub open spec fn listing(fs: FsV) -> Seq<EntV> {
    seq![
        EntV { name: seq![DOT], ino: ROOT_INO, kind: FileKind::Directory, off: 1 },
        EntV { name: seq![DOT, DOT], ino: ROOT_INO, kind: FileKind::Directory, off: 2 },
    ] + Seq::new(
        fs.files.len(),
        |i: int|
            EntV {
                name: fs.files[i].name,
                ino: fs.files[i].ino,
                kind: FileKind::RegularFile,
                off: (i + 3) as u64,
            },
    )
}

/// What listing a directory must return: the root's listing, or the error
/// class for a file or unknown inode.
pub open spec fn readdir_result(fs: FsV, ino: u64) -> Result<Seq<EntV>, FsError> {
    if ino == ROOT_INO {
        Ok(listing(fs))
    } else if has_ino(fs, ino) {
        Err(FsError::NotADirectory)
    } else {
        Err(FsError::NotFound)
    }
}

/// The bytes a bounded read of a file returns: nothing at or past the end
/// of the content, otherwise the content at `offset` clamped to both the
/// requested maximum and the remaining length.
pub open spec fn read_bytes(content: Seq<u8>, offset: u64, max_len: u32) -> Seq<u8> {
    if offset as int >= content.len() {
        Seq::empty()
    } else if max_len as int <= content.len() - offset as int {
        content.subrange(offset as int, offset as int + max_len as int)
    } else {
        content.subrange(offset as int, content.len() as int)
    }
}

/// What a read must return: `IsADirectory` on the root, the clamped bytes
/// on a file, `NotFound` otherwise.
pub open spec fn read_result(fs: FsV, ino: u64, offset: u64, max_len: u32) -> Result<
    Seq<u8>,
    FsError,
> {
    if ino == ROOT_INO {
        Err(FsError::IsADirectory)
    } else if has_ino(fs, ino) {
        Ok(read_bytes(fs.files[ino_idx(fs, ino)].content, offset, max_len))
    } else {
        Err(FsError::NotFound)
    }
}

/// With unique inodes, the chosen index of an inode is the index where it
/// was found.
pub proof fn lemma_ino_idx_unique(fs: FsV, ino: u64, i: int)
    requires
        table_wf(fs),
        0 <= i < fs.files.len(),
        fs.files[i].ino == ino,
    ensures
        has_ino(fs, ino),
        ino_idx(fs, ino) == i,
{
    assert(has_ino(fs, ino));
    let j = ino_idx(fs, ino);
    assert(0 <= j < fs.files.len() && fs.files[j].ino == ino);
    if i < j {
        assert(fs.files[i].ino != fs.files[j].ino);
    } else if j < i {
        assert(fs.files[j].ino != fs.files[i].ino);
    }
}

/// With unique names, the chosen index of a name is the index where it was
/// found.
pub proof fn lemma_name_idx_unique(fs: FsV, name: Seq<u8>, i: int)
    requires
        table_wf(fs),
        0 <= i < fs.files.len(),
        fs.files[i].name == name,
    ensures
        has_name(fs, name),
        name_idx(fs, name) == i,
{
    assert(has_name(fs, name));
    let j = name_idx(fs, name);
    assert(0 <= j < fs.files.len() && fs.files[j].name == name);
    if i < j {
        assert(fs.files[i].name != fs.files[j].name);
    } else if j < i {
        assert(fs.files[j].name != fs.files[i].name);
    }
}

/// Every attribute the table produces satisfies the attribute invariant:
/// the kind agrees with the mode's type bits and directories have size zero.
pub proof fn lemma_attr_wf(fs: FsV, ino: u64)
    requires
        known(fs, ino),
    ensures
        attr_of(fs, ino).wf(),
{
    assert(0o040555u32 & 0o170000 == 0o040000) by (bit_vector);
    assert(0o100444u32 & 0o170000 == 0o100000) by (bit_vector);
}

/// Every entry of the root listing is encodable.
pub proof fn lemma_listing_wf(fs: FsV)
    requires
        table_wf(fs),
    ensures
        forall|i: int| 0 <= i < listing(fs).len() ==> ent_wf(#[trigger] listing(fs)[i]),
{
    let es = listing(fs);
    assert forall|i: int| 0 <= i < es.len() implies ent_wf(#[trigger] es[i]) by {
        if i >= 2 {
            assert(es[i].name == fs.files[i - 2].name);
            assert(file_wf(fs.files[i - 2]));
        }
    }
}

/// The root listing's sequence positions are exactly 1, 2, 3, ...: entry
/// `i` carries position `i + 1`.
pub proof fn lemma_listing_positioned(fs: FsV)
    requires
        table_wf(fs),
    ensures
        crate::encode::positioned(listing(fs)),
{
    let es = listing(fs);
    assert forall|i: int| 0 <= i < es.len() implies (#[trigger] es[i]).off as int == i + 1 by {
        if i >= 2 {
            assert(es[i].off == (i - 2 + 3) as u64);
        }
    }
}

/// The name of the reference filesystem's one file, `hello.txt`.
pub open spec fn hello_name() -> Seq<u8> {
    seq![104u8, 101u8, 108u8, 108u8, 111u8, 46u8, 116u8, 120u8, 116u8]
}

/// The content of the reference filesystem's one file, `Hello, world!\n`.
pub open spec fn hello_content() -> Seq<u8> {
    seq![
        72u8,
        101u8,
        108u8,
        108u8,
        111u8,
        44u8,
        32u8,
        119u8,
        111u8,
        114u8,
        108u8,
        100u8,
        33u8,
        10u8,
    ]
}

impl StaticFs {
    /// The table's validity, over its mathematical content.
    pub open spec fn wf(&self) -> bool {
        table_wf(self@)
    }

    /// Validates a proposed file set and builds the table; `None` exactly
    /// when the set breaks the table invariant (a reserved or repeated
    /// inode, an empty, oversized, reserved or repeated name, a NUL byte,
    /// or more entries than the cursor space admits).
    #[verifier::loop_isolation(false)]
    pub fn new(uid: u32, gid: u32, files: Vec<FileNode>) -> (r: Option<StaticFs>)
        ensures
            match r {
                Some(fs) => fs@ == (FsV {
                    uid,
                    gid,
                    files: files@.map_values(|f: FileNode| f@),
                }) && table_wf(fs@),
                None => !table_wf(
                    FsV { uid, gid, files: files@.map_values(|f: FileNode| f@) },
                ),
            },
    {
        let ghost fsv = FsV { uid, gid, files: files@.map_values(|f: FileNode| f@) };
        if files.len() as u64 > u64::MAX - 2 {
            return None;
        }
        let mut i: usize = 0;
        while i < files.len()
            invariant
                i <= files@.len(),
                forall|k: int| 0 <= k < i ==> file_wf(#[trigger] fsv.files[k]),
                forall|k: int, l: int|
                    0 <= k < l < i ==> (#[trigger] fsv.files[k]).ino != (
                    #[trigger] fsv.files[l]).ino,
                forall|k: int, l: int|
                    0 <= k < l < i ==> (#[trigger] fsv.files[k]).name != (
                    #[trigger] fsv.files[l]).name,
            decreases files@.len() - i,
        {
            let f = &files[i];
            if f.ino < 2 {
                proof {
                    assert(!file_wf(fsv.files[i as int]));
                }
                return None;
            }
            if f.name.len() == 0 {
                proof {
                    assert(!file_wf(fsv.files[i as int]));
                }
                return None;
            }
            if f.name.len() > (u32::MAX - 31) as usize {
                proof {
                    assert(!file_wf(fsv.files[i as int]));
                }
                return None;
            }
            if f.name.len() == 1 && f.name[0] == DOT {
                proof {
                    assert(fsv.files[i as int].name =~= seq![DOT]);
                    assert(!file_wf(fsv.files[i as int]));
                }
                return None;
            }
            if f.name.len() == 2 && f.name[0] == DOT && f.name[1] == DOT {
                proof {
                    assert(fsv.files[i as int].name =~= seq![DOT, DOT]);
                    assert(!file_wf(fsv.files[i as int]));
                }
                return None;
            }
            let mut j: usize = 0;
            while j < f.name.len()
                invariant
                    j <= f.name.len(),
                    forall|k: int| 0 <= k < j ==> f.name@[k] != 0,
                decreases f.name.len() - j,
            {
                if f.name[j] == 0 {
                    proof {
                        assert(fsv.files[i as int].name[j as int] == 0);
                        assert(!file_wf(fsv.files[i as int]));
                    }
                    return None;
                }
                j = j + 1;
            }
            proof {
                assert(fsv.files[i as int].name != seq![DOT]);
                assert(fsv.files[i as int].name != seq![DOT, DOT]);
                assert(file_wf(fsv.files[i as int]));
            }
            let mut j2: usize = 0;
            while j2 < i
                invariant
                    j2 <= i,
                    i < files@.len(),
                    forall|k: int|
                        0 <= k < j2 ==> (#[trigger] fsv.files[k]).ino != fsv.files[i as int].ino,
                    forall|k: int|
                        0 <= k < j2 ==> (#[trigger] fsv.files[k]).name != fsv.files[i as int].name,
                decreases i - j2,
            {
                if files[j2].ino == f.ino {
                    proof {
                        assert(fsv.files[j2 as int].ino == fsv.files[i as int].ino);
                        assert(!table_wf(fsv));
                    }
                    return None;
                }
                if bytes_eq(files[j2].name.as_slice(), f.name.as_slice()) {
                    proof {
                        assert(fsv.files[j2 as int].name == fsv.files[i as int].name);
                        assert(!table_wf(fsv));
                    }
                    return None;
                }
                j2 = j2 + 1;
            }
            i = i + 1;
        }
        let fs = StaticFs { uid, gid, files };
        proof {
            assert(fs@ =~~= fsv);
            assert(table_wf(fs@));
        }
        Some(fs)
    }

    /// The reference two-entry filesystem: the root directory plus one
    /// regular file `hello.txt` whose content is `Hello, world!\n`, under
    /// the given ownership.
    pub fn hello(uid: u32, gid: u32) -> (fs: StaticFs)
        ensures
            fs.wf(),
            fs@.uid == uid,
            fs@.gid == gid,
            fs@.files == seq![FileV { ino: 2, name: hello_name(), content: hello_content() }],
    {
        let name: Vec<u8> = vec![104u8, 101u8, 108u8, 108u8, 111u8, 46u8, 116u8, 120u8, 116u8];
        let content: Vec<u8> = vec![
            72u8,
            101u8,
            108u8,
            108u8,
            111u8,
            44u8,
            32u8,
            119u8,
            111u8,
            114u8,
            108u8,
            100u8,
            33u8,
            10u8,
        ];
        proof {
            assert(name@ =~= hello_name());
            assert(content@ =~= hello_content());
        }
        let node = FileNode { ino: 2, name, content };
        let files: Vec<FileNode> = vec![node];
        let fs = StaticFs { uid, gid, files };
        proof {
            assert(fs@.files =~~= seq![
                FileV { ino: 2, name: hello_name(), content: hello_content() },
            ]);
            assert(fs@.files[0].name[0] != 0 && fs@.files[0].name[1] != 0 && fs@.files[0].name[2]
                != 0 && fs@.files[0].name[3] != 0 && fs@.files[0].name[4] != 0
                && fs@.files[0].name[5] != 0 && fs@.files[0].name[6] != 0 && fs@.files[0].name[7]
                != 0 && fs@.files[0].name[8] != 0);
            assert(file_wf(fs@.files[0]));
            assert(table_wf(fs@));
        }
        fs
    }

    /// Finds the index of the file carrying `ino`, scanning in order.
    fn find_ino(&self, ino: u64) -> (r: Option<usize>)
        requires
            self.wf(),
        ensures
            match r {
                Some(i) => i < self@.files.len() && self@.files[i as int].ino == ino && has_ino(
                    self@,
                    ino,
                ) && ino_idx(self@, ino) == i,
                None => !has_ino(self@, ino),
            },
    {
        let mut i: usize = 0;
        while i < self.files.len()
            invariant
                self.wf(),
                i <= self@.files.len(),
                forall|k: int| 0 <= k < i ==> (#[trigger] self@.files[k]).ino != ino,
            decreases self@.files.len() - i,
        {
            if self.files[i].ino == ino {
                proof {
                    lemma_ino_idx_unique(self@, ino, i as int);
                }
                return Some(i);
            }
            i = i + 1;
        }
        proof {
            if has_ino(self@, ino) {
                let w = ino_idx(self@, ino);
                assert(0 <= w < self@.files.len() && self@.files[w].ino == ino);
            }
        }
        None
    }

    /// The attribute builder: pure, total over the static inode set, and
    /// `NotFound` for any inode outside it.
    pub fn attributes_for(&self, ino: u64) -> (r: Result<FileAttr, FsError>)
        requires
            self.wf(),
        ensures
            r == getattr_result(self@, ino),
            r matches Ok(a) ==> a.wf(),
    {
        proof {
            if known(self@, ino) {
                lemma_attr_wf(self@, ino);
            }
        }
        if ino == ROOT_INO {
            return Ok(
                FileAttr {
                    ino: ROOT_INO,
                    kind: FileKind::Directory,
                    mode: 0o040555,
                    nlink: 2,
                    size: 0,
                    uid: self.uid,
                    gid: self.gid,
                },
            );
        }
        match self.find_ino(ino) {
            Some(i) => {
                let f = &self.files[i];
                Ok(
                    FileAttr {
                        ino: f.ino,
                        kind: FileKind::RegularFile,
                        mode: 0o100444,
                        nlink: 1,
                        size: f.content.len() as u64,
                        uid: self.uid,
                        gid: self.gid,
                    },
                )
            },
            None => Err(FsError::NotFound),
        }
    }

    /// Produces the ordered listing of a directory: the synthetic `.` and
    /// `..` entries, then the files in construction order, with stable
    /// 1-based sequence positions.
    #[verifier::loop_isolation(false)]
    pub fn list(&self, parent: u64) -> (r: Result<Vec<DirEntry>, FsError>)
        requires
            self.wf(),
        ensures
            r is Ok <==> parent == 1,
            r matches Ok(v) ==> ent_views(v@) == listing(self@),
            r matches Err(e) ==> e == (if has_ino(self@, parent) {
                FsError::NotADirectory
            } else {
                FsError::NotFound
            }),
    {
        if parent != ROOT_INO {
            match self.find_ino(parent) {
                Some(_) => {
                    return Err(FsError::NotADirectory);
                },
                None => {
                    return Err(FsError::NotFound);
                },
            }
        }
        let mut v: Vec<DirEntry> = Vec::new();
        let mut dot: Vec<u8> = Vec::new();
        dot.push(DOT);
        let mut dotdot: Vec<u8> = Vec::new();
        dotdot.push(DOT);
        dotdot.push(DOT);
        proof {
            assert(dot@ =~= seq![DOT]);
            assert(dotdot@ =~= seq![DOT, DOT]);
        }
        v.push(DirEntry { name: dot, ino: ROOT_INO, kind: FileKind::Directory, off: 1 });
        v.push(DirEntry { name: dotdot, ino: ROOT_INO, kind: FileKind::Directory, off: 2 });
        proof {
            assert(ent_views(v@) =~~= listing(self@).take(2));
        }
        let mut i: usize = 0;
        while i < self.files.len()
            invariant
                self.wf(),
                i <= self@.files.len(),
                ent_views(v@) == listing(self@).take(i as int + 2),
            decreases self@.files.len() - i,
        {
            let f = &self.files[i];
            let name = slice_to_vec(f.name.as_slice());
            let off = (i as u64) + 3;
            v.push(DirEntry { name, ino: f.ino, kind: FileKind::RegularFile, off });
            proof {
                assert(ent_views(v@) =~~= listing(self@).take(i as int + 3));
            }
            i = i + 1;
        }
        proof {
            assert(listing(self@).take(self@.files.len() as int + 2) =~= listing(self@));
        }
        Ok(v)
    }

    /// Resolves one name under a parent inode.
    #[verifier::loop_isolation(false)]
    pub fn resolve(&self, parent: u64, name: &[u8]) -> (r: Result<u64, FsError>)
        requires
            self.wf(),
        ensures
            r == resolve_result(self@, parent, name@),
    {
        if parent != ROOT_INO {
            match self.find_ino(parent) {
                Some(_) => {
                    return Err(FsError::NotADirectory);
                },
                None => {
                    return Err(FsError::NotFound);
                },
            }
        }
        if name.len() == 1 && name[0] == DOT {
            proof {
                assert(name@ =~= seq![DOT]);
            }
            return Ok(ROOT_INO);
        }
        if name.len() == 2 && name[0] == DOT && name[1] == DOT {
            proof {
                assert(name@ =~= seq![DOT, DOT]);
            }
            return Ok(ROOT_INO);
        }
        proof {
            assert(name@ != seq![DOT] && name@ != seq![DOT, DOT]);
        }
        let mut i: usize = 0;
        while i < self.files.len()
            invariant
                self.wf(),
                i <= self@.files.len(),
                forall|k: int| 0 <= k < i ==> (#[trigger] self@.files[k]).name != name@,
            decreases self@.files.len() - i,
        {
            if bytes_eq(self.files[i].name.as_slice(), name) {
                proof {
                    assert(self@.files[i as int].name == name@);
                    lemma_name_idx_unique(self@, name@, i as int);
                    assert(resolve_result(self@, parent, name@) == Ok::<u64, FsError>(
                        self@.files[i as int].ino,
                    ));
                }
                return Ok(self.files[i].ino);
            }
            i = i + 1;
        }
        proof {
            if has_name(self@, name@) {
                let w = name_idx(self@, name@);
                assert(0 <= w < self@.files.len() && self@.files[w].name == name@);
            }
        }
        Err(FsError::NotFound)
    }

    /// Reads up to `max_len` bytes of a regular file at `offset`, clamped
    /// to the content bounds; reading at or past the end yields an empty
    /// result, never an error.
    pub fn read(&self, ino: u64, offset: u64, max_len: u32) -> (r: Result<Vec<u8>, FsError>)
        requires
            self.wf(),
        ensures
            match r {
                Ok(d) => read_result(self@, ino, offset, max_len) == Ok::<Seq<u8>, FsError>(d@),
                Err(e) => read_result(self@, ino, offset, max_len) == Err::<Seq<u8>, FsError>(e),
            },
    {
        if ino == ROOT_INO {
            return Err(FsError::IsADirectory);
        }
        match self.find_ino(ino) {
            None => Err(FsError::NotFound),
            Some(i) => {
                let content = &self.files[i].content;
                if offset >= content.len() as u64 {
                    proof {
                        assert(read_bytes(self@.files[i as int].content, offset, max_len)
                            =~= Seq::<u8>::empty());
                    }
                    Ok(Vec::new())
                } else {
                    let off = offset as usize;
                    let remaining = content.len() - off;
                    let take_n: usize = if (max_len as usize) <= remaining {
                        max_len as usize
                    } else {
                        remaining
                    };
                    let part = slice_subrange(content.as_slice(), off, off + take_n);
                    let d = slice_to_vec(part);
                    Ok(d)
                }
            },
        }
    }
}

/// Byte-for-byte equality of two byte strings.
pub fn bytes_eq(a: &[u8], b: &[u8]) -> (r: bool)
    ensures
        r == (a@ == b@),
{
    if a.len() != b.len() {
        return false;
    }
    let mut i: usize = 0;
    while i < a.len()
        invariant
            a@.len() == b@.len(),
            i <= a@.len(),
            forall|k: int| 0 <= k < i ==> a@[k] == b@[k],
        decreases a@.len() - i,
    {
        if a[i] != b[i] {
            return false;
        }
        i = i + 1;
    }
    proof {
        assert(a@ =~= b@);
    }
    true
}

} // verus!
