use vstd::prelude::*;
use crate::container::{BlobContainer, FsError, ReadStep, cached_content, child_in, clamp_window, directory_in, stores_content};
use crate::entry::{BlobEntry, EntryKind, Timestamp};

verus! {

/// Permission bits of a file: read-only for all.
pub const FILE_PERM: u16 = 0o444;
/// Permission bits of a directory: traversable and readable by all.
pub const DIR_PERM: u16 = 0o755;
/// Block size reported for every entry.
pub const BLOCK_SIZE: u32 = 4096;

/// The attributes of an entry, as the host bridge reports them.
#[derive(Clone, Copy, Debug, PartialEq, Eq, Structural)]
pub struct Attributes {
    pub ino: u64,
    pub size: u64,
    /// Number of 512-byte blocks the content spans.
    pub blocks: u64,
    /// Access, modification, change and creation time.
    pub time: Timestamp,
    pub kind: EntryKind,
    pub perm: u16,
    pub nlink: u32,
    pub uid: u32,
    pub gid: u32,
    pub rdev: u32,
    pub blksize: u32,
    pub flags: u32,
}

/// Number of 512-byte blocks that `size` bytes span.
pub open spec fn blocks_for(size: u64) -> u64 {
    ((size as int + 511) / 512) as u64
}

/// The attributes of `entry` for the owner `uid` and group `gid`; a directory
/// carries the time `now`, a file its modification time.
pub open spec fn attributes_spec(entry: BlobEntry, uid: u32, gid: u32, now: Timestamp) -> Attributes {
    match entry {
        BlobEntry::File(f) => Attributes {
            ino: f.inode,
            size: f.size,
            blocks: blocks_for(f.size),
            time: f.last_modified,
            kind: EntryKind::RegularFile,
            perm: FILE_PERM,
            nlink: 1,
            uid,
            gid,
            rdev: 0,
            blksize: BLOCK_SIZE,
            flags: 0,
        },
        BlobEntry::Directory(d) => Attributes {
            ino: d.inode,
            size: 0,
            blocks: 0,
            time: now,
            kind: EntryKind::Directory,
            perm: DIR_PERM,
            nlink: 2,
            uid,
            gid,
            rdev: 0,
            blksize: BLOCK_SIZE,
            flags: 0,
        },
    }
}

/// The attributes of `entry`, as `attributes_spec` gives them.
pub fn attributes_of(entry: &BlobEntry, uid: u32, gid: u32, now: Timestamp) -> (r: Attributes)
    ensures
        r == attributes_spec(*entry, uid, gid, now),
{
    match entry {
        BlobEntry::File(f) => {
            let blocks = f.size / 512 + if f.size % 512 != 0 { 1 } else { 0 };
            assert(blocks == blocks_for(f.size)) by (nonlinear_arith)
                requires
                    blocks == f.size / 512 + if f.size % 512 != 0 { 1u64 } else { 0u64 },
            {
            }
            Attributes {
                ino: f.inode,
                size: f.size,
                blocks,
                time: f.last_modified,
                kind: EntryKind::RegularFile,
                perm: FILE_PERM,
                nlink: 1,
                uid,
                gid,
                rdev: 0,
                blksize: BLOCK_SIZE,
                flags: 0,
            }
        },
        BlobEntry::Directory(d) => Attributes {
            ino: d.inode,
            size: 0,
            blocks: 0,
            time: now,
            kind: EntryKind::Directory,
            perm: DIR_PERM,
            nlink: 2,
            uid,
            gid,
            rdev: 0,
            blksize: BLOCK_SIZE,
            flags: 0,
        },
    }
}

/// One line of a directory listing.
#[derive(Clone, Debug)]
pub struct DirListing {
    pub inode: u64,
    /// The resumption cursor after this line: the count of lines up to and including it.
    pub offset: u64,
    pub kind: EntryKind,
    pub name: String,
}

/// The kind of `entry`.
pub open spec fn kind_spec(entry: BlobEntry) -> EntryKind {
    if entry is File {
        EntryKind::RegularFile
    } else {
        EntryKind::Directory
    }
}

/// The handlers that the host bridge calls, over a finished tree.
pub struct BlobFilesystem {
    blob_container: BlobContainer,
    user_id: u32,
    group_id: u32,
}

impl BlobFilesystem {
    pub closed spec fn tree(&self) -> BlobContainer {
        self.blob_container
    }

    pub closed spec fn uid(&self) -> u32 {
        self.user_id
    }

    pub closed spec fn gid(&self) -> u32 {
        self.group_id
    }

    pub closed spec fn wf(&self) -> bool {
        self.blob_container.wf()
    }

    /// Handlers over `blob_container`, reporting every entry as owned by `user_id`
    /// and `group_id`.
    pub fn new(blob_container: BlobContainer, user_id: u32, group_id: u32) -> (r: Self)
        requires
            blob_container.wf(),
        ensures
            r.wf(),
            r.tree() == blob_container,
            r.uid() == user_id,
            r.gid() == group_id,
    {
        BlobFilesystem { blob_container, user_id, group_id }
    }

    /// The tree the handlers serve.
    pub fn container(&self) -> (r: &BlobContainer)
        requires
            self.wf(),
        ensures
            *r == self.tree(),
            r.wf(),
    {
        &self.blob_container
    }

    /// The attributes of the entry named by `ino`, if any.
    pub fn get_inode_attrs(&self, ino: u64, now: Timestamp) -> (r: Option<Attributes>)
        requires
            self.wf(),
        ensures
            match self.tree().resolve(ino) {
                Some(e) => r == Some(attributes_spec(e, self.uid(), self.gid(), now)),
                None => r is None,
            },
    {
        match self.blob_container.get_entry_by_inode(ino) {
            Some(entry) => Some(self.get_attrs(entry, now)),
            None => None,
        }
    }

    /// The attributes of `entry`, with the configured owner and group.
    pub fn get_attrs(&self, entry: &BlobEntry, now: Timestamp) -> (r: Attributes)
        ensures
            r == attributes_spec(*entry, self.uid(), self.gid(), now),
    {
        attributes_of(entry, self.user_id, self.group_id, now)
    }

    /// Attribute query: the attributes of the entry named by `ino`.
    pub fn getattr(&self, ino: u64, now: Timestamp) -> (r: Result<Attributes, FsError>)
        requires
            self.wf(),
        ensures
            match self.tree().resolve(ino) {
                Some(e) => r == Ok::<Attributes, FsError>(attributes_spec(e, self.uid(), self.gid(), now)),
                None => r == Err::<Attributes, FsError>(FsError::NotFound),
            },
            r matches Ok(a) ==> a.ino == ino,
    {
        proof {
            if self.tree().resolve(ino) is Some {
                self.tree().lemma_inode_matches(ino);
            }
        }
        match self.get_inode_attrs(ino, now) {
            Some(a) => Ok(a),
            None => Err(FsError::NotFound),
        }
    }

    /// Directory listing: the lines of the directory named by `ino` from the
    /// resumption cursor `offset` on. The bridge may take only a first part of them,
    /// and resume later with the cursor of the last line it took.
    pub fn readdir(&self, ino: u64, offset: i64) -> (r: Result<Vec<DirListing>, FsError>)
        requires
            self.wf(),
            offset >= 0,
        ensures
            r == Err::<Vec<DirListing>, FsError>(FsError::NotFound) <==> self.tree().resolve(ino) is None,
            r == Err::<Vec<DirListing>, FsError>(FsError::NotADirectory) <==> self.tree().resolve(ino) matches Some(BlobEntry::File(_)),
            r is Err ==> r == Err::<Vec<DirListing>, FsError>(FsError::NotFound) || r == Err::<Vec<DirListing>, FsError>(FsError::NotADirectory),
            r matches Ok(v) ==> ({
                let d = directory_in(self.tree()@, ino)->Some_0;
                &&& directory_in(self.tree()@, ino) is Some
                &&& v@.len() == if offset < d@.len() { d@.len() - offset } else { 0 }
                &&& forall|i: int| 0 <= i < v@.len() ==> {
                    &&& (#[trigger] v@[i]).name@ == d@[offset + i].0
                    &&& v@[i].inode == d@[offset + i].1
                    &&& v@[i].offset == offset + i + 1
                    &&& self.tree().resolve(v@[i].inode) is Some
                    &&& v@[i].kind == kind_spec(self.tree().resolve(v@[i].inode)->Some_0)
                }
            }),
    {
        let c = &self.blob_container;
        let dir = match c.get_entry_by_inode(ino) {
            None => {
                return Err(FsError::NotFound);
            },
            Some(BlobEntry::File(_)) => {
                return Err(FsError::NotADirectory);
            },
            Some(BlobEntry::Directory(d)) => d,
        };
        proof {
            c.lemma_listed_ids_resolve(ino);
        }
        let ghost d = directory_in(c@, ino)->Some_0;
        assert(dir@ == d@);
        let mut out: Vec<DirListing> = Vec::new();
        let n = dir.entries.len();
        if offset as u64 >= n as u64 {
            return Ok(out);
        }
        let mut i: usize = offset as usize;
        while i < n
            invariant
                c.wf(),
                c == self.tree(),
                n == d@.len(),
                dir@ == d@,
                offset <= i <= n,
                directory_in(c@, ino) == Some(d),
                forall|j: int| 0 <= j < d@.len() ==> #[trigger] c.resolve(d@[j].1) is Some,
                out@.len() == i - offset,
                forall|j: int| 0 <= j < out@.len() ==> {
                    &&& (#[trigger] out@[j]).name@ == d@[offset + j].0
                    &&& out@[j].inode == d@[offset + j].1
                    &&& out@[j].offset == offset + j + 1
                    &&& c.resolve(out@[j].inode) is Some
                    &&& out@[j].kind == kind_spec(c.resolve(out@[j].inode)->Some_0)
                },
            decreases n - i,
        {
            let child = dir.entries[i].1;
            assert(c.resolve(d@[i as int].1) is Some);
            let kind = match c.get_entry_by_inode(child) {
                Some(e) => e.kind(),
                None => EntryKind::RegularFile,
            };
            let line = DirListing { inode: child, offset: (i + 1) as u64, kind, name: dir.entries[i].0.clone() };
            let ghost prev = out@;
            out.push(line);
            proof {
                assert forall|j: int| 0 <= j < out@.len() - 1 implies out@[j] == prev[j] by {}
                assert(out@[out@.len() - 1] == line);
                assert(line.inode == d@[offset + (out@.len() - 1)].1);
                assert(line.name@ == d@[offset + (out@.len() - 1)].0);
            }
            i = i + 1;
        }
        Ok(out)
    }

    /// Lookup by name: the attributes of what the directory named by `parent` lists
    /// under `name`.
    pub fn lookup(&self, parent: u64, name: &String, now: Timestamp) -> (r: Result<Attributes, FsError>)
        requires
            self.wf(),
        ensures
            r == Err::<Attributes, FsError>(FsError::NotADirectory) <==> self.tree().resolve(parent) matches Some(BlobEntry::File(_)),
            r == Err::<Attributes, FsError>(FsError::NotFound) <==> (self.tree().resolve(parent) is None || (directory_in(self.tree()@, parent) is Some && child_in(self.tree()@, parent, name@) is None)),
            r is Err ==> r == Err::<Attributes, FsError>(FsError::NotADirectory) || r == Err::<Attributes, FsError>(FsError::NotFound),
            r matches Ok(a) ==> ({
                let id = child_in(self.tree()@, parent, name@)->Some_0;
                &&& child_in(self.tree()@, parent, name@) is Some
                &&& self.tree().resolve(id) is Some
                &&& a == attributes_spec(self.tree().resolve(id)->Some_0, self.uid(), self.gid(), now)
                &&& a.ino == id
            }),
    {
        let c = &self.blob_container;
        let dir = match c.get_entry_by_inode(parent) {
            Some(BlobEntry::Directory(d)) => d,
            Some(BlobEntry::File(_)) => {
                return Err(FsError::NotADirectory);
            },
            None => {
                return Err(FsError::NotFound);
            },
        };
        proof {
            c.lemma_directory_wf(parent);
        }
        match dir.get(name) {
            Some(id) => {
                proof {
                    c.lemma_listed_ids_resolve(parent);
                    let d = directory_in(c@, parent)->Some_0;
                    let i = choose|i: int| 0 <= i < d@.len() && (#[trigger] d@[i]).0 == name@;
                    crate::entry::lemma_lookup_at(d@, i);
                    assert(c.resolve(d@[i].1) is Some);
                    c.lemma_inode_matches(id);
                }
                match c.get_entry_by_inode(id) {
                    Some(entry) => Ok(self.get_attrs(entry, now)),
                    None => Err(FsError::NotFound),
                }
            },
            None => Err(FsError::NotFound),
        }
    }

    /// First step of a byte-range read; see `BlobContainer::download_blob`.
    pub fn read(&self, ino: u64, offset: i64, size: u32) -> (r: Result<ReadStep, FsError>)
        requires
            self.wf(),
            offset >= 0,
        ensures
            r == Err::<ReadStep, FsError>(FsError::NotFound) <==> self.tree().resolve(ino) is None,
            r == Err::<ReadStep, FsError>(FsError::NotAFile) <==> self.tree().resolve(ino) matches Some(BlobEntry::Directory(_)),
            r is Err ==> r == Err::<ReadStep, FsError>(FsError::NotFound) || r == Err::<ReadStep, FsError>(FsError::NotAFile),
            r matches Ok(ReadStep::Data(x)) ==> (cached_content(self.tree()@, ino) matches Some(d) && x@ == clamp_window(d, offset as int, size as int)),
            r matches Ok(ReadStep::Fetch(name)) ==> (self.tree().resolve(ino) matches Some(BlobEntry::File(f)) && f.data is None && name@ == f.name@),
            cached_content(self.tree()@, ino) is Some ==> r matches Ok(ReadStep::Data(_)),
    {
        self.blob_container.download_blob(ino, offset, size)
    }

    /// Last step of a read that had to fetch; see `BlobContainer::finish_download`.
    pub fn finish_read(&mut self, ino: u64, offset: i64, size: u32, fetched: Option<Vec<u8>>) -> (r: Result<Vec<u8>, FsError>)
        requires
            old(self).wf(),
            offset >= 0,
        ensures
            final(self).wf(),
            final(self).uid() == old(self).uid(),
            final(self).gid() == old(self).gid(),
            fetched matches Some(data) ==> stores_content(final(self).tree()@, old(self).tree()@, ino, data@),
            fetched is None ==> final(self).tree()@ == old(self).tree()@,
            r == Err::<Vec<u8>, FsError>(FsError::NotFound) <==> old(self).tree().resolve(ino) is None,
            r == Err::<Vec<u8>, FsError>(FsError::NotAFile) <==> old(self).tree().resolve(ino) matches Some(BlobEntry::Directory(_)),
            r == Err::<Vec<u8>, FsError>(FsError::FetchFailed) <==> (old(self).tree().resolve(ino) matches Some(BlobEntry::File(_)) && fetched is None),
            r is Err ==> r == Err::<Vec<u8>, FsError>(FsError::NotFound) || r == Err::<Vec<u8>, FsError>(FsError::NotAFile) || r == Err::<Vec<u8>, FsError>(FsError::FetchFailed),
            r matches Ok(x) ==> (cached_content(final(self).tree()@, ino) matches Some(d) && x@ == clamp_window(d, offset as int, size as int)),
    {
        self.blob_container.finish_download(ino, offset, size, fetched)
    }
}

} // verus!
