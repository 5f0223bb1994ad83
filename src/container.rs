use vstd::prelude::*;
use crate::entry::{BlobDirectory, BlobEntry, BlobInfo, ROOT_ID, Timestamp, lemma_lookup_at, names_contain};
use crate::paths::{is_dir_prefix, is_span, is_valid_name, join_path, lemma_join_injective, valid_name, valid_segment};

verus! {

/// Why the tree could not be built from a listing.
#[derive(Clone, Copy, Debug, PartialEq, Eq, Structural)]
pub enum BuildError {
    /// A page of the listing could not be read.
    ListingFailed,
    /// An object name with an empty segment or a `.` or `..` segment.
    InvalidName,
    /// An object name that collides with an entry already in the tree:
    /// it names an entry already there, or a file stands where it needs a directory.
    NameConflict,
    /// More entries than identifiers can number.
    TooManyEntries,
}

/// Why a call against the tree failed.
#[derive(Clone, Copy, Debug, PartialEq, Eq, Structural)]
pub enum FsError {
    /// No entry has the identifier or the name.
    NotFound,
    /// The entry is a file where a directory is needed.
    NotADirectory,
    /// The entry is a directory where a file is needed.
    NotAFile,
    /// The object's content could not be fetched from the store.
    FetchFailed,
}

/// What a read needs next.
#[derive(Clone, Debug)]
pub enum ReadStep {
    /// The requested bytes, served from the cached content.
    Data(Vec<u8>),
    /// The content is not cached yet: the object of this name must be fetched whole.
    Fetch(String),
}

/// The bytes of `data` in the window `[offset, offset + length)`, cut at the end of `data`.
pub open spec fn clamp_window(data: Seq<u8>, offset: int, length: int) -> Seq<u8> {
    let end = if offset + length < data.len() { offset + length } else { data.len() as int };
    if offset >= data.len() {
        Seq::empty()
    } else {
        data.subrange(offset, end)
    }
}

/// The cached content of the file named by `id`, if it is a file with content.
pub open spec fn cached_content(v: Seq<(Seq<char>, BlobEntry)>, id: u64) -> Option<Seq<u8>> {
    match resolve_in(v, id) {
        Some(BlobEntry::File(f)) => match f.data {
            Some(d) => Some(d@),
            None => None,
        },
        _ => None,
    }
}

/// `v` is `u` with the content `data` cached for the file named by `id`, unless
/// content was cached there already.
pub open spec fn stores_content(v: Seq<(Seq<char>, BlobEntry)>, u: Seq<(Seq<char>, BlobEntry)>, id: u64, data: Seq<u8>) -> bool {
    &&& v.len() == u.len()
    &&& forall|k: int| 0 <= k < u.len() && k != id - 1 ==> #[trigger] v[k] == u[k]
    &&& valid_id(u, id) ==> v[id - 1].0 == u[id - 1].0
    &&& match resolve_in(u, id) {
        Some(BlobEntry::File(f)) => {
            &&& v[id - 1].1 is File
            &&& (v[id - 1].1->File_0).name == f.name
            &&& (v[id - 1].1->File_0).size == f.size
            &&& (v[id - 1].1->File_0).last_modified == f.last_modified
            &&& (v[id - 1].1->File_0).inode == f.inode
            &&& cached_content(v, id) == Some(
                match f.data {
                    Some(d) => d@,
                    None => data,
                },
            )
        },
        _ => v == u,
    }
}

/// One record of the object listing.
#[derive(Clone, Debug)]
pub struct ObjectRecord {
    pub name: String,
    pub size: u64,
    pub last_modified: Timestamp,
}

/// The tree of entries built from the object listing.
///
/// The entry with identifier `k` stands at index `k - 1` of both tables; its path is
/// the empty string for the root and the object or prefix name otherwise.
pub struct BlobContainer {
    blob_cache: Vec<BlobEntry>,
    inode_map: Vec<String>,
    /// For each entry but the root, the index of the directory that lists it.
    parents: Ghost<Seq<int>>,
    /// For each entry but the root, the name under which its directory lists it.
    bases: Ghost<Seq<Seq<char>>>,
}

impl View for BlobContainer {
    /// Path and entry of each identifier, the identifier `k` at index `k - 1`.
    type V = Seq<(Seq<char>, BlobEntry)>;

    closed spec fn view(&self) -> Seq<(Seq<char>, BlobEntry)> {
        Seq::new(self.blob_cache@.len(), |k: int| (self.inode_map@[k]@, self.blob_cache@[k]))
    }
}

/// Whether `id` names an entry of `v`.
pub open spec fn valid_id(v: Seq<(Seq<char>, BlobEntry)>, id: u64) -> bool {
    1 <= id <= v.len()
}

/// The entry named by `id`, if any.
pub open spec fn resolve_in(v: Seq<(Seq<char>, BlobEntry)>, id: u64) -> Option<BlobEntry> {
    if valid_id(v, id) {
        Some(v[id - 1].1)
    } else {
        None
    }
}

/// The directory named by `id`, if it names one.
pub open spec fn directory_in(v: Seq<(Seq<char>, BlobEntry)>, id: u64) -> Option<BlobDirectory> {
    match resolve_in(v, id) {
        Some(BlobEntry::Directory(d)) => Some(d),
        _ => None,
    }
}

/// The identifier that the directory named `parent` lists under `name`, if any.
pub open spec fn child_in(v: Seq<(Seq<char>, BlobEntry)>, parent: u64, name: Seq<char>) -> Option<u64> {
    match directory_in(v, parent) {
        Some(d) => d.child(name),
        None => None,
    }
}

/// Some entry of `v` stands in the way of the object name `s`: an entry at `s` itself,
/// or a file at a path that `s` needs as a directory.
pub open spec fn conflicts(v: Seq<(Seq<char>, BlobEntry)>, s: Seq<char>) -> bool {
    exists|k: int| 0 <= k < v.len() && (#[trigger] v[k].0 == s || (v[k].1 is File && is_dir_prefix(v[k].0, s)))
}

/// A file at a path that `s` needs as a directory.
pub open spec fn file_on_prefix(v: Seq<(Seq<char>, BlobEntry)>, s: Seq<char>) -> bool {
    exists|k: int| 0 <= k < v.len() && #[trigger] v[k].1 is File && is_dir_prefix(v[k].0, s)
}

/// Some directory of `v` has the path `p`.
pub open spec fn dir_at_path(v: Seq<(Seq<char>, BlobEntry)>, p: Seq<char>) -> bool {
    exists|k: int| 0 <= k < v.len() && (#[trigger] v[k]).0 == p && v[k].1 is Directory
}

/// `v` holds the object `name` as a file of the given size and time, and a directory
/// at every path that the name needs.
pub open spec fn holds_object(v: Seq<(Seq<char>, BlobEntry)>, name: Seq<char>, size: u64, t: Timestamp) -> bool {
    &&& exists|k: int| 0 <= k < v.len() && (#[trigger] v[k]).0 == name && v[k].1 is File
        && (v[k].1->File_0).size == size && (v[k].1->File_0).last_modified == t
    &&& forall|j: int| 0 <= j < name.len() && name[j] == '/' ==> dir_at_path(v, #[trigger] name.subrange(0, j))
}

/// Two object names that can stand in one tree: they differ, and neither names a
/// directory that the other needs.
pub open spec fn names_compatible(a: Seq<char>, b: Seq<char>) -> bool {
    a != b && !is_dir_prefix(a, b) && !is_dir_prefix(b, a)
}

/// The number of characters of all names of `records`, plus one for each record.
pub open spec fn total_size(records: Seq<ObjectRecord>) -> int
    decreases records.len(),
{
    if records.len() == 0 {
        0
    } else {
        total_size(records.drop_last()) + records.last().name@.len() + 1
    }
}

/// A listing from which the tree can be built: every name is valid, no two names
/// collide, and the entries it makes can all be numbered.
pub open spec fn listing_buildable(records: Seq<ObjectRecord>) -> bool {
    &&& forall|i: int| 0 <= i < records.len() ==> valid_name((#[trigger] records[i]).name@)
    &&& forall|i: int, j: int| 0 <= i < j < records.len() ==> names_compatible((#[trigger] records[i]).name@, (#[trigger] records[j]).name@)
    &&& total_size(records) + 3 < u64::MAX
}

proof fn lemma_total_size_prefix(records: Seq<ObjectRecord>, i: int)
    requires
        0 <= i <= records.len(),
    ensures
        0 <= total_size(records.subrange(0, i)) <= total_size(records),
    decreases records.len() - i,
{
    if i < records.len() {
        lemma_total_size_prefix(records, i + 1);
        assert(records.subrange(0, i + 1).drop_last() =~= records.subrange(0, i));
    } else {
        assert(records.subrange(0, i) =~= records);
    }
    lemma_total_size_nonneg(records.subrange(0, i));
}

proof fn lemma_total_size_nonneg(records: Seq<ObjectRecord>)
    ensures
        total_size(records) >= 0,
    decreases records.len(),
{
    if records.len() > 0 {
        lemma_total_size_nonneg(records.drop_last());
    }
}

/// How many entries of `v` are files.
pub open spec fn file_count_in(v: Seq<(Seq<char>, BlobEntry)>) -> nat
    decreases v.len(),
{
    if v.len() == 0 {
        0
    } else {
        file_count_in(v.drop_last()) + if v.last().1 is File { 1nat } else { 0nat }
    }
}

/// `e` is the file of one of the first `n` records: at its name, with its size and
/// time, and with no content cached yet.
pub open spec fn file_from_listing(e: (Seq<char>, BlobEntry), records: Seq<ObjectRecord>, n: int) -> bool {
    exists|j: int| 0 <= j < n && e.0 == (#[trigger] records[j]).name@ && e.1 is File
        && (e.1->File_0).size == records[j].size && (e.1->File_0).last_modified == records[j].last_modified
        && (e.1->File_0).data is None
}

/// `p` is the path of a directory that one of the first `n` records needs.
pub open spec fn dir_from_listing(p: Seq<char>, records: Seq<ObjectRecord>, n: int) -> bool {
    exists|j: int| 0 <= j < n && is_dir_prefix(p, (#[trigger] records[j]).name@)
}

/// Identifiers follow the listing: the file of an earlier record comes before the
/// file of a later one, and every directory that a record needs comes before its file.
pub open spec fn ids_follow_listing(v: Seq<(Seq<char>, BlobEntry)>, records: Seq<ObjectRecord>, n: int) -> bool {
    &&& forall|j1: int, j2: int, k1: int, k2: int|
        0 <= j1 < j2 < n && 0 <= k1 < v.len() && 0 <= k2 < v.len()
        && (#[trigger] v[k1]).0 == (#[trigger] records[j1]).name@ && (#[trigger] v[k2]).0 == (#[trigger] records[j2]).name@
        ==> k1 < k2
    &&& forall|j: int, k: int, kf: int|
        0 <= j < n && 0 <= k < v.len() && 0 <= kf < v.len()
        && is_dir_prefix((#[trigger] v[k]).0, (#[trigger] records[j]).name@) && (#[trigger] v[kf]).0 == records[j].name@
        ==> k < kf
}

/// `v` holds everything that `u` held: the same paths, the same files, and every
/// listing of every directory.
pub open spec fn extends(v: Seq<(Seq<char>, BlobEntry)>, u: Seq<(Seq<char>, BlobEntry)>) -> bool {
    &&& u.len() <= v.len()
    &&& forall|k: int| 0 <= k < u.len() ==> (#[trigger] v[k]).0 == u[k].0
    &&& forall|k: int| 0 <= k < u.len() && u[k].1 is File ==> v[k].1 == u[k].1
    &&& forall|k: int| 0 <= k < u.len() && u[k].1 is Directory ==> v[k].1 is Directory
    &&& forall|k: int, n: Seq<char>| 0 <= k < u.len() && u[k].1 is Directory && (#[trigger] (u[k].1->Directory_0).child(n)) is Some ==>
            (v[k].1->Directory_0).child(n) == (u[k].1->Directory_0).child(n)
}

impl BlobContainer {
    /// The entry named by `id`, if any.
    pub open spec fn resolve(&self, id: u64) -> Option<BlobEntry> {
        resolve_in(self@, id)
    }

    spec fn listed_ok(&self, k: int, pair: (Seq<char>, u64)) -> bool {
        &&& valid_id(self@, pair.1)
        &&& (pair.0 == seq!['.'] || pair.0 == seq!['.', '.'] || (valid_segment(pair.0) && self@[pair.1 - 1].0 == join_path(self@[k].0, pair.0)))
    }

    spec fn dir_ok(&self, k: int) -> bool {
        let d = self@[k].1->Directory_0;
        &&& d.wf()
        &&& d.child(seq!['.']) == Some((k + 1) as u64)
        &&& d.child(seq!['.', '.']) == Some((if k == 0 { 1 } else { self.parents@[k] + 1 }) as u64)
        &&& forall|i: int| 0 <= i < d@.len() ==> self.listed_ok(k, #[trigger] d@[i])
    }

    spec fn parent_ok(&self, k: int) -> bool {
        let q = self.parents@[k];
        &&& 0 <= q < self@.len()
        &&& self@[q].1 is Directory
        &&& valid_segment(self.bases@[k])
        &&& self@[k].0 == join_path(self@[q].0, self.bases@[k])
        &&& (self@[q].1->Directory_0).child(self.bases@[k]) == Some((k + 1) as u64)
    }

    /// The tree's invariant: identifiers match positions, the root is a directory
    /// with the empty path, paths are unique, every listing points at an entry whose
    /// path extends the directory's by the listed name, and every entry but the root
    /// is listed by its directory.
    pub closed spec fn wf(&self) -> bool {
        let v = self@;
        &&& self.blob_cache@.len() == self.inode_map@.len()
        &&& self.parents@.len() == v.len()
        &&& self.bases@.len() == v.len()
        &&& 1 <= v.len() < u64::MAX
        &&& v[0].0.len() == 0
        &&& v[0].1 is Directory
        &&& forall|k: int| 0 <= k < v.len() ==> (#[trigger] v[k]).1.spec_inode() == k + 1
        &&& forall|k: int| 0 <= k < v.len() && (#[trigger] v[k]).1 is File ==> (v[k].1->File_0).name@ == v[k].0
        &&& forall|i: int, j: int| 0 <= i < v.len() && 0 <= j < v.len() && i != j ==> (#[trigger] v[i]).0 != (#[trigger] v[j]).0
        &&& forall|k: int| 0 <= k < v.len() && (#[trigger] v[k]).1 is Directory ==> self.dir_ok(k)
        &&& forall|k: int| 1 <= k < v.len() ==> #[trigger] self.parent_ok(k)
    }

    /// A tree that holds only the root directory.
    pub fn with_root() -> (r: Self)
        ensures
            r.wf(),
            r@.len() == 1,
            r@[0].0.len() == 0,
            r@[0].1 is Directory,
            (r@[0].1->Directory_0)@ == seq![(seq!['.'], ROOT_ID), (seq!['.', '.'], ROOT_ID)],
    {
        let root = BlobDirectory::root();
        let ghost parents = seq![0int];
        let ghost bases: Seq<Seq<char>> = seq![Seq::empty()];
        let r = BlobContainer {
            blob_cache: vec![BlobEntry::Directory(root)],
            inode_map: vec![String::new()],
            parents: Ghost(parents),
            bases: Ghost(bases),
        };
        assert(r@[0].1 == BlobEntry::Directory(root));
        assert(r.dir_ok(0)) by {
            assert forall|i: int| 0 <= i < root@.len() implies r.listed_ok(0, #[trigger] root@[i]) by {
            }
        }
        r
    }

    /// Number of entries, the root included.
    pub fn entry_count(&self) -> (r: usize)
        ensures
            r == self@.len(),
    {
        self.blob_cache.len()
    }

    /// The entry named by `inode`, if any.
    pub fn get_entry_by_inode(&self, inode: u64) -> (r: Option<&BlobEntry>)
        requires
            self.wf(),
        ensures
            match r {
                Some(e) => self.resolve(inode) == Some(*e),
                None => self.resolve(inode) is None,
            },
    {
        if inode >= 1 && inode <= self.blob_cache.len() as u64 {
            Some(&self.blob_cache[(inode - 1) as usize])
        } else {
            None
        }
    }

    /// The path of the entry named by `inode`, if any.
    pub fn get_path(&self, inode: u64) -> (r: Option<&String>)
        requires
            self.wf(),
        ensures
            match r {
                Some(p) => valid_id(self@, inode) && p@ == self@[inode - 1].0,
                None => !valid_id(self@, inode),
            },
    {
        if inode >= 1 && inode <= self.inode_map.len() as u64 {
            Some(&self.inode_map[(inode - 1) as usize])
        } else {
            None
        }
    }

    /// The directory named by `inode`, if it names one.
    pub fn get_directory(&self, inode: u64) -> (r: Option<&BlobDirectory>)
        requires
            self.wf(),
        ensures
            match r {
                Some(d) => directory_in(self@, inode) == Some(*d),
                None => directory_in(self@, inode) is None,
            },
    {
        match self.get_entry_by_inode(inode) {
            Some(BlobEntry::Directory(d)) => Some(d),
            _ => None,
        }
    }

    /// What the directory at index `d` lists under a valid `seg` is the entry at
    /// `join_path(path of d, seg)`; where it lists nothing, no entry has that path.
    proof fn lemma_unlisted_absent(&self, d: int, seg: Seq<char>)
        requires
            self.wf(),
            0 <= d < self@.len(),
            self@[d].1 is Directory,
            valid_segment(seg),
            (self@[d].1->Directory_0).child(seg) is None,
        ensures
            forall|k: int| 0 <= k < self@.len() ==> (#[trigger] self@[k]).0 != join_path(self@[d].0, seg),
    {
        assert forall|k: int| 0 <= k < self@.len() implies (#[trigger] self@[k]).0 != join_path(self@[d].0, seg) by {
            if self@[k].0 == join_path(self@[d].0, seg) {
                if k == 0 {
                    assert(join_path(self@[d].0, seg).len() > 0);
                } else {
                    assert(self.parent_ok(k));
                    let q = self.parents@[k];
                    lemma_join_injective(self@[q].0, self.bases@[k], self@[d].0, seg);
                    if q != d {
                        assert(self@[q].0 != self@[d].0);
                    }
                }
            }
        }
    }

    /// The entry that a directory lists under a valid name has the joined path.
    proof fn lemma_listed_path(&self, d: int, seg: Seq<char>)
        requires
            self.wf(),
            0 <= d < self@.len(),
            self@[d].1 is Directory,
            valid_segment(seg),
            (self@[d].1->Directory_0).child(seg) is Some,
        ensures
            valid_id(self@, (self@[d].1->Directory_0).child(seg)->Some_0),
            self@[(self@[d].1->Directory_0).child(seg)->Some_0 - 1].0 == join_path(self@[d].0, seg),
    {
        let dir = self@[d].1->Directory_0;
        assert(self.dir_ok(d));
        assert(names_contain(dir@, seg));
        let i = choose|i: int| 0 <= i < dir@.len() && (#[trigger] dir@[i]).0 == seg;
        lemma_lookup_at(dir@, i);
        assert(self.listed_ok(d, dir@[i]));
    }
}

/// Puts `e` at index `i` of `v` and hands back what stood there.
fn replace_at<T>(v: &mut Vec<T>, i: usize, e: T) -> (r: T)
    requires
        i < old(v)@.len(),
    ensures
        final(v)@ == old(v)@.update(i as int, e),
        r == old(v)@[i as int],
{
    v.push(e);
    let r = v.swap_remove(i);
    assert(final(v)@ =~= old(v)@.update(i as int, e));
    r
}

impl BlobContainer {
    /// Lists `id` under `name` in the directory at index `d`.
    fn list_in_directory(&mut self, d: usize, name: String, id: u64)
        requires
            d < old(self).blob_cache@.len(),
            old(self).blob_cache@[d as int] is Directory,
            (old(self).blob_cache@[d as int]->Directory_0).wf(),
        ensures
            final(self).inode_map == old(self).inode_map,
            final(self).parents == old(self).parents,
            final(self).bases == old(self).bases,
            final(self).blob_cache@.len() == old(self).blob_cache@.len(),
            forall|k: int| 0 <= k < old(self).blob_cache@.len() && k != d ==> final(self).blob_cache@[k] == old(self).blob_cache@[k],
            final(self).blob_cache@[d as int] is Directory,
            ({
                let od = old(self).blob_cache@[d as int]->Directory_0;
                let nd = final(self).blob_cache@[d as int]->Directory_0;
                &&& nd.wf()
                &&& nd.inode == od.inode
                &&& nd.child(name@) == Some(id)
                &&& forall|n: Seq<char>| n != name@ ==> #[trigger] nd.child(n) == od.child(n)
                &&& (!names_contain(od@, name@) ==> nd@ == od@.push((name@, id)))
                &&& (names_contain(od@, name@) ==> nd@.len() == od@.len())
            }),
    {
        let placeholder = BlobEntry::Directory(BlobDirectory { entries: Vec::new(), inode: 0 });
        let taken = replace_at(&mut self.blob_cache, d, placeholder);
        match taken {
            BlobEntry::Directory(mut dir) => {
                dir.add_file(name, id);
                replace_at(&mut self.blob_cache, d, BlobEntry::Directory(dir));
            },
            BlobEntry::File(f) => {
                replace_at(&mut self.blob_cache, d, BlobEntry::File(f));
            },
        }
    }

    /// Adds an entry at `path`, listed under `base` by the directory `parent`: a file
    /// of the given size and time where `file` holds them, else an empty directory.
    fn add_entry(&mut self, path: String, parent: u64, base: String, file: Option<(u64, Timestamp)>) -> (id: u64)
        requires
            old(self).wf(),
            valid_id(old(self)@, parent),
            old(self)@[parent - 1].1 is Directory,
            valid_segment(base@),
            path@ == join_path(old(self)@[parent - 1].0, base@),
            (old(self)@[parent - 1].1->Directory_0).child(base@) is None,
            old(self)@.len() + 1 < u64::MAX,
        ensures
            final(self).wf(),
            id == old(self)@.len() + 1,
            final(self)@.len() == old(self)@.len() + 1,
            final(self)@[id - 1].0 == path@,
            file is None ==> final(self)@[id - 1].1 is Directory,
            file matches Some((size, t)) ==> ({
                let e = final(self)@[id - 1].1;
                &&& e is File
                &&& (e->File_0).name@ == path@
                &&& (e->File_0).size == size
                &&& (e->File_0).last_modified == t
                &&& (e->File_0).data is None
            }),
            extends(final(self)@, old(self)@),
            child_in(final(self)@, parent, base@) == Some(id),
            forall|k: int| 0 <= k < old(self)@.len() && k != parent - 1 ==> #[trigger] final(self)@[k] == old(self)@[k],
            final(self)@[parent - 1].0 == old(self)@[parent - 1].0,
            (final(self)@[parent - 1].1->Directory_0)@ == (old(self)@[parent - 1].1->Directory_0)@.push((base@, id)),
            (final(self)@[parent - 1].1->Directory_0).inode == (old(self)@[parent - 1].1->Directory_0).inode,
            file is None ==> (final(self)@[id - 1].1->Directory_0)@ == seq![(seq!['.'], id), (seq!['.', '.'], parent)],
    {
        let ghost old_v = self@;
        proof {
            self.lemma_unlisted_absent(parent - 1, base@);
            assert(self.dir_ok(parent - 1));
        }
        let id = self.blob_cache.len() as u64 + 1;
        let new_entry = match file {
            Some((size, t)) => BlobEntry::File(BlobInfo::new(path.clone(), size, t, id)),
            None => BlobEntry::Directory(BlobDirectory::new(id, parent)),
        };
        let ghost e = new_entry;
        self.blob_cache.push(new_entry);
        self.inode_map.push(path);
        self.parents = Ghost(self.parents@.push(parent - 1));
        self.bases = Ghost(self.bases@.push(base@));
        let ghost mid_cache = self.blob_cache@;
        self.list_in_directory((parent - 1) as usize, base, id);
        proof {
            let v = self@;
            let n = old_v.len() as int;
            let p = parent - 1;
            assert(v.len() == n + 1);
            assert forall|k: int| 0 <= k < n && k != p implies #[trigger] v[k] == old_v[k] by {
                assert(self.blob_cache@[k] == mid_cache[k]);
            }
            assert(v[n].1 == e);
            assert(v[n].0 == path@);
            let od = old_v[p].1->Directory_0;
            let nd = v[p].1->Directory_0;
            assert(v[p].0 == old_v[p].0);
            assert(!names_contain(od@, base@));
            assert(nd@ == od@.push((base@, id)));
            assert(nd.inode == od.inode);
            // identifiers and paths
            assert forall|k: int| 0 <= k < v.len() implies (#[trigger] v[k]).1.spec_inode() == k + 1 by {
                if k < n && k != p {
                    assert(v[k] == old_v[k]);
                }
            }
            assert forall|k: int| 0 <= k < v.len() && (#[trigger] v[k]).1 is File implies (v[k].1->File_0).name@ == v[k].0 by {
                if k < n && k != p {
                    assert(v[k] == old_v[k]);
                }
            }
            assert forall|i: int, j: int| 0 <= i < v.len() && 0 <= j < v.len() && i != j implies (#[trigger] v[i]).0 != (#[trigger] v[j]).0 by {
                if i < n && j < n {
                    assert(v[i].0 == old_v[i].0);
                    assert(v[j].0 == old_v[j].0);
                } else if i == n {
                    assert(v[j].0 == old_v[j].0);
                } else {
                    assert(v[i].0 == old_v[i].0);
                }
            }
            // listings
            assert forall|k: int| 0 <= k < v.len() && (#[trigger] v[k]).1 is Directory implies self.dir_ok(k) by {
                if k == n {
                    let dir = e->Directory_0;
                    assert forall|i: int| 0 <= i < dir@.len() implies self.listed_ok(k, #[trigger] dir@[i]) by {
                    }
                } else if k == p {
                    assert(old(self).dir_ok(k));
                    assert forall|i: int| 0 <= i < nd@.len() implies self.listed_ok(k, #[trigger] nd@[i]) by {
                        if i < od@.len() {
                            assert(nd@[i] == od@[i]);
                            assert(old(self).listed_ok(k, od@[i]));
                            if valid_segment(od@[i].0) && od@[i].0 != seq!['.'] && od@[i].0 != seq!['.', '.'] {
                                let c = od@[i].1 - 1;
                                if c != p && c != n {
                                    assert(v[c] == old_v[c]);
                                }
                            }
                        }
                    }
                    assert(nd.child(seq!['.']) == od.child(seq!['.']));
                    assert(nd.child(seq!['.', '.']) == od.child(seq!['.', '.']));
                } else {
                    assert(v[k] == old_v[k]);
                    assert(old(self).dir_ok(k));
                    let kd = v[k].1->Directory_0;
                    assert forall|i: int| 0 <= i < kd@.len() implies self.listed_ok(k, #[trigger] kd@[i]) by {
                        assert(old(self).listed_ok(k, kd@[i]));
                        if valid_segment(kd@[i].0) && kd@[i].0 != seq!['.'] && kd@[i].0 != seq!['.', '.'] {
                            let c = kd@[i].1 - 1;
                            if c != p && c != n {
                                assert(v[c] == old_v[c]);
                            }
                        }
                    }
                }
            }
            assert forall|k: int| 1 <= k < v.len() implies #[trigger] self.parent_ok(k) by {
                if k < n {
                    assert(old(self).parent_ok(k));
                    let q = self.parents@[k];
                    if q != p {
                        assert(v[q] == old_v[q]);
                    } else {
                        assert(self.bases@[k] != base@);
                    }
                    if k != p {
                        assert(v[k] == old_v[k]);
                    }
                }
            }
            assert(extends(v, old_v)) by {
                assert forall|k: int| 0 <= k < old_v.len() implies (#[trigger] v[k]).0 == old_v[k].0 by {
                    if k != p {
                        assert(v[k] == old_v[k]);
                    }
                }
                assert forall|k: int, m: Seq<char>| 0 <= k < old_v.len() && old_v[k].1 is Directory && (#[trigger] (old_v[k].1->Directory_0).child(m)) is Some implies
                    (v[k].1->Directory_0).child(m) == (old_v[k].1->Directory_0).child(m) by {
                    if k != p {
                        assert(v[k] == old_v[k]);
                    }
                }
                assert forall|k: int| 0 <= k < old_v.len() && old_v[k].1 is File implies v[k].1 == old_v[k].1 by {
                    if k != p {
                        assert(v[k] == old_v[k]);
                    }
                }
            }
        }
        id
    }
}

impl BlobContainer {
    /// Makes sure that every directory that `blob_name` needs exists, creating the
    /// missing ones from the root down, and returns the identifier of the directory
    /// that holds the object together with the object's last segment.
    pub fn process_directories(&mut self, blob_name: &String) -> (r: Result<(u64, String), BuildError>)
        requires
            old(self).wf(),
            valid_name(blob_name@),
            old(self)@.len() + blob_name@.len() + 1 < u64::MAX,
        ensures
            final(self).wf(),
            extends(final(self)@, old(self)@),
            forall|k: int| old(self)@.len() <= k < final(self)@.len() ==> (#[trigger] final(self)@[k]).1 is Directory,
            forall|k: int| old(self)@.len() <= k < final(self)@.len() ==> is_dir_prefix(#[trigger] final(self)@[k].0, blob_name@),
            final(self)@.len() <= old(self)@.len() + blob_name@.len(),
            forall|k1: int, k2: int| old(self)@.len() <= k1 < k2 < final(self)@.len() ==> (#[trigger] final(self)@[k1]).0.len() < (#[trigger] final(self)@[k2]).0.len(),
            forall|k: int| old(self)@.len() <= k < final(self)@.len() ==> (#[trigger] final(self)@[k]).0.len() < blob_name@.len(),
            r is Err <==> file_on_prefix(old(self)@, blob_name@),
            r is Err ==> r == Err::<(u64, String), BuildError>(BuildError::NameConflict),
            r matches Ok((d, base)) ==> ({
                &&& directory_in(final(self)@, d) is Some
                &&& valid_segment(base@)
                &&& join_path(final(self)@[d - 1].0, base@) == blob_name@
            }),
            r is Ok ==> forall|j: int| 0 <= j < blob_name@.len() && blob_name@[j] == '/' ==> dir_at_path(final(self)@, #[trigger] blob_name@.subrange(0, j)),
    {
        let ghost s = blob_name@;
        let ghost old_v = self@;
        let n = blob_name.as_str().unicode_len();
        let mut cur: u64 = ROOT_ID;
        let mut start: usize = 0;
        let mut i: usize = 0;
        while i < n
            invariant
                n == s.len(),
                s == blob_name@,
                old_v == old(self)@,
                valid_name(s),
                old_v.len() + s.len() + 1 < u64::MAX,
                self.wf(),
                extends(self@, old_v),
                forall|k: int| old_v.len() <= k < self@.len() ==> (#[trigger] self@[k]).1 is Directory,
                forall|k: int| old_v.len() <= k < self@.len() ==> is_dir_prefix(#[trigger] self@[k].0, s),
                self@.len() <= old_v.len() + i,
                forall|k1: int, k2: int| old_v.len() <= k1 < k2 < self@.len() ==> (#[trigger] self@[k1]).0.len() < (#[trigger] self@[k2]).0.len(),
                forall|k: int| old_v.len() <= k < self@.len() ==> (#[trigger] self@[k]).0.len() < i,
                0 <= start <= i <= n,
                start == 0 || s[start - 1] == '/',
                forall|k: int| start <= k < i ==> s[k] != '/',
                valid_id(self@, cur),
                self@[cur - 1].1 is Directory,
                self@[cur - 1].0 == (if start == 0 { Seq::<char>::empty() } else { s.subrange(0, start - 1) }),
                forall|j: int| 0 <= j < i && s[j] == '/' ==> dir_at_path(self@, #[trigger] s.subrange(0, j)),
                forall|j: int, k: int| 0 <= j < i && s[j] == '/' && 0 <= k < old_v.len() && old_v[k].1 is File ==> (#[trigger] old_v[k]).0 != #[trigger] s.subrange(0, j),
            decreases n - i,
        {
            if blob_name.as_str().get_char(i) == '/' {
                let seg = String::from_str(blob_name.as_str().substring_char(start, i));
                let prefix = String::from_str(blob_name.as_str().substring_char(0, i));
                proof {
                    assert(is_span(s, start as int, i as int));
                    if start == 0 {
                        assert(prefix@ =~= seg@);
                    } else {
                        if start == 1 {
                            assert(is_span(s, 0, 0));
                            assert(s.subrange(0, 0).len() == 0);
                        }
                        assert(s.subrange(0, start - 1).len() > 0);
                        assert(prefix@ =~= s.subrange(0, start - 1) + seq!['/'] + seg@);
                    }
                    assert(prefix@ == join_path(self@[cur - 1].0, seg@));
                }
                let ghost before = self@;
                let found = match self.get_directory(cur) {
                    Some(dir) => dir.get(&seg),
                    None => None,
                };
                let next: u64;
                match found {
                    Some(c) => {
                        proof {
                            self.lemma_listed_path(cur - 1, seg@);
                        }
                        match self.get_entry_by_inode(c) {
                            Some(BlobEntry::Directory(_)) => {
                                next = c;
                            },
                            _ => {
                                proof {
                                    let k = c - 1;
                                    assert(k < old_v.len());
                                    assert(old_v[k].1 is File);
                                    assert(old_v[k].0 == self@[k].0);
                                    assert(is_dir_prefix(old_v[k].0, s));
                                }
                                return Err(BuildError::NameConflict);
                            },
                        }
                    },
                    None => {
                        next = self.add_entry(prefix, cur, seg, None);
                        proof {
                            assert(extends(self@, old_v)) by {
                                assert forall|k: int, m: Seq<char>| 0 <= k < old_v.len() && old_v[k].1 is Directory && (#[trigger] (old_v[k].1->Directory_0).child(m)) is Some implies
                                    (self@[k].1->Directory_0).child(m) == (old_v[k].1->Directory_0).child(m) by {
                                    assert((before[k].1->Directory_0).child(m) == (old_v[k].1->Directory_0).child(m));
                                }
                            }
                        }
                    },
                }
                proof {
                    let v = self@;
                    let k = next - 1;
                    assert(v[k].0 == s.subrange(0, i as int));
                    assert(dir_at_path(v, s.subrange(0, i as int)));
                    assert forall|m: int| old_v.len() <= m < v.len() implies (#[trigger] v[m]).0.len() < i + 1 by {
                        if m < before.len() {
                            assert(v[m].0 == before[m].0);
                        }
                    }
                    assert forall|k1: int, k2: int| old_v.len() <= k1 < k2 < v.len() implies (#[trigger] v[k1]).0.len() < (#[trigger] v[k2]).0.len() by {
                        assert(v[k1].0 == before[k1].0);
                        if k2 < before.len() {
                            assert(v[k2].0 == before[k2].0);
                        }
                    }
                    assert forall|m: int| old_v.len() <= m < v.len() implies is_dir_prefix(#[trigger] v[m].0, s) by {
                        if m < before.len() {
                            assert(v[m].0 == before[m].0);
                        } else {
                            assert(v[m].0 == s.subrange(0, i as int));
                        }
                    }
                    assert forall|j: int| 0 <= j < i + 1 && s[j] == '/' implies dir_at_path(v, #[trigger] s.subrange(0, j)) by {
                        if j < i {
                            assert(dir_at_path(before, s.subrange(0, j)));
                            let w = choose|w: int| 0 <= w < before.len() && (#[trigger] before[w]).0 == s.subrange(0, j) && before[w].1 is Directory;
                            assert(v[w].0 == before[w].0);
                        }
                    }
                    assert forall|j: int, m: int| 0 <= j < i + 1 && s[j] == '/' && 0 <= m < old_v.len() && old_v[m].1 is File implies (#[trigger] old_v[m]).0 != #[trigger] s.subrange(0, j) by {
                        if j == i {
                            assert(v[m].1 is File);
                            assert(m != k);
                            assert(v[m].0 == old_v[m].0);
                        }
                    }
                }
                cur = next;
                start = i + 1;
                assert(s.subrange(0, start - 1) == s.subrange(0, i as int));
            }
            i = i + 1;
        }
        let base = String::from_str(blob_name.as_str().substring_char(start, n));
        proof {
            assert(is_span(s, start as int, n as int));
            if start == 0 {
                assert(base@ =~= s);
            } else {
                if start == 1 {
                    assert(is_span(s, 0, 0));
                    assert(s.subrange(0, 0).len() == 0);
                }
                assert(s.subrange(0, start - 1).len() > 0);
                assert(s =~= s.subrange(0, start - 1) + seq!['/'] + base@);
            }
            assert(!file_on_prefix(old_v, s)) by {
                if file_on_prefix(old_v, s) {
                    let k = choose|k: int| 0 <= k < old_v.len() && #[trigger] old_v[k].1 is File && is_dir_prefix(old_v[k].0, s);
                    let j = choose|j: int| 0 <= j < s.len() && s[j] == '/' && old_v[k].0 == #[trigger] s.subrange(0, j);
                    assert(old_v[k].0 != s.subrange(0, j));
                }
            }
        }
        Ok((cur, base))
    }
}

impl BlobContainer {
    /// Adds the object `name` of the listing as a file, with the directories that its
    /// name implies, and returns the file's identifier.
    pub fn add_blob(&mut self, name: String, size: u64, last_modified: Timestamp) -> (r: Result<u64, BuildError>)
        requires
            old(self).wf(),
        ensures
            final(self).wf(),
            extends(final(self)@, old(self)@),
            r == Err::<u64, BuildError>(BuildError::InvalidName) <==> !valid_name(name@),
            r == Err::<u64, BuildError>(BuildError::TooManyEntries) <==> valid_name(name@) && old(self)@.len() + name@.len() + 2 >= u64::MAX,
            r == Err::<u64, BuildError>(BuildError::NameConflict) <==> valid_name(name@) && old(self)@.len() + name@.len() + 2 < u64::MAX && conflicts(old(self)@, name@),
            r is Err ==> r == Err::<u64, BuildError>(BuildError::InvalidName) || r == Err::<u64, BuildError>(BuildError::TooManyEntries) || r == Err::<u64, BuildError>(BuildError::NameConflict),
            r matches Ok(id) ==> ({
                &&& valid_id(final(self)@, id)
                &&& final(self)@[id - 1].0 == name@
                &&& final(self)@[id - 1].1 is File
                &&& (final(self)@[id - 1].1->File_0).size == size
                &&& (final(self)@[id - 1].1->File_0).last_modified == last_modified
                &&& (final(self)@[id - 1].1->File_0).data is None
            }),
            r is Ok ==> forall|j: int| 0 <= j < name@.len() && name@[j] == '/' ==> dir_at_path(final(self)@, #[trigger] name@.subrange(0, j)),
            final(self)@.len() <= old(self)@.len() + name@.len() + 1,
            r matches Ok(id) ==> id == final(self)@.len(),
            r is Ok ==> forall|k1: int, k2: int| old(self)@.len() <= k1 < k2 < final(self)@.len() ==> (#[trigger] final(self)@[k1]).0.len() < (#[trigger] final(self)@[k2]).0.len(),
            forall|k: int| old(self)@.len() <= k < final(self)@.len() ==> (#[trigger] final(self)@[k]).0 == name@ || is_dir_prefix(final(self)@[k].0, name@),
            forall|k: int| old(self)@.len() <= k < final(self)@.len() ==> ((#[trigger] final(self)@[k]).1 is File <==> final(self)@[k].0 == name@),
    {
        if !is_valid_name(&name) {
            return Err(BuildError::InvalidName);
        }
        let len = name.as_str().unicode_len();
        let count = self.blob_cache.len();
        if count as u64 >= u64::MAX - 2 || len as u64 >= u64::MAX - 2 - count as u64 {
            return Err(BuildError::TooManyEntries);
        }
        let ghost old_v = self@;
        let (parent, base) = match self.process_directories(&name) {
            Ok(found) => found,
            Err(e) => {
                proof {
                    let k = choose|k: int| 0 <= k < old_v.len() && #[trigger] old_v[k].1 is File && is_dir_prefix(old_v[k].0, name@);
                    assert(conflicts(old_v, name@));
                    assert forall|m: int| old_v.len() <= m < self@.len() implies ((#[trigger] self@[m]).1 is File <==> self@[m].0 == name@) by {
                        let j = choose|j: int| 0 <= j < name@.len() && name@[j] == '/' && self@[m].0 == #[trigger] name@.subrange(0, j);
                        assert(self@[m].0.len() < name@.len());
                    }
                }
                return Err(e);
            },
        };
        let ghost mid = self@;
        proof {
            assert forall|m: int| old_v.len() <= m < mid.len() implies ((#[trigger] mid[m]).1 is File <==> mid[m].0 == name@) by {
                let j = choose|j: int| 0 <= j < name@.len() && name@[j] == '/' && mid[m].0 == #[trigger] name@.subrange(0, j);
                assert(mid[m].0.len() < name@.len());
            }
        }
        let existing = match self.get_directory(parent) {
            Some(dir) => dir.get(&base),
            None => None,
        };
        if existing.is_some() {
            proof {
                self.lemma_listed_path(parent - 1, base@);
                let k = existing->Some_0 - 1;
                assert(self@[k].0 == name@);
                if k >= old_v.len() {
                    let j = choose|j: int| 0 <= j < name@.len() && name@[j] == '/' && self@[k].0 == #[trigger] name@.subrange(0, j);
                    assert(self@[k].0.len() < name@.len());
                }
                assert(old_v[k].0 == name@);
                assert(conflicts(old_v, name@));
            }
            return Err(BuildError::NameConflict);
        }
        proof {
            self.lemma_unlisted_absent(parent - 1, base@);
            assert(!conflicts(old_v, name@)) by {
                if conflicts(old_v, name@) {
                    let k = choose|k: int| 0 <= k < old_v.len() && (#[trigger] old_v[k].0 == name@ || (old_v[k].1 is File && is_dir_prefix(old_v[k].0, name@)));
                    if old_v[k].0 == name@ {
                        assert(self@[k].0 == name@);
                    }
                }
            }
        }
        let id = self.add_entry(name, parent, base, Some((size, last_modified)));
        proof {
            let v = self@;
            assert forall|j: int| 0 <= j < v[id - 1].0.len() && v[id - 1].0[j] == '/' implies dir_at_path(v, #[trigger] v[id - 1].0.subrange(0, j)) by {
                assert(dir_at_path(mid, v[id - 1].0.subrange(0, j)));
                let w = choose|w: int| 0 <= w < mid.len() && (#[trigger] mid[w]).0 == v[id - 1].0.subrange(0, j) && mid[w].1 is Directory;
                assert(v[w].0 == mid[w].0);
            }
            assert(extends(v, old_v)) by {
                assert forall|k: int, m: Seq<char>| 0 <= k < old_v.len() && old_v[k].1 is Directory && (#[trigger] (old_v[k].1->Directory_0).child(m)) is Some implies
                    (v[k].1->Directory_0).child(m) == (old_v[k].1->Directory_0).child(m) by {
                    assert((mid[k].1->Directory_0).child(m) == (old_v[k].1->Directory_0).child(m));
                }
            }
            assert forall|m: int| old_v.len() <= m < v.len() implies ((#[trigger] v[m]).1 is File <==> v[m].0 == name@) by {
                if m < mid.len() {
                    assert(v[m] == mid[m] || v[m].0 == mid[m].0);
                    assert(v[m].0 == mid[m].0);
                    assert(v[m].1 is Directory);
                    assert(mid[m].0 != v[id - 1].0);
                }
            }
        }
        Ok(id)
    }
}

/// The bytes of `data` in the window that starts at `offset` and spans `length` bytes.
pub fn slice_window(data: &Vec<u8>, offset: u64, length: u32) -> (r: Vec<u8>)
    requires
        offset + length <= u64::MAX,
    ensures
        r@ == clamp_window(data@, offset as int, length as int),
{
    let len: usize = data.len();
    let mut out: Vec<u8> = Vec::new();
    if offset >= len as u64 {
        return out;
    }
    let start: usize = offset as usize;
    let end: usize = if offset + (length as u64) < len as u64 { (offset + (length as u64)) as usize } else { len };
    let mut i: usize = start;
    while i < end
        invariant
            start <= i <= end,
            start == offset,
            end <= len,
            len == data@.len(),
            out@ == data@.subrange(start as int, i as int),
        decreases end - i,
    {
        out.push(data[i]);
        i = i + 1;
        assert(out@ =~= data@.subrange(start as int, i as int));
    }
    out
}

impl BlobContainer {
    /// The first step of a read of `size` bytes at `offset` of the file named by `inode`:
    /// the bytes, where the content is cached, or the name of the object to fetch.
    pub fn download_blob(&self, inode: u64, offset: i64, size: u32) -> (r: Result<ReadStep, FsError>)
        requires
            self.wf(),
            offset >= 0,
        ensures
            r == Err::<ReadStep, FsError>(FsError::NotFound) <==> self.resolve(inode) is None,
            r == Err::<ReadStep, FsError>(FsError::NotAFile) <==> self.resolve(inode) matches Some(BlobEntry::Directory(_)),
            r is Err ==> r == Err::<ReadStep, FsError>(FsError::NotFound) || r == Err::<ReadStep, FsError>(FsError::NotAFile),
            r matches Ok(ReadStep::Data(x)) ==> (cached_content(self@, inode) matches Some(d) && x@ == clamp_window(d, offset as int, size as int)),
            r matches Ok(ReadStep::Fetch(name)) ==> (self.resolve(inode) matches Some(BlobEntry::File(f)) && f.data is None && name@ == f.name@),
            cached_content(self@, inode) is Some ==> r matches Ok(ReadStep::Data(_)),
    {
        match self.get_entry_by_inode(inode) {
            None => Err(FsError::NotFound),
            Some(BlobEntry::Directory(_)) => Err(FsError::NotAFile),
            Some(BlobEntry::File(f)) => match &f.data {
                Some(d) => Ok(ReadStep::Data(slice_window(d, offset as u64, size))),
                None => Ok(ReadStep::Fetch(f.name.clone())),
            },
        }
    }

    /// Caches `data` as the content of the file named by `inode`, unless content is
    /// cached there already: the first complete fetch is kept.
    pub fn store_content(&mut self, inode: u64, data: Vec<u8>) -> (r: Result<(), FsError>)
        requires
            old(self).wf(),
        ensures
            final(self).wf(),
            stores_content(final(self)@, old(self)@, inode, data@),
            r == Err::<(), FsError>(FsError::NotFound) <==> old(self).resolve(inode) is None,
            r == Err::<(), FsError>(FsError::NotAFile) <==> old(self).resolve(inode) matches Some(BlobEntry::Directory(_)),
            r is Err ==> r == Err::<(), FsError>(FsError::NotFound) || r == Err::<(), FsError>(FsError::NotAFile),
    {
        if inode < 1 || inode > self.blob_cache.len() as u64 {
            return Err(FsError::NotFound);
        }
        let k = (inode - 1) as usize;
        let is_dir = match &self.blob_cache[k] {
            BlobEntry::Directory(_) => true,
            BlobEntry::File(_) => false,
        };
        if is_dir {
            return Err(FsError::NotAFile);
        }
        assert(self@[k as int].1 is File);
        let ghost old_v = self@;
        let placeholder = BlobEntry::Directory(BlobDirectory { entries: Vec::new(), inode: 0 });
        let taken = replace_at(&mut self.blob_cache, k, placeholder);
        match taken {
            BlobEntry::File(f) => {
                let f2 = match f.data {
                    Some(d) => BlobInfo { data: Some(d), ..f },
                    None => BlobInfo { data: Some(data), ..f },
                };
                replace_at(&mut self.blob_cache, k, BlobEntry::File(f2));
                proof {
                    let v = self@;
                    assert(v.len() == old_v.len());
                    assert forall|m: int| 0 <= m < v.len() && m != k implies #[trigger] v[m] == old_v[m] by {
                    }
                    assert(k != 0);
                    assert(v[0] == old_v[0]);
                    assert forall|m: int| 0 <= m < v.len() && (#[trigger] v[m]).1 is Directory implies self.dir_ok(m) by {
                        assert(old(self).dir_ok(m));
                        let d = v[m].1->Directory_0;
                        assert forall|i: int| 0 <= i < d@.len() implies self.listed_ok(m, #[trigger] d@[i]) by {
                            assert(old(self).listed_ok(m, d@[i]));
                        }
                    }
                    assert forall|m: int| 1 <= m < v.len() implies #[trigger] self.parent_ok(m) by {
                        assert(old(self).parent_ok(m));
                    }
                    assert forall|i: int, j: int| 0 <= i < v.len() && 0 <= j < v.len() && i != j implies (#[trigger] v[i]).0 != (#[trigger] v[j]).0 by {
                        assert(v[i].0 == old_v[i].0);
                        assert(v[j].0 == old_v[j].0);
                    }
                    assert forall|m: int| 0 <= m < v.len() implies (#[trigger] v[m]).1.spec_inode() == m + 1 by {
                        assert(old_v[m].1.spec_inode() == m + 1);
                    }
                    assert forall|m: int| 0 <= m < v.len() && (#[trigger] v[m]).1 is File implies (v[m].1->File_0).name@ == v[m].0 by {
                        assert(old_v[m].1 is File);
                    }
                    assert(self.blob_cache@.len() == self.inode_map@.len());
                    assert(self.parents@.len() == v.len());
                    assert(1 <= v.len() < u64::MAX);
                    assert(v[0].0.len() == 0);
                    assert(v[0].1 is Directory);
                }
                assert(self.wf());
                Ok(())
            },
            BlobEntry::Directory(d) => {
                proof {
                    assert(false);
                }
                Err(FsError::NotAFile)
            },
        }
    }

    /// The last step of a read whose content was not cached: `fetched` is what the
    /// whole-object fetch gave, `None` where it failed. Content fetched whole is cached
    /// and the window is served from the cache; a failed fetch caches nothing.
    pub fn finish_download(&mut self, inode: u64, offset: i64, size: u32, fetched: Option<Vec<u8>>) -> (r: Result<Vec<u8>, FsError>)
        requires
            old(self).wf(),
            offset >= 0,
        ensures
            final(self).wf(),
            fetched matches Some(data) ==> stores_content(final(self)@, old(self)@, inode, data@),
            fetched is None ==> final(self)@ == old(self)@,
            r == Err::<Vec<u8>, FsError>(FsError::NotFound) <==> old(self).resolve(inode) is None,
            r == Err::<Vec<u8>, FsError>(FsError::NotAFile) <==> old(self).resolve(inode) matches Some(BlobEntry::Directory(_)),
            r == Err::<Vec<u8>, FsError>(FsError::FetchFailed) <==> (old(self).resolve(inode) matches Some(BlobEntry::File(_)) && fetched is None),
            r is Err ==> r == Err::<Vec<u8>, FsError>(FsError::NotFound) || r == Err::<Vec<u8>, FsError>(FsError::NotAFile) || r == Err::<Vec<u8>, FsError>(FsError::FetchFailed),
            r matches Ok(x) ==> (cached_content(final(self)@, inode) matches Some(d) && x@ == clamp_window(d, offset as int, size as int)),
    {
        match fetched {
            None => match self.get_entry_by_inode(inode) {
                None => Err(FsError::NotFound),
                Some(BlobEntry::Directory(_)) => Err(FsError::NotAFile),
                Some(BlobEntry::File(_)) => Err(FsError::FetchFailed),
            },
            Some(data) => {
                match self.store_content(inode, data) {
                    Err(e) => Err(e),
                    Ok(()) => match self.download_blob(inode, offset, size) {
                        Ok(ReadStep::Data(x)) => Ok(x),
                        _ => Err(FsError::NotFound),
                    },
                }
            },
        }
    }
}

/// Everything that `u` holds, `v` holds too, where `v` extends `u`.
pub proof fn lemma_extends_keeps(v: Seq<(Seq<char>, BlobEntry)>, u: Seq<(Seq<char>, BlobEntry)>)
    requires
        extends(v, u),
    ensures
        forall|p: Seq<char>| dir_at_path(u, p) ==> #[trigger] dir_at_path(v, p),
        forall|name: Seq<char>, size: u64, t: Timestamp| holds_object(u, name, size, t) ==> #[trigger] holds_object(v, name, size, t),
{
    assert forall|p: Seq<char>| dir_at_path(u, p) implies #[trigger] dir_at_path(v, p) by {
        let k = choose|k: int| 0 <= k < u.len() && (#[trigger] u[k]).0 == p && u[k].1 is Directory;
        assert(v[k].0 == u[k].0);
    }
    assert forall|name: Seq<char>, size: u64, t: Timestamp| holds_object(u, name, size, t) implies #[trigger] holds_object(v, name, size, t) by {
        let k = choose|k: int| 0 <= k < u.len() && (#[trigger] u[k]).0 == name && u[k].1 is File
            && (u[k].1->File_0).size == size && (u[k].1->File_0).last_modified == t;
        assert(v[k].0 == u[k].0);
        assert forall|j: int| 0 <= j < name.len() && name[j] == '/' implies dir_at_path(v, #[trigger] name.subrange(0, j)) by {
            assert(dir_at_path(u, name.subrange(0, j)));
        }
    }
}

impl BlobContainer {
    /// Builds the tree from the whole listing, object by object in listing order.
    /// Any record that cannot be added aborts the build.
    #[verifier::rlimit(100)]
    pub fn new(records: &Vec<ObjectRecord>) -> (r: Result<Self, BuildError>)
        ensures
            r matches Ok(c) ==> c.wf(),
            r matches Ok(c) ==> forall|i: int| 0 <= i < records@.len() ==>
                holds_object(c@, (#[trigger] records@[i]).name@, records@[i].size, records@[i].last_modified),
            r is Ok ==> forall|i: int| 0 <= i < records@.len() ==> valid_name((#[trigger] records@[i]).name@),
            r == Err::<Self, BuildError>(BuildError::InvalidName) ==> exists|i: int| 0 <= i < records@.len() && !valid_name((#[trigger] records@[i]).name@),
            r == Err::<Self, BuildError>(BuildError::NameConflict) ==> exists|i: int, j: int| 0 <= i < j < records@.len()
                && !names_compatible((#[trigger] records@[i]).name@, (#[trigger] records@[j]).name@),
            r == Err::<Self, BuildError>(BuildError::TooManyEntries) ==> total_size(records@) + 3 >= u64::MAX,
            r is Err ==> r == Err::<Self, BuildError>(BuildError::InvalidName) || r == Err::<Self, BuildError>(BuildError::NameConflict) || r == Err::<Self, BuildError>(BuildError::TooManyEntries),
            listing_buildable(records@) ==> r is Ok,
            r matches Ok(c) ==> c@[0].0.len() == 0 && c@[0].1 is Directory,
            r matches Ok(c) ==> forall|k: int| 1 <= k < c@.len() && (#[trigger] c@[k]).1 is File ==> file_from_listing(c@[k], records@, records@.len() as int),
            r matches Ok(c) ==> forall|k: int| 1 <= k < c@.len() && (#[trigger] c@[k]).1 is Directory ==> dir_from_listing(c@[k].0, records@, records@.len() as int),
            r matches Ok(c) ==> ids_follow_listing(c@, records@, records@.len() as int),
    {
        let mut c = BlobContainer::with_root();
        let mut i: usize = 0;
        assert(records@.subrange(0, 0).len() == 0);
        while i < records.len()
            invariant
                c.wf(),
                0 <= i <= records@.len(),
                forall|j: int| 0 <= j < i ==> holds_object(c@, (#[trigger] records@[j]).name@, records@[j].size, records@[j].last_modified),
                forall|j: int| 0 <= j < i ==> valid_name((#[trigger] records@[j]).name@),
                c@.len() >= 1,
                c@[0].0.len() == 0,
                c@[0].1 is Directory,
                c@.len() <= 1 + total_size(records@.subrange(0, i as int)),
                forall|k: int| 1 <= k < c@.len() && (#[trigger] c@[k]).1 is File ==> file_from_listing(c@[k], records@, i as int),
                forall|k: int| 1 <= k < c@.len() && (#[trigger] c@[k]).1 is Directory ==> dir_from_listing(c@[k].0, records@, i as int),
                ids_follow_listing(c@, records@, i as int),
            decreases records@.len() - i,
        {
            let rec = &records[i];
            let ghost before = c@;
            proof {
                assert(records@.subrange(0, i + 1).drop_last() =~= records@.subrange(0, i as int));
                lemma_total_size_prefix(records@, i + 1);
                if conflicts(before, rec.name@) && valid_name(rec.name@) {
                    let k = choose|k: int| 0 <= k < before.len() && (#[trigger] before[k].0 == rec.name@ || (before[k].1 is File && is_dir_prefix(before[k].0, rec.name@)));
                    assert(k != 0) by {
                        if k == 0 && before[k].0 == rec.name@ {
                            assert(is_span(rec.name@, 0, 0));
                        }
                    }
                    if before[k].1 is File {
                        assert(file_from_listing(before[k], records@, i as int));
                        let j0 = choose|j: int| 0 <= j < i && before[k].0 == (#[trigger] records@[j]).name@ && before[k].1 is File
                            && (before[k].1->File_0).size == records@[j].size && (before[k].1->File_0).last_modified == records@[j].last_modified
                            && (before[k].1->File_0).data is None;
                        assert(!names_compatible(records@[j0].name@, records@[i as int].name@));
                    } else {
                        assert(dir_from_listing(before[k].0, records@, i as int));
                        let j0 = choose|j: int| 0 <= j < i && is_dir_prefix(before[k].0, (#[trigger] records@[j]).name@);
                        assert(!names_compatible(records@[j0].name@, records@[i as int].name@));
                    }
                }
            }
            match c.add_blob(rec.name.clone(), rec.size, rec.last_modified) {
                Ok(id) => {
                    proof {
                        lemma_extends_keeps(c@, before);
                        let last = id - 1;
                        let n = before.len();
                        // an entry at the name of an earlier record was there before
                        assert forall|j: int, kk: int| 0 <= j < i && 0 <= kk < c@.len() && (#[trigger] c@[kk]).0 == (#[trigger] records@[j]).name@ implies kk < n by {
                            assert(holds_object(before, records@[j].name@, records@[j].size, records@[j].last_modified));
                            let kb = choose|kb: int| 0 <= kb < before.len() && (#[trigger] before[kb]).0 == records@[j].name@ && before[kb].1 is File
                                && (before[kb].1->File_0).size == records@[j].size && (before[kb].1->File_0).last_modified == records@[j].last_modified;
                            assert(c@[kb].0 == before[kb].0);
                            c.lemma_paths_unique((kk + 1) as u64, (kb + 1) as u64);
                        }
                        assert forall|k: int| 1 <= k < c@.len() && (#[trigger] c@[k]).1 is File implies file_from_listing(c@[k], records@, i + 1) by {
                            if k < n {
                                if before[k].1 is Directory {
                                    assert(c@[k].1 is Directory);
                                }
                                assert(file_from_listing(before[k], records@, i as int));
                                let j0 = choose|j: int| 0 <= j < i && before[k].0 == (#[trigger] records@[j]).name@ && before[k].1 is File
                                    && (before[k].1->File_0).size == records@[j].size && (before[k].1->File_0).last_modified == records@[j].last_modified
                                    && (before[k].1->File_0).data is None;
                                assert(c@[k].1 == before[k].1);
                                assert(c@[k].0 == records@[j0].name@);
                            } else {
                                assert(c@[k].0 == records@[i as int].name@);
                                assert(k == last) by {
                                    c.lemma_paths_unique((k + 1) as u64, id);
                                }
                            }
                        }
                        assert forall|k: int| 1 <= k < c@.len() && (#[trigger] c@[k]).1 is Directory implies dir_from_listing(c@[k].0, records@, i + 1) by {
                            if k < n {
                                if before[k].1 is File {
                                    assert(c@[k].1 == before[k].1);
                                }
                                assert(dir_from_listing(before[k].0, records@, i as int));
                                let j0 = choose|j: int| 0 <= j < i && is_dir_prefix(before[k].0, (#[trigger] records@[j]).name@);
                                assert(c@[k].0 == before[k].0);
                                assert(is_dir_prefix(c@[k].0, records@[j0].name@));
                            } else {
                                assert(c@[k].0 != records@[i as int].name@);
                                assert(is_dir_prefix(c@[k].0, records@[i as int].name@));
                            }
                        }
                        assert forall|j1: int, j2: int, k1: int, k2: int|
                            0 <= j1 < j2 < i + 1 && 0 <= k1 < c@.len() && 0 <= k2 < c@.len()
                            && (#[trigger] c@[k1]).0 == (#[trigger] records@[j1]).name@ && (#[trigger] c@[k2]).0 == (#[trigger] records@[j2]).name@
                            implies k1 < k2 by {
                            assert(k1 < n);
                            if j2 < i {
                                assert(k2 < n);
                                assert(before[k1].0 == c@[k1].0);
                                assert(before[k2].0 == c@[k2].0);
                            } else {
                                c.lemma_paths_unique((k2 + 1) as u64, id);
                            }
                        }
                        assert forall|j: int, k: int, kf: int|
                            0 <= j < i + 1 && 0 <= k < c@.len() && 0 <= kf < c@.len()
                            && is_dir_prefix((#[trigger] c@[k]).0, (#[trigger] records@[j]).name@) && (#[trigger] c@[kf]).0 == records@[j].name@
                            implies k < kf by {
                            let jj = choose|jj: int| 0 <= jj < records@[j].name@.len() && records@[j].name@[jj] == '/' && c@[k].0 == #[trigger] records@[j].name@.subrange(0, jj);
                            if j < i {
                                assert(kf < n);
                                assert(holds_object(before, records@[j].name@, records@[j].size, records@[j].last_modified));
                                assert(dir_at_path(before, records@[j].name@.subrange(0, jj)));
                                let kb = choose|kb: int| 0 <= kb < before.len() && (#[trigger] before[kb]).0 == records@[j].name@.subrange(0, jj) && before[kb].1 is Directory;
                                assert(c@[kb].0 == before[kb].0);
                                c.lemma_paths_unique((k + 1) as u64, (kb + 1) as u64);
                                assert(before[k].0 == c@[k].0);
                                assert(before[kf].0 == c@[kf].0);
                            } else {
                                c.lemma_paths_unique((kf + 1) as u64, id);
                                assert(c@[k].0.len() < c@[kf].0.len());
                            }
                        }
                        assert(holds_object(c@, rec.name@, rec.size, rec.last_modified));
                        assert forall|j: int| 0 <= j < i + 1 implies holds_object(c@, (#[trigger] records@[j]).name@, records@[j].size, records@[j].last_modified) by {
                            if j < i {
                                assert(holds_object(before, records@[j].name@, records@[j].size, records@[j].last_modified));
                            }
                        }
                    }
                },
                Err(e) => {
                    proof {
                        if e == BuildError::InvalidName {
                            assert(!valid_name(records@[i as int].name@));
                        }
                    }
                    return Err(e);
                },
            }
            i = i + 1;
        }
        Ok(c)
    }
}

impl BlobContainer {
    /// The root is a directory named by the reserved identifier, with the empty path,
    /// and its `.` and `..` both name the root itself.
    pub proof fn lemma_root(&self)
        requires
            self.wf(),
        ensures
            directory_in(self@, ROOT_ID) is Some,
            self@[0].0.len() == 0,
            (directory_in(self@, ROOT_ID)->Some_0).inode == ROOT_ID,
            (directory_in(self@, ROOT_ID)->Some_0).child(seq!['.']) == Some(ROOT_ID),
            (directory_in(self@, ROOT_ID)->Some_0).child(seq!['.', '.']) == Some(ROOT_ID),
    {
        assert(self.dir_ok(0));
        assert(self@[0].1.spec_inode() == 1);
    }

    /// Every directory of the tree lists each name once.
    pub proof fn lemma_directory_wf(&self, id: u64)
        requires
            self.wf(),
            directory_in(self@, id) is Some,
        ensures
            (directory_in(self@, id)->Some_0).wf(),
    {
        assert(self.dir_ok(id - 1));
    }

    /// In every directory, `.` names the directory itself and `..` names its parent:
    /// the root for the root, else the directory that lists it under the last
    /// segment of its path.
    pub proof fn lemma_dot_entries(&self, id: u64)
        requires
            self.wf(),
            directory_in(self@, id) is Some,
        ensures
            (directory_in(self@, id)->Some_0).child(seq!['.']) == Some(id),
            (directory_in(self@, id)->Some_0).child(seq!['.', '.']) is Some,
            id == ROOT_ID ==> (directory_in(self@, id)->Some_0).child(seq!['.', '.']) == Some(ROOT_ID),
            id != ROOT_ID ==> ({
                let p = (directory_in(self@, id)->Some_0).child(seq!['.', '.'])->Some_0;
                &&& directory_in(self@, p) is Some
                &&& exists|base: Seq<char>| #![trigger child_in(self@, p, base)]
                    valid_segment(base) && join_path(self@[p - 1].0, base) == self@[id - 1].0 && child_in(self@, p, base) == Some(id)
            }),
    {
        assert(self.dir_ok(id - 1));
        if id != ROOT_ID {
            let k = id - 1;
            assert(self.parent_ok(k));
            let base = self.bases@[k];
            let p = (self.parents@[k] + 1) as u64;
            assert(child_in(self@, p, base) == Some(id));
        }
    }

    /// Every entry carries the identifier that names it.
    pub proof fn lemma_inode_matches(&self, id: u64)
        requires
            self.wf(),
            self.resolve(id) is Some,
        ensures
            (self.resolve(id)->Some_0).spec_inode() == id,
    {
        assert(self@[id - 1].1.spec_inode() == id);
    }

    /// Every identifier that a directory lists names an entry: no listing dangles.
    pub proof fn lemma_listed_ids_resolve(&self, id: u64)
        requires
            self.wf(),
            directory_in(self@, id) is Some,
        ensures
            forall|i: int| 0 <= i < (directory_in(self@, id)->Some_0)@.len() ==>
                #[trigger] self.resolve((directory_in(self@, id)->Some_0)@[i].1) is Some,
    {
        let d = directory_in(self@, id)->Some_0;
        assert(self.dir_ok(id - 1));
        assert forall|i: int| 0 <= i < d@.len() implies #[trigger] self.resolve(d@[i].1) is Some by {
            assert(self.listed_ok(id - 1, d@[i]));
        }
    }

    /// Every entry but the root is listed, under the last segment of its path, by the
    /// directory whose path is the rest of its path.
    pub proof fn lemma_listed_by_parent(&self, id: u64)
        requires
            self.wf(),
            valid_id(self@, id),
            id != ROOT_ID,
        ensures
            exists|parent: u64, base: Seq<char>|
                #![trigger child_in(self@, parent, base)]
                directory_in(self@, parent) is Some && valid_segment(base)
                && join_path(self@[parent - 1].0, base) == self@[id - 1].0
                && child_in(self@, parent, base) == Some(id),
    {
        let k = id - 1;
        assert(self.parent_ok(k));
        let q = self.parents@[k];
        let parent = (q + 1) as u64;
        let base = self.bases@[k];
        assert(child_in(self@, parent, base) == Some(id));
    }

    /// What a directory lists under a name other than `.` and `..` has the directory's
    /// path extended by that name.
    pub proof fn lemma_child_path(&self, parent: u64, name: Seq<char>)
        requires
            self.wf(),
            child_in(self@, parent, name) is Some,
            name != seq!['.'],
            name != seq!['.', '.'],
        ensures
            valid_segment(name),
            valid_id(self@, child_in(self@, parent, name)->Some_0),
            self@[child_in(self@, parent, name)->Some_0 - 1].0 == join_path(self@[parent - 1].0, name),
    {
        let d = directory_in(self@, parent)->Some_0;
        assert(self.dir_ok(parent - 1));
        let i = choose|i: int| 0 <= i < d@.len() && (#[trigger] d@[i]).0 == name;
        lemma_lookup_at(d@, i);
        assert(self.listed_ok(parent - 1, d@[i]));
    }

    /// Paths name entries one to one.
    pub proof fn lemma_paths_unique(&self, a: u64, b: u64)
        requires
            self.wf(),
            valid_id(self@, a),
            valid_id(self@, b),
            self@[a - 1].0 == self@[b - 1].0,
        ensures
            a == b,
    {
    }
}

/// Every directory that an object of the tree implies exists and lists the next
/// segment of the object's name: for the separator at `j` and the segment
/// `name[j + 1..k]` after it, the directory at `name[..j]` lists that segment, and
/// what it lists has the path `name[..k]` (a directory, where `k` is not the end).
pub proof fn lemma_prefixes_listed(c: &BlobContainer, name: Seq<char>, size: u64, t: Timestamp, j: int, k: int)
    requires
        c.wf(),
        valid_name(name),
        holds_object(c@, name, size, t),
        0 <= j < name.len(),
        name[j] == '/',
        is_span(name, j + 1, k),
    ensures
        exists|p: u64|
            #![trigger directory_in(c@, p)]
            directory_in(c@, p) is Some && c@[p - 1].0 == name.subrange(0, j)
            && child_in(c@, p, name.subrange(j + 1, k)) is Some
            && c@[child_in(c@, p, name.subrange(j + 1, k))->Some_0 - 1].0 == name.subrange(0, k)
            && (k < name.len() ==> directory_in(c@, child_in(c@, p, name.subrange(j + 1, k))->Some_0) is Some),
{
    let seg = name.subrange(j + 1, k);
    assert(valid_segment(seg));
    // the entry at name[..k]
    let q: int = if k < name.len() {
        assert(dir_at_path(c@, name.subrange(0, k)));
        choose|q: int| 0 <= q < c@.len() && (#[trigger] c@[q]).0 == name.subrange(0, k) && c@[q].1 is Directory
    } else {
        assert(name.subrange(0, k) =~= name);
        choose|q: int| 0 <= q < c@.len() && (#[trigger] c@[q]).0 == name && c@[q].1 is File
            && (c@[q].1->File_0).size == size && (c@[q].1->File_0).last_modified == t
    };
    assert(c@[q].0 == name.subrange(0, k));
    let id = (q + 1) as u64;
    assert(c@[q].0.len() > 0);
    assert(id != ROOT_ID) by {
        if id == ROOT_ID {
            assert(c.wf());
            c.lemma_root();
        }
    }
    c.lemma_listed_by_parent(id);
    let (p, base) = choose|p: u64, base: Seq<char>|
        #![trigger child_in(c@, p, base)]
        directory_in(c@, p) is Some && valid_segment(base)
        && join_path(c@[p - 1].0, base) == c@[id - 1].0
        && child_in(c@, p, base) == Some(id);
    // the path of q splits at the separator j
    assert(name.subrange(0, k) =~= join_path(name.subrange(0, j), seg)) by {
        if j > 0 {
            assert(name.subrange(0, k) =~= name.subrange(0, j) + seq!['/'] + seg);
        } else {
            assert(is_span(name, 0, 0));
        }
    }
    if j == 0 {
        assert(is_span(name, 0, 0));
        assert(!valid_segment(name.subrange(0, 0)));
    }
    lemma_join_injective(c@[p - 1].0, base, name.subrange(0, j), seg);
    assert(directory_in(c@, p) is Some && c@[p - 1].0 == name.subrange(0, j));
}

/// Content is fetched at most once: once a file's content is stored, storing again
/// keeps the first content, and every later read is served from it.
pub proof fn lemma_content_stored_once(u: Seq<(Seq<char>, BlobEntry)>, v: Seq<(Seq<char>, BlobEntry)>, w: Seq<(Seq<char>, BlobEntry)>, id: u64, first: Seq<u8>, second: Seq<u8>)
    requires
        resolve_in(u, id) matches Some(BlobEntry::File(_)),
        stores_content(v, u, id, first),
        stores_content(w, v, id, second),
    ensures
        cached_content(v, id) is Some,
        cached_content(w, id) == cached_content(v, id),
        cached_content(u, id) is None ==> cached_content(v, id) == Some(first),
{
}

impl BlobContainer {
    /// The number of files and the number of directories (the root included).
    pub fn count_files_and_directories(&self) -> (r: (usize, usize))
        ensures
            r.0 == file_count_in(self@),
            r.0 + r.1 == self@.len(),
    {
        let mut files: usize = 0;
        let mut dirs: usize = 0;
        let mut i: usize = 0;
        while i < self.blob_cache.len()
            invariant
                0 <= i <= self@.len(),
                self@.len() == self.blob_cache@.len(),
                files == file_count_in(self@.subrange(0, i as int)),
                files + dirs == i,
            decreases self@.len() - i,
        {
            proof {
                assert(self@.subrange(0, i + 1).drop_last() =~= self@.subrange(0, i as int));
            }
            match &self.blob_cache[i] {
                BlobEntry::File(_) => {
                    files = files + 1;
                },
                BlobEntry::Directory(_) => {
                    dirs = dirs + 1;
                },
            }
            i = i + 1;
        }
        assert(self@.subrange(0, i as int) =~= self@);
        (files, dirs)
    }
}

/// Two trees built from listings with the same names hold the same paths, each with
/// the same kind: only the identifiers may differ. The requirements are what a
/// successful build of each listing ensures.
pub proof fn lemma_same_names_same_tree(
    v1: Seq<(Seq<char>, BlobEntry)>,
    r1: Seq<ObjectRecord>,
    v2: Seq<(Seq<char>, BlobEntry)>,
    r2: Seq<ObjectRecord>,
)
    requires
        v1.len() >= 1 && v1[0].0.len() == 0 && v1[0].1 is Directory,
        v2.len() >= 1 && v2[0].0.len() == 0 && v2[0].1 is Directory,
        forall|k: int| 1 <= k < v1.len() && (#[trigger] v1[k]).1 is File ==> file_from_listing(v1[k], r1, r1.len() as int),
        forall|k: int| 1 <= k < v1.len() && (#[trigger] v1[k]).1 is Directory ==> dir_from_listing(v1[k].0, r1, r1.len() as int),
        forall|i: int| 0 <= i < r2.len() ==> holds_object(v2, (#[trigger] r2[i]).name@, r2[i].size, r2[i].last_modified),
        forall|i: int| 0 <= i < r1.len() ==> exists|j: int| 0 <= j < r2.len() && (#[trigger] r1[i]).name@ == (#[trigger] r2[j]).name@,
    ensures
        forall|k1: int| 0 <= k1 < v1.len() ==> exists|k2: int| 0 <= k2 < v2.len() && (#[trigger] v2[k2]).0 == (#[trigger] v1[k1]).0
            && (v2[k2].1 is File <==> v1[k1].1 is File),
{
    assert forall|k1: int| 0 <= k1 < v1.len() implies exists|k2: int| 0 <= k2 < v2.len() && (#[trigger] v2[k2]).0 == (#[trigger] v1[k1]).0
        && (v2[k2].1 is File <==> v1[k1].1 is File) by {
        if k1 == 0 {
            assert(v2[0].0 =~= v1[0].0);
        } else if v1[k1].1 is File {
            assert(file_from_listing(v1[k1], r1, r1.len() as int));
            let i = choose|j: int| 0 <= j < r1.len() && v1[k1].0 == (#[trigger] r1[j]).name@ && v1[k1].1 is File
                && (v1[k1].1->File_0).size == r1[j].size && (v1[k1].1->File_0).last_modified == r1[j].last_modified
                && (v1[k1].1->File_0).data is None;
            let j = choose|j: int| 0 <= j < r2.len() && (#[trigger] r1[i]).name@ == (#[trigger] r2[j]).name@;
            assert(holds_object(v2, r2[j].name@, r2[j].size, r2[j].last_modified));
            let k2 = choose|k: int| 0 <= k < v2.len() && (#[trigger] v2[k]).0 == r2[j].name@ && v2[k].1 is File
                && (v2[k].1->File_0).size == r2[j].size && (v2[k].1->File_0).last_modified == r2[j].last_modified;
            assert(v2[k2].0 == v1[k1].0);
        } else {
            assert(dir_from_listing(v1[k1].0, r1, r1.len() as int));
            let i = choose|j: int| 0 <= j < r1.len() && is_dir_prefix(v1[k1].0, (#[trigger] r1[j]).name@);
            let j = choose|j: int| 0 <= j < r2.len() && (#[trigger] r1[i]).name@ == (#[trigger] r2[j]).name@;
            let name = r2[j].name@;
            let jj = choose|jj: int| 0 <= jj < name.len() && name[jj] == '/' && v1[k1].0 == #[trigger] name.subrange(0, jj);
            assert(holds_object(v2, name, r2[j].size, r2[j].last_modified));
            assert(dir_at_path(v2, name.subrange(0, jj)));
            let k2 = choose|k: int| 0 <= k < v2.len() && (#[trigger] v2[k]).0 == name.subrange(0, jj) && v2[k].1 is Directory;
            assert(v2[k2].0 == v1[k1].0);
        }
    }
}

/// The root lists the first segment of every object of the tree, and what it lists
/// there has that segment as its path (a directory, where the name goes on).
pub proof fn lemma_first_segment_listed(c: &BlobContainer, name: Seq<char>, size: u64, t: Timestamp, k: int)
    requires
        c.wf(),
        valid_name(name),
        holds_object(c@, name, size, t),
        is_span(name, 0, k),
    ensures
        child_in(c@, ROOT_ID, name.subrange(0, k)) is Some,
        c@[child_in(c@, ROOT_ID, name.subrange(0, k))->Some_0 - 1].0 == name.subrange(0, k),
        k < name.len() ==> directory_in(c@, child_in(c@, ROOT_ID, name.subrange(0, k))->Some_0) is Some,
{
    let seg = name.subrange(0, k);
    assert(valid_segment(seg));
    let q: int = if k < name.len() {
        assert(dir_at_path(c@, name.subrange(0, k)));
        choose|q: int| 0 <= q < c@.len() && (#[trigger] c@[q]).0 == name.subrange(0, k) && c@[q].1 is Directory
    } else {
        assert(name.subrange(0, k) =~= name);
        choose|q: int| 0 <= q < c@.len() && (#[trigger] c@[q]).0 == name && c@[q].1 is File
            && (c@[q].1->File_0).size == size && (c@[q].1->File_0).last_modified == t
    };
    assert(c@[q].0 == seg);
    let id = (q + 1) as u64;
    c.lemma_root();
    assert(id != ROOT_ID);
    c.lemma_listed_by_parent(id);
    let (p, base) = choose|p: u64, base: Seq<char>|
        #![trigger child_in(c@, p, base)]
        directory_in(c@, p) is Some && valid_segment(base)
        && join_path(c@[p - 1].0, base) == c@[id - 1].0
        && child_in(c@, p, base) == Some(id);
    assert(join_path(Seq::<char>::empty(), seg) == seg);
    lemma_join_injective(c@[p - 1].0, base, Seq::<char>::empty(), seg);
    assert(c@[0].0 =~= Seq::<char>::empty());
    c.lemma_paths_unique(p, ROOT_ID);
}

} // verus!
