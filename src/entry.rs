use vstd::prelude::*;

verus! {

/// Identifier reserved for the root directory of the mounted tree.
pub const ROOT_ID: u64 = 1;

/// A point in time: whole seconds since the Unix epoch and the nanoseconds past them.
#[derive(Clone, Copy, Debug, PartialEq, Eq, Structural)]
pub struct Timestamp {
    pub secs: i64,
    pub nanos: u32,
}

/// An object of the store, seen as a regular file.
#[derive(Clone, Debug)]
pub struct BlobInfo {
    pub name: String,
    pub size: u64,
    pub last_modified: Timestamp,
    pub inode: u64,
    /// Content, present once it has been fetched.
    pub data: Option<Vec<u8>>,
}

impl BlobInfo {
    pub fn new(name: String, size: u64, last_modified: Timestamp, inode: u64) -> (r: Self)
        ensures
            r.name@ == name@,
            r.size == size,
            r.last_modified == last_modified,
            r.inode == inode,
            r.data is None,
    {
        BlobInfo { name, size, last_modified, inode, data: None }
    }
}

/// A directory: its own identifier and its children by name.
#[derive(Clone, Debug)]
pub struct BlobDirectory {
    pub entries: Vec<(String, u64)>,
    pub inode: u64,
}

/// Whether `n` is the name of some pair of `s`.
pub open spec fn names_contain(s: Seq<(Seq<char>, u64)>, n: Seq<char>) -> bool {
    exists|i: int| 0 <= i < s.len() && (#[trigger] s[i]).0 == n
}

/// The identifier paired with `n` in `s`, if any.
pub open spec fn lookup_name(s: Seq<(Seq<char>, u64)>, n: Seq<char>) -> Option<u64> {
    if names_contain(s, n) {
        Some(s[choose|i: int| 0 <= i < s.len() && (#[trigger] s[i]).0 == n].1)
    } else {
        None
    }
}

/// No name occurs twice in `s`.
pub open spec fn names_unique(s: Seq<(Seq<char>, u64)>) -> bool {
    forall|i: int, j: int| 0 <= i < s.len() && 0 <= j < s.len() && i != j ==> (#[trigger] s[i]).0 != (#[trigger] s[j]).0
}

/// In a list of unique names, the pair at `i` is the one that a lookup of its name finds.
pub proof fn lemma_lookup_at(s: Seq<(Seq<char>, u64)>, i: int)
    requires
        names_unique(s),
        0 <= i < s.len(),
    ensures
        lookup_name(s, s[i].0) == Some(s[i].1),
{
    assert(names_contain(s, s[i].0));
    let j = choose|j: int| 0 <= j < s.len() && (#[trigger] s[j]).0 == s[i].0;
    assert(j == i);
}

impl View for BlobDirectory {
    type V = Seq<(Seq<char>, u64)>;

    open spec fn view(&self) -> Seq<(Seq<char>, u64)> {
        self.entries@.map_values(|p: (String, u64)| (p.0@, p.1))
    }
}

impl BlobDirectory {
    /// Children names are unique.
    pub open spec fn wf(&self) -> bool {
        names_unique(self@)
    }

    /// The identifier listed under `n`, if any.
    pub open spec fn child(&self, n: Seq<char>) -> Option<u64> {
        lookup_name(self@, n)
    }

    /// A directory holding only its self-reference and its parent reference.
    pub fn new(inode: u64, parent: u64) -> (r: Self)
        ensures
            r.wf(),
            r.inode == inode,
            r@ == seq![(seq!['.'], inode), (seq!['.', '.'], parent)],
            r.child(seq!['.']) == Some(inode),
            r.child(seq!['.', '.']) == Some(parent),
    {
        let dot = String::from_str(".");
        let dotdot = String::from_str("..");
        proof {
            reveal_strlit(".");
            reveal_strlit("..");
            assert(dot@ =~= seq!['.']);
            assert(dotdot@ =~= seq!['.', '.']);
        }
        let mut entries: Vec<(String, u64)> = Vec::new();
        entries.push((dot, inode));
        entries.push((dotdot, parent));
        let r = BlobDirectory { entries, inode };
        assert(r@ =~= seq![(seq!['.'], inode), (seq!['.', '.'], parent)]);
        assert(r@[0].0 != r@[1].0) by {
            assert(r@[0].0.len() != r@[1].0.len());
        }
        proof {
            lemma_lookup_at(r@, 0);
            lemma_lookup_at(r@, 1);
        }
        r
    }

    /// Lists `inode` under `name`, replacing what `name` listed before.
    pub fn add_file(&mut self, name: String, inode: u64)
        requires
            old(self).wf(),
        ensures
            final(self).wf(),
            final(self).inode == old(self).inode,
            final(self).child(name@) == Some(inode),
            forall|n: Seq<char>| n != name@ ==> #[trigger] final(self).child(n) == old(self).child(n),
            names_contain(old(self)@, name@) ==> final(self)@.len() == old(self)@.len(),
            !names_contain(old(self)@, name@) ==> final(self)@ == old(self)@.push((name@, inode)),
    {
        let ghost old_v = self@;
        let mut i: usize = 0;
        while i < self.entries.len()
            invariant
                0 <= i <= self.entries.len(),
                self@ == old_v,
                old_v == old(self)@,
                self.inode == old(self).inode,
                names_unique(old_v),
                forall|j: int| 0 <= j < i ==> (#[trigger] old_v[j]).0 != name@,
            decreases self.entries.len() - i,
        {
            if self.entries[i].0 == name {
                let ghost n0 = name@;
                self.entries.set(i, (name, inode));
                assert(self@[i as int].0 == n0);
                proof {
                    let nv = self@;
                    assert(nv =~= old_v.update(i as int, (old_v[i as int].0, inode)));
                    assert(names_unique(nv));
                    lemma_lookup_at(nv, i as int);
                    assert forall|n: Seq<char>| n != nv[i as int].0 implies #[trigger] lookup_name(nv, n) == lookup_name(old_v, n) by {
                        if names_contain(old_v, n) {
                            let k = choose|k: int| 0 <= k < old_v.len() && (#[trigger] old_v[k]).0 == n;
                            lemma_lookup_at(old_v, k);
                            lemma_lookup_at(nv, k);
                        } else {
                            assert(!names_contain(nv, n));
                        }
                    }
                }
                return;
            }
            i = i + 1;
        }
        self.entries.push((name, inode));
        proof {
            let nv = self@;
            assert(nv =~= old_v.push((name@, inode)));
            assert(names_unique(nv));
            lemma_lookup_at(nv, old_v.len() as int);
            assert(!names_contain(old_v, name@));
            assert forall|n: Seq<char>| n != name@ implies #[trigger] lookup_name(nv, n) == lookup_name(old_v, n) by {
                if names_contain(old_v, n) {
                    let k = choose|k: int| 0 <= k < old_v.len() && (#[trigger] old_v[k]).0 == n;
                    lemma_lookup_at(old_v, k);
                    lemma_lookup_at(nv, k);
                } else {
                    if names_contain(nv, n) {
                        let k = choose|k: int| 0 <= k < nv.len() && (#[trigger] nv[k]).0 == n;
                        assert(k < old_v.len());
                    }
                }
            }
        }
    }

    /// Whether nothing at all is listed.
    pub fn is_empty(&self) -> (r: bool)
        ensures
            r == (self@.len() == 0),
    {
        self.entries.len() == 0
    }

    /// The root directory: its self-reference and parent reference both name the root.
    pub fn root() -> (r: Self)
        ensures
            r.wf(),
            r.inode == ROOT_ID,
            r@ == seq![(seq!['.'], ROOT_ID), (seq!['.', '.'], ROOT_ID)],
            r.child(seq!['.']) == Some(ROOT_ID),
            r.child(seq!['.', '.']) == Some(ROOT_ID),
    {
        BlobDirectory::new(ROOT_ID, ROOT_ID)
    }

    /// The identifier listed under `name`, if any.
    pub fn get(&self, name: &String) -> (r: Option<u64>)
        requires
            self.wf(),
        ensures
            r == self.child(name@),
    {
        let mut i: usize = 0;
        while i < self.entries.len()
            invariant
                0 <= i <= self.entries.len(),
                self.wf(),
                forall|j: int| 0 <= j < i ==> (#[trigger] self@[j]).0 != name@,
            decreases self.entries.len() - i,
        {
            if self.entries[i].0 == *name {
                proof {
                    lemma_lookup_at(self@, i as int);
                }
                return Some(self.entries[i].1);
            }
            i = i + 1;
        }
        None
    }
}

/// An entry of the tree.
#[derive(Clone, Debug)]
pub enum BlobEntry {
    File(BlobInfo),
    Directory(BlobDirectory),
}

impl BlobEntry {
    /// The identifier the entry carries.
    pub open spec fn spec_inode(&self) -> u64 {
        match self {
            BlobEntry::File(f) => f.inode,
            BlobEntry::Directory(d) => d.inode,
        }
    }

    pub fn inode(&self) -> (r: u64)
        ensures
            r == self.spec_inode(),
    {
        match self {
            BlobEntry::File(f) => f.inode,
            BlobEntry::Directory(d) => d.inode,
        }
    }

    pub fn kind(&self) -> (r: EntryKind)
        ensures
            r == (if self is File { EntryKind::RegularFile } else { EntryKind::Directory }),
    {
        match self {
            BlobEntry::File(_) => EntryKind::RegularFile,
            BlobEntry::Directory(_) => EntryKind::Directory,
        }
    }
}

/// The two kinds of node the tree holds.
#[derive(Clone, Copy, Debug, PartialEq, Eq, Structural)]
pub enum EntryKind {
    RegularFile,
    Directory,
}

} // verus!
