use blob_fuse::container::{slice_window, BlobContainer, BuildError, FsError, ObjectRecord, ReadStep};
use blob_fuse::entry::{BlobDirectory, BlobEntry, BlobInfo, EntryKind, Timestamp, ROOT_ID};
use blob_fuse::filesystem::{attributes_of, BlobFilesystem, DirListing};

fn ts(secs: i64) -> Timestamp {
    Timestamp { secs, nanos: 0 }
}

fn record(name: &str, size: u64) -> ObjectRecord {
    ObjectRecord { name: name.to_string(), size, last_modified: ts(1_700_000_000) }
}

fn build(names: &[(&str, u64)]) -> BlobContainer {
    let records: Vec<ObjectRecord> = names.iter().map(|(n, s)| record(n, *s)).collect();
    match BlobContainer::new(&records) {
        Ok(c) => c,
        Err(e) => panic!("build failed: {:?}", e),
    }
}

fn id_at(c: &BlobContainer, path: &str) -> u64 {
    for id in 1..=(c.entry_count() as u64) {
        if c.get_path(id).map(|p| p.as_str()) == Some(path) {
            return id;
        }
    }
    panic!("no entry at {path}");
}

fn fs_of(names: &[(&str, u64)]) -> BlobFilesystem {
    BlobFilesystem::new(build(names), 1000, 100)
}

#[test]
fn shared_prefixes_make_one_directory_each_in_either_order() {
    for names in [[("a/b/c", 1), ("a/b/d", 2)], [("a/b/d", 2), ("a/b/c", 1)]] {
        let c = build(&names);
        // root, a, a/b, and two files
        assert_eq!(c.entry_count(), 5);
        let a = id_at(&c, "a");
        let ab = id_at(&c, "a/b");
        assert!(matches!(c.get_entry_by_inode(a), Some(BlobEntry::Directory(_))));
        assert!(matches!(c.get_entry_by_inode(ab), Some(BlobEntry::Directory(_))));
        let root = c.get_directory(ROOT_ID).unwrap();
        assert_eq!(root.get(&"a".to_string()), Some(a));
        let dir_a = c.get_directory(a).unwrap();
        assert_eq!(dir_a.get(&"b".to_string()), Some(ab));
        assert_eq!(dir_a.get(&"..".to_string()), Some(ROOT_ID));
        let dir_ab = c.get_directory(ab).unwrap();
        assert_eq!(dir_ab.get(&"c".to_string()), Some(id_at(&c, "a/b/c")));
        assert_eq!(dir_ab.get(&"d".to_string()), Some(id_at(&c, "a/b/d")));
        assert_eq!(dir_ab.get(&"..".to_string()), Some(a));
        assert_eq!(dir_ab.get(&".".to_string()), Some(ab));
    }
}

#[test]
fn identifiers_follow_discovery_order() {
    let c = build(&[("x/y", 3), ("z", 4)]);
    assert_eq!(id_at(&c, ""), ROOT_ID);
    assert_eq!(id_at(&c, "x"), 2);
    assert_eq!(id_at(&c, "x/y"), 3);
    assert_eq!(id_at(&c, "z"), 4);
    match c.get_entry_by_inode(3) {
        Some(BlobEntry::File(f)) => {
            assert_eq!(f.name, "x/y");
            assert_eq!(f.size, 3);
            assert_eq!(f.inode, 3);
            assert!(f.data.is_none());
        }
        _ => panic!("expected a file"),
    }
    assert!(c.get_entry_by_inode(0).is_none());
    assert!(c.get_entry_by_inode(5).is_none());
}

#[test]
fn root_is_reserved_and_self_parented() {
    let c = build(&[]);
    assert_eq!(c.entry_count(), 1);
    let root = c.get_directory(ROOT_ID).unwrap();
    assert_eq!(root.inode, ROOT_ID);
    assert_eq!(root.get(&".".to_string()), Some(ROOT_ID));
    assert_eq!(root.get(&"..".to_string()), Some(ROOT_ID));
    assert_eq!(c.get_path(ROOT_ID).unwrap(), "");
    let c2 = build(&[("a/b", 1)]);
    let root2 = c2.get_directory(ROOT_ID).unwrap();
    assert_eq!(root2.get(&".".to_string()), Some(ROOT_ID));
    assert_eq!(root2.get(&"..".to_string()), Some(ROOT_ID));
}

#[test]
fn every_listed_identifier_resolves() {
    let fs = fs_of(&[("a/b/c", 1), ("a/d", 2), ("e", 3)]);
    let c = fs.container();
    for id in 1..=(c.entry_count() as u64) {
        if let Ok(lines) = fs.readdir(id, 0) {
            for line in lines {
                assert!(c.get_entry_by_inode(line.inode).is_some());
                assert!(fs.getattr(line.inode, ts(0)).is_ok());
            }
        }
    }
    let a = id_at(c, "a");
    let attrs = fs.lookup(a, &"b".to_string(), ts(0)).unwrap();
    assert!(c.get_entry_by_inode(attrs.ino).is_some());
}

fn read_through(fs: &mut BlobFilesystem, ino: u64, offset: i64, size: u32, content: &[u8], fetches: &mut u32) -> Vec<u8> {
    match fs.read(ino, offset, size).unwrap() {
        ReadStep::Data(d) => d,
        ReadStep::Fetch(_) => {
            *fetches += 1;
            fs.finish_read(ino, offset, size, Some(content.to_vec())).unwrap()
        }
    }
}

#[test]
fn second_read_is_served_from_cache() {
    let mut fs = fs_of(&[("f", 6)]);
    let content = b"abcdef".to_vec();
    let mut fetches = 0;
    match fs.read(2, 0, 6).unwrap() {
        ReadStep::Fetch(name) => assert_eq!(name, "f"),
        ReadStep::Data(_) => panic!("nothing cached yet"),
    }
    let first = read_through(&mut fs, 2, 1, 3, &content, &mut fetches);
    let second = read_through(&mut fs, 2, 1, 3, &content, &mut fetches);
    assert_eq!(first, b"bcd".to_vec());
    assert_eq!(first, second);
    assert_eq!(fetches, 1);
    // a second complete fetch does not replace the first
    let again = fs.finish_read(2, 0, 6, Some(b"zzzzzz".to_vec())).unwrap();
    assert_eq!(again, content);
}

#[test]
fn read_window_is_clamped() {
    let mut fs = fs_of(&[("big", 100)]);
    let content: Vec<u8> = (0..100u8).collect();
    let mut fetches = 0;
    let tail = read_through(&mut fs, 2, 90, 50, &content, &mut fetches);
    assert_eq!(tail.len(), 10);
    assert_eq!(tail, (90..100u8).collect::<Vec<u8>>());
    let beyond = read_through(&mut fs, 2, 150, 10, &content, &mut fetches);
    assert!(beyond.is_empty());
    let at_end = read_through(&mut fs, 2, 100, 10, &content, &mut fetches);
    assert!(at_end.is_empty());
    assert_eq!(fetches, 1);
}

#[test]
fn failed_fetch_caches_nothing() {
    let mut fs = fs_of(&[("f", 3)]);
    assert_eq!(fs.finish_read(2, 0, 3, None), Err(FsError::FetchFailed));
    assert!(matches!(fs.read(2, 0, 3), Ok(ReadStep::Fetch(_))));
    assert_eq!(fs.finish_read(2, 0, 3, Some(b"xyz".to_vec())), Ok(b"xyz".to_vec()));
    assert!(matches!(fs.read(2, 0, 3), Ok(ReadStep::Data(_))));
}

#[test]
fn read_errors() {
    let mut fs = fs_of(&[("d/f", 3)]);
    assert!(matches!(fs.read(99, 0, 1), Err(FsError::NotFound)));
    assert!(matches!(fs.read(2, 0, 1), Err(FsError::NotAFile)));
    assert_eq!(fs.finish_read(99, 0, 1, Some(vec![1])), Err(FsError::NotFound));
    assert_eq!(fs.finish_read(2, 0, 1, Some(vec![1])), Err(FsError::NotAFile));
}

fn names_of(lines: &[DirListing]) -> Vec<String> {
    lines.iter().map(|l| l.name.clone()).collect()
}

#[test]
fn listing_resumes_without_duplicates() {
    let fs = fs_of(&[("d/x", 1), ("d/y", 2), ("d/z", 3)]);
    let d = id_at(fs.container(), "d");
    let full = fs.readdir(d, 0).unwrap();
    assert_eq!(full.len(), 5);
    // the bridge takes two lines, then resumes at the cursor of the second
    let taken = &full[..2];
    assert_eq!(taken[1].offset, 2);
    let rest = fs.readdir(d, 2).unwrap();
    assert_eq!(rest.len(), 3);
    let mut seen = names_of(taken);
    seen.extend(names_of(&rest));
    seen.sort();
    assert_eq!(seen, vec![".", "..", "x", "y", "z"]);
    for (i, line) in full.iter().enumerate() {
        assert_eq!(line.offset, i as u64 + 1);
    }
    assert!(fs.readdir(d, 5).unwrap().is_empty());
    assert!(fs.readdir(d, 9).unwrap().is_empty());
}

#[test]
fn listing_reports_kinds() {
    let fs = fs_of(&[("d/x", 1), ("d/e/y", 2)]);
    let d = id_at(fs.container(), "d");
    let lines = fs.readdir(d, 0).unwrap();
    for line in lines {
        let expected = match line.name.as_str() {
            "x" => EntryKind::RegularFile,
            _ => EntryKind::Directory,
        };
        assert_eq!(line.kind, expected);
    }
}

#[test]
fn listing_errors() {
    let fs = fs_of(&[("f", 1)]);
    assert!(matches!(fs.readdir(2, 0), Err(FsError::NotADirectory)));
    assert!(matches!(fs.readdir(42, 0), Err(FsError::NotFound)));
}

#[test]
fn lookup_missing_name_and_file_parent() {
    let fs = fs_of(&[("a/f", 7)]);
    let a = id_at(fs.container(), "a");
    let f = id_at(fs.container(), "a/f");
    assert_eq!(fs.lookup(a, &"nope".to_string(), ts(0)), Err(FsError::NotFound));
    assert_eq!(fs.lookup(f, &"x".to_string(), ts(0)), Err(FsError::NotADirectory));
    assert_eq!(fs.lookup(77, &"x".to_string(), ts(0)), Err(FsError::NotFound));
    let attrs = fs.lookup(a, &"f".to_string(), ts(0)).unwrap();
    assert_eq!(attrs.ino, f);
    assert_eq!(attrs.size, 7);
    assert_eq!(attrs.kind, EntryKind::RegularFile);
}

#[test]
fn attributes_of_files_and_directories() {
    let fs = fs_of(&[("a/f", 1000)]);
    let f = fs.getattr(3, ts(5)).unwrap();
    assert_eq!(f.ino, 3);
    assert_eq!(f.size, 1000);
    assert_eq!(f.blocks, 2);
    assert_eq!(f.perm, 0o444);
    assert_eq!(f.perm & 0o222, 0);
    assert_eq!(f.nlink, 1);
    assert_eq!(f.uid, 1000);
    assert_eq!(f.gid, 100);
    assert_eq!(f.blksize, 4096);
    assert_eq!(f.time, ts(1_700_000_000));
    let d = fs.getattr(2, ts(5)).unwrap();
    assert_eq!(d.kind, EntryKind::Directory);
    assert_eq!(d.size, 0);
    assert_eq!(d.blocks, 0);
    assert_eq!(d.perm, 0o755);
    assert_eq!(d.nlink, 2);
    assert_eq!(d.time, ts(5));
    assert_eq!(fs.getattr(9, ts(5)), Err(FsError::NotFound));
}

#[test]
fn block_counts_round_up() {
    for (size, blocks) in [(0u64, 0u64), (1, 1), (512, 1), (513, 2), (u64::MAX, u64::MAX / 512 + 1)] {
        let e = BlobEntry::File(BlobInfo::new("f".to_string(), size, ts(0), 2));
        assert_eq!(attributes_of(&e, 0, 0, ts(0)).blocks, blocks);
    }
}

#[test]
fn invalid_names_abort_the_build() {
    for bad in ["", "/a", "a/", "a//b", "a/./b", "a/../b", ".", ".."] {
        let r = BlobContainer::new(&vec![record("ok", 1), record(bad, 1)]);
        assert!(matches!(r, Err(BuildError::InvalidName)), "{bad:?}");
    }
}

#[test]
fn colliding_names_abort_the_build() {
    for pair in [["a", "a/b"], ["a/b", "a"], ["a/b", "a/b"], ["a/b/c", "a/b"]] {
        let r = BlobContainer::new(&vec![record(pair[0], 1), record(pair[1], 1)]);
        assert!(matches!(r, Err(BuildError::NameConflict)), "{pair:?}");
    }
}

#[test]
fn add_blob_reports_each_outcome() {
    let mut c = BlobContainer::with_root();
    assert_eq!(c.add_blob("p/q".to_string(), 1, ts(0)), Ok(3));
    assert_eq!(c.add_blob("p/q".to_string(), 1, ts(0)), Err(BuildError::NameConflict));
    assert_eq!(c.add_blob("p//q".to_string(), 1, ts(0)), Err(BuildError::InvalidName));
    assert_eq!(c.add_blob("p/r".to_string(), 1, ts(0)), Ok(4));
    assert_eq!(c.entry_count(), 4);
}

#[test]
fn process_directories_returns_parent_and_base() {
    let mut c = BlobContainer::with_root();
    let (parent, base) = c.process_directories(&"u/v/w".to_string()).unwrap();
    assert_eq!(base, "w");
    assert_eq!(c.get_path(parent).unwrap(), "u/v");
    let (root, base) = c.process_directories(&"top".to_string()).unwrap();
    assert_eq!(root, ROOT_ID);
    assert_eq!(base, "top");
}

#[test]
fn directory_new_add_and_empty() {
    let mut d = BlobDirectory::new(5, 2);
    assert_eq!(d.inode, 5);
    assert_eq!(d.get(&".".to_string()), Some(5));
    assert_eq!(d.get(&"..".to_string()), Some(2));
    assert!(!d.is_empty());
    d.add_file("x".to_string(), 9);
    assert_eq!(d.get(&"x".to_string()), Some(9));
    assert_eq!(d.entries.len(), 3);
    d.add_file("x".to_string(), 10);
    assert_eq!(d.get(&"x".to_string()), Some(10));
    assert_eq!(d.entries.len(), 3);
    let empty = BlobDirectory { entries: Vec::new(), inode: 3 };
    assert!(empty.is_empty());
    let root = BlobDirectory::root();
    assert_eq!(root.inode, ROOT_ID);
    assert_eq!(root.get(&"..".to_string()), Some(ROOT_ID));
}

#[test]
fn counts_files_and_directories() {
    let c = build(&[("a/b/c", 1), ("a/b/d", 2), ("e", 3)]);
    assert_eq!(c.count_files_and_directories(), (3, 3));
    assert_eq!(BlobContainer::with_root().count_files_and_directories(), (0, 1));
}

#[test]
fn window_slices_exactly() {
    let data: Vec<u8> = vec![10, 11, 12, 13, 14];
    assert_eq!(slice_window(&data, 1, 2), vec![11, 12]);
    assert_eq!(slice_window(&data, 3, 9), vec![13, 14]);
    assert_eq!(slice_window(&data, 5, 1), Vec::<u8>::new());
    assert_eq!(slice_window(&data, 0, 0), Vec::<u8>::new());
    assert_eq!(slice_window(&data, 0, 5), data);
}

fn paths_and_kinds(c: &BlobContainer) -> Vec<(String, bool)> {
    let mut v: Vec<(String, bool)> = (1..=(c.entry_count() as u64))
        .map(|id| {
            let is_file = matches!(c.get_entry_by_inode(id), Some(BlobEntry::File(_)));
            (c.get_path(id).unwrap().clone(), is_file)
        })
        .collect();
    v.sort();
    v
}

#[test]
fn build_holds_exactly_the_names_and_their_prefixes() {
    let c = build(&[("a/b/c", 1), ("a/b/d", 2)]);
    let expected: Vec<(String, bool)> = vec![
        ("".to_string(), false),
        ("a".to_string(), false),
        ("a/b".to_string(), false),
        ("a/b/c".to_string(), true),
        ("a/b/d".to_string(), true),
    ];
    assert_eq!(paths_and_kinds(&c), expected);
    for id in 1..=(c.entry_count() as u64) {
        if let Some(BlobEntry::File(f)) = c.get_entry_by_inode(id) {
            assert!(f.data.is_none());
        }
    }
}

#[test]
fn permuted_listing_gives_the_same_tree() {
    let c1 = build(&[("a/b/c", 1), ("x", 2), ("a/d", 3)]);
    let c2 = build(&[("a/d", 3), ("a/b/c", 1), ("x", 2)]);
    assert_eq!(paths_and_kinds(&c1), paths_and_kinds(&c2));
}

#[test]
fn directories_come_before_their_files_in_listing_order() {
    let c = build(&[("p/q/r", 1), ("s/t", 2)]);
    assert_eq!(c.get_path(2).unwrap(), "p");
    assert_eq!(c.get_path(3).unwrap(), "p/q");
    assert_eq!(c.get_path(4).unwrap(), "p/q/r");
    assert_eq!(c.get_path(5).unwrap(), "s");
    assert_eq!(c.get_path(6).unwrap(), "s/t");
    let q = c.get_directory(3).unwrap();
    assert_eq!(q.get(&".".to_string()), Some(3));
    assert_eq!(q.get(&"..".to_string()), Some(2));
    assert_eq!(q.entries.len(), 3);
}
