use ffs::config::Config;
use ffs::fs::{DirEntry, DirType, Entry, FSError, FileKind, Inode, FS, ROOT_INUM};
use ffs::json::fs;
use ffs::mutate::{S_IFDIR, S_IFREG};
use ffs::value::Value;
use std::collections::HashSet;
use std::time::{Duration, SystemTime};

const UID: u32 = 1000;

fn stamp() -> SystemTime {
    SystemTime::UNIX_EPOCH + Duration::from_secs(42)
}

fn config() -> Config {
    Config {
        uid: UID,
        gid: 100,
        timestamp: stamp(),
        filemode: 0o640,
        dirmode: 0o750,
        add_newlines: false,
        pad_element_names: false,
        munge: Vec::new(),
    }
}

fn object(fields: Vec<(&str, Value)>) -> Value {
    Value::Object(fields.into_iter().map(|(k, v)| (k.to_string(), v)).collect())
}

fn text(s: &str) -> Value {
    Value::String(s.to_string())
}

fn sample() -> FS {
    fs(
        config(),
        object(vec![
            ("name", text("ffs")),
            ("tags", Value::Array(vec![text("a"), text("b"), Value::Null])),
            ("nested", object(vec![("deep", object(vec![])), ("flag", Value::Bool(true))])),
        ]),
    )
}

/// Checks on a concrete table what every table must satisfy.
fn assert_well_formed(fs: &FS) {
    assert!(fs.is_well_formed());
    assert!(fs.inodes.len() >= 2);
    assert!(fs.inodes[0].is_none());
    let root = fs.inodes[1].as_ref().expect("the root is missing");
    assert_eq!(root.parent, 1);
    assert!(matches!(root.entry, Entry::Directory(..)));
    for (i, slot) in fs.inodes.iter().enumerate() {
        let node = match slot {
            Some(node) => node,
            None => continue,
        };
        assert_eq!(node.inum, i as u64);
        assert_eq!(fs.attr(fs.get(i as u64).unwrap()).ino, i as u64);
        if let Entry::Directory(_, files) = &node.entry {
            let mut seen = HashSet::new();
            let mut inums = HashSet::new();
            for (name, DirEntry { kind, inum }) in files {
                assert!(seen.insert(name.clone()), "{} occurs twice", name);
                assert!(inums.insert(*inum));
                assert!(!name.is_empty() && !name.contains('/'));
                assert!(name != "." && name != "..");
                assert!(*inum > 1);
                let child = fs.get(*inum).expect("a child is missing");
                assert_eq!(child.parent, i as u64);
                assert_eq!(child.entry.kind(), *kind);
            }
        }
    }
}

#[test]
fn get_tells_missing_from_empty() {
    let fs = sample();
    assert_eq!(fs.get(0), Err(FSError::InvalidInode(0)));
    let len = fs.inodes.len() as u64;
    assert_eq!(fs.get(len), Err(FSError::NoSuchInode(len)));
    assert_eq!(fs.get(u64::MAX), Err(FSError::NoSuchInode(u64::MAX)));
    assert_eq!(fs.get(ROOT_INUM).unwrap().inum, 1);
}

#[test]
fn get_mut_changes_one_slot() {
    let mut fs = sample();
    let len = fs.inodes.len() as u64;
    assert_eq!(fs.get_mut(len).err(), Some(FSError::NoSuchInode(len)));
    assert_eq!(fs.get_mut(0).err(), Some(FSError::InvalidInode(0)));
    let name = fs.lookup(1, Some("name")).unwrap().ino;
    match &mut fs.get_mut(name).unwrap().entry {
        Entry::File(bytes) => bytes.push(b'!'),
        Entry::Directory(..) => panic!("a directory"),
    }
    assert_eq!(fs.read(name, 0, 10), Ok(&b"ffs!"[..]));
    assert_well_formed(&fs);
}

#[test]
fn ingestion_fills_every_slot_but_the_first() {
    let fs = sample();
    // root, name, tags and its three elements, nested and its two fields
    assert_eq!(fs.inodes.len(), 10);
    assert!(fs.inodes[0].is_none());
    assert!(fs.inodes[1..].iter().all(|slot| slot.is_some()));
    assert_well_formed(&fs);
}

#[test]
fn ingestion_numbers_children_one_after_the_other() {
    let fs = sample();
    let root = fs.get(1).unwrap();
    match &root.entry {
        Entry::Directory(DirType::Named, files) => {
            let inums: Vec<u64> = files.iter().map(|(_, e)| e.inum).collect();
            assert_eq!(inums, vec![2, 3, 4]);
        }
        _ => panic!("the root is no named directory"),
    }
    // the last child met is looked into first
    match &fs.get(4).unwrap().entry {
        Entry::Directory(DirType::Named, files) => {
            let inums: Vec<u64> = files.iter().map(|(_, e)| e.inum).collect();
            assert_eq!(inums, vec![5, 6]);
        }
        _ => panic!("nested is no named directory"),
    }
    match &fs.get(3).unwrap().entry {
        Entry::Directory(DirType::List, files) => {
            let inums: Vec<u64> = files.iter().map(|(_, e)| e.inum).collect();
            assert_eq!(inums, vec![7, 8, 9]);
        }
        _ => panic!("tags is no list"),
    }
}

#[test]
fn root_is_its_own_parent() {
    let fs = sample();
    assert_eq!(fs.get(1).unwrap().parent, 1);
}

#[test]
fn attr_of_a_file() {
    let fs = sample();
    let ino = fs.lookup(1, Some("name")).unwrap().ino;
    let attr = fs.attr(fs.get(ino).unwrap());
    assert_eq!(attr.ino, ino);
    assert_eq!(attr.size, 3);
    assert_eq!(attr.blocks, 3);
    assert_eq!(attr.blksize, 1);
    assert_eq!(attr.kind, FileKind::RegularFile);
    assert_eq!(attr.perm, 0o640);
    assert_eq!(attr.nlink, 1);
    assert_eq!(attr.uid, UID);
    assert_eq!(attr.gid, 100);
    assert_eq!(attr.rdev, 0);
    assert_eq!(attr.flags, 0);
    assert_eq!(attr.atime, stamp());
    assert_eq!(attr.mtime, stamp());
    assert_eq!(attr.ctime, stamp());
    assert_eq!(attr.crtime, stamp());
}

#[test]
fn attr_of_a_named_directory() {
    let fs = sample();
    let attr = fs.attr(fs.get(1).unwrap());
    // "name" + "tags" + "nested"
    assert_eq!(attr.size, 14);
    assert_eq!(attr.blocks, 14);
    assert_eq!(attr.kind, FileKind::Directory);
    assert_eq!(attr.perm, 0o750);
    // two subdirectories
    assert_eq!(attr.nlink, 4);
}

#[test]
fn attr_of_a_list_directory() {
    let fs = sample();
    let tags = fs.lookup(1, Some("tags")).unwrap();
    assert_eq!(tags.size, 3);
    assert_eq!(tags.nlink, 2);
    assert_eq!(tags.kind, FileKind::Directory);
}

#[test]
fn size_of_a_named_directory_counts_bytes() {
    let fs = fs(config(), object(vec![("é", Value::Null), ("日本", Value::Null)]));
    assert_eq!(fs.get(1).unwrap().entry.size(), 2 + 6);
}

#[test]
fn entry_kind_size_and_nlink() {
    let file = Entry::File(vec![1, 2, 3, 4]);
    assert_eq!(file.kind(), FileKind::RegularFile);
    assert_eq!(file.size(), 4);
    assert_eq!(file.nlink(), 1);
    let dir = Entry::Directory(
        DirType::Named,
        vec![
            ("ab".to_string(), DirEntry { kind: FileKind::Directory, inum: 2 }),
            ("cde".to_string(), DirEntry { kind: FileKind::RegularFile, inum: 3 }),
        ],
    );
    assert_eq!(dir.kind(), FileKind::Directory);
    assert_eq!(dir.size(), 5);
    assert_eq!(dir.nlink(), 3);
    let list = Entry::Directory(
        DirType::List,
        vec![("0".to_string(), DirEntry { kind: FileKind::RegularFile, inum: 2 })],
    );
    assert_eq!(list.size(), 1);
    assert_eq!(list.nlink(), 2);
}

#[test]
fn mode_goes_by_kind() {
    let fs = sample();
    assert_eq!(fs.mode(FileKind::Directory), 0o750);
    assert_eq!(fs.mode(FileKind::RegularFile), 0o640);
}

#[test]
fn check_access_admits_the_owner_only() {
    let fs = sample();
    assert!(fs.check_access(UID));
    assert!(!fs.check_access(0));
    assert!(!fs.check_access(UID + 1));
}

#[test]
fn fresh_inode_takes_the_next_number() {
    let mut fs = sample();
    let len = fs.inodes.len() as u64;
    let inum = fs.fresh_inode(1, Entry::File(Vec::new()));
    assert_eq!(inum, len);
    assert_eq!(
        fs.get(inum),
        Ok(&Inode { parent: 1, inum, entry: Entry::File(Vec::new()) })
    );
    assert_eq!(fs.inodes.len() as u64, len + 1);
    assert_well_formed(&fs);
}

#[test]
fn operations_keep_the_table_well_formed() {
    let mut fs = sample();
    let nested = fs.lookup(1, Some("nested")).unwrap().ino;
    let tags = fs.lookup(1, Some("tags")).unwrap().ino;
    let d = fs.mkdir(UID, nested, Some("d"), 0o700).unwrap().ino;
    assert_well_formed(&fs);
    let f = fs.mknod(UID, d, Some("f"), S_IFREG).unwrap().ino;
    assert_well_formed(&fs);
    assert_eq!(fs.write(UID, f, 2, b"xyz"), Ok(3));
    assert_well_formed(&fs);
    assert_eq!(fs.fallocate(UID, f, 0, 10, 0), Ok(()));
    assert_well_formed(&fs);
    assert_eq!(fs.rename(UID, d, Some("f"), tags, Some("3"), 0), Ok(()));
    assert_well_formed(&fs);
    assert_eq!(fs.rename(UID, nested, Some("d"), 1, Some("name"), 0), Err(ffs::errno::Errno::ENOTDIR));
    assert_well_formed(&fs);
    assert_eq!(fs.rename(UID, nested, Some("d"), d, Some("inside"), 0), Ok(()));
    assert_well_formed(&fs);
    assert_eq!(fs.get(d).unwrap().parent, d);
    assert_eq!(fs.unlink(UID, tags, Some("0")), Ok(()));
    assert_well_formed(&fs);
    assert_eq!(fs.rmdir(UID, nested, Some("deep")), Ok(()));
    assert_well_formed(&fs);
    assert_eq!(fs.mknod(UID, 1, Some("dir"), S_IFDIR).unwrap().kind, FileKind::Directory);
    assert_well_formed(&fs);
    assert_eq!(fs.get(1).unwrap().parent, 1);
}

#[test]
fn a_table_without_a_root_is_not_well_formed() {
    let mut fs = sample();
    assert!(fs.is_well_formed());
    fs.inodes.truncate(1);
    assert!(!fs.is_well_formed());
    let mut fs = sample();
    fs.inodes[1] = None;
    assert!(!fs.is_well_formed());
    let mut fs = sample();
    fs.inodes[1] = Some(Inode { parent: 1, inum: 1, entry: Entry::File(Vec::new()) });
    assert!(!fs.is_well_formed());
    let mut fs = sample();
    fs.inodes[1].as_mut().unwrap().parent = 2;
    assert!(!fs.is_well_formed());
    let mut fs = sample();
    fs.inodes[0] = Some(Inode { parent: 1, inum: 0, entry: Entry::File(Vec::new()) });
    assert!(!fs.is_well_formed());
}

fn with_root_children(files: Vec<(&str, DirEntry)>) -> FS {
    let mut fs = sample();
    let files = files.into_iter().map(|(name, e)| (name.to_string(), e)).collect();
    fs.inodes[1].as_mut().unwrap().entry = Entry::Directory(DirType::Named, files);
    fs
}

#[test]
fn unsound_children_are_found() {
    let file = DirEntry { kind: FileKind::RegularFile, inum: 2 };
    let list = DirEntry { kind: FileKind::Directory, inum: 3 };
    assert!(with_root_children(vec![("a", file), ("b", list)]).is_well_formed());
    assert!(with_root_children(vec![]).is_well_formed());
    // a name twice, an inode twice
    assert!(!with_root_children(vec![("a", file), ("a", list)]).is_well_formed());
    assert!(!with_root_children(vec![("a", file), ("b", list), ("c", file)]).is_well_formed());
    // names that no child may have
    for name in ["", ".", "..", "a/b"] {
        assert!(!with_root_children(vec![(name, file)]).is_well_formed());
    }
    // the wrong kind, the root, a missing inode, another directory's child
    assert!(!with_root_children(vec![("a", DirEntry { kind: FileKind::Directory, inum: 2 })])
        .is_well_formed());
    assert!(!with_root_children(vec![("a", DirEntry { kind: FileKind::Directory, inum: 1 })])
        .is_well_formed());
    assert!(!with_root_children(vec![("a", DirEntry { kind: FileKind::RegularFile, inum: 0 })])
        .is_well_formed());
    assert!(!with_root_children(vec![("a", DirEntry { kind: FileKind::RegularFile, inum: 99 })])
        .is_well_formed());
    assert!(!with_root_children(vec![("a", DirEntry { kind: FileKind::RegularFile, inum: 7 })])
        .is_well_formed());
    // an inode under another number
    let mut fs = sample();
    fs.inodes[2].as_mut().unwrap().inum = 3;
    assert!(!fs.is_well_formed());
}
