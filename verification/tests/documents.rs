use ffs::config::Config;
use ffs::errno::Errno;
use ffs::fs::{DirType, Entry, FileKind, FS};
use ffs::json::fs;
use ffs::mutate::{S_IFDIR, S_IFREG};
use ffs::save::name_key;
use ffs::value::Value;
use std::time::{Duration, SystemTime};

const UID: u32 = 501;

fn config() -> Config {
    Config {
        uid: UID,
        gid: 20,
        timestamp: SystemTime::UNIX_EPOCH + Duration::from_secs(1_600_000_000),
        filemode: 0o644,
        dirmode: 0o755,
        add_newlines: true,
        pad_element_names: true,
        munge: vec![(' ', '_')],
    }
}

fn names(fs: &FS, inum: u64) -> Vec<String> {
    match &fs.get(inum).unwrap().entry {
        Entry::Directory(_, files) => files.iter().map(|(name, _)| name.clone()).collect(),
        Entry::File(_) => panic!("inode {} is a file", inum),
    }
}

fn object(fields: Vec<(&str, Value)>) -> Value {
    Value::Object(fields.into_iter().map(|(k, v)| (k.to_string(), v)).collect())
}

fn number(text: &str) -> Value {
    Value::Number(text.to_string())
}

fn child(fs: &FS, parent: u64, name: &str) -> u64 {
    fs.lookup(parent, Some(name)).unwrap().ino
}

#[test]
fn object_ingestion() {
    let v = object(vec![("a", number("1")), ("b", Value::String("hi".to_string()))]);
    let fs = fs(config(), v);
    match &fs.get(1).unwrap().entry {
        Entry::Directory(kind, _) => assert_eq!(*kind, DirType::Named),
        Entry::File(_) => panic!("root is a file"),
    }
    assert_eq!(names(&fs, 1), vec!["a".to_string(), "b".to_string()]);
    let a = child(&fs, 1, "a");
    let b = child(&fs, 1, "b");
    assert_eq!(fs.read(a, 0, 4096), Ok(&b"1\n"[..]));
    assert_eq!(fs.read(b, 0, 4096), Ok(&b"hi\n"[..]));
    assert_eq!(fs.getattr(a).unwrap().kind, FileKind::RegularFile);
    assert_eq!(fs.lookup(1, Some("c")), Err(Errno::ENOENT));
}

#[test]
fn array_ingestion_with_padding() {
    let v = Value::Array(vec![number("10"), number("20"), number("30")]);
    let fs = fs(config(), v);
    match &fs.get(1).unwrap().entry {
        Entry::Directory(kind, _) => assert_eq!(*kind, DirType::List),
        Entry::File(_) => panic!("root is a file"),
    }
    assert_eq!(names(&fs, 1), vec!["0".to_string(), "1".to_string(), "2".to_string()]);
    assert_eq!(fs.read(child(&fs, 1, "1"), 0, 4096), Ok(&b"20\n"[..]));
}

#[test]
fn array_of_a_hundred_is_padded_to_its_largest_index() {
    let v = Value::Array((0..100).map(|_| Value::Null).collect());
    let fs = fs(config(), v);
    let all = names(&fs, 1);
    assert_eq!(all.len(), 100);
    assert_eq!(all[0], "00");
    assert_eq!(all[1], "01");
    assert_eq!(all[10], "10");
    assert_eq!(all[99], "99");
}

#[test]
fn array_of_a_hundred_and_one_is_padded_to_three() {
    let v = Value::Array((0..101).map(|_| Value::Null).collect());
    let fs = fs(config(), v);
    let all = names(&fs, 1);
    assert_eq!(all[0], "000");
    assert_eq!(all[1], "001");
    assert_eq!(all[100], "100");
}

#[test]
fn key_collision() {
    let v = object(vec![("a b", number("1")), ("a_b", number("2"))]);
    let fs = fs(config(), v);
    assert_eq!(names(&fs, 1), vec!["a_b".to_string(), "a_b_".to_string()]);
    assert_eq!(fs.read(child(&fs, 1, "a_b"), 0, 4096), Ok(&b"1\n"[..]));
    assert_eq!(fs.read(child(&fs, 1, "a_b_"), 0, 4096), Ok(&b"2\n"[..]));
    assert_eq!(
        fs.sync(),
        Some(object(vec![("a_b", number("1")), ("a_b_", number("2"))]))
    );
}

#[test]
fn mkdir_then_rmdir() {
    let v = object(vec![("a", number("1"))]);
    let mut fs = fs(config(), v);
    let before = names(&fs, 1);
    let made = fs.mkdir(UID, 1, Some("x"), 0o755).unwrap();
    assert_eq!(made.kind, FileKind::Directory);
    assert_eq!(names(&fs, 1), vec!["a".to_string(), "x".to_string()]);
    assert_eq!(fs.rmdir(UID, 1, Some("x")), Ok(()));
    assert_eq!(names(&fs, 1), before);
}

#[test]
fn rmdir_of_a_directory_with_children() {
    let mut fs = fs(config(), object(vec![]));
    let d = fs.mkdir(UID, 1, Some("d"), 0o755).unwrap().ino;
    fs.mknod(UID, d, Some("f"), S_IFREG | 0o644).unwrap();
    assert_eq!(fs.rmdir(UID, 1, Some("d")), Err(Errno::ENOTEMPTY));
    assert_eq!(names(&fs, 1), vec!["d".to_string()]);
    assert_eq!(names(&fs, d), vec!["f".to_string()]);
}

#[test]
fn rename_across_parents() {
    let v = object(vec![
        ("a", object(vec![("x", number("1"))])),
        ("b", object(vec![])),
    ]);
    let mut fs = fs(config(), v);
    let a = child(&fs, 1, "a");
    let b = child(&fs, 1, "b");
    let x = child(&fs, a, "x");
    assert_eq!(fs.rename(UID, a, Some("x"), b, Some("y"), 0), Ok(()));
    assert_eq!(names(&fs, a), Vec::<String>::new());
    assert_eq!(names(&fs, b), vec!["y".to_string()]);
    assert_eq!(child(&fs, b, "y"), x);
    assert_eq!(fs.get(x).unwrap().parent, b);
    assert_eq!(
        fs.sync(),
        Some(object(vec![
            ("a", object(vec![])),
            ("b", object(vec![("y", number("1"))])),
        ]))
    );
}

#[test]
fn mknod_of_a_directory_by_mode() {
    let mut fs = fs(config(), object(vec![]));
    let made = fs.mknod(UID, 1, Some("d"), S_IFDIR | 0o755).unwrap();
    assert_eq!(made.kind, FileKind::Directory);
    assert_eq!(made.ino, 2);
    assert_eq!(made.nlink, 2);
    assert_eq!(fs.getattr(1).unwrap().nlink, 3);
}

#[test]
fn list_names_write_their_indices_at_one_width() {
    let v = Value::Array((0..12).map(|_| Value::Null).collect());
    let padded = fs(config(), v);
    let all = names(&padded, 1);
    assert_eq!(all.len(), 12);
    for (i, name) in all.iter().enumerate() {
        assert_eq!(name_key(name), Some(i as u64));
        assert_eq!(name.len(), 2);
    }
    let mut plain = config();
    plain.pad_element_names = false;
    let unpadded = fs(plain, Value::Array((0..12).map(|_| Value::Null).collect()));
    for (i, name) in names(&unpadded, 1).iter().enumerate() {
        assert_eq!(*name, i.to_string());
    }
}

#[test]
fn children_of_a_later_child_are_numbered_first() {
    let v = object(vec![
        ("a", Value::Array(vec![number("1"), object(vec![("x", Value::Null)])])),
        ("b", object(vec![("c", Value::Null), ("d", Value::Null)])),
        ("e", Value::Null),
    ]);
    let fs = fs(config(), v);
    let a = child(&fs, 1, "a");
    let b = child(&fs, 1, "b");
    assert_eq!((a, b, child(&fs, 1, "e")), (2, 3, 4));
    assert_eq!((child(&fs, b, "c"), child(&fs, b, "d")), (5, 6));
    assert_eq!((child(&fs, a, "0"), child(&fs, a, "1")), (7, 8));
    assert_eq!(child(&fs, 8, "x"), 9);
    assert_eq!(fs.inodes.len(), 10);
}
