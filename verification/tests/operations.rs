use ffs::config::Config;
use ffs::errno::Errno;
use ffs::fs::{Entry, FileKind, FS};
use ffs::json::fs;
use ffs::mutate::{S_IFDIR, S_IFMT, S_IFREG};
use ffs::ops::{Listed, StatFs, F_OK, X_OK};
use ffs::value::Value;
use std::time::SystemTime;

const UID: u32 = 1000;
const GID: u32 = 100;
const R_OK: i32 = 4;
const W_OK: i32 = 2;

fn config() -> Config {
    Config {
        uid: UID,
        gid: GID,
        timestamp: SystemTime::UNIX_EPOCH,
        filemode: 0o640,
        dirmode: 0o750,
        add_newlines: false,
        pad_element_names: false,
        munge: Vec::new(),
    }
}

fn object(fields: Vec<(&str, Value)>) -> Value {
    Value::Object(fields.into_iter().map(|(k, v)| (k.to_string(), v)).collect())
}

fn text(s: &str) -> Value {
    Value::String(s.to_string())
}

/// `{"file": "hello", "dir": {"inner": "x"}, "empty": {}, "list": ["a", "b"]}`
fn sample() -> FS {
    fs(
        config(),
        object(vec![
            ("file", text("hello")),
            ("dir", object(vec![("inner", text("x"))])),
            ("empty", object(vec![])),
            ("list", Value::Array(vec![text("a"), text("b")])),
        ]),
    )
}

fn ino(fs: &FS, parent: u64, name: &str) -> u64 {
    fs.lookup(parent, Some(name)).unwrap().ino
}

fn names(fs: &FS, inum: u64) -> Vec<String> {
    match &fs.get(inum).unwrap().entry {
        Entry::Directory(_, files) => files.iter().map(|(name, _)| name.clone()).collect(),
        Entry::File(_) => panic!("inode {} is a file", inum),
    }
}

fn bytes(fs: &FS, inum: u64) -> Vec<u8> {
    fs.read(inum, 0, 0).unwrap().to_vec()
}

fn line(inum: u64, offset: i64, kind: FileKind, name: &str) -> Listed {
    Listed { inum, offset, kind, name: name.to_string() }
}

#[test]
fn statfs_reports_nothing_but_its_limits() {
    assert_eq!(
        sample().statfs(),
        StatFs { blocks: 0, bfree: 0, bavail: 0, files: 0, ffree: 0, bsize: 1, namelen: 255, frsize: 0 }
    );
}

#[test]
fn create_and_setattr_are_not_implemented() {
    let fs = sample();
    assert_eq!(fs.create(), Err(Errno::ENOSYS));
    assert_eq!(fs.setattr(), Err(Errno::ENOSYS));
}

#[test]
fn lookup_finds_children() {
    let fs = sample();
    let file = fs.lookup(1, Some("file")).unwrap();
    assert_eq!(file.kind, FileKind::RegularFile);
    assert_eq!(file.size, 5);
    assert_eq!(file.ino, 2);
    let dir = fs.lookup(1, Some("dir")).unwrap();
    assert_eq!(dir.kind, FileKind::Directory);
    assert_eq!(fs.lookup(dir.ino, Some("inner")).unwrap().size, 1);
}

#[test]
fn lookup_errors() {
    let fs = sample();
    assert_eq!(fs.lookup(99, Some("file")), Err(Errno::ENOENT));
    assert_eq!(fs.lookup(0, Some("file")), Err(Errno::ENOENT));
    assert_eq!(fs.lookup(1, None), Err(Errno::ENOENT));
    assert_eq!(fs.lookup(99, None), Err(Errno::ENOENT));
    assert_eq!(fs.lookup(ino(&fs, 1, "file"), Some("x")), Err(Errno::ENOTDIR));
    assert_eq!(fs.lookup(ino(&fs, 1, "file"), None), Err(Errno::ENOENT));
    assert_eq!(fs.lookup(1, Some("missing")), Err(Errno::ENOENT));
    assert_eq!(fs.lookup(1, Some(".")), Err(Errno::ENOENT));
    assert_eq!(fs.lookup(1, Some("")), Err(Errno::ENOENT));
}

#[test]
fn getattr_of_present_and_missing() {
    let fs = sample();
    assert_eq!(fs.getattr(1).unwrap().ino, 1);
    assert_eq!(fs.getattr(1).unwrap().kind, FileKind::Directory);
    assert_eq!(fs.getattr(0), Err(Errno::ENOENT));
    assert_eq!(fs.getattr(1000), Err(Errno::ENOENT));
}

#[test]
fn access_existence() {
    let fs = sample();
    assert_eq!(fs.access(12345, 6789, 1, F_OK), Ok(()));
    assert_eq!(fs.access(UID, GID, 999, F_OK), Err(Errno::ENOENT));
    assert_eq!(fs.access(UID, GID, 999, R_OK), Err(Errno::ENOENT));
}

#[test]
fn access_of_the_owner() {
    let fs = sample();
    let file = ino(&fs, 1, "file");
    assert_eq!(fs.access(UID, GID, file, R_OK), Ok(()));
    assert_eq!(fs.access(UID, GID, file, R_OK | W_OK), Ok(()));
    assert_eq!(fs.access(UID, GID, file, X_OK), Err(Errno::EACCES));
    assert_eq!(fs.access(UID, GID, file, R_OK | X_OK), Err(Errno::EACCES));
    assert_eq!(fs.access(UID, GID, 1, R_OK | W_OK | X_OK), Ok(()));
}

#[test]
fn access_of_the_group() {
    let fs = sample();
    let file = ino(&fs, 1, "file");
    assert_eq!(fs.access(UID + 1, GID, file, R_OK), Ok(()));
    assert_eq!(fs.access(UID + 1, GID, file, W_OK), Err(Errno::EACCES));
    assert_eq!(fs.access(UID + 1, GID, 1, R_OK | X_OK), Ok(()));
    assert_eq!(fs.access(UID + 1, GID, 1, W_OK), Err(Errno::EACCES));
}

#[test]
fn access_of_others() {
    let fs = sample();
    let file = ino(&fs, 1, "file");
    assert_eq!(fs.access(UID + 1, GID + 1, file, R_OK), Err(Errno::EACCES));
    assert_eq!(fs.access(UID + 1, GID + 1, 1, X_OK), Err(Errno::EACCES));
}

#[test]
fn access_of_the_superuser() {
    let fs = sample();
    let file = ino(&fs, 1, "file");
    assert_eq!(fs.access(0, 0, file, R_OK | W_OK), Ok(()));
    assert_eq!(fs.access(0, 0, file, X_OK), Err(Errno::EACCES));
    assert_eq!(fs.access(0, 0, file, R_OK | W_OK | X_OK), Err(Errno::EACCES));
    assert_eq!(fs.access(0, 0, 1, R_OK | W_OK | X_OK), Ok(()));
}

#[test]
fn read_from_an_offset() {
    let fs = sample();
    let file = ino(&fs, 1, "file");
    assert_eq!(fs.read(file, 0, 4096), Ok(&b"hello"[..]));
    assert_eq!(fs.read(file, 2, 4096), Ok(&b"llo"[..]));
    // the size asked for does not cut the reply
    assert_eq!(fs.read(file, 1, 2), Ok(&b"ello"[..]));
}

#[test]
fn read_past_the_end_is_empty() {
    let fs = sample();
    let file = ino(&fs, 1, "file");
    assert_eq!(fs.read(file, 5, 10), Ok(&b""[..]));
    assert_eq!(fs.read(file, 6, 10), Ok(&b""[..]));
    assert_eq!(fs.read(file, i64::MAX, 10), Ok(&b""[..]));
}

#[test]
fn read_errors() {
    let fs = sample();
    assert_eq!(fs.read(1, 0, 10), Err(Errno::ENOENT));
    assert_eq!(fs.read(999, 0, 10), Err(Errno::ENOENT));
    assert_eq!(fs.read(0, 0, 10), Err(Errno::ENOENT));
}

#[test]
fn readdir_lists_dots_then_children() {
    let fs = sample();
    let dir = ino(&fs, 1, "dir");
    let inner = ino(&fs, dir, "inner");
    assert_eq!(
        fs.readdir(dir, 0),
        Ok(vec![
            line(dir, 1, FileKind::Directory, "."),
            line(1, 2, FileKind::Directory, ".."),
            line(inner, 3, FileKind::RegularFile, "inner"),
        ])
    );
    assert_eq!(
        fs.readdir(1, 0).unwrap().iter().map(|l| l.name.clone()).collect::<Vec<_>>(),
        vec![".", "..", "file", "dir", "empty", "list"]
    );
    assert_eq!(fs.readdir(1, 0).unwrap()[1].inum, 1);
}

#[test]
fn readdir_skips_what_was_read() {
    let fs = sample();
    let all = fs.readdir(1, 0).unwrap();
    assert_eq!(all.len(), 6);
    for (i, l) in all.iter().enumerate() {
        assert_eq!(l.offset, i as i64 + 1);
    }
    for skip in 0..=6usize {
        assert_eq!(fs.readdir(1, skip as i64).unwrap(), all[skip..].to_vec());
    }
    assert_eq!(fs.readdir(1, 7), Ok(Vec::new()));
    assert_eq!(fs.readdir(1, i64::MAX), Ok(Vec::new()));
    assert_eq!(fs.readdir(1, -1), Ok(Vec::new()));
}

#[test]
fn readdir_errors() {
    let fs = sample();
    assert_eq!(fs.readdir(ino(&fs, 1, "file"), 0), Err(Errno::ENOTDIR));
    assert_eq!(fs.readdir(999, 0), Err(Errno::ENOENT));
}

#[test]
fn mknod_makes_an_empty_file() {
    let mut fs = sample();
    let len = fs.inodes.len() as u64;
    let attr = fs.mknod(UID, 1, Some("new"), S_IFREG | 0o600).unwrap();
    assert_eq!(attr.ino, len);
    assert_eq!(attr.kind, FileKind::RegularFile);
    assert_eq!(attr.size, 0);
    assert_eq!(attr.perm, 0o640);
    assert_eq!(fs.get(len).unwrap().parent, 1);
    assert_eq!(names(&fs, 1), vec!["file", "dir", "empty", "list", "new"]);
    assert_eq!(fs.lookup(1, Some("new")), Ok(attr));
}

#[test]
fn mknod_into_a_list() {
    let mut fs = sample();
    let list = ino(&fs, 1, "list");
    let attr = fs.mknod(UID, list, Some("note"), S_IFREG).unwrap();
    assert_eq!(fs.get(attr.ino).unwrap().parent, list);
    assert_eq!(names(&fs, list), vec!["0", "1", "note"]);
}

#[test]
fn mknod_errors() {
    let mut fs = sample();
    let before = fs.inodes.clone();
    assert_eq!(fs.mknod(UID + 1, 1, Some("n"), S_IFREG), Err(Errno::EACCES));
    assert_eq!(fs.mknod(UID + 1, 1, Some("n"), 0o120000), Err(Errno::EACCES));
    assert_eq!(fs.mknod(UID, 1, Some("n"), 0o120000), Err(Errno::ENOSYS));
    assert_eq!(fs.mknod(UID, 1, Some("n"), 0o010000), Err(Errno::ENOSYS));
    assert_eq!(fs.mknod(UID, 1, Some("n"), 0o644), Err(Errno::ENOSYS));
    assert_eq!(fs.mknod(UID, 999, None, S_IFMT), Err(Errno::ENOSYS));
    assert_eq!(fs.mknod(UID, 1, None, S_IFREG), Err(Errno::ENOENT));
    assert_eq!(fs.mknod(UID, 1, Some(""), S_IFREG), Err(Errno::ENOENT));
    assert_eq!(fs.mknod(UID, 1, Some("a/b"), S_IFREG), Err(Errno::ENOENT));
    assert_eq!(fs.mknod(UID, 999, Some("n"), S_IFREG), Err(Errno::ENOENT));
    assert_eq!(fs.mknod(UID, 2, Some("n"), S_IFREG), Err(Errno::ENOTDIR));
    assert_eq!(fs.mknod(UID, 1, Some("file"), S_IFREG), Err(Errno::EEXIST));
    assert_eq!(fs.mknod(UID, 1, Some("dir"), S_IFDIR), Err(Errno::EEXIST));
    assert_eq!(fs.mknod(UID, 1, Some("."), S_IFDIR), Err(Errno::EEXIST));
    assert_eq!(fs.mknod(UID, 1, Some(".."), S_IFREG), Err(Errno::EEXIST));
    assert_eq!(fs.inodes, before);
}

#[test]
fn mkdir_takes_any_mode() {
    let mut fs = sample();
    let a = fs.mkdir(UID, 1, Some("a"), 0o755).unwrap();
    let b = fs.mkdir(UID, 1, Some("b"), 0).unwrap();
    let c = fs.mkdir(UID, a.ino, Some("c"), S_IFREG).unwrap();
    for attr in [a, b, c] {
        assert_eq!(attr.kind, FileKind::Directory);
        assert_eq!(attr.perm, 0o750);
        assert_eq!(attr.size, 0);
        assert_eq!(attr.nlink, 2);
    }
    assert_eq!(fs.get(c.ino).unwrap().parent, a.ino);
    assert_eq!(fs.getattr(a.ino).unwrap().nlink, 3);
}

#[test]
fn mkdir_errors() {
    let mut fs = sample();
    let before = fs.inodes.clone();
    assert_eq!(fs.mkdir(0, 1, Some("n"), 0o755), Err(Errno::EACCES));
    assert_eq!(fs.mkdir(UID, 1, None, 0o755), Err(Errno::ENOENT));
    assert_eq!(fs.mkdir(UID, 1, Some("x/"), 0o755), Err(Errno::ENOENT));
    assert_eq!(fs.mkdir(UID, 0, Some("n"), 0o755), Err(Errno::ENOENT));
    assert_eq!(fs.mkdir(UID, 2, Some("n"), 0o755), Err(Errno::ENOTDIR));
    assert_eq!(fs.mkdir(UID, 1, Some("empty"), 0o755), Err(Errno::EEXIST));
    assert_eq!(fs.mkdir(UID, 1, Some("."), 0o755), Err(Errno::EEXIST));
    assert_eq!(fs.inodes, before);
}

#[test]
fn write_over_and_past_the_end() {
    let mut fs = sample();
    let file = ino(&fs, 1, "file");
    assert_eq!(fs.write(UID, file, 1, b"EL"), Ok(2));
    assert_eq!(bytes(&fs, file), b"hELlo");
    assert_eq!(fs.write(UID, file, 3, b"p me"), Ok(4));
    assert_eq!(bytes(&fs, file), b"hELp me");
    assert_eq!(fs.write(UID, file, 9, b"!"), Ok(1));
    assert_eq!(bytes(&fs, file), b"hELp me\0\0!");
    assert_eq!(fs.write(UID, file, 20, b""), Ok(0));
    assert_eq!(bytes(&fs, file).len(), 20);
    assert_eq!(fs.getattr(file).unwrap().size, 20);
}

#[test]
fn write_twice_is_write_once() {
    let mut fs = sample();
    let file = ino(&fs, 1, "file");
    assert_eq!(fs.write(UID, file, 3, b"abcdef"), Ok(6));
    let once = fs.inodes.clone();
    assert_eq!(bytes(&fs, file), b"helabcdef");
    assert_eq!(fs.write(UID, file, 3, b"abcdef"), Ok(6));
    assert_eq!(fs.inodes, once);
}

#[test]
fn write_errors() {
    let mut fs = sample();
    let before = fs.inodes.clone();
    let file = ino(&fs, 1, "file");
    assert_eq!(fs.write(UID + 1, file, 0, b"x"), Err(Errno::EACCES));
    assert_eq!(fs.write(UID + 1, 1, 0, b"x"), Err(Errno::EACCES));
    assert_eq!(fs.write(UID, 999, 0, b"x"), Err(Errno::ENOENT));
    assert_eq!(fs.write(UID, 0, 0, b"x"), Err(Errno::ENOENT));
    assert_eq!(fs.write(UID, 1, 0, b"x"), Err(Errno::EISDIR));
    assert_eq!(fs.inodes, before);
}

#[test]
fn fallocate_grows_and_never_shrinks() {
    let mut fs = sample();
    let file = ino(&fs, 1, "file");
    assert_eq!(fs.fallocate(UID, file, 0, 3, 0), Ok(()));
    assert_eq!(bytes(&fs, file), b"hello");
    assert_eq!(fs.fallocate(UID, file, 4, 4, 0), Ok(()));
    assert_eq!(bytes(&fs, file), b"hello\0\0\0");
    assert_eq!(fs.fallocate(UID, file, 8, 1, 0), Ok(()));
    assert_eq!(bytes(&fs, file), b"hello\0\0\0\0");
}

#[test]
fn fallocate_errors() {
    let mut fs = sample();
    let before = fs.inodes.clone();
    let file = ino(&fs, 1, "file");
    assert_eq!(fs.fallocate(UID, file, 0, 0, 0), Err(Errno::EINVAL));
    assert_eq!(fs.fallocate(UID + 1, 999, 0, 0, 7), Err(Errno::EINVAL));
    assert_eq!(fs.fallocate(UID, file, 0, -1, 0), Err(Errno::EINVAL));
    assert_eq!(fs.fallocate(UID, file, -1, 10, 0), Err(Errno::EINVAL));
    assert_eq!(fs.fallocate(UID, file, 0, 10, 1), Err(Errno::EOPNOTSUPP));
    assert_eq!(fs.fallocate(UID + 1, file, 0, 10, 1), Err(Errno::EOPNOTSUPP));
    assert_eq!(fs.fallocate(UID + 1, file, 0, 10, 0), Err(Errno::EACCES));
    assert_eq!(fs.fallocate(UID, 1, 0, 10, 0), Err(Errno::EBADF));
    assert_eq!(fs.fallocate(UID, 999, 0, 10, 0), Err(Errno::ENODEV));
    assert_eq!(fs.fallocate(UID, 0, 0, 10, 0), Err(Errno::ENODEV));
    assert_eq!(fs.inodes, before);
}

#[test]
fn unlink_removes_the_entry_and_keeps_the_inode() {
    let mut fs = sample();
    let file = ino(&fs, 1, "file");
    let len = fs.inodes.len();
    assert_eq!(fs.unlink(UID, 1, Some("file")), Ok(()));
    assert_eq!(names(&fs, 1), vec!["dir", "empty", "list"]);
    assert_eq!(fs.lookup(1, Some("file")), Err(Errno::ENOENT));
    assert_eq!(fs.inodes.len(), len);
    assert_eq!(bytes(&fs, file), b"hello");
    assert_eq!(fs.get(file).unwrap().parent, 1);
}

#[test]
fn unlink_errors() {
    let mut fs = sample();
    let before = fs.inodes.clone();
    assert_eq!(fs.unlink(UID + 1, 1, Some("file")), Err(Errno::EACCES));
    assert_eq!(fs.unlink(UID, 1, None), Err(Errno::ENOENT));
    assert_eq!(fs.unlink(UID, 999, Some("file")), Err(Errno::ENOENT));
    assert_eq!(fs.unlink(UID, 2, Some("file")), Err(Errno::ENOTDIR));
    assert_eq!(fs.unlink(UID, 1, Some("dir")), Err(Errno::EPERM));
    assert_eq!(fs.unlink(UID, 1, Some("empty")), Err(Errno::EPERM));
    assert_eq!(fs.unlink(UID, 1, Some("missing")), Err(Errno::EPERM));
    assert_eq!(fs.unlink(UID, 1, Some("")), Err(Errno::EPERM));
    assert_eq!(fs.inodes, before);
}

#[test]
fn rmdir_removes_an_empty_directory() {
    let mut fs = sample();
    assert_eq!(fs.rmdir(UID, 1, Some("empty")), Ok(()));
    assert_eq!(names(&fs, 1), vec!["file", "dir", "list"]);
    assert_eq!(fs.getattr(1).unwrap().nlink, 4);
}

#[test]
fn rmdir_errors() {
    let mut fs = sample();
    let before = fs.inodes.clone();
    assert_eq!(fs.rmdir(UID + 1, 1, Some("empty")), Err(Errno::EACCES));
    assert_eq!(fs.rmdir(UID, 1, None), Err(Errno::ENOENT));
    assert_eq!(fs.rmdir(UID, 999, Some("empty")), Err(Errno::ENOENT));
    assert_eq!(fs.rmdir(UID, 2, Some("empty")), Err(Errno::ENOTDIR));
    assert_eq!(fs.rmdir(UID, 1, Some("file")), Err(Errno::ENOTDIR));
    assert_eq!(fs.rmdir(UID, 1, Some("missing")), Err(Errno::ENOENT));
    assert_eq!(fs.rmdir(UID, 1, Some(".")), Err(Errno::ENOENT));
    assert_eq!(fs.rmdir(UID, 1, Some("dir")), Err(Errno::ENOTEMPTY));
    assert_eq!(fs.rmdir(UID, 1, Some("list")), Err(Errno::ENOTEMPTY));
    assert_eq!(fs.inodes, before);
}

#[test]
fn rename_within_a_directory() {
    let mut fs = sample();
    let file = ino(&fs, 1, "file");
    assert_eq!(fs.rename(UID, 1, Some("file"), 1, Some("renamed"), 0), Ok(()));
    assert_eq!(names(&fs, 1), vec!["dir", "empty", "list", "renamed"]);
    assert_eq!(ino(&fs, 1, "renamed"), file);
    assert_eq!(fs.get(file).unwrap().parent, 1);
}

#[test]
fn rename_to_itself_changes_nothing() {
    let mut fs = sample();
    let before = fs.inodes.clone();
    assert_eq!(fs.rename(UID, 1, Some("file"), 1, Some("file"), 0), Ok(()));
    assert_eq!(fs.inodes, before);
    assert_eq!(fs.rename(UID, 1, Some("empty"), 1, Some("empty"), 0), Ok(()));
    assert_eq!(fs.inodes, before);
    assert_eq!(fs.rename(UID, 1, Some("dir"), 1, Some("dir"), 0), Err(Errno::ENOTEMPTY));
    assert_eq!(fs.rename(UID, 1, Some("missing"), 1, Some("missing"), 0), Err(Errno::ENOENT));
    assert_eq!(fs.inodes, before);
}

#[test]
fn rename_over_a_file() {
    let mut fs = sample();
    let dir = ino(&fs, 1, "dir");
    let file = ino(&fs, 1, "file");
    let inner = ino(&fs, dir, "inner");
    assert_eq!(fs.rename(UID, 1, Some("file"), dir, Some("inner"), 7), Ok(()));
    assert_eq!(names(&fs, 1), vec!["dir", "empty", "list"]);
    assert_eq!(names(&fs, dir), vec!["inner"]);
    assert_eq!(ino(&fs, dir, "inner"), file);
    assert_eq!(fs.get(file).unwrap().parent, dir);
    // what was there before stays in its slot, out of reach
    assert_eq!(bytes(&fs, inner), b"x");
}

#[test]
fn rename_over_an_empty_directory() {
    let mut fs = sample();
    let dir = ino(&fs, 1, "dir");
    assert_eq!(fs.rename(UID, 1, Some("dir"), 1, Some("empty"), 0), Ok(()));
    assert_eq!(names(&fs, 1), vec!["file", "empty", "list"]);
    assert_eq!(ino(&fs, 1, "empty"), dir);
    assert_eq!(names(&fs, dir), vec!["inner"]);
}

#[test]
fn rename_errors() {
    let mut fs = sample();
    let before = fs.inodes.clone();
    let dir = ino(&fs, 1, "dir");
    assert_eq!(fs.rename(UID + 1, 1, Some("file"), 1, Some("x"), 0), Err(Errno::EACCES));
    assert_eq!(fs.rename(UID + 1, 1, Some("."), 1, Some("x"), 0), Err(Errno::EACCES));
    assert_eq!(fs.rename(UID, 1, None, 1, Some("x"), 0), Err(Errno::ENOENT));
    assert_eq!(fs.rename(UID, 1, Some("."), 1, Some("x"), 0), Err(Errno::EINVAL));
    assert_eq!(fs.rename(UID, 1, Some(".."), 1, Some("x"), 0), Err(Errno::EINVAL));
    assert_eq!(fs.rename(UID, 999, Some("."), 999, None, 0), Err(Errno::EINVAL));
    assert_eq!(fs.rename(UID, 1, Some("file"), 1, None, 0), Err(Errno::ENOENT));
    assert_eq!(fs.rename(UID, 1, Some("file"), 1, Some(""), 0), Err(Errno::ENOENT));
    assert_eq!(fs.rename(UID, 1, Some("file"), 1, Some("a/b"), 0), Err(Errno::ENOENT));
    assert_eq!(fs.rename(UID, 1, Some("file"), 1, Some("."), 0), Err(Errno::EINVAL));
    assert_eq!(fs.rename(UID, 1, Some("file"), 1, Some(".."), 0), Err(Errno::EINVAL));
    assert_eq!(fs.rename(UID, 999, Some("file"), 1, Some("x"), 0), Err(Errno::ENOENT));
    assert_eq!(fs.rename(UID, 2, Some("file"), 1, Some("x"), 0), Err(Errno::ENOENT));
    assert_eq!(fs.rename(UID, 1, Some("missing"), 1, Some("x"), 0), Err(Errno::ENOENT));
    assert_eq!(fs.rename(UID, 1, Some("file"), 999, Some("x"), 0), Err(Errno::ENOENT));
    assert_eq!(fs.rename(UID, 1, Some("file"), 2, Some("x"), 0), Err(Errno::ENOENT));
    assert_eq!(fs.rename(UID, 1, Some("file"), 1, Some("dir"), 0), Err(Errno::ENOTDIR));
    assert_eq!(fs.rename(UID, 1, Some("empty"), 1, Some("file"), 0), Err(Errno::ENOTDIR));
    assert_eq!(fs.rename(UID, 1, Some("empty"), 1, Some("dir"), 0), Err(Errno::ENOTEMPTY));
    assert_eq!(fs.rename(UID, dir, Some("inner"), 1, Some("dir"), 0), Err(Errno::ENOTDIR));
    assert_eq!(fs.inodes, before);
}
