//! The operations that change the table: making and removing files and
//! directories, writing, and renaming.
//!
//! Only the owner named in the configuration may change the tree. An
//! operation either applies in full or replies with an error and leaves the
//! table as it was. For each operation one spec function gives the error,
//! if there is one, and another the table afterwards.

use crate::changes::{
    lemma_push_inode, lemma_put_child, lemma_remove_child, lemma_set_bytes, lemma_set_parent,
    push_inode, put, put_child, remove_child, set_bytes, set_parent,
};
use crate::config::Config;
use crate::errno::Errno;
use crate::fs::{
    attr_of, bytes_of, child_named, child_ok, children_of, children_view, dot, dotdot, find_child,
    inode_ok, is_dir, is_file, legal_name, live, position, representable, table_wf, DirEntry,
    DirType, Entry, EntryView, FileAttr, FileKind, InodeView, Table, FS,
};
use crate::names::{is_dot_name, is_representable, name_view};
use vstd::pervasive::unreached;
use vstd::prelude::*;

verus! {

/// The bits of a mode that say what kind of file it is.
pub const S_IFMT: u32 = 0o170000;

/// The kind bits of a regular file.
pub const S_IFREG: u32 = 0o100000;

/// The kind bits of a directory.
pub const S_IFDIR: u32 = 0o040000;

/// The name is `.` or `..`.
pub open spec fn is_dots(name: Seq<char>) -> bool {
    name == dot() || name == dotdot()
}

/// What a new inode of a kind holds: no bytes, or no children in a named
/// directory.
pub open spec fn fresh_entry(kind: FileKind) -> EntryView {
    match kind {
        FileKind::RegularFile => EntryView::File(Seq::empty()),
        FileKind::Directory => EntryView::Directory(DirType::Named, Seq::empty()),
    }
}

/// The table with a new inode of `kind` at the next free number, linked
/// into `parent` under `name`.
pub open spec fn add_child(t: Table, parent: u64, name: Seq<char>, kind: FileKind) -> Table {
    put_child(
        push_inode(t, parent, fresh_entry(kind)),
        parent as int,
        name,
        DirEntry { kind, inum: t.len() as u64 },
    )
}

/// Why a child called `name` cannot be made in `parent`: a name that is
/// no text, empty or holds `/`, and a missing parent, are `ENOENT`; a parent
/// that is a file is `ENOTDIR`; a name that the directory already has,
/// `.` and `..` among them, is `EEXIST`.
pub open spec fn create_error(t: Table, parent: u64, name: Option<Seq<char>>) -> Option<Errno> {
    if name is None || !representable(name->0) {
        Some(Errno::ENOENT)
    } else if !live(t, parent as int) {
        Some(Errno::ENOENT)
    } else if !is_dir(t, parent as int) {
        Some(Errno::ENOTDIR)
    } else if is_dots(name->0) || position(children_of(t, parent as int), name->0) is Some {
        Some(Errno::EEXIST)
    } else {
        None
    }
}

/// The kind of file that a mode asks `mknod` for.
pub open spec fn mknod_kind(mode: u32) -> FileKind {
    if mode & S_IFMT == S_IFREG {
        FileKind::RegularFile
    } else {
        FileKind::Directory
    }
}

/// Why `mknod` fails, if it does: a caller who is not the owner is
/// `EACCES`; a mode that asks for anything but a regular file or a
/// directory is `ENOSYS`; then as [`create_error`] says.
pub open spec fn mknod_error(
    config: Config,
    t: Table,
    uid: u32,
    parent: u64,
    name: Option<Seq<char>>,
    mode: u32,
) -> Option<Errno> {
    if uid != config.uid {
        Some(Errno::EACCES)
    } else if mode & S_IFMT != S_IFREG && mode & S_IFMT != S_IFDIR {
        Some(Errno::ENOSYS)
    } else {
        create_error(t, parent, name)
    }
}

/// The table after `mknod`.
pub open spec fn mknod_table(
    config: Config,
    t: Table,
    uid: u32,
    parent: u64,
    name: Option<Seq<char>>,
    mode: u32,
) -> Table {
    if mknod_error(config, t, uid, parent, name, mode) is Some {
        t
    } else {
        add_child(t, parent, name->0, mknod_kind(mode))
    }
}

/// What `mknod` replies: the error, or the attributes of the new inode.
pub open spec fn mknod_reply(
    config: Config,
    t: Table,
    uid: u32,
    parent: u64,
    name: Option<Seq<char>>,
    mode: u32,
) -> Result<FileAttr, Errno> {
    match mknod_error(config, t, uid, parent, name, mode) {
        Some(e) => Err(e),
        None => Ok(
            attr_of(
                config,
                InodeView {
                    parent,
                    inum: t.len() as u64,
                    entry: fresh_entry(mknod_kind(mode)),
                },
            ),
        ),
    }
}

/// Why `mkdir` fails, if it does: a caller who is not the owner is
/// `EACCES`; then as [`create_error`] says. The mode plays no part.
pub open spec fn mkdir_error(
    config: Config,
    t: Table,
    uid: u32,
    parent: u64,
    name: Option<Seq<char>>,
) -> Option<Errno> {
    if uid != config.uid {
        Some(Errno::EACCES)
    } else {
        create_error(t, parent, name)
    }
}

/// The table after `mkdir`.
pub open spec fn mkdir_table(
    config: Config,
    t: Table,
    uid: u32,
    parent: u64,
    name: Option<Seq<char>>,
) -> Table {
    if mkdir_error(config, t, uid, parent, name) is Some {
        t
    } else {
        add_child(t, parent, name->0, FileKind::Directory)
    }
}

/// What `mkdir` replies: the error, or the attributes of the new directory.
pub open spec fn mkdir_reply(
    config: Config,
    t: Table,
    uid: u32,
    parent: u64,
    name: Option<Seq<char>>,
) -> Result<FileAttr, Errno> {
    match mkdir_error(config, t, uid, parent, name) {
        Some(e) => Err(e),
        None => Ok(
            attr_of(
                config,
                InodeView {
                    parent,
                    inum: t.len() as u64,
                    entry: fresh_entry(FileKind::Directory),
                },
            ),
        ),
    }
}

/// Why `unlink` fails, if it does: a caller who is not the owner is
/// `EACCES`; a name that is no text and a missing parent are `ENOENT`; a
/// parent that is a file is `ENOTDIR`; a child that is missing or is no
/// regular file is `EPERM`.
pub open spec fn unlink_error(
    config: Config,
    t: Table,
    uid: u32,
    parent: u64,
    name: Option<Seq<char>>,
) -> Option<Errno> {
    if uid != config.uid {
        Some(Errno::EACCES)
    } else if name is None {
        Some(Errno::ENOENT)
    } else if !live(t, parent as int) {
        Some(Errno::ENOENT)
    } else if !is_dir(t, parent as int) {
        Some(Errno::ENOTDIR)
    } else {
        match child_named(children_of(t, parent as int), name->0) {
            Some(e) => if e.kind == FileKind::RegularFile {
                None
            } else {
                Some(Errno::EPERM)
            },
            None => Some(Errno::EPERM),
        }
    }
}

/// The table after `unlink`: the parent loses the entry; the child's
/// inode stays in its slot.
pub open spec fn unlink_table(
    config: Config,
    t: Table,
    uid: u32,
    parent: u64,
    name: Option<Seq<char>>,
) -> Table {
    if unlink_error(config, t, uid, parent, name) is Some {
        t
    } else {
        remove_child(t, parent as int, position(children_of(t, parent as int), name->0)->0)
    }
}

/// Why `rmdir` fails, if it does: a caller who is not the owner is
/// `EACCES`; a name that is no text and a missing parent are `ENOENT`; a
/// parent that is a file is `ENOTDIR`; a missing child is `ENOENT`, one
/// that is no directory `ENOTDIR`, one that has children `ENOTEMPTY`.
pub open spec fn rmdir_error(
    config: Config,
    t: Table,
    uid: u32,
    parent: u64,
    name: Option<Seq<char>>,
) -> Option<Errno> {
    if uid != config.uid {
        Some(Errno::EACCES)
    } else if name is None {
        Some(Errno::ENOENT)
    } else if !live(t, parent as int) {
        Some(Errno::ENOENT)
    } else if !is_dir(t, parent as int) {
        Some(Errno::ENOTDIR)
    } else {
        match child_named(children_of(t, parent as int), name->0) {
            None => Some(Errno::ENOENT),
            Some(e) => if e.kind != FileKind::Directory {
                Some(Errno::ENOTDIR)
            } else if children_of(t, e.inum as int).len() > 0 {
                Some(Errno::ENOTEMPTY)
            } else {
                None
            },
        }
    }
}

/// The table after `rmdir`: the parent loses the entry.
pub open spec fn rmdir_table(
    config: Config,
    t: Table,
    uid: u32,
    parent: u64,
    name: Option<Seq<char>>,
) -> Table {
    if rmdir_error(config, t, uid, parent, name) is Some {
        t
    } else {
        remove_child(t, parent as int, position(children_of(t, parent as int), name->0)->0)
    }
}

/// `n` zero bytes.
pub open spec fn zeros(n: nat) -> Seq<u8> {
    Seq::new(n, |i: int| 0u8)
}

/// The bytes, followed by as many zeros as it takes to reach length `len`.
pub open spec fn grown(bytes: Seq<u8>, len: int) -> Seq<u8> {
    if bytes.len() < len {
        bytes + zeros((len - bytes.len()) as nat)
    } else {
        bytes
    }
}

/// The bytes with `data` written at `offset`: grown with zeros as far as
/// the data reaches, the data in place of what was there, the rest kept.
pub open spec fn written(bytes: Seq<u8>, offset: int, data: Seq<u8>) -> Seq<u8> {
    let room = grown(bytes, offset + data.len());
    room.subrange(0, offset) + data + room.subrange(offset + data.len(), room.len() as int)
}

/// Why `write` fails, if it does: a caller who is not the owner is
/// `EACCES`; a missing inode is `ENOENT`; a directory is `EISDIR`.
pub open spec fn write_error(config: Config, t: Table, uid: u32, ino: u64) -> Option<Errno> {
    if uid != config.uid {
        Some(Errno::EACCES)
    } else if !live(t, ino as int) {
        Some(Errno::ENOENT)
    } else if !is_file(t, ino as int) {
        Some(Errno::EISDIR)
    } else {
        None
    }
}

/// The table after `write`.
pub open spec fn write_table(
    config: Config,
    t: Table,
    uid: u32,
    ino: u64,
    offset: i64,
    data: Seq<u8>,
) -> Table {
    if write_error(config, t, uid, ino) is Some {
        t
    } else {
        set_bytes(t, ino as int, written(bytes_of(t, ino as int), offset as int, data))
    }
}

/// What `write` replies: the error, or the number of bytes written.
pub open spec fn write_reply(config: Config, t: Table, uid: u32, ino: u64, data: Seq<u8>)
    -> Result<u32, Errno> {
    match write_error(config, t, uid, ino) {
        Some(e) => Err(e),
        None => Ok(data.len() as u32),
    }
}

/// Why `fallocate` fails, if it does: a negative offset and a length that
/// is not positive are `EINVAL`; a mode other than 0 is `EOPNOTSUPP`; a
/// caller who is not the owner is `EACCES`; a directory is `EBADF`; a
/// missing inode is `ENODEV`.
pub open spec fn fallocate_error(
    config: Config,
    t: Table,
    uid: u32,
    ino: u64,
    offset: i64,
    length: i64,
    mode: i32,
) -> Option<Errno> {
    if offset < 0 || length <= 0 {
        Some(Errno::EINVAL)
    } else if mode != 0 {
        Some(Errno::EOPNOTSUPP)
    } else if uid != config.uid {
        Some(Errno::EACCES)
    } else if is_dir(t, ino as int) {
        Some(Errno::EBADF)
    } else if !live(t, ino as int) {
        Some(Errno::ENODEV)
    } else {
        None
    }
}

/// The table after `fallocate`: the file grown with zeros to reach
/// `offset + length`, and never shortened.
pub open spec fn fallocate_table(
    config: Config,
    t: Table,
    uid: u32,
    ino: u64,
    offset: i64,
    length: i64,
    mode: i32,
) -> Table {
    if fallocate_error(config, t, uid, ino, offset, length, mode) is Some {
        t
    } else {
        set_bytes(t, ino as int, grown(bytes_of(t, ino as int), offset + length))
    }
}

/// Why `rename` fails, if it does. A caller who is not the owner is
/// `EACCES`. A name that is no text is `ENOENT`, and so is a new name that
/// is empty or holds `/`; either name being `.` or `..` is `EINVAL`. A
/// source that is not there is `ENOENT`, and so is a new parent that is
/// no directory. A target of another kind than the source is `ENOTDIR`; a
/// target directory with children is `ENOTEMPTY`.
pub open spec fn rename_error(
    config: Config,
    t: Table,
    uid: u32,
    parent: u64,
    name: Option<Seq<char>>,
    newparent: u64,
    newname: Option<Seq<char>>,
) -> Option<Errno> {
    if uid != config.uid {
        Some(Errno::EACCES)
    } else if name is None {
        Some(Errno::ENOENT)
    } else if is_dots(name->0) {
        Some(Errno::EINVAL)
    } else if newname is None || !representable(newname->0) {
        Some(Errno::ENOENT)
    } else if is_dots(newname->0) {
        Some(Errno::EINVAL)
    } else if !is_dir(t, parent as int) || child_named(children_of(t, parent as int), name->0)
        is None {
        Some(Errno::ENOENT)
    } else if !is_dir(t, newparent as int) {
        Some(Errno::ENOENT)
    } else {
        let src = child_named(children_of(t, parent as int), name->0)->0;
        match child_named(children_of(t, newparent as int), newname->0) {
            Some(tgt) => if tgt.kind != src.kind {
                Some(Errno::ENOTDIR)
            } else if tgt.kind == FileKind::Directory && children_of(t, tgt.inum as int).len()
                > 0 {
                Some(Errno::ENOTEMPTY)
            } else {
                None
            },
            None => None,
        }
    }
}

/// The table with the child at index `k` of `parent` moved to `newparent`
/// under `newname`: the entry leaves `parent`, the inode gets `newparent`
/// as its parent, and `newname` is bound to it in `newparent`, in place of
/// what was bound there before.
pub open spec fn moved(t: Table, parent: u64, k: int, newparent: u64, newname: Seq<char>) -> Table {
    let src = children_of(t, parent as int)[k].1;
    put_child(
        set_parent(remove_child(t, parent as int, k), src.inum as int, newparent),
        newparent as int,
        newname,
        src,
    )
}

/// The table after `rename`. Renaming a child to its own name in its own
/// directory changes nothing.
pub open spec fn rename_table(
    config: Config,
    t: Table,
    uid: u32,
    parent: u64,
    name: Option<Seq<char>>,
    newparent: u64,
    newname: Option<Seq<char>>,
) -> Table {
    if rename_error(config, t, uid, parent, name, newparent, newname) is Some {
        t
    } else if parent == newparent && name == newname {
        t
    } else {
        moved(
            t,
            parent,
            position(children_of(t, parent as int), name->0)->0,
            newparent,
            newname->0,
        )
    }
}

/// Moving a child keeps the table well formed.
pub proof fn lemma_moved(t: Table, parent: u64, k: int, newparent: u64, newname: Seq<char>)
    requires
        table_wf(t),
        is_dir(t, parent as int),
        0 <= k < children_of(t, parent as int).len(),
        is_dir(t, newparent as int),
        legal_name(newname),
    ensures
        table_wf(moved(t, parent, k, newparent, newname)),
{
    let src = children_of(t, parent as int)[k].1;
    assert(inode_ok(t, parent as int));
    assert(child_ok(t, parent as int, children_of(t, parent as int)[k]));
    let t1 = remove_child(t, parent as int, k);
    lemma_remove_child(t, parent as int, k);
    lemma_set_parent(t1, src.inum, newparent);
    let t2 = set_parent(t1, src.inum as int, newparent);
    lemma_put_child(t2, newparent as int, newname, src);
}

/// An error, if there is one, as a reply without a value.
pub open spec fn reply_of(error: Option<Errno>) -> Result<(), Errno> {
    match error {
        Some(e) => Err(e),
        None => Ok(()),
    }
}

impl FS {
    /// Removes the child at index `k` from directory `d`.
    fn drop_child(&mut self, d: u64, k: usize)
        requires
            is_dir(old(self)@, d as int),
            k < children_of(old(self)@, d as int).len(),
        ensures
            final(self)@ == remove_child(old(self)@, d as int, k as int),
            final(self).config == old(self).config,
    {
        match self.get_mut(d) {
            Ok(node) => match &mut node.entry {
                Entry::Directory(_, files) => {
                    let ghost before = files@;
                    files.remove(k);
                    assert(children_view(files@) =~= children_view(before).remove(k as int));
                },
                Entry::File(_) => unreached(),
            },
            Err(_) => unreached(),
        }
    }

    /// Binds `name` in directory `d` to `e`, in place of the child of that
    /// name if there is one.
    fn bind_child(&mut self, d: u64, name: String, e: DirEntry)
        requires
            is_dir(old(self)@, d as int),
        ensures
            final(self)@ == put_child(old(self)@, d as int, name@, e),
            final(self).config == old(self).config,
    {
        match self.get_mut(d) {
            Ok(node) => match &mut node.entry {
                Entry::Directory(_, files) => {
                    let ghost before = files@;
                    match find_child(files, &name) {
                        Some(k) => {
                            files[k] = (name, e);
                            assert(children_view(files@) =~= put(children_view(before), name@, e));
                        },
                        None => {
                            files.push((name, e));
                            assert(children_view(files@) =~= put(children_view(before), name@, e));
                        },
                    }
                },
                Entry::File(_) => unreached(),
            },
            Err(_) => unreached(),
        }
    }

    /// Gives inode `s` the parent `p`.
    fn reparent(&mut self, s: u64, p: u64)
        requires
            live(old(self)@, s as int),
        ensures
            final(self)@ == set_parent(old(self)@, s as int, p),
            final(self).config == old(self).config,
    {
        match self.get_mut(s) {
            Ok(node) => {
                node.parent = p;
            },
            Err(_) => unreached(),
        }
    }

    /// Makes a new inode of `kind` and links it into `parent` under `name`.
    fn make(&mut self, parent: u64, name: String, kind: FileKind) -> (r: FileAttr)
        requires
            old(self).wf(),
            create_error(old(self)@, parent, Some(name@)) is None,
        ensures
            final(self).wf(),
            final(self).config == old(self).config,
            final(self)@ == add_child(old(self)@, parent, name@, kind),
            r == attr_of(
                old(self).config,
                InodeView { parent, inum: old(self)@.len() as u64, entry: fresh_entry(kind) },
            ),
    {
        let entry: Entry = match kind {
            FileKind::RegularFile => Entry::File(Vec::new()),
            FileKind::Directory => Entry::Directory(DirType::Named, Vec::new()),
        };
        assert(entry@ == fresh_entry(kind)) by {
            if kind == FileKind::Directory {
                assert(entry@->Directory_1 =~= Seq::empty());
            }
        }
        let ghost name_chars = name@;
        let ghost t0 = self@;
        assert(t0.len() == self.inodes@.len());
        let inum: u64 = self.fresh_inode(parent, entry);
        let slots: usize = self.inodes.len();
        proof {
            assert(self@.len() == slots);
            lemma_push_inode(t0, parent, fresh_entry(kind));
        }
        let ghost t1 = self@;
        self.bind_child(parent, name, DirEntry { kind, inum });
        proof {
            lemma_put_child(t1, parent as int, name_chars, DirEntry { kind, inum });
        }
        match self.get(inum) {
            Ok(node) => self.attr(node),
            Err(_) => unreached(),
        }
    }

    /// Makes a regular file or a directory, as `mode` asks, called `name`
    /// in `parent`, and replies its attributes.
    pub fn mknod(&mut self, uid: u32, parent: u64, name: Option<&str>, mode: u32) -> (r: Result<
        FileAttr,
        Errno,
    >)
        requires
            old(self).wf(),
        ensures
            final(self).wf(),
            final(self).config == old(self).config,
            r == mknod_reply(old(self).config, old(self)@, uid, parent, name_view(name), mode),
            final(self)@ == mknod_table(
                old(self).config,
                old(self)@,
                uid,
                parent,
                name_view(name),
                mode,
            ),
    {
        if !self.check_access(uid) {
            return Err(Errno::EACCES);
        }
        let file_type: u32 = mode & S_IFMT;
        if file_type != S_IFREG && file_type != S_IFDIR {
            return Err(Errno::ENOSYS);
        }
        let filename: String = match self.new_name(parent, name) {
            Err(e) => {
                return Err(e);
            },
            Ok(filename) => filename,
        };
        let kind: FileKind = if file_type == S_IFREG {
            FileKind::RegularFile
        } else {
            FileKind::Directory
        };
        Ok(self.make(parent, filename, kind))
    }

    /// Makes a directory called `name` in `parent` and replies its
    /// attributes. Any mode is accepted.
    pub fn mkdir(&mut self, uid: u32, parent: u64, name: Option<&str>, mode: u32) -> (r: Result<
        FileAttr,
        Errno,
    >)
        requires
            old(self).wf(),
        ensures
            final(self).wf(),
            final(self).config == old(self).config,
            r == mkdir_reply(old(self).config, old(self)@, uid, parent, name_view(name)),
            final(self)@ == mkdir_table(old(self).config, old(self)@, uid, parent, name_view(name)),
    {
        if !self.check_access(uid) {
            return Err(Errno::EACCES);
        }
        let filename: String = match self.new_name(parent, name) {
            Err(e) => {
                return Err(e);
            },
            Ok(filename) => filename,
        };
        Ok(self.make(parent, filename, FileKind::Directory))
    }

    /// Checks that a child called `name` can be made in `parent`, and
    /// hands the name back as an owned string.
    fn new_name(&self, parent: u64, name: Option<&str>) -> (r: Result<String, Errno>)
        ensures
            match r {
                Ok(filename) => create_error(self@, parent, name_view(name)) is None && name_view(
                    name,
                ) == Some(filename@),
                Err(e) => create_error(self@, parent, name_view(name)) == Some(e),
            },
    {
        let filename: String = match name {
            None => {
                return Err(Errno::ENOENT);
            },
            Some(text) => {
                if !is_representable(text) {
                    return Err(Errno::ENOENT);
                }
                text.to_owned()
            },
        };
        match self.get(parent) {
            Err(_) => Err(Errno::ENOENT),
            Ok(node) => match &node.entry {
                Entry::File(_) => Err(Errno::ENOTDIR),
                Entry::Directory(_, files) => {
                    if is_dot_name(&filename) || find_child(files, &filename).is_some() {
                        Err(Errno::EEXIST)
                    } else {
                        Ok(filename)
                    }
                },
            },
        }
    }

    /// Finds the child of `parent` called `name` for removal, or says why
    /// there is nothing to look at: a name that is no text and a missing
    /// parent are `ENOENT`, a parent that is a file is `ENOTDIR`.
    fn locate(&self, parent: u64, name: Option<&str>) -> (r: Result<Option<(usize, DirEntry)>, Errno>)
        ensures
            match r {
                Err(e) => (name is None || !live(self@, parent as int)) && e == Errno::ENOENT || (
                name is Some && live(self@, parent as int) && !is_dir(self@, parent as int) && e
                    == Errno::ENOTDIR),
                Ok(found) => name is Some && is_dir(self@, parent as int) && match found {
                    Some((k, e)) => position(children_of(self@, parent as int), name->0@) == Some(
                        k as int,
                    ) && children_of(self@, parent as int)[k as int].1 == e,
                    None => position(children_of(self@, parent as int), name->0@) is None,
                },
            },
    {
        let filename: String = match name {
            None => {
                return Err(Errno::ENOENT);
            },
            Some(text) => text.to_owned(),
        };
        match self.get(parent) {
            Err(_) => Err(Errno::ENOENT),
            Ok(node) => match &node.entry {
                Entry::File(_) => Err(Errno::ENOTDIR),
                Entry::Directory(_, files) => match find_child(files, &filename) {
                    Some(k) => {
                        let e: DirEntry = files[k].1;
                        assert(children_view(files@)[k as int].1 == e);
                        Ok(Some((k, e)))
                    },
                    None => Ok(None),
                },
            },
        }
    }

    /// Removes the regular file called `name` from `parent`.
    pub fn unlink(&mut self, uid: u32, parent: u64, name: Option<&str>) -> (r: Result<(), Errno>)
        requires
            old(self).wf(),
        ensures
            final(self).wf(),
            final(self).config == old(self).config,
            r == reply_of(
                unlink_error(old(self).config, old(self)@, uid, parent, name_view(name)),
            ),
            final(self)@ == unlink_table(
                old(self).config,
                old(self)@,
                uid,
                parent,
                name_view(name),
            ),
    {
        if !self.check_access(uid) {
            return Err(Errno::EACCES);
        }
        let k: usize = match self.locate(parent, name) {
            Err(e) => {
                return Err(e);
            },
            Ok(Some((k, e))) => {
                if e.kind != FileKind::RegularFile {
                    return Err(Errno::EPERM);
                }
                k
            },
            Ok(None) => {
                return Err(Errno::EPERM);
            },
        };
        proof {
            lemma_remove_child(self@, parent as int, k as int);
        }
        self.drop_child(parent, k);
        Ok(())
    }

    /// Removes the empty directory called `name` from `parent`.
    pub fn rmdir(&mut self, uid: u32, parent: u64, name: Option<&str>) -> (r: Result<(), Errno>)
        requires
            old(self).wf(),
        ensures
            final(self).wf(),
            final(self).config == old(self).config,
            r == reply_of(rmdir_error(old(self).config, old(self)@, uid, parent, name_view(name))),
            final(self)@ == rmdir_table(old(self).config, old(self)@, uid, parent, name_view(name)),
    {
        if !self.check_access(uid) {
            return Err(Errno::EACCES);
        }
        let (k, inum): (usize, u64) = match self.locate(parent, name) {
            Err(e) => {
                return Err(e);
            },
            Ok(Some((k, e))) => {
                if e.kind != FileKind::Directory {
                    return Err(Errno::ENOTDIR);
                }
                (k, e.inum)
            },
            Ok(None) => {
                return Err(Errno::ENOENT);
            },
        };
        proof {
            assert(inode_ok(self@, parent as int));
            assert(child_ok(self@, parent as int, children_of(self@, parent as int)[k as int]));
        }
        match self.get(inum) {
            Ok(node) => match &node.entry {
                Entry::Directory(_, files) => {
                    if !files.is_empty() {
                        return Err(Errno::ENOTEMPTY);
                    }
                },
                Entry::File(_) => unreached(),
            },
            Err(_) => unreached(),
        }
        proof {
            lemma_remove_child(self@, parent as int, k as int);
        }
        self.drop_child(parent, k);
        Ok(())
    }

    /// Grows file `ino` with zeros to `len` bytes, if it is shorter.
    fn grow(&mut self, ino: u64, len: usize)
        requires
            is_file(old(self)@, ino as int),
        ensures
            final(self)@ == set_bytes(
                old(self)@,
                ino as int,
                grown(bytes_of(old(self)@, ino as int), len as int),
            ),
            final(self).config == old(self).config,
    {
        match self.get_mut(ino) {
            Ok(node) => match &mut node.entry {
                Entry::File(contents) => {
                    let ghost before = contents@;
                    if contents.len() < len {
                        contents.resize(len, 0u8);
                    }
                    assert(contents@ =~= grown(before, len as int));
                },
                Entry::Directory(..) => unreached(),
            },
            Err(_) => unreached(),
        }
    }

    /// Copies `data` into file `ino` at `offset`, over what is there.
    fn copy_in(&mut self, ino: u64, offset: usize, data: &[u8])
        requires
            is_file(old(self)@, ino as int),
            offset + data@.len() <= bytes_of(old(self)@, ino as int).len(),
        ensures
            final(self)@ == set_bytes(
                old(self)@,
                ino as int,
                written(bytes_of(old(self)@, ino as int), offset as int, data@),
            ),
            final(self).config == old(self).config,
    {
        match self.get_mut(ino) {
            Ok(node) => match &mut node.entry {
                Entry::File(contents) => {
                    let ghost before = contents@;
                    assert(before.len() == contents.len());
                    let mut j: usize = 0;
                    while j < data.len()
                        invariant
                            j <= data@.len(),
                            offset + data@.len() <= before.len() <= usize::MAX,
                            contents@.len() == before.len(),
                            forall|i: int|
                                0 <= i < before.len() ==> contents@[i] == if offset <= i < offset
                                    + j {
                                    data@[i - offset]
                                } else {
                                    before[i]
                                },
                        decreases data@.len() - j,
                    {
                        contents[offset + j] = data[j];
                        j += 1;
                    }
                    assert(contents@ =~= written(before, offset as int, data@));
                },
                Entry::Directory(..) => unreached(),
            },
            Err(_) => unreached(),
        }
    }

    /// Writes `data` into file `ino` at `offset`, growing the file with
    /// zeros where the data reaches past its end, and replies how many bytes
    /// were written.
    pub fn write(&mut self, uid: u32, ino: u64, offset: i64, data: &[u8]) -> (r: Result<u32, Errno>)
        requires
            old(self).wf(),
            offset >= 0,
            offset + data@.len() <= usize::MAX,
            data@.len() <= u32::MAX,
        ensures
            final(self).wf(),
            final(self).config == old(self).config,
            r == write_reply(old(self).config, old(self)@, uid, ino, data@),
            final(self)@ == write_table(old(self).config, old(self)@, uid, ino, offset, data@),
    {
        if !self.check_access(uid) {
            return Err(Errno::EACCES);
        }
        match self.get(ino) {
            Err(_) => {
                return Err(Errno::ENOENT);
            },
            Ok(node) => match &node.entry {
                Entry::File(_) => {},
                Entry::Directory(..) => {
                    return Err(Errno::EISDIR);
                },
            },
        }
        let ghost t0 = self@;
        let ghost before = bytes_of(t0, ino as int);
        let start: usize = offset as usize;
        self.grow(ino, start + data.len());
        let ghost t1 = self@;
        self.copy_in(ino, start, data);
        proof {
            let room = grown(before, start + data@.len());
            assert(written(room, start as int, data@) =~= written(before, start as int, data@));
            assert(self@ =~= set_bytes(t0, ino as int, written(before, start as int, data@)));
            lemma_set_bytes(t0, ino as int, written(before, start as int, data@));
        }
        Ok(data.len() as u32)
    }

    /// Grows file `ino` with zeros to reach `offset + length`.
    pub fn fallocate(&mut self, uid: u32, ino: u64, offset: i64, length: i64, mode: i32) -> (r:
        Result<(), Errno>)
        requires
            old(self).wf(),
            offset >= 0 && length > 0 ==> offset + length <= usize::MAX,
        ensures
            final(self).wf(),
            final(self).config == old(self).config,
            r == reply_of(
                fallocate_error(old(self).config, old(self)@, uid, ino, offset, length, mode),
            ),
            final(self)@ == fallocate_table(
                old(self).config,
                old(self)@,
                uid,
                ino,
                offset,
                length,
                mode,
            ),
    {
        if offset < 0 || length <= 0 {
            return Err(Errno::EINVAL);
        }
        if mode != 0 {
            return Err(Errno::EOPNOTSUPP);
        }
        if !self.check_access(uid) {
            return Err(Errno::EACCES);
        }
        match self.get(ino) {
            Ok(node) => match &node.entry {
                Entry::File(_) => {},
                Entry::Directory(..) => {
                    return Err(Errno::EBADF);
                },
            },
            Err(_) => {
                return Err(Errno::ENODEV);
            },
        }
        proof {
            lemma_set_bytes(
                self@,
                ino as int,
                grown(bytes_of(self@, ino as int), offset + length),
            );
        }
        let end: usize = (offset as u64 + length as u64) as usize;
        self.grow(ino, end);
        Ok(())
    }

    /// Moves the child of `parent` called `name` to `newparent` under
    /// `newname`, in place of what is called so there. The flags play no
    /// part.
    pub fn rename(
        &mut self,
        uid: u32,
        parent: u64,
        name: Option<&str>,
        newparent: u64,
        newname: Option<&str>,
        flags: u32,
    ) -> (r: Result<(), Errno>)
        requires
            old(self).wf(),
        ensures
            final(self).wf(),
            final(self).config == old(self).config,
            r == reply_of(
                rename_error(
                    old(self).config,
                    old(self)@,
                    uid,
                    parent,
                    name_view(name),
                    newparent,
                    name_view(newname),
                ),
            ),
            final(self)@ == rename_table(
                old(self).config,
                old(self)@,
                uid,
                parent,
                name_view(name),
                newparent,
                name_view(newname),
            ),
    {
        if !self.check_access(uid) {
            return Err(Errno::EACCES);
        }
        let src: String = match name {
            None => {
                return Err(Errno::ENOENT);
            },
            Some(text) => text.to_owned(),
        };
        if is_dot_name(&src) {
            return Err(Errno::EINVAL);
        }
        let tgt: String = match newname {
            None => {
                return Err(Errno::ENOENT);
            },
            Some(text) => {
                if !is_representable(text) {
                    return Err(Errno::ENOENT);
                }
                text.to_owned()
            },
        };
        if is_dot_name(&tgt) {
            return Err(Errno::EINVAL);
        }
        let (k, moving): (usize, DirEntry) = match self.locate(parent, name) {
            Ok(Some(found)) => found,
            _ => {
                return Err(Errno::ENOENT);
            },
        };
        let target: Option<DirEntry> = match self.locate(newparent, newname) {
            Ok(Some((_, e))) => {
                if moving.kind != e.kind {
                    return Err(Errno::ENOTDIR);
                }
                Some(e)
            },
            Ok(None) => None,
            Err(_) => {
                return Err(Errno::ENOENT);
            },
        };
        if let Some(e) = target {
            if e.kind == FileKind::Directory {
                proof {
                    let j = position(children_of(self@, newparent as int), tgt@)->0;
                    assert(inode_ok(self@, newparent as int));
                    assert(child_ok(self@, newparent as int, children_of(self@, newparent as int)[j]));
                }
                match self.get(e.inum) {
                    Ok(node) => match &node.entry {
                        Entry::Directory(_, files) => {
                            if !files.is_empty() {
                                return Err(Errno::ENOTEMPTY);
                            }
                        },
                        Entry::File(_) => unreached(),
                    },
                    Err(_) => unreached(),
                }
            }
        }
        if parent == newparent && src == tgt {
            return Ok(());
        }
        proof {
            lemma_moved(self@, parent, k as int, newparent, tgt@);
            assert(inode_ok(self@, parent as int));
            assert(child_ok(self@, parent as int, children_of(self@, parent as int)[k as int]));
        }
        self.drop_child(parent, k);
        self.reparent(moving.inum, newparent);
        self.bind_child(newparent, tgt, moving);
        Ok(())
    }
}

} // verus!
