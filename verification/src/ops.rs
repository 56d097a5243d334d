//! The operations that only read the table: lookup, attributes, access,
//! reading a file and listing a directory.
//!
//! Each operation is addressed by inode number. What it replies is given
//! by a spec function over the table's view; the executable function
//! returns exactly that.

use crate::config::Config;
use crate::errno::Errno;
use crate::fs::{
    attr_of, bytes_of, child_named, children_of, children_view, dot, dotdot, find_child,
    inode_ok, is_dir, is_file, live, DirEntry, Entry, FileAttr, FileKind, Inode, Table, FS,
};
use crate::names::name_view;
use vstd::prelude::*;

verus! {

/// The access mask that only asks whether the file exists.
pub const F_OK: i32 = 0;

/// The access mask bit for execution.
pub const X_OK: i32 = 1;

/// What a filesystem reports of itself.
#[derive(Clone, Copy, Debug, PartialEq, Eq, Structural)]
pub struct StatFs {
    pub blocks: u64,
    pub bfree: u64,
    pub bavail: u64,
    pub files: u64,
    pub ffree: u64,
    pub bsize: u32,
    pub namelen: u32,
    pub frsize: u32,
}

/// One line of a directory listing.
#[derive(Clone, Debug, PartialEq, Eq)]
pub struct Listed {
    /// The inode that the line is about.
    pub inum: u64,
    /// The offset from which a later listing goes on after this line.
    pub offset: i64,
    pub kind: FileKind,
    pub name: String,
}

/// The mathematical value of a [`Listed`].
pub struct ListedView {
    pub inum: u64,
    pub offset: i64,
    pub kind: FileKind,
    pub name: Seq<char>,
}

impl View for Listed {
    type V = ListedView;

    open spec fn view(&self) -> ListedView {
        ListedView { inum: self.inum, offset: self.offset, kind: self.kind, name: self.name@ }
    }
}

/// The mathematical value of a listing.
pub open spec fn listed_view(lines: Seq<Listed>) -> Seq<ListedView> {
    Seq::new(lines.len(), |i: int| lines[i]@)
}

/// What `lookup` replies: the attributes of the child of `parent` called
/// `name`. A missing parent, a name that is no text, and a missing child
/// are `ENOENT`; a parent that is a file is `ENOTDIR`.
pub open spec fn lookup_reply(config: Config, t: Table, parent: u64, name: Option<Seq<char>>)
    -> Result<FileAttr, Errno> {
    if !live(t, parent as int) {
        Err(Errno::ENOENT)
    } else if name is None {
        Err(Errno::ENOENT)
    } else if !is_dir(t, parent as int) {
        Err(Errno::ENOTDIR)
    } else {
        match child_named(children_of(t, parent as int), name->0) {
            None => Err(Errno::ENOENT),
            Some(e) => if live(t, e.inum as int) {
                Ok(attr_of(config, t[e.inum as int]->0))
            } else {
                Err(Errno::ENOENT)
            },
        }
    }
}

/// What `getattr` replies: the inode's attributes, or `ENOENT`.
pub open spec fn getattr_reply(config: Config, t: Table, ino: u64) -> Result<FileAttr, Errno> {
    if live(t, ino as int) {
        Ok(attr_of(config, t[ino as int]->0))
    } else {
        Err(Errno::ENOENT)
    }
}

/// The bits of `mask` that the permission bits `perm` do not grant to the
/// caller. The superuser is only ever held to the execute bit, which any of
/// the three triads grants; the owner is held to the owner's triad, a
/// member of the group to the group's, anyone else to the last.
pub open spec fn unmet(config: Config, uid: u32, gid: u32, perm: u16, mask: i32) -> i32 {
    let owner: i32 = (perm >> 6u16) as i32;
    let group: i32 = (perm >> 3u16) as i32;
    let other: i32 = perm as i32;
    if uid == 0 {
        mask & X_OK & !owner & !group & !other
    } else if uid == config.uid {
        mask & !owner
    } else if gid == config.gid {
        mask & !group
    } else {
        mask & !other
    }
}

/// What `access` replies: `ENOENT` for a missing inode; for the mask
/// `F_OK` success; otherwise success when no requested bit is unmet, and
/// `EACCES` when one is.
pub open spec fn access_reply(config: Config, t: Table, uid: u32, gid: u32, ino: u64, mask: i32)
    -> Result<(), Errno> {
    if !live(t, ino as int) {
        Err(Errno::ENOENT)
    } else if mask == F_OK {
        Ok(())
    } else if unmet(config, uid, gid, attr_of(config, t[ino as int]->0).perm, mask) == 0 {
        Ok(())
    } else {
        Err(Errno::EACCES)
    }
}

/// What `read` replies: the file's bytes from `offset` on, none if the
/// offset is at or past the end. Anything but a regular file is `ENOENT`.
pub open spec fn read_reply(t: Table, ino: u64, offset: i64) -> Result<Seq<u8>, Errno> {
    if !is_file(t, ino as int) {
        Err(Errno::ENOENT)
    } else {
        let bytes = bytes_of(t, ino as int);
        if offset >= bytes.len() {
            Ok(Seq::empty())
        } else {
            Ok(bytes.subrange(offset as int, bytes.len() as int))
        }
    }
}

/// The complete listing of directory `ino`: itself as `.`, its parent as
/// `..`, then its children in the order kept. The line at index `i` has
/// offset `i + 1`.
pub open spec fn listing(t: Table, ino: u64) -> Seq<ListedView> {
    let node = t[ino as int]->0;
    let c = children_of(t, ino as int);
    Seq::new(
        c.len() + 2,
        |i: int|
            if i == 0 {
                ListedView { inum: ino, offset: 1, kind: FileKind::Directory, name: dot() }
            } else if i == 1 {
                ListedView {
                    inum: node.parent,
                    offset: 2,
                    kind: FileKind::Directory,
                    name: dotdot(),
                }
            } else {
                ListedView {
                    inum: c[i - 2].1.inum,
                    offset: (i + 1) as i64,
                    kind: c[i - 2].1.kind,
                    name: c[i - 2].0,
                }
            },
    )
}

/// What `readdir` replies: the listing without its first `offset` lines
/// (nothing for a negative offset). A missing inode is `ENOENT`, a file is
/// `ENOTDIR`.
pub open spec fn readdir_reply(t: Table, ino: u64, offset: i64) -> Result<Seq<ListedView>, Errno> {
    if !live(t, ino as int) {
        Err(Errno::ENOENT)
    } else if !is_dir(t, ino as int) {
        Err(Errno::ENOTDIR)
    } else {
        let all = listing(t, ino);
        if 0 <= offset <= all.len() {
            Ok(all.skip(offset as int))
        } else {
            Ok(Seq::empty())
        }
    }
}

/// The listing's offsets fit: the directory has at most `i64::MAX - 2`
/// children.
pub open spec fn listing_fits(t: Table, ino: u64) -> bool {
    is_dir(t, ino as int) ==> children_of(t, ino as int).len() + 2 <= i64::MAX
}

impl FS {
    /// Reports zero totals, a block size of 1 and names of up to 255 bytes.
    pub fn statfs(&self) -> (r: StatFs)
        ensures
            r == (StatFs {
                blocks: 0,
                bfree: 0,
                bavail: 0,
                files: 0,
                ffree: 0,
                bsize: 1,
                namelen: 255,
                frsize: 0,
            }),
    {
        StatFs {
            blocks: 0,
            bfree: 0,
            bavail: 0,
            files: 0,
            ffree: 0,
            bsize: 1,
            namelen: 255,
            frsize: 0,
        }
    }

    /// Replies whether the caller may access inode `ino` in the ways that
    /// `mask` asks for.
    pub fn access(&self, uid: u32, gid: u32, ino: u64, mask: i32) -> (r: Result<(), Errno>)
        ensures
            r == access_reply(self.config, self@, uid, gid, ino, mask),
    {
        match self.get(ino) {
            Ok(node) => {
                if mask == F_OK {
                    return Ok(());
                }
                let attr: FileAttr = self.attr(node);
                let owner: i32 = (attr.perm >> 6u16) as i32;
                let group: i32 = (attr.perm >> 3u16) as i32;
                let other: i32 = attr.perm as i32;
                let rest: i32 = if uid == 0 {
                    mask & X_OK & !owner & !group & !other
                } else if uid == self.config.uid {
                    mask & !owner
                } else if gid == self.config.gid {
                    mask & !group
                } else {
                    mask & !other
                };
                if rest == 0 {
                    Ok(())
                } else {
                    Err(Errno::EACCES)
                }
            },
            Err(_) => Err(Errno::ENOENT),
        }
    }

    /// Replies the attributes of the child of `parent` called `name`.
    pub fn lookup(&self, parent: u64, name: Option<&str>) -> (r: Result<FileAttr, Errno>)
        ensures
            r == lookup_reply(self.config, self@, parent, name_view(name)),
    {
        let dir: &Inode = match self.get(parent) {
            Err(_) => {
                return Err(Errno::ENOENT);
            },
            Ok(node) => node,
        };
        let filename: String = match name {
            None => {
                return Err(Errno::ENOENT);
            },
            Some(text) => text.to_owned(),
        };
        match &dir.entry {
            Entry::Directory(_, files) => match find_child(files, &filename) {
                None => Err(Errno::ENOENT),
                Some(k) => {
                    let found: DirEntry = files[k].1;
                    assert(children_view(files@)[k as int].1 == found);
                    match self.get(found.inum) {
                        Err(_) => Err(Errno::ENOENT),
                        Ok(file) => Ok(self.attr(file)),
                    }
                },
            },
            Entry::File(_) => Err(Errno::ENOTDIR),
        }
    }

    /// Replies the attributes of inode `ino`. In a well-formed table they
    /// carry that number.
    pub fn getattr(&self, ino: u64) -> (r: Result<FileAttr, Errno>)
        ensures
            r == getattr_reply(self.config, self@, ino),
            self.wf() && r is Ok ==> r->Ok_0.ino == ino,
    {
        proof {
            if self.wf() && live(self@, ino as int) {
                assert(inode_ok(self@, ino as int));
            }
        }
        match self.get(ino) {
            Err(_) => Err(Errno::ENOENT),
            Ok(node) => Ok(self.attr(node)),
        }
    }

    /// Replies the bytes of file `ino` from `offset` on. The number of
    /// bytes asked for does not limit the reply.
    pub fn read(&self, ino: u64, offset: i64, size: u32) -> (r: Result<&[u8], Errno>)
        requires
            offset >= 0,
        ensures
            match r {
                Ok(data) => read_reply(self@, ino, offset) == Ok::<Seq<u8>, Errno>(data@),
                Err(e) => read_reply(self@, ino, offset) == Err::<Seq<u8>, Errno>(e),
            },
    {
        let file: &Inode = match self.get(ino) {
            Err(_) => {
                return Err(Errno::ENOENT);
            },
            Ok(node) => node,
        };
        match &file.entry {
            Entry::File(bytes) => {
                let all: &[u8] = bytes.as_slice();
                let from: usize = if offset as u64 >= all.len() as u64 {
                    all.len()
                } else {
                    offset as usize
                };
                let data: &[u8] = &all[from..all.len()];
                assert(data@ =~= read_reply(self@, ino, offset)->Ok_0);
                Ok(data)
            },
            Entry::Directory(..) => Err(Errno::ENOENT),
        }
    }

    /// Replies the listing of directory `ino` from line `offset` on.
    pub fn readdir(&self, ino: u64, offset: i64) -> (r: Result<Vec<Listed>, Errno>)
        requires
            listing_fits(self@, ino),
        ensures
            match r {
                Ok(lines) => readdir_reply(self@, ino, offset) == Ok::<Seq<ListedView>, Errno>(
                    listed_view(lines@),
                ),
                Err(e) => readdir_reply(self@, ino, offset) == Err::<Seq<ListedView>, Errno>(e),
            },
    {
        let node: &Inode = match self.get(ino) {
            Err(_) => {
                return Err(Errno::ENOENT);
            },
            Ok(node) => node,
        };
        match &node.entry {
            Entry::File(_) => Err(Errno::ENOTDIR),
            Entry::Directory(_, files) => {
                let ghost all = listing(self@, ino);
                let ghost c = children_view(files@);
                let mut lines: Vec<Listed> = Vec::new();
                if offset < 0 || offset as u64 > files.len() as u64 + 2 {
                    assert(listed_view(lines@) =~= Seq::<ListedView>::empty());
                    return Ok(lines);
                }
                proof {
                    reveal_strlit(".");
                    reveal_strlit("..");
                }
                if offset == 0 {
                    let name: String = ".".to_owned();
                    assert(name@ =~= dot());
                    lines.push(Listed { inum: ino, offset: 1, kind: FileKind::Directory, name });
                }
                if offset <= 1 {
                    let name: String = "..".to_owned();
                    assert(name@ =~= dotdot());
                    lines.push(
                        Listed {
                            inum: node.parent,
                            offset: 2,
                            kind: FileKind::Directory,
                            name,
                        },
                    );
                }
                let mut k: usize = if offset <= 2 {
                    0
                } else {
                    (offset - 2) as usize
                };
                let ghost first: int = offset as int;
                while k < files.len()
                    invariant
                        k <= files.len(),
                        c == children_view(files@),
                        c == children_of(self@, ino as int),
                        all == listing(self@, ino),
                        c.len() + 2 <= i64::MAX,
                        0 <= first <= k + 2,
                        first == offset,
                        lines@.len() == k + 2 - first,
                        forall|i: int|
                            0 <= i < lines@.len() ==> (#[trigger] lines@[i])@ == all[first + i],
                    decreases files.len() - k,
                {
                    let line: Listed = Listed {
                        inum: files[k].1.inum,
                        offset: (k as u64 + 3) as i64,
                        kind: files[k].1.kind,
                        name: files[k].0.clone(),
                    };
                    assert(c[k as int] == (files@[k as int].0@, files@[k as int].1));
                    assert(line@ == all[k + 2]);
                    lines.push(line);
                    k += 1;
                }
                assert(listed_view(lines@) =~= all.skip(first));
                Ok(lines)
            },
        }
    }

    /// Always `ENOSYS`: a file is made by `mknod` and then opened.
    pub fn create(&self) -> (r: Result<FileAttr, Errno>)
        ensures
            r == Err::<FileAttr, Errno>(Errno::ENOSYS),
    {
        Err(Errno::ENOSYS)
    }

    /// Always `ENOSYS`: sizes, times and modes are not changed this way.
    pub fn setattr(&self) -> (r: Result<FileAttr, Errno>)
        ensures
            r == Err::<FileAttr, Errno>(Errno::ENOSYS),
    {
        Err(Errno::ENOSYS)
    }
}

} // verus!
