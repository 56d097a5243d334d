//! What holds of every well-formed table and of the operations together.

use crate::changes::{push_inode, remove_child};
use crate::config::Config;
use crate::errno::Errno;
use crate::fs::{
    attr_of, bytes_of, child_named, child_ok, children_of, entry_kind, inode_ok, is_dir, is_file,
    legal_name, lemma_position, lemma_position_none, position, spec_get, table_wf, DirEntry,
    FSError, FileKind, InodeView, Table,
};
use crate::mutate::{
    fallocate_error, fresh_entry, grown, is_dots, mkdir_error, mkdir_table, mknod_error,
    rename_error, rename_table, rmdir_error, rmdir_table, written, write_error, write_table,
    S_IFDIR, S_IFMT, S_IFREG,
};
use crate::ops::read_reply;
use vstd::prelude::*;

verus! {

/// Every child entry of a live directory refers to an inode that `get`
/// finds, whose parent is that directory and whose kind is the one recorded.
pub proof fn law_child_entries_are_sound(t: Table, holder: u64, k: int)
    requires
        table_wf(t),
        is_dir(t, holder as int),
        0 <= k < children_of(t, holder as int).len(),
    ensures
        spec_get(t, children_of(t, holder as int)[k].1.inum) is Ok,
        spec_get(t, children_of(t, holder as int)[k].1.inum)->Ok_0.parent == holder,
        entry_kind(spec_get(t, children_of(t, holder as int)[k].1.inum)->Ok_0.entry)
            == children_of(t, holder as int)[k].1.kind,
        legal_name(children_of(t, holder as int)[k].0),
{
    assert(inode_ok(t, holder as int));
    assert(child_ok(t, holder as int, children_of(t, holder as int)[k]));
}

/// No two children of a live directory share a name: a name finds the one
/// child that has it.
pub proof fn law_child_names_are_distinct(t: Table, holder: u64, j: int, k: int)
    requires
        table_wf(t),
        is_dir(t, holder as int),
        0 <= j < children_of(t, holder as int).len(),
        0 <= k < children_of(t, holder as int).len(),
        j != k,
    ensures
        children_of(t, holder as int)[j].0 != children_of(t, holder as int)[k].0,
        child_named(children_of(t, holder as int), children_of(t, holder as int)[k].0) == Some(
            children_of(t, holder as int)[k].1,
        ),
{
    let c = children_of(t, holder as int);
    assert(inode_ok(t, holder as int));
    if j < k {
        assert(c[j].0 != c[k].0);
    } else {
        assert(c[k].0 != c[j].0);
    }
    lemma_position(c, k);
}

/// The attributes of the inode found under a number carry that number.
pub proof fn law_attr_carries_inum(config: Config, t: Table, inum: u64)
    requires
        table_wf(t),
        spec_get(t, inum) is Ok,
    ensures
        attr_of(config, spec_get(t, inum)->Ok_0).ino == inum,
{
    assert(inode_ok(t, inum as int));
}

/// The root is there, is a directory, and is its own parent; inode 0 is
/// never there.
pub proof fn law_root(t: Table)
    requires
        table_wf(t),
    ensures
        spec_get(t, 1) is Ok,
        spec_get(t, 1)->Ok_0.parent == 1,
        spec_get(t, 1)->Ok_0.entry is Directory,
        spec_get(t, 0) == Err::<InodeView, FSError>(FSError::InvalidInode(0)),
{
}

/// After a `mkdir` that succeeds, `rmdir` of the same name in the same
/// parent succeeds and leaves the parent with the children it had before
/// the two; the table is the first one with the new inode left in its slot.
pub proof fn law_mkdir_then_rmdir(
    config: Config,
    t: Table,
    uid: u32,
    parent: u64,
    name: Option<Seq<char>>,
)
    requires
        table_wf(t),
        t.len() < u64::MAX,
        mkdir_error(config, t, uid, parent, name) is None,
    ensures
        rmdir_error(config, mkdir_table(config, t, uid, parent, name), uid, parent, name) is None,
        children_of(
            rmdir_table(config, mkdir_table(config, t, uid, parent, name), uid, parent, name),
            parent as int,
        ) == children_of(t, parent as int),
        rmdir_table(config, mkdir_table(config, t, uid, parent, name), uid, parent, name)
            == push_inode(t, parent, fresh_entry(FileKind::Directory)),
{
    let c = children_of(t, parent as int);
    let t0 = push_inode(t, parent, fresh_entry(FileKind::Directory));
    let t1 = mkdir_table(config, t, uid, parent, name);
    let e = DirEntry { kind: FileKind::Directory, inum: t.len() as u64 };
    lemma_position_none(c, name->0);
    assert(children_of(t0, parent as int) == c);
    let c1 = children_of(t1, parent as int);
    assert(c1 == c.push((name->0, e)));
    assert forall|j: int| 0 <= j < c.len() implies (#[trigger] c1[j]).0 != name->0 by {
        assert(c1[j] == c[j]);
    }
    crate::fs::lemma_position_first(c1, name->0, c.len() as int);
    assert(children_of(t1, e.inum as int) =~= Seq::empty());
    let t2 = rmdir_table(config, t1, uid, parent, name);
    assert(t2 == remove_child(t1, parent as int, c.len() as int));
    assert(c1.remove(c.len() as int) =~= c);
    assert(t2 =~= t0);
}

/// Renaming a child to its own name in its own directory never changes
/// the table, and succeeds if the caller is the owner and the child is
/// there and is not a directory with children.
pub proof fn law_rename_to_itself(
    config: Config,
    t: Table,
    uid: u32,
    parent: u64,
    name: Option<Seq<char>>,
)
    requires
        table_wf(t),
    ensures
        rename_table(config, t, uid, parent, name, parent, name) == t,
        (uid == config.uid && name is Some && is_dir(t, parent as int) && (child_named(
            children_of(t, parent as int),
            name->0,
        ) matches Some(e) && !(e.kind == FileKind::Directory && children_of(
            t,
            e.inum as int,
        ).len() > 0))) ==> rename_error(config, t, uid, parent, name, parent, name) is None,
{
    if uid == config.uid && name is Some && is_dir(t, parent as int) && child_named(
        children_of(t, parent as int),
        name->0,
    ) is Some {
        let c = children_of(t, parent as int);
        lemma_position_none(c, name->0);
        let k = position(c, name->0)->0;
        assert(inode_ok(t, parent as int));
        assert(child_ok(t, parent as int, c[k]));
    }
}

/// Growing twice to one length is growing once.
pub proof fn lemma_written_twice(bytes: Seq<u8>, offset: int, data: Seq<u8>)
    requires
        0 <= offset,
    ensures
        written(written(bytes, offset, data), offset, data) == written(bytes, offset, data),
{
    let once = written(bytes, offset, data);
    assert(grown(once, offset + data.len()) == once);
    assert(written(once, offset, data) =~= once);
}

/// Writing the same bytes at the same offset a second time leaves the
/// table as the first write left it.
pub proof fn law_write_twice(
    config: Config,
    t: Table,
    uid: u32,
    ino: u64,
    offset: i64,
    data: Seq<u8>,
)
    requires
        offset >= 0,
    ensures
        write_table(
            config,
            write_table(config, t, uid, ino, offset, data),
            uid,
            ino,
            offset,
            data,
        ) == write_table(config, t, uid, ino, offset, data),
{
    if write_error(config, t, uid, ino) is None {
        let t1 = write_table(config, t, uid, ino, offset, data);
        lemma_written_twice(bytes_of(t, ino as int), offset as int, data);
        assert(write_table(config, t1, uid, ino, offset, data) =~= t1);
    }
}

/// Reading a file at or past its end replies no bytes, and no error.
pub proof fn law_read_past_end(t: Table, ino: u64, offset: i64)
    requires
        is_file(t, ino as int),
        offset >= bytes_of(t, ino as int).len(),
    ensures
        read_reply(t, ino, offset) == Ok::<Seq<u8>, Errno>(Seq::empty()),
{
}

/// `fallocate` of no bytes is `EINVAL`, whoever asks and whatever the
/// inode.
pub proof fn law_fallocate_nothing(
    config: Config,
    t: Table,
    uid: u32,
    ino: u64,
    offset: i64,
    mode: i32,
)
    ensures
        fallocate_error(config, t, uid, ino, offset, 0, mode) == Some(Errno::EINVAL),
{
}

/// For the owner, `mknod` with a mode that asks for neither a regular file
/// nor a directory is `ENOSYS`, whatever the parent and the name.
pub proof fn law_mknod_other_kinds(
    config: Config,
    t: Table,
    parent: u64,
    name: Option<Seq<char>>,
    mode: u32,
)
    requires
        mode & S_IFMT != S_IFREG,
        mode & S_IFMT != S_IFDIR,
    ensures
        mknod_error(config, t, config.uid, parent, name, mode) == Some(Errno::ENOSYS),
{
}

/// For the owner, `rename` of `.` or `..`, or to `.` or `..` from a name
/// that is text, is `EINVAL`.
pub proof fn law_rename_dots(
    config: Config,
    t: Table,
    parent: u64,
    name: Seq<char>,
    newparent: u64,
    newname: Option<Seq<char>>,
)
    requires
        is_dots(name) || (newname is Some && is_dots(newname->0)),
    ensures
        rename_error(config, t, config.uid, parent, Some(name), newparent, newname) == Some(
            Errno::EINVAL,
        ),
{
    if !is_dots(name) {
        assert(newname->0.len() > 0);
        assert(!newname->0.contains('/')) by {
            if newname->0.contains('/') {
                let i = choose|i: int| 0 <= i < newname->0.len() && newname->0[i] == '/';
                assert(newname->0[i] == '/');
            }
        }
    }
}

} // verus!
