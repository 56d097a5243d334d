//! The inode store: a table of optional inodes indexed by inode number.
//!
//! Inode 0 is never live and inode 1 is the root directory. A directory
//! holds its children in the order in which they were added; each child
//! refers to its inode by number, never by reference.

use crate::config::Config;
use std::time::SystemTime;
use vstd::prelude::*;
use vstd::utf8::encode_utf8;

verus! {

/// The root directory's inode number.
pub const ROOT_INUM: u64 = 1;

/// What kind of file an inode is.
#[derive(Clone, Copy, Debug, PartialEq, Eq, Structural)]
pub enum FileKind {
    RegularFile,
    Directory,
}

/// Whether a directory's children are named by field or by index.
#[derive(Clone, Copy, Debug, PartialEq, Eq, Structural)]
pub enum DirType {
    Named,
    List,
}

/// What a directory records of one child.
#[derive(Clone, Copy, Debug, PartialEq, Eq, Structural)]
pub struct DirEntry {
    pub kind: FileKind,
    pub inum: u64,
}

/// A file's bytes, or a directory's flavour and children.
#[derive(Clone, Debug, PartialEq, Eq)]
pub enum Entry {
    File(Vec<u8>),
    Directory(DirType, Vec<(String, DirEntry)>),
}

/// One node of the tree.
#[derive(Clone, Debug, PartialEq, Eq)]
pub struct Inode {
    pub parent: u64,
    pub inum: u64,
    pub entry: Entry,
}

/// The filesystem: the inode table and the configuration it was built with.
#[derive(Debug)]
pub struct FS {
    /// The inodes; the index is the inode number.
    pub inodes: Vec<Option<Inode>>,
    /// Determines attributes and names.
    pub config: Config,
}

/// Why the table has no inode for a number.
#[derive(Clone, Copy, Debug, PartialEq, Eq, Structural)]
pub enum FSError {
    /// The number is past the end of the table.
    NoSuchInode(u64),
    /// The slot is empty.
    InvalidInode(u64),
}

/// The attributes reported for an inode.
#[derive(Clone, Copy, Debug, PartialEq, Eq)]
pub struct FileAttr {
    pub ino: u64,
    pub size: u64,
    pub blocks: u64,
    pub atime: SystemTime,
    pub mtime: SystemTime,
    pub ctime: SystemTime,
    pub crtime: SystemTime,
    pub kind: FileKind,
    pub perm: u16,
    pub nlink: u32,
    pub uid: u32,
    pub gid: u32,
    pub rdev: u32,
    pub blksize: u32,
    pub flags: u32,
}

/// A directory's children as (name, entry) pairs, in the order kept.
pub type Children = Seq<(Seq<char>, DirEntry)>;

/// The mathematical value of an [`Entry`].
pub enum EntryView {
    File(Seq<u8>),
    Directory(DirType, Children),
}

/// The mathematical value of an [`Inode`].
pub struct InodeView {
    pub parent: u64,
    pub inum: u64,
    pub entry: EntryView,
}

/// The mathematical value of the inode table.
pub type Table = Seq<Option<InodeView>>;

/// The mathematical value of a directory's children.
pub open spec fn children_view(c: Seq<(String, DirEntry)>) -> Children {
    Seq::new(c.len(), |k: int| (c[k].0@, c[k].1))
}

impl View for Entry {
    type V = EntryView;

    open spec fn view(&self) -> EntryView {
        match *self {
            Entry::File(bytes) => EntryView::File(bytes@),
            Entry::Directory(flavour, children) => EntryView::Directory(
                flavour,
                children_view(children@),
            ),
        }
    }
}

impl View for Inode {
    type V = InodeView;

    open spec fn view(&self) -> InodeView {
        InodeView { parent: self.parent, inum: self.inum, entry: self.entry@ }
    }
}

/// The mathematical value of one slot of the table.
pub open spec fn slot_view(slot: Option<Inode>) -> Option<InodeView> {
    match slot {
        Some(node) => Some(node@),
        None => None,
    }
}

/// The mathematical value of the slots of the table.
pub open spec fn table_view(slots: Seq<Option<Inode>>) -> Table {
    Seq::new(slots.len(), |i: int| slot_view(slots[i]))
}

impl View for FS {
    type V = Table;

    open spec fn view(&self) -> Table {
        table_view(self.inodes@)
    }
}

/// The name `.`.
pub open spec fn dot() -> Seq<char> {
    seq!['.']
}

/// The name `..`.
pub open spec fn dotdot() -> Seq<char> {
    seq!['.', '.']
}

/// A name that a directory can hold at all: not empty and without `/`.
pub open spec fn representable(name: Seq<char>) -> bool {
    name.len() > 0 && !name.contains('/')
}

/// A name that a child may have: representable, and neither `.` nor `..`.
pub open spec fn legal_name(name: Seq<char>) -> bool {
    representable(name) && name != dot() && name != dotdot()
}

/// The kind of file that an entry is.
pub open spec fn entry_kind(e: EntryView) -> FileKind {
    match e {
        EntryView::File(_) => FileKind::RegularFile,
        EntryView::Directory(_, _) => FileKind::Directory,
    }
}

/// The inode number is in the table and its slot is filled.
pub open spec fn live(t: Table, inum: int) -> bool {
    0 <= inum < t.len() && t[inum] is Some
}

/// The inode is live and is a directory.
pub open spec fn is_dir(t: Table, inum: int) -> bool {
    live(t, inum) && t[inum]->0.entry is Directory
}

/// The inode is live and is a regular file.
pub open spec fn is_file(t: Table, inum: int) -> bool {
    live(t, inum) && t[inum]->0.entry is File
}

/// The children of directory `inum`.
pub open spec fn children_of(t: Table, inum: int) -> Children {
    t[inum]->0.entry->Directory_1
}

/// The bytes of file `inum`.
pub open spec fn bytes_of(t: Table, inum: int) -> Seq<u8> {
    t[inum]->0.entry->File_0
}

/// A child entry of `holder` is sound: its name is legal, and it refers to
/// a live inode other than the root, whose parent is `holder` and whose
/// kind is the one recorded.
pub open spec fn child_ok(t: Table, holder: int, c: (Seq<char>, DirEntry)) -> bool {
    &&& legal_name(c.0)
    &&& 1 < c.1.inum < t.len()
    &&& t[c.1.inum as int] is Some
    &&& t[c.1.inum as int]->0.parent == holder
    &&& entry_kind(t[c.1.inum as int]->0.entry) == c.1.kind
}

/// No two children share a name, and no two refer to the same inode.
pub open spec fn distinct_children(c: Children) -> bool {
    forall|j: int, k: int|
        #![trigger c[j], c[k]]
        0 <= j < k < c.len() ==> c[j].0 != c[k].0 && c[j].1.inum != c[k].1.inum
}

/// The children of `holder` are distinct, and each is sound.
pub open spec fn children_ok(t: Table, holder: int, c: Children) -> bool {
    &&& distinct_children(c)
    &&& forall|k: int| 0 <= k < c.len() ==> child_ok(t, holder, #[trigger] c[k])
}

/// Slot `i`, if filled, carries its own number, and if it is a directory its
/// children are sound.
pub open spec fn inode_ok(t: Table, i: int) -> bool {
    t[i] matches Some(node) ==> {
        &&& node.inum == i
        &&& node.entry matches EntryView::Directory(_, c) ==> children_ok(t, i, c)
    }
}

/// The table's invariant: slot 0 is empty, slot 1 is the root directory and
/// its own parent, and every filled slot is sound.
pub open spec fn table_wf(t: Table) -> bool {
    &&& 2 <= t.len() <= u64::MAX
    &&& t[0] is None
    &&& is_dir(t, 1)
    &&& t[1]->0.parent == 1
    &&& forall|i: int| 0 <= i < t.len() ==> #[trigger] inode_ok(t, i)
}

/// What `get` returns, over views.
pub open spec fn spec_get(t: Table, inum: u64) -> Result<InodeView, FSError> {
    if inum >= t.len() {
        Err(FSError::NoSuchInode(inum))
    } else {
        match t[inum as int] {
            Some(node) => Ok(node),
            None => Err(FSError::InvalidInode(inum)),
        }
    }
}

/// The child at `k` is the first one called `name`.
pub open spec fn first_named(c: Children, name: Seq<char>, k: int) -> bool {
    &&& 0 <= k < c.len()
    &&& c[k].0 == name
    &&& forall|j: int| 0 <= j < k ==> (#[trigger] c[j]).0 != name
}

/// The index of the first child called `name`, if there is one.
pub open spec fn position(c: Children, name: Seq<char>) -> Option<int> {
    if exists|k: int| first_named(c, name, k) {
        Some(choose|k: int| first_named(c, name, k))
    } else {
        None
    }
}

/// What the child called `name` is recorded as, if there is one.
pub open spec fn child_named(c: Children, name: Seq<char>) -> Option<DirEntry> {
    match position(c, name) {
        Some(k) => Some(c[k].1),
        None => None,
    }
}

/// No child is called `name`.
pub open spec fn absent(c: Children, name: Seq<char>) -> bool {
    forall|k: int| 0 <= k < c.len() ==> (#[trigger] c[k]).0 != name
}

/// The first child of a name is the one found under that name.
pub proof fn lemma_position_first(c: Children, name: Seq<char>, k: int)
    requires
        first_named(c, name, k),
    ensures
        position(c, name) == Some(k),
{
    let found = choose|j: int| first_named(c, name, j);
    assert(first_named(c, name, found));
    if found < k {
        assert(c[found].0 != name);
    } else if k < found {
        assert(c[k].0 != name);
    }
}

/// A name finds nothing exactly where no child has it, and what it finds
/// is the first child that has it.
pub proof fn lemma_position_none(c: Children, name: Seq<char>)
    ensures
        position(c, name) is None <==> absent(c, name),
        position(c, name) matches Some(k) ==> first_named(c, name, k),
{
    if absent(c, name) {
        if position(c, name) is Some {
            let k = position(c, name)->0;
            assert(first_named(c, name, k));
            assert(c[k].0 != name);
        }
    } else {
        let k = choose|k: int| 0 <= k < c.len() && (#[trigger] c[k]).0 == name;
        lemma_first_exists(c, name, k);
    }
}

/// Where a child has a name, a first child has it.
proof fn lemma_first_exists(c: Children, name: Seq<char>, k: int)
    requires
        0 <= k < c.len(),
        c[k].0 == name,
    ensures
        exists|j: int| first_named(c, name, j),
    decreases k,
{
    if exists|j: int| 0 <= j < k && (#[trigger] c[j]).0 == name {
        let j = choose|j: int| 0 <= j < k && (#[trigger] c[j]).0 == name;
        lemma_first_exists(c, name, j);
    } else {
        assert(first_named(c, name, k));
    }
}

/// Among distinct children, the one at `k` is the one found under its name.
pub proof fn lemma_position(c: Children, k: int)
    requires
        distinct_children(c),
        0 <= k < c.len(),
    ensures
        position(c, c[k].0) == Some(k),
        child_named(c, c[k].0) == Some(c[k].1),
{
    assert forall|j: int| 0 <= j < k implies (#[trigger] c[j]).0 != c[k].0 by {
        assert(c[j].0 != c[k].0);
    }
    lemma_position_first(c, c[k].0, k);
}

/// The total length in bytes of the children's names.
pub open spec fn name_bytes(c: Children) -> nat
    decreases c.len(),
{
    if c.len() == 0 {
        0
    } else {
        name_bytes(c.drop_last()) + encode_utf8(c.last().0).len()
    }
}

/// How many children are directories.
pub open spec fn subdirs(c: Children) -> nat
    decreases c.len(),
{
    if c.len() == 0 {
        0
    } else {
        subdirs(c.drop_last()) + if c.last().1.kind == FileKind::Directory {
            1nat
        } else {
            0nat
        }
    }
}

/// The number, or the largest `u64` if it is larger.
pub open spec fn saturate64(n: nat) -> u64 {
    if n <= u64::MAX {
        n as u64
    } else {
        u64::MAX
    }
}

/// The number, or the largest `u32` if it is larger.
pub open spec fn saturate32(n: nat) -> u32 {
    if n <= u32::MAX {
        n as u32
    } else {
        u32::MAX
    }
}

/// An entry's size: a file's length in bytes; the total length of the
/// children's names for a named directory; the number of children for a
/// list. A size that does not fit is reported as the largest that does.
pub open spec fn entry_size(e: EntryView) -> u64 {
    match e {
        EntryView::File(bytes) => saturate64(bytes.len()),
        EntryView::Directory(DirType::Named, c) => saturate64(name_bytes(c)),
        EntryView::Directory(DirType::List, c) => saturate64(c.len()),
    }
}

/// An entry's link count: 1 for a file, 2 and one more for each
/// subdirectory for a directory, up to the largest count that fits.
pub open spec fn entry_nlink(e: EntryView) -> u32 {
    match e {
        EntryView::File(_) => 1,
        EntryView::Directory(_, c) => saturate32(2 + subdirs(c)),
    }
}

/// The permission bits that a configuration gives a kind of file.
pub open spec fn mode_of(config: Config, kind: FileKind) -> u16 {
    if kind == FileKind::Directory {
        config.dirmode
    } else {
        config.filemode
    }
}

/// The attributes of an inode under a configuration.
pub open spec fn attr_of(config: Config, node: InodeView) -> FileAttr {
    FileAttr {
        ino: node.inum,
        size: entry_size(node.entry),
        blocks: entry_size(node.entry),
        atime: config.timestamp,
        mtime: config.timestamp,
        ctime: config.timestamp,
        crtime: config.timestamp,
        kind: entry_kind(node.entry),
        perm: mode_of(config, entry_kind(node.entry)),
        nlink: entry_nlink(node.entry),
        uid: config.uid,
        gid: config.gid,
        rdev: 0,
        blksize: 1,
        flags: 0,
    }
}

/// An entry that may be given to a fresh inode before it is linked: a
/// file, or a directory without children.
pub open spec fn unlinked_entry(e: EntryView) -> bool {
    e matches EntryView::Directory(_, c) ==> c.len() == 0
}

/// One more child adds its name's length to the total, and one to the
/// count of subdirectories if it is one.
proof fn lemma_take_next(c: Children, k: int)
    requires
        0 <= k < c.len(),
    ensures
        name_bytes(c.take(k + 1)) == name_bytes(c.take(k)) + encode_utf8(c[k].0).len(),
        subdirs(c.take(k + 1)) == subdirs(c.take(k)) + if c[k].1.kind == FileKind::Directory {
            1nat
        } else {
            0nat
        },
{
    assert(c.take(k + 1).drop_last() =~= c.take(k));
}

/// Finds the first child called `name`.
pub fn find_child(children: &Vec<(String, DirEntry)>, name: &String) -> (r: Option<usize>)
    ensures
        match r {
            Some(k) => position(children_view(children@), name@) == Some(k as int),
            None => position(children_view(children@), name@) is None,
        },
{
    let ghost c = children_view(children@);
    let mut k: usize = 0;
    while k < children.len()
        invariant
            k <= children.len(),
            c == children_view(children@),
            forall|j: int| 0 <= j < k ==> (#[trigger] c[j]).0 != name@,
        decreases children.len() - k,
    {
        assert(c[k as int].0 == children@[k as int].0@);
        if children[k].0 == *name {
            proof {
                lemma_position_first(c, name@, k as int);
            }
            return Some(k);
        }
        k += 1;
    }
    proof {
        lemma_position_none(c, name@);
    }
    None
}

impl Entry {
    /// The size reported for this entry.
    pub fn size(&self) -> (r: u64)
        ensures
            r == entry_size(self@),
    {
        match self {
            Entry::File(bytes) => bytes.len() as u64,
            Entry::Directory(DirType::Named, files) => {
                let ghost c = children_view(files@);
                let mut total: u64 = 0;
                let mut k: usize = 0;
                while k < files.len()
                    invariant
                        k <= files.len(),
                        c == children_view(files@),
                        total == saturate64(name_bytes(c.take(k as int))),
                    decreases files.len() - k,
                {
                    let n: usize = files[k].0.as_str().as_bytes().len();
                    proof {
                        lemma_take_next(c, k as int);
                        assert(c[k as int].0 == files@[k as int].0@);
                    }
                    total = total.saturating_add(n as u64);
                    k += 1;
                }
                assert(c.take(k as int) =~= c);
                total
            },
            Entry::Directory(DirType::List, files) => files.len() as u64,
        }
    }

    /// Whether this entry is a regular file or a directory.
    pub fn kind(&self) -> (r: FileKind)
        ensures
            r == entry_kind(self@),
    {
        match self {
            Entry::File(_) => FileKind::RegularFile,
            Entry::Directory(..) => FileKind::Directory,
        }
    }

    /// The link count reported for this entry.
    pub fn nlink(&self) -> (r: u32)
        ensures
            r == entry_nlink(self@),
    {
        match self {
            Entry::File(_) => 1,
            Entry::Directory(_, files) => {
                let ghost c = children_view(files@);
                let mut count: u32 = 2;
                let mut k: usize = 0;
                while k < files.len()
                    invariant
                        k <= files.len(),
                        c == children_view(files@),
                        count == saturate32(2 + subdirs(c.take(k as int))),
                    decreases files.len() - k,
                {
                    proof {
                        lemma_take_next(c, k as int);
                        assert(c[k as int].1 == files@[k as int].1);
                    }
                    if files[k].1.kind == FileKind::Directory {
                        count = count.saturating_add(1);
                    }
                    k += 1;
                }
                assert(c.take(k as int) =~= c);
                count
            },
        }
    }
}

impl FS {
    /// The table satisfies its invariant.
    pub open spec fn wf(&self) -> bool {
        table_wf(self@)
    }

    /// Appends a new inode at the next free number and returns that
    /// number. The caller links it into its parent. A file or a directory
    /// without children leaves a well-formed table well formed.
    pub fn fresh_inode(&mut self, parent: u64, entry: Entry) -> (inum: u64)
        ensures
            inum == old(self)@.len(),
            final(self)@ == old(self)@.push(
                Some(InodeView { parent, inum, entry: entry@ }),
            ),
            final(self).config == old(self).config,
            old(self).wf() && unlinked_entry(entry@) ==> final(self).wf(),
    {
        let inum: u64 = self.inodes.len() as u64;
        self.inodes.push(Some(Inode { parent, inum, entry }));
        assert(self@ =~= old(self)@.push(Some(InodeView { parent, inum, entry: entry@ })));
        let slots: usize = self.inodes.len();
        proof {
            assert(self@.len() == slots);
            if old(self).wf() && unlinked_entry(entry@) {
                crate::changes::lemma_push_inode(old(self)@, parent, entry@);
            }
        }
        inum
    }

    /// Whether `uid` may change the tree: only the owner may.
    pub fn check_access(&self, uid: u32) -> (r: bool)
        ensures
            r == (uid == self.config.uid),
    {
        uid == self.config.uid
    }

    /// The inode with number `inum`.
    pub fn get(&self, inum: u64) -> (r: Result<&Inode, FSError>)
        ensures
            match r {
                Ok(node) => spec_get(self@, inum) == Ok::<InodeView, FSError>(node@)
                    && self.inodes@[inum as int] == Some(*node),
                Err(e) => spec_get(self@, inum) == Err::<InodeView, FSError>(e),
            },
    {
        if inum >= self.inodes.len() as u64 {
            return Err(FSError::NoSuchInode(inum));
        }
        match &self.inodes[inum as usize] {
            None => Err(FSError::InvalidInode(inum)),
            Some(node) => Ok(node),
        }
    }

    /// The inode with number `inum`, to be changed in place. The table
    /// afterwards is the table before with that one slot replaced.
    pub fn get_mut(&mut self, inum: u64) -> (r: Result<&mut Inode, FSError>)
        ensures
            match r {
                Ok(node) => spec_get(old(self)@, inum) == Ok::<InodeView, FSError>(node@)
                    && final(self)@ == old(self)@.update(inum as int, Some(final(node)@)),
                Err(e) => spec_get(old(self)@, inum) == Err::<InodeView, FSError>(e)
                    && final(self)@ == old(self)@,
            },
            final(self).config == old(self).config,
    {
        if inum >= self.inodes.len() as u64 {
            return Err(FSError::NoSuchInode(inum));
        }
        let slot: &mut Option<Inode> = &mut self.inodes[inum as usize];
        match slot.as_mut() {
            Some(node) => {
                assert(table_view(old(self).inodes@.update(inum as int, Some(*final(node))))
                    =~= old(self)@.update(inum as int, Some(final(node)@)));
                Ok(node)
            },
            None => {
                assert(table_view(old(self).inodes@.update(inum as int, None)) =~= old(self)@);
                Err(FSError::InvalidInode(inum))
            },
        }
    }

    /// The permission bits reported for a kind of file.
    pub fn mode(&self, kind: FileKind) -> (r: u16)
        ensures
            r == mode_of(self.config, kind),
    {
        if kind == FileKind::Directory {
            self.config.dirmode
        } else {
            self.config.filemode
        }
    }

    /// The attributes of an inode.
    pub fn attr(&self, inode: &Inode) -> (r: FileAttr)
        ensures
            r == attr_of(self.config, inode@),
    {
        let size: u64 = inode.entry.size();
        let kind: FileKind = inode.entry.kind();
        let perm: u16 = self.mode(kind);
        let nlink: u32 = inode.entry.nlink();
        FileAttr {
            ino: inode.inum,
            atime: self.config.timestamp,
            crtime: self.config.timestamp,
            ctime: self.config.timestamp,
            mtime: self.config.timestamp,
            nlink,
            size,
            blksize: 1,
            blocks: size,
            kind,
            uid: self.config.uid,
            gid: self.config.gid,
            perm,
            rdev: 0,
            flags: 0,
        }
    }
}

} // verus!
