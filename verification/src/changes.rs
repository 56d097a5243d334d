//! The elementary changes that the operations make to the table, each with
//! the proof that it keeps the table well formed.

use crate::fs::{
    child_ok, children_of, distinct_children, entry_kind, inode_ok, is_dir, is_file, legal_name,
    lemma_position_none, live, position, table_wf, unlinked_entry, Children, DirEntry, EntryView,
    InodeView, Table,
};
use vstd::prelude::*;

verus! {

/// Directory `d` with its children replaced by `c`.
pub open spec fn set_children(t: Table, d: int, c: Children) -> Table {
    let node = t[d]->0;
    t.update(
        d,
        Some(
            InodeView {
                parent: node.parent,
                inum: node.inum,
                entry: EntryView::Directory(node.entry->Directory_0, c),
            },
        ),
    )
}

/// Directory `d` without its child at index `k`.
pub open spec fn remove_child(t: Table, d: int, k: int) -> Table {
    set_children(t, d, children_of(t, d).remove(k))
}

/// The children with `name` bound to `e`: in place of the child of that
/// name if there is one, else at the end.
pub open spec fn put(c: Children, name: Seq<char>, e: DirEntry) -> Children {
    match position(c, name) {
        Some(k) => c.update(k, (name, e)),
        None => c.push((name, e)),
    }
}

/// Directory `d` with `name` bound to `e`.
pub open spec fn put_child(t: Table, d: int, name: Seq<char>, e: DirEntry) -> Table {
    set_children(t, d, put(children_of(t, d), name, e))
}

/// Inode `i` with its parent replaced by `p`.
pub open spec fn set_parent(t: Table, i: int, p: u64) -> Table {
    let node = t[i]->0;
    t.update(i, Some(InodeView { parent: p, inum: node.inum, entry: node.entry }))
}

/// File `i` with its bytes replaced by `b`.
pub open spec fn set_bytes(t: Table, i: int, b: Seq<u8>) -> Table {
    let node = t[i]->0;
    t.update(i, Some(InodeView { parent: node.parent, inum: node.inum, entry: EntryView::File(b) }))
}

/// The table with one more inode at the end: a child of `parent` holding
/// `entry`, not yet linked.
pub open spec fn push_inode(t: Table, parent: u64, entry: EntryView) -> Table {
    t.push(Some(InodeView { parent, inum: t.len() as u64, entry }))
}

/// No directory has a child that refers to inode `s`.
pub open spec fn unreferenced(t: Table, s: u64) -> bool {
    forall|d: int, k: int|
        #![trigger children_of(t, d)[k]]
        is_dir(t, d) && 0 <= k < children_of(t, d).len() ==> children_of(t, d)[k].1.inum != s
}

/// A fresh inode keeps the table well formed, and nothing refers to it.
pub proof fn lemma_push_inode(t: Table, parent: u64, entry: EntryView)
    requires
        table_wf(t),
        t.len() < u64::MAX,
        unlinked_entry(entry),
    ensures
        table_wf(push_inode(t, parent, entry)),
        unreferenced(push_inode(t, parent, entry), t.len() as u64),
{
    let t2 = push_inode(t, parent, entry);
    assert forall|i: int| 0 <= i < t2.len() implies #[trigger] inode_ok(t2, i) by {
        if i < t.len() {
            assert(inode_ok(t, i));
            if t2[i] is Some && t2[i]->0.entry is Directory {
                let c = children_of(t2, i);
                assert forall|k: int| 0 <= k < c.len() implies child_ok(t2, i, #[trigger] c[k]) by {
                    assert(child_ok(t, i, c[k]));
                }
            }
        }
    }
    assert forall|d: int, k: int|
        is_dir(t2, d) && 0 <= k < children_of(t2, d).len() implies (#[trigger] children_of(
        t2,
        d,
    )[k]).1.inum != t.len() as u64 by {
        if d < t.len() {
            assert(inode_ok(t, d));
            assert(child_ok(t, d, children_of(t, d)[k]));
        }
    }
}

/// Removing a child keeps the table well formed, and nothing refers to
/// the removed child's inode any more.
pub proof fn lemma_remove_child(t: Table, d: int, k: int)
    requires
        table_wf(t),
        is_dir(t, d),
        0 <= k < children_of(t, d).len(),
    ensures
        table_wf(remove_child(t, d, k)),
        unreferenced(remove_child(t, d, k), children_of(t, d)[k].1.inum),
{
    let t2 = remove_child(t, d, k);
    let c = children_of(t, d);
    let c2 = c.remove(k);
    let s = c[k].1.inum;
    assert(inode_ok(t, d));
    assert(inode_ok(t, 1));
    assert forall|i: int| 0 <= i < t2.len() implies #[trigger] inode_ok(t2, i) by {
        assert(inode_ok(t, i));
        if t2[i] is Some && t2[i]->0.entry is Directory {
            let ci = children_of(t2, i);
            assert forall|j: int| 0 <= j < ci.len() implies child_ok(t2, i, #[trigger] ci[j]) by {
                if i == d {
                    let j0 = if j < k {
                        j
                    } else {
                        j + 1
                    };
                    assert(ci[j] == c[j0]);
                    assert(child_ok(t, i, c[j0]));
                } else {
                    assert(child_ok(t, i, children_of(t, i)[j]));
                }
            }
            if i == d {
                assert forall|a: int, b: int| 0 <= a < b < ci.len() implies (#[trigger] ci[a]).0
                    != (#[trigger] ci[b]).0 && ci[a].1.inum != ci[b].1.inum by {
                    let a0 = if a < k {
                        a
                    } else {
                        a + 1
                    };
                    let b0 = if b < k {
                        b
                    } else {
                        b + 1
                    };
                    assert(ci[a] == c[a0]);
                    assert(ci[b] == c[b0]);
                }
            }
        }
    }
    assert forall|e: int, j: int|
        is_dir(t2, e) && 0 <= j < children_of(t2, e).len() implies (#[trigger] children_of(
        t2,
        e,
    )[j]).1.inum != s by {
        assert(inode_ok(t, e));
        assert(child_ok(t, d, c[k]));
        if e == d {
            let j0 = if j < k {
                j
            } else {
                j + 1
            };
            assert(c2[j] == c[j0]);
            if j0 < k {
                assert(c[j0].1.inum != c[k].1.inum);
            } else {
                assert(c[k].1.inum != c[j0].1.inum);
            }
        } else {
            assert(child_ok(t, e, children_of(t, e)[j]));
        }
    }
}

/// An inode that nothing refers to, and that is not the root, may be given
/// any parent.
pub proof fn lemma_set_parent(t: Table, s: u64, p: u64)
    requires
        table_wf(t),
        live(t, s as int),
        s != 1,
        unreferenced(t, s),
    ensures
        table_wf(set_parent(t, s as int, p)),
        unreferenced(set_parent(t, s as int, p), s),
{
    let t2 = set_parent(t, s as int, p);
    assert(inode_ok(t, 1));
    assert forall|i: int| 0 <= i < t2.len() implies #[trigger] inode_ok(t2, i) by {
        assert(inode_ok(t, i));
        if t2[i] is Some && t2[i]->0.entry is Directory {
            let ci = children_of(t2, i);
            assert(ci == children_of(t, i));
            assert forall|j: int| 0 <= j < ci.len() implies child_ok(t2, i, #[trigger] ci[j]) by {
                assert(child_ok(t, i, children_of(t, i)[j]));
                assert(children_of(t, i)[j].1.inum != s);
            }
        }
    }
    assert forall|e: int, j: int|
        is_dir(t2, e) && 0 <= j < children_of(t2, e).len() implies (#[trigger] children_of(
        t2,
        e,
    )[j]).1.inum != s by {
        assert(children_of(t2, e) == children_of(t, e));
        assert(children_of(t, e)[j].1.inum != s);
    }
}

/// Binding a legal name in directory `d` to a live inode whose parent is
/// `d`, whose kind is as recorded, and that nothing else refers to, keeps
/// the table well formed.
pub proof fn lemma_put_child(t: Table, d: int, name: Seq<char>, e: DirEntry)
    requires
        table_wf(t),
        is_dir(t, d),
        legal_name(name),
        e.inum != 1,
        live(t, e.inum as int),
        t[e.inum as int]->0.parent == d,
        entry_kind(t[e.inum as int]->0.entry) == e.kind,
        unreferenced(t, e.inum),
    ensures
        table_wf(put_child(t, d, name, e)),
{
    let t2 = put_child(t, d, name, e);
    let c = children_of(t, d);
    let c2 = put(c, name, e);
    lemma_position_none(c, name);
    assert(inode_ok(t, d));
    assert(inode_ok(t, 1));
    assert(e.inum != 0);
    assert forall|i: int| 0 <= i < t2.len() implies #[trigger] inode_ok(t2, i) by {
        assert(inode_ok(t, i));
        if t2[i] is Some && t2[i]->0.entry is Directory {
            let ci = children_of(t2, i);
            if i == d {
                assert(ci == c2);
                assert forall|j: int| 0 <= j < ci.len() implies child_ok(t2, i, #[trigger] ci[j]) by {
                    if ci[j] == (name, e) {
                    } else {
                        assert(ci[j] == c[j]);
                        assert(child_ok(t, i, c[j]));
                    }
                }
                assert forall|a: int, b: int| 0 <= a < b < ci.len() implies (#[trigger] ci[a]).0
                    != (#[trigger] ci[b]).0 && ci[a].1.inum != ci[b].1.inum by {
                    lemma_put_distinct(t, d, name, e, a, b);
                }
            } else {
                assert(ci == children_of(t, i));
                assert forall|j: int| 0 <= j < ci.len() implies child_ok(t2, i, #[trigger] ci[j]) by {
                    assert(child_ok(t, i, children_of(t, i)[j]));
                }
            }
        }
    }
}

/// Binding a name to an inode that nothing refers to leaves the children
/// distinct.
proof fn lemma_put_distinct(t: Table, d: int, name: Seq<char>, e: DirEntry, a: int, b: int)
    requires
        is_dir(t, d),
        distinct_children(children_of(t, d)),
        unreferenced(t, e.inum),
        0 <= a < b < put(children_of(t, d), name, e).len(),
    ensures
        put(children_of(t, d), name, e)[a].0 != put(children_of(t, d), name, e)[b].0,
        put(children_of(t, d), name, e)[a].1.inum != put(children_of(t, d), name, e)[b].1.inum,
{
    let c = children_of(t, d);
    let c2 = put(c, name, e);
    lemma_position_none(c, name);
    match position(c, name) {
        Some(k) => {
            if a != k && b != k {
                assert(c2[a] == c[a] && c2[b] == c[b]);
            } else if a == k {
                assert(c2[b] == c[b]);
                assert(c[a].0 != c[b].0);
                assert(children_of(t, d)[b].1.inum != e.inum);
            } else {
                assert(c2[a] == c[a]);
                assert(c[a].0 != c[b].0);
                assert(children_of(t, d)[a].1.inum != e.inum);
            }
        },
        None => {
            if b < c.len() {
                assert(c2[a] == c[a] && c2[b] == c[b]);
            } else {
                assert(c2[a] == c[a]);
                assert(c[a].0 != name);
                assert(children_of(t, d)[a].1.inum != e.inum);
            }
        },
    }
}

/// Replacing a file's bytes keeps the table well formed.
pub proof fn lemma_set_bytes(t: Table, i: int, b: Seq<u8>)
    requires
        table_wf(t),
        is_file(t, i),
    ensures
        table_wf(set_bytes(t, i, b)),
{
    let t2 = set_bytes(t, i, b);
    assert(inode_ok(t, i));
    assert forall|j: int| 0 <= j < t2.len() implies #[trigger] inode_ok(t2, j) by {
        assert(inode_ok(t, j));
        if t2[j] is Some && t2[j]->0.entry is Directory {
            let cj = children_of(t2, j);
            assert forall|k: int| 0 <= k < cj.len() implies child_ok(t2, j, #[trigger] cj[k]) by {
                assert(child_ok(t, j, children_of(t, j)[k]));
            }
        }
    }
}

} // verus!
