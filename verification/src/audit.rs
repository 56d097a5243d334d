//! Testing a table against its invariant.
//!
//! The fields of the filesystem are open to its users; whoever has changed
//! them by hand can ask here whether the operations may be used again.

use crate::fs::{
    child_ok, children_ok, children_view, distinct_children, inode_ok, slot_view, DirEntry, Entry,
    FS,
};
use crate::names::{is_dot_name, is_representable};
use vstd::prelude::*;

verus! {

impl FS {
    /// Whether a child entry of `holder` is sound.
    fn child_is_sound(&self, holder: u64, name: &String, e: DirEntry) -> (r: bool)
        ensures
            r == child_ok(self@, holder as int, (name@, e)),
    {
        if !is_representable(name.as_str()) || is_dot_name(name) {
            return false;
        }
        if e.inum <= 1 {
            return false;
        }
        match self.get(e.inum) {
            Err(_) => false,
            Ok(node) => node.parent == holder && node.entry.kind() == e.kind,
        }
    }

    /// Whether the children of `holder` are distinct and sound.
    fn children_are_sound(&self, holder: u64, files: &Vec<(String, DirEntry)>) -> (r: bool)
        ensures
            r == children_ok(self@, holder as int, children_view(files@)),
    {
        let ghost c = children_view(files@);
        let mut k: usize = 0;
        while k < files.len()
            invariant
                k <= files@.len(),
                c == children_view(files@),
                forall|j: int| 0 <= j < k ==> child_ok(self@, holder as int, #[trigger] c[j]),
                forall|i: int, j: int|
                    #![trigger c[i], c[j]]
                    0 <= i < j < k ==> c[i].0 != c[j].0 && c[i].1.inum != c[j].1.inum,
            decreases files@.len() - k,
        {
            assert(c[k as int] == (files@[k as int].0@, files@[k as int].1));
            if !self.child_is_sound(holder, &files[k].0, files[k].1) {
                return false;
            }
            let mut i: usize = 0;
            while i < k
                invariant
                    i <= k < files@.len(),
                    c == children_view(files@),
                    forall|j: int|
                        0 <= j < i ==> (#[trigger] c[j]).0 != c[k as int].0 && c[j].1.inum
                            != c[k as int].1.inum,
                decreases k - i,
            {
                assert(c[i as int] == (files@[i as int].0@, files@[i as int].1));
                assert(c[k as int] == (files@[k as int].0@, files@[k as int].1));
                if files[i].0 == files[k].0 || files[i].1.inum == files[k].1.inum {
                    assert(!distinct_children(c)) by {
                        if distinct_children(c) {
                            assert(c[i as int].0 != c[k as int].0 && c[i as int].1.inum
                                != c[k as int].1.inum);
                        }
                    }
                    return false;
                }
                i += 1;
            }
            assert forall|i: int, j: int|
                #![trigger c[i], c[j]]
                0 <= i < j < k + 1 implies c[i].0 != c[j].0 && c[i].1.inum != c[j].1.inum by {
                if j == k {
                    assert(c[i].0 != c[k as int].0);
                }
            }
            k += 1;
        }
        true
    }

    /// Whether the table satisfies its invariant.
    pub fn is_well_formed(&self) -> (r: bool)
        ensures
            r == self.wf(),
    {
        let ghost t = self@;
        let len: usize = self.inodes.len();
        assert(t.len() == len);
        if len < 2 {
            return false;
        }
        match &self.inodes[0] {
            Some(_) => {
                return false;
            },
            None => {},
        }
        match &self.inodes[1] {
            Some(root) => match &root.entry {
                Entry::Directory(..) => {
                    if root.parent != 1 {
                        return false;
                    }
                },
                Entry::File(_) => {
                    return false;
                },
            },
            None => {
                return false;
            },
        }
        let mut i: usize = 0;
        while i < len
            invariant
                i <= len,
                len == self.inodes@.len(),
                t == self@,
                t.len() == len,
                forall|j: int| 0 <= j < i ==> #[trigger] inode_ok(t, j),
            decreases len - i,
        {
            assert(t[i as int] == slot_view(self.inodes@[i as int]));
            match &self.inodes[i] {
                None => {},
                Some(node) => {
                    if node.inum != i as u64 {
                        assert(!inode_ok(t, i as int));
                        return false;
                    }
                    match &node.entry {
                        Entry::File(_) => {},
                        Entry::Directory(_, files) => {
                            if !self.children_are_sound(i as u64, files) {
                                assert(!inode_ok(t, i as int));
                                return false;
                            }
                        },
                    }
                },
            }
            i += 1;
        }
        true
    }
}

} // verus!
