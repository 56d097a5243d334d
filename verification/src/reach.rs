//! What can be reached from the root, and why reading the document back
//! never runs out of depth.
//!
//! In a well-formed table a child has one parent, and nothing has the
//! root as its child. So the way from an inode up to the root passes no
//! inode twice, and no inode lies deeper below the root than there are
//! inodes in the table.

use crate::fs::{
    bytes_of, child_ok, children_of, inode_ok, is_dir, is_file, live, table_wf, DirType,
    EntryView, Table,
};
use crate::save::{
    all_some, file_tree, keys_of, law_list_order, parts_below, read_before, sorted_order,
    subtree, walk_order,
};
use vstd::prelude::*;

verus! {

/// Directory `p` has a child entry for inode `y`.
pub open spec fn linked(t: Table, p: int, y: int) -> bool {
    is_dir(t, p) && exists|k: int|
        0 <= k < children_of(t, p).len() && (#[trigger] children_of(t, p)[k]).1.inum == y
}

/// The parent recorded in inode `y`.
pub open spec fn parent_of(t: Table, y: int) -> int {
    if live(t, y) {
        t[y]->0.parent as int
    } else {
        0
    }
}

/// Inode `y` lies `d` child entries below the root.
pub open spec fn at_depth(t: Table, y: int, d: nat) -> bool
    decreases d,
{
    if d == 0 {
        y == 1
    } else {
        linked(t, parent_of(t, y), y) && at_depth(t, parent_of(t, y), (d - 1) as nat)
    }
}

/// Every file that can be reached from the root holds text.
pub open spec fn files_are_text(t: Table, add_newlines: bool) -> bool {
    forall|y: int, d: nat|
        #[trigger] at_depth(t, y, d) && is_file(t, y) ==> file_tree(bytes_of(t, y), add_newlines)
            is Some
}

/// The inode `m` parents above `y`.
pub open spec fn ancestor(t: Table, y: int, m: nat) -> int
    decreases m,
{
    if m == 0 {
        y
    } else {
        parent_of(t, ancestor(t, y, (m - 1) as nat))
    }
}

/// Going up `i` parents and then `m` more is going up `i + m`.
proof fn lemma_ancestor_shift(t: Table, y: int, i: nat, m: nat)
    ensures
        ancestor(t, y, i + m) == ancestor(t, ancestor(t, y, i), m),
    decreases m,
{
    if m > 0 {
        lemma_ancestor_shift(t, y, i, (m - 1) as nat);
    }
}

/// On the way from an inode at depth `d` up to the root, the inode `i`
/// parents above it lies at depth `d - i`; all but the last are children,
/// and the last is the root.
proof fn lemma_way_up(t: Table, y: int, d: nat, i: nat)
    requires
        table_wf(t),
        at_depth(t, y, d),
        i <= d,
    ensures
        at_depth(t, ancestor(t, y, i), (d - i) as nat),
        i < d ==> 1 < ancestor(t, y, i) < t.len(),
        i == d ==> ancestor(t, y, i) == 1,
    decreases i,
{
    if i > 0 {
        lemma_way_up(t, y, d, (i - 1) as nat);
        let w = ancestor(t, y, (i - 1) as nat);
        assert(at_depth(t, w, (d - (i - 1)) as nat));
        assert(ancestor(t, y, i) == parent_of(t, w));
        assert(at_depth(t, parent_of(t, w), ((d - (i - 1)) - 1) as nat));
    }
    let z = ancestor(t, y, i);
    assert(at_depth(t, z, (d - i) as nat));
    if i < d {
        let p = parent_of(t, z);
        assert(linked(t, p, z));
        let k = choose|k: int|
            0 <= k < children_of(t, p).len() && (#[trigger] children_of(t, p)[k]).1.inum == z;
        assert(inode_ok(t, p));
        assert(child_ok(t, p, children_of(t, p)[k]));
    }
}

/// As many different numbers as `count`, all below `bound`, need `bound`
/// to be at least `count`.
proof fn lemma_pigeonhole(f: spec_fn(int) -> int, count: nat, bound: nat)
    requires
        forall|i: int| 0 <= i < count ==> 0 <= #[trigger] f(i) < bound,
        forall|i: int, j: int| 0 <= i < j < count ==> #[trigger] f(i) != #[trigger] f(j),
    ensures
        count <= bound,
    decreases bound,
{
    if count > 0 {
        if bound == 0 {
            assert(0 <= f(0) < bound);
        } else if exists|j: int| 0 <= j < count && #[trigger] f(j) == bound - 1 {
            let j = choose|j: int| 0 <= j < count && #[trigger] f(j) == bound - 1;
            let g = |i: int|
                if i < j {
                    f(i)
                } else {
                    f(i + 1)
                };
            assert forall|i: int| 0 <= i < count - 1 implies 0 <= #[trigger] g(i) < bound - 1 by {
                if i < j {
                    assert(f(i) != f(j));
                } else {
                    assert(f(j) != f(i + 1));
                    assert(0 <= f(i + 1) < bound);
                }
            }
            assert forall|a: int, b: int| 0 <= a < b < count - 1 implies #[trigger] g(a)
                != #[trigger] g(b) by {
                let a1 = if a < j {
                    a
                } else {
                    a + 1
                };
                let b1 = if b < j {
                    b
                } else {
                    b + 1
                };
                assert(f(a1) != f(b1));
            }
            lemma_pigeonhole(g, (count - 1) as nat, (bound - 1) as nat);
        } else {
            assert forall|i: int| 0 <= i < count implies 0 <= #[trigger] f(i) < bound - 1 by {
                assert(0 <= f(i) < bound);
            }
            lemma_pigeonhole(f, count, (bound - 1) as nat);
        }
    }
}

/// No inode lies deeper below the root than the table has inodes: at
/// depth `d` the table has at least `d + 2` slots.
pub proof fn lemma_depth_is_bounded(t: Table, y: int, d: nat)
    requires
        table_wf(t),
        at_depth(t, y, d),
    ensures
        d + 2 <= t.len(),
        live(t, y),
{
    let f = |i: int| ancestor(t, y, i as nat) - 1;
    assert forall|i: int| 0 <= i < d + 1 implies 0 <= #[trigger] f(i) < t.len() - 1 by {
        lemma_way_up(t, y, d, i as nat);
    }
    assert forall|i: int, j: int| 0 <= i < j < d + 1 implies #[trigger] f(i) != #[trigger] f(j) by {
        if f(i) == f(j) {
            let m = (d - j) as nat;
            lemma_ancestor_shift(t, y, i as nat, m);
            lemma_ancestor_shift(t, y, j as nat, m);
            lemma_way_up(t, y, d, d);
            lemma_way_up(t, y, d, (i + m) as nat);
        }
    }
    lemma_pigeonhole(f, d + 1, (t.len() - 1) as nat);
    lemma_way_up(t, y, d, 0);
    if d > 0 {
        assert(1 < ancestor(t, y, 0) < t.len());
        let p = parent_of(t, y);
        let k = choose|k: int|
            0 <= k < children_of(t, p).len() && (#[trigger] children_of(t, p)[k]).1.inum == y;
        assert(inode_ok(t, p));
        assert(child_ok(t, p, children_of(t, p)[k]));
    }
}

/// Below an inode that can be reached from the root, reading does not run
/// out of depth where the depth left is what the table has more than the
/// inode's own depth.
proof fn lemma_reads(t: Table, add_newlines: bool, y: int, d: nat, fuel: nat)
    requires
        table_wf(t),
        files_are_text(t, add_newlines),
        at_depth(t, y, d),
        fuel + d >= t.len(),
    ensures
        subtree(t, add_newlines, y, fuel) is Some,
    decreases fuel,
{
    lemma_depth_is_bounded(t, y, d);
    match t[y]->0.entry {
        EntryView::File(bytes) => {
            assert(is_file(t, y));
        },
        EntryView::Directory(flavour, c) => {
            let order = walk_order(flavour, c);
            let parts = parts_below(t, add_newlines, c, order, (fuel - 1) as nat);
            if flavour == DirType::List {
                law_list_order(keys_of(c), c.len());
            }
            assert(inode_ok(t, y));
            assert forall|k: int| 0 <= k < parts.len() implies (#[trigger] parts[k]) is Some by {
                let at = order[k];
                assert(0 <= at < c.len());
                let child = c[at].1.inum as int;
                assert(child_ok(t, y, c[at]));
                assert(children_of(t, y)[at].1.inum == child);
                assert(linked(t, y, child));
                assert(parent_of(t, child) == y);
                assert(at_depth(t, child, d + 1));
                lemma_depth_is_bounded(t, child, d + 1);
                lemma_reads(t, add_newlines, child, d + 1, (fuel - 1) as nat);
            }
            assert(all_some(parts));
        },
    }
}

/// Every child of a list has a place in the order in which the children
/// are read out.
proof fn lemma_every_child_has_a_place(keys: Seq<Option<u64>>, n: nat, j: int)
    requires
        0 <= j < n,
    ensures
        exists|k: int| 0 <= k < n && #[trigger] sorted_order(keys, n)[k] == j,
{
    law_list_order(keys, n);
    let order = sorted_order(keys, n);
    if !exists|k: int| 0 <= k < n && #[trigger] order[k] == j {
        let f = |k: int|
            if order[k] < j {
                order[k]
            } else {
                order[k] - 1
            };
        assert forall|k: int| 0 <= k < n implies 0 <= #[trigger] f(k) < n - 1 by {
            assert(0 <= order[k] < n);
            assert(order[k] != j);
        }
        assert forall|a: int, b: int| 0 <= a < b < n implies #[trigger] f(a) != #[trigger] f(b) by {
            assert(read_before(keys, order[a], order[b]));
            assert(order[a] != j && order[b] != j);
        }
        lemma_pigeonhole(f, n, (n - 1) as nat);
    }
}

/// Where reading from the root succeeds, it succeeds from every inode on
/// the way up from an inode that can be reached, with the depth that is
/// left there.
proof fn lemma_reads_on_the_way(t: Table, add_newlines: bool, y: int, d: nat, i: nat)
    requires
        table_wf(t),
        subtree(t, add_newlines, 1, t.len()) is Some,
        at_depth(t, y, d),
        i <= d,
    ensures
        subtree(t, add_newlines, ancestor(t, y, i), (t.len() - (d - i)) as nat) is Some,
    decreases d - i,
{
    lemma_depth_is_bounded(t, y, d);
    lemma_way_up(t, y, d, i);
    if i < d {
        lemma_reads_on_the_way(t, add_newlines, y, d, i + 1);
        let z = ancestor(t, y, i);
        let p = ancestor(t, y, i + 1);
        let fuel = (t.len() - (d - i - 1)) as nat;
        assert(p == parent_of(t, z));
        assert(at_depth(t, z, (d - i) as nat));
        assert(linked(t, p, z));
        let c = children_of(t, p);
        let j = choose|j: int| 0 <= j < c.len() && (#[trigger] children_of(t, p)[j]).1.inum == z;
        let flavour = t[p]->0.entry->Directory_0;
        let order = walk_order(flavour, c);
        let parts = parts_below(t, add_newlines, c, order, (fuel - 1) as nat);
        assert(subtree(t, add_newlines, p, fuel) is Some);
        assert(all_some(parts));
        if flavour == DirType::List {
            lemma_every_child_has_a_place(keys_of(c), c.len(), j);
            let k = choose|k: int| 0 <= k < c.len() && #[trigger] sorted_order(keys_of(c), c.len())[k] == j;
            assert(parts[k] is Some);
        } else {
            assert(parts[j] is Some);
        }
    }
}

/// Reading the document back out of a well-formed table succeeds if and
/// only if every file that can be reached from the root holds text.
pub proof fn law_reading_succeeds(t: Table, add_newlines: bool)
    requires
        table_wf(t),
    ensures
        subtree(t, add_newlines, 1, t.len()) is Some <==> files_are_text(t, add_newlines),
{
    if files_are_text(t, add_newlines) {
        assert(at_depth(t, 1, 0));
        lemma_reads(t, add_newlines, 1, 0, t.len());
    }
    if subtree(t, add_newlines, 1, t.len()) is Some {
        assert forall|y: int, d: nat| #[trigger] at_depth(t, y, d) && is_file(t, y) implies file_tree(
            bytes_of(t, y),
            add_newlines,
        ) is Some by {
            lemma_depth_is_bounded(t, y, d);
            lemma_reads_on_the_way(t, add_newlines, y, d, 0);
        }
    }
}

} // verus!
