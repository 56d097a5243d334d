//! Building the filesystem from a document.
//!
//! Every node of the document becomes an inode: an array a list
//! directory whose children are called by their index, an object a named
//! directory whose children are called by their field, a scalar a regular
//! file. Inode numbers are given out from 1 upward in the order in which
//! the nodes are met: the children of one directory get consecutive
//! numbers, and of two children the later one is looked into first, so that
//! its children are numbered before those of the earlier one.

use crate::config::{lemma_normalized_is_legal, normalized, Config};
use crate::fs::{
    child_ok, children_view, find_child, inode_ok, legal_name, lemma_position_none, live,
    table_view, table_wf, Children, DirEntry, DirType, Entry, EntryView, FileKind, Inode,
    InodeView, Table, FS, ROOT_INUM,
};
use crate::names::{
    element_name, index_name, lemma_index_name, parse_index, push_char,
};
use crate::value::{
    child_values, children, count_values, kind, kind_of, lemma_child_is_smaller, lemma_count_take,
    lemma_node_count, node_count, render, scalar_bytes, size, Value,
};
use vstd::pervasive::unreached;
use vstd::prelude::*;

verus! {

/// `n` underscores.
pub open spec fn underscores(n: nat) -> Seq<char> {
    Seq::new(n, |i: int| '_')
}

/// `n` is the least number of underscores after which `base` is none of
/// the `names`.
pub open spec fn settles_at(names: Seq<Seq<char>>, base: Seq<char>, n: nat) -> bool {
    &&& !names.contains(base + underscores(n))
    &&& forall|m: nat| m < n ==> names.contains(#[trigger] (base + underscores(m)))
}

/// `base`, followed by as few underscores as make it none of the `names`.
pub open spec fn settled(names: Seq<Seq<char>>, base: Seq<char>) -> Seq<char> {
    base + underscores(choose|n: nat| settles_at(names, base, n))
}

/// The names given to an object's fields, in order: each field's
/// normalized name, settled among the names given before it.
pub open spec fn field_names(munge: Seq<(char, char)>, fields: Seq<(String, Value)>) -> Seq<
    Seq<char>,
>
    decreases fields.len(),
{
    if fields.len() == 0 {
        Seq::empty()
    } else {
        let before = field_names(munge, fields.drop_last());
        before.push(settled(before, normalized(munge, fields.last().0@)))
    }
}

/// The names of the children of the directory that a value becomes.
pub open spec fn child_names(config: Config, v: Value) -> Seq<Seq<char>> {
    match v {
        Value::Array(vs) => Seq::new(
            vs@.len(),
            |k: int| index_name(config.pad_element_names, k as nat, vs@.len()),
        ),
        Value::Object(fields) => field_names(config.munge@, fields@),
        _ => Seq::empty(),
    }
}

/// The flavour of the directory that a value becomes.
pub open spec fn dir_type_of(v: Value) -> DirType {
    match v {
        Value::Array(_) => DirType::List,
        _ => DirType::Named,
    }
}

/// The children of the directory that a value becomes, where the first
/// child gets inode number `base` and the others the numbers after it.
pub open spec fn planned_children(config: Config, v: Value, base: int) -> Children {
    Seq::new(
        child_values(v).len(),
        |k: int|
            (
                child_names(config, v)[k],
                DirEntry { kind: kind_of(child_values(v)[k]), inum: (base + k) as u64 },
            ),
    )
}

/// What the inode made of a value holds.
pub open spec fn entry_for(config: Config, v: Value, base: int) -> EntryView {
    if kind_of(v) == FileKind::RegularFile {
        EntryView::File(scalar_bytes(v, config.add_newlines))
    } else {
        EntryView::Directory(dir_type_of(v), planned_children(config, v, base))
    }
}

/// The names of the children.
pub open spec fn names_of(c: Children) -> Seq<Seq<char>> {
    Seq::new(c.len(), |k: int| c[k].0)
}

/// The length of the longest name.
pub open spec fn longest(names: Seq<Seq<char>>) -> nat
    decreases names.len(),
{
    if names.len() == 0 {
        0
    } else if names.last().len() > longest(names.drop_last()) {
        names.last().len()
    } else {
        longest(names.drop_last())
    }
}

/// No name is longer than the longest.
proof fn lemma_longest(names: Seq<Seq<char>>, name: Seq<char>)
    requires
        names.contains(name),
    ensures
        name.len() <= longest(names),
    decreases names.len(),
{
    if names.last() != name {
        let i = choose|i: int| 0 <= i < names.len() && names[i] == name;
        assert(names.drop_last()[i] == name);
        lemma_longest(names.drop_last(), name);
    }
}

/// At most one number of underscores settles a name.
proof fn lemma_settles_once(names: Seq<Seq<char>>, base: Seq<char>, n: nat)
    requires
        settles_at(names, base, n),
    ensures
        settled(names, base) == base + underscores(n),
{
    let m = choose|m: nat| settles_at(names, base, m);
    assert(settles_at(names, base, m));
    if m < n {
        assert(names.contains(base + underscores(m)));
    } else if n < m {
        assert(names.contains(base + underscores(n)));
    }
}

/// Where some number of underscores makes a name free, a least number does.
proof fn lemma_least_free(names: Seq<Seq<char>>, base: Seq<char>, n: nat)
    requires
        !names.contains(base + underscores(n)),
    ensures
        exists|m: nat| settles_at(names, base, m),
    decreases n,
{
    if forall|m: nat| m < n ==> names.contains(#[trigger] (base + underscores(m))) {
        assert(settles_at(names, base, n));
    } else {
        let m = choose|m: nat| m < n && !names.contains(#[trigger] (base + underscores(m)));
        lemma_least_free(names, base, m);
    }
}

/// A settled name is none of the names, and is legal if the name it was
/// made of is.
pub proof fn lemma_settled(names: Seq<Seq<char>>, base: Seq<char>)
    ensures
        !names.contains(settled(names, base)),
        legal_name(base) ==> legal_name(settled(names, base)),
{
    let far = longest(names) + 1;
    if names.contains(base + underscores(far)) {
        lemma_longest(names, base + underscores(far));
    }
    lemma_least_free(names, base, far);
    let n = choose|n: nat| settles_at(names, base, n);
    assert(settles_at(names, base, n));
    if legal_name(base) {
        lemma_underscores_keep_legal(base, n);
    }
}

/// A legal name followed by underscores is a legal name.
proof fn lemma_underscores_keep_legal(base: Seq<char>, n: nat)
    requires
        legal_name(base),
    ensures
        legal_name(base + underscores(n)),
{
    let name = base + underscores(n);
    if n == 0 {
        assert(name =~= base);
    } else {
        if name.contains('/') {
            let i = choose|i: int| 0 <= i < name.len() && name[i] == '/';
            if i < base.len() {
                assert(base[i] == '/');
            }
        }
        assert(name.last() == '_');
        assert(crate::fs::dot().last() == '.');
        assert(crate::fs::dotdot().last() == '.');
    }
}

/// The names of a directory's children are legal, and no two are the same.
pub proof fn lemma_child_names(config: Config, v: Value)
    ensures
        child_names(config, v).len() == child_values(v).len(),
        forall|k: int|
            0 <= k < child_names(config, v).len() ==> legal_name(
                #[trigger] child_names(config, v)[k],
            ),
        forall|j: int, k: int|
            0 <= j < k < child_names(config, v).len() ==> #[trigger] child_names(config, v)[j]
                != #[trigger] child_names(config, v)[k],
{
    let names = child_names(config, v);
    match v {
        Value::Array(vs) => {
            assert forall|k: int| 0 <= k < names.len() implies legal_name(#[trigger] names[k]) by {
                lemma_index_name(config.pad_element_names, k as nat, vs@.len());
            }
            assert forall|j: int, k: int| 0 <= j < k < names.len() implies #[trigger] names[j]
                != #[trigger] names[k] by {
                lemma_index_name(config.pad_element_names, j as nat, vs@.len());
                lemma_index_name(config.pad_element_names, k as nat, vs@.len());
            }
        },
        Value::Object(fields) => {
            lemma_field_names(config.munge@, fields@);
        },
        _ => {},
    }
}

/// The names given to an object's fields are legal, and no two are the
/// same.
proof fn lemma_field_names(munge: Seq<(char, char)>, fields: Seq<(String, Value)>)
    ensures
        field_names(munge, fields).len() == fields.len(),
        forall|k: int|
            0 <= k < fields.len() ==> legal_name(#[trigger] field_names(munge, fields)[k]),
        forall|j: int, k: int|
            0 <= j < k < fields.len() ==> #[trigger] field_names(munge, fields)[j]
                != #[trigger] field_names(munge, fields)[k],
    decreases fields.len(),
{
    if fields.len() > 0 {
        let before = field_names(munge, fields.drop_last());
        let base = normalized(munge, fields.last().0@);
        lemma_field_names(munge, fields.drop_last());
        lemma_normalized_is_legal(munge, fields.last().0@);
        lemma_settled(before, base);
        let names = field_names(munge, fields);
        assert forall|j: int, k: int| 0 <= j < k < fields.len() implies #[trigger] names[j]
            != #[trigger] names[k] by {
            if k == fields.len() - 1 {
                assert(before[j] == names[j]);
                assert(before.contains(names[j]));
            } else {
                assert(before[j] == names[j] && before[k] == names[k]);
            }
        }
        assert forall|k: int| 0 <= k < fields.len() implies legal_name(#[trigger] names[k]) by {
            if k < fields.len() - 1 {
                assert(before[k] == names[k]);
            }
        }
    }
}

/// The names of the first `k + 1` fields are those of the first `k` and
/// the settled name of field `k`.
proof fn lemma_field_names_take(munge: Seq<(char, char)>, fields: Seq<(String, Value)>, k: int)
    requires
        0 <= k < fields.len(),
    ensures
        field_names(munge, fields.take(k + 1)) == field_names(munge, fields.take(k)).push(
            settled(field_names(munge, fields.take(k)), normalized(munge, fields[k].0@)),
        ),
{
    assert(fields.take(k + 1).drop_last() =~= fields.take(k));
}

/// The flavour of the directory that a value becomes.
fn dir_type(v: &Value) -> (r: DirType)
    ensures
        r == dir_type_of(*v),
{
    match v {
        Value::Array(_) => DirType::List,
        _ => DirType::Named,
    }
}

/// Makes the children of the directory that a value becomes, giving them
/// the inode numbers from `base` on.
fn entries_for(config: &Config, v: &Value, base: u64) -> (files: Vec<(String, DirEntry)>)
    requires
        base + child_values(*v).len() <= u64::MAX,
    ensures
        children_view(files@) == planned_children(*config, *v, base as int),
{
    let mut files: Vec<(String, DirEntry)> = Vec::new();
    let ghost plan = planned_children(*config, *v, base as int);
    match v {
        Value::Array(vs) => {
            let count: usize = vs.len();
            let mut k: usize = 0;
            while k < count
                invariant
                    k <= count,
                    count == vs@.len(),
                    *v == Value::Array(*vs),
                    base + count <= u64::MAX,
                    plan == planned_children(*config, *v, base as int),
                    files@.len() == k,
                    forall|j: int| 0 <= j < k ==> (#[trigger] children_view(files@)[j]) == plan[j],
                decreases count - k,
            {
                let name: String = element_name(config.pad_element_names, k, count);
                let entry: DirEntry = DirEntry { kind: kind(&vs[k]), inum: base + k as u64 };
                let ghost before = children_view(files@);
                files.push((name, entry));
                assert forall|j: int| 0 <= j <= k implies (#[trigger] children_view(files@)[j])
                    == plan[j] by {
                    if j < k {
                        assert(children_view(files@)[j] == before[j]);
                    }
                }
                k += 1;
            }
            assert(children_view(files@) =~= plan);
        },
        Value::Object(fields) => {
            let count: usize = fields.len();
            let mut k: usize = 0;
            assert(fields@.take(0) =~= Seq::<(String, Value)>::empty());
            while k < count
                invariant
                    k <= count,
                    count == fields@.len(),
                    *v == Value::Object(*fields),
                    base + count <= u64::MAX,
                    plan == planned_children(*config, *v, base as int),
                    files@.len() == k,
                    names_of(children_view(files@)) =~= field_names(
                        config.munge@,
                        fields@.take(k as int),
                    ),
                    forall|j: int|
                        0 <= j < k ==> (#[trigger] children_view(files@)[j]).1 == plan[j].1,
                decreases count - k,
            {
                let ghost c = children_view(files@);
                let ghost names = names_of(c);
                let mut nfield: String = config.normalize_name(fields[k].0.as_str());
                let ghost start = nfield@;
                let ghost added: nat = 0;
                assert(start + underscores(0) =~= start);
                loop
                    invariant
                        c == children_view(files@),
                        names == names_of(c),
                        nfield@ == start + underscores(added),
                        forall|m: nat|
                            m < added ==> names.contains(#[trigger] (start + underscores(m))),
                    ensures
                        settles_at(names, start, added),
                        nfield@ == start + underscores(added),
                    decreases longest(names) + 1 - nfield@.len(),
                {
                    proof {
                        lemma_position_none(c, nfield@);
                    }
                    match find_child(&files, &nfield) {
                        None => {
                            proof {
                                if names.contains(nfield@) {
                                    let i = choose|i: int|
                                        0 <= i < names.len() && names[i] == nfield@;
                                    assert(c[i].0 == nfield@);
                                }
                            }
                            break ;
                        },
                        Some(at) => {
                            proof {
                                assert(names[at as int] == nfield@);
                                lemma_longest(names, nfield@);
                            }
                        },
                    }
                    push_char(&mut nfield, '_');
                    proof {
                        assert(start + underscores(added + 1) =~= nfield@);
                        added = added + 1;
                    }
                }
                proof {
                    lemma_settles_once(names, start, added);
                    lemma_field_names_take(config.munge@, fields@, k as int);
                    lemma_field_names(config.munge@, fields@);
                }
                let entry: DirEntry = DirEntry { kind: kind(&fields[k].1), inum: base + k as u64 };
                files.push((nfield, entry));
                assert(names_of(children_view(files@)) =~= names.push(nfield@));
                assert forall|j: int| 0 <= j <= k implies (#[trigger] children_view(files@)[j]).1
                    == plan[j].1 by {
                    if j < k {
                        assert(children_view(files@)[j] == c[j]);
                    }
                }
                k += 1;
            }
            assert(fields@.take(count as int) =~= fields@);
            assert(children_view(files@) =~= plan) by {
                assert forall|j: int| 0 <= j < count implies children_view(files@)[j] == plan[j] by {
                    assert(names_of(children_view(files@))[j] == children_view(files@)[j].0);
                }
            }
        },
        _ => {
            assert(children_view(files@) =~= plan);
        },
    }
    files
}

/// The nodes below the values that stand after place `k`: what is
/// numbered between the children of one directory and the children of its
/// child at `k`.
pub open spec fn later_nodes(vs: Seq<Value>, k: int) -> int {
    count_values(vs.skip(k + 1)) - (vs.len() - k - 1)
}

/// The number that the first child of the child at `k` gets, where the
/// children themselves are numbered from `base`: the children of a later
/// child are numbered before those of an earlier one.
pub open spec fn child_base(v: Value, base: int, k: int) -> int {
    base + child_values(v).len() + later_nodes(child_values(v), k)
}

/// Inode `inum` and the inodes below it stand for the value `v` under
/// `parent`, the children of `inum` being numbered from `base`: the inode is
/// live, carries its number and that parent, and holds what is made of `v`;
/// and each child stands for the value at its place inside `v`, its own
/// children numbered as [`child_base`] says.
pub open spec fn represents(
    t: Table,
    config: Config,
    inum: int,
    parent: int,
    v: Value,
    base: int,
) -> bool
    decreases v,
    via represents_decreases
{
    &&& live(t, inum)
    &&& t[inum]->0.inum == inum
    &&& t[inum]->0.parent == parent
    &&& t[inum]->0.entry == entry_for(config, v, base)
    &&& forall|k: int|
        #![trigger child_values(v)[k]]
        0 <= k < child_values(v).len() ==> represents(
            t,
            config,
            base + k,
            inum,
            child_values(v)[k],
            child_base(v, base, k),
        )
}

/// Inode `inum` and the inodes below it stand for some value.
pub open spec fn stands_for_some(t: Table, config: Config, inum: int) -> bool {
    exists|parent: int, v: Value, base: int| represents(t, config, inum, parent, v, base)
}

#[via_fn]
proof fn represents_decreases(
    t: Table,
    config: Config,
    inum: int,
    parent: int,
    v: Value,
    base: int,
) {
    assert forall|k: int| 0 <= k < child_values(v).len() implies decreases_to!(v => #[trigger] child_values(v)[k]) by {
        lemma_child_is_smaller(v, k);
    }
}

/// What is still to be numbered below the values of a work list: the
/// nodes of each value but the value itself.
pub open spec fn unnumbered(work: Seq<(u64, u64, &Value)>) -> nat
    decreases work.len(),
{
    if work.len() == 0 {
        0
    } else {
        unnumbered(work.drop_last()) + count_values(child_values(*work.last().2))
    }
}

/// What is planned for an inode number: its parent, the value that it
/// stands for, and the number from which its children are numbered.
pub struct Planned {
    pub parent: u64,
    pub value: Value,
    pub base: int,
}

/// The inode at `i` is what is made of the value planned for `i`, and its
/// children are planned with it as their parent.
pub open spec fn shallow(config: Config, node: InodeView, i: int, plan: Seq<Planned>) -> bool {
    &&& node.inum == i
    &&& node.parent == plan[i].parent
    &&& node.entry == entry_for(config, plan[i].value, plan[i].base)
    &&& forall|k: int|
        #![trigger child_values(plan[i].value)[k]]
        0 <= k < child_values(plan[i].value).len() ==> {
            &&& 1 < plan[i].base + k < plan.len()
            &&& plan[plan[i].base + k] == (Planned {
                parent: i as u64,
                value: child_values(plan[i].value)[k],
                base: child_base(plan[i].value, plan[i].base, k),
            })
        }
}

/// What holds of an inode under a plan holds under a longer plan.
proof fn lemma_shallow_extends(
    config: Config,
    node: InodeView,
    i: int,
    plan: Seq<Planned>,
    longer: Seq<Planned>,
)
    requires
        shallow(config, node, i, plan),
        0 <= i < plan.len() <= longer.len(),
        forall|j: int| 0 <= j < plan.len() ==> longer[j] == plan[j],
    ensures
        shallow(config, node, i, longer),
{
    assert forall|k: int|
        #![trigger child_values(longer[i].value)[k]]
        0 <= k < child_values(longer[i].value).len() implies {
        &&& 1 < longer[i].base + k < longer.len()
        &&& longer[longer[i].base + k] == (Planned {
            parent: i as u64,
            value: child_values(longer[i].value)[k],
            base: child_base(longer[i].value, longer[i].base, k),
        })
    } by {
        let x = child_values(plan[i].value)[k];
    }
}

/// Every slot but the first holds what was planned for it.
pub open spec fn all_planned(config: Config, t: Table, plan: Seq<Planned>) -> bool {
    forall|i: int|
        1 <= i < t.len() ==> (#[trigger] t[i]) is Some && shallow(config, t[i]->0, i, plan)
}

/// A table in which every slot but the first holds what was planned for
/// it is well formed.
proof fn lemma_planned_table(config: Config, t: Table, plan: Seq<Planned>)
    requires
        2 <= t.len() == plan.len() <= u64::MAX,
        t[0] is None,
        all_planned(config, t, plan),
        plan[1].parent == 1,
        kind_of(plan[1].value) == FileKind::Directory,
    ensures
        table_wf(t),
{
    assert(t[1] is Some);
    assert forall|i: int| 0 <= i < t.len() implies #[trigger] inode_ok(t, i) by {
        if i >= 1 {
            assert(t[i] is Some);
            let node = t[i]->0;
            let v = plan[i].value;
            if node.entry is Directory {
                let c = node.entry->Directory_1;
                let base = plan[i].base;
                lemma_child_names(config, v);
                assert(c == planned_children(config, v, base));
                assert forall|k: int| 0 <= k < c.len() implies child_ok(t, i, #[trigger] c[k]) by {
                    let x = child_values(v)[k];
                    let j = base + k;
                    assert(t[j] is Some);
                    assert(c[k].0 == child_names(config, v)[k]);
                }
                assert forall|a: int, b: int| 0 <= a < b < c.len() implies (#[trigger] c[a]).0
                    != (#[trigger] c[b]).0 && c[a].1.inum != c[b].1.inum by {
                    let xa = child_values(v)[a];
                    let xb = child_values(v)[b];
                    assert(c[a].0 == child_names(config, v)[a]);
                    assert(c[b].0 == child_names(config, v)[b]);
                }
            }
        }
    }
}

/// In a table in which every slot but the first holds what was planned for
/// it, each inode and those below it stand for the value planned for it.
proof fn lemma_planned_represents(config: Config, t: Table, plan: Seq<Planned>, i: int)
    requires
        2 <= t.len() == plan.len() <= u64::MAX,
        all_planned(config, t, plan),
        1 <= i < t.len(),
    ensures
        represents(t, config, i, plan[i].parent as int, plan[i].value, plan[i].base),
    decreases plan[i].value,
{
    assert(t[i] is Some);
    let v = plan[i].value;
    let base = plan[i].base;
    assert forall|k: int|
        #![trigger child_values(v)[k]]
        0 <= k < child_values(v).len() implies represents(
        t,
        config,
        base + k,
        i,
        child_values(v)[k],
        child_base(v, base, k),
    ) by {
        lemma_child_is_smaller(v, k);
        lemma_planned_represents(config, t, plan, base + k);
    }
}

/// What follows a front part of a sequence of values has at least one node
/// for each value.
proof fn lemma_count_rest(vs: Seq<Value>, k: int)
    requires
        0 <= k <= vs.len(),
    ensures
        count_values(vs) >= count_values(vs.take(k)) + (vs.len() - k),
    decreases vs.len() - k,
{
    if k < vs.len() {
        lemma_count_take(vs, k);
        lemma_count_rest(vs, k + 1);
    } else {
        assert(vs.take(k) =~= vs);
    }
}

/// Above the child at `m` of the `k` children that are on the work list
/// from place `first` on, there is as much to number as below the children
/// after it.
pub open spec fn above_child(
    work: Seq<(u64, u64, &Value)>,
    cv: Seq<Value>,
    first: int,
    m: int,
    k: int,
) -> bool {
    unnumbered(work.skip(first + m + 1)) + (k - m - 1) == count_values(cv.subrange(m + 1, k))
}

/// A work list with one more value has that value's nodes, but the value
/// itself, more to number; and so has every upper part of it.
proof fn lemma_unnumbered_push(work: Seq<(u64, u64, &Value)>, item: (u64, u64, &Value), j: int)
    requires
        0 <= j <= work.len(),
    ensures
        unnumbered(work.push(item).skip(j)) == unnumbered(work.skip(j)) + count_values(
            child_values(*item.2),
        ),
{
    assert(work.push(item).skip(j).drop_last() =~= work.skip(j));
}

/// One more value at the end of a part of a sequence adds its nodes.
proof fn lemma_count_subrange(vs: Seq<Value>, from: int, to: int)
    requires
        0 <= from <= to < vs.len(),
    ensures
        count_values(vs.subrange(from, to + 1)) == count_values(vs.subrange(from, to))
            + node_count(vs[to]),
{
    assert(vs.subrange(from, to + 1).drop_last() =~= vs.subrange(from, to));
}

/// Builds the filesystem of a document whose root is an array or an
/// object.
///
/// Slot 0 of the table stays empty; the root is inode 1 and its own parent,
/// and its children are numbered from 2; the table has one slot more than
/// the document has nodes, and every one of them but slot 0 is filled.
pub fn fs(config: Config, v: Value) -> (made: FS)
    requires
        kind_of(v) == FileKind::Directory,
        node_count(v) < usize::MAX,
    ensures
        made.wf(),
        made.config == config,
        made@.len() == node_count(v) + 1,
        made@[0] is None,
        forall|i: int| 1 <= i < made@.len() ==> (#[trigger] made@[i]) is Some,
        represents(made@, config, 1, 1, v, 2),
        forall|i: int| 1 <= i < made@.len() ==> #[trigger] stands_for_some(made@, config, i),
{
    let total: usize = match size(&v) {
        Some(n) => n,
        None => unreached(),
    };
    let mut inodes: Vec<Option<Inode>> = Vec::new();
    let mut filled: usize = 0;
    while filled <= total
        invariant
            filled <= total + 1,
            total < usize::MAX,
            inodes@.len() == filled,
            forall|i: int| 0 <= i < filled ==> (#[trigger] inodes@[i]) is None,
        decreases total + 1 - filled,
    {
        inodes.push(None);
        filled += 1;
    }
    let mut next_id: u64 = ROOT_INUM;
    let mut worklist: Vec<(u64, u64, &Value)> = Vec::new();
    worklist.push((next_id, next_id, &v));
    next_id += 1;
    let ghost mut plan: Seq<Planned> = seq![
        Planned { parent: 0, value: v, base: 0 },
        Planned { parent: 1, value: v, base: 2 },
    ];
    let ghost mut slot: Seq<int> = seq![0int, 0int];
    proof {
        lemma_node_count(v);
        assert(worklist@.drop_last() =~= Seq::<(u64, u64, &Value)>::empty());
        assert(unnumbered(Seq::<(u64, u64, &Value)>::empty()) == 0);
        assert(*worklist@.last().2 == v);
        assert(unnumbered(worklist@) == count_values(child_values(v)));
        assert(worklist@.skip(1) =~= Seq::<(u64, u64, &Value)>::empty());
    }
    while worklist.len() > 0
        invariant
            inodes@.len() == total + 1,
            total == node_count(v),
            total < usize::MAX,
            2 <= next_id <= total + 1,
            plan.len() == next_id,
            slot.len() == next_id,
            next_id - 1 + unnumbered(worklist@) == total,
            inodes@[0] is None,
            forall|i: int| next_id <= i <= total ==> (#[trigger] inodes@[i]) is None,
            forall|j: int|
                #![trigger worklist@[j]]
                0 <= j < worklist@.len() ==> {
                    &&& 1 <= worklist@[j].1 < next_id
                    &&& inodes@[worklist@[j].1 as int] is None
                    &&& plan[worklist@[j].1 as int].parent == worklist@[j].0
                    &&& plan[worklist@[j].1 as int].value == *worklist@[j].2
                    &&& plan[worklist@[j].1 as int].base == next_id + unnumbered(
                        worklist@.skip(j + 1),
                    )
                    &&& slot[worklist@[j].1 as int] == j
                },
            forall|i: int|
                1 <= i < next_id && (#[trigger] inodes@[i]) is None ==> 0 <= slot[i]
                    < worklist@.len() && worklist@[slot[i]].1 == i,
            forall|i: int|
                1 <= i < next_id && inodes@[i] is Some ==> #[trigger] shallow(
                    config,
                    inodes@[i]->0@,
                    i,
                    plan,
                ),
            plan[1] == (Planned { parent: 1, value: v, base: 2 }),
        decreases total + 1 - next_id, worklist@.len(),
    {
        let ghost before = worklist@;
        let (parent, inum, cur): (u64, u64, &Value) = match worklist.pop() {
            Some(item) => item,
            None => unreached(),
        };
        let ghost rest = worklist@;
        let ghost cv = child_values(*cur);
        proof {
            assert(before[before.len() - 1] == (parent, inum, cur));
            assert(rest =~= before.drop_last());
            assert(before =~= rest.push((parent, inum, cur)));
            assert(before.skip(before.len() as int) =~= Seq::<(u64, u64, &Value)>::empty());
            assert(plan[inum as int].base == next_id);
            assert forall|j: int| 0 <= j < rest.len() implies (#[trigger] rest[j]).1 != inum
                && plan[rest[j].1 as int].base == next_id + unnumbered(rest.skip(j + 1))
                + count_values(cv) by {
                assert(rest[j] == before[j]);
                lemma_unnumbered_push(rest, (parent, inum, cur), j + 1);
            }
            lemma_count_rest(cv, 0);
            assert(cv.take(0) =~= Seq::<Value>::empty());
        }
        let kids: Vec<&Value> = children(cur);
        let ghost base: int = next_id as int;
        let files: Vec<(String, DirEntry)> = entries_for(&config, cur, next_id);
        let mut k: usize = 0;
        while k < kids.len()
            invariant
                k <= kids@.len(),
                kids@.len() == cv.len(),
                cv == child_values(*cur),
                forall|m: int| 0 <= m < kids@.len() ==> *(#[trigger] kids@[m]) == cv[m],
                inodes@.len() == total + 1,
                total < usize::MAX,
                1 <= inum < base,
                next_id == base + k,
                2 <= next_id,
                next_id + (cv.len() - k) <= total + 1,
                plan.len() == next_id,
                slot.len() == next_id,
                worklist@.len() == rest.len() + k,
                next_id - 1 + unnumbered(worklist@) + count_values(cv) - count_values(
                    cv.take(k as int),
                ) == total,
                inodes@[0] is None,
                inodes@[inum as int] is None,
                forall|i: int| base <= i <= total ==> (#[trigger] inodes@[i]) is None,
                forall|j: int|
                    #![trigger worklist@[j]]
                    0 <= j < worklist@.len() ==> {
                        &&& 1 <= worklist@[j].1 < next_id
                        &&& worklist@[j].1 != inum
                        &&& inodes@[worklist@[j].1 as int] is None
                        &&& plan[worklist@[j].1 as int].parent == worklist@[j].0
                        &&& plan[worklist@[j].1 as int].value == *worklist@[j].2
                        &&& slot[worklist@[j].1 as int] == j
                    },
                forall|j: int|
                    #![trigger worklist@[j]]
                    0 <= j < rest.len() ==> plan[worklist@[j].1 as int].base == next_id
                        + unnumbered(worklist@.skip(j + 1)) + count_values(cv) - count_values(
                        cv.take(k as int),
                    ),
                forall|m: int|
                    0 <= m < k ==> #[trigger] above_child(
                        worklist@,
                        cv,
                        rest.len() as int,
                        m,
                        k as int,
                    ),
                forall|i: int|
                    1 <= i < next_id && i != inum && (#[trigger] inodes@[i]) is None ==> 0
                        <= slot[i] < worklist@.len() && worklist@[slot[i]].1 == i,
                forall|i: int|
                    1 <= i < next_id && inodes@[i] is Some ==> #[trigger] shallow(
                        config,
                        inodes@[i]->0@,
                        i,
                        plan,
                    ),
                forall|m: int|
                    0 <= m < k ==> #[trigger] plan[base + m] == (Planned {
                        parent: inum,
                        value: cv[m],
                        base: child_base(*cur, base, m),
                    }),
                forall|m: int|
                    0 <= m < k ==> (#[trigger] worklist@[rest.len() + m]).1 == base + m,
                plan[inum as int] == (Planned { parent, value: *cur, base }),
                plan[1] == (Planned { parent: 1, value: v, base: 2 }),
            decreases kids@.len() - k,
        {
            let ghost old_work = worklist@;
            let ghost old_plan = plan;
            let ghost old_slot = slot;
            let ghost item = (inum, next_id, kids@[k as int]);
            worklist.push((inum, next_id, kids[k]));
            proof {
                plan = old_plan.push(
                    Planned {
                        parent: inum,
                        value: cv[k as int],
                        base: child_base(*cur, base, k as int),
                    },
                );
                slot = old_slot.push(old_work.len() as int);
                assert(worklist@ == old_work.push(item));
                assert(worklist@.drop_last() =~= old_work);
                lemma_count_take(cv, k as int);
                lemma_node_count(cv[k as int]);
                assert forall|i: int| 1 <= i < next_id + 1 && inodes@[i] is Some implies #[trigger] shallow(
                    config,
                    inodes@[i]->0@,
                    i,
                    plan,
                ) by {
                    lemma_shallow_extends(config, inodes@[i]->0@, i, old_plan, plan);
                }
                assert forall|j: int|
                    #![trigger worklist@[j]]
                    0 <= j < worklist@.len() implies {
                    &&& 1 <= worklist@[j].1 < next_id + 1
                    &&& worklist@[j].1 != inum
                    &&& inodes@[worklist@[j].1 as int] is None
                    &&& plan[worklist@[j].1 as int].parent == worklist@[j].0
                    &&& plan[worklist@[j].1 as int].value == *worklist@[j].2
                    &&& slot[worklist@[j].1 as int] == j
                } by {
                    if j < old_work.len() {
                        assert(worklist@[j] == old_work[j]);
                    }
                }
                assert forall|j: int|
                    #![trigger worklist@[j]]
                    0 <= j < rest.len() implies plan[worklist@[j].1 as int].base == next_id + 1
                    + unnumbered(worklist@.skip(j + 1)) + count_values(cv) - count_values(
                    cv.take(k as int + 1),
                ) by {
                    assert(worklist@[j] == old_work[j]);
                    lemma_unnumbered_push(old_work, item, j + 1);
                }
                assert forall|m: int| 0 <= m < k + 1 implies #[trigger] above_child(
                    worklist@,
                    cv,
                    rest.len() as int,
                    m,
                    k as int + 1,
                ) by {
                    if m < k {
                        assert(above_child(old_work, cv, rest.len() as int, m, k as int));
                        lemma_unnumbered_push(old_work, item, rest.len() + m + 1);
                        lemma_count_subrange(cv, m + 1, k as int);
                    } else {
                        assert(worklist@.skip(rest.len() + m + 1) =~= Seq::<
                            (u64, u64, &Value),
                        >::empty());
                        assert(cv.subrange(m + 1, k as int + 1) =~= Seq::<Value>::empty());
                    }
                }
                assert forall|i: int|
                    1 <= i < next_id + 1 && i != inum && (#[trigger] inodes@[i]) is None implies 0
                    <= slot[i] < worklist@.len() && worklist@[slot[i]].1 == i by {
                    if i < next_id {
                        assert(worklist@[old_slot[i]] == old_work[old_slot[i]]);
                    }
                }
                assert forall|m: int| 0 <= m < k + 1 implies #[trigger] plan[base + m] == (Planned {
                    parent: inum,
                    value: cv[m],
                    base: child_base(*cur, base, m),
                }) by {
                    if m < k {
                        assert(old_plan[base + m] == (Planned {
                            parent: inum,
                            value: cv[m],
                            base: child_base(*cur, base, m),
                        }));
                    }
                }
                assert forall|m: int| 0 <= m < k + 1 implies (#[trigger] worklist@[rest.len()
                    + m]).1 == base + m by {
                    if m < k {
                        assert(worklist@[rest.len() + m] == old_work[rest.len() + m]);
                    }
                }
            }
            next_id += 1;
            k += 1;
        }
        let entry: Entry = match kind(cur) {
            FileKind::RegularFile => Entry::File(render(cur, config.add_newlines)),
            FileKind::Directory => Entry::Directory(dir_type(cur), files),
        };
        proof {
            assert(cv.take(k as int) =~= cv);
            assert(entry@ == entry_for(config, *cur, base));
            assert forall|j: int|
                #![trigger worklist@[j]]
                0 <= j < worklist@.len() implies plan[worklist@[j].1 as int].base == next_id
                + unnumbered(worklist@.skip(j + 1)) by {
                if j >= rest.len() {
                    let m = j - rest.len();
                    assert(worklist@[rest.len() + m].1 == base + m);
                    assert(above_child(worklist@, cv, rest.len() as int, m, k as int));
                    assert(plan[base + m].base == child_base(*cur, base, m));
                    assert(cv.subrange(m + 1, k as int) =~= cv.skip(m + 1));
                }
            }
        }
        let ghost old_inodes = inodes@;
        inodes[inum as usize] = Some(Inode { parent, inum, entry });
        proof {
            let node = inodes@[inum as int]->0@;
            assert(shallow(config, node, inum as int, plan)) by {
                assert forall|m: int|
                    #![trigger child_values(plan[inum as int].value)[m]]
                    0 <= m < child_values(plan[inum as int].value).len() implies {
                    &&& 1 < plan[inum as int].base + m < plan.len()
                    &&& plan[plan[inum as int].base + m] == (Planned {
                        parent: inum,
                        value: child_values(plan[inum as int].value)[m],
                        base: child_base(plan[inum as int].value, plan[inum as int].base, m),
                    })
                } by {
                    assert(plan[base + m] == (Planned {
                        parent: inum,
                        value: cv[m],
                        base: child_base(*cur, base, m),
                    }));
                }
            }
            assert forall|i: int| 1 <= i < next_id && inodes@[i] is Some implies #[trigger] shallow(
                config,
                inodes@[i]->0@,
                i,
                plan,
            ) by {
                if i != inum {
                    assert(inodes@[i] == old_inodes[i]);
                    assert(shallow(config, old_inodes[i]->0@, i, plan));
                }
            }
            assert forall|i: int|
                1 <= i < next_id && (#[trigger] inodes@[i]) is None implies 0 <= slot[i]
                < worklist@.len() && worklist@[slot[i]].1 == i by {
                assert(old_inodes[i] is None);
            }
        }
    }
    proof {
        assert(unnumbered(worklist@) == 0);
        let t = table_view(inodes@);
        assert forall|i: int| 1 <= i < t.len() implies (#[trigger] t[i]) is Some && shallow(
            config,
            t[i]->0,
            i,
            plan,
        ) by {
            assert(inodes@[i] is Some);
            assert(shallow(config, inodes@[i]->0@, i, plan));
        }
        lemma_planned_table(config, t, plan);
        lemma_planned_represents(config, t, plan, 1);
        assert forall|i: int| 1 <= i < t.len() implies #[trigger] stands_for_some(
            t,
            config,
            i,
        ) by {
            lemma_planned_represents(config, t, plan, i);
        }
    }
    FS { inodes, config }
}

/// In the table made of a document, the children of a list directory
/// are called by their index: the name of the child at `k` is made of
/// digits and writes `k`, and with padding all the names have one length.
pub proof fn law_list_names(
    config: Config,
    t: Table,
    inum: int,
    parent: int,
    v: Value,
    base: int,
    k: int,
)
    requires
        represents(t, config, inum, parent, v, base),
        t[inum]->0.entry matches EntryView::Directory(flavour, c) && flavour == DirType::List && 0
            <= k < c.len(),
    ensures
        parse_index(t[inum]->0.entry->Directory_1[k].0) == Some(k as nat),
        t[inum]->0.entry->Directory_1[k].0 == index_name(
            config.pad_element_names,
            k as nat,
            t[inum]->0.entry->Directory_1.len(),
        ),
        config.pad_element_names ==> t[inum]->0.entry->Directory_1[k].0.len()
            == t[inum]->0.entry->Directory_1[0].0.len(),
{
    let c = t[inum]->0.entry->Directory_1;
    lemma_index_name(config.pad_element_names, k as nat, c.len());
    crate::names::lemma_padded_names_have_one_length(k as nat, 0, c.len());
}

} // verus!
