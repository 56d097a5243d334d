//! What comes back when a document is made into a filesystem and read
//! out again.
//!
//! The document comes back as it went in, but for two things: a number
//! comes back as `serde_json` writes it, and where files end in a newline a
//! string comes back without its final newline. This holds of the
//! documents that [`survives`] describes: a string that reads as a number, as
//! `true` or as nothing comes back as that, and a field whose name had to be
//! changed comes back under the changed name.

use crate::config::Config;
use crate::fs::{DirType, EntryView, FileKind, Table};
use crate::json::{child_base, child_names, dir_type_of, planned_children, represents};
use crate::names::lemma_index_name;
use crate::save::{
    all_some, false_text, file_tree, gathered, insert_sorted, json_number, keys_of, named,
    parts_below, scalar_tree, sorted_order, subtree, true_text, unwrapped, walk_order, Tree,
};
use crate::value::{
    child_values, count_values, ends_in_newline, kind_of, lemma_child_is_smaller, lemma_node_count,
    newline, node_count, scalar_bytes, Value,
};
use vstd::prelude::*;
use vstd::utf8::{
    encode_utf8, encode_utf8_decode_utf8, encode_utf8_valid_utf8, is_ascii_chars,
    is_ascii_chars_encode_utf8,
};

verus! {

/// The text without its final newline, where files are written with one.
pub open spec fn core_text(text: Seq<char>, add_newlines: bool) -> Seq<char> {
    if add_newlines && ends_in_newline(text) {
        text.drop_last()
    } else {
        text
    }
}

/// A text that is read back as a string: not empty, neither `true` nor
/// `false`, and no number.
pub open spec fn reads_as_string(text: Seq<char>) -> bool {
    &&& text.len() > 0
    &&& text != true_text()
    &&& text != false_text()
    &&& json_number(text) is None
}

/// A text that is read back as a number.
pub open spec fn reads_as_number(text: Seq<char>) -> bool {
    &&& text.len() > 0
    &&& text != true_text()
    &&& text != false_text()
    &&& json_number(text) is Some
}

/// The documents that come back: every number's text reads as a number,
/// every string reads as a string once its final newline is gone, and
/// every field of an object is called in the filesystem as it is called in
/// the document.
pub open spec fn survives(config: Config, v: Value) -> bool
    decreases v,
    via survives_decreases
{
    &&& match v {
        Value::Number(text) => reads_as_number(text@),
        Value::String(text) => reads_as_string(core_text(text@, config.add_newlines)),
        Value::Object(fields) => forall|k: int|
            0 <= k < fields@.len() ==> #[trigger] child_names(config, v)[k] == fields@[k].0@,
        _ => true,
    }
    &&& forall|k: int|
        #![trigger child_values(v)[k]]
        0 <= k < child_values(v).len() ==> survives(config, child_values(v)[k])
}

#[via_fn]
proof fn survives_decreases(config: Config, v: Value) {
    assert forall|k: int| 0 <= k < child_values(v).len() implies decreases_to!(v => #[trigger] child_values(v)[k]) by {
        lemma_child_is_smaller(v, k);
    }
}

/// The tree is the value, but for how numbers are written and for the
/// final newline of strings.
pub open spec fn similar(add_newlines: bool, v: Value, tree: Tree) -> bool
    decreases v,
    via similar_decreases
{
    match v {
        Value::Null => tree == Tree::Null,
        Value::Bool(b) => tree == Tree::Bool(b),
        Value::Number(text) => tree matches Tree::Number(written) && json_number(text@) == Some(
            written,
        ),
        Value::String(text) => tree == Tree::String(core_text(text@, add_newlines)),
        Value::Array(vs) => tree matches Tree::Array(items) && items.len() == vs@.len()
            && forall|k: int|
            #![trigger child_values(v)[k]]
            0 <= k < child_values(v).len() ==> similar(add_newlines, child_values(v)[k], items[k]),
        Value::Object(fields) => tree matches Tree::Object(items) && items.len() == fields@.len()
            && forall|k: int|
            #![trigger child_values(v)[k]]
            0 <= k < child_values(v).len() ==> items[k].0 == fields@[k].0@ && similar(
                add_newlines,
                child_values(v)[k],
                items[k].1,
            ),
    }
}

#[via_fn]
proof fn similar_decreases(add_newlines: bool, v: Value, tree: Tree) {
    assert forall|k: int| 0 <= k < child_values(v).len() implies decreases_to!(v => #[trigger] child_values(v)[k]) by {
        lemma_child_is_smaller(v, k);
    }
}

/// The bytes of two texts one after the other are the bytes of the first
/// and then those of the second.
proof fn lemma_encode_concat(a: Seq<char>, b: Seq<char>)
    ensures
        encode_utf8(a + b) == encode_utf8(a) + encode_utf8(b),
    decreases a.len(),
{
    if a.len() == 0 {
        assert(a + b =~= b);
        assert(encode_utf8(a) + encode_utf8(b) =~= encode_utf8(b));
    } else {
        assert((a + b).drop_first() =~= a.drop_first() + b);
        lemma_encode_concat(a.drop_first(), b);
        assert(encode_utf8(a + b) =~= encode_utf8(a) + encode_utf8(b));
    }
}

/// A text that ends in a newline has bytes that end in the newline's
/// byte, and without it they are the bytes of the text without it.
proof fn lemma_encode_line(text: Seq<char>)
    ensures
        encode_utf8(text + seq!['\n']).len() > 0,
        encode_utf8(text + seq!['\n']).last() == 10u8,
        encode_utf8(text + seq!['\n']).drop_last() == encode_utf8(text),
{
    let nl = seq!['\n'];
    lemma_encode_concat(text, nl);
    assert(is_ascii_chars(nl));
    is_ascii_chars_encode_utf8(nl);
    assert(encode_utf8(nl)[0] == nl[0] as u8);
    assert(encode_utf8(nl) =~= seq![10u8]);
    assert((encode_utf8(text) + seq![10u8]).drop_last() =~= encode_utf8(text));
}

/// The file made of a text and the newline asked for is read back as the
/// text.
proof fn lemma_file_of_text(text: Seq<char>, add_newlines: bool)
    ensures
        file_tree(encode_utf8(text + newline(add_newlines)), add_newlines) == Some(
            scalar_tree(text, json_number(text)),
        ),
{
    if add_newlines {
        lemma_encode_line(text);
    } else {
        assert(text + newline(add_newlines) =~= text);
    }
    encode_utf8_valid_utf8(text);
    encode_utf8_decode_utf8(text);
}

/// The file made of a scalar that survives is read back as a tree similar
/// to the scalar.
pub proof fn lemma_scalar_comes_back(config: Config, v: Value)
    requires
        kind_of(v) == FileKind::RegularFile,
        survives(config, v),
    ensures
        file_tree(scalar_bytes(v, config.add_newlines), config.add_newlines) is Some,
        similar(
            config.add_newlines,
            v,
            file_tree(scalar_bytes(v, config.add_newlines), config.add_newlines)->0,
        ),
{
    let add = config.add_newlines;
    match v {
        Value::Null => {
            assert(Seq::<char>::empty() + newline(add) =~= newline(add));
            lemma_file_of_text(Seq::empty(), add);
        },
        Value::Bool(b) => {
            if b {
                lemma_file_of_text(true_text(), add);
            } else {
                lemma_file_of_text(false_text(), add);
                assert(false_text().len() != true_text().len());
            }
        },
        Value::Number(text) => {
            lemma_file_of_text(text@, add);
        },
        Value::String(text) => {
            if ends_in_newline(text@) {
                let front = text@.drop_last();
                assert(text@ =~= front + seq!['\n']);
                if add {
                    lemma_file_of_text(front, add);
                } else {
                    assert(text@ + newline(add) =~= text@);
                    lemma_file_of_text(text@, add);
                }
            } else {
                lemma_file_of_text(text@, add);
            }
        },
        _ => {},
    }
}

/// Children whose keys are their own indices are read out in their order.
proof fn lemma_sorted_in_order(keys: Seq<Option<u64>>, n: nat)
    requires
        n <= keys.len(),
        forall|k: int| 0 <= k < n ==> #[trigger] keys[k] == Some(k as u64) && k <= u64::MAX,
    ensures
        sorted_order(keys, n) == Seq::new(n, |k: int| k),
    decreases n,
{
    if n > 0 {
        lemma_sorted_in_order(keys, (n - 1) as nat);
        let before = sorted_order(keys, (n - 1) as nat);
        if before.len() > 0 {
            assert(before.last() == n - 2);
            assert(keys[n - 2] == Some((n - 2) as u64));
            assert(keys[n - 1] == Some((n - 1) as u64));
        }
        assert(insert_sorted(keys, before, n - 1) == before.push(n - 1));
        assert(before.push(n - 1) =~= Seq::new(n, |k: int| k));
    } else {
        assert(sorted_order(keys, n) =~= Seq::new(n, |k: int| k));
    }
}

/// A value has no more nodes than the sequence of values that it is in.
proof fn lemma_child_count(vs: Seq<Value>, k: int)
    requires
        0 <= k < vs.len(),
    ensures
        node_count(vs[k]) <= count_values(vs),
    decreases vs.len(),
{
    if k == vs.len() - 1 {
    } else {
        assert(vs.drop_last()[k] == vs[k]);
        lemma_child_count(vs.drop_last(), k);
    }
}

/// A document that survives comes back: read out of a table in which
/// inode `inum` stands for it, to a depth of at least as many inodes as it
/// has nodes, it is a tree similar to it.
pub proof fn law_document_comes_back(
    config: Config,
    t: Table,
    inum: int,
    parent: int,
    v: Value,
    base: int,
    fuel: nat,
)
    requires
        t.len() <= u64::MAX,
        represents(t, config, inum, parent, v, base),
        survives(config, v),
        fuel >= node_count(v),
    ensures
        subtree(t, config.add_newlines, inum, fuel) is Some,
        similar(config.add_newlines, v, subtree(t, config.add_newlines, inum, fuel)->0),
    decreases v,
{
    let add = config.add_newlines;
    lemma_node_count(v);
    let entry = t[inum]->0.entry;
    let cv = child_values(v);
    if kind_of(v) == FileKind::RegularFile {
        lemma_scalar_comes_back(config, v);
    } else {
        let c = planned_children(config, v, base);
        let flavour = dir_type_of(v);
        assert(entry == EntryView::Directory(flavour, c));
        let order = walk_order(flavour, c);
        let parts = parts_below(t, add, c, order, (fuel - 1) as nat);
        assert forall|k: int|
            #![trigger cv[k]]
            0 <= k < cv.len() implies 0 <= base + k < t.len() by {
            assert(represents(t, config, base + k, inum, cv[k], child_base(v, base, k)));
        }
        if cv.len() > 0 {
            assert(represents(t, config, base + 0, inum, cv[0], child_base(v, base, 0)));
        }
        assert(order =~= Seq::new(c.len(), |k: int| k)) by {
            if flavour == DirType::List {
                let keys = keys_of(c);
                assert forall|k: int| 0 <= k < c.len() implies #[trigger] keys[k] == Some(
                    k as u64,
                ) && k <= u64::MAX by {
                    lemma_index_name(config.pad_element_names, k as nat, cv.len());
                    assert(c[k].0 == child_names(config, v)[k]);
                }
                lemma_sorted_in_order(keys, c.len());
            }
        }
        assert forall|k: int| 0 <= k < c.len() implies (#[trigger] parts[k]) is Some && similar(
            add,
            cv[k],
            parts[k]->0,
        ) by {
            let x = child_values(v)[k];
            assert(represents(t, config, base + k, inum, cv[k], child_base(v, base, k)));
            assert(survives(config, cv[k]));
            lemma_child_is_smaller(v, k);
            lemma_child_count(cv, k);
            assert(c[order[k]].1.inum == base + k);
            law_document_comes_back(
                config,
                t,
                base + k,
                inum,
                cv[k],
                child_base(v, base, k),
                (fuel - 1) as nat,
            );
        }
        assert(all_some(parts));
        let tree = gathered(flavour, c, order, parts)->0;
        assert(subtree(t, add, inum, fuel) == Some(tree));
        match v {
            Value::Array(vs) => {
                assert(tree == Tree::Array(unwrapped(parts)));
                assert forall|k: int|
                    #![trigger child_values(v)[k]]
                    0 <= k < child_values(v).len() implies similar(
                    add,
                    child_values(v)[k],
                    unwrapped(parts)[k],
                ) by {
                    assert(parts[k] is Some);
                }
            },
            Value::Object(fields) => {
                assert(tree == Tree::Object(named(c, order, parts)));
                assert forall|k: int|
                    #![trigger child_values(v)[k]]
                    0 <= k < child_values(v).len() implies named(c, order, parts)[k].0
                    == fields@[k].0@ && similar(
                    add,
                    child_values(v)[k],
                    named(c, order, parts)[k].1,
                ) by {
                    assert(parts[k] is Some);
                    assert(c[k].0 == child_names(config, v)[k]);
                }
            },
            _ => {},
        }
    }
}

/// What `sync` gives on the filesystem that `fs` makes of a document that
/// survives: a tree similar to the document.
pub proof fn law_ingest_then_save(config: Config, t: Table, v: Value)
    requires
        t.len() == node_count(v) + 1,
        t.len() <= u64::MAX,
        represents(t, config, 1, 1, v, 2),
        survives(config, v),
    ensures
        subtree(t, config.add_newlines, 1, t.len()) is Some,
        similar(config.add_newlines, v, subtree(t, config.add_newlines, 1, t.len())->0),
{
    law_document_comes_back(config, t, 1, 1, v, 2, t.len());
}

/// What is read out of a well-formed table from the root is an array or
/// an object.
pub proof fn law_saved_root_is_a_directory(t: Table, add_newlines: bool, fuel: nat)
    requires
        crate::fs::table_wf(t),
        subtree(t, add_newlines, 1, fuel) is Some,
    ensures
        subtree(t, add_newlines, 1, fuel)->0 is Array || subtree(t, add_newlines, 1, fuel)->0
            is Object,
{
}

/// A document read out of any well-formed table can be made into a
/// filesystem again, and if it survives, what is read out of that is a
/// tree similar to it.
pub proof fn law_save_then_ingest(config: Config, t: Table, fuel: nat, v: Value, again: Table)
    requires
        crate::fs::table_wf(t),
        subtree(t, config.add_newlines, 1, fuel) == Some(crate::save::tree_of(v)),
        survives(config, v),
        again.len() == node_count(v) + 1,
        again.len() <= u64::MAX,
        represents(again, config, 1, 1, v, 2),
    ensures
        kind_of(v) == FileKind::Directory,
        subtree(again, config.add_newlines, 1, again.len()) is Some,
        similar(config.add_newlines, v, subtree(again, config.add_newlines, 1, again.len())->0),
{
    law_saved_root_is_a_directory(t, config.add_newlines, fuel);
    law_ingest_then_save(config, again, v);
}

} // verus!
