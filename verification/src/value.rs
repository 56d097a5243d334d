//! The document: a tree of values, and what a scalar looks like as a file.

use crate::fs::FileKind;
use vstd::prelude::*;
use vstd::std_specs::iter::IteratorSpec;
use vstd::string::{StrSliceExecFns, StringExecFns};
use vstd::utf8::encode_utf8;

verus! {

broadcast use {vstd::string::group_string_axioms, vstd::std_specs::vec::group_vec_axioms};

/// A document value. A number is held as its text; an object keeps its
/// fields in the order in which they were given.
#[derive(Debug, PartialEq, Eq)]
pub enum Value {
    Null,
    Bool(bool),
    Number(String),
    String(String),
    Array(Vec<Value>),
    Object(Vec<(String, Value)>),
}

/// The kind of file that a value becomes: a directory for an array or an
/// object, a regular file for the rest.
pub open spec fn kind_of(v: Value) -> FileKind {
    match v {
        Value::Array(_) | Value::Object(_) => FileKind::Directory,
        _ => FileKind::RegularFile,
    }
}

/// The values directly inside a value: the elements of an array, the
/// values of an object's fields, none for a scalar.
pub open spec fn child_values(v: Value) -> Seq<Value> {
    match v {
        Value::Array(vs) => vs@,
        Value::Object(fields) => Seq::new(fields@.len(), |k: int| fields@[k].1),
        _ => Seq::empty(),
    }
}

/// The number of nodes of a sequence of values, all taken together.
pub open spec fn count_values(vs: Seq<Value>) -> nat
    decreases vs,
{
    if vs.len() == 0 {
        0
    } else {
        count_values(vs.drop_last()) + node_count(vs.last())
    }
}

/// The number of nodes of the fields' values, all taken together.
pub open spec fn count_fields(fields: Seq<(String, Value)>) -> nat
    decreases fields,
{
    if fields.len() == 0 {
        0
    } else {
        count_fields(fields.drop_last()) + node_count(fields.last().1)
    }
}

/// The number of nodes of a value: itself and all that is inside it.
pub open spec fn node_count(v: Value) -> nat
    decreases v,
{
    match v {
        Value::Array(vs) => 1 + count_values(vs@),
        Value::Object(fields) => 1 + count_fields(fields@),
        _ => 1,
    }
}

/// The nodes of a value are itself and the nodes of the values inside it.
pub proof fn lemma_node_count(v: Value)
    ensures
        node_count(v) == 1 + count_values(child_values(v)),
{
    match v {
        Value::Array(vs) => {},
        Value::Object(fields) => {
            lemma_count_fields(fields@);
            assert(child_values(v) =~= Seq::new(fields@.len(), |k: int| fields@[k].1));
        },
        _ => {
            assert(child_values(v) =~= Seq::<Value>::empty());
        },
    }
}

/// The nodes of the fields' values are the nodes of the values taken by
/// themselves.
proof fn lemma_count_fields(fields: Seq<(String, Value)>)
    ensures
        count_fields(fields) == count_values(Seq::new(fields.len(), |k: int| fields[k].1)),
    decreases fields.len(),
{
    let vs = Seq::new(fields.len(), |k: int| fields[k].1);
    if fields.len() > 0 {
        let shorter = fields.drop_last();
        lemma_count_fields(shorter);
        assert(vs.drop_last() =~= Seq::new(shorter.len(), |k: int| shorter[k].1));
    }
}

/// A sequence of values has at least as many nodes as it has values, and
/// its nodes are those of a front part and the rest.
pub proof fn lemma_count_take(vs: Seq<Value>, k: int)
    requires
        0 <= k < vs.len(),
    ensures
        count_values(vs.take(k + 1)) == count_values(vs.take(k)) + node_count(vs[k]),
        node_count(vs[k]) >= 1,
{
    assert(vs.take(k + 1).drop_last() =~= vs.take(k));
    lemma_node_count(vs[k]);
}

/// The newline that ends a scalar's file, if one is asked for.
pub open spec fn newline(add: bool) -> Seq<char> {
    if add {
        seq!['\n']
    } else {
        Seq::empty()
    }
}

/// The text ends in a newline.
pub open spec fn ends_in_newline(text: Seq<char>) -> bool {
    text.len() > 0 && text.last() == '\n'
}

/// The text of a scalar's file: nothing for null, `true` or `false`, the
/// number's text, or the string; then the newline if one is asked for,
/// but not after a string that ends in one already.
pub open spec fn scalar_text(v: Value, add_newlines: bool) -> Seq<char> {
    match v {
        Value::Null => newline(add_newlines),
        Value::Bool(b) => if b {
            seq!['t', 'r', 'u', 'e'] + newline(add_newlines)
        } else {
            seq!['f', 'a', 'l', 's', 'e'] + newline(add_newlines)
        },
        Value::Number(text) => text@ + newline(add_newlines),
        Value::String(text) => if ends_in_newline(text@) {
            text@
        } else {
            text@ + newline(add_newlines)
        },
        _ => Seq::empty(),
    }
}

/// The bytes of a scalar's file: its text in UTF-8.
pub open spec fn scalar_bytes(v: Value, add_newlines: bool) -> Seq<u8> {
    encode_utf8(scalar_text(v, add_newlines))
}

/// Whether the text ends in a newline.
pub fn has_final_newline(text: &str) -> (r: bool)
    ensures
        r == ends_in_newline(text@),
{
    let mut last: Option<char> = None;
    for c in it: text.chars()
        invariant
            it.seq() == text@,
            last == if it.index() == 0 {
                None::<char>
            } else {
                Some(text@[it.index() - 1])
            },
    {
        last = Some(c);
    }
    match last {
        Some(c) => c == '\n',
        None => false,
    }
}

/// Predicts the kind of file from a value.
pub fn kind(v: &Value) -> (r: FileKind)
    ensures
        r == kind_of(*v),
{
    match v {
        Value::Object(_) | Value::Array(_) => FileKind::Directory,
        _ => FileKind::RegularFile,
    }
}

/// The values directly inside a value, in order.
pub fn children(v: &Value) -> (r: Vec<&Value>)
    ensures
        r@.len() == child_values(*v).len(),
        forall|k: int| 0 <= k < r@.len() ==> *(#[trigger] r@[k]) == child_values(*v)[k],
{
    let mut r: Vec<&Value> = Vec::new();
    match v {
        Value::Array(vs) => {
            let mut k: usize = 0;
            while k < vs.len()
                invariant
                    k <= vs@.len(),
                    r@.len() == k,
                    forall|j: int| 0 <= j < k ==> *(#[trigger] r@[j]) == vs@[j],
                decreases vs@.len() - k,
            {
                r.push(&vs[k]);
                k += 1;
            }
        },
        Value::Object(fields) => {
            let mut k: usize = 0;
            while k < fields.len()
                invariant
                    k <= fields@.len(),
                    r@.len() == k,
                    forall|j: int| 0 <= j < k ==> *(#[trigger] r@[j]) == fields@[j].1,
                decreases fields@.len() - k,
            {
                r.push(&fields[k].1);
                k += 1;
            }
        },
        _ => {},
    }
    r
}

/// The number of nodes of a value, if it fits.
pub fn size(v: &Value) -> (r: Option<usize>)
    ensures
        match r {
            Some(n) => n == node_count(*v),
            None => node_count(*v) > usize::MAX,
        },
    decreases *v,
{
    let kids: Vec<&Value> = children(v);
    proof {
        lemma_node_count(*v);
    }
    let ghost vs = child_values(*v);
    let mut total: usize = 1;
    let mut k: usize = 0;
    while k < kids.len()
        invariant
            k <= kids@.len(),
            kids@.len() == vs.len(),
            vs == child_values(*v),
            node_count(*v) == 1 + count_values(vs),
            forall|j: int| 0 <= j < kids@.len() ==> *(#[trigger] kids@[j]) == vs[j],
            total == 1 + count_values(vs.take(k as int)),
        decreases kids@.len() - k,
    {
        proof {
            lemma_count_take(vs, k as int);
            lemma_child_is_smaller(*v, k as int);
        }
        let part: usize = match size(kids[k]) {
            Some(n) => n,
            None => {
                proof {
                    lemma_count_grows(vs, k as int + 1);
                }
                return None;
            },
        };
        total = match total.checked_add(part) {
            Some(n) => n,
            None => {
                proof {
                    lemma_count_grows(vs, k as int + 1);
                }
                return None;
            },
        };
        k += 1;
    }
    assert(vs.take(k as int) =~= vs);
    Some(total)
}

/// A value directly inside another is smaller than it.
pub proof fn lemma_child_is_smaller(v: Value, k: int)
    requires
        0 <= k < child_values(v).len(),
    ensures
        decreases_to!(v => child_values(v)[k]),
{
    match v {
        Value::Array(vs) => {
            assert(decreases_to!(v => vs));
            assert(decreases_to!(vs => vs@[k]));
        },
        Value::Object(fields) => {
            assert(decreases_to!(v => fields));
            assert(decreases_to!(fields => fields@[k]));
            assert(decreases_to!(fields@[k] => fields@[k].1));
        },
        _ => {},
    }
}

/// A front part of a sequence of values has no more nodes than the whole.
pub proof fn lemma_count_grows(vs: Seq<Value>, k: int)
    requires
        0 <= k <= vs.len(),
    ensures
        count_values(vs.take(k)) <= count_values(vs),
    decreases vs.len() - k,
{
    if k < vs.len() {
        lemma_count_take(vs, k);
        lemma_count_grows(vs, k + 1);
    } else {
        assert(vs.take(k) =~= vs);
    }
}

/// The bytes of the file that a scalar becomes.
pub fn render(v: &Value, add_newlines: bool) -> (r: Vec<u8>)
    requires
        kind_of(*v) == FileKind::RegularFile,
    ensures
        r@ == scalar_bytes(*v, add_newlines),
{
    proof {
        reveal_strlit("true");
        reveal_strlit("false");
        reveal_strlit("\n");
        reveal_strlit("");
    }
    let nl: &str = if add_newlines {
        "\n"
    } else {
        ""
    };
    assert(nl@ =~= newline(add_newlines));
    let mut text: String = String::new();
    match v {
        Value::Null => {},
        Value::Bool(b) => {
            if *b {
                text.append("true");
                assert(text@ =~= seq!['t', 'r', 'u', 'e']);
            } else {
                text.append("false");
                assert(text@ =~= seq!['f', 'a', 'l', 's', 'e']);
            }
        },
        Value::Number(n) => {
            text.append(n.as_str());
            assert(text@ =~= n@);
        },
        Value::String(s) => {
            text.append(s.as_str());
            assert(text@ =~= s@);
            if has_final_newline(s.as_str()) {
                return text.as_str().as_bytes_vec();
            }
        },
        _ => {},
    }
    let ghost body = text@;
    text.append(nl);
    assert(Seq::<char>::empty() + newline(add_newlines) =~= newline(add_newlines));
    text.as_str().as_bytes_vec()
}

} // verus!
