//! Reading the document back out of the filesystem.
//!
//! A list directory becomes an array, its children in the order of the
//! numbers that their names write; a named directory becomes an object, its
//! children in the order kept; a file becomes a scalar, read from its text.

use crate::fs::{
    children_view, live, Children, DirEntry, DirType, Entry, EntryView, Inode, Table, FS,
    ROOT_INUM,
};
use crate::names::{all_digits, digit_value, numeral_value, parse_index};
use crate::value::Value;
use vstd::prelude::*;
use vstd::std_specs::iter::IteratorSpec;
use vstd::utf8::{decode_utf8, encode_utf8, valid_utf8};

verus! {

broadcast use vstd::string::group_string_axioms;

/// The mathematical value of a document.
pub enum Tree {
    Null,
    Bool(bool),
    Number(Seq<char>),
    String(Seq<char>),
    Array(Seq<Tree>),
    Object(Seq<(Seq<char>, Tree)>),
}

/// The tree that a value is.
pub open spec fn tree_of(v: Value) -> Tree
    decreases v,
{
    match v {
        Value::Null => Tree::Null,
        Value::Bool(b) => Tree::Bool(b),
        Value::Number(text) => Tree::Number(text@),
        Value::String(text) => Tree::String(text@),
        Value::Array(vs) => Tree::Array(
            Seq::new(
                vs@.len(),
                |k: int|
                    if 0 <= k < vs@.len() {
                        tree_of(vs@[k])
                    } else {
                        Tree::Null
                    },
            ),
        ),
        Value::Object(fields) => Tree::Object(
            Seq::new(
                fields@.len(),
                |k: int|
                    if 0 <= k < fields@.len() {
                        (fields@[k].0@, tree_of(fields@[k].1))
                    } else {
                        (Seq::empty(), Tree::Null)
                    },
            ),
        ),
    }
}

/// The tree of a value that may be absent.
pub open spec fn tree_of_option(v: Option<Value>) -> Option<Tree> {
    match v {
        Some(v) => Some(tree_of(v)),
        None => None,
    }
}

/// The characters of a string that may be absent.
pub open spec fn text_view(text: Option<String>) -> Option<Seq<char>> {
    match text {
        Some(s) => Some(s@),
        None => None,
    }
}

/// What `serde_json` makes of a text read as one JSON number: the
/// number written out again, or nothing if the text is no number.
pub uninterp spec fn json_number(text: Seq<char>) -> Option<Seq<char>>;

/// `serde_json::Number::from_str` (through `str::parse`), and the number it gives written out
/// as `serde_json` writes it: the result depends on the text alone.
#[verifier::external_body]
fn parse_number(text: &str) -> (r: Option<String>)
    ensures
        text_view(r) == json_number(text@),
{
    match text.parse::<serde_json::Number>() {
        Ok(n) => Some(n.to_string()),
        Err(_) => None,
    }
}

/// `std::str::from_utf8`: the bytes as text, if they are UTF-8; the
/// text then has exactly these bytes.
#[verifier::external_body]
fn text_of(bytes: &[u8]) -> (r: Option<&str>)
    ensures
        match r {
            Some(text) => encode_utf8(text@) == bytes@,
            None => !valid_utf8(bytes@),
        },
{
    std::str::from_utf8(bytes).ok()
}

/// The bytes without their final newline, where files are written with
/// one.
pub open spec fn stripped(bytes: Seq<u8>, add_newlines: bool) -> Seq<u8> {
    if add_newlines && bytes.len() > 0 && bytes.last() == 10u8 {
        bytes.drop_last()
    } else {
        bytes
    }
}

/// The text `true`.
pub open spec fn true_text() -> Seq<char> {
    seq!['t', 'r', 'u', 'e']
}

/// The text `false`.
pub open spec fn false_text() -> Seq<char> {
    seq!['f', 'a', 'l', 's', 'e']
}

/// The scalar that a text stands for, given what the text is as a number:
/// null for no text, a boolean for `true` and `false`, the number if it is
/// one, and else the text as a string.
pub open spec fn scalar_tree(text: Seq<char>, number: Option<Seq<char>>) -> Tree {
    if text.len() == 0 {
        Tree::Null
    } else if text == true_text() {
        Tree::Bool(true)
    } else if text == false_text() {
        Tree::Bool(false)
    } else {
        match number {
            Some(n) => Tree::Number(n),
            None => Tree::String(text),
        }
    }
}

/// The scalar that a file's bytes stand for, if they are text.
pub open spec fn file_tree(bytes: Seq<u8>, add_newlines: bool) -> Option<Tree> {
    let body = stripped(bytes, add_newlines);
    if valid_utf8(body) {
        Some(scalar_tree(decode_utf8(body), json_number(decode_utf8(body))))
    } else {
        None
    }
}

/// The scalar that a text stands for, given what the text is as a number.
pub fn classify(text: &str, number: Option<String>) -> (v: Value)
    ensures
        tree_of(v) == scalar_tree(text@, text_view(number)),
{
    proof {
        reveal_strlit("true");
        reveal_strlit("false");
    }
    let the_text: String = text.to_owned();
    let yes: String = "true".to_owned();
    let no: String = "false".to_owned();
    assert(yes@ =~= true_text());
    assert(no@ =~= false_text());
    if text.is_empty() {
        Value::Null
    } else if the_text == yes {
        Value::Bool(true)
    } else if the_text == no {
        Value::Bool(false)
    } else {
        match number {
            Some(n) => Value::Number(n),
            None => Value::String(the_text),
        }
    }
}

/// The scalar that a file's bytes stand for, if they are text.
pub fn scalar(bytes: &[u8], add_newlines: bool) -> (r: Option<Value>)
    ensures
        tree_of_option(r) == file_tree(bytes@, add_newlines),
{
    let len: usize = bytes.len();
    let body: &[u8] = if add_newlines && len > 0 && bytes[len - 1] == 10u8 {
        &bytes[0..len - 1]
    } else {
        bytes
    };
    assert(body@ =~= stripped(bytes@, add_newlines));
    match text_of(body) {
        None => None,
        Some(text) => {
            proof {
                vstd::utf8::encode_utf8_valid_utf8(text@);
                vstd::utf8::encode_utf8_decode_utf8(text@);
            }
            Some(classify(text, parse_number(text)))
        },
    }
}

/// The number that a child's name writes, if the name is made of digits
/// and the number fits.
pub open spec fn index_key(name: Seq<char>) -> Option<u64> {
    match parse_index(name) {
        Some(n) => if n <= u64::MAX {
            Some(n as u64)
        } else {
            None
        },
        None => None,
    }
}

/// Whether a child with key `a` comes before one with key `b` whatever
/// their order in the directory: a smaller number before a larger, and any
/// number before a name that writes none.
pub open spec fn comes_before(a: Option<u64>, b: Option<u64>) -> bool {
    match (a, b) {
        (Some(x), Some(y)) => x < y,
        (Some(_), None) => true,
        _ => false,
    }
}

/// One more digit multiplies the number written by ten and adds the
/// digit.
proof fn lemma_numeral_push(s: Seq<char>, i: int)
    requires
        0 <= i < s.len(),
        digit_value(s[i]) is Some,
    ensures
        numeral_value(s.take(i + 1)) == 10 * numeral_value(s.take(i)) + digit_value(s[i])->0,
{
    assert(s.take(i + 1).drop_last() =~= s.take(i));
}

/// The digit that a character stands for, if it is one.
fn digit_of(c: char) -> (r: Option<u64>)
    ensures
        match r {
            Some(d) => digit_value(c) == Some(d as nat),
            None => digit_value(c) is None,
        },
{
    if c == '0' {
        Some(0)
    } else if c == '1' {
        Some(1)
    } else if c == '2' {
        Some(2)
    } else if c == '3' {
        Some(3)
    } else if c == '4' {
        Some(4)
    } else if c == '5' {
        Some(5)
    } else if c == '6' {
        Some(6)
    } else if c == '7' {
        Some(7)
    } else if c == '8' {
        Some(8)
    } else if c == '9' {
        Some(9)
    } else {
        None
    }
}

/// The number that a child's name writes, if it writes one that fits.
pub fn name_key(name: &str) -> (r: Option<u64>)
    ensures
        r == index_key(name@),
{
    if name.is_empty() {
        return None;
    }
    let mut value: u64 = 0;
    let mut digits: bool = true;
    let mut fits: bool = true;
    assert(name@.take(0) =~= Seq::<char>::empty());
    for c in it: name.chars()
        invariant
            it.seq() == name@,
            digits == all_digits(name@.take(it.index())),
            digits && fits ==> value == numeral_value(name@.take(it.index())),
            digits && !fits ==> numeral_value(name@.take(it.index())) > u64::MAX,
    {
        let ghost i = it.index();
        assert(name@.take(i + 1)[i] == c);
        assert(forall|j: int| 0 <= j < i ==> name@.take(i + 1)[j] == name@.take(i)[j]);
        match digit_of(c) {
            None => {
                digits = false;
            },
            Some(d) => {
                proof {
                    lemma_numeral_push(name@, i);
                    if digits {
                        assert forall|j: int| 0 <= j < i + 1 implies digit_value(
                            #[trigger] name@.take(i + 1)[j],
                        ) is Some by {
                            if j < i {
                                assert(digit_value(name@.take(i)[j]) is Some);
                            }
                        }
                    } else {
                        let j = choose|j: int|
                            0 <= j < i && digit_value(#[trigger] name@.take(i)[j]) is None;
                        assert(digit_value(name@.take(i + 1)[j]) is None);
                    }
                }
                if fits {
                    match value.checked_mul(10) {
                        Some(tens) => match tens.checked_add(d) {
                            Some(next) => {
                                value = next;
                            },
                            None => {
                                fits = false;
                            },
                        },
                        None => {
                            fits = false;
                        },
                    }
                }
            },
        }
    }
    assert(name@.take(name@.len() as int) =~= name@);
    if digits && fits {
        Some(value)
    } else {
        None
    }
}

/// The keys of the children, each at its child's index.
pub open spec fn keys_of(c: Children) -> Seq<Option<u64>> {
    Seq::new(c.len(), |k: int| index_key(c[k].0))
}

/// The indices `sorted` with `x` put in after every index that does not
/// come after it.
pub open spec fn insert_sorted(keys: Seq<Option<u64>>, sorted: Seq<int>, x: int) -> Seq<int>
    decreases sorted.len(),
{
    if sorted.len() > 0 && comes_before(keys[x], keys[sorted.last()]) {
        insert_sorted(keys, sorted.drop_last(), x).push(sorted.last())
    } else {
        sorted.push(x)
    }
}

/// The first `n` indices in the order of their keys; indices whose keys
/// do not tell them apart stay in their order.
pub open spec fn sorted_order(keys: Seq<Option<u64>>, n: nat) -> Seq<int>
    decreases n,
{
    if n == 0 {
        Seq::empty()
    } else {
        insert_sorted(keys, sorted_order(keys, (n - 1) as nat), n - 1)
    }
}

/// The order in which a directory's children are read out: by the
/// numbers that their names write for a list, as kept for a named
/// directory.
pub open spec fn walk_order(flavour: DirType, c: Children) -> Seq<int> {
    if flavour == DirType::List {
        sorted_order(keys_of(c), c.len())
    } else {
        Seq::new(c.len(), |k: int| k)
    }
}

/// Every part is there.
pub open spec fn all_some(parts: Seq<Option<Tree>>) -> bool {
    forall|k: int| 0 <= k < parts.len() ==> (#[trigger] parts[k]) is Some
}

/// The parts, each of which is there.
pub open spec fn unwrapped(parts: Seq<Option<Tree>>) -> Seq<Tree> {
    Seq::new(parts.len(), |k: int| parts[k]->0)
}

/// The parts, each under the name of the child that it was read from.
pub open spec fn named(c: Children, order: Seq<int>, parts: Seq<Option<Tree>>) -> Seq<
    (Seq<char>, Tree),
> {
    Seq::new(parts.len(), |k: int| (c[order[k]].0, parts[k]->0))
}

/// The array or object that a directory's parts make, if all are there.
pub open spec fn gathered(
    flavour: DirType,
    c: Children,
    order: Seq<int>,
    parts: Seq<Option<Tree>>,
) -> Option<Tree> {
    if !all_some(parts) {
        None
    } else if flavour == DirType::List {
        Some(Tree::Array(unwrapped(parts)))
    } else {
        Some(Tree::Object(named(c, order, parts)))
    }
}

/// The documents below the children `c`, taken in `order`, each read to a
/// depth of at most `fuel` inodes.
pub open spec fn parts_below(
    t: Table,
    add_newlines: bool,
    c: Children,
    order: Seq<int>,
    fuel: nat,
) -> Seq<Option<Tree>>
    decreases fuel, 1nat,
{
    Seq::new(c.len(), |k: int| subtree(t, add_newlines, c[order[k]].1.inum as int, fuel))
}

/// The document below inode `inum`, read to a depth of at most `fuel`
/// inodes: nothing if the depth does not suffice, if an inode is missing or
/// if a file is no text.
pub open spec fn subtree(t: Table, add_newlines: bool, inum: int, fuel: nat) -> Option<Tree>
    decreases fuel, 0nat,
{
    if fuel == 0 || !live(t, inum) {
        None
    } else {
        match t[inum]->0.entry {
            EntryView::File(bytes) => file_tree(bytes, add_newlines),
            EntryView::Directory(flavour, c) => gathered(
                flavour,
                c,
                walk_order(flavour, c),
                parts_below(t, add_newlines, c, walk_order(flavour, c), (fuel - 1) as nat),
            ),
        }
    }
}

/// Putting an index in among indices the last of which all come after
/// it is putting it in among the others and keeping these last.
proof fn lemma_insert_sorted(keys: Seq<Option<u64>>, sorted: Seq<int>, x: int, j: int)
    requires
        0 <= j <= sorted.len(),
        forall|i: int| j <= i < sorted.len() ==> comes_before(keys[x], keys[#[trigger] sorted[i]]),
    ensures
        insert_sorted(keys, sorted, x) == insert_sorted(keys, sorted.take(j), x) + sorted.skip(j),
    decreases sorted.len() - j,
{
    if j < sorted.len() {
        assert(comes_before(keys[x], keys[sorted[sorted.len() - 1]]));
        let shorter = sorted.drop_last();
        lemma_insert_sorted(keys, shorter, x, j);
        assert(shorter.take(j) =~= sorted.take(j));
        assert((insert_sorted(keys, sorted.take(j), x) + shorter.skip(j)).push(sorted.last())
            =~= insert_sorted(keys, sorted.take(j), x) + sorted.skip(j));
    } else {
        assert(sorted.take(j) =~= sorted);
        assert(insert_sorted(keys, sorted, x) + sorted.skip(j) =~= insert_sorted(keys, sorted, x));
    }
}

/// The child at index `i` is read out before the child at index `j`:
/// its key comes before, or neither key comes before the other and `i` is
/// the smaller index.
pub open spec fn read_before(keys: Seq<Option<u64>>, i: int, j: int) -> bool {
    comes_before(keys[i], keys[j]) || (!comes_before(keys[j], keys[i]) && i < j)
}

/// The places of an order hold their children in the order in which they
/// are read out.
pub open spec fn in_reading_order(keys: Seq<Option<u64>>, order: Seq<int>) -> bool {
    forall|a: int, b: int|
        0 <= a < b < order.len() ==> read_before(keys, #[trigger] order[a], #[trigger] order[b])
}

/// Putting in an index larger than all that are there keeps the reading
/// order, and adds that index and no other.
proof fn lemma_insert_keeps_order(keys: Seq<Option<u64>>, sorted: Seq<int>, x: int)
    requires
        0 <= x,
        in_reading_order(keys, sorted),
        forall|k: int| 0 <= k < sorted.len() ==> 0 <= #[trigger] sorted[k] < x,
    ensures
        insert_sorted(keys, sorted, x).len() == sorted.len() + 1,
        in_reading_order(keys, insert_sorted(keys, sorted, x)),
        forall|k: int|
            0 <= k < sorted.len() + 1 ==> 0 <= #[trigger] insert_sorted(keys, sorted, x)[k] <= x,
        forall|k: int|
            0 <= k < sorted.len() + 1 && #[trigger] insert_sorted(keys, sorted, x)[k] != x
                ==> sorted.contains(insert_sorted(keys, sorted, x)[k]),
        sorted.len() > 0 && !comes_before(keys[x], keys[sorted.last()]) ==> insert_sorted(
            keys,
            sorted,
            x,
        ) == sorted.push(x),
    decreases sorted.len(),
{
    let r = insert_sorted(keys, sorted, x);
    if sorted.len() > 0 && comes_before(keys[x], keys[sorted.last()]) {
        let shorter = sorted.drop_last();
        let last = sorted.last();
        assert forall|a: int, b: int| 0 <= a < b < shorter.len() implies read_before(
            keys,
            #[trigger] shorter[a],
            #[trigger] shorter[b],
        ) by {
            assert(shorter[a] == sorted[a] && shorter[b] == sorted[b]);
        }
        assert forall|k: int| 0 <= k < shorter.len() implies 0 <= #[trigger] shorter[k] < x by {
            assert(shorter[k] == sorted[k]);
        }
        lemma_insert_keeps_order(keys, shorter, x);
        let inner = insert_sorted(keys, shorter, x);
        assert(0 <= sorted[sorted.len() - 1] < x);
        assert forall|a: int, b: int| 0 <= a < b < r.len() implies read_before(
            keys,
            #[trigger] r[a],
            #[trigger] r[b],
        ) by {
            if b < inner.len() {
                assert(r[a] == inner[a] && r[b] == inner[b]);
            } else {
                assert(r[a] == inner[a]);
                if inner[a] != x {
                    assert(shorter.contains(inner[a]));
                    let j = choose|j: int| 0 <= j < shorter.len() && shorter[j] == inner[a];
                    assert(sorted[j] == inner[a]);
                    assert(read_before(keys, sorted[j], sorted[sorted.len() - 1]));
                }
            }
        }
        assert forall|k: int| 0 <= k < sorted.len() + 1 implies 0 <= #[trigger] r[k] <= x by {
            if k < inner.len() {
                assert(r[k] == inner[k]);
            }
        }
        assert forall|k: int| 0 <= k < sorted.len() + 1 && #[trigger] r[k] != x implies sorted.contains(
            r[k],
        ) by {
            if k < inner.len() {
                assert(r[k] == inner[k]);
                assert(shorter.contains(inner[k]));
                let j = choose|j: int| 0 <= j < shorter.len() && shorter[j] == inner[k];
                assert(sorted[j] == r[k]);
            } else {
                assert(sorted[sorted.len() - 1] == r[k]);
            }
        }
    } else {
        assert forall|a: int, b: int| 0 <= a < b < r.len() implies read_before(
            keys,
            #[trigger] r[a],
            #[trigger] r[b],
        ) by {
            if b < sorted.len() {
                assert(r[a] == sorted[a] && r[b] == sorted[b]);
            } else {
                assert(r[a] == sorted[a]);
                assert(0 <= sorted[a] < x);
                if a < sorted.len() - 1 {
                    assert(read_before(keys, sorted[a], sorted[sorted.len() - 1]));
                }
            }
        }
        assert forall|k: int| 0 <= k < sorted.len() + 1 implies 0 <= #[trigger] r[k] <= x by {
            if k < sorted.len() {
                assert(r[k] == sorted[k]);
            }
        }
        assert forall|k: int| 0 <= k < sorted.len() + 1 && #[trigger] r[k] != x implies sorted.contains(
            r[k],
        ) by {
            assert(r[k] == sorted[k]);
        }
    }
}

/// The order in which a list's children are read out: every place holds
/// the index of a child, a child whose name writes a smaller number stands
/// before one whose name writes a larger, those whose names write a number
/// stand before the others, and children that this does not tell apart
/// stand as they are kept. So every child has exactly one place.
pub proof fn law_list_order(keys: Seq<Option<u64>>, n: nat)
    ensures
        sorted_order(keys, n).len() == n,
        forall|k: int| 0 <= k < n ==> 0 <= #[trigger] sorted_order(keys, n)[k] < n,
        in_reading_order(keys, sorted_order(keys, n)),
    decreases n,
{
    if n > 0 {
        law_list_order(keys, (n - 1) as nat);
        lemma_insert_keeps_order(keys, sorted_order(keys, (n - 1) as nat), n - 1);
    }
}

/// Whether a child with key `a` comes before one with key `b`.
fn before(a: Option<u64>, b: Option<u64>) -> (r: bool)
    ensures
        r == comes_before(a, b),
{
    match a {
        Some(x) => match b {
            Some(y) => x < y,
            None => true,
        },
        None => false,
    }
}

/// The indices of a list's children.
pub open spec fn indices(order: Seq<usize>) -> Seq<int> {
    Seq::new(order.len(), |i: int| order[i] as int)
}

/// The order in which a list's children are read out.
fn list_order(files: &Vec<(String, DirEntry)>) -> (order: Vec<usize>)
    ensures
        order@.len() == files@.len(),
        forall|i: int| 0 <= i < order@.len() ==> (#[trigger] order@[i]) < files@.len(),
        indices(order@) == sorted_order(keys_of(children_view(files@)), files@.len()),
{
    let ghost c = children_view(files@);
    let ghost wanted = keys_of(c);
    let mut keys: Vec<Option<u64>> = Vec::new();
    let mut k: usize = 0;
    while k < files.len()
        invariant
            k <= files@.len(),
            c == children_view(files@),
            wanted == keys_of(c),
            keys@.len() == k,
            forall|i: int| 0 <= i < k ==> (#[trigger] keys@[i]) == wanted[i],
        decreases files@.len() - k,
    {
        assert(c[k as int].0 == files@[k as int].0@);
        keys.push(name_key(files[k].0.as_str()));
        k += 1;
    }
    assert(keys@ =~= wanted);
    let mut order: Vec<usize> = Vec::new();
    let mut x: usize = 0;
    assert(indices(order@) =~= sorted_order(wanted, 0));
    while x < files.len()
        invariant
            x <= files@.len(),
            keys@ == wanted,
            wanted.len() == files@.len(),
            order@.len() == x,
            forall|i: int| 0 <= i < order@.len() ==> (#[trigger] order@[i]) < x,
            indices(order@) == sorted_order(wanted, x as nat),
        decreases files@.len() - x,
    {
        let ghost sorted = indices(order@);
        let mut j: usize = order.len();
        while j > 0 && before(keys[x], keys[order[j - 1]])
            invariant
                j <= order@.len(),
                order@.len() == x,
                x < keys@.len(),
                keys@ == wanted,
                sorted == indices(order@),
                forall|i: int| 0 <= i < order@.len() ==> (#[trigger] order@[i]) < x,
                forall|i: int|
                    j <= i < sorted.len() ==> comes_before(wanted[x as int], wanted[#[trigger] sorted[i]]),
            decreases j,
        {
            proof {
                assert(sorted[j - 1] == order@[j - 1]);
            }
            j -= 1;
        }
        proof {
            lemma_insert_sorted(wanted, sorted, x as int, j as int);
            if j > 0 {
                assert(sorted.take(j as int).last() == order@[j - 1]);
            }
            assert(insert_sorted(wanted, sorted.take(j as int), x as int) == sorted.take(
                j as int,
            ).push(x as int));
        }
        order.insert(j, x);
        assert(indices(order@) =~= sorted.take(j as int).push(x as int) + sorted.skip(j as int));
        x += 1;
    }
    order
}

impl FS {
    /// The document below inode `inum`, read to a depth of at most `fuel`
    /// inodes.
    fn value_at(&self, inum: u64, fuel: usize) -> (r: Option<Value>)
        ensures
            tree_of_option(r) == subtree(
                self@,
                self.config.add_newlines,
                inum as int,
                fuel as nat,
            ),
        decreases fuel,
    {
        if fuel == 0 {
            return None;
        }
        let node: &Inode = match self.get(inum) {
            Ok(node) => node,
            Err(_) => {
                return None;
            },
        };
        let ghost t = self@;
        let ghost add = self.config.add_newlines;
        match &node.entry {
            Entry::File(bytes) => scalar(bytes.as_slice(), self.config.add_newlines),
            Entry::Directory(DirType::List, files) => {
                let ghost c = children_view(files@);
                let order: Vec<usize> = list_order(files);
                let ghost places = walk_order(DirType::List, c);
                let ghost parts = parts_below(t, add, c, places, (fuel - 1) as nat);
                let mut items: Vec<Value> = Vec::new();
                let mut k: usize = 0;
                while k < order.len()
                    invariant
                        k <= order@.len(),
                        order@.len() == files@.len(),
                        c == children_view(files@),
                        t == self@,
                        add == self.config.add_newlines,
                        fuel > 0,
                        places == indices(order@),
                        forall|i: int| 0 <= i < order@.len() ==> (#[trigger] order@[i]) < files@.len(),
                        parts == parts_below(t, add, c, places, (fuel - 1) as nat),
                        items@.len() == k,
                        forall|i: int|
                            0 <= i < k ==> parts[i] == Some(tree_of(#[trigger] items@[i])),
                        subtree(t, add, inum as int, fuel as nat) == gathered(
                            DirType::List,
                            c,
                            places,
                            parts,
                        ),
                    decreases order@.len() - k,
                {
                    let at: usize = order[k];
                    assert(places[k as int] == at);
                    assert(c[at as int].1 == files@[at as int].1);
                    match self.value_at(files[at].1.inum, fuel - 1) {
                        None => {
                            assert(parts[k as int] is None);
                            return None;
                        },
                        Some(item) => {
                            items.push(item);
                        },
                    }
                    k += 1;
                }
                assert(all_some(parts)) by {
                    assert forall|i: int| 0 <= i < parts.len() implies (#[trigger] parts[i])
                        is Some by {
                        assert(parts[i] == Some(tree_of(items@[i])));
                    }
                }
                let made: Value = Value::Array(items);
                assert(tree_of(made) == Tree::Array(unwrapped(parts))) by {
                    assert(tree_of(made)->Array_0 =~= unwrapped(parts));
                }
                Some(made)
            },
            Entry::Directory(DirType::Named, files) => {
                let ghost c = children_view(files@);
                let ghost places = walk_order(DirType::Named, c);
                let ghost parts = parts_below(t, add, c, places, (fuel - 1) as nat);
                let mut fields: Vec<(String, Value)> = Vec::new();
                let mut k: usize = 0;
                while k < files.len()
                    invariant
                        k <= files@.len(),
                        c == children_view(files@),
                        t == self@,
                        add == self.config.add_newlines,
                        fuel > 0,
                        places == walk_order(DirType::Named, c),
                        parts == parts_below(t, add, c, places, (fuel - 1) as nat),
                        fields@.len() == k,
                        forall|i: int|
                            0 <= i < k ==> parts[i] == Some(tree_of((#[trigger] fields@[i]).1))
                                && fields@[i].0@ == c[i].0,
                        subtree(t, add, inum as int, fuel as nat) == gathered(
                            DirType::Named,
                            c,
                            places,
                            parts,
                        ),
                    decreases files@.len() - k,
                {
                    assert(places[k as int] == k);
                    assert(c[k as int] == (files@[k as int].0@, files@[k as int].1));
                    match self.value_at(files[k].1.inum, fuel - 1) {
                        None => {
                            assert(parts[k as int] is None);
                            return None;
                        },
                        Some(item) => {
                            fields.push((files[k].0.clone(), item));
                        },
                    }
                    k += 1;
                }
                assert(all_some(parts)) by {
                    assert forall|i: int| 0 <= i < parts.len() implies (#[trigger] parts[i])
                        is Some by {
                        assert(parts[i] == Some(tree_of(fields@[i].1)));
                    }
                }
                let made: Value = Value::Object(fields);
                assert(tree_of(made) == Tree::Object(named(c, places, parts))) by {
                    assert(tree_of(made)->Object_0 =~= named(c, places, parts));
                }
                Some(made)
            },
        }
    }

    /// Reads the document back out of the table: the value that the
    /// root directory and everything below it stand for. There is none if
    /// some file below the root is no text.
    pub fn sync(&self) -> (r: Option<Value>)
        ensures
            tree_of_option(r) == subtree(
                self@,
                self.config.add_newlines,
                1,
                self@.len(),
            ),
    {
        assert(self@.len() == self.inodes@.len());
        self.value_at(ROOT_INUM, self.inodes.len())
    }
}

} // verus!
