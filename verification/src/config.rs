//! Mount identity and naming policy. Read-only once the filesystem is built.

use crate::fs::{dot, dotdot, legal_name};
use crate::names::{is_dot_name, push_char};
use std::time::SystemTime;
use vstd::prelude::*;
use vstd::std_specs::iter::IteratorSpec;
use vstd::string::StringExecFns;

verus! {

/// `std::time::SystemTime`, carried through as an opaque value.
#[verifier::external_type_specification]
#[verifier::external_body]
pub struct ExSystemTime(SystemTime);

/// `SystemTime::clone`: a `SystemTime` is `Copy`, and its clone is the
/// value itself.
pub assume_specification[ <SystemTime as Clone>::clone ](t: &SystemTime) -> (r: SystemTime)
    ensures
        r == *t,
;

/// What every inode's attributes are drawn from, and how names are made.
#[derive(Clone, Debug)]
pub struct Config {
    /// Owner of every inode, and the only user who may change the tree.
    pub uid: u32,
    /// Group of every inode.
    pub gid: u32,
    /// Reported as each of the four times of every inode.
    pub timestamp: SystemTime,
    /// Permission bits of regular files.
    pub filemode: u16,
    /// Permission bits of directories.
    pub dirmode: u16,
    /// Whether the file made from a scalar ends in a newline.
    pub add_newlines: bool,
    /// Whether the names of a list's elements are padded with zeros to one width.
    pub pad_element_names: bool,
    /// Character replacements applied to a field's name; the first pair
    /// whose left side is the character decides.
    pub munge: Vec<(char, char)>,
}

broadcast use vstd::string::group_string_axioms;

/// What the replacements make of a character: the right side of the first
/// pair whose left side it is, or the character itself.
pub open spec fn replaced(munge: Seq<(char, char)>, c: char) -> char
    decreases munge.len(),
{
    if munge.len() == 0 {
        c
    } else if munge[0].0 == c {
        munge[0].1
    } else {
        replaced(munge.drop_first(), c)
    }
}

/// The replacement of a character, with `_` in place of `/`.
pub open spec fn safe_char(munge: Seq<(char, char)>, c: char) -> char {
    if replaced(munge, c) == '/' {
        '_'
    } else {
        replaced(munge, c)
    }
}

/// Every character of the field replaced.
pub open spec fn munged(munge: Seq<(char, char)>, field: Seq<char>) -> Seq<char> {
    Seq::new(field.len(), |i: int| safe_char(munge, field[i]))
}

/// The name made of a field: every character replaced, and `_` put in
/// front of what would be empty, `.` or `..`.
pub open spec fn normalized(munge: Seq<(char, char)>, field: Seq<char>) -> Seq<char> {
    let m = munged(munge, field);
    if m.len() == 0 || m == dot() || m == dotdot() {
        seq!['_'] + m
    } else {
        m
    }
}

/// A normalized name is a legal name.
pub proof fn lemma_normalized_is_legal(munge: Seq<(char, char)>, field: Seq<char>)
    ensures
        legal_name(normalized(munge, field)),
{
    let m = munged(munge, field);
    let n = normalized(munge, field);
    if n.contains('/') {
        let i = choose|i: int| 0 <= i < n.len() && n[i] == '/';
        if m.len() == 0 || m == dot() || m == dotdot() {
            if i > 0 {
                assert(n[i] == m[i - 1]);
            }
        } else {
            assert(n[i] == m[i]);
        }
    }
    if m.len() == 0 || m == dot() || m == dotdot() {
        assert(n[0] == '_');
        assert(dot()[0] == '.');
        assert(dotdot()[0] == '.');
    }
}

impl Config {
    /// What the replacements make of one character.
    fn replace_char(&self, c: char) -> (r: char)
        ensures
            r == safe_char(self.munge@, c),
    {
        let mut k: usize = 0;
        assert(self.munge@.skip(0) =~= self.munge@);
        while k < self.munge.len()
            invariant
                k <= self.munge@.len(),
                replaced(self.munge@, c) == replaced(self.munge@.skip(k as int), c),
            decreases self.munge@.len() - k,
        {
            assert(self.munge@.skip(k as int).drop_first() =~= self.munge@.skip(k as int + 1));
            if self.munge[k].0 == c {
                let r: char = self.munge[k].1;
                return if r == '/' {
                    '_'
                } else {
                    r
                };
            }
            k += 1;
        }
        if c == '/' {
            '_'
        } else {
            c
        }
    }

    /// Makes a legal name of a field's name.
    pub fn normalize_name(&self, field: &str) -> (name: String)
        ensures
            name@ == normalized(self.munge@, field@),
            legal_name(name@),
    {
        let mut m: String = String::new();
        for c in it: field.chars()
            invariant
                it.seq() == field@,
                m@ == munged(self.munge@, field@.take(it.index())),
        {
            let r: char = self.replace_char(c);
            let ghost before = m@;
            push_char(&mut m, r);
            assert(m@ =~= munged(self.munge@, field@.take(it.index() + 1))) by {
                assert(field@.take(it.index() + 1)[it.index()] == c);
            }
        }
        assert(field@.take(field@.len() as int) =~= field@);
        proof {
            lemma_normalized_is_legal(self.munge@, field@);
        }
        if m.as_str().is_empty() || is_dot_name(&m) {
            let mut name: String = String::new();
            push_char(&mut name, '_');
            name.append(m.as_str());
            assert(name@ =~= seq!['_'] + m@);
            name
        } else {
            m
        }
    }
}

} // verus!
