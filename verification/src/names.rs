//! Tests on names, and the names given to the elements of a list.

use crate::fs::{dot, dotdot, legal_name, representable};
use vstd::prelude::*;
use vstd::std_specs::iter::IteratorSpec;

verus! {

broadcast use vstd::string::group_string_axioms;

/// The characters of a name that may be absent.
pub open spec fn name_view(name: Option<&str>) -> Option<Seq<char>> {
    match name {
        Some(s) => Some(s@),
        None => None,
    }
}

/// Whether the name is neither empty nor holds a `/`.
pub fn is_representable(name: &str) -> (r: bool)
    ensures
        r == representable(name@),
{
    if name.is_empty() {
        return false;
    }
    for c in it: name.chars()
        invariant
            it.seq() == name@,
            forall|j: int| 0 <= j < it.index() ==> name@[j] != '/',
    {
        if c == '/' {
            return false;
        }
    }
    true
}

/// Whether the name is `.` or `..`.
pub fn is_dot_name(name: &String) -> (r: bool)
    ensures
        r == (name@ == dot() || name@ == dotdot()),
{
    proof {
        reveal_strlit(".");
        reveal_strlit("..");
    }
    let one: String = ".".to_owned();
    let two: String = "..".to_owned();
    assert(one@ =~= dot());
    assert(two@ =~= dotdot());
    *name == one || *name == two
}

/// `String::push`: appends one character to the string.
#[verifier::external_body]
pub(crate) fn push_char(s: &mut String, c: char)
    ensures
        final(s)@ == old(s)@.push(c),
{
    s.push(c)
}

/// The character for a digit.
pub open spec fn digit(d: nat) -> char {
    if d == 0 {
        '0'
    } else if d == 1 {
        '1'
    } else if d == 2 {
        '2'
    } else if d == 3 {
        '3'
    } else if d == 4 {
        '4'
    } else if d == 5 {
        '5'
    } else if d == 6 {
        '6'
    } else if d == 7 {
        '7'
    } else if d == 8 {
        '8'
    } else {
        '9'
    }
}

/// The digit that a character stands for, if it is one.
pub open spec fn digit_value(c: char) -> Option<nat> {
    if c == '0' {
        Some(0)
    } else if c == '1' {
        Some(1)
    } else if c == '2' {
        Some(2)
    } else if c == '3' {
        Some(3)
    } else if c == '4' {
        Some(4)
    } else if c == '5' {
        Some(5)
    } else if c == '6' {
        Some(6)
    } else if c == '7' {
        Some(7)
    } else if c == '8' {
        Some(8)
    } else if c == '9' {
        Some(9)
    } else {
        None
    }
}

/// Every character is a digit.
pub open spec fn all_digits(s: Seq<char>) -> bool {
    forall|i: int| 0 <= i < s.len() ==> digit_value(#[trigger] s[i]) is Some
}

/// The number in decimal, without leading zeros.
pub open spec fn decimal(n: nat) -> Seq<char>
    decreases n,
{
    if n < 10 {
        seq![digit(n)]
    } else {
        decimal(n / 10).push(digit(n % 10))
    }
}

/// The number that a string of digits writes in decimal; leading zeros
/// do not count.
pub open spec fn numeral_value(s: Seq<char>) -> nat
    decreases s.len(),
{
    if s.len() == 0 {
        0
    } else {
        match digit_value(s.last()) {
            Some(d) => 10 * numeral_value(s.drop_last()) + d,
            None => 0,
        }
    }
}

/// The number that a name stands for, if the name is made of digits.
pub open spec fn parse_index(s: Seq<char>) -> Option<nat> {
    if s.len() > 0 && all_digits(s) {
        Some(numeral_value(s))
    } else {
        None
    }
}

/// The least width `w` such that `10^w >= n`: as many digits as the
/// largest index of a list of `n` elements has, for `n >= 2`.
pub open spec fn pad_width(n: nat) -> nat
    decreases n,
{
    if n <= 1 {
        0
    } else {
        1 + pad_width((n + 9) / 10)
    }
}

/// `n` zeros.
pub open spec fn zero_chars(n: nat) -> Seq<char> {
    Seq::new(n, |i: int| '0')
}

/// The number in decimal, with zeros in front up to `width` characters.
pub open spec fn padded(n: nat, width: nat) -> Seq<char> {
    if decimal(n).len() < width {
        zero_chars((width - decimal(n).len()) as nat) + decimal(n)
    } else {
        decimal(n)
    }
}

/// The name of element `i` of a list of `count` elements.
pub open spec fn index_name(pad: bool, i: nat, count: nat) -> Seq<char> {
    if pad {
        padded(i, pad_width(count))
    } else {
        decimal(i)
    }
}

/// A number in decimal is made of digits, at least one, and writes the
/// number.
pub proof fn lemma_decimal(n: nat)
    ensures
        decimal(n).len() >= 1,
        all_digits(decimal(n)),
        numeral_value(decimal(n)) == n,
    decreases n,
{
    if n < 10 {
        assert(decimal(n).drop_last() =~= Seq::<char>::empty());
        assert(numeral_value(Seq::<char>::empty()) == 0);
        assert(decimal(n).last() == digit(n));
        assert(digit_value(digit(n)) == Some(n));
    } else {
        lemma_decimal(n / 10);
        assert(decimal(n).drop_last() =~= decimal(n / 10));
        assert(decimal(n).last() == digit(n % 10));
        assert(digit_value(digit(n % 10)) == Some(n % 10));
        assert forall|i: int| 0 <= i < decimal(n).len() implies digit_value(
            #[trigger] decimal(n)[i],
        ) is Some by {
            if i < decimal(n / 10).len() {
                assert(decimal(n)[i] == decimal(n / 10)[i]);
            }
        }
    }
}

/// Zeros in front change neither the number written nor that all are
/// digits.
proof fn lemma_leading_zeros(k: nat, s: Seq<char>)
    ensures
        numeral_value(zero_chars(k) + s) == numeral_value(s),
        all_digits(s) ==> all_digits(zero_chars(k) + s),
    decreases s.len(),
{
    let z = zero_chars(k) + s;
    if s.len() == 0 {
        assert(z =~= zero_chars(k));
        lemma_zeros_value(k);
    } else {
        assert(z.drop_last() =~= zero_chars(k) + s.drop_last());
        lemma_leading_zeros(k, s.drop_last());
    }
}

/// Zeros write zero.
proof fn lemma_zeros_value(k: nat)
    ensures
        numeral_value(zero_chars(k)) == 0,
    decreases k,
{
    if k > 0 {
        assert(zero_chars(k).drop_last() =~= zero_chars((k - 1) as nat));
        lemma_zeros_value((k - 1) as nat);
    }
}

/// A name made of digits is a legal name.
pub proof fn lemma_digits_are_legal(s: Seq<char>)
    requires
        s.len() > 0,
        all_digits(s),
    ensures
        legal_name(s),
{
    if s.contains('/') {
        let i = choose|i: int| 0 <= i < s.len() && s[i] == '/';
        assert(digit_value(s[i]) is Some);
    }
    assert(digit_value(s[0]) is Some);
    assert(dot()[0] == '.');
    assert(dotdot()[0] == '.');
}

/// The name of an element is made of digits, reads as the element's index,
/// and is a legal name; so two elements of one list have different names.
pub proof fn lemma_index_name(pad: bool, i: nat, count: nat)
    ensures
        parse_index(index_name(pad, i, count)) == Some(i),
        legal_name(index_name(pad, i, count)),
{
    lemma_decimal(i);
    if pad && decimal(i).len() < pad_width(count) {
        lemma_leading_zeros((pad_width(count) - decimal(i).len()) as nat, decimal(i));
    }
    lemma_digits_are_legal(index_name(pad, i, count));
}

/// An index below `count` has at most as many digits as the names of a
/// list of `count` elements are padded to, or one digit.
pub proof fn lemma_index_fits_width(i: nat, count: nat)
    requires
        i < count,
    ensures
        decimal(i).len() <= if pad_width(count) > 1 {
            pad_width(count)
        } else {
            1
        },
    decreases i,
{
    if i >= 10 {
        assert(i / 10 < (count + 9) / 10);
        lemma_index_fits_width(i / 10, (count + 9) / 10);
        assert((count + 9) / 10 >= 2);
        assert(pad_width((count + 9) / 10) >= 1);
    }
}

/// With padding, the names of the elements of one list all have one
/// length.
pub proof fn lemma_padded_names_have_one_length(i: nat, j: nat, count: nat)
    requires
        i < count,
        j < count,
    ensures
        index_name(true, i, count).len() == index_name(true, j, count).len(),
{
    lemma_index_fits_width(i, count);
    lemma_index_fits_width(j, count);
    lemma_decimal(i);
    lemma_decimal(j);
    if pad_width(count) == 0 {
        assert(count <= 1);
    }
}

/// The character for a digit.
fn digit_char(d: usize) -> (c: char)
    requires
        d < 10,
    ensures
        c == digit(d as nat),
{
    if d == 0 {
        '0'
    } else if d == 1 {
        '1'
    } else if d == 2 {
        '2'
    } else if d == 3 {
        '3'
    } else if d == 4 {
        '4'
    } else if d == 5 {
        '5'
    } else if d == 6 {
        '6'
    } else if d == 7 {
        '7'
    } else if d == 8 {
        '8'
    } else {
        '9'
    }
}

/// Appends the number in decimal.
fn push_decimal(s: &mut String, n: usize)
    ensures
        final(s)@ == old(s)@ + decimal(n as nat),
    decreases n,
{
    if n >= 10 {
        push_decimal(s, n / 10);
    }
    push_char(s, digit_char(n % 10));
    assert(s@ =~= old(s)@ + decimal(n as nat));
}

/// How many digits the number has in decimal.
fn decimal_len(n: usize) -> (r: usize)
    ensures
        r == decimal(n as nat).len(),
{
    let mut r: usize = 1;
    let mut rest: usize = n;
    while rest >= 10
        invariant
            1 <= r,
            r + decimal(rest as nat).len() == decimal(n as nat).len() + 1,
            r + rest <= n + 1,
        decreases rest,
    {
        rest = rest / 10;
        r += 1;
    }
    r
}

/// The width to which the names of a list of `count` elements are padded.
pub fn element_width(count: usize) -> (w: usize)
    ensures
        w == pad_width(count as nat),
{
    let mut w: usize = 0;
    let mut rest: usize = count;
    while rest > 1
        invariant
            w + pad_width(rest as nat) == pad_width(count as nat),
            w + rest <= count + 1,
        decreases rest,
    {
        let tenth: usize = rest / 10;
        let next: usize = if rest % 10 == 0 {
            tenth
        } else {
            tenth + 1
        };
        assert(next == (rest + 9) / 10);
        rest = next;
        w += 1;
    }
    w
}

/// The name of element `i` of a list of `count` elements: the index in
/// decimal, with zeros in front up to the width of the list if `pad` is set.
pub fn element_name(pad: bool, i: usize, count: usize) -> (name: String)
    ensures
        name@ == index_name(pad, i as nat, count as nat),
{
    let mut name: String = String::new();
    if pad {
        let width: usize = element_width(count);
        let len: usize = decimal_len(i);
        let mut k: usize = len;
        while k < width
            invariant
                len <= k,
                len < width ==> k <= width,
                len >= width ==> k == len,
                name@ == zero_chars((k - len) as nat),
            decreases width - k,
        {
            push_char(&mut name, '0');
            assert(name@ =~= zero_chars((k + 1 - len) as nat));
            k += 1;
        }
        assert(len < width ==> name@ == zero_chars((width - len) as nat));
        assert(len >= width ==> name@ =~= Seq::<char>::empty());
    }
    let ghost front = name@;
    push_decimal(&mut name, i);
    assert(name@ == front + decimal(i as nat));
    assert(Seq::<char>::empty() + decimal(i as nat) =~= decimal(i as nat));
    name
}

} // verus!
