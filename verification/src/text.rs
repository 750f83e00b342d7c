//! Text as sequences of characters: conversion between strings and vectors
//! of characters, blank characters and trimming.

use vstd::prelude::*;

verus! {

/// `String::push` of the standard library. Claimed of it: the string holds
/// afterwards what it held before, followed by `c`.
pub assume_specification[ String::push ](s: &mut String, c: char)
    ensures
        final(s)@ == old(s)@.push(c),
;

/// The characters of `s`, in order.
pub fn chars_of(s: &str) -> (v: Vec<char>)
    ensures
        v@ == s@,
{
    let mut v: Vec<char> = Vec::new();
    for c in it: s.chars()
        invariant
            v@ == it.seq().take(it.index() as int),
            it.seq() == s@,
    {
        v.push(c);
    }
    v
}

/// The string made of the characters `v[from..to]`.
pub fn text_of(v: &Vec<char>, from: usize, to: usize) -> (s: String)
    requires
        from <= to <= v.len(),
    ensures
        s@ == v@.subrange(from as int, to as int),
{
    let mut s = String::new();
    let mut i: usize = from;
    while i < to
        invariant
            from <= i <= to <= v.len(),
            s@ == v@.subrange(from as int, i as int),
        decreases to - i,
    {
        s.push(v[i]);
        i += 1;
    }
    s
}

/// Tells whether `text` starts with `prefix`.
pub fn has_prefix(text: &Vec<char>, prefix: &Vec<char>) -> (b: bool)
    ensures
        b == prefix@.is_prefix_of(text@),
{
    if prefix.len() > text.len() {
        return false;
    }
    let mut i: usize = 0;
    while i < prefix.len()
        invariant
            i <= prefix.len() <= text.len(),
            forall|k: int| 0 <= k < i ==> prefix@[k] == text@[k],
        decreases prefix.len() - i,
    {
        if prefix[i] != text[i] {
            assert(text@.subrange(0, prefix.len() as int)[i as int] == text@[i as int]);
            return false;
        }
        i += 1;
    }
    assert(prefix@ =~= text@.subrange(0, prefix.len() as int));
    true
}

/// Tells whether `a` and `b` hold the same characters.
pub fn same_chars(a: &Vec<char>, b: &Vec<char>) -> (same: bool)
    ensures
        same == (a@ == b@),
{
    let same = a.len() == b.len() && has_prefix(a, b);
    proof {
        if a.len() == b.len() {
            assert(a@.subrange(0, b.len() as int) =~= a@);
        }
    }
    same
}

/// Whether `c` is a blank character: a character with the Unicode property
/// White_Space.
pub open spec fn is_blank(c: char) -> bool {
    let n = c as u32;
    (0x09 <= n <= 0x0D) || n == 0x20 || n == 0x85 || n == 0xA0 || n == 0x1680 || (0x2000 <= n
        <= 0x200A) || n == 0x2028 || n == 0x2029 || n == 0x202F || n == 0x205F || n == 0x3000
}

/// Tells whether `c` is a blank character.
pub fn is_blank_char(c: char) -> (b: bool)
    ensures
        b == is_blank(c),
{
    let n: u32 = c as u32;
    (0x09 <= n && n <= 0x0D) || n == 0x20 || n == 0x85 || n == 0xA0 || n == 0x1680 || (0x2000 <= n
        && n <= 0x200A) || n == 0x2028 || n == 0x2029 || n == 0x202F || n == 0x205F || n == 0x3000
}

/// `s` without its leading blank characters.
pub open spec fn trim_front(s: Seq<char>) -> Seq<char>
    decreases s.len(),
{
    if s.len() > 0 && is_blank(s[0]) {
        trim_front(s.drop_first())
    } else {
        s
    }
}

/// `s` without its trailing blank characters.
pub open spec fn trim_back(s: Seq<char>) -> Seq<char>
    decreases s.len(),
{
    if s.len() > 0 && is_blank(s.last()) {
        trim_back(s.drop_last())
    } else {
        s
    }
}

/// `s` without its leading and trailing blank characters.
pub open spec fn trimmed(s: Seq<char>) -> Seq<char> {
    trim_back(trim_front(s))
}

/// Dropping `n` leading blanks in front of a non-blank (or of the end) is
/// trimming the front.
pub proof fn lemma_trim_front(s: Seq<char>, n: int)
    requires
        0 <= n <= s.len(),
        forall|i: int| 0 <= i < n ==> is_blank(#[trigger] s[i]),
        n < s.len() ==> !is_blank(s[n]),
    ensures
        trim_front(s) == s.skip(n),
    decreases n,
{
    if n == 0 {
        assert(s.skip(0) =~= s);
    } else {
        let t = s.drop_first();
        assert forall|i: int| 0 <= i < n - 1 implies is_blank(#[trigger] t[i]) by {
            assert(t[i] == s[i + 1]);
        }
        lemma_trim_front(t, n - 1);
        assert(t.skip(n - 1) =~= s.skip(n));
    }
}

/// Dropping the trailing blanks behind a non-blank (or behind the start) is
/// trimming the back.
pub proof fn lemma_trim_back(s: Seq<char>, n: int)
    requires
        0 <= n <= s.len(),
        forall|i: int| n <= i < s.len() ==> is_blank(#[trigger] s[i]),
        n > 0 ==> !is_blank(s[n - 1]),
    ensures
        trim_back(s) == s.take(n),
    decreases s.len() - n,
{
    if n == s.len() {
        assert(s.take(n) =~= s);
    } else {
        let t = s.drop_last();
        lemma_trim_back(t, n);
        assert(t.take(n) =~= s.take(n));
    }
}

/// The bounds `(from, to)` of `v` without its leading and trailing blanks.
pub fn trim_bounds(v: &Vec<char>) -> (r: (usize, usize))
    ensures
        r.0 <= r.1 <= v.len(),
        v@.subrange(r.0 as int, r.1 as int) == trimmed(v@),
{
    let mut from: usize = 0;
    while from < v.len() && is_blank_char(v[from])
        invariant
            from <= v.len(),
            forall|i: int| 0 <= i < from ==> is_blank(#[trigger] v@[i]),
        decreases v.len() - from,
    {
        from += 1;
    }
    let mut to: usize = v.len();
    while to > from && is_blank_char(v[to - 1])
        invariant
            from <= to <= v.len(),
            forall|i: int| to <= i < v.len() ==> is_blank(#[trigger] v@[i]),
        decreases to,
    {
        to -= 1;
    }
    proof {
        lemma_trim_front(v@, from as int);
        let t = v@.skip(from as int);
        assert forall|i: int| to - from <= i < t.len() implies is_blank(#[trigger] t[i]) by {
            assert(t[i] == v@[i + from]);
        }
        lemma_trim_back(t, to - from);
        assert(t.take(to - from) =~= v@.subrange(from as int, to as int));
    }
    (from, to)
}

/// `s` without its leading and trailing blank characters.
pub fn trim_text(s: &str) -> (t: String)
    ensures
        t@ == trimmed(s@),
{
    let v = chars_of(s);
    let (from, to) = trim_bounds(&v);
    text_of(&v, from, to)
}

} // verus!
