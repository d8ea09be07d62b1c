//! Bitstrings as sequences of characters: conversion from and to strings,
//! comparison, and the Hamming distance.

use vstd::prelude::*;
use vstd::string::*;

verus! {

/// `String::push` appends one character to the end of the string and leaves
/// the characters before it as they were.
pub assume_specification[ String::push ](s: &mut String, c: char)
    ensures
        final(s)@ == old(s)@.push(c),
;

/// The characters of `s`, in order.
pub fn chars_of(s: &str) -> (v: Vec<char>)
    ensures
        v@ == s@,
{
    let mut v: Vec<char> = Vec::new();
    for c in it: s.chars()
        invariant
            it.seq() == s@,
            v@ == it.seq().take(it.index() as int),
    {
        v.push(c);
    }
    v
}

/// The string made of the characters of `v`, in order.
pub fn string_of(v: &Vec<char>) -> (s: String)
    ensures
        s@ == v@,
{
    let mut s = String::new();
    let mut i: usize = 0;
    while i < v.len()
        invariant
            i <= v.len(),
            s@ == v@.take(i as int),
        decreases v.len() - i,
    {
        s.push(v[i]);
        i = i + 1;
    }
    s
}

/// Whether two bitstrings are the same sequence of characters.
pub fn same_bits(a: &Vec<char>, b: &Vec<char>) -> (same: bool)
    ensures
        same == (a@ == b@),
{
    if a.len() != b.len() {
        return false;
    }
    let mut i: usize = 0;
    while i < a.len()
        invariant
            i <= a.len(),
            a.len() == b.len(),
            a@.take(i as int) == b@.take(i as int),
        decreases a.len() - i,
    {
        if a[i] != b[i] {
            return false;
        }
        assert(a@.take(i + 1) == a@.take(i as int).push(a@[i as int]));
        assert(b@.take(i + 1) == b@.take(i as int).push(b@[i as int]));
        i = i + 1;
    }
    assert(a@ == a@.take(a.len() as int));
    assert(b@ == b@.take(b.len() as int));
    true
}

/// The number of positions below `n` at which `a` and `b` differ.
pub open spec fn mismatches(a: Seq<char>, b: Seq<char>, n: int) -> nat
    recommends
        n <= a.len(),
        n <= b.len(),
    decreases n,
{
    if n <= 0 {
        0
    } else {
        mismatches(a, b, n - 1) + if a[n - 1] != b[n - 1] {
            1nat
        } else {
            0nat
        }
    }
}

/// The length of the shorter of two bitstrings.
pub open spec fn common_len(a: Seq<char>, b: Seq<char>) -> int {
    if a.len() <= b.len() {
        a.len() as int
    } else {
        b.len() as int
    }
}

/// The Hamming distance: the number of positions, as far as both bitstrings
/// reach, at which their characters differ.
pub open spec fn hamming(a: Seq<char>, b: Seq<char>) -> nat {
    mismatches(a, b, common_len(a, b))
}

/// No more positions differ than were compared.
pub proof fn lemma_mismatches_bound(a: Seq<char>, b: Seq<char>, n: int)
    ensures
        mismatches(a, b, n) <= if n <= 0 {
            0
        } else {
            n
        },
    decreases n,
{
    if n > 0 {
        lemma_mismatches_bound(a, b, n - 1);
    }
}

/// The Hamming distance is symmetric.
pub proof fn lemma_hamming_symmetric(a: Seq<char>, b: Seq<char>)
    ensures
        hamming(a, b) == hamming(b, a),
{
    lemma_mismatches_symmetric(a, b, common_len(a, b));
}

proof fn lemma_mismatches_symmetric(a: Seq<char>, b: Seq<char>, n: int)
    ensures
        mismatches(a, b, n) == mismatches(b, a, n),
    decreases n,
{
    if n > 0 {
        lemma_mismatches_symmetric(a, b, n - 1);
    }
}

/// A bitstring is at distance zero from itself.
pub proof fn lemma_hamming_self(a: Seq<char>)
    ensures
        hamming(a, a) == 0,
{
    lemma_mismatches_self(a, a.len() as int);
}

proof fn lemma_mismatches_self(a: Seq<char>, n: int)
    ensures
        mismatches(a, a, n) == 0,
    decreases n,
{
    if n > 0 {
        lemma_mismatches_self(a, n - 1);
    }
}

/// The Hamming distance of two bitstrings.
pub fn hamming_of(a: &Vec<char>, b: &Vec<char>) -> (d: usize)
    ensures
        d == hamming(a@, b@),
        d <= common_len(a@, b@),
{
    let n: usize = if a.len() <= b.len() {
        a.len()
    } else {
        b.len()
    };
    let mut d: usize = 0;
    let mut i: usize = 0;
    while i < n
        invariant
            i <= n,
            n == common_len(a@, b@),
            d == mismatches(a@, b@, i as int),
            d <= i,
        decreases n - i,
    {
        if a[i] != b[i] {
            d = d + 1;
        }
        i = i + 1;
    }
    d
}

} // verus!
