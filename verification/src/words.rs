//! Words are fixed-length sequences of characters, stored as `Vec<char>`.
//! This module holds the small helpers that the rest of the library builds
//! on: conversion from `&str`, word equality and copying, and positional
//! lookup of a character inside a word.

use vstd::prelude::*;
use vstd::string::StrSliceExecFns;

verus! {

/// A word is exactly five characters long.
pub open spec fn is_word(w: Seq<char>) -> bool {
    w.len() == 5
}

/// Every entry of a dictionary is a five-character word.
pub open spec fn all_words(ws: Seq<Seq<char>>) -> bool {
    forall|i: int| 0 <= i < ws.len() ==> is_word(#[trigger] ws[i])
}

/// No two entries of the dictionary are the same word.
pub open spec fn distinct_words(ws: Seq<Seq<char>>) -> bool {
    forall|i: int, j: int| 0 <= i < j < ws.len() ==> ws[i] != ws[j]
}

/// Collects the characters of a string into a vector, in order.
pub fn to_char_slice(s: &str) -> (r: Vec<char>)
    ensures
        r@ == s@,
{
    let n = s.unicode_len();
    let mut r: Vec<char> = Vec::new();
    let mut i: usize = 0;
    while i < n
        invariant
            i <= n,
            n == s@.len(),
            r@.len() == i,
            forall|k: int| 0 <= k < i ==> r@[k] == s@[k],
        decreases n - i,
    {
        r.push(s.get_char(i));
        i += 1;
    }
    proof {
        assert(r@ =~= s@);
    }
    r
}

/// Positional equality of two words.
pub fn words_equal(a: &Vec<char>, b: &Vec<char>) -> (r: bool)
    ensures
        r == (a@ == b@),
{
    if a.len() != b.len() {
        return false;
    }
    let mut i: usize = 0;
    while i < a.len()
        invariant
            i <= a@.len(),
            a@.len() == b@.len(),
            forall|k: int| 0 <= k < i ==> a@[k] == b@[k],
        decreases a@.len() - i,
    {
        if a[i] != b[i] {
            return false;
        }
        i += 1;
    }
    proof {
        assert(a@ =~= b@);
    }
    true
}

/// An owned copy of a word.
pub fn copy_word(w: &Vec<char>) -> (r: Vec<char>)
    ensures
        r@ == w@,
{
    let mut r: Vec<char> = Vec::new();
    let mut i: usize = 0;
    while i < w.len()
        invariant
            i <= w@.len(),
            r@.len() == i,
            forall|k: int| 0 <= k < i ==> r@[k] == w@[k],
        decreases w@.len() - i,
    {
        r.push(w[i]);
        i += 1;
    }
    proof {
        assert(r@ =~= w@);
    }
    r
}

/// An owned copy of a list of words.
pub fn copy_words(ws: &Vec<Vec<char>>) -> (r: Vec<Vec<char>>)
    ensures
        r.deep_view() == ws.deep_view(),
        r@.len() == ws@.len(),
        forall|k: int| 0 <= k < ws@.len() ==> r@[k]@ == #[trigger] ws@[k]@,
{
    let mut r: Vec<Vec<char>> = Vec::new();
    let mut i: usize = 0;
    while i < ws.len()
        invariant
            i <= ws@.len(),
            r@.len() == i,
            forall|k: int| 0 <= k < i ==> r@[k]@ == #[trigger] ws@[k]@,
        decreases ws@.len() - i,
    {
        r.push(copy_word(&ws[i]));
        i += 1;
    }
    proof {
        assert(r.deep_view() =~~= ws.deep_view());
    }
    r
}

/// Positional lookup of an element inside an ordered collection.
pub trait IndexOf<T> {
    /// The collection's elements, in order.
    spec fn elems(&self) -> Seq<T>;

    /// The first position holding `elem`, if any.
    fn index_of(&self, elem: &T) -> (r: Option<usize>)
        ensures
            match r {
                Some(i) => {
                    &&& i < self.elems().len()
                    &&& self.elems()[i as int] == *elem
                    &&& forall|j: int| 0 <= j < i ==> self.elems()[j] != *elem
                },
                None => forall|j: int| 0 <= j < self.elems().len() ==> self.elems()[j] != *elem,
            },
    ;

    /// Every position holding `elem`, in increasing order.
    fn indices(&self, elem: &T) -> (r: Vec<usize>)
        ensures
            forall|k: int| 0 <= k < r@.len() ==> (#[trigger] r@[k]) < self.elems().len()
                && self.elems()[r@[k] as int] == *elem,
            forall|a: int, b: int| 0 <= a < b < r@.len() ==> r@[a] < r@[b],
            forall|j: int|
                0 <= j < self.elems().len() && self.elems()[j] == *elem ==> r@.contains(j as usize),
    ;
}

impl IndexOf<char> for Vec<char> {
    open spec fn elems(&self) -> Seq<char> {
        self@
    }

    fn index_of(&self, elem: &char) -> (r: Option<usize>)
        ensures
            match r {
                Some(i) => {
                    &&& i < self.elems().len()
                    &&& self.elems()[i as int] == *elem
                    &&& forall|j: int| 0 <= j < i ==> self.elems()[j] != *elem
                },
                None => forall|j: int| 0 <= j < self.elems().len() ==> self.elems()[j] != *elem,
            },
    {
        let mut i: usize = 0;
        while i < self.len()
            invariant
                i <= self@.len(),
                forall|j: int| 0 <= j < i ==> self@[j] != *elem,
            decreases self@.len() - i,
        {
            if self[i] == *elem {
                return Some(i);
            }
            i += 1;
        }
        None
    }

    fn indices(&self, elem: &char) -> (r: Vec<usize>)
        ensures
            forall|k: int| 0 <= k < r@.len() ==> (#[trigger] r@[k]) < self.elems().len()
                && self.elems()[r@[k] as int] == *elem,
            forall|a: int, b: int| 0 <= a < b < r@.len() ==> r@[a] < r@[b],
            forall|j: int|
                0 <= j < self.elems().len() && self.elems()[j] == *elem ==> r@.contains(j as usize),
    {
        let mut r: Vec<usize> = Vec::new();
        let mut i: usize = 0;
        while i < self.len()
            invariant
                i <= self@.len(),
                forall|k: int| 0 <= k < r@.len() ==> (#[trigger] r@[k]) < i
                    && self@[r@[k] as int] == *elem,
                forall|a: int, b: int| 0 <= a < b < r@.len() ==> r@[a] < r@[b],
                forall|j: int| 0 <= j < i && self@[j] == *elem ==> r@.contains(j as usize),
            decreases self@.len() - i,
        {
            if self[i] == *elem {
                let ghost prev = r@;
                r.push(i);
                proof {
                    assert(r@[r@.len() - 1] == i as usize);
                    assert forall|j: int| 0 <= j < i && self@[j] == *elem implies r@.contains(
                        j as usize,
                    ) by {
                        let k = choose|k: int| 0 <= k < prev.len() && prev[k] == (j as usize);
                        assert(r@[k] == j as usize);
                    };
                }
            }
            i += 1;
        }
        r
    }
}

} // verus!
