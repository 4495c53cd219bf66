//! Texts as sequences of characters: conversion to and from strings, the
//! lowercase form, and the search for one text in another.
//!
//! Positions and lengths count characters, not bytes.

use vstd::prelude::*;

verus! {

/// The lowercase form of a string, as `str::to_lowercase` computes it by the
/// rules of Unicode. It is not defined here: nothing is known of it but that
/// it depends on the string alone.
pub uninterp spec fn lowercase(s: Seq<char>) -> Seq<char>;

/// Trusted, not proved: `str::to_lowercase` returns the lowercase form of
/// its argument, which depends on the argument alone. The contract gives
/// that form the name `lowercase` and claims nothing else of it.
pub assume_specification[ str::to_lowercase ](s: &str) -> (lowered: String)
    ensures
        lowered@ == lowercase(s@),
;

/// Trusted, not proved: `String::push` appends the character to the end of
/// the string and leaves what the string held before as it was.
pub assume_specification[ String::push ](s: &mut String, ch: char)
    ensures
        final(s)@ == old(s)@.push(ch),
;

/// The characters of a string, in order.
pub fn chars_of(s: &str) -> (chars: Vec<char>)
    ensures
        chars@ == s@,
{
    let mut chars: Vec<char> = Vec::new();
    for c in it: s.chars()
        invariant
            chars@ == it.seq().take(it.index()),
            it.seq() == s@,
    {
        chars.push(c);
    }
    chars
}

/// The string made of the given characters, in order.
pub fn string_of(chars: &Vec<char>) -> (s: String)
    ensures
        s@ == chars@,
{
    let mut s = String::new();
    let mut i: usize = 0;
    while i < chars.len()
        invariant
            i <= chars.len(),
            s@ == chars@.take(i as int),
        decreases chars.len() - i,
    {
        s.push(chars[i]);
        i += 1;
    }
    s
}

/// `index` is the least natural number of which `test` holds.
pub open spec fn is_least_where(test: spec_fn(int) -> bool, index: int) -> bool {
    &&& 0 <= index
    &&& test(index)
    &&& forall|earlier: int| 0 <= earlier < index ==> !#[trigger] test(earlier)
}

/// The least natural number of which `test` holds, if it holds of any.
pub open spec fn least_where(test: spec_fn(int) -> bool) -> Option<int> {
    if exists|index: int| 0 <= index && #[trigger] test(index) {
        Some(choose|index: int| is_least_where(test, index))
    } else {
        None
    }
}

/// A least number is the one that `least_where` gives.
pub proof fn lemma_least_where_some(test: spec_fn(int) -> bool, index: int)
    requires
        is_least_where(test, index),
    ensures
        least_where(test) == Some(index),
{
    let chosen = choose|c: int| is_least_where(test, c);
    assert(is_least_where(test, chosen));
    if chosen < index {
        assert(!test(chosen));
    }
    if index < chosen {
        assert(!test(index));
    }
}

/// What `least_where` gives is a least number, and it gives one whenever
/// the test holds of some natural number.
pub proof fn lemma_least_where(test: spec_fn(int) -> bool)
    ensures
        match least_where(test) {
            Some(index) => is_least_where(test, index),
            None => forall|index: int| 0 <= index ==> !#[trigger] test(index),
        },
{
    if exists|index: int| 0 <= index && #[trigger] test(index) {
        let some = choose|index: int| 0 <= index && #[trigger] test(index);
        lemma_least_exists(test, some);
    }
}

/// Where the test holds of a natural number, it holds of a least one.
proof fn lemma_least_exists(test: spec_fn(int) -> bool, index: int)
    requires
        0 <= index,
        test(index),
    ensures
        exists|least: int| #[trigger] is_least_where(test, least),
    decreases index,
{
    if exists|earlier: int| 0 <= earlier < index && #[trigger] test(earlier) {
        let earlier = choose|earlier: int| 0 <= earlier < index && #[trigger] test(earlier);
        lemma_least_exists(test, earlier);
    } else {
        assert(is_least_where(test, index));
    }
}

/// `needle` stands in `hay` at position `at`.
pub open spec fn occurs_at(hay: Seq<char>, needle: Seq<char>, at: int) -> bool {
    &&& 0 <= at
    &&& at + needle.len() <= hay.len()
    &&& hay.subrange(at, at + needle.len()) == needle
}

/// The test that finds `needle` in `hay`.
pub open spec fn occurrence_test(hay: Seq<char>, needle: Seq<char>) -> spec_fn(int) -> bool {
    |at: int| occurs_at(hay, needle, at)
}

/// `needle` stands somewhere in `hay`.
pub open spec fn contains_text(hay: Seq<char>, needle: Seq<char>) -> bool {
    exists|at: int| occurs_at(hay, needle, at)
}

/// The position of the first occurrence of `needle` in `hay`, if there is one.
pub open spec fn find_text(hay: Seq<char>, needle: Seq<char>) -> Option<int> {
    least_where(occurrence_test(hay, needle))
}

/// `find_text` gives a position exactly where the needle occurs, and the
/// needle stands at that position and nowhere before it.
pub proof fn lemma_find_text(hay: Seq<char>, needle: Seq<char>)
    ensures
        find_text(hay, needle) is Some <==> contains_text(hay, needle),
        find_text(hay, needle) matches Some(at) ==> occurs_at(hay, needle, at) && forall|
            earlier: int,
        |
            0 <= earlier < at ==> !occurs_at(hay, needle, earlier),
{
    let test = occurrence_test(hay, needle);
    lemma_least_where(test);
    if contains_text(hay, needle) {
        let at = choose|at: int| occurs_at(hay, needle, at);
        assert(test(at));
    }
    if let Some(at) = find_text(hay, needle) {
        assert(test(at));
        assert forall|earlier: int| 0 <= earlier < at implies !occurs_at(hay, needle, earlier) by {
            assert(!test(earlier));
        }
    }
}

/// Whether `needle` stands in `hay` at position `at`.
pub fn matches_at(hay: &Vec<char>, needle: &Vec<char>, at: usize) -> (found: bool)
    ensures
        found == occurs_at(hay@, needle@, at as int),
{
    if needle.len() > hay.len() || at > hay.len() - needle.len() {
        return false;
    }
    let mut k: usize = 0;
    while k < needle.len()
        invariant
            at + needle.len() <= hay.len(),
            k <= needle.len(),
            hay@.subrange(at as int, at + k) == needle@.take(k as int),
        decreases needle.len() - k,
    {
        if hay[at + k] != needle[k] {
            assert(hay@.subrange(at as int, at + needle.len())[k as int] != needle@[k as int]);
            return false;
        }
        assert(hay@.subrange(at as int, at + k + 1) =~= hay@.subrange(at as int, at + k).push(
            hay@[at + k],
        ));
        assert(needle@.take(k + 1) =~= needle@.take(k as int).push(needle@[k as int]));
        k += 1;
    }
    assert(needle@.take(k as int) =~= needle@);
    true
}

/// The position of the first occurrence of `needle` in `hay`, if there is one.
pub fn find(hay: &Vec<char>, needle: &Vec<char>) -> (found: Option<usize>)
    ensures
        match found {
            Some(at) => find_text(hay@, needle@) == Some(at as int) && occurs_at(
                hay@,
                needle@,
                at as int,
            ),
            None => find_text(hay@, needle@) is None && !contains_text(hay@, needle@),
        },
{
    let ghost test = occurrence_test(hay@, needle@);
    if needle.len() > hay.len() {
        proof {
            lemma_find_text(hay@, needle@);
        }
        return None;
    }
    let last: usize = hay.len() - needle.len();
    let mut at: usize = 0;
    loop
        invariant
            last == hay.len() - needle.len(),
            at <= last,
            test == occurrence_test(hay@, needle@),
            forall|earlier: int| 0 <= earlier < at ==> !#[trigger] test(earlier),
        decreases last - at,
    {
        if matches_at(hay, needle, at) {
            proof {
                lemma_least_where_some(test, at as int);
            }
            return Some(at);
        }
        if at == last {
            proof {
                lemma_find_text(hay@, needle@);
            }
            return None;
        }
        at += 1;
    }
}

/// Whether `needle` stands somewhere in `hay`.
pub fn contains(hay: &Vec<char>, needle: &Vec<char>) -> (found: bool)
    ensures
        found == contains_text(hay@, needle@),
{
    find(hay, needle).is_some()
}

/// The lowercase form of `text`.
pub fn to_lower(text: &Vec<char>) -> (lowered: Vec<char>)
    ensures
        lowered@ == lowercase(text@),
{
    let as_string = string_of(text);
    let lowered = as_string.as_str().to_lowercase();
    chars_of(lowered.as_str())
}

/// Whether `hay` begins with `needle`.
pub fn starts_with(hay: &Vec<char>, needle: &Vec<char>) -> (found: bool)
    ensures
        found == needle@.is_prefix_of(hay@),
{
    matches_at(hay, needle, 0)
}

/// Whether `hay` ends with `needle`.
pub fn ends_with(hay: &Vec<char>, needle: &Vec<char>) -> (found: bool)
    ensures
        found == needle@.is_suffix_of(hay@),
{
    if needle.len() > hay.len() {
        return false;
    }
    matches_at(hay, needle, hay.len() - needle.len())
}

/// The characters of `text` from position `from` to position `to`.
pub fn slice(text: &Vec<char>, from: usize, to: usize) -> (part: Vec<char>)
    requires
        from <= to <= text.len(),
    ensures
        part@ == text@.subrange(from as int, to as int),
{
    let mut part: Vec<char> = Vec::new();
    let mut i: usize = from;
    while i < to
        invariant
            from <= i <= to,
            to <= text.len(),
            part@ == text@.subrange(from as int, i as int),
        decreases to - i,
    {
        part.push(text[i]);
        assert(text@.subrange(from as int, i + 1) =~= text@.subrange(from as int, i as int).push(
            text@[i as int],
        ));
        i += 1;
    }
    part
}

/// `first` followed by `second`.
pub fn joined(first: &Vec<char>, second: &Vec<char>) -> (whole: Vec<char>)
    ensures
        whole@ == first@ + second@,
{
    let mut whole: Vec<char> = Vec::new();
    let mut i: usize = 0;
    while i < first.len()
        invariant
            i <= first.len(),
            whole@ == first@.take(i as int),
        decreases first.len() - i,
    {
        whole.push(first[i]);
        assert(first@.take(i + 1) =~= first@.take(i as int).push(first@[i as int]));
        i += 1;
    }
    assert(first@.take(i as int) =~= first@);
    let mut j: usize = 0;
    while j < second.len()
        invariant
            j <= second.len(),
            whole@ == first@ + second@.take(j as int),
        decreases second.len() - j,
    {
        whole.push(second[j]);
        assert(first@ + second@.take(j + 1) =~= (first@ + second@.take(j as int)).push(
            second@[j as int],
        ));
        j += 1;
    }
    assert(second@.take(j as int) =~= second@);
    whole
}

} // verus!
