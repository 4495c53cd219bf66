//! Paths as texts with `/` between their segments.

use crate::text::{find, find_text, matches_at, occurs_at, slice, starts_with};
use vstd::prelude::*;

verus! {

/// The text that separates the segments of a path.
pub open spec fn slash() -> Seq<char> {
    seq!['/']
}

/// What follows the first `/` of a path; the whole path where it has none.
pub open spec fn without_first_segment(path: Seq<char>) -> Seq<char> {
    match find_text(path, slash()) {
        Some(at) => path.skip(at + 1),
        None => path,
    }
}

/// `text` without the repetitions of `suffix` at its end. An empty suffix
/// takes nothing away.
pub open spec fn trim_end(text: Seq<char>, suffix: Seq<char>) -> Seq<char>
    decreases text.len(),
{
    if suffix.len() > 0 && suffix.is_suffix_of(text) {
        trim_end(text.take(text.len() - suffix.len()), suffix)
    } else {
        text
    }
}

/// A path with `separator` replaced by `/`.
pub open spec fn with_slashes(path: Seq<char>, separator: char) -> Seq<char> {
    path.map_values(
        |c: char|
            if c == separator {
                '/'
            } else {
                c
            },
    )
}

/// The key under which a directory is filed: its path with `/` for the
/// platform's separator, and with a `/` at its end.
pub open spec fn directory_key(path: Seq<char>, separator: char) -> Seq<char> {
    let slashed = with_slashes(path, separator);
    if slashed.len() > 0 && slashed.last() == '/' {
        slashed
    } else {
        slashed.push('/')
    }
}

/// The part of a directory's key that lies below the root's key: what is put
/// before a file's name to give its path relative to the root. Empty for the
/// root itself, and for a directory whose key does not begin with the root's.
pub open spec fn relative_prefix(root_key: Seq<char>, directory_key: Seq<char>) -> Seq<char> {
    if root_key.is_prefix_of(directory_key) {
        directory_key.skip(root_key.len() as int)
    } else {
        Seq::empty()
    }
}

/// What follows the first `/` of `path`; all of `path` where it has none.
pub fn strip_first_segment(path: &Vec<char>) -> (rest: Vec<char>)
    ensures
        rest@ == without_first_segment(path@),
{
    let separator: Vec<char> = vec!['/'];
    assert(separator@ =~= slash());
    match find(path, &separator) {
        Some(at) => {
            assert(occurs_at(path@, slash(), at as int));
            assert(slash().len() == 1);
            assert(at + 1 <= path.len());
            slice(path, at + 1, path.len())
        },
        None => {
            assert(path@.subrange(0, path.len() as int) =~= path@);
            slice(path, 0, path.len())
        },
    }
}

/// `text` without the repetitions of `suffix` at its end.
pub fn trim_end_matches(text: &Vec<char>, suffix: &Vec<char>) -> (trimmed: Vec<char>)
    ensures
        trimmed@ == trim_end(text@, suffix@),
{
    let mut end: usize = text.len();
    assert(text@.take(end as int) =~= text@);
    if suffix.len() > 0 {
        while end >= suffix.len() && matches_at(text, suffix, end - suffix.len())
            invariant
                suffix.len() > 0,
                end <= text.len(),
                trim_end(text@, suffix@) == trim_end(text@.take(end as int), suffix@),
            decreases end,
        {
            proof {
                let kept = text@.take(end as int);
                assert(kept.subrange(kept.len() - suffix.len(), kept.len() as int)
                    =~= text@.subrange(end - suffix.len(), end as int));
                assert(kept.take(kept.len() - suffix.len()) =~= text@.take(end - suffix.len()));
            }
            end = end - suffix.len();
        }
        proof {
            let kept = text@.take(end as int);
            if end >= suffix.len() {
                assert(kept.subrange(kept.len() - suffix.len(), kept.len() as int)
                    =~= text@.subrange(end - suffix.len(), end as int));
            }
        }
    }
    slice(text, 0, end)
}

/// The key under which the directory at `path` is filed.
pub fn normalize_directory(path: &Vec<char>, separator: char) -> (key: Vec<char>)
    ensures
        key@ == directory_key(path@, separator),
{
    let mut key: Vec<char> = Vec::new();
    let mut i: usize = 0;
    while i < path.len()
        invariant
            i <= path.len(),
            key@ == with_slashes(path@.take(i as int), separator),
        decreases path.len() - i,
    {
        let c = path[i];
        if c == separator {
            key.push('/');
        } else {
            key.push(c);
        }
        assert(with_slashes(path@.take(i + 1), separator) =~= with_slashes(
            path@.take(i as int),
            separator,
        ).push(
            if c == separator {
                '/'
            } else {
                c
            },
        ));
        i += 1;
    }
    assert(path@.take(i as int) =~= path@);
    if key.len() == 0 || key[key.len() - 1] != '/' {
        key.push('/');
    }
    key
}

/// The part of `directory_key` that lies below `root_key`.
pub fn strip_root(root_key: &Vec<char>, directory_key: &Vec<char>) -> (prefix: Vec<char>)
    ensures
        prefix@ == relative_prefix(root_key@, directory_key@),
{
    if starts_with(directory_key, root_key) {
        slice(directory_key, root_key.len(), directory_key.len())
    } else {
        Vec::new()
    }
}

/// A directory's key ends with `/`, holds the platform's separator nowhere
/// unless that is `/` itself, and is its own key.
pub proof fn lemma_directory_key_shape(path: Seq<char>, separator: char)
    ensures
        directory_key(path, separator).len() > 0,
        directory_key(path, separator).last() == '/',
        separator != '/' ==> !directory_key(path, separator).contains(separator),
        directory_key(directory_key(path, separator), separator) == directory_key(path, separator),
{
    let key = directory_key(path, separator);
    if separator != '/' {
        assert forall|at: int| 0 <= at < key.len() implies key[at] != separator by {
            if at < path.len() {
                assert(key[at] == with_slashes(path, separator)[at]);
            }
        }
    }
    assert(with_slashes(key, separator) =~= key);
}

} // verus!
