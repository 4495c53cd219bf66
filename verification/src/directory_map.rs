//! The result of a walk: the file groups of each directory that has any,
//! filed under the directory's key.

use crate::order::{same_text, Group};
use crate::text::{chars_of, string_of};
use vstd::prelude::*;

verus! {

/// File groups by directory key.
pub type GroupMap = Map<Seq<char>, Seq<Group>>;

/// One directory's key and its file groups.
struct DirectoryEntry {
    key: Vec<char>,
    groups: Vec<Vec<String>>,
}

/// A map from directory keys to file groups. It holds each key once; its
/// entries keep the order in which their keys first came.
pub struct DirectoryGroupMap {
    entries: Vec<DirectoryEntry>,
}

/// The keys of a list of entries, in their order.
spec fn keys_of(entries: Seq<DirectoryEntry>) -> Seq<Seq<char>> {
    entries.map_values(|entry: DirectoryEntry| entry.key@)
}

impl View for DirectoryGroupMap {
    type V = GroupMap;

    closed spec fn view(&self) -> GroupMap {
        Map::new(
            |key: Seq<char>| self.keys().contains(key),
            |key: Seq<char>| self.entries@[self.keys().index_of(key)].groups.deep_view(),
        )
    }
}

/// `entries` lists `map`: it holds each key of the map once, with what the
/// map holds under that key, and nothing else.
pub open spec fn lists_map(
    entries: Seq<(String, Vec<Vec<String>>)>,
    map: GroupMap,
) -> bool {
    &&& forall|i: int, j: int|
        0 <= i < j < entries.len() ==> (#[trigger] entries[i]).0@ != (#[trigger] entries[j]).0@
    &&& forall|i: int|
        0 <= i < entries.len() ==> map.contains_key((#[trigger] entries[i]).0@) && map[entries[i].0@]
            == entries[i].1.deep_view()
    &&& forall|key: Seq<char>|
        map.contains_key(key) ==> exists|i: int|
            0 <= i < entries.len() && (#[trigger] entries[i]).0@ == key
}

impl DirectoryGroupMap {
    /// The keys of the map, in the order in which they first came.
    pub closed spec fn keys(self) -> Seq<Seq<char>> {
        keys_of(self.entries@)
    }

    /// No key occurs twice.
    #[verifier::type_invariant]
    pub closed spec fn well_formed(self) -> bool {
        self.keys().no_duplicates()
    }

    /// The keys are the map's domain, and each key holds the groups of its
    /// entry.
    proof fn lemma_view(self)
        requires
            self.well_formed(),
        ensures
            self@.dom() =~= self.keys().to_set(),
            forall|index: int|
                0 <= index < self.entries@.len() ==> self@.contains_key(
                    #[trigger] self.keys()[index],
                ) && self@[self.keys()[index]] == self.entries@[index].groups.deep_view(),
    {
        assert forall|index: int| 0 <= index < self.entries@.len() implies self@.contains_key(
            #[trigger] self.keys()[index],
        ) && self@[self.keys()[index]] == self.entries@[index].groups.deep_view() by {
            let key = self.keys()[index];
            assert(self.keys().contains(key));
            assert(self.keys().index_of(key) == index);
        }
    }

    /// A map without entries.
    pub fn new() -> (map: DirectoryGroupMap)
        ensures
            map@ == GroupMap::empty(),
            map.keys() == Seq::<Seq<char>>::empty(),
    {
        let map = DirectoryGroupMap { entries: Vec::new() };
        assert(map@ =~= GroupMap::empty());
        assert(map.keys() =~= Seq::<Seq<char>>::empty());
        map
    }

    /// Where the key stands among the entries.
    fn position(&self, key: &Vec<char>) -> (found: Option<usize>)
        ensures
            match found {
                Some(index) => index < self.entries@.len() && self.keys()[index as int] == key@,
                None => !self.keys().contains(key@),
            },
    {
        let mut index: usize = 0;
        while index < self.entries.len()
            invariant
                index <= self.entries@.len(),
                forall|earlier: int| 0 <= earlier < index ==> self.keys()[earlier] != key@,
            decreases self.entries@.len() - index,
        {
            if same_text(&self.entries[index].key, key) {
                return Some(index);
            }
            index += 1;
        }
        None
    }

    /// Files `groups` under `key`, in place of what was filed under it.
    pub(crate) fn insert_chars(&mut self, key: Vec<char>, groups: Vec<Vec<String>>)
        ensures
            final(self)@ == old(self)@.insert(key@, groups.deep_view()),
            final(self).keys() == if old(self)@.contains_key(key@) {
                old(self).keys()
            } else {
                old(self).keys().push(key@)
            },
    {
        proof {
            use_type_invariant(&*self);
            self.lemma_view();
        }
        let ghost before = *self;
        let ghost key_view = key@;
        let ghost groups_view = groups.deep_view();
        let found = self.position(&key);
        let mut entries: Vec<DirectoryEntry> = Vec::new();
        core::mem::swap(&mut self.entries, &mut entries);
        match found {
            Some(index) => {
                entries[index] = DirectoryEntry { key, groups };
                assert(keys_of(entries@) =~= before.keys());
                self.entries = entries;
                proof {
                    self.lemma_view();
                    assert(self@ =~= before@.insert(key_view, groups_view)) by {
                        assert forall|other: Seq<char>| self@.contains_key(other) implies self@[other]
                            == before@.insert(key_view, groups_view)[other] by {
                            let at = self.keys().index_of(other);
                            assert(self.keys()[at] == other);
                            if at != index {
                                assert(self.entries@[at] == before.entries@[at]);
                            }
                        }
                    }
                }
            },
            None => {
                entries.push(DirectoryEntry { key, groups });
                assert(keys_of(entries@) =~= before.keys().push(key_view));
                self.entries = entries;
                proof {
                    self.lemma_view();
                    assert(self@ =~= before@.insert(key_view, groups_view)) by {
                        assert forall|other: Seq<char>| self@.contains_key(other) implies self@[other]
                            == before@.insert(key_view, groups_view)[other] && before@.insert(
                            key_view,
                            groups_view,
                        ).contains_key(other) by {
                            let at = self.keys().index_of(other);
                            assert(self.keys()[at] == other);
                            if at < before.entries@.len() {
                                assert(before.keys()[at] == other);
                                assert(self.entries@[at] == before.entries@[at]);
                            }
                        }
                        assert forall|other: Seq<char>|
                            before@.insert(key_view, groups_view).contains_key(
                                other,
                            ) implies self@.contains_key(other) by {
                            if other != key_view {
                                let at = before.keys().index_of(other);
                                assert(self.keys()[at] == other);
                            } else {
                                assert(self.keys()[before.entries@.len() as int] == other);
                            }
                        }
                    }
                }
            },
        }
    }

    /// Files `groups` under the key `path`, in place of what was filed
    /// under it.
    pub fn insert(&mut self, path: &str, groups: Vec<Vec<String>>)
        ensures
            final(self)@ == old(self)@.insert(path@, groups.deep_view()),
            final(self).keys() == if old(self)@.contains_key(path@) {
                old(self).keys()
            } else {
                old(self).keys().push(path@)
            },
    {
        self.insert_chars(chars_of(path), groups)
    }

    /// The groups filed under the key `path`.
    pub fn get(&self, path: &str) -> (groups: Option<&Vec<Vec<String>>>)
        ensures
            match groups {
                Some(found) => self@.contains_key(path@) && found.deep_view() == self@[path@],
                None => !self@.contains_key(path@),
            },
    {
        proof {
            use_type_invariant(self);
            self.lemma_view();
        }
        match self.position(&chars_of(path)) {
            Some(index) => Some(&self.entries[index].groups),
            None => None,
        }
    }

    /// The number of directories that have groups.
    pub fn len(&self) -> (count: usize)
        ensures
            self@.dom().finite(),
            count == self@.dom().len(),
    {
        proof {
            use_type_invariant(self);
            self.lemma_view();
            self.keys().unique_seq_to_set();
        }
        self.entries.len()
    }

    /// Whether no directory has groups.
    pub fn is_empty(&self) -> (empty: bool)
        ensures
            empty == (self@ == GroupMap::empty()),
    {
        proof {
            use_type_invariant(self);
            self.lemma_view();
            if self.entries@.len() > 0 {
                assert(self@.contains_key(self.keys()[0]));
            } else {
                assert(self@ =~= GroupMap::empty());
            }
        }
        self.entries.len() == 0
    }
    /// The entries of the map, each directory's key with its groups, in the
    /// order in which the keys first came.
    pub fn into_entries(self) -> (entries: Vec<(String, Vec<Vec<String>>)>)
        ensures
            lists_map(entries@, self@),
            entries@.len() == self.keys().len(),
            forall|index: int|
                0 <= index < entries@.len() ==> (#[trigger] entries@[index]).0@
                    == self.keys()[index],
    {
        proof {
            use_type_invariant(&self);
            self.lemma_view();
        }
        let ghost keys = self.keys();
        let ghost held = self.entries@;
        let mut rest = self.entries;
        let mut reversed: Vec<(String, Vec<Vec<String>>)> = Vec::new();
        while rest.len() > 0
            invariant
                rest@ == held.take(rest@.len() as int),
                rest@.len() + reversed@.len() == held.len(),
                forall|k: int|
                    0 <= k < reversed@.len() ==> (#[trigger] reversed@[k]).0@ == held[held.len() - 1
                        - k].key@ && reversed@[k].1 == held[held.len() - 1 - k].groups,
            decreases rest@.len(),
        {
            let ghost shorter = rest@.len() - 1;
            match rest.pop() {
                Some(entry) => {
                    let DirectoryEntry { key, groups } = entry;
                    reversed.push((string_of(&key), groups));
                    assert(rest@ =~= held.take(shorter));
                },
                None => {},
            }
        }
        let mut entries: Vec<(String, Vec<Vec<String>>)> = Vec::new();
        while reversed.len() > 0
            invariant
                entries@.len() + reversed@.len() == held.len(),
                forall|k: int|
                    0 <= k < reversed@.len() ==> (#[trigger] reversed@[k]).0@ == held[held.len() - 1
                        - k].key@ && reversed@[k].1 == held[held.len() - 1 - k].groups,
                forall|k: int|
                    0 <= k < entries@.len() ==> (#[trigger] entries@[k]).0@ == held[k].key@
                        && entries@[k].1 == held[k].groups,
            decreases reversed@.len(),
        {
            match reversed.pop() {
                Some(entry) => {
                    entries.push(entry);
                },
                None => {},
            }
        }
        proof {
            assert forall|index: int| 0 <= index < entries@.len() implies (
            #[trigger] entries@[index]).0@ == self.keys()[index] by {
                assert(keys[index] == held[index].key@);
            }
            assert forall|i: int, j: int| 0 <= i < j < entries@.len() implies (
            #[trigger] entries@[i]).0@ != (#[trigger] entries@[j]).0@ by {
                assert(keys[i] == entries@[i].0@);
                assert(keys[j] == entries@[j].0@);
            }
            assert forall|i: int| 0 <= i < entries@.len() implies self@.contains_key(
                (#[trigger] entries@[i]).0@,
            ) && self@[entries@[i].0@] == entries@[i].1.deep_view() by {
                assert(keys[i] == entries@[i].0@);
            }
            assert forall|key: Seq<char>| self@.contains_key(key) implies exists|i: int|
                0 <= i < entries@.len() && (#[trigger] entries@[i]).0@ == key by {
                let at = keys.index_of(key);
                assert(keys[at] == key);
                assert(entries@[at].0@ == key);
            }
        }
        entries
    }
}

} // verus!
