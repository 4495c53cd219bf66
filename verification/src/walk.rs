//! The walk over a directory tree, one listing at a time. The walker says
//! which directory to list next; its caller lists that directory and hands
//! back what it found, or that listing failed.

use crate::directory_map::{DirectoryGroupMap, GroupMap};
use crate::gather::{gather, is_picked, lemma_gather_members};
use crate::grouping::{
    atlas_marker, file_groups, lemma_unrelated_files_have_no_groups, moc3_marker, moc_marker,
    process_files,
};
use crate::listing::{listable_name, record_of, records_of, FileRecord, ListedFile};
use crate::order::{texts_view, Group};
use crate::paths::{directory_key, normalize_directory, relative_prefix, strip_root};
use crate::text::{chars_of, contains_text, lowercase, string_of};
use vstd::prelude::*;

verus! {

/// Where a walk stands.
pub struct WalkState {
    /// The platform's path separator.
    pub separator: char,
    /// The key of the root of the walk.
    pub root_key: Seq<char>,
    /// The paths of the directories that are still to be listed, the next
    /// one first.
    pub pending: Seq<Seq<char>>,
    /// The file groups found so far, by directory key.
    pub found: GroupMap,
    /// Why the walk was given up, if it was.
    pub failure: Option<Seq<char>>,
}

/// The state in which a walk begins. Where the root is no directory there
/// is nothing to list.
pub open spec fn initial_state(root: Seq<char>, separator: char, root_is_directory: bool) -> WalkState {
    WalkState {
        separator,
        root_key: directory_key(root, separator),
        pending: if root_is_directory {
            seq![root]
        } else {
            Seq::empty()
        },
        found: Map::empty(),
        failure: None,
    }
}

/// The directory that is to be listed next: none once the walk has failed
/// or has listed them all.
pub open spec fn next_of(state: WalkState) -> Option<Seq<char>> {
    if state.failure is None && state.pending.len() > 0 {
        Some(state.pending[0])
    } else {
        None
    }
}

/// What the name at an index adds to the records of a directory: its
/// record, if the name can be listed.
pub open spec fn record_pick(prefix: Seq<char>, names: Seq<Seq<char>>) -> spec_fn(int) -> Option<
    FileRecord,
> {
    |index: int|
        if listable_name(names[index], lowercase(names[index])) {
            Some(record_of(prefix, names[index], lowercase(names[index])))
        } else {
            None
        }
}

/// The records of the files named `names` in the directory whose files'
/// relative paths begin with `prefix`. Names that cannot be listed are
/// passed over.
pub open spec fn listed_records(prefix: Seq<char>, names: Seq<Seq<char>>) -> Seq<FileRecord> {
    gather(names.len() as int, record_pick(prefix, names))
}

/// The file groups of the directory with the key `key` and the files named
/// `names`, in a walk whose root has the key `root_key`.
pub open spec fn directory_groups(
    root_key: Seq<char>,
    key: Seq<char>,
    names: Seq<Seq<char>>,
) -> Seq<Group> {
    file_groups(listed_records(relative_prefix(root_key, key), names))
}

/// What is found once the directory at `path` with the files named `names`
/// is taken in: the directory's file groups are filed under its key if it
/// has any; a directory without groups leaves no entry.
pub open spec fn filed(
    root_key: Seq<char>,
    separator: char,
    found: GroupMap,
    path: Seq<char>,
    names: Seq<Seq<char>>,
) -> GroupMap {
    let key = directory_key(path, separator);
    let groups = directory_groups(root_key, key, names);
    if groups.len() > 0 {
        found.insert(key, groups)
    } else {
        found
    }
}

/// A directory none of whose files holds a marker in its lowercase name has
/// no file groups and leaves no entry.
pub proof fn lemma_unrelated_directory_is_not_filed(
    root_key: Seq<char>,
    separator: char,
    found: GroupMap,
    path: Seq<char>,
    names: Seq<Seq<char>>,
)
    requires
        forall|index: int|
            0 <= index < names.len() ==> {
                let lower = lowercase(#[trigger] names[index]);
                &&& !contains_text(lower, moc3_marker())
                &&& !contains_text(lower, moc_marker())
                &&& !contains_text(lower, atlas_marker())
            },
    ensures
        directory_groups(root_key, directory_key(path, separator), names) == Seq::<Group>::empty(),
        filed(root_key, separator, found, path, names) == found,
{
    let prefix = relative_prefix(root_key, directory_key(path, separator));
    let pick = record_pick(prefix, names);
    let records = listed_records(prefix, names);
    lemma_gather_members(names.len() as int, pick);
    assert forall|at: int| 0 <= at < records.len() implies {
        let lower = (#[trigger] records[at]).lower;
        &&& !contains_text(lower, moc3_marker())
        &&& !contains_text(lower, moc_marker())
        &&& !contains_text(lower, atlas_marker())
    } by {
        assert(is_picked(names.len() as int, pick, records[at]));
        let index = choose|index: int|
            0 <= index < names.len() && #[trigger] pick(index) == Some(records[at]);
        assert(records[at].lower == lowercase(names[index]));
    }
    lemma_unrelated_files_have_no_groups(records);
}

/// The state after the next directory was listed and held the files
/// `names` and the directories at `subdirectories`. The directory is taken
/// in, and its subdirectories are listed next, in their order, before what
/// was pending.
pub open spec fn after_listing(
    state: WalkState,
    names: Seq<Seq<char>>,
    subdirectories: Seq<Seq<char>>,
) -> WalkState {
    if next_of(state) is None {
        state
    } else {
        WalkState {
            pending: subdirectories + state.pending.drop_first(),
            found: filed(state.root_key, state.separator, state.found, state.pending[0], names),
            ..state
        }
    }
}

/// The state after the next directory could not be listed: the walk is
/// given up, and nothing of what was found is kept.
pub open spec fn after_failure(state: WalkState, message: Seq<char>) -> WalkState {
    if next_of(state) is None {
        state
    } else {
        WalkState { pending: Seq::empty(), found: Map::empty(), failure: Some(message), ..state }
    }
}

/// The files named `names` in the directory whose files' relative paths
/// begin with `prefix`.
pub fn list_files(prefix: &str, names: &Vec<String>) -> (files: Vec<ListedFile>)
    ensures
        records_of(files@) == listed_records(prefix@, names.deep_view()),
{
    let ghost pick = record_pick(prefix@, names.deep_view());
    let mut files: Vec<ListedFile> = Vec::new();
    let mut index: usize = 0;
    assert(records_of(files@) =~= gather(0, pick));
    while index < names.len()
        invariant
            pick == record_pick(prefix@, names.deep_view()),
            index <= names.len(),
            records_of(files@) == gather(index as int, pick),
        decreases names.len() - index,
    {
        assert(names.deep_view()[index as int] == names@[index as int]@);
        let ghost before = records_of(files@);
        match ListedFile::new(prefix, names[index].as_str()) {
            Some(file) => {
                let ghost record = file@;
                files.push(file);
                assert(records_of(files@) =~= before.push(record));
            },
            None => {},
        }
        index += 1;
    }
    files
}

/// A walk over a directory tree.
pub struct Walker {
    separator: char,
    root_key: Vec<char>,
    /// The directories that are still to be listed, the next one last.
    pending: Vec<Vec<char>>,
    found: DirectoryGroupMap,
    failure: Option<String>,
}

impl View for Walker {
    type V = WalkState;

    closed spec fn view(&self) -> WalkState {
        WalkState {
            separator: self.separator,
            root_key: self.root_key@,
            pending: texts_view(self.pending@).reverse(),
            found: self.found@,
            failure: match self.failure {
                Some(message) => Some(message@),
                None => None,
            },
        }
    }
}

impl Walker {
    /// A walk that begins at `root`, on a platform whose paths are written
    /// with `separator`.
    pub fn new(root: &str, separator: char, root_is_directory: bool) -> (walker: Walker)
        ensures
            walker@ == initial_state(root@, separator, root_is_directory),
    {
        let root = chars_of(root);
        let root_key = normalize_directory(&root, separator);
        let mut pending: Vec<Vec<char>> = Vec::new();
        if root_is_directory {
            pending.push(root);
        }
        let walker = Walker {
            separator,
            root_key,
            pending,
            found: DirectoryGroupMap::new(),
            failure: None,
        };
        assert(walker@.pending =~= initial_state(root@, separator, root_is_directory).pending);
        walker
    }

    /// The path of the directory that is to be listed next.
    pub fn next_directory(&self) -> (next: Option<String>)
        ensures
            match next {
                Some(path) => next_of(self@) == Some(path@),
                None => next_of(self@) is None,
            },
    {
        if self.failure.is_some() || self.pending.len() == 0 {
            None
        } else {
            Some(string_of(&self.pending[self.pending.len() - 1]))
        }
    }

    /// Takes in the listing of the next directory: the names of its files
    /// and the paths of its subdirectories.
    pub fn listed(&mut self, files: &Vec<String>, subdirectories: &Vec<String>)
        ensures
            final(self)@ == after_listing(
                old(self)@,
                files.deep_view(),
                subdirectories.deep_view(),
            ),
    {
        if self.failure.is_some() || self.pending.len() == 0 {
            return ;
        }
        let ghost before = self@;
        let ghost stack = texts_view(self.pending@);
        let directory = match self.pending.pop() {
            Some(directory) => directory,
            None => Vec::new(),
        };
        let ghost rest = texts_view(self.pending@);
        assert(rest =~= stack.drop_last());
        assert(directory@ == stack.last());
        assert(stack.reverse()[0] == stack.last());
        let key = normalize_directory(&directory, self.separator);
        let prefix = string_of(&strip_root(&self.root_key, &key));
        let groups = process_files(&list_files(prefix.as_str(), files));
        if groups.len() > 0 {
            self.found.insert_chars(key, groups);
        }
        let ghost wanted = subdirectories.deep_view();
        let ghost found = self.found@;
        let mut index: usize = subdirectories.len();
        assert(texts_view(self.pending@) =~= rest + wanted.skip(index as int).reverse());
        while index > 0
            invariant
                wanted == subdirectories.deep_view(),
                index <= subdirectories.len(),
                texts_view(self.pending@) == rest + wanted.skip(index as int).reverse(),
                self.separator == before.separator,
                self.root_key@ == before.root_key,
                self.found@ == found,
                self.failure is None,
            decreases index,
        {
            index -= 1;
            let ghost stacked = texts_view(self.pending@);
            assert(wanted[index as int] == subdirectories@[index as int]@);
            self.pending.push(chars_of(subdirectories[index].as_str()));
            assert(texts_view(self.pending@) =~= stacked.push(wanted[index as int]));
            assert(wanted.skip(index as int).reverse() =~= wanted.skip(index + 1).reverse().push(
                wanted[index as int],
            ));
        }
        assert(wanted.skip(0) =~= wanted);
        assert((rest + wanted.reverse()).reverse() =~= wanted + stack.reverse().drop_first());
    }
    /// Takes in that the next directory could not be listed, and why. The
    /// walk is given up.
    pub fn failed(&mut self, message: String)
        ensures
            final(self)@ == after_failure(old(self)@, message@),
    {
        if self.failure.is_some() || self.pending.len() == 0 {
            return ;
        }
        self.pending = Vec::new();
        self.found = DirectoryGroupMap::new();
        self.failure = Some(message);
        assert(self@.pending =~= Seq::<Seq<char>>::empty());
    }

    /// The outcome of the walk: what was found, or why the walk was given
    /// up.
    pub fn finish(self) -> (outcome: Result<DirectoryGroupMap, String>)
        ensures
            match outcome {
                Ok(found) => self@.failure is None && found@ == self@.found,
                Err(message) => self@.failure == Some(message@),
            },
    {
        match self.failure {
            Some(message) => Err(message),
            None => Ok(self.found),
        }
    }
}

} // verus!
