//! Files as a directory listing hands them over.

use crate::paths::slash;
use crate::text::{chars_of, contains, contains_text, joined, lowercase, string_of};
use vstd::prelude::*;

verus! {

/// What the grouping reads of one listed file.
pub struct FileRecord {
    /// The file's name, as written.
    pub name: Seq<char>,
    /// The name in lowercase.
    pub lower: Seq<char>,
    /// The file's path relative to the root of the scan, with `/` between
    /// its segments.
    pub relative_path: Seq<char>,
}

/// A record is valid when its lowercase name is as long as its name, the
/// name holds no `/`, and the relative path ends with the name.
pub open spec fn valid_record(record: FileRecord) -> bool {
    &&& record.lower.len() == record.name.len()
    &&& !contains_text(record.name, slash())
    &&& record.name.is_suffix_of(record.relative_path)
}

/// A name can be listed when it holds no `/` and has as many characters in
/// lowercase as it has as written.
pub open spec fn listable_name(name: Seq<char>, lower: Seq<char>) -> bool {
    &&& lower.len() == name.len()
    &&& !contains_text(name, slash())
}

/// The record of the file `name` in the directory whose files' relative
/// paths begin with `prefix`.
pub open spec fn record_of(prefix: Seq<char>, name: Seq<char>, lower: Seq<char>) -> FileRecord {
    FileRecord { name, lower, relative_path: prefix + name }
}

/// One file of a directory listing.
pub struct ListedFile {
    name: Vec<char>,
    lower: Vec<char>,
    relative_path: Vec<char>,
}

impl View for ListedFile {
    type V = FileRecord;

    closed spec fn view(&self) -> FileRecord {
        FileRecord { name: self.name@, lower: self.lower@, relative_path: self.relative_path@ }
    }
}

/// The records of a list of files.
pub open spec fn records_of(files: Seq<ListedFile>) -> Seq<FileRecord> {
    files.map_values(|file: ListedFile| file@)
}

impl ListedFile {
    /// Every listed file holds a valid record.
    #[verifier::type_invariant]
    pub open spec fn well_formed(self) -> bool {
        valid_record(self@)
    }

    /// The file `name`, whose lowercase form is `lower`, in the directory
    /// whose files' relative paths begin with `prefix`. There is none where
    /// the name cannot be listed.
    pub fn with_lowercase(prefix: &str, name: &str, lower: &str) -> (file: Option<ListedFile>)
        ensures
            file is Some <==> listable_name(name@, lower@),
            file matches Some(listed) ==> listed@ == record_of(prefix@, name@, lower@),
    {
        let name = chars_of(name);
        let lower = chars_of(lower);
        let separator: Vec<char> = vec!['/'];
        assert(separator@ =~= slash());
        if lower.len() != name.len() || contains(&name, &separator) {
            return None;
        }
        let relative_path = joined(&chars_of(prefix), &name);
        assert(relative_path@.subrange(relative_path@.len() - name@.len(), relative_path@.len() as int)
            =~= name@);
        Some(ListedFile { name, lower, relative_path })
    }

    /// The file `name` in the directory whose files' relative paths begin
    /// with `prefix`. There is none where the name cannot be listed.
    pub fn new(prefix: &str, name: &str) -> (file: Option<ListedFile>)
        ensures
            file is Some <==> listable_name(name@, lowercase(name@)),
            file matches Some(listed) ==> listed@ == record_of(prefix@, name@, lowercase(name@)),
    {
        let lower = name.to_lowercase();
        ListedFile::with_lowercase(prefix, name, lower.as_str())
    }

    /// The characters of the file's name, as written.
    pub(crate) fn name_chars(&self) -> (name: &Vec<char>)
        ensures
            name@ == self@.name,
    {
        &self.name
    }

    /// The characters of the file's name in lowercase.
    pub(crate) fn lower_chars(&self) -> (lower: &Vec<char>)
        ensures
            lower@ == self@.lower,
    {
        &self.lower
    }

    /// The characters of the file's relative path.
    pub(crate) fn path_chars(&self) -> (path: &Vec<char>)
        ensures
            path@ == self@.relative_path,
    {
        &self.relative_path
    }

    /// The file's name, as written.
    pub fn name(&self) -> (name: String)
        ensures
            name@ == self@.name,
    {
        string_of(&self.name)
    }

    /// The file's name in lowercase.
    pub fn lowercase_name(&self) -> (lower: String)
        ensures
            lower@ == self@.lower,
    {
        string_of(&self.lower)
    }

    /// The file's path relative to the root of the scan.
    pub fn relative_path(&self) -> (path: String)
        ensures
            path@ == self@.relative_path,
    {
        string_of(&self.relative_path)
    }
}

} // verus!
