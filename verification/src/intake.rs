//! What to do with a path that was handed in: scan it as a directory,
//! unpack it as an archive first, or turn it down.

use crate::order::same_text;
use crate::text::{chars_of, lowercase};
use vstd::prelude::*;
use vstd::string::StringExecFns;

verus! {

/// The archive formats that can be unpacked.
#[derive(Clone, Copy, Debug, PartialEq, Eq)]
pub enum ArchiveKind {
    Zip,
    SevenZip,
}

/// What a path that was handed in is.
#[derive(Clone, Copy, Debug, PartialEq, Eq)]
pub enum DropKind {
    /// A directory, which is scanned as it is.
    Directory,
    /// An archive, which is unpacked into a directory that is then scanned.
    Archive(ArchiveKind),
    /// A file that is no archive of a known format.
    Unsupported,
    /// Neither a directory nor a file.
    Invalid,
}

/// The extension of ZIP archives.
pub open spec fn zip_extension() -> Seq<char> {
    seq!['z', 'i', 'p']
}

/// The extension of 7-Zip archives.
pub open spec fn seven_zip_extension() -> Seq<char> {
    seq!['7', 'z']
}

/// The archive format that an extension in lowercase stands for.
pub open spec fn archive_kind_of(extension_lower: Seq<char>) -> Option<ArchiveKind> {
    if extension_lower == zip_extension() {
        Some(ArchiveKind::Zip)
    } else if extension_lower == seven_zip_extension() {
        Some(ArchiveKind::SevenZip)
    } else {
        None
    }
}

/// What a path is, given whether it names a directory or a file and what
/// extension it has. A directory is scanned whatever its name; a file
/// counts by its extension, whatever the case of its letters.
pub open spec fn drop_kind_of(
    is_directory: bool,
    is_file: bool,
    extension: Option<Seq<char>>,
) -> DropKind {
    if is_directory {
        DropKind::Directory
    } else if is_file {
        match extension {
            Some(written) => match archive_kind_of(lowercase(written)) {
                Some(kind) => DropKind::Archive(kind),
                None => DropKind::Unsupported,
            },
            None => DropKind::Unsupported,
        }
    } else {
        DropKind::Invalid
    }
}

/// The message with which a path of this kind is turned down.
pub open spec fn refusal_of(kind: DropKind) -> Option<Seq<char>> {
    match kind {
        DropKind::Unsupported => Some("Unsupported file type"@),
        DropKind::Invalid => Some("Invalid path"@),
        _ => None,
    }
}

/// The directory to scan after an archive was unpacked into `unpacked_to`:
/// where all that came out is one directory, that directory; else the
/// place itself.
pub open spec fn scan_root_of(unpacked_to: Seq<char>, entries: Seq<UnpackedEntry>) -> Seq<char> {
    if entries.len() == 1 && entries[0].is_directory {
        entries[0].path@
    } else {
        unpacked_to
    }
}

/// One entry of the directory into which an archive was unpacked.
pub struct UnpackedEntry {
    pub path: String,
    pub is_directory: bool,
}

/// The archive format that the extension `extension_lower`, in lowercase,
/// stands for.
pub fn archive_kind(extension_lower: &str) -> (kind: Option<ArchiveKind>)
    ensures
        kind == archive_kind_of(extension_lower@),
{
    let extension = chars_of(extension_lower);
    let zip: Vec<char> = vec!['z', 'i', 'p'];
    let seven_zip: Vec<char> = vec!['7', 'z'];
    assert(zip@ =~= zip_extension());
    assert(seven_zip@ =~= seven_zip_extension());
    if same_text(&extension, &zip) {
        Some(ArchiveKind::Zip)
    } else if same_text(&extension, &seven_zip) {
        Some(ArchiveKind::SevenZip)
    } else {
        None
    }
}

/// What the path that was handed in is.
pub fn classify_dropped_path(is_directory: bool, is_file: bool, extension: Option<&str>) -> (kind:
    DropKind)
    ensures
        kind == drop_kind_of(
            is_directory,
            is_file,
            match extension {
                Some(written) => Some(written@),
                None => None,
            },
        ),
{
    if is_directory {
        DropKind::Directory
    } else if is_file {
        match extension {
            Some(written) => {
                let lower = written.to_lowercase();
                match archive_kind(lower.as_str()) {
                    Some(kind) => DropKind::Archive(kind),
                    None => DropKind::Unsupported,
                }
            },
            None => DropKind::Unsupported,
        }
    } else {
        DropKind::Invalid
    }
}

impl DropKind {
    /// The message with which a path of this kind is turned down, if it
    /// is.
    pub fn refusal(&self) -> (message: Option<String>)
        ensures
            match message {
                Some(text) => refusal_of(*self) == Some(text@),
                None => refusal_of(*self) is None,
            },
    {
        match self {
            DropKind::Unsupported => Some(String::from_str("Unsupported file type")),
            DropKind::Invalid => Some(String::from_str("Invalid path")),
            _ => None,
        }
    }
}

/// The directory to scan after an archive was unpacked into `unpacked_to`
/// and `entries` is all that the place then holds.
pub fn scan_root(unpacked_to: &str, entries: &Vec<UnpackedEntry>) -> (root: String)
    ensures
        root@ == scan_root_of(unpacked_to@, entries@),
{
    if entries.len() == 1 && entries[0].is_directory {
        entries[0].path.clone()
    } else {
        String::from_str(unpacked_to)
    }
}

} // verus!
