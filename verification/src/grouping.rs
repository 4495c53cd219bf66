//! The file groups of one directory: which of its files stand for a model,
//! and which other files go with each of them.

use crate::gather::{gather, is_picked, lemma_gather_members};
use crate::listing::{records_of, valid_record, FileRecord, ListedFile};
use crate::order::{
    Group, group_order, groups_view, insert_group, insert_text, same_text, text_order, texts_view,
    lemma_group_order_total, lemma_text_order_total,
};
use crate::paths::{slash, strip_first_segment, trim_end, trim_end_matches, without_first_segment};
use crate::text::{
    chars_of, contains, contains_text, ends_with, find, find_text, joined, least_where,
    lemma_find_text, lemma_least_where, lemma_least_where_some, lowercase, occurs_at, slice,
    starts_with, string_of, to_lower,
};
use vstd::prelude::*;
use vstd::relations::*;
use vstd::seq_lib::*;

verus! {

/// The marker of a model file of the newer format.
pub open spec fn moc3_marker() -> Seq<char> {
    seq!['.', 'm', 'o', 'c', '3']
}

/// The marker of a model file of the older format.
pub open spec fn moc_marker() -> Seq<char> {
    seq!['.', 'm', 'o', 'c']
}

/// The marker of an atlas file.
pub open spec fn atlas_marker() -> Seq<char> {
    seq!['.', 'a', 't', 'l', 'a', 's']
}

/// The end of a binary skeleton descriptor's name.
pub open spec fn skel_suffix() -> Seq<char> {
    seq!['.', 's', 'k', 'e', 'l']
}

/// The end of a JSON descriptor's name.
pub open spec fn json_suffix() -> Seq<char> {
    seq!['.', 'j', 's', 'o', 'n']
}

/// What follows the base name in the name of a background variant.
pub open spec fn background_tag() -> Seq<char> {
    seq!['_', 'b', 'g']
}

/// What a file is to the grouping.
#[derive(Clone, Copy, Debug, PartialEq, Eq)]
pub enum FileKind {
    /// Its name holds `.moc3`.
    Moc3,
    /// Its name holds `.moc` and not `.moc3`.
    Moc,
    /// Its name holds `.atlas` and neither of the model markers.
    Atlas,
    /// Its name holds none of the markers.
    Other,
}

/// The kind of a file, read from its name in lowercase. A name that holds
/// several markers counts for the first of `.moc3`, `.moc`, `.atlas`.
pub open spec fn kind_of(lower: Seq<char>) -> FileKind {
    if contains_text(lower, moc3_marker()) {
        FileKind::Moc3
    } else if contains_text(lower, moc_marker()) {
        FileKind::Moc
    } else if contains_text(lower, atlas_marker()) {
        FileKind::Atlas
    } else {
        FileKind::Other
    }
}

/// The marker by which a file of the given kind is known. A file of no kind
/// has none.
pub open spec fn marker_of(kind: FileKind) -> Seq<char> {
    match kind {
        FileKind::Moc3 => moc3_marker(),
        FileKind::Moc => moc_marker(),
        FileKind::Atlas => atlas_marker(),
        FileKind::Other => Seq::empty(),
    }
}

/// The group of a model file whose lowercase name holds `marker`: the
/// file's relative path without its first segment, cut where the marker
/// begins in the name, and the name from the marker on.
pub open spec fn model_group(file: FileRecord, marker: Seq<char>) -> Group {
    let at = find_text(file.lower, marker).unwrap();
    let rest = without_first_segment(file.relative_path);
    seq![rest.take(rest.len() - (file.name.len() - at)), file.name.skip(at)]
}

/// The name of an atlas file before its marker.
pub open spec fn atlas_base(file: FileRecord) -> Seq<char> {
    file.name.take(find_text(file.lower, atlas_marker()).unwrap())
}

/// The name of an atlas file from its marker on.
pub open spec fn atlas_extension(file: FileRecord) -> Seq<char> {
    file.name.skip(find_text(file.lower, atlas_marker()).unwrap())
}

/// An atlas file is the root of a group unless its base name, in lowercase,
/// holds `_bg`.
pub open spec fn is_atlas_root(file: FileRecord) -> bool {
    &&& kind_of(file.lower) is Atlas
    &&& !contains_text(lowercase(atlas_base(file)), background_tag())
}

/// The file at `index` is an atlas root, and no atlas root listed after it
/// has its base name. Of the roots that share a base name the last one
/// stands for all of them.
pub open spec fn stands_for_base(files: Seq<FileRecord>, index: int) -> bool {
    &&& is_atlas_root(files[index])
    &&& forall|later: int|
        index < later < files.len() && is_atlas_root(#[trigger] files[later]) ==> atlas_base(
            files[later],
        ) != atlas_base(files[index])
}

/// The file at `index` is on record: no file listed after it has the same
/// lowercase name. Of the files that share a lowercase name only the last
/// one is looked up.
pub open spec fn is_recorded(files: Seq<FileRecord>, index: int) -> bool {
    forall|later: int|
        index < later < files.len() ==> (#[trigger] files[later]).lower != files[index].lower
}

/// The test for a file on record whose lowercase name holds `pattern`.
pub open spec fn holds_pattern(files: Seq<FileRecord>, pattern: Seq<char>) -> spec_fn(int) -> bool {
    |index: int| index < files.len() && is_recorded(files, index) && contains_text(
        files[index].lower,
        pattern,
    )
}

/// The descriptor of the atlas with the lowercase base name `base_lower`:
/// the first file on record whose lowercase name holds the base name
/// followed by `.skel`; where there is none, the first that holds the base
/// name followed by `.json`.
pub open spec fn descriptor_of(files: Seq<FileRecord>, base_lower: Seq<char>) -> Option<int> {
    match least_where(holds_pattern(files, base_lower + skel_suffix())) {
        Some(index) => Some(index),
        None => least_where(holds_pattern(files, base_lower + json_suffix())),
    }
}

/// A file is a background variant when its lowercase name begins with the
/// base name and `_bg`, ends with the descriptor's extension in lowercase,
/// and is long enough to hold both side by side.
pub open spec fn is_background(lower: Seq<char>, base_lower: Seq<char>, extension_lower: Seq<char>) -> bool {
    let prefix = base_lower + background_tag();
    &&& prefix.is_prefix_of(lower)
    &&& extension_lower.is_suffix_of(lower)
    &&& prefix.len() + extension_lower.len() <= lower.len()
}

/// What the file at an index adds to the background suffixes: its name
/// behind the base name, if it is on record and a background variant.
pub open spec fn background_pick(
    files: Seq<FileRecord>,
    base_lower: Seq<char>,
    extension_lower: Seq<char>,
) -> spec_fn(int) -> Option<Seq<char>> {
    |index: int|
        if is_recorded(files, index) && is_background(
            files[index].lower,
            base_lower,
            extension_lower,
        ) {
            Some(files[index].name.skip(base_lower.len() as int))
        } else {
            None
        }
}

/// The suffixes of the background variants of a model, in ascending order.
pub open spec fn background_suffixes(
    files: Seq<FileRecord>,
    base_lower: Seq<char>,
    extension_lower: Seq<char>,
) -> Seq<Seq<char>> {
    gather(files.len() as int, background_pick(files, base_lower, extension_lower)).sort_by(
        text_order(),
    )
}

/// The group of the atlas file at `atlas` with the descriptor at
/// `descriptor`: the descriptor's relative path without its extension and
/// without its first segment, the descriptor's extension, the atlas's
/// extension, and the background suffixes.
pub open spec fn atlas_group(files: Seq<FileRecord>, atlas: int, descriptor: int) -> Group {
    let base_lower = lowercase(atlas_base(files[atlas]));
    let extension = files[descriptor].name.skip(base_lower.len() as int);
    let stem = without_first_segment(trim_end(files[descriptor].relative_path, extension));
    seq![stem, extension, atlas_extension(files[atlas])] + background_suffixes(
        files,
        base_lower,
        lowercase(extension),
    )
}

/// What the file at an index adds to the groups of its directory.
pub open spec fn group_pick(files: Seq<FileRecord>) -> spec_fn(int) -> Option<Group> {
    |index: int|
        match kind_of(files[index].lower) {
            FileKind::Moc3 => Some(model_group(files[index], moc3_marker())),
            FileKind::Moc => Some(model_group(files[index], moc_marker())),
            FileKind::Atlas => if stands_for_base(files, index) {
                match descriptor_of(files, lowercase(atlas_base(files[index]))) {
                    Some(descriptor) => Some(atlas_group(files, index, descriptor)),
                    None => None,
                }
            } else {
                None
            },
            FileKind::Other => None,
        }
}

/// The groups that the files of a directory give rise to, in the order of
/// the listing.
pub open spec fn emitted_groups(files: Seq<FileRecord>) -> Seq<Group> {
    gather(files.len() as int, group_pick(files))
}

/// The file groups of a directory: what its files give rise to, in
/// ascending order.
pub open spec fn file_groups(files: Seq<FileRecord>) -> Seq<Group> {
    emitted_groups(files).sort_by(group_order())
}

/// The kind of the file whose name in lowercase is `lowercase_name`.
pub fn classify(lowercase_name: &str) -> (kind: FileKind)
    ensures
        kind == kind_of(lowercase_name@),
{
    locate_marker(&chars_of(lowercase_name)).0
}

/// The kind of the file whose name in lowercase is `lower`, and where its
/// marker begins.
fn locate_marker(lower: &Vec<char>) -> (located: (FileKind, usize))
    ensures
        located.0 == kind_of(lower@),
        !(located.0 is Other) ==> find_text(lower@, marker_of(located.0)) == Some(located.1 as int)
            && located.1 <= lower.len(),
{
    let moc3: Vec<char> = vec!['.', 'm', 'o', 'c', '3'];
    let moc: Vec<char> = vec!['.', 'm', 'o', 'c'];
    let atlas: Vec<char> = vec!['.', 'a', 't', 'l', 'a', 's'];
    assert(moc3@ =~= moc3_marker());
    assert(moc@ =~= moc_marker());
    assert(atlas@ =~= atlas_marker());
    match find(lower, &moc3) {
        Some(at) => (FileKind::Moc3, at),
        None => match find(lower, &moc) {
            Some(at) => (FileKind::Moc, at),
            None => match find(lower, &atlas) {
                Some(at) => (FileKind::Atlas, at),
                None => (FileKind::Other, 0),
            },
        },
    }
}

/// Below its first segment, a valid record's relative path still ends with
/// the file's name.
pub proof fn lemma_name_ends_rest(record: FileRecord)
    requires
        valid_record(record),
    ensures
        record.name.is_suffix_of(without_first_segment(record.relative_path)),
{
    let path = record.relative_path;
    let name = record.name;
    let before = path.len() - name.len();
    lemma_find_text(path, slash());
    match find_text(path, slash()) {
        Some(at) => {
            assert(path.subrange(at, at + 1) == slash());
            assert(path[at] == path.subrange(at, at + 1)[0]);
            if at >= before {
                assert(path.subrange(before, path.len() as int)[at - before] == '/');
                assert(name.subrange(at - before, at - before + 1) =~= slash());
                assert(occurs_at(name, slash(), at - before));
            }
            let rest = path.skip(at + 1);
            assert(rest.subrange(rest.len() - name.len(), rest.len() as int) =~= path.subrange(
                before,
                path.len() as int,
            ));
        },
        None => {},
    }
}

/// The group of the model file `file`, whose marker begins at `at`.
fn model_group_at(file: &ListedFile, at: usize, Ghost(marker): Ghost<Seq<char>>) -> (group: Vec<
    Vec<char>,
>)
    requires
        find_text(file@.lower, marker) == Some(at as int),
        at <= file@.lower.len(),
    ensures
        texts_view(group@) == model_group(file@, marker),
{
    proof {
        use_type_invariant(file);
        lemma_name_ends_rest(file@);
    }
    let name = file.name_chars();
    let rest = strip_first_segment(file.path_chars());
    let base = slice(&rest, 0, rest.len() - (name.len() - at));
    let extension = slice(name, at, name.len());
    let group: Vec<Vec<char>> = vec![base, extension];
    assert(texts_view(group@) =~= model_group(file@, marker));
    group
}

/// Whether the file at `index` is on record.
fn on_record(files: &Vec<ListedFile>, index: usize) -> (recorded: bool)
    requires
        index < files.len(),
    ensures
        recorded == is_recorded(records_of(files@), index as int),
{
    let ghost records = records_of(files@);
    let lower = files[index].lower_chars();
    let mut later: usize = index + 1;
    while later < files.len()
        invariant
            records == records_of(files@),
            index < later <= files.len(),
            lower@ == records[index as int].lower,
            forall|k: int| index < k < later ==> (#[trigger] records[k]).lower != lower@,
        decreases files.len() - later,
    {
        if same_text(files[later].lower_chars(), lower) {
            assert(records[later as int].lower == records[index as int].lower);
            return false;
        }
        later += 1;
    }
    true
}

/// The first file on record whose lowercase name holds `pattern`.
fn first_holding(files: &Vec<ListedFile>, pattern: &Vec<char>) -> (found: Option<usize>)
    ensures
        match found {
            Some(index) => index < files.len() && least_where(
                holds_pattern(records_of(files@), pattern@),
            ) == Some(index as int) && contains_text(
                records_of(files@)[index as int].lower,
                pattern@,
            ),
            None => least_where(holds_pattern(records_of(files@), pattern@)) is None,
        },
{
    let ghost records = records_of(files@);
    let ghost test = holds_pattern(records, pattern@);
    let mut index: usize = 0;
    while index < files.len()
        invariant
            records == records_of(files@),
            test == holds_pattern(records, pattern@),
            index <= files.len(),
            forall|earlier: int| 0 <= earlier < index ==> !#[trigger] test(earlier),
        decreases files.len() - index,
    {
        if contains(files[index].lower_chars(), pattern) && on_record(files, index) {
            proof {
                assert(test(index as int));
                lemma_least_where_some(test, index as int);
            }
            return Some(index);
        }
        index += 1;
    }
    proof {
        lemma_least_where(test);
    }
    None
}

/// The descriptor of the atlas whose base name in lowercase is `base_lower`.
fn descriptor_among(files: &Vec<ListedFile>, base_lower: &Vec<char>) -> (found: Option<usize>)
    ensures
        match found {
            Some(index) => index < files.len() && descriptor_of(records_of(files@), base_lower@)
                == Some(index as int) && base_lower@.len() <= records_of(
                files@,
            )[index as int].name.len(),
            None => descriptor_of(records_of(files@), base_lower@) is None,
        },
{
    let skel: Vec<char> = vec!['.', 's', 'k', 'e', 'l'];
    let json: Vec<char> = vec!['.', 'j', 's', 'o', 'n'];
    assert(skel@ =~= skel_suffix());
    assert(json@ =~= json_suffix());
    let found = match first_holding(files, &joined(base_lower, &skel)) {
        Some(index) => Some(index),
        None => first_holding(files, &joined(base_lower, &json)),
    };
    if let Some(index) = found {
        let file = &files[index];
        proof {
            use_type_invariant(file);
        }
    }
    found
}

/// The suffixes of the background variants among `files`, in ascending
/// order, for the model whose base name in lowercase is `base_lower` and
/// whose descriptor's extension in lowercase is `extension_lower`.
fn background_files(
    files: &Vec<ListedFile>,
    base_lower: &Vec<char>,
    extension_lower: &Vec<char>,
) -> (suffixes: Vec<Vec<char>>)
    ensures
        texts_view(suffixes@) == background_suffixes(
            records_of(files@),
            base_lower@,
            extension_lower@,
        ),
{
    let ghost records = records_of(files@);
    let ghost pick = background_pick(records, base_lower@, extension_lower@);
    let tag: Vec<char> = vec!['_', 'b', 'g'];
    assert(tag@ =~= background_tag());
    let prefix = joined(base_lower, &tag);
    let mut suffixes: Vec<Vec<char>> = Vec::new();
    let mut index: usize = 0;
    assert(texts_view(suffixes@) =~= gather(0, pick));
    while index < files.len()
        invariant
            records == records_of(files@),
            pick == background_pick(records, base_lower@, extension_lower@),
            prefix@ == base_lower@ + background_tag(),
            index <= files.len(),
            sorted_by(texts_view(suffixes@), text_order()),
            texts_view(suffixes@).to_multiset() == gather(index as int, pick).to_multiset(),
        decreases files.len() - index,
    {
        let file = &files[index];
        let lower = file.lower_chars();
        proof {
            use_type_invariant(file);
        }
        if starts_with(lower, &prefix) && ends_with(lower, extension_lower) && prefix.len()
            <= lower.len() - extension_lower.len() && on_record(files, index) {
            let name = file.name_chars();
            let suffix = slice(name, base_lower.len(), name.len());
            proof {
                assert(pick(index as int) == Some(suffix@));
                to_multiset_build(gather(index as int, pick), suffix@);
            }
            insert_text(&mut suffixes, suffix);
        } else {
            assert(pick(index as int) is None);
        }
        index += 1;
    }
    proof {
        let gathered = gather(files.len() as int, pick);
        lemma_text_order_total();
        gathered.lemma_sort_by_ensures(text_order());
        lemma_sorted_unique(texts_view(suffixes@), gathered.sort_by(text_order()), text_order());
    }
    suffixes
}

/// The base name of an atlas file that is the root of a group, as written
/// and in lowercase, and where the file's marker begins.
fn atlas_root_base(file: &ListedFile) -> (base: Option<(Vec<char>, Vec<char>, usize)>)
    ensures
        match base {
            Some((written, lower, at)) => is_atlas_root(file@) && written@ == atlas_base(file@)
                && lower@ == lowercase(written@) && find_text(file@.lower, atlas_marker()) == Some(
                at as int,
            ) && at <= file@.name.len(),
            None => !is_atlas_root(file@),
        },
{
    proof {
        use_type_invariant(file);
    }
    match locate_marker(file.lower_chars()) {
        (FileKind::Atlas, at) => {
            let tag: Vec<char> = vec!['_', 'b', 'g'];
            assert(tag@ =~= background_tag());
            let written = slice(file.name_chars(), 0, at);
            let lower = to_lower(&written);
            if contains(&lower, &tag) {
                None
            } else {
                Some((written, lower, at))
            }
        },
        _ => None,
    }
}

/// Whether the atlas root at `index`, whose base name is `base`, stands for
/// its base name.
fn is_last_of_base(files: &Vec<ListedFile>, index: usize, base: &Vec<char>) -> (last: bool)
    requires
        index < files.len(),
        is_atlas_root(records_of(files@)[index as int]),
        base@ == atlas_base(records_of(files@)[index as int]),
    ensures
        last == stands_for_base(records_of(files@), index as int),
{
    let ghost records = records_of(files@);
    let mut later: usize = index + 1;
    while later < files.len()
        invariant
            records == records_of(files@),
            index < later <= files.len(),
            base@ == atlas_base(records[index as int]),
            forall|k: int|
                index < k < later && is_atlas_root(#[trigger] records[k]) ==> atlas_base(records[k])
                    != base@,
        decreases files.len() - later,
    {
        match atlas_root_base(&files[later]) {
            Some((written, _, _)) => {
                if same_text(&written, base) {
                    assert(is_atlas_root(records[later as int]));
                    return false;
                }
            },
            None => {},
        }
        later += 1;
    }
    true
}

/// The group of the atlas file at `index`, if it has one.
fn atlas_group_of(files: &Vec<ListedFile>, index: usize) -> (group: Option<Vec<Vec<char>>>)
    requires
        index < files.len(),
        kind_of(records_of(files@)[index as int].lower) is Atlas,
    ensures
        match group {
            Some(texts) => group_pick(records_of(files@))(index as int) == Some(texts_view(texts@)),
            None => group_pick(records_of(files@))(index as int) is None,
        },
{
    let file = &files[index];
    let (base, base_lower, at) = match atlas_root_base(file) {
        Some(root) => root,
        None => {
            return None;
        },
    };
    if !is_last_of_base(files, index, &base) {
        return None;
    }
    let descriptor = match descriptor_among(files, &base_lower) {
        Some(found) => &files[found],
        None => {
            return None;
        },
    };
    let name = file.name_chars();
    let atlas_ending = slice(name, at, name.len());
    let descriptor_name = descriptor.name_chars();
    let extension = slice(descriptor_name, base_lower.len(), descriptor_name.len());
    let extension_lower = to_lower(&extension);
    let stem = strip_first_segment(&trim_end_matches(descriptor.path_chars(), &extension));
    let mut backgrounds = background_files(files, &base_lower, &extension_lower);
    let ghost head = seq![stem@, extension@, atlas_ending@];
    let ghost tail = texts_view(backgrounds@);
    let mut group: Vec<Vec<char>> = vec![stem, extension, atlas_ending];
    assert(texts_view(group@) =~= head);
    group.append(&mut backgrounds);
    assert(texts_view(group@) =~= head + tail);
    Some(group)
}

/// What the file at `index` adds to the groups of its directory.
fn group_of(files: &Vec<ListedFile>, index: usize) -> (group: Option<Vec<Vec<char>>>)
    requires
        index < files.len(),
    ensures
        match group {
            Some(texts) => group_pick(records_of(files@))(index as int) == Some(texts_view(texts@)),
            None => group_pick(records_of(files@))(index as int) is None,
        },
{
    let file = &files[index];
    match locate_marker(file.lower_chars()) {
        (FileKind::Moc3, at) => Some(model_group_at(file, at, Ghost(moc3_marker()))),
        (FileKind::Moc, at) => Some(model_group_at(file, at, Ghost(moc_marker()))),
        (FileKind::Atlas, _) => atlas_group_of(files, index),
        (FileKind::Other, _) => None,
    }
}

/// The strings of a list of texts.
pub(crate) fn texts_to_strings(texts: &Vec<Vec<char>>) -> (strings: Vec<String>)
    ensures
        strings.deep_view() == texts_view(texts@),
{
    let mut strings: Vec<String> = Vec::new();
    let mut index: usize = 0;
    while index < texts.len()
        invariant
            index <= texts.len(),
            strings.len() == index,
            forall|k: int| 0 <= k < index ==> (#[trigger] strings@[k])@ == texts@[k]@,
        decreases texts.len() - index,
    {
        strings.push(string_of(&texts[index]));
        index += 1;
    }
    assert(strings.deep_view() =~= texts_view(texts@));
    strings
}

/// The groups of strings of a list of groups of texts.
pub(crate) fn groups_to_strings(groups: &Vec<Vec<Vec<char>>>) -> (strings: Vec<Vec<String>>)
    ensures
        strings.deep_view() == groups_view(groups@),
{
    let mut strings: Vec<Vec<String>> = Vec::new();
    let mut index: usize = 0;
    while index < groups.len()
        invariant
            index <= groups.len(),
            strings.len() == index,
            forall|k: int|
                0 <= k < index ==> (#[trigger] strings@[k]).deep_view() == texts_view(groups@[k]@),
        decreases groups.len() - index,
    {
        strings.push(texts_to_strings(&groups[index]));
        index += 1;
    }
    assert(strings.deep_view() =~= groups_view(groups@));
    strings
}

/// The file groups of a directory with the files `files`.
pub fn process_files(files: &Vec<ListedFile>) -> (groups: Vec<Vec<String>>)
    ensures
        groups.deep_view() == file_groups(records_of(files@)),
{
    let ghost records = records_of(files@);
    let ghost pick = group_pick(records);
    let mut sorted: Vec<Vec<Vec<char>>> = Vec::new();
    let mut index: usize = 0;
    assert(groups_view(sorted@) =~= gather(0, pick));
    while index < files.len()
        invariant
            records == records_of(files@),
            pick == group_pick(records),
            index <= files.len(),
            sorted_by(groups_view(sorted@), group_order()),
            groups_view(sorted@).to_multiset() == gather(index as int, pick).to_multiset(),
        decreases files.len() - index,
    {
        match group_of(files, index) {
            Some(group) => {
                proof {
                    to_multiset_build(gather(index as int, pick), texts_view(group@));
                }
                insert_group(&mut sorted, group);
            },
            None => {},
        }
        index += 1;
    }
    proof {
        let emitted = emitted_groups(records);
        lemma_group_order_total();
        emitted.lemma_sort_by_ensures(group_order());
        lemma_sorted_unique(groups_view(sorted@), emitted.sort_by(group_order()), group_order());
    }
    groups_to_strings(&sorted)
}

/// The index of the descriptor, among `files`, of the atlas whose base name
/// in lowercase is `base_name_lower`.
pub fn find_descriptor(files: &Vec<ListedFile>, base_name_lower: &str) -> (found: Option<usize>)
    ensures
        match found {
            Some(index) => index < files.len() && descriptor_of(
                records_of(files@),
                base_name_lower@,
            ) == Some(index as int),
            None => descriptor_of(records_of(files@), base_name_lower@) is None,
        },
{
    descriptor_among(files, &chars_of(base_name_lower))
}

/// The suffixes of the background variants among `file_paths`, in ascending
/// order, for the model whose base name in lowercase is `base_name_lower`
/// and whose descriptor has the extension `main_model_extension`.
pub fn find_background_files(
    base_name_lower: &str,
    file_paths: &Vec<ListedFile>,
    main_model_extension: &str,
) -> (suffixes: Vec<String>)
    ensures
        suffixes.deep_view() == background_suffixes(
            records_of(file_paths@),
            base_name_lower@,
            lowercase(main_model_extension@),
        ),
{
    let extension_lower = main_model_extension.to_lowercase();
    let found = background_files(
        file_paths,
        &chars_of(base_name_lower),
        &chars_of(extension_lower.as_str()),
    );
    texts_to_strings(&found)
}

/// A directory none of whose files holds a marker in its lowercase name has
/// no file groups.
pub proof fn lemma_unrelated_files_have_no_groups(files: Seq<FileRecord>)
    requires
        forall|index: int|
            0 <= index < files.len() ==> {
                let lower = (#[trigger] files[index]).lower;
                &&& !contains_text(lower, moc3_marker())
                &&& !contains_text(lower, moc_marker())
                &&& !contains_text(lower, atlas_marker())
            },
    ensures
        file_groups(files) == Seq::<Group>::empty(),
{
    let pick = group_pick(files);
    let emitted = emitted_groups(files);
    lemma_gather_members(files.len() as int, pick);
    if emitted.len() > 0 {
        assert(is_picked(files.len() as int, pick, emitted[0]));
        let index = choose|index: int|
            0 <= index < files.len() && #[trigger] pick(index) == Some(emitted[0]);
        assert(kind_of(files[index].lower) is Other);
    }
    lemma_group_order_total();
    emitted.lemma_sort_by_ensures(group_order());
    assert(emitted =~= Seq::<Group>::empty());
    emitted.to_multiset_ensures();
    assert(file_groups(files).to_multiset().len() == 0);
    file_groups(files).to_multiset_ensures();
    assert(file_groups(files) =~= Seq::<Group>::empty());
}

/// The file groups of a directory are what its files give rise to, each as
/// often as it arose, in ascending order. Each group holds at least a base
/// name and an extension, and the base names ascend.
pub proof fn lemma_file_groups_ordered(files: Seq<FileRecord>)
    ensures
        sorted_by(file_groups(files), group_order()),
        file_groups(files).to_multiset() == emitted_groups(files).to_multiset(),
        forall|at: int|
            0 <= at < file_groups(files).len() ==> (#[trigger] file_groups(files)[at]).len() >= 2,
        forall|i: int, j: int|
            0 <= i < j < file_groups(files).len() ==> text_order()(
                #[trigger] file_groups(files)[i][0],
                #[trigger] file_groups(files)[j][0],
            ),
{
    let pick = group_pick(files);
    let emitted = emitted_groups(files);
    let groups = file_groups(files);
    lemma_group_order_total();
    lemma_text_order_total();
    emitted.lemma_sort_by_ensures(group_order());
    lemma_gather_members(files.len() as int, pick);
    assert forall|at: int| 0 <= at < groups.len() implies (#[trigger] groups[at]).len() >= 2 by {
        groups.to_multiset_ensures();
        emitted.to_multiset_ensures();
        assert(groups.to_multiset().count(groups[at]) > 0);
        assert(emitted.contains(groups[at]));
        let from = choose|from: int| 0 <= from < emitted.len() && emitted[from] == groups[at];
        assert(is_picked(files.len() as int, pick, emitted[from]));
        let index = choose|index: int|
            0 <= index < files.len() && #[trigger] pick(index) == Some(emitted[from]);
        assert(pick(index) == Some(groups[at]));
    }
    assert forall|i: int, j: int| 0 <= i < j < groups.len() implies text_order()(
        #[trigger] groups[i][0],
        #[trigger] groups[j][0],
    ) by {
        assert(group_order()(groups[i], groups[j]));
        assert(groups[i].len() >= 2 && groups[j].len() >= 2);
        assert(text_order()(groups[i][0], groups[i][0]));
    }
}

/// There is one way to put the groups of a directory in ascending order:
/// whatever holds them, each as often as it arose, in ascending order, is
/// the directory's file groups.
pub proof fn lemma_file_groups_unique(files: Seq<FileRecord>, arranged: Seq<Group>)
    requires
        sorted_by(arranged, group_order()),
        arranged.to_multiset() == emitted_groups(files).to_multiset(),
    ensures
        arranged == file_groups(files),
{
    lemma_group_order_total();
    emitted_groups(files).lemma_sort_by_ensures(group_order());
    lemma_sorted_unique(arranged, file_groups(files), group_order());
}

/// An atlas file whose base name, in lowercase, holds `_bg` gives rise to no
/// group, whatever else the directory holds.
pub proof fn lemma_background_atlas_is_no_root(files: Seq<FileRecord>, index: int)
    requires
        0 <= index < files.len(),
        kind_of(files[index].lower) is Atlas,
        contains_text(lowercase(atlas_base(files[index])), background_tag()),
    ensures
        group_pick(files)(index) is None,
{
}

/// A descriptor that ends in `.skel` is preferred: where some file on
/// record holds the base name followed by `.skel` in its lowercase name,
/// the descriptor is such a file, whether or not another holds the base
/// name followed by `.json`.
pub proof fn lemma_skel_is_preferred(files: Seq<FileRecord>, base_lower: Seq<char>, index: int)
    requires
        0 <= index < files.len(),
        is_recorded(files, index),
        contains_text(files[index].lower, base_lower + skel_suffix()),
    ensures
        descriptor_of(files, base_lower) matches Some(descriptor) && 0 <= descriptor <= index
            && is_recorded(files, descriptor) && contains_text(
            files[descriptor].lower,
            base_lower + skel_suffix(),
        ),
{
    let test = holds_pattern(files, base_lower + skel_suffix());
    assert(test(index));
    lemma_least_where(test);
    let descriptor = least_where(test).unwrap();
    assert(test(descriptor));
    if index < descriptor {
        assert(!test(index));
    }
}

/// Where no file on record holds the base name followed by `.skel`, the
/// descriptor is the first file on record that holds the base name followed
/// by `.json`; where none holds that either, there is no descriptor.
pub proof fn lemma_json_is_the_fallback(files: Seq<FileRecord>, base_lower: Seq<char>)
    requires
        forall|index: int|
            0 <= index < files.len() && is_recorded(files, index) ==> !contains_text(
                (#[trigger] files[index]).lower,
                base_lower + skel_suffix(),
            ),
    ensures
        descriptor_of(files, base_lower) == least_where(
            holds_pattern(files, base_lower + json_suffix()),
        ),
        descriptor_of(files, base_lower) matches Some(descriptor) ==> 0 <= descriptor < files.len()
            && is_recorded(files, descriptor) && contains_text(
            files[descriptor].lower,
            base_lower + json_suffix(),
        ),
{
    let skel = holds_pattern(files, base_lower + skel_suffix());
    let json = holds_pattern(files, base_lower + json_suffix());
    lemma_least_where(skel);
    lemma_least_where(json);
    if let Some(index) = least_where(skel) {
        assert(skel(index));
        assert(!contains_text(files[index].lower, base_lower + skel_suffix()));
    }
    if let Some(descriptor) = least_where(json) {
        assert(json(descriptor));
    }
}

/// The group of a model file that lies in the root of the scan is its name,
/// cut where the marker begins: there is no segment to take from its path.
pub proof fn lemma_model_group_in_root(file: FileRecord, marker: Seq<char>)
    requires
        valid_record(file),
        file.relative_path == file.name,
        contains_text(file.lower, marker),
    ensures
        find_text(file.lower, marker) matches Some(at) && 0 <= at <= file.name.len()
            && model_group(file, marker) == seq![file.name.take(at), file.name.skip(at)],
{
    lemma_find_text(file.lower, marker);
    lemma_find_text(file.name, slash());
    let at = find_text(file.lower, marker).unwrap();
    assert(model_group(file, marker)[0] =~= file.name.take(at));
}

/// A directory with one file has the group of that file, if the file gives
/// rise to one, and no other.
pub proof fn lemma_groups_of_one_file(file: FileRecord)
    ensures
        file_groups(seq![file]) == match group_pick(seq![file])(0) {
            Some(group) => seq![group],
            None => Seq::empty(),
        },
{
    let files = seq![file];
    let pick = group_pick(files);
    let emitted = emitted_groups(files);
    assert(gather(0, pick) =~= Seq::<Group>::empty());
    assert(emitted =~= match pick(0) {
        Some(group) => seq![group],
        None => Seq::empty(),
    });
    assert(sorted_by(emitted, group_order()));
    lemma_file_groups_unique(files, emitted);
}

/// The two texts of a model file's group, one after the other, are the
/// file's relative path without its first segment: the group loses nothing
/// of what lies below that segment, and its second text is the end of the
/// file's name.
pub proof fn lemma_model_group_joins(file: FileRecord, marker: Seq<char>)
    requires
        valid_record(file),
        contains_text(file.lower, marker),
    ensures
        model_group(file, marker).len() == 2,
        model_group(file, marker)[0] + model_group(file, marker)[1] == without_first_segment(
            file.relative_path,
        ),
        model_group(file, marker)[1].is_suffix_of(file.name),
{
    lemma_find_text(file.lower, marker);
    lemma_name_ends_rest(file);
    let at = find_text(file.lower, marker).unwrap();
    let rest = without_first_segment(file.relative_path);
    let group = model_group(file, marker);
    assert(rest.subrange(rest.len() - file.name.len(), rest.len() as int) == file.name);
    assert(group[0] + group[1] =~= rest) by {
        assert forall|k: int| 0 <= k < rest.len() implies (group[0] + group[1])[k] == rest[k] by {
            let cut = rest.len() - (file.name.len() - at);
            if k >= cut {
                assert(file.name[k - cut + at] == rest.subrange(
                    rest.len() - file.name.len(),
                    rest.len() as int,
                )[k - cut + at]);
            }
        }
    }
    assert(file.name.subrange(file.name.len() - group[1].len(), file.name.len() as int)
        =~= group[1]);
}

} // verus!
