//! What the file groups of a directory owe to the order of its listing:
//! nothing, where the listing leaves no choice open.

use crate::gather::{chosen, lemma_chosen_rearranged, lemma_gather_agrees, through};
use crate::grouping::{
    atlas_base, atlas_group, background_pick, background_suffixes, descriptor_of, emitted_groups,
    file_groups, group_pick, holds_pattern, is_atlas_root, is_background, is_recorded,
    json_suffix, kind_of, lemma_file_groups_ordered, lemma_file_groups_unique, skel_suffix,
    stands_for_base,
};
use crate::listing::FileRecord;
use crate::order::{lemma_text_order_total, text_order, Group};
use crate::text::{contains_text, least_where, lemma_least_where, lowercase};
use vstd::prelude::*;
use vstd::seq_lib::*;

verus! {

/// At most one of `files` holds `pattern` in its lowercase name.
pub open spec fn held_once(files: Seq<FileRecord>, pattern: Seq<char>) -> bool {
    forall|one: FileRecord, other: FileRecord|
        #![trigger files.contains(one), files.contains(other)]
        files.contains(one) && files.contains(other) && one != other ==> !(contains_text(
            one.lower,
            pattern,
        ) && contains_text(other.lower, pattern))
}

/// A listing leaves no choice open when no file is listed twice, no two
/// files have the same lowercase name, no two atlas roots have the same
/// base name, and no atlas root has two files that may be its `.skel`
/// descriptor, or two that may be its `.json` descriptor.
pub open spec fn is_unambiguous(files: Seq<FileRecord>) -> bool {
    &&& files.no_duplicates()
    &&& forall|one: FileRecord, other: FileRecord|
        #![trigger files.contains(one), files.contains(other)]
        files.contains(one) && files.contains(other) && one != other ==> {
            &&& one.lower != other.lower
            &&& is_atlas_root(one) && is_atlas_root(other) ==> atlas_base(one) != atlas_base(other)
        }
    &&& forall|root: FileRecord| #[trigger]
        files.contains(root) && is_atlas_root(root) ==> {
            &&& held_once(files, lowercase(atlas_base(root)) + skel_suffix())
            &&& held_once(files, lowercase(atlas_base(root)) + json_suffix())
        }
}

/// Two listings hold the same files.
pub open spec fn same_files(files: Seq<FileRecord>, other: Seq<FileRecord>) -> bool {
    files.to_multiset() == other.to_multiset()
}

/// A listing that holds the files of one that leaves no choice open leaves
/// none open either, and each file of one is a file of the other.
pub proof fn lemma_unambiguous_rearranged(files: Seq<FileRecord>, other: Seq<FileRecord>)
    requires
        is_unambiguous(files),
        same_files(files, other),
    ensures
        is_unambiguous(other),
        other.len() == files.len(),
        forall|file: FileRecord| files.contains(file) <==> other.contains(file),
{
    broadcast use group_to_multiset_ensures;

    files.to_multiset_ensures();
    other.to_multiset_ensures();
    files.lemma_multiset_has_no_duplicates();
    other.lemma_multiset_has_no_duplicates_conv();
    assert forall|file: FileRecord| files.contains(file) <==> other.contains(file) by {
        assert(files.contains(file) <==> files.to_multiset().count(file) > 0);
        assert(other.contains(file) <==> other.to_multiset().count(file) > 0);
    }
    assert forall|root: FileRecord| #[trigger]
        other.contains(root) && is_atlas_root(root) implies held_once(
        other,
        lowercase(atlas_base(root)) + skel_suffix(),
    ) && held_once(other, lowercase(atlas_base(root)) + json_suffix()) by {
        assert(files.contains(root));
        let skel = lowercase(atlas_base(root)) + skel_suffix();
        let json = lowercase(atlas_base(root)) + json_suffix();
        assert(held_once(files, skel));
        assert(held_once(files, json));
        assert forall|one: FileRecord, two: FileRecord|
            #![trigger other.contains(one), other.contains(two)]
            other.contains(one) && other.contains(two) && one != two implies !(contains_text(
            one.lower,
            skel,
        ) && contains_text(two.lower, skel)) by {
            assert(files.contains(one) && files.contains(two));
        }
        assert forall|one: FileRecord, two: FileRecord|
            #![trigger other.contains(one), other.contains(two)]
            other.contains(one) && other.contains(two) && one != two implies !(contains_text(
            one.lower,
            json,
        ) && contains_text(two.lower, json)) by {
            assert(files.contains(one) && files.contains(two));
        }
    }
    assert forall|one: FileRecord, two: FileRecord|
        #![trigger other.contains(one), other.contains(two)]
        other.contains(one) && other.contains(two) && one != two implies one.lower != two.lower
        && (is_atlas_root(one) && is_atlas_root(two) ==> atlas_base(one) != atlas_base(two)) by {
        assert(files.contains(one) && files.contains(two));
    }
}

/// In a listing that leaves no choice open every file is on record, and
/// every atlas root stands for its base name.
pub proof fn lemma_every_file_counts(files: Seq<FileRecord>, index: int)
    requires
        is_unambiguous(files),
        0 <= index < files.len(),
    ensures
        is_recorded(files, index),
        is_atlas_root(files[index]) ==> stands_for_base(files, index),
{
    assert(files.contains(files[index]));
    assert forall|later: int| index < later < files.len() implies (#[trigger] files[later]).lower
        != files[index].lower && (is_atlas_root(files[later]) && is_atlas_root(files[index])
        ==> atlas_base(files[later]) != atlas_base(files[index])) by {
        assert(files.contains(files[later]));
        assert(files[later] != files[index]);
    }
}

/// Where at most one file holds `pattern`, two listings of the same files
/// find the same file for it, or both find none.
pub proof fn lemma_pattern_holder_agrees(
    files: Seq<FileRecord>,
    other: Seq<FileRecord>,
    pattern: Seq<char>,
)
    requires
        is_unambiguous(files),
        is_unambiguous(other),
        forall|file: FileRecord| files.contains(file) <==> other.contains(file),
        held_once(files, pattern),
    ensures
        match (
            least_where(holds_pattern(files, pattern)),
            least_where(holds_pattern(other, pattern)),
        ) {
            (Some(here), Some(there)) => 0 <= here < files.len() && 0 <= there < other.len()
                && files[here] == other[there],
            (None, None) => true,
            _ => false,
        },
{
    let here_test = holds_pattern(files, pattern);
    let there_test = holds_pattern(other, pattern);
    lemma_least_where(here_test);
    lemma_least_where(there_test);
    match least_where(here_test) {
        Some(here) => {
            assert(here_test(here));
            assert(files.contains(files[here]));
            assert(other.contains(files[here]));
            let at = choose|at: int| 0 <= at < other.len() && other[at] == files[here];
            lemma_every_file_counts(other, at);
            assert(there_test(at));
            let there = least_where(there_test).unwrap();
            assert(there_test(there));
            assert(other.contains(other[there]));
            assert(files.contains(other[there]));
            assert(files.contains(files[here]) && files.contains(other[there]));
        },
        None => {
            if let Some(there) = least_where(there_test) {
                assert(there_test(there));
                assert(other.contains(other[there]));
                assert(files.contains(other[there]));
                let at = choose|at: int| 0 <= at < files.len() && files[at] == other[there];
                lemma_every_file_counts(files, at);
                assert(here_test(at));
            }
        },
    }
}

/// The choice of a background suffix, by the file alone.
pub open spec fn background_choice(base_lower: Seq<char>, extension_lower: Seq<char>) -> spec_fn(
    FileRecord,
) -> Option<Seq<char>> {
    |file: FileRecord|
        if is_background(file.lower, base_lower, extension_lower) {
            Some(file.name.skip(base_lower.len() as int))
        } else {
            None
        }
}

/// Two listings of the same files, which leave no choice open, have the
/// same background suffixes.
pub proof fn lemma_backgrounds_agree(
    files: Seq<FileRecord>,
    other: Seq<FileRecord>,
    base_lower: Seq<char>,
    extension_lower: Seq<char>,
)
    requires
        is_unambiguous(files),
        is_unambiguous(other),
        same_files(files, other),
    ensures
        background_suffixes(files, base_lower, extension_lower) == background_suffixes(
            other,
            base_lower,
            extension_lower,
        ),
{
    let choice = background_choice(base_lower, extension_lower);
    let here = background_pick(files, base_lower, extension_lower);
    let there = background_pick(other, base_lower, extension_lower);
    assert forall|index: int| 0 <= index < files.len() implies #[trigger] here(index) == through(
        files,
        choice,
    )(index) by {
        lemma_every_file_counts(files, index);
    }
    assert forall|index: int| 0 <= index < other.len() implies #[trigger] there(index) == through(
        other,
        choice,
    )(index) by {
        lemma_every_file_counts(other, index);
    }
    lemma_gather_agrees(files.len() as int, here, through(files, choice));
    lemma_gather_agrees(other.len() as int, there, through(other, choice));
    lemma_chosen_rearranged(files, other, choice);
    lemma_text_order_total();
    chosen(files, choice).lemma_sort_by_ensures(text_order());
    chosen(other, choice).lemma_sort_by_ensures(text_order());
    lemma_sorted_unique(
        chosen(files, choice).sort_by(text_order()),
        chosen(other, choice).sort_by(text_order()),
        text_order(),
    );
}

/// In two listings of the same files, which leave no choice open, a file
/// gives rise to the same group wherever it stands.
pub proof fn lemma_pick_agrees(
    files: Seq<FileRecord>,
    other: Seq<FileRecord>,
    here: int,
    there: int,
)
    requires
        is_unambiguous(files),
        is_unambiguous(other),
        same_files(files, other),
        forall|file: FileRecord| files.contains(file) <==> other.contains(file),
        0 <= here < files.len(),
        0 <= there < other.len(),
        files[here] == other[there],
    ensures
        group_pick(files)(here) == group_pick(other)(there),
{
    let file = files[here];
    if kind_of(file.lower) is Atlas {
        lemma_every_file_counts(files, here);
        lemma_every_file_counts(other, there);
        if is_atlas_root(file) {
            assert(files.contains(file));
            let base_lower = lowercase(atlas_base(file));
            lemma_pattern_holder_agrees(files, other, base_lower + skel_suffix());
            lemma_pattern_holder_agrees(files, other, base_lower + json_suffix());
            match descriptor_of(files, base_lower) {
                Some(descriptor) => {
                    let matching = descriptor_of(other, base_lower).unwrap();
                    assert(files[descriptor] == other[matching]);
                    let extension = files[descriptor].name.skip(base_lower.len() as int);
                    lemma_backgrounds_agree(files, other, base_lower, lowercase(extension));
                    assert(atlas_group(files, here, descriptor) == atlas_group(
                        other,
                        there,
                        matching,
                    ));
                },
                None => {},
            }
        }
    }
}

/// The choice of a group, by the file alone, in a listing that leaves no
/// choice open.
pub open spec fn group_choice(files: Seq<FileRecord>) -> spec_fn(FileRecord) -> Option<Group> {
    |file: FileRecord| group_pick(files)(files.index_of(file))
}

/// The file groups of a directory do not depend on the order in which its
/// files are listed, where the listing leaves no choice open.
pub proof fn lemma_groups_do_not_depend_on_order(files: Seq<FileRecord>, other: Seq<FileRecord>)
    requires
        is_unambiguous(files),
        same_files(files, other),
    ensures
        file_groups(other) == file_groups(files),
{
    lemma_unambiguous_rearranged(files, other);
    let choice = group_choice(files);
    assert forall|index: int| 0 <= index < files.len() implies #[trigger] group_pick(files)(index)
        == through(files, choice)(index) by {
        assert(files.contains(files[index]));
        assert(files.index_of(files[index]) == index);
    }
    assert forall|index: int| 0 <= index < other.len() implies #[trigger] group_pick(other)(index)
        == through(other, choice)(index) by {
        assert(other.contains(other[index]));
        assert(files.contains(other[index]));
        let here = files.index_of(other[index]);
        lemma_pick_agrees(files, other, here, index);
    }
    lemma_gather_agrees(files.len() as int, group_pick(files), through(files, choice));
    lemma_gather_agrees(other.len() as int, group_pick(other), through(other, choice));
    lemma_chosen_rearranged(files, other, choice);
    lemma_file_groups_ordered(other);
    assert(emitted_groups(other).to_multiset() == emitted_groups(files).to_multiset());
    lemma_file_groups_unique(files, file_groups(other));
}

} // verus!
