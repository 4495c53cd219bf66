//! Directory trees, and what a walk over one comes to.

use crate::directory_map::GroupMap;
use crate::grouping::lemma_file_groups_ordered;
use crate::order::{group_order, text_order, Group};
use crate::paths::{directory_key, relative_prefix};
use crate::walk::{
    after_failure, after_listing, directory_groups, filed, initial_state, listed_records, next_of,
    WalkState,
};
use vstd::prelude::*;
use vstd::relations::*;

verus! {

/// A directory with all that lies below it.
pub enum DirTree {
    /// A directory that cannot be listed.
    Unreadable { path: Seq<char>, error: Seq<char> },
    /// A directory with the names of its files and with its subdirectories.
    Listed { path: Seq<char>, files: Seq<Seq<char>>, subdirectories: Seq<DirTree> },
}

/// The path of a tree's root.
pub open spec fn path_of(tree: DirTree) -> Seq<char> {
    match tree {
        DirTree::Unreadable { path, .. } => path,
        DirTree::Listed { path, .. } => path,
    }
}

/// The paths of the roots of a list of trees.
pub open spec fn paths_of(forest: Seq<DirTree>) -> Seq<Seq<char>> {
    forest.map_values(|tree: DirTree| path_of(tree))
}

/// The number of directories in a list of trees.
pub open spec fn forest_size(forest: Seq<DirTree>) -> nat
    decreases forest,
{
    if forest.len() == 0 {
        0
    } else {
        match forest[0] {
            DirTree::Unreadable { .. } => 1 + forest_size(forest.drop_first()),
            DirTree::Listed { subdirectories, .. } => 1 + forest_size(subdirectories)
                + forest_size(forest.drop_first()),
        }
    }
}

/// The directories of a list of trees in pre-order: each directory before
/// its subdirectories, and all of a tree before the next tree.
pub open spec fn preorder(forest: Seq<DirTree>) -> Seq<DirTree>
    decreases forest,
{
    if forest.len() == 0 {
        Seq::empty()
    } else {
        match forest[0] {
            DirTree::Unreadable { .. } => seq![forest[0]] + preorder(forest.drop_first()),
            DirTree::Listed { subdirectories, .. } => seq![forest[0]] + preorder(subdirectories)
                + preorder(forest.drop_first()),
        }
    }
}

/// What a walk comes to: the groups it found, or why it was given up.
pub open spec fn outcome_of(state: WalkState) -> Result<
    GroupMap,
    Seq<char>,
> {
    match state.failure {
        Some(message) => Err(message),
        None => Ok(state.found),
    }
}

/// What an outcome holds: the groups that were found, and nothing where
/// the walk was given up.
pub open spec fn found_in(
    outcome: Result<GroupMap, Seq<char>>,
) -> GroupMap {
    match outcome {
        Ok(found) => found,
        Err(_) => Map::empty(),
    }
}

/// What is found once the directories `nodes` are taken in, in their
/// order, on top of `found`. The first directory that cannot be listed
/// makes its error the outcome, and nothing of what was found is kept.
pub open spec fn file_all(
    root_key: Seq<char>,
    separator: char,
    found: GroupMap,
    nodes: Seq<DirTree>,
) -> Result<GroupMap, Seq<char>>
    decreases nodes.len(),
{
    if nodes.len() == 0 {
        Ok(found)
    } else {
        match nodes[0] {
            DirTree::Unreadable { error, .. } => Err(error),
            DirTree::Listed { path, files, .. } => file_all(
                root_key,
                separator,
                filed(root_key, separator, found, path, files),
                nodes.drop_first(),
            ),
        }
    }
}

/// The outcome of the walk over `tree`: every directory of the tree, in
/// pre-order, is taken in under its own key.
pub open spec fn walk_outcome(separator: char, tree: DirTree) -> Result<
    GroupMap,
    Seq<char>,
> {
    file_all(
        directory_key(path_of(tree), separator),
        separator,
        Map::empty(),
        preorder(seq![tree]),
    )
}

/// The size of a list of trees is the sum of the sizes of its parts.
pub proof fn lemma_forest_size_concat(first: Seq<DirTree>, second: Seq<DirTree>)
    ensures
        forest_size(first + second) == forest_size(first) + forest_size(second),
    decreases first.len(),
{
    if first.len() == 0 {
        assert(first + second =~= second);
    } else {
        assert((first + second)[0] == first[0]);
        assert((first + second).drop_first() =~= first.drop_first() + second);
        lemma_forest_size_concat(first.drop_first(), second);
    }
}

/// The pre-order of a list of trees is the pre-order of its parts, one
/// after the other.
pub proof fn lemma_preorder_concat(first: Seq<DirTree>, second: Seq<DirTree>)
    ensures
        preorder(first + second) == preorder(first) + preorder(second),
    decreases first.len(),
{
    if first.len() == 0 {
        assert(first + second =~= second);
        assert(preorder(first) + preorder(second) =~= preorder(second));
    } else {
        assert((first + second)[0] == first[0]);
        assert((first + second).drop_first() =~= first.drop_first() + second);
        lemma_preorder_concat(first.drop_first(), second);
        match first[0] {
            DirTree::Unreadable { .. } => {
                assert(preorder(first + second) =~= preorder(first) + preorder(second));
            },
            DirTree::Listed { subdirectories, .. } => {
                assert(preorder(first + second) =~= preorder(first) + preorder(second));
            },
        }
    }
}

/// The state in which a walk ends when the directories it has pending are
/// the roots of `forest`. Each time, the walker is handed what the first
/// tree's root holds; that tree's subdirectories then stand before the
/// other trees. The walk ends when nothing is pending or a directory
/// cannot be listed.
pub open spec fn run(state: WalkState, forest: Seq<DirTree>) -> WalkState
    decreases forest_size(forest),
{
    if forest.len() == 0 {
        state
    } else {
        match forest[0] {
            DirTree::Unreadable { error, .. } => after_failure(state, error),
            DirTree::Listed { files, subdirectories, .. } => {
                proof {
                    lemma_forest_size_concat(subdirectories, forest.drop_first());
                }
                run(
                    after_listing(state, files, paths_of(subdirectories)),
                    subdirectories + forest.drop_first(),
                )
            },
        }
    }
}

/// A walk takes in the directories that lie below its pending ones in
/// pre-order, and ends with nothing left to list.
pub proof fn lemma_run_is_preorder(state: WalkState, forest: Seq<DirTree>)
    requires
        state.failure is None,
        state.pending == paths_of(forest),
    ensures
        outcome_of(run(state, forest)) == file_all(
            state.root_key,
            state.separator,
            state.found,
            preorder(forest),
        ),
        next_of(run(state, forest)) is None,
    decreases forest_size(forest),
{
    if forest.len() > 0 {
        let rest = forest.drop_first();
        assert(state.pending[0] == path_of(forest[0]));
        match forest[0] {
            DirTree::Unreadable { path, error } => {
                assert(preorder(forest)[0] == forest[0]);
            },
            DirTree::Listed { path, files, subdirectories } => {
                let next = after_listing(state, files, paths_of(subdirectories));
                lemma_forest_size_concat(subdirectories, rest);
                lemma_preorder_concat(subdirectories, rest);
                assert(next.pending =~= paths_of(subdirectories + rest));
                lemma_run_is_preorder(next, subdirectories + rest);
                let nodes = preorder(forest);
                assert(nodes[0] == forest[0]);
                assert(nodes.drop_first() =~= preorder(subdirectories + rest));
            },
        }
    }
}

/// The walk over a tree, run one listing at a time from its initial state,
/// comes to the outcome of the walk over the tree.
pub proof fn lemma_walk_of_tree(separator: char, tree: DirTree)
    ensures
        outcome_of(run(initial_state(path_of(tree), separator, true), seq![tree])) == walk_outcome(
            separator,
            tree,
        ),
{
    let state = initial_state(path_of(tree), separator, true);
    assert(state.pending =~= paths_of(seq![tree]));
    lemma_run_is_preorder(state, seq![tree]);
}

/// The key under which a directory is filed.
pub open spec fn key_of(separator: char, node: DirTree) -> Seq<char> {
    directory_key(path_of(node), separator)
}

/// The file groups of a directory in a walk whose root has the key
/// `root_key`. A directory that cannot be listed has none.
pub open spec fn groups_of(root_key: Seq<char>, separator: char, node: DirTree) -> Seq<Group> {
    match node {
        DirTree::Unreadable { .. } => Seq::empty(),
        DirTree::Listed { path, files, .. } => directory_groups(
            root_key,
            directory_key(path, separator),
            files,
        ),
    }
}

/// One of `nodes` has the key `key` and has file groups.
pub open spec fn has_groups_under(
    root_key: Seq<char>,
    separator: char,
    nodes: Seq<DirTree>,
    key: Seq<char>,
) -> bool {
    exists|index: int|
        0 <= index < nodes.len() && key_of(separator, #[trigger] nodes[index]) == key && groups_of(
            root_key,
            separator,
            nodes[index],
        ).len() > 0
}

/// All of `nodes` can be listed.
pub open spec fn all_listed(nodes: Seq<DirTree>) -> bool {
    forall|index: int| 0 <= index < nodes.len() ==> #[trigger] nodes[index] is Listed
}

/// No two of `nodes` have the same key.
pub open spec fn keys_differ(separator: char, nodes: Seq<DirTree>) -> bool {
    forall|i: int, j: int|
        0 <= i < j < nodes.len() ==> key_of(separator, #[trigger] nodes[i]) != key_of(
            separator,
            #[trigger] nodes[j],
        )
}

/// Directories are filed apart: where all of `nodes` can be listed and no
/// two have the same key, each directory that has file groups is filed
/// under its own key with its own groups, whatever lies above or below
/// it; a directory without groups adds no key; and what was filed before
/// under other keys stays.
pub proof fn lemma_directories_are_filed_apart(
    root_key: Seq<char>,
    separator: char,
    found: GroupMap,
    nodes: Seq<DirTree>,
)
    requires
        all_listed(nodes),
        keys_differ(separator, nodes),
    ensures
        file_all(root_key, separator, found, nodes) is Ok,
        forall|index: int|
            0 <= index < nodes.len() && groups_of(root_key, separator, #[trigger] nodes[index]).len()
                > 0 ==> {
                let map = found_in(file_all(root_key, separator, found, nodes));
                let key = key_of(separator, nodes[index]);
                map.contains_key(key) && map[key] == groups_of(root_key, separator, nodes[index])
            },
        forall|key: Seq<char>|
            #![trigger found_in(file_all(root_key, separator, found, nodes)).contains_key(key)]
            found_in(file_all(root_key, separator, found, nodes)).contains_key(key) <==> (
            found.contains_key(key) || has_groups_under(root_key, separator, nodes, key)),
        forall|key: Seq<char>|
            #![trigger found_in(file_all(root_key, separator, found, nodes))[key]]
            found.contains_key(key) && !has_groups_under(root_key, separator, nodes, key)
                ==> found_in(file_all(root_key, separator, found, nodes))[key] == found[key],
    decreases nodes.len(),
{
    if nodes.len() > 0 {
        let first = nodes[0];
        let rest = nodes.drop_first();
        let first_key = key_of(separator, first);
        let first_groups = groups_of(root_key, separator, first);
        match first {
            DirTree::Unreadable { .. } => {},
            DirTree::Listed { path, files, subdirectories } => {
                let next = filed(root_key, separator, found, path, files);
                assert(all_listed(rest)) by {
                    assert forall|index: int| 0 <= index < rest.len() implies #[trigger] rest[index] is Listed by {
                        assert(nodes[index + 1] is Listed);
                    }
                }
                assert(keys_differ(separator, rest)) by {
                    assert forall|i: int, j: int| 0 <= i < j < rest.len() implies key_of(
                        separator,
                        #[trigger] rest[i],
                    ) != key_of(separator, #[trigger] rest[j]) by {
                        assert(key_of(separator, nodes[i + 1]) != key_of(separator, nodes[j + 1]));
                    }
                }
                lemma_directories_are_filed_apart(root_key, separator, next, rest);
                let map = found_in(file_all(root_key, separator, found, nodes));
                assert(map == found_in(file_all(root_key, separator, next, rest)));
                assert(!has_groups_under(root_key, separator, rest, first_key)) by {
                    if has_groups_under(root_key, separator, rest, first_key) {
                        let at = choose|at: int|
                            0 <= at < rest.len() && key_of(separator, #[trigger] rest[at])
                                == first_key && groups_of(root_key, separator, rest[at]).len() > 0;
                        assert(key_of(separator, nodes[0]) != key_of(separator, nodes[at + 1]));
                    }
                }
                assert forall|key: Seq<char>|
                    has_groups_under(root_key, separator, nodes, key) <==> (key == first_key
                        && first_groups.len() > 0) || has_groups_under(
                        root_key,
                        separator,
                        rest,
                        key,
                    ) by {
                    if has_groups_under(root_key, separator, nodes, key) {
                        let at = choose|at: int|
                            0 <= at < nodes.len() && key_of(separator, #[trigger] nodes[at]) == key
                                && groups_of(root_key, separator, nodes[at]).len() > 0;
                        if at > 0 {
                            assert(rest[at - 1] == nodes[at]);
                        }
                    }
                    if has_groups_under(root_key, separator, rest, key) {
                        let at = choose|at: int|
                            0 <= at < rest.len() && key_of(separator, #[trigger] rest[at]) == key
                                && groups_of(root_key, separator, rest[at]).len() > 0;
                        assert(nodes[at + 1] == rest[at]);
                    }
                    if key == first_key && first_groups.len() > 0 {
                        assert(key_of(separator, nodes[0]) == key);
                    }
                }
                assert forall|index: int|
                    0 <= index < nodes.len() && groups_of(
                        root_key,
                        separator,
                        #[trigger] nodes[index],
                    ).len() > 0 implies map.contains_key(key_of(separator, nodes[index]))
                    && map[key_of(separator, nodes[index])] == groups_of(
                    root_key,
                    separator,
                    nodes[index],
                ) by {
                    if index > 0 {
                        assert(rest[index - 1] == nodes[index]);
                    } else {
                        assert(next.contains_key(first_key));
                        assert(map.contains_key(first_key));
                        assert(map[first_key] == next[first_key]);
                    }
                }
                assert forall|key: Seq<char>|
                    found.contains_key(key) && !has_groups_under(
                        root_key,
                        separator,
                        nodes,
                        key,
                    ) implies #[trigger] map[key] == found[key] by {
                    assert(next.contains_key(key));
                    assert(map.contains_key(key));
                    assert(map[key] == next[key]);
                }
            },
        }
    }
}

/// The walk over a tree all of whose directories can be listed, no two
/// with the same key, files exactly the directories that have file groups,
/// each under its own key with its own groups.
pub proof fn lemma_walk_files_every_directory(separator: char, tree: DirTree)
    requires
        all_listed(preorder(seq![tree])),
        keys_differ(separator, preorder(seq![tree])),
    ensures
        walk_outcome(separator, tree) is Ok,
        forall|key: Seq<char>|
            #![trigger found_in(walk_outcome(separator, tree)).contains_key(key)]
            found_in(walk_outcome(separator, tree)).contains_key(key) <==> has_groups_under(
                key_of(separator, tree),
                separator,
                preorder(seq![tree]),
                key,
            ),
        forall|index: int|
            0 <= index < preorder(seq![tree]).len() && groups_of(
                key_of(separator, tree),
                separator,
                #[trigger] preorder(seq![tree])[index],
            ).len() > 0 ==> found_in(walk_outcome(separator, tree))[key_of(
                separator,
                preorder(seq![tree])[index],
            )] == groups_of(key_of(separator, tree), separator, preorder(seq![tree])[index]),
{
    lemma_directories_are_filed_apart(
        key_of(separator, tree),
        separator,
        Map::empty(),
        preorder(seq![tree]),
    );
}

/// Walking a tree twice gives the same outcome: whatever two walks over
/// one tree end in, they come to the outcome of the walk over that tree.
pub proof fn lemma_walk_is_repeatable(
    separator: char,
    tree: DirTree,
    first: WalkState,
    second: WalkState,
)
    requires
        first == run(initial_state(path_of(tree), separator, true), seq![tree]),
        second == run(initial_state(path_of(tree), separator, true), seq![tree]),
    ensures
        outcome_of(first) == outcome_of(second),
        outcome_of(first) == walk_outcome(separator, tree),
{
    lemma_walk_of_tree(separator, tree);
}

/// What is filed is sound when every key holds at least one group, each
/// group holds at least a base name and an extension, and the groups under
/// a key are in ascending order, their base names with them.
pub open spec fn is_sound(found: GroupMap) -> bool {
    forall|key: Seq<char>| #[trigger]
        found.contains_key(key) ==> {
            let groups = found[key];
            &&& groups.len() > 0
            &&& sorted_by(groups, group_order())
            &&& forall|at: int| 0 <= at < groups.len() ==> (#[trigger] groups[at]).len() >= 2
            &&& forall|i: int, j: int|
                0 <= i < j < groups.len() ==> text_order()(
                    #[trigger] groups[i][0],
                    #[trigger] groups[j][0],
                )
        }
}

/// Taking in directories keeps what is filed sound.
pub proof fn lemma_filing_is_sound(
    root_key: Seq<char>,
    separator: char,
    found: GroupMap,
    nodes: Seq<DirTree>,
)
    requires
        is_sound(found),
    ensures
        is_sound(found_in(file_all(root_key, separator, found, nodes))),
    decreases nodes.len(),
{
    if nodes.len() > 0 {
        match nodes[0] {
            DirTree::Unreadable { .. } => {},
            DirTree::Listed { path, files, .. } => {
                let key = directory_key(path, separator);
                let next = filed(root_key, separator, found, path, files);
                lemma_file_groups_ordered(listed_records(relative_prefix(root_key, key), files));
                assert(is_sound(next)) by {
                    assert forall|other: Seq<char>| #[trigger] next.contains_key(other) implies {
                        let groups = next[other];
                        &&& groups.len() > 0
                        &&& sorted_by(groups, group_order())
                        &&& forall|at: int|
                            0 <= at < groups.len() ==> (#[trigger] groups[at]).len() >= 2
                        &&& forall|i: int, j: int|
                            0 <= i < j < groups.len() ==> text_order()(
                                #[trigger] groups[i][0],
                                #[trigger] groups[j][0],
                            )
                    } by {
                        if other != key || directory_groups(root_key, key, files).len() == 0 {
                            assert(found.contains_key(other));
                        }
                    }
                }
                lemma_filing_is_sound(root_key, separator, next, nodes.drop_first());
            },
        }
    }
}

/// Whatever the tree, what a walk over it files is sound: a directory is
/// filed only with groups of its own, and these are in ascending order.
pub proof fn lemma_walk_is_sound(separator: char, tree: DirTree)
    ensures
        is_sound(found_in(walk_outcome(separator, tree))),
{
    lemma_filing_is_sound(key_of(separator, tree), separator, Map::empty(), preorder(seq![tree]));
}

} // verus!
