//! The walk over a directory tree that was read beforehand.

use crate::directory_map::{DirectoryGroupMap, GroupMap};
use crate::tree::{
    forest_size, lemma_forest_size_concat, lemma_walk_of_tree, outcome_of, path_of, paths_of, run,
    walk_outcome, DirTree,
};
use crate::walk::{initial_state, Walker};
use vstd::prelude::*;

verus! {

/// A directory as it was read, with all that lies below it.
pub enum Directory {
    /// A directory that could not be listed, and why.
    Unreadable { path: String, error: String },
    /// A directory with the names of its files and with its subdirectories.
    Listed { path: String, files: Vec<String>, subdirectories: Vec<Directory> },
}

/// The trees of a list of directories.
pub open spec fn forest_of(directories: Seq<Directory>) -> Seq<DirTree>
    decreases directories,
{
    if directories.len() == 0 {
        Seq::empty()
    } else {
        seq![directories[0].tree()] + forest_of(directories.drop_first())
    }
}

impl Directory {
    /// The tree that the directory holds.
    pub open spec fn tree(self) -> DirTree
        decreases self,
    {
        match self {
            Directory::Unreadable { path, error } => DirTree::Unreadable {
                path: path@,
                error: error@,
            },
            Directory::Listed { path, files, subdirectories } => DirTree::Listed {
                path: path@,
                files: files.deep_view(),
                subdirectories: forest_of(subdirectories@),
            },
        }
    }

    /// The directory's path.
    pub fn path(&self) -> (path: &String)
        ensures
            path@ == path_of(self.tree()),
    {
        match self {
            Directory::Unreadable { path, .. } => path,
            Directory::Listed { path, .. } => path,
        }
    }
}

/// The trees of a list of directories are the trees of its directories, in
/// their order.
pub proof fn lemma_forest_of(directories: Seq<Directory>)
    ensures
        forest_of(directories).len() == directories.len(),
        forall|index: int|
            0 <= index < directories.len() ==> forest_of(directories)[index]
                == (#[trigger] directories[index]).tree(),
    decreases directories.len(),
{
    if directories.len() > 0 {
        lemma_forest_of(directories.drop_first());
        assert forall|index: int| 0 <= index < directories.len() implies forest_of(
            directories,
        )[index] == (#[trigger] directories[index]).tree() by {
            if index > 0 {
                assert(directories.drop_first()[index - 1] == directories[index]);
            }
        }
    }
}

/// The trees of the directories on a stack, the top one first.
pub open spec fn stacked(stack: Seq<&Directory>) -> Seq<DirTree> {
    Seq::new(stack.len(), |index: int| stack[stack.len() - 1 - index].tree())
}

/// The paths of a list of directories.
fn subdirectory_paths(subdirectories: &Vec<Directory>) -> (paths: Vec<String>)
    ensures
        paths.deep_view() == paths_of(forest_of(subdirectories@)),
{
    let mut paths: Vec<String> = Vec::new();
    let mut index: usize = 0;
    proof {
        lemma_forest_of(subdirectories@);
    }
    while index < subdirectories.len()
        invariant
            index <= subdirectories.len(),
            paths.len() == index,
            forall|at: int|
                0 <= at < index ==> (#[trigger] paths@[at])@ == path_of(subdirectories@[at].tree()),
        decreases subdirectories.len() - index,
    {
        paths.push(subdirectories[index].path().clone());
        index += 1;
    }
    assert(paths.deep_view() =~= paths_of(forest_of(subdirectories@)));
    paths
}

/// The outcome of the walk over the tree that `root` holds, on a platform
/// whose paths are written with `separator`: the file groups of each of
/// its directories that has any, or the error of the first directory, in
/// pre-order, that could not be listed.
pub fn walk(root: &Directory, separator: char) -> (outcome: Result<DirectoryGroupMap, String>)
    ensures
        match outcome {
            Ok(found) => walk_outcome(separator, root.tree()) == Ok::<GroupMap, Seq<char>>(found@),
            Err(message) => walk_outcome(separator, root.tree()) == Err::<GroupMap, Seq<char>>(
                message@,
            ),
        },
{
    let ghost goal = run(
        initial_state(path_of(root.tree()), separator, true),
        seq![root.tree()],
    );
    proof {
        lemma_walk_of_tree(separator, root.tree());
    }
    let mut walker = Walker::new(root.path().as_str(), separator, true);
    let mut stack: Vec<&Directory> = Vec::new();
    stack.push(root);
    assert(stacked(stack@) =~= seq![root.tree()]);
    assert(walker@.pending =~= paths_of(stacked(stack@)));
    while stack.len() > 0
        invariant
            walker@.failure is None,
            walker@.pending == paths_of(stacked(stack@)),
            run(walker@, stacked(stack@)) == goal,
            outcome_of(goal) == walk_outcome(separator, root.tree()),
        decreases forest_size(stacked(stack@)),
    {
        let ghost forest = stacked(stack@);
        let ghost before = walker@;
        let directory = match stack.pop() {
            Some(directory) => directory,
            None => root,
        };
        let ghost rest = stacked(stack@);
        assert(rest =~= forest.drop_first());
        assert(forest[0] == directory.tree());
        assert(before.pending[0] == path_of(forest[0]));
        match directory {
            Directory::Unreadable { error, .. } => {
                walker.failed(error.clone());
                assert(walker@ == run(before, forest));
                return walker.finish();
            },
            Directory::Listed { files, subdirectories, .. } => {
                let paths = subdirectory_paths(subdirectories);
                walker.listed(files, &paths);
                let ghost children = forest_of(subdirectories@);
                proof {
                    lemma_forest_of(subdirectories@);
                    lemma_forest_size_concat(children, rest);
                }
                let mut index: usize = subdirectories.len();
                assert(stacked(stack@) =~= children.skip(index as int) + rest);
                while index > 0
                    invariant
                        index <= subdirectories.len(),
                        children == forest_of(subdirectories@),
                        children.len() == subdirectories.len(),
                        forall|at: int|
                            0 <= at < subdirectories.len() ==> children[at]
                                == (#[trigger] subdirectories@[at]).tree(),
                        stacked(stack@) == children.skip(index as int) + rest,
                    decreases index,
                {
                    index -= 1;
                    let ghost lower = stacked(stack@);
                    stack.push(&subdirectories[index]);
                    assert(stacked(stack@) =~= seq![children[index as int]] + lower);
                    assert(stacked(stack@) =~= children.skip(index as int) + rest);
                }
                assert(children.skip(0) =~= children);
                assert(walker@.pending =~= paths_of(children + rest));
            },
        }
    }
    assert(stacked(stack@) =~= Seq::<DirTree>::empty());
    walker.finish()
}

} // verus!
