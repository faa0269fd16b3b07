//! What a directory tree takes on disk, and how the walk that takes its size comes to it.

use vstd::prelude::*;

use crate::junk::{FileStat, StatEntry};
use crate::junk;
use crate::paths;

verus! {

/// A directory tree as it is on disk.
pub enum DiskTree {
    File(FileStat),
    Dir(Seq<DiskTree>),
    Other,
}

/// What a tree takes on disk.
pub open spec fn tree_usage(tree: DiskTree) -> nat
    decreases tree,
{
    match tree {
        DiskTree::File(stat) => stat.usage(),
        DiskTree::Dir(children) => forest_usage(children),
        DiskTree::Other => 0,
    }
}

pub open spec fn forest_usage(trees: Seq<DiskTree>) -> nat
    decreases trees,
{
    if trees.len() == 0 {
        0
    } else {
        forest_usage(trees.drop_last()) + tree_usage(trees.last())
    }
}

/// The entry is what the directory lists for `tree`.
pub open spec fn shows(e: StatEntry, tree: DiskTree) -> bool {
    match tree {
        DiskTree::File(stat) => stat.is_file && e.stat == Some(stat),
        DiskTree::Dir(_) => junk::is_subdir(e),
        DiskTree::Other => e.stat matches Some(stat) ==> !stat.is_file && !stat.is_dir,
    }
}

/// `tree` is the directory tree at `path`, where `disk` tells what each directory lists. A
/// directory that cannot be read lists nothing.
pub open spec fn is_tree_at(
    disk: spec_fn(Seq<u8>) -> Seq<StatEntry>,
    path: Seq<u8>,
    tree: DiskTree,
) -> bool
    decreases tree,
{
    match tree {
        DiskTree::Dir(children) => {
            &&& children.len() == disk(path).len()
            &&& forall|i: int|
                0 <= i < children.len() ==> {
                    &&& shows(disk(path)[i], #[trigger] children[i])
                    &&& children[i] is Dir ==> is_tree_at(
                        disk,
                        paths::joined(path, disk(path)[i].name@),
                        children[i],
                    )
                }
        },
        _ => false,
    }
}

/// The directories among `trees`.
spec fn dirs_of(trees: Seq<DiskTree>) -> Seq<DiskTree> {
    trees.filter(|t: DiskTree| t is Dir)
}

proof fn lemma_forest_concat(a: Seq<DiskTree>, b: Seq<DiskTree>)
    ensures
        forest_usage(a + b) == forest_usage(a) + forest_usage(b),
    decreases b.len(),
{
    if b.len() == 0 {
        assert(a + b =~= a);
    } else {
        assert((a + b).drop_last() =~= a + b.drop_last());
        lemma_forest_concat(a, b.drop_last());
    }
}

/// `trees` are the directory trees at `dirs`.
spec fn are_trees_at(
    disk: spec_fn(Seq<u8>) -> Seq<StatEntry>,
    dirs: Seq<Seq<u8>>,
    trees: Seq<DiskTree>,
) -> bool {
    &&& dirs.len() == trees.len()
    &&& forall|i: int| 0 <= i < dirs.len() ==> is_tree_at(disk, dirs[i], #[trigger] trees[i])
}

/// The first `n` entries of a directory fall into files, which are counted, and directories,
/// which are to be listed.
proof fn lemma_listing_splits(
    disk: spec_fn(Seq<u8>) -> Seq<StatEntry>,
    dir: Seq<u8>,
    children: Seq<DiskTree>,
    n: int,
)
    requires
        0 <= n <= children.len(),
        is_tree_at(disk, dir, DiskTree::Dir(children)),
    ensures
        junk::listing_usage(disk(dir).take(n)) + forest_usage(dirs_of(children.take(n)))
            == forest_usage(children.take(n)),
        are_trees_at(disk, junk::subdirs(dir, disk(dir).take(n)), dirs_of(children.take(n))),
    decreases n,
{
    reveal(Seq::filter);
    reveal_with_fuel(tree_usage, 2);
    reveal_with_fuel(forest_usage, 2);
    reveal_with_fuel(is_tree_at, 2);
    if n > 0 {
        lemma_listing_splits(disk, dir, children, n - 1);
        let entries = disk(dir).take(n);
        let trees = children.take(n);
        assert(entries.drop_last() =~= disk(dir).take(n - 1));
        assert(trees.drop_last() =~= children.take(n - 1));
        assert(shows(disk(dir)[n - 1], children[n - 1]));
        assert(entries.last() == disk(dir)[n - 1]);
        assert(trees.last() == children[n - 1]);
        let kept = dirs_of(trees.drop_last());
        if trees.last() is Dir {
            assert(dirs_of(trees) =~= kept.push(trees.last()));
            assert(kept.push(trees.last()).drop_last() =~= kept);
        } else {
            assert(dirs_of(trees) =~= kept);
        }
    }
}

/// One directory is listed: from the bytes found and the directories waiting before, the next
/// one last, to those after.
pub open spec fn is_listing_step(
    disk: spec_fn(Seq<u8>) -> Seq<StatEntry>,
    before: (nat, Seq<Seq<u8>>),
    after: (nat, Seq<Seq<u8>>),
) -> bool {
    let dir = before.1.last();
    &&& before.1.len() > 0
    &&& after == junk::after_listing((before.0, before.1.drop_last()), dir, disk(dir))
}

/// A walk that lists one directory after the other, from `root` on, until none waits.
pub open spec fn is_size_walk(
    disk: spec_fn(Seq<u8>) -> Seq<StatEntry>,
    root: Seq<u8>,
    states: Seq<(nat, Seq<Seq<u8>>)>,
) -> bool {
    &&& states.len() > 0
    &&& states[0] == junk::before_listing(root)
    &&& forall|k: int|
        0 < k < states.len() ==> is_listing_step(disk, states[k - 1], #[trigger] states[k])
    &&& states.last().1.len() == 0
}

/// What has been found and what the waiting directories hold add up to the size of the tree, in
/// every state.
proof fn lemma_states_keep_the_size(
    disk: spec_fn(Seq<u8>) -> Seq<StatEntry>,
    root: Seq<u8>,
    tree: DiskTree,
    states: Seq<(nat, Seq<Seq<u8>>)>,
    k: int,
) -> (trees: Seq<DiskTree>)
    requires
        0 <= k < states.len(),
        is_tree_at(disk, root, tree),
        is_size_walk(disk, root, states),
    ensures
        are_trees_at(disk, states[k].1, trees),
        states[k].0 + forest_usage(trees) == tree_usage(tree),
    decreases k,
{
    reveal_with_fuel(forest_usage, 2);
    reveal_with_fuel(tree_usage, 2);
    if k == 0 {
        let trees = seq![tree];
        assert(trees.drop_last() =~= seq![]);
        trees
    } else {
        let before = lemma_states_keep_the_size(disk, root, tree, states, k - 1);
        assert(is_listing_step(disk, states[k - 1], states[k]));
        let dir = states[k - 1].1.last();
        let children = before.last()->Dir_0;
        assert(is_tree_at(disk, dir, before.last()));
        assert(disk(dir).take(children.len() as int) =~= disk(dir));
        assert(children.take(children.len() as int) =~= children);
        lemma_listing_splits(disk, dir, children, children.len() as int);
        let trees = before.drop_last() + dirs_of(children);
        lemma_forest_concat(before.drop_last(), dirs_of(children));
        assert(forest_usage(before) == forest_usage(before.drop_last()) + forest_usage(children));
        trees
    }
}

/// The size that is found once no directory waits any more is what the tree takes on disk.
pub proof fn finished_walk_gives_the_usage(
    disk: spec_fn(Seq<u8>) -> Seq<StatEntry>,
    root: Seq<u8>,
    tree: DiskTree,
    states: Seq<(nat, Seq<Seq<u8>>)>,
)
    requires
        is_tree_at(disk, root, tree),
        is_size_walk(disk, root, states),
    ensures
        states.last().0 == tree_usage(tree),
{
    let trees = lemma_states_keep_the_size(disk, root, tree, states, states.len() - 1);
    assert(forest_usage(trees) == 0);
}

/// Two trees have the same shape, and their files take the same numbers of blocks; how long
/// the files are is left open.
pub open spec fn same_blocks(a: DiskTree, b: DiskTree) -> bool
    decreases a,
{
    match (a, b) {
        (DiskTree::File(x), DiskTree::File(y)) => x.blocks is Some && x.blocks == y.blocks,
        (DiskTree::Dir(xs), DiskTree::Dir(ys)) => {
            &&& xs.len() == ys.len()
            &&& forall|i: int| 0 <= i < xs.len() ==> same_blocks(#[trigger] xs[i], ys[i])
        },
        (DiskTree::Other, DiskTree::Other) => true,
        _ => false,
    }
}

proof fn lemma_same_usage(a: DiskTree, b: DiskTree)
    requires
        same_blocks(a, b),
    ensures
        tree_usage(a) == tree_usage(b),
    decreases a, 0nat,
{
    if let DiskTree::Dir(xs) = a {
        lemma_same_forest(xs, b->Dir_0, xs.len() as int);
        assert(xs.take(xs.len() as int) =~= xs);
        assert(b->Dir_0.take(xs.len() as int) =~= b->Dir_0);
    }
}

proof fn lemma_same_forest(xs: Seq<DiskTree>, ys: Seq<DiskTree>, n: int)
    requires
        0 <= n <= xs.len() == ys.len(),
        forall|i: int| 0 <= i < xs.len() ==> same_blocks(#[trigger] xs[i], ys[i]),
    ensures
        forest_usage(xs.take(n)) == forest_usage(ys.take(n)),
    decreases xs, n,
{
    reveal_with_fuel(forest_usage, 2);
    if n > 0 {
        lemma_same_forest(xs, ys, n - 1);
        assert(xs.take(n).drop_last() =~= xs.take(n - 1));
        assert(ys.take(n).drop_last() =~= ys.take(n - 1));
        lemma_same_usage(xs[n - 1], ys[n - 1]);
    }
}

/// Only the blocks count: walks over two trees that differ in the lengths of their files alone
/// find the same size. A sparse file takes no more than what is allocated for it.
pub proof fn only_blocks_count(
    disks: (spec_fn(Seq<u8>) -> Seq<StatEntry>, spec_fn(Seq<u8>) -> Seq<StatEntry>),
    roots: (Seq<u8>, Seq<u8>),
    trees: (DiskTree, DiskTree),
    walks: (Seq<(nat, Seq<Seq<u8>>)>, Seq<(nat, Seq<Seq<u8>>)>),
)
    requires
        is_tree_at(disks.0, roots.0, trees.0),
        is_tree_at(disks.1, roots.1, trees.1),
        same_blocks(trees.0, trees.1),
        is_size_walk(disks.0, roots.0, walks.0),
        is_size_walk(disks.1, roots.1, walks.1),
    ensures
        walks.0.last().0 == walks.1.last().0,
{
    finished_walk_gives_the_usage(disks.0, roots.0, trees.0, walks.0);
    finished_walk_gives_the_usage(disks.1, roots.1, trees.1, walks.1);
    lemma_same_usage(trees.0, trees.1);
}

} // verus!
