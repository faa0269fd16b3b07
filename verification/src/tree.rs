//! The tree view: which entries are shown, and in what order.

use std::collections::{HashMap, HashSet};
use vstd::prelude::*;

use crate::order::{arrange, arrange_all, Rank};
use crate::paths::{component_count, lead, leads_to, place_paths, Component, Lead, Place};
use crate::scan::{ByPath, TreeEntry};
use crate::walker::EntryKind;
use crate::order;
use crate::paths;

verus! {

/// The biggest entries first.
pub struct BySize;

impl Rank<TreeEntry> for BySize {
    open spec fn in_order(a: TreeEntry, b: TreeEntry) -> bool {
        a.size >= b.size
    }

    proof fn lemma_in_order(a: TreeEntry, b: TreeEntry, c: TreeEntry) {
    }

    fn need_not_follow(a: &TreeEntry, b: &TreeEntry) -> (r: bool) {
        a.size >= b.size
    }
}

/// All entries, the biggest first.
pub fn by_size(tree: &[TreeEntry]) -> (order: Vec<usize>)
    ensures
        order::is_arranged::<TreeEntry, BySize>(tree@, order::positions(tree@.len()), order@),
{
    arrange_all::<TreeEntry, BySize>(tree)
}

// ── Children ────────────────────────────────────────────────────────────

/// The components of the path of an entry.
pub open spec fn path_of(tree: Seq<TreeEntry>, i: int) -> Seq<Component> {
    paths::components(tree[i].path@)
}

/// No entry comes before one that its path belongs behind.
pub open spec fn sorted_by_path(tree: Seq<TreeEntry>) -> bool {
    forall|i: int, j: int|
        0 <= i < j < tree.len() ==> !paths::path_before(
            #[trigger] path_of(tree, j),
            #[trigger] path_of(tree, i),
        )
}

/// Sorting by path gives a tree that is sorted by path.
pub proof fn sorting_gives_a_sorted_tree(entries: Seq<TreeEntry>, sorted: Seq<TreeEntry>)
    requires
        entries.len() <= usize::MAX,
        order::is_sorted_from::<TreeEntry, ByPath>(entries, sorted),
    ensures
        sorted_by_path(sorted),
{
    let order = choose|order: Seq<usize>| #[trigger]
        order::is_arranged::<TreeEntry, ByPath>(
            entries,
            order::positions(entries.len()),
            order,
        ) && order::is_permuted(entries, order, sorted);
    order::lemma_arranged::<TreeEntry, ByPath>(entries, order);
    assert forall|i: int, j: int| 0 <= i < j < sorted.len() implies !paths::path_before(
        #[trigger] path_of(sorted, j),
        #[trigger] path_of(sorted, i),
    ) by {
        assert(order::goes_first::<TreeEntry, ByPath>(entries, order[i], order[j]));
        assert(sorted[i] == entries[order[i] as int] && sorted[j] == entries[order[j] as int]);
    }
}

/// Whether a tree is sorted by path.
pub fn is_sorted_by_path(tree: &[TreeEntry]) -> (sorted: bool)
    ensures
        sorted == sorted_by_path(tree@),
{
    let mut i: usize = 1;
    while i < tree.len()
        invariant
            1 <= i,
            i <= tree@.len() || tree@.len() == 0,
            forall|a: int, b: int|
                0 <= a < b < i && b < tree@.len() ==> !paths::path_before(
                    #[trigger] path_of(tree@, b),
                    #[trigger] path_of(tree@, a),
                ),
        decreases tree@.len() - i,
    {
        let place = place_paths(tree[i - 1].path.as_slice(), tree[i].path.as_slice());
        let ghost x = path_of(tree@, i - 1);
        let ghost y = path_of(tree@, i as int);
        proof {
            paths::path_order_is_total(x, y);
        }
        match place {
            Place::After => {
                return false;
            },
            _ => {},
        }
        proof {
            assert forall|a: int, b: int|
                0 <= a < b < i + 1 && b < tree@.len() implies !paths::path_before(
                #[trigger] path_of(tree@, b),
                #[trigger] path_of(tree@, a),
            ) by {
                if b == i && a < i - 1 {
                    let z = path_of(tree@, a);
                    paths::path_order_is_total(z, x);
                    if paths::path_before(y, z) {
                        if z == x {
                        } else {
                            paths::path_order_is_transitive(y, z, x);
                        }
                    }
                }
            }
        }
        i = i + 1;
    }
    true
}

/// Entry `j` is the directory that holds entry `i`.
pub open spec fn holds(tree: Seq<TreeEntry>, j: int, i: int) -> bool {
    &&& 0 <= j < tree.len()
    &&& 0 <= i < tree.len()
    &&& tree[j].kind is Dir
    &&& paths::parent_of(path_of(tree, i)) == Some(path_of(tree, j))
}

/// `list` holds the children of entry `j`, the biggest first.
pub open spec fn lists_children(tree: Seq<TreeEntry>, j: int, list: Seq<usize>) -> bool {
    &&& forall|i: usize| #[trigger] list.contains(i) <==> holds(tree, j, i as int)
    &&& forall|a: int, b: int|
        0 <= a < b < list.len() ==> order::goes_first::<TreeEntry, BySize>(
            tree,
            #[trigger] list[a],
            #[trigger] list[b],
        )
}

/// The children of entry `j`; a directory without any, and an entry that is none, is not in the
/// map.
pub open spec fn list_of(children: Map<usize, Vec<usize>>, j: int) -> Seq<usize> {
    if 0 <= j <= usize::MAX && children.contains_key(j as usize) {
        children[j as usize]@
    } else {
        seq![]
    }
}

/// The map leads from each directory that holds something to its children.
pub open spec fn maps_children(tree: Seq<TreeEntry>, children: Map<usize, Vec<usize>>) -> bool {
    &&& forall|j: int|
        0 <= j < tree.len() ==> lists_children(tree, j, #[trigger] list_of(children, j))
    &&& forall|j: usize| #[trigger]
        children.contains_key(j) ==> j < tree.len() && children[j]@.len() > 0
}

/// Where no two entries have the same path, no entry is the child of two.
pub proof fn parent_is_unique(tree: Seq<TreeEntry>, j: int, k: int, i: int)
    requires
        forall|a: int, b: int|
            0 <= a < b < tree.len() ==> #[trigger] path_of(tree, a) != #[trigger] path_of(tree, b),
        holds(tree, j, i),
        holds(tree, k, i),
    ensures
        j == k,
{
    assert(path_of(tree, j) == path_of(tree, k));
}

/// A directory stands before what it holds.
proof fn lemma_holds_after(tree: Seq<TreeEntry>, j: int, i: int)
    requires
        sorted_by_path(tree),
        holds(tree, j, i),
    ensures
        j < i,
        path_of(tree, j).is_prefix_of(path_of(tree, i)),
{
    let dir = path_of(tree, j);
    let c = path_of(tree, i);
    paths::parent_is_one_component_above(tree[i].path@, dir);
    paths::ancestor_comes_first(dir, c);
    paths::path_order_is_total(dir, c);
}

/// The directories before entry `i` that its predecessor lies in are on the stack, each in the
/// one before it.
spec fn is_open_stack(tree: Seq<TreeEntry>, stack: Seq<usize>, i: int) -> bool {
    &&& forall|a: int|
        0 <= a < stack.len() ==> #[trigger] stack[a] < i && tree[stack[a] as int].kind is Dir
    &&& forall|a: int, b: int| 0 <= a < b < stack.len() ==> stack[a] < stack[b]
    &&& forall|a: int, b: int|
        0 <= a < b < stack.len() ==> path_of(tree, #[trigger] stack[a] as int).is_prefix_of(
            path_of(tree, #[trigger] stack[b] as int),
        )
    &&& forall|j: int|
        0 <= j < i && tree[j].kind is Dir && (#[trigger] path_of(tree, j)).is_prefix_of(
            path_of(tree, i - 1),
        ) ==> stack.contains(j as usize)
}

/// Before entry `i` the children met so far are listed.
spec fn lists_so_far(tree: Seq<TreeEntry>, found: Seq<Vec<usize>>, i: int) -> bool {
    &&& forall|j: int| 0 <= j < found.len() ==> order::increasing((#[trigger] found[j])@)
    &&& forall|j: int, c: usize|
        0 <= j < found.len() ==> (#[trigger] found[j]@.contains(c) <==> c < i && holds(
            tree,
            j,
            c as int,
        ))
}

proof fn lemma_prefix_transitive(a: Seq<Component>, b: Seq<Component>, c: Seq<Component>)
    requires
        a.is_prefix_of(b),
        b.is_prefix_of(c),
    ensures
        a.is_prefix_of(c),
{
    assert forall|i: int| 0 <= i < b.len() implies #[trigger] b[i] == c[i] by {
        assert(c.subrange(0, b.len() as int)[i] == c[i]);
    }
    assert(a =~= c.subrange(0, a.len() as int));
}

/// Entry `i` lies in all directories on the stack, and these are all before it that it lies in.
spec fn is_path_stack(tree: Seq<TreeEntry>, stack: Seq<usize>, i: int) -> bool {
    &&& forall|a: int|
        0 <= a < stack.len() ==> (#[trigger] stack[a]) < i && tree[stack[a] as int].kind is Dir
            && path_of(tree, stack[a] as int).is_prefix_of(path_of(tree, i))
    &&& forall|a: int, b: int| 0 <= a < b < stack.len() ==> stack[a] < stack[b]
    &&& forall|a: int, b: int|
        0 <= a < b < stack.len() ==> path_of(tree, #[trigger] stack[a] as int).is_prefix_of(
            path_of(tree, #[trigger] stack[b] as int),
        )
    &&& forall|j: int|
        0 <= j < i && tree[j].kind is Dir && (#[trigger] path_of(tree, j)).is_prefix_of(
            path_of(tree, i),
        ) ==> stack.contains(j as usize)
}

/// A directory that entry `i` lies in is one that its predecessor lies in.
proof fn lemma_lies_in(tree: Seq<TreeEntry>, j: int, i: int)
    requires
        sorted_by_path(tree),
        0 <= j < i < tree.len(),
        path_of(tree, j).is_prefix_of(path_of(tree, i)),
    ensures
        path_of(tree, j).is_prefix_of(path_of(tree, i - 1)),
{
    let dir = path_of(tree, j);
    let x = path_of(tree, i - 1);
    let c = path_of(tree, i);
    paths::path_order_is_total(dir, x);
    paths::path_order_is_total(x, c);
    if x != c && dir != x {
        paths::subtree_is_contiguous(dir, x, c);
    }
}

/// Takes the directories off the stack that entry `i` does not lie in.
fn leave_dirs(tree: &[TreeEntry], stack: &mut Vec<usize>, i: usize)
    requires
        i < tree@.len(),
        sorted_by_path(tree@),
        is_open_stack(tree@, old(stack)@, i as int),
    ensures
        is_path_stack(tree@, final(stack)@, i as int),
{
    proof {
        assert forall|j: int|
            0 <= j < i && tree@[j].kind is Dir && (#[trigger] path_of(tree@, j)).is_prefix_of(
                path_of(tree@, i as int),
            ) implies stack@.contains(j as usize) by {
            lemma_lies_in(tree@, j, i as int);
        }
    }
    let mut left = false;
    while stack.len() > 0 && !left
        invariant
            i < tree@.len(),
            forall|a: int|
                0 <= a < stack@.len() ==> (#[trigger] stack@[a]) < i
                    && tree@[stack@[a] as int].kind is Dir,
            forall|a: int, b: int| 0 <= a < b < stack@.len() ==> stack@[a] < stack@[b],
            forall|a: int, b: int|
                0 <= a < b < stack@.len() ==> path_of(
                    tree@,
                    #[trigger] stack@[a] as int,
                ).is_prefix_of(path_of(tree@, #[trigger] stack@[b] as int)),
            forall|j: int|
                0 <= j < i && tree@[j].kind is Dir && (#[trigger] path_of(tree@, j)).is_prefix_of(
                    path_of(tree@, i as int),
                ) ==> stack@.contains(j as usize),
            left ==> stack@.len() > 0 && path_of(tree@, stack@.last() as int).is_prefix_of(
                path_of(tree@, i as int),
            ),
        decreases
                stack@.len(),
                if left {
                    0int
                } else {
                    1int
                },
    {
        let top: usize = stack[stack.len() - 1];
        let found = lead(tree[top].path.as_slice(), tree[i].path.as_slice());
        match found {
            Lead::Apart => {
                let ghost before = stack@;
                stack.pop();
                proof {
                    assert forall|j: int|
                        0 <= j < i && tree@[j].kind is Dir && (#[trigger] path_of(
                            tree@,
                            j,
                        )).is_prefix_of(path_of(tree@, i as int)) implies stack@.contains(
                        j as usize,
                    ) by {
                        let a = choose|a: int| 0 <= a < before.len() && before[a] == j as usize;
                        assert(stack@[a] == j as usize);
                    }
                }
            },
            _ => {
                left = true;
            },
        }
    }
    proof {
        assert forall|a: int| 0 <= a < stack@.len() implies (#[trigger] stack@[a]) < i
            && tree@[stack@[a] as int].kind is Dir && path_of(
            tree@,
            stack@[a] as int,
        ).is_prefix_of(path_of(tree@, i as int)) by {
            let top = stack@.len() - 1;
            if a < top {
                lemma_prefix_transitive(
                    path_of(tree@, stack@[a] as int),
                    path_of(tree@, stack@[top] as int),
                    path_of(tree@, i as int),
                );
            }
        }
    }
}

/// `depths` holds the number of components of the first `n` paths.
spec fn counts_components(tree: Seq<TreeEntry>, depths: Seq<usize>, n: int) -> bool {
    &&& depths.len() == n <= tree.len()
    &&& forall|j: int| 0 <= j < n ==> #[trigger] depths[j] == path_of(tree, j).len()
}

/// The list of each directory on the stack that holds entry `i` gets it.
fn list_child(
    tree: &[TreeEntry],
    depths: &Vec<usize>,
    stack: &Vec<usize>,
    found: &mut Vec<Vec<usize>>,
    i: usize,
)
    requires
        i < tree@.len(),
        counts_components(tree@, depths@, i + 1),
        sorted_by_path(tree@),
        is_path_stack(tree@, stack@, i as int),
        old(found)@.len() == i,
    ensures
        final(found)@.len() == i,
        forall|j: int|
            0 <= j < i ==> (#[trigger] final(found)@[j])@ == (if holds(tree@, j, i as int) {
                old(found)@[j]@.push(i)
            } else {
                old(found)@[j]@
            }),
{
    let ghost before = found@;
    let ghost here = path_of(tree@, i as int);
    let depth: usize = depths[i];
    let mut a: usize = 0;
    while a < stack.len()
        invariant
            a <= stack@.len(),
            i < tree@.len(),
            here == path_of(tree@, i as int),
            depth == here.len(),
            counts_components(tree@, depths@, i + 1),
            is_path_stack(tree@, stack@, i as int),
            before.len() == i,
            found@.len() == i,
            forall|j: int|
                0 <= j < i ==> (#[trigger] found@[j])@ == (if stack@.take(a as int).contains(
                    j as usize,
                ) && holds(tree@, j, i as int) {
                    before[j]@.push(i)
                } else {
                    before[j]@
                }),
        decreases stack@.len() - a,
    {
        let dir: usize = stack[a];
        let ghost earlier = found@;
        let count: usize = depths[dir];
        proof {
            paths::parent_is_one_component_above(
                tree@[i as int].path@,
                path_of(tree@, dir as int),
            );
        }
        if depth > 0 && count == depth - 1 && leads_to(
            tree[dir].path.as_slice(),
            tree[i].path.as_slice(),
        ) {
            found[dir].push(i);
        }
        proof {
            let now = stack@.take(a as int);
            let next = stack@.take(a + 1);
            assert(next =~= now.push(dir));
            assert(!now.contains(dir)) by {
                if now.contains(dir) {
                    let b = choose|b: int| 0 <= b < now.len() && now[b] == dir;
                    assert(stack@[b] == dir);
                }
            }
            assert forall|j: int| 0 <= j < i implies (#[trigger] found@[j])@ == (
            if next.contains(j as usize) && holds(tree@, j, i as int) {
                before[j]@.push(i)
            } else {
                before[j]@
            }) by {
                assert(next[a as int] == dir);
                if j != dir {
                    assert(found@[j] == earlier[j]);
                    if next.contains(j as usize) {
                        let b = choose|b: int| 0 <= b < next.len() && next[b] == j as usize;
                        assert(now[b] == j as usize);
                    }
                    if now.contains(j as usize) {
                        let b = choose|b: int| 0 <= b < now.len() && now[b] == j as usize;
                        assert(next[b] == j as usize);
                    }
                }
            }
        }
        a = a + 1;
    }
    proof {
        assert(stack@.take(a as int) =~= stack@);
        assert forall|j: int| 0 <= j < i && #[trigger] holds(
            tree@,
            j,
            i as int,
        ) implies stack@.contains(j as usize) by {
            lemma_holds_after(tree@, j, i as int);
        }
    }
}

/// From each directory that holds something to its children, the biggest first. The tree must be
/// sorted by path.
pub fn build_children_index(tree: &[TreeEntry]) -> (children: HashMap<usize, Vec<usize>>)
    requires
        sorted_by_path(tree@),
    ensures
        maps_children(tree@, children@),
{
    broadcast use vstd::std_specs::hash::group_hash_axioms;

    assert(tree@.len() == tree.len());
    let mut found: Vec<Vec<usize>> = Vec::new();
    let mut stack: Vec<usize> = Vec::new();
    let mut depths: Vec<usize> = Vec::with_capacity(tree.len());
    let mut i: usize = 0;
    while i < tree.len()
        invariant
            i <= tree@.len(),
            counts_components(tree@, depths@, i as int),
            sorted_by_path(tree@),
            found@.len() == i,
            is_open_stack(tree@, stack@, i as int),
            lists_so_far(tree@, found@, i as int),
        decreases tree@.len() - i,
    {
        leave_dirs(tree, &mut stack, i);
        let ghost open = stack@;
        let ghost before = found@;
        depths.push(component_count(tree[i].path.as_slice()));
        list_child(tree, &depths, &stack, &mut found, i);
        found.push(Vec::new());
        proof {
            lemma_child_listed(tree@, before, found@, i as int);
        }
        match tree[i].kind {
            EntryKind::Dir => {
                stack.push(i);
            },
            _ => {},
        }
        proof {
            assert forall|j: int|
                0 <= j < i + 1 && tree@[j].kind is Dir && (#[trigger] path_of(
                    tree@,
                    j,
                )).is_prefix_of(path_of(tree@, i as int)) implies stack@.contains(
                j as usize,
            ) by {
                if j < i {
                    let a = choose|a: int| 0 <= a < open.len() && open[a] == j as usize;
                    assert(stack@[a] == j as usize);
                } else {
                    assert(stack@[open.len() as int] == j as usize);
                }
            }
        }
        i = i + 1;
    }
    let mut children: HashMap<usize, Vec<usize>> = HashMap::new();
    let mut j: usize = 0;
    while j < found.len()
        invariant
            j <= found@.len(),
            found@.len() == tree@.len() <= usize::MAX,
            lists_so_far(tree@, found@, tree@.len() as int),
            forall|m: int|
                0 <= m < j ==> lists_children(tree@, m, #[trigger] list_of(children@, m)),
            forall|m: usize| #[trigger]
                children@.contains_key(m) ==> m < j && children@[m]@.len() > 0,
        decreases found@.len() - j,
    {
        let ghost before = children@;
        proof {
            assert forall|a: int| 0 <= a < found@[j as int]@.len() implies #[trigger] found@[j as int]@[a]
                < tree@.len() by {
                assert(found@[j as int]@.contains(found@[j as int]@[a]));
            }
        }
        let list = arrange::<TreeEntry, BySize>(tree, &found[j]);
        proof {
            lemma_arranged_children(tree@, found@[j as int]@, list@, j as int);
            assert(list@.len() == 0 ==> list@ =~= seq![]);
        }
        if list.len() > 0 {
            children.insert(j, list);
        }
        proof {
            assert forall|m: int| 0 <= m < j + 1 implies lists_children(
                tree@,
                m,
                #[trigger] list_of(children@, m),
            ) by {
                if m < j {
                    assert(list_of(children@, m) == list_of(before, m));
                }
            }
        }
        j = j + 1;
    }
    children
}

proof fn lemma_arranged_children(
    tree: Seq<TreeEntry>,
    picks: Seq<usize>,
    list: Seq<usize>,
    j: int,
)
    requires
        order::is_arranged::<TreeEntry, BySize>(tree, picks, list),
        forall|c: usize| #[trigger] picks.contains(c) <==> holds(tree, j, c as int),
    ensures
        lists_children(tree, j, list),
{
    broadcast use vstd::seq_lib::group_to_multiset_ensures;

    assert forall|c: usize| #[trigger] list.contains(c) <==> holds(tree, j, c as int) by {
        assert(list.to_multiset().count(c) > 0 <==> list.contains(c));
        assert(picks.to_multiset().count(c) > 0 <==> picks.contains(c));
    }
}

proof fn lemma_child_listed(
    tree: Seq<TreeEntry>,
    before: Seq<Vec<usize>>,
    after: Seq<Vec<usize>>,
    i: int,
)
    requires
        sorted_by_path(tree),
        0 <= i < tree.len(),
        i <= usize::MAX,
        before.len() == i,
        lists_so_far(tree, before, i),
        after.len() == i + 1,
        after[i]@.len() == 0,
        forall|j: int|
            0 <= j < i ==> (#[trigger] after[j])@ == (if holds(tree, j, i) {
                before[j]@.push(i as usize)
            } else {
                before[j]@
            }),
    ensures
        lists_so_far(tree, after, i + 1),
{
    assert forall|j: int| 0 <= j < after.len() implies order::increasing(
        (#[trigger] after[j])@,
    ) by {
        if j < i {
            assert(order::increasing(before[j]@));
            assert forall|a: int| 0 <= a < before[j]@.len() implies #[trigger] before[j]@[a]
                < i by {
                assert(before[j]@.contains(before[j]@[a]));
            }
        }
    }
    assert forall|j: int, c: usize| 0 <= j < after.len() implies (
    #[trigger] after[j]@.contains(c) <==> c < i + 1 && holds(tree, j, c as int)) by {
        if j < i {
            assert(before[j]@.contains(c) <==> c < i && holds(tree, j, c as int));
            if holds(tree, j, i) {
                let n = before[j]@.len() as int;
                assert(after[j]@[n] == i as usize);
                if before[j]@.contains(c) {
                    let a = choose|a: int| 0 <= a < n && before[j]@[a] == c;
                    assert(after[j]@[a] == c);
                }
                if after[j]@.contains(c) {
                    let a = choose|a: int| 0 <= a < n + 1 && after[j]@[a] == c;
                    if a < n {
                        assert(before[j]@[a] == c);
                    }
                }
            }
        } else if c < i + 1 && holds(tree, j, c as int) {
            lemma_holds_after(tree, j, c as int);
        }
    }
}

// ── Visible rows ────────────────────────────────────────────────────────

/// A row of the tree view.
#[derive(Debug, Clone, Copy, PartialEq, Eq, Structural)]
pub struct VisibleRow {
    pub data_idx: usize,
    pub indent: usize,
    pub parent_data_idx: Option<usize>,
}

/// No row is begun once there are more rows than this.
pub const MAX_ROWS: usize = 100_000;

/// The children of each of `n` entries.
pub open spec fn lists(children: Map<usize, Vec<usize>>, n: nat) -> Seq<Seq<usize>> {
    Seq::new(n, |j: int| list_of(children, j))
}

/// Every child stands after its parent.
pub open spec fn goes_down(children: Seq<Seq<usize>>) -> bool {
    forall|j: int, a: int|
        0 <= j < children.len() && 0 <= a < children[j].len() ==> j < #[trigger] children[j][a]
            < children.len()
}

/// The row of an entry and, where it is expanded, the rows of all below it.
pub open spec fn rows_of(
    children: Seq<Seq<usize>>,
    expanded: Set<usize>,
    idx: usize,
    indent: int,
    parent: Option<usize>,
) -> Seq<VisibleRow>
    decreases
            children.len() - idx,
            if idx < children.len() {
                children[idx as int].len() + 1
            } else {
                0
            },
{
    let row = VisibleRow { data_idx: idx, indent: indent as usize, parent_data_idx: parent };
    if expanded.contains(idx) && idx < children.len() {
        seq![row] + rows_below(
            children,
            expanded,
            idx,
            indent + 1,
            children[idx as int].len(),
        )
    } else {
        seq![row]
    }
}

/// The rows of the first `n` children of an entry.
pub open spec fn rows_below(
    children: Seq<Seq<usize>>,
    expanded: Set<usize>,
    parent: usize,
    indent: int,
    n: nat,
) -> Seq<VisibleRow>
    decreases children.len() - parent, n,
{
    if n == 0 {
        seq![]
    } else {
        let kid = children[parent as int][n - 1];
        rows_below(children, expanded, parent, indent, (n - 1) as nat) + (if parent < kid
            < children.len() {
            rows_of(children, expanded, kid, indent, Some(parent))
        } else {
            seq![]
        })
    }
}

/// `so_far` and after it the rows of the entries in the list from `i` on, until there are too
/// many.
pub open spec fn rows_from(
    children: Seq<Seq<usize>>,
    expanded: Set<usize>,
    by_size: Seq<usize>,
    i: int,
    so_far: Seq<VisibleRow>,
) -> Seq<VisibleRow>
    decreases by_size.len() - i,
{
    if i >= by_size.len() {
        so_far
    } else {
        let next = so_far + rows_of(children, expanded, by_size[i], 0, None);
        if next.len() > MAX_ROWS {
            next
        } else {
            rows_from(children, expanded, by_size, i + 1, next)
        }
    }
}

/// The rows of the size view: every entry of the list with the rows of expanded directories
/// below them.
pub open spec fn visible_rows(
    children: Seq<Seq<usize>>,
    expanded: Set<usize>,
    by_size: Seq<usize>,
) -> Seq<VisibleRow> {
    rows_from(children, expanded, by_size, 0, seq![])
}

fn push_row(
    result: &mut Vec<VisibleRow>,
    children: &HashMap<usize, Vec<usize>>,
    len: usize,
    data_idx: usize,
    indent: usize,
    parent: Option<usize>,
    expanded: &HashSet<usize>,
)
    requires
        goes_down(lists(children@, len as nat)),
        data_idx < len,
        indent + len - data_idx <= usize::MAX,
    ensures
        final(result)@ == old(result)@ + rows_of(
            lists(children@, len as nat),
            expanded@,
            data_idx,
            indent as int,
            parent,
        ),
    decreases len - data_idx,
{
    broadcast use vstd::std_specs::hash::group_hash_axioms;

    let ghost cs = lists(children@, len as nat);
    let ghost start = result@;
    let row = VisibleRow { data_idx, indent, parent_data_idx: parent };
    reveal_with_fuel(rows_of, 2);
    reveal_with_fuel(rows_below, 2);
    result.push(row);
    assert(result@ =~= start + seq![row]);
    if !expanded.contains(&data_idx) {
        return;
    }
    assert(start + seq![row] + rows_below(cs, expanded@, data_idx, indent + 1, 0) =~= start
        + seq![row]);
    assert(cs[data_idx as int] == list_of(children@, data_idx as int));
    let kids = match children.get(&data_idx) {
        Some(kids) => kids,
        None => {
            assert(start + (seq![row] + rows_below(cs, expanded@, data_idx, indent + 1, 0)) =~= start
                + seq![row]);
            return;
        },
    };
    assert(cs[data_idx as int] == kids@);
    let mut k: usize = 0;
    while k < kids.len()
        invariant
            k <= kids@.len(),
            cs == lists(children@, len as nat),
            goes_down(cs),
            data_idx < len,
            kids@ == cs[data_idx as int],
            indent + len - data_idx <= usize::MAX,
            result@ == start + seq![row] + rows_below(
                cs,
                expanded@,
                data_idx,
                indent + 1,
                k as nat,
            ),
        decreases kids@.len() - k,
    {
        let kid: usize = kids[k];
        proof {
            reveal_with_fuel(rows_below, 2);
            assert(data_idx < cs[data_idx as int][k as int] < cs.len());
            let so_far = rows_below(cs, expanded@, data_idx, indent + 1, k as nat);
            let more = rows_of(cs, expanded@, kid, indent + 1, Some(data_idx));
            assert(start + seq![row] + so_far + more =~= start + seq![row] + (so_far + more));
        }
        push_row(result, children, len, kid, indent + 1, Some(data_idx), expanded);
        k = k + 1;
    }
    assert(start + seq![row] + rows_below(
        cs,
        expanded@,
        data_idx,
        indent + 1,
        kids@.len(),
    ) =~= start + (seq![row] + rows_below(cs, expanded@, data_idx, indent + 1, kids@.len())));
}

/// The rows of the size view.
pub fn build_visible_list(
    tree: &[TreeEntry],
    children: &HashMap<usize, Vec<usize>>,
    by_size: &[usize],
    expanded: &HashSet<usize>,
) -> (rows: Vec<VisibleRow>)
    requires
        goes_down(lists(children@, tree@.len())),
        forall|i: int| 0 <= i < by_size@.len() ==> #[trigger] by_size@[i] < tree@.len(),
    ensures
        rows@ == visible_rows(lists(children@, tree@.len()), expanded@, by_size@),
{
    let ghost cs = lists(children@, tree@.len());
    let len: usize = tree.len();
    let mut rows: Vec<VisibleRow> = Vec::with_capacity(1024);
    let mut i: usize = 0;
    assert(rows@ =~= seq![]);
    while i < by_size.len()
        invariant
            i <= by_size@.len(),
            len == tree@.len(),
            cs == lists(children@, tree@.len()),
            goes_down(cs),
            forall|i: int| 0 <= i < by_size@.len() ==> #[trigger] by_size@[i] < tree@.len(),
            visible_rows(cs, expanded@, by_size@) == rows_from(
                cs,
                expanded@,
                by_size@,
                i as int,
                rows@,
            ),
        decreases by_size@.len() - i,
    {
        push_row(&mut rows, children, len, by_size[i], 0, None, expanded);
        if rows.len() > MAX_ROWS {
            return rows;
        }
        i = i + 1;
    }
    rows
}

proof fn lemma_collapsed_rows(
    children: Seq<Seq<usize>>,
    by_size: Seq<usize>,
    i: int,
    so_far: Seq<VisibleRow>,
)
    requires
        0 <= i <= by_size.len(),
        so_far.len() == i <= MAX_ROWS,
        forall|k: int| 0 <= k < i ==> #[trigger] so_far[k] == top_row(by_size[k]),
    ensures
        ({
            let rows = rows_from(children, Set::empty(), by_size, i, so_far);
            &&& rows.len() == (if by_size.len() <= MAX_ROWS {
                by_size.len() as int
            } else {
                MAX_ROWS + 1
            })
            &&& forall|k: int| 0 <= k < rows.len() ==> #[trigger] rows[k] == top_row(by_size[k])
        }),
    decreases by_size.len() - i,
{
    reveal_with_fuel(rows_of, 2);
    if i < by_size.len() {
        let next = so_far + rows_of(children, Set::empty(), by_size[i], 0, None);
        assert(next =~= so_far.push(top_row(by_size[i])));
        if next.len() <= MAX_ROWS {
            lemma_collapsed_rows(children, by_size, i + 1, next);
        }
    }
}

/// The row of an entry that stands on its own.
pub open spec fn top_row(idx: usize) -> VisibleRow {
    VisibleRow { data_idx: idx, indent: 0, parent_data_idx: None }
}

/// With nothing expanded the size view lists the entries one by one, up to its limit.
pub proof fn collapsed_view_lists_the_entries(children: Seq<Seq<usize>>, by_size: Seq<usize>)
    ensures
        ({
            let rows = visible_rows(children, Set::empty(), by_size);
            &&& rows.len() == (if by_size.len() <= MAX_ROWS {
                by_size.len() as int
            } else {
                MAX_ROWS + 1
            })
            &&& forall|k: int| 0 <= k < rows.len() ==> #[trigger] rows[k] == top_row(by_size[k])
        }),
{
    lemma_collapsed_rows(children, by_size, 0, seq![]);
}

// ── Expanding ───────────────────────────────────────────────────────────

/// No row of `rows` before `k` shows entry `e`.
pub open spec fn none_before(rows: Seq<VisibleRow>, e: usize, k: int) -> bool {
    forall|m: int| 0 <= m < k ==> (#[trigger] rows[m]).data_idx != e
}

/// `q` starts like `p`, up to the first row that shows `e`.
spec fn agrees_up_to(p: Seq<VisibleRow>, q: Seq<VisibleRow>, e: usize) -> bool {
    &&& none_before(p, e, p.len() as int) ==> p == q
    &&& forall|k: int|
        0 <= k < p.len() && #[trigger] none_before(p, e, k) ==> k < q.len() && p[k] == q[k]
}

proof fn lemma_agrees_concat(
    p1: Seq<VisibleRow>,
    q1: Seq<VisibleRow>,
    p2: Seq<VisibleRow>,
    q2: Seq<VisibleRow>,
    e: usize,
)
    requires
        agrees_up_to(p1, q1, e),
        agrees_up_to(p2, q2, e),
    ensures
        agrees_up_to(p1 + p2, q1 + q2, e),
{
    let p = p1 + p2;
    let q = q1 + q2;
    assert forall|k: int| 0 <= k < p.len() && #[trigger] none_before(p, e, k) implies k < q.len()
        && p[k] == q[k] by {
        if k < p1.len() {
            assert forall|m: int| 0 <= m < k implies (#[trigger] p1[m]).data_idx != e by {
                assert(p[m] == p1[m]);
            }
            assert(none_before(p1, e, k));
        } else {
            assert forall|m: int| 0 <= m < p1.len() implies (#[trigger] p1[m]).data_idx != e by {
                assert(p[m] == p1[m]);
            }
            assert forall|m: int| 0 <= m < k - p1.len() implies (#[trigger] p2[m]).data_idx
                != e by {
                assert(p[m + p1.len()] == p2[m]);
            }
            assert(none_before(p2, e, k - p1.len()));
        }
    }
    if none_before(p, e, p.len() as int) {
        assert forall|m: int| 0 <= m < p1.len() implies (#[trigger] p1[m]).data_idx != e by {
            assert(p[m] == p1[m]);
        }
        assert forall|m: int| 0 <= m < p2.len() implies (#[trigger] p2[m]).data_idx != e by {
            assert(p[m + p1.len()] == p2[m]);
        }
    }
}

proof fn lemma_rows_agree(
    children: Seq<Seq<usize>>,
    expanded: Set<usize>,
    idx: usize,
    indent: int,
    parent: Option<usize>,
    e: usize,
)
    ensures
        agrees_up_to(
            rows_of(children, expanded, idx, indent, parent),
            rows_of(children, expanded.insert(e), idx, indent, parent),
            e,
        ),
    decreases
            children.len() - idx,
            if idx < children.len() {
                children[idx as int].len() + 1
            } else {
                0
            },
{
    reveal_with_fuel(rows_of, 2);
    let p = rows_of(children, expanded, idx, indent, parent);
    let q = rows_of(children, expanded.insert(e), idx, indent, parent);
    let row = VisibleRow { data_idx: idx, indent: indent as usize, parent_data_idx: parent };
    assert(p[0] == row && q[0] == row);
    if idx == e {
        assert forall|k: int| 0 <= k < p.len() && #[trigger] none_before(p, e, k) implies k
            < q.len() && p[k] == q[k] by {
            if k > 0 {
                assert(p[0].data_idx != e);
            }
        }
        assert(p[0].data_idx == e);
    } else if expanded.contains(idx) && idx < children.len() {
        let n = children[idx as int].len();
        lemma_rows_below_agree(children, expanded, idx, indent + 1, n, e);
        assert(agrees_up_to(seq![row], seq![row], e));
        lemma_agrees_concat(
            seq![row],
            seq![row],
            rows_below(children, expanded, idx, indent + 1, n),
            rows_below(children, expanded.insert(e), idx, indent + 1, n),
            e,
        );
    }
}

proof fn lemma_rows_below_agree(
    children: Seq<Seq<usize>>,
    expanded: Set<usize>,
    parent: usize,
    indent: int,
    n: nat,
    e: usize,
)
    ensures
        agrees_up_to(
            rows_below(children, expanded, parent, indent, n),
            rows_below(children, expanded.insert(e), parent, indent, n),
            e,
        ),
    decreases children.len() - parent, n,
{
    reveal_with_fuel(rows_below, 2);
    if n > 0 {
        let kid = children[parent as int][n - 1];
        let more = expanded.insert(e);
        lemma_rows_below_agree(children, expanded, parent, indent, (n - 1) as nat, e);
        if parent < kid < children.len() {
            lemma_rows_agree(children, expanded, kid, indent, Some(parent), e);
            lemma_agrees_concat(
                rows_below(children, expanded, parent, indent, (n - 1) as nat),
                rows_below(children, more, parent, indent, (n - 1) as nat),
                rows_of(children, expanded, kid, indent, Some(parent)),
                rows_of(children, more, kid, indent, Some(parent)),
                e,
            );
        } else {
            assert(rows_below(children, expanded, parent, indent, n) =~= rows_below(
                children,
                expanded,
                parent,
                indent,
                (n - 1) as nat,
            ));
            assert(rows_below(children, more, parent, indent, n) =~= rows_below(
                children,
                more,
                parent,
                indent,
                (n - 1) as nat,
            ));
        }
    }
}

proof fn lemma_rows_from_extends(
    children: Seq<Seq<usize>>,
    expanded: Set<usize>,
    by_size: Seq<usize>,
    i: int,
    so_far: Seq<VisibleRow>,
)
    ensures
        so_far.len() <= rows_from(children, expanded, by_size, i, so_far).len(),
        forall|k: int|
            0 <= k < so_far.len() ==> #[trigger] so_far[k] == rows_from(
                children,
                expanded,
                by_size,
                i,
                so_far,
            )[k],
    decreases by_size.len() - i,
{
    if i < by_size.len() {
        let next = so_far + rows_of(children, expanded, by_size[i], 0, None);
        assert forall|k: int| 0 <= k < so_far.len() implies #[trigger] so_far[k] == next[k] by {}
        if next.len() <= MAX_ROWS {
            lemma_rows_from_extends(children, expanded, by_size, i + 1, next);
        }
    }
}

/// What follows the first row that shows `e` does not matter.
proof fn lemma_agrees_extended(
    p: Seq<VisibleRow>,
    q: Seq<VisibleRow>,
    whole_p: Seq<VisibleRow>,
    whole_q: Seq<VisibleRow>,
    e: usize,
)
    requires
        agrees_up_to(p, q, e),
        !none_before(p, e, p.len() as int),
        p.len() <= whole_p.len(),
        q.len() <= whole_q.len(),
        forall|k: int| 0 <= k < p.len() ==> #[trigger] p[k] == whole_p[k],
        forall|k: int| 0 <= k < q.len() ==> #[trigger] q[k] == whole_q[k],
    ensures
        agrees_up_to(whole_p, whole_q, e),
{
    let f = choose|f: int| 0 <= f < p.len() && (#[trigger] p[f]).data_idx == e;
    assert(whole_p[f].data_idx == e);
    assert forall|k: int|
        0 <= k < whole_p.len() && #[trigger] none_before(whole_p, e, k) implies k < whole_q.len()
        && whole_p[k] == whole_q[k] by {
        assert(k <= f);
        assert forall|m: int| 0 <= m < k implies (#[trigger] p[m]).data_idx != e by {
            assert(whole_p[m] == p[m]);
        }
        assert(none_before(p, e, k));
        assert(p[k] == whole_p[k] && q[k] == whole_q[k]);
    }
}

proof fn lemma_rows_from_agree(
    children: Seq<Seq<usize>>,
    expanded: Set<usize>,
    by_size: Seq<usize>,
    i: int,
    so_far: Seq<VisibleRow>,
    e: usize,
)
    requires
        0 <= i <= by_size.len(),
        none_before(so_far, e, so_far.len() as int),
    ensures
        agrees_up_to(
            rows_from(children, expanded, by_size, i, so_far),
            rows_from(children, expanded.insert(e), by_size, i, so_far),
            e,
        ),
    decreases by_size.len() - i,
{
    if i < by_size.len() {
        let more = expanded.insert(e);
        let p = so_far + rows_of(children, expanded, by_size[i], 0, None);
        let q = so_far + rows_of(children, more, by_size[i], 0, None);
        lemma_rows_agree(children, expanded, by_size[i], 0, None, e);
        assert(agrees_up_to(so_far, so_far, e));
        lemma_agrees_concat(
            so_far,
            so_far,
            rows_of(children, expanded, by_size[i], 0, None),
            rows_of(children, more, by_size[i], 0, None),
            e,
        );
        if none_before(p, e, p.len() as int) {
            assert(p == q);
            if p.len() <= MAX_ROWS {
                lemma_rows_from_agree(children, expanded, by_size, i + 1, p, e);
            }
        } else {
            let whole_p = rows_from(children, expanded, by_size, i, so_far);
            let whole_q = rows_from(children, more, by_size, i, so_far);
            if p.len() <= MAX_ROWS {
                lemma_rows_from_extends(children, expanded, by_size, i + 1, p);
            }
            if q.len() <= MAX_ROWS {
                lemma_rows_from_extends(children, more, by_size, i + 1, q);
            }
            lemma_agrees_extended(p, q, whole_p, whole_q, e);
        }
    }
}

/// Expanding an entry leaves the rows as they are, down to the first row that shows the entry.
pub proof fn expanding_keeps_the_rows_above(
    children: Seq<Seq<usize>>,
    expanded: Set<usize>,
    by_size: Seq<usize>,
    e: usize,
    k: int,
)
    requires
        0 <= k < visible_rows(children, expanded, by_size).len(),
        none_before(visible_rows(children, expanded, by_size), e, k),
    ensures
        k < visible_rows(children, expanded.insert(e), by_size).len(),
        visible_rows(children, expanded.insert(e), by_size)[k] == visible_rows(
            children,
            expanded,
            by_size,
        )[k],
{
    lemma_rows_from_agree(children, expanded, by_size, 0, seq![], e);
}

// ── The index of a tree ─────────────────────────────────────────────────

/// What the size view needs to know of a tree.
#[derive(Debug)]
pub struct TreeIndex {
    pub by_size: Vec<usize>,
    pub children: HashMap<usize, Vec<usize>>,
}

impl TreeIndex {
    pub open spec fn is_index_of(self, tree: Seq<TreeEntry>) -> bool {
        &&& order::is_arranged::<TreeEntry, BySize>(
            tree,
            order::positions(tree.len()),
            self.by_size@,
        )
        &&& sorted_by_path(tree)
        &&& tree.len() <= usize::MAX
        &&& maps_children(tree, self.children@)
    }

    pub fn new(tree: &[TreeEntry]) -> (index: Self)
        requires
            sorted_by_path(tree@),
        ensures
            index.is_index_of(tree@),
    {
        assert(tree@.len() == tree.len());
        TreeIndex { by_size: by_size(tree), children: build_children_index(tree) }
    }

    /// The rows of the size view.
    pub open spec fn rows(self, expanded: Set<usize>) -> Seq<VisibleRow> {
        visible_rows(lists(self.children@, self.by_size@.len()), expanded, self.by_size@)
    }

    /// The rows of the size view of a tree.
    pub fn visible(&self, tree: &[TreeEntry], expanded: &HashSet<usize>) -> (rows: Vec<VisibleRow>)
        requires
            self.is_index_of(tree@),
        ensures
            rows@ == self.rows(expanded@),
            forall|i: int| 0 <= i < rows@.len() ==> (#[trigger] rows@[i]).data_idx < tree@.len(),
    {
        let ghost cs = lists(self.children@, tree@.len());
        proof {
            order::lemma_arranged::<TreeEntry, BySize>(tree@, self.by_size@);
            assert forall|j: int, a: int|
                0 <= j < cs.len() && 0 <= a < cs[j].len() implies j < #[trigger] cs[j][a]
                < cs.len() by {
                assert(lists_children(tree@, j, list_of(self.children@, j)));
                assert(cs[j].contains(cs[j][a]));
                lemma_holds_after(tree@, j, cs[j][a] as int);
            }
            lemma_rows_from_bounded(cs, expanded@, self.by_size@, 0, seq![]);
        }
        build_visible_list(tree, &self.children, self.by_size.as_slice(), expanded)
    }
}

proof fn lemma_rows_bounded(
    children: Seq<Seq<usize>>,
    expanded: Set<usize>,
    idx: usize,
    indent: int,
    parent: Option<usize>,
)
    requires
        idx < children.len(),
    ensures
        forall|i: int|
            0 <= i < rows_of(children, expanded, idx, indent, parent).len() ==> (
            #[trigger] rows_of(children, expanded, idx, indent, parent)[i]).data_idx
                < children.len(),
    decreases children.len() - idx, children[idx as int].len() + 1,
{
    reveal_with_fuel(rows_of, 2);
    if expanded.contains(idx) {
        lemma_rows_below_bounded(children, expanded, idx, indent + 1, children[idx as int].len());
    }
}

proof fn lemma_rows_below_bounded(
    children: Seq<Seq<usize>>,
    expanded: Set<usize>,
    parent: usize,
    indent: int,
    n: nat,
)
    requires
        parent < children.len(),
        n <= children[parent as int].len(),
    ensures
        forall|i: int|
            0 <= i < rows_below(children, expanded, parent, indent, n).len() ==> (
            #[trigger] rows_below(children, expanded, parent, indent, n)[i]).data_idx
                < children.len(),
    decreases children.len() - parent, n,
{
    reveal_with_fuel(rows_below, 2);
    if n > 0 {
        let kid = children[parent as int][n - 1];
        lemma_rows_below_bounded(children, expanded, parent, indent, (n - 1) as nat);
        if parent < kid < children.len() {
            lemma_rows_bounded(children, expanded, kid, indent, Some(parent));
        }
    }
}

proof fn lemma_rows_from_bounded(
    children: Seq<Seq<usize>>,
    expanded: Set<usize>,
    by_size: Seq<usize>,
    i: int,
    so_far: Seq<VisibleRow>,
)
    requires
        0 <= i <= by_size.len(),
        forall|k: int| 0 <= k < by_size.len() ==> #[trigger] by_size[k] < children.len(),
        forall|k: int| 0 <= k < so_far.len() ==> (#[trigger] so_far[k]).data_idx < children.len(),
    ensures
        forall|k: int|
            0 <= k < rows_from(children, expanded, by_size, i, so_far).len() ==> (
            #[trigger] rows_from(children, expanded, by_size, i, so_far)[k]).data_idx
                < children.len(),
    decreases by_size.len() - i,
{
    if i < by_size.len() {
        lemma_rows_bounded(children, expanded, by_size[i], 0, None);
        let next = so_far + rows_of(children, expanded, by_size[i], 0, None);
        if next.len() <= MAX_ROWS {
            lemma_rows_from_bounded(children, expanded, by_size, i + 1, next);
        }
    }
}

} // verus!
