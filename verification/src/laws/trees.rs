//! Laws of the tree: in which order entries stand, what is filed under which directory, and which
//! rows are shown.

use vstd::prelude::*;

use crate::junk::JunkHit;
use crate::junk_view::HitsBySize;
use crate::scan::{ByPath, TreeEntry};
use crate::tree::{BySize, TreeIndex, VisibleRow};
use crate::walker::EntryKind;
use crate::junk;
use crate::junk_view;
use crate::order;
use crate::paths;
use crate::tree;
use crate::tree_view;

verus! {

// ── Order ───────────────────────────────────────────────────────────────

/// Entries by size: each entry once, none before a larger one, and of entries of one size the one
/// first that came first.
pub proof fn the_biggest_entries_come_first(entries: Seq<TreeEntry>, order: Seq<usize>)
    requires
        entries.len() <= usize::MAX,
        order::is_arranged::<TreeEntry, BySize>(
            entries,
            order::positions(entries.len()),
            order,
        ),
    ensures
        order.len() == entries.len(),
        forall|k: int| 0 <= k < entries.len() ==> order.contains(#[trigger] (k as usize)),
        forall|i: int, j: int|
            0 <= i < j < order.len() ==> (#[trigger] order[i]) != (#[trigger] order[j])
                && entries[order[i] as int].size >= entries[order[j] as int].size,
        forall|i: int, j: int|
            0 <= i < j < order.len() && entries[(#[trigger] order[i]) as int].size
                == entries[(#[trigger] order[j]) as int].size ==> order[i] < order[j],
{
    order::lemma_arranged::<TreeEntry, BySize>(entries, order);
    assert forall|i: int, j: int| 0 <= i < j < order.len() implies (#[trigger] order[i]) != (
    #[trigger] order[j]) && entries[order[i] as int].size >= entries[order[j] as int].size by {
        assert(order::goes_first::<TreeEntry, BySize>(entries, order[i], order[j]));
    }
    assert forall|i: int, j: int|
        0 <= i < j < order.len() && entries[(#[trigger] order[i]) as int].size == entries[(
        #[trigger] order[j]) as int].size implies order[i] < order[j] by {
        assert(order::goes_first::<TreeEntry, BySize>(entries, order[i], order[j]));
    }
}

/// Hits by size: the same hits, none before a larger one.
pub proof fn the_biggest_hits_come_first(hits: Seq<JunkHit>, sorted: Seq<JunkHit>)
    requires
        hits.len() <= usize::MAX,
        order::is_sorted_from::<JunkHit, HitsBySize>(hits, sorted),
    ensures
        sorted.len() == hits.len(),
        forall|i: int, j: int|
            0 <= i < j < sorted.len() ==> (#[trigger] sorted[i]).size_bytes >= (
            #[trigger] sorted[j]).size_bytes,
        forall|k: int| 0 <= k < hits.len() ==> sorted.contains(#[trigger] hits[k]),
        forall|k: int| 0 <= k < sorted.len() ==> hits.contains(#[trigger] sorted[k]),
{
    let order = choose|order: Seq<usize>| #[trigger]
        order::is_arranged::<JunkHit, HitsBySize>(
            hits,
            order::positions(hits.len()),
            order,
        ) && order::is_permuted(hits, order, sorted);
    order::lemma_arranged::<JunkHit, HitsBySize>(hits, order);
    assert forall|k: int| 0 <= k < sorted.len() implies #[trigger] sorted[k]
        == hits[order[k] as int] by {}
    assert forall|i: int, j: int| 0 <= i < j < sorted.len() implies (
    #[trigger] sorted[i]).size_bytes >= (#[trigger] sorted[j]).size_bytes by {
        assert(order::goes_first::<JunkHit, HitsBySize>(hits, order[i], order[j]));
    }
    assert forall|k: int| 0 <= k < hits.len() implies sorted.contains(#[trigger] hits[k]) by {
        assert(order.contains(k as usize));
        let i = choose|i: int| 0 <= i < order.len() && order[i] == k as usize;
        assert(sorted[i] == hits[k]);
    }
    assert forall|k: int| 0 <= k < sorted.len() implies hits.contains(#[trigger] sorted[k]) by {
        assert(hits[order[k] as int] == sorted[k]);
    }
}

/// Entries by path: the same entries, none before one whose path belongs in front of it.
pub proof fn entries_are_sorted_by_path(entries: Seq<TreeEntry>, sorted: Seq<TreeEntry>)
    requires
        entries.len() <= usize::MAX,
        order::is_sorted_from::<TreeEntry, ByPath>(entries, sorted),
    ensures
        sorted.len() == entries.len(),
        forall|i: int, j: int|
            0 <= i < j < sorted.len() ==> !paths::path_before(
                paths::components((#[trigger] sorted[j]).path@),
                paths::components((#[trigger] sorted[i]).path@),
            ),
        forall|k: int| 0 <= k < entries.len() ==> sorted.contains(#[trigger] entries[k]),
        forall|k: int| 0 <= k < sorted.len() ==> entries.contains(#[trigger] sorted[k]),
{
    let order = choose|order: Seq<usize>| #[trigger]
        order::is_arranged::<TreeEntry, ByPath>(
            entries,
            order::positions(entries.len()),
            order,
        ) && order::is_permuted(entries, order, sorted);
    order::lemma_arranged::<TreeEntry, ByPath>(entries, order);
    assert forall|k: int| 0 <= k < sorted.len() implies #[trigger] sorted[k]
        == entries[order[k] as int] by {}
    assert forall|i: int, j: int| 0 <= i < j < sorted.len() implies !paths::path_before(
        paths::components((#[trigger] sorted[j]).path@),
        paths::components((#[trigger] sorted[i]).path@),
    ) by {
        assert(order::goes_first::<TreeEntry, ByPath>(entries, order[i], order[j]));
    }
    assert forall|k: int| 0 <= k < entries.len() implies sorted.contains(
        #[trigger] entries[k],
    ) by {
        assert(order.contains(k as usize));
        let i = choose|i: int| 0 <= i < order.len() && order[i] == k as usize;
        assert(sorted[i] == entries[k]);
    }
    assert forall|k: int| 0 <= k < sorted.len() implies entries.contains(
        #[trigger] sorted[k],
    ) by {
        assert(entries[order[k] as int] == sorted[k]);
    }
}

/// Paths are taken as they stand.
pub proof fn paths_are_taken_as_they_stand(
    hits: Seq<JunkHit>,
    entries: Seq<TreeEntry>,
    list: Seq<Vec<u8>>,
    i: int,
)
    ensures
        junk_view::hit_paths(hits).len() == hits.len(),
        0 <= i < hits.len() ==> junk_view::hit_paths(hits)[i] == hits[i].path@,
        tree_view::entry_paths(entries).len() == entries.len(),
        0 <= i < entries.len() ==> tree_view::entry_paths(entries)[i] == entries[i].path@,
        junk::paths_of(list).len() == list.len(),
        0 <= i < list.len() ==> junk::paths_of(list)[i] == list[i]@,
{
}

// ── Children ────────────────────────────────────────────────────────────

/// Under a directory are filed the entries whose path is its path and one component more, all of
/// them and no others, none before a larger one. Nothing is filed under an entry that is no
/// directory.
pub proof fn children_lie_one_component_below(
    entries: Seq<TreeEntry>,
    children: Map<usize, Vec<usize>>,
    j: usize,
    i: usize,
)
    requires
        entries.len() <= usize::MAX,
        tree::maps_children(entries, children),
        j < entries.len(),
        i < entries.len(),
    ensures
        ({
            let list = tree::list_of(children, j as int);
            let dir = paths::components(entries[j as int].path@);
            let path = paths::components(entries[i as int].path@);
            &&& list.contains(i) <==> entries[j as int].kind == EntryKind::Dir && path.len()
                == dir.len() + 1 && path.drop_last() == dir && path.last()
                != paths::Component::RootDir
            &&& forall|a: int, b: int|
                0 <= a < b < list.len() ==> entries[(#[trigger] list[a]) as int].size
                    >= entries[(#[trigger] list[b]) as int].size
            &&& children.contains_key(j) <==> list.len() > 0
            &&& children.contains_key(j) ==> list == children[j]@
        }),
{
    let list = tree::list_of(children, j as int);
    assert(tree::lists_children(entries, j as int, list));
    assert(tree::path_of(entries, j as int) == paths::components(entries[j as int].path@));
    assert(tree::path_of(entries, i as int) == paths::components(entries[i as int].path@));
    assert forall|a: int, b: int| 0 <= a < b < list.len() implies entries[(
    #[trigger] list[a]) as int].size >= entries[(#[trigger] list[b]) as int].size by {
        assert(order::goes_first::<TreeEntry, BySize>(entries, list[a], list[b]));
    }
}

// ── Rows ────────────────────────────────────────────────────────────────

/// The row of an entry comes first. Where the entry is expanded, the rows of its children follow,
/// child by child, one step further in and with the entry as their parent; else nothing follows.
pub proof fn children_follow_an_expanded_entry(
    children: Seq<Seq<usize>>,
    expanded: Set<usize>,
    idx: usize,
    indent: usize,
    parent: Option<usize>,
)
    requires
        tree::goes_down(children),
        idx < children.len(),
        indent < usize::MAX,
    ensures
        ({
            let rows = tree::rows_of(children, expanded, idx, indent as int, parent);
            let below = Seq::new(
                children[idx as int].len(),
                |k: int|
                    tree::rows_of(
                        children,
                        expanded,
                        children[idx as int][k],
                        indent + 1,
                        Some(idx),
                    ),
            ).flatten();
            &&& rows.len() > 0
            &&& rows[0].data_idx == idx && rows[0].indent == indent
            &&& rows[0].parent_data_idx == parent
            &&& expanded.contains(idx) ==> rows.skip(1) == below
            &&& !expanded.contains(idx) ==> rows.len() == 1
        }),
{
    reveal_with_fuel(tree::rows_of, 2);
    let rows = tree::rows_of(children, expanded, idx, indent as int, parent);
    if expanded.contains(idx) {
        let n = children[idx as int].len();
        lemma_below(children, expanded, idx, indent + 1, n);
        assert(rows.skip(1) =~= tree::rows_below(children, expanded, idx, indent + 1, n));
    }
}

proof fn lemma_below(
    children: Seq<Seq<usize>>,
    expanded: Set<usize>,
    parent: usize,
    indent: int,
    n: nat,
)
    requires
        tree::goes_down(children),
        parent < children.len(),
        n <= children[parent as int].len(),
    ensures
        tree::rows_below(children, expanded, parent, indent, n) == Seq::new(
            n,
            |k: int|
                tree::rows_of(
                    children,
                    expanded,
                    children[parent as int][k],
                    indent,
                    Some(parent),
                ),
        ).flatten(),
    decreases n,
{
    reveal_with_fuel(tree::rows_below, 2);
    let all = Seq::new(
        n,
        |k: int|
            tree::rows_of(children, expanded, children[parent as int][k], indent, Some(parent)),
    );
    if n > 0 {
        let m = (n - 1) as nat;
        lemma_below(children, expanded, parent, indent, m);
        let before = Seq::new(
            m,
            |k: int|
                tree::rows_of(
                    children,
                    expanded,
                    children[parent as int][k],
                    indent,
                    Some(parent),
                ),
        );
        assert(all =~= before.push(all.last()));
        before.lemma_flatten_push(all.last());
        let kid = children[parent as int][n - 1];
        assert(parent < kid < children.len());
    } else {
        assert(tree::rows_below(children, expanded, parent, indent, n) =~= all.flatten());
    }
}

/// The rows of the first `m` entries by size, each at the top with all that is shown below it.
pub open spec fn rows_of_first(
    children: Seq<Seq<usize>>,
    expanded: Set<usize>,
    by_size: Seq<usize>,
    m: nat,
) -> Seq<VisibleRow> {
    Seq::new(m, |i: int| tree::rows_of(children, expanded, by_size[i], 0, None)).flatten()
}

/// The view by size shows every entry at the top, in the order of the list, with all that is shown
/// below it. It ends early only behind the entry with which there are more than a hundred thousand
/// rows.
pub proof fn every_entry_is_shown_at_the_top(
    children: Seq<Seq<usize>>,
    expanded: Set<usize>,
    by_size: Seq<usize>,
)
    ensures
        exists|m: nat|
            {
                &&& m <= by_size.len()
                &&& tree::visible_rows(children, expanded, by_size) == #[trigger] rows_of_first(
                    children,
                    expanded,
                    by_size,
                    m,
                )
                &&& m == by_size.len() || rows_of_first(children, expanded, by_size, m).len()
                    > 100_000
                &&& m > 0 ==> rows_of_first(
                    children,
                    expanded,
                    by_size,
                    (m - 1) as nat,
                ).len() <= 100_000
            },
{
    assert(rows_of_first(children, expanded, by_size, 0) =~= seq![]);
    let m = lemma_top(children, expanded, by_size, 0);
    assert(tree::visible_rows(children, expanded, by_size) == rows_of_first(
        children,
        expanded,
        by_size,
        m,
    ));
}

proof fn lemma_top(
    children: Seq<Seq<usize>>,
    expanded: Set<usize>,
    by_size: Seq<usize>,
    i: nat,
) -> (m: nat)
    requires
        i <= by_size.len(),
        rows_of_first(children, expanded, by_size, i).len() <= 100_000,
    ensures
        i <= m <= by_size.len(),
        tree::rows_from(
            children,
            expanded,
            by_size,
            i as int,
            rows_of_first(children, expanded, by_size, i),
        ) == rows_of_first(children, expanded, by_size, m),
        m == by_size.len() || rows_of_first(children, expanded, by_size, m).len() > 100_000,
        m > i ==> rows_of_first(children, expanded, by_size, (m - 1) as nat).len() <= 100_000,
    decreases by_size.len() - i,
{
    if i == by_size.len() {
        i
    } else {
        let so_far = rows_of_first(children, expanded, by_size, i);
        let row = tree::rows_of(children, expanded, by_size[i as int], 0, None);
        let before = Seq::new(i, |k: int| tree::rows_of(children, expanded, by_size[k], 0, None));
        let after = Seq::new(
            i + 1,
            |k: int| tree::rows_of(children, expanded, by_size[k], 0, None),
        );
        assert(after =~= before.push(row));
        before.lemma_flatten_push(row);
        assert(rows_of_first(children, expanded, by_size, i + 1) == so_far + row);
        if (so_far + row).len() > 100_000 {
            i + 1
        } else {
            lemma_top(children, expanded, by_size, i + 1)
        }
    }
}

/// The rows of an index are those of its own list and children.
pub proof fn an_index_shows_its_own_rows(index: TreeIndex, expanded: Set<usize>)
    ensures
        index.rows(expanded) == tree::visible_rows(
            Seq::new(
                index.by_size@.len(),
                |j: int| tree::list_of(index.children@, j),
            ),
            expanded,
            index.by_size@,
        ),
{
}

/// A tree is sorted as long as each entry that is added comes before none of those in it.
pub proof fn trees_are_sorted_entry_by_entry(tree: Seq<TreeEntry>, next: TreeEntry)
    ensures
        tree::sorted_by_path(seq![]),
        tree::sorted_by_path(tree.push(next)) <==> tree::sorted_by_path(tree) && forall|i: int|
            0 <= i < tree.len() ==> !paths::path_before(
                paths::components(next.path@),
                paths::components((#[trigger] tree[i]).path@),
            ),
{
    let all = tree.push(next);
    let n = tree.len() as int;
    assert(tree::path_of(all, n) == paths::components(next.path@));
    assert forall|i: int| 0 <= i < n implies #[trigger] tree::path_of(all, i)
        == paths::components(tree[i].path@) by {}
    assert forall|i: int| 0 <= i < n implies #[trigger] tree::path_of(tree, i)
        == tree::path_of(all, i) by {}
    if tree::sorted_by_path(all) {
        assert forall|i: int| 0 <= i < n implies !paths::path_before(
            paths::components(next.path@),
            paths::components((#[trigger] tree[i]).path@),
        ) by {
            assert(!paths::path_before(tree::path_of(all, n), tree::path_of(all, i)));
        }
    }
    if tree::sorted_by_path(tree) && forall|i: int|
        0 <= i < n ==> !paths::path_before(
            paths::components(next.path@),
            paths::components((#[trigger] tree[i]).path@),
        ) {
        assert forall|i: int, j: int| 0 <= i < j < all.len() implies !paths::path_before(
            #[trigger] tree::path_of(all, j),
            #[trigger] tree::path_of(all, i),
        ) by {
            assert(tree::path_of(all, i) == paths::components(tree[i].path@));
            if j < n {
                assert(!paths::path_before(tree::path_of(tree, j), tree::path_of(tree, i)));
            }
        }
    }
}

} // verus!
