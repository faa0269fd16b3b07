//! Directory sizes: every directory of a scanned tree gets the sizes of all that lies below it.

use vstd::prelude::*;

use crate::order::arrange_all;
use crate::paths::{lead, leads_to, Component, Lead};
use crate::scan::{ByPath, Node, TreeEntry};
use crate::walker::EntryKind;
use crate::order;
use crate::paths;
use crate::scan;
use crate::sums;

verus! {

/// What an entry adds to the size of the directory `dir`.
pub open spec fn share_of(dir: Seq<Component>) -> spec_fn(Node) -> nat {
    |n: Node|
        if paths::is_ancestor(dir, paths::components(n.path)) {
            n.size as nat
        } else {
            0
        }
}

/// The sizes of all entries that lie below `dir`.
pub open spec fn size_below(tree: Seq<Node>, dir: Seq<Component>) -> nat {
    sums::total(tree, share_of(dir))
}

/// Entry `i` is a directory, and the last one with its path.
pub open spec fn stands_for_dir(tree: Seq<Node>, i: int) -> bool {
    &&& tree[i].kind is Dir
    &&& forall|j: int|
        i < j < tree.len() && (#[trigger] tree[j]).kind is Dir ==> paths::components(tree[j].path)
            != paths::components(tree[i].path)
}

/// What entry `i` gains.
pub open spec fn gain(tree: Seq<Node>, i: int) -> nat {
    if stands_for_dir(tree, i) {
        size_below(tree, paths::components(tree[i].path))
    } else {
        0
    }
}

/// The tree with all gains added.
pub open spec fn accumulated(tree: Seq<Node>) -> Seq<Node> {
    Seq::new(
        tree.len(),
        |i: int| Node { size: (tree[i].size + gain(tree, i)) as u64, ..tree[i] },
    )
}

// ── Laws ────────────────────────────────────────────────────────────────

proof fn lemma_shares_grow(tree: Seq<Node>, above: Seq<Component>, below: Seq<Component>)
    requires
        paths::is_ancestor(above, below),
    ensures
        size_below(tree, below) <= size_below(tree, above),
    decreases tree.len(),
{
    if tree.len() > 0 {
        lemma_shares_grow(tree.drop_last(), above, below);
        let c = paths::components(tree.last().path);
        if paths::is_ancestor(below, c) {
            lemma_ancestor_transitive(above, below, c);
        }
    }
}

proof fn lemma_ancestor_transitive(a: Seq<Component>, b: Seq<Component>, c: Seq<Component>)
    requires
        paths::is_ancestor(a, b),
        paths::is_ancestor(b, c),
    ensures
        paths::is_ancestor(a, c),
{
    assert forall|i: int| 0 <= i < b.len() implies #[trigger] b[i] == c[i] by {
        assert(c.subrange(0, b.len() as int)[i] == c[i]);
    }
    assert(a =~= c.subrange(0, a.len() as int));
}

/// A directory outweighs whatever lies in it: what lies below the directory is at least an
/// entry in it together with all that lies below that entry.
pub proof fn directory_outweighs_its_entries(tree: Seq<Node>, dir: Seq<Component>, i: int)
    requires
        0 <= i < tree.len(),
        paths::is_ancestor(dir, paths::components(tree[i].path)),
    ensures
        size_below(tree, dir) >= tree[i].size + size_below(
            tree,
            paths::components(tree[i].path),
        ),
{
    let c = paths::components(tree[i].path);
    sums::lemma_total_remove(tree, i, share_of(dir));
    sums::lemma_total_remove(tree, i, share_of(c));
    lemma_shares_grow(tree.remove(i), dir, c);
}

/// Nothing is lost or made up at the top: a directory above all entries weighs as much as all
/// of them.
pub proof fn top_weighs_everything(tree: Seq<Node>, dir: Seq<Component>)
    requires
        forall|i: int|
            0 <= i < tree.len() ==> paths::is_ancestor(
                dir,
                paths::components(#[trigger] tree[i].path),
            ),
    ensures
        size_below(tree, dir) == sums::total(tree, |n: Node| n.size as nat),
{
    let size = |n: Node| n.size as nat;
    assert forall|i: int| 0 <= i < tree.len() implies #[trigger] share_of(dir)(tree[i]) == size(
        tree[i],
    ) by {
        assert(paths::is_ancestor(dir, paths::components(tree[i].path)));
    }
    sums::lemma_total_pointwise(tree, tree, share_of(dir), size);
}

/// The order of the entries does not matter for what a directory gains.
pub proof fn entry_order_does_not_matter(a: Seq<Node>, b: Seq<Node>, dir: Seq<Component>)
    requires
        a.to_multiset() == b.to_multiset(),
    ensures
        size_below(a, dir) == size_below(b, dir),
{
    sums::lemma_total_permutation(a, b, share_of(dir));
}

// ── Sorted paths ────────────────────────────────────────────────────────

/// The paths of the entries in the order that `order` gives.
spec fn paths_in(tree: Seq<TreeEntry>, order: Seq<usize>) -> Seq<Seq<Component>> {
    Seq::new(order.len(), |m: int| paths::components(tree[order[m] as int].path@))
}

spec fn rising(ps: Seq<Seq<Component>>) -> bool {
    forall|i: int, j: int|
        0 <= i < j < ps.len() ==> #[trigger] ps[i] == #[trigger] ps[j] || paths::path_before(
            ps[i],
            ps[j],
        )
}

proof fn lemma_rising(tree: Seq<TreeEntry>, order: Seq<usize>)
    requires
        order::is_arranged::<TreeEntry, ByPath>(tree, order::positions(tree.len()), order),
    ensures
        rising(paths_in(tree, order)),
{
    let ps = paths_in(tree, order);
    assert forall|i: int, j: int| 0 <= i < j < ps.len() implies #[trigger] ps[i]
        == #[trigger] ps[j] || paths::path_before(ps[i], ps[j]) by {
        assert(order::goes_first::<TreeEntry, ByPath>(tree, order[i], order[j]));
        paths::path_order_is_total(ps[i], ps[j]);
    }
}

/// Paths on the two sides of a step are apart.
proof fn lemma_apart(ps: Seq<Seq<Component>>, i: int, step: int, j: int)
    requires
        rising(ps),
        0 <= i < step <= j < ps.len(),
        ps[step - 1] != ps[step],
    ensures
        paths::path_before(ps[i], ps[j]),
        ps[i] != ps[j],
{
    let a = ps[i];
    let b = ps[step - 1];
    let c = ps[step];
    let d = ps[j];
    assert(paths::path_before(b, c));
    if i < step - 1 && a != b {
        paths::path_order_is_transitive(a, b, c);
    }
    assert(paths::path_before(a, c));
    if step < j && c != d {
        paths::path_order_is_transitive(a, c, d);
    }
    paths::path_order_is_total(a, d);
}

/// What comes after a relative path is relative.
proof fn lemma_relative_after(x: Seq<Component>, y: Seq<Component>)
    requires
        x.len() > 0,
        x[0] != Component::RootDir,
        x == y || paths::path_before(x, y),
    ensures
        y.len() > 0,
        y[0] != Component::RootDir,
{
    paths::path_order_is_total(x, y);
    if y.len() == 0 {
        assert(crate::lex::lex_at(y, x, paths::component_lt(), 0));
    } else if y[0] == Component::RootDir {
        assert(crate::lex::lex_at(y, x, paths::component_lt(), 0));
    }
}

/// Where the run of equal paths that starts at `k` ends.
fn run_end(tree: &[TreeEntry], order: &Vec<usize>, k: usize) -> (end: usize)
    requires
        k < order@.len(),
        forall|i: int| 0 <= i < order@.len() ==> #[trigger] order@[i] < tree@.len(),
    ensures
        k < end <= order@.len(),
        forall|m: int|
            k <= m < end ==> #[trigger] paths_in(tree@, order@)[m] == paths_in(
                tree@,
                order@,
            )[k as int],
        end < order@.len() ==> paths_in(tree@, order@)[end - 1] != paths_in(
            tree@,
            order@,
        )[end as int],
{
    assert(order@.len() == order.len());
    let mut end: usize = k + 1;
    while end < order.len()
        invariant
            k < end <= order@.len(),
            forall|i: int| 0 <= i < order@.len() ==> #[trigger] order@[i] < tree@.len(),
            forall|m: int|
                k <= m < end ==> #[trigger] paths_in(tree@, order@)[m] == paths_in(
                    tree@,
                    order@,
                )[k as int],
        decreases order@.len() - end,
    {
        match lead(tree[order[end - 1]].path.as_slice(), tree[order[end]].path.as_slice()) {
            Lead::Same => {},
            _ => {
                return end;
            },
        }
        assert(paths_in(tree@, order@)[end - 1] == paths_in(tree@, order@)[k as int]);
        end = end + 1;
    }
    end
}

/// Where the entries end that have the path at `k` as a prefix; from `from` on some may.
fn subtree_end(tree: &[TreeEntry], order: &Vec<usize>, k: usize, from: usize) -> (end: usize)
    requires
        k < from <= order@.len(),
        forall|i: int| 0 <= i < order@.len() ==> #[trigger] order@[i] < tree@.len(),
        rising(paths_in(tree@, order@)),
    ensures
        from <= end <= order@.len(),
        forall|m: int|
            from <= m < end ==> paths_in(tree@, order@)[k as int].is_prefix_of(
                #[trigger] paths_in(tree@, order@)[m],
            ),
        forall|m: int|
            end <= m < order@.len() ==> !paths_in(tree@, order@)[k as int].is_prefix_of(
                #[trigger] paths_in(tree@, order@)[m],
            ),
{
    let ghost ps = paths_in(tree@, order@);
    let mut lo: usize = from;
    let mut hi: usize = order.len();
    while lo < hi
        invariant
            k < from <= lo <= hi <= order@.len(),
            ps == paths_in(tree@, order@),
            rising(ps),
            forall|i: int| 0 <= i < order@.len() ==> #[trigger] order@[i] < tree@.len(),
            forall|m: int| from <= m < lo ==> ps[k as int].is_prefix_of(#[trigger] ps[m]),
            forall|m: int|
                hi <= m < order@.len() ==> !ps[k as int].is_prefix_of(#[trigger] ps[m]),
        decreases hi - lo,
    {
        let mid: usize = lo + (hi - lo) / 2;
        let found = lead(tree[order[k]].path.as_slice(), tree[order[mid]].path.as_slice());
        let inside: bool = match found {
            Lead::Apart => false,
            _ => true,
        };
        proof {
            assert(ps[k as int] == ps[mid as int] ==> ps[k as int] =~= ps[mid as int].subrange(
                0,
                ps[k as int].len() as int,
            ));
            assert(inside == ps[k as int].is_prefix_of(ps[mid as int]));
        }
        if inside {
            assert forall|m: int| from <= m < mid + 1 implies ps[k as int].is_prefix_of(
                #[trigger] ps[m],
            ) by {
                if m < mid {
                    assert(ps[k as int] == ps[m] || paths::path_before(ps[k as int], ps[m]));
                    assert(ps[m] == ps[mid as int] || paths::path_before(ps[m], ps[mid as int]));
                    paths::subtree_is_contiguous(ps[k as int], ps[m], ps[mid as int]);
                }
            }
            lo = mid + 1;
        } else {
            assert forall|m: int| mid <= m < order@.len() implies !ps[k as int].is_prefix_of(
                #[trigger] ps[m],
            ) by {
                if m > mid && ps[k as int].is_prefix_of(ps[m]) {
                    assert(ps[k as int] == ps[mid as int] || paths::path_before(
                        ps[k as int],
                        ps[mid as int],
                    ));
                    assert(ps[mid as int] == ps[m] || paths::path_before(ps[mid as int], ps[m]));
                    paths::subtree_is_contiguous(ps[k as int], ps[mid as int], ps[m]);
                }
            }
            hi = mid;
        }
    }
    lo
}

// ── Sums over sorted entries ────────────────────────────────────────────

spec fn size_at(tree: Seq<Node>) -> spec_fn(usize) -> nat {
    |i: usize| tree[i as int].size as nat
}

spec fn share_at(tree: Seq<Node>, dir: Seq<Component>) -> spec_fn(usize) -> nat {
    |i: usize| share_of(dir)(tree[i as int])
}

/// Where `g` is zero outside a window and the same as `h` inside, it adds up to what `h`
/// gives over the window.
proof fn lemma_window(
    s: Seq<usize>,
    g: spec_fn(usize) -> nat,
    h: spec_fn(usize) -> nat,
    start: int,
    end: int,
    k: int,
)
    requires
        0 <= start <= end <= s.len(),
        0 <= k <= s.len(),
        forall|m: int|
            0 <= m < s.len() ==> g(#[trigger] s[m]) == (if start <= m < end {
                h(s[m])
            } else {
                0
            }),
    ensures
        sums::total(s.take(k), g) + sums::total(s.take(if k < start {
            k
        } else {
            start
        }), h) == sums::total(s.take(if k < end {
            k
        } else {
            end
        }), h),
    decreases k,
{
    if k > 0 {
        lemma_window(s, g, h, start, end, k - 1);
        sums::lemma_total_step(s, k - 1, g);
        sums::lemma_total_step(s, k - 1, h);
        assert(g(s[k - 1]) == (if start <= k - 1 < end {
            h(s[k - 1])
        } else {
            0
        }));
    }
}

/// What lies below a directory, as a sum over a window of the sorted entries.
proof fn lemma_size_in_window(
    tree: Seq<Node>,
    dir: Seq<Component>,
    order: Seq<usize>,
    start: int,
    end: int,
)
    requires
        order.to_multiset() == order::positions(tree.len()).to_multiset(),
        order.len() == tree.len() <= usize::MAX,
        0 <= start <= end <= order.len(),
        forall|m: int|
            0 <= m < order.len() ==> paths::is_ancestor(
                dir,
                paths::components(tree[#[trigger] order[m] as int].path),
            ) == (start <= m < end),
    ensures
        size_below(tree, dir) + sums::total(order.take(start), size_at(tree)) == sums::total(
            order.take(end),
            size_at(tree),
        ),
{
    let g = share_at(tree, dir);
    let all = order::positions(tree.len());
    lemma_window(order, g, size_at(tree), start, end, order.len() as int);
    assert(order.take(order.len() as int) =~= order);
    sums::lemma_total_permutation(order, all, g);
    assert forall|i: int| 0 <= i < all.len() implies #[trigger] g(all[i]) == share_of(dir)(
        tree[i],
    ) by {}
    sums::lemma_total_pointwise(all, tree, g, share_of(dir));
}

/// The running sums of the sizes of sorted entries.
fn running_sums(tree: &[TreeEntry], order: &Vec<usize>) -> (sums: Vec<u128>)
    requires
        forall|i: int| 0 <= i < order@.len() ==> #[trigger] order@[i] < tree@.len(),
    ensures
        sums@.len() == order@.len() + 1,
        forall|k: int|
            0 <= k <= order@.len() ==> #[trigger] sums@[k] == sums::total(
                order@.take(k),
                size_at(scan::nodes(tree@)),
            ),
{
    let ghost f = size_at(scan::nodes(tree@));
    let mut sums: Vec<u128> = Vec::new();
    let mut sum: u128 = 0;
    sums.push(sum);
    let mut k: usize = 0;
    assert(order@.len() == order.len());
    assert(order@.take(0).len() == 0);
    while k < order.len()
        invariant
            k <= order@.len(),
            order@.len() <= usize::MAX,
            f == size_at(scan::nodes(tree@)),
            forall|i: int| 0 <= i < order@.len() ==> #[trigger] order@[i] < tree@.len(),
            sums@.len() == k + 1,
            sum == sums::total(order@.take(k as int), f),
            sum <= k * u64::MAX,
            forall|m: int| 0 <= m <= k ==> #[trigger] sums@[m] == sums::total(order@.take(m), f),
        decreases order@.len() - k,
    {
        let size: u64 = tree[order[k]].size;
        proof {
            sums::lemma_total_step(order@, k as int, f);
            assert(f(order@[k as int]) == size);
            assert(k * u64::MAX <= usize::MAX * u64::MAX) by (nonlinear_arith)
                requires
                    k <= usize::MAX,
            ;
            assert((k + 1) * u64::MAX == k * u64::MAX + u64::MAX) by (nonlinear_arith);
            assert(usize::MAX * u64::MAX + u64::MAX <= u128::MAX) by (nonlinear_arith)
                requires
                    usize::MAX <= u64::MAX,
            ;
        }
        sum = sum + size as u128;
        sums.push(sum);
        k = k + 1;
    }
    sums
}

// ── Gains ───────────────────────────────────────────────────────────────

/// A run of equal paths in a sorted tree.
spec fn is_run(ps: Seq<Seq<Component>>, k: int, end: int) -> bool {
    &&& 0 <= k < end <= ps.len()
    &&& forall|m: int| k <= m < end ==> #[trigger] ps[m] == ps[k]
    &&& k > 0 ==> ps[k - 1] != ps[k]
    &&& end < ps.len() ==> ps[end - 1] != ps[end]
}

/// What lies below the path of a run.
fn weigh_run(
    tree: &[TreeEntry],
    order: &Vec<usize>,
    sums: &Vec<u128>,
    k: usize,
    end: usize,
) -> (size: u128)
    requires
        order::is_arranged::<TreeEntry, ByPath>(tree@, order::positions(tree@.len()), order@),
        is_run(paths_in(tree@, order@), k as int, end as int),
        sums@.len() == order@.len() + 1,
        forall|m: int|
            0 <= m <= order@.len() ==> #[trigger] sums@[m] == sums::total(
                order@.take(m),
                size_at(scan::nodes(tree@)),
            ),
    ensures
        size == size_below(scan::nodes(tree@), paths_in(tree@, order@)[k as int]),
{
    let ghost ps = paths_in(tree@, order@);
    let ghost dir = ps[k as int];
    proof {
        let n = tree.len();
        assert(n == tree@.len());
        order::lemma_arranged::<TreeEntry, ByPath>(tree@, order@);
        lemma_rising(tree@, order@);
    }
    let last: usize = subtree_end(tree, order, k, end);
    let mut first: usize = end;
    while first < last && !leads_to(
        tree[order[k]].path.as_slice(),
        tree[order[first]].path.as_slice(),
    )
        invariant
            k < end <= first <= last <= order@.len(),
            ps == paths_in(tree@, order@),
            dir == ps[k as int],
            forall|i: int| 0 <= i < order@.len() ==> #[trigger] order@[i] < tree@.len(),
            forall|m: int| end <= m < first ==> !paths::is_ancestor(dir, #[trigger] ps[m]),
        ensures
            first < last ==> paths::is_ancestor(dir, ps[first as int]),
            first <= last,
            forall|m: int| end <= m < first ==> !paths::is_ancestor(dir, #[trigger] ps[m]),
        decreases last - first,
    {
        first = first + 1;
    }
    proof {
        assert forall|m: int| 0 <= m < order@.len() implies paths::is_ancestor(
            dir,
            paths::components(scan::nodes(tree@)[#[trigger] order@[m] as int].path),
        ) == (first <= m < last) by {
            assert(paths::components(scan::nodes(tree@)[order@[m] as int].path) == ps[m]);
            lemma_in_window(ps, k as int, end as int, first as int, last as int, m);
        }
        lemma_size_in_window(scan::nodes(tree@), dir, order@, first as int, last as int);
    }
    sums[last] - sums[first]
}

proof fn lemma_in_window(
    ps: Seq<Seq<Component>>,
    k: int,
    end: int,
    first: int,
    last: int,
    m: int,
)
    requires
        rising(ps),
        is_run(ps, k, end),
        end <= first <= last <= ps.len(),
        0 <= m < ps.len(),
        forall|i: int| end <= i < last ==> ps[k].is_prefix_of(#[trigger] ps[i]),
        forall|i: int| last <= i < ps.len() ==> !ps[k].is_prefix_of(#[trigger] ps[i]),
        forall|i: int| end <= i < first ==> !paths::is_ancestor(ps[k], #[trigger] ps[i]),
        first < last ==> paths::is_ancestor(ps[k], ps[first]),
    ensures
        paths::is_ancestor(ps[k], ps[m]) == (first <= m < last),
{
    let dir = ps[k];
    if m < k {
        lemma_apart(ps, m, k, k);
        paths::path_order_is_total(ps[m], dir);
        if paths::is_ancestor(dir, ps[m]) {
            paths::ancestor_comes_first(dir, ps[m]);
        }
    } else if m < end {
        assert(ps[m] == dir);
    } else if first <= m < last {
        lemma_apart(ps, k, end, m);
        assert(dir.is_prefix_of(ps[m]));
        if dir.len() == ps[m].len() {
            assert(dir =~= ps[m]);
        }
        if dir.len() == 0 {
            assert(ps[first] == ps[m] || paths::path_before(ps[first], ps[m]));
            lemma_relative_after(ps[first], ps[m]);
        }
    }
}

/// The last directory of a run.
fn last_dir(tree: &[TreeEntry], order: &Vec<usize>, k: usize, end: usize) -> (found: Option<usize>)
    requires
        k <= end <= order@.len(),
        forall|i: int| 0 <= i < order@.len() ==> #[trigger] order@[i] < tree@.len(),
    ensures
        match found {
            Some(d) => k <= d < end && tree@[order@[d as int] as int].kind is Dir && forall|m: int|
                d < m < end ==> !(tree@[#[trigger] order@[m] as int].kind is Dir),
            None => forall|m: int|
                k <= m < end ==> !(tree@[#[trigger] order@[m] as int].kind is Dir),
        },
{
    let mut m: usize = end;
    while m > k
        invariant
            k <= m <= end <= order@.len(),
            forall|i: int| 0 <= i < order@.len() ==> #[trigger] order@[i] < tree@.len(),
            forall|i: int| m <= i < end ==> !(tree@[#[trigger] order@[i] as int].kind is Dir),
        decreases m,
    {
        m = m - 1;
        match tree[order[m]].kind {
            EntryKind::Dir => {
                return Some(m);
            },
            _ => {},
        }
    }
    None
}

/// Which entry of a run stands for the directory.
proof fn lemma_run_dir(tree: Seq<TreeEntry>, order: Seq<usize>, k: int, end: int, m: int)
    requires
        order::is_arranged::<TreeEntry, ByPath>(tree, order::positions(tree.len()), order),
        tree.len() <= usize::MAX,
        is_run(paths_in(tree, order), k, end),
        k <= m < end,
    ensures
        stands_for_dir(scan::nodes(tree), order[m] as int) == (tree[order[m] as int].kind is Dir
            && forall|i: int|
            m < i < end ==> !(tree[#[trigger] order[i] as int].kind is Dir)),
{
    let ns = scan::nodes(tree);
    let ps = paths_in(tree, order);
    let f = order[m] as int;
    order::lemma_arranged::<TreeEntry, ByPath>(tree, order);
    lemma_rising(tree, order);
    assert(ps[m] == paths::components(ns[f].path));
    assert forall|i: int|
        m < i < end && tree[#[trigger] order[i] as int].kind is Dir implies !stands_for_dir(
        ns,
        f,
    ) by {
        assert(order::goes_first::<TreeEntry, ByPath>(tree, order[m], order[i]));
        assert(ps[i] == ps[k] && ps[m] == ps[k]);
        lemma_same_rank(tree, order[m] as int, order[i] as int);
        assert(f < order[i]);
        assert(ns[order[i] as int].kind is Dir);
    }
    if tree[f].kind is Dir && forall|i: int|
        m < i < end ==> !(tree[#[trigger] order[i] as int].kind is Dir) {
        assert forall|j: int|
            f < j < ns.len() && (#[trigger] ns[j]).kind is Dir implies paths::components(
            ns[j].path,
        ) != paths::components(ns[f].path) by {
            assert(order.contains(j as usize));
            let i = choose|i: int| 0 <= i < order.len() && order[i] == j as usize;
            assert(ps[i] == paths::components(ns[j].path));
            assert(ps[m] == ps[k]);
            if ps[i] == ps[m] {
                if i < k {
                    lemma_apart(ps, i, k, k);
                } else if i >= end {
                    lemma_apart(ps, k, end, i);
                } else if i < m {
                    assert(order::goes_first::<TreeEntry, ByPath>(tree, order[i], order[m]));
                    lemma_same_rank(tree, order[i] as int, order[m] as int);
                } else if i > m {
                    assert(!(tree[order[i] as int].kind is Dir));
                }
            }
        }
    }
}

proof fn lemma_same_rank(tree: Seq<TreeEntry>, i: int, j: int)
    requires
        paths::components(tree[i].path@) == paths::components(tree[j].path@),
    ensures
        <ByPath as order::Rank<TreeEntry>>::in_order(tree[j], tree[i]),
{
    paths::path_order_is_total(
        paths::components(tree[i].path@),
        paths::components(tree[j].path@),
    );
}

/// What every entry gains.
fn gains(tree: &[TreeEntry]) -> (gains: Vec<u128>)
    ensures
        gains@.len() == tree@.len(),
        forall|i: int| 0 <= i < tree@.len() ==> #[trigger] gains@[i] == gain(scan::nodes(tree@), i),
{
    let ghost ns = scan::nodes(tree@);
    let order = arrange_all::<TreeEntry, ByPath>(tree);
    let ghost ps = paths_in(tree@, order@);
    proof {
        let n = tree.len();
        assert(n == tree@.len());
        order::lemma_arranged::<TreeEntry, ByPath>(tree@, order@);
        lemma_rising(tree@, order@);
    }
    let sums = running_sums(tree, &order);
    let mut gains: Vec<u128> = Vec::new();
    let mut i: usize = 0;
    while i < tree.len()
        invariant
            i <= tree@.len(),
            gains@.len() == i,
            forall|m: int| 0 <= m < i ==> #[trigger] gains@[m] == 0,
        decreases tree@.len() - i,
    {
        gains.push(0);
        i = i + 1;
    }
    let mut k: usize = 0;
    while k < order.len()
        invariant
            k <= order@.len(),
            order@.len() == tree@.len(),
            tree@.len() <= usize::MAX,
            gains@.len() == tree@.len(),
            ns == scan::nodes(tree@),
            ps == paths_in(tree@, order@),
            rising(ps),
            order::is_arranged::<TreeEntry, ByPath>(tree@, order::positions(tree@.len()), order@),
            forall|i: int| 0 <= i < order@.len() ==> #[trigger] order@[i] < tree@.len(),
            forall|i: int, j: int| 0 <= i < j < order@.len() ==> order@[i] != order@[j],
            sums@.len() == order@.len() + 1,
            forall|m: int|
                0 <= m <= order@.len() ==> #[trigger] sums@[m] == sums::total(
                    order@.take(m),
                    size_at(ns),
                ),
            0 < k < order@.len() ==> ps[k - 1] != ps[k as int],
            forall|m: int|
                0 <= m < k ==> gains@[#[trigger] order@[m] as int] == gain(
                    ns,
                    order@[m] as int,
                ),
            forall|m: int| k <= m < order@.len() ==> gains@[#[trigger] order@[m] as int] == 0,
        decreases order@.len() - k,
    {
        let end: usize = run_end(tree, &order, k);
        let ghost before = gains@;
        assert(is_run(ps, k as int, end as int));
        let found = last_dir(tree, &order, k, end);
        proof {
            assert forall|m: int| k <= m < end implies stands_for_dir(
                ns,
                #[trigger] order@[m] as int,
            ) == (found == Some(m as usize)) by {
                lemma_run_dir(tree@, order@, k as int, end as int, m);
                if let Some(d) = found {
                    assert(order@[d as int] < tree@.len());
                }
            }
        }
        if let Some(d) = found {
            proof {
                assert(stands_for_dir(ns, order@[d as int] as int));
                assert(paths::components(ns[order@[d as int] as int].path) == ps[d as int]);
                assert(gain(ns, order@[d as int] as int) == size_below(ns, ps[k as int]));
            }
            let size: u128 = weigh_run(tree, &order, &sums, k, end);
            gains.set(order[d], size);
        }
        proof {
            assert forall|m: int| 0 <= m < end implies gains@[#[trigger] order@[m] as int] == gain(
                ns,
                order@[m] as int,
            ) by {
                if m < k {
                    assert(before[order@[m] as int] == gain(ns, order@[m] as int));
                } else {
                    assert(stands_for_dir(ns, order@[m] as int) == (found == Some(m as usize)));
                    assert(before[order@[m] as int] == 0);
                }
            }
        }
        k = end;
    }
    proof {
        assert forall|i: int| 0 <= i < tree@.len() implies #[trigger] gains@[i] == gain(
            ns,
            i,
        ) by {
            assert(order@.contains(i as usize));
            let m = choose|m: int| 0 <= m < order@.len() && order@[m] == i as usize;
            assert(gains@[order@[m] as int] == gain(ns, order@[m] as int));
        }
    }
    gains
}

/// Every size with its gain fits its field.
pub open spec fn sizes_fit(tree: Seq<Node>) -> bool {
    forall|i: int| 0 <= i < tree.len() ==> tree[i].size + #[trigger] gain(tree, i) <= u64::MAX
}

/// Whether the sizes of a tree can be accumulated.
pub fn can_accumulate(tree: &[TreeEntry]) -> (fit: bool)
    ensures
        fit == sizes_fit(scan::nodes(tree@)),
{
    let ghost ns = scan::nodes(tree@);
    let gains = gains(tree);
    let mut i: usize = 0;
    while i < tree.len()
        invariant
            i <= tree@.len(),
            ns == scan::nodes(tree@),
            gains@.len() == ns.len(),
            forall|m: int| 0 <= m < ns.len() ==> #[trigger] gains@[m] == gain(ns, m),
            forall|m: int| 0 <= m < i ==> ns[m].size + #[trigger] gain(ns, m) <= u64::MAX,
        decreases tree@.len() - i,
    {
        assert(gains@[i as int] == gain(ns, i as int));
        if gains[i] > (u64::MAX - tree[i].size) as u128 {
            return false;
        }
        i = i + 1;
    }
    true
}

/// Adds to every directory the sizes of all that lies below it.
fn accumulate_dir_sizes(entries: &mut [TreeEntry])
    requires
        sizes_fit(scan::nodes(old(entries)@)),
    ensures
        scan::nodes(final(entries)@) == accumulated(scan::nodes(old(entries)@)),
{
    let ghost ns = scan::nodes(entries@);
    let gains = gains(entries);
    let mut i: usize = 0;
    while i < entries.len()
        invariant
            i <= entries@.len(),
            entries@.len() == old(entries)@.len(),
            ns == scan::nodes(old(entries)@),
            sizes_fit(ns),
            gains@.len() == ns.len(),
            forall|m: int| 0 <= m < ns.len() ==> #[trigger] gains@[m] == gain(ns, m),
            forall|m: int| 0 <= m < i ==> (#[trigger] entries@[m])@ == accumulated(ns)[m],
            forall|m: int| i <= m < entries@.len() ==> entries@[m] == #[trigger] old(entries)@[m],
        decreases entries@.len() - i,
    {
        assert(entries@[i as int] == old(entries)@[i as int]);
        assert(gains@[i as int] == gain(ns, i as int));
        entries[i].size = entries[i].size + gains[i] as u64;
        i = i + 1;
    }
    assert(scan::nodes(entries@) =~= accumulated(ns));
}

/// Adds to every directory of a tree the sizes of all that lies below it.
pub fn accumulate_tree(tree: &mut [TreeEntry])
    requires
        sizes_fit(scan::nodes(old(tree)@)),
    ensures
        scan::nodes(final(tree)@) == accumulated(scan::nodes(old(tree)@)),
{
    accumulate_dir_sizes(tree);
}

} // verus!
