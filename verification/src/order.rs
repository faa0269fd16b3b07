//! Stable sorting.

use vstd::prelude::*;

verus! {

/// An order on items, given as "`a` need not stand after `b`".
pub trait Rank<T> {
    spec fn in_order(a: T, b: T) -> bool;

    proof fn lemma_in_order(a: T, b: T, c: T)
        ensures
            Self::in_order(a, b) || Self::in_order(b, a),
            Self::in_order(a, b) && Self::in_order(b, c) ==> Self::in_order(a, c),
    ;

    fn need_not_follow(a: &T, b: &T) -> (r: bool)
        ensures
            r == Self::in_order(*a, *b),
    ;
}

/// Item `i` stands before item `j`: it ranks first, or ranks the same and came first.
pub open spec fn goes_first<T, R: Rank<T>>(items: Seq<T>, i: usize, j: usize) -> bool {
    let a = items[i as int];
    let b = items[j as int];
    R::in_order(a, b) && (R::in_order(b, a) ==> i < j)
}

/// The indices `0..n`.
pub open spec fn positions(n: nat) -> Seq<usize> {
    Seq::new(n, |i: int| i as usize)
}

pub open spec fn increasing(s: Seq<usize>) -> bool {
    forall|i: int, j: int| 0 <= i < j < s.len() ==> s[i] < s[j]
}

/// `order` holds the indices `picks`, and the items stand in it as they rank.
pub open spec fn is_arranged<T, R: Rank<T>>(
    items: Seq<T>,
    picks: Seq<usize>,
    order: Seq<usize>,
) -> bool {
    &&& order.to_multiset() == picks.to_multiset()
    &&& forall|i: int, j: int|
        0 <= i < j < order.len() ==> goes_first::<T, R>(items, #[trigger] order[i], #[trigger] order[j])
}

/// `sorted` is `items` rearranged by rank, items of the same rank in their old order.
pub open spec fn is_sorted_from<T, R: Rank<T>>(items: Seq<T>, sorted: Seq<T>) -> bool {
    exists|order: Seq<usize>| #[trigger]
        is_arranged::<T, R>(items, positions(items.len()), order) && is_permuted(
            items,
            order,
            sorted,
        )
}

/// `permuted` lists the items as `order` says.
pub open spec fn is_permuted<T>(items: Seq<T>, order: Seq<usize>, permuted: Seq<T>) -> bool {
    &&& permuted.len() == order.len()
    &&& forall|i: int| 0 <= i < order.len() ==> permuted[i] == items[#[trigger] order[i] as int]
}

proof fn lemma_arranged_bounds<T, R: Rank<T>>(items: Seq<T>, picks: Seq<usize>, order: Seq<usize>)
    requires
        is_arranged::<T, R>(items, picks, order),
    ensures
        order.len() == picks.len(),
        forall|i: int| 0 <= i < order.len() ==> picks.contains(#[trigger] order[i]),
        forall|i: int| 0 <= i < picks.len() ==> order.contains(#[trigger] picks[i]),
{
    broadcast use vstd::seq_lib::group_to_multiset_ensures;

    assert(order.to_multiset().len() == picks.to_multiset().len());
    assert forall|i: int| 0 <= i < order.len() implies picks.contains(#[trigger] order[i]) by {
        assert(order.contains(order[i]));
        assert(order.to_multiset().count(order[i]) > 0);
    }
    assert forall|i: int| 0 <= i < picks.len() implies order.contains(#[trigger] picks[i]) by {
        assert(picks.contains(picks[i]));
        assert(picks.to_multiset().count(picks[i]) > 0);
    }
}

/// What an arrangement holds, and that nothing occurs in it twice.
pub proof fn lemma_arranged<T, R: Rank<T>>(items: Seq<T>, order: Seq<usize>)
    requires
        is_arranged::<T, R>(items, positions(items.len()), order),
        items.len() <= usize::MAX,
    ensures
        order.len() == items.len(),
        forall|i: int| 0 <= i < order.len() ==> #[trigger] order[i] < items.len(),
        forall|k: int| 0 <= k < items.len() ==> order.contains(#[trigger] (k as usize)),
        forall|i: int, j: int| 0 <= i < j < order.len() ==> order[i] != order[j],
{
    let picks = positions(items.len());
    lemma_arranged_bounds::<T, R>(items, picks, order);
    assert forall|k: int| 0 <= k < items.len() implies order.contains(#[trigger] (k as usize)) by {
        assert(picks[k] == k as usize);
    }
    assert forall|i: int| 0 <= i < order.len() implies #[trigger] order[i] < items.len() by {
        assert(picks.contains(order[i]));
    }
}

fn merge<T, R: Rank<T>>(items: &[T], left: &Vec<usize>, right: &Vec<usize>) -> (order: Vec<usize>)
    requires
        forall|i: int| 0 <= i < left@.len() ==> #[trigger] left@[i] < items@.len(),
        forall|i: int| 0 <= i < right@.len() ==> #[trigger] right@[i] < items@.len(),
        forall|i: int, j: int|
            0 <= i < left@.len() && 0 <= j < right@.len() ==> left@[i] < right@[j],
        forall|i: int, j: int|
            0 <= i < j < left@.len() ==> goes_first::<T, R>(items@, #[trigger] left@[i], #[trigger] left@[j]),
        forall|i: int, j: int|
            0 <= i < j < right@.len() ==> goes_first::<T, R>(items@, #[trigger] right@[i], #[trigger] right@[j]),
    ensures
        is_arranged::<T, R>(items@, left@ + right@, order@),
{
    broadcast use vstd::seq_lib::group_to_multiset_ensures;

    let mut order: Vec<usize> = Vec::with_capacity(left.len());
    let mut i: usize = 0;
    let mut j: usize = 0;
    assert(left@.take(0) + right@.take(0) =~= Seq::<usize>::empty());
    while i < left.len() || j < right.len()
        invariant
            i <= left@.len(),
            j <= right@.len(),
            order@.len() == i + j,
            order@.to_multiset() == (left@.take(i as int) + right@.take(j as int)).to_multiset(),
            forall|a: int| 0 <= a < left@.len() ==> #[trigger] left@[a] < items@.len(),
            forall|a: int| 0 <= a < right@.len() ==> #[trigger] right@[a] < items@.len(),
            forall|a: int, b: int|
                0 <= a < left@.len() && 0 <= b < right@.len() ==> left@[a] < right@[b],
            forall|a: int, b: int|
                0 <= a < b < left@.len() ==> goes_first::<T, R>(items@, #[trigger] left@[a], #[trigger] left@[b]),
            forall|a: int, b: int|
                0 <= a < b < right@.len() ==> goes_first::<T, R>(items@, #[trigger] right@[a], #[trigger] right@[b]),
            forall|a: int, b: int|
                0 <= a < b < order@.len() ==> goes_first::<T, R>(items@, #[trigger] order@[a], #[trigger] order@[b]),
            forall|a: int, b: int|
                0 <= a < order@.len() && i <= b < left@.len() ==> goes_first::<T, R>(
                    items@,
                    #[trigger] order@[a],
                    #[trigger] left@[b],
                ),
            forall|a: int, b: int|
                0 <= a < order@.len() && j <= b < right@.len() ==> goes_first::<T, R>(
                    items@,
                    #[trigger] order@[a],
                    #[trigger] right@[b],
                ),
        decreases left@.len() - i + right@.len() - j,
    {
        let take_left: bool = if i >= left.len() {
            false
        } else if j >= right.len() {
            true
        } else {
            R::need_not_follow(&items[left[i]], &items[right[j]])
        };
        let ghost before = order@;
        if take_left {
            let x: usize = left[i];
            assert forall|b: int| j <= b < right@.len() implies goes_first::<T, R>(
                items@,
                x,
                #[trigger] right@[b],
            ) by {
                let y = right@[j as int];
                let z = right@[b];
                assert(x < z);
                R::lemma_in_order(items@[x as int], items@[y as int], items@[z as int]);
                if b > j {
                    assert(goes_first::<T, R>(items@, y, z));
                }
            }
            assert(left@.take(i + 1) =~= left@.take(i as int).push(x));
            assert((left@.take(i as int) + right@.take(j as int)).to_multiset().insert(x) =~= (
            left@.take(i + 1) + right@.take(j as int)).to_multiset()) by {
                let s = left@.take(i as int) + right@.take(j as int);
                assert(left@.take(i + 1) + right@.take(j as int) =~= s.insert(i as int, x));
                vstd::seq_lib::to_multiset_insert(s, i as int, x);
            }
            order.push(x);
            i = i + 1;
            proof {
                vstd::seq_lib::to_multiset_build(before, x);
            }
        } else {
            let x: usize = right[j];
            assert forall|b: int| i <= b < left@.len() implies goes_first::<T, R>(
                items@,
                x,
                #[trigger] left@[b],
            ) by {
                let y = left@[i as int];
                let z = left@[b];
                R::lemma_in_order(items@[x as int], items@[y as int], items@[z as int]);
                R::lemma_in_order(items@[y as int], items@[z as int], items@[x as int]);
                if b > i {
                    assert(goes_first::<T, R>(items@, y, z));
                }
            }
            assert(left@.take(i as int) + right@.take(j + 1) =~= (left@.take(i as int)
                + right@.take(j as int)).push(x));
            order.push(x);
            proof {
                vstd::seq_lib::to_multiset_build(before, x);
                vstd::seq_lib::to_multiset_build(left@.take(i as int) + right@.take(j as int), x);
            }
            j = j + 1;
        }
    }
    assert(left@.take(i as int) =~= left@);
    assert(right@.take(j as int) =~= right@);
    order
}

fn arrange_range<T, R: Rank<T>>(items: &[T], picks: &Vec<usize>, lo: usize, hi: usize) -> (order: Vec<usize>)
    requires
        lo <= hi <= picks@.len(),
        increasing(picks@),
        forall|i: int| 0 <= i < picks@.len() ==> #[trigger] picks@[i] < items@.len(),
    ensures
        is_arranged::<T, R>(items@, picks@.subrange(lo as int, hi as int), order@),
    decreases hi - lo,
{
    let ghost range = picks@.subrange(lo as int, hi as int);
    if hi - lo <= 1 {
        let mut order: Vec<usize> = Vec::new();
        if lo < hi {
            order.push(picks[lo]);
        }
        assert(order@ =~= range);
        return order;
    }
    let mid: usize = lo + (hi - lo) / 2;
    let left = arrange_range::<T, R>(items, picks, lo, mid);
    let right = arrange_range::<T, R>(items, picks, mid, hi);
    let ghost l = picks@.subrange(lo as int, mid as int);
    let ghost r = picks@.subrange(mid as int, hi as int);
    proof {
        lemma_arranged_bounds::<T, R>(items@, l, left@);
        lemma_arranged_bounds::<T, R>(items@, r, right@);
        assert forall|i: int| 0 <= i < left@.len() implies #[trigger] left@[i] < items@.len() by {
            assert(l.contains(left@[i]));
        }
        assert forall|i: int| 0 <= i < right@.len() implies #[trigger] right@[i]
            < items@.len() by {
            assert(r.contains(right@[i]));
        }
        assert forall|i: int, j: int|
            0 <= i < left@.len() && 0 <= j < right@.len() implies left@[i] < right@[j] by {
            assert(l.contains(left@[i]));
            assert(r.contains(right@[j]));
            let a = choose|a: int| 0 <= a < l.len() && l[a] == left@[i];
            let b = choose|b: int| 0 <= b < r.len() && r[b] == right@[j];
            assert(picks@[lo + a] < picks@[mid + b]);
        }
    }
    let order = merge::<T, R>(items, &left, &right);
    proof {
        vstd::seq_lib::lemma_multiset_commutative(left@, right@);
        vstd::seq_lib::lemma_multiset_commutative(l, r);
        assert(l + r =~= range);
    }
    order
}

/// The indices `picks` in the order in which their items rank.
pub fn arrange<T, R: Rank<T>>(items: &[T], picks: &Vec<usize>) -> (order: Vec<usize>)
    requires
        increasing(picks@),
        forall|i: int| 0 <= i < picks@.len() ==> #[trigger] picks@[i] < items@.len(),
    ensures
        is_arranged::<T, R>(items@, picks@, order@),
{
    let order = arrange_range::<T, R>(items, picks, 0, picks.len());
    assert(picks@.subrange(0, picks@.len() as int) =~= picks@);
    order
}

/// All indices of `items` in the order in which the items rank.
pub fn arrange_all<T, R: Rank<T>>(items: &[T]) -> (order: Vec<usize>)
    ensures
        is_arranged::<T, R>(items@, positions(items@.len()), order@),
{
    let mut picks: Vec<usize> = Vec::with_capacity(items.len());
    let mut i: usize = 0;
    while i < items.len()
        invariant
            i <= items@.len(),
            picks@ == positions(i as nat),
        decreases items@.len() - i,
    {
        picks.push(i);
        i = i + 1;
        assert(picks@ =~= positions(i as nat));
    }
    arrange::<T, R>(items, &picks)
}

/// Moves the items into the order that `order` gives; it names each index once.
pub(crate) fn permute<T>(items: Vec<T>, order: &Vec<usize>) -> (permuted: Vec<T>)
    requires
        forall|i: int| 0 <= i < order@.len() ==> #[trigger] order@[i] < items@.len(),
        forall|i: int, j: int| 0 <= i < j < order@.len() ==> order@[i] != order@[j],
    ensures
        is_permuted(items@, order@, permuted@),
{
    let ghost all = items@;
    let mut rest: Vec<T> = items;
    let mut slots: Vec<Option<T>> = Vec::with_capacity(rest.len());
    while rest.len() > 0
        invariant
            rest@ == all.take(rest@.len() as int),
            rest@.len() <= all.len(),
            slots@.len() == all.len() - rest@.len(),
            forall|i: int|
                0 <= i < slots@.len() ==> #[trigger] slots@[i] == Some(all[all.len() - 1 - i]),
        decreases rest@.len(),
    {
        let item = rest.pop();
        slots.push(item);
    }
    let n: usize = slots.len();
    let mut permuted: Vec<T> = Vec::with_capacity(order.len());
    let mut k: usize = 0;
    while k < order.len()
        invariant
            k <= order@.len(),
            n == all.len(),
            slots@.len() == n,
            permuted@.len() == k,
            forall|i: int| 0 <= i < order@.len() ==> #[trigger] order@[i] < n,
            forall|i: int, j: int| 0 <= i < j < order@.len() ==> order@[i] != order@[j],
            forall|i: int|
                k <= i < order@.len() ==> slots@[n - 1 - #[trigger] order@[i]] == Some(
                    all[order@[i] as int],
                ),
            forall|i: int| 0 <= i < k ==> permuted@[i] == all[#[trigger] order@[i] as int],
        decreases order@.len() - k,
    {
        let mut slot: Option<T> = None;
        assert(order@[k as int] < n);
        slots.set_and_swap(n - 1 - order[k], &mut slot);
        permuted.push(slot.unwrap());
        k = k + 1;
    }
    permuted
}

/// The items sorted by rank, items of the same rank in their old order.
pub(crate) fn sort<T, R: Rank<T>>(items: Vec<T>) -> (sorted: Vec<T>)
    ensures
        is_sorted_from::<T, R>(items@, sorted@),
{
    let order = arrange_all::<T, R>(items.as_slice());
    proof {
        let n = items.len();
        assert(n == items@.len());
        lemma_arranged::<T, R>(items@, order@);
    }
    permute(items, &order)
}

} // verus!
