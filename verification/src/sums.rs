//! Sums over sequences.

use vstd::prelude::*;

verus! {

/// The sum of `f` over `s`.
pub open spec fn total<A>(s: Seq<A>, f: spec_fn(A) -> nat) -> nat
    decreases s.len(),
{
    if s.len() == 0 {
        0
    } else {
        total(s.drop_last(), f) + f(s.last())
    }
}

pub proof fn lemma_total_push<A>(s: Seq<A>, x: A, f: spec_fn(A) -> nat)
    ensures
        total(s.push(x), f) == total(s, f) + f(x),
{
    assert(s.push(x).drop_last() =~= s);
}

pub proof fn lemma_total_concat<A>(s: Seq<A>, t: Seq<A>, f: spec_fn(A) -> nat)
    ensures
        total(s + t, f) == total(s, f) + total(t, f),
    decreases t.len(),
{
    if t.len() == 0 {
        assert(s + t =~= s);
    } else {
        assert((s + t).drop_last() =~= s + t.drop_last());
        lemma_total_concat(s, t.drop_last(), f);
    }
}

pub proof fn lemma_total_split<A>(s: Seq<A>, k: int, f: spec_fn(A) -> nat)
    requires
        0 <= k <= s.len(),
    ensures
        total(s, f) == total(s.take(k), f) + total(s.skip(k), f),
{
    assert(s =~= s.take(k) + s.skip(k));
    lemma_total_concat(s.take(k), s.skip(k), f);
}

/// One step further along a sequence.
pub proof fn lemma_total_step<A>(s: Seq<A>, k: int, f: spec_fn(A) -> nat)
    requires
        0 <= k < s.len(),
    ensures
        total(s.take(k + 1), f) == total(s.take(k), f) + f(s[k]),
        total(s.take(k + 1), f) <= total(s, f),
{
    assert(s.take(k + 1).drop_last() =~= s.take(k));
    lemma_total_split(s, k + 1, f);
}

pub proof fn lemma_total_remove<A>(s: Seq<A>, i: int, f: spec_fn(A) -> nat)
    requires
        0 <= i < s.len(),
    ensures
        total(s, f) == total(s.remove(i), f) + f(s[i]),
{
    lemma_total_split(s, i, f);
    lemma_total_split(s.skip(i), 1, f);
    let one = s.skip(i).take(1);
    assert(one =~= Seq::<A>::empty().push(s[i]));
    lemma_total_push(Seq::<A>::empty(), s[i], f);
    assert(s.remove(i) =~= s.take(i) + s.skip(i).skip(1));
    lemma_total_concat(s.take(i), s.skip(i).skip(1), f);
}

/// A sum does not depend on the order of its terms.
pub proof fn lemma_total_permutation<A>(s: Seq<A>, t: Seq<A>, f: spec_fn(A) -> nat)
    requires
        s.to_multiset() == t.to_multiset(),
    ensures
        total(s, f) == total(t, f),
    decreases s.len(),
{
    broadcast use vstd::seq_lib::group_to_multiset_ensures;

    assert(s.len() == s.to_multiset().len());
    assert(t.len() == t.to_multiset().len());
    if s.len() > 0 {
        let x = s.last();
        let i = s.len() - 1;
        assert(s[i] == x);
        assert(s.contains(x));
        assert(s.to_multiset().count(x) > 0);
        assert(t.contains(x));
        let k = choose|k: int| 0 <= k < t.len() && t[k] == x;
        assert(s.remove(i) =~= s.drop_last());
        assert(s.remove(i).to_multiset() =~= t.remove(k).to_multiset());
        lemma_total_permutation(s.remove(i), t.remove(k), f);
        lemma_total_remove(s, i, f);
        lemma_total_remove(t, k, f);
    }
}

/// Equal terms give equal sums.
pub proof fn lemma_total_pointwise<A, B>(
    s: Seq<A>,
    t: Seq<B>,
    f: spec_fn(A) -> nat,
    g: spec_fn(B) -> nat,
)
    requires
        s.len() == t.len(),
        forall|i: int| 0 <= i < s.len() ==> #[trigger] f(s[i]) == g(t[i]),
    ensures
        total(s, f) == total(t, g),
    decreases s.len(),
{
    if s.len() > 0 {
        let n = s.len() - 1;
        assert(f(s[n]) == g(t[n]));
        assert forall|i: int| 0 <= i < n implies #[trigger] f(s.drop_last()[i]) == g(
            t.drop_last()[i],
        ) by {
            assert(f(s[i]) == g(t[i]));
        }
        lemma_total_pointwise(s.drop_last(), t.drop_last(), f, g);
    }
}

} // verus!
