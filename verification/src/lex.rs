//! Lexicographic order on sequences, as a mathematical notion.

use vstd::prelude::*;

verus! {

/// `lt` is a strict total order.
pub open spec fn strict_total<A>(lt: spec_fn(A, A) -> bool) -> bool {
    &&& forall|x: A| !(#[trigger] lt(x, x))
    &&& forall|x: A, y: A, z: A| #[trigger] lt(x, y) && #[trigger] lt(y, z) ==> lt(x, z)
    &&& forall|x: A, y: A| lt(x, y) || x == y || #[trigger] lt(y, x)
}

/// `a` and `b` agree below `k`, and at `k` either `a` has ended or its item is the smaller one.
pub open spec fn lex_at<A>(a: Seq<A>, b: Seq<A>, lt: spec_fn(A, A) -> bool, k: int) -> bool {
    &&& 0 <= k <= a.len()
    &&& k < b.len()
    &&& forall|j: int| 0 <= j < k ==> a[j] == #[trigger] b[j]
    &&& (k == a.len() || lt(a[k], b[k]))
}

/// `a` comes before `b`, item by item, a proper prefix first.
pub open spec fn lex_before<A>(a: Seq<A>, b: Seq<A>, lt: spec_fn(A, A) -> bool) -> bool {
    exists|k: int| lex_at(a, b, lt, k)
}

pub proof fn lemma_lex_irreflexive<A>(a: Seq<A>, lt: spec_fn(A, A) -> bool)
    requires
        strict_total(lt),
    ensures
        !lex_before(a, a, lt),
{
}

pub proof fn lemma_lex_transitive<A>(a: Seq<A>, b: Seq<A>, c: Seq<A>, lt: spec_fn(A, A) -> bool)
    requires
        strict_total(lt),
        lex_before(a, b, lt),
        lex_before(b, c, lt),
    ensures
        lex_before(a, c, lt),
{
    let k = choose|k: int| lex_at(a, b, lt, k);
    let m = choose|m: int| lex_at(b, c, lt, m);
    if k < m {
        assert(b[k] == c[k]);
        assert forall|j: int| 0 <= j < k implies a[j] == #[trigger] c[j] by {
            assert(a[j] == b[j]);
        }
        assert(lex_at(a, c, lt, k));
    } else if m < k {
        assert(a[m] == b[m]);
        assert forall|j: int| 0 <= j < m implies a[j] == #[trigger] c[j] by {
            assert(a[j] == b[j]);
        }
        assert(lex_at(a, c, lt, m));
    } else {
        assert forall|j: int| 0 <= j < k implies a[j] == #[trigger] c[j] by {
            assert(a[j] == b[j]);
        }
        assert(lex_at(a, c, lt, k));
    }
}

/// The first index at which `a` and `b` differ, or the length of the shorter one.
pub open spec fn agreement<A>(a: Seq<A>, b: Seq<A>) -> int
    decreases a.len(),
{
    if a.len() == 0 || b.len() == 0 || a[0] != b[0] {
        0
    } else {
        1 + agreement(a.drop_first(), b.drop_first())
    }
}

pub proof fn lemma_agreement<A>(a: Seq<A>, b: Seq<A>)
    ensures
        0 <= agreement(a, b) <= a.len(),
        agreement(a, b) <= b.len(),
        forall|j: int| 0 <= j < agreement(a, b) ==> a[j] == #[trigger] b[j],
        agreement(a, b) < a.len() && agreement(a, b) < b.len() ==> a[agreement(a, b)]
            != b[agreement(a, b)],
    decreases a.len(),
{
    if a.len() == 0 || b.len() == 0 || a[0] != b[0] {
    } else {
        lemma_agreement(a.drop_first(), b.drop_first());
        let n = agreement(a.drop_first(), b.drop_first());
        assert forall|j: int| 0 <= j < 1 + n implies a[j] == #[trigger] b[j] by {
            if j > 0 {
                assert(a.drop_first()[j - 1] == b.drop_first()[j - 1]);
            }
        }
    }
}

pub proof fn lemma_lex_total<A>(a: Seq<A>, b: Seq<A>, lt: spec_fn(A, A) -> bool)
    requires
        strict_total(lt),
    ensures
        lex_before(a, b, lt) || a == b || lex_before(b, a, lt),
{
    lemma_agreement(a, b);
    let k = agreement(a, b);
    if k < a.len() && k < b.len() {
        if lt(a[k], b[k]) {
            assert(lex_at(a, b, lt, k));
        } else {
            assert(lt(b[k], a[k]));
            assert forall|j: int| 0 <= j < k implies b[j] == #[trigger] a[j] by {
                assert(a[j] == b[j]);
            }
            assert(lex_at(b, a, lt, k));
        }
    } else if k < b.len() {
        assert(lex_at(a, b, lt, k));
    } else if k < a.len() {
        assert forall|j: int| 0 <= j < k implies b[j] == #[trigger] a[j] by {
            assert(a[j] == b[j]);
        }
        assert(lex_at(b, a, lt, k));
    } else {
        assert(a =~= b);
    }
}

/// The lexicographic order over a strict total order is itself strict and total.
pub proof fn lemma_lex_strict_total<A>(lt: spec_fn(A, A) -> bool)
    requires
        strict_total(lt),
    ensures
        strict_total(|a: Seq<A>, b: Seq<A>| lex_before(a, b, lt)),
{
    let order = |a: Seq<A>, b: Seq<A>| lex_before(a, b, lt);
    assert forall|a: Seq<A>| !(#[trigger] order(a, a)) by {
        lemma_lex_irreflexive(a, lt);
    }
    assert forall|a: Seq<A>, b: Seq<A>, c: Seq<A>|
        #[trigger] order(a, b) && #[trigger] order(b, c) implies order(a, c) by {
        lemma_lex_transitive(a, b, c, lt);
    }
    assert forall|a: Seq<A>, b: Seq<A>| order(a, b) || a == b || #[trigger] order(b, a) by {
        lemma_lex_total(a, b, lt);
    }
}

/// Whatever lies between a prefix and one of its extensions is an extension too.
pub proof fn lemma_between_extends<A>(p: Seq<A>, x: Seq<A>, c: Seq<A>, lt: spec_fn(A, A) -> bool)
    requires
        strict_total(lt),
        p.is_prefix_of(c),
        p == x || lex_before(p, x, lt),
        x == c || lex_before(x, c, lt),
    ensures
        p.is_prefix_of(x),
{
    if p != x && x != c {
        let k = choose|k: int| lex_at(p, x, lt, k);
        if k < p.len() {
            assert(c[k] == p[k]);
            assert forall|j: int| 0 <= j < k implies c[j] == #[trigger] x[j] by {
                assert(p[j] == x[j]);
            }
            assert(lex_at(c, x, lt, k));
            lemma_lex_transitive(x, c, x, lt);
            lemma_lex_irreflexive(x, lt);
        } else {
            assert forall|j: int| 0 <= j < p.len() implies p[j] == x.take(p.len() as int)[j] by {
                assert(p[j] == x[j]);
            }
            assert(p =~= x.take(p.len() as int));
        }
    }
}

} // verus!
