//! Sums over finite sets.

use vstd::prelude::*;

verus! {

/// The sum of `f` over a finite set.
pub open spec fn sum<A>(set: Set<A>, f: spec_fn(A) -> nat) -> nat
    decreases set.len(),
    when set.finite()
{
    if set.len() == 0 {
        0
    } else {
        let x = set.choose();
        f(x) + sum(set.remove(x), f)
    }
}

/// Any member can be taken out first.
pub proof fn lemma_sum_remove<A>(set: Set<A>, f: spec_fn(A) -> nat, y: A)
    requires
        set.finite(),
        set.contains(y),
    ensures
        sum(set, f) == f(y) + sum(set.remove(y), f),
    decreases set.len(),
{
    assert(set.len() > 0) by {
        if set.len() == 0 {
            assert(set =~= Set::empty());
        }
    }
    let x = set.choose();
    if x != y {
        lemma_sum_remove(set.remove(x), f, y);
        lemma_sum_remove(set.remove(y), f, x);
        assert(set.remove(x).remove(y) =~= set.remove(y).remove(x));
    }
}

/// A new member adds its share.
pub proof fn lemma_sum_insert<A>(set: Set<A>, f: spec_fn(A) -> nat, y: A)
    requires
        set.finite(),
        !set.contains(y),
    ensures
        sum(set.insert(y), f) == sum(set, f) + f(y),
{
    lemma_sum_remove(set.insert(y), f, y);
    assert(set.insert(y).remove(y) =~= set);
}

/// Functions that agree on a set have one sum over it.
pub proof fn lemma_sum_same<A>(set: Set<A>, f: spec_fn(A) -> nat, g: spec_fn(A) -> nat)
    requires
        set.finite(),
        forall|x: A| #[trigger] set.contains(x) ==> f(x) == g(x),
    ensures
        sum(set, f) == sum(set, g),
    decreases set.len(),
{
    if set.len() > 0 {
        let x = set.choose();
        assert(set.contains(x)) by {
            if !(exists|z: A| set.contains(z)) {
                assert(set =~= Set::empty());
            }
        }
        assert forall|z: A| #[trigger] set.remove(x).contains(z) implies f(z) == g(z) by {
            assert(set.contains(z));
        }
        lemma_sum_same(set.remove(x), f, g);
    }
}

/// The sum over the empty set.
pub proof fn lemma_sum_empty<A>(f: spec_fn(A) -> nat)
    ensures
        sum(Set::<A>::empty(), f) == 0,
{
}

/// A subset sums to no more.
pub proof fn lemma_sum_subset<A>(a: Set<A>, b: Set<A>, f: spec_fn(A) -> nat)
    requires
        b.finite(),
        a.subset_of(b),
    ensures
        a.finite(),
        sum(a, f) <= sum(b, f),
    decreases b.len(),
{
    vstd::set_lib::lemma_set_subset_finite(b, a);
    if a == b {
    } else {
        assert(exists|x: A| b.contains(x) && !a.contains(x)) by {
            if !(exists|x: A| b.contains(x) && !a.contains(x)) {
                assert(a =~= b);
            }
        }
        let x = choose|x: A| b.contains(x) && !a.contains(x);
        lemma_sum_remove(b, f, x);
        assert(a.subset_of(b.remove(x)));
        lemma_sum_subset(a, b.remove(x), f);
    }
}

} // verus!
