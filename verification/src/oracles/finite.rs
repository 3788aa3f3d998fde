//! Finiteness of power sets and products, which bounds exhaustive searches.

use vstd::prelude::*;

verus! {

broadcast use vstd::set::group_set_axioms, vstd::set_lib::group_set_lib_default;

/// All subsets of `s`.
pub open spec fn powerset<T>(s: Set<T>) -> Set<Set<T>> {
    Set::new(|t: Set<T>| t.subset_of(s))
}

/// All pairs of an element of `x` and an element of `y`.
pub open spec fn product<A, B>(x: Set<A>, y: Set<B>) -> Set<(A, B)> {
    Set::new(|p: (A, B)| x.contains(p.0) && y.contains(p.1))
}

/// The subsets of a finite set are finitely many.
pub proof fn lemma_powerset_finite<T>(s: Set<T>)
    requires
        s.finite(),
    ensures
        powerset(s).finite(),
    decreases s.len(),
{
    if s.len() == 0 {
        assert(s =~= Set::<T>::empty());
        assert(powerset(s) =~= Set::<Set<T>>::empty().insert(Set::<T>::empty())) by {
            assert forall|t: Set<T>| powerset(s).contains(t) implies t == Set::<T>::empty() by {
                assert(t =~= Set::<T>::empty());
            }
        }
    } else {
        let a = s.choose();
        let r = s.remove(a);
        lemma_powerset_finite(r);
        let pr = powerset(r);
        let with_a = pr.map(|t: Set<T>| t.insert(a));
        pr.lemma_map_finite(|t: Set<T>| t.insert(a));
        assert(powerset(s) =~= pr.union(with_a)) by {
            assert forall|t: Set<T>| powerset(s).contains(t) implies pr.union(with_a).contains(t) by {
                if t.contains(a) {
                    let u = t.remove(a);
                    assert(pr.contains(u));
                    assert(u.insert(a) =~= t);
                    assert(with_a.contains(t));
                } else {
                    assert(pr.contains(t));
                }
            }
            assert forall|t: Set<T>| pr.union(with_a).contains(t) implies powerset(s).contains(t) by {
                if with_a.contains(t) {
                    let u = choose|u: Set<T>| pr.contains(u) && u.insert(a) == t;
                    assert(t.subset_of(s));
                }
            }
        }
    }
}

/// The pairs drawn from two finite sets are finitely many.
pub proof fn lemma_product_finite<A, B>(x: Set<A>, y: Set<B>)
    requires
        x.finite(),
        y.finite(),
    ensures
        product(x, y).finite(),
    decreases x.len(),
{
    if x.len() == 0 {
        assert(x =~= Set::<A>::empty());
        assert(product(x, y) =~= Set::<(A, B)>::empty());
    } else {
        let a = x.choose();
        let r = x.remove(a);
        lemma_product_finite(r, y);
        let row = y.map(|b: B| (a, b));
        y.lemma_map_finite(|b: B| (a, b));
        assert(product(x, y) =~= product(r, y).union(row)) by {
            assert forall|p: (A, B)| product(x, y).contains(p) implies product(r, y).union(row).contains(p) by {
                if p.0 == a {
                    assert(row.contains((a, p.1)));
                    assert(p == (a, p.1));
                }
            }
        }
    }
}

} // verus!
