//! Semantic equivalence of two sets of functional dependencies.

use vstd::prelude::*;
use crate::attrs::{is_subset, Attr};
use crate::closure::{
    attribute_closure, closed_under, closure, closure_is_closed, closure_is_extensive,
    closure_is_least,
};
use crate::dependency::{FdSpec, FunctionalDependency};

verus! {

/// Every dependency of `fds` follows from `base`: its resultant lies in the
/// closure of its determinant under `base`.
pub open spec fn entails(base: Seq<FdSpec>, fds: Seq<FdSpec>) -> bool {
    forall|i: int|
        #![trigger fds[i]]
        0 <= i < fds.len() ==> fds[i].rhs().subset_of(closure(fds[i].lhs(), base))
}

/// The two sets of dependencies have the same consequences: each entails the
/// other.
pub open spec fn equivalent(f1: Seq<FdSpec>, f2: Seq<FdSpec>) -> bool {
    entails(f2, f1) && entails(f1, f2)
}

/// Every set closed under `base` is closed under `fds`.
pub open spec fn refines(base: Seq<FdSpec>, fds: Seq<FdSpec>) -> bool {
    forall|z: Set<Attr>| #[trigger] closed_under(z, base) ==> closed_under(z, fds)
}

/// `base` entails `fds` exactly when every set closed under `base` is closed
/// under `fds`.
pub proof fn entails_iff_refines(base: Seq<FdSpec>, fds: Seq<FdSpec>)
    ensures
        entails(base, fds) <==> refines(base, fds),
{
    if entails(base, fds) {
        assert forall|z: Set<Attr>| #[trigger] closed_under(z, base) implies closed_under(
            z,
            fds,
        ) by {
            assert forall|i: int|
                #![trigger fds[i]]
                0 <= i < fds.len() && fds[i].lhs().subset_of(z) implies fds[i].rhs().subset_of(
                z,
            ) by {
                closure_is_least(fds[i].lhs(), base, z);
            }
        }
    }
    if refines(base, fds) {
        assert forall|i: int| #![trigger fds[i]] 0 <= i < fds.len() implies fds[i].rhs().subset_of(
            closure(fds[i].lhs(), base),
        ) by {
            let c = closure(fds[i].lhs(), base);
            closure_is_closed(fds[i].lhs(), base);
            closure_is_extensive(fds[i].lhs(), base);
            assert(closed_under(c, fds));
        }
    }
}

/// Where `base` entails `fds`, closures under `fds` lie in those under `base`.
pub proof fn entailed_closure_is_smaller(base: Seq<FdSpec>, fds: Seq<FdSpec>, x: Set<Attr>)
    requires
        entails(base, fds),
    ensures
        closure(x, fds).subset_of(closure(x, base)),
{
    entails_iff_refines(base, fds);
    closure_is_closed(x, base);
    closure_is_extensive(x, base);
    closure_is_least(x, fds, closure(x, base));
}

/// Equivalent sets of dependencies give every attribute set the same closure.
pub proof fn equivalent_closures(f1: Seq<FdSpec>, f2: Seq<FdSpec>, x: Set<Attr>)
    requires
        equivalent(f1, f2),
    ensures
        closure(x, f1) == closure(x, f2),
{
    entailed_closure_is_smaller(f1, f2, x);
    entailed_closure_is_smaller(f2, f1, x);
    assert(closure(x, f1) =~= closure(x, f2));
}

/// Two sets of dependencies that give every attribute set the same closure
/// are equivalent.
pub proof fn equal_closures_are_equivalent(f1: Seq<FdSpec>, f2: Seq<FdSpec>)
    requires
        forall|x: Set<Attr>| #[trigger] closure(x, f1) == closure(x, f2),
    ensures
        equivalent(f1, f2),
{
    assert forall|i: int| #![trigger f1[i]] 0 <= i < f1.len() implies f1[i].rhs().subset_of(
        closure(f1[i].lhs(), f2),
    ) by {
        closure_is_closed(f1[i].lhs(), f1);
        closure_is_extensive(f1[i].lhs(), f1);
        assert(closure(f1[i].lhs(), f1) == closure(f1[i].lhs(), f2));
    }
    assert forall|i: int| #![trigger f2[i]] 0 <= i < f2.len() implies f2[i].rhs().subset_of(
        closure(f2[i].lhs(), f1),
    ) by {
        closure_is_closed(f2[i].lhs(), f2);
        closure_is_extensive(f2[i].lhs(), f2);
        assert(closure(f2[i].lhs(), f1) == closure(f2[i].lhs(), f2));
    }
}

/// Every set of dependencies is equivalent to itself.
pub proof fn equivalent_is_reflexive(f: Seq<FdSpec>)
    ensures
        equivalent(f, f),
{
    assert(refines(f, f));
    entails_iff_refines(f, f);
}

/// Equivalence does not depend on the order of its arguments.
pub proof fn equivalent_is_symmetric(f1: Seq<FdSpec>, f2: Seq<FdSpec>)
    ensures
        equivalent(f1, f2) == equivalent(f2, f1),
{
}

/// Equivalence carries over a middle term.
pub proof fn equivalent_is_transitive(f1: Seq<FdSpec>, f2: Seq<FdSpec>, f3: Seq<FdSpec>)
    requires
        equivalent(f1, f2),
        equivalent(f2, f3),
    ensures
        equivalent(f1, f3),
{
    entails_iff_refines(f1, f2);
    entails_iff_refines(f2, f1);
    entails_iff_refines(f2, f3);
    entails_iff_refines(f3, f2);
    assert(refines(f1, f3)) by {
        assert forall|z: Set<Attr>| #[trigger] closed_under(z, f1) implies closed_under(z, f3) by {
            assert(closed_under(z, f2));
        }
    }
    assert(refines(f3, f1)) by {
        assert forall|z: Set<Attr>| #[trigger] closed_under(z, f3) implies closed_under(z, f1) by {
            assert(closed_under(z, f2));
        }
    }
    entails_iff_refines(f1, f3);
    entails_iff_refines(f3, f1);
}

/// Whether every dependency of `fds` follows from `base`.
pub fn dependencies_entail(base: &Vec<FunctionalDependency>, fds: &Vec<FunctionalDependency>) -> (all: bool)
    ensures
        all == entails(base.deep_view(), fds.deep_view()),
{
    let mut i: usize = 0;
    while i < fds.len()
        invariant
            i <= fds.len(),
            forall|k: int|
                #![trigger fds.deep_view()[k]]
                0 <= k < i ==> fds.deep_view()[k].rhs().subset_of(
                    closure(fds.deep_view()[k].lhs(), base.deep_view()),
                ),
        decreases fds.len() - i,
    {
        assert(fds.deep_view()[i as int] == fds[i as int]@);
        let reach = attribute_closure(&fds[i].determinant, base);
        if !is_subset(&fds[i].resultant, &reach) {
            return false;
        }
        i += 1;
    }
    true
}

/// Whether the two sets of dependencies have the same consequences.
pub fn dependencies_equivalent(
    f1: &Vec<FunctionalDependency>,
    f2: &Vec<FunctionalDependency>,
) -> (same: bool)
    ensures
        same == equivalent(f1.deep_view(), f2.deep_view()),
{
    dependencies_entail(f2, f1) && dependencies_entail(f1, f2)
}

} // verus!
