//! Closure of an attribute set under a set of functional dependencies.

use vstd::prelude::*;
use crate::attrs::{
    absorb, distinct, is_subset, merge, merge_is_union, merge_of_known, without_duplicates, Attr,
};
use crate::dependency::{FdSpec, FunctionalDependency};

verus! {

/// `z` is closed under `fds`: no dependency whose determinant lies in `z`
/// brings an attribute that `z` lacks.
pub open spec fn closed_under(z: Set<Attr>, fds: Seq<FdSpec>) -> bool {
    forall|i: int|
        #![trigger fds[i]]
        0 <= i < fds.len() && fds[i].lhs().subset_of(z) ==> fds[i].rhs().subset_of(z)
}

/// The closure of `x` under `fds`: the attributes that lie in every set which
/// contains `x` and is closed under `fds`. It is the least such set.
pub open spec fn closure(x: Set<Attr>, fds: Seq<FdSpec>) -> Set<Attr> {
    Set::new(
        |a: Attr|
            forall|z: Set<Attr>| x.subset_of(z) && #[trigger] closed_under(z, fds) ==> z.contains(a),
    )
}

/// The closure contains the set it was taken of.
pub proof fn closure_is_extensive(x: Set<Attr>, fds: Seq<FdSpec>)
    ensures
        x.subset_of(closure(x, fds)),
{
}

/// The closure is closed under the dependencies.
pub proof fn closure_is_closed(x: Set<Attr>, fds: Seq<FdSpec>)
    ensures
        closed_under(closure(x, fds), fds),
{
    let c = closure(x, fds);
    assert forall|i: int| 0 <= i < fds.len() && (#[trigger] fds[i]).lhs().subset_of(c) implies fds[i].rhs().subset_of(c) by {
        assert forall|a: Attr| fds[i].rhs().contains(a) implies c.contains(a) by {
            assert forall|z: Set<Attr>| x.subset_of(z) && #[trigger] closed_under(z, fds) implies z.contains(a) by {
                assert(fds[i].lhs().subset_of(z)) by {
                    assert forall|b: Attr| fds[i].lhs().contains(b) implies z.contains(b) by {
                        assert(c.contains(b));
                    }
                }
            }
        }
    }
}

/// The closure lies in every closed set that contains `x`.
pub proof fn closure_is_least(x: Set<Attr>, fds: Seq<FdSpec>, z: Set<Attr>)
    requires
        x.subset_of(z),
        closed_under(z, fds),
    ensures
        closure(x, fds).subset_of(z),
{
}

/// Taking the closure twice gives what taking it once gives.
pub proof fn closure_is_idempotent(x: Set<Attr>, fds: Seq<FdSpec>)
    ensures
        closure(closure(x, fds), fds) == closure(x, fds),
{
    let c = closure(x, fds);
    closure_is_closed(x, fds);
    closure_is_least(c, fds, c);
    closure_is_extensive(c, fds);
    assert(closure(c, fds) =~= c);
}

/// A larger set has a larger closure.
pub proof fn closure_is_monotone(x: Set<Attr>, y: Set<Attr>, fds: Seq<FdSpec>)
    requires
        x.subset_of(y),
    ensures
        closure(x, fds).subset_of(closure(y, fds)),
{
    closure_is_closed(y, fds);
    closure_is_extensive(y, fds);
    closure_is_least(x, fds, closure(y, fds));
}

/// Under no dependency at all every set is its own closure.
pub proof fn closure_without_dependencies(x: Set<Attr>)
    ensures
        closure(x, Seq::<FdSpec>::empty()) == x,
{
    let none = Seq::<FdSpec>::empty();
    assert(closed_under(x, none));
    closure_is_least(x, none, x);
    closure_is_extensive(x, none);
    assert(closure(x, none) =~= x);
}

/// Where every resultant lies in `universe`, so does the closure of any part
/// of `universe`.
pub proof fn closure_stays_within(x: Set<Attr>, fds: Seq<FdSpec>, universe: Set<Attr>)
    requires
        x.subset_of(universe),
        forall|i: int| 0 <= i < fds.len() ==> (#[trigger] fds[i]).rhs().subset_of(universe),
    ensures
        closure(x, fds).subset_of(universe),
{
    assert(closed_under(universe, fds));
    closure_is_least(x, fds, universe);
}

/// The closure holds, besides the set it was taken of, only attributes of
/// resultants.
pub proof fn closure_adds_only_resultants(x: Set<Attr>, fds: Seq<FdSpec>)
    ensures
        forall|a: Attr|
            closure(x, fds).contains(a) ==> x.contains(a) || exists|i: int|
                0 <= i < fds.len() && (#[trigger] fds[i]).rhs().contains(a),
{
    let z = Set::new(
        |a: Attr|
            x.contains(a) || exists|i: int|
                0 <= i < fds.len() && (#[trigger] fds[i]).rhs().contains(a),
    );
    assert(closed_under(z, fds));
    closure_is_least(x, fds, z);
}

/// Where no determinant is empty, nothing follows from the empty set.
pub proof fn closure_of_nothing(fds: Seq<FdSpec>)
    requires
        forall|i: int| 0 <= i < fds.len() ==> (#[trigger] fds[i]).determinant.len() > 0,
    ensures
        closure(Set::empty(), fds) == Set::<Attr>::empty(),
{
    let nothing = Set::<Attr>::empty();
    assert forall|i: int|
        #![trigger fds[i]]
        0 <= i < fds.len() && fds[i].lhs().subset_of(nothing) implies fds[i].rhs().subset_of(
        nothing,
    ) by {
        assert(fds[i].lhs().contains(fds[i].determinant[0]));
    }
    closure_is_least(nothing, fds, nothing);
    assert(closure(nothing, fds) =~= nothing);
}

/// Every dependency of `small` occurs in `big`.
pub open spec fn drawn_from(small: Seq<FdSpec>, big: Seq<FdSpec>) -> bool {
    forall|i: int| 0 <= i < small.len() ==> big.contains(#[trigger] small[i])
}

/// With more dependencies the closure can only grow.
pub proof fn closure_grows_with_dependencies(x: Set<Attr>, small: Seq<FdSpec>, big: Seq<FdSpec>)
    requires
        drawn_from(small, big),
    ensures
        closure(x, small).subset_of(closure(x, big)),
{
    let c = closure(x, big);
    closure_is_closed(x, big);
    closure_is_extensive(x, big);
    assert forall|i: int|
        #![trigger small[i]]
        0 <= i < small.len() && small[i].lhs().subset_of(c) implies small[i].rhs().subset_of(c) by {
        assert(big.contains(small[i]));
        let j = choose|j: int| 0 <= j < big.len() && big[j] == small[i];
        assert(big[j].lhs().subset_of(c));
    }
    closure_is_least(x, small, c);
}

/// How many dependencies of `fds` still have an attribute to bring to `w`.
pub open spec fn pending(fds: Seq<FdSpec>, w: Set<Attr>) -> nat
    decreases fds.len(),
{
    if fds.len() == 0 {
        0
    } else {
        pending(fds.drop_last(), w) + if fds.last().rhs().subset_of(w) {
            0nat
        } else {
            1nat
        }
    }
}

/// A larger set leaves no more dependencies pending.
proof fn pending_is_antitone(fds: Seq<FdSpec>, w: Set<Attr>, bigger: Set<Attr>)
    requires
        w.subset_of(bigger),
    ensures
        pending(fds, bigger) <= pending(fds, w),
    decreases fds.len(),
{
    if fds.len() > 0 {
        pending_is_antitone(fds.drop_last(), w, bigger);
    }
}

/// A larger set that satisfies one more dependency leaves fewer pending.
proof fn pending_drops(fds: Seq<FdSpec>, w: Set<Attr>, bigger: Set<Attr>, i: int)
    requires
        w.subset_of(bigger),
        0 <= i < fds.len(),
        !fds[i].rhs().subset_of(w),
        fds[i].rhs().subset_of(bigger),
    ensures
        pending(fds, bigger) < pending(fds, w),
    decreases fds.len(),
{
    if i == fds.len() - 1 {
        pending_is_antitone(fds.drop_last(), w, bigger);
    } else {
        pending_drops(fds.drop_last(), w, bigger, i);
    }
}

/// One scan over the dependencies, in order: each one whose determinant lies
/// in what has been gathered so far adds the attributes of its resultant that
/// are new.
pub open spec fn scan(work: Seq<Attr>, fds: Seq<FdSpec>) -> Seq<Attr>
    decreases fds.len(),
{
    if fds.len() == 0 {
        work
    } else {
        let sofar = scan(work, fds.drop_last());
        if fds.last().lhs().subset_of(sofar.to_set()) {
            merge(sofar, fds.last().resultant)
        } else {
            sofar
        }
    }
}

/// A scan keeps what was gathered; where it changes anything, it satisfies a
/// dependency that was pending.
pub proof fn scan_makes_progress(work: Seq<Attr>, fds: Seq<FdSpec>)
    ensures
        work.to_set().subset_of(scan(work, fds).to_set()),
        scan(work, fds) != work ==> pending(fds, scan(work, fds).to_set()) < pending(
            fds,
            work.to_set(),
        ),
    decreases fds.len(),
{
    if fds.len() > 0 {
        let front = fds.drop_last();
        let sofar = scan(work, front);
        let out = scan(work, fds);
        let last = fds.len() - 1;
        scan_makes_progress(work, front);
        merge_is_union(sofar, fds.last().resultant);
        if out != work {
            if sofar != work {
                pending_is_antitone(front, sofar.to_set(), out.to_set());
                if fds.last().rhs().subset_of(work.to_set()) {
                    assert(fds.last().rhs().subset_of(out.to_set()));
                }
            } else {
                if fds.last().rhs().subset_of(work.to_set()) {
                    merge_of_known(work, fds.last().resultant);
                }
                assert(fds[last].rhs().subset_of(out.to_set()));
                pending_drops(fds, work.to_set(), out.to_set(), last);
            }
        }
    }
}

/// Scans repeated until one changes nothing.
pub open spec fn saturate(work: Seq<Attr>, fds: Seq<FdSpec>) -> Seq<Attr>
    decreases pending(fds, work.to_set()),
    via saturate_ends
{
    if scan(work, fds) == work {
        work
    } else {
        saturate(scan(work, fds), fds)
    }
}

#[via_fn]
proof fn saturate_ends(work: Seq<Attr>, fds: Seq<FdSpec>) {
    scan_makes_progress(work, fds);
}

/// One scan over the dependencies: each one whose determinant lies in `work`
/// and whose resultant does not is applied, in order. Says whether any was.
fn closure_pass(work: &mut Vec<String>, fds: &Vec<FunctionalDependency>, Ghost(x): Ghost<
    Set<Attr>,
>) -> (grew: bool)
    requires
        x.subset_of(old(work).deep_view().to_set()),
        old(work).deep_view().to_set().subset_of(closure(x, fds.deep_view())),
        old(work).deep_view().no_duplicates(),
    ensures
        final(work).deep_view() == scan(old(work).deep_view(), fds.deep_view()),
        grew == (final(work).deep_view() != old(work).deep_view()),
        x.subset_of(final(work).deep_view().to_set()),
        final(work).deep_view().to_set().subset_of(closure(x, fds.deep_view())),
        final(work).deep_view().no_duplicates(),
        !grew ==> closed_under(old(work).deep_view().to_set(), fds.deep_view()),
{
    let ghost f = fds.deep_view();
    let ghost start = work.deep_view();
    let mut grew = false;
    let mut i: usize = 0;
    assert(f.take(0) =~= Seq::<FdSpec>::empty());
    while i < fds.len()
        invariant
            i <= fds.len(),
            f == fds.deep_view(),
            work.deep_view() == scan(start, f.take(i as int)),
            x.subset_of(work.deep_view().to_set()),
            work.deep_view().to_set().subset_of(closure(x, f)),
            work.deep_view().no_duplicates(),
            start.to_set().subset_of(work.deep_view().to_set()),
            grew ==> !work.deep_view().to_set().subset_of(start.to_set()),
            !grew ==> work.deep_view() == start,
            !grew ==> forall|j: int|
                #![trigger f[j]]
                0 <= j < i && f[j].lhs().subset_of(start.to_set()) ==> f[j].rhs().subset_of(
                    start.to_set(),
                ),
        decreases fds.len() - i,
    {
        let ghost before = work.deep_view();
        proof {
            assert(f[i as int] == fds[i as int]@);
            assert(f.take(i as int + 1).drop_last() =~= f.take(i as int));
            assert(f.take(i as int + 1).last() == f[i as int]);
        }
        if is_subset(&fds[i].determinant, work) {
            if !is_subset(&fds[i].resultant, work) {
                absorb(work, &fds[i].resultant);
                proof {
                    merge_is_union(before, f[i as int].resultant);
                    closure_is_closed(x, f);
                    assert(f[i as int].lhs().subset_of(closure(x, f)));
                    assert(f[i as int].rhs().subset_of(closure(x, f)));
                }
                grew = true;
            } else {
                proof {
                    merge_of_known(before, f[i as int].resultant);
                }
            }
        }
        i += 1;
    }
    assert(f.take(fds.len() as int) =~= f);
    grew
}

/// The closure of `seed` under `fds`, each attribute once: first the
/// attributes of `seed`, then the others in the order in which the scans
/// reach them.
///
/// The dependencies are scanned again and again, each scan applying every
/// dependency that brings something new, until a whole scan brings nothing.
pub fn attribute_closure(seed: &Vec<String>, fds: &Vec<FunctionalDependency>) -> (out: Vec<String>)
    ensures
        out.deep_view().to_set() == closure(seed.deep_view().to_set(), fds.deep_view()),
        out.deep_view().no_duplicates(),
        out.deep_view() == saturate(distinct(seed.deep_view()), fds.deep_view()),
{
    let ghost x = seed.deep_view().to_set();
    let ghost f = fds.deep_view();
    let mut work = without_duplicates(seed);
    proof {
        merge_is_union(Seq::empty(), seed.deep_view());
        assert(work.deep_view().to_set() =~= x);
        closure_is_extensive(x, f);
    }
    let mut grew = true;
    while grew
        invariant
            f == fds.deep_view(),
            x.subset_of(work.deep_view().to_set()),
            work.deep_view().to_set().subset_of(closure(x, f)),
            work.deep_view().no_duplicates(),
            saturate(work.deep_view(), f) == saturate(distinct(seed.deep_view()), f),
            !grew ==> closed_under(work.deep_view().to_set(), f),
            !grew ==> scan(work.deep_view(), f) == work.deep_view(),
        decreases pending(f, work.deep_view().to_set()), grew as int,
    {
        proof {
            scan_makes_progress(work.deep_view(), f);
        }
        grew = closure_pass(&mut work, fds, Ghost(x));
    }
    proof {
        closure_is_least(x, f, work.deep_view().to_set());
        assert(work.deep_view().to_set() =~= closure(x, f));
    }
    work
}

} // verus!
