//! Canonical covers: singleton resultants, no extraneous determinant
//! attribute, no redundant dependency.

use vstd::prelude::*;
use crate::attrs::{distinct, is_subset, merge_is_union, without_duplicates, Attr};
use crate::closure::{
    attribute_closure, closed_under, closure, closure_grows_with_dependencies,
    closure_is_closed, closure_is_extensive, closure_is_least, closure_of_nothing, drawn_from,
};
use crate::dependency::{FdSpec, FunctionalDependency};
use crate::equivalence::{
    entails_iff_refines, equivalent, equivalent_closures, equivalent_is_reflexive,
    equivalent_is_transitive, refines,
};
use crate::key::{
    determines, irreducible, shrink, trim, trim_is_drawn, trim_is_irreducible,
    trim_of_irreducible, trim_still_determines, trim_under_equivalent,
};
use crate::schema::{all_differ, valid_schema, well_formed};

verus! {

/// One dependency for each attribute of the resultant of `fd`, all with the
/// determinant of `fd`; on both sides an attribute written twice counts once.
pub open spec fn fan_out(fd: FdSpec) -> Seq<FdSpec> {
    Seq::new(
        distinct(fd.resultant).len(),
        |k: int|
            FdSpec {
                determinant: distinct(fd.determinant),
                resultant: seq![distinct(fd.resultant)[k]],
            },
    )
}

/// The dependencies of `fds`, each fanned out, in order.
pub open spec fn split(fds: Seq<FdSpec>) -> Seq<FdSpec>
    decreases fds.len(),
{
    if fds.len() == 0 {
        Seq::empty()
    } else {
        split(fds.drop_last()) + fan_out(fds.last())
    }
}

/// Each set of dependencies refines the other: the same sets are closed
/// under both.
pub open spec fn same_closed_sets(f1: Seq<FdSpec>, f2: Seq<FdSpec>) -> bool {
    refines(f1, f2) && refines(f2, f1)
}

/// Two sets of dependencies under which the same sets are closed are
/// equivalent, and the other way round.
pub proof fn same_closed_sets_is_equivalent(f1: Seq<FdSpec>, f2: Seq<FdSpec>)
    ensures
        same_closed_sets(f1, f2) <==> equivalent(f1, f2),
{
    entails_iff_refines(f1, f2);
    entails_iff_refines(f2, f1);
}

/// A set is closed under two sets of dependencies put together exactly when
/// it is closed under each.
proof fn closed_under_both(z: Set<Attr>, a: Seq<FdSpec>, b: Seq<FdSpec>)
    ensures
        closed_under(z, a + b) <==> closed_under(z, a) && closed_under(z, b),
{
    let ab = a + b;
    if closed_under(z, ab) {
        assert forall|i: int| #![trigger a[i]] 0 <= i < a.len() && a[i].lhs().subset_of(z) implies a[i].rhs().subset_of(z) by {
            assert(ab[i] == a[i]);
        }
        assert forall|i: int| #![trigger b[i]] 0 <= i < b.len() && b[i].lhs().subset_of(z) implies b[i].rhs().subset_of(z) by {
            assert(ab[a.len() + i] == b[i]);
        }
    }
    if closed_under(z, a) && closed_under(z, b) {
        assert forall|i: int| #![trigger ab[i]] 0 <= i < ab.len() && ab[i].lhs().subset_of(z) implies ab[i].rhs().subset_of(z) by {
            if i < a.len() {
                assert(ab[i] == a[i]);
            } else {
                assert(ab[i] == b[i - a.len()]);
            }
        }
    }
}

/// A set is closed under the fan-out of a dependency exactly when it is
/// closed under the dependency.
proof fn closed_under_fan_out(z: Set<Attr>, fd: FdSpec)
    ensures
        closed_under(z, fan_out(fd)) <==> (fd.lhs().subset_of(z) ==> fd.rhs().subset_of(z)),
{
    let fan = fan_out(fd);
    let res = distinct(fd.resultant);
    let none = Seq::<Attr>::empty();
    merge_is_union(none, fd.resultant);
    merge_is_union(none, fd.determinant);
    assert(res.to_set() =~= fd.rhs());
    assert(distinct(fd.determinant).to_set() =~= fd.lhs());
    if closed_under(z, fan) && fd.lhs().subset_of(z) {
        assert forall|a: Attr| fd.rhs().contains(a) implies z.contains(a) by {
            assert(res.to_set().contains(a));
            let k = choose|k: int| 0 <= k < res.len() && res[k] == a;
            assert(fan[k].lhs() == fd.lhs());
            assert(fan[k].resultant[0] == a);
            assert(fan[k].rhs().contains(a));
        }
    }
    if fd.lhs().subset_of(z) ==> fd.rhs().subset_of(z) {
        assert forall|k: int| #![trigger fan[k]] 0 <= k < fan.len() && fan[k].lhs().subset_of(z) implies fan[k].rhs().subset_of(z) by {
            assert(fan[k].lhs() == fd.lhs());
            assert forall|a: Attr| fan[k].rhs().contains(a) implies z.contains(a) by {
                let j = choose|j: int| 0 <= j < fan[k].resultant.len() && fan[k].resultant[j] == a;
                assert(a == res[k]);
                assert(res.to_set().contains(a));
            }
        }
    }
}

/// Under a set of dependencies and under its split the same sets are closed.
proof fn split_keeps_closed_sets(fds: Seq<FdSpec>, z: Set<Attr>)
    ensures
        closed_under(z, split(fds)) <==> closed_under(z, fds),
    decreases fds.len(),
{
    if fds.len() > 0 {
        let front = fds.drop_last();
        split_keeps_closed_sets(front, z);
        closed_under_both(z, split(front), fan_out(fds.last()));
        closed_under_fan_out(z, fds.last());
        assert(fds =~= front + seq![fds.last()]);
        closed_under_both(z, front, seq![fds.last()]);
        let one = seq![fds.last()];
        assert(closed_under(z, one) <==> (fds.last().lhs().subset_of(z) ==> fds.last().rhs().subset_of(z))) by {
            assert(one[0] == fds.last());
        }
    }
}

/// Splitting the resultants changes no consequence.
pub proof fn split_is_equivalent(fds: Seq<FdSpec>)
    ensures
        equivalent(fds, split(fds)),
{
    assert forall|z: Set<Attr>| closed_under(z, split(fds)) <==> closed_under(z, fds) by {
        split_keeps_closed_sets(fds, z);
    }
    assert(same_closed_sets(fds, split(fds)));
    same_closed_sets_is_equivalent(fds, split(fds));
}

/// Every dependency of a split has one attribute as its resultant, and a
/// determinant that holds no attribute twice.
pub proof fn split_has_singletons(fds: Seq<FdSpec>)
    ensures
        forall|k: int|
            0 <= k < split(fds).len() ==> (#[trigger] split(fds)[k]).resultant.len() == 1
                && split(fds)[k].determinant.no_duplicates(),
    decreases fds.len(),
{
    if fds.len() > 0 {
        let front = split(fds.drop_last());
        let fan = fan_out(fds.last());
        split_has_singletons(fds.drop_last());
        merge_is_union(Seq::empty(), fds.last().determinant);
        assert forall|k: int| 0 <= k < split(fds).len() implies (#[trigger] split(
            fds,
        )[k]).resultant.len() == 1 && split(fds)[k].determinant.no_duplicates() by {
            if k < front.len() {
                assert(split(fds)[k] == front[k]);
            } else {
                assert(split(fds)[k] == fan[k - front.len()]);
            }
        }
    }
}

/// `fd` with its determinant trimmed to what is needed, under `fds`, to
/// determine its resultant.
pub open spec fn reduced(fd: FdSpec, fds: Seq<FdSpec>) -> FdSpec {
    FdSpec {
        determinant: trim(Seq::empty(), fd.determinant, fd.rhs(), fds),
        resultant: fd.resultant,
    }
}

/// The first `n` dependencies of `fds` reduced, the others as they are.
pub open spec fn partly_reduced(fds: Seq<FdSpec>, n: int) -> Seq<FdSpec> {
    Seq::new(
        fds.len(),
        |i: int|
            if i < n {
                reduced(fds[i], fds)
            } else {
                fds[i]
            },
    )
}

/// Every dependency of `fds` reduced.
pub open spec fn left_reduce(fds: Seq<FdSpec>) -> Seq<FdSpec> {
    partly_reduced(fds, fds.len() as int)
}

/// No determinant of `fds` holds an attribute that could be dropped: without
/// any one place, the determinant no longer determines the resultant.
pub open spec fn left_reduced(fds: Seq<FdSpec>) -> bool {
    forall|i: int|
        #![trigger fds[i]]
        0 <= i < fds.len() ==> irreducible(fds[i].determinant, fds[i].rhs(), fds)
}

/// Dependencies whose determinants were narrowed, each to attributes that
/// still determine its resultant, have the consequences they had.
proof fn narrowing_is_equivalent(fds: Seq<FdSpec>, narrow: Seq<FdSpec>)
    requires
        narrow.len() == fds.len(),
        forall|i: int|
            #![trigger narrow[i]]
            0 <= i < fds.len() ==> narrow[i].rhs() == fds[i].rhs() && narrow[i].lhs().subset_of(
                fds[i].lhs(),
            ) && determines(narrow[i].lhs(), fds[i].rhs(), fds),
    ensures
        equivalent(fds, narrow),
{
    assert forall|z: Set<Attr>| #[trigger] closed_under(z, narrow) implies closed_under(z, fds) by {
        assert forall|i: int|
            #![trigger fds[i]]
            0 <= i < fds.len() && fds[i].lhs().subset_of(z) implies fds[i].rhs().subset_of(z) by {
            assert(narrow[i].lhs().subset_of(z));
        }
    }
    assert forall|z: Set<Attr>| #[trigger] closed_under(z, fds) implies closed_under(z, narrow) by {
        assert forall|i: int|
            #![trigger narrow[i]]
            0 <= i < narrow.len() && narrow[i].lhs().subset_of(z) implies narrow[i].rhs().subset_of(
            z,
        ) by {
            closure_is_least(narrow[i].lhs(), fds, z);
        }
    }
    same_closed_sets_is_equivalent(fds, narrow);
}

/// A dependency determines its own resultant under any set that holds it.
proof fn member_is_determined(fds: Seq<FdSpec>, i: int)
    requires
        0 <= i < fds.len(),
    ensures
        determines(fds[i].lhs(), fds[i].rhs(), fds),
{
    closure_is_closed(fds[i].lhs(), fds);
    closure_is_extensive(fds[i].lhs(), fds);
}

/// Reducing some of the determinants changes no consequence.
pub proof fn partly_reduced_is_equivalent(fds: Seq<FdSpec>, n: int)
    ensures
        equivalent(fds, partly_reduced(fds, n)),
{
    let narrow = partly_reduced(fds, n);
    let none = Seq::<Attr>::empty();
    assert forall|i: int| #![trigger narrow[i]] 0 <= i < fds.len() implies narrow[i].rhs()
        == fds[i].rhs() && narrow[i].lhs().subset_of(fds[i].lhs()) && determines(
        narrow[i].lhs(),
        fds[i].rhs(),
        fds,
    ) by {
        member_is_determined(fds, i);
        if i < n {
            assert(none + fds[i].determinant =~= fds[i].determinant);
            trim_is_drawn(none, fds[i].determinant, fds[i].rhs(), fds);
            trim_still_determines(none, fds[i].determinant, fds[i].rhs(), fds);
        }
    }
    narrowing_is_equivalent(fds, narrow);
}

/// Left reduction changes no consequence and leaves no determinant with an
/// attribute that could be dropped.
pub proof fn left_reduce_is_sound(fds: Seq<FdSpec>)
    ensures
        equivalent(fds, left_reduce(fds)),
        left_reduced(left_reduce(fds)),
{
    let out = left_reduce(fds);
    let none = Seq::<Attr>::empty();
    partly_reduced_is_equivalent(fds, fds.len() as int);
    assert forall|i: int| #![trigger out[i]] 0 <= i < out.len() implies irreducible(
        out[i].determinant,
        out[i].rhs(),
        out,
    ) by {
        trim_is_irreducible(none, fds[i].determinant, fds[i].rhs(), fds);
        assert forall|p: int| 0 <= p < out[i].determinant.len() implies !determines(
            #[trigger] out[i].determinant.remove(p).to_set(),
            out[i].rhs(),
            out,
        ) by {
            equivalent_closures(fds, out, out[i].determinant.remove(p).to_set());
        }
    }
}

/// Left reduction leaves a left-reduced set as it is.
pub proof fn left_reduce_of_left_reduced(fds: Seq<FdSpec>)
    requires
        left_reduced(fds),
    ensures
        left_reduce(fds) == fds,
{
    let out = left_reduce(fds);
    let none = Seq::<Attr>::empty();
    assert forall|i: int| 0 <= i < fds.len() implies out[i] == fds[i] by {
        assert(irreducible(fds[i].determinant, fds[i].rhs(), fds));
        assert(none + fds[i].determinant =~= fds[i].determinant);
        trim_of_irreducible(none, fds[i].determinant, fds[i].rhs(), fds);
    }
    assert(out =~= fds);
}

/// One scan that drops redundant dependencies. Those of `rest` are taken in
/// order; one is dropped when its determinant determines its resultant under
/// those kept so far and those still to come.
pub open spec fn prune(kept: Seq<FdSpec>, rest: Seq<FdSpec>) -> Seq<FdSpec>
    decreases rest.len(),
{
    if rest.len() == 0 {
        kept
    } else {
        let tail = rest.drop_first();
        if determines(rest[0].lhs(), rest[0].rhs(), kept + tail) {
            prune(kept, tail)
        } else {
            prune(kept.push(rest[0]), tail)
        }
    }
}

/// No dependency of `fds` follows from the others.
pub open spec fn nonredundant(fds: Seq<FdSpec>) -> bool {
    forall|i: int|
        #![trigger fds[i]]
        0 <= i < fds.len() ==> !determines(fds[i].lhs(), fds[i].rhs(), fds.remove(i))
}

/// What `prune` returns is drawn from `kept` and `rest`, is no longer than
/// both together, and is both together where nothing was dropped.
pub proof fn prune_is_drawn(kept: Seq<FdSpec>, rest: Seq<FdSpec>)
    ensures
        drawn_from(prune(kept, rest), kept + rest),
        prune(kept, rest).len() <= kept.len() + rest.len(),
        prune(kept, rest).len() == kept.len() + rest.len() ==> prune(kept, rest) == kept + rest,
    decreases rest.len(),
{
    let whole = kept + rest;
    let out = prune(kept, rest);
    if rest.len() == 0 {
        assert(whole =~= kept);
    } else {
        let tail = rest.drop_first();
        if determines(rest[0].lhs(), rest[0].rhs(), kept + tail) {
            prune_is_drawn(kept, tail);
            assert forall|i: int| 0 <= i < out.len() implies whole.contains(#[trigger] out[i]) by {
                assert((kept + tail).contains(out[i]));
                let j = choose|j: int| 0 <= j < (kept + tail).len() && (kept + tail)[j] == out[i];
                if j < kept.len() {
                    assert(whole[j] == out[i]);
                } else {
                    assert(whole[j + 1] == out[i]);
                }
            }
        } else {
            prune_is_drawn(kept.push(rest[0]), tail);
            assert(kept.push(rest[0]) + tail =~= whole);
        }
    }
}

/// Dropping a dependency that follows from the others changes no consequence.
proof fn dropping_redundant_is_equivalent(whole: Seq<FdSpec>, p: int)
    requires
        0 <= p < whole.len(),
        determines(whole[p].lhs(), whole[p].rhs(), whole.remove(p)),
    ensures
        equivalent(whole, whole.remove(p)),
{
    let less = whole.remove(p);
    assert forall|z: Set<Attr>| #[trigger] closed_under(z, whole) implies closed_under(z, less) by {
        assert forall|i: int|
            #![trigger less[i]]
            0 <= i < less.len() && less[i].lhs().subset_of(z) implies less[i].rhs().subset_of(z) by {
            if i < p {
                assert(less[i] == whole[i]);
            } else {
                assert(less[i] == whole[i + 1]);
            }
        }
    }
    assert forall|z: Set<Attr>| #[trigger] closed_under(z, less) implies closed_under(z, whole) by {
        assert forall|i: int|
            #![trigger whole[i]]
            0 <= i < whole.len() && whole[i].lhs().subset_of(z) implies whole[i].rhs().subset_of(
            z,
        ) by {
            if i < p {
                assert(less[i] == whole[i]);
            } else if i == p {
                closure_is_least(whole[p].lhs(), less, z);
            } else {
                assert(less[i - 1] == whole[i]);
            }
        }
    }
    same_closed_sets_is_equivalent(whole, less);
}

/// Pruning changes no consequence.
pub proof fn prune_is_equivalent(kept: Seq<FdSpec>, rest: Seq<FdSpec>)
    ensures
        equivalent(kept + rest, prune(kept, rest)),
    decreases rest.len(),
{
    let whole = kept + rest;
    if rest.len() == 0 {
        assert(whole =~= kept);
        equivalent_is_reflexive(kept);
    } else {
        let tail = rest.drop_first();
        assert(kept + tail =~= whole.remove(kept.len() as int));
        if determines(rest[0].lhs(), rest[0].rhs(), kept + tail) {
            dropping_redundant_is_equivalent(whole, kept.len() as int);
            prune_is_equivalent(kept, tail);
            equivalent_is_transitive(whole, kept + tail, prune(kept, tail));
        } else {
            assert(kept.push(rest[0]) + tail =~= whole);
            prune_is_equivalent(kept.push(rest[0]), tail);
        }
    }
}

/// Dropping two dependencies leaves only such as dropping one of them leaves.
proof fn remove_two_is_drawn(whole: Seq<FdSpec>, p: int, q: int)
    requires
        0 <= p < q < whole.len(),
    ensures
        drawn_from(whole.remove(q).remove(p), whole.remove(p)),
        whole.remove(q)[p] == whole[p],
{
    let inner = whole.remove(q).remove(p);
    let outer = whole.remove(p);
    assert forall|k: int| 0 <= k < inner.len() implies outer.contains(#[trigger] inner[k]) by {
        if k < p {
            assert(outer[k] == inner[k]);
        } else if k + 1 < q {
            assert(outer[k] == inner[k]);
        } else {
            assert(outer[k + 1] == inner[k]);
        }
    }
}

/// Where no dependency of `kept` follows from the others of `kept` and
/// `rest` together, what `prune` returns holds no redundant dependency.
pub proof fn prune_is_nonredundant(kept: Seq<FdSpec>, rest: Seq<FdSpec>)
    requires
        forall|p: int|
            #![trigger (kept + rest)[p]]
            0 <= p < kept.len() ==> !determines(
                (kept + rest)[p].lhs(),
                (kept + rest)[p].rhs(),
                (kept + rest).remove(p),
            ),
    ensures
        nonredundant(prune(kept, rest)),
    decreases rest.len(),
{
    let whole = kept + rest;
    if rest.len() == 0 {
        assert(whole =~= kept);
    } else {
        let tail = rest.drop_first();
        let less = kept + tail;
        assert(less =~= whole.remove(kept.len() as int));
        if determines(rest[0].lhs(), rest[0].rhs(), less) {
            assert forall|p: int| #![trigger less[p]] 0 <= p < kept.len() implies !determines(
                less[p].lhs(),
                less[p].rhs(),
                less.remove(p),
            ) by {
                remove_two_is_drawn(whole, p, kept.len() as int);
                closure_grows_with_dependencies(less[p].lhs(), less.remove(p), whole.remove(p));
                assert(!determines(whole[p].lhs(), whole[p].rhs(), whole.remove(p)));
            }
            prune_is_nonredundant(kept, tail);
        } else {
            let longer = kept.push(rest[0]);
            assert(longer + tail =~= whole);
            assert(whole[kept.len() as int] == rest[0]);
            prune_is_nonredundant(longer, tail);
        }
    }
}

/// Where no dependency of `rest` follows from the others of `kept` and
/// `rest` together, `prune` drops nothing.
pub proof fn prune_of_nonredundant(kept: Seq<FdSpec>, rest: Seq<FdSpec>)
    requires
        forall|p: int|
            #![trigger (kept + rest)[p]]
            kept.len() <= p < kept.len() + rest.len() ==> !determines(
                (kept + rest)[p].lhs(),
                (kept + rest)[p].rhs(),
                (kept + rest).remove(p),
            ),
    ensures
        prune(kept, rest) == kept + rest,
    decreases rest.len(),
{
    let whole = kept + rest;
    if rest.len() == 0 {
        assert(whole =~= kept);
    } else {
        let tail = rest.drop_first();
        let longer = kept.push(rest[0]);
        assert(kept + tail =~= whole.remove(kept.len() as int));
        assert(whole[kept.len() as int] == rest[0]);
        assert(longer + tail =~= whole);
        prune_of_nonredundant(longer, tail);
    }
}

/// The canonical cover of `fds`: resultants split, determinants reduced,
/// redundant dependencies pruned, each step in the order in which the
/// dependencies stand.
pub open spec fn canonical_cover(fds: Seq<FdSpec>) -> Seq<FdSpec> {
    prune(Seq::empty(), left_reduce(split(fds)))
}

/// Every resultant is a single attribute.
pub open spec fn singleton_resultants(fds: Seq<FdSpec>) -> bool {
    forall|i: int| 0 <= i < fds.len() ==> (#[trigger] fds[i]).resultant.len() == 1
}

/// A cover is canonical: every resultant is a single attribute, no
/// determinant holds an attribute that could be dropped, and no dependency
/// follows from the others.
pub open spec fn canonical(fds: Seq<FdSpec>) -> bool {
    &&& singleton_resultants(fds)
    &&& left_reduced(fds)
    &&& nonredundant(fds)
}

/// The canonical cover has the consequences of the dependencies it was made
/// from, and is canonical.
pub proof fn canonical_cover_is_canonical(fds: Seq<FdSpec>)
    ensures
        equivalent(fds, canonical_cover(fds)),
        canonical(canonical_cover(fds)),
{
    let none = Seq::<FdSpec>::empty();
    let parts = split(fds);
    let lean = left_reduce(parts);
    let cover = canonical_cover(fds);
    split_is_equivalent(fds);
    split_has_singletons(fds);
    left_reduce_is_sound(parts);
    assert(none + lean =~= lean);
    prune_is_equivalent(none, lean);
    prune_is_drawn(none, lean);
    prune_is_nonredundant(none, lean);
    equivalent_is_transitive(fds, parts, lean);
    equivalent_is_transitive(fds, lean, cover);
    assert forall|i: int| 0 <= i < cover.len() implies (#[trigger] cover[i]).resultant.len()
        == 1 by {
        assert(lean.contains(cover[i]));
        let j = choose|j: int| 0 <= j < lean.len() && lean[j] == cover[i];
        assert(lean[j].resultant == parts[j].resultant);
    }
    assert forall|i: int| #![trigger cover[i]] 0 <= i < cover.len() implies irreducible(
        cover[i].determinant,
        cover[i].rhs(),
        cover,
    ) by {
        assert(lean.contains(cover[i]));
        let j = choose|j: int| 0 <= j < lean.len() && lean[j] == cover[i];
        assert(irreducible(lean[j].determinant, lean[j].rhs(), lean));
        assert forall|p: int| 0 <= p < cover[i].determinant.len() implies !determines(
            #[trigger] cover[i].determinant.remove(p).to_set(),
            cover[i].rhs(),
            cover,
        ) by {
            equivalent_closures(lean, cover, cover[i].determinant.remove(p).to_set());
        }
    }
}

/// In a set without redundant dependency, leaving one out changes the
/// consequences.
pub proof fn nonredundant_needs_every_member(fds: Seq<FdSpec>, i: int)
    requires
        nonredundant(fds),
        0 <= i < fds.len(),
    ensures
        !equivalent(fds, fds.remove(i)),
{
    assert(!determines(fds[i].lhs(), fds[i].rhs(), fds.remove(i)));
}

/// A dependency follows from the others exactly when leaving it out changes
/// no consequence.
pub proof fn redundant_iff_removable(fds: Seq<FdSpec>, i: int)
    requires
        0 <= i < fds.len(),
    ensures
        determines(fds[i].lhs(), fds[i].rhs(), fds.remove(i)) <==> equivalent(fds, fds.remove(i)),
{
    if determines(fds[i].lhs(), fds[i].rhs(), fds.remove(i)) {
        dropping_redundant_is_equivalent(fds, i);
    }
}

/// `fds` with the determinant of the dependency at `i` short of its place
/// `p`.
pub open spec fn narrowed(fds: Seq<FdSpec>, i: int, p: int) -> Seq<FdSpec> {
    fds.update(
        i,
        FdSpec { determinant: fds[i].determinant.remove(p), resultant: fds[i].resultant },
    )
}

/// In a left-reduced set, dropping any one place of any determinant changes
/// the consequences.
pub proof fn left_reduced_needs_every_attribute(fds: Seq<FdSpec>, i: int, p: int)
    requires
        left_reduced(fds),
        0 <= i < fds.len(),
        0 <= p < fds[i].determinant.len(),
    ensures
        !determines(fds[i].determinant.remove(p).to_set(), fds[i].rhs(), fds),
        !equivalent(fds, narrowed(fds, i, p)),
{
    assert(irreducible(fds[i].determinant, fds[i].rhs(), fds));
    let other = narrowed(fds, i, p);
    assert(other[i].rhs() == fds[i].rhs());
    assert(other[i].lhs() == fds[i].determinant.remove(p).to_set());
}

/// A set without redundant dependency holds no dependency twice.
pub proof fn nonredundant_has_no_duplicates(fds: Seq<FdSpec>)
    requires
        nonredundant(fds),
    ensures
        all_differ(fds),
{
    assert forall|i: int, j: int|
        #![trigger fds[i], fds[j]]
        0 <= i < j < fds.len() implies !fds[i].same_as(fds[j]) by {
        if fds[i].same_as(fds[j]) {
            let rest = fds.remove(i);
            assert(rest[j - 1] == fds[j]);
            member_is_determined(rest, j - 1);
            assert(determines(fds[i].lhs(), fds[i].rhs(), rest));
        }
    }
}

/// Every dependency of a split comes from a dependency of `fds`: it has the
/// same determinant, with each attribute once, and a resultant drawn from
/// that of the other.
proof fn split_stems(fds: Seq<FdSpec>, k: int) -> (j: int)
    requires
        0 <= k < split(fds).len(),
    ensures
        0 <= j < fds.len(),
        split(fds)[k].determinant == distinct(fds[j].determinant),
        split(fds)[k].rhs().subset_of(fds[j].rhs()),
    decreases fds.len(),
{
    let front = split(fds.drop_last());
    let fan = fan_out(fds.last());
    if k < front.len() {
        assert(split(fds)[k] == front[k]);
        split_stems(fds.drop_last(), k)
    } else {
        let fd = fds.last();
        let res = distinct(fd.resultant);
        let n = k - front.len();
        assert(split(fds)[k] == fan[n]);
        merge_is_union(Seq::empty(), fd.resultant);
        assert forall|a: Attr| fan[n].rhs().contains(a) implies fd.rhs().contains(a) by {
            let p = choose|p: int| 0 <= p < fan[n].resultant.len() && fan[n].resultant[p] == a;
            assert(a == res[n]);
            assert(res.to_set().contains(a));
        }
        fds.len() - 1
    }
}

/// The canonical cover of the dependencies of a valid schema makes a valid
/// schema with the same attributes.
pub proof fn canonical_cover_is_valid(attrs: Seq<Attr>, fds: Seq<FdSpec>)
    requires
        valid_schema(attrs, fds),
    ensures
        valid_schema(attrs, canonical_cover(fds)),
{
    let none = Seq::<Attr>::empty();
    let parts = split(fds);
    let lean = left_reduce(parts);
    let cover = canonical_cover(fds);
    let universe = attrs.to_set();
    split_has_singletons(fds);
    prune_is_drawn(Seq::empty(), lean);
    assert(Seq::<FdSpec>::empty() + lean =~= lean);
    assert forall|k: int| 0 <= k < parts.len() implies (#[trigger] parts[k]).determinant.len()
        > 0 && parts[k].lhs().subset_of(universe) && parts[k].rhs().subset_of(universe) by {
        let m = split_stems(fds, k);
        assert(well_formed(fds[m], universe));
        merge_is_union(none, fds[m].determinant);
        assert(parts[k].lhs() =~= fds[m].lhs());
        assert(fds[m].lhs().contains(fds[m].determinant[0]));
        assert(parts[k].determinant.contains(fds[m].determinant[0]));
    }
    closure_of_nothing(parts);
    canonical_cover_is_canonical(fds);
    nonredundant_has_no_duplicates(cover);
    assert forall|i: int| 0 <= i < cover.len() implies well_formed(
        #[trigger] cover[i],
        universe,
    ) by {
        assert(lean.contains(cover[i]));
        let j = choose|j: int| 0 <= j < lean.len() && lean[j] == cover[i];
        let fd = parts[j];
        assert(lean[j] == reduced(fd, parts));
        assert(fd.determinant.len() > 0);
        assert(none + fd.determinant =~= fd.determinant);
        trim_is_drawn(none, fd.determinant, fd.rhs(), parts);
        member_is_determined(parts, j);
        trim_still_determines(none, fd.determinant, fd.rhs(), parts);
        assert(fd.rhs().contains(fd.resultant[0]));
        if cover[i].determinant.len() == 0 {
            assert(cover[i].lhs() =~= Set::<Attr>::empty());
            assert(closure(cover[i].lhs(), parts).contains(fd.resultant[0]));
        }
    }
}

/// The split of `fds`, built dependency by dependency.
fn split_resultants(fds: &Vec<FunctionalDependency>) -> (out: Vec<FunctionalDependency>)
    ensures
        out.deep_view() == split(fds.deep_view()),
{
    let ghost f = fds.deep_view();
    let mut out: Vec<FunctionalDependency> = Vec::new();
    assert(f.take(0) =~= Seq::<FdSpec>::empty());
    assert(out.deep_view() =~= split(f.take(0)));
    let mut i: usize = 0;
    while i < fds.len()
        invariant
            i <= fds.len(),
            f == fds.deep_view(),
            out.deep_view() == split(f.take(i as int)),
        decreases fds.len() - i,
    {
        let determinant = without_duplicates(&fds[i].determinant);
        let resultant = without_duplicates(&fds[i].resultant);
        let ghost before = out.deep_view();
        let ghost fan = fan_out(f[i as int]);
        assert(f[i as int] == fds[i as int]@);
        let mut k: usize = 0;
        while k < resultant.len()
            invariant
                k <= resultant.len(),
                fan == fan_out(f[i as int]),
                fan.len() == resultant.len(),
                determinant.deep_view() == distinct(f[i as int].determinant),
                resultant.deep_view() == distinct(f[i as int].resultant),
                out.deep_view() == before + fan.take(k as int),
            decreases resultant.len() - k,
        {
            let ghost sofar = out.deep_view();
            let mut single: Vec<String> = Vec::new();
            single.push(resultant[k].clone());
            assert(single.deep_view() =~= seq![resultant.deep_view()[k as int]]);
            let copy = determinant.clone();
            assert(copy@ =~= determinant@);
            out.push(FunctionalDependency { determinant: copy, resultant: single });
            assert(out.deep_view() =~= sofar.push(fan[k as int]));
            assert(fan.take(k as int + 1) =~= fan.take(k as int).push(fan[k as int]));
            k += 1;
        }
        proof {
            assert(fan.take(fan.len() as int) =~= fan);
            assert(f.take(i as int + 1).drop_last() =~= f.take(i as int));
            assert(f.take(i as int + 1).last() == f[i as int]);
        }
        i += 1;
    }
    assert(f.take(fds.len() as int) =~= f);
    out
}

/// One scan of left reduction: each determinant in turn is trimmed to what
/// is needed to determine its resultant, under the cover as it stands when
/// the turn of the dependency comes. Says whether anything was dropped.
fn reduce_pass(cover: &mut Vec<FunctionalDependency>) -> (changed: bool)
    ensures
        final(cover).deep_view() == left_reduce(old(cover).deep_view()),
        changed == (final(cover).deep_view() != old(cover).deep_view()),
{
    let ghost start = cover.deep_view();
    let ghost none = Seq::<Attr>::empty();
    let mut changed = false;
    let mut i: usize = 0;
    assert(cover.deep_view() =~= partly_reduced(start, 0));
    while i < cover.len()
        invariant
            i <= cover.len(),
            cover.len() == start.len(),
            none == Seq::<Attr>::empty(),
            cover.deep_view() == partly_reduced(start, i as int),
            !changed ==> cover.deep_view() == start,
            changed ==> exists|k: int|
                0 <= k < i && #[trigger] cover.deep_view()[k].determinant.len()
                    != start[k].determinant.len(),
        decreases cover.len() - i,
    {
        let ghost now = cover.deep_view();
        let shrunk = shrink(&cover[i].determinant, &cover[i].resultant, cover);
        let resultant = cover[i].resultant.clone();
        assert(resultant@ =~= cover[i as int].resultant@);
        proof {
            assert(now[i as int] == start[i as int]);
            assert(now[i as int] == cover[i as int]@);
            partly_reduced_is_equivalent(start, i as int);
            trim_under_equivalent(
                none,
                start[i as int].determinant,
                start[i as int].rhs(),
                start,
                now,
            );
            trim_is_drawn(none, start[i as int].determinant, start[i as int].rhs(), start);
            assert(none + start[i as int].determinant =~= start[i as int].determinant);
        }
        let differs = shrunk.len() != cover[i].determinant.len();
        cover.set(i, FunctionalDependency { determinant: shrunk, resultant });
        proof {
            let next = cover.deep_view();
            assert(next[i as int] == cover[i as int]@);
            assert(next =~= partly_reduced(start, i as int + 1)) by {
                assert forall|k: int| 0 <= k < next.len() implies next[k] == partly_reduced(
                    start,
                    i as int + 1,
                )[k] by {
                    if k != i {
                        assert(next[k] == cover[k]@);
                        assert(now[k] == cover[k]@);
                    }
                }
            }
            if differs || changed {
                if differs {
                    assert(next[i as int].determinant.len() != start[i as int].determinant.len());
                } else {
                    let k = choose|k: int|
                        0 <= k < i && #[trigger] now[k].determinant.len()
                            != start[k].determinant.len();
                    assert(next[k] == now[k]);
                }
            } else {
                assert(next =~= start);
            }
        }
        if differs {
            changed = true;
        }
        i += 1;
    }
    changed
}

/// A copy of `fds` without the dependency at `index`.
fn without_dependency(fds: &Vec<FunctionalDependency>, index: usize) -> (out: Vec<
    FunctionalDependency,
>)
    requires
        index < fds.len(),
    ensures
        out.deep_view() == fds.deep_view().remove(index as int),
{
    let mut out: Vec<FunctionalDependency> = Vec::new();
    let mut i: usize = 0;
    while i < fds.len()
        invariant
            i <= fds.len(),
            index < fds.len(),
            out.len() == if i <= index { i as int } else { i - 1 },
            forall|k: int|
                0 <= k < out.len() ==> out.deep_view()[k] == fds.deep_view()[if k < index {
                    k
                } else {
                    k + 1
                }],
        decreases fds.len() - i,
    {
        let ghost before = out.deep_view();
        if i != index {
            out.push(fds[i].clone());
            assert(out.deep_view() =~= before.push(fds[i as int]@));
        }
        i += 1;
    }
    assert(out.deep_view() =~= fds.deep_view().remove(index as int));
    out
}

/// One scan of pruning: each dependency in turn is dropped when it follows
/// from the others that are still there.
fn prune_pass(cover: &Vec<FunctionalDependency>) -> (out: Vec<FunctionalDependency>)
    ensures
        out.deep_view() == prune(Seq::empty(), cover.deep_view()),
{
    let ghost start = cover.deep_view();
    let mut kept = cover.clone();
    assert(kept.deep_view() =~= start);
    assert(kept.deep_view().take(0) =~= Seq::<FdSpec>::empty());
    assert(kept.deep_view().skip(0) =~= start);
    let mut j: usize = 0;
    while j < kept.len()
        invariant
            j <= kept.len(),
            prune(kept.deep_view().take(j as int), kept.deep_view().skip(j as int)) == prune(
                Seq::empty(),
                start,
            ),
        decreases kept.len() - j,
    {
        let ghost s = kept.deep_view();
        let others = without_dependency(&kept, j);
        let reach = attribute_closure(&kept[j].determinant, &others);
        proof {
            assert(s[j as int] == kept[j as int]@);
            assert(s.skip(j as int).drop_first() =~= s.skip(j as int + 1));
            assert(s.take(j as int) + s.skip(j as int + 1) =~= s.remove(j as int));
            assert(s.skip(j as int)[0] == s[j as int]);
        }
        if is_subset(&kept[j].resultant, &reach) {
            kept = others;
            proof {
                assert(kept.deep_view().take(j as int) =~= s.take(j as int));
                assert(kept.deep_view().skip(j as int) =~= s.skip(j as int + 1));
            }
        } else {
            j += 1;
            proof {
                assert(s.take(j as int) =~= s.take(j as int - 1).push(s[j as int - 1]));
            }
        }
    }
    proof {
        assert(kept.deep_view().take(j as int) =~= kept.deep_view());
        assert(kept.deep_view().skip(j as int) =~= Seq::<FdSpec>::empty());
    }
    kept
}

/// A canonical cover of `fds`.
///
/// The resultants are split into single attributes. Then scans drop from
/// each determinant the attributes that are not needed, until a scan drops
/// nothing. Then scans drop each dependency that follows from the others,
/// until a scan drops nothing. Every scan goes by the order in which the
/// dependencies and their attributes stand.
pub fn minimal_cover(fds: &Vec<FunctionalDependency>) -> (cover: Vec<FunctionalDependency>)
    ensures
        cover.deep_view() == canonical_cover(fds.deep_view()),
        equivalent(fds.deep_view(), cover.deep_view()),
        canonical(cover.deep_view()),
{
    let mut cover = split_resultants(fds);
    let ghost parts = cover.deep_view();
    let ghost lean = left_reduce(parts);
    let mut settled = false;
    while !settled
        invariant
            lean == left_reduce(parts),
            cover.deep_view() == parts || cover.deep_view() == lean,
            settled ==> cover.deep_view() == lean,
        decreases
                if settled {
                    0int
                } else if cover.deep_view() == lean {
                    1int
                } else {
                    2int
                },
    {
        proof {
            left_reduce_is_sound(parts);
            left_reduce_of_left_reduced(lean);
        }
        let changed = reduce_pass(&mut cover);
        settled = !changed;
    }
    let ghost none = Seq::<FdSpec>::empty();
    let ghost pruned = prune(none, lean);
    settled = false;
    while !settled
        invariant
            none == Seq::<FdSpec>::empty(),
            pruned == prune(none, lean),
            cover.deep_view() == lean || cover.deep_view() == pruned,
            settled ==> cover.deep_view() == pruned,
        decreases
                if settled {
                    0int
                } else if cover.deep_view() == pruned {
                    1int
                } else {
                    2int
                },
    {
        proof {
            assert(none + lean =~= lean);
            assert(none + pruned =~= pruned);
            prune_is_nonredundant(none, lean);
            prune_of_nonredundant(none, pruned);
            prune_is_drawn(none, cover.deep_view());
            assert(none + cover.deep_view() =~= cover.deep_view());
        }
        let next = prune_pass(&cover);
        settled = next.len() == cover.len();
        cover = next;
    }
    proof {
        canonical_cover_is_canonical(fds.deep_view());
    }
    cover
}

} // verus!
