//! Greedy reduction of an attribute sequence, and candidate keys.

use vstd::prelude::*;
use crate::attrs::{
    distinct, is_subset, merge_is_union, remove_drops_attribute, without_duplicates,
    without_index, Attr,
};
use crate::closure::{
    attribute_closure, closure, closure_is_extensive, closure_is_monotone, closure_stays_within,
};
use crate::dependency::{FdSpec, FunctionalDependency};
use crate::equivalence::{equivalent, equivalent_closures};
use crate::schema::valid_schema;

verus! {

/// `x` determines `target` under `fds`: the closure of `x` holds all of it.
pub open spec fn determines(x: Set<Attr>, target: Set<Attr>, fds: Seq<FdSpec>) -> bool {
    target.subset_of(closure(x, fds))
}

/// One scan that drops attributes which are not needed to determine
/// `target`. The attributes of `rest` are taken in order; one is dropped when
/// those kept so far and those still to come determine `target` without it.
pub open spec fn trim(kept: Seq<Attr>, rest: Seq<Attr>, target: Set<Attr>, fds: Seq<FdSpec>) -> Seq<
    Attr,
>
    decreases rest.len(),
{
    if rest.len() == 0 {
        kept
    } else {
        let tail = rest.drop_first();
        if determines((kept + tail).to_set(), target, fds) {
            trim(kept, tail, target, fds)
        } else {
            trim(kept.push(rest[0]), tail, target, fds)
        }
    }
}

/// No single place of `s` can be dropped: what is left no longer determines
/// `target`.
pub open spec fn irreducible(s: Seq<Attr>, target: Set<Attr>, fds: Seq<FdSpec>) -> bool {
    forall|p: int| 0 <= p < s.len() ==> !determines(#[trigger] s.remove(p).to_set(), target, fds)
}

/// What `trim` returns is drawn from `kept` and `rest`, is no longer than
/// both together, and is both together where nothing was dropped.
pub proof fn trim_is_drawn(kept: Seq<Attr>, rest: Seq<Attr>, target: Set<Attr>, fds: Seq<FdSpec>)
    ensures
        trim(kept, rest, target, fds).to_set().subset_of((kept + rest).to_set()),
        trim(kept, rest, target, fds).len() <= kept.len() + rest.len(),
        trim(kept, rest, target, fds).len() == kept.len() + rest.len() ==> trim(
            kept,
            rest,
            target,
            fds,
        ) == kept + rest,
        (kept + rest).no_duplicates() ==> trim(kept, rest, target, fds).no_duplicates(),
    decreases rest.len(),
{
    if rest.len() == 0 {
        assert(kept + rest =~= kept);
    } else {
        let tail = rest.drop_first();
        let whole = kept + rest;
        if determines((kept + tail).to_set(), target, fds) {
            trim_is_drawn(kept, tail, target, fds);
            assert(kept + tail =~= whole.remove(kept.len() as int));
            assert forall|a: Attr| (kept + tail).to_set().contains(a) implies whole.to_set().contains(
                a,
            ) by {
                let k = choose|k: int| 0 <= k < (kept + tail).len() && (kept + tail)[k] == a;
                if k < kept.len() {
                    assert(whole[k] == a);
                } else {
                    assert(whole[k + 1] == a);
                }
            }
            if whole.no_duplicates() {
                remove_drops_attribute(whole, kept.len() as int);
            }
        } else {
            trim_is_drawn(kept.push(rest[0]), tail, target, fds);
            assert(kept.push(rest[0]) + tail =~= whole);
        }
    }
}

/// Where `kept` and `rest` together determine `target`, so does what `trim`
/// returns.
pub proof fn trim_still_determines(
    kept: Seq<Attr>,
    rest: Seq<Attr>,
    target: Set<Attr>,
    fds: Seq<FdSpec>,
)
    requires
        determines((kept + rest).to_set(), target, fds),
    ensures
        determines(trim(kept, rest, target, fds).to_set(), target, fds),
    decreases rest.len(),
{
    if rest.len() == 0 {
        assert(kept + rest =~= kept);
    } else {
        let tail = rest.drop_first();
        if determines((kept + tail).to_set(), target, fds) {
            trim_still_determines(kept, tail, target, fds);
        } else {
            assert(kept.push(rest[0]) + tail =~= kept + rest);
            trim_still_determines(kept.push(rest[0]), tail, target, fds);
        }
    }
}

/// Dropping a place from a shorter sequence leaves no more than dropping it
/// from the longer one.
proof fn remove_of_remove(whole: Seq<Attr>, p: int, q: int)
    requires
        0 <= p < q < whole.len(),
    ensures
        whole.remove(q).remove(p).to_set().subset_of(whole.remove(p).to_set()),
{
    let inner = whole.remove(q).remove(p);
    let outer = whole.remove(p);
    assert forall|a: Attr| inner.to_set().contains(a) implies outer.to_set().contains(a) by {
        let k = choose|k: int| 0 <= k < inner.len() && inner[k] == a;
        if k < p {
            assert(outer[k] == a);
        } else if k + 1 < q {
            assert(outer[k] == a);
        } else {
            assert(outer[k + 1] == a);
        }
    }
}

/// Where no place of `kept` can be dropped from `kept` and `rest` together,
/// no place can be dropped from what `trim` returns.
pub proof fn trim_is_irreducible(
    kept: Seq<Attr>,
    rest: Seq<Attr>,
    target: Set<Attr>,
    fds: Seq<FdSpec>,
)
    requires
        forall|p: int|
            0 <= p < kept.len() ==> !determines(
                #[trigger] (kept + rest).remove(p).to_set(),
                target,
                fds,
            ),
    ensures
        irreducible(trim(kept, rest, target, fds), target, fds),
    decreases rest.len(),
{
    let whole = kept + rest;
    if rest.len() == 0 {
        assert(whole =~= kept);
    } else {
        let tail = rest.drop_first();
        assert(kept + tail =~= whole.remove(kept.len() as int));
        if determines((kept + tail).to_set(), target, fds) {
            assert forall|p: int| 0 <= p < kept.len() implies !determines(
                #[trigger] (kept + tail).remove(p).to_set(),
                target,
                fds,
            ) by {
                remove_of_remove(whole, p, kept.len() as int);
                closure_is_monotone((kept + tail).remove(p).to_set(), whole.remove(p).to_set(), fds);
                assert(!determines(whole.remove(p).to_set(), target, fds));
            }
            trim_is_irreducible(kept, tail, target, fds);
        } else {
            let longer = kept.push(rest[0]);
            assert(longer + tail =~= whole);
            trim_is_irreducible(longer, tail, target, fds);
        }
    }
}

/// Where no place of `rest` can be dropped from `kept` and `rest` together,
/// `trim` drops nothing.
pub proof fn trim_of_irreducible(
    kept: Seq<Attr>,
    rest: Seq<Attr>,
    target: Set<Attr>,
    fds: Seq<FdSpec>,
)
    requires
        forall|p: int|
            kept.len() <= p < kept.len() + rest.len() ==> !determines(
                #[trigger] (kept + rest).remove(p).to_set(),
                target,
                fds,
            ),
    ensures
        trim(kept, rest, target, fds) == kept + rest,
    decreases rest.len(),
{
    let whole = kept + rest;
    if rest.len() == 0 {
        assert(whole =~= kept);
    } else {
        let tail = rest.drop_first();
        let longer = kept.push(rest[0]);
        assert(kept + tail =~= whole.remove(kept.len() as int));
        assert(longer + tail =~= whole);
        trim_of_irreducible(longer, tail, target, fds);
    }
}

/// `trim` depends on the dependencies only through their consequences.
pub proof fn trim_under_equivalent(
    kept: Seq<Attr>,
    rest: Seq<Attr>,
    target: Set<Attr>,
    f1: Seq<FdSpec>,
    f2: Seq<FdSpec>,
)
    requires
        equivalent(f1, f2),
    ensures
        trim(kept, rest, target, f1) == trim(kept, rest, target, f2),
    decreases rest.len(),
{
    if rest.len() > 0 {
        let tail = rest.drop_first();
        equivalent_closures(f1, f2, (kept + tail).to_set());
        trim_under_equivalent(kept, tail, target, f1, f2);
        trim_under_equivalent(kept.push(rest[0]), tail, target, f1, f2);
    }
}

/// One scan over `attrs` that drops, in order, each attribute without which
/// the others still determine `target` under `fds`.
pub fn shrink(attrs: &Vec<String>, target: &Vec<String>, fds: &Vec<FunctionalDependency>) -> (out:
    Vec<String>)
    ensures
        out.deep_view() == trim(
            Seq::empty(),
            attrs.deep_view(),
            target.deep_view().to_set(),
            fds.deep_view(),
        ),
{
    let ghost goal = target.deep_view().to_set();
    let ghost f = fds.deep_view();
    let mut kept = attrs.clone();
    assert(kept@ =~= attrs@);
    assert(kept.deep_view().take(0) =~= Seq::<Attr>::empty());
    assert(kept.deep_view().skip(0) =~= attrs.deep_view());
    let mut j: usize = 0;
    while j < kept.len()
        invariant
            j <= kept.len(),
            trim(kept.deep_view().take(j as int), kept.deep_view().skip(j as int), goal, f) == trim(
                Seq::empty(),
                attrs.deep_view(),
                goal,
                f,
            ),
            goal == target.deep_view().to_set(),
            f == fds.deep_view(),
        decreases kept.len() - j,
    {
        let ghost s = kept.deep_view();
        let candidate = without_index(&kept, j);
        let reach = attribute_closure(&candidate, fds);
        proof {
            assert(s.skip(j as int).drop_first() =~= s.skip(j as int + 1));
            assert(s.take(j as int) + s.skip(j as int + 1) =~= s.remove(j as int));
            assert(s.skip(j as int)[0] == s[j as int]);
        }
        if is_subset(target, &reach) {
            kept = candidate;
            proof {
                assert(kept.deep_view().take(j as int) =~= s.take(j as int));
                assert(kept.deep_view().skip(j as int) =~= s.skip(j as int + 1));
            }
        } else {
            j += 1;
            proof {
                assert(s.take(j as int) =~= s.take(j as int - 1).push(s[j as int - 1]));
            }
        }
    }
    proof {
        assert(kept.deep_view().take(j as int) =~= kept.deep_view());
        assert(kept.deep_view().skip(j as int) =~= Seq::<Attr>::empty());
    }
    kept
}

/// The candidate key that greedy removal finds: starting from all the
/// attributes, each in turn is dropped when the others still determine the
/// whole attribute set.
pub open spec fn candidate_key(attrs: Seq<Attr>, fds: Seq<FdSpec>) -> Seq<Attr> {
    trim(Seq::empty(), distinct(attrs), attrs.to_set(), fds)
}

/// The candidate key is drawn from the attributes, determines all of them,
/// and does so no longer when any one place of it is dropped.
pub proof fn candidate_key_is_minimal(attrs: Seq<Attr>, fds: Seq<FdSpec>)
    ensures
        candidate_key(attrs, fds).to_set().subset_of(attrs.to_set()),
        candidate_key(attrs, fds).no_duplicates(),
        determines(candidate_key(attrs, fds).to_set(), attrs.to_set(), fds),
        irreducible(candidate_key(attrs, fds), attrs.to_set(), fds),
{
    let all = distinct(attrs);
    let none = Seq::<Attr>::empty();
    merge_is_union(none, attrs);
    assert(none + all =~= all);
    assert(all.to_set() =~= attrs.to_set());
    closure_is_extensive(attrs.to_set(), fds);
    trim_is_drawn(none, all, attrs.to_set(), fds);
    trim_still_determines(none, all, attrs.to_set(), fds);
    trim_is_irreducible(none, all, attrs.to_set(), fds);
}

/// In a valid schema the closure of the candidate key is the whole attribute
/// set, and the closure of the key without any one of its attributes is not.
pub proof fn candidate_key_closure(attrs: Seq<Attr>, fds: Seq<FdSpec>)
    requires
        valid_schema(attrs, fds),
    ensures
        closure(candidate_key(attrs, fds).to_set(), fds) == attrs.to_set(),
        forall|a: Attr|
            candidate_key(attrs, fds).contains(a) ==> closure(
                #[trigger] candidate_key(attrs, fds).to_set().remove(a),
                fds,
            ) != attrs.to_set(),
{
    let key = candidate_key(attrs, fds);
    candidate_key_is_minimal(attrs, fds);
    closure_stays_within(key.to_set(), fds, attrs.to_set());
    assert(closure(key.to_set(), fds) =~= attrs.to_set());
    assert forall|a: Attr| key.contains(a) implies closure(
        #[trigger] key.to_set().remove(a),
        fds,
    ) != attrs.to_set() by {
        let p = choose|p: int| 0 <= p < key.len() && key[p] == a;
        remove_drops_attribute(key, p);
        assert(!determines(key.remove(p).to_set(), attrs.to_set(), fds));
    }
}

/// No proper part of the candidate key determines all the attributes.
pub proof fn candidate_key_has_no_smaller_key(attrs: Seq<Attr>, fds: Seq<FdSpec>, part: Set<Attr>)
    requires
        part.subset_of(candidate_key(attrs, fds).to_set()),
        part != candidate_key(attrs, fds).to_set(),
    ensures
        !determines(part, attrs.to_set(), fds),
{
    let key = candidate_key(attrs, fds);
    candidate_key_is_minimal(attrs, fds);
    assert(exists|a: Attr| key.to_set().contains(a) && !part.contains(a)) by {
        if forall|a: Attr| key.to_set().contains(a) ==> part.contains(a) {
            assert(part =~= key.to_set());
        }
    }
    let a = choose|a: Attr| key.to_set().contains(a) && !part.contains(a);
    let p = choose|p: int| 0 <= p < key.len() && key[p] == a;
    remove_drops_attribute(key, p);
    assert(!determines(key.remove(p).to_set(), attrs.to_set(), fds));
    closure_is_monotone(part, key.to_set().remove(a), fds);
}

/// One candidate key of the schema with attributes `attrs` and dependencies
/// `fds`.
///
/// Starting from all the attributes, scans are made in which each attribute
/// in turn is dropped when the others still determine every attribute; the
/// scans end with one that drops nothing.
pub fn minimal_key(attrs: &Vec<String>, fds: &Vec<FunctionalDependency>) -> (key: Vec<String>)
    ensures
        key.deep_view() == candidate_key(attrs.deep_view(), fds.deep_view()),
        key.deep_view().to_set().subset_of(attrs.deep_view().to_set()),
        key.deep_view().no_duplicates(),
        determines(key.deep_view().to_set(), attrs.deep_view().to_set(), fds.deep_view()),
        irreducible(key.deep_view(), attrs.deep_view().to_set(), fds.deep_view()),
{
    let ghost goal = attrs.deep_view().to_set();
    let ghost f = fds.deep_view();
    let ghost none = Seq::<Attr>::empty();
    let mut key = without_duplicates(attrs);
    let ghost all = key.deep_view();
    let mut settled = false;
    while !settled
        invariant
            goal == attrs.deep_view().to_set(),
            f == fds.deep_view(),
            all == distinct(attrs.deep_view()),
            none == Seq::<Attr>::empty(),
            key.deep_view() == all || key.deep_view() == trim(none, all, goal, f),
            settled ==> key.deep_view() == trim(none, all, goal, f),
        decreases key.len() + if settled { 0int } else { 1int },
    {
        let next = shrink(&key, attrs, fds);
        proof {
            let k = key.deep_view();
            trim_is_drawn(none, k, goal, f);
            assert(none + k =~= k);
            if k != all {
                assert(none + all =~= all);
                trim_is_irreducible(none, all, goal, f);
                trim_of_irreducible(none, k, goal, f);
            }
        }
        settled = next.len() == key.len();
        key = next;
    }
    proof {
        candidate_key_is_minimal(attrs.deep_view(), f);
    }
    key
}

} // verus!
