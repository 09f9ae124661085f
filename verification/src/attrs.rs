//! Attribute sets held as vectors of names.
//!
//! An attribute is a `String`; contracts see it as its view, a `Seq<char>`.
//! A vector of attributes is seen as the sequence of those views (its deep
//! view), and as a set through `to_set`.

use vstd::prelude::*;

verus! {

/// An attribute name as contracts see it.
pub type Attr = Seq<char>;

/// Whether `name` occurs in `attrs`.
pub fn has_attribute(attrs: &Vec<String>, name: &String) -> (found: bool)
    ensures
        found == attrs.deep_view().contains(name@),
{
    let mut i: usize = 0;
    while i < attrs.len()
        invariant
            i <= attrs.len(),
            forall|k: int| 0 <= k < i ==> attrs.deep_view()[k] != name@,
        decreases attrs.len() - i,
    {
        if attrs[i] == *name {
            assert(attrs.deep_view()[i as int] == name@);
            return true;
        }
        i += 1;
    }
    false
}

/// Whether every attribute of `small` occurs in `big`.
pub fn is_subset(small: &Vec<String>, big: &Vec<String>) -> (all: bool)
    ensures
        all == small.deep_view().to_set().subset_of(big.deep_view().to_set()),
{
    let mut i: usize = 0;
    while i < small.len()
        invariant
            i <= small.len(),
            forall|k: int| 0 <= k < i ==> big.deep_view().contains(#[trigger] small.deep_view()[k]),
        decreases small.len() - i,
    {
        if !has_attribute(big, &small[i]) {
            assert(small.deep_view().to_set().contains(small.deep_view()[i as int]));
            return false;
        }
        i += 1;
    }
    true
}

/// Whether the two vectors hold the same attributes, whatever the order.
pub fn same_attributes(left: &Vec<String>, right: &Vec<String>) -> (same: bool)
    ensures
        same == (left.deep_view().to_set() == right.deep_view().to_set()),
{
    let same = is_subset(left, right) && is_subset(right, left);
    proof {
        if same {
            assert(left.deep_view().to_set() =~= right.deep_view().to_set());
        }
    }
    same
}

/// `base` followed by the attributes of `extra` that are new, each once, in
/// the order in which they come.
pub open spec fn merge(base: Seq<Attr>, extra: Seq<Attr>) -> Seq<Attr>
    decreases extra.len(),
{
    if extra.len() == 0 {
        base
    } else {
        let sofar = merge(base, extra.drop_last());
        if sofar.contains(extra.last()) {
            sofar
        } else {
            sofar.push(extra.last())
        }
    }
}

/// The attributes of `s`, each once, in the order of first occurrence.
pub open spec fn distinct(s: Seq<Attr>) -> Seq<Attr> {
    merge(Seq::empty(), s)
}

/// `merge` is set union; it keeps `base` in front and adds no duplicate.
pub proof fn merge_is_union(base: Seq<Attr>, extra: Seq<Attr>)
    ensures
        merge(base, extra).to_set() == base.to_set().union(extra.to_set()),
        base.is_prefix_of(merge(base, extra)),
        base.no_duplicates() ==> merge(base, extra).no_duplicates(),
    decreases extra.len(),
{
    if extra.len() == 0 {
        assert(extra.to_set() =~= Set::<Attr>::empty());
        assert(merge(base, extra).to_set() =~= base.to_set().union(extra.to_set()));
    } else {
        let front = extra.drop_last();
        let sofar = merge(base, front);
        let out = merge(base, extra);
        merge_is_union(base, front);
        assert forall|a: Attr| out.to_set().contains(a) <==> base.to_set().union(
            extra.to_set(),
        ).contains(a) by {
            if out.contains(a) {
                let k = choose|k: int| 0 <= k < out.len() && out[k] == a;
                if k < sofar.len() {
                    assert(sofar.contains(a));
                    assert(sofar.to_set().contains(a));
                    if front.contains(a) {
                        let j = choose|j: int| 0 <= j < front.len() && front[j] == a;
                        assert(extra[j] == a);
                    }
                } else {
                    assert(extra[extra.len() - 1] == a);
                }
            }
            if base.contains(a) {
                assert(sofar.to_set().contains(a));
                let k = choose|k: int| 0 <= k < sofar.len() && sofar[k] == a;
                assert(out[k] == a);
            }
            if extra.contains(a) {
                let j = choose|j: int| 0 <= j < extra.len() && extra[j] == a;
                if j < front.len() {
                    assert(front[j] == a);
                    assert(sofar.to_set().contains(a));
                    let k = choose|k: int| 0 <= k < sofar.len() && sofar[k] == a;
                    assert(out[k] == a);
                } else {
                    if sofar.contains(a) {
                        let k = choose|k: int| 0 <= k < sofar.len() && sofar[k] == a;
                        assert(out[k] == a);
                    } else {
                        assert(out[sofar.len() as int] == a);
                    }
                }
            }
        }
        assert(out.to_set() =~= base.to_set().union(extra.to_set()));
    }
}

/// Merging attributes that are all there already changes nothing.
pub proof fn merge_of_known(base: Seq<Attr>, extra: Seq<Attr>)
    requires
        extra.to_set().subset_of(base.to_set()),
    ensures
        merge(base, extra) == base,
    decreases extra.len(),
{
    if extra.len() > 0 {
        let front = extra.drop_last();
        assert forall|a: Attr| front.to_set().contains(a) implies base.to_set().contains(a) by {
            let k = choose|k: int| 0 <= k < front.len() && front[k] == a;
            assert(extra[k] == a);
            assert(extra.to_set().contains(a));
        }
        merge_of_known(base, front);
        assert(extra.to_set().contains(extra.last()));
        assert(base.to_set().contains(extra.last()));
    }
}

/// Removing one place of a sequence without duplicates removes the attribute
/// that stood there from its set.
pub proof fn remove_drops_attribute(s: Seq<Attr>, i: int)
    requires
        s.no_duplicates(),
        0 <= i < s.len(),
    ensures
        s.remove(i).to_set() == s.to_set().remove(s[i]),
        s.remove(i).no_duplicates(),
{
    let r = s.remove(i);
    assert forall|a: Attr| r.to_set().contains(a) <==> s.to_set().remove(s[i]).contains(a) by {
        if r.contains(a) {
            let k = choose|k: int| 0 <= k < r.len() && r[k] == a;
            if k < i {
                assert(s[k] == a);
            } else {
                assert(s[k + 1] == a);
            }
        }
        if s.contains(a) && a != s[i] {
            let k = choose|k: int| 0 <= k < s.len() && s[k] == a;
            if k < i {
                assert(r[k] == a);
            } else {
                assert(r[k - 1] == a);
            }
        }
    }
    assert(r.to_set() =~= s.to_set().remove(s[i]));
}

/// Appends to `into` the attributes of `from` that it lacks.
pub fn absorb(into: &mut Vec<String>, from: &Vec<String>)
    ensures
        final(into).deep_view() == merge(old(into).deep_view(), from.deep_view()),
{
    let mut i: usize = 0;
    while i < from.len()
        invariant
            i <= from.len(),
            into.deep_view() == merge(old(into).deep_view(), from.deep_view().take(i as int)),
        decreases from.len() - i,
    {
        let ghost before = into.deep_view();
        let ghost upto = from.deep_view().take(i as int + 1);
        assert(upto.drop_last() =~= from.deep_view().take(i as int));
        assert(upto.last() == from[i as int]@);
        if !has_attribute(into, &from[i]) {
            into.push(from[i].clone());
            assert(into.deep_view() =~= before.push(from[i as int]@));
        }
        i += 1;
    }
    assert(from.deep_view().take(from.len() as int) =~= from.deep_view());
}

/// The attributes of `attrs`, each once, in the order of first occurrence.
pub fn without_duplicates(attrs: &Vec<String>) -> (out: Vec<String>)
    ensures
        out.deep_view() == distinct(attrs.deep_view()),
{
    let mut out: Vec<String> = Vec::new();
    assert(out.deep_view() =~= Seq::<Attr>::empty());
    absorb(&mut out, attrs);
    out
}

/// A copy of `attrs` without the attribute at `index`.
pub fn without_index(attrs: &Vec<String>, index: usize) -> (out: Vec<String>)
    requires
        index < attrs.len(),
    ensures
        out.deep_view() == attrs.deep_view().remove(index as int),
{
    let mut out: Vec<String> = Vec::new();
    let mut i: usize = 0;
    while i < attrs.len()
        invariant
            i <= attrs.len(),
            index < attrs.len(),
            out.len() == if i <= index { i as int } else { i - 1 },
            forall|k: int|
                0 <= k < out.len() ==> out.deep_view()[k] == attrs.deep_view()[if k < index {
                    k
                } else {
                    k + 1
                }],
        decreases attrs.len() - i,
    {
        let ghost before = out.deep_view();
        if i != index {
            out.push(attrs[i].clone());
            assert(out.deep_view() =~= before.push(attrs[i as int]@));
        }
        i += 1;
    }
    assert(out.deep_view() =~= attrs.deep_view().remove(index as int));
    out
}

} // verus!
