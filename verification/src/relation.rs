//! Named relations and their decomposition by synthesis.

use vstd::prelude::*;
use crate::attrs::{absorb, is_subset, merge, merge_is_union, same_attributes, Attr};
use crate::closure::{closure, closure_adds_only_resultants, closure_of_nothing};
use crate::cover::{canonical_cover, canonical_cover_is_valid};
use crate::dependency::{FdSpec, FunctionalDependency};
use crate::key::{candidate_key, candidate_key_closure, candidate_key_is_minimal};
use crate::schema::{all_differ, valid_schema, well_formed, RelationSchema, SchemaSpec};

verus! {

/// A relation as contracts see it.
pub struct RelationSpec {
    pub name: Seq<char>,
    pub schema: SchemaSpec,
}

/// A schema under a name.
#[derive(Debug)]
pub struct Relation {
    pub relation_name: String,
    pub schema: RelationSchema,
}

impl View for Relation {
    type V = RelationSpec;

    open spec fn view(&self) -> RelationSpec {
        RelationSpec { name: self.relation_name@, schema: self.schema@ }
    }
}

impl DeepView for Relation {
    type V = RelationSpec;

    open spec fn deep_view(&self) -> RelationSpec {
        self@
    }
}

/// No dependency before the one at `i` has its determinant.
pub open spec fn leads(m: Seq<FdSpec>, i: int) -> bool {
    forall|j: int| 0 <= j < i ==> (#[trigger] m[j]).lhs() != m[i].lhs()
}

/// The dependencies of `m` whose determinant is `lhs`, in order.
pub open spec fn group(m: Seq<FdSpec>, lhs: Set<Attr>) -> Seq<FdSpec>
    decreases m.len(),
{
    if m.len() == 0 {
        Seq::empty()
    } else if m.last().lhs() == lhs {
        group(m.drop_last(), lhs).push(m.last())
    } else {
        group(m.drop_last(), lhs)
    }
}

/// `base` followed by the attributes that the resultants of `g` add to it.
pub open spec fn gathered(base: Seq<Attr>, g: Seq<FdSpec>) -> Seq<Attr>
    decreases g.len(),
{
    if g.len() == 0 {
        base
    } else {
        merge(gathered(base, g.drop_last()), g.last().resultant)
    }
}

/// The schema made for the determinant of the dependency at `i`: the
/// dependencies with that determinant, over its attributes and theirs.
pub open spec fn child(m: Seq<FdSpec>, i: int) -> SchemaSpec {
    SchemaSpec {
        attributes: gathered(m[i].determinant, group(m, m[i].lhs())),
        dependencies: group(m, m[i].lhs()),
    }
}

/// The schemas made for the determinants that first occur among the first
/// `n` dependencies of `m`, in the order of these occurrences.
pub open spec fn children(m: Seq<FdSpec>, n: int) -> Seq<SchemaSpec>
    decreases n,
{
    if n <= 0 {
        Seq::empty()
    } else if leads(m, n - 1) {
        children(m, n - 1).push(child(m, n - 1))
    } else {
        children(m, n - 1)
    }
}

/// Some schema of `parts` holds every attribute of `key`.
pub open spec fn holds_key(parts: Seq<SchemaSpec>, key: Seq<Attr>) -> bool {
    exists|k: int|
        0 <= k < parts.len() && key.to_set().subset_of((#[trigger] parts[k]).attributes.to_set())
}

/// The decomposition of the schema with attributes `attrs` and dependencies
/// `fds`: one schema for each determinant of the canonical cover and, where
/// none of these holds the candidate key, one more for the key alone.
pub open spec fn synthesis(attrs: Seq<Attr>, fds: Seq<FdSpec>) -> Seq<SchemaSpec> {
    let m = canonical_cover(fds);
    let key = candidate_key(attrs, m);
    let parts = children(m, m.len() as int);
    if holds_key(parts, key) {
        parts
    } else {
        parts.push(SchemaSpec { attributes: key, dependencies: Seq::empty() })
    }
}

/// The schemas of `parts`, each under `name`.
pub open spec fn named(name: Seq<char>, parts: Seq<SchemaSpec>) -> Seq<RelationSpec> {
    Seq::new(parts.len(), |k: int| RelationSpec { name, schema: parts[k] })
}

/// The attributes that occur in some schema of `parts`.
pub open spec fn covered(parts: Seq<SchemaSpec>) -> Set<Attr> {
    Set::new(
        |a: Attr| exists|k: int| 0 <= k < parts.len() && (#[trigger] parts[k]).attributes.contains(a),
    )
}

/// What `group` returns are the dependencies of `m` with determinant `lhs`.
proof fn group_members(m: Seq<FdSpec>, lhs: Set<Attr>)
    ensures
        forall|k: int|
            0 <= k < group(m, lhs).len() ==> (#[trigger] group(m, lhs)[k]).lhs() == lhs
                && m.contains(group(m, lhs)[k]),
        forall|i: int| 0 <= i < m.len() && (#[trigger] m[i]).lhs() == lhs ==> group(m, lhs).contains(m[i]),
    decreases m.len(),
{
    if m.len() > 0 {
        let front = m.drop_last();
        let g = group(m, lhs);
        group_members(front, lhs);
        assert forall|k: int| 0 <= k < g.len() implies (#[trigger] g[k]).lhs() == lhs && m.contains(
            g[k],
        ) by {
            if k < group(front, lhs).len() {
                assert(g[k] == group(front, lhs)[k]);
                assert(front.contains(g[k]));
                let j = choose|j: int| 0 <= j < front.len() && front[j] == g[k];
                assert(m[j] == g[k]);
            } else {
                assert(g[k] == m[m.len() - 1]);
            }
        }
        assert forall|i: int| 0 <= i < m.len() && (#[trigger] m[i]).lhs() == lhs implies g.contains(
            m[i],
        ) by {
            if i < front.len() {
                assert(front[i] == m[i]);
                assert(group(front, lhs).contains(m[i]));
                let k = choose|k: int| 0 <= k < group(front, lhs).len() && group(front, lhs)[k] == m[i];
                assert(g[k] == m[i]);
            } else {
                assert(g[g.len() - 1] == m[i]);
            }
        }
    }
}

/// What `gathered` returns holds the attributes of `base` and of the
/// resultants of `g`, and no others; it keeps `base` free of duplicates.
proof fn gathered_is_union(base: Seq<Attr>, g: Seq<FdSpec>)
    ensures
        base.to_set().subset_of(gathered(base, g).to_set()),
        forall|k: int| 0 <= k < g.len() ==> (#[trigger] g[k]).rhs().subset_of(gathered(base, g).to_set()),
        forall|a: Attr|
            gathered(base, g).contains(a) ==> base.contains(a) || exists|k: int|
                0 <= k < g.len() && (#[trigger] g[k]).rhs().contains(a),
        base.no_duplicates() ==> gathered(base, g).no_duplicates(),
    decreases g.len(),
{
    if g.len() > 0 {
        let front = g.drop_last();
        let sofar = gathered(base, front);
        let out = gathered(base, g);
        gathered_is_union(base, front);
        merge_is_union(sofar, g.last().resultant);
        assert forall|k: int| 0 <= k < g.len() implies (#[trigger] g[k]).rhs().subset_of(
            out.to_set(),
        ) by {
            if k < front.len() {
                assert(front[k] == g[k]);
            }
        }
        assert forall|a: Attr| out.contains(a) implies base.contains(a) || exists|k: int|
            0 <= k < g.len() && (#[trigger] g[k]).rhs().contains(a) by {
            assert(out.to_set().contains(a));
            if sofar.to_set().contains(a) {
                if !base.contains(a) {
                    let k = choose|k: int| 0 <= k < front.len() && (#[trigger] front[k]).rhs().contains(a);
                    assert(g[k] == front[k]);
                }
            } else {
                assert(g[g.len() - 1].rhs().contains(a));
            }
        }
    }
}

/// Each schema of `children` is the one made for a determinant at its
/// first occurrence.
proof fn child_origin(m: Seq<FdSpec>, n: int, c: int) -> (l: int)
    requires
        0 <= n <= m.len(),
        0 <= c < children(m, n).len(),
    ensures
        0 <= l < n,
        leads(m, l),
        children(m, n)[c] == child(m, l),
    decreases n,
{
    if leads(m, n - 1) && c == children(m, n - 1).len() {
        n - 1
    } else {
        child_origin(m, n - 1, c)
    }
}

/// For each dependency, `children` holds the schema made for its
/// determinant.
proof fn child_for(m: Seq<FdSpec>, n: int, i: int) -> (found: (int, int))
    requires
        0 <= i < n <= m.len(),
    ensures
        0 <= found.0 < children(m, n).len(),
        0 <= found.1 <= i,
        m[found.1].lhs() == m[i].lhs(),
        children(m, n)[found.0] == child(m, found.1),
    decreases n,
{
    if i == n - 1 {
        if leads(m, n - 1) {
            (children(m, n - 1).len() as int, n - 1)
        } else {
            let j = choose|j: int| 0 <= j < n - 1 && (#[trigger] m[j]).lhs() == m[n - 1].lhs();
            child_for(m, n - 1, j)
        }
    } else {
        child_for(m, n - 1, i)
    }
}

/// Of dependencies that all differ, those with one determinant all differ.
proof fn group_all_differ(m: Seq<FdSpec>, lhs: Set<Attr>)
    requires
        all_differ(m),
    ensures
        all_differ(group(m, lhs)),
    decreases m.len(),
{
    if m.len() > 0 {
        let front = m.drop_last();
        let g = group(m, lhs);
        let before = group(front, lhs);
        assert(all_differ(front)) by {
            assert forall|i: int, j: int|
                #![trigger front[i], front[j]]
                0 <= i < j < front.len() implies !front[i].same_as(front[j]) by {
                assert(front[i] == m[i] && front[j] == m[j]);
            }
        }
        group_all_differ(front, lhs);
        group_members(front, lhs);
        assert forall|i: int, j: int|
            #![trigger g[i], g[j]]
            0 <= i < j < g.len() implies !g[i].same_as(g[j]) by {
            if j < before.len() {
                assert(g[i] == before[i] && g[j] == before[j]);
            } else {
                assert(g[i] == before[i]);
                assert(front.contains(before[i]));
                let k = choose|k: int| 0 <= k < front.len() && front[k] == before[i];
                assert(m[k] == g[i]);
                assert(g[j] == m[m.len() - 1]);
            }
        }
    }
}

/// The schema made for a determinant of well-formed dependencies that all
/// differ is valid.
proof fn child_is_valid(m: Seq<FdSpec>, l: int, universe: Set<Attr>)
    requires
        0 <= l < m.len(),
        forall|k: int| 0 <= k < m.len() ==> well_formed(#[trigger] m[k], universe),
        all_differ(m),
    ensures
        valid_schema(child(m, l).attributes, child(m, l).dependencies),
        child(m, l).attributes.to_set().subset_of(universe),
{
    let g = group(m, m[l].lhs());
    let attrs = child(m, l).attributes;
    group_members(m, m[l].lhs());
    group_all_differ(m, m[l].lhs());
    gathered_is_union(m[l].determinant, g);
    assert(well_formed(m[l], universe));
    assert(m[l].lhs().contains(m[l].determinant[0]));
    assert(attrs.contains(m[l].determinant[0]));
    assert forall|k: int| 0 <= k < g.len() implies well_formed(#[trigger] g[k], attrs.to_set()) by {
        assert(m.contains(g[k]));
        let j = choose|j: int| 0 <= j < m.len() && m[j] == g[k];
        assert(well_formed(m[j], universe));
    }
    assert forall|a: Attr| attrs.to_set().contains(a) implies universe.contains(a) by {
        if !m[l].determinant.contains(a) {
            let k = choose|k: int| 0 <= k < g.len() && (#[trigger] g[k]).rhs().contains(a);
            assert(m.contains(g[k]));
            let j = choose|j: int| 0 <= j < m.len() && m[j] == g[k];
            assert(well_formed(m[j], universe));
        } else {
            assert(m[l].lhs().contains(a));
        }
    }
}

/// The candidate key of a valid schema makes a valid schema by itself.
proof fn key_alone_is_valid(attrs: Seq<Attr>, fds: Seq<FdSpec>)
    requires
        valid_schema(attrs, fds),
    ensures
        valid_schema(candidate_key(attrs, fds), Seq::<FdSpec>::empty()),
{
    let key = candidate_key(attrs, fds);
    candidate_key_is_minimal(attrs, fds);
    if key.len() == 0 {
        assert(key.to_set() =~= Set::<Attr>::empty());
        closure_of_nothing(fds);
        assert(attrs.to_set().contains(attrs[0]));
    }
}

/// Every schema of a decomposition of a valid schema is valid.
pub proof fn synthesis_is_valid(attrs: Seq<Attr>, fds: Seq<FdSpec>)
    requires
        valid_schema(attrs, fds),
    ensures
        synthesis(attrs, fds).len() > 0,
        forall|k: int|
            0 <= k < synthesis(attrs, fds).len() ==> valid_schema(
                (#[trigger] synthesis(attrs, fds)[k]).attributes,
                synthesis(attrs, fds)[k].dependencies,
            ),
{
    let m = canonical_cover(fds);
    let key = candidate_key(attrs, m);
    let some = children(m, m.len() as int);
    let parts = synthesis(attrs, fds);
    canonical_cover_is_valid(attrs, fds);
    key_alone_is_valid(attrs, m);
    assert forall|k: int| 0 <= k < parts.len() implies valid_schema(
        (#[trigger] parts[k]).attributes,
        parts[k].dependencies,
    ) by {
        if k < some.len() {
            let l = child_origin(m, m.len() as int, k);
            child_is_valid(m, l, attrs.to_set());
        }
    }
}

/// The schemas of a decomposition of a valid schema hold, between them, the
/// attributes of the schema and no others.
pub proof fn synthesis_covers_attributes(attrs: Seq<Attr>, fds: Seq<FdSpec>)
    requires
        valid_schema(attrs, fds),
    ensures
        covered(synthesis(attrs, fds)) == attrs.to_set(),
{
    let m = canonical_cover(fds);
    let key = candidate_key(attrs, m);
    let some = children(m, m.len() as int);
    let parts = synthesis(attrs, fds);
    canonical_cover_is_valid(attrs, fds);
    candidate_key_is_minimal(attrs, m);
    candidate_key_closure(attrs, m);
    closure_adds_only_resultants(key.to_set(), m);
    assert forall|a: Attr| covered(parts).contains(a) implies attrs.to_set().contains(a) by {
        let k = choose|k: int| 0 <= k < parts.len() && (#[trigger] parts[k]).attributes.contains(a);
        if k < some.len() {
            let l = child_origin(m, m.len() as int, k);
            child_is_valid(m, l, attrs.to_set());
            assert(parts[k].attributes.to_set().contains(a));
        } else {
            assert(key.to_set().contains(a));
        }
    }
    assert forall|a: Attr| attrs.to_set().contains(a) implies covered(parts).contains(a) by {
        assert(closure(key.to_set(), m).contains(a));
        if key.to_set().contains(a) {
            if holds_key(some, key) {
                let k = choose|k: int|
                    0 <= k < some.len() && key.to_set().subset_of(
                        (#[trigger] some[k]).attributes.to_set(),
                    );
                assert(parts[k].attributes.to_set().contains(a));
                assert(parts[k].attributes.contains(a));
            } else {
                assert(parts[some.len() as int].attributes.contains(a));
            }
        } else {
            let i = choose|i: int| 0 <= i < m.len() && (#[trigger] m[i]).rhs().contains(a);
            let (c, l) = child_for(m, m.len() as int, i);
            let g = group(m, m[l].lhs());
            group_members(m, m[l].lhs());
            gathered_is_union(m[l].determinant, g);
            assert(g.contains(m[i]));
            let k = choose|k: int| 0 <= k < g.len() && g[k] == m[i];
            assert(g[k].rhs().subset_of(gathered(m[l].determinant, g).to_set()));
            assert(parts[c] == some[c]);
            assert(parts[c].attributes.to_set().contains(a));
            assert(parts[c].attributes.contains(a));
        }
    }
    assert(covered(parts) =~= attrs.to_set());
}

/// Every dependency of the canonical cover stands in a schema of the
/// decomposition, with all the dependencies that share its determinant.
pub proof fn synthesis_preserves_dependencies(attrs: Seq<Attr>, fds: Seq<FdSpec>, i: int)
    requires
        0 <= i < canonical_cover(fds).len(),
    ensures
        exists|c: int|
            0 <= c < synthesis(attrs, fds).len() && (#[trigger] synthesis(
                attrs,
                fds,
            )[c]).dependencies == group(canonical_cover(fds), canonical_cover(fds)[i].lhs())
                && synthesis(attrs, fds)[c].dependencies.contains(canonical_cover(fds)[i]),
{
    let m = canonical_cover(fds);
    let parts = synthesis(attrs, fds);
    let (c, l) = child_for(m, m.len() as int, i);
    group_members(m, m[l].lhs());
    assert(parts[c] == children(m, m.len() as int)[c]);
    assert(parts[c].dependencies == group(m, m[i].lhs()));
}

/// Two schemas of `children` are made for different determinants.
proof fn children_differ(m: Seq<FdSpec>, n: int, c1: int, c2: int) -> (found: (int, int))
    requires
        0 <= n <= m.len(),
        0 <= c1 < c2 < children(m, n).len(),
    ensures
        0 <= found.0 < n,
        0 <= found.1 < n,
        children(m, n)[c1] == child(m, found.0),
        children(m, n)[c2] == child(m, found.1),
        m[found.0].lhs() != m[found.1].lhs(),
    decreases n,
{
    if leads(m, n - 1) && c2 == children(m, n - 1).len() {
        let l1 = child_origin(m, n - 1, c1);
        (l1, n - 1)
    } else {
        children_differ(m, n - 1, c1, c2)
    }
}

/// No dependency stands in two schemas of a decomposition.
pub proof fn synthesis_separates_dependencies(
    attrs: Seq<Attr>,
    fds: Seq<FdSpec>,
    c1: int,
    c2: int,
    fd: FdSpec,
)
    requires
        0 <= c1 < c2 < synthesis(attrs, fds).len(),
        synthesis(attrs, fds)[c1].dependencies.contains(fd),
    ensures
        !synthesis(attrs, fds)[c2].dependencies.contains(fd),
{
    let m = canonical_cover(fds);
    let some = children(m, m.len() as int);
    let parts = synthesis(attrs, fds);
    if c2 < some.len() {
        let (l1, l2) = children_differ(m, m.len() as int, c1, c2);
        group_members(m, m[l1].lhs());
        group_members(m, m[l2].lhs());
        let g1 = group(m, m[l1].lhs());
        let g2 = group(m, m[l2].lhs());
        assert(parts[c1].dependencies == g1);
        assert(parts[c2].dependencies == g2);
        let k1 = choose|k: int| 0 <= k < g1.len() && g1[k] == fd;
        assert(g1[k1].lhs() == m[l1].lhs());
        if g2.contains(fd) {
            let k2 = choose|k: int| 0 <= k < g2.len() && g2[k] == fd;
            assert(g2[k2].lhs() == m[l2].lhs());
        }
    } else {
        assert(parts[c2].dependencies =~= Seq::<FdSpec>::empty());
    }
}

/// Some schema of a decomposition holds the candidate key of the cover.
pub proof fn synthesis_holds_key(attrs: Seq<Attr>, fds: Seq<FdSpec>)
    ensures
        holds_key(synthesis(attrs, fds), candidate_key(attrs, canonical_cover(fds))),
{
    let m = canonical_cover(fds);
    let key = candidate_key(attrs, m);
    let some = children(m, m.len() as int);
    let parts = synthesis(attrs, fds);
    if !holds_key(some, key) {
        assert(key.to_set().subset_of(parts[some.len() as int].attributes.to_set()));
    }
}

/// Whether no dependency before the one at `i` has its determinant.
fn leads_at(m: &Vec<FunctionalDependency>, i: usize) -> (first: bool)
    requires
        i < m.len(),
    ensures
        first == leads(m.deep_view(), i as int),
{
    let mut j: usize = 0;
    while j < i
        invariant
            j <= i,
            i < m.len(),
            forall|k: int| 0 <= k < j ==> (#[trigger] m.deep_view()[k]).lhs() != m.deep_view()[i as int].lhs(),
        decreases i - j,
    {
        assert(m.deep_view()[j as int] == m[j as int]@);
        assert(m.deep_view()[i as int] == m[i as int]@);
        if same_attributes(&m[j].determinant, &m[i].determinant) {
            return false;
        }
        j += 1;
    }
    true
}

/// The schema made for the determinant of the dependency at `i`.
fn group_schema(m: &Vec<FunctionalDependency>, i: usize, Ghost(universe): Ghost<Set<Attr>>) -> (schema:
    RelationSchema)
    requires
        i < m.len(),
        forall|k: int| 0 <= k < m.len() ==> well_formed(#[trigger] m.deep_view()[k], universe),
        all_differ(m.deep_view()),
    ensures
        schema@ == child(m.deep_view(), i as int),
{
    let ghost all = m.deep_view();
    let ghost lhs = all[i as int].lhs();
    let ghost base = all[i as int].determinant;
    assert(all[i as int] == m[i as int]@);
    let mut attributes = m[i].determinant.clone();
    assert(attributes@ =~= m[i as int].determinant@);
    let mut dependencies: Vec<FunctionalDependency> = Vec::new();
    assert(all.take(0) =~= Seq::<FdSpec>::empty());
    assert(dependencies.deep_view() =~= group(all.take(0), lhs));
    let mut k: usize = 0;
    while k < m.len()
        invariant
            k <= m.len(),
            i < m.len(),
            all == m.deep_view(),
            lhs == all[i as int].lhs(),
            base == all[i as int].determinant,
            dependencies.deep_view() == group(all.take(k as int), lhs),
            attributes.deep_view() == gathered(base, group(all.take(k as int), lhs)),
        decreases m.len() - k,
    {
        let ghost sofar = dependencies.deep_view();
        proof {
            assert(all[k as int] == m[k as int]@);
            assert(all[i as int] == m[i as int]@);
            assert(all.take(k as int + 1).drop_last() =~= all.take(k as int));
            assert(all.take(k as int + 1).last() == all[k as int]);
        }
        if same_attributes(&m[k].determinant, &m[i].determinant) {
            dependencies.push(m[k].clone());
            absorb(&mut attributes, &m[k].resultant);
            proof {
                assert(dependencies.deep_view() =~= sofar.push(all[k as int]));
                assert(sofar.push(all[k as int]).drop_last() =~= sofar);
            }
        }
        k += 1;
    }
    proof {
        assert(all.take(m.len() as int) =~= all);
        child_is_valid(all, i as int, universe);
    }
    RelationSchema::from_valid_parts(attributes, dependencies)
}

/// Whether some relation of `parts` holds every attribute of `key`.
fn some_holds_key(parts: &Vec<Relation>, key: &Vec<String>) -> (found: bool)
    ensures
        found == exists|k: int|
            0 <= k < parts.len() && key.deep_view().to_set().subset_of(
                (#[trigger] parts.deep_view()[k]).schema.attributes.to_set(),
            ),
{
    let mut k: usize = 0;
    while k < parts.len()
        invariant
            k <= parts.len(),
            forall|j: int|
                0 <= j < k ==> !key.deep_view().to_set().subset_of(
                    (#[trigger] parts.deep_view()[j]).schema.attributes.to_set(),
                ),
        decreases parts.len() - k,
    {
        assert(parts.deep_view()[k as int] == parts[k as int]@);
        if is_subset(key, parts[k].schema.attributes()) {
            return true;
        }
        k += 1;
    }
    false
}

impl Relation {
    /// The decomposition of the relation by synthesis.
    ///
    /// A canonical cover of the dependencies is taken. For each determinant
    /// of the cover, in the order of first occurrence, there is a relation
    /// with the dependencies that have this determinant, over its attributes
    /// and theirs. Where none of these relations holds the candidate key of
    /// the cover, one more follows for the key alone, without dependencies.
    /// Every relation has the name of the one that was decomposed.
    pub fn synthetic_approach_decompose(&self) -> (parts: Vec<Relation>)
        ensures
            parts.deep_view() == named(
                self@.name,
                synthesis(self@.schema.attributes, self@.schema.dependencies),
            ),
            parts.len() > 0,
            covered(synthesis(self@.schema.attributes, self@.schema.dependencies))
                == self@.schema.attributes.to_set(),
            holds_key(
                synthesis(self@.schema.attributes, self@.schema.dependencies),
                candidate_key(
                    self@.schema.attributes,
                    canonical_cover(self@.schema.dependencies),
                ),
            ),
            forall|k: int|
                0 <= k < parts.len() ==> valid_schema(
                    (#[trigger] parts.deep_view()[k]).schema.attributes,
                    parts.deep_view()[k].schema.dependencies,
                ),
    {
        let ghost attrs = self@.schema.attributes;
        let ghost fds = self@.schema.dependencies;
        let ghost name = self@.name;
        let cover = self.schema.find_minimal_cover();
        let m = cover.functional_dependencies();
        let ghost all = m.deep_view();
        proof {
            use_type_invariant(&self.schema);
            self.schema.valid_view();
            canonical_cover_is_valid(attrs, fds);
            synthesis_is_valid(attrs, fds);
            synthesis_covers_attributes(attrs, fds);
            synthesis_holds_key(attrs, fds);
        }
        let mut parts: Vec<Relation> = Vec::new();
        assert(parts.deep_view() =~= named(name, children(all, 0)));
        let mut i: usize = 0;
        while i < m.len()
            invariant
                i <= m.len(),
                all == m.deep_view(),
                name == self.relation_name@,
                forall|k: int| 0 <= k < all.len() ==> well_formed(#[trigger] all[k], attrs.to_set()),
                all_differ(all),
                parts.deep_view() == named(name, children(all, i as int)),
            decreases m.len() - i,
        {
            let ghost before = parts.deep_view();
            if leads_at(m, i) {
                let schema = group_schema(m, i, Ghost(attrs.to_set()));
                parts.push(Relation { relation_name: self.relation_name.clone(), schema });
                assert(parts.deep_view() =~= before.push(
                    RelationSpec { name, schema: child(all, i as int) },
                ));
            }
            assert(parts.deep_view() =~= named(name, children(all, i as int + 1)));
            i += 1;
        }
        let key = cover.minimal_key();
        let ghost some = children(all, all.len() as int);
        let found = some_holds_key(&parts, &key);
        proof {
            if found {
                let k = choose|k: int|
                    0 <= k < parts.len() && key.deep_view().to_set().subset_of(
                        (#[trigger] parts.deep_view()[k]).schema.attributes.to_set(),
                    );
                assert(parts.deep_view()[k].schema == some[k]);
                assert(holds_key(some, key.deep_view()));
            }
            if holds_key(some, key.deep_view()) {
                let k = choose|k: int|
                    0 <= k < some.len() && key.deep_view().to_set().subset_of(
                        (#[trigger] some[k]).attributes.to_set(),
                    );
                assert(parts.deep_view()[k].schema == some[k]);
            }
        }
        if !found {
            let ghost before = parts.deep_view();
            let none: Vec<FunctionalDependency> = Vec::new();
            proof {
                assert(none.deep_view() =~= Seq::<FdSpec>::empty());
                key_alone_is_valid(attrs, all);
            }
            let schema = RelationSchema::from_valid_parts(key, none);
            parts.push(Relation { relation_name: self.relation_name.clone(), schema });
            assert(parts.deep_view() =~= before.push(RelationSpec { name, schema: schema@ }));
        }
        assert(parts.deep_view() =~= named(name, synthesis(attrs, fds)));
        parts
    }
}

} // verus!
