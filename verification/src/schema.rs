//! Relation schemas: a set of attributes and the functional dependencies
//! that hold between them.

use vstd::prelude::*;
use crate::attrs::{distinct, is_subset, merge_is_union, without_duplicates, Attr};
use crate::closure::{attribute_closure, closure, saturate};
use crate::cover::{canonical, canonical_cover, canonical_cover_is_valid, minimal_cover};
use crate::dependency::{has_dependency, occurs, FdSpec, FunctionalDependency};
use crate::equivalence::{dependencies_equivalent, equivalent};
use crate::key::{candidate_key, candidate_key_closure, minimal_key};

verus! {

/// A schema as contracts see it.
pub struct SchemaSpec {
    pub attributes: Seq<Attr>,
    pub dependencies: Seq<FdSpec>,
}

/// Why a schema was not made.
#[derive(Debug, Clone, Copy, PartialEq, Eq, Structural)]
pub enum SchemaError {
    /// The schema would have no attribute.
    EmptyInput,
    /// A dependency has an empty side or names an attribute that the schema
    /// does not have.
    InvalidDependency,
}

/// `fd` can stand in a schema over `universe`: neither side is empty or holds
/// an attribute twice, and every attribute of it belongs to `universe`.
pub open spec fn well_formed(fd: FdSpec, universe: Set<Attr>) -> bool {
    &&& fd.determinant.len() > 0
    &&& fd.determinant.no_duplicates()
    &&& fd.lhs().subset_of(universe)
    &&& fd.resultant.len() > 0
    &&& fd.resultant.no_duplicates()
    &&& fd.rhs().subset_of(universe)
}

/// No two dependencies of `fds` are equal.
pub open spec fn all_differ(fds: Seq<FdSpec>) -> bool {
    forall|i: int, j: int|
        #![trigger fds[i], fds[j]]
        0 <= i < j < fds.len() ==> !fds[i].same_as(fds[j])
}

/// A schema is valid: it has at least one attribute and none twice, every
/// dependency is well formed over its attributes, and no two dependencies
/// are equal.
pub open spec fn valid_schema(attrs: Seq<Attr>, fds: Seq<FdSpec>) -> bool {
    &&& attrs.len() > 0
    &&& attrs.no_duplicates()
    &&& forall|i: int| 0 <= i < fds.len() ==> well_formed(#[trigger] fds[i], attrs.to_set())
    &&& all_differ(fds)
}

/// `fd` may enter a schema over `universe`: neither side is empty, and every
/// attribute of it belongs to `universe`.
pub open spec fn admissible(fd: FdSpec, universe: Set<Attr>) -> bool {
    &&& fd.determinant.len() > 0
    &&& fd.lhs().subset_of(universe)
    &&& fd.resultant.len() > 0
    &&& fd.rhs().subset_of(universe)
}

/// `fd` with each attribute written once on either side.
pub open spec fn tidy(fd: FdSpec) -> FdSpec {
    FdSpec { determinant: distinct(fd.determinant), resultant: distinct(fd.resultant) }
}

/// The dependencies of `fds`, each tidied, without those equal to an
/// earlier one.
pub open spec fn collapse(fds: Seq<FdSpec>) -> Seq<FdSpec>
    decreases fds.len(),
{
    if fds.len() == 0 {
        Seq::empty()
    } else {
        let sofar = collapse(fds.drop_last());
        if occurs(sofar, tidy(fds.last())) {
            sofar
        } else {
            sofar.push(tidy(fds.last()))
        }
    }
}

/// A tidied admissible dependency is well formed.
proof fn tidy_is_well_formed(fd: FdSpec, universe: Set<Attr>)
    requires
        admissible(fd, universe),
    ensures
        well_formed(tidy(fd), universe),
{
    let none = Seq::<Attr>::empty();
    merge_is_union(none, fd.determinant);
    merge_is_union(none, fd.resultant);
    assert(tidy(fd).lhs() =~= fd.lhs());
    assert(tidy(fd).rhs() =~= fd.rhs());
    assert(fd.lhs().contains(fd.determinant[0]));
    assert(fd.rhs().contains(fd.resultant[0]));
    assert(tidy(fd).determinant.contains(fd.determinant[0]));
    assert(tidy(fd).resultant.contains(fd.resultant[0]));
}

/// A set of attributes with the functional dependencies that hold on it.
///
/// Every value is valid: it has at least one attribute and none twice, each
/// dependency has two sides that are not empty, hold no attribute twice and
/// name attributes of the schema only, and no two dependencies are equal.
#[derive(Debug)]
pub struct RelationSchema {
    attributes: Vec<String>,
    functional_dependencies: Vec<FunctionalDependency>,
}

impl View for RelationSchema {
    type V = SchemaSpec;

    closed spec fn view(&self) -> SchemaSpec {
        SchemaSpec {
            attributes: self.attributes.deep_view(),
            dependencies: self.functional_dependencies.deep_view(),
        }
    }
}

impl Clone for RelationSchema {
    fn clone(&self) -> (copy: Self)
        ensures
            copy@ == self@,
    {
        proof {
            use_type_invariant(self);
        }
        let attributes = self.attributes.clone();
        let functional_dependencies = self.functional_dependencies.clone();
        assert(attributes@ =~= self.attributes@);
        assert(functional_dependencies.deep_view() =~= self.functional_dependencies.deep_view());
        RelationSchema { attributes, functional_dependencies }
    }
}

impl RelationSchema {
    /// What holds of every schema.
    #[verifier::type_invariant]
    pub closed spec fn valid(&self) -> bool {
        valid_schema(self.attributes.deep_view(), self.functional_dependencies.deep_view())
    }

    /// What holds of every schema, said of its view.
    pub proof fn valid_view(&self)
        requires
            self.valid(),
        ensures
            valid_schema(self@.attributes, self@.dependencies),
    {
    }

    /// A schema with the given attributes and dependencies.
    ///
    /// An attribute written twice counts once, among the attributes and on
    /// either side of a dependency; of dependencies that are equal the first
    /// stays. Without attributes there is no schema, nor with a dependency
    /// that has an empty side or names an attribute that is not given.
    pub fn new(attributes: Vec<String>, functional_dependencies: Vec<FunctionalDependency>) -> (made:
        Result<Self, SchemaError>)
        ensures
            match made {
                Ok(schema) => {
                    &&& attributes.len() > 0
                    &&& forall|i: int|
                        0 <= i < functional_dependencies.len() ==> admissible(
                            #[trigger] functional_dependencies.deep_view()[i],
                            attributes.deep_view().to_set(),
                        )
                    &&& schema@.attributes == distinct(attributes.deep_view())
                    &&& schema@.dependencies == collapse(functional_dependencies.deep_view())
                    &&& valid_schema(schema@.attributes, schema@.dependencies)
                },
                Err(SchemaError::EmptyInput) => attributes.len() == 0,
                Err(SchemaError::InvalidDependency) => {
                    &&& attributes.len() > 0
                    &&& exists|i: int|
                        0 <= i < functional_dependencies.len() && !admissible(
                            #[trigger] functional_dependencies.deep_view()[i],
                            attributes.deep_view().to_set(),
                        )
                },
            },
    {
        if attributes.len() == 0 {
            return Err(SchemaError::EmptyInput);
        }
        let ghost given = functional_dependencies.deep_view();
        let ghost universe = attributes.deep_view().to_set();
        let own = without_duplicates(&attributes);
        proof {
            merge_is_union(Seq::empty(), attributes.deep_view());
            assert(own.deep_view().to_set() =~= universe);
            assert(universe.contains(attributes.deep_view()[0]));
            assert(own.deep_view().contains(attributes.deep_view()[0]));
        }
        let mut kept: Vec<FunctionalDependency> = Vec::new();
        assert(given.take(0) =~= Seq::<FdSpec>::empty());
        assert(kept.deep_view() =~= collapse(given.take(0)));
        let mut i: usize = 0;
        while i < functional_dependencies.len()
            invariant
                i <= functional_dependencies.len(),
                attributes.len() > 0,
                given == functional_dependencies.deep_view(),
                universe == attributes.deep_view().to_set(),
                kept.deep_view() == collapse(given.take(i as int)),
                forall|k: int| 0 <= k < i ==> admissible(#[trigger] given[k], universe),
                forall|k: int|
                    0 <= k < kept.len() ==> well_formed(#[trigger] kept.deep_view()[k], universe),
                all_differ(kept.deep_view()),
            decreases functional_dependencies.len() - i,
        {
            let fd = &functional_dependencies[i];
            assert(given[i as int] == fd@);
            if fd.determinant.len() == 0 || fd.resultant.len() == 0 || !is_subset(
                &fd.determinant,
                &attributes,
            ) || !is_subset(&fd.resultant, &attributes) {
                assert(!admissible(functional_dependencies.deep_view()[i as int], universe));
                return Err(SchemaError::InvalidDependency);
            }
            let tidied = FunctionalDependency {
                determinant: without_duplicates(&fd.determinant),
                resultant: without_duplicates(&fd.resultant),
            };
            let ghost before = kept.deep_view();
            proof {
                assert(tidied@ == tidy(given[i as int]));
                tidy_is_well_formed(given[i as int], universe);
                assert(given.take(i as int + 1).drop_last() =~= given.take(i as int));
                assert(given.take(i as int + 1).last() == given[i as int]);
            }
            if !has_dependency(&kept, &tidied) {
                kept.push(tidied);
                assert(kept.deep_view() =~= before.push(tidy(given[i as int])));
            }
            i += 1;
        }
        assert(given.take(i as int) =~= given);
        Ok(RelationSchema { attributes: own, functional_dependencies: kept })
    }

    /// A schema made of parts that are known to be valid.
    pub(crate) fn from_valid_parts(
        attributes: Vec<String>,
        functional_dependencies: Vec<FunctionalDependency>,
    ) -> (schema: Self)
        requires
            valid_schema(attributes.deep_view(), functional_dependencies.deep_view()),
        ensures
            schema@.attributes == attributes.deep_view(),
            schema@.dependencies == functional_dependencies.deep_view(),
    {
        RelationSchema { attributes, functional_dependencies }
    }

    /// The attributes, in the order in which they were given.
    pub fn attributes(&self) -> (attrs: &Vec<String>)
        ensures
            attrs.deep_view() == self@.attributes,
            valid_schema(self@.attributes, self@.dependencies),
    {
        proof {
            use_type_invariant(self);
        }
        &self.attributes
    }

    /// The dependencies, in the order in which they were given.
    pub fn functional_dependencies(&self) -> (fds: &Vec<FunctionalDependency>)
        ensures
            fds.deep_view() == self@.dependencies,
            valid_schema(self@.attributes, self@.dependencies),
    {
        proof {
            use_type_invariant(self);
        }
        &self.functional_dependencies
    }

    /// The closure of `seed` under the dependencies of the schema, each
    /// attribute once: first the attributes of `seed`, then the others in
    /// the order in which scans over the dependencies reach them.
    pub fn calculate_closure(&self, seed: &Vec<String>) -> (out: Vec<String>)
        ensures
            out.deep_view().to_set() == closure(seed.deep_view().to_set(), self@.dependencies),
            out.deep_view().no_duplicates(),
            out.deep_view() == saturate(distinct(seed.deep_view()), self@.dependencies),
    {
        attribute_closure(seed, &self.functional_dependencies)
    }

    /// Whether the dependencies of the two schemas have the same
    /// consequences.
    pub fn is_equivalent(&self, other: &RelationSchema) -> (same: bool)
        ensures
            same == equivalent(self@.dependencies, other@.dependencies),
    {
        dependencies_equivalent(&self.functional_dependencies, &other.functional_dependencies)
    }

    /// The schema with the same attributes and a canonical cover of the
    /// dependencies: every resultant a single attribute, no attribute in a
    /// determinant that could be dropped, no dependency that follows from
    /// the others, and the consequences unchanged.
    pub fn find_minimal_cover(&self) -> (cover: Self)
        ensures
            cover@.attributes == self@.attributes,
            cover@.dependencies == canonical_cover(self@.dependencies),
            equivalent(self@.dependencies, cover@.dependencies),
            canonical(cover@.dependencies),
    {
        proof {
            use_type_invariant(self);
            canonical_cover_is_valid(
                self.attributes.deep_view(),
                self.functional_dependencies.deep_view(),
            );
        }
        let functional_dependencies = minimal_cover(&self.functional_dependencies);
        let attributes = self.attributes.clone();
        assert(attributes@ =~= self.attributes@);
        RelationSchema { attributes, functional_dependencies }
    }

    /// One candidate key: attributes whose closure is the whole attribute
    /// set, none of which can be left out. It is the one that is left when
    /// the attributes are dropped greedily in their order.
    pub fn minimal_key(&self) -> (key: Vec<String>)
        ensures
            key.deep_view() == candidate_key(self@.attributes, self@.dependencies),
            key.deep_view().no_duplicates(),
            key.deep_view().to_set().subset_of(self@.attributes.to_set()),
            closure(key.deep_view().to_set(), self@.dependencies) == self@.attributes.to_set(),
            forall|a: Attr|
                key.deep_view().contains(a) ==> closure(
                    #[trigger] key.deep_view().to_set().remove(a),
                    self@.dependencies,
                ) != self@.attributes.to_set(),
    {
        proof {
            use_type_invariant(self);
            candidate_key_closure(
                self.attributes.deep_view(),
                self.functional_dependencies.deep_view(),
            );
        }
        minimal_key(&self.attributes, &self.functional_dependencies)
    }

} // impl RelationSchema

} // verus!
