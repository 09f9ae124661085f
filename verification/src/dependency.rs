//! Functional dependencies and their mathematical model.

use vstd::prelude::*;
use crate::attrs::{same_attributes, Attr};

verus! {

/// A functional dependency as contracts see it: two sequences of attribute
/// names. Its meaning depends only on the two sets behind them, `lhs` and
/// `rhs`; the order is kept so that results can be stated exactly.
pub struct FdSpec {
    pub determinant: Seq<Attr>,
    pub resultant: Seq<Attr>,
}

impl FdSpec {
    /// The determinant as a set.
    pub open spec fn lhs(self) -> Set<Attr> {
        self.determinant.to_set()
    }

    /// The resultant as a set.
    pub open spec fn rhs(self) -> Set<Attr> {
        self.resultant.to_set()
    }

    /// Equality of dependencies: both sides are equal as sets.
    pub open spec fn same_as(self, other: FdSpec) -> bool {
        self.lhs() == other.lhs() && self.rhs() == other.rhs()
    }
}

/// A functional dependency `determinant -> resultant`.
#[derive(Debug)]
pub struct FunctionalDependency {
    pub determinant: Vec<String>,
    pub resultant: Vec<String>,
}

impl View for FunctionalDependency {
    type V = FdSpec;

    open spec fn view(&self) -> FdSpec {
        FdSpec {
            determinant: self.determinant.deep_view(),
            resultant: self.resultant.deep_view(),
        }
    }
}

impl Clone for FunctionalDependency {
    fn clone(&self) -> (copy: Self)
        ensures
            copy@ == self@,
    {
        let determinant = self.determinant.clone();
        let resultant = self.resultant.clone();
        assert(determinant@ =~= self.determinant@);
        assert(resultant@ =~= self.resultant@);
        FunctionalDependency { determinant, resultant }
    }
}

impl PartialEq for FunctionalDependency {
    /// Two dependencies are equal when both sides are equal as sets.
    fn eq(&self, other: &Self) -> (same: bool) {
        same_attributes(&self.determinant, &other.determinant) && same_attributes(
            &self.resultant,
            &other.resultant,
        )
    }
}

impl vstd::std_specs::cmp::PartialEqSpecImpl for FunctionalDependency {
    open spec fn obeys_eq_spec() -> bool {
        true
    }

    open spec fn eq_spec(&self, other: &Self) -> bool {
        self@.same_as(other@)
    }
}

impl DeepView for FunctionalDependency {
    type V = FdSpec;

    open spec fn deep_view(&self) -> FdSpec {
        self@
    }
}

/// Some dependency of `fds` equals `fd`.
pub open spec fn occurs(fds: Seq<FdSpec>, fd: FdSpec) -> bool {
    exists|j: int| 0 <= j < fds.len() && (#[trigger] fds[j]).same_as(fd)
}

/// Whether some dependency of `fds` equals `fd`.
pub fn has_dependency(fds: &Vec<FunctionalDependency>, fd: &FunctionalDependency) -> (found: bool)
    ensures
        found == occurs(fds.deep_view(), fd@),
{
    let mut i: usize = 0;
    while i < fds.len()
        invariant
            i <= fds.len(),
            forall|j: int| 0 <= j < i ==> !(#[trigger] fds.deep_view()[j]).same_as(fd@),
        decreases fds.len() - i,
    {
        assert(fds.deep_view()[i as int] == fds[i as int]@);
        if fds[i] == *fd {
            return true;
        }
        i += 1;
    }
    false
}

} // verus!
