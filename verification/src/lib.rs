//! Relational schema normalisation: attribute closure under functional
//! dependencies, equivalence of dependency sets, canonical covers, candidate
//! keys and synthesis of a third-normal-form decomposition.

pub mod attrs;
pub mod dependency;
pub mod closure;
pub mod equivalence;
pub mod key;
pub mod cover;
pub mod schema;
pub mod relation;
pub mod text;
