//! Component type identifiers.
//!
//! A component type is identified by its `TypeId`. The identifier is opaque to
//! the verifier: all that the library relies on is the total order that the
//! standard library gives it, stated here as an integer rank.

use std::any::TypeId;
use vstd::prelude::*;

verus! {

#[verifier::external_type_specification]
#[verifier::external_body]
pub struct ExTypeId(TypeId);

/// The place of an identifier in the total order of `TypeId`: two identifiers
/// compare as their ranks do.
pub uninterp spec fn type_rank(id: TypeId) -> int;

/// Trusted: `TypeId`'s `<`. The standard library documents `TypeId` as `Ord`,
/// a total order; the contract says that `<` on identifiers is `<` on ranks.
#[verifier::external_body]
pub(crate) fn id_precedes(a: &TypeId, b: &TypeId) -> (r: bool)
    ensures
        r == (type_rank(*a) < type_rank(*b)),
{
    a < b
}

/// Trusted: `TypeId::of`. Nothing is stated of the identifier that comes back.
#[verifier::external_body]
pub(crate) fn id_of<T: 'static>() -> (r: TypeId) {
    TypeId::of::<T>()
}

/// Whether two identifiers have the same rank, decided by two comparisons.
pub(crate) fn id_matches(a: &TypeId, b: &TypeId) -> (r: bool)
    ensures
        r == (type_rank(*a) == type_rank(*b)),
{
    !id_precedes(a, b) && !id_precedes(b, a)
}

} // verus!
