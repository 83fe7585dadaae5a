//! The error kinds the storage core reports to its callers.

use vstd::prelude::*;

use crate::component::{ComponentKey, Entity};

verus! {

/// Why a storage operation failed. A borrow conflict and a missing
/// component are returned to callers; an entity that does not resolve is
/// reported by entity-indexed operations.
#[derive(Clone, Copy, PartialEq, Eq, Structural, Debug)]
pub enum Error {
    /// The entity does not have the component.
    MissingComponent(Entity, ComponentKey),
    /// A read or write borrow would violate exclusivity.
    BorrowConflict(ComponentKey),
    /// The entity id does not resolve to a live location.
    NoSuchEntity(Entity),
}

impl Error {
    pub fn is_missing_component(&self) -> (r: bool)
        ensures
            r == (self is MissingComponent),
    {
        matches!(self, Error::MissingComponent(_, _))
    }

    pub fn is_borrow_conflict(&self) -> (r: bool)
        ensures
            r == (self is BorrowConflict),
    {
        matches!(self, Error::BorrowConflict(_))
    }

    pub fn is_no_such_entity(&self) -> (r: bool)
        ensures
            r == (self is NoSuchEntity),
    {
        matches!(self, Error::NoSuchEntity(_))
    }
}

} // verus!
