//! Component identities: keys, descriptors and the reserved wildcard entity.

use vstd::prelude::*;

verus! {

/// An opaque 64-bit entity identity. Entity allocation and generation
/// handling live outside the storage core; the core only moves identities
/// between archetype rows.
pub type Entity = u64;

/// The reserved identity standing for "any". A component key whose `object`
/// is `Some(DUMMY)` matches any relation target; a key whose `id` is `DUMMY`
/// matches any relation pointed at its object.
pub const DUMMY: Entity = 0;

/// Identifies one component kind: a plain component `(id, None)` or a
/// relation instance `(id, Some(object))`.
#[derive(Clone, Copy, PartialEq, Eq, Structural, Debug)]
pub struct ComponentKey {
    pub id: Entity,
    pub object: Option<Entity>,
}

impl ComponentKey {
    /// Canonical order of component keys: lexicographic on `(id, object)`,
    /// with a plain component before any relation of the same id.
    pub open spec fn spec_lt(self, other: ComponentKey) -> bool {
        self.id < other.id || (self.id == other.id && {
            match (self.object, other.object) {
                (Option::None, Option::None) => false,
                (Option::None, Option::Some(_)) => true,
                (Option::Some(_), Option::None) => false,
                (Option::Some(a), Option::Some(b)) => a < b,
            }
        })
    }

    pub open spec fn spec_is_relation(self) -> bool {
        self.object is Some
    }

    pub fn new(id: Entity, object: Option<Entity>) -> (r: ComponentKey)
        ensures
            r == (ComponentKey { id, object }),
    {
        ComponentKey { id, object }
    }

    /// Whether the key names a relation instance.
    pub fn is_relation(&self) -> (r: bool)
        ensures
            r == self.spec_is_relation(),
    {
        self.object.is_some()
    }

    /// Strict canonical order on keys.
    pub fn lt(&self, other: &ComponentKey) -> (r: bool)
        ensures
            r == self.spec_lt(*other),
    {
        if self.id < other.id {
            true
        } else if self.id == other.id {
            match (self.object, other.object) {
                (Option::None, Option::None) => false,
                (Option::None, Option::Some(_)) => true,
                (Option::Some(_), Option::None) => false,
                (Option::Some(a), Option::Some(b)) => a < b,
            }
        } else {
            false
        }
    }
}

/// A component descriptor: the key plus the value layout and meta flags the
/// storage needs. Values are stored as erased byte rows of length `size`.
#[derive(Clone, Copy, PartialEq, Eq, Structural, Debug)]
pub struct ComponentDesc {
    pub key: ComponentKey,
    /// Size in bytes of one stored value.
    pub size: usize,
    /// An exclusive relation permits at most one instance per entity; adding
    /// a second target replaces the first when the archetype is derived.
    pub exclusive: bool,
}

impl ComponentDesc {
    pub fn new(key: ComponentKey, size: usize, exclusive: bool) -> (r: ComponentDesc)
        ensures
            r == (ComponentDesc { key, size, exclusive }),
    {
        ComponentDesc { key, size, exclusive }
    }

    pub fn is_relation(&self) -> (r: bool)
        ensures
            r == self.key.spec_is_relation(),
    {
        self.key.object.is_some()
    }
}

} // verus!
