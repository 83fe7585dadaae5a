//! An archetype-oriented entity-component storage core.
//!
//! Entities live in archetypes keyed by the exact set of component kinds they
//! carry; each component of an archetype is stored as a contiguous column.
//! The crate provides the storage engine itself: slot slices, per-component
//! change tracking, the archetype graph and its inverted index, and the
//! chunked query/filter pipeline.

pub mod archetype;
pub mod archetypes;
pub mod borrow;
pub mod changes;
pub mod changes_laws;
pub mod component;
pub mod entity_ref;
pub mod error;
pub mod events;
pub mod filter;
pub mod query;
pub mod relations;
pub mod index;
pub mod slice;
