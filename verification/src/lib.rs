//! An embedded, entity-oriented document store on top of an ordered
//! key/value engine, with a verified relational-integrity layer.
//!
//! Records are grouped in keyspaces, one per entity type, and addressed by a
//! byte encoding of their typed keys. Three kinds of relationships between
//! entities are supported — sibling, parent–child and free many-to-many —
//! each carrying a [`DeletionBehaviour`] that governs what happens to the
//! peers when a record is removed: removal is planned over the whole
//! relation graph before anything is written, cascades are applied
//! transitively, cycles are broken, and a constraint violation aborts the
//! operation before any write.

use vstd::prelude::*;

pub mod bytes;
pub mod codec;
pub mod descriptor;
pub mod entity;
pub mod error;
pub mod kv;
pub mod laws;
pub mod links;
pub mod model;
pub mod relation;
pub mod test_entities;

pub use bytes::AsBytes;
pub use entity::Entity;
pub use error::Error;
pub use descriptor::DeletionBehaviour;
pub use descriptor::EntityRelations;
pub use descriptor::RelationDescriptor;
pub use error::ErrorKind;
pub use kv::Store;
pub use relation::Relation;
pub use links::RelationSingle;
pub use links::RelationMany;
pub use descriptor::FamilyDescriptor;

verus! {

} // verus!
