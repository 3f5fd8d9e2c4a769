//! Projection of a tree-shaped entity store to and from self-describing
//! documents, through a scoped-context protocol.
//!
//! An entity store holds entities with typed data slots and ordered child
//! lists. A [`projection::Projection`] says how one entity (plus descendants)
//! maps to a [`Document`]: leaf slots, an externally tagged trait-object
//! slot, the child extractors ([`projection::Maybe`], [`projection::Child`],
//! [`projection::ChildUnchecked`], [`projection::ChildVec`],
//! [`projection::ChildMap`]), and named composites. The store is reached only
//! through a [`Scope`] binding, never passed to the protocol directly, and a
//! [`TypeTagServer`] resolves trait-object variant names during decode.
//! [`driver::save`] and [`driver::load`] drive whole-store operations;
//! concrete wire formats are produced outside this crate by walking the
//! document tree.

pub mod document;
pub mod driver;
pub mod error;
pub mod laws;
pub mod projection;
pub mod protocol;
pub mod registry;
pub mod scope;
pub mod store;

pub use document::{DocV, Document};
pub use error::{ErrV, Error};
pub use projection::{Child, ChildMap, ChildUnchecked, ChildVec, Composite, Maybe, ProjV, Projection};
pub use registry::TypeTagServer;
pub use scope::Scope;
pub use store::{Entity, EntityV, Store, StoreV, TypeTagged, TypeTaggedV, Value, ValueV};
