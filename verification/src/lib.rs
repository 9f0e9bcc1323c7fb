//! An in-memory store of entities and the components attached to them.
//!
//! Every entity has a mask with one bit for each component type that it
//! carries and a range of bits for each flag set on it, so that the
//! entities that carry a given set of components and flags are found by one
//! pass over the masks.  A [`worlds::WorldBuilder`] collects the schema,
//! [`worlds::World`] is the store, [`entities::EntityBuilder`] makes an
//! entity and [`queries::QueryBuilder`] a query; [`laws`] states what holds
//! of every world.

pub mod bitfields;
pub mod components;
pub mod entities;
pub mod laws;
pub mod queries;
pub mod schema;
pub mod words;
pub mod worlds;
