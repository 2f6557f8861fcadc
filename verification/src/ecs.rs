//! Entity-component-system: entities, components, archetypes and systems.
pub mod entity;
pub mod sparse_vec;
pub mod erased_vec;
pub mod sparse_set;
pub mod component;
pub mod archetype;
pub mod archetype_registry;
pub mod world;
pub mod query;
pub mod bits;
pub mod access;
pub mod system;
