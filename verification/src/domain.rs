//! Core business objects: identifiers, entities and the port aggregate.

pub mod aggregates;
pub mod entities;
pub mod events;
pub mod value_objects;
