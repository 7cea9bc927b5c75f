//! Planning kernel of a declarative build tool.
//!
//! Named build entities (commands, files, stores) reference one another through
//! string interpolation. This crate infers those references from the parsed
//! definitions, assembles them into an acyclic graph over unique names, and
//! yields the entities in an order in which every dependency precedes its
//! dependents.

pub mod error;
pub mod syntax;
pub mod extract;
pub mod graph;
pub mod growth;
pub mod walk;
pub mod render;
pub mod dag;
pub mod insert;
pub mod traverse;
pub mod loader;
pub mod laws;
