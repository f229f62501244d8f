//! The realm: documents indexed together, with cross-document lookups.

pub mod interner;
pub mod journal;
pub mod stem;
pub mod tables;
pub mod types;
pub mod index;
pub mod laws;
pub mod paths;
pub mod tag_laws;
