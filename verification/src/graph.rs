//! The connection graph: documents and headings as nodes, references between
//! them as edges, backed by `petgraph`'s stable graph.

pub mod connection;
pub mod laws;
pub mod store;
