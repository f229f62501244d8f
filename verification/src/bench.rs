//! Synthetic benchmark corpora and the parsing of benchmark output.

pub mod config;
pub mod corpus;
pub mod report;
