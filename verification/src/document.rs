//! Per-document index: entry types, table of contents, outline tree, slugs,
//! frontmatter scanning and construction from a scan blob.

pub mod frontmatter;
pub mod slug;
pub mod types;
pub mod outline;
pub mod index;
pub mod lines;
pub mod fields;
pub mod logseq;
pub mod scan;
pub mod engine;
pub mod blocks;
pub mod properties;
