//! Owned copies of document data kept by the realm's cross-document tables.

use vstd::prelude::*;

use crate::document::types::Range;

verus! {

/// Owned copy of heading data for cross-document lookups; it outlives the
/// document it was copied from.
#[derive(Debug)]
pub struct ResolvedHeading {
    /// The heading text.
    pub text: String,
    /// URL-safe slug.
    pub slug: String,
    /// Heading level (1-6).
    pub level: u8,
    /// Source range.
    pub range: Range,
}

impl Clone for ResolvedHeading {
    fn clone(&self) -> (r: Self)
        ensures
            r == *self,
    {
        ResolvedHeading {
            text: self.text.clone(),
            slug: self.slug.clone(),
            level: self.level,
            range: self.range,
        }
    }
}

/// Owned copy of block data for cross-document lookups.
#[derive(Debug)]
pub struct ResolvedBlock {
    /// Block identifier.
    pub id: String,
    /// Source range.
    pub range: Range,
}

impl Clone for ResolvedBlock {
    fn clone(&self) -> (r: Self)
        ensures
            r == *self,
    {
        ResolvedBlock { id: self.id.clone(), range: self.range }
    }
}

/// Owned copy of code span data for cross-document lookups.
#[derive(Debug)]
pub struct ResolvedCodeSpan {
    /// The code span text.
    pub text: String,
    /// Source range.
    pub range: Range,
    /// Byte offset of the opening backtick.
    pub start_byte: u64,
    /// Byte offset one past the closing backtick.
    pub end_byte: u64,
}

impl Clone for ResolvedCodeSpan {
    fn clone(&self) -> (r: Self)
        ensures
            r == *self,
    {
        ResolvedCodeSpan {
            text: self.text.clone(),
            range: self.range,
            start_byte: self.start_byte,
            end_byte: self.end_byte,
        }
    }
}

} // verus!
