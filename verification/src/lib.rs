//! Document indexing for markdown vaults: binary scan-blob decoding, per-document
//! indexes (headings, links, tags, blocks, table of contents, outline), slugs,
//! frontmatter scanning, a realm index of many documents with cross-document
//! lookups and journal dates, a connection graph of references between
//! symbols, and synthetic benchmark corpora.

pub mod bench;
pub mod blob;
pub mod document;
pub mod graph;
pub mod realm;
pub mod resolution;
pub mod text;

pub use bench::corpus::{build_mixed_size_corpus, build_sized_doc, DocSizeTier};
pub use bench::report::{parse_memory_snapshot, MemorySnapshot};
pub use blob::header::{validate_blob, BlobError, BlobHeader};
pub use document::frontmatter::{find_frontmatter_close, frontmatter_byte_end, mask_frontmatter};
pub use document::index::DocumentIndex;
pub use document::slug::slugify;
pub use graph::connection::{ConnectionGraph, SymbolId, UnresolvedRef};
pub use graph::store::{RefKind, SymbolData};
pub use document::types::{
    BlockEntry, BlockRefEntry, CalloutEntry, CalloutOwned, CodeSpanEntry, EmbedEntry,
    FrontmatterOwnedEntry, FrontmatterValueOwned, HeadingEntry, LinkDefinitionEntry,
    MarkdownLinkEntry, OutlineNode, Position, PropertyEntry, PropertyValueEntry, QueryBlockEntry,
    QueryBlockOwned, Range, TagEntry, TaskEntry, TocEntry, WikiLinkEntry, XmlTagEntry, XmlTagOwned,
};
pub use realm::index::RealmIndex;
pub use realm::journal::detect_journal_date;
pub use realm::types::{ResolvedBlock, ResolvedCodeSpan, ResolvedHeading};
pub use resolution::{resolve_block_ref, resolve_markdown_link, resolve_wiki_link, ResolvedTarget};
