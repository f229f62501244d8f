# markymark_index

Indexes for markdown vaults, verified with Verus.

- `src/blob`: the binary scan blob: header validation, section offsets, the
  text pool, and the decoding of every record kind into owned entries.
- `src/document`: the per-document index (headings, links, tags, blocks,
  code spans, tasks, embeds, XML tags, frontmatter, properties, block
  references, callouts, query blocks, link definitions) built from a blob,
  from the records of a byte-offset scanner (`scan.rs`) or from the records of
  an extraction engine (`engine.rs`); the table of contents and outline tree,
  slugs, line positions, content blocks of a block tree (`blocks.rs`),
  Logseq property values (`properties.rs`),
  frontmatter scanning and masking, and Logseq outline headings.
- `src/realm`: the index of many documents, with cross-document tables of
  heading slugs, block ids, tags, code spans, journal dates and file stems
  (by which wiki links find pages) kept in step
  as documents are added, updated and removed; `realm/laws.rs` and
  `realm/tag_laws.rs` state what these operations do to one another;
  `realm/paths.rs` resolves relative link paths.
- `src/graph`: a connection graph of references between symbols, on top of
  `petgraph`'s stable graph.
- `src/resolution.rs`: markdown links, wiki links and block references
  resolved to their targets.
- `src/bench`: synthetic benchmark corpora, configuration and memory
  snapshots.
- `app/`: the unverified code around the library: environment variables,
  JSON estimates, floating-point report formatting, and the conversion of
  filesystem paths to and from text.

Outside crates, and the few `std` functions that Verus has no specification
for, are reached only through trusted items: `src/realm/interner.rs`
(`lasso`), `src/graph/store.rs` (`petgraph`), and `src/document/lines.rs`,
`src/document/slug.rs` and `src/text.rs` (`std`).
