//! Entry types stored in a document index.

use vstd::prelude::*;

verus! {

/// Copy an optional string.
pub fn clone_opt_string(o: &Option<String>) -> (r: Option<String>)
    ensures
        r == *o,
{
    match o {
        Some(s) => Some(s.clone()),
        None => None,
    }
}

/// A position in a document (0-based line and character).
#[derive(Debug, Clone, Copy, PartialEq, Eq, Structural)]
pub struct Position {
    /// 0-based line.
    pub line: u32,
    /// 0-based character within the line.
    pub character: u32,
}

impl Position {
    /// Create a position.
    pub fn new(line: u32, character: u32) -> (p: Self)
        ensures
            p.line == line,
            p.character == character,
    {
        Position { line, character }
    }
}

/// A range between two positions.
#[derive(Debug, Clone, Copy, PartialEq, Eq, Structural)]
pub struct Range {
    /// Start position.
    pub start: Position,
    /// End position.
    pub end: Position,
}

impl Range {
    /// Create a range.
    pub fn new(start: Position, end: Position) -> (r: Self)
        ensures
            r.start == start,
            r.end == end,
    {
        Range { start, end }
    }
}

/// A heading entry in the document index.
#[derive(Debug)]
pub struct HeadingEntry {
    /// The heading text.
    pub text: String,
    /// URL-safe slug derived from the heading text.
    pub slug: String,
    /// Heading level (1-6).
    pub level: u8,
    /// Source range of the heading.
    pub range: Range,
}

impl Clone for HeadingEntry {
    fn clone(&self) -> (r: Self)
        ensures
            r == *self,
    {
        HeadingEntry {
            text: self.text.clone(),
            slug: self.slug.clone(),
            level: self.level,
            range: self.range,
        }
    }
}

/// A block entry in the document index (Obsidian `^block-id`).
#[derive(Debug)]
pub struct BlockEntry {
    /// The block identifier.
    pub id: String,
    /// Source range of the block.
    pub range: Range,
    /// Byte offset of the `^` character.
    pub start_byte: u64,
    /// Byte offset one past the last character of the block ID.
    pub end_byte: u64,
}

impl Clone for BlockEntry {
    fn clone(&self) -> (r: Self)
        ensures
            r == *self,
    {
        BlockEntry {
            id: self.id.clone(),
            range: self.range,
            start_byte: self.start_byte,
            end_byte: self.end_byte,
        }
    }
}

/// A table-of-contents entry.
#[derive(Debug)]
pub struct TocEntry {
    /// Heading text.
    pub text: String,
    /// URL-safe slug.
    pub slug: String,
    /// Heading level (1-6).
    pub level: u8,
    /// Nesting depth relative to the root (0-based).
    pub depth: usize,
}

/// A node in the document outline tree.
#[derive(Debug)]
pub struct OutlineNode {
    /// The heading at this node (the root node has none).
    pub heading: Option<HeadingEntry>,
    /// Child outline nodes.
    pub children: Vec<OutlineNode>,
}

/// A wiki link entry (`[[target#heading|alias]]`).
#[derive(Debug)]
pub struct WikiLinkEntry {
    /// Target page name.
    pub target: String,
    /// Optional alias text.
    pub alias: Option<String>,
    /// Optional heading anchor within the target.
    pub heading: Option<String>,
    /// Source range.
    pub range: Range,
    /// Byte offset of the opening `[[`.
    pub start_byte: u64,
    /// Byte offset one past the closing `]]`.
    pub end_byte: u64,
}

/// A tag entry.
#[derive(Debug)]
pub struct TagEntry {
    /// Tag name (without leading `#`).
    pub name: String,
}

/// A markdown link entry (`[text](url#anchor)`).
#[derive(Debug)]
pub struct MarkdownLinkEntry {
    /// Link display text.
    pub text: String,
    /// Link URL.
    pub url: String,
    /// Optional anchor/fragment.
    pub anchor: Option<String>,
    /// Source range.
    pub range: Range,
    /// Start byte offset in the source document.
    pub start_byte: u64,
    /// End byte offset in the source document.
    pub end_byte: u64,
}

/// Kind of symbol referenced by an inline code span.
#[derive(Debug, Clone, Copy, PartialEq, Eq, Structural)]
pub enum SymbolKind {
    /// A struct type.
    Struct,
    /// A trait.
    Trait,
    /// A function or method.
    Function,
    /// A type alias or other named type.
    Type,
    /// A constant or static.
    Constant,
    /// A module or crate.
    Module,
}

/// An inline code span entry.
#[derive(Debug)]
pub struct CodeSpanEntry {
    /// The backtick-delimited text content.
    pub text: String,
    /// Source range of the code span.
    pub range: Range,
    /// Byte offset of the opening backtick.
    pub start_byte: u64,
    /// Byte offset one past the closing backtick.
    pub end_byte: u64,
    /// Language hint (none for spans read from a blob).
    pub language_hint: Option<String>,
    /// Symbol kind (none for spans read from a blob).
    pub kind: Option<SymbolKind>,
}

/// A task entry (checkbox item).
#[derive(Debug)]
pub struct TaskEntry {
    /// Checkbox state (`checked` or `unchecked`).
    pub state: String,
    /// Task description text.
    pub text: String,
    /// Source range.
    pub range: Range,
    /// Start byte offset in the source document.
    pub start_byte: u64,
    /// End byte offset in the source document.
    pub end_byte: u64,
}

/// An embed entry (`![[target]]`).
#[derive(Debug)]
pub struct EmbedEntry {
    /// The embedded resource path.
    pub target: String,
    /// Source range.
    pub range: Range,
    /// Start byte offset in the source document.
    pub start_byte: u64,
    /// End byte offset in the source document.
    pub end_byte: u64,
}

/// A Logseq block reference entry: an outgoing `((uuid))` link.
#[derive(Debug)]
pub struct BlockRefEntry {
    /// The UUID referenced by `((uuid))`.
    pub uuid: String,
    /// Source range of the whole `((uuid))`.
    pub range: Range,
}

/// A callout entry (`> [!type] title`).
#[derive(Debug)]
pub struct CalloutEntry {
    /// Callout type (such as `note`, `warning`, `tip`).
    pub callout_type: String,
    /// Optional callout title.
    pub title: Option<String>,
    /// Source range.
    pub range: Range,
    /// Start byte offset in the source document.
    pub start_byte: u64,
    /// End byte offset in the source document.
    pub end_byte: u64,
}

/// Owned callout payload.
#[derive(Debug)]
pub struct CalloutOwned {
    /// Callout type.
    pub callout_type: String,
    /// Optional callout title.
    pub title: Option<String>,
    /// Source range.
    pub range: Range,
    /// Start byte offset.
    pub start_byte: u64,
    /// End byte offset.
    pub end_byte: u64,
}

/// A query block entry (a `{{query ...}}` or fenced query).
#[derive(Debug)]
pub struct QueryBlockEntry {
    /// The query text.
    pub query: String,
    /// Source range.
    pub range: Range,
    /// Start byte offset in the source document.
    pub start_byte: u64,
    /// End byte offset in the source document.
    pub end_byte: u64,
}

/// Owned query block payload.
#[derive(Debug)]
pub struct QueryBlockOwned {
    /// The query text.
    pub query: String,
    /// Source range.
    pub range: Range,
    /// Start byte offset.
    pub start_byte: u64,
    /// End byte offset.
    pub end_byte: u64,
}

/// A link reference definition entry (`[label]: url "title"`).
#[derive(Debug)]
pub struct LinkDefinitionEntry {
    /// The link label.
    pub label: String,
    /// The link URL.
    pub url: String,
    /// Optional title.
    pub title: Option<String>,
    /// Source range.
    pub range: Range,
    /// Start byte offset in the source document.
    pub start_byte: u64,
    /// End byte offset in the source document.
    pub end_byte: u64,
}

/// The value of a Logseq property.
#[derive(Debug)]
pub enum PropertyValueEntry {
    /// A simple string value.
    String(String),
    /// A list of string values.
    List(Vec<String>),
    /// A Logseq page reference.
    PageRef(String),
}

/// A Logseq property (`key:: value`).
#[derive(Debug)]
pub struct PropertyEntry {
    /// The key.
    pub key: String,
    /// The value.
    pub value: PropertyValueEntry,
}

/// An XML tag supplied alongside a blob, with its attributes in key order.
#[derive(Debug)]
pub struct XmlTagOwned {
    /// Tag name.
    pub tag_name: String,
    /// Attributes as key-value pairs, sorted by key.
    pub attributes: Vec<(String, String)>,
    /// Whether this is a self-closing tag.
    pub is_self_closing: bool,
    /// Whether this tag has no matching closing tag.
    pub is_unclosed: bool,
    /// Whether this tag was found inline rather than block-level.
    pub is_inline: bool,
    /// Source range.
    pub range: Range,
    /// Start byte offset in the source document.
    pub start_byte: u64,
    /// End byte offset in the source document.
    pub end_byte: u64,
}

/// An XML tag entry in the index; each attribute key occurs once.
#[derive(Debug)]
pub struct XmlTagEntry {
    /// Tag name (e.g. "agent", "goal", "task").
    pub tag_name: String,
    /// Attributes, one value per key.
    pub attributes: Vec<(String, String)>,
    /// Whether this is a self-closing tag.
    pub is_self_closing: bool,
    /// Whether this tag has no matching closing tag.
    pub is_unclosed: bool,
    /// Whether this tag was found inline rather than block-level.
    pub is_inline: bool,
    /// Source range of the entire tag.
    pub range: Range,
    /// Start byte offset in the source document.
    pub start_byte: u64,
    /// End byte offset in the source document.
    pub end_byte: u64,
}

/// An owned frontmatter value. A floating-point value is carried by its IEEE-754
/// bit pattern (`f64::to_bits`), which this library stores and never interprets.
#[derive(Debug)]
pub enum FrontmatterValueOwned {
    /// A simple string value.
    String(String),
    /// An integer value.
    Integer(i64),
    /// A finite floating-point value, as its bit pattern.
    Float(u64),
    /// A boolean value.
    Boolean(bool),
    /// A list of typed values.
    List(Vec<FrontmatterValueOwned>),
    /// A map of key-value pairs.
    Mapping(Vec<(String, FrontmatterValueOwned)>),
    /// An explicit null value.
    Null,
}

/// An owned frontmatter key-value entry.
#[derive(Debug)]
pub struct FrontmatterOwnedEntry {
    /// The key.
    pub key: String,
    /// The value.
    pub value: FrontmatterValueOwned,
}

} // verus!
