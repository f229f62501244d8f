//! Owned records decoded from the blob sections, and their mathematical views.

use vstd::prelude::*;

verus! {

/// View of an optional owned string.
pub open spec fn opt_view(o: Option<String>) -> Option<Seq<char>> {
    match o {
        Some(s) => Some(s@),
        None => None,
    }
}

/// A heading record.
#[derive(Debug, Clone)]
pub struct HeadingData {
    /// Heading text.
    pub text: String,
    /// Slug, already de-duplicated by the engine.
    pub slug: String,
    /// Start line.
    pub start_line: u32,
    /// Start column.
    pub start_col: u32,
    /// End line.
    pub end_line: u32,
    /// End column.
    pub end_col: u32,
    /// Heading level.
    pub level: u8,
}

/// View of a heading record.
pub ghost struct HeadingView {
    pub text: Seq<char>,
    pub slug: Seq<char>,
    pub start_line: u32,
    pub start_col: u32,
    pub end_line: u32,
    pub end_col: u32,
    pub level: u8,
}

impl View for HeadingData {
    type V = HeadingView;

    open spec fn view(&self) -> HeadingView {
        HeadingView {
            text: self.text@,
            slug: self.slug@,
            start_line: self.start_line,
            start_col: self.start_col,
            end_line: self.end_line,
            end_col: self.end_col,
            level: self.level,
        }
    }
}

/// A wiki-link record (`[[target#heading|alias]]`).
#[derive(Debug, Clone)]
pub struct WikiData {
    /// Page name (anchor stripped).
    pub target: String,
    /// Display text, present when it differs from the full target.
    pub alias: Option<String>,
    /// Heading anchor after the first `#`.
    pub heading: Option<String>,
    /// Byte offset of the link in the source.
    pub source_offset: u32,
    /// Byte length of the display text.
    pub text_len: u32,
    /// Byte length of the full target.
    pub target_len: u32,
    /// Start line.
    pub start_line: u32,
    /// Start column.
    pub start_col: u32,
    /// End line.
    pub end_line: u32,
    /// End column.
    pub end_col: u32,
}

/// View of a wiki-link record.
pub ghost struct WikiView {
    pub target: Seq<char>,
    pub alias: Option<Seq<char>>,
    pub heading: Option<Seq<char>>,
    pub source_offset: u32,
    pub text_len: u32,
    pub target_len: u32,
    pub start_line: u32,
    pub start_col: u32,
    pub end_line: u32,
    pub end_col: u32,
}

impl View for WikiData {
    type V = WikiView;

    open spec fn view(&self) -> WikiView {
        WikiView {
            target: self.target@,
            alias: opt_view(self.alias),
            heading: opt_view(self.heading),
            source_offset: self.source_offset,
            text_len: self.text_len,
            target_len: self.target_len,
            start_line: self.start_line,
            start_col: self.start_col,
            end_line: self.end_line,
            end_col: self.end_col,
        }
    }
}

/// A markdown-link record (`[text](url#anchor)`).
#[derive(Debug, Clone)]
pub struct MarkdownData {
    /// Link text.
    pub text: String,
    /// URL (anchor stripped).
    pub url: String,
    /// Anchor after the first `#`.
    pub anchor: Option<String>,
    /// Byte offset of the link in the source.
    pub source_offset: u32,
    /// Byte length of the link text.
    pub text_len: u32,
    /// Byte length of the full target.
    pub target_len: u32,
    /// Start line.
    pub start_line: u32,
    /// Start column.
    pub start_col: u32,
    /// End line.
    pub end_line: u32,
    /// End column.
    pub end_col: u32,
}

/// View of a markdown-link record.
pub ghost struct MarkdownView {
    pub text: Seq<char>,
    pub url: Seq<char>,
    pub anchor: Option<Seq<char>>,
    pub source_offset: u32,
    pub text_len: u32,
    pub target_len: u32,
    pub start_line: u32,
    pub start_col: u32,
    pub end_line: u32,
    pub end_col: u32,
}

impl View for MarkdownData {
    type V = MarkdownView;

    open spec fn view(&self) -> MarkdownView {
        MarkdownView {
            text: self.text@,
            url: self.url@,
            anchor: opt_view(self.anchor),
            source_offset: self.source_offset,
            text_len: self.text_len,
            target_len: self.target_len,
            start_line: self.start_line,
            start_col: self.start_col,
            end_line: self.end_line,
            end_col: self.end_col,
        }
    }
}

/// A decoded link: the link section holds both kinds, told apart by a flag byte.
pub ghost enum LinkView {
    Wiki(WikiView),
    Markdown(MarkdownView),
}

/// A tag record.
#[derive(Debug, Clone)]
pub struct TagData {
    /// Tag name without the leading `#`.
    pub name: String,
}

/// A block-id record (`^block-id`).
#[derive(Debug, Clone)]
pub struct BlockData {
    /// Block identifier.
    pub id: String,
    /// Byte offset of the `^`.
    pub source_offset: u32,
    /// Byte length of the identifier.
    pub id_len: u32,
    /// Start line.
    pub start_line: u32,
    /// Start column.
    pub start_col: u32,
    /// End line.
    pub end_line: u32,
    /// End column.
    pub end_col: u32,
}

/// View of a block-id record.
pub ghost struct BlockView {
    pub id: Seq<char>,
    pub source_offset: u32,
    pub id_len: u32,
    pub start_line: u32,
    pub start_col: u32,
    pub end_line: u32,
    pub end_col: u32,
}

impl View for BlockData {
    type V = BlockView;

    open spec fn view(&self) -> BlockView {
        BlockView {
            id: self.id@,
            source_offset: self.source_offset,
            id_len: self.id_len,
            start_line: self.start_line,
            start_col: self.start_col,
            end_line: self.end_line,
            end_col: self.end_col,
        }
    }
}

/// A record with a text and a byte span (code spans, tasks and embeds share this shape).
pub ghost struct SpanView {
    pub text: Seq<char>,
    pub source_offset: u32,
    pub end_offset: u32,
    pub start_line: u32,
    pub start_col: u32,
    pub end_line: u32,
    pub end_col: u32,
}

/// An inline code-span record.
#[derive(Debug, Clone)]
pub struct CodeSpanData {
    /// Code text.
    pub text: String,
    /// Byte offset of the opening backtick.
    pub source_offset: u32,
    /// Byte offset one past the closing backtick.
    pub end_offset: u32,
    /// Start line.
    pub start_line: u32,
    /// Start column.
    pub start_col: u32,
    /// End line.
    pub end_line: u32,
    /// End column.
    pub end_col: u32,
}

impl View for CodeSpanData {
    type V = SpanView;

    open spec fn view(&self) -> SpanView {
        SpanView {
            text: self.text@,
            source_offset: self.source_offset,
            end_offset: self.end_offset,
            start_line: self.start_line,
            start_col: self.start_col,
            end_line: self.end_line,
            end_col: self.end_col,
        }
    }
}

/// A task (checkbox item) record.
#[derive(Debug, Clone)]
pub struct TaskData {
    /// `checked` or `unchecked`.
    pub state: String,
    /// Task text.
    pub text: String,
    /// Start byte offset.
    pub source_offset: u32,
    /// End byte offset.
    pub end_offset: u32,
    /// Start line.
    pub start_line: u32,
    /// Start column.
    pub start_col: u32,
    /// End line.
    pub end_line: u32,
    /// End column.
    pub end_col: u32,
}

/// View of a task record: its state and its text span.
pub ghost struct TaskView {
    pub state: Seq<char>,
    pub span: SpanView,
}

impl View for TaskData {
    type V = TaskView;

    open spec fn view(&self) -> TaskView {
        TaskView {
            state: self.state@,
            span: SpanView {
                text: self.text@,
                source_offset: self.source_offset,
                end_offset: self.end_offset,
                start_line: self.start_line,
                start_col: self.start_col,
                end_line: self.end_line,
                end_col: self.end_col,
            },
        }
    }
}

/// An embed record (`![[target]]`).
#[derive(Debug, Clone)]
pub struct EmbedData {
    /// Embedded resource.
    pub target: String,
    /// Start byte offset.
    pub source_offset: u32,
    /// End byte offset.
    pub end_offset: u32,
    /// Start line.
    pub start_line: u32,
    /// Start column.
    pub start_col: u32,
    /// End line.
    pub end_line: u32,
    /// End column.
    pub end_col: u32,
}

impl View for EmbedData {
    type V = SpanView;

    open spec fn view(&self) -> SpanView {
        SpanView {
            text: self.target@,
            source_offset: self.source_offset,
            end_offset: self.end_offset,
            start_line: self.start_line,
            start_col: self.start_col,
            end_line: self.end_line,
            end_col: self.end_col,
        }
    }
}

/// Everything decoded from the record sections of a blob.
#[derive(Debug, Clone)]
pub struct DecodedOwnedData {
    /// Headings in blob order.
    pub headings: Vec<HeadingData>,
    /// Wiki links in blob order.
    pub wiki_links: Vec<WikiData>,
    /// Markdown links in blob order.
    pub markdown_links: Vec<MarkdownData>,
    /// Tags in blob order.
    pub tags: Vec<TagData>,
    /// Block ids in blob order.
    pub blocks: Vec<BlockData>,
    /// Code spans in blob order.
    pub code_spans: Vec<CodeSpanData>,
    /// Tasks in blob order.
    pub tasks: Vec<TaskData>,
    /// Embeds in blob order.
    pub embeds: Vec<EmbedData>,
}

/// View of the decoded sections.
pub ghost struct DecodedView {
    pub headings: Seq<HeadingView>,
    pub wiki_links: Seq<WikiView>,
    pub markdown_links: Seq<MarkdownView>,
    pub tags: Seq<Seq<char>>,
    pub blocks: Seq<BlockView>,
    pub code_spans: Seq<SpanView>,
    pub tasks: Seq<TaskView>,
    pub embeds: Seq<SpanView>,
}

impl View for DecodedOwnedData {
    type V = DecodedView;

    open spec fn view(&self) -> DecodedView {
        DecodedView {
            headings: self.headings@.map_values(|h: HeadingData| h@),
            wiki_links: self.wiki_links@.map_values(|w: WikiData| w@),
            markdown_links: self.markdown_links@.map_values(|m: MarkdownData| m@),
            tags: self.tags@.map_values(|t: TagData| t.name@),
            blocks: self.blocks@.map_values(|b: BlockData| b@),
            code_spans: self.code_spans@.map_values(|c: CodeSpanData| c@),
            tasks: self.tasks@.map_values(|t: TaskData| t@),
            embeds: self.embeds@.map_values(|e: EmbedData| e@),
        }
    }
}

} // verus!
