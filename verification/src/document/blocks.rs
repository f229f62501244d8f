//! Content blocks of a document: the paragraphs, list items, code blocks,
//! block quotes, thematic breaks and tables of its block tree, in document
//! order, outside the frontmatter.

use vstd::prelude::*;

use super::logseq::{is_logseq_heading, logseq_heading_text};

verus! {

/// The kind of a node of a markdown block tree.
pub enum NodeKind {
    Document,
    Section,
    Paragraph,
    List,
    ListItem,
    FencedCodeBlock,
    IndentedCodeBlock,
    BlockQuote,
    ThematicBreak,
    PipeTable,
    Other,
}

/// A node of a markdown block tree: its kind, byte range, source text and children.
pub struct BlockNode {
    pub kind: NodeKind,
    pub start_byte: usize,
    pub end_byte: usize,
    pub text: String,
    pub children: Vec<BlockNode>,
}

/// The kind of a content block.
#[derive(Debug, Clone, Copy, PartialEq, Eq, Structural)]
pub enum BlockKind {
    Paragraph,
    ListItem,
    CodeBlock,
    BlockQuote,
    ThematicBreak,
    Table,
}

/// A content block: its kind and byte range.
#[derive(Debug, Clone, Copy, PartialEq, Eq, Structural)]
pub struct RawBlock {
    pub kind: BlockKind,
    pub start_byte: usize,
    pub end_byte: usize,
}

/// The list items among the children of a list, except Logseq-style headings.
pub open spec fn list_items(cs: Seq<BlockNode>) -> Seq<RawBlock>
    decreases cs.len(),
{
    if cs.len() == 0 {
        Seq::empty()
    } else {
        let p = list_items(cs.drop_last());
        let c = cs.last();
        if c.kind is ListItem && !logseq_heading_text(c.text@) {
            p.push(RawBlock { kind: BlockKind::ListItem, start_byte: c.start_byte, end_byte: c.end_byte })
        } else {
            p
        }
    }
}

/// The block a node makes by itself, if any.
pub open spec fn own_block(c: BlockNode) -> Option<BlockKind> {
    match c.kind {
        NodeKind::Paragraph => Some(BlockKind::Paragraph),
        NodeKind::FencedCodeBlock => Some(BlockKind::CodeBlock),
        NodeKind::IndentedCodeBlock => Some(BlockKind::CodeBlock),
        NodeKind::BlockQuote => Some(BlockKind::BlockQuote),
        NodeKind::ThematicBreak => Some(BlockKind::ThematicBreak),
        NodeKind::PipeTable => Some(BlockKind::Table),
        _ => None,
    }
}

/// The content blocks of a sequence of sibling nodes, in order: nodes that
/// start inside the frontmatter (before `fm_end`) are skipped; documents and
/// sections are looked into; a list gives its list items; paragraphs, code
/// blocks, block quotes (not what they hold), thematic breaks and tables give
/// one block each; anything else gives none.
pub open spec fn spec_blocks(cs: Seq<BlockNode>, fm_end: usize) -> Seq<RawBlock>
    decreases cs,
{
    if cs.len() == 0 {
        Seq::empty()
    } else {
        let prev = spec_blocks(cs.drop_last(), fm_end);
        let c = cs.last();
        if c.start_byte < fm_end {
            prev
        } else {
            match c.kind {
                NodeKind::Document | NodeKind::Section => {
                    proof {
                        assert(decreases_to!(cs => cs[cs.len() - 1]));
                    }
                    prev + spec_blocks(c.children@, fm_end)
                },
                NodeKind::List => prev + list_items(c.children@),
                _ => match own_block(c) {
                    Some(k) => prev.push(RawBlock { kind: k, start_byte: c.start_byte, end_byte: c.end_byte }),
                    None => prev,
                },
            }
        }
    }
}

/// The list items of a list's children.
fn collect_list_items(cs: &Vec<BlockNode>, out: &mut Vec<RawBlock>)
    ensures
        final(out)@ == old(out)@ + list_items(cs@),
{
    let ghost start = out@;
    let mut i: usize = 0;
    assert(cs@.subrange(0, 0) =~= Seq::<BlockNode>::empty());
    assert(out@ =~= start + list_items(Seq::<BlockNode>::empty()));
    while i < cs.len()
        invariant
            i <= cs@.len(),
            out@ == start + list_items(cs@.subrange(0, i as int)),
        decreases cs@.len() - i,
    {
        let c = &cs[i];
        assert(cs@.subrange(0, i + 1).drop_last() =~= cs@.subrange(0, i as int));
        let is_item = match c.kind {
            NodeKind::ListItem => true,
            _ => false,
        };
        if is_item && !is_logseq_heading(c.text.as_str()) {
            out.push(RawBlock { kind: BlockKind::ListItem, start_byte: c.start_byte, end_byte: c.end_byte });
        }
        assert(out@ =~= start + list_items(cs@.subrange(0, i + 1)));
        i = i + 1;
    }
    assert(cs@.subrange(0, cs@.len() as int) =~= cs@);
}

/// Append the content blocks of sibling nodes.
fn collect_blocks(cs: &Vec<BlockNode>, fm_end: usize, out: &mut Vec<RawBlock>)
    ensures
        final(out)@ == old(out)@ + spec_blocks(cs@, fm_end),
    decreases cs@,
{
    let ghost start = out@;
    let mut i: usize = 0;
    assert(cs@.subrange(0, 0) =~= Seq::<BlockNode>::empty());
    assert(out@ =~= start + spec_blocks(Seq::<BlockNode>::empty(), fm_end));
    while i < cs.len()
        invariant
            i <= cs@.len(),
            out@ == start + spec_blocks(cs@.subrange(0, i as int), fm_end),
        decreases cs@.len() - i,
    {
        let c = &cs[i];
        let ghost sub = cs@.subrange(0, i + 1);
        assert(sub.drop_last() =~= cs@.subrange(0, i as int));
        assert(sub.last() == *c);
        let ghost before = out@;
        if c.start_byte >= fm_end {
            match c.kind {
                NodeKind::Document | NodeKind::Section => {
                    assert(decreases_to!(cs@ => cs@[i as int]));
                    collect_blocks(&c.children, fm_end, out);
                    assert(out@ =~= start + spec_blocks(sub, fm_end));
                },
                NodeKind::List => {
                    collect_list_items(&c.children, out);
                    assert(out@ =~= start + spec_blocks(sub, fm_end));
                },
                NodeKind::Paragraph => {
                    out.push(RawBlock { kind: BlockKind::Paragraph, start_byte: c.start_byte, end_byte: c.end_byte });
                },
                NodeKind::FencedCodeBlock | NodeKind::IndentedCodeBlock => {
                    out.push(RawBlock { kind: BlockKind::CodeBlock, start_byte: c.start_byte, end_byte: c.end_byte });
                },
                NodeKind::BlockQuote => {
                    out.push(RawBlock { kind: BlockKind::BlockQuote, start_byte: c.start_byte, end_byte: c.end_byte });
                },
                NodeKind::ThematicBreak => {
                    out.push(RawBlock { kind: BlockKind::ThematicBreak, start_byte: c.start_byte, end_byte: c.end_byte });
                },
                NodeKind::PipeTable => {
                    out.push(RawBlock { kind: BlockKind::Table, start_byte: c.start_byte, end_byte: c.end_byte });
                },
                _ => {},
            }
        }
        assert(out@ =~= start + spec_blocks(sub, fm_end));
        i = i + 1;
    }
    assert(cs@.subrange(0, cs@.len() as int) =~= cs@);
}

/// The content blocks of a block tree, in document order; nodes that start
/// before `fm_end` (the frontmatter) are left out.
pub fn content_blocks(tree: &BlockNode, fm_end: usize) -> (r: Vec<RawBlock>)
    ensures
        r@ == spec_blocks(tree.children@, fm_end),
{
    let mut out: Vec<RawBlock> = Vec::new();
    collect_blocks(&tree.children, fm_end, &mut out);
    assert(out@ =~= spec_blocks(tree.children@, fm_end));
    out
}

} // verus!
