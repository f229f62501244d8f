use markymark_index::document::blocks::{content_blocks, BlockKind, BlockNode, NodeKind, RawBlock};

fn node(kind: NodeKind, start: usize, end: usize, text: &str, children: Vec<BlockNode>) -> BlockNode {
    BlockNode { kind, start_byte: start, end_byte: end, text: text.to_string(), children }
}

fn leaf(kind: NodeKind, start: usize, end: usize) -> BlockNode {
    node(kind, start, end, "", Vec::new())
}

fn block(kind: BlockKind, start: usize, end: usize) -> RawBlock {
    RawBlock { kind, start_byte: start, end_byte: end }
}

#[test]
fn content_blocks_in_document_order() {
    let list = node(
        NodeKind::List,
        40,
        70,
        "",
        vec![
            node(NodeKind::ListItem, 40, 48, "- first\n", Vec::new()),
            node(NodeKind::ListItem, 48, 60, "- # Heading\n", Vec::new()),
            node(NodeKind::ListItem, 60, 70, "- second\n", Vec::new()),
        ],
    );
    let quote = node(
        NodeKind::BlockQuote,
        70,
        80,
        "> inner",
        vec![leaf(NodeKind::Paragraph, 72, 80)],
    );
    let section = node(
        NodeKind::Section,
        20,
        100,
        "",
        vec![
            leaf(NodeKind::Other, 20, 30),
            leaf(NodeKind::Paragraph, 30, 40),
            list,
            quote,
            leaf(NodeKind::FencedCodeBlock, 80, 90),
            leaf(NodeKind::ThematicBreak, 90, 94),
            leaf(NodeKind::PipeTable, 94, 100),
        ],
    );
    let root = node(
        NodeKind::Document,
        0,
        100,
        "",
        vec![leaf(NodeKind::Paragraph, 0, 10), leaf(NodeKind::IndentedCodeBlock, 10, 20), section],
    );
    let blocks = content_blocks(&root, 10);
    assert_eq!(
        blocks,
        vec![
            block(BlockKind::CodeBlock, 10, 20),
            block(BlockKind::Paragraph, 30, 40),
            block(BlockKind::ListItem, 40, 48),
            block(BlockKind::ListItem, 60, 70),
            block(BlockKind::BlockQuote, 70, 80),
            block(BlockKind::CodeBlock, 80, 90),
            block(BlockKind::ThematicBreak, 90, 94),
            block(BlockKind::Table, 94, 100),
        ]
    );
}

#[test]
fn content_blocks_skip_a_section_that_starts_in_the_frontmatter() {
    let root = node(
        NodeKind::Document,
        0,
        30,
        "",
        vec![node(NodeKind::Section, 0, 30, "", vec![leaf(NodeKind::Paragraph, 20, 30)])],
    );
    assert!(content_blocks(&root, 5).is_empty());
    assert_eq!(content_blocks(&root, 0), vec![block(BlockKind::Paragraph, 20, 30)]);
}
