use text_splitter::ranges::{level_ranges_after, sorted_ranges};
use text_splitter::{Element, HeadingLevel, MarkdownSplitter};

#[test]
fn test_no_markdown_separators() {
    let splitter = MarkdownSplitter::new(10);
    let ranges = sorted_ranges(&splitter.parse("Some text without any markdown separators"));

    assert_eq!(
        vec![(Element::Block, 0, 41), (Element::Inline, 0, 41)],
        ranges
    );
}

#[test]
fn test_checklist() {
    let splitter = MarkdownSplitter::new(10);
    let ranges = sorted_ranges(&splitter.parse("- [ ] incomplete task\n- [x] completed task"));

    assert_eq!(
        vec![
            (Element::Block, 0, 42),
            (Element::Block, 0, 22),
            (Element::Inline, 2, 5),
            (Element::Inline, 6, 21),
            (Element::Block, 22, 42),
            (Element::Inline, 24, 27),
            (Element::Inline, 28, 42),
        ],
        ranges
    );
}

#[test]
fn test_footnote_reference() {
    let splitter = MarkdownSplitter::new(10);
    let ranges = sorted_ranges(&splitter.parse("Footnote[^1]"));

    assert_eq!(
        vec![
            (Element::Block, 0, 12),
            (Element::Inline, 0, 8),
            (Element::Inline, 8, 12),
        ],
        ranges
    );
}

#[test]
fn test_inline_code() {
    let splitter = MarkdownSplitter::new(10);
    let ranges = sorted_ranges(&splitter.parse("`bash`"));

    assert_eq!(
        vec![(Element::Block, 0, 6), (Element::Inline, 0, 6)],
        ranges
    );
}

#[test]
fn test_emphasis() {
    let splitter = MarkdownSplitter::new(10);
    let ranges = sorted_ranges(&splitter.parse("*emphasis*"));

    assert_eq!(
        vec![
            (Element::Block, 0, 10),
            (Element::Inline, 0, 10),
            (Element::Inline, 1, 9),
        ],
        ranges
    );
}

#[test]
fn test_strong() {
    let splitter = MarkdownSplitter::new(10);
    let ranges = sorted_ranges(&splitter.parse("**emphasis**"));

    assert_eq!(
        vec![
            (Element::Block, 0, 12),
            (Element::Inline, 0, 12),
            (Element::Inline, 2, 10),
        ],
        ranges
    );
}

#[test]
fn test_strikethrough() {
    let splitter = MarkdownSplitter::new(10);
    let ranges = sorted_ranges(&splitter.parse("~~emphasis~~"));

    assert_eq!(
        vec![
            (Element::Block, 0, 12),
            (Element::Inline, 0, 12),
            (Element::Inline, 2, 10),
        ],
        ranges
    );
}

#[test]
fn test_link() {
    let splitter = MarkdownSplitter::new(10);
    let ranges = sorted_ranges(&splitter.parse("[link](url)"));

    assert_eq!(
        vec![
            (Element::Block, 0, 11),
            (Element::Inline, 0, 11),
            (Element::Inline, 1, 5),
        ],
        ranges
    );
}

#[test]
fn test_image() {
    let splitter = MarkdownSplitter::new(10);
    let ranges = sorted_ranges(&splitter.parse("![link](url)"));

    assert_eq!(
        vec![
            (Element::Block, 0, 12),
            (Element::Inline, 0, 12),
            (Element::Inline, 2, 6),
        ],
        ranges
    );
}

#[test]
fn test_inline_html() {
    let splitter = MarkdownSplitter::new(10);
    let ranges = sorted_ranges(&splitter.parse("<span>Some text</span>"));

    assert_eq!(
        vec![
            (Element::Block, 0, 22),
            (Element::Inline, 0, 6),
            (Element::Inline, 6, 15),
            (Element::Inline, 15, 22),
        ],
        ranges
    );
}

#[test]
fn test_html() {
    let splitter = MarkdownSplitter::new(10);
    let ranges = sorted_ranges(&splitter.parse("<div>Some text</div>"));

    assert_eq!(
        vec![(Element::Block, 0, 20), (Element::Block, 0, 20)],
        ranges
    );
}

#[test]
fn test_table() {
    let splitter = MarkdownSplitter::new(10);
    let ranges = sorted_ranges(&splitter.parse("| Header 1 | Header 2 |\n| --- | --- |\n| Cell 1 | Cell 2 |"));
    assert_eq!(
        vec![
            (Element::Block, 0, 57),
            (Element::Block, 0, 24),
            (Element::Inline, 1, 11),
            (Element::Inline, 2, 10),
            (Element::Inline, 12, 22),
            (Element::Inline, 13, 21),
            (Element::Block, 38, 57),
            (Element::Inline, 39, 47),
            (Element::Inline, 40, 46),
            (Element::Inline, 48, 56),
            (Element::Inline, 49, 55)
        ],
        ranges
    );
}

#[test]
fn test_softbreak() {
    let splitter = MarkdownSplitter::new(10);
    let ranges = sorted_ranges(&splitter.parse("Some text\nwith a softbreak"));

    assert_eq!(
        vec![
            (Element::Block, 0, 26),
            (Element::Inline, 0, 9),
            (Element::SoftBreak, 9, 10),
            (Element::Inline, 10, 26)
        ],
        ranges
    );
}

#[test]
fn test_hardbreak() {
    let splitter = MarkdownSplitter::new(10);
    let ranges = sorted_ranges(&splitter.parse("Some text\\\nwith a hardbreak"));

    assert_eq!(
        vec![
            (Element::Block, 0, 27),
            (Element::Inline, 0, 9),
            (Element::Inline, 9, 11),
            (Element::Inline, 11, 27)
        ],
        ranges
    );
}

#[test]
fn test_footnote_def() {
    let splitter = MarkdownSplitter::new(10);
    let ranges = sorted_ranges(&splitter.parse("[^first]: Footnote"));

    assert_eq!(
        vec![
            (Element::Block, 0, 18),
            (Element::Block, 10, 18),
            (Element::Inline, 10, 18)
        ],
        ranges
    );
}

#[test]
fn test_code_block() {
    let splitter = MarkdownSplitter::new(10);
    let ranges = sorted_ranges(&splitter.parse("```\ncode\n```"));

    assert_eq!(
        vec![(Element::Block, 0, 12), (Element::Inline, 4, 9)],
        ranges
    );
}

#[test]
fn test_block_quote() {
    let splitter = MarkdownSplitter::new(10);
    let ranges = sorted_ranges(&splitter.parse("> quote"));

    assert_eq!(
        vec![
            (Element::Block, 0, 7),
            (Element::Block, 2, 7),
            (Element::Inline, 2, 7)
        ],
        ranges
    );
}

#[test]
fn test_with_rule() {
    let splitter = MarkdownSplitter::new(10);
    let ranges = sorted_ranges(&splitter.parse("Some text\n\n---\n\nwith a rule"));

    assert_eq!(
        vec![
            (Element::Block, 0, 10),
            (Element::Inline, 0, 9),
            (Element::Rule, 11, 15),
            (Element::Block, 16, 27),
            (Element::Inline, 16, 27)
        ],
        ranges
    );
}

#[test]
fn test_heading() {
    for (index, (heading, level)) in [
        ("#", HeadingLevel::H1),
        ("##", HeadingLevel::H2),
        ("###", HeadingLevel::H3),
        ("####", HeadingLevel::H4),
        ("#####", HeadingLevel::H5),
        ("######", HeadingLevel::H6),
    ]
    .into_iter()
    .enumerate()
    {
        let splitter = MarkdownSplitter::new(10);
        let ranges = sorted_ranges(&splitter.parse(&format!("{heading} Heading")));

        assert_eq!(
            vec![
                (Element::Heading(level), 0, 9 + index),
                (Element::Inline, 2 + index, 9 + index)
            ],
            ranges
        );
    }
}

#[test]
fn test_ranges_after_offset_block() {
    let splitter = MarkdownSplitter::new(10);
    let ranges = sorted_ranges(&splitter.parse("- [ ] incomplete task\n- [x] completed task"));

    assert_eq!(
        vec![(Element::Block, 0, 22), (Element::Block, 22, 42),],
        level_ranges_after(&ranges, 0, Element::Block)
    );
}
