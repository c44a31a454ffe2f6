use text_splitter::element::SemanticSplitPosition;
use text_splitter::markdown::{
    classified_ranges, classify_event, parse_markdown, to_char_ranges, MdEvent, MdEventKind, MdTag,
};
use text_splitter::ranges::sorted_ranges;
use text_splitter::segment::{fallback_pieces, sections_of_lengths, FallbackLevel};
use text_splitter::text::{is_whitespace, utf8_width, CharText};
use text_splitter::trim::{size_of_chunk, trim_bounds};
use text_splitter::{Element, HeadingLevel, MarkdownSplitter};

const LEVELS: [Element; 10] = [
    Element::SoftBreak,
    Element::Inline,
    Element::Block,
    Element::Rule,
    Element::Heading(HeadingLevel::H6),
    Element::Heading(HeadingLevel::H5),
    Element::Heading(HeadingLevel::H4),
    Element::Heading(HeadingLevel::H3),
    Element::Heading(HeadingLevel::H2),
    Element::Heading(HeadingLevel::H1),
];

fn ev(kind: MdEventKind, start: usize, end: usize) -> MdEvent {
    MdEvent { kind, start, end }
}

#[test]
fn heading_depths_round_trip() {
    for (i, level) in HeadingLevel::ALL.iter().enumerate() {
        assert_eq!(level.depth(), i + 1);
        assert_eq!(HeadingLevel::from_depth(i + 1), *level);
    }
    assert!(HeadingLevel::H6 < HeadingLevel::H1);
}

#[test]
fn rank_orders_levels_as_their_declaration() {
    for (i, level) in LEVELS.iter().enumerate() {
        assert_eq!(level.rank() as usize, i);
        for other in &LEVELS[i + 1..] {
            assert!(level < other);
            assert!(level.rank() < other.rank());
        }
    }
}

#[test]
fn headings_go_with_what_follows_and_blocks_take_whitespace() {
    for level in LEVELS {
        let heading = matches!(level, Element::Heading(_));
        let expected = if heading { SemanticSplitPosition::Next } else { SemanticSplitPosition::Own };
        assert_eq!(level.split_position(), expected);
        assert_eq!(level.treat_whitespace_as_previous(), level == Element::Block);
    }
}

#[test]
fn events_classify_into_levels() {
    assert_eq!(classify_event(MdEventKind::Start(MdTag::Paragraph)), Some(Element::Block));
    assert_eq!(classify_event(MdEventKind::Start(MdTag::Emphasis)), Some(Element::Inline));
    assert_eq!(classify_event(MdEventKind::Start(MdTag::TableCell)), Some(Element::Inline));
    assert_eq!(classify_event(MdEventKind::Start(MdTag::TableRow)), Some(Element::Block));
    assert_eq!(
        classify_event(MdEventKind::Start(MdTag::Heading(HeadingLevel::H3))),
        Some(Element::Heading(HeadingLevel::H3))
    );
    assert_eq!(classify_event(MdEventKind::End(MdTag::Paragraph)), None);
    assert_eq!(classify_event(MdEventKind::Text), Some(Element::Inline));
    assert_eq!(classify_event(MdEventKind::TaskListMarker), Some(Element::Inline));
    assert_eq!(classify_event(MdEventKind::SoftBreak), Some(Element::SoftBreak));
    assert_eq!(classify_event(MdEventKind::HardBreak), Some(Element::Inline));
    assert_eq!(classify_event(MdEventKind::Html), Some(Element::Block));
    assert_eq!(classify_event(MdEventKind::DisplayMath), Some(Element::Block));
    assert_eq!(classify_event(MdEventKind::Rule), Some(Element::Rule));
}

#[test]
fn whitespace_and_widths_agree_with_std() {
    for code in 0..=0x10FFFFu32 {
        if let Some(c) = char::from_u32(code) {
            assert_eq!(is_whitespace(c), c.is_whitespace(), "{code:#x}");
            assert_eq!(utf8_width(c), c.len_utf8(), "{code:#x}");
        }
    }
}

#[test]
fn char_text_maps_characters_and_bytes() {
    let text = CharText::new("aé𝄞b");
    assert_eq!(text.len(), 4);
    assert_eq!(text.char_at(2), '𝄞');
    assert_eq!(text.byte_pos(0), 0);
    assert_eq!(text.byte_pos(2), 3);
    assert_eq!(text.byte_pos(4), 8);
    assert_eq!(text.char_index_of_byte(3), Some(2));
    assert_eq!(text.char_index_of_byte(8), Some(4));
    assert_eq!(text.char_index_of_byte(2), None);
    assert_eq!(text.char_index_of_byte(9), None);
    assert_eq!(text.slice(1, 3), "é𝄞");
    assert_eq!(text.slice(2, 2), "");
}

#[test]
fn trimming_keeps_indentation_of_several_lines() {
    let text = CharText::new("  \n  a\n  b  \n");
    assert_eq!(trim_bounds(&text, 0, 13), (0, 10));
    let text = CharText::new("\n\n  a\n b \n");
    assert_eq!(trim_bounds(&text, 0, 10), (2, 8));
    let text = CharText::new("  a b  ");
    assert_eq!(trim_bounds(&text, 0, 7), (2, 5));
    let text = CharText::new(" \n\t ");
    assert_eq!(trim_bounds(&text, 0, 4), (4, 4));
}

#[test]
fn parse_skips_headings_inside_containers() {
    let text = CharText::new("# T\n\n> # Q\n");
    let events = vec![
        ev(MdEventKind::Start(MdTag::Heading(HeadingLevel::H1)), 0, 4),
        ev(MdEventKind::Text, 2, 3),
        ev(MdEventKind::End(MdTag::Heading(HeadingLevel::H1)), 0, 4),
        ev(MdEventKind::Start(MdTag::BlockQuote), 5, 11),
        ev(MdEventKind::Start(MdTag::Heading(HeadingLevel::H1)), 7, 11),
        ev(MdEventKind::Text, 9, 10),
        ev(MdEventKind::End(MdTag::Heading(HeadingLevel::H1)), 7, 11),
        ev(MdEventKind::End(MdTag::BlockQuote), 5, 11),
    ];
    let (elements, headings) = parse_markdown(&text, &events);
    assert_eq!(
        elements,
        vec![
            (Element::Heading(HeadingLevel::H1), 0, 4),
            (Element::Inline, 2, 3),
            (Element::Block, 5, 11),
            (Element::Heading(HeadingLevel::H1), 7, 11),
            (Element::Inline, 9, 10),
        ]
    );
    assert_eq!(headings, vec![(0, HeadingLevel::H1, "T")]);
}

#[test]
fn parse_reads_empty_headings_and_drops_split_characters() {
    let text = CharText::new("##\n");
    let events = vec![
        ev(MdEventKind::Start(MdTag::Heading(HeadingLevel::H2)), 0, 3),
        ev(MdEventKind::End(MdTag::Heading(HeadingLevel::H2)), 0, 3),
    ];
    let (elements, headings) = parse_markdown(&text, &events);
    assert_eq!(elements, vec![(Element::Heading(HeadingLevel::H2), 0, 3)]);
    assert_eq!(headings, vec![(0, HeadingLevel::H2, "")]);

    let text = CharText::new("é");
    let (elements, headings) = parse_markdown(&text, &vec![ev(MdEventKind::Text, 0, 1)]);
    assert_eq!(elements, vec![(Element::Inline, 0, 1)]);
    assert!(headings.is_empty());
    let (elements, _) = parse_markdown(&text, &vec![ev(MdEventKind::Text, 0, 2)]);
    assert_eq!(elements, vec![(Element::Inline, 0, 2)]);
    assert_eq!(to_char_ranges(&text, &elements), vec![(Element::Inline, 0, 1)]);
    assert!(to_char_ranges(&text, &vec![(Element::Inline, 0, 1)]).is_empty());
}

#[test]
fn ranges_sort_by_start_longer_first_stable() {
    let ranges = vec![
        (Element::Inline, 5, 6),
        (Element::Block, 0, 10),
        (Element::Block, 0, 4),
        (Element::Heading(HeadingLevel::H1), 0, 10),
    ];
    assert_eq!(
        sorted_ranges(&ranges),
        vec![
            (Element::Block, 0, 10),
            (Element::Heading(HeadingLevel::H1), 0, 10),
            (Element::Block, 0, 4),
            (Element::Inline, 5, 6),
        ]
    );
}

#[test]
fn sections_follow_their_ranges() {
    let ranges = vec![(Element::Block, 0, 2), (Element::Block, 4, 6)];
    assert_eq!(Element::sections("ab\n\ncd", &ranges), vec![(0, "ab"), (2, "\n\ncd")]);

    let ranges = vec![(Element::Heading(HeadingLevel::H1), 0, 3), (Element::Inline, 4, 8)];
    assert_eq!(Element::sections("# A\ntext", &ranges), vec![(0, "# A\n"), (4, "text")]);

    let ranges = vec![(Element::Inline, 0, 2), (Element::Inline, 3, 6)];
    assert_eq!(Element::sections("é xé!", &ranges), vec![(0, "é"), (2, " "), (3, "xé"), (6, "!")]);
    let text = CharText::new("é xé!");
    assert_eq!(
        Element::char_sections(&text, 0, &vec![(Element::Inline, 0, 1), (Element::Inline, 2, 4)]),
        vec![(0, 1), (1, 2), (2, 4), (4, 5)]
    );
}

#[test]
fn classified_ranges_keep_event_order_and_bytes() {
    let events = vec![
        ev(MdEventKind::Start(MdTag::Paragraph), 0, 6),
        ev(MdEventKind::Text, 0, 3),
        ev(MdEventKind::SoftBreak, 3, 4),
        ev(MdEventKind::End(MdTag::Paragraph), 0, 6),
        ev(MdEventKind::Rule, 7, 10),
    ];
    assert_eq!(
        classified_ranges(&events),
        vec![
            (Element::Block, 0, 6),
            (Element::Inline, 0, 3),
            (Element::SoftBreak, 3, 4),
            (Element::Rule, 7, 10),
        ]
    );
}

#[test]
fn fallback_levels_cut_by_unicode_boundaries() {
    let text = CharText::new("a̐éö̲\r\n");
    assert_eq!(
        fallback_pieces(&text, 0, FallbackLevel::GraphemeCluster),
        vec![(0, 2), (2, 3), (3, 5), (5, 7)]
    );
    assert_eq!(
        fallback_pieces(&text, 3, FallbackLevel::Char),
        vec![(3, 4), (4, 5), (5, 6), (6, 7)]
    );

    let text = CharText::new("Mr. Fox jumped.");
    assert_eq!(
        fallback_pieces(&text, 0, FallbackLevel::Word),
        vec![(0, 2), (2, 3), (3, 4), (4, 7), (7, 8), (8, 14), (14, 15)]
    );

    let text = CharText::new("Mr. Fox jumped. The dog was too lazy.");
    assert_eq!(
        fallback_pieces(&text, 0, FallbackLevel::Sentence),
        vec![(0, 4), (4, 16), (16, 37)]
    );
    assert_eq!(fallback_pieces(&text, 37, FallbackLevel::Sentence), vec![]);
}

#[test]
fn parse_gives_byte_ranges_in_event_order() {
    let splitter = MarkdownSplitter::new(10);
    assert_eq!(
        splitter.parse("é *x*"),
        vec![
            (Element::Block, 0, 6),
            (Element::Inline, 0, 3),
            (Element::Inline, 3, 6),
            (Element::Inline, 4, 5),
        ]
    );
}

#[test]
fn lengths_place_sections_one_after_another() {
    assert_eq!(sections_of_lengths(&vec![2, 1, 0, 2, 2], 3), vec![(3, 5), (5, 6), (6, 8), (8, 10)]);
    assert!(sections_of_lengths(&vec![], 4).is_empty());
    assert!(sections_of_lengths(&vec![0, 0], 4).is_empty());
}

#[test]
fn sections_read_only_what_they_need() {
    // A heading is placed by its start alone; its end need not be a boundary.
    let ranges = vec![(Element::Heading(HeadingLevel::H1), 0, 3), (Element::Inline, 5, 6)];
    assert_eq!(Element::sections("# é\nx", &ranges), vec![(0, "# é\n"), (5, "x")]);
    // A range that starts before the cursor is passed over unread.
    let ranges = vec![(Element::Block, 0, 6), (Element::Inline, 3, 4)];
    assert_eq!(Element::sections("# é\nx", &ranges), vec![(0, "# é\nx")]);
}

#[test]
fn chunk_size_grows_with_the_chunk() {
    for doc in ["  a\n  b  \n\n c ", "\n\n  x y\n z", "   ", "ab cd"] {
        let text = CharText::new(doc);
        let n = text.len();
        for trim in [true, false] {
            for c in 0..=n {
                let mut last = 0;
                for e in c..=n {
                    let size = size_of_chunk(&text, trim, c, e);
                    assert!(size >= last, "{doc:?} {c}..{e}");
                    last = size;
                }
            }
        }
    }
}
