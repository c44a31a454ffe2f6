use text_splitter::{
    ChunkCharIndex, ChunkConfig, Element, HeadingContext, HeadingLevel, MarkdownSplitter,
};

const DOCS: [&str; 6] = [
    "# Header\n\nfrom a\ndocument",
    "# Top\n\nintro\n\n## Sub\n\nbody\n\n### Deep\n\ndeepbody\n",
    "Mr. Fox jumped. The dog was too lazy.",
    "- [ ] incomplete task\n- [x] completed task\n\n> quote **strong** text\n\n```\ncode\n```\n",
    "Title\n=====\n\nSome text éé with ümlauts\n\n---\n\n| a | b |\n| --- | --- |\n| c | d |\n",
    "\r\na̐éö̲\r\n  indented line\n    more indented\n",
];

#[test]
fn doc_example_chunks() {
    let splitter = MarkdownSplitter::new(10);
    let text = "# Header\n\nfrom a\ndocument";
    assert_eq!(vec!["# Header", "from a", "document"], splitter.chunks(text));
}

#[test]
fn doc_example_chunk_indices() {
    let splitter = MarkdownSplitter::new(10);
    let text = "# Header\n\nfrom a\ndocument";
    assert_eq!(
        vec![(0, "# Header"), (10, "from a"), (17, "document")],
        splitter.chunk_indices(text)
    );
}

#[test]
fn doc_example_chunk_char_indices() {
    let splitter = MarkdownSplitter::new(10);
    let text = "# Header\n\nfrom a\ndocument";
    assert_eq!(
        vec![
            ChunkCharIndex { chunk: "# Header", byte_offset: 0, char_offset: 0 },
            ChunkCharIndex { chunk: "from a", byte_offset: 10, char_offset: 10 },
            ChunkCharIndex { chunk: "document", byte_offset: 17, char_offset: 17 },
        ],
        splitter.chunk_char_indices(text)
    );
}

#[test]
fn doc_example_chunks_with_context() {
    let splitter = MarkdownSplitter::new(15);
    let text = "# A\n\nintro\n\n## B\n\nbody\n";
    let chunks = splitter.chunks_with_context(text);
    let (_chunk, ctx) = chunks.last().unwrap();
    assert_eq!(ctx.at(HeadingLevel::H1), Some("A"));
    assert_eq!(ctx.at(HeadingLevel::H2), Some("B"));
}

#[test]
fn untrimmed_chunks_rebuild_the_text() {
    for doc in DOCS {
        for cap in [1, 2, 3, 5, 8, 13, 40, 200] {
            let splitter = MarkdownSplitter::new(ChunkConfig::new(cap).with_trim(false));
            let chunks = splitter.chunks(doc);
            assert_eq!(chunks.join(""), doc, "capacity {cap}");
        }
    }
}

#[test]
fn chunks_stay_within_capacity() {
    for doc in DOCS {
        for cap in [1, 2, 3, 5, 8, 13, 40] {
            for trim in [true, false] {
                let splitter = MarkdownSplitter::new(ChunkConfig::new(cap).with_trim(trim));
                for chunk in splitter.chunks(doc) {
                    assert!(chunk.chars().count() <= cap, "{chunk:?} over {cap}");
                    assert!(!chunk.is_empty());
                }
            }
        }
    }
}

#[test]
fn chunks_sit_at_their_offsets_in_order() {
    for doc in DOCS {
        for cap in [1, 4, 9, 30] {
            let splitter = MarkdownSplitter::new(cap);
            let mut previous_end = 0;
            for c in splitter.chunk_char_indices(doc) {
                assert_eq!(&doc[c.byte_offset..c.byte_offset + c.chunk.len()], c.chunk);
                assert_eq!(doc[..c.byte_offset].chars().count(), c.char_offset);
                assert!(c.char_offset <= c.byte_offset);
                assert!(previous_end <= c.byte_offset);
                previous_end = c.byte_offset + c.chunk.len();
            }
        }
    }
}

#[test]
fn trimmed_chunks_have_no_outer_whitespace_on_one_line() {
    let splitter = MarkdownSplitter::new(4);
    for chunk in splitter.chunks("  one two   three  ") {
        assert_eq!(chunk, chunk.trim());
    }
}

#[test]
fn fitting_text_is_one_chunk() {
    for doc in DOCS {
        let n = doc.chars().count();
        for cap in [n, n + 1, 2 * n] {
            let splitter = MarkdownSplitter::new(ChunkConfig::new(cap).with_trim(false));
            assert_eq!(vec![doc], splitter.chunks(doc), "capacity {cap}");
        }
    }
}

#[test]
fn later_sections_start_at_range_bounds() {
    for doc in DOCS {
        let ranges = MarkdownSplitter::new(10).parse(doc);
        let sections = Element::sections(doc, &ranges);
        assert_eq!(sections.iter().map(|p| p.1).collect::<String>(), doc);
        for (offset, _) in sections.iter().skip(1) {
            assert!(ranges.iter().any(|r| r.1 == *offset || r.2 == *offset), "{offset} in {doc:?}");
        }
    }
}

#[test]
fn trimmed_chunks_carry_no_outer_whitespace() {
    for doc in DOCS {
        for cap in [1, 2, 3, 5, 8, 13, 40, 200] {
            let splitter = MarkdownSplitter::new(cap);
            for chunk in splitter.chunks(doc) {
                assert_eq!(chunk.trim_end(), chunk);
                assert!(!chunk.starts_with('\r') && !chunk.starts_with('\n'));
                if chunk.trim_start() != chunk {
                    assert!(chunk.contains('\n'), "{chunk:?} at {cap}");
                }
            }
        }
    }
}

#[test]
fn multiline_chunk_keeps_indentation() {
    let splitter = MarkdownSplitter::new(100);
    let text = "\n\n    fn main() {\n        body\n    }\n\n";
    assert_eq!(vec![(2, "    fn main() {\n        body\n    }")], splitter.chunk_indices(text));
}

#[test]
fn context_is_every_heading_up_to_the_chunk() {
    let splitter = MarkdownSplitter::new(12);
    let text = "# A\n\nintro\n\n## B\n\nmore\n\n### C\n\nx\n\n## D\n\ny\n";
    let headings = [(0, HeadingLevel::H1, "A"), (12, HeadingLevel::H2, "B"), (24, HeadingLevel::H3, "C"), (34, HeadingLevel::H2, "D")];
    for (offset, _, ctx) in splitter.chunk_indices_with_context(text) {
        let mut expected = HeadingContext::default();
        for (start, level, heading) in headings {
            if start <= offset {
                expected.set(level, heading);
            }
        }
        assert_eq!(expected, ctx, "at offset {offset}");
    }
}

#[test]
fn context_of_char_indices_matches_byte_indices() {
    let splitter = MarkdownSplitter::new(20);
    let text = DOCS[1];
    let by_bytes = splitter.chunk_indices_with_context(text);
    let by_chars = splitter.chunk_char_indices_with_context(text);
    assert_eq!(by_bytes.len(), by_chars.len());
    for (b, c) in by_bytes.iter().zip(by_chars.iter()) {
        assert_eq!(b.0, c.byte_offset);
        assert_eq!(b.1, c.chunk);
        assert_eq!(b.2, c.context);
    }
    let plain = splitter.chunks_with_context(text);
    for (p, c) in plain.iter().zip(by_chars.iter()) {
        assert_eq!(p.0, c.chunk);
        assert_eq!(p.1, c.context);
    }
}

#[test]
fn set_makes_deepest_and_last_of_iter() {
    let mut ctx = HeadingContext::default();
    assert_eq!(ctx.deepest(), None);
    assert!(ctx.iter().is_empty());
    ctx.set(HeadingLevel::H2, "two");
    ctx.set(HeadingLevel::H4, "four");
    assert_eq!(ctx.deepest(), Some((HeadingLevel::H4, "four")));
    assert_eq!(ctx.iter().last().copied(), ctx.deepest());
    assert_eq!(ctx.iter(), vec![(HeadingLevel::H2, "two"), (HeadingLevel::H4, "four")]);
}

#[test]
fn set_twice_is_set_once() {
    let mut once = HeadingContext::default();
    once.set(HeadingLevel::H1, "a");
    once.set(HeadingLevel::H3, "c");
    let mut twice = once;
    twice.set(HeadingLevel::H3, "c");
    assert_eq!(once, twice);
}

#[test]
fn shallow_heading_overrides_deeper_ones() {
    let mut a = HeadingContext::default();
    a.set(HeadingLevel::H1, "top");
    a.set(HeadingLevel::H5, "deep");
    a.set(HeadingLevel::H2, "mid");
    let mut b = HeadingContext::default();
    b.set(HeadingLevel::H1, "top");
    b.set(HeadingLevel::H2, "mid");
    assert_eq!(a, b);
    assert_eq!(a.at(HeadingLevel::H5), None);
}

#[test]
fn empty_and_whitespace_texts_give_no_chunks() {
    let splitter = MarkdownSplitter::new(10);
    assert!(splitter.chunks("").is_empty());
    assert!(splitter.chunks("   \n\n  \t ").is_empty());
    let untrimmed = MarkdownSplitter::new(ChunkConfig::new(10).with_trim(false));
    assert_eq!(vec!["   \n\n  \t "], untrimmed.chunks("   \n\n  \t "));
}

#[test]
fn capacity_zero_still_makes_progress() {
    let splitter = MarkdownSplitter::new(ChunkConfig::new(0).with_trim(false));
    assert_eq!(vec!["a", "b"], splitter.chunks("ab"));
}

#[test]
fn config_getters() {
    let config = ChunkConfig::new(7);
    assert_eq!(config.capacity(), 7);
    assert!(config.trim());
    let untrimmed = config.with_trim(false);
    assert_eq!(untrimmed.capacity(), 7);
    assert!(!untrimmed.trim());
    let from: ChunkConfig = 9.into();
    assert_eq!(from, ChunkConfig::new(9));
    assert_eq!(MarkdownSplitter::new(untrimmed).chunk_config(), untrimmed);
}
