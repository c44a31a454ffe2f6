use std::cmp::min;

use fake::{Fake, Faker};
use text_splitter::{
    ChunkCharIndex, ChunkConfig, HeadingContext, HeadingLevel, MarkdownSplitter,
};

#[test]
fn returns_one_chunk_if_text_is_shorter_than_max_chunk_size() {
    let text = Faker.fake::<String>();
    let chunks = MarkdownSplitter::new(ChunkConfig::new(text.chars().count()).with_trim(false))
        .chunks(&text);

    assert_eq!(vec![&text], chunks);
}

#[test]
fn returns_two_chunks_if_text_is_longer_than_max_chunk_size() {
    let text1 = Faker.fake::<String>();
    let text2 = Faker.fake::<String>();
    let text = format!("{text1}{text2}");
    // Round up to one above half so it goes to 2 chunks
    let max_chunk_size = text.chars().count() / 2 + 1;

    let chunks = MarkdownSplitter::new(ChunkConfig::new(max_chunk_size).with_trim(false))
        .chunks(&text);

    assert!(chunks.iter().all(|c| c.chars().count() <= max_chunk_size));

    // Check that beginning of first chunk and text 1 matches
    let len = min(text1.len(), chunks[0].len());
    assert_eq!(text1[..len], chunks[0][..len]);
    // Check that end of second chunk and text 2 matches
    let len = min(text2.len(), chunks[1].len());
    assert_eq!(
        text2[(text2.len() - len)..],
        chunks[1][chunks[1].len() - len..]
    );

    assert_eq!(chunks.join(""), text);
}

#[test]
fn empty_string() {
    let text = "";
    let chunks = MarkdownSplitter::new(ChunkConfig::new(100).with_trim(false))
        .chunks(text);

    assert!(chunks.is_empty());
}

#[test]
fn can_handle_unicode_characters() {
    let text = "éé"; // Char that is more than one byte
    let chunks = MarkdownSplitter::new(ChunkConfig::new(1).with_trim(false))
        .chunks(text);

    assert_eq!(vec!["é", "é"], chunks);
}

#[test]
fn chunk_by_graphemes() {
    let text = "a̐éö̲\r\n";
    let chunks = MarkdownSplitter::new(ChunkConfig::new(3).with_trim(false))
        .chunks(text);

    // \r\n is grouped together not separated
    assert_eq!(vec!["a̐é", "ö̲", "\r\n"], chunks);
}

#[test]
fn trim_char_indices() {
    let text = " a b ";
    let chunks = MarkdownSplitter::new(1)
        .chunk_indices(text);

    assert_eq!(vec![(1, "a"), (3, "b")], chunks);
}

#[test]
fn chunk_char_indices() {
    let text = " a b ";
    let chunks = MarkdownSplitter::new(1)
        .chunk_char_indices(text);

    assert_eq!(
        vec![
            ChunkCharIndex {
                chunk: "a",
                byte_offset: 1,
                char_offset: 1
            },
            ChunkCharIndex {
                chunk: "b",
                byte_offset: 3,
                char_offset: 3,
            },
        ],
        chunks
    );
}

#[test]
fn graphemes_fallback_to_chars() {
    let text = "a̐éö̲\r\n";
    let chunks = MarkdownSplitter::new(ChunkConfig::new(1).with_trim(false))
        .chunks(text);

    assert_eq!(
        vec!["a", "\u{310}", "é", "ö", "\u{332}", "\r", "\n"],
        chunks
    );
}

#[test]
fn trim_grapheme_indices() {
    let text = "\r\na̐éö̲\r\n";
    let chunks = MarkdownSplitter::new(3)
        .chunk_indices(text);

    assert_eq!(vec![(2, "a̐é"), (7, "ö̲")], chunks);
}

#[test]
fn grapheme_char_indices() {
    let text = "\r\na̐éö̲\r\n";
    let chunks = MarkdownSplitter::new(3)
        .chunk_char_indices(text);

    assert_eq!(
        vec![
            ChunkCharIndex {
                chunk: "a̐é",
                byte_offset: 2,
                char_offset: 2
            },
            ChunkCharIndex {
                chunk: "ö̲",
                byte_offset: 7,
                char_offset: 5
            }
        ],
        chunks
    );
}

#[test]
fn chunk_by_words() {
    let text = "The quick brown fox can jump 32.3 feet, right?";
    let chunks = MarkdownSplitter::new(ChunkConfig::new(10).with_trim(false))
        .chunks(text);

    assert_eq!(
        vec![
            "The quick ",
            "brown fox ",
            "can jump ",
            "32.3 feet,",
            " right?"
        ],
        chunks
    );
}

#[test]
fn words_fallback_to_graphemes() {
    let text = "Thé quick\r\n";
    let chunks = MarkdownSplitter::new(ChunkConfig::new(2).with_trim(false))
        .chunks(text);

    assert_eq!(vec!["Th", "é ", "qu", "ic", "k", "\r\n"], chunks);
}

#[test]
fn trim_word_indices() {
    let text = "Some text from a document";
    let chunks = MarkdownSplitter::new(10)
        .chunk_indices(text);

    assert_eq!(
        vec![(0, "Some text"), (10, "from a"), (17, "document")],
        chunks
    );
}

#[test]
fn chunk_by_sentences() {
    let text = "Mr. Fox jumped. The dog was too lazy.";
    let chunks = MarkdownSplitter::new(ChunkConfig::new(21).with_trim(false))
        .chunks(text);

    assert_eq!(vec!["Mr. Fox jumped. ", "The dog was too lazy."], chunks);
}

#[test]
fn sentences_falls_back_to_words() {
    let text = "Mr. Fox jumped. The dog was too lazy.";
    let chunks = MarkdownSplitter::new(ChunkConfig::new(16).with_trim(false))
        .chunks(text);

    assert_eq!(
        vec!["Mr. Fox jumped. ", "The dog was too ", "lazy."],
        chunks
    );
}

#[test]
fn trim_sentence_indices() {
    let text = "Some text. From a document.";
    let chunks = MarkdownSplitter::new(10)
        .chunk_indices(text);

    assert_eq!(
        vec![(0, "Some text."), (11, "From a"), (18, "document.")],
        chunks
    );
}

#[test]
fn context_empty_for_doc_without_headings() {
    let splitter = MarkdownSplitter::new(64);
    let chunks = splitter
        .chunks_with_context("hello world\n\nsecond paragraph");
    assert!(!chunks.is_empty());
    for (_, ctx) in &chunks {
        assert_eq!(ctx.deepest(), None);
        assert!(ctx.iter().is_empty());
    }
}

#[test]
fn context_tracks_atx_heading_levels() {
    // With a capacity of 20 every section becomes a chunk of its own, and the
    // context of each chunk steps down one heading level at a time.
    let splitter = MarkdownSplitter::new(20);
    let md = "# Top\n\nintro\n\n## Sub\n\nbody\n\n### Deep\n\ndeepbody\n";
    let chunks = splitter.chunks_with_context(md);

    // The last chunk sits past all three headings.
    let (_, last_ctx) = chunks.last().expect("at least one chunk");
    assert_eq!(last_ctx.at(HeadingLevel::H1), Some("Top"));
    assert_eq!(last_ctx.at(HeadingLevel::H2), Some("Sub"));
    assert_eq!(last_ctx.at(HeadingLevel::H3), Some("Deep"));
    assert_eq!(last_ctx.deepest(), Some((HeadingLevel::H3, "Deep")));
}

#[test]
fn context_clears_deeper_levels_on_sibling_heading() {
    let splitter = MarkdownSplitter::new(20);
    let md = "# Top\n\nintro\n\n## A\n\n### Deep\n\nfoo\n\n## B\n\nbar\n";
    let chunks = splitter.chunks_with_context(md);

    // Last chunk is under "## B"; H3 from the earlier "### Deep" must be cleared.
    let (_, last_ctx) = chunks.last().expect("at least one chunk");
    assert_eq!(last_ctx.at(HeadingLevel::H1), Some("Top"));
    assert_eq!(last_ctx.at(HeadingLevel::H2), Some("B"));
    assert_eq!(last_ctx.at(HeadingLevel::H3), None);
}

#[test]
fn context_recognises_setext_heading() {
    let splitter = MarkdownSplitter::new(64);
    let md = "Title\n=====\n\nbody\n";
    let chunks = splitter.chunks_with_context(md);
    let body_chunk = chunks
        .iter()
        .find(|(c, _)| c.contains("body"))
        .expect("body chunk");
    assert_eq!(body_chunk.1.at(HeadingLevel::H1), Some("Title"));
}

#[test]
fn context_ignores_hash_inside_code_block() {
    let splitter = MarkdownSplitter::new(128);
    let md = "# Real\n\n```bash\n# shell comment, not a heading\n```\n\nafter\n";
    let chunks = splitter.chunks_with_context(md);
    for (_, ctx) in &chunks {
        // The only heading we should ever see is "Real".
        for (_, text) in ctx.iter() {
            assert_eq!(text, "Real");
        }
    }
}

#[test]
fn context_strips_atx_trailing_hashes() {
    let splitter = MarkdownSplitter::new(64);
    let md = "## Hello ##\n\nbody\n";
    let chunks = splitter.chunks_with_context(md);
    let body_chunk = chunks
        .iter()
        .find(|(c, _)| c.contains("body"))
        .expect("body chunk");
    assert_eq!(body_chunk.1.at(HeadingLevel::H2), Some("Hello"));
}

#[test]
fn chunk_indices_with_context_returns_byte_offsets() {
    let splitter = MarkdownSplitter::new(64);
    let md = "# A\n\nfoo\n\n# B\n\nbar\n";
    let collected = splitter.chunk_indices_with_context(md);
    // Every entry has (byte_offset, chunk_text, context).
    for (byte_offset, chunk, _) in &collected {
        assert_eq!(&md[*byte_offset..*byte_offset + chunk.len()], *chunk);
    }
}

#[test]
fn chunk_char_indices_with_context_returns_full_struct() {
    let splitter = MarkdownSplitter::new(64);
    let md = "# A\n\nfoo\n\n# B\n\nbar\n";
    let collected = splitter.chunk_char_indices_with_context(md);
    assert!(!collected.is_empty());
    for c in &collected {
        assert_eq!(&md[c.byte_offset..c.byte_offset + c.chunk.len()], c.chunk);
        // char_offset never exceeds byte_offset (chars ≤ bytes in UTF-8).
        assert!(c.char_offset <= c.byte_offset);
    }
}

#[test]
fn context_iter_yields_h1_to_h6_order() {
    // Sanity check that HeadingContext::iter walks shallowest → deepest.
    let mut ctx = HeadingContext::default();
    ctx.set(HeadingLevel::H3, "deep");
    ctx.set(HeadingLevel::H1, "top");
    // Setting H1 clears deeper levels per the docs.
    let levels = ctx.iter();
    assert_eq!(levels, vec![(HeadingLevel::H1, "top")]);
}

#[test]
fn context_handles_skipped_heading_levels() {
    // `# A` directly to `### C` with no `##` in between. H2 stays vacant.
    let splitter = MarkdownSplitter::new(20);
    let md = "# A\n\nintro\n\n### C\n\nbody\n";
    let chunks = splitter.chunks_with_context(md);
    let (_, last_ctx) = chunks.last().unwrap();
    assert_eq!(last_ctx.at(HeadingLevel::H1), Some("A"));
    assert_eq!(last_ctx.at(HeadingLevel::H2), None);
    assert_eq!(last_ctx.at(HeadingLevel::H3), Some("C"));
    assert_eq!(last_ctx.deepest(), Some((HeadingLevel::H3, "C")));
}

#[test]
fn context_handles_multiple_h1s() {
    let splitter = MarkdownSplitter::new(15);
    let md = "# First\n\nfoo\n\n# Second\n\nbar\n";
    let chunks = splitter.chunks_with_context(md);
    let (_, last_ctx) = chunks.last().unwrap();
    // Second H1 replaces the first; deeper levels (none here) cleared.
    assert_eq!(last_ctx.at(HeadingLevel::H1), Some("Second"));
    assert_eq!(last_ctx.deepest(), Some((HeadingLevel::H1, "Second")));
}

#[test]
fn context_handles_empty_heading_text() {
    // CommonMark: `#` alone is a level-1 heading with empty content.
    let splitter = MarkdownSplitter::new(20);
    let md = "#\n\nbody\n";
    let chunks = splitter.chunks_with_context(md);
    let (_, last_ctx) = chunks.last().unwrap();
    // We still register the level, just with empty text.
    assert_eq!(last_ctx.at(HeadingLevel::H1), Some(""));
}

#[test]
fn context_handles_inline_formatting_in_heading() {
    // pulldown-cmark emits Text events for the words but skips the
    // `**` / `*` markers. Our text slice spans from the first to last
    // Text event, so any markers between events are kept; markers
    // strictly outside the first/last event are dropped.
    let splitter = MarkdownSplitter::new(30);
    let md = "## **bold** middle *em*\n\nbody\n";
    let chunks = splitter.chunks_with_context(md);
    let (_, last_ctx) = chunks.last().unwrap();
    let h2 = last_ctx.at(HeadingLevel::H2).unwrap();
    // Both content words must appear; exact marker representation is
    // implementation detail of pulldown-cmark.
    assert!(h2.contains("bold"), "expected `bold` in {h2:?}");
    assert!(h2.contains("middle"), "expected `middle` in {h2:?}");
    assert!(h2.contains("em"), "expected `em` in {h2:?}");
}

#[test]
fn context_ignores_heading_inside_blockquote() {
    // Capacity small enough to force the splitter past byte_offset = 10
    // where pulldown-cmark *does* emit Tag::Heading for `> ## Quoted`.
    // Without the container-depth filter, the chunk past the blockquote
    // would see ctx[H2] == Some("Quoted").
    let splitter = MarkdownSplitter::new(15);
    let md = "# Real\n\n> ## Quoted\n>\n> body of quote\n\nafter\n";
    let chunks = splitter.chunks_with_context(md);
    // No chunk should see "Quoted" as H2 — it lives inside a block quote.
    for (_, ctx) in &chunks {
        assert_ne!(
            ctx.at(HeadingLevel::H2),
            Some("Quoted"),
            "blockquoted heading leaked into context"
        );
    }
    // The legitimate H1 is still picked up by some chunk.
    let any_with_real = chunks
        .iter()
        .any(|(_, c)| c.at(HeadingLevel::H1) == Some("Real"));
    assert!(any_with_real);
}

#[test]
fn context_ignores_heading_inside_list_item() {
    let splitter = MarkdownSplitter::new(15);
    let md = "# Real\n\n- ## Listed\n  body\n\nafter\n";
    let chunks = splitter.chunks_with_context(md);
    for (_, ctx) in &chunks {
        assert_ne!(
            ctx.at(HeadingLevel::H2),
            Some("Listed"),
            "list-item heading leaked into context"
        );
    }
}

#[test]
fn context_handles_setext_alongside_atx() {
    // Setext H1 followed by ATX H2 should produce a normal H1 → H2 chain.
    let splitter = MarkdownSplitter::new(25);
    let md = "Title\n=====\n\nintro\n\n## Sub\n\nbody\n";
    let chunks = splitter.chunks_with_context(md);
    let (_, last_ctx) = chunks.last().unwrap();
    assert_eq!(last_ctx.at(HeadingLevel::H1), Some("Title"));
    assert_eq!(last_ctx.at(HeadingLevel::H2), Some("Sub"));
}

#[test]
fn context_handles_html_pseudo_heading_as_non_heading() {
    // `<h1>...</h1>` is HTML, not a markdown heading — pulldown emits
    // Event::Html, not Tag::Heading, so we ignore it.
    let splitter = MarkdownSplitter::new(64);
    let md = "<h1>HTML pretender</h1>\n\nbody\n";
    let chunks = splitter.chunks_with_context(md);
    for (_, ctx) in &chunks {
        assert_eq!(
            ctx.deepest(),
            None,
            "no markdown heading should be registered"
        );
    }
}

#[test]
fn context_handles_more_than_six_hashes_as_paragraph() {
    // 7 `#`s isn't a valid ATX heading; it's a paragraph.
    let splitter = MarkdownSplitter::new(64);
    let md = "####### not a heading\n\nbody\n";
    let chunks = splitter.chunks_with_context(md);
    for (_, ctx) in &chunks {
        assert_eq!(ctx.deepest(), None);
    }
}

#[test]
fn context_handles_hash_without_space() {
    // `#foo` (no space after #) is not a heading per CommonMark.
    let splitter = MarkdownSplitter::new(64);
    let md = "#foo\n\nbody\n";
    let chunks = splitter.chunks_with_context(md);
    for (_, ctx) in &chunks {
        assert_eq!(ctx.deepest(), None);
    }
}

#[test]
fn context_set_clears_deeper_levels() {
    let mut ctx = HeadingContext::default();
    ctx.set(HeadingLevel::H1, "A");
    ctx.set(HeadingLevel::H2, "B");
    ctx.set(HeadingLevel::H3, "C");
    assert_eq!(ctx.deepest(), Some((HeadingLevel::H3, "C")));
    // Setting a new H2 should clear H3.
    ctx.set(HeadingLevel::H2, "B2");
    assert_eq!(ctx.at(HeadingLevel::H2), Some("B2"));
    assert_eq!(ctx.at(HeadingLevel::H3), None);
    assert_eq!(ctx.deepest(), Some((HeadingLevel::H2, "B2")));
}
