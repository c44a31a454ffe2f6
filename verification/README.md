# text_splitter

Semantic splitting of Markdown documents into chunks of bounded size, with
the heading hierarchy that is active at each chunk. Written in Verus: the
library's functions carry contracts that Verus proves, except the small
trusted items that call the outside crates (see below).

A chunk is built from the largest semantic unit whose first section still
fits: headings by level, thematic breaks, blocks, inline elements and soft
breaks, then sentences, words, grapheme clusters and finally characters.
Chunks are trimmed of surrounding white space by default, keeping the
indentation of chunks that span several lines.

## Layout

- `src/heading.rs`: heading levels and `HeadingContext`, the six heading
  slots, with the laws of setting a heading.
- `src/text.rs`: a text with its characters and byte offsets.
- `src/element.rs`: the semantic levels (`Element`) and how a level's ranges
  cut a text into sections.
- `src/markdown.rs`: Markdown events (parsed by pulldown-cmark) and the walk
  that turns them into element ranges and headings.
- `src/ranges.rs`: ordering the element ranges and choosing the ranges a
  level cuts by.
- `src/segment.rs`: the Unicode fallback levels (unicode-segmentation).
- `src/trim.rs`: trimming and the size of a chunk.
- `src/chunk.rs`: the greedy chunking itself.
- `src/splitter.rs`: `ChunkConfig`, `MarkdownSplitter` and the laws of the
  chunks it yields.

The calls into pulldown-cmark and unicode-segmentation are the only trusted
items: three converters of pulldown-cmark's types, which carry no contract,
and four calls whose doc comments state what the library assumes of them.
