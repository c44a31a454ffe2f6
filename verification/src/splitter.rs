//! The Markdown splitter: chunks of a document, with their offsets and the
//! heading hierarchy active at each of them.

use vstd::prelude::*;
use crate::chunk::{chunk_ranges, chunks_from};
use crate::element::{LevelRange, ranges_within};
use crate::heading::{
    HeadingContext, HeadingEntry, HeadingRecord, advance_context, advance_end, apply_headings,
    empty_slots, record_entries, lemma_apply_headings_append, lemma_advance_end_bounds,
};
use crate::markdown::{
    ByteRange, classified, classified_ranges, lemma_char_ranges_of_events, markdown_events,
    parse_all, parse_events, parse_markdown, span_entries, lemma_headings_entries, to_char_ranges,
};
use crate::ranges::{sort_ranges, sorted_ranges, lemma_sort_within};
use crate::trim::is_trimmed;
use crate::text::{CharText, byte_offset, lemma_chars_le_bytes, lemma_byte_subrange, lemma_byte_offset_strict};
use crate::element::{tiles, piece_texts, lemma_tiles_concat};
use crate::heading::{starts_sorted, lemma_advance_end_splits, lemma_advance_end_resume};
use vstd::utf8::encode_utf8;

verus! {

/// How chunks are sized: at most `capacity` characters, measured after
/// trimming white space when trimming is on (the default).
#[derive(Clone, Copy, Debug, PartialEq, Eq, Structural)]
pub struct ChunkConfig {
    capacity: usize,
    trim: bool,
}

impl ChunkConfig {
    /// The largest number of characters a chunk may have.
    pub closed spec fn max_size(&self) -> usize {
        self.capacity
    }

    /// Whether chunks are trimmed.
    pub closed spec fn trims(&self) -> bool {
        self.trim
    }

    /// A configuration for chunks of at most `capacity` characters, trimmed.
    pub fn new(capacity: usize) -> (config: ChunkConfig)
        ensures
            config == config_with(capacity, true),
            config.max_size() == capacity,
            config.trims(),
    {
        ChunkConfig { capacity, trim: true }
    }

    /// The same configuration with trimming set to `trim`.
    pub fn with_trim(self, trim: bool) -> (config: ChunkConfig)
        ensures
            config == config_with(self.max_size(), trim),
            config.max_size() == self.max_size(),
            config.trims() == trim,
    {
        ChunkConfig { capacity: self.capacity, trim }
    }

    /// The largest number of characters a chunk may have.
    pub fn capacity(&self) -> (capacity: usize)
        ensures
            capacity == self.max_size(),
    {
        self.capacity
    }

    /// Whether chunks are trimmed.
    pub fn trim(&self) -> (trim: bool)
        ensures
            trim == self.trims(),
    {
        self.trim
    }
}

impl From<usize> for ChunkConfig {
    fn from(capacity: usize) -> (config: ChunkConfig) {
        ChunkConfig::new(capacity)
    }
}

impl vstd::std_specs::convert::FromSpecImpl<usize> for ChunkConfig {
    open spec fn obeys_from_spec() -> bool {
        true
    }

    closed spec fn from_spec(capacity: usize) -> ChunkConfig {
        ChunkConfig { capacity, trim: true }
    }
}

/// The configuration of chunks of at most `capacity` characters, trimmed
/// or not as `trim` says.
pub closed spec fn config_with(capacity: usize, trim: bool) -> ChunkConfig {
    ChunkConfig { capacity, trim }
}

/// A configuration is determined by its capacity and whether it trims.
pub broadcast proof fn lemma_config_with(capacity: usize, trim: bool)
    ensures
        #[trigger] config_with(capacity, trim).max_size() == capacity,
        config_with(capacity, trim).trims() == trim,
{
}

/// A capacity converts to a trimmed configuration of that capacity.
pub broadcast proof fn lemma_config_from_capacity(capacity: usize)
    ensures
        #[trigger] <ChunkConfig as vstd::std_specs::convert::FromSpec<usize>>::from_spec(capacity)
            == config_with(capacity, true),
{
}

/// What a splitter can be configured from: a configuration, or a bare
/// capacity (which trims).
pub trait IntoChunkConfig: Sized {
    /// The configuration that `self` stands for.
    spec fn chunk_config_of(self) -> ChunkConfig;

    /// The configuration that `self` stands for.
    fn into_chunk_config(self) -> (config: ChunkConfig)
        ensures
            config == self.chunk_config_of(),
    ;
}

impl IntoChunkConfig for ChunkConfig {
    open spec fn chunk_config_of(self) -> ChunkConfig {
        self
    }

    fn into_chunk_config(self) -> (config: ChunkConfig) {
        self
    }
}

impl IntoChunkConfig for usize {
    open spec fn chunk_config_of(self) -> ChunkConfig {
        config_with(self, true)
    }

    fn into_chunk_config(self) -> (config: ChunkConfig) {
        ChunkConfig::new(self)
    }
}

/// A chunk with its byte and character offsets in the text.
#[derive(Clone, Copy, Debug, PartialEq, Eq)]
pub struct ChunkCharIndex<'text> {
    /// The text of the generated chunk.
    pub chunk: &'text str,
    /// The byte offset of the chunk within the original text.
    pub byte_offset: usize,
    /// The character offset of the chunk within the original text.
    pub char_offset: usize,
}

/// A chunk plus its byte/char offsets *and* the heading hierarchy active at
/// its byte offset.
#[derive(Clone, Copy, Debug, PartialEq, Eq)]
pub struct ChunkCharIndexWithContext<'text> {
    /// The text of the generated chunk.
    pub chunk: &'text str,
    /// The byte offset of the chunk within the original text.
    pub byte_offset: usize,
    /// The character offset of the chunk within the original text.
    pub char_offset: usize,
    /// Heading hierarchy active at this chunk's byte offset.
    pub context: HeadingContext<'text>,
}

/// The element ranges of the Markdown document `t`, ordered by position.
pub open spec fn document_ranges(t: Seq<char>) -> Seq<LevelRange> {
    sort_ranges(parse_all(t, markdown_events(t)).elements)
}

/// The headings of the Markdown document `t` that define its structure, in
/// document order, each with its text.
pub open spec fn document_headings(t: Seq<char>) -> Seq<HeadingEntry> {
    span_entries(t, parse_all(t, markdown_events(t)).headings)
}

/// The chunks of `t`, as character ranges.
pub open spec fn document_chunks(t: Seq<char>, config: ChunkConfig) -> Seq<(usize, usize)> {
    chunks_from(t, document_ranges(t), config.trims(), config.max_size(), 0)
}

/// How many headings have been taken when chunk `i` is reached: the walk
/// over the headings resumes, chunk after chunk, and takes every heading
/// that starts at or before the chunk's byte offset.
pub open spec fn headings_reached(
    hs: Seq<HeadingEntry>,
    t: Seq<char>,
    chunks: Seq<(usize, usize)>,
    i: int,
) -> int
    decreases i,
{
    let prev = if i <= 0 {
        0
    } else {
        headings_reached(hs, t, chunks, i - 1)
    };
    if i < 0 {
        0
    } else {
        advance_end(hs, prev, byte_offset(t, chunks[i].0 as int))
    }
}

/// The heading hierarchy at chunk `i`: every heading taken so far, applied
/// in order.
pub open spec fn context_at(t: Seq<char>, chunks: Seq<(usize, usize)>, i: int) -> Seq<
    Option<Seq<char>>,
> {
    let hs = document_headings(t);
    apply_headings(empty_slots(), hs.take(headings_reached(hs, t, chunks, i)))
}

/// A chunk result of `text`: chunk `i` is the piece of `text` between the
/// character positions of the `i`-th chunk range, at the matching byte
/// offset.
pub open spec fn chunk_matches<'text>(
    t: Seq<char>,
    range: (usize, usize),
    byte: usize,
    chunk: &'text str,
) -> bool {
    &&& byte == byte_offset(t, range.0 as int)
    &&& chunk@ == t.subrange(range.0 as int, range.1 as int)
}

/// The ranges of the document lie within the text.
pub proof fn lemma_document_ranges_within(t: Seq<char>)
    requires
        t.len() <= usize::MAX,
    ensures
        ranges_within(document_ranges(t), t.len() as int),
{
    crate::markdown::lemma_parse_within(t, markdown_events(t));
    lemma_sort_within(parse_all(t, markdown_events(t)).elements, t.len() as int);
}

/// Chunks are non-empty, come in the order of the text and do not overlap.
pub proof fn lemma_chunks_ordered(t: Seq<char>, config: ChunkConfig)
    requires
        t.len() <= usize::MAX,
    ensures
        forall|i: int|
            0 <= i < document_chunks(t, config).len() ==> (#[trigger] document_chunks(t, config)[i]).0
                < document_chunks(t, config)[i].1 && document_chunks(t, config)[i].1 <= t.len(),
        forall|i: int, j: int|
            0 <= i < j < document_chunks(t, config).len() ==> (#[trigger] document_chunks(
                t,
                config,
            )[i]).1 <= (#[trigger] document_chunks(t, config)[j]).0,
{
    lemma_document_ranges_within(t);
    crate::chunk::lemma_chunks_within(t, document_ranges(t), config.trims(), config.max_size(), 0);
}

/// Without trimming, the chunks cover the text from start to end without gap
/// or overlap, so that put together they give back the text.
pub proof fn lemma_untrimmed_chunks_rebuild_text(t: Seq<char>, config: ChunkConfig)
    requires
        t.len() <= usize::MAX,
        !config.trims(),
    ensures
        tiles(document_chunks(t, config), 0, t.len() as int),
        crate::segment::concat(piece_texts(t, document_chunks(t, config))) == t,
{
    lemma_document_ranges_within(t);
    crate::chunk::lemma_chunks_tile(t, document_ranges(t), config.max_size(), 0);
    lemma_tiles_concat(t, document_chunks(t, config), 0, t.len() as int);
    assert(t.subrange(0, t.len() as int) =~= t);
}

/// Each chunk is at most the configured number of characters, whenever that
/// number is at least one.
pub proof fn lemma_chunks_within_capacity(t: Seq<char>, config: ChunkConfig)
    requires
        t.len() <= usize::MAX,
        config.max_size() >= 1,
    ensures
        forall|i: int|
            0 <= i < document_chunks(t, config).len() ==> (#[trigger] document_chunks(t, config)[i]).1
                - document_chunks(t, config)[i].0 <= config.max_size(),
{
    lemma_document_ranges_within(t);
    crate::chunk::lemma_chunks_fit(t, document_ranges(t), config.trims(), config.max_size(), 0);
}

/// Without trimming, a non-empty text of at most the configured number of
/// characters comes out as a single chunk: the whole text.
pub proof fn lemma_fitting_text_is_one_chunk(t: Seq<char>, config: ChunkConfig)
    requires
        !config.trims(),
        0 < t.len() <= config.max_size(),
    ensures
        document_chunks(t, config) == seq![(0usize, t.len() as usize)],
{
    lemma_document_ranges_within(t);
    crate::chunk::lemma_fitting_text_one_chunk(t, document_ranges(t), config.max_size());
}

/// With trimming on, no chunk begins or ends with white space, except that
/// a chunk that spans several lines keeps the indentation of its first line
/// (it never begins with a line break).
pub proof fn lemma_trimmed_chunks(t: Seq<char>, config: ChunkConfig)
    requires
        t.len() <= usize::MAX,
        config.trims(),
    ensures
        forall|i: int|
            0 <= i < document_chunks(t, config).len() ==> is_trimmed(
                t,
                (#[trigger] document_chunks(t, config)[i]).0 as int,
                document_chunks(t, config)[i].1 as int,
            ),
{
    lemma_document_ranges_within(t);
    crate::chunk::lemma_chunks_trimmed(t, document_ranges(t), config.max_size(), 0);
}

/// A chunk's character offset never exceeds its byte offset, and its bytes
/// are the bytes of the text from its byte offset on.
pub proof fn lemma_chunk_offsets(t: Seq<char>, config: ChunkConfig, i: int)
    requires
        t.len() <= usize::MAX,
        0 <= i < document_chunks(t, config).len(),
    ensures
        document_chunks(t, config)[i].0 <= byte_offset(t, document_chunks(t, config)[i].0 as int),
        encode_utf8(
            t.subrange(
                document_chunks(t, config)[i].0 as int,
                document_chunks(t, config)[i].1 as int,
            ),
        ) == encode_utf8(t).subrange(
            byte_offset(t, document_chunks(t, config)[i].0 as int),
            byte_offset(t, document_chunks(t, config)[i].1 as int),
        ),
{
    lemma_chunks_ordered(t, config);
    let c = document_chunks(t, config)[i];
    lemma_chars_le_bytes(t, c.0 as int);
    lemma_byte_subrange(t, c.0 as int, c.1 as int);
}

/// When the headings start in document order, the heading hierarchy of a
/// chunk records exactly the headings that start at or before the chunk's
/// byte offset, in order.
pub proof fn lemma_context_is_headings_before(t: Seq<char>, config: ChunkConfig, i: int)
    requires
        t.len() <= usize::MAX,
        starts_sorted(document_headings(t)),
        0 <= i < document_chunks(t, config).len(),
    ensures
        ({
            let hs = document_headings(t);
            let cs = document_chunks(t, config);
            let reached = headings_reached(hs, t, cs, i);
            let offset = byte_offset(t, cs[i].0 as int);
            &&& 0 <= reached <= hs.len()
            &&& context_at(t, cs, i) == apply_headings(empty_slots(), hs.take(reached))
            &&& forall|j: int| 0 <= j < reached ==> #[trigger] hs[j].0 <= offset
            &&& forall|j: int| reached <= j < hs.len() ==> #[trigger] hs[j].0 > offset
        }),
    decreases i,
{
    let hs = document_headings(t);
    let cs = document_chunks(t, config);
    lemma_chunks_ordered(t, config);
    lemma_reached_is_direct(t, config, i);
    let offset = byte_offset(t, cs[i].0 as int);
    lemma_advance_end_splits(hs, 0, offset);
}

/// The headings of `hs` that start at or before byte `offset`, in order.
pub open spec fn headings_up_to(hs: Seq<HeadingEntry>, offset: int) -> Seq<HeadingEntry>
    decreases hs.len(),
{
    if hs.len() == 0 {
        hs
    } else if hs.last().0 <= offset {
        headings_up_to(hs.drop_last(), offset).push(hs.last())
    } else {
        headings_up_to(hs.drop_last(), offset)
    }
}

proof fn lemma_take_is_up_to(hs: Seq<HeadingEntry>, r: int, offset: int)
    requires
        0 <= r <= hs.len(),
        forall|j: int| 0 <= j < r ==> #[trigger] hs[j].0 <= offset,
        forall|j: int| r <= j < hs.len() ==> #[trigger] hs[j].0 > offset,
    ensures
        hs.take(r) == headings_up_to(hs, offset),
    decreases hs.len(),
{
    if hs.len() > 0 {
        let p = hs.drop_last();
        if r == hs.len() {
            lemma_take_is_up_to(p, r - 1, offset);
            assert(hs.take(r) =~= p.take(r - 1).push(hs.last()));
        } else {
            lemma_take_is_up_to(p, r, offset);
            assert(hs.take(r) =~= p.take(r));
        }
    } else {
        assert(hs.take(r) =~= hs);
    }
}

/// When the headings start in document order, the heading hierarchy of a
/// chunk is that of every heading that starts at or before the chunk's byte
/// offset, applied in order.
pub proof fn lemma_context_is_headings_up_to(t: Seq<char>, config: ChunkConfig, i: int)
    requires
        t.len() <= usize::MAX,
        starts_sorted(document_headings(t)),
        0 <= i < document_chunks(t, config).len(),
    ensures
        context_at(t, document_chunks(t, config), i) == apply_headings(
            empty_slots(),
            headings_up_to(
                document_headings(t),
                byte_offset(t, document_chunks(t, config)[i].0 as int),
            ),
        ),
{
    lemma_context_is_headings_before(t, config, i);
    let hs = document_headings(t);
    let cs = document_chunks(t, config);
    lemma_take_is_up_to(hs, headings_reached(hs, t, cs, i), byte_offset(t, cs[i].0 as int));
}

proof fn lemma_reached_is_direct(t: Seq<char>, config: ChunkConfig, i: int)
    requires
        t.len() <= usize::MAX,
        starts_sorted(document_headings(t)),
        0 <= i < document_chunks(t, config).len(),
    ensures
        headings_reached(document_headings(t), t, document_chunks(t, config), i) == advance_end(
            document_headings(t),
            0,
            byte_offset(t, document_chunks(t, config)[i].0 as int),
        ),
    decreases i,
{
    let hs = document_headings(t);
    let cs = document_chunks(t, config);
    if i > 0 {
        lemma_reached_is_direct(t, config, i - 1);
        lemma_chunks_ordered(t, config);
        assert(cs[i - 1].1 <= cs[i].0);
        lemma_byte_offset_strict(t, cs[i - 1].0 as int, cs[i].0 as int);
        lemma_advance_end_resume(
            hs,
            byte_offset(t, cs[i - 1].0 as int),
            byte_offset(t, cs[i].0 as int),
        );
    }
}

/// Markdown splitter. Recursively splits chunks into the largest
/// semantic units that fit within the chunk size. Also will
/// attempt to merge neighboring chunks if they can fit within the
/// given chunk size.
#[derive(Debug)]
pub struct MarkdownSplitter {
    /// Method of determining chunk sizes.
    chunk_config: ChunkConfig,
}

/// The parts of a prepared text: its tables, its ordered element ranges and
/// its headings.
struct Prepared<'text> {
    text: CharText<'text>,
    ranges: Vec<LevelRange>,
    headings: Vec<HeadingRecord<'text>>,
}

fn prepare<'text>(text: &'text str) -> (p: Prepared<'text>)
    ensures
        p.text.wf(),
        p.text.chars() == text@,
        p.text.source() == text,
        p.ranges@ == document_ranges(text@),
        ranges_within(p.ranges@, text@.len() as int),
        record_entries(p.headings@) == document_headings(text@),
{
    let ct = CharText::new(text);
    let events = parse_events(text);
    let (byte_elements, headings) = parse_markdown(&ct, &events);
    let elements = to_char_ranges(&ct, &byte_elements);
    proof {
        lemma_char_ranges_of_events(text@, events@);
    }
    let ranges = sorted_ranges(&elements);
    proof {
        lemma_sort_within(elements@, text@.len() as int);
        lemma_headings_entries(text@, headings@, parse_all(text@, events@).headings);
    }
    Prepared { text: ct, ranges, headings }
}

impl MarkdownSplitter {
    /// The configuration of the splitter.
    pub closed spec fn config(&self) -> ChunkConfig {
        self.chunk_config
    }

    /// Creates a new [`MarkdownSplitter`].
    pub fn new<C: IntoChunkConfig>(chunk_config: C) -> (splitter: Self)
        ensures
            splitter.config() == chunk_config.chunk_config_of(),
    {
        MarkdownSplitter { chunk_config: chunk_config.into_chunk_config() }
    }

    /// The configuration of the splitter.
    pub fn chunk_config(&self) -> (config: ChunkConfig)
        ensures
            config == self.config(),
    {
        self.chunk_config
    }

    /// The semantic levels that the Markdown events of `text` open, each
    /// with the event's byte range, in event order.
    pub fn parse(&self, text: &str) -> (ranges: Vec<ByteRange>)
        ensures
            ranges@ == classified(markdown_events(text@)),
    {
        let events = parse_events(text);
        classified_ranges(&events)
    }

    /// Generate a list of chunks from a given text. Each chunk will be up to
    /// the `max_chunk_size`.
    pub fn chunks<'text>(&self, text: &'text str) -> (chunks: Vec<&'text str>)
        ensures
            chunks@.len() == document_chunks(text@, self.config()).len(),
            forall|i: int|
                0 <= i < chunks@.len() ==> #[trigger] chunks@[i]@ == text@.subrange(
                    document_chunks(text@, self.config())[i].0 as int,
                    document_chunks(text@, self.config())[i].1 as int,
                ),
    {
        let indices = self.chunk_indices(text);
        let mut out: Vec<&'text str> = Vec::new();
        let mut i: usize = 0;
        while i < indices.len()
            invariant
                i <= indices@.len(),
                out@.len() == i,
                indices@.len() == document_chunks(text@, self.config()).len(),
                forall|k: int|
                    0 <= k < indices@.len() ==> #[trigger] chunk_matches(
                        text@,
                        document_chunks(text@, self.config())[k],
                        indices@[k].0,
                        indices@[k].1,
                    ),
                forall|k: int| 0 <= k < i ==> #[trigger] out@[k] == indices@[k].1,
            decreases indices@.len() - i,
        {
            out.push(indices[i].1);
            i = i + 1;
        }
        proof {
            assert forall|k: int| 0 <= k < out@.len() implies #[trigger] out@[k]@ == text@.subrange(
                document_chunks(text@, self.config())[k].0 as int,
                document_chunks(text@, self.config())[k].1 as int,
            ) by {
                assert(chunk_matches(
                    text@,
                    document_chunks(text@, self.config())[k],
                    indices@[k].0,
                    indices@[k].1,
                ));
            }
        }
        out
    }

    /// Returns the chunks of the text and their byte offsets.
    pub fn chunk_indices<'text>(&self, text: &'text str) -> (chunks: Vec<(usize, &'text str)>)
        ensures
            chunks@.len() == document_chunks(text@, self.config()).len(),
            forall|i: int|
                #![trigger chunks@[i]]
                0 <= i < chunks@.len() ==> chunk_matches(
                    text@,
                    document_chunks(text@, self.config())[i],
                    chunks@[i].0,
                    chunks@[i].1,
                ),
    {
        let p = prepare(text);
        let ranges = chunk_ranges(&p.text, &p.ranges, self.chunk_config.trim, self.chunk_config.capacity);
        let mut out: Vec<(usize, &'text str)> = Vec::new();
        let mut i: usize = 0;
        proof {
            p.text.lemma_wf_bounds();
            crate::chunk::lemma_chunks_within(text@, p.ranges@, self.chunk_config.trim, self.chunk_config.capacity, 0);
        }
        while i < ranges.len()
            invariant
                p.text.wf(),
                p.text.chars() == text@,
                ranges@ == document_chunks(text@, self.config()),
                forall|k: int| 0 <= k < ranges@.len() ==> (#[trigger] ranges@[k]).0 < ranges@[k].1 <= text@.len(),
                i <= ranges@.len(),
                out@.len() == i,
                forall|k: int|
                    0 <= k < i ==> #[trigger] chunk_matches(text@, ranges@[k], out@[k].0, out@[k].1),
            decreases ranges@.len() - i,
        {
            let (a, b) = ranges[i];
            proof {
                assert(ranges@[i as int] == (a, b));
            }
            let piece = p.text.slice(a, b);
            let byte = p.text.byte_pos(a);
            out.push((byte, piece));
            i = i + 1;
        }
        out
    }
}


impl MarkdownSplitter {
    /// Returns the chunks of the text with their byte and character offsets.
    pub fn chunk_char_indices<'text>(&self, text: &'text str) -> (chunks: Vec<ChunkCharIndex<'text>>)
        ensures
            chunks@.len() == document_chunks(text@, self.config()).len(),
            forall|i: int|
                #![trigger chunks@[i]]
                0 <= i < chunks@.len() ==> {
                    &&& chunk_matches(
                        text@,
                        document_chunks(text@, self.config())[i],
                        chunks@[i].byte_offset,
                        chunks@[i].chunk,
                    )
                    &&& chunks@[i].char_offset == document_chunks(text@, self.config())[i].0
                },
    {
        let full = self.chunk_char_indices_with_context(text);
        let mut out: Vec<ChunkCharIndex<'text>> = Vec::new();
        let mut i: usize = 0;
        while i < full.len()
            invariant
                i <= full@.len(),
                out@.len() == i,
                full@.len() == document_chunks(text@, self.config()).len(),
                forall|k: int|
                    #![trigger full@[k]]
                    0 <= k < full@.len() ==> {
                        &&& chunk_matches(
                            text@,
                            document_chunks(text@, self.config())[k],
                            full@[k].byte_offset,
                            full@[k].chunk,
                        )
                        &&& full@[k].char_offset == document_chunks(text@, self.config())[k].0
                    },
                forall|k: int|
                    0 <= k < i ==> #[trigger] out@[k].chunk == full@[k].chunk && out@[k].byte_offset
                        == full@[k].byte_offset && out@[k].char_offset == full@[k].char_offset,
            decreases full@.len() - i,
        {
            let c = full[i];
            out.push(ChunkCharIndex { chunk: c.chunk, byte_offset: c.byte_offset, char_offset: c.char_offset });
            i = i + 1;
        }
        proof {
            assert forall|k: int| 0 <= k < out@.len() implies {
                &&& #[trigger] chunk_matches(
                    text@,
                    document_chunks(text@, self.config())[k],
                    out@[k].byte_offset,
                    out@[k].chunk,
                )
                &&& out@[k].char_offset == document_chunks(text@, self.config())[k].0
            } by {
                assert(chunk_matches(
                    text@,
                    document_chunks(text@, self.config())[k],
                    full@[k].byte_offset,
                    full@[k].chunk,
                ));
            }
        }
        out
    }

    /// Returns the chunks together with the most recent heading at each
    /// level that precedes (or starts at) each chunk's byte offset.
    pub fn chunks_with_context<'text>(&self, text: &'text str) -> (chunks: Vec<
        (&'text str, HeadingContext<'text>),
    >)
        ensures
            chunks@.len() == document_chunks(text@, self.config()).len(),
            forall|i: int|
                0 <= i < chunks@.len() ==> {
                    &&& (#[trigger] chunks@[i]).0@ == text@.subrange(
                        document_chunks(text@, self.config())[i].0 as int,
                        document_chunks(text@, self.config())[i].1 as int,
                    )
                    &&& chunks@[i].1@ == context_at(text@, document_chunks(text@, self.config()), i)
                },
            starts_sorted(document_headings(text@)) ==> forall|i: int|
                0 <= i < chunks@.len() ==> (#[trigger] chunks@[i]).1@ == apply_headings(
                    empty_slots(),
                    headings_up_to(
                        document_headings(text@),
                        byte_offset(text@, document_chunks(text@, self.config())[i].0 as int),
                    ),
                ),
    {
        let full = self.chunk_indices_with_context(text);
        let mut out: Vec<(&'text str, HeadingContext<'text>)> = Vec::new();
        let mut i: usize = 0;
        while i < full.len()
            invariant
                i <= full@.len(),
                out@.len() == i,
                full@.len() == document_chunks(text@, self.config()).len(),
                forall|k: int|
                    #![trigger full@[k]]
                    0 <= k < full@.len() ==> {
                        &&& chunk_matches(
                            text@,
                            document_chunks(text@, self.config())[k],
                            full@[k].0,
                            full@[k].1,
                        )
                        &&& full@[k].2@ == context_at(text@, document_chunks(text@, self.config()), k)
                    },
                forall|k: int| 0 <= k < i ==> #[trigger] out@[k] == (full@[k].1, full@[k].2),
            decreases full@.len() - i,
        {
            let (_, chunk, ctx) = full[i];
            out.push((chunk, ctx));
            i = i + 1;
        }
        proof {
            assert forall|k: int| 0 <= k < out@.len() implies {
                &&& (#[trigger] out@[k]).0@ == text@.subrange(
                    document_chunks(text@, self.config())[k].0 as int,
                    document_chunks(text@, self.config())[k].1 as int,
                )
                &&& out@[k].1@ == context_at(text@, document_chunks(text@, self.config()), k)
            } by {
                assert(chunk_matches(
                    text@,
                    document_chunks(text@, self.config())[k],
                    full@[k].0,
                    full@[k].1,
                ));
            }
            if starts_sorted(document_headings(text@)) {
                assert forall|k: int| 0 <= k < out@.len() implies (#[trigger] out@[k]).1@
                    == apply_headings(
                    empty_slots(),
                    headings_up_to(
                        document_headings(text@),
                        byte_offset(text@, document_chunks(text@, self.config())[k].0 as int),
                    ),
                ) by {
                    assert(out@[k] == (full@[k].1, full@[k].2));
                    assert(full@[k] == full@[k]);
                    assert(chunk_matches(
                        text@,
                        document_chunks(text@, self.config())[k],
                        full@[k].0,
                        full@[k].1,
                    ));
                }
            }
        }
        out
    }

    /// Like [`MarkdownSplitter::chunk_indices`] but additionally yields a
    /// [`HeadingContext`] reflecting the heading hierarchy active at the
    /// chunk's byte offset.
    pub fn chunk_indices_with_context<'text>(&self, text: &'text str) -> (chunks: Vec<
        (usize, &'text str, HeadingContext<'text>),
    >)
        ensures
            chunks@.len() == document_chunks(text@, self.config()).len(),
            forall|i: int|
                #![trigger chunks@[i]]
                0 <= i < chunks@.len() ==> {
                    &&& chunk_matches(
                        text@,
                        document_chunks(text@, self.config())[i],
                        chunks@[i].0,
                        chunks@[i].1,
                    )
                    &&& chunks@[i].2@ == context_at(text@, document_chunks(text@, self.config()), i)
                },
            starts_sorted(document_headings(text@)) ==> forall|i: int|
                0 <= i < chunks@.len() ==> (#[trigger] chunks@[i]).2@ == apply_headings(
                    empty_slots(),
                    headings_up_to(document_headings(text@), chunks@[i].0 as int),
                ),
    {
        let full = self.chunk_char_indices_with_context(text);
        let mut out: Vec<(usize, &'text str, HeadingContext<'text>)> = Vec::new();
        let mut i: usize = 0;
        while i < full.len()
            invariant
                i <= full@.len(),
                out@.len() == i,
                full@.len() == document_chunks(text@, self.config()).len(),
                forall|k: int|
                    #![trigger full@[k]]
                    0 <= k < full@.len() ==> {
                        &&& chunk_matches(
                            text@,
                            document_chunks(text@, self.config())[k],
                            full@[k].byte_offset,
                            full@[k].chunk,
                        )
                        &&& full@[k].context@ == context_at(
                            text@,
                            document_chunks(text@, self.config()),
                            k,
                        )
                    },
                forall|k: int|
                    0 <= k < i ==> #[trigger] out@[k] == (
                        full@[k].byte_offset,
                        full@[k].chunk,
                        full@[k].context,
                    ),
            decreases full@.len() - i,
        {
            let c = full[i];
            out.push((c.byte_offset, c.chunk, c.context));
            i = i + 1;
        }
        proof {
            assert forall|k: int| 0 <= k < out@.len() implies {
                &&& #[trigger] chunk_matches(
                    text@,
                    document_chunks(text@, self.config())[k],
                    out@[k].0,
                    out@[k].1,
                )
                &&& out@[k].2@ == context_at(text@, document_chunks(text@, self.config()), k)
            } by {
                assert(chunk_matches(
                    text@,
                    document_chunks(text@, self.config())[k],
                    full@[k].byte_offset,
                    full@[k].chunk,
                ));
            }
            if starts_sorted(document_headings(text@)) {
                assert forall|k: int| 0 <= k < out@.len() implies (#[trigger] out@[k]).2@
                    == apply_headings(
                    empty_slots(),
                    headings_up_to(document_headings(text@), out@[k].0 as int),
                ) by {
                    assert(out@[k] == (full@[k].byte_offset, full@[k].chunk, full@[k].context));
                }
            }
        }
        out
    }

    /// Like [`MarkdownSplitter::chunk_char_indices`] but additionally yields
    /// a [`HeadingContext`] reflecting the heading hierarchy active at the
    /// chunk's byte offset.
    pub fn chunk_char_indices_with_context<'text>(&self, text: &'text str) -> (chunks: Vec<
        ChunkCharIndexWithContext<'text>,
    >)
        ensures
            chunks@.len() == document_chunks(text@, self.config()).len(),
            forall|i: int|
                #![trigger chunks@[i]]
                0 <= i < chunks@.len() ==> {
                    &&& chunk_matches(
                        text@,
                        document_chunks(text@, self.config())[i],
                        chunks@[i].byte_offset,
                        chunks@[i].chunk,
                    )
                    &&& chunks@[i].char_offset == document_chunks(text@, self.config())[i].0
                    &&& chunks@[i].context@ == context_at(
                        text@,
                        document_chunks(text@, self.config()),
                        i,
                    )
                },
            starts_sorted(document_headings(text@)) ==> forall|i: int|
                0 <= i < chunks@.len() ==> (#[trigger] chunks@[i]).context@ == apply_headings(
                    empty_slots(),
                    headings_up_to(document_headings(text@), chunks@[i].byte_offset as int),
                ),
    {
        let p = prepare(text);
        let ranges = chunk_ranges(&p.text, &p.ranges, self.chunk_config.trim, self.chunk_config.capacity);
        let ghost t = text@;
        let ghost cs = ranges@;
        let ghost hs = document_headings(t);
        let headings = p.headings.as_slice();
        let mut ctx = HeadingContext::default();
        let mut hi: usize = 0;
        let mut out: Vec<ChunkCharIndexWithContext<'text>> = Vec::new();
        let mut i: usize = 0;
        proof {
            p.text.lemma_wf_bounds();
            crate::chunk::lemma_chunks_within(t, p.ranges@, self.chunk_config.trim, self.chunk_config.capacity, 0);
            assert(hs.take(0) =~= Seq::<HeadingEntry>::empty());
        }
        while i < ranges.len()
            invariant
                p.text.wf(),
                p.text.chars() == t,
                t == text@,
                cs == ranges@,
                cs == document_chunks(t, self.config()),
                forall|k: int| 0 <= k < cs.len() ==> (#[trigger] cs[k]).0 < cs[k].1 <= t.len(),
                hs == document_headings(t),
                record_entries(headings@) == hs,
                i <= cs.len(),
                out@.len() == i,
                hi <= hs.len(),
                i > 0 ==> hi == headings_reached(hs, t, cs, i - 1),
                i == 0 ==> hi == 0,
                ctx@ == apply_headings(empty_slots(), hs.take(hi as int)),
                forall|k: int|
                    0 <= k < i ==> {
                        &&& #[trigger] chunk_matches(t, cs[k], out@[k].byte_offset, out@[k].chunk)
                        &&& out@[k].char_offset == cs[k].0
                        &&& out@[k].context@ == context_at(t, cs, k)
                    },
            decreases cs.len() - i,
        {
            let (a, b) = ranges[i];
            let piece = p.text.slice(a, b);
            let byte = p.text.byte_pos(a);
            let ghost old_hi = hi as int;
            let ghost old_ctx = ctx@;
            advance_context(&mut ctx, headings, &mut hi, byte);
            proof {
                lemma_advance_end_bounds(hs, old_hi, byte as int);
                assert(hi == headings_reached(hs, t, cs, i as int));
                lemma_apply_headings_append(empty_slots(), hs.take(old_hi), hs.subrange(old_hi, hi as int));
                assert(hs.take(old_hi) + hs.subrange(old_hi, hi as int) =~= hs.take(hi as int));
            }
            out.push(ChunkCharIndexWithContext { chunk: piece, byte_offset: byte, char_offset: a, context: ctx });
            i = i + 1;
        }
        proof {
            if starts_sorted(hs) {
                assert forall|k: int| 0 <= k < out@.len() implies (#[trigger] out@[k]).context@
                    == apply_headings(empty_slots(), headings_up_to(hs, out@[k].byte_offset as int)) by {
                    assert(chunk_matches(t, cs[k], out@[k].byte_offset, out@[k].chunk));
                    lemma_context_is_headings_up_to(t, self.config(), k);
                }
            }
        }
        out
    }
}

} // verus!
