//! Markdown events as the splitter reads them, their classification into
//! semantic levels, and the single walk over them that yields both the
//! element ranges and the headings of a document.

use vstd::prelude::*;
use pulldown_cmark::{Event, Options, Parser, TagEnd};
use pulldown_cmark::HeadingLevel as CmarkLevel;
use pulldown_cmark::TagEnd::{DefinitionListDefinition, DefinitionListTitle, Strikethrough, Subscript, Superscript};
use crate::element::{Element, LevelRange, ranges_within};
use crate::heading::{HeadingLevel, HeadingRecord, HeadingEntry, record_entries};
use crate::text::{CharText, byte_offset};

verus! {

/// A Markdown tag (of a start or an end event), as the splitter reads it.
#[derive(Clone, Copy, Debug, PartialEq, Eq, Structural)]
pub enum MdTag {
    Paragraph,
    Heading(HeadingLevel),
    BlockQuote,
    CodeBlock,
    HtmlBlock,
    List,
    Item,
    FootnoteDefinition,
    DefinitionList,
    DefinitionListTitle,
    DefinitionListDefinition,
    Table,
    TableHead,
    TableRow,
    TableCell,
    Emphasis,
    Strong,
    Strikethrough,
    Superscript,
    Subscript,
    Link,
    Image,
    MetadataBlock,
}

/// The kind of a Markdown event, as the splitter reads it.
#[derive(Clone, Copy, Debug, PartialEq, Eq, Structural)]
pub enum MdEventKind {
    Start(MdTag),
    End(MdTag),
    Text,
    Code,
    InlineMath,
    DisplayMath,
    Html,
    InlineHtml,
    FootnoteReference,
    SoftBreak,
    HardBreak,
    Rule,
    TaskListMarker,
}

/// A Markdown event with the byte range of the source it comes from.
#[derive(Clone, Copy, Debug, PartialEq, Eq, Structural)]
pub struct MdEvent {
    pub kind: MdEventKind,
    pub start: usize,
    pub end: usize,
}

#[verifier::external_type_specification]
#[verifier::external_body]
pub struct ExEvent<'a>(Event<'a>);

#[verifier::external_type_specification]
#[verifier::external_body]
pub struct ExTagEnd(TagEnd);

#[verifier::external_type_specification]
#[verifier::external_body]
pub struct ExCmarkLevel(CmarkLevel);

/// The events that pulldown-cmark emits for a source text parsed with all
/// extensions enabled, in order, each with its byte range.
pub uninterp spec fn markdown_events(text: Seq<char>) -> Seq<MdEvent>;

/// Calls pulldown-cmark's `Parser::new_ext(text, Options::all())` and walks
/// its `into_offset_iter()`, keeping each event's kind and byte range.
/// Claimed: that list is a function of the text alone (named
/// [`markdown_events`]). Nothing is claimed of what the events are: not that
/// their ranges lie within the text, fall on character boundaries, nest, or
/// come in document order; the walk that reads them checks what it needs.
#[verifier::external_body]
pub(crate) fn parse_events(text: &str) -> (events: Vec<MdEvent>)
    ensures
        events@ == markdown_events(text@),
{
    let mut events = Vec::new();
    for (event, range) in Parser::new_ext(text, Options::all()).into_offset_iter() {
        events.push(MdEvent { kind: event_kind(&event), start: range.start, end: range.end });
    }
    events
}

/// Converts a pulldown-cmark `Event` to its kind, variant for variant.
#[verifier::external_body]
fn event_kind(event: &Event) -> MdEventKind {
    match event {
        Event::Start(tag) => MdEventKind::Start(tag_kind(tag.to_end())),
        Event::End(tag) => MdEventKind::End(tag_kind(*tag)),
        Event::Text(_) => MdEventKind::Text,
        Event::Code(_) => MdEventKind::Code,
        Event::InlineMath(_) => MdEventKind::InlineMath,
        Event::DisplayMath(_) => MdEventKind::DisplayMath,
        Event::Html(_) => MdEventKind::Html,
        Event::InlineHtml(_) => MdEventKind::InlineHtml,
        Event::FootnoteReference(_) => MdEventKind::FootnoteReference,
        Event::SoftBreak => MdEventKind::SoftBreak,
        Event::HardBreak => MdEventKind::HardBreak,
        Event::Rule => MdEventKind::Rule,
        Event::TaskListMarker(_) => MdEventKind::TaskListMarker,
    }
}

/// Converts a pulldown-cmark `TagEnd` to an [`MdTag`], variant for variant.
#[verifier::external_body]
fn tag_kind(tag: TagEnd) -> MdTag {
    match tag {
        TagEnd::Paragraph => MdTag::Paragraph, TagEnd::Heading(l) => MdTag::Heading(heading_level(l)),
        TagEnd::BlockQuote(_) => MdTag::BlockQuote, TagEnd::CodeBlock => MdTag::CodeBlock,
        TagEnd::HtmlBlock => MdTag::HtmlBlock, TagEnd::List(_) => MdTag::List,
        TagEnd::Item => MdTag::Item, TagEnd::FootnoteDefinition => MdTag::FootnoteDefinition,
        TagEnd::DefinitionList => MdTag::DefinitionList, TagEnd::Table => MdTag::Table,
        DefinitionListTitle => MdTag::DefinitionListTitle,
        DefinitionListDefinition => MdTag::DefinitionListDefinition,
        TagEnd::TableHead => MdTag::TableHead, TagEnd::TableRow => MdTag::TableRow,
        TagEnd::TableCell => MdTag::TableCell, TagEnd::Emphasis => MdTag::Emphasis,
        TagEnd::Strong => MdTag::Strong, Strikethrough => MdTag::Strikethrough,
        Superscript => MdTag::Superscript, Subscript => MdTag::Subscript,
        TagEnd::Link => MdTag::Link, TagEnd::Image => MdTag::Image,
        TagEnd::MetadataBlock(_) => MdTag::MetadataBlock,
    }
}

/// Converts pulldown-cmark's `HeadingLevel` to this crate's, level for level.
#[verifier::external_body]
fn heading_level(level: CmarkLevel) -> HeadingLevel {
    match level {
        CmarkLevel::H1 => HeadingLevel::H1,
        CmarkLevel::H2 => HeadingLevel::H2,
        CmarkLevel::H3 => HeadingLevel::H3,
        CmarkLevel::H4 => HeadingLevel::H4,
        CmarkLevel::H5 => HeadingLevel::H5,
        CmarkLevel::H6 => HeadingLevel::H6,
    }
}


/// The semantic level that an event opens, if any.
pub open spec fn classify(kind: MdEventKind) -> Option<Element> {
    match kind {
        MdEventKind::Start(tag) => match tag {
            MdTag::Emphasis | MdTag::Strong | MdTag::Strikethrough | MdTag::Link | MdTag::Image
            | MdTag::Subscript | MdTag::Superscript | MdTag::TableCell => Some(Element::Inline),
            MdTag::Heading(level) => Some(Element::Heading(level)),
            _ => Some(Element::Block),
        },
        MdEventKind::Text | MdEventKind::HardBreak | MdEventKind::Code | MdEventKind::InlineHtml
        | MdEventKind::InlineMath | MdEventKind::FootnoteReference
        | MdEventKind::TaskListMarker => Some(Element::Inline),
        MdEventKind::SoftBreak => Some(Element::SoftBreak),
        MdEventKind::Html | MdEventKind::DisplayMath => Some(Element::Block),
        MdEventKind::Rule => Some(Element::Rule),
        MdEventKind::End(_) => None,
    }
}

/// Classify a Markdown event into the corresponding [`Element`] semantic
/// level, or `None` if the event doesn't open one.
pub fn classify_event(kind: MdEventKind) -> (level: Option<Element>)
    ensures
        level == classify(kind),
{
    match kind {
        MdEventKind::Start(tag) => match tag {
            MdTag::Emphasis | MdTag::Strong | MdTag::Strikethrough | MdTag::Link | MdTag::Image
            | MdTag::Subscript | MdTag::Superscript | MdTag::TableCell => Some(Element::Inline),
            MdTag::Paragraph | MdTag::CodeBlock | MdTag::FootnoteDefinition | MdTag::MetadataBlock
            | MdTag::TableHead | MdTag::BlockQuote | MdTag::TableRow | MdTag::Item
            | MdTag::HtmlBlock | MdTag::List | MdTag::Table | MdTag::DefinitionList
            | MdTag::DefinitionListTitle | MdTag::DefinitionListDefinition => Some(Element::Block),
            MdTag::Heading(level) => Some(Element::Heading(level)),
        },
        MdEventKind::Text | MdEventKind::HardBreak | MdEventKind::Code | MdEventKind::InlineHtml
        | MdEventKind::InlineMath | MdEventKind::FootnoteReference
        | MdEventKind::TaskListMarker => Some(Element::Inline),
        MdEventKind::SoftBreak => Some(Element::SoftBreak),
        MdEventKind::Html | MdEventKind::DisplayMath => Some(Element::Block),
        MdEventKind::Rule => Some(Element::Rule),
        // End events are identical to start, so no need to grab them.
        MdEventKind::End(_) => None,
    }
}

/// Tags that open a container whose headings do not define the document's
/// structure: block quotes, list items and footnote definitions.
pub open spec fn is_container(tag: MdTag) -> bool {
    tag == MdTag::BlockQuote || tag == MdTag::Item || tag == MdTag::FootnoteDefinition
}

/// The character index of byte offset `b` of `t`, if `b` is a character
/// boundary of `t`.
pub open spec fn char_of_byte(t: Seq<char>, b: int) -> Option<int> {
    if exists|i: int| 0 <= i <= t.len() && byte_offset(t, i) == b {
        Some(choose|i: int| 0 <= i <= t.len() && byte_offset(t, i) == b)
    } else {
        None
    }
}

/// The character range of the byte range `start..end` of `t`, if both ends
/// are character boundaries and the range is not reversed.
pub open spec fn char_span(t: Seq<char>, start: usize, end: usize) -> Option<(usize, usize)> {
    match (char_of_byte(t, start as int), char_of_byte(t, end as int)) {
        (Some(a), Some(b)) => if a <= b {
            Some((a as usize, b as usize))
        } else {
            None
        },
        _ => None,
    }
}

/// A heading being read: byte start, level, and the character range from
/// its first to its last text piece so far.
pub type PendingHeading = (usize, HeadingLevel, Option<(usize, usize)>);

/// A heading found: byte start, level, character range of its text.
pub type HeadingSpan = (usize, HeadingLevel, usize, usize);

/// What the walk over the events has gathered so far.
pub struct ParseState {
    pub elements: Seq<LevelRange>,
    pub headings: Seq<HeadingSpan>,
    pub depth: nat,
    pub pending: Option<PendingHeading>,
}

/// The element ranges after one more event: the event's level and
/// character range, if it opens a level and its range is one.
pub open spec fn step_elements(t: Seq<char>, elements: Seq<LevelRange>, ev: MdEvent) -> Seq<
    LevelRange,
> {
    match (classify(ev.kind), char_span(t, ev.start, ev.end)) {
        (Some(level), Some((a, b))) => elements.push((level, a, b)),
        _ => elements,
    }
}

/// The state after one more event.
pub open spec fn parse_step(t: Seq<char>, st: ParseState, ev: MdEvent) -> ParseState {
    let span = char_span(t, ev.start, ev.end);
    let elements = step_elements(t, st.elements, ev);
    match ev.kind {
        MdEventKind::Start(tag) => if is_container(tag) {
            ParseState { elements, depth: st.depth + 1, ..st }
        } else if tag is Heading && st.depth == 0 {
            ParseState { elements, pending: Some((ev.start, tag->Heading_0, None)), ..st }
        } else {
            ParseState { elements, ..st }
        },
        MdEventKind::End(tag) => if is_container(tag) {
            ParseState {
                elements,
                depth: if st.depth > 0 {
                    (st.depth - 1) as nat
                } else {
                    0
                },
                ..st
            }
        } else if tag is Heading && st.pending is Some {
            let (start, level, inner) = st.pending->0;
            let (a, b) = match inner {
                Some((a, b)) => if a <= b {
                    (a, b)
                } else {
                    (a, a)
                },
                None => (0usize, 0usize),
            };
            ParseState {
                elements,
                headings: st.headings.push((start, level, a, b)),
                pending: None,
                ..st
            }
        } else {
            ParseState { elements, ..st }
        },
        MdEventKind::Text | MdEventKind::Code => if st.pending is Some && span is Some {
            let (start, level, inner) = st.pending->0;
            let (a, b) = span->0;
            let inner2 = match inner {
                Some((s, _)) => Some((s, b)),
                None => Some((a, b)),
            };
            ParseState { elements, pending: Some((start, level, inner2)), ..st }
        } else {
            ParseState { elements, ..st }
        },
        _ => ParseState { elements, ..st },
    }
}

/// The state after all of `evs`.
pub open spec fn parse_all(t: Seq<char>, evs: Seq<MdEvent>) -> ParseState
    decreases evs.len(),
{
    if evs.len() == 0 {
        ParseState { elements: Seq::empty(), headings: Seq::empty(), depth: 0, pending: None }
    } else {
        parse_step(t, parse_all(t, evs.drop_last()), evs.last())
    }
}

/// The state after the events `evs`, starting from `st`.
pub open spec fn parse_from(t: Seq<char>, st: ParseState, evs: Seq<MdEvent>) -> ParseState
    decreases evs.len(),
{
    if evs.len() == 0 {
        st
    } else {
        parse_step(t, parse_from(t, st, evs.drop_last()), evs.last())
    }
}

proof fn lemma_parse_from_one(t: Seq<char>, st: ParseState, ev: MdEvent)
    ensures
        parse_from(t, st, seq![ev]) == parse_step(t, st, ev),
{
    assert(seq![ev].drop_last() =~= Seq::<MdEvent>::empty());
    assert(seq![ev].last() == ev);
    assert(parse_from(t, st, Seq::<MdEvent>::empty()) == st);
}

/// The walk over `a + b` is the walk over `a`, continued over `b`.
pub proof fn lemma_parse_from_append(t: Seq<char>, st: ParseState, a: Seq<MdEvent>, b: Seq<MdEvent>)
    ensures
        parse_from(t, st, a + b) == parse_from(t, parse_from(t, st, a), b),
    decreases b.len(),
{
    if b.len() > 0 {
        lemma_parse_from_append(t, st, a, b.drop_last());
        assert((a + b).drop_last() =~= a + b.drop_last());
        assert((a + b).last() == b.last());
    } else {
        assert(a + b =~= a);
    }
}

/// The walk over a whole document is the walk from the start.
pub proof fn lemma_parse_all_from(t: Seq<char>, evs: Seq<MdEvent>)
    ensures
        parse_all(t, evs) == parse_from(
            t,
            ParseState { elements: Seq::empty(), headings: Seq::empty(), depth: 0, pending: None },
            evs,
        ),
    decreases evs.len(),
{
    if evs.len() > 0 {
        lemma_parse_all_from(t, evs.drop_last());
    }
}

/// The walk over `pre + evs` is the walk over `pre`, continued over `evs`.
pub proof fn lemma_parse_all_split(t: Seq<char>, pre: Seq<MdEvent>, evs: Seq<MdEvent>)
    ensures
        parse_all(t, pre + evs) == parse_from(t, parse_all(t, pre), evs),
{
    lemma_parse_all_from(t, pre + evs);
    lemma_parse_all_from(t, pre);
    lemma_parse_from_append(
        t,
        ParseState { elements: Seq::empty(), headings: Seq::empty(), depth: 0, pending: None },
        pre,
        evs,
    );
}

/// The event opens or closes a container (a block quote, a list item or a
/// footnote definition).
pub open spec fn container_event(ev: MdEvent) -> bool {
    match ev.kind {
        MdEventKind::Start(tag) => is_container(tag),
        MdEventKind::End(tag) => is_container(tag),
        _ => false,
    }
}

proof fn lemma_depth_kept(t: Seq<char>, st: ParseState, evs: Seq<MdEvent>)
    requires
        forall|i: int| 0 <= i < evs.len() ==> !container_event(#[trigger] evs[i]),
    ensures
        parse_from(t, st, evs).depth == st.depth,
        parse_from(t, st, evs).headings.len() >= st.headings.len(),
    decreases evs.len(),
{
    if evs.len() > 0 {
        assert forall|i: int| 0 <= i < evs.drop_last().len() implies !container_event(
            #[trigger] evs.drop_last()[i],
        ) by {
            assert(evs.drop_last()[i] == evs[i]);
        }
        lemma_depth_kept(t, st, evs.drop_last());
        assert(!container_event(evs[evs.len() - 1]));
    }
}

/// Closing a container undoes opening it: after a block quote, a list item
/// or a footnote definition that holds no other container, the walk is as
/// deep in containers as it was before it, whatever came earlier.
pub proof fn lemma_closed_container_restores_depth(
    t: Seq<char>,
    pre: Seq<MdEvent>,
    open: MdEvent,
    mid: Seq<MdEvent>,
    close: MdEvent,
    tag: MdTag,
)
    requires
        is_container(tag),
        open.kind == MdEventKind::Start(tag),
        close.kind == MdEventKind::End(tag),
        forall|i: int| 0 <= i < mid.len() ==> !container_event(#[trigger] mid[i]),
    ensures
        parse_all(t, pre + seq![open] + mid + seq![close]).depth == parse_all(t, pre).depth,
{
    let st = parse_all(t, pre);
    lemma_parse_all_split(t, pre, seq![open] + mid + seq![close]);
    assert(pre + seq![open] + mid + seq![close] =~= pre + (seq![open] + mid + seq![close]));
    lemma_parse_from_append(t, st, seq![open] + mid, seq![close]);
    lemma_parse_from_append(t, st, seq![open], mid);
    let s1 = parse_from(t, st, seq![open]);
    lemma_parse_from_one(t, st, open);
    assert(s1.depth == st.depth + 1);
    lemma_depth_kept(t, s1, mid);
    let s2 = parse_from(t, s1, mid);
    lemma_parse_from_one(t, s2, close);
}

/// Where the character span of an event starts (0 if it has none).
pub open spec fn piece_start(t: Seq<char>, ev: MdEvent) -> usize {
    match char_span(t, ev.start, ev.end) {
        Some((a, _)) => a,
        None => 0,
    }
}

/// Where the character span of an event ends (0 if it has none).
pub open spec fn piece_end(t: Seq<char>, ev: MdEvent) -> usize {
    match char_span(t, ev.start, ev.end) {
        Some((_, b)) => b,
        None => 0,
    }
}

proof fn lemma_inside_container_quiet(t: Seq<char>, st: ParseState, evs: Seq<MdEvent>)
    requires
        st.depth >= 1,
        st.pending is None,
        forall|i: int| 0 <= i < evs.len() ==> !container_event(#[trigger] evs[i]),
    ensures
        parse_from(t, st, evs).headings == st.headings,
        parse_from(t, st, evs).pending is None,
        parse_from(t, st, evs).depth == st.depth,
    decreases evs.len(),
{
    if evs.len() > 0 {
        assert forall|i: int| 0 <= i < evs.drop_last().len() implies !container_event(
            #[trigger] evs.drop_last()[i],
        ) by {
            assert(evs.drop_last()[i] == evs[i]);
        }
        lemma_inside_container_quiet(t, st, evs.drop_last());
        assert(!container_event(evs[evs.len() - 1]));
    }
}

/// Inside an open block quote, list item or footnote definition no heading
/// is recorded: whatever events follow the opening (short of another
/// container's), the headings found are those found before it, when no
/// heading was left open before it.
pub proof fn lemma_no_heading_inside_container(
    t: Seq<char>,
    pre: Seq<MdEvent>,
    open: MdEvent,
    mid: Seq<MdEvent>,
    tag: MdTag,
)
    requires
        is_container(tag),
        open.kind == MdEventKind::Start(tag),
        parse_all(t, pre).pending is None,
        forall|i: int| 0 <= i < mid.len() ==> !container_event(#[trigger] mid[i]),
    ensures
        parse_all(t, pre + seq![open] + mid).headings == parse_all(t, pre).headings,
        parse_all(t, pre + seq![open] + mid).depth == parse_all(t, pre).depth + 1,
{
    let st = parse_all(t, pre);
    lemma_parse_all_split(t, pre, seq![open] + mid);
    assert(pre + seq![open] + mid =~= pre + (seq![open] + mid));
    lemma_parse_from_append(t, st, seq![open], mid);
    lemma_parse_from_one(t, st, open);
    lemma_inside_container_quiet(t, parse_step(t, st, open), mid);
}

/// Text or inline code with a span of characters.
pub open spec fn heading_piece(t: Seq<char>, ev: MdEvent) -> bool {
    (ev.kind == MdEventKind::Text || ev.kind == MdEventKind::Code) && char_span(t, ev.start, ev.end) is Some
}

proof fn lemma_heading_pieces(t: Seq<char>, st: ParseState, mids: Seq<MdEvent>, start: usize, level: HeadingLevel)
    requires
        mids.len() > 0,
        st.pending == Some((start, level, None::<(usize, usize)>)),
        forall|i: int| 0 <= i < mids.len() ==> #[trigger] heading_piece(t, mids[i]),
    ensures
        parse_from(t, st, mids).pending == Some(
            (
                start,
                level,
                Some(
                    (
                        piece_start(t, mids[0]),
                        piece_end(t, mids.last()),
                    ),
                ),
            ),
        ),
        parse_from(t, st, mids).headings == st.headings,
        parse_from(t, st, mids).depth == st.depth,
    decreases mids.len(),
{
    assert(heading_piece(t, mids[mids.len() - 1]));
    if mids.len() > 1 {
        let p = mids.drop_last();
        assert forall|i: int| 0 <= i < p.len() implies #[trigger] heading_piece(t, p[i]) by {
            assert(p[i] == mids[i]);
            assert(heading_piece(t, mids[i]));
        }
        lemma_heading_pieces(t, st, p, start, level);
        assert(p[0] == mids[0]);
    } else {
        assert(heading_piece(t, mids[0]));
        assert(mids.drop_last() =~= Seq::<MdEvent>::empty());
    }
}

/// A heading outside every container records as its text the span from the
/// start of its first text or inline code piece to the end of its last one,
/// whatever came before it.
pub proof fn lemma_heading_text_spans_pieces(
    t: Seq<char>,
    pre: Seq<MdEvent>,
    open: MdEvent,
    mids: Seq<MdEvent>,
    close: MdEvent,
    level: HeadingLevel,
    end_level: HeadingLevel,
)
    requires
        parse_all(t, pre).depth == 0,
        open.kind == MdEventKind::Start(MdTag::Heading(level)),
        close.kind == MdEventKind::End(MdTag::Heading(end_level)),
        mids.len() > 0,
        forall|i: int| 0 <= i < mids.len() ==> #[trigger] heading_piece(t, mids[i]),
        piece_start(t, mids[0]) <= piece_end(t, mids.last()),
    ensures
        parse_all(t, pre + seq![open] + mids + seq![close]).headings == parse_all(t, pre).headings.push(
            (
                open.start,
                level,
                piece_start(t, mids[0]),
                piece_end(t, mids.last()),
            ),
        ),
{
    let st = parse_all(t, pre);
    lemma_parse_all_split(t, pre, seq![open] + mids + seq![close]);
    assert(pre + seq![open] + mids + seq![close] =~= pre + (seq![open] + mids + seq![close]));
    lemma_parse_from_append(t, st, seq![open] + mids, seq![close]);
    lemma_parse_from_append(t, st, seq![open], mids);
    let s1 = parse_from(t, st, seq![open]);
    lemma_parse_from_one(t, st, open);
    assert(s1.pending == Some((open.start, level, None::<(usize, usize)>)));
    lemma_heading_pieces(t, s1, mids, open.start, level);
    let s2 = parse_from(t, s1, mids);
    lemma_parse_from_one(t, s2, close);
}

/// A heading outside every container that holds no text records the empty
/// text, whatever came before it.
pub proof fn lemma_empty_heading_recorded(
    t: Seq<char>,
    pre: Seq<MdEvent>,
    open: MdEvent,
    close: MdEvent,
    level: HeadingLevel,
    end_level: HeadingLevel,
)
    requires
        parse_all(t, pre).depth == 0,
        open.kind == MdEventKind::Start(MdTag::Heading(level)),
        close.kind == MdEventKind::End(MdTag::Heading(end_level)),
    ensures
        parse_all(t, pre + seq![open, close]).headings == parse_all(t, pre).headings.push(
            (open.start, level, 0usize, 0usize),
        ),
{
    lemma_parse_all_split(t, pre, seq![open, close]);
    let st = parse_all(t, pre);
    lemma_parse_from_append(t, st, seq![open], seq![close]);
    assert(seq![open] + seq![close] =~= seq![open, close]);
    lemma_parse_from_one(t, st, open);
    lemma_parse_from_one(t, parse_step(t, st, open), close);
}

/// Inline code counts as heading text exactly as text does: reading a code
/// event as a text event over the same bytes changes nothing the walk
/// gathers.
pub proof fn lemma_code_reads_as_text(t: Seq<char>, evs: Seq<MdEvent>, i: int)
    requires
        0 <= i < evs.len(),
        evs[i].kind == MdEventKind::Code,
    ensures
        parse_all(t, evs) == parse_all(
            t,
            evs.update(i, MdEvent { kind: MdEventKind::Text, start: evs[i].start, end: evs[i].end }),
        ),
    decreases evs.len(),
{
    let ev2 = MdEvent { kind: MdEventKind::Text, start: evs[i].start, end: evs[i].end };
    let u = evs.update(i, ev2);
    if i < evs.len() - 1 {
        lemma_code_reads_as_text(t, evs.drop_last(), i);
        assert(u.drop_last() =~= evs.drop_last().update(i, ev2));
        assert(u.last() == evs.last());
    } else {
        assert(u.drop_last() =~= evs.drop_last());
        assert(u.last() == ev2);
    }
}

/// A range of a level in byte offsets of the source: `(level, start, end)`.
pub type ByteRange = (Element, usize, usize);

/// The levels that the events open, each with the event's byte range, in
/// event order.
pub open spec fn classified(evs: Seq<MdEvent>) -> Seq<ByteRange>
    decreases evs.len(),
{
    if evs.len() == 0 {
        Seq::empty()
    } else {
        match classify(evs.last().kind) {
            Some(level) => classified(evs.drop_last()).push((level, evs.last().start, evs.last().end)),
            None => classified(evs.drop_last()),
        }
    }
}

/// The byte ranges `rs` in character indices of `t`, in order, leaving out
/// those whose ends are not character boundaries or that are reversed.
pub open spec fn char_ranges(t: Seq<char>, rs: Seq<ByteRange>) -> Seq<LevelRange>
    decreases rs.len(),
{
    if rs.len() == 0 {
        Seq::empty()
    } else {
        match char_span(t, rs.last().1, rs.last().2) {
            Some((a, b)) => char_ranges(t, rs.drop_last()).push((rs.last().0, a, b)),
            None => char_ranges(t, rs.drop_last()),
        }
    }
}

/// The walk's element ranges are the classified byte ranges of the events,
/// taken to character indices.
pub proof fn lemma_char_ranges_of_events(t: Seq<char>, evs: Seq<MdEvent>)
    ensures
        char_ranges(t, classified(evs)) == parse_all(t, evs).elements,
    decreases evs.len(),
{
    if evs.len() > 0 {
        lemma_char_ranges_of_events(t, evs.drop_last());
        let prev = classified(evs.drop_last());
        let ev = evs.last();
        assert(parse_all(t, evs).elements == step_elements(t, parse_all(t, evs.drop_last()).elements, ev));
        if let Some(level) = classify(ev.kind) {
            assert(classified(evs).drop_last() =~= prev);
        }
    }
}

/// The levels that the events open, each with the event's byte range (see
/// [`classified`]).
pub fn classified_ranges(events: &Vec<MdEvent>) -> (ranges: Vec<ByteRange>)
    ensures
        ranges@ == classified(events@),
{
    let mut ranges: Vec<ByteRange> = Vec::new();
    let mut k: usize = 0;
    while k < events.len()
        invariant
            k <= events@.len(),
            ranges@ == classified(events@.take(k as int)),
        decreases events@.len() - k,
    {
        let ev = events[k];
        proof {
            assert(events@.take(k + 1).drop_last() =~= events@.take(k as int));
            assert(events@.take(k + 1).last() == ev);
        }
        match classify_event(ev.kind) {
            Some(level) => ranges.push((level, ev.start, ev.end)),
            None => {},
        }
        k = k + 1;
    }
    proof {
        assert(events@.take(k as int) =~= events@);
    }
    ranges
}

/// The byte ranges in character indices (see [`char_ranges`]).
pub fn to_char_ranges(text: &CharText, ranges: &Vec<ByteRange>) -> (out: Vec<LevelRange>)
    requires
        text.wf(),
    ensures
        out@ == char_ranges(text.chars(), ranges@),
        ranges_within(out@, text.chars().len() as int),
{
    let ghost t = text.chars();
    let mut out: Vec<LevelRange> = Vec::new();
    let mut k: usize = 0;
    proof {
        text.lemma_wf_bounds();
    }
    while k < ranges.len()
        invariant
            text.wf(),
            t == text.chars(),
            t.len() <= usize::MAX,
            k <= ranges@.len(),
            out@ == char_ranges(t, ranges@.take(k as int)),
            ranges_within(out@, t.len() as int),
        decreases ranges@.len() - k,
    {
        let r = ranges[k];
        proof {
            assert(ranges@.take(k + 1).drop_last() =~= ranges@.take(k as int));
            assert(ranges@.take(k + 1).last() == r);
            lemma_span_within(t, r.1, r.2);
        }
        match span_of(text, r.1, r.2) {
            Some((a, b)) => {
                out.push((r.0, a, b));
                proof {
                    assert forall|i: int| 0 <= i < out@.len() implies #[trigger] out@[i].1 <= out@[i].2
                        && out@[i].2 <= t.len() by {
                        if i < out@.len() - 1 {
                            assert(out@[i] == out@.drop_last()[i]);
                        }
                    }
                }
            },
            None => {},
        }
        k = k + 1;
    }
    proof {
        assert(ranges@.take(k as int) =~= ranges@);
    }
    out
}

/// The character range of byte range `start..end`, if it is one.
pub fn span_of(text: &CharText, start: usize, end: usize) -> (r: Option<(usize, usize)>)
    requires
        text.wf(),
    ensures
        r == char_span(text.chars(), start, end),
{
    let a = text.char_index_of_byte(start);
    let b = text.char_index_of_byte(end);
    proof {
        lemma_char_of_byte(text, start as int);
        lemma_char_of_byte(text, end as int);
    }
    match (a, b) {
        (Some(a), Some(b)) => if a <= b {
            Some((a, b))
        } else {
            None
        },
        _ => None,
    }
}

/// The character index of byte offset `b`, if `b` is a character boundary
/// of the text (see [`char_of_byte`]).
pub fn char_at_byte(text: &CharText, b: usize) -> (r: Option<usize>)
    requires
        text.wf(),
    ensures
        match r {
            Some(i) => char_of_byte(text.chars(), b as int) == Some(i as int) && i <= text.chars().len(),
            None => char_of_byte(text.chars(), b as int) is None,
        },
{
    let r = text.char_index_of_byte(b);
    proof {
        lemma_char_of_byte(text, b as int);
    }
    r
}

proof fn lemma_char_of_byte(text: &CharText, b: int)
    requires
        text.wf(),
    ensures
        char_of_byte(text.chars(), b) matches Some(i) ==> 0 <= i <= text.chars().len()
            && byte_offset(text.chars(), i) == b,
        forall|i: int|
            0 <= i <= text.chars().len() && byte_offset(text.chars(), i) == b ==> char_of_byte(
                text.chars(),
                b,
            ) == Some(i),
{
    let t = text.chars();
    assert forall|i: int| 0 <= i <= t.len() && byte_offset(t, i) == b implies char_of_byte(t, b)
        == Some(i) by {
        let j = choose|j: int| 0 <= j <= t.len() && byte_offset(t, j) == b;
        if j < i {
            crate::text::lemma_byte_offset_strict(t, j, i);
        } else if i < j {
            crate::text::lemma_byte_offset_strict(t, i, j);
        }
    }
}

proof fn lemma_span_within(t: Seq<char>, start: usize, end: usize)
    requires
        t.len() <= usize::MAX,
    ensures
        char_span(t, start, end) matches Some((a, b)) ==> a <= b <= t.len(),
{
}

/// Headings found by the walk, with their text taken from the source.
pub open spec fn headings_match<'a>(
    t: Seq<char>,
    found: Seq<HeadingRecord<'a>>,
    spans: Seq<HeadingSpan>,
) -> bool {
    &&& found.len() == spans.len()
    &&& forall|i: int|
        #![trigger found[i]]
        0 <= i < found.len() ==> {
            &&& found[i].0 == spans[i].0
            &&& found[i].1 == spans[i].1
            &&& spans[i].2 <= spans[i].3 <= t.len()
            &&& found[i].2@ == t.subrange(spans[i].2 as int, spans[i].3 as int)
        }
}

/// The headings found by the walk, each with its text taken from `t`.
pub open spec fn span_entries(t: Seq<char>, spans: Seq<HeadingSpan>) -> Seq<HeadingEntry> {
    spans.map_values(|h: HeadingSpan| (h.0, h.1, t.subrange(h.2 as int, h.3 as int)))
}

/// Headings that match their spans have the spans' texts.
pub proof fn lemma_headings_entries<'a>(
    t: Seq<char>,
    found: Seq<HeadingRecord<'a>>,
    spans: Seq<HeadingSpan>,
)
    requires
        headings_match(t, found, spans),
    ensures
        record_entries(found) == span_entries(t, spans),
{
    assert(record_entries(found) =~= span_entries(t, spans)) by {
        assert forall|i: int| 0 <= i < found.len() implies record_entries(found)[i] == span_entries(
            t,
            spans,
        )[i] by {
            assert(found[i] == found[i]);
        }
    }
}

/// Every pending or found heading range lies within `n` characters.
pub open spec fn state_within(st: ParseState, n: int) -> bool {
    &&& ranges_within(st.elements, n)
    &&& forall|i: int|
        0 <= i < st.headings.len() ==> #[trigger] st.headings[i].2 <= st.headings[i].3
            && st.headings[i].3 <= n
    &&& st.pending matches Some((_, _, Some((a, b)))) ==> a <= n && b <= n
}

proof fn lemma_step_within(t: Seq<char>, st: ParseState, ev: MdEvent)
    requires
        t.len() <= usize::MAX,
        state_within(st, t.len() as int),
    ensures
        state_within(parse_step(t, st, ev), t.len() as int),
{
    lemma_span_within(t, ev.start, ev.end);
    let n = t.len() as int;
    let next = parse_step(t, st, ev);
    assert(next.elements == step_elements(t, st.elements, ev));
    assert(ranges_within(next.elements, n)) by {
        assert forall|i: int| 0 <= i < next.elements.len() implies #[trigger] next.elements[i].1
            <= next.elements[i].2 && next.elements[i].2 <= n by {
            if i < st.elements.len() {
                assert(next.elements[i] == st.elements[i]);
            } else {
                let (a, b) = char_span(t, ev.start, ev.end)->0;
                assert(next.elements[i] == (classify(ev.kind)->0, a, b));
            }
        }
    }
    assert forall|i: int| 0 <= i < next.headings.len() implies #[trigger] next.headings[i].2
        <= next.headings[i].3 && next.headings[i].3 <= n by {
        if i < st.headings.len() {
            assert(next.headings[i] == st.headings[i]);
        }
    }
}

/// Every element range and heading range that the walk gathers lies within
/// the text.
pub proof fn lemma_parse_within(t: Seq<char>, evs: Seq<MdEvent>)
    requires
        t.len() <= usize::MAX,
    ensures
        state_within(parse_all(t, evs), t.len() as int),
    decreases evs.len(),
{
    if evs.len() > 0 {
        lemma_parse_within(t, evs.drop_last());
        lemma_step_within(t, parse_all(t, evs.drop_last()), evs.last());
    }
}

/// Walk the markdown events **once**, producing both the element ranges
/// needed to chunk (each classified event with its byte range, in event
/// order) and the headings needed for context. Heading text spans from the
/// first Text/Code event inside the heading to the last. Headings nested
/// inside block quotes, list items, or footnote definitions are skipped —
/// they don't define document structure. Text events whose byte range is
/// not a range of character boundaries of the text are not taken as heading
/// text.
pub fn parse_markdown<'a>(text: &CharText<'a>, events: &Vec<MdEvent>) -> (r: (
    Vec<ByteRange>,
    Vec<HeadingRecord<'a>>,
))
    requires
        text.wf(),
    ensures
        r.0@ == classified(events@),
        headings_match(text.chars(), r.1@, parse_all(text.chars(), events@).headings),
{
    let ghost t = text.chars();
    let mut elements: Vec<ByteRange> = Vec::new();
    let mut headings: Vec<HeadingRecord<'a>> = Vec::new();
    let mut depth: usize = 0;
    let mut pending: Option<PendingHeading> = None;
    let mut k: usize = 0;
    while k < events.len()
        invariant
            text.wf(),
            t == text.chars(),
            k <= events@.len(),
            depth <= k,
            elements@ == classified(events@.take(k as int)),
            headings_match(t, headings@, parse_all(t, events@.take(k as int)).headings),
            depth == parse_all(t, events@.take(k as int)).depth,
            pending == parse_all(t, events@.take(k as int)).pending,
            state_within(parse_all(t, events@.take(k as int)), t.len() as int),
        decreases events@.len() - k,
    {
        let ev = events[k];
        let ghost prev = parse_all(t, events@.take(k as int));
        let ghost old_headings = headings@;
        proof {
            assert(events@.take(k + 1).drop_last() =~= events@.take(k as int));
            assert(events@.take(k + 1).last() == ev);
        }
        let span = span_of(text, ev.start, ev.end);
        match classify_event(ev.kind) {
            Some(level) => elements.push((level, ev.start, ev.end)),
            None => {},
        }
        match ev.kind {
            MdEventKind::Start(tag) => {
                if tag == MdTag::BlockQuote || tag == MdTag::Item || tag
                    == MdTag::FootnoteDefinition {
                    depth = depth + 1;
                } else {
                    match tag {
                        MdTag::Heading(level) => {
                            if depth == 0 {
                                pending = Some((ev.start, level, None));
                            }
                        },
                        _ => {},
                    }
                }
            },
            MdEventKind::End(tag) => {
                if tag == MdTag::BlockQuote || tag == MdTag::Item || tag
                    == MdTag::FootnoteDefinition {
                    if depth > 0 {
                        depth = depth - 1;
                    }
                } else {
                    match tag {
                        MdTag::Heading(_) => {
                            match pending {
                                Some((start, level, inner)) => {
                                    let (a, b) = match inner {
                                        Some((a, b)) => if a <= b {
                                            (a, b)
                                        } else {
                                            (a, a)
                                        },
                                        None => (0, 0),
                                    };
                                    let piece = text.slice(a, b);
                                    headings.push((start, level, piece));
                                    pending = None;
                                    proof {
                                        let i = headings@.len() - 1;
                                        assert(headings@[i] == (start, level, piece));
                                        assert(headings@.len() == prev.headings.len() + 1);
                                    }
                                },
                                None => {},
                            }
                        },
                        _ => {},
                    }
                }
            },
            MdEventKind::Text | MdEventKind::Code => {
                match (pending, span) {
                    (Some((start, level, inner)), Some((a, b))) => {
                        let inner2 = match inner {
                            Some((s, _)) => Some((s, b)),
                            None => Some((a, b)),
                        };
                        pending = Some((start, level, inner2));
                    },
                    _ => {},
                }
            },
            _ => {},
        }
        k = k + 1;
        proof {
            let cur = parse_all(t, events@.take(k as int));
            assert(cur == parse_step(t, prev, ev));
            text.lemma_wf_bounds();
            lemma_span_within(t, ev.start, ev.end);
            lemma_step_within(t, prev, ev);
            assert(elements@ =~= classified(events@.take(k as int)));
            assert(headings@.len() == cur.headings.len());
            assert(headings_match(t, headings@, cur.headings)) by {
                assert forall|i: int| #![trigger headings@[i]] 0 <= i < headings@.len() implies {
                    &&& headings@[i].0 == cur.headings[i].0
                    &&& headings@[i].1 == cur.headings[i].1
                    &&& cur.headings[i].2 <= cur.headings[i].3 <= t.len()
                    &&& headings@[i].2@ == t.subrange(
                        cur.headings[i].2 as int,
                        cur.headings[i].3 as int,
                    )
                } by {
                    if i < prev.headings.len() {
                        assert(cur.headings[i] == prev.headings[i]);
                        assert(headings@[i] == old_headings[i]);
                        assert(old_headings[i].0 == prev.headings[i].0);
                    }
                }
            }
        }
    }
    proof {
        assert(events@.take(k as int) =~= events@);
    }
    (elements, headings)
}

} // verus!
