//! The semantic levels of a Markdown document and how a level's ranges cut
//! a text into sections.

use vstd::prelude::*;
use crate::heading::{HeadingLevel, level_depth};
use crate::text::{CharText, byte_offset, is_ws, is_whitespace};
use crate::markdown::{ByteRange, char_at_byte, char_of_byte, char_span, span_of};

verus! {

/// How a particular semantic level relates to surrounding text elements.
#[derive(Copy, Clone, Debug, Eq, PartialEq, Structural)]
pub enum SemanticSplitPosition {
    /// The semantic level should be treated as its own chunk.
    Own,
    /// The semantic level should be included in the next chunk.
    Next,
}

/// Different semantic levels that text can be split by.
/// Each level provides a method of splitting text into chunks of a given level
/// as well as a fallback in case a given fallback is too large.
#[derive(Clone, Copy, Debug, Eq, PartialEq, Structural, Ord, PartialOrd)]
pub enum Element {
    /// Single line break, which isn't necessarily a new element in Markdown
    SoftBreak,
    /// An inline element that is within a larger element such as a paragraph, but
    /// more specific than a sentence.
    Inline,
    /// Paragraph, code block, metadata, a row/item within a table or list, block quote, that can contain other "block" type elements, List or table that contains items
    Block,
    /// thematic break/horizontal rule
    Rule,
    /// Heading levels in markdown
    Heading(HeadingLevel),
}

/// The position of a level in the order of levels, from the smallest break
/// (`SoftBreak`) to the largest (`Heading(H1)`); the same order as the
/// declaration order of the variants.
pub open spec fn rank(e: Element) -> int {
    match e {
        Element::SoftBreak => 0,
        Element::Inline => 1,
        Element::Block => 2,
        Element::Rule => 3,
        Element::Heading(l) => 10 - level_depth(l),
    }
}

/// Where sections of a level are placed relative to their ranges.
pub open spec fn split_position_of(e: Element) -> SemanticSplitPosition {
    match e {
        Element::Heading(_) => SemanticSplitPosition::Next,
        _ => SemanticSplitPosition::Own,
    }
}

/// Whether white space before a range of the level joins the range.
pub open spec fn whitespace_joins(e: Element) -> bool {
    e == Element::Block
}

impl Element {
    /// The rank of the level in the order of levels (see [`rank`]).
    pub fn rank(self) -> (r: u8)
        ensures
            r == rank(self),
            r <= 9,
    {
        match self {
            Element::SoftBreak => 0,
            Element::Inline => 1,
            Element::Block => 2,
            Element::Rule => 3,
            Element::Heading(l) => (10 - l.depth()) as u8,
        }
    }

    /// Headings are attached to the text that follows them; every other
    /// level forms its own section.
    pub fn split_position(self) -> (p: SemanticSplitPosition)
        ensures
            p == split_position_of(self),
    {
        match self {
            Element::SoftBreak | Element::Block | Element::Rule | Element::Inline => {
                SemanticSplitPosition::Own
            },
            Element::Heading(_) => SemanticSplitPosition::Next,
        }
    }

    /// Only blocks take the white space that precedes them.
    pub fn treat_whitespace_as_previous(self) -> (b: bool)
        ensures
            b == whitespace_joins(self),
    {
        match self {
            Element::SoftBreak | Element::Inline | Element::Rule | Element::Heading(_) => false,
            Element::Block => true,
        }
    }
}

/// A range of a level: `(level, start, end)` in character indices.
pub type LevelRange = (Element, usize, usize);

/// Every character of `t[a..b]` is white space.
pub open spec fn all_ws(t: Seq<char>, a: int, b: int) -> bool {
    forall|i: int| a <= i < b ==> is_ws(#[trigger] t[i])
}

/// The piece `(a, b)` if it is not empty, else nothing.
pub open spec fn keep(a: usize, b: usize) -> Seq<(usize, usize)> {
    if a < b {
        seq![(a, b)]
    } else {
        Seq::empty()
    }
}

/// The non-empty sections that the ranges `rs` cut `t[cur..]` into: for a
/// range of a level of its own, the text before it and the range itself
/// (the two together when the level takes preceding white space and that
/// text is all white space); for a heading, the text before it, the heading
/// going with what follows. Ranges that start before the current position
/// are passed over; what is left after the last range is the last section.
pub open spec fn sections_from(t: Seq<char>, cur: usize, rs: Seq<LevelRange>) -> Seq<(usize, usize)>
    decreases rs.len(),
{
    if rs.len() == 0 {
        keep(cur, t.len() as usize)
    } else {
        let (l, s, e) = rs[0];
        if s < cur {
            sections_from(t, cur, rs.drop_first())
        } else if split_position_of(l) == SemanticSplitPosition::Next {
            keep(cur, s) + sections_from(t, s, rs.drop_first())
        } else if whitespace_joins(l) && all_ws(t, cur as int, s as int) {
            keep(cur, e) + sections_from(t, e, rs.drop_first())
        } else {
            keep(cur, s) + keep(s, e) + sections_from(t, e, rs.drop_first())
        }
    }
}

/// Every range lies within a text of `n` characters.
pub open spec fn ranges_within(rs: Seq<LevelRange>, n: int) -> bool {
    forall|i: int| 0 <= i < rs.len() ==> #[trigger] rs[i].1 <= rs[i].2 && rs[i].2 <= n
}

/// Whether `t[a..b]` is all white space.
pub fn all_whitespace(text: &CharText, a: usize, b: usize) -> (r: bool)
    requires
        text.wf(),
        a <= b <= text.chars().len(),
    ensures
        r == all_ws(text.chars(), a as int, b as int),
{
    let mut i = a;
    while i < b
        invariant
            text.wf(),
            a <= i <= b <= text.chars().len(),
            all_ws(text.chars(), a as int, i as int),
        decreases b - i,
    {
        if !is_whitespace(text.char_at(i)) {
            return false;
        }
        i = i + 1;
    }
    true
}

fn push_piece(out: &mut Vec<(usize, usize)>, a: usize, b: usize)
    ensures
        final(out)@ == old(out)@ + keep(a, b),
{
    if a < b {
        out.push((a, b));
    }
    proof {
        assert(final(out)@ =~= old(out)@ + keep(a, b));
    }
}

impl Element {
    /// Cut `text[base..]` into sections by the ranges `ranges`, in
    /// character indices, as [`sections_from`] says.
    pub fn char_sections(text: &CharText, base: usize, ranges: &Vec<LevelRange>) -> (pieces: Vec<
        (usize, usize),
    >)
        requires
            text.wf(),
            base <= text.chars().len(),
            ranges_within(ranges@, text.chars().len() as int),
        ensures
            pieces@ == sections_from(text.chars(), base, ranges@),
    {
        let ghost t = text.chars();
        let n = text.len();
        let mut out: Vec<(usize, usize)> = Vec::new();
        let mut cursor = base;
        let mut k: usize = 0;
        proof {
            assert(ranges@.skip(0) =~= ranges@);
        }
        while k < ranges.len()
            invariant
                text.wf(),
                t == text.chars(),
                n == t.len(),
                cursor <= n,
                k <= ranges@.len(),
                ranges_within(ranges@, n as int),
                out@ + sections_from(t, cursor, ranges@.skip(k as int)) == sections_from(
                    t,
                    base,
                    ranges@,
                ),
            decreases ranges@.len() - k,
        {
            let (level, start, end) = ranges[k];
            let ghost rest = ranges@.skip(k as int);
            proof {
                assert(rest[0] == ranges@[k as int]);
                assert(rest.drop_first() =~= ranges@.skip(k + 1));
                assert(ranges@[k as int].1 <= ranges@[k as int].2 <= n);
            }
            let ghost old_out = out@;
            let ghost old_cursor = cursor;
            if start < cursor {
            } else {
                match level.split_position() {
                    SemanticSplitPosition::Next => {
                        push_piece(&mut out, cursor, start);
                        cursor = start;
                    },
                    SemanticSplitPosition::Own => {
                        if level.treat_whitespace_as_previous() && all_whitespace(
                            text,
                            cursor,
                            start,
                        ) {
                            push_piece(&mut out, cursor, end);
                        } else {
                            push_piece(&mut out, cursor, start);
                            push_piece(&mut out, start, end);
                        }
                        cursor = end;
                    },
                }
            }
            proof {
                let r = sections_from(t, cursor, ranges@.skip(k + 1));
                assert(out@ + r =~= old_out + sections_from(t, old_cursor, rest));
            }
            k = k + 1;
        }
        proof {
            assert(ranges@.skip(k as int) =~= Seq::<LevelRange>::empty());
        }
        push_piece(&mut out, cursor, n);
        proof {
            assert(out@ =~= sections_from(t, base, ranges@));
        }
        out
    }
}

/// `pieces` cover `[a, b)` without gap or overlap, each piece non-empty.
pub open spec fn tiles(pieces: Seq<(usize, usize)>, a: int, b: int) -> bool {
    &&& pieces.len() == 0 ==> a == b
    &&& pieces.len() > 0 ==> pieces[0].0 == a && pieces.last().1 == b
    &&& forall|i: int| 0 <= i < pieces.len() ==> #[trigger] pieces[i].0 < pieces[i].1
    &&& forall|i: int|
        0 <= i < pieces.len() - 1 ==> #[trigger] pieces[i].1 == pieces[i + 1].0
}

/// Prepending a non-empty piece that ends where the tiling starts extends
/// the tiling.
pub proof fn lemma_tiles_prepend(ps: Seq<(usize, usize)>, a: usize, m: usize, b: int)
    requires
        tiles(ps, m as int, b),
        a <= m,
    ensures
        tiles(keep(a, m) + ps, a as int, b),
{
    let r = keep(a, m) + ps;
    if a < m {
        assert(r[0] == (a, m));
        assert forall|i: int| 0 <= i < r.len() - 1 implies #[trigger] r[i].1 == r[i + 1].0 by {
            if i > 0 {
                assert(r[i] == ps[i - 1]);
                assert(r[i + 1] == ps[i]);
            }
        }
        assert forall|i: int| 0 <= i < r.len() implies #[trigger] r[i].0 < r[i].1 by {
            if i > 0 {
                assert(r[i] == ps[i - 1]);
            }
        }
    } else {
        assert(r =~= ps);
    }
}

/// Pieces that tile `[a, b)` lie within `[a, b)`, in increasing order.
pub proof fn lemma_tiles_bounds(ps: Seq<(usize, usize)>, a: int, b: int)
    requires
        tiles(ps, a, b),
    ensures
        a <= b,
        forall|i: int| 0 <= i < ps.len() ==> a <= #[trigger] ps[i].0 && ps[i].0 < ps[i].1 && ps[i].1 <= b,
        forall|i: int, j: int| 0 <= i < j < ps.len() ==> #[trigger] ps[i].1 <= #[trigger] ps[j].0,
    decreases ps.len(),
{
    if ps.len() > 0 {
        let rest = ps.drop_first();
        assert(tiles(rest, ps[0].1 as int, b)) by {
            if rest.len() > 0 {
                assert(rest[0] == ps[1]);
                assert(rest.last() == ps.last());
            }
            assert forall|i: int| 0 <= i < rest.len() - 1 implies #[trigger] rest[i].1 == rest[i + 1].0 by {
                assert(rest[i] == ps[i + 1]);
                assert(rest[i + 1] == ps[i + 2]);
            }
            assert forall|i: int| 0 <= i < rest.len() implies #[trigger] rest[i].0 < rest[i].1 by {
                assert(rest[i] == ps[i + 1]);
            }
        }
        lemma_tiles_bounds(rest, ps[0].1 as int, b);
        assert forall|i: int| 0 <= i < ps.len() implies a <= #[trigger] ps[i].0 && ps[i].0 < ps[i].1
            && ps[i].1 <= b by {
            if i > 0 {
                assert(ps[i] == rest[i - 1]);
            }
        }
        assert forall|i: int, j: int| 0 <= i < j < ps.len() implies #[trigger] ps[i].1 <= #[trigger] ps[j].0 by {
            assert(ps[j] == rest[j - 1]);
            if i > 0 {
                assert(ps[i] == rest[i - 1]);
            } else if j > 1 {
                assert(rest[0] == ps[1]);
                assert(ps[0].1 == ps[1].0);
            }
        }
    }
}

/// The texts of the pieces, in order.
pub open spec fn piece_texts(t: Seq<char>, ps: Seq<(usize, usize)>) -> Seq<Seq<char>> {
    ps.map_values(|p: (usize, usize)| t.subrange(p.0 as int, p.1 as int))
}

/// Pieces that tile `[a, b)` of `t` put together give back `t[a..b]`.
pub proof fn lemma_tiles_concat(t: Seq<char>, ps: Seq<(usize, usize)>, a: int, b: int)
    requires
        tiles(ps, a, b),
        0 <= a,
        b <= t.len(),
    ensures
        crate::segment::concat(piece_texts(t, ps)) == t.subrange(a, b),
    decreases ps.len(),
{
    lemma_tiles_bounds(ps, a, b);
    if ps.len() == 0 {
        assert(t.subrange(a, b) =~= Seq::<char>::empty());
    } else {
        let p = ps.drop_last();
        let m = ps.last().0 as int;
        assert(tiles(p, a, m)) by {
            if p.len() > 0 {
                assert(p.last() == ps[ps.len() - 2]);
                assert(ps[ps.len() - 2].1 == ps[ps.len() - 1].0);
            }
            assert forall|i: int| 0 <= i < p.len() - 1 implies #[trigger] p[i].1 == p[i + 1].0 by {
                assert(p[i] == ps[i]);
                assert(p[i + 1] == ps[i + 1]);
            }
            assert forall|i: int| 0 <= i < p.len() implies #[trigger] p[i].0 < p[i].1 by {
                assert(p[i] == ps[i]);
            }
        }
        lemma_tiles_concat(t, p, a, m);
        assert(piece_texts(t, ps).drop_last() =~= piece_texts(t, p));
        assert(piece_texts(t, ps).last() == t.subrange(m, b));
        assert(t.subrange(a, m) + t.subrange(m, b) =~= t.subrange(a, b));
    }
}

/// The sections of a text tile the text from the starting position to its
/// end: every character from there on is in exactly one section, in order,
/// and no section is empty.
pub proof fn lemma_sections_tile(t: Seq<char>, cur: usize, rs: Seq<LevelRange>)
    requires
        cur <= t.len() <= usize::MAX,
        ranges_within(rs, t.len() as int),
    ensures
        tiles(sections_from(t, cur, rs), cur as int, t.len() as int),
    decreases rs.len(),
{
    let n = t.len() as usize;
    if rs.len() == 0 {
        lemma_tiles_prepend(Seq::empty(), cur, n, t.len() as int);
        assert(keep(cur, n) + Seq::<(usize, usize)>::empty() =~= keep(cur, n));
    } else {
        let (l, s, e) = rs[0];
        let rest = rs.drop_first();
        assert(ranges_within(rest, t.len() as int)) by {
            assert forall|i: int| 0 <= i < rest.len() implies #[trigger] rest[i].1 <= rest[i].2
                && rest[i].2 <= t.len() by {
                assert(rest[i] == rs[i + 1]);
            }
        }
        assert(rs[0].1 <= rs[0].2 <= t.len());
        if s < cur {
            lemma_sections_tile(t, cur, rest);
        } else if split_position_of(l) == SemanticSplitPosition::Next {
            lemma_sections_tile(t, s, rest);
            lemma_tiles_prepend(sections_from(t, s, rest), cur, s, t.len() as int);
        } else if whitespace_joins(l) && all_ws(t, cur as int, s as int) {
            lemma_sections_tile(t, e, rest);
            lemma_tiles_prepend(sections_from(t, e, rest), cur, e, t.len() as int);
        } else {
            lemma_sections_tile(t, e, rest);
            lemma_tiles_prepend(sections_from(t, e, rest), s, e, t.len() as int);
            lemma_tiles_prepend(keep(s, e) + sections_from(t, e, rest), cur, s, t.len() as int);
            assert(keep(cur, s) + keep(s, e) + sections_from(t, e, rest) =~= keep(cur, s) + (keep(
                s,
                e,
            ) + sections_from(t, e, rest)));
        }
    }
}

/// A byte range as the section walk reads it, in character indices: a
/// range of character boundaries as it is; a heading, which only its start
/// places, by its start alone; any other range is never read by a walk that
/// is valid (see [`reads_valid`]) and is left out.
pub open spec fn read_range(t: Seq<char>, r: ByteRange) -> Option<LevelRange> {
    match char_span(t, r.1, r.2) {
        Some((a, b)) => Some((r.0, a, b)),
        None => if split_position_of(r.0) == SemanticSplitPosition::Next {
            match char_of_byte(t, r.1 as int) {
                Some(a) => Some((r.0, a as usize, a as usize)),
                None => None,
            }
        } else {
            None
        },
    }
}

/// The byte ranges `rs` as the section walk reads them, in order.
pub open spec fn read_ranges(t: Seq<char>, rs: Seq<ByteRange>) -> Seq<LevelRange>
    decreases rs.len(),
{
    if rs.len() == 0 {
        Seq::empty()
    } else {
        match read_range(t, rs.last()) {
            Some(r) => read_ranges(t, rs.drop_last()).push(r),
            None => read_ranges(t, rs.drop_last()),
        }
    }
}

/// Every range that the section walk reads, from byte position `cur` on,
/// is one it can read: a range that starts before the position is passed
/// over; a heading needs its start on a character boundary; any other range
/// needs both ends on character boundaries, the start not after the end.
pub open spec fn reads_valid(t: Seq<char>, cur: usize, rs: Seq<ByteRange>) -> bool
    decreases rs.len(),
{
    if rs.len() == 0 {
        true
    } else {
        let (l, s, e) = rs[0];
        if s < cur {
            reads_valid(t, cur, rs.drop_first())
        } else if split_position_of(l) == SemanticSplitPosition::Next {
            char_of_byte(t, s as int) is Some && reads_valid(t, s, rs.drop_first())
        } else {
            char_of_byte(t, s as int) is Some && char_of_byte(t, e as int) is Some && s <= e
                && reads_valid(t, e, rs.drop_first())
        }
    }
}

/// The sections, in character indices, that the byte ranges `rs` cut the
/// whole of `t` into.
pub open spec fn text_sections(t: Seq<char>, rs: Seq<ByteRange>) -> Seq<(usize, usize)> {
    sections_from(t, 0, read_ranges(t, rs))
}

/// The byte ranges as the section walk reads them (see [`read_ranges`]).
pub fn to_read_ranges(text: &CharText, ranges: &Vec<ByteRange>) -> (out: Vec<LevelRange>)
    requires
        text.wf(),
    ensures
        out@ == read_ranges(text.chars(), ranges@),
        ranges_within(out@, text.chars().len() as int),
{
    let ghost t = text.chars();
    let mut out: Vec<LevelRange> = Vec::new();
    let mut k: usize = 0;
    proof {
        text.lemma_wf_bounds();
    }
    while k < ranges.len()
        invariant
            text.wf(),
            t == text.chars(),
            t.len() <= usize::MAX,
            k <= ranges@.len(),
            out@ == read_ranges(t, ranges@.take(k as int)),
            ranges_within(out@, t.len() as int),
        decreases ranges@.len() - k,
    {
        let r = ranges[k];
        proof {
            assert(ranges@.take(k + 1).drop_last() =~= ranges@.take(k as int));
            assert(ranges@.take(k + 1).last() == r);
        }
        let ghost before = out@;
        let read: Option<LevelRange> = match span_of(text, r.1, r.2) {
            Some((a, b)) => Some((r.0, a, b)),
            None => match r.0.split_position() {
                SemanticSplitPosition::Next => match char_at_byte(text, r.1) {
                    Some(a) => Some((r.0, a, a)),
                    None => None,
                },
                SemanticSplitPosition::Own => None,
            },
        };
        proof {
            assert(read == read_range(t, r));
        }
        match read {
            Some(x) => {
                out.push(x);
            },
            None => {},
        }
        proof {
            assert forall|i: int| 0 <= i < out@.len() implies #[trigger] out@[i].1 <= out@[i].2
                && out@[i].2 <= t.len() by {
                if i < before.len() {
                    assert(out@[i] == before[i]);
                }
            }
        }
        k = k + 1;
    }
    proof {
        assert(ranges@.take(k as int) =~= ranges@);
    }
    out
}

impl Element {
    /// Cut `text` into sections by the byte ranges `ranges` (see
    /// [`sections_from`]), each section with its byte offset. Every range
    /// that the walk reads must be readable (see [`reads_valid`]).
    pub fn sections<'a>(text: &'a str, ranges: &Vec<ByteRange>) -> (pieces: Vec<(usize, &'a str)>)
        requires
            reads_valid(text@, 0, ranges@),
        ensures
            pieces@.len() == text_sections(text@, ranges@).len(),
            forall|k: int|
                #![trigger pieces@[k]]
                0 <= k < pieces@.len() ==> {
                    &&& pieces@[k].0 == byte_offset(text@, text_sections(text@, ranges@)[k].0 as int)
                    &&& pieces@[k].1@ == text@.subrange(
                        text_sections(text@, ranges@)[k].0 as int,
                        text_sections(text@, ranges@)[k].1 as int,
                    )
                },
    {
        let ct = CharText::new(text);
        let crs = to_read_ranges(&ct, ranges);
        let secs = Element::char_sections(&ct, 0, &crs);
        let ghost t = text@;
        let ghost ps = secs@;
        proof {
            ct.lemma_wf_bounds();
            lemma_sections_tile(t, 0, crs@);
            lemma_tiles_bounds(ps, 0, t.len() as int);
        }
        let mut out: Vec<(usize, &'a str)> = Vec::new();
        let mut k: usize = 0;
        while k < secs.len()
            invariant
                ct.wf(),
                ct.chars() == t,
                ps == secs@,
                ps == text_sections(t, ranges@),
                forall|i: int| 0 <= i < ps.len() ==> 0 <= #[trigger] ps[i].0 && ps[i].0 < ps[i].1 && ps[i].1 <= t.len(),
                k <= ps.len(),
                out@.len() == k,
                forall|i: int|
                    #![trigger out@[i]]
                    0 <= i < k ==> {
                        &&& out@[i].0 == byte_offset(t, ps[i].0 as int)
                        &&& out@[i].1@ == t.subrange(ps[i].0 as int, ps[i].1 as int)
                    },
            decreases ps.len() - k,
        {
            let (a, b) = secs[k];
            proof {
                assert(ps[k as int] == (a, b));
            }
            out.push((ct.byte_pos(a), ct.slice(a, b)));
            k = k + 1;
        }
        out
    }
}

/// `x` is the start or the end of one of the ranges `rs`.
pub open spec fn range_bound(rs: Seq<LevelRange>, x: usize) -> bool {
    exists|j: int| 0 <= j < rs.len() && (#[trigger] rs[j].1 == x || rs[j].2 == x)
}

/// The first section starts at the current position or at a bound of a
/// range; every later section starts at the start or the end of a range.
pub proof fn lemma_sections_start_at_bounds(t: Seq<char>, cur: usize, rs: Seq<LevelRange>)
    ensures
        forall|k: int|
            0 <= k < sections_from(t, cur, rs).len() ==> (k == 0 && (#[trigger] sections_from(
                t,
                cur,
                rs,
            )[k]).0 == cur) || range_bound(rs, sections_from(t, cur, rs)[k].0),
    decreases rs.len(),
{
    if rs.len() == 0 {
        let all = sections_from(t, cur, rs);
        assert forall|k: int| 0 <= k < all.len() implies (k == 0 && (#[trigger] all[k]).0
            == cur) || range_bound(rs, all[k].0) by {
            assert(all[k] == (cur, t.len() as usize));
        }
    } else {
        let (l, s, e) = rs[0];
        let rest = rs.drop_first();
        let all = sections_from(t, cur, rs);
        assert forall|x: usize| range_bound(rest, x) implies range_bound(rs, x) by {
            let j = choose|j: int| 0 <= j < rest.len() && (#[trigger] rest[j].1 == x || rest[j].2 == x);
            assert(rs[j + 1] == rest[j]);
        }
        assert(range_bound(rs, s) && range_bound(rs, e)) by {
            assert(rs[0].1 == s && rs[0].2 == e);
        }
        if s < cur {
            lemma_sections_start_at_bounds(t, cur, rest);
            let tail = sections_from(t, cur, rest);
            assert(all == tail);
            assert forall|k: int| 0 <= k < all.len() implies (k == 0 && (#[trigger] all[k]).0
                == cur) || range_bound(rs, all[k].0) by {
                assert(all[k] == tail[k]);
            }
        } else {
            let next = if split_position_of(l) == SemanticSplitPosition::Next {
                s
            } else {
                e
            };
            lemma_sections_start_at_bounds(t, next, rest);
            let tail = sections_from(t, next, rest);
            let prefix = if split_position_of(l) == SemanticSplitPosition::Next {
                keep(cur, s)
            } else if whitespace_joins(l) && all_ws(t, cur as int, s as int) {
                keep(cur, e)
            } else {
                keep(cur, s) + keep(s, e)
            };
            assert(all == prefix + tail);
            assert forall|k: int| 0 <= k < all.len() implies (k == 0 && (#[trigger] all[k]).0
                == cur) || range_bound(rs, all[k].0) by {
                if k >= prefix.len() {
                    assert(all[k] == tail[k - prefix.len()]);
                    if k - prefix.len() == 0 && tail[0].0 == next {
                        assert(range_bound(rs, next));
                    }
                } else {
                    assert(all[k] == prefix[k]);
                    if k > 0 || prefix[k].0 != cur {
                        assert(prefix[k] == (s, e));
                    }
                }
            }
        }
    }
}

} // verus!
