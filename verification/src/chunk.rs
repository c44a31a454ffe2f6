//! Greedy chunking: from the current position, find the largest semantic
//! level whose first section still fits, then take as many of that level's
//! sections as fit into one chunk.

use vstd::prelude::*;
use crate::element::{Element, LevelRange, rank, keep, ranges_within, sections_from, tiles, lemma_sections_tile, lemma_tiles_bounds};
use crate::ranges::{level_ranges, level_present, level_of_rank, level_ranges_after, levels_present, level_with_rank, lemma_level_ranges_within, lemma_rank_roundtrip};
use crate::segment::{FallbackLevel, fallback_at, fallback_sections, fallback_pieces};
use crate::text::CharText;
use crate::trim::{chunk_size, is_trimmed, trim_range, size_of_chunk, trim_bounds};

verus! {

/// The chunk `t[c..e]` fits into `max` characters.
pub open spec fn fits(t: Seq<char>, trim: bool, max: usize, c: usize, e: usize) -> bool {
    chunk_size(t, trim, c as int, e as int) <= max
}

/// The end of the first section that `level` cuts `t[c..]` into.
pub open spec fn first_end(t: Seq<char>, rs: Seq<LevelRange>, c: usize, level: Element) -> Option<
    usize,
> {
    let secs = sections_from(t, c, level_ranges(rs, c, level));
    if secs.len() > 0 {
        Some(secs[0].1)
    } else {
        None
    }
}

/// The levels of rank below `k` that have a range at or after `c`, each
/// with the end of its first section, smallest level first.
pub open spec fn candidates(t: Seq<char>, rs: Seq<LevelRange>, c: usize, k: int) -> Seq<
    (Element, usize),
>
    decreases k,
{
    if k <= 0 {
        Seq::empty()
    } else {
        let prev = candidates(t, rs, c, k - 1);
        let level = level_of_rank(k - 1);
        if level_present(rs, c, level) {
            match first_end(t, rs, c, level) {
                Some(e) => prev.push((level, e)),
                None => prev,
            }
        } else {
            prev
        }
    }
}

/// Merging runs of candidates: a candidate is dropped when the next larger
/// level's first section is not longer (the larger level is as good).
pub open spec fn coalesce_fold(xs: Seq<(Element, usize)>) -> (Seq<(Element, usize)>, Option<
    (Element, usize),
>)
    decreases xs.len(),
{
    if xs.len() == 0 {
        (Seq::empty(), None)
    } else {
        let (out, acc) = coalesce_fold(xs.drop_last());
        let x = xs.last();
        match acc {
            None => (out, Some(x)),
            Some(a) => if a.1 >= x.1 {
                (out, Some(x))
            } else {
                (out.push(a), Some(x))
            },
        }
    }
}

/// The candidates after merging (see [`coalesce_fold`]).
pub open spec fn coalesce(xs: Seq<(Element, usize)>) -> Seq<(Element, usize)> {
    match coalesce_fold(xs).1 {
        Some(a) => coalesce_fold(xs).0.push(a),
        None => coalesce_fold(xs).0,
    }
}

/// Going up the candidates, the last level whose first section fits, and
/// the end of the first section that does not fit, if one does not.
pub open spec fn pick_level(
    t: Seq<char>,
    trim: bool,
    max: usize,
    c: usize,
    xs: Seq<(Element, usize)>,
    cur: Option<Element>,
) -> (Option<Element>, Option<usize>)
    decreases xs.len(),
{
    if xs.len() == 0 {
        (cur, None)
    } else if !fits(t, trim, max, c, xs[0].1) {
        (cur, Some(xs[0].1))
    } else {
        pick_level(t, trim, max, c, xs.drop_first(), Some(xs[0].0))
    }
}

/// The Markdown level to split `t[c..]` by, if one has a first section
/// that fits, and the limit that a larger level sets.
pub open spec fn markdown_choice(t: Seq<char>, rs: Seq<LevelRange>, trim: bool, max: usize, c: usize) -> (
    Option<Element>,
    Option<usize>,
) {
    pick_level(t, trim, max, c, coalesce(candidates(t, rs, c, 10)), None)
}


/// The sections that `level` cuts `t[c..]` into tile `t[c..]`.
pub proof fn lemma_level_sections_tile(t: Seq<char>, rs: Seq<LevelRange>, c: usize, level: Element)
    requires
        c <= t.len() <= usize::MAX,
        ranges_within(rs, t.len() as int),
    ensures
        tiles(sections_from(t, c, level_ranges(rs, c, level)), c as int, t.len() as int),
        first_end(t, rs, c, level) matches Some(e) ==> c < e <= t.len(),
        c < t.len() ==> first_end(t, rs, c, level) is Some,
{
    lemma_level_ranges_within(rs, c, level, t.len() as int);
    lemma_sections_tile(t, c, level_ranges(rs, c, level));
    lemma_tiles_bounds(sections_from(t, c, level_ranges(rs, c, level)), c as int, t.len() as int);
}

/// Whether `text[c..e]` fits into `max` characters.
pub fn chunk_fits(text: &CharText, trim: bool, max: usize, c: usize, e: usize) -> (b: bool)
    requires
        text.wf(),
        c <= e <= text.chars().len(),
    ensures
        b == fits(text.chars(), trim, max, c, e),
{
    size_of_chunk(text, trim, c, e) <= max
}

fn first_section_end(text: &CharText, rs: &Vec<LevelRange>, c: usize, level: Element) -> (r: Option<
    usize,
>)
    requires
        text.wf(),
        c <= text.chars().len(),
        ranges_within(rs@, text.chars().len() as int),
    ensures
        r == first_end(text.chars(), rs@, c, level),
{
    let lr = level_ranges_after(rs, c, level);
    proof {
        lemma_level_ranges_within(rs@, c, level, text.chars().len() as int);
    }
    let secs = Element::char_sections(text, c, &lr);
    if secs.len() > 0 {
        Some(secs[0].1)
    } else {
        None
    }
}

/// Choose the Markdown level to split `text[c..]` by (see
/// [`markdown_choice`]).
pub fn choose_markdown_level(
    text: &CharText,
    rs: &Vec<LevelRange>,
    trim: bool,
    max: usize,
    c: usize,
) -> (r: (Option<Element>, Option<usize>))
    requires
        text.wf(),
        c <= text.chars().len(),
        ranges_within(rs@, text.chars().len() as int),
    ensures
        r == markdown_choice(text.chars(), rs@, trim, max, c),
{
    let ghost t = text.chars();
    proof {
        text.lemma_wf_bounds();
    }
    let present = levels_present(rs, c);
    let mut cands: Vec<(Element, usize)> = Vec::new();
    let mut k: u8 = 0;
    while k < 10
        invariant
            text.wf(),
            t == text.chars(),
            c <= t.len() <= usize::MAX,
            ranges_within(rs@, t.len() as int),
            k <= 10,
            present@.len() == 10,
            forall|j: int|
                0 <= j < 10 ==> #[trigger] present@[j] == level_present(rs@, c, level_of_rank(j)),
            cands@ == candidates(t, rs@, c, k as int),
            forall|j: int| 0 <= j < cands@.len() ==> c < #[trigger] cands@[j].1 <= t.len(),
        decreases 10 - k,
    {
        if present[k as usize] {
            let level = level_with_rank(k);
            proof {
                lemma_level_sections_tile(t, rs@, c, level);
            }
            match first_section_end(text, rs, c, level) {
                Some(e) => {
                    cands.push((level, e));
                },
                None => {},
            }
        }
        k = k + 1;
    }
    let mut out: Vec<(Element, usize)> = Vec::new();
    let mut acc: Option<(Element, usize)> = None;
    let mut i: usize = 0;
    while i < cands.len()
        invariant
            i <= cands@.len(),
            (out@, acc) == coalesce_fold(cands@.take(i as int)),
            forall|j: int| 0 <= j < cands@.len() ==> c < #[trigger] cands@[j].1 <= t.len(),
            forall|j: int| 0 <= j < out@.len() ==> c < #[trigger] out@[j].1 <= t.len(),
            acc matches Some(a) ==> c < a.1 <= t.len(),
        decreases cands@.len() - i,
    {
        let x = cands[i];
        proof {
            assert(cands@.take(i + 1).drop_last() =~= cands@.take(i as int));
            assert(cands@.take(i + 1).last() == x);
        }
        match acc {
            None => {
                acc = Some(x);
            },
            Some(a) => {
                if a.1 >= x.1 {
                    acc = Some(x);
                } else {
                    out.push(a);
                    acc = Some(x);
                }
            },
        }
        i = i + 1;
    }
    proof {
        assert(cands@.take(i as int) =~= cands@);
    }
    match acc {
        Some(a) => {
            out.push(a);
        },
        None => {},
    }
    let ghost xs = out@;
    let mut cur: Option<Element> = None;
    let mut j: usize = 0;
    proof {
        assert(xs.skip(0) =~= xs);
    }
    while j < out.len()
        invariant
            text.wf(),
            t == text.chars(),
            out@ == xs,
            xs == coalesce(candidates(t, rs@, c, 10)),
            j <= xs.len(),
            forall|q: int| 0 <= q < xs.len() ==> c < #[trigger] xs[q].1 <= t.len(),
            pick_level(t, trim, max, c, xs, None) == pick_level(t, trim, max, c, xs.skip(j as int), cur),
        decreases xs.len() - j,
    {
        let (level, e) = out[j];
        proof {
            assert(xs.skip(j as int)[0] == xs[j as int]);
            assert(xs.skip(j as int).drop_first() =~= xs.skip(j + 1));
        }
        if !chunk_fits(text, trim, max, c, e) {
            return (cur, Some(e));
        }
        cur = Some(level);
        j = j + 1;
    }
    proof {
        assert(xs.skip(j as int) =~= Seq::<(Element, usize)>::empty());
    }
    (cur, None)
}


/// The end of the first section that fallback level number `k` cuts
/// `t[c..]` into.
pub open spec fn fallback_first_end(t: Seq<char>, c: usize, k: int) -> Option<usize> {
    let ps = fallback_sections(fallback_at(k), t, c);
    if ps.len() > 0 {
        Some(ps[0].1)
    } else {
        None
    }
}

/// Going up the fallback levels from number `k`, the last one whose first
/// section fits (`cur` if none does), and the end of the first section
/// that does not fit, if one does not.
pub open spec fn pick_fallback(t: Seq<char>, trim: bool, max: usize, c: usize, k: int, cur: int) -> (
    int,
    Option<usize>,
)
    decreases 4 - k,
{
    if k >= 4 {
        (cur, None)
    } else {
        match fallback_first_end(t, c, k) {
            Some(e) => if !fits(t, trim, max, c, e) {
                (cur, Some(e))
            } else {
                pick_fallback(t, trim, max, c, k + 1, k)
            },
            None => pick_fallback(t, trim, max, c, k + 1, k),
        }
    }
}

/// The smaller of two limits, where there are two.
pub open spec fn combine_limits(a: Option<usize>, b: Option<usize>) -> Option<usize> {
    match (a, b) {
        (Some(x), Some(y)) => Some(if x <= y { x } else { y }),
        (Some(x), None) => Some(x),
        (None, y) => y,
    }
}

/// The sections, with the limit, that `t[c..]` is chunked by: those of the
/// chosen Markdown level, else those of the chosen fallback level.
pub open spec fn chosen_sections(t: Seq<char>, rs: Seq<LevelRange>, trim: bool, max: usize, c: usize) -> (
    Seq<(usize, usize)>,
    Option<usize>,
) {
    let (level, limit) = markdown_choice(t, rs, trim, max, c);
    match level {
        Some(l) => (sections_from(t, c, level_ranges(rs, c, l)), limit),
        None => {
            let (k, fallback_limit) = pick_fallback(t, trim, max, c, 0, 0);
            (fallback_sections(fallback_at(k), t, c), combine_limits(fallback_limit, limit))
        },
    }
}

/// The leading sections that start no later than the limit.
pub open spec fn limit_sections(ps: Seq<(usize, usize)>, limit: Option<usize>) -> Seq<(usize, usize)>
    decreases ps.len(),
{
    if ps.len() == 0 {
        ps
    } else {
        match limit {
            Some(m) => if ps[0].0 > m {
                Seq::empty()
            } else {
                seq![ps[0]] + limit_sections(ps.drop_first(), limit)
            },
            None => seq![ps[0]] + limit_sections(ps.drop_first(), limit),
        }
    }
}

/// The end of the last section of the longest run of leading sections with
/// which the chunk from `c` still fits.
pub open spec fn last_fit(t: Seq<char>, trim: bool, max: usize, c: usize, ps: Seq<(usize, usize)>) -> Option<
    usize,
>
    decreases ps.len(),
{
    if ps.len() == 0 {
        None
    } else if !fits(t, trim, max, c, ps[0].1) {
        None
    } else {
        match last_fit(t, trim, max, c, ps.drop_first()) {
            Some(e) => Some(e),
            None => Some(ps[0].1),
        }
    }
}

/// Where the chunk that starts at `c` ends: after as many sections as fit,
/// at least one.
pub open spec fn next_end(t: Seq<char>, rs: Seq<LevelRange>, trim: bool, max: usize, c: usize) -> usize {
    let (ps, limit) = chosen_sections(t, rs, trim, max, c);
    let qs = limit_sections(ps, limit);
    match last_fit(t, trim, max, c, qs) {
        Some(e) => e,
        None => if qs.len() > 0 {
            qs[0].1
        } else {
            c
        },
    }
}

/// The part of `t[c..e]` that is emitted: trimmed when `trim` is set.
pub open spec fn emitted(t: Seq<char>, trim: bool, c: usize, e: usize) -> (usize, usize) {
    if trim {
        (trim_range(t, c as int, e as int).0 as usize, trim_range(t, c as int, e as int).1 as usize)
    } else {
        (c, e)
    }
}

/// The chunks of `t` from position `c` on, each as a character range.
pub open spec fn chunks_from(t: Seq<char>, rs: Seq<LevelRange>, trim: bool, max: usize, c: usize) -> Seq<
    (usize, usize),
>
    decreases t.len() - c,
{
    if c >= t.len() {
        Seq::empty()
    } else {
        let e = next_end(t, rs, trim, max, c);
        if e <= c || e > t.len() {
            Seq::empty()
        } else {
            let (a, b) = emitted(t, trim, c, e);
            keep(a, b) + chunks_from(t, rs, trim, max, e)
        }
    }
}

/// Choose the fallback level to split `text[c..]` by (see
/// [`pick_fallback`]).
pub fn choose_fallback_level(text: &CharText, trim: bool, max: usize, c: usize) -> (r: (
    FallbackLevel,
    Option<usize>,
))
    requires
        text.wf(),
        c <= text.chars().len(),
    ensures
        r.0 == fallback_at(pick_fallback(text.chars(), trim, max, c, 0, 0).0),
        r.1 == pick_fallback(text.chars(), trim, max, c, 0, 0).1,
{
    let ghost t = text.chars();
    let levels = [
        FallbackLevel::Char,
        FallbackLevel::GraphemeCluster,
        FallbackLevel::Word,
        FallbackLevel::Sentence,
    ];
    let mut cur: usize = 0;
    let mut k: usize = 0;
    while k < 4
        invariant
            text.wf(),
            t == text.chars(),
            c <= t.len(),
            k <= 4,
            cur < 4,
            levels@ == seq![
                FallbackLevel::Char,
                FallbackLevel::GraphemeCluster,
                FallbackLevel::Word,
                FallbackLevel::Sentence,
            ],
            pick_fallback(t, trim, max, c, 0, 0) == pick_fallback(t, trim, max, c, k as int, cur as int),
        decreases 4 - k,
    {
        let level = levels[k];
        let ps = fallback_pieces(text, c, level);
        proof {
            assert(level == fallback_at(k as int));
            assert(fallback_first_end(t, c, k as int) == (if ps@.len() > 0 {
                Some(ps@[0].1)
            } else {
                None
            }));
        }
        if ps.len() > 0 {
            let e = ps[0].1;
            assert(c < e <= t.len()) by {
                text.lemma_wf_bounds();
                crate::segment::lemma_fallback_sections_tile(t, c, level);
                lemma_tiles_bounds(fallback_sections(level, t, c), c as int, t.len() as int);
            }
            if !chunk_fits(text, trim, max, c, e) {
                return (levels[cur], Some(e));
            }
        }
        cur = k;
        k = k + 1;
    }
    proof {
        assert(levels@[cur as int] == fallback_at(cur as int));
    }
    (levels[cur], None)
}


/// Every end in `xs` lies in `(c, n]`.
pub open spec fn ends_within(xs: Seq<(Element, usize)>, c: usize, n: int) -> bool {
    forall|j: int| 0 <= j < xs.len() ==> c < #[trigger] xs[j].1 <= n
}

proof fn lemma_candidates_within(t: Seq<char>, rs: Seq<LevelRange>, c: usize, k: int)
    requires
        c <= t.len() <= usize::MAX,
        ranges_within(rs, t.len() as int),
    ensures
        ends_within(candidates(t, rs, c, k), c, t.len() as int),
    decreases k,
{
    if k > 0 {
        lemma_candidates_within(t, rs, c, k - 1);
        lemma_level_sections_tile(t, rs, c, level_of_rank(k - 1));
    }
}

proof fn lemma_coalesce_within(xs: Seq<(Element, usize)>, c: usize, n: int)
    requires
        ends_within(xs, c, n),
    ensures
        ends_within(coalesce_fold(xs).0, c, n),
        coalesce_fold(xs).1 matches Some(a) ==> c < a.1 <= n,
        ends_within(coalesce(xs), c, n),
    decreases xs.len(),
{
    if xs.len() > 0 {
        lemma_coalesce_within(xs.drop_last(), c, n);
        assert(xs.last() == xs[xs.len() - 1]);
    }
}

proof fn lemma_pick_level_within(
    t: Seq<char>,
    trim: bool,
    max: usize,
    c: usize,
    xs: Seq<(Element, usize)>,
    cur: Option<Element>,
    n: int,
)
    requires
        ends_within(xs, c, n),
    ensures
        pick_level(t, trim, max, c, xs, cur).1 matches Some(m) ==> c < m <= n,
    decreases xs.len(),
{
    if xs.len() > 0 && fits(t, trim, max, c, xs[0].1) {
        assert(ends_within(xs.drop_first(), c, n)) by {
            assert forall|j: int| 0 <= j < xs.drop_first().len() implies c
                < #[trigger] xs.drop_first()[j].1 <= n by {
                assert(xs.drop_first()[j] == xs[j + 1]);
            }
        }
        lemma_pick_level_within(t, trim, max, c, xs.drop_first(), Some(xs[0].0), n);
    }
}

proof fn lemma_fallback_first_end(t: Seq<char>, c: usize, k: int)
    requires
        c <= t.len() <= usize::MAX,
    ensures
        tiles(fallback_sections(fallback_at(k), t, c), c as int, t.len() as int),
        fallback_first_end(t, c, k) matches Some(e) ==> c < e <= t.len(),
        c < t.len() ==> fallback_first_end(t, c, k) is Some,
{
    crate::segment::lemma_fallback_sections_tile(t, c, fallback_at(k));
    lemma_tiles_bounds(fallback_sections(fallback_at(k), t, c), c as int, t.len() as int);
}

proof fn lemma_pick_fallback_within(t: Seq<char>, trim: bool, max: usize, c: usize, k: int, cur: int)
    requires
        c <= t.len() <= usize::MAX,
        0 <= cur < 4,
        0 <= k,
    ensures
        pick_fallback(t, trim, max, c, k, cur).1 matches Some(m) ==> c < m <= t.len(),
        0 <= pick_fallback(t, trim, max, c, k, cur).0 < 4,
    decreases 4 - k,
{
    if k < 4 {
        lemma_fallback_first_end(t, c, k);
        lemma_pick_fallback_within(t, trim, max, c, k + 1, k);
    }
}

/// The chosen sections tile `t[c..]`, and the limit, if there is one, lies
/// after `c`.
pub proof fn lemma_chosen_sections(t: Seq<char>, rs: Seq<LevelRange>, trim: bool, max: usize, c: usize)
    requires
        c <= t.len() <= usize::MAX,
        ranges_within(rs, t.len() as int),
    ensures
        tiles(chosen_sections(t, rs, trim, max, c).0, c as int, t.len() as int),
        chosen_sections(t, rs, trim, max, c).1 matches Some(m) ==> c < m <= t.len(),
{
    let n = t.len() as int;
    lemma_candidates_within(t, rs, c, 10);
    lemma_coalesce_within(candidates(t, rs, c, 10), c, n);
    lemma_pick_level_within(t, trim, max, c, coalesce(candidates(t, rs, c, 10)), None, n);
    let (level, limit) = markdown_choice(t, rs, trim, max, c);
    match level {
        Some(l) => {
            lemma_level_sections_tile(t, rs, c, l);
        },
        None => {
            lemma_pick_fallback_within(t, trim, max, c, 0, 0);
            let k = pick_fallback(t, trim, max, c, 0, 0).0;
            lemma_fallback_first_end(t, c, k);
        },
    }
}

proof fn lemma_limit_prefix(ps: Seq<(usize, usize)>, limit: Option<usize>)
    ensures
        limit_sections(ps, limit).len() <= ps.len(),
        forall|i: int| 0 <= i < limit_sections(ps, limit).len() ==> #[trigger] limit_sections(ps, limit)[i] == ps[i],
        ps.len() > 0 && (limit matches Some(m) ==> ps[0].0 <= m) ==> limit_sections(ps, limit).len() > 0,
    decreases ps.len(),
{
    if ps.len() > 0 {
        lemma_limit_prefix(ps.drop_first(), limit);
        let q = limit_sections(ps, limit);
        let r = limit_sections(ps.drop_first(), limit);
        assert forall|i: int| 0 <= i < q.len() implies #[trigger] q[i] == ps[i] by {
            if i > 0 {
                assert(q[i] == r[i - 1]);
                assert(ps.drop_first()[i - 1] == ps[i]);
            }
        }
    }
}

proof fn lemma_last_fit_member(t: Seq<char>, trim: bool, max: usize, c: usize, ps: Seq<(usize, usize)>)
    ensures
        last_fit(t, trim, max, c, ps) matches Some(e) ==> exists|i: int|
            0 <= i < ps.len() && ps[i].1 == e && fits(t, trim, max, c, e),
    decreases ps.len(),
{
    if ps.len() > 0 && fits(t, trim, max, c, ps[0].1) {
        lemma_last_fit_member(t, trim, max, c, ps.drop_first());
        if let Some(e) = last_fit(t, trim, max, c, ps.drop_first()) {
            let i = choose|i: int| 0 <= i < ps.drop_first().len() && ps.drop_first()[i].1 == e && fits(t, trim, max, c, e);
            assert(ps[i + 1].1 == e);
        } else {
            assert(ps[0].1 == ps[0].1);
        }
    }
}

/// A chunk that starts at `c` ends after `c` and within the text; it is the
/// end of the first section or a chunk that fits.
pub proof fn lemma_next_end(t: Seq<char>, rs: Seq<LevelRange>, trim: bool, max: usize, c: usize)
    requires
        c < t.len() <= usize::MAX,
        ranges_within(rs, t.len() as int),
    ensures
        c < next_end(t, rs, trim, max, c) <= t.len(),
        fits(t, trim, max, c, next_end(t, rs, trim, max, c)) || next_end(t, rs, trim, max, c)
            == chosen_sections(t, rs, trim, max, c).0[0].1,
{
    lemma_chosen_sections(t, rs, trim, max, c);
    let (ps, limit) = chosen_sections(t, rs, trim, max, c);
    lemma_tiles_bounds(ps, c as int, t.len() as int);
    lemma_limit_prefix(ps, limit);
    let qs = limit_sections(ps, limit);
    lemma_last_fit_member(t, trim, max, c, qs);
    assert(qs.len() > 0);
    assert(qs[0] == ps[0]);
}

fn within_limit(start: usize, limit: Option<usize>) -> (b: bool)
    ensures
        b == (match limit {
            Some(m) => start <= m,
            None => true,
        }),
{
    match limit {
        Some(m) => start <= m,
        None => true,
    }
}

/// The sections, with their limit, that the chunk from `c` is made of (see
/// [`chosen_sections`]).
fn chosen(text: &CharText, rs: &Vec<LevelRange>, trim: bool, max: usize, c: usize) -> (r: (
    Vec<(usize, usize)>,
    Option<usize>,
))
    requires
        text.wf(),
        c < text.chars().len(),
        ranges_within(rs@, text.chars().len() as int),
    ensures
        (r.0@, r.1) == chosen_sections(text.chars(), rs@, trim, max, c),
{
    let (level, limit) = choose_markdown_level(text, rs, trim, max, c);
    match level {
        Some(l) => {
            let lr = level_ranges_after(rs, c, l);
            proof {
                lemma_level_ranges_within(rs@, c, l, text.chars().len() as int);
            }
            (Element::char_sections(text, c, &lr), limit)
        },
        None => {
            let (fl, fb) = choose_fallback_level(text, trim, max, c);
            let combined = match (fb, limit) {
                (Some(x), Some(y)) => Some(
                    if x <= y {
                        x
                    } else {
                        y
                    },
                ),
                (Some(x), None) => Some(x),
                (None, y) => y,
            };
            (fallback_pieces(text, c, fl), combined)
        },
    }
}

/// The end of the chunk that starts at `c` (see [`next_end`]).
pub fn next_chunk_end(text: &CharText, rs: &Vec<LevelRange>, trim: bool, max: usize, c: usize) -> (e: usize)
    requires
        text.wf(),
        c < text.chars().len(),
        ranges_within(rs@, text.chars().len() as int),
    ensures
        e == next_end(text.chars(), rs@, trim, max, c),
        c < e <= text.chars().len(),
{
    let ghost t = text.chars();
    proof {
        text.lemma_wf_bounds();
        lemma_next_end(t, rs@, trim, max, c);
        lemma_chosen_sections(t, rs@, trim, max, c);
    }
    let (ps, lim) = chosen(text, rs, trim, max, c);
    proof {
        lemma_tiles_bounds(ps@, c as int, t.len() as int);
    }
    let mut qs: Vec<(usize, usize)> = Vec::new();
    let mut i: usize = 0;
    proof {
        assert(ps@.skip(0) =~= ps@);
    }
    while i < ps.len() && within_limit(ps[i].0, lim)
        invariant
            i <= ps@.len(),
            qs@ + limit_sections(ps@.skip(i as int), lim) == limit_sections(ps@, lim),
        decreases ps@.len() - i,
    {
        proof {
            assert(ps@.skip(i as int)[0] == ps@[i as int]);
            assert(ps@.skip(i as int).drop_first() =~= ps@.skip(i + 1));
            assert(qs@.push(ps@[i as int]) + limit_sections(ps@.skip(i + 1), lim) =~= qs@ + (seq![ps@[i as int]] + limit_sections(ps@.skip(i + 1), lim)));
        }
        qs.push(ps[i]);
        i = i + 1;
    }
    proof {
        if i < ps@.len() {
            assert(ps@.skip(i as int)[0] == ps@[i as int]);
        } else {
            assert(ps@.skip(i as int) =~= Seq::<(usize, usize)>::empty());
        }
        assert(qs@ + Seq::<(usize, usize)>::empty() =~= qs@);
        lemma_limit_prefix(ps@, lim);
    }
    let ghost qv = qs@;
    let mut best: Option<usize> = None;
    let mut j: usize = 0;
    proof {
        assert(qv.skip(0) =~= qv);
    }
    while j < qs.len() && chunk_fits(text, trim, max, c, qs[j].1)
        invariant
            text.wf(),
            t == text.chars(),
            qs@ == qv,
            qv == limit_sections(ps@, lim),
            j <= qv.len(),
            forall|q: int| 0 <= q < qv.len() ==> c < #[trigger] qv[q].1 <= t.len(),
            last_fit(t, trim, max, c, qv) == match last_fit(t, trim, max, c, qv.skip(j as int)) {
                Some(e) => Some(e),
                None => best,
            },
        decreases qv.len() - j,
    {
        proof {
            assert(qv.skip(j as int)[0] == qv[j as int]);
            assert(qv.skip(j as int).drop_first() =~= qv.skip(j + 1));
        }
        best = Some(qs[j].1);
        j = j + 1;
    }
    proof {
        if j < qv.len() {
            assert(qv.skip(j as int)[0] == qv[j as int]);
        } else {
            assert(qv.skip(j as int) =~= Seq::<(usize, usize)>::empty());
        }
    }
    match best {
        Some(e) => e,
        None => if qs.len() > 0 {
            qs[0].1
        } else {
            c
        },
    }
}

/// The chunks of the text (see [`chunks_from`]), as character ranges.
pub fn chunk_ranges(text: &CharText, rs: &Vec<LevelRange>, trim: bool, max: usize) -> (chunks: Vec<
    (usize, usize),
>)
    requires
        text.wf(),
        ranges_within(rs@, text.chars().len() as int),
    ensures
        chunks@ == chunks_from(text.chars(), rs@, trim, max, 0),
{
    let ghost t = text.chars();
    let n = text.len();
    let mut out: Vec<(usize, usize)> = Vec::new();
    let mut c: usize = 0;
    while c < n
        invariant
            text.wf(),
            t == text.chars(),
            n == t.len(),
            c <= n,
            ranges_within(rs@, n as int),
            out@ + chunks_from(t, rs@, trim, max, c) == chunks_from(t, rs@, trim, max, 0),
        decreases n - c,
    {
        let e = next_chunk_end(text, rs, trim, max, c);
        let (a, b) = if trim {
            trim_bounds(text, c, e)
        } else {
            (c, e)
        };
        let ghost old_out = out@;
        if a < b {
            out.push((a, b));
        }
        proof {
            assert((a, b) == emitted(t, trim, c, e));
            assert(out@ + chunks_from(t, rs@, trim, max, e) =~= old_out + chunks_from(t, rs@, trim, max, c));
        }
        c = e;
    }
    proof {
        assert(out@ + Seq::<(usize, usize)>::empty() =~= out@);
    }
    out
}


proof fn lemma_candidates_member(t: Seq<char>, rs: Seq<LevelRange>, c: usize, k: int)
    ensures
        forall|i: int|
            0 <= i < candidates(t, rs, c, k).len() ==> first_end(
                t,
                rs,
                c,
                #[trigger] candidates(t, rs, c, k)[i].0,
            ) == Some(candidates(t, rs, c, k)[i].1),
    decreases k,
{
    if k > 0 {
        lemma_candidates_member(t, rs, c, k - 1);
    }
}

proof fn lemma_coalesce_member(xs: Seq<(Element, usize)>)
    ensures
        forall|i: int| 0 <= i < coalesce_fold(xs).0.len() ==> xs.contains(#[trigger] coalesce_fold(xs).0[i]),
        coalesce_fold(xs).1 matches Some(a) ==> xs.contains(a),
        forall|i: int| 0 <= i < coalesce(xs).len() ==> xs.contains(#[trigger] coalesce(xs)[i]),
    decreases xs.len(),
{
    if xs.len() > 0 {
        let p = xs.drop_last();
        lemma_coalesce_member(p);
        assert forall|q: (Element, usize)| p.contains(q) implies xs.contains(q) by {
            let i = choose|i: int| 0 <= i < p.len() && p[i] == q;
            assert(xs[i] == q);
        }
        assert(xs[xs.len() - 1] == xs.last());
    }
}

proof fn lemma_pick_level_member(
    t: Seq<char>,
    trim: bool,
    max: usize,
    c: usize,
    xs: Seq<(Element, usize)>,
    cur: Option<Element>,
)
    ensures
        pick_level(t, trim, max, c, xs, cur).0 == cur || exists|i: int|
            0 <= i < xs.len() && Some(xs[i].0) == pick_level(t, trim, max, c, xs, cur).0 && fits(
                t,
                trim,
                max,
                c,
                xs[i].1,
            ),
    decreases xs.len(),
{
    if xs.len() > 0 && fits(t, trim, max, c, xs[0].1) {
        let r = pick_level(t, trim, max, c, xs.drop_first(), Some(xs[0].0));
        lemma_pick_level_member(t, trim, max, c, xs.drop_first(), Some(xs[0].0));
        if r.0 != Some(xs[0].0) {
            let i = choose|i: int|
                0 <= i < xs.drop_first().len() && Some(xs.drop_first()[i].0) == r.0 && fits(
                    t,
                    trim,
                    max,
                    c,
                    xs.drop_first()[i].1,
                );
            assert(xs[i + 1] == xs.drop_first()[i]);
        }
    }
}

proof fn lemma_pick_fallback_member(t: Seq<char>, trim: bool, max: usize, c: usize, k: int, cur: int)
    requires
        c < t.len() <= usize::MAX,
        0 <= k,
    ensures
        pick_fallback(t, trim, max, c, k, cur).0 == cur || (k <= pick_fallback(t, trim, max, c, k, cur).0
            < 4 && fits(
            t,
            trim,
            max,
            c,
            fallback_first_end(t, c, pick_fallback(t, trim, max, c, k, cur).0)->0,
        )),
    decreases 4 - k,
{
    if k < 4 {
        lemma_fallback_first_end(t, c, k);
        lemma_pick_fallback_member(t, trim, max, c, k + 1, k);
    }
}

proof fn lemma_char_first_end(t: Seq<char>, c: usize)
    requires
        c < t.len() <= usize::MAX,
    ensures
        fallback_first_end(t, c, 0) == Some((c + 1) as usize),
{
    let s = t.subrange(c as int, t.len() as int);
    let segs = crate::segment::segments(FallbackLevel::Char, s);
    assert(segs[0].len() == 1);
    assert(crate::segment::cum_pieces(segs, c)[0] == (c, (c + 1) as usize));
}

/// When every chunk may hold at least one character, the first section of
/// the chosen sections fits.
proof fn lemma_first_section_fits(t: Seq<char>, rs: Seq<LevelRange>, trim: bool, max: usize, c: usize)
    requires
        c < t.len() <= usize::MAX,
        ranges_within(rs, t.len() as int),
        max >= 1,
    ensures
        chosen_sections(t, rs, trim, max, c).0.len() > 0,
        fits(t, trim, max, c, chosen_sections(t, rs, trim, max, c).0[0].1),
{
    lemma_chosen_sections(t, rs, trim, max, c);
    let xs = coalesce(candidates(t, rs, c, 10));
    let (level, limit) = markdown_choice(t, rs, trim, max, c);
    lemma_pick_level_member(t, trim, max, c, xs, None);
    match level {
        Some(l) => {
            let i = choose|i: int| 0 <= i < xs.len() && Some(xs[i].0) == level && fits(t, trim, max, c, xs[i].1);
            lemma_coalesce_member(candidates(t, rs, c, 10));
            assert(candidates(t, rs, c, 10).contains(xs[i]));
            let j = choose|j: int| 0 <= j < candidates(t, rs, c, 10).len() && candidates(t, rs, c, 10)[j] == xs[i];
            lemma_candidates_member(t, rs, c, 10);
            assert(first_end(t, rs, c, candidates(t, rs, c, 10)[j].0) == Some(candidates(t, rs, c, 10)[j].1));
        },
        None => {
            lemma_pick_fallback_member(t, trim, max, c, 0, 0);
            let k = pick_fallback(t, trim, max, c, 0, 0).0;
            lemma_fallback_first_end(t, c, k);
            if k == 0 {
                lemma_char_first_end(t, c);
                crate::trim::lemma_trim_bounds(t, c as int, c + 1);
            }
        },
    }
}

/// The chunks from `c` are non-empty, in order, do not overlap, and lie in
/// `t[c..]`.
pub proof fn lemma_chunks_within(t: Seq<char>, rs: Seq<LevelRange>, trim: bool, max: usize, c: usize)
    requires
        c <= t.len() <= usize::MAX,
        ranges_within(rs, t.len() as int),
    ensures
        forall|i: int|
            0 <= i < chunks_from(t, rs, trim, max, c).len() ==> c <= (
            #[trigger] chunks_from(t, rs, trim, max, c)[i]).0 && chunks_from(t, rs, trim, max, c)[i].0
                < chunks_from(t, rs, trim, max, c)[i].1 && chunks_from(t, rs, trim, max, c)[i].1 <= t.len(),
        forall|i: int, j: int|
            0 <= i < j < chunks_from(t, rs, trim, max, c).len() ==> (#[trigger] chunks_from(
                t,
                rs,
                trim,
                max,
                c,
            )[i]).1 <= (#[trigger] chunks_from(t, rs, trim, max, c)[j]).0,
    decreases t.len() - c,
{
    if c < t.len() {
        lemma_next_end(t, rs, trim, max, c);
        let e = next_end(t, rs, trim, max, c);
        lemma_chunks_within(t, rs, trim, max, e);
        crate::trim::lemma_trim_bounds(t, c as int, e as int);
        let (a, b) = emitted(t, trim, c, e);
        let rest = chunks_from(t, rs, trim, max, e);
        let all = chunks_from(t, rs, trim, max, c);
        assert(all == keep(a, b) + rest);
        assert forall|i: int| 0 <= i < all.len() implies c <= (#[trigger] all[i]).0 && all[i].0
            < all[i].1 && all[i].1 <= t.len() by {
            if a < b && i == 0 {
            } else if a < b {
                assert(all[i] == rest[i - 1]);
            } else {
                assert(all[i] == rest[i]);
            }
        }
        assert forall|i: int, j: int| 0 <= i < j < all.len() implies (#[trigger] all[i]).1 <= (
        #[trigger] all[j]).0 by {
            if a < b {
                assert(all[j] == rest[j - 1]);
                if i > 0 {
                    assert(all[i] == rest[i - 1]);
                }
            } else {
                assert(all[i] == rest[i]);
                assert(all[j] == rest[j]);
            }
        }
    }
}

/// Without trimming, the chunks from `c` tile `t[c..]`: put together, they
/// give back the text.
pub proof fn lemma_chunks_tile(t: Seq<char>, rs: Seq<LevelRange>, max: usize, c: usize)
    requires
        c <= t.len() <= usize::MAX,
        ranges_within(rs, t.len() as int),
    ensures
        tiles(chunks_from(t, rs, false, max, c), c as int, t.len() as int),
    decreases t.len() - c,
{
    if c < t.len() {
        lemma_next_end(t, rs, false, max, c);
        let e = next_end(t, rs, false, max, c);
        lemma_chunks_tile(t, rs, max, e);
        crate::element::lemma_tiles_prepend(chunks_from(t, rs, false, max, e), c, e, t.len() as int);
    } else {
        assert(chunks_from(t, rs, false, max, c) =~= Seq::<(usize, usize)>::empty());
    }
}

/// When a chunk may hold at least one character, no chunk holds more than
/// `max` characters.
pub proof fn lemma_chunks_fit(t: Seq<char>, rs: Seq<LevelRange>, trim: bool, max: usize, c: usize)
    requires
        c <= t.len() <= usize::MAX,
        ranges_within(rs, t.len() as int),
        max >= 1,
    ensures
        forall|i: int|
            0 <= i < chunks_from(t, rs, trim, max, c).len() ==> (#[trigger] chunks_from(
                t,
                rs,
                trim,
                max,
                c,
            )[i]).1 - chunks_from(t, rs, trim, max, c)[i].0 <= max,
    decreases t.len() - c,
{
    if c < t.len() {
        lemma_next_end(t, rs, trim, max, c);
        lemma_first_section_fits(t, rs, trim, max, c);
        let e = next_end(t, rs, trim, max, c);
        assert(fits(t, trim, max, c, e));
        lemma_chunks_fit(t, rs, trim, max, e);
        crate::trim::lemma_trim_bounds(t, c as int, e as int);
        let (a, b) = emitted(t, trim, c, e);
        let rest = chunks_from(t, rs, trim, max, e);
        let all = chunks_from(t, rs, trim, max, c);
        assert forall|i: int| 0 <= i < all.len() implies (#[trigger] all[i]).1 - all[i].0 <= max by {
            if a < b && i == 0 {
            } else if a < b {
                assert(all[i] == rest[i - 1]);
            } else {
                assert(all[i] == rest[i]);
            }
        }
    }
}

/// With trimming on, every chunk from `c` is trimmed (see [`is_trimmed`]).
pub proof fn lemma_chunks_trimmed(t: Seq<char>, rs: Seq<LevelRange>, max: usize, c: usize)
    requires
        c <= t.len() <= usize::MAX,
        ranges_within(rs, t.len() as int),
    ensures
        forall|i: int|
            0 <= i < chunks_from(t, rs, true, max, c).len() ==> is_trimmed(
                t,
                (#[trigger] chunks_from(t, rs, true, max, c)[i]).0 as int,
                chunks_from(t, rs, true, max, c)[i].1 as int,
            ),
    decreases t.len() - c,
{
    if c < t.len() {
        lemma_next_end(t, rs, true, max, c);
        let e = next_end(t, rs, true, max, c);
        lemma_chunks_trimmed(t, rs, max, e);
        crate::trim::lemma_trim_bounds(t, c as int, e as int);
        crate::trim::lemma_trim_range_trimmed(t, c as int, e as int);
        let (a, b) = emitted(t, true, c, e);
        let rest = chunks_from(t, rs, true, max, e);
        let all = chunks_from(t, rs, true, max, c);
        assert forall|i: int| 0 <= i < all.len() implies is_trimmed(
            t,
            (#[trigger] all[i]).0 as int,
            all[i].1 as int,
        ) by {
            if a < b && i == 0 {
            } else if a < b {
                assert(all[i] == rest[i - 1]);
            } else {
                assert(all[i] == rest[i]);
            }
        }
    }
}

proof fn lemma_pick_level_unfit(
    t: Seq<char>,
    trim: bool,
    max: usize,
    c: usize,
    xs: Seq<(Element, usize)>,
    cur: Option<Element>,
)
    ensures
        pick_level(t, trim, max, c, xs, cur).1 matches Some(m) ==> !fits(t, trim, max, c, m),
    decreases xs.len(),
{
    if xs.len() > 0 && fits(t, trim, max, c, xs[0].1) {
        lemma_pick_level_unfit(t, trim, max, c, xs.drop_first(), Some(xs[0].0));
    }
}

proof fn lemma_pick_fallback_unfit(t: Seq<char>, trim: bool, max: usize, c: usize, k: int, cur: int)
    ensures
        pick_fallback(t, trim, max, c, k, cur).1 matches Some(m) ==> !fits(t, trim, max, c, m),
    decreases 4 - k,
{
    if k < 4 {
        lemma_pick_fallback_unfit(t, trim, max, c, k + 1, k);
    }
}

proof fn lemma_no_limit_leaves_sections(ps: Seq<(usize, usize)>)
    ensures
        limit_sections(ps, None) == ps,
    decreases ps.len(),
{
    if ps.len() > 0 {
        lemma_no_limit_leaves_sections(ps.drop_first());
        assert(seq![ps[0]] + ps.drop_first() =~= ps);
    }
}

proof fn lemma_all_fit_last(t: Seq<char>, trim: bool, max: usize, c: usize, ps: Seq<(usize, usize)>)
    requires
        ps.len() > 0,
        forall|i: int| 0 <= i < ps.len() ==> fits(t, trim, max, c, #[trigger] ps[i].1),
    ensures
        last_fit(t, trim, max, c, ps) == Some(ps.last().1),
    decreases ps.len(),
{
    assert(fits(t, trim, max, c, ps[0].1));
    if ps.len() > 1 {
        let rest = ps.drop_first();
        assert forall|i: int| 0 <= i < rest.len() implies fits(t, trim, max, c, #[trigger] rest[i].1) by {
            assert(rest[i] == ps[i + 1]);
        }
        lemma_all_fit_last(t, trim, max, c, rest);
        assert(rest.last() == ps.last());
    }
}

/// Without trimming, when all of `t[c..]` fits into one chunk, the chunk
/// from `c` reaches the end of the text.
pub proof fn lemma_rest_fits_whole(t: Seq<char>, rs: Seq<LevelRange>, max: usize, c: usize)
    requires
        c < t.len() <= usize::MAX,
        t.len() - c <= max,
        ranges_within(rs, t.len() as int),
    ensures
        next_end(t, rs, false, max, c) == t.len(),
{
    let n = t.len() as int;
    lemma_chosen_sections(t, rs, false, max, c);
    lemma_candidates_within(t, rs, c, 10);
    lemma_coalesce_within(candidates(t, rs, c, 10), c, n);
    let xs = coalesce(candidates(t, rs, c, 10));
    lemma_pick_level_within(t, false, max, c, xs, None, n);
    lemma_pick_level_unfit(t, false, max, c, xs, None);
    lemma_pick_fallback_within(t, false, max, c, 0, 0);
    lemma_pick_fallback_unfit(t, false, max, c, 0, 0);
    let (ps, limit) = chosen_sections(t, rs, false, max, c);
    assert(limit is None);
    lemma_no_limit_leaves_sections(ps);
    lemma_tiles_bounds(ps, c as int, n);
    assert(ps.len() > 0);
    assert forall|i: int| 0 <= i < ps.len() implies fits(t, false, max, c, #[trigger] ps[i].1) by {
        assert(c < ps[i].1 <= n);
    }
    lemma_all_fit_last(t, false, max, c, ps);
}

/// Without trimming, a non-empty text that fits into one chunk is that one
/// chunk.
pub proof fn lemma_fitting_text_one_chunk(t: Seq<char>, rs: Seq<LevelRange>, max: usize)
    requires
        0 < t.len() <= max,
        ranges_within(rs, t.len() as int),
    ensures
        chunks_from(t, rs, false, max, 0) == seq![(0usize, t.len() as usize)],
{
    lemma_rest_fits_whole(t, rs, max, 0);
    let n = t.len() as usize;
    assert(chunks_from(t, rs, false, max, n) =~= Seq::<(usize, usize)>::empty());
    assert(keep(0, n) + chunks_from(t, rs, false, max, n) =~= seq![(0usize, n)]);
}

/// Since a chunk's size grows with its end, the longest run of leading
/// sections that fits ends at the furthest section end that fits: the
/// chunk reaches as far as any fitting chunk made of whole sections could.
pub proof fn lemma_last_fit_largest(t: Seq<char>, trim: bool, max: usize, c: usize, ps: Seq<(usize, usize)>)
    requires
        forall|i: int| 0 <= i < ps.len() ==> c <= #[trigger] ps[i].1 <= t.len(),
        forall|i: int, j: int| 0 <= i < j < ps.len() ==> #[trigger] ps[i].1 < #[trigger] ps[j].1,
    ensures
        last_fit(t, trim, max, c, ps) matches Some(e) ==> forall|i: int|
            0 <= i < ps.len() && fits(t, trim, max, c, #[trigger] ps[i].1) ==> ps[i].1 <= e,
        (exists|i: int| 0 <= i < ps.len() && fits(t, trim, max, c, #[trigger] ps[i].1))
            ==> last_fit(t, trim, max, c, ps) is Some,
    decreases ps.len(),
{
    if ps.len() > 0 {
        let rest = ps.drop_first();
        assert forall|i: int| 0 <= i < rest.len() implies c <= #[trigger] rest[i].1 <= t.len() by {
            assert(rest[i] == ps[i + 1]);
        }
        assert forall|i: int, j: int| 0 <= i < j < rest.len() implies #[trigger] rest[i].1
            < #[trigger] rest[j].1 by {
            assert(rest[i] == ps[i + 1] && rest[j] == ps[j + 1]);
        }
        lemma_last_fit_largest(t, trim, max, c, rest);
        lemma_last_fit_member(t, trim, max, c, rest);
        assert forall|i: int| 0 <= i < ps.len() && fits(t, trim, max, c, #[trigger] ps[i].1)
            implies fits(t, trim, max, c, ps[0].1) by {
            if i > 0 {
                crate::trim::lemma_fits_shorter(t, trim, max as int, c as int, ps[0].1 as int, ps[i].1 as int);
            }
        }
        if fits(t, trim, max, c, ps[0].1) {
            match last_fit(t, trim, max, c, rest) {
                Some(e) => {
                    let k = choose|k: int| 0 <= k < rest.len() && rest[k].1 == e && fits(t, trim, max, c, e);
                    assert(rest[k] == ps[k + 1]);
                    assert forall|i: int| 0 <= i < ps.len() && fits(t, trim, max, c, #[trigger] ps[i].1)
                        implies ps[i].1 <= e by {
                        if i > 0 {
                            assert(rest[i - 1] == ps[i]);
                        }
                    }
                },
                None => {
                    assert forall|i: int| 0 <= i < ps.len() && fits(t, trim, max, c, #[trigger] ps[i].1)
                        implies ps[i].1 <= ps[0].1 by {
                        if i > 0 {
                            assert(rest[i - 1] == ps[i]);
                            assert(fits(t, trim, max, c, rest[i - 1].1));
                        }
                    }
                },
            }
        }
    }
}

/// Levels listed by strictly increasing rank.
pub open spec fn increasing(xs: Seq<(Element, usize)>) -> bool {
    forall|i: int, j: int| 0 <= i < j < xs.len() ==> rank(#[trigger] xs[i].0) < rank(#[trigger] xs[j].0)
}

/// The first section of `level` from `c` fits into one chunk.
pub open spec fn first_section_fits(t: Seq<char>, rs: Seq<LevelRange>, trim: bool, max: usize, c: usize, level: Element) -> bool {
    match first_end(t, rs, c, level) {
        Some(e) => fits(t, trim, max, c, e),
        None => false,
    }
}

proof fn lemma_candidates_shape(t: Seq<char>, rs: Seq<LevelRange>, c: usize, k: int)
    requires
        0 <= k <= 10,
    ensures
        increasing(candidates(t, rs, c, k)),
        forall|i: int|
            0 <= i < candidates(t, rs, c, k).len() ==> level_present(rs, c, (#[trigger] candidates(t, rs, c, k)[i]).0)
                && rank(candidates(t, rs, c, k)[i].0) < k,
        forall|m: Element|
            level_present(rs, c, m) && rank(m) < k && first_end(t, rs, c, m) is Some ==> exists|i: int|
                0 <= i < candidates(t, rs, c, k).len() && (#[trigger] candidates(t, rs, c, k)[i]).0 == m,
    decreases k,
{
    if k > 0 {
        lemma_candidates_shape(t, rs, c, k - 1);
        lemma_rank_roundtrip(Element::SoftBreak, k - 1);
        let prev = candidates(t, rs, c, k - 1);
        let cur = candidates(t, rs, c, k);
        let level = level_of_rank(k - 1);
        assert forall|i: int| 0 <= i < cur.len() implies level_present(rs, c, (#[trigger] cur[i]).0)
            && rank(cur[i].0) < k by {
            if i < prev.len() {
                assert(cur[i] == prev[i]);
            }
        }
        assert forall|i: int, j: int| 0 <= i < j < cur.len() implies rank(#[trigger] cur[i].0) < rank(
            #[trigger] cur[j].0,
        ) by {
            assert(cur[i] == prev[i]);
            if j < prev.len() {
                assert(cur[j] == prev[j]);
            }
        }
        assert forall|m: Element|
            level_present(rs, c, m) && rank(m) < k && first_end(t, rs, c, m) is Some implies exists|i: int|
                0 <= i < cur.len() && (#[trigger] cur[i]).0 == m by {
            lemma_rank_roundtrip(m, k - 1);
            if rank(m) < k - 1 {
                let i = choose|i: int| 0 <= i < prev.len() && (#[trigger] prev[i]).0 == m;
                assert(cur[i] == prev[i]);
            } else {
                assert(m == level);
                assert(cur[prev.len() as int].0 == m);
            }
        }
    }
}

/// `ys[k]` is the first of `ys` of a rank at least that of `x`, and its
/// section ends no later than that of `x`.
pub open spec fn covers(ys: Seq<(Element, usize)>, x: (Element, usize), k: int) -> bool {
    &&& 0 <= k < ys.len()
    &&& rank(ys[k].0) >= rank(x.0)
    &&& ys[k].1 <= x.1
    &&& forall|i: int| 0 <= i < k ==> rank(#[trigger] ys[i].0) < rank(x.0)
}

/// Some member of `ys` covers `x` (see [`covers`]).
pub open spec fn reached(ys: Seq<(Element, usize)>, x: (Element, usize)) -> bool {
    exists|k: int| covers(ys, x, k)
}

proof fn lemma_coalesce_reaches(xs: Seq<(Element, usize)>)
    requires
        increasing(xs),
    ensures
        xs.len() > 0 ==> coalesce_fold(xs).1 == Some(xs.last()),
        increasing(coalesce(xs)),
        forall|j: int| 0 <= j < xs.len() ==> #[trigger] reached(coalesce(xs), xs[j]),
    decreases xs.len(),
{
    if xs.len() > 0 {
        let p = xs.drop_last();
        let x = xs.last();
        assert(increasing(p)) by {
            assert forall|i: int, j: int| 0 <= i < j < p.len() implies rank(#[trigger] p[i].0) < rank(
                #[trigger] p[j].0,
            ) by {
                assert(p[i] == xs[i] && p[j] == xs[j]);
            }
        }
        lemma_coalesce_reaches(p);
        let y = coalesce(xs);
        if p.len() == 0 {
            assert(y =~= seq![x]);
            assert forall|j: int| 0 <= j < xs.len() implies #[trigger] reached(coalesce(xs), xs[j]) by {
                assert(covers(y, xs[j], 0));
            }
        } else {
            let out = coalesce_fold(p).0;
            let a = p.last();
            let yp = coalesce(p);
            assert(yp == out.push(a));
            assert(a == xs[xs.len() - 2]);
            assert(rank(a.0) < rank(x.0));
            assert forall|i: int| 0 <= i < out.len() implies rank(#[trigger] out[i].0) < rank(a.0) by {
                assert(yp[i] == out[i]);
                assert(yp[out.len() as int] == a);
            }
            if a.1 >= x.1 {
                assert(y == out.push(x));
                assert forall|i: int, j: int| 0 <= i < j < y.len() implies rank(#[trigger] y[i].0) < rank(
                    #[trigger] y[j].0,
                ) by {
                    assert(y[i] == out[i]);
                    if j < out.len() {
                        assert(y[j] == out[j]);
                        assert(yp[i] == out[i] && yp[j] == out[j]);
                    }
                }
                assert forall|j: int| 0 <= j < xs.len() implies #[trigger] reached(coalesce(xs), xs[j]) by {
                    if j < p.len() {
                        assert(xs[j] == p[j]);
                        assert(reached(yp, p[j]));
                        let k = choose|k: int| covers(yp, p[j], k);
                        if k < out.len() {
                            assert(y[k] == yp[k]);
                            assert forall|i: int| 0 <= i < k implies rank(#[trigger] y[i].0) < rank(xs[j].0) by {
                                assert(y[i] == yp[i]);
                            }
                            assert(covers(y, xs[j], k));
                        } else {
                            assert(yp[k] == a);
                            assert(y[k] == x);
                            assert forall|i: int| 0 <= i < k implies rank(#[trigger] y[i].0) < rank(xs[j].0) by {
                                assert(y[i] == yp[i]);
                            }
                            assert(covers(y, xs[j], k));
                        }
                    } else {
                        let k = out.len() as int;
                        assert(y[k] == x);
                        assert forall|i: int| 0 <= i < k implies rank(#[trigger] y[i].0) < rank(xs[j].0) by {
                            assert(y[i] == out[i]);
                        }
                        assert(covers(y, xs[j], k));
                    }
                }
            } else {
                assert(y == yp.push(x));
                assert forall|i: int, j: int| 0 <= i < j < y.len() implies rank(#[trigger] y[i].0) < rank(
                    #[trigger] y[j].0,
                ) by {
                    assert(y[i] == yp[i]);
                    if j < yp.len() {
                        assert(y[j] == yp[j]);
                    } else {
                        if i < out.len() {
                            assert(yp[i] == out[i]);
                        }
                    }
                }
                assert forall|j: int| 0 <= j < xs.len() implies #[trigger] reached(coalesce(xs), xs[j]) by {
                    if j < p.len() {
                        assert(xs[j] == p[j]);
                        assert(reached(yp, p[j]));
                        let k = choose|k: int| covers(yp, p[j], k);
                        assert(y[k] == yp[k]);
                        assert forall|i: int| 0 <= i < k implies rank(#[trigger] y[i].0) < rank(xs[j].0) by {
                            assert(y[i] == yp[i]);
                        }
                        assert(covers(y, xs[j], k));
                    } else {
                        let k = yp.len() as int;
                        assert(y[k] == x);
                        assert forall|i: int| 0 <= i < k implies rank(#[trigger] y[i].0) < rank(xs[j].0) by {
                            assert(y[i] == yp[i]);
                            if i < out.len() {
                                assert(yp[i] == out[i]);
                            }
                        }
                        assert(covers(y, xs[j], k));
                    }
                }
            }
        }
    }
}

proof fn lemma_pick_level_passes(
    t: Seq<char>,
    trim: bool,
    max: usize,
    c: usize,
    ys: Seq<(Element, usize)>,
    cur: Option<Element>,
    k: int,
)
    requires
        increasing(ys),
        0 <= k < ys.len(),
        forall|i: int| 0 <= i <= k ==> fits(t, trim, max, c, #[trigger] ys[i].1),
    ensures
        pick_level(t, trim, max, c, ys, cur).0 matches Some(l) && rank(ys[k].0) <= rank(l),
    decreases ys.len(),
{
    let rest = ys.drop_first();
    assert(fits(t, trim, max, c, ys[0].1));
    assert(increasing(rest)) by {
        assert forall|i: int, j: int| 0 <= i < j < rest.len() implies rank(#[trigger] rest[i].0) < rank(
            #[trigger] rest[j].0,
        ) by {
            assert(rest[i] == ys[i + 1] && rest[j] == ys[j + 1]);
        }
    }
    if k == 0 {
        lemma_pick_level_member(t, trim, max, c, rest, Some(ys[0].0));
        let r = pick_level(t, trim, max, c, rest, Some(ys[0].0));
        if r.0 != Some(ys[0].0) {
            let i = choose|i: int| 0 <= i < rest.len() && Some(rest[i].0) == r.0 && fits(t, trim, max, c, rest[i].1);
            assert(rest[i] == ys[i + 1]);
        }
    } else {
        assert forall|i: int| 0 <= i <= k - 1 implies fits(t, trim, max, c, #[trigger] rest[i].1) by {
            assert(rest[i] == ys[i + 1]);
        }
        lemma_pick_level_passes(t, trim, max, c, rest, Some(ys[0].0), k - 1);
        assert(rest[k - 1] == ys[k]);
    }
}

/// The Markdown level that cuts `t[c..]` is as large as it can be: when the
/// first section of a level that occurs from `c` on fits into a chunk, and
/// so does the first section of every smaller level that occurs there, a
/// level is chosen, and it is that level or a larger one.
pub proof fn lemma_choice_reaches_fitting_level(
    t: Seq<char>,
    rs: Seq<LevelRange>,
    trim: bool,
    max: usize,
    c: usize,
    level: Element,
)
    requires
        c < t.len() <= usize::MAX,
        ranges_within(rs, t.len() as int),
        level_present(rs, c, level),
        forall|m: Element|
            #[trigger] level_present(rs, c, m) && rank(m) <= rank(level) ==> first_section_fits(
                t,
                rs,
                trim,
                max,
                c,
                m,
            ),
    ensures
        markdown_choice(t, rs, trim, max, c).0 matches Some(l) && rank(level) <= rank(l),
{
    let n = t.len() as int;
    let cands = candidates(t, rs, c, 10);
    lemma_rank_roundtrip(level, 0);
    lemma_candidates_shape(t, rs, c, 10);
    lemma_candidates_member(t, rs, c, 10);
    lemma_candidates_within(t, rs, c, 10);
    lemma_level_sections_tile(t, rs, c, level);
    let j = choose|i: int| 0 <= i < cands.len() && (#[trigger] cands[i]).0 == level;
    assert forall|i: int| 0 <= i <= j implies fits(t, trim, max, c, #[trigger] cands[i].1) by {
        if i < j {
            assert(rank(cands[i].0) < rank(cands[j].0));
        }
        assert(level_present(rs, c, cands[i].0));
        assert(first_end(t, rs, c, cands[i].0) == Some(cands[i].1));
        assert(first_section_fits(t, rs, trim, max, c, cands[i].0));
    }
    lemma_coalesce_reaches(cands);
    lemma_coalesce_member(cands);
    lemma_coalesce_within(cands, c, n);
    let ys = coalesce(cands);
    assert(reached(ys, cands[j]));
    let k = choose|k: int| covers(ys, cands[j], k);
    assert(c < ys[k].1 <= n);
    crate::trim::lemma_fits_shorter(t, trim, max as int, c as int, ys[k].1 as int, cands[j].1 as int);
    assert forall|i: int| 0 <= i <= k implies fits(t, trim, max, c, #[trigger] ys[i].1) by {
        if i < k {
            assert(cands.contains(ys[i]));
            let q = choose|q: int| 0 <= q < cands.len() && cands[q] == ys[i];
            assert(level_present(rs, c, cands[q].0));
            assert(first_end(t, rs, c, cands[q].0) == Some(cands[q].1));
            assert(first_section_fits(t, rs, trim, max, c, cands[q].0));
        }
    }
    lemma_pick_level_passes(t, trim, max, c, ys, None, k);
}

} // verus!
