//! The fallback levels below Markdown structure: characters, grapheme
//! clusters, words and sentences (Unicode UAX #29 boundaries).

use vstd::prelude::*;
use vstd::string::StrSliceExecFns;
use unicode_segmentation::UnicodeSegmentation;
use crate::element::keep;
use crate::text::CharText;

verus! {

/// The grapheme clusters (extended) that unicode-segmentation finds in `s`.
pub uninterp spec fn grapheme_split(s: Seq<char>) -> Seq<Seq<char>>;

/// The pieces between UAX #29 word boundaries that unicode-segmentation
/// finds in `s`.
pub uninterp spec fn word_split(s: Seq<char>) -> Seq<Seq<char>>;

/// The pieces between UAX #29 sentence boundaries that unicode-segmentation
/// finds in `s`.
pub uninterp spec fn sentence_split(s: Seq<char>) -> Seq<Seq<char>>;

/// The concatenation of all pieces.
pub open spec fn concat(ps: Seq<Seq<char>>) -> Seq<char>
    decreases ps.len(),
{
    if ps.len() == 0 {
        Seq::empty()
    } else {
        concat(ps.drop_last()) + ps.last()
    }
}

/// The characters of each piece.
pub open spec fn views<'a>(ps: Seq<&'a str>) -> Seq<Seq<char>> {
    ps.map_values(|p: &'a str| p@)
}

/// Calls unicode-segmentation's `graphemes(true)` on `s` (extended grapheme
/// clusters). Claimed: the pieces are a function of `s` alone, and, as the
/// iterator's source shows (it hands out consecutive slices from the start
/// of the text to its end), they concatenate to `s`.
#[verifier::external_body]
fn graphemes_of<'a>(s: &'a str) -> (pieces: Vec<&'a str>)
    ensures
        views(pieces@) == grapheme_split(s@),
        concat(views(pieces@)) == s@,
{
    s.graphemes(true).collect()
}

/// Calls unicode-segmentation's `split_word_bounds` on `s`. Claimed: the
/// pieces are a function of `s` alone and, as its documentation says,
/// concatenate to `s`.
#[verifier::external_body]
fn words_of<'a>(s: &'a str) -> (pieces: Vec<&'a str>)
    ensures
        views(pieces@) == word_split(s@),
        concat(views(pieces@)) == s@,
{
    s.split_word_bounds().collect()
}

/// Calls unicode-segmentation's `split_sentence_bounds` on `s`. Claimed: the
/// pieces are a function of `s` alone and, as its documentation says,
/// concatenate to `s`.
#[verifier::external_body]
fn sentences_of<'a>(s: &'a str) -> (pieces: Vec<&'a str>)
    ensures
        views(pieces@) == sentence_split(s@),
        concat(views(pieces@)) == s@,
{
    s.split_sentence_bounds().collect()
}

/// Levels to split text by when the Markdown structure gives no unit small
/// enough, from the smallest to the largest.
#[derive(Clone, Copy, Debug, PartialEq, Eq, Structural)]
pub enum FallbackLevel {
    /// Single characters.
    Char,
    /// Unicode extended grapheme clusters.
    GraphemeCluster,
    /// Unicode word boundaries.
    Word,
    /// Unicode sentence boundaries.
    Sentence,
}

/// The fallback level at position `k` of the order `Char, GraphemeCluster,
/// Word, Sentence`.
pub open spec fn fallback_at(k: int) -> FallbackLevel {
    if k <= 0 {
        FallbackLevel::Char
    } else if k == 1 {
        FallbackLevel::GraphemeCluster
    } else if k == 2 {
        FallbackLevel::Word
    } else {
        FallbackLevel::Sentence
    }
}

/// `s` split into single characters.
pub open spec fn char_segments(s: Seq<char>) -> Seq<Seq<char>> {
    Seq::new(s.len(), |i: int| seq![s[i]])
}

/// `ps` if its pieces concatenate to `s` (as the segmentation calls
/// promise), else the characters of `s`.
pub open spec fn split_or_chars(ps: Seq<Seq<char>>, s: Seq<char>) -> Seq<Seq<char>> {
    if concat(ps) == s {
        ps
    } else {
        char_segments(s)
    }
}

/// The pieces that a fallback level splits `s` into.
pub open spec fn segments(level: FallbackLevel, s: Seq<char>) -> Seq<Seq<char>> {
    match level {
        FallbackLevel::Char => char_segments(s),
        FallbackLevel::GraphemeCluster => split_or_chars(grapheme_split(s), s),
        FallbackLevel::Word => split_or_chars(word_split(s), s),
        FallbackLevel::Sentence => split_or_chars(sentence_split(s), s),
    }
}

/// The non-empty sections, in character indices from `base`, that
/// consecutive pieces `ps` occupy.
pub open spec fn cum_pieces(ps: Seq<Seq<char>>, base: usize) -> Seq<(usize, usize)>
    decreases ps.len(),
{
    if ps.len() == 0 {
        Seq::empty()
    } else {
        keep(base, (base + ps[0].len()) as usize) + cum_pieces(
            ps.drop_first(),
            (base + ps[0].len()) as usize,
        )
    }
}

/// The sections that a fallback level cuts `t[c..]` into.
pub open spec fn fallback_sections(level: FallbackLevel, t: Seq<char>, c: usize) -> Seq<
    (usize, usize),
> {
    cum_pieces(segments(level, t.subrange(c as int, t.len() as int)), c)
}

/// Concatenating two runs of pieces concatenates their concatenations.
pub proof fn lemma_concat_append(a: Seq<Seq<char>>, b: Seq<Seq<char>>)
    ensures
        concat(a + b) == concat(a) + concat(b),
    decreases b.len(),
{
    if b.len() == 0 {
        assert(a + b =~= a);
        assert(concat(a) + concat(b) =~= concat(a));
    } else {
        lemma_concat_append(a, b.drop_last());
        assert((a + b).drop_last() =~= a + b.drop_last());
        assert(concat(a + b) =~= concat(a) + concat(b));
    }
}

proof fn lemma_concat_chars(s: Seq<char>, k: int)
    requires
        0 <= k <= s.len(),
    ensures
        concat(Seq::new(s.len(), |i: int| seq![s[i]]).take(k)) == s.take(k),
    decreases k,
{
    let ps = Seq::new(s.len(), |i: int| seq![s[i]]);
    if k > 0 {
        lemma_concat_chars(s, k - 1);
        assert(ps.take(k).drop_last() =~= ps.take(k - 1));
        assert(s.take(k) =~= s.take(k - 1) + seq![s[k - 1]]);
    } else {
        assert(ps.take(0) =~= Seq::<Seq<char>>::empty());
        assert(s.take(0) =~= Seq::<char>::empty());
    }
}

/// The pieces of every fallback level concatenate to the text.
pub proof fn lemma_concat_segments(level: FallbackLevel, s: Seq<char>)
    ensures
        concat(segments(level, s)) == s,
{
    lemma_concat_char_segments(s);
}

/// Character pieces concatenate to the text.
pub proof fn lemma_concat_char_segments(s: Seq<char>)
    ensures
        concat(char_segments(s)) == s,
{
    lemma_concat_chars(s, s.len() as int);
    assert(Seq::new(s.len(), |i: int| seq![s[i]]).take(s.len() as int) =~= Seq::new(
        s.len(),
        |i: int| seq![s[i]],
    ));
    assert(s.take(s.len() as int) =~= s);
}

/// The lengths of the pieces that `level` splits `t[c..]` into.
fn segment_lengths(text: &CharText, c: usize, level: FallbackLevel) -> (lens: Vec<usize>)
    requires
        text.wf(),
        c <= text.chars().len(),
    ensures
        lens@.len() == segments(level, text.chars().subrange(c as int, text.chars().len() as int)).len(),
        forall|k: int|
            0 <= k < lens@.len() ==> #[trigger] lens@[k] == segments(
                level,
                text.chars().subrange(c as int, text.chars().len() as int),
            )[k].len(),
{
    let n = text.len();
    let ghost s = text.chars().subrange(c as int, n as int);
    let mut lens: Vec<usize> = Vec::new();
    match level {
        FallbackLevel::Char => {
            let mut i = c;
            while i < n
                invariant
                    c <= i <= n,
                    lens@.len() == i - c,
                    forall|k: int| 0 <= k < lens@.len() ==> #[trigger] lens@[k] == 1,
                decreases n - i,
            {
                lens.push(1);
                i = i + 1;
            }
            proof {
                lemma_concat_char_segments(s);
            }
        },
        _ => {
            let rest = text.slice(c, n);
            let pieces = match level {
                FallbackLevel::GraphemeCluster => graphemes_of(rest),
                FallbackLevel::Word => words_of(rest),
                _ => sentences_of(rest),
            };
            proof {
                assert(segments(level, s) == views(pieces@));
            }
            let mut k: usize = 0;
            while k < pieces.len()
                invariant
                    k <= pieces@.len(),
                    lens@.len() == k,
                    forall|j: int| 0 <= j < k ==> #[trigger] lens@[j] == pieces@[j]@.len(),
                decreases pieces@.len() - k,
            {
                let l = pieces[k].unicode_len();
                lens.push(l);
                k = k + 1;
            }
            proof {
                assert forall|j: int| 0 <= j < lens@.len() implies #[trigger] lens@[j] == segments(
                    level,
                    s,
                )[j].len() by {
                    assert(views(pieces@)[j] == pieces@[j]@);
                }
            }
        },
    }
    lens
}

/// The sum of the lengths.
pub open spec fn total(lens: Seq<usize>) -> int
    decreases lens.len(),
{
    if lens.len() == 0 {
        0
    } else {
        lens[0] + total(lens.drop_first())
    }
}

/// The non-empty sections, placed one after the other from `base`, that
/// pieces of the lengths `lens` occupy.
pub open spec fn cum_lengths(lens: Seq<usize>, base: usize) -> Seq<(usize, usize)>
    decreases lens.len(),
{
    if lens.len() == 0 {
        Seq::empty()
    } else {
        keep(base, (base + lens[0]) as usize) + cum_lengths(lens.drop_first(), (base + lens[0]) as usize)
    }
}

/// Placing pieces by their lengths places them as the pieces themselves.
pub proof fn lemma_cum_lengths_pieces(lens: Seq<usize>, ps: Seq<Seq<char>>, base: usize)
    requires
        lens.len() == ps.len(),
        forall|j: int| 0 <= j < lens.len() ==> #[trigger] lens[j] == ps[j].len(),
    ensures
        cum_lengths(lens, base) == cum_pieces(ps, base),
        total(lens) == concat(ps).len(),
    decreases lens.len(),
{
    if lens.len() > 0 {
        let next = (base + lens[0]) as usize;
        assert forall|j: int| 0 <= j < lens.drop_first().len() implies #[trigger] lens.drop_first()[j]
            == ps.drop_first()[j].len() by {
            assert(lens.drop_first()[j] == lens[j + 1]);
        }
        lemma_cum_lengths_pieces(lens.drop_first(), ps.drop_first(), next);
        lemma_concat_append(seq![ps[0]], ps.drop_first());
        assert(ps =~= seq![ps[0]] + ps.drop_first());
        assert(seq![ps[0]].drop_last() =~= Seq::<Seq<char>>::empty());
        reveal_with_fuel(concat, 2);
        assert(concat(seq![ps[0]]) =~= ps[0]);
    } else {
        assert(ps =~= Seq::<Seq<char>>::empty());
    }
}

/// Place pieces of the lengths `lens` one after the other from `base` (see
/// [`cum_lengths`]).
pub fn sections_of_lengths(lens: &Vec<usize>, base: usize) -> (pieces: Vec<(usize, usize)>)
    requires
        base + total(lens@) <= usize::MAX,
    ensures
        pieces@ == cum_lengths(lens@, base),
{
    let mut out: Vec<(usize, usize)> = Vec::new();
    let mut pos = base;
    let mut k: usize = 0;
    proof {
        assert(lens@.skip(0) =~= lens@);
        lemma_total_nonneg(lens@);
    }
    while k < lens.len()
        invariant
            k <= lens@.len(),
            pos + total(lens@.skip(k as int)) == base + total(lens@),
            base + total(lens@) <= usize::MAX,
            0 <= total(lens@.skip(k as int)),
            out@ + cum_lengths(lens@.skip(k as int), pos) == cum_lengths(lens@, base),
        decreases lens@.len() - k,
    {
        proof {
            assert(lens@.skip(k as int)[0] == lens@[k as int]);
            assert(lens@.skip(k as int).drop_first() =~= lens@.skip(k as int + 1));
            lemma_total_nonneg(lens@.skip(k as int + 1));
        }
        let next = pos + lens[k];
        let ghost old_out = out@;
        if pos < next {
            out.push((pos, next));
        }
        proof {
            assert(out@ + cum_lengths(lens@.skip(k as int + 1), next) =~= old_out + cum_lengths(
                lens@.skip(k as int),
                pos,
            ));
        }
        pos = next;
        k = k + 1;
    }
    proof {
        assert(lens@.skip(k as int) =~= Seq::<usize>::empty());
        assert(out@ + Seq::<(usize, usize)>::empty() =~= out@);
    }
    out
}

proof fn lemma_total_nonneg(lens: Seq<usize>)
    ensures
        total(lens) >= 0,
    decreases lens.len(),
{
    if lens.len() > 0 {
        lemma_total_nonneg(lens.drop_first());
    }
}

/// The sections that `level` cuts `text[c..]` into (see
/// [`fallback_sections`]).
pub fn fallback_pieces(text: &CharText, c: usize, level: FallbackLevel) -> (pieces: Vec<
    (usize, usize),
>)
    requires
        text.wf(),
        c <= text.chars().len(),
    ensures
        pieces@ == fallback_sections(level, text.chars(), c),
{
    let n = text.len();
    let ghost t = text.chars();
    let ghost segs = segments(level, t.subrange(c as int, n as int));
    let lens = segment_lengths(text, c, level);
    proof {
        text.lemma_wf_bounds();
        lemma_concat_segments(level, t.subrange(c as int, n as int));
        lemma_cum_lengths_pieces(lens@, segs, c);
    }
    sections_of_lengths(&lens, c)
}


/// Consecutive pieces that concatenate to `t[base..]`, placed from `base`,
/// tile `t[base..]` (empty pieces dropped).
pub proof fn lemma_cum_tiles(ps: Seq<Seq<char>>, base: usize, end: int)
    requires
        base + concat(ps).len() == end,
        end <= usize::MAX,
    ensures
        crate::element::tiles(cum_pieces(ps, base), base as int, end),
    decreases ps.len(),
{
    if ps.len() > 0 {
        lemma_concat_append(seq![ps[0]], ps.drop_first());
        assert(ps =~= seq![ps[0]] + ps.drop_first());
        assert(seq![ps[0]].drop_last() =~= Seq::<Seq<char>>::empty());
        reveal_with_fuel(concat, 2);
        assert(concat(seq![ps[0]]) =~= ps[0]);
        let next = (base + ps[0].len()) as usize;
        lemma_cum_tiles(ps.drop_first(), next, end);
        crate::element::lemma_tiles_prepend(cum_pieces(ps.drop_first(), next), base, next, end);
    } else {
        assert(cum_pieces(ps, base) =~= Seq::<(usize, usize)>::empty());
    }
}

/// The sections of a fallback level tile `t[c..]`.
pub proof fn lemma_fallback_sections_tile(t: Seq<char>, c: usize, level: FallbackLevel)
    requires
        c <= t.len() <= usize::MAX,
    ensures
        crate::element::tiles(fallback_sections(level, t, c), c as int, t.len() as int),
{
    lemma_concat_segments(level, t.subrange(c as int, t.len() as int));
    lemma_cum_tiles(segments(level, t.subrange(c as int, t.len() as int)), c, t.len() as int);
}

} // verus!
