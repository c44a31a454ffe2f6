//! Trimming white space around a chunk while keeping the indentation of
//! multi-line chunks, and the size of a chunk in characters.

use vstd::prelude::*;
use crate::text::{CharText, is_ws, is_whitespace};

verus! {

/// The first index in `[i, j)` that is not white space, or `j`.
pub open spec fn first_non_ws(t: Seq<char>, i: int, j: int) -> int
    decreases j - i,
{
    if i >= j {
        j
    } else if !is_ws(t[i]) {
        i
    } else {
        first_non_ws(t, i + 1, j)
    }
}

/// One past the last index in `[i, j)` that is not white space, or `i`.
pub open spec fn end_non_ws(t: Seq<char>, i: int, j: int) -> int
    decreases j - i,
{
    if j <= i {
        i
    } else if !is_ws(t[j - 1]) {
        j
    } else {
        end_non_ws(t, i, j - 1)
    }
}

/// The first index in `[i, j)` that is neither `'\r'` nor `'\n'`, or `j`.
pub open spec fn first_non_newline(t: Seq<char>, i: int, j: int) -> int
    decreases j - i,
{
    if i >= j {
        j
    } else if t[i] != '\r' && t[i] != '\n' {
        i
    } else {
        first_non_newline(t, i + 1, j)
    }
}

/// `t[i..j]` holds a line break.
pub open spec fn has_newline(t: Seq<char>, i: int, j: int) -> bool {
    exists|k: int| i <= k < j && t[k] == '\n'
}

/// The trimmed part of `t[i..j]`: without white space at either end; but
/// when what is left spans several lines, only the leading line breaks are
/// removed at the start, so that the indentation of the first line stays.
/// An all white space chunk trims to the empty range at its end.
pub open spec fn trim_range(t: Seq<char>, i: int, j: int) -> (int, int) {
    let a = first_non_ws(t, i, j);
    if a >= j {
        (j, j)
    } else {
        let b = end_non_ws(t, a, j);
        if has_newline(t, a, b) {
            (first_non_newline(t, i, j), b)
        } else {
            (a, b)
        }
    }
}

/// The size of the chunk `t[i..j]` in characters, measured after trimming
/// when `trim` is set.
pub open spec fn chunk_size(t: Seq<char>, trim: bool, i: int, j: int) -> int {
    if trim {
        trim_range(t, i, j).1 - trim_range(t, i, j).0
    } else {
        j - i
    }
}

/// Bounds of the trimmed parts.
pub proof fn lemma_trim_bounds(t: Seq<char>, i: int, j: int)
    requires
        0 <= i <= j <= t.len(),
    ensures
        i <= trim_range(t, i, j).0 <= trim_range(t, i, j).1 <= j,
        i <= first_non_ws(t, i, j) <= j,
    decreases j - i,
{
    lemma_first_non_ws(t, i, j);
    let a = first_non_ws(t, i, j);
    if a < j {
        lemma_end_non_ws(t, a, j);
        lemma_first_non_newline(t, i, j);
        let f = first_non_newline(t, i, j);
        if f > a {
            assert(t[a] == '\r' || t[a] == '\n');
            assert(is_ws(t[a]));
        }
    }
}

/// `first_non_ws` finds the first character that is not white space.
pub proof fn lemma_first_non_ws(t: Seq<char>, i: int, j: int)
    requires
        0 <= i <= j <= t.len(),
    ensures
        i <= first_non_ws(t, i, j) <= j,
        forall|k: int| i <= k < first_non_ws(t, i, j) ==> is_ws(#[trigger] t[k]),
        first_non_ws(t, i, j) < j ==> !is_ws(t[first_non_ws(t, i, j)]),
    decreases j - i,
{
    if i < j && is_ws(t[i]) {
        lemma_first_non_ws(t, i + 1, j);
    }
}

/// `end_non_ws` finds one past the last character that is not white space.
pub proof fn lemma_end_non_ws(t: Seq<char>, i: int, j: int)
    requires
        0 <= i <= j <= t.len(),
    ensures
        i <= end_non_ws(t, i, j) <= j,
        forall|k: int| end_non_ws(t, i, j) <= k < j ==> is_ws(#[trigger] t[k]),
        end_non_ws(t, i, j) > i ==> !is_ws(t[end_non_ws(t, i, j) - 1]),
    decreases j - i,
{
    if j > i && is_ws(t[j - 1]) {
        lemma_end_non_ws(t, i, j - 1);
    }
}

/// `first_non_newline` finds the first character that is no line break.
pub proof fn lemma_first_non_newline(t: Seq<char>, i: int, j: int)
    requires
        0 <= i <= j <= t.len(),
    ensures
        i <= first_non_newline(t, i, j) <= j,
        forall|k: int|
            i <= k < first_non_newline(t, i, j) ==> #[trigger] t[k] == '\r' || t[k] == '\n',
        first_non_newline(t, i, j) < j ==> t[first_non_newline(t, i, j)] != '\r' && t[first_non_newline(t, i, j)] != '\n',
    decreases j - i,
{
    if i < j && (t[i] == '\r' || t[i] == '\n') {
        lemma_first_non_newline(t, i + 1, j);
    }
}

/// `t[a..b]` is trimmed: it ends with a character that is not white space,
/// does not start with a line break, and starts with white space only as
/// the indentation of a piece that spans several lines.
pub open spec fn is_trimmed(t: Seq<char>, a: int, b: int) -> bool {
    &&& !is_ws(t[b - 1])
    &&& t[a] != '\r' && t[a] != '\n'
    &&& is_ws(t[a]) ==> has_newline(t, a, b)
}

/// What trimming leaves of a piece is trimmed, when anything is left.
pub proof fn lemma_trim_range_trimmed(t: Seq<char>, i: int, j: int)
    requires
        0 <= i <= j <= t.len(),
    ensures
        trim_range(t, i, j).0 < trim_range(t, i, j).1 ==> is_trimmed(
            t,
            trim_range(t, i, j).0,
            trim_range(t, i, j).1,
        ),
{
    lemma_first_non_ws(t, i, j);
    let a0 = first_non_ws(t, i, j);
    if a0 < j {
        lemma_end_non_ws(t, a0, j);
        let b = end_non_ws(t, a0, j);
        if b == a0 {
            assert(is_ws(t[a0]));
        }
        if has_newline(t, a0, b) {
            lemma_first_non_newline(t, i, j);
            let a = first_non_newline(t, i, j);
            if a > a0 {
                assert(t[a0] == '\r' || t[a0] == '\n');
                assert(is_ws(t[a0]));
            }
            let k = choose|k: int| a0 <= k < b && t[k] == '\n';
            assert(a <= k < b && t[k] == '\n');
        }
    }
}

proof fn lemma_first_non_ws_extends(t: Seq<char>, c: int, e1: int, e2: int)
    requires
        0 <= c <= e1 <= e2 <= t.len(),
        first_non_ws(t, c, e1) < e1,
    ensures
        first_non_ws(t, c, e2) == first_non_ws(t, c, e1),
        first_non_newline(t, c, e2) == first_non_newline(t, c, e1),
        first_non_newline(t, c, e1) <= first_non_ws(t, c, e1),
{
    lemma_first_non_ws(t, c, e1);
    lemma_first_non_ws(t, c, e2);
    lemma_first_non_newline(t, c, e1);
    lemma_first_non_newline(t, c, e2);
    let a1 = first_non_ws(t, c, e1);
    let a2 = first_non_ws(t, c, e2);
    if a2 < a1 {
        assert(is_ws(t[a2]));
    }
    if a2 > a1 {
        assert(is_ws(t[a1]));
    }
    let f1 = first_non_newline(t, c, e1);
    let f2 = first_non_newline(t, c, e2);
    if f1 > a1 {
        assert(t[a1] == '\r' || t[a1] == '\n');
        assert(is_ws(t[a1]));
    }
    if f2 > a1 {
        assert(t[a1] == '\r' || t[a1] == '\n');
        assert(is_ws(t[a1]));
    }
    if f1 < f2 {
        assert(t[f1] == '\r' || t[f1] == '\n');
    }
    if f2 < f1 {
        assert(t[f2] == '\r' || t[f2] == '\n');
    }
}

/// The size of a chunk never shrinks as the chunk reaches further: the
/// trimmed part of a longer chunk is at least as long.
pub proof fn lemma_chunk_size_monotone(t: Seq<char>, trim: bool, c: int, e1: int, e2: int)
    requires
        0 <= c <= e1 <= e2 <= t.len(),
    ensures
        chunk_size(t, trim, c, e1) <= chunk_size(t, trim, c, e2),
{
    if trim {
        lemma_trim_bounds(t, c, e1);
        lemma_trim_bounds(t, c, e2);
        lemma_first_non_ws(t, c, e1);
        let a = first_non_ws(t, c, e1);
        if a < e1 {
            lemma_first_non_ws_extends(t, c, e1, e2);
            lemma_end_non_ws(t, a, e1);
            lemma_end_non_ws(t, a, e2);
            let b1 = end_non_ws(t, a, e1);
            let b2 = end_non_ws(t, a, e2);
            if b1 == a {
                assert(is_ws(t[a]));
            }
            if b2 < b1 {
                assert(is_ws(t[b1 - 1]));
            }
            if has_newline(t, a, b1) {
                let k = choose|k: int| a <= k < b1 && t[k] == '\n';
                assert(a <= k < b2 && t[k] == '\n');
            }
        }
    }
}

/// A chunk that fits still fits when it ends earlier.
pub proof fn lemma_fits_shorter(t: Seq<char>, trim: bool, max: int, c: int, e1: int, e2: int)
    requires
        0 <= c <= e1 <= e2 <= t.len(),
        chunk_size(t, trim, c, e2) <= max,
    ensures
        chunk_size(t, trim, c, e1) <= max,
{
    lemma_chunk_size_monotone(t, trim, c, e1, e2);
}

/// The trimmed part of a chunk (see [`trim_range`]).
pub fn trim_bounds(text: &CharText, i: usize, j: usize) -> (r: (usize, usize))
    requires
        text.wf(),
        i <= j <= text.chars().len(),
    ensures
        r.0 == trim_range(text.chars(), i as int, j as int).0,
        r.1 == trim_range(text.chars(), i as int, j as int).1,
        i <= r.0 <= r.1 <= j,
{
    let ghost t = text.chars();
    proof {
        lemma_trim_bounds(t, i as int, j as int);
    }
    let mut a = i;
    while a < j && is_whitespace(text.char_at(a))
        invariant
            text.wf(),
            t == text.chars(),
            i <= a <= j <= t.len(),
            first_non_ws(t, i as int, j as int) == first_non_ws(t, a as int, j as int),
        decreases j - a,
    {
        a = a + 1;
    }
    if a >= j {
        return (j, j);
    }
    let mut b = j;
    while b > a && is_whitespace(text.char_at(b - 1))
        invariant
            text.wf(),
            t == text.chars(),
            a <= b <= j <= t.len(),
            end_non_ws(t, a as int, j as int) == end_non_ws(t, a as int, b as int),
        decreases b - a,
    {
        b = b - 1;
    }
    let mut k = a;
    let mut newline = false;
    while k < b
        invariant
            text.wf(),
            t == text.chars(),
            a <= k <= b <= t.len(),
            newline == has_newline(t, a as int, k as int),
        decreases b - k,
    {
        if text.char_at(k) == '\n' {
            newline = true;
        }
        k = k + 1;
        proof {
            if t[k - 1] == '\n' {
                assert(has_newline(t, a as int, k as int));
            }
            if has_newline(t, a as int, k as int) && !has_newline(t, a as int, k - 1) {
                assert(t[k - 1] == '\n');
            }
        }
    }
    if newline {
        let mut f = i;
        while f < j && (text.char_at(f) == '\r' || text.char_at(f) == '\n')
            invariant
                text.wf(),
                t == text.chars(),
                i <= f <= j <= t.len(),
                first_non_newline(t, i as int, j as int) == first_non_newline(
                    t,
                    f as int,
                    j as int,
                ),
            decreases j - f,
        {
            f = f + 1;
        }
        (f, b)
    } else {
        (a, b)
    }
}

/// The size of the chunk `text[i..j]` (see [`chunk_size`]).
pub fn size_of_chunk(text: &CharText, trim: bool, i: usize, j: usize) -> (size: usize)
    requires
        text.wf(),
        i <= j <= text.chars().len(),
    ensures
        size == chunk_size(text.chars(), trim, i as int, j as int),
        size <= j - i,
{
    if trim {
        let (a, b) = trim_bounds(text, i, j);
        b - a
    } else {
        j - i
    }
}

} // verus!
