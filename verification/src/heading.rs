//! Heading levels and the heading hierarchy active at a point of a document.

use vstd::prelude::*;

verus! {

/// Heading levels in markdown.
/// Sorted in reverse order for sorting purposes.
#[derive(Clone, Copy, Debug, PartialEq, Eq, Structural, PartialOrd, Ord, Hash)]
pub enum HeadingLevel {
    /// Level 6 heading (`######`) — the smallest break.
    H6,
    /// Level 5 heading (`#####`).
    H5,
    /// Level 4 heading (`####`).
    H4,
    /// Level 3 heading (`###`).
    H3,
    /// Level 2 heading (`##`).
    H2,
    /// Level 1 heading (`#`) — the largest break.
    H1,
}

/// The depth of a heading level: `H1 → 1`, … `H6 → 6`.
pub open spec fn level_depth(level: HeadingLevel) -> int {
    match level {
        HeadingLevel::H1 => 1,
        HeadingLevel::H2 => 2,
        HeadingLevel::H3 => 3,
        HeadingLevel::H4 => 4,
        HeadingLevel::H5 => 5,
        HeadingLevel::H6 => 6,
    }
}

/// The heading level of a given depth (`1 → H1`, … `6 → H6`).
pub open spec fn level_of_depth(depth: int) -> HeadingLevel {
    if depth <= 1 {
        HeadingLevel::H1
    } else if depth == 2 {
        HeadingLevel::H2
    } else if depth == 3 {
        HeadingLevel::H3
    } else if depth == 4 {
        HeadingLevel::H4
    } else if depth == 5 {
        HeadingLevel::H5
    } else {
        HeadingLevel::H6
    }
}

impl HeadingLevel {
    /// All six heading levels in shallow-to-deep order: `[H1, H2, …, H6]`.
    pub const ALL: [HeadingLevel; 6] = [
        HeadingLevel::H1,
        HeadingLevel::H2,
        HeadingLevel::H3,
        HeadingLevel::H4,
        HeadingLevel::H5,
        HeadingLevel::H6,
    ];

    /// The heading depth: `H1 → 1`, `H2 → 2`, … `H6 → 6`. Matches the number
    /// of `#` characters in the source (and the variant name).
    pub fn depth(self) -> (d: usize)
        ensures
            d == level_depth(self),
            1 <= d <= 6,
    {
        match self {
            HeadingLevel::H1 => 1,
            HeadingLevel::H2 => 2,
            HeadingLevel::H3 => 3,
            HeadingLevel::H4 => 4,
            HeadingLevel::H5 => 5,
            HeadingLevel::H6 => 6,
        }
    }

    /// The heading level of depth `depth` (`1 → H1`, … `6 → H6`).
    pub fn from_depth(depth: usize) -> (level: HeadingLevel)
        requires
            1 <= depth <= 6,
        ensures
            level == level_of_depth(depth as int),
            level_depth(level) == depth,
    {
        if depth == 1 {
            HeadingLevel::H1
        } else if depth == 2 {
            HeadingLevel::H2
        } else if depth == 3 {
            HeadingLevel::H3
        } else if depth == 4 {
            HeadingLevel::H4
        } else if depth == 5 {
            HeadingLevel::H5
        } else {
            HeadingLevel::H6
        }
    }
}

/// Depth and level are each other's inverse: every level has a depth in
/// `1..=6`, and the level of that depth is the level itself.
pub proof fn lemma_depth_roundtrip(level: HeadingLevel, depth: int)
    requires
        1 <= depth <= 6,
    ensures
        1 <= level_depth(level) <= 6,
        level_of_depth(level_depth(level)) == level,
        level_depth(level_of_depth(depth)) == depth,
{
}


/// The text of a heading, if there is one, as characters.
pub open spec fn opt_view<'text>(o: Option<&'text str>) -> Option<Seq<char>> {
    match o {
        Some(t) => Some(t@),
        None => None,
    }
}

/// The state of the six heading slots after a heading of `level` with text
/// `text`: slots shallower than `level` are kept, the slot of `level` holds
/// `text`, and every deeper slot is cleared.
pub open spec fn set_level(
    slots: Seq<Option<Seq<char>>>,
    level: HeadingLevel,
    text: Seq<char>,
) -> Seq<Option<Seq<char>>> {
    Seq::new(
        6,
        |i: int|
            if i < level_depth(level) - 1 {
                slots[i]
            } else if i == level_depth(level) - 1 {
                Some(text)
            } else {
                None
            },
    )
}

/// The deepest occupied slot among the first `k` slots, as `(level, text)`.
pub open spec fn deepest_within(slots: Seq<Option<Seq<char>>>, k: int) -> Option<
    (HeadingLevel, Seq<char>),
>
    decreases k,
{
    if k <= 0 {
        None
    } else {
        match slots[k - 1] {
            Some(t) => Some((level_of_depth(k), t)),
            None => deepest_within(slots, k - 1),
        }
    }
}

/// The occupied slots among the first `k` slots, shallow to deep.
pub open spec fn active_within(slots: Seq<Option<Seq<char>>>, k: int) -> Seq<
    (HeadingLevel, Seq<char>),
>
    decreases k,
{
    if k <= 0 {
        Seq::empty()
    } else {
        match slots[k - 1] {
            Some(t) => active_within(slots, k - 1).push((level_of_depth(k), t)),
            None => active_within(slots, k - 1),
        }
    }
}

/// A `(level, text)` pair with the text as characters.
pub open spec fn entry_view<'text>(e: (HeadingLevel, &'text str)) -> (HeadingLevel, Seq<char>) {
    (e.0, e.1@)
}

/// The heading hierarchy active at a given point in the document.
///
/// Semantics: when a heading at level `L` appears in the source, it replaces
/// the previous entry at level `L` and clears every entry at deeper levels
/// (consistent with how markdown headings nest).
#[derive(Clone, Copy, Debug, PartialEq, Eq)]
pub struct HeadingContext<'text> {
    levels: [Option<&'text str>; 6],
}

impl<'text> View for HeadingContext<'text> {
    type V = Seq<Option<Seq<char>>>;

    /// Slot `i` holds the text of the active heading of depth `i + 1`.
    closed spec fn view(&self) -> Seq<Option<Seq<char>>> {
        Seq::new(6, |i: int| opt_view(self.levels@[i]))
    }
}

/// A heading context always has exactly six slots.
pub broadcast proof fn lemma_context_len<'text>(ctx: HeadingContext<'text>)
    ensures
        #[trigger] ctx@.len() == 6,
{
}

/// Six empty slots: no heading seen yet.
pub open spec fn empty_slots() -> Seq<Option<Seq<char>>> {
    Seq::new(6, |i: int| None)
}

impl<'text> Default for HeadingContext<'text> {
    fn default() -> (ctx: Self)
        ensures
            ctx@ == empty_slots(),
    {
        let ctx = HeadingContext { levels: [None, None, None, None, None, None] };
        assert(ctx@ =~= empty_slots());
        ctx
    }
}

impl<'text> HeadingContext<'text> {
    /// Heading text at the given level, if one is active.
    pub fn at(&self, level: HeadingLevel) -> (text: Option<&'text str>)
        ensures
            opt_view(text) == self@[level_depth(level) - 1],
    {
        self.levels[level.depth() - 1]
    }

    /// The deepest active heading: `(level, text)`. Returns `None` if no
    /// heading has been seen yet (preamble content).
    pub fn deepest(&self) -> (found: Option<(HeadingLevel, &'text str)>)
        ensures
            match found {
                Some(e) => deepest_within(self@, 6) == Some(entry_view(e)),
                None => deepest_within(self@, 6) is None,
            },
    {
        let mut k: usize = 6;
        while k > 0
            invariant
                k <= 6,
                self@.len() == 6,
                deepest_within(self@, 6) == deepest_within(self@, k as int),
            decreases k,
        {
            match self.levels[k - 1] {
                Some(t) => {
                    return Some((HeadingLevel::from_depth(k), t));
                },
                None => {
                    k = k - 1;
                },
            }
        }
        None
    }

    /// Active headings from H1 → H6 (shallow to deep).
    pub fn iter(&self) -> (active: Vec<(HeadingLevel, &'text str)>)
        ensures
            active@.map_values(|e: (HeadingLevel, &'text str)| entry_view(e)) == active_within(
                self@,
                6,
            ),
    {
        let mut active: Vec<(HeadingLevel, &'text str)> = Vec::new();
        let mut k: usize = 0;
        while k < 6
            invariant
                k <= 6,
                self@.len() == 6,
                active@.map_values(|e: (HeadingLevel, &'text str)| entry_view(e)) == active_within(
                    self@,
                    k as int,
                ),
            decreases 6 - k,
        {
            let ghost before = active@;
            match self.levels[k] {
                Some(t) => {
                    active.push((HeadingLevel::from_depth(k + 1), t));
                    proof {
                        assert(active@.map_values(|e: (HeadingLevel, &'text str)| entry_view(e))
                            =~= before.map_values(|e: (HeadingLevel, &'text str)| entry_view(e)).push(
                            (level_of_depth(k + 1), t@),
                        ));
                    }
                },
                None => {},
            }
            k = k + 1;
        }
        active
    }

    /// Record a heading of `level` with `text`: it replaces the entry at
    /// `level` and clears every deeper entry.
    pub fn set(&mut self, level: HeadingLevel, text: &'text str)
        ensures
            final(self)@ == set_level(old(self)@, level, text@),
    {
        let idx = level.depth() - 1;
        self.levels[idx] = Some(text);
        let mut i: usize = idx + 1;
        while i < 6
            invariant
                idx < i <= 6,
                idx == level_depth(level) - 1,
                self@.len() == 6,
                forall|j: int| 0 <= j < idx ==> self.levels@[j] == old(self).levels@[j],
                self.levels@[idx as int] == Some(text),
                forall|j: int| idx < j < i ==> self.levels@[j] is None,
            decreases 6 - i,
        {
            self.levels[i] = None;
            i = i + 1;
        }
        assert(self@ =~= set_level(old(self)@, level, text@));
    }
}

/// After a heading is set, it is the deepest active heading.
pub proof fn lemma_set_makes_deepest(
    slots: Seq<Option<Seq<char>>>,
    level: HeadingLevel,
    text: Seq<char>,
)
    requires
        slots.len() == 6,
    ensures
        deepest_within(set_level(slots, level, text), 6) == Some((level, text)),
{
    reveal_with_fuel(deepest_within, 7);
}

/// The deepest active heading is the last of the active headings listed
/// shallow to deep, and there is none exactly when no heading is active.
pub proof fn lemma_deepest_is_last_active(slots: Seq<Option<Seq<char>>>, k: int)
    requires
        0 <= k <= slots.len(),
    ensures
        deepest_within(slots, k) == (if active_within(slots, k).len() == 0 {
            None
        } else {
            Some(active_within(slots, k).last())
        }),
    decreases k,
{
    if k > 0 {
        lemma_deepest_is_last_active(slots, k - 1);
    }
}

/// Setting a heading twice in a row with the same level and text has the
/// same effect as setting it once.
pub proof fn lemma_set_idempotent(slots: Seq<Option<Seq<char>>>, level: HeadingLevel, text: Seq<char>)
    requires
        slots.len() == 6,
    ensures
        set_level(set_level(slots, level, text), level, text) == set_level(slots, level, text),
{
    assert(set_level(set_level(slots, level, text), level, text) =~= set_level(slots, level, text));
}

/// A heading at a shallower or equal level erases every heading recorded
/// before it at deeper levels: the result does not depend on those.
pub proof fn lemma_set_overrides_deeper(
    slots: Seq<Option<Seq<char>>>,
    deep: HeadingLevel,
    deep_text: Seq<char>,
    shallow: HeadingLevel,
    shallow_text: Seq<char>,
)
    requires
        slots.len() == 6,
        level_depth(shallow) <= level_depth(deep),
    ensures
        set_level(set_level(slots, deep, deep_text), shallow, shallow_text) == set_level(
            slots,
            shallow,
            shallow_text,
        ),
{
    assert(set_level(set_level(slots, deep, deep_text), shallow, shallow_text) =~= set_level(
        slots,
        shallow,
        shallow_text,
    ));
}

/// `(start_byte, level, text)` per heading.
pub type HeadingRecord<'text> = (usize, HeadingLevel, &'text str);

/// A heading as characters: `(start_byte, level, text)`.
pub type HeadingEntry = (usize, HeadingLevel, Seq<char>);

/// The headings with their texts as characters.
pub open spec fn record_entries<'text>(records: Seq<HeadingRecord<'text>>) -> Seq<HeadingEntry> {
    records.map_values(|r: HeadingRecord<'text>| (r.0, r.1, r.2@))
}

/// The slots after recording, in order, every heading of `headings`.
pub open spec fn apply_headings(
    slots: Seq<Option<Seq<char>>>,
    headings: Seq<HeadingEntry>,
) -> Seq<Option<Seq<char>>>
    decreases headings.len(),
{
    if headings.len() == 0 {
        slots
    } else {
        set_level(apply_headings(slots, headings.drop_last()), headings.last().1, headings.last().2)
    }
}

/// Where a walk over `headings` that starts at `idx` stops when it takes
/// every heading that starts at or before `offset`.
pub open spec fn advance_end(headings: Seq<HeadingEntry>, idx: int, offset: int) -> int
    decreases headings.len() - idx,
{
    if 0 <= idx < headings.len() && headings[idx].0 <= offset {
        advance_end(headings, idx + 1, offset)
    } else {
        idx
    }
}

/// Headings are listed by non-decreasing start.
pub open spec fn starts_sorted(headings: Seq<HeadingEntry>) -> bool {
    forall|i: int, j: int| 0 <= i <= j < headings.len() ==> headings[i].0 <= headings[j].0
}

/// Advance `ctx` so it reflects every heading whose byte offset is `<=
/// byte_offset`. Mutates `*idx` so subsequent calls resume where we left off.
pub fn advance_context<'text>(
    ctx: &mut HeadingContext<'text>,
    headings: &[HeadingRecord<'text>],
    idx: &mut usize,
    byte_offset: usize,
)
    ensures
        *final(idx) == advance_end(record_entries(headings@), *old(idx) as int, byte_offset as int),
        *old(idx) <= headings@.len() ==> final(ctx)@ == apply_headings(
            old(ctx)@,
            record_entries(headings@).subrange(*old(idx) as int, *final(idx) as int),
        ),
        *old(idx) > headings@.len() ==> final(ctx)@ == old(ctx)@,
{
    let ghost hs = record_entries(headings@);
    let start = *idx;
    let mut i = start;
    while i < headings.len() && headings[i].0 <= byte_offset
        invariant
            hs == record_entries(headings@),
            start <= i,
            start <= headings@.len() ==> i <= headings@.len(),
            advance_end(hs, start as int, byte_offset as int) == advance_end(
                hs,
                i as int,
                byte_offset as int,
            ),
            start <= headings@.len() ==> ctx@ == apply_headings(
                old(ctx)@,
                hs.subrange(start as int, i as int),
            ),
            start > headings@.len() ==> ctx@ == old(ctx)@ && i == start,
        decreases headings@.len() - i,
    {
        let (_, level, text) = headings[i];
        ctx.set(level, text);
        i = i + 1;
        assert(hs.subrange(start as int, i as int).drop_last() =~= hs.subrange(
            start as int,
            i - 1,
        ));
    }
    *idx = i;
}

/// A walk never goes back and never passes the end of the list.
pub proof fn lemma_advance_end_bounds(headings: Seq<HeadingEntry>, idx: int, offset: int)
    requires
        0 <= idx <= headings.len(),
    ensures
        idx <= advance_end(headings, idx, offset) <= headings.len(),
    decreases headings.len() - idx,
{
    if idx < headings.len() && headings[idx].0 <= offset {
        lemma_advance_end_bounds(headings, idx + 1, offset);
    }
}

/// Recording a list of headings in two runs is the same as recording the
/// whole list at once.
pub proof fn lemma_apply_headings_append(
    slots: Seq<Option<Seq<char>>>,
    first: Seq<HeadingEntry>,
    second: Seq<HeadingEntry>,
)
    ensures
        apply_headings(apply_headings(slots, first), second) == apply_headings(
            slots,
            first + second,
        ),
    decreases second.len(),
{
    if second.len() > 0 {
        lemma_apply_headings_append(slots, first, second.drop_last());
        assert((first + second).drop_last() =~= first + second.drop_last());
    } else {
        assert(first + second =~= first);
    }
}

/// On headings sorted by start, walking from the beginning up to `offset`
/// stops right after the last heading that starts at or before `offset`:
/// every heading before the stop starts at or before `offset`, every heading
/// from the stop on starts after it.
pub proof fn lemma_advance_end_splits(headings: Seq<HeadingEntry>, idx: int, offset: int)
    requires
        starts_sorted(headings),
        0 <= idx <= headings.len(),
        forall|i: int| 0 <= i < idx ==> headings[i].0 <= offset,
    ensures
        idx <= advance_end(headings, idx, offset) <= headings.len(),
        forall|i: int|
            0 <= i < advance_end(headings, idx, offset) ==> headings[i].0 <= offset,
        forall|i: int|
            advance_end(headings, idx, offset) <= i < headings.len() ==> headings[i].0 > offset,
    decreases headings.len() - idx,
{
    if idx < headings.len() && headings[idx].0 <= offset {
        lemma_advance_end_splits(headings, idx + 1, offset);
    }
}

/// Advancing one walk to `o1` and then to a later `o2` ends where a walk
/// straight to `o2` ends, when the headings are sorted by start.
pub proof fn lemma_advance_end_resume(headings: Seq<HeadingEntry>, o1: int, o2: int)
    requires
        starts_sorted(headings),
        o1 <= o2,
    ensures
        advance_end(headings, advance_end(headings, 0, o1), o2) == advance_end(headings, 0, o2),
{
    lemma_advance_end_splits(headings, 0, o1);
    lemma_advance_end_splits(headings, 0, o2);
    let a = advance_end(headings, 0, o1);
    lemma_advance_end_splits(headings, a, o2);
    let b1 = advance_end(headings, a, o2);
    let b2 = advance_end(headings, 0, o2);
    if b1 < b2 {
        assert(headings[b1].0 > o2);
    } else if b2 < b1 {
        assert(headings[b2].0 > o2);
    }
}

} // verus!
