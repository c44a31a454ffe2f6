//! The element ranges of a document, ordered by position, and the ranges
//! that a given level uses to cut the text after a position.

use vstd::prelude::*;
use crate::element::{Element, LevelRange, rank, ranges_within};
use crate::heading::{HeadingLevel, level_depth};

verus! {

/// `x` comes no later than `y`: ranges are ordered by start, and among
/// ranges with the same start the longer one comes first.
pub open spec fn range_le(x: LevelRange, y: LevelRange) -> bool {
    x.1 < y.1 || (x.1 == y.1 && x.2 >= y.2)
}

/// `s` (ordered) with `x` inserted after every range that comes no later.
pub open spec fn insert_range(s: Seq<LevelRange>, x: LevelRange) -> Seq<LevelRange>
    decreases s.len(),
{
    if s.len() == 0 || range_le(s.last(), x) {
        s.push(x)
    } else {
        insert_range(s.drop_last(), x).push(s.last())
    }
}

/// The ranges ordered by start, longer first among equal starts, ranges that
/// compare equal keeping their order.
pub open spec fn sort_ranges(s: Seq<LevelRange>) -> Seq<LevelRange>
    decreases s.len(),
{
    if s.len() == 0 {
        s
    } else {
        insert_range(sort_ranges(s.drop_last()), s.last())
    }
}

/// Ordered by [`range_le`].
pub open spec fn is_sorted(s: Seq<LevelRange>) -> bool {
    forall|i: int, j: int| 0 <= i < j < s.len() ==> range_le(s[i], s[j])
}

proof fn lemma_insert_range(s: Seq<LevelRange>, x: LevelRange)
    ensures
        insert_range(s, x).len() == s.len() + 1,
        forall|r: LevelRange| #[trigger] insert_range(s, x).contains(r) <==> (s.contains(r) || r == x),
        is_sorted(s) ==> is_sorted(insert_range(s, x)),
    decreases s.len(),
{
    let r = insert_range(s, x);
    if s.len() == 0 || range_le(s.last(), x) {
        assert forall|q: LevelRange| #[trigger] r.contains(q) <==> (s.contains(q) || q == x) by {
            if r.contains(q) {
                let i = choose|i: int| 0 <= i < r.len() && r[i] == q;
                if i < s.len() {
                    assert(s[i] == q);
                }
            }
            if s.contains(q) {
                let i = choose|i: int| 0 <= i < s.len() && s[i] == q;
                assert(r[i] == q);
            }
            if q == x {
                assert(r[s.len() as int] == q);
            }
        }
        if is_sorted(s) {
            assert forall|i: int, j: int| 0 <= i < j < r.len() implies range_le(r[i], r[j]) by {
                if j == s.len() {
                    assert(range_le(s[i], s.last()));
                }
            }
        }
    } else {
        let p = s.drop_last();
        lemma_insert_range(p, x);
        let q0 = insert_range(p, x);
        assert forall|q: LevelRange| #[trigger] r.contains(q) <==> (s.contains(q) || q == x) by {
            if r.contains(q) {
                let i = choose|i: int| 0 <= i < r.len() && r[i] == q;
                if i < q0.len() {
                    assert(q0[i] == q);
                    assert(q0.contains(q));
                    if p.contains(q) {
                        let k = choose|k: int| 0 <= k < p.len() && p[k] == q;
                        assert(s[k] == q);
                    }
                } else {
                    assert(s[s.len() - 1] == q);
                }
            }
            if s.contains(q) {
                let i = choose|i: int| 0 <= i < s.len() && s[i] == q;
                if i < p.len() {
                    assert(p[i] == q);
                    assert(q0.contains(q));
                    let k = choose|k: int| 0 <= k < q0.len() && q0[k] == q;
                    assert(r[k] == q);
                } else {
                    assert(r[q0.len() as int] == q);
                }
            }
            if q == x {
                assert(q0.contains(x));
                let k = choose|k: int| 0 <= k < q0.len() && q0[k] == x;
                assert(r[k] == x);
            }
        }
        if is_sorted(s) {
            assert(is_sorted(p));
            assert forall|i: int, j: int| 0 <= i < j < r.len() implies range_le(r[i], r[j]) by {
                if j == q0.len() {
                    assert(q0.contains(r[i]));
                    if r[i] == x {
                        assert(!range_le(s.last(), x));
                    } else {
                        assert(p.contains(r[i]));
                        let k = choose|k: int| 0 <= k < p.len() && p[k] == r[i];
                        assert(range_le(s[k], s[s.len() - 1]));
                    }
                }
            }
        }
    }
}

/// Ordering keeps the ranges: the same ranges, as many, ordered.
pub proof fn lemma_sort_ranges(s: Seq<LevelRange>)
    ensures
        sort_ranges(s).len() == s.len(),
        forall|r: LevelRange| #[trigger] sort_ranges(s).contains(r) <==> s.contains(r),
        is_sorted(sort_ranges(s)),
    decreases s.len(),
{
    if s.len() > 0 {
        lemma_sort_ranges(s.drop_last());
        lemma_insert_range(sort_ranges(s.drop_last()), s.last());
        assert forall|r: LevelRange| #[trigger] sort_ranges(s).contains(r) <==> s.contains(r) by {
            if s.contains(r) {
                let i = choose|i: int| 0 <= i < s.len() && s[i] == r;
                if i < s.len() - 1 {
                    assert(s.drop_last()[i] == r);
                    assert(s.drop_last().contains(r));
                }
            }
            if s.drop_last().contains(r) {
                let i = choose|i: int| 0 <= i < s.drop_last().len() && s.drop_last()[i] == r;
                assert(s[i] == r);
            }
        }
    }
}

/// Ordering keeps every range within the text.
pub proof fn lemma_sort_within(s: Seq<LevelRange>, n: int)
    requires
        ranges_within(s, n),
    ensures
        ranges_within(sort_ranges(s), n),
{
    lemma_sort_ranges(s);
    let r = sort_ranges(s);
    assert forall|i: int| 0 <= i < r.len() implies #[trigger] r[i].1 <= r[i].2 && r[i].2 <= n by {
        assert(r.contains(r[i]));
        assert(s.contains(r[i]));
        let k = choose|k: int| 0 <= k < s.len() && s[k] == r[i];
        assert(s[k].1 <= s[k].2 <= n);
    }
}

fn range_before_eq(x: LevelRange, y: LevelRange) -> (b: bool)
    ensures
        b == range_le(x, y),
{
    x.1 < y.1 || (x.1 == y.1 && x.2 >= y.2)
}

/// Insert `x` into the ordered `v`, after every range that comes no later.
fn insert_into(v: &mut Vec<LevelRange>, x: LevelRange)
    ensures
        final(v)@ == insert_range(old(v)@, x),
{
    let mut popped: Vec<LevelRange> = Vec::new();
    while v.len() > 0 && !range_before_eq(v[v.len() - 1], x)
        invariant
            insert_range(old(v)@, x) == insert_range(v@, x) + popped@.reverse(),
        decreases v@.len(),
    {
        let ghost before = v@;
        let y = v.pop().unwrap();
        proof {
            assert(popped@.push(y).reverse() =~= seq![y] + popped@.reverse());
            assert(before == v@.push(y));
            assert(!range_le(before.last(), x));
            assert(before.drop_last() =~= v@);
        }
        popped.push(y);
        proof {
            assert(insert_range(before, x) == insert_range(v@, x).push(y));
            assert(insert_range(v@, x).push(y) + popped@.drop_last().reverse() =~= insert_range(
                v@,
                x,
            ) + popped@.reverse());
        }
    }
    proof {
        assert(insert_range(v@, x) == v@.push(x));
    }
    v.push(x);
    while popped.len() > 0
        invariant
            insert_range(old(v)@, x) == v@ + popped@.reverse(),
        decreases popped@.len(),
    {
        let y = popped.pop().unwrap();
        proof {
            assert(popped@.push(y).reverse() =~= seq![y] + popped@.reverse());
            assert(v@.push(y) + popped@.reverse() =~= v@ + (seq![y] + popped@.reverse()));
        }
        v.push(y);
    }
    proof {
        assert(v@ + popped@.reverse() =~= v@);
    }
}

/// Order the ranges by start, longer first among equal starts (see
/// [`sort_ranges`]).
pub fn sorted_ranges(ranges: &Vec<LevelRange>) -> (sorted: Vec<LevelRange>)
    ensures
        sorted@ == sort_ranges(ranges@),
{
    let mut out: Vec<LevelRange> = Vec::new();
    let mut k: usize = 0;
    while k < ranges.len()
        invariant
            k <= ranges@.len(),
            out@ == sort_ranges(ranges@.take(k as int)),
        decreases ranges@.len() - k,
    {
        proof {
            assert(ranges@.take(k + 1).drop_last() =~= ranges@.take(k as int));
        }
        insert_into(&mut out, ranges[k]);
        k = k + 1;
    }
    proof {
        assert(ranges@.take(k as int) =~= ranges@);
    }
    out
}


/// The ranges that start at or after `c`, in order.
pub open spec fn ranges_after(rs: Seq<LevelRange>, c: usize) -> Seq<LevelRange>
    decreases rs.len(),
{
    if rs.len() == 0 {
        rs
    } else if rs.last().1 >= c {
        ranges_after(rs.drop_last(), c).push(rs.last())
    } else {
        ranges_after(rs.drop_last(), c)
    }
}

/// The ranges of `level` or of a larger level, in order.
pub open spec fn at_least(rs: Seq<LevelRange>, level: Element) -> Seq<LevelRange>
    decreases rs.len(),
{
    if rs.len() == 0 {
        rs
    } else if rank(rs.last().0) >= rank(level) {
        at_least(rs.drop_last(), level).push(rs.last())
    } else {
        at_least(rs.drop_last(), level)
    }
}

/// The index of the first range of exactly `level`, looking from `i` on.
pub open spec fn first_index_from(rs: Seq<LevelRange>, level: Element, i: int) -> Option<int>
    decreases rs.len() - i,
{
    if i < 0 || i >= rs.len() {
        None
    } else if rs[i].0 == level {
        Some(i)
    } else {
        first_index_from(rs, level, i + 1)
    }
}

/// The last index of the run that starts at `p`: the ranges after `p` of the
/// same level and the same start as the one before them.
pub open spec fn run_end(rs: Seq<LevelRange>, p: int) -> int
    decreases rs.len() - p,
{
    if 0 <= p && p + 1 < rs.len() && rs[p + 1].0 == rs[p].0 && rs[p + 1].1 == rs[p].1 {
        run_end(rs, p + 1)
    } else {
        p
    }
}

/// The first range of `level`. When it is the very first range, a range of
/// the same level that starts where it does is nested in it, and the
/// innermost of that run stands for it.
pub open spec fn first_of(rs: Seq<LevelRange>, level: Element) -> Option<LevelRange> {
    match first_index_from(rs, level, 0) {
        Some(p) => Some(
            if p == 0 {
                rs[run_end(rs, 0)]
            } else {
                rs[p]
            },
        ),
        None => None,
    }
}

/// `r` wraps the first range of `level`: it is of a larger level and holds
/// its start, or it is of `level`, starts with it and reaches further.
pub open spec fn wraps(r: LevelRange, level: Element, first: Option<LevelRange>) -> bool {
    match first {
        Some(f) => (rank(r.0) > rank(level) && r.1 <= f.1 && f.1 < r.2) || (r.0 == level && r.1
            == f.1 && r.2 > f.2),
        None => false,
    }
}

/// `rs` without its leading ranges that wrap the first range of `level`.
pub open spec fn skip_wrapping(rs: Seq<LevelRange>, level: Element, first: Option<LevelRange>) -> Seq<
    LevelRange,
>
    decreases rs.len(),
{
    if rs.len() > 0 && wraps(rs[0], level, first) {
        skip_wrapping(rs.drop_first(), level, first)
    } else {
        rs
    }
}

/// The ranges that `level` cuts the text after `c` by: the ranges from `c`
/// on of `level` or larger levels, without the ones in front that merely
/// wrap the first range of `level`.
pub open spec fn level_ranges(rs: Seq<LevelRange>, c: usize, level: Element) -> Seq<LevelRange> {
    let after = ranges_after(rs, c);
    skip_wrapping(at_least(after, level), level, first_of(after, level))
}

/// Some range of `level` starts at or after `c`.
pub open spec fn level_present(rs: Seq<LevelRange>, c: usize, level: Element) -> bool {
    exists|i: int| 0 <= i < rs.len() && rs[i].1 >= c && rs[i].0 == level
}

/// Every range of `sub` is a range of `rs`.
pub open spec fn ranges_from(sub: Seq<LevelRange>, rs: Seq<LevelRange>) -> bool {
    forall|i: int| 0 <= i < sub.len() ==> rs.contains(#[trigger] sub[i])
}

proof fn lemma_after_from(rs: Seq<LevelRange>, c: usize)
    ensures
        ranges_from(ranges_after(rs, c), rs),
    decreases rs.len(),
{
    if rs.len() > 0 {
        lemma_after_from(rs.drop_last(), c);
        let r = ranges_after(rs, c);
        let p = ranges_after(rs.drop_last(), c);
        assert forall|i: int| 0 <= i < r.len() implies rs.contains(#[trigger] r[i]) by {
            if i < p.len() {
                assert(r[i] == p[i]);
                assert(rs.drop_last().contains(p[i]));
                let k = choose|k: int| 0 <= k < rs.drop_last().len() && rs.drop_last()[k] == p[i];
                assert(rs[k] == p[i]);
            } else {
                assert(rs[rs.len() - 1] == r[i]);
            }
        }
    }
}

proof fn lemma_at_least_from(rs: Seq<LevelRange>, level: Element)
    ensures
        ranges_from(at_least(rs, level), rs),
    decreases rs.len(),
{
    if rs.len() > 0 {
        lemma_at_least_from(rs.drop_last(), level);
        let r = at_least(rs, level);
        let p = at_least(rs.drop_last(), level);
        assert forall|i: int| 0 <= i < r.len() implies rs.contains(#[trigger] r[i]) by {
            if i < p.len() {
                assert(r[i] == p[i]);
                assert(rs.drop_last().contains(p[i]));
                let k = choose|k: int| 0 <= k < rs.drop_last().len() && rs.drop_last()[k] == p[i];
                assert(rs[k] == p[i]);
            } else {
                assert(rs[rs.len() - 1] == r[i]);
            }
        }
    }
}

proof fn lemma_skip_from(rs: Seq<LevelRange>, level: Element, first: Option<LevelRange>)
    ensures
        ranges_from(skip_wrapping(rs, level, first), rs),
    decreases rs.len(),
{
    if rs.len() > 0 && wraps(rs[0], level, first) {
        lemma_skip_from(rs.drop_first(), level, first);
        let r = skip_wrapping(rs, level, first);
        assert forall|i: int| 0 <= i < r.len() implies rs.contains(#[trigger] r[i]) by {
            assert(rs.drop_first().contains(r[i]));
            let k = choose|k: int| 0 <= k < rs.drop_first().len() && rs.drop_first()[k] == r[i];
            assert(rs[k + 1] == r[i]);
        }
    } else {
        assert forall|i: int| 0 <= i < rs.len() implies rs.contains(#[trigger] rs[i]) by {}
    }
}

/// The ranges that a level cuts by are ranges of the document, so they lie
/// within the text whenever the document's ranges do.
pub proof fn lemma_level_ranges_within(rs: Seq<LevelRange>, c: usize, level: Element, n: int)
    requires
        ranges_within(rs, n),
    ensures
        ranges_within(level_ranges(rs, c, level), n),
{
    let after = ranges_after(rs, c);
    let al = at_least(after, level);
    let lr = level_ranges(rs, c, level);
    lemma_after_from(rs, c);
    lemma_at_least_from(after, level);
    lemma_skip_from(al, level, first_of(after, level));
    assert forall|i: int| 0 <= i < lr.len() implies #[trigger] lr[i].1 <= lr[i].2 && lr[i].2 <= n by {
        assert(al.contains(lr[i]));
        let k1 = choose|k: int| 0 <= k < al.len() && al[k] == lr[i];
        assert(after.contains(al[k1]));
        let k2 = choose|k: int| 0 <= k < after.len() && after[k] == al[k1];
        assert(rs.contains(after[k2]));
        let k3 = choose|k: int| 0 <= k < rs.len() && rs[k] == after[k2];
        assert(rs[k3].1 <= rs[k3].2 <= n);
    }
}

/// `r` holds the first range `first` of `level`: it is of a larger level
/// and its range contains the start of `first`, starting before it or with
/// it; or it is of `level`, starts with `first` and reaches further.
pub open spec fn holds_first(r: LevelRange, level: Element, first: LevelRange) -> bool {
    ||| rank(r.0) > rank(level) && r.1 <= first.1 && first.1 < r.2
    ||| r.0 == level && r.1 == first.1 && r.2 > first.2
}

proof fn lemma_skip_wrapping_suffix(rs: Seq<LevelRange>, level: Element, first: LevelRange)
    ensures
        exists|k: int|
            0 <= k <= rs.len() && skip_wrapping(rs, level, Some(first)) == rs.skip(k) && (forall|i: int|
                0 <= i < k ==> holds_first(#[trigger] rs[i], level, first)) && (k < rs.len()
                ==> !holds_first(rs[k], level, first)),
    decreases rs.len(),
{
    if rs.len() > 0 && holds_first(rs[0], level, first) {
        let rest = rs.drop_first();
        lemma_skip_wrapping_suffix(rest, level, first);
        let k = choose|k: int|
            0 <= k <= rest.len() && skip_wrapping(rest, level, Some(first)) == rest.skip(k) && (forall|i: int|
                0 <= i < k ==> holds_first(#[trigger] rest[i], level, first)) && (k < rest.len()
                ==> !holds_first(rest[k], level, first));
        assert(rest.skip(k) =~= rs.skip(k + 1));
        assert forall|i: int| 0 <= i < k + 1 implies holds_first(#[trigger] rs[i], level, first) by {
            if i > 0 {
                assert(rs[i] == rest[i - 1]);
            }
        }
        if k + 1 < rs.len() {
            assert(rs[k + 1] == rest[k]);
        }
    } else {
        assert(rs.skip(0) =~= rs);
    }
}

/// The ranges that a level cuts `t[c..]` by are the ranges of the level and
/// of larger levels from `c` on, less exactly those in front that hold the
/// first range of the level: a range of a larger level that contains its
/// start, starting before it or at the same position, or a range of the
/// level itself that starts with it and reaches further.
pub proof fn lemma_level_ranges_pass_over_holders(rs: Seq<LevelRange>, c: usize, level: Element)
    ensures
        first_of(ranges_after(rs, c), level) is None ==> level_ranges(rs, c, level) == at_least(
            ranges_after(rs, c),
            level,
        ),
        first_of(ranges_after(rs, c), level) matches Some(f) ==> exists|k: int|
            0 <= k <= at_least(ranges_after(rs, c), level).len() && level_ranges(rs, c, level)
                == at_least(ranges_after(rs, c), level).skip(k) && (forall|i: int|
                0 <= i < k ==> holds_first(
                    #[trigger] at_least(ranges_after(rs, c), level)[i],
                    level,
                    f,
                )) && (k < at_least(ranges_after(rs, c), level).len() ==> !holds_first(
                at_least(ranges_after(rs, c), level)[k],
                level,
                f,
            )),
{
    let after = ranges_after(rs, c);
    let al = at_least(after, level);
    match first_of(after, level) {
        Some(f) => {
            lemma_skip_wrapping_suffix(al, level, f);
        },
        None => {
            lemma_skip_none(al, level);
        },
    }
}

proof fn lemma_skip_none(rs: Seq<LevelRange>, level: Element)
    ensures
        skip_wrapping(rs, level, None) == rs,
{
}

fn wraps_first(r: LevelRange, level: Element, first: Option<LevelRange>) -> (b: bool)
    ensures
        b == wraps(r, level, first),
{
    match first {
        Some(f) => (r.0.rank() > level.rank() && r.1 <= f.1 && f.1 < r.2) || (r.0 == level && r.1
            == f.1 && r.2 > f.2),
        None => false,
    }
}

/// The ranges that start at or after `c`, in order.
fn ranges_from_offset(ranges: &Vec<LevelRange>, c: usize) -> (after: Vec<LevelRange>)
    ensures
        after@ == ranges_after(ranges@, c),
{
    let mut after: Vec<LevelRange> = Vec::new();
    let mut k: usize = 0;
    while k < ranges.len()
        invariant
            k <= ranges@.len(),
            after@ == ranges_after(ranges@.take(k as int), c),
        decreases ranges@.len() - k,
    {
        let r = ranges[k];
        proof {
            assert(ranges@.take(k + 1).drop_last() =~= ranges@.take(k as int));
            assert(ranges@.take(k + 1).last() == r);
        }
        if r.1 >= c {
            after.push(r);
        }
        k = k + 1;
    }
    proof {
        assert(ranges@.take(k as int) =~= ranges@);
    }
    after
}

/// The first range of `level` (see [`first_of`]).
fn first_of_level(after: &Vec<LevelRange>, level: Element) -> (first: Option<LevelRange>)
    ensures
        first == first_of(after@, level),
{
    let mut i: usize = 0;
    while i < after.len() && after[i].0 != level
        invariant
            i <= after@.len(),
            first_index_from(after@, level, 0) == first_index_from(after@, level, i as int),
        decreases after@.len() - i,
    {
        i = i + 1;
    }
    if i == after.len() {
        return None;
    }
    if i > 0 {
        return Some(after[i]);
    }
    let last = after.len() - 1;
    let mut j: usize = 0;
    while j < last && after[j + 1].0 == after[j].0 && after[j + 1].1 == after[j].1
        invariant
            last + 1 == after@.len(),
            j <= last,
            run_end(after@, 0) == run_end(after@, j as int),
        decreases after@.len() - j,
    {
        j = j + 1;
    }
    Some(after[j])
}

/// The ranges that `level` cuts the text after `c` by (see [`level_ranges`]).
pub fn level_ranges_after(ranges: &Vec<LevelRange>, c: usize, level: Element) -> (out: Vec<
    LevelRange,
>)
    ensures
        out@ == level_ranges(ranges@, c, level),
{
    let after = ranges_from_offset(ranges, c);
    let first = first_of_level(&after, level);
    let lr = level.rank();
    let mut kept: Vec<LevelRange> = Vec::new();
    let mut k: usize = 0;
    while k < after.len()
        invariant
            k <= after@.len(),
            lr == rank(level),
            kept@ == at_least(after@.take(k as int), level),
        decreases after@.len() - k,
    {
        let r = after[k];
        proof {
            assert(after@.take(k + 1).drop_last() =~= after@.take(k as int));
            assert(after@.take(k + 1).last() == r);
        }
        if r.0.rank() >= lr {
            kept.push(r);
        }
        k = k + 1;
    }
    proof {
        assert(after@.take(k as int) =~= after@);
    }
    let mut j: usize = 0;
    let ghost al = kept@;
    proof {
        assert(al.skip(0) =~= al);
    }
    while j < kept.len() && wraps_first(kept[j], level, first)
        invariant
            kept@ == al,
            j <= al.len(),
            lr == rank(level),
            skip_wrapping(al, level, first) == skip_wrapping(al.skip(j as int), level, first),
        decreases al.len() - j,
    {
        proof {
            assert(al.skip(j as int)[0] == al[j as int]);
            assert(al.skip(j as int).drop_first() =~= al.skip(j + 1));
        }
        j = j + 1;
    }
    let mut out: Vec<LevelRange> = Vec::new();
    let mut i = j;
    while i < kept.len()
        invariant
            kept@ == al,
            j <= i <= al.len(),
            out@ == al.subrange(j as int, i as int),
        decreases al.len() - i,
    {
        out.push(kept[i]);
        i = i + 1;
        proof {
            assert(out@ =~= al.subrange(j as int, i as int));
        }
    }
    proof {
        assert(out@ =~= al.skip(j as int));
    }
    out
}

/// The level of a given rank (see [`rank`]).
pub open spec fn level_of_rank(k: int) -> Element {
    if k <= 0 {
        Element::SoftBreak
    } else if k == 1 {
        Element::Inline
    } else if k == 2 {
        Element::Block
    } else if k == 3 {
        Element::Rule
    } else if k == 4 {
        Element::Heading(HeadingLevel::H6)
    } else if k == 5 {
        Element::Heading(HeadingLevel::H5)
    } else if k == 6 {
        Element::Heading(HeadingLevel::H4)
    } else if k == 7 {
        Element::Heading(HeadingLevel::H3)
    } else if k == 8 {
        Element::Heading(HeadingLevel::H2)
    } else {
        Element::Heading(HeadingLevel::H1)
    }
}

/// Ranks and levels are each other's inverse: ten levels, ranks `0..10`.
pub proof fn lemma_rank_roundtrip(e: Element, k: int)
    requires
        0 <= k < 10,
    ensures
        0 <= rank(e) < 10,
        level_of_rank(rank(e)) == e,
        rank(level_of_rank(k)) == k,
{
    match e {
        Element::Heading(l) => {
            assert(1 <= level_depth(l) <= 6);
        },
        _ => {},
    }
}

/// The level of rank `k`.
pub fn level_with_rank(k: u8) -> (e: Element)
    requires
        k < 10,
    ensures
        e == level_of_rank(k as int),
{
    if k == 0 {
        Element::SoftBreak
    } else if k == 1 {
        Element::Inline
    } else if k == 2 {
        Element::Block
    } else if k == 3 {
        Element::Rule
    } else if k == 4 {
        Element::Heading(HeadingLevel::H6)
    } else if k == 5 {
        Element::Heading(HeadingLevel::H5)
    } else if k == 6 {
        Element::Heading(HeadingLevel::H4)
    } else if k == 7 {
        Element::Heading(HeadingLevel::H3)
    } else if k == 8 {
        Element::Heading(HeadingLevel::H2)
    } else {
        Element::Heading(HeadingLevel::H1)
    }
}

/// For each rank, whether a range of that level starts at or after `c`.
pub fn levels_present(ranges: &Vec<LevelRange>, c: usize) -> (present: Vec<bool>)
    ensures
        present@.len() == 10,
        forall|k: int|
            0 <= k < 10 ==> #[trigger] present@[k] == level_present(ranges@, c, level_of_rank(k)),
{
    let mut present: Vec<bool> = vec![false, false, false, false, false, false, false, false, false, false];
    let mut i: usize = 0;
    while i < ranges.len()
        invariant
            i <= ranges@.len(),
            present@.len() == 10,
            forall|k: int|
                0 <= k < 10 ==> #[trigger] present@[k] == exists|j: int|
                    0 <= j < i && ranges@[j].1 >= c && ranges@[j].0 == level_of_rank(k),
        decreases ranges@.len() - i,
    {
        let r = ranges[i];
        proof {
            lemma_rank_roundtrip(r.0, 0);
        }
        if r.1 >= c {
            let k = r.0.rank() as usize;
            present.set(k, true);
        }
        proof {
            assert forall|k: int| 0 <= k < 10 implies #[trigger] present@[k] == exists|j: int|
                0 <= j < i + 1 && ranges@[j].1 >= c && ranges@[j].0 == level_of_rank(k) by {
                lemma_rank_roundtrip(r.0, k);
                if r.1 >= c && rank(r.0) == k {
                    assert(ranges@[i as int].0 == level_of_rank(k));
                }
                if exists|j: int| 0 <= j < i + 1 && ranges@[j].1 >= c && ranges@[j].0 == level_of_rank(k) {
                    let j = choose|j: int| 0 <= j < i + 1 && ranges@[j].1 >= c && ranges@[j].0 == level_of_rank(k);
                    if j == i {
                        assert(rank(r.0) == k);
                    }
                }
            }
        }
        i = i + 1;
    }
    present
}

} // verus!
