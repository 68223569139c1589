//! Per-object ordered collection of unpinned ranges.
//!
//! An `Area` keeps the unpinned ranges of one memory object in strictly
//! descending start order, pairwise disjoint and maximally merged: no two
//! entries overlap or even touch, so none could be coalesced. The merge and
//! split algorithms themselves live in [`crate::tracker`], which mutates an
//! area and the global reclaim queue together; this module provides the
//! structure, the searches over it, and the laws of the interval order.

use vstd::prelude::*;
use crate::range::{rng_contains, rng_overlaps, rng_touches, rng_wf, Range};

verus! {

/// The area invariant: every entry is well formed and consecutive entries
/// are separated by at least one pinned page (descending, disjoint, not
/// even adjacent).
pub open spec fn area_wf(s: Seq<Range>) -> bool {
    &&& forall|i: int| 0 <= i < s.len() ==> rng_wf(#[trigger] s[i])
    &&& forall|i: int|
        0 < i < s.len() ==> (#[trigger] s[i]).pgend + 2 <= (#[trigger] s[i - 1]).pgstart
}

/// Whether page `p` is unpinned: some entry contains it.
pub open spec fn covers(s: Seq<Range>, p: int) -> bool {
    exists|i: int| 0 <= i < s.len() && rng_contains(#[trigger] s[i], p)
}

/// Whether page `p` lies in an entry whose pages have been discarded.
pub open spec fn purged_at(s: Seq<Range>, p: int) -> bool {
    exists|i: int| 0 <= i < s.len() && rng_contains(#[trigger] s[i], p) && s[i].purged
}

/// Whether pages `p` and `q` lie in one and the same entry.
pub open spec fn same_entry(s: Seq<Range>, p: int, q: int) -> bool {
    exists|i: int| 0 <= i < s.len() && rng_contains(#[trigger] s[i], p) && rng_contains(s[i], q)
}

/// Whether some entry that intersects or touches `[qs, qe]` is purged:
/// the purge flag an unpin of `[qs, qe]` must carry forward.
pub open spec fn any_purged_touching(s: Seq<Range>, qs: int, qe: int) -> bool {
    exists|i: int| 0 <= i < s.len() && rng_touches(#[trigger] s[i], qs, qe) && s[i].purged
}

/// Entries further down the list are separated from earlier ones by at
/// least one page.
pub proof fn lemma_wf_separated(s: Seq<Range>, i: int, j: int)
    requires
        area_wf(s),
        0 <= i < j < s.len(),
    ensures
        s[j].pgend + 2 <= s[i].pgstart,
    decreases j - i,
{
    if j == i + 1 {
        assert(s[j - 1] == s[i]);
    } else {
        lemma_wf_separated(s, i + 1, j);
        assert(s[i + 1 - 1] == s[i]);
    }
}

/// Disjointness law: in a well-formed area no two distinct entries overlap
/// and none touch, so no pair could be merged.
pub proof fn lemma_disjoint_pairs(s: Seq<Range>)
    requires
        area_wf(s),
    ensures
        forall|i: int, j: int|
            0 <= i < j < s.len() ==> (#[trigger] s[j]).pgend + 1 < (#[trigger] s[i]).pgstart,
{
    assert forall|i: int, j: int| 0 <= i < j < s.len()
        implies (#[trigger] s[j]).pgend + 1 < (#[trigger] s[i]).pgstart by {
        lemma_wf_separated(s, i, j);
    }
}

/// Each page is covered by at most one entry.
pub proof fn lemma_unique_cover(s: Seq<Range>, p: int, i: int, j: int)
    requires
        area_wf(s),
        0 <= i < s.len(),
        0 <= j < s.len(),
        rng_contains(s[i], p),
        rng_contains(s[j], p),
    ensures
        i == j,
{
    if i < j {
        lemma_wf_separated(s, i, j);
    } else if j < i {
        lemma_wf_separated(s, j, i);
    }
}

/// If every page of `[qs, qe]` is unpinned, a single entry contains the
/// whole of `[qs, qe]`.
pub proof fn lemma_covered_contained(s: Seq<Range>, qs: int, qe: int) -> (w: int)
    requires
        area_wf(s),
        qs <= qe,
        forall|p: int| qs <= p <= qe ==> covers(s, p),
    ensures
        0 <= w < s.len(),
        s[w].pgstart <= qs,
        qe <= s[w].pgend,
    decreases qe - qs,
{
    assert(covers(s, qs));
    let i = choose|i: int| 0 <= i < s.len() && rng_contains(#[trigger] s[i], qs);
    if s[i].pgend >= qe {
        i
    } else {
        // The entry holding `qs` ends early; the page after it is covered
        // by a different entry, which the separation law forbids.
        let nxt = s[i].pgend + 1;
        assert(covers(s, nxt));
        let j = choose|j: int| 0 <= j < s.len() && rng_contains(#[trigger] s[j], nxt);
        if i < j {
            lemma_wf_separated(s, i, j);
            assert(false);
        } else if j < i {
            lemma_wf_separated(s, j, i);
            assert(false);
        }
        assert(false);
        i
    }
}

/// An entry overlaps `[qs, qe]` exactly when some page of `[qs, qe]` is
/// covered.
pub proof fn lemma_overlap_is_covered_page(s: Seq<Range>, qs: int, qe: int)
    requires
        area_wf(s),
        qs <= qe,
    ensures
        (exists|i: int| 0 <= i < s.len() && rng_overlaps(#[trigger] s[i], qs, qe))
            <==> (exists|p: int| qs <= p <= qe && covers(s, p)),
{
    if exists|i: int| 0 <= i < s.len() && rng_overlaps(#[trigger] s[i], qs, qe) {
        let i = choose|i: int| 0 <= i < s.len() && rng_overlaps(#[trigger] s[i], qs, qe);
        let p = if qs >= s[i].pgstart { qs } else { s[i].pgstart as int };
        assert(rng_contains(s[i], p));
        assert(qs <= p <= qe && covers(s, p));
    }
    if exists|p: int| qs <= p <= qe && covers(s, p) {
        let p = choose|p: int| qs <= p <= qe && covers(s, p);
        let i = choose|i: int| 0 <= i < s.len() && rng_contains(#[trigger] s[i], p);
        assert(rng_overlaps(s[i], qs, qe));
    }
}

/// A purged entry overlaps `[qs, qe]` exactly when some page of `[qs, qe]`
/// is covered purged.
pub proof fn lemma_purged_overlap_is_purged_page(s: Seq<Range>, qs: int, qe: int)
    requires
        area_wf(s),
        qs <= qe,
    ensures
        (exists|i: int|
            0 <= i < s.len() && rng_overlaps(#[trigger] s[i], qs, qe) && s[i].purged)
            <==> (exists|p: int| qs <= p <= qe && purged_at(s, p)),
{
    if exists|i: int| 0 <= i < s.len() && rng_overlaps(#[trigger] s[i], qs, qe) && s[i].purged {
        let i = choose|i: int|
            0 <= i < s.len() && rng_overlaps(#[trigger] s[i], qs, qe) && s[i].purged;
        let p = if qs >= s[i].pgstart { qs } else { s[i].pgstart as int };
        assert(rng_contains(s[i], p));
        assert(qs <= p <= qe && purged_at(s, p));
    }
    if exists|p: int| qs <= p <= qe && purged_at(s, p) {
        let p = choose|p: int| qs <= p <= qe && purged_at(s, p);
        let i = choose|i: int|
            0 <= i < s.len() && rng_contains(#[trigger] s[i], p) && s[i].purged;
        assert(rng_overlaps(s[i], qs, qe));
    }
}

/// Canonicity: a well-formed area is determined by the set of pages it
/// covers — two well-formed areas covering the same pages list the same
/// intervals.
pub proof fn lemma_canonical_extents(s1: Seq<Range>, s2: Seq<Range>)
    requires
        area_wf(s1),
        area_wf(s2),
        forall|p: int| #[trigger] covers(s1, p) == covers(s2, p),
    ensures
        s1.len() == s2.len(),
        forall|i: int|
            0 <= i < s1.len() ==> (#[trigger] s1[i]).pgstart == s2[i].pgstart
                && s1[i].pgend == s2[i].pgend,
    decreases s1.len(),
{
    if s1.len() == 0 && s2.len() > 0 {
        assert(rng_contains(s2[0], s2[0].pgend as int));
        assert(covers(s2, s2[0].pgend as int));
        assert(covers(s1, s2[0].pgend as int));
        let i = choose|i: int| 0 <= i < s1.len() && rng_contains(#[trigger] s1[i], s2[0].pgend as int);
        assert(false);
    } else if s2.len() == 0 && s1.len() > 0 {
        assert(rng_contains(s1[0], s1[0].pgend as int));
        assert(covers(s1, s1[0].pgend as int));
        assert(covers(s2, s1[0].pgend as int));
        let i = choose|i: int| 0 <= i < s2.len() && rng_contains(#[trigger] s2[i], s1[0].pgend as int);
        assert(false);
    } else if s1.len() > 0 {
        // the top entries agree: they both end at the greatest covered
        // page, and each starts right above its area's first gap
        lemma_head_extent(s1, s2);
        lemma_head_extent(s2, s1);
        assert(s1[0].pgend == s2[0].pgend && s1[0].pgstart == s2[0].pgstart);
        let t1 = s1.subrange(1, s1.len() as int);
        let t2 = s2.subrange(1, s2.len() as int);
        assert(area_wf(t1)) by {
            assert(forall|i: int| 0 <= i < t1.len() ==> #[trigger] t1[i] == s1[i + 1]);
            assert forall|i: int| 0 <= i < t1.len() implies rng_wf(#[trigger] t1[i]) by {
                assert(rng_wf(s1[i + 1]));
            }
            assert forall|i: int| 0 < i < t1.len()
                implies (#[trigger] t1[i]).pgend + 2 <= (#[trigger] t1[i - 1]).pgstart by {
                lemma_wf_separated(s1, i, i + 1);
                assert(t1[i] == s1[i + 1] && t1[i - 1] == s1[i]);
            }
        }
        assert(area_wf(t2)) by {
            assert(forall|i: int| 0 <= i < t2.len() ==> #[trigger] t2[i] == s2[i + 1]);
            assert forall|i: int| 0 <= i < t2.len() implies rng_wf(#[trigger] t2[i]) by {
                assert(rng_wf(s2[i + 1]));
            }
            assert forall|i: int| 0 < i < t2.len()
                implies (#[trigger] t2[i]).pgend + 2 <= (#[trigger] t2[i - 1]).pgstart by {
                lemma_wf_separated(s2, i, i + 1);
                assert(t2[i] == s2[i + 1] && t2[i - 1] == s2[i]);
            }
        }
        assert forall|p: int| #[trigger] covers(t1, p) == covers(t2, p) by {
            lemma_tail_covers(s1, p);
            lemma_tail_covers(s2, p);
        }
        lemma_canonical_extents(t1, t2);
        assert forall|i: int| 0 <= i < s1.len()
            implies (#[trigger] s1[i]).pgstart == s2[i].pgstart
                && s1[i].pgend == s2[i].pgend by {
            if i > 0 {
                assert(t1[i - 1] == s1[i] && t2[i - 1] == s2[i]);
            }
        }
    }
}

/// The first entry of a well-formed area ends at the greatest page the
/// other area covers, and reaches down exactly as far.
proof fn lemma_head_extent(s1: Seq<Range>, s2: Seq<Range>)
    requires
        area_wf(s1),
        area_wf(s2),
        forall|p: int| #[trigger] covers(s1, p) == covers(s2, p),
        s1.len() > 0,
        s2.len() > 0,
    ensures
        s1[0].pgend <= s2[0].pgend,
        s2[0].pgend == s1[0].pgend ==> s1[0].pgstart >= s2[0].pgstart,
{
    // s1's top page is covered by some entry of s2, and every entry of s2
    // ends at or below s2's first.
    assert(rng_contains(s1[0], s1[0].pgend as int));
    assert(covers(s1, s1[0].pgend as int));
    assert(covers(s2, s1[0].pgend as int));
    let j = choose|j: int| 0 <= j < s2.len() && rng_contains(#[trigger] s2[j], s1[0].pgend as int);
    if j > 0 {
        lemma_wf_separated(s2, 0, j);
        assert(rng_wf(s2[0]));
    }
    if s2[0].pgend == s1[0].pgend && s1[0].pgstart < s2[0].pgstart {
        // then the page below s2's first start is covered in s1 only
        let x = s2[0].pgstart - 1;
        assert(rng_contains(s1[0], x));
        assert(covers(s1, x));
        assert(covers(s2, x));
        let k = choose|k: int| 0 <= k < s2.len() && rng_contains(#[trigger] s2[k], x);
        assert(k != 0);
        lemma_wf_separated(s2, 0, k);
        assert(false);
    }
}

/// Below its first entry's start, an area covers exactly what its tail
/// covers; at or above it, the tail covers nothing.
proof fn lemma_tail_covers(s: Seq<Range>, p: int)
    requires
        area_wf(s),
        s.len() > 0,
    ensures
        covers(s.subrange(1, s.len() as int), p) == (covers(s, p) && p < s[0].pgstart),
{
    let t = s.subrange(1, s.len() as int);
    assert(forall|i: int| 0 <= i < t.len() ==> #[trigger] t[i] == s[i + 1]);
    if covers(t, p) {
        let i = choose|i: int| 0 <= i < t.len() && rng_contains(#[trigger] t[i], p);
        assert(rng_contains(s[i + 1], p));
        lemma_wf_separated(s, 0, i + 1);
        assert(covers(s, p) && p < s[0].pgstart);
    }
    if covers(s, p) && p < s[0].pgstart {
        let i = choose|i: int| 0 <= i < s.len() && rng_contains(#[trigger] s[i], p);
        assert(i != 0);
        assert(t[i - 1] == s[i]);
        assert(covers(t, p));
    }
}

/// Unpinning never clears a purge flag: every page purged before stays
/// purged after the merge.
pub proof fn lemma_unpin_purge_monotone(pre: Seq<Range>, mid: Seq<Range>, qs: int, qe: int)
    requires
        area_wf(pre),
        area_wf(mid),
        0 <= qs <= qe,
        forall|p: int| #[trigger] covers(mid, p) == (covers(pre, p) || qs <= p <= qe),
        forall|p: int|
            #[trigger] purged_at(mid, p) == (if same_entry(mid, p, qs) {
                any_purged_touching(pre, qs, qe)
            } else {
                purged_at(pre, p)
            }),
    ensures
        forall|p: int| #[trigger] purged_at(pre, p) ==> purged_at(mid, p),
{
    assert forall|p: int| #[trigger] purged_at(pre, p) implies purged_at(mid, p) by {
        if same_entry(mid, p, qs) {
            let i = choose|i: int|
                0 <= i < pre.len() && rng_contains(#[trigger] pre[i], p) && pre[i].purged;
            let e = pre[i];
            if rng_touches(e, qs, qe) {
                assert(any_purged_touching(pre, qs, qe));
            } else if p < qs {
                // the first gap above p separates p from qs in `pre`, yet
                // one entry of `mid` holds both: impossible
                let x = e.pgend + 1;
                assert(x < qs);
                assert(!covers(pre, x)) by {
                    if covers(pre, x) {
                        let j = choose|j: int|
                            0 <= j < pre.len() && rng_contains(#[trigger] pre[j], x);
                        if j < i {
                            lemma_wf_separated(pre, j, i);
                        } else if j > i {
                            lemma_wf_separated(pre, i, j);
                        }
                        assert(false);
                    }
                }
                assert(!covers(mid, x));
                let j = choose|j: int|
                    0 <= j < mid.len() && rng_contains(#[trigger] mid[j], p)
                        && rng_contains(mid[j], qs);
                assert(rng_contains(mid[j], x));
                assert(covers(mid, x));
                assert(false);
            } else {
                assert(p > qe);
                let x = e.pgstart - 1;
                assert(x > qe);
                assert(!covers(pre, x)) by {
                    if covers(pre, x) {
                        let j = choose|j: int|
                            0 <= j < pre.len() && rng_contains(#[trigger] pre[j], x);
                        if j < i {
                            lemma_wf_separated(pre, j, i);
                        } else if j > i {
                            lemma_wf_separated(pre, i, j);
                        }
                        assert(false);
                    }
                }
                assert(!covers(mid, x));
                let j = choose|j: int|
                    0 <= j < mid.len() && rng_contains(#[trigger] mid[j], p)
                        && rng_contains(mid[j], qs);
                assert(rng_contains(mid[j], x));
                assert(covers(mid, x));
                assert(false);
            }
        }
    }
}

/// Round-trip law: pinning a range straight after unpinning the same,
/// previously fully pinned, range restores the earlier entries' bounds;
/// purge flags only persist or spread from absorbed neighbours, never
/// clear.
pub proof fn lemma_unpin_pin_round_trip(
    pre: Seq<Range>,
    mid: Seq<Range>,
    post: Seq<Range>,
    qs: int,
    qe: int,
)
    requires
        area_wf(pre),
        area_wf(mid),
        area_wf(post),
        0 <= qs <= qe,
        forall|p: int| qs <= p <= qe ==> !covers(pre, p),
        forall|p: int| #[trigger] covers(mid, p) == (covers(pre, p) || qs <= p <= qe),
        forall|p: int|
            #[trigger] purged_at(mid, p) == (if same_entry(mid, p, qs) {
                any_purged_touching(pre, qs, qe)
            } else {
                purged_at(pre, p)
            }),
        forall|p: int| #[trigger] covers(post, p) == (covers(mid, p) && !(qs <= p <= qe)),
        forall|p: int| covers(post, p) ==> #[trigger] purged_at(post, p) == purged_at(mid, p),
    ensures
        post.len() == pre.len(),
        forall|i: int|
            0 <= i < pre.len() ==> (#[trigger] post[i]).pgstart == pre[i].pgstart
                && post[i].pgend == pre[i].pgend,
        forall|p: int| #[trigger] purged_at(pre, p) ==> purged_at(post, p),
{
    assert forall|p: int| #[trigger] covers(post, p) == covers(pre, p) by {}
    lemma_canonical_extents(pre, post);
    lemma_unpin_purge_monotone(pre, mid, qs, qe);
    assert forall|p: int| #[trigger] purged_at(pre, p) implies purged_at(post, p) by {
        let i = choose|i: int|
            0 <= i < pre.len() && rng_contains(#[trigger] pre[i], p) && pre[i].purged;
        assert(covers(pre, p));
        assert(covers(post, p));
        assert(purged_at(mid, p));
    }
}

/// Idempotence law: when every page of `[qs, qe]` is already unpinned, a
/// single entry contains the whole request, so an unpin of it meets its
/// no-change case.
pub proof fn lemma_unpin_idempotent(s: Seq<Range>, qs: int, qe: int)
    requires
        area_wf(s),
        qs <= qe,
        forall|p: int| qs <= p <= qe ==> covers(s, p),
    ensures
        exists|i: int|
            0 <= i < s.len() && (#[trigger] s[i]).pgstart <= qs && qe <= s[i].pgend,
{
    let w = lemma_covered_contained(s, qs, qe);
}

/// Two areas whose entries have the same bounds cover the same pages and
/// are equally well formed; purge flags play no part in either.
pub proof fn lemma_extents_covers(s1: Seq<Range>, s2: Seq<Range>)
    requires
        s1.len() == s2.len(),
        forall|i: int|
            0 <= i < s1.len() ==> (#[trigger] s1[i]).pgstart == (#[trigger] s2[i]).pgstart
                && s1[i].pgend == s2[i].pgend,
    ensures
        forall|p: int| #[trigger] covers(s1, p) == covers(s2, p),
        area_wf(s1) == area_wf(s2),
{
    assert forall|p: int| #[trigger] covers(s1, p) == covers(s2, p) by {
        if covers(s1, p) {
            let i = choose|i: int| 0 <= i < s1.len() && rng_contains(#[trigger] s1[i], p);
            assert(rng_contains(s2[i], p));
        }
        if covers(s2, p) {
            let i = choose|i: int| 0 <= i < s2.len() && rng_contains(#[trigger] s2[i], p);
            assert(rng_contains(s1[i], p));
        }
    }
    assert(area_wf(s1) == area_wf(s2)) by {
        if area_wf(s1) {
            assert forall|i: int| 0 <= i < s2.len() implies rng_wf(#[trigger] s2[i]) by {
                assert(rng_wf(s1[i]));
            }
            assert forall|i: int| 0 < i < s2.len()
                implies (#[trigger] s2[i]).pgend + 2 <= (#[trigger] s2[i - 1]).pgstart by {
                assert(s1[i].pgend + 2 <= s1[i - 1].pgstart);
            }
        }
        if area_wf(s2) {
            assert forall|i: int| 0 <= i < s1.len() implies rng_wf(#[trigger] s1[i]) by {
                assert(rng_wf(s2[i]));
            }
            assert forall|i: int| 0 < i < s1.len()
                implies (#[trigger] s1[i]).pgend + 2 <= (#[trigger] s1[i - 1]).pgstart by {
                assert(s2[i].pgend + 2 <= s2[i - 1].pgstart);
            }
        }
    }
}

/// The per-object store of unpinned ranges, in strictly descending start
/// order.
pub struct Area {
    pub ranges: Vec<Range>,
}

impl View for Area {
    type V = Seq<Range>;

    open spec fn view(&self) -> Seq<Range> {
        self.ranges@
    }
}

impl Area {
    /// Whether this area satisfies the ordering invariant.
    pub open spec fn wf(&self) -> bool {
        area_wf(self@)
    }

    /// A fresh object starts with no unpinned pages.
    pub fn new() -> (r: Area)
        ensures
            r@ == Seq::<Range>::empty(),
            r.wf(),
    {
        let r = Area { ranges: Vec::new() };
        proof {
            assert(r.ranges@ =~= Seq::<Range>::empty());
        }
        r
    }

    /// Number of unpinned entries.
    pub fn len(&self) -> (r: usize)
        ensures
            r == self@.len(),
    {
        self.ranges.len()
    }

    /// The entry at position `i`.
    pub fn get(&self, i: usize) -> (r: Range)
        requires
            i < self@.len(),
        ensures
            r == self@[i as int],
    {
        self.ranges[i]
    }

    /// First position whose entry starts at or below `bound`; everything
    /// before it lies strictly above.
    pub fn seek_start_at_or_below(&self, bound: usize) -> (r: usize)
        ensures
            r <= self@.len(),
            forall|i: int| 0 <= i < r ==> (#[trigger] self@[i]).pgstart > bound,
            r < self@.len() ==> self@[r as int].pgstart <= bound,
    {
        let n = self.ranges.len();
        let mut i: usize = 0;
        while i < n
            invariant
                n == self@.len(),
                0 <= i <= n,
                forall|k: int| 0 <= k < i ==> (#[trigger] self@[k]).pgstart > bound,
            decreases n - i,
        {
            if self.ranges[i].pgstart <= bound {
                return i;
            }
            i = i + 1;
        }
        i
    }

    /// First position at or after `from` whose entry ends strictly below
    /// `qs` minus one page; entries in between reach `qs - 1` or beyond.
    pub fn seek_end_below(&self, from: usize, qs: usize) -> (r: usize)
        requires
            from <= self@.len(),
        ensures
            from <= r <= self@.len(),
            forall|i: int| from <= i < r ==> (#[trigger] self@[i]).pgend + 1 >= qs,
            r < self@.len() ==> self@[r as int].pgend + 1 < qs,
    {
        let n = self.ranges.len();
        let mut i: usize = from;
        while i < n
            invariant
                n == self@.len(),
                from <= i <= n,
                forall|k: int| from <= k < i ==> (#[trigger] self@[k]).pgend + 1 >= qs,
            decreases n - i,
        {
            let e = self.ranges[i];
            if qs > 0 && e.pgend < qs - 1 {
                return i;
            }
            i = i + 1;
        }
        i
    }

    /// First position at or after `from` whose entry ends strictly below
    /// `qs`; entries in between reach `qs` or beyond.
    pub fn seek_end_before(&self, from: usize, qs: usize) -> (r: usize)
        requires
            from <= self@.len(),
        ensures
            from <= r <= self@.len(),
            forall|i: int| from <= i < r ==> (#[trigger] self@[i]).pgend >= qs,
            r < self@.len() ==> self@[r as int].pgend < qs,
    {
        let n = self.ranges.len();
        let mut i: usize = from;
        while i < n
            invariant
                n == self@.len(),
                from <= i <= n,
                forall|k: int| from <= k < i ==> (#[trigger] self@[k]).pgend >= qs,
            decreases n - i,
        {
            if self.ranges[i].pgend < qs {
                return i;
            }
            i = i + 1;
        }
        i
    }

    /// Replace the entries of positions `[hi, lo)` by `pieces`, keeping
    /// everything around them in order.
    pub fn replace_span(&mut self, hi: usize, lo: usize, pieces: &Vec<Range>)
        requires
            hi <= lo <= old(self)@.len(),
        ensures
            final(self)@ == old(self)@.take(hi as int) + pieces@ + old(self)@.skip(lo as int),
    {
        let ghost s = self.ranges@;
        let n = self.ranges.len();
        let mut out: Vec<Range> = Vec::new();
        let mut i: usize = 0;
        while i < hi
            invariant
                hi <= n,
                n == s.len(),
                0 <= i <= hi,
                self.ranges@ == s,
                out@ =~= s.take(i as int),
            decreases hi - i,
        {
            out.push(self.ranges[i]);
            proof {
                assert(out@ =~= s.take(i as int + 1));
            }
            i = i + 1;
        }
        let m = pieces.len();
        let mut j: usize = 0;
        while j < m
            invariant
                hi <= n,
                n == s.len(),
                m == pieces@.len(),
                0 <= j <= m,
                self.ranges@ == s,
                out@ =~= s.take(hi as int) + pieces@.take(j as int),
            decreases m - j,
        {
            out.push(pieces[j]);
            proof {
                assert(out@ =~= s.take(hi as int) + pieces@.take(j as int + 1));
            }
            j = j + 1;
        }
        let mut k: usize = lo;
        while k < n
            invariant
                hi <= lo <= n,
                n == s.len(),
                m == pieces@.len(),
                lo <= k <= n,
                self.ranges@ == s,
                out@ =~= s.take(hi as int) + pieces@ + s.skip(lo as int).take(k - lo),
            decreases n - k,
        {
            out.push(self.ranges[k]);
            proof {
                assert(out@ =~= s.take(hi as int) + pieces@ + s.skip(lo as int).take(
                    k - lo + 1,
                ));
            }
            k = k + 1;
        }
        self.ranges = out;
        proof {
            assert(s.skip(lo as int).take(n - lo) =~= s.skip(lo as int));
            assert(self.ranges@ =~= s.take(hi as int) + pieces@ + s.skip(lo as int));
        }
    }

    /// Read-only pin-status query: whether any entry intersects
    /// `[pgstart, pgend]`, i.e. whether the interval holds an unpinned
    /// page.
    pub fn range_has_unpinned_page(&self, pgstart: usize, pgend: usize) -> (r: bool)
        requires
            self.wf(),
            pgstart <= pgend,
        ensures
            r == (exists|p: int| pgstart <= p <= pgend && covers(self@, p)),
    {
        proof {
            lemma_overlap_is_covered_page(self@, pgstart as int, pgend as int);
        }
        let n = self.ranges.len();
        let mut i: usize = 0;
        while i < n
            invariant
                n == self@.len(),
                0 <= i <= n,
                self.wf(),
                pgstart <= pgend,
                forall|k: int|
                    0 <= k < i ==> !rng_overlaps(#[trigger] self@[k], pgstart as int, pgend as int),
            decreases n - i,
        {
            let e = self.ranges[i];
            proof {
                assert(rng_wf(self@[i as int]));
            }
            if e.overlaps_with_range(pgstart, pgend) {
                proof {
                    lemma_overlap_is_covered_page(self@, pgstart as int, pgend as int);
                    assert(rng_overlaps(self@[i as int], pgstart as int, pgend as int));
                }
                return true;
            }
            i = i + 1;
        }
        proof {
            if exists|k: int|
                0 <= k < self@.len()
                    && rng_overlaps(#[trigger] self@[k], pgstart as int, pgend as int) {
                let k = choose|k: int|
                    0 <= k < self@.len()
                        && rng_overlaps(#[trigger] self@[k], pgstart as int, pgend as int);
                assert(false);
            }
        }
        false
    }

    /// Drop every entry: used when the owning object goes away.
    pub fn clear(&mut self)
        ensures
            final(self)@ == Seq::<Range>::empty(),
            final(self).wf(),
    {
        self.ranges.clear();
        proof {
            assert(self.ranges@ =~= Seq::<Range>::empty());
        }
    }

    /// Set the purge flag of the entry starting at `pgstart`, leaving its
    /// bounds and every other entry unchanged.
    pub fn mark_purged(&mut self, pgstart: usize) -> (found: bool)
        ensures
            final(self)@.len() == old(self)@.len(),
            forall|i: int|
                0 <= i < old(self)@.len() && (#[trigger] old(self)@[i]).pgstart != pgstart
                    ==> final(self)@[i] == old(self)@[i],
            forall|i: int|
                0 <= i < old(self)@.len() && (#[trigger] old(self)@[i]).pgstart == pgstart
                    ==> final(self)@[i] == (Range { purged: true, ..old(self)@[i] }),
            found == (exists|i: int|
                0 <= i < old(self)@.len() && (#[trigger] old(self)@[i]).pgstart == pgstart),
    {
        let ghost s = self.ranges@;
        let n = self.ranges.len();
        let mut i: usize = 0;
        let mut found = false;
        while i < n
            invariant
                n == s.len(),
                0 <= i <= n,
                s == old(self).ranges@,
                self.ranges@.len() == n,
                forall|k: int|
                    0 <= k < n && (#[trigger] s[k]).pgstart != pgstart
                        ==> self.ranges@[k] == s[k],
                forall|k: int|
                    0 <= k < i && (#[trigger] s[k]).pgstart == pgstart
                        ==> self.ranges@[k] == (Range { purged: true, ..s[k] }),
                forall|k: int|
                    i <= k < n ==> self.ranges@[k] == s[k],
                found == (exists|k: int| 0 <= k < i && (#[trigger] s[k]).pgstart == pgstart),
            decreases n - i,
        {
            let e = self.ranges[i];
            if e.pgstart == pgstart {
                self.ranges.set(i, Range { purged: true, ..e });
                found = true;
            }
            proof {
                if e.pgstart == pgstart {
                    assert(s[i as int].pgstart == pgstart);
                    assert(exists|k: int| 0 <= k < i + 1 && (#[trigger] s[k]).pgstart == pgstart);
                } else {
                    if exists|k: int| 0 <= k < i && (#[trigger] s[k]).pgstart == pgstart {
                        let k = choose|k: int|
                            0 <= k < i && (#[trigger] s[k]).pgstart == pgstart;
                        assert(0 <= k < i + 1 && s[k].pgstart == pgstart);
                    }
                    if exists|k: int| 0 <= k < i + 1 && (#[trigger] s[k]).pgstart == pgstart {
                        let k = choose|k: int|
                            0 <= k < i + 1 && (#[trigger] s[k]).pgstart == pgstart;
                        assert(k != i);
                        assert(0 <= k < i && s[k].pgstart == pgstart);
                    }
                }
            }
            i = i + 1;
        }
        found
    }
}

} // verus!
